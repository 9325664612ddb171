use vstd::prelude::*;
use vstd::string::StringSliceAdditionalSpecFns;

verus! {

/// One sprite of a texture atlas: its name and its corner in pixels.
pub struct TilemapSprite {
    pub name: &'static str,
    pub pixel_x: u32,
    pub pixel_y: u32,
}

/// A texture atlas of equally sized tiles.
pub struct TilemapDefinition {
    pub tile_width: u32,
    pub tile_height: u32,
    pub atlas_width: u32,
    pub atlas_height: u32,
    pub sprites: &'static [TilemapSprite],
}

/// A pixel rectangle, `min` inclusive and `max` exclusive.
#[derive(Debug, Clone, Copy, PartialEq, Eq, Structural)]
pub struct PixelRect {
    pub min_x: u32,
    pub min_y: u32,
    pub max_x: u32,
    pub max_y: u32,
}

/// `a` and `b` hold the same bytes.
fn same_str(a: &str, b: &str) -> (r: bool)
    ensures
        r == (a.spec_bytes() == b.spec_bytes()),
{
    let x = a.as_bytes();
    let y = b.as_bytes();
    if x.len() != y.len() {
        return false;
    }
    let mut i: usize = 0;
    while i < x.len()
        invariant
            x@ == a.spec_bytes(),
            y@ == b.spec_bytes(),
            x@.len() == y@.len(),
            i <= x@.len(),
            forall|j: int| 0 <= j < i ==> x@[j] == y@[j],
        decreases x@.len() - i,
    {
        if x[i] != y[i] {
            return false;
        }
        i = i + 1;
    }
    proof {
        assert(x@ =~= y@);
    }
    true
}

impl TilemapDefinition {
    /// Width and height of one tile, in pixels.
    pub fn tile_size(&self) -> (r: (u32, u32))
        ensures
            r == (self.tile_width, self.tile_height),
    {
        (self.tile_width, self.tile_height)
    }

    /// Width and height of the whole atlas, in pixels.
    pub fn atlas_size(&self) -> (r: (u32, u32))
        ensures
            r == (self.atlas_width, self.atlas_height),
    {
        (self.atlas_width, self.atlas_height)
    }

    /// Index of the first sprite called `name`.
    pub fn sprite_index(&self, name: &str) -> (r: Option<usize>)
        ensures
            r.is_none() <==> forall|i: int|
                0 <= i < self.sprites@.len() ==> (#[trigger] self.sprites@[i]).name.spec_bytes()
                    != name.spec_bytes(),
            r.is_some() ==> {
                let i = r.unwrap() as int;
                &&& 0 <= i < self.sprites@.len()
                &&& self.sprites@[i].name.spec_bytes() == name.spec_bytes()
                &&& forall|j: int|
                    0 <= j < i ==> (#[trigger] self.sprites@[j]).name.spec_bytes()
                        != name.spec_bytes()
            },
    {
        let mut i: usize = 0;
        while i < self.sprites.len()
            invariant
                i <= self.sprites@.len(),
                forall|j: int|
                    0 <= j < i ==> (#[trigger] self.sprites@[j]).name.spec_bytes()
                        != name.spec_bytes(),
            decreases self.sprites@.len() - i,
        {
            if same_str(self.sprites[i].name, name) {
                return Some(i);
            }
            i = i + 1;
        }
        None
    }

    /// Pixel rectangle of sprite `index`.
    pub fn sprite_rect(&self, index: usize) -> (r: PixelRect)
        requires
            index < self.sprites@.len(),
            self.sprites@[index as int].pixel_x + self.tile_width <= u32::MAX,
            self.sprites@[index as int].pixel_y + self.tile_height <= u32::MAX,
        ensures
            r.min_x == self.sprites@[index as int].pixel_x,
            r.min_y == self.sprites@[index as int].pixel_y,
            r.max_x == self.sprites@[index as int].pixel_x + self.tile_width,
            r.max_y == self.sprites@[index as int].pixel_y + self.tile_height,
    {
        let sprite = &self.sprites[index];
        PixelRect {
            min_x: sprite.pixel_x,
            min_y: sprite.pixel_y,
            max_x: sprite.pixel_x + self.tile_width,
            max_y: sprite.pixel_y + self.tile_height,
        }
    }
}

} // verus!
