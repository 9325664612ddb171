use vstd::prelude::*;

verus! {

/// What a character is doing.
#[derive(Debug, Clone, Copy, PartialEq, Eq, Structural)]
pub enum CharacterState {
    Idle,
    Walking,
    Running,
    Jumping,
}

impl Default for CharacterState {
    fn default() -> (r: CharacterState)
        ensures
            r == CharacterState::Idle,
    {
        CharacterState::Idle
    }
}

impl CharacterState {
    /// Standing on the ground: every state but jumping.
    pub fn is_grounded(&self) -> (r: bool)
        ensures
            r == (*self != CharacterState::Jumping),
    {
        matches!(self, CharacterState::Idle | CharacterState::Walking | CharacterState::Running)
    }
}

/// Top-level phase of the game.
#[derive(Debug, Clone, Copy, PartialEq, Eq, Structural, Hash)]
pub enum GameState {
    Loading,
    Playing,
    Paused,
}

impl Default for GameState {
    fn default() -> (r: GameState)
        ensures
            r == GameState::Loading,
    {
        GameState::Loading
    }
}

} // verus!
