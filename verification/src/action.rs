//! The format-neutral actions of a replay, into which both versions convert.

use vstd::prelude::*;

verus! {

/// Which of the two players an input is for.
#[derive(Clone, Copy, Debug, PartialEq, Eq, Structural)]
pub enum Player {
    Player1,
    Player2,
}

impl Player {
    /// The short name of the player: "p1" or "p2".
    pub fn name(&self) -> (r: &'static str)
        ensures
            r@ == (match self {
                Player::Player1 => "p1"@,
                Player::Player2 => "p2"@,
            }),
    {
        match self {
            Player::Player1 => "p1",
            Player::Player2 => "p2",
        }
    }
}

/// A button of a player.
#[derive(Clone, Copy, Debug, PartialEq, Eq, Structural)]
pub enum PlayerAction {
    Jump,
    Left,
    Right,
}

/// The number that SLC2 gives a button: 1 jump, 2 left, 3 right.
pub open spec fn v2_button(a: PlayerAction) -> u8 {
    match a {
        PlayerAction::Jump => 1,
        PlayerAction::Left => 2,
        PlayerAction::Right => 3,
    }
}

impl PlayerAction {
    /// The button's number in an SLC2 player input.
    pub fn to_v2_button(&self) -> (r: u8)
        ensures
            r == v2_button(*self),
    {
        match self {
            PlayerAction::Jump => 1,
            PlayerAction::Left => 2,
            PlayerAction::Right => 3,
        }
    }

    /// The name of the button: "jump", "left" or "right".
    pub fn name(&self) -> (r: &'static str)
        ensures
            r@ == (match self {
                PlayerAction::Jump => "jump"@,
                PlayerAction::Left => "left"@,
                PlayerAction::Right => "right"@,
            }),
    {
        match self {
            PlayerAction::Jump => "jump",
            PlayerAction::Left => "left",
            PlayerAction::Right => "right",
        }
    }
}

/// A press (`down`) or release of a player's button.
#[derive(Clone, Copy, Debug, PartialEq, Eq, Structural)]
pub struct PlayerInput {
    pub action: PlayerAction,
    pub down: bool,
    pub player: Player,
}

/// What an action does. `TPS` holds the bit pattern of the new tick rate.
#[derive(Clone, Copy, Debug, PartialEq, Eq, Structural)]
pub enum ActionData {
    /// A player's button push or release.
    Player(PlayerInput),
    /// Restarts the level.
    Restart { seed: u64 },
    /// Restarts the level fully.
    RestartFull { seed: u64 },
    /// The player may die on any later frame.
    Death { seed: u64 },
    /// Changes the tick rate of the replay.
    TPS(u64),
    /// A checkpoint placed through a removed bug; kept for compatibility.
    Bugpoint,
}

/// An action on a frame.
#[derive(Clone, Copy, Debug, PartialEq, Eq, Structural)]
pub struct Action {
    pub frame: u64,
    pub data: ActionData,
}

} // verus!
