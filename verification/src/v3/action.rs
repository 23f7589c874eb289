//! The actions of an SLC3 action atom.

use vstd::prelude::*;

verus! {

/// What an action does.
#[derive(Clone, Copy, Debug, PartialEq, Eq, Structural)]
pub enum ActionType {
    Jump,
    Left,
    Right,
    Restart,
    RestartFull,
    Death,
    TPS,
    Bugpoint,
}

impl ActionType {
    /// A button of a player: jump, left or right.
    pub open spec fn is_player_type(self) -> bool {
        self is Jump || self is Left || self is Right
    }

    /// A restart or a death, which carry a random seed.
    pub open spec fn carries_seed(self) -> bool {
        self is Restart || self is RestartFull || self is Death
    }
}

/// A positive, finite IEEE-754 double, given by its bit pattern: the only
/// tick rates that the format accepts.
pub open spec fn valid_tps_bits(bits: u64) -> bool {
    0 < bits < 0x7FF0_0000_0000_0000
}

/// Tells whether the double with bit pattern `bits` is finite and greater than zero.
pub fn is_valid_tps(bits: u64) -> (r: bool)
    ensures
        r == valid_tps_bits(bits),
{
    0 < bits && bits < 0x7FF0_0000_0000_0000
}

/// One action of a replay.
///
/// `tps_bits` is the bit pattern of the tick rate of a `TPS` action.
/// `delta` is the distance in frames to the previous action, and `swift`
/// marks one half of a jump pressed and released on one frame; the
/// encoder maintains both.
#[derive(Clone, Copy, Debug, PartialEq, Eq, Structural)]
pub struct Action {
    pub frame: u64,
    pub action_type: ActionType,
    pub holding: bool,
    pub player2: bool,
    pub seed: u64,
    pub tps_bits: u64,
    pub delta: u64,
    pub swift: bool,
}

impl Action {
    /// The two actions say the same thing: their frame, their type and the
    /// data that the type carries agree.
    pub open spec fn same_content(self, other: Action) -> bool {
        &&& self.frame == other.frame
        &&& self.action_type == other.action_type
        &&& self.action_type.is_player_type() ==> self.holding == other.holding && self.player2
            == other.player2
        &&& self.action_type.carries_seed() ==> self.seed == other.seed
        &&& self.action_type is TPS ==> self.tps_bits == other.tps_bits
    }

    /// The action is a jump, left or right button action.
    pub open spec fn spec_is_player(self) -> bool {
        self.action_type.is_player_type()
    }

    pub open spec fn spec_player(
        previous_frame: u64,
        delta: u64,
        action_type: ActionType,
        holding: bool,
        player2: bool,
    ) -> Action {
        Action {
            frame: (previous_frame + delta) as u64,
            action_type,
            holding,
            player2,
            seed: 0,
            tps_bits: 0,
            delta,
            swift: false,
        }
    }

    pub open spec fn spec_death(previous_frame: u64, delta: u64, action_type: ActionType, seed: u64) -> Action {
        Action {
            frame: (previous_frame + delta) as u64,
            action_type,
            holding: false,
            player2: false,
            seed,
            tps_bits: 0,
            delta,
            swift: false,
        }
    }

    pub open spec fn spec_tps_change(previous_frame: u64, delta: u64, tps_bits: u64) -> Action {
        Action {
            frame: (previous_frame + delta) as u64,
            action_type: ActionType::TPS,
            holding: false,
            player2: false,
            seed: 0,
            tps_bits,
            delta,
            swift: false,
        }
    }

    pub open spec fn spec_bugpoint(previous_frame: u64, delta: u64) -> Action {
        Action {
            frame: (previous_frame + delta) as u64,
            action_type: ActionType::Bugpoint,
            holding: false,
            player2: false,
            seed: 0,
            tps_bits: 0,
            delta,
            swift: false,
        }
    }

    /// A player action `delta` frames after `previous_frame`.
    pub fn player(
        previous_frame: u64,
        delta: u64,
        action_type: ActionType,
        holding: bool,
        player2: bool,
    ) -> (r: Self)
        requires
            previous_frame + delta <= u64::MAX,
        ensures
            r == Self::spec_player(previous_frame, delta, action_type, holding, player2),
    {
        Action {
            frame: previous_frame + delta,
            action_type,
            holding,
            player2,
            seed: 0,
            tps_bits: 0,
            delta,
            swift: false,
        }
    }

    /// A restart, full restart or death `delta` frames after `previous_frame`.
    pub fn death(previous_frame: u64, delta: u64, action_type: ActionType, seed: u64) -> (r: Self)
        requires
            previous_frame + delta <= u64::MAX,
        ensures
            r == Self::spec_death(previous_frame, delta, action_type, seed),
    {
        Action {
            frame: previous_frame + delta,
            action_type,
            holding: false,
            player2: false,
            seed,
            tps_bits: 0,
            delta,
            swift: false,
        }
    }

    /// A change of the tick rate to the double with bit pattern `tps_bits`,
    /// `delta` frames after `previous_frame`.
    pub fn tps_change(previous_frame: u64, delta: u64, tps_bits: u64) -> (r: Self)
        requires
            previous_frame + delta <= u64::MAX,
        ensures
            r == Self::spec_tps_change(previous_frame, delta, tps_bits),
    {
        Action {
            frame: previous_frame + delta,
            action_type: ActionType::TPS,
            holding: false,
            player2: false,
            seed: 0,
            tps_bits,
            delta,
            swift: false,
        }
    }

    /// A bugpoint `delta` frames after `previous_frame`.
    pub fn bugpoint(previous_frame: u64, delta: u64) -> (r: Self)
        requires
            previous_frame + delta <= u64::MAX,
        ensures
            r == Self::spec_bugpoint(previous_frame, delta),
    {
        Action {
            frame: previous_frame + delta,
            action_type: ActionType::Bugpoint,
            holding: false,
            player2: false,
            seed: 0,
            tps_bits: 0,
            delta,
            swift: false,
        }
    }

    /// Frames since the previous action.
    pub fn delta(&self) -> (r: u64)
        ensures
            r == self.delta,
    {
        self.delta
    }

    /// Whether the action is one half of a press and release on one frame.
    pub fn swift(&self) -> (r: bool)
        ensures
            r == self.swift,
    {
        self.swift
    }

    /// Marks the action as one half of a press and release on one frame.
    pub(crate) fn set_swift(&mut self, swift: bool)
        ensures
            *final(self) == (Action { swift, ..*old(self) }),
            final(self).swift == swift,
            final(self).delta == old(self).delta,
    {
        self.swift = swift;
    }

    /// Whether the action is a jump, left or right button action.
    pub fn is_player(&self) -> (r: bool)
        ensures
            r == self.spec_is_player(),
    {
        match self.action_type {
            ActionType::Jump | ActionType::Left | ActionType::Right => true,
            _ => false,
        }
    }

    /// The delta size code (bytes `1 << code`) that the action's delta needs:
    /// player deltas sit above 4 bits of button data, others stand alone.
    pub open spec fn spec_minimum_size(self) -> u8 {
        let offset: nat = if self.spec_is_player() { 4 } else { 8 };
        if (self.delta as nat) < vstd::arithmetic::power2::pow2(offset) {
            0
        } else if (self.delta as nat) < vstd::arithmetic::power2::pow2(offset + 8) {
            1
        } else if (self.delta as nat) < vstd::arithmetic::power2::pow2(offset + 24) {
            2
        } else {
            3
        }
    }

    pub fn minimum_size(&self) -> (r: u8)
        ensures
            r == self.spec_minimum_size(),
    {
        proof {
            vstd::arithmetic::power2::lemma2_to64();
        }
        let (one, two, four): (u64, u64, u64) = if self.is_player() {
            (0x10, 0x1000, 0x1000_0000)
        } else {
            (0x100, 0x1_0000, 0x1_0000_0000)
        };
        if self.delta < one {
            0
        } else if self.delta < two {
            1
        } else if self.delta < four {
            2
        } else {
            3
        }
    }
}

} // verus!
