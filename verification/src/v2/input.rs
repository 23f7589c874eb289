//! The inputs of an SLC2 replay.
//!
//! An input is stored as a little-endian state of 1, 2, 4 or 8 bytes: bit 0
//! is "hold", bit 1 "player 2", bits 2 to 4 the kind of input and the bits
//! above them the delta to the previous input's frame. A tick-rate change
//! is followed by the 8 bytes of its rate.

use vstd::prelude::*;
use crate::bytes::{
    le_value,
    le_bytes,
    read_le,
    write_le,
    lemma_le_value_bound,
    lemma_le_round_trip,
    lemma_pow256_values,
};
use vstd::arithmetic::power::{pow, lemma_pow_increases};

verus! {

/// A player input. The buttons are those of the game: 1 jump, 2 left, 3 right.
#[derive(Clone, Copy, Debug, PartialEq, Eq, Structural)]
pub struct PlayerInput {
    pub hold: bool,
    pub player_2: bool,
    pub button: u8,
}

/// What an input does. `TPS` holds the bit pattern of the new tick rate.
#[derive(Clone, Copy, Debug, PartialEq, Eq, Structural)]
pub enum InputData {
    /// Does nothing.
    Skip,
    /// A player button push or release.
    Player(PlayerInput),
    /// Restarts the level.
    Restart,
    /// Restarts the level fully.
    RestartFull,
    /// The player may die on any later frame.
    Death,
    /// Changes the tick rate of the replay.
    TPS(u64),
}

/// An input on a frame; `delta` is the distance to the previous input's frame.
#[derive(Clone, Copy, Debug, PartialEq, Eq, Structural)]
pub struct Input {
    pub delta: u64,
    pub frame: u64,
    pub data: InputData,
}

/// Why an input could not be read.
#[derive(Clone, Copy, Debug, PartialEq, Eq, Structural)]
pub enum InputError {
    /// The data ends inside the input.
    UnexpectedEof,
    InvalidTPS,
    InvalidButton,
    /// The input's frame does not fit in 64 bits.
    FrameOverflow,
}

/// The kind of input, bits 2 to 4 of its state.
pub open spec fn kind_code(data: InputData) -> u64 {
    match data {
        InputData::Skip => 0,
        InputData::Player(p) => p.button as u64,
        InputData::Restart => 4,
        InputData::RestartFull => 5,
        InputData::Death => 6,
        InputData::TPS(_) => 7,
    }
}

/// Bits 0 and 1 of an input's state: "hold" and "player 2".
pub open spec fn low_bits(data: InputData) -> u64 {
    match data {
        InputData::Player(p) => (if p.hold {
            1u64
        } else {
            0u64
        }) | ((if p.player_2 {
            1u64
        } else {
            0u64
        }) << 1u64),
        _ => 0,
    }
}

/// The state that stands for the input; the delta's top five bits fall off.
pub open spec fn spec_state(i: Input) -> u64 {
    (kind_code(i.data) << 2u64) | low_bits(i.data) | (i.delta << 5u64)
}

/// The fewest bytes that hold the input's state; 8 for a tick-rate change.
pub open spec fn spec_required_bytes(i: Input) -> u8 {
    if i.data is TPS {
        8
    } else {
        let s = spec_state(i);
        if s < 0x100 {
            1
        } else if s < 0x1_0000 {
            2
        } else if s < 0x1_0000_0000 {
            4
        } else {
            8
        }
    }
}

/// The bytes of the input, its state given `byte_size` bytes.
pub open spec fn input_bytes(i: Input, byte_size: nat) -> Seq<u8> {
    le_bytes(spec_state(i) as nat, byte_size) + match i.data {
        InputData::TPS(bits) => le_bytes(bits as nat, 8),
        _ => Seq::empty(),
    }
}

/// The input that the state `state` stands for, on top of `frame`; a
/// tick-rate change reads its rate separately.
pub open spec fn decode_state(state: u64, tps_bits: u64) -> InputData {
    let kind = (state & 28u64) >> 2u64;
    if kind == 0 {
        InputData::Skip
    } else if kind <= 3 {
        InputData::Player(
            PlayerInput { hold: state & 1u64 != 0, player_2: state & 2u64 != 0, button: kind as u8 },
        )
    } else if kind == 4 {
        InputData::Restart
    } else if kind == 5 {
        InputData::RestartFull
    } else if kind == 6 {
        InputData::Death
    } else {
        InputData::TPS(tps_bits)
    }
}

/// Reads the input whose state of `byte_size` bytes starts at `pos`, on top
/// of `frame`: the input and where it ends. Of a state longer than 8 bytes
/// only the first 8 count.
pub open spec fn spec_read_input(data: Seq<u8>, pos: int, frame: u64, byte_size: nat) -> Result<
    (Input, int),
    InputError,
> {
    if data.len() - pos < byte_size {
        Err(InputError::UnexpectedEof)
    } else {
        let n = if byte_size < 8 {
            byte_size
        } else {
            8
        };
        let state = le_value(data.subrange(pos, pos + n)) as u64;
        let delta = state >> 5u64;
        let end = pos + byte_size;
        if frame + delta > u64::MAX {
            Err(InputError::FrameOverflow)
        } else if (state & 28u64) >> 2u64 == 7 {
            if data.len() - end < 8 {
                Err(InputError::UnexpectedEof)
            } else {
                let bits = le_value(data.subrange(end, end + 8)) as u64;
                Ok(
                    (
                        Input {
                            delta,
                            frame: (frame + delta) as u64,
                            data: decode_state(state, bits),
                        },
                        end + 8,
                    ),
                )
            }
        } else {
            Ok(
                (
                    Input { delta, frame: (frame + delta) as u64, data: decode_state(state, 0) },
                    end,
                ),
            )
        }
    }
}

/// The input can be written and read back as it is: a player input has a
/// button from 1 to 3, and the delta fits the 59 bits that a state has for it.
pub open spec fn representable(i: Input) -> bool {
    &&& i.delta < 0x800_0000_0000_0000
    &&& i.data matches InputData::Player(p) ==> 1 <= p.button <= 3
}

impl Input {
    /// Reads the input whose state of `byte_size` bytes starts at `pos`, on
    /// top of `current_frame`; gives the input and where it ends.
    pub fn read(data: &[u8], pos: usize, current_frame: u64, byte_size: u64) -> (r: Result<
        (Input, usize),
        InputError,
    >)
        requires
            pos <= data@.len(),
        ensures
            match spec_read_input(data@, pos as int, current_frame, byte_size as nat) {
                Ok((i, q)) => (r matches Ok((i2, q2)) && i2 == i && q2 == q),
                Err(e) => r == Err::<(Input, usize), InputError>(e),
            },
    {
        let len = data.len();
        if byte_size > (len - pos) as u64 {
            return Err(InputError::UnexpectedEof);
        }
        let n: usize = if byte_size < 8 {
            byte_size as usize
        } else {
            8
        };
        let state = read_le(data, pos, n);
        let delta = state >> 5u64;
        let end = pos + byte_size as usize;
        if delta > u64::MAX - current_frame {
            return Err(InputError::FrameOverflow);
        }
        let frame = current_frame + delta;
        let kind = (state & 28u64) >> 2u64;
        assert((state & 28u64) >> 2u64 <= 7u64) by (bit_vector);
        let input_data = if kind == 0 {
            InputData::Skip
        } else if kind <= 3 {
            InputData::Player(
                PlayerInput {
                    hold: state & 1u64 != 0,
                    player_2: state & 2u64 != 0,
                    button: kind as u8,
                },
            )
        } else if kind == 4 {
            InputData::Restart
        } else if kind == 5 {
            InputData::RestartFull
        } else if kind == 6 {
            InputData::Death
        } else {
            if len - end < 8 {
                return Err(InputError::UnexpectedEof);
            }
            let bits = read_le(data, end, 8);
            proof {
                lemma_pow256_values();
                lemma_le_value_bound(data@.subrange(end as int, end + 8));
            }
            return Ok((Input { delta, frame, data: InputData::TPS(bits) }, end + 8));
        };
        Ok((Input { delta, frame, data: input_data }, end))
    }

    /// The state that stands for the input.
    pub fn to_state(&self) -> (r: u64)
        ensures
            r == spec_state(*self),
    {
        let (kind, low): (u64, u64) = match self.data {
            InputData::Skip => (0, 0),
            InputData::Player(p) => (p.button as u64, (if p.hold {
                1u64
            } else {
                0u64
            }) | ((if p.player_2 {
                1u64
            } else {
                0u64
            }) << 1u64)),
            InputData::Restart => (4, 0),
            InputData::RestartFull => (5, 0),
            InputData::Death => (6, 0),
            InputData::TPS(_) => (7, 0),
        };
        (kind << 2u64) | low | (self.delta << 5u64)
    }

    /// The fewest bytes (1, 2, 4 or 8) that hold the input's state; 8 for a
    /// tick-rate change.
    pub fn required_bytes(&self) -> (r: u8)
        ensures
            r == spec_required_bytes(*self),
    {
        if let InputData::TPS(_) = self.data {
            return 8;
        }
        let state = self.to_state();
        if state < 0x100 {
            1
        } else if state < 0x1_0000 {
            2
        } else if state < 0x1_0000_0000 {
            4
        } else {
            8
        }
    }

    /// Appends the input: its state in `byte_size` bytes, then the rate of a
    /// tick-rate change.
    pub fn write(&self, out: &mut Vec<u8>, byte_size: u64)
        requires
            byte_size <= 8,
        ensures
            final(out)@ == old(out)@ + input_bytes(*self, byte_size as nat),
    {
        let state = self.to_state();
        write_le(out, state, byte_size as usize);
        if let InputData::TPS(bits) = self.data {
            write_le(out, bits, 8);
        }
        proof {
            assert(final(out)@ =~= old(out)@ + input_bytes(*self, byte_size as nat));
        }
    }
}

/// The state of a representable input gives back its delta and its kind.
proof fn lemma_state_decodes(i: Input)
    requires
        representable(i),
    ensures
        spec_state(i) >> 5u64 == i.delta,
        decode_state(
            spec_state(i),
            match i.data {
                InputData::TPS(b) => b,
                _ => 0,
            },
        ) == i.data,
        ((spec_state(i) & 28u64) >> 2u64 == 7) <==> i.data is TPS,
{
    let d = i.delta;
    let k = kind_code(i.data);
    let h: u64 = match i.data {
        InputData::Player(p) => if p.hold {
            1
        } else {
            0
        },
        _ => 0,
    };
    let q: u64 = match i.data {
        InputData::Player(p) => if p.player_2 {
            1
        } else {
            0
        },
        _ => 0,
    };
    let low = low_bits(i.data);
    if !(i.data is Player) {
        assert(0u64 | (0u64 << 1u64) == 0u64) by (bit_vector);
    }
    assert(low == h | (q << 1u64));
    let s = spec_state(i);
    assert(s >> 5u64 == d && (s & 28u64) >> 2u64 == k && (s & 1u64 != 0) == (h == 1) && (s & 2u64
        != 0) == (q == 1)) by (bit_vector)
        requires
            s == (k << 2u64) | (h | (q << 1u64)) | (d << 5u64),
            d < 0x800_0000_0000_0000u64,
            k < 8u64,
            h < 2u64,
            q < 2u64,
    ;
}

/// A representable input written with at least its required bytes reads
/// back as itself, on top of the frame before it.
pub proof fn lemma_input_round_trip(data: Seq<u8>, pos: int, frame: u64, i: Input, byte_size: nat)
    requires
        representable(i),
        byte_size == 1 || byte_size == 2 || byte_size == 4 || byte_size == 8,
        spec_required_bytes(i) <= byte_size,
        frame + i.delta == i.frame,
        0 <= pos,
        pos + input_bytes(i, byte_size).len() <= data.len(),
        data.subrange(pos, pos + input_bytes(i, byte_size).len()) == input_bytes(i, byte_size),
    ensures
        spec_read_input(data, pos, frame, byte_size) == Ok::<(Input, int), InputError>(
            (i, pos + input_bytes(i, byte_size).len()),
        ),
{
    lemma_pow256_values();
    lemma_state_decodes(i);
    let s = spec_state(i);
    let b = input_bytes(i, byte_size);
    assert(pow(256, 1) <= pow(256, byte_size)) by {
        lemma_pow_increases(256, 1, byte_size);
    }
    assert((s as nat) < pow(256, byte_size)) by {
        if byte_size == 1 {
        } else if byte_size == 2 {
        } else if byte_size == 4 {
        } else {
        }
    }
    lemma_le_round_trip(s as nat, byte_size);
    assert(data.subrange(pos, pos + byte_size) =~= le_bytes(s as nat, byte_size));
    if let InputData::TPS(bits) = i.data {
        lemma_le_round_trip(bits as nat, 8);
        assert(b.subrange(byte_size as int, byte_size as int + 8) =~= le_bytes(bits as nat, 8));
        assert(data.subrange(pos + byte_size, pos + byte_size + 8) =~= data.subrange(
            pos,
            pos + b.len(),
        ).subrange(byte_size as int, byte_size as int + 8));
    }
}

/// A read input ends after its state and within the data.
pub proof fn lemma_read_input_bounds(data: Seq<u8>, pos: int, frame: u64, byte_size: nat)
    requires
        0 <= pos,
    ensures
        spec_read_input(data, pos, frame, byte_size) matches Ok((_, q)) ==> pos + byte_size <= q
            <= data.len(),
{
}

/// The state written for an input carries its kind in bits 2 to 4: 0 for a
/// skip, the button (1 jump, 2 left, 3 right) for a player input, 4 for a
/// restart, 5 for a full restart, 6 for a death and 7 for a tick-rate
/// change. Bit 0 is a player input's hold and bit 1 its player 2; other
/// inputs leave both clear. The delta stands above bit 4.
pub proof fn lemma_state_kinds(i: Input)
    ensures
        ({
            let s = spec_state(i);
            let kind = (s >> 2u64) & 7u64;
            &&& i.data is Skip ==> kind == 0 && s & 3u64 == 0
            &&& i.data is Restart ==> kind == 4 && s & 3u64 == 0
            &&& i.data is RestartFull ==> kind == 5 && s & 3u64 == 0
            &&& i.data is Death ==> kind == 6 && s & 3u64 == 0
            &&& i.data is TPS ==> kind == 7 && s & 3u64 == 0
            &&& (i.data matches InputData::Player(p) && 1 <= p.button <= 3) ==> (kind
                == i.data->Player_0.button && (s & 1u64 == 1) == i.data->Player_0.hold && (s & 2u64
                == 2) == i.data->Player_0.player_2)
            &&& representable(i) ==> s >> 5u64 == i.delta
        }),
{
    let k = kind_code(i.data);
    let l = low_bits(i.data);
    let d = i.delta;
    let s = spec_state(i);
    assert(s == (k << 2u64) | l | (d << 5u64));
    let (h, p2) = match i.data {
        InputData::Player(p) => (p.hold, p.player_2),
        _ => (false, false),
    };
    let hb: u64 = if h {
        1
    } else {
        0
    };
    let pb: u64 = if p2 {
        1
    } else {
        0
    };
    assert((hb | (pb << 1u64)) <= 3) by (bit_vector)
        requires
            hb <= 1,
            pb <= 1,
    ;
    assert(((hb | (pb << 1u64)) & 1u64 == 1) == (hb == 1) && ((hb | (pb << 1u64)) & 2u64 == 2) == (
    pb == 1)) by (bit_vector)
        requires
            hb <= 1,
            pb <= 1,
    ;
    if i.data is Player {
        assert(l == hb | (pb << 1u64));
    } else {
        assert(l == 0);
    }
    assert(l <= 3);
    let good = i.data matches InputData::Player(p) && 1 <= p.button <= 3;
    if good || !(i.data is Player) {
        assert(k <= 7);
        assert((((k << 2u64) | l | (d << 5u64)) >> 2u64) & 7u64 == k && ((k << 2u64) | l | (d
            << 5u64)) & 3u64 == l && ((k << 2u64) | l | (d << 5u64)) & 1u64 == l & 1u64 && ((k
            << 2u64) | l | (d << 5u64)) & 2u64 == l & 2u64) by (bit_vector)
            requires
                k <= 7,
                l <= 3,
        ;
        assert(d < 0x800_0000_0000_0000 ==> ((k << 2u64) | l | (d << 5u64)) >> 5u64 == d)
            by (bit_vector)
            requires
                k <= 7,
                l <= 3,
        ;
        assert((l & 1u64 == 1) == (l & 1u64 == 1));
        if i.data is Player {
            assert((l & 1u64 == 1) == (hb == 1));
            assert((l & 2u64 == 2) == (pb == 1));
        }
    }
}

/// An input read from the state `s` at `pos` (its first `byte_size` bytes,
/// at most 8) is of the kind in bits 2 to 4 of `s`: 0 a skip, 1 to 3 a
/// player input of that button, holding where bit 0 is set and for player 2
/// where bit 1 is, 4 a restart, 5 a full restart, 6 a death, 7 a tick-rate
/// change to the rate of the 8 bytes that follow. It comes `s >> 5` frames
/// after `frame`.
pub proof fn lemma_read_input_kinds(data: Seq<u8>, pos: int, frame: u64, byte_size: nat)
    requires
        spec_read_input(data, pos, frame, byte_size) is Ok,
    ensures
        ({
            let n = if byte_size < 8 {
                byte_size
            } else {
                8
            };
            let s = le_value(data.subrange(pos, pos + n)) as u64;
            let kind = (s >> 2u64) & 7u64;
            let i = spec_read_input(data, pos, frame, byte_size)->Ok_0.0;
            &&& i.delta == s >> 5u64
            &&& i.frame == frame + (s >> 5u64)
            &&& kind == 0 ==> i.data is Skip
            &&& 1 <= kind <= 3 ==> i.data == InputData::Player(
                PlayerInput { hold: s & 1u64 == 1, player_2: s & 2u64 == 2, button: kind as u8 },
            )
            &&& kind == 4 ==> i.data is Restart
            &&& kind == 5 ==> i.data is RestartFull
            &&& kind == 6 ==> i.data is Death
            &&& kind == 7 ==> i.data == InputData::TPS(
                le_value(data.subrange(pos + byte_size, pos + byte_size + 8)) as u64,
            )
        }),
{
    let n = if byte_size < 8 {
        byte_size
    } else {
        8
    };
    let s = le_value(data.subrange(pos, pos + n)) as u64;
    assert((s & 28u64) >> 2u64 == (s >> 2u64) & 7u64) by (bit_vector);
    assert((s & 1u64 != 0) == (s & 1u64 == 1)) by (bit_vector);
    assert((s & 2u64 != 0) == (s & 2u64 == 2)) by (bit_vector);
}

} // verus!
