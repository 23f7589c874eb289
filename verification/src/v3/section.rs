//! The sections that an action atom is packed into.
//!
//! A section starts with a 16-bit little-endian header whose two top bits
//! name its kind. Input sections hold `2^count_exp` player states, repeat
//! sections hold `2^count_exp` states that are replayed `2^repeats_exp`
//! times, and special sections hold one non-player action.

use vstd::prelude::*;
use vstd::arithmetic::power2::*;
use vstd::bits::*;
use crate::bytes::{le_value, le_bytes, read_le, write_le, lemma_le_bytes_len, lemma_le_value_of_bytes, lemma_le_value_bound};
use crate::v3::action::{Action, ActionType, valid_tps_bits, is_valid_tps};

verus! {

// ---------------------------------------------------------------------------
// Powers of two
// ---------------------------------------------------------------------------

/// The exponent of the largest power of two that is at most `n` (for n >= 1).
pub open spec fn log2_floor(n: nat) -> nat
    decreases n,
{
    if n <= 1 {
        0
    } else {
        1 + log2_floor(n / 2)
    }
}

/// `floor(log2(n))`, capped at 15 (the widest count field), and 0 for 0.
pub open spec fn spec_exponent_of_two(n: u32) -> u16 {
    if n == 0 {
        0
    } else if log2_floor(n as nat) >= 15 {
        15
    } else {
        log2_floor(n as nat) as u16
    }
}

/// The largest power of two at most `n` (counting `n` by its low 32 bits), and
/// never above `2^15`; 0 for 0.
pub open spec fn spec_largest_power_of_two(n: usize) -> usize {
    if n == 0 {
        0
    } else {
        pow2(spec_exponent_of_two(n as u32) as nat) as usize
    }
}

pub proof fn lemma_log2_below(n: nat, k: nat)
    requires
        1 <= n < pow2(k),
    ensures
        log2_floor(n) < k,
    decreases n,
{
    lemma2_to64();
    if k == 0 {
    } else {
        lemma_pow2_unfold(k);
        if n > 1 {
            lemma_log2_below(n / 2, (k - 1) as nat);
        }
    }
}

pub proof fn lemma_pow2_log2(n: nat)
    requires
        n >= 1,
    ensures
        pow2(log2_floor(n)) <= n < 2 * pow2(log2_floor(n)),
    decreases n,
{
    lemma2_to64();
    if n > 1 {
        lemma_pow2_log2(n / 2);
        lemma_pow2_unfold(log2_floor(n));
    }
}

pub proof fn lemma_log2_of_pow2(k: nat)
    ensures
        log2_floor(pow2(k)) == k,
    decreases k,
{
    lemma2_to64();
    if k > 0 {
        lemma_pow2_unfold(k);
        lemma_pow2_pos((k - 1) as nat);
        lemma_log2_of_pow2((k - 1) as nat);
        assert(pow2(k) / 2 == pow2((k - 1) as nat));
    }
}

/// The largest power of two that is at most `n` is a power of two `2^e`
/// with `e <= 15`, at least 1 and at most `n`, whose exponent is `e`.
pub proof fn lemma_largest_power_of_two(n: usize)
    requires
        n >= 1,
    ensures
        ({
            let e = spec_exponent_of_two(n as u32);
            let p = spec_largest_power_of_two(n);
            &&& e <= 15
            &&& p as nat == pow2(e as nat)
            &&& 1 <= p <= n
            &&& p <= 0x8000
            &&& spec_exponent_of_two(p as u32) == e
            &&& spec_largest_power_of_two(p) == p
        }),
{
    lemma2_to64();
    let m = n as u32;
    let e = spec_exponent_of_two(m);
    if e < 15 {
        lemma_pow2_strictly_increases(e as nat, 15);
    }
    if m != 0 {
        lemma_pow2_log2(m as nat);
        if log2_floor(m as nat) > 15 {
            lemma_pow2_strictly_increases(15, log2_floor(m as nat));
        }
        assert(m as nat <= n) by {
            if n <= u32::MAX {
                assert(m == n);
            }
        }
    }
    let p = pow2(e as nat);
    lemma_log2_of_pow2(e as nat);
    assert(p as u32 == p);
}

/// `floor(log2(n))` capped at 15; 0 for 0.
pub(crate) fn exponent_of_two(n: u32) -> (r: u16)
    ensures
        r == spec_exponent_of_two(n),
{
    if n == 0 {
        return 0;
    }
    proof {
        lemma2_to64();
        lemma_log2_below(n as nat, 32);
    }
    let mut m: u32 = n;
    let mut e: u32 = 0;
    while m > 1
        invariant
            1 <= m,
            e + log2_floor(m as nat) == log2_floor(n as nat),
            log2_floor(n as nat) < 32,
        decreases m,
    {
        m = m / 2;
        e = e + 1;
    }
    if e >= 15 {
        15
    } else {
        e as u16
    }
}

/// The largest power of two at most `n` (its low 32 bits), capped at `2^15`.
pub(crate) fn largest_power_of_two(n: usize) -> (r: usize)
    ensures
        r == spec_largest_power_of_two(n),
{
    if n == 0 {
        return 0;
    }
    let e = exponent_of_two(n as u32);
    proof {
        lemma_largest_power_of_two(n);
        lemma2_to64();
    }
    let mut p: usize = 1;
    let mut i: u16 = 0;
    while i < e
        invariant
            i <= e <= 15,
            p as nat == pow2(i as nat),
            e == spec_exponent_of_two(n as u32),
        decreases e - i,
    {
        proof {
            lemma2_to64();
            lemma_pow2_unfold((i + 1) as nat);
            lemma_pow2_strictly_increases(i as nat, 15);
        }
        p = p * 2;
        i = i + 1;
    }
    p
}

// ---------------------------------------------------------------------------
// Errors, identifiers, buttons
// ---------------------------------------------------------------------------

/// Why a section could not be read.
#[derive(Clone, Copy, Debug, PartialEq, Eq, Structural)]
pub enum SectionError {
    /// The bytes ended inside the section.
    UnexpectedEof,
    InvalidIdentifier,
    InvalidButton,
    /// The section holds more actions than the atom declared.
    ActionCountExceeded,
    /// A frame does not fit in 64 bits.
    FrameOverflow,
    /// A tick rate (given by its bit pattern) that is not finite and positive.
    InvalidTPS(u64),
}

/// The kind of a section, the top two bits of its header.
#[derive(Clone, Copy, Debug, PartialEq, Eq, Structural)]
pub enum SectionIdentifier {
    Input,
    Repeat,
    Special,
}

/// The kind of action in a special section.
#[derive(Clone, Copy, Debug, PartialEq, Eq, Structural)]
pub enum SpecialType {
    Restart,
    RestartFull,
    Death,
    TPS,
    Bugpoint,
}

/// The button field of a player state. `Swift` stands for a jump pressed
/// and released on one frame.
#[derive(Clone, Copy, Debug, PartialEq, Eq, Structural)]
pub enum Button {
    Swift,
    Jump,
    Left,
    Right,
}

pub open spec fn button_code(b: Button) -> u64 {
    match b {
        Button::Swift => 0,
        Button::Jump => 1,
        Button::Left => 2,
        Button::Right => 3,
    }
}

pub open spec fn button_of_code(c: u64) -> Button {
    if c == 0 {
        Button::Swift
    } else if c == 1 {
        Button::Jump
    } else if c == 2 {
        Button::Left
    } else {
        Button::Right
    }
}

fn button_to_u64(b: Button) -> (r: u64)
    ensures
        r == button_code(b),
{
    match b {
        Button::Swift => 0,
        Button::Jump => 1,
        Button::Left => 2,
        Button::Right => 3,
    }
}

pub open spec fn special_code(t: SpecialType) -> u16 {
    match t {
        SpecialType::Restart => 0,
        SpecialType::RestartFull => 1,
        SpecialType::Death => 2,
        SpecialType::TPS => 3,
        SpecialType::Bugpoint => 4,
    }
}

fn special_to_u16(t: SpecialType) -> (r: u16)
    ensures
        r == special_code(t),
{
    match t {
        SpecialType::Restart => 0,
        SpecialType::RestartFull => 1,
        SpecialType::Death => 2,
        SpecialType::TPS => 3,
        SpecialType::Bugpoint => 4,
    }
}

pub open spec fn bit(b: bool) -> u64 {
    if b {
        1
    } else {
        0
    }
}

// ---------------------------------------------------------------------------
// Player inputs
// ---------------------------------------------------------------------------

/// One player state of an input or repeat section.
#[derive(Clone, Copy, Debug, PartialEq, Eq, Structural)]
pub struct PlayerInput {
    pub frame: u64,
    pub delta: u64,
    pub button: Button,
    pub holding: bool,
    pub player2: bool,
}

/// The 64 bits of a player state: delta above the button, player and hold bits.
pub open spec fn state_bits(p: PlayerInput) -> u64 {
    (p.delta << 4u64) | (button_code(p.button) << 2u64) | (bit(p.player2) << 1u64) | bit(p.holding)
}

/// The state of `p` cut to `byte_size` bytes.
pub open spec fn spec_prepare_state(p: PlayerInput, byte_size: u8) -> u64 {
    if byte_size == 8 {
        state_bits(p)
    } else {
        (state_bits(p) as nat % pow2(8 * byte_size as nat)) as u64
    }
}

/// The input that a state decodes to after the frame `prev_frame`.
pub open spec fn spec_input_from_state(prev_frame: u64, state: u64) -> PlayerInput {
    PlayerInput {
        frame: (prev_frame + (state >> 4u64)) as u64,
        delta: state >> 4u64,
        button: button_of_code((state >> 2u64) & 3),
        holding: state & 1 == 1,
        player2: state & 2 == 2,
    }
}

/// The parts of an input that its state records.
pub open spec fn same_key(a: PlayerInput, b: PlayerInput) -> bool {
    a.delta == b.delta && a.holding == b.holding && a.player2 == b.player2 && a.button == b.button
}

impl PlayerInput {
    /// The input that an encoder writes for an action: a swift half is a
    /// `Swift` state, any other type reads as its button (a non-player type
    /// as a jump).
    pub open spec fn spec_from_action(action: Action) -> PlayerInput {
        PlayerInput {
            frame: action.frame,
            delta: action.delta,
            button: if action.swift {
                Button::Swift
            } else {
                match action.action_type {
                    ActionType::Left => Button::Left,
                    ActionType::Right => Button::Right,
                    _ => Button::Jump,
                }
            },
            holding: action.holding,
            player2: action.player2,
        }
    }

    pub fn from_action(action: &Action) -> (r: Self)
        ensures
            r == Self::spec_from_action(*action),
    {
        let button = if action.swift() {
            Button::Swift
        } else {
            match action.action_type {
                ActionType::Jump => Button::Jump,
                ActionType::Left => Button::Left,
                ActionType::Right => Button::Right,
                _ => Button::Jump,
            }
        };
        PlayerInput {
            frame: action.frame,
            delta: action.delta(),
            button,
            holding: action.holding,
            player2: action.player2,
        }
    }

    /// Decodes a state read after the frame `prev_frame`; fails when the
    /// frame would not fit in 64 bits.
    pub fn from_state(prev_frame: u64, state: u64) -> (r: Result<Self, SectionError>)
        ensures
            match r {
                Ok(p) => prev_frame + (state >> 4u64) <= u64::MAX && p == spec_input_from_state(
                    prev_frame,
                    state,
                ),
                Err(e) => prev_frame + (state >> 4u64) > u64::MAX && e == SectionError::FrameOverflow,
            },
    {
        let delta = state >> 4;
        let frame = match prev_frame.checked_add(delta) {
            Some(f) => f,
            None => {
                return Err(SectionError::FrameOverflow);
            },
        };
        let button_val = (state >> 2) & 0b11;
        let button = if button_val == 0 {
            Button::Swift
        } else if button_val == 1 {
            Button::Jump
        } else if button_val == 2 {
            Button::Left
        } else {
            Button::Right
        };
        let holding = (state & 0b1) == 0b1;
        let player2 = (state & 0b10) == 0b10;
        Ok(PlayerInput { frame, delta, button, holding, player2 })
    }

    /// The state of the input cut to `byte_size` bytes.
    pub fn prepare_state(&self, byte_size: u8) -> (r: u64)
        requires
            byte_size <= 8,
        ensures
            r == spec_prepare_state(*self, byte_size),
    {
        let hold: u64 = if self.holding { 1 } else { 0 };
        let p2: u64 = if self.player2 { 1 } else { 0 };
        let state: u64 = (self.delta << 4) | (button_to_u64(self.button) << 2) | (p2 << 1) | hold;
        assert(state == state_bits(*self));
        if byte_size == 8 {
            assert(u64::MAX & state == state) by (bit_vector);
            u64::MAX & state
        } else {
            let shift: u64 = byte_size as u64 * 8;
            proof {
                lemma2_to64();
                lemma_pow2_strictly_increases(shift as nat, 64);
                lemma_pow2_pos(shift as nat);
                lemma_u64_shl_is_mul(1, shift);
                lemma_u64_low_bits_mask_is_mod(state, shift as nat);
            }
            let one_shifted: u64 = 1u64 << shift;
            assert(one_shifted == pow2(shift as nat));
            let mask: u64 = one_shifted - 1;
            assert(mask == low_bits_mask(shift as nat) as u64);
            assert(shift as nat == 8 * byte_size as nat);
            assert(state & mask == state % (pow2(shift as nat) as u64));
            assert(mask & state == state & mask) by (bit_vector);
            assert((mask & state) as nat == state as nat % pow2(8 * byte_size as nat));
            mask & state
        }
    }

    /// The two inputs record the same state.
    pub fn weak_eq(&self, other: &PlayerInput) -> (r: bool)
        ensures
            r == same_key(*self, *other),
    {
        self.delta == other.delta && self.holding == other.holding && self.player2
            == other.player2 && self.button == other.button
    }
}


// ---------------------------------------------------------------------------
// Sections
// ---------------------------------------------------------------------------

/// A section of an action atom, as the encoder builds it.
pub struct Section {
    pub id: SectionIdentifier,
    pub delta_size: u16,
    pub player_inputs: Vec<PlayerInput>,
    pub marked_for_removal: bool,
    pub count_exp: u16,
    pub repeats_exp: u16,
    pub special_type: SpecialType,
    pub seed: u64,
    pub tps_bits: u64,
    pub special: Option<Action>,
}

/// What a section holds, as values.
pub struct SectionView {
    pub id: SectionIdentifier,
    pub delta_size: u16,
    pub inputs: Seq<PlayerInput>,
    pub marked_for_removal: bool,
    pub count_exp: u16,
    pub repeats_exp: u16,
    pub special_type: SpecialType,
    pub seed: u64,
    pub tps_bits: u64,
    pub special: Option<Action>,
}

impl View for Section {
    type V = SectionView;

    open spec fn view(&self) -> SectionView {
        SectionView {
            id: self.id,
            delta_size: self.delta_size,
            inputs: self.player_inputs@,
            marked_for_removal: self.marked_for_removal,
            count_exp: self.count_exp,
            repeats_exp: self.repeats_exp,
            special_type: self.special_type,
            seed: self.seed,
            tps_bits: self.tps_bits,
            special: self.special,
        }
    }
}

/// What the sections hold, in order.
pub open spec fn views(ss: Seq<Section>) -> Seq<SectionView> {
    ss.map_values(|s: Section| s@)
}

/// An input section of `inputs`, whose count is a power of two.
pub open spec fn input_section_view(inputs: Seq<PlayerInput>, delta_size: u16) -> SectionView {
    SectionView {
        id: SectionIdentifier::Input,
        delta_size,
        inputs,
        marked_for_removal: false,
        count_exp: spec_exponent_of_two(inputs.len() as u32),
        repeats_exp: 0,
        special_type: SpecialType::Restart,
        seed: 0,
        tps_bits: 0,
        special: None,
    }
}

/// A repeat section of the block `block` repeated `reps` times, both
/// counts powers of two.
pub open spec fn repeat_section_view(block: Seq<PlayerInput>, delta_size: u16, reps: nat) -> SectionView {
    SectionView {
        id: SectionIdentifier::Repeat,
        delta_size,
        inputs: block,
        marked_for_removal: false,
        count_exp: spec_exponent_of_two(block.len() as u32),
        repeats_exp: spec_exponent_of_two(reps as u32),
        special_type: SpecialType::Restart,
        seed: 0,
        tps_bits: 0,
        special: None,
    }
}

/// The inputs in input sections of the largest power-of-two counts that
/// fit (at most `2^15`), in order.
pub open spec fn spec_distribute(inputs: Seq<PlayerInput>, delta_size: u16) -> Seq<SectionView>
    decreases inputs.len(),
{
    if inputs.len() == 0 {
        Seq::empty()
    } else {
        let c = spec_largest_power_of_two(inputs.len() as usize) as int;
        if 1 <= c <= inputs.len() {
            seq![input_section_view(inputs.take(c), delta_size)] + spec_distribute(
                inputs.skip(c),
                delta_size,
            )
        } else {
            Seq::empty()
        }
    }
}

/// `s` repeated `r` times.
pub open spec fn repeat_seq(s: Seq<PlayerInput>, r: nat) -> Seq<PlayerInput>
    decreases r,
{
    if r == 0 {
        Seq::empty()
    } else {
        repeat_seq(s, (r - 1) as nat) + s
    }
}

/// The two sequences of inputs record the same states, in order.
pub open spec fn keys_equal(a: Seq<PlayerInput>, b: Seq<PlayerInput>) -> bool {
    a.len() == b.len() && forall|i: int| 0 <= i < a.len() ==> #[trigger] same_key(a[i], b[i])
}

/// The inputs that a sequence of sections holds, repeats unrolled.
pub open spec fn expand_all(ss: Seq<Section>) -> Seq<PlayerInput>
    decreases ss.len(),
{
    if ss.len() == 0 {
        Seq::empty()
    } else {
        expand_all(ss.drop_last()) + ss.last().spec_expand()
    }
}

/// The states of `ps`, `byte_size` bytes each.
pub open spec fn states_bytes(ps: Seq<PlayerInput>, byte_size: nat) -> Seq<u8>
    decreases ps.len(),
{
    if ps.len() == 0 {
        Seq::empty()
    } else {
        states_bytes(ps.drop_last(), byte_size) + le_bytes(
            spec_prepare_state(ps.last(), byte_size as u8) as nat,
            byte_size,
        )
    }
}

/// The inputs that an encoder keeps of a run of player actions: the
/// release half of a swift press is implied by its press half.
pub open spec fn kept_inputs(actions: Seq<Action>) -> Seq<PlayerInput>
    decreases actions.len(),
{
    if actions.len() == 0 {
        Seq::empty()
    } else {
        let a = actions.last();
        if a.holding || !a.swift {
            kept_inputs(actions.drop_last()).push(PlayerInput::spec_from_action(a))
        } else {
            kept_inputs(actions.drop_last())
        }
    }
}

pub open spec fn input_header(count_exp: u16, delta_size: u16) -> u16 {
    (count_exp << 8u16) | (delta_size << 12u16)
}

pub open spec fn repeat_header(count_exp: u16, repeats_exp: u16, delta_size: u16) -> u16 {
    (1u16 << 14u16) | (delta_size << 12u16) | (count_exp << 8u16) | (repeats_exp << 3u16)
}

pub open spec fn special_header(special_type: SpecialType, delta_size: u16) -> u16 {
    (2u16 << 14u16) | (special_code(special_type) << 10u16) | (delta_size << 8u16)
}

/// The special type that stands for an action type, if it has one.
pub open spec fn special_type_of(t: ActionType) -> Option<SpecialType> {
    match t {
        ActionType::Restart => Some(SpecialType::Restart),
        ActionType::RestartFull => Some(SpecialType::RestartFull),
        ActionType::Death => Some(SpecialType::Death),
        ActionType::TPS => Some(SpecialType::TPS),
        ActionType::Bugpoint => Some(SpecialType::Bugpoint),
        _ => None,
    }
}

impl Section {
    /// The inputs that the section stands for, its repeats unrolled.
    pub open spec fn spec_expand(self) -> Seq<PlayerInput> {
        if self.marked_for_removal {
            Seq::empty()
        } else {
            match self.id {
                SectionIdentifier::Input => self.player_inputs@,
                SectionIdentifier::Repeat => repeat_seq(
                    self.player_inputs@,
                    pow2(self.repeats_exp as nat),
                ),
                SectionIdentifier::Special => Seq::empty(),
            }
        }
    }

    /// An input or repeat section that holds `2^count_exp` inputs and
    /// repeats them `2^repeats_exp` times, each exponent at most 15.
    pub open spec fn counted(self) -> bool {
        &&& !self.marked_for_removal
        &&& (self.id is Input || self.id is Repeat)
        &&& self.count_exp <= 15
        &&& self.repeats_exp <= 15
        &&& self.player_inputs@.len() == pow2(self.count_exp as nat)
        &&& self.id is Input ==> self.repeats_exp == 0
    }

    /// A special section that stands for `action`, its type and data.
    pub open spec fn special_for(self, action: Action) -> bool {
        &&& !self.marked_for_removal
        &&& self.id is Special
        &&& self.special == Some(action)
        &&& special_type_of(action.action_type) == Some(self.special_type)
        &&& self.seed == action.seed
        &&& self.tps_bits == action.tps_bits
        &&& self.delta_size == action.spec_minimum_size() as u16
    }

    /// The section can be written: its delta size names 1, 2, 4 or 8 bytes,
    /// and a special section has its action.
    pub open spec fn writable(self) -> bool {
        &&& self.delta_size <= 3
        &&& self.id is Special ==> self.special is Some
    }

    /// The bytes that the section is written as.
    pub open spec fn spec_bytes(self) -> Seq<u8> {
        let byte_size = pow2(self.delta_size as nat);
        if self.marked_for_removal {
            Seq::empty()
        } else {
            match self.id {
                SectionIdentifier::Input => le_bytes(
                    input_header(self.count_exp, self.delta_size) as nat,
                    2,
                ) + states_bytes(self.player_inputs@, byte_size),
                SectionIdentifier::Repeat => le_bytes(
                    repeat_header(self.count_exp, self.repeats_exp, self.delta_size) as nat,
                    2,
                ) + states_bytes(self.player_inputs@, byte_size),
                SectionIdentifier::Special => le_bytes(
                    special_header(self.special_type, self.delta_size) as nat,
                    2,
                ) + le_bytes(self.special.unwrap().delta as nat, byte_size) + match self.special_type {
                    SpecialType::TPS => le_bytes(self.tps_bits as nat, 8),
                    SpecialType::Bugpoint => Seq::empty(),
                    _ => le_bytes(self.seed as nat, 8),
                },
            }
        }
    }

    /// An input section of the kept inputs of `actions[start..end]`.
    pub fn player_from_range(actions: &[Action], start: usize, end: usize) -> (r: Self)
        requires
            start <= end <= actions@.len(),
        ensures
            r.id is Input,
            r.delta_size == 0,
            !r.marked_for_removal,
            r.player_inputs@ == kept_inputs(actions@.subrange(start as int, end as int)),
            r.count_exp == spec_exponent_of_two(r.player_inputs@.len() as u32),
            r.repeats_exp == 0,
            r.special_type == SpecialType::Restart,
            r.seed == 0,
            r.tps_bits == 0,
            r.special is None,
    {
        let mut player_inputs: Vec<PlayerInput> = Vec::new();
        let mut count: usize = 0;
        let mut i: usize = start;
        proof {
            assert(actions@.subrange(start as int, start as int) =~= Seq::<Action>::empty());
        }
        while i < end
            invariant
                start <= i <= end <= actions@.len(),
                player_inputs@ == kept_inputs(actions@.subrange(start as int, i as int)),
                count == player_inputs@.len(),
                count <= i - start,
            decreases end - i,
        {
            let action = &actions[i];
            proof {
                assert(actions@.subrange(start as int, i + 1).drop_last() =~= actions@.subrange(
                    start as int,
                    i as int,
                ));
            }
            if action.holding || !action.swift() {
                player_inputs.push(PlayerInput::from_action(action));
                count = count + 1;
            }
            i = i + 1;
        }
        let count_exp = exponent_of_two(count as u32);
        Section {
            id: SectionIdentifier::Input,
            delta_size: 0,
            player_inputs,
            marked_for_removal: false,
            count_exp,
            repeats_exp: 0,
            special_type: SpecialType::Restart,
            seed: 0,
            tps_bits: 0,
            special: None,
        }
    }

    /// A special section for a restart, death, tick rate change or bugpoint.
    pub fn special(action: &Action) -> (r: Result<Self, SectionError>)
        ensures
            match r {
                Ok(s) => special_type_of(action.action_type) is Some && (action.action_type is TPS
                    ==> valid_tps_bits(action.tps_bits)) && s.special_for(*action)
                    && s.player_inputs@.len() == 0 && s.count_exp == 0 && s.repeats_exp == 0,
                Err(e) => if action.action_type is TPS && !valid_tps_bits(action.tps_bits) {
                    e == SectionError::InvalidTPS(action.tps_bits)
                } else {
                    special_type_of(action.action_type) is None && e
                        == SectionError::InvalidIdentifier
                },
            },
    {
        if action.action_type == ActionType::TPS && !is_valid_tps(action.tps_bits) {
            return Err(SectionError::InvalidTPS(action.tps_bits));
        }
        let special_type = match action.action_type {
            ActionType::TPS => SpecialType::TPS,
            ActionType::Death => SpecialType::Death,
            ActionType::Restart => SpecialType::Restart,
            ActionType::RestartFull => SpecialType::RestartFull,
            ActionType::Bugpoint => SpecialType::Bugpoint,
            _ => {
                return Err(SectionError::InvalidIdentifier);
            },
        };
        Ok(Section {
            id: SectionIdentifier::Special,
            delta_size: action.minimum_size() as u16,
            player_inputs: Vec::new(),
            marked_for_removal: false,
            count_exp: 0,
            repeats_exp: 0,
            special_type,
            seed: action.seed,
            tps_bits: action.tps_bits,
            special: Some(*action),
        })
    }

    /// Bytes per delta: `2^delta_size`.
    pub fn real_delta_size(&self) -> (r: u64)
        requires
            self.delta_size < 64,
        ensures
            r as nat == pow2(self.delta_size as nat),
    {
        pow2_u64(self.delta_size as u64)
    }

    /// Inputs in the section: `2^count_exp`.
    pub fn input_count(&self) -> (r: u64)
        requires
            self.count_exp < 64,
        ensures
            r as nat == pow2(self.count_exp as nat),
    {
        pow2_u64(self.count_exp as u64)
    }

    /// Repeats of the section's inputs: `2^repeats_exp`.
    pub fn repeat_count(&self) -> (r: u64)
        requires
            self.repeats_exp < 64,
        ensures
            r as nat == pow2(self.repeats_exp as nat),
    {
        pow2_u64(self.repeats_exp as u64)
    }

    /// Writes the section; a section marked for removal writes nothing.
    pub fn write(&self, out: &mut Vec<u8>)
        requires
            !self.marked_for_removal ==> self.writable(),
        ensures
            final(out)@ == old(out)@ + self.spec_bytes(),
    {
        if self.marked_for_removal {
            assert(old(out)@ + Seq::<u8>::empty() =~= old(out)@);
            return;
        }
        let byte_size = self.real_delta_size();
        proof {
            lemma2_to64();
            lemma_pow2_strictly_increases(self.delta_size as nat, 4);
        }
        match self.id {
            SectionIdentifier::Input => {
                let header: u16 = (self.count_exp << 8) | (self.delta_size << 12);
                write_le(out, header as u64, 2);
                write_states(out, &self.player_inputs, byte_size as usize);
            },
            SectionIdentifier::Repeat => {
                let header: u16 = (1u16 << 14) | (self.delta_size << 12) | (self.count_exp << 8) | (
                self.repeats_exp << 3);
                write_le(out, header as u64, 2);
                write_states(out, &self.player_inputs, byte_size as usize);
            },
            SectionIdentifier::Special => {
                let header: u16 = (2u16 << 14) | (special_to_u16(self.special_type) << 10) | (
                self.delta_size << 8);
                write_le(out, header as u64, 2);
                let delta = match &self.special {
                    Some(a) => a.delta(),
                    None => 0,
                };
                write_n_bytes(out, delta, byte_size as usize);
                match self.special_type {
                    SpecialType::Restart | SpecialType::RestartFull | SpecialType::Death => {
                        write_le(out, self.seed, 8);
                    },
                    SpecialType::TPS => {
                        write_le(out, self.tps_bits, 8);
                    },
                    SpecialType::Bugpoint => {
                        assert(out@ + Seq::<u8>::empty() =~= out@);
                    },
                }
            },
        }
        assert(out@ =~= old(out)@ + self.spec_bytes());
    }
}

/// `2^e` for `e < 64`.
fn pow2_u64(e: u64) -> (r: u64)
    requires
        e < 64,
    ensures
        r as nat == pow2(e as nat),
{
    proof {
        lemma2_to64();
        lemma_pow2_strictly_increases(e as nat, 64);
        lemma_u64_shl_is_mul(1, e);
    }
    1u64 << e
}

/// Writes the states of `inputs`, `byte_size` bytes each.
fn write_states(out: &mut Vec<u8>, inputs: &Vec<PlayerInput>, byte_size: usize)
    requires
        byte_size <= 8,
    ensures
        final(out)@ == old(out)@ + states_bytes(inputs@, byte_size as nat),
{
    let mut i: usize = 0;
    proof {
        assert(inputs@.subrange(0, 0) =~= Seq::<PlayerInput>::empty());
        assert(old(out)@ + Seq::<u8>::empty() =~= old(out)@);
    }
    while i < inputs.len()
        invariant
            byte_size <= 8,
            i <= inputs@.len(),
            out@ == old(out)@ + states_bytes(inputs@.subrange(0, i as int), byte_size as nat),
        decreases inputs@.len() - i,
    {
        let state = inputs[i].prepare_state(byte_size as u8);
        write_n_bytes(out, state, byte_size);
        proof {
            let sub = inputs@.subrange(0, i + 1);
            assert(sub.drop_last() =~= inputs@.subrange(0, i as int));
            assert(sub.last() == inputs@[i as int]);
        }
        i = i + 1;
        assert(out@ =~= old(out)@ + states_bytes(inputs@.subrange(0, i as int), byte_size as nat));
    }
    assert(inputs@.subrange(0, i as int) =~= inputs@);
}

/// Fails unless `additional` more actions fit beside `current` under `maximum`.
fn ensure_action_capacity(current: usize, additional: usize, maximum: usize) -> (r: Result<
    (),
    SectionError,
>)
    ensures
        r is Ok <==> current + additional <= maximum,
        r matches Err(e) ==> e == SectionError::ActionCountExceeded,
{
    match current.checked_add(additional) {
        None => Err(SectionError::ActionCountExceeded),
        Some(total) => if total > maximum {
            Err(SectionError::ActionCountExceeded)
        } else {
            Ok(())
        },
    }
}

/// Reads the `n`-byte little-endian integer at `pos`.
fn read_n_bytes(data: &[u8], pos: usize, n: usize) -> (r: Result<u64, SectionError>)
    requires
        n <= 8,
    ensures
        match r {
            Ok(v) => pos + n <= data@.len() && v as nat == le_value(
                data@.subrange(pos as int, pos + n),
            ),
            Err(e) => pos + n > data@.len() && e == SectionError::UnexpectedEof,
        },
{
    if n > data.len() || pos > data.len() - n {
        return Err(SectionError::UnexpectedEof);
    }
    Ok(read_le(data, pos, n))
}

/// Appends the `n` low bytes of `value`, least significant first.
fn write_n_bytes(out: &mut Vec<u8>, value: u64, n: usize)
    requires
        n <= 8,
    ensures
        final(out)@ == old(out)@ + le_bytes(value as nat, n as nat),
{
    write_le(out, value, n);
}

/// What `write_n_bytes` appends behind `before`, `read_n_bytes` reads back
/// from that position whatever follows: the `n` low bytes of the value,
/// which for `n` of 8 is all of it.
pub proof fn lemma_n_bytes_round_trip(before: Seq<u8>, value: u64, n: nat, rest: Seq<u8>)
    requires
        n <= 8,
    ensures
        ({
            let d = before + le_bytes(value as nat, n) + rest;
            let p = before.len() as int;
            &&& p + n <= d.len()
            &&& le_value(d.subrange(p, p + n)) == value as nat % (vstd::arithmetic::power::pow(
                256,
                n,
            ) as nat)
            &&& n == 8 ==> le_value(d.subrange(p, p + n)) == value
        }),
{
    let d = before + le_bytes(value as nat, n) + rest;
    let p = before.len() as int;
    lemma_le_bytes_len(value as nat, n);
    lemma_le_value_of_bytes(value as nat, n);
    assert(d.subrange(p, p + n) =~= le_bytes(value as nat, n));
    if n == 8 {
        crate::bytes::lemma_pow256_values();
        vstd::arithmetic::div_mod::lemma_small_mod(value as nat, 0x1_0000_0000_0000_0000);
    }
}


// ---------------------------------------------------------------------------
// Run-length encoding
// ---------------------------------------------------------------------------

/// Every input of `s[idx .. idx + len]` records the state of the input at
/// the same place of the first block of `c` inputs.
pub open spec fn periodic(s: Seq<PlayerInput>, idx: int, len: int, c: int) -> bool {
    forall|k: int| idx <= k < idx + len ==> #[trigger] same_key(s[k], s[idx + (k - idx) % c])
}

/// Every input of every section is one of `pool`.
pub open spec fn inputs_from(ss: Seq<Section>, pool: Seq<PlayerInput>) -> bool {
    forall|k: int, j: int|
        0 <= k < ss.len() && 0 <= j < ss[k].player_inputs@.len() ==> pool.contains(
            #[trigger] ss[k].player_inputs@[j],
        )
}

pub proof fn lemma_expand_all_push(ss: Seq<Section>, s: Section)
    ensures
        expand_all(ss.push(s)) == expand_all(ss) + s.spec_expand(),
{
    assert(ss.push(s).drop_last() =~= ss);
}

pub proof fn lemma_keys_equal_concat(
    a: Seq<PlayerInput>,
    b: Seq<PlayerInput>,
    x: Seq<PlayerInput>,
    y: Seq<PlayerInput>,
)
    requires
        keys_equal(a, x),
        keys_equal(b, y),
    ensures
        keys_equal(a + b, x + y),
{
    assert forall|i: int| 0 <= i < (a + b).len() implies #[trigger] same_key((a + b)[i], (x + y)[i]) by {
        if i < a.len() {
            assert(same_key(a[i], x[i]));
        } else {
            assert(same_key(b[i - a.len()], y[i - a.len()]));
        }
    }
}

pub proof fn lemma_repeat_seq_len(s: Seq<PlayerInput>, r: nat)
    ensures
        repeat_seq(s, r).len() == r * s.len(),
    decreases r,
{
    if r == 0 {
        assert(r * s.len() == 0) by (nonlinear_arith)
            requires r == 0;
    } else {
        lemma_repeat_seq_len(s, (r - 1) as nat);
        let r1 = (r - 1) as nat;
        assert(r1 * s.len() + s.len() == r * s.len()) by (nonlinear_arith)
            requires r1 == r - 1;
    }
}

/// A run that repeats its first block of `c` inputs `r` times records the
/// same states as that block repeated `r` times.
pub proof fn lemma_periodic_repeat(s: Seq<PlayerInput>, idx: int, c: int, r: nat)
    requires
        c >= 1,
        0 <= idx,
        idx + c * r <= s.len(),
        idx + c <= s.len(),
        periodic(s, idx, c * r, c),
    ensures
        keys_equal(repeat_seq(s.subrange(idx, idx + c), r), s.subrange(idx, idx + c * r)),
    decreases r,
{
    let block = s.subrange(idx, idx + c);
    lemma_repeat_seq_len(block, r);
    if r == 0 {
        assert(c * r == 0) by (nonlinear_arith)
            requires r == 0;
        assert(s.subrange(idx, idx + c * r) =~= Seq::<PlayerInput>::empty());
    } else {
        let r1 = (r - 1) as nat;
        assert(c * r == c * r1 + c) by (nonlinear_arith)
            requires r1 == r - 1;
        assert(c * r1 >= 0) by (nonlinear_arith)
            requires c >= 1;
        assert(periodic(s, idx, c * r1, c));
        lemma_periodic_repeat(s, idx, c, r1);
        lemma_repeat_seq_len(block, r1);
        assert forall|j: int| 0 <= j < c implies #[trigger] same_key(
            block[j],
            s.subrange(idx + c * r1, idx + c * r)[j],
        ) by {
            let k = idx + c * r1 + j;
            vstd::arithmetic::div_mod::lemma_mod_multiples_vanish(r1 as int, j, c);
            assert((c * r1 + j) % c == j % c);
            vstd::arithmetic::div_mod::lemma_small_mod(j as nat, c as nat);
            assert(same_key(s[k], s[idx + (k - idx) % c]));
        }
        lemma_keys_equal_concat(
            repeat_seq(block, r1),
            block,
            s.subrange(idx, idx + c * r1),
            s.subrange(idx + c * r1, idx + c * r),
        );
        assert(s.subrange(idx, idx + c * r1) + s.subrange(idx + c * r1, idx + c * r) =~= s.subrange(
            idx,
            idx + c * r,
        ));
    }
}

/// A copy of `v[start..end]`.
fn copy_range(v: &Vec<PlayerInput>, start: usize, end: usize) -> (r: Vec<PlayerInput>)
    requires
        start <= end <= v@.len(),
    ensures
        r@ == v@.subrange(start as int, end as int),
{
    let mut r: Vec<PlayerInput> = Vec::new();
    let mut i: usize = start;
    while i < end
        invariant
            start <= i <= end <= v@.len(),
            r@ =~= v@.subrange(start as int, i as int),
        decreases end - i,
    {
        r.push(v[i]);
        i = i + 1;
    }
    r
}

/// Packs `inputs` into input sections of the largest power-of-two counts
/// that fit, in order, and empties `inputs`.
fn distribute_inputs_to_sections(
    sections: &mut Vec<Section>,
    inputs: &mut Vec<PlayerInput>,
    delta_size: u16,
)
    ensures
        final(inputs)@.len() == 0,
        final(sections)@.len() >= old(sections)@.len(),
        final(sections)@.subrange(0, old(sections)@.len() as int) == old(sections)@,
        forall|k: int|
            old(sections)@.len() <= k < final(sections)@.len() ==> {
                &&& (#[trigger] final(sections)@[k]).counted()
                &&& final(sections)@[k].id is Input
                &&& final(sections)@[k].delta_size == delta_size
            },
        expand_all(final(sections)@) == expand_all(old(sections)@) + old(inputs)@,
        inputs_from(
            final(sections)@.subrange(old(sections)@.len() as int, final(sections)@.len() as int),
            old(inputs)@,
        ),
        views(final(sections)@) == views(old(sections)@) + spec_distribute(old(inputs)@, delta_size),
{
    let ghost old_sections = sections@;
    let ghost pool = inputs@;
    let mut i: usize = 0;
    proof {
        assert(sections@.subrange(0, old_sections.len() as int) =~= old_sections);
        assert(expand_all(old_sections) + pool.subrange(0, 0) =~= expand_all(old_sections));
        assert(pool.skip(0) =~= pool);
    }
    while i < inputs.len()
        invariant
            inputs@ == pool,
            i <= inputs@.len(),
            sections@.len() >= old_sections.len(),
            sections@.subrange(0, old_sections.len() as int) == old_sections,
            forall|k: int|
                old_sections.len() <= k < sections@.len() ==> {
                    &&& (#[trigger] sections@[k]).counted()
                    &&& sections@[k].id is Input
                    &&& sections@[k].delta_size == delta_size
                },
            expand_all(sections@) == expand_all(old_sections) + pool.subrange(0, i as int),
            inputs_from(sections@.subrange(old_sections.len() as int, sections@.len() as int), pool),
            views(sections@) + spec_distribute(pool.skip(i as int), delta_size) == views(old_sections)
                + spec_distribute(pool, delta_size),
        decreases inputs@.len() - i,
    {
        let count = largest_power_of_two(inputs.len() - i);
        proof {
            lemma_largest_power_of_two((inputs@.len() - i) as usize);
            let rest = pool.skip(i as int);
            assert(rest.len() == inputs@.len() - i);
            assert(rest.take(count as int) =~= pool.subrange(i as int, i + count));
            assert(rest.skip(count as int) =~= pool.skip(i + count));
        }
        let chunk = copy_range(inputs, i, i + count);
        let count_exp = exponent_of_two(count as u32);
        let section = Section {
            id: SectionIdentifier::Input,
            delta_size,
            player_inputs: chunk,
            marked_for_removal: false,
            count_exp,
            repeats_exp: 0,
            special_type: SpecialType::Restart,
            seed: 0,
            tps_bits: 0,
            special: None,
        };
        let ghost prev = sections@;
        assert(section.spec_expand() == pool.subrange(i as int, i + count));
        sections.push(section);
        proof {
            assert(section@ == input_section_view(pool.subrange(i as int, i + count), delta_size));
            assert(views(sections@) =~= views(prev).push(section@));
            assert(views(sections@) + spec_distribute(pool.skip(i + count), delta_size) =~= views(prev)
                + spec_distribute(pool.skip(i as int), delta_size));
            lemma_expand_all_push(prev, section);
            assert(pool.subrange(0, i as int) + pool.subrange(i as int, i + count) =~= pool.subrange(
                0,
                i + count,
            ));
            assert(sections@.subrange(0, old_sections.len() as int) =~= prev.subrange(
                0,
                old_sections.len() as int,
            ));
            let news = sections@.subrange(old_sections.len() as int, sections@.len() as int);
            let olds = prev.subrange(old_sections.len() as int, prev.len() as int);
            assert forall|k: int, j: int|
                0 <= k < news.len() && 0 <= j < news[k].player_inputs@.len() implies pool.contains(
                #[trigger] news[k].player_inputs@[j],
            ) by {
                if k < olds.len() {
                    assert(news[k] == olds[k]);
                } else {
                    assert(news[k].player_inputs@[j] == pool[i + j]);
                }
            }
        }
        i = i + count;
    }
    inputs.clear();
    proof {
        assert(pool.subrange(0, i as int) =~= pool);
        assert(pool.skip(i as int) =~= Seq::<PlayerInput>::empty());
        assert(views(sections@) + Seq::<SectionView>::empty() =~= views(sections@));
    }
}


/// Extends `periodic` by one more block that matches the first one.
proof fn lemma_periodic_extend(s: Seq<PlayerInput>, idx: int, offset: int, c: int)
    requires
        c >= 1,
        offset >= 1,
        0 <= idx,
        idx + offset * c + c <= s.len(),
        periodic(s, idx, offset * c, c),
        forall|j: int| 0 <= j < c ==> #[trigger] same_key(s[idx + j], s[idx + offset * c + j]),
    ensures
        periodic(s, idx, (offset + 1) * c, c),
{
    assert((offset + 1) * c == offset * c + c) by (nonlinear_arith);
    assert forall|k: int| idx <= k < idx + (offset + 1) * c implies #[trigger] same_key(
        s[k],
        s[idx + (k - idx) % c],
    ) by {
        if k >= idx + offset * c {
            let j = k - idx - offset * c;
            vstd::arithmetic::div_mod::lemma_mod_multiples_vanish(offset, j, c);
            vstd::arithmetic::mul::lemma_mul_is_commutative(offset, c);
            vstd::arithmetic::div_mod::lemma_small_mod(j as nat, c as nat);
            assert((k - idx) % c == j);
            assert(same_key(s[idx + j], s[idx + offset * c + j]));
        }
    }
}

proof fn lemma_periodic_shorter(s: Seq<PlayerInput>, idx: int, len1: int, len2: int, c: int)
    requires
        periodic(s, idx, len1, c),
        len2 <= len1,
    ensures
        periodic(s, idx, len2, c),
{
    assert forall|k: int| idx <= k < idx + len2 implies #[trigger] same_key(
        s[k],
        s[idx + (k - idx) % c],
    ) by {
        assert(idx <= k < idx + len1);
    }
}

proof fn lemma_periodic_one_block(s: Seq<PlayerInput>, idx: int, c: int)
    requires
        c >= 1,
    ensures
        periodic(s, idx, 1 * c, c),
{
    assert forall|k: int| idx <= k < idx + 1 * c implies #[trigger] same_key(
        s[k],
        s[idx + (k - idx) % c],
    ) by {
        vstd::arithmetic::div_mod::lemma_small_mod((k - idx) as nat, c as nat);
    }
}

/// The `c` inputs at `a` record the same states as the `c` inputs at `b`.
pub open spec fn blocks_equal(s: Seq<PlayerInput>, a: int, b: int, c: int) -> bool {
    forall|j: int| 0 <= j < c ==> #[trigger] same_key(s[a + j], s[b + j])
}

/// The number of blocks of `c` inputs from `idx` that repeat the first one
/// without a break, counting on from `off` at `pos`, where block `off` starts.
pub open spec fn repeated_blocks(s: Seq<PlayerInput>, idx: int, c: int, off: nat, pos: int) -> nat
    decreases s.len() - pos,
{
    if c <= 0 || pos + c > s.len() || !blocks_equal(s, idx, pos, c) {
        off
    } else {
        repeated_blocks(s, idx, c, off + 1, pos + c)
    }
}

/// The repetition at `idx` that saves the most inputs, over the block sizes
/// `c`, `2c`, ... up to 64 that leave inputs after the first block: a block
/// that repeats `k` times is taken `2^floor(log2(k - 1))` times where `k - 1`
/// is at least 2, and saves its size times one less than that. A later size
/// wins only by saving more. Gives whether one was found, its block size,
/// its repeat count and the inputs it saves.
pub open spec fn best_repetition(
    s: Seq<PlayerInput>,
    idx: int,
    c: nat,
    found: bool,
    bc: nat,
    br: nat,
    score: int,
) -> (bool, nat, nat, int)
    decreases 128 - c,
{
    if c == 0 || c > 64 || c > s.len() || idx + c >= s.len() {
        (found, bc, br, score)
    } else {
        let k = repeated_blocks(s, idx, c as int, 1, idx + c);
        if k <= 2 {
            best_repetition(s, idx, 2 * c, found, bc, br, score)
        } else {
            let reps = spec_largest_power_of_two((k - 1) as usize) as nat;
            let sc = c * (reps - 1);
            if sc > score {
                best_repetition(s, idx, 2 * c, true, c, reps, sc)
            } else {
                best_repetition(s, idx, 2 * c, found, bc, br, score)
            }
        }
    }
}

/// The sections that run-length encoding gives for the inputs from `idx`,
/// behind the sections `secs` and the inputs `free` not yet placed: at each
/// input, the best repetition there becomes a repeat section (after the
/// free inputs, distributed); where there is none, the input joins the free
/// ones.
pub open spec fn rle_from(
    s: Seq<PlayerInput>,
    delta_size: u16,
    idx: int,
    free: Seq<PlayerInput>,
    secs: Seq<SectionView>,
) -> Seq<SectionView>
    decreases s.len() - idx,
{
    if idx < 0 || idx >= s.len() {
        secs + spec_distribute(free, delta_size)
    } else {
        let b = best_repetition(s, idx, 1, false, 0, 0, 0);
        let c = b.1;
        let reps = b.2;
        if b.0 && c >= 1 && reps >= 1 && idx + c * reps <= s.len() {
            proof {
                assert(c * reps >= 1) by (nonlinear_arith)
                    requires
                        c >= 1,
                        reps >= 1,
                ;
            }
            rle_from(
                s,
                delta_size,
                idx + c * reps,
                Seq::empty(),
                secs + spec_distribute(free, delta_size) + seq![
                    repeat_section_view(s.subrange(idx, idx + c), delta_size, reps),
                ],
            )
        } else {
            rle_from(s, delta_size, idx + 1, free.push(s[idx]), secs)
        }
    }
}

impl Section {
    /// Splits the section's inputs into repeat sections, wherever a block of
    /// up to 64 inputs repeats, and input sections of power-of-two counts for
    /// the rest. Where several block sizes repeat at one place, the one that
    /// saves the most inputs wins.
    pub fn run_length_encode(&self) -> (r: Vec<Section>)
        ensures
            forall|k: int|
                0 <= k < r@.len() ==> (#[trigger] r@[k]).counted() && r@[k].delta_size
                    == self.delta_size,
            keys_equal(expand_all(r@), self.player_inputs@),
            inputs_from(r@, self.player_inputs@),
            views(r@) == rle_from(self.player_inputs@, self.delta_size, 0, Seq::empty(), Seq::empty()),
    {
        let mut new_sections: Vec<Section> = Vec::new();
        let mut free_inputs: Vec<PlayerInput> = Vec::new();
        let n = self.player_inputs.len();
        let ghost s = self.player_inputs@;
        let mut idx: usize = 0;
        proof {
            assert(expand_all(new_sections@) + free_inputs@ =~= s.subrange(0, 0));
            assert(views(new_sections@) =~= Seq::<SectionView>::empty());
        }
        while idx < n
            invariant
                n == s.len(),
                s == self.player_inputs@,
                idx <= n,
                rle_from(s, self.delta_size, 0, Seq::empty(), Seq::empty()) == rle_from(
                    s,
                    self.delta_size,
                    idx as int,
                    free_inputs@,
                    views(new_sections@),
                ),
                forall|k: int|
                    0 <= k < new_sections@.len() ==> (#[trigger] new_sections@[k]).counted()
                        && new_sections@[k].delta_size == self.delta_size,
                keys_equal(expand_all(new_sections@) + free_inputs@, s.subrange(0, idx as int)),
                inputs_from(new_sections@, s),
                forall|j: int| 0 <= j < free_inputs@.len() ==> s.contains(#[trigger] free_inputs@[j]),
            decreases n - idx,
        {
            let mut found = false;
            let mut best_cluster: usize = 0;
            let mut best_reps: usize = 0;
            let mut best_score: i64 = 0;
            let ghost mut best_ce: nat = 0;
            let ghost mut best_re: nat = 0;
            let mut cluster: usize = 1;
            let ghost mut ce: nat = 0;
            proof {
                lemma2_to64();
            }
            while cluster <= 64 && cluster <= n
                invariant
                    best_repetition(s, idx as int, 1, false, 0, 0, 0) == best_repetition(
                        s,
                        idx as int,
                        cluster as nat,
                        found,
                        best_cluster as nat,
                        best_reps as nat,
                        best_score as int,
                    ),
                    idx < n,
                    n == s.len(),
                    s == self.player_inputs@,
                    cluster as nat == pow2(ce),
                    ce <= 7,
                    best_score >= 0,
                    found ==> {
                        &&& best_cluster as nat == pow2(best_ce)
                        &&& best_ce <= 6
                        &&& best_reps as nat == pow2(best_re)
                        &&& best_re <= 15
                        &&& 1 <= best_cluster <= 64
                        &&& 1 <= best_reps <= 0x8000
                        &&& idx + best_cluster * best_reps <= n
                        &&& periodic(s, idx as int, best_cluster * best_reps, best_cluster as int)
                    },
                ensures
                    best_repetition(s, idx as int, 1, false, 0, 0, 0) == (
                        found,
                        best_cluster as nat,
                        best_reps as nat,
                        best_score as int,
                    ),
                    found ==> {
                        &&& best_cluster as nat == pow2(best_ce)
                        &&& best_ce <= 6
                        &&& best_reps as nat == pow2(best_re)
                        &&& best_re <= 15
                        &&& 1 <= best_cluster <= 64
                        &&& 1 <= best_reps <= 0x8000
                        &&& idx + best_cluster * best_reps <= n
                        &&& periodic(s, idx as int, best_cluster * best_reps, best_cluster as int)
                    },
                decreases 128 - cluster,
            {
                proof {
                    lemma2_to64();
                    if ce >= 7 {
                        lemma_pow2_strictly_increases(6, ce);
                    }
                }
                if cluster >= n - idx {
                    break;
                }
                let mut offset: usize = 1;
                proof {
                    lemma_periodic_one_block(s, idx as int, cluster as int);
                }
                loop
                    invariant
                        idx + cluster < n,
                        n == s.len(),
                        s == self.player_inputs@,
                        1 <= cluster <= 64,
                        1 <= offset,
                        idx + offset * cluster <= n,
                        periodic(s, idx as int, offset * cluster, cluster as int),
                        repeated_blocks(s, idx as int, cluster as int, 1, idx + cluster)
                            == repeated_blocks(
                            s,
                            idx as int,
                            cluster as int,
                            offset as nat,
                            idx + offset * cluster,
                        ),
                    ensures
                        repeated_blocks(s, idx as int, cluster as int, 1, idx + cluster)
                            == offset as nat,
                        idx + offset * cluster <= n,
                        periodic(s, idx as int, offset * cluster, cluster as int),
                        1 <= offset,
                    decreases n - offset * cluster,
                {
                    let start = idx + offset * cluster;
                    if cluster > n - start {
                        break;
                    }
                    let mut all_equal = true;
                    let mut j: usize = 0;
                    while j < cluster
                        invariant
                            j <= cluster,
                            start + cluster <= n,
                            idx + cluster < n,
                            n == s.len(),
                            s == self.player_inputs@,
                            all_equal <==> forall|jj: int|
                                0 <= jj < j ==> #[trigger] same_key(
                                    s[idx + jj],
                                    s[start + jj],
                                ),
                        decreases cluster - j,
                    {
                        if !self.player_inputs[idx + j].weak_eq(&self.player_inputs[start + j]) {
                            all_equal = false;
                        }
                        j = j + 1;
                    }
                    if !all_equal {
                        break;
                    }
                    proof {
                        lemma_periodic_extend(s, idx as int, offset as int, cluster as int);
                        assert((offset + 1) * cluster == offset * cluster + cluster) by (nonlinear_arith);
                        assert(offset + 1 <= (offset + 1) * cluster) by (nonlinear_arith)
                            requires cluster >= 1, offset >= 1;
                    }
                    offset = offset + 1;
                }
                let m = offset - 1;
                if m <= 1 {
                    proof {
                        lemma_pow2_unfold(ce + 1);
                    }
                    cluster = cluster * 2;
                    proof {
                        ce = ce + 1;
                    }
                    continue;
                }
                let reps = largest_power_of_two(m);
                proof {
                    lemma_largest_power_of_two(m);
                }
                proof {
                    assert((cluster as int) * ((reps as int) - 1) <= 64 * 0x8000) by (nonlinear_arith)
                        requires 1 <= cluster <= 64, 1 <= reps <= 0x8000;
                    assert((cluster as int) * ((reps as int) - 1) >= 0) by (nonlinear_arith)
                        requires 1 <= cluster <= 64, 1 <= reps <= 0x8000;
                }
                let score: i64 = (cluster as i64) * ((reps as i64) - 1);
                if score > best_score {
                    proof {
                        assert(cluster * reps <= cluster * m) by (nonlinear_arith)
                            requires reps <= m, cluster >= 1;
                        assert(cluster * m <= offset * cluster) by (nonlinear_arith)
                            requires m == offset - 1, cluster >= 1;
                        lemma_periodic_shorter(s, idx as int, offset * cluster, cluster * reps, cluster as int);
                        best_ce = ce;
                        best_re = spec_exponent_of_two(m as u32) as nat;
                    }
                    found = true;
                    best_score = score;
                    best_cluster = cluster;
                    best_reps = reps;
                }
                proof {
                    lemma_pow2_unfold(ce + 1);
                }
                cluster = cluster * 2;
                proof {
                    ce = ce + 1;
                }
            }
            if found {
                let ghost before = new_sections@;
                let ghost free_before = free_inputs@;
                distribute_inputs_to_sections(&mut new_sections, &mut free_inputs, self.delta_size);
                proof {
                    assert(best_cluster <= best_cluster * best_reps) by (nonlinear_arith)
                        requires best_reps >= 1, best_cluster >= 1;
                }
                let block = copy_range(&self.player_inputs, idx, idx + best_cluster);
                let count_exp = exponent_of_two(best_cluster as u32);
                let repeats_exp = exponent_of_two(best_reps as u32);
                proof {
                    lemma_log2_of_pow2(best_ce);
                    lemma_log2_of_pow2(best_re);
                    lemma_pow2_strictly_increases(best_ce, 32);
                    lemma_pow2_strictly_increases(best_re, 32);
                    if best_ce < 15 {
                        lemma_pow2_strictly_increases(best_ce, 15);
                    }
                    if best_re < 15 {
                        lemma_pow2_strictly_increases(best_re, 15);
                    }
                    assert(best_cluster as u32 == best_cluster);
                    assert(best_reps as u32 == best_reps);
                }
                let section = Section {
                    id: SectionIdentifier::Repeat,
                    delta_size: self.delta_size,
                    player_inputs: block,
                    marked_for_removal: false,
                    count_exp,
                    repeats_exp,
                    special_type: SpecialType::Restart,
                    seed: 0,
                    tps_bits: 0,
                    special: None,
                };
                let ghost mid = new_sections@;
                new_sections.push(section);
                proof {
                    let c = best_cluster as int;
                    let r = best_reps as nat;
                    assert(section@ == repeat_section_view(
                        s.subrange(idx as int, idx + c),
                        self.delta_size,
                        r,
                    ));
                    assert(views(new_sections@) =~= views(mid).push(section@));
                    assert(views(new_sections@) =~= views(before) + spec_distribute(
                        free_before,
                        self.delta_size,
                    ) + seq![section@]);
                    assert(c * r >= 1) by (nonlinear_arith)
                        requires
                            c >= 1,
                            r >= 1,
                    ;
                    assert(section.spec_expand() == repeat_seq(s.subrange(idx as int, idx + c), r));
                    lemma_periodic_repeat(s, idx as int, c, r);
                    lemma_expand_all_push(mid, section);
                    assert(expand_all(mid) == expand_all(before) + free_before);
                    lemma_keys_equal_concat(
                        expand_all(mid),
                        section.spec_expand(),
                        s.subrange(0, idx as int),
                        s.subrange(idx as int, idx + c * r),
                    );
                    assert(s.subrange(0, idx as int) + s.subrange(idx as int, idx + c * r) =~= s.subrange(
                        0,
                        idx + c * r,
                    ));
                    assert(free_inputs@ =~= Seq::<PlayerInput>::empty());
                    assert(expand_all(new_sections@) + free_inputs@ =~= expand_all(new_sections@));
                    assert forall|k: int, j: int|
                        0 <= k < new_sections@.len() && 0 <= j
                            < new_sections@[k].player_inputs@.len() implies s.contains(
                        #[trigger] new_sections@[k].player_inputs@[j],
                    ) by {
                        if k < before.len() {
                            assert(mid.subrange(0, before.len() as int)[k] == before[k]);
                        } else if k < mid.len() {
                            let news = mid.subrange(before.len() as int, mid.len() as int);
                            assert(news[k - before.len()] == mid[k]);
                            assert(free_before.contains(mid[k].player_inputs@[j]));
                            let w = choose|w: int| 0 <= w < free_before.len() && free_before[w]
                                == mid[k].player_inputs@[j];
                            assert(s.contains(free_before[w]));
                        } else {
                            assert(new_sections@[k].player_inputs@[j] == s[idx + j]);
                        }
                    }
                    assert forall|k: int|
                        0 <= k < new_sections@.len() implies (#[trigger] new_sections@[k]).counted()
                        && new_sections@[k].delta_size == self.delta_size by {
                        if k < before.len() {
                            assert(mid.subrange(0, before.len() as int)[k] == before[k]);
                        }
                    }
                }
                idx = idx + best_cluster * best_reps;
            } else {
                let x = self.player_inputs[idx];
                let ghost e = expand_all(new_sections@);
                let ghost f = free_inputs@;
                free_inputs.push(x);
                proof {
                    assert(!best_repetition(s, idx as int, 1, false, 0, 0, 0).0);
                    assert(free_inputs@ == f.push(s[idx as int]));
                    assert(keys_equal(seq![x], s.subrange(idx as int, idx + 1)));
                    lemma_keys_equal_concat(e + f, seq![x], s.subrange(0, idx as int), s.subrange(idx as int, idx + 1));
                    assert(e + f + seq![x] =~= e + free_inputs@);
                    assert(s.subrange(0, idx as int) + s.subrange(idx as int, idx + 1) =~= s.subrange(0, idx + 1));
                    assert forall|j: int| 0 <= j < free_inputs@.len() implies s.contains(#[trigger] free_inputs@[j]) by {
                        if j < f.len() {
                            assert(free_inputs@[j] == f[j]);
                        } else {
                            assert(free_inputs@[j] == s[idx as int]);
                        }
                    }
                }
                idx = idx + 1;
            }
        }
        let ghost before = new_sections@;
        let ghost free_before = free_inputs@;
        distribute_inputs_to_sections(&mut new_sections, &mut free_inputs, self.delta_size);
        proof {
            assert(s.subrange(0, n as int) =~= s);
            assert forall|k: int, j: int|
                0 <= k < new_sections@.len() && 0 <= j < new_sections@[k].player_inputs@.len()
                    implies s.contains(#[trigger] new_sections@[k].player_inputs@[j]) by {
                if k < before.len() {
                    assert(new_sections@.subrange(0, before.len() as int)[k] == before[k]);
                } else {
                    let news = new_sections@.subrange(before.len() as int, new_sections@.len() as int);
                    assert(news[k - before.len()] == new_sections@[k]);
                    assert(free_before.contains(new_sections@[k].player_inputs@[j]));
                    let w = choose|w: int| 0 <= w < free_before.len() && free_before[w]
                        == new_sections@[k].player_inputs@[j];
                    assert(s.contains(free_before[w]));
                }
            }
            assert forall|k: int|
                0 <= k < new_sections@.len() implies (#[trigger] new_sections@[k]).counted()
                && new_sections@[k].delta_size == self.delta_size by {
                if k < before.len() {
                    assert(new_sections@.subrange(0, before.len() as int)[k] == before[k]);
                }
            }
        }
        new_sections
    }
}


// ---------------------------------------------------------------------------
// Reading sections
// ---------------------------------------------------------------------------

/// The frame of the last action, 0 before the first.
pub open spec fn prev_frame(actions: Seq<Action>) -> u64 {
    if actions.len() == 0 {
        0
    } else {
        actions.last().frame
    }
}

/// The action type that a button stands for.
pub open spec fn type_of_button(b: Button) -> ActionType {
    match b {
        Button::Left => ActionType::Left,
        Button::Right => ActionType::Right,
        _ => ActionType::Jump,
    }
}

/// One half of a swift jump.
pub open spec fn swift_half(frame: u64, delta: u64, holding: bool, player2: bool) -> Action {
    Action {
        frame,
        action_type: ActionType::Jump,
        holding,
        player2,
        seed: 0,
        tps_bits: 0,
        delta,
        swift: true,
    }
}

/// The actions after decoding `p` behind `actions`: a swift state stands
/// for a press and a release of jump on one frame.
pub open spec fn push_input(actions: Seq<Action>, p: PlayerInput) -> Seq<Action> {
    let frame = (prev_frame(actions) + p.delta) as u64;
    if p.button is Swift {
        actions.push(swift_half(frame, p.delta, true, p.player2)).push(
            swift_half(frame, 0, false, p.player2),
        )
    } else {
        actions.push(
            Action::spec_player(
                prev_frame(actions),
                p.delta,
                type_of_button(p.button),
                p.holding,
                p.player2,
            ),
        )
    }
}

/// Actions that a state decodes to.
pub open spec fn added_by(p: PlayerInput) -> nat {
    if p.button is Swift {
        2
    } else {
        1
    }
}

/// Actions that a block of states decodes to.
pub open spec fn block_count(block: Seq<PlayerInput>) -> nat
    decreases block.len(),
{
    if block.len() == 0 {
        0
    } else {
        block_count(block.drop_last()) + added_by(block.last())
    }
}

/// Reads `k` states of `byte_size` bytes into actions, one after another,
/// each checked against the action limit `max`.
pub open spec fn read_input_states(
    data: Seq<u8>,
    pos: int,
    k: nat,
    byte_size: nat,
    actions: Seq<Action>,
    max: nat,
) -> Result<(Seq<Action>, int), SectionError>
    decreases k,
{
    if k == 0 {
        Ok((actions, pos))
    } else if pos + byte_size > data.len() {
        Err(SectionError::UnexpectedEof)
    } else {
        let state = le_value(data.subrange(pos, pos + byte_size)) as u64;
        let prev = prev_frame(actions);
        if prev + (state >> 4u64) > u64::MAX {
            Err(SectionError::FrameOverflow)
        } else {
            let p = spec_input_from_state(prev, state);
            if actions.len() + added_by(p) > max {
                Err(SectionError::ActionCountExceeded)
            } else {
                read_input_states(
                    data,
                    pos + byte_size,
                    (k - 1) as nat,
                    byte_size,
                    push_input(actions, p),
                    max,
                )
            }
        }
    }
}

/// Reads the `k` states of a repeated block, each decoded after the one before.
pub open spec fn read_block(
    data: Seq<u8>,
    pos: int,
    k: nat,
    byte_size: nat,
    prev: u64,
    block: Seq<PlayerInput>,
) -> Result<(Seq<PlayerInput>, int), SectionError>
    decreases k,
{
    if k == 0 {
        Ok((block, pos))
    } else if pos + byte_size > data.len() {
        Err(SectionError::UnexpectedEof)
    } else {
        let state = le_value(data.subrange(pos, pos + byte_size)) as u64;
        if prev + (state >> 4u64) > u64::MAX {
            Err(SectionError::FrameOverflow)
        } else {
            let p = spec_input_from_state(prev, state);
            read_block(data, pos + byte_size, (k - 1) as nat, byte_size, p.frame, block.push(p))
        }
    }
}

/// Decodes the states of `block` behind `actions`, failing where a frame
/// would not fit in 64 bits.
pub open spec fn push_inputs(actions: Seq<Action>, block: Seq<PlayerInput>) -> Result<
    Seq<Action>,
    SectionError,
>
    decreases block.len(),
{
    if block.len() == 0 {
        Ok(actions)
    } else if prev_frame(actions) + block[0].delta > u64::MAX {
        Err(SectionError::FrameOverflow)
    } else {
        push_inputs(push_input(actions, block[0]), block.drop_first())
    }
}

/// Decodes `block` `r` times behind `actions`.
pub open spec fn push_repeats(actions: Seq<Action>, block: Seq<PlayerInput>, r: nat) -> Result<
    Seq<Action>,
    SectionError,
>
    decreases r,
{
    if r == 0 {
        Ok(actions)
    } else {
        match push_inputs(actions, block) {
            Ok(a) => push_repeats(a, block, (r - 1) as nat),
            Err(e) => Err(e),
        }
    }
}

/// The action type of a special type code 0 to 2.
pub open spec fn seeded_type_of_code(code: u16) -> ActionType {
    if code == 0 {
        ActionType::Restart
    } else if code == 1 {
        ActionType::RestartFull
    } else {
        ActionType::Death
    }
}

/// Reads the body of a special section with header `h` that starts at `pos`.
pub open spec fn read_special(data: Seq<u8>, pos: int, h: u16, actions: Seq<Action>, max: nat) -> Result<
    (Seq<Action>, int),
    SectionError,
> {
    let byte_size = pow2(((h >> 8u16) & 3u16) as nat);
    let code = (h >> 10u16) & 15u16;
    if pos + byte_size > data.len() {
        Err(SectionError::UnexpectedEof)
    } else {
        let delta = le_value(data.subrange(pos, pos + byte_size)) as u64;
        let cur = prev_frame(actions);
        let q = pos + byte_size;
        if cur + delta > u64::MAX {
            Err(SectionError::FrameOverflow)
        } else if actions.len() + 1 > max {
            Err(SectionError::ActionCountExceeded)
        } else if code > 4 {
            Err(SectionError::InvalidIdentifier)
        } else if code == 4 {
            Ok((actions.push(Action::spec_bugpoint(cur, delta)), q))
        } else if q + 8 > data.len() {
            Err(SectionError::UnexpectedEof)
        } else {
            let v = le_value(data.subrange(q, q + 8)) as u64;
            if code == 3 {
                if !valid_tps_bits(v) {
                    Err(SectionError::InvalidTPS(v))
                } else {
                    Ok((actions.push(Action::spec_tps_change(cur, delta, v)), q + 8))
                }
            } else {
                Ok((actions.push(Action::spec_death(cur, delta, seeded_type_of_code(code), v)), q + 8))
            }
        }
    }
}

/// Reads the section that starts at `pos` behind `actions`, allowing at
/// most `max` actions in all: the actions after it and where it ends.
pub open spec fn spec_read_section(data: Seq<u8>, pos: int, actions: Seq<Action>, max: nat) -> Result<
    (Seq<Action>, int),
    SectionError,
> {
    if pos + 2 > data.len() {
        Err(SectionError::UnexpectedEof)
    } else {
        let h = le_value(data.subrange(pos, pos + 2)) as u16;
        let id = h >> 14u16;
        let byte_size = pow2(((h >> 12u16) & 3u16) as nat);
        let length = pow2(((h >> 8u16) & 15u16) as nat);
        if id == 0 {
            read_input_states(data, pos + 2, length, byte_size, actions, max)
        } else if id == 1 {
            let repeats = pow2(((h >> 3u16) & 31u16) as nat);
            match read_block(data, pos + 2, length, byte_size, 0, Seq::empty()) {
                Err(e) => Err(e),
                Ok((block, q)) => if actions.len() + block_count(block) * repeats > max {
                    Err(SectionError::ActionCountExceeded)
                } else {
                    match push_repeats(actions, block, repeats) {
                        Ok(a) => Ok((a, q)),
                        Err(e) => Err(e),
                    }
                },
            }
        } else if id == 2 {
            read_special(data, pos + 2, h, actions, max)
        } else {
            Err(SectionError::InvalidIdentifier)
        }
    }
}

/// The actions after reading `k` states as `read_input_states` does: all
/// of them where it succeeds, and where it fails, those appended before the
/// state that failed.
pub open spec fn input_states_left(
    data: Seq<u8>,
    pos: int,
    k: nat,
    byte_size: nat,
    actions: Seq<Action>,
    max: nat,
) -> Seq<Action>
    decreases k,
{
    if k == 0 || pos + byte_size > data.len() {
        actions
    } else {
        let state = le_value(data.subrange(pos, pos + byte_size)) as u64;
        let prev = prev_frame(actions);
        if prev + (state >> 4u64) > u64::MAX {
            actions
        } else {
            let p = spec_input_from_state(prev, state);
            if actions.len() + added_by(p) > max {
                actions
            } else {
                input_states_left(
                    data,
                    pos + byte_size,
                    (k - 1) as nat,
                    byte_size,
                    push_input(actions, p),
                    max,
                )
            }
        }
    }
}

/// The actions after decoding `block` as `push_inputs` does: up to the
/// state whose frame would not fit, if there is one.
pub open spec fn push_inputs_left(actions: Seq<Action>, block: Seq<PlayerInput>) -> Seq<Action>
    decreases block.len(),
{
    if block.len() == 0 || prev_frame(actions) + block[0].delta > u64::MAX {
        actions
    } else {
        push_inputs_left(push_input(actions, block[0]), block.drop_first())
    }
}

/// The actions after decoding `block` `r` times as `push_repeats` does.
pub open spec fn push_repeats_left(actions: Seq<Action>, block: Seq<PlayerInput>, r: nat) -> Seq<
    Action,
>
    decreases r,
{
    if r == 0 {
        actions
    } else {
        match push_inputs(actions, block) {
            Ok(a) => push_repeats_left(a, block, (r - 1) as nat),
            Err(_) => push_inputs_left(actions, block),
        }
    }
}

/// The actions after reading a repeat section's body at `pos`: unchanged
/// unless its block is read and fits under `max`, then its repeats up to
/// where a frame would not fit.
pub open spec fn repeat_section_left(
    data: Seq<u8>,
    pos: int,
    length: nat,
    byte_size: nat,
    repeats: nat,
    actions: Seq<Action>,
    max: nat,
) -> Seq<Action> {
    match read_block(data, pos, length, byte_size, 0, Seq::empty()) {
        Err(_) => actions,
        Ok((block, _)) => if actions.len() + block_count(block) * repeats > max {
            actions
        } else {
            push_repeats_left(actions, block, repeats)
        },
    }
}

/// The actions after reading the section at `pos` behind `actions`, on
/// success and on failure alike. A special section, or one that is refused
/// before its first action, leaves them as they were.
pub open spec fn section_actions_left(data: Seq<u8>, pos: int, actions: Seq<Action>, max: nat) -> Seq<
    Action,
> {
    if pos + 2 > data.len() {
        actions
    } else {
        let h = le_value(data.subrange(pos, pos + 2)) as u16;
        let id = h >> 14u16;
        let byte_size = pow2(((h >> 12u16) & 3u16) as nat);
        let length = pow2(((h >> 8u16) & 15u16) as nat);
        if id == 0 {
            input_states_left(data, pos + 2, length, byte_size, actions, max)
        } else if id == 1 {
            repeat_section_left(
                data,
                pos + 2,
                length,
                byte_size,
                pow2(((h >> 3u16) & 31u16) as nat),
                actions,
                max,
            )
        } else if id == 2 {
            match read_special(data, pos + 2, h, actions, max) {
                Ok((a, _)) => a,
                Err(_) => actions,
            }
        } else {
            actions
        }
    }
}

/// `new` begins with all of `old`.
pub open spec fn keeps_prefix(old: Seq<Action>, new: Seq<Action>) -> bool {
    old.len() <= new.len() && new.subrange(0, old.len() as int) == old
}

proof fn lemma_keeps_prefix_trans(a: Seq<Action>, b: Seq<Action>, c: Seq<Action>)
    requires
        keeps_prefix(a, b),
        keeps_prefix(b, c),
    ensures
        keeps_prefix(a, c),
{
    assert(c.subrange(0, a.len() as int) =~= c.subrange(0, b.len() as int).subrange(0, a.len() as int));
}

/// A block's first `j` states decode to no more actions than the block.
proof fn lemma_block_count_prefix(b: Seq<PlayerInput>, j: int)
    requires
        0 <= j <= b.len(),
    ensures
        block_count(b.subrange(0, j)) <= block_count(b),
    decreases b.len(),
{
    if j < b.len() {
        assert(b.drop_last().subrange(0, j) =~= b.subrange(0, j));
        lemma_block_count_prefix(b.drop_last(), j);
    } else {
        assert(b.subrange(0, j) =~= b);
    }
}

/// Appends the actions that `p` decodes to.
fn push_player(actions: &mut Vec<Action>, p: &PlayerInput)
    requires
        prev_frame(old(actions)@) + p.delta <= u64::MAX,
    ensures
        final(actions)@ == push_input(old(actions)@, *p),
        keeps_prefix(old(actions)@, final(actions)@),
{
    let previous_frame = match actions.last() {
        Some(a) => a.frame,
        None => 0,
    };
    if p.button == Button::Swift {
        let mut press = Action::player(previous_frame, p.delta, ActionType::Jump, true, p.player2);
        press.set_swift(true);
        actions.push(press);
        let mut release = Action::player(previous_frame + p.delta, 0, ActionType::Jump, false, p.player2);
        release.set_swift(true);
        actions.push(release);
    } else {
        let action_type = match p.button {
            Button::Left => ActionType::Left,
            Button::Right => ActionType::Right,
            _ => ActionType::Jump,
        };
        actions.push(Action::player(previous_frame, p.delta, action_type, p.holding, p.player2));
    }
    proof {
        assert(actions@.subrange(0, old(actions)@.len() as int) =~= old(actions)@);
    }
}

/// The frame of the last action, 0 before the first.
fn last_frame(actions: &Vec<Action>) -> (r: u64)
    ensures
        r == prev_frame(actions@),
{
    match actions.last() {
        Some(a) => a.frame,
        None => 0,
    }
}

/// `2^code` for a delta size code of at most 3.
fn size_of_code(code: u16) -> (r: usize)
    requires
        code <= 3,
    ensures
        r as nat == pow2(code as nat),
        r <= 8,
{
    proof {
        lemma2_to64();
    }
    if code == 0 {
        1
    } else if code == 1 {
        2
    } else if code == 2 {
        4
    } else {
        8
    }
}

impl Section {
    /// Reads the section that starts at `pos` and appends its actions,
    /// allowing at most `max_actions` in all; gives where the section ends.
    ///
    /// Sections matter only while writing, so reading yields actions.
    pub fn read(data: &[u8], pos: usize, actions: &mut Vec<Action>, max_actions: usize) -> (r:
        Result<usize, SectionError>)
        ensures
            match spec_read_section(data@, pos as int, old(actions)@, max_actions as nat) {
                Ok((acts, end)) => r == Ok::<usize, SectionError>(end as usize) && final(actions)@ == acts && end
                    <= data@.len(),
                Err(e) => r == Err::<usize, SectionError>(e),
            },
            final(actions)@ == section_actions_left(
                data@,
                pos as int,
                old(actions)@,
                max_actions as nat,
            ),
            keeps_prefix(old(actions)@, final(actions)@),
            final(actions)@ == old(actions)@ || final(actions)@.len() <= max_actions,
    {
        let ghost old_acts = actions@;
        proof {
            assert(old_acts.subrange(0, old_acts.len() as int) =~= old_acts);
        }
        let dlen = data.len();
        let header = match read_n_bytes(data, pos, 2) {
            Ok(h) => h as u16,
            Err(e) => {
                return Err(e);
            },
        };
        proof {
            lemma_le_value_bound(data@.subrange(pos as int, pos + 2));
            lemma2_to64();
            vstd::arithmetic::power::lemma_pow_adds(256, 1, 1);
            vstd::arithmetic::power::lemma_pow1(256);
        }
        let id = header >> 14;
        let start = pos + 2;
        assert((header >> 12u16) & 3u16 <= 3) by (bit_vector);
        assert((header >> 8u16) & 15u16 <= 15) by (bit_vector);
        assert((header >> 3u16) & 31u16 <= 31) by (bit_vector);
        if id == 0 {
            let byte_size = size_of_code((header >> 12) & 0b11);
            let length = pow2_u64(((header >> 8) & 0b1111) as u64);
            read_input_section(data, start, length, byte_size, actions, max_actions)
        } else if id == 1 {
            let byte_size = size_of_code((header >> 12) & 0b11);
            let length = pow2_u64(((header >> 8) & 0b1111) as u64);
            let repeats = pow2_u64(((header >> 3) & 0b11111) as u64);
            read_repeat_section(data, start, length, byte_size, repeats, actions, max_actions)
        } else if id == 2 {
            read_special_section(data, start, header, actions, max_actions)
        } else {
            Err(SectionError::InvalidIdentifier)
        }
    }
}

fn read_input_section(
    data: &[u8],
    pos: usize,
    length: u64,
    byte_size: usize,
    actions: &mut Vec<Action>,
    max_actions: usize,
) -> (r: Result<usize, SectionError>)
    requires
        byte_size <= 8,
        pos <= data@.len(),
    ensures
        match read_input_states(
            data@,
            pos as int,
            length as nat,
            byte_size as nat,
            old(actions)@,
            max_actions as nat,
        ) {
            Ok((acts, end)) => r == Ok::<usize, SectionError>(end as usize) && final(actions)@ == acts && end <= data@.len(),
            Err(e) => r == Err::<usize, SectionError>(e),
        },
        final(actions)@ == input_states_left(
            data@,
            pos as int,
            length as nat,
            byte_size as nat,
            old(actions)@,
            max_actions as nat,
        ),
        keeps_prefix(old(actions)@, final(actions)@),
        final(actions)@ == old(actions)@ || final(actions)@.len() <= max_actions,
{
    let ghost old_acts = actions@;
    proof {
        assert(old_acts.subrange(0, old_acts.len() as int) =~= old_acts);
    }
    let dlen = data.len();
    let mut previous_frame = last_frame(actions);
    let mut p_pos: usize = pos;
    let mut k: u64 = 0;
    while k < length
        invariant
            byte_size <= 8,
            k <= length,
            old_acts == old(actions)@,
            dlen == data@.len(),
            previous_frame == prev_frame(actions@),
            keeps_prefix(old_acts, actions@),
            actions@ == old_acts || actions@.len() <= max_actions,
            input_states_left(
                data@,
                pos as int,
                length as nat,
                byte_size as nat,
                old_acts,
                max_actions as nat,
            ) == input_states_left(
                data@,
                p_pos as int,
                (length - k) as nat,
                byte_size as nat,
                actions@,
                max_actions as nat,
            ),
            read_input_states(
                data@,
                pos as int,
                length as nat,
                byte_size as nat,
                old_acts,
                max_actions as nat,
            ) == read_input_states(
                data@,
                p_pos as int,
                (length - k) as nat,
                byte_size as nat,
                actions@,
                max_actions as nat,
            ),
            p_pos <= data@.len(),
        decreases length - k,
    {
        let ghost rest = read_input_states(
            data@,
            p_pos as int,
            (length - k) as nat,
            byte_size as nat,
            actions@,
            max_actions as nat,
        );
        let state = match read_n_bytes(data, p_pos, byte_size) {
            Ok(v) => v,
            Err(e) => {
                assert(rest == Err::<(Seq<Action>, int), SectionError>(SectionError::UnexpectedEof));
                return Err(e);
            },
        };
        let p = match PlayerInput::from_state(previous_frame, state) {
            Ok(p) => p,
            Err(e) => {
                assert(rest == Err::<(Seq<Action>, int), SectionError>(SectionError::FrameOverflow));
                return Err(e);
            },
        };
        let added: usize = if p.button == Button::Swift {
            2
        } else {
            1
        };
        match ensure_action_capacity(actions.len(), added, max_actions) {
            Ok(()) => {},
            Err(e) => {
                return Err(e);
            },
        }
        let ghost mid = actions@;
        push_player(actions, &p);
        proof {
            lemma_keeps_prefix_trans(old_acts, mid, actions@);
        }
        previous_frame = last_frame(actions);
        p_pos = p_pos + byte_size;
        k = k + 1;
    }
    Ok(p_pos)
}


fn read_repeat_section(
    data: &[u8],
    pos: usize,
    length: u64,
    byte_size: usize,
    repeats: u64,
    actions: &mut Vec<Action>,
    max_actions: usize,
) -> (r: Result<usize, SectionError>)
    requires
        byte_size <= 8,
        pos <= data@.len(),
        1 <= length <= 0x8000,
        1 <= repeats <= 0x8000_0000,
    ensures
        match read_block(data@, pos as int, length as nat, byte_size as nat, 0, Seq::empty()) {
            Err(e) => r == Err::<usize, SectionError>(e),
            Ok((block, q)) => if old(actions)@.len() + block_count(block) * repeats > max_actions {
                r == Err::<usize, SectionError>(SectionError::ActionCountExceeded)
            } else {
                match push_repeats(old(actions)@, block, repeats as nat) {
                    Ok(a) => r == Ok::<usize, SectionError>(q as usize) && final(actions)@ == a && q <= data@.len(),
                    Err(e) => r == Err::<usize, SectionError>(e),
                }
            },
        },
        final(actions)@ == repeat_section_left(
            data@,
            pos as int,
            length as nat,
            byte_size as nat,
            repeats as nat,
            old(actions)@,
            max_actions as nat,
        ),
        keeps_prefix(old(actions)@, final(actions)@),
        final(actions)@ == old(actions)@ || final(actions)@.len() <= max_actions,
{
    let ghost old_acts = actions@;
    proof {
        assert(old_acts.subrange(0, old_acts.len() as int) =~= old_acts);
    }
    let dlen = data.len();
    let mut inputs: Vec<PlayerInput> = Vec::new();
    let mut prev_input_frame: u64 = 0;
    let mut p_pos: usize = pos;
    let mut k: u64 = 0;
    let mut per_repeat: usize = 0;
    while k < length
        invariant
            byte_size <= 8,
            k <= length <= 0x8000,
            dlen == data@.len(),
            p_pos <= data@.len(),
            read_block(data@, pos as int, length as nat, byte_size as nat, 0, Seq::empty())
                == read_block(
                data@,
                p_pos as int,
                (length - k) as nat,
                byte_size as nat,
                prev_input_frame,
                inputs@,
            ),
            per_repeat == block_count(inputs@),
            per_repeat <= 2 * k,
            inputs@.len() == k,
            old_acts == old(actions)@,
            actions@ == old_acts,
            keeps_prefix(old_acts, actions@),
        decreases length - k,
    {
        let state = match read_n_bytes(data, p_pos, byte_size) {
            Ok(v) => v,
            Err(e) => {
                return Err(e);
            },
        };
        let p = match PlayerInput::from_state(prev_input_frame, state) {
            Ok(p) => p,
            Err(e) => {
                return Err(e);
            },
        };
        prev_input_frame = p.frame;
        let ghost before = inputs@;
        inputs.push(p);
        assert(inputs@.drop_last() =~= before);
        per_repeat = per_repeat + if p.button == Button::Swift {
            2
        } else {
            1
        };
        p_pos = p_pos + byte_size;
        k = k + 1;
    }
    let ghost block = inputs@;
    assert(read_block(data@, p_pos as int, 0, byte_size as nat, prev_input_frame, inputs@) == Ok::<
        (Seq<PlayerInput>, int),
        SectionError,
    >((inputs@, p_pos as int)));
    let reps: usize = repeats as usize;
    let added = match per_repeat.checked_mul(reps) {
        Some(a) => a,
        None => {
            return Err(SectionError::ActionCountExceeded);
        },
    };
    match ensure_action_capacity(actions.len(), added, max_actions) {
        Ok(()) => {},
        Err(e) => {
            return Err(e);
        },
    }
    let mut rr: usize = 0;
    while rr < reps
        invariant
            rr <= reps,
            reps == repeats,
            inputs@ == block,
            old_acts == old(actions)@,
            old_acts.len() + block_count(block) * repeats <= max_actions,
            keeps_prefix(old_acts, actions@),
            actions@.len() <= old_acts.len() + rr * block_count(block),
            read_block(data@, pos as int, length as nat, byte_size as nat, 0, Seq::empty()) == Ok::<
                (Seq<PlayerInput>, int),
                SectionError,
            >((block, p_pos as int)),
            p_pos <= data@.len(),
            push_repeats(old_acts, block, repeats as nat) == push_repeats(
                actions@,
                block,
                (repeats - rr) as nat,
            ),
            push_repeats_left(old_acts, block, repeats as nat) == push_repeats_left(
                actions@,
                block,
                (repeats - rr) as nat,
            ),
        decreases reps - rr,
    {
        let ghost round_start = actions@;
        let mut j: usize = 0;
        proof {
            assert(block.subrange(0, block.len() as int) =~= block);
            assert(block.subrange(0, 0) =~= Seq::<PlayerInput>::empty());
            assert(rr * block_count(block) + block_count(block) <= repeats * block_count(block))
                by (nonlinear_arith)
                requires
                    rr < repeats,
            ;
        }
        while j < inputs.len()
            invariant
                j <= inputs@.len(),
                inputs@ == block,
                rr < reps,
                reps == repeats,
                old_acts == old(actions)@,
                old_acts.len() + block_count(block) * repeats <= max_actions,
                keeps_prefix(old_acts, actions@),
                round_start.len() <= old_acts.len() + rr * block_count(block),
                rr * block_count(block) + block_count(block) <= repeats * block_count(block),
                actions@.len() == round_start.len() + block_count(block.subrange(0, j as int)),
                read_block(data@, pos as int, length as nat, byte_size as nat, 0, Seq::empty()) == Ok::<
                    (Seq<PlayerInput>, int),
                    SectionError,
                >((block, p_pos as int)),
                p_pos <= data@.len(),
                push_repeats(old_acts, block, repeats as nat) == push_repeats(
                    round_start,
                    block,
                    (repeats - rr) as nat,
                ),
                push_inputs(round_start, block) == push_inputs(
                    actions@,
                    block.subrange(j as int, block.len() as int),
                ),
                push_repeats_left(old_acts, block, repeats as nat) == push_repeats_left(
                    round_start,
                    block,
                    (repeats - rr) as nat,
                ),
                push_inputs_left(round_start, block) == push_inputs_left(
                    actions@,
                    block.subrange(j as int, block.len() as int),
                ),
            decreases inputs@.len() - j,
        {
            let p = inputs[j];
            let previous_frame = last_frame(actions);
            proof {
                assert(block.subrange(j as int, block.len() as int).drop_first() =~= block.subrange(
                    j + 1,
                    block.len() as int,
                ));
            }
            if previous_frame.checked_add(p.delta).is_none() {
                proof {
                    assert(push_inputs(round_start, block) == Err::<Seq<Action>, SectionError>(
                        SectionError::FrameOverflow,
                    ));
                    assert(push_repeats(round_start, block, (repeats - rr) as nat) == Err::<
                        Seq<Action>,
                        SectionError,
                    >(SectionError::FrameOverflow));
                    assert(push_repeats_left(round_start, block, (repeats - rr) as nat)
                        == push_inputs_left(round_start, block));
                    assert(push_inputs_left(actions@, block.subrange(j as int, block.len() as int))
                        == actions@);
                    lemma_block_count_prefix(block, j as int);
                    assert(repeats * block_count(block) == block_count(block) * repeats)
                        by (nonlinear_arith);
                }
                return Err(SectionError::FrameOverflow);
            }
            let ghost mid = actions@;
            push_player(actions, &p);
            proof {
                lemma_keeps_prefix_trans(old_acts, mid, actions@);
                let sub = block.subrange(0, j + 1);
                assert(sub.drop_last() =~= block.subrange(0, j as int));
                assert(sub.last() == p);
                lemma_block_count_prefix(block, j + 1);
            }
            j = j + 1;
        }
        proof {
            assert(block.subrange(j as int, block.len() as int) =~= Seq::<PlayerInput>::empty());
            assert(block.subrange(0, j as int) =~= block);
            assert((rr + 1) * block_count(block) == rr * block_count(block) + block_count(block))
                by (nonlinear_arith);
        }
        rr = rr + 1;
    }
    proof {
        assert(rr * block_count(block) == block_count(block) * repeats) by (nonlinear_arith)
            requires
                rr == repeats,
        ;
    }
    Ok(p_pos)
}

fn read_special_section(
    data: &[u8],
    pos: usize,
    header: u16,
    actions: &mut Vec<Action>,
    max_actions: usize,
) -> (r: Result<usize, SectionError>)
    requires
        pos <= data@.len(),
    ensures
        match read_special(data@, pos as int, header, old(actions)@, max_actions as nat) {
            Ok((acts, end)) => r == Ok::<usize, SectionError>(end as usize) && final(actions)@ == acts && end <= data@.len(),
            Err(e) => r == Err::<usize, SectionError>(e),
        },
        r is Err ==> final(actions)@ == old(actions)@,
        keeps_prefix(old(actions)@, final(actions)@),
{
    proof {
        assert(old(actions)@.subrange(0, old(actions)@.len() as int) =~= old(actions)@);
    }
    let dlen = data.len();
    assert((header >> 8u16) & 3u16 <= 3) by (bit_vector);
    let byte_size = size_of_code((header >> 8) & 0b11);
    let code = (header >> 10) & 0b1111;
    let frame_delta = match read_n_bytes(data, pos, byte_size) {
        Ok(v) => v,
        Err(e) => {
            return Err(e);
        },
    };
    let current_frame = last_frame(actions);
    if current_frame.checked_add(frame_delta).is_none() {
        return Err(SectionError::FrameOverflow);
    }
    match ensure_action_capacity(actions.len(), 1, max_actions) {
        Ok(()) => {},
        Err(e) => {
            return Err(e);
        },
    }
    if code > 4 {
        return Err(SectionError::InvalidIdentifier);
    }
    let q = pos + byte_size;
    if code == 4 {
        actions.push(Action::bugpoint(current_frame, frame_delta));
        proof {
            assert(actions@.subrange(0, old(actions)@.len() as int) =~= old(actions)@);
        }
        return Ok(q);
    }
    let value = match read_n_bytes(data, q, 8) {
        Ok(v) => v,
        Err(e) => {
            return Err(e);
        },
    };
    if code == 3 {
        if !is_valid_tps(value) {
            return Err(SectionError::InvalidTPS(value));
        }
        actions.push(Action::tps_change(current_frame, frame_delta, value));
    } else {
        let action_type = if code == 0 {
            ActionType::Restart
        } else if code == 1 {
            ActionType::RestartFull
        } else {
            ActionType::Death
        };
        actions.push(Action::death(current_frame, frame_delta, action_type, value));
    }
    proof {
        assert(actions@.subrange(0, old(actions)@.len() as int) =~= old(actions)@);
    }
    Ok(q + 8)
}


// ---------------------------------------------------------------------------
// What sections stand for
// ---------------------------------------------------------------------------

/// One thing that a section records: a player state or a special action.
pub enum Item {
    State(PlayerInput),
    Special(Action),
}

/// The items of a section, its repeats unrolled.
pub open spec fn section_items(s: Section) -> Seq<Item> {
    if s.marked_for_removal {
        Seq::empty()
    } else if s.id is Special {
        seq![Item::Special(s.special.unwrap())]
    } else {
        s.spec_expand().map_values(|p: PlayerInput| Item::State(p))
    }
}

/// The items of a sequence of sections, in order.
pub open spec fn sections_items(ss: Seq<Section>) -> Seq<Item>
    decreases ss.len(),
{
    if ss.len() == 0 {
        Seq::empty()
    } else {
        sections_items(ss.drop_last()) + section_items(ss.last())
    }
}

pub open spec fn item_match(a: Item, b: Item) -> bool {
    match (a, b) {
        (Item::State(p), Item::State(q)) => same_key(p, q),
        (Item::Special(x), Item::Special(y)) => x == y,
        _ => false,
    }
}

/// The two sequences record the same things in the same order.
pub open spec fn items_match(x: Seq<Item>, y: Seq<Item>) -> bool {
    x.len() == y.len() && forall|i: int| 0 <= i < x.len() ==> #[trigger] item_match(x[i], y[i])
}

/// A state of delta size code `ds` has room for `p`'s delta.
pub open spec fn delta_fits(p: PlayerInput, ds: u16) -> bool {
    (p.delta as nat) < pow2((8 * pow2(ds as nat) - 4) as nat)
}

/// The special action that a special section decodes to.
pub open spec fn special_fits(a: Action, ds: u16) -> bool {
    &&& special_type_of(a.action_type) is Some
    &&& a.action_type is TPS ==> valid_tps_bits(a.tps_bits)
    &&& (a.delta as nat) < pow2(8 * pow2(ds as nat))
}

/// The section can be written and read back as its items.
pub open spec fn section_fits(s: Section) -> bool {
    &&& !s.marked_for_removal
    &&& s.delta_size <= 3
    &&& if s.id is Special {
        &&& s.special is Some
        &&& s.special_for(s.special.unwrap())
        &&& special_fits(s.special.unwrap(), s.delta_size)
    } else {
        &&& s.counted()
        &&& forall|j: int|
            0 <= j < s.player_inputs@.len() ==> delta_fits(
                #[trigger] s.player_inputs@[j],
                s.delta_size,
            )
    }
}

pub proof fn lemma_sections_items_concat(a: Seq<Section>, b: Seq<Section>)
    ensures
        sections_items(a + b) == sections_items(a) + sections_items(b),
    decreases b.len(),
{
    if b.len() == 0 {
        assert(a + b =~= a);
        assert(sections_items(a) + sections_items(b) =~= sections_items(a));
    } else {
        lemma_sections_items_concat(a, b.drop_last());
        assert((a + b).drop_last() =~= a + b.drop_last());
        assert((a + b).last() == b.last());
        assert(sections_items(a) + sections_items(b.drop_last()) + section_items(b.last())
            =~= sections_items(a) + (sections_items(b.drop_last()) + section_items(b.last())));
    }
}

/// Input and repeat sections stand for their unrolled inputs as states.
pub proof fn lemma_sections_items_states(ss: Seq<Section>)
    requires
        forall|k: int| 0 <= k < ss.len() ==> (#[trigger] ss[k]).counted(),
    ensures
        sections_items(ss) == expand_all(ss).map_values(|p: PlayerInput| Item::State(p)),
    decreases ss.len(),
{
    if ss.len() > 0 {
        lemma_sections_items_states(ss.drop_last());
        assert(ss.last().counted());
        let f = |p: PlayerInput| Item::State(p);
        assert(expand_all(ss.drop_last()).map_values(f) + ss.last().spec_expand().map_values(f)
            =~= (expand_all(ss.drop_last()) + ss.last().spec_expand()).map_values(f));
    }
}

pub proof fn lemma_items_match_concat(a: Seq<Item>, b: Seq<Item>, x: Seq<Item>, y: Seq<Item>)
    requires
        items_match(a, x),
        items_match(b, y),
    ensures
        items_match(a + b, x + y),
{
    assert forall|i: int| 0 <= i < (a + b).len() implies #[trigger] item_match((a + b)[i], (x + y)[i]) by {
        if i < a.len() {
            assert(item_match(a[i], x[i]));
        } else {
            assert(item_match(b[i - a.len()], y[i - a.len()]));
        }
    }
}

pub proof fn lemma_keys_equal_states(a: Seq<PlayerInput>, b: Seq<PlayerInput>)
    requires
        keys_equal(a, b),
    ensures
        items_match(
            a.map_values(|p: PlayerInput| Item::State(p)),
            b.map_values(|p: PlayerInput| Item::State(p)),
        ),
{
    let f = |p: PlayerInput| Item::State(p);
    assert forall|i: int| 0 <= i < a.len() implies #[trigger] item_match(
        a.map_values(f)[i],
        b.map_values(f)[i],
    ) by {
        assert(same_key(a[i], b[i]));
    }
}


// ---------------------------------------------------------------------------
// Decoding items
// ---------------------------------------------------------------------------

/// The action that a special section for `a` decodes to after `prev`.
pub open spec fn decode_special(prev: u64, a: Action) -> Action {
    match a.action_type {
        ActionType::TPS => Action::spec_tps_change(prev, a.delta, a.tps_bits),
        ActionType::Bugpoint => Action::spec_bugpoint(prev, a.delta),
        _ => Action::spec_death(prev, a.delta, a.action_type, a.seed),
    }
}

/// The actions after decoding `it` behind `actions`; none where a frame
/// would not fit in 64 bits.
pub open spec fn push_item(actions: Seq<Action>, it: Item) -> Option<Seq<Action>> {
    match it {
        Item::State(p) => if prev_frame(actions) + p.delta > u64::MAX {
            None
        } else {
            Some(push_input(actions, p))
        },
        Item::Special(a) => if prev_frame(actions) + a.delta > u64::MAX {
            None
        } else {
            Some(actions.push(decode_special(prev_frame(actions), a)))
        },
    }
}

/// The actions after decoding `items` in order behind `actions`.
pub open spec fn push_items(actions: Seq<Action>, items: Seq<Item>) -> Option<Seq<Action>>
    decreases items.len(),
{
    if items.len() == 0 {
        Some(actions)
    } else {
        match push_item(actions, items[0]) {
            Some(a) => push_items(a, items.drop_first()),
            None => None,
        }
    }
}

pub proof fn lemma_push_items_concat(actions: Seq<Action>, x: Seq<Item>, y: Seq<Item>)
    ensures
        push_items(actions, x + y) == match push_items(actions, x) {
            Some(a) => push_items(a, y),
            None => None,
        },
    decreases x.len(),
{
    if x.len() == 0 {
        assert(x + y =~= y);
    } else {
        assert((x + y)[0] == x[0]);
        assert((x + y).drop_first() =~= x.drop_first() + y);
        if let Some(a) = push_item(actions, x[0]) {
            lemma_push_items_concat(a, x.drop_first(), y);
        }
    }
}

/// Decoding only looks at what states record.
pub proof fn lemma_push_items_match(actions: Seq<Action>, x: Seq<Item>, y: Seq<Item>)
    requires
        items_match(x, y),
    ensures
        push_items(actions, x) == push_items(actions, y),
    decreases x.len(),
{
    if x.len() > 0 {
        assert(item_match(x[0], y[0]));
        assert(items_match(x.drop_first(), y.drop_first())) by {
            assert forall|i: int| 0 <= i < x.drop_first().len() implies #[trigger] item_match(
                x.drop_first()[i],
                y.drop_first()[i],
            ) by {
                assert(item_match(x[i + 1], y[i + 1]));
            }
        }
        assert(push_item(actions, x[0]) == push_item(actions, y[0]));
        if let Some(a) = push_item(actions, x[0]) {
            lemma_push_items_match(a, x.drop_first(), y.drop_first());
        }
    }
}

/// Decoding only ever appends.
pub proof fn lemma_push_items_grows(actions: Seq<Action>, items: Seq<Item>)
    requires
        push_items(actions, items) is Some,
    ensures
        push_items(actions, items).unwrap().len() >= actions.len() + items.len(),
        push_items(actions, items).unwrap().subrange(0, actions.len() as int) == actions,
    decreases items.len(),
{
    if items.len() > 0 {
        let a = push_item(actions, items[0]).unwrap();
        lemma_push_items_grows(a, items.drop_first());
        let r = push_items(actions, items).unwrap();
        assert(a.subrange(0, actions.len() as int) =~= actions);
        assert(r.subrange(0, actions.len() as int) =~= a.subrange(0, a.len() as int).subrange(0, actions.len() as int));
    }
}

// ---------------------------------------------------------------------------
// Reading back what was written
// ---------------------------------------------------------------------------

proof fn lemma_input_header(ce: u16, ds: u16)
    requires
        ce <= 15,
        ds <= 3,
    ensures
        input_header(ce, ds) >> 14u16 == 0,
        (input_header(ce, ds) >> 12u16) & 3u16 == ds,
        (input_header(ce, ds) >> 8u16) & 15u16 == ce,
{
    assert(((ce << 8u16) | (ds << 12u16)) >> 14u16 == 0) by (bit_vector)
        requires ce <= 15, ds <= 3;
    assert((((ce << 8u16) | (ds << 12u16)) >> 12u16) & 3u16 == ds) by (bit_vector)
        requires ce <= 15, ds <= 3;
    assert((((ce << 8u16) | (ds << 12u16)) >> 8u16) & 15u16 == ce) by (bit_vector)
        requires ce <= 15, ds <= 3;
}

proof fn lemma_repeat_header(ce: u16, re: u16, ds: u16)
    requires
        ce <= 15,
        re <= 15,
        ds <= 3,
    ensures
        repeat_header(ce, re, ds) >> 14u16 == 1,
        (repeat_header(ce, re, ds) >> 12u16) & 3u16 == ds,
        (repeat_header(ce, re, ds) >> 8u16) & 15u16 == ce,
        (repeat_header(ce, re, ds) >> 3u16) & 31u16 == re,
{
    assert(((1u16 << 14u16) | (ds << 12u16) | (ce << 8u16) | (re << 3u16)) >> 14u16 == 1) by (bit_vector)
        requires ce <= 15, re <= 15, ds <= 3;
    assert((((1u16 << 14u16) | (ds << 12u16) | (ce << 8u16) | (re << 3u16)) >> 12u16) & 3u16 == ds) by (bit_vector)
        requires ce <= 15, re <= 15, ds <= 3;
    assert((((1u16 << 14u16) | (ds << 12u16) | (ce << 8u16) | (re << 3u16)) >> 8u16) & 15u16 == ce) by (bit_vector)
        requires ce <= 15, re <= 15, ds <= 3;
    assert((((1u16 << 14u16) | (ds << 12u16) | (ce << 8u16) | (re << 3u16)) >> 3u16) & 31u16 == re) by (bit_vector)
        requires ce <= 15, re <= 15, ds <= 3;
}

proof fn lemma_special_header(code: u16, ds: u16)
    requires
        code <= 4,
        ds <= 3,
    ensures
        ((2u16 << 14u16) | (code << 10u16) | (ds << 8u16)) >> 14u16 == 2,
        (((2u16 << 14u16) | (code << 10u16) | (ds << 8u16)) >> 8u16) & 3u16 == ds,
        (((2u16 << 14u16) | (code << 10u16) | (ds << 8u16)) >> 10u16) & 15u16 == code,
{
    assert(((2u16 << 14u16) | (code << 10u16) | (ds << 8u16)) >> 14u16 == 2) by (bit_vector)
        requires code <= 4, ds <= 3;
    assert((((2u16 << 14u16) | (code << 10u16) | (ds << 8u16)) >> 8u16) & 3u16 == ds) by (bit_vector)
        requires code <= 4, ds <= 3;
    assert((((2u16 << 14u16) | (code << 10u16) | (ds << 8u16)) >> 10u16) & 15u16 == code) by (bit_vector)
        requires code <= 4, ds <= 3;
}

/// `2^(8 * 2^ds)` is `256^(2^ds)`, the values that `2^ds` bytes hold.
proof fn lemma_bytes_range(ds: u16)
    requires
        ds <= 3,
    ensures
        pow2(8 * pow2(ds as nat)) == vstd::arithmetic::power::pow(256, pow2(ds as nat)),
        pow2(ds as nat) <= 8,
{
    lemma2_to64();
    reveal_with_fuel(vstd::arithmetic::power::pow, 9);
    assert(pow2(16) == 0x10000);
    assert(pow2(32) == 0x1_0000_0000);
    assert(pow2(64) == 0x1_0000_0000_0000_0000);
}

/// Two-byte headers read back as written.
proof fn lemma_read_u16(h: u16)
    ensures
        le_value(le_bytes(h as nat, 2)) as u16 == h,
        le_bytes(h as nat, 2).len() == 2,
{
    lemma_le_value_of_bytes(h as nat, 2);
    lemma_le_bytes_len(h as nat, 2);
    reveal_with_fuel(vstd::arithmetic::power::pow, 3);
    assert(vstd::arithmetic::power::pow(256, 2) == 65536);
    vstd::arithmetic::div_mod::lemma_small_mod(h as nat, 65536);
}

/// A state that fits its bytes reads back as the input's key.
pub proof fn lemma_state_roundtrip(p: PlayerInput, ds: u16, prev: u64)
    requires
        ds <= 3,
        delta_fits(p, ds),
    ensures
        ({
            let bs = pow2(ds as nat);
            let st = spec_prepare_state(p, bs as u8);
            let back = le_value(le_bytes(st as nat, bs)) as u64;
            &&& back == st
            &&& back >> 4u64 == p.delta
            &&& same_key(spec_input_from_state(prev, back), p)
            &&& le_bytes(st as nat, bs).len() == bs
        }),
{
    lemma2_to64();
    let bs = pow2(ds as nat);
    lemma_bytes_range(ds);
    let d = p.delta;
    let c = button_code(p.button);
    let q = bit(p.player2);
    let h = bit(p.holding);
    let full = state_bits(p);
    assert(c <= 3 && q <= 1 && h <= 1);
    let k = (8 * bs - 4) as nat;
    assert(k == 4 || k == 12 || k == 28 || k == 60);
    assert(pow2(12) == 0x1000 && pow2(28) == 0x1000_0000);
    assert(pow2(60) == 0x1000_0000_0000_0000) by {
        vstd::arithmetic::power2::lemma_pow2_adds(32, 28);
    }
    assert(d < 0x1000_0000_0000_0000);
    assert(full == d * 16 + c * 4 + q * 2 + h) by (bit_vector)
        requires
            full == (d << 4u64) | (c << 2u64) | (q << 1u64) | h,
            d < 0x1000_0000_0000_0000,
            c <= 3,
            q <= 1,
            h <= 1;
    assert(full >> 4u64 == d) by (bit_vector)
        requires
            full == (d << 4u64) | (c << 2u64) | (q << 1u64) | h,
            d < 0x1000_0000_0000_0000,
            c <= 3,
            q <= 1,
            h <= 1;
    assert((full >> 2u64) & 3 == c) by (bit_vector)
        requires
            full == (d << 4u64) | (c << 2u64) | (q << 1u64) | h,
            c <= 3,
            q <= 1,
            h <= 1;
    assert(full & 1 == h) by (bit_vector)
        requires
            full == (d << 4u64) | (c << 2u64) | (q << 1u64) | h,
            q <= 1,
            h <= 1;
    assert(full & 2 == q * 2) by (bit_vector)
        requires
            full == (d << 4u64) | (c << 2u64) | (q << 1u64) | h,
            q <= 1,
            h <= 1;
    assert((full as nat) < pow2(8 * bs)) by {
        assert(d * 16 + 15 < pow2(k) * 16);
        vstd::arithmetic::power2::lemma_pow2_adds(k, 4);
        assert(pow2(4) == 16);
    }
    let st = spec_prepare_state(p, bs as u8);
    if bs != 8 {
        vstd::arithmetic::div_mod::lemma_small_mod(full as nat, pow2(8 * bs));
    }
    assert(st == full);
    lemma_le_value_of_bytes(st as nat, bs);
    lemma_le_bytes_len(st as nat, bs);
    vstd::arithmetic::div_mod::lemma_small_mod(st as nat, pow2(8 * bs));
    assert(button_of_code(c) == p.button);
}


pub open spec fn items_count(items: Seq<Item>) -> nat
    decreases items.len(),
{
    if items.len() == 0 {
        0
    } else {
        (match items[0] {
            Item::State(p) => added_by(p),
            Item::Special(_) => 1,
        }) + items_count(items.drop_first())
    }
}

/// The sum of the deltas of `ps`.
pub open spec fn sum_deltas(ps: Seq<PlayerInput>) -> nat
    decreases ps.len(),
{
    if ps.len() == 0 {
        0
    } else {
        ps[0].delta as nat + sum_deltas(ps.drop_first())
    }
}

pub open spec fn states_of(ps: Seq<PlayerInput>) -> Seq<Item> {
    ps.map_values(|p: PlayerInput| Item::State(p))
}

#[verifier::spinoff_prover]
proof fn lemma_states_bytes_front(ps: Seq<PlayerInput>, bs: nat)
    requires
        ps.len() > 0,
    ensures
        states_bytes(ps, bs) == le_bytes(spec_prepare_state(ps[0], bs as u8) as nat, bs)
            + states_bytes(ps.drop_first(), bs),
    decreases ps.len(),
{
    if ps.len() == 1 {
        assert(ps.drop_last() =~= Seq::<PlayerInput>::empty());
        assert(ps.drop_first() =~= Seq::<PlayerInput>::empty());
        assert(states_bytes(ps.drop_last(), bs) == Seq::<u8>::empty());
        assert(states_bytes(ps.drop_first(), bs) == Seq::<u8>::empty());
        assert(ps.last() == ps[0]);
        assert(states_bytes(ps, bs) =~= le_bytes(spec_prepare_state(ps[0], bs as u8) as nat, bs));
    } else {
        let d = ps.drop_last();
        lemma_states_bytes_front(d, bs);
        assert(d.drop_first() =~= ps.drop_first().drop_last());
        assert(d[0] == ps[0]);
        assert(ps.drop_first().last() == ps.last());
        assert(states_bytes(ps, bs) =~= le_bytes(spec_prepare_state(ps[0], bs as u8) as nat, bs)
            + states_bytes(ps.drop_first(), bs));
    }
}

proof fn lemma_states_bytes_len(ps: Seq<PlayerInput>, bs: nat)
    ensures
        states_bytes(ps, bs).len() == ps.len() * bs,
    decreases ps.len(),
{
    if ps.len() == 0 {
        assert(ps.len() * bs == 0) by (nonlinear_arith)
            requires ps.len() == 0;
    } else {
        lemma_states_bytes_len(ps.drop_last(), bs);
        lemma_le_bytes_len(spec_prepare_state(ps.last(), bs as u8) as nat, bs);
        assert((ps.len() - 1) * bs + bs == ps.len() * bs) by (nonlinear_arith);
    }
}

proof fn lemma_push_input_key(actions: Seq<Action>, p: PlayerInput, q: PlayerInput)
    requires
        same_key(p, q),
    ensures
        push_input(actions, p) == push_input(actions, q),
        added_by(p) == added_by(q),
{
}

/// Decoding `items` adds exactly the actions that they count.
pub proof fn lemma_push_items_len(actions: Seq<Action>, items: Seq<Item>)
    requires
        push_items(actions, items) is Some,
    ensures
        push_items(actions, items).unwrap().len() == actions.len() + items_count(items),
    decreases items.len(),
{
    if items.len() > 0 {
        let a = push_item(actions, items[0]).unwrap();
        lemma_push_items_len(a, items.drop_first());
    }
}

pub proof fn lemma_items_count_concat(x: Seq<Item>, y: Seq<Item>)
    ensures
        items_count(x + y) == items_count(x) + items_count(y),
    decreases x.len(),
{
    if x.len() == 0 {
        assert(x + y =~= y);
    } else {
        assert((x + y)[0] == x[0]);
        assert((x + y).drop_first() =~= x.drop_first() + y);
        lemma_items_count_concat(x.drop_first(), y);
    }
}

proof fn lemma_states_of_concat(x: Seq<PlayerInput>, y: Seq<PlayerInput>)
    ensures
        states_of(x + y) == states_of(x) + states_of(y),
{
    assert(states_of(x + y) =~= states_of(x) + states_of(y));
}

proof fn lemma_block_count_items(b: Seq<PlayerInput>)
    ensures
        block_count(b) == items_count(states_of(b)),
    decreases b.len(),
{
    if b.len() > 0 {
        let d = b.drop_last();
        lemma_block_count_items(d);
        assert(b =~= d + seq![b.last()]);
        lemma_states_of_concat(d, seq![b.last()]);
        lemma_items_count_concat(states_of(d), states_of(seq![b.last()]));
        let x = states_of(seq![b.last()]);
        assert(x.len() == 1);
        assert(x.drop_first() =~= Seq::<Item>::empty());
        assert(items_count(x.drop_first()) == 0);
        assert(x[0] == Item::State(b.last()));
        assert(items_count(x) == added_by(b.last()));
    }
}

proof fn lemma_push_states_frames(actions: Seq<Action>, ps: Seq<PlayerInput>)
    requires
        push_items(actions, states_of(ps)) is Some,
    ensures
        prev_frame(actions) + sum_deltas(ps) <= u64::MAX,
        prev_frame(push_items(actions, states_of(ps)).unwrap()) == prev_frame(actions) + sum_deltas(ps),
    decreases ps.len(),
{
    if ps.len() > 0 {
        let it = states_of(ps)[0];
        assert(it == Item::State(ps[0]));
        let a = push_input(actions, ps[0]);
        assert(states_of(ps).drop_first() =~= states_of(ps.drop_first()));
        lemma_push_states_frames(a, ps.drop_first());
    }
}

proof fn lemma_read_input_states(
    data: Seq<u8>,
    pos: int,
    ps: Seq<PlayerInput>,
    ds: u16,
    actions: Seq<Action>,
    max: nat,
)
    requires
        ds <= 3,
        0 <= pos,
        pos + states_bytes(ps, pow2(ds as nat)).len() <= data.len(),
        data.subrange(pos, pos + states_bytes(ps, pow2(ds as nat)).len()) == states_bytes(
            ps,
            pow2(ds as nat),
        ),
        forall|j: int| 0 <= j < ps.len() ==> delta_fits(#[trigger] ps[j], ds),
        push_items(actions, states_of(ps)) is Some,
        push_items(actions, states_of(ps)).unwrap().len() <= max,
    ensures
        read_input_states(data, pos, ps.len(), pow2(ds as nat), actions, max) == Ok::<
            (Seq<Action>, int),
            SectionError,
        >((push_items(actions, states_of(ps)).unwrap(), pos + states_bytes(ps, pow2(ds as nat)).len())),
    decreases ps.len(),
{
    let bs = pow2(ds as nat);
    if ps.len() > 0 {
        let p = ps[0];
        lemma_states_bytes_front(ps, bs);
        lemma_state_roundtrip(p, ds, prev_frame(actions));
        let st = spec_prepare_state(p, bs as u8);
        let first = le_bytes(st as nat, bs);
        let rest = ps.drop_first();
        let restb0 = states_bytes(rest, bs);
        let whole0 = data.subrange(pos, pos + states_bytes(ps, bs).len());
        assert(whole0 =~= first + restb0);
        assert(data.subrange(pos, pos + bs) =~= whole0.subrange(0, bs as int));
        assert(data.subrange(pos, pos + bs) =~= first);
        let state = le_value(data.subrange(pos, pos + bs)) as u64;
        assert(state == st);
        assert(states_of(ps)[0] == Item::State(p));
        assert(states_of(ps).drop_first() =~= states_of(rest));
        let p2 = spec_input_from_state(prev_frame(actions), state);
        lemma_push_input_key(actions, p2, p);
        let a = push_input(actions, p);
        lemma_push_items_grows(a, states_of(rest));
        assert(a.len() == actions.len() + added_by(p));
        assert forall|j: int| 0 <= j < rest.len() implies delta_fits(#[trigger] rest[j], ds) by {
            assert(rest[j] == ps[j + 1]);
        }
        let restb = states_bytes(rest, bs);
        let whole = data.subrange(pos, pos + states_bytes(ps, bs).len());
        assert(whole =~= first + restb);
        assert(data.subrange(pos + bs, pos + bs + restb.len()) =~= whole.subrange(bs as int, whole.len() as int));
        assert(whole.subrange(bs as int, whole.len() as int) =~= restb);
        assert(data.subrange(pos, pos + bs) =~= whole.subrange(0, bs as int));
        lemma_read_input_states(data, pos + bs, rest, ds, a, max);
    }
}

proof fn lemma_read_block(
    data: Seq<u8>,
    pos: int,
    ps: Seq<PlayerInput>,
    ds: u16,
    prev: u64,
    acc: Seq<PlayerInput>,
)
    requires
        ds <= 3,
        0 <= pos,
        pos + states_bytes(ps, pow2(ds as nat)).len() <= data.len(),
        data.subrange(pos, pos + states_bytes(ps, pow2(ds as nat)).len()) == states_bytes(
            ps,
            pow2(ds as nat),
        ),
        forall|j: int| 0 <= j < ps.len() ==> delta_fits(#[trigger] ps[j], ds),
        prev + sum_deltas(ps) <= u64::MAX,
    ensures
        read_block(data, pos, ps.len(), pow2(ds as nat), prev, acc) matches Ok((b, q)) && q == pos
            + states_bytes(ps, pow2(ds as nat)).len() && b.len() == acc.len() + ps.len()
            && b.subrange(0, acc.len() as int) == acc && keys_equal(
            b.subrange(acc.len() as int, b.len() as int),
            ps,
        ),
    decreases ps.len(),
{
    let bs = pow2(ds as nat);
    if ps.len() == 0 {
        assert(acc.subrange(0, acc.len() as int) =~= acc);
        assert(acc.subrange(acc.len() as int, acc.len() as int) =~= ps);
    } else {
        let p = ps[0];
        lemma_states_bytes_front(ps, bs);
        lemma_state_roundtrip(p, ds, prev);
        let st = spec_prepare_state(p, bs as u8);
        let first = le_bytes(st as nat, bs);
        let rest = ps.drop_first();
        let restb0 = states_bytes(rest, bs);
        let whole0 = data.subrange(pos, pos + states_bytes(ps, bs).len());
        assert(whole0 =~= first + restb0);
        assert(data.subrange(pos, pos + bs) =~= whole0.subrange(0, bs as int));
        assert(data.subrange(pos, pos + bs) =~= first);
        let state = le_value(data.subrange(pos, pos + bs)) as u64;
        assert(state == st);
        let p2 = spec_input_from_state(prev, state);
        assert forall|j: int| 0 <= j < rest.len() implies delta_fits(#[trigger] rest[j], ds) by {
            assert(rest[j] == ps[j + 1]);
        }
        let restb = states_bytes(rest, bs);
        let whole = data.subrange(pos, pos + states_bytes(ps, bs).len());
        assert(whole =~= first + restb);
        assert(data.subrange(pos + bs, pos + bs + restb.len()) =~= whole.subrange(bs as int, whole.len() as int));
        assert(whole.subrange(bs as int, whole.len() as int) =~= restb);
        assert(data.subrange(pos, pos + bs) =~= whole.subrange(0, bs as int));
        lemma_read_block(data, pos + bs, rest, ds, p2.frame, acc.push(p2));
        let (b, q) = read_block(data, pos + bs, rest.len(), bs, p2.frame, acc.push(p2)).unwrap();
        assert(b.subrange(0, acc.len() as int) =~= acc.push(p2).subrange(0, acc.len() as int));
        assert forall|i: int| 0 <= i < ps.len() implies #[trigger] same_key(
            b.subrange(acc.len() as int, b.len() as int)[i],
            ps[i],
        ) by {
            if i == 0 {
                assert(b[acc.len() as int] == acc.push(p2).subrange(0, acc.len() as int + 1)[acc.len() as int]);
            } else {
                assert(same_key(b.subrange(acc.len() as int + 1, b.len() as int)[i - 1], rest[i - 1]));
            }
        }
    }
}

proof fn lemma_push_inputs_items(actions: Seq<Action>, b: Seq<PlayerInput>)
    ensures
        push_inputs(actions, b) == match push_items(actions, states_of(b)) {
            Some(x) => Ok::<Seq<Action>, SectionError>(x),
            None => Err(SectionError::FrameOverflow),
        },
    decreases b.len(),
{
    if b.len() > 0 {
        assert(states_of(b)[0] == Item::State(b[0]));
        assert(states_of(b).drop_first() =~= states_of(b.drop_first()));
        lemma_push_inputs_items(push_input(actions, b[0]), b.drop_first());
    }
}

proof fn lemma_repeat_seq_front(b: Seq<PlayerInput>, r: nat)
    requires
        r >= 1,
    ensures
        repeat_seq(b, r) == b + repeat_seq(b, (r - 1) as nat),
    decreases r,
{
    if r == 1 {
        assert(repeat_seq(b, 0) =~= Seq::<PlayerInput>::empty());
        assert(repeat_seq(b, 1) =~= b + repeat_seq(b, 0));
    } else {
        lemma_repeat_seq_front(b, (r - 1) as nat);
        assert(repeat_seq(b, r) =~= b + repeat_seq(b, (r - 1) as nat));
    }
}

proof fn lemma_push_repeats_items(actions: Seq<Action>, b: Seq<PlayerInput>, r: nat)
    ensures
        push_repeats(actions, b, r) == match push_items(actions, states_of(repeat_seq(b, r))) {
            Some(x) => Ok::<Seq<Action>, SectionError>(x),
            None => Err(SectionError::FrameOverflow),
        },
    decreases r,
{
    if r == 0 {
        assert(states_of(repeat_seq(b, 0)) =~= Seq::<Item>::empty());
    } else {
        lemma_repeat_seq_front(b, r);
        lemma_states_of_concat(b, repeat_seq(b, (r - 1) as nat));
        lemma_push_items_concat(actions, states_of(b), states_of(repeat_seq(b, (r - 1) as nat)));
        lemma_push_inputs_items(actions, b);
        if let Some(a) = push_items(actions, states_of(b)) {
            lemma_push_repeats_items(a, b, (r - 1) as nat);
        }
    }
}

proof fn lemma_block_count_keys(a: Seq<PlayerInput>, b: Seq<PlayerInput>)
    requires
        keys_equal(a, b),
    ensures
        block_count(a) == block_count(b),
    decreases a.len(),
{
    if a.len() > 0 {
        assert(keys_equal(a.drop_last(), b.drop_last())) by {
            assert forall|i: int| 0 <= i < a.drop_last().len() implies #[trigger] same_key(
                a.drop_last()[i],
                b.drop_last()[i],
            ) by {
                assert(same_key(a[i], b[i]));
            }
        }
        lemma_block_count_keys(a.drop_last(), b.drop_last());
        assert(same_key(a[a.len() - 1], b[b.len() - 1]));
    }
}

proof fn lemma_states_of_keys(a: Seq<PlayerInput>, b: Seq<PlayerInput>)
    requires
        keys_equal(a, b),
    ensures
        items_match(states_of(a), states_of(b)),
{
    assert forall|i: int| 0 <= i < a.len() implies #[trigger] item_match(
        states_of(a)[i],
        states_of(b)[i],
    ) by {
        assert(same_key(a[i], b[i]));
    }
}

proof fn lemma_repeat_count(b: Seq<PlayerInput>, r: nat)
    ensures
        items_count(states_of(repeat_seq(b, r))) == block_count(b) * r,
    decreases r,
{
    if r == 0 {
        assert(states_of(repeat_seq(b, 0)) =~= Seq::<Item>::empty());
        assert(block_count(b) * r == 0) by (nonlinear_arith)
            requires r == 0;
    } else {
        lemma_repeat_count(b, (r - 1) as nat);
        lemma_states_of_concat(repeat_seq(b, (r - 1) as nat), b);
        lemma_items_count_concat(states_of(repeat_seq(b, (r - 1) as nat)), states_of(b));
        lemma_block_count_items(b);
        assert(block_count(b) * (r - 1) + block_count(b) == block_count(b) * r) by (nonlinear_arith);
    }
}


proof fn lemma_repeat_keys(a: Seq<PlayerInput>, b: Seq<PlayerInput>, r: nat)
    requires
        keys_equal(a, b),
    ensures
        keys_equal(repeat_seq(a, r), repeat_seq(b, r)),
    decreases r,
{
    if r > 0 {
        lemma_repeat_keys(a, b, (r - 1) as nat);
        lemma_keys_equal_concat(repeat_seq(a, (r - 1) as nat), a, repeat_seq(b, (r - 1) as nat), b);
    }
}

/// A section that fits reads back as its items, decoded behind `actions`,
/// wherever its bytes stand, as long as the action limit leaves room.
pub proof fn lemma_read_written_section(
    s: Section,
    data: Seq<u8>,
    pos: int,
    actions: Seq<Action>,
    max: nat,
)
    requires
        section_fits(s),
        0 <= pos,
        pos + s.spec_bytes().len() <= data.len(),
        data.subrange(pos, pos + s.spec_bytes().len()) == s.spec_bytes(),
        push_items(actions, section_items(s)) is Some,
        push_items(actions, section_items(s)).unwrap().len() <= max,
    ensures
        spec_read_section(data, pos, actions, max) == Ok::<(Seq<Action>, int), SectionError>(
            (push_items(actions, section_items(s)).unwrap(), pos + s.spec_bytes().len()),
        ),
        s.spec_bytes().len() >= 2,
        items_count(section_items(s)) >= 1,
{
    lemma2_to64();
    let ds = s.delta_size;
    let bs = pow2(ds as nat);
    let bytes = s.spec_bytes();
    let res = push_items(actions, section_items(s)).unwrap();
    lemma_bytes_range(ds);
    lemma_push_items_len(actions, section_items(s));
    if s.id is Special {
        let a = s.special.unwrap();
        let code = special_code(s.special_type);
        let h = special_header(s.special_type, ds);
        lemma_special_header(code, ds);
        lemma_read_u16(h);
        let hb = le_bytes(h as nat, 2);
        let db = le_bytes(a.delta as nat, bs);
        lemma_le_bytes_len(a.delta as nat, bs);
        let payload = match s.special_type {
            SpecialType::TPS => le_bytes(s.tps_bits as nat, 8),
            SpecialType::Bugpoint => Seq::<u8>::empty(),
            _ => le_bytes(s.seed as nat, 8),
        };
        assert(bytes == hb + db + payload);
        let whole = data.subrange(pos, pos + bytes.len());
        assert(data.subrange(pos, pos + 2) =~= whole.subrange(0, 2));
        assert(whole.subrange(0, 2) =~= hb);
        assert(data.subrange(pos + 2, pos + 2 + bs) =~= whole.subrange(2, 2 + bs as int));
        assert(whole.subrange(2, 2 + bs as int) =~= db);
        lemma_le_value_of_bytes(a.delta as nat, bs);
        vstd::arithmetic::div_mod::lemma_small_mod(a.delta as nat, pow2(8 * bs));
        let items = section_items(s);
        assert(items == seq![Item::Special(a)]);
        assert(items.drop_first() =~= Seq::<Item>::empty());
        assert(items_count(items.drop_first()) == 0);
        let cur = prev_frame(actions);
        assert(push_item(actions, items[0]) is Some);
        let a1 = actions.push(decode_special(cur, a));
        assert(push_items(a1, items.drop_first()) == Some(a1));
        assert(res == a1);
        let q = pos + 2 + bs;
        if s.special_type != SpecialType::Bugpoint {
            lemma_le_bytes_len(if s.special_type is TPS { s.tps_bits as nat } else { s.seed as nat }, 8);
            assert(data.subrange(q, q + 8) =~= whole.subrange(2 + bs as int, 10 + bs as int));
            assert(whole.subrange(2 + bs as int, 10 + bs as int) =~= payload);
            reveal_with_fuel(vstd::arithmetic::power::pow, 9);
            assert(pow2(64) == vstd::arithmetic::power::pow(256, 8));
            if s.special_type is TPS {
                lemma_le_value_of_bytes(s.tps_bits as nat, 8);
                vstd::arithmetic::div_mod::lemma_small_mod(s.tps_bits as nat, pow2(64));
            } else {
                lemma_le_value_of_bytes(s.seed as nat, 8);
                vstd::arithmetic::div_mod::lemma_small_mod(s.seed as nat, pow2(64));
            }
        } else {
            assert(bytes.len() == 2 + bs);
        }
    } else {
        let inputs = s.player_inputs@;
        let ce = s.count_exp;
        let re = s.repeats_exp;
        let sb = states_bytes(inputs, bs);
        let h = if s.id is Input {
            input_header(ce, ds)
        } else {
            repeat_header(ce, re, ds)
        };
        if s.id is Input {
            lemma_input_header(ce, ds);
        } else {
            lemma_repeat_header(ce, re, ds);
        }
        lemma_read_u16(h);
        let hb = le_bytes(h as nat, 2);
        assert(bytes == hb + sb);
        let whole = data.subrange(pos, pos + bytes.len());
        assert(data.subrange(pos, pos + 2) =~= whole.subrange(0, 2));
        assert(whole.subrange(0, 2) =~= hb);
        assert(data.subrange(pos + 2, pos + 2 + sb.len()) =~= whole.subrange(2, whole.len() as int));
        assert(whole.subrange(2, whole.len() as int) =~= sb);
        assert(inputs.len() == pow2(ce as nat));
        lemma_pow2_pos(ce as nat);
        assert(forall|j: int| 0 <= j < inputs.len() ==> delta_fits(#[trigger] inputs[j], ds));
        lemma_states_bytes_len(inputs, bs);
        if s.id is Input {
            assert(section_items(s) == states_of(inputs));
            lemma_read_input_states(data, pos + 2, inputs, ds, actions, max);
            assert(items_count(states_of(inputs)) >= 1) by {
                assert(states_of(inputs)[0] == Item::State(inputs[0]));
            }
        } else {
            let r = pow2(re as nat);
            lemma_pow2_pos(re as nat);
            assert(section_items(s) == states_of(repeat_seq(inputs, r)));
            lemma_repeat_seq_front(inputs, r);
            lemma_states_of_concat(inputs, repeat_seq(inputs, (r - 1) as nat));
            lemma_push_items_concat(actions, states_of(inputs), states_of(repeat_seq(inputs, (r - 1) as nat)));
            lemma_push_states_frames(actions, inputs);
            lemma_read_block(data, pos + 2, inputs, ds, 0, Seq::empty());
            let (b, q) = read_block(data, pos + 2, inputs.len(), bs, 0, Seq::empty()).unwrap();
            assert(b.subrange(0, b.len() as int) =~= b);
            lemma_block_count_keys(b, inputs);
            lemma_repeat_count(inputs, r);
            lemma_repeat_keys(b, inputs, r);
            lemma_states_of_keys(repeat_seq(b, r), repeat_seq(inputs, r));
            lemma_push_items_match(actions, states_of(repeat_seq(b, r)), states_of(repeat_seq(inputs, r)));
            lemma_push_repeats_items(actions, b, r);
            lemma_block_count_items(inputs);
            assert(items_count(states_of(inputs)) >= 1) by {
                assert(states_of(inputs)[0] == Item::State(inputs[0]));
            }
            assert(block_count(inputs) * r >= 1) by (nonlinear_arith)
                requires block_count(inputs) >= 1, r >= 1;
        }
    }
}


proof fn lemma_read_input_states_bounds(
    data: Seq<u8>,
    pos: int,
    k: nat,
    byte_size: nat,
    actions: Seq<Action>,
    max: nat,
)
    requires
        pos <= data.len(),
    ensures
        read_input_states(data, pos, k, byte_size, actions, max) matches Ok((_, q)) ==> pos <= q
            <= data.len(),
    decreases k,
{
    if k > 0 && pos + byte_size <= data.len() {
        let state = le_value(data.subrange(pos, pos + byte_size)) as u64;
        let p = spec_input_from_state(prev_frame(actions), state);
        lemma_read_input_states_bounds(
            data,
            pos + byte_size,
            (k - 1) as nat,
            byte_size,
            push_input(actions, p),
            max,
        );
    }
}

proof fn lemma_read_block_bounds(
    data: Seq<u8>,
    pos: int,
    k: nat,
    byte_size: nat,
    prev: u64,
    block: Seq<PlayerInput>,
)
    requires
        pos <= data.len(),
    ensures
        read_block(data, pos, k, byte_size, prev, block) matches Ok((_, q)) ==> pos <= q <= data.len(),
    decreases k,
{
    if k > 0 && pos + byte_size <= data.len() {
        let state = le_value(data.subrange(pos, pos + byte_size)) as u64;
        let p = spec_input_from_state(prev, state);
        lemma_read_block_bounds(data, pos + byte_size, (k - 1) as nat, byte_size, p.frame, block.push(p));
    }
}

/// A section that reads ends after its two header bytes and within the data.
pub proof fn lemma_read_section_advances(data: Seq<u8>, pos: int, actions: Seq<Action>, max: nat)
    requires
        0 <= pos,
    ensures
        spec_read_section(data, pos, actions, max) matches Ok((_, q)) ==> pos + 2 <= q <= data.len(),
{
    if pos + 2 <= data.len() {
        let h = le_value(data.subrange(pos, pos + 2)) as u16;
        let byte_size = pow2(((h >> 12u16) & 3u16) as nat);
        let length = pow2(((h >> 8u16) & 15u16) as nat);
        lemma_read_input_states_bounds(data, pos + 2, length, byte_size, actions, max);
        lemma_read_block_bounds(data, pos + 2, length, byte_size, 0, Seq::empty());
    }
}

/// The bytes of a sequence of sections, in order.
pub open spec fn sections_bytes(ss: Seq<Section>) -> Seq<u8>
    decreases ss.len(),
{
    if ss.len() == 0 {
        Seq::empty()
    } else {
        ss[0].spec_bytes() + sections_bytes(ss.drop_first())
    }
}

pub proof fn lemma_sections_bytes_concat(x: Seq<Section>, y: Seq<Section>)
    ensures
        sections_bytes(x + y) == sections_bytes(x) + sections_bytes(y),
    decreases x.len(),
{
    if x.len() == 0 {
        assert(x + y =~= y);
        assert(sections_bytes(x) + sections_bytes(y) =~= sections_bytes(y));
    } else {
        assert((x + y)[0] == x[0]);
        assert((x + y).drop_first() =~= x.drop_first() + y);
        lemma_sections_bytes_concat(x.drop_first(), y);
        assert(sections_bytes(x + y) =~= sections_bytes(x) + sections_bytes(y));
    }
}

/// Writes the sections in order.
pub fn write_sections(out: &mut Vec<u8>, sections: &Vec<Section>)
    requires
        forall|k: int|
            0 <= k < sections@.len() ==> !(#[trigger] sections@[k]).marked_for_removal
                ==> sections@[k].writable(),
    ensures
        final(out)@ == old(out)@ + sections_bytes(sections@),
{
    let mut i: usize = 0;
    proof {
        assert(sections_bytes(sections@.subrange(0, 0)) =~= Seq::<u8>::empty());
        assert(old(out)@ + Seq::<u8>::empty() =~= old(out)@);
    }
    while i < sections.len()
        invariant
            i <= sections@.len(),
            forall|k: int|
                0 <= k < sections@.len() ==> !(#[trigger] sections@[k]).marked_for_removal
                    ==> sections@[k].writable(),
            out@ == old(out)@ + sections_bytes(sections@.subrange(0, i as int)),
        decreases sections@.len() - i,
    {
        sections[i].write(out);
        proof {
            let one = seq![sections@[i as int]];
            lemma_sections_bytes_concat(sections@.subrange(0, i as int), one);
            assert(sections@.subrange(0, i as int) + one =~= sections@.subrange(0, i + 1));
            assert(one.drop_first() =~= Seq::<Section>::empty());
            assert(sections_bytes(one.drop_first()) == Seq::<u8>::empty());
            assert(one[0] == sections@[i as int]);
            assert(sections_bytes(one) =~= sections@[i as int].spec_bytes());
        }
        i = i + 1;
    }
    proof {
        assert(sections@.subrange(0, i as int) =~= sections@);
    }
}



/// Every item stands for at least one action.
proof fn lemma_items_count_ge_len(items: Seq<Item>)
    ensures
        items_count(items) >= items.len(),
    decreases items.len(),
{
    if items.len() > 0 {
        lemma_items_count_ge_len(items.drop_first());
    }
}

/// A section that fits takes at most 18 bytes for each action that it
/// stands for.
pub proof fn lemma_section_bytes_bound(s: Section)
    requires
        section_fits(s),
    ensures
        s.spec_bytes().len() <= 18 * items_count(section_items(s)),
{
    let ds = s.delta_size;
    lemma_bytes_range(ds);
    lemma_pow2_pos(ds as nat);
    let bs = pow2(ds as nat);
    if s.id is Special {
        let a = s.special.unwrap();
        let items = section_items(s);
        assert(items.drop_first() =~= Seq::<Item>::empty());
        assert(items[0] == Item::Special(a));
        assert(items_count(Seq::<Item>::empty()) == 0);
        assert(items_count(items) == 1);
        lemma_le_bytes_len(special_header(s.special_type, ds) as nat, 2);
        lemma_le_bytes_len(a.delta as nat, bs);
        lemma_le_bytes_len(s.tps_bits as nat, 8);
        lemma_le_bytes_len(s.seed as nat, 8);
    } else {
        let ps = s.player_inputs@;
        let l = ps.len();
        lemma_pow2_pos(s.count_exp as nat);
        assert(l >= 1);
        lemma_states_bytes_len(ps, bs);
        assert(l * bs <= 8 * l) by (nonlinear_arith)
            requires
                bs <= 8,
        ;
        lemma_le_bytes_len(input_header(s.count_exp, ds) as nat, 2);
        lemma_le_bytes_len(repeat_header(s.count_exp, s.repeats_exp, ds) as nat, 2);
        let e = s.spec_expand();
        if s.id is Repeat {
            let r = pow2(s.repeats_exp as nat);
            lemma_pow2_pos(s.repeats_exp as nat);
            lemma_repeat_seq_len(ps, r);
            assert(r * l >= l) by (nonlinear_arith)
                requires
                    r >= 1,
            ;
        }
        assert(e.len() >= l);
        lemma_items_count_ge_len(section_items(s));
    }
}

/// Sections that fit take at most 18 bytes for each action that they
/// stand for.
pub proof fn lemma_sections_bytes_bound(ss: Seq<Section>)
    requires
        forall|k: int| 0 <= k < ss.len() ==> section_fits(#[trigger] ss[k]),
    ensures
        sections_bytes(ss).len() <= 18 * items_count(sections_items(ss)),
    decreases ss.len(),
{
    if ss.len() > 0 {
        let s0 = ss[0];
        let rest = ss.drop_first();
        assert(ss =~= seq![s0] + rest);
        lemma_sections_items_concat(seq![s0], rest);
        assert(seq![s0].drop_last() =~= Seq::<Section>::empty());
        assert(seq![s0].last() == s0);
        assert(sections_items(Seq::<Section>::empty()) =~= Seq::<Item>::empty());
        assert(sections_items(seq![s0]) =~= section_items(s0));
        lemma_items_count_concat(section_items(s0), sections_items(rest));
        assert forall|k: int| 0 <= k < rest.len() implies section_fits(#[trigger] rest[k]) by {
            assert(rest[k] == ss[k + 1]);
        }
        lemma_sections_bytes_bound(rest);
        lemma_section_bytes_bound(s0);
    }
}

/// The bytes of a section that holds `v`, as `Section::spec_bytes` gives them.
pub open spec fn view_bytes(v: SectionView) -> Seq<u8> {
    let byte_size = pow2(v.delta_size as nat);
    if v.marked_for_removal {
        Seq::empty()
    } else {
        match v.id {
            SectionIdentifier::Input => le_bytes(input_header(v.count_exp, v.delta_size) as nat, 2)
                + states_bytes(v.inputs, byte_size),
            SectionIdentifier::Repeat => le_bytes(
                repeat_header(v.count_exp, v.repeats_exp, v.delta_size) as nat,
                2,
            ) + states_bytes(v.inputs, byte_size),
            SectionIdentifier::Special => le_bytes(
                special_header(v.special_type, v.delta_size) as nat,
                2,
            ) + le_bytes(v.special.unwrap().delta as nat, byte_size) + match v.special_type {
                SpecialType::TPS => le_bytes(v.tps_bits as nat, 8),
                SpecialType::Bugpoint => Seq::empty(),
                _ => le_bytes(v.seed as nat, 8),
            },
        }
    }
}

/// The bytes of sections that hold `vs`, in order.
pub open spec fn views_bytes(vs: Seq<SectionView>) -> Seq<u8>
    decreases vs.len(),
{
    if vs.len() == 0 {
        Seq::empty()
    } else {
        view_bytes(vs[0]) + views_bytes(vs.drop_first())
    }
}

/// The bytes of sections are those of what they hold.
pub proof fn lemma_views_bytes(ss: Seq<Section>)
    ensures
        sections_bytes(ss) == views_bytes(views(ss)),
    decreases ss.len(),
{
    if ss.len() > 0 {
        lemma_views_bytes(ss.drop_first());
        assert(views(ss).drop_first() =~= views(ss.drop_first()));
        assert(views(ss)[0] == ss[0]@);
        assert(ss[0].spec_bytes() == view_bytes(ss[0]@));
    }
}

/// The header of a special section: identifier 2 in the top two bits, the
/// type code in bits 10 to 13 (0 restart, 1 full restart, 2 death, 3 tick
/// rate, 4 bugpoint) and the delta size in bits 8 and 9.
pub proof fn lemma_special_header_bits(t: SpecialType, d: u16)
    requires
        d <= 3,
    ensures
        ({
            let h = special_header(t, d);
            &&& h >> 14u16 == 2
            &&& (h >> 8u16) & 3u16 == d
            &&& t is Restart ==> (h >> 10u16) & 15u16 == 0
            &&& t is RestartFull ==> (h >> 10u16) & 15u16 == 1
            &&& t is Death ==> (h >> 10u16) & 15u16 == 2
            &&& t is TPS ==> (h >> 10u16) & 15u16 == 3
            &&& t is Bugpoint ==> (h >> 10u16) & 15u16 == 4
        }),
{
    let c = special_code(t);
    assert(c <= 4);
    let h = special_header(t, d);
    assert(h == (2u16 << 14u16) | (c << 10u16) | (d << 8u16));
    assert(((2u16 << 14u16) | (c << 10u16) | (d << 8u16)) >> 14u16 == 2 && (((2u16 << 14u16) | (c
        << 10u16) | (d << 8u16)) >> 8u16) & 3u16 == d && (((2u16 << 14u16) | (c << 10u16) | (d
        << 8u16)) >> 10u16) & 15u16 == c) by (bit_vector)
        requires
            c <= 4,
            d <= 3,
    ;
}

/// A written special section opens with the header of its type: its first
/// two bytes, read as a little-endian number, carry identifier 2 and the
/// type code (0 restart, 1 full restart, 2 death, 3 tick rate, 4 bugpoint).
pub proof fn lemma_special_section_header(s: Section)
    requires
        !s.marked_for_removal,
        s.id is Special,
        s.delta_size <= 3,
    ensures
        ({
            let b = s.spec_bytes();
            let h = le_value(b.subrange(0, 2)) as u16;
            &&& b.len() >= 2
            &&& h >> 14u16 == 2
            &&& s.special_type is Restart ==> (h >> 10u16) & 15u16 == 0
            &&& s.special_type is RestartFull ==> (h >> 10u16) & 15u16 == 1
            &&& s.special_type is Death ==> (h >> 10u16) & 15u16 == 2
            &&& s.special_type is TPS ==> (h >> 10u16) & 15u16 == 3
            &&& s.special_type is Bugpoint ==> (h >> 10u16) & 15u16 == 4
        }),
{
    let h = special_header(s.special_type, s.delta_size);
    lemma_special_header_bits(s.special_type, s.delta_size);
    crate::bytes::lemma_pow256_values();
    crate::bytes::lemma_le_round_trip(h as nat, 2);
    let b = s.spec_bytes();
    assert(b.subrange(0, 2) =~= le_bytes(h as nat, 2));
}

/// A special section read behind `actions` appends one action, of the type
/// its header's code names: 0 a restart, 1 a full restart and 2 a death,
/// each with the seed of the eight bytes after the delta; 3 a tick-rate
/// change to the rate those bytes hold; 4 a bugpoint. The action comes the
/// delta after the last one.
pub proof fn lemma_special_section_codes(data: Seq<u8>, pos: int, actions: Seq<Action>, max: nat)
    requires
        0 <= pos,
        pos + 2 <= data.len(),
        (le_value(data.subrange(pos, pos + 2)) as u16) >> 14u16 == 2,
        spec_read_section(data, pos, actions, max) is Ok,
    ensures
        ({
            let h = le_value(data.subrange(pos, pos + 2)) as u16;
            let code = (h >> 10u16) & 15u16;
            let bs = pow2(((h >> 8u16) & 3u16) as nat);
            let delta = le_value(data.subrange(pos + 2, pos + 2 + bs));
            let value = le_value(data.subrange(pos + 2 + bs, pos + 10 + bs)) as u64;
            let out = spec_read_section(data, pos, actions, max)->Ok_0.0;
            let a = out.last();
            &&& out.len() == actions.len() + 1
            &&& out.subrange(0, actions.len() as int) == actions
            &&& a.frame == prev_frame(actions) + delta
            &&& code <= 4
            &&& code == 0 ==> a.action_type is Restart && a.seed == value
            &&& code == 1 ==> a.action_type is RestartFull && a.seed == value
            &&& code == 2 ==> a.action_type is Death && a.seed == value
            &&& code == 3 ==> a.action_type is TPS && a.tps_bits == value
            &&& code == 4 ==> a.action_type is Bugpoint
        }),
{
    let h = le_value(data.subrange(pos, pos + 2)) as u16;
    assert(spec_read_section(data, pos, actions, max) == read_special(data, pos + 2, h, actions, max));
    let code = (h >> 10u16) & 15u16;
    let bs = pow2(((h >> 8u16) & 3u16) as nat);
    assert((h >> 8u16) & 3u16 <= 3) by (bit_vector);
    lemma2_to64();
    assert(bs <= 8);
    let dbytes = data.subrange(pos + 2, pos + 2 + bs);
    lemma_le_value_bound(dbytes);
    crate::bytes::lemma_pow256_values();
    assert(vstd::arithmetic::power::pow(256, bs) <= 0x1_0000_0000_0000_0000) by {
        if bs == 1 {
        } else if bs == 2 {
        } else if bs == 4 {
        } else {
            assert(bs == 8);
        }
    }
    let out = spec_read_section(data, pos, actions, max)->Ok_0.0;
    assert(out.subrange(0, actions.len() as int) =~= actions);
}

/// The state of a player input holds its hold in bit 0, its player 2 in
/// bit 1, its button in bits 2 and 3 (0 swift, 1 jump, 2 left, 3 right)
/// and its delta above them.
pub proof fn lemma_state_bits_fields(p: PlayerInput)
    ensures
        ({
            let s = state_bits(p);
            &&& (s & 1u64 == 1) == p.holding
            &&& (s & 2u64 == 2) == p.player2
            &&& p.button is Swift ==> (s >> 2u64) & 3u64 == 0
            &&& p.button is Jump ==> (s >> 2u64) & 3u64 == 1
            &&& p.button is Left ==> (s >> 2u64) & 3u64 == 2
            &&& p.button is Right ==> (s >> 2u64) & 3u64 == 3
            &&& p.delta < 0x1000_0000_0000_0000 ==> s >> 4u64 == p.delta
        }),
{
    let d = p.delta;
    let b = button_code(p.button);
    let p2 = bit(p.player2);
    let h = bit(p.holding);
    assert(b <= 3 && p2 <= 1 && h <= 1);
    assert((h == 1) == p.holding && (p2 == 1) == p.player2);
    assert(((d << 4u64) | (b << 2u64) | (p2 << 1u64) | h) & 1u64 == h && ((d << 4u64) | (b << 2u64)
        | (p2 << 1u64) | h) & 2u64 == p2 << 1u64 && (((d << 4u64) | (b << 2u64) | (p2 << 1u64) | h)
        >> 2u64) & 3u64 == b && (d < 0x1000_0000_0000_0000 ==> ((d << 4u64) | (b << 2u64) | (p2
        << 1u64) | h) >> 4u64 == d) && ((p2 << 1u64 == 2) == (p2 == 1))) by (bit_vector)
        requires
            b <= 3,
            p2 <= 1,
            h <= 1,
    ;
}

/// A state decodes to an input that holds where bit 0 is set, is for
/// player 2 where bit 1 is, has the button of bits 2 and 3 (0 swift, 1 jump,
/// 2 left, 3 right) and the delta above them, on that many frames after
/// `prev_frame`.
pub proof fn lemma_input_from_state_fields(prev_frame: u64, state: u64)
    ensures
        ({
            let p = spec_input_from_state(prev_frame, state);
            let code = (state >> 2u64) & 3u64;
            &&& p.holding == (state & 1u64 == 1)
            &&& p.player2 == (state & 2u64 == 2)
            &&& p.delta == state >> 4u64
            &&& p.frame == (prev_frame + (state >> 4u64)) as u64
            &&& code == 0 ==> p.button is Swift
            &&& code == 1 ==> p.button is Jump
            &&& code == 2 ==> p.button is Left
            &&& code == 3 ==> p.button is Right
        }),
{
}

/// The state written for a player action that is not half of a swift pair
/// has the action's button (a jump as jump, left as left, right as right),
/// its hold, its player 2 and its delta; either half of a swift pair is a
/// swift state.
pub proof fn lemma_from_action_fields(a: Action)
    ensures
        ({
            let p = PlayerInput::spec_from_action(a);
            &&& p.holding == a.holding
            &&& p.player2 == a.player2
            &&& p.delta == a.delta
            &&& a.swift ==> p.button is Swift
            &&& !a.swift && a.action_type is Jump ==> p.button is Jump
            &&& !a.swift && a.action_type is Left ==> p.button is Left
            &&& !a.swift && a.action_type is Right ==> p.button is Right
        }),
{
}

/// Decoding a state appends, the state's delta after the last action, an
/// action of its button (jump, left, right) with its hold and player 2; a
/// swift state appends a press and a release of jump, both on that frame.
pub proof fn lemma_push_input_fields(actions: Seq<Action>, p: PlayerInput)
    ensures
        ({
            let out = push_input(actions, p);
            let frame = (prev_frame(actions) + p.delta) as u64;
            &&& out.subrange(0, actions.len() as int) == actions
            &&& !(p.button is Swift) ==> {
                let a = out.last();
                &&& out.len() == actions.len() + 1
                &&& a.frame == frame && a.delta == p.delta
                &&& a.holding == p.holding && a.player2 == p.player2 && !a.swift
                &&& p.button is Jump ==> a.action_type is Jump
                &&& p.button is Left ==> a.action_type is Left
                &&& p.button is Right ==> a.action_type is Right
            }
            &&& p.button is Swift ==> {
                let h = out[actions.len() as int];
                let r = out[actions.len() as int + 1];
                &&& out.len() == actions.len() + 2
                &&& h.action_type is Jump && h.holding && h.swift && h.frame == frame
                &&& r.action_type is Jump && !r.holding && r.swift && r.frame == frame
                &&& h.player2 == p.player2 && r.player2 == p.player2
            }
        }),
{
    let out = push_input(actions, p);
    assert(out.subrange(0, actions.len() as int) =~= actions);
}

} // verus!
