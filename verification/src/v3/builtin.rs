//! The built-in action atom: a replay's actions, packed into sections.

use vstd::prelude::*;
use crate::bytes::{le_value, le_bytes, read_le, write_le};
use crate::v3::action::{Action, ActionType, valid_tps_bits, is_valid_tps};
use crate::v3::atom::AtomError;
use crate::v3::section::{
    Section,
    SectionError,
    PlayerInput,
    Item,
    prev_frame,
    spec_read_section,
    largest_power_of_two,
    spec_largest_power_of_two,
    lemma_largest_power_of_two,
    kept_inputs,
    keys_equal,
    expand_all,
    inputs_from,
    section_items,
    sections_items,
    items_match,
    item_match,
    section_fits,
    special_fits,
    delta_fits,
    special_type_of,
    view_bytes,
    special_header,
    lemma_special_header_bits,
    lemma_sections_items_concat,
    lemma_sections_items_states,
    lemma_items_match_concat,
    lemma_keys_equal_states,
    push_items,
    push_item,
    push_input,
    decode_special,
    lemma_push_items_concat,
    type_of_button,
    swift_half,
    Button,
    sections_bytes,
    write_sections,
    SectionView,
    SectionIdentifier,
    views,
    views_bytes,
    lemma_views_bytes,
    rle_from,
    lemma_read_section_advances,
    lemma_read_written_section,
    lemma_sections_bytes_bound,
    lemma_items_count_concat,
    lemma_push_items_match,
    lemma_push_items_grows,
    items_count,
};
use crate::bytes::{lemma_le_value_of_bytes, lemma_le_bytes_len};
use vstd::arithmetic::power2::{pow2, lemma2_to64};

verus! {

/// The largest delta that a player state has room for (60 bits).
pub open spec fn max_player_delta() -> u64 {
    0x0FFF_FFFF_FFFF_FFFF
}

/// Checks the actions in order, each against the frame of the one before
/// (`prev` for the first): the first failing check gives the error.
pub open spec fn spec_validate(actions: Seq<Action>, prev: u64) -> Result<(), AtomError>
    decreases actions.len(),
{
    if actions.len() == 0 {
        Ok(())
    } else {
        let a = actions[0];
        if a.frame < prev {
            Err(AtomError::NonMonotonicFrame { previous: prev, frame: a.frame })
        } else if a.delta != a.frame - prev {
            Err(AtomError::InconsistentFrameDelta { expected: (a.frame - prev) as u64, actual: a.delta })
        } else if a.spec_is_player() && a.delta > max_player_delta() {
            Err(AtomError::PlayerDeltaTooLarge(a.delta))
        } else if a.action_type is TPS && !valid_tps_bits(a.tps_bits) {
            Err(AtomError::InvalidTPS(a.tps_bits))
        } else {
            spec_validate(actions.drop_first(), a.frame)
        }
    }
}

/// The frame before action `i`: that of action `i - 1`, or `prev` for the first.
pub open spec fn frame_before(actions: Seq<Action>, i: int, prev: u64) -> u64 {
    if i == 0 {
        prev
    } else {
        actions[i - 1].frame
    }
}

/// Action `i` lies after the one before it (or after `prev`), its delta is
/// that distance, a player delta fits its 60 bits and a tick rate is finite
/// and positive.
pub open spec fn timed_at(actions: Seq<Action>, i: int, prev: u64) -> bool {
    &&& actions[i].frame >= frame_before(actions, i, prev)
    &&& actions[i].delta == actions[i].frame - frame_before(actions, i, prev)
    &&& actions[i].spec_is_player() ==> actions[i].delta <= max_player_delta()
    &&& actions[i].action_type is TPS ==> valid_tps_bits(actions[i].tps_bits)
}

/// Every action is timed after the one before it, the first after `prev`.
pub open spec fn well_timed_from(actions: Seq<Action>, prev: u64) -> bool {
    forall|i: int| 0 <= i < actions.len() ==> #[trigger] timed_at(actions, i, prev)
}

/// Frames never go back, each delta is the distance to the previous frame
/// (to 0 for the first), player deltas fit their 60 bits, and tick rates
/// are finite and positive.
pub open spec fn well_timed(actions: Seq<Action>) -> bool {
    well_timed_from(actions, 0)
}

/// Validation passes exactly on well-timed actions.
pub proof fn lemma_validate_iff_well_timed(actions: Seq<Action>, prev: u64)
    ensures
        spec_validate(actions, prev) is Ok <==> well_timed_from(actions, prev),
    decreases actions.len(),
{
    if actions.len() > 0 {
        let rest = actions.drop_first();
        let f = actions[0].frame;
        lemma_validate_iff_well_timed(rest, f);
        if well_timed_from(actions, prev) {
            assert(timed_at(actions, 0, prev));
            assert forall|i: int| 0 <= i < rest.len() implies #[trigger] timed_at(rest, i, f) by {
                assert(timed_at(actions, i + 1, prev));
                assert(rest[i] == actions[i + 1]);
                if i > 0 {
                    assert(rest[i - 1] == actions[i]);
                }
            }
        }
        if spec_validate(actions, prev) is Ok {
            assert forall|i: int| 0 <= i < actions.len() implies #[trigger] timed_at(actions, i, prev) by {
                if i > 0 {
                    assert(timed_at(rest, i - 1, f));
                    assert(rest[i - 1] == actions[i]);
                    if i > 1 {
                        assert(rest[i - 2] == actions[i - 1]);
                    }
                }
            }
        }
    }
}

/// The built-in atom that holds a replay's actions.
#[derive(Clone, Debug)]
pub struct ActionAtom {
    pub actions: Vec<Action>,
}

impl ActionAtom {
    pub const ID: u32 = 1;

    pub fn new() -> (r: Self)
        ensures
            r.actions@ == Seq::<Action>::empty(),
    {
        ActionAtom { actions: Vec::new() }
    }

    /// Appends a jump, left or right action at `frame`.
    pub fn add_player_action(
        &mut self,
        frame: u64,
        action_type: ActionType,
        holding: bool,
        player2: bool,
    ) -> (r: Result<(), AtomError>)
        ensures
            ({
                let prev = prev_frame(old(self).actions@);
                if !action_type.is_player_type() {
                    r == Err::<(), AtomError>(AtomError::InvalidActionType(action_type))
                        && final(self).actions@ == old(self).actions@
                } else if frame < prev {
                    r == Err::<(), AtomError>(AtomError::NonMonotonicFrame { previous: prev, frame })
                        && final(self).actions@ == old(self).actions@
                } else if frame - prev > max_player_delta() {
                    r == Err::<(), AtomError>(AtomError::PlayerDeltaTooLarge((frame - prev) as u64))
                        && final(self).actions@ == old(self).actions@
                } else {
                    r == Ok::<(), AtomError>(()) && final(self).actions@ == old(self).actions@.push(
                        Action::spec_player(prev, (frame - prev) as u64, action_type, holding, player2),
                    )
                }
            }),
    {
        match action_type {
            ActionType::Jump | ActionType::Left | ActionType::Right => {},
            _ => {
                return Err(AtomError::InvalidActionType(action_type));
            },
        }
        let previous_frame = self.last_frame();
        let delta = match frame.checked_sub(previous_frame) {
            Some(d) => d,
            None => {
                return Err(AtomError::NonMonotonicFrame { previous: previous_frame, frame });
            },
        };
        if delta > 0x0FFF_FFFF_FFFF_FFFFu64 {
            return Err(AtomError::PlayerDeltaTooLarge(delta));
        }
        self.actions.push(Action::player(previous_frame, delta, action_type, holding, player2));
        Ok(())
    }

    /// Appends a restart, full restart or death action at `frame`.
    pub fn add_death_action(&mut self, frame: u64, action_type: ActionType, seed: u64) -> (r: Result<
        (),
        AtomError,
    >)
        ensures
            ({
                let prev = prev_frame(old(self).actions@);
                if !action_type.carries_seed() {
                    r == Err::<(), AtomError>(AtomError::InvalidActionType(action_type))
                        && final(self).actions@ == old(self).actions@
                } else if frame < prev {
                    r == Err::<(), AtomError>(AtomError::NonMonotonicFrame { previous: prev, frame })
                        && final(self).actions@ == old(self).actions@
                } else {
                    r == Ok::<(), AtomError>(()) && final(self).actions@ == old(self).actions@.push(
                        Action::spec_death(prev, (frame - prev) as u64, action_type, seed),
                    )
                }
            }),
    {
        match action_type {
            ActionType::Restart | ActionType::RestartFull | ActionType::Death => {},
            _ => {
                return Err(AtomError::InvalidActionType(action_type));
            },
        }
        let previous_frame = self.last_frame();
        let delta = match frame.checked_sub(previous_frame) {
            Some(d) => d,
            None => {
                return Err(AtomError::NonMonotonicFrame { previous: previous_frame, frame });
            },
        };
        self.actions.push(Action::death(previous_frame, delta, action_type, seed));
        Ok(())
    }

    /// Appends a change of the tick rate, given by its bit pattern, at `frame`.
    pub fn add_tps_action(&mut self, frame: u64, tps_bits: u64) -> (r: Result<(), AtomError>)
        ensures
            ({
                let prev = prev_frame(old(self).actions@);
                if !valid_tps_bits(tps_bits) {
                    r == Err::<(), AtomError>(AtomError::InvalidTPS(tps_bits))
                        && final(self).actions@ == old(self).actions@
                } else if frame < prev {
                    r == Err::<(), AtomError>(AtomError::NonMonotonicFrame { previous: prev, frame })
                        && final(self).actions@ == old(self).actions@
                } else {
                    r == Ok::<(), AtomError>(()) && final(self).actions@ == old(self).actions@.push(
                        Action::spec_tps_change(prev, (frame - prev) as u64, tps_bits),
                    )
                }
            }),
    {
        if !is_valid_tps(tps_bits) {
            return Err(AtomError::InvalidTPS(tps_bits));
        }
        let previous_frame = self.last_frame();
        let delta = match frame.checked_sub(previous_frame) {
            Some(d) => d,
            None => {
                return Err(AtomError::NonMonotonicFrame { previous: previous_frame, frame });
            },
        };
        self.actions.push(Action::tps_change(previous_frame, delta, tps_bits));
        Ok(())
    }

    /// Appends a bugpoint at `frame`.
    pub fn add_bugpoint_action(&mut self, frame: u64) -> (r: Result<(), AtomError>)
        ensures
            ({
                let prev = prev_frame(old(self).actions@);
                if frame < prev {
                    r == Err::<(), AtomError>(AtomError::NonMonotonicFrame { previous: prev, frame })
                        && final(self).actions@ == old(self).actions@
                } else {
                    r == Ok::<(), AtomError>(()) && final(self).actions@ == old(self).actions@.push(
                        Action::spec_bugpoint(prev, (frame - prev) as u64),
                    )
                }
            }),
    {
        let previous_frame = self.last_frame();
        let delta = match frame.checked_sub(previous_frame) {
            Some(d) => d,
            None => {
                return Err(AtomError::NonMonotonicFrame { previous: previous_frame, frame });
            },
        };
        self.actions.push(Action::bugpoint(previous_frame, delta));
        Ok(())
    }

    /// Removes every action.
    pub fn clear(&mut self)
        ensures
            final(self).actions@ == Seq::<Action>::empty(),
    {
        self.actions.clear();
    }

    /// Keeps the actions before `frame`, in order.
    pub fn clip_actions(&mut self, frame: u64)
        ensures
            final(self).actions@ == old(self).actions@.filter(|a: Action| a.frame < frame),
    {
        let ghost old_actions = self.actions@;
        let mut kept: Vec<Action> = Vec::new();
        let mut i: usize = 0;
        proof {
            assert(old_actions.subrange(0, 0) =~= Seq::<Action>::empty());
            reveal_with_fuel(Seq::<_>::filter, 1);
        }
        while i < self.actions.len()
            invariant
                self.actions@ == old_actions,
                i <= old_actions.len(),
                kept@ == old_actions.subrange(0, i as int).filter(|a: Action| a.frame < frame),
            decreases old_actions.len() - i,
        {
            let a = self.actions[i];
            proof {
                let sub = old_actions.subrange(0, i + 1);
                assert(sub.drop_last() =~= old_actions.subrange(0, i as int));
                reveal_with_fuel(Seq::<_>::filter, 1);
            }
            if a.frame < frame {
                kept.push(a);
            }
            i = i + 1;
        }
        proof {
            assert(old_actions.subrange(0, i as int) =~= old_actions);
        }
        self.actions = kept;
    }

    fn last_frame(&self) -> (r: u64)
        ensures
            r == prev_frame(self.actions@),
    {
        match self.actions.last() {
            Some(a) => a.frame,
            None => 0,
        }
    }

    /// Checks that the frames never go back, that each delta is the
    /// distance to the previous frame, that player deltas fit their 60 bits
    /// and that tick rates are finite and positive.
    fn validate_actions(actions: &Vec<Action>) -> (r: Result<(), AtomError>)
        ensures
            r == spec_validate(actions@, 0),
    {
        let mut previous_frame: u64 = 0;
        let mut i: usize = 0;
        proof {
            assert(actions@.subrange(0, actions@.len() as int) =~= actions@);
        }
        while i < actions.len()
            invariant
                i <= actions@.len(),
                spec_validate(actions@, 0) == spec_validate(
                    actions@.subrange(i as int, actions@.len() as int),
                    previous_frame,
                ),
            decreases actions@.len() - i,
        {
            let action = actions[i];
            proof {
                let rest = actions@.subrange(i as int, actions@.len() as int);
                assert(rest[0] == action);
                assert(rest.drop_first() =~= actions@.subrange(i + 1, actions@.len() as int));
            }
            let expected_delta = match action.frame.checked_sub(previous_frame) {
                Some(d) => d,
                None => {
                    return Err(
                        AtomError::NonMonotonicFrame { previous: previous_frame, frame: action.frame },
                    );
                },
            };
            if action.delta() != expected_delta {
                return Err(
                    AtomError::InconsistentFrameDelta { expected: expected_delta, actual: action.delta() },
                );
            }
            if action.is_player() && action.delta() > 0x0FFF_FFFF_FFFF_FFFFu64 {
                return Err(AtomError::PlayerDeltaTooLarge(action.delta()));
            }
            if action.action_type == ActionType::TPS && !is_valid_tps(action.tps_bits) {
                return Err(AtomError::InvalidTPS(action.tps_bits));
            }
            previous_frame = action.frame;
            i = i + 1;
        }
        proof {
            assert(actions@.subrange(i as int, actions@.len() as int) =~= Seq::<Action>::empty());
        }
        Ok(())
    }
}


/// The things that an encoder records for the actions: a state for each
/// player action but the release half of a swift press, and each other
/// action as it is.
pub open spec fn action_items(actions: Seq<Action>) -> Seq<Item>
    decreases actions.len(),
{
    if actions.len() == 0 {
        Seq::empty()
    } else {
        let a = actions.last();
        let rest = action_items(actions.drop_last());
        if !a.spec_is_player() {
            rest.push(Item::Special(a))
        } else if a.holding || !a.swift {
            rest.push(Item::State(PlayerInput::spec_from_action(a)))
        } else {
            rest
        }
    }
}

/// A jump press and its release on the same frame, both marked swift.
pub open spec fn is_swift_pair(h: Action, r: Action) -> bool {
    &&& h.swift
    &&& r.swift
    &&& h.action_type is Jump
    &&& r.action_type is Jump
    &&& h.holding
    &&& !r.holding
    &&& r.delta == 0
    &&& h.player2 == r.player2
}

/// Every action marked swift is one half of a swift pair of neighbours.
pub open spec fn swift_wf(actions: Seq<Action>) -> bool {
    forall|i: int|
        0 <= i < actions.len() && #[trigger] actions[i].swift ==> {
            &&& actions[i].holding ==> i + 1 < actions.len() && is_swift_pair(actions[i], actions[i + 1])
            &&& !actions[i].holding ==> i >= 1 && is_swift_pair(actions[i - 1], actions[i])
        }
}

/// The two actions differ in their swift mark at most.
pub open spec fn same_but_swift(a: Action, b: Action) -> bool {
    &&& a.frame == b.frame
    &&& a.action_type == b.action_type
    &&& a.holding == b.holding
    &&& a.player2 == b.player2
    &&& a.seed == b.seed
    &&& a.tps_bits == b.tps_bits
    &&& a.delta == b.delta
}

/// Action `i` releases a jump pressed by action `i - 1` on the same frame.
pub open spec fn spec_swift_compatible(actions: Seq<Action>, i: int) -> bool {
    &&& i >= 1
    &&& actions[i].delta == 0
    &&& !actions[i].holding
    &&& actions[i - 1].holding != actions[i].holding
    &&& actions[i - 1].player2 == actions[i].player2
    &&& actions[i - 1].action_type == actions[i].action_type
    &&& actions[i].action_type is Jump
}

/// The actions with the pair at `i - 1` and `i` marked swift.
pub open spec fn mark_pair(actions: Seq<Action>, i: int) -> Seq<Action> {
    actions.update(i - 1, Action { swift: true, ..actions[i - 1] }).update(
        i,
        Action { swift: true, ..actions[i] },
    )
}

/// The run that has reached action `i` with `count` states can take in the
/// next action: a player action of the same delta size, while the run has
/// fewer than `2^16` states.
pub open spec fn spec_can_join(actions: Seq<Action>, count: nat, i: int) -> bool {
    &&& i + 1 < actions.len()
    &&& count < 0x10000
    &&& actions[i + 1].spec_is_player()
    &&& actions[i + 1].spec_minimum_size() == actions[i].spec_minimum_size()
}

/// Scans the run of player actions from `start`, now at `i` with `pure`
/// states and `swifts` swift pairs (`pure_swifts` of them counted when the
/// states last made a power of two): each joining action that completes a
/// swift pair marks the pair, any other adds a state. Gives the actions,
/// their swift pairs marked, and where the run ends: after the largest
/// power-of-two count of states and the swift releases among them.
pub open spec fn scan_from(
    actions: Seq<Action>,
    start: int,
    i: int,
    pure: nat,
    swifts: nat,
    pure_swifts: nat,
) -> (Seq<Action>, int)
    decreases actions.len() - i,
{
    if i < 0 || !spec_can_join(actions, pure, i) {
        (actions, start + spec_largest_power_of_two(pure as usize) + pure_swifts)
    } else if spec_swift_compatible(actions, i + 1) {
        scan_from(
            mark_pair(actions, i + 1),
            start,
            i + 1,
            pure,
            swifts + 1,
            if spec_largest_power_of_two(pure as usize) == pure {
                swifts + 1
            } else {
                pure_swifts
            },
        )
    } else {
        scan_from(
            actions,
            start,
            i + 1,
            pure + 1,
            swifts,
            if spec_largest_power_of_two((pure + 1) as usize) == pure + 1 {
                swifts
            } else {
                pure_swifts
            },
        )
    }
}

/// The special section of a restart, death, tick rate change or bugpoint.
pub open spec fn special_view(a: Action) -> SectionView {
    SectionView {
        id: SectionIdentifier::Special,
        delta_size: a.spec_minimum_size() as u16,
        inputs: Seq::empty(),
        marked_for_removal: false,
        count_exp: 0,
        repeats_exp: 0,
        special_type: special_type_of(a.action_type).unwrap(),
        seed: a.seed,
        tps_bits: a.tps_bits,
        special: Some(a),
    }
}

/// The sections that the actions from `i` on pack into, behind `secs`: a
/// special section for each non-player action, and the run-length encoded
/// states of each run of player actions, their swift pairs marked.
pub open spec fn pack_from(actions: Seq<Action>, i: int, secs: Seq<SectionView>) -> Seq<SectionView>
    decreases actions.len() - i,
{
    if i < 0 || i >= actions.len() {
        secs
    } else if !actions[i].spec_is_player() {
        pack_from(actions, i + 1, secs.push(special_view(actions[i])))
    } else {
        let (acts, end) = scan_from(actions, i, i, 1, 0, 0);
        if end <= i || end > actions.len() || acts.len() != actions.len() {
            secs
        } else {
            pack_from(
                acts,
                end,
                secs + rle_from(
                    kept_inputs(acts.subrange(i, end)),
                    acts[i].spec_minimum_size() as u16,
                    0,
                    Seq::empty(),
                    Seq::empty(),
                ),
            )
        }
    }
}

/// The sections that the actions pack into.
pub open spec fn spec_pack(actions: Seq<Action>) -> Seq<SectionView> {
    pack_from(actions, 0, Seq::empty())
}

/// The items of a prefix followed by a run of player actions are the
/// prefix's items and the run's kept inputs.
pub proof fn lemma_action_items_player_run(pre: Seq<Action>, run: Seq<Action>)
    requires
        forall|j: int| 0 <= j < run.len() ==> (#[trigger] run[j]).spec_is_player(),
    ensures
        action_items(pre + run) == action_items(pre) + kept_inputs(run).map_values(
            |p: PlayerInput| Item::State(p),
        ),
    decreases run.len(),
{
    let f = |p: PlayerInput| Item::State(p);
    if run.len() == 0 {
        assert(pre + run =~= pre);
        assert(kept_inputs(run).map_values(f) =~= Seq::<Item>::empty());
        assert(action_items(pre) + Seq::<Item>::empty() =~= action_items(pre));
    } else {
        let r1 = run.drop_last();
        assert forall|j: int| 0 <= j < r1.len() implies (#[trigger] r1[j]).spec_is_player() by {
            assert(r1[j] == run[j]);
        }
        lemma_action_items_player_run(pre, r1);
        assert((pre + run).drop_last() =~= pre + r1);
        assert((pre + run).last() == run.last());
        assert(run.last() == run[run.len() - 1]);
        let a = run.last();
        if a.holding || !a.swift {
            assert(kept_inputs(run).map_values(f) =~= kept_inputs(r1).map_values(f).push(
                Item::State(PlayerInput::spec_from_action(a)),
            ));
            assert(action_items(pre) + kept_inputs(r1).map_values(f).push(
                Item::State(PlayerInput::spec_from_action(a)),
            ) =~= (action_items(pre) + kept_inputs(r1).map_values(f)).push(
                Item::State(PlayerInput::spec_from_action(a)),
            ));
        }
    }
}

/// Every kept input stands for one of the actions.
pub proof fn lemma_kept_inputs_from(run: Seq<Action>, x: PlayerInput)
    requires
        kept_inputs(run).contains(x),
    ensures
        exists|j: int| 0 <= j < run.len() && x == PlayerInput::spec_from_action(#[trigger] run[j]),
    decreases run.len(),
{
    let r1 = run.drop_last();
    let a = run.last();
    if (a.holding || !a.swift) && x == PlayerInput::spec_from_action(a) {
        assert(run[run.len() - 1] == a);
    } else {
        if a.holding || !a.swift {
            let k = choose|k: int| 0 <= k < kept_inputs(run).len() && kept_inputs(run)[k] == x;
            assert(k < kept_inputs(r1).len());
            assert(kept_inputs(r1)[k] == x);
        }
        assert(kept_inputs(r1).contains(x));
        lemma_kept_inputs_from(r1, x);
        let j = choose|j: int| 0 <= j < r1.len() && x == PlayerInput::spec_from_action(#[trigger] r1[j]);
        assert(run[j] == r1[j]);
    }
}

/// A player action's state fits the delta size that the action needs.
pub proof fn lemma_player_fits(a: Action)
    requires
        a.spec_is_player(),
        a.delta <= max_player_delta(),
    ensures
        delta_fits(PlayerInput::spec_from_action(a), a.spec_minimum_size() as u16),
{
    lemma2_to64();
    vstd::arithmetic::power2::lemma_pow2_strictly_increases(60, 64);
    let m = a.spec_minimum_size();
    assert(pow2(0) == 1 && pow2(1) == 2 && pow2(2) == 4 && pow2(3) == 8);
    assert(8 * pow2(m as nat) - 4 == 4 || 8 * pow2(m as nat) - 4 == 12 || 8 * pow2(m as nat) - 4
        == 28 || 8 * pow2(m as nat) - 4 == 60);
    assert(pow2(60) == 0x1000_0000_0000_0000) by {
        vstd::arithmetic::power2::lemma_pow2_adds(32, 28);
    }
}

/// A special action's delta fits the delta size that it needs.
pub proof fn lemma_special_fits(a: Action)
    requires
        !a.spec_is_player(),
        special_type_of(a.action_type) is Some,
        a.action_type is TPS ==> valid_tps_bits(a.tps_bits),
    ensures
        special_fits(a, a.spec_minimum_size() as u16),
{
    lemma2_to64();
    let m = a.spec_minimum_size();
    assert(pow2(0) == 1 && pow2(1) == 2 && pow2(2) == 4 && pow2(3) == 8);
}

impl ActionAtom {
    fn swift_compatible(actions: &Vec<Action>, i: usize) -> (r: bool)
        requires
            i < actions@.len(),
        ensures
            r == spec_swift_compatible(actions@, i as int),
    {
        if i == 0 {
            return false;
        }
        actions[i].delta() == 0 && !actions[i].holding && actions[i - 1].holding != actions[i].holding
            && actions[i - 1].player2 == actions[i].player2 && actions[i - 1].action_type
            == actions[i].action_type && actions[i].action_type == ActionType::Jump
    }

    fn can_join(actions: &Vec<Action>, count: usize, i: usize) -> (r: bool)
        requires
            i < actions@.len(),
        ensures
            r == (i + 1 < actions@.len() && count < 0x10000 && actions@[i + 1].spec_is_player()
                && actions@[i + 1].spec_minimum_size() == actions@[i as int].spec_minimum_size()),
    {
        i < actions.len() - 1 && count < 0x10000 && actions[i + 1].is_player()
            && actions[i + 1].minimum_size() == actions[i].minimum_size()
    }

    /// Marks actions `i - 1` and `i` as the halves of a swift jump.
    fn mark_swift_pair(actions: &mut Vec<Action>, i: usize)
        requires
            1 <= i < old(actions)@.len(),
            spec_swift_compatible(old(actions)@, i as int),
        ensures
            final(actions)@.len() == old(actions)@.len(),
            forall|j: int|
                0 <= j < old(actions)@.len() ==> same_but_swift(
                    #[trigger] final(actions)@[j],
                    old(actions)@[j],
                ),
            forall|j: int| 0 <= j < i - 1 ==> final(actions)@[j] == old(actions)@[j],
            swift_wf(old(actions)@) ==> swift_wf(final(actions)@),
            final(actions)@ == mark_pair(old(actions)@, i as int),
    {
        let ghost prev_acts = actions@;
        let mut h = actions[i - 1];
        h.set_swift(true);
        actions.set(i - 1, h);
        let mut rel = actions[i];
        rel.set_swift(true);
        actions.set(i, rel);
        proof {
            assert(actions@ =~= mark_pair(prev_acts, i as int));
            if swift_wf(prev_acts) {
                assert forall|k: int|
                    0 <= k < actions@.len() && #[trigger] actions@[k].swift implies {
                    &&& actions@[k].holding ==> k + 1 < actions@.len() && is_swift_pair(
                        actions@[k],
                        actions@[k + 1],
                    )
                    &&& !actions@[k].holding ==> k >= 1 && is_swift_pair(actions@[k - 1], actions@[k])
                } by {
                    if k != i - 1 && k != i {
                        assert(prev_acts[k].swift);
                        assert(actions@[k] == prev_acts[k]);
                        if actions@[k].holding {
                            assert(is_swift_pair(prev_acts[k], prev_acts[k + 1]));
                        } else {
                            assert(is_swift_pair(prev_acts[k - 1], prev_acts[k]));
                        }
                    }
                }
            }
        }
    }

    /// Finds the run of player actions that starts at `start`: neighbours of
    /// one delta size, at most `2^16` states, cut to a power-of-two count
    /// of states (with the swift releases among them). Marks the swift
    /// pairs that it meets, and gives where the run ends.
    fn scan_run(actions: &mut Vec<Action>, start: usize) -> (end: usize)
        requires
            start < old(actions)@.len(),
            old(actions)@[start as int].spec_is_player(),
        ensures
            start < end <= final(actions)@.len(),
            final(actions)@.len() == old(actions)@.len(),
            forall|j: int|
                start <= j < end ==> (#[trigger] final(actions)@[j]).spec_is_player()
                    && final(actions)@[j].spec_minimum_size() == old(actions)@[start as int].spec_minimum_size(),
            forall|j: int| 0 <= j < start ==> final(actions)@[j] == old(actions)@[j],
            forall|j: int|
                0 <= j < old(actions)@.len() ==> same_but_swift(
                    #[trigger] final(actions)@[j],
                    old(actions)@[j],
                ),
            swift_wf(old(actions)@) ==> swift_wf(final(actions)@),
            (final(actions)@, end as int) == scan_from(
                old(actions)@,
                start as int,
                start as int,
                1,
                0,
                0,
            ),
    {
        let ghost orig = actions@;
        let mut pure_count: usize = 1;
        let mut swifts: usize = 0;
        let mut pure_swifts: usize = 0;
        let min_size = actions[start].minimum_size();
        let n = actions.len();
        let mut i: usize = start;
        while Self::can_join(actions, pure_count, i)
            invariant
                actions@.len() == orig.len(),
                n == actions@.len(),
                start <= i < actions@.len(),
                1 <= pure_count <= 0x10000,
                pure_count + swifts == i - start + 1,
                pure_swifts <= swifts,
                min_size == orig[start as int].spec_minimum_size(),
                forall|j: int|
                    start <= j <= i ==> (#[trigger] actions@[j]).spec_is_player()
                        && actions@[j].spec_minimum_size() == min_size,
                forall|j: int| 0 <= j < start ==> actions@[j] == orig[j],
                forall|j: int| 0 <= j < orig.len() ==> same_but_swift(#[trigger] actions@[j], orig[j]),
                swift_wf(orig) ==> swift_wf(actions@),
                scan_from(orig, start as int, start as int, 1, 0, 0) == scan_from(
                    actions@,
                    start as int,
                    i as int,
                    pure_count as nat,
                    swifts as nat,
                    pure_swifts as nat,
                ),
            decreases actions@.len() - i,
        {
            i = i + 1;
            if Self::swift_compatible(actions, i) {
                let ghost before = actions@;
                Self::mark_swift_pair(actions, i);
                proof {
                    assert forall|j: int| 0 <= j < orig.len() implies same_but_swift(
                        #[trigger] actions@[j],
                        orig[j],
                    ) by {
                        assert(same_but_swift(before[j], orig[j]));
                        assert(same_but_swift(actions@[j], before[j]));
                    }
                    assert forall|j: int|
                        start <= j <= i implies (#[trigger] actions@[j]).spec_is_player()
                        && actions@[j].spec_minimum_size() == min_size by {
                        assert(same_but_swift(actions@[j], before[j]));
                    }
                    assert forall|j: int| 0 <= j < start implies actions@[j] == orig[j] by {
                        assert(actions@[j] == before[j]);
                    }
                }
                swifts = swifts + 1;
            } else {
                pure_count = pure_count + 1;
            }
            if largest_power_of_two(pure_count) == pure_count {
                pure_swifts = swifts;
            }
        }
        let count = largest_power_of_two(pure_count);
        proof {
            lemma_largest_power_of_two(pure_count);
        }
        start + count + pure_swifts
    }

    /// Validates the actions, then cuts them into sections: each non-player
    /// action into a special section, and runs of player actions of one
    /// delta size into run-length encoded input and repeat sections. Jump
    /// presses released on the same frame are marked swift on the way.
    fn prepare_sections(actions: &mut Vec<Action>, sections: &mut Vec<Section>) -> (r: Result<
        (),
        AtomError,
    >)
        requires
            old(sections)@.len() == 0,
        ensures
            r is Ok <==> spec_validate(old(actions)@, 0) is Ok,
            r matches Err(e) ==> spec_validate(old(actions)@, 0) == Err::<(), AtomError>(e),
            r is Ok ==> {
                &&& final(actions)@.len() == old(actions)@.len()
                &&& forall|j: int|
                    0 <= j < old(actions)@.len() ==> same_but_swift(
                        #[trigger] final(actions)@[j],
                        old(actions)@[j],
                    )
                &&& swift_wf(old(actions)@) ==> swift_wf(final(actions)@)
                &&& forall|k: int| 0 <= k < final(sections)@.len() ==> section_fits(#[trigger] final(sections)@[k])
                &&& items_match(sections_items(final(sections)@), action_items(final(actions)@))
                &&& views(final(sections)@) == spec_pack(old(actions)@)
            },
    {
        let ghost orig = actions@;
        let v = Self::validate_actions(actions);
        match v {
            Ok(_) => {},
            Err(e) => {
                return Err(e);
            },
        }
        proof {
            assert(spec_validate(orig, 0) is Ok);
            lemma_validate_iff_well_timed(orig, 0);
            assert(sections_items(sections@) =~= Seq::<Item>::empty());
            assert(action_items(actions@.subrange(0, 0)) =~= Seq::<Item>::empty());
            assert(views(sections@) =~= Seq::<SectionView>::empty());
        }
        let mut i: usize = 0;
        while i < actions.len()
            invariant
                spec_validate(orig, 0) is Ok,
                well_timed(orig),
                actions@.len() == orig.len(),
                i <= actions@.len(),
                forall|j: int| 0 <= j < orig.len() ==> same_but_swift(#[trigger] actions@[j], orig[j]),
                swift_wf(orig) ==> swift_wf(actions@),
                forall|k: int| 0 <= k < sections@.len() ==> section_fits(#[trigger] sections@[k]),
                items_match(sections_items(sections@), action_items(actions@.subrange(0, i as int))),
                spec_pack(orig) == pack_from(actions@, i as int, views(sections@)),
            decreases actions@.len() - i,
        {
            if !actions[i].is_player() {
                let a = actions[i];
                proof {
                    assert(same_but_swift(actions@[i as int], orig[i as int]));
                    assert(timed_at(orig, i as int, 0));
                }
                let section = match Section::special(&a) {
                    Ok(s) => s,
                    Err(e) => {
                        return Err(AtomError::SectionError(e));
                    },
                };
                let ghost before = sections@;
                sections.push(section);
                proof {
                    assert(section@ == special_view(a)) by {
                        assert(section.player_inputs@ =~= Seq::<PlayerInput>::empty());
                    }
                    assert(views(sections@) =~= views(before).push(special_view(a)));
                    lemma_special_fits(a);
                    assert(sections@.drop_last() =~= before);
                    let sub = actions@.subrange(0, i + 1);
                    assert(sub.drop_last() =~= actions@.subrange(0, i as int));
                    assert(sub.last() == a);
                    assert(item_match(Item::Special(a), Item::Special(a)));
                    lemma_items_match_concat(
                        sections_items(before),
                        section_items(section),
                        action_items(actions@.subrange(0, i as int)),
                        seq![Item::Special(a)],
                    );
                    assert(action_items(sub) =~= action_items(actions@.subrange(0, i as int)) + seq![
                        Item::Special(a),
                    ]);
                }
                i = i + 1;
                continue;
            }
            let start = i;
            let ghost before_run = actions@;
            let end = Self::scan_run(actions, start);
            let min_size = actions[start].minimum_size();
            let mut section = Section::player_from_range(actions.as_slice(), start, end);
            section.delta_size = min_size as u16;
            let mut rle = section.run_length_encode();
            let ghost before = sections@;
            let ghost run = actions@.subrange(start as int, end as int);
            let ghost rle_view = rle@;
            sections.append(&mut rle);
            proof {
                assert(views(sections@) =~= views(before) + views(rle_view));
                assert(actions@[start as int].spec_minimum_size() == before_run[start as int].spec_minimum_size());
                assert forall|j: int| 0 <= j < orig.len() implies same_but_swift(#[trigger] actions@[j], orig[j]) by {
                    assert(same_but_swift(before_run[j], orig[j]));
                }
                assert forall|j: int| 0 <= j < run.len() implies (#[trigger] run[j]).spec_is_player() by {
                    assert(run[j] == actions@[start + j]);
                }
                assert(actions@.subrange(0, start as int) =~= before_run.subrange(0, start as int));
                assert(actions@.subrange(0, start as int) + run =~= actions@.subrange(0, end as int));
                lemma_action_items_player_run(actions@.subrange(0, start as int), run);
                lemma_sections_items_concat(before, rle_view);
                lemma_sections_items_states(rle_view);
                lemma_keys_equal_states(expand_all(rle_view), kept_inputs(run));
                lemma_items_match_concat(
                    sections_items(before),
                    sections_items(rle_view),
                    action_items(actions@.subrange(0, start as int)),
                    kept_inputs(run).map_values(|p: PlayerInput| Item::State(p)),
                );
                assert forall|k: int| 0 <= k < sections@.len() implies section_fits(
                    #[trigger] sections@[k],
                ) by {
                    if k >= before.len() {
                        let sec = rle_view[k - before.len()];
                        assert(sections@[k] == sec);
                        assert forall|j: int| 0 <= j < sec.player_inputs@.len() implies delta_fits(
                            #[trigger] sec.player_inputs@[j],
                            sec.delta_size,
                        ) by {
                            let x = sec.player_inputs@[j];
                            assert(kept_inputs(run).contains(x));
                            lemma_kept_inputs_from(run, x);
                            let w = choose|w: int| 0 <= w < run.len() && x == PlayerInput::spec_from_action(
                                #[trigger] run[w],
                            );
                            assert(run[w] == actions@[start + w]);
                            assert(same_but_swift(actions@[start + w], orig[start + w]));
                            assert(timed_at(orig, start + w, 0));
                            lemma_player_fits(run[w]);
                        }
                    } else {
                        assert(sections@[k] == before[k]);
                    }
                }
            }
            i = end;
        }
        proof {
            assert(actions@.subrange(0, i as int) =~= actions@);
        }
        Ok(())
    }
}


/// `d` is what reading gives back for `a`: the same content, delta and
/// swift mark.
pub open spec fn decoded_as(d: Action, a: Action) -> bool {
    d.same_content(a) && d.delta == a.delta && d.swift == a.swift
}

proof fn lemma_well_timed_prefix(f: Seq<Action>, k: int)
    requires
        well_timed(f),
        0 <= k <= f.len(),
    ensures
        well_timed(f.subrange(0, k)),
{
    let g = f.subrange(0, k);
    assert forall|i: int| 0 <= i < g.len() implies #[trigger] timed_at(g, i, 0) by {
        assert(timed_at(f, i, 0));
        assert(g[i] == f[i]);
        if i > 0 {
            assert(g[i - 1] == f[i - 1]);
        }
    }
}

/// Items of well-timed actions whose swift marks come in proper pairs
/// decode to those actions again: the same content, deltas and marks.
pub proof fn lemma_decode_action_items(f: Seq<Action>)
    requires
        well_timed(f),
        swift_wf(f),
    ensures
        push_items(Seq::empty(), action_items(f)) is Some,
        push_items(Seq::empty(), action_items(f)).unwrap().len() == f.len(),
        forall|i: int|
            0 <= i < f.len() ==> #[trigger] decoded_as(
                push_items(Seq::empty(), action_items(f)).unwrap()[i],
                f[i],
            ),
    decreases f.len(),
{
    if f.len() == 0 {
        return;
    }
    let n = f.len() as int;
    let a = f[n - 1];
    assert(f.last() == a);
    assert(timed_at(f, n - 1, 0));
    if a.swift && !a.holding && a.spec_is_player() {
        // a is the release of the swift pair (h, a)
        assert(is_swift_pair(f[n - 2], f[n - 1]));
        let h = f[n - 2];
        let f1 = f.drop_last();
        let f2 = f1.drop_last();
        assert(f1 =~= f.subrange(0, n - 1));
        assert(f2 =~= f.subrange(0, n - 2));
        lemma_well_timed_prefix(f, n - 2);
        assert(swift_wf(f2)) by {
            assert forall|i: int| 0 <= i < f2.len() && #[trigger] f2[i].swift implies {
                &&& f2[i].holding ==> i + 1 < f2.len() && is_swift_pair(f2[i], f2[i + 1])
                &&& !f2[i].holding ==> i >= 1 && is_swift_pair(f2[i - 1], f2[i])
            } by {
                assert(f2[i] == f[i]);
                if f2[i].holding {
                    assert(is_swift_pair(f[i], f[i + 1]));
                    if i + 1 == n - 2 {
                        assert(!f[n - 2].holding);
                    }
                    assert(f2[i + 1] == f[i + 1]);
                } else {
                    assert(is_swift_pair(f[i - 1], f[i]));
                    assert(f2[i - 1] == f[i - 1]);
                }
            }
        }
        lemma_decode_action_items(f2);
        let d2 = push_items(Seq::empty(), action_items(f2)).unwrap();
        assert(f1.last() == h);
        assert(f1.drop_last() == f2);
        assert(action_items(f) == action_items(f1));
        let it = Item::State(PlayerInput::spec_from_action(h));
        assert(action_items(f1) == action_items(f2).push(it));
        assert(action_items(f2).push(it) =~= action_items(f2) + seq![it]);
        lemma_push_items_concat(Seq::empty(), action_items(f2), seq![it]);
        assert(timed_at(f, n - 2, 0));
        let prev = if n - 2 == 0 {
            0u64
        } else {
            f[n - 3].frame
        };
        assert(prev_frame(d2) == prev) by {
            if n - 2 > 0 {
                assert(decoded_as(d2[n - 3], f2[n - 3]));
            }
        }
        let d = push_input(d2, PlayerInput::spec_from_action(h));
        assert(seq![it].drop_first() =~= Seq::<Item>::empty());
        assert(prev + h.delta == h.frame);
        assert(push_item(d2, it) == Some(d));
        assert(push_items(d, seq![it].drop_first()) == Some(d));
        assert(seq![it][0] == it);
        assert(push_items(d2, seq![it]) == Some(d));
        assert forall|i: int| 0 <= i < f.len() implies #[trigger] decoded_as(d[i], f[i]) by {
            if i < n - 2 {
                assert(d[i] == d2[i]);
                assert(decoded_as(d2[i], f2[i]));
            }
        }
    } else {
        let f1 = f.drop_last();
        assert(f1 =~= f.subrange(0, n - 1));
        lemma_well_timed_prefix(f, n - 1);
        if a.swift {
            if a.holding {
                assert(n < f.len());
            }
            assert(!a.spec_is_player() ==> false) by {
                if a.holding {
                    assert(is_swift_pair(f[n - 1], f[n]));
                } else {
                    assert(is_swift_pair(f[n - 2], f[n - 1]));
                }
            }
        }
        assert(swift_wf(f1)) by {
            assert forall|i: int| 0 <= i < f1.len() && #[trigger] f1[i].swift implies {
                &&& f1[i].holding ==> i + 1 < f1.len() && is_swift_pair(f1[i], f1[i + 1])
                &&& !f1[i].holding ==> i >= 1 && is_swift_pair(f1[i - 1], f1[i])
            } by {
                assert(f1[i] == f[i]);
                if f1[i].holding {
                    assert(is_swift_pair(f[i], f[i + 1]));
                    assert(f1[i + 1] == f[i + 1]) by {
                        if i + 1 == n - 1 {
                            assert(f[n - 1].swift);
                        }
                    }
                } else {
                    assert(is_swift_pair(f[i - 1], f[i]));
                    assert(f1[i - 1] == f[i - 1]);
                }
            }
        }
        lemma_decode_action_items(f1);
        let d1 = push_items(Seq::empty(), action_items(f1)).unwrap();
        let prev = if n - 1 == 0 {
            0u64
        } else {
            f[n - 2].frame
        };
        assert(prev_frame(d1) == prev) by {
            if n - 1 > 0 {
                assert(decoded_as(d1[n - 2], f1[n - 2]));
            }
        }
        let it = if !a.spec_is_player() {
            Item::Special(a)
        } else {
            Item::State(PlayerInput::spec_from_action(a))
        };
        assert(action_items(f) == action_items(f1).push(it));
        assert(action_items(f1).push(it) =~= action_items(f1) + seq![it]);
        lemma_push_items_concat(Seq::empty(), action_items(f1), seq![it]);
        assert(seq![it].drop_first() =~= Seq::<Item>::empty());
        assert(prev + a.delta == a.frame);
        assert(push_item(d1, it) is Some);
        let d = push_item(d1, it).unwrap();
        assert(push_items(d, seq![it].drop_first()) == Some(d));
        assert(seq![it][0] == it);
        assert(push_items(d1, seq![it]) == Some(d));
        assert forall|i: int| 0 <= i < f.len() implies #[trigger] decoded_as(d[i], f[i]) by {
            if i < n - 1 {
                assert(d[i] == d1[i]);
                assert(decoded_as(d1[i], f1[i]));
            }
        }
    }
}


/// Reads sections from `pos` until `count` actions have been read.
pub open spec fn read_sections(data: Seq<u8>, pos: int, actions: Seq<Action>, count: nat) -> Result<
    Seq<Action>,
    SectionError,
>
    decreases data.len() - pos,
{
    if actions.len() >= count {
        Ok(actions)
    } else {
        match spec_read_section(data, pos, actions, count) {
            Err(e) => Err(e),
            Ok((a, q)) => if pos < q <= data.len() {
                read_sections(data, q, a, count)
            } else {
                Ok(a)
            },
        }
    }
}

/// Reads the body of an action atom: an 8-byte action count, then
/// sections until that many actions have been read.
pub open spec fn spec_read_action_body(body: Seq<u8>) -> Result<Seq<Action>, AtomError> {
    if body.len() < 8 {
        Err(AtomError::ActionAtomTooSmall)
    } else {
        let count = le_value(body.subrange(0, 8));
        if count > usize::MAX {
            Err(AtomError::TooLarge)
        } else {
            match read_sections(body, 8, Seq::empty(), count) {
                Ok(a) => Ok(a),
                Err(e) => Err(AtomError::SectionError(e)),
            }
        }
    }
}

/// Sections that fit read back, in order, as their items decoded behind
/// `actions`, until the `count` actions that they decode to in all.
pub proof fn lemma_read_sections_written(
    data: Seq<u8>,
    pos: int,
    ss: Seq<Section>,
    actions: Seq<Action>,
    count: nat,
)
    requires
        forall|k: int| 0 <= k < ss.len() ==> section_fits(#[trigger] ss[k]),
        0 <= pos,
        pos + sections_bytes(ss).len() <= data.len(),
        data.subrange(pos, pos + sections_bytes(ss).len()) == sections_bytes(ss),
        push_items(actions, sections_items(ss)) is Some,
        push_items(actions, sections_items(ss)).unwrap().len() == count,
    ensures
        read_sections(data, pos, actions, count) == Ok::<Seq<Action>, SectionError>(
            push_items(actions, sections_items(ss)).unwrap(),
        ),
    decreases ss.len(),
{
    if ss.len() == 0 {
        assert(sections_items(ss) =~= Seq::<Item>::empty());
    } else {
        let s0 = ss[0];
        let rest = ss.drop_first();
        assert(ss =~= seq![s0] + rest);
        lemma_sections_items_concat(seq![s0], rest);
        assert(seq![s0].drop_last() =~= Seq::<Section>::empty());
        assert(seq![s0].last() == s0);
        assert(sections_items(Seq::<Section>::empty()) =~= Seq::<Item>::empty());
        assert(sections_items(seq![s0]) =~= section_items(s0));
        lemma_push_items_concat(actions, section_items(s0), sections_items(rest));
        let a1 = push_items(actions, section_items(s0)).unwrap();
        lemma_push_items_grows(a1, sections_items(rest));
        let b0 = s0.spec_bytes();
        let whole = data.subrange(pos, pos + sections_bytes(ss).len());
        assert(whole =~= b0 + sections_bytes(rest));
        assert(sections_bytes(ss) == b0 + sections_bytes(rest));
        assert(whole.subrange(0, b0.len() as int) =~= b0);
        assert(data.subrange(pos, pos + b0.len()) =~= whole.subrange(0, b0.len() as int));
        lemma_read_written_section(s0, data, pos, actions, count);
        crate::v3::section::lemma_push_items_len(actions, section_items(s0));
        assert(data.subrange(pos + b0.len(), pos + b0.len() + sections_bytes(rest).len())
            =~= whole.subrange(b0.len() as int, whole.len() as int));
        assert forall|k: int| 0 <= k < rest.len() implies section_fits(#[trigger] rest[k]) by {
            assert(rest[k] == ss[k + 1]);
        }
        assert(whole.subrange(b0.len() as int, whole.len() as int) =~= sections_bytes(rest));
        lemma_read_sections_written(data, pos + b0.len(), rest, a1, count);
    }
}

proof fn lemma_well_timed_same_but_swift(f: Seq<Action>, g: Seq<Action>)
    requires
        well_timed(f),
        f.len() == g.len(),
        forall|j: int| 0 <= j < f.len() ==> same_but_swift(#[trigger] g[j], f[j]),
    ensures
        well_timed(g),
{
    assert forall|i: int| 0 <= i < g.len() implies #[trigger] timed_at(g, i, 0) by {
        assert(timed_at(f, i, 0));
        assert(same_but_swift(g[i], f[i]));
        if i > 0 {
            assert(same_but_swift(g[i - 1], f[i - 1]));
        }
    }
}

fn copy_actions(v: &Vec<Action>) -> (r: Vec<Action>)
    ensures
        r@ == v@,
{
    let mut r: Vec<Action> = Vec::new();
    let mut i: usize = 0;
    while i < v.len()
        invariant
            i <= v@.len(),
            r@ =~= v@.subrange(0, i as int),
        decreases v@.len() - i,
    {
        r.push(v[i]);
        i = i + 1;
    }
    proof {
        assert(v@.subrange(0, i as int) =~= v@);
    }
    r
}

/// Matching items stand for the same number of actions.
proof fn lemma_items_count_match(x: Seq<Item>, y: Seq<Item>)
    requires
        items_match(x, y),
    ensures
        items_count(x) == items_count(y),
    decreases x.len(),
{
    if x.len() > 0 {
        assert(item_match(x[0], y[0]));
        assert forall|i: int| 0 <= i < x.drop_first().len() implies #[trigger] item_match(
            x.drop_first()[i],
            y.drop_first()[i],
        ) by {
            assert(item_match(x[i + 1], y[i + 1]));
        }
        lemma_items_count_match(x.drop_first(), y.drop_first());
    }
}

/// The items of actions stand for at most two actions each.
proof fn lemma_action_items_count(f: Seq<Action>)
    ensures
        items_count(action_items(f)) <= 2 * f.len(),
    decreases f.len(),
{
    if f.len() > 0 {
        let rest = action_items(f.drop_last());
        lemma_action_items_count(f.drop_last());
        let a = f.last();
        let it = if !a.spec_is_player() {
            Item::Special(a)
        } else {
            Item::State(PlayerInput::spec_from_action(a))
        };
        if !a.spec_is_player() || a.holding || !a.swift {
            assert(action_items(f) == rest.push(it));
            assert(rest.push(it) =~= rest + seq![it]);
            lemma_items_count_concat(rest, seq![it]);
            assert(seq![it].drop_first() =~= Seq::<Item>::empty());
            assert(seq![it][0] == it);
            assert(items_count(Seq::<Item>::empty()) == 0);
        }
    }
}

impl ActionAtom {
    /// Reads an action atom from its body.
    pub fn read(body: &[u8]) -> (r: Result<Self, AtomError>)
        ensures
            match spec_read_action_body(body@) {
                Ok(a) => r matches Ok(atom) && atom.actions@ == a,
                Err(e) => r matches Err(e2) && e2 == e,
            },
    {
        if body.len() < 8 {
            return Err(AtomError::ActionAtomTooSmall);
        }
        let count64 = read_le(body, 0, 8);
        if count64 > usize::MAX as u64 {
            return Err(AtomError::TooLarge);
        }
        let count = count64 as usize;
        let mut actions: Vec<Action> = Vec::new();
        let mut pos: usize = 8;
        let blen = body.len();
        while actions.len() < count
            invariant
                blen == body@.len(),
                8 <= pos <= body@.len(),
                count == le_value(body@.subrange(0, 8)),
                read_sections(body@, 8, Seq::empty(), count as nat) == read_sections(
                    body@,
                    pos as int,
                    actions@,
                    count as nat,
                ),
            decreases body@.len() - pos,
        {
            let ghost before = actions@;
            proof {
                lemma_read_section_advances(body@, pos as int, actions@, count as nat);
            }
            match Section::read(body, pos, &mut actions, count) {
                Ok(q) => {
                    proof {
                        let res = spec_read_section(body@, pos as int, before, count as nat);
                        assert(res is Ok);
                        assert(q == res.unwrap().1 && actions@ == res.unwrap().0);
                    }
                    pos = q;
                },
                Err(e) => {
                    return Err(AtomError::SectionError(e));
                },
            }
        }
        Ok(ActionAtom { actions })
    }

    /// Writes the atom's body: the action count, then the sections that
    /// the actions pack into. Fails, after the count, on actions that do not
    /// validate.
    ///
    /// Read back, the body gives the same actions: equal in content and
    /// delta, wherever their swift marks come in proper pairs.
    pub fn write(&self, out: &mut Vec<u8>) -> (r: Result<(), AtomError>)
        ensures
            r is Ok <==> spec_validate(self.actions@, 0) is Ok,
            r matches Err(e) ==> spec_validate(self.actions@, 0) == Err::<(), AtomError>(e)
                && final(out)@ == old(out)@ + le_bytes(self.actions@.len() as nat, 8),
            final(out)@.len() >= old(out)@.len() + 8,
            r is Ok ==> final(out)@.len() <= old(out)@.len() + 8 + 36 * self.actions@.len(),
            r is Ok ==> final(out)@ == old(out)@ + le_bytes(self.actions@.len() as nat, 8)
                + views_bytes(spec_pack(self.actions@)),
            final(out)@.subrange(0, old(out)@.len() as int) == old(out)@,
            final(out)@.subrange(old(out)@.len() as int, old(out)@.len() as int + 8) == le_bytes(
                self.actions@.len() as nat,
                8,
            ),
            r is Ok && swift_wf(self.actions@) ==> ({
                let body = final(out)@.subrange(old(out)@.len() as int, final(out)@.len() as int);
                &&& spec_read_action_body(body) is Ok
                &&& spec_read_action_body(body).unwrap().len() == self.actions@.len()
                &&& forall|i: int|
                    0 <= i < self.actions@.len() ==> {
                        let d = #[trigger] spec_read_action_body(body).unwrap()[i];
                        d.same_content(self.actions@[i]) && d.delta == self.actions@[i].delta
                    }
            }),
    {
        let ghost old_out = out@;
        write_le(out, self.actions.len() as u64, 8);
        proof {
            lemma_le_bytes_len(self.actions@.len() as nat, 8);
            assert(out@.subrange(0, old_out.len() as int) =~= old_out);
            assert(out@.subrange(old_out.len() as int, old_out.len() as int + 8) =~= le_bytes(
                self.actions@.len() as nat,
                8,
            ));
        }
        let mut sections: Vec<Section> = Vec::new();
        let mut actions_copy = copy_actions(&self.actions);
        match Self::prepare_sections(&mut actions_copy, &mut sections) {
            Ok(()) => {},
            Err(e) => {
                return Err(e);
            },
        }
        let ghost mid = out@;
        write_sections(out, &sections);
        proof {
            let n = self.actions@.len();
            let f = actions_copy@;
            let ss = sections@;
            assert(out@.subrange(0, old_out.len() as int) =~= old_out);
            assert(out@.subrange(old_out.len() as int, old_out.len() as int + 8) =~= le_bytes(n as nat, 8));
            lemma_views_bytes(ss);
            assert(out@ =~= old_out + le_bytes(n as nat, 8) + sections_bytes(ss));
            lemma_sections_bytes_bound(ss);
            lemma_items_count_match(sections_items(ss), action_items(f));
            lemma_action_items_count(f);
            if swift_wf(self.actions@) {
                lemma_validate_iff_well_timed(self.actions@, 0);
                lemma_well_timed_same_but_swift(self.actions@, f);
                lemma_decode_action_items(f);
                lemma_push_items_match(Seq::empty(), sections_items(ss), action_items(f));
                let d = push_items(Seq::empty(), action_items(f)).unwrap();
                let body = out@.subrange(old_out.len() as int, out@.len() as int);
                assert(body =~= le_bytes(n as nat, 8) + sections_bytes(ss));
                assert(body.subrange(0, 8) =~= le_bytes(n as nat, 8));
                lemma_le_value_of_bytes(n as nat, 8);
                reveal_with_fuel(vstd::arithmetic::power::pow, 9);
                vstd::arithmetic::div_mod::lemma_small_mod(n as nat, vstd::arithmetic::power::pow(256, 8) as nat);
                assert(le_value(body.subrange(0, 8)) == n);
                assert(body.subrange(8, 8 + sections_bytes(ss).len() as int) =~= sections_bytes(ss));
                lemma_read_sections_written(body, 8, ss, Seq::empty(), n as nat);
                assert forall|i: int| 0 <= i < n implies {
                    let x = #[trigger] d[i];
                    x.same_content(self.actions@[i]) && x.delta == self.actions@[i].delta
                } by {
                    assert(decoded_as(d[i], f[i]));
                    assert(same_but_swift(f[i], self.actions@[i]));
                }
            }
        }
        Ok(())
    }
}

impl Default for ActionAtom {
    fn default() -> (r: Self)
        ensures
            r.actions@ == Seq::<Action>::empty(),
    {
        ActionAtom::new()
    }
}

/// The section that a non-player action packs into opens with the header
/// of its type: its first two bytes, read as a little-endian number, carry
/// identifier 2 and the code of the action's type (0 restart, 1 full
/// restart, 2 death, 3 tick rate, 4 bugpoint).
pub proof fn lemma_special_action_header(a: Action)
    requires
        !a.spec_is_player(),
    ensures
        ({
            let b = view_bytes(special_view(a));
            let h = le_value(b.subrange(0, 2)) as u16;
            &&& b.len() >= 2
            &&& h >> 14u16 == 2
            &&& a.action_type is Restart ==> (h >> 10u16) & 15u16 == 0
            &&& a.action_type is RestartFull ==> (h >> 10u16) & 15u16 == 1
            &&& a.action_type is Death ==> (h >> 10u16) & 15u16 == 2
            &&& a.action_type is TPS ==> (h >> 10u16) & 15u16 == 3
            &&& a.action_type is Bugpoint ==> (h >> 10u16) & 15u16 == 4
        }),
{
    let v = special_view(a);
    assert(special_type_of(a.action_type) is Some);
    let h = special_header(v.special_type, v.delta_size);
    lemma_special_header_bits(v.special_type, v.delta_size);
    crate::bytes::lemma_pow256_values();
    crate::bytes::lemma_le_round_trip(h as nat, 2);
    let b = view_bytes(v);
    assert(b.subrange(0, 2) =~= le_bytes(h as nat, 2));
}

} // verus!
