//! Replays of either version, and the generic replay that both convert to
//! and that writes either version.

use vstd::prelude::*;
use crate::action::{Action, ActionData, Player, PlayerAction, PlayerInput, v2_button};
use crate::v2;
use crate::v2::input::{Input as V2Input, InputData as V2InputData, PlayerInput as V2PlayerInput};
use crate::v2::replay::{
    spec_read_v2,
    has_v2_header,
    v2_header,
    v2_bytes,
    spec_plan_blobs,
    frames_chained,
    frame_link,
    prev_frame as v2_prev_frame,
    all_representable,
    generic_of_v2,
    generic_of_v2_input,
};
use crate::v2::input::representable;
use crate::v3;
use crate::v3::action::{Action as V3Action, ActionType, valid_tps_bits};
use crate::v3::atom::{
    AtomError,
    AtomVariant,
    AtomView,
    MAX_ATOM_SIZE,
    atom_fits,
    atom_ok,
    atom_header,
    action_body_bytes,
    spec_atom_bytes,
    round_trips,
    reads_back_as,
};
use crate::bytes::{le_bytes, flatten_bytes};
use crate::v3::builtin::{
    ActionAtom,
    max_player_delta,
    spec_validate,
    swift_wf,
    well_timed,
    timed_at,
    frame_before,
    lemma_validate_iff_well_timed,
};
use crate::v3::metadata::Metadata;
use crate::v3::replay::{
    spec_read_replay,
    has_replay_header,
    replay_header,
    generic_of_v3,
    generic_of_v3_action,
    generic_of_atom_views,
};
use crate::v3::section::prev_frame;

verus! {

/// Why a replay could not be read or written.
#[derive(Clone, Copy, Debug, PartialEq, Eq, Structural)]
pub enum ReplayError {
    /// The data opens with neither known header.
    UnknownFormat,
    V2Error(v2::ReplayError),
    V3Error(v3::replay::ReplayError),
    /// The action cannot be written in the format asked for.
    UnrepresentableAction(Action),
    /// The data ends before the replay does.
    UnexpectedEof,
}

/// A replay of either version.
pub enum Replay {
    V2(v2::Replay),
    V3(v3::Replay),
}

/// A replay as its tick rate (by bit pattern) and its generic actions.
pub struct GenericReplay {
    pub tps_bits: u64,
    pub actions: Vec<Action>,
}

impl Replay {
    /// Reads a replay that fills `data`, of the version that its header names.
    pub fn read(data: &[u8]) -> (r: Result<Self, ReplayError>)
        ensures
            data@.len() < 8 ==> r == Err::<Self, ReplayError>(ReplayError::UnexpectedEof),
            data@.len() >= 8 && data@.subrange(0, 4) == v2_header() ==> match spec_read_v2(data@) {
                Ok((t, m, i)) => (r matches Ok(Replay::V2(x)) && x.tps_bits == t && x.meta@ == m
                    && x.inputs@ == i),
                Err(e) => r == Err::<Self, ReplayError>(ReplayError::V2Error(e)),
            },
            data@.len() >= 8 && data@.subrange(0, 4) != v2_header() && data@.subrange(0, 8)
                == replay_header() ==> match spec_read_replay(data@) {
                Ok((m, vs)) => (r matches Ok(Replay::V3(x)) && x.metadata == m && x.atoms.views()
                    == vs),
                Err(e) => r == Err::<Self, ReplayError>(ReplayError::V3Error(e)),
            },
            data@.len() >= 8 && data@.subrange(0, 4) != v2_header() && data@.subrange(0, 8)
                != replay_header() ==> r == Err::<Self, ReplayError>(ReplayError::UnknownFormat),
    {
        if data.len() < 8 {
            return Err(ReplayError::UnexpectedEof);
        }
        if has_v2_header(data) {
            match v2::Replay::read(data) {
                Ok(x) => Ok(Replay::V2(x)),
                Err(e) => Err(ReplayError::V2Error(e)),
            }
        } else if has_replay_header(data) {
            match v3::Replay::read(data) {
                Ok(x) => Ok(Replay::V3(x)),
                Err(e) => Err(ReplayError::V3Error(e)),
            }
        } else {
            Err(ReplayError::UnknownFormat)
        }
    }

    /// The replay as generic actions.
    pub fn to_generic_replay(&self) -> (r: GenericReplay)
        ensures
            match self {
                Replay::V2(x) => r.tps_bits == x.tps_bits && r.actions@ == generic_of_v2(x.inputs@),
                Replay::V3(x) => r.tps_bits == x.metadata.tps_bits && r.actions@
                    == generic_of_atom_views(x.atoms.views()),
            },
    {
        match self {
            Replay::V2(x) => x.to_generic_replay(),
            Replay::V3(x) => x.to_generic_replay(),
        }
    }
}

/// The SLC2 input that a generic action becomes, `delta` frames after the
/// one before it.
pub open spec fn v2_input_of(a: Action, delta: u64) -> V2Input {
    V2Input {
        delta,
        frame: a.frame,
        data: match a.data {
            ActionData::Player(p) => V2InputData::Player(
                V2PlayerInput {
                    hold: p.down,
                    player_2: p.player == Player::Player2,
                    button: v2_button(p.action),
                },
            ),
            ActionData::Restart { .. } => V2InputData::Restart,
            ActionData::RestartFull { .. } => V2InputData::RestartFull,
            ActionData::Death { .. } => V2InputData::Death,
            ActionData::TPS(bits) => V2InputData::TPS(bits),
            ActionData::Bugpoint => V2InputData::Skip,
        },
    }
}

/// The frame of the action before the `k`th (0 before the first).
pub open spec fn frame_before_action(actions: Seq<Action>, k: int) -> u64 {
    if k == 0 {
        0
    } else {
        actions[k - 1].frame
    }
}

/// The SLC2 inputs of generic actions, or the index of the first action
/// that SLC2 cannot hold: a bugpoint, or an action before the one before it.
pub open spec fn spec_to_v2_inputs(actions: Seq<Action>) -> Result<Seq<V2Input>, int>
    decreases actions.len(),
{
    if actions.len() == 0 {
        Ok(Seq::empty())
    } else {
        match spec_to_v2_inputs(actions.drop_last()) {
            Err(k) => Err(k),
            Ok(inputs) => {
                let k = actions.len() - 1;
                let a = actions[k];
                let last = frame_before_action(actions, k);
                if a.data is Bugpoint || a.frame < last {
                    Err(k)
                } else {
                    Ok(inputs.push(v2_input_of(a, (a.frame - last) as u64)))
                }
            },
        }
    }
}

/// The action without its seed: what SLC2 keeps of it.
pub open spec fn seedless(a: Action) -> Action {
    Action {
        frame: a.frame,
        data: match a.data {
            ActionData::Restart { .. } => ActionData::Restart { seed: 0 },
            ActionData::RestartFull { .. } => ActionData::RestartFull { seed: 0 },
            ActionData::Death { .. } => ActionData::Death { seed: 0 },
            d => d,
        },
    }
}

/// The SLC3 action type of a button.
pub open spec fn v3_type_of(b: PlayerAction) -> ActionType {
    match b {
        PlayerAction::Jump => ActionType::Jump,
        PlayerAction::Left => ActionType::Left,
        PlayerAction::Right => ActionType::Right,
    }
}

/// The SLC3 action that adding the generic action `a` behind `acc`
/// appends, or why it is refused.
pub open spec fn spec_add_action(acc: Seq<V3Action>, a: Action) -> Result<V3Action, AtomError> {
    let prev = prev_frame(acc);
    let delta = (a.frame - prev) as u64;
    match a.data {
        ActionData::TPS(bits) => if !valid_tps_bits(bits) {
            Err(AtomError::InvalidTPS(bits))
        } else if a.frame < prev {
            Err(AtomError::NonMonotonicFrame { previous: prev, frame: a.frame })
        } else {
            Ok(V3Action::spec_tps_change(prev, delta, bits))
        },
        _ => if a.frame < prev {
            Err(AtomError::NonMonotonicFrame { previous: prev, frame: a.frame })
        } else {
            match a.data {
                ActionData::Player(p) => if a.frame - prev > max_player_delta() {
                    Err(AtomError::PlayerDeltaTooLarge(delta))
                } else {
                    Ok(
                        V3Action::spec_player(
                            prev,
                            delta,
                            v3_type_of(p.action),
                            p.down,
                            p.player == Player::Player2,
                        ),
                    )
                },
                ActionData::Restart { seed } => Ok(
                    V3Action::spec_death(prev, delta, ActionType::Restart, seed),
                ),
                ActionData::RestartFull { seed } => Ok(
                    V3Action::spec_death(prev, delta, ActionType::RestartFull, seed),
                ),
                ActionData::Death { seed } => Ok(
                    V3Action::spec_death(prev, delta, ActionType::Death, seed),
                ),
                _ => Ok(V3Action::spec_bugpoint(prev, delta)),
            }
        },
    }
}

/// The SLC3 actions of generic actions, added one by one, or the error of
/// the first that is refused.
pub open spec fn spec_to_v3_actions(actions: Seq<Action>) -> Result<Seq<V3Action>, AtomError>
    decreases actions.len(),
{
    if actions.len() == 0 {
        Ok(Seq::empty())
    } else {
        match spec_to_v3_actions(actions.drop_last()) {
            Err(e) => Err(e),
            Ok(acc) => match spec_add_action(acc, actions.last()) {
                Err(e) => Err(e),
                Ok(x) => Ok(acc.push(x)),
            },
        }
    }
}

impl GenericReplay {
    /// Adds an action after the others.
    pub fn add_action(&mut self, action: Action)
        ensures
            final(self).tps_bits == old(self).tps_bits,
            final(self).actions@ == old(self).actions@.push(action),
    {
        self.actions.push(action);
    }

    /// Writes the replay in the SLC2 format, with the metadata block `metadata`.
    ///
    /// A bugpoint, or an action before the one before it, cannot be
    /// written: the first such action is the error, and nothing is written.
    /// Read back, a written replay whose deltas fit their 59 bits gives the
    /// same tick rate, metadata and actions, but for the seeds, which SLC2
    /// does not keep.
    pub fn write_v2(&self, out: &mut Vec<u8>, metadata: &[u8]) -> (r: Result<(), ReplayError>)
        ensures
            match spec_to_v2_inputs(self.actions@) {
                Err(k) => r == Err::<(), ReplayError>(
                    ReplayError::UnrepresentableAction(self.actions@[k]),
                ) && final(out)@ == old(out)@,
                Ok(inputs) => {
                    &&& r is Ok
                    &&& final(out)@ == old(out)@ + v2_bytes(
                        self.tps_bits,
                        metadata@,
                        inputs,
                        spec_plan_blobs(inputs),
                    )
                    &&& (forall|k: int|
                        0 <= k < inputs.len() ==> (#[trigger] inputs[k]).delta
                            < 0x800_0000_0000_0000) ==> ({
                        let written = final(out)@.subrange(
                            old(out)@.len() as int,
                            final(out)@.len() as int,
                        );
                        &&& spec_read_v2(written) matches Ok((t, m, i))
                        &&& t == self.tps_bits
                        &&& m == metadata@
                        &&& i == inputs
                        &&& generic_of_v2(i) == self.actions@.map_values(|a: Action| seedless(a))
                    })
                },
            },
    {
        let mut inputs: Vec<V2Input> = Vec::new();
        let mut last_frame: u64 = 0;
        let mut k: usize = 0;
        while k < self.actions.len()
            invariant
                k <= self.actions@.len(),
                spec_to_v2_inputs(self.actions@.take(k as int)) == Ok::<Seq<V2Input>, int>(
                    inputs@,
                ),
                last_frame == frame_before_action(self.actions@, k as int),
            decreases self.actions@.len() - k,
        {
            let action = self.actions[k];
            proof {
                let t = self.actions@.take(k + 1);
                assert(t.drop_last() =~= self.actions@.take(k as int));
                assert(t[k as int] == action);
                assert(frame_before_action(t, k as int) == frame_before_action(
                    self.actions@,
                    k as int,
                ));
            }
            if action.frame < last_frame {
                proof {
                    lemma_to_v2_prefix_err(self.actions@, k as int);
                }
                return Err(ReplayError::UnrepresentableAction(action));
            }
            let delta = action.frame - last_frame;
            let data = match action.data {
                ActionData::Player(p) => V2InputData::Player(
                    V2PlayerInput {
                        hold: p.down,
                        player_2: p.player == Player::Player2,
                        button: p.action.to_v2_button(),
                    },
                ),
                ActionData::TPS(bits) => V2InputData::TPS(bits),
                ActionData::Restart { .. } => V2InputData::Restart,
                ActionData::RestartFull { .. } => V2InputData::RestartFull,
                ActionData::Death { .. } => V2InputData::Death,
                ActionData::Bugpoint => {
                    proof {
                        lemma_to_v2_prefix_err(self.actions@, k as int);
                    }
                    return Err(ReplayError::UnrepresentableAction(action));
                },
            };
            inputs.push(V2Input { delta, frame: action.frame, data });
            last_frame = action.frame;
            k = k + 1;
        }
        proof {
            assert(self.actions@.take(k as int) =~= self.actions@);
            lemma_to_v2_inputs_facts(self.actions@);
        }
        v2::Replay::write_inner(out, self.tps_bits, metadata, inputs.as_slice());
        Ok(())
    }

    /// Writes the replay in the SLC3 format, with the metadata `metadata`
    /// (whose tick rate counts, not the replay's): one action atom that the
    /// actions are added to in order.
    ///
    /// An action that the atom refuses is the error. Read back, a written
    /// replay gives the metadata and the same actions.
    pub fn write_v3(&self, out: &mut Vec<u8>, metadata: Metadata) -> (r: Result<(), ReplayError>)
        ensures
            final(out)@.len() >= old(out)@.len(),
            final(out)@.subrange(0, old(out)@.len() as int) == old(out)@,
            match spec_to_v3_actions(self.actions@) {
                Err(e) => r == Err::<(), ReplayError>(
                    ReplayError::V3Error(v3::replay::ReplayError::AtomError(e)),
                ) && final(out)@ == old(out)@,
                Ok(v) => (r is Ok <==> action_body_bytes(v).len() <= MAX_ATOM_SIZE) && (r is Ok
                    || r == Err::<(), ReplayError>(
                    ReplayError::V3Error(v3::replay::ReplayError::AtomError(AtomError::TooLarge)),
                )) && (8 + 36 * self.actions@.len() <= MAX_ATOM_SIZE ==> r is Ok),
            },
            r is Ok ==> final(out)@ == old(out)@ + replay_header() + le_bytes(64, 2)
                + metadata.spec_bytes() + atom_header(
                1,
                0,
                action_body_bytes(spec_to_v3_actions(self.actions@).unwrap()).len(),
            ) + action_body_bytes(spec_to_v3_actions(self.actions@).unwrap()) + seq![v3::replay::FOOTER],
            r is Ok ==> ({
                let written = final(out)@.subrange(old(out)@.len() as int, final(out)@.len() as int);
                &&& spec_read_replay(written) matches Ok((m, vs))
                &&& m == metadata
                &&& generic_of_atom_views(vs) == self.actions@
                &&& vs.len() == 1
                &&& vs[0] matches AtomView::Action { actions }
                &&& actions.len() == self.actions@.len()
                &&& forall|i: int|
                    0 <= i < actions.len() ==> generic_of_v3_action(#[trigger] actions[i])
                        == self.actions@[i] && frame_before_action(self.actions@, i)
                        <= self.actions@[i].frame && actions[i].delta == self.actions@[i].frame
                        - frame_before_action(self.actions@, i)
            }),
    {
        let mut atom = ActionAtom::new();
        let mut k: usize = 0;
        while k < self.actions.len()
            invariant
                k <= self.actions@.len(),
                spec_to_v3_actions(self.actions@.take(k as int)) == Ok::<Seq<V3Action>, AtomError>(
                    atom.actions@,
                ),
            decreases self.actions@.len() - k,
        {
            let action = self.actions[k];
            proof {
                let t = self.actions@.take(k + 1);
                assert(t.drop_last() =~= self.actions@.take(k as int));
                assert(t.last() == action);
            }
            let res = match action.data {
                ActionData::Player(p) => {
                    let action_type = match p.action {
                        PlayerAction::Jump => ActionType::Jump,
                        PlayerAction::Left => ActionType::Left,
                        PlayerAction::Right => ActionType::Right,
                    };
                    atom.add_player_action(
                        action.frame,
                        action_type,
                        p.down,
                        p.player == Player::Player2,
                    )
                },
                ActionData::Restart { seed } => atom.add_death_action(
                    action.frame,
                    ActionType::Restart,
                    seed,
                ),
                ActionData::RestartFull { seed } => atom.add_death_action(
                    action.frame,
                    ActionType::RestartFull,
                    seed,
                ),
                ActionData::Death { seed } => atom.add_death_action(
                    action.frame,
                    ActionType::Death,
                    seed,
                ),
                ActionData::TPS(bits) => atom.add_tps_action(action.frame, bits),
                ActionData::Bugpoint => atom.add_bugpoint_action(action.frame),
            };
            if let Err(e) = res {
                proof {
                    lemma_to_v3_prefix_err(self.actions@, k as int, e);
                }
                return Err(ReplayError::V3Error(v3::replay::ReplayError::AtomError(e)));
            }
            k = k + 1;
        }
        proof {
            assert(self.actions@.take(k as int) =~= self.actions@);
            lemma_to_v3_actions_facts(self.actions@);
            lemma_to_v3_deltas(self.actions@);
        }
        let ghost built = atom.actions@;
        let mut replay = v3::Replay::new(metadata);
        replay.add_atom(AtomVariant::Action(atom));
        proof {
            let atoms = replay.atoms.atoms@;
            assert(atoms.len() == 1);
            assert(round_trips(atoms[0]));
            assert(8 + 36 * self.actions@.len() <= MAX_ATOM_SIZE ==> atom_fits(atoms[0]));
        }
        match replay.write(out) {
            Ok(()) => {
                proof {
                    let atoms = replay.atoms.atoms@;
                    let cs = atoms.map_values(|a: AtomVariant| spec_atom_bytes(a));
                    assert(atoms.len() == 1);
                    assert(cs.drop_last() =~= Seq::<Seq<u8>>::empty());
                    assert(cs.last() == spec_atom_bytes(atoms[0]));
                    assert(flatten_bytes(Seq::<Seq<u8>>::empty()) =~= Seq::<u8>::empty());
                    assert(flatten_bytes(cs) =~= spec_atom_bytes(atoms[0]));
                    let written = out@.subrange(old(out)@.len() as int, out@.len() as int);
                    let vs = spec_read_replay(written).unwrap().1;
                    assert(vs.len() == 1);
                    let v = vs[0];
                    assert(vs.drop_last() =~= Seq::<AtomView>::empty());
                    let atom0 = replay.atoms.atoms@[0];
                    assert(reads_back_as(atom0, v));
                    if let AtomView::Action { actions } = v {
                        assert(actions.len() == built.len());
                        assert forall|i: int| 0 <= i < actions.len() implies generic_of_v3_action(
                            #[trigger] actions[i],
                        ) == generic_of_v3_action(built[i]) by {
                            assert(actions[i].same_content(built[i]));
                        }
                        assert forall|i: int| 0 <= i < actions.len() implies generic_of_v3_action(
                            #[trigger] actions[i],
                        ) == self.actions@[i] && frame_before_action(self.actions@, i)
                            <= self.actions@[i].frame && actions[i].delta == self.actions@[i].frame
                            - frame_before_action(self.actions@, i) by {
                            assert(generic_of_v3_action(actions[i]) == generic_of_v3_action(built[i]));
                            assert(generic_of_v3(built)[i] == self.actions@[i]);
                            assert(built[i].delta == self.actions@[i].frame - frame_before_action(
                                self.actions@,
                                i,
                            ));
                        }
                        assert(generic_of_v3(actions) =~= generic_of_v3(built));
                        assert(generic_of_atom_views(vs) == generic_of_atom_views(
                            Seq::<AtomView>::empty(),
                        ) + generic_of_v3(actions));
                        assert(generic_of_atom_views(vs) =~= generic_of_v3(built));
                    }
                }
                Ok(())
            },
            Err(e) => Err(ReplayError::V3Error(e)),
        }
    }
}

/// The actions go by frame, from least to greatest.
pub open spec fn sorted_by_frame(s: Seq<Action>) -> bool {
    forall|i: int, j: int| 0 <= i <= j < s.len() ==> s[i].frame <= s[j].frame
}

/// The actions on frame `f`, in their order.
pub open spec fn frame_run(s: Seq<Action>, f: u64) -> Seq<Action> {
    s.filter(|a: Action| a.frame == f)
}

/// Keeping none of the elements leaves nothing.
proof fn lemma_filter_none(s: Seq<Action>, f: u64)
    requires
        forall|j: int| 0 <= j < s.len() ==> (#[trigger] s[j]).frame != f,
    ensures
        frame_run(s, f) == Seq::<Action>::empty(),
    decreases s.len(),
{
    reveal_with_fuel(Seq::<_>::filter, 1);
    if s.len() > 0 {
        assert forall|j: int| 0 <= j < s.drop_last().len() implies (
        #[trigger] s.drop_last()[j]).frame != f by {
            assert(s.drop_last()[j] == s[j]);
        }
        lemma_filter_none(s.drop_last(), f);
    }
}

/// Inserting `x` before the actions of later frames keeps the runs of
/// each frame as appending it would.
proof fn lemma_insert_keeps_runs(s: Seq<Action>, k: int, x: Action, f: u64)
    requires
        0 <= k <= s.len(),
        forall|j: int| k <= j < s.len() ==> (#[trigger] s[j]).frame > x.frame,
    ensures
        frame_run(s.insert(k, x), f) == frame_run(s.push(x), f),
{
    let p = |a: Action| a.frame == f;
    let a1 = s.subrange(0, k);
    let b1 = s.subrange(k, s.len() as int);
    let one = seq![x];
    assert(s.insert(k, x) =~= a1 + (one + b1));
    assert(s =~= a1 + b1);
    assert(s.push(x) =~= (a1 + b1) + one);
    Seq::filter_distributes_over_add(a1, one + b1, p);
    Seq::filter_distributes_over_add(one, b1, p);
    Seq::filter_distributes_over_add(a1, b1, p);
    Seq::filter_distributes_over_add(a1 + b1, one, p);
    reveal_with_fuel(Seq::<_>::filter, 2);
    assert(one.drop_last() =~= Seq::<Action>::empty());
    if f == x.frame {
        assert forall|j: int| 0 <= j < b1.len() implies (#[trigger] b1[j]).frame != f by {
            assert(b1[j] == s[k + j]);
        }
        lemma_filter_none(b1, f);
        assert(frame_run(s.insert(k, x), f) =~= a1.filter(p) + one);
        assert(frame_run(s.push(x), f) =~= a1.filter(p) + one);
    } else {
        assert(one.filter(p) =~= Seq::<Action>::empty());
        assert(frame_run(s.insert(k, x), f) =~= a1.filter(p) + b1.filter(p));
        assert(frame_run(s.push(x), f) =~= a1.filter(p) + b1.filter(p));
    }
}

impl GenericReplay {
    /// Orders the actions by frame, from least to greatest; actions of one
    /// frame keep their order.
    pub fn order_inputs(&mut self)
        ensures
            final(self).tps_bits == old(self).tps_bits,
            sorted_by_frame(final(self).actions@),
            forall|f: u64|
                #[trigger] frame_run(final(self).actions@, f) == frame_run(old(self).actions@, f),
    {
        let ghost old_actions = self.actions@;
        let mut sorted: Vec<Action> = Vec::new();
        let mut i: usize = 0;
        proof {
            reveal_with_fuel(Seq::<_>::filter, 1);
            assert(old_actions.take(0) =~= Seq::<Action>::empty());
        }
        while i < self.actions.len()
            invariant
                self.actions@ == old_actions,
                i <= old_actions.len(),
                sorted_by_frame(sorted@),
                forall|f: u64|
                    #[trigger] frame_run(sorted@, f) == frame_run(old_actions.take(i as int), f),
            decreases old_actions.len() - i,
        {
            let x = self.actions[i];
            let mut k: usize = sorted.len();
            while k > 0 && sorted[k - 1].frame > x.frame
                invariant
                    k <= sorted@.len(),
                    forall|j: int| k <= j < sorted@.len() ==> (#[trigger] sorted@[j]).frame > x.frame,
                decreases k,
            {
                k = k - 1;
            }
            let ghost before = sorted@;
            sorted.insert(k, x);
            proof {
                assert forall|f: u64| #[trigger]
                    frame_run(sorted@, f) == frame_run(old_actions.take(i + 1), f) by {
                    lemma_insert_keeps_runs(before, k as int, x, f);
                    reveal_with_fuel(Seq::<_>::filter, 1);
                    assert(old_actions.take(i + 1).drop_last() =~= old_actions.take(i as int));
                    assert(before.push(x).drop_last() =~= before);
                    assert(frame_run(before, f) == frame_run(old_actions.take(i as int), f));
                }
                assert forall|a: int, b: int| 0 <= a <= b < sorted@.len() implies sorted@[a].frame
                    <= sorted@[b].frame by {
                    if k > 0 {
                        assert(before[k - 1].frame <= x.frame);
                    }
                    if a < k && b < k {
                    } else if a < k && b == k {
                        assert(before[a].frame <= before[k - 1].frame);
                    } else if a < k {
                        assert(sorted@[b] == before[b - 1]);
                    } else if a == k && b > k {
                        assert(sorted@[b] == before[b - 1]);
                    } else if a > k {
                        assert(sorted@[a] == before[a - 1]);
                        assert(sorted@[b] == before[b - 1]);
                    }
                }
            }
            i = i + 1;
        }
        proof {
            assert(old_actions.take(i as int) =~= old_actions);
        }
        self.actions = sorted;
    }
}

/// An error of the conversion to SLC2 at a prefix stays the error of the whole.
proof fn lemma_to_v2_err_extends(actions: Seq<Action>, j: int, k: int)
    requires
        0 <= j <= actions.len(),
        spec_to_v2_inputs(actions.take(j)) == Err::<Seq<V2Input>, int>(k),
    ensures
        spec_to_v2_inputs(actions) == Err::<Seq<V2Input>, int>(k),
    decreases actions.len() - j,
{
    if j == actions.len() {
        assert(actions.take(j) =~= actions);
    } else {
        assert(actions.take(j + 1).drop_last() =~= actions.take(j));
        lemma_to_v2_err_extends(actions, j + 1, k);
    }
}

/// An action that the conversion to SLC2 stops at is the first one it refuses.
proof fn lemma_to_v2_prefix_err(actions: Seq<Action>, k: int)
    requires
        0 <= k < actions.len(),
        spec_to_v2_inputs(actions.take(k)) is Ok,
        actions[k].data is Bugpoint || actions[k].frame < frame_before_action(actions, k),
    ensures
        spec_to_v2_inputs(actions) == Err::<Seq<V2Input>, int>(k),
{
    let t = actions.take(k + 1);
    assert(t.drop_last() =~= actions.take(k));
    assert(t[k] == actions[k]);
    assert(frame_before_action(t, k) == frame_before_action(actions, k));
    lemma_to_v2_err_extends(actions, k + 1, k);
}

/// What converting to SLC2 gives, where it succeeds: an input for each
/// action, on its frame, chained by deltas, representable where its delta
/// fits, and standing for the action without its seed.
proof fn lemma_to_v2_inputs_facts(actions: Seq<Action>)
    requires
        spec_to_v2_inputs(actions) is Ok,
    ensures
        ({
            let inputs = spec_to_v2_inputs(actions)->Ok_0;
            &&& inputs.len() == actions.len()
            &&& forall|k: int| 0 <= k < inputs.len() ==> (#[trigger] inputs[k]).frame == actions[k].frame
            &&& frames_chained(inputs)
            &&& forall|k: int|
                0 <= k < inputs.len() ==> (#[trigger] inputs[k]).delta < 0x800_0000_0000_0000
                    ==> representable(inputs[k])
            &&& generic_of_v2(inputs) == actions.map_values(|a: Action| seedless(a))
        }),
    decreases actions.len(),
{
    let inputs = spec_to_v2_inputs(actions)->Ok_0;
    if actions.len() == 0 {
        assert(actions.map_values(|a: Action| seedless(a)) =~= Seq::<Action>::empty());
    } else {
        let n = actions.len() as int;
        let pre = actions.drop_last();
        lemma_to_v2_inputs_facts(pre);
        let ipre = spec_to_v2_inputs(pre)->Ok_0;
        let a = actions[n - 1];
        let last = frame_before_action(actions, n - 1);
        let x = v2_input_of(a, (a.frame - last) as u64);
        assert(inputs == ipre.push(x));
        assert forall|k: int| 0 <= k < inputs.len() implies #[trigger] frame_link(inputs, k) by {
            if k < n - 1 {
                assert(frame_link(ipre, k));
                if k > 0 {
                    assert(inputs[k - 1] == ipre[k - 1]);
                }
            } else if k > 0 {
                assert(inputs[k - 1] == ipre[k - 1]);
                assert(ipre[k - 1].frame == pre[k - 1].frame);
            }
        }
        assert forall|k: int| 0 <= k < inputs.len() implies (#[trigger] inputs[k]).frame
            == actions[k].frame by {
            if k < n - 1 {
                assert(ipre[k].frame == pre[k].frame);
            }
        }
        let g = generic_of_v2_input(x);
        assert(g == Some(seedless(a))) by {
            match a.data {
                ActionData::Player(p) => {
                    match p.action {
                        PlayerAction::Jump => {},
                        PlayerAction::Left => {},
                        PlayerAction::Right => {},
                    }
                    match p.player {
                        Player::Player1 => {},
                        Player::Player2 => {},
                    }
                },
                _ => {},
            }
        }
        assert(inputs.drop_last() =~= ipre);
        let f = |b: Action| seedless(b);
        assert(actions.map_values(f) =~= pre.map_values(f).push(seedless(a)));
    }
}

/// An error of the conversion to SLC3 at a prefix stays the error of the whole.
proof fn lemma_to_v3_err_extends(actions: Seq<Action>, j: int, e: AtomError)
    requires
        0 <= j <= actions.len(),
        spec_to_v3_actions(actions.take(j)) == Err::<Seq<V3Action>, AtomError>(e),
    ensures
        spec_to_v3_actions(actions) == Err::<Seq<V3Action>, AtomError>(e),
    decreases actions.len() - j,
{
    if j == actions.len() {
        assert(actions.take(j) =~= actions);
    } else {
        assert(actions.take(j + 1).drop_last() =~= actions.take(j));
        lemma_to_v3_err_extends(actions, j + 1, e);
    }
}

/// An action that the atom refuses stops the conversion to SLC3 with its error.
proof fn lemma_to_v3_prefix_err(actions: Seq<Action>, k: int, e: AtomError)
    requires
        0 <= k < actions.len(),
        spec_to_v3_actions(actions.take(k)) matches Ok(acc) && spec_add_action(acc, actions[k])
            == Err::<V3Action, AtomError>(e),
    ensures
        spec_to_v3_actions(actions) == Err::<Seq<V3Action>, AtomError>(e),
{
    let t = actions.take(k + 1);
    assert(t.drop_last() =~= actions.take(k));
    assert(t.last() == actions[k]);
    lemma_to_v3_err_extends(actions, k + 1, e);
}

/// What converting to SLC3 gives, where it succeeds: actions that validate,
/// carry no swift marks, and stand for the generic actions.
proof fn lemma_to_v3_actions_facts(actions: Seq<Action>)
    requires
        spec_to_v3_actions(actions) is Ok,
    ensures
        ({
            let v = spec_to_v3_actions(actions).unwrap();
            &&& v.len() == actions.len()
            &&& well_timed(v)
            &&& spec_validate(v, 0) is Ok
            &&& forall|i: int| 0 <= i < v.len() ==> !(#[trigger] v[i]).swift
            &&& swift_wf(v)
            &&& generic_of_v3(v) == actions
        }),
    decreases actions.len(),
{
    let v = spec_to_v3_actions(actions).unwrap();
    if actions.len() == 0 {
        assert(generic_of_v3(v) =~= actions);
    } else {
        let n = actions.len() as int;
        let pre = actions.drop_last();
        lemma_to_v3_actions_facts(pre);
        let acc = spec_to_v3_actions(pre).unwrap();
        let a = actions.last();
        let x = spec_add_action(acc, a).unwrap();
        assert(v == acc.push(x));
        assert forall|i: int| 0 <= i < v.len() implies #[trigger] timed_at(v, i, 0) by {
            if i < n - 1 {
                assert(timed_at(acc, i, 0));
                if i > 0 {
                    assert(v[i - 1] == acc[i - 1]);
                }
            } else if i > 0 {
                assert(v[i - 1] == acc[i - 1]);
            }
        }
        lemma_validate_iff_well_timed(v, 0);
        assert forall|i: int| 0 <= i < v.len() implies !(#[trigger] v[i]).swift by {
            if i < n - 1 {
                assert(!acc[i].swift);
            }
        }
        assert(generic_of_v3_action(x) == a) by {
            match a.data {
                ActionData::Player(p) => {
                    match p.action {
                        PlayerAction::Jump => {},
                        PlayerAction::Left => {},
                        PlayerAction::Right => {},
                    }
                    match p.player {
                        Player::Player1 => {},
                        Player::Player2 => {},
                    }
                },
                _ => {},
            }
        }
        assert(generic_of_v3(v) =~= generic_of_v3(acc).push(generic_of_v3_action(x)));
        assert(actions =~= pre.push(a));
    }
}

/// Each SLC3 action comes as many frames after the action before it as
/// its generic action does.
proof fn lemma_to_v3_deltas(actions: Seq<Action>)
    requires
        spec_to_v3_actions(actions) is Ok,
    ensures
        forall|i: int|
            0 <= i < actions.len() ==> frame_before_action(actions, i) <= actions[i].frame
                && (#[trigger] spec_to_v3_actions(actions).unwrap()[i]).delta == actions[i].frame
                - frame_before_action(actions, i),
    decreases actions.len(),
{
    if actions.len() > 0 {
        let n = actions.len() as int;
        let pre = actions.drop_last();
        lemma_to_v3_deltas(pre);
        lemma_to_v3_actions_facts(pre);
        let acc = spec_to_v3_actions(pre).unwrap();
        let v = spec_to_v3_actions(actions).unwrap();
        let a = actions.last();
        let x = spec_add_action(acc, a).unwrap();
        assert(v == acc.push(x));
        if n > 1 {
            assert(generic_of_v3(acc)[n - 2] == generic_of_v3_action(acc[n - 2]));
            assert(prev_frame(acc) == acc[n - 2].frame);
            assert(pre[n - 2] == actions[n - 2]);
        }
        assert(prev_frame(acc) == frame_before_action(actions, n - 1));
        assert(x.delta == a.frame - prev_frame(acc));
        assert forall|i: int| 0 <= i < actions.len() implies frame_before_action(actions, i)
            <= actions[i].frame && (#[trigger] v[i]).delta == actions[i].frame
            - frame_before_action(actions, i) by {
            if i < n - 1 {
                assert(v[i] == acc[i]);
                assert(pre[i] == actions[i]);
                if i > 0 {
                    assert(pre[i - 1] == actions[i - 1]);
                }
                assert(frame_before_action(pre, i) == frame_before_action(actions, i));
            }
        }
    }
}

/// Actions sorted by frame, as `GenericReplay::order_inputs` leaves them,
/// are never refused by the SLC3 conversion for going back in frames.
pub proof fn lemma_sorted_v3_never_goes_back(actions: Seq<Action>)
    requires
        sorted_by_frame(actions),
    ensures
        !(spec_to_v3_actions(actions) matches Err(AtomError::NonMonotonicFrame { .. })),
    decreases actions.len(),
{
    if actions.len() > 0 {
        let pre = actions.drop_last();
        let a = actions.last();
        assert(sorted_by_frame(pre)) by {
            assert forall|i: int, j: int| 0 <= i <= j < pre.len() implies pre[i].frame <= pre[j].frame by {
                assert(pre[i] == actions[i] && pre[j] == actions[j]);
            }
        }
        lemma_sorted_v3_never_goes_back(pre);
        if spec_to_v3_actions(pre) is Ok {
            lemma_to_v3_actions_facts(pre);
            let acc = spec_to_v3_actions(pre).unwrap();
            if pre.len() > 0 {
                assert(acc.last() == acc[acc.len() - 1]);
                assert(generic_of_v3(acc)[pre.len() - 1] == pre[pre.len() - 1]);
                assert(prev_frame(acc) == pre.last().frame);
                assert(pre.last() == actions[actions.len() - 2]);
                assert(a.frame >= prev_frame(acc));
            }
            assert(!(spec_add_action(acc, a) matches Err(AtomError::NonMonotonicFrame { .. })));
        }
    }
}

/// Actions sorted by frame, as `GenericReplay::order_inputs` leaves them,
/// are refused by the SLC2 conversion only at a bugpoint.
pub proof fn lemma_sorted_v2_refuses_only_bugpoints(actions: Seq<Action>)
    requires
        sorted_by_frame(actions),
    ensures
        spec_to_v2_inputs(actions) matches Err(k) ==> 0 <= k < actions.len()
            && actions[k].data is Bugpoint,
    decreases actions.len(),
{
    if actions.len() > 0 {
        let pre = actions.drop_last();
        assert(sorted_by_frame(pre)) by {
            assert forall|i: int, j: int| 0 <= i <= j < pre.len() implies pre[i].frame <= pre[j].frame by {
                assert(pre[i] == actions[i] && pre[j] == actions[j]);
            }
        }
        lemma_sorted_v2_refuses_only_bugpoints(pre);
        if let Err(k) = spec_to_v2_inputs(pre) {
            assert(pre[k] == actions[k]);
        } else {
            let n = actions.len() - 1;
            if n > 0 {
                assert(actions[n - 1].frame <= actions[n].frame);
            }
        }
    }
}

/// The SLC2 inputs of generic actions, one by one: the `k`th input is the
/// `k`th action, on its frame, `delta` frames after the action before it,
/// with its data as SLC2 holds it.
pub proof fn lemma_v2_inputs_of_actions(actions: Seq<Action>)
    requires
        spec_to_v2_inputs(actions) is Ok,
    ensures
        spec_to_v2_inputs(actions)->Ok_0.len() == actions.len(),
        forall|k: int|
            0 <= k < actions.len() ==> frame_before_action(actions, k) <= actions[k].frame
                && #[trigger] spec_to_v2_inputs(actions)->Ok_0[k] == v2_input_of(
                actions[k],
                (actions[k].frame - frame_before_action(actions, k)) as u64,
            ),
    decreases actions.len(),
{
    if actions.len() > 0 {
        let pre = actions.drop_last();
        let n = actions.len() - 1;
        assert(spec_to_v2_inputs(pre) is Ok);
        lemma_v2_inputs_of_actions(pre);
        let ins_pre = spec_to_v2_inputs(pre)->Ok_0;
        let a = actions[n];
        let last = frame_before_action(actions, n);
        assert(!(a.data is Bugpoint || a.frame < last));
        let ins = spec_to_v2_inputs(actions)->Ok_0;
        assert(ins == ins_pre.push(v2_input_of(a, (a.frame - last) as u64)));
        assert forall|k: int| 0 <= k < actions.len() implies frame_before_action(actions, k)
            <= actions[k].frame && #[trigger] ins[k] == v2_input_of(
            actions[k],
            (actions[k].frame - frame_before_action(actions, k)) as u64,
        ) by {
            if k < n {
                assert(pre[k] == actions[k]);
                if k > 0 {
                    assert(pre[k - 1] == actions[k - 1]);
                }
                assert(frame_before_action(pre, k) == frame_before_action(actions, k));
                assert(ins[k] == ins_pre[k]);
                assert(spec_to_v2_inputs(pre)->Ok_0[k] == ins_pre[k]);
            }
        }
    }
}

/// The SLC3 actions of generic actions, one by one: the `k`th stands for
/// the `k`th generic action (frame, type, hold, player, seed and tick rate)
/// and comes `delta` frames after the action before it.
pub proof fn lemma_v3_actions_of_actions(actions: Seq<Action>)
    requires
        spec_to_v3_actions(actions) is Ok,
    ensures
        spec_to_v3_actions(actions).unwrap().len() == actions.len(),
        forall|k: int|
            0 <= k < actions.len() ==> generic_of_v3_action(
                #[trigger] spec_to_v3_actions(actions).unwrap()[k],
            ) == actions[k] && frame_before_action(actions, k) <= actions[k].frame
                && spec_to_v3_actions(actions).unwrap()[k].delta == actions[k].frame
                - frame_before_action(actions, k),
{
    lemma_to_v3_actions_facts(actions);
    lemma_to_v3_deltas(actions);
    let v = spec_to_v3_actions(actions).unwrap();
    assert forall|k: int| 0 <= k < actions.len() implies generic_of_v3_action(#[trigger] v[k])
        == actions[k] by {
        assert(generic_of_v3(v)[k] == generic_of_v3_action(v[k]));
    }
}

/// The SLC2 input written for each generic action holds the same data: a
/// restart, full restart or death as such, a tick-rate change with its
/// rate, and a player action as a player input that holds exactly where
/// the action is down, for player 2 exactly where the action is, with
/// button 1 for a jump, 2 for left and 3 for right.
pub proof fn lemma_v2_input_data(actions: Seq<Action>)
    requires
        spec_to_v2_inputs(actions) is Ok,
    ensures
        forall|k: int|
            0 <= k < actions.len() ==> {
                let a = actions[k];
                let d = (#[trigger] spec_to_v2_inputs(actions)->Ok_0[k]).data;
                &&& a.data is Restart ==> d == V2InputData::Restart
                &&& a.data is RestartFull ==> d == V2InputData::RestartFull
                &&& a.data is Death ==> d == V2InputData::Death
                &&& a.data is TPS ==> d == V2InputData::TPS(a.data->TPS_0)
                &&& a.data is Player ==> d == V2InputData::Player(
                    V2PlayerInput {
                        hold: a.data->Player_0.down,
                        player_2: a.data->Player_0.player is Player2,
                        button: if a.data->Player_0.action is Jump {
                            1
                        } else if a.data->Player_0.action is Left {
                            2
                        } else {
                            3
                        },
                    },
                )
            },
{
    lemma_v2_inputs_of_actions(actions);
}

/// The SLC3 action written for each generic action is on its frame and of
/// its kind: a player action keeps its button as the action type, holds
/// exactly where it is down and is for player 2 exactly where it is; a
/// restart, full restart or death keeps its seed; a tick-rate change keeps
/// its rate; a bugpoint stays a bugpoint.
pub proof fn lemma_v3_action_fields(actions: Seq<Action>)
    requires
        spec_to_v3_actions(actions) is Ok,
    ensures
        forall|k: int|
            0 <= k < actions.len() ==> {
                let a = actions[k];
                let x = #[trigger] spec_to_v3_actions(actions).unwrap()[k];
                &&& x.frame == a.frame
                &&& a.data is Player ==> {
                    let p = a.data->Player_0;
                    &&& x.holding == p.down
                    &&& x.player2 == (p.player is Player2)
                    &&& p.action is Jump ==> x.action_type is Jump
                    &&& p.action is Left ==> x.action_type is Left
                    &&& p.action is Right ==> x.action_type is Right
                }
                &&& a.data is Restart ==> x.action_type is Restart && x.seed
                    == a.data->Restart_seed
                &&& a.data is RestartFull ==> x.action_type is RestartFull && x.seed
                    == a.data->RestartFull_seed
                &&& a.data is Death ==> x.action_type is Death && x.seed == a.data->Death_seed
                &&& a.data is TPS ==> x.action_type is TPS && x.tps_bits == a.data->TPS_0
                &&& a.data is Bugpoint ==> x.action_type is Bugpoint
            },
{
    lemma_v3_actions_of_actions(actions);
    let v = spec_to_v3_actions(actions).unwrap();
    assert forall|k: int| 0 <= k < actions.len() implies {
        let a = actions[k];
        let x = #[trigger] v[k];
        &&& x.frame == a.frame
        &&& a.data is Player ==> {
            let p = a.data->Player_0;
            &&& x.holding == p.down
            &&& x.player2 == (p.player is Player2)
            &&& p.action is Jump ==> x.action_type is Jump
            &&& p.action is Left ==> x.action_type is Left
            &&& p.action is Right ==> x.action_type is Right
        }
        &&& a.data is Restart ==> x.action_type is Restart && x.seed == a.data->Restart_seed
        &&& a.data is RestartFull ==> x.action_type is RestartFull && x.seed
            == a.data->RestartFull_seed
        &&& a.data is Death ==> x.action_type is Death && x.seed == a.data->Death_seed
        &&& a.data is TPS ==> x.action_type is TPS && x.tps_bits == a.data->TPS_0
        &&& a.data is Bugpoint ==> x.action_type is Bugpoint
    } by {
        let x = v[k];
        assert(generic_of_v3_action(x) == actions[k]);
        match x.action_type {
            ActionType::Jump => {},
            ActionType::Left => {},
            ActionType::Right => {},
            ActionType::Restart => {},
            ActionType::RestartFull => {},
            ActionType::Death => {},
            ActionType::TPS => {},
            ActionType::Bugpoint => {},
        }
        if x.player2 {
        } else {
        }
    }
}

} // verus!
