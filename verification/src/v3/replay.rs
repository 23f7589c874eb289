//! SLC3 replays: a header, the metadata block, the atoms and a footer byte.

use vstd::prelude::*;
use vstd::slice::slice_subrange;
use crate::bytes::{
    le_value,
    le_bytes,
    read_le,
    write_le,
    flatten_bytes,
    lemma_le_round_trip,
    lemma_pow256_values,
};
use crate::v3::atom::{
    AtomError,
    AtomRegistry,
    AtomVariant,
    AtomView,
    spec_read_atoms,
    atom_ok,
    atom_error,
    atom_fits,
    round_trips,
    reads_back_as,
    spec_atom_bytes,
    opaque_view_bytes,
    lemma_opaque_atoms_reproduce,
};
use crate::v3::metadata::{
    Metadata,
    METADATA_SIZE,
    zeros,
    lemma_metadata_round_trip,
    lemma_parse_canonical,
};
use crate::v3::action::{Action, ActionType};
use crate::action::{
    Action as GenericAction,
    ActionData,
    Player,
    PlayerAction,
    PlayerInput as GenericPlayerInput,
};
use crate::replay::GenericReplay;

verus! {

/// Why an SLC3 replay could not be read or written.
#[derive(Clone, Copy, Debug, PartialEq, Eq, Structural)]
pub enum ReplayError {
    InvalidHeader,
    InvalidMetadataSize,
    InvalidFooter,
    AtomError(AtomError),
    /// The data ends before the replay does.
    UnexpectedEof,
}

/// The eight bytes that open an SLC3 replay: "SLC3RPLY".
pub open spec fn replay_header() -> Seq<u8> {
    seq![0x53u8, 0x4Cu8, 0x43u8, 0x33u8, 0x52u8, 0x50u8, 0x4Cu8, 0x59u8]
}

/// The byte that closes an SLC3 replay.
pub const FOOTER: u8 = 0xCC;

/// Reads a replay: the header, the metadata size (which must be 64), the
/// metadata, then atoms up to the last byte, which is the footer.
pub open spec fn spec_read_replay(data: Seq<u8>) -> Result<(Metadata, Seq<AtomView>), ReplayError> {
    if data.len() < 8 {
        Err(ReplayError::UnexpectedEof)
    } else if data.subrange(0, 8) != replay_header() {
        Err(ReplayError::InvalidHeader)
    } else if data.len() < 10 {
        Err(ReplayError::UnexpectedEof)
    } else if le_value(data.subrange(8, 10)) != 64 {
        Err(ReplayError::InvalidMetadataSize)
    } else if data.len() < 75 {
        Err(ReplayError::UnexpectedEof)
    } else {
        match spec_read_atoms(data.subrange(74, data.len() - 1), 0, Seq::empty()) {
            Err(e) => Err(ReplayError::AtomError(e)),
            Ok(atoms) => if data[data.len() - 1] != FOOTER {
                Err(ReplayError::InvalidFooter)
            } else {
                Ok((Metadata::spec_parse(data.subrange(10, 74)), atoms))
            },
        }
    }
}

/// Tells whether `data` opens with the SLC3 header.
pub fn has_replay_header(data: &[u8]) -> (r: bool)
    ensures
        r == (data@.len() >= 8 && data@.subrange(0, 8) == replay_header()),
{
    if data.len() < 8 {
        return false;
    }
    let r = data[0] == 0x53 && data[1] == 0x4C && data[2] == 0x43 && data[3] == 0x33 && data[4]
        == 0x52 && data[5] == 0x50 && data[6] == 0x4C && data[7] == 0x59;
    proof {
        if r {
            assert(data@.subrange(0, 8) =~= replay_header());
        } else {
            if data@.subrange(0, 8) == replay_header() {
                assert(data@.subrange(0, 8)[0] == data@[0]);
                assert(data@.subrange(0, 8)[1] == data@[1]);
                assert(data@.subrange(0, 8)[2] == data@[2]);
                assert(data@.subrange(0, 8)[3] == data@[3]);
                assert(data@.subrange(0, 8)[4] == data@[4]);
                assert(data@.subrange(0, 8)[5] == data@[5]);
                assert(data@.subrange(0, 8)[6] == data@[6]);
                assert(data@.subrange(0, 8)[7] == data@[7]);
            }
        }
    }
    r
}

/// An SLC3 replay.
pub struct Replay {
    pub metadata: Metadata,
    pub atoms: AtomRegistry,
}

impl Replay {
    /// A replay with the given metadata and no atoms.
    pub fn new(metadata: Metadata) -> (r: Self)
        ensures
            r.metadata == metadata,
            r.atoms.atoms@ == Seq::<AtomVariant>::empty(),
    {
        Replay { metadata, atoms: AtomRegistry { atoms: Vec::new() } }
    }

    /// Adds an atom after the others.
    pub fn add_atom(&mut self, atom: AtomVariant)
        ensures
            final(self).metadata == old(self).metadata,
            final(self).atoms.atoms@ == old(self).atoms.atoms@.push(atom),
    {
        self.atoms.atoms.push(atom);
    }

    /// Reads a replay that fills `data`.
    pub fn read(data: &[u8]) -> (r: Result<Self, ReplayError>)
        ensures
            match spec_read_replay(data@) {
                Ok((m, vs)) => (r matches Ok(rep) && rep.metadata == m && rep.atoms.views() == vs),
                Err(e) => r == Err::<Self, ReplayError>(e),
            },
    {
        let len = data.len();
        if len < 8 {
            return Err(ReplayError::UnexpectedEof);
        }
        if !has_replay_header(data) {
            return Err(ReplayError::InvalidHeader);
        }
        if len < 10 {
            return Err(ReplayError::UnexpectedEof);
        }
        let meta_size = read_le(data, 8, 2);
        if meta_size != METADATA_SIZE as u64 {
            return Err(ReplayError::InvalidMetadataSize);
        }
        if len < 75 {
            return Err(ReplayError::UnexpectedEof);
        }
        let metadata = match Metadata::read(data, 10) {
            Some(m) => m,
            None => {
                return Err(ReplayError::UnexpectedEof);
            },
        };
        let region = slice_subrange(data, 74, len - 1);
        let atoms = match AtomRegistry::read(region) {
            Ok(a) => a,
            Err(e) => {
                return Err(ReplayError::AtomError(e));
            },
        };
        if data[len - 1] != FOOTER {
            return Err(ReplayError::InvalidFooter);
        }
        Ok(Replay { metadata, atoms })
    }

    /// Writes the replay: the header, the metadata size and block, the
    /// atoms, the footer. The first atom that cannot be written ends the
    /// writing with its error.
    ///
    /// Written with success, the replay reads back with the same metadata,
    /// and the atoms that round-trip read back as they were.
    pub fn write(&self, out: &mut Vec<u8>) -> (r: Result<(), ReplayError>)
        ensures
            final(out)@.len() >= old(out)@.len(),
            final(out)@.subrange(0, old(out)@.len() as int) == old(out)@,
            r is Ok <==> forall|k: int|
                0 <= k < self.atoms.atoms@.len() ==> atom_ok(#[trigger] self.atoms.atoms@[k]),
            r matches Err(e) ==> exists|k: int|
                0 <= k < self.atoms.atoms@.len() && (forall|j: int|
                    0 <= j < k ==> atom_ok(#[trigger] self.atoms.atoms@[j])) && !atom_ok(
                    #[trigger] self.atoms.atoms@[k],
                ) && e == ReplayError::AtomError(atom_error(self.atoms.atoms@[k]))
                    && final(out)@ == old(out)@ + replay_header() + le_bytes(64, 2)
                    + self.metadata.spec_bytes() + flatten_bytes(
                    self.atoms.atoms@.take(k).map_values(|a: AtomVariant| spec_atom_bytes(a)),
                ),
            (forall|k: int|
                0 <= k < self.atoms.atoms@.len() ==> atom_fits(#[trigger] self.atoms.atoms@[k]))
                ==> r is Ok,
            r is Ok ==> final(out)@ == old(out)@ + replay_header() + le_bytes(64, 2)
                + self.metadata.spec_bytes() + flatten_bytes(
                self.atoms.atoms@.map_values(|a: AtomVariant| spec_atom_bytes(a)),
            ) + seq![FOOTER],
            r is Ok && (forall|k: int|
                0 <= k < self.atoms.atoms@.len() ==> round_trips(#[trigger] self.atoms.atoms@[k]))
                ==> ({
                let written = final(out)@.subrange(old(out)@.len() as int, final(out)@.len() as int);
                &&& spec_read_replay(written) matches Ok((m, vs))
                &&& m == self.metadata
                &&& vs.len() == self.atoms.atoms@.len()
                &&& forall|k: int|
                    0 <= k < vs.len() ==> reads_back_as(self.atoms.atoms@[k], #[trigger] vs[k])
            }),
    {
        let ghost old_out = out@;
        out.push(0x53u8);
        out.push(0x4Cu8);
        out.push(0x43u8);
        out.push(0x33u8);
        out.push(0x52u8);
        out.push(0x50u8);
        out.push(0x4Cu8);
        out.push(0x59u8);
        write_le(out, METADATA_SIZE as u64, 2);
        self.metadata.write(out);
        let ghost before_atoms = out@;
        proof {
            lemma_metadata_round_trip(self.metadata);
            lemma_pow256_values();
            lemma_le_round_trip(64, 2);
            assert(before_atoms =~= old_out + (replay_header() + le_bytes(64, 2)
                + self.metadata.spec_bytes()));
        }
        let res = self.atoms.write(out);
        if let Err(e) = res {
            proof {
                assert(out@.subrange(0, old_out.len() as int) =~= out@.subrange(
                    0,
                    before_atoms.len() as int,
                ).subrange(0, old_out.len() as int));
                let k = choose|k: int|
                    0 <= k < self.atoms.atoms@.len() && (forall|j: int|
                        0 <= j < k ==> atom_ok(#[trigger] self.atoms.atoms@[j])) && !atom_ok(
                        #[trigger] self.atoms.atoms@[k],
                    ) && e == atom_error(self.atoms.atoms@[k]) && out@ == before_atoms
                        + flatten_bytes(
                        self.atoms.atoms@.take(k).map_values(|a: AtomVariant| spec_atom_bytes(a)),
                    );
                assert(out@ =~= old_out + replay_header() + le_bytes(64, 2)
                    + self.metadata.spec_bytes() + flatten_bytes(
                    self.atoms.atoms@.take(k).map_values(|a: AtomVariant| spec_atom_bytes(a)),
                ));
            }
            return Err(ReplayError::AtomError(e));
        }
        let ghost after_atoms = out@;
        out.push(FOOTER);
        proof {
            let head = replay_header() + le_bytes(64, 2) + self.metadata.spec_bytes();
            let region = after_atoms.subrange(before_atoms.len() as int, after_atoms.len() as int);
            assert(region =~= flatten_bytes(
                self.atoms.atoms@.map_values(|a: AtomVariant| spec_atom_bytes(a)),
            ));
            assert(out@ =~= old_out + head + region + seq![FOOTER]);
            assert(out@.subrange(0, old_out.len() as int) =~= old_out);
            assert(out@.subrange(old_out.len() as int, old_out.len() as int + 74) =~= head);
            let written = out@.subrange(old_out.len() as int, out@.len() as int);
            assert(written =~= head + region + seq![FOOTER]);
            assert(written.subrange(0, 8) =~= replay_header());
            assert(written.subrange(8, 10) =~= le_bytes(64, 2));
            assert(written.subrange(10, 74) =~= self.metadata.spec_bytes());
            assert(written.subrange(74, written.len() - 1) =~= region);
            assert(written[written.len() - 1] == FOOTER);
        }
        Ok(())
    }
}

/// Reading a replay whose atoms are all opaque and whose metadata padding
/// is zero, then writing what was read, gives back the same bytes: every
/// atom can be written, and the written bytes are the data.
pub proof fn lemma_rewrite_reproduces(data: Seq<u8>, rep: Replay)
    requires
        spec_read_replay(data) == Ok::<(Metadata, Seq<AtomView>), ReplayError>(
            (rep.metadata, rep.atoms.views()),
        ),
        forall|k: int| 0 <= k < rep.atoms.atoms@.len() ==> #[trigger] rep.atoms.atoms@[k] is Opaque,
        data.subrange(38, 74) == zeros(36),
    ensures
        forall|k: int| 0 <= k < rep.atoms.atoms@.len() ==> atom_ok(#[trigger] rep.atoms.atoms@[k]),
        data == replay_header() + le_bytes(64, 2) + rep.metadata.spec_bytes() + flatten_bytes(
            rep.atoms.atoms@.map_values(|a: AtomVariant| spec_atom_bytes(a)),
        ) + seq![FOOTER],
{
    let atoms = rep.atoms.atoms@;
    let vs = rep.atoms.views();
    let region = data.subrange(74, data.len() - 1);
    let block = data.subrange(10, 74);
    assert(block.subrange(28, 64) =~= data.subrange(38, 74));
    lemma_parse_canonical(block);
    lemma_pow256_values();
    lemma_le_round_trip(64, 2);
    crate::bytes::lemma_le_bytes_of_value(data.subrange(8, 10));
    assert(data.subrange(8, 10) =~= le_bytes(64, 2));
    assert forall|k: int| 0 <= k < vs.len() implies #[trigger] vs[k] is Opaque by {
        assert(vs[k] == atoms[k]@);
        assert(atoms[k] is Opaque);
    }
    lemma_opaque_atoms_reproduce(region, 0, Seq::empty());
    assert(vs.skip(0) =~= vs);
    let f = |v: AtomView| opaque_view_bytes(v);
    let g = |a: AtomVariant| spec_atom_bytes(a);
    assert(vs.map_values(f) =~= atoms.map_values(g)) by {
        assert forall|k: int| 0 <= k < atoms.len() implies vs.map_values(f)[k] == #[trigger] atoms.map_values(g)[k] by {
            assert(vs[k] == atoms[k]@);
            assert(atoms[k] is Opaque);
        }
    }
    assert forall|k: int| 0 <= k < atoms.len() implies atom_ok(#[trigger] atoms[k]) by {
        assert(vs[k] == atoms[k]@);
        assert(atoms[k] is Opaque);
        assert(vs[k]->body.len() <= crate::v3::atom::MAX_ATOM_SIZE);
    }
    assert(data =~= data.subrange(0, 8) + data.subrange(8, 10) + block + region + seq![
        data[data.len() - 1],
    ]);
}

/// The generic action that an SLC3 action stands for.
pub open spec fn generic_of_v3_action(a: Action) -> GenericAction {
    GenericAction {
        frame: a.frame,
        data: match a.action_type {
            ActionType::Jump => ActionData::Player(player_input_of(PlayerAction::Jump, a)),
            ActionType::Left => ActionData::Player(player_input_of(PlayerAction::Left, a)),
            ActionType::Right => ActionData::Player(player_input_of(PlayerAction::Right, a)),
            ActionType::Restart => ActionData::Restart { seed: a.seed },
            ActionType::RestartFull => ActionData::RestartFull { seed: a.seed },
            ActionType::Death => ActionData::Death { seed: a.seed },
            ActionType::TPS => ActionData::TPS(a.tps_bits),
            ActionType::Bugpoint => ActionData::Bugpoint,
        },
    }
}

/// The player input of the button `b` that the SLC3 action `a` presses or releases.
pub open spec fn player_input_of(b: PlayerAction, a: Action) -> GenericPlayerInput {
    GenericPlayerInput {
        action: b,
        down: a.holding,
        player: if a.player2 {
            Player::Player2
        } else {
            Player::Player1
        },
    }
}

/// The generic actions of SLC3 actions, in order.
pub open spec fn generic_of_v3(actions: Seq<Action>) -> Seq<GenericAction> {
    actions.map_values(|a: Action| generic_of_v3_action(a))
}

/// The generic actions of the action atoms among the atoms, in order.
pub open spec fn generic_of_atom_views(vs: Seq<AtomView>) -> Seq<GenericAction>
    decreases vs.len(),
{
    if vs.len() == 0 {
        Seq::empty()
    } else {
        generic_of_atom_views(vs.drop_last()) + match vs.last() {
            AtomView::Action { actions } => generic_of_v3(actions),
            AtomView::Opaque { .. } => Seq::empty(),
        }
    }
}

/// The generic action of an SLC3 action is on its frame and of its kind: a
/// jump, left or right is that button of player 2 exactly where the action
/// is, down exactly where it holds; a restart, full restart or death keeps
/// its seed; a tick-rate change keeps its rate; a bugpoint stays one.
pub proof fn lemma_generic_of_v3_action_fields(a: Action)
    ensures
        ({
            let g = generic_of_v3_action(a);
            let player = if a.player2 {
                Player::Player2
            } else {
                Player::Player1
            };
            &&& g.frame == a.frame
            &&& a.action_type is Jump ==> g.data == ActionData::Player(
                GenericPlayerInput { action: PlayerAction::Jump, down: a.holding, player },
            )
            &&& a.action_type is Left ==> g.data == ActionData::Player(
                GenericPlayerInput { action: PlayerAction::Left, down: a.holding, player },
            )
            &&& a.action_type is Right ==> g.data == ActionData::Player(
                GenericPlayerInput { action: PlayerAction::Right, down: a.holding, player },
            )
            &&& a.action_type is Restart ==> g.data == ActionData::Restart { seed: a.seed }
            &&& a.action_type is RestartFull ==> g.data == ActionData::RestartFull { seed: a.seed }
            &&& a.action_type is Death ==> g.data == ActionData::Death { seed: a.seed }
            &&& a.action_type is TPS ==> g.data == ActionData::TPS(a.tps_bits)
            &&& a.action_type is Bugpoint ==> g.data == ActionData::Bugpoint
        }),
{
}

/// Converts one action.
fn generic_action(a: &Action) -> (r: GenericAction)
    ensures
        r == generic_of_v3_action(*a),
{
    let player = if a.player2 {
        Player::Player2
    } else {
        Player::Player1
    };
    let data = match a.action_type {
        ActionType::Jump => ActionData::Player(
            GenericPlayerInput { action: PlayerAction::Jump, down: a.holding, player },
        ),
        ActionType::Left => ActionData::Player(
            GenericPlayerInput { action: PlayerAction::Left, down: a.holding, player },
        ),
        ActionType::Right => ActionData::Player(
            GenericPlayerInput { action: PlayerAction::Right, down: a.holding, player },
        ),
        ActionType::Restart => ActionData::Restart { seed: a.seed },
        ActionType::RestartFull => ActionData::RestartFull { seed: a.seed },
        ActionType::Death => ActionData::Death { seed: a.seed },
        ActionType::TPS => ActionData::TPS(a.tps_bits),
        ActionType::Bugpoint => ActionData::Bugpoint,
    };
    GenericAction { frame: a.frame, data }
}

impl Replay {
    /// The replay as generic actions: those of its action atoms in order,
    /// with the metadata's tick rate; other atoms are left out.
    pub fn to_generic_replay(&self) -> (r: GenericReplay)
        ensures
            r.tps_bits == self.metadata.tps_bits,
            r.actions@ == generic_of_atom_views(self.atoms.views()),
    {
        let mut out: Vec<GenericAction> = Vec::new();
        let atoms = &self.atoms.atoms;
        let mut k: usize = 0;
        while k < atoms.len()
            invariant
                k <= atoms@.len(),
                atoms == &self.atoms.atoms,
                out@ == generic_of_atom_views(self.atoms.views().take(k as int)),
            decreases atoms@.len() - k,
        {
            let ghost before = out@;
            proof {
                let vs = self.atoms.views();
                assert(vs.take(k + 1).drop_last() =~= vs.take(k as int));
                assert(vs.take(k + 1).last() == atoms@[k as int]@);
            }
            match &atoms[k] {
                AtomVariant::Action(x) => {
                    let mut i: usize = 0;
                    while i < x.actions.len()
                        invariant
                            i <= x.actions@.len(),
                            out@ == before + generic_of_v3(x.actions@.take(i as int)),
                        decreases x.actions@.len() - i,
                    {
                        let g = generic_action(&x.actions[i]);
                        out.push(g);
                        proof {
                            assert(generic_of_v3(x.actions@.take(i + 1)) =~= generic_of_v3(
                                x.actions@.take(i as int),
                            ).push(g));
                            assert(out@ =~= before + generic_of_v3(x.actions@.take(i + 1)));
                        }
                        i = i + 1;
                    }
                    proof {
                        assert(x.actions@.take(i as int) =~= x.actions@);
                    }
                },
                AtomVariant::Opaque(_) => {
                    proof {
                        assert(out@ =~= before + Seq::<GenericAction>::empty());
                    }
                },
            }
            k = k + 1;
        }
        proof {
            assert(self.atoms.views().take(k as int) =~= self.atoms.views());
        }
        GenericReplay { tps_bits: self.metadata.tps_bits, actions: out }
    }
}

} // verus!
