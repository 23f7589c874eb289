//! Atoms: the size-prefixed blocks that follow the metadata of an SLC3 replay.
//!
//! An atom is a 4-byte id, an 8-byte field that holds the atom's flags in
//! its top byte and the size of its body below them, and the body. Atom 1
//! is the built-in action atom; the library keeps any other atom as it is.

use vstd::prelude::*;
use vstd::slice::{slice_subrange, slice_to_vec};
use crate::bytes::{
    le_value,
    le_bytes,
    read_le,
    write_le,
    append_bytes,
    lemma_le_value_bound,
    lemma_le_round_trip,
    lemma_pow256_values,
    lemma_le_bytes_of_value,
    flatten_bytes,
    lemma_flatten_concat,
};
use crate::v3::action::{Action, ActionType};
use crate::v3::builtin::{ActionAtom, spec_read_action_body, spec_validate, swift_wf, spec_pack};
use crate::v3::section::views_bytes;
use crate::v3::section::SectionError;

verus! {

/// Why an atom could not be built, written or read.
#[derive(Clone, Copy, Debug, PartialEq, Eq, Structural)]
pub enum AtomError {
    /// A body does not fit the 56-bit size field, or a declared action
    /// count does not fit in memory.
    TooLarge,
    /// The action type does not belong to the method it was given to.
    InvalidActionType(ActionType),
    /// An action's frame lies before the previous action's frame.
    NonMonotonicFrame { previous: u64, frame: u64 },
    /// A player action's delta does not fit in the 60 bits that a state has for it.
    PlayerDeltaTooLarge(u64),
    /// An action's stored delta disagrees with its frame.
    InconsistentFrameDelta { expected: u64, actual: u64 },
    /// A tick rate (by its bit pattern) that is not finite and positive.
    InvalidTPS(u64),
    /// An action atom's body is shorter than its action count.
    ActionAtomTooSmall,
    /// An atom's declared size runs past the end of the atoms.
    AtomBodyOutOfBounds,
    /// Fewer bytes are left than an atom header takes.
    TruncatedAtomHeader,
    SectionError(SectionError),
}

/// The largest body that the 56-bit size field of an atom can announce.
pub const MAX_ATOM_SIZE: u64 = 0x00FF_FFFF_FFFF_FFFF;

/// The header of an atom: its id, then its flags above the 56 bits of its size.
pub open spec fn atom_header(id: u32, flags: u8, size: nat) -> Seq<u8> {
    le_bytes(id as nat, 4) + le_bytes(flags as nat * 0x100_0000_0000_0000 + size, 8)
}

/// Packs flags and size into the 8-byte field of an atom header.
fn pack_flags_and_size(flags: u8, size: u64) -> (r: u64)
    requires
        size <= MAX_ATOM_SIZE,
    ensures
        r == flags as nat * 0x100_0000_0000_0000 + size,
{
    let f: u64 = flags as u64;
    assert((f << 56u64) | size == f * 0x100_0000_0000_0000u64 + size) by (bit_vector)
        requires
            size <= 0x00FF_FFFF_FFFF_FFFFu64,
            f <= 255u64,
    ;
    (f << 56u64) | size
}

/// An atom that the library does not interpret, kept as its bytes.
#[derive(Clone, Debug, PartialEq, Eq)]
pub struct OpaqueAtom {
    pub id: u32,
    pub flags: u8,
    pub body: Vec<u8>,
}

impl OpaqueAtom {
    pub fn new(id: u32, flags: u8, body: Vec<u8>) -> (r: Self)
        ensures
            r.id == id,
            r.flags == flags,
            r.body@ == body@,
    {
        OpaqueAtom { id, flags, body }
    }

    /// Reads the body of an atom: the `size` bytes at `pos`.
    pub fn read(data: &[u8], pos: usize, id: u32, flags: u8, size: u64) -> (r: Result<
        Self,
        AtomError,
    >)
        ensures
            pos + size <= data@.len() ==> (r matches Ok(a) && a.id == id && a.flags == flags
                && a.body@ == data@.subrange(pos as int, pos + size)),
            pos + size > data@.len() ==> r == Err::<Self, AtomError>(
                AtomError::AtomBodyOutOfBounds,
            ),
    {
        let len = data.len();
        if pos > len || size > (len - pos) as u64 {
            return Err(AtomError::AtomBodyOutOfBounds);
        }
        let end = pos + size as usize;
        let body = slice_to_vec(slice_subrange(data, pos, end));
        Ok(OpaqueAtom { id, flags, body })
    }

    /// Writes the atom: its header, then its body. A body longer than the
    /// size field can announce is refused, and nothing is written.
    pub fn write(&self, out: &mut Vec<u8>) -> (r: Result<(), AtomError>)
        ensures
            self.body@.len() > MAX_ATOM_SIZE ==> r == Err::<(), AtomError>(AtomError::TooLarge)
                && final(out)@ == old(out)@,
            self.body@.len() <= MAX_ATOM_SIZE ==> r is Ok && final(out)@ == old(out)@
                + atom_header(self.id, self.flags, self.body@.len()) + self.body@,
    {
        let len = self.body.len();
        if len as u64 > MAX_ATOM_SIZE {
            return Err(AtomError::TooLarge);
        }
        write_le(out, self.id as u64, 4);
        let fs = pack_flags_and_size(self.flags, len as u64);
        write_le(out, fs, 8);
        append_bytes(out, self.body.as_slice());
        proof {
            assert(final(out)@ =~= old(out)@ + atom_header(self.id, self.flags, self.body@.len())
                + self.body@);
        }
        Ok(())
    }
}

/// One atom of a replay.
#[derive(Clone, Debug)]
pub enum AtomVariant {
    Opaque(OpaqueAtom),
    Action(ActionAtom),
}

/// What an atom holds, as values.
pub enum AtomView {
    Opaque { id: u32, flags: u8, body: Seq<u8> },
    Action { actions: Seq<Action> },
}

impl View for AtomVariant {
    type V = AtomView;

    open spec fn view(&self) -> AtomView {
        match self {
            AtomVariant::Opaque(o) => AtomView::Opaque { id: o.id, flags: o.flags, body: o.body@ },
            AtomVariant::Action(a) => AtomView::Action { actions: a.actions@ },
        }
    }
}

/// Reads the atom that starts at `pos` of the atoms `r`: where it ends
/// and what it holds.
pub open spec fn spec_read_atom(r: Seq<u8>, pos: int) -> Result<(AtomView, int), AtomError> {
    if r.len() - pos < 12 {
        Err(AtomError::TruncatedAtomHeader)
    } else {
        let id = le_value(r.subrange(pos, pos + 4));
        let fs = le_value(r.subrange(pos + 4, pos + 12));
        let size = fs % 0x100_0000_0000_0000;
        if size > r.len() - (pos + 12) {
            Err(AtomError::AtomBodyOutOfBounds)
        } else {
            let body = r.subrange(pos + 12, pos + 12 + size);
            if id == 1 {
                match spec_read_action_body(body) {
                    Ok(actions) => Ok((AtomView::Action { actions }, pos + 12 + size)),
                    Err(e) => Err(e),
                }
            } else {
                Ok(
                    (
                        AtomView::Opaque {
                            id: id as u32,
                            flags: (fs / 0x100_0000_0000_0000) as u8,
                            body,
                        },
                        pos + 12 + size,
                    ),
                )
            }
        }
    }
}

/// Reads atoms from `pos` to the end of `r`, behind those in `acc`.
pub open spec fn spec_read_atoms(r: Seq<u8>, pos: int, acc: Seq<AtomView>) -> Result<
    Seq<AtomView>,
    AtomError,
>
    decreases r.len() - pos,
{
    if pos >= r.len() {
        Ok(acc)
    } else {
        match spec_read_atom(r, pos) {
            Err(e) => Err(e),
            Ok((a, q)) => if q > pos {
                spec_read_atoms(r, q, acc.push(a))
            } else {
                Ok(acc)
            },
        }
    }
}

/// The atom can be written and its body fits the size field: an opaque
/// body is small enough, and an action atom's actions validate and are few
/// enough that their packed body (at most 36 bytes an action, after the
/// 8-byte count) is.
pub open spec fn atom_fits(a: AtomVariant) -> bool {
    match a {
        AtomVariant::Opaque(o) => o.body@.len() <= MAX_ATOM_SIZE,
        AtomVariant::Action(x) => spec_validate(x.actions@, 0) is Ok && 8 + 36 * x.actions@.len()
            <= MAX_ATOM_SIZE,
    }
}

/// The body of an action atom: the action count, then the sections that
/// the actions pack into.
pub open spec fn action_body_bytes(actions: Seq<Action>) -> Seq<u8> {
    le_bytes(actions.len(), 8) + views_bytes(spec_pack(actions))
}

/// The bytes that the atom is written as: its header (an action atom's with
/// id 1 and no flags), then its body.
pub open spec fn spec_atom_bytes(a: AtomVariant) -> Seq<u8> {
    match a {
        AtomVariant::Opaque(o) => atom_header(o.id, o.flags, o.body@.len()) + o.body@,
        AtomVariant::Action(x) => atom_header(1, 0, action_body_bytes(x.actions@).len())
            + action_body_bytes(x.actions@),
    }
}

/// The atom can be written: an opaque body fits the size field, and an
/// action atom's actions validate and pack into a body that fits it.
pub open spec fn atom_ok(a: AtomVariant) -> bool {
    match a {
        AtomVariant::Opaque(o) => o.body@.len() <= MAX_ATOM_SIZE,
        AtomVariant::Action(x) => spec_validate(x.actions@, 0) is Ok && action_body_bytes(
            x.actions@,
        ).len() <= MAX_ATOM_SIZE,
    }
}

/// The error that writing an atom that cannot be written ends in: the
/// validation error of its actions, or else `TooLarge`.
pub open spec fn atom_error(a: AtomVariant) -> AtomError {
    match a {
        AtomVariant::Opaque(_) => AtomError::TooLarge,
        AtomVariant::Action(x) => match spec_validate(x.actions@, 0) {
            Err(e) => e,
            Ok(_) => AtomError::TooLarge,
        },
    }
}

/// The atom is read back as it was written: an opaque atom whose id is not
/// that of the action atom, or an action atom whose swift marks come in
/// proper pairs.
pub open spec fn round_trips(a: AtomVariant) -> bool {
    match a {
        AtomVariant::Opaque(o) => o.id != 1,
        AtomVariant::Action(x) => swift_wf(x.actions@),
    }
}

/// `v` is what reading back the written atom `a` gives: the opaque atom
/// itself, or actions equal in content and delta to `a`'s.
pub open spec fn reads_back_as(a: AtomVariant, v: AtomView) -> bool {
    match a {
        AtomVariant::Opaque(o) => v == a@,
        AtomVariant::Action(x) => match v {
            AtomView::Action { actions } => {
                &&& actions.len() == x.actions@.len()
                &&& forall|i: int|
                    0 <= i < actions.len() ==> (#[trigger] actions[i]).same_content(x.actions@[i])
                        && actions[i].delta == x.actions@[i].delta
            },
            _ => false,
        },
    }
}

/// The bytes `c` are one atom that reads back as `a`.
pub open spec fn chunk_reads_as(c: Seq<u8>, a: AtomVariant) -> bool {
    (spec_read_atom(c, 0) matches Ok((v, q)) && q == c.len() && reads_back_as(a, v))
}

/// An atom reads the same wherever its bytes stand.
proof fn lemma_read_atom_moved(c: Seq<u8>, p: Seq<u8>, s: Seq<u8>)
    requires
        (spec_read_atom(c, 0) matches Ok((_, q)) && q == c.len()),
    ensures
        spec_read_atom(p + c + s, p.len() as int) == (match spec_read_atom(c, 0) {
            Ok((v, q)) => Ok::<(AtomView, int), AtomError>((v, p.len() + q)),
            Err(e) => Err(e),
        }),
{
    let r = p + c + s;
    let pos = p.len() as int;
    assert(r.subrange(pos, pos + 4) =~= c.subrange(0, 4));
    assert(r.subrange(pos + 4, pos + 12) =~= c.subrange(4, 12));
    let fs = le_value(c.subrange(4, 12));
    let size = fs % 0x100_0000_0000_0000;
    assert(r.subrange(pos + 12, pos + 12 + size) =~= c.subrange(12, 12 + size as int));
}

/// Atoms written one after the other read back in order.
proof fn lemma_read_chunks(cs: Seq<Seq<u8>>, atoms: Seq<AtomVariant>, k: int)
    requires
        cs.len() == atoms.len(),
        0 <= k <= cs.len(),
        forall|j: int| 0 <= j < cs.len() ==> chunk_reads_as(#[trigger] cs[j], atoms[j]),
    ensures
        ({
            let vs = Seq::new(cs.len(), |j: int| spec_read_atom(cs[j], 0).unwrap().0);
            spec_read_atoms(flatten_bytes(cs), flatten_bytes(cs.take(k)).len() as int, vs.take(k))
                == Ok::<Seq<AtomView>, AtomError>(vs)
        }),
    decreases cs.len() - k,
{
    let vs = Seq::new(cs.len(), |j: int| spec_read_atom(cs[j], 0).unwrap().0);
    let r = flatten_bytes(cs);
    if k == cs.len() {
        assert(cs.take(k) =~= cs);
        assert(vs.take(k) =~= vs);
    } else {
        let p = flatten_bytes(cs.take(k));
        let c = cs[k];
        let s = flatten_bytes(cs.skip(k + 1));
        assert(cs.take(k + 1).drop_last() =~= cs.take(k));
        assert(cs.take(k + 1).last() == c);
        assert(flatten_bytes(cs.take(k + 1)) == p + c);
        assert(cs =~= cs.take(k + 1) + cs.skip(k + 1));
        lemma_flatten_concat(cs.take(k + 1), cs.skip(k + 1));
        assert(r == p + c + s);
        assert(chunk_reads_as(cs[k], atoms[k]));
        lemma_read_atom_moved(c, p, s);
        assert(c.len() >= 12);
        assert(vs.take(k).push(vs[k]) =~= vs.take(k + 1));
        lemma_read_chunks(cs, atoms, k + 1);
    }
}

/// Reads the atom at `pos` of the atoms `region`.
fn read_atom(region: &[u8], pos: usize) -> (r: Result<(AtomVariant, usize), AtomError>)
    requires
        pos <= region@.len(),
    ensures
        match spec_read_atom(region@, pos as int) {
            Ok((v, q)) => (r matches Ok((a, q2)) && a@ == v && q2 == q),
            Err(e) => r == Err::<(AtomVariant, usize), AtomError>(e),
        },
{
    let len = region.len();
    if len - pos < 12 {
        return Err(AtomError::TruncatedAtomHeader);
    }
    let id64 = read_le(region, pos, 4);
    let fs = read_le(region, pos + 4, 8);
    proof {
        lemma_le_value_bound(region@.subrange(pos as int, pos + 4));
        lemma_pow256_values();
    }
    let id = id64 as u32;
    assert(fs & 0x00FF_FFFF_FFFF_FFFFu64 == fs % 0x100_0000_0000_0000u64 && fs >> 56u64 == fs
        / 0x100_0000_0000_0000u64 && fs >> 56u64 < 256u64) by (bit_vector);
    let size = fs & MAX_ATOM_SIZE;
    let flags = (fs >> 56u64) as u8;
    if size > (len - pos - 12) as u64 {
        return Err(AtomError::AtomBodyOutOfBounds);
    }
    let start = pos + 12;
    let end = start + size as usize;
    let body = slice_subrange(region, start, end);
    if id == ActionAtom::ID {
        match ActionAtom::read(body) {
            Ok(a) => Ok((AtomVariant::Action(a), end)),
            Err(e) => Err(e),
        }
    } else {
        Ok((AtomVariant::Opaque(OpaqueAtom { id, flags, body: slice_to_vec(body) }), end))
    }
}

/// The atoms of a replay, in order.
pub struct AtomRegistry {
    pub atoms: Vec<AtomVariant>,
}

impl AtomRegistry {
    /// What the atoms hold, in order.
    pub open spec fn views(self) -> Seq<AtomView> {
        self.atoms@.map_values(|a: AtomVariant| a@)
    }

    /// Reads the atoms that fill `region`, the bytes between a replay's
    /// metadata and its footer.
    pub fn read(region: &[u8]) -> (r: Result<Self, AtomError>)
        ensures
            match spec_read_atoms(region@, 0, Seq::empty()) {
                Ok(vs) => (r matches Ok(reg) && reg.views() == vs),
                Err(e) => r == Err::<Self, AtomError>(e),
            },
    {
        let mut atoms: Vec<AtomVariant> = Vec::new();
        let mut pos: usize = 0;
        let len = region.len();
        proof {
            assert(atoms@.map_values(|a: AtomVariant| a@) =~= Seq::<AtomView>::empty());
        }
        while pos < len
            invariant
                len == region@.len(),
                pos <= len,
                spec_read_atoms(region@, 0, Seq::empty()) == spec_read_atoms(
                    region@,
                    pos as int,
                    atoms@.map_values(|a: AtomVariant| a@),
                ),
            decreases len - pos,
        {
            match read_atom(region, pos) {
                Ok((a, q)) => {
                    proof {
                        assert(atoms@.push(a).map_values(|x: AtomVariant| x@) =~= atoms@.map_values(
                            |x: AtomVariant| x@,
                        ).push(a@));
                        assert(q >= pos + 12);
                    }
                    atoms.push(a);
                    pos = q;
                },
                Err(e) => {
                    return Err(e);
                },
            }
        }
        Ok(AtomRegistry { atoms })
    }

    /// Writes the atoms in order; an action atom's header carries the
    /// measured size of its body and no flags. The first atom that cannot
    /// be written ends the writing with its error.
    ///
    /// Written with success, atoms that round-trip read back as they were.
    pub fn write(&self, out: &mut Vec<u8>) -> (r: Result<(), AtomError>)
        ensures
            final(out)@.len() >= old(out)@.len(),
            final(out)@.subrange(0, old(out)@.len() as int) == old(out)@,
            r is Ok <==> forall|k: int|
                0 <= k < self.atoms@.len() ==> atom_ok(#[trigger] self.atoms@[k]),
            r is Ok ==> final(out)@ == old(out)@ + flatten_bytes(
                self.atoms@.map_values(|a: AtomVariant| spec_atom_bytes(a)),
            ),
            r matches Err(e) ==> exists|k: int|
                0 <= k < self.atoms@.len() && (forall|j: int|
                    0 <= j < k ==> atom_ok(#[trigger] self.atoms@[j])) && !atom_ok(
                    #[trigger] self.atoms@[k],
                ) && e == atom_error(self.atoms@[k]) && final(out)@ == old(out)@ + flatten_bytes(
                    self.atoms@.take(k).map_values(|a: AtomVariant| spec_atom_bytes(a)),
                ),
            (forall|k: int| 0 <= k < self.atoms@.len() ==> atom_fits(#[trigger] self.atoms@[k]))
                ==> r is Ok,
            r is Ok && (forall|k: int|
                0 <= k < self.atoms@.len() ==> round_trips(#[trigger] self.atoms@[k])) ==> ({
                let region = final(out)@.subrange(old(out)@.len() as int, final(out)@.len() as int);
                &&& spec_read_atoms(region, 0, Seq::empty()) matches Ok(vs)
                &&& vs.len() == self.atoms@.len()
                &&& forall|k: int|
                    0 <= k < vs.len() ==> reads_back_as(self.atoms@[k], #[trigger] vs[k])
            }),
    {
        let ghost old_out = out@;
        let ghost mut chunks: Seq<Seq<u8>> = Seq::empty();
        let mut i: usize = 0;
        proof {
            assert(self.atoms@.take(0).map_values(|a: AtomVariant| spec_atom_bytes(a))
                =~= Seq::<Seq<u8>>::empty());
        }
        while i < self.atoms.len()
            invariant
                old_out == old(out)@,
                i <= self.atoms@.len(),
                chunks.len() == i,
                out@ == old_out + flatten_bytes(chunks),
                forall|k: int| 0 <= k < i ==> atom_ok(#[trigger] self.atoms@[k]),
                forall|k: int|
                    0 <= k < i ==> round_trips(#[trigger] self.atoms@[k]) ==> chunk_reads_as(
                        chunks[k],
                        self.atoms@[k],
                    ),
                chunks == self.atoms@.take(i as int).map_values(|a: AtomVariant| spec_atom_bytes(a)),
            decreases self.atoms@.len() - i,
        {
            let ghost before = out@;
            let res = write_atom(&self.atoms[i], out);
            if let Err(e) = res {
                proof {
                    assert(!atom_fits(self.atoms@[i as int]));
                    assert(!atom_ok(self.atoms@[i as int]));
                    assert(out@.subrange(0, old_out.len() as int) =~= old_out);
                }
                return Err(e);
            }
            proof {
                let c = out@.subrange(before.len() as int, out@.len() as int);
                assert(out@ =~= before + c);
                let ghost prev = chunks;
                assert(c == spec_atom_bytes(self.atoms@[i as int]));
                assert(self.atoms@.take(i + 1).map_values(|a: AtomVariant| spec_atom_bytes(a))
                    =~= prev.push(c));
                chunks = chunks.push(c);
                assert(chunks.drop_last() =~= prev);
                assert(chunks.last() == c);
                assert(flatten_bytes(chunks) == flatten_bytes(prev) + c);
                assert(out@ =~= old_out + flatten_bytes(chunks));
            }
            i = i + 1;
        }
        proof {
            assert(out@.subrange(0, old_out.len() as int) =~= old_out);
            assert(self.atoms@.take(i as int) =~= self.atoms@);
            let region = out@.subrange(old_out.len() as int, out@.len() as int);
            assert(region =~= flatten_bytes(chunks));
            if forall|k: int| 0 <= k < self.atoms@.len() ==> round_trips(#[trigger] self.atoms@[k]) {
                let atoms = self.atoms@;
                assert forall|j: int| 0 <= j < chunks.len() implies chunk_reads_as(
                    #[trigger] chunks[j],
                    atoms[j],
                ) by {
                    assert(round_trips(atoms[j]));
                }
                lemma_read_chunks(chunks, atoms, 0);
                let vs = Seq::new(chunks.len(), |j: int| spec_read_atom(chunks[j], 0).unwrap().0);
                assert(chunks.take(0) =~= Seq::<Seq<u8>>::empty());
                assert(vs.take(0) =~= Seq::<AtomView>::empty());
                assert(flatten_bytes(chunks.take(0)).len() == 0);
                assert(spec_read_atoms(region, 0, Seq::empty()) == Ok::<Seq<AtomView>, AtomError>(vs));
                assert forall|k: int| 0 <= k < vs.len() implies reads_back_as(
                    atoms[k],
                    #[trigger] vs[k],
                ) by {
                    assert(chunk_reads_as(chunks[k], atoms[k]));
                }
            }
        }
        Ok(())
    }
}

/// Writes one atom; on failure writes nothing.
fn write_atom(a: &AtomVariant, out: &mut Vec<u8>) -> (r: Result<(), AtomError>)
    ensures
        r is Ok <==> atom_ok(*a),
        r matches Err(e) ==> e == atom_error(*a) && final(out)@ == old(out)@,
        atom_fits(*a) ==> r is Ok,
        r is Ok ==> final(out)@ == old(out)@ + spec_atom_bytes(*a),
        r is Ok ==> final(out)@.len() >= old(out)@.len()
            && final(out)@.subrange(0, old(out)@.len() as int) == old(out)@
            && (round_trips(*a) ==> chunk_reads_as(
            final(out)@.subrange(old(out)@.len() as int, final(out)@.len() as int),
            *a,
        )),
{
    let ghost before = out@;
    match a {
        AtomVariant::Opaque(o) => {
            if o.body.len() as u64 > MAX_ATOM_SIZE {
                return Err(AtomError::TooLarge);
            }
            let res = o.write(out);
            assert(res is Ok);
            proof {
                let c = atom_header(o.id, o.flags, o.body@.len()) + o.body@;
                assert(out@.subrange(0, before.len() as int) =~= before);
                assert(out@.subrange(before.len() as int, out@.len() as int) =~= c);
                if o.id != 1 {
                    lemma_opaque_chunk(o.id, o.flags, o.body@);
                }
            }
            Ok(())
        },
        AtomVariant::Action(x) => {
            let mut body: Vec<u8> = Vec::new();
            let res = x.write(&mut body);
            if let Err(e) = res {
                return Err(e);
            }
            let blen = body.len();
            if blen as u64 > MAX_ATOM_SIZE {
                return Err(AtomError::TooLarge);
            }
            write_le(out, ActionAtom::ID as u64, 4);
            write_le(out, blen as u64, 8);
            append_bytes(out, body.as_slice());
            proof {
                let c = atom_header(1, 0, body@.len()) + body@;
                assert(body@ =~= action_body_bytes(x.actions@));
                assert(body@.subrange(0, body@.len() as int) =~= body@);
                assert(out@.subrange(0, before.len() as int) =~= before);
                assert(out@.subrange(before.len() as int, out@.len() as int) =~= c);
                if swift_wf(x.actions@) {
                    lemma_action_chunk(body@, x.actions@);
                }
            }
            Ok(())
        },
    }
}

/// An opaque atom's bytes read back as the atom, unless its id is that of
/// the action atom.
proof fn lemma_opaque_chunk(id: u32, flags: u8, body: Seq<u8>)
    requires
        body.len() <= MAX_ATOM_SIZE,
        id != 1,
    ensures
        (atom_header(id, flags, body.len()) + body).len() == 12 + body.len(),
        spec_read_atom(atom_header(id, flags, body.len()) + body, 0) == Ok::<
            (AtomView, int),
            AtomError,
        >((AtomView::Opaque { id, flags, body }, 12 + body.len() as int)),
{
    lemma_pow256_values();
    let fs = flags as nat * 0x100_0000_0000_0000 + body.len();
    assert(fs < 0x1_0000_0000_0000_0000);
    lemma_le_round_trip(id as nat, 4);
    lemma_le_round_trip(fs, 8);
    let c = atom_header(id, flags, body.len()) + body;
    assert(c.subrange(0, 4) =~= le_bytes(id as nat, 4));
    assert(c.subrange(4, 12) =~= le_bytes(fs, 8));
    assert(fs % 0x100_0000_0000_0000 == body.len());
    assert(fs / 0x100_0000_0000_0000 == flags);
    assert(c.subrange(12, 12 + body.len() as int) =~= body);
}

/// An action atom's bytes read back as its actions.
proof fn lemma_action_chunk(body: Seq<u8>, actions: Seq<Action>)
    requires
        body.len() <= MAX_ATOM_SIZE,
        spec_read_action_body(body) is Ok,
        spec_read_action_body(body).unwrap().len() == actions.len(),
        forall|i: int|
            0 <= i < actions.len() ==> {
                let d = #[trigger] spec_read_action_body(body).unwrap()[i];
                d.same_content(actions[i]) && d.delta == actions[i].delta
            },
    ensures
        (atom_header(1, 0, body.len()) + body).len() == 12 + body.len(),
        spec_read_atom(atom_header(1, 0, body.len()) + body, 0) == Ok::<(AtomView, int), AtomError>(
            (AtomView::Action { actions: spec_read_action_body(body).unwrap() }, 12 + body.len() as int),
        ),
{
    lemma_pow256_values();
    let fs: nat = body.len();
    lemma_le_round_trip(1, 4);
    lemma_le_round_trip(fs, 8);
    let c = atom_header(1, 0, body.len()) + body;
    assert(c.subrange(0, 4) =~= le_bytes(1, 4));
    assert(c.subrange(4, 12) =~= le_bytes(fs, 8));
    assert(fs % 0x100_0000_0000_0000 == body.len());
    assert(c.subrange(12, 12 + body.len() as int) =~= body);
}

impl Default for AtomRegistry {
    fn default() -> (r: Self)
        ensures
            r.atoms@ == Seq::<AtomVariant>::empty(),
    {
        AtomRegistry { atoms: Vec::new() }
    }
}

/// The bytes of an opaque atom that holds `v`; none for an action atom.
pub open spec fn opaque_view_bytes(v: AtomView) -> Seq<u8> {
    match v {
        AtomView::Opaque { id, flags, body } => atom_header(id, flags, body.len()) + body,
        AtomView::Action { .. } => Seq::empty(),
    }
}

/// Reading atoms keeps the atoms read before.
proof fn lemma_read_atoms_extends(r: Seq<u8>, pos: int, acc: Seq<AtomView>)
    requires
        spec_read_atoms(r, pos, acc) is Ok,
    ensures
        spec_read_atoms(r, pos, acc).unwrap().len() >= acc.len(),
        spec_read_atoms(r, pos, acc).unwrap().take(acc.len() as int) == acc,
    decreases r.len() - pos,
{
    if pos < r.len() {
        if let Ok((a, q)) = spec_read_atom(r, pos) {
            if q > pos {
                lemma_read_atoms_extends(r, q, acc.push(a));
                let vs = spec_read_atoms(r, pos, acc).unwrap();
                assert(vs.take(acc.len() as int + 1) == acc.push(a));
                assert(vs.take(acc.len() as int) =~= acc.push(a).take(acc.len() as int));
                assert(acc.push(a).take(acc.len() as int) =~= acc);
            }
        }
    }
}

/// Atoms that read as opaque atoms are the bytes that those atoms are
/// written as.
pub(crate) proof fn lemma_opaque_atoms_reproduce(r: Seq<u8>, pos: int, acc: Seq<AtomView>)
    requires
        0 <= pos <= r.len(),
        spec_read_atoms(r, pos, acc) is Ok,
        forall|k: int|
            acc.len() <= k < spec_read_atoms(r, pos, acc).unwrap().len() ==> (
            #[trigger] spec_read_atoms(r, pos, acc).unwrap()[k]) is Opaque,
    ensures
        ({
            let vs = spec_read_atoms(r, pos, acc).unwrap();
            r.subrange(pos, r.len() as int) == flatten_bytes(
                vs.skip(acc.len() as int).map_values(|v: AtomView| opaque_view_bytes(v)),
            )
        }),
        forall|k: int|
            acc.len() <= k < spec_read_atoms(r, pos, acc).unwrap().len() ==> (
            #[trigger] spec_read_atoms(r, pos, acc).unwrap()[k])->body.len() <= MAX_ATOM_SIZE,
    decreases r.len() - pos,
{
    let vs = spec_read_atoms(r, pos, acc).unwrap();
    let f = |v: AtomView| opaque_view_bytes(v);
    if pos >= r.len() {
        assert(vs == acc);
        assert(vs.skip(acc.len() as int) =~= Seq::<AtomView>::empty());
        assert(vs.skip(acc.len() as int).map_values(f) =~= Seq::<Seq<u8>>::empty());
        assert(r.subrange(pos, r.len() as int) =~= Seq::<u8>::empty());
    } else {
        let (a, q) = spec_read_atom(r, pos).unwrap();
        assert(q > pos);
        lemma_read_atoms_extends(r, q, acc.push(a));
        assert(vs.take(acc.len() as int + 1) == acc.push(a));
        assert(vs[acc.len() as int] == a) by {
            assert(vs.take(acc.len() as int + 1)[acc.len() as int] == a);
        }
        assert(a is Opaque);
        lemma_opaque_atoms_reproduce(r, q, acc.push(a));
        lemma_pow256_values();
        let id = le_value(r.subrange(pos, pos + 4));
        let fs = le_value(r.subrange(pos + 4, pos + 12));
        lemma_le_value_bound(r.subrange(pos, pos + 4));
        lemma_le_value_bound(r.subrange(pos + 4, pos + 12));
        lemma_le_bytes_of_value(r.subrange(pos, pos + 4));
        lemma_le_bytes_of_value(r.subrange(pos + 4, pos + 12));
        let size = fs % 0x100_0000_0000_0000;
        let fl = fs / 0x100_0000_0000_0000;
        assert(fs == fl * 0x100_0000_0000_0000 + size);
        assert(fl < 256);
        assert((fl as u8) as nat == fl);
        assert((id as u32) as nat == id);
        let body = r.subrange(pos + 12, pos + 12 + size);
        assert(opaque_view_bytes(a) =~= r.subrange(pos, q));
        assert(a->body.len() <= MAX_ATOM_SIZE);
        let rest = vs.skip(acc.len() as int + 1);
        assert(vs.skip(acc.len() as int) =~= seq![a] + rest);
        lemma_flatten_concat(seq![a].map_values(f), rest.map_values(f));
        assert((seq![a] + rest).map_values(f) =~= seq![a].map_values(f) + rest.map_values(f));
        let one = seq![a].map_values(f);
        assert(one.len() == 1);
        assert(one.drop_last() =~= Seq::<Seq<u8>>::empty());
        assert(one.last() == opaque_view_bytes(a));
        assert(flatten_bytes(one.drop_last()) =~= Seq::<u8>::empty());
        assert(flatten_bytes(one) =~= opaque_view_bytes(a));
        assert(r.subrange(pos, r.len() as int) =~= r.subrange(pos, q) + r.subrange(q, r.len() as int));
    }
}

} // verus!
