//! SLC2 replays: a header, the tick rate, a metadata block, the blob
//! headers, the inputs of each blob, and a footer.

use vstd::prelude::*;
use vstd::slice::{slice_subrange, slice_to_vec};
use crate::bytes::{
    le_value,
    le_bytes,
    read_le,
    write_le,
    append_bytes,
    flatten_bytes,
    lemma_flatten_split,
    lemma_le_round_trip,
    lemma_pow256_values,
};
use crate::v2::blob::{
    Blob,
    BlobError,
    blob_bytes,
    blob_inputs_bytes,
    inputs_bytes,
    spec_parse_blob,
    spec_read_blob_inputs,
    spec_read_inputs_n,
};
use crate::action::{Action, ActionData, Player, PlayerAction, PlayerInput as GenericPlayerInput};
use crate::replay::GenericReplay;
use crate::v2::input::{
    Input,
    InputData,
    input_bytes,
    representable,
    spec_required_bytes,
    lemma_input_round_trip,
};

verus! {

/// An SLC2 replay. `tps_bits` is the bit pattern of its tick rate.
pub struct Replay {
    pub tps_bits: u64,
    pub meta: Vec<u8>,
    pub inputs: Vec<Input>,
}

/// Why an SLC2 replay could not be read.
#[derive(Clone, Copy, Debug, PartialEq, Eq, Structural)]
pub enum ReplayError {
    HeaderMismatchError,
    FooterMismatchError,
    Blob(BlobError),
    /// The data ends before the replay does.
    UnexpectedEof,
}

/// The four bytes that open an SLC2 replay: "SILL".
pub open spec fn v2_header() -> Seq<u8> {
    seq![0x53u8, 0x49u8, 0x4Cu8, 0x4Cu8]
}

/// The three bytes that close an SLC2 replay: "EOM".
pub open spec fn v2_footer() -> Seq<u8> {
    seq![0x45u8, 0x4Fu8, 0x4Du8]
}

/// Reads `count` blob headers from `pos`, behind those in `acc`; nothing
/// where the data ends first.
pub open spec fn spec_read_blob_headers(data: Seq<u8>, pos: int, count: nat, acc: Seq<Blob>) -> Option<
    (Seq<Blob>, int),
>
    decreases count,
{
    if count == 0 {
        Some((acc, pos))
    } else if data.len() - pos < 24 {
        None
    } else {
        spec_read_blob_headers(
            data,
            pos + 24,
            (count - 1) as nat,
            acc.push(spec_parse_blob(data.subrange(pos, pos + 24))),
        )
    }
}

/// Reads the inputs of the blobs from the `j`th on, from `pos`, behind
/// `inputs`, on top of `frame`.
pub open spec fn spec_read_blobs(
    data: Seq<u8>,
    pos: int,
    blobs: Seq<Blob>,
    j: nat,
    inputs: Seq<Input>,
    frame: u64,
) -> Result<(Seq<Input>, int), BlobError>
    decreases blobs.len() - j,
{
    if j >= blobs.len() {
        Ok((inputs, pos))
    } else {
        match spec_read_blob_inputs(data, pos, blobs[j as int], inputs, frame) {
            Err(e) => Err(e),
            Ok((acc, f, q)) => spec_read_blobs(data, q, blobs, j + 1, acc, f),
        }
    }
}

/// Reads a replay: the header, the tick rate, the metadata size and block,
/// the input count (which is not checked), the blob count and headers, the
/// inputs of each blob in turn, then the footer.
pub open spec fn spec_read_v2(data: Seq<u8>) -> Result<(u64, Seq<u8>, Seq<Input>), ReplayError> {
    if data.len() < 4 {
        Err(ReplayError::UnexpectedEof)
    } else if data.subrange(0, 4) != v2_header() {
        Err(ReplayError::HeaderMismatchError)
    } else if data.len() < 20 {
        Err(ReplayError::UnexpectedEof)
    } else {
        let tps_bits = le_value(data.subrange(4, 12)) as u64;
        let meta_size = le_value(data.subrange(12, 20)) as int;
        if meta_size > data.len() - 20 {
            Err(ReplayError::UnexpectedEof)
        } else {
            let meta = data.subrange(20, 20 + meta_size);
            let p: int = 20 + meta_size;
            if data.len() - p < 16 {
                Err(ReplayError::UnexpectedEof)
            } else {
                let blob_count = le_value(data.subrange(p + 8, p + 16));
                match spec_read_blob_headers(data, p + 16, blob_count, Seq::empty()) {
                    None => Err(ReplayError::UnexpectedEof),
                    Some((blobs, q)) => match spec_read_blobs(data, q, blobs, 0, Seq::empty(), 0) {
                        Err(e) => Err(ReplayError::Blob(e)),
                        Ok((inputs, end)) => if data.len() - end < 3 {
                            Err(ReplayError::UnexpectedEof)
                        } else if data.subrange(end, end + 3) != v2_footer() {
                            Err(ReplayError::FooterMismatchError)
                        } else {
                            Ok((tps_bits, meta, inputs))
                        },
                    },
                }
            }
        }
    }
}

/// Tells whether `data` opens with the SLC2 header.
pub fn has_v2_header(data: &[u8]) -> (r: bool)
    ensures
        r == (data@.len() >= 4 && data@.subrange(0, 4) == v2_header()),
{
    if data.len() < 4 {
        return false;
    }
    let r = data[0] == 0x53 && data[1] == 0x49 && data[2] == 0x4C && data[3] == 0x4C;
    proof {
        if r {
            assert(data@.subrange(0, 4) =~= v2_header());
        } else if data@.subrange(0, 4) == v2_header() {
            assert(data@.subrange(0, 4)[0] == data@[0]);
            assert(data@.subrange(0, 4)[1] == data@[1]);
            assert(data@.subrange(0, 4)[2] == data@[2]);
            assert(data@.subrange(0, 4)[3] == data@[3]);
        }
    }
    r
}

/// Tells whether the three bytes at `pos` are the SLC2 footer.
fn has_v2_footer(data: &[u8], pos: usize) -> (r: bool)
    requires
        pos + 3 <= data@.len(),
    ensures
        r == (data@.subrange(pos as int, pos + 3) == v2_footer()),
{
    let r = data[pos] == 0x45 && data[pos + 1] == 0x4F && data[pos + 2] == 0x4D;
    proof {
        let f = data@.subrange(pos as int, pos + 3);
        if r {
            assert(f =~= v2_footer());
        } else if f == v2_footer() {
            assert(f[0] == data@[pos as int]);
            assert(f[1] == data@[pos + 1]);
            assert(f[2] == data@[pos + 2]);
        }
    }
    r
}

impl Replay {
    /// Reads a replay from the start of `data`.
    #[verifier::loop_isolation(false)]
    pub fn read(data: &[u8]) -> (r: Result<Self, ReplayError>)
        ensures
            match spec_read_v2(data@) {
                Ok((t, m, i)) => (r matches Ok(rep) && rep.tps_bits == t && rep.meta@ == m
                    && rep.inputs@ == i),
                Err(e) => r == Err::<Self, ReplayError>(e),
            },
    {
        let len = data.len();
        if len < 4 {
            return Err(ReplayError::UnexpectedEof);
        }
        if !has_v2_header(data) {
            return Err(ReplayError::HeaderMismatchError);
        }
        if len < 20 {
            return Err(ReplayError::UnexpectedEof);
        }
        let tps_bits = read_le(data, 4, 8);
        let meta_size = read_le(data, 12, 8);
        if meta_size > (len - 20) as u64 {
            return Err(ReplayError::UnexpectedEof);
        }
        let p: usize = 20 + meta_size as usize;
        let meta = slice_to_vec(slice_subrange(data, 20, p));
        if len - p < 16 {
            return Err(ReplayError::UnexpectedEof);
        }
        let blob_count = read_le(data, p + 8, 8);
        let mut blobs: Vec<Blob> = Vec::new();
        let mut pos: usize = p + 16;
        let mut k: u64 = 0;
        while k < blob_count
            invariant
                len == data@.len(),
                pos <= len,
                k <= blob_count,
                spec_read_blob_headers(data@, p + 16, blob_count as nat, Seq::empty())
                    == spec_read_blob_headers(data@, pos as int, (blob_count - k) as nat, blobs@),
            decreases blob_count - k,
        {
            match Blob::read(data, pos) {
                Some(b) => {
                    blobs.push(b);
                    pos = pos + 24;
                    k = k + 1;
                },
                None => {
                    return Err(ReplayError::UnexpectedEof);
                },
            }
        }
        let ghost q0 = pos as int;
        proof {
            assert(spec_read_blob_headers(data@, p + 16, blob_count as nat, Seq::empty()) == Some(
                (blobs@, q0),
            ));
        }
        let mut inputs: Vec<Input> = Vec::new();
        let mut frame: u64 = 0;
        let mut j: usize = 0;
        while j < blobs.len()
            invariant
                len == data@.len(),
                pos <= len,
                j <= blobs@.len(),
                spec_read_blob_headers(data@, p + 16, blob_count as nat, Seq::empty()) == Some(
                    (blobs@, q0),
                ),
                spec_read_blobs(data@, q0, blobs@, 0, Seq::empty(), 0) == spec_read_blobs(
                    data@,
                    pos as int,
                    blobs@,
                    j as nat,
                    inputs@,
                    frame,
                ),
            decreases blobs@.len() - j,
        {
            match blobs[j].read_inputs(data, pos, &mut inputs, &mut frame) {
                Ok(q) => {
                    pos = q;
                    j = j + 1;
                },
                Err(e) => {
                    return Err(ReplayError::Blob(e));
                },
            }
        }
        if len - pos < 3 {
            return Err(ReplayError::UnexpectedEof);
        }
        if !has_v2_footer(data, pos) {
            return Err(ReplayError::FooterMismatchError);
        }
        Ok(Replay { tps_bits, meta, inputs })
    }
}

/// A byte size that a blob may have.
pub open spec fn valid_size(s: u64) -> bool {
    s == 1 || s == 2 || s == 4 || s == 8
}

/// Every input of the blob is in `inputs` and fits the blob's byte size.
pub open spec fn blob_fits(b: Blob, inputs: Seq<Input>) -> bool {
    forall|k: int|
        b.start <= k < b.start + b.length ==> k < inputs.len() && spec_required_bytes(
            #[trigger] inputs[k],
        ) <= b.byte_size
}

/// The `j`th blob starts where the one before it ends (the first at 0).
pub open spec fn chain_at(bl: Seq<Blob>, j: int) -> bool {
    bl[j].start == if j == 0 {
        0
    } else {
        bl[j - 1].start + bl[j - 1].length
    }
}

/// The number of inputs that the blobs cover.
pub open spec fn covered(bl: Seq<Blob>) -> int {
    if bl.len() == 0 {
        0
    } else {
        bl.last().start + bl.last().length
    }
}

/// The blobs cover the inputs in order, each input inside a blob whose
/// byte size holds its state.
pub open spec fn blob_cover(bl: Seq<Blob>, inputs: Seq<Input>) -> bool {
    &&& forall|j: int|
        0 <= j < bl.len() ==> valid_size((#[trigger] bl[j]).byte_size) && blob_fits(bl[j], inputs)
    &&& forall|j: int| 0 <= j < bl.len() ==> #[trigger] chain_at(bl, j)
    &&& covered(bl) == inputs.len()
}

/// A cover by blobs none of which is empty.
pub open spec fn blob_layout(bl: Seq<Blob>, inputs: Seq<Input>) -> bool {
    &&& blob_cover(bl, inputs)
    &&& forall|j: int| 0 <= j < bl.len() ==> 0 < (#[trigger] bl[j]).length
}

/// The blob headers, in order.
pub open spec fn headers_bytes(bl: Seq<Blob>) -> Seq<u8> {
    flatten_bytes(bl.map_values(|b: Blob| blob_bytes(b)))
}

/// The inputs of each blob in turn.
pub open spec fn blobs_inputs_bytes(bl: Seq<Blob>, inputs: Seq<Input>) -> Seq<u8> {
    flatten_bytes(bl.map_values(|b: Blob| blob_inputs_bytes(b, inputs)))
}

/// A replay laid out in the blobs `bl`.
pub open spec fn v2_bytes(tps_bits: u64, meta: Seq<u8>, inputs: Seq<Input>, bl: Seq<Blob>) -> Seq<
    u8,
> {
    v2_header() + le_bytes(tps_bits as nat, 8) + le_bytes(meta.len(), 8) + meta + le_bytes(
        inputs.len(),
        8,
    ) + le_bytes(bl.len(), 8) + headers_bytes(bl) + blobs_inputs_bytes(bl, inputs) + v2_footer()
}

/// The frame of the input before the `k`th (0 before the first).
pub open spec fn prev_frame(inputs: Seq<Input>, k: int) -> u64 {
    if k == 0 {
        0
    } else {
        inputs[k - 1].frame
    }
}

/// The `k`th input lies its delta after the one before it.
pub open spec fn frame_link(inputs: Seq<Input>, k: int) -> bool {
    prev_frame(inputs, k) + inputs[k].delta == inputs[k].frame
}

/// Every input lies its delta after the one before it, the first after frame 0.
pub open spec fn frames_chained(inputs: Seq<Input>) -> bool {
    forall|k: int| 0 <= k < inputs.len() ==> #[trigger] frame_link(inputs, k)
}

/// Every input can be written and read back as it is.
pub open spec fn all_representable(inputs: Seq<Input>) -> bool {
    forall|k: int| 0 <= k < inputs.len() ==> representable(#[trigger] inputs[k])
}

/// The first blobs of the inputs: one for each run of inputs that need the
/// same byte size.
pub open spec fn runs_of(inputs: Seq<Input>) -> Seq<Blob>
    decreases inputs.len(),
{
    if inputs.len() == 0 {
        Seq::empty()
    } else {
        let bl = runs_of(inputs.drop_last());
        let bs = spec_required_bytes(inputs.last()) as u64;
        if bl.len() == 0 || bl.last().byte_size != bs {
            bl.push(Blob { byte_size: bs, start: (inputs.len() - 1) as u64, length: 1 })
        } else {
            bl.update(
                bl.len() - 1,
                Blob { byte_size: bs, start: bl.last().start, length: (bl.last().length + 1) as u64 },
            )
        }
    }
}

/// The byte size that the blob at `i` and the one before it merge into,
/// or 0 where they stay apart: a blob whose states take fewer bytes than a
/// blob header (24) merges into a smaller or larger one before it whose
/// byte size would keep them under 24 too, and blobs of one byte size merge.
pub open spec fn merged_size(bl: Seq<Blob>, i: int) -> u64 {
    let prev = bl[i - 1];
    let blob = bl[i];
    let small = blob.byte_size * blob.length < 24;
    let prev_small = prev.byte_size * blob.length < 24;
    if small && blob.byte_size > prev.byte_size && prev_small {
        blob.byte_size
    } else if small && blob.byte_size < prev.byte_size && prev_small {
        prev.byte_size
    } else if blob.byte_size == prev.byte_size {
        prev.byte_size
    } else {
        0
    }
}

/// Merges the blob at `i` into the one before it, where they merge; the
/// merged blob is left empty, starting where the one before it now ends.
pub open spec fn merge_step(bl: Seq<Blob>, i: int) -> Seq<Blob> {
    let size = merged_size(bl, i);
    if size == 0 {
        bl
    } else {
        let prev = bl[i - 1];
        let new_len = (prev.length + bl[i].length) as u64;
        bl.update(i - 1, Blob { byte_size: size, start: prev.start, length: new_len }).update(
            i,
            Blob { byte_size: bl[i].byte_size, start: (prev.start + new_len) as u64, length: 0 },
        )
    }
}

/// Merges each blob from the one at `i - 1` back to the second into the
/// one before it, in that order.
pub open spec fn merge_down(bl: Seq<Blob>, i: int) -> Seq<Blob>
    decreases i,
{
    if i <= 1 {
        bl
    } else {
        merge_down(merge_step(bl, i - 1), i - 1)
    }
}

/// The blobs that the inputs are written in: the runs, merged from the
/// last back, without the empty ones.
pub open spec fn spec_plan_blobs(inputs: Seq<Input>) -> Seq<Blob> {
    let runs = runs_of(inputs);
    merge_down(runs, runs.len() as int).filter(|b: Blob| b.length != 0)
}

/// One blob per run of inputs that need the same byte size.
fn first_pass(inputs: &[Input]) -> (r: Vec<Blob>)
    ensures
        blob_layout(r@, inputs@),
        r@ == runs_of(inputs@),
{
    let mut blobs: Vec<Blob> = Vec::new();
    let n = inputs.len();
    let mut i: usize = 0;
    while i < n
        invariant
            n == inputs@.len(),
            i <= n,
            forall|j: int|
                0 <= j < blobs@.len() ==> valid_size((#[trigger] blobs@[j]).byte_size) && blob_fits(
                    blobs@[j],
                    inputs@,
                ) && 0 < blobs@[j].length,
            forall|j: int| 0 <= j < blobs@.len() ==> #[trigger] chain_at(blobs@, j),
            covered(blobs@) == i,
            blobs@ == runs_of(inputs@.take(i as int)),
        decreases n - i,
    {
        proof {
            let t = inputs@.take(i + 1);
            assert(t.drop_last() =~= inputs@.take(i as int));
            assert(t.last() == inputs@[i as int]);
        }
        let bs = inputs[i].required_bytes() as u64;
        let m = blobs.len();
        let ghost old_blobs = blobs@;
        if m == 0 || blobs[m - 1].byte_size != bs {
            blobs.push(Blob { byte_size: bs, start: i as u64, length: 1 });
            proof {
                assert forall|j: int| 0 <= j < blobs@.len() implies #[trigger] chain_at(blobs@, j) by {
                    if j < m {
                        assert(chain_at(old_blobs, j));
                    }
                }
            }
        } else {
            let last = blobs[m - 1];
            blobs.set(m - 1, Blob { byte_size: last.byte_size, start: last.start, length: last.length + 1 });
            proof {
                assert forall|j: int| 0 <= j < blobs@.len() implies #[trigger] chain_at(blobs@, j) by {
                    assert(chain_at(old_blobs, j));
                }
                assert(blob_fits(old_blobs[m - 1], inputs@));
            }
        }
        i = i + 1;
    }
    proof {
        assert(inputs@.take(i as int) =~= inputs@);
    }
    blobs
}

/// Whether `b * l` is below 24, without overflow.
fn product_below_24(b: u64, l: u64) -> (r: bool)
    ensures
        r == (b * l < 24),
{
    match b.checked_mul(l) {
        Some(x) => x < 24,
        None => false,
    }
}

/// Merges, from the last blob back, each small blob into the one before it
/// when that costs fewer bytes than a blob header (24), and each blob into
/// the one before it when their byte sizes are equal. A merged blob is left
/// empty.
fn merge_blobs(blobs: &mut Vec<Blob>, inputs: &[Input])
    requires
        blob_layout(old(blobs)@, inputs@),
    ensures
        blob_cover(final(blobs)@, inputs@),
        final(blobs)@.len() == old(blobs)@.len(),
        final(blobs)@ == merge_down(old(blobs)@, old(blobs)@.len() as int),
{
    let len = blobs.len();
    let n = inputs.len();
    let mut i: usize = len;
    while i > 1
        invariant
            n == inputs@.len(),
            blobs@.len() == len,
            i <= len,
            blob_cover(blobs@, inputs@),
            forall|j: int| 0 <= j < i ==> 0 < (#[trigger] blobs@[j]).length,
            merge_down(blobs@, i as int) == merge_down(old(blobs)@, len as int),
        decreases i,
    {
        i = i - 1;
        let prev = blobs[i - 1];
        let blob = blobs[i];
        let small = product_below_24(blob.byte_size, blob.length);
        let prev_small = product_below_24(prev.byte_size, blob.length);
        let ghost old_blobs = blobs@;
        proof {
            assert(chain_at(old_blobs, i as int));
            assert(blob_fits(old_blobs[i - 1], inputs@));
            assert(blob_fits(old_blobs[i as int], inputs@));
            if i + 1 < len {
                assert(chain_at(old_blobs, i + 1));
            }
        }
        let merge_size: u64 = if small && blob.byte_size > prev.byte_size && prev_small {
            blob.byte_size
        } else if small && blob.byte_size < prev.byte_size && prev_small {
            prev.byte_size
        } else if blob.byte_size == prev.byte_size {
            prev.byte_size
        } else {
            0
        };
        if merge_size != 0 {
            proof {
                let last = blob.start + blob.length - 1;
                assert(blob == old_blobs[i as int]);
                assert(blob_fits(blob, inputs@));
                assert(blob.start <= last < blob.start + blob.length);
                assert(spec_required_bytes(inputs@[last]) <= blob.byte_size);
                assert(last < inputs@.len());
            }
            let new_len = prev.length + blob.length;
            blobs.set(i - 1, Blob { byte_size: merge_size, start: prev.start, length: new_len });
            blobs.set(i, Blob { byte_size: blob.byte_size, start: prev.start + new_len, length: 0 });
            proof {
                assert forall|j: int| 0 <= j < len implies #[trigger] chain_at(blobs@, j) by {
                    assert(chain_at(old_blobs, j));
                }
                assert forall|j: int| 0 <= j < len implies valid_size(
                    (#[trigger] blobs@[j]).byte_size,
                ) && blob_fits(blobs@[j], inputs@) by {
                    assert(valid_size(old_blobs[j].byte_size) && blob_fits(old_blobs[j], inputs@));
                    if j == i - 1 {
                        assert forall|k: int|
                            blobs@[j].start <= k < blobs@[j].start + blobs@[j].length implies k
                            < inputs@.len() && spec_required_bytes(#[trigger] inputs@[k])
                            <= blobs@[j].byte_size by {
                            if k < old_blobs[j].start + old_blobs[j].length {
                                assert(spec_required_bytes(inputs@[k]) <= old_blobs[j].byte_size);
                            } else {
                                assert(spec_required_bytes(inputs@[k])
                                    <= old_blobs[i as int].byte_size);
                            }
                        }
                    }
                }
            }
        }
        proof {
            assert(merged_size(old_blobs, i as int) == merge_size);
            assert(blobs@ =~= merge_step(old_blobs, i as int));
        }
    }
}

/// The blobs that are not empty, in order.
fn nonempty_blobs(blobs: &Vec<Blob>, inputs: &[Input]) -> (r: Vec<Blob>)
    requires
        blob_cover(blobs@, inputs@),
    ensures
        blob_layout(r@, inputs@),
        r@ == blobs@.filter(|b: Blob| b.length != 0),
{
    let mut r: Vec<Blob> = Vec::new();
    let mut k: usize = 0;
    proof {
        reveal_with_fuel(Seq::<_>::filter, 1);
        assert(blobs@.take(0) =~= Seq::<Blob>::empty());
    }
    while k < blobs.len()
        invariant
            k <= blobs@.len(),
            blob_cover(blobs@, inputs@),
            forall|j: int|
                0 <= j < r@.len() ==> valid_size((#[trigger] r@[j]).byte_size) && blob_fits(
                    r@[j],
                    inputs@,
                ) && 0 < r@[j].length,
            forall|j: int| 0 <= j < r@.len() ==> #[trigger] chain_at(r@, j),
            covered(r@) == if k == 0 {
                0
            } else {
                blobs@[k - 1].start + blobs@[k - 1].length
            },
            r@ == blobs@.take(k as int).filter(|b: Blob| b.length != 0),
        decreases blobs@.len() - k,
    {
        let b = blobs[k];
        proof {
            assert(chain_at(blobs@, k as int));
            reveal_with_fuel(Seq::<_>::filter, 1);
            let t = blobs@.take(k + 1);
            assert(t.drop_last() =~= blobs@.take(k as int));
            assert(t.last() == b);
        }
        if b.length != 0 {
            let ghost old_r = r@;
            r.push(b);
            proof {
                assert forall|j: int| 0 <= j < r@.len() implies #[trigger] chain_at(r@, j) by {
                    if j < old_r.len() {
                        assert(chain_at(old_r, j));
                    }
                }
            }
        }
        k = k + 1;
    }
    proof {
        assert(blobs@.take(k as int) =~= blobs@);
    }
    r
}

/// The blobs that a replay's inputs are written in: one per run of inputs
/// of one byte size, merged, without the empty ones.
pub fn plan_blobs(inputs: &[Input]) -> (r: Vec<Blob>)
    ensures
        r@ == spec_plan_blobs(inputs@),
        blob_layout(r@, inputs@),
{
    let mut blobs = first_pass(inputs);
    merge_blobs(&mut blobs, inputs);
    nonempty_blobs(&blobs, inputs)
}

impl Replay {
    /// Writes the replay.
    ///
    /// Its representable inputs, whose frames chain from 0 by their deltas,
    /// read back as they are.
    pub fn write(&self, out: &mut Vec<u8>)
        ensures
            final(out)@ == old(out)@ + v2_bytes(
                self.tps_bits,
                self.meta@,
                self.inputs@,
                spec_plan_blobs(self.inputs@),
            ),
            all_representable(self.inputs@) && frames_chained(self.inputs@) ==> spec_read_v2(
                final(out)@.subrange(old(out)@.len() as int, final(out)@.len() as int),
            ) == Ok::<(u64, Seq<u8>, Seq<Input>), ReplayError>(
                (self.tps_bits, self.meta@, self.inputs@),
            ),
            all_representable(self.inputs@) && frames_chained(self.inputs@) ==> ({
                let written = final(out)@.subrange(old(out)@.len() as int, final(out)@.len() as int);
                &&& spec_read_v2(written) matches Ok((t, m, i))
                &&& v2_bytes(t, m, i, spec_plan_blobs(i)) == written
            }),
    {
        Self::write_inner(out, self.tps_bits, self.meta.as_slice(), self.inputs.as_slice());
        proof {
            let written = out@.subrange(old(out)@.len() as int, out@.len() as int);
            assert(written =~= v2_bytes(
                self.tps_bits,
                self.meta@,
                self.inputs@,
                spec_plan_blobs(self.inputs@),
            ));
        }
    }

    /// Writes a replay of the tick rate `tps_bits`, the metadata `meta` and
    /// the inputs, which it packs into blobs.
    #[verifier::rlimit(60)]
    pub fn write_inner(out: &mut Vec<u8>, tps_bits: u64, meta: &[u8], inputs: &[Input])
        ensures
            final(out)@ == old(out)@ + v2_bytes(tps_bits, meta@, inputs@, spec_plan_blobs(inputs@)),
            all_representable(inputs@) && frames_chained(inputs@) ==> spec_read_v2(
                final(out)@.subrange(old(out)@.len() as int, final(out)@.len() as int),
            ) == Ok::<(u64, Seq<u8>, Seq<Input>), ReplayError>((tps_bits, meta@, inputs@)),
    {
        let ghost old_out = out@;
        out.push(0x53u8);
        out.push(0x49u8);
        out.push(0x4Cu8);
        out.push(0x4Cu8);
        let ghost w0 = v2_header();
        assert(out@ =~= old_out + w0);
        write_le(out, tps_bits, 8);
        let ghost w1 = w0 + le_bytes(tps_bits as nat, 8);
        assert(out@ =~= old_out + w1);
        write_le(out, meta.len() as u64, 8);
        let ghost w2 = w1 + le_bytes(meta@.len(), 8);
        assert(out@ =~= old_out + w2);
        append_bytes(out, meta);
        let ghost w3 = w2 + meta@;
        assert(out@ =~= old_out + w3);
        write_le(out, inputs.len() as u64, 8);
        let ghost w4 = w3 + le_bytes(inputs@.len(), 8);
        assert(out@ =~= old_out + w4);
        let blobs = plan_blobs(inputs);
        write_le(out, blobs.len() as u64, 8);
        let ghost w5 = w4 + le_bytes(blobs@.len(), 8);
        assert(out@ =~= old_out + w5);
        let ghost head = out@;
        let mut j: usize = 0;
        while j < blobs.len()
            invariant
                j <= blobs@.len(),
                out@ == head + headers_bytes(blobs@.take(j as int)),
            decreases blobs@.len() - j,
        {
            blobs[j].write(out);
            proof {
                let f = |b: Blob| blob_bytes(b);
                assert(blobs@.take(j + 1).map_values(f).drop_last() =~= blobs@.take(j as int).map_values(f));
                assert(blobs@.take(j + 1).map_values(f).last() == blob_bytes(blobs@[j as int]));
                assert(out@ =~= head + headers_bytes(blobs@.take(j + 1)));
            }
            j = j + 1;
        }
        let ghost mid = out@;
        let mut j: usize = 0;
        while j < blobs.len()
            invariant
                j <= blobs@.len(),
                blob_layout(blobs@, inputs@),
                out@ == mid + blobs_inputs_bytes(blobs@.take(j as int), inputs@),
            decreases blobs@.len() - j,
        {
            proof {
                assert(valid_size(blobs@[j as int].byte_size));
            }
            blobs[j].write_inputs(out, inputs);
            proof {
                let f = |b: Blob| blob_inputs_bytes(b, inputs@);
                assert(blobs@.take(j + 1).map_values(f).drop_last() =~= blobs@.take(j as int).map_values(f));
                assert(blobs@.take(j + 1).map_values(f).last() == blob_inputs_bytes(blobs@[j as int], inputs@));
                assert(out@ =~= mid + blobs_inputs_bytes(blobs@.take(j + 1), inputs@));
            }
            j = j + 1;
        }
        out.push(0x45u8);
        out.push(0x4Fu8);
        out.push(0x4Du8);
        proof {
            assert(blobs@.take(blobs@.len() as int) =~= blobs@);
            let w6 = w5 + headers_bytes(blobs@);
            assert(mid =~= old_out + w6);
            let w7 = w6 + blobs_inputs_bytes(blobs@, inputs@);
            let w = v2_bytes(tps_bits, meta@, inputs@, blobs@);
            assert(w == w7 + v2_footer());
            assert(out@ =~= old_out + w);
            assert(out@.subrange(old_out.len() as int, out@.len() as int) =~= w);
            if all_representable(inputs@) && frames_chained(inputs@) {
                lemma_v2_round_trip(tps_bits, meta@, inputs@, blobs@);
            }
        }
    }
}

/// A blob header reads back as the blob.
pub proof fn lemma_blob_parse(b: Blob)
    requires
        b.length > 0,
    ensures
        blob_bytes(b).len() == 24,
        spec_parse_blob(blob_bytes(b)) == b,
{
    lemma_pow256_values();
    lemma_le_round_trip(b.byte_size as nat, 8);
    lemma_le_round_trip(b.start as nat, 8);
    lemma_le_round_trip(b.length as nat, 8);
    let x = blob_bytes(b);
    assert(x.subrange(0, 8) =~= le_bytes(b.byte_size as nat, 8));
    assert(x.subrange(8, 16) =~= le_bytes(b.start as nat, 8));
    assert(x.subrange(16, 24) =~= le_bytes(b.length as nat, 8));
}

/// The headers of blobs none of which is empty take 24 bytes each.
proof fn lemma_headers_len(bl: Seq<Blob>)
    requires
        forall|j: int| 0 <= j < bl.len() ==> 0 < (#[trigger] bl[j]).length,
    ensures
        headers_bytes(bl).len() == 24 * bl.len(),
    decreases bl.len(),
{
    if bl.len() > 0 {
        let f = |b: Blob| blob_bytes(b);
        assert(bl.map_values(f).drop_last() =~= bl.drop_last().map_values(f));
        assert forall|j: int| 0 <= j < bl.drop_last().len() implies 0 < (
        #[trigger] bl.drop_last()[j]).length by {
            assert(bl.drop_last()[j] == bl[j]);
        }
        lemma_headers_len(bl.drop_last());
        lemma_blob_parse(bl.last());
    }
}

/// Written blob headers read back as the blobs.
proof fn lemma_read_headers(data: Seq<u8>, q: int, bl: Seq<Blob>, k: int)
    requires
        forall|j: int| 0 <= j < bl.len() ==> 0 < (#[trigger] bl[j]).length,
        0 <= q,
        0 <= k <= bl.len(),
        q + headers_bytes(bl).len() <= data.len(),
        data.subrange(q, q + headers_bytes(bl).len()) == headers_bytes(bl),
    ensures
        spec_read_blob_headers(data, q + 24 * k, (bl.len() - k) as nat, bl.take(k)) == Some(
            (bl, q + 24 * bl.len()),
        ),
    decreases bl.len() - k,
{
    lemma_headers_len(bl);
    if k == bl.len() {
        assert(bl.take(k) =~= bl);
    } else {
        let f = |b: Blob| blob_bytes(b);
        let cs = bl.map_values(f);
        lemma_flatten_split(cs, k);
        assert(cs.take(k) =~= bl.take(k).map_values(f));
        assert forall|j: int| 0 <= j < bl.take(k).len() implies 0 < (#[trigger] bl.take(k)[j]).length by {
            assert(bl.take(k)[j] == bl[j]);
        }
        lemma_headers_len(bl.take(k));
        lemma_blob_parse(bl[k]);
        let h = headers_bytes(bl);
        assert(data.subrange(q + 24 * k, q + 24 * k + 24) =~= h.subrange(24 * k, 24 * k + 24));
        assert(h.subrange(24 * k, 24 * k + 24) =~= cs[k]);
        assert(bl.take(k).push(bl[k]) =~= bl.take(k + 1));
        lemma_read_headers(data, q, bl, k + 1);
    }
}

/// The bytes of inputs are those of each input in turn.
proof fn lemma_inputs_bytes_flatten(s: Seq<Input>, bs: nat)
    ensures
        inputs_bytes(s, bs) == flatten_bytes(s.map_values(|i: Input| input_bytes(i, bs))),
    decreases s.len(),
{
    if s.len() > 0 {
        let f = |i: Input| input_bytes(i, bs);
        lemma_inputs_bytes_flatten(s.drop_last(), bs);
        assert(s.map_values(f).drop_last() =~= s.drop_last().map_values(f));
    }
}

/// Written inputs of one blob read back as themselves.
proof fn lemma_read_inputs_n(
    data: Seq<u8>,
    pos: int,
    bs: u64,
    inputs: Seq<Input>,
    s: int,
    m: int,
    t: int,
)
    requires
        valid_size(bs),
        all_representable(inputs),
        frames_chained(inputs),
        0 <= s,
        0 <= t <= m,
        s + m <= inputs.len(),
        0 <= pos,
        forall|k: int| s <= k < s + m ==> spec_required_bytes(#[trigger] inputs[k]) <= bs,
        pos + inputs_bytes(inputs.subrange(s, s + m), bs as nat).len() <= data.len(),
        data.subrange(pos, pos + inputs_bytes(inputs.subrange(s, s + m), bs as nat).len())
            == inputs_bytes(inputs.subrange(s, s + m), bs as nat),
    ensures
        spec_read_inputs_n(
            data,
            pos + inputs_bytes(inputs.subrange(s, s + m).take(t), bs as nat).len(),
            bs as nat,
            (s + t) as nat,
            (m - t) as nat,
            inputs.take(s + t),
            prev_frame(inputs, s + t),
        ) == Ok::<(Seq<Input>, u64, int), BlobError>(
            (
                inputs.take(s + m),
                prev_frame(inputs, s + m),
                pos + inputs_bytes(inputs.subrange(s, s + m), bs as nat).len(),
            ),
        ),
    decreases m - t,
{
    let ss = inputs.subrange(s, s + m);
    if t == m {
        assert(ss.take(m) =~= ss);
    } else {
        let f = |i: Input| input_bytes(i, bs as nat);
        lemma_inputs_bytes_flatten(ss, bs as nat);
        lemma_inputs_bytes_flatten(ss.take(t), bs as nat);
        let cs = ss.map_values(f);
        lemma_flatten_split(cs, t);
        assert(cs.take(t) =~= ss.take(t).map_values(f));
        let b = inputs_bytes(ss, bs as nat);
        let lt = inputs_bytes(ss.take(t), bs as nat).len() as int;
        let p = pos + lt;
        let x = inputs[s + t];
        assert(ss[t] == x);
        let xb = input_bytes(x, bs as nat);
        assert(data.subrange(p, p + xb.len()) =~= b.subrange(lt, lt + xb.len()));
        assert(b.subrange(lt, lt + xb.len()) =~= xb);
        assert(frame_link(inputs, s + t));
        assert(spec_required_bytes(inputs[s + t]) <= bs);
        lemma_input_round_trip(data, p, prev_frame(inputs, s + t), x, bs as nat);
        assert(inputs.take(s + t).push(x) =~= inputs.take(s + t + 1));
        assert(ss.take(t + 1).drop_last() =~= ss.take(t));
        assert(ss.take(t + 1).last() == x);
        lemma_read_inputs_n(data, pos, bs, inputs, s, m, t + 1);
    }
}

/// Written blobs of inputs read back as the inputs.
proof fn lemma_read_blobs(data: Seq<u8>, q: int, bl: Seq<Blob>, inputs: Seq<Input>, j: int)
    requires
        blob_layout(bl, inputs),
        all_representable(inputs),
        frames_chained(inputs),
        inputs.len() <= u64::MAX,
        0 <= j <= bl.len(),
        0 <= q,
        q + blobs_inputs_bytes(bl, inputs).len() <= data.len(),
        data.subrange(q, q + blobs_inputs_bytes(bl, inputs).len()) == blobs_inputs_bytes(
            bl,
            inputs,
        ),
    ensures
        ({
            let st = if j < bl.len() {
                bl[j].start as int
            } else {
                inputs.len() as int
            };
            spec_read_blobs(
                data,
                q + blobs_inputs_bytes(bl.take(j), inputs).len(),
                bl,
                j as nat,
                inputs.take(st),
                prev_frame(inputs, st),
            ) == Ok::<(Seq<Input>, int), BlobError>(
                (inputs, q + blobs_inputs_bytes(bl, inputs).len()),
            )
        }),
    decreases bl.len() - j,
{
    if j == bl.len() {
        assert(bl.take(j) =~= bl);
        assert(inputs.take(inputs.len() as int) =~= inputs);
    } else {
        let b = bl[j];
        let s = b.start as int;
        let m = b.length as int;
        assert(valid_size(b.byte_size) && blob_fits(b, inputs));
        assert(0 < b.length);
        assert(spec_required_bytes(inputs[s + m - 1]) <= b.byte_size);
        assert(s + m <= inputs.len());
        let g = |x: Blob| blob_inputs_bytes(x, inputs);
        let cs = bl.map_values(g);
        lemma_flatten_split(cs, j);
        assert(cs.take(j) =~= bl.take(j).map_values(g));
        assert(cs.take(j + 1) =~= bl.take(j + 1).map_values(g));
        let whole = blobs_inputs_bytes(bl, inputs);
        let lj = blobs_inputs_bytes(bl.take(j), inputs).len() as int;
        let chunk = blob_inputs_bytes(b, inputs);
        assert(chunk == inputs_bytes(inputs.subrange(s, s + m), b.byte_size as nat));
        let pj = q + lj;
        assert(data.subrange(pj, pj + chunk.len()) =~= whole.subrange(lj, lj + chunk.len()));
        assert(whole.subrange(lj, lj + chunk.len()) =~= chunk);
        assert forall|k: int| s <= k < s + m implies spec_required_bytes(#[trigger] inputs[k])
            <= b.byte_size by {
        }
        lemma_read_inputs_n(data, pj, b.byte_size, inputs, s, m, 0);
        assert(inputs.subrange(s, s + m).take(0) =~= Seq::<Input>::empty());
        assert(inputs.take(s).len() == s);
        if j + 1 < bl.len() {
            assert(chain_at(bl, j + 1));
        }
        lemma_read_blobs(data, q, bl, inputs, j + 1);
    }
}

/// A replay written in a blob layout reads back as its tick rate,
/// metadata and inputs, when the inputs are representable and chained.
proof fn lemma_v2_round_trip(tps_bits: u64, meta: Seq<u8>, inputs: Seq<Input>, bl: Seq<Blob>)
    requires
        blob_layout(bl, inputs),
        all_representable(inputs),
        frames_chained(inputs),
        meta.len() <= u64::MAX,
        inputs.len() <= u64::MAX,
        bl.len() <= u64::MAX,
    ensures
        spec_read_v2(v2_bytes(tps_bits, meta, inputs, bl)) == Ok::<
            (u64, Seq<u8>, Seq<Input>),
            ReplayError,
        >((tps_bits, meta, inputs)),
{
    let w = v2_bytes(tps_bits, meta, inputs, bl);
    lemma_pow256_values();
    lemma_le_round_trip(tps_bits as nat, 8);
    lemma_le_round_trip(meta.len(), 8);
    lemma_le_round_trip(inputs.len(), 8);
    lemma_le_round_trip(bl.len(), 8);
    lemma_headers_len(bl);
    let h = headers_bytes(bl);
    let ib = blobs_inputs_bytes(bl, inputs);
    let ms = meta.len() as int;
    let p: int = 20 + ms;
    let hq = p + 16;
    let iq = hq + h.len();
    let end = iq + ib.len();
    assert(w.len() == end + 3);
    assert(w.subrange(0, 4) =~= v2_header());
    assert(w.subrange(4, 12) =~= le_bytes(tps_bits as nat, 8));
    assert(w.subrange(12, 20) =~= le_bytes(meta.len(), 8));
    assert(w.subrange(20, 20 + ms) =~= meta);
    assert(w.subrange(p + 8, p + 16) =~= le_bytes(bl.len(), 8));
    assert(w.subrange(hq, hq + h.len()) =~= h);
    lemma_read_headers(w, hq, bl, 0);
    assert(bl.take(0) =~= Seq::<Blob>::empty());
    assert(w.subrange(iq, iq + ib.len()) =~= ib);
    lemma_read_blobs(w, iq, bl, inputs, 0);
    if bl.len() > 0 {
        assert(chain_at(bl, 0));
    }
    assert(inputs.take(0) =~= Seq::<Input>::empty());
    assert(bl.take(0).map_values(|x: Blob| blob_inputs_bytes(x, inputs)) =~= Seq::<Seq<u8>>::empty());
    assert(w.subrange(end, end + 3) =~= v2_footer());
}

/// The generic action that an SLC2 input stands for: none for a skip or
/// for a player input whose button is not 1, 2 or 3. SLC2 keeps no seeds,
/// so restarts and deaths get seed 0.
pub open spec fn generic_of_v2_input(i: Input) -> Option<Action> {
    match i.data {
        InputData::Skip => None,
        InputData::Player(p) => if 1 <= p.button <= 3 {
            Some(
                Action {
                    frame: i.frame,
                    data: ActionData::Player(
                        GenericPlayerInput {
                            action: if p.button == 1 {
                                PlayerAction::Jump
                            } else if p.button == 2 {
                                PlayerAction::Left
                            } else {
                                PlayerAction::Right
                            },
                            down: p.hold,
                            player: if p.player_2 {
                                Player::Player2
                            } else {
                                Player::Player1
                            },
                        },
                    ),
                },
            )
        } else {
            None
        },
        InputData::Restart => Some(Action { frame: i.frame, data: ActionData::Restart { seed: 0 } }),
        InputData::RestartFull => Some(
            Action { frame: i.frame, data: ActionData::RestartFull { seed: 0 } },
        ),
        InputData::Death => Some(Action { frame: i.frame, data: ActionData::Death { seed: 0 } }),
        InputData::TPS(bits) => Some(Action { frame: i.frame, data: ActionData::TPS(bits) }),
    }
}

/// The generic actions of SLC2 inputs, in order.
pub open spec fn generic_of_v2(inputs: Seq<Input>) -> Seq<Action>
    decreases inputs.len(),
{
    if inputs.len() == 0 {
        Seq::empty()
    } else {
        let rest = generic_of_v2(inputs.drop_last());
        match generic_of_v2_input(inputs.last()) {
            Some(a) => rest.push(a),
            None => rest,
        }
    }
}

/// Converts one input; nothing for a skip or an unknown button.
fn generic_input(i: &Input) -> (r: Option<Action>)
    ensures
        r == generic_of_v2_input(*i),
{
    match i.data {
        InputData::Skip => None,
        InputData::Player(p) => {
            if 1 <= p.button && p.button <= 3 {
                let action = if p.button == 1 {
                    PlayerAction::Jump
                } else if p.button == 2 {
                    PlayerAction::Left
                } else {
                    PlayerAction::Right
                };
                let player = if p.player_2 {
                    Player::Player2
                } else {
                    Player::Player1
                };
                Some(
                    Action {
                        frame: i.frame,
                        data: ActionData::Player(GenericPlayerInput { action, down: p.hold, player }),
                    },
                )
            } else {
                None
            }
        },
        InputData::Restart => Some(Action { frame: i.frame, data: ActionData::Restart { seed: 0 } }),
        InputData::RestartFull => Some(
            Action { frame: i.frame, data: ActionData::RestartFull { seed: 0 } },
        ),
        InputData::Death => Some(Action { frame: i.frame, data: ActionData::Death { seed: 0 } }),
        InputData::TPS(bits) => Some(Action { frame: i.frame, data: ActionData::TPS(bits) }),
    }
}

impl Replay {
    /// The replay as generic actions: skips (and player inputs of unknown
    /// buttons) are left out, and restarts and deaths get seed 0.
    pub fn to_generic_replay(&self) -> (r: GenericReplay)
        ensures
            r.tps_bits == self.tps_bits,
            r.actions@ == generic_of_v2(self.inputs@),
    {
        let mut actions: Vec<Action> = Vec::new();
        let mut k: usize = 0;
        while k < self.inputs.len()
            invariant
                k <= self.inputs@.len(),
                actions@ == generic_of_v2(self.inputs@.take(k as int)),
            decreases self.inputs@.len() - k,
        {
            proof {
                assert(self.inputs@.take(k + 1).drop_last() =~= self.inputs@.take(k as int));
                assert(self.inputs@.take(k + 1).last() == self.inputs@[k as int]);
            }
            match generic_input(&self.inputs[k]) {
                Some(a) => {
                    actions.push(a);
                },
                None => {},
            }
            k = k + 1;
        }
        proof {
            assert(self.inputs@.take(k as int) =~= self.inputs@);
        }
        GenericReplay { tps_bits: self.tps_bits, actions }
    }
}

/// Converting one more SLC2 input appends the generic action it stands
/// for, on its frame: a player input of button 1, 2 or 3 becomes a jump,
/// left or right of the same player (player 2 exactly where the input says
/// so), down exactly where the input holds; restarts, full restarts and
/// deaths become the same, with seed 0; a tick-rate change keeps its rate.
/// A skip, or a player input of another button, appends nothing.
pub proof fn lemma_generic_of_v2_push(s: Seq<Input>, i: Input)
    ensures
        ({
            let g = generic_of_v2(s.push(i));
            let r = generic_of_v2(s);
            let player = if i.data is Player && i.data->Player_0.player_2 {
                Player::Player2
            } else {
                Player::Player1
            };
            &&& i.data is Skip ==> g == r
            &&& i.data is Restart ==> g == r.push(
                Action { frame: i.frame, data: ActionData::Restart { seed: 0 } },
            )
            &&& i.data is RestartFull ==> g == r.push(
                Action { frame: i.frame, data: ActionData::RestartFull { seed: 0 } },
            )
            &&& i.data is Death ==> g == r.push(
                Action { frame: i.frame, data: ActionData::Death { seed: 0 } },
            )
            &&& i.data is TPS ==> g == r.push(
                Action { frame: i.frame, data: ActionData::TPS(i.data->TPS_0) },
            )
            &&& i.data is Player ==> {
                let p = i.data->Player_0;
                &&& p.button == 1 ==> g == r.push(
                    Action {
                        frame: i.frame,
                        data: ActionData::Player(
                            GenericPlayerInput { action: PlayerAction::Jump, down: p.hold, player },
                        ),
                    },
                )
                &&& p.button == 2 ==> g == r.push(
                    Action {
                        frame: i.frame,
                        data: ActionData::Player(
                            GenericPlayerInput { action: PlayerAction::Left, down: p.hold, player },
                        ),
                    },
                )
                &&& p.button == 3 ==> g == r.push(
                    Action {
                        frame: i.frame,
                        data: ActionData::Player(
                            GenericPlayerInput { action: PlayerAction::Right, down: p.hold, player },
                        ),
                    },
                )
                &&& (p.button < 1 || p.button > 3) ==> g == r
            }
        }),
{
    assert(s.push(i).drop_last() =~= s);
    assert(s.push(i).last() == i);
}

} // verus!
