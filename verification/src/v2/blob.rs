//! Blobs: runs of inputs whose states share one byte size.

use vstd::prelude::*;
use crate::bytes::{le_value, le_bytes, read_le, write_le, lemma_le_value_bound, lemma_pow256_values};
use crate::v2::input::{Input, InputError, input_bytes, spec_read_input};

verus! {

/// A run of `length` inputs from index `start`, each state in `byte_size` bytes.
#[derive(Clone, Copy, Debug, PartialEq, Eq, Structural)]
pub struct Blob {
    pub byte_size: u64,
    pub start: u64,
    pub length: u64,
}

/// Why the inputs of a blob could not be read.
#[derive(Clone, Copy, Debug, PartialEq, Eq, Structural)]
pub enum BlobError {
    Input(InputError),
    /// The blob starts after the inputs read so far.
    StartMismatch,
    /// The blob's last index does not fit in 64 bits.
    RangeOverflow,
}

/// The bytes of a blob header; an empty blob has none.
pub open spec fn blob_bytes(b: Blob) -> Seq<u8> {
    if b.length == 0 {
        Seq::empty()
    } else {
        le_bytes(b.byte_size as nat, 8) + le_bytes(b.start as nat, 8) + le_bytes(b.length as nat, 8)
    }
}

/// The blob that the 24 bytes `b` hold.
pub open spec fn spec_parse_blob(b: Seq<u8>) -> Blob {
    Blob {
        byte_size: le_value(b.subrange(0, 8)) as u64,
        start: le_value(b.subrange(8, 16)) as u64,
        length: le_value(b.subrange(16, 24)) as u64,
    }
}

/// The bytes of the inputs, in order, each state in `byte_size` bytes.
pub open spec fn inputs_bytes(s: Seq<Input>, byte_size: nat) -> Seq<u8>
    decreases s.len(),
{
    if s.len() == 0 {
        Seq::empty()
    } else {
        inputs_bytes(s.drop_last(), byte_size) + input_bytes(s.last(), byte_size)
    }
}

/// Reads `m` inputs of states of `byte_size` bytes from `pos`; after each,
/// the frame becomes that of the input at index `i`, the index of the one
/// just read when the blob starts where the inputs end.
pub open spec fn spec_read_inputs_n(
    data: Seq<u8>,
    pos: int,
    byte_size: nat,
    i: nat,
    m: nat,
    inputs: Seq<Input>,
    frame: u64,
) -> Result<(Seq<Input>, u64, int), BlobError>
    decreases m,
{
    if m == 0 {
        Ok((inputs, frame, pos))
    } else {
        match spec_read_input(data, pos, frame, byte_size) {
            Err(e) => Err(BlobError::Input(e)),
            Ok((inp, q)) => {
                let acc = inputs.push(inp);
                spec_read_inputs_n(data, q, byte_size, i + 1, (m - 1) as nat, acc, acc[i as int].frame)
            },
        }
    }
}

/// Reads the inputs of the blob `b` from `pos`, behind `inputs`, on top of `frame`.
pub open spec fn spec_read_blob_inputs(
    data: Seq<u8>,
    pos: int,
    b: Blob,
    inputs: Seq<Input>,
    frame: u64,
) -> Result<(Seq<Input>, u64, int), BlobError> {
    if b.length == 0 {
        Ok((inputs, frame, pos))
    } else if b.start + b.length > u64::MAX {
        Err(BlobError::RangeOverflow)
    } else if b.start > inputs.len() {
        Err(BlobError::StartMismatch)
    } else {
        spec_read_inputs_n(data, pos, b.byte_size as nat, b.start as nat, b.length as nat, inputs, frame)
    }
}

impl Blob {
    /// Reads the blob header at `pos`; gives nothing where fewer than its
    /// 24 bytes are left.
    pub fn read(data: &[u8], pos: usize) -> (r: Option<Blob>)
        ensures
            pos + 24 <= data@.len() ==> r == Some(
                spec_parse_blob(data@.subrange(pos as int, pos + 24)),
            ),
            pos + 24 > data@.len() ==> r is None,
    {
        let len = data.len();
        if pos > len || len - pos < 24 {
            return None;
        }
        let byte_size = read_le(data, pos, 8);
        let start = read_le(data, pos + 8, 8);
        let length = read_le(data, pos + 16, 8);
        proof {
            let b = data@.subrange(pos as int, pos + 24);
            assert(b.subrange(0, 8) =~= data@.subrange(pos as int, pos + 8));
            assert(b.subrange(8, 16) =~= data@.subrange(pos + 8, pos + 16));
            assert(b.subrange(16, 24) =~= data@.subrange(pos + 16, pos + 24));
        }
        Some(Blob { byte_size, start, length })
    }

    /// Appends the header; an empty blob writes nothing.
    pub fn write(&self, out: &mut Vec<u8>)
        ensures
            final(out)@ == old(out)@ + blob_bytes(*self),
    {
        if self.length == 0 {
            proof {
                assert(old(out)@ + blob_bytes(*self) =~= old(out)@);
            }
            return;
        }
        write_le(out, self.byte_size, 8);
        write_le(out, self.start, 8);
        write_le(out, self.length, 8);
        proof {
            assert(final(out)@ =~= old(out)@ + blob_bytes(*self));
        }
    }

    /// Reads the blob's inputs from `pos` and appends them to `inputs`,
    /// updating the running `frame`; gives where they end.
    pub fn read_inputs(
        &self,
        data: &[u8],
        pos: usize,
        inputs: &mut Vec<Input>,
        frame: &mut u64,
    ) -> (r: Result<usize, BlobError>)
        requires
            pos <= data@.len(),
        ensures
            match spec_read_blob_inputs(data@, pos as int, *self, old(inputs)@, *old(frame)) {
                Ok((acc, f, q)) => (r matches Ok(q2) && q2 == q) && final(inputs)@ == acc
                    && *final(frame) == f && q <= data@.len(),
                Err(e) => r == Err::<usize, BlobError>(e),
            },
            final(inputs)@.len() >= old(inputs)@.len(),
            final(inputs)@.subrange(0, old(inputs)@.len() as int) == old(inputs)@,
    {
        proof {
            assert(inputs@.subrange(0, inputs@.len() as int) =~= inputs@);
        }
        if self.length == 0 {
            return Ok(pos);
        }
        if self.start > u64::MAX - self.length {
            return Err(BlobError::RangeOverflow);
        }
        if self.start > inputs.len() as u64 {
            return Err(BlobError::StartMismatch);
        }
        let ghost total = self.length as nat;
        let mut k: u64 = 0;
        let mut p: usize = pos;
        while k < self.length
            invariant
                pos <= p <= data@.len(),
                k <= self.length,
                self.start <= old(inputs)@.len(),
                inputs@.len() == old(inputs)@.len() + k,
                inputs@.subrange(0, old(inputs)@.len() as int) == old(inputs)@,
                self.start + self.length <= u64::MAX,
                spec_read_blob_inputs(data@, pos as int, *self, old(inputs)@, *old(frame))
                    == spec_read_inputs_n(
                    data@,
                    p as int,
                    self.byte_size as nat,
                    (self.start + k) as nat,
                    (self.length - k) as nat,
                    inputs@,
                    *frame,
                ),
            decreases self.length - k,
        {
            match Input::read(data, p, *frame, self.byte_size) {
                Ok((inp, q)) => {
                    proof {
                        crate::v2::input::lemma_read_input_bounds(
                            data@,
                            p as int,
                            *frame,
                            self.byte_size as nat,
                        );
                    }
                    let ghost before = inputs@;
                    inputs.push(inp);
                    proof {
                        assert(inputs@.subrange(0, old(inputs)@.len() as int) =~= before.subrange(
                            0,
                            old(inputs)@.len() as int,
                        ));
                    }
                    let n = inputs.len();
                    let idx = (self.start + k) as usize;
                    *frame = inputs[idx].frame;
                    p = q;
                    k = k + 1;
                },
                Err(e) => {
                    return Err(BlobError::Input(e));
                },
            }
        }
        Ok(p)
    }

    /// Appends the inputs of the blob that `inputs` has, each state in the
    /// blob's byte size; an empty blob writes nothing.
    pub fn write_inputs(&self, out: &mut Vec<u8>, inputs: &[Input])
        requires
            self.length == 0 || self.start >= inputs@.len() || self.byte_size <= 8,
        ensures
            final(out)@ == old(out)@ + blob_inputs_bytes(*self, inputs@),
    {
        let n = inputs.len();
        if self.length == 0 || self.start >= n as u64 {
            proof {
                assert(old(out)@ + blob_inputs_bytes(*self, inputs@) =~= old(out)@);
            }
            return;
        }
        let start = self.start as usize;
        let end: usize = if self.length > (n - start) as u64 {
            n
        } else {
            start + self.length as usize
        };
        let mut k: usize = start;
        proof {
            assert(inputs@.subrange(start as int, start as int) =~= Seq::<Input>::empty());
            assert(old(out)@ + inputs_bytes(Seq::<Input>::empty(), self.byte_size as nat) =~= old(out)@);
        }
        while k < end
            invariant
                start <= k <= end <= n,
                n == inputs@.len(),
                self.byte_size <= 8,
                out@ == old(out)@ + inputs_bytes(inputs@.subrange(start as int, k as int), self.byte_size as nat),
            decreases end - k,
        {
            inputs[k].write(out, self.byte_size);
            proof {
                let s1 = inputs@.subrange(start as int, k + 1);
                assert(s1.drop_last() =~= inputs@.subrange(start as int, k as int));
                assert(s1.last() == inputs@[k as int]);
                assert(out@ =~= old(out)@ + inputs_bytes(s1, self.byte_size as nat));
            }
            k = k + 1;
        }
    }
}

/// The bytes of the blob's inputs that `inputs` has; none for an empty blob.
pub open spec fn blob_inputs_bytes(b: Blob, inputs: Seq<Input>) -> Seq<u8> {
    if b.length == 0 || b.start >= inputs.len() {
        Seq::empty()
    } else {
        let end = if b.start + b.length > inputs.len() {
            inputs.len() as int
        } else {
            b.start + b.length
        };
        inputs_bytes(inputs.subrange(b.start as int, end), b.byte_size as nat)
    }
}

} // verus!
