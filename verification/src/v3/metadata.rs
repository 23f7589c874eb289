//! The fixed-size metadata block of an SLC3 replay.

use vstd::prelude::*;
use crate::bytes::{
    le_value,
    le_bytes,
    read_le,
    write_le,
    lemma_le_bytes_len,
    lemma_le_round_trip,
    lemma_le_value_bound,
    lemma_le_bytes_of_value,
    lemma_pow256_values,
};

verus! {

/// The size of the metadata block, in bytes.
pub const METADATA_SIZE: usize = 64;

/// The metadata of an SLC3 replay. `tps_bits` is the bit pattern of the
/// replay's tick rate.
#[derive(Clone, Copy, Debug, PartialEq, Eq, Structural)]
pub struct Metadata {
    pub tps_bits: u64,
    pub seed: u64,
    pub version: u32,
    pub build: u32,
    pub randomness_algorithm: u32,
}

/// `n` zero bytes.
pub open spec fn zeros(n: nat) -> Seq<u8> {
    Seq::new(n, |i: int| 0u8)
}

impl Metadata {
    /// Metadata of the current version (2), with the default randomness algorithm.
    pub fn new(tps_bits: u64, seed: u64, build: u32) -> (r: Self)
        ensures
            r == (Metadata { tps_bits, seed, version: 2, build, randomness_algorithm: 0 }),
    {
        Metadata { tps_bits, seed, version: 2, build, randomness_algorithm: 0 }
    }

    /// The block: the fields in order, little-endian, then zero padding.
    pub open spec fn spec_bytes(self) -> Seq<u8> {
        le_bytes(self.tps_bits as nat, 8) + le_bytes(self.seed as nat, 8) + le_bytes(
            self.version as nat,
            4,
        ) + le_bytes(self.build as nat, 4) + le_bytes(self.randomness_algorithm as nat, 4) + zeros(
            36,
        )
    }

    /// The metadata that the block `b` holds; the padding is not looked at.
    pub open spec fn spec_parse(b: Seq<u8>) -> Metadata {
        Metadata {
            tps_bits: le_value(b.subrange(0, 8)) as u64,
            seed: le_value(b.subrange(8, 16)) as u64,
            version: le_value(b.subrange(16, 20)) as u32,
            build: le_value(b.subrange(20, 24)) as u32,
            randomness_algorithm: le_value(b.subrange(24, 28)) as u32,
        }
    }

    /// Reads the block at `pos`; gives nothing where fewer than its 64
    /// bytes are left.
    pub fn read(data: &[u8], pos: usize) -> (r: Option<Self>)
        ensures
            pos + 64 <= data@.len() ==> r == Some(
                Self::spec_parse(data@.subrange(pos as int, pos + 64)),
            ),
            pos + 64 > data@.len() ==> r is None,
    {
        let len = data.len();
        if pos > len || len - pos < METADATA_SIZE {
            return None;
        }
        let tps_bits = read_le(data, pos, 8);
        let seed = read_le(data, pos + 8, 8);
        let version = read_le(data, pos + 16, 4);
        let build = read_le(data, pos + 20, 4);
        let randomness_algorithm = read_le(data, pos + 24, 4);
        proof {
            lemma_pow256_values();
            let b = data@.subrange(pos as int, pos + 64);
            assert(b.subrange(0, 8) =~= data@.subrange(pos as int, pos + 8));
            assert(b.subrange(8, 16) =~= data@.subrange(pos + 8, pos + 16));
            assert(b.subrange(16, 20) =~= data@.subrange(pos + 16, pos + 20));
            assert(b.subrange(20, 24) =~= data@.subrange(pos + 20, pos + 24));
            assert(b.subrange(24, 28) =~= data@.subrange(pos + 24, pos + 28));
            lemma_le_value_bound(b.subrange(16, 20));
            lemma_le_value_bound(b.subrange(20, 24));
            lemma_le_value_bound(b.subrange(24, 28));
        }
        Some(
            Metadata {
                tps_bits,
                seed,
                version: version as u32,
                build: build as u32,
                randomness_algorithm: randomness_algorithm as u32,
            },
        )
    }

    /// Appends the block.
    pub fn write(&self, out: &mut Vec<u8>)
        ensures
            final(out)@ == old(out)@ + self.spec_bytes(),
    {
        write_le(out, self.tps_bits, 8);
        write_le(out, self.seed, 8);
        write_le(out, self.version as u64, 4);
        write_le(out, self.build as u64, 4);
        write_le(out, self.randomness_algorithm as u64, 4);
        let mut i: usize = 0;
        let ghost mid = out@;
        while i < 36
            invariant
                i <= 36,
                out@ =~= mid + zeros(i as nat),
            decreases 36 - i,
        {
            out.push(0u8);
            i = i + 1;
        }
        proof {
            assert(final(out)@ =~= old(out)@ + self.spec_bytes());
        }
    }
}

/// The block of the metadata reads back as the metadata.
pub proof fn lemma_metadata_round_trip(m: Metadata)
    ensures
        m.spec_bytes().len() == 64,
        Metadata::spec_parse(m.spec_bytes()) == m,
{
    lemma_pow256_values();
    lemma_le_round_trip(m.tps_bits as nat, 8);
    lemma_le_round_trip(m.seed as nat, 8);
    lemma_le_round_trip(m.version as nat, 4);
    lemma_le_round_trip(m.build as nat, 4);
    lemma_le_round_trip(m.randomness_algorithm as nat, 4);
    let b = m.spec_bytes();
    assert(b.subrange(0, 8) =~= le_bytes(m.tps_bits as nat, 8));
    assert(b.subrange(8, 16) =~= le_bytes(m.seed as nat, 8));
    assert(b.subrange(16, 20) =~= le_bytes(m.version as nat, 4));
    assert(b.subrange(20, 24) =~= le_bytes(m.build as nat, 4));
    assert(b.subrange(24, 28) =~= le_bytes(m.randomness_algorithm as nat, 4));
}

/// A block whose padding is zero is what its metadata is written as.
pub proof fn lemma_parse_canonical(b: Seq<u8>)
    requires
        b.len() == 64,
        b.subrange(28, 64) == zeros(36),
    ensures
        Metadata::spec_parse(b).spec_bytes() == b,
{
    lemma_pow256_values();
    let m = Metadata::spec_parse(b);
    lemma_le_value_bound(b.subrange(0, 8));
    lemma_le_value_bound(b.subrange(8, 16));
    lemma_le_value_bound(b.subrange(16, 20));
    lemma_le_value_bound(b.subrange(20, 24));
    lemma_le_value_bound(b.subrange(24, 28));
    lemma_le_bytes_of_value(b.subrange(0, 8));
    lemma_le_bytes_of_value(b.subrange(8, 16));
    lemma_le_bytes_of_value(b.subrange(16, 20));
    lemma_le_bytes_of_value(b.subrange(20, 24));
    lemma_le_bytes_of_value(b.subrange(24, 28));
    assert(m.tps_bits as nat == le_value(b.subrange(0, 8)));
    assert(m.seed as nat == le_value(b.subrange(8, 16)));
    assert(m.version as nat == le_value(b.subrange(16, 20)));
    assert(m.build as nat == le_value(b.subrange(20, 24)));
    assert(m.randomness_algorithm as nat == le_value(b.subrange(24, 28)));
    assert(b =~= b.subrange(0, 8) + b.subrange(8, 16) + b.subrange(16, 20) + b.subrange(20, 24)
        + b.subrange(24, 28) + b.subrange(28, 64));
}

} // verus!
