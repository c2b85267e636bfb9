//! Big-endian encoding of `u64` values as 8-byte sequences.
//!
//! Every fixed-width field of the registry and log formats is stored this
//! way: most significant byte first.

use vstd::prelude::*;

verus! {

/// The 8-byte big-endian encoding of `x`.
pub open spec fn spec_u64_to_be_bytes(x: u64) -> Seq<u8> {
    seq![
        ((x >> 56) & 0xff) as u8,
        ((x >> 48) & 0xff) as u8,
        ((x >> 40) & 0xff) as u8,
        ((x >> 32) & 0xff) as u8,
        ((x >> 24) & 0xff) as u8,
        ((x >> 16) & 0xff) as u8,
        ((x >> 8) & 0xff) as u8,
        (x & 0xff) as u8,
    ]
}

/// The value read from an 8-byte big-endian sequence.
pub open spec fn spec_u64_from_be_bytes(s: Seq<u8>) -> u64
    recommends
        s.len() == 8,
{
    ((s[0] as u64) << 56 | (s[1] as u64) << 48 | (s[2] as u64) << 40 | (s[3] as u64) << 32 | (
    s[4] as u64) << 24 | (s[5] as u64) << 16 | (s[6] as u64) << 8 | (s[7] as u64))
}

/// Encoding and decoding are mutually inverse.
pub proof fn lemma_u64_be_bytes_roundtrip()
    ensures
        forall|x: u64|
            #![trigger spec_u64_to_be_bytes(x)]
            {
                &&& spec_u64_to_be_bytes(x).len() == 8
                &&& spec_u64_from_be_bytes(spec_u64_to_be_bytes(x)) == x
            },
        forall|s: Seq<u8>|
            #![trigger spec_u64_to_be_bytes(spec_u64_from_be_bytes(s))]
            s.len() == 8 ==> spec_u64_to_be_bytes(spec_u64_from_be_bytes(s)) == s,
{
    assert forall|x: u64|
        {
            &&& #[trigger] spec_u64_to_be_bytes(x).len() == 8
            &&& spec_u64_from_be_bytes(spec_u64_to_be_bytes(x)) == x
        } by {
        assert(((((x >> 56) & 0xff) as u8) as u64) << 56 | ((((x >> 48) & 0xff) as u8) as u64)
            << 48 | ((((x >> 40) & 0xff) as u8) as u64) << 40 | ((((x >> 32) & 0xff) as u8) as u64)
            << 32 | ((((x >> 24) & 0xff) as u8) as u64) << 24 | ((((x >> 16) & 0xff) as u8) as u64)
            << 16 | ((((x >> 8) & 0xff) as u8) as u64) << 8 | (((x & 0xff) as u8) as u64) == x)
            by (bit_vector);
    };
    assert forall|s: Seq<u8>| s.len() == 8 implies #[trigger] spec_u64_to_be_bytes(
        spec_u64_from_be_bytes(s),
    ) == s by {
        let x = spec_u64_from_be_bytes(s);
        let s0 = s[0] as u64;
        let s1 = s[1] as u64;
        let s2 = s[2] as u64;
        let s3 = s[3] as u64;
        let s4 = s[4] as u64;
        let s5 = s[5] as u64;
        let s6 = s[6] as u64;
        let s7 = s[7] as u64;
        assert(((x == s0 << 56 | s1 << 48 | s2 << 40 | s3 << 32 | s4 << 24 | s5 << 16 | s6 << 8
            | s7) && (s0 < 256) && (s1 < 256) && (s2 < 256) && (s3 < 256) && (s4 < 256) && (s5
            < 256) && (s6 < 256) && (s7 < 256)) ==> s0 == ((x >> 56) & 0xff) && s1 == ((x >> 48)
            & 0xff) && s2 == ((x >> 40) & 0xff) && s3 == ((x >> 32) & 0xff) && s4 == ((x >> 24)
            & 0xff) && s5 == ((x >> 16) & 0xff) && s6 == ((x >> 8) & 0xff) && s7 == (x & 0xff))
            by (bit_vector);
        assert(spec_u64_to_be_bytes(spec_u64_from_be_bytes(s)) =~= s);
    }
}

/// Appends the 8-byte big-endian encoding of `x` to `out`.
pub fn push_u64_be(out: &mut Vec<u8>, x: u64)
    ensures
        final(out)@ == old(out)@ + spec_u64_to_be_bytes(x),
{
    proof {
        lemma_u64_be_bytes_roundtrip();
    }
    out.push(((x >> 56) & 0xff) as u8);
    out.push(((x >> 48) & 0xff) as u8);
    out.push(((x >> 40) & 0xff) as u8);
    out.push(((x >> 32) & 0xff) as u8);
    out.push(((x >> 24) & 0xff) as u8);
    out.push(((x >> 16) & 0xff) as u8);
    out.push(((x >> 8) & 0xff) as u8);
    out.push((x & 0xff) as u8);
    assert(out@ =~= old(out)@ + spec_u64_to_be_bytes(x));
}

/// Reads the big-endian `u64` stored at `v[at .. at + 8]`.
pub fn read_u64_be(v: &Vec<u8>, at: usize) -> (x: u64)
    requires
        at + 8 <= v.len(),
    ensures
        x == spec_u64_from_be_bytes(v@.subrange(at as int, at + 8)),
{
    let b0 = v[at];
    let b1 = v[at + 1];
    let b2 = v[at + 2];
    let b3 = v[at + 3];
    let b4 = v[at + 4];
    let b5 = v[at + 5];
    let b6 = v[at + 6];
    let b7 = v[at + 7];
    let x: u64 = (b0 as u64) << 56 | (b1 as u64) << 48 | (b2 as u64) << 40 | (b3 as u64) << 32 | (
    b4 as u64) << 24 | (b5 as u64) << 16 | (b6 as u64) << 8 | (b7 as u64);
    proof {
        let s = v@.subrange(at as int, at + 8);
        assert(s[0] == b0 && s[1] == b1 && s[2] == b2 && s[3] == b3 && s[4] == b4 && s[5] == b5
            && s[6] == b6 && s[7] == b7);
    }
    x
}

} // verus!
