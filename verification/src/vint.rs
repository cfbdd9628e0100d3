//! Variable-length integer codec.
//!
//! Little-endian 7-bit chunks: each byte contributes its low 7 bits at an
//! increasing shift, and the byte with its high bit set terminates the value.

use vstd::prelude::*;

verus! {

/// Decodes one variable-length integer from the front of `s`.
///
/// Returns the decoded value and the number of bytes consumed, or `None` when
/// `s` is empty, ends before a terminating byte, or the value would not fit in
/// 64 bits.
pub open spec fn vint_dec(s: Seq<u8>) -> Option<(int, int)>
    decreases s.len(),
{
    if s.len() == 0 {
        None
    } else if s[0] >= 128 {
        Some(((s[0] - 128) as int, 1))
    } else {
        match vint_dec(s.skip(1)) {
            None => None,
            Some((v, k)) => {
                let val = s[0] + 128 * v;
                if val < 0x1_0000_0000_0000_0000 {
                    Some((val as int, k + 1))
                } else {
                    None
                }
            },
        }
    }
}

/// The canonical encoding of `n` as a variable-length integer.
pub open spec fn vint_enc(n: int) -> Seq<u8>
    recommends
        0 <= n < 0x1_0000_0000_0000_0000,
    decreases n,
{
    if n < 128 {
        seq![(n + 128) as u8]
    } else {
        seq![(n % 128) as u8] + vint_enc(n / 128)
    }
}

/// An encoded value decodes back to itself, whatever bytes follow it.
pub proof fn lemma_vint_round_trip(n: int, rest: Seq<u8>)
    requires
        0 <= n < 0x1_0000_0000_0000_0000,
    ensures
        vint_dec(vint_enc(n) + rest) == Some((n, vint_enc(n).len() as int)),
    decreases n,
{
    let s = vint_enc(n) + rest;
    if n < 128 {
        assert(vint_enc(n) == seq![(n + 128) as u8]);
        assert(s[0] == (n + 128) as u8);
        assert(s.len() == 1 + rest.len());
    } else {
        assert(0 <= n / 128 < n) by (nonlinear_arith)
            requires 128 <= n;
        assert(vint_enc(n) == seq![(n % 128) as u8] + vint_enc(n / 128));
        lemma_vint_round_trip(n / 128, rest);
        assert(s.skip(1) =~= vint_enc(n / 128) + rest);
        assert(s[0] == (n % 128) as u8);
        assert(0 <= n % 128 < 128) by (nonlinear_arith)
            requires 128 <= n;
        assert(n % 128 + 128 * (n / 128) == n) by (nonlinear_arith);
        assert(vint_dec(s) == Some((n, 1 + vint_enc(n / 128).len() as int)));
        assert(vint_enc(n).len() == 1 + vint_enc(n / 128).len());
    }
}

/// Appends the encoding of `n` to `out`.
pub fn serialize_vint(n: u64, out: &mut Vec<u8>)
    ensures
        final(out)@ == old(out)@ + vint_enc(n as int),
{
    let mut rem: u64 = n;
    while rem >= 128
        invariant
            out@ + vint_enc(rem as int) == old(out)@ + vint_enc(n as int),
        decreases rem,
    {
        proof {
            assert(vint_enc(rem as int) == seq![(rem as int % 128) as u8] + vint_enc(
                rem as int / 128,
            ));
            assert(out@ + vint_enc(rem as int) == (out@ + seq![(rem % 128) as u8]) + vint_enc(
                rem as int / 128,
            ));
        }
        out.push((rem % 128) as u8);
        rem = rem / 128;
    }
    proof {
        assert(vint_enc(rem as int) == seq![(rem + 128) as u8]);
    }
    out.push((rem + 128) as u8);
    proof {
        assert(final(out)@ =~= old(out)@ + vint_enc(n as int));
    }
}

/// Reads one variable-length integer from `data` starting at `offset`.
///
/// Returns the value and the offset of the first byte after it; `None` exactly
/// when the bytes at `offset` do not hold a well-formed value.
pub fn deserialize_vint(data: &Vec<u8>, offset: usize) -> (r: Option<(u64, usize)>)
    requires
        offset <= data@.len(),
    ensures
        match r {
            Some((v, end)) => offset < end <= data@.len() && vint_dec(data@.skip(offset as int))
                == Some((v as int, end - offset)),
            None => vint_dec(data@.skip(offset as int)) is None,
        },
    decreases data@.len() - offset,
{
    if offset >= data.len() {
        return None;
    }
    let b = data[offset];
    proof {
        assert(data@.skip(offset as int)[0] == data@[offset as int]);
        assert(data@.skip(offset as int).skip(1) =~= data@.skip(offset as int + 1));
    }
    if b >= 128 {
        Some(((b - 128) as u64, offset + 1))
    } else {
        match deserialize_vint(data, offset + 1) {
            None => None,
            Some((v, end)) => {
                if v <= (u64::MAX - (b as u64)) / 128 {
                    proof {
                        assert((b as int) + 128 * (v as int) <= u64::MAX as int) by (nonlinear_arith)
                            requires
                                v as int <= ((u64::MAX - (b as u64)) / 128) as int,
                                0 <= b < 128,
                                0 <= v,
                        ;
                    }
                    Some(((b as u64) + 128 * v, end))
                } else {
                    proof {
                        assert((b as int) + 128 * (v as int) >= 0x1_0000_0000_0000_0000)
                            by (nonlinear_arith)
                            requires
                                v as int > ((u64::MAX - (b as u64)) / 128) as int,
                                0 <= b < 128,
                        ;
                    }
                    None
                }
            },
        }
    }
}

} // verus!
// (continued)

verus! {

/// A decoded value is unaffected by bytes appended after the input.
pub proof fn lemma_vint_dec_extend(s: Seq<u8>, ext: Seq<u8>)
    requires
        vint_dec(s) is Some,
    ensures
        vint_dec(s + ext) == vint_dec(s),
    decreases s.len(),
{
    assert((s + ext).len() > 0);
    assert((s + ext)[0] == s[0]);
    if s[0] < 128 {
        assert(vint_dec(s.skip(1)) is Some);
        lemma_vint_dec_extend(s.skip(1), ext);
        assert((s + ext).skip(1) =~= s.skip(1) + ext);
    }
}

} // verus!
