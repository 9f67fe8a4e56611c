//! Variable-length unsigned integer codec.
//!
//! Every length prefix and position-table entry in the arena uses this
//! encoding: seven value bits per byte, least significant group first, and
//! the high bit set on every byte but the last.  A 32-bit value takes at
//! most five bytes.

use vstd::prelude::*;

verus! {

/// The encoding of `n`: low seven bits first, continuation bit on every
/// byte but the last.
pub open spec fn vint_enc(n: u32) -> Seq<u8>
    decreases n,
{
    if n < 128 {
        seq![n as u8]
    } else {
        seq![(128 + n % 128) as u8] + vint_enc(n / 128)
    }
}

/// Parse one variable-length integer from the front of `bytes`: the value
/// and the count of bytes consumed.  `None` on an empty or truncated
/// buffer, on an encoding longer than five bytes, and on a value that does
/// not fit in 32 bits.
pub open spec fn vint_dec(bytes: Seq<u8>) -> Option<(u32, int)>
    decreases bytes.len(),
{
    if bytes.len() == 0 {
        None
    } else if bytes[0] < 128 {
        Some((bytes[0] as u32, 1))
    } else {
        match vint_dec(bytes.skip(1)) {
            None => None,
            Some((hi, k)) => {
                let v: int = (bytes[0] - 128) + 128 * (hi as int);
                if k < 5 && v < 0x1_0000_0000 {
                    Some((v as u32, k + 1))
                } else {
                    None
                }
            },
        }
    }
}

/// An encoding takes one to five bytes.
pub proof fn lemma_vint_enc_len(n: u32)
    ensures
        1 <= vint_enc(n).len() <= 5,
{
    lemma_vint_enc_len_exact(n);
}

/// Exact length of an encoding, by value range.
pub proof fn lemma_vint_enc_len_exact(n: u32)
    ensures
        vint_enc(n).len() == if n < 0x80 {
            1int
        } else if n < 0x4000 {
            2int
        } else if n < 0x200000 {
            3int
        } else if n < 0x10000000 {
            4int
        } else {
            5int
        },
    decreases n,
{
    if n >= 128 {
        lemma_vint_enc_len_exact(n / 128);
    }
}

/// Decoding undoes encoding, whatever follows it in the buffer.
pub proof fn lemma_vint_round_trip(n: u32, rest: Seq<u8>)
    ensures
        vint_dec(vint_enc(n) + rest) == Some((n, vint_enc(n).len() as int)),
    decreases n,
{
    lemma_vint_enc_len_exact(n);
    if n < 128 {
        assert(vint_enc(n) + rest =~= seq![n as u8] + rest);
        assert((seq![n as u8] + rest)[0] == n as u8);
    } else {
        lemma_vint_round_trip(n / 128, rest);
        let whole = vint_enc(n) + rest;
        assert(whole[0] == (128 + n % 128) as u8);
        assert(whole.skip(1) =~= vint_enc(n / 128) + rest);
        lemma_vint_enc_len_exact(n / 128);
        assert((whole[0] - 128) + 128 * ((n / 128) as int) == n) by {
            vstd::arithmetic::div_mod::lemma_fundamental_div_mod(n as int, 128);
        };
    }
}

/// A successful parse consumes between one and five bytes, never more than
/// the buffer holds.
pub proof fn lemma_vint_dec_len(bytes: Seq<u8>)
    ensures
        match vint_dec(bytes) {
            Some((_v, k)) => 1 <= k <= 5 && k <= bytes.len(),
            None => true,
        },
    decreases bytes.len(),
{
    if bytes.len() > 0 && bytes[0] >= 128 {
        lemma_vint_dec_len(bytes.skip(1));
    }
}

/// A parse that succeeded still succeeds, with the same result, after more
/// bytes are appended to the buffer.
pub proof fn lemma_vint_dec_stable(bytes: Seq<u8>, ext: Seq<u8>)
    ensures
        vint_dec(bytes) is Some ==> vint_dec(bytes + ext) == vint_dec(bytes),
    decreases bytes.len(),
{
    if bytes.len() > 0 {
        assert((bytes + ext)[0] == bytes[0]);
        if bytes[0] >= 128 {
            lemma_vint_dec_stable(bytes.skip(1), ext);
            assert((bytes + ext).skip(1) =~= bytes.skip(1) + ext);
        }
    }
}

/// Append the encoding of `n` to `out`.
pub fn write_vint_u32(out: &mut Vec<u8>, n: u32)
    ensures
        final(out)@ == old(out)@ + vint_enc(n),
{
    let ghost start = out@;
    let mut m: u32 = n;
    while m >= 128
        invariant
            out@ + vint_enc(m) == start + vint_enc(n),
        decreases m,
    {
        out.push((128 + m % 128) as u8);
        assert(vint_enc(m) == seq![(128 + m % 128) as u8] + vint_enc(m / 128));
        assert(out@ + vint_enc(m / 128) =~= start + vint_enc(n));
        m = m / 128;
    }
    out.push(m as u8);
    assert(vint_enc(m) == seq![m as u8]);
    assert(out@ =~= start + vint_enc(n));
}

/// Parse one variable-length integer from `data` at `pos`, exactly as
/// `vint_dec` reads the bytes from `pos` on.
pub fn read_vint_u32(data: &[u8], pos: usize) -> (r: Option<(u32, usize)>)
    requires
        pos <= data.len(),
    ensures
        match r {
            None => vint_dec(data@.skip(pos as int)) is None,
            Some((v, k)) => vint_dec(data@.skip(pos as int)) == Some((v, k as int)) && pos + k
                <= data.len(),
        },
    decreases data.len() - pos,
{
    if pos == data.len() {
        assert(data@.skip(pos as int) =~= Seq::<u8>::empty());
        return None;
    }
    let b = *vstd::slice::slice_index_get(data, pos);
    assert(data@.skip(pos as int)[0] == b);
    if b < 128 {
        return Some((b as u32, 1));
    }
    assert(data@.skip(pos as int).skip(1) =~= data@.skip(pos as int + 1));
    match read_vint_u32(data, pos + 1) {
        None => None,
        Some((hi, k)) => {
            let low: u32 = (b - 128) as u32;
            if k < 5 && hi <= (u32::MAX - low) / 128 {
                Some((low + 128 * hi, k + 1))
            } else {
                None
            }
        },
    }
}

} // verus!
