//! The rolling checksum over the decoded output: two running sums modulo
//! 65521, packed as `(s2 << 16) | s1`, starting from `s1 = 1, s2 = 0`.

use vstd::prelude::*;

use crate::zlib_errors::ZlibError;

verus! {

/// One pass of the two running sums over `buf`, starting from `(s1, s2)`.
pub open spec fn spec_adler_loop(s1: nat, s2: nat, buf: Seq<u8>) -> (nat, nat)
    decreases buf.len(),
{
    if buf.len() == 0 {
        (s1, s2)
    } else {
        let n1 = ((s1 + buf[0]) % 65521) as nat;
        spec_adler_loop(n1, ((s2 + n1) % 65521) as nat, buf.drop_first())
    }
}

/// The checksum continued from a previous packed state `adler` over `buf`.
pub open spec fn spec_update_adler32(adler: u32, buf: Seq<u8>) -> nat {
    let r = spec_adler_loop((adler & 0xffff) as nat, ((adler >> 16) & 0xffff) as nat, buf);
    (r.1 * 0x10000 + r.0) as nat
}

/// The checksum of `buf` from the initial state.
pub open spec fn spec_adler32(buf: Seq<u8>) -> nat {
    spec_update_adler32(1, buf)
}

/// Both running sums stay below the modulus once one step has been taken,
/// so the packed result fits in 32 bits.
proof fn lemma_adler_loop_bound(s1: nat, s2: nat, buf: Seq<u8>)
    requires
        s1 < 65521,
        s2 < 65521,
    ensures
        spec_adler_loop(s1, s2, buf).0 < 65521,
        spec_adler_loop(s1, s2, buf).1 < 65521,
    decreases buf.len(),
{
    if buf.len() != 0 {
        let n1 = ((s1 + buf[0]) % 65521) as nat;
        lemma_adler_loop_bound(n1, ((s2 + n1) % 65521) as nat, buf.drop_first());
    }
}

/// Continues the checksum from the packed state `adler` over `buf`.
pub fn update_adler32(adler: u32, buf: &Vec<u8>) -> (r: u32)
    ensures
        r == spec_update_adler32(adler, buf@),
{
    let mut s1: u32 = adler & 0xffff;
    let mut s2: u32 = (adler >> 16) & 0xffff;
    proof {
        assert(adler & 0xffff < 0x10000 && (adler >> 16) & 0xffff < 0x10000) by (bit_vector);
    }
    let mut i: usize = 0;
    proof {
        assert(buf@.skip(0) =~= buf@);
    }
    while i < buf.len()
        invariant
            i <= buf@.len(),
            s1 < 65521 || (i == 0 && s1 < 0x10000),
            s2 < 65521 || (i == 0 && s2 < 0x10000),
            spec_adler_loop(s1 as nat, s2 as nat, buf@.skip(i as int)) == spec_adler_loop(
                (adler & 0xffff) as nat,
                ((adler >> 16) & 0xffff) as nat,
                buf@,
            ),
        decreases buf@.len() - i,
    {
        let v = buf[i];
        proof {
            assert(buf@.skip(i as int).drop_first() =~= buf@.skip(i as int + 1));
            assert(buf@.skip(i as int)[0] == buf@[i as int]);
        }
        s1 = (s1 + v as u32) % 65521;
        s2 = (s2 + s1) % 65521;
        i = i + 1;
    }
    proof {
        assert(buf@.skip(buf@.len() as int) =~= Seq::<u8>::empty());
        assert(s2 << 16 == s2 * 0x10000) by (bit_vector)
            requires
                s2 < 0x10000,
        ;
        assert(s2 * 0x10000 <= 0xffff * 0x10000);
    }
    (s2 << 16) + s1
}

/// Verifies `check` against the checksum of `buf` from the initial state:
/// `Ok` exactly when they agree.
pub fn adler32(buf: &Vec<u8>, check: u32) -> (r: Result<(), ZlibError>)
    ensures
        r == if spec_adler32(buf@) == check {
            Ok::<(), ZlibError>(())
        } else {
            Err::<(), ZlibError>(ZlibError::ZlibChecksumMissmatch)
        },

{
    let r = update_adler32(1, buf);
    if r != check {
        return Err(ZlibError::ZlibChecksumMissmatch);
    }
    Ok(())
}

} // verus!
