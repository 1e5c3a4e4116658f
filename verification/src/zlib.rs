//! The container envelope: two header bytes, the block loop, byte
//! alignment, and the four-byte big-endian checksum trailer.

use vstd::prelude::*;

use crate::adler32::adler32;
use crate::adler32::spec_adler32;
use crate::bitreader::BitReader;
use crate::bitreader::align8;
use crate::bitreader::spec_be_acc;
use crate::inflate::inflate_block;
use crate::inflate::lemma_block_advances;
use crate::inflate::spec_block;
use crate::zlib_errors::InflateError;
use crate::zlib_errors::ZlibError;

verus! {

/// What the two header bytes must satisfy: the mod-31 check, compression
/// method 8, window size 7, and no preset dictionary.
pub open spec fn spec_check_header(cmf: u8, flg: u8) -> Result<(), ZlibError> {
    if ((cmf as nat) * 256 + flg) % 31 != 0 {
        Err(ZlibError::ZlibCorrupted)
    } else if cmf & 0x0F != 8 {
        Err(ZlibError::InvalidZlibHeader { expected: 8, found: cmf & 0x0F })
    } else if cmf >> 4 != 7 {
        Err(ZlibError::InvalidZlibHeader { expected: 7, found: cmf >> 4 })
    } else if flg & 0x20 != 0 {
        Err(ZlibError::UnsupportedZlibAction)
    } else {
        Ok(())
    }
}

/// Blocks decoded one after the other from `pos` until one carries the
/// final flag; the result is the position after that block and the output.
pub open spec fn spec_blocks(data: Seq<u8>, pos: nat, out: Seq<u8>) -> Result<
    (nat, Seq<u8>),
    InflateError,
>
    decreases 8 * data.len() - pos,
{
    match spec_block(data, pos, out) {
        Err(e) => Err(e),
        Ok((bfinal, p2, out2)) => {
            if bfinal {
                Ok((p2, out2))
            } else {
                proof {
                    lemma_block_advances(data, pos, out);
                }
                spec_blocks(data, p2, out2)
            }
        },
    }
}

/// A finished block loop leaves the cursor inside the buffer.
pub proof fn lemma_blocks_in_bounds(data: Seq<u8>, pos: nat, out: Seq<u8>)
    ensures
        spec_blocks(data, pos, out) matches Ok(res) ==> res.0 <= data.len() * 8,
    decreases 8 * data.len() - pos,
{
    match spec_block(data, pos, out) {
        Err(_) => {},
        Ok((bfinal, p2, out2)) => {
            lemma_block_advances(data, pos, out);
            if !bfinal {
                lemma_blocks_in_bounds(data, p2, out2);
            }
        },
    }
}

/// The whole decode, as a function of the input bytes: header checks, the
/// block loop from bit 16, byte alignment, exactly four trailer bytes, and
/// the checksum comparison.
pub open spec fn spec_zlib_decode(data: Seq<u8>) -> Result<Seq<u8>, ZlibError> {
    if data.len() < 2 {
        Err(ZlibError::Inflate(InflateError::UnexpectedEof))
    } else {
        match spec_check_header(data[0], data[1]) {
            Err(e) => Err(e),
            Ok(_) => match spec_blocks(data, 16, Seq::empty()) {
                Err(e) => Err(ZlibError::Inflate(e)),
                Ok((p, out)) => match spec_trailer(data, p, out) {
                    Err(e) => Err(e),
                    Ok(_) => Ok(out),
                },
            },
        }
    }
}

/// Reads and validates the two header bytes.
fn check_zlib_header(br: &mut BitReader) -> (r: Result<(), ZlibError>)
    requires
        old(br).wf(),
        old(br).pos() == 0,
    ensures
        final(br).wf(),
        final(br).buf() == old(br).buf(),
        if old(br).buf().len() < 2 {
            r == Err::<(), ZlibError>(ZlibError::Inflate(InflateError::UnexpectedEof))
        } else {
            r == spec_check_header(old(br).buf()[0], old(br).buf()[1]) && (r is Ok
                ==> final(br).pos() == 16)
        },
{
    let cmf = match br.read_byte() {
        Ok(v) => v,
        Err(e) => {
            return Err(ZlibError::Inflate(e));
        },
    };
    let flg = match br.read_byte() {
        Ok(v) => v,
        Err(e) => {
            return Err(ZlibError::Inflate(e));
        },
    };
    let check = ((cmf as u16) << 8) | flg as u16;
    proof {
        assert(((cmf as u16) << 8) | flg as u16 == cmf as u16 * 256 + flg as u16) by (bit_vector);
        assert((cmf as u16 * 256 + flg as u16) as nat % 31 == ((cmf as nat) * 256 + flg) % 31);
    }
    if check % 31 != 0 {
        return Err(ZlibError::ZlibCorrupted);
    }
    let cm = cmf & 0x0F;
    let cinfo = cmf >> 4;
    if cm != 8 {
        return Err(ZlibError::InvalidZlibHeader { expected: 8, found: cm });
    }
    if cinfo != 7 {
        return Err(ZlibError::InvalidZlibHeader { expected: 7, found: cinfo });
    }
    if flg & 0x20 != 0 {
        return Err(ZlibError::UnsupportedZlibAction);
    }
    Ok(())
}

/// What remains after the final block: byte alignment, exactly four unread
/// bytes, and the big-endian trailer equal to the output's checksum.
pub open spec fn spec_trailer(data: Seq<u8>, pos: nat, out: Seq<u8>) -> Result<(), ZlibError> {
    let idx = align8(pos) / 8;
    let avail = data.len() - idx;
    if avail != 4 {
        Err(
            ZlibError::ZlibStreamNotConsumed {
                left: if avail >= 4 {
                    (avail - 4) as usize
                } else {
                    0
                },
            },
        )
    } else if spec_adler32(out) != spec_be_acc(data, idx, 4) {
        Err(ZlibError::ZlibChecksumMissmatch)
    } else {
        Ok(())
    }
}

/// Aligns to a byte, demands exactly the four trailer bytes, and verifies
/// the checksum of `out_buffer` against them.
fn verify_trailer(br: &mut BitReader, out_buffer: &Vec<u8>) -> (r: Result<(), ZlibError>)
    requires
        old(br).wf(),
    ensures
        final(br).wf(),
        final(br).buf() == old(br).buf(),
        r == spec_trailer(old(br).buf(), old(br).pos(), out_buffer@),
{
    proof {
        old(br).lemma_pos_in_bounds();
        crate::bitreader::lemma_align8(old(br).pos());
        crate::bitreader::lemma_align8_in_bounds(old(br).pos(), old(br).buf().len());
    }
    br.discard_bits();
    let ghost a = br.pos();
    let ghost gdata = old(br).buf();
    let avail = br.available();
    if avail != 4 {
        if avail >= 4 {
            return Err(ZlibError::ZlibStreamNotConsumed { left: avail - 4 });
        } else {
            return Err(ZlibError::ZlibStreamNotConsumed { left: 0 });
        }
    }
    proof {
        assert(a == 8 * (a / 8));
        crate::bitreader::lemma_be_acc_bound(gdata, a / 8, 4);
        vstd::arithmetic::power2::lemma2_to64();
        assert(a + 32 <= gdata.len() * 8) by (nonlinear_arith)
            requires
                a == 8 * (a / 8),
                gdata.len() - a / 8 == 4,
        ;
    }
    let check = match br.read_u32_msb() {
        Ok(v) => v,
        Err(_) => {
            proof {
                assert(false);
            }
            return Err(ZlibError::ZlibChecksumMissmatch);
        },
    };
    adler32(out_buffer, check)
}

/// Decodes a whole compressed buffer: validates the header, inflates blocks
/// until the final one, aligns to a byte, requires exactly the four trailer
/// bytes to remain, and verifies the checksum of the output against them.
pub fn decode_zlib_file(data: Vec<u8>) -> (r: Result<Vec<u8>, ZlibError>)
    ensures
        match spec_zlib_decode(data@) {
            Ok(out) => r matches Ok(v) && v@ == out,
            Err(e) => r == Err::<Vec<u8>, ZlibError>(e),
        },
{
    let ghost gdata = data@;
    let mut br = BitReader::from_data(data);
    match check_zlib_header(&mut br) {
        Ok(_) => {},
        Err(e) => {
            return Err(e);
        },
    }
    let mut out_buffer: Vec<u8> = Vec::new();
    proof {
        assert(out_buffer@ =~= Seq::<u8>::empty());
    }
    loop
        invariant
            br.wf(),
            br.buf() == gdata,
            br.pos() <= br.total_bits(),
            spec_blocks(gdata, br.pos(), out_buffer@) == spec_blocks(gdata, 16, Seq::empty()),
        decreases br.total_bits() - br.pos(),
    {
        let ghost pos_it = br.pos();
        let ghost out_it = out_buffer@;
        let last = match inflate_block(&mut out_buffer, &mut br) {
            Ok(v) => v,
            Err(e) => {
                return Err(ZlibError::Inflate(e));
            },
        };
        proof {
            lemma_block_advances(gdata, pos_it, out_it);
            br.lemma_pos_in_bounds();
        }
        if last {
            break;
        }
    }
    match verify_trailer(&mut br, &out_buffer) {
        Ok(_) => {},
        Err(e) => {
            return Err(e);
        },
    }
    Ok(out_buffer)
}

} // verus!
