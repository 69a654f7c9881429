use vstd::prelude::*;

use crate::error::DbError;
use crate::val::string_from_utf8;

verus! {

/// Append `bytes` to `out` after their one-byte length.
pub fn serialize_ivec(bytes: &[u8], out: &mut Vec<u8>) -> (r: Result<(), DbError>)
    ensures
        bytes@.len() <= 255 ==> r == Ok::<(), DbError>(())
            && final(out)@ == old(out)@ + seq![bytes@.len() as u8] + bytes@,
        bytes@.len() > 255 ==> r == Err::<(), DbError>(DbError::TooLong)
            && final(out)@ == old(out)@,
{
    if bytes.len() > 255 {
        return Err(DbError::TooLong);
    }
    out.push(bytes.len() as u8);
    let ghost start = out@;
    let mut i: usize = 0;
    while i < bytes.len()
        invariant
            0 <= i <= bytes@.len(),
            out@ == start + bytes@.subrange(0, i as int),
        decreases bytes@.len() - i,
    {
        out.push(bytes[i]);
        i = i + 1;
        assert(out@ =~= start + bytes@.subrange(0, i as int));
    }
    assert(bytes@.subrange(0, i as int) =~= bytes@);
    Ok(())
}

/// The text that a byte string holds, if it is valid UTF-8.
pub fn display_ivec(bytes: &[u8]) -> (r: Result<String, DbError>)
    ensures
        r is Ok <==> vstd::utf8::valid_utf8(bytes@),
        r is Ok ==> r->Ok_0@ == vstd::utf8::decode_utf8(bytes@),
{
    match string_from_utf8(vstd::slice::slice_to_vec(bytes)) {
        Some(s) => Ok(s),
        None => Err(DbError::Decoding),
    }
}

} // verus!
