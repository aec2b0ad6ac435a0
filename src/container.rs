//! Locating the DEFLATE payload inside a gzip container.
use vstd::prelude::*;

verus! {

/// Why a gzip container was refused.
#[derive(Debug, Clone, Copy, PartialEq, Eq, Structural)]
pub enum HeaderError {
    /// The first two bytes are not the gzip magic `1f 8b`.
    NotGzip,
    /// The flag byte asks for a header field other than the file name.
    Unsupported,
    /// The header ends before it is complete.
    Truncated,
}

/// The bytes open with the gzip magic.
pub open spec fn has_magic(buf: Seq<u8>) -> bool {
    buf.len() >= 2 && buf[0] == 0x1f && buf[1] == 0x8b
}

/// No zero byte among `buf[from..to]`.
pub open spec fn no_nul(buf: Seq<u8>, from: int, to: int) -> bool {
    forall|i: int| from <= i < to ==> buf[i] != 0
}

/// Where the DEFLATE stream starts in a gzip container: after the 10-byte
/// header, and after the zero-terminated file name when the flag byte is 8.
/// Flag bytes other than 0 and 8 are refused.
pub fn payload_start(buf: &[u8]) -> (r: Result<usize, HeaderError>)
    ensures
        match r {
            Ok(s) => has_magic(buf@) && buf@.len() >= 4 && ((buf@[3] == 0 && s == 10 && s
                <= buf@.len()) || (buf@[3] == 8 && 10 < s <= buf@.len() && buf@[s - 1] == 0
                && no_nul(buf@, 10, s - 1))),
            Err(e) => match e {
                HeaderError::NotGzip => !has_magic(buf@),
                HeaderError::Unsupported => has_magic(buf@) && buf@.len() >= 4 && buf@[3] != 0
                    && buf@[3] != 8,
                HeaderError::Truncated => has_magic(buf@) && (buf@.len() < 4 || (buf@[3] == 0
                    && buf@.len() < 10) || (buf@[3] == 8 && no_nul(buf@, 10, buf@.len() as int))),
            },
        },
{
    if buf.len() < 2 || buf[0] != 0x1f || buf[1] != 0x8b {
        return Err(HeaderError::NotGzip);
    }
    if buf.len() < 4 {
        return Err(HeaderError::Truncated);
    }
    if buf[3] == 0 {
        if buf.len() < 10 {
            return Err(HeaderError::Truncated);
        }
        return Ok(10);
    }
    if buf[3] != 8 {
        return Err(HeaderError::Unsupported);
    }
    let mut i: usize = 10;
    while i < buf.len()
        invariant
            10 <= i,
            buf@.len() >= 4,
            buf@[3] == 8,
            has_magic(buf@),
            no_nul(buf@, 10, i as int),
        decreases buf.len() - i,
    {
        if buf[i] == 0 {
            return Ok(i + 1);
        }
        i = i + 1;
    }
    Err(HeaderError::Truncated)
}

} // verus!
