use vstd::prelude::*;
use vstd::string::StringSliceAdditionalSpecFns;

verus! {

#[verifier::external_type_specification]
#[verifier::external_body]
pub struct ExBincodeErrorKind(bincode::ErrorKind);

/// The eight little-endian bytes of a 64-bit value.
pub open spec fn le64_bytes(x: u64) -> Seq<u8> {
    Seq::new(8, |i: int| ((x >> ((8 * i) as u64)) & 0xffu64) as u8)
}

/// The bincode encoding of a string: its byte length as a little-endian
/// `u64`, then its UTF-8 bytes.
pub open spec fn encoded_phrase(bytes: Seq<u8>) -> Seq<u8> {
    le64_bytes(bytes.len() as u64) + bytes
}

/// Relies on `bincode::serialize` under its default options (fixed-width,
/// little-endian integers, no size limit, written into a `Vec`): a string
/// always encodes, as its length, then its bytes.
#[verifier::external_body]
fn serialize_phrase(s: &str) -> (r: Result<Vec<u8>, Box<bincode::ErrorKind>>)
    ensures
        r is Ok,
        r matches Ok(v) ==> v@ == encoded_phrase(s.spec_bytes()),
{
    bincode::serialize(s)
}

/// The mCaptcha message prefix: the salt, then the encoded phrase.
pub fn build_prefix(string: &str, salt: &str) -> (r: Vec<u8>)
    ensures
        r@ == salt.spec_bytes() + encoded_phrase(string.spec_bytes()),
{
    match serialize_phrase(string) {
        Err(_) => Vec::new(),
        Ok(enc) => {
            let sb = salt.as_bytes();
            let mut out: Vec<u8> = Vec::new();
            let mut i: usize = 0;
            while i < sb.len()
                invariant
                    i <= sb@.len(),
                    out@ == sb@.subrange(0, i as int),
                decreases sb@.len() - i,
            {
                out.push(sb[i]);
                i += 1;
            }
            let mut j: usize = 0;
            while j < enc.len()
                invariant
                    j <= enc@.len(),
                    out@ == sb@ + enc@.subrange(0, j as int),
                decreases enc@.len() - j,
            {
                out.push(enc[j]);
                j += 1;
            }
            assert(sb@.subrange(0, sb@.len() as int) =~= sb@);
            assert(enc@.subrange(0, enc@.len() as int) =~= enc@);
            out
        }
    }
}

} // verus!
