//! Storage naming: a new entry file is named by the content it holds,
//! so that re-writing identical content derives the identical name and
//! distinct entries cannot collide by accident.

use vstd::prelude::*;
use sha2::Digest;

verus! {

/// The SHA-256 digest of a byte sequence, a function of the bytes alone.
pub uninterp spec fn sha256_of(data: Seq<u8>) -> Seq<u8>;

/// Relies on sha2::Sha256: computes the SHA-256 digest of the bytes,
/// which depends on the bytes alone; its documented output length is 32
/// bytes.
#[verifier::external_body]
fn sha256_digest(data: &Vec<u8>) -> (r: Vec<u8>)
    ensures
        r@ == sha256_of(data@),
        r@.len() == 32,
{
    sha2::Sha256::digest(data.as_slice()).to_vec()
}

/// One lowercase hexadecimal digit.
pub open spec fn hex_digit(v: int) -> char {
    seq!['0', '1', '2', '3', '4', '5', '6', '7', '8', '9', 'a', 'b', 'c', 'd', 'e', 'f'][v]
}

/// The lowercase hexadecimal encoding of a byte sequence: two digits per
/// byte, most significant digit first, bytes in order.
pub open spec fn hex_of(data: Seq<u8>) -> Seq<char>
    decreases data.len(),
{
    if data.len() == 0 {
        Seq::empty()
    } else {
        hex_of(data.drop_last()) + seq![
            hex_digit(data.last() as int / 16),
            hex_digit(data.last() as int % 16),
        ]
    }
}

/// Relies on hex::encode: yields exactly the lowercase hexadecimal
/// encoding of the bytes, two digits per byte, most significant first.
#[verifier::external_body]
fn hex_encode(data: &Vec<u8>) -> (r: String)
    ensures
        r@ == hex_of(data@),
{
    hex::encode(data.as_slice())
}

/// The file name under which serialized entry content is stored: the
/// lowercase hexadecimal form of the content's SHA-256 digest, under the
/// entry-file extension. Identical content derives the identical name.
pub fn derived_file_name(content: &Vec<u8>) -> (name: String)
    ensures
        name@ == hex_of(sha256_of(content@)) + ".toml"@,
{
    let digest = sha256_digest(content);
    let hexs = hex_encode(&digest);
    hexs.concat(".toml")
}

} // verus!
