use base64::engine::general_purpose;
use base64::Engine;
use vstd::prelude::*;

verus! {

/// The standard base64 text of `bytes`, without padding.
pub uninterp spec fn base64_no_pad(bytes: Seq<u8>) -> Seq<char>;

/// The length of unpadded base64 text: four characters for each full group
/// of three bytes, and two or three for a trailing one or two bytes.
pub open spec fn encoded_len(n: nat) -> nat {
    4 * (n / 3) + if n % 3 == 0 {
        0
    } else {
        n % 3 + 1
    }
}

/// Relies on base64's `Engine::encode` with the `STANDARD_NO_PAD` engine:
/// the unpadded standard encoding, a function of the bytes alone, whose
/// length `encoded_len` in base64's encode.rs gives. It panics when that
/// length overflows `usize`, which `requires` leaves out.
#[verifier::external_body]
fn encode_no_pad(bytes: &[u8]) -> (r: String)
    requires
        encoded_len(bytes@.len()) <= usize::MAX,
    ensures
        r@ == base64_no_pad(bytes@),
        r@.len() == encoded_len(bytes@.len()),
{
    general_purpose::STANDARD_NO_PAD.encode(bytes)
}

/// `c` in lower case if it is an ASCII capital letter; otherwise `c`.
pub open spec fn ascii_lower_char(c: char) -> char {
    if 'A' <= c <= 'Z' {
        ((c as u32) + 32) as char
    } else {
        c
    }
}

/// `s` with its ASCII capital letters in lower case.
pub open spec fn ascii_lower(s: Seq<char>) -> Seq<char> {
    s.map_values(|c: char| ascii_lower_char(c))
}

/// Relies on `str::to_ascii_lowercase`: 'A' to 'Z' become 'a' to 'z', and
/// every other character stays as it is.
#[verifier::external_body]
fn to_ascii_lower(s: &str) -> (r: String)
    ensures
        r@ == ascii_lower(s@),
{
    s.to_ascii_lowercase()
}

/// The flag of a country as unpadded base64 text, for inline embedding.
pub fn get_flag_base64_encoded(flag: &[u8]) -> (r: String)
    requires
        encoded_len(flag@.len()) <= usize::MAX,
    ensures
        r@ == base64_no_pad(flag@),
        r@.len() == encoded_len(flag@.len()),
        flag@.len() > 0 <==> r@.len() > 0,
{
    encode_no_pad(flag)
}

/// Encoding depends on the bytes alone: equal bytes give equal text, call
/// after call.
pub proof fn lemma_encoding_is_stable(a: Seq<u8>, b: Seq<u8>)
    requires
        a == b,
    ensures
        base64_no_pad(a) == base64_no_pad(b),
{
}

/// The name of the file that holds a country's flag in the image directory:
/// its code in lower case, with the PNG extension.
pub fn flag_file_name(cca2: &str) -> (r: String)
    ensures
        r@ == ascii_lower(cca2@) + ".png"@,
{
    let mut name = to_ascii_lower(cca2);
    name.append(".png");
    name
}

} // verus!
