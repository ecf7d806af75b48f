use vstd::prelude::*;

use crate::catalog::{json_string_map, parse_string_map};

verus! {

/// Ports from this one up are refused.
pub const MAX_PORT: u16 = 32768;

/// Whether `c` is an ASCII decimal digit.
pub open spec fn is_digit(c: char) -> bool {
    '0' <= c <= '9'
}

/// The value of a string of decimal digits.
pub open spec fn digits_value(d: Seq<char>) -> nat
    decreases d.len(),
{
    if d.len() == 0 {
        0
    } else {
        digits_value(d.drop_last()) * 10 + (d.last() as nat - '0' as nat) as nat
    }
}

/// `s` without one leading `+`.
pub open spec fn unsigned_digits(s: Seq<char>) -> Seq<char> {
    if s.len() > 0 && s[0] == '+' {
        s.drop_first()
    } else {
        s
    }
}

/// The `u16` that `s` spells: one or more ASCII digits after an optional
/// `+`, whose value fits in 16 bits.
pub open spec fn parsed_u16(s: Seq<char>) -> Option<u16> {
    let d = unsigned_digits(s);
    if d.len() > 0 && (forall|i: int| 0 <= i < d.len() ==> is_digit(#[trigger] d[i]))
        && digits_value(d) <= u16::MAX {
        Some(digits_value(d) as u16)
    } else {
        None
    }
}

/// The message of std's error for a string that is no `u16`.
pub uninterp spec fn u16_parse_error_text(s: Seq<char>) -> Seq<char>;

/// Relies on `str::parse::<u16>`, documented to take an optional `+`
/// followed by digits only; the message of its error depends on the string
/// alone.
#[verifier::external_body]
fn parse_u16(s: &str) -> (r: Result<u16, String>)
    ensures
        r matches Ok(n) ==> parsed_u16(s@) == Some(n),
        r is Err ==> parsed_u16(s@) is None,
        r matches Err(e) ==> e@ == u16_parse_error_text(s@),
{
    s.parse::<u16>().map_err(|e| e.to_string())
}

/// The message for a port that is too large.
pub open spec fn port_too_large_message() -> Seq<char> {
    "value should be less than 32768"@
}

/// Accepts the port that `val` spells if it is below `MAX_PORT`.
pub fn is_valid_port(val: &str) -> (r: Result<u16, String>)
    ensures
        match parsed_u16(val@) {
            None => (r matches Err(e) && e@ == u16_parse_error_text(val@)),
            Some(p) => if p < MAX_PORT {
                r == Ok::<u16, String>(p)
            } else {
                (r matches Err(e) && e@ == port_too_large_message())
            },
        },
{
    let port = match parse_u16(val) {
        Ok(port) => port,
        Err(e) => return Err(e),
    };
    if port < MAX_PORT {
        Ok(port)
    } else {
        Err(String::from_str("value should be less than 32768"))
    }
}

/// `path` followed by the words that reject it.
pub open spec fn not_valid_message(path: Seq<char>) -> Seq<char> {
    path + " is not valid"@
}

fn not_valid(path: &str) -> (r: String)
    ensures
        r@ == not_valid_message(path@),
{
    String::from_str(path).concat(" is not valid")
}

/// Accepts `val` as the template directory when it is a directory that
/// holds the quiz template.
pub fn is_valid_template_dir(val: &str, is_dir: bool, has_template: bool) -> (r: Result<
    String,
    String,
>)
    ensures
        is_dir && has_template ==> (r matches Ok(s) && s@ == val@),
        !(is_dir && has_template) ==> (r matches Err(e) && e@ == not_valid_message(val@)),
{
    if is_dir && has_template {
        Ok(String::from_str(val))
    } else {
        Err(not_valid(val))
    }
}

/// Whether `catalog` was read and holds a JSON object of strings.
pub open spec fn catalog_parses(catalog: Option<&[u8]>) -> bool {
    match catalog {
        Some(bytes) => json_string_map(bytes@) is Some,
        None => false,
    }
}

/// Accepts `val` as the flag directory when its layout is right (it is a
/// directory, with a catalog file and an image directory) and the catalog,
/// read from `catalog_path`, parses. A wrong layout is reported against
/// `val`, a catalog that is unreadable or malformed against `catalog_path`.
pub fn is_valid_flag_dir(
    val: &str,
    layout_ok: bool,
    catalog_path: &str,
    catalog: Option<&[u8]>,
) -> (r: Result<String, String>)
    ensures
        !layout_ok ==> (r matches Err(e) && e@ == not_valid_message(val@)),
        layout_ok && catalog_parses(catalog) ==> (r matches Ok(s) && s@ == val@),
        layout_ok && !catalog_parses(catalog) ==> (r matches Err(e) && e@
            == not_valid_message(catalog_path@)),
{
    if !layout_ok {
        return Err(not_valid(val));
    }
    let parses = match catalog {
        Some(bytes) => parse_string_map(bytes).is_ok(),
        None => false,
    };
    if parses {
        Ok(String::from_str(val))
    } else {
        Err(not_valid(catalog_path))
    }
}

} // verus!
