use vstd::prelude::*;

verus! {

/// The codes that the catalog never holds: regions, territories, and codes
/// whose flag is hard to tell apart from another country's.
pub open spec fn is_excluded_pair(a: char, b: char) -> bool {
    match (a, b) {
        ('A', 'Q') | ('B', 'L') | ('B', 'Q') | ('B', 'V') | ('E', 'U') | ('G', 'F') | ('G', 'P')
        | ('G', 'U') | ('H', 'M') | ('L', 'U') | ('M', 'C') | ('M', 'F') | ('M', 'Q') | ('P', 'M')
        | ('R', 'E') | ('S', 'H') | ('S', 'J') | ('T', 'D') | ('T', 'F') | ('U', 'M') | ('V', 'I')
        | ('X', 'K') | ('Y', 'T') => true,
        _ => false,
    }
}

/// A key that the catalog keeps: exactly two characters, and not excluded.
pub open spec fn is_country_code(code: Seq<char>) -> bool {
    code.len() == 2 && !is_excluded_pair(code[0], code[1])
}

/// Lexicographic order on two-character codes, character by character.
pub open spec fn code_lt(a: Seq<char>, b: Seq<char>) -> bool {
    a[0] < b[0] || (a[0] == b[0] && a[1] < b[1])
}

fn excluded_pair(a: char, b: char) -> (r: bool)
    ensures
        r == is_excluded_pair(a, b),
{
    matches!(
        (a, b),
        ('A', 'Q') | ('B', 'L') | ('B', 'Q') | ('B', 'V') | ('E', 'U') | ('G', 'F') | ('G', 'P')
        | ('G', 'U') | ('H', 'M') | ('L', 'U') | ('M', 'C') | ('M', 'F') | ('M', 'Q') | ('P', 'M')
        | ('R', 'E') | ('S', 'H') | ('S', 'J') | ('T', 'D') | ('T', 'F') | ('U', 'M') | ('V', 'I')
        | ('X', 'K') | ('Y', 'T')
    )
}

/// Whether the catalog keeps an entry under `code`.
pub fn is_country_code_str(code: &str) -> (r: bool)
    ensures
        r == is_country_code(code@),
{
    if code.unicode_len() != 2 {
        return false;
    }
    let a = code.get_char(0);
    let b = code.get_char(1);
    !excluded_pair(a, b)
}

/// Compares two codes of two characters each.
pub(crate) fn code_less(a: &str, b: &str) -> (r: bool)
    requires
        a@.len() == 2,
        b@.len() == 2,
    ensures
        r == code_lt(a@, b@),
{
    let a0 = a.get_char(0);
    let a1 = a.get_char(1);
    let b0 = b.get_char(0);
    let b1 = b.get_char(1);
    a0 < b0 || (a0 == b0 && a1 < b1)
}

/// Two distinct codes are ordered one way or the other.
pub proof fn lemma_code_lt_total(a: Seq<char>, b: Seq<char>)
    requires
        a.len() == 2,
        b.len() == 2,
    ensures
        code_lt(a, b) || code_lt(b, a) || a == b,
{
    if a[0] == b[0] && a[1] == b[1] {
        assert(a =~= b);
    }
}

} // verus!
