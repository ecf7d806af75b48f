use vstd::prelude::*;

use crate::code::{
    code_less, code_lt, is_country_code, is_country_code_str, is_excluded_pair, lemma_code_lt_total,
};
use crate::error::QuizError;

verus! {

/// The mapping that a list of pairs spells out, a later pair overriding an
/// earlier one under the same key.
pub open spec fn raw_map(pairs: Seq<(String, String)>) -> Map<Seq<char>, Seq<char>>
    decreases pairs.len(),
{
    if pairs.len() == 0 {
        Map::empty()
    } else {
        raw_map(pairs.drop_last()).insert(pairs.last().0@, pairs.last().1@)
    }
}

/// The catalog that a raw mapping yields: its entries under country codes.
pub open spec fn catalog_of(raw: Map<Seq<char>, Seq<char>>) -> Map<Seq<char>, Seq<char>> {
    Map::new(|k: Seq<char>| raw.contains_key(k) && is_country_code(k), |k: Seq<char>| raw[k])
}

/// What serde_json reads from `bytes` as a JSON object whose values are all
/// strings: the mapping it holds, or `None` when the bytes are no such object.
pub uninterp spec fn json_string_map(bytes: Seq<u8>) -> Option<Map<Seq<char>, Seq<char>>>;

#[verifier::external_type_specification]
#[verifier::external_body]
pub struct ExJsonError(serde_json::Error);

/// Relies on serde_json::from_slice into a HashMap<String, String>: it
/// succeeds on exactly the bytes of a JSON object whose values are strings,
/// and what it yields depends on the bytes alone. The map's pairs are handed
/// out in the map's own order.
#[verifier::external_body]
pub(crate) fn parse_string_map(bytes: &[u8]) -> (r: Result<Vec<(String, String)>, serde_json::Error>)
    ensures
        r is Ok <==> json_string_map(bytes@) is Some,
        r matches Ok(pairs) ==> raw_map(pairs@) == json_string_map(bytes@)->0,
{
    serde_json::from_slice::<std::collections::HashMap<String, String>>(bytes).map(
        |m| m.into_iter().collect(),
    )
}

/// The catalog of countries: names keyed by two-letter code.
///
/// Every key is a country code (two characters, not excluded). Entries are
/// kept in ascending code order; the view is the mapping from code to name.
pub struct Countries {
    entries: Vec<(String, String)>,
    map: Ghost<Map<Seq<char>, Seq<char>>>,
}

impl View for Countries {
    type V = Map<Seq<char>, Seq<char>>;

    closed spec fn view(&self) -> Map<Seq<char>, Seq<char>> {
        self.map@
    }
}

impl Countries {
    /// The entries are the view's pairs, in strictly ascending code order.
    pub closed spec fn wf(&self) -> bool {
        let e = self.entries@;
        let m = self.map@;
        &&& forall|i: int| #![trigger e[i]] 0 <= i < e.len() ==> is_country_code(e[i].0@)
        &&& forall|i: int, j: int|
            #![trigger e[i], e[j]]
            0 <= i < j < e.len() ==> code_lt(e[i].0@, e[j].0@)
        &&& forall|i: int|
            #![trigger e[i]]
            0 <= i < e.len() ==> m.contains_key(e[i].0@) && m[e[i].0@] == e[i].1@
        &&& forall|k: Seq<char>|
            #[trigger] m.contains_key(k) ==> exists|i: int| 0 <= i < e.len() && e[i].0@ == k
        &&& m.dom().finite()
        &&& m.len() == e.len()
    }

    /// Every key of a catalog is a country code.
    pub proof fn lemma_keys_are_codes(&self)
        requires
            self.wf(),
        ensures
            forall|k: Seq<char>| #[trigger] self@.contains_key(k) ==> is_country_code(k),
    {
        assert forall|k: Seq<char>| #[trigger] self@.contains_key(k) implies is_country_code(k) by {
            let i = choose|i: int| 0 <= i < self.entries@.len() && self.entries@[i].0@ == k;
            assert(is_country_code(self.entries@[i].0@));
        }
    }

    /// An empty catalog.
    pub fn new() -> (c: Countries)
        ensures
            c.wf(),
            c@ == Map::<Seq<char>, Seq<char>>::empty(),
    {
        Countries { entries: Vec::new(), map: Ghost(Map::empty()) }
    }

    /// The number of countries.
    pub fn len(&self) -> (n: usize)
        requires
            self.wf(),
        ensures
            n == self@.len(),
    {
        self.entries.len()
    }

    /// The position of the entry under `code`, if there is one.
    fn find(&self, code: &str) -> (r: Option<usize>)
        requires
            self.wf(),
        ensures
            r matches Some(i) ==> i < self.entries@.len() && self.entries@[i as int].0@ == code@,
            r is None ==> !self@.contains_key(code@),
    {
        let key = code.to_owned();
        let n = self.entries.len();
        let mut i: usize = 0;
        while i < n
            invariant
                self.wf(),
                n == self.entries@.len(),
                key@ == code@,
                i <= n,
                forall|j: int| 0 <= j < i ==> self.entries@[j].0@ != code@,
            decreases n - i,
        {
            if self.entries[i].0 == key {
                return Some(i);
            }
            i += 1;
        }
        None
    }

    /// Whether the catalog holds a country under `code`.
    pub fn contains_key(&self, code: &str) -> (r: bool)
        requires
            self.wf(),
        ensures
            r == self@.contains_key(code@),
    {
        match self.find(code) {
            Some(i) => {
                assert(self@.contains_key(self.entries@[i as int].0@));
                true
            },
            None => false,
        }
    }

    /// The name of the country under `code`.
    pub fn get(&self, code: &str) -> (r: Option<&String>)
        requires
            self.wf(),
        ensures
            r matches Some(name) ==> self@.contains_key(code@) && name@ == self@[code@],
            r is None ==> !self@.contains_key(code@),
    {
        match self.find(code) {
            Some(i) => {
                assert(self@.contains_key(self.entries@[i as int].0@));
                Some(&self.entries[i].1)
            },
            None => None,
        }
    }

    /// Adds `name` under `code`, replacing an earlier name, when `code` is a
    /// country code; otherwise leaves the catalog as it is.
    pub fn insert(&mut self, code: String, name: String) -> (r: bool)
        requires
            old(self).wf(),
        ensures
            final(self).wf(),
            r == is_country_code(code@),
            r ==> final(self)@ == old(self)@.insert(code@, name@),
            !r ==> final(self)@ == old(self)@,
    {
        if !is_country_code_str(code.as_str()) {
            return false;
        }
        let ghost k = code@;
        let ghost v = name@;
        let ghost e0 = self.entries@;
        let ghost m0 = self.map@;
        let n = self.entries.len();
        let mut i: usize = 0;
        while i < n && code_less(self.entries[i].0.as_str(), code.as_str())
            invariant
                self.wf(),
                self.entries@ == e0,
                self.map@ == m0,
                n == e0.len(),
                i <= n,
                k == code@,
                is_country_code(k),
                forall|j: int| 0 <= j < i ==> code_lt(#[trigger] e0[j].0@, k),
            decreases n - i,
        {
            i += 1;
        }
        if i < n && self.entries[i].0 == code {
            self.entries.set(i, (code, name));
            self.map = Ghost(m0.insert(k, v));
            proof {
                let e = self.entries@;
                let m = self.map@;
                assert forall|j: int| 0 <= j < e.len() && j != i implies e[j] == e0[j] by {}
                assert forall|j: int|
                    0 <= j < e.len() implies #[trigger] m.contains_key(e[j].0@) && m[e[j].0@]
                    == e[j].1@ by {
                    if j < i {
                        assert(code_lt(e0[j].0@, e0[i as int].0@));
                    } else if j > i {
                        assert(code_lt(e0[i as int].0@, e0[j].0@));
                    }
                }
                assert forall|key: Seq<char>| #[trigger] m.contains_key(key) implies exists|j: int|
                    0 <= j < e.len() && e[j].0@ == key by {
                    if key != k {
                        assert(m0.contains_key(key));
                        let j = choose|j: int| 0 <= j < e0.len() && e0[j].0@ == key;
                        assert(e[j].0@ == key);
                    } else {
                        assert(e[i as int].0@ == key);
                    }
                }
                assert(m.dom() =~= m0.dom());
            }
        } else {
            proof {
                if i < n {
                    lemma_code_lt_total(e0[i as int].0@, k);
                }
            }
            self.entries.insert(i, (code, name));
            self.map = Ghost(m0.insert(k, v));
            proof {
                let e = self.entries@;
                let m = self.map@;
                assert(i < n ==> code_lt(k, e0[i as int].0@));
                assert forall|j: int| i < j < e0.len() implies code_lt(k, #[trigger] e0[j].0@) by {
                    assert(code_lt(e0[i as int].0@, e0[j].0@));
                }
                assert(!m0.contains_key(k)) by {
                    if m0.contains_key(k) {
                        let j = choose|j: int| 0 <= j < e0.len() && e0[j].0@ == k;
                        if j < i {
                            assert(code_lt(e0[j].0@, k));
                        } else {
                            assert(code_lt(k, e0[j].0@));
                        }
                    }
                }
                assert forall|j: int| 0 <= j < e.len() implies #[trigger] is_country_code(
                    e[j].0@,
                ) by {
                    if j > i {
                        assert(e[j] == e0[j - 1]);
                    }
                }
                assert forall|a: int, b: int|
                    #![trigger e[a], e[b]]
                    0 <= a < b < e.len() implies code_lt(e[a].0@, e[b].0@) by {
                    if b < i {
                        assert(code_lt(e0[a].0@, e0[b].0@));
                    } else if b == i {
                        assert(code_lt(e0[a].0@, k));
                    } else if a < i {
                        assert(e[b] == e0[b - 1]);
                        assert(code_lt(e0[a].0@, e0[b - 1].0@));
                    } else if a == i {
                        assert(e[b] == e0[b - 1]);
                        assert(code_lt(k, e0[b - 1].0@));
                    } else {
                        assert(e[a] == e0[a - 1]);
                        assert(e[b] == e0[b - 1]);
                        assert(code_lt(e0[a - 1].0@, e0[b - 1].0@));
                    }
                }
                assert forall|j: int|
                    0 <= j < e.len() implies #[trigger] m.contains_key(e[j].0@) && m[e[j].0@]
                    == e[j].1@ by {
                    if j < i {
                        assert(e[j] == e0[j]);
                        assert(m0.contains_key(e0[j].0@));
                        assert(code_lt(e0[j].0@, k));
                    } else if j > i {
                        assert(e[j] == e0[j - 1]);
                        assert(m0.contains_key(e0[j - 1].0@));
                        assert(code_lt(k, e0[j - 1].0@));
                    }
                }
                assert forall|key: Seq<char>| #[trigger] m.contains_key(key) implies exists|j: int|
                    0 <= j < e.len() && e[j].0@ == key by {
                    if key != k {
                        assert(m0.contains_key(key));
                        let j = choose|j: int| 0 <= j < e0.len() && e0[j].0@ == key;
                        if j < i {
                            assert(e[j] == e0[j]);
                        } else {
                            assert(e[j + 1] == e0[j]);
                        }
                    } else {
                        assert(e[i as int].0@ == key);
                    }
                }
            }
        }
        true
    }
}

/// Keeps the entries of `raw` whose key is a country code: exactly two
/// characters, and not on the exclusion list.
pub fn filter_countries(raw: &Vec<(String, String)>) -> (r: Countries)
    ensures
        r.wf(),
        r@ == catalog_of(raw_map(raw@)),
        forall|i: int| 0 <= i < raw@.len() && (#[trigger] raw@[i]).0@.len() != 2 ==> !r@.contains_key(raw@[i].0@),
        forall|a: char, b: char| #[trigger] is_excluded_pair(a, b) ==> !r@.contains_key(seq![a, b]),
{
    let mut countries = Countries::new();
    let n = raw.len();
    let mut i: usize = 0;
    while i < n
        invariant
            n == raw@.len(),
            i <= n,
            countries.wf(),
            countries@ == catalog_of(raw_map(raw@.subrange(0, i as int))),
        decreases n - i,
    {
        let code = raw[i].0.clone();
        let name = raw[i].1.clone();
        let ghost before = raw_map(raw@.subrange(0, i as int));
        countries.insert(code, name);
        proof {
            let pairs = raw@.subrange(0, i + 1);
            assert(pairs.drop_last() =~= raw@.subrange(0, i as int));
            assert(raw_map(pairs) == before.insert(raw@[i as int].0@, raw@[i as int].1@));
            assert(countries@ =~= catalog_of(raw_map(pairs)));
        }
        i += 1;
    }
    assert(raw@.subrange(0, n as int) =~= raw@);
    countries
}

/// Loads the catalog from the bytes of a JSON object that maps codes to
/// names: the entries under country codes, all others left out.
pub fn get_countries(bytes: &[u8]) -> (r: Result<Countries, QuizError>)
    ensures
        r is Err <==> json_string_map(bytes@) is None,
        r matches Err(e) ==> e == QuizError::ParseError,
        r matches Ok(c) ==> c.wf() && c@ == catalog_of(json_string_map(bytes@)->0),
        r matches Ok(c) ==> forall|k: Seq<char>| k.len() != 2 ==> !(#[trigger] c@.contains_key(k)),
        r matches Ok(c) ==> forall|a: char, b: char| #[trigger] is_excluded_pair(a, b) ==> !c@.contains_key(seq![a, b]),
{
    match parse_string_map(bytes) {
        Ok(pairs) => Ok(filter_countries(&pairs)),
        Err(_) => Err(QuizError::ParseError),
    }
}

/// The codes of the catalog, each once, in ascending order.
pub fn get_country_codes(countries: &Countries) -> (r: Vec<String>)
    requires
        countries.wf(),
    ensures
        r.len() == countries@.len(),
        forall|i: int| 0 <= i < r.len() ==> countries@.contains_key(#[trigger] r@[i]@),
        forall|k: Seq<char>| #[trigger] countries@.contains_key(k) ==> exists|i: int| 0 <= i < r.len() && r@[i]@ == k,
        forall|i: int, j: int| 0 <= i < j < r.len() ==> code_lt(#[trigger] r@[i]@, #[trigger] r@[j]@),
        forall|i: int, j: int| 0 <= i < r.len() && 0 <= j < r.len() && i != j ==> r@[i]@ != r@[j]@,
{
    let n = countries.entries.len();
    let mut codes: Vec<String> = Vec::new();
    let mut i: usize = 0;
    while i < n
        invariant
            countries.wf(),
            n == countries.entries@.len(),
            i <= n,
            codes@.len() == i,
            forall|j: int| 0 <= j < i ==> (#[trigger] codes@[j])@ == countries.entries@[j].0@,
        decreases n - i,
    {
        codes.push(countries.entries[i].0.clone());
        i += 1;
    }
    let ghost e = countries.entries@;
    assert forall|a: int, b: int| 0 <= a < codes.len() && 0 <= b < codes.len() && a != b implies codes@[a]@ != codes@[b]@ by {
        if a < b {
            assert(code_lt(e[a].0@, e[b].0@));
        } else {
            assert(code_lt(e[b].0@, e[a].0@));
        }
    }
    assert forall|a: int, b: int| 0 <= a < b < codes.len() implies code_lt(#[trigger] codes@[a]@, #[trigger] codes@[b]@) by {
        assert(code_lt(e[a].0@, e[b].0@));
    }
    assert forall|k: Seq<char>| #[trigger] countries@.contains_key(k) implies exists|j: int| 0 <= j < codes.len() && codes@[j]@ == k by {
        let j = choose|j: int| 0 <= j < e.len() && e[j].0@ == k;
        assert(codes@[j]@ == k);
    }
    assert forall|j: int| 0 <= j < codes.len() implies countries@.contains_key(#[trigger] codes@[j]@) by {
        assert(codes@[j]@ == e[j].0@);
    }
    codes
}

} // verus!
