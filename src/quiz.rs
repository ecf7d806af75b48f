use rand::seq::SliceRandom;
use rand::Rng;
use vstd::prelude::*;

use crate::asset::{base64_no_pad, encoded_len, get_flag_base64_encoded};
use crate::catalog::{get_country_codes, Countries};
use crate::code::{code_less, code_lt, is_country_code, lemma_code_lt_total};
use crate::error::QuizError;

verus! {

/// One option of a question: a country's code, its name, and its flag as
/// base64 text (empty on every option but the one that answers it).
pub struct Country {
    pub cca2: String,
    pub name: String,
    pub flag: String,
}

/// A question: the country to guess, with its flag, and the options in
/// ascending code order.
pub struct Question {
    pub country: Country,
    pub options: Vec<Country>,
}

/// The codes of the options, in their order.
pub open spec fn codes_of(options: Seq<Country>) -> Seq<Seq<char>> {
    options.map_values(|o: Country| o.cca2@)
}

/// The text of each string, in their order.
pub open spec fn texts(strings: Seq<String>) -> Seq<Seq<char>> {
    strings.map_values(|s: String| s@)
}

/// Options in strictly ascending code order.
pub open spec fn sorted_by_code(options: Seq<Country>) -> bool {
    forall|a: int, b: int|
        #![trigger options[a], options[b]]
        0 <= a < b < options.len() ==> code_lt(options[a].cca2@, options[b].cca2@)
}

/// Putting an option between those with smaller codes and those with larger
/// ones keeps the order.
proof fn lemma_insert_sorted(o0: Seq<Country>, p: int, c: Country)
    requires
        sorted_by_code(o0),
        0 <= p <= o0.len(),
        forall|a: int| 0 <= a < p ==> code_lt(#[trigger] o0[a].cca2@, c.cca2@),
        p < o0.len() ==> code_lt(c.cca2@, o0[p].cca2@),
    ensures
        sorted_by_code(o0.insert(p, c)),
{
    let o = o0.insert(p, c);
    assert forall|a: int, b: int|
        #![trigger o[a], o[b]]
        0 <= a < b < o.len() implies code_lt(o[a].cca2@, o[b].cca2@) by {
        if b < p {
            assert(code_lt(o0[a].cca2@, o0[b].cca2@));
        } else if b == p {
            assert(code_lt(o0[a].cca2@, c.cca2@));
        } else if a < p {
            assert(o[b] == o0[b - 1]);
            assert(code_lt(o0[a].cca2@, o0[b - 1].cca2@));
        } else if a == p {
            assert(o[b] == o0[b - 1]);
            if b - 1 > p {
                assert(code_lt(o0[p].cca2@, o0[b - 1].cca2@));
            }
        } else {
            assert(o[a] == o0[a - 1]);
            assert(o[b] == o0[b - 1]);
            assert(code_lt(o0[a - 1].cca2@, o0[b - 1].cca2@));
        }
    }
}

/// `options` are those for the first `i` codes of `codes`, in code order.
#[verifier::opaque]
spec fn built_from(
    m: Map<Seq<char>, Seq<char>>,
    codes: Seq<String>,
    i: int,
    options: Seq<Country>,
) -> bool {
    &&& options.len() == i
    &&& sorted_by_code(options)
    &&& forall|a: int|
        #![trigger options[a]]
        0 <= a < options.len() ==> {
            &&& m.contains_key(options[a].cca2@)
            &&& options[a].name@ == m[options[a].cca2@]
            &&& options[a].flag@.len() == 0
        }
    &&& codes_of(options).to_set() == texts(codes.subrange(0, i)).to_set()
}

/// Adding the option for the next code at its place in code order.
proof fn lemma_built_from_step(
    m: Map<Seq<char>, Seq<char>>,
    codes: Seq<String>,
    i: int,
    o0: Seq<Country>,
    p: int,
    c: Country,
)
    requires
        built_from(m, codes, i, o0),
        0 <= i < codes.len(),
        0 <= p <= o0.len(),
        forall|a: int| 0 <= a < p ==> code_lt(#[trigger] o0[a].cca2@, c.cca2@),
        p < o0.len() ==> code_lt(c.cca2@, o0[p].cca2@),
        c.cca2@ == codes[i]@,
        m.contains_key(c.cca2@),
        c.name@ == m[c.cca2@],
        c.flag@.len() == 0,
    ensures
        built_from(m, codes, i + 1, o0.insert(p, c)),
{
    reveal(built_from);
    let o = o0.insert(p, c);
    lemma_insert_sorted(o0, p, c);
    assert forall|a: int|
        #![trigger o[a]]
        0 <= a < o.len() implies {
            &&& m.contains_key(o[a].cca2@)
            &&& o[a].name@ == m[o[a].cca2@]
            &&& o[a].flag@.len() == 0
        } by {
        if a < p {
            assert(o[a] == o0[a]);
        } else if a > p {
            assert(o[a] == o0[a - 1]);
        }
    }
    let before = codes_of(o0);
    let after = codes_of(o);
    assert forall|k: Seq<char>| after.contains(k) <==> before.contains(k) || k == c.cca2@ by {
        if after.contains(k) {
            let a = choose|a: int| 0 <= a < after.len() && after[a] == k;
            if a < p {
                assert(before[a] == k);
            } else if a > p {
                assert(before[a - 1] == k);
            }
        }
        if before.contains(k) {
            let a = choose|a: int| 0 <= a < before.len() && before[a] == k;
            if a < p {
                assert(after[a] == k);
            } else {
                assert(after[a + 1] == k);
            }
        }
        if k == c.cca2@ {
            assert(after[p] == k);
        }
    }
    assert(after.to_set() =~= before.to_set().insert(c.cca2@));
    let t = texts(codes.subrange(0, i));
    assert(texts(codes.subrange(0, i + 1)) =~= t.push(codes[i]@));
    t.lemma_push_to_set_commute(codes[i]@);
}

/// The options built so far are for catalog codes other than the next one.
proof fn lemma_built_from_codes(
    m: Map<Seq<char>, Seq<char>>,
    codes: Seq<String>,
    i: int,
    o0: Seq<Country>,
)
    requires
        built_from(m, codes, i, o0),
        0 <= i < codes.len(),
        texts(codes).no_duplicates(),
        forall|k: Seq<char>| #[trigger] m.contains_key(k) ==> is_country_code(k),
    ensures
        forall|a: int|
            0 <= a < o0.len() ==> is_country_code(#[trigger] o0[a].cca2@) && o0[a].cca2@
                != codes[i]@,
        o0.len() == i,
{
    reveal(built_from);
    let done = texts(codes.subrange(0, i));
    assert forall|a: int| 0 <= a < o0.len() implies is_country_code(#[trigger] o0[a].cca2@)
        && o0[a].cca2@ != codes[i]@ by {
        assert(m.contains_key(o0[a].cca2@));
        assert(codes_of(o0)[a] == o0[a].cca2@);
        assert(codes_of(o0).to_set().contains(o0[a].cca2@));
        assert(done.contains(o0[a].cca2@));
        let j = choose|j: int| 0 <= j < done.len() && done[j] == o0[a].cca2@;
        assert(texts(codes)[j] == done[j]);
        assert(texts(codes)[j] != texts(codes)[i]);
    }
}

/// Once every code is in, the options are exactly those for the codes.
proof fn lemma_built_from_all(m: Map<Seq<char>, Seq<char>>, codes: Seq<String>, o: Seq<Country>)
    requires
        built_from(m, codes, codes.len() as int, o),
    ensures
        o.len() == codes.len(),
        sorted_by_code(o),
        forall|a: int|
            #![trigger o[a]]
            0 <= a < o.len() ==> {
                &&& m.contains_key(o[a].cca2@)
                &&& o[a].name@ == m[o[a].cca2@]
                &&& o[a].flag@.len() == 0
            },
        codes_of(o).to_set() == texts(codes).to_set(),
{
    reveal(built_from);
    assert(codes.subrange(0, codes.len() as int) =~= codes);
}

/// The options for the countries under `country_code_options`, each with an
/// empty flag, in ascending code order.
pub fn get_options(countries: &Countries, country_code_options: Vec<String>) -> (r: Vec<Country>)
    requires
        countries.wf(),
        forall|j: int|
            0 <= j < country_code_options.len() ==> countries@.contains_key(
                #[trigger] country_code_options@[j]@,
            ),
        texts(country_code_options@).no_duplicates(),
    ensures
        r.len() == country_code_options.len(),
        sorted_by_code(r@),
        forall|a: int|
            #![trigger r@[a]]
            0 <= a < r.len() ==> {
                &&& countries@.contains_key(r@[a].cca2@)
                &&& r@[a].name@ == countries@[r@[a].cca2@]
                &&& r@[a].flag@.len() == 0
            },
        codes_of(r@).to_set() == texts(country_code_options@).to_set(),
{
    let ghost m = countries@;
    proof {
        countries.lemma_keys_are_codes();
        assert(built_from(m, country_code_options@, 0, Seq::empty())) by {
            reveal(built_from);
            assert(codes_of(Seq::<Country>::empty()).to_set() =~= texts(
                country_code_options@.subrange(0, 0),
            ).to_set());
        }
    }
    let mut options: Vec<Country> = Vec::new();
    let n = country_code_options.len();
    let mut i: usize = 0;
    while i < n
        invariant
            countries.wf(),
            m == countries@,
            forall|k: Seq<char>| #[trigger] m.contains_key(k) ==> is_country_code(k),
            n == country_code_options.len(),
            forall|j: int| 0 <= j < n ==> m.contains_key(#[trigger] country_code_options@[j]@),
            texts(country_code_options@).no_duplicates(),
            i <= n,
            built_from(m, country_code_options@, i as int, options@),
        decreases n - i,
    {
        let code = &country_code_options[i];
        assert(m.contains_key(country_code_options@[i as int]@));
        let name = countries.get(code.as_str()).unwrap().clone();
        let ghost o0 = options@;
        let ghost k = code@;
        proof {
            lemma_built_from_codes(m, country_code_options@, i as int, o0);
        }
        let mut p: usize = 0;
        while p < options.len() && code_less(options[p].cca2.as_str(), code.as_str())
            invariant
                options@ == o0,
                p <= o0.len(),
                k == code@,
                is_country_code(k),
                forall|a: int| 0 <= a < o0.len() ==> is_country_code(#[trigger] o0[a].cca2@),
                forall|a: int| 0 <= a < p ==> code_lt(#[trigger] o0[a].cca2@, k),
            decreases o0.len() - p,
        {
            p += 1;
        }
        proof {
            if p < o0.len() {
                lemma_code_lt_total(o0[p as int].cca2@, k);
            }
        }
        let option = Country { cca2: code.clone(), name, flag: String::new() };
        proof {
            lemma_built_from_step(m, country_code_options@, i as int, o0, p as int, option);
        }
        options.insert(p, option);
        i += 1;
    }
    proof {
        lemma_built_from_all(m, country_code_options@, options@);
    }
    options
}

/// How many options a question offers, its answer included.
pub const NUMBER_OF_OPTIONS: usize = 4;

/// The countries that make up one question: the one to guess, and the
/// distractors shown beside it.
pub struct Selection {
    pub target: String,
    pub distractors: Vec<String>,
}

impl Selection {
    /// The codes of the question's options: the distractors', then the
    /// target's.
    pub open spec fn codes(&self) -> Seq<Seq<char>> {
        texts(self.distractors@).push(self.target@)
    }

    /// The target and the distractors are distinct countries of `m`, with
    /// one distractor fewer than a question has options.
    pub open spec fn is_valid_for(&self, m: Map<Seq<char>, Seq<char>>) -> bool {
        let d = texts(self.distractors@);
        &&& m.contains_key(self.target@)
        &&& d.len() == NUMBER_OF_OPTIONS - 1
        &&& d.no_duplicates()
        &&& forall|i: int| 0 <= i < d.len() ==> m.contains_key(#[trigger] d[i]) && d[i] != self.target@
    }
}

/// `q` is the question that `selection` of catalog `m` gives, with `flag`
/// the image bytes of the target's flag.
pub open spec fn is_question_for(
    m: Map<Seq<char>, Seq<char>>,
    selection: Selection,
    flag: Seq<u8>,
    q: Question,
) -> bool {
    let target = selection.target@;
    let options = q.options@;
    &&& q.country.cca2@ == target
    &&& q.country.name@ == m[target]
    &&& q.country.flag@ == base64_no_pad(flag)
    &&& q.country.flag@.len() == encoded_len(flag.len())
    &&& options.len() == NUMBER_OF_OPTIONS
    &&& sorted_by_code(options)
    &&& codes_of(options).to_set() == selection.codes().to_set()
    &&& forall|a: int|
        #![trigger options[a]]
        0 <= a < options.len() ==> {
            &&& options[a].name@ == m[options[a].cca2@]
            &&& options[a].cca2@ == target ==> options[a].flag@ == q.country.flag@
            &&& options[a].cca2@ != target ==> options[a].flag@.len() == 0
        }
}

/// Relies on `rand::Rng::gen_range` over `0..n` with the thread's generator:
/// a number below `n`, drawn uniformly. It panics on an empty range, which
/// `requires` leaves out.
#[verifier::external_body]
fn random_below(n: usize) -> (r: usize)
    requires
        n > 0,
    ensures
        r < n,
{
    rand::thread_rng().gen_range(0..n)
}

/// Relies on `rand::seq::SliceRandom::choose_multiple` with the thread's
/// generator: as many items of `pool` as `amount` asks, or all of them if
/// there are fewer, taken at distinct positions, each subset equally likely.
#[verifier::external_body]
fn random_sample(pool: &[usize], amount: usize) -> (r: Vec<usize>)
    ensures
        r@.len() == if amount < pool@.len() {
            amount as int
        } else {
            pool@.len() as int
        },
        forall|i: int| 0 <= i < r@.len() ==> pool@.contains(#[trigger] r@[i]),
        pool@.no_duplicates() ==> r@.no_duplicates(),
{
    pool.choose_multiple(&mut rand::thread_rng(), amount).cloned().collect()
}

/// Draws the countries of a question: a target from the whole catalog, then
/// distractors from the other countries, without repetition. It fails when
/// the catalog has fewer countries than a question has options.
pub fn draw_selection(countries: &Countries) -> (r: Result<Selection, QuizError>)
    requires
        countries.wf(),
    ensures
        r is Err <==> countries@.len() < NUMBER_OF_OPTIONS,
        r matches Err(e) ==> e == QuizError::InsufficientData,
        r matches Ok(s) ==> s.is_valid_for(countries@),
{
    let codes = get_country_codes(countries);
    let n = codes.len();
    if n < NUMBER_OF_OPTIONS {
        return Err(QuizError::InsufficientData);
    }
    let target = random_below(n);
    let mut pool: Vec<usize> = Vec::new();
    let mut k: usize = 0;
    while k < n
        invariant
            k <= n,
            target < n,
            pool@.len() == if k <= target {
                k as int
            } else {
                k - 1
            },
            forall|a: int| 0 <= a < pool@.len() ==> #[trigger] pool@[a] < k && pool@[a] != target,
            forall|a: int, b: int|
                #![trigger pool@[a], pool@[b]]
                0 <= a < b < pool@.len() ==> pool@[a] < pool@[b],
        decreases n - k,
    {
        if k != target {
            pool.push(k);
        }
        k += 1;
    }
    assert(pool@.no_duplicates()) by {
        assert forall|a: int, b: int| 0 <= a < pool@.len() && 0 <= b < pool@.len() && a != b implies pool@[a] != pool@[b] by {
            if a < b {
                assert(pool@[a] < pool@[b]);
            } else {
                assert(pool@[b] < pool@[a]);
            }
        }
    }
    let picks = random_sample(pool.as_slice(), NUMBER_OF_OPTIONS - 1);
    assert forall|i: int| 0 <= i < picks@.len() implies #[trigger] picks@[i] < n && picks@[i] != target by {
        assert(pool@.contains(picks@[i]));
    }
    let mut distractors: Vec<String> = Vec::new();
    let mut j: usize = 0;
    while j < picks.len()
        invariant
            j <= picks@.len(),
            picks@.len() == NUMBER_OF_OPTIONS - 1,
            n == codes@.len(),
            forall|i: int| 0 <= i < picks@.len() ==> #[trigger] picks@[i] < n && picks@[i] != target,
            distractors@.len() == j,
            forall|i: int| 0 <= i < j ==> (#[trigger] distractors@[i])@ == codes@[picks@[i] as int]@,
        decreases picks@.len() - j,
    {
        distractors.push(codes[picks[j]].clone());
        j += 1;
    }
    let selection = Selection { target: codes[target].clone(), distractors };
    proof {
        let d = texts(selection.distractors@);
        assert forall|a: int| 0 <= a < d.len() implies countries@.contains_key(#[trigger] d[a])
            && d[a] != selection.target@ by {
            assert(d[a] == codes@[picks@[a] as int]@);
        }
        assert forall|a: int, b: int| 0 <= a < d.len() && 0 <= b < d.len() && a != b implies d[a] != d[b] by {
            assert(d[a] == codes@[picks@[a] as int]@);
            assert(d[b] == codes@[picks@[b] as int]@);
            assert(picks@[a] != picks@[b]);
        }
    }
    Ok(selection)
}

/// The country to guess, with its flag encoded.
pub fn get_country_with_flag(cca2: &str, name: &str, flag: &[u8]) -> (r: Country)
    requires
        encoded_len(flag@.len()) <= usize::MAX,
    ensures
        r.cca2@ == cca2@,
        r.name@ == name@,
        r.flag@ == base64_no_pad(flag@),
        r.flag@.len() == encoded_len(flag@.len()),
{
    Country { cca2: cca2.to_owned(), name: name.to_owned(), flag: get_flag_base64_encoded(flag) }
}

/// The question that `selection` gives: the target with its flag, and the
/// options for the target and the distractors in ascending code order, the
/// flag on the target's option alone.
pub fn get_question(countries: &Countries, selection: &Selection, flag: &[u8]) -> (q: Question)
    requires
        countries.wf(),
        selection.is_valid_for(countries@),
        encoded_len(flag@.len()) <= usize::MAX,
    ensures
        is_question_for(countries@, *selection, flag@, q),
{
    let target = &selection.target;
    let name = countries.get(target.as_str()).unwrap();
    let country = get_country_with_flag(target.as_str(), name.as_str(), flag);
    let ghost d = texts(selection.distractors@);
    let mut codes: Vec<String> = Vec::new();
    let mut i: usize = 0;
    while i < selection.distractors.len()
        invariant
            i <= d.len(),
            d == texts(selection.distractors@),
            texts(codes@) =~= d.subrange(0, i as int),
        decreases d.len() - i,
    {
        let ghost before = codes@;
        codes.push(selection.distractors[i].clone());
        proof {
            assert(texts(codes@) =~= texts(before).push(d[i as int]));
            assert(d.subrange(0, i + 1) =~= d.subrange(0, i as int).push(d[i as int]));
        }
        i += 1;
    }
    let ghost before = codes@;
    codes.push(target.clone());
    proof {
        assert(d.subrange(0, d.len() as int) =~= d);
        assert(texts(codes@) =~= texts(before).push(target@));
        let t = texts(codes@);
        assert(t =~= selection.codes());
        assert forall|a: int, b: int| 0 <= a < t.len() && 0 <= b < t.len() && a != b implies t[a] != t[b] by {
            if a < d.len() && b < d.len() {
                assert(d[a] != d[b]);
            } else if a < d.len() {
                assert(d[a] != target@);
            } else if b < d.len() {
                assert(d[b] != target@);
            }
        }
        assert forall|a: int| 0 <= a < codes@.len() implies countries@.contains_key(#[trigger] codes@[a]@) by {
            assert(codes@[a]@ == t[a]);
            if a < d.len() {
                assert(countries@.contains_key(d[a]));
            }
        }
    }
    let ghost codes_view = texts(codes@);
    let mut options = get_options(countries, codes);
    let ghost o0 = options@;
    let mut a: usize = 0;
    while a < options.len() && !(options[a].cca2 == *target)
        invariant
            options@ == o0,
            a <= o0.len(),
            forall|b: int| 0 <= b < a ==> (#[trigger] o0[b]).cca2@ != target@,
        decreases o0.len() - a,
    {
        a += 1;
    }
    proof {
        assert(codes_view.to_set() == selection.codes().to_set());
        assert(selection.codes()[d.len() as int] == target@);
        assert(codes_of(o0).to_set().contains(target@));
        let b = choose|b: int| 0 <= b < o0.len() && codes_of(o0)[b] == target@;
        assert(o0[b].cca2@ == target@);
        assert(a < o0.len());
    }
    options.set(a, Country { cca2: target.clone(), name: name.clone(), flag: country.flag.clone() });
    proof {
        let o = options@;
        assert(o[a as int].cca2@ == o0[a as int].cca2@);
        assert forall|b: int| 0 <= b < o.len() && b != a implies #[trigger] o[b] == o0[b] by {}
        assert forall|x: int, y: int|
            #![trigger o[x], o[y]]
            0 <= x < y < o.len() implies code_lt(o[x].cca2@, o[y].cca2@) by {
            assert(code_lt(o0[x].cca2@, o0[y].cca2@));
        }
        assert(codes_of(o) =~= codes_of(o0));
        assert forall|b: int| 0 <= b < o.len() && b != a implies o[b].cca2@ != target@ by {
            assert(code_lt(o0[b].cca2@, o0[a as int].cca2@) || code_lt(o0[a as int].cca2@, o0[b].cca2@));
        }
    }
    Question { country, options }
}

/// The codes of a valid selection are distinct countries of the catalog.
proof fn lemma_selection_codes(m: Map<Seq<char>, Seq<char>>, selection: Selection)
    requires
        selection.is_valid_for(m),
    ensures
        selection.codes().no_duplicates(),
        selection.codes().len() == NUMBER_OF_OPTIONS,
        forall|k: Seq<char>| #[trigger] selection.codes().contains(k) ==> m.contains_key(k),
        selection.codes().contains(selection.target@),
{
    let c = selection.codes();
    let d = texts(selection.distractors@);
    assert forall|a: int, b: int| 0 <= a < c.len() && 0 <= b < c.len() && a != b implies c[a] != c[b] by {
        if a < d.len() && b < d.len() {
            assert(d[a] != d[b]);
        } else if a < d.len() {
            assert(d[a] != selection.target@);
        } else if b < d.len() {
            assert(d[b] != selection.target@);
        }
    }
    assert forall|k: Seq<char>| #[trigger] c.contains(k) implies m.contains_key(k) by {
        let a = choose|a: int| 0 <= a < c.len() && c[a] == k;
        if a < d.len() {
            assert(m.contains_key(d[a]));
        }
    }
    assert(c[d.len() as int] == selection.target@);
}

/// A question offers exactly as many options as it should, under distinct
/// codes of the catalog, in ascending code order, the target among them.
/// When the flag has any bytes, exactly one option carries a flag, and it is
/// the target's.
pub proof fn lemma_question_options(
    m: Map<Seq<char>, Seq<char>>,
    selection: Selection,
    flag: Seq<u8>,
    q: Question,
)
    requires
        selection.is_valid_for(m),
        is_question_for(m, selection, flag, q),
    ensures
        q.options@.len() == NUMBER_OF_OPTIONS,
        sorted_by_code(q.options@),
        forall|a: int, b: int|
            #![trigger q.options@[a], q.options@[b]]
            0 <= a < q.options@.len() && 0 <= b < q.options@.len() && a != b
                ==> q.options@[a].cca2@ != q.options@[b].cca2@,
        forall|a: int| 0 <= a < q.options@.len() ==> m.contains_key(#[trigger] q.options@[a].cca2@),
        exists|a: int| 0 <= a < q.options@.len() && q.options@[a].cca2@ == selection.target@,
        flag.len() > 0 ==> exists|a: int|
            {
                &&& 0 <= a < q.options@.len()
                &&& q.options@[a].cca2@ == selection.target@
                &&& q.options@[a].flag@.len() > 0
                &&& forall|b: int|
                    0 <= b < q.options@.len() && (#[trigger] q.options@[b]).flag@.len() > 0
                        ==> b == a
            },
{
    let o = q.options@;
    let target = selection.target@;
    lemma_selection_codes(m, selection);
    assert forall|a: int, b: int|
        #![trigger o[a], o[b]]
        0 <= a < o.len() && 0 <= b < o.len() && a != b implies o[a].cca2@ != o[b].cca2@ by {
        if a < b {
            assert(code_lt(o[a].cca2@, o[b].cca2@));
        } else {
            assert(code_lt(o[b].cca2@, o[a].cca2@));
        }
    }
    assert forall|a: int| 0 <= a < o.len() implies m.contains_key(#[trigger] o[a].cca2@) by {
        assert(codes_of(o)[a] == o[a].cca2@);
        assert(codes_of(o).to_set().contains(o[a].cca2@));
        assert(selection.codes().contains(o[a].cca2@));
    }
    assert(codes_of(o).to_set().contains(target));
    let t = choose|a: int| 0 <= a < o.len() && codes_of(o)[a] == target;
    assert(o[t].cca2@ == target);
    if flag.len() > 0 {
        assert(o[t].flag@.len() > 0);
        assert forall|b: int| 0 <= b < o.len() && (#[trigger] o[b]).flag@.len() > 0 implies b == t by {
            if b != t {
                assert(o[b].cca2@ != o[t].cca2@);
            }
        }
    }
}

/// A catalog with exactly as many countries as a question has options is
/// shown whole: the options are all of its countries.
pub proof fn lemma_small_catalog_shown_whole(
    m: Map<Seq<char>, Seq<char>>,
    selection: Selection,
    flag: Seq<u8>,
    q: Question,
)
    requires
        m.dom().finite(),
        m.len() == NUMBER_OF_OPTIONS,
        selection.is_valid_for(m),
        is_question_for(m, selection, flag, q),
    ensures
        codes_of(q.options@).to_set() == m.dom(),
{
    let c = selection.codes();
    lemma_selection_codes(m, selection);
    c.unique_seq_to_set();
    assert(c.to_set().subset_of(m.dom()));
    vstd::set_lib::lemma_subset_equality(c.to_set(), m.dom());
}

} // verus!
