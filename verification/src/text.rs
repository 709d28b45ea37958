//! Character-level text utilities: whitespace, searching, trimming,
//! tokenizing and decimal parsing, each specified over `Seq<char>`.

use vstd::prelude::*;

verus! {

/// The Unicode `White_Space` property, as `char::is_whitespace` documents it.
pub open spec fn is_ws(c: char) -> bool {
    let v = c as u32;
    ||| 0x09 <= v <= 0x0D
    ||| v == 0x20
    ||| v == 0x85
    ||| v == 0xA0
    ||| v == 0x1680
    ||| 0x2000 <= v <= 0x200A
    ||| v == 0x2028
    ||| v == 0x2029
    ||| v == 0x202F
    ||| v == 0x205F
    ||| v == 0x3000
}

/// Whether `c` is whitespace in the sense of `char::is_whitespace`.
pub fn is_whitespace(c: char) -> (r: bool)
    ensures
        r == is_ws(c),
{
    let v: u32 = c as u32;
    (0x09 <= v && v <= 0x0D) || v == 0x20 || v == 0x85 || v == 0xA0 || v == 0x1680 || (0x2000
        <= v && v <= 0x200A) || v == 0x2028 || v == 0x2029 || v == 0x202F || v == 0x205F || v
        == 0x3000
}

/// Copies the characters of a string slice into a vector.
pub fn str_chars(s: &str) -> (r: Vec<char>)
    ensures
        r@ == s@,
{
    let mut r: Vec<char> = Vec::new();
    for c in it: s.chars()
        invariant
            r@ == it.seq().take(it.index() as int),
    {
        r.push(c);
    }
    r
}


/// Builds a `String` from a vector of characters.
#[verifier::external_body]
pub(crate) fn chars_to_string(v: &Vec<char>) -> (r: String)
    ensures
        r@ == v@,
{
    v.iter().collect()
}

/// Copies `v[lo..hi]`.
pub fn copy_range<T: Copy>(v: &Vec<T>, lo: usize, hi: usize) -> (r: Vec<T>)
    requires
        lo <= hi <= v.len(),
    ensures
        r@ == v@.subrange(lo as int, hi as int),
{
    let mut r: Vec<T> = Vec::new();
    let mut i = lo;
    while i < hi
        invariant
            lo <= i <= hi <= v.len(),
            r@ == v@.subrange(lo as int, i as int),
        decreases hi - i,
    {
        r.push(v[i]);
        i += 1;
    }
    r
}

// ---------------------------------------------------------------- searching

/// The first index `>= i` at which `x` occurs in `s`.
pub open spec fn find_from<T>(s: Seq<T>, x: T, i: int) -> Option<int>
    decreases s.len() - i,
{
    if i < 0 || i >= s.len() {
        None
    } else if s[i] == x {
        Some(i)
    } else {
        find_from(s, x, i + 1)
    }
}

/// The first index at which `x` occurs in `s`.
pub open spec fn find_first<T>(s: Seq<T>, x: T) -> Option<int> {
    find_from(s, x, 0)
}

/// The last index `< i` at which `x` occurs in `s`.
pub open spec fn find_before<T>(s: Seq<T>, x: T, i: int) -> Option<int>
    decreases i,
{
    if i <= 0 || i > s.len() {
        None
    } else if s[i - 1] == x {
        Some(i - 1)
    } else {
        find_before(s, x, i - 1)
    }
}

/// The last index at which `x` occurs in `s`.
pub open spec fn find_last<T>(s: Seq<T>, x: T) -> Option<int> {
    find_before(s, x, s.len() as int)
}

/// Where `find_from` finds something, it is an occurrence at or after `i`
/// with none in between.
pub proof fn lemma_find_from<T>(s: Seq<T>, x: T, i: int)
    requires
        0 <= i,
    ensures
        match find_from(s, x, i) {
            Some(j) => i <= j < s.len() && s[j] == x && forall|k: int| i <= k < j ==> s[k] != x,
            None => forall|k: int| i <= k < s.len() ==> s[k] != x,
        },
    decreases s.len() - i,
{
    if i < s.len() && s[i] != x {
        lemma_find_from(s, x, i + 1);
    }
}

/// Where `find_before` finds something, it is the last occurrence below `i`.
pub proof fn lemma_find_before<T>(s: Seq<T>, x: T, i: int)
    requires
        i <= s.len(),
    ensures
        match find_before(s, x, i) {
            Some(j) => 0 <= j < i && s[j] == x && forall|k: int| j < k < i ==> s[k] != x,
            None => forall|k: int| 0 <= k < i ==> s[k] != x,
        },
    decreases i,
{
    if i > 0 && s[i - 1] != x {
        lemma_find_before(s, x, i - 1);
    }
}

/// An occurrence with none before it, from `i` on, is what `find_from` finds.
pub proof fn lemma_find_from_at<T>(s: Seq<T>, x: T, i: int, j: int)
    requires
        0 <= i <= j < s.len(),
        s[j] == x,
        forall|k: int| i <= k < j ==> s[k] != x,
    ensures
        find_from(s, x, i) == Some(j),
    decreases j - i,
{
    if i < j {
        lemma_find_from_at(s, x, i + 1, j);
    }
}

/// An occurrence with none after it below `i` is what `find_before` finds.
pub proof fn lemma_find_before_at<T>(s: Seq<T>, x: T, i: int, j: int)
    requires
        0 <= j < i <= s.len(),
        s[j] == x,
        forall|k: int| j < k < i ==> s[k] != x,
    ensures
        find_before(s, x, i) == Some(j),
    decreases i - j,
{
    if j < i - 1 {
        lemma_find_before_at(s, x, i - 1, j);
    }
}

/// The first index of `c` in `s`.
pub fn index_of_first(s: &Vec<char>, c: char) -> (r: Option<usize>)
    ensures
        r matches Some(j) ==> find_first(s@, c) == Some(j as int),
        r is None ==> find_first(s@, c) is None,
{
    let mut i: usize = 0;
    while i < s.len()
        invariant
            i <= s.len(),
            find_first(s@, c) == find_from(s@, c, i as int),
        decreases s.len() - i,
    {
        if s[i] == c {
            return Some(i);
        }
        i += 1;
    }
    None
}

/// The last index of `c` in `s`.
pub fn index_of_last(s: &Vec<char>, c: char) -> (r: Option<usize>)
    ensures
        r matches Some(j) ==> find_last(s@, c) == Some(j as int),
        r is None ==> find_last(s@, c) is None,
{
    let mut i: usize = s.len();
    while i > 0
        invariant
            i <= s.len(),
            find_last(s@, c) == find_before(s@, c, i as int),
        decreases i,
    {
        if s[i - 1] == c {
            return Some(i - 1);
        }
        i -= 1;
    }
    None
}

/// The first index `>= from` of `c` in `s`.
pub fn index_of_from(s: &Vec<char>, c: char, from: usize) -> (r: Option<usize>)
    requires
        from <= s.len(),
    ensures
        r matches Some(j) ==> from <= j < s.len() && find_first(s@.skip(from as int), c) == Some(
            j - from,
        ),
        r is None ==> find_first(s@.skip(from as int), c) is None,
{
    let ghost t = s@.skip(from as int);
    let mut i: usize = from;
    while i < s.len()
        invariant
            from <= i <= s.len(),
            t == s@.skip(from as int),
            find_first(t, c) == find_from(t, c, i - from),
        decreases s.len() - i,
    {
        assert(t[i - from] == s@[i as int]);
        if s[i] == c {
            return Some(i);
        }
        i += 1;
    }
    None
}

// ---------------------------------------------------------------- trimming

/// The first index `>= i` that holds no whitespace (or the length).
pub open spec fn skip_ws(s: Seq<char>, i: int) -> int
    decreases s.len() - i,
{
    if i < 0 || i >= s.len() || !is_ws(s[i]) {
        i
    } else {
        skip_ws(s, i + 1)
    }
}

/// The index just past the last non-whitespace character below `j` (or 0).
pub open spec fn skip_ws_back(s: Seq<char>, j: int) -> int
    decreases j,
{
    if j <= 0 || j > s.len() || !is_ws(s[j - 1]) {
        j
    } else {
        skip_ws_back(s, j - 1)
    }
}

/// `str::trim`: `s` without leading and trailing whitespace.
pub open spec fn trim(s: Seq<char>) -> Seq<char> {
    let a = skip_ws(s, 0);
    let b = skip_ws_back(s, s.len() as int);
    if b <= a {
        Seq::empty()
    } else {
        s.subrange(a, b)
    }
}

/// `trim` cuts whitespace off both ends and nothing else: `s` is the trimmed
/// text between a run of whitespace before and one after, and the trimmed
/// text neither starts nor ends with whitespace.
pub proof fn lemma_trim(s: Seq<char>)
    ensures
        exists|a: int, b: int|
            0 <= a <= b <= s.len() && #[trigger] s.subrange(a, b) == trim(s) && (forall|k: int|
                0 <= k < a ==> is_ws(s[k])) && (forall|k: int| b <= k < s.len() ==> is_ws(s[k])),
        trim(s).len() > 0 ==> !is_ws(trim(s)[0]) && !is_ws(trim(s)[trim(s).len() - 1]),
{
    lemma_skip_ws(s, 0);
    lemma_skip_ws_back(s, s.len() as int);
    let a = skip_ws(s, 0);
    let b = skip_ws_back(s, s.len() as int);
    if b <= a {
        assert(s.subrange(a, a) =~= trim(s));
        assert forall|k: int| a <= k < s.len() implies is_ws(s[k]) by {
            if !is_ws(s[k]) {
                assert(k < b);
            }
        }
    } else {
        assert(s.subrange(a, b) == trim(s));
    }
}

/// `skip_ws` stops at the first non-whitespace character from `i`.
pub proof fn lemma_skip_ws(s: Seq<char>, i: int)
    requires
        0 <= i <= s.len(),
    ensures
        i <= skip_ws(s, i) <= s.len(),
        forall|k: int| i <= k < skip_ws(s, i) ==> is_ws(s[k]),
        skip_ws(s, i) < s.len() ==> !is_ws(s[skip_ws(s, i)]),
    decreases s.len() - i,
{
    if i < s.len() && is_ws(s[i]) {
        lemma_skip_ws(s, i + 1);
    }
}

/// `skip_ws_back` stops just past the last non-whitespace character below `j`.
pub proof fn lemma_skip_ws_back(s: Seq<char>, j: int)
    requires
        0 <= j <= s.len(),
    ensures
        0 <= skip_ws_back(s, j) <= j,
        forall|k: int| skip_ws_back(s, j) <= k < j ==> is_ws(s[k]),
        skip_ws_back(s, j) > 0 ==> !is_ws(s[skip_ws_back(s, j) - 1]),
    decreases j,
{
    if j > 0 && is_ws(s[j - 1]) {
        lemma_skip_ws_back(s, j - 1);
    }
}

/// `s` without leading and trailing whitespace.
pub fn trim_chars(s: &Vec<char>) -> (r: Vec<char>)
    ensures
        r@ == trim(s@),
{
    let mut a: usize = 0;
    while a < s.len() && is_whitespace(s[a])
        invariant
            a <= s.len(),
            skip_ws(s@, 0) == skip_ws(s@, a as int),
        decreases s.len() - a,
    {
        a += 1;
    }
    let mut b: usize = s.len();
    while b > 0 && is_whitespace(s[b - 1])
        invariant
            b <= s.len(),
            skip_ws_back(s@, s@.len() as int) == skip_ws_back(s@, b as int),
        decreases b,
    {
        b -= 1;
    }
    if b <= a {
        Vec::new()
    } else {
        copy_range(s, a, b)
    }
}


// ---------------------------------------------------------------- tokens

/// The end of the run of non-whitespace characters that starts at `i`.
pub open spec fn token_end(s: Seq<char>, i: int) -> int
    decreases s.len() - i,
{
    if i < 0 || i >= s.len() || is_ws(s[i]) {
        i
    } else {
        token_end(s, i + 1)
    }
}

/// A token ends at or after where it starts, and within the text.
pub proof fn lemma_token_end_bounds(s: Seq<char>, i: int)
    requires
        0 <= i <= s.len(),
    ensures
        i <= token_end(s, i) <= s.len(),
    decreases s.len() - i,
{
    if i < s.len() && !is_ws(s[i]) {
        lemma_token_end_bounds(s, i + 1);
    }
}

/// A run of non-whitespace characters from `i` that stops at `e`, the end
/// or whitespace, is one token.
pub proof fn lemma_token_end_at(s: Seq<char>, i: int, e: int)
    requires
        0 <= i <= e <= s.len(),
        forall|k: int| i <= k < e ==> !is_ws(s[k]),
        e == s.len() || is_ws(s[e]),
    ensures
        token_end(s, i) == e,
    decreases e - i,
{
    if i < e {
        lemma_token_end_at(s, i + 1, e);
    }
}

/// The whitespace-separated tokens of `s` from index `i` on.
pub open spec fn tokens_from(s: Seq<char>, i: int) -> Seq<Seq<char>>
    decreases s.len() - i,
{
    if i < 0 || i >= s.len() {
        Seq::empty()
    } else if is_ws(s[i]) {
        tokens_from(s, i + 1)
    } else {
        proof {
            lemma_token_end_bounds(s, i + 1);
        }
        let e = token_end(s, i);
        seq![s.subrange(i, e)] + tokens_from(s, e)
    }
}

/// `str::split_whitespace`: the maximal runs of non-whitespace characters, in order.
pub open spec fn tokens(s: Seq<char>) -> Seq<Seq<char>> {
    tokens_from(s, 0)
}

/// `t` is a maximal run of non-whitespace characters of `s` that starts
/// at `a`, at or after `i`: whitespace or an end on both sides.
pub open spec fn run_at(s: Seq<char>, t: Seq<char>, a: int, i: int) -> bool {
    &&& i <= a
    &&& t.len() > 0
    &&& a + t.len() <= s.len()
    &&& s.subrange(a, a + t.len()) == t
    &&& (a == 0 || is_ws(s[a - 1]))
    &&& (a + t.len() == s.len() || is_ws(s[a + t.len()]))
    &&& forall|j: int| a <= j < a + t.len() ==> !is_ws(#[trigger] s[j])
}

/// The runs `ts` start at `st` in order, each ending before the next starts.
pub open spec fn runs_ordered(ts: Seq<Seq<char>>, st: Seq<int>) -> bool {
    forall|k: int| #![trigger st[k]] 0 <= k < ts.len() - 1 ==> st[k] + ts[k].len() < st[k + 1]
}

/// Every non-whitespace character of `s` from `i` on lies in one of the runs.
pub open spec fn runs_cover(s: Seq<char>, ts: Seq<Seq<char>>, st: Seq<int>, i: int) -> bool {
    forall|j: int|
        i <= j < s.len() && !is_ws(s[j]) ==> exists|k: int|
            0 <= k < ts.len() && #[trigger] st[k] <= j < st[k] + ts[k].len()
}

/// `ts` are the maximal runs of non-whitespace characters of `s` from index
/// `i` on, in order, `st` giving where each starts: each is such a run, they
/// come in order without overlap, and every non-whitespace character from
/// `i` on lies in one.
pub open spec fn tokens_at(s: Seq<char>, ts: Seq<Seq<char>>, st: Seq<int>, i: int) -> bool {
    &&& st.len() == ts.len()
    &&& forall|k: int| 0 <= k < ts.len() ==> #[trigger] run_at(s, ts[k], st[k], i)
    &&& runs_ordered(ts, st)
    &&& runs_cover(s, ts, st, i)
}

/// The characters from `i` up to `token_end(s, i)` are no whitespace, and it
/// stops at whitespace or the end.
pub proof fn lemma_token_end_chars(s: Seq<char>, i: int)
    requires
        0 <= i <= s.len(),
    ensures
        i <= token_end(s, i) <= s.len(),
        forall|j: int| i <= j < token_end(s, i) ==> !is_ws(s[j]),
        token_end(s, i) == s.len() || is_ws(s[token_end(s, i)]),
    decreases s.len() - i,
{
    if i < s.len() && !is_ws(s[i]) {
        lemma_token_end_chars(s, i + 1);
    }
}

/// `tokens_from` gives the maximal runs from a run boundary `i` on.
#[verifier::rlimit(60)]
pub proof fn lemma_tokens_from(s: Seq<char>, i: int)
    requires
        0 <= i <= s.len(),
        i < s.len() && !is_ws(s[i]) ==> (i == 0 || is_ws(s[i - 1])),
    ensures
        exists|st: Seq<int>| #[trigger] tokens_at(s, tokens_from(s, i), st, i),
    decreases s.len() - i,
{
    let ts = tokens_from(s, i);
    if i >= s.len() {
        assert(tokens_at(s, ts, Seq::<int>::empty(), i));
    } else if is_ws(s[i]) {
        lemma_tokens_from(s, i + 1);
        let st = choose|st: Seq<int>| #[trigger] tokens_at(s, tokens_from(s, i + 1), st, i + 1);
        assert(ts == tokens_from(s, i + 1));
        assert forall|k: int| 0 <= k < ts.len() implies #[trigger] run_at(s, ts[k], st[k], i) by {
            assert(run_at(s, ts[k], st[k], i + 1));
        }
        assert(runs_ordered(ts, st));
        assert forall|j: int| i <= j < s.len() && !is_ws(s[j]) implies exists|k: int|
            0 <= k < ts.len() && #[trigger] st[k] <= j < st[k] + ts[k].len() by {
            assert(j != i);
        }
        assert(runs_cover(s, ts, st, i));
        assert(tokens_at(s, ts, st, i));
    } else {
        lemma_token_end_chars(s, i);
        let e = token_end(s, i);
        lemma_tokens_from(s, e);
        let rest = tokens_from(s, e);
        let sr = choose|st: Seq<int>| #[trigger] tokens_at(s, rest, st, e);
        let st = seq![i] + sr;
        assert(ts == seq![s.subrange(i, e)] + rest);
        let t0 = s.subrange(i, e);
        assert(t0.len() == e - i);
        assert forall|k: int| 0 <= k < ts.len() implies #[trigger] run_at(s, ts[k], st[k], i) by {
            if k == 0 {
                assert(ts[0] == t0);
                assert(st[0] == i);
                assert(s.subrange(i, i + t0.len()) =~= t0);
            } else {
                assert(ts[k] == rest[k - 1]);
                assert(st[k] == sr[k - 1]);
                assert(run_at(s, rest[k - 1], sr[k - 1], e));
            }
        }
        if rest.len() > 0 {
            assert(run_at(s, rest[0], sr[0], e));
            let a = sr[0];
            assert(!is_ws(s[a]));
            assert(a > e);
        }
        assert(ts.len() == rest.len() + 1);
        assert forall|k: int| #![trigger st[k]] 0 <= k < ts.len() - 1 implies st[k] + ts[k].len()
            < st[k + 1] by {
            if k > 0 {
                assert(ts[k] == rest[k - 1]);
                assert(st[k] == sr[k - 1]);
                assert(st[k + 1] == sr[k]);
                assert(runs_ordered(rest, sr));
            } else {
                assert(ts[0] == t0);
                assert(st[1] == sr[0]);
            }
        }
        assert(runs_ordered(ts, st));
        assert forall|j: int| i <= j < s.len() && !is_ws(s[j]) implies exists|k: int|
            0 <= k < ts.len() && #[trigger] st[k] <= j < st[k] + ts[k].len() by {
            if j < e {
                assert(ts[0] == t0);
                assert(st[0] <= j < st[0] + ts[0].len());
            } else {
                assert(runs_cover(s, rest, sr, e));
                let k = choose|k: int| 0 <= k < rest.len() && #[trigger] sr[k] <= j < sr[k] + rest[k].len();
                assert(st[k + 1] == sr[k]);
                assert(ts[k + 1] == rest[k]);
            }
        }
        assert(runs_cover(s, ts, st, i));
        assert(tokens_at(s, ts, st, i));
    }
}

/// `str::split_whitespace` gives exactly the maximal runs of non-whitespace
/// characters of `s`, in order.
pub proof fn lemma_tokens(s: Seq<char>)
    ensures
        exists|st: Seq<int>| #[trigger] tokens_at(s, tokens(s), st, 0),
{
    lemma_tokens_from(s, 0);
    let st = choose|st: Seq<int>| #[trigger] tokens_at(s, tokens_from(s, 0), st, 0);
    assert(tokens_at(s, tokens(s), st, 0));
}

/// The views of a sequence of character vectors.
pub open spec fn views(r: Seq<Vec<char>>) -> Seq<Seq<char>> {
    r.map_values(|v: Vec<char>| v@)
}

/// Splits `s` into its whitespace-separated tokens.
pub fn split_whitespace(s: &Vec<char>) -> (r: Vec<Vec<char>>)
    ensures
        views(r@) == tokens(s@),
{
    let mut r: Vec<Vec<char>> = Vec::new();
    let mut i: usize = 0;
    while i < s.len()
        invariant
            i <= s.len(),
            tokens(s@) == views(r@) + tokens_from(s@, i as int),
        decreases s.len() - i,
    {
        if is_whitespace(s[i]) {
            i += 1;
        } else {
            let mut j: usize = i;
            while j < s.len() && !is_whitespace(s[j])
                invariant
                    i <= j <= s.len(),
                    token_end(s@, i as int) == token_end(s@, j as int),
                decreases s.len() - j,
            {
                j += 1;
            }
            let tok = copy_range(s, i, j);
            proof {
                assert(token_end(s@, i as int) == j);
                assert(tokens_from(s@, i as int) == seq![s@.subrange(i as int, j as int)]
                    + tokens_from(s@, j as int));
                assert(views(r@.push(tok)) == views(r@).push(tok@));
            }
            r.push(tok);
            i = j;
        }
    }
    r
}

// ---------------------------------------------------------------- numbers

/// An ASCII decimal digit.
pub open spec fn is_digit(c: char) -> bool {
    0x30 <= (c as u32) <= 0x39
}

/// The value of an ASCII decimal digit.
pub open spec fn digit_value(c: char) -> nat {
    ((c as u32) - 0x30) as nat
}

/// Every character of `d` is an ASCII digit.
pub open spec fn all_digits(d: Seq<char>) -> bool {
    forall|i: int| 0 <= i < d.len() ==> is_digit(#[trigger] d[i])
}

/// The number that the digits `d` denote in base ten.
pub open spec fn decimal_value(d: Seq<char>) -> nat
    decreases d.len(),
{
    if d.len() == 0 {
        0
    } else {
        decimal_value(d.drop_last()) * 10 + digit_value(d.last())
    }
}

/// The digits that an unsigned `from_str` reads: `s` without one leading `+`.
pub open spec fn unsigned_digits(s: Seq<char>) -> Seq<char> {
    if s.len() > 0 && s[0] == '+' {
        s.drop_first()
    } else {
        s
    }
}

/// `from_str` of an unsigned integer type whose largest value is `max`:
/// an optional `+`, then one or more ASCII digits whose value is at most `max`.
pub open spec fn parse_unsigned(s: Seq<char>, max: nat) -> Option<nat> {
    let d = unsigned_digits(s);
    if d.len() > 0 && all_digits(d) && decimal_value(d) <= max {
        Some(decimal_value(d))
    } else {
        None
    }
}

/// A prefix of a string of digits denotes no more than the whole.
pub proof fn lemma_prefix_value_le(d: Seq<char>, k: int)
    requires
        all_digits(d),
        0 <= k <= d.len(),
    ensures
        decimal_value(d.take(k)) <= decimal_value(d),
    decreases d.len(),
{
    if k < d.len() {
        assert(d.drop_last().take(k) =~= d.take(k));
        lemma_prefix_value_le(d.drop_last(), k);
    } else {
        assert(d.take(k) =~= d);
    }
}

/// `u64::from_str` on the characters of `s`.
pub fn parse_u64(s: &Vec<char>) -> (r: Option<u64>)
    ensures
        r matches Some(v) ==> parse_unsigned(s@, u64::MAX as nat) == Some(v as nat),
        r is None ==> parse_unsigned(s@, u64::MAX as nat) is None,
{
    let start: usize = if s.len() > 0 && s[0] == '+' {
        1
    } else {
        0
    };
    let ghost d = unsigned_digits(s@);
    assert(d =~= s@.subrange(start as int, s@.len() as int));
    if start == s.len() {
        return None;
    }
    let mut acc: u128 = 0;
    let mut i: usize = start;
    while i < s.len()
        invariant
            start <= i <= s.len(),
            d == s@.subrange(start as int, s@.len() as int),
            d == unsigned_digits(s@),
            d.len() > 0,
            all_digits(d.take(i - start)),
            acc == decimal_value(d.take(i - start)),
            acc <= u64::MAX,
        decreases s.len() - i,
    {
        let c = s[i];
        let cv: u32 = c as u32;
        if cv < 0x30 || cv > 0x39 {
            assert(d[i - start] == c);
            assert(!is_digit(d[i - start]));
            assert(!all_digits(d));
            return None;
        }
        proof {
            assert(d.take(i - start + 1).drop_last() =~= d.take(i - start));
            assert(d.take(i - start + 1).last() == c);
        }
        acc = acc * 10 + ((cv - 0x30) as u128);
        i += 1;
        if acc > u64::MAX as u128 {
            proof {
                if all_digits(d) {
                    lemma_prefix_value_le(d, i - start);
                }
            }
            return None;
        }
    }
    assert(d.take(i - start) =~= d);
    Some(acc as u64)
}

/// `u32::from_str` on the characters of `s`.
pub fn parse_u32(s: &Vec<char>) -> (r: Option<u32>)
    ensures
        r matches Some(v) ==> parse_unsigned(s@, u32::MAX as nat) == Some(v as nat),
        r is None ==> parse_unsigned(s@, u32::MAX as nat) is None,
{
    match parse_u64(s) {
        Some(v) => {
            if v <= u32::MAX as u64 {
                Some(v as u32)
            } else {
                None
            }
        },
        None => None,
    }
}

// ---------------------------------------------------------------- decimal text

/// The ASCII digit for `d < 10`.
pub open spec fn digit_char(d: nat) -> char {
    (d + 0x30) as char
}

/// The decimal digits of `n`, without leading zeros (`0` for zero).
pub open spec fn decimal(n: nat) -> Seq<char>
    decreases n,
{
    if n < 10 {
        seq![digit_char(n)]
    } else {
        decimal(n / 10).push(digit_char(n % 10))
    }
}

/// The decimal digits of `n`, as `u32`'s `Display` writes them.
pub fn u32_to_chars(n: u32) -> (r: Vec<char>)
    ensures
        r@ == decimal(n as nat),
{
    let mut acc: Vec<char> = Vec::new();
    let mut q: u32 = n;
    loop
        invariant
            decimal(n as nat) == decimal(q as nat) + acc@,
        decreases q,
    {
        let d: u32 = q % 10;
        let c: char = if d == 0 {
            '0'
        } else if d == 1 {
            '1'
        } else if d == 2 {
            '2'
        } else if d == 3 {
            '3'
        } else if d == 4 {
            '4'
        } else if d == 5 {
            '5'
        } else if d == 6 {
            '6'
        } else if d == 7 {
            '7'
        } else if d == 8 {
            '8'
        } else {
            '9'
        };
        assert(c == digit_char(d as nat));
        let ghost old_acc = acc@;
        acc.insert(0, c);
        if q < 10 {
            assert(decimal(q as nat) == seq![c]);
            assert(acc@ =~= seq![c] + old_acc);
            assert(decimal(n as nat) =~= acc@);
            return acc;
        }
        assert(decimal(q as nat) == decimal((q / 10) as nat).push(c));
        assert(decimal(q as nat) + old_acc =~= decimal((q / 10) as nat) + acc@);
        q = q / 10;
    }
}

/// `digit_char` gives the ASCII digit of its argument.
pub proof fn lemma_digit_char(k: nat)
    requires
        k < 10,
    ensures
        is_digit(digit_char(k)),
        digit_value(digit_char(k)) == k,
        digit_char(k) != '+',
{
}

/// `z` zero digits.
pub open spec fn zeros(z: nat) -> Seq<char> {
    Seq::new(z, |i: int| '0')
}

/// Leading zeros change neither that a text is digits nor its value.
pub proof fn lemma_leading_zeros(z: nat, d: Seq<char>)
    requires
        all_digits(d),
    ensures
        all_digits(zeros(z) + d),
        decimal_value(zeros(z) + d) == decimal_value(d),
    decreases d.len() + z,
{
    let s = zeros(z) + d;
    assert forall|i: int| 0 <= i < s.len() implies is_digit(#[trigger] s[i]) by {
        if i >= z {
            assert(s[i] == d[i - z]);
        }
    }
    if d.len() > 0 {
        assert(s.drop_last() =~= zeros(z) + d.drop_last());
        lemma_leading_zeros(z, d.drop_last());
    } else if z > 0 {
        assert(s.drop_last() =~= zeros((z - 1) as nat) + d);
        lemma_leading_zeros((z - 1) as nat, d);
        assert(s.last() == '0');
    } else {
        assert(s =~= d);
    }
}

/// A digit's character is the digit character of its value.
pub proof fn lemma_digit_char_of(c: char)
    requires
        is_digit(c),
    ensures
        digit_char(digit_value(c)) == c,
{
}

/// Digits are the decimal text of their value after some leading zeros.
pub proof fn lemma_digits_shape(d: Seq<char>)
    requires
        d.len() > 0,
        all_digits(d),
    ensures
        exists|z: nat| d == #[trigger] zeros(z) + decimal(decimal_value(d)),
    decreases d.len(),
{
    let c = d.last();
    let dl = d.drop_last();
    assert(is_digit(d[d.len() - 1]));
    lemma_digit_char_of(c);
    let v = decimal_value(d);
    let g = digit_value(c);
    assert(g < 10);
    assert(d =~= dl.push(c));
    assert(decimal_value(d) == decimal_value(dl) * 10 + g);
    if dl.len() == 0 {
        assert(decimal_value(dl) == 0);
        assert(v == g);
        assert(decimal(v) == seq![digit_char(v)]);
        assert(d =~= zeros(0) + decimal(v));
    } else {
        assert forall|i: int| 0 <= i < dl.len() implies is_digit(#[trigger] dl[i]) by {
            assert(dl[i] == d[i]);
        }
        lemma_digits_shape(dl);
        let w = decimal_value(dl);
        let z = choose|z: nat| dl == #[trigger] zeros(z) + decimal(decimal_value(dl));
        assert(v == w * 10 + g);
        if w == 0 {
            assert(decimal(0) == seq!['0']);
            assert(v == g);
            assert(decimal(v) == seq![c]);
            assert(dl =~= zeros(z) + seq!['0']);
            assert(d =~= zeros(z + 1) + decimal(v));
        } else {
            assert(v >= 10);
            assert(v / 10 == w && v % 10 == g) by (nonlinear_arith)
                requires
                    v == w * 10 + g,
                    g < 10,
            ;
            assert(decimal(v) == decimal(w).push(digit_char(g)));
            assert(dl == zeros(z) + decimal(w));
            assert(d =~= zeros(z) + decimal(v));
        }
    }
}

/// An optional `+`, `z` zeros and the decimal text of `v`.
pub open spec fn unsigned_text(plus: bool, z: nat, v: nat) -> Seq<char> {
    (if plus {
        seq!['+']
    } else {
        Seq::<char>::empty()
    }) + zeros(z) + decimal(v)
}

/// Reading an unsigned number accepts exactly an optional `+`, any leading
/// zeros and the decimal text of a value within the bound, and gives that
/// value.
pub proof fn lemma_parse_unsigned_shape(s: Seq<char>, max: nat, v: nat)
    ensures
        parse_unsigned(s, max) == Some(v) <==> v <= max && exists|plus: bool, z: nat|
            s == #[trigger] unsigned_text(plus, z, v),
{
    lemma_decimal_roundtrip(v);
    if parse_unsigned(s, max) == Some(v) {
        let d = unsigned_digits(s);
        lemma_digits_shape(d);
        let z = choose|z: nat| d == #[trigger] zeros(z) + decimal(decimal_value(d));
        assert(decimal_value(d) == v);
        if s.len() > 0 && s[0] == '+' {
            assert(s =~= seq!['+'] + d);
            assert(s =~= unsigned_text(true, z, v));
        } else {
            assert(s =~= unsigned_text(false, z, v));
        }
    }
    if v <= max && exists|plus: bool, z: nat|
        s == #[trigger] unsigned_text(plus, z, v) {
        let (plus, z) = choose|plus: bool, z: nat|
            s == #[trigger] unsigned_text(plus, z, v);
        let d = zeros(z) + decimal(v);
        lemma_leading_zeros(z, decimal(v));
        assert(d[0] != '+') by {
            if z > 0 {
                assert(d[0] == '0');
            } else {
                assert(d[0] == decimal(v)[0]);
                assert(is_digit(decimal(v)[0]));
            }
        }
        if plus {
            assert(s[0] == '+');
            assert(s.drop_first() =~= d);
        } else {
            assert(s =~= d);
        }
        assert(unsigned_digits(s) == d);
    }
}

/// The decimal text of `n` is a string of digits, not starting with `+`,
/// that denotes `n`: reading it back gives `n`.
pub proof fn lemma_decimal_roundtrip(n: nat)
    ensures
        decimal(n).len() > 0,
        all_digits(decimal(n)),
        decimal_value(decimal(n)) == n,
        unsigned_digits(decimal(n)) == decimal(n),
        forall|max: nat| n <= max ==> #[trigger] parse_unsigned(decimal(n), max) == Some(n),
    decreases n,
{
    lemma_digit_char(n % 10);
    let d = decimal(n);
    if n < 10 {
        assert(d.drop_last() =~= Seq::<char>::empty());
        assert(d.last() == digit_char(n));
        assert(decimal_value(d) == decimal_value(d.drop_last()) * 10 + digit_value(d.last()));
    } else {
        lemma_decimal_roundtrip(n / 10);
        assert(d.drop_last() =~= decimal(n / 10));
        assert(d.last() == digit_char(n % 10));
        assert(decimal_value(d) == decimal_value(d.drop_last()) * 10 + digit_value(d.last()));
        assert((n / 10) * 10 + n % 10 == n) by (nonlinear_arith);
        assert forall|i: int| 0 <= i < d.len() implies is_digit(#[trigger] d[i]) by {
            if i < d.len() - 1 {
                assert(d[i] == decimal(n / 10)[i]);
            }
        }
    }
}

} // verus!
