use vstd::prelude::*;
use vstd::std_specs::iter::IteratorSpec;

verus! {

broadcast use vstd::string::group_string_axioms;

/// The characters of a string, in order.
pub fn chars_of(s: &str) -> (v: Vec<char>)
    ensures
        v@ == s@,
{
    let mut v: Vec<char> = Vec::new();
    for c in it: s.chars()
        invariant
            it.seq() == s@,
            v@ == it.seq().take(it.index()),
    {
        proof {
            assert(it.seq().take(it.index() + 1) =~= it.seq().take(it.index()).push(c));
        }
        v.push(c);
    }
    proof {
        assert(v@ =~= s@);
    }
    v
}

/// The characters that `char::is_whitespace` accepts: Unicode White_Space.
pub open spec fn is_ws(c: char) -> bool {
    let u = c as u32;
    ||| 0x09 <= u <= 0x0d
    ||| u == 0x20
    ||| u == 0x85
    ||| u == 0xa0
    ||| u == 0x1680
    ||| 0x2000 <= u <= 0x200a
    ||| u == 0x2028
    ||| u == 0x2029
    ||| u == 0x202f
    ||| u == 0x205f
    ||| u == 0x3000
}

/// Whether `c` is white space (as `char::is_whitespace`).
pub fn is_whitespace(c: char) -> (r: bool)
    ensures
        r == is_ws(c),
{
    let u = c as u32;
    (0x09 <= u && u <= 0x0d) || u == 0x20 || u == 0x85 || u == 0xa0 || u == 0x1680 || (0x2000 <= u
        && u <= 0x200a) || u == 0x2028 || u == 0x2029 || u == 0x202f || u == 0x205f || u == 0x3000
}

/// The string without its leading white space.
pub open spec fn trim_left(s: Seq<char>) -> Seq<char>
    decreases s.len(),
{
    if s.len() > 0 && is_ws(s[0]) {
        trim_left(s.drop_first())
    } else {
        s
    }
}

/// The string without its trailing white space.
pub open spec fn trim_right(s: Seq<char>) -> Seq<char>
    decreases s.len(),
{
    if s.len() > 0 && is_ws(s.last()) {
        trim_right(s.drop_last())
    } else {
        s
    }
}

/// The string without white space at either end (as `str::trim`).
pub open spec fn spec_trim(s: Seq<char>) -> Seq<char> {
    trim_right(trim_left(s))
}

/// Bounds `[a, b)` of the trimmed part of `v`.
fn trim_bounds(v: &Vec<char>) -> (res: (usize, usize))
    ensures
        res.0 <= res.1 <= v@.len(),
        v@.subrange(res.0 as int, res.1 as int) == spec_trim(v@),
{
    let n = v.len();
    let mut a: usize = 0;
    proof {
        assert(v@.subrange(0, n as int) =~= v@);
    }
    while a < n && is_whitespace(v[a])
        invariant
            a <= n,
            n == v@.len(),
            trim_left(v@) == trim_left(v@.subrange(a as int, n as int)),
        decreases n - a,
    {
        proof {
            assert(v@.subrange(a as int, n as int).drop_first() =~= v@.subrange(a + 1, n as int));
        }
        a = a + 1;
    }
    let mut b: usize = n;
    proof {
        assert(trim_left(v@) == v@.subrange(a as int, n as int));
    }
    while b > a && is_whitespace(v[b - 1])
        invariant
            a <= b <= n,
            n == v@.len(),
            spec_trim(v@) == trim_right(v@.subrange(a as int, b as int)),
        decreases b - a,
    {
        proof {
            assert(v@.subrange(a as int, b as int).drop_last() =~= v@.subrange(a as int, b - 1));
        }
        b = b - 1;
    }
    (a, b)
}

/// The string without white space at either end.
pub fn trim(s: &str) -> (r: String)
    ensures
        r@ == spec_trim(s@),
{
    let v = chars_of(s);
    let (a, b) = trim_bounds(&v);
    s.substring_char(a, b).to_owned()
}

/// `pat` occurs in `s` at position `i`.
pub open spec fn matches_at(s: Seq<char>, pat: Seq<char>, i: int) -> bool {
    0 <= i && i + pat.len() <= s.len() && s.subrange(i, i + pat.len()) == pat
}

/// The first position at or after `from` where `pat` occurs, or -1.
pub open spec fn find_from(s: Seq<char>, pat: Seq<char>, from: int) -> int
    decreases s.len() - from,
{
    if from < 0 || from + pat.len() > s.len() {
        -1
    } else if matches_at(s, pat, from) {
        from
    } else if from >= s.len() {
        -1
    } else {
        find_from(s, pat, from + 1)
    }
}

proof fn lemma_find_from_props(s: Seq<char>, pat: Seq<char>, from: int)
    requires
        0 <= from,
    ensures
        ({
            let r = find_from(s, pat, from);
            &&& r == -1 || (from <= r && matches_at(s, pat, r))
            &&& forall|j: int| from <= j && (r == -1 || j < r) ==> !matches_at(s, pat, j)
        }),
    decreases s.len() - from,
{
    if pat.len() == 0 && from <= s.len() {
        assert(s.subrange(from, from) =~= pat);
    } else if from + pat.len() <= s.len() && !matches_at(s, pat, from) {
        lemma_find_from_props(s, pat, from + 1);
    }
}

/// Whether `pat` occurs in `v` at position `i`.
fn match_at(v: &Vec<char>, p: &Vec<char>, i: usize) -> (r: bool)
    requires
        i + p@.len() <= v@.len(),
    ensures
        r == matches_at(v@, p@, i as int),
{
    let mut k: usize = 0;
    while k < p.len()
        invariant
            k <= p@.len(),
            i + p.len() <= v.len(),
            forall|j: int| 0 <= j < k ==> v@[i + j] == p@[j],
        decreases p.len() - k,
    {
        if v[i + k] != p[k] {
            proof {
                assert(v@.subrange(i as int, i + p@.len())[k as int] != p@[k as int]);
            }
            return false;
        }
        k = k + 1;
    }
    proof {
        assert(v@.subrange(i as int, i + p@.len()) =~= p@);
    }
    true
}

/// The first position at or after `from` where `p` occurs in `v`.
fn find_in(v: &Vec<char>, p: &Vec<char>, from: usize) -> (r: Option<usize>)
    requires
        from <= v@.len(),
    ensures
        match r {
            Some(i) => i as int == find_from(v@, p@, from as int) && i + p@.len() <= v@.len(),
            None => find_from(v@, p@, from as int) == -1,
        },
{
    if p.len() == 0 {
        proof {
            assert(v@.subrange(from as int, from as int) =~= p@);
        }
        return Some(from);
    }
    let mut i = from;
    while p.len() <= v.len() - i
        invariant
            p@.len() > 0,
            from <= i <= v@.len(),
            find_from(v@, p@, from as int) == find_from(v@, p@, i as int),
        decreases v.len() - i,
    {
        if match_at(v, p, i) {
            return Some(i);
        }
        i = i + 1;
    }
    None
}

/// The second piece of `s` split at `pat` (as `s.split(pat).nth(1)`): the text
/// between the first occurrence of `pat` and the next one, or the end.
pub open spec fn spec_split_second(s: Seq<char>, pat: Seq<char>) -> Option<Seq<char>> {
    let p = find_from(s, pat, 0);
    if p < 0 {
        None
    } else {
        let start = p + pat.len();
        let q = find_from(s, pat, start);
        Some(s.subrange(start, if q < 0 { s.len() as int } else { q }))
    }
}

/// The first piece of `s` split at `pat` (as `s.split(pat).next()`): the text
/// before the first occurrence of `pat`, or all of it.
pub open spec fn spec_split_first(s: Seq<char>, pat: Seq<char>) -> Seq<char> {
    let p = find_from(s, pat, 0);
    if p < 0 {
        s
    } else {
        s.subrange(0, p)
    }
}

/// The text between the first and the second occurrence of `pat` in `s`.
pub fn split_second(s: &str, pat: &str) -> (r: Option<String>)
    requires
        pat@.len() > 0,
    ensures
        match r {
            Some(t) => spec_split_second(s@, pat@) == Some(t@),
            None => spec_split_second(s@, pat@) is None,
        },
{
    let v = chars_of(s);
    let p = chars_of(pat);
    match find_in(&v, &p, 0) {
        None => None,
        Some(i) => {
            proof {
                lemma_find_from_props(v@, p@, 0);
            }
            let vl = v.len();
            assert(i + p.len() <= vl);
            let start = i + p.len();
            let end = match find_in(&v, &p, start) {
                Some(q) => {
                    proof {
                        lemma_find_from_props(v@, p@, start as int);
                    }
                    q
                },
                None => v.len(),
            };
            Some(s.substring_char(start, end).to_owned())
        },
    }
}

/// The text before the first occurrence of `pat` in `s`, or all of `s`.
pub fn split_first(s: &str, pat: &str) -> (r: String)
    requires
        pat@.len() > 0,
    ensures
        r@ == spec_split_first(s@, pat@),
{
    let v = chars_of(s);
    let p = chars_of(pat);
    match find_in(&v, &p, 0) {
        None => s.to_owned(),
        Some(i) => {
            proof {
                lemma_find_from_props(v@, p@, 0);
            }
            s.substring_char(0, i).to_owned()
        },
    }
}

/// `pat` occurs somewhere in `s`.
pub open spec fn spec_contains(s: Seq<char>, pat: Seq<char>) -> bool {
    exists|i: int| matches_at(s, pat, i)
}

/// Whether `pat` occurs in `s` (as `str::contains`).
pub fn contains(s: &str, pat: &str) -> (r: bool)
    ensures
        r == spec_contains(s@, pat@),
{
    let v = chars_of(s);
    let p = chars_of(pat);
    proof {
        lemma_find_from_props(v@, p@, 0);
    }
    match find_in(&v, &p, 0) {
        Some(i) => {
            assert(matches_at(v@, p@, i as int));
            true
        },
        None => {
            assert forall|i: int| !matches_at(s@, pat@, i) by {
                if 0 <= i {
                    assert(!matches_at(v@, p@, i));
                }
            }
            false
        },
    }
}

/// Whether `s` begins with `pat`.
pub fn starts_with(s: &str, pat: &str) -> (r: bool)
    ensures
        r == matches_at(s@, pat@, 0),
{
    let v = chars_of(s);
    let p = chars_of(pat);
    if p.len() > v.len() {
        return false;
    }
    match_at(&v, &p, 0)
}

/// Whether `s` ends with `pat`.
pub fn ends_with(s: &str, pat: &str) -> (r: bool)
    ensures
        r == (pat@.len() <= s@.len() && matches_at(s@, pat@, s@.len() - pat@.len())),
{
    let v = chars_of(s);
    let p = chars_of(pat);
    if p.len() > v.len() {
        return false;
    }
    match_at(&v, &p, v.len() - p.len())
}

/// `s` with every occurrence of `pat` replaced by `with`, scanning from the
/// left without overlaps (as `str::replace`, for a non-empty `pat`).
pub open spec fn spec_replace(s: Seq<char>, pat: Seq<char>, with: Seq<char>) -> Seq<char>
    decreases s.len(),
{
    if pat.len() == 0 || s.len() < pat.len() {
        s
    } else if s.subrange(0, pat.len() as int) == pat {
        with + spec_replace(s.skip(pat.len() as int), pat, with)
    } else {
        seq![s[0]] + spec_replace(s.skip(1), pat, with)
    }
}

/// Replaces every occurrence of `pat` by `with`.
pub fn replace_all(s: &str, pat: &str, with: &str) -> (r: String)
    requires
        pat@.len() > 0,
    ensures
        r@ == spec_replace(s@, pat@, with@),
{
    let v = chars_of(s);
    let p = chars_of(pat);
    let n = v.len();
    let m = p.len();
    let mut out = String::new();
    let mut i: usize = 0;
    proof {
        assert(v@.skip(0) =~= v@);
    }
    while m <= n - i
        invariant
            i <= n,
            n == v@.len(),
            m == p@.len(),
            m > 0,
            v@ == s@,
            out@ + spec_replace(v@.skip(i as int), p@, with@) == spec_replace(v@, p@, with@),
        decreases n - i,
    {
        let ghost rest = v@.skip(i as int);
        if match_at(&v, &p, i) {
            proof {
                assert(rest.subrange(0, m as int) =~= v@.subrange(i as int, i + m));
                assert(rest.skip(m as int) =~= v@.skip(i + m));
                assert(spec_replace(rest, p@, with@) == with@ + spec_replace(v@.skip(i + m), p@, with@));
                assert((out@ + with@) + spec_replace(v@.skip(i + m), p@, with@) =~= out@ + (with@ + spec_replace(v@.skip(i + m), p@, with@)));
            }
            out.append(with);
            i = i + m;
        } else {
            proof {
                assert(rest.subrange(0, m as int) =~= v@.subrange(i as int, i + m));
                assert(rest.skip(1) =~= v@.skip(i + 1));
                assert(rest[0] == v@[i as int]);
                assert(spec_replace(rest, p@, with@) == seq![v@[i as int]] + spec_replace(v@.skip(i + 1), p@, with@));
            }
            let one = s.substring_char(i, i + 1);
            proof {
                assert(one@ =~= seq![v@[i as int]]);
                assert((out@ + one@) + spec_replace(v@.skip(i + 1), p@, with@) =~= out@ + (seq![v@[i as int]] + spec_replace(v@.skip(i + 1), p@, with@)));
            }
            out.append(one);
            i = i + 1;
        }
    }
    let tail = s.substring_char(i, n);
    proof {
        assert(tail@ =~= v@.skip(i as int));
    }
    out.append(tail);
    out
}

/// The text after the last `c` in `s`, or all of `s` (as `s.split(c).last()`).
pub open spec fn spec_after_last(s: Seq<char>, c: char) -> Seq<char>
    decreases s.len(),
{
    if s.len() == 0 {
        s
    } else if s.last() == c {
        Seq::empty()
    } else {
        spec_after_last(s.drop_last(), c).push(s.last())
    }
}

/// The text after the last `c` in `s`, or all of `s`.
pub fn after_last(s: &str, c: char) -> (r: String)
    ensures
        r@ == spec_after_last(s@, c),
{
    let v = chars_of(s);
    let n = v.len();
    let mut j: usize = n;
    proof {
        assert(v@.subrange(0, n as int) =~= v@);
        assert(v@ + v@.subrange(n as int, n as int) =~= v@);
    }
    while j > 0 && v[j - 1] != c
        invariant
            j <= n,
            n == v@.len(),
            spec_after_last(v@, c) == spec_after_last(v@.subrange(0, j as int), c) + v@.subrange(j as int, n as int),
        decreases j,
    {
        proof {
            let t = v@.subrange(0, j as int);
            assert(t.drop_last() =~= v@.subrange(0, j - 1));
            assert(spec_after_last(v@.subrange(0, j - 1), c).push(t.last()) + v@.subrange(j as int, n as int)
                =~= spec_after_last(v@.subrange(0, j - 1), c) + v@.subrange(j - 1, n as int));
        }
        j = j - 1;
    }
    proof {
        if j == 0 {
            assert(spec_after_last(v@.subrange(0, 0), c) =~= Seq::<char>::empty());
        }
        assert(spec_after_last(v@.subrange(0, j as int), c) =~= Seq::<char>::empty());
        assert(spec_after_last(v@, c) =~= v@.subrange(j as int, n as int));
        if n == 0 {
            assert(v@.subrange(0, 0) =~= v@);
        } else {
            assert(v@.subrange(0, n as int) =~= v@);
        }
    }
    s.substring_char(j, n).to_owned()
}

pub open spec fn is_digit(c: char) -> bool {
    '0' <= c <= '9'
}

pub open spec fn digit_value(c: char) -> nat {
    (c as u32 - '0' as u32) as nat
}

/// The number that a string of decimal digits writes.
pub open spec fn digits_value(d: Seq<char>) -> nat
    decreases d.len(),
{
    if d.len() == 0 {
        0
    } else {
        digits_value(d.drop_last()) * 10 + digit_value(d.last())
    }
}

/// The digits of an unsigned number, after an optional leading `+`.
pub open spec fn unsigned_digits(s: Seq<char>) -> Seq<char> {
    if s.len() > 0 && s[0] == '+' {
        s.drop_first()
    } else {
        s
    }
}

/// The number that `s` writes as an unsigned decimal (an optional `+`, then at
/// least one digit and nothing else), whatever its size.
pub open spec fn spec_parse_unsigned(s: Seq<char>) -> Option<nat> {
    let d = unsigned_digits(s);
    if d.len() > 0 && forall|i: int| 0 <= i < d.len() ==> is_digit(#[trigger] d[i]) {
        Some(digits_value(d))
    } else {
        None
    }
}

/// `str::parse::<u64>`: the number when `s` writes one that fits.
pub open spec fn spec_parse_u64(s: Seq<char>) -> Option<u64> {
    match spec_parse_unsigned(s) {
        Some(v) => if v <= u64::MAX {
            Some(v as u64)
        } else {
            None
        },
        None => None,
    }
}

/// `str::parse::<u32>`: the number when `s` writes one that fits.
pub open spec fn spec_parse_u32(s: Seq<char>) -> Option<u32> {
    match spec_parse_unsigned(s) {
        Some(v) => if v <= u32::MAX {
            Some(v as u32)
        } else {
            None
        },
        None => None,
    }
}

proof fn lemma_digits_prefix_grows(d: Seq<char>, i: int)
    requires
        0 <= i <= d.len(),
    ensures
        digits_value(d.take(i)) <= digits_value(d),
    decreases d.len() - i,
{
    if i < d.len() {
        lemma_digits_prefix_grows(d, i + 1);
        assert(d.take(i + 1).drop_last() =~= d.take(i));
    } else {
        assert(d.take(i) =~= d);
    }
}

/// Parses an unsigned decimal that fits in a `u64`.
pub fn parse_u64(s: &str) -> (r: Option<u64>)
    ensures
        r == spec_parse_u64(s@),
{
    let v = chars_of(s);
    let n = v.len();
    let start: usize = if n > 0 && v[0] == '+' { 1 } else { 0 };
    let ghost d = unsigned_digits(s@);
    proof {
        assert(d =~= v@.subrange(start as int, n as int));
    }
    if start == n {
        assert(d.len() == 0);
        return None;
    }
    let mut k: usize = start;
    while k < n
        invariant
            start <= k <= n,
            n == v@.len(),
            d == v@.subrange(start as int, n as int),
            d == unsigned_digits(s@),
            forall|i: int| 0 <= i < k - start ==> is_digit(#[trigger] d[i]),
        decreases n - k,
    {
        if !('0' <= v[k] && v[k] <= '9') {
            assert(d[k - start] == v@[k as int]);
            assert(!is_digit(d[k - start]));
            assert(spec_parse_unsigned(s@) is None);
            return None;
        }
        k = k + 1;
    }
    let mut acc: u128 = 0;
    let mut i: usize = start;
    proof {
        assert(d.take(0) =~= Seq::<char>::empty());
    }
    while i < n
        invariant
            start <= i <= n,
            n == v@.len(),
            d == v@.subrange(start as int, n as int),
            d == unsigned_digits(s@),
            forall|q: int| 0 <= q < d.len() ==> is_digit(#[trigger] d[q]),
            acc == digits_value(d.take(i - start)),
            acc <= u64::MAX,
        decreases n - i,
    {
        proof {
            assert(d[i - start] == v@[i as int]);
            assert(is_digit(d[i - start]));
        }
        let dig = (v[i] as u32 - '0' as u32) as u128;
        let next = acc * 10 + dig;
        proof {
            let t = d.take(i - start + 1);
            assert(t.drop_last() =~= d.take(i - start));
            assert(t.last() == v@[i as int]);
            assert(digits_value(t) == next);
        }
        if next > 0xffff_ffff_ffff_ffffu128 {
            proof {
                lemma_digits_prefix_grows(d, i - start + 1);
                assert(spec_parse_unsigned(s@) == Some(digits_value(d)));
                assert(digits_value(d) > u64::MAX);
            }
            return None;
        }
        acc = next;
        i = i + 1;
    }
    proof {
        assert(d.take(i - start) =~= d);
    }
    Some(acc as u64)
}

/// Parses an unsigned decimal that fits in a `u32`.
pub fn parse_u32(s: &str) -> (r: Option<u32>)
    ensures
        r == spec_parse_u32(s@),
{
    match parse_u64(s) {
        Some(x) => if x <= 0xffff_ffffu64 {
            Some(x as u32)
        } else {
            None
        },
        None => {
            proof {
                if spec_parse_unsigned(s@) is Some {
                    assert(spec_parse_unsigned(s@).unwrap() > u64::MAX);
                }
            }
            None
        },
    }
}

/// Bounds `[start, end)` of the white-space separated words of `s`, in order
/// (the pieces that `str::split_whitespace` yields).
pub open spec fn word_bounds(s: Seq<char>) -> Seq<(int, int)>
    decreases s.len(),
{
    if s.len() == 0 {
        Seq::empty()
    } else {
        let t = word_bounds(s.drop_last());
        let i = s.len() - 1;
        if is_ws(s[i]) {
            t
        } else if i > 0 && !is_ws(s[i - 1]) {
            t.update(t.len() - 1, (t.last().0, i + 1))
        } else {
            t.push((i, i + 1))
        }
    }
}

/// The words of `s` (as `s.split_whitespace()`).
pub open spec fn spec_words(s: Seq<char>) -> Seq<Seq<char>> {
    word_bounds(s).map_values(|b: (int, int)| s.subrange(b.0, b.1))
}

proof fn lemma_word_bounds_valid(s: Seq<char>)
    ensures
        forall|k: int| 0 <= k < word_bounds(s).len() ==> 0 <= (#[trigger] word_bounds(s)[k]).0 < word_bounds(s)[k].1 <= s.len(),
        s.len() > 0 && !is_ws(s.last()) ==> word_bounds(s).len() > 0 && word_bounds(s).last().1 == s.len(),
    decreases s.len(),
{
    if s.len() > 0 {
        let d = s.drop_last();
        lemma_word_bounds_valid(d);
        let t = word_bounds(d);
        let w = word_bounds(s);
        let i = s.len() - 1;
        if i > 0 {
            assert(d.last() == s[i - 1]);
        }
        assert forall|k: int| 0 <= k < w.len() implies 0 <= (#[trigger] w[k]).0 < w[k].1 <= s.len() by {
            if k < t.len() {
                assert(t[k].0 < t[k].1);
            }
        }
    }
}

/// The white-space separated words of `s`, in order.
pub fn split_whitespace(s: &str) -> (r: Vec<String>)
    ensures
        r@.map_values(|w: String| w@) == spec_words(s@),
{
    let v = chars_of(s);
    let n = v.len();
    let mut starts: Vec<usize> = Vec::new();
    let mut ends: Vec<usize> = Vec::new();
    let mut i: usize = 0;
    proof {
        assert(v@.take(0) =~= Seq::<char>::empty());
    }
    while i < n
        invariant
            i <= n,
            n == v@.len(),
            starts@.len() == ends@.len(),
            starts@.len() == word_bounds(v@.take(i as int)).len(),
            forall|k: int| 0 <= k < starts@.len() ==> (#[trigger] word_bounds(v@.take(i as int))[k]) == (starts@[k] as int, ends@[k] as int),
            i > 0 && !is_ws(v@[i - 1]) ==> starts@.len() > 0 && ends@[ends@.len() - 1] == i,
        decreases n - i,
    {
        let ghost t = word_bounds(v@.take(i as int));
        proof {
            assert(v@.take(i + 1).drop_last() =~= v@.take(i as int));
            assert(v@.take(i + 1)[i as int] == v@[i as int]);
            if i > 0 {
                assert(v@.take(i + 1)[i - 1] == v@[i - 1]);
            }
        }
        if is_whitespace(v[i]) {
        } else if i > 0 && !is_whitespace(v[i - 1]) {
            let last = ends.len() - 1;
            ends.set(last, i + 1);
            proof {
                let nt = word_bounds(v@.take(i + 1));
                assert(nt == t.update(t.len() - 1, (t.last().0, i + 1)));
                assert forall|k: int| 0 <= k < starts@.len() implies (#[trigger] nt[k]) == (starts@[k] as int, ends@[k] as int) by {
                    if k < last {
                        assert(nt[k] == t[k]);
                    }
                }
            }
        } else {
            starts.push(i);
            ends.push(i + 1);
            proof {
                let nt = word_bounds(v@.take(i + 1));
                assert(nt == t.push((i as int, i + 1)));
                assert forall|k: int| 0 <= k < starts@.len() implies (#[trigger] nt[k]) == (starts@[k] as int, ends@[k] as int) by {
                    if k < t.len() {
                        assert(nt[k] == t[k]);
                    }
                }
            }
        }
        i = i + 1;
    }
    proof {
        assert(v@.take(n as int) =~= v@);
        lemma_word_bounds_valid(v@);
        assert forall|q: int| 0 <= q < starts@.len() implies #[trigger] starts@[q] < ends@[q] <= n by {
            assert(word_bounds(v@)[q] == (starts@[q] as int, ends@[q] as int));
        }
    }
    let mut words: Vec<String> = Vec::new();
    let mut k: usize = 0;
    while k < starts.len()
        invariant
            k <= starts@.len(),
            n == v@.len(),
            v@ == s@,
            starts@.len() == ends@.len(),
            starts@.len() == word_bounds(v@).len(),
            forall|q: int| 0 <= q < starts@.len() ==> (#[trigger] word_bounds(v@)[q]) == (starts@[q] as int, ends@[q] as int),
            forall|q: int| 0 <= q < starts@.len() ==> #[trigger] starts@[q] < ends@[q] <= n,
            words@.len() == k,
            forall|q: int| 0 <= q < k ==> (#[trigger] words@[q])@ == spec_words(s@)[q],
        decreases starts.len() - k,
    {
        let w = s.substring_char(starts[k], ends[k]).to_owned();
        words.push(w);
        k = k + 1;
    }
    proof {
        assert(words@.map_values(|w: String| w@) =~= spec_words(s@));
    }
    words
}

/// The character of a decimal digit.
pub open spec fn digit_char(d: nat) -> char {
    if d == 0 { '0' }
    else if d == 1 { '1' }
    else if d == 2 { '2' }
    else if d == 3 { '3' }
    else if d == 4 { '4' }
    else if d == 5 { '5' }
    else if d == 6 { '6' }
    else if d == 7 { '7' }
    else if d == 8 { '8' }
    else { '9' }
}

/// The decimal writing of `n` without leading zeros (as `u32`'s `Display`).
pub open spec fn spec_decimal(n: nat) -> Seq<char>
    decreases n,
{
    if n < 10 {
        seq![digit_char(n)]
    } else {
        spec_decimal(n / 10).push(digit_char(n % 10))
    }
}

fn digit_str(d: u32) -> (r: &'static str)
    requires
        d < 10,
    ensures
        r@ == seq![digit_char(d as nat)],
{
    proof {
        reveal_strlit("0");
        reveal_strlit("1");
        reveal_strlit("2");
        reveal_strlit("3");
        reveal_strlit("4");
        reveal_strlit("5");
        reveal_strlit("6");
        reveal_strlit("7");
        reveal_strlit("8");
        reveal_strlit("9");
    }
    let r = if d == 0 { "0" } else if d == 1 { "1" } else if d == 2 { "2" } else if d == 3 { "3" }
        else if d == 4 { "4" } else if d == 5 { "5" } else if d == 6 { "6" } else if d == 7 { "7" }
        else if d == 8 { "8" } else { "9" };
    proof {
        assert(r@ =~= seq![digit_char(d as nat)]);
    }
    r
}

/// Writes `n` in decimal.
pub fn decimal(n: u32) -> (r: String)
    ensures
        r@ == spec_decimal(n as nat),
    decreases n,
{
    if n < 10 {
        digit_str(n).to_owned()
    } else {
        let mut r = decimal(n / 10);
        r.append(digit_str(n % 10));
        r
    }
}

/// A name for what `str::to_lowercase` returns: the Unicode lowercase mapping
/// of the string.
pub uninterp spec fn lowercase(s: Seq<char>) -> Seq<char>;

/// Lower-cases a string with std's `str::to_lowercase`; the contract only names
/// the result (the Unicode mapping is not written out here).
#[verifier::external_body]
pub(crate) fn to_lowercase(s: &str) -> (r: String)
    ensures
        r@ == lowercase(s@),
{
    s.to_lowercase()
}

/// A name for what `String::from_utf8_lossy` makes of some bytes: their UTF-8
/// decoding, each invalid sequence replaced by U+FFFD.
pub uninterp spec fn utf8_lossy(b: Seq<u8>) -> Seq<char>;

/// Decodes bytes as UTF-8 with std's `String::from_utf8_lossy`; the contract
/// only names the result (the decoding is not written out here).
#[verifier::external_body]
pub(crate) fn text_from_bytes(b: &[u8]) -> (r: String)
    ensures
        r@ == utf8_lossy(b@),
{
    String::from_utf8_lossy(b).into_owned()
}

/// Bounds of the pieces of `s` that each end with a newline, and of a last
/// piece without one when text follows the last newline (as `split_inclusive('\n')`).
pub open spec fn line_bounds(s: Seq<char>) -> Seq<(int, int)>
    decreases s.len(),
{
    if s.len() == 0 {
        Seq::empty()
    } else {
        let t = line_bounds(s.drop_last());
        let i = s.len() - 1;
        if i > 0 && s[i - 1] != '\n' {
            t.update(t.len() - 1, (t.last().0, i + 1))
        } else {
            t.push((i, i + 1))
        }
    }
}

/// A piece without its newline, and without a carriage return before it.
pub open spec fn strip_line_end(p: Seq<char>) -> Seq<char> {
    if p.len() > 0 && p.last() == '\n' {
        let q = p.drop_last();
        if q.len() > 0 && q.last() == '\r' {
            q.drop_last()
        } else {
            q
        }
    } else {
        p
    }
}

/// The lines of `s` (as `str::lines`).
pub open spec fn spec_lines(s: Seq<char>) -> Seq<Seq<char>> {
    line_bounds(s).map_values(|b: (int, int)| strip_line_end(s.subrange(b.0, b.1)))
}

/// The lines of a text.
pub fn lines(s: &str) -> (r: Vec<String>)
    ensures
        r@.map_values(|w: String| w@) == spec_lines(s@),
{
    let v = chars_of(s);
    let n = v.len();
    let mut starts: Vec<usize> = Vec::new();
    let mut ends: Vec<usize> = Vec::new();
    let mut i: usize = 0;
    proof {
        assert(v@.take(0) =~= Seq::<char>::empty());
    }
    while i < n
        invariant
            i <= n,
            n == v@.len(),
            starts@.len() == ends@.len(),
            starts@.len() == line_bounds(v@.take(i as int)).len(),
            forall|k: int| 0 <= k < starts@.len() ==> (#[trigger] line_bounds(v@.take(i as int))[k]) == (starts@[k] as int, ends@[k] as int),
            forall|k: int| 0 <= k < starts@.len() ==> #[trigger] starts@[k] < ends@[k] <= i as int,
            i > 0 ==> starts@.len() > 0 && ends@[ends@.len() - 1] == i,
        decreases n - i,
    {
        let ghost t = line_bounds(v@.take(i as int));
        proof {
            assert(v@.take(i + 1).drop_last() =~= v@.take(i as int));
            if i > 0 {
                assert(v@.take(i + 1)[i - 1] == v@[i - 1]);
            }
        }
        if i > 0 && v[i - 1] != '\n' {
            let last = ends.len() - 1;
            let ghost old_ends = ends@;
            proof {
                assert(starts@[last as int] < old_ends[last as int]);
            }
            ends.set(last, i + 1);
            proof {
                assert forall|k: int| 0 <= k < starts@.len() implies #[trigger] starts@[k] < ends@[k] <= i + 1 by {
                    if k != last {
                        assert(ends@[k] == old_ends[k]);
                    }
                }
                let nt = line_bounds(v@.take(i + 1));
                assert(nt == t.update(t.len() - 1, (t.last().0, i + 1)));
                assert forall|k: int| 0 <= k < starts@.len() implies (#[trigger] nt[k]) == (starts@[k] as int, ends@[k] as int) by {
                    if k < last {
                        assert(nt[k] == t[k]);
                    }
                }
            }
        } else {
            let ghost old_starts = starts@;
            let ghost old_ends = ends@;
            starts.push(i);
            ends.push(i + 1);
            proof {
                assert forall|k: int| 0 <= k < starts@.len() implies #[trigger] starts@[k] < ends@[k] <= i + 1 by {
                    if k < old_starts.len() {
                        assert(starts@[k] == old_starts[k] && ends@[k] == old_ends[k]);
                    }
                }
                let nt = line_bounds(v@.take(i + 1));
                assert(nt == t.push((i as int, i + 1)));
                assert forall|k: int| 0 <= k < starts@.len() implies (#[trigger] nt[k]) == (starts@[k] as int, ends@[k] as int) by {
                    if k < t.len() {
                        assert(nt[k] == t[k]);
                    }
                }
            }
        }
        let ghost prev_i = i;
        i = i + 1;
        proof {
            assert(forall|k: int| 0 <= k < starts@.len() ==> #[trigger] starts@[k] < ends@[k] <= prev_i + 1);
        }
    }
    proof {
        assert(v@.take(n as int) =~= v@);
    }
    let mut out: Vec<String> = Vec::new();
    let mut k: usize = 0;
    while k < starts.len()
        invariant
            k <= starts@.len(),
            n == v@.len(),
            v@ == s@,
            starts@.len() == ends@.len(),
            starts@.len() == line_bounds(v@).len(),
            forall|q: int| 0 <= q < starts@.len() ==> (#[trigger] line_bounds(v@)[q]) == (starts@[q] as int, ends@[q] as int),
            forall|q: int| 0 <= q < starts@.len() ==> #[trigger] starts@[q] < ends@[q] <= n,
            out@.len() == k,
            forall|q: int| 0 <= q < k ==> (#[trigger] out@[q])@ == spec_lines(s@)[q],
        decreases starts.len() - k,
    {
        let a = starts[k];
        let mut b = ends[k];
        let ghost piece = v@.subrange(a as int, b as int);
        if v[b - 1] == '\n' {
            b = b - 1;
            if b > a && v[b - 1] == '\r' {
                b = b - 1;
            }
        }
        proof {
            assert(piece.last() == v@[ends@[k as int] - 1]);
            if piece.last() == '\n' {
                let q = piece.drop_last();
                assert(q =~= v@.subrange(a as int, ends@[k as int] - 1));
                if q.len() > 0 {
                    assert(q.last() == v@[ends@[k as int] - 2]);
                    if q.last() == '\r' {
                        assert(q.drop_last() =~= v@.subrange(a as int, b as int));
                    }
                }
            }
            assert(strip_line_end(piece) =~= v@.subrange(a as int, b as int));
        }
        let w = s.substring_char(a, b).to_owned();
        out.push(w);
        k = k + 1;
    }
    proof {
        assert(out@.map_values(|w: String| w@) =~= spec_lines(s@));
    }
    out
}

} // verus!

verus! {

proof fn lemma_digit_char(k: nat)
    requires
        k < 10,
    ensures
        digit_value(digit_char(k)) == k,
        is_digit(digit_char(k)),
{
}

/// The decimal writing of a number is a non-empty string of digits that
/// reads back as the number.
pub proof fn lemma_decimal_reads_back(n: nat)
    ensures
        spec_decimal(n).len() > 0,
        forall|i: int| 0 <= i < spec_decimal(n).len() ==> is_digit(#[trigger] spec_decimal(n)[i]),
        digits_value(spec_decimal(n)) == n,
    decreases n,
{
    if n < 10 {
        lemma_digit_char(n);
        let d = spec_decimal(n);
        assert(d.drop_last() =~= Seq::<char>::empty());
        assert(digits_value(Seq::<char>::empty()) == 0);
    } else {
        lemma_decimal_reads_back(n / 10);
        lemma_digit_char(n % 10);
        let d = spec_decimal(n);
        assert(d.drop_last() =~= spec_decimal(n / 10));
        assert(d.last() == digit_char(n % 10));
        assert(n == (n / 10) * 10 + n % 10);
        assert forall|i: int| 0 <= i < d.len() implies is_digit(#[trigger] d[i]) by {
            if i < d.len() - 1 {
                assert(d[i] == spec_decimal(n / 10)[i]);
            }
        }
    }
}

/// Text that holds no `c` is kept whole after the last `c`.
pub proof fn lemma_after_last_append(s: Seq<char>, t: Seq<char>, c: char)
    requires
        forall|i: int| 0 <= i < t.len() ==> t[i] != c,
    ensures
        spec_after_last(s + t, c) == spec_after_last(s, c) + t,
    decreases t.len(),
{
    if t.len() == 0 {
        assert(s + t =~= s);
        assert(spec_after_last(s, c) + t =~= spec_after_last(s, c));
    } else {
        let tl = t.drop_last();
        lemma_after_last_append(s, tl, c);
        assert((s + t).drop_last() =~= s + tl);
        assert((s + t).last() == t.last());
        assert(spec_after_last(s, c) + t =~= (spec_after_last(s, c) + tl).push(t.last()));
    }
}

/// An unsigned decimal written without sign reads back as its value.
pub proof fn lemma_parse_decimal(n: u32)
    ensures
        spec_parse_u32(spec_decimal(n as nat)) == Some(n),
        spec_trim(spec_decimal(n as nat)) == spec_decimal(n as nat),
{
    lemma_decimal_reads_back(n as nat);
    let d = spec_decimal(n as nat);
    assert(is_digit(d[0]));
    assert(unsigned_digits(d) == d);
    assert(is_digit(d.last()));
    assert(!is_ws(d[0]) && !is_ws(d.last()));
    assert(trim_left(d) == d);
    assert(trim_right(d) == d);
}

/// Leading white space ends at a position `a`: everything before it is white
/// space, the character at it (if any) is not, and what is left starts there.
proof fn lemma_trim_left_bound(s: Seq<char>) -> (a: int)
    ensures
        0 <= a <= s.len(),
        trim_left(s) == s.subrange(a, s.len() as int),
        forall|i: int| 0 <= i < a ==> is_ws(#[trigger] s[i]),
        a < s.len() ==> !is_ws(s[a]),
    decreases s.len(),
{
    if s.len() > 0 && is_ws(s[0]) {
        let a1 = lemma_trim_left_bound(s.drop_first());
        assert(s.drop_first().subrange(a1, s.len() - 1) =~= s.subrange(a1 + 1, s.len() as int));
        assert forall|i: int| 0 <= i < a1 + 1 implies is_ws(#[trigger] s[i]) by {
            if i > 0 {
                assert(s[i] == s.drop_first()[i - 1]);
            }
        }
        a1 + 1
    } else {
        assert(s.subrange(0, s.len() as int) =~= s);
        0
    }
}

/// Trailing white space starts at a position `b`.
proof fn lemma_trim_right_bound(s: Seq<char>) -> (b: int)
    ensures
        0 <= b <= s.len(),
        trim_right(s) == s.subrange(0, b),
        forall|i: int| b <= i < s.len() ==> is_ws(#[trigger] s[i]),
        b > 0 ==> !is_ws(s[b - 1]),
    decreases s.len(),
{
    if s.len() > 0 && is_ws(s.last()) {
        let b1 = lemma_trim_right_bound(s.drop_last());
        assert(s.drop_last().subrange(0, b1) =~= s.subrange(0, b1));
        assert forall|i: int| b1 <= i < s.len() implies is_ws(#[trigger] s[i]) by {
            if i < s.len() - 1 {
                assert(s[i] == s.drop_last()[i]);
            }
        }
        b1
    } else {
        assert(s.subrange(0, s.len() as int) =~= s);
        s.len() as int
    }
}

/// Trimming cuts white space, and only white space, from both ends: the result
/// is a contiguous piece of the text, everything cut is white space, and the
/// result, when not empty, neither starts nor ends with white space.
pub proof fn law_trim(s: Seq<char>)
    ensures
        exists|a: int, b: int| {
            &&& 0 <= a <= b <= s.len()
            &&& spec_trim(s) == s.subrange(a, b)
            &&& forall|i: int| 0 <= i < a ==> is_ws(#[trigger] s[i])
            &&& forall|i: int| b <= i < s.len() ==> is_ws(#[trigger] s[i])
            &&& a < b ==> !is_ws(s[a]) && !is_ws(s[b - 1])
        },
{
    let a = lemma_trim_left_bound(s);
    let l = trim_left(s);
    let b = lemma_trim_right_bound(l);
    assert(spec_trim(s) =~= s.subrange(a, a + b));
    assert forall|i: int| a + b <= i < s.len() implies is_ws(#[trigger] s[i]) by {
        assert(s[i] == l[i - a]);
    }
    if a < a + b {
        assert(s[a] == l[0]);
        assert(s[a + b - 1] == l[b - 1]);
    }
    assert(0 <= a <= a + b <= s.len());
}

/// The first piece of a split is the text before the first occurrence of the
/// pattern, or the whole text when the pattern does not occur.
pub proof fn law_split_first(s: Seq<char>, pat: Seq<char>)
    ensures
        (forall|i: int| !matches_at(s, pat, i)) ==> spec_split_first(s, pat) == s,
        forall|i: int| matches_at(s, pat, i) && (forall|j: int| 0 <= j < i ==> !matches_at(s, pat, j))
            ==> spec_split_first(s, pat) == s.subrange(0, i),
{
    lemma_find_from_props(s, pat, 0);
    let r = find_from(s, pat, 0);
    assert forall|i: int| matches_at(s, pat, i) && (forall|j: int| 0 <= j < i ==> !matches_at(s, pat, j))
        implies spec_split_first(s, pat) == s.subrange(0, i) by {
        if r != i {
            if r == -1 || i < r {
                assert(!matches_at(s, pat, i));
            } else {
                assert(!matches_at(s, pat, r));
            }
        }
    }
    if forall|i: int| !matches_at(s, pat, i) {
        if r != -1 {
            assert(matches_at(s, pat, r));
        }
    }
}

/// The second piece of a split is the text from just after the first
/// occurrence of the pattern up to the next occurrence, or to the end when
/// there is none; without any occurrence there is no second piece.
pub proof fn law_split_second(s: Seq<char>, pat: Seq<char>)
    ensures
        spec_split_second(s, pat) is None <==> forall|i: int| !matches_at(s, pat, i),
        forall|i: int, q: int| matches_at(s, pat, i) && (forall|j: int| 0 <= j < i ==> !matches_at(s, pat, j))
            && i + pat.len() <= q && matches_at(s, pat, q)
            && (forall|k: int| i + pat.len() <= k < q ==> !matches_at(s, pat, k))
            ==> spec_split_second(s, pat) == Some(s.subrange(i + pat.len(), q)),
        forall|i: int| matches_at(s, pat, i) && (forall|j: int| 0 <= j < i ==> !matches_at(s, pat, j))
            && (forall|k: int| i + pat.len() <= k ==> !matches_at(s, pat, k))
            ==> spec_split_second(s, pat) == Some(s.subrange(i + pat.len(), s.len() as int)),
{
    lemma_find_from_props(s, pat, 0);
    let r = find_from(s, pat, 0);
    if r >= 0 {
        lemma_find_from_props(s, pat, r + pat.len());
    }
    assert forall|i: int| matches_at(s, pat, i) && (forall|j: int| 0 <= j < i ==> !matches_at(s, pat, j))
        implies r == i by {
        if r == -1 || i < r {
            assert(!matches_at(s, pat, i));
        } else if r < i {
            assert(!matches_at(s, pat, r));
        }
    }
    if forall|i: int| !matches_at(s, pat, i) {
        if r != -1 {
            assert(matches_at(s, pat, r));
        }
    }
    if r >= 0 {
        let st = r + pat.len();
        let q0 = find_from(s, pat, st);
        assert forall|i: int, q: int| matches_at(s, pat, i) && (forall|j: int| 0 <= j < i ==> !matches_at(s, pat, j))
            && i + pat.len() <= q && matches_at(s, pat, q)
            && (forall|k: int| i + pat.len() <= k < q ==> !matches_at(s, pat, k))
            implies spec_split_second(s, pat) == Some(s.subrange(i + pat.len(), q)) by {
            assert(r == i);
            if q0 == -1 || q < q0 {
                assert(!matches_at(s, pat, q));
            } else if q0 < q {
                assert(!matches_at(s, pat, q0));
            }
        }
        assert forall|i: int| matches_at(s, pat, i) && (forall|j: int| 0 <= j < i ==> !matches_at(s, pat, j))
            && (forall|k: int| i + pat.len() <= k ==> !matches_at(s, pat, k))
            implies spec_split_second(s, pat) == Some(s.subrange(i + pat.len(), s.len() as int)) by {
            assert(r == i);
            if q0 != -1 {
                assert(matches_at(s, pat, q0));
            }
        }
    }
}

/// The words of a text are its maximal runs of characters that are not white
/// space, in order: each is such a run, bounded by white space or the ends of
/// the text, they follow each other left to right without overlapping, and
/// every character that is not white space lies in one of them.
pub proof fn law_words(s: Seq<char>)
    ensures
        forall|k: int| 0 <= k < word_bounds(s).len() ==> {
            let (a, b) = #[trigger] word_bounds(s)[k];
            &&& 0 <= a < b <= s.len()
            &&& forall|i: int| a <= i < b ==> !is_ws(#[trigger] s[i])
            &&& (a == 0 || is_ws(s[a - 1]))
            &&& (b == s.len() || is_ws(s[b]))
        },
        forall|k: int, j: int| 0 <= k < j < word_bounds(s).len() ==> (#[trigger] word_bounds(s)[k]).1 < (#[trigger] word_bounds(s)[j]).0,
        forall|i: int| 0 <= i < s.len() && !is_ws(#[trigger] s[i]) ==> exists|k: int| 0 <= k < word_bounds(s).len()
            && (#[trigger] word_bounds(s)[k]).0 <= i < word_bounds(s)[k].1,
        forall|k: int| 0 <= k < word_bounds(s).len() ==> #[trigger] spec_words(s)[k] == s.subrange(word_bounds(s)[k].0, word_bounds(s)[k].1),
        spec_words(s).len() == word_bounds(s).len(),
    decreases s.len(),
{
    if s.len() > 0 {
        let d = s.drop_last();
        law_words(d);
        lemma_word_bounds_valid(d);
        let t = word_bounds(d);
        let w = word_bounds(s);
        let n = s.len() - 1;
        assert forall|i: int| 0 <= i < n implies #[trigger] d[i] == s[i] by {}
        if is_ws(s[n]) {
            assert(w == t);
            assert forall|k: int| 0 <= k < w.len() implies {
                let (a, b) = #[trigger] w[k];
                &&& 0 <= a < b <= s.len()
                &&& forall|i: int| a <= i < b ==> !is_ws(#[trigger] s[i])
                &&& (a == 0 || is_ws(s[a - 1]))
                &&& (b == s.len() || is_ws(s[b]))
            } by {
                let (a, b) = t[k];
                assert forall|i: int| a <= i < b implies !is_ws(#[trigger] s[i]) by {
                    assert(!is_ws(d[i]));
                }
                if a > 0 {
                    assert(d[a - 1] == s[a - 1]);
                }
                if b < d.len() {
                    assert(d[b] == s[b]);
                }
            }
            assert forall|i: int| 0 <= i < s.len() && !is_ws(#[trigger] s[i]) implies exists|k: int| 0 <= k < w.len()
                && (#[trigger] w[k]).0 <= i < w[k].1 by {
                assert(i < n);
                assert(!is_ws(d[i]));
            }
        } else if n > 0 && !is_ws(s[n - 1]) {
            assert(d.last() == s[n - 1]);
            let last = t.len() - 1;
            assert(t[last].1 == n);
            assert forall|k: int| 0 <= k < w.len() implies {
                let (a, b) = #[trigger] w[k];
                &&& 0 <= a < b <= s.len()
                &&& forall|i: int| a <= i < b ==> !is_ws(#[trigger] s[i])
                &&& (a == 0 || is_ws(s[a - 1]))
                &&& (b == s.len() || is_ws(s[b]))
            } by {
                let (a, b) = t[k];
                assert forall|i: int| a <= i < w[k].1 implies !is_ws(#[trigger] s[i]) by {
                    if i < n {
                        assert(!is_ws(d[i]));
                    }
                }
                if a > 0 {
                    assert(d[a - 1] == s[a - 1]);
                }
                if k < last {
                    assert(t[k].1 < t[last].0);
                    assert(d[b] == s[b]);
                }
            }
            assert forall|k: int, j: int| 0 <= k < j < w.len() implies (#[trigger] w[k]).1 < (#[trigger] w[j]).0 by {
                assert(t[k].1 < t[j].0);
            }
            assert forall|i: int| 0 <= i < s.len() && !is_ws(#[trigger] s[i]) implies exists|k: int| 0 <= k < w.len()
                && (#[trigger] w[k]).0 <= i < w[k].1 by {
                if i < n {
                    assert(!is_ws(d[i]));
                    let k = choose|k: int| 0 <= k < t.len() && (#[trigger] t[k]).0 <= i < t[k].1;
                    assert(w[k].0 <= i < w[k].1);
                } else {
                    assert(w[last].0 <= i < w[last].1);
                }
            }
        } else {
            assert(w == t.push((n, n + 1)));
            if n > 0 {
                assert(d.last() == s[n - 1]);
            }
            assert forall|k: int| 0 <= k < t.len() implies (#[trigger] t[k]).1 < n by {
                if t[k].1 == n {
                    assert(!is_ws(s[n - 1]));
                }
            }
            assert forall|k: int| 0 <= k < w.len() implies {
                let (a, b) = #[trigger] w[k];
                &&& 0 <= a < b <= s.len()
                &&& forall|i: int| a <= i < b ==> !is_ws(#[trigger] s[i])
                &&& (a == 0 || is_ws(s[a - 1]))
                &&& (b == s.len() || is_ws(s[b]))
            } by {
                if k < t.len() {
                    let (a, b) = t[k];
                    assert(w[k] == t[k]);
                    assert forall|i: int| a <= i < b implies !is_ws(#[trigger] s[i]) by {
                        assert(!is_ws(d[i]));
                    }
                    if a > 0 {
                        assert(d[a - 1] == s[a - 1]);
                    }
                    assert(d[b] == s[b]);
                }
            }
            assert forall|k: int, j: int| 0 <= k < j < w.len() implies (#[trigger] w[k]).1 < (#[trigger] w[j]).0 by {
                if j < t.len() {
                    assert(t[k].1 < t[j].0);
                } else {
                    assert(w[k] == t[k]);
                }
            }
            assert forall|i: int| 0 <= i < s.len() && !is_ws(#[trigger] s[i]) implies exists|k: int| 0 <= k < w.len()
                && (#[trigger] w[k]).0 <= i < w[k].1 by {
                if i < n {
                    assert(!is_ws(d[i]));
                    let k = choose|k: int| 0 <= k < t.len() && (#[trigger] t[k]).0 <= i < t[k].1;
                    assert(w[k] == t[k]);
                } else {
                    assert(w[t.len() as int] == (n, n + 1));
                }
            }
        }
    }
}

} // verus!
