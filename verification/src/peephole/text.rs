//! Text primitives for assembly lines.
//!
//! Lines are modelled as sequences of characters. Every function states its
//! result over that model.

use vstd::prelude::*;

verus! {

// ── Model ───────────────────────────────────────────────────────────────────

/// Does `p` occur in `s` at position `i`?
pub open spec fn occurs_at(s: Seq<char>, p: Seq<char>, i: int) -> bool {
    &&& 0 <= i
    &&& i + p.len() <= s.len()
    &&& s.subrange(i, i + p.len()) == p
}

/// Position of the first occurrence of `p` in `s` at or after `i`.
pub open spec fn first_at(s: Seq<char>, p: Seq<char>, i: int) -> Option<int>
    decreases s.len() + 1 - i,
{
    if i < 0 || i + p.len() > s.len() {
        None
    } else if occurs_at(s, p, i) {
        Some(i)
    } else {
        first_at(s, p, i + 1)
    }
}

/// Position of the last occurrence of `p` in `s` at or before `i`.
pub open spec fn last_at(s: Seq<char>, p: Seq<char>, i: int) -> Option<int>
    decreases i + 1,
{
    if i < 0 {
        None
    } else if occurs_at(s, p, i) {
        Some(i)
    } else {
        last_at(s, p, i - 1)
    }
}

/// Does `p` occur anywhere in `s`?
pub open spec fn has(s: Seq<char>, p: Seq<char>) -> bool {
    exists|i: int| occurs_at(s, p, i)
}

/// What follows the prefix `p`, when `s` starts with it.
pub open spec fn after(s: Seq<char>, p: Seq<char>) -> Option<Seq<char>> {
    if p.is_prefix_of(s) {
        Some(s.skip(p.len() as int))
    } else {
        None
    }
}

/// What precedes the suffix `p`, when `s` ends with it.
pub open spec fn before(s: Seq<char>, p: Seq<char>) -> Option<Seq<char>> {
    if p.is_suffix_of(s) {
        Some(s.take(s.len() - p.len()))
    } else {
        None
    }
}

/// The parts of `s` around the separator at position `i`.
pub open spec fn cut(s: Seq<char>, p: Seq<char>, i: Option<int>) -> Option<(Seq<char>, Seq<char>)> {
    match i {
        Some(k) => Some((s.take(k), s.skip(k + p.len()))),
        None => None,
    }
}

/// The parts of `s` around the first `p`.
pub open spec fn split(s: Seq<char>, p: Seq<char>) -> Option<(Seq<char>, Seq<char>)> {
    cut(s, p, first_at(s, p, 0))
}

/// The parts of `s` around the last `p`.
pub open spec fn rsplit(s: Seq<char>, p: Seq<char>) -> Option<(Seq<char>, Seq<char>)> {
    cut(s, p, last_at(s, p, s.len() - p.len()))
}

/// Unicode `White_Space`.
pub open spec fn is_space(c: char) -> bool {
    let n = c as u32;
    ||| 9 <= n <= 13
    ||| n == 0x20
    ||| n == 0x85
    ||| n == 0xA0
    ||| n == 0x1680
    ||| 0x2000 <= n <= 0x200A
    ||| n == 0x2028
    ||| n == 0x2029
    ||| n == 0x202F
    ||| n == 0x205F
    ||| n == 0x3000
}

/// `s` without its leading white space.
pub open spec fn trim_left(s: Seq<char>) -> Seq<char>
    decreases s.len(),
{
    if s.len() > 0 && is_space(s[0]) {
        trim_left(s.skip(1))
    } else {
        s
    }
}

/// `s` without its trailing white space.
pub open spec fn trim_right(s: Seq<char>) -> Seq<char>
    decreases s.len(),
{
    if s.len() > 0 && is_space(s.last()) {
        trim_right(s.drop_last())
    } else {
        s
    }
}

/// `s` without white space at either end.
pub open spec fn trim(s: Seq<char>) -> Seq<char> {
    trim_right(trim_left(s))
}

/// `s` with every occurrence of `p`, taken from the left and not overlapping,
/// replaced by `q`.
pub open spec fn subst(s: Seq<char>, p: Seq<char>, q: Seq<char>) -> Seq<char>
    decreases s.len(),
{
    match first_at(s, p, 0) {
        Some(i) => if p.len() > 0 && 0 <= i && i + p.len() <= s.len() {
            s.take(i) + q + subst(s.skip(i + p.len()), p, q)
        } else {
            s
        },
        None => s,
    }
}

pub open spec fn is_digit(c: char) -> bool {
    '0' <= c && c <= '9'
}

/// Are all the characters of `s` decimal digits?
pub open spec fn all_digits(s: Seq<char>) -> bool {
    forall|i: int| 0 <= i < s.len() ==> is_digit(#[trigger] s[i])
}

/// The number that a sequence of decimal digits stands for.
pub open spec fn digits_value(s: Seq<char>) -> int
    decreases s.len(),
{
    if s.len() == 0 {
        0
    } else {
        digits_value(s.drop_last()) * 10 + (s.last() as int - '0' as int)
    }
}

/// The number that one or more decimal digits stand for.
pub open spec fn number(s: Seq<char>) -> Option<int> {
    if s.len() > 0 && all_digits(s) {
        Some(digits_value(s))
    } else {
        None
    }
}

/// The 64-bit signed integer that `s` spells: an optional sign, then digits.
pub open spec fn integer(s: Seq<char>) -> Option<int> {
    if s.len() > 0 && s[0] == '-' {
        match number(s.skip(1)) {
            Some(n) => if n <= 0x8000_0000_0000_0000 {
                Some(-n)
            } else {
                None
            },
            None => None,
        }
    } else {
        let body = if s.len() > 0 && s[0] == '+' {
            s.skip(1)
        } else {
            s
        };
        match number(body) {
            Some(n) => if n <= 0x7FFF_FFFF_FFFF_FFFF {
                Some(n)
            } else {
                None
            },
            None => None,
        }
    }
}

/// The character of a decimal digit.
pub open spec fn digit(d: int) -> char {
    (48 + d) as char
}

/// Decimal digits of `n`, without leading zeros.
pub open spec fn digits(n: nat) -> Seq<char>
    decreases n,
{
    if n < 10 {
        seq![digit(n as int)]
    } else {
        digits(n / 10).push(digit((n % 10) as int))
    }
}

/// Decimal form of `n`.
pub open spec fn decimal(n: int) -> Seq<char> {
    if n < 0 {
        seq!['-'] + digits((-n) as nat)
    } else {
        digits(n as nat)
    }
}

/// The model of an optional piece of text.
pub open spec fn piece(r: Option<&str>) -> Option<Seq<char>> {
    match r {
        Some(s) => Some(s@),
        None => None,
    }
}

/// The model of an optional pair of pieces.
pub open spec fn pieces(r: Option<(&str, &str)>) -> Option<(Seq<char>, Seq<char>)> {
    match r {
        Some((a, b)) => Some((a@, b@)),
        None => None,
    }
}

// ── Lemmas ──────────────────────────────────────────────────────────────────

/// The first occurrence found is an occurrence, and no earlier one exists.
pub proof fn lemma_first_at(s: Seq<char>, p: Seq<char>, i: int)
    requires
        0 <= i,
    ensures
        first_at(s, p, i) matches Some(k) ==> occurs_at(s, p, k) && i <= k && (forall|j: int|
            i <= j < k ==> !occurs_at(s, p, j)),
        first_at(s, p, i) is None ==> (forall|j: int| i <= j ==> !occurs_at(s, p, j)),
    decreases s.len() + 1 - i,
{
    if i + p.len() > s.len() {
    } else if occurs_at(s, p, i) {
    } else {
        lemma_first_at(s, p, i + 1);
    }
}

/// A text contains another exactly if it can be split at it.
pub proof fn lemma_has_is_found(s: Seq<char>, p: Seq<char>)
    ensures
        has(s, p) == (first_at(s, p, 0) is Some),
{
    lemma_first_at(s, p, 0);
    if has(s, p) {
        let i = choose|i: int| occurs_at(s, p, i);
        assert(0 <= i && occurs_at(s, p, i));
    }
}

proof fn lemma_digits_value_nonneg(s: Seq<char>)
    requires
        all_digits(s),
    ensures
        digits_value(s) >= 0,
    decreases s.len(),
{
    if s.len() > 0 {
        assert(all_digits(s.drop_last()));
        lemma_digits_value_nonneg(s.drop_last());
        assert(is_digit(s.last()));
    }
}

/// An integer that is read fits in 64 bits.
pub proof fn lemma_integer_range(s: Seq<char>)
    ensures
        integer(s) matches Some(n) ==> i64::MIN <= n <= i64::MAX,
{
    if all_digits(s) {
        lemma_digits_value_nonneg(s);
    }
    if s.len() > 0 && all_digits(s.skip(1)) {
        lemma_digits_value_nonneg(s.skip(1));
    }
}

/// The digits of a number are read back as that number.
pub proof fn lemma_digits_read_back(n: nat)
    ensures
        digits(n).len() > 0,
        all_digits(digits(n)),
        digits_value(digits(n)) == n,
        number(digits(n)) == Some(n as int),
    decreases n,
{
    let d = digits(n);
    if n < 10 {
        assert(d.drop_last() =~= Seq::empty());
        assert(digits_value(d.drop_last()) == 0);
    } else {
        lemma_digits_read_back(n / 10);
        assert(d.drop_last() =~= digits(n / 10));
        assert forall|i: int| 0 <= i < d.len() implies is_digit(#[trigger] d[i]) by {
            if i < d.len() - 1 {
                assert(d[i] == digits(n / 10)[i]);
            }
        }
    }
}

// ── Scanning ────────────────────────────────────────────────────────────────

/// The characters of a text.
pub fn to_chars(s: &str) -> (v: Vec<char>)
    ensures
        v@ == s@,
{
    let mut v: Vec<char> = Vec::new();
    let mut it = s.chars();
    proof {
        assert(s@.skip(0) == s@);
    }
    loop
        invariant
            v@.len() <= s@.len(),
            vstd::std_specs::iter::IteratorSpec::remaining(&it) == s@.skip(v@.len() as int),
            v@ == s@.take(v@.len() as int),
        decreases s@.len() - v@.len(),
    {
        match it.next() {
            None => {
                assert(s@.skip(v@.len() as int).len() == 0);
                assert(s@.take(v@.len() as int) == s@);
                return v;
            },
            Some(c) => {
                let ghost k = v@.len() as int;
                v.push(c);
                assert(s@.skip(k).drop_first() == s@.skip(k + 1));
                assert(s@.take(k + 1) == s@.take(k).push(c));
            },
        }
    }
}

/// Are two texts the same?
pub fn same(a: &str, b: &str) -> (r: bool)
    ensures
        r == (a@ == b@),
{
    let mut x = a.chars();
    let mut y = b.chars();
    let ghost mut k: int = 0;
    proof {
        assert(a@.skip(0) == a@);
        assert(b@.skip(0) == b@);
    }
    loop
        invariant
            0 <= k <= a@.len(),
            k <= b@.len(),
            vstd::std_specs::iter::IteratorSpec::remaining(&x) == a@.skip(k),
            vstd::std_specs::iter::IteratorSpec::remaining(&y) == b@.skip(k),
            a@.take(k) == b@.take(k),
        decreases a@.len() - k,
    {
        let p = x.next();
        let q = y.next();
        match (p, q) {
            (None, None) => {
                assert(a@.take(k) == a@);
                assert(b@.take(k) == b@);
                return true;
            },
            (Some(c), Some(d)) => {
                if c != d {
                    assert(a@[k] != b@[k]);
                    return false;
                }
                proof {
                    assert(a@.skip(k).drop_first() == a@.skip(k + 1));
                    assert(b@.skip(k).drop_first() == b@.skip(k + 1));
                    assert(a@.take(k + 1) == a@.take(k).push(c));
                    assert(b@.take(k + 1) == b@.take(k).push(c));
                    k = k + 1;
                }
            },
            (None, Some(_)) => {
                assert(a@.len() != b@.len());
                return false;
            },
            (Some(_), None) => {
                assert(a@.len() != b@.len());
                return false;
            },
        }
    }
}

/// Does `s` start with `p`?
pub fn starts_with(s: &str, p: &str) -> (r: bool)
    ensures
        r == p@.is_prefix_of(s@),
{
    let mut a = s.chars();
    let mut b = p.chars();
    let ghost mut k: int = 0;
    proof {
        assert(s@.skip(0) == s@);
        assert(p@.skip(0) == p@);
    }
    loop
        invariant
            0 <= k <= p@.len(),
            k <= s@.len(),
            vstd::std_specs::iter::IteratorSpec::remaining(&a) == s@.skip(k),
            vstd::std_specs::iter::IteratorSpec::remaining(&b) == p@.skip(k),
            p@.take(k) == s@.take(k),
        decreases p@.len() - k,
    {
        match b.next() {
            None => {
                assert(p@.take(k) == p@);
                return true;
            },
            Some(c) => {
                match a.next() {
                    Some(d) => {
                        if c != d {
                            return false;
                        }
                        proof {
                            assert(p@.skip(k).drop_first() == p@.skip(k + 1));
                            assert(s@.skip(k).drop_first() == s@.skip(k + 1));
                            assert(p@.take(k + 1) == p@.take(k).push(c));
                            assert(s@.take(k + 1) == s@.take(k).push(c));
                            k = k + 1;
                        }
                    },
                    None => {
                        return false;
                    },
                }
            },
        }
    }
}

/// Does `p` occur in `s` at position `i`?
fn matches_at(s: &Vec<char>, p: &Vec<char>, i: usize) -> (r: bool)
    requires
        i + p@.len() <= s@.len(),
    ensures
        r == occurs_at(s@, p@, i as int),
{
    let mut k: usize = 0;
    let n = s.len();
    while k < p.len()
        invariant
            n == s@.len(),
            i + p@.len() <= s@.len(),
            k <= p@.len(),
            forall|j: int| 0 <= j < k ==> s@[i + j] == p@[j],
        decreases p@.len() - k,
    {
        if s[i + k] != p[k] {
            assert(s@.subrange(i as int, i + p@.len())[k as int] != p@[k as int]);
            return false;
        }
        k += 1;
    }
    assert(s@.subrange(i as int, i + p@.len()) == p@);
    true
}

/// Position of the first occurrence of `p` in `s` at or after `from`.
fn find_from(s: &Vec<char>, p: &Vec<char>, from: usize) -> (r: Option<usize>)
    requires
        from <= s@.len(),
    ensures
        match r {
            Some(k) => first_at(s@, p@, from as int) == Some(k as int) && k + p@.len() <= s@.len(),
            None => first_at(s@, p@, from as int) is None,
        },
{
    let mut i: usize = from;
    while i <= s.len() && p.len() <= s.len() - i
        invariant
            from <= i <= s@.len() + 1,
            first_at(s@, p@, from as int) == first_at(s@, p@, i as int),
        decreases s@.len() + 1 - i,
    {
        if matches_at(s, p, i) {
            return Some(i);
        }
        if i == s.len() {
            assert(first_at(s@, p@, i + 1) is None);
            return None;
        }
        i += 1;
    }
    None
}

/// Position of the last occurrence of `p` in `s`.
fn find_last(s: &Vec<char>, p: &Vec<char>) -> (r: Option<usize>)
    ensures
        match r {
            Some(k) => last_at(s@, p@, s@.len() - p@.len()) == Some(k as int) && k + p@.len()
                <= s@.len(),
            None => last_at(s@, p@, s@.len() - p@.len()) is None,
        },
{
    if p.len() > s.len() {
        return None;
    }
    let mut i: usize = s.len() - p.len();
    loop
        invariant
            p@.len() <= s@.len(),
            i + p@.len() <= s@.len(),
            last_at(s@, p@, s@.len() - p@.len()) == last_at(s@, p@, i as int),
        decreases i,
    {
        if matches_at(s, p, i) {
            return Some(i);
        }
        if i == 0 {
            assert(last_at(s@, p@, -1) is None);
            return None;
        }
        i -= 1;
    }
}

/// Does `p` occur anywhere in `s`?
pub fn contains(s: &str, p: &str) -> (r: bool)
    ensures
        r == has(s@, p@),
{
    let v = to_chars(s);
    let w = to_chars(p);
    proof {
        lemma_has_is_found(s@, p@);
    }
    find_from(&v, &w, 0).is_some()
}

/// What follows the prefix `p`, when `s` starts with it.
pub fn strip_prefix<'a>(s: &'a str, p: &str) -> (r: Option<&'a str>)
    ensures
        piece(r) == after(s@, p@),
{
    if starts_with(s, p) {
        let n = p.unicode_len();
        let m = s.unicode_len();
        let t = s.substring_char(n, m);
        assert(t@ == s@.skip(n as int));
        Some(t)
    } else {
        None
    }
}

/// Does `s` end with `p`?
pub fn ends_with(s: &str, p: &str) -> (r: bool)
    ensures
        r == p@.is_suffix_of(s@),
{
    let v = to_chars(s);
    let w = to_chars(p);
    if w.len() > v.len() {
        return false;
    }
    let r = matches_at(&v, &w, v.len() - w.len());
    assert(s@.subrange(s@.len() - p@.len(), s@.len() as int) == s@.skip(s@.len() - p@.len()));
    r
}

/// What precedes the suffix `p`, when `s` ends with it.
pub fn strip_suffix<'a>(s: &'a str, p: &str) -> (r: Option<&'a str>)
    ensures
        piece(r) == before(s@, p@),
{
    if ends_with(s, p) {
        let n = p.unicode_len();
        let m = s.unicode_len();
        let t = s.substring_char(0, m - n);
        assert(t@ == s@.take(m - n));
        Some(t)
    } else {
        None
    }
}

/// The parts of `s` around the first `p`.
pub fn split_once<'a>(s: &'a str, p: &str) -> (r: Option<(&'a str, &'a str)>)
    ensures
        pieces(r) == split(s@, p@),
{
    let v = to_chars(s);
    let w = to_chars(p);
    match find_from(&v, &w, 0) {
        Some(k) => {
            let n = v.len();
            let a = s.substring_char(0, k);
            let b = s.substring_char(k + w.len(), n);
            assert(a@ == s@.take(k as int));
            assert(b@ == s@.skip(k + p@.len()));
            Some((a, b))
        },
        None => None,
    }
}

/// The parts of `s` around the last `p`.
pub fn rsplit_once<'a>(s: &'a str, p: &str) -> (r: Option<(&'a str, &'a str)>)
    ensures
        pieces(r) == rsplit(s@, p@),
{
    let v = to_chars(s);
    let w = to_chars(p);
    match find_last(&v, &w) {
        Some(k) => {
            let n = v.len();
            let a = s.substring_char(0, k);
            let b = s.substring_char(k + w.len(), n);
            assert(a@ == s@.take(k as int));
            assert(b@ == s@.skip(k + p@.len()));
            Some((a, b))
        },
        None => None,
    }
}

/// Is `c` Unicode white space?
pub fn char_is_space(c: char) -> (r: bool)
    ensures
        r == is_space(c),
{
    let n = c as u32;
    (9 <= n && n <= 13) || n == 0x20 || n == 0x85 || n == 0xA0 || n == 0x1680 || (0x2000 <= n && n
        <= 0x200A) || n == 0x2028 || n == 0x2029 || n == 0x202F || n == 0x205F || n == 0x3000
}

/// `s` without white space at either end.
pub fn trim_text<'a>(s: &'a str) -> (r: &'a str)
    ensures
        r@ == trim(s@),
{
    let v = to_chars(s);
    let n = v.len();
    let mut i: usize = 0;
    proof {
        assert(s@.skip(0) == s@);
    }
    while i < n && char_is_space(v[i])
        invariant
            v@ == s@,
            n == s@.len(),
            i <= n,
            trim_left(s@) == trim_left(s@.skip(i as int)),
        decreases n - i,
    {
        assert(s@.skip(i as int).skip(1) == s@.skip(i + 1));
        i += 1;
    }
    let ghost t = s@.skip(i as int);
    assert(trim_left(s@) == t);
    let mut j: usize = n;
    proof {
        assert(t.take(n - i) == t);
    }
    while i < j && char_is_space(v[j - 1])
        invariant
            v@ == s@,
            n == s@.len(),
            i <= j <= n,
            t == s@.skip(i as int),
            trim_right(t) == trim_right(t.take(j - i)),
        decreases j,
    {
        assert(t.take(j - i).drop_last() == t.take(j - i - 1));
        j -= 1;
    }
    assert(trim_right(t) == t.take(j - i));
    let r = s.substring_char(i, j);
    assert(r@ == t.take(j - i));
    r
}

/// `s` with every occurrence of `p` replaced by `q`.
pub fn replace_text(s: &str, p: &str, q: &str) -> (r: String)
    requires
        p@.len() > 0,
    ensures
        r@ == subst(s@, p@, q@),
{
    let v = to_chars(s);
    let w = to_chars(p);
    let n = v.len();
    let mut out = String::new();
    let mut done: usize = 0;
    proof {
        assert(s@.skip(0) == s@);
        assert(out@ + subst(s@, p@, q@) == subst(s@, p@, q@));
    }
    loop
        invariant
            v@ == s@,
            w@ == p@,
            n == s@.len(),
            p@.len() > 0,
            done <= n,
            subst(s@, p@, q@) == out@ + subst(s@.skip(done as int), p@, q@),
        decreases n - done,
    {
        let ghost rest = s@.skip(done as int);
        proof {
            lemma_first_at_skip(s@, p@, done as int, 0);
        }
        match find_from(&v, &w, done) {
            Some(k) => {
                let ghost before = out@;
                proof {
                    lemma_first_at(s@, p@, done as int);
                }
                out.append(s.substring_char(done, k));
                out.append(q);
                proof {
                    assert(rest.take(k - done) == s@.subrange(done as int, k as int));
                    assert(rest.skip(k - done + p@.len()) == s@.skip(k + p@.len()));
                    assert(out@ + subst(s@.skip(k + p@.len()), p@, q@) == before + subst(
                        rest,
                        p@,
                        q@,
                    ));
                }
                done = k + w.len();
            },
            None => {
                out.append(s.substring_char(done, n));
                assert(rest == s@.subrange(done as int, n as int));
                return out;
            },
        }
    }
}

/// Searching a tail is searching the whole from further on.
proof fn lemma_first_at_skip(s: Seq<char>, p: Seq<char>, d: int, i: int)
    requires
        0 <= d <= s.len(),
        0 <= i,
    ensures
        first_at(s.skip(d), p, i) == (match first_at(s, p, d + i) {
            Some(k) => Some(k - d),
            None => None,
        }),
    decreases s.len() + 1 - d - i,
{
    let t = s.skip(d);
    if i + p.len() <= t.len() {
        assert(t.subrange(i, i + p.len()) == s.subrange(d + i, d + i + p.len()));
        if !occurs_at(t, p, i) {
            lemma_first_at_skip(s, p, d, i + 1);
        }
    }
}

// ── Numbers ─────────────────────────────────────────────────────────────────

/// The number that one or more decimal digits stand for, up to 2^63.
fn parse_number(v: &Vec<char>, from: usize) -> (r: Option<u64>)
    requires
        from <= v@.len(),
    ensures
        match r {
            Some(n) => number(v@.skip(from as int)) == Some(n as int) && n
                <= 0x8000_0000_0000_0000,
            None => number(v@.skip(from as int)) matches Some(m) ==> m > 0x8000_0000_0000_0000,
        },
{
    let ghost s = v@.skip(from as int);
    if from == v.len() {
        return None;
    }
    let mut i: usize = from;
    let mut acc: u64 = 0;
    let mut big = false;
    while i < v.len()
        invariant
            from <= i <= v@.len(),
            s == v@.skip(from as int),
            forall|j: int| 0 <= j < i - from ==> is_digit(s[j]),
            !big ==> acc == digits_value(s.take(i - from)) && acc <= 0x8000_0000_0000_0000,
            big ==> digits_value(s.take(i - from)) > 0x8000_0000_0000_0000,
        decreases v@.len() - i,
    {
        let c = v[i];
        assert(c == s[i - from]);
        if !('0' <= c && c <= '9') {
            assert(!is_digit(s[i - from]));
            return None;
        }
        let d: u64 = c as u64 - '0' as u64;
        proof {
            assert(s.take(i + 1 - from).drop_last() == s.take(i - from));
        }
        if !big {
            let next: u128 = acc as u128 * 10 + d as u128;
            if next > 0x8000_0000_0000_0000 {
                big = true;
            } else {
                acc = next as u64;
            }
        }
        i += 1;
    }
    assert(s.take(i - from) == s);
    assert(all_digits(s));
    if big {
        None
    } else {
        Some(acc)
    }
}

/// The 64-bit signed integer that `s` spells.
pub fn parse_i64(s: &str) -> (r: Option<i64>)
    ensures
        match r {
            Some(n) => integer(s@) == Some(n as int),
            None => integer(s@) is None,
        },
{
    let v = to_chars(s);
    proof {
        assert(s@.skip(0) == s@);
    }
    if v.len() > 0 && v[0] == '-' {
        match parse_number(&v, 1) {
            Some(n) => {
                let m: i128 = -(n as i128);
                Some(m as i64)
            },
            None => None,
        }
    } else {
        let from: usize = if v.len() > 0 && v[0] == '+' {
            1
        } else {
            0
        };
        match parse_number(&v, from) {
            Some(n) => if n <= 0x7FFF_FFFF_FFFF_FFFF {
                Some(n as i64)
            } else {
                None
            },
            None => None,
        }
    }
}

/// The number that one or more decimal digits stand for, below `u32::MAX`.
pub fn parse_digits(s: &str) -> (r: Option<u32>)
    ensures
        match r {
            Some(n) => number(s@) == Some(n as int) && n < u32::MAX,
            None => number(s@) matches Some(m) ==> m >= u32::MAX,
        },
{
    let v = to_chars(s);
    proof {
        assert(s@.skip(0) == s@);
    }
    match parse_number(&v, 0) {
        Some(n) => if n < u32::MAX as u64 {
            Some(n as u32)
        } else {
            None
        },
        None => None,
    }
}

/// The text of one decimal digit.
fn digit_text(d: u64) -> (r: &'static str)
    requires
        d < 10,
    ensures
        r@ == seq![digit(d as int)],
{
    proof {
        reveal_strlit("0");
        reveal_strlit("1");
        reveal_strlit("2");
        reveal_strlit("3");
        reveal_strlit("4");
        reveal_strlit("5");
        reveal_strlit("6");
        reveal_strlit("7");
        reveal_strlit("8");
        reveal_strlit("9");
    }
    let r = match d {
        0 => "0",
        1 => "1",
        2 => "2",
        3 => "3",
        4 => "4",
        5 => "5",
        6 => "6",
        7 => "7",
        8 => "8",
        _ => "9",
    };
    assert(r@ =~= seq![digit(d as int)]);
    r
}

/// Appends the decimal digits of `n`.
fn push_digits(out: &mut String, n: u64)
    ensures
        final(out)@ == old(out)@ + digits(n as nat),
    decreases n,
{
    if n >= 10 {
        push_digits(out, n / 10);
    }
    out.append(digit_text(n % 10));
    assert(out@ =~= old(out)@ + digits(n as nat));
}

/// Appends the decimal form of `n`.
pub fn push_decimal(out: &mut String, n: i64)
    ensures
        final(out)@ == old(out)@ + decimal(n as int),
{
    if n < 0 {
        proof {
            reveal_strlit("-");
            assert("-"@ =~= seq!['-']);
        }
        out.append("-");
        let m: i128 = -(n as i128);
        push_digits(out, m as u64);
        assert(out@ =~= old(out)@ + decimal(n as int));
    } else {
        push_digits(out, n as u64);
    }
}

} // verus!
