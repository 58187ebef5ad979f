//! Character-level helpers for the string handling that the link parsers need:
//! splitting at the first occurrence of a character, ASCII case folding,
//! decimal port numbers, prefix and substring tests.
use crate::bindings::push_char;
use vstd::prelude::*;

verus! {

// ---------------------------------------------------------------------------
// Specifications
// ---------------------------------------------------------------------------

/// `i` is the position of the first `c` in `s`.
pub open spec fn is_first_at(s: Seq<char>, c: char, i: int) -> bool {
    &&& 0 <= i < s.len()
    &&& s[i] == c
    &&& forall|j: int| 0 <= j < i ==> s[j] != c
}

/// The position of the first `c` in `s`, if `c` occurs.
pub open spec fn first_index(s: Seq<char>, c: char) -> Option<int> {
    if exists|i: int| is_first_at(s, c, i) {
        Some(choose|i: int| is_first_at(s, c, i))
    } else {
        None
    }
}

/// `str::split_once` on a character: the parts before and after the first `c`.
pub open spec fn split_once(s: Seq<char>, c: char) -> Option<(Seq<char>, Seq<char>)> {
    match first_index(s, c) {
        Some(i) => Some((s.take(i), s.skip(i + 1))),
        None => None,
    }
}

/// `p` occurs in `s` starting at position `i`.
pub open spec fn occurs_at(s: Seq<char>, p: Seq<char>, i: int) -> bool {
    &&& 0 <= i
    &&& i + p.len() <= s.len()
    &&& s.subrange(i, i + p.len()) == p
}

/// `str::contains` with a string pattern.
pub open spec fn contains_seq(s: Seq<char>, p: Seq<char>) -> bool {
    exists|i: int| occurs_at(s, p, i)
}

/// `i` is where `p` first occurs in `s`.
pub open spec fn is_first_occurrence(s: Seq<char>, p: Seq<char>, i: int) -> bool {
    &&& occurs_at(s, p, i)
    &&& forall|j: int| 0 <= j < i ==> !occurs_at(s, p, j)
}

/// `str::replacen(p, w, 1)`: the first occurrence of `p` replaced by `w`.
pub open spec fn replace_first(s: Seq<char>, p: Seq<char>, w: Seq<char>) -> Seq<char> {
    if exists|i: int| is_first_occurrence(s, p, i) {
        let i = choose|i: int| is_first_occurrence(s, p, i);
        s.take(i) + w + s.skip(i + p.len())
    } else {
        s
    }
}

/// `str::starts_with` with a string pattern.
pub open spec fn has_prefix(s: Seq<char>, p: Seq<char>) -> bool {
    p.len() <= s.len() && s.take(p.len() as int) == p
}

/// The code of a character after `to_ascii_lowercase`: ASCII upper-case
/// letters move to lower case, every other character stays.
pub open spec fn lower_code(c: char) -> u32 {
    if 'A' <= c && c <= 'Z' {
        (c as u32 + 32) as u32
    } else {
        c as u32
    }
}

/// `s.to_ascii_lowercase().starts_with(p)`, for a pattern `p`.
pub open spec fn has_prefix_ignore_case(s: Seq<char>, p: Seq<char>) -> bool {
    &&& p.len() <= s.len()
    &&& forall|i: int| 0 <= i < p.len() ==> lower_code(#[trigger] s[i]) == lower_code(p[i])
}

/// `s.to_ascii_lowercase() == p.to_ascii_lowercase()`.
pub open spec fn eq_ignore_case(s: Seq<char>, p: Seq<char>) -> bool {
    s.len() == p.len() && has_prefix_ignore_case(s, p)
}

/// `a` and `b` agree up to ASCII case.
pub open spec fn same_up_to_case(a: Seq<char>, b: Seq<char>) -> bool {
    &&& a.len() == b.len()
    &&& forall|i: int| 0 <= i < a.len() ==> lower_code(#[trigger] a[i]) == lower_code(b[i])
}

pub open spec fn is_digit(c: char) -> bool {
    '0' <= c && c <= '9'
}

pub open spec fn all_digits(s: Seq<char>) -> bool {
    forall|i: int| 0 <= i < s.len() ==> is_digit(#[trigger] s[i])
}

pub open spec fn digit_value(c: char) -> int {
    c as int - '0' as int
}

/// The number that a string of decimal digits spells.
pub open spec fn decimal_value(s: Seq<char>) -> int
    decreases s.len(),
{
    if s.len() == 0 {
        0
    } else {
        decimal_value(s.drop_last()) * 10 + digit_value(s.last())
    }
}

/// A string of one or more digits whose value fits in a `u16`.
pub open spec fn decimal_u16(d: Seq<char>) -> Option<u16> {
    if d.len() > 0 && all_digits(d) && decimal_value(d) <= 65535 {
        Some(decimal_value(d) as u16)
    } else {
        None
    }
}

/// `s.parse::<u16>()`: an optional `+`, then one or more decimal digits
/// whose value is at most 65535.
pub open spec fn parse_u16(s: Seq<char>) -> Option<u16> {
    if s.len() > 0 && s[0] == '+' {
        decimal_u16(s.drop_first())
    } else {
        decimal_u16(s)
    }
}

/// `n` is the length of the run of ASCII digits that `s` starts with.
pub open spec fn is_digit_run(s: Seq<char>, n: int) -> bool {
    &&& 0 <= n <= s.len()
    &&& all_digits(s.take(n))
    &&& (n == s.len() || !is_digit(s[n]))
}

/// `s.chars().take_while(char::is_ascii_digit)`.
pub open spec fn leading_digits(s: Seq<char>) -> Seq<char> {
    s.take(choose|n: int| is_digit_run(s, n))
}

// ---------------------------------------------------------------------------
// Lemmas
// ---------------------------------------------------------------------------

pub proof fn lemma_first_index(s: Seq<char>, c: char, i: int)
    requires
        is_first_at(s, c, i),
    ensures
        first_index(s, c) == Some(i),
{
    let j = choose|j: int| is_first_at(s, c, j);
    assert(is_first_at(s, c, j));
    if j < i {
        assert(s[j] != c);
    }
    if i < j {
        assert(s[i] != c);
    }
}

pub proof fn lemma_no_first_index(s: Seq<char>, c: char)
    requires
        forall|j: int| 0 <= j < s.len() ==> s[j] != c,
    ensures
        first_index(s, c) is None,
{
}

pub proof fn lemma_first_occurrence(s: Seq<char>, p: Seq<char>, i: int)
    requires
        is_first_occurrence(s, p, i),
    ensures
        forall|w: Seq<char>| #[trigger] replace_first(s, p, w) == s.take(i) + w + s.skip(i + p.len()),
{
    let j = choose|j: int| is_first_occurrence(s, p, j);
    assert(is_first_occurrence(s, p, j));
    if j < i {
        assert(!occurs_at(s, p, j));
    }
    if i < j {
        assert(!occurs_at(s, p, i));
    }
}

pub proof fn lemma_digit_run_unique(s: Seq<char>, n: int)
    requires
        is_digit_run(s, n),
    ensures
        leading_digits(s) == s.take(n),
{
    let m = choose|m: int| is_digit_run(s, m);
    assert(is_digit_run(s, m));
    if m < n {
        assert(s.take(n)[m] == s[m]);
    }
    if n < m {
        assert(s.take(m)[n] == s[n]);
    }
}

pub proof fn lemma_decimal_value_nonneg(s: Seq<char>)
    requires
        all_digits(s),
    ensures
        decimal_value(s) >= 0,
    decreases s.len(),
{
    if s.len() > 0 {
        assert(is_digit(s[s.len() - 1]));
        assert(all_digits(s.drop_last())) by {
            assert forall|i: int| 0 <= i < s.drop_last().len() implies is_digit(
                #[trigger] s.drop_last()[i],
            ) by {
                assert(is_digit(s[i]));
            }
        }
        lemma_decimal_value_nonneg(s.drop_last());
    }
}

/// Appending digits never makes a decimal number smaller.
pub proof fn lemma_decimal_prefix_le(s: Seq<char>, k: int)
    requires
        all_digits(s),
        0 <= k <= s.len(),
    ensures
        decimal_value(s.take(k)) <= decimal_value(s),
    decreases s.len(),
{
    if k < s.len() {
        let t = s.drop_last();
        assert(all_digits(t)) by {
            assert forall|i: int| 0 <= i < t.len() implies is_digit(#[trigger] t[i]) by {
                assert(is_digit(s[i]));
            }
        }
        assert(t.take(k) =~= s.take(k));
        lemma_decimal_prefix_le(t, k);
        lemma_decimal_value_nonneg(t);
        assert(is_digit(s[s.len() - 1]));
    } else {
        assert(s.take(k) =~= s);
    }
}

// ---------------------------------------------------------------------------
// Executable helpers
// ---------------------------------------------------------------------------

/// The characters of `s`, in order.
pub fn chars_of(s: &str) -> (r: Vec<char>)
    ensures
        r@ == s@,
{
    let mut r: Vec<char> = Vec::new();
    for c in it: s.chars()
        invariant
            r@ == it.seq().take(it.index() as int),
    {
        r.push(c);
    }
    proof {
        assert(r@ =~= s@);
    }
    r
}

/// The position of the first `c` in `cs`.
pub fn find_char(cs: &Vec<char>, c: char) -> (r: Option<usize>)
    ensures
        r matches Some(i) ==> first_index(cs@, c) == Some(i as int),
        r is None ==> first_index(cs@, c) is None,
{
    let mut i: usize = 0;
    while i < cs.len()
        invariant
            i <= cs.len(),
            forall|j: int| 0 <= j < i ==> cs@[j] != c,
        decreases cs.len() - i,
    {
        if cs[i] == c {
            proof {
                lemma_first_index(cs@, c, i as int);
            }
            return Some(i);
        }
        i = i + 1;
    }
    proof {
        lemma_no_first_index(cs@, c);
    }
    None
}

/// The characters of `s` from `from` up to `to`, as a `String`.
pub fn substring(s: &str, from: usize, to: usize) -> (r: String)
    requires
        from <= to <= s@.len(),
    ensures
        r@ == s@.subrange(from as int, to as int),
{
    s.substring_char(from, to).to_owned()
}

/// `s.split_once(c)`, with owned parts.
pub fn split_once_char(s: &str, c: char) -> (r: Option<(String, String)>)
    ensures
        r matches Some(p) ==> split_once(s@, c) == Some((p.0@, p.1@)),
        r is None ==> split_once(s@, c) is None,
{
    let cs = chars_of(s);
    match find_char(&cs, c) {
        Some(i) => {
            let n = cs.len();
            let before = substring(s, 0, i);
            let after = substring(s, i + 1, n);
            proof {
                assert(before@ =~= s@.take(i as int));
                assert(after@ =~= s@.skip(i + 1));
            }
            Some((before, after))
        },
        None => None,
    }
}

/// Whether `p` occurs in `s` at position `i`.
fn occurs_at_exec(s: &Vec<char>, p: &Vec<char>, i: usize) -> (r: bool)
    ensures
        r == occurs_at(s@, p@, i as int),
{
    if i > s.len() || p.len() > s.len() - i {
        return false;
    }
    let mut k: usize = 0;
    while k < p.len()
        invariant
            k <= p.len(),
            i + p.len() <= s.len(),
            forall|j: int| 0 <= j < k ==> s@[i + j] == p@[j],
        decreases p.len() - k,
    {
        if s[i + k] != p[k] {
            proof {
                assert(s@.subrange(i as int, i + p.len())[k as int] == s@[i + k]);
            }
            return false;
        }
        k = k + 1;
    }
    proof {
        assert(s@.subrange(i as int, i + p.len()) =~= p@);
    }
    true
}

/// The position where `p` first occurs in `s`.
fn find_seq(s: &Vec<char>, p: &Vec<char>) -> (r: Option<usize>)
    ensures
        r matches Some(i) ==> is_first_occurrence(s@, p@, i as int),
        r is None ==> !contains_seq(s@, p@),
{
    if p.len() > s.len() {
        return None;
    }
    let last = s.len() - p.len();
    let mut i: usize = 0;
    while i < last
        invariant
            i <= last,
            last + p.len() == s.len(),
            forall|j: int| 0 <= j < i ==> !occurs_at(s@, p@, j),
        decreases last - i,
    {
        if occurs_at_exec(s, p, i) {
            return Some(i);
        }
        i = i + 1;
    }
    if occurs_at_exec(s, p, last) {
        return Some(last);
    }
    None
}

/// `s.contains(p)`.
pub fn contains_str(s: &str, p: &str) -> (r: bool)
    ensures
        r == contains_seq(s@, p@),
{
    let cs = chars_of(s);
    let ps = chars_of(p);
    find_seq(&cs, &ps).is_some()
}

/// `s.replacen(p, w, 1)`.
pub fn replace_first_str(s: &str, p: &str, w: &str) -> (r: String)
    ensures
        r@ == replace_first(s@, p@, w@),
{
    let cs = chars_of(s);
    let ps = chars_of(p);
    match find_seq(&cs, &ps) {
        Some(i) => {
            let n = cs.len();
            let head = substring(s, 0, i);
            let tail = s.substring_char(i + ps.len(), n);
            let r = head.concat(w).concat(tail);
            proof {
                lemma_first_occurrence(s@, p@, i as int);
                assert(head@ =~= s@.take(i as int));
                assert(tail@ =~= s@.skip(i + p@.len()));
                assert(replace_first(s@, p@, w@) == s@.take(i as int) + w@ + s@.skip(i + p@.len()));
            }
            r
        },
        None => {
            proof {
                assert(!exists|i: int| is_first_occurrence(s@, p@, i));
            }
            s.to_owned()
        },
    }
}

/// `s.starts_with(p)`.
pub fn has_prefix_str(s: &str, p: &str) -> (r: bool)
    ensures
        r == has_prefix(s@, p@),
{
    let cs = chars_of(s);
    let ps = chars_of(p);
    let r = occurs_at_exec(&cs, &ps, 0);
    proof {
        if r {
            assert(s@.subrange(0, p@.len() as int) =~= s@.take(p@.len() as int));
        } else if p@.len() <= s@.len() {
            assert(s@.subrange(0, p@.len() as int) =~= s@.take(p@.len() as int));
        }
    }
    r
}

/// `to_ascii_lowercase` on one character, as a code.
fn lower_code_exec(c: char) -> (r: u32)
    ensures
        r == lower_code(c),
{
    if 'A' <= c && c <= 'Z' {
        c as u32 + 32
    } else {
        c as u32
    }
}

/// `s.to_ascii_lowercase().starts_with(&p.to_ascii_lowercase())`.
pub fn has_prefix_ignore_case_exec(s: &Vec<char>, p: &str) -> (r: bool)
    ensures
        r == has_prefix_ignore_case(s@, p@),
{
    let ps = chars_of(p);
    if ps.len() > s.len() {
        return false;
    }
    let mut k: usize = 0;
    while k < ps.len()
        invariant
            k <= ps.len() <= s.len(),
            ps@ == p@,
            forall|j: int| 0 <= j < k ==> lower_code(#[trigger] s@[j]) == lower_code(ps@[j]),
        decreases ps.len() - k,
    {
        if lower_code_exec(s[k]) != lower_code_exec(ps[k]) {
            return false;
        }
        k = k + 1;
    }
    true
}

/// `s.to_ascii_lowercase() == p.to_ascii_lowercase()`.
pub fn eq_ignore_case_exec(s: &Vec<char>, p: &str) -> (r: bool)
    ensures
        r == eq_ignore_case(s@, p@),
{
    let n = p.unicode_len();
    n == s.len() && has_prefix_ignore_case_exec(s, p)
}

/// The value of the digits `cs[start..]`, if they are one or more digits
/// whose value fits in a `u16`.
fn decimal_u16_exec(cs: &Vec<char>, start: usize) -> (r: Option<u16>)
    requires
        start <= cs.len(),
    ensures
        r == decimal_u16(cs@.skip(start as int)),
{
    let ghost d = cs@.skip(start as int);
    if start == cs.len() {
        return None;
    }
    let mut v: u32 = 0;
    let mut i: usize = start;
    while i < cs.len()
        invariant
            start <= i <= cs.len(),
            d == cs@.skip(start as int),
            all_digits(cs@.subrange(start as int, i as int)),
            v == decimal_value(cs@.subrange(start as int, i as int)),
            v <= 65535,
        decreases cs.len() - i,
    {
        let c = cs[i];
        let ghost prefix = cs@.subrange(start as int, i + 1);
        proof {
            assert(prefix.drop_last() =~= cs@.subrange(start as int, i as int));
            assert(prefix.last() == c);
            assert(d[i - start] == c);
        }
        if !('0' <= c && c <= '9') {
            return None;
        }
        let nv: u32 = v * 10 + (c as u32 - '0' as u32);
        proof {
            assert(all_digits(prefix)) by {
                assert forall|j: int| 0 <= j < prefix.len() implies is_digit(#[trigger] prefix[j]) by {
                    if j < prefix.len() - 1 {
                        assert(prefix[j] == cs@.subrange(start as int, i as int)[j]);
                    }
                }
            }
        }
        if nv > 65535 {
            proof {
                if all_digits(d) {
                    assert(d.take(i + 1 - start) =~= prefix);
                    lemma_decimal_prefix_le(d, i + 1 - start);
                }
            }
            return None;
        }
        v = nv;
        i = i + 1;
    }
    proof {
        assert(cs@.subrange(start as int, cs.len() as int) =~= d);
    }
    Some(v as u16)
}

/// `s.parse::<u16>().ok()`.
pub fn parse_u16_str(s: &str) -> (r: Option<u16>)
    ensures
        r == parse_u16(s@),
{
    let cs = chars_of(s);
    if cs.len() > 0 && cs[0] == '+' {
        proof {
            assert(cs@.skip(1) =~= s@.drop_first());
        }
        decimal_u16_exec(&cs, 1)
    } else {
        proof {
            assert(cs@.skip(0) =~= s@);
        }
        decimal_u16_exec(&cs, 0)
    }
}

/// `s.chars().take_while(char::is_ascii_digit).collect::<String>()`.
pub fn leading_digits_str(s: &str) -> (r: String)
    ensures
        r@ == leading_digits(s@),
{
    let cs = chars_of(s);
    let mut n: usize = 0;
    while n < cs.len() && '0' <= cs[n] && cs[n] <= '9'
        invariant
            n <= cs.len(),
            cs@ == s@,
            all_digits(s@.take(n as int)),
        decreases cs.len() - n,
    {
        proof {
            assert forall|j: int| 0 <= j < n + 1 implies is_digit(#[trigger] s@.take(n + 1)[j]) by {
                if j < n {
                    assert(s@.take(n + 1)[j] == s@.take(n as int)[j]);
                }
            }
        }
        n = n + 1;
    }
    proof {
        assert(is_digit_run(s@, n as int));
        lemma_digit_run_unique(s@, n as int);
    }
    let r = substring(s, 0, n);
    proof {
        assert(r@ =~= s@.take(n as int));
    }
    r
}

/// `a == b` on string slices.
pub fn str_eq(a: &str, b: &str) -> (r: bool)
    ensures
        r == (a@ == b@),
{
    a.to_owned() == b.to_owned()
}

/// `s.to_ascii_lowercase()`: the same characters, with ASCII `A`..`Z`
/// turned to `a`..`z`.
pub fn ascii_lowercase(s: &str) -> (r: String)
    ensures
        r@.len() == s@.len(),
        forall|i: int| 0 <= i < s@.len() ==> #[trigger] (r@[i] as u32) == lower_code(s@[i]),
{
    let cs = chars_of(s);
    let mut r = String::new();
    let n = cs.len();
    for i in 0..n
        invariant
            n == cs@.len(),
            cs@ == s@,
            r@.len() == i,
            forall|j: int| 0 <= j < i ==> #[trigger] (r@[j] as u32) == lower_code(cs@[j]),
    {
        let c = cs[i];
        let l = if 'A' <= c && c <= 'Z' {
            ((c as u8) + 32) as char
        } else {
            c
        };
        assert(l as u32 == lower_code(c));
        let ghost before = r@;
        push_char(&mut r, l);
        proof {
            assert forall|j: int| 0 <= j < i + 1 implies #[trigger] (r@[j] as u32) == lower_code(
                cs@[j],
            ) by {
                if j < i {
                    assert(r@[j] == before[j]);
                }
            }
        }
    }
    r
}

} // verus!
