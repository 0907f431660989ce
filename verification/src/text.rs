//! Line-oriented reading of the text files the solvers exchange: splitting
//! at line feeds, trimming white space, and decimal integers in the form
//! Rust's `str::parse` accepts.
use vstd::prelude::*;
use vstd::std_specs::iter::IteratorSpec;

verus! {

broadcast use vstd::seq_lib::group_seq_properties;

/// Unicode `White_Space`, as `char::is_whitespace` tests it.
pub open spec fn is_white(c: char) -> bool {
    let u = c as u32;
    (0x9 <= u && u <= 0xd) || u == 0x20 || u == 0x85 || u == 0xa0 || u == 0x1680 || (0x2000 <= u
        && u <= 0x200a) || u == 0x2028 || u == 0x2029 || u == 0x202f || u == 0x205f || u == 0x3000
}

/// Whether `c` is white space (`char::is_whitespace`).
pub fn white(c: char) -> (r: bool)
    ensures
        r == is_white(c),
{
    let u = c as u32;
    (0x9 <= u && u <= 0xd) || u == 0x20 || u == 0x85 || u == 0xa0 || u == 0x1680 || (0x2000 <= u
        && u <= 0x200a) || u == 0x2028 || u == 0x2029 || u == 0x202f || u == 0x205f || u == 0x3000
}

/// `s` without its leading white space.
pub open spec fn trim_start_spec(s: Seq<char>) -> Seq<char>
    decreases s.len(),
{
    if s.len() > 0 && is_white(s[0]) {
        trim_start_spec(s.drop_first())
    } else {
        s
    }
}

/// `s` without its trailing white space.
pub open spec fn trim_end_spec(s: Seq<char>) -> Seq<char>
    decreases s.len(),
{
    if s.len() > 0 && is_white(s.last()) {
        trim_end_spec(s.drop_last())
    } else {
        s
    }
}

/// `s` without leading and trailing white space (`str::trim`).
pub open spec fn trim_spec(s: Seq<char>) -> Seq<char> {
    trim_end_spec(trim_start_spec(s))
}

proof fn lemma_trim_start_skip(s: Seq<char>, k: int)
    requires
        0 <= k <= s.len(),
        forall|q: int| 0 <= q < k ==> is_white(#[trigger] s[q]),
    ensures
        trim_start_spec(s) == trim_start_spec(s.subrange(k, s.len() as int)),
    decreases k,
{
    if k > 0 {
        assert(s.drop_first().subrange(k - 1, s.drop_first().len() as int) =~= s.subrange(k, s.len() as int));
        lemma_trim_start_skip(s.drop_first(), k - 1);
    } else {
        assert(s.subrange(0, s.len() as int) =~= s);
    }
}

proof fn lemma_trim_end_cut(s: Seq<char>, k: int)
    requires
        0 <= k <= s.len(),
        forall|q: int| k <= q < s.len() ==> is_white(#[trigger] s[q]),
    ensures
        trim_end_spec(s) == trim_end_spec(s.subrange(0, k)),
    decreases s.len() - k,
{
    if k < s.len() {
        assert(s.drop_last().subrange(0, k) =~= s.subrange(0, k));
        lemma_trim_end_cut(s.drop_last(), k);
    } else {
        assert(s.subrange(0, s.len() as int) =~= s);
    }
}

/// Bounds of `line[lo..hi]` without its leading and trailing white space.
pub fn trim_range(line: &Vec<char>, lo: usize, hi: usize) -> (r: (usize, usize))
    requires
        lo <= hi <= line@.len(),
    ensures
        lo <= r.0 <= r.1 <= hi,
        line@.subrange(r.0 as int, r.1 as int) == trim_spec(line@.subrange(lo as int, hi as int)),
{
    let ghost s = line@.subrange(lo as int, hi as int);
    let mut a: usize = lo;
    while a < hi && white(line[a])
        invariant
            lo <= a <= hi,
            hi <= line@.len(),
            forall|q: int| lo <= q < a ==> is_white(#[trigger] line@[q]),
        decreases hi - a,
    {
        a = a + 1;
    }
    proof {
        assert forall|q: int| 0 <= q < a - lo implies is_white(#[trigger] s[q]) by {
            assert(s[q] == line@[lo + q]);
        }
        lemma_trim_start_skip(s, a - lo);
        assert(s.subrange(a - lo, s.len() as int) =~= line@.subrange(a as int, hi as int));
    }
    let ghost rest = line@.subrange(a as int, hi as int);
    assert(a == hi || !is_white(rest[0]));
    assert(trim_start_spec(rest) == rest);
    let mut b: usize = hi;
    while b > a && white(line[b - 1])
        invariant
            a <= b <= hi,
            hi <= line@.len(),
            rest == line@.subrange(a as int, hi as int),
            forall|q: int| b <= q < hi ==> is_white(#[trigger] line@[q]),
        decreases b,
    {
        b = b - 1;
    }
    proof {
        assert forall|q: int| b - a <= q < rest.len() implies is_white(#[trigger] rest[q]) by {
            assert(rest[q] == line@[a + q]);
        }
        lemma_trim_end_cut(rest, b - a);
        let cut = rest.subrange(0, b - a);
        assert(cut =~= line@.subrange(a as int, b as int));
        if cut.len() > 0 {
            assert(cut.last() == line@[b - 1]);
        }
        assert(trim_end_spec(cut) == cut);
    }
    (a, b)
}

/// A copy of `line[lo..hi]`.
pub fn copy_range(line: &Vec<char>, lo: usize, hi: usize) -> (r: Vec<char>)
    requires
        lo <= hi <= line@.len(),
    ensures
        r@ == line@.subrange(lo as int, hi as int),
{
    let mut r: Vec<char> = Vec::new();
    let mut k = lo;
    while k < hi
        invariant
            lo <= k <= hi,
            hi <= line@.len(),
            r@ == line@.subrange(lo as int, k as int),
        decreases hi - k,
    {
        r.push(line[k]);
        k = k + 1;
        assert(r@ =~= line@.subrange(lo as int, k as int));
    }
    r
}

/// Bounds `lo..hi` of `line` without its leading and trailing white space.
pub fn trim_bounds(line: &Vec<char>) -> (r: (usize, usize))
    ensures
        r.0 <= r.1 <= line@.len(),
        line@.subrange(r.0 as int, r.1 as int) == trim_spec(line@),
{
    let n = line.len();
    let mut lo: usize = 0;
    while lo < n && white(line[lo])
        invariant
            lo <= n,
            n == line@.len(),
            forall|q: int| 0 <= q < lo ==> is_white(#[trigger] line@[q]),
        decreases n - lo,
    {
        lo = lo + 1;
    }
    proof {
        lemma_trim_start_skip(line@, lo as int);
    }
    let ghost rest = line@.subrange(lo as int, n as int);
    assert(lo == n || !is_white(rest[0]));
    assert(trim_start_spec(rest) == rest);
    let mut hi: usize = n;
    while hi > lo && white(line[hi - 1])
        invariant
            lo <= hi <= n,
            n == line@.len(),
            rest == line@.subrange(lo as int, n as int),
            forall|q: int| hi <= q < n ==> is_white(#[trigger] line@[q]),
        decreases hi,
    {
        hi = hi - 1;
    }
    proof {
        assert forall|q: int| hi - lo <= q < rest.len() implies is_white(#[trigger] rest[q]) by {
            assert(rest[q] == line@[lo + q]);
        }
        lemma_trim_end_cut(rest, hi - lo);
        let cut = rest.subrange(0, hi - lo);
        assert(cut =~= line@.subrange(lo as int, hi as int));
        if cut.len() > 0 {
            assert(cut.last() == line@[hi - 1]);
        }
        assert(trim_end_spec(cut) == cut);
    }
    (lo, hi)
}

/// The text split at every line feed, each piece without its line feed.
pub open spec fn lines_spec(s: Seq<char>) -> Seq<Seq<char>>
    decreases s.len(),
{
    if s.len() == 0 {
        seq![Seq::empty()]
    } else {
        let init = lines_spec(s.drop_last());
        if s.last() == '\n' {
            init.push(Seq::empty())
        } else {
            init.update(init.len() - 1, init.last().push(s.last()))
        }
    }
}

proof fn lemma_lines_nonempty(s: Seq<char>)
    ensures
        lines_spec(s).len() >= 1,
    decreases s.len(),
{
    if s.len() > 0 {
        lemma_lines_nonempty(s.drop_last());
    }
}

/// The characters of `s`.
pub fn chars_of(s: &str) -> (v: Vec<char>)
    ensures
        v@ == s@,
{
    broadcast use vstd::string::axiom_spec_iter, vstd::string::next_postcondition;

    let mut v: Vec<char> = Vec::new();
    let mut it = s.chars();
    loop
        invariant
            v@ + it.remaining() == s@,
            it.obeys_prophetic_iter_laws(),
        ensures
            v@ == s@,
        decreases s@.len() - v@.len(),
    {
        let ghost before = it.remaining();
        match it.next() {
            Some(c) => {
                assert(before.len() > 0);
                assert(v@.push(c) + it.remaining() =~= v@ + before);
                v.push(c);
            },
            None => {
                assert(before.len() == 0);
                assert(v@ =~= s@);
                break;
            },
        }
    }
    v
}

/// Whether `s` begins with `p`.
pub open spec fn starts_with(s: Seq<char>, p: Seq<char>) -> bool {
    p.len() <= s.len() && s.subrange(0, p.len() as int) == p
}

/// Whether `line[lo..hi]` begins with `p`.
pub fn has_prefix(line: &Vec<char>, lo: usize, hi: usize, p: &[char]) -> (r: bool)
    requires
        lo <= hi <= line@.len(),
    ensures
        r == starts_with(line@.subrange(lo as int, hi as int), p@),
{
    if p.len() > hi - lo {
        return false;
    }
    let mut k: usize = 0;
    while k < p.len()
        invariant
            k <= p@.len(),
            p@.len() <= hi - lo,
            hi <= line@.len(),
            forall|q: int| 0 <= q < k ==> line@[lo + q] == p@[q],
        decreases p@.len() - k,
    {
        if line[lo + k] != p[k] {
            assert(line@.subrange(lo as int, hi as int).subrange(0, p@.len() as int)[k as int] != p@[k as int]);
            return false;
        }
        k = k + 1;
    }
    assert(line@.subrange(lo as int, hi as int).subrange(0, p@.len() as int) =~= p@);
    true
}

/// Whether `c` is an ASCII decimal digit.
pub open spec fn is_digit(c: char) -> bool {
    '0' <= c && c <= '9'
}

/// Every character of `s` is a decimal digit, and there is at least one.
pub open spec fn all_digits(s: Seq<char>) -> bool {
    s.len() > 0 && forall|q: int| 0 <= q < s.len() ==> is_digit(#[trigger] s[q])
}

/// The number that the decimal digits `s` spell.
pub open spec fn digits_value(s: Seq<char>) -> nat
    decreases s.len(),
{
    if s.len() == 0 {
        0
    } else {
        10 * digits_value(s.drop_last()) + ((s.last() as u32) - ('0' as u32)) as nat
    }
}

/// The integer that `s` spells as `i64::from_str` reads it: an optional `+`
/// or `-`, then decimal digits only, within the range of `i64`.
pub open spec fn parse_i64_spec(s: Seq<char>) -> Option<int> {
    if s.len() > 0 && s[0] == '-' && all_digits(s.drop_first()) {
        if digits_value(s.drop_first()) <= 0x8000_0000_0000_0000 {
            Some(-(digits_value(s.drop_first()) as int))
        } else {
            None
        }
    } else if s.len() > 0 && s[0] == '+' && all_digits(s.drop_first()) {
        if digits_value(s.drop_first()) <= 0x7fff_ffff_ffff_ffff {
            Some(digits_value(s.drop_first()) as int)
        } else {
            None
        }
    } else if all_digits(s) {
        if digits_value(s) <= 0x7fff_ffff_ffff_ffff {
            Some(digits_value(s) as int)
        } else {
            None
        }
    } else {
        None
    }
}

/// Reads the digits `line[lo..hi]`: `Some(value)` while the value stays at
/// most 2^63, `None` for anything else (a non-digit, no digit, or a larger
/// value).
fn digits_upto(line: &Vec<char>, lo: usize, hi: usize) -> (r: Option<u64>)
    requires
        lo <= hi <= line@.len(),
    ensures
        match r {
            Some(v) => all_digits(line@.subrange(lo as int, hi as int)) && v == digits_value(
                line@.subrange(lo as int, hi as int),
            ) && v <= 0x8000_0000_0000_0000,
            None => !all_digits(line@.subrange(lo as int, hi as int)) || digits_value(
                line@.subrange(lo as int, hi as int),
            ) > 0x8000_0000_0000_0000,
        },
{
    if lo == hi {
        return None;
    }
    let mut acc: u64 = 0;
    let mut k = lo;
    while k < hi
        invariant
            lo <= k <= hi,
            hi <= line@.len(),
            forall|q: int| lo <= q < k ==> is_digit(#[trigger] line@[q]),
            acc == digits_value(line@.subrange(lo as int, k as int)),
            acc <= 0x8000_0000_0000_0000,
        decreases hi - k,
    {
        let c = line[k];
        let ghost pre = line@.subrange(lo as int, k as int);
        let ghost post = line@.subrange(lo as int, k + 1);
        assert(post.drop_last() =~= pre);
        assert(post.last() == c);
        if !('0' <= c && c <= '9') {
            assert(!is_digit(line@.subrange(lo as int, hi as int)[k - lo]));
            return None;
        }
        let d = (c as u32 - '0' as u32) as u64;
        if acc > (0x8000_0000_0000_0000u64 - d) / 10 {
            proof {
                assert(digits_value(post) > 0x8000_0000_0000_0000);
                let t = line@.subrange(lo as int, hi as int);
                if all_digits(t) {
                    lemma_digits_grow(t, k + 1 - lo);
                    assert(t.subrange(0, k + 1 - lo) =~= post);
                }
            }
            return None;
        }
        acc = acc * 10 + d;
        k = k + 1;
    }
    assert(line@.subrange(lo as int, k as int) =~= line@.subrange(lo as int, hi as int));
    Some(acc)
}

/// Appending digits never makes the value smaller.
proof fn lemma_digits_grow(s: Seq<char>, k: int)
    requires
        0 <= k <= s.len(),
        all_digits(s) || s.len() == 0,
    ensures
        digits_value(s.subrange(0, k)) <= digits_value(s),
    decreases s.len() - k,
{
    if k < s.len() {
        assert(is_digit(s.last()));
        if s.drop_last().len() > 0 {
            assert forall|q: int| 0 <= q < s.drop_last().len() implies is_digit(#[trigger] s.drop_last()[q]) by {
                assert(s.drop_last()[q] == s[q]);
            }
        }
        lemma_digits_grow(s.drop_last(), k);
        assert(s.drop_last().subrange(0, k) =~= s.subrange(0, k));
    } else {
        assert(s.subrange(0, k) =~= s);
    }
}

/// Reads `line[lo..hi]` as `i64::from_str` does.
pub fn parse_i64(line: &Vec<char>, lo: usize, hi: usize) -> (r: Option<i64>)
    requires
        lo <= hi <= line@.len(),
    ensures
        match parse_i64_spec(line@.subrange(lo as int, hi as int)) {
            Some(v) => r == Some(v as i64) && i64::MIN <= v <= i64::MAX,
            None => r is None,
        },
{
    let ghost t = line@.subrange(lo as int, hi as int);
    if lo < hi && line[lo] == '-' {
        assert(t[0] == '-');
        assert(t.drop_first() =~= line@.subrange(lo + 1, hi as int));
        match digits_upto(line, lo + 1, hi) {
            Some(v) => {
                if v == 0x8000_0000_0000_0000u64 {
                    return Some(i64::MIN);
                }
                return Some(-(v as i64));
            },
            None => {
                return None;
            },
        }
    }
    if lo < hi && line[lo] == '+' {
        assert(t[0] == '+');
        assert(t.drop_first() =~= line@.subrange(lo + 1, hi as int));
        match digits_upto(line, lo + 1, hi) {
            Some(v) => {
                if v <= 0x7fff_ffff_ffff_ffffu64 {
                    return Some(v as i64);
                }
                return None;
            },
            None => {
                return None;
            },
        }
    }
    proof {
        if t.len() > 0 {
            assert(t[0] == line@[lo as int]);
            if all_digits(t) {
                assert(is_digit(t[0]));
            }
        }
    }
    match digits_upto(line, lo, hi) {
        Some(v) => {
            if v <= 0x7fff_ffff_ffff_ffffu64 {
                Some(v as i64)
            } else {
                None
            }
        },
        None => None,
    }
}

/// Splits the text at every line feed (see [`lines_spec`]).
pub fn split_lines(text: &Vec<char>) -> (lines: Vec<Vec<char>>)
    ensures
        lines@.len() == lines_spec(text@).len(),
        forall|i: int| 0 <= i < lines@.len() ==> (#[trigger] lines@[i])@ == lines_spec(text@)[i],
{
    let mut lines: Vec<Vec<char>> = Vec::new();
    let mut line: Vec<char> = Vec::new();
    let mut k: usize = 0;
    assert(text@.take(0) =~= Seq::<char>::empty());
    while k < text.len()
        invariant
            k <= text@.len(),
            lines@.len() + 1 == lines_spec(text@.take(k as int)).len(),
            forall|i: int| 0 <= i < lines@.len() ==> (#[trigger] lines@[i])@ == lines_spec(text@.take(k as int))[i],
            line@ == lines_spec(text@.take(k as int)).last(),
        decreases text@.len() - k,
    {
        let c = text[k];
        assert(text@.take(k + 1).drop_last() =~= text@.take(k as int));
        assert(text@.take(k + 1).last() == c);
        proof {
            lemma_lines_nonempty(text@.take(k as int));
        }
        if c == '\n' {
            let done = line;
            lines.push(done);
            line = Vec::new();
        } else {
            line.push(c);
        }
        k = k + 1;
    }
    assert(text@.take(k as int) =~= text@);
    lines.push(line);
    lines
}

/// Words of `s` so far, and the word being read, scanning left to right:
/// white space ends a word.
pub open spec fn scan_words(s: Seq<char>) -> (Seq<Seq<char>>, Seq<char>)
    decreases s.len(),
{
    if s.len() == 0 {
        (Seq::empty(), Seq::empty())
    } else {
        let prev = scan_words(s.drop_last());
        let c = s.last();
        if is_white(c) {
            if prev.1.len() > 0 {
                (prev.0.push(prev.1), Seq::empty())
            } else {
                (prev.0, Seq::empty())
            }
        } else {
            (prev.0, prev.1.push(c))
        }
    }
}

/// The non-empty runs of non-white characters of `s` (`str::split_whitespace`).
pub open spec fn words_spec(s: Seq<char>) -> Seq<Seq<char>> {
    let w = scan_words(s);
    if w.1.len() > 0 {
        w.0.push(w.1)
    } else {
        w.0
    }
}

/// The words of `line[lo..hi]`.
pub fn words(line: &Vec<char>, lo: usize, hi: usize) -> (ws: Vec<Vec<char>>)
    requires
        lo <= hi <= line@.len(),
    ensures
        ws@.len() == words_spec(line@.subrange(lo as int, hi as int)).len(),
        forall|i: int|
            0 <= i < ws@.len() ==> (#[trigger] ws@[i])@ == words_spec(line@.subrange(lo as int, hi as int))[i],
{
    let ghost t = line@.subrange(lo as int, hi as int);
    let mut ws: Vec<Vec<char>> = Vec::new();
    let mut cur: Vec<char> = Vec::new();
    let mut k = lo;
    assert(line@.subrange(lo as int, lo as int) =~= Seq::<char>::empty());
    while k < hi
        invariant
            lo <= k <= hi,
            hi <= line@.len(),
            ws@.len() == scan_words(line@.subrange(lo as int, k as int)).0.len(),
            forall|i: int| 0 <= i < ws@.len() ==> (#[trigger] ws@[i])@ == scan_words(line@.subrange(lo as int, k as int)).0[i],
            cur@ == scan_words(line@.subrange(lo as int, k as int)).1,
        decreases hi - k,
    {
        let c = line[k];
        assert(line@.subrange(lo as int, k + 1).drop_last() =~= line@.subrange(lo as int, k as int));
        assert(line@.subrange(lo as int, k + 1).last() == c);
        if white(c) {
            if cur.len() > 0 {
                let done = cur;
                ws.push(done);
            }
            cur = Vec::new();
        } else {
            cur.push(c);
        }
        k = k + 1;
    }
    assert(line@.subrange(lo as int, k as int) =~= t);
    if cur.len() > 0 {
        ws.push(cur);
    }
    ws
}

/// Position of the first entry of `s` satisfying `f`, or the length of `s`.
pub open spec fn first_where(s: Seq<char>, f: spec_fn(char) -> bool) -> int
    decreases s.len(),
{
    if s.len() == 0 {
        0
    } else if f(s[0]) {
        0
    } else {
        1 + first_where(s.drop_first(), f)
    }
}

/// The piece of `s` after its first `:` and before the next one, if `s`
/// holds a `:` (`s.split(':').nth(1)`).
pub open spec fn colon_field(s: Seq<char>) -> Option<Seq<char>> {
    let p = first_where(s, |c: char| c == ':');
    if p == s.len() {
        None
    } else {
        let rest = s.subrange(p + 1, s.len() as int);
        Some(rest.subrange(0, first_where(rest, |c: char| c == ':')))
    }
}

/// `first_where` finds the first entry that satisfies the predicate.
pub proof fn lemma_first_where(s: Seq<char>, f: spec_fn(char) -> bool, k: int)
    requires
        0 <= k <= s.len(),
        k < s.len() ==> f(s[k]),
        forall|q: int| 0 <= q < k ==> !f(#[trigger] s[q]),
    ensures
        first_where(s, f) == k,
    decreases k,
{
    if k > 0 {
        assert(!f(s[0]));
        lemma_first_where(s.drop_first(), f, k - 1);
    } else if s.len() > 0 {
    }
}

/// Position of the first `c` in `line[lo..hi]`, or `hi`.
fn find_char(line: &Vec<char>, lo: usize, hi: usize, c: char) -> (p: usize)
    requires
        lo <= hi <= line@.len(),
    ensures
        lo <= p <= hi,
        p - lo == first_where(line@.subrange(lo as int, hi as int), |x: char| x == c),
        p < hi ==> line@[p as int] == c,
{
    let mut p = lo;
    while p < hi && line[p] != c
        invariant
            lo <= p <= hi,
            hi <= line@.len(),
            forall|q: int| lo <= q < p ==> line@[q] != c,
        decreases hi - p,
    {
        p = p + 1;
    }
    proof {
        let s = line@.subrange(lo as int, hi as int);
        assert forall|q: int| 0 <= q < p - lo implies !((|x: char| x == c)(#[trigger] s[q])) by {
            assert(s[q] == line@[lo + q]);
        }
        lemma_first_where(s, |x: char| x == c, p - lo);
    }
    p
}

/// Bounds of the field after the first `:` of `line[lo..hi]` (see
/// [`colon_field`]), if there is a `:`.
pub fn colon_field_bounds(line: &Vec<char>, lo: usize, hi: usize) -> (r: Option<(usize, usize)>)
    requires
        lo <= hi <= line@.len(),
    ensures
        match colon_field(line@.subrange(lo as int, hi as int)) {
            Some(f) => r matches Some(b) && lo <= b.0 <= b.1 <= hi && line@.subrange(b.0 as int, b.1 as int) == f,
            None => r is None,
        },
{
    let p = find_char(line, lo, hi, ':');
    if p == hi {
        return None;
    }
    let q = find_char(line, p + 1, hi, ':');
    proof {
        let s = line@.subrange(lo as int, hi as int);
        let rest = s.subrange(p - lo + 1, s.len() as int);
        assert(rest =~= line@.subrange(p + 1, hi as int));
        assert(rest.subrange(0, q - p - 1) =~= line@.subrange(p + 1, q as int));
    }
    Some((p + 1, q))
}

/// The count that `s` spells as `usize::from_str` reads it: an optional `+`,
/// then decimal digits only, within the range of `usize`.
pub open spec fn parse_usize_spec(s: Seq<char>) -> Option<nat> {
    let digits = if s.len() > 0 && s[0] == '+' {
        s.drop_first()
    } else {
        s
    };
    if all_digits(digits) && digits_value(digits) <= usize::MAX {
        Some(digits_value(digits))
    } else {
        None
    }
}

/// Appending digits never makes the value smaller.
pub proof fn lemma_digits_prefix(s: Seq<char>, k: int)
    requires
        0 <= k <= s.len(),
        all_digits(s),
    ensures
        digits_value(s.subrange(0, k)) <= digits_value(s),
{
    lemma_digits_grow(s, k);
}

/// Reads `line[lo..hi]` as `usize::from_str` does.
pub fn parse_usize(line: &Vec<char>, lo: usize, hi: usize) -> (r: Option<usize>)
    requires
        lo <= hi <= line@.len(),
    ensures
        match parse_usize_spec(line@.subrange(lo as int, hi as int)) {
            Some(v) => r == Some(v as usize),
            None => r is None,
        },
{
    let ghost s = line@.subrange(lo as int, hi as int);
    let start: usize = if lo < hi && line[lo] == '+' {
        lo + 1
    } else {
        lo
    };
    let ghost digits = line@.subrange(start as int, hi as int);
    proof {
        if start == lo + 1 {
            assert(s[0] == '+');
            assert(digits =~= s.drop_first());
        } else {
            assert(digits =~= s);
            if s.len() > 0 {
                assert(s[0] == line@[lo as int]);
            }
        }
    }
    if start == hi {
        return None;
    }
    let mut acc: usize = 0;
    let mut k = start;
    while k < hi
        invariant
            start <= k <= hi,
            hi <= line@.len(),
            digits == line@.subrange(start as int, hi as int),
            lo <= start,
            s == line@.subrange(lo as int, hi as int),
            digits == (if s.len() > 0 && s[0] == '+' { s.drop_first() } else { s }),
            forall|q: int| start <= q < k ==> is_digit(#[trigger] line@[q]),
            acc == digits_value(line@.subrange(start as int, k as int)),
        decreases hi - k,
    {
        let c = line[k];
        let ghost pre = line@.subrange(start as int, k as int);
        let ghost post = line@.subrange(start as int, k + 1);
        assert(post.drop_last() =~= pre);
        assert(post.last() == c);
        if !('0' <= c && c <= '9') {
            assert(!is_digit(digits[k - start]));
            assert(parse_usize_spec(s) is None);
            return None;
        }
        let d = (c as u32 - '0' as u32) as usize;
        if acc > (usize::MAX - d) / 10 {
            proof {
                assert(digits_value(post) > usize::MAX);
                if all_digits(digits) {
                    lemma_digits_grow(digits, k + 1 - start);
                    assert(digits.subrange(0, k + 1 - start) =~= post);
                }
                assert(parse_usize_spec(s) is None);
            }
            return None;
        }
        acc = acc * 10 + d;
        k = k + 1;
    }
    assert(line@.subrange(start as int, k as int) =~= digits);
    Some(acc)
}

/// `c` in lower case, for ASCII letters.
pub open spec fn ascii_lower(c: char) -> char {
    if 'A' <= c && c <= 'Z' {
        ((c as u32) + 32) as char
    } else {
        c
    }
}

/// `s` equals `word` (lower-case letters) ignoring ASCII case.
pub open spec fn equals_ignoring_case(s: Seq<char>, word: Seq<char>) -> bool {
    s.len() == word.len() && forall|q: int| 0 <= q < s.len() ==> ascii_lower(#[trigger] s[q]) == word[q]
}

/// Digits only, possibly none.
pub open spec fn digits_or_empty(s: Seq<char>) -> bool {
    forall|q: int| 0 <= q < s.len() ==> is_digit(#[trigger] s[q])
}

/// A mantissa: digits, with at most one `.` and at least one digit.
pub open spec fn is_mantissa(m: Seq<char>) -> bool {
    let d = first_where(m, |c: char| c == '.');
    if d == m.len() {
        all_digits(m)
    } else {
        digits_or_empty(m.subrange(0, d)) && digits_or_empty(m.subrange(d + 1, m.len() as int))
            && m.len() >= 2
    }
}

/// An unsigned decimal number with an optional exponent.
pub open spec fn is_decimal(b: Seq<char>) -> bool {
    let e = first_where(b, |c: char| c == 'e' || c == 'E');
    if e == b.len() {
        is_mantissa(b)
    } else {
        let ex = b.subrange(e + 1, b.len() as int);
        is_mantissa(b.subrange(0, e)) && (all_digits(ex) || (ex.len() > 0 && (ex[0] == '+' || ex[0]
            == '-') && all_digits(ex.drop_first())))
    }
}

/// Text that `f32::from_str` accepts: an optional sign, then `inf`,
/// `infinity`, `nan` (in any case) or a decimal number.
pub open spec fn is_float_text(s: Seq<char>) -> bool {
    let b = if s.len() > 0 && (s[0] == '+' || s[0] == '-') {
        s.drop_first()
    } else {
        s
    };
    equals_ignoring_case(b, seq!['i', 'n', 'f']) || equals_ignoring_case(
        b,
        seq!['i', 'n', 'f', 'i', 'n', 'i', 't', 'y'],
    ) || equals_ignoring_case(b, seq!['n', 'a', 'n']) || is_decimal(b)
}

/// Whether `line[lo..hi]` is made of digits only.
fn digits_only(line: &Vec<char>, lo: usize, hi: usize) -> (r: bool)
    requires
        lo <= hi <= line@.len(),
    ensures
        r == digits_or_empty(line@.subrange(lo as int, hi as int)),
{
    let mut k = lo;
    while k < hi
        invariant
            lo <= k <= hi,
            hi <= line@.len(),
            forall|q: int| lo <= q < k ==> is_digit(#[trigger] line@[q]),
        decreases hi - k,
    {
        let c = line[k];
        if !('0' <= c && c <= '9') {
            assert(!is_digit(line@.subrange(lo as int, hi as int)[k - lo]));
            return false;
        }
        k = k + 1;
    }
    assert forall|q: int| 0 <= q < hi - lo implies is_digit(#[trigger] line@.subrange(lo as int, hi as int)[q]) by {
        assert(line@.subrange(lo as int, hi as int)[q] == line@[lo + q]);
    }
    true
}

/// Whether `line[lo..hi]` equals the lower-case `word` ignoring ASCII case.
fn equals_word(line: &Vec<char>, lo: usize, hi: usize, word: &[char]) -> (r: bool)
    requires
        lo <= hi <= line@.len(),
    ensures
        r == equals_ignoring_case(line@.subrange(lo as int, hi as int), word@),
{
    if hi - lo != word.len() {
        return false;
    }
    let mut k: usize = 0;
    while k < word.len()
        invariant
            k <= word@.len(),
            hi - lo == word@.len(),
            hi <= line@.len(),
            forall|q: int| 0 <= q < k ==> ascii_lower(#[trigger] line@[lo + q]) == word@[q],
        decreases word@.len() - k,
    {
        let c = line[lo + k];
        let lc = if 'A' <= c && c <= 'Z' {
            ((c as u8) + 32) as char
        } else {
            c
        };
        if lc != word[k] {
            assert(ascii_lower(line@.subrange(lo as int, hi as int)[k as int]) != word@[k as int]);
            return false;
        }
        k = k + 1;
    }
    assert forall|q: int| 0 <= q < hi - lo implies ascii_lower(#[trigger] line@.subrange(lo as int, hi as int)[q]) == word@[q] by {
        assert(line@.subrange(lo as int, hi as int)[q] == line@[lo + q]);
    }
    true
}

/// Whether `line[lo..hi]` is a mantissa (see [`is_mantissa`]).
fn mantissa_at(line: &Vec<char>, lo: usize, hi: usize) -> (r: bool)
    requires
        lo <= hi <= line@.len(),
    ensures
        r == is_mantissa(line@.subrange(lo as int, hi as int)),
{
    let ghost m = line@.subrange(lo as int, hi as int);
    let d = find_char(line, lo, hi, '.');
    if d == hi {
        let r = lo < hi && digits_only(line, lo, hi);
        return r;
    }
    proof {
        assert(m.subrange(0, d - lo) =~= line@.subrange(lo as int, d as int));
        assert(m.subrange(d - lo + 1, m.len() as int) =~= line@.subrange(d + 1, hi as int));
    }
    digits_only(line, lo, d) && digits_only(line, d + 1, hi) && hi - lo >= 2
}

/// Position of the first `e` or `E` in `line[lo..hi]`, or `hi`.
fn find_exponent(line: &Vec<char>, lo: usize, hi: usize) -> (p: usize)
    requires
        lo <= hi <= line@.len(),
    ensures
        lo <= p <= hi,
        p - lo == first_where(line@.subrange(lo as int, hi as int), |c: char| c == 'e' || c == 'E'),
{
    let mut p = lo;
    while p < hi && line[p] != 'e' && line[p] != 'E'
        invariant
            lo <= p <= hi,
            hi <= line@.len(),
            forall|q: int| lo <= q < p ==> line@[q] != 'e' && line@[q] != 'E',
        decreases hi - p,
    {
        p = p + 1;
    }
    proof {
        let s = line@.subrange(lo as int, hi as int);
        let f = |c: char| c == 'e' || c == 'E';
        assert forall|q: int| 0 <= q < p - lo implies !f(#[trigger] s[q]) by {
            assert(s[q] == line@[lo + q]);
        }
        lemma_first_where(s, f, p - lo);
    }
    p
}

/// Whether `line[lo..hi]` is text that `f32::from_str` accepts (see
/// [`is_float_text`]).
pub fn float_text_at(line: &Vec<char>, lo: usize, hi: usize) -> (r: bool)
    requires
        lo <= hi <= line@.len(),
    ensures
        r == is_float_text(line@.subrange(lo as int, hi as int)),
{
    let ghost s = line@.subrange(lo as int, hi as int);
    let b = if lo < hi && (line[lo] == '+' || line[lo] == '-') {
        lo + 1
    } else {
        lo
    };
    let ghost body = line@.subrange(b as int, hi as int);
    proof {
        if b == lo + 1 {
            assert(body =~= s.drop_first());
        } else {
            assert(body =~= s);
            if s.len() > 0 {
                assert(s[0] == line@[lo as int]);
            }
        }
    }
    if equals_word(line, b, hi, &['i', 'n', 'f']) || equals_word(
        line,
        b,
        hi,
        &['i', 'n', 'f', 'i', 'n', 'i', 't', 'y'],
    ) || equals_word(line, b, hi, &['n', 'a', 'n']) {
        proof {
            assert(seq!['i', 'n', 'f'] =~= ['i', 'n', 'f']@);
            assert(seq!['i', 'n', 'f', 'i', 'n', 'i', 't', 'y'] =~= ['i', 'n', 'f', 'i', 'n', 'i', 't', 'y']@);
            assert(seq!['n', 'a', 'n'] =~= ['n', 'a', 'n']@);
        }
        return true;
    }
    proof {
        assert(seq!['i', 'n', 'f'] =~= ['i', 'n', 'f']@);
        assert(seq!['i', 'n', 'f', 'i', 'n', 'i', 't', 'y'] =~= ['i', 'n', 'f', 'i', 'n', 'i', 't', 'y']@);
        assert(seq!['n', 'a', 'n'] =~= ['n', 'a', 'n']@);
    }
    decimal_at(line, b, hi)
}

/// Whether `line[b..hi]` is an unsigned decimal number with an optional
/// exponent (see [`is_decimal`]).
fn decimal_at(line: &Vec<char>, b: usize, hi: usize) -> (r: bool)
    requires
        b <= hi <= line@.len(),
    ensures
        r == is_decimal(line@.subrange(b as int, hi as int)),
{
    let ghost body = line@.subrange(b as int, hi as int);
    let e = find_exponent(line, b, hi);
    if e == hi {
        return mantissa_at(line, b, hi);
    }
    proof {
        assert(body.subrange(0, e - b) =~= line@.subrange(b as int, e as int));
        let ex = body.subrange(e - b + 1, body.len() as int);
        assert(ex =~= line@.subrange(e + 1, hi as int));
        if ex.len() > 0 {
            assert(ex[0] == line@[e + 1]);
            assert(ex.drop_first() =~= line@.subrange(e + 2, hi as int));
        }
    }
    if !mantissa_at(line, b, e) {
        return false;
    }
    let ex_lo = e + 1;
    if ex_lo < hi && digits_only(line, ex_lo, hi) {
        return true;
    }
    if ex_lo < hi && (line[ex_lo] == '+' || line[ex_lo] == '-') {
        return ex_lo + 1 < hi && digits_only(line, ex_lo + 1, hi);
    }
    false
}

} // verus!
