//! The `key: value` text files in which calibrated parameters are stored:
//! blank lines and `#` comments are skipped, every other line is split at
//! its first `:` and both sides are trimmed; a key given twice takes its last
//! value.
use vstd::prelude::*;
use crate::text::{
    chars_of, copy_range, first_where, has_prefix, lines_spec, split_lines, starts_with, trim_range,
    trim_spec,
};

verus! {

broadcast use vstd::seq_lib::group_seq_properties;

/// The key and value that one line gives, if any.
pub open spec fn key_value_of(line: Seq<char>) -> Option<(Seq<char>, Seq<char>)> {
    let t = trim_spec(line);
    if t.len() == 0 || starts_with(t, seq!['#']) {
        None
    } else {
        let p = first_where(t, |c: char| c == ':');
        if p == t.len() {
            None
        } else {
            Some((trim_spec(t.subrange(0, p)), trim_spec(t.subrange(p + 1, t.len() as int))))
        }
    }
}

/// The pairs that the first `k` lines give, in order.
pub open spec fn key_values_spec(lines: Seq<Seq<char>>, k: nat) -> Seq<(Seq<char>, Seq<char>)>
    decreases k,
{
    if k == 0 {
        Seq::empty()
    } else {
        let prev = key_values_spec(lines, (k - 1) as nat);
        match key_value_of(lines[k - 1]) {
            Some(kv) => prev.push(kv),
            None => prev,
        }
    }
}

/// The value last given to `key` among the first `k` pairs.
pub open spec fn last_value_spec(pairs: Seq<(Seq<char>, Seq<char>)>, key: Seq<char>, k: nat) -> Option<Seq<char>>
    decreases k,
{
    if k == 0 {
        None
    } else if pairs[k - 1].0 == key {
        Some(pairs[k - 1].1)
    } else {
        last_value_spec(pairs, key, (k - 1) as nat)
    }
}

proof fn lemma_first_colon(t: Seq<char>)
    ensures
        0 <= first_where(t, |c: char| c == ':') <= t.len(),
        first_where(t, |c: char| c == ':') < t.len() ==> t[first_where(t, |c: char| c == ':')] == ':',
        forall|q: int| 0 <= q < first_where(t, |c: char| c == ':') ==> #[trigger] t[q] != ':',
    decreases t.len(),
{
    if t.len() > 0 && t[0] != ':' {
        lemma_first_colon(t.drop_first());
        let f = first_where(t.drop_first(), |c: char| c == ':');
        assert forall|q: int| 0 <= q < f + 1 implies #[trigger] t[q] != ':' by {
            if q > 0 {
                assert(t[q] == t.drop_first()[q - 1]);
            }
        }
    }
}

/// The pair that line `line` gives when its first `:` is at position `p` of
/// its trimmed text: that text is not empty, does not start with `#`, and
/// the pair is the trimmed texts before and after that colon.
pub open spec fn pair_at_colon(line: Seq<char>, p: int, pair: (Seq<char>, Seq<char>)) -> bool {
    let t = trim_spec(line);
    &&& 0 <= p < t.len()
    &&& t[0] != '#'
    &&& t[p] == ':'
    &&& forall|q: int| 0 <= q < p ==> t[q] != ':'
    &&& pair == (trim_spec(t.subrange(0, p)), trim_spec(t.subrange(p + 1, t.len() as int)))
}

/// `pair` is what one of the first `k` lines gives at its first colon.
pub open spec fn comes_from_line(lines: Seq<Seq<char>>, k: nat, pair: (Seq<char>, Seq<char>)) -> bool {
    exists|m: int, p: int| 0 <= m < k && #[trigger] pair_at_colon(lines[m], p, pair)
}

/// Every pair read from the first `k` lines comes from one of them whose
/// trimmed text is not empty, does not start with `#` and holds a `:`; the
/// key is the trimmed text before the first `:` and the value the trimmed
/// text after it.  Comment lines and lines without a colon give no pair.
pub proof fn lemma_pairs_come_from_lines(lines: Seq<Seq<char>>, k: nat)
    requires
        k <= lines.len(),
    ensures
        forall|i: int|
            0 <= i < key_values_spec(lines, k).len() ==> comes_from_line(
                lines,
                k,
                #[trigger] key_values_spec(lines, k)[i],
            ),
    decreases k,
{
    if k > 0 {
        lemma_pairs_come_from_lines(lines, (k - 1) as nat);
        let prev = key_values_spec(lines, (k - 1) as nat);
        let cur = key_values_spec(lines, k);
        let line = lines[k - 1];
        let t = trim_spec(line);
        lemma_first_colon(t);
        assert forall|i: int| 0 <= i < cur.len() implies comes_from_line(lines, k, #[trigger] cur[i]) by {
            if i < prev.len() {
                assert(cur[i] == prev[i]);
                assert(comes_from_line(lines, (k - 1) as nat, prev[i]));
                let (m, p) = choose|m: int, p: int| 0 <= m < k - 1 && #[trigger] pair_at_colon(lines[m], p, prev[i]);
                assert(pair_at_colon(lines[m], p, cur[i]));
            } else {
                let p = first_where(t, |c: char| c == ':');
                assert(key_value_of(line) is Some);
                assert(t[0] != '#') by {
                    if t[0] == '#' {
                        assert(t.subrange(0, 1) =~= seq!['#']);
                    }
                }
                assert(cur[i] == key_value_of(line)->0);
                assert(pair_at_colon(lines[k - 1], p, cur[i]));
            }
        }
    }
}

/// The `key: value` pairs of a parameter file, in order.
pub fn key_values(content: &str) -> (pairs: Vec<(Vec<char>, Vec<char>)>)
    ensures
        pairs@.len() == key_values_spec(lines_spec(content@), lines_spec(content@).len()).len(),
        forall|i: int|
            0 <= i < pairs@.len() ==> (#[trigger] pairs@[i]).0@ == key_values_spec(
                lines_spec(content@),
                lines_spec(content@).len(),
            )[i].0 && pairs@[i].1@ == key_values_spec(lines_spec(content@), lines_spec(content@).len())[i].1,
{
    let text = chars_of(content);
    let lines = split_lines(&text);
    let ghost all = lines_spec(content@);
    let mut pairs: Vec<(Vec<char>, Vec<char>)> = Vec::new();
    let mut k: usize = 0;
    while k < lines.len()
        invariant
            k <= lines@.len(),
            lines@.len() == all.len(),
            forall|i: int| 0 <= i < lines@.len() ==> (#[trigger] lines@[i])@ == all[i],
            pairs@.len() == key_values_spec(all, k as nat).len(),
            forall|i: int|
                0 <= i < pairs@.len() ==> (#[trigger] pairs@[i]).0@ == key_values_spec(all, k as nat)[i].0
                    && pairs@[i].1@ == key_values_spec(all, k as nat)[i].1,
        decreases lines@.len() - k,
    {
        let line = &lines[k];
        let n = line.len();
        let (lo, hi) = trim_range(line, 0, n);
        assert(line@.subrange(0, n as int) =~= line@);
        assert(seq!['#'] =~= ['#']@);
        let ghost t = line@.subrange(lo as int, hi as int);
        if lo < hi && !has_prefix(line, lo, hi, &['#']) {
            let mut p = lo;
            while p < hi && line[p] != ':'
                invariant
                    lo <= p <= hi,
                    hi <= line@.len(),
                    forall|q: int| lo <= q < p ==> line@[q] != ':',
                decreases hi - p,
            {
                p = p + 1;
            }
            proof {
                let f = |c: char| c == ':';
                assert forall|q: int| 0 <= q < p - lo implies !f(#[trigger] t[q]) by {
                    assert(t[q] == line@[lo + q]);
                }
                crate::text::lemma_first_where(t, f, p - lo);
            }
            if p < hi {
                let (ka, kb) = trim_range(line, lo, p);
                let (va, vb) = trim_range(line, p + 1, hi);
                let key = copy_range(line, ka, kb);
                let value = copy_range(line, va, vb);
                proof {
                    assert(t.subrange(0, p - lo) =~= line@.subrange(lo as int, p as int));
                    assert(t.subrange(p - lo + 1, t.len() as int) =~= line@.subrange(p + 1, hi as int));
                }
                let ghost before = pairs@;
                pairs.push((key, value));
                proof {
                    assert forall|i: int| 0 <= i < pairs@.len() implies (#[trigger] pairs@[i]).0@
                        == key_values_spec(all, (k + 1) as nat)[i].0 && pairs@[i].1@ == key_values_spec(
                        all,
                        (k + 1) as nat,
                    )[i].1 by {
                        if i < before.len() {
                            assert(pairs@[i] == before[i]);
                        }
                    }
                }
            }
        }
        k = k + 1;
    }
    pairs
}

/// The value last given to `key`, if any.
pub fn last_value(pairs: &Vec<(Vec<char>, Vec<char>)>, key: &[char]) -> (r: Option<Vec<char>>)
    ensures
        match last_value_spec(
            Seq::new(pairs@.len(), |i: int| (pairs@[i].0@, pairs@[i].1@)),
            key@,
            pairs@.len(),
        ) {
            Some(v) => r matches Some(x) && x@ == v,
            None => r is None,
        },
{
    let ghost ps = Seq::new(pairs@.len(), |i: int| (pairs@[i].0@, pairs@[i].1@));
    let mut k = pairs.len();
    while k > 0
        invariant
            k <= pairs@.len(),
            ps == Seq::new(pairs@.len(), |i: int| (pairs@[i].0@, pairs@[i].1@)),
            last_value_spec(ps, key@, pairs@.len()) == last_value_spec(ps, key@, k as nat),
        decreases k,
    {
        let entry = &pairs[k - 1];
        let klen = entry.0.len();
        let same = klen == key.len() && has_prefix(&entry.0, 0, klen, key);
        proof {
            assert(entry.0@.subrange(0, klen as int) =~= entry.0@);
            if same {
                assert(entry.0@ =~= key@);
            } else if klen == key.len() {
                assert(entry.0@ != key@);
            }
        }
        if same {
            let v = copy_range(&entry.1, 0, entry.1.len());
            assert(entry.1@.subrange(0, entry.1@.len() as int) =~= entry.1@);
            return Some(v);
        }
        k = k - 1;
    }
    None
}

} // verus!
