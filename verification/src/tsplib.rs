//! TSPLIB instance files (`EUC_2D`): the header fields and the coordinate
//! section, read line by line.  Coordinates stay as the text of the file,
//! checked to be numbers in the form `f32::from_str` accepts; converting them
//! is left to the caller.
use vstd::prelude::*;
use crate::text::{
    chars_of, colon_field, colon_field_bounds, float_text_at, has_prefix, is_float_text, lines_spec,
    parse_usize, parse_usize_spec, split_lines, starts_with, trim_range, trim_spec, words,
    words_spec,
};
use crate::tour::{identity_spec, is_tour, same_nodes};

verus! {

broadcast use vstd::seq_lib::group_seq_properties;

/// What the lines read so far say.
pub struct TsplibScan {
    pub name: Seq<char>,
    pub dimension: Option<nat>,
    pub entries: Seq<(nat, Seq<char>, Seq<char>)>,
    pub optimal: Option<Seq<char>>,
    pub in_section: bool,
}

/// The reading of one more line: blank lines and `#` comments are skipped;
/// `NAME`, `DIMENSION` and `OPTIMAL` set their field from the text after the
/// first `:` (a `DIMENSION` that is not a count, or an `OPTIMAL` that is not
/// a number, unsets it); `NODE_COORD_SECTION` and `EOF` open and close the
/// coordinate section; inside it, a line whose first three words are an
/// index and two numbers adds an entry.
pub open spec fn tsplib_step(st: TsplibScan, line: Seq<char>) -> TsplibScan {
    let t = trim_spec(line);
    if t.len() == 0 || starts_with(t, seq!['#']) {
        st
    } else if starts_with(t, seq!['N', 'A', 'M', 'E']) {
        TsplibScan {
            name: match colon_field(t) {
                Some(f) => trim_spec(f),
                None => Seq::empty(),
            },
            ..st
        }
    } else if starts_with(t, seq!['D', 'I', 'M', 'E', 'N', 'S', 'I', 'O', 'N']) {
        TsplibScan {
            dimension: match colon_field(t) {
                Some(f) => parse_usize_spec(trim_spec(f)),
                None => None,
            },
            ..st
        }
    } else if starts_with(t, seq!['O', 'P', 'T', 'I', 'M', 'A', 'L']) {
        TsplibScan {
            optimal: match colon_field(t) {
                Some(f) => if is_float_text(trim_spec(f)) {
                    Some(trim_spec(f))
                } else {
                    None
                },
                None => None,
            },
            ..st
        }
    } else if starts_with(
        t,
        seq!['E', 'D', 'G', 'E', '_', 'W', 'E', 'I', 'G', 'H', 'T', '_', 'T', 'Y', 'P', 'E'],
    ) {
        st
    } else if starts_with(
        t,
        seq!['N', 'O', 'D', 'E', '_', 'C', 'O', 'O', 'R', 'D', '_', 'S', 'E', 'C', 'T', 'I', 'O', 'N'],
    ) {
        TsplibScan { in_section: true, ..st }
    } else if starts_with(t, seq!['E', 'O', 'F']) {
        TsplibScan { in_section: false, ..st }
    } else if st.in_section {
        let w = words_spec(t);
        if w.len() >= 3 && parse_usize_spec(w[0]) is Some && is_float_text(w[1]) && is_float_text(
            w[2],
        ) {
            TsplibScan {
                entries: st.entries.push((parse_usize_spec(w[0])->0, w[1], w[2])),
                ..st
            }
        } else {
            st
        }
    } else {
        st
    }
}

/// The reading of the first `k` lines.
pub open spec fn tsplib_scan(lines: Seq<Seq<char>>, k: nat) -> TsplibScan
    decreases k,
{
    if k == 0 {
        TsplibScan {
            name: Seq::empty(),
            dimension: None,
            entries: Seq::empty(),
            optimal: None,
            in_section: false,
        }
    } else {
        tsplib_step(tsplib_scan(lines, (k - 1) as nat), lines[k - 1])
    }
}

/// `line` is a coordinate line that writes node index `e.0` as its first
/// word and the coordinate texts `e.1`, `e.2` as its next two.
pub open spec fn writes_entry(line: Seq<char>, e: (nat, Seq<char>, Seq<char>)) -> bool {
    let w = words_spec(trim_spec(line));
    &&& w.len() >= 3
    &&& parse_usize_spec(w[0]) == Some(e.0)
    &&& w[1] == e.1
    &&& w[2] == e.2
}

/// One of the first `k` lines writes entry `e`.
pub open spec fn written_in(lines: Seq<Seq<char>>, k: nat, e: (nat, Seq<char>, Seq<char>)) -> bool {
    exists|m: int| 0 <= m < k && #[trigger] writes_entry(lines[m], e)
}

/// Every coordinate entry read from the first `k` lines is written in one
/// of them: its key is the whole node index that the line's first word
/// spells, and its coordinates are the line's next two words.
pub proof fn lemma_entries_are_written(lines: Seq<Seq<char>>, k: nat)
    requires
        k <= lines.len(),
    ensures
        forall|i: int|
            0 <= i < tsplib_scan(lines, k).entries.len() ==> written_in(
                lines,
                k,
                #[trigger] tsplib_scan(lines, k).entries[i],
            ),
    decreases k,
{
    if k > 0 {
        lemma_entries_are_written(lines, (k - 1) as nat);
        let prev = tsplib_scan(lines, (k - 1) as nat);
        let cur = tsplib_scan(lines, k);
        assert(cur == tsplib_step(prev, lines[k - 1]));
        assert forall|i: int| 0 <= i < cur.entries.len() implies written_in(lines, k, #[trigger] cur.entries[i]) by {
            if i < prev.entries.len() {
                assert(cur.entries[i] == prev.entries[i]);
                assert(written_in(lines, (k - 1) as nat, prev.entries[i]));
                let m = choose|m: int| 0 <= m < k - 1 && #[trigger] writes_entry(lines[m], prev.entries[i]);
                assert(writes_entry(lines[m], cur.entries[i]));
            } else {
                assert(writes_entry(lines[k - 1], cur.entries[i]));
            }
        }
    }
}

proof fn lemma_increasing_from(order: Seq<usize>, i: int)
    requires
        0 <= i < order.len(),
        forall|a: int, b: int| 0 <= a < b < order.len() ==> order[a] < order[b],
    ensures
        order[i] >= i,
    decreases i,
{
    if i > 0 {
        lemma_increasing_from(order, i - 1);
    }
}

proof fn lemma_increasing_to(order: Seq<usize>, i: int)
    requires
        0 <= i < order.len(),
        forall|a: int, b: int| 0 <= a < b < order.len() ==> order[a] < order[b],
        forall|a: int| 0 <= a < order.len() ==> order[a] < order.len(),
    ensures
        order[i] <= i,
    decreases order.len() - i,
{
    if i + 1 < order.len() {
        lemma_increasing_to(order, i + 1);
    }
}

/// When the file lists its node indices in increasing order (equal ones
/// allowed), the stable order by index keeps the file order: the
/// coordinates come back as the file lists them.
pub proof fn lemma_sorted_indices_keep_file_order(keys: Seq<usize>, order: Seq<usize>)
    requires
        forall|a: int, b: int| 0 <= a < b < keys.len() ==> keys[a] <= keys[b],
        is_stable_order(keys, order),
    ensures
        forall|i: int| 0 <= i < order.len() ==> #[trigger] order[i] == i,
{
    assert forall|a: int, b: int| 0 <= a < b < order.len() implies order[a] < order[b] by {
        assert(entry_before(keys, order[a], order[b]));
        assert(order[a] != order[b]) by {
            assert(order.no_duplicates());
        }
        if order[a] > order[b] {
            assert(keys[order[b] as int] <= keys[order[a] as int]);
        }
    }
    assert forall|i: int| 0 <= i < order.len() implies #[trigger] order[i] == i by {
        lemma_increasing_from(order, i);
        lemma_increasing_to(order, i);
    }
}

/// Why a TSPLIB file was refused.
#[derive(Copy, Clone, PartialEq, Eq, Debug)]
pub enum TsplibError {
    /// No valid `DIMENSION` line.
    MissingDimension,
    /// The coordinate section lists `found` nodes, not `expected`.
    CountMismatch { found: usize, expected: usize },
}

/// A TSPLIB instance as its file states it.
pub struct TspText {
    pub name: Vec<char>,
    pub dimension: usize,
    /// The coordinates of the nodes, ordered by their index in the file
    /// (nodes with equal indices in file order).
    pub coords: Vec<(Vec<char>, Vec<char>)>,
    /// The text of the `OPTIMAL` field, when it is a number.
    pub optimal: Option<Vec<char>>,
}

/// Entry `a` comes before entry `b`: by index, then by file order.
pub open spec fn entry_before(keys: Seq<usize>, a: usize, b: usize) -> bool {
    keys[a as int] < keys[b as int] || (keys[a as int] == keys[b as int] && a < b)
}

/// `order` lists the positions `0..keys.len()` once each, sorted by
/// (key, position) - a stable sort by key.
pub open spec fn is_stable_order(keys: Seq<usize>, order: Seq<usize>) -> bool {
    &&& is_tour(order, keys.len())
    &&& forall|i: int, j: int| 0 <= i < j < order.len() ==> entry_before(keys, order[i], order[j])
}

/// Positions `0..keys.len()` in stable order of their keys.
pub fn stable_order(keys: &Vec<usize>) -> (order: Vec<usize>)
    ensures
        is_stable_order(keys@, order@),
{
    broadcast use vstd::seq_lib::group_to_multiset_ensures;
    broadcast use vstd::multiset::group_multiset_axioms;

    let m = keys.len();
    let mut order: Vec<usize> = Vec::new();
    let mut k: usize = 0;
    while k < m
        invariant
            k <= m,
            m == keys@.len(),
            order@ == identity_spec(k as nat),
        decreases m - k,
    {
        order.push(k);
        k = k + 1;
        assert(order@ =~= identity_spec(k as nat));
    }
    let ghost start = order@;
    let mut i: usize = 0;
    while i < m
        invariant
            i <= m,
            m == keys@.len(),
            order@.len() == m,
            same_nodes(order@, start),
            start == identity_spec(m as nat),
            forall|q: int| 0 <= q < m ==> #[trigger] order@[q] < m,
            forall|a: int, b: int|
                0 <= a < b < i ==> !entry_before(keys@, order@[b], order@[a]),
        decreases m - i,
    {
        let mut j = i;
        while j > 0 && (keys[order[j - 1]] > keys[order[j]] || (keys[order[j - 1]] == keys[order[j]]
            && order[j - 1] > order[j]))
            invariant
                j <= i < m,
                m == keys@.len(),
                order@.len() == m,
                same_nodes(order@, start),
                forall|q: int| 0 <= q < m ==> #[trigger] order@[q] < m,
                forall|a: int, b: int|
                    0 <= a < b <= i && a != j && b != j ==> !entry_before(keys@, order@[b], order@[a]),
                forall|b: int| j < b <= i ==> entry_before(keys@, order@[j as int], #[trigger] order@[b]),
            decreases j,
        {
            let x = order[j - 1];
            let y = order[j];
            let ghost before = order@;
            order.set(j - 1, y);
            order.set(j, x);
            proof {
                assert(order@ == before.update(j - 1, y).update(j as int, x));
                assert(before.update(j - 1, y).to_multiset() == before.to_multiset().insert(y).remove(x));
                assert(order@.to_multiset() == before.update(j - 1, y).to_multiset().insert(x).remove(y));
                assert(order@.to_multiset() =~= before.to_multiset());
            }
            j = j - 1;
        }
        proof {
            assert forall|a: int, b: int| 0 <= a < b < i + 1 implies !entry_before(keys@, order@[b], order@[a]) by {
                if b == j as int {
                    if j > 0 {
                        assert(!entry_before(keys@, order@[j as int], order@[j - 1]));
                        if a < j - 1 {
                            assert(!entry_before(keys@, order@[j - 1], order@[a]));
                        }
                    }
                } else if a == j as int {
                    assert(entry_before(keys@, order@[j as int], order@[b]));
                }
            }
        }
        i = i + 1;
    }
    proof {
        crate::tour::lemma_identity_is_tour(m as nat);
        start.lemma_multiset_has_no_duplicates();
        order@.lemma_multiset_has_no_duplicates_conv();
        assert forall|a: int, b: int| 0 <= a < b < order@.len() implies entry_before(keys@, order@[a], order@[b]) by {
            assert(!entry_before(keys@, order@[b], order@[a]));
            assert(order@[a] != order@[b]);
        }
        assert forall|v: usize| v < m implies #[trigger] order@.contains(v) by {
            assert(start[v as int] == v);
            assert(start.to_multiset().count(v) > 0);
            assert(order@.to_multiset().count(v) > 0);
        }
        crate::tour::lemma_cover_is_tour(order@, m as nat);
    }
    order
}

/// The indices of the entries, in file order.
pub open spec fn entry_keys(entries: Seq<(nat, Seq<char>, Seq<char>)>) -> Seq<usize> {
    Seq::new(entries.len(), |i: int| entries[i].0 as usize)
}

/// A scan in progress, in executable form.
pub struct Reading {
    pub name: Vec<char>,
    pub dimension: Option<usize>,
    pub entries: Vec<(usize, Vec<char>, Vec<char>)>,
    pub optimal: Option<Vec<char>>,
    pub in_section: bool,
}

/// The scan that a [`Reading`] stands for.
pub open spec fn reading_view(r: Reading) -> TsplibScan {
    TsplibScan {
        name: r.name@,
        dimension: match r.dimension {
            Some(d) => Some(d as nat),
            None => None,
        },
        entries: Seq::new(
            r.entries@.len(),
            |i: int| (r.entries@[i].0 as nat, r.entries@[i].1@, r.entries@[i].2@),
        ),
        optimal: match r.optimal {
            Some(o) => Some(o@),
            None => None,
        },
        in_section: r.in_section,
    }
}

proof fn lemma_seq_lits()
    ensures
        seq!['#'] =~= ['#']@,
        seq!['N', 'A', 'M', 'E'] =~= ['N', 'A', 'M', 'E']@,
        seq!['D', 'I', 'M', 'E', 'N', 'S', 'I', 'O', 'N'] =~= ['D', 'I', 'M', 'E', 'N', 'S', 'I', 'O', 'N']@,
        seq!['O', 'P', 'T', 'I', 'M', 'A', 'L'] =~= ['O', 'P', 'T', 'I', 'M', 'A', 'L']@,
        seq!['E', 'D', 'G', 'E', '_', 'W', 'E', 'I', 'G', 'H', 'T', '_', 'T', 'Y', 'P', 'E']
            =~= ['E', 'D', 'G', 'E', '_', 'W', 'E', 'I', 'G', 'H', 'T', '_', 'T', 'Y', 'P', 'E']@,
        seq!['N', 'O', 'D', 'E', '_', 'C', 'O', 'O', 'R', 'D', '_', 'S', 'E', 'C', 'T', 'I', 'O', 'N']
            =~= ['N', 'O', 'D', 'E', '_', 'C', 'O', 'O', 'R', 'D', '_', 'S', 'E', 'C', 'T', 'I', 'O', 'N']@,
        seq!['E', 'O', 'F'] =~= ['E', 'O', 'F']@,
{
}

/// Reads one more line into the scan (see [`tsplib_step`]).
fn read_line(r: &mut Reading, line: &Vec<char>)
    ensures
        reading_view(*final(r)) =~~= tsplib_step(reading_view(*old(r)), line@),
{
    proof {
        lemma_seq_lits();
    }
    let ghost before = reading_view(*r);
    let n = line.len();
    let (lo, hi) = trim_range(line, 0, n);
    assert(line@.subrange(0, n as int) =~= line@);
    let ghost t = line@.subrange(lo as int, hi as int);
    if lo == hi || has_prefix(line, lo, hi, &['#']) {
        return ;
    }
    if has_prefix(line, lo, hi, &['N', 'A', 'M', 'E']) {
        match colon_field_bounds(line, lo, hi) {
            Some((a, b)) => {
                let (x, y) = trim_range(line, a, b);
                r.name = crate::text::copy_range(line, x, y);
            },
            None => {
                r.name = Vec::new();
            },
        }
        return ;
    }
    if has_prefix(line, lo, hi, &['D', 'I', 'M', 'E', 'N', 'S', 'I', 'O', 'N']) {
        match colon_field_bounds(line, lo, hi) {
            Some((a, b)) => {
                let (x, y) = trim_range(line, a, b);
                r.dimension = parse_usize(line, x, y);
            },
            None => {
                r.dimension = None;
            },
        }
        return ;
    }
    if has_prefix(line, lo, hi, &['O', 'P', 'T', 'I', 'M', 'A', 'L']) {
        match colon_field_bounds(line, lo, hi) {
            Some((a, b)) => {
                let (x, y) = trim_range(line, a, b);
                if float_text_at(line, x, y) {
                    r.optimal = Some(crate::text::copy_range(line, x, y));
                } else {
                    r.optimal = None;
                }
            },
            None => {
                r.optimal = None;
            },
        }
        return ;
    }
    if has_prefix(
        line,
        lo,
        hi,
        &['E', 'D', 'G', 'E', '_', 'W', 'E', 'I', 'G', 'H', 'T', '_', 'T', 'Y', 'P', 'E'],
    ) {
        return ;
    }
    if has_prefix(
        line,
        lo,
        hi,
        &['N', 'O', 'D', 'E', '_', 'C', 'O', 'O', 'R', 'D', '_', 'S', 'E', 'C', 'T', 'I', 'O', 'N'],
    ) {
        r.in_section = true;
        return ;
    }
    if has_prefix(line, lo, hi, &['E', 'O', 'F']) {
        r.in_section = false;
        return ;
    }
    if r.in_section {
        let ws = words(line, lo, hi);
        if ws.len() >= 3 {
            let w0 = &ws[0];
            let w1 = &ws[1];
            let w2 = &ws[2];
            let idx = parse_usize(w0, 0, w0.len());
            proof {
                assert(w0@.subrange(0, w0@.len() as int) =~= w0@);
                assert(w1@.subrange(0, w1@.len() as int) =~= w1@);
                assert(w2@.subrange(0, w2@.len() as int) =~= w2@);
            }
            match idx {
                Some(i) => {
                    if float_text_at(w1, 0, w1.len()) && float_text_at(w2, 0, w2.len()) {
                        let x = crate::text::copy_range(w1, 0, w1.len());
                        let y = crate::text::copy_range(w2, 0, w2.len());
                        let ghost old_entries = r.entries@;
                        r.entries.push((i, x, y));
                        proof {
                            let v = reading_view(*r);
                            let expect = before.entries.push((i as nat, w1@, w2@));
                            assert(v.entries =~= expect) by {
                                assert forall|q: int| 0 <= q < v.entries.len() implies v.entries[q] == expect[q] by {
                                    if q < old_entries.len() {
                                        assert(r.entries@[q] == old_entries[q]);
                                    }
                                }
                            }
                        }
                    }
                },
                None => {},
            }
        }
    }
}

/// Reads a TSPLIB file.  It is refused when no line gives a valid
/// `DIMENSION`, or when the coordinate section does not list exactly that
/// many nodes; otherwise the name, the dimension, the coordinates in stable
/// order of their indices and the optimum (when given as a number) are
/// returned.
pub fn parse_tsplib(content: &str) -> (r: Result<TspText, TsplibError>)
    ensures
        ({
            let st = tsplib_scan(lines_spec(content@), lines_spec(content@).len());
            match st.dimension {
                None => r == Err::<TspText, TsplibError>(TsplibError::MissingDimension),
                Some(d) => if st.entries.len() != d {
                    r == Err::<TspText, TsplibError>(
                        TsplibError::CountMismatch { found: st.entries.len() as usize, expected: d as usize },
                    )
                } else {
                    r matches Ok(t) && t.name@ == st.name && t.dimension == d && t.coords@.len() == d
                        && (match st.optimal {
                        Some(o) => t.optimal matches Some(v) && v@ == o,
                        None => t.optimal is None,
                    }) && exists|order: Seq<usize>|
                        #![trigger is_stable_order(entry_keys(st.entries), order)]
                        is_stable_order(entry_keys(st.entries), order)
                            && forall|i: int|
                            0 <= i < d ==> (#[trigger] t.coords@[i]).0@ == st.entries[order[i] as int].1
                                && t.coords@[i].1@ == st.entries[order[i] as int].2
                },
            }
        }),
{
    let text = chars_of(content);
    let lines = split_lines(&text);
    let ghost all = lines_spec(content@);
    let mut r = Reading {
        name: Vec::new(),
        dimension: None,
        entries: Vec::new(),
        optimal: None,
        in_section: false,
    };
    let mut k: usize = 0;
    proof {
        let v = reading_view(r);
        let z = tsplib_scan(all, 0);
        assert(v.entries =~= z.entries);
        assert(v.name =~= z.name);
        assert(v == z);
    }
    while k < lines.len()
        invariant
            k <= lines@.len(),
            lines@.len() == all.len(),
            forall|i: int| 0 <= i < lines@.len() ==> (#[trigger] lines@[i])@ == all[i],
            reading_view(r) == tsplib_scan(all, k as nat),
        decreases lines@.len() - k,
    {
        read_line(&mut r, &lines[k]);
        k = k + 1;
    }
    let ghost st = tsplib_scan(all, all.len());
    let d = match r.dimension {
        Some(d) => d,
        None => {
            return Err(TsplibError::MissingDimension);
        },
    };
    let m = r.entries.len();
    if m != d {
        return Err(TsplibError::CountMismatch { found: m, expected: d });
    }
    let mut keys: Vec<usize> = Vec::new();
    let mut q: usize = 0;
    while q < m
        invariant
            q <= m,
            m == r.entries@.len(),
            keys@.len() == q,
            forall|i: int| 0 <= i < q ==> keys@[i] == r.entries@[i].0,
        decreases m - q,
    {
        keys.push(r.entries[q].0);
        q = q + 1;
    }
    let order = stable_order(&keys);
    let mut coords: Vec<(Vec<char>, Vec<char>)> = Vec::new();
    let mut i: usize = 0;
    while i < m
        invariant
            i <= m,
            m == r.entries@.len(),
            m == keys@.len(),
            order@.len() == m,
            forall|p: int| 0 <= p < m ==> #[trigger] order@[p] < m,
            coords@.len() == i,
            forall|p: int|
                0 <= p < i ==> (#[trigger] coords@[p]).0@ == r.entries@[order@[p] as int].1@
                    && coords@[p].1@ == r.entries@[order@[p] as int].2@,
        decreases m - i,
    {
        let e = &r.entries[order[i]];
        let x = crate::text::copy_range(&e.1, 0, e.1.len());
        let y = crate::text::copy_range(&e.2, 0, e.2.len());
        proof {
            assert(e.1@.subrange(0, e.1@.len() as int) =~= e.1@);
            assert(e.2@.subrange(0, e.2@.len() as int) =~= e.2@);
        }
        coords.push((x, y));
        i = i + 1;
    }
    proof {
        assert(entry_keys(st.entries) =~= keys@);
    }
    let optimal = match r.optimal {
        Some(o) => Some(o),
        None => None,
    };
    Ok(TspText { name: r.name, dimension: d, coords, optimal })
}

} // verus!
