//! Tours are sequences of node indices.  This module holds the moves that the
//! construction and local-search phases apply to a tour, each stated exactly
//! over the tour's sequence, together with the laws that they keep.
use vstd::prelude::*;

verus! {

broadcast use vstd::seq_lib::group_seq_properties;

/// Every entry of `path` is a valid node index below `n`.
pub open spec fn in_range(path: Seq<usize>, n: nat) -> bool {
    forall|i: int| 0 <= i < path.len() ==> #[trigger] path[i] < n
}

/// `path` visits every one of the nodes `0..n` exactly once.
pub open spec fn is_tour(path: Seq<usize>, n: nat) -> bool {
    &&& path.len() == n
    &&& path.no_duplicates()
    &&& in_range(path, n)
}

/// `b` holds exactly the same nodes as `a`, each as many times.
pub open spec fn same_nodes(a: Seq<usize>, b: Seq<usize>) -> bool {
    a.to_multiset() == b.to_multiset()
}

/// The entries of `s` in order of first appearance, later repeats dropped.
pub open spec fn first_occurrences(s: Seq<usize>) -> Seq<usize>
    decreases s.len(),
{
    if s.len() == 0 {
        Seq::empty()
    } else {
        let r = first_occurrences(s.drop_last());
        if r.contains(s.last()) {
            r
        } else {
            r.push(s.last())
        }
    }
}

/// Dropping repeats keeps every node once and loses none.
pub proof fn lemma_first_occurrences(s: Seq<usize>)
    ensures
        first_occurrences(s).no_duplicates(),
        forall|w: usize| #[trigger] first_occurrences(s).contains(w) <==> s.contains(w),
        first_occurrences(s).len() <= s.len(),
    decreases s.len(),
{
    if s.len() > 0 {
        let init = s.drop_last();
        lemma_first_occurrences(init);
        let r = first_occurrences(init);
        assert(s =~= init.push(s.last()));
        assert forall|w: usize| #[trigger] first_occurrences(s).contains(w) <==> s.contains(w) by {
            if s.contains(w) && w != s.last() {
                let k = choose|k: int| 0 <= k < s.len() && s[k] == w;
                assert(k < s.len() - 1);
                assert(init[k] == w);
            }
            if init.contains(w) {
                let k = choose|k: int| 0 <= k < init.len() && init[k] == w;
                assert(s[k] == w);
            }
            if w == s.last() {
                assert(s[s.len() - 1] == w);
            }
        }
    }
}

/// The set of node indices below `n`.
pub open spec fn below(n: nat) -> Set<usize> {
    Set::new(|v: usize| v < n)
}

proof fn lemma_below_len(n: nat)
    requires
        n <= usize::MAX + 1,
    ensures
        below(n).finite(),
        below(n).len() == n,
    decreases n,
{
    if n == 0 {
        assert(below(0) =~= Set::<usize>::empty());
    } else {
        lemma_below_len((n - 1) as nat);
        assert(below(n) =~= below((n - 1) as nat).insert((n - 1) as usize));
    }
}

/// A repeat-free sequence of nodes below `n` that covers every one of them
/// is a tour of the `n` nodes.
pub proof fn lemma_cover_is_tour(s: Seq<usize>, n: nat)
    requires
        s.no_duplicates(),
        in_range(s, n),
        forall|v: usize| v < n ==> #[trigger] s.contains(v),
        n <= usize::MAX + 1,
    ensures
        is_tour(s, n),
{
    assert(s.to_set() =~= below(n)) by {
        assert forall|v: usize| s.to_set().contains(v) implies below(n).contains(v) by {
            let k = choose|k: int| 0 <= k < s.len() && s[k] == v;
        }
    }
    s.unique_seq_to_set();
    lemma_below_len(n);
}

/// A rearrangement of a tour is a tour: every move that keeps the tour's
/// nodes (2-opt, or-opt, reinsertion, rotations, circular reversals) turns a
/// tour of the `n` nodes into another one.
pub proof fn lemma_same_nodes_keeps_tour(a: Seq<usize>, b: Seq<usize>, n: nat)
    requires
        is_tour(a, n),
        same_nodes(b, a),
    ensures
        is_tour(b, n),
{
    broadcast use vstd::seq_lib::group_to_multiset_ensures;

    assert(b.len() == a.len()) by {
        assert(b.to_multiset().len() == a.to_multiset().len());
    }
    a.lemma_multiset_has_no_duplicates();
    b.lemma_multiset_has_no_duplicates_conv();
    assert forall|i: int| 0 <= i < b.len() implies #[trigger] b[i] < n by {
        assert(b.to_multiset().count(b[i]) > 0);
        assert(a.to_multiset().count(b[i]) > 0);
        let k = choose|k: int| 0 <= k < a.len() && a[k] == b[i];
    }
}

/// The tour obtained by reversing the closed range `i..=j` (a 2-opt move).
pub open spec fn reverse_range_spec(s: Seq<usize>, i: int, j: int) -> Seq<usize> {
    s.subrange(0, i) + s.subrange(i, j + 1).reverse() + s.subrange(j + 1, s.len() as int)
}

/// Reverses `path[i..=j]` in place by swapping its ends inwards.
pub fn reverse_range(path: &mut Vec<usize>, i: usize, j: usize)
    requires
        i <= j < old(path).len(),
    ensures
        final(path)@ == reverse_range_spec(old(path)@, i as int, j as int),
{
    let ghost s = path@;
    let mut a = i;
    let mut b = j;
    while a < b
        invariant
            i <= a,
            b <= j,
            j < s.len(),
            a + b == i + j || a == b + 1,
            a <= b + 1,
            path@.len() == s.len(),
            forall|k: int| 0 <= k < i ==> path@[k] == s[k],
            forall|k: int| j < k < s.len() ==> path@[k] == s[k],
            forall|k: int| a <= k <= b ==> path@[k] == s[k],
            forall|k: int| i <= k < a ==> path@[k] == s[i + j - k],
            forall|k: int| b < k <= j ==> path@[k] == s[i + j - k],
        decreases b + 1 - a,
    {
        let x = path[a];
        let y = path[b];
        path.set(a, y);
        path.set(b, x);
        a = a + 1;
        b = b - 1;
    }
    assert(path@ =~= reverse_range_spec(s, i as int, j as int));
}

/// Appends `path[from..to]` to `out`.
pub fn push_range(out: &mut Vec<usize>, path: &Vec<usize>, from: usize, to: usize)
    requires
        from <= to <= path@.len(),
    ensures
        final(out)@ == old(out)@ + path@.subrange(from as int, to as int),
{
    let ghost start = out@;
    let mut k = from;
    while k < to
        invariant
            from <= k <= to,
            to <= path@.len(),
            out@ == start + path@.subrange(from as int, k as int),
        decreases to - k,
    {
        out.push(path[k]);
        k = k + 1;
        assert(out@ =~= start + path@.subrange(from as int, k as int));
    }
}

/// Sorts `v` into non-decreasing order, keeping its entries.
pub fn sort_ascending(v: &mut Vec<usize>)
    ensures
        same_nodes(final(v)@, old(v)@),
        forall|i: int, j: int| 0 <= i <= j < final(v)@.len() ==> final(v)@[i] <= final(v)@[j],
{
    broadcast use vstd::seq_lib::group_to_multiset_ensures;
    broadcast use vstd::multiset::group_multiset_axioms;

    let ghost start = v@;
    let n = v.len();
    let mut i: usize = 0;
    while i < n
        invariant
            i <= n,
            v@.len() == n,
            same_nodes(v@, start),
            forall|a: int, b: int| 0 <= a <= b < i ==> v@[a] <= v@[b],
        decreases n - i,
    {
        let mut j = i;
        while j > 0 && v[j - 1] > v[j]
            invariant
                j <= i < n,
                v@.len() == n,
                same_nodes(v@, start),
                forall|a: int, b: int| 0 <= a <= b <= i && a != j && b != j ==> v@[a] <= v@[b],
                forall|b: int| j < b <= i ==> v@[j as int] < v@[b],
            decreases j,
        {
            let x = v[j - 1];
            let y = v[j];
            let ghost before = v@;
            v.set(j - 1, y);
            v.set(j, x);
            proof {
                assert(v@ == before.update(j - 1, y).update(j as int, x));
                assert(before.update(j - 1, y).to_multiset() == before.to_multiset().insert(y).remove(x));
                assert(v@.to_multiset() == before.update(j - 1, y).to_multiset().insert(x).remove(y));
                assert(v@.to_multiset() =~= before.to_multiset());
            }
            j = j - 1;
        }
        i = i + 1;
    }
}

/// Reversing a range keeps the tour's nodes.
pub proof fn lemma_reverse_range_keeps_nodes(s: Seq<usize>, i: int, j: int)
    requires
        0 <= i <= j < s.len(),
    ensures
        same_nodes(reverse_range_spec(s, i, j), s),
{
    broadcast use vstd::seq_lib::lemma_multiset_commutative;

    let a = s.subrange(0, i);
    let m = s.subrange(i, j + 1);
    let b = s.subrange(j + 1, s.len() as int);
    assert(s =~= a + m + b);
    m.lemma_reverse_to_multiset();
}

/// A 2-opt reversal undoes itself: reversing the same range twice gives the
/// tour back.
pub proof fn lemma_reverse_range_involution(s: Seq<usize>, i: int, j: int)
    requires
        0 <= i <= j < s.len(),
    ensures
        reverse_range_spec(reverse_range_spec(s, i, j), i, j) == s,
{
    let r = reverse_range_spec(s, i, j);
    assert(r.len() == s.len());
    assert forall|k: int| 0 <= k < s.len() implies reverse_range_spec(r, i, j)[k] == s[k] by {
        if i <= k <= j {
            assert(reverse_range_spec(r, i, j)[k] == r[i + j - k]);
        }
    }
    assert(reverse_range_spec(r, i, j) =~= s);
}

/// The tour with `node` inserted at position `pos`.
pub fn insert_node(path: &mut Vec<usize>, pos: usize, node: usize)
    requires
        pos <= old(path)@.len(),
    ensures
        final(path)@ == old(path)@.insert(pos as int, node),
{
    path.insert(pos, node);
}

/// Inserting a node that the tour does not hold yet keeps every node of the
/// tour visited once and adds the new one.
pub proof fn lemma_insert_unvisited(path: Seq<usize>, pos: int, node: usize)
    requires
        0 <= pos <= path.len(),
        path.no_duplicates(),
        !path.contains(node),
    ensures
        path.insert(pos, node).no_duplicates(),
        forall|w: usize| #[trigger] path.insert(pos, node).contains(w) <==> path.contains(w) || w == node,
        path.insert(pos, node).len() == path.len() + 1,
{
    let r = path.insert(pos, node);
    path.insert_ensures(pos, node);
    assert forall|a: int, b: int| 0 <= a < r.len() && 0 <= b < r.len() && a != b implies r[a] != r[b] by {
        let pa = if a < pos { a } else if a == pos { -1 } else { a - 1 };
        let pb = if b < pos { b } else if b == pos { -1 } else { b - 1 };
        if pa >= 0 && pb >= 0 {
            assert(r[a] == path[pa] && r[b] == path[pb]);
        } else if pa >= 0 {
            assert(r[a] == path[pa]);
            assert(path.contains(path[pa]));
        } else if pb >= 0 {
            assert(r[b] == path[pb]);
            assert(path.contains(path[pb]));
        }
    }
    assert forall|w: usize| #[trigger] r.contains(w) <==> path.contains(w) || w == node by {
        if r.contains(w) {
            let k = choose|k: int| 0 <= k < r.len() && r[k] == w;
            if k < pos {
                assert(path[k] == w);
            } else if k > pos {
                assert(path[k - 1] == w);
            }
        }
        if path.contains(w) {
            let k = choose|k: int| 0 <= k < path.len() && path[k] == w;
            if k < pos {
                assert(r[k] == w);
            } else {
                assert(r[k + 1] == w);
            }
        }
        if w == node {
            assert(r[pos] == w);
        }
    }
}

/// Moves the node at position `i` to position `j` of the tour without it.
pub fn reinsert_node(path: &mut Vec<usize>, i: usize, j: usize)
    requires
        i < old(path)@.len(),
        j < old(path)@.len(),
    ensures
        final(path)@ == old(path)@.remove(i as int).insert(j as int, old(path)@[i as int]),
        same_nodes(final(path)@, old(path)@),
{
    broadcast use vstd::seq_lib::group_to_multiset_ensures;
    broadcast use vstd::multiset::group_multiset_axioms;

    let ghost s = path@;
    let node = path.remove(i);
    path.insert(j, node);
    proof {
        assert(s.remove(i as int).to_multiset().insert(s[i as int]) =~= s.to_multiset());
    }
}

/// The `len` entries of `path` that follow position `i` round the cycle,
/// starting with `path[i]`.
pub open spec fn circular_segment_spec(path: Seq<usize>, i: int, len: int) -> Seq<usize> {
    Seq::new(len as nat, |k: int| path[(i + k) % (path.len() as int)])
}

/// The tour without the circular segment of `len` entries starting at
/// position `i`, the remaining entries in their original order.
pub open spec fn without_circular_segment_spec(path: Seq<usize>, i: int, len: int) -> Seq<usize> {
    let n = path.len() as int;
    if i + len <= n {
        path.subrange(0, i) + path.subrange(i + len, n)
    } else {
        path.subrange(i + len - n, i)
    }
}

/// Position `o` steps after position `i` round a cycle of `n` positions.
pub open spec fn circ_index(i: int, o: int, n: int) -> int {
    (i + o) % n
}

proof fn lemma_mod_wrap(x: int, n: int)
    requires
        0 < n,
        0 <= x < 2 * n,
    ensures
        x % n == (if x < n { x } else { x - n }),
{
    if x < n {
        vstd::arithmetic::div_mod::lemma_small_mod(x as nat, n as nat);
    } else {
        vstd::arithmetic::div_mod::lemma_small_mod((x - n) as nat, n as nat);
        vstd::arithmetic::div_mod::lemma_mod_add_multiples_vanish(x - n, n);
    }
}

/// Copies the circular segment of `len` entries starting at position `i`.
pub fn circular_segment(path: &Vec<usize>, i: usize, len: usize) -> (seg: Vec<usize>)
    requires
        path@.len() <= usize::MAX / 2,
        i < path@.len(),
        len <= path@.len(),
    ensures
        seg@ == circular_segment_spec(path@, i as int, len as int),
{
    let n = path.len();
    let mut seg: Vec<usize> = Vec::new();
    let mut k: usize = 0;
    while k < len
        invariant
            k <= len <= n,
            i < n,
            n == path@.len(),
            n <= usize::MAX / 2,
            seg@.len() == k,
            forall|q: int| 0 <= q < k ==> seg@[q] == path@[(i + q) % (n as int)],
        decreases len - k,
    {
        proof {
            lemma_mod_wrap(i + k, n as int);
        }
        seg.push(path[(i + k) % n]);
        k = k + 1;
    }
    assert(seg@ =~= circular_segment_spec(path@, i as int, len as int));
    seg
}

/// Copies the tour without the circular segment of `len` entries starting at
/// position `i`: each position is kept unless one of the segment's offsets
/// lands on it.
pub fn without_circular_segment(path: &Vec<usize>, i: usize, len: usize) -> (reduced: Vec<usize>)
    requires
        path@.len() <= usize::MAX / 2,
        i < path@.len(),
        len <= path@.len(),
    ensures
        reduced@ == without_circular_segment_spec(path@, i as int, len as int),
{
    let n = path.len();
    let ghost target = without_circular_segment_spec(path@, i as int, len as int);
    let mut reduced: Vec<usize> = Vec::new();
    let mut k: usize = 0;
    while k < n
        invariant
            k <= n,
            i < n,
            len <= n,
            n == path@.len(),
            n <= usize::MAX / 2,
            target == without_circular_segment_spec(path@, i as int, len as int),
            reduced@ == (if i + len <= n {
                if k <= i {
                    path@.subrange(0, k as int)
                } else if k <= i + len {
                    path@.subrange(0, i as int)
                } else {
                    path@.subrange(0, i as int) + path@.subrange(i + len, k as int)
                }
            } else {
                if k <= i + len - n {
                    Seq::empty()
                } else if k <= i {
                    path@.subrange(i + len - n, k as int)
                } else {
                    path@.subrange(i + len - n, i as int)
                }
            }),
        decreases n - k,
    {
        let mut in_seg = false;
        let mut offset: usize = 0;
        while offset < len
            invariant_except_break
                !in_seg,
                forall|o: int| 0 <= o < offset ==> k != #[trigger] circ_index(i as int, o, n as int),
            invariant
                offset <= len <= n,
                i < n,
                k < n,
                n <= usize::MAX / 2,
            ensures
                in_seg ==> offset < len && k == circ_index(i as int, offset as int, n as int),
                !in_seg ==> forall|o: int| 0 <= o < len ==> k != #[trigger] circ_index(i as int, o, n as int),
            decreases len - offset,
        {
            if k == (i + offset) % n {
                in_seg = true;
                break;
            }
            assert(k != circ_index(i as int, offset as int, n as int));
            offset = offset + 1;
        }
        proof {
            let seg_pos = (i <= k && k < i + len) || (i + len > n && k < i + len - n);
            if seg_pos {
                let o: int = if k >= i { k - i } else { k + n - i };
                lemma_mod_wrap(i + o, n as int);
                if !in_seg {
                    assert(k != circ_index(i as int, o, n as int));
                }
            }
            if in_seg {
                lemma_mod_wrap(i + offset, n as int);
                assert(k == circ_index(i as int, offset as int, n as int));
            }
            assert(in_seg == seg_pos);
        }
        if !in_seg {
            reduced.push(path[k]);
        }
        k = k + 1;
        proof {
            if i + len <= n {
                if k <= i {
                    assert(reduced@ =~= path@.subrange(0, k as int));
                } else if k <= i + len {
                } else if k == i + len + 1 {
                    assert(reduced@ =~= path@.subrange(0, i as int) + path@.subrange(i + len, k as int));
                } else {
                    assert(reduced@ =~= path@.subrange(0, i as int) + path@.subrange(i + len, k as int));
                }
            } else {
                if k <= i + len - n {
                } else if k <= i {
                    assert(reduced@ =~= path@.subrange(i + len - n, k as int));
                } else {
                }
            }
        }
    }
    proof {
        if i + len <= n {
            if i + len == n {
                assert(path@.subrange(i + len, n as int) =~= Seq::<usize>::empty());
                assert(reduced@ =~= path@.subrange(0, i as int) + path@.subrange(i + len, n as int));
            }
        }
    }
    reduced
}

/// Taking a circular segment out of a tour loses no node: segment and
/// remainder together hold exactly the tour's nodes.
pub proof fn lemma_segment_split_keeps_nodes(path: Seq<usize>, i: int, len: int)
    requires
        0 <= i < path.len(),
        0 <= len <= path.len(),
    ensures
        same_nodes(
            without_circular_segment_spec(path, i, len) + circular_segment_spec(path, i, len),
            path,
        ),
{
    broadcast use vstd::seq_lib::lemma_multiset_commutative;

    let n = path.len() as int;
    let seg = circular_segment_spec(path, i, len);
    if i + len <= n {
        assert forall|k: int| 0 <= k < len implies seg[k] == path[i + k] by {
            lemma_mod_wrap(i + k, n);
        }
        assert(seg =~= path.subrange(i, i + len));
        let a = path.subrange(0, i);
        let m = path.subrange(i, i + len);
        let b = path.subrange(i + len, n);
        assert(path =~= a + m + b);
        assert((a + b + m).to_multiset() =~= (a + m + b).to_multiset());
    } else {
        let a = path.subrange(0, i + len - n);
        let m = path.subrange(i + len - n, i);
        let b = path.subrange(i, n);
        assert forall|k: int| 0 <= k < len implies seg[k] == (b + a)[k] by {
            lemma_mod_wrap(i + k, n);
        }
        assert(seg =~= b + a);
        assert(path =~= a + m + b);
        assert((m + (b + a)).to_multiset() =~= (a + m + b).to_multiset());
    }
}

/// `seg` placed into `reduced` before position `j`.
pub open spec fn splice_spec(reduced: Seq<usize>, j: int, seg: Seq<usize>) -> Seq<usize> {
    reduced.subrange(0, j) + seg + reduced.subrange(j, reduced.len() as int)
}

/// Places the segment `seg` into `reduced` before position `j`.
pub fn splice(reduced: &Vec<usize>, j: usize, seg: &Vec<usize>) -> (r: Vec<usize>)
    requires
        j <= reduced@.len(),
    ensures
        r@ == splice_spec(reduced@, j as int, seg@),
        same_nodes(r@, reduced@ + seg@),
{
    broadcast use vstd::seq_lib::lemma_multiset_commutative;

    let mut r: Vec<usize> = Vec::new();
    push_range(&mut r, reduced, 0, j);
    push_range(&mut r, seg, 0, seg.len());
    push_range(&mut r, reduced, j, reduced.len());
    proof {
        let a = reduced@.subrange(0, j as int);
        let b = reduced@.subrange(j as int, reduced@.len() as int);
        assert(seg@.subrange(0, seg@.len() as int) =~= seg@);
        assert(reduced@ =~= a + b);
        assert((a + seg@ + b).to_multiset() =~= (a + b + seg@).to_multiset());
    }
    r
}

/// An or-opt move on the cycle: the circular segment of `len` entries at
/// position `i` is taken out and placed before position `j` of the rest.
pub fn move_circular_segment(path: &Vec<usize>, i: usize, len: usize, j: usize) -> (r: Vec<usize>)
    requires
        path@.len() <= usize::MAX / 2,
        i < path@.len(),
        len <= path@.len(),
        j <= path@.len() - len,
    ensures
        r@ == splice_spec(
            without_circular_segment_spec(path@, i as int, len as int),
            j as int,
            circular_segment_spec(path@, i as int, len as int),
        ),
        same_nodes(r@, path@),
{
    let seg = circular_segment(path, i, len);
    let reduced = without_circular_segment(path, i, len);
    let r = splice(&reduced, j, &seg);
    proof {
        lemma_segment_split_keeps_nodes(path@, i as int, len as int);
    }
    r
}

/// An or-opt move on the open sequence: `path[i..i + len]` is taken out and
/// placed after position `j` of the rest.
pub open spec fn move_segment_after_spec(path: Seq<usize>, i: int, len: int, j: int) -> Seq<usize> {
    let rest = path.subrange(0, i) + path.subrange(i + len, path.len() as int);
    rest.subrange(0, j + 1) + path.subrange(i, i + len) + rest.subrange(j + 1, rest.len() as int)
}

/// Where a linear or-opt move puts every entry, for every target `j`,
/// before or after the segment: with `rest` the tour without
/// `path[i..i + len]`, the result holds `rest[0..=j]`, then the segment, then
/// the remainder of `rest`; the segment always lands after position `j` of
/// the rest.
pub proof fn lemma_move_segment_after_places(path: Seq<usize>, i: int, len: int, j: int)
    requires
        0 <= i,
        0 <= len,
        i + len <= path.len(),
        0 <= j < path.len() - len,
    ensures
        ({
            let n = path.len() as int;
            let r = move_segment_after_spec(path, i, len, j);
            &&& r.len() == n
            &&& forall|q: int| 0 <= q <= j ==> #[trigger] r[q] == (if q < i { path[q] } else { path[q + len] })
            &&& forall|q: int| j + 1 <= q < j + 1 + len ==> #[trigger] r[q] == path[i + q - (j + 1)]
            &&& forall|q: int|
                j + 1 + len <= q < n ==> #[trigger] r[q] == (if q - len < i {
                    path[q - len]
                } else {
                    path[q]
                })
        }),
{
    let n = path.len() as int;
    let rest = path.subrange(0, i) + path.subrange(i + len, n);
    assert forall|q: int| 0 <= q < rest.len() implies #[trigger] rest[q] == (if q < i {
        path[q]
    } else {
        path[q + len]
    }) by {}
    let r = move_segment_after_spec(path, i, len, j);
    let a = rest.subrange(0, j + 1);
    let m = path.subrange(i, i + len);
    let b = rest.subrange(j + 1, rest.len() as int);
    assert(r == a + m + b);
    assert forall|q: int| 0 <= q <= j implies #[trigger] r[q] == (if q < i { path[q] } else { path[q + len] }) by {
        assert(r[q] == a[q]);
    }
    assert forall|q: int| j + 1 <= q < j + 1 + len implies #[trigger] r[q] == path[i + q - (j + 1)] by {
        assert(r[q] == (a + m)[q]);
        assert(r[q] == m[q - (j + 1)]);
    }
    assert forall|q: int|
        j + 1 + len <= q < n implies #[trigger] r[q] == (if q - len < i {
            path[q - len]
        } else {
            path[q]
        }) by {
        assert(r[q] == b[q - (j + 1) - len]);
        assert(b[q - (j + 1) - len] == rest[q - len]);
    }
}

/// Builds the candidate tour of a linear or-opt move.
pub fn move_segment_after(path: &Vec<usize>, i: usize, len: usize, j: usize) -> (r: Vec<usize>)
    requires
        i + len <= path@.len(),
        j < path@.len() - len,
    ensures
        r@ == move_segment_after_spec(path@, i as int, len as int, j as int),
        same_nodes(r@, path@),
{
    broadcast use vstd::seq_lib::lemma_multiset_commutative;

    let n = path.len();
    let mut seg: Vec<usize> = Vec::new();
    push_range(&mut seg, path, i, i + len);
    let mut rest: Vec<usize> = Vec::new();
    push_range(&mut rest, path, 0, i);
    push_range(&mut rest, path, i + len, path.len());
    let r = splice(&rest, j + 1, &seg);
    proof {
        let a = path@.subrange(0, i as int);
        let m = path@.subrange(i as int, i + len);
        let b = path@.subrange(i + len, path@.len() as int);
        assert(path@ =~= a + m + b);
        assert(Seq::<usize>::empty() + m =~= m);
        assert(Seq::<usize>::empty() + a + b =~= a + b);
        assert((a + b + m).to_multiset() =~= (a + m + b).to_multiset());
    }
    r
}

/// Whether `path` holds `node`.
pub fn contains_node(path: &Vec<usize>, node: usize) -> (r: bool)
    ensures
        r == path@.contains(node),
{
    let mut k: usize = 0;
    while k < path.len()
        invariant
            k <= path@.len(),
            forall|q: int| 0 <= q < k ==> path@[q] != node,
        decreases path@.len() - k,
    {
        if path[k] == node {
            return true;
        }
        k = k + 1;
    }
    false
}

/// The nodes below `n` that `path` does not hold, in increasing order.
pub open spec fn unvisited_spec(path: Seq<usize>, n: nat) -> Seq<usize>
    decreases n,
{
    if n == 0 {
        Seq::empty()
    } else {
        let rest = unvisited_spec(path, (n - 1) as nat);
        if path.contains((n - 1) as usize) {
            rest
        } else {
            rest.push((n - 1) as usize)
        }
    }
}

/// Membership in the unvisited list: exactly the nodes below `n` missing
/// from the tour, each once.
pub proof fn lemma_unvisited(path: Seq<usize>, n: nat)
    requires
        n <= usize::MAX + 1,
    ensures
        forall|w: usize| #[trigger] unvisited_spec(path, n).contains(w) <==> (w < n && !path.contains(w)),
        unvisited_spec(path, n).no_duplicates(),
        in_range(unvisited_spec(path, n), n),
    decreases n,
{
    if n > 0 {
        lemma_unvisited(path, (n - 1) as nat);
        let rest = unvisited_spec(path, (n - 1) as nat);
        assert forall|w: usize| #[trigger] unvisited_spec(path, n).contains(w) <==> (w < n
            && !path.contains(w)) by {
            if !path.contains((n - 1) as usize) {
                let r = rest.push((n - 1) as usize);
                if r.contains(w) {
                    let k = choose|k: int| 0 <= k < r.len() && r[k] == w;
                    if k < rest.len() {
                        assert(rest[k] == w);
                    }
                }
                if rest.contains(w) {
                    let k = choose|k: int| 0 <= k < rest.len() && rest[k] == w;
                    assert(r[k] == w);
                }
                if w == n - 1 {
                    assert(r[rest.len() as int] == w);
                }
            }
        }
    }
}

/// Every node is on the tour exactly when none is left unvisited.
pub proof fn lemma_unvisited_empty(path: Seq<usize>, n: nat)
    requires
        n <= usize::MAX + 1,
    ensures
        unvisited_spec(path, n).len() == 0 <==> forall|w: usize| w < n ==> #[trigger] path.contains(w),
{
    lemma_unvisited(path, n);
    if unvisited_spec(path, n).len() != 0 {
        let w = unvisited_spec(path, n)[0];
        assert(unvisited_spec(path, n).contains(w));
    } else {
        assert forall|w: usize| w < n implies #[trigger] path.contains(w) by {
            if !path.contains(w) {
                assert(unvisited_spec(path, n).contains(w));
            }
        }
    }
}

/// The nodes below `n` that are not on the tour yet.
pub fn unvisited_nodes(path: &Vec<usize>, n: usize) -> (r: Vec<usize>)
    ensures
        r@ == unvisited_spec(path@, n as nat),
{
    let mut r: Vec<usize> = Vec::new();
    let mut k: usize = 0;
    while k < n
        invariant
            k <= n,
            r@ == unvisited_spec(path@, k as nat),
        decreases n - k,
    {
        if !contains_node(path, k) {
            r.push(k);
        }
        k = k + 1;
    }
    r
}

/// A repeat-free tour of nodes below `n` that leaves no node unvisited
/// visits each of the `n` nodes exactly once.
pub proof fn lemma_finished_path_is_tour(path: Seq<usize>, n: nat)
    requires
        path.no_duplicates(),
        in_range(path, n),
        unvisited_spec(path, n).len() == 0,
        n <= usize::MAX + 1,
    ensures
        is_tour(path, n),
{
    lemma_unvisited_empty(path, n);
    lemma_cover_is_tour(path, n);
}

/// A growth step keeps the tour repeat-free and within range, and leaves one
/// node fewer unvisited: a run that only grows the tour ends after at most
/// `n` growth steps.
pub proof fn lemma_growth_step(path: Seq<usize>, n: nat, node: usize, pos: int)
    requires
        path.no_duplicates(),
        in_range(path, n),
        unvisited_spec(path, n).contains(node),
        0 <= pos <= path.len(),
        n <= usize::MAX + 1,
    ensures
        path.insert(pos, node).no_duplicates(),
        in_range(path.insert(pos, node), n),
        unvisited_spec(path.insert(pos, node), n).len() + 1 == unvisited_spec(path, n).len(),
{
    lemma_unvisited(path, n);
    lemma_insert_unvisited(path, pos, node);
    let grown = path.insert(pos, node);
    assert forall|i: int| 0 <= i < grown.len() implies #[trigger] grown[i] < n by {
        assert(grown.contains(grown[i]));
        if grown[i] != node {
            assert(path.contains(grown[i]));
            let k = choose|k: int| 0 <= k < path.len() && path[k] == grown[i];
        }
    }
    lemma_unvisited_count(path, grown, node, n);
}

proof fn lemma_unvisited_count(path: Seq<usize>, grown: Seq<usize>, node: usize, k: nat)
    requires
        forall|w: usize| #[trigger] grown.contains(w) <==> path.contains(w) || w == node,
        !path.contains(node),
        k <= usize::MAX + 1,
    ensures
        unvisited_spec(path, k).len() == unvisited_spec(grown, k).len() + (if node < k { 1nat } else { 0nat }),
    decreases k,
{
    if k > 0 {
        lemma_unvisited_count(path, grown, node, (k - 1) as nat);
        let w = (k - 1) as usize;
        assert(grown.contains(w) <==> path.contains(w) || w == node);
    }
}

/// The nodes `0..n` in increasing order.
pub open spec fn identity_spec(n: nat) -> Seq<usize> {
    Seq::new(n, |k: int| k as usize)
}

/// The identity tour `0, 1, ..., n - 1`: every node once.
pub proof fn lemma_identity_is_tour(n: nat)
    requires
        n <= usize::MAX + 1,
    ensures
        is_tour(identity_spec(n), n),
{
    let s = identity_spec(n);
    assert forall|v: usize| v < n implies #[trigger] s.contains(v) by {
        assert(s[v as int] == v);
    }
    lemma_cover_is_tour(s, n);
}

/// Appends the nodes `0..n` to `path`.
pub fn extend_with_range(path: &mut Vec<usize>, n: usize)
    ensures
        final(path)@ == old(path)@ + identity_spec(n as nat),
{
    let ghost start = path@;
    let mut k: usize = 0;
    while k < n
        invariant
            k <= n,
            path@ == start + identity_spec(k as nat),
        decreases n - k,
    {
        path.push(k);
        k = k + 1;
        assert(path@ =~= start + identity_spec(k as nat));
    }
}

/// The three values `(a, b, c)` rearranged by permutation number `p` of six,
/// in the order (a,b,c), (a,c,b), (b,a,c), (b,c,a), (c,a,b), (c,b,a).
pub open spec fn triple_permutation(a: usize, b: usize, c: usize, p: usize) -> (usize, usize, usize) {
    if p == 0 {
        (a, b, c)
    } else if p == 1 {
        (a, c, b)
    } else if p == 2 {
        (b, a, c)
    } else if p == 3 {
        (b, c, a)
    } else if p == 4 {
        (c, a, b)
    } else {
        (c, b, a)
    }
}

/// The tour with the entries at three distinct positions rearranged by
/// permutation number `p`.
pub open spec fn permute_triple_spec(s: Seq<usize>, i1: int, i2: int, i3: int, p: usize) -> Seq<usize> {
    let t = triple_permutation(s[i1], s[i2], s[i3], p);
    s.update(i1, t.0).update(i2, t.1).update(i3, t.2)
}

/// Rearranges the entries at positions `i1`, `i2`, `i3` of the tour by
/// permutation number `p` (a local triangle rotation).
pub fn permute_triple(path: &mut Vec<usize>, i1: usize, i2: usize, i3: usize, p: usize)
    requires
        i1 < old(path)@.len(),
        i2 < old(path)@.len(),
        i3 < old(path)@.len(),
        i1 != i2 && i2 != i3 && i1 != i3,
        p < 6,
    ensures
        final(path)@ == permute_triple_spec(old(path)@, i1 as int, i2 as int, i3 as int, p),
        same_nodes(final(path)@, old(path)@),
{
    broadcast use vstd::seq_lib::group_to_multiset_ensures;
    broadcast use vstd::multiset::group_multiset_axioms;

    let ghost s = path@;
    let a = path[i1];
    let b = path[i2];
    let c = path[i3];
    let (x, y, z) = if p == 0 {
        (a, b, c)
    } else if p == 1 {
        (a, c, b)
    } else if p == 2 {
        (b, a, c)
    } else if p == 3 {
        (b, c, a)
    } else if p == 4 {
        (c, a, b)
    } else {
        (c, b, a)
    };
    path.set(i1, x);
    let ghost s1 = path@;
    path.set(i2, y);
    let ghost s2 = path@;
    path.set(i3, z);
    proof {
        assert(s1.to_multiset() == s.to_multiset().insert(x).remove(a));
        assert(s2.to_multiset() == s1.to_multiset().insert(y).remove(b));
        assert(path@.to_multiset() == s2.to_multiset().insert(z).remove(c));
        assert(path@.to_multiset() =~= s.to_multiset());
    }
}

/// For each node `v` below the tour's length: the last position at which the
/// tour holds `v`, or 0 when it holds no `v`.
pub open spec fn is_position_table(path: Seq<usize>, pos: Seq<usize>) -> bool {
    &&& pos.len() == path.len()
    &&& forall|v: int|
        0 <= v < pos.len() ==> if path.contains(v as usize) {
            #[trigger] pos[v] < path.len() && path[pos[v] as int] == v as usize && forall|q: int|
                pos[v] < q < path.len() ==> path[q] != v as usize
        } else {
            pos[v] == 0
        }
}

/// The position of every node in the tour.
pub fn positions_in_tour(path: &Vec<usize>) -> (pos: Vec<usize>)
    requires
        in_range(path@, path@.len() as nat),
    ensures
        is_position_table(path@, pos@),
{
    let n = path.len();
    let mut pos: Vec<usize> = vec![0; n];
    let mut p: usize = 0;
    while p < n
        invariant
            p <= n,
            n == path@.len(),
            in_range(path@, n as nat),
            pos@.len() == n,
            forall|v: int|
                0 <= v < n ==> if path@.subrange(0, p as int).contains(v as usize) {
                    #[trigger] pos@[v] < p && path@[pos@[v] as int] == v as usize && forall|q: int|
                        pos@[v] < q < p ==> path@[q] != v as usize
                } else {
                    pos@[v] == 0
                },
        decreases n - p,
    {
        let node = path[p];
        let ghost old_pos = pos@;
        pos.set(node, p);
        proof {
            let pre = path@.subrange(0, p as int);
            let post = path@.subrange(0, p + 1);
            assert(post =~= pre.push(node));
            assert forall|v: int| 0 <= v < n implies if post.contains(v as usize) {
                #[trigger] pos@[v] < p + 1 && path@[pos@[v] as int] == v as usize && forall|q: int|
                    pos@[v] < q < p + 1 ==> path@[q] != v as usize
            } else {
                pos@[v] == 0
            } by {
                if v != node as int {
                    assert(pos@[v] == old_pos[v]);
                    if post.contains(v as usize) {
                        let k = choose|k: int| 0 <= k < post.len() && post[k] == v as usize;
                        assert(k < p);
                        assert(pre[k] == v as usize);
                    }
                    if pre.contains(v as usize) {
                        let k = choose|k: int| 0 <= k < pre.len() && pre[k] == v as usize;
                        assert(post[k] == v as usize);
                    }
                } else {
                    assert(post[p as int] == node);
                }
            }
        }
        p = p + 1;
    }
    assert(path@.subrange(0, n as int) =~= path@);
    pos
}

/// On a tour the position table inverts the tour: the node at position `p`
/// is found again at position `p`.
pub proof fn lemma_positions_invert_tour(path: Seq<usize>, pos: Seq<usize>, p: int)
    requires
        is_tour(path, path.len()),
        is_position_table(path, pos),
        0 <= p < path.len(),
    ensures
        pos[path[p] as int] == p,
{
    let v = path[p];
    assert(path.contains(v));
    let q = pos[v as int] as int;
    assert(path[q] == v);
}

/// Removes the first occurrence of `x` from a pool by moving the pool's last
/// entry into its place; a pool without `x` is unchanged.
pub open spec fn swap_remove_first_spec(pool: Seq<usize>, x: usize) -> Seq<usize> {
    if pool.contains(x) {
        let p = choose|p: int| 0 <= p < pool.len() && pool[p] == x && forall|q: int| 0 <= q < p ==> pool[q] != x;
        pool.update(p, pool.last()).drop_last()
    } else {
        pool
    }
}

/// Removes the first occurrence of `x` from `pool`, if any, by swapping the
/// last entry into its place.
pub fn swap_remove_first(pool: &mut Vec<usize>, x: usize)
    ensures
        final(pool)@ == swap_remove_first_spec(old(pool)@, x),
{
    let ghost s = pool@;
    let mut k: usize = 0;
    let mut found = false;
    while k < pool.len()
        invariant_except_break
            !found,
        invariant
            k <= pool@.len(),
            pool@ == s,
            forall|q: int| 0 <= q < k ==> pool@[q] != x,
        ensures
            found ==> k < pool@.len() && pool@[k as int] == x,
            !found ==> !pool@.contains(x),
        decreases pool@.len() - k,
    {
        if pool[k] == x {
            found = true;
            break;
        }
        k = k + 1;
    }
    if found {
        pool.swap_remove(k);
        proof {
            assert(s.contains(x)) by {
                assert(s[k as int] == x);
            }
            let p = choose|p: int| 0 <= p < s.len() && s[p] == x && forall|q: int| 0 <= q < p ==> s[q] != x;
            assert(p == k) by {
                if p < k {
                    assert(s[p] != x);
                }
                if p > k {
                    assert(s[k as int] != x);
                }
            }
        }
    }
}

/// Swap-removing an entry takes exactly one copy of it out of the pool.
pub proof fn lemma_swap_remove_first(pool: Seq<usize>, x: usize)
    ensures
        pool.contains(x) ==> swap_remove_first_spec(pool, x).to_multiset() == pool.to_multiset().remove(x),
        !pool.contains(x) ==> swap_remove_first_spec(pool, x) == pool,
{
    broadcast use vstd::seq_lib::group_to_multiset_ensures;
    broadcast use vstd::multiset::group_multiset_axioms;

    if pool.contains(x) {
        let k = choose|k: int| 0 <= k < pool.len() && pool[k] == x;
        let p = choose|p: int| 0 <= p < pool.len() && pool[p] == x && forall|q: int| 0 <= q < p ==> pool[q] != x;
        assert(exists|p: int| 0 <= p < pool.len() && pool[p] == x && forall|q: int| 0 <= q < p ==> pool[q] != x) by {
            lemma_first_index(pool, x, k);
        }
        let up = pool.update(p, pool.last());
        assert(up.to_multiset() == pool.to_multiset().insert(pool.last()).remove(x));
        assert(up.drop_last() =~= up.remove(up.len() - 1));
        assert(up[up.len() - 1] == pool.last()) by {
            if p == pool.len() - 1 {
            }
        }
        assert(up.drop_last().to_multiset() == up.to_multiset().remove(pool.last()));
        assert(up.drop_last().to_multiset() =~= pool.to_multiset().remove(x));
    }
}

proof fn lemma_first_index(s: Seq<usize>, x: usize, k: int)
    requires
        0 <= k < s.len(),
        s[k] == x,
    ensures
        exists|p: int| 0 <= p < s.len() && s[p] == x && forall|q: int| 0 <= q < p ==> s[q] != x,
    decreases k,
{
    if exists|q: int| 0 <= q < k && s[q] == x {
        let q = choose|q: int| 0 <= q < k && s[q] == x;
        lemma_first_index(s, x, q);
    } else {
        assert(forall|q: int| 0 <= q < k ==> s[q] != x);
    }
}

/// How many steps position `p` lies after position `start` round a cycle of
/// `n` positions.
pub open spec fn circ_offset(p: int, start: int, n: int) -> int {
    (p - start + n) % n
}

proof fn lemma_offset_of_index(start: int, k: int, n: int)
    requires
        0 <= start < n,
        0 <= k < n,
    ensures
        0 <= circ_index(start, k, n) < n,
        circ_offset(circ_index(start, k, n), start, n) == k,
{
    lemma_mod_wrap(start + k, n);
    let p = circ_index(start, k, n);
    lemma_mod_wrap(p - start + n, n);
}

proof fn lemma_index_of_offset(p: int, start: int, n: int)
    requires
        0 <= start < n,
        0 <= p < n,
    ensures
        0 <= circ_offset(p, start, n) < n,
        circ_index(start, circ_offset(p, start, n), n) == p,
{
    lemma_mod_wrap(p - start + n, n);
    let off = circ_offset(p, start, n);
    lemma_mod_wrap(start + off, n);
}

/// The tour with the circular window of `len` positions starting at `start`
/// read backwards.
pub open spec fn reverse_window_spec(s: Seq<usize>, start: int, len: int) -> Seq<usize> {
    let n = s.len() as int;
    Seq::new(
        s.len(),
        |p: int|
            if circ_offset(p, start, n) < len {
                s[circ_index(start, len - 1 - circ_offset(p, start, n), n)]
            } else {
                s[p]
            },
    )
}

/// Reversing a circular window keeps the tour's nodes.
pub proof fn lemma_reverse_window_keeps_nodes(s: Seq<usize>, start: int, len: int)
    requires
        0 <= start < s.len(),
        0 <= len <= s.len(),
    ensures
        same_nodes(reverse_window_spec(s, start, len), s),
{
    broadcast use vstd::seq_lib::lemma_multiset_commutative;

    let n = s.len() as int;
    let r = reverse_window_spec(s, start, len);
    if start + len <= n {
        assert forall|p: int| 0 <= p < n implies r[p] == reverse_range_spec(s, start, start + len - 1)[p] by {
            lemma_mod_wrap(p - start + n, n);
            if start <= p < start + len {
                lemma_mod_wrap(start + (len - 1 - (p - start)), n);
            }
        }
        if len > 0 {
            assert(r =~= reverse_range_spec(s, start, start + len - 1));
            lemma_reverse_range_keeps_nodes(s, start, start + len - 1);
        } else {
            assert forall|p: int| 0 <= p < n implies r[p] == s[p] by {
                lemma_mod_wrap(p - start + n, n);
            }
            assert(r =~= s);
        }
    } else {
        // The window wraps: rotate so that it starts at position 0.
        let rot = s.subrange(start, n) + s.subrange(0, start);
        let rr = r.subrange(start, n) + r.subrange(0, start);
        assert forall|q: int| 0 <= q < n implies rr[q] == reverse_range_spec(rot, 0, len - 1)[q] by {
            let p = if q < n - start { start + q } else { q - (n - start) };
            assert(rr[q] == r[p]);
            lemma_mod_wrap(p - start + n, n);
            assert(circ_offset(p, start, n) == q);
            if q < len {
                let k = len - 1 - q;
                lemma_mod_wrap(start + k, n);
                assert(rot[k] == s[circ_index(start, k, n)]);
            } else {
                assert(rot[q] == s[p]);
            }
        }
        assert(rr =~= reverse_range_spec(rot, 0, len - 1));
        lemma_reverse_range_keeps_nodes(rot, 0, len - 1);
        assert(s =~= s.subrange(0, start) + s.subrange(start, n));
        assert(r =~= r.subrange(0, start) + r.subrange(start, n));
        assert(rot.to_multiset() =~= s.to_multiset());
        assert(rr.to_multiset() =~= r.to_multiset());
    }
}

/// A copy of the tour with the circular window of `len` positions starting
/// at `i` reversed (the reversal option of bubble removal).
pub fn reversed_window(path: &Vec<usize>, i: usize, len: usize) -> (r: Vec<usize>)
    requires
        path@.len() <= usize::MAX / 2,
        i < path@.len(),
        len <= path@.len(),
    ensures
        r@ == reverse_window_spec(path@, i as int, len as int),
        same_nodes(r@, path@),
{
    let n = path.len();
    let mut r: Vec<usize> = Vec::new();
    push_range(&mut r, path, 0, n);
    assert(r@ =~= path@);
    let mut k: usize = 0;
    while k < len
        invariant
            k <= len <= n,
            i < n,
            n == path@.len(),
            n <= usize::MAX / 2,
            r@.len() == n,
            forall|p: int|
                0 <= p < n ==> #[trigger] r@[p] == if circ_offset(p, i as int, n as int) < k {
                    path@[circ_index(i as int, len - 1 - circ_offset(p, i as int, n as int), n as int)]
                } else {
                    path@[p]
                },
        decreases len - k,
    {
        proof {
            lemma_mod_wrap(i + k, n as int);
            lemma_mod_wrap(i + (len - 1 - k), n as int);
            lemma_offset_of_index(i as int, k as int, n as int);
        }
        let q = (i + k) % n;
        let from = (i + (len - 1 - k)) % n;
        let v = path[from];
        let ghost before = r@;
        r.set(q, v);
        proof {
            assert forall|p: int| 0 <= p < n implies #[trigger] r@[p] == if circ_offset(p, i as int, n as int) < k + 1 {
                path@[circ_index(i as int, len - 1 - circ_offset(p, i as int, n as int), n as int)]
            } else {
                path@[p]
            } by {
                lemma_index_of_offset(p, i as int, n as int);
                if p != q as int {
                    assert(r@[p] == before[p]);
                    if circ_offset(p, i as int, n as int) == k {
                        assert(circ_index(i as int, k as int, n as int) == p);
                    }
                }
            }
        }
        k = k + 1;
    }
    assert(r@ =~= reverse_window_spec(path@, i as int, len as int));
    proof {
        lemma_reverse_window_keeps_nodes(path@, i as int, len as int);
    }
    r
}

/// Positions `start..=end` round the cycle, counted inclusively.
pub open spec fn window_len(start: int, end: int, n: int) -> int {
    circ_offset(end, start, n) + 1
}

/// Reversal of the circular stretch from `start` to `end`; a stretch that
/// covers the whole cycle is left as it is.
pub open spec fn reverse_segment_spec(s: Seq<usize>, start: int, end: int) -> Seq<usize> {
    let len = window_len(start, end, s.len() as int);
    if len == s.len() {
        s
    } else {
        reverse_window_spec(s, start, len)
    }
}

/// Reverses the circular stretch of the tour from position `start` to
/// position `end` in place, swapping its ends inwards (the 2-opt move of the
/// candidate-list local search).
pub fn reverse_segment(path: &mut Vec<usize>, start: usize, end: usize)
    requires
        old(path)@.len() <= usize::MAX / 2,
        start < old(path)@.len(),
        end < old(path)@.len(),
    ensures
        final(path)@ == reverse_segment_spec(old(path)@, start as int, end as int),
        same_nodes(final(path)@, old(path)@),
{
    let ghost s = path@;
    let n = path.len();
    let ghost nn = n as int;
    let ghost len = window_len(start as int, end as int, nn);
    proof {
        lemma_index_of_offset(end as int, start as int, nn);
        lemma_mod_wrap(start as int, nn);
    }
    let mut i = start;
    let mut j = end;
    let ghost mut t: int = 0;
    while i != j && (i + n - 1) % n != j
        invariant
            n == s.len(),
            nn == n,
            n <= usize::MAX / 2,
            start < n,
            end < n,
            len == window_len(start as int, end as int, nn),
            1 <= len <= nn,
            end as int == circ_index(start as int, len - 1, nn),
            0 <= t,
            2 * t <= len,
            t == 0 || len < nn,
            i as int == circ_index(start as int, t, nn),
            j as int == circ_index(start as int, len - 1 - t, nn),
            i < n,
            j < n,
            path@.len() == n,
            forall|p: int|
                0 <= p < n ==> #[trigger] path@[p] == {
                    let off = circ_offset(p, start as int, nn);
                    if off < t || (len - 1 - t < off && off < len) {
                        s[circ_index(start as int, len - 1 - off, nn)]
                    } else {
                        s[p]
                    }
                },
        decreases len - 2 * t,
    {
        proof {
            lemma_mod_wrap(i + n - 1, nn);
            lemma_mod_wrap(start + t, nn);
            if len == nn && t == 0 {
                lemma_mod_wrap(start + len - 1, nn);
                assert((i + n - 1) as int % nn == j as int);
                assert(false);
            }
            assert(len - 2 * t >= 2) by {
                if len - 2 * t == 1 {
                    assert(i == j);
                }
                if len - 2 * t == 0 {
                    if t == 0 {
                    } else {
                        lemma_mod_wrap(start + (t - 1), nn);
                        assert((i + n - 1) as int % nn == circ_index(start as int, t - 1, nn));
                    }
                }
            }
            lemma_offset_of_index(start as int, t, nn);
            lemma_offset_of_index(start as int, len - 1 - t, nn);
        }
        let x = path[i];
        let y = path[j];
        let ghost before = path@;
        path.set(i, y);
        path.set(j, x);
        proof {
            assert forall|p: int| 0 <= p < n implies #[trigger] path@[p] == {
                let off = circ_offset(p, start as int, nn);
                if off < t + 1 || (len - 1 - (t + 1) < off && off < len) {
                    s[circ_index(start as int, len - 1 - off, nn)]
                } else {
                    s[p]
                }
            } by {
                lemma_index_of_offset(p, start as int, nn);
                let off = circ_offset(p, start as int, nn);
                if p == i as int {
                    assert(off == t);
                    assert(before[j as int] == s[j as int]);
                } else if p == j as int {
                    assert(off == len - 1 - t);
                    assert(before[i as int] == s[i as int]);
                } else {
                    assert(path@[p] == before[p]);
                    if off == t {
                        assert(circ_index(start as int, t, nn) == p);
                    }
                    if off == len - 1 - t {
                        assert(circ_index(start as int, len - 1 - t, nn) == p);
                    }
                }
            }
            lemma_mod_wrap(i + 1, nn);
            lemma_mod_wrap(j + n - 1, nn);
            lemma_mod_wrap(start + t, nn);
            lemma_mod_wrap(start + (t + 1), nn);
            lemma_mod_wrap(start + (len - 1 - t), nn);
            lemma_mod_wrap(start + (len - 2 - t), nn);
        }
        i = (i + 1) % n;
        j = (j + n - 1) % n;
        proof {
            t = t + 1;
        }
    }
    proof {
        lemma_mod_wrap(i + n - 1, nn);
        if len == nn {
            if t > 0 {
                assert(false);
            }
            assert forall|p: int| 0 <= p < n implies path@[p] == s[p] by {
                lemma_index_of_offset(p, start as int, nn);
            }
            assert(path@ =~= s);
        } else {
            assert(len - 2 * t <= 1) by {
                if len - 2 * t >= 2 {
                    lemma_offset_of_index(start as int, t, nn);
                    lemma_offset_of_index(start as int, len - 1 - t, nn);
                    lemma_mod_wrap(start + t, nn);
                    if t == 0 {
                        lemma_mod_wrap(start + nn - 1, nn);
                        lemma_offset_of_index(start as int, nn - 1, nn);
                        assert((i + n - 1) as int % nn == circ_index(start as int, nn - 1, nn));
                    } else {
                        lemma_mod_wrap(start + (t - 1), nn);
                        lemma_offset_of_index(start as int, t - 1, nn);
                        assert((i + n - 1) as int % nn == circ_index(start as int, t - 1, nn));
                    }
                    assert(i != j);
                }
            }
            assert forall|p: int| 0 <= p < n implies path@[p] == reverse_window_spec(s, start as int, len)[p] by {
                lemma_index_of_offset(p, start as int, nn);
            }
            assert(path@ =~= reverse_window_spec(s, start as int, len));
        }
        lemma_reverse_window_keeps_nodes(s, start as int, len);
    }
}

/// What reversing the circular stretch from `start` to `end` does, whatever
/// its length: with `len` the number of positions from `start` round to
/// `end`, a stretch shorter than the whole cycle has the entry at offset
/// `len - 1 - k` moved to offset `k`, every position outside it keeps its
/// entry, and a stretch that covers the whole cycle leaves the tour as it
/// is.
pub proof fn lemma_reverse_segment_reverses(s: Seq<usize>, start: int, end: int)
    requires
        0 <= start < s.len(),
        0 <= end < s.len(),
    ensures
        ({
            let n = s.len() as int;
            let len = if start <= end { end - start + 1 } else { end + n - start + 1 };
            let r = reverse_segment_spec(s, start, end);
            &&& r.len() == n
            &&& len == n ==> r == s
            &&& len < n ==> forall|k: int|
                0 <= k < len ==> #[trigger] r[circ_index(start, k, n)] == s[circ_index(start, len - 1 - k, n)]
            &&& len < n ==> forall|p: int|
                0 <= p < n && !(exists|k: int| 0 <= k < len && p == #[trigger] circ_index(start, k, n))
                    ==> #[trigger] r[p] == s[p]
        }),
{
    let n = s.len() as int;
    let len = if start <= end { end - start + 1 } else { end + n - start + 1 };
    lemma_mod_wrap(end - start + n, n);
    assert(window_len(start, end, n) == len);
    let r = reverse_segment_spec(s, start, end);
    if len < n {
        assert forall|k: int| 0 <= k < len implies #[trigger] r[circ_index(start, k, n)] == s[circ_index(
            start,
            len - 1 - k,
            n,
        )] by {
            lemma_offset_of_index(start, k, n);
        }
        assert forall|p: int|
            0 <= p < n && !(exists|k: int| 0 <= k < len && p == #[trigger] circ_index(start, k, n))
                implies #[trigger] r[p] == s[p] by {
            lemma_index_of_offset(p, start, n);
            let off = circ_offset(p, start, n);
            if off < len {
                assert(p == circ_index(start, off, n));
            }
        }
    }
}

/// The tour read round the cycle from position `i`, skipping the `len`
/// entries that follow `path[i]`.
pub open spec fn rotate_skipping_spec(path: Seq<usize>, i: int, len: int) -> Seq<usize> {
    let n = path.len() as int;
    Seq::new((n - len) as nat, |q: int| if q == 0 { path[i] } else { path[circ_index(i, len + q, n)] })
}

/// Reads the tour round the cycle from position `i`, leaving out the `len`
/// entries after `path[i]` (the direct-connection option of bubble removal).
pub fn rotate_skipping(path: &Vec<usize>, i: usize, len: usize) -> (r: Vec<usize>)
    requires
        path@.len() <= usize::MAX / 2,
        i < path@.len(),
        len < path@.len(),
    ensures
        r@ == rotate_skipping_spec(path@, i as int, len as int),
        same_nodes(r@ + circular_segment_spec(path@, circ_index(i as int, 1, path@.len() as int), len as int), path@),
{
    let n = path.len();
    let mut r: Vec<usize> = Vec::new();
    let mut k: usize = 0;
    while k < n
        invariant
            k <= n,
            i < n,
            len < n,
            n == path@.len(),
            n <= usize::MAX / 2,
            r@.len() == if k == 0 { 0 } else if k <= len + 1 { 1 } else { k - len },
            forall|q: int| 0 <= q < r@.len() ==> #[trigger] r@[q] == rotate_skipping_spec(path@, i as int, len as int)[q],
        decreases n - k,
    {
        let idx = (i + k) % n;
        if k >= 1 && k <= len {
        } else {
            proof {
                lemma_mod_wrap(i + k, n as int);
                lemma_mod_wrap(i as int, n as int);
            }
            r.push(path[idx]);
        }
        k = k + 1;
    }
    assert(r@ =~= rotate_skipping_spec(path@, i as int, len as int));
    proof {
        broadcast use vstd::seq_lib::lemma_multiset_commutative;

        let nn = n as int;
        let rot = path@.subrange(i as int, nn) + path@.subrange(0, i as int);
        assert forall|q: int| 0 <= q < nn implies rot[q] == path@[circ_index(i as int, q, nn)] by {
            lemma_mod_wrap(i + q, nn);
        }
        let seg = circular_segment_spec(path@, circ_index(i as int, 1, nn), len as int);
        lemma_mod_wrap(i + 1, nn);
        assert forall|q: int| 0 <= q < len implies seg[q] == rot[1 + q] by {
            let c = circ_index(i as int, 1, nn);
            lemma_mod_wrap(c + q, nn);
            lemma_mod_wrap(i + 1 + q, nn);
        }
        assert(seg =~= rot.subrange(1, len + 1));
        assert(r@ =~= rot.subrange(0, 1) + rot.subrange(len + 1, nn));
        assert(rot =~= rot.subrange(0, 1) + rot.subrange(1, len + 1) + rot.subrange(len + 1, nn));
        assert((r@ + seg).to_multiset() =~= rot.to_multiset());
        assert(path@ =~= path@.subrange(0, i as int) + path@.subrange(i as int, nn));
        assert(rot.to_multiset() =~= path@.to_multiset());
    }
    r
}

} // verus!
