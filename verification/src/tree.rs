use vstd::prelude::*;
use crate::canon::{lemma_move_keeps_balance, lemma_same_key_same_moves};
use crate::color::Color;
use crate::key::lemma_key_range;
use crate::layout::Layout;
use crate::levels::{found_at, key_step, next_keys, seen_by, turn};
use crate::successors::{is_move, lemma_successors_are_moves, successors};
use vstd::set_lib::{lemma_int_range, lemma_len_subset, set_int_range};

verus! {

/// The keys of a sequence of layouts.
pub(crate) open spec fn keys_of(nodes: Seq<Layout>) -> Seq<int> {
    Seq::new(nodes.len(), |i: int| nodes[i].key())
}

/// The keys of the layouts from place `lo` up to place `hi`.
#[verifier::opaque]
pub(crate) open spec fn keys_in(nodes: Seq<Layout>, lo: int, hi: int) -> Set<int> {
    Set::new(
        |k: int|
            exists|i: int| lo <= i < hi && 0 <= i < nodes.len() && #[trigger] nodes[i].key() == k,
    )
}

/// The keys of the layouts that one move of side `s` leads to from `from`.
pub(crate) open spec fn moved_keys(from: Layout, s: Color) -> Set<int> {
    Set::new(|k: int| exists|t: Layout| #[trigger] is_move(from, s, t) && t.key() == k)
}

/// The keys that one move of side `s` leads to from the layouts from place
/// `lo` up to place `hi`.
#[verifier::opaque]
pub(crate) open spec fn stepped_keys(
    nodes: Seq<Layout>,
    lo: int,
    hi: int,
    s: Color,
) -> Set<int> {
    Set::new(
        |k: int|
            exists|i: int|
                lo <= i < hi && 0 <= i < nodes.len() && #[trigger] moved_keys(nodes[i], s).contains(
                    k,
                ),
    )
}

/// The set of keys seen holds the keys in `keys`, as 32-bit numbers.
pub(crate) open spec fn mirrors(seen: Set<u32>, keys: Set<int>) -> bool {
    forall|k: u32| #[trigger] seen.contains(k) <==> keys.contains(k as int)
}

/// What the search knows of the layouts that it has found so far: the first
/// is the start, and each other one comes by one move from an earlier one,
/// its parent, one level above it.
#[verifier::opaque]
pub(crate) open spec fn is_tree(
    start: Layout,
    nodes: Seq<Layout>,
    parents: Seq<usize>,
    depths: Seq<nat>,
) -> bool {
    &&& nodes.len() >= 1
    &&& parents.len() == nodes.len()
    &&& depths.len() == nodes.len()
    &&& nodes[0] == start
    &&& depths[0] == 0
    &&& forall|i: int| 0 <= i < nodes.len() ==> (#[trigger] nodes[i]).valid()
    &&& forall|i: int|
        #![trigger parents[i]]
        1 <= i < nodes.len() ==> {
            &&& parents[i] < i
            &&& depths[i] == depths[parents[i] as int] + 1
            &&& is_move(nodes[parents[i] as int], turn(depths[parents[i] as int] as int), nodes[i])
        }
}

/// What holds of the search at every moment: the layouts found form a tree,
/// no two of them share a key, and the set of keys seen holds the keys of
/// exactly these layouts.
pub(crate) open spec fn search_ok(
    start: Layout,
    nodes: Seq<Layout>,
    parents: Seq<usize>,
    depths: Seq<nat>,
    seen: Set<u32>,
) -> bool {
    &&& is_tree(start, nodes, parents, depths)
    &&& keys_of(nodes).no_duplicates()
    &&& mirrors(seen, keys_in(nodes, 0, nodes.len() as int))
}

/// No layouts: no keys.
pub(crate) proof fn lemma_keys_none(nodes: Seq<Layout>, lo: int)
    ensures
        keys_in(nodes, lo, lo) == Set::<int>::empty(),
{
    reveal(keys_in);
    assert(keys_in(nodes, lo, lo) =~= Set::<int>::empty());
}

/// One more layout: one more key.
pub(crate) proof fn lemma_keys_next(nodes: Seq<Layout>, lo: int, hi: int)
    requires
        0 <= lo <= hi < nodes.len(),
    ensures
        keys_in(nodes, lo, hi + 1) == keys_in(nodes, lo, hi).insert(nodes[hi].key()),
{
    reveal(keys_in);
    let a = keys_in(nodes, lo, hi + 1);
    let b = keys_in(nodes, lo, hi).insert(nodes[hi].key());
    assert forall|k: int| a.contains(k) <==> b.contains(k) by {
        if a.contains(k) {
            let i = choose|i: int|
                lo <= i < hi + 1 && 0 <= i < nodes.len() && #[trigger] nodes[i].key() == k;
            if i < hi {
                assert(nodes[i].key() == k);
            }
        }
        if b.contains(k) {
            if nodes[hi].key() == k {
            } else {
                let i = choose|i: int|
                    lo <= i < hi && 0 <= i < nodes.len() && #[trigger] nodes[i].key() == k;
                assert(nodes[i].key() == k);
            }
        }
    }
    assert(a =~= b);
}

/// Two sequences that hold the same layouts from `lo` up to `hi` have the
/// same keys there.
pub(crate) proof fn lemma_keys_same(a: Seq<Layout>, b: Seq<Layout>, lo: int, hi: int)
    requires
        0 <= lo,
        hi <= a.len(),
        hi <= b.len(),
        forall|i: int| lo <= i < hi ==> a[i] == b[i],
    ensures
        keys_in(a, lo, hi) == keys_in(b, lo, hi),
{
    reveal(keys_in);
    let x = keys_in(a, lo, hi);
    let y = keys_in(b, lo, hi);
    assert forall|k: int| x.contains(k) <==> y.contains(k) by {
        if x.contains(k) {
            let i = choose|i: int| lo <= i < hi && 0 <= i < a.len() && #[trigger] a[i].key() == k;
            assert(b[i].key() == k);
        }
        if y.contains(k) {
            let i = choose|i: int| lo <= i < hi && 0 <= i < b.len() && #[trigger] b[i].key() == k;
            assert(a[i].key() == k);
        }
    }
    assert(x =~= y);
}

/// The keys of a stretch are the keys of its two parts.
proof fn lemma_keys_split(nodes: Seq<Layout>, lo: int, mid: int, hi: int)
    requires
        lo <= mid <= hi,
    ensures
        keys_in(nodes, lo, hi) == keys_in(nodes, lo, mid).union(keys_in(nodes, mid, hi)),
{
    reveal(keys_in);
    let x = keys_in(nodes, lo, hi);
    let y = keys_in(nodes, lo, mid).union(keys_in(nodes, mid, hi));
    assert forall|k: int| x.contains(k) <==> y.contains(k) by {
        if x.contains(k) {
            let i = choose|i: int|
                lo <= i < hi && 0 <= i < nodes.len() && #[trigger] nodes[i].key() == k;
            if i < mid {
                assert(keys_in(nodes, lo, mid).contains(k));
            } else {
                assert(keys_in(nodes, mid, hi).contains(k));
            }
        }
    }
    assert(x =~= y);
}

/// Where no two layouts share a key, two stretches that do not meet share
/// no key.
proof fn lemma_keys_apart(nodes: Seq<Layout>, lo: int, mid: int, hi: int)
    requires
        keys_of(nodes).no_duplicates(),
        lo <= mid <= hi,
    ensures
        keys_in(nodes, lo, mid).disjoint(keys_in(nodes, mid, hi)),
{
    reveal(keys_in);
    assert forall|k: int|
        !(keys_in(nodes, lo, mid).contains(k) && keys_in(nodes, mid, hi).contains(k)) by {
        if keys_in(nodes, lo, mid).contains(k) && keys_in(nodes, mid, hi).contains(k) {
            let i = choose|i: int|
                lo <= i < mid && 0 <= i < nodes.len() && #[trigger] nodes[i].key() == k;
            let j = choose|j: int|
                mid <= j < hi && 0 <= j < nodes.len() && #[trigger] nodes[j].key() == k;
            assert(keys_of(nodes)[i] == keys_of(nodes)[j]);
        }
    }
}

/// The key of a layout of a stretch is among the keys of the stretch.
pub(crate) proof fn lemma_keys_has(nodes: Seq<Layout>, lo: int, hi: int, i: int)
    requires
        lo <= i < hi,
        0 <= i < nodes.len(),
    ensures
        keys_in(nodes, lo, hi).contains(nodes[i].key()),
{
    reveal(keys_in);
}

/// A key of a stretch is the key of one of its layouts.
proof fn lemma_keys_find(nodes: Seq<Layout>, lo: int, hi: int, k: int) -> (i: int)
    requires
        keys_in(nodes, lo, hi).contains(k),
    ensures
        lo <= i < hi,
        0 <= i < nodes.len(),
        nodes[i].key() == k,
{
    reveal(keys_in);
    choose|i: int| lo <= i < hi && 0 <= i < nodes.len() && #[trigger] nodes[i].key() == k
}

/// No layouts: no moves.
pub(crate) proof fn lemma_stepped_none(nodes: Seq<Layout>, lo: int, s: Color)
    ensures
        stepped_keys(nodes, lo, lo, s) == Set::<int>::empty(),
{
    reveal(stepped_keys);
    assert(stepped_keys(nodes, lo, lo, s) =~= Set::<int>::empty());
}

/// One more layout: the keys that its moves lead to.
pub(crate) proof fn lemma_stepped_next(nodes: Seq<Layout>, lo: int, hi: int, s: Color)
    requires
        0 <= lo <= hi < nodes.len(),
    ensures
        stepped_keys(nodes, lo, hi + 1, s) == stepped_keys(nodes, lo, hi, s).union(
            moved_keys(nodes[hi], s),
        ),
{
    reveal(stepped_keys);
    let a = stepped_keys(nodes, lo, hi + 1, s);
    let b = stepped_keys(nodes, lo, hi, s).union(moved_keys(nodes[hi], s));
    assert forall|k: int| a.contains(k) <==> b.contains(k) by {
        if a.contains(k) {
            let i = choose|i: int|
                lo <= i < hi + 1 && 0 <= i < nodes.len() && #[trigger] moved_keys(
                    nodes[i],
                    s,
                ).contains(k);
            if i < hi {
                assert(moved_keys(nodes[i], s).contains(k));
            }
        }
        if b.contains(k) {
            if moved_keys(nodes[hi], s).contains(k) {
            } else {
                let i = choose|i: int|
                    lo <= i < hi && 0 <= i < nodes.len() && #[trigger] moved_keys(
                        nodes[i],
                        s,
                    ).contains(k);
                assert(moved_keys(nodes[i], s).contains(k));
            }
        }
    }
    assert(a =~= b);
}

/// The keys of the successors of a layout are the keys that its moves lead
/// to.
pub(crate) proof fn lemma_successor_keys(from: Layout, s: Color)
    ensures
        keys_in(successors(from, s), 0, successors(from, s).len() as int) == moved_keys(from, s),
{
    reveal(keys_in);
    let succ = successors(from, s);
    let a = keys_in(succ, 0, succ.len() as int);
    let b = moved_keys(from, s);
    assert forall|k: int| a.contains(k) <==> b.contains(k) by {
        if a.contains(k) {
            let i = choose|i: int|
                0 <= i < succ.len() && 0 <= i < succ.len() && #[trigger] succ[i].key() == k;
            assert(succ.contains(succ[i]));
            lemma_successors_are_moves(from, s, succ[i]);
        }
        if b.contains(k) {
            let t = choose|t: Layout| #[trigger] is_move(from, s, t) && t.key() == k;
            lemma_successors_are_moves(from, s, t);
            let i = choose|i: int| 0 <= i < succ.len() && succ[i] == t;
            assert(succ[i].key() == k);
        }
    }
    assert(a =~= b);
}

/// There are no more layouts with different keys than there are keys.
proof fn lemma_key_count(nodes: Seq<Layout>)
    requires
        keys_of(nodes).no_duplicates(),
        forall|i: int| 0 <= i < nodes.len() ==> (#[trigger] nodes[i]).valid(),
    ensures
        nodes.len() <= 0x1_0000_0000,
{
    let keys = keys_of(nodes);
    assert forall|i: int| 0 <= i < keys.len() implies 0 <= #[trigger] keys[i] < 0x1_0000_0000 by {
        assert(nodes[i].valid());
        lemma_key_range(nodes[i]);
    }
    keys.unique_seq_to_set();
    lemma_int_range(0, 0x1_0000_0000);
    assert(keys.to_set().subset_of(set_int_range(0, 0x1_0000_0000)));
    lemma_len_subset(keys.to_set(), set_int_range(0, 0x1_0000_0000));
}

/// The search has found no more layouts than there are keys.
pub(crate) proof fn lemma_node_count(
    start: Layout,
    nodes: Seq<Layout>,
    parents: Seq<usize>,
    depths: Seq<nat>,
    seen: Set<u32>,
)
    requires
        search_ok(start, nodes, parents, depths, seen),
    ensures
        1 <= nodes.len() <= 0x1_0000_0000,
        parents.len() == nodes.len(),
        depths.len() == nodes.len(),
        nodes[0] == start,
        depths[0] == 0,
{
    reveal(is_tree);
    lemma_key_count(nodes);
}

/// A valid layout one move away from a node can join the tree.
proof fn lemma_grow_tree(
    start: Layout,
    nodes: Seq<Layout>,
    parents: Seq<usize>,
    depths: Seq<nat>,
    t: Layout,
    parent: usize,
)
    requires
        is_tree(start, nodes, parents, depths),
        parent < nodes.len(),
        t.valid(),
        is_move(nodes[parent as int], turn(depths[parent as int] as int), t),
    ensures
        is_tree(start, nodes.push(t), parents.push(parent), depths.push(depths[parent as int] + 1)),
{
    reveal(is_tree);
    let nodes2 = nodes.push(t);
    let parents2 = parents.push(parent);
    let depths2 = depths.push(depths[parent as int] + 1);
    let n = nodes.len() as int;
    assert forall|i: int| 0 <= i < nodes2.len() implies (#[trigger] nodes2[i]).valid() by {
        if i < n {
            assert(nodes[i].valid());
        }
    }
    assert forall|i: int| #![trigger parents2[i]] 1 <= i < nodes2.len() implies {
        &&& parents2[i] < i
        &&& depths2[i] == depths2[parents2[i] as int] + 1
        &&& is_move(
            nodes2[parents2[i] as int],
            turn(depths2[parents2[i] as int] as int),
            nodes2[i],
        )
    } by {
        if i < n {
            let q = parents[i];
            assert(q < i);
            assert(nodes2[i] == nodes[i]);
            assert(nodes2[q as int] == nodes[q as int]);
            assert(depths2[i] == depths[i]);
            assert(depths2[q as int] == depths[q as int]);
        }
    }
}

/// A layout whose key no earlier layout has keeps the keys distinct.
proof fn lemma_grow_keys(nodes: Seq<Layout>, t: Layout)
    requires
        keys_of(nodes).no_duplicates(),
        !keys_in(nodes, 0, nodes.len() as int).contains(t.key()),
    ensures
        keys_of(nodes.push(t)).no_duplicates(),
{
    reveal(keys_in);
    let nodes2 = nodes.push(t);
    let n = nodes.len() as int;
    assert forall|i: int, j: int|
        0 <= i < nodes2.len() && 0 <= j < nodes2.len() && i != j implies keys_of(nodes2)[i]
        != keys_of(nodes2)[j] by {
        if i < n && j < n {
            assert(keys_of(nodes)[i] != keys_of(nodes)[j]);
        } else if i < n {
            assert(nodes[i].key() != t.key());
        } else {
            assert(nodes[j].key() != t.key());
        }
    }
}

/// The layouts with one more have the keys of the layouts and one more.
pub(crate) proof fn lemma_grow_keyed(nodes: Seq<Layout>, t: Layout)
    ensures
        keys_in(nodes.push(t), 0, nodes.len() as int + 1) == keys_in(
            nodes,
            0,
            nodes.len() as int,
        ).insert(t.key()),
{
    let n = nodes.len() as int;
    lemma_keys_next(nodes.push(t), 0, n);
    lemma_keys_same(nodes.push(t), nodes, 0, n);
}

/// A layout with a new key, one move away from a node, can join the search.
pub(crate) proof fn lemma_grow(
    start: Layout,
    nodes: Seq<Layout>,
    parents: Seq<usize>,
    depths: Seq<nat>,
    seen: Set<u32>,
    t: Layout,
    parent: usize,
    key: u32,
)
    requires
        search_ok(start, nodes, parents, depths, seen),
        parent < nodes.len(),
        t.valid(),
        t.key() == key,
        !seen.contains(key),
        is_move(nodes[parent as int], turn(depths[parent as int] as int), t),
    ensures
        search_ok(
            start,
            nodes.push(t),
            parents.push(parent),
            depths.push(depths[parent as int] + 1),
            seen.insert(key),
        ),
{
    lemma_grow_tree(start, nodes, parents, depths, t, parent);
    lemma_grow_keys(nodes, t);
    lemma_grow_keyed(nodes, t);
    let keys = keys_in(nodes, 0, nodes.len() as int);
    assert forall|k: u32| #[trigger]
        seen.insert(key).contains(k) <==> keys.insert(t.key()).contains(k as int) by {
        assert(seen.contains(k) <==> keys.contains(k as int));
    }
}

/// In a tree below a balanced start every layout is balanced.
proof fn lemma_tree_balanced(
    start: Layout,
    nodes: Seq<Layout>,
    parents: Seq<usize>,
    depths: Seq<nat>,
    i: int,
)
    requires
        is_tree(start, nodes, parents, depths),
        start.balanced(),
        0 <= i < nodes.len(),
    ensures
        nodes[i].valid(),
        nodes[i].balanced(),
    decreases i,
{
    reveal(is_tree);
    if i > 0 {
        let q = parents[i];
        lemma_tree_balanced(start, nodes, parents, depths, q as int);
        lemma_move_keeps_balance(nodes[q as int], turn(depths[q as int] as int), nodes[i]);
    }
}

/// A key that a move leads to from a layout of a stretch is a key that a
/// move leads to from a key of the stretch.
proof fn lemma_stepped_in_next(nodes: Seq<Layout>, lo: int, hi: int, s: Color, k2: int)
    requires
        forall|i: int| lo <= i < hi && 0 <= i < nodes.len() ==> (#[trigger] nodes[i]).valid(),
        stepped_keys(nodes, lo, hi, s).contains(k2),
    ensures
        next_keys(keys_in(nodes, lo, hi), s).contains(k2),
{
    reveal(stepped_keys);
    let i = choose|i: int|
        lo <= i < hi && 0 <= i < nodes.len() && #[trigger] moved_keys(nodes[i], s).contains(k2);
    let l = nodes[i];
    let t = choose|t: Layout| #[trigger] is_move(l, s, t) && t.key() == k2;
    lemma_keys_has(nodes, lo, hi, i);
    assert(l.valid());
    assert(l.valid() && l.key() == l.key() && is_move(l, s, t) && t.key() == k2);
    assert(key_step(l.key(), s, k2));
}

/// A key that a move leads to from a key of a stretch of balanced layouts
/// is a key that a move leads to from a layout of the stretch.
proof fn lemma_next_in_stepped(nodes: Seq<Layout>, lo: int, hi: int, s: Color, k2: int)
    requires
        forall|i: int|
            lo <= i < hi && 0 <= i < nodes.len() ==> (#[trigger] nodes[i]).valid()
                && nodes[i].balanced(),
        next_keys(keys_in(nodes, lo, hi), s).contains(k2),
    ensures
        stepped_keys(nodes, lo, hi, s).contains(k2),
{
    reveal(stepped_keys);
    let keys = keys_in(nodes, lo, hi);
    let k = choose|k: int| keys.contains(k) && #[trigger] key_step(k, s, k2);
    let (l, t) = choose|l: Layout, t: Layout|
        l.valid() && l.key() == k && #[trigger] is_move(l, s, t) && t.key() == k2;
    let i = lemma_keys_find(nodes, lo, hi, k);
    let a = nodes[i];
    assert(a.valid() && a.balanced());
    lemma_same_key_same_moves(a, l, s, t);
    let u = choose|u: Layout| #[trigger] is_move(a, s, u) && u.key() == t.key();
    assert(is_move(a, s, u) && u.key() == k2);
    assert(moved_keys(a, s).contains(k2));
}

/// The keys that one move leads to from a stretch of balanced layouts are
/// the keys that one move leads to from the keys of the stretch.
proof fn lemma_stepped_is_next(nodes: Seq<Layout>, lo: int, hi: int, s: Color)
    requires
        forall|i: int|
            lo <= i < hi && 0 <= i < nodes.len() ==> (#[trigger] nodes[i]).valid()
                && nodes[i].balanced(),
    ensures
        stepped_keys(nodes, lo, hi, s) == next_keys(keys_in(nodes, lo, hi), s),
{
    let a = stepped_keys(nodes, lo, hi, s);
    let b = next_keys(keys_in(nodes, lo, hi), s);
    assert forall|k2: int| a.contains(k2) <==> b.contains(k2) by {
        if a.contains(k2) {
            lemma_stepped_in_next(nodes, lo, hi, s, k2);
        }
        if b.contains(k2) {
            lemma_next_in_stepped(nodes, lo, hi, s, k2);
        }
    }
    assert(a =~= b);
}

/// From one level to the next: what the search has added while it went
/// through a level of balanced layouts are the keys of the next depth.
pub(crate) proof fn lemma_next_level(
    start: Layout,
    level: Seq<Layout>,
    nodes: Seq<Layout>,
    parents: Seq<usize>,
    depths: Seq<nat>,
    first: int,
    d: nat,
)
    requires
        is_tree(start, nodes, parents, depths),
        keys_of(nodes).no_duplicates(),
        start.balanced(),
        0 <= first <= level.len() <= nodes.len(),
        forall|j: int| 0 <= j < level.len() ==> nodes[j] == level[j],
        keys_in(level, first, level.len() as int) == found_at(start, d),
        keys_in(level, 0, level.len() as int) == seen_by(start, d),
        keys_in(nodes, 0, nodes.len() as int) == keys_in(level, 0, level.len() as int).union(
            stepped_keys(level, first, level.len() as int, turn(d as int)),
        ),
    ensures
        keys_in(nodes, level.len() as int, nodes.len() as int) == found_at(start, d + 1),
        keys_in(nodes, 0, nodes.len() as int) == seen_by(start, d + 1),
{
    let last = level.len() as int;
    let n = nodes.len() as int;
    let s = turn(d as int);
    assert forall|j: int| first <= j < last && 0 <= j < level.len() implies (#[trigger] level[
        j
    ]).valid() && level[j].balanced() by {
        lemma_tree_balanced(start, nodes, parents, depths, j);
    }
    lemma_stepped_is_next(level, first, last, s);
    lemma_keys_same(nodes, level, 0, last);
    lemma_keys_split(nodes, 0, last, n);
    lemma_keys_apart(nodes, 0, last, n);
    let old_keys = keys_in(nodes, 0, last);
    let new_keys = keys_in(nodes, last, n);
    let stepped = stepped_keys(level, first, last, s);
    assert(old_keys.union(new_keys) == old_keys.union(stepped));
    assert(old_keys.disjoint(new_keys));
    assert forall|k: int| new_keys.contains(k) <==> stepped.difference(old_keys).contains(k) by {
        if new_keys.contains(k) {
            assert(old_keys.union(new_keys).contains(k));
            assert(old_keys.union(stepped).contains(k));
        }
        if stepped.contains(k) && !old_keys.contains(k) {
            assert(old_keys.union(stepped).contains(k));
            assert(old_keys.union(new_keys).contains(k));
        }
    }
    assert(new_keys =~= stepped.difference(old_keys));
    assert(found_at(start, d + 1) == next_keys(found_at(start, d), turn(d as int)).difference(
        seen_by(start, d),
    ));
    assert(seen_by(start, d + 1) == seen_by(start, d).union(found_at(start, d + 1)));
}

/// The search starts with the start alone.
pub(crate) proof fn lemma_start(start: Layout, seen: Set<u32>)
    requires
        start.valid(),
        seen == Set::<u32>::empty().insert(start.key() as u32),
    ensures
        search_ok(start, seq![start], seq![0usize], seq![0nat], seen),
        keys_in(seq![start], 0, 1) == found_at(start, 0),
        keys_in(seq![start], 0, 1) == seen_by(start, 0),
{
    reveal(is_tree);
    let nodes = seq![start];
    lemma_key_range(start);
    lemma_keys_none(nodes, 0);
    lemma_keys_next(nodes, 0, 0);
    assert(keys_in(nodes, 0, 1) =~= set![start.key()]);
    assert(mirrors(seen, keys_in(nodes, 0, 1)));
}

} // verus!
