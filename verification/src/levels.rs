use vstd::prelude::*;
use crate::color::Color;
use crate::layout::Layout;
use crate::canon::{lemma_move_keeps_balance, lemma_same_key_same_moves};
use crate::successors::is_move;

verus! {

/// The side that moves at depth `d`: white at depth 0, then the sides in
/// turn.
pub open spec fn turn(d: int) -> Color {
    if d % 2 == 0 {
        Color::White
    } else {
        Color::Black
    }
}

/// `path` leads from `start` to a layout with key `goal`, by one legal move
/// after the other, the sides moving in turn and white first.
pub open spec fn is_route(start: Layout, goal: int, path: Seq<Layout>) -> bool {
    &&& path.len() >= 1
    &&& path[0] == start
    &&& path.last().key() == goal
    &&& forall|i: int|
        #![trigger path[i]]
        0 <= i < path.len() - 1 ==> is_move(path[i], turn(i), path[i + 1])
}

/// One move of side `s` leads from a layout with key `k` to a layout with
/// key `k2`.
pub open spec fn key_step(k: int, s: Color, k2: int) -> bool {
    exists|l: Layout, t: Layout|
        l.valid() && l.key() == k && #[trigger] is_move(l, s, t) && t.key() == k2
}

/// The keys that one move of side `s` leads to from the keys in `keys`.
pub open spec fn next_keys(keys: Set<int>, s: Color) -> Set<int> {
    Set::new(|k2: int| exists|k: int| keys.contains(k) && #[trigger] key_step(k, s, k2))
}

/// The keys that the search finds at depth `d`: at depth 0 the key of the
/// start; at each further depth the keys one move away from those of the
/// depth before, without the keys seen up to then. A key found at one depth
/// is never taken up again, whichever side would move from it.
pub open spec fn found_at(start: Layout, d: nat) -> Set<int>
    decreases d, 0nat,
{
    if d == 0 {
        set![start.key()]
    } else {
        next_keys(found_at(start, (d - 1) as nat), turn(d - 1)).difference(
            seen_by(start, (d - 1) as nat),
        )
    }
}

/// The keys that the search has found up to depth `d`.
pub open spec fn seen_by(start: Layout, d: nat) -> Set<int>
    decreases d, 1nat,
{
    if d == 0 {
        found_at(start, 0)
    } else {
        seen_by(start, (d - 1) as nat).union(found_at(start, d))
    }
}

/// Once a depth holds no key, no later depth holds one.
pub proof fn lemma_search_ends(start: Layout, d: nat, e: nat)
    requires
        found_at(start, d) == Set::<int>::empty(),
        d <= e,
    ensures
        found_at(start, e) == Set::<int>::empty(),
    decreases e,
{
    if d < e {
        lemma_search_ends(start, d, (e - 1) as nat);
        assert(found_at(start, e) =~= Set::<int>::empty());
    }
}

/// What is found at a depth has been seen by every later depth.
pub proof fn lemma_seen_grows(start: Layout, d: nat, e: nat)
    requires
        d <= e,
    ensures
        found_at(start, d).subset_of(seen_by(start, e)),
        seen_by(start, d).subset_of(seen_by(start, e)),
    decreases e,
{
    if d < e {
        lemma_seen_grows(start, d, (e - 1) as nat);
    }
}

/// No key is found at two depths: the depth at which the search finds a key
/// is the first and the only one.
pub proof fn lemma_found_once(start: Layout, d: nat, e: nat, k: int)
    requires
        d < e,
        found_at(start, d).contains(k),
    ensures
        !found_at(start, e).contains(k),
{
    lemma_seen_grows(start, d, (e - 1) as nat);
}

/// Along a route from a valid and balanced layout every layout is valid and
/// balanced.
pub proof fn lemma_route_keeps_balance(start: Layout, goal: int, path: Seq<Layout>, i: int)
    requires
        start.valid(),
        start.balanced(),
        is_route(start, goal, path),
        0 <= i < path.len(),
    ensures
        path[i].valid(),
        path[i].balanced(),
    decreases i,
{
    if i > 0 {
        lemma_route_keeps_balance(start, goal, path, i - 1);
        assert(is_move(path[i - 1], turn(i - 1), path[i]));
        lemma_move_keeps_balance(path[i - 1], turn(i - 1), path[i]);
    }
}

/// What the search finds can be reached: a key found at depth `d` from a
/// valid and balanced start is the key at the end of a route of `d` moves.
pub proof fn lemma_found_has_route(start: Layout, d: nat, k: int) -> (path: Seq<Layout>)
    requires
        start.valid(),
        start.balanced(),
        found_at(start, d).contains(k),
    ensures
        is_route(start, k, path),
        path.len() == d + 1,
    decreases d,
{
    if d == 0 {
        let path = seq![start];
        assert(path.last() == start);
        path
    } else {
        let s = turn(d - 1);
        let before = found_at(start, (d - 1) as nat);
        let k1 = choose|k1: int| before.contains(k1) && #[trigger] key_step(k1, s, k);
        let (l, t) = choose|l: Layout, t: Layout|
            l.valid() && l.key() == k1 && #[trigger] is_move(l, s, t) && t.key() == k;
        let head = lemma_found_has_route(start, (d - 1) as nat, k1);
        let a = head.last();
        lemma_route_keeps_balance(start, k1, head, d - 1);
        lemma_same_key_same_moves(a, l, s, t);
        let u = choose|u: Layout| #[trigger] is_move(a, s, u) && u.key() == t.key();
        let path = head.push(u);
        assert forall|i: int| #![trigger path[i]] 0 <= i < path.len() - 1 implies is_move(
            path[i],
            turn(i),
            path[i + 1],
        ) by {
            if i < d - 1 {
                assert(path[i] == head[i]);
                assert(path[i + 1] == head[i + 1]);
                assert(is_move(head[i], turn(i), head[i + 1]));
            } else {
                assert(path[i] == a);
                assert(path[i + 1] == u);
            }
        }
        assert(path[0] == head[0]);
        assert(path.last() == u);
        path
    }
}

} // verus!
