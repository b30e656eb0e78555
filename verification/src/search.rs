use vstd::prelude::*;
use crate::board::Board;
use crate::color::Color;
use crate::layout::Layout;
use crate::levels::{
    found_at, is_route, lemma_found_once, lemma_search_ends, lemma_seen_grows, seen_by, turn,
};
use crate::successors::{is_move, layouts, lemma_successors_are_moves, successors};
use crate::tree::{
    is_tree, keys_in, lemma_grow, lemma_grow_keyed, lemma_keys_has, lemma_keys_next,
    lemma_keys_none, lemma_keys_same, lemma_next_level, lemma_node_count, lemma_start,
    lemma_stepped_next, lemma_stepped_none, lemma_successor_keys, moved_keys, search_ok,
    stepped_keys,
};
use std::collections::HashSet;

verus! {

/// The way from the start to node `at`, along the parents.
fn trace(
    nodes: &Vec<Board>,
    parents: &Vec<usize>,
    at: usize,
    Ghost(start): Ghost<Layout>,
    Ghost(depths): Ghost<Seq<nat>>,
) -> (path: Vec<Board>)
    requires
        is_tree(start, layouts(nodes@), parents@, depths),
        at < nodes.len(),
    ensures
        is_route(start, nodes@[at as int]@.key(), layouts(path@)),
        path.len() == depths[at as int] + 1,
        path@[0] == nodes@[0],
{
    reveal(is_tree);
    let ghost ls = layouts(nodes@);
    let ghost top = depths[at as int] as int;
    // From node `at` up to the start.
    let mut up: Vec<Board> = Vec::new();
    let mut cur: usize = at;
    loop
        invariant_except_break
            up.len() == top - depths[cur as int],
            up.len() == 0 ==> cur == at,
            up.len() > 0 ==> is_move(ls[cur as int], turn(top - up.len()), up@[up.len() - 1]@),
        invariant
            ls == layouts(nodes@),
            is_tree(start, ls, parents@, depths),
            at < nodes.len(),
            cur < nodes.len(),
            top == depths[at as int],
            depths[cur as int] <= top,
            up.len() > 0 ==> up@[0] == nodes@[at as int],
            forall|t: int| 0 <= t < up.len() ==> (#[trigger] up@[t])@.valid(),
            forall|t: int|
                #![trigger up@[t]]
                0 <= t < up.len() - 1 ==> is_move(up@[t + 1]@, turn(top - t - 1), up@[t]@),
        ensures
            up.len() == top + 1,
            up@[top]@ == start,
            up@[top] == nodes@[0],
        decreases cur,
    {
        reveal(is_tree);
        let board = nodes[cur];
        assert(board@ == ls[cur as int]);
        up.push(board);
        if cur == 0 {
            break ;
        }
        assert(parents@[cur as int] < cur);
        cur = parents[cur];
    }
    // And back down.
    let mut path: Vec<Board> = Vec::new();
    let mut n: usize = up.len();
    while n > 0
        invariant
            n <= up.len(),
            up.len() == top + 1,
            path.len() == up.len() - n,
            forall|t: int| 0 <= t < path.len() ==> path@[t] == up@[top - t],
        decreases n,
    {
        n -= 1;
        path.push(up[n]);
    }
    proof {
        let ps = layouts(path@);
        assert forall|i: int| #![trigger ps[i]] 0 <= i < ps.len() - 1 implies is_move(
            ps[i],
            turn(i),
            ps[i + 1],
        ) by {
            let t = top - i - 1;
            assert(up@[t + 1] == path@[i]);
            assert(up@[t] == path@[i + 1]);
        }
        assert(ps[ps.len() - 1] == up@[0]@);
    }
    path
}

/// Adds to the tree, below node `parent`, those of its successors whose key
/// has not been seen.
fn expand(
    nodes: &mut Vec<Board>,
    parents: &mut Vec<usize>,
    visited: &mut HashSet<u32>,
    next: &Vec<Board>,
    parent: usize,
    Ghost(start): Ghost<Layout>,
    Ghost(depths): Ghost<Seq<nat>>,
) -> (grown: Ghost<Seq<nat>>)
    requires
        search_ok(start, layouts(old(nodes)@), old(parents)@, depths, old(visited)@),
        parent < old(nodes).len(),
        layouts(next@) == successors(
            layouts(old(nodes)@)[parent as int],
            turn(depths[parent as int] as int),
        ),
    ensures
        search_ok(start, layouts(final(nodes)@), final(parents)@, grown@, final(visited)@),
        final(nodes).len() >= old(nodes).len(),
        forall|i: int| 0 <= i < old(nodes).len() ==> final(nodes)@[i] == old(nodes)@[i],
        forall|i: int| 0 <= i < old(nodes).len() ==> grown@[i] == depths[i],
        forall|i: int|
            old(nodes).len() <= i < final(nodes).len() ==> grown@[i] == depths[parent as int] + 1,
        keys_in(layouts(final(nodes)@), 0, final(nodes).len() as int) == keys_in(
            layouts(old(nodes)@),
            0,
            old(nodes).len() as int,
        ).union(
            moved_keys(layouts(old(nodes)@)[parent as int], turn(depths[parent as int] as int)),
        ),
{
    broadcast use vstd::std_specs::hash::group_hash_axioms;

    let ghost was = layouts(nodes@);
    let ghost from = was[parent as int];
    let ghost side = turn(depths[parent as int] as int);
    let ghost succ = layouts(next@);
    let ghost mut grown = depths;
    proof {
        lemma_keys_none(succ, 0);
        lemma_node_count(start, was, parents@, depths, visited@);
        assert(keys_in(was, 0, was.len() as int) =~= keys_in(was, 0, was.len() as int).union(
            keys_in(succ, 0, 0),
        ));
    }
    let mut j: usize = 0;
    while j < next.len()
        invariant
            j <= next.len(),
            parent < old(nodes).len(),
            depths.len() == old(nodes).len(),
            grown.len() == nodes.len(),
            parents.len() == nodes.len(),
            was == layouts(old(nodes)@),
            from == was[parent as int],
            side == turn(depths[parent as int] as int),
            succ == layouts(next@),
            succ == successors(from, side),
            search_ok(start, layouts(nodes@), parents@, grown, visited@),
            nodes.len() >= old(nodes).len(),
            forall|i: int| 0 <= i < old(nodes).len() ==> nodes@[i] == old(nodes)@[i],
            forall|i: int| 0 <= i < old(nodes).len() ==> grown[i] == depths[i],
            forall|i: int|
                old(nodes).len() <= i < nodes.len() ==> grown[i] == depths[parent as int] + 1,
            keys_in(layouts(nodes@), 0, nodes.len() as int) == keys_in(
                was,
                0,
                was.len() as int,
            ).union(keys_in(succ, 0, j as int)),
        decreases next.len() - j,
    {
        let next_board = next[j];
        let key = next_board.as_u32();
        let ghost t = next_board@;
        let ghost now = layouts(nodes@);
        proof {
            assert(succ[j as int] == t);
            lemma_keys_next(succ, 0, j as int);
            assert(visited@.contains(key) <==> keys_in(now, 0, now.len() as int).contains(
                key as int,
            ));
        }
        if !visited.contains(&key) {
            proof {
                use_type_invariant(&next_board);
                assert(succ.contains(t));
                lemma_successors_are_moves(from, side, t);
                assert(now[parent as int] == from);
                assert(grown[parent as int] == depths[parent as int]);
                lemma_grow(start, now, parents@, grown, visited@, t, parent, key);
                lemma_grow_keyed(now, t);
                assert(layouts(nodes@.push(next_board)) =~= now.push(t));
                grown = grown.push(depths[parent as int] + 1);
            }
            visited.insert(key);
            nodes.push(next_board);
            parents.push(parent);
        }
        assert(keys_in(layouts(nodes@), 0, nodes.len() as int) =~= keys_in(
            was,
            0,
            was.len() as int,
        ).union(keys_in(succ, 0, j as int + 1)));
        j += 1;
    }
    proof {
        lemma_successor_keys(from, side);
    }
    Ghost(grown)
}

/// Goes through one level of the tree, from node `first` to the last node
/// at the time of the call. It stops at the first node with key `end_u32`
/// and gives its place; otherwise it adds below each node of the level its
/// successors with new keys and answers `None`.
fn scan_level(
    nodes: &mut Vec<Board>,
    parents: &mut Vec<usize>,
    visited: &mut HashSet<u32>,
    first: usize,
    to_move: Color,
    end_u32: u32,
    Ghost(start): Ghost<Layout>,
    Ghost(depths): Ghost<Seq<nat>>,
    Ghost(depth): Ghost<nat>,
) -> (r: (Option<usize>, Ghost<Seq<nat>>))
    requires
        search_ok(start, layouts(old(nodes)@), old(parents)@, depths, old(visited)@),
        first <= old(nodes).len(),
        to_move == turn(depth as int),
        forall|i: int| first <= i < old(nodes).len() ==> depths[i] == depth,
        !keys_in(layouts(old(nodes)@), 0, first as int).contains(end_u32 as int),
    ensures
        search_ok(start, layouts(final(nodes)@), final(parents)@, r.1@, final(visited)@),
        final(nodes).len() >= old(nodes).len(),
        forall|j: int| 0 <= j < old(nodes).len() ==> final(nodes)@[j] == old(nodes)@[j],
        match r.0 {
            Some(i) => {
                &&& first <= i < old(nodes).len()
                &&& old(nodes)@[i as int]@.key() == end_u32
                &&& !keys_in(layouts(old(nodes)@), 0, i as int).contains(end_u32 as int)
                &&& r.1@[i as int] == depth
            },
            None => {
                &&& !keys_in(layouts(old(nodes)@), 0, old(nodes).len() as int).contains(
                    end_u32 as int,
                )
                &&& keys_in(layouts(final(nodes)@), 0, final(nodes).len() as int) == keys_in(
                    layouts(old(nodes)@),
                    0,
                    old(nodes).len() as int,
                ).union(
                    stepped_keys(
                        layouts(old(nodes)@),
                        first as int,
                        old(nodes).len() as int,
                        to_move,
                    ),
                )
                &&& forall|j: int|
                    old(nodes).len() <= j < final(nodes).len() ==> r.1@[j] == depth + 1
            },
        },
{
    let ghost level = layouts(nodes@);
    let ghost goal = end_u32 as int;
    let last = nodes.len();
    let ghost mut grown = depths;
    proof {
        lemma_stepped_none(level, first as int, to_move);
        lemma_node_count(start, level, parents@, depths, visited@);
        assert(keys_in(level, 0, last as int) =~= keys_in(level, 0, last as int).union(
            stepped_keys(level, first as int, first as int, to_move),
        ));
    }
    let mut i: usize = first;
    while i < last
        invariant
            search_ok(start, layouts(nodes@), parents@, grown, visited@),
            first <= i <= last,
            last <= nodes.len(),
            last == level.len(),
            last == old(nodes).len(),
            level == layouts(old(nodes)@),
            goal == end_u32 as int,
            grown.len() == nodes.len(),
            forall|j: int| 0 <= j < last ==> nodes@[j] == old(nodes)@[j],
            to_move == turn(depth as int),
            forall|j: int| first <= j < last ==> grown[j] == depth,
            forall|j: int| last <= j < nodes.len() ==> grown[j] == depth + 1,
            !keys_in(level, 0, i as int).contains(goal),
            keys_in(layouts(nodes@), 0, nodes.len() as int) == keys_in(level, 0, last as int).union(
                stepped_keys(level, first as int, i as int, to_move),
            ),
        decreases last - i,
    {
        let board = nodes[i];
        let ghost now = layouts(nodes@);
        assert(board@ == now[i as int]);
        assert(board@ == level[i as int]);
        let board_u32 = board.as_u32();
        if board_u32 == end_u32 {
            return (Some(i), Ghost(grown));
        }
        let next = board.next_boards(&to_move);
        let more = expand(nodes, parents, visited, &next, i, Ghost(start), Ghost(grown));
        proof {
            lemma_keys_next(level, 0, i as int);
            lemma_stepped_next(level, first as int, i as int, to_move);
            lemma_node_count(start, layouts(nodes@), parents@, more@, visited@);
            let a = keys_in(level, 0, last as int);
            let b = stepped_keys(level, first as int, i as int, to_move);
            let c = moved_keys(level[i as int], to_move);
            assert(a.union(b).union(c) =~= a.union(b.union(c)));
            grown = more@;
        }
        i += 1;
    }
    (None, Ghost(grown))
}

/// The way from `start` to a board with the key of `end` that a search by
/// levels finds, or `None` where it finds none.
///
/// White moves first and the sides move in turn. Level 0 is the start, and
/// each further level holds the boards one move away from the level before,
/// without those whose key was found before: a key is taken up once, at the
/// depth at which it is first found, whichever side moves there. The answer
/// leads to the first board with the key of `end`: its first board is
/// `start`, each further one comes by a legal move, and it has as many moves
/// as the depth at which that key is found.
///
/// Every answer is such a way. For a balanced start the keys of a level are
/// those of `found_at`, which says on which inputs there is an answer and how
/// long it is. The keys of boards that are not balanced do not tell all such
/// boards apart, so for such a start no more is promised than that the
/// answer is a way, and that a goal with the key of the start needs no move.
pub fn bfs(start: Board, end: Board) -> (r: Option<Vec<Board>>)
    ensures
        r matches Some(path) ==> is_route(start@, end@.key(), layouts(path@)),
        start@.key() == end@.key() ==> (r matches Some(path) && path@ == seq![start]),
        start@.balanced() ==> match r {
            Some(path) => {
                &&& found_at(start@, (path.len() - 1) as nat).contains(end@.key())
                &&& forall|d: nat|
                    d < path.len() - 1 ==> !found_at(start@, d).contains(end@.key())
            },
            None => forall|d: nat| !found_at(start@, d).contains(end@.key()),
        },
{
    broadcast use vstd::std_specs::hash::group_hash_axioms;

    proof {
        use_type_invariant(&start);
    }
    let end_u32 = end.as_u32();
    let ghost goal = end@.key();
    let mut nodes: Vec<Board> = Vec::new();
    let mut parents: Vec<usize> = Vec::new();
    let mut visited: HashSet<u32> = HashSet::new();
    nodes.push(start);
    parents.push(0);
    visited.insert(start.as_u32());
    let ghost mut depths: Seq<nat> = seq![0nat];
    let ghost mut depth: nat = 0;
    let mut to_move = Color::White;
    let mut first: usize = 0;
    let mut last: usize = 1;
    proof {
        let ls = layouts(nodes@);
        assert(ls =~= seq![start@]);
        assert(parents@ =~= seq![0usize]);
        lemma_start(start@, visited@);
        lemma_keys_none(ls, 0);
    }
    while first < last
        invariant
            search_ok(start@, layouts(nodes@), parents@, depths, visited@),
            nodes@[0] == start,
            first <= last,
            last == nodes.len(),
            nodes.len() <= 0x1_0000_0000,
            to_move == turn(depth as int),
            end_u32 == goal,
            goal == end@.key(),
            forall|i: int| first <= i < last ==> depths[i] == depth,
            !keys_in(layouts(nodes@), 0, first as int).contains(goal),
            start@.balanced() ==> keys_in(layouts(nodes@), first as int, last as int) == found_at(
                start@,
                depth,
            ),
            start@.balanced() ==> keys_in(layouts(nodes@), 0, last as int) == seen_by(
                start@,
                depth,
            ),
        decreases 0x1_0000_0000 - nodes.len(), last - first,
    {
        let ghost level = layouts(nodes@);
        let (found, grown) = scan_level(
            &mut nodes,
            &mut parents,
            &mut visited,
            first,
            to_move,
            end_u32,
            Ghost(start@),
            Ghost(depths),
            Ghost(depth),
        );
        let ghost ls = layouts(nodes@);
        proof {
            lemma_node_count(start@, ls, parents@, grown@, visited@);
        }
        match found {
            Some(i) => {
                let path = trace(&nodes, &parents, i, Ghost(start@), grown);
                proof {
                    assert(ls[i as int] == level[i as int]);
                    if start@.key() == goal {
                        if i > 0 {
                            lemma_keys_has(level, 0, i as int, 0);
                        }
                        assert(path@ =~= seq![start]);
                    }
                    if start@.balanced() {
                        lemma_keys_has(level, first as int, last as int, i as int);
                        assert forall|d: nat| d < depth implies !found_at(start@, d).contains(
                            goal,
                        ) by {
                            if found_at(start@, d).contains(goal) {
                                lemma_found_once(start@, d, depth, goal);
                            }
                        }
                    }
                }
                return Some(path);
            },
            None => {},
        }
        proof {
            if start@.balanced() {
                lemma_next_level(start@, level, ls, parents@, grown@, first as int, depth);
            }
            lemma_keys_same(ls, level, 0, last as int);
            depths = grown@;
            depth = depth + 1;
        }
        first = last;
        last = nodes.len();
        to_move = to_move.invert();
    }
    proof {
        let ls = layouts(nodes@);
        lemma_node_count(start@, ls, parents@, depths, visited@);
        if start@.key() == goal {
            lemma_keys_has(ls, 0, first as int, 0);
        }
        if start@.balanced() {
            lemma_keys_none(ls, first as int);
            assert forall|d: nat| !found_at(start@, d).contains(goal) by {
                if d <= depth {
                    lemma_seen_grows(start@, d, depth);
                } else {
                    lemma_search_ends(start@, depth, d);
                }
            }
        }
    }
    None
}

} // verus!
