//! Closed loops in a predecessor table.
//!
//! A predecessor table gives each node at most one predecessor. Following
//! predecessors from a node either runs into a node without one or ends up
//! going round a loop for ever.

use vstd::prelude::*;

verus! {

/// The entry of a node that has no predecessor.
pub const NO_PRED: usize = usize::MAX;

/// The node reached from `v` after `k` predecessor steps, or `None` when `v`
/// is no node or a step on the way has nowhere to go. An entry that is not the
/// index of a node counts as a missing predecessor.
pub open spec fn walk(pred: Seq<usize>, v: int, k: nat) -> Option<int>
    decreases k,
{
    if k == 0 {
        if 0 <= v < pred.len() {
            Some(v)
        } else {
            None
        }
    } else {
        match walk(pred, v, (k - 1) as nat) {
            Some(u) => if pred[u] < pred.len() {
                Some(pred[u] as int)
            } else {
                None
            },
            None => None,
        }
    }
}

/// `k` is the first positive number of steps after which the walk from `c`
/// is back at `c`.
pub open spec fn first_return(pred: Seq<usize>, c: int, k: nat) -> bool {
    &&& k > 0
    &&& walk(pred, c, k) == Some(c)
    &&& forall|j: nat| 0 < j < k ==> walk(pred, c, j) != Some(c)
}

/// The length of the loop through `c`; arbitrary when `c` lies on none.
pub open spec fn period(pred: Seq<usize>, c: int) -> nat {
    choose|k: nat| first_return(pred, c, k)
}

/// The first `len` nodes of the walk from `c`, beginning with `c` itself.
pub open spec fn orbit(pred: Seq<usize>, c: int, len: nat) -> Seq<usize> {
    Seq::new(len, |i: int| walk(pred, c, i as nat).unwrap() as usize)
}

/// The loop that the walk from `start` ends up in, as a closed path in
/// predecessor order: it begins at the node `c` reached after as many steps as
/// there are nodes, lists the predecessors from there until `c` would recur,
/// and ends with `c` once more. Empty when the walk from `start` breaks off.
pub open spec fn cycle_of(pred: Seq<usize>, start: int) -> Seq<usize> {
    match walk(pred, start, pred.len()) {
        Some(c) => orbit(pred, c, period(pred, c)).push(c as usize),
        None => Seq::empty(),
    }
}

/// Every node on a walk is the index of a node.
pub proof fn lemma_walk_in_range(pred: Seq<usize>, v: int, k: nat)
    ensures
        walk(pred, v, k) matches Some(u) ==> 0 <= u < pred.len(),
    decreases k,
{
    if k > 0 {
        lemma_walk_in_range(pred, v, (k - 1) as nat);
    }
}

/// A walk that gets as far as `k` steps gets as far as any `j <= k`.
pub proof fn lemma_walk_prefix(pred: Seq<usize>, v: int, j: nat, k: nat)
    requires
        j <= k,
        walk(pred, v, k) is Some,
    ensures
        walk(pred, v, j) is Some,
    decreases k,
{
    if j < k {
        lemma_walk_prefix(pred, v, j, (k - 1) as nat);
    }
}

/// Walking `a` steps and then `b` more is walking `a + b` steps.
pub proof fn lemma_walk_split(pred: Seq<usize>, v: int, a: nat, b: nat)
    ensures
        walk(pred, v, a + b) == match walk(pred, v, a) {
            Some(u) => walk(pred, u, b),
            None => None,
        },
    decreases b,
{
    if b == 0 {
        lemma_walk_in_range(pred, v, a);
    } else {
        lemma_walk_split(pred, v, a, (b - 1) as nat);
        assert(a + b - 1 == a + (b - 1));
    }
}

/// A walk of as many steps as there are nodes passes some node twice.
proof fn lemma_walk_repeats(pred: Seq<usize>, start: int)
    requires
        walk(pred, start, pred.len()) is Some,
    ensures
        exists|i: nat, j: nat|
            i < j <= pred.len() && #[trigger] walk(pred, start, i) == #[trigger] walk(
                pred,
                start,
                j,
            ),
{
    let n = pred.len();
    let visited = Seq::new(n + 1, |i: int| walk(pred, start, i as nat).unwrap());
    assert forall|i: int| 0 <= i <= n implies walk(pred, start, i as nat) == Some(
        #[trigger] visited[i],
    ) && 0 <= visited[i] < n by {
        lemma_walk_prefix(pred, start, i as nat, n);
        lemma_walk_in_range(pred, start, i as nat);
    }
    if visited.no_duplicates() {
        visited.unique_seq_to_set();
        vstd::set_lib::lemma_int_range(0, n as int);
        assert(visited.to_set().subset_of(vstd::set_lib::set_int_range(0, n as int))) by {
            assert forall|x: int| visited.to_set().contains(x) implies 0 <= x < n by {
                let i = choose|i: int| 0 <= i < visited.len() && visited[i] == x;
                assert(0 <= visited[i] < n);
            }
        }
        vstd::set_lib::lemma_len_subset(
            visited.to_set(),
            vstd::set_lib::set_int_range(0, n as int),
        );
        assert(false);
    }
    let (a, b) = choose|a: int, b: int|
        0 <= a < visited.len() && 0 <= b < visited.len() && a != b && visited[a] == visited[b];
    let i = (if a < b { a } else { b }) as nat;
    let j = (if a < b { b } else { a }) as nat;
    assert(walk(pred, start, i) == Some(visited[i as int]));
    assert(walk(pred, start, j) == Some(visited[j as int]));
    assert(i < j <= n && walk(pred, start, i) == walk(pred, start, j));
}

/// The node reached after as many steps as there are nodes lies on a loop:
/// the walk from it is back at it after at most that many steps.
pub proof fn lemma_lands_on_loop(pred: Seq<usize>, start: int) -> (back: nat)
    requires
        walk(pred, start, pred.len()) is Some,
    ensures
        0 < back <= pred.len(),
        walk(pred, walk(pred, start, pred.len()).unwrap(), back) == walk(
            pred,
            start,
            pred.len(),
        ),
{
    let n = pred.len();
    lemma_walk_repeats(pred, start);
    let (i, j) = choose|i: nat, j: nat|
        i < j <= n && #[trigger] walk(pred, start, i) == #[trigger] walk(pred, start, j);
    let back = (j - i) as nat;
    lemma_walk_prefix(pred, start, i, n);
    let m = walk(pred, start, i).unwrap();
    let c = walk(pred, start, n).unwrap();
    let rest = (n - i) as nat;
    // m is back at m after `back` steps, and c lies `rest` steps behind m
    lemma_walk_split(pred, start, i, back);
    assert(i + back == j);
    assert(walk(pred, m, back) == Some(m));
    lemma_walk_split(pred, start, i, rest);
    assert(i + rest == n);
    assert(walk(pred, m, rest) == Some(c));
    // so back steps from c are rest + back steps from m, and the order does not matter
    lemma_walk_split(pred, m, rest, back);
    lemma_walk_split(pred, m, back, rest);
    assert(rest + back == back + rest);
    assert(walk(pred, c, back) == Some(c));
    back
}

/// At most one number of steps is the first return to `c`.
pub proof fn lemma_first_return_unique(pred: Seq<usize>, c: int, k: nat)
    requires
        first_return(pred, c, k),
    ensures
        period(pred, c) == k,
{
    let p = period(pred, c);
    assert(first_return(pred, c, p));
    if p < k {
        assert(walk(pred, c, p) != Some(c));
    }
    if k < p {
        assert(walk(pred, c, k) != Some(c));
    }
}

/// The closed path that ends the walk from `start`, in predecessor order.
///
/// Follows predecessors from `start` once for every node, which is enough to
/// be on a loop if the walk gets that far, then lists the loop from there and
/// closes it with its first node. The result is empty when the walk breaks off:
/// when `start` is no node, or a node on the way has no predecessor.
pub fn reconstruct_cycle_indices(start: usize, pred: &[usize]) -> (cycle: Vec<usize>)
    ensures
        cycle@ == cycle_of(pred@, start as int),
{
    let n = pred.len();
    if start >= n {
        proof {
            lemma_walk_prefix_none(pred@, start as int, 0, n as nat);
        }
        return Vec::new();
    }
    let mut v = start;
    let mut i: usize = 0;
    while i < n
        invariant
            i <= n,
            n == pred.len(),
            v < n,
            walk(pred@, start as int, i as nat) == Some(v as int),
        decreases n - i,
    {
        if pred[v] >= n {
            proof {
                assert(walk(pred@, start as int, (i + 1) as nat) is None);
                lemma_walk_prefix_none(pred@, start as int, (i + 1) as nat, n as nat);
            }
            return Vec::new();
        }
        v = pred[v];
        i += 1;
    }
    let c = v;
    let ghost back = lemma_lands_on_loop(pred@, start as int);
    proof {
        lemma_walk_prefix(pred@, c as int, 1, back);
        assert(walk(pred@, c as int, 0) == Some(c as int));
    }
    let mut cycle: Vec<usize> = Vec::new();
    cycle.push(c);
    let mut cur = pred[c];
    assert(cycle@ =~= orbit(pred@, c as int, 1));
    while cur != c
        invariant
            n == pred.len(),
            c < n,
            cur < n,
            1 <= cycle.len() <= back <= n,
            walk(pred@, c as int, back) == Some(c as int),
            walk(pred@, c as int, cycle.len() as nat) == Some(cur as int),
            cycle@ == orbit(pred@, c as int, cycle.len() as nat),
            forall|j: nat| 0 < j < cycle.len() ==> walk(pred@, c as int, j) != Some(c as int),
        decreases back - cycle.len(),
    {
        let ghost k = cycle.len() as nat;
        proof {
            assert(k < back);
            lemma_walk_prefix(pred@, c as int, k + 1, back);
        }
        cycle.push(cur);
        cur = pred[cur];
        assert(cycle@ =~= orbit(pred@, c as int, k + 1));
    }
    proof {
        lemma_first_return_unique(pred@, c as int, cycle.len() as nat);
    }
    cycle.push(c);
    cycle
}

/// A walk that has broken off stays broken off.
proof fn lemma_walk_prefix_none(pred: Seq<usize>, v: int, j: nat, k: nat)
    requires
        j <= k,
        walk(pred, v, j) is None,
    ensures
        walk(pred, v, k) is None,
{
    if walk(pred, v, k) is Some {
        lemma_walk_prefix(pred, v, j, k);
    }
}

/// A walk that is back at `c` after `back` steps has a first return to `c`
/// after at most as many.
pub proof fn lemma_first_return_exists(pred: Seq<usize>, c: int, back: nat) -> (first: nat)
    requires
        back > 0,
        walk(pred, c, back) == Some(c),
    ensures
        first <= back,
        first_return(pred, c, first),
    decreases back,
{
    if exists|j: nat| 0 < j < back && walk(pred, c, j) == Some(c) {
        let j = choose|j: nat| 0 < j < back && walk(pred, c, j) == Some(c);
        lemma_first_return_exists(pred, c, j)
    } else {
        back
    }
}

/// The shape of a closed path found by walking: it ends where it begins, each
/// node is followed by its predecessor, no node but the first occurs twice,
/// and it is at most one longer than there are nodes.
pub proof fn lemma_cycle_shape(pred: Seq<usize>, start: int)
    ensures
        ({
            let path = cycle_of(pred, start);
            path.len() > 0 ==> {
                &&& 2 <= path.len() <= pred.len() + 1
                &&& path[0] == path[path.len() - 1]
                &&& forall|i: int| 0 <= i < path.len() ==> (#[trigger] path[i]) < pred.len()
                &&& forall|i: int|
                    0 <= i < path.len() - 1 ==> path[i + 1] == pred[(#[trigger] path[i]) as int]
                &&& forall|i: int, j: int|
                    0 <= i < j < path.len() - 1 ==> path[i] != path[j]
            }
        }),
{
    let n = pred.len();
    if walk(pred, start, n) is Some {
        let c = walk(pred, start, n).unwrap();
        let back = lemma_lands_on_loop(pred, start);
        let first = lemma_first_return_exists(pred, c, back);
        lemma_first_return_unique(pred, c, first);
        let k = period(pred, c);
        let path = cycle_of(pred, start);
        assert(path == orbit(pred, c, k).push(c as usize));
        lemma_walk_in_range(pred, c, k);
        assert forall|i: int| 0 <= i <= k implies walk(pred, c, i as nat) is Some && 0 <= walk(
            pred,
            c,
            i as nat,
        ).unwrap() < n && #[trigger] path[i] == walk(pred, c, i as nat).unwrap() by {
            lemma_walk_prefix(pred, c, i as nat, k);
            lemma_walk_in_range(pred, c, i as nat);
        }
        assert forall|i: int| 0 <= i < path.len() - 1 implies path[i + 1] == pred[(
        #[trigger] path[i]) as int] by {
            assert(path[i + 1] == walk(pred, c, (i + 1) as nat).unwrap());
        }
        assert forall|i: int, j: int| 0 <= i < j < path.len() - 1 implies path[i] != path[j] by {
            if path[i] == path[j] {
                let rest = (k - j) as nat;
                // then the walk is back at c after fewer than k steps
                lemma_walk_split(pred, c, i as nat, rest);
                lemma_walk_split(pred, c, j as nat, rest);
                assert(walk(pred, c, i as nat + rest) == Some(c));
            }
        }
    }
}

/// The fewest trades that make a loop worth reporting.
pub const MIN_HOPS: usize = 3;

/// The most trades of a loop that is reported.
pub const MAX_HOPS: usize = 10;

/// The loop that the walk from `node` ends up in, as a closed path in the
/// order of trade, which is the reverse of predecessor order; `None` when
/// there is no loop or it has fewer than `MIN_HOPS` or more than `MAX_HOPS`
/// trades. A closed path has one node more than it has trades.
pub open spec fn trade_cycle_of(pred: Seq<usize>, node: int) -> Option<Seq<usize>> {
    let back = cycle_of(pred, node);
    if MIN_HOPS + 1 <= back.len() <= MAX_HOPS + 1 {
        Some(back.reverse())
    } else {
        None
    }
}

/// The loop behind a node at which a distance still improves, in the order
/// of trade, if it has between `MIN_HOPS` and `MAX_HOPS` trades.
pub fn trade_cycle(node: usize, pred: &[usize]) -> (found: Option<Vec<usize>>)
    ensures
        match found {
            Some(path) => trade_cycle_of(pred@, node as int) == Some(path@),
            None => trade_cycle_of(pred@, node as int) is None,
        },
{
    let back = reconstruct_cycle_indices(node, pred);
    if back.len() < MIN_HOPS + 1 || back.len() > MAX_HOPS + 1 {
        return None;
    }
    let mut path: Vec<usize> = Vec::new();
    let mut i: usize = back.len();
    while i > 0
        invariant
            i <= back.len(),
            path.len() == back.len() - i,
            forall|j: int| 0 <= j < path.len() ==> path[j] == back[back.len() - 1 - j],
        decreases i,
    {
        i -= 1;
        path.push(back[i]);
    }
    assert(path@ =~= back@.reverse());
    Some(path)
}

/// What is no node has no loop behind it.
pub proof fn lemma_no_cycle_from_outside(pred: Seq<usize>, node: int)
    requires
        node < 0 || node >= pred.len(),
    ensures
        cycle_of(pred, node).len() == 0,
        trade_cycle_of(pred, node) is None,
{
    lemma_walk_prefix_none(pred, node, 0, pred.len());
}

/// The shape of a loop in the order of trade: it ends where it begins, each
/// node is the predecessor of the next, and no node but the first occurs
/// twice.
pub proof fn lemma_trade_cycle_shape(pred: Seq<usize>, node: int)
    ensures
        trade_cycle_of(pred, node) matches Some(path) ==> {
            &&& MIN_HOPS + 1 <= path.len() <= MAX_HOPS + 1
            &&& path[0] == path[path.len() - 1]
            &&& forall|i: int| 0 <= i < path.len() ==> (#[trigger] path[i]) < pred.len()
            &&& forall|i: int|
                0 <= i < path.len() - 1 ==> (#[trigger] path[i]) == pred[path[i + 1] as int]
            &&& forall|i: int, j: int| 1 <= i < j < path.len() ==> path[i] != path[j]
        },
{
    lemma_cycle_shape(pred, node);
    let back = cycle_of(pred, node);
    if trade_cycle_of(pred, node) is Some {
        let path = back.reverse();
        let len = back.len() as int;
        assert forall|i: int| 0 <= i < len implies #[trigger] path[i] == back[len - 1 - i] by {}
        assert forall|i: int| 0 <= i < len - 1 implies (#[trigger] path[i]) == pred[path[i
            + 1] as int] by {
            assert(back[(len - 2 - i) + 1] == pred[back[len - 2 - i] as int]);
        }
    }
}

} // verus!
