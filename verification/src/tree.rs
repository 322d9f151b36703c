//! Trees given by lists of positions: what lies below a position, what lies above it, and what
//! keeps walks through them from going in circles.
//!
//! `kids[i]` lists the positions directly below position `i`. `ups[i]` is the position directly
//! above it.

use vstd::prelude::*;

verus! {

/// Whether all positions in the lists are positions of lists.
pub open spec fn in_range(kids: Seq<Seq<usize>>) -> bool {
    forall|i: int, k: int|
        0 <= i < kids.len() && 0 <= k < kids[i].len() ==> #[trigger] kids[i][k] < kids.len()
}

/// Whether every position has a rank above those of the positions directly below it.
pub open spec fn ranked(kids: Seq<Seq<usize>>, rank: spec_fn(int) -> nat) -> bool {
    forall|i: int, k: int|
        0 <= i < kids.len() && 0 <= k < kids[i].len() ==> rank(#[trigger] kids[i][k] as int)
            < rank(i)
}

/// Whether no position lies below itself.
pub open spec fn acyclic(kids: Seq<Seq<usize>>) -> bool {
    exists|rank: spec_fn(int) -> nat| ranked(kids, rank)
}

/// Position `i` and what lies at most `depth` levels below it: each position before the ones below
/// it, and those in the order of the lists.
pub open spec fn node_below(kids: Seq<Seq<usize>>, i: usize, depth: nat) -> Seq<usize>
    decreases depth, 1nat, 0nat,
{
    seq![i] + (if depth == 0 {
        Seq::empty()
    } else {
        list_below(kids, kids[i as int], (depth - 1) as nat)
    })
}

/// The positions of a list, each followed by what lies at most `depth` levels below it.
pub open spec fn list_below(kids: Seq<Seq<usize>>, list: Seq<usize>, depth: nat) -> Seq<usize>
    decreases depth, 2nat, list.len(),
{
    if list.len() == 0 {
        Seq::empty()
    } else {
        list_below(kids, list.drop_last(), depth) + node_below(kids, list.last(), depth)
    }
}

/// Everything below position `i`. No walk goes down more levels than there are positions.
pub open spec fn descendants(kids: Seq<Seq<usize>>, i: usize) -> Seq<usize> {
    list_below(kids, kids[i as int], kids.len())
}

/// Position `i` and everything below it.
pub open spec fn subtree(kids: Seq<Seq<usize>>, i: usize) -> Seq<usize> {
    seq![i] + descendants(kids, i)
}

/// Position `i` and what lies at most `depth` levels above it, from the bottom up.
pub open spec fn chain(ups: Seq<Option<usize>>, i: usize, depth: nat) -> Seq<usize>
    decreases depth,
{
    seq![i] + (match ups[i as int] {
        Some(up) if depth > 0 => chain(ups, up, (depth - 1) as nat),
        _ => Seq::empty(),
    })
}

/// Position `i` and everything above it, from the bottom up.
pub open spec fn lineage(ups: Seq<Option<usize>>, i: usize) -> Seq<usize> {
    chain(ups, i, ups.len())
}

/// The positions above as lists of at most one.
pub open spec fn up_lists(ups: Seq<Option<usize>>) -> Seq<Seq<usize>> {
    ups.map_values(
        |up: Option<usize>|
            match up {
                Some(i) => seq![i],
                None => Seq::empty(),
            },
    )
}

// ---------------------------------------------------------------------------------------------
// Walks do not depend on how deep they may go
// ---------------------------------------------------------------------------------------------

proof fn lemma_node_stable(
    kids: Seq<Seq<usize>>,
    rank: spec_fn(int) -> nat,
    i: usize,
    d1: nat,
    d2: nat,
)
    requires
        in_range(kids),
        ranked(kids, rank),
        i < kids.len(),
        rank(i as int) <= d1,
        rank(i as int) <= d2,
    ensures
        node_below(kids, i, d1) == node_below(kids, i, d2),
    decreases rank(i as int), 1nat, 0nat,
{
    let list = kids[i as int];
    if list.len() > 0 {
        assert(rank(list[0] as int) < rank(i as int));
    }
    if d1 > 0 && d2 > 0 {
        assert forall|k: int| 0 <= k < list.len() implies #[trigger] list[k] < kids.len() && rank(
            list[k] as int,
        ) < rank(i as int) by {
            assert(rank(kids[i as int][k] as int) < rank(i as int));
        }
        lemma_list_stable(
            kids,
            rank,
            list,
            rank(i as int),
            (d1 - 1) as nat,
            (d2 - 1) as nat,
        );
    } else {
        assert(list =~= Seq::empty());
    }
}

proof fn lemma_list_stable(
    kids: Seq<Seq<usize>>,
    rank: spec_fn(int) -> nat,
    list: Seq<usize>,
    bound: nat,
    d1: nat,
    d2: nat,
)
    requires
        in_range(kids),
        ranked(kids, rank),
        forall|k: int|
            0 <= k < list.len() ==> #[trigger] list[k] < kids.len() && rank(list[k] as int)
                < bound,
        bound <= d1 + 1,
        bound <= d2 + 1,
    ensures
        list_below(kids, list, d1) == list_below(kids, list, d2),
    decreases bound, 0nat, list.len(),
{
    if list.len() > 0 {
        let init = list.drop_last();
        assert forall|k: int| 0 <= k < init.len() implies #[trigger] init[k] < kids.len() && rank(
            init[k] as int,
        ) < bound by {
            assert(init[k] == list[k]);
        }
        lemma_list_stable(kids, rank, init, bound, d1, d2);
        assert(list[list.len() - 1] < kids.len());
        lemma_node_stable(kids, rank, list.last(), d1, d2);
    }
}

/// How many positions below `n` have a rank below `bound`.
spec fn lower_count(rank: spec_fn(int) -> nat, bound: nat, n: nat) -> nat
    decreases n,
{
    if n == 0 {
        0
    } else {
        lower_count(rank, bound, (n - 1) as nat) + (if rank(n - 1) < bound {
            1nat
        } else {
            0nat
        })
    }
}

proof fn lemma_lower_count(rank: spec_fn(int) -> nat, low: nat, high: nat, n: nat, at: int)
    requires
        low <= high,
    ensures
        lower_count(rank, low, n) <= lower_count(rank, high, n) <= n,
        0 <= at < n && low <= rank(at) && rank(at) < high ==> lower_count(rank, low, n)
            < lower_count(rank, high, n),
        0 <= at < n && high <= rank(at) ==> lower_count(rank, high, n) < n,
    decreases n,
{
    if n > 0 {
        lemma_lower_count(rank, low, high, (n - 1) as nat, at);
    }
}

/// Ranks can be chosen below the number of positions.
pub proof fn lemma_small_rank(kids: Seq<Seq<usize>>) -> (rank: spec_fn(int) -> nat)
    requires
        in_range(kids),
        acyclic(kids),
    ensures
        ranked(kids, rank),
        forall|i: int| 0 <= i < kids.len() ==> #[trigger] rank(i) < kids.len(),
{
    let wide = choose|rank: spec_fn(int) -> nat| ranked(kids, rank);
    let rank = |i: int| lower_count(wide, wide(i), kids.len());
    assert forall|i: int, k: int| 0 <= i < kids.len() && 0 <= k < kids[i].len() implies rank(
        #[trigger] kids[i][k] as int,
    ) < rank(i) by {
        let c = kids[i][k] as int;
        assert(wide(kids[i][k] as int) < wide(i));
        assert(kids[i][k] < kids.len());
        lemma_lower_count(wide, wide(c), wide(i), kids.len(), c);
    }
    assert forall|i: int| 0 <= i < kids.len() implies #[trigger] rank(i) < kids.len() by {
        lemma_lower_count(wide, wide(i), wide(i), kids.len(), i);
    }
    rank
}

/// Everything below a position is what its list leads to.
pub proof fn lemma_subtree_unfold(kids: Seq<Seq<usize>>, i: usize)
    requires
        in_range(kids),
        acyclic(kids),
        i < kids.len(),
    ensures
        subtree(kids, i) == node_below(kids, i, kids.len()),
        forall|d: nat| d >= kids.len() ==> #[trigger] node_below(kids, i, d) == subtree(kids, i),
{
    let rank = lemma_small_rank(kids);
    let n = kids.len();
    let list = kids[i as int];
    assert(rank(i as int) < n);
    assert forall|k: int| 0 <= k < list.len() implies #[trigger] list[k] < kids.len() && rank(
        list[k] as int,
    ) < n by {
        assert(kids[i as int][k] < kids.len());
        assert(rank(list[k] as int) < kids.len());
    }
    lemma_list_stable(kids, rank, list, n, n, (n - 1) as nat);
    assert forall|d: nat| d >= n implies #[trigger] node_below(kids, i, d) == subtree(
        kids,
        i,
    ) by {
        lemma_node_stable(kids, rank, i, d, n);
    }
}

// ---------------------------------------------------------------------------------------------
// What is reached
// ---------------------------------------------------------------------------------------------

/// What two lists one after the other hold.
pub proof fn lemma_contains_append(a: Seq<usize>, b: Seq<usize>, x: usize)
    ensures
        (a + b).contains(x) == (a.contains(x) || b.contains(x)),
{
    if a.contains(x) {
        let k = choose|k: int| 0 <= k < a.len() && a[k] == x;
        assert((a + b)[k] == x);
    }
    if b.contains(x) {
        let k = choose|k: int| 0 <= k < b.len() && b[k] == x;
        assert((a + b)[a.len() + k] == x);
    }
    if (a + b).contains(x) {
        let k = choose|k: int| 0 <= k < (a + b).len() && (a + b)[k] == x;
        if k < a.len() {
            assert(a[k] == x);
        } else {
            assert(b[k - a.len()] == x);
        }
    }
}

proof fn lemma_list_reach(kids: Seq<Seq<usize>>, list: Seq<usize>, depth: nat, x: usize)
    ensures
        list_below(kids, list, depth).contains(x) <==> exists|k: int|
            0 <= k < list.len() && node_below(kids, #[trigger] list[k], depth).contains(x),
    decreases list.len(),
{
    if list.len() > 0 {
        let init = list.drop_last();
        lemma_list_reach(kids, init, depth, x);
        lemma_contains_append(
            list_below(kids, init, depth),
            node_below(kids, list.last(), depth),
            x,
        );
        if list_below(kids, init, depth).contains(x) {
            let k = choose|k: int|
                0 <= k < init.len() && node_below(kids, #[trigger] init[k], depth).contains(x);
            assert(list[k] == init[k]);
            assert(node_below(kids, list[k], depth).contains(x));
        }
        if node_below(kids, list.last(), depth).contains(x) {
            assert(node_below(kids, list[list.len() - 1], depth).contains(x));
        }
        if exists|k: int|
            0 <= k < list.len() && node_below(kids, #[trigger] list[k], depth).contains(x) {
            let k = choose|k: int|
                0 <= k < list.len() && node_below(kids, #[trigger] list[k], depth).contains(x);
            if k < init.len() {
                assert(init[k] == list[k]);
                assert(node_below(kids, init[k], depth).contains(x));
            }
        }
    }
}

/// A position reaches itself and what the positions of its list reach.
pub proof fn lemma_reach(kids: Seq<Seq<usize>>, i: usize, x: usize)
    requires
        in_range(kids),
        acyclic(kids),
        i < kids.len(),
    ensures
        subtree(kids, i).contains(x) <==> x == i || exists|k: int|
            0 <= k < kids[i as int].len() && subtree(kids, #[trigger] kids[i as int][k]).contains(
                x,
            ),
{
    let n = kids.len();
    let list = kids[i as int];
    lemma_contains_append(seq![i], descendants(kids, i), x);
    lemma_list_reach(kids, list, n, x);
    assert(seq![i].contains(x) <==> x == i) by {
        assert(seq![i][0] == i);
    }
    assert forall|k: int| 0 <= k < list.len() implies subtree(kids, #[trigger] list[k])
        == node_below(kids, list[k], n) by {
        assert(kids[i as int][k] < kids.len());
        lemma_subtree_unfold(kids, list[k]);
    }
    if exists|k: int| 0 <= k < list.len() && node_below(kids, #[trigger] list[k], n).contains(x) {
        let k = choose|k: int|
            0 <= k < list.len() && node_below(kids, #[trigger] list[k], n).contains(x);
        assert(subtree(kids, kids[i as int][k]).contains(x));
    }
    if exists|k: int|
        0 <= k < kids[i as int].len() && subtree(kids, #[trigger] kids[i as int][k]).contains(x) {
        let k = choose|k: int|
            0 <= k < kids[i as int].len() && subtree(kids, #[trigger] kids[i as int][k]).contains(
                x,
            );
        assert(node_below(kids, list[k], n).contains(x));
    }
}

/// What lies below a position is in range.
pub proof fn lemma_subtree_range(kids: Seq<Seq<usize>>, i: usize)
    requires
        in_range(kids),
        acyclic(kids),
        i < kids.len(),
    ensures
        forall|k: int| 0 <= k < subtree(kids, i).len() ==> #[trigger] subtree(kids, i)[k]
            < kids.len(),
        forall|k: int| 0 <= k < descendants(kids, i).len() ==> #[trigger] descendants(kids, i)[k]
            < kids.len(),
{
    let list = kids[i as int];
    assert forall|k: int| 0 <= k < list.len() implies #[trigger] list[k] < kids.len() by {
        assert(kids[i as int][k] < kids.len());
    }
    lemma_list_range(kids, list, kids.len());
    let d = descendants(kids, i);
    assert forall|k: int| 0 <= k < subtree(kids, i).len() implies #[trigger] subtree(kids, i)[k]
        < kids.len() by {
        if k > 0 {
            assert(subtree(kids, i)[k] == d[k - 1]);
        }
    }
}

proof fn lemma_list_range(kids: Seq<Seq<usize>>, list: Seq<usize>, depth: nat)
    requires
        in_range(kids),
        forall|k: int| 0 <= k < list.len() ==> #[trigger] list[k] < kids.len(),
    ensures
        forall|k: int| 0 <= k < list_below(kids, list, depth).len() ==> #[trigger] list_below(
            kids,
            list,
            depth,
        )[k] < kids.len(),
    decreases depth, list.len(),
{
    if list.len() > 0 {
        let init = list.drop_last();
        assert forall|k: int| 0 <= k < init.len() implies #[trigger] init[k] < kids.len() by {
            assert(init[k] == list[k]);
        }
        lemma_list_range(kids, init, depth);
        let last = list[list.len() - 1];
        assert(last < kids.len());
        let head = list_below(kids, init, depth);
        let tail = node_below(kids, last, depth);
        if depth > 0 {
            let under = kids[last as int];
            assert forall|k: int| 0 <= k < under.len() implies #[trigger] under[k]
                < kids.len() by {
                assert(kids[last as int][k] < kids.len());
            }
            lemma_list_range(kids, under, (depth - 1) as nat);
            let more = list_below(kids, under, (depth - 1) as nat);
            assert(tail == seq![last] + more);
            assert forall|k: int| 0 <= k < tail.len() implies #[trigger] tail[k] < kids.len() by {
                if k > 0 {
                    assert(tail[k] == more[k - 1]);
                }
            }
        } else {
            assert(tail =~= seq![last]);
        }
        let all = list_below(kids, list, depth);
        assert(all == head + tail);
        assert forall|k: int| 0 <= k < all.len() implies #[trigger] all[k] < kids.len() by {
            if k < head.len() {
                assert(all[k] == head[k]);
            } else {
                assert(all[k] == tail[k - head.len()]);
            }
        }
    }
}

// ---------------------------------------------------------------------------------------------
// Changing trees
// ---------------------------------------------------------------------------------------------

/// Whether `less` has no entry that `kids` lacks.
pub open spec fn fewer(less: Seq<Seq<usize>>, kids: Seq<Seq<usize>>) -> bool {
    &&& less.len() == kids.len()
    &&& forall|i: int, k: int|
        0 <= i < less.len() && 0 <= k < less[i].len() ==> kids[i].contains(#[trigger] less[i][k])
}

/// Taking entries away makes no circles.
pub proof fn lemma_fewer_acyclic(less: Seq<Seq<usize>>, kids: Seq<Seq<usize>>)
    requires
        fewer(less, kids),
        in_range(kids),
        acyclic(kids),
    ensures
        in_range(less),
        acyclic(less),
{
    let rank = choose|rank: spec_fn(int) -> nat| ranked(kids, rank);
    assert forall|i: int, k: int| 0 <= i < less.len() && 0 <= k < less[i].len() implies
        #[trigger] less[i][k] < less.len() && rank(less[i][k] as int) < rank(i) by {
        let x = less[i][k];
        assert(kids[i].contains(x));
        let j = choose|j: int| 0 <= j < kids[i].len() && kids[i][j] == x;
        assert(rank(kids[i][j] as int) < rank(i));
        assert(kids[i][j] < kids.len());
    }
    assert(ranked(less, rank));
}

/// With fewer entries no more is reached.
pub proof fn lemma_fewer_reach(
    less: Seq<Seq<usize>>,
    kids: Seq<Seq<usize>>,
    rank: spec_fn(int) -> nat,
    i: usize,
    x: usize,
)
    requires
        fewer(less, kids),
        in_range(kids),
        ranked(kids, rank),
        i < kids.len(),
        subtree(less, i).contains(x),
    ensures
        subtree(kids, i).contains(x),
    decreases rank(i as int),
{
    assert(acyclic(kids));
    lemma_fewer_acyclic(less, kids);
    lemma_reach(less, i, x);
    lemma_reach(kids, i, x);
    if x != i {
        let k = choose|k: int|
            0 <= k < less[i as int].len() && subtree(less, #[trigger] less[i as int][k]).contains(
                x,
            );
        let c = less[i as int][k];
        assert(kids[i as int].contains(c));
        let j = choose|j: int| 0 <= j < kids[i as int].len() && kids[i as int][j] == c;
        assert(rank(kids[i as int][j] as int) < rank(i as int));
        assert(kids[i as int][j] < kids.len());
        lemma_fewer_reach(less, kids, rank, c, x);
        assert(subtree(kids, kids[i as int][j]).contains(x));
    }
}

/// Putting a position below another one makes no circle where the other one does not lie below it
/// already.
pub proof fn lemma_attach_acyclic(kids: Seq<Seq<usize>>, up: usize, down: usize)
    requires
        in_range(kids),
        acyclic(kids),
        kids.len() <= usize::MAX,
        up < kids.len(),
        down < kids.len(),
        !subtree(kids, down).contains(up),
    ensures
        in_range(kids.update(up as int, kids[up as int].push(down))),
        acyclic(kids.update(up as int, kids[up as int].push(down))),
{
    let rank = choose|rank: spec_fn(int) -> nat| ranked(kids, rank);
    let lift = rank(down as int) + 1;
    let raised = |i: int|
        if subtree(kids, i as usize).contains(up) {
            (rank(i) + lift) as nat
        } else {
            rank(i)
        };
    let more = kids.update(up as int, kids[up as int].push(down));
    lemma_reach(kids, up, up);
    assert forall|i: int, k: int| 0 <= i < more.len() && 0 <= k < more[i].len() implies
        #[trigger] more[i][k] < more.len() && raised(more[i][k] as int) < raised(i) by {
        let c = more[i][k];
        if i == up && k == kids[i].len() {
            assert(c == down);
        } else {
            assert(c == kids[i][k]);
            assert(kids[i][k] < kids.len());
            assert(rank(kids[i][k] as int) < rank(i));
            assert(i == i as usize);
            if subtree(kids, c).contains(up) {
                lemma_reach(kids, i as usize, up);
                assert(subtree(kids, kids[i][k]).contains(up));
            }
        }
    }
    assert(ranked(more, raised));
}

/// A new position with nothing below it makes no circle.
pub proof fn lemma_push_acyclic(kids: Seq<Seq<usize>>)
    requires
        in_range(kids),
        acyclic(kids),
    ensures
        in_range(kids.push(Seq::empty())),
        acyclic(kids.push(Seq::empty())),
{
    let rank = choose|rank: spec_fn(int) -> nat| ranked(kids, rank);
    let more = kids.push(Seq::empty());
    assert forall|i: int, k: int| 0 <= i < more.len() && 0 <= k < more[i].len() implies
        #[trigger] more[i][k] < more.len() && rank(more[i][k] as int) < rank(i) by {
        assert(more[i] == kids[i]);
        assert(rank(kids[i][k] as int) < rank(i));
        assert(kids[i][k] < kids.len());
    }
    assert(ranked(more, rank));
}

/// A new position directly below an earlier one makes no circle.
pub proof fn lemma_grow_acyclic(kids: Seq<Seq<usize>>, up: usize)
    requires
        in_range(kids),
        acyclic(kids),
        kids.len() <= usize::MAX,
        up < kids.len(),
    ensures
        in_range(
            kids.push(Seq::empty()).update(up as int, kids[up as int].push(kids.len() as usize)),
        ),
        acyclic(
            kids.push(Seq::empty()).update(up as int, kids[up as int].push(kids.len() as usize)),
        ),
{
    let rank = choose|rank: spec_fn(int) -> nat| ranked(kids, rank);
    let n = kids.len();
    let raised = |i: int|
        if i == n {
            0nat
        } else {
            rank(i) + 1
        };
    let more = kids.push(Seq::empty()).update(up as int, kids[up as int].push(n as usize));
    assert forall|i: int, k: int| 0 <= i < more.len() && 0 <= k < more[i].len() implies
        #[trigger] more[i][k] < more.len() && raised(more[i][k] as int) < raised(i) by {
        if i == up && k == kids[i].len() {
            assert(more[i][k] == n);
        } else {
            assert(i < n);
            assert(more[i][k] == kids[i][k]);
            assert(kids[i][k] < kids.len());
            assert(rank(kids[i][k] as int) < rank(i));
        }
    }
    assert(ranked(more, raised));
}

// ---------------------------------------------------------------------------------------------
// Going up
// ---------------------------------------------------------------------------------------------

/// Whether going up stays in range and ends.
pub open spec fn rooted(ups: Seq<Option<usize>>) -> bool {
    in_range(up_lists(ups)) && acyclic(up_lists(ups))
}

proof fn lemma_chain(ups: Seq<Option<usize>>, i: usize, depth: nat)
    requires
        in_range(up_lists(ups)),
        i < ups.len(),
    ensures
        chain(ups, i, depth) == node_below(up_lists(ups), i, depth),
    decreases depth,
{
    let lists = up_lists(ups);
    if depth > 0 {
        match ups[i as int] {
            Some(up) => {
                assert(lists[i as int] =~= seq![up]);
                assert(lists[i as int][0] == up);
                assert(up < lists.len());
                lemma_chain(ups, up, (depth - 1) as nat);
                let d = (depth - 1) as nat;
                assert(seq![up].drop_last() =~= Seq::empty());
                assert(list_below(lists, seq![up].drop_last(), d) =~= Seq::<usize>::empty());
                assert(list_below(lists, seq![up], d) =~= node_below(lists, up, d));
            },
            None => {
                assert(lists[i as int] =~= Seq::empty());
            },
        }
    }
}

/// Everything above a position is what the walk downwards finds in the lists of positions above.
pub proof fn lemma_lineage(ups: Seq<Option<usize>>, i: usize)
    requires
        rooted(ups),
        i < ups.len(),
    ensures
        lineage(ups, i) == subtree(up_lists(ups), i),
        match ups[i as int] {
            Some(up) => up < ups.len() && lineage(ups, i) == seq![i] + lineage(ups, up),
            None => lineage(ups, i) == seq![i],
        },
{
    let lists = up_lists(ups);
    let n = ups.len();
    lemma_chain(ups, i, n);
    lemma_subtree_unfold(lists, i);
    lemma_chain(ups, i, n + 1);
    match ups[i as int] {
        Some(up) => {
            assert(lists[i as int] =~= seq![up]);
            assert(lists[i as int][0] == up);
            assert(node_below(lists, i, n + 1) == subtree(lists, i));
            assert(chain(ups, i, n + 1) == seq![i] + chain(ups, up, n));
        },
        None => {
            assert(chain(ups, i, n) =~= seq![i]);
        },
    }
}

/// What lies above a position is in range.
pub proof fn lemma_lineage_range(ups: Seq<Option<usize>>, i: usize)
    requires
        rooted(ups),
        i < ups.len(),
    ensures
        forall|k: int| 0 <= k < lineage(ups, i).len() ==> #[trigger] lineage(ups, i)[k]
            < ups.len(),
{
    lemma_lineage(ups, i);
    lemma_subtree_range(up_lists(ups), i);
}

/// Moving a position to another place, or taking it out, makes no circle where the new place does
/// not lie below it.
pub proof fn lemma_move_rooted(ups: Seq<Option<usize>>, i: usize, up: Option<usize>)
    requires
        rooted(ups),
        ups.len() <= usize::MAX,
        i < ups.len(),
        up matches Some(p) ==> p < ups.len() && !lineage(ups, p).contains(i),
    ensures
        rooted(ups.update(i as int, up)),
{
    let lists = up_lists(ups);
    let cut = lists.update(i as int, Seq::empty());
    assert forall|j: int, k: int| 0 <= j < cut.len() && 0 <= k < cut[j].len() implies lists[j].contains(
        #[trigger] cut[j][k],
    ) by {
        assert(cut[j] == lists[j]);
        assert(lists[j][k] == cut[j][k]);
    }
    assert(fewer(cut, lists));
    lemma_fewer_acyclic(cut, lists);
    let moved = ups.update(i as int, up);
    match up {
        None => {
            assert(up_lists(moved) =~= cut);
        },
        Some(p) => {
            let rank = choose|rank: spec_fn(int) -> nat| ranked(lists, rank);
            lemma_lineage(ups, p);
            if subtree(cut, p).contains(i) {
                lemma_fewer_reach(cut, lists, rank, p, i);
            }
            lemma_attach_acyclic(cut, i, p);
            assert(cut[i as int].push(p) =~= seq![p]);
            assert(up_lists(moved) =~= cut.update(i as int, cut[i as int].push(p)));
        },
    }
}

/// A new position with nothing above it makes no circle.
pub proof fn lemma_push_rooted(ups: Seq<Option<usize>>)
    requires
        rooted(ups),
    ensures
        rooted(ups.push(None)),
{
    lemma_push_acyclic(up_lists(ups));
    assert(up_lists(ups.push(None)) =~= up_lists(ups).push(Seq::empty()));
}

/// A new position with an earlier one above it makes no circle.
pub proof fn lemma_grow_rooted(ups: Seq<Option<usize>>, up: usize)
    requires
        rooted(ups),
        up < ups.len(),
    ensures
        rooted(ups.push(Some(up))),
{
    let lists = up_lists(ups);
    let rank = choose|rank: spec_fn(int) -> nat| ranked(lists, rank);
    let n = ups.len();
    let raised = |i: int|
        if i == n {
            rank(up as int) + 1
        } else {
            rank(i)
        };
    let more = up_lists(ups.push(Some(up)));
    assert forall|i: int, k: int| 0 <= i < more.len() && 0 <= k < more[i].len() implies
        #[trigger] more[i][k] < more.len() && raised(more[i][k] as int) < raised(i) by {
        if i < n {
            assert(more[i] == lists[i]);
            assert(lists[i][k] < lists.len());
            assert(rank(lists[i][k] as int) < rank(i));
        }
    }
    assert(ranked(more, raised));
}

// ---------------------------------------------------------------------------------------------
// Down and up
// ---------------------------------------------------------------------------------------------

/// What lies directly below something reached is reached.
pub proof fn lemma_reach_further(
    kids: Seq<Seq<usize>>,
    rank: spec_fn(int) -> nat,
    from: usize,
    by: usize,
    x: usize,
)
    requires
        in_range(kids),
        ranked(kids, rank),
        from < kids.len(),
        by < kids.len(),
        subtree(kids, from).contains(by),
        kids[by as int].contains(x),
    ensures
        subtree(kids, from).contains(x),
    decreases rank(from as int),
{
    assert(acyclic(kids));
    lemma_reach(kids, from, by);
    lemma_reach(kids, from, x);
    if by == from {
        let k = choose|k: int| 0 <= k < kids[by as int].len() && kids[by as int][k] == x;
        assert(kids[from as int][k] < kids.len());
        lemma_reach(kids, x, x);
        assert(subtree(kids, kids[from as int][k]).contains(x));
    } else {
        let k = choose|k: int|
            0 <= k < kids[from as int].len() && subtree(
                kids,
                #[trigger] kids[from as int][k],
            ).contains(by);
        let c = kids[from as int][k];
        assert(rank(kids[from as int][k] as int) < rank(from as int));
        assert(kids[from as int][k] < kids.len());
        lemma_reach_further(kids, rank, c, by, x);
        assert(subtree(kids, kids[from as int][k]).contains(x));
    }
}

/// What lies above a position reaches it, where every position is listed by the one above it.
pub proof fn lemma_above_reaches(
    kids: Seq<Seq<usize>>,
    ups: Seq<Option<usize>>,
    rank: spec_fn(int) -> nat,
    i: usize,
    above: usize,
)
    requires
        in_range(kids),
        acyclic(kids),
        rooted(ups),
        kids.len() == ups.len(),
        ranked(up_lists(ups), rank),
        forall|c: int|
            0 <= c < ups.len() ==> (#[trigger] ups[c] matches Some(p) ==> kids[p as int].contains(
                c as usize,
            )),
        ups.len() <= usize::MAX,
        i < ups.len(),
        lineage(ups, i).contains(above),
    ensures
        above < kids.len(),
        subtree(kids, above).contains(i),
    decreases rank(i as int),
{
    lemma_lineage(ups, i);
    lemma_lineage_range(ups, i);
    let k = choose|k: int| 0 <= k < lineage(ups, i).len() && lineage(ups, i)[k] == above;
    assert(lineage(ups, i)[k] < ups.len());
    lemma_reach(kids, above, above);
    if above != i {
        match ups[i as int] {
            Some(p) => {
                let line = lineage(ups, p);
                assert(lineage(ups, i) == seq![i] + line);
                lemma_contains_append(seq![i], line, above);
                assert(!seq![i].contains(above)) by {
                    if seq![i].contains(above) {
                        let j = choose|j: int| 0 <= j < 1 && seq![i][j] == above;
                        assert(seq![i][j] == i);
                    }
                }
                assert(up_lists(ups)[i as int][0] == p);
                assert(rank(up_lists(ups)[i as int][0] as int) < rank(i as int));
                lemma_above_reaches(kids, ups, rank, p, above);
                let down = choose|r: spec_fn(int) -> nat| ranked(kids, r);
                assert(kids[p as int].contains(i)) by {
                    assert(ups[i as int] == Some(p));
                }
                lemma_reach_further(kids, down, above, p, i);
            },
            None => {
                assert(lineage(ups, i) == seq![i]);
                assert(seq![i][k] == i);
            },
        }
    }
}

/// The way up from a position begins with it, goes from each position to the one directly above, and
/// ends where there is none.
pub proof fn law_lineage_climbs(ups: Seq<Option<usize>>, i: usize)
    requires
        rooted(ups),
        i < ups.len(),
    ensures
        lineage(ups, i).len() > 0,
        lineage(ups, i)[0] == i,
        ups[lineage(ups, i).last() as int] is None,
        forall|k: int|
            0 <= k < lineage(ups, i).len() - 1 ==> ups[#[trigger] lineage(ups, i)[k] as int] == Some(
                lineage(ups, i)[k + 1],
            ),
{
    let rank = choose|rank: spec_fn(int) -> nat| ranked(up_lists(ups), rank);
    lemma_climbs(ups, rank, i);
}

proof fn lemma_climbs(ups: Seq<Option<usize>>, rank: spec_fn(int) -> nat, i: usize)
    requires
        rooted(ups),
        ranked(up_lists(ups), rank),
        i < ups.len(),
    ensures
        lineage(ups, i).len() > 0,
        lineage(ups, i)[0] == i,
        ups[lineage(ups, i).last() as int] is None,
        forall|k: int|
            0 <= k < lineage(ups, i).len() - 1 ==> ups[#[trigger] lineage(ups, i)[k] as int] == Some(
                lineage(ups, i)[k + 1],
            ),
    decreases rank(i as int),
{
    lemma_lineage(ups, i);
    if let Some(up) = ups[i as int] {
        assert(up_lists(ups)[i as int][0] == up);
        assert(rank(up_lists(ups)[i as int][0] as int) < rank(i as int));
        lemma_climbs(ups, rank, up);
        let line = lineage(ups, i);
        let rest = lineage(ups, up);
        assert(line == seq![i] + rest);
        assert forall|k: int| 0 <= k < line.len() - 1 implies ups[#[trigger] line[k] as int] == Some(
            line[k + 1],
        ) by {
            if k > 0 {
                assert(line[k] == rest[k - 1] && line[k + 1] == rest[k]);
            } else {
                assert(line[1] == rest[0]);
            }
        }
        assert(line.last() == rest.last());
    }
}

proof fn lemma_ranks_below(
    kids: Seq<Seq<usize>>,
    rank: spec_fn(int) -> nat,
    list: Seq<usize>,
    bound: nat,
    depth: nat,
)
    requires
        in_range(kids),
        ranked(kids, rank),
        forall|k: int| 0 <= k < list.len() ==> #[trigger] list[k] < kids.len() && rank(list[k] as int)
            < bound,
    ensures
        forall|k: int| 0 <= k < list_below(kids, list, depth).len() ==> rank(
            #[trigger] list_below(kids, list, depth)[k] as int,
        ) < bound,
    decreases depth, list.len(),
{
    if list.len() > 0 {
        let init = list.drop_last();
        let last = list.last();
        assert forall|k: int| 0 <= k < init.len() implies #[trigger] init[k] < kids.len() && rank(
            init[k] as int,
        ) < bound by {
            assert(init[k] == list[k]);
        }
        lemma_ranks_below(kids, rank, init, bound, depth);
        assert(list[list.len() - 1] == last);
        if depth > 0 {
            let below = kids[last as int];
            assert forall|k: int| 0 <= k < below.len() implies #[trigger] below[k] < kids.len() && rank(
                below[k] as int,
            ) < bound by {
                assert(kids[last as int][k] == below[k]);
            }
            lemma_ranks_below(kids, rank, below, bound, (depth - 1) as nat);
        }
        let left = list_below(kids, init, depth);
        let right = node_below(kids, last, depth);
        let whole = list_below(kids, list, depth);
        assert(whole == left + right);
        assert forall|k: int| 0 <= k < whole.len() implies rank(#[trigger] whole[k] as int) < bound by {
            if k < left.len() {
                assert(whole[k] == left[k]);
            } else {
                let j = k - left.len();
                assert(whole[k] == right[j]);
                if j > 0 {
                    assert(depth > 0);
                    assert(right[j] == list_below(kids, kids[last as int], (depth - 1) as nat)[j - 1]);
                }
            }
        }
    }
}

/// No position lies below itself.
pub proof fn law_nothing_lies_below_itself(kids: Seq<Seq<usize>>, i: usize)
    requires
        in_range(kids),
        acyclic(kids),
        i < kids.len(),
    ensures
        !descendants(kids, i).contains(i),
{
    let rank = choose|rank: spec_fn(int) -> nat| ranked(kids, rank);
    let list = kids[i as int];
    assert forall|k: int| 0 <= k < list.len() implies #[trigger] list[k] < kids.len() && rank(
        list[k] as int,
    ) < rank(i as int) by {
        assert(kids[i as int][k] == list[k]);
    }
    lemma_ranks_below(kids, rank, list, rank(i as int), kids.len());
}

} // verus!
