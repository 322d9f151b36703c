//! What fires when an instance gets another parent or is destroyed: who is told, by which event, of
//! what, and in which order.

use vstd::prelude::*;
use vstd::string::*;

use crate::instance::{self, ValueView};
use crate::laws;
use crate::moves;
use crate::runtime::{self, FiringView, RuntimeView};
use crate::signal::{ArgView, SignalSlot};
use crate::text::Text;
use crate::tree;

verus! {

// ---------------------------------------------------------------------------------------------
// Firings by the names of their events
// ---------------------------------------------------------------------------------------------

/// The name of the event that fires. Signals for changes of one property have none.
pub open spec fn fired_event(rt: RuntimeView, f: FiringView) -> Option<Text> {
    match f.signal.slot {
        SignalSlot::Event(k) => Some(rt.instances[f.signal.instance as int].events[k as int].name),
        SignalSlot::Property(_) => None,
    }
}

/// Whether an event of the given name fires at an instance and tells the given things.
pub open spec fn is_firing(
    rt: RuntimeView,
    f: FiringView,
    at: usize,
    name: Text,
    args: Seq<ArgView>,
) -> bool {
    &&& f.signal.instance == at
    &&& f.signal.slot matches SignalSlot::Event(k) && k < rt.instances[at as int].events.len()
    &&& fired_event(rt, f) == Some(name)
    &&& f.args == args
}

/// Whether an event of the given name is among what fires at an instance and tells the given things.
pub open spec fn told(
    rt: RuntimeView,
    fires: Seq<FiringView>,
    at: usize,
    name: Text,
    args: Seq<ArgView>,
) -> bool {
    exists|k: int| 0 <= k < fires.len() && is_firing(rt, #[trigger] fires[k], at, name, args)
}

/// Whether an instance has an event of the given name.
pub open spec fn has_event(rt: RuntimeView, at: usize, name: Text) -> bool {
    exists|e: int|
        0 <= e < rt.instances[at as int].events.len() && (
        #[trigger] rt.instances[at as int].events[e]).name == name
}

/// Whether the signals of every instance can be counted by positions in memory.
pub open spec fn countable(rt: RuntimeView) -> bool {
    forall|i: int|
        0 <= i < rt.instances.len() ==> (#[trigger] rt.instances[i]).events.len() <= usize::MAX
            && rt.instances[i].property_signals.len() <= usize::MAX
}

/// Whether two runtimes have the same instances with the same signals.
spec fn same_signals(a: RuntimeView, b: RuntimeView) -> bool {
    &&& a.instances.len() == b.instances.len()
    &&& forall|i: int|
        0 <= i < a.instances.len() ==> (#[trigger] a.instances[i]).events == b.instances[i].events
            && a.instances[i].property_signals == b.instances[i].property_signals
}

proof fn lemma_event(rt: RuntimeView, now: RuntimeView, at: usize, name: Text, args: Seq<ArgView>)
    requires
        same_signals(rt, now),
        countable(rt),
        at < rt.instances.len(),
    ensures
        runtime::event_firing(now, at, name, args).len() <= 1,
        forall|k: int|
            0 <= k < runtime::event_firing(now, at, name, args).len() ==> is_firing(
                rt,
                #[trigger] runtime::event_firing(now, at, name, args)[k],
                at,
                name,
                args,
            ),
        has_event(rt, at, name) ==> told(
            rt,
            runtime::event_firing(now, at, name, args),
            at,
            name,
            args,
        ),
{
    let events = rt.instances[at as int].events;
    let seg = runtime::event_firing(now, at, name, args);
    instance::lemma_event_at(events, name);
    assert(now.instances[at as int].events == events);
    assert(rt.instances[at as int].events.len() <= usize::MAX);
    if has_event(rt, at, name) {
        let e = choose|e: int|
            0 <= e < rt.instances[at as int].events.len() && (
            #[trigger] rt.instances[at as int].events[e]).name == name;
        assert(events[e].name == name);
        assert(is_firing(rt, seg[0], at, name, args));
    }
}

proof fn lemma_told_joined(
    rt: RuntimeView,
    a: Seq<FiringView>,
    b: Seq<FiringView>,
    at: usize,
    name: Text,
    args: Seq<ArgView>,
)
    requires
        told(rt, a, at, name, args) || told(rt, b, at, name, args),
    ensures
        told(rt, a + b, at, name, args),
{
    if told(rt, a, at, name, args) {
        let k = choose|k: int| 0 <= k < a.len() && is_firing(rt, #[trigger] a[k], at, name, args);
        assert((a + b)[k] == a[k]);
    } else {
        let k = choose|k: int| 0 <= k < b.len() && is_firing(rt, #[trigger] b[k], at, name, args);
        assert((a + b)[a.len() + k] == b[k]);
    }
}

/// Whether a firing tells of one of the given instances.
pub open spec fn tells_of(
    rt: RuntimeView,
    f: FiringView,
    at: usize,
    name: Text,
    below: Seq<usize>,
) -> bool {
    exists|d: usize| #[trigger]
        below.contains(d) && is_firing(rt, f, at, name, seq![ArgView::Instance(d)])
}

proof fn lemma_tell(rt: RuntimeView, now: RuntimeView, at: usize, name: Text, below: Seq<usize>)
    requires
        same_signals(rt, now),
        countable(rt),
        at < rt.instances.len(),
    ensures
        forall|k: int|
            0 <= k < moves::tell(now, at, name, below).len() ==> tells_of(
                rt,
                #[trigger] moves::tell(now, at, name, below)[k],
                at,
                name,
                below,
            ),
        has_event(rt, at, name) ==> forall|d: usize| #[trigger]
            below.contains(d) ==> told(
                rt,
                moves::tell(now, at, name, below),
                at,
                name,
                seq![ArgView::Instance(d)],
            ),
    decreases below.len(),
{
    if below.len() > 0 {
        let init = below.drop_last();
        let last = below[below.len() - 1];
        let a = moves::tell(now, at, name, init);
        let b = runtime::event_firing(now, at, name, seq![ArgView::Instance(last)]);
        let all = moves::tell(now, at, name, below);
        lemma_tell(rt, now, at, name, init);
        lemma_event(rt, now, at, name, seq![ArgView::Instance(last)]);
        assert(all == a + b);
        assert forall|k: int| 0 <= k < all.len() implies tells_of(
            rt,
            #[trigger] all[k],
            at,
            name,
            below,
        ) by {
            if k < a.len() {
                assert(all[k] == a[k]);
                let d = choose|d: usize| #[trigger]
                    init.contains(d) && is_firing(rt, a[k], at, name, seq![ArgView::Instance(d)]);
                let j = choose|j: int| 0 <= j < init.len() && init[j] == d;
                assert(below[j] == d);
                assert(below.contains(d));
            } else {
                assert(all[k] == b[k - a.len()]);
                assert(below.contains(last));
            }
        }
        if has_event(rt, at, name) {
            assert forall|d: usize| #[trigger] below.contains(d) implies told(
                rt,
                all,
                at,
                name,
                seq![ArgView::Instance(d)],
            ) by {
                let j = choose|j: int| 0 <= j < below.len() && below[j] == d;
                if j < init.len() {
                    assert(init[j] == d);
                    assert(init.contains(d));
                }
                lemma_told_joined(rt, a, b, at, name, seq![ArgView::Instance(d)]);
            }
        }
    }
}

proof fn lemma_tell_line(
    rt: RuntimeView,
    now: RuntimeView,
    line: Seq<usize>,
    name: Text,
    below: Seq<usize>,
)
    requires
        same_signals(rt, now),
        countable(rt),
        forall|k: int| 0 <= k < line.len() ==> #[trigger] line[k] < rt.instances.len(),
    ensures
        forall|k: int|
            0 <= k < moves::tell_line(now, line, name, below).len() ==> {
                let f = #[trigger] moves::tell_line(now, line, name, below)[k];
                line.contains(f.signal.instance) && tells_of(rt, f, f.signal.instance, name, below)
            },
        forall|a: usize, d: usize|
            #![trigger line.contains(a), below.contains(d)]
            line.contains(a) && below.contains(d) && has_event(rt, a, name) ==> told(
                rt,
                moves::tell_line(now, line, name, below),
                a,
                name,
                seq![ArgView::Instance(d)],
            ),
    decreases line.len(),
{
    if line.len() > 0 {
        let rest = line.drop_first();
        let first = line[0];
        let x = moves::tell(now, first, name, below);
        let y = moves::tell_line(now, rest, name, below);
        let all = moves::tell_line(now, line, name, below);
        assert forall|k: int| 0 <= k < rest.len() implies #[trigger] rest[k] < rt.instances.len() by {
            assert(rest[k] == line[k + 1]);
        }
        assert(first < rt.instances.len());
        lemma_tell(rt, now, first, name, below);
        lemma_tell_line(rt, now, rest, name, below);
        assert(all == x + y);
        assert forall|k: int| 0 <= k < all.len() implies {
            let f = #[trigger] all[k];
            line.contains(f.signal.instance) && tells_of(rt, f, f.signal.instance, name, below)
        } by {
            if k < x.len() {
                assert(all[k] == x[k]);
                assert(tells_of(rt, x[k], first, name, below));
                assert(line.contains(first));
            } else {
                let f = y[k - x.len()];
                assert(all[k] == f);
                assert(rest.contains(f.signal.instance));
                let j = choose|j: int| 0 <= j < rest.len() && rest[j] == f.signal.instance;
                assert(line[j + 1] == f.signal.instance);
            }
        }
        assert forall|a: usize, d: usize|
            #![trigger line.contains(a), below.contains(d)]
            line.contains(a) && below.contains(d) && has_event(rt, a, name) implies told(
            rt,
            all,
            a,
            name,
            seq![ArgView::Instance(d)],
        ) by {
            let j = choose|j: int| 0 <= j < line.len() && line[j] == a;
            if j > 0 {
                assert(rest[j - 1] == a);
                assert(rest.contains(a));
            }
            lemma_told_joined(rt, x, y, a, name, seq![ArgView::Instance(d)]);
        }
    }
}

// ---------------------------------------------------------------------------------------------
// What belongs to a move
// ---------------------------------------------------------------------------------------------

/// The parent of an instance as listeners are told of it.
pub open spec fn parent_arg(rt: RuntimeView, at: usize) -> ArgView {
    match rt.instances[at as int].parent {
        Some(p) => ArgView::Instance(p),
        None => ArgView::Nil,
    }
}

/// Whether a firing belongs to a move of an instance: the parent that it leaves is told that a child
/// was removed, that parent and everything above it that descendants are removed, the parent that it
/// gets that a child was added, that parent and everything above it that descendants were added, the
/// instance that its property `Parent` has changed, and everything that moved that what lies above it
/// has changed.
pub open spec fn belongs(rt: RuntimeView, after: RuntimeView, child: usize, f: FiringView) -> bool {
    let moved = tree::subtree(instance::kids_of(rt.instances), child);
    let at = f.signal.instance;
    ||| rt.instances[child as int].parent matches Some(p) && is_firing(
        rt,
        f,
        p,
        "ChildRemoved"@,
        seq![ArgView::Instance(child)],
    )
    ||| rt.instances[child as int].parent matches Some(p) && tree::lineage(
        instance::ups_of(rt.instances),
        p,
    ).contains(at) && tells_of(rt, f, at, "DescendantRemoving"@, moved)
    ||| after.instances[child as int].parent matches Some(p) && is_firing(
        rt,
        f,
        p,
        "ChildAdded"@,
        seq![ArgView::Instance(child)],
    )
    ||| after.instances[child as int].parent matches Some(p) && tree::lineage(
        instance::ups_of(after.instances),
        p,
    ).contains(at) && tells_of(rt, f, at, "DescendantAdded"@, moved)
    ||| is_firing(rt, f, child, "Changed"@, seq![ArgView::String("Parent"@)])
    ||| at == child && f.args.len() == 0 && (f.signal.slot matches SignalSlot::Property(k) && k
        < rt.instances[child as int].property_signals.len()
        && rt.instances[child as int].property_signals[k as int].property == "Parent"@)
    ||| moved.contains(at) && is_firing(
        rt,
        f,
        at,
        "AncestryChanged"@,
        seq![ArgView::Instance(at), parent_arg(after, at)],
    )
}

/// Where in a move a firing stands.
pub open spec fn turn(rt: RuntimeView, f: FiringView) -> int {
    match fired_event(rt, f) {
        None => 5,
        Some(name) => if name == "ChildRemoved"@ {
            0
        } else if name == "DescendantRemoving"@ {
            1
        } else if name == "ChildAdded"@ {
            2
        } else if name == "DescendantAdded"@ {
            3
        } else if name == "Changed"@ {
            4
        } else if name == "AncestryChanged"@ {
            6
        } else {
            7
        },
    }
}

/// Whether more than one firing may have the same turn.
pub open spec fn many(turn: int) -> bool {
    turn == 1 || turn == 3 || turn == 6
}

proof fn lemma_event_names()
    ensures
        "ChildRemoved"@ != "DescendantRemoving"@,
        "ChildRemoved"@ != "ChildAdded"@,
        "ChildRemoved"@ != "DescendantAdded"@,
        "ChildRemoved"@ != "Changed"@,
        "ChildRemoved"@ != "AncestryChanged"@,
        "DescendantRemoving"@ != "ChildAdded"@,
        "DescendantRemoving"@ != "DescendantAdded"@,
        "DescendantRemoving"@ != "Changed"@,
        "DescendantRemoving"@ != "AncestryChanged"@,
        "ChildAdded"@ != "DescendantAdded"@,
        "ChildAdded"@ != "Changed"@,
        "ChildAdded"@ != "AncestryChanged"@,
        "DescendantAdded"@ != "Changed"@,
        "DescendantAdded"@ != "AncestryChanged"@,
        "Changed"@ != "AncestryChanged"@,
        "Destroying"@ != "ChildRemoved"@,
        "Destroying"@ != "DescendantRemoving"@,
        "Destroying"@ != "ChildAdded"@,
        "Destroying"@ != "DescendantAdded"@,
        "Destroying"@ != "Changed"@,
        "Destroying"@ != "AncestryChanged"@,
{
    reveal_strlit("ChildRemoved");
    reveal_strlit("DescendantRemoving");
    reveal_strlit("ChildAdded");
    reveal_strlit("DescendantAdded");
    reveal_strlit("Changed");
    reveal_strlit("AncestryChanged");
    reveal_strlit("Destroying");
    assert("ChildRemoved"@.len() == 12 && "DescendantRemoving"@.len() == 18);
    assert("ChildAdded"@.len() == 10 && "ChildAdded"@[0] == 'C');
    assert("Destroying"@.len() == 10 && "Destroying"@[0] == 'D');
    assert("DescendantAdded"@.len() == 15 && "DescendantAdded"@[0] == 'D');
    assert("AncestryChanged"@.len() == 15 && "AncestryChanged"@[0] == 'A');
    assert("Changed"@.len() == 7);
}

/// Whether firings belong to a move and come in their turn, none before the given one, and where only
/// one may have a turn, only one has it.
pub open spec fn in_turn(
    rt: RuntimeView,
    after: RuntimeView,
    child: usize,
    fires: Seq<FiringView>,
    from: int,
) -> bool {
    &&& forall|k: int|
        0 <= k < fires.len() ==> belongs(rt, after, child, #[trigger] fires[k]) && from <= turn(
            rt,
            fires[k],
        ) <= 6
    &&& forall|i: int, j: int|
        0 <= i < j < fires.len() ==> turn(rt, #[trigger] fires[i]) < turn(rt, #[trigger] fires[j])
            || (turn(rt, fires[i]) == turn(rt, fires[j]) && many(turn(rt, fires[i])))
}

proof fn lemma_in_turn(
    rt: RuntimeView,
    after: RuntimeView,
    child: usize,
    first: Seq<FiringView>,
    rest: Seq<FiringView>,
    n: int,
)
    requires
        forall|k: int|
            0 <= k < first.len() ==> belongs(rt, after, child, #[trigger] first[k]) && turn(
                rt,
                first[k],
            ) == n,
        first.len() <= 1 || many(n),
        0 <= n <= 6,
        in_turn(rt, after, child, rest, n + 1),
    ensures
        in_turn(rt, after, child, first + rest, n),
{
    let all = first + rest;
    assert forall|k: int| 0 <= k < all.len() implies belongs(rt, after, child, #[trigger] all[k]) && n
        <= turn(rt, all[k]) <= 6 by {
        if k < first.len() {
            assert(all[k] == first[k]);
        } else {
            assert(all[k] == rest[k - first.len()]);
        }
    }
    assert forall|i: int, j: int| 0 <= i < j < all.len() implies turn(rt, #[trigger] all[i]) < turn(
        rt,
        #[trigger] all[j],
    ) || (turn(rt, all[i]) == turn(rt, all[j]) && many(turn(rt, all[i]))) by {
        if j < first.len() {
            assert(all[i] == first[i] && all[j] == first[j]);
        } else if i < first.len() {
            assert(all[i] == first[i] && all[j] == rest[j - first.len()]);
        } else {
            assert(all[i] == rest[i - first.len()] && all[j] == rest[j - first.len()]);
        }
    }
}

proof fn lemma_in_turn_later(
    rt: RuntimeView,
    after: RuntimeView,
    child: usize,
    fires: Seq<FiringView>,
    from: int,
    earlier: int,
)
    requires
        in_turn(rt, after, child, fires, from),
        earlier <= from,
    ensures
        in_turn(rt, after, child, fires, earlier),
{
}

/// Whether everyone is told that a move has ended.
pub open spec fn ending_told(
    rt: RuntimeView,
    after: RuntimeView,
    child: usize,
    fires: Seq<FiringView>,
) -> bool {
    &&& has_event(rt, child, "Changed"@) ==> told(
        rt,
        fires,
        child,
        "Changed"@,
        seq![ArgView::String("Parent"@)],
    )
    &&& (exists|s: int|
        0 <= s < rt.instances[child as int].property_signals.len() && (
        #[trigger] rt.instances[child as int].property_signals[s]).property == "Parent"@) ==> exists|
        k: int,
    |
        0 <= k < fires.len() && fired_event(rt, #[trigger] fires[k]) is None
    &&& forall|d: usize| #[trigger]
        tree::subtree(instance::kids_of(rt.instances), child).contains(d) && has_event(
            rt,
            d,
            "AncestryChanged"@,
        ) ==> told(
            rt,
            fires,
            d,
            "AncestryChanged"@,
            seq![ArgView::Instance(d), parent_arg(after, d)],
        )
}

/// Whether a parent and everything above it are told of an instance and everything below it.
pub open spec fn passage_told(
    rt: RuntimeView,
    parent: usize,
    line: Seq<usize>,
    child: usize,
    child_event: Text,
    descendant_event: Text,
    fires: Seq<FiringView>,
) -> bool {
    &&& has_event(rt, parent, child_event) ==> told(
        rt,
        fires,
        parent,
        child_event,
        seq![ArgView::Instance(child)],
    )
    &&& forall|a: usize, d: usize|
        #![trigger line.contains(a), tree::subtree(instance::kids_of(rt.instances), child).contains(d)]
        line.contains(a) && tree::subtree(instance::kids_of(rt.instances), child).contains(d)
            && has_event(rt, a, descendant_event) ==> told(
            rt,
            fires,
            a,
            descendant_event,
            seq![ArgView::Instance(d)],
        )
}

proof fn lemma_ending_later(
    rt: RuntimeView,
    after: RuntimeView,
    child: usize,
    a: Seq<FiringView>,
    b: Seq<FiringView>,
)
    requires
        ending_told(rt, after, child, b),
    ensures
        ending_told(rt, after, child, a + b),
{
    let all = a + b;
    if has_event(rt, child, "Changed"@) {
        lemma_told_joined(rt, a, b, child, "Changed"@, seq![ArgView::String("Parent"@)]);
    }
    if exists|s: int|
        0 <= s < rt.instances[child as int].property_signals.len() && (
        #[trigger] rt.instances[child as int].property_signals[s]).property == "Parent"@ {
        let k = choose|k: int| 0 <= k < b.len() && fired_event(rt, #[trigger] b[k]) is None;
        assert(all[a.len() + k] == b[k]);
    }
    assert forall|d: usize| #[trigger]
        tree::subtree(instance::kids_of(rt.instances), child).contains(d) && has_event(
            rt,
            d,
            "AncestryChanged"@,
        ) implies told(
        rt,
        all,
        d,
        "AncestryChanged"@,
        seq![ArgView::Instance(d), parent_arg(after, d)],
    ) by {
        lemma_told_joined(
            rt,
            a,
            b,
            d,
            "AncestryChanged"@,
            seq![ArgView::Instance(d), parent_arg(after, d)],
        );
    }
}

proof fn lemma_passage_joined(
    rt: RuntimeView,
    parent: usize,
    line: Seq<usize>,
    child: usize,
    child_event: Text,
    descendant_event: Text,
    a: Seq<FiringView>,
    b: Seq<FiringView>,
)
    requires
        passage_told(rt, parent, line, child, child_event, descendant_event, a) || passage_told(
            rt,
            parent,
            line,
            child,
            child_event,
            descendant_event,
            b,
        ),
    ensures
        passage_told(rt, parent, line, child, child_event, descendant_event, a + b),
{
    if has_event(rt, parent, child_event) {
        lemma_told_joined(rt, a, b, parent, child_event, seq![ArgView::Instance(child)]);
    }
    let moved = tree::subtree(instance::kids_of(rt.instances), child);
    assert forall|x: usize, d: usize|
        #![trigger line.contains(x), tree::subtree(instance::kids_of(rt.instances), child).contains(d)]
        line.contains(x) && tree::subtree(instance::kids_of(rt.instances), child).contains(d)
            && has_event(rt, x, descendant_event) implies told(
        rt,
        a + b,
        x,
        descendant_event,
        seq![ArgView::Instance(d)],
    ) by {
        lemma_told_joined(rt, a, b, x, descendant_event, seq![ArgView::Instance(d)]);
    }
}

// ---------------------------------------------------------------------------------------------
// The parts of a move
// ---------------------------------------------------------------------------------------------

proof fn lemma_ancestry(rt: RuntimeView, after: RuntimeView, child: usize, moved: Seq<usize>, next: nat)
    requires
        same_signals(rt, after),
        countable(rt),
        forall|k: int| 0 <= k < moved.len() ==> #[trigger] moved[k] < rt.instances.len(),
        moved == tree::subtree(instance::kids_of(rt.instances), child),
    ensures
        in_turn(rt, after, child, moves::ancestry_firings(after, moved, next), 6),
        forall|k: int|
            next <= k < moved.len() && has_event(rt, #[trigger] moved[k], "AncestryChanged"@) ==> told(
                rt,
                moves::ancestry_firings(after, moved, next),
                moved[k],
                "AncestryChanged"@,
                seq![ArgView::Instance(moved[k]), parent_arg(after, moved[k])],
            ),
    decreases moved.len() - next,
{
    if next < moved.len() {
        let at = moved[next as int];
        let args = seq![ArgView::Instance(at), parent_arg(after, at)];
        let a = moves::ancestry_firing(after, at);
        let b = moves::ancestry_firings(after, moved, next + 1);
        let all = moves::ancestry_firings(after, moved, next);
        lemma_event_names();
        lemma_event(rt, after, at, "AncestryChanged"@, args);
        lemma_ancestry(rt, after, child, moved, next + 1);
        assert(seq![
            ArgView::Instance(at),
            match after.instances[at as int].parent {
                Some(p) => ArgView::Instance(p),
                None => ArgView::Nil,
            },
        ] =~= args);
        assert(all == a + b);
        assert forall|k: int| 0 <= k < all.len() implies belongs(rt, after, child, #[trigger] all[k])
            && turn(rt, all[k]) == 6 by {
            if k < a.len() {
                assert(all[k] == a[k]);
                assert(is_firing(rt, a[k], at, "AncestryChanged"@, args));
                assert(moved.contains(at));
            } else {
                assert(all[k] == b[k - a.len()]);
            }
        }
        assert forall|k: int|
            next <= k < moved.len() && has_event(rt, #[trigger] moved[k], "AncestryChanged"@) implies told(
            rt,
            all,
            moved[k],
            "AncestryChanged"@,
            seq![ArgView::Instance(moved[k]), parent_arg(after, moved[k])],
        ) by {
            lemma_told_joined(
                rt,
                a,
                b,
                moved[k],
                "AncestryChanged"@,
                seq![ArgView::Instance(moved[k]), parent_arg(after, moved[k])],
            );
        }
    }
}

proof fn lemma_end(rt: RuntimeView, after: RuntimeView, change: moves::MoveView)
    requires
        same_signals(rt, after),
        countable(rt),
        change.child < rt.instances.len(),
        change.moved == tree::subtree(instance::kids_of(rt.instances), change.child),
        forall|k: int| 0 <= k < change.moved.len() ==> #[trigger] change.moved[k] < rt.instances.len(),
    ensures
        in_turn(rt, after, change.child, moves::end_firings(after, change), 4),
        ending_told(rt, after, change.child, moves::end_firings(after, change)),
{
    let child = change.child;
    let args = seq![ArgView::String("Parent"@)];
    let a = runtime::event_firing(after, child, "Changed"@, args);
    let b = runtime::own_firing(after, child, "Parent"@);
    let c = moves::ancestry_firings(after, change.moved, 0);
    let signals = rt.instances[child as int].property_signals;
    lemma_event_names();
    lemma_event(rt, after, child, "Changed"@, args);
    lemma_ancestry(rt, after, child, change.moved, 0);
    assert(after.instances[child as int].property_signals == signals);
    instance::lemma_property_signal_at(signals, "Parent"@);
    assert(rt.instances[child as int].property_signals.len() <= usize::MAX);
    assert forall|k: int| 0 <= k < b.len() implies belongs(rt, after, child, #[trigger] b[k]) && turn(
        rt,
        b[k],
    ) == 5 by {}
    assert forall|k: int| 0 <= k < a.len() implies belongs(rt, after, child, #[trigger] a[k]) && turn(
        rt,
        a[k],
    ) == 4 by {
        assert(is_firing(rt, a[k], child, "Changed"@, args));
    }
    lemma_in_turn(rt, after, child, b, c, 5);
    lemma_in_turn(rt, after, child, a, b + c, 4);
    let all = a + (b + c);
    assert(all == moves::end_firings(after, change));
    if has_event(rt, child, "Changed"@) {
        lemma_told_joined(rt, a, b + c, child, "Changed"@, args);
    }
    if exists|s: int|
        0 <= s < rt.instances[child as int].property_signals.len() && (
        #[trigger] rt.instances[child as int].property_signals[s]).property == "Parent"@ {
        let s = choose|s: int|
            0 <= s < rt.instances[child as int].property_signals.len() && (
            #[trigger] rt.instances[child as int].property_signals[s]).property == "Parent"@;
        assert(signals[s].property == "Parent"@);
        assert(b.len() == 1);
        assert(all[a.len() as int] == b[0]);
        assert(fired_event(rt, all[a.len() as int]) is None);
    }
    assert forall|d: usize| #[trigger]
        tree::subtree(instance::kids_of(rt.instances), child).contains(d) && has_event(
            rt,
            d,
            "AncestryChanged"@,
        ) implies told(
        rt,
        all,
        d,
        "AncestryChanged"@,
        seq![ArgView::Instance(d), parent_arg(after, d)],
    ) by {
        let k = choose|k: int| 0 <= k < change.moved.len() && change.moved[k] == d;
        assert(has_event(rt, change.moved[k], "AncestryChanged"@));
        lemma_told_joined(
            rt,
            b,
            c,
            d,
            "AncestryChanged"@,
            seq![ArgView::Instance(d), parent_arg(after, d)],
        );
        lemma_told_joined(
            rt,
            a,
            b + c,
            d,
            "AncestryChanged"@,
            seq![ArgView::Instance(d), parent_arg(after, d)],
        );
    }
}

/// What fires when a parent and everything above it are told of an instance.
proof fn lemma_passage(
    rt: RuntimeView,
    after: RuntimeView,
    now: RuntimeView,
    child: usize,
    parent: usize,
    line: Seq<usize>,
    adding: bool,
    rest: Seq<FiringView>,
)
    requires
        same_signals(rt, now),
        countable(rt),
        parent < rt.instances.len(),
        line == tree::lineage(instance::ups_of(now.instances), parent),
        forall|k: int| 0 <= k < line.len() ==> #[trigger] line[k] < rt.instances.len(),
        tree::subtree(instance::kids_of(now.instances), child) == tree::subtree(
            instance::kids_of(rt.instances),
            child,
        ),
        adding ==> after.instances[child as int].parent == Some(parent) && line == tree::lineage(
            instance::ups_of(after.instances),
            parent,
        ),
        !adding ==> rt.instances[child as int].parent == Some(parent) && line == tree::lineage(
            instance::ups_of(rt.instances),
            parent,
        ),
        in_turn(
            rt,
            after,
            child,
            rest,
            if adding {
                4
            } else {
                2
            },
        ),
    ensures
        ({
            let child_event = if adding {
                "ChildAdded"@
            } else {
                "ChildRemoved"@
            };
            let descendant_event = if adding {
                "DescendantAdded"@
            } else {
                "DescendantRemoving"@
            };
            let fires = runtime::event_firing(
                now,
                parent,
                child_event,
                seq![ArgView::Instance(child)],
            ) + (moves::climb_firings(now, adding, parent, child) + rest);
            &&& in_turn(
                rt,
                after,
                child,
                fires,
                if adding {
                    2
                } else {
                    0
                },
            )
            &&& passage_told(rt, parent, line, child, child_event, descendant_event, fires)
        }),
{
    let moved = tree::subtree(instance::kids_of(rt.instances), child);
    let n = if adding {
        2int
    } else {
        0
    };
    let child_event = if adding {
        "ChildAdded"@
    } else {
        "ChildRemoved"@
    };
    let descendant_event = if adding {
        "DescendantAdded"@
    } else {
        "DescendantRemoving"@
    };
    let args = seq![ArgView::Instance(child)];
    let a = runtime::event_firing(now, parent, child_event, args);
    let b = moves::climb_firings(now, adding, parent, child);
    lemma_event_names();
    lemma_event(rt, now, parent, child_event, args);
    lemma_tell_line(rt, now, line, descendant_event, moved);
    assert(b == moves::tell_line(now, line, descendant_event, moved));
    assert forall|k: int| 0 <= k < b.len() implies belongs(rt, after, child, #[trigger] b[k]) && turn(
        rt,
        b[k],
    ) == n + 1 by {
        let at = b[k].signal.instance;
        assert(line.contains(at) && tells_of(rt, b[k], at, descendant_event, moved));
        let d = choose|d: usize| #[trigger]
            moved.contains(d) && is_firing(
                rt,
                b[k],
                at,
                descendant_event,
                seq![ArgView::Instance(d)],
            );
    }
    assert forall|k: int| 0 <= k < a.len() implies belongs(rt, after, child, #[trigger] a[k]) && turn(
        rt,
        a[k],
    ) == n by {
        assert(is_firing(rt, a[k], parent, child_event, args));
    }
    lemma_in_turn(rt, after, child, b, rest, n + 1);
    lemma_in_turn(rt, after, child, a, b + rest, n);
    if has_event(rt, parent, child_event) {
        lemma_told_joined(rt, a, b + rest, parent, child_event, args);
    }
    assert forall|x: usize, d: usize|
        #![trigger line.contains(x), tree::subtree(instance::kids_of(rt.instances), child).contains(d)]
        line.contains(x) && tree::subtree(instance::kids_of(rt.instances), child).contains(d)
            && has_event(rt, x, descendant_event) implies told(
        rt,
        a + (b + rest),
        x,
        descendant_event,
        seq![ArgView::Instance(d)],
    ) by {
        assert(moved.contains(d));
        lemma_told_joined(rt, b, rest, x, descendant_event, seq![ArgView::Instance(d)]);
        lemma_told_joined(rt, a, b + rest, x, descendant_event, seq![ArgView::Instance(d)]);
    }
}

// ---------------------------------------------------------------------------------------------
// Laws
// ---------------------------------------------------------------------------------------------

/// Below an instance lies the same when it has left its parent and when it has another one.
proof fn lemma_same_below(rt: RuntimeView, child: usize, parent: Option<usize>)
    requires
        rt.wf(),
        moves::consistent(rt.instances),
        child < rt.instances.len(),
        parent matches Some(p) ==> p < rt.instances.len() && !runtime::clashes(
            moves::after_leaving(rt, moves::new_move(rt, child, parent)),
            child,
            p,
        ),
    ensures
        ({
            let moved = tree::subtree(instance::kids_of(rt.instances), child);
            let left = moves::after_leaving(rt, moves::new_move(rt, child, parent));
            let there = runtime::placed(left, child, parent);
            &&& left.wf()
            &&& there.wf()
            &&& tree::subtree(instance::kids_of(left.instances), child) == moved
            &&& tree::subtree(instance::kids_of(there.instances), child) == moved
            &&& instance::ups_of(left.instances) == instance::ups_of(rt.instances)
            &&& same_signals(rt, left)
            &&& same_signals(rt, there)
            &&& there.instances[child as int].parent == parent
        }),
{
    let left = moves::after_leaving(rt, moves::new_move(rt, child, parent));
    let there = runtime::placed(left, child, parent);
    let alone = runtime::placed(left, child, None);
    let moved = tree::subtree(instance::kids_of(rt.instances), child);
    tree::lemma_lineage(instance::ups_of(rt.instances), child);
    if let Some(p) = rt.instances[child as int].parent {
        runtime::lemma_detached_wf(rt, p, child);
    }
    runtime::lemma_placed_wf(left, child, parent);
    moves::lemma_same_subtree(rt, child);
    assert(moves::after_leaving(rt, moves::new_move(rt, child, None)) == left);
    assert(instance::kids_of(alone.instances) =~= instance::kids_of(left.instances));
    assert(instance::ups_of(left.instances) =~= instance::ups_of(rt.instances));
    match parent {
        None => {
            assert(there == alone);
        },
        Some(p) => {
            let kids = instance::kids_of(there.instances);
            let less = instance::kids_of(left.instances);
            let rank = choose|rank: spec_fn(int) -> nat| tree::ranked(kids, rank);
            let last = less[p as int].len() as int;
            assert(p != child) by {
                tree::lemma_reach(less, child, child);
            }
            assert(kids[p as int] =~= less[p as int].push(child));
            assert(kids[p as int][last] == child);
            assert(rank(kids[p as int][last] as int) < rank(p as int));
            assert forall|j: int| 0 <= j < kids.len() && rank(j) <= rank(child as int) implies #[trigger] less[j]
                == kids[j] by {}
            assert forall|k: int| 0 <= k < kids[child as int].len() implies #[trigger] kids[child as int][k]
                < kids.len() && rank(kids[child as int][k] as int) < rank(child as int) by {}
            moves::lemma_list_same(
                kids,
                less,
                rank,
                kids[child as int],
                rank(child as int),
                kids.len(),
            );
        },
    }
}

/// What fires when an instance gets another parent, or loses the one that it has. The parent that it
/// leaves is told by `ChildRemoved`, and that parent and everything above it by `DescendantRemoving`,
/// of the instance and of everything below it; the parent that it gets is told by `ChildAdded`, and
/// that parent and everything above it by `DescendantAdded`. Then the instance is told that `Parent`
/// has changed, and it and everything below it by `AncestryChanged`. Nothing else fires, and an
/// instance without a parent is removed from nowhere.
pub proof fn law_moves_are_told(rt: RuntimeView, child: usize, parent: Option<usize>)
    requires
        rt.wf(),
        moves::consistent(rt.instances),
        countable(rt),
        child < rt.instances.len(),
        parent matches Some(p) ==> p < rt.instances.len(),
        moves::set_parent_outcome(rt, child, parent).1 is Ok,
        rt.instances[child as int].parent != parent || parent is None,
    ensures
        ({
            let after = moves::set_parent_outcome(rt, child, parent).0;
            let fires = moves::set_parent_outcome(rt, child, parent).1->Ok_0;
            &&& after.instances[child as int].parent == parent
            &&& rt.instances[child as int].parent matches Some(old) ==> passage_told(
                rt,
                old,
                tree::lineage(instance::ups_of(rt.instances), old),
                child,
                "ChildRemoved"@,
                "DescendantRemoving"@,
                fires,
            )
            &&& parent matches Some(new) ==> passage_told(
                rt,
                new,
                tree::lineage(instance::ups_of(after.instances), new),
                child,
                "ChildAdded"@,
                "DescendantAdded"@,
                fires,
            )
            &&& ending_told(rt, after, child, fires)
            &&& in_turn(rt, after, child, fires, 0)
            &&& rt.instances[child as int].parent is None ==> forall|k: int|
                0 <= k < fires.len() ==> fired_event(rt, #[trigger] fires[k]) != Some(
                    "DescendantRemoving"@,
                ) && fired_event(rt, fires[k]) != Some("ChildRemoved"@)
            &&& parent is None ==> forall|k: int|
                0 <= k < fires.len() ==> fired_event(rt, #[trigger] fires[k]) != Some(
                    "DescendantAdded"@,
                ) && fired_event(rt, fires[k]) != Some("ChildAdded"@)
        }),
{
    let change = moves::new_move(rt, child, parent);
    let left = moves::after_leaving(rt, change);
    let after = runtime::placed(left, child, parent);
    let moved = tree::subtree(instance::kids_of(rt.instances), child);
    assert(moves::set_parent_outcome(rt, child, parent) == (
        after,
        Ok::<Seq<FiringView>, Text>(moves::move_firings(rt, change)),
    ));
    lemma_same_below(rt, child, parent);
    lemma_told_of(rt, change, after);
}

/// What a move fires.
proof fn lemma_told_of(rt: RuntimeView, change: moves::MoveView, after: RuntimeView)
    requires
        rt.wf(),
        countable(rt),
        change.child < rt.instances.len(),
        change == moves::new_move(rt, change.child, change.new_parent),
        change.new_parent matches Some(p) ==> p < rt.instances.len(),
        after == runtime::placed(moves::after_leaving(rt, change), change.child, change.new_parent),
        ({
            let left = moves::after_leaving(rt, change);
            &&& left.wf()
            &&& after.wf()
            &&& tree::subtree(instance::kids_of(left.instances), change.child) == change.moved
            &&& tree::subtree(instance::kids_of(after.instances), change.child) == change.moved
            &&& instance::ups_of(left.instances) == instance::ups_of(rt.instances)
            &&& same_signals(rt, left)
            &&& same_signals(rt, after)
            &&& after.instances[change.child as int].parent == change.new_parent
        }),
    ensures
        ({
            let child = change.child;
            let fires = moves::move_firings(rt, change);
            &&& rt.instances[child as int].parent matches Some(old) ==> passage_told(
                rt,
                old,
                tree::lineage(instance::ups_of(rt.instances), old),
                child,
                "ChildRemoved"@,
                "DescendantRemoving"@,
                fires,
            )
            &&& change.new_parent matches Some(new) ==> passage_told(
                rt,
                new,
                tree::lineage(instance::ups_of(after.instances), new),
                child,
                "ChildAdded"@,
                "DescendantAdded"@,
                fires,
            )
            &&& ending_told(rt, after, child, fires)
            &&& in_turn(rt, after, child, fires, 0)
            &&& rt.instances[child as int].parent is None ==> forall|k: int|
                0 <= k < fires.len() ==> fired_event(rt, #[trigger] fires[k]) != Some(
                    "DescendantRemoving"@,
                ) && fired_event(rt, fires[k]) != Some("ChildRemoved"@)
            &&& change.new_parent is None ==> forall|k: int|
                0 <= k < fires.len() ==> fired_event(rt, #[trigger] fires[k]) != Some(
                    "DescendantAdded"@,
                ) && fired_event(rt, fires[k]) != Some("ChildAdded"@)
        }),
{
    let child = change.child;
    let left = moves::after_leaving(rt, change);
    tree::lemma_subtree_range(instance::kids_of(rt.instances), child);
    lemma_event_names();
    lemma_end(rt, after, change);
    let end = moves::end_firings(after, change);
    let arrive = moves::arrive_firings(left, change);
    match change.new_parent {
        Some(p) => {
            let line = tree::lineage(instance::ups_of(after.instances), p);
            tree::lemma_lineage_range(instance::ups_of(after.instances), p);
            lemma_passage(rt, after, after, child, p, line, true, end);
            let a = runtime::event_firing(after, p, "ChildAdded"@, seq![ArgView::Instance(child)]);
            let b = moves::climb_firings(after, true, p, child);
            lemma_ending_later(rt, after, child, b, end);
            lemma_ending_later(rt, after, child, a, b + end);
            assert(arrive == a + (b + end));
        },
        None => {
            assert(arrive == end);
            lemma_in_turn_later(rt, after, child, end, 4, 2);
        },
    }
    let fires = moves::move_firings(rt, change);
    match rt.instances[child as int].parent {
        Some(p) => {
            let line = tree::lineage(instance::ups_of(rt.instances), p);
            tree::lemma_lineage(instance::ups_of(rt.instances), child);
            assert(instance::ups_of(rt.instances)[child as int] == Some(p));
            tree::lemma_lineage_range(instance::ups_of(rt.instances), p);
            lemma_passage(rt, after, left, child, p, line, false, arrive);
            let a = runtime::event_firing(left, p, "ChildRemoved"@, seq![ArgView::Instance(child)]);
            let b = moves::climb_firings(left, false, p, child);
            lemma_ending_later(rt, after, child, b, arrive);
            lemma_ending_later(rt, after, child, a, b + arrive);
            if let Some(new) = change.new_parent {
                let there = tree::lineage(instance::ups_of(after.instances), new);
                lemma_passage_joined(
                    rt,
                    new,
                    there,
                    child,
                    "ChildAdded"@,
                    "DescendantAdded"@,
                    b,
                    arrive,
                );
                lemma_passage_joined(
                    rt,
                    new,
                    there,
                    child,
                    "ChildAdded"@,
                    "DescendantAdded"@,
                    a,
                    b + arrive,
                );
            }
            assert(fires == a + (b + arrive));
        },
        None => {
            lemma_in_turn_later(rt, after, child, arrive, 2, 0);
            assert(fires == arrive);
            assert(in_turn(rt, after, child, fires, 2));
        },
    }
}

proof fn lemma_destroying(rt: RuntimeView, list: Seq<usize>)
    requires
        countable(rt),
        forall|k: int| 0 <= k < list.len() ==> #[trigger] list[k] < rt.instances.len(),
    ensures
        forall|k: int|
            0 <= k < moves::destroying_firings(rt, list).len() ==> {
                let f = #[trigger] moves::destroying_firings(rt, list)[k];
                list.contains(f.signal.instance) && is_firing(
                    rt,
                    f,
                    f.signal.instance,
                    "Destroying"@,
                    Seq::empty(),
                )
            },
        forall|d: usize| #[trigger]
            list.contains(d) && has_event(rt, d, "Destroying"@) ==> told(
                rt,
                moves::destroying_firings(rt, list),
                d,
                "Destroying"@,
                Seq::empty(),
            ),
    decreases list.len(),
{
    if list.len() > 0 {
        let init = list.drop_last();
        let last = list[list.len() - 1];
        let a = moves::destroying_firings(rt, init);
        let b = runtime::event_firing(rt, last, "Destroying"@, Seq::empty());
        let all = moves::destroying_firings(rt, list);
        assert forall|k: int| 0 <= k < init.len() implies #[trigger] init[k] < rt.instances.len() by {
            assert(init[k] == list[k]);
        }
        lemma_destroying(rt, init);
        lemma_event(rt, rt, last, "Destroying"@, Seq::empty());
        assert(all == a + b);
        assert forall|k: int| 0 <= k < all.len() implies {
            let f = #[trigger] all[k];
            list.contains(f.signal.instance) && is_firing(
                rt,
                f,
                f.signal.instance,
                "Destroying"@,
                Seq::empty(),
            )
        } by {
            if k < a.len() {
                assert(all[k] == a[k]);
                let j = choose|j: int| 0 <= j < init.len() && init[j] == a[k].signal.instance;
                assert(list[j] == a[k].signal.instance);
            } else {
                assert(all[k] == b[k - a.len()]);
                assert(list.contains(last));
            }
        }
        assert forall|d: usize| #[trigger]
            list.contains(d) && has_event(rt, d, "Destroying"@) implies told(
            rt,
            all,
            d,
            "Destroying"@,
            Seq::empty(),
        ) by {
            let j = choose|j: int| 0 <= j < list.len() && list[j] == d;
            if j < init.len() {
                assert(init[j] == d);
                assert(init.contains(d));
            }
            lemma_told_joined(rt, a, b, d, "Destroying"@, Seq::empty());
        }
    }
}

/// What fires when an instance is destroyed: it and everything below it are told by `Destroying`, and
/// then it leaves its parent as it does when it loses it. Nothing else fires. Destroying what has been
/// destroyed does nothing.
pub proof fn law_destruction_is_told(rt: RuntimeView, i: usize)
    requires
        rt.wf(),
        moves::consistent(rt.instances),
        countable(rt),
        i < rt.instances.len(),
    ensures
        rt.instances[i as int].destroyed ==> moves::destroy_outcome(rt, i) == (
            rt,
            Seq::<FiringView>::empty(),
        ),
        !rt.instances[i as int].destroyed ==> {
            let fires = moves::destroy_outcome(rt, i).1;
            let gone = tree::subtree(instance::kids_of(rt.instances), i);
            let alone = moves::set_parent_outcome(rt, i, None).0;
            &&& forall|d: usize| #[trigger]
                gone.contains(d) && has_event(rt, d, "Destroying"@) ==> told(
                    rt,
                    fires,
                    d,
                    "Destroying"@,
                    Seq::empty(),
                )
            &&& rt.instances[i as int].parent matches Some(old) ==> passage_told(
                rt,
                old,
                tree::lineage(instance::ups_of(rt.instances), old),
                i,
                "ChildRemoved"@,
                "DescendantRemoving"@,
                fires,
            )
            &&& ending_told(rt, alone, i, fires)
            &&& forall|k: int|
                0 <= k < fires.len() ==> belongs(rt, alone, i, #[trigger] fires[k]) || (gone.contains(
                    fires[k].signal.instance,
                ) && is_firing(
                    rt,
                    fires[k],
                    fires[k].signal.instance,
                    "Destroying"@,
                    Seq::empty(),
                ))
            &&& forall|k: int|
                0 <= k < fires.len() ==> fired_event(rt, #[trigger] fires[k]) != Some("ChildAdded"@)
                    && fired_event(rt, fires[k]) != Some("DescendantAdded"@)
        },
{
    if !rt.instances[i as int].destroyed {
        let kids = instance::kids_of(rt.instances);
        let gone = tree::subtree(kids, i);
        let below = tree::descendants(kids, i);
        let alone = moves::set_parent_outcome(rt, i, None).0;
        let a = runtime::event_firing(rt, i, "Destroying"@, Seq::empty());
        let b = moves::destroying_firings(rt, below);
        let c = moves::move_firings(rt, moves::new_move(rt, i, None));
        let fires = moves::destroy_outcome(rt, i).1;
        lemma_event_names();
        law_moves_are_told(rt, i, None);
        lemma_event(rt, rt, i, "Destroying"@, Seq::empty());
        tree::lemma_subtree_range(kids, i);
        lemma_destroying(rt, below);
        assert(fires == a + b + c);
        assert(moves::set_parent_outcome(rt, i, None).1->Ok_0 == c);
        assert forall|d: usize| #[trigger]
            gone.contains(d) && has_event(rt, d, "Destroying"@) implies told(
            rt,
            fires,
            d,
            "Destroying"@,
            Seq::empty(),
        ) by {
            tree::lemma_contains_append(seq![i], below, d);
            if seq![i].contains(d) {
                assert(seq![i][0] == d);
            }
            lemma_told_joined(rt, a, b, d, "Destroying"@, Seq::empty());
            lemma_told_joined(rt, a + b, c, d, "Destroying"@, Seq::empty());
        }
        if let Some(old) = rt.instances[i as int].parent {
            lemma_passage_joined(
                rt,
                old,
                tree::lineage(instance::ups_of(rt.instances), old),
                i,
                "ChildRemoved"@,
                "DescendantRemoving"@,
                a + b,
                c,
            );
        }
        lemma_ending_later(rt, alone, i, a + b, c);
        assert forall|k: int| 0 <= k < fires.len() implies (belongs(rt, alone, i, #[trigger] fires[k])
            || (gone.contains(fires[k].signal.instance) && is_firing(
            rt,
            fires[k],
            fires[k].signal.instance,
            "Destroying"@,
            Seq::empty(),
        ))) && fired_event(rt, fires[k]) != Some("ChildAdded"@) && fired_event(rt, fires[k]) != Some(
            "DescendantAdded"@,
        ) by {
            if k < a.len() {
                assert(fires[k] == a[k]);
                assert(is_firing(rt, a[k], i, "Destroying"@, Seq::empty()));
                assert(gone[0] == i);
            } else if k < a.len() + b.len() {
                let f = b[k - a.len()];
                assert(fires[k] == f);
                assert(below.contains(f.signal.instance));
                tree::lemma_contains_append(seq![i], below, f.signal.instance);
            } else {
                assert(fires[k] == c[k - a.len() - b.len()]);
            }
        }
    }
}

/// Whether a firing is that of the signal for changes of a property.
pub open spec fn is_own_firing(rt: RuntimeView, f: FiringView, at: usize, property: Text) -> bool {
    &&& f.signal.instance == at
    &&& f.signal.slot matches SignalSlot::Property(k) && k < rt.instances[at as int].property_signals.len()
        && rt.instances[at as int].property_signals[k as int].property == property
    &&& f.args.len() == 0
}

/// Whether an instance has a signal for changes of a property.
pub open spec fn has_own_signal(rt: RuntimeView, at: usize, property: Text) -> bool {
    exists|k: int|
        0 <= k < rt.instances[at as int].property_signals.len() && (
        #[trigger] rt.instances[at as int].property_signals[k]).property == property
}

/// Where setting a property changes it, `Changed` is told its name, and then the signal for changes of
/// this property is fired. Nothing else is fired, and nothing at all where nothing changes.
pub proof fn law_property_changes_are_told(rt: RuntimeView, i: usize, name: Text, value: ValueView)
    requires
        countable(rt),
        i < rt.instances.len(),
    ensures
        ({
            let (after, _, result) = runtime::set_property_outcome(rt, i, name, value);
            let fires = runtime::property_firings(rt, i, name, value);
            let changed = result is Ok && !laws::same_property(
                rt.instances[i as int],
                after.instances[i as int],
                name,
            );
            let first: nat = if has_event(rt, i, "Changed"@) {
                1
            } else {
                0
            };
            let second: nat = if has_own_signal(rt, i, name) {
                1
            } else {
                0
            };
            &&& !changed ==> fires.len() == 0
            &&& changed ==> {
                &&& fires.len() == first + second
                &&& first == 1 ==> is_firing(rt, fires[0], i, "Changed"@, seq![ArgView::String(name)])
                &&& second == 1 ==> is_own_firing(rt, fires[first as int], i, name)
            }
        }),
{
    let (after, _, result) = runtime::set_property_outcome(rt, i, name, value);
    laws::law_setting_fires_iff_changed(rt, i, name, value);
    let args = seq![ArgView::String(name)];
    assert(same_signals(rt, after));
    lemma_event(rt, after, i, "Changed"@, args);
    let signals = rt.instances[i as int].property_signals;
    assert(after.instances[i as int].property_signals == signals);
    assert(rt.instances[i as int].property_signals.len() <= usize::MAX);
    instance::lemma_property_signal_at(signals, name);
    instance::lemma_event_at(rt.instances[i as int].events, "Changed"@);
}

} // verus!
