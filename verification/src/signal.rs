//! Signals: lists of listeners that are called when something happens.
//!
//! A listener's callback lives outside the library and is known here by a number.

use vstd::prelude::*;
use vstd::string::*;

use crate::instance::{Instance, Property};
use crate::math::{Color3, Vector3};
use crate::text::{Text, concat3};

verus! {

/// A callback that is connected to a signal.
#[derive(Clone, Copy, Debug, PartialEq, Eq, Structural)]
pub struct Listener {
    pub id: u64,
    pub callback: u64,
    pub once: bool,
}

/// A signal.
#[derive(Clone, Debug)]
pub struct Signal {
    name: String,
    next_connection_id: u64,
    listeners: Vec<Listener>,
}

/// The content of a [`Signal`].
#[verifier::ext_equal]
pub struct SignalView {
    pub name: Text,
    pub next_connection_id: u64,
    pub listeners: Seq<Listener>,
}

impl View for Signal {
    type V = SignalView;

    closed spec fn view(&self) -> SignalView {
        SignalView {
            name: self.name@,
            next_connection_id: self.next_connection_id,
            listeners: self.listeners@,
        }
    }
}

/// Where in an instance a signal is found.
#[derive(Clone, Copy, Debug, PartialEq, Eq, Structural)]
pub enum SignalSlot {
    /// One of the instance's events, by its position.
    Event(usize),
    /// One of the signals for changes of a property, by its position.
    Property(usize),
}

/// A signal of an instance.
#[derive(Clone, Copy, Debug, PartialEq, Eq, Structural)]
pub struct SignalRef {
    pub instance: usize,
    pub slot: SignalSlot,
}

/// A listener that was connected to a signal.
#[derive(Clone, Copy, Debug, PartialEq, Eq, Structural)]
pub struct ConnectionHandle {
    pub signal: SignalRef,
    pub id: u64,
}

/// What a listener is told.
#[derive(Clone, Debug)]
pub enum SignalArg {
    Nil,
    String(String),
    Instance(usize),
    Vector3(Vector3),
    Color3(Color3),
}

/// The content of a [`SignalArg`].
#[verifier::ext_equal]
pub enum ArgView {
    Nil,
    String(Text),
    Instance(usize),
    Vector3(Vector3),
    Color3(Color3),
}

impl View for SignalArg {
    type V = ArgView;

    open spec fn view(&self) -> ArgView {
        match self {
            SignalArg::Nil => ArgView::Nil,
            SignalArg::String(s) => ArgView::String(s@),
            SignalArg::Instance(i) => ArgView::Instance(*i),
            SignalArg::Vector3(v) => ArgView::Vector3(*v),
            SignalArg::Color3(c) => ArgView::Color3(*c),
        }
    }
}

impl SignalView {
    /// Whether every listener has a number of its own, below the next one to be given out.
    pub open spec fn wf(&self) -> bool {
        &&& forall|i: int|
            0 <= i < self.listeners.len() ==> (#[trigger] self.listeners[i]).id
                < self.next_connection_id
        &&& distinct_ids(self.listeners)
    }
}

/// Whether no two listeners have the same number.
pub open spec fn distinct_ids(listeners: Seq<Listener>) -> bool {
    forall|i: int, j: int|
        0 <= i < j < listeners.len() ==> (#[trigger] listeners[i]).id != (
        #[trigger] listeners[j]).id
}

/// The position of the first listener with the given number, or the number of listeners where there
/// is none.
pub open spec fn listener_at(listeners: Seq<Listener>, id: u64) -> nat
    decreases listeners.len(),
{
    if listeners.len() == 0 {
        0
    } else {
        let k = listener_at(listeners.drop_last(), id);
        if k < listeners.len() - 1 || listeners.last().id == id {
            k
        } else {
            listeners.len()
        }
    }
}

/// The listeners without the one that has the given number.
pub open spec fn without_listener(listeners: Seq<Listener>, id: u64) -> Seq<Listener> {
    let k = listener_at(listeners, id);
    if k < listeners.len() {
        listeners.remove(k as int)
    } else {
        listeners
    }
}

/// The listeners that are left when those of the calls that were to be called once are taken away.
pub open spec fn settled(listeners: Seq<Listener>, calls: Seq<Listener>) -> Seq<Listener>
    decreases calls.len(),
{
    if calls.len() == 0 {
        listeners
    } else {
        let left = settled(listeners, calls.drop_last());
        if calls.last().once {
            without_listener(left, calls.last().id)
        } else {
            left
        }
    }
}

/// The callbacks of the listeners that are taken away when calls are settled.
pub open spec fn released(listeners: Seq<Listener>, calls: Seq<Listener>) -> Seq<u64>
    decreases calls.len(),
{
    if calls.len() == 0 {
        Seq::empty()
    } else {
        let before = released(listeners, calls.drop_last());
        let left = settled(listeners, calls.drop_last());
        let k = listener_at(left, calls.last().id);
        if calls.last().once && k < left.len() {
            before.push(left[k as int].callback)
        } else {
            before
        }
    }
}

/// Where a listener is found, its number stands there and nowhere before.
pub proof fn lemma_listener_at(listeners: Seq<Listener>, id: u64)
    ensures
        listener_at(listeners, id) <= listeners.len(),
        listener_at(listeners, id) < listeners.len() ==> listeners[listener_at(
            listeners,
            id,
        ) as int].id == id,
        forall|i: int|
            0 <= i < listener_at(listeners, id) ==> (#[trigger] listeners[i]).id != id,
    decreases listeners.len(),
{
    if listeners.len() > 0 {
        let init = listeners.drop_last();
        lemma_listener_at(init, id);
        assert forall|i: int| 0 <= i < listener_at(listeners, id) implies (
        #[trigger] listeners[i]).id != id by {
            if i < init.len() {
                assert(init[i] == listeners[i]);
            }
        }
    }
}

proof fn lemma_remove_keeps(listeners: Seq<Listener>, k: int, bound: u64)
    requires
        0 <= k < listeners.len(),
        distinct_ids(listeners),
        forall|i: int| 0 <= i < listeners.len() ==> (#[trigger] listeners[i]).id < bound,
    ensures
        distinct_ids(listeners.remove(k)),
        forall|i: int|
            0 <= i < listeners.remove(k).len() ==> (#[trigger] listeners.remove(k)[i]).id < bound,
{
    let r = listeners.remove(k);
    assert forall|i: int| 0 <= i < r.len() implies (#[trigger] r[i]).id < bound by {
        let a = if i < k {
            i
        } else {
            i + 1
        };
        assert(r[i] == listeners[a]);
    }
    assert forall|i: int, j: int| 0 <= i < j < r.len() implies (#[trigger] r[i]).id != (
    #[trigger] r[j]).id by {
        let a = if i < k {
            i
        } else {
            i + 1
        };
        let b = if j < k {
            j
        } else {
            j + 1
        };
        assert(r[i] == listeners[a] && r[j] == listeners[b]);
    }
}

impl Signal {
    /// A signal with the given name and no listeners. Connections are numbered from 1.
    pub fn named(name: &str) -> (r: Signal)
        ensures
            r@.wf(),
            r@ == new_signal(name@),
    {
        let r = Signal { name: name.to_owned(), next_connection_id: 1, listeners: Vec::new() };
        assert(r@ =~= new_signal(name@));
        r
    }

    /// The name of the signal.
    pub fn name(&self) -> (r: String)
        ensures
            r@ == self@.name,
    {
        self.name.as_str().to_owned()
    }

    /// The number that the next connection gets.
    pub fn next_id(&self) -> (r: u64)
        ensures
            r == self@.next_connection_id,
    {
        self.next_connection_id
    }

    /// Connects a callback. The result is the number of the connection.
    pub fn connect(&mut self, callback: u64, once: bool) -> (r: u64)
        requires
            old(self)@.wf(),
            old(self)@.next_connection_id < u64::MAX,
        ensures
            final(self)@.wf(),
            r == old(self)@.next_connection_id,
            final(self)@ == connected(old(self)@, callback, once),
    {
        let ghost before = self@;
        let id = self.next_connection_id;
        self.next_connection_id = id + 1;
        self.listeners.push(Listener { id, callback, once });
        assert(self@ =~= connected(before, callback, once));
        proof {
            lemma_connected_wf(before, callback, once);
        }
        id
    }

    fn position(&self, id: u64) -> (r: usize)
        ensures
            r == listener_at(self@.listeners, id),
    {
        let ghost all = self.listeners@;
        let mut i: usize = 0;
        while i < self.listeners.len()
            invariant
                i <= self.listeners@.len(),
                all == self.listeners@,
                forall|k: int| 0 <= k < i ==> (#[trigger] all[k]).id != id,
            decreases self.listeners@.len() - i,
        {
            if self.listeners[i].id == id {
                proof {
                    lemma_listener_at(all, id);
                    lemma_listener_found(all, id, i as int);
                }
                return i;
            }
            i += 1;
        }
        proof {
            lemma_listener_at(all, id);
        }
        i
    }

    /// Takes away the connection with the given number. The result is its callback, where there was
    /// such a connection.
    pub fn disconnect(&mut self, id: u64) -> (r: Option<u64>)
        requires
            old(self)@.wf(),
        ensures
            final(self)@.wf(),
            final(self)@ == (SignalView {
                listeners: without_listener(old(self)@.listeners, id),
                ..old(self)@
            }),
            ({
                let k = listener_at(old(self)@.listeners, id);
                r == (if k < old(self)@.listeners.len() {
                    Some(old(self)@.listeners[k as int].callback)
                } else {
                    None::<u64>
                })
            }),
    {
        let ghost before = self@;
        let k = self.position(id);
        if k < self.listeners.len() {
            proof {
                lemma_remove_keeps(before.listeners, k as int, before.next_connection_id);
            }
            let listener = self.listeners.remove(k);
            assert(self@ =~= (SignalView {
                listeners: without_listener(before.listeners, id),
                ..before
            }));
            Some(listener.callback)
        } else {
            assert(self@ =~= (SignalView {
                listeners: without_listener(before.listeners, id),
                ..before
            }));
            None
        }
    }

    /// Whether the connection with the given number is still there.
    pub fn is_connected(&self, id: u64) -> (r: bool)
        ensures
            r == exists|i: int|
                0 <= i < self@.listeners.len() && (#[trigger] self@.listeners[i]).id == id,
    {
        let k = self.position(id);
        proof {
            lemma_listener_at(self@.listeners, id);
            if k < self@.listeners.len() {
                assert(self@.listeners[k as int].id == id);
            }
        }
        k < self.listeners.len()
    }

    /// The calls that firing the signal makes: the listeners as they are now, in the order in which
    /// they were connected. What the callbacks connect or disconnect changes nothing about it.
    pub fn fire(&self) -> (r: Vec<Listener>)
        ensures
            r@ == self@.listeners,
    {
        let mut calls: Vec<Listener> = Vec::new();
        let mut i: usize = 0;
        while i < self.listeners.len()
            invariant
                i <= self.listeners@.len(),
                calls@ == self.listeners@.take(i as int),
            decreases self.listeners@.len() - i,
        {
            calls.push(self.listeners[i]);
            assert(calls@ =~= self.listeners@.take(i + 1));
            i += 1;
        }
        assert(calls@ =~= self.listeners@);
        calls
    }

    /// Takes away those of the given calls that were to be made once, after they were all made. The
    /// result lists the callbacks of the connections that this ended.
    pub fn settle(&mut self, calls: &Vec<Listener>) -> (r: Vec<u64>)
        requires
            old(self)@.wf(),
        ensures
            final(self)@.wf(),
            final(self)@ == (SignalView {
                listeners: settled(old(self)@.listeners, calls@),
                ..old(self)@
            }),
            r@ == released(old(self)@.listeners, calls@),
    {
        let ghost before = self@;
        let mut out: Vec<u64> = Vec::new();
        let mut i: usize = 0;
        assert(calls@.take(0) =~= Seq::empty());
        while i < calls.len()
            invariant
                i <= calls@.len(),
                self@.wf(),
                self@ == (SignalView {
                    listeners: settled(before.listeners, calls@.take(i as int)),
                    ..before
                }),
                out@ == released(before.listeners, calls@.take(i as int)),
            decreases calls@.len() - i,
        {
            let call = calls[i];
            assert(calls@.take(i + 1).drop_last() =~= calls@.take(i as int));
            assert(calls@.take(i + 1).last() == call);
            if call.once {
                if let Some(callback) = self.disconnect(call.id) {
                    out.push(callback);
                }
            }
            i += 1;
        }
        assert(calls@.take(i as int) =~= calls@);
        out
    }

    /// What is reported when a callback fails.
    pub fn failure_report(&self, error: &str) -> (r: String)
        ensures
            r@ == "[roblox-env warning] signal '"@ + self@.name + "' callback failed: "@ + error@,
    {
        let mut out = concat3(
            "[roblox-env warning] signal '",
            self.name.as_str(),
            "' callback failed: ",
        );
        out.append(error);
        out
    }
}

/// A signal without listeners.
pub open spec fn new_signal(name: Text) -> SignalView {
    SignalView { name, next_connection_id: 1, listeners: Seq::empty() }
}

/// A signal with one more listener.
pub open spec fn connected(signal: SignalView, callback: u64, once: bool) -> SignalView {
    SignalView {
        name: signal.name,
        next_connection_id: (signal.next_connection_id + 1) as u64,
        listeners: signal.listeners.push(
            Listener { id: signal.next_connection_id, callback, once },
        ),
    }
}

/// A signal with one more listener is well-formed.
pub proof fn lemma_connected_wf(signal: SignalView, callback: u64, once: bool)
    requires
        signal.wf(),
        signal.next_connection_id < u64::MAX,
    ensures
        connected(signal, callback, once).wf(),
{
    let after = connected(signal, callback, once);
    assert forall|i: int, j: int| 0 <= i < j < after.listeners.len() implies (
    #[trigger] after.listeners[i]).id != (#[trigger] after.listeners[j]).id by {
        assert(after.listeners[i] == signal.listeners[i]);
        if j < signal.listeners.len() {
            assert(after.listeners[j] == signal.listeners[j]);
        }
    }
    assert forall|i: int| 0 <= i < after.listeners.len() implies (
    #[trigger] after.listeners[i]).id < after.next_connection_id by {
        if i < signal.listeners.len() {
            assert(after.listeners[i] == signal.listeners[i]);
        }
    }
}

proof fn lemma_listener_found(listeners: Seq<Listener>, id: u64, k: int)
    requires
        0 <= k < listeners.len(),
        listeners[k].id == id,
        forall|i: int| 0 <= i < k ==> (#[trigger] listeners[i]).id != id,
    ensures
        listener_at(listeners, id) == k,
{
    lemma_listener_at(listeners, id);
    let p = listener_at(listeners, id);
    if p < k {
        assert(listeners[p as int].id != id);
    } else if p > k {
        assert(listeners[k].id != id);
    }
}

/// The test for listeners that are not connected for one call only.
pub open spec fn lasting() -> spec_fn(Listener) -> bool {
    |l: Listener| !l.once
}

/// The test for listeners with another number.
pub open spec fn other_than(id: u64) -> spec_fn(Listener) -> bool {
    |l: Listener| l.id != id
}

// ---------------------------------------------------------------------------------------------
// Laws
// ---------------------------------------------------------------------------------------------

/// A number that was given to a connection is never given to another one: a new connection gets a
/// number above all before it, and taking connections away changes nothing about that.
pub proof fn law_connection_numbers_are_new(
    signal: SignalView,
    callback: u64,
    once: bool,
    gone: u64,
)
    requires
        signal.wf(),
        signal.next_connection_id < u64::MAX,
    ensures
        connected(signal, callback, once).next_connection_id > signal.next_connection_id,
        connected(signal, callback, once).listeners.last().id == signal.next_connection_id,
        forall|i: int|
            0 <= i < signal.listeners.len() ==> (#[trigger] signal.listeners[i]).id < connected(
                signal,
                callback,
                once,
            ).listeners.last().id,
        (SignalView {
            listeners: without_listener(signal.listeners, gone),
            ..signal
        }).next_connection_id == signal.next_connection_id,
{
}

/// Taking away a connection ends it and no other.
pub proof fn law_disconnect_ends_one(signal: SignalView, id: u64)
    requires
        signal.wf(),
    ensures
        without_listener(signal.listeners, id) == signal.listeners.filter(
            other_than(id),
        ),
{
    lemma_without_filter(signal.listeners, id);
}

proof fn lemma_without_filter(listeners: Seq<Listener>, id: u64)
    requires
        distinct_ids(listeners),
    ensures
        without_listener(listeners, id) == listeners.filter(other_than(id)),
    decreases listeners.len(),
{
    let keep = other_than(id);
    reveal(Seq::filter);
    if listeners.len() > 0 {
        let init = listeners.drop_last();
        assert(distinct_ids(init)) by {
            assert(forall|i: int| 0 <= i < init.len() ==> init[i] == listeners[i]);
        }
        lemma_without_filter(init, id);
        lemma_listener_at(listeners, id);
        lemma_listener_at(init, id);
        let k = listener_at(init, id);
        if k < init.len() {
            assert(init[k as int] == listeners[k as int]);
            assert(listeners[k as int].id != listeners[listeners.len() - 1].id);
            assert(listeners.remove(k as int) =~= init.remove(k as int).push(listeners.last()));
        } else if listeners.last().id == id {
            assert(listeners.remove(listeners.len() - 1) =~= init);
        } else {
            assert(init.push(listeners.last()) =~= listeners);
        }
    }
}

/// When every listener has been called, those that were connected for one call are gone, and the
/// others are left in their order.
pub proof fn law_once_is_called_once(signal: SignalView)
    requires
        signal.wf(),
    ensures
        settled(signal.listeners, signal.listeners) == signal.listeners.filter(
            lasting(),
        ),
{
    let all = signal.listeners;
    lemma_settled_prefix(all, all.len() as int);
    assert(all.take(all.len() as int) =~= all);
    assert(all.skip(all.len() as int) =~= Seq::empty());
    let keep = lasting();
    assert(all.filter(keep) + Seq::<Listener>::empty() =~= all.filter(keep));
}

proof fn lemma_settled_prefix(all: Seq<Listener>, k: int)
    requires
        distinct_ids(all),
        0 <= k <= all.len(),
    ensures
        settled(all, all.take(k)) == all.take(k).filter(lasting()) + all.skip(k),
    decreases k,
{
    let keep = lasting();
    reveal(Seq::filter);
    if k == 0 {
        assert(all.take(0).filter(keep) + all.skip(0) =~= all);
    } else {
        lemma_settled_prefix(all, k - 1);
        let call = all[k - 1];
        assert(all.take(k).drop_last() =~= all.take(k - 1));
        assert(all.take(k).last() == call);
        let before = all.take(k - 1).filter(keep);
        let left = before + all.skip(k - 1);
        if call.once {
            assert forall|i: int| 0 <= i < k - 1 implies (#[trigger] all.take(k - 1)[i]).id
                != call.id by {
                assert(all[i].id != all[k - 1].id);
            }
            lemma_filter_avoids(all.take(k - 1), call.id);
            assert(left[before.len() as int] == call);
            assert forall|i: int| 0 <= i < before.len() implies (#[trigger] left[i]).id
                != call.id by {
                assert(left[i] == before[i]);
            }
            lemma_listener_found(left, call.id, before.len() as int);
            assert(left.remove(before.len() as int) =~= before + all.skip(k));
        } else {
            assert(left =~= before.push(call) + all.skip(k));
        }
    }
}

proof fn lemma_filter_avoids(listeners: Seq<Listener>, id: u64)
    requires
        forall|i: int| 0 <= i < listeners.len() ==> (#[trigger] listeners[i]).id != id,
    ensures
        forall|i: int|
            0 <= i < listeners.filter(lasting()).len() ==> (#[trigger] listeners.filter(
                lasting(),
            )[i]).id != id,
    decreases listeners.len(),
{
    reveal(Seq::filter);
    if listeners.len() > 0 {
        let init = listeners.drop_last();
        assert forall|i: int| 0 <= i < init.len() implies (#[trigger] init[i]).id != id by {
            assert(init[i] == listeners[i]);
        }
        lemma_filter_avoids(init, id);
        assert(listeners[listeners.len() - 1].id != id);
        let part = init.filter(lasting());
        let whole = listeners.filter(lasting());
        assert(whole == part || whole == part.push(listeners.last()));
        assert forall|i: int| 0 <= i < whole.len() implies (#[trigger] whole[i]).id != id by {
            if i < part.len() {
                assert(whole[i] == part[i]);
            }
        }
    }
}

/// A callback that is connected is called from then on, behind those that were connected before, and
/// for one call only where that was asked for. A new signal calls nothing.
pub proof fn law_connected_is_called(name: Text, signal: SignalView, callback: u64, once: bool)
    ensures
        new_signal(name).name == name,
        new_signal(name).listeners.len() == 0,
        ({
            let after = connected(signal, callback, once);
            &&& after.name == signal.name
            &&& after.listeners.len() == signal.listeners.len() + 1
            &&& after.listeners.last().callback == callback
            &&& after.listeners.last().once == once
            &&& forall|i: int|
                0 <= i < signal.listeners.len() ==> #[trigger] after.listeners[i] == signal.listeners[i]
        }),
{
}

/// The test for listeners that are connected for one call only.
pub open spec fn fleeting() -> spec_fn(Listener) -> bool {
    |l: Listener| l.once
}

/// When every listener has been called, the callbacks that were connected for one call are released, in
/// the order in which they were connected, and no others.
pub proof fn law_once_is_released(signal: SignalView)
    requires
        signal.wf(),
    ensures
        released(signal.listeners, signal.listeners) == signal.listeners.filter(
            fleeting(),
        ).map_values(|l: Listener| l.callback),
{
    let all = signal.listeners;
    lemma_released_prefix(all, all.len() as int);
    assert(all.take(all.len() as int) =~= all);
}

proof fn lemma_released_prefix(all: Seq<Listener>, k: int)
    requires
        distinct_ids(all),
        0 <= k <= all.len(),
    ensures
        released(all, all.take(k)) == all.take(k).filter(fleeting()).map_values(
            |l: Listener| l.callback,
        ),
    decreases k,
{
    let keep = lasting();
    let gone = fleeting();
    let back = |l: Listener| l.callback;
    reveal(Seq::filter);
    if k == 0 {
        assert(all.take(0).filter(gone).map_values(back) =~= Seq::empty());
    } else {
        lemma_released_prefix(all, k - 1);
        lemma_settled_prefix(all, k - 1);
        let call = all[k - 1];
        assert(all.take(k).drop_last() =~= all.take(k - 1));
        assert(all.take(k).last() == call);
        let before = all.take(k - 1).filter(keep);
        let left = before + all.skip(k - 1);
        let done = all.take(k - 1).filter(gone);
        if call.once {
            assert forall|i: int| 0 <= i < k - 1 implies (#[trigger] all.take(k - 1)[i]).id
                != call.id by {
                assert(all[i].id != all[k - 1].id);
            }
            lemma_filter_avoids(all.take(k - 1), call.id);
            assert(left[before.len() as int] == call);
            assert forall|i: int| 0 <= i < before.len() implies (#[trigger] left[i]).id
                != call.id by {
                assert(left[i] == before[i]);
            }
            lemma_listener_found(left, call.id, before.len() as int);
            assert(all.take(k).filter(gone) =~= done.push(call));
            assert(done.push(call).map_values(back) =~= done.map_values(back).push(call.callback));
        } else {
            assert(all.take(k).filter(gone) =~= done);
        }
    }
}

} // verus!
