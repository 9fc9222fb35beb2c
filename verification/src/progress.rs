//! Progress of a run, told while it goes on.
//!
//! A run tells a listener what happens, event by event. Contracts say which
//! events it tells, in which order, and that it tells no others: a listener's
//! state after a run is what exactly those events make of its state before.

use vstd::prelude::*;

verus! {

/// What hears of the events of a run.
pub trait Listener<E> {
    /// Hearing `e` turns the listener into `after`.
    spec fn told(&self, e: E, after: &Self) -> bool;

    /// Hears of an event.
    fn hear(&mut self, e: E)
        ensures
            old(self).told(e, final(self)),
    ;
}

/// A list keeps every event.
impl<E> Listener<E> for Vec<E> {
    open spec fn told(&self, e: E, after: &Self) -> bool {
        after@ == self@.push(e)
    }

    fn hear(&mut self, e: E) {
        self.push(e);
    }
}

/// `s` holds what a listener is before and after every event.
pub open spec fn listens<E, L: Listener<E>>(s: Seq<L>, from: L, events: Seq<E>, to: L) -> bool {
    &&& s.len() == events.len() + 1
    &&& s[0] == from
    &&& s[events.len() as int] == to
    &&& forall|k: int|
        #![trigger events[k]]
        0 <= k < events.len() ==> s[k].told(events[k], &s[k + 1])
}

/// A listener heard these events and no others.
pub open spec fn heard<E, L: Listener<E>>(from: L, events: Seq<E>, to: L) -> bool {
    exists|s: Seq<L>| #[trigger] listens(s, from, events, to)
}

pub proof fn lemma_heard_nothing<E, L: Listener<E>>(l: L)
    ensures
        heard::<E, L>(l, Seq::empty(), l),
{
    assert(listens::<E, L>(seq![l], l, Seq::empty(), l));
}

/// One more event.
pub proof fn lemma_heard_more<E, L: Listener<E>>(from: L, events: Seq<E>, to: L, e: E, after: L)
    requires
        heard(from, events, to),
        to.told(e, &after),
    ensures
        heard(from, events.push(e), after),
{
    let s = choose|s: Seq<L>| #[trigger] listens(s, from, events, to);
    let t = s.push(after);
    let more = events.push(e);
    assert forall|k: int| #![trigger more[k]] 0 <= k < more.len() implies t[k].told(
        more[k],
        &t[k + 1],
    ) by {
        if k < events.len() {
            assert(more[k] == events[k]);
        }
    }
    assert(listens(t, from, more, after));
}

/// Two runs told one listener.
pub proof fn lemma_heard_on<E, L: Listener<E>>(a: L, one: Seq<E>, b: L, two: Seq<E>, c: L)
    requires
        heard(a, one, b),
        heard(b, two, c),
    ensures
        heard(a, one + two, c),
{
    let s = choose|s: Seq<L>| #[trigger] listens(s, a, one, b);
    let t = choose|t: Seq<L>| #[trigger] listens(t, b, two, c);
    let n = one.len() as int;
    let r = s + t.skip(1);
    let all = one + two;
    assert forall|k: int| #![trigger all[k]] 0 <= k < all.len() implies r[k].told(
        all[k],
        &r[k + 1],
    ) by {
        if k < n {
            assert(all[k] == one[k]);
        } else {
            assert(all[k] == two[k - n]);
            assert(r[k + 1] == t[k - n + 1]);
            if k > n {
                assert(r[k] == t[k - n]);
            }
        }
    }
    assert(listens(r, a, all, c));
}

/// A list that heard of events has them at its end, in order, and nothing else
/// that is new.
pub proof fn list_keeps_what_it_heard<E>(from: Vec<E>, events: Seq<E>, to: Vec<E>)
    requires
        heard(from, events, to),
    ensures
        to@ == from@ + events,
{
    let s = choose|s: Seq<Vec<E>>| #[trigger] listens(s, from, events, to);
    lemma_list_at(s, from, events, to, events.len() as int);
    assert(events.take(events.len() as int) =~= events);
}

proof fn lemma_list_at<E>(s: Seq<Vec<E>>, from: Vec<E>, events: Seq<E>, to: Vec<E>, k: int)
    requires
        listens(s, from, events, to),
        0 <= k <= events.len(),
    ensures
        s[k]@ == from@ + events.take(k),
    decreases k,
{
    if k > 0 {
        lemma_list_at(s, from, events, to, k - 1);
        assert(s[k - 1].told(events[k - 1], &s[k]));
        assert(events.take(k) =~= events.take(k - 1).push(events[k - 1]));
        assert(s[k]@ =~= from@ + events.take(k));
    } else {
        assert(events.take(0) =~= Seq::empty());
        assert(from@ + events.take(0) =~= from@);
    }
}

} // verus!
