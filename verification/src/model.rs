//! Mathematical model of the broadcast actor.
//!
//! A run of the actor is a sequence of commands drained from the command
//! queue, in submission order. The model is parametric in the sink type `S`
//! and in an abandonment map `ab`: `ab[s] == j` means that deliveries to
//! sink `s` fail from command index `j` on (its receive end was abandoned);
//! a sink absent from `ab` accepts every delivery. The lemmas at the bottom
//! state the delivery laws of the primitive.

use vstd::prelude::*;

verus! {

/// A command consumed by the broadcast actor. `S` is the sink type: the
/// sending half of a subscriber's value channel.
pub enum Command<S> {
    /// Broadcast this value to every live subscriber.
    Send(usize),
    /// Append this sink to the subscriber registry.
    Subscribe(S),
    /// Terminate the actor; the registry is discarded.
    Disconnect,
}

/// The actor's state: the registry of live sinks, in subscription order,
/// and whether the actor is still running.
pub struct ModelState<S> {
    pub subs: Seq<S>,
    pub running: bool,
}

/// The elements of `s` whose mask bit is set, in order.
pub open spec fn filter_by<S>(s: Seq<S>, keep: Seq<bool>) -> Seq<S>
    recommends
        keep.len() == s.len(),
    decreases s.len(),
{
    if s.len() == 0 {
        Seq::empty()
    } else {
        let rest = filter_by(s.drop_first(), keep.drop_first());
        if 0 < keep.len() && keep[0] {
            seq![s[0]] + rest
        } else {
            rest
        }
    }
}

/// Delivery to sink `s` succeeds at command index `j`: `s` was not yet
/// abandoned.
pub open spec fn delivered<S>(ab: Map<S, int>, s: S, j: int) -> bool {
    !(ab.dom().contains(s) && ab[s] <= j)
}

/// The delivery outcomes that a broadcast at command index `j` observes,
/// one bit per registry slot.
pub open spec fn delivered_mask<S>(subs: Seq<S>, ab: Map<S, int>, j: int) -> Seq<bool> {
    Seq::new(subs.len(), |i: int| delivered(ab, subs[i], j))
}

/// The actor's initial state: empty registry, running.
pub open spec fn init<S>() -> ModelState<S> {
    ModelState { subs: Seq::empty(), running: true }
}

/// One actor step: the command at index `j` applied to state `st`.
/// A terminated actor processes nothing further.
pub open spec fn step_model<S>(st: ModelState<S>, c: Command<S>, ab: Map<S, int>, j: int) -> ModelState<S> {
    if !st.running {
        st
    } else {
        match c {
            Command::Send(_v) => (ModelState {
                subs: filter_by(st.subs, delivered_mask(st.subs, ab, j)),
                running: st.running,
            }),
            Command::Subscribe(s) => (ModelState { subs: st.subs.push(s), running: st.running }),
            Command::Disconnect => (ModelState { subs: Seq::empty(), running: false }),
        }
    }
}

/// The actor's state after the first `i` commands of history `h`.
pub open spec fn state_at<S>(h: Seq<Command<S>>, ab: Map<S, int>, i: int) -> ModelState<S>
    decreases i,
{
    if i <= 0 {
        init()
    } else {
        step_model(state_at(h, ab, i - 1), h[i - 1], ab, i - 1)
    }
}

/// No `Disconnect` stands among the first `j` commands, so the actor is
/// still draining the queue when it reaches index `j`.
pub open spec fn running_at<S>(h: Seq<Command<S>>, j: int) -> bool {
    forall|k: int| 0 <= k < j ==> !(h[k] is Disconnect)
}

/// Sink `s` receives a value at command index `j`: the command is a send,
/// the actor still runs, `s` stands in the registry, and the delivery
/// succeeds.
pub open spec fn receives_at<S>(h: Seq<Command<S>>, ab: Map<S, int>, s: S, j: int) -> bool {
    &&& 0 <= j < h.len()
    &&& h[j] is Send
    &&& state_at(h, ab, j).running
    &&& state_at(h, ab, j).subs.contains(s)
    &&& delivered(ab, s, j)
}

/// The values sink `s` has received during the first `i` commands, in
/// delivery order.
pub open spec fn received<S>(h: Seq<Command<S>>, ab: Map<S, int>, s: S, i: int) -> Seq<usize>
    decreases i,
{
    if i <= 0 {
        Seq::empty()
    } else {
        received(h, ab, s, i - 1) + if receives_at(h, ab, s, i - 1) {
            seq![h[i - 1]->Send_0]
        } else {
            Seq::empty()
        }
    }
}

/// The values of the send commands with index in `[lo, hi)` that the actor
/// processes before terminating, in submission order.
pub open spec fn sends_while_running<S>(h: Seq<Command<S>>, lo: int, hi: int) -> Seq<usize>
    decreases hi - lo,
{
    if hi <= lo {
        Seq::empty()
    } else {
        sends_while_running(h, lo, hi - 1) + if 0 <= hi - 1 < h.len() && h[hi - 1] is Send
            && running_at(h, hi - 1) {
            seq![h[hi - 1]->Send_0]
        } else {
            Seq::empty()
        }
    }
}

/// Filtering and mapping commute: selecting by a mask and then mapping
/// each element gives the same sequence as mapping first and then
/// selecting by the same mask.
pub proof fn lemma_filter_by_map<A, B>(s: Seq<A>, keep: Seq<bool>, f: spec_fn(A) -> B)
    requires
        keep.len() == s.len(),
    ensures
        filter_by(s, keep).map_values(f) == filter_by(s.map_values(f), keep),
    decreases s.len(),
{
    if s.len() == 0 {
        assert(filter_by(s, keep).map_values(f) =~= Seq::<B>::empty());
        assert(s.map_values(f).len() == 0);
        assert(filter_by(s.map_values(f), keep) =~= Seq::<B>::empty());
    } else {
        lemma_filter_by_map(s.drop_first(), keep.drop_first(), f);
        assert(s.map_values(f).drop_first() =~= s.drop_first().map_values(f));
        assert(s.map_values(f)[0] == f(s[0]));
        let rest = filter_by(s.drop_first(), keep.drop_first());
        if keep[0] {
            assert(filter_by(s, keep) == seq![s[0]] + rest);
            assert((seq![s[0]] + rest).map_values(f) =~= seq![f(s[0])] + rest.map_values(f));
            assert(filter_by(s.map_values(f), keep) == seq![f(s[0])] + filter_by(
                s.drop_first().map_values(f),
                keep.drop_first(),
            ));
        } else {
            assert(filter_by(s, keep) == rest);
            assert(filter_by(s.map_values(f), keep) == filter_by(
                s.drop_first().map_values(f),
                keep.drop_first(),
            ));
        }
    }
}

/// An element stands in the filtered sequence exactly when it stands at
/// some slot of `s` whose mask bit is set.
pub proof fn lemma_filter_by_mem<S>(s: Seq<S>, keep: Seq<bool>, x: S)
    requires
        keep.len() == s.len(),
    ensures
        filter_by(s, keep).contains(x) <==> exists|i: int|
            0 <= i < s.len() && s[i] == x && keep[i],
    decreases s.len(),
{
    if s.len() == 0 {
    } else {
        lemma_filter_by_mem(s.drop_first(), keep.drop_first(), x);
        let rest = filter_by(s.drop_first(), keep.drop_first());
        let f = filter_by(s, keep);
        if keep[0] {
            assert(f == seq![s[0]] + rest);
            if f.contains(x) {
                let j = choose|j: int| 0 <= j < f.len() && f[j] == x;
                if j == 0 {
                    assert(s[0] == x && keep[0]);
                } else {
                    assert(rest[j - 1] == x);
                    assert(rest.contains(x));
                    let i = choose|i: int|
                        0 <= i < s.drop_first().len() && s.drop_first()[i] == x
                            && keep.drop_first()[i];
                    assert(s[i + 1] == x && keep[i + 1]);
                }
            }
            if exists|i: int| 0 <= i < s.len() && s[i] == x && keep[i] {
                let i = choose|i: int| 0 <= i < s.len() && s[i] == x && keep[i];
                if i == 0 {
                    assert(f[0] == x);
                    assert(f.contains(x));
                } else {
                    assert(s.drop_first()[i - 1] == x && keep.drop_first()[i - 1]);
                    assert(rest.contains(x));
                    let j = choose|j: int| 0 <= j < rest.len() && rest[j] == x;
                    assert(f[j + 1] == x);
                    assert(f.contains(x));
                }
            }
        } else {
            assert(f == rest);
            if f.contains(x) {
                let i = choose|i: int|
                    0 <= i < s.drop_first().len() && s.drop_first()[i] == x
                        && keep.drop_first()[i];
                assert(s[i + 1] == x && keep[i + 1]);
            }
            if exists|i: int| 0 <= i < s.len() && s[i] == x && keep[i] {
                let i = choose|i: int| 0 <= i < s.len() && s[i] == x && keep[i];
                assert(i != 0);
                assert(s.drop_first()[i - 1] == x && keep.drop_first()[i - 1]);
                assert(rest.contains(x));
            }
        }
    }
}

/// The actor runs at index `i` exactly when no `Disconnect` stands before
/// `i`, and a terminated actor's registry is empty.
pub proof fn lemma_state_running<S>(h: Seq<Command<S>>, ab: Map<S, int>, i: int)
    requires
        0 <= i <= h.len(),
    ensures
        state_at(h, ab, i).running == running_at(h, i),
        !state_at(h, ab, i).running ==> state_at(h, ab, i).subs =~= Seq::<S>::empty(),
    decreases i,
{
    if i == 0 {
    } else {
        lemma_state_running(h, ab, i - 1);
        let st = state_at(h, ab, i - 1);
        if st.running {
            if h[i - 1] is Disconnect {
                assert(!running_at(h, i));
            } else {
                assert forall|k: int| 0 <= k < i implies !(h[k] is Disconnect) by {
                    if k < i - 1 {
                        assert(!(h[k] is Disconnect));
                    }
                }
            }
        } else {
            let k0 = choose|k: int| 0 <= k < i - 1 && h[k] is Disconnect;
            assert(0 <= k0 < i && h[k0] is Disconnect);
            assert(!running_at(h, i));
        }
    }
}

/// Every sink in the registry was the subject of an earlier subscription:
/// the registry only ever holds what `Subscribe` commands brought.
pub proof fn lemma_member_was_subscribed<S>(h: Seq<Command<S>>, ab: Map<S, int>, x: S, j: int)
    requires
        0 <= j <= h.len(),
        state_at(h, ab, j).subs.contains(x),
    ensures
        exists|m: int| 0 <= m < j && h[m] == Command::Subscribe(x),
    decreases j,
{
    assert(j > 0);
    let st = state_at(h, ab, j - 1);
    if !st.running {
        lemma_member_was_subscribed(h, ab, x, j - 1);
    } else {
        match h[j - 1] {
            Command::Send(_v) => {
                let mask = delivered_mask(st.subs, ab, j - 1);
                lemma_filter_by_mem(st.subs, mask, x);
                let i = choose|i: int| 0 <= i < st.subs.len() && st.subs[i] == x && mask[i];
                assert(st.subs.contains(x));
                lemma_member_was_subscribed(h, ab, x, j - 1);
            },
            Command::Subscribe(s) => {
                if s == x {
                    assert(0 <= j - 1 < j && h[j - 1] == Command::Subscribe(x));
                } else {
                    let i = choose|i: int|
                        0 <= i < st.subs.push(s).len() && st.subs.push(s)[i] == x;
                    assert(st.subs[i] == x);
                    assert(st.subs.contains(x));
                    lemma_member_was_subscribed(h, ab, x, j - 1);
                }
            },
            Command::Disconnect => {
                assert(false);
            },
        }
    }
}

/// A sink that subscribed while the actor ran, and whose receive end is
/// never abandoned, stays in the registry for as long as the actor runs.
pub proof fn lemma_subscriber_stays<S>(h: Seq<Command<S>>, ab: Map<S, int>, s: S, k: int, j: int)
    requires
        0 <= k < j <= h.len(),
        h[k] == Command::Subscribe(s),
        !ab.dom().contains(s),
        running_at(h, j),
    ensures
        state_at(h, ab, j).subs.contains(s),
    decreases j,
{
    if j == k + 1 {
        lemma_state_running(h, ab, k);
        assert(state_at(h, ab, k).running);
        let subs = state_at(h, ab, j).subs;
        assert(subs == state_at(h, ab, k).subs.push(s));
        assert(subs[subs.len() - 1] == s);
        assert(subs.contains(s));
    } else {
        lemma_subscriber_stays(h, ab, s, k, j - 1);
        let st = state_at(h, ab, j - 1);
        lemma_state_running(h, ab, j - 1);
        assert(st.running);
        assert(!(h[j - 1] is Disconnect));
        match h[j - 1] {
            Command::Send(_v) => {
                let mask = delivered_mask(st.subs, ab, j - 1);
                let i = choose|i: int| 0 <= i < st.subs.len() && st.subs[i] == s;
                assert(mask[i] == delivered(ab, st.subs[i], j - 1));
                assert(delivered(ab, s, j - 1));
                lemma_filter_by_mem(st.subs, mask, s);
                assert(state_at(h, ab, j).subs.contains(s));
            },
            Command::Subscribe(x) => {
                let i = choose|i: int| 0 <= i < st.subs.len() && st.subs[i] == s;
                assert(st.subs.push(x)[i] == s);
                assert(state_at(h, ab, j).subs.contains(s));
            },
            Command::Disconnect => {
                assert(false);
            },
        }
    }
}

/// No replay: a sink receives nothing before its first subscription. In
/// particular, values sent before a subscriber joined never reach it.
pub proof fn lemma_no_replay<S>(h: Seq<Command<S>>, ab: Map<S, int>, s: S, i: int)
    requires
        0 <= i <= h.len(),
        forall|m: int| 0 <= m < i ==> h[m] != Command::Subscribe(s),
    ensures
        received(h, ab, s, i) =~= Seq::<usize>::empty(),
    decreases i,
{
    if i <= 0 {
    } else {
        lemma_no_replay(h, ab, s, i - 1);
        if receives_at(h, ab, s, i - 1) {
            lemma_member_was_subscribed(h, ab, s, i - 1);
            assert(false);
        }
    }
}

/// Faithful delivery: a subscriber that joins at index `k` and never
/// abandons its receive end receives exactly the values of the send
/// commands submitted after its subscription and processed before the
/// actor terminated, in submission order.
pub proof fn lemma_faithful_delivery<S>(h: Seq<Command<S>>, ab: Map<S, int>, s: S, k: int, i: int)
    requires
        0 <= k < i <= h.len(),
        h[k] == Command::Subscribe(s),
        forall|m: int| 0 <= m < k ==> h[m] != Command::Subscribe(s),
        !ab.dom().contains(s),
    ensures
        received(h, ab, s, i) =~= sends_while_running(h, k + 1, i),
    decreases i,
{
    if i == k + 1 {
        lemma_no_replay(h, ab, s, k);
        assert(!(h[k] is Send));
        assert(!receives_at(h, ab, s, k));
        assert(received(h, ab, s, k + 1) =~= Seq::<usize>::empty());
    } else {
        lemma_faithful_delivery(h, ab, s, k, i - 1);
        let j = i - 1;
        lemma_state_running(h, ab, j);
        if h[j] is Send && running_at(h, j) {
            lemma_subscriber_stays(h, ab, s, k, j);
            assert(receives_at(h, ab, s, j));
            assert(received(h, ab, s, i) == received(h, ab, s, j) + seq![h[j]->Send_0]);
            assert(sends_while_running(h, k + 1, i) == sends_while_running(h, k + 1, j)
                + seq![h[j]->Send_0]);
        } else {
            assert(!receives_at(h, ab, s, j));
            assert(received(h, ab, s, i) == received(h, ab, s, j));
            assert(sends_while_running(h, k + 1, i) == sends_while_running(h, k + 1, j));
        }
    }
}

/// Broadcast reaches every live subscriber: a send processed while the
/// actor runs is delivered, at that very step, to each sink that
/// subscribed earlier and still holds its receive end — whatever other
/// subscribers joined or left in between.
pub proof fn lemma_send_reaches_all<S>(h: Seq<Command<S>>, ab: Map<S, int>, s: S, k: int, j: int)
    requires
        0 <= k < j < h.len(),
        h[k] == Command::Subscribe(s),
        !ab.dom().contains(s),
        h[j] is Send,
        running_at(h, j),
    ensures
        receives_at(h, ab, s, j),
        received(h, ab, s, j + 1) =~= received(h, ab, s, j).push(h[j]->Send_0),
{
    lemma_subscriber_stays(h, ab, s, k, j);
    lemma_state_running(h, ab, j);
    assert(received(h, ab, s, j + 1) == received(h, ab, s, j) + seq![h[j]->Send_0]);
}

/// Once the actor has processed a `Disconnect` it stays terminated: the
/// registry is and remains empty, and no sink receives anything further,
/// even from send commands still sitting in the queue.
pub proof fn lemma_halted_stays_halted<S>(h: Seq<Command<S>>, ab: Map<S, int>, s: S, i: int, j: int)
    requires
        0 <= i <= j <= h.len(),
        !running_at(h, i),
    ensures
        !state_at(h, ab, j).running,
        state_at(h, ab, j).subs =~= Seq::<S>::empty(),
        received(h, ab, s, j) =~= received(h, ab, s, i),
    decreases j - i,
{
    let k0 = choose|k: int| 0 <= k < i && h[k] is Disconnect;
    if j == i {
        lemma_state_running(h, ab, i);
    } else {
        lemma_halted_stays_halted(h, ab, s, i, j - 1);
        lemma_state_running(h, ab, j - 1);
        assert(0 <= k0 < j - 1 && h[k0] is Disconnect);
        assert(!running_at(h, j - 1));
        assert(!receives_at(h, ab, s, j - 1));
        lemma_state_running(h, ab, j);
        assert(!running_at(h, j));
    }
}

/// No delivery after abandonment: once a sink's receive end is gone, the
/// values it had received stay exactly what they were.
pub proof fn lemma_no_delivery_after_abandon<S>(h: Seq<Command<S>>, ab: Map<S, int>, s: S, i: int)
    requires
        0 <= i <= h.len(),
        ab.dom().contains(s),
        0 <= ab[s] <= i,
    ensures
        received(h, ab, s, i) =~= received(h, ab, s, ab[s]),
    decreases i,
{
    if i == ab[s] {
    } else {
        lemma_no_delivery_after_abandon(h, ab, s, i - 1);
        assert(!delivered(ab, s, i - 1));
        assert(!receives_at(h, ab, s, i - 1));
    }
}

/// Lazy pruning: the first broadcast attempted after a sink's receive end
/// is gone removes that sink from the registry, and it never returns.
pub proof fn lemma_abandoned_pruned<S>(h: Seq<Command<S>>, ab: Map<S, int>, s: S, j: int, i: int)
    requires
        0 <= j < i <= h.len(),
        ab.dom().contains(s),
        ab[s] <= j,
        h[j] is Send,
        forall|m: int| j < m < i ==> h[m] != Command::Subscribe(s),
    ensures
        !state_at(h, ab, i).subs.contains(s),
    decreases i,
{
    if i == j + 1 {
        let st = state_at(h, ab, j);
        if st.running {
            let mask = delivered_mask(st.subs, ab, j);
            lemma_filter_by_mem(st.subs, mask, s);
            if state_at(h, ab, i).subs.contains(s) {
                let idx = choose|idx: int|
                    0 <= idx < st.subs.len() && st.subs[idx] == s && mask[idx];
                assert(mask[idx] == delivered(ab, st.subs[idx], j));
                assert(!delivered(ab, s, j));
                assert(false);
            }
        } else {
            lemma_state_running(h, ab, j);
            assert(st.subs =~= Seq::<S>::empty());
            if state_at(h, ab, i).subs.contains(s) {
                assert(false);
            }
        }
    } else {
        lemma_abandoned_pruned(h, ab, s, j, i - 1);
        let st = state_at(h, ab, i - 1);
        if st.running {
            match h[i - 1] {
                Command::Send(_v) => {
                    let mask = delivered_mask(st.subs, ab, i - 1);
                    lemma_filter_by_mem(st.subs, mask, s);
                    if state_at(h, ab, i).subs.contains(s) {
                        let idx = choose|idx: int|
                            0 <= idx < st.subs.len() && st.subs[idx] == s && mask[idx];
                        assert(st.subs.contains(s));
                        assert(false);
                    }
                },
                Command::Subscribe(x) => {
                    assert(x != s);
                    if state_at(h, ab, i).subs.contains(s) {
                        let idx = choose|idx: int|
                            0 <= idx < st.subs.push(x).len() && st.subs.push(x)[idx] == s;
                        if idx == st.subs.len() {
                            assert(false);
                        } else {
                            assert(st.subs[idx] == s);
                            assert(st.subs.contains(s));
                            assert(false);
                        }
                    }
                },
                Command::Disconnect => {
                },
            }
        }
    }
}

} // verus!
