//! The executable broadcast primitive: a cloneable `Subject` handle and the
//! `Actor` that owns the subscriber registry.
//!
//! Every mutation of the registry happens inside `Actor::process`, whose
//! contract says exactly what each command does: a `Subscribe` appends that
//! very sink, a `Disconnect` terminates at once and discards the registry,
//! and a `Send` performs one delivery pass — each sink's ghost delivery
//! log records the values it accepted, so the pass's contract ties the
//! broadcast value to the sinks. Which sinks accept a delivery is decided
//! by their receive ends, outside the library; the contracts state what
//! holds of every outcome. `Actor::step` drains one command and hands it
//! to `process`.

use vstd::prelude::*;
use crate::chan::{new_channel, chan_send, chan_recv};
use crate::model::{Command, ModelState, delivered_mask, filter_by, lemma_filter_by_map, lemma_filter_by_mem, step_model};

verus! {

/// Error returned by `Subject::send` when the actor is gone; it carries
/// the undelivered value back to the caller.
pub struct SendError {
    pub value: usize,
}

/// The sending half of one subscriber's value channel, together with a
/// ghost log of the values this sink has accepted. Only the actor ever
/// delivers to a registered sink, so the log accounts for every value its
/// receive end can observe.
pub struct Sink {
    tx: kanal::Sender<usize>,
    log: Ghost<Seq<usize>>,
}

impl Sink {
    /// The underlying channel half.
    pub closed spec fn chan(self) -> kanal::Sender<usize> {
        self.tx
    }

    /// The values this sink has accepted, in delivery order.
    pub closed spec fn log(self) -> Seq<usize> {
        self.log@
    }

    /// Attempts to deliver one value. The receive end decides the
    /// outcome; on acceptance the value is appended to the log, on
    /// refusal (the receive end is gone) nothing changes.
    fn deliver(&mut self, data: usize) -> (ok: bool)
        ensures
            final(self).chan() == old(self).chan(),
            ok ==> final(self).log() == old(self).log().push(data),
            !ok ==> final(self).log() == old(self).log(),
    {
        let ok = chan_send(&self.tx, data);
        if ok {
            proof {
                self.log@ = self.log@.push(data);
            }
        }
        ok
    }
}

/// One sink before and after a delivery attempt of `v` with outcome `k`:
/// the channel is kept, and the log is extended by exactly `v` on
/// acceptance and unchanged on refusal.
pub open spec fn delivered_sink(before: Sink, after: Sink, k: bool, v: usize) -> bool {
    &&& after.chan() == before.chan()
    &&& after.log() == (if k {
        before.log().push(v)
    } else {
        before.log()
    })
}

/// One delivery pass of value `v` over registry `olds`: `keep` holds the
/// observed outcomes, `mid` the registry after the deliveries (same sinks,
/// accepting ones with `v` appended to their logs), and `news` the
/// registry after pruning — exactly the accepting sinks, in order.
pub open spec fn delivery_pass(
    olds: Seq<Sink>,
    keep: Seq<bool>,
    mid: Seq<Sink>,
    news: Seq<Sink>,
    v: usize,
) -> bool {
    &&& keep.len() == olds.len()
    &&& mid.len() == olds.len()
    &&& (forall|j: int|
        0 <= j < olds.len() ==> #[trigger] delivered_sink(olds[j], mid[j], keep[j], v))
    &&& news == filter_by(mid, keep)
}

/// A cloneable, thread-safe handle to a broadcast actor. All three
/// operations only enqueue a command and return; none waits for the actor.
#[derive(Clone)]
pub struct Subject {
    sender: kanal::Sender<Command<Sink>>,
}

/// The broadcast actor: sole owner of the subscriber registry. Drive it
/// with `step` until it reports termination; dropping it afterwards closes
/// the command queue, which is what makes every later `Subject` call fail.
pub struct Actor {
    rx: kanal::Receiver<Command<Sink>>,
    registry: Vec<Sink>,
    live: bool,
}

impl Subject {
    /// Constructs a subject and its actor, wired by a fresh command queue.
    /// The caller gives the actor a worker (a thread, or explicit `step`
    /// calls); the registry starts empty.
    pub fn new() -> (r: (Subject, Actor))
        ensures
            r.1.is_live(),
            r.1.registry_view() =~= Seq::<Sink>::empty(),
    {
        let (tx, rx) = new_channel();
        (Subject { sender: tx }, Actor { rx, registry: Vec::new(), live: true })
    }

    /// Enqueues a broadcast of `data`. Fails exactly when the actor is
    /// gone; the error then carries the value back so it is not lost.
    /// Success does not mean any subscriber received the value, only that
    /// the command entered the queue.
    pub fn send(&self, data: usize) -> (r: Result<(), SendError>)
        ensures
            (r matches Err(e) ==> e.value == data),
    {
        if chan_send(&self.sender, Command::Send(data)) {
            Ok(())
        } else {
            Err(SendError { value: data })
        }
    }

    /// Creates a fresh value channel, enqueues its sending half for
    /// registration, and hands back the receiving half at once: the caller
    /// will observe every value broadcast after this command, independent
    /// of when the actor processes the registration. Fails exactly when
    /// the actor is gone; no receive end is returned then.
    pub fn subscribe(&self) -> (r: Result<kanal::Receiver<usize>, ()>) {
        let (tx, rx) = new_channel();
        let sink = Sink { tx, log: Ghost(Seq::empty()) };
        if chan_send(&self.sender, Command::Subscribe(sink)) {
            Ok(rx)
        } else {
            Err(())
        }
    }

    /// Enqueues termination. Fails exactly when the actor is already gone;
    /// it does not wait for the actor to exit.
    pub fn close(&self) -> (r: Result<(), ()>) {
        if chan_send(&self.sender, Command::Disconnect) {
            Ok(())
        } else {
            Err(())
        }
    }
}

impl Actor {
    /// The subscriber registry, in subscription order.
    pub closed spec fn registry_view(&self) -> Seq<Sink> {
        self.registry@
    }

    /// Whether the actor still drains its queue.
    pub closed spec fn is_live(&self) -> bool {
        self.live
    }

    /// The current number of registered subscribers.
    pub fn subscriber_count(&self) -> (n: usize)
        ensures
            n == self.registry_view().len(),
    {
        self.registry.len()
    }

    /// Applies one drained command. This is the actor's whole decision
    /// logic, and its contract is exact per command: a subscription
    /// appends that very sink, prior entries untouched; a disconnect
    /// terminates at once and discards the registry; a send performs one
    /// delivery pass of that very value over the full registry, retaining
    /// exactly the sinks that accepted it, in their original order.
    pub fn process(&mut self, cmd: Command<Sink>) -> (more: bool)
        requires
            old(self).is_live(),
        ensures
            more == final(self).is_live(),
            (cmd matches Command::Subscribe(s) ==> final(self).is_live()
                && final(self).registry_view() == old(self).registry_view().push(s)),
            (cmd is Disconnect ==> !final(self).is_live() && final(self).registry_view()
                == Seq::<Sink>::empty()),
            (cmd matches Command::Send(v) ==> final(self).is_live()
                && exists|keep: Seq<bool>, mid: Seq<Sink>|
                    delivery_pass(old(self).registry_view(), keep, mid, final(self).registry_view(), v)),
    {
        match cmd {
            Command::Send(data) => {
                let keep = deliver_all(&mut self.registry, data);
                let ghost mid = self.registry@;
                prune(&mut self.registry, &keep);
                proof {
                    assert(delivery_pass(
                        old(self).registry_view(),
                        keep@,
                        mid,
                        self.registry_view(),
                        data,
                    ));
                }
                true
            },
            Command::Subscribe(sink) => {
                let ghost g = sink;
                self.registry.push(sink);
                proof {
                    assert(self.registry_view() == old(self).registry_view().push(g));
                }
                true
            },
            Command::Disconnect => {
                self.live = false;
                self.registry = Vec::new();
                proof {
                    assert(self.registry_view() =~= Seq::<Sink>::empty());
                }
                false
            },
        }
    }

    /// Drains one command and hands it to `process`; returns whether the
    /// actor is still live. A terminated actor does nothing. Which command
    /// arrives — or whether the queue instead reports that every handle is
    /// gone — depends on the other side, so this contract states what
    /// holds whatever came back: either the actor terminated with the
    /// registry discarded, or some sink was registered, or some value was
    /// broadcast in one delivery pass. `process` says exactly which of
    /// these each command causes.
    pub fn step(&mut self) -> (more: bool)
        ensures
            more == final(self).is_live(),
            !old(self).is_live() ==> !more && final(self).registry_view() =~= old(
                self,
            ).registry_view(),
            old(self).is_live() ==> {
                ||| (!final(self).is_live() && final(self).registry_view() == Seq::<
                    Sink,
                >::empty())
                ||| (final(self).is_live() && exists|s: Sink|
                    final(self).registry_view() == old(self).registry_view().push(s))
                ||| (final(self).is_live() && exists|v: usize, keep: Seq<bool>, mid: Seq<Sink>|
                    delivery_pass(
                        old(self).registry_view(),
                        keep,
                        mid,
                        final(self).registry_view(),
                        v,
                    ))
            },
    {
        if !self.live {
            return false;
        }
        match chan_recv(&self.rx) {
            None => {
                // every handle is gone: no command can ever arrive again
                self.live = false;
                self.registry = Vec::new();
                proof {
                    assert(self.registry_view() =~= Seq::<Sink>::empty());
                }
                false
            },
            Some(cmd) => self.process(cmd),
        }
    }
}

/// The channels of a registry of sinks, slot for slot.
pub open spec fn chans(s: Seq<Sink>) -> Seq<kanal::Sender<usize>> {
    s.map_values(|x: Sink| x.chan())
}

/// The executable delivery pass implements the model's send step: whenever
/// an abandonment map explains the observed outcomes, the channels of the
/// retained sinks are exactly the model's registry after that send. The
/// other two commands coincide with the model step by `process`'s very
/// clauses: a subscription appends the sink, a disconnect empties the
/// registry and halts.
pub proof fn lemma_pass_matches_model(
    olds: Seq<Sink>,
    keep: Seq<bool>,
    mid: Seq<Sink>,
    news: Seq<Sink>,
    v: usize,
    ab: Map<kanal::Sender<usize>, int>,
    j: int,
)
    requires
        delivery_pass(olds, keep, mid, news, v),
        keep =~= delivered_mask(chans(olds), ab, j),
    ensures
        chans(news) == step_model(
            ModelState { subs: chans(olds), running: true },
            Command::<kanal::Sender<usize>>::Send(v),
            ab,
            j,
        ).subs,
{
    lemma_filter_by_map(mid, keep, |x: Sink| x.chan());
    assert forall|t: int| 0 <= t < olds.len() implies chans(mid)[t] == chans(olds)[t] by {
        assert(delivered_sink(olds[t], mid[t], keep[t], v));
    }
    assert(chans(mid) =~= chans(olds));
    assert(chans(news) == filter_by(chans(olds), keep));
    assert(step_model(
        ModelState { subs: chans(olds), running: true },
        Command::<kanal::Sender<usize>>::Send(v),
        ab,
        j,
    ).subs == filter_by(chans(olds), delivered_mask(chans(olds), ab, j)));
}

/// Every sink retained by a delivery pass accepted the broadcast value:
/// it is one of the sinks the pass started from, on the same channel, and
/// its log is its pre-pass log with exactly that value appended.
pub proof fn lemma_survivor_accepted(
    olds: Seq<Sink>,
    keep: Seq<bool>,
    mid: Seq<Sink>,
    news: Seq<Sink>,
    v: usize,
    x: Sink,
)
    requires
        delivery_pass(olds, keep, mid, news, v),
        news.contains(x),
    ensures
        x.log().len() > 0 && x.log().last() == v,
        exists|j: int|
            0 <= j < olds.len() && x.chan() == olds[j].chan() && x.log() == olds[j].log().push(v),
{
    lemma_filter_by_mem(mid, keep, x);
    let j = choose|j: int| 0 <= j < mid.len() && mid[j] == x && keep[j];
    assert(delivered_sink(olds[j], mid[j], keep[j], v));
    assert(x.chan() == olds[j].chan() && x.log() == olds[j].log().push(v));
}

/// Attempts one delivery of `data` to each registered sink, in registry
/// order, and reports the outcomes: `keep[i]` is whether sink `i` accepted
/// the value (its receive end still exists). Whatever the outcomes, every
/// sink keeps its channel, an accepting sink's log is extended by exactly
/// this value, and a refusing sink's log is unchanged.
fn deliver_all(regs: &mut Vec<Sink>, data: usize) -> (keep: Vec<bool>)
    ensures
        keep@.len() == old(regs)@.len(),
        final(regs)@.len() == old(regs)@.len(),
        forall|j: int|
            0 <= j < old(regs)@.len() ==> #[trigger] delivered_sink(
                old(regs)@[j],
                final(regs)@[j],
                keep@[j],
                data,
            ),
{
    let ghost olds = regs@;
    let n = regs.len();
    let mut keep: Vec<bool> = Vec::new();
    let ghost mut upd = Seq::<Sink>::empty();
    let mut i: usize = 0;
    while i < n
        invariant
            i <= n,
            n == olds.len(),
            regs@.len() == n,
            keep@.len() == i,
            upd.len() == i,
            regs@ =~= olds.skip(i as int) + upd,
            forall|j: int|
                0 <= j < i ==> #[trigger] delivered_sink(olds[j], upd[j], keep@[j], data),
        decreases n - i,
    {
        let ghost upd_prev = upd;
        let ghost keep_prev = keep@;
        let mut s = regs.remove(0);
        proof {
            assert((olds.skip(i as int) + upd)[0] == olds[i as int]);
            assert(s == olds[i as int]);
        }
        let ok = s.deliver(data);
        proof {
            upd = upd.push(s);
        }
        regs.push(s);
        keep.push(ok);
        proof {
            assert(delivered_sink(olds[i as int], s, ok, data));
            assert forall|j: int|
                0 <= j < i as int + 1 implies #[trigger] delivered_sink(
                olds[j],
                upd[j],
                keep@[j],
                data,
            ) by {
                if j < i as int {
                    assert(upd[j] == upd_prev[j]);
                    assert(keep@[j] == keep_prev[j]);
                    assert(delivered_sink(olds[j], upd_prev[j], keep_prev[j], data));
                } else {
                    assert(upd[j] == s && keep@[j] == ok);
                }
            }
            assert(regs@ =~= olds.skip(i as int + 1) + upd);
        }
        i += 1;
    }
    proof {
        assert(olds.skip(n as int) =~= Seq::<Sink>::empty());
        assert(regs@ =~= upd);
        assert forall|j: int|
            0 <= j < olds.len() implies #[trigger] delivered_sink(
            olds[j],
            regs@[j],
            keep@[j],
            data,
        ) by {
            assert(regs@[j] == upd[j]);
            assert(delivered_sink(olds[j], upd[j], keep@[j], data));
        }
    }
    keep
}

/// Retains exactly the elements whose mask bit is set, in their original
/// order: the registry after a delivery pass.
fn prune<T>(v: &mut Vec<T>, keep: &Vec<bool>)
    requires
        old(v)@.len() == keep@.len(),
    ensures
        final(v)@ =~= filter_by(old(v)@, keep@),
{
    let ghost s = v@;
    let mut i: usize = v.len();
    proof {
        assert(s.skip(i as int) =~= Seq::<T>::empty());
        assert(v@ =~= s.take(i as int) + filter_by(s.skip(i as int), keep@.skip(i as int)));
    }
    while i > 0
        invariant
            i <= s.len(),
            s.len() == keep@.len(),
            v@ =~= s.take(i as int) + filter_by(s.skip(i as int), keep@.skip(i as int)),
        decreases i,
    {
        i = i - 1;
        proof {
            lemma_filter_by_skip_unfold(s, keep@, i as int);
        }
        if !keep[i] {
            v.remove(i);
        }
        proof {
            assert(v@ =~= s.take(i as int) + filter_by(s.skip(i as int), keep@.skip(i as int)));
        }
    }
    proof {
        assert(s.skip(0) =~= s);
        assert(keep@.skip(0) =~= keep@);
        assert(v@ =~= filter_by(s, keep@));
    }
}

/// Unfolds `filter_by` one slot forward on the tails that start at `i`.
proof fn lemma_filter_by_skip_unfold<S>(s: Seq<S>, keep: Seq<bool>, i: int)
    requires
        keep.len() == s.len(),
        0 <= i < s.len(),
    ensures
        filter_by(s.skip(i), keep.skip(i)) == (if keep[i] {
            seq![s[i]]
        } else {
            Seq::<S>::empty()
        }) + filter_by(s.skip(i + 1), keep.skip(i + 1)),
{
    assert(s.skip(i).drop_first() =~= s.skip(i + 1));
    assert(keep.skip(i).drop_first() =~= keep.skip(i + 1));
    assert(s.skip(i)[0] == s[i]);
    assert(keep.skip(i)[0] == keep[i]);
    if keep[i] {
        assert(filter_by(s.skip(i), keep.skip(i)) == seq![s[i]] + filter_by(
            s.skip(i + 1),
            keep.skip(i + 1),
        ));
    } else {
        assert(filter_by(s.skip(i), keep.skip(i)) == filter_by(s.skip(i + 1), keep.skip(i + 1)));
        assert(Seq::<S>::empty() + filter_by(s.skip(i + 1), keep.skip(i + 1)) =~= filter_by(
            s.skip(i + 1),
            keep.skip(i + 1),
        ));
    }
}

} // verus!
