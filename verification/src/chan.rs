//! Trusted boundary to the channel primitive (the `kanal` crate).
//!
//! The actor and its handles move values through unbounded channels. The
//! declarations here make the channel types visible to the verifier; the
//! wrappers make the calls. Nothing about the contents of a channel is
//! claimed: what a send or receive returns depends on the other side, so
//! each wrapper's contract states only what holds of every outcome.

use vstd::prelude::*;

verus! {

#[verifier::external_type_specification]
#[verifier::external_body]
#[verifier::reject_recursive_types(T)]
pub struct ExSender<T>(kanal::Sender<T>);

#[verifier::external_type_specification]
#[verifier::external_body]
#[verifier::reject_recursive_types(T)]
pub struct ExReceiver<T>(kanal::Receiver<T>);

/// Relies on kanal's `impl Clone for Sender`: a clone is another sending
/// handle on the same channel; `Subject`'s derived `Clone` calls it.
/// Nothing is claimed of the returned value.
pub assume_specification<T>[ <kanal::Sender<T> as Clone>::clone ](s: &kanal::Sender<T>) -> kanal::Sender<T>;

/// Relies on `kanal::unbounded`: builds a fresh unbounded channel and
/// returns its sending and receiving halves.
#[verifier::external_body]
pub(crate) fn new_channel<T>() -> (kanal::Sender<T>, kanal::Receiver<T>) {
    kanal::unbounded()
}

/// Relies on `kanal::Sender::send`: on an unbounded channel the call does
/// not block; it returns `Ok` exactly when a receiving half still exists,
/// and drops the value otherwise. The outcome depends on the other side,
/// so no more is claimed.
#[verifier::external_body]
pub(crate) fn chan_send<T>(s: &kanal::Sender<T>, data: T) -> bool {
    s.send(data).is_ok()
}

/// Relies on `kanal::Receiver::recv`: blocks until a value arrives (`Some`)
/// or until every sending half is gone and the queue is drained (`None`).
/// Which of the two happens depends on the other side, so no more is
/// claimed.
#[verifier::external_body]
pub(crate) fn chan_recv<T>(r: &kanal::Receiver<T>) -> Option<T> {
    match r.recv() {
        Ok(v) => Some(v),
        Err(_) => None,
    }
}

} // verus!
