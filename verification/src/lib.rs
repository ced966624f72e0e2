//! A broadcast notification primitive ("Subject"): one logical channel that
//! accepts values from any number of producers and fans them out to any
//! number of dynamically joining consumers, each consumer receiving every
//! value published after it subscribed.
//!
//! The core is a single actor that owns the subscriber registry and
//! serializes every mutation to it. `model` states the actor's semantics
//! over mathematical sequences and proves the delivery laws; `actor`
//! holds the executable actor and the cloneable `Subject` handle; `chan`
//! wraps the underlying channel primitive.

mod chan;
pub mod model;
pub mod actor;
