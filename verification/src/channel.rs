//! The sending half of an unbounded channel, as far as the keeper uses it.
//!
//! Nothing in this file is proved: it tells the verifier which items of the
//! `futures` crate exist and what may be taken for granted about them.

use futures::channel::mpsc::{TrySendError, UnboundedSender};
use vstd::prelude::*;

verus! {

/// `futures::channel::mpsc::UnboundedSender`, the handle through which
/// messages are put on a client's outbound queue.  Nothing is known of what
/// is inside one.
#[verifier::external_type_specification]
#[verifier::external_body]
#[verifier::reject_recursive_types(T)]
pub struct ExUnboundedSender<T>(UnboundedSender<T>);

/// `futures::channel::mpsc::TrySendError`, which hands a message back when
/// the queue did not take it.  Nothing is known of what is inside one.
#[verifier::external_type_specification]
#[verifier::external_body]
#[verifier::reject_recursive_types(T)]
pub struct ExTrySendError<T>(TrySendError<T>);

/// `UnboundedSender::unbounded_send` puts a message on the queue without
/// waiting, or hands it back if the receiving half has closed the queue or is
/// gone.  Which of the two happens depends on what the receiving task has
/// done, so nothing is claimed of the outcome.  The call can only panic once
/// the queue holds more messages than an address space has room for.
pub assume_specification<T>[ UnboundedSender::<T>::unbounded_send ](
    sender: &UnboundedSender<T>,
    msg: T,
) -> (outcome: Result<(), TrySendError<T>>)
;

} // verus!
