use vstd::prelude::*;
use lockfree::channel::spsc::{Receiver, Sender};

verus! {

#[verifier::external_type_specification]
#[verifier::external_body]
#[verifier::reject_recursive_types(T)]
pub struct ExSender<T>(Sender<T>);

#[verifier::external_type_specification]
#[verifier::external_body]
#[verifier::reject_recursive_types(T)]
pub struct ExReceiver<T>(Receiver<T>);

/// Relies on lockfree::channel::spsc::create: a fresh, connected single-producer,
/// single-consumer pair.
#[verifier::external_body]
pub(crate) fn spsc_channel<T>() -> (Sender<T>, Receiver<T>) {
    lockfree::channel::spsc::create()
}

/// Relies on lockfree's Sender::send: it never blocks, and when the receiver is gone
/// the message comes back inside `NoRecv`.
#[verifier::external_body]
pub(crate) fn spsc_send<T>(tx: &mut Sender<T>, message: T) -> (r: Result<(), T>)
    ensures
        r matches Err(m) ==> m == message,
{
    match tx.send(message) {
        Ok(()) => Ok(()),
        Err(e) => Err(e.message),
    }
}

/// Relies on lockfree's Receiver::recv: it never blocks; it gives the oldest pending
/// message, or an error when none is pending or the sender is gone.
#[verifier::external_body]
pub(crate) fn spsc_try_recv<T>(rx: &mut Receiver<T>) -> (r: Option<T>) {
    rx.recv().ok()
}

} // verus!
