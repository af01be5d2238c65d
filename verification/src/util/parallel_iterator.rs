//! An iterator fed from several threads through a channel.
use std::sync::mpsc::{Receiver, Sender};
use vstd::prelude::*;

verus! {

/// std's sending half of a channel.
#[verifier::external_type_specification]
#[verifier::external_body]
#[verifier::reject_recursive_types(T)]
pub struct ExSender<T>(std::sync::mpsc::Sender<T>);

/// std's receiving half of a channel.
#[verifier::external_type_specification]
#[verifier::external_body]
#[verifier::reject_recursive_types(T)]
pub struct ExReceiver<T>(std::sync::mpsc::Receiver<T>);

/// std's `mpsc::channel`: a new channel's two halves. Nothing is stated of them.
#[verifier::external_body]
fn open_channel<T>() -> (Sender<T>, Receiver<T>) {
    std::sync::mpsc::channel()
}

/// std's `Sender::clone`: another sending half of the same channel. A sending half is taken
/// here as the channel it sends into, so the clone is stated equal to the sender it was made from; how many
/// halves are alive, which decides when the channel closes, is not stated.
#[verifier::external_body]
fn clone_sender<T>(sender: &Sender<T>) -> (r: Sender<T>)
    ensures
        r == *sender,
{
    sender.clone()
}

/// std's `Receiver::recv`, with its error turned into `None`: the next value sent, or `None`
/// once every sending half is gone. What comes depends on the other threads; nothing is
/// stated of it.
#[verifier::external_body]
fn receive<T>(receiver: &Receiver<T>) -> Option<T> {
    receiver.recv().ok()
}

/// An iterator whose sources can be in multiple threads.
#[verifier::reject_recursive_types(T)]
pub struct ParallelIterator<T> {
    pub sender: Option<Sender<T>>,
    pub receiver: Receiver<T>,
}

impl<T> ParallelIterator<T> {
    /// A new iterator, still handing out senders.
    pub fn new() -> (r: ParallelIterator<T>)
        ensures
            r.sender is Some,
    {
        let (sender, receiver) = open_channel();
        ParallelIterator { sender: Some(sender), receiver }
    }

    /// A new sender for this iterator; only before the iteration has started.
    pub fn get_new_sender(&self) -> (r: Sender<T>)
        requires
            self.sender is Some,
        ensures
            r == self.sender->Some_0,
    {
        let sender = self.sender.as_ref().unwrap();
        clone_sender(sender)
    }

    /// The next value sent: drops the iterator's own sender first, so that the iteration ends
    /// (with `None`) once all the senders handed out are gone.
    pub fn next(&mut self) -> (r: Option<T>)
        ensures
            final(self).sender is None,
    {
        if self.sender.is_some() {
            self.sender = None;
        }
        receive(&self.receiver)
    }
}

} // verus!
