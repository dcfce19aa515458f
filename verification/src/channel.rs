use vstd::prelude::*;

verus! {

/// The sending half of a one-shot channel, `futures::channel::oneshot::Sender`.
/// The verifier sees nothing inside it: a value of this type is a token that
/// can be stored, handed on, sent to once, or dropped.
#[verifier::external_type_specification]
#[verifier::external_body]
#[verifier::reject_recursive_types(T)]
pub struct ExOneshotSender<T>(futures::channel::oneshot::Sender<T>);

/// The receiving half of a one-shot channel,
/// `futures::channel::oneshot::Receiver`. Opaque to the verifier.
#[verifier::external_type_specification]
#[verifier::external_body]
#[verifier::reject_recursive_types(T)]
pub struct ExOneshotReceiver<T>(futures::channel::oneshot::Receiver<T>);

/// `futures::channel::oneshot::Canceled`, the error with which a receiver
/// resolves when its sender went away without sending. Opaque to the verifier.
#[verifier::external_type_specification]
#[verifier::external_body]
pub struct ExCanceled(futures::channel::oneshot::Canceled);

/// The sending half of a bounded queue, `futures::channel::mpsc::Sender`.
/// Opaque to the verifier.
#[verifier::external_type_specification]
#[verifier::external_body]
#[verifier::reject_recursive_types(T)]
pub struct ExQueueSender<T>(futures::channel::mpsc::Sender<T>);

/// The receiving half of a bounded queue, `futures::channel::mpsc::Receiver`.
/// Opaque to the verifier.
#[verifier::external_type_specification]
#[verifier::external_body]
#[verifier::reject_recursive_types(T)]
pub struct ExQueueReceiver<T>(futures::channel::mpsc::Receiver<T>);

/// `futures::channel::oneshot::channel` creates a fresh pair of sender and
/// receiver. Nothing is assumed about the pair.
pub assume_specification<T>[ futures::channel::oneshot::channel::<T> ]() -> (pair: (
    futures::channel::oneshot::Sender<T>,
    futures::channel::oneshot::Receiver<T>,
));

/// `futures::channel::oneshot::Sender::send` consumes the sender and hands the
/// value to the receiver, or gives it back as `Err` when the receiver has
/// already gone. Which of the two happens depends on the other side, so
/// nothing is assumed about the result.
pub assume_specification<T>[ futures::channel::oneshot::Sender::<T>::send ](
    sender: futures::channel::oneshot::Sender<T>,
    t: T,
) -> (outcome: Result<(), T>);

/// `futures::channel::mpsc::channel` creates a bounded queue. It panics when
/// `buffer` is not below its largest supported size, a quarter of the address
/// space, which the precondition rules out. Nothing is assumed about the pair.
pub assume_specification<T>[ futures::channel::mpsc::channel::<T> ](buffer: usize) -> (pair: (
    futures::channel::mpsc::Sender<T>,
    futures::channel::mpsc::Receiver<T>,
))
    requires
        buffer < usize::MAX / 4,
;

/// A party waiting to be told of an event: the sending half of its one-shot
/// channel.
pub type Waiter = futures::channel::oneshot::Sender<()>;

/// The other half: resolves once the waiter was notified, or with `Canceled`
/// once the waiter was dropped.
pub type Notification = futures::channel::oneshot::Receiver<()>;

/// Notifies every waiter of the list, last registered first, and returns how
/// many notifications reached a receiver that was still there. A waiter whose
/// receiver has gone is passed over: its owner has lost interest.
pub fn notify_all(waiters: Vec<Waiter>) -> (delivered: usize)
    ensures
        delivered <= waiters@.len(),
{
    let mut waiters = waiters;
    let mut outcomes: Vec<Result<(), ()>> = Vec::new();
    let total = waiters.len();
    while waiters.len() > 0
        invariant
            outcomes@.len() + waiters@.len() == total,
        decreases waiters@.len(),
    {
        let waiter = waiters.pop().unwrap();
        outcomes.push(waiter.send(()));
    }
    proof {
        lemma_deliveries_bounded(outcomes@);
    }
    count_delivered(&outcomes)
}

/// How many of the outcomes are deliveries.
pub open spec fn deliveries(outcomes: Seq<Result<(), ()>>) -> nat
    decreases outcomes.len(),
{
    if outcomes.len() == 0 {
        0
    } else {
        deliveries(outcomes.drop_last()) + if outcomes.last() is Ok {
            1nat
        } else {
            0nat
        }
    }
}

/// There are no more deliveries than outcomes.
pub proof fn lemma_deliveries_bounded(outcomes: Seq<Result<(), ()>>)
    ensures
        deliveries(outcomes) <= outcomes.len(),
    decreases outcomes.len(),
{
    if outcomes.len() > 0 {
        lemma_deliveries_bounded(outcomes.drop_last());
    }
}

/// Counts the notifications that reached their receivers, given the outcome
/// of each: `Ok` where the notification was delivered, `Err` where the
/// receiver had gone. Whether a notification reaches its receiver is decided
/// on the other side of the channel; [`notify_all`] sends to each waiter once
/// and returns what this function makes of the outcomes.
pub fn count_delivered(outcomes: &Vec<Result<(), ()>>) -> (delivered: usize)
    ensures
        delivered == deliveries(outcomes@),
{
    let mut delivered: usize = 0;
    let mut i: usize = 0;
    while i < outcomes.len()
        invariant
            i <= outcomes@.len(),
            delivered == deliveries(outcomes@.take(i as int)),
            delivered <= i,
        decreases outcomes@.len() - i,
    {
        assert(outcomes@.take(i + 1).drop_last() =~= outcomes@.take(i as int));
        assert(outcomes@.take(i + 1).last() == outcomes@[i as int]);
        if outcomes[i].is_ok() {
            delivered = delivered + 1;
        }
        i = i + 1;
    }
    assert(outcomes@.take(i as int) =~= outcomes@);
    delivered
}

} // verus!
