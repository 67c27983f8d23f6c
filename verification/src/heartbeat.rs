use crate::registry::{recipients_of, PeerId, Registry};
use futures::sync::mpsc::UnboundedSender;
use vstd::prelude::*;

verus! {

/// `futures::sync::mpsc::UnboundedSender`, the sending end of an unbounded
/// channel. Nothing is known of what is inside.
#[verifier::external_type_specification]
#[verifier::external_body]
#[verifier::reject_recursive_types(T)]
pub struct ExUnboundedSender<T>(futures::sync::mpsc::UnboundedSender<T>);

/// `futures::sync::mpsc::UnboundedSender::unbounded_send`, on a copy of
/// `buffer`: queues the copy for the receiving end without waiting, and fails
/// when the receiving end is closed. Whether it is closed is decided
/// elsewhere, so nothing is claimed of the result. The call panics only when
/// the count of queued buffers would overflow, which memory rules out, or
/// when the receiving task panicked while it held the channel's lock.
#[verifier::external_body]
fn enqueue(channel: &UnboundedSender<Vec<u8>>, buffer: &Vec<u8>) -> (accepted: bool) {
    channel.unbounded_send(buffer.clone()).is_ok()
}

/// The outcome of offering one peer its buffer.
pub struct Attempt {
    pub peer: PeerId,
    pub accepted: bool,
}

/// The peers that a list of attempts names, in the order of the list.
pub open spec fn attempted(attempts: Seq<Attempt>) -> Seq<PeerId> {
    Seq::new(attempts.len(), |i: int| attempts[i].peer)
}

/// One tick of the broadcast scheduler. With a snapshot, every registered
/// peer is offered the framed snapshot once, on its own channel; a channel
/// that refuses is noted and does not stop the others. Without a snapshot the
/// tick offers nothing.
pub fn broadcast(registry: &Registry<UnboundedSender<Vec<u8>>>, snapshot: Option<Vec<u8>>) -> (attempts:
    Vec<Attempt>)
    requires
        registry.wf(),
    ensures
        snapshot.is_none() ==> attempts@.len() == 0,
        snapshot.is_some() ==> attempted(attempts@).no_duplicates(),
        snapshot.is_some() ==> attempted(attempts@).to_set() == registry@.dom(),
{
    let deliveries = registry.tick(snapshot);
    let mut attempts: Vec<Attempt> = Vec::new();
    let mut i: usize = 0;
    while i < deliveries.len()
        invariant
            registry.wf(),
            i <= deliveries@.len(),
            attempts@.len() == i,
            forall|j: int| 0 <= j < i ==> (#[trigger] attempts@[j]).peer == deliveries@[j].peer,
        decreases deliveries@.len() - i,
    {
        let delivery = &deliveries[i];
        let accepted = match registry.get(delivery.peer) {
            Some(channel) => enqueue(channel, &delivery.buffer),
            None => false,
        };
        attempts.push(Attempt { peer: delivery.peer, accepted });
        i += 1;
    }
    proof {
        assert(attempted(attempts@) =~= recipients_of(deliveries@));
    }
    attempts
}

} // verus!
