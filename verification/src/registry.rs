use crate::wire::{encode, len_encode_bytes};
use vstd::prelude::*;

verus! {

/// The identity of a connected peer: its address as a 128-bit number, its
/// port, and the flow and scope that tell two addresses of the newer protocol
/// apart (zero for the older one).
#[derive(Clone, Copy, Debug, PartialEq, Eq, Structural)]
pub struct PeerId {
    pub addr: u128,
    pub port: u16,
    pub flow: u32,
    pub scope: u32,
}

/// One buffer that a broadcast tick owes to one peer.
pub struct Delivery {
    pub peer: PeerId,
    pub buffer: Vec<u8>,
}

/// The peers that a list of deliveries names, in the order of the list.
pub open spec fn recipients_of(deliveries: Seq<Delivery>) -> Seq<PeerId> {
    Seq::new(deliveries.len(), |i: int| deliveries[i].peer)
}

/// The deliveries serve exactly `peers` with one broadcast of `snapshot`:
/// every peer of the set is named once, no one else is named, and every
/// buffer is the snapshot behind its length prefix.
pub open spec fn serves(deliveries: Seq<Delivery>, peers: Set<PeerId>, snapshot: Seq<u8>) -> bool {
    &&& recipients_of(deliveries).no_duplicates()
    &&& recipients_of(deliveries).to_set() == peers
    &&& forall|i: int|
        0 <= i < deliveries.len() ==> (#[trigger] deliveries[i]).buffer@ == encode(snapshot)
}

/// The peers that a list of visits names, in the order of the list.
pub open spec fn visited<R>(visits: Seq<(PeerId, R)>) -> Seq<PeerId> {
    Seq::new(visits.len(), |i: int| visits[i].0)
}

/// A broadcast to `k` registered peers makes `k` deliveries.
pub proof fn lemma_one_delivery_each(deliveries: Seq<Delivery>, peers: Set<PeerId>, snapshot: Seq<u8>)
    requires
        serves(deliveries, peers, snapshot),
    ensures
        peers.finite(),
        peers.len() == deliveries.len(),
{
    recipients_of(deliveries).unique_seq_to_set();
}

/// A peer that was taken out of the registry before a broadcast is named by
/// none of its deliveries, whatever else the registry held.
pub proof fn lemma_removed_peer_is_skipped<C>(
    registered: Map<PeerId, C>,
    peer: PeerId,
    deliveries: Seq<Delivery>,
    snapshot: Seq<u8>,
)
    requires
        serves(deliveries, registered.remove(peer).dom(), snapshot),
    ensures
        forall|i: int| 0 <= i < deliveries.len() ==> (#[trigger] deliveries[i]).peer != peer,
{
    assert forall|i: int| 0 <= i < deliveries.len() implies (#[trigger] deliveries[i]).peer
        != peer by {
        let names = recipients_of(deliveries);
        assert(names[i] == deliveries[i].peer);
        assert(names.to_set().contains(names[i]));
    }
}

struct Entry<C> {
    peer: PeerId,
    channel: C,
}

/// The live outbound channels, one for each connected peer. `C` is the
/// sending end of a peer's channel; the registry keeps it and hands it out,
/// and never sends on it.
pub struct Registry<C> {
    entries: Vec<Entry<C>>,
}

spec fn distinct<C>(e: Seq<Entry<C>>) -> bool {
    forall|i: int, j: int| 0 <= i < j < e.len() ==> (#[trigger] e[i]).peer != (#[trigger] e[j]).peer
}

spec fn holds<C>(e: Seq<Entry<C>>, peer: PeerId) -> bool {
    exists|i: int| 0 <= i < e.len() && (#[trigger] e[i]).peer == peer
}

spec fn slot<C>(e: Seq<Entry<C>>, peer: PeerId) -> int {
    choose|i: int| 0 <= i < e.len() && (#[trigger] e[i]).peer == peer
}

spec fn table<C>(e: Seq<Entry<C>>) -> Map<PeerId, C> {
    Map::new(|p: PeerId| holds(e, p), |p: PeerId| e[slot(e, p)].channel)
}

proof fn lemma_table_at<C>(e: Seq<Entry<C>>, i: int)
    requires
        distinct(e),
        0 <= i < e.len(),
    ensures
        table(e).contains_key(e[i].peer),
        table(e)[e[i].peer] == e[i].channel,
{
    let p = e[i].peer;
    assert(holds(e, p));
    let k = slot(e, p);
    assert(e[k].peer == p);
    assert(k == i);
}

proof fn lemma_table_push<C>(e: Seq<Entry<C>>, x: Entry<C>)
    requires
        distinct(e),
        !table(e).contains_key(x.peer),
    ensures
        distinct(e.push(x)),
        table(e.push(x)) == table(e).insert(x.peer, x.channel),
{
    let e2 = e.push(x);
    let n = e.len() as int;
    assert(!holds(e, x.peer));
    assert(e2[n] == x);
    assert forall|i: int, j: int| 0 <= i < j < e2.len() implies (#[trigger] e2[i]).peer != (
    #[trigger] e2[j]).peer by {
        assert(e2[i] == e[i]);
        if j < n {
            assert(e2[j] == e[j]);
        }
    }
    let target = table(e).insert(x.peer, x.channel);
    assert forall|p: PeerId| table(e2).contains_key(p) <==> target.contains_key(p) by {
        if holds(e2, p) {
            let j = slot(e2, p);
            if j < n {
                assert(e[j].peer == p);
            }
        }
        if holds(e, p) {
            let i = slot(e, p);
            assert(e2[i].peer == p);
        }
    }
    assert forall|p: PeerId| table(e2).contains_key(p) implies table(e2)[p] == target[p] by {
        if p == x.peer {
            lemma_table_at(e2, n);
        } else {
            let i = slot(e, p);
            assert(e2[i] == e[i]);
            lemma_table_at(e, i);
            lemma_table_at(e2, i);
        }
    }
    assert(table(e2) =~= target);
}

proof fn lemma_table_update<C>(e: Seq<Entry<C>>, k: int, x: Entry<C>)
    requires
        distinct(e),
        0 <= k < e.len(),
        e[k].peer == x.peer,
    ensures
        distinct(e.update(k, x)),
        table(e.update(k, x)) == table(e).insert(x.peer, x.channel),
{
    let e2 = e.update(k, x);
    assert forall|i: int, j: int| 0 <= i < j < e2.len() implies (#[trigger] e2[i]).peer != (
    #[trigger] e2[j]).peer by {
        assert(e2[i].peer == e[i].peer);
        assert(e2[j].peer == e[j].peer);
    }
    let target = table(e).insert(x.peer, x.channel);
    assert forall|p: PeerId| table(e2).contains_key(p) <==> target.contains_key(p) by {
        if holds(e2, p) {
            let j = slot(e2, p);
            assert(e[j].peer == p);
        }
        if holds(e, p) {
            let i = slot(e, p);
            assert(e2[i].peer == p);
        }
        if p == x.peer {
            assert(e2[k].peer == p);
        }
    }
    assert forall|p: PeerId| table(e2).contains_key(p) implies table(e2)[p] == target[p] by {
        if p == x.peer {
            lemma_table_at(e2, k);
        } else {
            let j = slot(e2, p);
            assert(e[j] == e2[j]);
            lemma_table_at(e, j);
            lemma_table_at(e2, j);
        }
    }
    assert(table(e2) =~= target);
}

proof fn lemma_table_remove<C>(e: Seq<Entry<C>>, k: int)
    requires
        distinct(e),
        0 <= k < e.len(),
    ensures
        distinct(e.remove(k)),
        table(e.remove(k)) == table(e).remove(e[k].peer),
{
    let e2 = e.remove(k);
    assert forall|i: int| 0 <= i < e2.len() implies #[trigger] e2[i] == e[if i < k {
        i
    } else {
        i + 1
    }] by {}
    assert forall|i: int, j: int| 0 <= i < j < e2.len() implies (#[trigger] e2[i]).peer != (
    #[trigger] e2[j]).peer by {
        let a = if i < k { i } else { i + 1 };
        let b = if j < k { j } else { j + 1 };
        assert(e2[i] == e[a]);
        assert(e2[j] == e[b]);
    }
    let target = table(e).remove(e[k].peer);
    assert forall|p: PeerId| table(e2).contains_key(p) <==> target.contains_key(p) by {
        if holds(e2, p) {
            let j = slot(e2, p);
            let b = if j < k { j } else { j + 1 };
            assert(e2[j] == e[b]);
            assert(e[b].peer == p);
            assert(e[b].peer != e[k].peer);
        }
        if holds(e, p) && p != e[k].peer {
            let i = slot(e, p);
            let a = if i < k { i } else { i - 1 };
            assert(e2[a] == e[i]);
            assert(e2[a].peer == p);
        }
    }
    assert forall|p: PeerId| table(e2).contains_key(p) implies table(e2)[p] == target[p] by {
        let j = slot(e2, p);
        let b = if j < k { j } else { j + 1 };
        assert(e2[j] == e[b]);
        lemma_table_at(e, b);
        lemma_table_at(e2, j);
    }
    assert(table(e2) =~= target);
}

proof fn lemma_names<C>(e: Seq<Entry<C>>, names: Seq<PeerId>)
    requires
        distinct(e),
        names.len() == e.len(),
        forall|j: int| 0 <= j < e.len() ==> names[j] == (#[trigger] e[j]).peer,
    ensures
        names.no_duplicates(),
        names.to_set() == table(e).dom(),
{
    assert forall|a: int, b: int| 0 <= a < names.len() && 0 <= b < names.len() && a
        != b implies names[a] != names[b] by {
        assert(names[a] == e[a].peer);
        assert(names[b] == e[b].peer);
    }
    assert forall|p: PeerId| names.to_set().contains(p) <==> table(e).dom().contains(p) by {
        if names.contains(p) {
            let j = choose|j: int| 0 <= j < names.len() && names[j] == p;
            assert(e[j].peer == p);
        }
        if holds(e, p) {
            let j = slot(e, p);
            assert(names[j] == p);
        }
    }
    assert(names.to_set() =~= table(e).dom());
}

impl<C> View for Registry<C> {
    type V = Map<PeerId, C>;

    closed spec fn view(&self) -> Map<PeerId, C> {
        table(self.entries@)
    }
}

impl<C> Registry<C> {
    /// No peer is registered twice.
    pub closed spec fn wf(&self) -> bool {
        distinct(self.entries@)
    }

    /// A registry with no peer in it.
    pub fn new() -> (registry: Registry<C>)
        ensures
            registry.wf(),
            registry@ == Map::<PeerId, C>::empty(),
    {
        let registry = Registry { entries: Vec::new() };
        proof {
            assert(registry@ =~= Map::<PeerId, C>::empty());
        }
        registry
    }

    fn position(&self, peer: PeerId) -> (found: Option<usize>)
        ensures
            match found {
                Some(i) => i < self.entries@.len() && self.entries@[i as int].peer == peer,
                None => !holds(self.entries@, peer),
            },
    {
        let mut i: usize = 0;
        while i < self.entries.len()
            invariant
                i <= self.entries@.len(),
                forall|j: int| 0 <= j < i ==> (#[trigger] self.entries@[j]).peer != peer,
            decreases self.entries@.len() - i,
        {
            if self.entries[i].peer == peer {
                return Some(i);
            }
            i += 1;
        }
        None
    }

    /// Whether `peer` is registered.
    pub fn contains(&self, peer: PeerId) -> (found: bool)
        ensures
            found == self@.contains_key(peer),
    {
        self.position(peer).is_some()
    }

    /// The channel registered for `peer`, if there is one.
    pub fn get(&self, peer: PeerId) -> (channel: Option<&C>)
        requires
            self.wf(),
        ensures
            channel.is_some() == self@.contains_key(peer),
            channel.is_some() ==> *channel.unwrap() == self@[peer],
    {
        match self.position(peer) {
            Some(i) => {
                proof {
                    lemma_table_at(self.entries@, i as int);
                }
                Some(&self.entries[i].channel)
            },
            None => None,
        }
    }

    /// Registers `channel` for `peer`. A channel registered for the same peer
    /// before is replaced.
    pub fn insert(&mut self, peer: PeerId, channel: C)
        requires
            old(self).wf(),
        ensures
            final(self).wf(),
            final(self)@ == old(self)@.insert(peer, channel),
    {
        let entry = Entry { peer, channel };
        match self.position(peer) {
            Some(i) => {
                proof {
                    lemma_table_update(self.entries@, i as int, entry);
                }
                self.entries.set(i, entry);
            },
            None => {
                proof {
                    lemma_table_push(self.entries@, entry);
                }
                self.entries.push(entry);
            },
        }
    }

    /// Takes `peer` out of the registry and returns its channel. Where the
    /// peer is not registered nothing changes.
    pub fn remove(&mut self, peer: PeerId) -> (channel: Option<C>)
        requires
            old(self).wf(),
        ensures
            final(self).wf(),
            final(self)@ == old(self)@.remove(peer),
            !final(self)@.contains_key(peer),
            channel == (if old(self)@.contains_key(peer) {
                Some(old(self)@[peer])
            } else {
                None
            }),
    {
        match self.position(peer) {
            Some(i) => {
                proof {
                    lemma_table_at(self.entries@, i as int);
                    lemma_table_remove(self.entries@, i as int);
                }
                let entry = self.entries.remove(i);
                Some(entry.channel)
            },
            None => {
                proof {
                    assert(self@.remove(peer) =~= self@);
                }
                None
            },
        }
    }

    /// The peers registered at this moment, each once.
    pub fn recipients(&self) -> (peers: Vec<PeerId>)
        requires
            self.wf(),
        ensures
            peers@.no_duplicates(),
            peers@.to_set() == self@.dom(),
    {
        let mut peers: Vec<PeerId> = Vec::new();
        let mut i: usize = 0;
        while i < self.entries.len()
            invariant
                i <= self.entries@.len(),
                peers@.len() == i,
                forall|j: int| 0 <= j < i ==> peers@[j] == (#[trigger] self.entries@[j]).peer,
            decreases self.entries@.len() - i,
        {
            peers.push(self.entries[i].peer);
            i += 1;
        }
        proof {
            lemma_names(self.entries@, peers@);
        }
        peers
    }

    /// Calls `f` once with every peer registered at this moment and its
    /// channel, and returns what each call returned beside the peer that it
    /// was made for.
    pub fn for_each<R, F: Fn(PeerId, &C) -> R>(&self, f: F) -> (visits: Vec<(PeerId, R)>)
        requires
            self.wf(),
            forall|p: PeerId| #[trigger] self@.contains_key(p) ==> call_requires(f, (p, &self@[p])),
        ensures
            visited(visits@).no_duplicates(),
            visited(visits@).to_set() == self@.dom(),
            forall|i: int|
                0 <= i < visits@.len() ==> call_ensures(
                    f,
                    ((#[trigger] visits@[i]).0, &self@[visits@[i].0]),
                    visits@[i].1,
                ),
    {
        let mut visits: Vec<(PeerId, R)> = Vec::new();
        let mut i: usize = 0;
        while i < self.entries.len()
            invariant
                self.wf(),
                i <= self.entries@.len(),
                visits@.len() == i,
                forall|p: PeerId| #[trigger]
                    self@.contains_key(p) ==> call_requires(f, (p, &self@[p])),
                forall|j: int|
                    0 <= j < i ==> (#[trigger] visits@[j]).0 == self.entries@[j].peer && call_ensures(
                        f,
                        (visits@[j].0, &self@[visits@[j].0]),
                        visits@[j].1,
                    ),
            decreases self.entries@.len() - i,
        {
            let entry = &self.entries[i];
            proof {
                lemma_table_at(self.entries@, i as int);
                assert(self@.contains_key(entry.peer));
                assert(self@[entry.peer] == entry.channel);
            }
            let outcome = f(entry.peer, &entry.channel);
            visits.push((entry.peer, outcome));
            i += 1;
        }
        proof {
            lemma_names(self.entries@, visited(visits@));
        }
        visits
    }

    /// What one broadcast tick owes: the snapshot, framed once with its
    /// length prefix, as one buffer for every registered peer and for no one
    /// else.
    pub fn fan_out(&self, snapshot: &[u8]) -> (deliveries: Vec<Delivery>)
        requires
            self.wf(),
        ensures
            serves(deliveries@, self@.dom(), snapshot@),
    {
        let mut payload: Vec<u8> = Vec::new();
        payload.extend_from_slice(snapshot);
        let framed = len_encode_bytes(payload);
        let mut deliveries: Vec<Delivery> = Vec::new();
        let mut i: usize = 0;
        while i < self.entries.len()
            invariant
                i <= self.entries@.len(),
                deliveries@.len() == i,
                framed@ == encode(snapshot@),
                forall|j: int|
                    0 <= j < i ==> (#[trigger] deliveries@[j]).peer == self.entries@[j].peer
                        && deliveries@[j].buffer@ == framed@,
            decreases self.entries@.len() - i,
        {
            let mut buffer: Vec<u8> = Vec::new();
            buffer.extend_from_slice(framed.as_slice());
            deliveries.push(Delivery { peer: self.entries[i].peer, buffer });
            i += 1;
        }
        proof {
            lemma_names(self.entries@, recipients_of(deliveries@));
        }
        deliveries
    }

    /// One tick of the broadcast: with a snapshot, a delivery for every
    /// registered peer; without one, nothing is sent on this tick.
    pub fn tick(&self, snapshot: Option<Vec<u8>>) -> (deliveries: Vec<Delivery>)
        requires
            self.wf(),
        ensures
            snapshot.is_none() ==> deliveries@.len() == 0,
            snapshot.is_some() ==> serves(deliveries@, self@.dom(), snapshot.unwrap()@),
    {
        match snapshot {
            Some(bytes) => self.fan_out(bytes.as_slice()),
            None => Vec::new(),
        }
    }
}

} // verus!
