//! The consumers, deliveries and transaction of a Kafka client service.
//!
//! A consumer has at most one delivery outstanding; a delivery is committed,
//! released to be delivered again, or put into the transaction, which settles
//! it with everything else. The caller talks to the brokers and reports what
//! came of it.
use std::collections::BTreeMap;
use std::collections::BTreeSet;
use vstd::prelude::*;
use vstd::std_specs::iter::IteratorSpec;

use crate::ids;
use crate::kafka::Error;

verus! {

broadcast use vstd::std_specs::btree::group_btree_axioms;

/// How many consumers may be open.
pub const MAX_CONSUMERS: usize = 8;

/// How many deliveries may be outstanding.
pub const MAX_DELIVERIES: usize = 8;

/// Who asks: a protection domain, in one of its lives.
#[derive(Clone, Copy, Debug, PartialEq, Eq, Structural)]
pub struct ClientIdentity {
    pub domain: u64,
    pub generation: u64,
}

/// What the profile lets the service do.
#[derive(Clone, Copy, Debug, PartialEq, Eq, Structural)]
pub struct Grants {
    pub produce: bool,
    pub consume: bool,
    pub transaction: bool,
}

/// Who a producer is to the brokers.
#[derive(Clone, Copy, Debug, PartialEq, Eq, Structural)]
pub struct ProducerIdentity {
    pub id: i64,
    pub epoch: i16,
}

#[derive(Clone, Copy, Debug, PartialEq, Eq, Structural)]
pub struct ConsumerState {
    pub owner: ClientIdentity,
    pub fetch_offset: i64,
    pub committed_offset: i64,
    /// The delivery that is neither settled nor in a transaction.
    pub outstanding: Option<u32>,
    /// The transaction that holds the last delivery.
    pub reserved_transaction: Option<u32>,
}

#[derive(Clone, Copy, Debug, PartialEq, Eq, Structural)]
pub struct DeliveryState {
    pub owner: ClientIdentity,
    pub consumer_id: u32,
    pub offset: i64,
    pub next_offset: i64,
}

/// A delivery that its transaction settles.
#[derive(Clone, Copy, Debug, PartialEq, Eq, Structural)]
pub struct IncludedDelivery {
    pub consumer_id: u32,
    pub offset: i64,
    pub next_offset: i64,
}

#[derive(Clone, Copy, Debug, PartialEq, Eq, Structural)]
pub struct TransactionState {
    pub owner: ClientIdentity,
    /// The brokers may have heard of it.
    pub touched: bool,
    /// The brokers may have heard something that the service does not know of.
    pub reset_producer: bool,
    pub included: Option<IncludedDelivery>,
}

#[derive(Clone, Copy, Debug, PartialEq, Eq, Structural)]
pub struct Counters {
    pub requests: u32,
    pub produced: u32,
    pub consumed: u32,
    pub commits: u32,
    pub aborts: u32,
    pub backpressure: u32,
}

pub struct Service {
    grants: Grants,
    producer: ProducerIdentity,
    transactional_producer: ProducerIdentity,
    sequences: BTreeMap<u16, i32>,
    transactional_sequences: BTreeMap<u16, i32>,
    consumers: BTreeMap<u32, ConsumerState>,
    deliveries: BTreeMap<u32, DeliveryState>,
    transaction: Option<(u32, TransactionState)>,
    partitions_added: BTreeSet<u16>,
    next_id: u32,
    counters: Counters,
}

#[verifier::ext_equal]
pub struct ServiceView {
    pub grants: Grants,
    pub producer: ProducerIdentity,
    pub transactional_producer: ProducerIdentity,
    /// The sequence number of the next record of each route.
    pub sequences: Map<u16, i32>,
    pub transactional_sequences: Map<u16, i32>,
    pub consumers: Map<u32, ConsumerState>,
    pub deliveries: Map<u32, DeliveryState>,
    pub transaction: Option<(u32, TransactionState)>,
    /// The routes that the transaction's coordinator knows it writes to.
    pub partitions_added: Set<u16>,
    pub next_id: u32,
    pub counters: Counters,
}

impl View for Service {
    type V = ServiceView;

    closed spec fn view(&self) -> ServiceView {
        ServiceView {
            grants: self.grants,
            producer: self.producer,
            transactional_producer: self.transactional_producer,
            sequences: self.sequences@,
            transactional_sequences: self.transactional_sequences@,
            consumers: self.consumers@,
            deliveries: self.deliveries@,
            transaction: self.transaction,
            partitions_added: self.partitions_added@,
            next_id: self.next_id,
            counters: self.counters,
        }
    }
}

/// The number of a route's next record.
pub open spec fn sequence_of(sequences: Map<u16, i32>, route: u16) -> i32 {
    if sequences.contains_key(route) {
        sequences[route]
    } else {
        0
    }
}

impl ServiceView {
    /// Something goes by this number.
    pub open spec fn taken(self, id: u32) -> bool {
        ||| self.consumers.contains_key(id)
        ||| self.deliveries.contains_key(id)
        ||| (self.transaction matches Some((transaction, _)) && transaction == id)
    }

    /// `id` is the first number from `next_id` on that nothing goes by.
    pub open spec fn is_fresh(self, id: u32) -> bool {
        &&& id >= 1
        &&& !self.taken(id)
        &&& exists|steps: nat|
            id == #[trigger] ids::candidate(ids::first_candidate(self.next_id as u64), steps)
                && forall|earlier: nat|
                earlier < steps ==> self.taken(
                    #[trigger] ids::candidate(
                        ids::first_candidate(self.next_id as u64),
                        earlier,
                    ) as u32,
                )
    }

    /// The number to start from after `id` was handed out.
    pub open spec fn id_after(id: u32) -> u32 {
        ids::successor(id as u64) as u32
    }

    pub open spec fn owns_consumer(self, owner: ClientIdentity, id: u32) -> bool {
        self.consumers.contains_key(id) && self.consumers[id].owner == owner
    }

    pub open spec fn owns_delivery(self, owner: ClientIdentity, id: u32) -> bool {
        self.deliveries.contains_key(id) && self.deliveries[id].owner == owner
    }

    pub open spec fn owns_transaction(self, owner: ClientIdentity, id: u32) -> bool {
        self.transaction matches Some((transaction, state)) && transaction == id && state.owner
            == owner
    }

    /// The consumer may be given a delivery.
    pub open spec fn is_idle(self, id: u32) -> bool {
        self.consumers[id].outstanding is None && self.consumers[id].reserved_transaction is None
    }

    /// Every delivery is outstanding at its consumer, and the transaction
    /// holds the delivery of the consumer that it reserves.
    pub open spec fn consistent(self) -> bool {
        &&& self.consumers.dom().finite() && self.consumers.dom().len() <= MAX_CONSUMERS
        &&& self.deliveries.dom().finite() && self.deliveries.dom().len() <= MAX_DELIVERIES
        &&& forall|c: u32| #[trigger]
            self.consumers.contains_key(c) ==> c >= 1 && match self.consumers[c].outstanding {
                Some(d) => self.deliveries.contains_key(d) && self.deliveries[d].consumer_id == c
                    && self.consumers[c].reserved_transaction is None,
                None => true,
            }
        &&& forall|d: u32| #[trigger]
            self.deliveries.contains_key(d) ==> {
                let delivery = self.deliveries[d];
                let consumer = self.consumers[delivery.consumer_id];
                &&& d >= 1
                &&& self.consumers.contains_key(delivery.consumer_id)
                &&& consumer.outstanding == Some(d)
                &&& consumer.owner == delivery.owner
                &&& consumer.fetch_offset == delivery.next_offset
                &&& delivery.next_offset == delivery.offset + 1
                &&& !self.consumers.contains_key(d)
            }
        &&& forall|c: u32| #[trigger]
            self.consumers.contains_key(c) ==> match self.consumers[c].reserved_transaction {
                Some(t) => self.transaction matches Some((transaction, state)) && transaction == t
                    && (state.included matches Some(included) && included.consumer_id == c),
                None => true,
            }
        &&& match self.transaction {
            Some((transaction, state)) => {
                &&& transaction >= 1
                &&& !self.consumers.contains_key(transaction)
                &&& !self.deliveries.contains_key(transaction)
                &&& match state.included {
                    Some(included) => {
                        let consumer = self.consumers[included.consumer_id];
                        &&& self.consumers.contains_key(included.consumer_id)
                        &&& consumer.reserved_transaction == Some(transaction)
                        &&& consumer.owner == state.owner
                        &&& consumer.fetch_offset == included.next_offset
                        &&& included.next_offset == included.offset + 1
                        &&& state.touched
                    },
                    None => true,
                }
            },
            None => true,
        }
    }
}

/// A service that has done nothing.
pub open spec fn initial(
    grants: Grants,
    producer: ProducerIdentity,
    transactional_producer: ProducerIdentity,
) -> ServiceView {
    ServiceView {
        grants,
        producer,
        transactional_producer,
        sequences: Map::empty(),
        transactional_sequences: Map::empty(),
        consumers: Map::empty(),
        deliveries: Map::empty(),
        transaction: None,
        partitions_added: Set::empty(),
        next_id: 1,
        counters: Counters {
            requests: 0,
            produced: 0,
            consumed: 0,
            commits: 0,
            aborts: 0,
            backpressure: 0,
        },
    }
}

/// Append the keys of a map.
fn push_keys<V>(map: &BTreeMap<u32, V>, out: &mut Vec<u64>)
    requires
        old(out)@.len() <= 100,
        map@.dom().len() <= 100,
    ensures
        final(out)@.len() == old(out)@.len() + map@.dom().len(),
        forall|x: u64| #[trigger]
            final(out)@.contains(x) <==> old(out)@.contains(x) || (x <= u32::MAX
                && map@.contains_key(x as u32)),
{
    let ghost before = out@;
    let ghost keys = map.keys().remaining();
    for key in iter: map.keys()
        invariant
            iter.seq() == keys,
            out@.len() == before.len() + iter.index(),
            forall|i: int| 0 <= i < before.len() ==> out@[i] == before[i],
            forall|i: int|
                before.len() <= i < out@.len() ==> #[trigger] out@[i] == *keys[i - before.len()],
    {
        out.push(*key as u64);
    }
    proof {
        assert(keys.len() == map@.dom().len());
        assert forall|x: u64| #[trigger] out@.contains(x) implies before.contains(x) || (x
            <= u32::MAX && map@.contains_key(x as u32)) by {
            let i = choose|i: int| 0 <= i < out@.len() && out@[i] == x;
            if i < before.len() {
                assert(before[i] == x);
            } else {
                assert(keys.unref()[i - before.len()] == *keys[i - before.len()]);
                assert(keys.unref().to_set().contains(*keys[i - before.len()]));
            }
        }
        assert forall|x: u64|
            before.contains(x) || (x <= u32::MAX && map@.contains_key(
                x as u32,
            )) implies #[trigger] out@.contains(x) by {
            if before.contains(x) {
                let i = choose|i: int| 0 <= i < before.len() && before[i] == x;
                assert(out@[i] == x);
            } else {
                assert(keys.unref().to_set().contains(x as u32));
                let i = choose|i: int| 0 <= i < keys.unref().len() && keys.unref()[i] == x as u32;
                assert(out@[before.len() + i] == *keys[i]);
            }
        }
    }
}

impl Service {
    pub fn new(
        grants: Grants,
        producer: ProducerIdentity,
        transactional_producer: ProducerIdentity,
    ) -> (service: Service)
        ensures
            service@ == initial(grants, producer, transactional_producer),
            service@.consistent(),
    {
        Service {
            grants,
            producer,
            transactional_producer,
            sequences: BTreeMap::new(),
            transactional_sequences: BTreeMap::new(),
            consumers: BTreeMap::new(),
            deliveries: BTreeMap::new(),
            transaction: None,
            partitions_added: BTreeSet::new(),
            next_id: 1,
            counters: Counters {
                requests: 0,
                produced: 0,
                consumed: 0,
                commits: 0,
                aborts: 0,
                backpressure: 0,
            },
        }
    }

    /// Take a number that nothing goes by.
    fn id(&mut self) -> (id: u32)
        requires
            old(self)@.consistent(),
        ensures
            old(self)@.is_fresh(id),
            final(self)@ == (ServiceView { next_id: ServiceView::id_after(id), ..old(self)@ }),
    {
        let ghost before = self@;
        let mut used: Vec<u64> = Vec::new();
        push_keys(&self.consumers, &mut used);
        push_keys(&self.deliveries, &mut used);
        match self.transaction {
            Some((transaction, _)) => {
                let ghost some = used@;
                used.push(transaction as u64);
                proof {
                    assert forall|x: u64| #[trigger]
                        used@.contains(x) <==> some.contains(x) || x == transaction by {
                        if some.contains(x) {
                            let i = choose|i: int| 0 <= i < some.len() && some[i] == x;
                            assert(used@[i] == x);
                        }
                        assert(used@[some.len() as int] == transaction);
                    }
                }
            },
            None => {},
        }
        assert forall|x: u64| #[trigger] used@.contains(x) <==> x <= u32::MAX && before.taken(
            x as u32,
        ) by {}
        let id: u64 = ids::next_free(self.next_id as u64, used.as_slice());
        proof {
            let start = ids::first_candidate(before.next_id as u64);
            let steps = choose|steps: nat|
                id == #[trigger] ids::candidate(start, steps) && forall|earlier: nat|
                    earlier < steps ==> used@.contains(#[trigger] ids::candidate(start, earlier));
            assert forall|earlier: nat| earlier < steps implies before.taken(
                #[trigger] ids::candidate(start, earlier) as u32,
            ) by {
                assert(used@.contains(ids::candidate(start, earlier)));
            }
            assert(id == ids::candidate(start, steps));
            assert(!used@.contains(id));
        }
        self.next_id = ids::after(id) as u32;
        id as u32
    }
}


/// A record that was fetched, with the length of its encoding for a client.
#[derive(Clone, Copy, Debug, PartialEq, Eq)]
pub struct Fetched {
    pub offset: i64,
    pub encoded_len: usize,
}

/// `index` is the first record at `offset` or behind it.
pub open spec fn is_first_at(records: Seq<Fetched>, offset: i64, index: int) -> bool {
    &&& 0 <= index < records.len()
    &&& records[index].offset >= offset
    &&& forall|i: int| 0 <= i < index ==> (#[trigger] records[i]).offset < offset
}

/// No record is at `offset` or behind it.
pub open spec fn none_at(records: Seq<Fetched>, offset: i64) -> bool {
    forall|i: int| 0 <= i < records.len() ==> (#[trigger] records[i]).offset < offset
}

/// Where a consumer that is polled fetches from, or why it does not.
pub open spec fn poll_admission(service: ServiceView, owner: ClientIdentity, id: u32) -> Result<
    i64,
    Error,
> {
    if !service.owns_consumer(owner, id) {
        Err(Error::Invalid)
    } else if !service.is_idle(id) || service.deliveries.dom().len() >= MAX_DELIVERIES {
        Err(Error::Busy)
    } else {
        Ok(service.consumers[id].fetch_offset)
    }
}

/// The service after a record was delivered.
pub open spec fn delivered(service: ServiceView, consumer_id: u32, offset: i64, id: u32) -> ServiceView {
    let consumer = service.consumers[consumer_id];
    let next_offset = (offset + 1) as i64;
    ServiceView {
        next_id: ServiceView::id_after(id),
        deliveries: service.deliveries.insert(
            id,
            DeliveryState { owner: consumer.owner, consumer_id, offset, next_offset },
        ),
        consumers: service.consumers.insert(
            consumer_id,
            ConsumerState { fetch_offset: next_offset, outstanding: Some(id), ..consumer },
        ),
        counters: Counters {
            consumed: service.counters.consumed.wrapping_add(1),
            ..service.counters
        },
        ..service
    }
}

/// Whether a consumer may be opened.
pub open spec fn opening(service: ServiceView) -> Result<(), Error> {
    if !service.grants.consume {
        Err(Error::Denied)
    } else if service.consumers.dom().len() >= MAX_CONSUMERS {
        Err(Error::Busy)
    } else {
        Ok(())
    }
}

/// The service once a consumer was opened: it goes on behind what its group has
/// committed, or starts with the earliest record.
pub open spec fn consumer_opened(
    service: ServiceView,
    owner: ClientIdentity,
    committed_offset: Option<i64>,
    earliest_offset: i64,
    id: u32,
) -> ServiceView {
    let offset = match committed_offset {
        Some(offset) => offset,
        None => earliest_offset,
    };
    ServiceView {
        next_id: ServiceView::id_after(id),
        consumers: service.consumers.insert(
            id,
            ConsumerState {
                owner,
                fetch_offset: offset,
                committed_offset: offset,
                outstanding: None,
                reserved_transaction: None,
            },
        ),
        ..service
    }
}

/// The service once a transaction was begun.
pub open spec fn transaction_begun(
    service: ServiceView,
    owner: ClientIdentity,
    id: u32,
) -> ServiceView {
    ServiceView {
        next_id: ServiceView::id_after(id),
        transaction: Some(
            (
                id,
                TransactionState {
                    owner,
                    touched: false,
                    reset_producer: false,
                    included: None,
                },
            ),
        ),
        partitions_added: Set::empty(),
        ..service
    }
}

/// Whether a delivery may go into the transaction.
pub open spec fn inclusion(
    service: ServiceView,
    owner: ClientIdentity,
    transaction_id: u32,
    delivery_id: u32,
) -> Result<(), Error> {
    if !service.owns_transaction(owner, transaction_id) {
        Err(Error::Invalid)
    } else if (service.transaction->0).1.included is Some {
        Err(Error::Busy)
    } else if !service.owns_delivery(owner, delivery_id) {
        Err(Error::Invalid)
    } else {
        Ok(())
    }
}

/// Whether a consumer may be closed.
pub open spec fn closing(
    service: ServiceView,
    owner: ClientIdentity,
    consumer_id: u32,
) -> Result<(), Error> {
    if !service.owns_consumer(owner, consumer_id) {
        Err(Error::Invalid)
    } else if service.consumers[consumer_id].reserved_transaction is Some {
        Err(Error::Busy)
    } else {
        Ok(())
    }
}

/// The service after a delivery was given back.
pub open spec fn released(service: ServiceView, id: u32) -> ServiceView {
    let delivery = service.deliveries[id];
    let consumer = service.consumers[delivery.consumer_id];
    ServiceView {
        deliveries: service.deliveries.remove(id),
        consumers: service.consumers.insert(
            delivery.consumer_id,
            ConsumerState { outstanding: None, fetch_offset: delivery.offset, ..consumer },
        ),
        ..service
    }
}

/// The service after a delivery's offset was committed.
pub open spec fn committed(service: ServiceView, id: u32) -> ServiceView {
    let delivery = service.deliveries[id];
    let consumer = service.consumers[delivery.consumer_id];
    ServiceView {
        deliveries: service.deliveries.remove(id),
        consumers: service.consumers.insert(
            delivery.consumer_id,
            ConsumerState {
                outstanding: None,
                committed_offset: delivery.next_offset,
                ..consumer
            },
        ),
        counters: Counters {
            commits: service.counters.commits.wrapping_add(1),
            ..service.counters
        },
        ..service
    }
}

/// The service after a consumer was closed.
pub open spec fn closed_consumer(service: ServiceView, id: u32) -> ServiceView {
    ServiceView {
        deliveries: match service.consumers[id].outstanding {
            Some(delivery) => service.deliveries.remove(delivery),
            None => service.deliveries,
        },
        consumers: service.consumers.remove(id),
        ..service
    }
}

/// The service after a delivery was put into the transaction.
pub open spec fn included(service: ServiceView, id: u32) -> ServiceView {
    let delivery = service.deliveries[id];
    let consumer = service.consumers[delivery.consumer_id];
    let transaction = service.transaction->0;
    ServiceView {
        deliveries: service.deliveries.remove(id),
        consumers: service.consumers.insert(
            delivery.consumer_id,
            ConsumerState {
                outstanding: None,
                reserved_transaction: Some(transaction.0),
                ..consumer
            },
        ),
        transaction: Some(
            (
                transaction.0,
                TransactionState {
                    touched: true,
                    included: Some(
                        IncludedDelivery {
                            consumer_id: delivery.consumer_id,
                            offset: delivery.offset,
                            next_offset: delivery.next_offset,
                        },
                    ),
                    ..transaction.1
                },
            ),
        ),
        ..service
    }
}

impl Service {
    /// Whether a consumer may be opened.
    pub fn may_open_consumer(&self) -> (result: Result<(), Error>)
        requires
            self@.consistent(),
        ensures
            result == opening(self@),
    {
        if !self.grants.consume {
            Err(Error::Denied)
        } else if self.consumers.len() >= MAX_CONSUMERS {
            Err(Error::Busy)
        } else {
            Ok(())
        }
    }

    /// Open a consumer at the group's committed offset, or at the earliest one
    /// if there is none. Both offsets are fetched before.
    pub fn open_consumer(
        &mut self,
        owner: ClientIdentity,
        committed_offset: Result<Option<i64>, Error>,
        earliest_offset: Result<i64, Error>,
    ) -> (result: Result<u32, Error>)
        requires
            old(self)@.consistent(),
        ensures
            final(self)@.consistent(),
            !old(self)@.grants.consume ==> result == Err::<u32, Error>(Error::Denied),
            old(self)@.grants.consume && old(self)@.consumers.dom().len() >= MAX_CONSUMERS
                ==> result == Err::<u32, Error>(Error::Busy),
            old(self)@.grants.consume && old(self)@.consumers.dom().len() < MAX_CONSUMERS ==> match (
            committed_offset,
            earliest_offset) {
                (Err(error), _) => result == Err::<u32, Error>(error),
                (Ok(_), Err(error)) => result == Err::<u32, Error>(error),
                (Ok(committed_offset), Ok(earliest_offset)) => {
                    &&& result matches Ok(id)
                    &&& old(self)@.is_fresh(id)
                    &&& final(self)@ == consumer_opened(
                        old(self)@,
                        owner,
                        committed_offset,
                        earliest_offset,
                        id,
                    )
                },
            },
            result is Err ==> final(self)@ == old(self)@,
    {
        match self.may_open_consumer() {
            Err(error) => return Err(error),
            Ok(_) => {},
        }
        let known: Option<i64> = match committed_offset {
            Ok(known) => known,
            Err(error) => return Err(error),
        };
        let earliest: i64 = match earliest_offset {
            Ok(earliest) => earliest,
            Err(error) => return Err(error),
        };
        let offset: i64 = match known {
            Some(offset) => offset,
            None => earliest,
        };
        let id: u32 = self.id();
        self.consumers.insert(
            id,
            ConsumerState {
                owner,
                fetch_offset: offset,
                committed_offset: offset,
                outstanding: None,
                reserved_transaction: None,
            },
        );
        Ok(id)
    }

    /// Where to fetch from for a consumer that is polled. A consumer that has
    /// an unsettled delivery is held back, and that is counted.
    pub fn poll_offset(&mut self, owner: ClientIdentity, consumer_id: u32) -> (result: Result<
        i64,
        Error,
    >)
        requires
            old(self)@.consistent(),
        ensures
            final(self)@.consistent(),
            result == poll_admission(old(self)@, owner, consumer_id),
            final(self)@ == if result == Err::<i64, Error>(Error::Busy) {
                ServiceView {
                    counters: Counters {
                        backpressure: old(self)@.counters.backpressure.wrapping_add(1),
                        ..old(self)@.counters
                    },
                    ..old(self)@
                }
            } else {
                old(self)@
            },
    {
        match self.consumers.get(&consumer_id) {
            None => Err(Error::Invalid),
            Some(consumer) => {
                let consumer: ConsumerState = *consumer;
                if consumer.owner != owner {
                    return Err(Error::Invalid);
                }
                if consumer.outstanding.is_some() || consumer.reserved_transaction.is_some()
                    || self.deliveries.len() >= MAX_DELIVERIES {
                    self.counters.backpressure = self.counters.backpressure.wrapping_add(1);
                    return Err(Error::Busy);
                }
                Ok(consumer.fetch_offset)
            },
        }
    }

    /// Deliver the first record at the consumer's offset or behind it, if one
    /// was fetched: the delivery's number and the record's place.
    pub fn poll_consumer(
        &mut self,
        owner: ClientIdentity,
        consumer_id: u32,
        records: &[Fetched],
        max_record_bytes: usize,
    ) -> (result: Result<Option<(u32, usize)>, Error>)
        requires
            old(self)@.consistent(),
            poll_admission(old(self)@, owner, consumer_id) is Ok,
        ensures
            final(self)@.consistent(),
            ({
                let offset = old(self)@.consumers[consumer_id].fetch_offset;
                match result {
                    Ok(None) => none_at(records@, offset) && final(self)@ == old(self)@,
                    Ok(Some((id, index))) => {
                        &&& is_first_at(records@, offset, index as int)
                        &&& records@[index as int].encoded_len <= max_record_bytes
                        &&& records@[index as int].offset < i64::MAX
                        &&& old(self)@.is_fresh(id)
                        &&& final(self)@ == delivered(
                            old(self)@,
                            consumer_id,
                            records@[index as int].offset,
                            id,
                        )
                    },
                    Err(Error::TooLarge) => {
                        &&& exists|index: int|
                            #[trigger] is_first_at(records@, offset, index)
                                && records@[index].encoded_len > max_record_bytes
                        &&& final(self)@ == old(self)@
                    },
                    Err(error) => {
                        &&& error == Error::Protocol
                        &&& exists|index: int|
                            #[trigger] is_first_at(records@, offset, index)
                                && records@[index].encoded_len <= max_record_bytes
                                && records@[index].offset == i64::MAX
                        &&& exists|id: u32|
                            #[trigger] old(self)@.is_fresh(id) && final(self)@ == (ServiceView {
                                next_id: ServiceView::id_after(id),
                                ..old(self)@
                            })
                    },
                }
            }),
    {
        let ghost before = self@;
        let consumer: ConsumerState = match self.consumers.get(&consumer_id) {
            Some(consumer) => *consumer,
            None => {
                assert(false);
                return Err(Error::Invalid);
            },
        };
        let offset: i64 = consumer.fetch_offset;
        let mut index: usize = 0;
        while index < records.len() && records[index].offset < offset
            invariant
                index <= records@.len(),
                forall|i: int| 0 <= i < index ==> (#[trigger] records@[i]).offset < offset,
            decreases records@.len() - index,
        {
            index += 1;
        }
        if index == records.len() {
            return Ok(None);
        }
        let record: Fetched = records[index];
        assert(is_first_at(records@, offset, index as int));
        if record.encoded_len > max_record_bytes {
            return Err(Error::TooLarge);
        }
        let id: u32 = self.id();
        if record.offset == i64::MAX {
            assert(before.is_fresh(id));
            return Err(Error::Protocol);
        }
        let next_offset: i64 = record.offset + 1;
        self.deliveries.insert(
            id,
            DeliveryState { owner, consumer_id, offset: record.offset, next_offset },
        );
        self.consumers.insert(
            consumer_id,
            ConsumerState { fetch_offset: next_offset, outstanding: Some(id), ..consumer },
        );
        self.counters.consumed = self.counters.consumed.wrapping_add(1);
        proof {
            assert(self@ =~= delivered(before, consumer_id, record.offset, id));
        }
        Ok(Some((id, index)))
    }

    /// Give a delivery back: its consumer will be given the record again.
    pub fn release_delivery(&mut self, owner: ClientIdentity, delivery_id: u32) -> (result: Result<
        (),
        Error,
    >)
        requires
            old(self)@.consistent(),
        ensures
            final(self)@.consistent(),
            result == if old(self)@.owns_delivery(owner, delivery_id) {
                Ok::<(), Error>(())
            } else {
                Err(Error::Invalid)
            },
            final(self)@ == if result is Ok {
                released(old(self)@, delivery_id)
            } else {
                old(self)@
            },
    {
        let ghost before = self@;
        let delivery: DeliveryState = match self.deliveries.get(&delivery_id) {
            Some(delivery) => *delivery,
            None => return Err(Error::Invalid),
        };
        if delivery.owner != owner {
            return Err(Error::Invalid);
        }
        let consumer: ConsumerState = match self.consumers.get(&delivery.consumer_id) {
            Some(consumer) => *consumer,
            None => {
                assert(false);
                return Err(Error::Invalid);
            },
        };
        self.deliveries.remove(&delivery_id);
        self.consumers.insert(
            delivery.consumer_id,
            ConsumerState { outstanding: None, fetch_offset: delivery.offset, ..consumer },
        );
        assert(self@ =~= released(before, delivery_id));
        Ok(())
    }

    /// The offset to commit for a delivery.
    pub fn commit_offset(&self, owner: ClientIdentity, delivery_id: u32) -> (offset: Result<
        i64,
        Error,
    >)
        ensures
            offset == if self@.owns_delivery(owner, delivery_id) {
                Ok::<i64, Error>(self@.deliveries[delivery_id].next_offset)
            } else {
                Err(Error::Invalid)
            },
    {
        match self.deliveries.get(&delivery_id) {
            Some(delivery) => if delivery.owner == owner {
                Ok(delivery.next_offset)
            } else {
                Err(Error::Invalid)
            },
            None => Err(Error::Invalid),
        }
    }

    /// Settle a delivery whose offset was committed, or could not be.
    pub fn commit_delivery(
        &mut self,
        owner: ClientIdentity,
        delivery_id: u32,
        outcome: Result<(), Error>,
    ) -> (result: Result<(), Error>)
        requires
            old(self)@.consistent(),
        ensures
            final(self)@.consistent(),
            result == if old(self)@.owns_delivery(owner, delivery_id) {
                outcome
            } else {
                Err::<(), Error>(Error::Invalid)
            },
            final(self)@ == if result is Ok {
                committed(old(self)@, delivery_id)
            } else {
                old(self)@
            },
    {
        let ghost before = self@;
        let delivery: DeliveryState = match self.deliveries.get(&delivery_id) {
            Some(delivery) => *delivery,
            None => return Err(Error::Invalid),
        };
        if delivery.owner != owner {
            return Err(Error::Invalid);
        }
        match outcome {
            Err(error) => return Err(error),
            Ok(_) => {},
        }
        let consumer: ConsumerState = match self.consumers.get(&delivery.consumer_id) {
            Some(consumer) => *consumer,
            None => {
                assert(false);
                return Err(Error::Invalid);
            },
        };
        self.deliveries.remove(&delivery_id);
        self.consumers.insert(
            delivery.consumer_id,
            ConsumerState {
                outstanding: None,
                committed_offset: delivery.next_offset,
                ..consumer
            },
        );
        self.counters.commits = self.counters.commits.wrapping_add(1);
        assert(self@ =~= committed(before, delivery_id));
        outcome
    }

    /// Close a consumer, and forget its delivery.
    pub fn close_consumer(&mut self, owner: ClientIdentity, consumer_id: u32) -> (result: Result<
        (),
        Error,
    >)
        requires
            old(self)@.consistent(),
        ensures
            final(self)@.consistent(),
            result == closing(old(self)@, owner, consumer_id),
            final(self)@ == if result is Ok {
                closed_consumer(old(self)@, consumer_id)
            } else {
                old(self)@
            },
    {
        let ghost before = self@;
        let consumer: ConsumerState = match self.consumers.get(&consumer_id) {
            Some(consumer) => *consumer,
            None => return Err(Error::Invalid),
        };
        if consumer.owner != owner {
            return Err(Error::Invalid);
        }
        if consumer.reserved_transaction.is_some() {
            return Err(Error::Busy);
        }
        match consumer.outstanding {
            Some(delivery) => {
                self.deliveries.remove(&delivery);
            },
            None => {},
        }
        self.consumers.remove(&consumer_id);
        assert(self@ =~= closed_consumer(before, consumer_id));
        Ok(())
    }

    /// Begin a transaction.
    pub fn begin_transaction(&mut self, owner: ClientIdentity) -> (result: Result<u32, Error>)
        requires
            old(self)@.consistent(),
        ensures
            final(self)@.consistent(),
            match result {
                Ok(id) => {
                    &&& old(self)@.grants.transaction
                    &&& old(self)@.transaction is None
                    &&& old(self)@.is_fresh(id)
                    &&& final(self)@ == transaction_begun(old(self)@, owner, id)
                },
                Err(error) => {
                    &&& error == if old(self)@.grants.transaction {
                        Error::Busy
                    } else {
                        Error::Denied
                    }
                    &&& !old(self)@.grants.transaction || old(self)@.transaction is Some
                    &&& final(self)@ == old(self)@
                },
            },
    {
        if !self.grants.transaction {
            return Err(Error::Denied);
        }
        if self.transaction.is_some() {
            return Err(Error::Busy);
        }
        let id: u32 = self.id();
        self.transaction = Some(
            (
                id,
                TransactionState { owner, touched: false, reset_producer: false, included: None },
            ),
        );
        self.partitions_added = BTreeSet::new();
        Ok(id)
    }

    /// Put a delivery into the transaction, which then settles it.
    pub fn include_delivery(
        &mut self,
        owner: ClientIdentity,
        transaction_id: u32,
        delivery_id: u32,
    ) -> (result: Result<(), Error>)
        requires
            old(self)@.consistent(),
        ensures
            final(self)@.consistent(),
            result == inclusion(old(self)@, owner, transaction_id, delivery_id),
            final(self)@ == if result is Ok {
                included(old(self)@, delivery_id)
            } else {
                old(self)@
            },
    {
        let ghost before = self@;
        let (id, transaction): (u32, TransactionState) = match self.transaction {
            Some((id, transaction)) => (id, transaction),
            None => return Err(Error::Invalid),
        };
        if id != transaction_id || transaction.owner != owner {
            return Err(Error::Invalid);
        }
        if transaction.included.is_some() {
            return Err(Error::Busy);
        }
        let delivery: DeliveryState = match self.deliveries.get(&delivery_id) {
            Some(delivery) => *delivery,
            None => return Err(Error::Invalid),
        };
        if delivery.owner != owner {
            return Err(Error::Invalid);
        }
        let consumer: ConsumerState = match self.consumers.get(&delivery.consumer_id) {
            Some(consumer) => *consumer,
            None => {
                assert(false);
                return Err(Error::Invalid);
            },
        };
        self.deliveries.remove(&delivery_id);
        self.consumers.insert(
            delivery.consumer_id,
            ConsumerState {
                outstanding: None,
                reserved_transaction: Some(transaction_id),
                ..consumer
            },
        );
        self.transaction = Some(
            (
                id,
                TransactionState {
                    touched: true,
                    included: Some(
                        IncludedDelivery {
                            consumer_id: delivery.consumer_id,
                            offset: delivery.offset,
                            next_offset: delivery.next_offset,
                        },
                    ),
                    ..transaction
                },
            ),
        );
        assert(self@ =~= included(before, delivery_id));
        Ok(())
    }
}


/// The sequence numbers after a record of a route was written, if the route
/// has a number left for the next one.
pub open spec fn after_record(sequences: Map<u16, i32>, route: u16) -> Option<Map<u16, i32>> {
    let sequence = sequence_of(sequences, route);
    if sequence == i32::MAX {
        None
    } else {
        Some(sequences.insert(route, (sequence + 1) as i32))
    }
}

/// What to do next to write a record in a transaction.
#[derive(Clone, Copy, Debug, PartialEq, Eq, Structural)]
pub enum TransactionWrite {
    /// Tell the transaction's coordinator about the route.
    AddPartition,
    /// Write the record under this sequence number.
    Produce { sequence: i32 },
}

/// What has to be done next to write into a transaction: a route is announced to
/// the coordinator before its first record.
pub open spec fn transaction_step(
    service: ServiceView,
    owner: ClientIdentity,
    transaction_id: u32,
    route: u16,
) -> Result<TransactionWrite, Error> {
    if !service.grants.produce {
        Err(Error::Denied)
    } else if !service.owns_transaction(owner, transaction_id) {
        Err(Error::Invalid)
    } else if !service.partitions_added.contains(route) {
        Ok(TransactionWrite::AddPartition)
    } else {
        Ok(
            TransactionWrite::Produce {
                sequence: sequence_of(service.transactional_sequences, route),
            },
        )
    }
}

/// The service after a broker may have heard something that was not
/// acknowledged: the transaction's producer is to be replaced.
pub open spec fn unacknowledged(service: ServiceView) -> ServiceView {
    let transaction = service.transaction->0;
    ServiceView {
        transaction: Some(
            (
                transaction.0,
                TransactionState { touched: true, reset_producer: true, ..transaction.1 },
            ),
        ),
        ..service
    }
}

/// The outcome of writing a record in the transaction.
pub open spec fn transaction_written(
    service: ServiceView,
    route: u16,
    outcome: Result<i64, Error>,
) -> (Result<i64, Error>, ServiceView) {
    let transaction = service.transaction->0;
    match outcome {
        Err(error) => (Err(error), unacknowledged(service)),
        Ok(offset) => match after_record(service.transactional_sequences, route) {
            None => (Err(Error::Fenced), service),
            Some(sequences) => (
                Ok(offset),
                ServiceView {
                    transactional_sequences: sequences,
                    transaction: Some(
                        (transaction.0, TransactionState { touched: true, ..transaction.1 }),
                    ),
                    counters: Counters {
                        produced: service.counters.produced.wrapping_add(1),
                        ..service.counters
                    },
                    ..service
                },
            ),
        },
    }
}

/// The outcome of writing a record outside transactions.
pub open spec fn written(
    service: ServiceView,
    route: u16,
    outcome: Result<i64, Error>,
) -> (Result<i64, Error>, ServiceView) {
    match outcome {
        Err(error) => (Err(error), service),
        Ok(offset) => match after_record(service.sequences, route) {
            None => (Err(Error::Fenced), service),
            Some(sequences) => (
                Ok(offset),
                ServiceView {
                    sequences,
                    counters: Counters {
                        produced: service.counters.produced.wrapping_add(1),
                        ..service.counters
                    },
                    ..service
                },
            ),
        },
    }
}

fn current_sequence(sequences: &BTreeMap<u16, i32>, route: u16) -> (sequence: i32)
    ensures
        sequence == sequence_of(sequences@, route),
{
    match sequences.get(&route) {
        Some(sequence) => *sequence,
        None => 0,
    }
}

impl Service {
    /// The sequence number to write a record of a route under.
    pub fn produce_sequence(&self, route: u16) -> (sequence: Result<i32, Error>)
        ensures
            sequence == if self@.grants.produce {
                Ok::<i32, Error>(sequence_of(self@.sequences, route))
            } else {
                Err(Error::Denied)
            },
    {
        if self.grants.produce {
            Ok(current_sequence(&self.sequences, route))
        } else {
            Err(Error::Denied)
        }
    }

    /// A record was written, or was not: its offset.
    pub fn produced(&mut self, route: u16, outcome: Result<i64, Error>) -> (result: Result<
        i64,
        Error,
    >)
        requires
            old(self)@.consistent(),
        ensures
            final(self)@.consistent(),
            (result, final(self)@) == written(old(self)@, route, outcome),
    {
        match outcome {
            Err(error) => Err(error),
            Ok(offset) => {
                let sequence: i32 = current_sequence(&self.sequences, route);
                if sequence == i32::MAX {
                    return Err(Error::Fenced);
                }
                self.sequences.insert(route, sequence + 1);
                self.counters.produced = self.counters.produced.wrapping_add(1);
                Ok(offset)
            },
        }
    }

    /// How to write a record in a transaction.
    pub fn transaction_produce(&self, owner: ClientIdentity, transaction_id: u32, route: u16) -> (step:
        Result<TransactionWrite, Error>)
        ensures
            step == transaction_step(self@, owner, transaction_id, route),
    {
        if !self.grants.produce {
            return Err(Error::Denied);
        }
        match self.transaction {
            None => Err(Error::Invalid),
            Some((id, transaction)) => {
                if id != transaction_id || transaction.owner != owner {
                    return Err(Error::Invalid);
                }
                if !self.partitions_added.contains(&route) {
                    return Ok(TransactionWrite::AddPartition);
                }
                Ok(
                    TransactionWrite::Produce {
                        sequence: current_sequence(&self.transactional_sequences, route),
                    },
                )
            },
        }
    }

    /// The transaction's coordinator was told about a route, or was not: the
    /// sequence number to write the record under. A reply that was lost may
    /// have been an acceptance.
    pub fn partition_added(&mut self, route: u16, outcome: Result<(), Error>) -> (result: Result<
        i32,
        Error,
    >)
        requires
            old(self)@.consistent(),
            old(self)@.transaction is Some,
        ensures
            final(self)@.consistent(),
            match outcome {
                Err(error) => result == Err::<i32, Error>(error) && final(self)@ == unacknowledged(
                    old(self)@,
                ),
                Ok(_) => result == Ok::<i32, Error>(
                    sequence_of(old(self)@.transactional_sequences, route),
                ) && final(self)@ == (ServiceView {
                    partitions_added: old(self)@.partitions_added.insert(route),
                    ..old(self)@
                }),
            },
    {
        match outcome {
            Err(error) => {
                self.lose_acknowledgement();
                Err(error)
            },
            Ok(_) => {
                self.partitions_added.insert(route);
                Ok(current_sequence(&self.transactional_sequences, route))
            },
        }
    }

    fn lose_acknowledgement(&mut self)
        requires
            old(self)@.consistent(),
            old(self)@.transaction is Some,
        ensures
            final(self)@.consistent(),
            final(self)@ == unacknowledged(old(self)@),
    {
        match self.transaction {
            Some((id, transaction)) => {
                self.transaction = Some(
                    (id, TransactionState { touched: true, reset_producer: true, ..transaction }),
                );
            },
            None => {},
        }
    }

    /// A record was written in the transaction, or was not: its offset.
    pub fn transaction_produced(&mut self, route: u16, outcome: Result<i64, Error>) -> (result:
        Result<i64, Error>)
        requires
            old(self)@.consistent(),
            old(self)@.transaction is Some,
        ensures
            final(self)@.consistent(),
            (result, final(self)@) == transaction_written(old(self)@, route, outcome),
    {
        match outcome {
            Err(error) => {
                self.lose_acknowledgement();
                Err(error)
            },
            Ok(offset) => {
                let sequence: i32 = current_sequence(&self.transactional_sequences, route);
                if sequence == i32::MAX {
                    return Err(Error::Fenced);
                }
                self.transactional_sequences.insert(route, sequence + 1);
                match self.transaction {
                    Some((id, transaction)) => {
                        self.transaction = Some(
                            (id, TransactionState { touched: true, ..transaction }),
                        );
                    },
                    None => {},
                }
                self.counters.produced = self.counters.produced.wrapping_add(1);
                Ok(offset)
            },
        }
    }

    /// A request was answered.
    pub fn account(&mut self)
        requires
            old(self)@.consistent(),
        ensures
            final(self)@.consistent(),
            final(self)@ == (ServiceView {
                counters: Counters {
                    requests: old(self)@.counters.requests.wrapping_add(1),
                    ..old(self)@.counters
                },
                ..old(self)@
            }),
    {
        self.counters.requests = self.counters.requests.wrapping_add(1);
    }

    /// What the service has done.
    pub fn counters(&self) -> (counters: Counters)
        ensures
            counters == self@.counters,
    {
        self.counters
    }

    /// The identities that records are written under: outside transactions,
    /// and in one.
    pub fn producers(&self) -> (producers: (ProducerIdentity, ProducerIdentity))
        ensures
            producers == (self@.producer, self@.transactional_producer),
    {
        (self.producer, self.transactional_producer)
    }
}

/// How far the end of a transaction is.
#[derive(Clone, Copy, Debug, PartialEq, Eq, Structural)]
pub enum FinishStage {
    /// The included delivery's offset is being added.
    AddingOffset,
    /// The coordinator is being asked for what the client wants.
    Ending,
    /// After a failure, the coordinator is being asked to abort.
    Aborting,
    /// The producer is being replaced.
    Resetting,
    Done,
}

/// The end of a transaction.
#[derive(Clone, Copy, Debug, PartialEq, Eq, Structural)]
pub struct Finish {
    pub stage: FinishStage,
    pub commit: bool,
    pub touched: bool,
    pub reset_producer: bool,
    pub included: Option<IncludedDelivery>,
    pub failure: Option<Error>,
    pub producer: Option<ProducerIdentity>,
}

/// What to ask the brokers for next.
#[derive(Clone, Copy, Debug, PartialEq, Eq, Structural)]
pub enum FinishAction {
    AddOffset { next_offset: i64 },
    End { commit: bool },
    InitProducer,
    Nothing,
}

/// What a stage asks for.
pub open spec fn finish_action(finish: Finish) -> FinishAction {
    match finish.stage {
        FinishStage::AddingOffset => FinishAction::AddOffset {
            next_offset: finish.included->0.next_offset,
        },
        FinishStage::Ending => FinishAction::End { commit: finish.commit },
        FinishStage::Aborting => FinishAction::End { commit: false },
        FinishStage::Resetting => FinishAction::InitProducer,
        FinishStage::Done => FinishAction::Nothing,
    }
}

/// The stage after the transaction ended one way or another: a producer whose
/// state at the brokers is in doubt is replaced.
pub open spec fn after_ending(finish: Finish) -> Finish {
    Finish {
        stage: if finish.reset_producer || finish.failure is Some {
            FinishStage::Resetting
        } else {
            FinishStage::Done
        },
        ..finish
    }
}

/// The stage after the coordinator gave its answer: a commit that failed is
/// turned into an abort.
pub open spec fn after_answer(finish: Finish) -> Finish {
    if finish.failure is Some && finish.commit && finish.touched {
        Finish { stage: FinishStage::Aborting, ..finish }
    } else {
        after_ending(finish)
    }
}

/// How the end of a transaction begins.
pub open spec fn finish_start(transaction: TransactionState, commit: bool) -> Finish {
    let finish = Finish {
        stage: FinishStage::Ending,
        commit,
        touched: transaction.touched,
        reset_producer: transaction.reset_producer,
        included: transaction.included,
        failure: None,
        producer: None,
    };
    if !transaction.touched {
        after_answer(finish)
    } else if commit && transaction.included is Some {
        Finish { stage: FinishStage::AddingOffset, ..finish }
    } else {
        finish
    }
}

/// The stage after an answer to a request other than for a producer.
pub open spec fn finish_answered(finish: Finish, failure: Option<Error>) -> Finish {
    match finish.stage {
        FinishStage::AddingOffset => if failure is None {
            Finish { stage: FinishStage::Ending, ..finish }
        } else {
            after_answer(Finish { failure, ..finish })
        },
        FinishStage::Ending => after_answer(Finish { failure, ..finish }),
        FinishStage::Aborting => after_ending(finish),
        FinishStage::Resetting => finish,
        FinishStage::Done => finish,
    }
}

/// The stage after the producer was replaced, or could not be.
pub open spec fn finish_reset(finish: Finish, outcome: Result<ProducerIdentity, Error>) -> Finish {
    match outcome {
        Ok(producer) => Finish {
            stage: FinishStage::Done,
            producer: Some(producer),
            ..finish
        },
        Err(error) => Finish { stage: FinishStage::Done, failure: Some(error), ..finish },
    }
}

impl Finish {
    /// What to ask the brokers for next.
    pub fn action(&self) -> (action: FinishAction)
        requires
            self.stage == FinishStage::AddingOffset ==> self.included is Some,
        ensures
            action == finish_action(*self),
    {
        match self.stage {
            FinishStage::AddingOffset => match self.included {
                Some(included) => FinishAction::AddOffset { next_offset: included.next_offset },
                None => FinishAction::Nothing,
            },
            FinishStage::Ending => FinishAction::End { commit: self.commit },
            FinishStage::Aborting => FinishAction::End { commit: false },
            FinishStage::Resetting => FinishAction::InitProducer,
            FinishStage::Done => FinishAction::Nothing,
        }
    }

    fn end(&mut self)
        ensures
            *final(self) == after_ending(*old(self)),
    {
        if self.reset_producer || self.failure.is_some() {
            self.stage = FinishStage::Resetting;
        } else {
            self.stage = FinishStage::Done;
        }
    }

    fn settle(&mut self)
        ensures
            *final(self) == after_answer(*old(self)),
    {
        if self.failure.is_some() && self.commit && self.touched {
            self.stage = FinishStage::Aborting;
        } else {
            self.end();
        }
    }

    /// A request other than for a producer was answered.
    pub fn answered(&mut self, failure: Option<Error>)
        ensures
            *final(self) == finish_answered(*old(self), failure),
    {
        match self.stage {
            FinishStage::AddingOffset => {
                if failure.is_none() {
                    self.stage = FinishStage::Ending;
                } else {
                    self.failure = failure;
                    self.settle();
                }
            },
            FinishStage::Ending => {
                self.failure = failure;
                self.settle();
            },
            FinishStage::Aborting => {
                self.end();
            },
            FinishStage::Resetting => {},
            FinishStage::Done => {},
        }
    }

    /// The producer was replaced, or could not be.
    pub fn reset(&mut self, outcome: Result<ProducerIdentity, Error>)
        ensures
            *final(self) == finish_reset(*old(self), outcome),
    {
        self.stage = FinishStage::Done;
        match outcome {
            Ok(producer) => {
                self.producer = Some(producer);
            },
            Err(error) => {
                self.failure = Some(error);
            },
        }
    }
}

/// The service after its transaction ended.
pub open spec fn settled(service: ServiceView, finish: Finish) -> ServiceView {
    let success = finish.commit && finish.failure is None;
    ServiceView {
        transaction: None,
        partitions_added: Set::empty(),
        transactional_producer: match finish.producer {
            Some(producer) => producer,
            None => service.transactional_producer,
        },
        transactional_sequences: match finish.producer {
            Some(_) => Map::empty(),
            None => service.transactional_sequences,
        },
        consumers: match finish.included {
            Some(included) => {
                let consumer = service.consumers[included.consumer_id];
                service.consumers.insert(
                    included.consumer_id,
                    if success {
                        ConsumerState {
                            reserved_transaction: None,
                            committed_offset: included.next_offset,
                            fetch_offset: included.next_offset,
                            ..consumer
                        }
                    } else {
                        ConsumerState {
                            reserved_transaction: None,
                            fetch_offset: included.offset,
                            ..consumer
                        }
                    },
                )
            },
            None => service.consumers,
        },
        counters: if success {
            Counters { commits: service.counters.commits.wrapping_add(1), ..service.counters }
        } else {
            Counters { aborts: service.counters.aborts.wrapping_add(1), ..service.counters }
        },
        ..service
    }
}

impl Service {
    /// Begin to end a transaction.
    pub fn start_finish(&self, owner: ClientIdentity, transaction_id: u32, commit: bool) -> (finish:
        Result<Finish, Error>)
        ensures
            finish == if self@.owns_transaction(owner, transaction_id) {
                Ok::<Finish, Error>(finish_start((self@.transaction->0).1, commit))
            } else {
                Err(Error::Invalid)
            },
    {
        match self.transaction {
            None => Err(Error::Invalid),
            Some((id, transaction)) => {
                if id != transaction_id || transaction.owner != owner {
                    return Err(Error::Invalid);
                }
                let mut finish = Finish {
                    stage: FinishStage::Ending,
                    commit,
                    touched: transaction.touched,
                    reset_producer: transaction.reset_producer,
                    included: transaction.included,
                    failure: None,
                    producer: None,
                };
                if !transaction.touched {
                    finish.settle();
                } else if commit && transaction.included.is_some() {
                    finish.stage = FinishStage::AddingOffset;
                }
                Ok(finish)
            },
        }
    }

    /// End the transaction as its end came out.
    pub fn finish_transaction(&mut self, finish: &Finish) -> (result: Result<(), Error>)
        requires
            old(self)@.consistent(),
            old(self)@.transaction is Some,
            finish.stage == FinishStage::Done,
            finish.included == (old(self)@.transaction->0).1.included,
        ensures
            final(self)@.consistent(),
            final(self)@ == settled(old(self)@, *finish),
            result == match finish.failure {
                Some(error) => Err::<(), Error>(error),
                None => Ok(()),
            },
    {
        let ghost before = self@;
        let success: bool = finish.commit && finish.failure.is_none();
        self.transaction = None;
        self.partitions_added = BTreeSet::new();
        match finish.producer {
            Some(producer) => {
                self.transactional_producer = producer;
                self.transactional_sequences = BTreeMap::new();
            },
            None => {},
        }
        match finish.included {
            Some(included) => {
                let consumer: ConsumerState = match self.consumers.get(&included.consumer_id) {
                    Some(consumer) => *consumer,
                    None => {
                        assert(false);
                        return Err(Error::Invalid);
                    },
                };
                let next = if success {
                    ConsumerState {
                        reserved_transaction: None,
                        committed_offset: included.next_offset,
                        fetch_offset: included.next_offset,
                        ..consumer
                    }
                } else {
                    ConsumerState {
                        reserved_transaction: None,
                        fetch_offset: included.offset,
                        ..consumer
                    }
                };
                self.consumers.insert(included.consumer_id, next);
            },
            None => {},
        }
        if success {
            self.counters.commits = self.counters.commits.wrapping_add(1);
        } else {
            self.counters.aborts = self.counters.aborts.wrapping_add(1);
        }
        assert(self@ =~= settled(before, *finish));
        match finish.failure {
            Some(error) => Err(error),
            None => Ok(()),
        }
    }
}


/// A consumer has at most one delivery that is not settled.
pub proof fn law_one_delivery_per_consumer(service: ServiceView, one: u32, two: u32)
    requires
        service.consistent(),
        service.deliveries.contains_key(one),
        service.deliveries.contains_key(two),
        service.deliveries[one].consumer_id == service.deliveries[two].consumer_id,
    ensures
        one == two,
{
}

/// A consumer whose last delivery is not settled is given no other.
pub proof fn law_unsettled_delivery_holds_the_consumer_back(service: ServiceView, consumer: u32)
    requires
        service.consistent(),
        service.consumers.contains_key(consumer),
        (exists|d: u32| #[trigger]
            service.deliveries.contains_key(d) && service.deliveries[d].consumer_id == consumer) || (
        service.transaction matches Some((_, state)) && state.included matches Some(included)
            && included.consumer_id == consumer),
    ensures
        poll_admission(service, service.consumers[consumer].owner, consumer) == Err::<i64, Error>(
            Error::Busy,
        ),
{
}

/// A record that was given back is the next one that its consumer is given.
pub proof fn law_released_record_is_delivered_again(
    service: ServiceView,
    owner: ClientIdentity,
    id: u32,
)
    requires
        service.consistent(),
        service.owns_delivery(owner, id),
    ensures
        poll_admission(released(service, id), owner, service.deliveries[id].consumer_id) == Ok::<
            i64,
            Error,
        >(service.deliveries[id].offset),
{
}

/// A record that was committed is not given to its consumer again.
pub proof fn law_committed_record_is_not_delivered_again(
    service: ServiceView,
    owner: ClientIdentity,
    id: u32,
    records: Seq<Fetched>,
    index: int,
)
    requires
        service.consistent(),
        service.owns_delivery(owner, id),
    ensures
        ({
            let next = service.deliveries[id].next_offset;
            &&& poll_admission(committed(service, id), owner, service.deliveries[id].consumer_id)
                == Ok::<i64, Error>(next)
            &&& is_first_at(records, next, index) ==> records[index].offset
                > service.deliveries[id].offset
        }),
{
}

/// A delivery in a transaction shares its fate: after a commit the consumer
/// goes on behind the record and the record counts as committed; otherwise the
/// consumer is given the record again and nothing was committed.
pub proof fn law_transaction_settles_its_delivery(service: ServiceView, finish: Finish)
    requires
        service.consistent(),
        service.transaction is Some,
        finish.included == (service.transaction->0).1.included,
        finish.included is Some,
    ensures
        ({
            let included = finish.included->0;
            let after = settled(service, finish);
            let consumer = after.consumers[included.consumer_id];
            &&& consumer.reserved_transaction is None && consumer.outstanding is None
            &&& finish.commit && finish.failure is None ==> consumer.fetch_offset
                == included.next_offset && consumer.committed_offset == included.next_offset
            &&& !(finish.commit && finish.failure is None) ==> consumer.fetch_offset
                == included.offset && consumer.committed_offset
                == service.consumers[included.consumer_id].committed_offset
        }),
{
}

/// The whole end of a transaction, given what the brokers would answer to each
/// request.
pub open spec fn finish_run(
    transaction: TransactionState,
    commit: bool,
    adding: Option<Error>,
    ending: Option<Error>,
    aborting: Option<Error>,
    reset: Result<ProducerIdentity, Error>,
) -> Finish {
    let begun = finish_start(transaction, commit);
    let added = if begun.stage == FinishStage::AddingOffset {
        finish_answered(begun, adding)
    } else {
        begun
    };
    let ended = if added.stage == FinishStage::Ending {
        finish_answered(added, ending)
    } else {
        added
    };
    let aborted = if ended.stage == FinishStage::Aborting {
        finish_answered(ended, aborting)
    } else {
        ended
    };
    if aborted.stage == FinishStage::Resetting {
        finish_reset(aborted, reset)
    } else {
        aborted
    }
}

/// A transaction ends after at most four requests. It succeeds when the
/// coordinator did all that was asked for; a producer whose state at the
/// brokers is in doubt is replaced, and if it cannot be, that is the failure
/// that is reported.
pub proof fn law_every_transaction_ends(
    transaction: TransactionState,
    commit: bool,
    adding: Option<Error>,
    ending: Option<Error>,
    aborting: Option<Error>,
    reset: Result<ProducerIdentity, Error>,
)
    ensures
        ({
            let end = finish_run(transaction, commit, adding, ending, aborting, reset);
            let refused = if !transaction.touched {
                None
            } else if commit && transaction.included is Some && adding is Some {
                adding
            } else {
                ending
            };
            let doubt = transaction.reset_producer || refused is Some;
            &&& end.stage == FinishStage::Done
            &&& end.included == transaction.included
            &&& end.commit == commit
            &&& end.failure == match reset {
                Err(error) => if doubt {
                    Some(error)
                } else {
                    refused
                },
                Ok(_) => refused,
            }
            &&& end.producer == match reset {
                Ok(producer) => if doubt {
                    Some(producer)
                } else {
                    None
                },
                Err(_) => None,
            }
        }),
{
}

/// A commit that the coordinator did not carry out is turned into an abort,
/// and then the producer is replaced.
pub proof fn law_failed_commit_is_aborted(finish: Finish, error: Error, aborting: Option<Error>)
    requires
        finish.stage == FinishStage::AddingOffset || finish.stage == FinishStage::Ending,
        finish.commit,
        finish.touched,
    ensures
        finish_action(finish_answered(finish, Some(error))) == (FinishAction::End {
            commit: false,
        }),
        finish_action(finish_answered(finish_answered(finish, Some(error)), aborting))
            == FinishAction::InitProducer,
{
}

/// A route's records are numbered in turn, and the other routes' numbers stay.
pub proof fn law_records_are_numbered_in_turn(sequences: Map<u16, i32>, route: u16, other: u16)
    requires
        after_record(sequences, route) is Some,
    ensures
        sequence_of(after_record(sequences, route)->0, route) == sequence_of(sequences, route) + 1,
        other != route ==> sequence_of(after_record(sequences, route)->0, other) == sequence_of(
            sequences,
            other,
        ),
{
}

/// The number that is handed out next is determined.
pub proof fn law_fresh_id_is_unique(service: ServiceView, one: u32, two: u32)
    requires
        service.is_fresh(one),
        service.is_fresh(two),
    ensures
        one == two,
{
    let start = ids::first_candidate(service.next_id as u64);
    let a = choose|steps: nat|
        one == #[trigger] ids::candidate(start, steps) && forall|earlier: nat|
            earlier < steps ==> service.taken(#[trigger] ids::candidate(start, earlier) as u32);
    let b = choose|steps: nat|
        two == #[trigger] ids::candidate(start, steps) && forall|earlier: nat|
            earlier < steps ==> service.taken(#[trigger] ids::candidate(start, earlier) as u32);
    if a < b {
        assert(service.taken(ids::candidate(start, a) as u32));
    } else if b < a {
        assert(service.taken(ids::candidate(start, b) as u32));
    }
}

/// The numbers of the requests.
#[derive(Clone, Copy, Debug, PartialEq, Eq)]
pub struct Opcodes {
    pub produce: u64,
    pub produce_to: u64,
    pub consumer_open: u64,
    pub consumer_poll: u64,
    pub delivery_commit: u64,
    pub delivery_release: u64,
    pub consumer_close: u64,
    pub transaction_begin: u64,
    pub transaction_produce: u64,
    pub transaction_produce_to: u64,
    pub transaction_include: u64,
    pub transaction_commit: u64,
    pub transaction_abort: u64,
    pub status: u64,
}

/// The parts of an argument that names a resource, a route and a length.
#[derive(Clone, Copy, Debug, PartialEq, Eq, Structural)]
pub struct RoutedRecord {
    pub resource_id: u32,
    pub route: u16,
    pub len: usize,
}

/// What a client asks for.
#[derive(Clone, Copy, Debug, PartialEq, Eq, Structural)]
pub enum Request {
    Produce { route: u16, len: usize },
    OpenConsumer,
    PollConsumer { consumer: u32 },
    CommitDelivery { delivery: u32 },
    ReleaseDelivery { delivery: u32 },
    CloseConsumer { consumer: u32 },
    BeginTransaction,
    TransactionProduce { transaction: u32, route: u16, len: usize },
    IncludeDelivery { transaction: u32, delivery: u32 },
    FinishTransaction { transaction: u32, commit: bool },
    Status,
    /// The argument makes no sense.
    Invalid,
    Unknown,
}

/// The meaning of a request. Where two requests have the same number, the one
/// listed first counts.
pub open spec fn request_of(codes: Opcodes, opcode: u64, arg: u64, routed: RoutedRecord) -> Request {
    let small = arg <= u32::MAX;
    if opcode == codes.produce {
        if arg <= usize::MAX {
            Request::Produce { route: 0, len: arg as usize }
        } else {
            Request::Invalid
        }
    } else if opcode == codes.produce_to {
        if routed.resource_id == 0 {
            Request::Produce { route: routed.route, len: routed.len }
        } else {
            Request::Invalid
        }
    } else if opcode == codes.consumer_open {
        Request::OpenConsumer
    } else if opcode == codes.consumer_poll {
        if small {
            Request::PollConsumer { consumer: arg as u32 }
        } else {
            Request::Invalid
        }
    } else if opcode == codes.delivery_commit {
        if small {
            Request::CommitDelivery { delivery: arg as u32 }
        } else {
            Request::Invalid
        }
    } else if opcode == codes.delivery_release {
        if small {
            Request::ReleaseDelivery { delivery: arg as u32 }
        } else {
            Request::Invalid
        }
    } else if opcode == codes.consumer_close {
        if small {
            Request::CloseConsumer { consumer: arg as u32 }
        } else {
            Request::Invalid
        }
    } else if opcode == codes.transaction_begin {
        Request::BeginTransaction
    } else if opcode == codes.transaction_produce {
        Request::TransactionProduce {
            transaction: (arg % 0x1_0000_0000) as u32,
            route: 0,
            len: (arg / 0x1_0000_0000) as usize,
        }
    } else if opcode == codes.transaction_produce_to {
        Request::TransactionProduce {
            transaction: routed.resource_id,
            route: routed.route,
            len: routed.len,
        }
    } else if opcode == codes.transaction_include {
        Request::IncludeDelivery {
            transaction: (arg % 0x1_0000_0000) as u32,
            delivery: (arg / 0x1_0000_0000) as u32,
        }
    } else if opcode == codes.transaction_commit || opcode == codes.transaction_abort {
        if small {
            Request::FinishTransaction {
                transaction: arg as u32,
                commit: opcode == codes.transaction_commit,
            }
        } else {
            Request::Invalid
        }
    } else if opcode == codes.status {
        Request::Status
    } else {
        Request::Unknown
    }
}

/// Understand a request.
pub fn decode_request(codes: &Opcodes, opcode: u64, arg: u64, routed: RoutedRecord) -> (request:
    Request)
    ensures
        request == request_of(*codes, opcode, arg, routed),
{
    let small: bool = arg <= u32::MAX as u64;
    let low: u32 = (arg % 0x1_0000_0000) as u32;
    let high: u64 = arg / 0x1_0000_0000;
    if opcode == codes.produce {
        if arg <= usize::MAX as u64 {
            Request::Produce { route: 0, len: arg as usize }
        } else {
            Request::Invalid
        }
    } else if opcode == codes.produce_to {
        if routed.resource_id == 0 {
            Request::Produce { route: routed.route, len: routed.len }
        } else {
            Request::Invalid
        }
    } else if opcode == codes.consumer_open {
        Request::OpenConsumer
    } else if opcode == codes.transaction_begin && opcode != codes.consumer_poll && opcode
        != codes.delivery_commit && opcode != codes.delivery_release && opcode
        != codes.consumer_close {
        Request::BeginTransaction
    } else if opcode == codes.consumer_poll || opcode == codes.delivery_commit || opcode
        == codes.delivery_release || opcode == codes.consumer_close {
        if !small {
            Request::Invalid
        } else if opcode == codes.consumer_poll {
            Request::PollConsumer { consumer: low }
        } else if opcode == codes.delivery_commit {
            Request::CommitDelivery { delivery: low }
        } else if opcode == codes.delivery_release {
            Request::ReleaseDelivery { delivery: low }
        } else {
            Request::CloseConsumer { consumer: low }
        }
    } else if opcode == codes.transaction_produce {
        Request::TransactionProduce { transaction: low, route: 0, len: high as usize }
    } else if opcode == codes.transaction_produce_to {
        Request::TransactionProduce {
            transaction: routed.resource_id,
            route: routed.route,
            len: routed.len,
        }
    } else if opcode == codes.transaction_include {
        Request::IncludeDelivery { transaction: low, delivery: high as u32 }
    } else if opcode == codes.transaction_commit || opcode == codes.transaction_abort {
        if small {
            Request::FinishTransaction {
                transaction: low,
                commit: opcode == codes.transaction_commit,
            }
        } else {
            Request::Invalid
        }
    } else if opcode == codes.status {
        Request::Status
    } else {
        Request::Unknown
    }
}

/// The rights in the low sixteen bits of a status and the partition in the next.
pub open spec fn status_number(rights: u64, partition: i32) -> int {
    rights % 0x1_0000 + 0x1_0000 * (partition as int % 0x1_0000)
}

/// The answer to a status request: the low halves of the rights and of the
/// partition.
pub fn status_word(rights: u64, partition: i32) -> (word: i64)
    ensures
        word == status_number(rights, partition),
{
    let bits: u32 = partition as u32;
    assert(partition < 0 ==> (partition as u32) == partition + 0x1_0000_0000) by (bit_vector);
    (rights % 0x1_0000) as i64 + 0x1_0000 * (bits % 0x1_0000) as i64
}

/// The bytes of a record that a client hands over: the first `len` of its
/// memory.
pub fn record_bytes<'a>(memory: Option<&'a [u8]>, len: usize) -> (bytes: Result<&'a [u8], Error>)
    ensures
        match memory {
            Some(memory) => if len <= memory@.len() {
                bytes matches Ok(bytes) && bytes@ == memory@.take(len as int)
            } else {
                bytes == Err::<&[u8], Error>(Error::Invalid)
            },
            None => bytes == Err::<&[u8], Error>(Error::Invalid),
        },
{
    match memory {
        Some(memory) => {
            if len > memory.len() {
                return Err(Error::Invalid);
            }
            assert(memory@.subrange(0, len as int) =~= memory@.take(len as int));
            Ok(vstd::slice::slice_subrange(memory, 0, len))
        },
        None => Err(Error::Invalid),
    }
}

/// The time of a record: its own, or now.
pub open spec fn stamped(timestamp_ms: i64, now: Option<i64>) -> Result<i64, Error> {
    if timestamp_ms >= 0 {
        Ok(timestamp_ms)
    } else {
        match now {
            Some(now) => Ok(now),
            None => Err(Error::Timeout),
        }
    }
}

/// The time of a record: the client's own, or the clock's if the client's is
/// negative.
pub fn record_timestamp(timestamp_ms: i64, now: Option<i64>) -> (timestamp: Result<i64, Error>)
    ensures
        timestamp == stamped(timestamp_ms, now),
{
    if timestamp_ms >= 0 {
        return Ok(timestamp_ms);
    }
    match now {
        Some(now) => Ok(now),
        None => Err(Error::Timeout),
    }
}

/// A consumer that was opened belongs to its client, goes on behind what was
/// committed, or starts with the earliest record, and is ready to be polled.
pub proof fn law_opened_consumer_is_ready(
    service: ServiceView,
    owner: ClientIdentity,
    committed_offset: Option<i64>,
    earliest_offset: i64,
    id: u32,
    other: u32,
)
    requires
        service.consistent(),
        service.is_fresh(id),
        service.deliveries.dom().len() < 8,
        other != id,
    ensures
        ({
            let after = consumer_opened(service, owner, committed_offset, earliest_offset, id);
            let start = if committed_offset is Some {
                committed_offset->0
            } else {
                earliest_offset
            };
            &&& poll_admission(after, owner, id) == Ok::<i64, Error>(start)
            &&& after.consumers[id].committed_offset == start
            &&& closing(after, owner, id) is Ok
            &&& after.consumers.contains_key(other) <==> service.consumers.contains_key(other)
            &&& service.consumers.contains_key(other) ==> after.consumers[other]
                == service.consumers[other]
            &&& after.deliveries == service.deliveries
            &&& after.transaction == service.transaction
            &&& !service.consumers.contains_key(id)
        }),
{
}

/// A delivery is its consumer's, carries the record's place, counts as consumed, and
/// can be settled by its client alone.
pub proof fn law_delivery_belongs_to_its_client(
    service: ServiceView,
    consumer_id: u32,
    offset: i64,
    id: u32,
    client: ClientIdentity,
)
    requires
        service.consistent(),
        service.consumers.contains_key(consumer_id),
        service.is_fresh(id),
        offset < i64::MAX,
        service.counters.consumed < u32::MAX,
    ensures
        ({
            let after = delivered(service, consumer_id, offset, id);
            &&& after.owns_delivery(client, id) <==> client == service.consumers[consumer_id].owner
            &&& after.deliveries[id].consumer_id == consumer_id
            &&& after.deliveries[id].offset == offset
            &&& after.deliveries[id].next_offset == offset + 1
            &&& after.consumers[consumer_id].fetch_offset == offset + 1
            &&& after.consumers[consumer_id].committed_offset
                == service.consumers[consumer_id].committed_offset
            &&& after.counters.consumed == service.counters.consumed + 1
            &&& after.counters.commits == service.counters.commits
            &&& poll_admission(after, service.consumers[consumer_id].owner, consumer_id) == Err::<
                i64,
                Error,
            >(Error::Busy)
        }),
{
}

/// What happens to one delivery leaves every other consumer and delivery alone.
pub proof fn law_settling_touches_one_consumer(service: ServiceView, id: u32, consumer: u32, delivery: u32)
    requires
        service.consistent(),
        service.deliveries.contains_key(id),
        service.consumers.contains_key(consumer),
        consumer != service.deliveries[id].consumer_id,
        service.deliveries.contains_key(delivery),
        delivery != id,
    ensures
        released(service, id).consumers[consumer] == service.consumers[consumer],
        committed(service, id).consumers[consumer] == service.consumers[consumer],
        closed_consumer(service, service.deliveries[id].consumer_id).consumers[consumer]
            == service.consumers[consumer],
        closed_consumer(service, service.deliveries[id].consumer_id).deliveries[delivery]
            == service.deliveries[delivery],
        !closed_consumer(service, service.deliveries[id].consumer_id).deliveries.contains_key(id),
        !closed_consumer(service, service.deliveries[id].consumer_id).consumers.contains_key(
            service.deliveries[id].consumer_id,
        ),
        released(service, id).deliveries[delivery] == service.deliveries[delivery],
        committed(service, id).deliveries[delivery] == service.deliveries[delivery],
        !released(service, id).deliveries.contains_key(id),
        !committed(service, id).deliveries.contains_key(id),
        service.counters.commits < u32::MAX ==> committed(service, id).counters.commits
            == service.counters.commits + 1,
        released(service, id).counters == service.counters,
{
}

/// A transaction that was begun is its client's, holds nothing, and announces every
/// route again before it writes to it.
pub proof fn law_begun_transaction_is_empty(
    service: ServiceView,
    owner: ClientIdentity,
    id: u32,
    client: ClientIdentity,
    route: u16,
    delivery: u32,
)
    requires
        service.consistent(),
        service.transaction is None,
        service.is_fresh(id),
        service.grants.produce,
    ensures
        ({
            let after = transaction_begun(service, owner, id);
            &&& after.owns_transaction(client, id) <==> client == owner
            &&& transaction_step(after, owner, id, route) == Ok::<TransactionWrite, Error>(
                TransactionWrite::AddPartition,
            )
            &&& client != owner ==> transaction_step(after, client, id, route) == Err::<
                TransactionWrite,
                Error,
            >(Error::Invalid)
            &&& inclusion(after, owner, id, delivery) is Ok <==> service.owns_delivery(
                owner,
                delivery,
            )
            &&& finish_start((after.transaction->0).1, true).stage == FinishStage::Done
            &&& finish_start((after.transaction->0).1, false).stage == FinishStage::Done
        }),
{
}

/// A transaction takes one delivery, which then is no longer out, and keeps its
/// consumer until the transaction ends: it is neither polled nor closed.
pub proof fn law_included_delivery_holds_its_consumer(
    service: ServiceView,
    owner: ClientIdentity,
    transaction: u32,
    delivery: u32,
    other: u32,
)
    requires
        service.consistent(),
        inclusion(service, owner, transaction, delivery) is Ok,
    ensures
        ({
            let after = included(service, delivery);
            let consumer = service.deliveries[delivery].consumer_id;
            &&& !after.deliveries.contains_key(delivery)
            &&& inclusion(after, owner, transaction, other) == Err::<(), Error>(Error::Busy)
            &&& poll_admission(after, owner, consumer) == Err::<i64, Error>(Error::Busy)
            &&& closing(after, owner, consumer) == Err::<(), Error>(Error::Busy)
            &&& after.consumers[consumer].fetch_offset == service.consumers[consumer].fetch_offset
            &&& finish_start((after.transaction->0).1, true).stage == FinishStage::AddingOffset
            &&& finish_action(finish_start((after.transaction->0).1, true)) == (
            FinishAction::AddOffset { next_offset: service.deliveries[delivery].next_offset })
            &&& finish_action(finish_start((after.transaction->0).1, false)) == (
            FinishAction::End { commit: false })
        }),
{
}

/// A record that was acknowledged is counted and moves its route's number on, in its
/// own sequence; one that was not moves nothing, and one in a transaction lets the
/// producer be replaced.
pub proof fn law_writes_are_accounted(
    service: ServiceView,
    route: u16,
    offset: i64,
    error: Error,
)
    requires
        service.transaction is Some,
        service.counters.produced < u32::MAX,
    ensures
        written(service, route, Err(error)) == (Err::<i64, Error>(error), service),
        sequence_of(service.sequences, route) < i32::MAX ==> {
            let (result, after) = written(service, route, Ok(offset));
            &&& result == Ok::<i64, Error>(offset)
            &&& sequence_of(after.sequences, route) == sequence_of(service.sequences, route) + 1
            &&& after.transactional_sequences == service.transactional_sequences
            &&& after.counters.produced == service.counters.produced + 1
            &&& after.transaction == service.transaction
        },
        sequence_of(service.sequences, route) == i32::MAX ==> written(service, route, Ok(offset))
            == (Err::<i64, Error>(Error::Fenced), service),
        sequence_of(service.transactional_sequences, route) < i32::MAX ==> {
            let (result, after) = transaction_written(service, route, Ok(offset));
            &&& result == Ok::<i64, Error>(offset)
            &&& sequence_of(after.transactional_sequences, route) == sequence_of(
                service.transactional_sequences,
                route,
            ) + 1
            &&& after.sequences == service.sequences
            &&& after.counters.produced == service.counters.produced + 1
            &&& (after.transaction->0).1.touched
            &&& (after.transaction->0).1.reset_producer
                == (service.transaction->0).1.reset_producer
        },
        ({
            let (result, after) = transaction_written(service, route, Err(error));
            &&& result == Err::<i64, Error>(error)
            &&& (after.transaction->0).0 == (service.transaction->0).0
            &&& (after.transaction->0).1.touched
            &&& (after.transaction->0).1.reset_producer
            &&& (after.transaction->0).1.included == (service.transaction->0).1.included
            &&& after.counters == service.counters
            &&& after.transactional_sequences == service.transactional_sequences
        }),
{
}

/// A consumer is polled exactly where it is the client's, idle, and fewer than eight
/// deliveries are out.
pub proof fn law_polls_are_refused_only_for_a_reason(
    service: ServiceView,
    owner: ClientIdentity,
    id: u32,
)
    ensures
        poll_admission(service, owner, id) is Ok <==> service.consumers.contains_key(id)
            && service.consumers[id].owner == owner && service.consumers[id].outstanding is None
            && service.consumers[id].reserved_transaction is None
            && service.deliveries.dom().len() < 8,
        poll_admission(service, owner, id) == Err::<i64, Error>(Error::Invalid)
            <==> !service.consumers.contains_key(id) || service.consumers[id].owner != owner,
        poll_admission(service, owner, id) is Ok ==> poll_admission(service, owner, id)->Ok_0
            == service.consumers[id].fetch_offset,
        service.consistent() ==> service.consumers.dom().len() <= 8
            && service.deliveries.dom().len() <= 8,
{
}

/// A request is read by its own number: what it names is in its argument, the
/// transaction in the low half and a length or delivery in the high half.
pub proof fn law_requests_by_their_argument(
    codes: Opcodes,
    opcode: u64,
    low: u32,
    high: u32,
    routed: RoutedRecord,
)
    ensures
        ({
            let arg = (high * 0x1_0000_0000 + low) as u64;
            match request_of(codes, opcode, arg, routed) {
                Request::Produce { route, len } => (opcode == codes.produce && route == 0 && len
                    == arg) || (opcode == codes.produce_to && routed.resource_id == 0 && route
                    == routed.route && len == routed.len),
                Request::OpenConsumer => opcode == codes.consumer_open,
                Request::PollConsumer { consumer } => opcode == codes.consumer_poll && high == 0
                    && consumer == low,
                Request::CommitDelivery { delivery } => opcode == codes.delivery_commit && high
                    == 0 && delivery == low,
                Request::ReleaseDelivery { delivery } => opcode == codes.delivery_release && high
                    == 0 && delivery == low,
                Request::CloseConsumer { consumer } => opcode == codes.consumer_close && high == 0
                    && consumer == low,
                Request::BeginTransaction => opcode == codes.transaction_begin,
                Request::TransactionProduce { transaction, route, len } => (opcode
                    == codes.transaction_produce && transaction == low && route == 0 && len
                    == high) || (opcode == codes.transaction_produce_to && transaction
                    == routed.resource_id && route == routed.route && len == routed.len),
                Request::IncludeDelivery { transaction, delivery } => opcode
                    == codes.transaction_include && transaction == low && delivery == high,
                Request::FinishTransaction { transaction, commit } => high == 0 && transaction
                    == low && (opcode == codes.transaction_commit && commit || opcode
                    == codes.transaction_abort && (commit ==> opcode
                    == codes.transaction_commit)),
                Request::Status => opcode == codes.status,
                Request::Invalid => high != 0 || (opcode == codes.produce_to && routed.resource_id
                    != 0),
                Request::Unknown => opcode != codes.produce && opcode != codes.produce_to && opcode
                    != codes.consumer_open && opcode != codes.consumer_poll && opcode
                    != codes.delivery_commit && opcode != codes.delivery_release && opcode
                    != codes.consumer_close && opcode != codes.transaction_begin && opcode
                    != codes.transaction_produce && opcode != codes.transaction_produce_to
                    && opcode != codes.transaction_include && opcode != codes.transaction_commit
                    && opcode != codes.transaction_abort && opcode != codes.status,
            }
        }),
{
    let arg = high * 0x1_0000_0000 + low;
    assert(0 <= arg <= u64::MAX);
    assert(arg % 0x1_0000_0000 == low as int);
    assert(arg / 0x1_0000_0000 == high as int);
    assert(high == 0 <==> arg <= u32::MAX);
}

/// Rights and partition can be read back from a status.
pub proof fn law_status_can_be_read_back(rights: u64, partition: i32)
    requires
        rights < 0x1_0000,
        0 <= partition < 0x1_0000,
    ensures
        status_number(rights, partition) % 0x1_0000 == rights,
        status_number(rights, partition) / 0x1_0000 == partition,
{
}

/// A service starts with nothing under way and nothing counted.
pub proof fn law_service_starts_empty(
    grants: Grants,
    producer: ProducerIdentity,
    transactional_producer: ProducerIdentity,
    route: u16,
    id: u32,
)
    ensures
        ({
            let service = initial(grants, producer, transactional_producer);
            &&& service.consistent()
            &&& service.grants == grants
            &&& service.producer == producer
            &&& service.transactional_producer == transactional_producer
            &&& !service.taken(id)
            &&& service.transaction is None
            &&& sequence_of(service.sequences, route) == 0
            &&& sequence_of(service.transactional_sequences, route) == 0
            &&& service.next_id == 1
            &&& service.counters == (Counters {
                requests: 0,
                produced: 0,
                consumed: 0,
                commits: 0,
                aborts: 0,
                backpressure: 0,
            })
        }),
{
    let service = initial(grants, producer, transactional_producer);
    assert(service.consumers.dom() =~= Set::<u32>::empty());
    assert(service.deliveries.dom() =~= Set::<u32>::empty());
}

/// The record that is given is the first at or behind the consumer's place: there is
/// one such record, or none at all.
pub proof fn law_first_record_is_given(
    records: Seq<Fetched>,
    offset: i64,
    one: int,
    two: int,
)
    requires
        is_first_at(records, offset, one),
        is_first_at(records, offset, two),
    ensures
        one == two,
        records[one].offset >= offset,
        !none_at(records, offset),
{
    if one < two {
        assert(records[one].offset < offset);
    }
    if two < one {
        assert(records[two].offset < offset);
    }
}

/// A consumer may be opened by who may consume, as long as there are fewer than eight;
/// a record without a time has that of now.
pub proof fn law_consumers_and_times(service: ServiceView, timestamp_ms: i64, now: i64)
    ensures
        opening(service) is Ok <==> service.grants.consume && service.consumers.dom().len() < 8,
        opening(service) == Err::<(), Error>(Error::Denied) <==> !service.grants.consume,
        timestamp_ms >= 0 ==> stamped(timestamp_ms, None) == Ok::<i64, Error>(timestamp_ms)
            && stamped(timestamp_ms, Some(now)) == Ok::<i64, Error>(timestamp_ms),
        timestamp_ms < 0 ==> stamped(timestamp_ms, Some(now)) == Ok::<i64, Error>(now)
            && stamped(timestamp_ms, None) == Err::<i64, Error>(Error::Timeout),
{
}

} // verus!
