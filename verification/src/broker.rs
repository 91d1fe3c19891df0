//! The two faces of a name service, made explicit.
//!
//! A name service is both an immediate **catalog** and a waitable **event
//! broker**:
//!
//! - **Catalog**: `name` resolves to a target with a committed generation, or
//!   does not exist yet. Answers are immediate; a catalog never waits.
//! - **Event broker**: waiters park on named conditions and are resolved when
//!   the condition fires. The broker never polls and never assumes an ordering:
//!   the *publishing* side owns the fulfillment.
//!
//! "Wait for name X" means the same thing for the local registry and for a
//! replicated catalog, and fulfillment is always defined by the publishing side,
//! never by polling order, spin counts or boot timing.
use vstd::prelude::*;

use crate::namemap;
use crate::namemap::NameMap;
use crate::wire;

verus! {

/// A resolved catalog entry.
#[derive(Debug, Clone, Copy, PartialEq, Eq, Structural)]
pub struct CatalogTarget {
    /// The committed generation of the entry.
    pub generation: u64,
    /// The owning connection, or 0 when the target is not connection-bound
    /// (e.g. cluster events).
    pub connection: u64,
}

/// An immediate name catalog.
pub trait Catalog {
    /// The catalog is well formed.
    spec fn well_formed(&self) -> bool;

    /// What `name` stands for, if it is present.
    spec fn target(&self, name: Seq<u8>) -> Option<CatalogTarget>;

    /// Resolve `name` to its target, if present.
    fn resolve(&self, name: &[u8]) -> (target: Option<CatalogTarget>)
        requires
            self.well_formed(),
        ensures
            target == self.target(name@),
    ;
}

/// The waiters parked on `event`, in the order in which they were parked.
pub open spec fn parked_on<W>(parked: Map<Seq<u8>, Seq<W>>, event: Seq<u8>) -> Seq<W> {
    if parked.contains_key(event) {
        parked[event]
    } else {
        Seq::empty()
    }
}

/// `events` are the parked events that have fired.
pub open spec fn are_fired<W, C: Catalog>(
    events: Seq<Seq<u8>>,
    parked: Map<Seq<u8>, Seq<W>>,
    catalog: C,
) -> bool {
    forall|event: Seq<u8>| #[trigger]
        events.contains(event) <==> parked.contains_key(event) && catalog.target(event) is Some
}

/// The waiters of each event in turn, each with its event.
pub open spec fn paired<W>(events: Seq<Seq<u8>>, parked: Map<Seq<u8>, Seq<W>>) -> Seq<(Seq<u8>, W)>
    decreases events.len(),
{
    if events.len() == 0 {
        Seq::empty()
    } else {
        paired(events.drop_last(), parked) + with_event(events.last(), parked[events.last()])
    }
}

/// Each waiter with `event`.
pub open spec fn with_event<W>(event: Seq<u8>, waiters: Seq<W>) -> Seq<(Seq<u8>, W)> {
    waiters.map_values(|waiter: W| (event, waiter))
}

/// The events and waiters of a settlement.
pub open spec fn pair_views<W>(pairs: Seq<(Vec<u8>, W)>) -> Seq<(Seq<u8>, W)> {
    pairs.map_values(|pair: (Vec<u8>, W)| (pair.0@, pair.1))
}

/// A waitable event broker.
pub trait EventBroker: Sized {
    /// The parked waiter payload (typically a reply token).
    type Waiter;

    /// The broker is well formed.
    spec fn well_formed(&self) -> bool;

    /// The waiters of each event, in the order in which they were parked.
    spec fn parked(&self) -> Map<Seq<u8>, Seq<Self::Waiter>>;

    /// Park `waiter` on `event`. Returns `Some(waiter)` when the event has
    /// already fired (the caller resolves it immediately against the catalog),
    /// or `None` once parked. The broker replies to nothing: the caller answers
    /// resolved waiters so access policy and reply shape stay with the service.
    fn park<C: Catalog>(&mut self, event: &[u8], waiter: Self::Waiter, catalog: &C) -> (returned:
        Option<Self::Waiter>)
        requires
            old(self).well_formed(),
            catalog.well_formed(),
        ensures
            final(self).well_formed(),
            if catalog.target(event@) is Some {
                returned == Some(waiter) && final(self).parked() == old(self).parked()
            } else {
                &&& returned is None
                &&& final(self).parked() == old(self).parked().insert(
                    event@,
                    parked_on(old(self).parked(), event@).push(waiter),
                )
            },
    ;

    /// Resolve every parked waiter whose event has fired, returning the
    /// `(event, waiter)` pairs for the caller to answer. Runs in catalog order.
    fn settle<C: Catalog>(&mut self, catalog: &C) -> (resolved: Vec<(Vec<u8>, Self::Waiter)>)
        requires
            old(self).well_formed(),
            catalog.well_formed(),
        ensures
            final(self).well_formed(),
            forall|event: Seq<u8>| #[trigger]
                final(self).parked().contains_key(event) <==> old(self).parked().contains_key(event)
                    && catalog.target(event) is None,
            forall|event: Seq<u8>|
                final(self).parked().contains_key(event) ==> #[trigger] final(self).parked()[event]
                    == old(self).parked()[event],
            exists|events: Seq<Seq<u8>>| #[trigger]
                namemap::in_order(events) && are_fired(events, old(self).parked(), *catalog)
                    && pair_views(resolved@) == paired(events, old(self).parked()),
    ;

    /// Take the waiters parked on `event`. Used by the firing side, which
    /// already knows which condition it just made true.
    fn fire(&mut self, event: &[u8]) -> (waiters: Vec<Self::Waiter>)
        requires
            old(self).well_formed(),
        ensures
            final(self).well_formed(),
            waiters@ == parked_on(old(self).parked(), event@),
            final(self).parked() == old(self).parked().remove(event@),
    ;
}

/// The shared keyed waitlist backing both the local name service's deferred
/// lookups and the replicated dns's cluster events.
pub struct KeyedWaitlist<W> {
    waiters: NameMap<Vec<W>>,
}

/// The waiters of each name.
spec fn waiter_views<W>(map: Map<Seq<u8>, Vec<W>>) -> Map<Seq<u8>, Seq<W>> {
    map.map_values(|waiters: Vec<W>| waiters@)
}

impl<W> Default for KeyedWaitlist<W> {
    fn default() -> (list: Self)
        ensures
            list.well_formed(),
            list.parked() == Map::<Seq<u8>, Seq<W>>::empty(),
    {
        let list = KeyedWaitlist { waiters: NameMap::new() };
        assert(list.parked() =~= Map::<Seq<u8>, Seq<W>>::empty());
        list
    }
}

impl<W> KeyedWaitlist<W> {
    pub fn new() -> (list: Self)
        ensures
            list.well_formed(),
            list.parked() == Map::<Seq<u8>, Seq<W>>::empty(),
    {
        Self::default()
    }

    /// How many events have waiters.
    pub fn len(&self) -> (len: usize)
        requires
            self.well_formed(),
        ensures
            len == self.parked().dom().len(),
            self.parked().dom().finite(),
    {
        assert(self.parked().dom() =~= self.waiters@.dom());
        self.waiters.len()
    }

    /// Whether nothing waits.
    pub fn is_empty(&self) -> (empty: bool)
        requires
            self.well_formed(),
        ensures
            empty == (self.parked() == Map::<Seq<u8>, Seq<W>>::empty()),
    {
        let count: usize = self.waiters.len();
        proof {
            assert(self.parked().dom() =~= self.waiters@.dom());
            if count == 0 {
                assert(self.parked().dom() =~= Set::<Seq<u8>>::empty());
                assert(self.parked() =~= Map::<Seq<u8>, Seq<W>>::empty());
            } else if self.parked() == Map::<Seq<u8>, Seq<W>>::empty() {
                assert(self.parked().dom() =~= Set::<Seq<u8>>::empty());
            }
        }
        count == 0
    }
}

/// Append each of `waiters` with `event`.
fn push_pairs<W>(resolved: &mut Vec<(Vec<u8>, W)>, event: &Vec<u8>, waiters: Vec<W>)
    ensures
        pair_views(final(resolved)@) == pair_views(old(resolved)@) + with_event(
            event@,
            waiters@,
        ),
{
    let ghost all = waiters@;
    let ghost start = pair_views(resolved@);
    let count: usize = waiters.len();
    let mut left: Vec<W> = waiters;
    let mut taken: usize = 0;
    assert(all.skip(0) =~= all);
    assert(start + with_event(event@, all.take(0)) =~= start);
    while taken < count
        invariant
            taken <= count == all.len(),
            left@ == all.skip(taken as int),
            pair_views(resolved@) == start + with_event(event@, all.take(taken as int)),
        decreases count - taken,
    {
        let waiter: W = left.remove(0);
        assert(waiter == all[taken as int]);
        let name: Vec<u8> = wire::copy_range(event, 0, event.len());
        assert(name@ =~= event@);
        let ghost so_far = resolved@;
        resolved.push((name, waiter));
        proof {
            assert(left@ =~= all.skip(taken + 1));
            assert(pair_views(resolved@) =~= pair_views(so_far).push((event@, all[taken as int])));
            assert(start + with_event(event@, all.take(taken + 1)) =~= (start + with_event(
                event@,
                all.take(taken as int),
            )).push((event@, all[taken as int])));
        }
        taken += 1;
    }
    assert(all.take(taken as int) =~= all);
}

/// The fired names among the first `count`, in order.
spec fn fired_names<C: Catalog>(names: Seq<Seq<u8>>, catalog: C, count: int) -> Seq<Seq<u8>>
    decreases count,
{
    if count <= 0 {
        Seq::empty()
    } else {
        let before = fired_names(names, catalog, count - 1);
        if catalog.target(names[count - 1]) is Some {
            before.push(names[count - 1])
        } else {
            before
        }
    }
}

proof fn lemma_fired_names<C: Catalog>(names: Seq<Seq<u8>>, catalog: C, count: int)
    requires
        namemap::in_order(names),
        0 <= count <= names.len(),
    ensures
        namemap::in_order(fired_names(names, catalog, count)),
        forall|event: Seq<u8>| #[trigger]
            fired_names(names, catalog, count).contains(event) <==> catalog.target(event) is Some
                && names.take(count).contains(event),
    decreases count,
{
    if count > 0 {
        lemma_fired_names(names, catalog, count - 1);
        let before = fired_names(names, catalog, count - 1);
        let after = fired_names(names, catalog, count);
        let fewer = names.take(count - 1);
        let more = names.take(count);
        assert(more[count - 1] == names[count - 1]);
        assert forall|i: int, j: int| 0 <= i < j < after.len() implies crate::order::bytes_before(
            #[trigger] after[i],
            #[trigger] after[j],
        ) by {
            assert(before.contains(before[i]));
            if j < before.len() {
                assert(after[j] == before[j]);
            } else {
                let at = choose|k: int| 0 <= k < fewer.len() && fewer[k] == before[i];
                assert(crate::order::bytes_before(names[at], names[count - 1]));
            }
        }
        assert forall|event: Seq<u8>| #[trigger] after.contains(event) <==> catalog.target(
            event,
        ) is Some && more.contains(event) by {
            if after.contains(event) {
                let k = choose|k: int| 0 <= k < after.len() && after[k] == event;
                if k < before.len() {
                    assert(before.contains(before[k]));
                    let at = choose|i: int| 0 <= i < fewer.len() && fewer[i] == event;
                    assert(more[at] == event);
                }
            }
            if catalog.target(event) is Some && more.contains(event) {
                let at = choose|i: int| 0 <= i < more.len() && more[i] == event;
                if at < count - 1 {
                    assert(fewer[at] == event);
                    assert(before.contains(event));
                    let k = choose|k: int| 0 <= k < before.len() && before[k] == event;
                    assert(after[k] == event);
                } else {
                    assert(after[after.len() - 1] == event);
                }
            }
        }
    } else {
        assert(names.take(0) =~= Seq::<Seq<u8>>::empty());
    }
}

impl<W> EventBroker for KeyedWaitlist<W> {
    type Waiter = W;

    closed spec fn well_formed(&self) -> bool {
        self.waiters.wf()
    }

    closed spec fn parked(&self) -> Map<Seq<u8>, Seq<W>> {
        waiter_views(self.waiters@)
    }

    fn park<C: Catalog>(&mut self, event: &[u8], waiter: W, catalog: &C) -> (returned: Option<W>) {
        if catalog.resolve(event).is_some() {
            return Some(waiter);
        }
        let ghost before = self.parked();
        let mut waiters: Vec<W> = match self.waiters.remove(event) {
            Some(waiters) => waiters,
            None => Vec::new(),
        };
        assert(waiters@ =~= parked_on(before, event@));
        waiters.push(waiter);
        let name: Vec<u8> = wire::copy_range(event, 0, event.len());
        assert(name@ =~= event@);
        let none: Option<Vec<W>> = self.waiters.insert(name, waiters);
        assert(self.parked() =~= before.insert(event@, parked_on(before, event@).push(waiter)));
        None
    }

    fn settle<C: Catalog>(&mut self, catalog: &C) -> (resolved: Vec<(Vec<u8>, W)>) {
        let ghost before = self.waiters;
        let ghost map = before@;
        let ghost names = before.names();
        let mut resolved: Vec<(Vec<u8>, W)> = Vec::new();
        let mut rest: NameMap<Vec<W>> = NameMap::new();
        std::mem::swap(&mut rest, &mut self.waiters);
        let mut kept: NameMap<Vec<W>> = NameMap::new();
        let total: usize = rest.len();
        let mut index: usize = 0;
        proof {
            before.lemma_names();
            assert(pair_views(resolved@) =~= Seq::<(Seq<u8>, W)>::empty());
            assert(names.skip(0) =~= names);
        }
        while index < total
            invariant
                index <= total == names.len(),
                catalog.well_formed(),
                rest.wf(),
                kept.wf(),
                namemap::in_order(names),
                forall|name: Seq<u8>| #[trigger] names.contains(name) <==> map.contains_key(name),
                rest.names() == names.skip(index as int),
                forall|name: Seq<u8>| #[trigger]
                    rest@.contains_key(name) ==> map.contains_key(name) && rest@[name] == map[name],
                forall|name: Seq<u8>| #[trigger]
                    kept@.contains_key(name) <==> catalog.target(name) is None && names.take(
                        index as int,
                    ).contains(name),
                forall|name: Seq<u8>| kept@.contains_key(name) ==> #[trigger] kept@[name] == map[name],
                pair_views(resolved@) == paired(
                    fired_names(names, *catalog, index as int),
                    waiter_views(map),
                ),
            decreases total - index,
        {
            let ghost earlier = names.take(index as int);
            let ghost later = names.take(index + 1);
            proof {
                assert(later =~= earlier.push(names[index as int]));
                assert forall|name: Seq<u8>| #[trigger] later.contains(name) <==> earlier.contains(
                    name,
                ) || name == names[index as int] by {
                    if later.contains(name) {
                        let k = choose|k: int| 0 <= k < later.len() && later[k] == name;
                        if k < index {
                            assert(earlier[k] == name);
                        }
                    }
                    if earlier.contains(name) {
                        let k = choose|k: int| 0 <= k < earlier.len() && earlier[k] == name;
                        assert(later[k] == name);
                    }
                    if name == names[index as int] {
                        assert(later[index as int] == name);
                    }
                }
            }
            if let Some((event, waiters)) = rest.take_first() {
                proof {
                    assert(event@ == names[index as int]);
                    assert(names.skip(index as int).drop_first() =~= names.skip(index + 1));
                    assert(names.contains(names[index as int]));
                }
                if catalog.resolve(&event).is_some() {
                    let ghost start = pair_views(resolved@);
                    let ghost all = waiters@;
                    push_pairs(&mut resolved, &event, waiters);
                    proof {
                        let fired = fired_names(names, *catalog, index as int);
                        let more = fired_names(names, *catalog, index + 1);
                        assert(more.drop_last() =~= fired);
                        assert(more.last() == event@);
                        assert(waiter_views(map)[event@] == all);
                    }
                } else {
                    let none: Option<Vec<W>> = kept.insert(event, waiters);
                }
            }
            index += 1;
        }
        self.waiters = kept;
        proof {
            assert(names.take(total as int) =~= names);
            lemma_fired_names(names, *catalog, total as int);
            let events = fired_names(names, *catalog, total as int);
            assert(namemap::in_order(events));
            assert(are_fired(events, waiter_views(map), *catalog));
            assert forall|event: Seq<u8>| self.parked().contains_key(
                event,
            ) implies #[trigger] self.parked()[event] == waiter_views(map)[event] by {
                assert(self.waiters@.contains_key(event));
                assert(self.waiters@[event] == map[event]);
            }
        }
        resolved
    }

    fn fire(&mut self, event: &[u8]) -> (waiters: Vec<W>) {
        let ghost before = self.parked();
        let waiters: Vec<W> = match self.waiters.remove(event) {
            Some(waiters) => waiters,
            None => Vec::new(),
        };
        proof {
            assert(waiters@ =~= parked_on(before, event@));
            assert(self.parked() =~= before.remove(event@));
        }
        waiters
    }
}

/// A parked waiter is returned when its event fires, behind those that were
/// parked on the event before it, and the event has no waiters afterwards.
pub proof fn law_parked_waiter_is_returned_when_fired<W>(
    parked: Map<Seq<u8>, Seq<W>>,
    event: Seq<u8>,
    waiter: W,
)
    ensures
        ({
            let with_waiter = parked.insert(event, parked_on(parked, event).push(waiter));
            &&& parked_on(with_waiter, event) == parked_on(parked, event).push(waiter)
            &&& parked_on(with_waiter.remove(event), event) == Seq::<W>::empty()
            &&& forall|other: Seq<u8>| #![trigger parked_on(with_waiter, other)]
                other != event ==> parked_on(with_waiter, other) == parked_on(parked, other)
        }),
{
}

/// A settlement is determined by what is parked and what has fired: there is one
/// order in which it runs.
pub proof fn law_settlement_order_is_unique<W, C: Catalog>(
    parked: Map<Seq<u8>, Seq<W>>,
    catalog: C,
    one: Seq<Seq<u8>>,
    two: Seq<Seq<u8>>,
)
    requires
        namemap::in_order(one),
        namemap::in_order(two),
        are_fired(one, parked, catalog),
        are_fired(two, parked, catalog),
    ensures
        paired(one, parked) == paired(two, parked),
{
    assert forall|name: Seq<u8>| one.contains(name) <==> two.contains(name) by {
        assert(one.contains(name) <==> parked.contains_key(name) && catalog.target(name) is Some);
        assert(two.contains(name) <==> parked.contains_key(name) && catalog.target(name) is Some);
    }
    namemap::lemma_in_order_unique(one, two);
}

} // verus!
