//! The name service: which connection each service name stands for, and who
//! waits for a name that is not there yet.
//!
//! Deferred lookups are kept until the service registers; then every waiter is
//! answered. Each registration of a name has the next generation, and a name
//! that was unregistered keeps its last one. Policy, audit, connections and
//! replies are the caller's: this module takes the policy's answers as arguments
//! and says what to reply.
use vstd::prelude::*;

use crate::broker;
use crate::broker::{Catalog, CatalogTarget, EventBroker, KeyedWaitlist};
use crate::namemap::NameMap;
use crate::wire;

verus! {

/// The largest status or audit image.
pub const STATUS_SNAPSHOT_MAX: usize = 4096;

/// What a name stands for. Connection zero is that of an unregistered name.
#[derive(Clone, Copy, Debug, PartialEq, Eq, Structural)]
pub struct Registration {
    pub connection: u64,
    pub generation: i64,
    /// The bearer key that a lookup must show, or zero.
    pub access_key: u64,
}

/// A protection domain.
#[derive(Clone, Copy, Debug, PartialEq, Eq, Structural)]
pub struct DomainIdentity {
    pub asid: u64,
    pub generation: u64,
}

/// A lookup that waits for its name.
#[derive(Clone, Copy, Debug, PartialEq, Eq, Structural)]
pub enum PendingLookup {
    /// A lookup with a bearer key, or zero.
    Legacy { reply: u64, access_key: u64 },
    /// A lookup under the authorization policy.
    Authorized { reply: u64, caller: DomainIdentity, requested: u32 },
    /// A lookup by an administrator on behalf of a target domain.
    Grant {
        reply: u64,
        actor: DomainIdentity,
        target: DomainIdentity,
        target_principal: u64,
        requested: u32,
    },
}

/// The name that a scalar argument packs: its little-endian bytes up to the
/// last one that is not zero.
pub open spec fn scalar_name(packed: u64) -> Seq<u8> {
    without_zeros(wire::le_bytes(packed as nat, 8))
}

/// `bytes` without the zeros at its end.
pub open spec fn without_zeros(bytes: Seq<u8>) -> Seq<u8>
    decreases bytes.len(),
{
    if bytes.len() > 0 && bytes.last() == 0 {
        without_zeros(bytes.drop_last())
    } else {
        bytes
    }
}

/// Unpack a scalar name.
pub fn scalar_key(packed: u64) -> (name: Vec<u8>)
    ensures
        name@ == scalar_name(packed),
{
    let mut name: Vec<u8> = Vec::new();
    wire::push_le(&mut name, packed, 8);
    let ghost all = name@;
    assert(all =~= wire::le_bytes(packed as nat, 8));
    while name.len() > 0 && name[name.len() - 1] == 0
        invariant
            without_zeros(name@) == without_zeros(all),
        decreases name@.len(),
    {
        let ghost before = name@;
        let last: Option<u8> = name.pop();
        assert(name@ =~= before.drop_last());
    }
    name
}

/// Whether a name of `len` bytes may be attached to a request.
pub fn valid_name_len(len: u64, max_name_len: usize) -> (ok: bool)
    ensures
        ok == (0 < len <= max_name_len),
{
    len != 0 && len <= max_name_len as u64
}

/// Whether an authorization request may have `len` bytes.
pub fn valid_request_len(len: u64, header_len: usize, max_len: usize) -> (ok: bool)
    ensures
        ok == (header_len <= len <= max_len),
{
    header_len as u64 <= len && len <= max_len as u64
}

/// The registered names.
pub struct Registry {
    names: NameMap<Registration>,
}

impl View for Registry {
    type V = Map<Seq<u8>, Registration>;

    closed spec fn view(&self) -> Map<Seq<u8>, Registration> {
        self.names@
    }
}

/// A live registration of `name`. An unregistered name is not a live
/// registration: a lookup of it waits.
pub open spec fn live(registry: Map<Seq<u8>, Registration>, name: Seq<u8>) -> bool {
    registry.contains_key(name) && registry[name].connection != 0
}

impl Registry {
    /// Generations start at one.
    pub closed spec fn wf(&self) -> bool {
        &&& self.names.wf()
        &&& forall|name: Seq<u8>|
            self.names@.contains_key(name) ==> (#[trigger] self.names@[name]).generation >= 1
    }

    pub fn new() -> (registry: Registry)
        ensures
            registry.wf(),
            registry@ == Map::<Seq<u8>, Registration>::empty(),
    {
        Registry { names: NameMap::new() }
    }

    /// What `name` stands for, registered or not.
    pub fn get(&self, name: &[u8]) -> (registration: Option<Registration>)
        requires
            self.wf(),
        ensures
            registration == (if self@.contains_key(name@) {
                Some(self@[name@])
            } else {
                None
            }),
            registration matches Some(found) ==> found.generation >= 1,
    {
        match self.names.get(name) {
            Some(registration) => Some(*registration),
            None => None,
        }
    }

    /// Set what `name` stands for.
    pub fn set(&mut self, name: Vec<u8>, registration: Registration) -> (previous: Option<Registration>)
        requires
            old(self).wf(),
            registration.generation >= 1,
        ensures
            final(self).wf(),
            final(self)@ == old(self)@.insert(name@, registration),
            previous == (if old(self)@.contains_key(name@) {
                Some(old(self)@[name@])
            } else {
                None
            }),
    {
        self.names.insert(name, registration)
    }

    /// How many names are known.
    pub fn len(&self) -> (len: usize)
        requires
            self.wf(),
        ensures
            len == self@.dom().len(),
            self@.dom().finite(),
    {
        self.names.len()
    }

    /// The known names in dictionary order.
    pub closed spec fn ordered(&self) -> Seq<Seq<u8>> {
        self.names.names()
    }

    /// The names are those of the registry, in dictionary order.
    pub proof fn lemma_ordered(&self)
        requires
            self.wf(),
        ensures
            crate::namemap::in_order(self.ordered()),
            forall|name: Seq<u8>| #[trigger]
                self.ordered().contains(name) <==> self@.contains_key(name),
    {
        self.names.lemma_names();
    }
}

/// The registry viewed as an immediate catalog (the broker's lookups).
impl Catalog for Registry {
    open spec fn well_formed(&self) -> bool {
        self.wf()
    }

    open spec fn target(&self, name: Seq<u8>) -> Option<CatalogTarget> {
        if live(self@, name) {
            Some(
                CatalogTarget {
                    generation: self@[name].generation as u64,
                    connection: self@[name].connection,
                },
            )
        } else {
            None
        }
    }

    fn resolve(&self, name: &[u8]) -> (target: Option<CatalogTarget>) {
        match self.get(name) {
            Some(registration) => {
                if registration.connection != 0 {
                    Some(
                        CatalogTarget {
                            generation: registration.generation as u64,
                            connection: registration.connection,
                        },
                    )
                } else {
                    None
                }
            },
            None => None,
        }
    }
}

/// Why a request was refused.
#[derive(Clone, Copy, Debug, PartialEq, Eq, Structural)]
pub enum NameError {
    Invalid,
    AccessDenied,
    NotFound,
    BadOpcode,
}

/// What to answer a lookup with.
#[derive(Clone, Copy, Debug, PartialEq, Eq, Structural)]
pub enum LookupAnswer {
    /// Reply with a connection of this generation.
    Connect { connection: u64, generation: i64 },
    Refuse { error: NameError },
    /// Nothing yet: the lookup waits.
    Deferred,
}

/// The answer to a lookup with bearer key `caller_key` of a live registration.
pub open spec fn legacy_answer(registration: Registration, caller_key: u64) -> LookupAnswer {
    if registration.access_key != 0 && registration.access_key != caller_key {
        LookupAnswer::Refuse { error: NameError::AccessDenied }
    } else {
        LookupAnswer::Connect {
            connection: registration.connection,
            generation: registration.generation,
        }
    }
}

/// Answer a lookup with a bearer key.
pub fn answer_legacy(registration: &Registration, caller_key: u64) -> (answer: LookupAnswer)
    ensures
        answer == legacy_answer(*registration, caller_key),
{
    if registration.access_key != 0 && registration.access_key != caller_key {
        LookupAnswer::Refuse { error: NameError::AccessDenied }
    } else {
        LookupAnswer::Connect {
            connection: registration.connection,
            generation: registration.generation,
        }
    }
}

/// What the authorization policy granted.
#[derive(Clone, Copy, Debug, PartialEq, Eq, Structural)]
pub struct Grant {
    pub rights: u32,
    pub service_generation: u64,
    pub policy_version: u64,
}

/// Why an authorized lookup was refused, as the audit log has it.
#[derive(Clone, Copy, Debug, PartialEq, Eq, Structural)]
pub enum Denial {
    /// The audit log is full: nothing is recorded.
    AuditFull,
    /// The policy refused; its own reason is recorded.
    Policy,
    ServiceMissing,
    StaleServiceGeneration,
}

/// The decision about an authorized lookup.
#[derive(Clone, Copy, Debug, PartialEq, Eq, Structural)]
pub enum Authorization {
    /// Record the denial, unless the audit log is full, and refuse.
    Refuse { denial: Denial, error: NameError },
    /// Delegate the connection, then record the outcome.
    Issue { connection: u64, generation: i64, grant: Grant },
}

/// Whether an authorized lookup may have its connection. Nothing is issued that
/// the audit log cannot record, and only the generation that the policy knows.
pub open spec fn authorized(
    registry: Map<Seq<u8>, Registration>,
    service: Seq<u8>,
    can_record: bool,
    grant: Option<Grant>,
) -> Authorization {
    if !can_record {
        Authorization::Refuse { denial: Denial::AuditFull, error: NameError::AccessDenied }
    } else {
        match grant {
            None => Authorization::Refuse {
                denial: Denial::Policy,
                error: NameError::AccessDenied,
            },
            Some(grant) => if !registry.contains_key(service) {
                Authorization::Refuse {
                    denial: Denial::ServiceMissing,
                    error: NameError::NotFound,
                }
            } else if registry[service].connection == 0 || registry[service].generation
                != grant.service_generation {
                Authorization::Refuse {
                    denial: Denial::StaleServiceGeneration,
                    error: NameError::AccessDenied,
                }
            } else {
                Authorization::Issue {
                    connection: registry[service].connection,
                    generation: registry[service].generation,
                    grant,
                }
            },
        }
    }
}

/// What the audit log records of a lookup.
#[derive(Clone, Copy, Debug, PartialEq, Eq, Structural)]
pub enum Outcome {
    Issued,
    Denied,
    DelegationFailed,
}

/// What to record after a connection was delegated, or could not be: the
/// outcome and the rights that were granted.
pub fn delegation_outcome(delegated: bool, grant: &Grant) -> (recorded: (Outcome, u32))
    ensures
        recorded == (if delegated {
            (Outcome::Issued, grant.rights)
        } else {
            (Outcome::DelegationFailed, 0)
        }),
{
    if delegated {
        (Outcome::Issued, grant.rights)
    } else {
        (Outcome::DelegationFailed, 0)
    }
}

/// The service's state.
#[verifier::ext_equal]
pub struct NameServiceView {
    pub registry: Map<Seq<u8>, Registration>,
    /// The lookups that wait for each name.
    pub waiting: Map<Seq<u8>, Seq<PendingLookup>>,
}

/// The generation of the next registration of `name`, unless the generations
/// are used up.
pub open spec fn next_generation(registry: Map<Seq<u8>, Registration>, name: Seq<u8>) -> Option<
    i64,
> {
    if !registry.contains_key(name) {
        Some(1)
    } else if registry[name].generation == i64::MAX {
        None
    } else {
        Some((registry[name].generation + 1) as i64)
    }
}

/// What a registration came to.
pub struct Registered {
    /// The new generation, or why there is none.
    pub result: Result<i64, NameError>,
    /// A connection to close, or zero: the previous one, or the offered one
    /// where it was refused.
    pub close: u64,
    /// The lookups to answer now, in the order in which they came.
    pub waiters: Vec<PendingLookup>,
}

/// The registry and the lookups that wait.
pub struct NameService {
    registry: Registry,
    waitlist: KeyedWaitlist<PendingLookup>,
}

impl View for NameService {
    type V = NameServiceView;

    closed spec fn view(&self) -> NameServiceView {
        NameServiceView { registry: self.registry@, waiting: self.waitlist.parked() }
    }
}

impl NameService {
    /// No lookup waits for a name that is there.
    pub closed spec fn wf(&self) -> bool {
        &&& self.registry.wf()
        &&& self.waitlist.well_formed()
        &&& forall|name: Seq<u8>| #[trigger]
            self.waitlist.parked().contains_key(name) ==> !live(self.registry@, name)
    }

    /// A lookup that can be answered does not wait.
    pub proof fn law_no_lookup_waits_for_a_live_name(&self, name: Seq<u8>)
        requires
            self.wf(),
            self@.waiting.contains_key(name),
        ensures
            !live(self@.registry, name),
    {
    }

    pub fn new() -> (service: NameService)
        ensures
            service.wf(),
            service@.registry == Map::<Seq<u8>, Registration>::empty(),
            service@.waiting == Map::<Seq<u8>, Seq<PendingLookup>>::empty(),
    {
        NameService { registry: Registry::new(), waitlist: KeyedWaitlist::new() }
    }

    /// The generation that the next registration of `name` would have. `None`
    /// once the generations are used up: a live generation never wraps, which
    /// would make stale generation-fenced cleanup authoritative again.
    pub fn next_generation(&self, name: &[u8]) -> (generation: Option<i64>)
        requires
            self.wf(),
        ensures
            generation == next_generation(self@.registry, name@),
    {
        match self.registry.get(name) {
            Some(previous) => {
                if previous.generation == i64::MAX {
                    None
                } else {
                    Some(previous.generation + 1)
                }
            },
            None => Some(1),
        }
    }

    /// Register `name`. `binding` is the generation that the policy published,
    /// if it published the service; only the expected one is accepted.
    ///
    /// Publishing the new entry is the replacement: the old connection is closed
    /// only after no lookup can see it, and waiters are answered only after the
    /// new generation is in place.
    pub fn register(
        &mut self,
        name: Vec<u8>,
        connection: u64,
        access_key: u64,
        binding: Option<u64>,
    ) -> (registered: Registered)
        requires
            old(self).wf(),
        ensures
            final(self).wf(),
            match next_generation(old(self)@.registry, name@) {
                None => {
                    &&& registered.result == Err::<i64, NameError>(NameError::Invalid)
                    &&& registered.close == connection
                    &&& registered.waiters@.len() == 0
                    &&& final(self)@ == old(self)@
                },
                Some(generation) => if binding == Some(generation as u64) {
                    &&& registered.result == Ok::<i64, NameError>(generation)
                    &&& registered.close == (if old(self)@.registry.contains_key(name@) {
                        old(self)@.registry[name@].connection
                    } else {
                        0
                    })
                    &&& registered.waiters@ == broker::parked_on(old(self)@.waiting, name@)
                    &&& final(self)@ == bound(
                        old(self)@,
                        name@,
                        Registration { connection, generation, access_key },
                    )
                } else {
                    &&& registered.result == Err::<i64, NameError>(NameError::AccessDenied)
                    &&& registered.close == connection
                    &&& registered.waiters@.len() == 0
                    &&& final(self)@ == old(self)@
                },
            },
    {
        let generation: i64 = match self.next_generation(&name) {
            Some(generation) => generation,
            None => {
                return Registered {
                    result: Err(NameError::Invalid),
                    close: connection,
                    waiters: Vec::new(),
                };
            },
        };
        let expected: bool = match binding {
            Some(published) => published == generation as u64,
            None => false,
        };
        if !expected {
            return Registered {
                result: Err(NameError::AccessDenied),
                close: connection,
                waiters: Vec::new(),
            };
        }
        let key: Vec<u8> = wire::copy_range(&name, 0, name.len());
        assert(key@ =~= name@);
        let previous: Option<Registration> = self.registry.set(
            name,
            Registration { connection, generation, access_key },
        );
        let close: u64 = match previous {
            Some(previous) => previous.connection,
            None => 0,
        };
        let waiters: Vec<PendingLookup> = self.waitlist.fire(&key);
        Registered { result: Ok(generation), close, waiters }
    }

    /// Look `name` up, or wait for it. `caller_key` is the bearer key, or zero.
    pub fn lookup_or_defer(&mut self, name: &[u8], reply: u64, caller_key: u64) -> (answer:
        LookupAnswer)
        requires
            old(self).wf(),
        ensures
            final(self).wf(),
            if live(old(self)@.registry, name@) {
                &&& answer == legacy_answer(old(self)@.registry[name@], caller_key)
                &&& final(self)@ == old(self)@
            } else {
                &&& answer == LookupAnswer::Deferred
                &&& final(self)@ == waits(
                    old(self)@,
                    name@,
                    PendingLookup::Legacy { reply, access_key: caller_key },
                )
            },
    {
        let ghost before = self@;
        if let Some(registration) = self.registry.get(name) {
            if registration.connection != 0 {
                return answer_legacy(&registration, caller_key);
            }
        }
        let returned: Option<PendingLookup> = self.waitlist.park(
            name,
            PendingLookup::Legacy { reply, access_key: caller_key },
            &self.registry,
        );
        LookupAnswer::Deferred
    }

    /// Look `name` up without waiting and without a bearer key.
    pub fn try_lookup(&self, name: &[u8]) -> (answer: LookupAnswer)
        requires
            self.wf(),
        ensures
            answer == (if !live(self@.registry, name@) {
                LookupAnswer::Refuse { error: NameError::NotFound }
            } else {
                legacy_answer(self@.registry[name@], 0)
            }),
    {
        match self.registry.get(name) {
            Some(registration) => {
                if registration.connection == 0 {
                    LookupAnswer::Refuse { error: NameError::NotFound }
                } else if registration.access_key == 0 {
                    LookupAnswer::Connect {
                        connection: registration.connection,
                        generation: registration.generation,
                    }
                } else {
                    LookupAnswer::Refuse { error: NameError::AccessDenied }
                }
            },
            None => LookupAnswer::Refuse { error: NameError::NotFound },
        }
    }

    /// Whether `name` has a live registration.
    pub fn resolves(&self, name: &[u8]) -> (found: bool)
        requires
            self.wf(),
        ensures
            found == live(self@.registry, name@),
    {
        self.registry.resolve(name).is_some()
    }

    /// Let an authorized or delegated lookup wait for `name`. Returns whether it
    /// waits; a lookup of a live name is to be decided at once.
    pub fn defer(&mut self, name: &[u8], lookup: PendingLookup) -> (deferred: bool)
        requires
            old(self).wf(),
        ensures
            final(self).wf(),
            deferred == !live(old(self)@.registry, name@),
            final(self)@ == (if deferred {
                waits(old(self)@, name@, lookup)
            } else {
                old(self)@
            }),
    {
        self.waitlist.park(name, lookup, &self.registry).is_none()
    }

    /// Decide an authorized lookup. `can_record` is whether the audit log has
    /// room, and `grant` what the policy granted, if anything.
    pub fn authorize(&self, service: &[u8], can_record: bool, grant: Option<Grant>) -> (decision:
        Authorization)
        requires
            self.wf(),
        ensures
            decision == authorized(self@.registry, service@, can_record, grant),
    {
        if !can_record {
            return Authorization::Refuse {
                denial: Denial::AuditFull,
                error: NameError::AccessDenied,
            };
        }
        let grant: Grant = match grant {
            Some(grant) => grant,
            None => {
                return Authorization::Refuse {
                    denial: Denial::Policy,
                    error: NameError::AccessDenied,
                };
            },
        };
        match self.registry.get(service) {
            None => Authorization::Refuse {
                denial: Denial::ServiceMissing,
                error: NameError::NotFound,
            },
            Some(registration) => {
                if registration.connection == 0 || registration.generation as u64
                    != grant.service_generation {
                    Authorization::Refuse {
                        denial: Denial::StaleServiceGeneration,
                        error: NameError::AccessDenied,
                    }
                } else {
                    Authorization::Issue {
                        connection: registration.connection,
                        generation: registration.generation,
                        grant,
                    }
                }
            },
        }
    }

    /// The generation of a live registration of `name`. With `expected`, only
    /// that generation counts.
    pub fn live_generation(&self, name: &[u8], expected: Option<u64>) -> (generation: Option<i64>)
        requires
            self.wf(),
        ensures
            generation == (if live(self@.registry, name@) && (expected is None
                || self@.registry[name@].generation == expected->0) {
                Some(self@.registry[name@].generation)
            } else {
                None
            }),
    {
        match self.registry.get(name) {
            Some(registration) => {
                let wanted: bool = match expected {
                    Some(expected) => registration.generation as u64 == expected,
                    None => true,
                };
                if registration.connection != 0 && wanted {
                    Some(registration.generation)
                } else {
                    None
                }
            },
            None => None,
        }
    }

    /// Unregister a live name that the policy unpublished. Its generation stays.
    /// Returns the connection to close and the generation.
    pub fn unregister(&mut self, name: &[u8]) -> (gone: Option<(u64, i64)>)
        requires
            old(self).wf(),
        ensures
            final(self).wf(),
            if live(old(self)@.registry, name@) {
                let registration = old(self)@.registry[name@];
                &&& gone == Some((registration.connection, registration.generation))
                &&& final(self)@ == unbound(old(self)@, name@)
            } else {
                gone is None && final(self)@ == old(self)@
            },
    {
        match self.registry.get(name) {
            Some(registration) => {
                if registration.connection == 0 {
                    return None;
                }
                let key: Vec<u8> = wire::copy_range(name, 0, name.len());
                assert(key@ =~= name@);
                let previous: Option<Registration> = self.registry.set(
                    key,
                    Registration { connection: 0, ..registration },
                );
                Some((registration.connection, registration.generation))
            },
            None => None,
        }
    }
}

/// The service once `name` is registered: nobody waits for it any more.
pub open spec fn bound(
    service: NameServiceView,
    name: Seq<u8>,
    registration: Registration,
) -> NameServiceView {
    NameServiceView {
        registry: service.registry.insert(name, registration),
        waiting: service.waiting.remove(name),
    }
}

/// The service once `name` is unregistered: only its generation is remembered.
pub open spec fn unbound(service: NameServiceView, name: Seq<u8>) -> NameServiceView {
    NameServiceView {
        registry: service.registry.insert(
            name,
            Registration { connection: 0, ..service.registry[name] },
        ),
        ..service
    }
}

/// The service with one more lookup that waits for `name`.
pub open spec fn waits(service: NameServiceView, name: Seq<u8>, lookup: PendingLookup) ->
    NameServiceView {
    NameServiceView {
        waiting: service.waiting.insert(
            name,
            broker::parked_on(service.waiting, name).push(lookup),
        ),
        ..service
    }
}

/// A lookup in the audit log.
pub struct AuditRecord {
    pub sequence: u64,
    pub caller: DomainIdentity,
    /// The caller's principal, or zero.
    pub principal: u64,
    pub service: Vec<u8>,
    pub service_generation: u64,
    pub policy_version: u64,
    pub requested: u32,
    pub granted: u32,
    pub outcome: Outcome,
}

/// What an audit record says.
#[verifier::ext_equal]
pub struct AuditRecordView {
    pub sequence: u64,
    pub caller: DomainIdentity,
    pub principal: u64,
    pub service: Seq<u8>,
    pub service_generation: u64,
    pub policy_version: u64,
    pub requested: u32,
    pub granted: u32,
    pub outcome: Outcome,
}

impl View for AuditRecord {
    type V = AuditRecordView;

    open spec fn view(&self) -> AuditRecordView {
        AuditRecordView {
            sequence: self.sequence,
            caller: self.caller,
            principal: self.principal,
            service: self.service@,
            service_generation: self.service_generation,
            policy_version: self.policy_version,
            requested: self.requested,
            granted: self.granted,
            outcome: self.outcome,
        }
    }
}

/// The views of audit records.
pub open spec fn audit_views(records: Seq<AuditRecord>) -> Seq<AuditRecordView> {
    records.map_values(|record: AuditRecord| record@)
}

/// An outcome as a 32-bit two's complement number: zero, minus one or minus two.
pub open spec fn outcome_code(outcome: Outcome) -> u32 {
    match outcome {
        Outcome::Issued => 0,
        Outcome::Denied => 0xffff_ffff,
        Outcome::DelegationFailed => 0xffff_fffe,
    }
}

/// The bytes of an audit record: 64 bytes and the service name.
pub open spec fn audit_code(record: AuditRecordView) -> Seq<u8> {
    wire::le_bytes(record.sequence as nat, 8) + wire::le_bytes(record.caller.asid as nat, 8)
        + wire::le_bytes(record.caller.generation as nat, 8) + wire::le_bytes(
        record.principal as nat,
        8,
    ) + wire::le_bytes(record.service_generation as nat, 8) + wire::le_bytes(
        record.policy_version as nat,
        8,
    ) + wire::le_bytes(record.requested as nat, 4) + wire::le_bytes(record.granted as nat, 4)
        + wire::le_bytes(outcome_code(record.outcome) as nat, 4) + wire::le_bytes(
        record.service.len(),
        2,
    ) + wire::le_bytes(0, 2) + record.service
}

/// How many leading records fit behind `offset` bytes of an image.
pub open spec fn audit_fitting(records: Seq<AuditRecordView>, offset: int) -> int
    decreases records.len(),
{
    if records.len() == 0 || offset + 64 + records[0].service.len() > STATUS_SNAPSHOT_MAX {
        0
    } else {
        1 + audit_fitting(records.skip(1), offset + 64 + records[0].service.len())
    }
}

/// The audit image: the leading records that fit, behind a magic number and
/// their count.
pub open spec fn audit_image(records: Seq<AuditRecordView>, magic: u32) -> Seq<u8> {
    let count = audit_fitting(records, 8);
    wire::le_bytes(magic as nat, 4) + wire::le_bytes(count as nat, 4) + wire::records(
        records.take(count),
        |record: AuditRecordView| audit_code(record),
    )
}

fn push_audit_record(out: &mut Vec<u8>, record: &AuditRecord)
    requires
        record.service@.len() <= STATUS_SNAPSHOT_MAX,
    ensures
        final(out)@ == old(out)@ + audit_code(record@),
        audit_code(record@).len() == 64 + record.service@.len(),
{
    let ghost before = out@;
    let code: u32 = match record.outcome {
        Outcome::Issued => 0,
        Outcome::Denied => 0xffff_ffff,
        Outcome::DelegationFailed => 0xffff_fffe,
    };
    wire::push_le(out, record.sequence, 8);
    wire::push_le(out, record.caller.asid, 8);
    wire::push_le(out, record.caller.generation, 8);
    wire::push_le(out, record.principal, 8);
    wire::push_le(out, record.service_generation, 8);
    wire::push_le(out, record.policy_version, 8);
    wire::push_le(out, record.requested as u64, 4);
    wire::push_le(out, record.granted as u64, 4);
    wire::push_le(out, code as u64, 4);
    wire::push_le(out, record.service.len() as u64, 2);
    wire::push_le(out, 0, 2);
    wire::push_all(out, &record.service);
    proof {
        assert(out@ =~= before + audit_code(record@));
        wire::lemma_le_bytes_len(record.sequence as nat, 8);
        wire::lemma_le_bytes_len(record.caller.asid as nat, 8);
        wire::lemma_le_bytes_len(record.caller.generation as nat, 8);
        wire::lemma_le_bytes_len(record.principal as nat, 8);
        wire::lemma_le_bytes_len(record.service_generation as nat, 8);
        wire::lemma_le_bytes_len(record.policy_version as nat, 8);
        wire::lemma_le_bytes_len(record.requested as nat, 4);
        wire::lemma_le_bytes_len(record.granted as nat, 4);
        wire::lemma_le_bytes_len(code as nat, 4);
        wire::lemma_le_bytes_len(record.service@.len(), 2);
        wire::lemma_le_bytes_len(0, 2);
    }
}

/// Build the audit image.
pub fn write_audit_snapshot(records: &[AuditRecord], magic: u32) -> (image: Vec<u8>)
    ensures
        image@ == audit_image(audit_views(records@), magic),
        image@.len() <= STATUS_SNAPSHOT_MAX,
{
    let ghost views = audit_views(records@);
    let ghost code = |record: AuditRecordView| audit_code(record);
    let mut body: Vec<u8> = Vec::new();
    let mut offset: usize = 8;
    let mut count: usize = 0;
    assert(views.take(0) =~= Seq::<AuditRecordView>::empty());
    assert(views.skip(0) =~= views);
    while count < records.len() && offset <= STATUS_SNAPSHOT_MAX - 64
        && records[count].service.len() <= STATUS_SNAPSHOT_MAX - 64 - offset
        invariant
            count <= records@.len(),
            views == audit_views(records@),
            code == (|record: AuditRecordView| audit_code(record)),
            8 <= offset <= STATUS_SNAPSHOT_MAX,
            body@ == wire::records(views.take(count as int), code),
            body@.len() + 8 == offset,
            audit_fitting(views, 8) == count + audit_fitting(
                views.skip(count as int),
                offset as int,
            ),
        decreases records@.len() - count,
    {
        proof {
            let rest = views.skip(count as int);
            assert(rest[0] == views[count as int]);
            assert(rest.skip(1) =~= views.skip(count + 1));
            let next = views.take(count + 1);
            assert(next.drop_last() =~= views.take(count as int));
            assert(next.last() == records@[count as int]@);
        }
        push_audit_record(&mut body, &records[count]);
        offset = offset + 64 + records[count].service.len();
        count += 1;
    }
    proof {
        let rest = views.skip(count as int);
        if count < records@.len() {
            assert(rest[0] == views[count as int]);
        }
        assert(audit_fitting(rest, offset as int) == 0);
    }
    let mut image: Vec<u8> = Vec::new();
    wire::push_le(&mut image, magic as u64, 4);
    wire::push_le(&mut image, count as u64, 4);
    wire::push_all(&mut image, &body);
    proof {
        wire::lemma_le_bytes_len(magic as nat, 4);
        wire::lemma_le_bytes_len(count as nat, 4);
        assert(image@ =~= audit_image(views, magic));
    }
    image
}

/// Which of the three header words of a status image is which.
#[derive(Clone, Copy, Debug, PartialEq, Eq)]
pub struct StatusLayout {
    pub magic_number: u32,
    pub magic: usize,
    pub registered: usize,
    pub pending: usize,
}

impl StatusLayout {
    pub open spec fn wf(self) -> bool {
        self.magic < 3 && self.registered < 3 && self.pending < 3
    }

    /// Whether the words are within the header.
    pub fn is_wf(&self) -> (ok: bool)
        ensures
            ok == self.wf(),
    {
        self.magic < 3 && self.registered < 3 && self.pending < 3
    }
}

/// How much of a name a status image shows.
pub open spec fn shown_len(name: Seq<u8>) -> int {
    if name.len() > 255 {
        255
    } else {
        name.len() as int
    }
}

/// The names that fit behind `length` bytes of an image, each behind its length.
pub open spec fn listed_names(names: Seq<Seq<u8>>, length: int) -> Seq<u8>
    decreases names.len(),
{
    if names.len() == 0 || length + 1 + shown_len(names[0]) > STATUS_SNAPSHOT_MAX {
        Seq::empty()
    } else {
        seq![shown_len(names[0]) as u8] + names[0].take(shown_len(names[0])) + listed_names(
            names.skip(1),
            length + 1 + shown_len(names[0]),
        )
    }
}

/// The three header words of a status image.
pub open spec fn status_header(layout: StatusLayout, registered: u32, pending: u32) -> Seq<u32> {
    seq![0u32, 0u32, 0u32].update(layout.magic as int, layout.magic_number).update(
        layout.registered as int,
        registered,
    ).update(layout.pending as int, pending)
}

/// The status image.
pub open spec fn status_bytes(
    layout: StatusLayout,
    names: Seq<Seq<u8>>,
    registered: u32,
    pending: u32,
) -> Seq<u8> {
    let header = status_header(layout, registered, pending);
    wire::le_bytes(header[0] as nat, 4) + wire::le_bytes(header[1] as nat, 4) + wire::le_bytes(
        header[2] as nat,
        4,
    ) + listed_names(names, 12)
}

impl NameService {
    /// The names of the registry in dictionary order.
    pub closed spec fn ordered(&self) -> Seq<Seq<u8>> {
        self.registry.ordered()
    }

    /// The names are those of the registry, in dictionary order.
    pub proof fn lemma_ordered(&self)
        requires
            self.wf(),
        ensures
            crate::namemap::in_order(self.ordered()),
            forall|name: Seq<u8>| #[trigger]
                self.ordered().contains(name) <==> self@.registry.contains_key(name),
    {
        self.registry.lemma_ordered();
    }

    /// Build the status image: how many names are known, how many are waited
    /// for, and the names that fit.
    pub fn status_image(&self, layout: &StatusLayout) -> (image: Vec<u8>)
        requires
            self.wf(),
            layout.wf(),
        ensures
            image@ == status_bytes(
                *layout,
                self.ordered(),
                (self@.registry.dom().len() % 0x1_0000_0000) as u32,
                (self@.waiting.dom().len() % 0x1_0000_0000) as u32,
            ),
            image@.len() <= STATUS_SNAPSHOT_MAX,
    {
        let registered: usize = self.registry.len();
        let waited: usize = self.waitlist.len();
        let mut header: [u32; 3] = [0, 0, 0];
        header[layout.magic] = layout.magic_number;
        header[layout.registered] = (registered as u64 % 0x1_0000_0000) as u32;
        header[layout.pending] = (waited as u64 % 0x1_0000_0000) as u32;
        assert(header@ =~= status_header(
            *layout,
            (registered as u64 % 0x1_0000_0000) as u32,
            (waited as u64 % 0x1_0000_0000) as u32,
        ));
        let mut image: Vec<u8> = Vec::new();
        wire::push_le(&mut image, header[0] as u64, 4);
        wire::push_le(&mut image, header[1] as u64, 4);
        wire::push_le(&mut image, header[2] as u64, 4);
        proof {
            wire::lemma_le_bytes_len(header[0] as nat, 4);
            wire::lemma_le_bytes_len(header[1] as nat, 4);
            wire::lemma_le_bytes_len(header[2] as nat, 4);
        }
        let ghost start = image@;
        let ghost names = self.registry.ordered();
        let total: usize = self.registry.names.len();
        let mut index: usize = 0;
        let mut open: bool = true;
        assert(names.skip(0) =~= names);
        assert(start + listed_names(names, 12) =~= image@ + listed_names(names, 12));
        while open && index < total
            invariant
                self.wf(),
                names == self.registry.ordered(),
                index <= total == names.len(),
                12 <= image@.len() <= STATUS_SNAPSHOT_MAX,
                start + listed_names(names, 12) == image@ + if open {
                    listed_names(names.skip(index as int), image@.len() as int)
                } else {
                    Seq::empty()
                },
            decreases
                total - index,
                (if open {
                    1int
                } else {
                    0
                }),
        {
            let name: &Vec<u8> = self.registry.names.name_at(index);
            let shown: usize = if name.len() > 255 {
                255
            } else {
                name.len()
            };
            assert(names.skip(index as int)[0] == name@);
            if image.len() + 1 + shown > STATUS_SNAPSHOT_MAX {
                open = false;
            } else {
                let ghost before = image@;
                image.push(shown as u8);
                wire::push_range(&mut image, name, 0, shown);
                proof {
                    assert(names.skip(index as int).skip(1) =~= names.skip(index + 1));
                    let part = seq![shown as u8] + name@.take(shown as int);
                    assert(image@ =~= before + part);
                    let rest = listed_names(names.skip(index + 1), image@.len() as int);
                    assert(before + (part + rest) =~= image@ + rest);
                }
                index += 1;
            }
        }
        proof {
            if open {
                assert(names.skip(index as int) =~= Seq::<Seq<u8>>::empty());
            }
            assert(image@ + Seq::<u8>::empty() =~= image@);
        }
        image
    }
}

/// Each registration of a name has a later generation than the one before it,
/// whether or not the name was unregistered in between.
pub proof fn law_generations_increase(registry: Map<Seq<u8>, Registration>, name: Seq<u8>)
    requires
        registry.contains_key(name),
    ensures
        next_generation(registry, name) matches Some(generation) ==> generation
            > registry[name].generation,
        next_generation(
            registry.insert(name, Registration { connection: 0, ..registry[name] }),
            name,
        ) == next_generation(registry, name),
{
}

/// A lookup that waits is answered by the next registration of its name, behind
/// the lookups that waited before it.
pub proof fn law_waiting_lookup_is_answered(
    service: NameServiceView,
    name: Seq<u8>,
    lookup: PendingLookup,
)
    ensures
        ({
            let waiting = waits(service, name, lookup).waiting;
            &&& broker::parked_on(waiting, name).last() == lookup
            &&& broker::parked_on(waiting, name).drop_last() == broker::parked_on(
                service.waiting,
                name,
            )
            &&& broker::parked_on(waiting.remove(name), name).len() == 0
        }),
{
    let before = broker::parked_on(service.waiting, name);
    assert(before.push(lookup).drop_last() =~= before);
}

/// An authorized lookup gets a connection only of the generation that the
/// policy granted, and only if that can be recorded.
pub proof fn law_issued_connection_is_granted_and_recorded(
    registry: Map<Seq<u8>, Registration>,
    service: Seq<u8>,
    can_record: bool,
    grant: Option<Grant>,
)
    ensures
        authorized(registry, service, can_record, grant) is Issue <==> can_record && grant is Some
            && live(registry, service) && registry[service].generation
            == grant->0.service_generation,
{
}

/// An unregistered name is not found until it is registered again.
pub proof fn law_unregistered_name_is_not_live(
    registry: Map<Seq<u8>, Registration>,
    name: Seq<u8>,
    registration: Registration,
)
    ensures
        !live(registry.insert(name, Registration { connection: 0, ..registration }), name),
{
}

/// The numbers of the requests.
#[derive(Clone, Copy, Debug, PartialEq, Eq)]
pub struct Opcodes {
    pub register: u32,
    pub register_keyed: u32,
    pub register_named: u32,
    pub register_authorized: u32,
    pub lookup: u32,
    pub lookup_keyed: u32,
    pub lookup_named: u32,
    pub lookup_authorized: u32,
    pub lookup_for_grant: u32,
    pub try_lookup: u32,
    pub try_lookup_named: u32,
    pub unregister: u32,
    pub unregister_generation: u32,
    pub set_policy: u32,
    pub audit: u32,
    pub status: u32,
}

/// A request by its kind.
#[derive(Clone, Copy, Debug, PartialEq, Eq, Structural)]
pub enum Operation {
    Register,
    RegisterKeyed,
    RegisterNamed,
    RegisterAuthorized,
    Lookup,
    LookupKeyed,
    LookupNamed,
    LookupAuthorized,
    LookupForGrant,
    TryLookup,
    TryLookupNamed,
    Unregister,
    UnregisterGeneration,
    SetPolicy,
    Audit,
    Status,
    Unknown,
}

/// The kind of request that a number stands for; the first of two equal
/// numbers counts.
pub open spec fn operation_for(codes: Opcodes, opcode: u32) -> Operation {
    if opcode == codes.register {
        Operation::Register
    } else if opcode == codes.register_keyed {
        Operation::RegisterKeyed
    } else if opcode == codes.register_named {
        Operation::RegisterNamed
    } else if opcode == codes.lookup {
        Operation::Lookup
    } else if opcode == codes.unregister {
        Operation::Unregister
    } else if opcode == codes.unregister_generation {
        Operation::UnregisterGeneration
    } else if opcode == codes.try_lookup {
        Operation::TryLookup
    } else if opcode == codes.lookup_keyed {
        Operation::LookupKeyed
    } else if opcode == codes.lookup_named {
        Operation::LookupNamed
    } else if opcode == codes.try_lookup_named {
        Operation::TryLookupNamed
    } else if opcode == codes.register_authorized {
        Operation::RegisterAuthorized
    } else if opcode == codes.lookup_authorized {
        Operation::LookupAuthorized
    } else if opcode == codes.set_policy {
        Operation::SetPolicy
    } else if opcode == codes.audit {
        Operation::Audit
    } else if opcode == codes.lookup_for_grant {
        Operation::LookupForGrant
    } else if opcode == codes.status {
        Operation::Status
    } else {
        Operation::Unknown
    }
}

/// Tell a request's kind by its number.
pub fn operation_of(codes: &Opcodes, opcode: u32) -> (operation: Operation)
    ensures
        operation == operation_for(*codes, opcode),
{
    if opcode == codes.register {
        Operation::Register
    } else if opcode == codes.register_keyed {
        Operation::RegisterKeyed
    } else if opcode == codes.register_named {
        Operation::RegisterNamed
    } else if opcode == codes.lookup {
        Operation::Lookup
    } else if opcode == codes.unregister {
        Operation::Unregister
    } else if opcode == codes.unregister_generation {
        Operation::UnregisterGeneration
    } else if opcode == codes.try_lookup {
        Operation::TryLookup
    } else if opcode == codes.lookup_keyed {
        Operation::LookupKeyed
    } else if opcode == codes.lookup_named {
        Operation::LookupNamed
    } else if opcode == codes.try_lookup_named {
        Operation::TryLookupNamed
    } else if opcode == codes.register_authorized {
        Operation::RegisterAuthorized
    } else if opcode == codes.lookup_authorized {
        Operation::LookupAuthorized
    } else if opcode == codes.set_policy {
        Operation::SetPolicy
    } else if opcode == codes.audit {
        Operation::Audit
    } else if opcode == codes.lookup_for_grant {
        Operation::LookupForGrant
    } else if opcode == codes.status {
        Operation::Status
    } else {
        Operation::Unknown
    }
}

/// A request under the authorization policy, as it was decoded.
pub enum AuthRequest {
    Publish { service: Vec<u8>, ceiling: u32 },
    Lookup { service: Vec<u8>, requested: u32 },
    SetPolicy { service: Vec<u8>, subject: u64, allowed: u32, expected_version: u64 },
    GrantLookup {
        service: Vec<u8>,
        requested: u32,
        /// The domain that gets the connection, unless it is none.
        target: Option<DomainIdentity>,
        /// Its principal, unless it is none.
        target_principal: Option<u64>,
    },
}

/// A request with what its memory held and what the policy knows of its sender.
pub struct Message {
    pub operation: Operation,
    pub argument: u64,
    pub has_reply: bool,
    pub has_connection: bool,
    /// The bearer key in the memory, or zero.
    pub access_key: u64,
    /// The name in the memory, where one could be read.
    pub name: Option<Vec<u8>>,
    /// The generation in the memory, where one could be read.
    pub generation: Option<u64>,
    /// The authorization request in the memory, where one could be decoded.
    pub request: Option<AuthRequest>,
    /// The sender, where the policy knows it.
    pub sender: Option<DomainIdentity>,
    /// The sender administers the policy.
    pub administers: bool,
}

/// Who publishes a service.
#[derive(Clone, Copy, Debug, PartialEq, Eq, Structural)]
pub enum Publisher {
    /// The name service itself, with the rights of a client.
    Own,
    Sender { identity: DomainIdentity, ceiling: u32 },
}

/// What to do about a request.
pub enum Plan {
    /// Nothing: there is nobody to answer.
    Ignore,
    /// Close what came along and answer with an error.
    Refuse { error: NameError },
    Register { name: Vec<u8>, access_key: u64, publisher: Publisher },
    Lookup { name: Vec<u8>, access_key: u64 },
    TryLookup { name: Vec<u8> },
    /// Unregister, only this generation where one is given.
    Unregister { name: Vec<u8>, expected: Option<u64> },
    Authorize { service: Vec<u8>, caller: DomainIdentity, requested: u32 },
    SetPolicy {
        service: Vec<u8>,
        actor: DomainIdentity,
        subject: u64,
        allowed: u32,
        expected_version: u64,
    },
    Audit,
    Grant {
        service: Vec<u8>,
        actor: DomainIdentity,
        target: DomainIdentity,
        target_principal: u64,
        requested: u32,
    },
    Status,
}

/// What to do about a request, by what it holds.
pub enum PlanView {
    Ignore,
    Refuse { error: NameError },
    Register { name: Seq<u8>, access_key: u64, publisher: Publisher },
    Lookup { name: Seq<u8>, access_key: u64 },
    TryLookup { name: Seq<u8> },
    Unregister { name: Seq<u8>, expected: Option<u64> },
    Authorize { service: Seq<u8>, caller: DomainIdentity, requested: u32 },
    SetPolicy {
        service: Seq<u8>,
        actor: DomainIdentity,
        subject: u64,
        allowed: u32,
        expected_version: u64,
    },
    Audit,
    Grant {
        service: Seq<u8>,
        actor: DomainIdentity,
        target: DomainIdentity,
        target_principal: u64,
        requested: u32,
    },
    Status,
}

impl View for Plan {
    type V = PlanView;

    open spec fn view(&self) -> PlanView {
        match *self {
            Plan::Ignore => PlanView::Ignore,
            Plan::Refuse { error } => PlanView::Refuse { error },
            Plan::Register { name, access_key, publisher } => PlanView::Register {
                name: name@,
                access_key,
                publisher,
            },
            Plan::Lookup { name, access_key } => PlanView::Lookup { name: name@, access_key },
            Plan::TryLookup { name } => PlanView::TryLookup { name: name@ },
            Plan::Unregister { name, expected } => PlanView::Unregister { name: name@, expected },
            Plan::Authorize { service, caller, requested } => PlanView::Authorize {
                service: service@,
                caller,
                requested,
            },
            Plan::SetPolicy { service, actor, subject, allowed, expected_version } =>
                PlanView::SetPolicy {
                service: service@,
                actor,
                subject,
                allowed,
                expected_version,
            },
            Plan::Audit => PlanView::Audit,
            Plan::Grant { service, actor, target, target_principal, requested } =>
                PlanView::Grant {
                service: service@,
                actor,
                target,
                target_principal,
                requested,
            },
            Plan::Status => PlanView::Status,
        }
    }
}

/// What a request asks for. A registration offers a connection; a lookup has
/// somebody to answer; policy requests come from a sender that the policy knows,
/// and only its administrators see the audit log or look up for others.
pub open spec fn planned(message: Message) -> PlanView {
    let scalar = scalar_name(message.argument);
    let invalid = PlanView::Refuse { error: NameError::Invalid };
    let denied = PlanView::Refuse { error: NameError::AccessDenied };
    match message.operation {
        Operation::Register => if message.has_connection {
            PlanView::Register { name: scalar, access_key: 0, publisher: Publisher::Own }
        } else {
            invalid
        },
        Operation::RegisterKeyed => if message.has_connection {
            PlanView::Register {
                name: scalar,
                access_key: message.access_key,
                publisher: Publisher::Own,
            }
        } else {
            invalid
        },
        Operation::RegisterNamed => match message.name {
            Some(name) if message.has_connection => PlanView::Register {
                name: name@,
                access_key: 0,
                publisher: Publisher::Own,
            },
            _ => invalid,
        },
        Operation::RegisterAuthorized => match (message.request, message.sender) {
            (
                Some(AuthRequest::Publish { service, ceiling }),
                Some(identity),
            ) if message.has_connection => PlanView::Register {
                name: service@,
                access_key: 0,
                publisher: Publisher::Sender { identity, ceiling },
            },
            _ => denied,
        },
        Operation::Lookup => if message.has_reply {
            PlanView::Lookup { name: scalar, access_key: 0 }
        } else {
            PlanView::Ignore
        },
        Operation::LookupKeyed => if message.has_reply {
            PlanView::Lookup { name: scalar, access_key: message.access_key }
        } else {
            PlanView::Ignore
        },
        Operation::LookupNamed => if message.has_reply {
            match message.name {
                Some(name) => PlanView::Lookup { name: name@, access_key: 0 },
                None => invalid,
            }
        } else {
            PlanView::Ignore
        },
        Operation::LookupAuthorized => if message.has_reply {
            match (message.request, message.sender) {
                (Some(AuthRequest::Lookup { service, requested }), Some(caller)) =>
                    PlanView::Authorize { service: service@, caller, requested },
                _ => denied,
            }
        } else {
            PlanView::Ignore
        },
        Operation::LookupForGrant => if message.has_reply {
            match (message.request, message.sender) {
                (
                    Some(
                        AuthRequest::GrantLookup {
                            service,
                            requested,
                            target: Some(target),
                            target_principal: Some(target_principal),
                        },
                    ),
                    Some(actor),
                ) if message.administers => PlanView::Grant {
                    service: service@,
                    actor,
                    target,
                    target_principal,
                    requested,
                },
                _ => denied,
            }
        } else {
            PlanView::Ignore
        },
        Operation::TryLookup => if message.has_reply {
            PlanView::TryLookup { name: scalar }
        } else {
            PlanView::Ignore
        },
        Operation::TryLookupNamed => if message.has_reply {
            match message.name {
                Some(name) => PlanView::TryLookup { name: name@ },
                None => invalid,
            }
        } else {
            PlanView::Ignore
        },
        Operation::Unregister => PlanView::Unregister { name: scalar, expected: None },
        Operation::UnregisterGeneration => match message.generation {
            Some(generation) => PlanView::Unregister { name: scalar, expected: Some(generation) },
            None => PlanView::Refuse { error: NameError::NotFound },
        },
        Operation::SetPolicy => match (message.request, message.sender) {
            (
                Some(AuthRequest::SetPolicy { service, subject, allowed, expected_version }),
                Some(actor),
            ) => PlanView::SetPolicy { service: service@, actor, subject, allowed, expected_version },
            _ => denied,
        },
        Operation::Audit => if !message.has_reply {
            PlanView::Ignore
        } else if message.sender is Some && message.administers {
            PlanView::Audit
        } else {
            denied
        },
        Operation::Status => PlanView::Status,
        Operation::Unknown => PlanView::Refuse { error: NameError::BadOpcode },
    }
}

/// Decide what to do about a request.
pub fn plan(message: Message) -> (plan: Plan)
    ensures
        plan@ == planned(message),
{
    match message.operation {
        Operation::Register => if message.has_connection {
            Plan::Register {
                name: scalar_key(message.argument),
                access_key: 0,
                publisher: Publisher::Own,
            }
        } else {
            Plan::Refuse { error: NameError::Invalid }
        },
        Operation::RegisterKeyed => if message.has_connection {
            Plan::Register {
                name: scalar_key(message.argument),
                access_key: message.access_key,
                publisher: Publisher::Own,
            }
        } else {
            Plan::Refuse { error: NameError::Invalid }
        },
        Operation::RegisterNamed => match message.name {
            Some(name) if message.has_connection => Plan::Register {
                name,
                access_key: 0,
                publisher: Publisher::Own,
            },
            _ => Plan::Refuse { error: NameError::Invalid },
        },
        Operation::RegisterAuthorized => match (message.request, message.sender) {
            (
                Some(AuthRequest::Publish { service, ceiling }),
                Some(identity),
            ) if message.has_connection => Plan::Register {
                name: service,
                access_key: 0,
                publisher: Publisher::Sender { identity, ceiling },
            },
            _ => Plan::Refuse { error: NameError::AccessDenied },
        },
        Operation::Lookup => if message.has_reply {
            Plan::Lookup { name: scalar_key(message.argument), access_key: 0 }
        } else {
            Plan::Ignore
        },
        Operation::LookupKeyed => if message.has_reply {
            Plan::Lookup { name: scalar_key(message.argument), access_key: message.access_key }
        } else {
            Plan::Ignore
        },
        Operation::LookupNamed => if message.has_reply {
            match message.name {
                Some(name) => Plan::Lookup { name, access_key: 0 },
                None => Plan::Refuse { error: NameError::Invalid },
            }
        } else {
            Plan::Ignore
        },
        Operation::LookupAuthorized => if message.has_reply {
            match (message.request, message.sender) {
                (Some(AuthRequest::Lookup { service, requested }), Some(caller)) =>
                    Plan::Authorize { service, caller, requested },
                _ => Plan::Refuse { error: NameError::AccessDenied },
            }
        } else {
            Plan::Ignore
        },
        Operation::LookupForGrant => if message.has_reply {
            match (message.request, message.sender) {
                (
                    Some(
                        AuthRequest::GrantLookup {
                            service,
                            requested,
                            target: Some(target),
                            target_principal: Some(target_principal),
                        },
                    ),
                    Some(actor),
                ) if message.administers => Plan::Grant {
                    service,
                    actor,
                    target,
                    target_principal,
                    requested,
                },
                _ => Plan::Refuse { error: NameError::AccessDenied },
            }
        } else {
            Plan::Ignore
        },
        Operation::TryLookup => if message.has_reply {
            Plan::TryLookup { name: scalar_key(message.argument) }
        } else {
            Plan::Ignore
        },
        Operation::TryLookupNamed => if message.has_reply {
            match message.name {
                Some(name) => Plan::TryLookup { name },
                None => Plan::Refuse { error: NameError::Invalid },
            }
        } else {
            Plan::Ignore
        },
        Operation::Unregister => Plan::Unregister {
            name: scalar_key(message.argument),
            expected: None,
        },
        Operation::UnregisterGeneration => match message.generation {
            Some(generation) => Plan::Unregister {
                name: scalar_key(message.argument),
                expected: Some(generation),
            },
            None => Plan::Refuse { error: NameError::NotFound },
        },
        Operation::SetPolicy => match (message.request, message.sender) {
            (
                Some(AuthRequest::SetPolicy { service, subject, allowed, expected_version }),
                Some(actor),
            ) => Plan::SetPolicy { service, actor, subject, allowed, expected_version },
            _ => Plan::Refuse { error: NameError::AccessDenied },
        },
        Operation::Audit => if !message.has_reply {
            Plan::Ignore
        } else if message.sender.is_some() && message.administers {
            Plan::Audit
        } else {
            Plan::Refuse { error: NameError::AccessDenied }
        },
        Operation::Status => Plan::Status,
        Operation::Unknown => Plan::Refuse { error: NameError::BadOpcode },
    }
}

/// The answer to a change of policy that gave a rule of this version, or none.
pub fn policy_answer(version: Option<u64>) -> (answer: Result<i64, NameError>)
    ensures
        answer == match version {
            Some(number) if number <= i64::MAX => Ok::<i64, NameError>(number as i64),
            _ => Err::<i64, NameError>(NameError::AccessDenied),
        },
{
    match version {
        Some(number) if number <= 0x7fff_ffff_ffff_ffff => Ok(number as i64),
        _ => Err(NameError::AccessDenied),
    }
}

/// Only somebody who administers the policy sees the audit log or gets a
/// connection for another domain.
pub proof fn law_only_administrators_act_for_others(message: Message)
    ensures
        planned(message) is Audit || planned(message) is Grant ==> message.administers
            && message.sender is Some && message.has_reply,
{
}

/// A name packed in a number is its bytes, the lowest first, up to the last that is
/// not zero: different numbers have different names.
pub proof fn law_packed_names_differ(one: u64, two: u64)
    ensures
        scalar_name(one).len() <= 8,
        scalar_name(one).len() > 0 ==> scalar_name(one).last() != 0,
        scalar_name(one) == wire::le_bytes(one as nat, 8).take(scalar_name(one).len() as int),
        scalar_name(one) == scalar_name(two) ==> one == two,
{
    wire::lemma_le_bytes_len(one as nat, 8);
    wire::lemma_le_bytes_len(two as nat, 8);
    lemma_without_zeros(wire::le_bytes(one as nat, 8));
    lemma_without_zeros(wire::le_bytes(two as nat, 8));
    if scalar_name(one) == scalar_name(two) {
        let a = wire::le_bytes(one as nat, 8);
        let b = wire::le_bytes(two as nat, 8);
        let kept = scalar_name(one).len() as int;
        assert forall|i: int| 0 <= i < 8 implies a[i] == b[i] by {
            if i < kept {
                assert(a.take(kept)[i] == b.take(kept)[i]);
            }
        }
        assert(a =~= b);
        wire::lemma_byte_capacities();
        wire::lemma_le_injective(one as nat, two as nat, 8);
    }
}

proof fn lemma_without_zeros(bytes: Seq<u8>)
    ensures
        without_zeros(bytes).len() <= bytes.len(),
        without_zeros(bytes) == bytes.take(without_zeros(bytes).len() as int),
        without_zeros(bytes).len() > 0 ==> without_zeros(bytes).last() != 0,
        forall|i: int| without_zeros(bytes).len() <= i < bytes.len() ==> #[trigger] bytes[i] == 0,
    decreases bytes.len(),
{
    if bytes.len() > 0 && bytes.last() == 0 {
        lemma_without_zeros(bytes.drop_last());
        let kept = without_zeros(bytes).len() as int;
        assert(bytes.drop_last().take(kept) =~= bytes.take(kept));
        assert forall|i: int| kept <= i < bytes.len() implies #[trigger] bytes[i] == 0 by {
            if i < bytes.len() - 1 {
                assert(bytes.drop_last()[i] == 0);
            }
        }
    } else {
        assert(bytes.take(bytes.len() as int) =~= bytes);
    }
}

/// A registered name is found by everyone who has its key, and by all where it has
/// none; other names stay as they are; after it is unregistered the next
/// registration counts on.
pub proof fn law_registered_name_is_found(
    service: NameServiceView,
    name: Seq<u8>,
    registration: Registration,
    key: u64,
    other: Seq<u8>,
)
    requires
        registration.connection != 0,
        1 <= registration.generation < i64::MAX,
        other != name,
    ensures
        ({
            let after = bound(service, name, registration);
            let gone = unbound(after, name);
            &&& live(after.registry, name)
            &&& legacy_answer(after.registry[name], key) == (LookupAnswer::Connect {
                connection: registration.connection,
                generation: registration.generation,
            }) <==> registration.access_key == 0 || registration.access_key == key
            &&& !(registration.access_key == 0 || registration.access_key == key)
                ==> legacy_answer(after.registry[name], key) == (LookupAnswer::Refuse {
                error: NameError::AccessDenied,
            })
            &&& broker::parked_on(after.waiting, name).len() == 0
            &&& live(after.registry, other) == live(service.registry, other)
            &&& broker::parked_on(after.waiting, other) == broker::parked_on(
                service.waiting,
                other,
            )
            &&& next_generation(after.registry, name) == Some((registration.generation + 1) as i64)
            &&& !live(gone.registry, name)
            &&& next_generation(gone.registry, name) == Some((registration.generation + 1) as i64)
            &&& live(gone.registry, other) == live(service.registry, other)
            &&& gone.waiting == after.waiting
        }),
        !service.registry.contains_key(name) ==> next_generation(service.registry, name) == Some(
            1i64,
        ),
{
}

/// A refused lookup is told why: the log is full, the policy grants nothing, the
/// service is unknown, or the grant is of another generation.
pub proof fn law_refusals_have_their_reason(
    registry: Map<Seq<u8>, Registration>,
    service: Seq<u8>,
    can_record: bool,
    grant: Option<Grant>,
)
    ensures
        ({
            let answer = authorized(registry, service, can_record, grant);
            &&& !can_record ==> answer == (Authorization::Refuse {
                denial: Denial::AuditFull,
                error: NameError::AccessDenied,
            })
            &&& can_record && grant is None ==> answer == (Authorization::Refuse {
                denial: Denial::Policy,
                error: NameError::AccessDenied,
            })
            &&& can_record && grant is Some && !registry.contains_key(service) ==> answer == (
            Authorization::Refuse {
                denial: Denial::ServiceMissing,
                error: NameError::NotFound,
            })
            &&& can_record && grant is Some && registry.contains_key(service) && (
            registry[service].connection == 0 || registry[service].generation
                != grant->0.service_generation) ==> answer == (Authorization::Refuse {
                denial: Denial::StaleServiceGeneration,
                error: NameError::AccessDenied,
            })
            &&& answer is Issue ==> answer->connection == registry[service].connection
                && answer->generation == registry[service].generation && answer->grant == grant->0
        }),
{
}

/// What a message asks for is what is done: a registration is under the name and key
/// that came along, a lookup likewise, and nothing is looked up for nobody.
pub proof fn law_messages_are_planned_as_asked(message: Message)
    ensures
        match planned(message) {
            PlanView::Register { name, access_key, publisher } => {
                &&& message.has_connection
                &&& (message.operation == Operation::Register && name == scalar_name(
                    message.argument,
                ) && access_key == 0 && publisher == Publisher::Own) || (message.operation
                    == Operation::RegisterKeyed && name == scalar_name(message.argument)
                    && access_key == message.access_key && publisher == Publisher::Own) || (
                message.operation == Operation::RegisterNamed && message.name is Some && name
                    == message.name->0@ && access_key == 0 && publisher == Publisher::Own) || (
                message.operation == Operation::RegisterAuthorized && message.request is Some
                    && message.request->0 is Publish && message.sender is Some && name
                    == message.request->0->Publish_service@ && access_key == 0 && publisher == (
                Publisher::Sender {
                    identity: message.sender->0,
                    ceiling: message.request->0->ceiling,
                }))
            },
            PlanView::Lookup { name, access_key } => {
                &&& message.has_reply
                &&& (message.operation == Operation::Lookup && name == scalar_name(message.argument)
                    && access_key == 0) || (message.operation == Operation::LookupKeyed && name
                    == scalar_name(message.argument) && access_key == message.access_key) || (
                message.operation == Operation::LookupNamed && message.name is Some && name
                    == message.name->0@ && access_key == 0)
            },
            PlanView::TryLookup { name } => {
                &&& message.has_reply
                &&& (message.operation == Operation::TryLookup && name == scalar_name(
                    message.argument,
                )) || (message.operation == Operation::TryLookupNamed && message.name is Some
                    && name == message.name->0@)
            },
            PlanView::Unregister { name, expected } => {
                &&& name == scalar_name(message.argument)
                &&& (message.operation == Operation::Unregister && expected is None) || (
                message.operation == Operation::UnregisterGeneration && expected is Some && expected
                    == message.generation)
            },
            PlanView::Authorize { service, caller, requested } => {
                &&& message.operation == Operation::LookupAuthorized && message.has_reply
                &&& message.sender == Some(caller)
                &&& message.request is Some && message.request->0 is Lookup && service
                    == message.request->0->Lookup_service@ && requested
                    == message.request->0->Lookup_requested
            },
            PlanView::SetPolicy { service, actor, subject, allowed, expected_version } => {
                &&& message.operation == Operation::SetPolicy
                &&& message.sender == Some(actor)
                &&& message.request is Some && message.request->0 is SetPolicy && service
                    == message.request->0->SetPolicy_service@ && subject
                    == message.request->0->subject && allowed == message.request->0->allowed
                    && expected_version == message.request->0->expected_version
            },
            PlanView::Grant { service, actor, target, target_principal, requested } => {
                &&& message.operation == Operation::LookupForGrant && message.has_reply
                    && message.administers
                &&& message.sender == Some(actor)
                &&& message.request is Some && message.request->0 is GrantLookup && service
                    == message.request->0->GrantLookup_service@ && requested
                    == message.request->0->GrantLookup_requested && message.request->0->target
                    == Some(target) && message.request->0->target_principal == Some(
                    target_principal,
                )
            },
            PlanView::Audit => message.operation == Operation::Audit && message.has_reply
                && message.administers && message.sender is Some,
            PlanView::Status => message.operation == Operation::Status,
            PlanView::Ignore => !message.has_reply,
            PlanView::Refuse { error } => error == NameError::BadOpcode <==> message.operation
                == Operation::Unknown,
        },
{
}

/// An audit record is 64 bytes and its service's name.
pub proof fn law_audit_record_by_its_bytes(record: AuditRecordView)
    requires
        record.service.len() <= u16::MAX,
    ensures
        ({
            let bytes = audit_code(record);
            &&& bytes.len() == 64 + record.service.len()
            &&& bytes.subrange(0, 8) == wire::le_bytes(record.sequence as nat, 8)
            &&& bytes.subrange(8, 16) == wire::le_bytes(record.caller.asid as nat, 8)
            &&& bytes.subrange(16, 24) == wire::le_bytes(record.caller.generation as nat, 8)
            &&& bytes.subrange(24, 32) == wire::le_bytes(record.principal as nat, 8)
            &&& bytes.subrange(32, 40) == wire::le_bytes(record.service_generation as nat, 8)
            &&& bytes.subrange(40, 48) == wire::le_bytes(record.policy_version as nat, 8)
            &&& bytes.subrange(48, 52) == wire::le_bytes(record.requested as nat, 4)
            &&& bytes.subrange(52, 56) == wire::le_bytes(record.granted as nat, 4)
            &&& bytes.subrange(56, 60) == wire::le_bytes(
                match record.outcome {
                    Outcome::Issued => 0,
                    Outcome::Denied => 0xffff_ffff,
                    Outcome::DelegationFailed => 0xffff_fffe,
                },
                4,
            )
            &&& bytes.subrange(60, 62) == wire::le_bytes(record.service.len(), 2)
            &&& bytes.skip(64) == record.service
        }),
{
    let bytes = audit_code(record);
    wire::lemma_le_bytes_len(record.sequence as nat, 8);
    wire::lemma_le_bytes_len(record.caller.asid as nat, 8);
    wire::lemma_le_bytes_len(record.caller.generation as nat, 8);
    wire::lemma_le_bytes_len(record.principal as nat, 8);
    wire::lemma_le_bytes_len(record.service_generation as nat, 8);
    wire::lemma_le_bytes_len(record.policy_version as nat, 8);
    wire::lemma_le_bytes_len(record.requested as nat, 4);
    wire::lemma_le_bytes_len(record.granted as nat, 4);
    wire::lemma_le_bytes_len(outcome_code(record.outcome) as nat, 4);
    wire::lemma_le_bytes_len(record.service.len(), 2);
    wire::lemma_le_bytes_len(0, 2);
    assert(bytes.subrange(0, 8) =~= wire::le_bytes(record.sequence as nat, 8));
    assert(bytes.subrange(8, 16) =~= wire::le_bytes(record.caller.asid as nat, 8));
    assert(bytes.subrange(16, 24) =~= wire::le_bytes(record.caller.generation as nat, 8));
    assert(bytes.subrange(24, 32) =~= wire::le_bytes(record.principal as nat, 8));
    assert(bytes.subrange(32, 40) =~= wire::le_bytes(record.service_generation as nat, 8));
    assert(bytes.subrange(40, 48) =~= wire::le_bytes(record.policy_version as nat, 8));
    assert(bytes.subrange(48, 52) =~= wire::le_bytes(record.requested as nat, 4));
    assert(bytes.subrange(52, 56) =~= wire::le_bytes(record.granted as nat, 4));
    assert(bytes.subrange(56, 60) =~= wire::le_bytes(outcome_code(record.outcome) as nat, 4));
    assert(bytes.subrange(60, 62) =~= wire::le_bytes(record.service.len(), 2));
    assert(bytes.skip(64) =~= record.service);
}

/// As many audit records are shown as fit in a page, the first ones first.
pub proof fn law_audit_shows_what_fits(records: Seq<AuditRecordView>, offset: int)
    ensures
        0 <= audit_fitting(records, offset) <= records.len(),
        records.len() > 0 ==> (audit_fitting(records, offset) == 0 <==> offset + 64
            + records[0].service.len() > 4096),
    decreases records.len(),
{
    if records.len() > 0 && offset + 64 + records[0].service.len() <= 4096 {
        law_audit_shows_what_fits(records.skip(1), offset + 64 + records[0].service.len());
    }
}

/// A status has its three numbers where its layout says, and lists names behind
/// their lengths as far as a page reaches.
pub proof fn law_status_follows_its_layout(
    layout: StatusLayout,
    registered: u32,
    pending: u32,
    names: Seq<Seq<u8>>,
    length: int,
)
    requires
        layout.wf(),
        layout.magic != layout.registered,
        layout.magic != layout.pending,
        layout.registered != layout.pending,
    ensures
        ({
            let header = status_header(layout, registered, pending);
            &&& header.len() == 3
            &&& header[layout.magic as int] == layout.magic_number
            &&& header[layout.registered as int] == registered
            &&& header[layout.pending as int] == pending
        }),
        names.len() > 0 && names[0].len() <= 255 && length + 1 + names[0].len() <= 4096
            ==> listed_names(names, length) == seq![names[0].len() as u8] + names[0] + listed_names(
            names.skip(1),
            length + 1 + names[0].len(),
        ),
        names.len() > 0 && names[0].len() <= 255 && length + 1 + names[0].len() > 4096
            ==> listed_names(names, length).len() == 0,
{
    if names.len() > 0 && names[0].len() <= 255 {
        assert(names[0].take(names[0].len() as int) =~= names[0]);
    }
}

/// An audit snapshot is its magic, how many records follow, and those records.
pub proof fn law_audit_image_counts_its_records(records: Seq<AuditRecordView>, magic: u32)
    ensures
        ({
            let image = audit_image(records, magic);
            let count = audit_fitting(records, 8);
            &&& image.len() >= 8
            &&& image.subrange(0, 4) == wire::le_bytes(magic as nat, 4)
            &&& image.subrange(4, 8) == wire::le_bytes(count as nat, 4)
            &&& image.skip(8) == wire::records(
                records.take(count),
                |record: AuditRecordView| audit_code(record),
            )
        }),
{
    let image = audit_image(records, magic);
    let count = audit_fitting(records, 8);
    wire::lemma_le_bytes_len(magic as nat, 4);
    wire::lemma_le_bytes_len(count as nat, 4);
    assert(image.subrange(0, 4) =~= wire::le_bytes(magic as nat, 4));
    assert(image.subrange(4, 8) =~= wire::le_bytes(count as nat, 4));
    assert(image.skip(8) =~= wire::records(
        records.take(count),
        |record: AuditRecordView| audit_code(record),
    ));
}

/// A status is its three numbers of four bytes and then the names.
pub proof fn law_status_is_numbers_and_names(
    layout: StatusLayout,
    names: Seq<Seq<u8>>,
    registered: u32,
    pending: u32,
)
    ensures
        ({
            let bytes = status_bytes(layout, names, registered, pending);
            let header = status_header(layout, registered, pending);
            &&& bytes.subrange(0, 4) == wire::le_bytes(header[0] as nat, 4)
            &&& bytes.subrange(4, 8) == wire::le_bytes(header[1] as nat, 4)
            &&& bytes.subrange(8, 12) == wire::le_bytes(header[2] as nat, 4)
            &&& bytes.skip(12) == listed_names(names, 12)
        }),
{
    let bytes = status_bytes(layout, names, registered, pending);
    let header = status_header(layout, registered, pending);
    wire::lemma_le_bytes_len(header[0] as nat, 4);
    wire::lemma_le_bytes_len(header[1] as nat, 4);
    wire::lemma_le_bytes_len(header[2] as nat, 4);
    assert(bytes.subrange(0, 4) =~= wire::le_bytes(header[0] as nat, 4));
    assert(bytes.subrange(4, 8) =~= wire::le_bytes(header[1] as nat, 4));
    assert(bytes.subrange(8, 12) =~= wire::le_bytes(header[2] as nat, 4));
    assert(bytes.skip(12) =~= listed_names(names, 12));
}

} // verus!
