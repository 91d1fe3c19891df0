//! Live upgrades of services.
//!
//! An upgrade drains the old service, takes its state, removes it from
//! discovery, starts the replacement with the state, and ends when the
//! replacement has registered in a later generation.
use vstd::prelude::*;

use crate::wire;

verus! {

/// "svcmgr" as a name of the name service.
pub const MANAGER_NAME: u64 = 0x7267_6d63_7673;

/// A name of at most eight bytes as a number, its first byte lowest. Bytes
/// behind the eighth do not count.
pub open spec fn packed_name(name: Seq<u8>) -> nat {
    wire::le_value(
        if name.len() <= 8 {
            name
        } else {
            name.take(8)
        },
    )
}

/// A short name as a number.
pub fn name(text: &[u8]) -> (packed: u64)
    ensures
        packed == packed_name(text@),
{
    let width: usize = if text.len() <= 8 {
        text.len()
    } else {
        8
    };
    assert(text@.subrange(0, width as int) =~= if text@.len() <= 8 {
        text@
    } else {
        text@.take(8)
    });
    wire::read_le(text, 0, width)
}

/// The service that a lookup found: it has a generation and a connection.
pub open spec fn service_found(answered: bool, generation: u64, connection: u64) -> Option<
    (u64, u64),
> {
    if answered && generation >= 1 && connection != 0 {
        Some((generation, connection))
    } else {
        None
    }
}

/// Whether a lookup found a service: its generation and its connection.
pub fn found(answered: bool, generation: u64, connection: u64) -> (service: Option<(u64, u64)>)
    ensures
        service == service_found(answered, generation, connection),
{
    if answered && generation >= 1 && connection != 0 {
        Some((generation, connection))
    } else {
        None
    }
}

/// Whether somebody may upgrade services: they are known, and have the role.
pub open spec fn administers(principal: u64, roles: u64, policy_admin: u64) -> bool {
    principal != 0 && roles & policy_admin != 0
}

/// Whether a domain may set policy.
pub fn may_administer(principal: u64, roles: u64, policy_admin: u64) -> (may: bool)
    ensures
        may == administers(principal, roles, policy_admin),
{
    principal != 0 && roles & policy_admin != 0
}

/// The image to start: what the object store read, or none, which stands for
/// the built-in one.
pub fn replacement_image(read: bool, memory: u64, size: u64) -> (image: (u64, u64))
    ensures
        image == if read && memory != 0 && size != 0 {
            (memory, size)
        } else {
            (0u64, 0u64)
        },
{
    if read && memory != 0 && size != 0 {
        (memory, size)
    } else {
        (0, 0)
    }
}

/// How far an upgrade is.
#[derive(Clone, Copy, Debug, PartialEq, Eq, Structural)]
pub enum UpgradeStage {
    /// The old service is being looked up.
    Finding,
    /// The old service is being asked for its state.
    Draining { generation: u64, connection: u64 },
    /// The old service is being removed from discovery.
    Unpublishing { generation: u64, connection: u64, state: u64 },
    /// The replacement is being started.
    Starting { generation: u64, connection: u64, state: u64 },
    /// The replacement is being looked up.
    Confirming { generation: u64, replacement: u64 },
    Done { outcome: UpgradeOutcome },
}

/// How an upgrade ended.
#[derive(Clone, Copy, Debug, PartialEq, Eq, Structural)]
pub enum UpgradeOutcome {
    Upgraded { replacement: u64 },
    NotFound,
    NotAsked,
    NotDrained,
    NoState,
    NotStarted,
    NotUnpublished,
    NotConfirmed,
}

/// What came of a stage's request.
#[derive(Clone, Copy, Debug, PartialEq, Eq)]
pub enum UpgradeEvent {
    Found { service: Option<(u64, u64)> },
    /// Whether the call was made, whether it was answered, and the state.
    Drained { called: bool, answered: bool, state: u64 },
    /// The generation that was removed, if the call was made and answered.
    Unpublished { generation: Option<u64> },
    /// The replacement; zero if there is none.
    Started { replacement: u64 },
}

/// The stage after an event. An event that no request of the stage brings is
/// ignored.
pub open spec fn upgrade_next(stage: UpgradeStage, event: UpgradeEvent) -> UpgradeStage {
    match (stage, event) {
        (UpgradeStage::Finding, UpgradeEvent::Found { service }) => match service {
            Some((generation, connection)) => UpgradeStage::Draining { generation, connection },
            None => UpgradeStage::Done { outcome: UpgradeOutcome::NotFound },
        },
        (
            UpgradeStage::Draining { generation, connection },
            UpgradeEvent::Drained { called, answered, state },
        ) => if !called {
            UpgradeStage::Done { outcome: UpgradeOutcome::NotAsked }
        } else if !answered {
            UpgradeStage::Done { outcome: UpgradeOutcome::NotDrained }
        } else if state == 0 {
            UpgradeStage::Done { outcome: UpgradeOutcome::NoState }
        } else {
            UpgradeStage::Unpublishing { generation, connection, state }
        },
        (
            UpgradeStage::Unpublishing { generation, connection, state },
            UpgradeEvent::Unpublished { generation: removed },
        ) => if removed == Some(generation) {
            UpgradeStage::Starting { generation, connection, state }
        } else {
            UpgradeStage::Done { outcome: UpgradeOutcome::NotUnpublished }
        },
        (
            UpgradeStage::Starting { generation, connection, state },
            UpgradeEvent::Started { replacement },
        ) => if replacement == 0 {
            UpgradeStage::Done { outcome: UpgradeOutcome::NotStarted }
        } else {
            UpgradeStage::Confirming { generation, replacement }
        },
        (
            UpgradeStage::Confirming { generation, replacement },
            UpgradeEvent::Found { service },
        ) => match service {
            Some((later, _)) => if later > generation {
                UpgradeStage::Done { outcome: UpgradeOutcome::Upgraded { replacement } }
            } else {
                UpgradeStage::Done { outcome: UpgradeOutcome::NotConfirmed }
            },
            None => UpgradeStage::Done { outcome: UpgradeOutcome::NotConfirmed },
        },
        _ => stage,
    }
}

/// Go on with an upgrade.
pub fn do_upgrade(stage: UpgradeStage, event: UpgradeEvent) -> (next: UpgradeStage)
    ensures
        next == upgrade_next(stage, event),
{
    match (stage, event) {
        (UpgradeStage::Finding, UpgradeEvent::Found { service }) => match service {
            Some((generation, connection)) => UpgradeStage::Draining { generation, connection },
            None => UpgradeStage::Done { outcome: UpgradeOutcome::NotFound },
        },
        (
            UpgradeStage::Draining { generation, connection },
            UpgradeEvent::Drained { called, answered, state },
        ) => {
            if !called {
                UpgradeStage::Done { outcome: UpgradeOutcome::NotAsked }
            } else if !answered {
                UpgradeStage::Done { outcome: UpgradeOutcome::NotDrained }
            } else if state == 0 {
                UpgradeStage::Done { outcome: UpgradeOutcome::NoState }
            } else {
                UpgradeStage::Unpublishing { generation, connection, state }
            }
        },
        (
            UpgradeStage::Unpublishing { generation, connection, state },
            UpgradeEvent::Unpublished { generation: removed },
        ) => match removed {
            Some(removed) => if removed == generation {
                UpgradeStage::Starting { generation, connection, state }
            } else {
                UpgradeStage::Done { outcome: UpgradeOutcome::NotUnpublished }
            },
            None => UpgradeStage::Done { outcome: UpgradeOutcome::NotUnpublished },
        },
        (
            UpgradeStage::Starting { generation, connection: _, state: _ },
            UpgradeEvent::Started { replacement },
        ) => {
            if replacement == 0 {
                UpgradeStage::Done { outcome: UpgradeOutcome::NotStarted }
            } else {
                UpgradeStage::Confirming { generation, replacement }
            }
        },
        (
            UpgradeStage::Confirming { generation, replacement },
            UpgradeEvent::Found { service },
        ) => match service {
            Some((later, _)) => if later > generation {
                UpgradeStage::Done { outcome: UpgradeOutcome::Upgraded { replacement } }
            } else {
                UpgradeStage::Done { outcome: UpgradeOutcome::NotConfirmed }
            },
            None => UpgradeStage::Done { outcome: UpgradeOutcome::NotConfirmed },
        },
        _ => stage,
    }
}

/// The number that a client is answered with.
pub open spec fn upgrade_result(outcome: UpgradeOutcome) -> int {
    match outcome {
        UpgradeOutcome::Upgraded { replacement } => replacement as i64 as int,
        UpgradeOutcome::NotFound => -1,
        UpgradeOutcome::NotAsked => -2,
        UpgradeOutcome::NotDrained => -3,
        UpgradeOutcome::NoState => -4,
        UpgradeOutcome::NotStarted => -5,
        UpgradeOutcome::NotUnpublished => -6,
        UpgradeOutcome::NotConfirmed => -7,
    }
}

/// The number to answer a client with.
pub fn upgrade_code(outcome: UpgradeOutcome) -> (code: i64)
    ensures
        code == upgrade_result(outcome),
{
    match outcome {
        UpgradeOutcome::Upgraded { replacement } => replacement as i64,
        UpgradeOutcome::NotFound => -1,
        UpgradeOutcome::NotAsked => -2,
        UpgradeOutcome::NotDrained => -3,
        UpgradeOutcome::NoState => -4,
        UpgradeOutcome::NotStarted => -5,
        UpgradeOutcome::NotUnpublished => -6,
        UpgradeOutcome::NotConfirmed => -7,
    }
}

/// An upgrade succeeds only with a replacement that registered in a later
/// generation.
pub proof fn law_upgrade_raises_the_generation(
    stage: UpgradeStage,
    event: UpgradeEvent,
    replacement: u64,
)
    requires
        !(stage is Done),
        upgrade_next(stage, event) == (UpgradeStage::Done {
            outcome: UpgradeOutcome::Upgraded { replacement },
        }),
    ensures
        match (stage, event) {
            (
                UpgradeStage::Confirming { generation, replacement: started },
                UpgradeEvent::Found { service: Some((later, _)) },
            ) => started == replacement && later > generation,
            _ => false,
        },
{
}

/// No replacement is started while the old generation can still be found.
pub proof fn law_replacement_starts_after_removal(stage: UpgradeStage, event: UpgradeEvent)
    requires
        upgrade_next(stage, event) is Starting,
        !(stage is Starting),
    ensures
        stage matches UpgradeStage::Unpublishing { generation, .. } && event
            == (UpgradeEvent::Unpublished { generation: Some(generation) }),
{
}

/// An upgrade that goes well takes each of its steps: it finds the service, drains
/// it, unpublishes that generation, starts the replacement and finds a later one.
pub proof fn law_upgrade_takes_every_step(
    generation: u64,
    connection: u64,
    state: u64,
    replacement: u64,
    later: u64,
    new_connection: u64,
)
    requires
        state != 0,
        replacement != 0,
        later > generation,
    ensures
        ({
            let draining = upgrade_next(
                UpgradeStage::Finding,
                UpgradeEvent::Found { service: Some((generation, connection)) },
            );
            let unpublishing = upgrade_next(
                draining,
                UpgradeEvent::Drained { called: true, answered: true, state },
            );
            let starting = upgrade_next(
                unpublishing,
                UpgradeEvent::Unpublished { generation: Some(generation) },
            );
            let confirming = upgrade_next(starting, UpgradeEvent::Started { replacement });
            let done = upgrade_next(
                confirming,
                UpgradeEvent::Found { service: Some((later, new_connection)) },
            );
            &&& draining == (UpgradeStage::Draining { generation, connection })
            &&& unpublishing == (UpgradeStage::Unpublishing { generation, connection, state })
            &&& starting == (UpgradeStage::Starting { generation, connection, state })
            &&& confirming == (UpgradeStage::Confirming { generation, replacement })
            &&& done == (UpgradeStage::Done {
                outcome: UpgradeOutcome::Upgraded { replacement },
            })
        }),
{
}

/// An upgrade that goes wrong says at which step.
pub proof fn law_failed_upgrade_says_where(
    generation: u64,
    connection: u64,
    state: u64,
    replacement: u64,
    removed: Option<u64>,
    called: bool,
    answered: bool,
)
    ensures
        upgrade_next(UpgradeStage::Finding, UpgradeEvent::Found { service: None }) == (
        UpgradeStage::Done { outcome: UpgradeOutcome::NotFound }),
        ({
            let next = upgrade_next(
                UpgradeStage::Draining { generation, connection },
                UpgradeEvent::Drained { called, answered, state },
            );
            &&& !called ==> next == (UpgradeStage::Done { outcome: UpgradeOutcome::NotAsked })
            &&& called && !answered ==> next == (UpgradeStage::Done {
                outcome: UpgradeOutcome::NotDrained,
            })
            &&& called && answered && state == 0 ==> next == (UpgradeStage::Done {
                outcome: UpgradeOutcome::NoState,
            })
        }),
        removed != Some(generation) ==> upgrade_next(
            UpgradeStage::Unpublishing { generation, connection, state },
            UpgradeEvent::Unpublished { generation: removed },
        ) == (UpgradeStage::Done { outcome: UpgradeOutcome::NotUnpublished }),
        upgrade_next(
            UpgradeStage::Starting { generation, connection, state },
            UpgradeEvent::Started { replacement: 0 },
        ) == (UpgradeStage::Done { outcome: UpgradeOutcome::NotStarted }),
        upgrade_next(
            UpgradeStage::Confirming { generation, replacement },
            UpgradeEvent::Found { service: None },
        ) == (UpgradeStage::Done { outcome: UpgradeOutcome::NotConfirmed }),
        upgrade_next(
            UpgradeStage::Confirming { generation, replacement },
            UpgradeEvent::Found { service: Some((generation, connection)) },
        ) == (UpgradeStage::Done { outcome: UpgradeOutcome::NotConfirmed }),
{
}

/// Every way that an upgrade fails has a negative number of its own, from -1 to -7 in
/// the order of the steps' list; a success is the replacement.
pub proof fn law_upgrade_results_are_told_apart(one: UpgradeOutcome, two: UpgradeOutcome)
    ensures
        one !is Upgraded ==> -7 <= upgrade_result(one) <= -1,
        one !is Upgraded && two !is Upgraded && upgrade_result(one) == upgrade_result(two) ==> one
            == two,
        one is Upgraded && one->replacement <= i64::MAX ==> upgrade_result(one)
            == one->replacement,
        upgrade_result(UpgradeOutcome::NotFound) == -1,
        upgrade_result(UpgradeOutcome::NotAsked) == -2,
        upgrade_result(UpgradeOutcome::NotDrained) == -3,
        upgrade_result(UpgradeOutcome::NoState) == -4,
        upgrade_result(UpgradeOutcome::NotStarted) == -5,
        upgrade_result(UpgradeOutcome::NotUnpublished) == -6,
        upgrade_result(UpgradeOutcome::NotConfirmed) == -7,
{
}

/// Only who is known and has the role may upgrade, and only what answers with a
/// generation and a connection is a service.
pub proof fn law_only_administrators_upgrade(
    principal: u64,
    roles: u64,
    role: u64,
    generation: u64,
    connection: u64,
)
    ensures
        !administers(0, roles, role),
        !administers(principal, 0, role),
        principal != 0 && role != 0 ==> administers(principal, role, role),
        service_found(true, generation, connection) is Some <==> generation > 0 && connection != 0,
        service_found(true, generation, connection) matches Some(found) ==> found == (
            generation,
            connection,
        ),
        service_found(false, generation, connection) is None,
{
    assert(0u64 & role == 0) by (bit_vector);
    assert(role & role == role) by (bit_vector);
}

/// A packed name has its first eight bytes, the first in the lowest place: names of
/// the same length that differ there are packed differently.
pub proof fn law_packed_names_differ(one: Seq<u8>, two: Seq<u8>)
    requires
        one.len() == two.len() <= 8,
        packed_name(one) == packed_name(two),
    ensures
        one == two,
{
    wire::lemma_le_value_inverse(one);
    wire::lemma_le_value_inverse(two);
}

} // verus!
