//! Construction of an engine on fixed storage.

use vstd::prelude::*;

use crate::engine::lifecycle::{Engine, EngineView};
use crate::events::batch::EventBatch;
use crate::events::engine::{config_fault, BoundedEventEngine};
use crate::events::EventEngineConfigError;
use crate::journal::channel::{
    JournalChannel, JournalReader, JournalStatus, ReaderView, WriterView,
};
use crate::queue::{is_power_of_two, BoundedQueue, QueueConfigError};
use crate::risk::engine::RiskEngine;
use crate::risk::model::RiskView;
use crate::risk::probe_index::{planes_fit, INDEX_PLANES};
use crate::risk::{RegistrationError, RiskLimits};
use crate::types::{AccountId, InstrumentId, SequenceNumber};

verus! {

/// What recovery from a snapshot and a journal tail found wrong, by the code of
/// the recovery that was asked.
#[derive(Clone, Copy, Debug, PartialEq, Eq, Structural)]
pub struct RestoreError {
    pub code: u16,
}

#[derive(Clone, Copy, Debug, PartialEq, Eq, Structural)]
pub enum BuildError {
    ZeroCapacity,
    Registration(RegistrationError),
    Events(EventEngineConfigError),
    StorageAlreadyUsed,
    JournalStatusUnavailable,
    Recovery(RestoreError),
    InstrumentMismatch,
}

/// Fixed event and journal storage for one engine lifetime. A successful build
/// consumes its initialization state. Recovery uses fresh storage.
pub struct EngineStorage<const BATCH: usize, const EVENTS: usize> {
    pub events: BoundedQueue<EventBatch<BATCH>, EVENTS>,
    pub journal: JournalChannel,
    /// An engine has been built on this storage.
    pub used: bool,
}

impl<const BATCH: usize, const EVENTS: usize> EngineStorage<BATCH, EVENTS> {
    pub open spec fn wf(&self) -> bool {
        self.events.wf() && self.journal.wf()
    }

    /// Empty storage, where the event queue can have its capacity.
    pub fn try_new() -> (outcome: Result<Self, QueueConfigError>)
        ensures
            outcome is Ok <==> is_power_of_two(EVENTS),
            outcome is Err ==> outcome->Err_0 == QueueConfigError::CapacityNotPowerOfTwo,
            outcome is Ok ==> {
                let storage = outcome->Ok_0;
                &&& storage.wf()
                &&& !storage.used
                &&& storage.events@.len() == 0
                &&& storage.journal.records().len() == 0
                &&& storage.journal.status() == JournalStatus::initial(0)
            },
    {
        let events = match BoundedQueue::try_new() {
            Ok(events) => events,
            Err(error) => {
                return Err(error);
            },
        };
        match JournalChannel::try_new() {
            Ok(journal) => Ok(EngineStorage { events, journal, used: false }),
            Err(error) => Err(error),
        }
    }
}

/// The engine and the reader of its journal.
pub struct EngineParts<const REPORTS: usize, const BATCH: usize, const EVENTS: usize> {
    pub engine: Engine<REPORTS, BATCH, EVENTS>,
    pub journal: JournalReader,
}

/// The account that is refused first, if one is, and the risk state with the
/// accounts before it registered.
pub open spec fn registrations(
    risk: RiskView,
    accounts: Seq<(AccountId, RiskLimits)>,
    capacity: nat,
) -> Result<RiskView, RegistrationError>
    decreases accounts.len(),
{
    if accounts.len() == 0 {
        Ok(risk)
    } else {
        match registrations(risk, accounts.drop_last(), capacity) {
            Err(error) => Err(error),
            Ok(so_far) => match so_far.register_refusal(
                accounts.last().0,
                accounts.last().1,
                capacity,
            ) {
                Some(error) => Err(error),
                None => Ok(so_far.registered(accounts.last().0, accounts.last().1)),
            },
        }
    }
}

pub proof fn lemma_registrations_fail(
    risk: RiskView,
    accounts: Seq<(AccountId, RiskLimits)>,
    capacity: nat,
    count: int,
)
    requires
        0 <= count <= accounts.len(),
        registrations(risk, accounts.take(count), capacity) is Err,
    ensures
        registrations(risk, accounts, capacity) == registrations(
            risk,
            accounts.take(count),
            capacity,
        ),
    decreases accounts.len(),
{
    if count == accounts.len() {
        assert(accounts.take(count) =~= accounts);
    } else {
        let shorter = accounts.drop_last();
        assert(shorter.take(count) =~= accounts.take(count));
        lemma_registrations_fail(risk, shorter, capacity, count);
    }
}

/// The risk state of a new engine.
pub open spec fn fresh_risk(orders: nat) -> RiskView {
    RiskView {
        accounts: Seq::empty(),
        slots: Seq::new(orders, |s: int| None::<crate::risk::ReservationRiskState>),
        free: Seq::new(orders, |s: int| s as usize),
        maximum_order_id: None,
        killed: false,
    }
}

/// The settings of an engine whose gateway stands ready.
#[derive(Debug)]
pub struct EngineBuilder<
    const ACCOUNTS: usize,
    const RISK_ORDERS: usize,
    const LEVELS: usize,
    const ORDERS: usize,
    const REPORTS: usize,
> {
    instrument: InstrumentId,
}

/// Some capacity is zero.
pub open spec fn zero_capacity(
    accounts: usize,
    risk_orders: usize,
    levels: usize,
    orders: usize,
    reports: usize,
) -> bool {
    accounts == 0 || risk_orders == 0 || levels == 0 || orders == 0 || reports == 0
}

impl<
    const ACCOUNTS: usize,
    const RISK_ORDERS: usize,
    const LEVELS: usize,
    const ORDERS: usize,
    const REPORTS: usize,
> EngineBuilder<ACCOUNTS, RISK_ORDERS, LEVELS, ORDERS, REPORTS> {
    pub closed spec fn instrument(&self) -> InstrumentId {
        self.instrument
    }

    /// The settings, and the risk engine for a new gateway with the accounts
    /// registered in order. Zero capacities, duplicate accounts, invalid risk
    /// limits and account capacity exhaustion are refused.
    pub fn new(instrument: InstrumentId, accounts: &[(AccountId, RiskLimits)]) -> (outcome: Result<
        (Self, RiskEngine<ACCOUNTS, RISK_ORDERS>),
        BuildError,
    >)
        requires
            planes_fit(ACCOUNTS, INDEX_PLANES),
            planes_fit(RISK_ORDERS, INDEX_PLANES),
        ensures
            if zero_capacity(ACCOUNTS, RISK_ORDERS, LEVELS, ORDERS, REPORTS) {
                outcome is Err && outcome->Err_0 == BuildError::ZeroCapacity
            } else {
                match registrations(
                    fresh_risk(RISK_ORDERS as nat),
                    accounts@,
                    ACCOUNTS as nat,
                ) {
                    Err(error) => {
                        &&& outcome is Err
                        &&& outcome->Err_0 == BuildError::Registration(error)
                    },
                    Ok(risk) => {
                        &&& outcome is Ok
                        &&& (outcome->Ok_0).0.instrument() == instrument
                        &&& (outcome->Ok_0).1.wf()
                        &&& (outcome->Ok_0).1@ == risk
                    },
                }
            },
    {
        if let Err(error) = Self::validate_capacity() {
            return Err(error);
        }
        let mut risk: RiskEngine<ACCOUNTS, RISK_ORDERS> = RiskEngine::new();
        let ghost fresh = fresh_risk(RISK_ORDERS as nat);
        let mut index: usize = 0;
        assert(accounts@.take(0) =~= Seq::<(AccountId, RiskLimits)>::empty());
        while index < accounts.len()
            invariant
                index <= accounts@.len(),
                risk.wf(),
                registrations(fresh, accounts@.take(index as int), ACCOUNTS as nat) == Ok::<
                    _,
                    RegistrationError,
                >(risk@),
                fresh == fresh_risk(RISK_ORDERS as nat),
                !zero_capacity(ACCOUNTS, RISK_ORDERS, LEVELS, ORDERS, REPORTS),
            decreases accounts@.len() - index,
        {
            let (account, limits) = accounts[index];
            let ghost next = accounts@.take(index + 1);
            assert(next.drop_last() =~= accounts@.take(index as int));
            if let Err(error) = risk.register_account(account, limits) {
                proof {
                    lemma_registrations_fail(fresh, accounts@, ACCOUNTS as nat, index + 1);
                }
                return Err(BuildError::Registration(error));
            }
            index = index + 1;
        }
        assert(accounts@.take(index as int) =~= accounts@);
        Ok((EngineBuilder { instrument }, risk))
    }

    /// The settings for a gateway that was recovered from a snapshot and a
    /// journal tail, given its instrument or what recovery found wrong.
    pub fn restore(
        instrument: InstrumentId,
        recovered: Result<InstrumentId, RestoreError>,
    ) -> (outcome: Result<Self, BuildError>)
        ensures
            if zero_capacity(ACCOUNTS, RISK_ORDERS, LEVELS, ORDERS, REPORTS) {
                outcome is Err && outcome->Err_0 == BuildError::ZeroCapacity
            } else {
                match recovered {
                    Err(error) => outcome is Err && outcome->Err_0 == BuildError::Recovery(error),
                    Ok(found) => if found != instrument {
                        outcome is Err && outcome->Err_0 == BuildError::InstrumentMismatch
                    } else {
                        outcome is Ok && outcome->Ok_0.instrument() == instrument
                    },
                }
            },
    {
        if let Err(error) = Self::validate_capacity() {
            return Err(error);
        }
        match recovered {
            Err(error) => Err(BuildError::Recovery(error)),
            Ok(found) => {
                if found != instrument {
                    Err(BuildError::InstrumentMismatch)
                } else {
                    Ok(EngineBuilder { instrument })
                }
            },
        }
    }

    fn validate_capacity() -> (outcome: Result<(), BuildError>)
        ensures
            outcome is Err <==> zero_capacity(ACCOUNTS, RISK_ORDERS, LEVELS, ORDERS, REPORTS),
            outcome is Err ==> outcome->Err_0 == BuildError::ZeroCapacity,
    {
        if ACCOUNTS == 0 || RISK_ORDERS == 0 || LEVELS == 0 || ORDERS == 0 || REPORTS == 0 {
            return Err(BuildError::ZeroCapacity);
        }
        Ok(())
    }

    /// Attaches fresh queues at the next sequence of the gateway. Reused storage
    /// and event batches too small for the report bound are refused. A refused
    /// batch size leaves the storage unused, with its journal poisoned.
    pub fn build<const BATCH: usize, const EVENTS: usize>(
        self,
        storage: &mut EngineStorage<BATCH, EVENTS>,
        next: SequenceNumber,
    ) -> (outcome: Result<EngineParts<REPORTS, BATCH, EVENTS>, BuildError>)
        requires
            old(storage).wf(),
        ensures
            final(storage).wf(),
            final(storage).events@ == old(storage).events@,
            final(storage).journal.records() == old(storage).journal.records(),
            if old(storage).used {
                &&& outcome is Err
                &&& outcome->Err_0 == BuildError::StorageAlreadyUsed
                &&& final(storage).used
                &&& final(storage).journal.status() == old(storage).journal.status()
            } else if config_fault(REPORTS, BATCH) is Some {
                &&& outcome is Err
                &&& outcome->Err_0 == BuildError::Events(config_fault(REPORTS, BATCH)->0)
                &&& !final(storage).used
                &&& final(storage).journal.status() == (JournalStatus {
                    poisoned: true,
                    ..JournalStatus::initial(next.0)
                })
            } else {
                &&& outcome is Ok
                &&& outcome->Ok_0.engine.wf()
                &&& outcome->Ok_0.engine@ == (EngineView {
                    instrument: self.instrument(),
                    writer: Some(WriterView { next_sequence: next.0, controlled: true }),
                    failed: false,
                })
                &&& outcome->Ok_0.journal@ == (ReaderView {
                    expected_sequence: next.0,
                    poisoned: false,
                    controlled: true,
                    shutdown_complete: false,
                })
                &&& final(storage).used
                &&& final(storage).journal.status() == JournalStatus::initial(next.0)
            },
    {
        if storage.used {
            return Err(BuildError::StorageAlreadyUsed);
        }
        let (writer, journal) = storage.journal.split(next.0);
        if writer.status_reader(&storage.journal).is_none() {
            return Err(BuildError::JournalStatusUnavailable);
        }
        match BoundedEventEngine::try_new() {
            Err(error) => {
                journal.abandon(&mut storage.journal);
                Err(BuildError::Events(error))
            },
            Ok(events) => {
                storage.used = true;
                Ok(EngineParts { engine: Engine::new(self.instrument, events, writer), journal })
            },
        }
    }
}

} // verus!
