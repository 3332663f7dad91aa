//! Broker core: the lock state shared by all clients.
//!
//! Three flavours of lock live here:
//!
//! 1. **Exclusive** (`Lock` / `Unlock`): a single holder per key, or up to
//!    `max` holders. Pending requests wait in a per-key FIFO queue.
//! 2. **Reader-writer** (`RegisterRead` / `RegisterWrite` / `EndRead` /
//!    `EndWrite`): many concurrent readers or one writer. Readers, writers and
//!    exclusive requests share one queue per key.
//! 3. **Composite** (`Lock` with `keys`): acquisition of several keys under one
//!    lock id, in globally sorted order, so two composite requests never wait
//!    for each other.
//!
//! Every grant carries a fencing token that grows with each grant of its key. A
//! caller may impose the token of a request; one that imposes tokens at or below
//! those granted before has to order them itself.

pub mod acquire;
pub mod clients;
pub mod detach;
pub mod grants;
pub mod laws;
pub mod model;
pub mod release;
pub mod requests;
pub mod rw_release;
pub mod snapshot;
pub mod snapshot_check;
pub mod snapshot_install;
pub mod state;
pub mod stats;
pub mod sweep;
pub mod types;

use crate::broker::snapshot::BrokerRaftSnapshot;
use crate::broker::snapshot_install::SnapshotPayload;
use crate::broker::model::Tape;
use crate::broker::types::{BrokerModel, BrokerState, Clock, Delivery, GrantOverrides};
use crate::clock;
use crate::ordered_map;
use crate::protocol::{Request, Response};
use vstd::prelude::*;
use vstd::string::StringExecFns;

pub use crate::broker::stats::{BrokerMetrics, KeyContentionSnapshot};
pub use crate::broker::types::{BrokerConfig, ClientId};

verus! {

/// The broker. Responses gather in its outbox until the transport takes them.
pub struct Broker {
    state: BrokerState,
    started_at: std::time::Instant,
    clock: Clock,
}

impl View for Broker {
    type V = BrokerModel;

    closed spec fn view(&self) -> BrokerModel {
        self.state@
    }
}

impl Broker {
    /// Every random lock id made so far, in order.
    pub closed spec fn minted(&self) -> Seq<Seq<char>> {
        self.state.minted@
    }

    /// The last reading of the clocks.
    pub closed spec fn clock(&self) -> Clock {
        self.clock
    }

    /// The instant at which this broker was made.
    pub closed spec fn start(&self) -> std::time::Instant {
        self.started_at
    }

    /// A broker that has seen nothing yet.
    pub fn new(config: BrokerConfig) -> (r: Self)
        ensures
            r@ == state::initial(config),
            r.minted() == Seq::<Seq<char>>::empty(),
            r.clock() == (Clock { now: 0, wall_ms: 0 }),
    {
        Broker {
            state: BrokerState::new(config),
            started_at: std::time::Instant::now(),
            clock: Clock { now: 0, wall_ms: 0 },
        }
    }

    /// Nanoseconds on the broker's monotonic clock, which starts with the broker.
    /// Every time to live ahead of it can be told as a deadline.
    pub fn now(&self) -> (r: u128)
        ensures
            clock::is_span(r),
    {
        clock::nanos_since(&self.started_at)
    }

    /// Reads the clocks.
    pub(crate) fn read_clocks(&mut self) -> (r: Clock)
        ensures
            clock::is_span(final(self).clock().now),
            r == final(self).clock(),
            final(self)@ == old(self)@,
            final(self).minted() == old(self).minted(),
            final(self).start() == old(self).start(),
    {
        let clock = Clock {
            now: clock::nanos_since(&self.started_at),
            wall_ms: clock::wall_clock_millis(clock::micros_since_unix_epoch()),
        };
        self.clock = clock;
        clock
    }

    /// Registers a client and hands out its id: the first free one from the
    /// next in turn on.
    pub fn register_client(&mut self) -> (r: ClientId)
        requires
            old(self)@.clients.len() < u64::MAX,
        ensures
            final(self).start() == old(self).start(),
            final(self).clock() == old(self).clock(),
            r == old(self)@.next_free_client(old(self)@.next_client_id),
            r >= 1,
            !old(self)@.clients.dom().contains(r),
            final(self)@ == old(self)@.registered(old(self)@.next_client_id),
            final(self).minted() == old(self).minted(),
    {
        self.state.register_client()
    }

    /// Registers a client under the first free id from `preferred_id` on.
    pub fn register_client_with_id(&mut self, preferred_id: ClientId) -> (r: ClientId)
        requires
            old(self)@.clients.len() < u64::MAX,
        ensures
            final(self).start() == old(self).start(),
            final(self).clock() == old(self).clock(),
            r == old(self)@.next_free_client(preferred_id),
            r >= 1,
            !old(self)@.clients.dom().contains(r),
            final(self)@ == old(self)@.registered(preferred_id),
            final(self).minted() == old(self).minted(),
    {
        self.state.register_client_with_id(preferred_id)
    }

    /// Drops a client, with everything it holds and awaits.
    pub fn drop_client(&mut self, client: ClientId)
        ensures
            final(self).start() == old(self).start(),
            clock::is_span(final(self).clock().now),
            model::continues(old(self).minted(), final(self).minted()),
            forall|tape: Tape|
                #[trigger] model::reads(tape, final(self).minted()) ==> final(self)@ == old(
                    self,
                )@.client_dropped(client, final(self).clock(), tape),
    {
        let clock = self.read_clocks();
        self.drop_client_at(client, clock);
    }

    /// Drops a client at the instant of `clock`.
    pub fn drop_client_at(&mut self, client: ClientId, clock: Clock)
        ensures
            final(self).start() == old(self).start(),
            final(self).clock() == old(self).clock(),
            model::continues(old(self).minted(), final(self).minted()),
            forall|tape: Tape|
                #[trigger] model::reads(tape, final(self).minted()) ==> final(self)@ == old(
                    self,
                )@.client_dropped(client, clock, tape),
    {
        self.state.drop_client(client, clock);
    }

    /// Handles one request of `client`.
    pub fn handle_request(&mut self, client: ClientId, request: Request)
        ensures
            final(self).start() == old(self).start(),
            clock::is_span(final(self).clock().now),
            model::continues(old(self).minted(), final(self).minted()),
            forall|tape: Tape|
                #[trigger] model::reads(tape, final(self).minted()) ==> final(self)@ == old(
                    self,
                )@.handled(
                    client,
                    request,
                    (GrantOverrides { lock_uuid: None, fencing_seed: None }),
                    final(self).clock(),
                    tape,
                ),
    {
        self.handle_request_with_grant_uuid(client, request, None);
    }

    /// Handles one request of `client`; a grant gets the given lock id.
    pub fn handle_request_with_grant_uuid(
        &mut self,
        client: ClientId,
        request: Request,
        grant_lock_uuid: Option<String>,
    )
        ensures
            final(self).start() == old(self).start(),
            clock::is_span(final(self).clock().now),
            model::continues(old(self).minted(), final(self).minted()),
            forall|tape: Tape|
                #[trigger] model::reads(tape, final(self).minted()) ==> final(self)@ == old(
                    self,
                )@.handled(
                    client,
                    request,
                    (GrantOverrides { lock_uuid: grant_lock_uuid, fencing_seed: None }),
                    final(self).clock(),
                    tape,
                ),
    {
        self.handle_request_with_grant_overrides(
            client,
            request,
            GrantOverrides { lock_uuid: grant_lock_uuid, fencing_seed: None },
        );
    }

    /// Handles one request of `client`; a grant gets the given lock id and
    /// fencing token.
    pub fn handle_request_with_grant_overrides(
        &mut self,
        client: ClientId,
        request: Request,
        grant_overrides: GrantOverrides,
    )
        ensures
            final(self).start() == old(self).start(),
            clock::is_span(final(self).clock().now),
            model::continues(old(self).minted(), final(self).minted()),
            forall|tape: Tape|
                #[trigger] model::reads(tape, final(self).minted()) ==> final(self)@ == old(
                    self,
                )@.handled(client, request, grant_overrides, final(self).clock(), tape),
    {
        let clock = self.read_clocks();
        self.handle_request_at(client, request, grant_overrides, clock);
    }

    /// Handles one request of `client` at the instant of `clock`.
    pub fn handle_request_at(
        &mut self,
        client: ClientId,
        request: Request,
        grant_overrides: GrantOverrides,
        clock: Clock,
    )
        ensures
            final(self).start() == old(self).start(),
            final(self).clock() == old(self).clock(),
            model::continues(old(self).minted(), final(self).minted()),
            forall|tape: Tape|
                #[trigger] model::reads(tape, final(self).minted()) ==> final(self)@ == old(
                    self,
                )@.handled(client, request, grant_overrides, clock, tape),
    {
        self.state.handle_request_with_grant_overrides(client, request, grant_overrides, clock);
    }

    /// Hands a notice of the transport to a registered client. Tells whether
    /// the client is registered.
    pub fn try_send(&mut self, client: ClientId, response: Response) -> (r: bool)
        ensures
            final(self).start() == old(self).start(),
            final(self).clock() == old(self).clock(),
            r == old(self)@.clients.dom().contains(client),
            final(self)@ == old(self)@.notified(client, response@),
            final(self).minted() == old(self).minted(),
    {
        self.state.try_send(client, response)
    }

    /// Takes the responses that wait for the transport, in the order in which
    /// they were sent.
    pub fn take_outbox(&mut self) -> (r: Vec<Delivery>)
        ensures
            final(self).start() == old(self).start(),
            final(self).clock() == old(self).clock(),
            ordered_map::views(r@) == old(self)@.outbox,
            final(self)@ == (BrokerModel { outbox: Seq::empty(), ..old(self)@ }),
            final(self).minted() == old(self).minted(),
    {
        let mut taken: Vec<Delivery> = Vec::new();
        std::mem::swap(&mut taken, &mut self.state.outbox);
        assert(self@.outbox =~= Seq::empty());
        taken
    }

    /// Strikes `lock_uuid` off the books of `client` and leaves the lock alone,
    /// so that the lock outlives the client.
    pub fn detach_lock_from_client(&mut self, client: ClientId, lock_uuid: &str)
        ensures
            final(self).start() == old(self).start(),
            final(self).clock() == old(self).clock(),
            final(self)@ == old(self)@.holder_untracked(client, lock_uuid@),
            final(self).minted() == old(self).minted(),
    {
        let id = String::from_str(lock_uuid);
        self.state.detach_lock_from_client(client, &id);
    }

    /// Turns the holder `lock_uuid` into a bearer token.
    pub fn detach_lock_owner(&mut self, lock_uuid: &str)
        ensures
            final(self).start() == old(self).start(),
            final(self).clock() == old(self).clock(),
            final(self)@ == old(self)@.owner_detached(lock_uuid@),
            final(self).minted() == old(self).minted(),
    {
        let id = String::from_str(lock_uuid);
        self.state.detach_lock_owner(&id);
    }

    /// The counters.
    pub fn metrics(&self) -> (r: BrokerMetrics)
        ensures
            r == self@.metrics(),
    {
        self.state.metrics()
    }

    /// Writes the state down.
    pub fn snapshot_for_raft(&self) -> (r: BrokerRaftSnapshot)
        ensures
            exists|now: u128| clock::is_span(now) && r@ == #[trigger] self@.snapshot(now),
    {
        let now: u128 = self.now();
        self.snapshot_at(now)
    }

    /// Writes the state at `now` down.
    pub fn snapshot_at(&self, now: u128) -> (r: BrokerRaftSnapshot)
        ensures
            r@ == self@.snapshot(now),
    {
        self.state.snapshot_for_raft(now)
    }

    /// Restores a snapshot. One with a fault changes nothing.
    pub fn install_raft_snapshot(&mut self, payload: &SnapshotPayload) -> (r: Result<(), String>)
        ensures
            final(self).start() == old(self).start(),
            clock::is_span(final(self).clock().now),
            final(self).minted() == old(self).minted(),
            snapshot_check::reports(r, snapshot_install::payload_error(*payload)),
            final(self)@ == snapshot_install::installed(
                old(self)@,
                *payload,
                final(self).clock().now,
            ),
    {
        let clock = self.read_clocks();
        self.install_raft_snapshot_at(payload, clock.now)
    }

    /// Restores a snapshot at `now`. One with a fault changes nothing.
    pub fn install_raft_snapshot_at(&mut self, payload: &SnapshotPayload, now: u128) -> (r: Result<
        (),
        String,
    >)
        ensures
            final(self).start() == old(self).start(),
            final(self).clock() == old(self).clock(),
            final(self).minted() == old(self).minted(),
            snapshot_check::reports(r, snapshot_install::payload_error(*payload)),
            final(self)@ == snapshot_install::installed(old(self)@, *payload, now),
    {
        self.state.install_raft_snapshot(payload, now)
    }

    /// The instant at which this broker was made.
    pub fn started_at(&self) -> (r: std::time::Instant)
        ensures
            r == self.start(),
    {
        self.started_at
    }

    /// The `n` most contended keys, the most contended first.
    pub fn top_keys(&self, n: usize) -> (r: Vec<KeyContentionSnapshot>)
        ensures
            ordered_map::views(r@) == self@.top_keys(n as int),
    {
        self.state.top_keys(n)
    }

    /// Evicts every holder whose deadline has passed by `now`, nanoseconds on
    /// the broker's clock. Tells how many holders were evicted.
    pub fn tick_ttl(&mut self, now: u128) -> (r: usize)
        ensures
            final(self).start() == old(self).start(),
            clock::is_span(final(self).clock().now),
            r == old(self)@.sweep_count(now),
            model::continues(old(self).minted(), final(self).minted()),
            forall|tape: Tape|
                #[trigger] model::reads(tape, final(self).minted()) ==> final(self)@ == old(
                    self,
                )@.swept(now, final(self).clock(), tape),
    {
        let clock = self.read_clocks();
        self.tick_ttl_at(now, clock)
    }

    /// Evicts every holder whose deadline has passed by `now`; what is granted
    /// on that occasion is granted at the instant of `clock`.
    pub fn tick_ttl_at(&mut self, now: u128, clock: Clock) -> (r: usize)
        ensures
            final(self).start() == old(self).start(),
            final(self).clock() == old(self).clock(),
            r == old(self)@.sweep_count(now),
            model::continues(old(self).minted(), final(self).minted()),
            forall|tape: Tape|
                #[trigger] model::reads(tape, final(self).minted()) ==> final(self)@ == old(
                    self,
                )@.swept(now, clock, tape),
    {
        self.state.tick_ttl(now, clock)
    }

    /// How often the sweep is to run, in milliseconds; never if zero.
    pub fn ttl_sweep_interval(&self) -> (r: u64)
        ensures
            r == self@.config.ttl_sweep_interval,
    {
        self.state.config.ttl_sweep_interval
    }
}

} // verus!
