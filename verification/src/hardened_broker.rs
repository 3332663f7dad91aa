//! Fencing-authority admission around the lock-state broker.
//!
//! Every authority-bearing request reserves its complete fencing-token range
//! before the lock state is allowed to change. That gives one fail-closed
//! boundary for single-key, reader-writer, semaphore and composite grants. A
//! waiter whose key has granted a higher token meanwhile gets a fresh one when its
//! turn comes, so the tokens of a key grow from grant to grant.

pub mod laws;

use crate::broker;
use crate::broker::model;
use crate::broker::model::Tape;
use crate::broker::snapshot::BrokerRaftSnapshot;
use crate::broker::snapshot_check;
use crate::broker::snapshot_install;
use crate::broker::snapshot_install::SnapshotPayload;
use crate::broker::state;
use crate::broker::types::{BrokerModel, Clock, Delivery, GrantOverrides};
use crate::clock;
use crate::fenced_client::MAX_FENCING_TOKEN;
use crate::ordered_map;
use crate::protocol::{Request, Response, ResponseModel, MAX_COMPOSITE_KEYS};
use crate::text;
use vstd::prelude::*;
use vstd::string::StringExecFns;

pub use crate::broker::{BrokerConfig, BrokerMetrics, ClientId, KeyContentionSnapshot};

verus! {

/// Largest fencing value that every JSON client can represent exactly.
pub const MAX_SERVER_FENCING_TOKEN: u64 = MAX_FENCING_TOKEN;

/// Hands out ranges of fencing tokens, each above the ones before.
#[derive(Debug)]
pub struct AuthorityAllocator {
    /// The next token to hand out.
    pub next: u64,
}

/// Why the allocator cannot go past a watermark.
pub open spec fn advance_error(watermark: u64) -> Option<Seq<char>> {
    if watermark > MAX_SERVER_FENCING_TOKEN {
        Some(
            "existing broker fencing watermark "@ + text::decimal_text(watermark as nat)
                + " exceeds fleet-safe ceiling "@ + text::decimal_text(
                MAX_SERVER_FENCING_TOKEN as nat,
            ),
        )
    } else {
        None
    }
}

/// The next token once a watermark has been passed.
pub open spec fn advanced(next: u64, watermark: u64) -> u64 {
    if watermark <= MAX_SERVER_FENCING_TOKEN && watermark >= next {
        (watermark + 1) as u64
    } else {
        next
    }
}

/// Why no range of that width can be reserved.
pub open spec fn reserve_error(next: u64, width: u64) -> Option<Seq<char>> {
    if width == 0 {
        Some("fencing reservation width must be at least one"@)
    } else if next == 0 || next > MAX_SERVER_FENCING_TOKEN {
        Some(
            "fencing authority exhausted at fleet-safe ceiling "@ + text::decimal_text(
                MAX_SERVER_FENCING_TOKEN as nat,
            ),
        )
    } else if next + width - 1 > u64::MAX {
        Some("fencing authority range overflow"@)
    } else if next + width - 1 > MAX_SERVER_FENCING_TOKEN {
        Some(
            "fencing authority range would exceed fleet-safe ceiling "@ + text::decimal_text(
                MAX_SERVER_FENCING_TOKEN as nat,
            ),
        )
    } else {
        None
    }
}

/// Why an imposed range cannot be taken.
pub open spec fn observe_error(first: u64, width: u64) -> Option<Seq<char>> {
    if first == 0 || width == 0 {
        Some("fencing override must use a positive token and width"@)
    } else if first + width - 1 > u64::MAX {
        Some("fencing override range overflow"@)
    } else if first + width - 1 > MAX_SERVER_FENCING_TOKEN {
        Some(
            "fencing override range exceeds fleet-safe ceiling "@ + text::decimal_text(
                MAX_SERVER_FENCING_TOKEN as nat,
            ),
        )
    } else {
        None
    }
}

/// The next token once an imposed range has been taken.
pub open spec fn observed_next(next: u64, first: u64, width: u64) -> u64 {
    if observe_error(first, width) is None && first + width - 1 >= next {
        (first + width) as u64
    } else {
        next
    }
}

/// The first token of an allocator started at a reading of the wall clock in
/// microseconds.
pub open spec fn first_token(micros: Option<u128>) -> u64 {
    match micros {
        Some(us) => if us < 1 {
            1
        } else if us > MAX_SERVER_FENCING_TOKEN {
            MAX_SERVER_FENCING_TOKEN
        } else {
            us as u64
        },
        None => 1,
    }
}

/// `head` and the ceiling as one text.
fn at_ceiling(head: &str) -> (r: String)
    ensures
        r@ == head@ + text::decimal_text(MAX_SERVER_FENCING_TOKEN as nat),
{
    let ceiling = text::decimal(MAX_SERVER_FENCING_TOKEN);
    text::join2(head, ceiling.as_str())
}

impl AuthorityAllocator {
    /// Starts at the wall clock, so that a restart begins above what was handed
    /// out before.
    pub fn new() -> (r: Self)
        ensures
            1 <= r.next <= MAX_SERVER_FENCING_TOKEN,
    {
        AuthorityAllocator::starting_at(clock::micros_since_unix_epoch())
    }

    /// Starts at a reading of the wall clock in microseconds.
    pub fn starting_at(micros: Option<u128>) -> (r: Self)
        ensures
            r.next == first_token(micros),
            1 <= r.next <= MAX_SERVER_FENCING_TOKEN,
    {
        let next: u64 = match micros {
            Some(us) => if us < 1 {
                1
            } else if us > MAX_SERVER_FENCING_TOKEN as u128 {
                MAX_SERVER_FENCING_TOKEN
            } else {
                us as u64
            },
            None => 1,
        };
        AuthorityAllocator { next }
    }

    /// Goes past a watermark, unless it is above the ceiling.
    pub fn advance_past(&mut self, watermark: u64) -> (r: Result<(), String>)
        ensures
            snapshot_check::reports(r, advance_error(watermark)),
            final(self).next == advanced(old(self).next, watermark),
    {
        if watermark > MAX_SERVER_FENCING_TOKEN {
            let shown = text::decimal(watermark);
            let head = text::join3(
                "existing broker fencing watermark ",
                shown.as_str(),
                " exceeds fleet-safe ceiling ",
            );
            return Err(at_ceiling(head.as_str()));
        }
        if watermark >= self.next {
            self.next = watermark.saturating_add(1);
        }
        Ok(())
    }

    /// Reserves the next `width` tokens and hands out the first of them.
    pub fn reserve(&mut self, width: u64) -> (r: Result<u64, String>)
        ensures
            match r {
                Ok(first) => {
                    &&& reserve_error(old(self).next, width) is None
                    &&& first == old(self).next
                    &&& final(self).next == first + width
                },
                Err(e) => {
                    &&& reserve_error(old(self).next, width) == Some(e@)
                    &&& final(self).next == old(self).next
                },
            },
    {
        if width == 0 {
            return Err(String::from_str("fencing reservation width must be at least one"));
        }
        if self.next == 0 || self.next > MAX_SERVER_FENCING_TOKEN {
            return Err(at_ceiling("fencing authority exhausted at fleet-safe ceiling "));
        }
        let last: u64 = match self.next.checked_add(width - 1) {
            Some(last) => last,
            None => return Err(String::from_str("fencing authority range overflow")),
        };
        if last > MAX_SERVER_FENCING_TOKEN {
            return Err(at_ceiling("fencing authority range would exceed fleet-safe ceiling "));
        }
        let first: u64 = self.next;
        self.next = last.saturating_add(1);
        Ok(first)
    }

    /// Takes an imposed range.
    pub fn observe_reserved_range(&mut self, first: u64, width: u64) -> (r: Result<(), String>)
        ensures
            snapshot_check::reports(r, observe_error(first, width)),
            final(self).next == observed_next(old(self).next, first, width),
    {
        if first == 0 || width == 0 {
            return Err(String::from_str("fencing override must use a positive token and width"));
        }
        let last: u64 = match first.checked_add(width - 1) {
            Some(last) => last,
            None => return Err(String::from_str("fencing override range overflow")),
        };
        if last > MAX_SERVER_FENCING_TOKEN {
            return Err(at_ceiling("fencing override range exceeds fleet-safe ceiling "));
        }
        if last >= self.next {
            self.next = last.saturating_add(1);
        }
        Ok(())
    }
}

/// How many tokens a request takes; none if it bears no authority.
pub open spec fn width_of(request: Request) -> Option<nat> {
    match request {
        Request::Lock { key: Some(_), keys: None, .. } => Some(1),
        Request::Lock { key: None, keys: Some(keys), .. } => if 0 < keys@.len()
            <= MAX_COMPOSITE_KEYS {
            Some(ordered_map::views(keys@).to_set().len())
        } else {
            None
        },
        Request::RegisterRead { .. } => Some(1),
        Request::RegisterWrite { .. } => Some(1),
        _ => None,
    }
}

/// How many tokens a request takes; none if it bears no authority.
pub fn authority_width(request: &Request) -> (r: Option<u64>)
    ensures
        match r {
            Some(w) => width_of(*request) == Some(w as nat) && 1 <= w <= MAX_COMPOSITE_KEYS,
            None => width_of(*request) is None,
        },
{
    match request {
        Request::Lock { key: Some(_), keys: None, .. } => Some(1),
        Request::Lock { key: None, keys: Some(keys), .. } => {
            if keys.len() == 0 || keys.len() > MAX_COMPOSITE_KEYS {
                return None;
            }
            let distinct = ordered_map::sort_distinct(keys);
            proof {
                ordered_map::lemma_ascending_no_duplicates::<String>(
                    ordered_map::views(distinct@),
                );
            }
            Some(distinct.len() as u64)
        },
        Request::RegisterRead { .. } => Some(1),
        Request::RegisterWrite { .. } => Some(1),
        _ => None,
    }
}

/// What a request without authority is answered.
pub open spec fn refusal(request: Request, reason: Seq<char>) -> ResponseModel {
    match request {
        Request::Lock { uuid, key: Some(key), keys: None, .. } => ResponseModel::Lock {
            uuid: uuid@,
            key: key@,
            acquired: false,
            lock_request_count: 0,
            lock_uuid: None,
            fencing_token: None,
            readers_count: None,
            error: Some(reason),
        },
        Request::Lock { uuid, key: None, keys: Some(keys), .. } => ResponseModel::CompositeLock {
            uuid: uuid@,
            keys: ordered_map::views(keys@),
            acquired: false,
            lock_uuid: None,
            fencing_tokens: None,
            error: Some(reason),
        },
        _ => ResponseModel::Error { uuid: request.correlation(), error: reason },
    }
}

/// What a request without authority is answered.
pub fn authority_error_response(request: &Request, reason: String) -> (r: Response)
    ensures
        r@ == refusal(*request, reason@),
{
    match request {
        Request::Lock { uuid, key: Some(key), keys: None, .. } => Response::Lock {
            uuid: uuid.clone(),
            key: key.clone(),
            acquired: false,
            lock_request_count: 0,
            lock_uuid: None,
            fencing_token: None,
            readers_count: None,
            error: Some(reason),
        },
        Request::Lock { uuid, key: None, keys: Some(keys), .. } => Response::CompositeLock {
            uuid: uuid.clone(),
            keys: broker::grants::copied(keys),
            acquired: false,
            lock_uuid: None,
            fencing_tokens: None,
            error: Some(reason),
        },
        _ => Response::Error {
            uuid: String::from_str(request.correlation_uuid()),
            error: reason,
        },
    }
}

/// What the admission of a request comes to: the first token of its range or
/// the reason why it has none, and the next token after it.
pub open spec fn admission(
    next: u64,
    watermark: u64,
    width: u64,
    seed: Option<u64>,
) -> (Result<u64, Seq<char>>, u64) {
    let past = advanced(next, watermark);
    match advance_error(watermark) {
        Some(reason) => (Err(reason), past),
        None => match seed {
            Some(first) => match observe_error(first, width) {
                Some(reason) => (Err(reason), past),
                None => (Ok(first), observed_next(past, first, width)),
            },
            None => match reserve_error(past, width) {
                Some(reason) => (Err(reason), past),
                None => (Ok(past), (past + width) as u64),
            },
        },
    }
}

/// What a request leads to behind the admission: the lock state and the next
/// token.
pub open spec fn admitted(
    m: BrokerModel,
    next: u64,
    client: ClientId,
    request: Request,
    overrides: GrantOverrides,
    clock: Clock,
    tape: Tape,
) -> (BrokerModel, u64) {
    match width_of(request) {
        None => (m.handled(client, request, overrides, clock, tape), next),
        Some(width) => match admission(
            next,
            m.fencing_watermark,
            width as u64,
            overrides.fencing_seed,
        ) {
            (Ok(seed), after) => (
                m.handled(
                    client,
                    request,
                    GrantOverrides { fencing_seed: Some(seed), ..overrides },
                    clock,
                    tape,
                ),
                after,
            ),
            (Err(reason), after) => (m.notified(client, refusal(request, reason)), after),
        },
    }
}

/// The broker that servers use.
pub struct Broker {
    inner: broker::Broker,
    authority: AuthorityAllocator,
}

impl View for Broker {
    type V = BrokerModel;

    closed spec fn view(&self) -> BrokerModel {
        self.inner@
    }
}

impl Broker {
    /// Every random lock id made so far, in order.
    pub closed spec fn minted(&self) -> Seq<Seq<char>> {
        self.inner.minted()
    }

    /// The last reading of the clocks.
    pub closed spec fn clock(&self) -> Clock {
        self.inner.clock()
    }

    /// The instant at which this broker was made.
    pub closed spec fn start(&self) -> std::time::Instant {
        self.inner.start()
    }

    /// The next fencing token to hand out.
    pub closed spec fn next_token(&self) -> u64 {
        self.authority.next
    }

    /// A broker that has seen nothing yet.
    pub fn new(config: BrokerConfig) -> (r: Self)
        ensures
            r@ == state::initial(config),
            r.minted() == Seq::<Seq<char>>::empty(),
            r.clock() == (Clock { now: 0, wall_ms: 0 }),
            1 <= r.next_token() <= MAX_SERVER_FENCING_TOKEN,
    {
        Broker::with_authority(config, AuthorityAllocator::new())
    }

    /// A broker that has seen nothing yet and hands out tokens of `authority`.
    pub fn with_authority(config: BrokerConfig, authority: AuthorityAllocator) -> (r: Self)
        ensures
            r@ == state::initial(config),
            r.minted() == Seq::<Seq<char>>::empty(),
            r.clock() == (Clock { now: 0, wall_ms: 0 }),
            r.next_token() == authority.next,
    {
        Broker { inner: broker::Broker::new(config), authority }
    }

    /// Nanoseconds on the broker's monotonic clock, which starts with the broker.
    /// Every time to live ahead of it can be told as a deadline.
    pub fn now(&self) -> (r: u128)
        ensures
            clock::is_span(r),
    {
        self.inner.now()
    }

    /// Reserves the token range of a request.
    fn reserve_range(&mut self, width: u64, seed: Option<u64>) -> (r: Result<u64, String>)
        ensures
            final(self).start() == old(self).start(),
            final(self)@ == old(self)@,
            final(self).minted() == old(self).minted(),
            final(self).clock() == old(self).clock(),
            ({
                let a = admission(old(self).next_token(), old(self)@.fencing_watermark, width, seed);
                &&& final(self).next_token() == a.1
                &&& match r {
                    Ok(first) => a.0 == Ok::<u64, Seq<char>>(first),
                    Err(e) => a.0 == Err::<u64, Seq<char>>(e@),
                }
            }),
    {
        let watermark: u64 = self.inner.metrics().fencing_watermark;
        match self.authority.advance_past(watermark) {
            Ok(_) => {},
            Err(e) => return Err(e),
        }
        match seed {
            Some(first) => match self.authority.observe_reserved_range(first, width) {
                Ok(_) => Ok(first),
                Err(e) => Err(e),
            },
            None => self.authority.reserve(width),
        }
    }

    /// Handles one request of `client`.
    pub fn handle_request(&mut self, client: ClientId, request: Request)
        ensures
            final(self).start() == old(self).start(),
            clock::is_span(final(self).clock().now),
            model::continues(old(self).minted(), final(self).minted()),
            forall|tape: Tape|
                #[trigger] model::reads(tape, final(self).minted()) ==> (
                    final(self)@,
                    final(self).next_token(),
                ) == admitted(
                    old(self)@,
                    old(self).next_token(),
                    client,
                    request,
                    (GrantOverrides { lock_uuid: None, fencing_seed: None }),
                    final(self).clock(),
                    tape,
                ),
    {
        self.handle_request_with_grant_uuid(client, request, None);
    }

    /// Handles one request of `client`; a grant gets the given lock id.
    pub fn handle_request_with_grant_uuid(
        &mut self,
        client: ClientId,
        request: Request,
        grant_lock_uuid: Option<String>,
    )
        ensures
            final(self).start() == old(self).start(),
            clock::is_span(final(self).clock().now),
            model::continues(old(self).minted(), final(self).minted()),
            forall|tape: Tape|
                #[trigger] model::reads(tape, final(self).minted()) ==> (
                    final(self)@,
                    final(self).next_token(),
                ) == admitted(
                    old(self)@,
                    old(self).next_token(),
                    client,
                    request,
                    (GrantOverrides { lock_uuid: grant_lock_uuid, fencing_seed: None }),
                    final(self).clock(),
                    tape,
                ),
    {
        self.handle_request_with_grant_overrides(
            client,
            request,
            GrantOverrides { lock_uuid: grant_lock_uuid, fencing_seed: None },
        );
    }

    /// Handles one request of `client`; a grant gets the given lock id and
    /// fencing token.
    pub fn handle_request_with_grant_overrides(
        &mut self,
        client: ClientId,
        request: Request,
        grant_overrides: GrantOverrides,
    )
        ensures
            final(self).start() == old(self).start(),
            clock::is_span(final(self).clock().now),
            model::continues(old(self).minted(), final(self).minted()),
            forall|tape: Tape|
                #[trigger] model::reads(tape, final(self).minted()) ==> (
                    final(self)@,
                    final(self).next_token(),
                ) == admitted(
                    old(self)@,
                    old(self).next_token(),
                    client,
                    request,
                    grant_overrides,
                    final(self).clock(),
                    tape,
                ),
    {
        let clock = self.inner.read_clocks();
        self.handle_request_at(client, request, grant_overrides, clock);
    }

    /// Handles one request of `client` at the instant of `clock`.
    pub fn handle_request_at(
        &mut self,
        client: ClientId,
        request: Request,
        grant_overrides: GrantOverrides,
        clock: Clock,
    )
        ensures
            final(self).start() == old(self).start(),
            final(self).clock() == old(self).clock(),
            model::continues(old(self).minted(), final(self).minted()),
            forall|tape: Tape|
                #[trigger] model::reads(tape, final(self).minted()) ==> (
                    final(self)@,
                    final(self).next_token(),
                ) == admitted(
                    old(self)@,
                    old(self).next_token(),
                    client,
                    request,
                    grant_overrides,
                    clock,
                    tape,
                ),
    {
        let width: u64 = match authority_width(&request) {
            Some(width) => width,
            None => {
                self.inner.handle_request_at(client, request, grant_overrides, clock);
                return;
            },
        };
        match self.reserve_range(width, grant_overrides.fencing_seed) {
            Ok(seed) => {
                let reserved = GrantOverrides {
                    lock_uuid: grant_overrides.lock_uuid,
                    fencing_seed: Some(seed),
                };
                self.inner.handle_request_at(client, request, reserved, clock);
            },
            Err(reason) => {
                let response = authority_error_response(&request, reason);
                let _ = self.inner.try_send(client, response);
            },
        }
    }

    /// Registers a client and hands out its id.
    pub fn register_client(&mut self) -> (r: ClientId)
        requires
            old(self)@.clients.len() < u64::MAX,
        ensures
            final(self).start() == old(self).start(),
            final(self).clock() == old(self).clock(),
            r == old(self)@.next_free_client(old(self)@.next_client_id),
            r >= 1,
            !old(self)@.clients.dom().contains(r),
            final(self)@ == old(self)@.registered(old(self)@.next_client_id),
            final(self).minted() == old(self).minted(),
            final(self).next_token() == old(self).next_token(),
    {
        self.inner.register_client()
    }

    /// Registers a client under the first free id from `preferred_id` on.
    pub fn register_client_with_id(&mut self, preferred_id: ClientId) -> (r: ClientId)
        requires
            old(self)@.clients.len() < u64::MAX,
        ensures
            final(self).start() == old(self).start(),
            final(self).clock() == old(self).clock(),
            r == old(self)@.next_free_client(preferred_id),
            r >= 1,
            !old(self)@.clients.dom().contains(r),
            final(self)@ == old(self)@.registered(preferred_id),
            final(self).minted() == old(self).minted(),
            final(self).next_token() == old(self).next_token(),
    {
        self.inner.register_client_with_id(preferred_id)
    }

    /// Drops a client, with everything it holds and awaits.
    pub fn drop_client(&mut self, client: ClientId)
        ensures
            final(self).start() == old(self).start(),
            clock::is_span(final(self).clock().now),
            final(self).next_token() == old(self).next_token(),
            model::continues(old(self).minted(), final(self).minted()),
            forall|tape: Tape|
                #[trigger] model::reads(tape, final(self).minted()) ==> final(self)@ == old(
                    self,
                )@.client_dropped(client, final(self).clock(), tape),
    {
        self.inner.drop_client(client);
    }

    /// Hands a notice of the transport to a registered client. Tells whether
    /// the client is registered.
    pub fn try_send(&mut self, client: ClientId, response: Response) -> (r: bool)
        ensures
            final(self).start() == old(self).start(),
            final(self).clock() == old(self).clock(),
            r == old(self)@.clients.dom().contains(client),
            final(self)@ == old(self)@.notified(client, response@),
            final(self).minted() == old(self).minted(),
            final(self).next_token() == old(self).next_token(),
    {
        self.inner.try_send(client, response)
    }

    /// Takes the responses that wait for the transport.
    pub fn take_outbox(&mut self) -> (r: Vec<Delivery>)
        ensures
            final(self).start() == old(self).start(),
            final(self).clock() == old(self).clock(),
            ordered_map::views(r@) == old(self)@.outbox,
            final(self)@ == (BrokerModel { outbox: Seq::empty(), ..old(self)@ }),
            final(self).minted() == old(self).minted(),
            final(self).next_token() == old(self).next_token(),
    {
        self.inner.take_outbox()
    }

    /// Strikes `lock_uuid` off the books of `client` and leaves the lock alone.
    pub fn detach_lock_from_client(&mut self, client: ClientId, lock_uuid: &str)
        ensures
            final(self).start() == old(self).start(),
            final(self).clock() == old(self).clock(),
            final(self)@ == old(self)@.holder_untracked(client, lock_uuid@),
            final(self).minted() == old(self).minted(),
            final(self).next_token() == old(self).next_token(),
    {
        self.inner.detach_lock_from_client(client, lock_uuid);
    }

    /// Turns the holder `lock_uuid` into a bearer token.
    pub fn detach_lock_owner(&mut self, lock_uuid: &str)
        ensures
            final(self).start() == old(self).start(),
            final(self).clock() == old(self).clock(),
            final(self)@ == old(self)@.owner_detached(lock_uuid@),
            final(self).minted() == old(self).minted(),
            final(self).next_token() == old(self).next_token(),
    {
        self.inner.detach_lock_owner(lock_uuid);
    }

    /// The counters.
    pub fn metrics(&self) -> (r: BrokerMetrics)
        ensures
            r == self@.metrics(),
    {
        self.inner.metrics()
    }

    /// Writes the state down.
    pub fn snapshot_for_raft(&self) -> (r: BrokerRaftSnapshot)
        ensures
            exists|now: u128| clock::is_span(now) && r@ == #[trigger] self@.snapshot(now),
    {
        let r = self.inner.snapshot_for_raft();
        proof {
            let now = choose|now: u128|
                clock::is_span(now) && r@ == #[trigger] self.inner@.snapshot(now);
            assert(r@ == self@.snapshot(now));
        }
        r
    }

    /// Restores a snapshot. One with a fault changes nothing.
    pub fn install_raft_snapshot(&mut self, payload: &SnapshotPayload) -> (r: Result<(), String>)
        ensures
            final(self).start() == old(self).start(),
            clock::is_span(final(self).clock().now),
            final(self).minted() == old(self).minted(),
            final(self).next_token() == old(self).next_token(),
            snapshot_check::reports(r, snapshot_install::payload_error(*payload)),
            final(self)@ == snapshot_install::installed(
                old(self)@,
                *payload,
                final(self).clock().now,
            ),
    {
        self.inner.install_raft_snapshot(payload)
    }

    /// The instant at which this broker was made.
    pub fn started_at(&self) -> (r: std::time::Instant)
        ensures
            r == self.start(),
    {
        self.inner.started_at()
    }

    /// The `n` most contended keys, the most contended first.
    pub fn top_keys(&self, n: usize) -> (r: Vec<KeyContentionSnapshot>)
        ensures
            ordered_map::views(r@) == self@.top_keys(n as int),
    {
        self.inner.top_keys(n)
    }

    /// Evicts every holder whose deadline has passed by `now`.
    pub fn tick_ttl(&mut self, now: u128) -> (r: usize)
        ensures
            final(self).start() == old(self).start(),
            clock::is_span(final(self).clock().now),
            final(self).next_token() == old(self).next_token(),
            r == old(self)@.sweep_count(now),
            model::continues(old(self).minted(), final(self).minted()),
            forall|tape: Tape|
                #[trigger] model::reads(tape, final(self).minted()) ==> final(self)@ == old(
                    self,
                )@.swept(now, final(self).clock(), tape),
    {
        self.inner.tick_ttl(now)
    }

    /// How often the sweep is to run, in milliseconds; never if zero.
    pub fn ttl_sweep_interval(&self) -> (r: u64)
        ensures
            r == self@.config.ttl_sweep_interval,
    {
        self.inner.ttl_sweep_interval()
    }
}

} // verus!
