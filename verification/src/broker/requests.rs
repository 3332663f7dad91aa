//! One inbound request.

use crate::broker::acquire::{CompositeLockRequest, ExclusiveLockRequest};
use crate::broker::grants;
use crate::broker::model;
use crate::broker::model::Tape;
use crate::broker::types::{
    BrokerModel, BrokerState, ClientId, Clock, GrantOverrides, LockModel,
};
use crate::ordered_map;
use crate::protocol;
use crate::protocol::{version_reply, Request, Response, ResponseModel, PROTOCOL_VERSION};
use vstd::prelude::*;
use vstd::string::StringExecFns;

verus! {

impl LockModel {
    /// The ids of all holders: exclusive ones, readers, the writer.
    pub open spec fn holder_ids(self) -> Seq<Seq<char>> {
        let shared = ordered_map::ascending_keys::<String>(self.exclusive_holders.dom())
            + ordered_map::ascending_keys::<String>(self.readers.dom());
        match self.writer {
            Some(w) => shared.push(w.lock_uuid),
            None => shared,
        }
    }
}

/// What is known of a key.
pub open spec fn lock_info(m: BrokerModel, uuid: Seq<char>, key: Seq<char>) -> ResponseModel {
    if m.locks.dom().contains(key) {
        let l = m.locks[key];
        ResponseModel::LockInfo {
            uuid,
            key,
            is_locked: l.holder_ids().len() > 0,
            lockholder_uuids: l.holder_ids(),
            lock_request_count: l.queue.len() as usize,
            readers_count: l.readers.len() as u32,
            writer_flag: l.writer is Some,
        }
    } else {
        ResponseModel::LockInfo {
            uuid,
            key,
            is_locked: false,
            lockholder_uuids: Seq::empty(),
            lock_request_count: 0,
            readers_count: 0,
            writer_flag: false,
        }
    }
}

/// A lock request that asks for a concurrency level of zero is refused.
pub open spec fn zero_max_refusal(
    uuid: Seq<char>,
    key: Option<String>,
    keys: Option<Vec<String>>,
) -> ResponseModel {
    let error = "`max` must be >= 1; omit the field to keep the existing concurrency level"@;
    match keys {
        Some(all) => ResponseModel::CompositeLock {
            uuid,
            keys: ordered_map::views(all@),
            acquired: false,
            lock_uuid: None,
            fencing_tokens: None,
            error: Some(error),
        },
        None => ResponseModel::Lock {
            uuid,
            key: match key {
                Some(k) => k@,
                None => Seq::empty(),
            },
            acquired: false,
            lock_request_count: 0,
            lock_uuid: None,
            fencing_token: None,
            readers_count: None,
            error: Some(error),
        },
    }
}

impl BrokerModel {
    /// What a request leads to.
    pub open spec fn handled(
        self,
        client: ClientId,
        request: Request,
        overrides: GrantOverrides,
        clock: Clock,
        tape: Tape,
    ) -> BrokerModel {
        let given = protocol::shown_text(overrides.lock_uuid);
        let seed = overrides.fencing_seed;
        match request {
            Request::Version { uuid, value } => self.send(
                client,
                ResponseModel::Version {
                    uuid: uuid@,
                    broker_version: PROTOCOL_VERSION@,
                    ok: protocol::speaks(value@),
                    error: if protocol::speaks(value@) {
                        None
                    } else {
                        Some(protocol::version_refusal(value@))
                    },
                },
            ),
            Request::Auth { uuid, .. } => self.send(
                client,
                ResponseModel::Auth { uuid: uuid@, ok: true, error: None },
            ),
            Request::Lock {
                uuid,
                key,
                keys,
                pid,
                ttl,
                max,
                force,
                keep_locks_after_death,
                wait,
                ..
            } => {
                let waits = wait matches Some(w) ==> w;
                if max == Some(0u32) {
                    self.send(client, zero_max_refusal(uuid@, key, keys))
                } else {
                    match (key, keys) {
                        (Some(k), None) => self.exclusive_requested(
                            ExclusiveLockRequest {
                                client,
                                uuid,
                                key: k,
                                pid,
                                ttl,
                                max,
                                keep_locks_after_death,
                                force,
                                wait: waits,
                                grant_overrides: overrides,
                            },
                            clock,
                            tape,
                        ),
                        (None, Some(ks)) => self.composite_requested(
                            CompositeLockRequest {
                                client,
                                uuid,
                                keys: ks,
                                pid,
                                ttl,
                                wait: waits,
                                grant_overrides: overrides,
                            },
                            clock,
                            tape,
                        ),
                        (Some(_), Some(_)) => self.send(
                            client,
                            ResponseModel::Error {
                                uuid: uuid@,
                                error: "lock request must set either `key` or `keys`, not both"@,
                            },
                        ),
                        (None, None) => self.send(
                            client,
                            ResponseModel::Error {
                                uuid: uuid@,
                                error: "lock request requires `key` or `keys`"@,
                            },
                        ),
                    }
                }
            },
            Request::Unlock { uuid, key, keys, lock_uuid, force } => match (key, keys) {
                (Some(k), None) => self.unlock_requested(
                    client,
                    uuid@,
                    seq![k@],
                    protocol::shown_text(lock_uuid),
                    force,
                    clock,
                    tape,
                ),
                (None, Some(ks)) => self.unlock_requested(
                    client,
                    uuid@,
                    ordered_map::views(ks@),
                    protocol::shown_text(lock_uuid),
                    force,
                    clock,
                    tape,
                ),
                (Some(_), Some(_)) => self.send(
                    client,
                    ResponseModel::Error {
                        uuid: uuid@,
                        error: "unlock request must set either `key` or `keys`, not both"@,
                    },
                ),
                (None, None) => self.send(
                    client,
                    ResponseModel::Error {
                        uuid: uuid@,
                        error: "unlock request requires `key` or `keys`"@,
                    },
                ),
            },
            Request::RegisterRead { uuid, key } => self.read_requested(
                client,
                uuid@,
                key@,
                given,
                seed,
                clock,
                tape,
            ),
            Request::RegisterWrite { uuid, key } => self.write_requested(
                client,
                uuid@,
                key@,
                given,
                seed,
                clock,
                tape,
            ),
            Request::EndRead { uuid, key } => self.read_ended(client, uuid@, key@, clock, tape),
            Request::EndWrite { uuid, key } => self.write_ended(client, uuid@, key@, clock, tape),
            Request::LockInfo { uuid, key } => self.send(client, lock_info(self, uuid@, key@)),
            Request::Ls { uuid } => self.send(
                client,
                ResponseModel::LsResult {
                    uuid: uuid@,
                    keys: ordered_map::ascending_keys::<String>(self.locks.dom()),
                },
            ),
            Request::Heartbeat { uuid } => self.send(client, ResponseModel::Okay { uuid: uuid@ }),
        }
    }
}

impl BrokerState {
    /// What is known of a key.
    fn lock_info(&self, uuid: String, key: String) -> (r: Response)
        ensures
            r@ == lock_info(self@, uuid@, key@),
    {
        let lock = match self.locks.get(&key) {
            Some(lock) => lock,
            None => {
                let none: Vec<String> = Vec::new();
                assert(ordered_map::views(none@) =~= Seq::<Seq<char>>::empty());
                return Response::LockInfo {
                    uuid,
                    key,
                    is_locked: false,
                    lockholder_uuids: none,
                    lock_request_count: 0,
                    readers_count: 0,
                    writer_flag: false,
                };
            },
        };
        let mut ids = lock.exclusive_holders.key_list();
        let mut readers = lock.readers.key_list();
        let ghost a = ordered_map::views(ids@);
        let ghost b = ordered_map::views(readers@);
        ids.append(&mut readers);
        assert(ordered_map::views(ids@) =~= a + b);
        if let Some(w) = &lock.writer {
            ids.push(w.lock_uuid.clone());
            assert(ordered_map::views(ids@) =~= (a + b).push(w.lock_uuid@));
        }
        let count: u32 = #[verifier::truncate]
        (lock.readers.len() as u32);
        Response::LockInfo {
            uuid,
            key,
            is_locked: ids.len() > 0,
            lockholder_uuids: ids,
            lock_request_count: lock.queue.len(),
            readers_count: count,
            writer_flag: lock.writer.is_some(),
        }
    }

    /// Handles one request of `client`.
    pub fn handle_request_with_grant_overrides(
        &mut self,
        client: ClientId,
        request: Request,
        grant_overrides: GrantOverrides,
        clock: Clock,
    )
        ensures
            model::continues(old(self).minted@, final(self).minted@),
            forall|tape: Tape|
                #[trigger] model::reads(tape, final(self).minted@) ==> final(self)@ == old(
                    self,
                )@.handled(client, request, grant_overrides, clock, tape),
    {
        match request {
            Request::Version { uuid, value } => {
                self.send(client, version_reply(uuid, value.as_str()));
            },
            Request::Auth { uuid, .. } => {
                self.send(client, Response::Auth { uuid, ok: true, error: None });
            },
            Request::Lock {
                uuid,
                key,
                keys,
                pid,
                ttl,
                max,
                force,
                retry_count: _,
                keep_locks_after_death,
                wait,
            } => {
                let wait = match wait {
                    Some(w) => w,
                    None => true,
                };
                if let Some(0) = max {
                    let error = String::from_str(
                        "`max` must be >= 1; omit the field to keep the existing concurrency level",
                    );
                    match keys {
                        Some(all) => {
                            self.send(
                                client,
                                Response::CompositeLock {
                                    uuid,
                                    keys: all,
                                    acquired: false,
                                    lock_uuid: None,
                                    fencing_tokens: None,
                                    error: Some(error),
                                },
                            );
                        },
                        None => {
                            let key = match key {
                                Some(k) => k,
                                None => String::new(),
                            };
                            self.send(
                                client,
                                Response::Lock {
                                    uuid,
                                    key,
                                    acquired: false,
                                    lock_request_count: 0,
                                    lock_uuid: None,
                                    fencing_token: None,
                                    readers_count: None,
                                    error: Some(error),
                                },
                            );
                        },
                    }
                    return;
                }
                match (key, keys) {
                    (Some(k), None) => {
                        self.handle_exclusive_lock(
                            ExclusiveLockRequest {
                                client,
                                uuid,
                                key: k,
                                pid,
                                ttl,
                                max,
                                keep_locks_after_death,
                                force,
                                wait,
                                grant_overrides,
                            },
                            clock,
                        );
                    },
                    (None, Some(ks)) => {
                        self.handle_composite_lock(
                            CompositeLockRequest {
                                client,
                                uuid,
                                keys: ks,
                                pid,
                                ttl,
                                wait,
                                grant_overrides,
                            },
                            clock,
                        );
                    },
                    (Some(_), Some(_)) => {
                        self.send(
                            client,
                            Response::Error {
                                uuid,
                                error: String::from_str(
                                    "lock request must set either `key` or `keys`, not both",
                                ),
                            },
                        );
                    },
                    (None, None) => {
                        self.send(
                            client,
                            Response::Error {
                                uuid,
                                error: String::from_str("lock request requires `key` or `keys`"),
                            },
                        );
                    },
                }
            },
            Request::Unlock { uuid, key, keys, lock_uuid, force } => {
                let target_keys = match (key, keys) {
                    (Some(k), None) => grants::single(&k),
                    (None, Some(ks)) => ks,
                    (Some(_), Some(_)) => {
                        self.send(
                            client,
                            Response::Error {
                                uuid,
                                error: String::from_str(
                                    "unlock request must set either `key` or `keys`, not both",
                                ),
                            },
                        );
                        return;
                    },
                    (None, None) => {
                        self.send(
                            client,
                            Response::Error {
                                uuid,
                                error: String::from_str("unlock request requires `key` or `keys`"),
                            },
                        );
                        return;
                    },
                };
                self.handle_unlock(client, uuid, target_keys, lock_uuid, force, clock);
            },
            Request::RegisterRead { uuid, key } => {
                self.handle_register_read(client, uuid, key, grant_overrides, clock);
            },
            Request::RegisterWrite { uuid, key } => {
                self.handle_register_write(client, uuid, key, grant_overrides, clock);
            },
            Request::EndRead { uuid, key } => {
                self.handle_end_read(client, uuid, key, clock);
            },
            Request::EndWrite { uuid, key } => {
                self.handle_end_write(client, uuid, key, clock);
            },
            Request::LockInfo { uuid, key } => {
                let info = self.lock_info(uuid, key);
                self.send(client, info);
            },
            Request::Ls { uuid } => {
                let keys = self.locks.key_list();
                self.send(client, Response::LsResult { uuid, keys });
            },
            Request::Heartbeat { uuid } => {
                self.send(client, Response::Okay { uuid });
            },
        }
    }
}

} // verus!
