//! Ending reads and writes.

use crate::broker::model;
use crate::broker::model::Tape;
use crate::broker::types::{BrokerModel, BrokerState, ClientId, ClientModel, Clock, LockModel};
use crate::ordered_map;
use crate::protocol::{Response, ResponseModel};
use vstd::prelude::*;

verus! {

impl LockModel {
    /// The ids under which `client` reads.
    pub open spec fn reads_of(self, client: ClientId) -> Set<Seq<char>> {
        Set::new(
            |u: Seq<char>| self.readers.dom().contains(u) && self.readers[u].client == client,
        )
    }

    pub open spec fn without_readers(self, ids: Set<Seq<char>>) -> LockModel {
        LockModel { readers: self.readers.remove_keys(ids), ..self }
    }
}

impl BrokerModel {
    /// A registered client holds none of `ids` any more.
    pub open spec fn holders_untracked(
        self,
        client: ClientId,
        ids: Set<Seq<char>>,
    ) -> BrokerModel {
        if self.clients.dom().contains(client) {
            let c = self.clients[client];
            self.with_client(
                client,
                ClientModel { held_lock_uuids: c.held_lock_uuids.remove_keys(ids), ..c },
            )
        } else {
            self
        }
    }

    /// Every read of `client` on `key` ends.
    pub open spec fn read_released(
        self,
        client: ClientId,
        uuid: Seq<char>,
        key: Seq<char>,
    ) -> BrokerModel {
        let l = self.locks[key];
        let ids = l.reads_of(client);
        self.with_lock(key, l.without_readers(ids)).holders_untracked(client, ids).send(
            client,
            ResponseModel::EndReadResult {
                uuid,
                key,
                readers_count: l.without_readers(ids).readers.len() as u32,
            },
        )
    }

    /// Every read of `client` on `key` ends, and waiters are granted.
    pub open spec fn read_ended(
        self,
        client: ClientId,
        uuid: Seq<char>,
        key: Seq<char>,
        clock: Clock,
        tape: Tape,
    ) -> BrokerModel {
        if self.locks.dom().contains(key) {
            self.read_released(client, uuid, key).settled(seq![key], clock, tape)
        } else {
            self.send(client, ResponseModel::EndReadResult { uuid, key, readers_count: 0 })
        }
    }

    /// The write of `client` on `key` ends, if it is the writer.
    pub open spec fn write_released(
        self,
        client: ClientId,
        uuid: Seq<char>,
        key: Seq<char>,
    ) -> BrokerModel {
        let l = self.locks[key];
        let ended = match l.writer {
            Some(w) if w.client == client => self.with_lock(
                key,
                LockModel { writer: None, ..l },
            ).holder_untracked(client, w.lock_uuid),
            _ => self,
        };
        ended.send(
            client,
            ResponseModel::EndWriteResult {
                uuid,
                key,
                readers_count: l.readers.len() as u32,
                writer_flag: ended.locks[key].writer is Some,
            },
        )
    }

    /// The write of `client` on `key` ends, if it is the writer, and waiters are
    /// granted. Of a key that does not exist nothing is reported.
    pub open spec fn write_ended(
        self,
        client: ClientId,
        uuid: Seq<char>,
        key: Seq<char>,
        clock: Clock,
        tape: Tape,
    ) -> BrokerModel {
        if self.locks.dom().contains(key) {
            self.write_released(client, uuid, key).settled(seq![key], clock, tape)
        } else {
            self
        }
    }
}

impl BrokerState {
    /// Ends every read of `client` on `key`.
    pub fn handle_end_read(&mut self, client: ClientId, uuid: String, key: String, clock: Clock)
        ensures
            model::continues(old(self).minted@, final(self).minted@),
            forall|tape: Tape|
                #[trigger] model::reads(tape, final(self).minted@) ==> final(self)@ == old(
                    self,
                )@.read_ended(client, uuid@, key@, clock, tape),
    {
        let ghost start = self@;
        let ids = match self.locks.get_mut(&key) {
            Some(lock) => {
                let ids = lock.reader_ids_of(client);
                lock.readers.remove_all(&ids);
                ids
            },
            None => {
                self.send(client, Response::EndReadResult { uuid, key, readers_count: 0 });
                return;
            },
        };
        if let Some(handle) = self.clients.get_mut(&client) {
            handle.held_lock_uuids.remove_all(&ids);
        }
        proof {
            let l = start.locks[key@];
            let names = ordered_map::views(ids@);
            assert(names.to_set() =~= l.reads_of(client)) by {
                assert forall|u: Seq<char>| #[trigger] names.to_set().contains(u) <==> l.reads_of(
                    client,
                ).contains(u) by {
                    assert(names.to_set().contains(u) <==> names.contains(u));
                }
            }
        }
        let readers: u32 = match self.locks.get(&key) {
            Some(lock) => #[verifier::truncate]
            (lock.readers.len() as u32),
            None => vstd::pervasive::unreached(),
        };
        self.send(
            client,
            Response::EndReadResult { uuid, key: key.clone(), readers_count: readers },
        );
        self.try_grant_next(&key, clock);
    }

    /// Ends the write of `client` on `key`.
    pub fn handle_end_write(&mut self, client: ClientId, uuid: String, key: String, clock: Clock)
        ensures
            model::continues(old(self).minted@, final(self).minted@),
            forall|tape: Tape|
                #[trigger] model::reads(tape, final(self).minted@) ==> final(self)@ == old(
                    self,
                )@.write_ended(client, uuid@, key@, clock, tape),
    {
        let ghost start = self@;
        let ended: Option<String> = match self.locks.get(&key) {
            None => return,
            Some(lock) => match &lock.writer {
                Some(w) => if w.client == client {
                    Some(w.lock_uuid.clone())
                } else {
                    None
                },
                None => None,
            },
        };
        if let Some(id) = ended {
            if let Some(lock) = self.locks.get_mut(&key) {
                lock.writer = None;
            }
            self.untrack_holder(client, &id);
        }
        let lock = match self.locks.get(&key) {
            Some(lock) => lock,
            None => vstd::pervasive::unreached(),
        };
        let writer_flag = lock.writer.is_some();
        let readers: u32 = #[verifier::truncate]
        (lock.readers.len() as u32);
        self.send(
            client,
            Response::EndWriteResult { uuid, key: key.clone(), readers_count: readers, writer_flag },
        );
        self.try_grant_next(&key, clock);
    }
}

} // verus!
