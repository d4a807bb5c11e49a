//! The verified operations of the storage core: the schema-level singleton,
//! appending to the log and its indexes, lookups, and the tombstone set.

use vstd::prelude::*;
use crate::bytes::{be_seq, from_be, lemma_from_be_be_seq, lemma_be_seq_len,
    lemma_pow256_values, read_be4_at};
use crate::codec::{dec_event, decode_event, encode_event};
use crate::event::{enc_event, Event, EventModel};
use crate::keys::{key_ac, key_ci, key_tc, make_ac_key, make_ci_key, make_tc_key};
use crate::store::{ac_table, ci_table, deleted_table, general_table, id_table, ip_table,
    legacy_events_table, legacy_offsets_table, log_table, model, tc_table, Store, StoreModel};

verus! {

/// The errors the storage core surfaces. Storage failures come from the
/// embedded store; the others are the schema and decoding errors of the
/// core itself.
#[derive(Debug)]
pub enum StoreError {
    /// The underlying store failed; surfaced, never retried here.
    Storage(heed::Error),
    /// The database was written by a newer schema than this build knows.
    SchemaAhead(u32),
    /// The stored `migration_level` value is shorter than four bytes.
    BadLevelValue,
    /// An offset reachable from an index does not hold a decodable record.
    Corrupt(u64),
    /// The log has grown past the last addressable byte offset.
    OffsetOverflow,
}

/// The `general` key of the schema singleton: the ASCII bytes of
/// `migration_level`.
pub open spec fn level_key() -> Seq<u8> {
    seq![
        109u8, 105u8, 103u8, 114u8, 97u8, 116u8, 105u8, 111u8, 110u8, 95u8, 108u8, 101u8, 118u8,
        101u8, 108u8,
    ]
}

pub fn make_level_key() -> (r: Vec<u8>)
    ensures
        r@ == level_key(),
{
    let mut r: Vec<u8> = Vec::new();
    r.push(109);
    r.push(105);
    r.push(103);
    r.push(114);
    r.push(97);
    r.push(116);
    r.push(105);
    r.push(111);
    r.push(110);
    r.push(95);
    r.push(108);
    r.push(101);
    r.push(118);
    r.push(101);
    r.push(108);
    proof {
        assert(r@ =~= level_key());
    }
    r
}

/// The migration level a `general` table holds: absent means zero; present
/// but shorter than four bytes is malformed.
pub open spec fn stored_level(g: Map<Seq<u8>, Seq<u8>>) -> Option<u32> {
    if !g.contains_key(level_key()) {
        Some(0u32)
    } else if g[level_key()].len() >= 4 {
        Some(from_be(g[level_key()].take(4)) as u32)
    } else {
        None
    }
}

/// A tag is indexed when its name is a single byte and it carries a value.
pub open spec fn indexed_tag(t: Seq<Seq<u8>>) -> bool {
    t.len() >= 2 && t[0].len() == 1
}

/// The `tc_index` contents after inserting the entries of the first `n` tags
/// of `e` at offset `off`.
pub open spec fn tc_insert_upto(tc0: Map<Seq<u8>, u64>, e: EventModel, off: u64, n: int) -> Map<
    Seq<u8>,
    u64,
>
    decreases n,
{
    if n <= 0 {
        tc0
    } else {
        let prev = tc_insert_upto(tc0, e, off, n - 1);
        let t = e.tags[n - 1];
        if indexed_tag(t) {
            prev.insert(key_tc(t[0][0], t[1], e.created_at, e.id), off)
        } else {
            prev
        }
    }
}

/// A complete listing of a key set: sound, complete, and ascending in the
/// bytewise key order.
pub open spec fn lists_keys(tbl: Set<Seq<u8>>, v: Seq<Vec<u8>>) -> bool {
    &&& forall|j: int| 0 <= j < v.len() ==> tbl.contains((#[trigger] v[j])@)
    &&& forall|k: Seq<u8>| #[trigger]
        tbl.contains(k) ==> exists|j: int| 0 <= j < v.len() && (#[trigger] v[j])@ == k
    &&& forall|j1: int, j2: int| 0 <= j1 < j2 < v.len() ==> crate::bytes::lex_lt(v[j1]@, v[j2]@)
}

/// The log has grown past the last addressable byte offset: the next offset
/// after the greatest stored one does not fit in 64 bits.
pub open spec fn log_full(log: Map<u64, Seq<u8>>) -> bool {
    exists|p: u64| #[trigger]
        log.contains_key(p) && (forall|k: u64| #[trigger] log.contains_key(k) ==> k <= p) && p
            as int + (if log[p].len() == 0 {
            1int
        } else {
            log[p].len() as int
        }) > u64::MAX as int
}

impl Store {
    /// Reads the stored migration level; absence means zero.
    pub fn get_migration_level(&self) -> (r: Result<u32, StoreError>)
        ensures
            r matches Ok(l) ==> stored_level(general_table(*self)) == Some(l),
            r matches Err(e) ==> (match e {
                StoreError::BadLevelValue => stored_level(general_table(*self)) is None,
                StoreError::Storage(_) => true,
                _ => false,
            }),
    {
        let k = make_level_key();
        let got = match self.general_get(&k) {
            Ok(v) => v,
            Err(e) => return Err(StoreError::Storage(e)),
        };
        match got {
            None => Ok(0),
            Some(v) => {
                if v.len() < 4 {
                    Err(StoreError::BadLevelValue)
                } else {
                    let l = read_be4_at(&v, 0);
                    proof {
                        let g = general_table(*self);
                        assert(v@.subrange(0, 4) =~= g[level_key()].take(4));
                        crate::codec::lemma_from_be_bound(g[level_key()].take(4));
                        lemma_pow256_values();
                    }
                    Ok(l)
                }
            },
        }
    }

    /// Writes the migration level as a four-byte big-endian singleton.
    pub fn set_migration_level(&mut self, level: u32) -> (r: Result<(), StoreError>)
        ensures
            r is Ok ==> model(*final(self)) == (StoreModel {
                general: general_table(*old(self)).insert(level_key(), be_seq(level as int, 4)),
                ..model(*old(self))
            }),
            r is Ok ==> stored_level(general_table(*final(self))) == Some(level),
            r matches Err(e) ==> e matches StoreError::Storage(_) && model(*final(self)) == model(
                *old(self),
            ),
    {
        let k = make_level_key();
        let v = crate::bytes::u32_to_be4(level);
        match self.general_put(&k, &v) {
            Ok(()) => {
                proof {
                    let g = general_table(*self);
                    lemma_be_seq_len(level as int, 4);
                    assert(g[level_key()].take(4) =~= be_seq(level as int, 4));
                    lemma_pow256_values();
                    lemma_from_be_be_seq(level as int, 4);
                }
                Ok(())
            },
            Err(e) => Err(StoreError::Storage(e)),
        }
    }

    /// Records an id in the tombstone set; reads built on the indexes filter
    /// through this set.
    pub fn mark_deleted(&mut self, id: &Vec<u8>) -> (r: Result<(), StoreError>)
        ensures
            r is Ok ==> model(*final(self)) == (StoreModel {
                deleted: deleted_table(*old(self)).insert(id@),
                ..model(*old(self))
            }),
            r matches Err(e) ==> e matches StoreError::Storage(_) && model(*final(self)) == model(
                *old(self),
            ),
    {
        match self.deleted_put(id) {
            Ok(()) => Ok(()),
            Err(e) => Err(StoreError::Storage(e)),
        }
    }

    /// Whether an id is tombstoned.
    pub fn is_deleted(&self, id: &Vec<u8>) -> (r: Result<bool, StoreError>)
        ensures
            r matches Ok(b) ==> b == deleted_table(*self).contains(id@),
            r matches Err(e) ==> e matches StoreError::Storage(_),
    {
        match self.deleted_contains(id) {
            Ok(b) => Ok(b),
            Err(e) => Err(StoreError::Storage(e)),
        }
    }

    /// Dereferences a log offset. Defined for offsets recovered from the
    /// indexes; an offset that holds no decodable record is a corruption
    /// error.
    pub fn get_event_by_offset(&self, off: u64) -> (r: Result<Event, StoreError>)
        ensures
            r matches Ok(ev) ==> log_table(*self).contains_key(off) && dec_event(
                log_table(*self)[off],
            ) == Some(ev@),
            r matches Err(e) ==> (match e {
                StoreError::Corrupt(o) => o == off && (!log_table(*self).contains_key(off) || dec_event(
                    log_table(*self)[off],
                ) is None),
                StoreError::Storage(_) => true,
                _ => false,
            }),
    {
        let got = match self.log_get(off) {
            Ok(v) => v,
            Err(e) => return Err(StoreError::Storage(e)),
        };
        match got {
            None => Err(StoreError::Corrupt(off)),
            Some(bytes) => match decode_event(&bytes) {
                Some(ev) => Ok(ev),
                None => Err(StoreError::Corrupt(off)),
            },
        }
    }

    /// Looks an event up by its id. A missing id is no error; a present id
    /// whose offset holds no decodable record is. Tombstones do not affect
    /// this lookup: deletion is a read-side filter on scans, not a log
    /// mutation.
    pub fn get_by_id(&self, id: &Vec<u8>) -> (r: Result<Option<Event>, StoreError>)
        ensures
            r matches Ok(v) ==> (match v {
                Some(ev) => id_table(*self).contains_key(id@) && log_table(*self).contains_key(
                    id_table(*self)[id@],
                ) && dec_event(log_table(*self)[id_table(*self)[id@]]) == Some(ev@),
                None => !id_table(*self).contains_key(id@),
            }),
            r matches Err(e) ==> (match e {
                StoreError::Corrupt(o) => id_table(*self).contains_key(id@) && o == id_table(
                    *self,
                )[id@] && (!log_table(*self).contains_key(o) || dec_event(log_table(*self)[o])
                    is None),
                StoreError::Storage(_) => true,
                _ => false,
            }),
    {
        let got = match self.i_get(id) {
            Ok(v) => v,
            Err(e) => return Err(StoreError::Storage(e)),
        };
        match got {
            None => Ok(None),
            Some(off) => match self.get_event_by_offset(off) {
                Ok(ev) => Ok(Some(ev)),
                Err(e) => Err(e),
            },
        }
    }

    /// Writes one `i_index` entry: id to offset. Part of the index family's
    /// own interface; also the layout older generations left behind, which
    /// the migration engine rebuilds the other indexes from.
    pub fn i_index_put(&mut self, id: &Vec<u8>, off: u64) -> (r: Result<(), StoreError>)
        ensures
            r is Ok ==> model(*final(self)) == (StoreModel {
                ids: id_table(*old(self)).insert(id@, off),
                ..model(*old(self))
            }),
            r matches Err(e) ==> e matches StoreError::Storage(_) && model(*final(self)) == model(
                *old(self),
            ),
    {
        match self.i_put(id, off) {
            Ok(()) => Ok(()),
            Err(e) => Err(StoreError::Storage(e)),
        }
    }

    /// Writes one log record at a caller-chosen offset, without touching any
    /// index. This is the raw log half of the index family's interface; the
    /// usual write path is `append`.
    pub fn log_store_at(&mut self, off: u64, e: &Event) -> (r: Result<(), StoreError>)
        ensures
            r is Ok ==> model(*final(self)) == (StoreModel {
                log: log_table(*old(self)).insert(off, enc_event(e@)),
                ..model(*old(self))
            }),
            r matches Err(e2) ==> e2 matches StoreError::Storage(_) && model(*final(self)) == model(
                *old(self),
            ),
    {
        let bytes = encode_event(e);
        match self.log_put(off, &bytes) {
            Ok(()) => Ok(()),
            Err(e2) => Err(StoreError::Storage(e2)),
        }
    }

    /// Inserts the `ac_index` entry and the `tc_index` entries of one event.
    /// Only tags whose name is exactly one byte and which carry a value are
    /// indexed.
    pub(crate) fn apply_ac_tc(&mut self, e: &Event, off: u64) -> (r: Result<(), StoreError>)
        ensures
            r is Ok ==> model(*final(self)) == (StoreModel {
                ac: ac_table(*old(self)).insert(key_ac(e@.pubkey, e@.created_at, e@.id), off),
                tc: tc_insert_upto(tc_table(*old(self)), e@, off, e@.tags.len() as int),
                ..model(*old(self))
            }),
            r is Err ==> general_table(*final(self)) == general_table(*old(self))
                && log_table(*final(self)) == log_table(*old(self)) && id_table(*final(self))
                == id_table(*old(self)) && ci_table(*final(self)) == ci_table(*old(self))
                && deleted_table(*final(self)) == deleted_table(*old(self)) && ip_table(
                *final(self),
            ) == ip_table(*old(self)) && legacy_offsets_table(*final(self)) == legacy_offsets_table(
                *old(self),
            ) && legacy_events_table(*final(self)) == legacy_events_table(*old(self)),
            r matches Err(e2) ==> e2 matches StoreError::Storage(_),
    {
        let ak = make_ac_key(&e.pubkey, e.created_at, &e.id);
        match self.ac_put(&ak, off) {
            Ok(()) => (),
            Err(er) => return Err(StoreError::Storage(er)),
        }
        let mut i: usize = 0;
        while i < e.tags.len()
            invariant
                i <= e.tags@.len(),
                e@.tags.len() == e.tags@.len(),
                model(*self) == (StoreModel {
                    ac: ac_table(*old(self)).insert(key_ac(e@.pubkey, e@.created_at, e@.id), off),
                    tc: tc_insert_upto(tc_table(*old(self)), e@, off, i as int),
                    ..model(*old(self))
                }),
            decreases e.tags@.len() - i,
        {
            let ghost tags_before = tc_insert_upto(tc_table(*old(self)), e@, off, i as int);
            let t = &e.tags[i];
            proof {
                assert(e@.tags[i as int] == crate::event::fields_view(e.tags@[i as int]));
            }
            if t.len() >= 2 {
                let name = &t[0];
                if name.len() == 1 {
                    proof {
                        assert(e@.tags[i as int][0] == name@);
                        assert(e@.tags[i as int][1] == t@[1]@);
                        assert(indexed_tag(e@.tags[i as int]));
                    }
                    let key = make_tc_key(name[0], &t[1], e.created_at, &e.id);
                    match self.tc_put(&key, off) {
                        Ok(()) => (),
                        Err(er) => return Err(StoreError::Storage(er)),
                    }
                    proof {
                        assert(e@.tags[i as int][0][0] == name@[0]);
                        assert(tc_table(*self) == tc_insert_upto(
                            tc_table(*old(self)),
                            e@,
                            off,
                            i as int + 1,
                        ));
                    }
                } else {
                    proof {
                        assert(!indexed_tag(e@.tags[i as int]));
                        assert(tc_insert_upto(tc_table(*old(self)), e@, off, i as int + 1)
                            == tags_before);
                    }
                }
            } else {
                proof {
                    assert(!indexed_tag(e@.tags[i as int]));
                    assert(tc_insert_upto(tc_table(*old(self)), e@, off, i as int + 1)
                        == tags_before);
                }
            }
            i = i + 1;
        }
        Ok(())
    }

    /// Appends an event: the record enters the log at a fresh offset, and in
    /// the same call every index gains its entry — `i_index` by id,
    /// `ci_index` by time, `ac_index` by author, and `tc_index` for each
    /// single-byte-name tag with a value. The id is not added to the
    /// deletion set. Offsets strictly increase.
    pub fn append(&mut self, e: &Event) -> (r: Result<u64, StoreError>)
        requires
            e@.wf(),
        ensures
            r matches Ok(off) ==> model(*final(self)) == (StoreModel {
                log: log_table(*old(self)).insert(off, enc_event(e@)),
                ids: id_table(*old(self)).insert(e@.id, off),
                ci: ci_table(*old(self)).insert(key_ci(e@.created_at, e@.id), off),
                ac: ac_table(*old(self)).insert(key_ac(e@.pubkey, e@.created_at, e@.id), off),
                tc: tc_insert_upto(tc_table(*old(self)), e@, off, e@.tags.len() as int),
                ..model(*old(self))
            }),
            r matches Ok(off) ==> forall|k: u64|
                log_table(*old(self)).contains_key(k) ==> k < off,
            r is Err ==> general_table(*final(self)) == general_table(*old(self))
                && deleted_table(*final(self)) == deleted_table(*old(self)) && ip_table(
                *final(self),
            ) == ip_table(*old(self)) && legacy_offsets_table(*final(self)) == legacy_offsets_table(
                *old(self),
            ) && legacy_events_table(*final(self)) == legacy_events_table(*old(self)),
            r matches Err(e2) ==> (e2 matches StoreError::Storage(_) || e2 matches StoreError::OffsetOverflow),
            r matches Err(e2) ==> (e2 matches StoreError::OffsetOverflow ==> log_full(
                log_table(*old(self)),
            )),
    {
        let last = match self.log_last() {
            Ok(v) => v,
            Err(e2) => return Err(StoreError::Storage(e2)),
        };
        let off: u64 = match last {
            None => 0,
            Some(p) => {
                let (o, v) = p;
                let step: u64 = if v.len() == 0 {
                    1
                } else {
                    v.len() as u64
                };
                match o.checked_add(step) {
                    Some(x) => x,
                    None => {
                        proof {
                            assert(log_table(*self).contains_key(o) && (forall|k: u64| #[trigger]
                                log_table(*self).contains_key(k) ==> k <= o));
                            assert(log_full(log_table(*self)));
                        }
                        return Err(StoreError::OffsetOverflow);
                    },
                }
            },
        };
        let bytes = encode_event(e);
        match self.log_put(off, &bytes) {
            Ok(()) => (),
            Err(e2) => return Err(StoreError::Storage(e2)),
        }
        match self.i_put(&e.id, off) {
            Ok(()) => (),
            Err(e2) => return Err(StoreError::Storage(e2)),
        }
        let ck = make_ci_key(e.created_at, &e.id);
        match self.ci_put(&ck, off) {
            Ok(()) => (),
            Err(e2) => return Err(StoreError::Storage(e2)),
        }
        match self.apply_ac_tc(e, off) {
            Ok(()) => (),
            Err(e2) => return Err(e2),
        }
        Ok(off)
    }

    /// Reads a `general` singleton by name.
    pub fn general_lookup(&self, key: &Vec<u8>) -> (r: Result<Option<Vec<u8>>, StoreError>)
        ensures
            r matches Ok(v) ==> (match v {
                Some(b) => general_table(*self).contains_key(key@) && b@ == general_table(
                    *self,
                )[key@],
                None => !general_table(*self).contains_key(key@),
            }),
            r matches Err(e) ==> e matches StoreError::Storage(_),
    {
        match self.general_get(key) {
            Ok(v) => Ok(v),
            Err(e) => Err(StoreError::Storage(e)),
        }
    }

    /// Writes a `general` singleton by name.
    pub fn general_set(&mut self, key: &Vec<u8>, val: &Vec<u8>) -> (r: Result<(), StoreError>)
        ensures
            r is Ok ==> model(*final(self)) == (StoreModel {
                general: general_table(*old(self)).insert(key@, val@),
                ..model(*old(self))
            }),
            r matches Err(e) ==> e matches StoreError::Storage(_) && model(*final(self)) == model(
                *old(self),
            ),
    {
        match self.general_put(key, val) {
            Ok(()) => Ok(()),
            Err(e) => Err(StoreError::Storage(e)),
        }
    }

    /// Records one offset in the legacy `deleted_offsets` table, as databases
    /// of older generations hold them before the upgrade retires the table.
    pub fn legacy_record_deleted_offset(&mut self, off: u64) -> (r: Result<(), StoreError>)
        ensures
            r is Ok ==> model(*final(self)) == (StoreModel {
                legacy_offsets: legacy_offsets_table(*old(self)).insert(off),
                ..model(*old(self))
            }),
            r matches Err(e) ==> e matches StoreError::Storage(_) && model(*final(self)) == model(
                *old(self),
            ),
    {
        match self.legacy_offsets_put(off) {
            Ok(()) => Ok(()),
            Err(e) => Err(StoreError::Storage(e)),
        }
    }

    /// How many offsets the legacy `deleted_offsets` table still holds.
    pub fn legacy_deleted_offsets_count(&self) -> (r: Result<u64, StoreError>)
        ensures
            r matches Ok(c) ==> legacy_offsets_table(*self).finite() && c as nat
                == legacy_offsets_table(*self).len(),
            r matches Err(e) ==> e matches StoreError::Storage(_),
    {
        match self.legacy_offsets_len() {
            Ok(c) => Ok(c),
            Err(e) => Err(StoreError::Storage(e)),
        }
    }

    /// Records one key in the legacy `deleted-events` table, whose leading 32
    /// bytes name a deleted event id, as older generations wrote it.
    pub fn legacy_record_deleted_event(&mut self, key: &Vec<u8>) -> (r: Result<(), StoreError>)
        ensures
            r is Ok ==> model(*final(self)) == (StoreModel {
                legacy_events: legacy_events_table(*old(self)).insert(key@),
                ..model(*old(self))
            }),
            r matches Err(e) ==> e matches StoreError::Storage(_) && model(*final(self)) == model(
                *old(self),
            ),
    {
        match self.legacy_events_put(key) {
            Ok(()) => Ok(()),
            Err(e) => Err(StoreError::Storage(e)),
        }
    }

    /// The keys the legacy `deleted-events` table still holds, in key order.
    pub fn legacy_deleted_event_keys(&self) -> (r: Result<Vec<Vec<u8>>, StoreError>)
        ensures
            r matches Ok(v) ==> lists_keys(legacy_events_table(*self), v@),
            r matches Ok(v) ==> (v@.len() == 0 ==> legacy_events_table(*self).is_empty()),
            r matches Err(e) ==> e matches StoreError::Storage(_),
    {
        match self.legacy_events_keys() {
            Ok(v) => {
                proof {
                    assert forall|k: Seq<u8>| #[trigger] legacy_events_table(*self).contains(
                        k,
                    ) implies exists|j: int| 0 <= j < v@.len() && (#[trigger] v@[j])@ == k by {
                        let j = choose|j: int| 0 <= j < v@.len() && (#[trigger] v@[j])@ == k;
                    }
                    assert(lists_keys(legacy_events_table(*self), v@));
                    if v@.len() == 0 {
                        assert forall|k: Seq<u8>| !(#[trigger] legacy_events_table(
                            *self,
                        ).contains(k)) by {
                            if legacy_events_table(*self).contains(k) {
                                let j = choose|j: int|
                                    0 <= j < v@.len() && (#[trigger] v@[j])@ == k;
                            }
                        }
                        assert(legacy_events_table(*self) =~= Set::<Seq<u8>>::empty());
                    }
                }
                Ok(v)
            },
            Err(e) => Err(StoreError::Storage(e)),
        }
    }
}

} // verus!
