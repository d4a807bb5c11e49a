//! The embedded key-ordered store, its mathematical model, and the trusted
//! wrappers around the `heed` (LMDB) calls.
//!
//! Everything outside this module is verified against the per-table contents
//! functions declared here; each wrapper performs one table operation under
//! its own transaction and states its effect on the model.
//!
//! Two ground assumptions of that model. First, each data directory is
//! opened at most once per process and no other process writes it: the
//! environment cache keyed by canonical path would otherwise alias two
//! `Store` values over one environment, and the contents functions would
//! stop being functions of the value. Second, each wrapper commits its own
//! transaction, so a write path that fails midway leaves its earlier
//! operations committed; the contracts state per-operation effects only and
//! never claim multi-operation atomicity, and the migration level advances
//! only after a step has fully run, so an interrupted upgrade resumes at the
//! last completed step.

use vstd::prelude::*;
use crate::bytes::{lex_le, lex_lt};
use heed::types::{UnalignedSlice, UnalignedType, Unit, U64};
use heed::byteorder::BigEndian;

verus! {

#[verifier::external_type_specification]
#[verifier::external_body]
pub struct ExHeedError(heed::Error);

/// The database environment and its named tables. The fields are opaque to
/// verification; the contents functions below give each table a model.
#[verifier::external_body]
pub struct Store {
    env: heed::Env,
    general: heed::Database<UnalignedSlice<u8>, UnalignedSlice<u8>>,
    events: heed::Database<UnalignedType<U64<BigEndian>>, UnalignedSlice<u8>>,
    i_index: heed::Database<UnalignedSlice<u8>, UnalignedType<U64<BigEndian>>>,
    ci_index: heed::Database<UnalignedSlice<u8>, UnalignedType<U64<BigEndian>>>,
    ac_index: heed::Database<UnalignedSlice<u8>, UnalignedType<U64<BigEndian>>>,
    tc_index: heed::Database<UnalignedSlice<u8>, UnalignedType<U64<BigEndian>>>,
    deleted_ids: heed::Database<UnalignedSlice<u8>, Unit>,
    ip_data: heed::Database<UnalignedSlice<u8>, UnalignedSlice<u8>>,
}

/// Contents of the `general` singleton table.
pub uninterp spec fn general_table(s: Store) -> Map<Seq<u8>, Seq<u8>>;

/// Contents of the event log: offset to record bytes.
pub uninterp spec fn log_table(s: Store) -> Map<u64, Seq<u8>>;

/// Contents of `i_index`: 32-byte id to offset.
pub uninterp spec fn id_table(s: Store) -> Map<Seq<u8>, u64>;

/// Contents of `ci_index`: time-ordered composite key to offset.
pub uninterp spec fn ci_table(s: Store) -> Map<Seq<u8>, u64>;

/// Contents of `ac_index`: author composite key to offset.
pub uninterp spec fn ac_table(s: Store) -> Map<Seq<u8>, u64>;

/// Contents of `tc_index`: tag composite key to offset.
pub uninterp spec fn tc_table(s: Store) -> Map<Seq<u8>, u64>;

/// Contents of the tombstone set `deleted_ids`.
pub uninterp spec fn deleted_table(s: Store) -> Set<Seq<u8>>;

/// Contents of the retired raw-peer table `ip_data`.
pub uninterp spec fn ip_table(s: Store) -> Map<Seq<u8>, Seq<u8>>;

/// Contents of the legacy `deleted_offsets` table (absent means empty).
pub uninterp spec fn legacy_offsets_table(s: Store) -> Set<u64>;

/// Contents of the legacy `deleted-events` table (absent means empty).
pub uninterp spec fn legacy_events_table(s: Store) -> Set<Seq<u8>>;

/// The whole store at once, for stating frame conditions.
pub ghost struct StoreModel {
    pub general: Map<Seq<u8>, Seq<u8>>,
    pub log: Map<u64, Seq<u8>>,
    pub ids: Map<Seq<u8>, u64>,
    pub ci: Map<Seq<u8>, u64>,
    pub ac: Map<Seq<u8>, u64>,
    pub tc: Map<Seq<u8>, u64>,
    pub deleted: Set<Seq<u8>>,
    pub ip: Map<Seq<u8>, Seq<u8>>,
    pub legacy_offsets: Set<u64>,
    pub legacy_events: Set<Seq<u8>>,
}

pub open spec fn model(s: Store) -> StoreModel {
    StoreModel {
        general: general_table(s),
        log: log_table(s),
        ids: id_table(s),
        ci: ci_table(s),
        ac: ac_table(s),
        tc: tc_table(s),
        deleted: deleted_table(s),
        ip: ip_table(s),
        legacy_offsets: legacy_offsets_table(s),
        legacy_events: legacy_events_table(s),
    }
}

/// Opens (or creates) the database in the directory at `path`.
///
/// Relies on heed::EnvOpenOptions::open and heed::Env::create_database:
/// the environment is opened and the named tables are opened or created.
/// Nothing is promised of the contents found on disk. The model assumes a
/// directory is opened at most once per process (heed caches environments by
/// canonical path, so a second open would alias the first) and that no other
/// process writes it.
#[verifier::external_body]
pub fn open_store(path: &str) -> (r: Result<Store, heed::Error>) {
    let env = heed::EnvOpenOptions::new().map_size(268435456).max_dbs(12).open(path)?;
    let general = env.create_database(Some("general"))?;
    let events = env.create_database(Some("events"))?;
    let i_index = env.create_database(Some("i_index"))?;
    let ci_index = env.create_database(Some("ci_index"))?;
    let ac_index = env.create_database(Some("ac_index"))?;
    let tc_index = env.create_database(Some("tc_index"))?;
    let deleted_ids = env.create_database(Some("deleted_ids"))?;
    let ip_data = env.create_database(Some("ip_data"))?;
    Ok(Store { env, general, events, i_index, ci_index, ac_index, tc_index, deleted_ids, ip_data })
}

impl Store {
    /// Relies on heed::Database::get on `general` under a read transaction:
    /// returns the value stored at `key`, if any.
    #[verifier::external_body]
    pub(crate) fn general_get(&self, key: &Vec<u8>) -> (r: Result<Option<Vec<u8>>, heed::Error>)
        ensures
            r matches Ok(v) ==> (match v {
                Some(b) => general_table(*self).contains_key(key@) && b@ == general_table(
                    *self,
                )[key@],
                None => !general_table(*self).contains_key(key@),
            }),
    {
        let txn = self.env.read_txn()?;
        let got = self.general.get(&txn, key)?;
        Ok(got.map(|b| b.to_vec()))
    }

    /// Relies on heed::Database::put on `general` under a write transaction
    /// committed by heed::RwTxn::commit; on error the transaction aborts and
    /// nothing changes.
    #[verifier::external_body]
    pub(crate) fn general_put(&mut self, key: &Vec<u8>, val: &Vec<u8>) -> (r: Result<
        (),
        heed::Error,
    >)
        ensures
            r is Ok ==> model(*final(self)) == (StoreModel {
                general: general_table(*old(self)).insert(key@, val@),
                ..model(*old(self))
            }),
            r is Err ==> model(*final(self)) == model(*old(self)),
    {
        let mut txn = self.env.write_txn()?;
        self.general.put(&mut txn, key, val)?;
        txn.commit()?;
        Ok(())
    }

    /// Relies on heed::Database::get on the event log under a read
    /// transaction: returns the record bytes stored at `off`, if any.
    #[verifier::external_body]
    pub(crate) fn log_get(&self, off: u64) -> (r: Result<Option<Vec<u8>>, heed::Error>)
        ensures
            r matches Ok(v) ==> (match v {
                Some(b) => log_table(*self).contains_key(off) && b@ == log_table(*self)[off],
                None => !log_table(*self).contains_key(off),
            }),
    {
        let txn = self.env.read_txn()?;
        let got = self.events.get(&txn, &U64::new(off))?;
        Ok(got.map(|b| b.to_vec()))
    }

    /// Relies on heed::Database::put on the event log under a committed
    /// write transaction.
    #[verifier::external_body]
    pub(crate) fn log_put(&mut self, off: u64, bytes: &Vec<u8>) -> (r: Result<(), heed::Error>)
        ensures
            r is Ok ==> model(*final(self)) == (StoreModel {
                log: log_table(*old(self)).insert(off, bytes@),
                ..model(*old(self))
            }),
            r is Err ==> model(*final(self)) == model(*old(self)),
    {
        let mut txn = self.env.write_txn()?;
        self.events.put(&mut txn, &U64::new(off), bytes)?;
        txn.commit()?;
        Ok(())
    }

    /// Relies on heed::Database::last on the event log: the largest key of
    /// the table under the big-endian (numeric) key order, with its value.
    #[verifier::external_body]
    pub(crate) fn log_last(&self) -> (r: Result<Option<(u64, Vec<u8>)>, heed::Error>)
        ensures
            r matches Ok(v) ==> (match v {
                Some(p) => log_table(*self).contains_key(p.0) && p.1@ == log_table(*self)[p.0]
                    && (forall|k: u64| log_table(*self).contains_key(k) ==> k <= p.0),
                None => forall|k: u64| !log_table(*self).contains_key(k),
            }),
    {
        let txn = self.env.read_txn()?;
        let got = self.events.last(&txn)?;
        Ok(got.map(|(k, v)| (k.get(), v.to_vec())))
    }

    /// Relies on heed::Database::get on `i_index` under a read transaction.
    #[verifier::external_body]
    pub(crate) fn i_get(&self, key: &Vec<u8>) -> (r: Result<Option<u64>, heed::Error>)
        ensures
            r matches Ok(v) ==> (match v {
                Some(off) => id_table(*self).contains_key(key@) && off == id_table(*self)[key@],
                None => !id_table(*self).contains_key(key@),
            }),
    {
        let txn = self.env.read_txn()?;
        let got = self.i_index.get(&txn, key)?;
        Ok(got.map(|v| v.get()))
    }

    /// Relies on heed::Database::put on `i_index` under a committed write
    /// transaction.
    #[verifier::external_body]
    pub(crate) fn i_put(&mut self, key: &Vec<u8>, off: u64) -> (r: Result<(), heed::Error>)
        ensures
            r is Ok ==> model(*final(self)) == (StoreModel {
                ids: id_table(*old(self)).insert(key@, off),
                ..model(*old(self))
            }),
            r is Err ==> model(*final(self)) == model(*old(self)),
    {
        let mut txn = self.env.write_txn()?;
        self.i_index.put(&mut txn, key, &U64::new(off))?;
        txn.commit()?;
        Ok(())
    }

    /// Relies on heed::Database::iter on `i_index`: every entry of the
    /// table, in ascending key order.
    #[verifier::external_body]
    pub(crate) fn i_entries(&self) -> (r: Result<Vec<(Vec<u8>, u64)>, heed::Error>)
        ensures
            r matches Ok(v) ==> {
                &&& forall|j: int|
                    0 <= j < v@.len() ==> id_table(*self).contains_key((#[trigger] v@[j]).0@)
                        && v@[j].1 == id_table(*self)[v@[j].0@]
                &&& forall|k: Seq<u8>|
                    id_table(*self).contains_key(k) ==> exists|j: int|
                        0 <= j < v@.len() && (#[trigger] v@[j]).0@ == k
                &&& forall|j1: int, j2: int|
                    0 <= j1 < j2 < v@.len() ==> lex_lt(v@[j1].0@, v@[j2].0@)
            },
    {
        let txn = self.env.read_txn()?;
        let entries: Result<Vec<(Vec<u8>, u64)>, heed::Error> =
            self.i_index.iter(&txn)?.map(|x| x.map(|(k, v)| (k.to_vec(), v.get()))).collect();
        entries
    }

    /// Relies on heed::Database::put on `ci_index` under a committed write
    /// transaction.
    #[verifier::external_body]
    pub(crate) fn ci_put(&mut self, key: &Vec<u8>, off: u64) -> (r: Result<(), heed::Error>)
        ensures
            r is Ok ==> model(*final(self)) == (StoreModel {
                ci: ci_table(*old(self)).insert(key@, off),
                ..model(*old(self))
            }),
            r is Err ==> model(*final(self)) == model(*old(self)),
    {
        let mut txn = self.env.write_txn()?;
        self.ci_index.put(&mut txn, key, &U64::new(off))?;
        txn.commit()?;
        Ok(())
    }

    /// Relies on heed::Database::put on `ac_index` under a committed write
    /// transaction.
    #[verifier::external_body]
    pub(crate) fn ac_put(&mut self, key: &Vec<u8>, off: u64) -> (r: Result<(), heed::Error>)
        ensures
            r is Ok ==> model(*final(self)) == (StoreModel {
                ac: ac_table(*old(self)).insert(key@, off),
                ..model(*old(self))
            }),
            r is Err ==> model(*final(self)) == model(*old(self)),
    {
        let mut txn = self.env.write_txn()?;
        self.ac_index.put(&mut txn, key, &U64::new(off))?;
        txn.commit()?;
        Ok(())
    }

    /// Relies on heed::Database::put on `tc_index` under a committed write
    /// transaction.
    #[verifier::external_body]
    pub(crate) fn tc_put(&mut self, key: &Vec<u8>, off: u64) -> (r: Result<(), heed::Error>)
        ensures
            r is Ok ==> model(*final(self)) == (StoreModel {
                tc: tc_table(*old(self)).insert(key@, off),
                ..model(*old(self))
            }),
            r is Err ==> model(*final(self)) == model(*old(self)),
    {
        let mut txn = self.env.write_txn()?;
        self.tc_index.put(&mut txn, key, &U64::new(off))?;
        txn.commit()?;
        Ok(())
    }

    /// Relies on heed::Database::range on `ci_index` with inclusive bounds:
    /// exactly the entries whose key lies between `lo` and `hi` in the
    /// bytewise key order, ascending.
    #[verifier::external_body]
    pub(crate) fn ci_range(&self, lo: &Vec<u8>, hi: &Vec<u8>) -> (r: Result<
        Vec<(Vec<u8>, u64)>,
        heed::Error,
    >)
        ensures
            r matches Ok(v) ==> {
                &&& forall|j: int|
                    0 <= j < v@.len() ==> ci_table(*self).contains_key((#[trigger] v@[j]).0@)
                        && v@[j].1 == ci_table(*self)[v@[j].0@] && lex_le(lo@, v@[j].0@) && lex_le(
                        v@[j].0@,
                        hi@,
                    )
                &&& forall|k: Seq<u8>|
                    ci_table(*self).contains_key(k) && lex_le(lo@, k) && lex_le(k, hi@)
                        ==> exists|j: int| 0 <= j < v@.len() && (#[trigger] v@[j]).0@ == k
                &&& forall|j1: int, j2: int|
                    0 <= j1 < j2 < v@.len() ==> lex_lt(v@[j1].0@, v@[j2].0@)
            },
    {
        let txn = self.env.read_txn()?;
        let bounds = (std::ops::Bound::Included(lo.as_slice()), std::ops::Bound::Included(
            hi.as_slice(),
        ));
        let entries: Result<Vec<(Vec<u8>, u64)>, heed::Error> =
            self.ci_index.range(&txn, &bounds)?.map(
            |x| x.map(|(k, v)| (k.to_vec(), v.get())),
        ).collect();
        entries
    }

    /// Relies on heed::Database::range on `ac_index` with inclusive bounds,
    /// as for `ci_range`.
    #[verifier::external_body]
    pub(crate) fn ac_range(&self, lo: &Vec<u8>, hi: &Vec<u8>) -> (r: Result<
        Vec<(Vec<u8>, u64)>,
        heed::Error,
    >)
        ensures
            r matches Ok(v) ==> {
                &&& forall|j: int|
                    0 <= j < v@.len() ==> ac_table(*self).contains_key((#[trigger] v@[j]).0@)
                        && v@[j].1 == ac_table(*self)[v@[j].0@] && lex_le(lo@, v@[j].0@) && lex_le(
                        v@[j].0@,
                        hi@,
                    )
                &&& forall|k: Seq<u8>|
                    ac_table(*self).contains_key(k) && lex_le(lo@, k) && lex_le(k, hi@)
                        ==> exists|j: int| 0 <= j < v@.len() && (#[trigger] v@[j]).0@ == k
                &&& forall|j1: int, j2: int|
                    0 <= j1 < j2 < v@.len() ==> lex_lt(v@[j1].0@, v@[j2].0@)
            },
    {
        let txn = self.env.read_txn()?;
        let bounds = (std::ops::Bound::Included(lo.as_slice()), std::ops::Bound::Included(
            hi.as_slice(),
        ));
        let entries: Result<Vec<(Vec<u8>, u64)>, heed::Error> =
            self.ac_index.range(&txn, &bounds)?.map(
            |x| x.map(|(k, v)| (k.to_vec(), v.get())),
        ).collect();
        entries
    }

    /// Relies on heed::Database::range on `tc_index` with inclusive bounds,
    /// as for `ci_range`.
    #[verifier::external_body]
    pub(crate) fn tc_range(&self, lo: &Vec<u8>, hi: &Vec<u8>) -> (r: Result<
        Vec<(Vec<u8>, u64)>,
        heed::Error,
    >)
        ensures
            r matches Ok(v) ==> {
                &&& forall|j: int|
                    0 <= j < v@.len() ==> tc_table(*self).contains_key((#[trigger] v@[j]).0@)
                        && v@[j].1 == tc_table(*self)[v@[j].0@] && lex_le(lo@, v@[j].0@) && lex_le(
                        v@[j].0@,
                        hi@,
                    )
                &&& forall|k: Seq<u8>|
                    tc_table(*self).contains_key(k) && lex_le(lo@, k) && lex_le(k, hi@)
                        ==> exists|j: int| 0 <= j < v@.len() && (#[trigger] v@[j]).0@ == k
                &&& forall|j1: int, j2: int|
                    0 <= j1 < j2 < v@.len() ==> lex_lt(v@[j1].0@, v@[j2].0@)
            },
    {
        let txn = self.env.read_txn()?;
        let bounds = (std::ops::Bound::Included(lo.as_slice()), std::ops::Bound::Included(
            hi.as_slice(),
        ));
        let entries: Result<Vec<(Vec<u8>, u64)>, heed::Error> =
            self.tc_index.range(&txn, &bounds)?.map(
            |x| x.map(|(k, v)| (k.to_vec(), v.get())),
        ).collect();
        entries
    }

    /// Relies on heed::Database::put on `deleted_ids` (no value is stored)
    /// under a committed write transaction.
    #[verifier::external_body]
    pub(crate) fn deleted_put(&mut self, id: &Vec<u8>) -> (r: Result<(), heed::Error>)
        ensures
            r is Ok ==> model(*final(self)) == (StoreModel {
                deleted: deleted_table(*old(self)).insert(id@),
                ..model(*old(self))
            }),
            r is Err ==> model(*final(self)) == model(*old(self)),
    {
        let mut txn = self.env.write_txn()?;
        self.deleted_ids.put(&mut txn, id, &())?;
        txn.commit()?;
        Ok(())
    }

    /// Relies on heed::Database::get on `deleted_ids`: key presence is the
    /// datum.
    #[verifier::external_body]
    pub(crate) fn deleted_contains(&self, id: &Vec<u8>) -> (r: Result<bool, heed::Error>)
        ensures
            r matches Ok(b) ==> b == deleted_table(*self).contains(id@),
    {
        let txn = self.env.read_txn()?;
        let got = self.deleted_ids.get(&txn, id)?;
        Ok(got.is_some())
    }

    /// Relies on heed::Database::clear on `ip_data` under a committed write
    /// transaction.
    #[verifier::external_body]
    pub(crate) fn ip_clear(&mut self) -> (r: Result<(), heed::Error>)
        ensures
            r is Ok ==> ip_table(*final(self)).dom() == Set::<Seq<u8>>::empty(),
            r is Ok ==> model(*final(self)) == (StoreModel {
                ip: Map::<Seq<u8>, Seq<u8>>::empty(),
                ..model(*old(self))
            }),
            r is Err ==> model(*final(self)) == model(*old(self)),
    {
        let mut txn = self.env.write_txn()?;
        self.ip_data.clear(&mut txn)?;
        txn.commit()?;
        Ok(())
    }

    /// Relies on heed::Env::create_database and heed::Database::put: opens
    /// the legacy `deleted_offsets` table by name (creating it when absent,
    /// whose contents are then empty) and records one offset in it.
    #[verifier::external_body]
    pub(crate) fn legacy_offsets_put(&mut self, off: u64) -> (r: Result<(), heed::Error>)
        ensures
            r is Ok ==> model(*final(self)) == (StoreModel {
                legacy_offsets: legacy_offsets_table(*old(self)).insert(off),
                ..model(*old(self))
            }),
            r is Err ==> model(*final(self)) == model(*old(self)),
    {
        let db: heed::Database<UnalignedType<U64<BigEndian>>, Unit> =
            self.env.create_database(Some("deleted_offsets"))?;
        let mut txn = self.env.write_txn()?;
        db.put(&mut txn, &U64::new(off), &())?;
        txn.commit()?;
        Ok(())
    }

    /// Relies on heed::Env::create_database and heed::Database::clear:
    /// truncates the legacy `deleted_offsets` table (creating it first when
    /// absent, which leaves it empty all the same).
    #[verifier::external_body]
    pub(crate) fn legacy_offsets_clear(&mut self) -> (r: Result<(), heed::Error>)
        ensures
            r is Ok ==> model(*final(self)) == (StoreModel {
                legacy_offsets: Set::<u64>::empty(),
                ..model(*old(self))
            }),
            r is Err ==> model(*final(self)) == model(*old(self)),
    {
        let db: heed::Database<UnalignedType<U64<BigEndian>>, Unit> =
            self.env.create_database(Some("deleted_offsets"))?;
        let mut txn = self.env.write_txn()?;
        db.clear(&mut txn)?;
        txn.commit()?;
        Ok(())
    }

    /// Relies on heed::Database::len on the legacy `deleted_offsets` table:
    /// the number of keys it holds.
    #[verifier::external_body]
    pub(crate) fn legacy_offsets_len(&self) -> (r: Result<u64, heed::Error>)
        ensures
            r matches Ok(c) ==> legacy_offsets_table(*self).finite() && c as nat
                == legacy_offsets_table(*self).len(),
    {
        let db: heed::Database<UnalignedType<U64<BigEndian>>, Unit> =
            self.env.create_database(Some("deleted_offsets"))?;
        let txn = self.env.read_txn()?;
        let len = db.len(&txn)?;
        Ok(len)
    }

    /// Relies on heed::Env::create_database and heed::Database::put: records
    /// one key in the legacy `deleted-events` table.
    #[verifier::external_body]
    pub(crate) fn legacy_events_put(&mut self, key: &Vec<u8>) -> (r: Result<(), heed::Error>)
        ensures
            r is Ok ==> model(*final(self)) == (StoreModel {
                legacy_events: legacy_events_table(*old(self)).insert(key@),
                ..model(*old(self))
            }),
            r is Err ==> model(*final(self)) == model(*old(self)),
    {
        let db: heed::Database<UnalignedSlice<u8>, Unit> = self.env.create_database(
            Some("deleted-events"),
        )?;
        let mut txn = self.env.write_txn()?;
        db.put(&mut txn, key, &())?;
        txn.commit()?;
        Ok(())
    }

    /// Relies on heed::Database::iter on the legacy `deleted-events` table:
    /// every key it holds, in ascending key order.
    #[verifier::external_body]
    pub(crate) fn legacy_events_keys(&self) -> (r: Result<Vec<Vec<u8>>, heed::Error>)
        ensures
            r matches Ok(v) ==> {
                &&& forall|j: int|
                    0 <= j < v@.len() ==> legacy_events_table(*self).contains((#[trigger] v@[j])@)
                &&& forall|k: Seq<u8>|
                    legacy_events_table(*self).contains(k) ==> exists|j: int|
                        0 <= j < v@.len() && (#[trigger] v@[j])@ == k
                &&& forall|j1: int, j2: int|
                    0 <= j1 < j2 < v@.len() ==> lex_lt(v@[j1]@, v@[j2]@)
            },
    {
        let db: heed::Database<UnalignedSlice<u8>, Unit> = self.env.create_database(
            Some("deleted-events"),
        )?;
        let txn = self.env.read_txn()?;
        let keys: Result<Vec<Vec<u8>>, heed::Error> = db.iter(&txn)?.map(
            |x| x.map(|(k, _v)| k.to_vec()),
        ).collect();
        keys
    }

    /// Relies on heed::Env::create_database and heed::Database::clear:
    /// truncates the legacy `deleted-events` table.
    #[verifier::external_body]
    pub(crate) fn legacy_events_clear(&mut self) -> (r: Result<(), heed::Error>)
        ensures
            r is Ok ==> model(*final(self)) == (StoreModel {
                legacy_events: Set::<Seq<u8>>::empty(),
                ..model(*old(self))
            }),
            r is Err ==> model(*final(self)) == model(*old(self)),
    {
        let db: heed::Database<UnalignedSlice<u8>, Unit> = self.env.create_database(
            Some("deleted-events"),
        )?;
        let mut txn = self.env.write_txn()?;
        db.clear(&mut txn)?;
        txn.commit()?;
        Ok(())
    }
}

} // verus!
