//! The migration engine: a version-numbered, idempotent upgrade ladder run
//! on open. While the stored schema level is below the level this build
//! understands, the missing steps run in order and the stored level is
//! bumped after each one; a stored level above the build's is fatal.

use vstd::prelude::*;
use crate::bytes::lemma_lex_irrefl;
use crate::codec::{dec_event, decode_event, copy_range, lemma_split};
use crate::event::EventModel;
use crate::keys::{key_ac, key_ci, key_tc, make_ci_key};
use crate::ops::{indexed_tag, stored_level, tc_insert_upto, StoreError};
use crate::store::{ac_table, ci_table, deleted_table, general_table, id_table, ip_table,
    legacy_events_table, legacy_offsets_table, log_table, model, tc_table, Store, StoreModel};
use crate::CURRENT_MIGRATION_LEVEL;

verus! {

/// The log holds a decodable record at `off`.
pub open spec fn decodes_at(log: Map<u64, Seq<u8>>, off: u64) -> bool {
    log.contains_key(off) && dec_event(log[off]) is Some
}

/// The event decoded from the log at `off`.
pub open spec fn event_at(log: Map<u64, Seq<u8>>, off: u64) -> EventModel {
    dec_event(log[off])->Some_0
}

/// The `ci_index` key an upgrade derives from the record at `off`.
pub open spec fn derived_ci(log: Map<u64, Seq<u8>>, off: u64) -> Seq<u8> {
    key_ci(event_at(log, off).created_at, event_at(log, off).id)
}

/// The `ac_index` key an upgrade derives from the record at `off`.
pub open spec fn derived_ac(log: Map<u64, Seq<u8>>, off: u64) -> Seq<u8> {
    key_ac(event_at(log, off).pubkey, event_at(log, off).created_at, event_at(log, off).id)
}

/// The `tc_index` key tag `ti` of the record at `off` derives.
pub open spec fn derived_tc(log: Map<u64, Seq<u8>>, off: u64, ti: int) -> Seq<u8> {
    key_tc(
        event_at(log, off).tags[ti][0][0],
        event_at(log, off).tags[ti][1],
        event_at(log, off).created_at,
        event_at(log, off).id,
    )
}

/// Equal tag keys name equal ids: the id is the fixed-width tail of the key.
pub proof fn lemma_key_tc_suffix(
    n1: u8,
    v1: Seq<u8>,
    t1: u64,
    id1: Seq<u8>,
    n2: u8,
    v2: Seq<u8>,
    t2: u64,
    id2: Seq<u8>,
)
    requires
        id1.len() == 32,
        id2.len() == 32,
        key_tc(n1, v1, t1, id1) == key_tc(n2, v2, t2, id2),
    ensures
        id1 == id2,
        t1 == t2,
{
    crate::bytes::lemma_pow256_values();
    crate::bytes::lemma_be_seq_len(t1 as int, 8);
    crate::bytes::lemma_be_seq_len(t2 as int, 8);
    let q1 = seq![n1] + v1;
    let q2 = seq![n2] + v2;
    let p1 = q1 + crate::bytes::be_seq(t1 as int, 8);
    let p2 = q2 + crate::bytes::be_seq(t2 as int, 8);
    assert(p1 =~= seq![n1] + v1 + crate::bytes::be_seq(t1 as int, 8));
    assert(p2 =~= seq![n2] + v2 + crate::bytes::be_seq(t2 as int, 8));
    assert(key_tc(n1, v1, t1, id1) =~= p1 + id1);
    assert(key_tc(n2, v2, t2, id2) =~= p2 + id2);
    lemma_split(p1, id1);
    lemma_split(p2, id2);
    assert(p1.len() == p2.len());
    assert(id1 == (p1 + id1).skip(p1.len() as int));
    assert(id2 == (p2 + id2).skip(p2.len() as int));
    assert(p1 == (p1 + id1).take(p1.len() as int));
    assert(p2 == (p2 + id2).take(p2.len() as int));
    lemma_split(q1, crate::bytes::be_seq(t1 as int, 8));
    lemma_split(q2, crate::bytes::be_seq(t2 as int, 8));
    assert(crate::bytes::be_seq(t1 as int, 8) == p1.skip(q1.len() as int));
    assert(crate::bytes::be_seq(t2 as int, 8) == p2.skip(q2.len() as int));
    crate::bytes::lemma_be_seq_injective(t1 as int, t2 as int, 8);
}

/// Every offset reachable from `i_index` holds a decodable record.
pub open spec fn ids_decodable(ids: Map<Seq<u8>, u64>, log: Map<u64, Seq<u8>>) -> bool {
    forall|id: Seq<u8>| #[trigger]
        ids.contains_key(id) ==> decodes_at(log, ids[id])
}

/// Every `i_index` entry names the id of the record it points at.
pub open spec fn ids_coherent(ids: Map<Seq<u8>, u64>, log: Map<u64, Seq<u8>>) -> bool {
    forall|id: Seq<u8>| #[trigger]
        ids.contains_key(id) ==> decodes_at(log, ids[id]) && event_at(log, ids[id]).id == id
}

/// A dangling id entry: `o` is reachable from `i_index` but holds no
/// decodable record.
pub open spec fn corrupt_id(ids: Map<Seq<u8>, u64>, log: Map<u64, Seq<u8>>, o: u64) -> bool {
    exists|id: Seq<u8>| #[trigger]
        ids.contains_key(id) && ids[id] == o && !decodes_at(log, o)
}

/// What rebuilding `ci_index` from `i_index` leaves behind: the old entries
/// are kept, every indexed event gains its time key, nothing else appears,
/// and on a coherent database each derived key points at its event's offset.
pub open spec fn ci_rebuilt(
    ci0: Map<Seq<u8>, u64>,
    ids: Map<Seq<u8>, u64>,
    log: Map<u64, Seq<u8>>,
    ci1: Map<Seq<u8>, u64>,
) -> bool {
    &&& forall|k: Seq<u8>| #[trigger] ci0.contains_key(k) ==> ci1.contains_key(k)
    &&& forall|id: Seq<u8>| #[trigger]
        ids.contains_key(id) ==> ci1.contains_key(derived_ci(log, ids[id]))
    &&& forall|k: Seq<u8>| #[trigger]
        ci1.contains_key(k) ==> ci0.contains_key(k) || exists|id: Seq<u8>| #[trigger]
            ids.contains_key(id) && k == derived_ci(log, ids[id])
    &&& forall|k: Seq<u8>| #[trigger]
        ci0.contains_key(k) && !(exists|id: Seq<u8>| #[trigger]
            ids.contains_key(id) && k == derived_ci(log, ids[id])) ==> ci1[k] == ci0[k]
    &&& ids_coherent(ids, log) ==> forall|id: Seq<u8>| #[trigger]
        ids.contains_key(id) ==> ci1[derived_ci(log, ids[id])] == ids[id]
}

/// The same, for `ac_index`.
pub open spec fn ac_rebuilt(
    ac0: Map<Seq<u8>, u64>,
    ids: Map<Seq<u8>, u64>,
    log: Map<u64, Seq<u8>>,
    ac1: Map<Seq<u8>, u64>,
) -> bool {
    &&& forall|k: Seq<u8>| #[trigger] ac0.contains_key(k) ==> ac1.contains_key(k)
    &&& forall|id: Seq<u8>| #[trigger]
        ids.contains_key(id) ==> ac1.contains_key(derived_ac(log, ids[id]))
    &&& forall|k: Seq<u8>| #[trigger]
        ac1.contains_key(k) ==> ac0.contains_key(k) || exists|id: Seq<u8>| #[trigger]
            ids.contains_key(id) && k == derived_ac(log, ids[id])
    &&& forall|k: Seq<u8>| #[trigger]
        ac0.contains_key(k) && !(exists|id: Seq<u8>| #[trigger]
            ids.contains_key(id) && k == derived_ac(log, ids[id])) ==> ac1[k] == ac0[k]
    &&& ids_coherent(ids, log) ==> forall|id: Seq<u8>| #[trigger]
        ids.contains_key(id) ==> ac1[derived_ac(log, ids[id])] == ids[id]
}

/// What rebuilding `tc_index` leaves behind: old entries kept, one entry for
/// each single-byte-name tag with a value of each indexed event, nothing
/// else; entries the scan does not re-derive keep their offsets, and on a
/// coherent database each derived entry carries its event's offset.
pub open spec fn tc_rebuilt(
    tc0: Map<Seq<u8>, u64>,
    ids: Map<Seq<u8>, u64>,
    log: Map<u64, Seq<u8>>,
    tc1: Map<Seq<u8>, u64>,
) -> bool {
    &&& forall|k: Seq<u8>| #[trigger] tc0.contains_key(k) ==> tc1.contains_key(k)
    &&& forall|id: Seq<u8>, ti: int|
        #![trigger ids.contains_key(id), event_at(log, ids[id]).tags[ti]]
        ids.contains_key(id) && 0 <= ti < event_at(log, ids[id]).tags.len()
            && indexed_tag(event_at(log, ids[id]).tags[ti]) ==> tc1.contains_key(
            key_tc(
                event_at(log, ids[id]).tags[ti][0][0],
                event_at(log, ids[id]).tags[ti][1],
                event_at(log, ids[id]).created_at,
                event_at(log, ids[id]).id,
            ),
        )
    &&& forall|k: Seq<u8>| #[trigger]
        tc1.contains_key(k) ==> tc0.contains_key(k) || exists|id: Seq<u8>, ti: int|
            #![trigger ids.contains_key(id), event_at(log, ids[id]).tags[ti]]
            ids.contains_key(id) && 0 <= ti < event_at(log, ids[id]).tags.len()
                && indexed_tag(event_at(log, ids[id]).tags[ti]) && k == key_tc(
                event_at(log, ids[id]).tags[ti][0][0],
                event_at(log, ids[id]).tags[ti][1],
                event_at(log, ids[id]).created_at,
                event_at(log, ids[id]).id,
            )
    &&& forall|k: Seq<u8>| #[trigger]
        tc0.contains_key(k) && !(exists|id: Seq<u8>, ti: int|
            #![trigger ids.contains_key(id), event_at(log, ids[id]).tags[ti]]
            ids.contains_key(id) && 0 <= ti < event_at(log, ids[id]).tags.len()
                && indexed_tag(event_at(log, ids[id]).tags[ti]) && k == derived_tc(
                log,
                ids[id],
                ti,
            )) ==> tc1[k] == tc0[k]
    &&& ids_coherent(ids, log) ==> forall|id: Seq<u8>, ti: int|
        #![trigger ids.contains_key(id), event_at(log, ids[id]).tags[ti]]
        ids.contains_key(id) && 0 <= ti < event_at(log, ids[id]).tags.len() && indexed_tag(
            event_at(log, ids[id]).tags[ti],
        ) ==> tc1[derived_tc(log, ids[id], ti)] == ids[id]
}

/// The first `n` key/offset pairs inserted over `m0`, in order.
pub open spec fn put_fold(m0: Map<Seq<u8>, u64>, kvs: Seq<(Seq<u8>, u64)>, n: int) -> Map<
    Seq<u8>,
    u64,
>
    decreases n,
{
    if n <= 0 {
        m0
    } else {
        put_fold(m0, kvs, n - 1).insert(kvs[n - 1].0, kvs[n - 1].1)
    }
}

pub proof fn lemma_put_fold_facts(m0: Map<Seq<u8>, u64>, kvs: Seq<(Seq<u8>, u64)>, n: int)
    requires
        0 <= n <= kvs.len(),
    ensures
        forall|k: Seq<u8>| #[trigger]
            m0.contains_key(k) ==> put_fold(m0, kvs, n).contains_key(k),
        forall|j: int| 0 <= j < n ==> put_fold(m0, kvs, n).contains_key((#[trigger] kvs[j]).0),
        forall|k: Seq<u8>| #[trigger]
            put_fold(m0, kvs, n).contains_key(k) ==> m0.contains_key(k) || exists|j: int|
                0 <= j < n && (#[trigger] kvs[j]).0 == k,
        forall|k: Seq<u8>| #[trigger]
            m0.contains_key(k) && (forall|j: int| 0 <= j < n ==> (#[trigger] kvs[j]).0 != k)
                ==> put_fold(m0, kvs, n)[k] == m0[k],
    decreases n,
{
    if n > 0 {
        lemma_put_fold_facts(m0, kvs, n - 1);
        assert forall|k: Seq<u8>| #[trigger]
            m0.contains_key(k) && (forall|j: int| 0 <= j < n ==> (#[trigger] kvs[j]).0 != k)
            implies put_fold(m0, kvs, n)[k] == m0[k] by {
            assert(kvs[n - 1].0 != k);
            assert(forall|j: int| 0 <= j < n - 1 ==> (#[trigger] kvs[j]).0 != k);
        }
        assert forall|k: Seq<u8>| #[trigger] put_fold(m0, kvs, n).contains_key(k) implies m0
            .contains_key(k) || exists|j: int| 0 <= j < n && (#[trigger] kvs[j]).0 == k by {
            if k == kvs[n - 1].0 {
                assert(0 <= n - 1 < n && kvs[n - 1].0 == k);
            } else {
                assert(put_fold(m0, kvs, n - 1).contains_key(k));
                if !m0.contains_key(k) {
                    let j = choose|j: int| 0 <= j < n - 1 && (#[trigger] kvs[j]).0 == k;
                    assert(0 <= j < n && kvs[j].0 == k);
                }
            }
        }
    }
}

pub proof fn lemma_put_fold_value(m0: Map<Seq<u8>, u64>, kvs: Seq<(Seq<u8>, u64)>, n: int)
    requires
        0 <= n <= kvs.len(),
        forall|j1: int, j2: int|
            0 <= j1 < n && 0 <= j2 < n && (#[trigger] kvs[j1]).0 == (#[trigger] kvs[j2]).0
                ==> kvs[j1].1 == kvs[j2].1,
    ensures
        forall|j: int|
            0 <= j < n ==> put_fold(m0, kvs, n).contains_key((#[trigger] kvs[j]).0) && put_fold(
                m0,
                kvs,
                n,
            )[kvs[j].0] == kvs[j].1,
    decreases n,
{
    if n > 0 {
        lemma_put_fold_value(m0, kvs, n - 1);
    }
}

/// Inserting a run of tag entries keeps old keys, adds each indexed tag's
/// key with the given offset, and adds nothing else.
pub proof fn lemma_tc_upto_facts(tc0: Map<Seq<u8>, u64>, e: EventModel, off: u64, n: int)
    requires
        0 <= n <= e.tags.len(),
    ensures
        forall|k: Seq<u8>| #[trigger]
            tc0.contains_key(k) ==> tc_insert_upto(tc0, e, off, n).contains_key(k),
        forall|ti: int|
            0 <= ti < n && indexed_tag(#[trigger] e.tags[ti]) ==> tc_insert_upto(
                tc0,
                e,
                off,
                n,
            ).contains_key(key_tc(e.tags[ti][0][0], e.tags[ti][1], e.created_at, e.id))
            && tc_insert_upto(tc0, e, off, n)[key_tc(
                e.tags[ti][0][0],
                e.tags[ti][1],
                e.created_at,
                e.id,
            )] == off,
        forall|k: Seq<u8>| #[trigger]
            tc_insert_upto(tc0, e, off, n).contains_key(k) ==> tc0.contains_key(k) || exists|
                ti: int,
            |
                0 <= ti < n && indexed_tag(#[trigger] e.tags[ti]) && k == key_tc(
                    e.tags[ti][0][0],
                    e.tags[ti][1],
                    e.created_at,
                    e.id,
                ),
        forall|k: Seq<u8>| #[trigger]
            tc0.contains_key(k) && (forall|ti: int|
                0 <= ti < n ==> !(indexed_tag(#[trigger] e.tags[ti]) && k == key_tc(
                    e.tags[ti][0][0],
                    e.tags[ti][1],
                    e.created_at,
                    e.id,
                ))) ==> tc_insert_upto(tc0, e, off, n)[k] == tc0[k],
    decreases n,
{
    if n > 0 {
        lemma_tc_upto_facts(tc0, e, off, n - 1);
        assert forall|k: Seq<u8>| #[trigger]
            tc0.contains_key(k) && (forall|ti: int|
                0 <= ti < n ==> !(indexed_tag(#[trigger] e.tags[ti]) && k == key_tc(
                    e.tags[ti][0][0],
                    e.tags[ti][1],
                    e.created_at,
                    e.id,
                ))) implies tc_insert_upto(tc0, e, off, n)[k] == tc0[k] by {
            assert(forall|ti: int|
                0 <= ti < n - 1 ==> !(indexed_tag(#[trigger] e.tags[ti]) && k == key_tc(
                    e.tags[ti][0][0],
                    e.tags[ti][1],
                    e.created_at,
                    e.id,
                )));
            assert(!(indexed_tag(e.tags[n - 1]) && k == key_tc(
                e.tags[n - 1][0][0],
                e.tags[n - 1][1],
                e.created_at,
                e.id,
            )));
        }
        assert forall|k: Seq<u8>| #[trigger] tc_insert_upto(tc0, e, off, n).contains_key(
            k,
        ) implies tc0.contains_key(k) || exists|ti: int|
            0 <= ti < n && indexed_tag(#[trigger] e.tags[ti]) && k == key_tc(
                e.tags[ti][0][0],
                e.tags[ti][1],
                e.created_at,
                e.id,
            ) by {
            if indexed_tag(e.tags[n - 1]) && k == key_tc(
                e.tags[n - 1][0][0],
                e.tags[n - 1][1],
                e.created_at,
                e.id,
            ) {
                assert(0 <= n - 1 < n && indexed_tag(e.tags[n - 1]));
            } else {
                assert(tc_insert_upto(tc0, e, off, n - 1).contains_key(k));
                if !tc0.contains_key(k) {
                    let ti = choose|ti: int|
                        0 <= ti < n - 1 && indexed_tag(#[trigger] e.tags[ti]) && k == key_tc(
                            e.tags[ti][0][0],
                            e.tags[ti][1],
                            e.created_at,
                            e.id,
                        );
                    assert(0 <= ti < n && indexed_tag(e.tags[ti]));
                }
            }
        }
    }
}

/// The tag-index contents after rebuilding from the first `n` scanned
/// offsets.
pub open spec fn tc_refold(
    tc0: Map<Seq<u8>, u64>,
    log: Map<u64, Seq<u8>>,
    offs: Seq<u64>,
    n: int,
) -> Map<Seq<u8>, u64>
    decreases n,
{
    if n <= 0 {
        tc0
    } else {
        tc_insert_upto(
            tc_refold(tc0, log, offs, n - 1),
            event_at(log, offs[n - 1]),
            offs[n - 1],
            event_at(log, offs[n - 1]).tags.len() as int,
        )
    }
}

impl Store {
    /// Upgrade step one: populate `ci_index` from a full scan of `i_index`,
    /// inserting the time key of every reachable event.
    #[verifier::loop_isolation(false)]
    #[verifier::rlimit(60)]
    fn rebuild_ci(&mut self) -> (r: Result<(), StoreError>)
        ensures
            model(*final(self)) == (StoreModel {
                ci: ci_table(*final(self)),
                ..model(*old(self))
            }),
            r is Ok ==> ids_decodable(id_table(*old(self)), log_table(*old(self))),
            r is Ok ==> ci_rebuilt(
                ci_table(*old(self)),
                id_table(*old(self)),
                log_table(*old(self)),
                ci_table(*final(self)),
            ),
            r matches Err(e) ==> (e matches StoreError::Storage(_) || e
                matches StoreError::Corrupt(_)),
            r matches Err(StoreError::Corrupt(o)) ==> corrupt_id(
                id_table(*old(self)),
                log_table(*old(self)),
                o,
            ),
    {
        let ghost m0 = model(*old(self));
        let entries = match self.i_entries() {
            Ok(v) => v,
            Err(e) => return Err(StoreError::Storage(e)),
        };
        let ghost kvs: Seq<(Seq<u8>, u64)> = Seq::new(
            entries@.len(),
            |j: int| (derived_ci(m0.log, entries@[j].1), entries@[j].1),
        );
        let mut j: usize = 0;
        while j < entries.len()
            invariant
                j <= entries@.len(),
                model(*self) == (StoreModel { ci: put_fold(m0.ci, kvs, j as int), ..m0 }),
                forall|jj: int| 0 <= jj < j ==> decodes_at(m0.log, (#[trigger] entries@[jj]).1),
            decreases entries@.len() - j,
        {
            let p = &entries[j];
            let off = p.1;
            let got = match self.log_get(off) {
                Ok(g) => g,
                Err(e) => return Err(StoreError::Storage(e)),
            };
            let bytes = match got {
                Some(b) => b,
                None => {
                    proof {
                        assert(m0.ids.contains_key(entries@[j as int].0@) && m0.ids[entries@[
                            j as int
                        ].0@] == off);
                        assert(!decodes_at(m0.log, off));
                        assert(corrupt_id(m0.ids, m0.log, off));
                    }
                    return Err(StoreError::Corrupt(off));
                },
            };
            let ev = match decode_event(&bytes) {
                Some(ev) => ev,
                None => {
                    proof {
                        assert(m0.ids.contains_key(entries@[j as int].0@) && m0.ids[entries@[
                            j as int
                        ].0@] == off);
                        assert(!decodes_at(m0.log, off));
                        assert(corrupt_id(m0.ids, m0.log, off));
                    }
                    return Err(StoreError::Corrupt(off));
                },
            };
            proof {
                assert(log_table(*self) == m0.log);
                assert(decodes_at(m0.log, off));
                assert(event_at(m0.log, off) == ev@);
            }
            let ck = make_ci_key(ev.created_at, &ev.id);
            match self.ci_put(&ck, off) {
                Ok(()) => (),
                Err(e) => return Err(StoreError::Storage(e)),
            }
            j = j + 1;
            proof {
                assert(kvs[j as int - 1].0 == derived_ci(m0.log, off));
                assert(ci_table(*self) == put_fold(m0.ci, kvs, j as int));
            }
        }
        proof {
            let n = entries@.len() as int;
            lemma_put_fold_facts(m0.ci, kvs, n);
            let ci1 = ci_table(*self);
            assert forall|id: Seq<u8>| #[trigger] m0.ids.contains_key(id) implies decodes_at(
                m0.log,
                m0.ids[id],
            ) && ci1.contains_key(derived_ci(m0.log, m0.ids[id])) by {
                let jj = choose|jj: int| 0 <= jj < entries@.len() && (#[trigger] entries@[jj]).0@
                    == id;
                assert(entries@[jj].1 == m0.ids[id]);
                assert(kvs[jj].0 == derived_ci(m0.log, m0.ids[id]));
            }
            assert forall|k: Seq<u8>| #[trigger] ci1.contains_key(k) implies m0.ci.contains_key(k)
                || exists|id: Seq<u8>| #[trigger]
                m0.ids.contains_key(id) && k == derived_ci(m0.log, m0.ids[id]) by {
                if !m0.ci.contains_key(k) {
                    let jj = choose|jj: int| 0 <= jj < n && (#[trigger] kvs[jj]).0 == k;
                    let id = entries@[jj].0@;
                    assert(m0.ids.contains_key(id) && k == derived_ci(m0.log, m0.ids[id]));
                }
            }
            assert forall|k: Seq<u8>| #[trigger]
                m0.ci.contains_key(k) && !(exists|id: Seq<u8>| #[trigger]
                    m0.ids.contains_key(id) && k == derived_ci(m0.log, m0.ids[id]))
                implies ci1[k] == m0.ci[k] by {
                assert forall|jj: int| 0 <= jj < n implies (#[trigger] kvs[jj]).0 != k by {
                    let id = entries@[jj].0@;
                    assert(m0.ids.contains_key(id) && entries@[jj].1 == m0.ids[id]);
                }
            }
            if ids_coherent(m0.ids, m0.log) {
                assert forall|j1: int, j2: int|
                    0 <= j1 < n && 0 <= j2 < n && (#[trigger] kvs[j1]).0 == (#[trigger] kvs[j2]).0
                    implies kvs[j1].1 == kvs[j2].1 by {
                    let id1 = entries@[j1].0@;
                    let id2 = entries@[j2].0@;
                    assert(event_at(m0.log, entries@[j1].1).id == id1);
                    assert(event_at(m0.log, entries@[j2].1).id == id2);
                    crate::bytes::lemma_be_seq_len(
                        event_at(m0.log, entries@[j1].1).created_at as int,
                        8,
                    );
                    crate::bytes::lemma_be_seq_len(
                        event_at(m0.log, entries@[j2].1).created_at as int,
                        8,
                    );
                    lemma_split(
                        crate::bytes::be_seq(event_at(m0.log, entries@[j1].1).created_at as int, 8),
                        id1,
                    );
                    lemma_split(
                        crate::bytes::be_seq(event_at(m0.log, entries@[j2].1).created_at as int, 8),
                        id2,
                    );
                    assert(kvs[j1].0.skip(8) == id1);
                    assert(kvs[j2].0.skip(8) == id2);
                    if j1 != j2 {
                        assert(id1 == id2);
                        if j1 < j2 {
                            assert(crate::bytes::lex_lt(entries@[j1].0@, entries@[j2].0@));
                        } else {
                            assert(crate::bytes::lex_lt(entries@[j2].0@, entries@[j1].0@));
                        }
                        lemma_lex_irrefl(id1);
                    }
                }
                lemma_put_fold_value(m0.ci, kvs, n);
                assert forall|id: Seq<u8>| #[trigger] m0.ids.contains_key(id) implies ci1[derived_ci(
                    m0.log,
                    m0.ids[id],
                )] == m0.ids[id] by {
                    let jj = choose|jj: int|
                        0 <= jj < entries@.len() && (#[trigger] entries@[jj]).0@ == id;
                    assert(kvs[jj].0 == derived_ci(m0.log, m0.ids[id]) && kvs[jj].1 == m0.ids[id]);
                }
            }
        }
        Ok(())
    }

    /// Upgrade step two: populate `ac_index` and `tc_index` from a full scan
    /// of `i_index`.
    #[verifier::loop_isolation(false)]
    #[verifier::rlimit(100)]
    fn rebuild_ac_tc(&mut self) -> (r: Result<(), StoreError>)
        ensures
            model(*final(self)) == (StoreModel {
                ac: ac_table(*final(self)),
                tc: tc_table(*final(self)),
                ..model(*old(self))
            }),
            r is Ok ==> ids_decodable(id_table(*old(self)), log_table(*old(self))),
            r is Ok ==> ac_rebuilt(
                ac_table(*old(self)),
                id_table(*old(self)),
                log_table(*old(self)),
                ac_table(*final(self)),
            ),
            r is Ok ==> tc_rebuilt(
                tc_table(*old(self)),
                id_table(*old(self)),
                log_table(*old(self)),
                tc_table(*final(self)),
            ),
            r matches Err(e) ==> (e matches StoreError::Storage(_) || e
                matches StoreError::Corrupt(_)),
            r matches Err(StoreError::Corrupt(o)) ==> corrupt_id(
                id_table(*old(self)),
                log_table(*old(self)),
                o,
            ),
    {
        let ghost m0 = model(*old(self));
        let entries = match self.i_entries() {
            Ok(v) => v,
            Err(e) => return Err(StoreError::Storage(e)),
        };
        let ghost offs: Seq<u64> = Seq::new(entries@.len(), |j: int| entries@[j].1);
        let ghost kvs: Seq<(Seq<u8>, u64)> = Seq::new(
            entries@.len(),
            |j: int| (derived_ac(m0.log, entries@[j].1), entries@[j].1),
        );
        let mut j: usize = 0;
        while j < entries.len()
            invariant
                j <= entries@.len(),
                model(*self) == (StoreModel {
                    ac: put_fold(m0.ac, kvs, j as int),
                    tc: tc_refold(m0.tc, m0.log, offs, j as int),
                    ..m0
                }),
                forall|jj: int| 0 <= jj < j ==> decodes_at(m0.log, (#[trigger] entries@[jj]).1),
            decreases entries@.len() - j,
        {
            let p = &entries[j];
            let off = p.1;
            let got = match self.log_get(off) {
                Ok(g) => g,
                Err(e) => return Err(StoreError::Storage(e)),
            };
            let bytes = match got {
                Some(b) => b,
                None => {
                    proof {
                        assert(m0.ids.contains_key(entries@[j as int].0@) && m0.ids[entries@[
                            j as int
                        ].0@] == off);
                        assert(!decodes_at(m0.log, off));
                        assert(corrupt_id(m0.ids, m0.log, off));
                    }
                    return Err(StoreError::Corrupt(off));
                },
            };
            let ev = match decode_event(&bytes) {
                Some(ev) => ev,
                None => {
                    proof {
                        assert(m0.ids.contains_key(entries@[j as int].0@) && m0.ids[entries@[
                            j as int
                        ].0@] == off);
                        assert(!decodes_at(m0.log, off));
                        assert(corrupt_id(m0.ids, m0.log, off));
                    }
                    return Err(StoreError::Corrupt(off));
                },
            };
            proof {
                assert(log_table(*self) == m0.log);
                assert(decodes_at(m0.log, off));
                assert(event_at(m0.log, off) == ev@);
                crate::codec::lemma_dec_event_wf(bytes@);
            }
            match self.apply_ac_tc(&ev, off) {
                Ok(()) => (),
                Err(e) => return Err(e),
            }
            j = j + 1;
            proof {
                assert(kvs[j as int - 1].0 == derived_ac(m0.log, off));
                assert(ac_table(*self) == put_fold(m0.ac, kvs, j as int));
                assert(tc_table(*self) == tc_refold(m0.tc, m0.log, offs, j as int));
            }
        }
        proof {
            let n = entries@.len() as int;
            lemma_put_fold_facts(m0.ac, kvs, n);
            lemma_tc_refold_facts(m0.tc, m0.log, offs, n);
            let ac1 = ac_table(*self);
            let tc1 = tc_table(*self);
            assert forall|id: Seq<u8>| #[trigger] m0.ids.contains_key(id) implies decodes_at(
                m0.log,
                m0.ids[id],
            ) && ac1.contains_key(derived_ac(m0.log, m0.ids[id])) by {
                let jj = choose|jj: int| 0 <= jj < entries@.len() && (#[trigger] entries@[jj]).0@
                    == id;
                assert(entries@[jj].1 == m0.ids[id]);
                assert(kvs[jj].0 == derived_ac(m0.log, m0.ids[id]));
            }
            assert forall|k: Seq<u8>| #[trigger] ac1.contains_key(k) implies m0.ac.contains_key(k)
                || exists|id: Seq<u8>| #[trigger]
                m0.ids.contains_key(id) && k == derived_ac(m0.log, m0.ids[id]) by {
                if !m0.ac.contains_key(k) {
                    let jj = choose|jj: int| 0 <= jj < n && (#[trigger] kvs[jj]).0 == k;
                    let id = entries@[jj].0@;
                    assert(m0.ids.contains_key(id) && k == derived_ac(m0.log, m0.ids[id]));
                }
            }
            assert forall|k: Seq<u8>| #[trigger]
                m0.ac.contains_key(k) && !(exists|id: Seq<u8>| #[trigger]
                    m0.ids.contains_key(id) && k == derived_ac(m0.log, m0.ids[id]))
                implies ac1[k] == m0.ac[k] by {
                assert forall|jj: int| 0 <= jj < n implies (#[trigger] kvs[jj]).0 != k by {
                    let id = entries@[jj].0@;
                    assert(m0.ids.contains_key(id) && entries@[jj].1 == m0.ids[id]);
                }
            }
            if ids_coherent(m0.ids, m0.log) {
                assert forall|j1: int, j2: int|
                    0 <= j1 < n && 0 <= j2 < n && (#[trigger] kvs[j1]).0 == (#[trigger] kvs[j2]).0
                    implies kvs[j1].1 == kvs[j2].1 by {
                    let id1 = entries@[j1].0@;
                    let id2 = entries@[j2].0@;
                    let e1 = event_at(m0.log, entries@[j1].1);
                    let e2 = event_at(m0.log, entries@[j2].1);
                    assert(e1.id == id1);
                    assert(e2.id == id2);
                    crate::bytes::lemma_be_seq_len(e1.created_at as int, 8);
                    crate::bytes::lemma_be_seq_len(e2.created_at as int, 8);
                    lemma_split(e1.pubkey + crate::bytes::be_seq(e1.created_at as int, 8), id1);
                    lemma_split(e2.pubkey + crate::bytes::be_seq(e2.created_at as int, 8), id2);
                    assert(kvs[j1].0 =~= (e1.pubkey + crate::bytes::be_seq(e1.created_at as int, 8))
                        + id1);
                    assert(kvs[j2].0 =~= (e2.pubkey + crate::bytes::be_seq(e2.created_at as int, 8))
                        + id2);
                    crate::codec::lemma_dec_event_wf(m0.log[entries@[j1].1]);
                    crate::codec::lemma_dec_event_wf(m0.log[entries@[j2].1]);
                    assert(kvs[j1].0.skip(40) == id1);
                    assert(kvs[j2].0.skip(40) == id2);
                    if j1 != j2 {
                        assert(id1 == id2);
                        if j1 < j2 {
                            assert(crate::bytes::lex_lt(entries@[j1].0@, entries@[j2].0@));
                        } else {
                            assert(crate::bytes::lex_lt(entries@[j2].0@, entries@[j1].0@));
                        }
                        lemma_lex_irrefl(id1);
                    }
                }
                lemma_put_fold_value(m0.ac, kvs, n);
                assert forall|id: Seq<u8>| #[trigger] m0.ids.contains_key(id) implies ac1[derived_ac(
                    m0.log,
                    m0.ids[id],
                )] == m0.ids[id] by {
                    let jj = choose|jj: int|
                        0 <= jj < entries@.len() && (#[trigger] entries@[jj]).0@ == id;
                    assert(kvs[jj].0 == derived_ac(m0.log, m0.ids[id]) && kvs[jj].1 == m0.ids[id]);
                }
            }
            // the tag-index clauses of tc_rebuilt
            assert forall|id: Seq<u8>, ti: int|
                #![trigger m0.ids.contains_key(id), event_at(m0.log, m0.ids[id]).tags[ti]]
                m0.ids.contains_key(id) && 0 <= ti < event_at(m0.log, m0.ids[id]).tags.len()
                    && indexed_tag(event_at(m0.log, m0.ids[id]).tags[ti]) implies tc1.contains_key(
                key_tc(
                    event_at(m0.log, m0.ids[id]).tags[ti][0][0],
                    event_at(m0.log, m0.ids[id]).tags[ti][1],
                    event_at(m0.log, m0.ids[id]).created_at,
                    event_at(m0.log, m0.ids[id]).id,
                ),
            ) by {
                let jj = choose|jj: int| 0 <= jj < entries@.len() && (#[trigger] entries@[jj]).0@
                    == id;
                assert(offs[jj] == m0.ids[id]);
            }
            // untouched old tag entries keep their values
            assert forall|k: Seq<u8>| #[trigger]
                m0.tc.contains_key(k) && !(exists|id: Seq<u8>, ti: int|
                    #![trigger m0.ids.contains_key(id), event_at(m0.log, m0.ids[id]).tags[ti]]
                    m0.ids.contains_key(id) && 0 <= ti < event_at(m0.log, m0.ids[id]).tags.len()
                        && indexed_tag(event_at(m0.log, m0.ids[id]).tags[ti]) && k == derived_tc(
                        m0.log,
                        m0.ids[id],
                        ti,
                    )) implies tc1[k] == m0.tc[k] by {
                assert forall|j: int, ti: int|
                    #![trigger offs[j], event_at(m0.log, offs[j]).tags[ti]]
                    0 <= j < n && 0 <= ti < event_at(m0.log, offs[j]).tags.len() && indexed_tag(
                        event_at(m0.log, offs[j]).tags[ti],
                    ) implies k != derived_tc(m0.log, offs[j], ti) by {
                    let id = entries@[j].0@;
                    assert(m0.ids.contains_key(id) && entries@[j].1 == m0.ids[id]);
                }
                lemma_tc_refold_frame(m0.tc, m0.log, offs, n);
            }
            // on a coherent database the derived tag entries carry their
            // events' offsets
            if ids_coherent(m0.ids, m0.log) {
                assert forall|j1: int, ti1: int, j2: int, ti2: int|
                    #![trigger derived_tc(m0.log, offs[j1], ti1), derived_tc(m0.log, offs[j2], ti2)]
                    0 <= j1 < offs.len() && 0 <= ti1 < event_at(m0.log, offs[j1]).tags.len()
                        && indexed_tag(event_at(m0.log, offs[j1]).tags[ti1]) && 0 <= j2
                        < offs.len() && 0 <= ti2 < event_at(m0.log, offs[j2]).tags.len()
                        && indexed_tag(event_at(m0.log, offs[j2]).tags[ti2]) && derived_tc(
                        m0.log,
                        offs[j1],
                        ti1,
                    ) == derived_tc(m0.log, offs[j2], ti2) implies offs[j1] == offs[j2] by {
                    let e1 = event_at(m0.log, offs[j1]);
                    let e2 = event_at(m0.log, offs[j2]);
                    let id1 = entries@[j1].0@;
                    let id2 = entries@[j2].0@;
                    assert(m0.ids.contains_key(id1) && offs[j1] == m0.ids[id1]);
                    assert(m0.ids.contains_key(id2) && offs[j2] == m0.ids[id2]);
                    assert(e1.id == id1);
                    assert(e2.id == id2);
                    crate::codec::lemma_dec_event_wf(m0.log[offs[j1]]);
                    crate::codec::lemma_dec_event_wf(m0.log[offs[j2]]);
                    lemma_key_tc_suffix(
                        e1.tags[ti1][0][0],
                        e1.tags[ti1][1],
                        e1.created_at,
                        e1.id,
                        e2.tags[ti2][0][0],
                        e2.tags[ti2][1],
                        e2.created_at,
                        e2.id,
                    );
                    if j1 != j2 {
                        assert(id1 == id2);
                        if j1 < j2 {
                            assert(crate::bytes::lex_lt(entries@[j1].0@, entries@[j2].0@));
                        } else {
                            assert(crate::bytes::lex_lt(entries@[j2].0@, entries@[j1].0@));
                        }
                        lemma_lex_irrefl(id1);
                    }
                }
                lemma_tc_refold_value(m0.tc, m0.log, offs, n);
                assert forall|id: Seq<u8>, ti: int|
                    #![trigger m0.ids.contains_key(id), event_at(m0.log, m0.ids[id]).tags[ti]]
                    m0.ids.contains_key(id) && 0 <= ti < event_at(m0.log, m0.ids[id]).tags.len()
                        && indexed_tag(event_at(m0.log, m0.ids[id]).tags[ti]) implies tc1[
                    derived_tc(m0.log, m0.ids[id], ti)] == m0.ids[id] by {
                    let jj = choose|jj: int|
                        0 <= jj < entries@.len() && (#[trigger] entries@[jj]).0@ == id;
                    assert(offs[jj] == m0.ids[id]);
                }
            }
        }
        Ok(())
    }

    /// Upgrade step five: collect the leading 32 bytes of every key of the
    /// legacy `deleted-events` table into the tombstone set, then truncate
    /// the legacy table. Keys shorter than an id are tolerated and skipped.
    #[verifier::loop_isolation(false)]
    #[verifier::rlimit(60)]
    fn convert_deleted(&mut self) -> (r: Result<(), StoreError>)
        ensures
            model(*final(self)) == (StoreModel {
                deleted: deleted_table(*final(self)),
                legacy_events: legacy_events_table(*final(self)),
                ..model(*old(self))
            }),
            r is Ok ==> legacy_events_table(*final(self)).is_empty(),
            r is Ok ==> forall|x: Seq<u8>| #[trigger]
                deleted_table(*old(self)).contains(x) ==> deleted_table(*final(self)).contains(x),
            r is Ok ==> forall|k: Seq<u8>| #[trigger]
                legacy_events_table(*old(self)).contains(k) && k.len() >= 32 ==> deleted_table(
                    *final(self),
                ).contains(k.subrange(0, 32)),
            r is Ok ==> forall|x: Seq<u8>| #[trigger]
                deleted_table(*final(self)).contains(x) ==> deleted_table(*old(self)).contains(x)
                    || exists|k: Seq<u8>| #[trigger]
                    legacy_events_table(*old(self)).contains(k) && k.len() >= 32 && x == k.subrange(
                        0,
                        32,
                    ),
            r matches Err(e) ==> e matches StoreError::Storage(_),
    {
        let ghost m0 = model(*old(self));
        let keys = match self.legacy_events_keys() {
            Ok(v) => v,
            Err(e) => return Err(StoreError::Storage(e)),
        };
        let mut j: usize = 0;
        while j < keys.len()
            invariant
                j <= keys@.len(),
                model(*self) == (StoreModel { deleted: deleted_table(*self), ..m0 }),
                forall|x: Seq<u8>| #[trigger]
                    m0.deleted.contains(x) ==> deleted_table(*self).contains(x),
                forall|jj: int|
                    0 <= jj < j && (#[trigger] keys@[jj])@.len() >= 32 ==> deleted_table(
                        *self,
                    ).contains(keys@[jj]@.subrange(0, 32)),
                forall|x: Seq<u8>| #[trigger]
                    deleted_table(*self).contains(x) ==> m0.deleted.contains(x) || exists|jj: int|
                        0 <= jj < j && (#[trigger] keys@[jj])@.len() >= 32 && x == keys@[jj]@
                            .subrange(0, 32),
            decreases keys@.len() - j,
        {
            let k = &keys[j];
            if k.len() >= 32 {
                let id = copy_range(k, 0, 32);
                match self.deleted_put(&id) {
                    Ok(()) => (),
                    Err(e) => return Err(StoreError::Storage(e)),
                }
            }
            j = j + 1;
        }
        match self.legacy_events_clear() {
            Ok(()) => (),
            Err(e) => return Err(StoreError::Storage(e)),
        }
        proof {
            assert forall|x: Seq<u8>| #[trigger] deleted_table(*old(self)).contains(
                x,
            ) implies deleted_table(*final(self)).contains(x) by {
                assert(m0.deleted.contains(x));
            }
            assert forall|k: Seq<u8>| #[trigger]
                legacy_events_table(*old(self)).contains(k) && k.len() >= 32 implies deleted_table(
                *final(self),
            ).contains(k.subrange(0, 32)) by {
                let jj = choose|jj: int| 0 <= jj < keys@.len() && (#[trigger] keys@[jj])@ == k;
                assert(keys@[jj]@.subrange(0, 32) == k.subrange(0, 32));
            }
        }
        Ok(())
    }

    /// Runs the upgrade ladder. Reads the stored level (absence means zero);
    /// refuses a database written by a newer schema; otherwise applies the
    /// missing steps in order, writing the level back after each one, and
    /// leaves the store at the current level. Running it again is then a
    /// no-op. On failure the log and the id index are untouched and the
    /// stored level stays at the last fully applied step, so the next run
    /// resumes there.
    #[verifier::rlimit(100)]
    pub fn migrate(&mut self) -> (r: Result<(), StoreError>)
        ensures
            r is Ok ==> stored_level(general_table(*final(self))) == Some(
                CURRENT_MIGRATION_LEVEL,
            ),
            log_table(*final(self)) == log_table(*old(self)),
            id_table(*final(self)) == id_table(*old(self)),
            r matches Err(StoreError::Corrupt(o)) ==> corrupt_id(
                id_table(*old(self)),
                log_table(*old(self)),
                o,
            ),
            stored_level(general_table(*old(self))) matches Some(l) ==> (l
                <= CURRENT_MIGRATION_LEVEL ==> (stored_level(general_table(*final(self)))
                matches Some(lf) && l <= lf && lf <= CURRENT_MIGRATION_LEVEL)),
            r is Ok ==> (stored_level(general_table(*old(self))) == Some(CURRENT_MIGRATION_LEVEL)
                ==> model(*final(self)) == model(*old(self))),
            r is Ok ==> (stored_level(general_table(*old(self))) matches Some(l) && l
                <= CURRENT_MIGRATION_LEVEL),
            r matches Err(StoreError::SchemaAhead(l)) ==> stored_level(general_table(*old(self)))
                == Some(l) && l > CURRENT_MIGRATION_LEVEL && model(*final(self)) == model(
                *old(self),
            ),
            r matches Err(StoreError::BadLevelValue) ==> stored_level(general_table(*old(self)))
                is None && model(*final(self)) == model(*old(self)),
            r is Ok ==> (match stored_level(general_table(*old(self))) {
                Some(l) => {
                    &&& (l < 1 ==> ids_decodable(id_table(*old(self)), log_table(*old(self)))
                        && ci_rebuilt(
                        ci_table(*old(self)),
                        id_table(*old(self)),
                        log_table(*old(self)),
                        ci_table(*final(self)),
                    ))
                    &&& (l >= 1 ==> ci_table(*final(self)) == ci_table(*old(self)))
                    &&& (l < 2 ==> ac_rebuilt(
                        ac_table(*old(self)),
                        id_table(*old(self)),
                        log_table(*old(self)),
                        ac_table(*final(self)),
                    ) && tc_rebuilt(
                        tc_table(*old(self)),
                        id_table(*old(self)),
                        log_table(*old(self)),
                        tc_table(*final(self)),
                    ))
                    &&& (l >= 2 ==> ac_table(*final(self)) == ac_table(*old(self)) && tc_table(
                        *final(self),
                    ) == tc_table(*old(self)))
                    &&& (l < 3 ==> ip_table(*final(self)).dom().is_empty())
                    &&& (l >= 3 ==> ip_table(*final(self)) == ip_table(*old(self)))
                    &&& (l < 4 ==> legacy_offsets_table(*final(self)).is_empty())
                    &&& (l >= 4 ==> legacy_offsets_table(*final(self)) == legacy_offsets_table(
                        *old(self),
                    ))
                    &&& (l < 5 ==> legacy_events_table(*final(self)).is_empty())
                    &&& (l < 5 ==> (forall|x: Seq<u8>| #[trigger]
                        deleted_table(*old(self)).contains(x) ==> deleted_table(
                            *final(self),
                        ).contains(x)) && (forall|k: Seq<u8>| #[trigger]
                        legacy_events_table(*old(self)).contains(k) && k.len() >= 32
                            ==> deleted_table(*final(self)).contains(k.subrange(0, 32))) && (forall|
                        x: Seq<u8>,
                    | #[trigger]
                        deleted_table(*final(self)).contains(x) ==> deleted_table(
                            *old(self),
                        ).contains(x) || exists|k: Seq<u8>| #[trigger]
                            legacy_events_table(*old(self)).contains(k) && k.len() >= 32 && x == k
                                .subrange(0, 32)))
                    &&& (l >= 5 ==> deleted_table(*final(self)) == deleted_table(*old(self))
                        && legacy_events_table(*final(self)) == legacy_events_table(*old(self)))
                },
                None => false,
            }),
    {
        let l0 = match self.get_migration_level() {
            Ok(l) => l,
            Err(e) => return Err(e),
        };
        if l0 > CURRENT_MIGRATION_LEVEL {
            return Err(StoreError::SchemaAhead(l0));
        }
        if l0 < 1 {
            match self.rebuild_ci() {
                Ok(()) => (),
                Err(e) => return Err(e),
            }
            match self.set_migration_level(1) {
                Ok(()) => (),
                Err(e) => return Err(e),
            }
        }
        if l0 < 2 {
            match self.rebuild_ac_tc() {
                Ok(()) => (),
                Err(e) => return Err(e),
            }
            match self.set_migration_level(2) {
                Ok(()) => (),
                Err(e) => return Err(e),
            }
        }
        if l0 < 3 {
            match self.ip_clear() {
                Ok(()) => (),
                Err(e) => return Err(StoreError::Storage(e)),
            }
            match self.set_migration_level(3) {
                Ok(()) => (),
                Err(e) => return Err(e),
            }
        }
        if l0 < 4 {
            match self.legacy_offsets_clear() {
                Ok(()) => (),
                Err(e) => return Err(StoreError::Storage(e)),
            }
            match self.set_migration_level(4) {
                Ok(()) => (),
                Err(e) => return Err(e),
            }
        }
        if l0 < 5 {
            match self.convert_deleted() {
                Ok(()) => (),
                Err(e) => return Err(e),
            }
            match self.set_migration_level(5) {
                Ok(()) => (),
                Err(e) => return Err(e),
            }
        }
        Ok(())
    }
}

/// Rebuilding the tag index over a run of offsets keeps old keys, adds every
/// indexed tag entry of every scanned event, and adds nothing else.
pub proof fn lemma_tc_refold_facts(
    tc0: Map<Seq<u8>, u64>,
    log: Map<u64, Seq<u8>>,
    offs: Seq<u64>,
    n: int,
)
    requires
        0 <= n <= offs.len(),
    ensures
        forall|k: Seq<u8>| #[trigger]
            tc0.contains_key(k) ==> tc_refold(tc0, log, offs, n).contains_key(k),
        forall|j: int, ti: int|
            #![trigger offs[j], event_at(log, offs[j]).tags[ti]]
            0 <= j < n && 0 <= ti < event_at(log, offs[j]).tags.len() && indexed_tag(
                event_at(log, offs[j]).tags[ti],
            ) ==> tc_refold(tc0, log, offs, n).contains_key(
                key_tc(
                    event_at(log, offs[j]).tags[ti][0][0],
                    event_at(log, offs[j]).tags[ti][1],
                    event_at(log, offs[j]).created_at,
                    event_at(log, offs[j]).id,
                ),
            ),
        forall|k: Seq<u8>| #[trigger]
            tc_refold(tc0, log, offs, n).contains_key(k) ==> tc0.contains_key(k) || exists|
                j: int,
                ti: int,
            |
                #![trigger offs[j], event_at(log, offs[j]).tags[ti]]
                0 <= j < n && 0 <= ti < event_at(log, offs[j]).tags.len() && indexed_tag(
                    event_at(log, offs[j]).tags[ti],
                ) && k == key_tc(
                    event_at(log, offs[j]).tags[ti][0][0],
                    event_at(log, offs[j]).tags[ti][1],
                    event_at(log, offs[j]).created_at,
                    event_at(log, offs[j]).id,
                ),
    decreases n,
{
    if n > 0 {
        lemma_tc_refold_facts(tc0, log, offs, n - 1);
        let prev = tc_refold(tc0, log, offs, n - 1);
        let e = event_at(log, offs[n - 1]);
        lemma_tc_upto_facts(prev, e, offs[n - 1], e.tags.len() as int);
    }
}

/// Old tag entries that no scanned event re-derives keep their values.
pub proof fn lemma_tc_refold_frame(
    tc0: Map<Seq<u8>, u64>,
    log: Map<u64, Seq<u8>>,
    offs: Seq<u64>,
    n: int,
)
    requires
        0 <= n <= offs.len(),
    ensures
        forall|k: Seq<u8>| #[trigger]
            tc0.contains_key(k) && (forall|j: int, ti: int|
                #![trigger offs[j], event_at(log, offs[j]).tags[ti]]
                0 <= j < n && 0 <= ti < event_at(log, offs[j]).tags.len() && indexed_tag(
                    event_at(log, offs[j]).tags[ti],
                ) ==> k != derived_tc(log, offs[j], ti)) ==> tc_refold(tc0, log, offs, n)[k]
                == tc0[k],
    decreases n,
{
    if n > 0 {
        lemma_tc_refold_frame(tc0, log, offs, n - 1);
        lemma_tc_refold_facts(tc0, log, offs, n - 1);
        let prev = tc_refold(tc0, log, offs, n - 1);
        let e = event_at(log, offs[n - 1]);
        lemma_tc_upto_facts(prev, e, offs[n - 1], e.tags.len() as int);
        assert forall|k: Seq<u8>| #[trigger]
            tc0.contains_key(k) && (forall|j: int, ti: int|
                #![trigger offs[j], event_at(log, offs[j]).tags[ti]]
                0 <= j < n && 0 <= ti < event_at(log, offs[j]).tags.len() && indexed_tag(
                    event_at(log, offs[j]).tags[ti],
                ) ==> k != derived_tc(log, offs[j], ti)) implies tc_refold(tc0, log, offs, n)[k]
            == tc0[k] by {
            assert(prev[k] == tc0[k]);
            assert(prev.contains_key(k));
            assert forall|ti: int| 0 <= ti < e.tags.len() implies !(indexed_tag(
                #[trigger] e.tags[ti],
            ) && k == key_tc(e.tags[ti][0][0], e.tags[ti][1], e.created_at, e.id)) by {
                assert(0 <= n - 1 < n);
            }
        }
    }
}

/// When equal derived tag keys always agree on their offset, every derived
/// entry of the rebuild points at its event's offset.
pub proof fn lemma_tc_refold_value(
    tc0: Map<Seq<u8>, u64>,
    log: Map<u64, Seq<u8>>,
    offs: Seq<u64>,
    n: int,
)
    requires
        0 <= n <= offs.len(),
        forall|j1: int, ti1: int, j2: int, ti2: int|
            #![trigger derived_tc(log, offs[j1], ti1), derived_tc(log, offs[j2], ti2)]
            0 <= j1 < offs.len() && 0 <= ti1 < event_at(log, offs[j1]).tags.len() && indexed_tag(
                event_at(log, offs[j1]).tags[ti1],
            ) && 0 <= j2 < offs.len() && 0 <= ti2 < event_at(log, offs[j2]).tags.len()
                && indexed_tag(event_at(log, offs[j2]).tags[ti2]) && derived_tc(log, offs[j1], ti1)
                == derived_tc(log, offs[j2], ti2) ==> offs[j1] == offs[j2],
    ensures
        forall|j: int, ti: int|
            #![trigger offs[j], event_at(log, offs[j]).tags[ti]]
            0 <= j < n && 0 <= ti < event_at(log, offs[j]).tags.len() && indexed_tag(
                event_at(log, offs[j]).tags[ti],
            ) ==> tc_refold(tc0, log, offs, n).contains_key(derived_tc(log, offs[j], ti))
                && tc_refold(tc0, log, offs, n)[derived_tc(log, offs[j], ti)] == offs[j],
    decreases n,
{
    if n > 0 {
        lemma_tc_refold_value(tc0, log, offs, n - 1);
        let prev = tc_refold(tc0, log, offs, n - 1);
        let e = event_at(log, offs[n - 1]);
        lemma_tc_upto_facts(prev, e, offs[n - 1], e.tags.len() as int);
        assert forall|j: int, ti: int|
            #![trigger offs[j], event_at(log, offs[j]).tags[ti]]
            0 <= j < n && 0 <= ti < event_at(log, offs[j]).tags.len() && indexed_tag(
                event_at(log, offs[j]).tags[ti],
            ) implies tc_refold(tc0, log, offs, n).contains_key(derived_tc(log, offs[j], ti))
            && tc_refold(tc0, log, offs, n)[derived_tc(log, offs[j], ti)] == offs[j] by {
            let dk = derived_tc(log, offs[j], ti);
            if j == n - 1 {
                assert(dk == key_tc(e.tags[ti][0][0], e.tags[ti][1], e.created_at, e.id));
            } else {
                assert(prev.contains_key(dk) && prev[dk] == offs[j]);
                if exists|ti2: int|
                    0 <= ti2 < e.tags.len() && indexed_tag(#[trigger] e.tags[ti2]) && dk == key_tc(
                        e.tags[ti2][0][0],
                        e.tags[ti2][1],
                        e.created_at,
                        e.id,
                    ) {
                    let ti2 = choose|ti2: int|
                        0 <= ti2 < e.tags.len() && indexed_tag(#[trigger] e.tags[ti2]) && dk
                            == key_tc(e.tags[ti2][0][0], e.tags[ti2][1], e.created_at, e.id);
                    assert(dk == derived_tc(log, offs[n - 1], ti2));
                    assert(offs[j] == offs[n - 1]);
                    assert(tc_refold(tc0, log, offs, n)[dk] == offs[n - 1]);
                } else {
                    assert forall|ti2: int| 0 <= ti2 < e.tags.len() implies !(indexed_tag(
                        #[trigger] e.tags[ti2],
                    ) && dk == key_tc(e.tags[ti2][0][0], e.tags[ti2][1], e.created_at, e.id)) by {}
                    assert(tc_refold(tc0, log, offs, n)[dk] == prev[dk]);
                }
            }
        }
    }
}

} // verus!
