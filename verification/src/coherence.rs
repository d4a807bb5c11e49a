//! The cross-table invariant of the store, and the proofs that the write
//! path and the upgrade ladder keep it.
//!
//! Every offset reachable from a secondary index dereferences to a decodable
//! record whose fields reconstruct the index key; `i_index` keys name the id
//! of the record they point at.

use vstd::prelude::*;
use crate::codec::lemma_dec_enc;
use crate::event::EventModel;
use crate::keys::{key_ac, key_ci, key_tc};
use crate::migrate::{ac_rebuilt, ci_rebuilt, decodes_at, derived_ac, derived_ci, derived_tc,
    event_at, ids_coherent, lemma_tc_upto_facts, tc_rebuilt};
use crate::ops::{indexed_tag, tc_insert_upto};
use crate::store::StoreModel;

verus! {

/// Every `ci_index` entry points at a decodable record whose creation time
/// and id reconstruct the key.
pub open spec fn ci_coherent(ci: Map<Seq<u8>, u64>, log: Map<u64, Seq<u8>>) -> bool {
    forall|k: Seq<u8>| #[trigger]
        ci.contains_key(k) ==> decodes_at(log, ci[k]) && k == derived_ci(log, ci[k])
}

/// Every `ac_index` entry points at a decodable record whose author,
/// creation time and id reconstruct the key.
pub open spec fn ac_coherent(ac: Map<Seq<u8>, u64>, log: Map<u64, Seq<u8>>) -> bool {
    forall|k: Seq<u8>| #[trigger]
        ac.contains_key(k) ==> decodes_at(log, ac[k]) && k == derived_ac(log, ac[k])
}

/// Every `tc_index` entry points at a decodable record one of whose indexed
/// tags reconstructs the key.
pub open spec fn tc_coherent(tc: Map<Seq<u8>, u64>, log: Map<u64, Seq<u8>>) -> bool {
    forall|k: Seq<u8>| #[trigger]
        tc.contains_key(k) ==> decodes_at(log, tc[k]) && exists|ti: int|
            0 <= ti < event_at(log, tc[k]).tags.len() && indexed_tag(
                #[trigger] event_at(log, tc[k]).tags[ti],
            ) && k == key_tc(
                event_at(log, tc[k]).tags[ti][0][0],
                event_at(log, tc[k]).tags[ti][1],
                event_at(log, tc[k]).created_at,
                event_at(log, tc[k]).id,
            )
}

/// The invariant of the whole store: the id index is coherent and every
/// secondary index entry reconstructs its key from the record it points at.
pub open spec fn coherent(m: StoreModel) -> bool {
    &&& ids_coherent(m.ids, m.log)
    &&& ci_coherent(m.ci, m.log)
    &&& ac_coherent(m.ac, m.log)
    &&& tc_coherent(m.tc, m.log)
}

/// A store with nothing in its log and nothing in its indexes is coherent.
pub proof fn lemma_empty_coherent(m: StoreModel)
    requires
        m.ids == Map::<Seq<u8>, u64>::empty(),
        m.ci == Map::<Seq<u8>, u64>::empty(),
        m.ac == Map::<Seq<u8>, u64>::empty(),
        m.tc == Map::<Seq<u8>, u64>::empty(),
    ensures
        coherent(m),
{
}

/// Appending an event at a fresh offset keeps the store coherent: the law
/// that every index entry written by `append` — id, time, author, and one
/// per indexed tag — reconstructs its key from the appended record, and that
/// no older entry is disturbed.
pub proof fn lemma_append_preserves_coherent(m0: StoreModel, m1: StoreModel, e: EventModel, off: u64)
    requires
        coherent(m0),
        e.wf(),
        forall|k: u64| #[trigger] m0.log.contains_key(k) ==> k < off,
        m1.log == m0.log.insert(off, crate::event::enc_event(e)),
        m1.ids == m0.ids.insert(e.id, off),
        m1.ci == m0.ci.insert(key_ci(e.created_at, e.id), off),
        m1.ac == m0.ac.insert(key_ac(e.pubkey, e.created_at, e.id), off),
        m1.tc == tc_insert_upto(m0.tc, e, off, e.tags.len() as int),
    ensures
        coherent(m1),
{
    lemma_dec_enc(e);
    assert(decodes_at(m1.log, off));
    assert(event_at(m1.log, off) == e);
    // older offsets are untouched: every old entry decodes as before
    assert forall|o: u64| #[trigger] m0.log.contains_key(o) implies m1.log.contains_key(o)
        && m1.log[o] == m0.log[o] by {}
    assert forall|id: Seq<u8>| #[trigger] m1.ids.contains_key(id) implies decodes_at(
        m1.log,
        m1.ids[id],
    ) && event_at(m1.log, m1.ids[id]).id == id by {
        if id == e.id {
        } else {
            assert(m0.ids.contains_key(id));
            assert(decodes_at(m0.log, m0.ids[id]));
            assert(m0.log.contains_key(m0.ids[id]));
        }
    }
    assert forall|k: Seq<u8>| #[trigger] m1.ci.contains_key(k) implies decodes_at(m1.log, m1.ci[k])
        && k == derived_ci(m1.log, m1.ci[k]) by {
        if k == key_ci(e.created_at, e.id) {
        } else {
            assert(m0.ci.contains_key(k));
            assert(m0.log.contains_key(m0.ci[k]));
        }
    }
    assert forall|k: Seq<u8>| #[trigger] m1.ac.contains_key(k) implies decodes_at(m1.log, m1.ac[k])
        && k == derived_ac(m1.log, m1.ac[k]) by {
        if k == key_ac(e.pubkey, e.created_at, e.id) {
        } else {
            assert(m0.ac.contains_key(k));
            assert(m0.log.contains_key(m0.ac[k]));
        }
    }
    lemma_tc_upto_facts(m0.tc, e, off, e.tags.len() as int);
    assert forall|k: Seq<u8>| #[trigger] m1.tc.contains_key(k) implies decodes_at(m1.log, m1.tc[k])
        && exists|ti: int|
        0 <= ti < event_at(m1.log, m1.tc[k]).tags.len() && indexed_tag(
            #[trigger] event_at(m1.log, m1.tc[k]).tags[ti],
        ) && k == key_tc(
            event_at(m1.log, m1.tc[k]).tags[ti][0][0],
            event_at(m1.log, m1.tc[k]).tags[ti][1],
            event_at(m1.log, m1.tc[k]).created_at,
            event_at(m1.log, m1.tc[k]).id,
        ) by {
        if m0.tc.contains_key(k) && !(exists|ti: int|
            0 <= ti < e.tags.len() && indexed_tag(#[trigger] e.tags[ti]) && k == key_tc(
                e.tags[ti][0][0],
                e.tags[ti][1],
                e.created_at,
                e.id,
            )) {
            assert(forall|ti: int|
                0 <= ti < e.tags.len() ==> !(indexed_tag(#[trigger] e.tags[ti]) && k == key_tc(
                    e.tags[ti][0][0],
                    e.tags[ti][1],
                    e.created_at,
                    e.id,
                )));
            assert(m1.tc[k] == m0.tc[k]);
            assert(m0.log.contains_key(m0.tc[k]));
            assert(event_at(m1.log, m1.tc[k]) == event_at(m0.log, m0.tc[k]));
        } else {
            let ti = choose|ti: int|
                0 <= ti < e.tags.len() && indexed_tag(#[trigger] e.tags[ti]) && k == key_tc(
                    e.tags[ti][0][0],
                    e.tags[ti][1],
                    e.created_at,
                    e.id,
                );
            assert(m1.tc[k] == off);
            assert(event_at(m1.log, off) == e);
        }
    }
}

/// The upgrade ladder establishes coherence: rebuilding the secondary
/// indexes from a coherent `i_index` leaves each entry reconstructing its
/// key from the record it points at.
pub proof fn lemma_rebuild_establishes_coherent(
    m0: StoreModel,
    ci1: Map<Seq<u8>, u64>,
    ac1: Map<Seq<u8>, u64>,
    tc1: Map<Seq<u8>, u64>,
)
    requires
        ids_coherent(m0.ids, m0.log),
        ci_coherent(m0.ci, m0.log),
        ac_coherent(m0.ac, m0.log),
        tc_coherent(m0.tc, m0.log),
        ci_rebuilt(m0.ci, m0.ids, m0.log, ci1),
        ac_rebuilt(m0.ac, m0.ids, m0.log, ac1),
        tc_rebuilt(m0.tc, m0.ids, m0.log, tc1),
    ensures
        ci_coherent(ci1, m0.log),
        ac_coherent(ac1, m0.log),
        tc_coherent(tc1, m0.log),
    {
    assert forall|k: Seq<u8>| #[trigger] ci1.contains_key(k) implies decodes_at(m0.log, ci1[k]) && k
        == derived_ci(m0.log, ci1[k]) by {
        if exists|id: Seq<u8>| #[trigger] m0.ids.contains_key(id) && k == derived_ci(
            m0.log,
            m0.ids[id],
        ) {
            let id = choose|id: Seq<u8>| #[trigger] m0.ids.contains_key(id) && k == derived_ci(
                m0.log,
                m0.ids[id],
            );
            assert(ci1[k] == m0.ids[id]);
        } else {
            assert(m0.ci.contains_key(k));
            assert(ci1[k] == m0.ci[k]);
        }
    }
    assert forall|k: Seq<u8>| #[trigger] ac1.contains_key(k) implies decodes_at(m0.log, ac1[k]) && k
        == derived_ac(m0.log, ac1[k]) by {
        if exists|id: Seq<u8>| #[trigger] m0.ids.contains_key(id) && k == derived_ac(
            m0.log,
            m0.ids[id],
        ) {
            let id = choose|id: Seq<u8>| #[trigger] m0.ids.contains_key(id) && k == derived_ac(
                m0.log,
                m0.ids[id],
            );
            assert(ac1[k] == m0.ids[id]);
        } else {
            assert(m0.ac.contains_key(k));
            assert(ac1[k] == m0.ac[k]);
        }
    }
    assert forall|k: Seq<u8>| #[trigger] tc1.contains_key(k) implies decodes_at(m0.log, tc1[k])
        && exists|ti: int|
        0 <= ti < event_at(m0.log, tc1[k]).tags.len() && indexed_tag(
            #[trigger] event_at(m0.log, tc1[k]).tags[ti],
        ) && k == key_tc(
            event_at(m0.log, tc1[k]).tags[ti][0][0],
            event_at(m0.log, tc1[k]).tags[ti][1],
            event_at(m0.log, tc1[k]).created_at,
            event_at(m0.log, tc1[k]).id,
        ) by {
        if exists|id: Seq<u8>, ti: int|
            #![trigger m0.ids.contains_key(id), event_at(m0.log, m0.ids[id]).tags[ti]]
            m0.ids.contains_key(id) && 0 <= ti < event_at(m0.log, m0.ids[id]).tags.len()
                && indexed_tag(event_at(m0.log, m0.ids[id]).tags[ti]) && k == derived_tc(
                m0.log,
                m0.ids[id],
                ti,
            ) {
            let (id, ti) = choose|id: Seq<u8>, ti: int|
                #![trigger m0.ids.contains_key(id), event_at(m0.log, m0.ids[id]).tags[ti]]
                m0.ids.contains_key(id) && 0 <= ti < event_at(m0.log, m0.ids[id]).tags.len()
                    && indexed_tag(event_at(m0.log, m0.ids[id]).tags[ti]) && k == derived_tc(
                    m0.log,
                    m0.ids[id],
                    ti,
                );
            assert(tc1[k] == m0.ids[id]);
            assert(decodes_at(m0.log, m0.ids[id]));
            assert(event_at(m0.log, tc1[k]) == event_at(m0.log, m0.ids[id]));
        } else {
            assert(m0.tc.contains_key(k));
            assert(tc1[k] == m0.tc[k]);
        }
    }
}


/// The law of the write path, spelled out: an event appended at offset
/// `off` is reachable from every index under exactly its keys — by id in
/// `i_index`, by time in `ci_index`, by author in `ac_index`, and once per
/// single-byte-name tag with a value in `tc_index`.
pub proof fn lemma_append_indexes_event(m0: StoreModel, m1: StoreModel, e: EventModel, off: u64)
    requires
        m1.ids == m0.ids.insert(e.id, off),
        m1.ci == m0.ci.insert(key_ci(e.created_at, e.id), off),
        m1.ac == m0.ac.insert(key_ac(e.pubkey, e.created_at, e.id), off),
        m1.tc == tc_insert_upto(m0.tc, e, off, e.tags.len() as int),
    ensures
        m1.ids[e.id] == off,
        m1.ci[key_ci(e.created_at, e.id)] == off,
        m1.ac[key_ac(e.pubkey, e.created_at, e.id)] == off,
        forall|ti: int|
            0 <= ti < e.tags.len() && indexed_tag(#[trigger] e.tags[ti]) ==> m1.tc[key_tc(
                e.tags[ti][0][0],
                e.tags[ti][1],
                e.created_at,
                e.id,
            )] == off,
{
    lemma_tc_upto_facts(m0.tc, e, off, e.tags.len() as int);
}

/// The law of the read path, spelled out: on a coherent store, every offset
/// reachable from a secondary index dereferences to a record that decodes,
/// and the decoded fields reconstruct the index key it was found under.
pub proof fn lemma_secondary_entry_resolves(m: StoreModel, k: Seq<u8>)
    requires
        coherent(m),
    ensures
        m.ci.contains_key(k) ==> decodes_at(m.log, m.ci[k]) && k == key_ci(
            event_at(m.log, m.ci[k]).created_at,
            event_at(m.log, m.ci[k]).id,
        ),
        m.ac.contains_key(k) ==> decodes_at(m.log, m.ac[k]) && k == key_ac(
            event_at(m.log, m.ac[k]).pubkey,
            event_at(m.log, m.ac[k]).created_at,
            event_at(m.log, m.ac[k]).id,
        ),
        m.tc.contains_key(k) ==> decodes_at(m.log, m.tc[k]) && exists|ti: int|
            0 <= ti < event_at(m.log, m.tc[k]).tags.len() && indexed_tag(
                #[trigger] event_at(m.log, m.tc[k]).tags[ti],
            ) && k == key_tc(
                event_at(m.log, m.tc[k]).tags[ti][0][0],
                event_at(m.log, m.tc[k]).tags[ti][1],
                event_at(m.log, m.tc[k]).created_at,
                event_at(m.log, m.tc[k]).id,
            ),
        m.ids.contains_key(k) ==> decodes_at(m.log, m.ids[k]) && event_at(m.log, m.ids[k]).id
            == k,
{
}

} // verus!
