//! Range scans over the secondary indexes. A time window becomes a
//! contiguous key range because the creation time sits big-endian at a fixed
//! position of each key; scans dereference the offsets they find and
//! suppress tombstoned events.

use vstd::prelude::*;
use crate::bytes::{be_seq, lex_le, lex_lt, lemma_be_lt, lemma_be_lt_inv, lemma_be_seq_len,
    lemma_be_seq_injective, lemma_lex_concat, lemma_lex_irrefl, lemma_pow256_values};
use crate::codec::{decode_event, lemma_dec_event_wf};
use crate::coherence::{ac_coherent, ci_coherent, tc_coherent};
use crate::event::{Event, EventModel};
use crate::keys::{key_ac, key_ci, key_tc, make_ac_key, make_ci_key, make_tc_key, repeat_byte};
use crate::migrate::{decodes_at, derived_ac, derived_ci, event_at, lemma_key_tc_suffix};
use crate::ops::{indexed_tag, StoreError};
use crate::store::{ac_table, ci_table, deleted_table, log_table, model, tc_table, Store};

verus! {

/// All-zero and all-ones byte strings: the least and greatest suffixes of a
/// given length under the bytewise order.
pub open spec fn zeros(n: nat) -> Seq<u8> {
    Seq::new(n, |i: int| 0u8)
}

pub open spec fn ones(n: nat) -> Seq<u8> {
    Seq::new(n, |i: int| 255u8)
}

pub proof fn lemma_lex_min(s: Seq<u8>, n: nat)
    requires
        s.len() == n,
    ensures
        lex_le(zeros(n), s),
    decreases n,
{
    if n > 0 {
        if s.first() == 0 {
            lemma_lex_min(s.drop_first(), (n - 1) as nat);
            assert(zeros(n).drop_first() =~= zeros((n - 1) as nat));
            if zeros((n - 1) as nat) == s.drop_first() {
                assert forall|i: int| 0 <= i < n implies zeros(n)[i] == s[i] by {
                    if i > 0 {
                        assert(s[i] == s.drop_first()[i - 1]);
                    }
                }
                assert(zeros(n) =~= s);
            }
        }
    } else {
        assert(zeros(0) =~= s);
    }
}

pub proof fn lemma_lex_max(s: Seq<u8>, n: nat)
    requires
        s.len() == n,
    ensures
        lex_le(s, ones(n)),
    decreases n,
{
    if n > 0 {
        if s.first() == 255 {
            lemma_lex_max(s.drop_first(), (n - 1) as nat);
            assert(ones(n).drop_first() =~= ones((n - 1) as nat));
            if s.drop_first() == ones((n - 1) as nat) {
                assert forall|i: int| 0 <= i < n implies s[i] == ones(n)[i] by {
                    if i > 0 {
                        assert(s[i] == s.drop_first()[i - 1]);
                    }
                }
                assert(s =~= ones(n));
            }
        }
    } else {
        assert(s =~= ones(0));
    }
}

/// Comparing two concatenations with equal-length heads decides head first.
pub proof fn lemma_peel(a: Seq<u8>, b: Seq<u8>, s: Seq<u8>, t: Seq<u8>)
    requires
        a.len() == b.len(),
        lex_le(a + s, b + t),
    ensures
        lex_lt(a, b) || (a == b && lex_le(s, t)),
{
    lemma_lex_concat(a, b, s, t);
    if a + s == b + t {
        assert(a =~= (a + s).take(a.len() as int));
        assert(b =~= (b + t).take(b.len() as int));
        assert(s =~= (a + s).skip(a.len() as int));
        assert(t =~= (b + t).skip(b.len() as int));
    }
}

/// A key between the window bounds carries a time inside the window.
pub proof fn lemma_key_in_window(since: u64, until: u64, t: u64, id: Seq<u8>)
    requires
        id.len() == 32,
        lex_le(key_ci(since, zeros(32)), key_ci(t, id)),
        lex_le(key_ci(t, id), key_ci(until, ones(32))),
    ensures
        since <= t <= until,
{
    lemma_pow256_values();
    lemma_be_seq_len(since as int, 8);
    lemma_be_seq_len(until as int, 8);
    lemma_be_seq_len(t as int, 8);
    lemma_peel(be_seq(since as int, 8), be_seq(t as int, 8), zeros(32), id);
    if be_seq(since as int, 8) == be_seq(t as int, 8) {
        lemma_be_seq_injective(since as int, t as int, 8);
    } else {
        lemma_be_lt_inv(since as int, t as int, 8);
    }
    lemma_peel(be_seq(t as int, 8), be_seq(until as int, 8), id, ones(32));
    if be_seq(t as int, 8) == be_seq(until as int, 8) {
        lemma_be_seq_injective(t as int, until as int, 8);
    } else {
        lemma_be_lt_inv(t as int, until as int, 8);
    }
}

/// A time inside the window puts the key between the bounds.
pub proof fn lemma_window_has_key(since: u64, until: u64, t: u64, id: Seq<u8>)
    requires
        id.len() == 32,
        since <= t <= until,
    ensures
        lex_le(key_ci(since, zeros(32)), key_ci(t, id)),
        lex_le(key_ci(t, id), key_ci(until, ones(32))),
{
    lemma_pow256_values();
    lemma_be_seq_len(since as int, 8);
    lemma_be_seq_len(until as int, 8);
    lemma_be_seq_len(t as int, 8);
    lemma_lex_concat(be_seq(since as int, 8), be_seq(t as int, 8), zeros(32), id);
    lemma_lex_concat(be_seq(t as int, 8), be_seq(until as int, 8), id, ones(32));
    if since < t {
        lemma_be_lt(since as int, t as int, 8);
    } else {
        lemma_lex_min(id, 32);
    }
    if t < until {
        lemma_be_lt(t as int, until as int, 8);
    } else {
        lemma_lex_max(id, 32);
    }
}

/// Bytewise key order is time order.
pub proof fn lemma_key_order(t1: u64, id1: Seq<u8>, t2: u64, id2: Seq<u8>)
    requires
        id1.len() == 32,
        id2.len() == 32,
        lex_lt(key_ci(t1, id1), key_ci(t2, id2)),
    ensures
        t1 <= t2,
{
    lemma_pow256_values();
    lemma_be_seq_len(t1 as int, 8);
    lemma_be_seq_len(t2 as int, 8);
    lemma_lex_concat(be_seq(t1 as int, 8), be_seq(t2 as int, 8), id1, id2);
    if be_seq(t1 as int, 8) == be_seq(t2 as int, 8) {
        lemma_be_seq_injective(t1 as int, t2 as int, 8);
    } else {
        lemma_be_lt_inv(t1 as int, t2 as int, 8);
    }
}

/// The event carries the tag `name`:`value`.
pub open spec fn has_tag(e: EventModel, name: u8, value: Seq<u8>) -> bool {
    exists|ti: int|
        0 <= ti < e.tags.len() && indexed_tag(#[trigger] e.tags[ti]) && e.tags[ti][0][0] == name
            && e.tags[ti][1] == value
}

/// Runtime check for `has_tag`.
pub fn event_has_tag(e: &Event, name: u8, value: &Vec<u8>) -> (r: bool)
    ensures
        r == has_tag(e@, name, value@),
{
    let mut ti: usize = 0;
    while ti < e.tags.len()
        invariant
            ti <= e.tags@.len(),
            e@.tags.len() == e.tags@.len(),
            forall|t: int|
                0 <= t < ti ==> !(indexed_tag(#[trigger] e@.tags[t]) && e@.tags[t][0][0] == name
                    && e@.tags[t][1] == value@),
        decreases e.tags@.len() - ti,
    {
        let tag = &e.tags[ti];
        proof {
            assert(e@.tags[ti as int] == crate::event::fields_view(e.tags@[ti as int]));
        }
        if tag.len() >= 2 {
            let tname = &tag[0];
            if tname.len() == 1 && tname[0] == name {
                if crate::bytes::bytes_eq(&tag[1], value) {
                    proof {
                        assert(e@.tags[ti as int][0] == tname@);
                        assert(e@.tags[ti as int][1] == tag@[1]@);
                        assert(indexed_tag(e@.tags[ti as int]) && e@.tags[ti as int][0][0] == name
                            && e@.tags[ti as int][1] == value@);
                    }
                    return true;
                }
            }
        }
        proof {
            assert(e@.tags[ti as int][0] == tag@[0]@ || e@.tags[ti as int].len() < 1);
        }
        ti = ti + 1;
    }
    false
}


/// A key lying between two bounds that share an equal-length prefix carries
/// that prefix, and its suffix lies between the bounds' suffixes.
pub proof fn lemma_between_same_prefix(
    p: Seq<u8>,
    p2: Seq<u8>,
    s_lo: Seq<u8>,
    s2: Seq<u8>,
    s_hi: Seq<u8>,
)
    requires
        p.len() == p2.len(),
        lex_le(p + s_lo, p2 + s2),
        lex_le(p2 + s2, p + s_hi),
    ensures
        p2 == p,
        lex_le(s_lo, s2),
        lex_le(s2, s_hi),
{
    lemma_peel(p, p2, s_lo, s2);
    lemma_peel(p2, p, s2, s_hi);
    if lex_lt(p, p2) {
        if lex_lt(p2, p) {
            crate::bytes::lemma_lex_asym(p, p2);
        }
        lemma_lex_irrefl(p);
    }
    if lex_lt(p2, p) {
        lemma_lex_irrefl(p2);
    }
}

/// A dangling index entry inside the scanned range: `o` is the value of a
/// key between the bounds but holds no decodable record.
pub open spec fn corrupt_entry(
    idx: Map<Seq<u8>, u64>,
    log: Map<u64, Seq<u8>>,
    lo: Seq<u8>,
    hi: Seq<u8>,
    o: u64,
) -> bool {
    exists|k: Seq<u8>| #[trigger]
        idx.contains_key(k) && idx[k] == o && lex_le(lo, k) && lex_le(k, hi) && !decodes_at(log, o)
}

/// `ks` names, entry by entry, the index keys the returned events were
/// dereferenced from.
pub open spec fn indexed_witness(
    idx: Map<Seq<u8>, u64>,
    log: Map<u64, Seq<u8>>,
    out: Seq<Event>,
    ks: Seq<Seq<u8>>,
) -> bool {
    &&& ks.len() == out.len()
    &&& forall|j: int|
        0 <= j < out.len() ==> idx.contains_key(#[trigger] ks[j]) && decodes_at(log, idx[ks[j]])
            && out[j]@ == event_at(log, idx[ks[j]])
    &&& forall|j1: int, j2: int| 0 <= j1 < j2 < ks.len() ==> lex_lt(ks[j1], ks[j2])
}

/// What a successful time scan returns: only undeleted events inside the
/// window, each dereferenced from a `ci_index` entry; every entry whose key
/// names a time in the window and whose event passes the filters is
/// represented; and, on a coherent index, ascending by creation time.
pub open spec fn time_scan_ok(m: crate::store::StoreModel, since: u64, until: u64, out: Seq<Event>) -> bool {
    &&& forall|j: int|
        0 <= j < out.len() ==> since <= (#[trigger] out[j])@.created_at <= until
            && !m.deleted.contains(out[j]@.id)
    &&& exists|ks: Seq<Seq<u8>>| indexed_witness(m.ci, m.log, out, ks)
    &&& forall|t: u64, id: Seq<u8>|
        id.len() == 32 && since <= t <= until && #[trigger] m.ci.contains_key(key_ci(t, id))
            ==> decodes_at(m.log, m.ci[key_ci(t, id)]) && ((!m.deleted.contains(
            event_at(m.log, m.ci[key_ci(t, id)]).id,
        ) && since <= event_at(m.log, m.ci[key_ci(t, id)]).created_at <= until) ==> exists|j: int|
            0 <= j < out.len() && (#[trigger] out[j])@ == event_at(m.log, m.ci[key_ci(t, id)]))
    &&& ci_coherent(m.ci, m.log) ==> forall|j1: int, j2: int|
        0 <= j1 < j2 < out.len() ==> (#[trigger] out[j1])@.created_at <= (
        #[trigger] out[j2])@.created_at
}


/// What a successful author scan returns: only undeleted events of that
/// author inside the window, each dereferenced from an `ac_index` entry;
/// every entry keyed by the author and a window time whose event passes the
/// filters is represented; and, on a coherent index, ascending by creation
/// time.
pub open spec fn author_scan_ok(
    m: crate::store::StoreModel,
    pubkey: Seq<u8>,
    since: u64,
    until: u64,
    out: Seq<Event>,
) -> bool {
    &&& forall|j: int|
        0 <= j < out.len() ==> since <= (#[trigger] out[j])@.created_at <= until
            && !m.deleted.contains(out[j]@.id) && out[j]@.pubkey == pubkey
    &&& exists|ks: Seq<Seq<u8>>| indexed_witness(m.ac, m.log, out, ks)
    &&& forall|t: u64, id: Seq<u8>|
        id.len() == 32 && since <= t <= until && #[trigger] m.ac.contains_key(
            key_ac(pubkey, t, id),
        ) ==> decodes_at(m.log, m.ac[key_ac(pubkey, t, id)]) && ((!m.deleted.contains(
            event_at(m.log, m.ac[key_ac(pubkey, t, id)]).id,
        ) && since <= event_at(m.log, m.ac[key_ac(pubkey, t, id)]).created_at <= until && event_at(
            m.log,
            m.ac[key_ac(pubkey, t, id)],
        ).pubkey == pubkey) ==> exists|j: int|
            0 <= j < out.len() && (#[trigger] out[j])@ == event_at(
                m.log,
                m.ac[key_ac(pubkey, t, id)],
            ))
    &&& ac_coherent(m.ac, m.log) ==> forall|j1: int, j2: int|
        0 <= j1 < j2 < out.len() ==> (#[trigger] out[j1])@.created_at <= (
        #[trigger] out[j2])@.created_at
}

/// Every `tc_index` entry of the scanned byte range is keyed by exactly the
/// queried tag. A tag whose value extends the queried one can place its key
/// inside the byte range; where that does not happen, the range is exact.
pub open spec fn range_is_exact(
    tc: Map<Seq<u8>, u64>,
    name: u8,
    value: Seq<u8>,
    since: u64,
    until: u64,
) -> bool {
    forall|k: Seq<u8>| #[trigger]
        tc.contains_key(k) && lex_le(key_tc(name, value, since, zeros(32)), k) && lex_le(
            k,
            key_tc(name, value, until, ones(32)),
        ) ==> exists|t: u64, id: Seq<u8>|
            #![trigger key_tc(name, value, t, id)]
            id.len() == 32 && k == key_tc(name, value, t, id)
}

/// What a successful tag scan returns: only undeleted events inside the
/// window that carry the tag, each dereferenced from a `tc_index` entry;
/// every entry keyed by the tag and a window time whose event passes the
/// filters is represented; and, on a coherent index whose scanned range is
/// exact, ascending by creation time.
pub open spec fn tag_scan_ok(
    m: crate::store::StoreModel,
    name: u8,
    value: Seq<u8>,
    since: u64,
    until: u64,
    out: Seq<Event>,
) -> bool {
    &&& forall|j: int|
        0 <= j < out.len() ==> since <= (#[trigger] out[j])@.created_at <= until
            && !m.deleted.contains(out[j]@.id) && has_tag(out[j]@, name, value)
    &&& exists|ks: Seq<Seq<u8>>| indexed_witness(m.tc, m.log, out, ks)
    &&& forall|t: u64, id: Seq<u8>|
        id.len() == 32 && since <= t <= until && #[trigger] m.tc.contains_key(
            key_tc(name, value, t, id),
        ) ==> decodes_at(m.log, m.tc[key_tc(name, value, t, id)]) && ((!m.deleted.contains(
            event_at(m.log, m.tc[key_tc(name, value, t, id)]).id,
        ) && since <= event_at(m.log, m.tc[key_tc(name, value, t, id)]).created_at <= until
            && has_tag(event_at(m.log, m.tc[key_tc(name, value, t, id)]), name, value)) ==> exists|
            j: int,
        |
            0 <= j < out.len() && (#[trigger] out[j])@ == event_at(
                m.log,
                m.tc[key_tc(name, value, t, id)],
            ))
    &&& (tc_coherent(m.tc, m.log) && range_is_exact(m.tc, name, value, since, until)) ==> forall|
        j1: int,
        j2: int,
    |
        0 <= j1 < j2 < out.len() ==> (#[trigger] out[j1])@.created_at <= (
        #[trigger] out[j2])@.created_at
}

impl Store {
    /// Time-ordered scan: the events whose creation time lies in
    /// `[since, until]`, oldest first, tombstoned ids suppressed.
    #[verifier::loop_isolation(false)]
    #[verifier::rlimit(100)]
    pub fn scan_by_time(&self, since: u64, until: u64) -> (r: Result<Vec<Event>, StoreError>)
        ensures
            r matches Ok(out) ==> time_scan_ok(model(*self), since, until, out@),
            r matches Err(StoreError::Corrupt(o)) ==> corrupt_entry(
                ci_table(*self),
                log_table(*self),
                key_ci(since, zeros(32)),
                key_ci(until, ones(32)),
                o,
            ),
            r matches Err(e) ==> (e matches StoreError::Storage(_) || e
                matches StoreError::Corrupt(_)),
    {
        let zs = repeat_byte(0, 32);
        let fs = repeat_byte(255, 32);
        let lo = make_ci_key(since, &zs);
        let hi = make_ci_key(until, &fs);
        proof {
            assert(zs@ =~= zeros(32));
            assert(fs@ =~= ones(32));
        }
        let entries = match self.ci_range(&lo, &hi) {
            Ok(v) => v,
            Err(e) => return Err(StoreError::Storage(e)),
        };
        let mut out: Vec<Event> = Vec::new();
        let ghost mut idxs: Seq<int> = Seq::empty();
        let mut i: usize = 0;
        while i < entries.len()
            invariant
                i <= entries@.len(),
                idxs.len() == out@.len(),
                forall|j: int| 0 <= j < idxs.len() ==> 0 <= #[trigger] idxs[j] < i as int,
                forall|j1: int, j2: int| 0 <= j1 < j2 < idxs.len() ==> idxs[j1] < idxs[j2],
                forall|j: int|
                    0 <= j < out@.len() ==> decodes_at(
                        log_table(*self),
                        (#[trigger] entries@[idxs[j]]).1,
                    ) && out@[j]@ == event_at(log_table(*self), entries@[idxs[j]].1),
                forall|j: int|
                    0 <= j < out@.len() ==> since <= (#[trigger] out@[j])@.created_at <= until
                        && !deleted_table(*self).contains(out@[j]@.id),
                forall|jj: int|
                    0 <= jj < i ==> decodes_at(log_table(*self), (#[trigger] entries@[jj]).1),
                forall|jj: int|
                    0 <= jj < i ==> ((!deleted_table(*self).contains(
                        event_at(log_table(*self), (#[trigger] entries@[jj]).1).id,
                    ) && since <= event_at(log_table(*self), entries@[jj].1).created_at <= until)
                        ==> exists|j: int|
                        0 <= j < out@.len() && (#[trigger] out@[j])@ == event_at(
                            log_table(*self),
                            entries@[jj].1,
                        )),
            decreases entries@.len() - i,
        {
            let p = &entries[i];
            let off = p.1;
            let got = match self.log_get(off) {
                Ok(g) => g,
                Err(e) => return Err(StoreError::Storage(e)),
            };
            let bytes = match got {
                Some(b) => b,
                None => {
                    proof {
                        let k = entries@[i as int].0@;
                        assert(ci_table(*self).contains_key(k) && ci_table(*self)[k] == off);
                        assert(lex_le(lo@, k) && lex_le(k, hi@));
                        assert(!decodes_at(log_table(*self), off));
                        assert(corrupt_entry(ci_table(*self), log_table(*self), lo@, hi@, off));
                    }
                    return Err(StoreError::Corrupt(off));
                },
            };
            let ev = match decode_event(&bytes) {
                Some(ev) => ev,
                None => {
                    proof {
                        let k = entries@[i as int].0@;
                        assert(ci_table(*self).contains_key(k) && ci_table(*self)[k] == off);
                        assert(lex_le(lo@, k) && lex_le(k, hi@));
                        assert(!decodes_at(log_table(*self), off));
                        assert(corrupt_entry(ci_table(*self), log_table(*self), lo@, hi@, off));
                    }
                    return Err(StoreError::Corrupt(off));
                },
            };
            let del = match self.deleted_contains(&ev.id) {
                Ok(b) => b,
                Err(e) => return Err(StoreError::Storage(e)),
            };
            let ghost evm = ev@;
            let ghost out_old = out@;
            let keep = !del && since <= ev.created_at && ev.created_at <= until;
            if keep {
                out.push(ev);
                proof {
                    idxs = idxs.push(i as int);
                }
            }
            i = i + 1;
            proof {
                assert(entries@[i as int - 1].1 == off);
                assert(decodes_at(log_table(*self), off));
                assert(event_at(log_table(*self), off) == evm);
                if keep {
                    assert(out@[out@.len() - 1]@ == evm);
                    assert(idxs[idxs.len() - 1] == i as int - 1);
                }
                assert forall|jj: int|
                    0 <= jj < i && (!deleted_table(*self).contains(
                        event_at(log_table(*self), (#[trigger] entries@[jj]).1).id,
                    ) && since <= event_at(log_table(*self), entries@[jj].1).created_at
                        <= until) implies exists|j: int|
                    0 <= j < out@.len() && (#[trigger] out@[j])@ == event_at(
                        log_table(*self),
                        entries@[jj].1,
                    ) by {
                    if jj == i - 1 {
                        assert(out@[out@.len() - 1]@ == event_at(
                            log_table(*self),
                            entries@[jj].1,
                        ));
                    } else {
                        let j0 = choose|j0: int|
                            0 <= j0 < out_old.len() && (#[trigger] out_old[j0])@ == event_at(
                                log_table(*self),
                                entries@[jj].1,
                            );
                        assert(out@[j0] == out_old[j0]);
                    }
                }
            }
        }
        proof {
            let ks = Seq::new(out@.len(), |j: int| entries@[idxs[j]].0@);
            assert forall|j: int| 0 <= j < out@.len() implies model(*self).ci.contains_key(
                #[trigger] ks[j],
            ) && decodes_at(model(*self).log, model(*self).ci[ks[j]]) && out@[j]@ == event_at(
                model(*self).log,
                model(*self).ci[ks[j]],
            ) by {
                assert(model(*self).ci.contains_key(entries@[idxs[j]].0@) && model(*self).ci[
                    entries@[idxs[j]].0@
                ] == entries@[idxs[j]].1);
            }
            assert forall|j1: int, j2: int| 0 <= j1 < j2 < ks.len() implies lex_lt(
                ks[j1],
                ks[j2],
            ) by {
                assert(idxs[j1] < idxs[j2]);
                assert(lex_lt(entries@[idxs[j1]].0@, entries@[idxs[j2]].0@));
            }
            assert(indexed_witness(model(*self).ci, model(*self).log, out@, ks));
            assert forall|t: u64, id: Seq<u8>|
                id.len() == 32 && since <= t <= until && #[trigger] model(*self).ci.contains_key(
                    key_ci(t, id),
                ) implies decodes_at(model(*self).log, model(*self).ci[key_ci(t, id)]) && ((!model(*self).deleted.contains(
                event_at(model(*self).log, model(*self).ci[key_ci(t, id)]).id,
            ) && since <= event_at(model(*self).log, model(*self).ci[key_ci(t, id)]).created_at <= until) ==> exists|
                j: int,
            |
                0 <= j < out@.len() && (#[trigger] out@[j])@ == event_at(
                    model(*self).log,
                    model(*self).ci[key_ci(t, id)],
                )) by {
                lemma_window_has_key(since, until, t, id);
                let jj = choose|jj: int|
                    0 <= jj < entries@.len() && (#[trigger] entries@[jj]).0@ == key_ci(t, id);
                assert(entries@[jj].1 == model(*self).ci[key_ci(t, id)]);
            }
            if ci_coherent(model(*self).ci, model(*self).log) {
                assert forall|j1: int, j2: int| 0 <= j1 < j2 < out@.len() implies (
                #[trigger] out@[j1])@.created_at <= (#[trigger] out@[j2])@.created_at by {
                    let k1 = entries@[idxs[j1]].0@;
                    let k2 = entries@[idxs[j2]].0@;
                    assert(model(*self).ci.contains_key(k1) && model(*self).ci[k1] == entries@[idxs[j1]].1);
                    assert(model(*self).ci.contains_key(k2) && model(*self).ci[k2] == entries@[idxs[j2]].1);
                    assert(k1 == derived_ci(model(*self).log, model(*self).ci[k1]));
                    assert(k2 == derived_ci(model(*self).log, model(*self).ci[k2]));
                    lemma_dec_event_wf(model(*self).log[model(*self).ci[k1]]);
                    lemma_dec_event_wf(model(*self).log[model(*self).ci[k2]]);
                    assert(lex_lt(k1, k2));
                    lemma_key_order(
                        out@[j1]@.created_at,
                        out@[j1]@.id,
                        out@[j2]@.created_at,
                        out@[j2]@.id,
                    );
                }
            }
            assert(time_scan_ok(model(*self), since, until, out@));
        }
        Ok(out)
    }

    /// Author scan: the events of `pubkey` whose creation time lies in
    /// `[since, until]`, oldest first, tombstoned ids suppressed.
    #[verifier::loop_isolation(false)]
    #[verifier::rlimit(100)]
    pub fn scan_by_author(&self, pubkey: &Vec<u8>, since: u64, until: u64) -> (r: Result<
        Vec<Event>,
        StoreError,
    >)
        requires
            pubkey@.len() == 32,
        ensures
            r matches Ok(out) ==> author_scan_ok(model(*self), pubkey@, since, until, out@),
            r matches Err(StoreError::Corrupt(o)) ==> corrupt_entry(
                ac_table(*self),
                log_table(*self),
                key_ac(pubkey@, since, zeros(32)),
                key_ac(pubkey@, until, ones(32)),
                o,
            ),
            r matches Err(e) ==> (e matches StoreError::Storage(_) || e
                matches StoreError::Corrupt(_)),
    {
        let zs = repeat_byte(0, 32);
        let fs = repeat_byte(255, 32);
        let lo = make_ac_key(pubkey, since, &zs);
        let hi = make_ac_key(pubkey, until, &fs);
        proof {
            assert(zs@ =~= zeros(32));
            assert(fs@ =~= ones(32));
            assert(lo@ =~= pubkey@ + key_ci(since, zeros(32)));
            assert(hi@ =~= pubkey@ + key_ci(until, ones(32)));
        }
        let entries = match self.ac_range(&lo, &hi) {
            Ok(v) => v,
            Err(e) => return Err(StoreError::Storage(e)),
        };
        let mut out: Vec<Event> = Vec::new();
        let ghost mut idxs: Seq<int> = Seq::empty();
        let mut i: usize = 0;
        while i < entries.len()
            invariant
                i <= entries@.len(),
                idxs.len() == out@.len(),
                forall|j: int| 0 <= j < idxs.len() ==> 0 <= #[trigger] idxs[j] < i as int,
                forall|j1: int, j2: int| 0 <= j1 < j2 < idxs.len() ==> idxs[j1] < idxs[j2],
                forall|j: int|
                    0 <= j < out@.len() ==> decodes_at(
                        log_table(*self),
                        (#[trigger] entries@[idxs[j]]).1,
                    ) && out@[j]@ == event_at(log_table(*self), entries@[idxs[j]].1),
                forall|j: int|
                    0 <= j < out@.len() ==> since <= (#[trigger] out@[j])@.created_at <= until
                        && !deleted_table(*self).contains(out@[j]@.id) && out@[j]@.pubkey
                        == pubkey@,
                forall|jj: int|
                    0 <= jj < i ==> decodes_at(log_table(*self), (#[trigger] entries@[jj]).1),
                forall|jj: int|
                    0 <= jj < i ==> ((!deleted_table(*self).contains(
                        event_at(log_table(*self), (#[trigger] entries@[jj]).1).id,
                    ) && since <= event_at(log_table(*self), entries@[jj].1).created_at <= until
                        && event_at(log_table(*self), entries@[jj].1).pubkey == pubkey@)
                        ==> exists|j: int|
                        0 <= j < out@.len() && (#[trigger] out@[j])@ == event_at(
                            log_table(*self),
                            entries@[jj].1,
                        )),
            decreases entries@.len() - i,
        {
            let p = &entries[i];
            let off = p.1;
            let got = match self.log_get(off) {
                Ok(g) => g,
                Err(e) => return Err(StoreError::Storage(e)),
            };
            let bytes = match got {
                Some(b) => b,
                None => {
                    proof {
                        let k = entries@[i as int].0@;
                        assert(ac_table(*self).contains_key(k) && ac_table(*self)[k] == off);
                        assert(lex_le(lo@, k) && lex_le(k, hi@));
                        assert(!decodes_at(log_table(*self), off));
                        assert(corrupt_entry(ac_table(*self), log_table(*self), lo@, hi@, off));
                    }
                    return Err(StoreError::Corrupt(off));
                },
            };
            let ev = match decode_event(&bytes) {
                Some(ev) => ev,
                None => {
                    proof {
                        let k = entries@[i as int].0@;
                        assert(ac_table(*self).contains_key(k) && ac_table(*self)[k] == off);
                        assert(lex_le(lo@, k) && lex_le(k, hi@));
                        assert(!decodes_at(log_table(*self), off));
                        assert(corrupt_entry(ac_table(*self), log_table(*self), lo@, hi@, off));
                    }
                    return Err(StoreError::Corrupt(off));
                },
            };
            let del = match self.deleted_contains(&ev.id) {
                Ok(b) => b,
                Err(e) => return Err(StoreError::Storage(e)),
            };
            let ghost evm = ev@;
            let ghost out_old = out@;
            let keep = !del && since <= ev.created_at && ev.created_at <= until
                && crate::bytes::bytes_eq(&ev.pubkey, pubkey);
            if keep {
                out.push(ev);
                proof {
                    idxs = idxs.push(i as int);
                }
            }
            i = i + 1;
            proof {
                assert(entries@[i as int - 1].1 == off);
                assert(decodes_at(log_table(*self), off));
                assert(event_at(log_table(*self), off) == evm);
                if keep {
                    assert(out@[out@.len() - 1]@ == evm);
                    assert(idxs[idxs.len() - 1] == i as int - 1);
                }
                assert forall|jj: int|
                    0 <= jj < i && (!deleted_table(*self).contains(
                        event_at(log_table(*self), (#[trigger] entries@[jj]).1).id,
                    ) && since <= event_at(log_table(*self), entries@[jj].1).created_at <= until
                        && event_at(log_table(*self), entries@[jj].1).pubkey
                        == pubkey@) implies exists|j: int|
                    0 <= j < out@.len() && (#[trigger] out@[j])@ == event_at(
                        log_table(*self),
                        entries@[jj].1,
                    ) by {
                    if jj == i - 1 {
                        assert(out@[out@.len() - 1]@ == event_at(
                            log_table(*self),
                            entries@[jj].1,
                        ));
                    } else {
                        let j0 = choose|j0: int|
                            0 <= j0 < out_old.len() && (#[trigger] out_old[j0])@ == event_at(
                                log_table(*self),
                                entries@[jj].1,
                            );
                        assert(out@[j0] == out_old[j0]);
                    }
                }
            }
        }
        proof {
            let ks = Seq::new(out@.len(), |j: int| entries@[idxs[j]].0@);
            assert forall|j: int| 0 <= j < out@.len() implies model(*self).ac.contains_key(
                #[trigger] ks[j],
            ) && decodes_at(model(*self).log, model(*self).ac[ks[j]]) && out@[j]@ == event_at(
                model(*self).log,
                model(*self).ac[ks[j]],
            ) by {
                assert(model(*self).ac.contains_key(entries@[idxs[j]].0@) && model(*self).ac[
                    entries@[idxs[j]].0@
                ] == entries@[idxs[j]].1);
            }
            assert forall|j1: int, j2: int| 0 <= j1 < j2 < ks.len() implies lex_lt(
                ks[j1],
                ks[j2],
            ) by {
                assert(idxs[j1] < idxs[j2]);
                assert(lex_lt(entries@[idxs[j1]].0@, entries@[idxs[j2]].0@));
            }
            assert(indexed_witness(model(*self).ac, model(*self).log, out@, ks));
            assert forall|t: u64, id: Seq<u8>|
                id.len() == 32 && since <= t <= until && #[trigger] model(*self).ac.contains_key(
                    key_ac(pubkey@, t, id),
                ) implies decodes_at(model(*self).log, model(*self).ac[key_ac(pubkey@, t, id)]) && (
            (!model(*self).deleted.contains(
                event_at(model(*self).log, model(*self).ac[key_ac(pubkey@, t, id)]).id,
            ) && since <= event_at(
                model(*self).log,
                model(*self).ac[key_ac(pubkey@, t, id)],
            ).created_at <= until && event_at(
                model(*self).log,
                model(*self).ac[key_ac(pubkey@, t, id)],
            ).pubkey == pubkey@) ==> exists|j: int|
                0 <= j < out@.len() && (#[trigger] out@[j])@ == event_at(
                    model(*self).log,
                    model(*self).ac[key_ac(pubkey@, t, id)],
                )) by {
                lemma_window_has_key(since, until, t, id);
                assert(key_ac(pubkey@, t, id) =~= pubkey@ + key_ci(t, id));
                lemma_lex_concat(pubkey@, pubkey@, key_ci(since, zeros(32)), key_ci(t, id));
                lemma_lex_concat(pubkey@, pubkey@, key_ci(t, id), key_ci(until, ones(32)));
                assert(lex_le(lo@, key_ac(pubkey@, t, id)));
                assert(lex_le(key_ac(pubkey@, t, id), hi@));
                let jj = choose|jj: int|
                    0 <= jj < entries@.len() && (#[trigger] entries@[jj]).0@ == key_ac(
                        pubkey@,
                        t,
                        id,
                    );
                assert(entries@[jj].1 == model(*self).ac[key_ac(pubkey@, t, id)]);
            }
            if ac_coherent(model(*self).ac, model(*self).log) {
                assert forall|j1: int, j2: int| 0 <= j1 < j2 < out@.len() implies (
                #[trigger] out@[j1])@.created_at <= (#[trigger] out@[j2])@.created_at by {
                    let k1 = entries@[idxs[j1]].0@;
                    let k2 = entries@[idxs[j2]].0@;
                    assert(model(*self).ac.contains_key(k1) && model(*self).ac[k1] == entries@[
                        idxs[j1]
                    ].1);
                    assert(model(*self).ac.contains_key(k2) && model(*self).ac[k2] == entries@[
                        idxs[j2]
                    ].1);
                    assert(k1 == derived_ac(model(*self).log, model(*self).ac[k1]));
                    assert(k2 == derived_ac(model(*self).log, model(*self).ac[k2]));
                    lemma_dec_event_wf(model(*self).log[model(*self).ac[k1]]);
                    lemma_dec_event_wf(model(*self).log[model(*self).ac[k2]]);
                    let e1 = event_at(model(*self).log, model(*self).ac[k1]);
                    let e2 = event_at(model(*self).log, model(*self).ac[k2]);
                    assert(k1 =~= e1.pubkey + key_ci(e1.created_at, e1.id));
                    assert(k2 =~= e2.pubkey + key_ci(e2.created_at, e2.id));
                    lemma_between_same_prefix(
                        pubkey@,
                        e1.pubkey,
                        key_ci(since, zeros(32)),
                        key_ci(e1.created_at, e1.id),
                        key_ci(until, ones(32)),
                    );
                    lemma_between_same_prefix(
                        pubkey@,
                        e2.pubkey,
                        key_ci(since, zeros(32)),
                        key_ci(e2.created_at, e2.id),
                        key_ci(until, ones(32)),
                    );
                    assert(lex_lt(k1, k2));
                    lemma_lex_concat(
                        e1.pubkey,
                        e2.pubkey,
                        key_ci(e1.created_at, e1.id),
                        key_ci(e2.created_at, e2.id),
                    );
                    if lex_lt(e1.pubkey, e2.pubkey) {
                        lemma_lex_irrefl(e1.pubkey);
                    }
                    lemma_key_order(e1.created_at, e1.id, e2.created_at, e2.id);
                }
            }
            assert(author_scan_ok(model(*self), pubkey@, since, until, out@));
        }
        Ok(out)
    }

    /// Tag scan: the events carrying the tag `name`:`value` whose creation
    /// time lies in `[since, until]`, tombstoned ids suppressed. Only tags
    /// with a single-byte name are indexed, so only those can be asked for.
    #[verifier::loop_isolation(false)]
    #[verifier::rlimit(100)]
    pub fn scan_by_tag(&self, name: u8, value: &Vec<u8>, since: u64, until: u64) -> (r: Result<
        Vec<Event>,
        StoreError,
    >)
        ensures
            r matches Ok(out) ==> tag_scan_ok(model(*self), name, value@, since, until, out@),
            r matches Err(StoreError::Corrupt(o)) ==> corrupt_entry(
                tc_table(*self),
                log_table(*self),
                key_tc(name, value@, since, zeros(32)),
                key_tc(name, value@, until, ones(32)),
                o,
            ),
            r matches Err(e) ==> (e matches StoreError::Storage(_) || e
                matches StoreError::Corrupt(_)),
    {
        let zs = repeat_byte(0, 32);
        let fs = repeat_byte(255, 32);
        let lo = make_tc_key(name, value, since, &zs);
        let hi = make_tc_key(name, value, until, &fs);
        proof {
            assert(zs@ =~= zeros(32));
            assert(fs@ =~= ones(32));
            assert(lo@ =~= (seq![name] + value@) + key_ci(since, zeros(32)));
            assert(hi@ =~= (seq![name] + value@) + key_ci(until, ones(32)));
        }
        let entries = match self.tc_range(&lo, &hi) {
            Ok(v) => v,
            Err(e) => return Err(StoreError::Storage(e)),
        };
        let mut out: Vec<Event> = Vec::new();
        let ghost mut idxs: Seq<int> = Seq::empty();
        let mut i: usize = 0;
        while i < entries.len()
            invariant
                i <= entries@.len(),
                idxs.len() == out@.len(),
                forall|j: int| 0 <= j < idxs.len() ==> 0 <= #[trigger] idxs[j] < i as int,
                forall|j1: int, j2: int| 0 <= j1 < j2 < idxs.len() ==> idxs[j1] < idxs[j2],
                forall|j: int|
                    0 <= j < out@.len() ==> decodes_at(
                        log_table(*self),
                        (#[trigger] entries@[idxs[j]]).1,
                    ) && out@[j]@ == event_at(log_table(*self), entries@[idxs[j]].1),
                forall|j: int|
                    0 <= j < out@.len() ==> since <= (#[trigger] out@[j])@.created_at <= until
                        && !deleted_table(*self).contains(out@[j]@.id) && has_tag(
                        out@[j]@,
                        name,
                        value@,
                    ),
                forall|jj: int|
                    0 <= jj < i ==> decodes_at(log_table(*self), (#[trigger] entries@[jj]).1),
                forall|jj: int|
                    0 <= jj < i ==> ((!deleted_table(*self).contains(
                        event_at(log_table(*self), (#[trigger] entries@[jj]).1).id,
                    ) && since <= event_at(log_table(*self), entries@[jj].1).created_at <= until
                        && has_tag(event_at(log_table(*self), entries@[jj].1), name, value@))
                        ==> exists|j: int|
                        0 <= j < out@.len() && (#[trigger] out@[j])@ == event_at(
                            log_table(*self),
                            entries@[jj].1,
                        )),
            decreases entries@.len() - i,
        {
            let p = &entries[i];
            let off = p.1;
            let got = match self.log_get(off) {
                Ok(g) => g,
                Err(e) => return Err(StoreError::Storage(e)),
            };
            let bytes = match got {
                Some(b) => b,
                None => {
                    proof {
                        let k = entries@[i as int].0@;
                        assert(tc_table(*self).contains_key(k) && tc_table(*self)[k] == off);
                        assert(lex_le(lo@, k) && lex_le(k, hi@));
                        assert(!decodes_at(log_table(*self), off));
                        assert(corrupt_entry(tc_table(*self), log_table(*self), lo@, hi@, off));
                    }
                    return Err(StoreError::Corrupt(off));
                },
            };
            let ev = match decode_event(&bytes) {
                Some(ev) => ev,
                None => {
                    proof {
                        let k = entries@[i as int].0@;
                        assert(tc_table(*self).contains_key(k) && tc_table(*self)[k] == off);
                        assert(lex_le(lo@, k) && lex_le(k, hi@));
                        assert(!decodes_at(log_table(*self), off));
                        assert(corrupt_entry(tc_table(*self), log_table(*self), lo@, hi@, off));
                    }
                    return Err(StoreError::Corrupt(off));
                },
            };
            let del = match self.deleted_contains(&ev.id) {
                Ok(b) => b,
                Err(e) => return Err(StoreError::Storage(e)),
            };
            let ghost evm = ev@;
            let ghost out_old = out@;
            let keep = !del && since <= ev.created_at && ev.created_at <= until && event_has_tag(
                &ev,
                name,
                value,
            );
            if keep {
                out.push(ev);
                proof {
                    idxs = idxs.push(i as int);
                }
            }
            i = i + 1;
            proof {
                assert(entries@[i as int - 1].1 == off);
                assert(decodes_at(log_table(*self), off));
                assert(event_at(log_table(*self), off) == evm);
                if keep {
                    assert(out@[out@.len() - 1]@ == evm);
                    assert(idxs[idxs.len() - 1] == i as int - 1);
                }
                assert forall|jj: int|
                    0 <= jj < i && (!deleted_table(*self).contains(
                        event_at(log_table(*self), (#[trigger] entries@[jj]).1).id,
                    ) && since <= event_at(log_table(*self), entries@[jj].1).created_at <= until
                        && has_tag(event_at(log_table(*self), entries@[jj].1), name, value@))
                    implies exists|j: int|
                    0 <= j < out@.len() && (#[trigger] out@[j])@ == event_at(
                        log_table(*self),
                        entries@[jj].1,
                    ) by {
                    if jj == i - 1 {
                        assert(out@[out@.len() - 1]@ == event_at(
                            log_table(*self),
                            entries@[jj].1,
                        ));
                    } else {
                        let j0 = choose|j0: int|
                            0 <= j0 < out_old.len() && (#[trigger] out_old[j0])@ == event_at(
                                log_table(*self),
                                entries@[jj].1,
                            );
                        assert(out@[j0] == out_old[j0]);
                    }
                }
            }
        }
        proof {
            let ks = Seq::new(out@.len(), |j: int| entries@[idxs[j]].0@);
            assert forall|j: int| 0 <= j < out@.len() implies model(*self).tc.contains_key(
                #[trigger] ks[j],
            ) && decodes_at(model(*self).log, model(*self).tc[ks[j]]) && out@[j]@ == event_at(
                model(*self).log,
                model(*self).tc[ks[j]],
            ) by {
                assert(model(*self).tc.contains_key(entries@[idxs[j]].0@) && model(*self).tc[
                    entries@[idxs[j]].0@
                ] == entries@[idxs[j]].1);
            }
            assert forall|j1: int, j2: int| 0 <= j1 < j2 < ks.len() implies lex_lt(
                ks[j1],
                ks[j2],
            ) by {
                assert(idxs[j1] < idxs[j2]);
                assert(lex_lt(entries@[idxs[j1]].0@, entries@[idxs[j2]].0@));
            }
            assert(indexed_witness(model(*self).tc, model(*self).log, out@, ks));
            assert forall|t: u64, id: Seq<u8>|
                id.len() == 32 && since <= t <= until && #[trigger] model(*self).tc.contains_key(
                    key_tc(name, value@, t, id),
                ) implies decodes_at(model(*self).log, model(*self).tc[key_tc(name, value@, t, id)])
                && ((!model(*self).deleted.contains(
                event_at(model(*self).log, model(*self).tc[key_tc(name, value@, t, id)]).id,
            ) && since <= event_at(
                model(*self).log,
                model(*self).tc[key_tc(name, value@, t, id)],
            ).created_at <= until && has_tag(
                event_at(model(*self).log, model(*self).tc[key_tc(name, value@, t, id)]),
                name,
                value@,
            )) ==> exists|j: int|
                0 <= j < out@.len() && (#[trigger] out@[j])@ == event_at(
                    model(*self).log,
                    model(*self).tc[key_tc(name, value@, t, id)],
                )) by {
                lemma_window_has_key(since, until, t, id);
                assert(key_tc(name, value@, t, id) =~= (seq![name] + value@) + key_ci(t, id));
                lemma_lex_concat(
                    seq![name] + value@,
                    seq![name] + value@,
                    key_ci(since, zeros(32)),
                    key_ci(t, id),
                );
                lemma_lex_concat(
                    seq![name] + value@,
                    seq![name] + value@,
                    key_ci(t, id),
                    key_ci(until, ones(32)),
                );
                assert(lex_le(lo@, key_tc(name, value@, t, id)));
                assert(lex_le(key_tc(name, value@, t, id), hi@));
                let jj = choose|jj: int|
                    0 <= jj < entries@.len() && (#[trigger] entries@[jj]).0@ == key_tc(
                        name,
                        value@,
                        t,
                        id,
                    );
                assert(entries@[jj].1 == model(*self).tc[key_tc(name, value@, t, id)]);
            }
            if tc_coherent(model(*self).tc, model(*self).log) && range_is_exact(
                model(*self).tc,
                name,
                value@,
                since,
                until,
            ) {
                assert forall|j1: int, j2: int| 0 <= j1 < j2 < out@.len() implies (
                #[trigger] out@[j1])@.created_at <= (#[trigger] out@[j2])@.created_at by {
                    let k1 = entries@[idxs[j1]].0@;
                    let k2 = entries@[idxs[j2]].0@;
                    assert(model(*self).tc.contains_key(k1) && model(*self).tc[k1] == entries@[
                        idxs[j1]
                    ].1);
                    assert(model(*self).tc.contains_key(k2) && model(*self).tc[k2] == entries@[
                        idxs[j2]
                    ].1);
                    assert(lex_le(lo@, k1) && lex_le(k1, hi@));
                    assert(lex_le(lo@, k2) && lex_le(k2, hi@));
                    let (t1, id1) = choose|t: u64, id: Seq<u8>|
                        #![trigger key_tc(name, value@, t, id)]
                        id.len() == 32 && k1 == key_tc(name, value@, t, id);
                    let (t2, id2) = choose|t: u64, id: Seq<u8>|
                        #![trigger key_tc(name, value@, t, id)]
                        id.len() == 32 && k2 == key_tc(name, value@, t, id);
                    let e1 = event_at(model(*self).log, model(*self).tc[k1]);
                    let e2 = event_at(model(*self).log, model(*self).tc[k2]);
                    let ti1 = choose|ti: int|
                        0 <= ti < e1.tags.len() && indexed_tag(#[trigger] e1.tags[ti]) && k1
                            == key_tc(e1.tags[ti][0][0], e1.tags[ti][1], e1.created_at, e1.id);
                    let ti2 = choose|ti: int|
                        0 <= ti < e2.tags.len() && indexed_tag(#[trigger] e2.tags[ti]) && k2
                            == key_tc(e2.tags[ti][0][0], e2.tags[ti][1], e2.created_at, e2.id);
                    lemma_dec_event_wf(model(*self).log[model(*self).tc[k1]]);
                    lemma_dec_event_wf(model(*self).log[model(*self).tc[k2]]);
                    lemma_key_tc_suffix(
                        name,
                        value@,
                        t1,
                        id1,
                        e1.tags[ti1][0][0],
                        e1.tags[ti1][1],
                        e1.created_at,
                        e1.id,
                    );
                    lemma_key_tc_suffix(
                        name,
                        value@,
                        t2,
                        id2,
                        e2.tags[ti2][0][0],
                        e2.tags[ti2][1],
                        e2.created_at,
                        e2.id,
                    );
                    assert(t1 == e1.created_at && t2 == e2.created_at);
                    assert(out@[j1]@ == e1 && out@[j2]@ == e2);
                    let p = seq![name] + value@;
                    assert(k1 =~= p + key_ci(t1, id1));
                    assert(k2 =~= p + key_ci(t2, id2));
                    assert(lex_lt(k1, k2));
                    lemma_lex_concat(p, p, key_ci(t1, id1), key_ci(t2, id2));
                    if lex_lt(p, p) {
                        lemma_lex_irrefl(p);
                    }
                    lemma_key_order(t1, id1, t2, id2);
                }
            }
            assert(tag_scan_ok(model(*self), name, value@, since, until, out@));
        }
        Ok(out)
    }
}

} // verus!
