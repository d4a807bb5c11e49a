//! The byte codec for log records: executable encode and decode, a
//! specification-level parser, and the proof that decoding inverts encoding.
//!
//! The log stores `enc_event` bytes; every secondary index stores only an
//! offset into the log, so reads always come back through `decode_event`.

use vstd::prelude::*;
use crate::bytes::{be_seq, from_be, pow256, lemma_be_seq_len, lemma_from_be_be_seq,
    lemma_pow256_values, read_be8_at, u64_to_be8};
use crate::event::{enc_event, enc_field, enc_fields, enc_tag, enc_tags, fields_view, tags_view,
    Event, EventModel, lemma_enc_fields_concat, lemma_enc_tags_concat};

verus! {

/// Parses `n` length-prefixed byte strings, returning them and the rest of
/// the input.
pub open spec fn dec_fields(b: Seq<u8>, n: nat) -> Option<(Seq<Seq<u8>>, Seq<u8>)>
    decreases n,
{
    if n == 0 {
        Some((Seq::empty(), b))
    } else if b.len() < 8 {
        None
    } else {
        let l = from_be(b.take(8));
        if 0 <= l && l + 8 <= b.len() {
            let f = b.subrange(8, 8 + l);
            match dec_fields(b.skip(8 + l), (n - 1) as nat) {
                Some(q) => Some((seq![f] + q.0, q.1)),
                None => None,
            }
        } else {
            None
        }
    }
}

/// Parses `n` tags, each a field count followed by that many fields.
pub open spec fn dec_tags(b: Seq<u8>, n: nat) -> Option<(Seq<Seq<Seq<u8>>>, Seq<u8>)>
    decreases n,
{
    if n == 0 {
        Some((Seq::empty(), b))
    } else if b.len() < 8 {
        None
    } else {
        let c = from_be(b.take(8));
        if 0 <= c {
            match dec_fields(b.skip(8), c as nat) {
                Some(q) => match dec_tags(q.1, (n - 1) as nat) {
                    Some(q2) => Some((seq![q.0] + q2.0, q2.1)),
                    None => None,
                },
                None => None,
            }
        } else {
            None
        }
    }
}

/// Parses a whole log record; `None` when the bytes are not an encoding.
pub open spec fn dec_event(b: Seq<u8>) -> Option<EventModel> {
    if b.len() < 88 {
        None
    } else {
        let created = from_be(b.subrange(64, 72));
        let kind = from_be(b.subrange(72, 80));
        let n = from_be(b.subrange(80, 88));
        match dec_tags(b.skip(88), n as nat) {
            Some(q) => {
                let rest = q.1;
                if rest.len() >= 8 {
                    let cl = from_be(rest.take(8));
                    if 0 <= cl && 8 + cl == rest.len() {
                        Some(
                            EventModel {
                                id: b.subrange(0, 32),
                                pubkey: b.subrange(32, 64),
                                created_at: created as u64,
                                kind: kind as u64,
                                tags: q.0,
                                content: rest.skip(8),
                            },
                        )
                    } else {
                        None
                    }
                } else {
                    None
                }
            },
            None => None,
        }
    }
}

pub proof fn lemma_from_be_bound(s: Seq<u8>)
    ensures
        0 <= from_be(s) < pow256(s.len()),
    decreases s.len(),
{
    if s.len() == 0 {
    } else {
        lemma_from_be_bound(s.drop_last());
        let p = pow256((s.len() - 1) as nat);
        assert(pow256(s.len()) == 256 * p);
        assert(from_be(s.drop_last()) * 256 + s.last() < 256 * p) by (nonlinear_arith)
            requires
                from_be(s.drop_last()) < p,
                0 <= from_be(s.drop_last()),
                s.last() < 256;
        assert(from_be(s.drop_last()) * 256 >= 0) by (nonlinear_arith)
            requires from_be(s.drop_last()) >= 0;
    }
}

/// Splitting a concatenation at the length of its left part.
pub proof fn lemma_split(a: Seq<u8>, b: Seq<u8>)
    ensures
        (a + b).take(a.len() as int) == a,
        (a + b).skip(a.len() as int) == b,
        (a + b).len() == a.len() + b.len(),
{
    assert((a + b).take(a.len() as int) =~= a);
    assert((a + b).skip(a.len() as int) =~= b);
}

/// Decoding inverts encoding for a run of fields, whatever follows it.
pub proof fn lemma_dec_fields_enc(fs: Seq<Seq<u8>>, rest: Seq<u8>)
    requires
        forall|i: int| 0 <= i < fs.len() ==> (#[trigger] fs[i]).len() < pow256(8),
    ensures
        dec_fields(enc_fields(fs) + rest, fs.len()) == Some((fs, rest)),
    decreases fs.len(),
{
    if fs.len() == 0 {
        assert(enc_fields(fs) + rest =~= rest);
        assert(fs =~= Seq::<Seq<u8>>::empty());
    } else {
        let f0 = fs.first();
        let fs1 = fs.drop_first();
        let l0 = f0.len() as int;
        let b = enc_fields(fs) + rest;
        lemma_be_seq_len(l0, 8);
        assert(b =~= be_seq(l0, 8) + (f0 + (enc_fields(fs1) + rest)));
        lemma_split(be_seq(l0, 8), f0 + (enc_fields(fs1) + rest));
        assert(b.take(8) == be_seq(l0, 8));
        assert(fs[0] == f0);
        lemma_from_be_be_seq(l0, 8);
        assert(from_be(b.take(8)) == l0);
        assert(b.len() >= 8 + l0);
        assert(b.subrange(8, 8 + l0) =~= f0);
        assert(b.skip(8 + l0) =~= enc_fields(fs1) + rest);
        assert forall|i: int| 0 <= i < fs1.len() implies (#[trigger] fs1[i]).len() < pow256(8) by {
            assert(fs1[i] == fs[i + 1]);
        }
        lemma_dec_fields_enc(fs1, rest);
        assert(seq![f0] + fs1 =~= fs);
    }
}

/// Decoding inverts encoding for a run of tags, whatever follows it.
pub proof fn lemma_dec_tags_enc(ts: Seq<Seq<Seq<u8>>>, rest: Seq<u8>)
    requires
        forall|i: int| 0 <= i < ts.len() ==> (#[trigger] ts[i]).len() < pow256(8),
        forall|i: int, j: int|
            0 <= i < ts.len() && 0 <= j < ts[i].len() ==> (#[trigger] ts[i][j]).len() < pow256(8),
    ensures
        dec_tags(enc_tags(ts) + rest, ts.len()) == Some((ts, rest)),
    decreases ts.len(),
{
    if ts.len() == 0 {
        assert(enc_tags(ts) + rest =~= rest);
        assert(ts =~= Seq::<Seq<Seq<u8>>>::empty());
    } else {
        let t0 = ts.first();
        let ts1 = ts.drop_first();
        let c0 = t0.len() as int;
        let b = enc_tags(ts) + rest;
        lemma_be_seq_len(c0, 8);
        assert(b =~= be_seq(c0, 8) + (enc_fields(t0) + (enc_tags(ts1) + rest)));
        lemma_split(be_seq(c0, 8), enc_fields(t0) + (enc_tags(ts1) + rest));
        assert(b.take(8) == be_seq(c0, 8));
        assert(ts[0] == t0);
        lemma_from_be_be_seq(c0, 8);
        assert(from_be(b.take(8)) == c0);
        assert(b.skip(8) =~= enc_fields(t0) + (enc_tags(ts1) + rest));
        assert forall|j: int| 0 <= j < t0.len() implies (#[trigger] t0[j]).len() < pow256(8) by {
            assert(t0[j] == ts[0][j]);
        }
        lemma_dec_fields_enc(t0, enc_tags(ts1) + rest);
        assert forall|i: int| 0 <= i < ts1.len() implies (#[trigger] ts1[i]).len() < pow256(8) by {
            assert(ts1[i] == ts[i + 1]);
        }
        assert forall|i: int, j: int|
            0 <= i < ts1.len() && 0 <= j < ts1[i].len() implies (#[trigger] ts1[i][j]).len()
            < pow256(8) by {
            assert(ts1[i] == ts[i + 1]);
        }
        lemma_dec_tags_enc(ts1, rest);
        assert(b.len() >= 8);
        assert(seq![t0] + ts1 =~= ts);
    }
}

/// Decoding inverts encoding: the round trip through the log is exact.
pub proof fn lemma_dec_enc(e: EventModel)
    requires
        e.wf(),
    ensures
        dec_event(enc_event(e)) == Some(e),
{
    lemma_pow256_values();
    let a = be_seq(e.created_at as int, 8);
    let k = be_seq(e.kind as int, 8);
    let c = be_seq(e.tags.len() as int, 8);
    let t = enc_tags(e.tags);
    let f = enc_field(e.content);
    let b = enc_event(e);
    lemma_be_seq_len(e.created_at as int, 8);
    lemma_be_seq_len(e.kind as int, 8);
    lemma_be_seq_len(e.tags.len() as int, 8);
    lemma_be_seq_len(e.content.len() as int, 8);
    let hd = e.id + e.pubkey + a + k + c;
    assert(hd.len() == 88);
    assert(b =~= hd + (t + f));
    lemma_split(hd, t + f);
    assert(b.len() >= 88);
    assert(b.subrange(0, 32) =~= e.id);
    assert(b.subrange(32, 64) =~= e.pubkey);
    assert(b.subrange(64, 72) =~= a);
    assert(b.subrange(72, 80) =~= k);
    assert(b.subrange(80, 88) =~= c);
    lemma_from_be_be_seq(e.created_at as int, 8);
    lemma_from_be_be_seq(e.kind as int, 8);
    lemma_from_be_be_seq(e.tags.len() as int, 8);
    assert(from_be(b.subrange(64, 72)) == e.created_at as int);
    assert(from_be(b.subrange(72, 80)) == e.kind as int);
    assert(from_be(b.subrange(80, 88)) == e.tags.len() as int);
    assert(b.skip(88) =~= t + f);
    lemma_dec_tags_enc(e.tags, f);
    // the tail after the tags is the length-prefixed content
    lemma_split(be_seq(e.content.len() as int, 8), e.content);
    assert(f.take(8) == be_seq(e.content.len() as int, 8));
    lemma_from_be_be_seq(e.content.len() as int, 8);
    assert(from_be(f.take(8)) == e.content.len() as int);
    assert(f.len() == 8 + e.content.len());
    assert(f.skip(8) == e.content);
    assert(dec_event(b) == Some(e));
}


/// Parsed fields are as many as asked for, each shorter than the length
/// prefix can name.
pub proof fn lemma_dec_fields_wf(b: Seq<u8>, n: nat)
    ensures
        dec_fields(b, n) matches Some(q) ==> q.0.len() == n && (forall|i: int|
            0 <= i < q.0.len() ==> (#[trigger] q.0[i]).len() < pow256(8)),
    decreases n,
{
    if n == 0 {
    } else if b.len() < 8 {
    } else {
        let l = from_be(b.take(8));
        lemma_from_be_bound(b.take(8));
        if 0 <= l && l + 8 <= b.len() {
            lemma_dec_fields_wf(b.skip(8 + l), (n - 1) as nat);
            match dec_fields(b.skip(8 + l), (n - 1) as nat) {
                Some(q) => {
                    let f = b.subrange(8, 8 + l);
                    assert forall|i: int| 0 <= i < (seq![f] + q.0).len() implies (#[trigger] (
                    seq![f] + q.0)[i]).len() < pow256(8) by {
                        if i > 0 {
                            assert((seq![f] + q.0)[i] == q.0[i - 1]);
                        }
                    }
                },
                None => {},
            }
        }
    }
}

/// Parsed tags are as many as asked for, with every count and length under
/// the eight-byte prefix bound.
pub proof fn lemma_dec_tags_wf(b: Seq<u8>, n: nat)
    ensures
        dec_tags(b, n) matches Some(q) ==> q.0.len() == n && (forall|i: int|
            0 <= i < q.0.len() ==> (#[trigger] q.0[i]).len() < pow256(8)) && (forall|
            i: int,
            j: int,
        |
            0 <= i < q.0.len() && 0 <= j < q.0[i].len() ==> (#[trigger] q.0[i][j]).len() < pow256(
                8,
            )),
    decreases n,
{
    if n == 0 {
    } else if b.len() < 8 {
    } else {
        let c = from_be(b.take(8));
        lemma_from_be_bound(b.take(8));
        if 0 <= c {
            lemma_dec_fields_wf(b.skip(8), c as nat);
            match dec_fields(b.skip(8), c as nat) {
                Some(q) => {
                    lemma_dec_tags_wf(q.1, (n - 1) as nat);
                    match dec_tags(q.1, (n - 1) as nat) {
                        Some(q2) => {
                            let ts = seq![q.0] + q2.0;
                            assert forall|i: int| 0 <= i < ts.len() implies (#[trigger] ts[i]).len()
                                < pow256(8) by {
                                if i > 0 {
                                    assert(ts[i] == q2.0[i - 1]);
                                }
                            }
                            assert forall|i: int, j: int|
                                0 <= i < ts.len() && 0 <= j < ts[i].len() implies (
                            #[trigger] ts[i][j]).len() < pow256(8) by {
                                if i > 0 {
                                    assert(ts[i] == q2.0[i - 1]);
                                }
                            }
                        },
                        None => {},
                    }
                },
                None => {},
            }
        }
    }
}

/// Whatever decodes is well formed: width and length bounds come with the
/// encoding.
pub proof fn lemma_dec_event_wf(b: Seq<u8>)
    ensures
        dec_event(b) matches Some(e) ==> e.wf(),
{
    if b.len() >= 88 {
        let n = from_be(b.subrange(80, 88));
        lemma_from_be_bound(b.subrange(80, 88));
        lemma_dec_tags_wf(b.skip(88), n as nat);
        match dec_tags(b.skip(88), n as nat) {
            Some(q) => {
                let rest = q.1;
                if rest.len() >= 8 {
                    lemma_from_be_bound(rest.take(8));
                }
            },
            None => {},
        }
    }
}

/// Copies `b[from..to]` out of the log bytes.
pub fn copy_range(b: &Vec<u8>, from: usize, to: usize) -> (r: Vec<u8>)
    requires
        from <= to <= b@.len(),
    ensures
        r@ == b@.subrange(from as int, to as int),
{
    let mut r: Vec<u8> = Vec::new();
    let mut i: usize = from;
    while i < to
        invariant
            from <= i <= to <= b@.len(),
            r@ == b@.subrange(from as int, i as int),
        decreases to - i,
    {
        r.push(b[i]);
        i = i + 1;
        proof {
            assert(b@.subrange(from as int, i as int) =~= b@.subrange(
                from as int,
                i as int - 1,
            ).push(b@[i as int - 1]));
        }
    }
    r
}

/// Appends `src` to `out`.
pub(crate) fn append_bytes(out: &mut Vec<u8>, src: &Vec<u8>)
    ensures
        final(out)@ == old(out)@ + src@,
{
    let mut i: usize = 0;
    while i < src.len()
        invariant
            i <= src@.len(),
            out@ == old(out)@ + src@.take(i as int),
        decreases src@.len() - i,
    {
        out.push(src[i]);
        i = i + 1;
        proof {
            assert(old(out)@ + src@.take(i as int) =~= (old(out)@ + src@.take(i as int - 1)).push(
                src@[i as int - 1],
            ));
        }
    }
    proof {
        assert(src@.take(src@.len() as int) =~= src@);
    }
}

/// Appends one length-prefixed byte string.
fn encode_field_onto(out: &mut Vec<u8>, f: &Vec<u8>)
    ensures
        final(out)@ == old(out)@ + enc_field(f@),
{
    let lb = u64_to_be8(f.len() as u64);
    append_bytes(out, &lb);
    append_bytes(out, f);
    proof {
        assert(out@ =~= old(out)@ + (lb@ + f@));
    }
}

/// Appends a run of length-prefixed byte strings.
fn encode_fields_onto(out: &mut Vec<u8>, fs: &Vec<Vec<u8>>)
    ensures
        final(out)@ == old(out)@ + enc_fields(fields_view(*fs)),
{
    let fv = Ghost(fields_view(*fs));
    let mut i: usize = 0;
    while i < fs.len()
        invariant
            i <= fs@.len(),
            fv@ == fields_view(*fs),
            fv@.len() == fs@.len(),
            out@ == old(out)@ + enc_fields(fv@.take(i as int)),
        decreases fs@.len() - i,
    {
        encode_field_onto(out, &fs[i]);
        i = i + 1;
        proof {
            let pre = fv@.take(i as int - 1);
            let one = seq![fv@[i as int - 1]];
            lemma_enc_fields_concat(pre, one);
            assert(pre + one =~= fv@.take(i as int));
            assert(one.drop_first() =~= Seq::<Seq<u8>>::empty());
            assert(enc_fields(Seq::<Seq<u8>>::empty()) == Seq::<u8>::empty());
            assert(enc_field(one.first()) + Seq::<u8>::empty() =~= enc_field(one.first()));
            assert(enc_fields(one) =~= enc_field(fv@[i as int - 1]));
            assert(out@ =~= old(out)@ + (enc_fields(pre) + enc_fields(one)));
        }
    }
    proof {
        assert(fv@.take(fv@.len() as int) =~= fv@);
    }
}

/// Appends one tag: its field count, then its fields.
fn encode_tag_onto(out: &mut Vec<u8>, t: &Vec<Vec<u8>>)
    ensures
        final(out)@ == old(out)@ + enc_tag(fields_view(*t)),
{
    let lb = u64_to_be8(t.len() as u64);
    append_bytes(out, &lb);
    encode_fields_onto(out, t);
    proof {
        assert(fields_view(*t).len() == t@.len());
        assert(out@ =~= old(out)@ + (lb@ + enc_fields(fields_view(*t))));
    }
}

/// Appends a run of tags.
fn encode_tags_onto(out: &mut Vec<u8>, ts: &Vec<Vec<Vec<u8>>>)
    ensures
        final(out)@ == old(out)@ + enc_tags(tags_view(*ts)),
{
    let tv = Ghost(tags_view(*ts));
    let mut i: usize = 0;
    while i < ts.len()
        invariant
            i <= ts@.len(),
            tv@ == tags_view(*ts),
            tv@.len() == ts@.len(),
            out@ == old(out)@ + enc_tags(tv@.take(i as int)),
        decreases ts@.len() - i,
    {
        encode_tag_onto(out, &ts[i]);
        i = i + 1;
        proof {
            let pre = tv@.take(i as int - 1);
            let one = seq![tv@[i as int - 1]];
            lemma_enc_tags_concat(pre, one);
            assert(pre + one =~= tv@.take(i as int));
            assert(one.drop_first() =~= Seq::<Seq<Seq<u8>>>::empty());
            assert(enc_tags(Seq::<Seq<Seq<u8>>>::empty()) == Seq::<u8>::empty());
            assert(enc_tag(one.first()) + Seq::<u8>::empty() =~= enc_tag(one.first()));
            assert(enc_tags(one) =~= enc_tag(tv@[i as int - 1]));
            assert(out@ =~= old(out)@ + (enc_tags(pre) + enc_tags(one)));
        }
    }
    proof {
        assert(tv@.take(tv@.len() as int) =~= tv@);
    }
}

/// Serializes an event into the byte form the log stores.
pub fn encode_event(e: &Event) -> (r: Vec<u8>)
    ensures
        r@ == enc_event(e@),
{
    let mut out: Vec<u8> = Vec::new();
    append_bytes(&mut out, &e.id);
    append_bytes(&mut out, &e.pubkey);
    let created = u64_to_be8(e.created_at);
    append_bytes(&mut out, &created);
    let kind = u64_to_be8(e.kind);
    append_bytes(&mut out, &kind);
    let ntags = u64_to_be8(e.tags.len() as u64);
    append_bytes(&mut out, &ntags);
    encode_tags_onto(&mut out, &e.tags);
    encode_field_onto(&mut out, &e.content);
    proof {
        assert(tags_view(e.tags).len() == e.tags@.len());
        assert(out@ =~= enc_event(e@));
    }
    out
}

/// Parses `count` length-prefixed byte strings starting at `pos0`, returning
/// them and the position after them, exactly as the specification parser
/// does.
fn decode_fields_at(b: &Vec<u8>, pos0: usize, count: u64) -> (r: Option<(Vec<Vec<u8>>, usize)>)
    requires
        pos0 <= b@.len(),
    ensures
        r matches Some(p) ==> pos0 <= p.1 <= b@.len() && dec_fields(
            b@.skip(pos0 as int),
            count as nat,
        ) == Some((fields_view(p.0), b@.skip(p.1 as int))),
        r is None ==> dec_fields(b@.skip(pos0 as int), count as nat) is None,
{
    let n = b.len();
    let mut acc: Vec<Vec<u8>> = Vec::new();
    let mut pos: usize = pos0;
    let mut j: u64 = 0;
    while j < count
        invariant
            pos0 <= pos <= n,
            n == b@.len(),
            j <= count,
            dec_fields(b@.skip(pos0 as int), count as nat) == (match dec_fields(
                b@.skip(pos as int),
                (count - j) as nat,
            ) {
                Some(q) => Some((fields_view(acc) + q.0, q.1)),
                None => None::<(Seq<Seq<u8>>, Seq<u8>)>,
            }),
        decreases count - j,
    {
        let ghost rem = b@.skip(pos as int);
        let ghost m = (count - j) as nat;
        assert(rem.len() == n - pos);
        if n - pos < 8 {
            assert(dec_fields(rem, m) is None);
            return None;
        }
        let l = read_be8_at(b, pos);
        proof {
            assert(rem.take(8) =~= b@.subrange(pos as int, pos as int + 8));
            lemma_from_be_bound(rem.take(8));
            assert(from_be(rem.take(8)) == l as int);
        }
        if ((n - pos - 8) as u64) < l {
            assert(!(l as int + 8 <= rem.len()));
            assert(dec_fields(rem, m) is None);
            return None;
        }
        let flen = l as usize;
        let f = copy_range(b, pos + 8, pos + 8 + flen);
        proof {
            assert(rem.subrange(8, 8 + l as int) =~= b@.subrange(
                pos as int + 8,
                pos as int + 8 + l as int,
            ));
            assert(rem.skip(8 + l as int) =~= b@.skip(pos as int + 8 + l as int));
        }
        let ghost fv_old = fields_view(acc);
        acc.push(f);
        pos = pos + 8 + flen;
        j = j + 1;
        proof {
            assert(fields_view(acc) =~= fv_old + seq![f@]);
            let inner = dec_fields(b@.skip(pos as int), (count - j) as nat);
            assert(dec_fields(rem, m) == (match inner {
                Some(q) => Some((seq![f@] + q.0, q.1)),
                None => None::<(Seq<Seq<u8>>, Seq<u8>)>,
            }));
            match inner {
                Some(q) => {
                    assert(fv_old + (seq![f@] + q.0) =~= (fv_old + seq![f@]) + q.0);
                },
                None => {},
            }
        }
    }
    proof {
        assert(dec_fields(b@.skip(pos as int), 0) == Some(
            (Seq::<Seq<u8>>::empty(), b@.skip(pos as int)),
        ));
        assert(fields_view(acc) + Seq::<Seq<u8>>::empty() =~= fields_view(acc));
    }
    Some((acc, pos))
}

/// Parses `count` tags starting at `pos0`.
fn decode_tags_at(b: &Vec<u8>, pos0: usize, count: u64) -> (r: Option<(Vec<Vec<Vec<u8>>>, usize)>)
    requires
        pos0 <= b@.len(),
    ensures
        r matches Some(p) ==> pos0 <= p.1 <= b@.len() && dec_tags(
            b@.skip(pos0 as int),
            count as nat,
        ) == Some((tags_view(p.0), b@.skip(p.1 as int))),
        r is None ==> dec_tags(b@.skip(pos0 as int), count as nat) is None,
{
    let n = b.len();
    let mut acc: Vec<Vec<Vec<u8>>> = Vec::new();
    let mut pos: usize = pos0;
    let mut j: u64 = 0;
    while j < count
        invariant
            pos0 <= pos <= n,
            n == b@.len(),
            j <= count,
            dec_tags(b@.skip(pos0 as int), count as nat) == (match dec_tags(
                b@.skip(pos as int),
                (count - j) as nat,
            ) {
                Some(q) => Some((tags_view(acc) + q.0, q.1)),
                None => None::<(Seq<Seq<Seq<u8>>>, Seq<u8>)>,
            }),
        decreases count - j,
    {
        let ghost rem = b@.skip(pos as int);
        let ghost m = (count - j) as nat;
        assert(rem.len() == n - pos);
        if n - pos < 8 {
            assert(dec_tags(rem, m) is None);
            return None;
        }
        let c = read_be8_at(b, pos);
        proof {
            assert(rem.take(8) =~= b@.subrange(pos as int, pos as int + 8));
            lemma_from_be_bound(rem.take(8));
            assert(from_be(rem.take(8)) == c as int);
            assert(rem.skip(8) =~= b@.skip(pos as int + 8));
        }
        let fields = decode_fields_at(b, pos + 8, c);
        match fields {
            None => {
                assert(dec_fields(b@.skip(pos as int + 8), c as nat) is None);
                assert(dec_tags(rem, m) is None);
                return None;
            },
            Some(p) => {
                let (t, newpos) = p;
                let ghost tv_old = tags_view(acc);
                acc.push(t);
                pos = newpos;
                j = j + 1;
                proof {
                    assert(tags_view(acc) =~= tv_old + seq![fields_view(t)]);
                    let inner = dec_tags(b@.skip(pos as int), (count - j) as nat);
                    assert(dec_tags(rem, m) == (match inner {
                        Some(q) => Some((seq![fields_view(t)] + q.0, q.1)),
                        None => None::<(Seq<Seq<Seq<u8>>>, Seq<u8>)>,
                    }));
                    match inner {
                        Some(q) => {
                            assert(tv_old + (seq![fields_view(t)] + q.0) =~= (tv_old + seq![
                                fields_view(t),
                            ]) + q.0);
                        },
                        None => {},
                    }
                }
            },
        }
    }
    proof {
        assert(dec_tags(b@.skip(pos as int), 0) == Some(
            (Seq::<Seq<Seq<u8>>>::empty(), b@.skip(pos as int)),
        ));
        assert(tags_view(acc) + Seq::<Seq<Seq<u8>>>::empty() =~= tags_view(acc));
    }
    Some((acc, pos))
}

/// Deserializes a log record; returns `None` exactly when the bytes are not
/// the encoding of any event.
pub fn decode_event(b: &Vec<u8>) -> (r: Option<Event>)
    ensures
        r matches Some(ev) ==> dec_event(b@) == Some(ev@),
        r is None ==> dec_event(b@) is None,
{
    let n = b.len();
    if n < 88 {
        return None;
    }
    let id = copy_range(b, 0, 32);
    let pubkey = copy_range(b, 32, 64);
    let created = read_be8_at(b, 64);
    let kind = read_be8_at(b, 72);
    let ntags = read_be8_at(b, 80);
    proof {
        lemma_from_be_bound(b@.subrange(64, 72));
        lemma_from_be_bound(b@.subrange(72, 80));
        lemma_from_be_bound(b@.subrange(80, 88));
    }
    let parsed = decode_tags_at(b, 88, ntags);
    match parsed {
        None => {
            proof {
                assert(dec_tags(b@.skip(88), ntags as nat) is None);
            }
            None
        },
        Some(p) => {
            let (tags, pos) = p;
            let ghost rest = b@.skip(pos as int);
            if n - pos < 8 {
                proof {
                    assert(rest.len() < 8);
                }
                return None;
            }
            let cl = read_be8_at(b, pos);
            proof {
                assert(rest.take(8) =~= b@.subrange(pos as int, pos as int + 8));
                lemma_from_be_bound(rest.take(8));
                assert(from_be(rest.take(8)) == cl as int);
            }
            if cl != (n - pos - 8) as u64 {
                proof {
                    assert(rest.len() == n - pos);
                    assert(!(8 + cl as int == rest.len()));
                }
                return None;
            }
            let content = copy_range(b, pos + 8, n);
            proof {
                assert(rest.skip(8) =~= b@.subrange(pos as int + 8, n as int));
            }
            let ev = Event { id, pubkey, created_at: created, kind, tags, content };
            proof {
                assert(ev@.id == b@.subrange(0, 32));
                assert(ev@.pubkey == b@.subrange(32, 64));
                assert(ev@.created_at as int == from_be(b@.subrange(64, 72)));
                assert(ev@.kind as int == from_be(b@.subrange(72, 80)));
                assert(dec_event(b@) == Some(ev@));
            }
            Some(ev)
        },
    }
}

} // verus!
