//! The unit of storage: a signed nostr record with an id, an author key, a
//! creation time, a kind, a list of tags and an opaque payload, together with
//! the byte encoding under which it sits in the append-only log.

use vstd::prelude::*;
use crate::bytes::{be_seq, pow256};

verus! {

/// An event as the storage core sees it. `id` and `pubkey` are 32-byte
/// strings; each tag is an ordered list of byte strings whose first element
/// is the tag name.
pub struct Event {
    pub id: Vec<u8>,
    pub pubkey: Vec<u8>,
    pub created_at: u64,
    pub kind: u64,
    pub tags: Vec<Vec<Vec<u8>>>,
    pub content: Vec<u8>,
}

/// The mathematical shape of an event.
pub ghost struct EventModel {
    pub id: Seq<u8>,
    pub pubkey: Seq<u8>,
    pub created_at: u64,
    pub kind: u64,
    pub tags: Seq<Seq<Seq<u8>>>,
    pub content: Seq<u8>,
}

pub open spec fn fields_view(t: Vec<Vec<u8>>) -> Seq<Seq<u8>> {
    Seq::new(t@.len(), |i: int| t@[i]@)
}

pub open spec fn tags_view(ts: Vec<Vec<Vec<u8>>>) -> Seq<Seq<Seq<u8>>> {
    Seq::new(ts@.len(), |i: int| fields_view(ts@[i]))
}

impl View for Event {
    type V = EventModel;

    open spec fn view(&self) -> EventModel {
        EventModel {
            id: self.id@,
            pubkey: self.pubkey@,
            created_at: self.created_at,
            kind: self.kind,
            tags: tags_view(self.tags),
            content: self.content@,
        }
    }
}

impl EventModel {
    /// Well-formed: the fixed-width fields have their widths, and every
    /// variable-length piece fits the eight-byte length prefixes of the
    /// encoding.
    pub open spec fn wf(self) -> bool {
        &&& self.id.len() == 32
        &&& self.pubkey.len() == 32
        &&& self.tags.len() < pow256(8)
        &&& forall|i: int|
            0 <= i < self.tags.len() ==> (#[trigger] self.tags[i]).len() < pow256(8)
        &&& forall|i: int, j: int|
            0 <= i < self.tags.len() && 0 <= j < self.tags[i].len() ==> (#[trigger] self.tags[i][j]).len()
                < pow256(8)
        &&& self.content.len() < pow256(8)
    }
}

impl Event {
    /// Runtime check for the only well-formedness conditions a caller could
    /// get wrong: the id and pubkey widths. The length bounds hold of every
    /// in-memory vector.
    pub fn is_wf(&self) -> (r: bool)
        ensures
            r == self@.wf(),
    {
        let r = self.id.len() == 32 && self.pubkey.len() == 32;
        proof {
            crate::bytes::lemma_pow256_values();
            vstd::std_specs::vec::axiom_spec_len(&self.tags);
            assert forall|i: int| 0 <= i < self@.tags.len() implies (#[trigger] self@.tags[i]).len()
                < pow256(8) by {
                vstd::std_specs::vec::axiom_spec_len(&self.tags@[i]);
                assert(self@.tags[i].len() == self.tags@[i]@.len());
            }
            assert forall|i: int, j: int|
                0 <= i < self@.tags.len() && 0 <= j < self@.tags[i].len() implies (
            #[trigger] self@.tags[i][j]).len() < pow256(8) by {
                vstd::std_specs::vec::axiom_spec_len(&self.tags@[i]@[j]);
                assert(self@.tags[i][j] == self.tags@[i]@[j]@);
            }
            vstd::std_specs::vec::axiom_spec_len(&self.content);
        }
        r
    }
}

/// One length-prefixed byte string.
pub open spec fn enc_field(f: Seq<u8>) -> Seq<u8> {
    be_seq(f.len() as int, 8) + f
}

/// A run of length-prefixed byte strings.
pub open spec fn enc_fields(fs: Seq<Seq<u8>>) -> Seq<u8>
    decreases fs.len(),
{
    if fs.len() == 0 {
        Seq::empty()
    } else {
        enc_field(fs.first()) + enc_fields(fs.drop_first())
    }
}

/// One tag: its field count, then its fields.
pub open spec fn enc_tag(t: Seq<Seq<u8>>) -> Seq<u8> {
    be_seq(t.len() as int, 8) + enc_fields(t)
}

/// A run of tags.
pub open spec fn enc_tags(ts: Seq<Seq<Seq<u8>>>) -> Seq<u8>
    decreases ts.len(),
{
    if ts.len() == 0 {
        Seq::empty()
    } else {
        enc_tag(ts.first()) + enc_tags(ts.drop_first())
    }
}

/// The byte encoding of an event in the log: the two 32-byte keys, the three
/// eight-byte integers (creation time, kind, tag count), the tags, then the
/// length-prefixed payload.
pub open spec fn enc_event(e: EventModel) -> Seq<u8> {
    e.id + e.pubkey + be_seq(e.created_at as int, 8) + be_seq(e.kind as int, 8) + be_seq(
        e.tags.len() as int,
        8,
    ) + enc_tags(e.tags) + enc_field(e.content)
}

pub proof fn lemma_enc_fields_concat(a: Seq<Seq<u8>>, b: Seq<Seq<u8>>)
    ensures
        enc_fields(a + b) == enc_fields(a) + enc_fields(b),
    decreases a.len(),
{
    if a.len() == 0 {
        assert(a + b =~= b);
        assert(enc_fields(a) + enc_fields(b) =~= enc_fields(b));
    } else {
        assert((a + b).first() == a.first());
        assert((a + b).drop_first() =~= a.drop_first() + b);
        lemma_enc_fields_concat(a.drop_first(), b);
        assert(enc_field(a.first()) + (enc_fields(a.drop_first()) + enc_fields(b)) =~= (enc_field(
            a.first(),
        ) + enc_fields(a.drop_first())) + enc_fields(b));
    }
}

pub proof fn lemma_enc_tags_concat(a: Seq<Seq<Seq<u8>>>, b: Seq<Seq<Seq<u8>>>)
    ensures
        enc_tags(a + b) == enc_tags(a) + enc_tags(b),
    decreases a.len(),
{
    if a.len() == 0 {
        assert(a + b =~= b);
        assert(enc_tags(a) + enc_tags(b) =~= enc_tags(b));
    } else {
        assert((a + b).first() == a.first());
        assert((a + b).drop_first() =~= a.drop_first() + b);
        lemma_enc_tags_concat(a.drop_first(), b);
        assert(enc_tag(a.first()) + (enc_tags(a.drop_first()) + enc_tags(b)) =~= (enc_tag(
            a.first(),
        ) + enc_tags(a.drop_first())) + enc_tags(b));
    }
}

} // verus!
