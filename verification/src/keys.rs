//! Composite index keys. Each secondary index keys its entries by a
//! concatenation of fixed-width big-endian integers and raw byte strings;
//! because the store compares keys bytewise, the big-endian creation time
//! makes a time range a contiguous key range.

use vstd::prelude::*;
use crate::bytes::{be_seq, u64_to_be8};
use crate::codec::append_bytes;

verus! {

/// `ci_index` key: `BE8(created_at) ‖ id`.
pub open spec fn key_ci(created_at: u64, id: Seq<u8>) -> Seq<u8> {
    be_seq(created_at as int, 8) + id
}

/// `ac_index` key: `pubkey ‖ BE8(created_at) ‖ id`.
pub open spec fn key_ac(pubkey: Seq<u8>, created_at: u64, id: Seq<u8>) -> Seq<u8> {
    pubkey + be_seq(created_at as int, 8) + id
}

/// `tc_index` key: `tag_name ‖ tag_value ‖ BE8(created_at) ‖ id`.
pub open spec fn key_tc(name: u8, value: Seq<u8>, created_at: u64, id: Seq<u8>) -> Seq<u8> {
    seq![name] + value + be_seq(created_at as int, 8) + id
}

pub fn make_ci_key(created_at: u64, id: &Vec<u8>) -> (r: Vec<u8>)
    ensures
        r@ == key_ci(created_at, id@),
{
    let mut r = u64_to_be8(created_at);
    append_bytes(&mut r, id);
    r
}

pub fn make_ac_key(pubkey: &Vec<u8>, created_at: u64, id: &Vec<u8>) -> (r: Vec<u8>)
    ensures
        r@ == key_ac(pubkey@, created_at, id@),
{
    let mut r: Vec<u8> = Vec::new();
    append_bytes(&mut r, pubkey);
    let ts = u64_to_be8(created_at);
    append_bytes(&mut r, &ts);
    append_bytes(&mut r, id);
    proof {
        assert(r@ =~= key_ac(pubkey@, created_at, id@));
    }
    r
}

pub fn make_tc_key(name: u8, value: &Vec<u8>, created_at: u64, id: &Vec<u8>) -> (r: Vec<u8>)
    ensures
        r@ == key_tc(name, value@, created_at, id@),
{
    let mut r: Vec<u8> = Vec::new();
    r.push(name);
    append_bytes(&mut r, value);
    let ts = u64_to_be8(created_at);
    append_bytes(&mut r, &ts);
    append_bytes(&mut r, id);
    proof {
        assert(r@ =~= key_tc(name, value@, created_at, id@));
    }
    r
}

/// `n` copies of one byte, for the open ends of a range scan.
pub fn repeat_byte(b: u8, n: usize) -> (r: Vec<u8>)
    ensures
        r@ == Seq::new(n as nat, |i: int| b),
{
    let mut r: Vec<u8> = Vec::new();
    let mut i: usize = 0;
    while i < n
        invariant
            i <= n,
            r@ == Seq::new(i as nat, |j: int| b),
        decreases n - i,
    {
        r.push(b);
        i = i + 1;
        proof {
            assert(r@ =~= Seq::new(i as nat, |j: int| b));
        }
    }
    r
}

} // verus!
