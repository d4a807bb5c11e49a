//! Big-endian integer encodings and the lexicographic order on byte strings.
//!
//! Every index key in the store is a concatenation of fixed-width big-endian
//! integers and raw byte strings, compared bytewise by the underlying store;
//! this module states what those encodings are and proves the ordering facts
//! the scan contracts rest on.

use vstd::prelude::*;
use vstd::arithmetic::div_mod::lemma_fundamental_div_mod;

verus! {

/// 256^k.
pub open spec fn pow256(k: nat) -> int
    decreases k,
{
    if k == 0 {
        1
    } else {
        256 * pow256((k - 1) as nat)
    }
}

/// The `n`-byte big-endian encoding of `x` (most significant byte first).
pub open spec fn be_seq(x: int, n: nat) -> Seq<u8>
    decreases n,
{
    if n == 0 {
        Seq::empty()
    } else {
        be_seq(x / 256, (n - 1) as nat).push((x % 256) as u8)
    }
}

/// The unsigned integer a big-endian byte string denotes.
pub open spec fn from_be(s: Seq<u8>) -> int
    decreases s.len(),
{
    if s.len() == 0 {
        0
    } else {
        from_be(s.drop_last()) * 256 + s.last()
    }
}

pub proof fn lemma_pow256_pos(k: nat)
    ensures
        pow256(k) >= 1,
    decreases k,
{
    if k > 0 {
        lemma_pow256_pos((k - 1) as nat);
    }
}

pub proof fn lemma_pow256_mono(a: nat, b: nat)
    requires
        a <= b,
    ensures
        pow256(a) <= pow256(b),
    decreases b,
{
    if a < b {
        lemma_pow256_mono(a, (b - 1) as nat);
        lemma_pow256_pos((b - 1) as nat);
    }
}

/// The constants the executable code needs, spelled out once.
pub proof fn lemma_pow256_values()
    ensures
        pow256(0) == 1,
        pow256(1) == 0x100,
        pow256(2) == 0x10000,
        pow256(3) == 0x1000000,
        pow256(4) == 0x100000000,
        pow256(5) == 0x10000000000,
        pow256(6) == 0x1000000000000,
        pow256(7) == 0x100000000000000,
        pow256(8) == 0x10000000000000000,
{
    assert(pow256(0) == 1);
    assert(pow256(1) == 0x100);
    assert(pow256(2) == 0x10000);
    assert(pow256(3) == 0x1000000);
    assert(pow256(4) == 0x100000000);
    assert(pow256(5) == 0x10000000000);
    assert(pow256(6) == 0x1000000000000);
    assert(pow256(7) == 0x100000000000000);
    assert(pow256(8) == 0x10000000000000000);
}

pub proof fn lemma_be_seq_len(x: int, n: nat)
    ensures
        be_seq(x, n).len() == n,
    decreases n,
{
    if n > 0 {
        lemma_be_seq_len(x / 256, (n - 1) as nat);
    }
}

/// Division bound: `x < 256 * p` gives `x / 256 < p`.
proof fn lemma_div_bound(x: int, p: int)
    requires
        0 <= x,
        x < 256 * p,
    ensures
        0 <= x / 256 < p,
{
    lemma_fundamental_div_mod(x, 256);
    assert(0 <= x / 256) by (nonlinear_arith)
        requires 0 <= x, x == 256 * (x / 256) + x % 256, 0 <= x % 256 < 256;
    assert(x / 256 < p) by (nonlinear_arith)
        requires x < 256 * p, x == 256 * (x / 256) + x % 256, 0 <= x % 256 < 256;
}

/// Each byte of an encoding, written as a quotient of the integer.
pub proof fn lemma_be_seq_index(x: int, n: nat, i: int)
    requires
        0 <= x,
        0 <= i < n,
    ensures
        be_seq(x, n)[i] == ((x / pow256((n - 1 - i) as nat)) % 256) as u8,
    decreases n,
{
    lemma_be_seq_len(x / 256, (n - 1) as nat);
    if i == n - 1 {
        assert(pow256(0) == 1);
        assert(x / 1 == x);
        assert(be_seq(x, n)[i] == (x % 256) as u8);
    } else {
        lemma_fundamental_div_mod(x, 256);
        assert(0 <= x / 256) by (nonlinear_arith)
            requires 0 <= x, x == 256 * (x / 256) + x % 256, 0 <= x % 256 < 256;
        lemma_be_seq_index(x / 256, (n - 1) as nat, i);
        assert(be_seq(x, n)[i] == be_seq(x / 256, (n - 1) as nat)[i]);
        let k = (n - 2 - i) as nat;
        lemma_pow256_pos(k);
        // (x / 256) / 256^k == x / 256^(k+1)
        vstd::arithmetic::div_mod::lemma_div_denominator(x, 256, pow256(k));
        assert(pow256((k + 1) as nat) == 256 * pow256(k));
        assert((n - 1 - i) as nat == (k + 1) as nat);
    }
}

/// Reading back a big-endian encoding recovers the integer.
pub proof fn lemma_from_be_be_seq(x: int, n: nat)
    requires
        0 <= x < pow256(n),
    ensures
        from_be(be_seq(x, n)) == x,
    decreases n,
{
    if n == 0 {
    } else {
        let m = (n - 1) as nat;
        let q = x / 256;
        let r = x % 256;
        lemma_fundamental_div_mod(x, 256);
        lemma_div_bound(x, pow256(m));
        lemma_from_be_be_seq(q, m);
        lemma_be_seq_len(q, m);
        assert(be_seq(x, n).drop_last() =~= be_seq(q, m));
        assert(be_seq(x, n).last() == (r as u8));
        assert(from_be(be_seq(x, n)) == q * 256 + r);
        assert(q * 256 == 256 * q) by (nonlinear_arith);
    }
}

/// Big-endian encodings are injective over their range.
pub proof fn lemma_be_seq_injective(x: int, y: int, n: nat)
    requires
        0 <= x < pow256(n),
        0 <= y < pow256(n),
        be_seq(x, n) == be_seq(y, n),
    ensures
        x == y,
{
    lemma_from_be_be_seq(x, n);
    lemma_from_be_be_seq(y, n);
}

/// Strict lexicographic order on byte strings, as a key-ordered store
/// compares keys: a proper prefix sorts before its extensions.
pub open spec fn lex_lt(a: Seq<u8>, b: Seq<u8>) -> bool
    decreases a.len(),
{
    if b.len() == 0 {
        false
    } else if a.len() == 0 {
        true
    } else if a.first() < b.first() {
        true
    } else if a.first() > b.first() {
        false
    } else {
        lex_lt(a.drop_first(), b.drop_first())
    }
}

pub open spec fn lex_le(a: Seq<u8>, b: Seq<u8>) -> bool {
    lex_lt(a, b) || a == b
}

pub proof fn lemma_lex_irrefl(a: Seq<u8>)
    ensures
        !lex_lt(a, a),
    decreases a.len(),
{
    if a.len() > 0 {
        lemma_lex_irrefl(a.drop_first());
    }
}

pub proof fn lemma_lex_asym(a: Seq<u8>, b: Seq<u8>)
    requires
        lex_lt(a, b),
    ensures
        !lex_lt(b, a),
    decreases a.len(),
{
    if a.len() > 0 && b.len() > 0 && a.first() == b.first() {
        lemma_lex_asym(a.drop_first(), b.drop_first());
    }
}

/// Comparing equal-length prefixes decides the order of concatenations.
pub proof fn lemma_lex_concat(a: Seq<u8>, b: Seq<u8>, s: Seq<u8>, t: Seq<u8>)
    requires
        a.len() == b.len(),
    ensures
        lex_lt(a + s, b + t) <==> (lex_lt(a, b) || (a == b && lex_lt(s, t))),
    decreases a.len(),
{
    if a.len() == 0 {
        assert(a + s =~= s);
        assert(b + t =~= t);
        assert(a =~= b);
    } else {
        assert((a + s).first() == a.first());
        assert((b + t).first() == b.first());
        if a.first() == b.first() {
            assert((a + s).drop_first() =~= a.drop_first() + s);
            assert((b + t).drop_first() =~= b.drop_first() + t);
            lemma_lex_concat(a.drop_first(), b.drop_first(), s, t);
            if a.drop_first() == b.drop_first() && a.first() == b.first() {
                assert forall|i: int| 0 <= i < a.len() implies a[i] == b[i] by {
                    if i > 0 {
                        assert(a[i] == a.drop_first()[i - 1]);
                        assert(b[i] == b.drop_first()[i - 1]);
                    }
                }
                assert(a =~= b);
            }
            if a == b {
                assert(a.drop_first() == b.drop_first());
            }
        } else {
            if a == b {
                assert(a.first() == b.first());
            }
        }
    }
}

/// Numeric order of integers is lexicographic order of their fixed-width
/// big-endian encodings.
pub proof fn lemma_be_lt(x: int, y: int, n: nat)
    requires
        0 <= x < y < pow256(n),
    ensures
        lex_lt(be_seq(x, n), be_seq(y, n)),
    decreases n,
{
    if n == 0 {
        assert(pow256(0) == 1);
    } else {
        let m = (n - 1) as nat;
        let qx = x / 256;
        let qy = y / 256;
        let rx = x % 256;
        let ry = y % 256;
        lemma_fundamental_div_mod(x, 256);
        lemma_fundamental_div_mod(y, 256);
        lemma_div_bound(x, pow256(m));
        lemma_div_bound(y, pow256(m));
        assert(qx <= qy && (qx == qy ==> rx < ry)) by (nonlinear_arith)
            requires
                x < y,
                x == 256 * qx + rx,
                y == 256 * qy + ry,
                0 <= rx < 256,
                0 <= ry < 256;
        lemma_be_seq_len(qx, m);
        lemma_be_seq_len(qy, m);
        assert(be_seq(x, n) =~= be_seq(qx, m) + seq![(rx as u8)]);
        assert(be_seq(y, n) =~= be_seq(qy, m) + seq![(ry as u8)]);
        lemma_lex_concat(be_seq(qx, m), be_seq(qy, m), seq![(rx as u8)], seq![(ry as u8)]);
        if qx == qy {
            assert(lex_lt(seq![(rx as u8)], seq![(ry as u8)]));
        } else {
            lemma_be_lt(qx, qy, m);
        }
    }
}

/// The converse direction: lexicographic order of encodings bounds the
/// integers.
pub proof fn lemma_be_lt_inv(x: int, y: int, n: nat)
    requires
        0 <= x < pow256(n),
        0 <= y < pow256(n),
        lex_lt(be_seq(x, n), be_seq(y, n)),
    ensures
        x < y,
{
    if x == y {
        lemma_lex_irrefl(be_seq(x, n));
    } else if x > y {
        lemma_be_lt(y, x, n);
        lemma_lex_asym(be_seq(y, n), be_seq(x, n));
    }
}

/// The eight-byte big-endian encoding of a 64-bit integer.
pub fn u64_to_be8(x: u64) -> (r: Vec<u8>)
    ensures
        r@ == be_seq(x as int, 8),
        r@.len() == 8,
{
    let mut r: Vec<u8> = Vec::new();
    r.push(((x / 0x100000000000000) % 256) as u8);
    r.push(((x / 0x1000000000000) % 256) as u8);
    r.push(((x / 0x10000000000) % 256) as u8);
    r.push(((x / 0x100000000) % 256) as u8);
    r.push(((x / 0x1000000) % 256) as u8);
    r.push(((x / 0x10000) % 256) as u8);
    r.push(((x / 0x100) % 256) as u8);
    r.push((x % 256) as u8);
    proof {
        lemma_pow256_values();
        lemma_be_seq_len(x as int, 8);
        assert forall|i: int| 0 <= i < 8 implies r@[i] == be_seq(x as int, 8)[i] by {
            lemma_be_seq_index(x as int, 8, i);
        }
        assert(r@ =~= be_seq(x as int, 8));
    }
    r
}

/// The four-byte big-endian encoding of a 32-bit integer, as the stored
/// `migration_level` singleton uses.
pub fn u32_to_be4(x: u32) -> (r: Vec<u8>)
    ensures
        r@ == be_seq(x as int, 4),
        r@.len() == 4,
{
    let mut r: Vec<u8> = Vec::new();
    r.push(((x / 0x1000000) % 256) as u8);
    r.push(((x / 0x10000) % 256) as u8);
    r.push(((x / 0x100) % 256) as u8);
    r.push((x % 256) as u8);
    proof {
        lemma_pow256_values();
        lemma_be_seq_len(x as int, 4);
        assert forall|i: int| 0 <= i < 4 implies r@[i] == be_seq(x as int, 4)[i] by {
            lemma_be_seq_index(x as int, 4, i);
        }
        assert(r@ =~= be_seq(x as int, 4));
    }
    r
}

/// Reads the eight-byte big-endian integer at `pos`.
pub fn read_be8_at(b: &Vec<u8>, pos: usize) -> (r: u64)
    requires
        pos + 8 <= b@.len(),
    ensures
        r as int == from_be(b@.subrange(pos as int, pos as int + 8)),
{
    let n = b.len();
    let mut acc: u64 = 0;
    let mut i: usize = 0;
    while i < 8
        invariant
            i <= 8,
            n == b@.len(),
            pos + 8 <= n,
            acc as int == from_be(b@.subrange(pos as int, pos as int + i as int)),
            (acc as int) < pow256(i as nat),
        decreases 8 - i,
    {
        proof {
            lemma_pow256_values();
            lemma_pow256_mono((i + 1) as nat, 8);
            assert(pow256((i + 1) as nat) == 256 * pow256(i as nat));
        }
        let byte = b[pos + i];
        acc = acc * 256 + (byte as u64);
        i = i + 1;
        proof {
            let s = b@.subrange(pos as int, pos as int + i as int);
            assert(s.drop_last() =~= b@.subrange(pos as int, pos as int + i as int - 1));
            assert(s.last() == byte);
        }
    }
    proof {
        assert(b@.subrange(pos as int, pos as int + i as int) =~= b@.subrange(
            pos as int,
            pos as int + 8,
        ));
    }
    acc
}

/// Reads the four-byte big-endian integer at `pos`.
pub fn read_be4_at(b: &Vec<u8>, pos: usize) -> (r: u32)
    requires
        pos + 4 <= b@.len(),
    ensures
        r as int == from_be(b@.subrange(pos as int, pos as int + 4)),
{
    let n = b.len();
    let mut acc: u32 = 0;
    let mut i: usize = 0;
    while i < 4
        invariant
            i <= 4,
            n == b@.len(),
            pos + 4 <= n,
            acc as int == from_be(b@.subrange(pos as int, pos as int + i as int)),
            (acc as int) < pow256(i as nat),
        decreases 4 - i,
    {
        proof {
            lemma_pow256_values();
            lemma_pow256_mono((i + 1) as nat, 4);
            assert(pow256((i + 1) as nat) == 256 * pow256(i as nat));
        }
        let byte = b[pos + i];
        acc = acc * 256 + (byte as u32);
        i = i + 1;
        proof {
            let s = b@.subrange(pos as int, pos as int + i as int);
            assert(s.drop_last() =~= b@.subrange(pos as int, pos as int + i as int - 1));
            assert(s.last() == byte);
        }
    }
    proof {
        assert(b@.subrange(pos as int, pos as int + i as int) =~= b@.subrange(
            pos as int,
            pos as int + 4,
        ));
    }
    acc
}

/// Bytewise equality of two byte vectors, as the model's sequence equality.
pub fn bytes_eq(a: &Vec<u8>, b: &Vec<u8>) -> (r: bool)
    ensures
        r == (a@ == b@),
{
    if a.len() != b.len() {
        return false;
    }
    let mut i: usize = 0;
    while i < a.len()
        invariant
            i <= a@.len(),
            a@.len() == b@.len(),
            forall|j: int| 0 <= j < i ==> a@[j] == b@[j],
        decreases a@.len() - i,
    {
        if a[i] != b[i] {
            return false;
        }
        i = i + 1;
    }
    proof {
        assert(a@ =~= b@);
    }
    true
}

} // verus!
