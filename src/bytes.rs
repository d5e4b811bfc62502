use vstd::arithmetic::div_mod::{lemma_breakdown, lemma_fundamental_div_mod};
use vstd::prelude::*;

verus! {

/// The unsigned integer that `s` encodes, most significant byte first.
pub open spec fn be_value(s: Seq<u8>) -> nat
    decreases s.len(),
{
    if s.len() == 0 {
        0
    } else {
        be_value(s.drop_last()) * 256 + s.last() as nat
    }
}

/// The `n` low-order bytes of `v`, most significant first.
pub open spec fn be_bytes(v: nat, n: nat) -> Seq<u8>
    decreases n,
{
    if n == 0 {
        seq![]
    } else {
        be_bytes(v / 256, (n - 1) as nat).push((v % 256) as u8)
    }
}

pub open spec fn pow256(n: nat) -> nat
    decreases n,
{
    if n == 0 {
        1
    } else {
        256 * pow256((n - 1) as nat)
    }
}

pub proof fn lemma_be_bytes_len(v: nat, n: nat)
    ensures
        be_bytes(v, n).len() == n,
    decreases n,
{
    if n > 0 {
        lemma_be_bytes_len(v / 256, (n - 1) as nat);
    }
}

pub proof fn lemma_pow256_pos(n: nat)
    ensures
        pow256(n) > 0,
    decreases n,
{
    if n > 0 {
        lemma_pow256_pos((n - 1) as nat);
    }
}

/// Encoding the value of a byte string gives the string back.
pub proof fn lemma_be_bytes_of_value(s: Seq<u8>)
    ensures
        be_bytes(be_value(s), s.len()) == s,
    decreases s.len(),
{
    if s.len() > 0 {
        let a = be_value(s.drop_last());
        let v = a * 256 + s.last() as nat;
        assert(v / 256 == a && v % 256 == s.last() as nat) by {
            lemma_fundamental_div_mod(v as int, 256);
            assert(0 <= s.last() < 256);
            vstd::arithmetic::div_mod::lemma_div_multiples_vanish_fancy(a as int, s.last() as int, 256);
            vstd::arithmetic::div_mod::lemma_mod_multiples_vanish(a as int, s.last() as int, 256);
            vstd::arithmetic::div_mod::lemma_small_mod(s.last() as nat, 256);
        }
        lemma_be_bytes_of_value(s.drop_last());
        assert(be_bytes(v, s.len()) =~= s);
    }
}

/// The value of the `n`-byte encoding of `v` is `v` modulo `256^n`.
pub proof fn lemma_be_value_of_bytes(v: nat, n: nat)
    ensures
        be_value(be_bytes(v, n)) == v % pow256(n),
    decreases n,
{
    if n == 0 {
        assert(v % 1 == 0) by (nonlinear_arith);
    } else {
        let m = (n - 1) as nat;
        lemma_be_value_of_bytes(v / 256, m);
        lemma_pow256_pos(m);
        let b = be_bytes(v, n);
        assert(b.drop_last() =~= be_bytes(v / 256, m));
        lemma_breakdown(v as int, 256, pow256(m) as int);
    }
}

pub proof fn lemma_be_value_bound(s: Seq<u8>)
    ensures
        be_value(s) < pow256(s.len()),
    decreases s.len(),
{
    if s.len() > 0 {
        lemma_be_value_bound(s.drop_last());
        let a = be_value(s.drop_last());
        let p = pow256((s.len() - 1) as nat);
        assert(a * 256 + (s.last() as nat) < 256 * p) by (nonlinear_arith)
            requires
                a < p,
                s.last() < 256,
        ;
    }
}

pub proof fn lemma_pow256_values()
    ensures
        pow256(4) == 0x1_0000_0000,
        pow256(8) == 0x1_0000_0000_0000_0000,
{
    reveal_with_fuel(pow256, 9);
}

/// The value of a big-endian byte string of at most eight bytes.
pub fn read_be(s: &[u8], start: usize, n: usize) -> (r: u64)
    requires
        n <= 8,
        start + n <= s@.len(),
    ensures
        r as nat == be_value(s@.subrange(start as int, start + n)),
{
    let len: usize = s.len();
    let mut acc: u64 = 0;
    let mut i: usize = 0;
    while i < n
        invariant
            len == s@.len(),
            n <= 8,
            start + n <= s@.len(),
            i <= n,
            acc as nat == be_value(s@.subrange(start as int, start + i)),
        decreases n - i,
    {
        proof {
            let t = s@.subrange(start as int, start + i);
            lemma_be_value_bound(t);
            lemma_pow256_values();
            assert(pow256(i as nat) <= pow256(7)) by {
                lemma_pow256_mono(i as nat, 7);
            }
            reveal_with_fuel(pow256, 8);
            let t2 = s@.subrange(start as int, start + i + 1);
            assert(t2.drop_last() =~= t);
        }
        acc = acc * 256 + s[start + i] as u64;
        i = i + 1;
    }
    acc
}

pub proof fn lemma_pow256_mono(a: nat, b: nat)
    requires
        a <= b,
    ensures
        pow256(a) <= pow256(b),
    decreases b,
{
    if a < b {
        lemma_pow256_mono(a, (b - 1) as nat);
        lemma_pow256_pos((b - 1) as nat);
    }
}

} // verus!
