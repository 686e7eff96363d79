//! Little-endian words read out of copied bytes.

use vstd::prelude::*;

verus! {

/// `256^n`.
pub open spec fn pow256(n: nat) -> nat
    decreases n,
{
    if n == 0 {
        1
    } else {
        256 * pow256((n - 1) as nat)
    }
}

/// The unsigned number that bytes encode, least significant byte first.
pub open spec fn le_nat(b: Seq<u8>) -> nat
    decreases b.len(),
{
    if b.len() == 0 {
        0
    } else {
        (b[0] + 256 * le_nat(b.drop_first())) as nat
    }
}

/// The 64-bit word that 8 little-endian bytes encode.
pub open spec fn le_u64(b: Seq<u8>) -> u64 {
    le_nat(b) as u64
}

/// A 64-bit word read as two's complement.
pub open spec fn signed(v: u64) -> i64 {
    if v <= i64::MAX {
        v as i64
    } else {
        (v - 0x1_0000_0000_0000_0000int) as i64
    }
}

/// The powers of 256 that words of 1, 2, 4 and 8 bytes span.
pub proof fn lemma_pow256_8()
    ensures
        pow256(8) == 0x1_0000_0000_0000_0000nat,
        pow256(4) == 0x1_0000_0000nat,
        pow256(2) == 0x1_0000nat,
        pow256(1) == 256,
{
    reveal_with_fuel(pow256, 9);
}

/// More bytes span more values.
pub proof fn lemma_pow256_mono(a: nat, b: nat)
    requires
        a <= b,
    ensures
        pow256(a) <= pow256(b),
    decreases b,
{
    if a < b {
        lemma_pow256_mono(a, (b - 1) as nat);
    }
}

/// What `n` bytes encode is below `256^n`.
pub proof fn lemma_le_nat_bound(b: Seq<u8>)
    ensures
        le_nat(b) < pow256(b.len()),
    decreases b.len(),
{
    if b.len() > 0 {
        lemma_le_nat_bound(b.drop_first());
        assert(le_nat(b.drop_first()) + 1 <= pow256((b.len() - 1) as nat));
        assert(256 * (le_nat(b.drop_first()) + 1) <= 256 * pow256((b.len() - 1) as nat))
            by (nonlinear_arith)
            requires
                le_nat(b.drop_first()) + 1 <= pow256((b.len() - 1) as nat),
        ;
    }
}

/// The `n` bytes at `at`, little endian, as a number.
pub fn le_uint(b: &Vec<u8>, at: usize, n: usize) -> (v: u64)
    requires
        at + n <= b@.len(),
        n <= 8,
    ensures
        v as nat == le_nat(b@.subrange(at as int, at + n)),
{
    let mut k: usize = n;
    let mut v: u64 = 0;
    let len = b.len();
    proof {
        lemma_pow256_8();
        lemma_pow256_mono(n as nat, 8);
    }
    while k > 0
        invariant
            at + n <= b@.len(),
            len == b@.len(),
            n <= 8,
            k <= n,
            pow256(n as nat) <= 0x1_0000_0000_0000_0000nat,
            v as nat == le_nat(b@.subrange(at + k, at + n)),
        decreases k,
    {
        let ghost s = b@.subrange(at + k - 1, at + n);
        assert(s.drop_first() =~= b@.subrange(at + k, at + n));
        proof {
            lemma_le_nat_bound(s);
            lemma_pow256_mono(s.len(), n as nat);
        }
        let x = b[at + (k - 1)];
        assert(le_nat(s) == x + 256 * v);
        v = v * 256 + x as u64;
        k = k - 1;
    }
    v
}

/// The 64-bit word at `at`.
pub fn le_word(b: &Vec<u8>, at: usize) -> (v: u64)
    requires
        at + 8 <= b@.len(),
    ensures
        v == le_u64(b@.subrange(at as int, at + 8)),
{
    le_uint(b, at, 8)
}

/// A 64-bit word read as two's complement.
pub fn to_signed(v: u64) -> (r: i64)
    ensures
        r == signed(v),
{
    if v <= i64::MAX as u64 {
        v as i64
    } else {
        let below: u64 = u64::MAX - v;
        -(below as i64) - 1
    }
}

} // verus!
