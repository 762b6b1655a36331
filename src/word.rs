//! Machine words stored as eight little-endian bytes.
use vstd::arithmetic::div_mod::*;
use vstd::arithmetic::power::*;
use vstd::prelude::*;

verus! {

/// Bytes a word takes in memory.
pub const WORD_BYTES: usize = 8;

/// The `n` little-endian bytes of `x` (its low `n` bytes).
pub open spec fn le_bytes(x: nat, n: nat) -> Seq<u8>
    decreases n,
{
    if n == 0 {
        Seq::empty()
    } else {
        seq![(x % 256) as u8] + le_bytes(x / 256, (n - 1) as nat)
    }
}

/// The number that little-endian `bytes` stand for.
pub open spec fn le_value(bytes: Seq<u8>) -> nat
    decreases bytes.len(),
{
    if bytes.len() == 0 {
        0
    } else {
        bytes[0] as nat + 256 * le_value(bytes.skip(1))
    }
}

pub proof fn lemma_le_bytes_len(x: nat, n: nat)
    ensures
        le_bytes(x, n).len() == n,
    decreases n,
{
    if n > 0 {
        lemma_le_bytes_len(x / 256, (n - 1) as nat);
    }
}

/// Reading back the bytes of a number that fits gives the number.
pub proof fn lemma_le_round_trip(x: nat, n: nat)
    requires
        x < pow(256, n),
    ensures
        le_value(le_bytes(x, n)) == x,
    decreases n,
{
    reveal(pow);
    if n > 0 {
        let b = le_bytes(x, n);
        lemma_le_bytes_len(x / 256, (n - 1) as nat);
        assert(b.skip(1) =~= le_bytes(x / 256, (n - 1) as nat));
        lemma_fundamental_div_mod(x as int, 256);
        assert(x / 256 < pow(256, (n - 1) as nat)) by {
            lemma_div_by_multiple_is_strongly_ordered(x as int, pow(256, (n - 1) as nat) * 256, pow(256, (n - 1) as nat), 256);
            lemma_div_multiples_vanish(pow(256, (n - 1) as nat), 256);
        }
        lemma_le_round_trip(x / 256, (n - 1) as nat);
    } else {
        assert(x == 0);
    }
}

proof fn lemma_le_value_bound(bytes: Seq<u8>)
    ensures
        le_value(bytes) < pow(256, bytes.len()),
    decreases bytes.len(),
{
    reveal(pow);
    if bytes.len() > 0 {
        lemma_le_value_bound(bytes.skip(1));
        let rest = le_value(bytes.skip(1));
        let p = pow(256, (bytes.len() - 1) as nat);
        assert(bytes[0] as nat + 256 * rest < 256 * p) by (nonlinear_arith)
            requires
                rest < p,
                bytes[0] < 256,
        ;
    }
}

/// Every `usize` fits in a word's bytes.
pub proof fn lemma_usize_fits(x: usize)
    ensures
        (x as nat) < pow(256, WORD_BYTES as nat),
{
    reveal_with_fuel(pow, 9);
    assert(usize::MAX <= u64::MAX);
}

/// The bytes of `x`.
pub fn word_bytes(x: usize) -> (r: Vec<u8>)
    ensures
        r@ == le_bytes(x as nat, WORD_BYTES as nat),
        r@.len() == WORD_BYTES,
        le_value(r@) == x,
{
    let mut out: Vec<u8> = Vec::new();
    let mut v: usize = x;
    let mut k: usize = 0;
    proof {
        assert(out@ + le_bytes(v as nat, 8) =~= le_bytes(x as nat, 8));
    }
    while k < WORD_BYTES
        invariant
            k <= WORD_BYTES,
            out@ + le_bytes(v as nat, (WORD_BYTES - k) as nat) == le_bytes(x as nat, WORD_BYTES as nat),
        decreases WORD_BYTES - k,
    {
        proof {
            let m = (WORD_BYTES - k) as nat;
            assert(le_bytes(v as nat, m) == seq![(v % 256) as u8] + le_bytes(v as nat / 256, (m - 1) as nat));
            assert(out@.push((v % 256) as u8) + le_bytes(v as nat / 256, (m - 1) as nat) =~= out@ + le_bytes(v as nat, m));
        }
        out.push((v % 256) as u8);
        v = v / 256;
        k += 1;
    }
    proof {
        assert(out@ + le_bytes(v as nat, 0) =~= out@);
        lemma_le_bytes_len(x as nat, 8);
        lemma_usize_fits(x);
        lemma_le_round_trip(x as nat, 8);
    }
    out
}

/// The word whose bytes are `bytes[at..at + 8]`, when it fits in a
/// `usize`.
pub fn word_from(bytes: &[u8], at: usize) -> (r: Option<usize>)
    requires
        at + WORD_BYTES <= bytes@.len(),
    ensures
        r is Some <==> le_value(bytes@.subrange(at as int, at + WORD_BYTES)) <= usize::MAX,
        r matches Some(x) ==> x == le_value(bytes@.subrange(at as int, at + WORD_BYTES)),
{
    let ghost word = bytes@.subrange(at as int, at + WORD_BYTES);
    let n = bytes.len();
    let mut acc: u64 = 0;
    let mut k: usize = WORD_BYTES;
    proof {
        assert(word.skip(8) =~= Seq::<u8>::empty());
    }
    while k > 0
        invariant
            k <= WORD_BYTES,
            at + WORD_BYTES <= bytes@.len(),
            n == bytes@.len(),
            word == bytes@.subrange(at as int, at + WORD_BYTES),
            acc as nat == le_value(word.skip(k as int)),
        decreases k,
    {
        proof {
            assert(word.skip(k - 1).skip(1) =~= word.skip(k as int));
            assert(word.skip(k - 1)[0] == bytes@[at + k - 1]);
            lemma_le_value_bound(word.skip(k as int));
            reveal_with_fuel(pow, 9);
        }
        acc = acc * 256 + bytes[at + k - 1] as u64;
        k -= 1;
    }
    proof {
        assert(word.skip(0) =~= word);
    }
    if acc as u128 <= usize::MAX as u128 {
        Some(acc as usize)
    } else {
        None
    }
}

} // verus!
