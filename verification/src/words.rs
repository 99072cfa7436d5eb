//! Little-endian packing of byte sequences into 64-bit words.
//!
//! The hashing engine absorbs its input eight bytes at a time, reading each
//! group of bytes as one little-endian 64-bit word, and it buffers a partial
//! group the same way. `le_nat` is the mathematical reading of a byte
//! sequence as a little-endian number; the executable helpers here build and
//! decompose such words and are proved against it.

use vstd::prelude::*;

verus! {

/// 256 raised to the power `k`: the weight of the `k`-th byte of a
/// little-endian number.
pub open spec fn pow256(k: nat) -> nat
    decreases k,
{
    if k == 0 {
        1
    } else {
        256 * pow256((k - 1) as nat)
    }
}

/// The value of a byte sequence read as a little-endian number: the first
/// byte is the least significant.
pub open spec fn le_nat(s: Seq<u8>) -> nat
    decreases s.len(),
{
    if s.len() == 0 {
        0
    } else {
        (s[0] as nat) + 256 * le_nat(s.subrange(1, s.len() as int))
    }
}

/// The powers of 256 up to the weight of the ninth byte, as literals.
pub proof fn lemma_pow256_values()
    ensures
        pow256(0) == 1,
        pow256(1) == 0x100,
        pow256(2) == 0x1_0000,
        pow256(3) == 0x100_0000,
        pow256(4) == 0x1_0000_0000,
        pow256(5) == 0x100_0000_0000,
        pow256(6) == 0x1_0000_0000_0000,
        pow256(7) == 0x100_0000_0000_0000,
        pow256(8) == 0x1_0000_0000_0000_0000,
{
    reveal_with_fuel(pow256, 9);
}

/// Powers of 256 grow with the exponent.
pub proof fn lemma_pow256_monotone(a: nat, b: nat)
    requires
        a <= b,
    ensures
        pow256(a) <= pow256(b),
    decreases b,
{
    if a < b {
        lemma_pow256_monotone(a, (b - 1) as nat);
    }
}

/// A sequence of `k` bytes reads as a number below 256^k.
pub proof fn lemma_le_nat_bound(s: Seq<u8>)
    ensures
        le_nat(s) < pow256(s.len()),
    decreases s.len(),
{
    if s.len() > 0 {
        lemma_le_nat_bound(s.subrange(1, s.len() as int));
    }
}

/// Appending a byte to a sequence adds that byte at the next weight.
pub proof fn lemma_le_nat_snoc(s: Seq<u8>, b: u8)
    ensures
        le_nat(s.push(b)) == le_nat(s) + (b as nat) * pow256(s.len()),
    decreases s.len(),
{
    let t = s.push(b);
    if s.len() == 0 {
        assert(t.subrange(1, t.len() as int) =~= Seq::<u8>::empty());
        assert(le_nat(Seq::<u8>::empty()) == 0);
        assert(t[0] == b);
        assert(le_nat(t) == (b as nat) + 256 * 0);
        assert(le_nat(s) == 0);
        assert(pow256(s.len()) == 1);
    } else {
        let s1 = s.subrange(1, s.len() as int);
        lemma_le_nat_snoc(s1, b);
        assert(t.subrange(1, t.len() as int) =~= s1.push(b));
        assert(t[0] == s[0]);
        assert(le_nat(t) == (s[0] as nat) + 256 * le_nat(s1.push(b)));
        assert(le_nat(s1.push(b)) == le_nat(s1) + (b as nat) * pow256(s1.len()));
        assert(256 * (le_nat(s1) + (b as nat) * pow256(s1.len())) == 256 * le_nat(s1) + 256 * ((
        b as nat) * pow256(s1.len())));
        assert((b as nat) * (256 * pow256(s1.len())) == 256 * ((b as nat) * pow256(s1.len())))
            by (nonlinear_arith);
        assert(pow256(s.len()) == 256 * pow256(s1.len()));
        assert((b as nat) * pow256(s.len()) == 256 * ((b as nat) * pow256(s1.len())));
        assert(le_nat(s) == (s[0] as nat) + 256 * le_nat(s1));
        assert(le_nat(t) == le_nat(s) + (b as nat) * pow256(s.len()));
    }
}

/// 256^k for `k` below 8, as a machine word.
pub fn pow256_u64(k: usize) -> (r: u64)
    requires
        k < 8,
    ensures
        r as nat == pow256(k as nat),
{
    proof {
        lemma_pow256_values();
    }
    match k {
        0 => 1,
        1 => 0x100,
        2 => 0x1_0000,
        3 => 0x100_0000,
        4 => 0x1_0000_0000,
        5 => 0x100_0000_0000,
        6 => 0x1_0000_0000_0000,
        _ => 0x100_0000_0000_0000,
    }
}

/// Places `b` as the byte of weight `count` in a little-endian word whose
/// bytes above that weight are still zero.
pub fn push_byte(word: u64, b: u8, count: usize) -> (r: u64)
    requires
        count < 8,
        (word as nat) < pow256(count as nat),
    ensures
        r as nat == word as nat + (b as nat) * pow256(count as nat),
        (r as nat) < pow256(count as nat + 1),
{
    proof {
        lemma_pow256_values();
        lemma_pow256_monotone(count as nat + 1, 8);
        vstd::arithmetic::mul::lemma_mul_inequality(b as int, 255, pow256(count as nat) as int);
    }
    word + (b as u64) * pow256_u64(count)
}

/// Reads the eight bytes of `buf` starting at `i` as one little-endian word.
pub fn load_word_le(buf: &[u8], i: usize) -> (w: u64)
    requires
        i + 8 <= buf@.len(),
    ensures
        w as nat == le_nat(buf@.subrange(i as int, i as int + 8)),
{
    let n: usize = buf.len();
    let mut w: u64 = 0;
    let mut j: usize = 0;
    proof {
        assert(buf@.subrange(i as int, i as int) =~= Seq::<u8>::empty());
        assert(le_nat(buf@.subrange(i as int, i as int)) == 0);
    }
    while j < 8
        invariant
            j <= 8,
            i + 8 <= n,
            n == buf@.len(),
            w as nat == le_nat(buf@.subrange(i as int, i as int + j as int)),
            (w as nat) < pow256(j as nat),
        decreases 8 - j,
    {
        let ghost taken = buf@.subrange(i as int, i as int + j as int);
        w = push_byte(w, buf[i + j], j);
        proof {
            lemma_le_nat_snoc(taken, buf@[i as int + j as int]);
            assert(buf@.subrange(i as int, i as int + j as int + 1) =~= taken.push(
                buf@[i as int + j as int],
            ));
        }
        j += 1;
    }
    w
}

/// Splits a word into its eight bytes, least significant first.
pub fn word_to_le_bytes(x: u64) -> (r: Vec<u8>)
    ensures
        r@.len() == 8,
        le_nat(r@) == x,
{
    let mut out: Vec<u8> = Vec::new();
    let mut rem: u64 = x;
    let mut j: usize = 0;
    proof {
        lemma_pow256_values();
        assert(le_nat(out@) == 0);
    }
    while j < 8
        invariant
            j <= 8,
            out@.len() == j,
            le_nat(out@) + (rem as nat) * pow256(j as nat) == x,
        decreases 8 - j,
    {
        let b: u8 = (rem % 256) as u8;
        let ghost prev = out@;
        let ghost prev_rem = rem as nat;
        out.push(b);
        rem = rem / 256;
        proof {
            lemma_le_nat_snoc(prev, b);
            vstd::arithmetic::div_mod::lemma_fundamental_div_mod(prev_rem as int, 256);
            assert((prev_rem / 256) * (256 * pow256(j as nat)) + (prev_rem % 256) * pow256(
                j as nat,
            ) == prev_rem * pow256(j as nat)) by (nonlinear_arith)
                requires
                    prev_rem == 256 * (prev_rem / 256) + prev_rem % 256,
            ;
        }
        j += 1;
    }
    proof {
        lemma_pow256_values();
        if rem as nat >= 1 {
            vstd::arithmetic::mul::lemma_mul_inequality(1, rem as int, pow256(8) as int);
        }
    }
    out
}

} // verus!
