//! The 16-bit one's-complement Internet checksum used by IPv4, ICMP and UDP.
use vstd::prelude::*;

use crate::bytes::{be16, read_u16_be};

verus! {

/// 2^32: the modulus of the 32-bit accumulator.
pub open spec fn acc_modulus() -> int {
    0x1_0000_0000
}

/// Sum of the first `k` big-endian 16-bit words of `s`.
pub open spec fn word_sum(s: Seq<u8>, k: nat) -> nat
    decreases k,
{
    if k == 0 {
        0
    } else {
        (word_sum(s, (k - 1) as nat) + be16(s[2 * k - 2], s[2 * k - 1])) as nat
    }
}

/// Sum of all 16-bit words of `s`; a trailing odd byte counts as the high byte of a word.
pub open spec fn ones_sum(s: Seq<u8>) -> nat {
    word_sum(s, s.len() / 2) + if s.len() % 2 == 1 {
        s[s.len() - 1] as nat * 256
    } else {
        0
    }
}

/// Folds the carries above bit 16 back into the low 16 bits until none remain.
pub open spec fn fold_carries(x: nat) -> nat
    decreases x,
{
    if x < 0x1_0000 {
        x
    } else {
        proof {
            assert(x % 0x1_0000 + x / 0x1_0000 < x) by (nonlinear_arith)
                requires
                    x >= 0x1_0000,
            ;
        }
        fold_carries(x % 0x1_0000 + x / 0x1_0000)
    }
}

/// The checksum for an accumulated word sum: the 32-bit wrapped sum with its carries
/// folded in, complemented.
pub open spec fn checksum_of_sum(acc: nat) -> u16 {
    (0xFFFF - fold_carries((acc as int % acc_modulus()) as nat)) as u16
}

/// The Internet checksum of `s`.
pub open spec fn internet_checksum(s: Seq<u8>) -> u16 {
    checksum_of_sum(ones_sum(s))
}

/// Folded carries always fit in 16 bits.
pub proof fn lemma_fold_bound(x: nat)
    ensures
        fold_carries(x) < 0x1_0000,
    decreases x,
{
    if x >= 0x1_0000 {
        assert(x % 0x1_0000 + x / 0x1_0000 < x) by (nonlinear_arith)
            requires
                x >= 0x1_0000,
        ;
        lemma_fold_bound(x % 0x1_0000 + x / 0x1_0000);
    }
}

/// Adds the words of `data` to `init` with 32-bit wrap-around, as the checksum loops do.
pub fn accumulate_words(data: &[u8], init: u32) -> (sum: u32)
    ensures
        sum as int == (init + ones_sum(data@)) % acc_modulus(),
{
    let n: usize = data.len();
    let pairs: usize = n / 2;
    let mut sum: u32 = init;
    let mut i: usize = 0;
    while i < pairs
        invariant
            n == data@.len(),
            pairs == n / 2,
            i <= pairs,
            sum as int == (init + word_sum(data@, i as nat)) % acc_modulus(),
        decreases pairs - i,
    {
        let word: u16 = read_u16_be(data, 2 * i);
        let ghost before = sum;
        sum = sum.wrapping_add(word as u32);
        proof {
            let m = acc_modulus();
            let a = init + word_sum(data@, i as nat);
            assert(sum as int == (before as int + word as int) % m);
            vstd::arithmetic::div_mod::lemma_add_mod_noop(a, word as int, m);
            vstd::arithmetic::div_mod::lemma_mod_twice(a, m);
            assert(word_sum(data@, (i + 1) as nat) == word_sum(data@, i as nat) + word as int);
        }
        i = i + 1;
    }
    if n % 2 == 1 {
        let last: u32 = data[n - 1] as u32;
        let ghost before = sum;
        sum = sum.wrapping_add(last * 256);
        proof {
            let m = acc_modulus();
            let a = init + word_sum(data@, pairs as nat);
            vstd::arithmetic::div_mod::lemma_add_mod_noop(a, last * 256, m);
            vstd::arithmetic::div_mod::lemma_mod_twice(a, m);
        }
    }
    sum
}

/// Folds the carries of `sum` and complements the result.
pub fn fold_and_complement(sum: u32) -> (c: u16)
    ensures
        c == checksum_of_sum(sum as nat),
{
    let mut s: u32 = sum;
    assert((sum as int) % acc_modulus() == sum as int);
    while s / 0x1_0000 != 0
        invariant
            fold_carries(s as nat) == fold_carries(sum as nat),
        decreases s,
    {
        assert(s % 0x1_0000 + s / 0x1_0000 < s) by (nonlinear_arith)
            requires
                s / 0x1_0000 != 0,
        ;
        s = s % 0x1_0000 + s / 0x1_0000;
    }
    0xFFFF - (s as u16)
}

/// Internet checksum of `data`: 16-bit big-endian words summed with 32-bit wrap-around,
/// carries folded, complemented.
pub fn internet_checksum_exec(data: &[u8]) -> (c: u16)
    ensures
        c == internet_checksum(data@),
{
    let sum: u32 = accumulate_words(data, 0);
    assert(ones_sum(data@) as int % acc_modulus() == sum as int);
    proof {
        vstd::arithmetic::div_mod::lemma_mod_twice(ones_sum(data@) as int, acc_modulus());
    }
    fold_and_complement(sum)
}


/// Folding keeps the value modulo 0xFFFF and keeps a positive value positive.
pub proof fn lemma_fold_mod(x: nat)
    ensures
        fold_carries(x) % 0xFFFF == x % 0xFFFF,
        x > 0 ==> fold_carries(x) > 0,
        fold_carries(x) < 0x1_0000,
    decreases x,
{
    lemma_fold_bound(x);
    if x >= 0x1_0000 {
        let y: nat = x % 0x1_0000 + x / 0x1_0000;
        assert(y < x && y > 0 && y % 0xFFFF == x % 0xFFFF) by (nonlinear_arith)
            requires
                x >= 0x1_0000,
                y == x % 0x1_0000 + x / 0x1_0000,
        ;
        lemma_fold_mod(y);
    }
}

/// Changing the bytes of one aligned word changes the word sum by the difference of the
/// two word values.
pub proof fn lemma_word_sum_update(s: Seq<u8>, pos: int, hi: u8, lo: u8, k: nat)
    requires
        0 <= pos,
        pos % 2 == 0,
        pos + 2 <= s.len(),
        2 * k <= s.len(),
    ensures
        word_sum(s.update(pos, hi).update(pos + 1, lo), k) == word_sum(s, k) + (if pos + 2 <= 2
            * k {
            be16(hi, lo) - be16(s[pos], s[pos + 1])
        } else {
            0
        }),
    decreases k,
{
    let t = s.update(pos, hi).update(pos + 1, lo);
    if k > 0 {
        lemma_word_sum_update(s, pos, hi, lo, (k - 1) as nat);
        if 2 * k - 2 == pos {
            assert(t[2 * k - 2] == hi && t[2 * k - 1] == lo);
        } else {
            assert(t[2 * k - 2] == s[2 * k - 2] && t[2 * k - 1] == s[2 * k - 1]);
        }
    }
}

/// Law (checksum field): after the checksum of a sum is written into a zeroed, aligned
/// 16-bit field of the data, the same computation over the data yields 0, the value a
/// receiver checks for. `init` stands for any words added before the data (a
/// pseudo-header); the sum must stay below 2^32 minus one word so that it does not wrap.
pub proof fn law_checksum_field_verifies(s: Seq<u8>, init: nat, pos: int)
    requires
        0 <= pos,
        pos % 2 == 0,
        pos + 2 <= s.len(),
        s[pos] == 0,
        s[pos + 1] == 0,
        init + ones_sum(s) + 0xFFFF < acc_modulus(),
    ensures
        ({
            let c = checksum_of_sum(init + ones_sum(s));
            let t = s.update(pos, (c / 256) as u8).update(pos + 1, (c % 256) as u8);
            checksum_of_sum(init + ones_sum(t)) == 0
        }),
{
    let total: nat = init + ones_sum(s);
    let f = fold_carries(total);
    lemma_fold_mod(total);
    let c = checksum_of_sum(total);
    assert(total as int % acc_modulus() == total);
    assert(c == 0xFFFF - f);
    let hi = (c / 256) as u8;
    let lo = (c % 256) as u8;
    let t = s.update(pos, hi).update(pos + 1, lo);
    assert(be16(hi, lo) == c);
    lemma_word_sum_update(s, pos, hi, lo, s.len() / 2);
    assert(t.len() == s.len());
    if s.len() % 2 == 1 {
        assert(t[t.len() - 1] == s[s.len() - 1]);
    }
    assert(ones_sum(t) == ones_sum(s) + c);
    let total2: nat = init + ones_sum(t);
    assert(total2 == total + c);
    assert(total2 as int % acc_modulus() == total2);
    lemma_fold_mod(total2);
    let f2 = fold_carries(total2);
    assert(f2 == 0xFFFF) by (nonlinear_arith)
        requires
            f % 0xFFFF == total % 0xFFFF,
            f2 % 0xFFFF == total2 % 0xFFFF,
            total2 == total + 0xFFFF - f,
            0 <= f < 0x1_0000,
            0 < f2 < 0x1_0000,
    ;
}
/// The sum of the first `k` words is at most `k` times the largest word.
pub proof fn lemma_word_sum_bound(s: Seq<u8>, k: nat)
    ensures
        word_sum(s, k) <= 0xFFFF * k,
    decreases k,
{
    if k > 0 {
        lemma_word_sum_bound(s, (k - 1) as nat);
        assert(be16(s[2 * k - 2], s[2 * k - 1]) <= 0xFFFF);
    }
}

/// The word sum of the first `j` words only reads those words: bytes appended after
/// them do not change it.
pub proof fn lemma_word_sum_prefix(p: Seq<u8>, s: Seq<u8>, j: nat)
    requires
        2 * j <= p.len(),
    ensures
        word_sum(p + s, j) == word_sum(p, j),
    decreases j,
{
    if j > 0 {
        lemma_word_sum_prefix(p, s, (j - 1) as nat);
        assert((p + s)[2 * j - 2] == p[2 * j - 2]);
        assert((p + s)[2 * j - 1] == p[2 * j - 1]);
    }
}

/// Summing the words of an even-length prefix followed by `s` adds the two word sums.
pub proof fn lemma_ones_sum_append(p: Seq<u8>, s: Seq<u8>)
    requires
        p.len() % 2 == 0,
    ensures
        ones_sum(p + s) == ones_sum(p) + ones_sum(s),
{
    let m = p.len() / 2;
    lemma_word_sum_append(p, s, s.len() / 2);
    assert((p + s).len() / 2 == m + s.len() / 2);
    if s.len() % 2 == 1 {
        assert((p + s)[(p + s).len() - 1] == s[s.len() - 1]);
    }
}

proof fn lemma_word_sum_append(p: Seq<u8>, s: Seq<u8>, k: nat)
    requires
        p.len() % 2 == 0,
        2 * k <= s.len(),
    ensures
        word_sum(p + s, p.len() / 2 + k) == word_sum(p, p.len() / 2) + word_sum(s, k),
    decreases k,
{
    let m = p.len() / 2;
    if k == 0 {
        lemma_word_sum_prefix(p, s, m);
    } else {
        lemma_word_sum_append(p, s, (k - 1) as nat);
        assert((p + s)[2 * (m + k) - 2] == s[2 * k - 2]);
        assert((p + s)[2 * (m + k) - 1] == s[2 * k - 1]);
    }
}

} // verus!
