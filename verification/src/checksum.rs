//! The Amiga ROM checksum: a ones'-complement (end-around-carry) sum of
//! big-endian longwords.

use vstd::prelude::*;
use crate::bytes::{be32, read_be32};

verus! {

/// 2^32 - 1, the modulus of ones'-complement arithmetic on 32-bit words.
pub open spec fn ones_modulus() -> int {
    0xFFFF_FFFF
}

/// Ones'-complement addition of two longwords: a carry out of bit 31 is
/// added back in at bit 0.
pub open spec fn ones_add(a: u32, b: u32) -> u32 {
    if a + b > 0xFFFF_FFFF {
        (a + b - 0xFFFF_FFFF) as u32
    } else {
        (a + b) as u32
    }
}

/// The ones'-complement sum of the first `n` big-endian longwords of `s`.
pub open spec fn ones_sum(s: Seq<u8>, n: nat) -> u32
    decreases n,
{
    if n == 0 {
        0
    } else {
        ones_add(ones_sum(s, (n - 1) as nat), be32(s, 4 * (n - 1)) as u32)
    }
}

/// The checksum of a whole image: every complete longword summed; a
/// trailing partial longword (fewer than 4 bytes) is ignored.
pub open spec fn kick_sum(s: Seq<u8>) -> u32 {
    ones_sum(s, s.len() / 4)
}

/// The plain integer sum of the first `n` big-endian longwords of `s`.
pub open spec fn word_sum(s: Seq<u8>, n: nat) -> int
    decreases n,
{
    if n == 0 {
        0
    } else {
        word_sum(s, (n - 1) as nat) + be32(s, 4 * (n - 1))
    }
}

/// A big-endian longword read from bytes fits in 32 bits.
pub proof fn lemma_be32_bounds(s: Seq<u8>, off: int)
    requires
        0 <= off,
        off + 4 <= s.len(),
    ensures
        0 <= be32(s, off) <= 0xFFFF_FFFF,
{
}

/// The ones'-complement sum agrees with the integer sum modulo 2^32 - 1,
/// and is zero exactly when the integer sum is zero.
pub proof fn lemma_ones_sum_congruent(s: Seq<u8>, n: nat)
    requires
        4 * n <= s.len(),
    ensures
        (ones_sum(s, n) as int) % ones_modulus() == word_sum(s, n) % ones_modulus(),
        (ones_sum(s, n) == 0) <==> (word_sum(s, n) == 0),
        word_sum(s, n) >= 0,
    decreases n,
{
    if n > 0 {
        let m = (n - 1) as nat;
        lemma_ones_sum_congruent(s, m);
        lemma_be32_bounds(s, 4 * (m as int));
        let a = ones_sum(s, m) as int;
        let w = be32(s, 4 * (m as int));
        let t = word_sum(s, m);
        let r = ones_sum(s, n) as int;
        assert(word_sum(s, n) == t + w);
        if a + w > 0xFFFF_FFFF {
            assert(r == a + w - ones_modulus());
            assert((a + w - ones_modulus()) % ones_modulus() == (a + w) % ones_modulus()) by {
                vstd::arithmetic::div_mod::lemma_mod_sub_multiples_vanish(a + w, ones_modulus());
            }
        } else {
            assert(r == a + w);
        }
        assert((a + w) % ones_modulus() == (t + w) % ones_modulus()) by {
            vstd::arithmetic::div_mod::lemma_add_mod_noop(a, w, ones_modulus());
            vstd::arithmetic::div_mod::lemma_add_mod_noop(t, w, ones_modulus());
        }
    }
}

/// Changing one aligned longword changes the integer sum by exactly the
/// difference of that longword.
pub proof fn lemma_word_sum_update(s1: Seq<u8>, s2: Seq<u8>, k: int, n: nat)
    requires
        s1.len() == s2.len(),
        4 * n <= s1.len(),
        0 <= k,
        k % 4 == 0,
        k + 4 <= s1.len(),
        forall|i: int| 0 <= i < s1.len() && !(k <= i < k + 4) ==> s1[i] == s2[i],
    ensures
        word_sum(s2, n) - word_sum(s1, n) == if k < 4 * n {
            be32(s2, k) - be32(s1, k)
        } else {
            0
        },
    decreases n,
{
    if n > 0 {
        let m = (n - 1) as nat;
        lemma_word_sum_update(s1, s2, k, m);
        if 4 * m != k {
            if 4 * m < k {
                assert(4 * m + 4 <= k);
            } else {
                assert(k + 4 <= 4 * m);
            }
            assert(be32(s1, 4 * (m as int)) == be32(s2, 4 * (m as int)));
        }
    }
}

/// The complete big-endian longwords of `s`, in order.
pub open spec fn longwords(s: Seq<u8>) -> Seq<int> {
    Seq::new(s.len() / 4, |i: int| be32(s, 4 * i))
}

/// The integer sum of a sequence.
pub open spec fn seq_sum(a: Seq<int>) -> int
    decreases a.len(),
{
    if a.len() == 0 {
        0
    } else {
        seq_sum(a.drop_last()) + a.last()
    }
}

proof fn lemma_word_sum_is_seq_sum(s: Seq<u8>, n: nat)
    requires
        n <= s.len() / 4,
    ensures
        word_sum(s, n) == seq_sum(longwords(s).take(n as int)),
    decreases n,
{
    if n > 0 {
        lemma_word_sum_is_seq_sum(s, (n - 1) as nat);
        assert(longwords(s).take(n as int).drop_last() =~= longwords(s).take(n - 1));
    }
}

/// Removing one element from a sequence takes exactly that element off its
/// sum.
proof fn lemma_seq_sum_remove(a: Seq<int>, i: int)
    requires
        0 <= i < a.len(),
    ensures
        seq_sum(a) == seq_sum(a.remove(i)) + a[i],
    decreases a.len(),
{
    if i < a.len() - 1 {
        lemma_seq_sum_remove(a.drop_last(), i);
        assert(a.remove(i).drop_last() =~= a.drop_last().remove(i));
        assert(a.remove(i).last() == a.last());
    } else {
        assert(a.remove(i) =~= a.drop_last());
    }
}

/// Two sequences holding the same elements, in any order, have the same
/// sum.
proof fn lemma_seq_sum_rearranged(a: Seq<int>, b: Seq<int>)
    requires
        a.to_multiset() == b.to_multiset(),
    ensures
        seq_sum(a) == seq_sum(b),
    decreases a.len(),
{
    broadcast use vstd::seq_lib::group_to_multiset_ensures;

    a.to_multiset_ensures();
    b.to_multiset_ensures();
    assert(a.to_multiset().len() == b.to_multiset().len());
    if a.len() == 0 {
        assert(b.len() == 0);
    } else {
        let x = a.last();
        assert(a.drop_last().push(x) =~= a);
        assert(a.to_multiset().count(x) > 0);
        assert(b.contains(x));
        let i = choose|i: int| 0 <= i < b.len() && b[i] == x;
        assert(b.remove(i).to_multiset() =~= a.drop_last().to_multiset());
        lemma_seq_sum_rearranged(a.drop_last(), b.remove(i));
        lemma_seq_sum_remove(b, i);
    }
}

/// The checksum does not depend on the order of the longwords: two images
/// whose complete longwords are the same, in any order, have the same
/// checksum.
pub proof fn lemma_kick_sum_rearranged(s: Seq<u8>, t: Seq<u8>)
    requires
        longwords(s).to_multiset() == longwords(t).to_multiset(),
    ensures
        kick_sum(s) == kick_sum(t),
{
    broadcast use vstd::seq_lib::group_to_multiset_ensures;

    let n = s.len() / 4;
    let m = t.len() / 4;
    longwords(s).to_multiset_ensures();
    longwords(t).to_multiset_ensures();
    assert(longwords(s).to_multiset().len() == longwords(t).to_multiset().len());
    assert(longwords(s).len() == longwords(t).len());
    assert(longwords(s).take(n as int) =~= longwords(s));
    assert(longwords(t).take(m as int) =~= longwords(t));
    lemma_word_sum_is_seq_sum(s, n);
    lemma_word_sum_is_seq_sum(t, m);
    lemma_seq_sum_rearranged(longwords(s), longwords(t));
    assert(4 * n <= s.len() && 4 * m <= t.len());
    lemma_ones_sum_congruent(s, n);
    lemma_ones_sum_congruent(t, m);
    let a = kick_sum(s) as int;
    let b = kick_sum(t) as int;
    let md = ones_modulus();
    assert(a % md == b % md);
    if a != 0 && b != 0 {
        if a == md {
            vstd::arithmetic::div_mod::lemma_mod_self_0(md);
            if b < md {
                vstd::arithmetic::div_mod::lemma_small_mod(b as nat, md as nat);
            }
        } else if b == md {
            vstd::arithmetic::div_mod::lemma_mod_self_0(md);
            vstd::arithmetic::div_mod::lemma_small_mod(a as nat, md as nat);
        } else {
            vstd::arithmetic::div_mod::lemma_small_mod(a as nat, md as nat);
            vstd::arithmetic::div_mod::lemma_small_mod(b as nat, md as nat);
        }
    }
}

proof fn lemma_ones_sum_prefix(s: Seq<u8>, t: Seq<u8>, n: nat)
    requires
        4 * n <= s.len(),
        4 * n <= t.len(),
        forall|i: int| 0 <= i < 4 * n ==> s[i] == t[i],
    ensures
        ones_sum(s, n) == ones_sum(t, n),
    decreases n,
{
    if n > 0 {
        lemma_ones_sum_prefix(s, t, (n - 1) as nat);
        let k = 4 * (n - 1);
        assert(s[k] == t[k] && s[k + 1] == t[k + 1] && s[k + 2] == t[k + 2] && s[k + 3] == t[k + 3]);
    }
}

/// The checksum, byte for byte: an image of fewer than 4 bytes sums to 0,
/// trailing bytes past the last whole longword do not count, and appending
/// the longword `a b c d` to a whole number of longwords adds its
/// big-endian value with the carry out of bit 31 wrapped back into bit 0.
pub proof fn lemma_kick_sum_bytes(s: Seq<u8>, a: u8, b: u8, c: u8, d: u8)
    ensures
        s.len() < 4 ==> kick_sum(s) == 0,
        kick_sum(s) == kick_sum(s.subrange(0, 4 * (s.len() as int / 4))),
        s.len() % 4 == 0 ==> {
            let v = a * 16777216 + b * 65536 + c * 256 + d;
            let k = kick_sum(s) as int;
            kick_sum(s + seq![a, b, c, d]) as int == if k + v > 0xFFFF_FFFF {
                k + v - 0xFFFF_FFFF
            } else {
                k + v
            }
        },
{
    let n = s.len() / 4;
    let p = s.subrange(0, 4 * (n as int));
    assert(p.len() / 4 == n);
    lemma_ones_sum_prefix(s, p, n);
    if s.len() % 4 == 0 {
        let t = s + seq![a, b, c, d];
        assert(t.len() / 4 == n + 1);
        lemma_ones_sum_prefix(s, t, n);
        let q = 4 * (n as int);
        assert(t[q] == a && t[q + 1] == b && t[q + 2] == c && t[q + 3] == d);
    }
}

/// Computes the ones'-complement sum of every complete big-endian longword
/// in `data`.
pub fn checksum_ones_complement(data: &[u8]) -> (sum: u32)
    ensures
        sum == kick_sum(data@),
{
    let len = data.len();
    let n = len / 4;
    let mut sum: u32 = 0;
    let mut i: usize = 0;
    while i < n
        invariant
            i <= n,
            len == data@.len(),
            n == len / 4,
            sum == ones_sum(data@, i as nat),
        decreases n - i,
    {
        assert(4 * i + 4 <= data@.len()) by (nonlinear_arith)
            requires
                i < n,
                n == len / 4,
                len == data@.len(),
        ;
        let word = read_be32(data, 4 * i);
        proof {
            lemma_be32_bounds(data@, 4 * i as int);
        }
        if sum > 0xFFFF_FFFF - word {
            sum = sum - (0xFFFF_FFFF - word);
        } else {
            sum = sum + word;
        }
        i = i + 1;
    }
    sum
}

} // verus!
