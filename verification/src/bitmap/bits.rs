//! Bits of sixty-four-bit words and of sequences of such words.

use vstd::prelude::*;

verus! {

/// Whether bit `b` of `w` is set.
pub open spec fn word_bit(w: u64, b: u64) -> bool {
    b < 64 && (w >> b) & 1 == 1
}

/// The number of set bits among the lowest `n` bits of `w`.
pub open spec fn count_bits(w: u64, n: nat) -> nat
    decreases n,
{
    if n == 0 {
        0
    } else {
        count_bits(w, (n - 1) as nat) + if word_bit(w, (n - 1) as u64) {
            1nat
        } else {
            0nat
        }
    }
}

/// Whether position `v` is set in `words`, read as one long row of bits in
/// which word `i` holds positions `64 * i` to `64 * i + 63`.
pub open spec fn bit_at(words: Seq<u64>, v: int) -> bool {
    0 <= v < 64 * words.len() && word_bit(words[v / 64], (v % 64) as u64)
}

/// The number of set positions below `c`.
pub open spec fn count_below(words: Seq<u64>, c: nat) -> nat
    decreases c,
{
    if c == 0 {
        0
    } else {
        count_below(words, (c - 1) as nat) + if bit_at(words, c - 1) {
            1nat
        } else {
            0nat
        }
    }
}

/// The set positions below `c`, in increasing order.
pub open spec fn bits_below(words: Seq<u64>, c: nat) -> Seq<u16>
    decreases c,
{
    if c == 0 {
        Seq::empty()
    } else if bit_at(words, c - 1) {
        bits_below(words, (c - 1) as nat).push((c - 1) as u16)
    } else {
        bits_below(words, (c - 1) as nat)
    }
}

/// The sum over the first `k` words of their numbers of set bits.
pub open spec fn popcount_sum(words: Seq<u64>, k: nat) -> nat
    decreases k,
{
    if k == 0 {
        0
    } else {
        popcount_sum(words, (k - 1) as nat) + count_bits(words[k - 1], 64)
    }
}

/// A word has at most as many set bits among its lowest `n` as `n`.
pub proof fn lemma_count_bits_bound(w: u64, n: nat)
    ensures
        count_bits(w, n) <= n,
    decreases n,
{
    if n > 0 {
        lemma_count_bits_bound(w, (n - 1) as nat);
    }
}

/// There are at most `c` set positions below `c`.
pub proof fn lemma_count_below_bound(words: Seq<u64>, c: nat)
    ensures
        count_below(words, c) <= c,
    decreases c,
{
    if c > 0 {
        lemma_count_below_bound(words, (c - 1) as nat);
    }
}

/// Within word `k`, counting positions is counting the bits of that word.
pub proof fn lemma_count_within_word(words: Seq<u64>, k: nat, n: nat)
    requires
        k < words.len(),
        n <= 64,
    ensures
        count_below(words, 64 * k + n) == count_below(words, 64 * k) + count_bits(
            words[k as int],
            n,
        ),
    decreases n,
{
    if n > 0 {
        lemma_count_within_word(words, k, (n - 1) as nat);
        let v: int = 64 * k + n - 1;
        assert(v / 64 == k as int && v % 64 == n - 1);
    }
}

/// The set positions below a word boundary are as many as the set bits of
/// the words before it.
pub proof fn lemma_popcount_sum_counts(words: Seq<u64>, k: nat)
    requires
        k <= words.len(),
    ensures
        popcount_sum(words, k) == count_below(words, 64 * k),
    decreases k,
{
    if k > 0 {
        lemma_popcount_sum_counts(words, (k - 1) as nat);
        lemma_count_within_word(words, (k - 1) as nat, 64);
    }
}

/// `bits_below` lists as many positions as `count_below` counts.
pub proof fn lemma_bits_below_len(words: Seq<u64>, c: nat)
    ensures
        bits_below(words, c).len() == count_below(words, c),
    decreases c,
{
    if c > 0 {
        lemma_bits_below_len(words, (c - 1) as nat);
    }
}

/// `bits_below` lists exactly the set positions below `c`, each once and in
/// increasing order.
pub proof fn lemma_bits_below_members(words: Seq<u64>, c: nat)
    requires
        c <= 65536,
    ensures
        forall|i: int|
            0 <= i < bits_below(words, c).len() ==> (#[trigger] bits_below(words, c)[i]) < c
            && bit_at(words, bits_below(words, c)[i] as int),
        forall|i: int, j: int|
            0 <= i < j < bits_below(words, c).len() ==> bits_below(words, c)[i] < bits_below(
                words,
                c,
            )[j],
        forall|v: u16| v < c && bit_at(words, v as int) ==> bits_below(words, c).contains(v),
    decreases c,
{
    if c > 0 {
        let prev = bits_below(words, (c - 1) as nat);
        lemma_bits_below_members(words, (c - 1) as nat);
        let cur = bits_below(words, c);
        assert forall|v: u16| v < c && bit_at(words, v as int) implies cur.contains(v) by {
            if v < c - 1 {
                assert(prev.contains(v));
                let i = choose|i: int| 0 <= i < prev.len() && prev[i] == v;
                assert(cur[i] == v);
            } else {
                assert(cur[cur.len() - 1] == v);
            }
        }
    }
}

/// The set positions below `c` are those below `b` followed by those from
/// `b` on.
pub proof fn lemma_bits_below_prefix(words: Seq<u64>, b: nat, c: nat)
    requires
        b <= c,
    ensures
        bits_below(words, b).is_prefix_of(bits_below(words, c)),
    decreases c,
{
    if b < c {
        lemma_bits_below_prefix(words, b, (c - 1) as nat);
    }
}

/// A word without set bits adds no position.
pub proof fn lemma_zero_word(words: Seq<u64>, k: nat, n: nat)
    requires
        k < words.len(),
        words[k as int] == 0,
        n <= 64,
    ensures
        bits_below(words, 64 * k + n) == bits_below(words, 64 * k),
    decreases n,
{
    if n > 0 {
        lemma_zero_word(words, k, (n - 1) as nat);
        let v: int = 64 * k + n - 1;
        assert(v / 64 == k as int && v % 64 == n - 1);
        let b: u64 = (n - 1) as u64;
        assert((0u64 >> b) & 1 != 1) by (bit_vector);
    }
}

/// Two words share a set bit exactly if their conjunction is not zero.
pub proof fn lemma_and_zero(a: u64, b: u64)
    ensures
        (a & b == 0) <==> (forall|i: u64| i < 64 ==> !(word_bit(a, i) && word_bit(b, i))),
{
    if a & b == 0 {
        assert forall|i: u64| i < 64 implies !(word_bit(a, i) && word_bit(b, i)) by {
            assert(a & b == 0 && i < 64 ==> !((a >> i) & 1 == 1 && (b >> i) & 1 == 1))
                by (bit_vector);
        }
    } else {
        let x: u64 = a & b;
        vstd::std_specs::bits::axiom_u64_trailing_zeros(x);
        let t: u64 = vstd::std_specs::bits::u64_trailing_zeros(x) as u64;
        assert(t < 64);
        assert(x == a & b && t < 64 && (x >> t) & 1 == 1 ==> (a >> t) & 1 == 1 && (b >> t) & 1
            == 1) by (bit_vector);
        assert(word_bit(a, t) && word_bit(b, t));
    }
}

/// Setting a bit that was clear sets that bit and no other.
pub proof fn lemma_set_bit(w: u64, b: u64)
    requires
        b < 64,
    ensures
        forall|i: u64|
            i < 64 ==> (#[trigger] word_bit(w | (1u64 << b), i) <==> (word_bit(w, i) || i == b)),
{
    assert forall|i: u64| i < 64 implies (#[trigger] word_bit(w | (1u64 << b), i) <==> (word_bit(
        w,
        i,
    ) || i == b)) by {
        assert(b < 64 && i < 64 ==> ((((w | (1u64 << b)) >> i) & 1 == 1) <==> ((w >> i) & 1 == 1
            || i == b))) by (bit_vector);
    }
}

/// Whether bit `b` of `w` is set.
pub fn test_bit(w: u64, b: u64) -> (r: bool)
    requires
        b < 64,
    ensures
        r == word_bit(w, b),
{
    (w >> b) & 1 == 1
}

/// `u64::count_ones`: the number of ones in the binary representation.
#[verifier::external_body]
pub(crate) fn count_ones(w: u64) -> (n: u32)
    ensures
        n == count_bits(w, 64),
{
    w.count_ones()
}

/// The words with position `v` set.
pub open spec fn with_bit(words: Seq<u64>, v: int) -> Seq<u64> {
    words.update(v / 64, words[v / 64] | (1u64 << ((v % 64) as u64)))
}

/// Setting a position sets that position and no other.
pub proof fn lemma_with_bit(words: Seq<u64>, v: int)
    requires
        0 <= v < 64 * words.len(),
    ensures
        forall|x: int| #[trigger] bit_at(with_bit(words, v), x) <==> (bit_at(words, x) || x == v),
{
    let k: int = v / 64;
    let b: u64 = (v % 64) as u64;
    lemma_set_bit(words[k], b);
    assert forall|x: int| #[trigger] bit_at(with_bit(words, v), x) <==> (bit_at(words, x) || x
        == v) by {
        if 0 <= x < 64 * words.len() && x / 64 == k {
            let i: u64 = (x % 64) as u64;
            assert(word_bit(words[k] | (1u64 << b), i) <==> (word_bit(words[k], i) || i == b));
        }
    }
}

/// Setting a position that was clear raises the count of every bound above
/// it by one.
pub proof fn lemma_with_bit_count(words: Seq<u64>, v: int, c: nat)
    requires
        0 <= v < 64 * words.len(),
        !bit_at(words, v),
    ensures
        count_below(with_bit(words, v), c) == count_below(words, c) + if v < c {
            1nat
        } else {
            0nat
        },
    decreases c,
{
    if c > 0 {
        lemma_with_bit_count(words, v, (c - 1) as nat);
        lemma_with_bit(words, v);
    }
}

/// Words that are all zero have no set position.
pub proof fn lemma_zero_words(words: Seq<u64>, c: nat)
    requires
        forall|k: int| 0 <= k < words.len() ==> words[k] == 0,
    ensures
        count_below(words, c) == 0,
        forall|x: int| !bit_at(words, x),
    decreases c,
{
    assert forall|x: int| !bit_at(words, x) by {
        if 0 <= x < 64 * words.len() {
            let b: u64 = (x % 64) as u64;
            assert((0u64 >> b) & 1 != 1) by (bit_vector);
        }
    }
    if c > 0 {
        lemma_zero_words(words, (c - 1) as nat);
    }
}

/// Sets bit `b` of `w`.
pub fn set_bit(w: u64, b: u64) -> (r: u64)
    requires
        b < 64,
    ensures
        r == w | (1u64 << b),
{
    w | (1u64 << b)
}

} // verus!
