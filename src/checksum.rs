//! The Internet checksum: the one's-complement sum of 16-bit big-endian words.
use vstd::prelude::*;

verus! {

/// The `j`-th big-endian 16-bit word of `s`; an odd last byte is the high
/// byte of a word whose low byte is zero.
pub open spec fn word_at(s: Seq<u8>, j: int) -> nat {
    (s[2 * j] as nat) * 256 + if 2 * j + 1 < s.len() {
        s[2 * j + 1] as nat
    } else {
        0nat
    }
}

/// The number of 16-bit words that cover `s`.
pub open spec fn word_count(s: Seq<u8>) -> nat {
    ((s.len() + 1) / 2) as nat
}

/// The sum of the first `n` words of `s`, leaving out the word at `skip`.
pub open spec fn sum_words(s: Seq<u8>, skip: int, n: nat) -> nat
    decreases n,
{
    if n == 0 {
        0
    } else {
        sum_words(s, skip, (n - 1) as nat) + if n - 1 == skip {
            0nat
        } else {
            word_at(s, n - 1)
        }
    }
}

/// The sum of all the words of `s` but the one at `skip`.
pub open spec fn word_sum(s: Seq<u8>, skip: int) -> nat {
    sum_words(s, skip, word_count(s))
}

/// `x` reduced to 16 bits by adding the carries back in (end-around carry),
/// until no carry is left: the value in `1 ..= 0xFFFF` congruent to `x`
/// modulo `0xFFFF`, or 0 for 0.
pub open spec fn fold_carries(x: nat) -> nat {
    if x == 0 {
        0
    } else {
        ((x - 1) % 0xFFFF + 1) as nat
    }
}

/// The checksum of `s` with the word at `skip` left out: the complement of
/// the folded sum of the other words; 0 for no data.
pub open spec fn internet_checksum(s: Seq<u8>, skip: int) -> u16 {
    if s.len() == 0 {
        0
    } else {
        (0xFFFF - fold_carries(word_sum(s, skip))) as u16
    }
}

/// `s` checks: its words, the checksum word among them, add up to `0xFFFF`
/// in one's-complement arithmetic.
pub open spec fn checksum_valid(s: Seq<u8>) -> bool {
    fold_carries(word_sum(s, -1)) == 0xFFFF
}

/// `s` with the big-endian `v` written at `i` and `i + 1`.
pub open spec fn put_u16(s: Seq<u8>, i: int, v: u16) -> Seq<u8> {
    s.update(i, (v / 256) as u8).update(i + 1, (v % 256) as u8)
}

/// Relies on `pnet::packet::util::checksum`: the complement of the
/// one's-complement sum of the big-endian words of `data`, word `skipword`
/// left out and an odd last byte padded with a zero byte; 0 for no data.
/// It adds the words in a `u32`, which bounds the length.
#[verifier::external_body]
pub(crate) fn ones_complement_checksum(data: &[u8], skipword: usize) -> (r: u16)
    requires
        data@.len() <= 0x2_0000,
    ensures
        r == internet_checksum(data@, skipword as int),
{
    pnet::packet::util::checksum(data, skipword)
}

// ---- lemmas -------------------------------------------------------------
/// A skip index outside the words leaves nothing out.
pub proof fn lemma_skip_outside(s: Seq<u8>, skip: int, n: nat)
    requires
        skip < 0 || skip >= n,
    ensures
        sum_words(s, skip, n) == sum_words(s, -1, n),
    decreases n,
{
    if n > 0 {
        lemma_skip_outside(s, skip, (n - 1) as nat);
    }
}

/// Writing `v` as word `k` of `s` makes the full sum the sum without word `k`,
/// plus `v`.
pub proof fn lemma_sum_after_put(s: Seq<u8>, k: int, v: u16, n: nat)
    requires
        0 <= k,
        2 * k + 1 < s.len(),
        n <= word_count(s),
    ensures
        sum_words(put_u16(s, 2 * k, v), -1, n) == sum_words(s, k, n) + if k < n {
            v as nat
        } else {
            0nat
        },
    decreases n,
{
    let t = put_u16(s, 2 * k, v);
    if n > 0 {
        lemma_sum_after_put(s, k, v, (n - 1) as nat);
        let j = n - 1;
        if j == k {
            assert(word_at(t, j) == v as nat);
        } else {
            assert(t[2 * j] == s[2 * j]);
            if 2 * j + 1 < s.len() {
                assert(t[2 * j + 1] == s[2 * j + 1]);
            }
            assert(word_at(t, j) == word_at(s, j));
        }
    }
}

/// A sum to which the complement of its own fold is added folds to `0xFFFF`.
pub proof fn lemma_fold_complement(x: nat)
    ensures
        fold_carries(x) <= 0xFFFF,
        fold_carries(x + (0xFFFF - fold_carries(x)) as nat) == 0xFFFF,
{
    if x > 0 {
        let q = (x - 1) / 0xFFFF;
        let r = (x - 1) % 0xFFFF;
        assert(x - 1 == q * 0xFFFF + r);
        let y = x + (0xFFFF - (r + 1));
        assert(y - 1 == q * 0xFFFF + 0xFFFE);
        assert((q * 0xFFFF + 0xFFFE) % 0xFFFF == 0xFFFE) by (nonlinear_arith)
            requires
                q >= 0,
        ;
    }
}

} // verus!
