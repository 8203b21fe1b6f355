//! Letter mask codec: a word maps to a 32-bit mask where bit `i` is set
//! iff the letter `'a' + i` occurs in the word.

use vstd::prelude::*;
use vstd::string::StrSliceExecFns;

verus! {

/// Index of a letter in the alphabet: `Some(i)` iff `c`, after ASCII
/// case-folding, is the letter with index `i`; `None` for everything else.
pub open spec fn letter_index(c: char) -> Option<u32> {
    if 97 <= c as u32 && c as u32 <= 122 {
        Some(((c as u32) - 97) as u32)
    } else if 65 <= c as u32 && c as u32 <= 90 {
        Some(((c as u32) - 65) as u32)
    } else {
        None
    }
}

/// Every character of `s` is an ASCII letter.
pub open spec fn all_letters(s: Seq<char>) -> bool {
    forall|i: int| 0 <= i < s.len() ==> (#[trigger] letter_index(s[i])) is Some
}

/// The single-bit mask contributed by one character (zero for a non-letter).
pub open spec fn char_bit(c: char) -> u32 {
    match letter_index(c) {
        Some(i) => 1u32 << i,
        None => 0u32,
    }
}

/// The letter-presence mask of a word: the union of the bits of its letters.
pub open spec fn mask_spec(s: Seq<char>) -> u32
    decreases s.len(),
{
    if s.len() == 0 {
        0u32
    } else {
        mask_spec(s.drop_last()) | char_bit(s.last())
    }
}

/// Bit `j` of `m`.
pub open spec fn bit(m: u32, j: u32) -> bool {
    (m >> j) & 1 == 1
}

/// How many of the bit positions `0 .. k` of `m` are set.
pub open spec fn bits_below(m: u32, k: nat) -> nat
    decreases k,
{
    if k == 0 {
        0
    } else {
        bits_below(m, (k - 1) as nat) + if bit(m, (k - 1) as u32) {
            1nat
        } else {
            0nat
        }
    }
}

/// Number of set bits of `m`.
pub open spec fn popcount(m: u32) -> nat {
    bits_below(m, 32)
}

/// The alphabet indices of the letters occurring in `s`.
pub open spec fn letters_of(s: Seq<char>) -> Set<u32> {
    Set::new(|j: u32| exists|i: int| 0 <= i < s.len() && letter_index(s[i]) == Some(j))
}

/// Letter index of `c`, or `None` if `c` is not an ASCII letter.
pub fn char_to_index(c: char) -> (r: Option<u32>)
    ensures
        r == letter_index(c),
{
    let u = c as u32;
    if 97 <= u && u <= 122 {
        Some(u - 97)
    } else if 65 <= u && u <= 90 {
        Some(u - 65)
    } else {
        None
    }
}

/// The letter mask of `w`, or `None` iff `w` contains a non-letter character.
pub fn word_bitmask(w: &str) -> (r: Option<u32>)
    ensures
        r is Some <==> all_letters(w@),
        r is Some ==> r == Some(mask_spec(w@)),
{
    let n = w.unicode_len();
    let mut m: u32 = 0;
    let mut i: usize = 0;
    while i < n
        invariant
            n == w@.len(),
            0 <= i <= n,
            all_letters(w@.take(i as int)),
            m == mask_spec(w@.take(i as int)),
        decreases n - i,
    {
        let c = w.get_char(i);
        match char_to_index(c) {
            Some(j) => {
                assert(j < 26);
                m = m | (1u32 << j);
                proof {
                    let pre = w@.take(i as int);
                    let post = w@.take(i as int + 1);
                    assert(post.drop_last() =~= pre);
                    assert(post.last() == w@[i as int]);
                    assert(forall|k: int| 0 <= k < post.len() ==> (#[trigger] letter_index(
                        post[k],
                    )) is Some) by {
                        assert(forall|k: int| 0 <= k < pre.len() ==> (#[trigger] letter_index(
                            pre[k],
                        )) is Some);
                    }
                }
                i = i + 1;
            },
            None => {
                assert(!all_letters(w@)) by {
                    assert(letter_index(w@[i as int]) is None);
                }
                return None;
            },
        }
    }
    proof {
        assert(w@.take(n as int) =~= w@);
    }
    Some(m)
}

/// Bit `j` of a word's mask is set exactly when some character of the word is
/// the letter with alphabet index `j`.
pub proof fn lemma_mask_bits(s: Seq<char>)
    ensures
        forall|j: u32|
            j < 32 ==> ((#[trigger] bit(mask_spec(s), j)) <==> exists|i: int|
                0 <= i < s.len() && (#[trigger] letter_index(s[i])) == Some(j)),
    decreases s.len(),
{
    assert(forall|j: u32| j < 32 ==> !((0u32 >> j) & 1 == 1)) by (bit_vector);
    if s.len() != 0 {
        let rest = s.drop_last();
        let c = s.last();
        lemma_mask_bits(rest);
        let mr = mask_spec(rest);
        let cb = char_bit(c);
        assert(mask_spec(s) == mr | cb);
        assert(forall|a: u32, b: u32, j: u32|
            j < 32 ==> ((((a | b) >> j) & 1 == 1) <==> (((a >> j) & 1 == 1) || ((b >> j) & 1
                == 1)))) by (bit_vector);
        assert(forall|i0: u32, j: u32|
            i0 < 26 && j < 32 ==> ((((1u32 << i0) >> j) & 1 == 1) <==> j == i0)) by (bit_vector);
        assert forall|j: u32| j < 32 implies ((#[trigger] bit(mask_spec(s), j)) <==> exists|i: int|
            0 <= i < s.len() && (#[trigger] letter_index(s[i])) == Some(j)) by {
            assert(bit(mask_spec(s), j) <==> (bit(mr, j) || bit(cb, j)));
            if bit(mask_spec(s), j) {
                if bit(mr, j) {
                    let i = choose|i: int|
                        0 <= i < rest.len() && (#[trigger] letter_index(rest[i])) == Some(j);
                    assert(s[i] == rest[i]);
                    assert(letter_index(s[i]) == Some(j));
                } else {
                    let i0 = letter_index(c)->Some_0;
                    assert(i0 < 26);
                    assert(j == i0);
                    assert(s[s.len() - 1] == c);
                    assert(letter_index(s[s.len() - 1]) == Some(j));
                }
            }
            if exists|i: int| 0 <= i < s.len() && (#[trigger] letter_index(s[i])) == Some(j) {
                let i = choose|i: int|
                    0 <= i < s.len() && (#[trigger] letter_index(s[i])) == Some(j);
                if i < s.len() - 1 {
                    assert(rest[i] == s[i]);
                    assert(bit(mr, j));
                } else {
                    assert(s[i] == c);
                    assert(cb == 1u32 << j);
                    assert(bit(cb, j));
                }
            }
        }
    }
}

/// The set bits of `m` among positions `0 .. k`, as a set of positions.
pub open spec fn bitset_below(m: u32, k: nat) -> Set<u32> {
    Set::new(|j: u32| (j as nat) < k && bit(m, j))
}

pub proof fn lemma_bits_below_card(m: u32, k: nat)
    requires
        k <= 32,
    ensures
        bitset_below(m, k).finite(),
        bitset_below(m, k).len() == bits_below(m, k),
    decreases k,
{
    broadcast use vstd::set::group_set_axioms;

    if k == 0 {
        assert(bitset_below(m, 0) =~= Set::<u32>::empty());
    } else {
        lemma_bits_below_card(m, (k - 1) as nat);
        let prev = bitset_below(m, (k - 1) as nat);
        let kk = (k - 1) as u32;
        if bit(m, kk) {
            assert(bitset_below(m, k) =~= prev.insert(kk));
            assert(!prev.contains(kk));
        } else {
            assert(bitset_below(m, k) =~= prev);
        }
    }
}

/// Law: the mask of a word has exactly the bits of the word's distinct
/// letters, and the popcount of the mask is the number of distinct letters.
pub proof fn lemma_mask_correct(s: Seq<char>)
    ensures
        forall|j: u32|
            j < 32 ==> ((#[trigger] bit(mask_spec(s), j)) <==> letters_of(s).contains(j)),
        letters_of(s).finite(),
        popcount(mask_spec(s)) == letters_of(s).len(),
{
    lemma_mask_bits(s);
    lemma_bits_below_card(mask_spec(s), 32);
    assert(letters_of(s) =~= bitset_below(mask_spec(s), 32)) by {
        assert forall|j: u32| letters_of(s).contains(j) implies bitset_below(
            mask_spec(s),
            32,
        ).contains(j) by {
            let i = choose|i: int|
                0 <= i < s.len() && (#[trigger] letter_index(s[i])) == Some(j);
            assert(j < 26);
            assert(bit(mask_spec(s), j));
        }
        assert forall|j: u32| bitset_below(mask_spec(s), 32).contains(j) implies letters_of(
            s,
        ).contains(j) by {
            assert(bit(mask_spec(s), j) && j < 32);
        }
    }
}

pub proof fn lemma_bits_below_disjoint(a: u32, b: u32, k: nat)
    requires
        a & b == 0,
        k <= 32,
    ensures
        bits_below(a | b, k) == bits_below(a, k) + bits_below(b, k),
    decreases k,
{
    if k != 0 {
        lemma_bits_below_disjoint(a, b, (k - 1) as nat);
        let j = (k - 1) as u32;
        assert((((a | b) >> j) & 1 == 1) <==> (((a >> j) & 1 == 1) || ((b >> j) & 1 == 1)))
            by (bit_vector);
        assert(!(((a >> j) & 1 == 1) && ((b >> j) & 1 == 1))) by (bit_vector)
            requires
                a & b == 0u32,
        ;
    }
}

/// Law: the popcount of the union of two disjoint masks is the sum of their
/// popcounts.
pub proof fn lemma_popcount_disjoint(a: u32, b: u32)
    requires
        a & b == 0,
    ensures
        popcount(a | b) == popcount(a) + popcount(b),
{
    lemma_bits_below_disjoint(a, b, 32);
}

/// A word of at least one letter has a nonzero mask.
pub proof fn lemma_mask_nonzero(s: Seq<char>)
    requires
        all_letters(s),
        s.len() > 0,
    ensures
        mask_spec(s) != 0,
{
    lemma_mask_bits(s);
    let j = letter_index(s[0])->Some_0;
    assert(j < 26);
    assert(letter_index(s[0]) == Some(j));
    assert(bit(mask_spec(s), j));
    assert(forall|j0: u32| j0 < 32 ==> !((0u32 >> j0) & 1 == 1)) by (bit_vector);
}

/// Five pairwise-disjoint masks of five bits each unite to 25 bits.
pub proof fn lemma_five_disjoint_popcount(m0: u32, m1: u32, m2: u32, m3: u32, m4: u32)
    requires
        m0 & m1 == 0,
        m0 & m2 == 0,
        m0 & m3 == 0,
        m0 & m4 == 0,
        m1 & m2 == 0,
        m1 & m3 == 0,
        m1 & m4 == 0,
        m2 & m3 == 0,
        m2 & m4 == 0,
        m3 & m4 == 0,
        popcount(m0) == 5,
        popcount(m1) == 5,
        popcount(m2) == 5,
        popcount(m3) == 5,
        popcount(m4) == 5,
    ensures
        popcount(m0 | m1 | m2 | m3 | m4) == 25,
{
    assert((m0 | m1) & m2 == 0 && (m0 | m1 | m2) & m3 == 0 && (m0 | m1 | m2 | m3) & m4 == 0)
        by (bit_vector)
        requires
            m0 & m2 == 0u32,
            m1 & m2 == 0u32,
            m0 & m3 == 0u32,
            m1 & m3 == 0u32,
            m2 & m3 == 0u32,
            m0 & m4 == 0u32,
            m1 & m4 == 0u32,
            m2 & m4 == 0u32,
            m3 & m4 == 0u32,
    ;
    lemma_popcount_disjoint(m0, m1);
    lemma_popcount_disjoint(m0 | m1, m2);
    lemma_popcount_disjoint(m0 | m1 | m2, m3);
    lemma_popcount_disjoint(m0 | m1 | m2 | m3, m4);
}

/// Every character of `s` is a lowercase ASCII letter.
pub open spec fn lowercase_letters(s: Seq<char>) -> bool {
    forall|i: int| 0 <= i < s.len() ==> 97 <= (#[trigger] s[i]) as u32 && s[i] as u32 <= 122
}

proof fn lemma_char_code_injective(a: char, b: char)
    requires
        a as u32 == b as u32,
    ensures
        a == b,
{
}

proof fn lemma_letters_card(s: Seq<char>)
    requires
        lowercase_letters(s),
        s.no_duplicates(),
    ensures
        letters_of(s).finite(),
        letters_of(s).len() == s.len(),
    decreases s.len(),
{
    broadcast use vstd::set::group_set_axioms;

    if s.len() == 0 {
        assert(letters_of(s) =~= Set::<u32>::empty());
    } else {
        let rest = s.drop_last();
        let c = s.last();
        assert(forall|i: int| 0 <= i < rest.len() ==> rest[i] == s[i]);
        lemma_letters_card(rest);
        let jc = ((c as u32) - 97) as u32;
        assert(letter_index(c) == Some(jc));
        assert(letters_of(s) =~= letters_of(rest).insert(jc)) by {
            assert forall|j: u32| letters_of(s).contains(j) implies letters_of(
                rest,
            ).insert(jc).contains(j) by {
                let i = choose|i: int|
                    0 <= i < s.len() && (#[trigger] letter_index(s[i])) == Some(j);
                if i < s.len() - 1 {
                    assert(letter_index(rest[i]) == Some(j));
                } else {
                    assert(j == jc);
                }
            }
            assert forall|j: u32| letters_of(rest).insert(jc).contains(j) implies letters_of(
                s,
            ).contains(j) by {
                if letters_of(rest).contains(j) {
                    let i = choose|i: int|
                        0 <= i < rest.len() && (#[trigger] letter_index(rest[i])) == Some(j);
                    assert(letter_index(s[i]) == Some(j));
                } else {
                    assert(letter_index(s[s.len() - 1]) == Some(jc));
                }
            }
        }
        assert(!letters_of(rest).contains(jc)) by {
            if letters_of(rest).contains(jc) {
                let i = choose|i: int|
                    0 <= i < rest.len() && (#[trigger] letter_index(rest[i])) == Some(jc);
                assert(rest[i] as u32 == c as u32);
                lemma_char_code_injective(rest[i], c);
                assert(s[i] == s[s.len() - 1]);
            }
        }
    }
}

/// For a word of pairwise-distinct lowercase letters, the popcount of its
/// mask equals the word's length.
pub proof fn lemma_distinct_lowercase_popcount(s: Seq<char>)
    requires
        lowercase_letters(s),
        s.no_duplicates(),
    ensures
        popcount(mask_spec(s)) == s.len(),
{
    lemma_mask_correct(s);
    lemma_letters_card(s);
}

} // verus!
