//! Word mask index: from a sequence of raw lines, the collection of eligible
//! words grouped by their letter mask (anagram classes), one class per
//! distinct mask, sorted by mask.

use vstd::prelude::*;
use vstd::string::StrSliceExecFns;

use crate::mask::{all_letters, mask_spec, word_bitmask};

verus! {

/// A line is eligible when it has exactly five characters, all of them
/// letters, and — when duplicate letters per word are disallowed — its five
/// characters are pairwise distinct.
pub open spec fn eligible(s: Seq<char>, allow_dup: bool) -> bool {
    &&& s.len() == 5
    &&& all_letters(s)
    &&& (allow_dup || s.no_duplicates())
}

/// A distinct letter mask together with every eligible word producing it
/// (the mask's anagram group), in input order.
pub struct MaskClass {
    pub mask: u32,
    pub words: Vec<String>,
}

impl Clone for MaskClass {
    fn clone(&self) -> (r: MaskClass)
        ensures
            r.mask == self.mask,
            r.words@ == self.words@,
    {
        let r = MaskClass { mask: self.mask, words: self.words.clone() };
        proof {
            assert(r.words@ =~= self.words@);
        }
        r
    }
}

/// The eligible lines whose mask is `m`, in input order.
pub open spec fn words_with_mask(lines: Seq<String>, allow_dup: bool, m: u32) -> Seq<String> {
    lines.filter(|l: String| eligible(l@, allow_dup) && mask_spec(l@) == m)
}

impl MaskClass {
    /// The class groups exactly the eligible input words bearing its mask.
    pub open spec fn wf(self, lines: Seq<String>, allow_dup: bool) -> bool {
        &&& self.words@ == words_with_mask(lines, allow_dup, self.mask)
        &&& self.words@.len() > 0
    }
}

/// Appending one line extends exactly the word group of its own mask.
proof fn lemma_words_push(lines: Seq<String>, l: String, allow_dup: bool, m: u32)
    ensures
        words_with_mask(lines.push(l), allow_dup, m) == (if eligible(l@, allow_dup) && mask_spec(
            l@,
        ) == m {
            words_with_mask(lines, allow_dup, m).push(l)
        } else {
            words_with_mask(lines, allow_dup, m)
        }),
{
    reveal(Seq::filter);
    assert(lines.push(l).drop_last() =~= lines);
    assert(lines.push(l).last() == l);
}

/// A nonempty word group of mask `m` comes from some eligible line of mask `m`.
pub proof fn lemma_words_source(lines: Seq<String>, allow_dup: bool, m: u32)
    ensures
        words_with_mask(lines, allow_dup, m).len() > 0 ==> exists|i: int|
            0 <= i < lines.len() && eligible((#[trigger] lines[i])@, allow_dup) && mask_spec(
                lines[i]@,
            ) == m,
    decreases lines.len(),
{
    reveal(Seq::filter);
    if lines.len() > 0 {
        let rest = lines.drop_last();
        lemma_words_source(rest, allow_dup, m);
        if words_with_mask(lines, allow_dup, m).len() > 0 {
            if eligible(lines.last()@, allow_dup) && mask_spec(lines.last()@) == m {
                assert(lines[lines.len() - 1] == lines.last());
            } else {
                assert(words_with_mask(rest, allow_dup, m).len() > 0);
                let i = choose|i: int|
                    0 <= i < rest.len() && eligible((#[trigger] rest[i])@, allow_dup)
                        && mask_spec(rest[i]@) == m;
                assert(lines[i] == rest[i]);
            }
        }
    }
}

/// True iff the five characters of `w` are pairwise distinct.
fn distinct_chars5(w: &str) -> (r: bool)
    requires
        w@.len() == 5,
    ensures
        r == w@.no_duplicates(),
{
    let mut a: usize = 0;
    while a < 5
        invariant
            w@.len() == 5,
            a <= 5,
            forall|i: int, j: int| 0 <= i < j < 5 && i < a ==> w@[i] != w@[j],
        decreases 5 - a,
    {
        let ca = w.get_char(a);
        let mut b: usize = a + 1;
        while b < 5
            invariant
                w@.len() == 5,
                a < 5,
                a + 1 <= b <= 5,
                ca == w@[a as int],
                forall|j: int| a < j < b ==> w@[a as int] != w@[j],
                forall|i: int, j: int| 0 <= i < j < 5 && i < a ==> w@[i] != w@[j],
            decreases 5 - b,
        {
            let cb = w.get_char(b);
            if ca == cb {
                assert(w@[a as int] == w@[b as int] && a as int != b as int);
                assert(!w@.no_duplicates());
                return false;
            }
            b = b + 1;
        }
        a = a + 1;
    }
    true
}

/// Decides eligibility of one line and computes its mask: `Some(mask)` iff
/// the line has exactly five characters, all letters, and (when duplicate
/// letters are disallowed) five pairwise-distinct characters.
pub fn check_word(line: &str, allow_dup: bool) -> (r: Option<u32>)
    ensures
        r is Some <==> eligible(line@, allow_dup),
        r is Some ==> r == Some(mask_spec(line@)),
{
    let n = line.unicode_len();
    if n != 5 {
        return None;
    }
    if !allow_dup && !distinct_chars5(line) {
        return None;
    }
    word_bitmask(line)
}

/// Builds the mask classes of the eligible words of `lines`: one class per
/// distinct mask, sorted by mask, each carrying its full anagram group.
pub fn build_index(lines: &Vec<String>, allow_dup: bool) -> (r: Vec<MaskClass>)
    ensures
        forall|i: int, j: int|
            #![trigger r@[i], r@[j]]
            0 <= i < j < r@.len() ==> r@[i].mask < r@[j].mask,
        forall|k: int| 0 <= k < r@.len() ==> (#[trigger] r@[k]).wf(lines@, allow_dup),
        forall|i: int|
            #![trigger lines@[i]]
            0 <= i < lines@.len() && eligible(lines@[i]@, allow_dup) ==> exists|k: int|
                0 <= k < r@.len() && (#[trigger] r@[k]).mask == mask_spec(lines@[i]@),
{
    let mut r: Vec<MaskClass> = Vec::new();
    let mut li: usize = 0;
    while li < lines.len()
        invariant
            li <= lines@.len(),
            forall|i: int, j: int|
                #![trigger r@[i], r@[j]]
                0 <= i < j < r@.len() ==> r@[i].mask < r@[j].mask,
            forall|k: int|
                0 <= k < r@.len() ==> (#[trigger] r@[k]).wf(lines@.take(li as int), allow_dup),
            forall|i: int|
                #![trigger lines@[i]]
                0 <= i < li && eligible(lines@[i]@, allow_dup) ==> exists|k: int|
                    0 <= k < r@.len() && (#[trigger] r@[k]).mask == mask_spec(lines@[i]@),
        decreases lines@.len() - li,
    {
        let ghost pre = lines@.take(li as int);
        let ghost post = lines@.take(li as int + 1);
        proof {
            assert(post =~= pre.push(lines@[li as int]));
        }
        let line = &lines[li];
        match check_word(line.as_str(), allow_dup) {
            Some(m) => {
                let mut p: usize = 0;
                while p < r.len() && r[p].mask < m
                    invariant
                        p <= r@.len(),
                        forall|q: int| 0 <= q < p ==> (#[trigger] r@[q]).mask < m,
                        forall|i: int, j: int|
                            #![trigger r@[i], r@[j]]
                            0 <= i < j < r@.len() ==> r@[i].mask < r@[j].mask,
                    decreases r@.len() - p,
                {
                    p = p + 1;
                }
                let ghost old_r = r@;
                if p < r.len() && r[p].mask == m {
                    let mut cls = r.remove(p);
                    cls.words.push(line.clone());
                    r.insert(p, cls);
                    proof {
                        assert(r@ =~= old_r.update(p as int, r@[p as int]));
                        assert forall|k: int| 0 <= k < r@.len() implies (#[trigger] r@[k]).wf(
                            post,
                            allow_dup,
                        ) by {
                            lemma_words_push(pre, lines@[li as int], allow_dup, r@[k].mask);
                            if k != p {
                                assert(r@[k] == old_r[k]);
                                assert(r@[k].mask != m);
                            } else {
                                assert(r@[k].mask == m);
                                assert(r@[k].words@ == old_r[k].words@.push(lines@[li as int]));
                            }
                        }
                        assert forall|i: int|
                            #![trigger lines@[i]]
                            0 <= i < li + 1 && eligible(lines@[i]@, allow_dup) implies exists|
                            k: int,
                        |
                            0 <= k < r@.len() && (#[trigger] r@[k]).mask == mask_spec(
                                lines@[i]@,
                            ) by {
                            if i == li {
                                assert(r@[p as int].mask == m);
                            } else {
                                let k0 = choose|k0: int|
                                    0 <= k0 < old_r.len() && (#[trigger] old_r[k0]).mask
                                        == mask_spec(lines@[i]@);
                                assert(r@[k0].mask == old_r[k0].mask);
                            }
                        }
                    }
                } else {
                    let mut ws: Vec<String> = Vec::new();
                    ws.push(line.clone());
                    r.insert(p, MaskClass { mask: m, words: ws });
                    proof {
                        assert forall|k: int| 0 <= k < r@.len() implies (#[trigger] r@[k]).wf(
                            post,
                            allow_dup,
                        ) by {
                            lemma_words_push(pre, lines@[li as int], allow_dup, r@[k].mask);
                            if k < p {
                                assert(r@[k] == old_r[k]);
                                assert(r@[k].mask < m);
                            } else if k == p {
                                assert(r@[k].mask == m);
                                assert(words_with_mask(pre, allow_dup, m).len() == 0) by {
                                    lemma_words_source(pre, allow_dup, m);
                                    if words_with_mask(pre, allow_dup, m).len() > 0 {
                                        let i = choose|i: int|
                                            0 <= i < pre.len() && eligible(
                                                (#[trigger] pre[i])@,
                                                allow_dup,
                                            ) && mask_spec(pre[i]@) == m;
                                        assert(lines@[i] == pre[i]);
                                        assert(eligible(lines@[i]@, allow_dup));
                                        let k0 = choose|k0: int|
                                            0 <= k0 < old_r.len() && (#[trigger] old_r[k0]).mask
                                                == m;
                                        if k0 < p {
                                            assert(old_r[k0].mask < m);
                                        } else {
                                            assert(p < old_r.len());
                                            assert(old_r[p as int].mask > m);
                                            if k0 > p {
                                                assert(old_r[p as int].mask < old_r[k0].mask);
                                            }
                                        }
                                    }
                                }
                                assert(words_with_mask(pre, allow_dup, m)
                                    =~= Seq::<String>::empty());
                                assert(r@[k].words@ =~= words_with_mask(post, allow_dup, m));
                            } else {
                                assert(r@[k] == old_r[k - 1]);
                                assert(r@[k].mask > m);
                            }
                        }
                        assert forall|i: int, j: int|
                            #![trigger r@[i], r@[j]]
                            0 <= i < j < r@.len() implies r@[i].mask < r@[j].mask by {
                            if j < p {
                                assert(r@[i] == old_r[i] && r@[j] == old_r[j]);
                            } else if i < p && j == p {
                                assert(r@[i] == old_r[i]);
                            } else if i < p && j > p {
                                assert(r@[i] == old_r[i] && r@[j] == old_r[j - 1]);
                            } else if i == p {
                                assert(r@[j] == old_r[j - 1]);
                            } else {
                                assert(r@[i] == old_r[i - 1] && r@[j] == old_r[j - 1]);
                            }
                        }
                        assert forall|i: int|
                            #![trigger lines@[i]]
                            0 <= i < li + 1 && eligible(lines@[i]@, allow_dup) implies exists|
                            k: int,
                        |
                            0 <= k < r@.len() && (#[trigger] r@[k]).mask == mask_spec(
                                lines@[i]@,
                            ) by {
                            if i == li {
                                assert(r@[p as int].mask == m);
                            } else {
                                let k0 = choose|k0: int|
                                    0 <= k0 < old_r.len() && (#[trigger] old_r[k0]).mask
                                        == mask_spec(lines@[i]@);
                                if k0 < p {
                                    assert(r@[k0] == old_r[k0]);
                                } else {
                                    assert(r@[k0 + 1] == old_r[k0]);
                                }
                            }
                        }
                    }
                }
            },
            None => {
                proof {
                    assert forall|k: int| 0 <= k < r@.len() implies (#[trigger] r@[k]).wf(
                        post,
                        allow_dup,
                    ) by {
                        lemma_words_push(pre, lines@[li as int], allow_dup, r@[k].mask);
                    }
                }
            },
        }
        li = li + 1;
    }
    proof {
        assert(lines@.take(li as int) =~= lines@);
    }
    r
}

} // verus!
