//! Result deduplicator: each candidate five-class combination is normalized
//! to its sorted mask tuple and inserted into a run-wide set; an insertion
//! succeeds (and is reported) only for a tuple never seen before.

use vstd::prelude::*;

use crate::index::MaskClass;

verus! {

/// A full five-word answer: five mask classes, canonically ordered by mask.
pub struct Combination {
    pub entries: Vec<MaskClass>,
}

/// Strictly increasing masks: the canonical, order-independent arrangement.
pub open spec fn strictly_sorted(s: Seq<MaskClass>) -> bool {
    forall|i: int, j: int|
        #![trigger s[i], s[j]]
        0 <= i < j < s.len() ==> s[i].mask < s[j].mask
}

impl Combination {
    /// The deduplication key: the sorted tuple of the five masks.
    pub open spec fn key(self) -> Seq<u32> {
        self.entries@.map_values(|c: MaskClass| c.mask)
    }

    pub open spec fn wf(self) -> bool {
        &&& self.entries@.len() == 5
        &&& strictly_sorted(self.entries@)
    }
}

/// Law (order independence): the canonical arrangement of a combination is
/// unique — any two strictly sorted sequences of the same classes are equal,
/// so every permutation of a combination's five classes canonicalizes to the
/// same sequence and the same key, and cannot be counted twice.
pub proof fn lemma_canonical_unique(a: Seq<MaskClass>, b: Seq<MaskClass>)
    requires
        strictly_sorted(a),
        strictly_sorted(b),
        a.to_multiset() == b.to_multiset(),
    ensures
        a == b,
    decreases a.len(),
{
    broadcast use vstd::seq_lib::group_to_multiset_ensures;

    a.to_multiset_ensures();
    b.to_multiset_ensures();
    if a.len() == 0 {
        assert(b.len() == 0);
        assert(a =~= b);
    } else {
        assert(b.len() == a.len());
        assert(a.contains(a[0]));
        assert(a.to_multiset().count(a[0]) > 0);
        assert(b.to_multiset().count(a[0]) > 0);
        assert(b.contains(a[0]));
        let j = choose|j: int| 0 <= j < b.len() && b[j] == a[0];
        assert(b.contains(b[0]));
        assert(a.to_multiset().count(b[0]) > 0);
        assert(a.contains(b[0]));
        let i = choose|i: int| 0 <= i < a.len() && a[i] == b[0];
        if i > 0 {
            assert(a[0].mask < a[i].mask);
            if j > 0 {
                assert(b[0].mask < b[j].mask);
            }
            assert(false);
        }
        assert(a[0] == b[0]);
        let ar = a.drop_first();
        let br = b.drop_first();
        assert(a.remove(0) =~= ar);
        assert(b.remove(0) =~= br);
        assert(ar.to_multiset() == a.to_multiset().remove(a[0]));
        assert(br.to_multiset() == b.to_multiset().remove(b[0]));
        assert(forall|i: int| 0 <= i < ar.len() ==> ar[i] == a[i + 1]);
        assert(forall|i: int| 0 <= i < br.len() ==> br[i] == b[i + 1]);
        lemma_canonical_unique(ar, br);
        assert forall|t: int| 0 <= t < a.len() implies a[t] == b[t] by {
            if t > 0 {
                assert(a[t] == ar[t - 1]);
                assert(b[t] == br[t - 1]);
                assert(ar[t - 1] == br[t - 1]);
            }
        }
        assert(a =~= b);
    }
}

/// The union of the masks of a sequence of classes.
pub open spec fn or_masks(s: Seq<MaskClass>) -> u32
    decreases s.len(),
{
    if s.len() == 0 {
        0u32
    } else {
        or_masks(s.drop_last()) | s.last().mask
    }
}

/// Removing one class and uniting its mask back in restores the full union.
proof fn lemma_or_masks_remove(s: Seq<MaskClass>, i: int)
    requires
        0 <= i < s.len(),
    ensures
        or_masks(s.remove(i)) | s[i].mask == or_masks(s),
    decreases s.len(),
{
    if i == s.len() - 1 {
        assert(s.remove(i) =~= s.drop_last());
    } else {
        let sdl = s.drop_last();
        assert(s.remove(i).drop_last() =~= sdl.remove(i));
        assert(s.remove(i).last() == s.last());
        lemma_or_masks_remove(sdl, i);
        let a = or_masks(sdl.remove(i));
        let b = s.last().mask;
        let c = s[i].mask;
        assert((a | b) | c == (a | c) | b) by (bit_vector);
        assert(or_masks(s.remove(i)) == a | b);
        assert((a | c) == or_masks(sdl));
    }
}

/// The union of the masks of five classes, written out.
pub proof fn lemma_or_masks5(s: Seq<MaskClass>)
    requires
        s.len() == 5,
    ensures
        or_masks(s) == s[0].mask | s[1].mask | s[2].mask | s[3].mask | s[4].mask,
{
    let s4 = s.drop_last();
    let s3 = s4.drop_last();
    let s2 = s3.drop_last();
    let s1 = s2.drop_last();
    let s0 = s1.drop_last();
    assert(s4.len() == 4 && s3.len() == 3 && s2.len() == 2 && s1.len() == 1 && s0.len() == 0);
    assert(s1.last() == s[0] && s2.last() == s[1] && s3.last() == s[2] && s4.last() == s[3]
        && s.last() == s[4]);
    assert(forall|x: u32| 0u32 | x == x) by (bit_vector);
    assert(or_masks(s0) == 0u32);
    assert(or_masks(s1) == or_masks(s0) | s[0].mask);
    assert(or_masks(s2) == or_masks(s1) | s[1].mask);
    assert(or_masks(s3) == or_masks(s2) | s[2].mask);
    assert(or_masks(s4) == or_masks(s3) | s[3].mask);
    assert(or_masks(s) == or_masks(s4) | s[4].mask);
}

/// Sorts classes with pairwise-distinct masks into the canonical strictly
/// increasing order; the collection of classes (and so the united mask) is
/// unchanged.
pub fn canonicalize(v: Vec<MaskClass>) -> (r: Vec<MaskClass>)
    requires
        forall|i: int, j: int|
            #![trigger v@[i], v@[j]]
            0 <= i < j < v@.len() ==> v@[i].mask != v@[j].mask,
    ensures
        r@.len() == v@.len(),
        strictly_sorted(r@),
        r@.to_multiset() == v@.to_multiset(),
        or_masks(r@) == or_masks(v@),
{
    broadcast use vstd::seq_lib::group_to_multiset_ensures;

    proof {
        assert(forall|x: u32| 0u32 | x == x && x | 0u32 == x) by (bit_vector);
    }
    let ghost orig = v@;
    let mut v = v;
    let mut out: Vec<MaskClass> = Vec::new();
    while v.len() > 0
        invariant
            strictly_sorted(out@),
            out@.to_multiset().add(v@.to_multiset()) == orig.to_multiset(),
            out@.len() + v@.len() == orig.len(),
            or_masks(out@) | or_masks(v@) == or_masks(orig),
            forall|i: int, j: int|
                #![trigger v@[i], v@[j]]
                0 <= i < j < v@.len() ==> v@[i].mask != v@[j].mask,
            forall|p: int, i: int|
                #![trigger out@[p], v@[i]]
                0 <= p < out@.len() && 0 <= i < v@.len() ==> out@[p].mask < v@[i].mask,
        decreases v@.len(),
    {
        let mut idx: usize = 0;
        let mut q: usize = 1;
        while q < v.len()
            invariant
                idx < v@.len(),
                q <= v@.len(),
                forall|t: int| 0 <= t < q ==> v@[idx as int].mask <= (#[trigger] v@[t]).mask,
            decreases v@.len() - q,
        {
            if v[q].mask < v[idx].mask {
                idx = q;
            }
            q = q + 1;
        }
        let ghost old_v = v@;
        let ghost old_out = out@;
        let x = v.remove(idx);
        out.push(x);
        proof {
            old_v.to_multiset_ensures();
            old_out.to_multiset_ensures();
            lemma_or_masks_remove(old_v, idx as int);
            assert(out@.drop_last() =~= old_out);
            assert(or_masks(out@) == or_masks(old_out) | x.mask);
            {
                let o = or_masks(old_out);
                let w = or_masks(v@);
                let xm = x.mask;
                assert((o | xm) | w == o | (w | xm)) by (bit_vector);
            }
            assert(v@ == old_v.remove(idx as int));
            assert(v@.to_multiset() =~= old_v.to_multiset().remove(x));
            assert(out@.to_multiset() =~= old_out.to_multiset().insert(x));
            assert(out@.to_multiset().add(v@.to_multiset()) =~= orig.to_multiset());
            assert(forall|i: int| 0 <= i < idx ==> v@[i] == old_v[i]);
            assert(forall|i: int| idx <= i < v@.len() ==> v@[i] == old_v[i + 1]);
            assert forall|p: int, i: int|
                #![trigger out@[p], v@[i]]
                0 <= p < out@.len() && 0 <= i < v@.len() implies out@[p].mask < v@[i].mask by {
                assert(x.mask <= v@[i].mask);
                assert(v@[i].mask != x.mask);
                if p < out@.len() - 1 {
                    assert(out@[p] == old_out[p]);
                }
            }
            assert forall|i: int, j: int|
                #![trigger out@[i], out@[j]]
                0 <= i < j < out@.len() implies out@[i].mask < out@[j].mask by {
                if j < out@.len() - 1 {
                    assert(out@[i] == old_out[i] && out@[j] == old_out[j]);
                } else {
                    assert(out@[i] == old_out[i]);
                    assert(old_out[i].mask < x.mask);
                }
            }
        }
    }
    out
}

/// The run-wide set of already-seen combinations, deduplicated by key.
pub struct ResultSet {
    pub combos: Vec<Combination>,
}

impl ResultSet {
    pub open spec fn contains_key(self, k: Seq<u32>) -> bool {
        exists|i: int| 0 <= i < self.combos@.len() && (#[trigger] self.combos@[i]).key() == k
    }

    pub open spec fn wf(self) -> bool {
        &&& forall|i: int| 0 <= i < self.combos@.len() ==> (#[trigger] self.combos@[i]).wf()
        &&& forall|i: int, j: int|
            #![trigger self.combos@[i], self.combos@[j]]
            0 <= i < j < self.combos@.len() ==> self.combos@[i].key() != self.combos@[j].key()
    }

    pub fn new() -> (r: ResultSet)
        ensures
            r.wf(),
            r.combos@.len() == 0,
    {
        ResultSet { combos: Vec::new() }
    }

    /// The number of unique combinations found so far.
    pub fn count(&self) -> (n: usize)
        ensures
            n == self.combos@.len(),
    {
        self.combos.len()
    }

    /// Atomic check-and-insert. Returns `true` — the caller's licence to emit
    /// the combination — iff its key was never seen before; a re-inserted key
    /// leaves the set unchanged and is not emitted again.
    pub fn insert(&mut self, c: Combination) -> (emitted: bool)
        requires
            old(self).wf(),
            c.wf(),
        ensures
            final(self).wf(),
            emitted == !old(self).contains_key(c.key()),
            emitted ==> final(self).combos@ == old(self).combos@.push(c),
            !emitted ==> final(self).combos@ == old(self).combos@,
    {
        let n = self.combos.len();
        let mut i: usize = 0;
        while i < n
            invariant
                n == self.combos@.len(),
                i <= n,
                self.wf(),
                c.wf(),
                self == old(self),
                forall|q: int| 0 <= q < i ==> (#[trigger] self.combos@[q]).key() != c.key(),
            decreases n - i,
        {
            if keys_equal(&self.combos[i], &c) {
                return false;
            }
            i = i + 1;
        }
        assert(!self.contains_key(c.key()));
        self.combos.push(c);
        proof {
            let ghost nc = self.combos@;
            assert forall|i0: int, j0: int|
                #![trigger nc[i0], nc[j0]]
                0 <= i0 < j0 < nc.len() implies nc[i0].key() != nc[j0].key() by {
                if j0 == nc.len() - 1 {
                    assert(nc[i0] == old(self).combos@[i0]);
                }
            }
        }
        true
    }
}

/// Compares the keys of two well-formed combinations.
fn keys_equal(a: &Combination, b: &Combination) -> (r: bool)
    requires
        a.wf(),
        b.wf(),
    ensures
        r == (a.key() == b.key()),
{
    let r = a.entries[0].mask == b.entries[0].mask && a.entries[1].mask == b.entries[1].mask
        && a.entries[2].mask == b.entries[2].mask && a.entries[3].mask == b.entries[3].mask
        && a.entries[4].mask == b.entries[4].mask;
    proof {
        if r {
            assert(a.key() =~= b.key());
        } else {
            assert(exists|t: int| 0 <= t < 5 && a.entries@[t].mask != b.entries@[t].mask);
            let t = choose|t: int| 0 <= t < 5 && a.entries@[t].mask != b.entries@[t].mask;
            assert(a.key()[t] != b.key()[t]);
        }
    }
    r
}

} // verus!
