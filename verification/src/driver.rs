//! The batch search driver: index the words, generate canonical disjoint
//! pairs, compose quads, extend each quad with every disjoint fifth mask, and
//! collect the deduplicated combinations.

use vstd::prelude::*;

use crate::dedup::{canonicalize, or_masks, Combination, ResultSet};
use crate::index::{build_index, eligible, MaskClass};
use crate::mask::{
    lemma_distinct_lowercase_popcount, lemma_five_disjoint_popcount, lemma_mask_nonzero,
    lowercase_letters, mask_spec, popcount,
};
use crate::search::{fifth_classes, find_pairs, pair_from, quad_sourced, quads_for_index, Quad};

verus! {

/// The shape `build_index` guarantees: strictly mask-sorted classes, each
/// grouping exactly the eligible lines of its mask.
pub open spec fn index_wf(classes: Seq<MaskClass>, lines: Seq<String>, allow_dup: bool) -> bool {
    &&& forall|i: int, j: int|
        #![trigger classes[i], classes[j]]
        0 <= i < j < classes.len() ==> classes[i].mask < classes[j].mask
    &&& forall|k: int| 0 <= k < classes.len() ==> (#[trigger] classes[k]).wf(lines, allow_dup)
}

/// A sound answer: five canonical, pairwise letter-disjoint mask classes,
/// each grouping exactly the eligible input lines of its mask.
pub open spec fn combo_sound(c: Combination, lines: Seq<String>, allow_dup: bool) -> bool {
    &&& c.wf()
    &&& forall|a: int, b: int|
        #![trigger c.entries@[a], c.entries@[b]]
        0 <= a < c.entries@.len() && 0 <= b < c.entries@.len() && a != b ==> c.entries@[a].mask
            & c.entries@[b].mask == 0
    &&& forall|e: int| 0 <= e < c.entries@.len() ==> (#[trigger] c.entries@[e]).wf(
        lines,
        allow_dup,
    )
}

/// The union of a combination's five masks.
pub open spec fn combo_mask(c: Combination) -> u32 {
    c.entries@[0].mask | c.entries@[1].mask | c.entries@[2].mask | c.entries@[3].mask
        | c.entries@[4].mask
}

/// Every line consists of lowercase letters only.
pub open spec fn all_lines_lowercase(lines: Seq<String>) -> bool {
    forall|i: int| 0 <= i < lines.len() ==> lowercase_letters((#[trigger] lines[i])@)
}

/// The five masks are pairwise letter-disjoint.
pub open spec fn disjoint_five(a: u32, b: u32, c: u32, d: u32, e: u32) -> bool {
    &&& a & b == 0
    &&& a & c == 0
    &&& a & d == 0
    &&& a & e == 0
    &&& b & c == 0
    &&& b & d == 0
    &&& b & e == 0
    &&& c & d == 0
    &&& c & e == 0
    &&& d & e == 0
}

/// The first combination list is an unchanged initial segment of the second:
/// the deduplicating set only ever grows.
pub open spec fn grows_to(a: Seq<Combination>, b: Seq<Combination>) -> bool {
    a.len() <= b.len() && forall|t: int| 0 <= t < a.len() ==> a[t] == b[t]
}

/// Some collected combination unites exactly the mask `u`.
pub open spec fn has_combo_mask(rs: ResultSet, u: u32) -> bool {
    exists|t: int| 0 <= t < rs.combos@.len() && combo_mask(#[trigger] rs.combos@[t]) == u
}

/// Every class disjoint from the quad mask `qm` has been combined with it.
pub open spec fn quints_done(rs: ResultSet, classes: Seq<MaskClass>, qm: u32) -> bool {
    forall|k: int|
        0 <= k < classes.len() && (#[trigger] classes[k]).mask & qm == 0 ==> has_combo_mask(
            rs,
            qm | classes[k].mask,
        )
}

proof fn lemma_grows_has(a: ResultSet, b: ResultSet, u: u32)
    requires
        grows_to(a.combos@, b.combos@),
        has_combo_mask(a, u),
    ensures
        has_combo_mask(b, u),
{
    let t = choose|t: int| 0 <= t < a.combos@.len() && combo_mask(#[trigger] a.combos@[t]) == u;
    assert(b.combos@[t] == a.combos@[t]);
}

proof fn lemma_grows_quints(a: ResultSet, b: ResultSet, classes: Seq<MaskClass>, qm: u32)
    requires
        grows_to(a.combos@, b.combos@),
        quints_done(a, classes, qm),
    ensures
        quints_done(b, classes, qm),
{
    assert forall|k: int|
        0 <= k < classes.len() && (#[trigger] classes[k]).mask & qm == 0 implies has_combo_mask(
        b,
        qm | classes[k].mask,
    ) by {
        lemma_grows_has(a, b, qm | classes[k].mask);
    }
}

/// Equal keys mean equal united masks.
proof fn lemma_key_determines_mask(a: Combination, b: Combination)
    requires
        a.wf(),
        b.wf(),
        a.key() == b.key(),
    ensures
        combo_mask(a) == combo_mask(b),
{
    assert(a.entries@[0].mask == a.key()[0] && a.entries@[1].mask == a.key()[1]
        && a.entries@[2].mask == a.key()[2] && a.entries@[3].mask == a.key()[3]
        && a.entries@[4].mask == a.key()[4]);
    assert(b.entries@[0].mask == b.key()[0] && b.entries@[1].mask == b.key()[1]
        && b.entries@[2].mask == b.key()[2] && b.entries@[3].mask == b.key()[3]
        && b.entries@[4].mask == b.key()[4]);
}

/// A well-formed class's mask is the mask of some eligible line, hence nonzero.
proof fn lemma_class_mask_nonzero(c: MaskClass, lines: Seq<String>, allow_dup: bool)
    requires
        c.wf(lines, allow_dup),
    ensures
        c.mask != 0,
{
    crate::index::lemma_words_source(lines, allow_dup, c.mask);
    let i = choose|i: int|
        0 <= i < lines.len() && eligible((#[trigger] lines[i])@, allow_dup) && mask_spec(
            lines[i]@,
        ) == c.mask;
    lemma_mask_nonzero(lines[i]@);
}

/// Index of the class bearing mask `m`, which must be present.
fn find_class(classes: &Vec<MaskClass>, m: u32) -> (k: usize)
    requires
        exists|k0: int| 0 <= k0 < classes@.len() && (#[trigger] classes@[k0]).mask == m,
    ensures
        (k as int) < classes@.len(),
        classes@[k as int].mask == m,
{
    let mut k: usize = 0;
    while k < classes.len()
        invariant
            k <= classes@.len(),
            exists|k0: int| 0 <= k0 < classes@.len() && (#[trigger] classes@[k0]).mask == m,
            forall|q: int| 0 <= q < k ==> (#[trigger] classes@[q]).mask != m,
        decreases classes@.len() - k,
    {
        if classes[k].mask == m {
            return k;
        }
        k = k + 1;
    }
    proof {
        let k0 = choose|k0: int| 0 <= k0 < classes@.len() && (#[trigger] classes@[k0]).mask == m;
        assert(false);
    }
    0
}

/// Builds the canonical combination of the five classes at the given indices:
/// `Some` exactly when the indices are in range and the five masks are
/// nonzero and pairwise letter-disjoint.
#[verifier::loop_isolation(false)]
pub fn assemble(classes: &Vec<MaskClass>, i1: usize, i2: usize, i3: usize, i4: usize, i5: usize) -> (r:
    Option<Combination>)
    ensures
        r is Some <==> (i1 < classes@.len() && i2 < classes@.len() && i3 < classes@.len() && i4
            < classes@.len() && i5 < classes@.len() && classes@[i1 as int].mask != 0
            && classes@[i2 as int].mask != 0 && classes@[i3 as int].mask != 0
            && classes@[i4 as int].mask != 0 && classes@[i5 as int].mask != 0
            && classes@[i1 as int].mask & classes@[i2 as int].mask == 0 && classes@[i1 as int].mask
            & classes@[i3 as int].mask == 0 && classes@[i1 as int].mask & classes@[i4 as int].mask
            == 0 && classes@[i1 as int].mask & classes@[i5 as int].mask == 0
            && classes@[i2 as int].mask & classes@[i3 as int].mask == 0 && classes@[i2 as int].mask
            & classes@[i4 as int].mask == 0 && classes@[i2 as int].mask & classes@[i5 as int].mask
            == 0 && classes@[i3 as int].mask & classes@[i4 as int].mask == 0
            && classes@[i3 as int].mask & classes@[i5 as int].mask == 0 && classes@[i4 as int].mask
            & classes@[i5 as int].mask == 0),
        r matches Some(c) ==> c.wf(),
        r matches Some(c) ==> forall|e: int|
            0 <= e < c.entries@.len() ==> exists|t: int|
                (t == i1 as int || t == i2 as int || t == i3 as int || t == i4 as int || t
                    == i5 as int) && (#[trigger] c.entries@[e]).mask == classes@[t].mask
                    && c.entries@[e].words@ == classes@[t].words@,
        r matches Some(c) ==> combo_mask(c) == classes@[i1 as int].mask | classes@[i2 as int].mask
            | classes@[i3 as int].mask | classes@[i4 as int].mask | classes@[i5 as int].mask,
{
    let n = classes.len();
    if !(i1 < n && i2 < n && i3 < n && i4 < n && i5 < n) {
        return None;
    }
    let m1 = classes[i1].mask;
    let m2 = classes[i2].mask;
    let m3 = classes[i3].mask;
    let m4 = classes[i4].mask;
    let m5 = classes[i5].mask;
    if m1 == 0 || m2 == 0 || m3 == 0 || m4 == 0 || m5 == 0 {
        return None;
    }
    if !(m1 & m2 == 0 && m1 & m3 == 0 && m1 & m4 == 0 && m1 & m5 == 0 && m2 & m3 == 0 && m2 & m4
        == 0 && m2 & m5 == 0 && m3 & m4 == 0 && m3 & m5 == 0 && m4 & m5 == 0) {
        return None;
    }
    let mut v: Vec<MaskClass> = Vec::new();
    v.push(classes[i1].clone());
    v.push(classes[i2].clone());
    v.push(classes[i3].clone());
    v.push(classes[i4].clone());
    v.push(classes[i5].clone());
    proof {
        assert(forall|x: u32, y: u32| x != 0 && x & y == 0 ==> x != y) by (bit_vector);
        assert(forall|x: u32, y: u32| x & y == 0 ==> y & x == 0) by (bit_vector);
        assert(v@.len() == 5);
        assert(v@[0].mask == m1 && v@[1].mask == m2 && v@[2].mask == m3 && v@[3].mask == m4
            && v@[4].mask == m5);
        assert forall|a: int, b: int|
            #![trigger v@[a], v@[b]]
            0 <= a < b < v@.len() implies v@[a].mask != v@[b].mask by {
            assert(v@[a].mask & v@[b].mask == 0 && v@[a].mask != 0);
        }
    }
    let ghost vs = v@;
    let ents = canonicalize(v);
    proof {
        vs.to_multiset_ensures();
        ents@.to_multiset_ensures();
        assert forall|e: int| 0 <= e < ents@.len() implies exists|t: int|
            (t == i1 as int || t == i2 as int || t == i3 as int || t == i4 as int || t
                == i5 as int) && (#[trigger] ents@[e]).mask == classes@[t].mask && ents@[e].words@
                == classes@[t].words@ by {
            assert(ents@.contains(ents@[e]));
            assert(ents@.to_multiset().count(ents@[e]) > 0);
            assert(vs.to_multiset().count(ents@[e]) > 0);
            assert(vs.contains(ents@[e]));
            let s = choose|s: int| 0 <= s < vs.len() && vs[s] == ents@[e];
            if s == 0 {
                assert(ents@[e].mask == classes@[i1 as int].mask && ents@[e].words@
                    == classes@[i1 as int].words@);
            } else if s == 1 {
                assert(ents@[e].mask == classes@[i2 as int].mask && ents@[e].words@
                    == classes@[i2 as int].words@);
            } else if s == 2 {
                assert(ents@[e].mask == classes@[i3 as int].mask && ents@[e].words@
                    == classes@[i3 as int].words@);
            } else if s == 3 {
                assert(ents@[e].mask == classes@[i4 as int].mask && ents@[e].words@
                    == classes@[i4 as int].words@);
            } else {
                assert(ents@[e].mask == classes@[i5 as int].mask && ents@[e].words@
                    == classes@[i5 as int].words@);
            }
        }
        crate::dedup::lemma_or_masks5(vs);
        crate::dedup::lemma_or_masks5(ents@);
        assert(or_masks(ents@) == m1 | m2 | m3 | m4 | m5);
    }
    Some(Combination { entries: ents })
}

/// Runs the whole batch search. Every collected combination is sound: five
/// pairwise letter-disjoint masks drawn from the eligible words of `lines`,
/// in canonical order, each mask carrying its full anagram group, no
/// combination repeated. When duplicate letters are disallowed and the input
/// is all lowercase, every collected combination covers exactly 25 letters.
/// Law: a sound combination over lowercase input with duplicate letters
/// disallowed covers exactly 25 of the 26 letters.
pub proof fn lemma_combo_covers_25(c: Combination, lines: Seq<String>, allow_dup: bool)
    requires
        combo_sound(c, lines, allow_dup),
        !allow_dup,
        all_lines_lowercase(lines),
    ensures
        popcount(combo_mask(c)) == 25,
{
    assert forall|e: int| 0 <= e < c.entries@.len() implies popcount(
        (#[trigger] c.entries@[e]).mask,
    ) == 5 by {
        crate::index::lemma_words_source(lines, allow_dup, c.entries@[e].mask);
        let li = choose|li: int|
            0 <= li < lines.len() && eligible((#[trigger] lines[li])@, allow_dup) && mask_spec(
                lines[li]@,
            ) == c.entries@[e].mask;
        lemma_distinct_lowercase_popcount(lines[li]@);
    }
    lemma_five_disjoint_popcount(
        c.entries@[0].mask,
        c.entries@[1].mask,
        c.entries@[2].mask,
        c.entries@[3].mask,
        c.entries@[4].mask,
    );
}

/// Extends one quad with every disjoint fifth class, feeding each candidate
/// combination through the deduplicating set.
#[verifier::loop_isolation(false)]
#[verifier::rlimit(60)]
fn extend_quad(
    classes: &Vec<MaskClass>,
    q: Quad,
    rs: &mut ResultSet,
    Ghost(lines): Ghost<Seq<String>>,
    allow_dup: bool,
)
    requires
        index_wf(classes@, lines, allow_dup),
        old(rs).wf(),
        forall|t: int|
            0 <= t < old(rs).combos@.len() ==> combo_sound(
                #[trigger] old(rs).combos@[t],
                lines,
                allow_dup,
            ),
        q.m1 & q.m2 == 0,
        q.m3 & q.m4 == 0,
        (q.m1 | q.m2) & (q.m3 | q.m4) == 0,
        exists|k0: int| 0 <= k0 < classes@.len() && (#[trigger] classes@[k0]).mask == q.m1,
        exists|k0: int| 0 <= k0 < classes@.len() && (#[trigger] classes@[k0]).mask == q.m2,
        exists|k0: int| 0 <= k0 < classes@.len() && (#[trigger] classes@[k0]).mask == q.m3,
        exists|k0: int| 0 <= k0 < classes@.len() && (#[trigger] classes@[k0]).mask == q.m4,
    ensures
        final(rs).wf(),
        forall|t: int|
            0 <= t < final(rs).combos@.len() ==> combo_sound(
                #[trigger] final(rs).combos@[t],
                lines,
                allow_dup,
            ),
        grows_to(old(rs).combos@, final(rs).combos@),
        quints_done(*final(rs), classes@, q.mask()),
{
    proof {
        let a1 = q.m1;
        let a2 = q.m2;
        let a3 = q.m3;
        let a4 = q.m4;
        assert(a1 & a3 == 0 && a1 & a4 == 0 && a2 & a3 == 0 && a2 & a4 == 0) by (bit_vector)
            requires
                (a1 | a2) & (a3 | a4) == 0u32,
        ;
    }
    let qm = q.m1 | q.m2 | q.m3 | q.m4;
    let fifths = fifth_classes(classes, qm);
    let c1 = find_class(classes, q.m1);
    let c2 = find_class(classes, q.m2);
    let c3 = find_class(classes, q.m3);
    let c4 = find_class(classes, q.m4);
    let mut f: usize = 0;
    while f < fifths.len()
        invariant
            rs.wf(),
            forall|t0: int|
                0 <= t0 < rs.combos@.len() ==> combo_sound(
                    #[trigger] rs.combos@[t0],
                    lines,
                    allow_dup,
                ),
            grows_to(old(rs).combos@, rs.combos@),
            forall|p0: int|
                0 <= p0 < f ==> has_combo_mask(
                    *rs,
                    qm | classes@[(#[trigger] fifths@[p0]) as int].mask,
                ),
        decreases fifths@.len() - f,
    {
        let k5 = fifths[f];
        proof {
            let m5 = classes@[k5 as int].mask;
            assert(m5 & qm == 0);
            let a1 = q.m1;
            let a2 = q.m2;
            let a3 = q.m3;
            let a4 = q.m4;
            assert(a1 & m5 == 0 && a2 & m5 == 0 && a3 & m5 == 0 && a4 & m5 == 0) by (bit_vector)
                requires
                    m5 & (a1 | a2 | a3 | a4) == 0u32,
            ;
            lemma_class_mask_nonzero(classes@[c1 as int], lines, allow_dup);
            lemma_class_mask_nonzero(classes@[c2 as int], lines, allow_dup);
            lemma_class_mask_nonzero(classes@[c3 as int], lines, allow_dup);
            lemma_class_mask_nonzero(classes@[c4 as int], lines, allow_dup);
            lemma_class_mask_nonzero(classes@[k5 as int], lines, allow_dup);
        }
        match assemble(classes, c1, c2, c3, c4, k5) {
            Some(cand) => {
                proof {
                    assert(combo_sound(cand, lines, allow_dup)) by {
                        assert(forall|x: u32, y: u32| x & y == 0 ==> y & x == 0) by (bit_vector);
                        assert forall|a: int, b: int|
                            #![trigger cand.entries@[a], cand.entries@[b]]
                            0 <= a < cand.entries@.len() && 0 <= b < cand.entries@.len() && a != b
                            implies cand.entries@[a].mask & cand.entries@[b].mask == 0 by {
                            if a < b {
                                assert(cand.entries@[a].mask < cand.entries@[b].mask);
                            } else {
                                assert(cand.entries@[b].mask < cand.entries@[a].mask);
                            }
                            let ta = choose|ta: int|
                                (ta == c1 as int || ta == c2 as int || ta == c3 as int || ta
                                    == c4 as int || ta == k5 as int) && cand.entries@[a].mask
                                    == classes@[ta].mask && cand.entries@[a].words@
                                    == classes@[ta].words@;
                            let tb = choose|tb: int|
                                (tb == c1 as int || tb == c2 as int || tb == c3 as int || tb
                                    == c4 as int || tb == k5 as int) && cand.entries@[b].mask
                                    == classes@[tb].mask && cand.entries@[b].words@
                                    == classes@[tb].words@;
                            assert(classes@[ta].mask != classes@[tb].mask);
                        }
                        assert forall|e: int|
                            0 <= e < cand.entries@.len() implies (#[trigger] cand.entries@[e]).wf(
                            lines,
                            allow_dup,
                        ) by {
                            let te = choose|te: int|
                                (te == c1 as int || te == c2 as int || te == c3 as int || te
                                    == c4 as int || te == k5 as int) && cand.entries@[e].mask
                                    == classes@[te].mask && cand.entries@[e].words@
                                    == classes@[te].words@;
                            assert(classes@[te].wf(lines, allow_dup));
                        }
                    }
                }
                let ghost rs_prev = *rs;
                let emitted = rs.insert(cand);
                proof {
                    assert(combo_mask(cand) == qm | classes@[k5 as int].mask);
                    if emitted {
                        assert(combo_mask(rs.combos@[rs.combos@.len() - 1]) == qm | classes@[k5
                            as int].mask);
                        assert(has_combo_mask(*rs, qm | classes@[k5 as int].mask));
                    } else {
                        let tt = choose|tt: int|
                            0 <= tt < rs_prev.combos@.len() && (#[trigger] rs_prev.combos@[tt]).key()
                                == cand.key();
                        lemma_key_determines_mask(rs_prev.combos@[tt], cand);
                        assert(combo_mask(rs.combos@[tt]) == qm | classes@[k5 as int].mask);
                        assert(has_combo_mask(*rs, qm | classes@[k5 as int].mask));
                    }
                    assert(grows_to(old(rs).combos@, rs.combos@)) by {
                        assert forall|t0: int|
                            0 <= t0 < old(rs).combos@.len() implies old(rs).combos@[t0]
                            == rs.combos@[t0] by {
                            assert(old(rs).combos@[t0] == rs_prev.combos@[t0]);
                            assert(rs_prev.combos@[t0] == rs.combos@[t0]);
                        }
                    }
                    assert forall|p0: int| 0 <= p0 < f + 1 implies has_combo_mask(
                        *rs,
                        qm | classes@[(#[trigger] fifths@[p0]) as int].mask,
                    ) by {
                        if p0 < f {
                            assert(grows_to(rs_prev.combos@, rs.combos@));
                            lemma_grows_has(rs_prev, *rs, qm | classes@[fifths@[p0] as int].mask);
                        }
                    }
                }
            },
            None => {
                proof {
                    assert(false);
                }
            },
        }
        f = f + 1;
    }
    proof {
        assert(q.mask() == qm);
        assert forall|k: int|
            0 <= k < classes@.len() && (#[trigger] classes@[k]).mask & qm == 0 implies
        has_combo_mask(*rs, qm | classes@[k].mask) by {
            let p = choose|p: int| 0 <= p < fifths@.len() && fifths@[p] == k;
            assert(has_combo_mask(*rs, qm | classes@[fifths@[p] as int].mask));
        }
    }
}

/// Runs the whole batch search. Every collected combination is sound: five
/// pairwise letter-disjoint masks drawn from the eligible words of `lines`,
/// in canonical order, each mask carrying its full anagram group, no
/// combination repeated. When duplicate letters are disallowed and the input
/// is all lowercase, every collected combination covers exactly 25 letters.
#[verifier::loop_isolation(false)]
pub fn run_search(lines: &Vec<String>, allow_dup: bool) -> (rs: ResultSet)
    ensures
        rs.wf(),
        forall|t: int|
            0 <= t < rs.combos@.len() ==> combo_sound(#[trigger] rs.combos@[t], lines@, allow_dup),
        (!allow_dup && all_lines_lowercase(lines@)) ==> forall|t: int|
            0 <= t < rs.combos@.len() ==> popcount(combo_mask(#[trigger] rs.combos@[t])) == 25,
        forall|l1: int, l2: int, l3: int, l4: int, l5: int|
            #![trigger lines@[l1], lines@[l2], lines@[l3], lines@[l4], lines@[l5]]
            0 <= l1 < lines@.len() && 0 <= l2 < lines@.len() && 0 <= l3 < lines@.len() && 0 <= l4
                < lines@.len() && 0 <= l5 < lines@.len() && eligible(lines@[l1]@, allow_dup)
                && eligible(lines@[l2]@, allow_dup) && eligible(lines@[l3]@, allow_dup) && eligible(
                lines@[l4]@,
                allow_dup,
            ) && eligible(lines@[l5]@, allow_dup) && disjoint_five(
                mask_spec(lines@[l1]@),
                mask_spec(lines@[l2]@),
                mask_spec(lines@[l3]@),
                mask_spec(lines@[l4]@),
                mask_spec(lines@[l5]@),
            ) ==> has_combo_mask(
                rs,
                mask_spec(lines@[l1]@) | mask_spec(lines@[l2]@) | mask_spec(lines@[l3]@)
                    | mask_spec(lines@[l4]@) | mask_spec(lines@[l5]@),
            ),
{
    let classes = build_index(lines, allow_dup);
    let pairs = find_pairs(&classes);
    let mut rs = ResultSet::new();
    let mut i: usize = 0;
    while i < pairs.len()
        invariant
            rs.wf(),
            forall|t: int|
                0 <= t < rs.combos@.len() ==> combo_sound(
                    #[trigger] rs.combos@[t],
                    lines@,
                    allow_dup,
                ),
            forall|p: int, q0: int|
                #![trigger pairs@[p], pairs@[q0]]
                0 <= p < i && p <= q0 < pairs@.len() && pairs@[p].union() & pairs@[q0].union()
                    == 0 ==> quints_done(rs, classes@, pairs@[p].union() | pairs@[q0].union()),
        decreases pairs@.len() - i,
    {
        let quads = quads_for_index(&pairs, i);
        let mut t: usize = 0;
        while t < quads.len()
            invariant
                rs.wf(),
                forall|t0: int|
                    0 <= t0 < rs.combos@.len() ==> combo_sound(
                        #[trigger] rs.combos@[t0],
                        lines@,
                        allow_dup,
                    ),
                forall|p: int, q0: int|
                    #![trigger pairs@[p], pairs@[q0]]
                    0 <= p < i && p <= q0 < pairs@.len() && pairs@[p].union() & pairs@[q0].union()
                        == 0 ==> quints_done(rs, classes@, pairs@[p].union() | pairs@[q0].union()),
                forall|t0: int|
                    0 <= t0 < t ==> quints_done(rs, classes@, (#[trigger] quads@[t0]).mask()),
            decreases quads@.len() - t,
        {
            let q = quads[t];
            proof {
                assert(quad_sourced(q, pairs@, i as int));
                let j = choose|j: int|
                    i <= j < pairs@.len() && q == crate::search::quad_of(
                        pairs@[i as int],
                        #[trigger] pairs@[j],
                    ) && pairs@[i as int].union() & pairs@[j].union() == 0;
                assert(pair_from(classes@, pairs@[i as int]));
                assert(pair_from(classes@, pairs@[j]));
                assert(q.m1 == pairs@[i as int].m1 && q.m2 == pairs@[i as int].m2);
                assert(q.m3 == pairs@[j].m1 && q.m4 == pairs@[j].m2);
                assert(q.m1 & q.m2 == 0 && q.m3 & q.m4 == 0);
                assert((q.m1 | q.m2) & (q.m3 | q.m4) == 0);
            }
            let ghost rs_prev = rs;
            extend_quad(&classes, q, &mut rs, Ghost(lines@), allow_dup);
            proof {
                assert forall|p: int, q0: int|
                    #![trigger pairs@[p], pairs@[q0]]
                    0 <= p < i && p <= q0 < pairs@.len() && pairs@[p].union() & pairs@[q0].union()
                        == 0 implies quints_done(
                    rs,
                    classes@,
                    pairs@[p].union() | pairs@[q0].union(),
                ) by {
                    lemma_grows_quints(
                        rs_prev,
                        rs,
                        classes@,
                        pairs@[p].union() | pairs@[q0].union(),
                    );
                }
                assert forall|t0: int| 0 <= t0 < t + 1 implies quints_done(
                    rs,
                    classes@,
                    (#[trigger] quads@[t0]).mask(),
                ) by {
                    if t0 < t {
                        lemma_grows_quints(rs_prev, rs, classes@, quads@[t0].mask());
                    } else {
                        assert(quads@[t0] == q);
                    }
                }
            }
            t = t + 1;
        }
        proof {
            assert forall|p: int, q0: int|
                #![trigger pairs@[p], pairs@[q0]]
                0 <= p < i + 1 && p <= q0 < pairs@.len() && pairs@[p].union() & pairs@[q0].union()
                    == 0 implies quints_done(rs, classes@, pairs@[p].union() | pairs@[q0].union()) by {
                if p == i {
                    let qd = crate::search::quad_of(pairs@[p], pairs@[q0]);
                    assert(crate::search::has_quad(quads@, qd));
                    let t0 = choose|t0: int| 0 <= t0 < quads@.len() && (#[trigger] quads@[t0]) == qd;
                    assert(quints_done(rs, classes@, qd.mask()));
                    let b1 = pairs@[p].m1;
                    let b2 = pairs@[p].m2;
                    let b3 = pairs@[q0].m1;
                    let b4 = pairs@[q0].m2;
                    assert(((b1 | b2) | b3) | b4 == (b1 | b2) | (b3 | b4)) by (bit_vector);
                    assert(qd.mask() == pairs@[p].union() | pairs@[q0].union());
                }
            }
        }
        i = i + 1;
    }
    proof {
        if !allow_dup && all_lines_lowercase(lines@) {
            assert forall|t: int| 0 <= t < rs.combos@.len() implies popcount(
                combo_mask(#[trigger] rs.combos@[t]),
            ) == 25 by {
                lemma_combo_covers_25(rs.combos@[t], lines@, allow_dup);
            }
        }
        assert forall|l1: int, l2: int, l3: int, l4: int, l5: int|
            #![trigger lines@[l1], lines@[l2], lines@[l3], lines@[l4], lines@[l5]]
            0 <= l1 < lines@.len() && 0 <= l2 < lines@.len() && 0 <= l3 < lines@.len() && 0 <= l4
                < lines@.len() && 0 <= l5 < lines@.len() && eligible(lines@[l1]@, allow_dup)
                && eligible(lines@[l2]@, allow_dup) && eligible(lines@[l3]@, allow_dup) && eligible(
                lines@[l4]@,
                allow_dup,
            ) && eligible(lines@[l5]@, allow_dup) && disjoint_five(
                mask_spec(lines@[l1]@),
                mask_spec(lines@[l2]@),
                mask_spec(lines@[l3]@),
                mask_spec(lines@[l4]@),
                mask_spec(lines@[l5]@),
            ) implies has_combo_mask(
            rs,
            mask_spec(lines@[l1]@) | mask_spec(lines@[l2]@) | mask_spec(lines@[l3]@) | mask_spec(
                lines@[l4]@,
            ) | mask_spec(lines@[l5]@),
        ) by {
            let w1 = mask_spec(lines@[l1]@);
            let w2 = mask_spec(lines@[l2]@);
            let w3 = mask_spec(lines@[l3]@);
            let w4 = mask_spec(lines@[l4]@);
            let w5 = mask_spec(lines@[l5]@);
            let k1 = choose|k: int| 0 <= k < classes@.len() && (#[trigger] classes@[k]).mask == w1;
            let k2 = choose|k: int| 0 <= k < classes@.len() && (#[trigger] classes@[k]).mask == w2;
            let k3 = choose|k: int| 0 <= k < classes@.len() && (#[trigger] classes@[k]).mask == w3;
            let k4 = choose|k: int| 0 <= k < classes@.len() && (#[trigger] classes@[k]).mask == w4;
            let k5 = choose|k: int| 0 <= k < classes@.len() && (#[trigger] classes@[k]).mask == w5;
            assert(crate::search::has_union(pairs@, w1 | w2));
            assert(crate::search::has_union(pairs@, w3 | w4));
            let p = choose|p: int|
                0 <= p < pairs@.len() && (#[trigger] pairs@[p]).union() == w1 | w2;
            let q0 = choose|p0: int|
                0 <= p0 < pairs@.len() && (#[trigger] pairs@[p0]).union() == w3 | w4;
            assert((w1 | w2) & (w3 | w4) == 0 && (w3 | w4) & (w1 | w2) == 0) by (bit_vector)
                requires
                    w1 & w3 == 0u32,
                    w1 & w4 == 0u32,
                    w2 & w3 == 0u32,
                    w2 & w4 == 0u32,
            ;
            assert(w5 & ((w1 | w2) | (w3 | w4)) == 0 && w5 & ((w3 | w4) | (w1 | w2)) == 0)
                by (bit_vector)
                requires
                    w1 & w5 == 0u32,
                    w2 & w5 == 0u32,
                    w3 & w5 == 0u32,
                    w4 & w5 == 0u32,
            ;
            if p <= q0 {
                assert(quints_done(rs, classes@, pairs@[p].union() | pairs@[q0].union()));
                assert(has_combo_mask(rs, ((w1 | w2) | (w3 | w4)) | w5));
            } else {
                assert(quints_done(rs, classes@, pairs@[q0].union() | pairs@[p].union()));
                assert(has_combo_mask(rs, ((w3 | w4) | (w1 | w2)) | w5));
            }
            assert(((w1 | w2) | (w3 | w4)) | w5 == (((w1 | w2) | w3) | w4) | w5 && ((w3 | w4) | (w1
                | w2)) | w5 == (((w1 | w2) | w3) | w4) | w5) by (bit_vector);
        }
    }
    rs
}

} // verus!
