//! Pair generator, quad composer and quintet finder: disjoint mask pairs are
//! canonicalized by their union, composed pairwise into disjoint quads, and
//! each quad is extended with every remaining disjoint fifth mask.

use vstd::prelude::*;

use crate::index::MaskClass;

verus! {

/// Two letter-disjoint masks. Canonical key: the union `m1 | m2`.
#[derive(Clone, Copy)]
pub struct DisjointPair {
    pub m1: u32,
    pub m2: u32,
}

impl DisjointPair {
    pub open spec fn union(self) -> u32 {
        self.m1 | self.m2
    }
}

/// Four masks forming two mutually disjoint pairs.
#[derive(Clone, Copy)]
pub struct Quad {
    pub m1: u32,
    pub m2: u32,
    pub m3: u32,
    pub m4: u32,
}

impl Quad {
    pub open spec fn mask(self) -> u32 {
        self.m1 | self.m2 | self.m3 | self.m4
    }
}

/// `p` is a disjoint pair of masks drawn from the class list.
pub open spec fn pair_from(classes: Seq<MaskClass>, p: DisjointPair) -> bool {
    &&& p.m1 & p.m2 == 0
    &&& exists|i: int| 0 <= i < classes.len() && (#[trigger] classes[i]).mask == p.m1
    &&& exists|j: int| 0 <= j < classes.len() && (#[trigger] classes[j]).mask == p.m2
}

/// Some pair of the list has union `u`.
pub open spec fn has_union(rs: Seq<DisjointPair>, u: u32) -> bool {
    exists|p: int| 0 <= p < rs.len() && (#[trigger] rs[p]).union() == u
}

proof fn lemma_insert_has_union(rs: Seq<DisjointPair>, pos: int, x: DisjointPair)
    requires
        0 <= pos <= rs.len(),
    ensures
        forall|u: u32| has_union(rs, u) ==> has_union(rs.insert(pos, x), u),
        has_union(rs.insert(pos, x), x.union()),
{
    let ns = rs.insert(pos, x);
    assert(ns[pos] == x);
    assert forall|u: u32| has_union(rs, u) implies has_union(ns, u) by {
        let p = choose|p: int| 0 <= p < rs.len() && (#[trigger] rs[p]).union() == u;
        if p < pos {
            assert(ns[p] == rs[p]);
        } else {
            assert(ns[p + 1] == rs[p]);
        }
    }
}

/// Enumerates every letter-disjoint pair of masks over the full cross product
/// of the classes, keeps one representative per distinct union (the first one
/// found in scan order), and sorts the result by union mask.
pub fn find_pairs(classes: &Vec<MaskClass>) -> (r: Vec<DisjointPair>)
    ensures
        forall|p: int| 0 <= p < r@.len() ==> pair_from(classes@, #[trigger] r@[p]),
        forall|p: int, q: int|
            #![trigger r@[p], r@[q]]
            0 <= p < q < r@.len() ==> r@[p].union() < r@[q].union(),
        forall|i: int, j: int|
            #![trigger classes@[i], classes@[j]]
            0 <= i < classes@.len() && 0 <= j < classes@.len() && classes@[i].mask
                & classes@[j].mask == 0 ==> has_union(r@, classes@[i].mask | classes@[j].mask),
{
    let n = classes.len();
    let mut r: Vec<DisjointPair> = Vec::new();
    let mut i: usize = 0;
    while i < n
        invariant
            n == classes@.len(),
            i <= n,
            forall|p: int| 0 <= p < r@.len() ==> pair_from(classes@, #[trigger] r@[p]),
            forall|p: int, q: int|
                #![trigger r@[p], r@[q]]
                0 <= p < q < r@.len() ==> r@[p].union() < r@[q].union(),
            forall|i0: int, j0: int|
                #![trigger classes@[i0], classes@[j0]]
                0 <= i0 < i && 0 <= j0 < n && classes@[i0].mask & classes@[j0].mask == 0
                    ==> has_union(r@, classes@[i0].mask | classes@[j0].mask),
        decreases n - i,
    {
        let mi = classes[i].mask;
        let mut j: usize = 0;
        while j < n
            invariant
                n == classes@.len(),
                i < n,
                j <= n,
                mi == classes@[i as int].mask,
                forall|p: int| 0 <= p < r@.len() ==> pair_from(classes@, #[trigger] r@[p]),
                forall|p: int, q: int|
                    #![trigger r@[p], r@[q]]
                    0 <= p < q < r@.len() ==> r@[p].union() < r@[q].union(),
                forall|i0: int, j0: int|
                    #![trigger classes@[i0], classes@[j0]]
                    0 <= i0 < i && 0 <= j0 < n && classes@[i0].mask & classes@[j0].mask == 0
                        ==> has_union(r@, classes@[i0].mask | classes@[j0].mask),
                forall|j0: int|
                    0 <= j0 < j && classes@[i as int].mask & (#[trigger] classes@[j0]).mask == 0
                        ==> has_union(r@, classes@[i as int].mask | classes@[j0].mask),
            decreases n - j,
        {
            let mj = classes[j].mask;
            if mi & mj == 0 {
                let u = mi | mj;
                let mut pos: usize = 0;
                while pos < r.len() && (r[pos].m1 | r[pos].m2) < u
                    invariant
                        pos <= r@.len(),
                        forall|q: int| 0 <= q < pos ==> (#[trigger] r@[q]).union() < u,
                        forall|p: int, q: int|
                            #![trigger r@[p], r@[q]]
                            0 <= p < q < r@.len() ==> r@[p].union() < r@[q].union(),
                    decreases r@.len() - pos,
                {
                    pos = pos + 1;
                }
                let ghost old_r = r@;
                if !(pos < r.len() && (r[pos].m1 | r[pos].m2) == u) {
                    let x = DisjointPair { m1: mi, m2: mj };
                    r.insert(pos, x);
                    proof {
                        assert(x.union() == u);
                        lemma_insert_has_union(old_r, pos as int, x);
                        assert(r@ == old_r.insert(pos as int, x));
                        assert forall|p: int, q: int|
                            #![trigger r@[p], r@[q]]
                            0 <= p < q < r@.len() implies r@[p].union() < r@[q].union() by {
                            if q < pos {
                                assert(r@[p] == old_r[p] && r@[q] == old_r[q]);
                            } else if p < pos && q == pos {
                                assert(r@[p] == old_r[p]);
                            } else if p < pos && q > pos {
                                assert(r@[p] == old_r[p] && r@[q] == old_r[q - 1]);
                            } else if p == pos {
                                assert(r@[q] == old_r[q - 1]);
                                assert(old_r[q - 1].union() > u) by {
                                    if old_r[q - 1].union() == u {
                                        assert(pos < old_r.len());
                                        assert(old_r[pos as int].union() != u);
                                        if q - 1 > pos {
                                            assert(old_r[pos as int].union() < old_r[q
                                                - 1].union());
                                        }
                                        assert(old_r[pos as int].union() < u);
                                        assert(false);
                                    } else if old_r[q - 1].union() < u {
                                        assert(q - 1 >= pos);
                                        if q - 1 > pos {
                                            assert(old_r[pos as int].union() < old_r[q
                                                - 1].union());
                                        }
                                        assert(false);
                                    }
                                }
                            } else {
                                assert(r@[p] == old_r[p - 1] && r@[q] == old_r[q - 1]);
                            }
                        }
                        assert forall|p: int| 0 <= p < r@.len() implies pair_from(
                            classes@,
                            #[trigger] r@[p],
                        ) by {
                            if p < pos {
                                assert(r@[p] == old_r[p]);
                            } else if p > pos {
                                assert(r@[p] == old_r[p - 1]);
                            } else {
                                assert(r@[p] == x);
                                assert(classes@[i as int].mask == x.m1);
                                assert(classes@[j as int].mask == x.m2);
                            }
                        }
                        assert forall|i0: int, j0: int|
                            #![trigger classes@[i0], classes@[j0]]
                            0 <= i0 < i && 0 <= j0 < n && classes@[i0].mask & classes@[j0].mask
                                == 0 implies has_union(
                            r@,
                            classes@[i0].mask | classes@[j0].mask,
                        ) by {
                            assert(has_union(old_r, classes@[i0].mask | classes@[j0].mask));
                        }
                    }
                } else {
                    proof {
                        assert(has_union(r@, u)) by {
                            assert(r@[pos as int].union() == u);
                        }
                    }
                }
                proof {
                    assert(has_union(r@, classes@[i as int].mask | classes@[j as int].mask));
                }
            }
            j = j + 1;
        }
        i = i + 1;
    }
    r
}

pub open spec fn quad_of(a: DisjointPair, b: DisjointPair) -> Quad {
    Quad { m1: a.m1, m2: a.m2, m3: b.m1, m4: b.m2 }
}

/// `q` is the composition of the pair at `i` with a disjoint pair at some
/// `j >= i`.
pub open spec fn quad_sourced(q: Quad, pairs: Seq<DisjointPair>, i: int) -> bool {
    exists|j: int|
        i <= j < pairs.len() && q == quad_of(pairs[i], #[trigger] pairs[j]) && pairs[i].union()
            & pairs[j].union() == 0
}

/// The quad list holds `q`.
pub open spec fn has_quad(r: Seq<Quad>, q: Quad) -> bool {
    exists|k: int| 0 <= k < r.len() && (#[trigger] r[k]) == q
}

/// Composes the pair at index `i` with every pair at index `j >= i` whose
/// union is letter-disjoint from it, yielding the quads owned by index `i`.
pub fn quads_for_index(pairs: &Vec<DisjointPair>, i: usize) -> (r: Vec<Quad>)
    requires
        i < pairs@.len(),
    ensures
        forall|k: int|
            0 <= k < r@.len() ==> quad_sourced(#[trigger] r@[k], pairs@, i as int),
        forall|j: int|
            i <= j < pairs@.len() && pairs@[i as int].union() & (#[trigger] pairs@[j]).union()
                == 0 ==> has_quad(r@, quad_of(pairs@[i as int], pairs@[j])),
{
    let a = pairs[i];
    let ua = a.m1 | a.m2;
    let mut r: Vec<Quad> = Vec::new();
    let mut j: usize = i;
    while j < pairs.len()
        invariant
            i < pairs@.len(),
            i <= j <= pairs@.len(),
            a == pairs@[i as int],
            ua == a.union(),
            forall|k: int|
                0 <= k < r@.len() ==> quad_sourced(#[trigger] r@[k], pairs@, i as int),
            forall|j0: int|
                i <= j0 < j && pairs@[i as int].union() & (#[trigger] pairs@[j0]).union() == 0
                    ==> has_quad(r@, quad_of(pairs@[i as int], pairs@[j0])),
        decreases pairs@.len() - j,
    {
        let b = pairs[j];
        if ua & (b.m1 | b.m2) == 0 {
            let ghost old_r = r@;
            r.push(Quad { m1: a.m1, m2: a.m2, m3: b.m1, m4: b.m2 });
            proof {
                assert(forall|k: int| 0 <= k < old_r.len() ==> r@[k] == old_r[k]);
                assert(pairs@[j as int] == b);
                assert(r@[r@.len() - 1] == quad_of(pairs@[i as int], pairs@[j as int]));
                assert(quad_sourced(r@[r@.len() - 1], pairs@, i as int)) by {
                    assert(i <= (j as int) < pairs@.len() && r@[r@.len() - 1] == quad_of(
                        pairs@[i as int],
                        pairs@[j as int],
                    ) && pairs@[i as int].union() & pairs@[j as int].union() == 0);
                }
                assert forall|k: int| 0 <= k < r@.len() implies quad_sourced(
                    #[trigger] r@[k],
                    pairs@,
                    i as int,
                ) by {
                    if k < r@.len() - 1 {
                        assert(r@[k] == old_r[k]);
                        assert(quad_sourced(old_r[k], pairs@, i as int));
                    }
                }
                assert forall|j0: int|
                    i <= j0 < j + 1 && pairs@[i as int].union() & (#[trigger] pairs@[j0]).union()
                        == 0 implies has_quad(r@, quad_of(pairs@[i as int], pairs@[j0])) by {
                    if j0 < j {
                        let k = choose|k: int|
                            0 <= k < old_r.len() && (#[trigger] old_r[k]) == quad_of(
                                pairs@[i as int],
                                pairs@[j0],
                            );
                        assert(r@[k] == quad_of(pairs@[i as int], pairs@[j0]));
                    } else {
                        assert(r@[r@.len() - 1] == quad_of(pairs@[i as int], pairs@[j0]));
                    }
                }
            }
        }
        j = j + 1;
    }
    r
}
/// the candidate fifth words for that quad.
pub fn fifth_classes(classes: &Vec<MaskClass>, qm: u32) -> (r: Vec<usize>)
    ensures
        forall|p: int|
            0 <= p < r@.len() ==> (#[trigger] r@[p]) < classes@.len() && classes@[r@[p] as int].mask
                & qm == 0,
        forall|k: int|
            0 <= k < classes@.len() && (#[trigger] classes@[k]).mask & qm == 0 ==> exists|p: int|
                0 <= p < r@.len() && r@[p] == k,
{
    let mut r: Vec<usize> = Vec::new();
    let mut k: usize = 0;
    while k < classes.len()
        invariant
            k <= classes@.len(),
            forall|p: int|
                0 <= p < r@.len() ==> (#[trigger] r@[p]) < classes@.len()
                    && classes@[r@[p] as int].mask & qm == 0,
            forall|k0: int|
                0 <= k0 < k && (#[trigger] classes@[k0]).mask & qm == 0 ==> exists|p: int|
                    0 <= p < r@.len() && r@[p] == k0,
        decreases classes@.len() - k,
    {
        if classes[k].mask & qm == 0 {
            let ghost old_r = r@;
            r.push(k);
            proof {
                assert(r@[r@.len() - 1] == k as int);
                assert(forall|p: int| 0 <= p < old_r.len() ==> r@[p] == old_r[p]);
            }
        }
        k = k + 1;
    }
    r
}

} // verus!
