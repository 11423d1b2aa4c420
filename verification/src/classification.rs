use vstd::prelude::*;
use crate::bits::Bits;
use crate::latin_square::LatinSquare;
use crate::latin_square::LatinType;
use crate::latin_square::LatinStructure;
use crate::latin_square::clone_grid;
use crate::latin_square::conjugate;
use crate::latin_square::latin_ok;
use crate::latin_square::spec_classify;
use crate::latin_square::spec_commutative;
use crate::latin_square::spec_has_left_identity;
use crate::latin_square::spec_has_right_identity;
use crate::permutation::Permutation;
use crate::permutation::clone_row;
use crate::permutation::is_permutation;
use crate::permutation::lemma_compose_is_permutation;
use crate::permutation::spec_compose;
use crate::sidedness::Sidedness;

verus! {

/// One affine automorphism record: the base automorphism's index, the
/// translating element, and the side the translation acts on.
pub type AffineAutomorphism = (usize, usize, Sidedness);

/// Per permutation: whether it is an automorphism, and the affine
/// automorphism records that land on it.
pub type AllAffineAutomorphisms = (bool, Vec<AffineAutomorphism>);

/// The translation permutation of a table: row v of the table for a left
/// translation, column v for a right translation.
pub open spec fn translation(t: Seq<Seq<usize>>, n: int, v: int, side: Sidedness) -> Seq<usize> {
    Seq::new(
        n as nat,
        |k: int|
            if side == Sidedness::Left {
                t[v][k]
            } else {
                t[k][v]
            },
    )
}

/// The strict processing order on affine automorphism records: by base
/// automorphism, then element, then left before right.
pub open spec fn record_lt(x: AffineAutomorphism, y: AffineAutomorphism) -> bool {
    ||| x.0 < y.0
    ||| (x.0 == y.0 && x.1 < y.1)
    ||| (x.0 == y.0 && x.1 == y.1 && x.2 == Sidedness::Left && y.2 == Sidedness::Right)
}

/// The list of records held for each permutation: sound, and strictly
/// ordered by the processing order.
pub open spec fn records_ok(
    lists: Seq<Vec<AffineAutomorphism>>,
    t: Seq<Seq<usize>>,
    n: int,
    perms: Seq<Permutation>,
) -> bool {
    &&& lists.len() == perms.len()
    &&& (forall|k: int, idx: int|
        #![trigger lists[k]@[idx]]
        0 <= k < lists.len() && 0 <= idx < lists[k]@.len() ==> {
            let rec = lists[k]@[idx];
            &&& rec.0 < perms.len()
            &&& rec.1 < n
            &&& conjugate(t, perms[rec.0 as int]@) == t
            &&& spec_compose(translation(t, n, rec.1 as int, rec.2), perms[rec.0 as int]@)
                == perms[k]@
        })
    &&& (forall|k: int, idx1: int, idx2: int|
        #![trigger lists[k]@[idx1], lists[k]@[idx2]]
        0 <= k < lists.len() && 0 <= idx1 < idx2 < lists[k]@.len() ==> record_lt(
            lists[k]@[idx1],
            lists[k]@[idx2],
        ))
}

/// The record of the combination (i, v, side) sits in the list of the
/// permutation equal to its composed affine automorphism.
pub open spec fn combo_recorded(
    lists: Seq<Vec<AffineAutomorphism>>,
    t: Seq<Seq<usize>>,
    n: int,
    perms: Seq<Permutation>,
    i: int,
    v: int,
    side: Sidedness,
) -> bool {
    exists|k: int, idx: int|
        #![trigger lists[k]@[idx]]
        0 <= k < lists.len() && 0 <= idx < lists[k]@.len() && lists[k]@[idx] == (
            i as usize,
            v as usize,
            side,
        ) && perms[k]@ == spec_compose(translation(t, n, v, side), perms[i]@)
}

/// The classification of one Latin square: its class, its position in the
/// generated list, the square itself, and per permutation its automorphism
/// flag with the affine automorphism records landing on it.
#[derive(Debug)]
pub struct LatinSquareClassification {
    pub class: LatinType,
    pub index: usize,
    pub square: LatinSquare,
    pub all_permutations_all_affine_automorphisms: Vec<AllAffineAutomorphisms>,
}

/// The two bits encoding a structure class in a fingerprint.
pub open spec fn structure_bits(s: LatinStructure) -> (bool, bool) {
    match s {
        LatinStructure::Quasigroup => (true, true),
        LatinStructure::Loop => (false, true),
        LatinStructure::Group => (true, false),
        LatinStructure::Abelian => (false, false),
    }
}

/// The full classification of one square against every permutation, as the
/// ensures of classify_one_square and classify_all_latin_squares state it.
pub open spec fn classification_ok(
    rj: LatinSquareClassification,
    t: Seq<Seq<usize>>,
    n: int,
    perms: Seq<Permutation>,
) -> bool {
    let all = rj.all_permutations_all_affine_automorphisms@;
    let lists = all.map_values(|p: AllAffineAutomorphisms| p.1);
    &&& rj.square@ == t
    &&& rj.class.structure == spec_classify(t, n)
    &&& rj.class.left_identity == spec_has_left_identity(t, n)
    &&& rj.class.right_identity == spec_has_right_identity(t, n)
    &&& rj.class.commutative == spec_commutative(t, n)
    &&& all.len() == perms.len()
    &&& (forall|i: int|
        0 <= i < perms.len() ==> (#[trigger] all[i]).0 == (conjugate(t, perms[i]@) == t))
    &&& records_ok(lists, t, n, perms)
    &&& (forall|i: int, v: int, side: Sidedness|
        #![trigger combo_recorded(lists, t, n, perms, i, v, side)]
        0 <= i < perms.len() && 0 <= v < n && conjugate(t, perms[i]@) == t ==> combo_recorded(
            lists,
            t,
            n,
            perms,
            i,
            v,
            side,
        ))
}

impl LatinSquareClassification {
    /// The sort key of the classification: two bits for the class, then one
    /// bit per permutation for automorphism membership.
    pub fn fingerprint(&self) -> (r: Bits)
        ensures
            r@.len() == 2 + self.all_permutations_all_affine_automorphisms@.len(),
            r@[0] == structure_bits(self.class.structure).0,
            r@[1] == structure_bits(self.class.structure).1,
            forall|i: int|
                0 <= i < self.all_permutations_all_affine_automorphisms@.len() ==> r@[2 + i]
                    == (#[trigger] self.all_permutations_all_affine_automorphisms@[i]).0,
    {
        let mut fingerprint: Vec<bool> = Vec::new();
        match self.class.structure {
            LatinStructure::Quasigroup => {
                fingerprint.push(true);
                fingerprint.push(true);
            },
            LatinStructure::Loop => {
                fingerprint.push(false);
                fingerprint.push(true);
            },
            LatinStructure::Group => {
                fingerprint.push(true);
                fingerprint.push(false);
            },
            LatinStructure::Abelian => {
                fingerprint.push(false);
                fingerprint.push(false);
            },
        }

        let mut rest = self.fingerprint_no_structure();
        fingerprint.append(&mut rest.bits);
        Bits { bits: fingerprint }
    }

    /// The automorphism bits alone, one per permutation.
    pub fn fingerprint_no_structure(&self) -> (r: Bits)
        ensures
            r@.len() == self.all_permutations_all_affine_automorphisms@.len(),
            forall|i: int|
                0 <= i < self.all_permutations_all_affine_automorphisms@.len() ==> r@[i]
                    == (#[trigger] self.all_permutations_all_affine_automorphisms@[i]).0,
    {
        let mut fingerprint: Vec<bool> = Vec::new();
        let mut i: usize = 0;
        while i < self.all_permutations_all_affine_automorphisms.len()
            invariant
                i <= self.all_permutations_all_affine_automorphisms@.len(),
                fingerprint@.len() == i,
                forall|j: int|
                    0 <= j < i ==> fingerprint@[j]
                        == (#[trigger] self.all_permutations_all_affine_automorphisms@[j]).0,
            decreases self.all_permutations_all_affine_automorphisms@.len() - i,
        {
            fingerprint.push(self.all_permutations_all_affine_automorphisms[i].0);
            i = i + 1;
        }
        Bits { bits: fingerprint }
    }
}

/// For every square and permutation, whether the permutation fixes the
/// square under conjugation, and for every automorphism, element and side,
/// on which permutation the affine automorphism lands.  The permutation
/// list must be the complete list of its order: a missed lookup would be an
/// invariant violation.
pub fn classify_all_latin_squares(squares: &Vec<LatinSquare>, perms: &Vec<Permutation>) -> (result:
    Vec<LatinSquareClassification>)
    requires
        squares@.len() >= 1,
        forall|j: int|
            0 <= j < squares@.len() ==> latin_ok(#[trigger] squares@[j]@, squares@[0]@.len() as int),
        forall|k: int|
            0 <= k < perms@.len() ==> is_permutation(
                #[trigger] perms@[k]@,
                squares@[0]@.len() as int,
            ),
        forall|q: Seq<usize>|
            #[trigger] is_permutation(q, squares@[0]@.len() as int) ==> exists|k: int|
                0 <= k < perms@.len() && perms@[k]@ == q,
        forall|k1: int, k2: int| 0 <= k1 < k2 < perms@.len() ==> perms@[k1]@ != perms@[k2]@,
    ensures
        result@.len() == squares@.len(),
        forall|j: int|
            0 <= j < result@.len() ==> (#[trigger] result@[j]).index == j && classification_ok(
                result@[j],
                squares@[j]@,
                squares@[0]@.len() as int,
                perms@,
            ),
{
    let ghost n_spec = squares@[0]@.len() as int;
    let n = squares[0].0.len();
    let mut result: Vec<LatinSquareClassification> = Vec::new();

    let mut j: usize = 0;
    while j < squares.len()
        invariant
            squares@.len() >= 1,
            n_spec == n as int,
            forall|j2: int| 0 <= j2 < squares@.len() ==> latin_ok(#[trigger] squares@[j2]@, n_spec),
            forall|k: int| 0 <= k < perms@.len() ==> is_permutation(#[trigger] perms@[k]@, n_spec),
            forall|q: Seq<usize>|
                #[trigger] is_permutation(q, n_spec) ==> exists|k: int|
                    0 <= k < perms@.len() && perms@[k]@ == q,
            forall|k1: int, k2: int| 0 <= k1 < k2 < perms@.len() ==> perms@[k1]@ != perms@[k2]@,
            j <= squares@.len(),
            result@.len() == j,
            forall|j2: int|
                0 <= j2 < j ==> (#[trigger] result@[j2]).index == j2 && classification_ok(
                    result@[j2],
                    squares@[j2]@,
                    n_spec,
                    perms@,
                ),
        decreases squares@.len() - j,
    {
        let row = classify_one_square(squares, perms, j, n);
        result.push(row);
        j = j + 1;
    }
    result
}

/// The classification of one square of the list against every permutation.
fn classify_one_square(squares: &Vec<LatinSquare>, perms: &Vec<Permutation>, j: usize, n: usize) -> (rj:
    LatinSquareClassification)
    requires
        squares@.len() >= 1,
        j < squares@.len(),
        n as int == squares@[0]@.len() as int,
        forall|j2: int| 0 <= j2 < squares@.len() ==> latin_ok(#[trigger] squares@[j2]@, n as int),
        forall|k: int| 0 <= k < perms@.len() ==> is_permutation(#[trigger] perms@[k]@, n as int),
        forall|q: Seq<usize>|
            #[trigger] is_permutation(q, n as int) ==> exists|k: int|
                0 <= k < perms@.len() && perms@[k]@ == q,
        forall|k1: int, k2: int| 0 <= k1 < k2 < perms@.len() ==> perms@[k1]@ != perms@[k2]@,
    ensures
        rj.index == j,
        classification_ok(rj, squares@[j as int]@, n as int, perms@),
{
    let ghost t = squares@[j as int]@;
    let ghost n_spec = n as int;
    let s = &squares[j];
    proof {
        assert(s@ == t);
    }

    // Which permutations fix the square under conjugation.
    let mut aut: Vec<bool> = Vec::new();
    let mut i: usize = 0;
    while i < perms.len()
        invariant
            t == squares@[j as int]@,
            n_spec == n as int,
            j < squares@.len(),
            s == &squares@[j as int],
            latin_ok(t, n_spec),
            forall|k: int| 0 <= k < perms@.len() ==> is_permutation(#[trigger] perms@[k]@, n_spec),
            i <= perms@.len(),
            aut@.len() == i,
            forall|k: int| 0 <= k < i ==> #[trigger] aut@[k] == (conjugate(t, perms@[k]@) == t),
        decreases perms@.len() - i,
    {
        let mut w = LatinSquare(clone_grid(&s.0));
        let p = Permutation(clone_row(&perms[i].0));
        proof {
            assert(w@ =~= t);
            assert(w@.len() == n_spec);
            assert(p@ == perms@[i as int]@);
            assert(is_permutation(perms@[i as int]@, n_spec));
        }
        w.apply_permutation(p);
        aut.push(w.eq(s));
        i = i + 1;
    }

    // Distribute the affine automorphism records on the permutations they
    // land on.
    let mut lists: Vec<Vec<AffineAutomorphism>> = Vec::new();
    let mut k0: usize = 0;
    while k0 < perms.len()
        invariant
            k0 <= perms@.len(),
            lists@.len() == k0,
            forall|k: int| 0 <= k < k0 ==> (#[trigger] lists@[k])@.len() == 0,
        decreases perms@.len() - k0,
    {
        lists.push(Vec::new());
        k0 = k0 + 1;
    }

    let mut i: usize = 0;
    while i < perms.len()
        invariant
            t == squares@[j as int]@,
            n_spec == n as int,
            j < squares@.len(),
            s == &squares@[j as int],
            latin_ok(t, n_spec),
            forall|k: int| 0 <= k < perms@.len() ==> is_permutation(#[trigger] perms@[k]@, n_spec),
            forall|q: Seq<usize>|
                #[trigger] is_permutation(q, n_spec) ==> exists|k: int|
                    0 <= k < perms@.len() && perms@[k]@ == q,
            forall|k1: int, k2: int| 0 <= k1 < k2 < perms@.len() ==> perms@[k1]@ != perms@[k2]@,
            aut@.len() == perms@.len(),
            forall|k: int|
                0 <= k < perms@.len() ==> #[trigger] aut@[k] == (conjugate(t, perms@[k]@) == t),
            i <= perms@.len(),
            records_ok(lists@, t, n_spec, perms@),
            forall|k: int, idx: int|
                #![trigger lists@[k]@[idx]]
                0 <= k < lists@.len() && 0 <= idx < lists@[k]@.len() ==> lists@[k]@[idx].0 < i,
            forall|i2: int, v2: int, side2: Sidedness|
                #![trigger combo_recorded(lists@, t, n_spec, perms@, i2, v2, side2)]
                0 <= i2 < i && 0 <= v2 < n_spec && conjugate(t, perms@[i2]@) == t
                    ==> combo_recorded(lists@, t, n_spec, perms@, i2, v2, side2),
        decreases perms@.len() - i,
    {
        if aut[i] {
            let mut v: usize = 0;
            while v < n
                invariant
                    t == squares@[j as int]@,
                    n_spec == n as int,
                    j < squares@.len(),
                    s == &squares@[j as int],
                    latin_ok(t, n_spec),
                    forall|k: int|
                        0 <= k < perms@.len() ==> is_permutation(#[trigger] perms@[k]@, n_spec),
                    forall|q: Seq<usize>|
                        #[trigger] is_permutation(q, n_spec) ==> exists|k: int|
                            0 <= k < perms@.len() && perms@[k]@ == q,
                    forall|k1: int, k2: int|
                        0 <= k1 < k2 < perms@.len() ==> perms@[k1]@ != perms@[k2]@,
                    i < perms@.len(),
                    perms@.len() <= usize::MAX,
                    conjugate(t, perms@[i as int]@) == t,
                    v <= n,
                    records_ok(lists@, t, n_spec, perms@),
                    forall|k: int, idx: int|
                        #![trigger lists@[k]@[idx]]
                        0 <= k < lists@.len() && 0 <= idx < lists@[k]@.len() ==> record_lt(
                            lists@[k]@[idx],
                            (i, v as usize, Sidedness::Left),
                        ),
                    forall|i2: int, v2: int, side2: Sidedness|
                        #![trigger combo_recorded(lists@, t, n_spec, perms@, i2, v2, side2)]
                        0 <= i2 < perms@.len() && 0 <= v2 < n_spec && conjugate(t, perms@[i2]@)
                            == t && (i2 < i || (i2 == i && v2 < v)) ==> combo_recorded(
                            lists@,
                            t,
                            n_spec,
                            perms@,
                            i2,
                            v2,
                            side2,
                        ),
                decreases n - v,
            {
                let ghost lists_a = lists@;
                let f1 = record_affine(s, perms, &mut lists, i, v, Sidedness::Left, Ghost(t));
                let ghost lists_b = lists@;
                proof {
                    lemma_record_step(
                        lists_a,
                        lists_b,
                        t,
                        n_spec,
                        perms@,
                        i as int,
                        v as int,
                        Sidedness::Left,
                        f1 as int,
                    );
                }
                let f2 = record_affine(s, perms, &mut lists, i, v, Sidedness::Right, Ghost(t));
                proof {
                    lemma_record_step(
                        lists_b,
                        lists@,
                        t,
                        n_spec,
                        perms@,
                        i as int,
                        v as int,
                        Sidedness::Right,
                        f2 as int,
                    );
                    assert forall|i2: int, v2: int, side2: Sidedness|
                        #![trigger combo_recorded(lists@, t, n_spec, perms@, i2, v2, side2)]
                        0 <= i2 < perms@.len() && 0 <= v2 < n_spec && conjugate(t, perms@[i2]@)
                            == t && (i2 < i || (i2 == i && v2 < v + 1)) implies combo_recorded(
                        lists@,
                        t,
                        n_spec,
                        perms@,
                        i2,
                        v2,
                        side2,
                    ) by {
                        if i2 == i && v2 == v {
                            if side2 == Sidedness::Left {
                                assert(combo_recorded(lists_b, t, n_spec, perms@, i2, v2, side2));
                                lemma_combo_preserved(
                                    lists_b,
                                    lists@,
                                    t,
                                    n_spec,
                                    perms@,
                                    i2,
                                    v2,
                                    side2,
                                );
                            } else {
                                assert(side2 == Sidedness::Right);
                            }
                        } else {
                            assert(combo_recorded(lists_a, t, n_spec, perms@, i2, v2, side2));
                            lemma_combo_preserved(lists_a, lists_b, t, n_spec, perms@, i2, v2, side2);
                            lemma_combo_preserved(lists_b, lists@, t, n_spec, perms@, i2, v2, side2);
                        }
                    }
                }
                v = v + 1;
            }
            proof {
                assert forall|k: int, idx: int|
                    #![trigger lists@[k]@[idx]]
                    0 <= k < lists@.len() && 0 <= idx < lists@[k]@.len()
                        implies lists@[k]@[idx].0 < i + 1 by {
                    assert(record_lt(lists@[k]@[idx], (i, n, Sidedness::Left)));
                }
            }
        } else {
            proof {
                assert forall|i2: int, v2: int, side2: Sidedness|
                    #![trigger combo_recorded(lists@, t, n_spec, perms@, i2, v2, side2)]
                    0 <= i2 < i + 1 && 0 <= v2 < n_spec && conjugate(t, perms@[i2]@)
                        == t implies combo_recorded(lists@, t, n_spec, perms@, i2, v2, side2) by {
                    assert(aut@[i as int] == (conjugate(t, perms@[i as int]@) == t));
                    assert(i2 != i);
                }
            }
        }
        i = i + 1;
    }

    let class = s.classify_structure();
    let square_copy = LatinSquare(clone_grid(&s.0));
    proof {
        assert(square_copy@ =~= t);
    }

    // Pair the automorphism flags with their record lists.
    let mut pairs: Vec<AllAffineAutomorphisms> = Vec::new();
    let mut k1: usize = 0;
    let ghost lists0 = lists@;
    while k1 < perms.len()
        invariant
            k1 <= perms@.len(),
            aut@.len() == perms@.len(),
            lists@.len() == perms@.len() - k1,
            forall|k: int| 0 <= k < lists@.len() ==> #[trigger] lists@[k] == lists0[k1 + k],
            lists0.len() == perms@.len(),
            pairs@.len() == k1,
            forall|k: int|
                0 <= k < k1 ==> (#[trigger] pairs@[k]).0 == aut@[k] && pairs@[k].1 == lists0[k],
        decreases perms@.len() - k1,
    {
        let flag = aut[k1];
        let entry = lists.remove(0);
        proof {
            assert(entry == lists0[k1 as int]);
        }
        pairs.push((flag, entry));
        k1 = k1 + 1;
    }

    let rj = LatinSquareClassification {
        class,
        index: j,
        square: square_copy,
        all_permutations_all_affine_automorphisms: pairs,
    };
    proof {
        let all = rj.all_permutations_all_affine_automorphisms@;
        assert(all.map_values(|p: AllAffineAutomorphisms| p.1) =~= lists0);
        assert forall|i2: int, v2: int, side2: Sidedness|
            #![trigger combo_recorded(lists0, t, n_spec, perms@, i2, v2, side2)]
            0 <= i2 < perms@.len() && 0 <= v2 < n_spec && conjugate(t, perms@[i2]@)
                == t implies combo_recorded(lists0, t, n_spec, perms@, i2, v2, side2) by {}
    }
    rj
}

/// Records one affine automorphism: composes the translation with the base
/// automorphism, finds the permutation it equals, and appends the record to
/// that permutation's list.
fn record_affine(
    s: &LatinSquare,
    perms: &Vec<Permutation>,
    lists: &mut Vec<Vec<AffineAutomorphism>>,
    i: usize,
    v: usize,
    side: Sidedness,
    Ghost(t): Ghost<Seq<Seq<usize>>>,
) -> (found: usize)
    requires
        t == s@,
        latin_ok(t, t.len() as int),
        v < t.len(),
        i < perms@.len(),
        forall|k: int|
            0 <= k < perms@.len() ==> is_permutation(#[trigger] perms@[k]@, t.len() as int),
        forall|q: Seq<usize>|
            #[trigger] is_permutation(q, t.len() as int) ==> exists|k: int|
                0 <= k < perms@.len() && perms@[k]@ == q,
        old(lists)@.len() == perms@.len(),
    ensures
        found < perms@.len(),
        perms@[found as int]@ == spec_compose(
            translation(t, t.len() as int, v as int, side),
            perms@[i as int]@,
        ),
        final(lists)@.len() == perms@.len(),
        forall|k: int|
            0 <= k < perms@.len() && k != found ==> #[trigger] final(lists)@[k] == old(lists)@[k],
        final(lists)@[found as int]@ == old(lists)@[found as int]@.push((i, v, side)),
{
    let ghost n_spec = t.len() as int;
    let ap = s.addition_permutation(v, &side);
    proof {
        assert(ap@ =~= translation(t, n_spec, v as int, side));
    }
    let affine_automorphism = ap.compose(&perms[i]);
    proof {
        assert(affine_automorphism@ == spec_compose(ap@, perms@[i as int]@));
        lemma_compose_is_permutation(ap@, perms@[i as int]@, n_spec);
    }
    let mut found: usize = 0;
    let mut is_found = false;
    let mut k: usize = 0;
    while k < perms.len()
        invariant
            k <= perms@.len(),
            !is_found ==> forall|z: int| 0 <= z < k ==> perms@[z]@ != affine_automorphism@,
            is_found ==> found < perms@.len() && perms@[found as int]@ == affine_automorphism@,
        decreases perms@.len() - k,
    {
        if !is_found && perms[k].eq(&affine_automorphism) {
            found = k;
            is_found = true;
        }
        k = k + 1;
    }
    proof {
        if !is_found {
            let z = choose|z: int| 0 <= z < perms@.len() && perms@[z]@ == affine_automorphism@;
            assert(perms@[z]@ != affine_automorphism@);
        }
    }
    let mut entry = lists.remove(found);
    let ghost entry0 = entry@;
    proof {
        assert(entry0 == old(lists)@[found as int]@);
    }
    entry.push((i, v, side));
    lists.insert(found, entry);
    proof {
        assert forall|k: int|
            0 <= k < perms@.len() && k != found as int implies #[trigger] lists@[k] == old(
            lists,
        )@[k] by {
            if k < found as int {
            } else {
            }
        }
        assert(lists@[found as int]@ == entry0.push((i, v, side)));
    }
    found
}

/// After recording one combination, the lists stay sound and ordered, the
/// new record's combination is recorded, and everything recorded before
/// stays recorded.
proof fn lemma_record_step(
    before: Seq<Vec<AffineAutomorphism>>,
    after: Seq<Vec<AffineAutomorphism>>,
    t: Seq<Seq<usize>>,
    n: int,
    perms: Seq<Permutation>,
    i: int,
    v: int,
    side: Sidedness,
    found: int,
)
    requires
        perms.len() <= usize::MAX,
        n <= usize::MAX,
        records_ok(before, t, n, perms),
        forall|k: int, idx: int|
            #![trigger before[k]@[idx]]
            0 <= k < before.len() && 0 <= idx < before[k]@.len() ==> record_lt(
                before[k]@[idx],
                (i as usize, v as usize, side),
            ),
        0 <= i < perms.len(),
        0 <= v < n,
        conjugate(t, perms[i]@) == t,
        0 <= found < perms.len(),
        perms[found]@ == spec_compose(translation(t, n, v, side), perms[i]@),
        after.len() == perms.len(),
        forall|k: int| 0 <= k < perms.len() && k != found ==> #[trigger] after[k] == before[k],
        after[found]@ == before[found]@.push((i as usize, v as usize, side)),
    ensures
        records_ok(after, t, n, perms),
        combo_recorded(after, t, n, perms, i, v, side),
        forall|k: int, idx: int|
            #![trigger after[k]@[idx]]
            0 <= k < after.len() && 0 <= idx < after[k]@.len() ==> (record_lt(
                after[k]@[idx],
                (i as usize, v as usize, side),
            ) || after[k]@[idx] == (i as usize, v as usize, side)),
{
    assert forall|k: int, idx: int|
        #![trigger after[k]@[idx]]
        0 <= k < after.len() && 0 <= idx < after[k]@.len() implies {
        let rec = after[k]@[idx];
        &&& rec.0 < perms.len()
        &&& rec.1 < n
        &&& conjugate(t, perms[rec.0 as int]@) == t
        &&& spec_compose(translation(t, n, rec.1 as int, rec.2), perms[rec.0 as int]@) == perms[k]@
        &&& (record_lt(rec, (i as usize, v as usize, side)) || rec == (
            i as usize,
            v as usize,
            side,
        ))
    } by {
        if k == found {
            if idx < before[k]@.len() {
                assert(after[k]@[idx] == before[k]@[idx]);
                assert(record_lt(before[k]@[idx], (i as usize, v as usize, side)));
            } else {
                assert(after[k]@[idx] == (i as usize, v as usize, side));
                assert((i as usize) < perms.len());
                assert((i as usize) as int == i);
            }
        } else {
            assert(after[k] == before[k]);
            assert(after[k]@[idx] == before[k]@[idx]);
            assert(record_lt(before[k]@[idx], (i as usize, v as usize, side)));
        }
    }
    assert forall|k: int, idx1: int, idx2: int|
        #![trigger after[k]@[idx1], after[k]@[idx2]]
        0 <= k < after.len() && 0 <= idx1 < idx2 < after[k]@.len() implies record_lt(
        after[k]@[idx1],
        after[k]@[idx2],
    ) by {
        if k == found {
            if idx2 < before[k]@.len() {
                assert(after[k]@[idx1] == before[k]@[idx1]);
                assert(after[k]@[idx2] == before[k]@[idx2]);
            } else {
                assert(after[k]@[idx2] == (i as usize, v as usize, side));
                assert(after[k]@[idx1] == before[k]@[idx1]);
            }
        } else {
            assert(after[k] == before[k]);
        }
    }
    assert(after[found]@[before[found]@.len() as int] == (i as usize, v as usize, side));
}

/// A combination stays recorded when lists only grow at the end.
proof fn lemma_combo_preserved(
    before: Seq<Vec<AffineAutomorphism>>,
    after: Seq<Vec<AffineAutomorphism>>,
    t: Seq<Seq<usize>>,
    n: int,
    perms: Seq<Permutation>,
    i: int,
    v: int,
    side: Sidedness,
)
    requires
        combo_recorded(before, t, n, perms, i, v, side),
        after.len() == before.len(),
        forall|k: int|
            0 <= k < before.len() ==> (#[trigger] after[k])@.len() >= before[k]@.len(),
        forall|k: int, idx: int|
            #![trigger after[k]@[idx]]
            0 <= k < before.len() && 0 <= idx < before[k]@.len() ==> after[k]@[idx]
                == before[k]@[idx],
    ensures
        combo_recorded(after, t, n, perms, i, v, side),
{
    let (k, idx) = choose|k: int, idx: int|
        #![trigger before[k]@[idx]]
        0 <= k < before.len() && 0 <= idx < before[k]@.len() && before[k]@[idx] == (
            i as usize,
            v as usize,
            side,
        ) && perms[k]@ == spec_compose(translation(t, n, v, side), perms[i]@);
    assert(after[k]@[idx] == (i as usize, v as usize, side));
}

} // verus!
