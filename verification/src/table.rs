use vstd::prelude::*;
use vstd::multiset::Multiset;
use vstd::seq_lib::*;
use crate::bits::Bits;
use crate::bits::bits_cmp;
use crate::bits::lemma_bits_cmp_antisym;
use crate::bits::lemma_bits_cmp_trans;
use crate::classification::AllAffineAutomorphisms;
use crate::classification::LatinSquareClassification;
use crate::classification::structure_bits;
use crate::latin_square::LatinSquare;
use crate::latin_square::LatinType;
use crate::latin_square::clone_grid;
use crate::permutation::Permutation;
use crate::permutation::clone_row;

verus! {

/// A rectangular report: one vector of cells per row.
#[derive(Debug)]
pub struct Table<T> {
    pub table: Vec<Vec<T>>,
}

/// One cell of the report tables handed to the export layer.
#[derive(Debug)]
pub enum SquareInformation {
    Class(LatinType),
    LatinSquareIndex(usize),
    LatinSquare(LatinSquare),
    Permutation(Permutation),
    PermutationIndex(usize),
    AllAffineAutomorphisms(AllAffineAutomorphisms),
    FingerprintIndex(usize),
    AutomorphismAndAffineSums((usize, usize)),
    Text(String),
    Empty,
}

/// One cell of a permutation-indexed report row.
#[derive(Debug)]
pub enum PermutationInformation {
    Permutation(Permutation),
    Index(usize),
    AllAffineAutomorphisms(AllAffineAutomorphisms),
}

/// The longest row of a list of rows.
pub fn max_length<T>(rows: &Vec<Vec<T>>) -> (longest: usize)
    ensures
        forall|i: int| 0 <= i < rows@.len() ==> (#[trigger] rows@[i])@.len() <= longest,
        rows@.len() > 0 ==> exists|i: int| 0 <= i < rows@.len() && (#[trigger] rows@[i])@.len()
            == longest,
        rows@.len() == 0 ==> longest == 0,
{
    let mut longest: usize = 0;
    let mut i: usize = 0;
    while i < rows.len()
        invariant
            i <= rows@.len(),
            forall|j: int| 0 <= j < i ==> (#[trigger] rows@[j])@.len() <= longest,
            i > 0 ==> exists|j: int| 0 <= j < i && (#[trigger] rows@[j])@.len() == longest,
            i == 0 ==> longest == 0,
        decreases rows@.len() - i,
    {
        if rows[i].len() > longest {
            longest = rows[i].len();
        } else {
        }
        proof {
            if rows@[i as int]@.len() == longest {
            }
        }
        i = i + 1;
    }
    longest
}

/// The fingerprint of a classification as a mathematical bit sequence.
pub open spec fn fp_bits(r: LatinSquareClassification) -> Seq<bool> {
    seq![
        structure_bits(r.class.structure).0,
        structure_bits(r.class.structure).1,
    ] + Seq::new(
        r.all_permutations_all_affine_automorphisms@.len(),
        |i: int| r.all_permutations_all_affine_automorphisms@[i].0,
    )
}

/// The automorphism bits of a classification as a mathematical sequence.
pub open spec fn fp_bits_no_structure(r: LatinSquareClassification) -> Seq<bool> {
    Seq::new(
        r.all_permutations_all_affine_automorphisms@.len(),
        |i: int| r.all_permutations_all_affine_automorphisms@[i].0,
    )
}

/// An independent copy of an affine automorphism record list.
fn clone_affine(a: &AllAffineAutomorphisms) -> (r: AllAffineAutomorphisms)
    ensures
        r.0 == a.0,
        r.1@ == a.1@,
{
    let mut list: Vec<(usize, usize, crate::sidedness::Sidedness)> = Vec::new();
    let mut k: usize = 0;
    while k < a.1.len()
        invariant
            k <= a.1@.len(),
            list@.len() == k,
            forall|j: int| 0 <= j < k ==> #[trigger] list@[j] == a.1@[j],
        decreases a.1@.len() - k,
    {
        list.push(a.1[k]);
        k = k + 1;
    }
    proof {
        assert(list@ =~= a.1@);
    }
    (a.0, list)
}

/// A sequence with one element inserted has that element's multiset added.
proof fn lemma_insert_to_multiset(s: Seq<LatinSquareClassification>, i: int, a: LatinSquareClassification)
    requires
        0 <= i <= s.len(),
    ensures
        s.insert(i, a).to_multiset() == s.to_multiset().insert(a),
{
    let t = s.insert(i, a);
    s.insert_ensures(i, a);
    t.to_multiset_ensures();
    s.to_multiset_ensures();
    assert(t.remove(i) =~= s);
    assert(t[i] == a);
    assert(t.remove(i).to_multiset() =~= t.to_multiset().remove(a));
    assert(t.contains(a));
    assert(t.to_multiset().count(a) > 0);
    assert(t.to_multiset() =~= s.to_multiset().insert(a));
}

/// The position where a key slots into a sorted list: everything before
/// compares at most equal, everything after strictly greater.
fn find_insert_pos(
    sorted: &Vec<LatinSquareClassification>,
    key: &Bits,
    no_structure: bool,
) -> (pos: usize)
    requires
        forall|j: int|
            0 <= j < sorted@.len() ==> key_of(#[trigger] sorted@[j], no_structure).len()
                == key@.len(),
        forall|j1: int, j2: int|
            0 <= j1 < j2 < sorted@.len() ==> bits_cmp(
                key_of(#[trigger] sorted@[j1], no_structure),
                key_of(#[trigger] sorted@[j2], no_structure),
            ) <= 0,
    ensures
        pos <= sorted@.len(),
        forall|j: int|
            0 <= j < pos ==> bits_cmp(key_of(#[trigger] sorted@[j], no_structure), key@) <= 0,
        forall|j: int|
            pos <= j < sorted@.len() ==> bits_cmp(
                key@,
                key_of(#[trigger] sorted@[j], no_structure),
            ) < 0,
{
    let mut pos: usize = sorted.len();
    while pos > 0
        invariant
            pos <= sorted@.len(),
            forall|j: int|
                0 <= j < sorted@.len() ==> key_of(#[trigger] sorted@[j], no_structure).len()
                    == key@.len(),
            forall|j1: int, j2: int|
                0 <= j1 < j2 < sorted@.len() ==> bits_cmp(
                    key_of(#[trigger] sorted@[j1], no_structure),
                    key_of(#[trigger] sorted@[j2], no_structure),
                ) <= 0,
            forall|j: int|
                pos <= j < sorted@.len() ==> bits_cmp(
                    key@,
                    key_of(#[trigger] sorted@[j], no_structure),
                ) < 0,
        decreases pos,
    {
        let other = classification_key(&sorted[pos - 1], no_structure);
        if !key.lt(&other) {
            proof {
                lemma_bits_cmp_antisym(key@, other@, key@.len() as int);
                assert forall|j: int| 0 <= j < pos implies bits_cmp(
                    key_of(#[trigger] sorted@[j], no_structure),
                    key@,
                ) <= 0 by {
                    if j < pos - 1 {
                        lemma_bits_cmp_trans(
                            key_of(sorted@[j], no_structure),
                            key_of(sorted@[pos - 1], no_structure),
                            key@,
                            key@.len() as int,
                        );
                    }
                }
            }
            return pos;
        }
        proof {
            lemma_bits_cmp_antisym(key@, other@, key@.len() as int);
        }
        pos = pos - 1;
    }
    pos
}

/// Sorts classifications by a fingerprint key, by insertion.  The key is
/// chosen by `no_structure`: the full fingerprint or the automorphism bits
/// alone.
fn sort_by_key(rows: Vec<LatinSquareClassification>, no_structure: bool) -> (sorted: Vec<
    LatinSquareClassification,
>)
    requires
        forall|j1: int, j2: int|
            0 <= j1 < rows@.len() && 0 <= j2 < rows@.len()
                ==> (#[trigger] rows@[j1]).all_permutations_all_affine_automorphisms@.len()
                == (#[trigger] rows@[j2]).all_permutations_all_affine_automorphisms@.len(),
    ensures
        sorted@.to_multiset() == rows@.to_multiset(),
        sorted@.len() == rows@.len(),
        forall|j1: int, j2: int|
            0 <= j1 < j2 < sorted@.len() ==> bits_cmp(
                key_of(#[trigger] sorted@[j1], no_structure),
                key_of(#[trigger] sorted@[j2], no_structure),
            ) <= 0,
        forall|j1: int, j2: int|
            0 <= j1 < sorted@.len() && 0 <= j2 < sorted@.len()
                ==> (#[trigger] sorted@[j1]).all_permutations_all_affine_automorphisms@.len()
                == (#[trigger] sorted@[j2]).all_permutations_all_affine_automorphisms@.len(),
{
    let ghost rows0 = rows@;
    let ghost clen: int = if rows0.len() > 0 {
        rows0[0].all_permutations_all_affine_automorphisms@.len() as int
    } else {
        0
    };
    let mut rows = rows;
    let mut sorted: Vec<LatinSquareClassification> = Vec::new();

    proof {
        sorted@.to_multiset_ensures();
        assert(sorted@.to_multiset() =~= Multiset::<LatinSquareClassification>::empty());
        assert(sorted@.to_multiset().add(rows@.to_multiset()) =~= rows0.to_multiset());
    }

    while rows.len() > 0
        invariant
            sorted@.to_multiset().add(rows@.to_multiset()) == rows0.to_multiset(),
            sorted@.len() + rows@.len() == rows0.len(),
            forall|j: int|
                0 <= j < rows@.len()
                    ==> (#[trigger] rows@[j]).all_permutations_all_affine_automorphisms@.len()
                    == clen,
            forall|j: int|
                0 <= j < sorted@.len()
                    ==> (#[trigger] sorted@[j]).all_permutations_all_affine_automorphisms@.len()
                    == clen,
            forall|j1: int, j2: int|
                0 <= j1 < j2 < sorted@.len() ==> bits_cmp(
                    key_of(#[trigger] sorted@[j1], no_structure),
                    key_of(#[trigger] sorted@[j2], no_structure),
                ) <= 0,
        decreases rows@.len(),
    {
        let ghost rows_before = rows@;
        let next = rows.remove(rows.len() - 1);
        proof {
            rows_before.to_multiset_ensures();
            assert(rows@.to_multiset() =~= rows_before.to_multiset().remove(next));
            assert(rows_before.contains(next));
            assert(rows_before.to_multiset().count(next) > 0);
        }
        let key = classification_key(&next, no_structure);
        proof {
            assert forall|j: int| 0 <= j < sorted@.len() implies key_of(
                #[trigger] sorted@[j],
                no_structure,
            ).len() == key@.len() by {}
        }
        let pos = find_insert_pos(&sorted, &key, no_structure);
        let ghost before_ins = sorted@;
        sorted.insert(pos, next);
        proof {
            lemma_insert_to_multiset(before_ins, pos as int, next);
            assert(sorted@.to_multiset().add(rows@.to_multiset()) =~= rows0.to_multiset()) by {
                assert(sorted@.to_multiset() == before_ins.to_multiset().insert(next));
                assert(rows@.to_multiset() == rows_before.to_multiset().remove(next));
                let lhs = before_ins.to_multiset().insert(next).add(
                    rows_before.to_multiset().remove(next),
                );
                let rhs = before_ins.to_multiset().add(rows_before.to_multiset());
                assert(lhs =~= rhs);
            }
            before_ins.insert_ensures(pos as int, next);
            assert forall|j: int|
                0 <= j < sorted@.len() implies (#[trigger] sorted@[j]).all_permutations_all_affine_automorphisms@.len()
                == clen by {
                if j < pos {
                    assert(sorted@[j] == before_ins[j]);
                } else if j == pos {
                } else {
                    assert(sorted@[j] == before_ins[j - 1]);
                }
            }
            assert forall|j1: int, j2: int|
                0 <= j1 < j2 < sorted@.len() implies bits_cmp(
                key_of(#[trigger] sorted@[j1], no_structure),
                key_of(#[trigger] sorted@[j2], no_structure),
            ) <= 0 by {
                lemma_bits_cmp_antisym(
                    key@,
                    key_of(sorted@[j2], no_structure),
                    key@.len() as int,
                );
                if j1 < pos && j2 == pos {
                    assert(sorted@[j1] == before_ins[j1]);
                } else if j1 == pos && j2 > pos {
                    assert(sorted@[j2] == before_ins[j2 - 1]);
                } else if j1 < pos && j2 > pos {
                    assert(sorted@[j1] == before_ins[j1]);
                    assert(sorted@[j2] == before_ins[j2 - 1]);
                } else if j1 > pos {
                    assert(sorted@[j1] == before_ins[j1 - 1]);
                    assert(sorted@[j2] == before_ins[j2 - 1]);
                } else {
                }
            }
        }
    }
    proof {
        rows@.to_multiset_ensures();
        assert(rows@.to_multiset() =~= Multiset::<LatinSquareClassification>::empty());
        assert(sorted@.to_multiset() =~= sorted@.to_multiset().add(rows@.to_multiset()));
    }
    sorted
}

/// The sort key of a classification.
pub open spec fn key_of(r: LatinSquareClassification, no_structure: bool) -> Seq<bool> {
    if no_structure {
        fp_bits_no_structure(r)
    } else {
        fp_bits(r)
    }
}

/// The key of a classification, computed.
fn classification_key(r: &LatinSquareClassification, no_structure: bool) -> (key: Bits)
    ensures
        key@ == key_of(*r, no_structure),
{
    if no_structure {
        let key = r.fingerprint_no_structure();
        proof {
            assert(key@ =~= fp_bits_no_structure(*r));
        }
        key
    } else {
        let key = r.fingerprint();
        proof {
            assert(key@ =~= fp_bits(*r));
        }
        key
    }
}

// ---------------------------------------------------------------------------
// Cell predicates, for the contracts of the table builders.
// ---------------------------------------------------------------------------

pub open spec fn is_empty_cell(c: SquareInformation) -> bool {
    match c {
        SquareInformation::Empty => true,
        _ => false,
    }
}

pub open spec fn is_perm_cell(c: SquareInformation, q: Seq<usize>) -> bool {
    match c {
        SquareInformation::Permutation(p) => p@ == q,
        _ => false,
    }
}

pub open spec fn is_perm_index_cell(c: SquareInformation, i: int) -> bool {
    match c {
        SquareInformation::PermutationIndex(k) => k as int == i,
        _ => false,
    }
}

pub open spec fn is_square_cell(c: SquareInformation, g: Seq<Seq<usize>>) -> bool {
    match c {
        SquareInformation::LatinSquare(s) => s@ == g,
        _ => false,
    }
}

pub open spec fn is_square_index_cell(c: SquareInformation, i: int) -> bool {
    match c {
        SquareInformation::LatinSquareIndex(k) => k as int == i,
        _ => false,
    }
}

pub open spec fn is_class_cell(c: SquareInformation, ty: LatinType) -> bool {
    match c {
        SquareInformation::Class(t) => t == ty,
        _ => false,
    }
}

pub open spec fn is_affine_cell(c: SquareInformation, a: AllAffineAutomorphisms) -> bool {
    match c {
        SquareInformation::AllAffineAutomorphisms(x) => x.0 == a.0 && x.1@ == a.1@,
        _ => false,
    }
}

pub open spec fn is_fingerprint_index_cell(c: SquareInformation, i: int) -> bool {
    match c {
        SquareInformation::FingerprintIndex(k) => k as int == i,
        _ => false,
    }
}

pub open spec fn is_sums_cell(c: SquareInformation, aut: int, aff: int) -> bool {
    match c {
        SquareInformation::AutomorphismAndAffineSums(s) => s.0 as int == aut && s.1 as int == aff,
        _ => false,
    }
}

pub open spec fn is_label_cell(c: SquareInformation, s: Seq<char>) -> bool {
    match c {
        SquareInformation::Text(t) => t@ == s,
        _ => false,
    }
}

/// One data row of the complete table renders one classification: the
/// square, its index, its class, then its affine automorphism records.
pub open spec fn renders_classification(
    tr: Seq<SquareInformation>,
    rc: LatinSquareClassification,
    nperms: int,
) -> bool {
    &&& tr.len() == 3 + nperms
    &&& is_square_cell(tr[0], rc.square@)
    &&& is_square_index_cell(tr[1], rc.index as int)
    &&& is_class_cell(tr[2], rc.class)
    &&& (forall|k: int|
        0 <= k < nperms ==> is_affine_cell(
            #[trigger] tr[3 + k],
            rc.all_permutations_all_affine_automorphisms@[k],
        ))
}

/// The shape of the complete table: two header rows of permutations and
/// their indices, then one row per classification, sorted by fingerprint.
pub open spec fn complete_table_shape(
    t: Seq<Vec<SquareInformation>>,
    sorted: Seq<LatinSquareClassification>,
    rows: Seq<LatinSquareClassification>,
    perms: Seq<Permutation>,
) -> bool {
    &&& sorted.to_multiset() == rows.to_multiset()
    &&& sorted.len() == rows.len()
    &&& (forall|j1: int, j2: int|
        0 <= j1 < j2 < sorted.len() ==> bits_cmp(
            fp_bits(#[trigger] sorted[j1]),
            fp_bits(#[trigger] sorted[j2]),
        ) <= 0)
    &&& t.len() == 2 + sorted.len()
    &&& t[0]@.len() == 3 + perms.len()
    &&& t[1]@.len() == 3 + perms.len()
    &&& (forall|c: int| 0 <= c < 3 ==> is_empty_cell(#[trigger] t[0]@[c]))
    &&& (forall|c: int| 0 <= c < 3 ==> is_empty_cell(#[trigger] t[1]@[c]))
    &&& (forall|k: int| 0 <= k < perms.len() ==> is_perm_cell(#[trigger] t[0]@[3 + k], perms[k]@))
    &&& (forall|k: int| 0 <= k < perms.len() ==> is_perm_index_cell(#[trigger] t[1]@[3 + k], k))
    &&& (forall|j: int|
        0 <= j < sorted.len() ==> renders_classification(
            (#[trigger] t[2 + j])@,
            sorted[j],
            perms.len() as int,
        ))
}

/// The two header rows shared by the report tables: the permutations, and
/// their indices, after `lead` empty cells.
fn push_header_rows(
    table: &mut Vec<Vec<SquareInformation>>,
    perms: &Vec<Permutation>,
    lead: usize,
)
    requires
        old(table)@.len() == 0,
    ensures
        final(table)@.len() == 2,
        final(table)@[0]@.len() == lead + perms@.len(),
        final(table)@[1]@.len() == lead + perms@.len(),
        forall|c: int| 0 <= c < lead ==> is_empty_cell(#[trigger] final(table)@[0]@[c]),
        forall|c: int| 0 <= c < lead ==> is_empty_cell(#[trigger] final(table)@[1]@[c]),
        forall|k: int|
            0 <= k < perms@.len() ==> is_perm_cell(
                #[trigger] final(table)@[0]@[lead + k],
                perms@[k]@,
            ),
        forall|k: int|
            0 <= k < perms@.len() ==> is_perm_index_cell(#[trigger] final(table)@[1]@[lead + k], k),
{
    let mut row0: Vec<SquareInformation> = Vec::new();
    let mut row1: Vec<SquareInformation> = Vec::new();
    let mut c: usize = 0;
    while c < lead
        invariant
            c <= lead,
            row0@.len() == c,
            row1@.len() == c,
            forall|q: int| 0 <= q < c ==> is_empty_cell(#[trigger] row0@[q]),
            forall|q: int| 0 <= q < c ==> is_empty_cell(#[trigger] row1@[q]),
        decreases lead - c,
    {
        row0.push(SquareInformation::Empty);
        row1.push(SquareInformation::Empty);
        c = c + 1;
    }
    let mut k: usize = 0;
    while k < perms.len()
        invariant
            k <= perms@.len(),
            row0@.len() == lead + k,
            row1@.len() == lead + k,
            forall|q: int| 0 <= q < lead ==> is_empty_cell(#[trigger] row0@[q]),
            forall|q: int| 0 <= q < lead ==> is_empty_cell(#[trigger] row1@[q]),
            forall|q: int|
                0 <= q < k ==> is_perm_cell(#[trigger] row0@[lead + q], perms@[q]@),
            forall|q: int| 0 <= q < k ==> is_perm_index_cell(#[trigger] row1@[lead + q], q),
        decreases perms@.len() - k,
    {
        row0.push(SquareInformation::Permutation(Permutation(clone_row(&perms[k].0))));
        row1.push(SquareInformation::PermutationIndex(k));
        k = k + 1;
    }
    table.push(row0);
    table.push(row1);
}

/// Turns the classifications into the complete report table: the
/// permutations and their indices on two header rows, then one row per
/// classification — square, index, class, and the affine automorphism
/// records landing on each permutation — sorted by fingerprint.
pub fn create_complete_table(rows: Vec<LatinSquareClassification>, perms: &Vec<Permutation>) -> (result: Table<SquareInformation>)
    requires
        forall|j: int|
            0 <= j < rows@.len()
                ==> (#[trigger] rows@[j]).all_permutations_all_affine_automorphisms@.len()
                == perms@.len(),
    ensures
        exists|sorted: Seq<LatinSquareClassification>|
            #[trigger] complete_table_shape(result.table@, sorted, rows@, perms@),
{
    let ghost rows0 = rows@;
    let sorted = sort_by_key(rows, false);
    let ghost sorted_view = sorted@;

    proof {
        sorted_view.to_multiset_ensures();
        rows0.to_multiset_ensures();
        assert forall|q: int|
            0 <= q < sorted_view.len() implies (#[trigger] sorted_view[q]).all_permutations_all_affine_automorphisms@.len()
            == perms@.len() by {
            assert(sorted_view.contains(sorted_view[q]));
            assert(sorted_view.to_multiset().count(sorted_view[q]) > 0);
            assert(rows0.to_multiset().count(sorted_view[q]) > 0);
            assert(rows0.contains(sorted_view[q]));
            let w = choose|w: int| 0 <= w < rows0.len() && rows0[w] == sorted_view[q];
        }
    }
    let mut table: Vec<Vec<SquareInformation>> = Vec::new();
    push_header_rows(&mut table, perms, 3);

    let mut j: usize = 0;
    while j < sorted.len()
        invariant
            sorted@ == sorted_view,
            forall|q: int|
                0 <= q < sorted_view.len()
                    ==> (#[trigger] sorted_view[q]).all_permutations_all_affine_automorphisms@.len()
                    == perms@.len(),
            j <= sorted_view.len(),
            table@.len() == 2 + j,
            table@[0]@.len() == 3 + perms@.len(),
            table@[1]@.len() == 3 + perms@.len(),
            forall|c: int| 0 <= c < 3 ==> is_empty_cell(#[trigger] table@[0]@[c]),
            forall|c: int| 0 <= c < 3 ==> is_empty_cell(#[trigger] table@[1]@[c]),
            forall|k: int|
                0 <= k < perms@.len() ==> is_perm_cell(#[trigger] table@[0]@[3 + k], perms@[k]@),
            forall|k: int|
                0 <= k < perms@.len() ==> is_perm_index_cell(#[trigger] table@[1]@[3 + k], k),
            forall|q: int|
                0 <= q < j ==> renders_classification(
                    (#[trigger] table@[2 + q])@,
                    sorted_view[q],
                    perms@.len() as int,
                ),
        decreases sorted_view.len() - j,
    {
        let s = &sorted[j];
        let mut tr: Vec<SquareInformation> = Vec::new();
        let sq = LatinSquare(clone_grid(&s.square.0));
        proof {
            assert(sq@ =~= s.square@);
        }
        tr.push(SquareInformation::LatinSquare(sq));
        tr.push(SquareInformation::LatinSquareIndex(s.index));
        tr.push(SquareInformation::Class(s.class));
        proof {
            assert(is_square_cell(tr@[0], s.square@));
            assert(is_square_index_cell(tr@[1], s.index as int));
            assert(is_class_cell(tr@[2], s.class));
        }
        let mut k: usize = 0;
        while k < s.all_permutations_all_affine_automorphisms.len()
            invariant
                s == &sorted_view[j as int],
                j < sorted_view.len(),
                k <= s.all_permutations_all_affine_automorphisms@.len(),
                tr@.len() == 3 + k,
                is_square_cell(tr@[0], s.square@),
                is_square_index_cell(tr@[1], s.index as int),
                is_class_cell(tr@[2], s.class),
                forall|q: int|
                    0 <= q < k ==> is_affine_cell(
                        #[trigger] tr@[3 + q],
                        s.all_permutations_all_affine_automorphisms@[q],
                    ),
            decreases s.all_permutations_all_affine_automorphisms@.len() - k,
        {
            tr.push(
                SquareInformation::AllAffineAutomorphisms(
                    clone_affine(&s.all_permutations_all_affine_automorphisms[k]),
                ),
            );
            k = k + 1;
        }
        proof {
            assert(tr@.len() == 3 + perms@.len());
        }
        table.push(tr);
        j = j + 1;
    }

    let result = Table { table };
    proof {
        assert(complete_table_shape(result.table@, sorted_view, rows0, perms@));
    }
    result
}

// ---------------------------------------------------------------------------
// The summary table: one row per fingerprint group, with per-permutation
// counts of automorphisms and affine automorphisms.
// ---------------------------------------------------------------------------

/// How many of the classifications in [lo, hi) flag permutation k as an
/// automorphism.
pub open spec fn count_aut(s: Seq<LatinSquareClassification>, lo: int, hi: int, k: int) -> int
    decreases hi - lo,
{
    if lo >= hi {
        0
    } else {
        count_aut(s, lo, hi - 1, k) + (if s[hi - 1].all_permutations_all_affine_automorphisms@[k].0 {
            1int
        } else {
            0int
        })
    }
}

/// How many of the classifications in [lo, hi) record an affine
/// automorphism on permutation k.
pub open spec fn count_aff(s: Seq<LatinSquareClassification>, lo: int, hi: int, k: int) -> int
    decreases hi - lo,
{
    if lo >= hi {
        0
    } else {
        count_aff(s, lo, hi - 1, k) + (
        if s[hi - 1].all_permutations_all_affine_automorphisms@[k].1@.len() > 0 {
            1int
        } else {
            0int
        })
    }
}

proof fn lemma_count_bounds(s: Seq<LatinSquareClassification>, lo: int, hi: int, k: int)
    requires
        lo <= hi,
    ensures
        0 <= count_aut(s, lo, hi, k) <= hi - lo,
        0 <= count_aff(s, lo, hi, k) <= hi - lo,
    decreases hi - lo,
{
    if lo < hi {
        lemma_count_bounds(s, lo, hi - 1, k);
    }
}

/// The groups split the sorted list into maximal runs of one fingerprint.
pub open spec fn groups_ok(
    groups: Seq<(usize, usize)>,
    sorted: Seq<LatinSquareClassification>,
) -> bool {
    &&& groups.len() >= 1
    &&& groups[0].0 == 0
    &&& groups.last().1 == sorted.len()
    &&& (forall|g: int| 0 <= g < groups.len() ==> (#[trigger] groups[g]).0 < groups[g].1)
    &&& (forall|g: int|
        0 <= g < groups.len() - 1 ==> (#[trigger] groups[g + 1]).0 == groups[g].1)
    &&& (forall|g: int, j: int|
        0 <= g < groups.len() && (#[trigger] groups[g]).0 <= j < groups[g].1
            ==> fp_bits_no_structure(#[trigger] sorted[j]) == fp_bits_no_structure(
            sorted[groups[g].0 as int],
        ))
    &&& (forall|g: int|
        0 <= g < groups.len() - 1 ==> fp_bits_no_structure(
            sorted[(#[trigger] groups[g + 1]).0 as int],
        ) != fp_bits_no_structure(sorted[groups[g].0 as int]))
}

/// The shape of the summary table: the permutation header rows, one counts
/// row per fingerprint group, and the two closing sum rows — all groups but
/// the first, then all groups.
pub open spec fn summary_table_shape(
    t: Seq<Vec<SquareInformation>>,
    sorted: Seq<LatinSquareClassification>,
    groups: Seq<(usize, usize)>,
    rows: Seq<LatinSquareClassification>,
    perms: Seq<Permutation>,
) -> bool {
    &&& sorted.to_multiset() == rows.to_multiset()
    &&& sorted.len() == rows.len()
    &&& (forall|j1: int, j2: int|
        0 <= j1 < j2 < sorted.len() ==> bits_cmp(
            fp_bits_no_structure(#[trigger] sorted[j1]),
            fp_bits_no_structure(#[trigger] sorted[j2]),
        ) <= 0)
    &&& groups_ok(groups, sorted)
    &&& t.len() == groups.len() + 4
    &&& t[0]@.len() == 1 + perms.len()
    &&& t[1]@.len() == 1 + perms.len()
    &&& is_empty_cell(t[0]@[0])
    &&& is_empty_cell(t[1]@[0])
    &&& (forall|k: int| 0 <= k < perms.len() ==> is_perm_cell(#[trigger] t[0]@[1 + k], perms[k]@))
    &&& (forall|k: int| 0 <= k < perms.len() ==> is_perm_index_cell(#[trigger] t[1]@[1 + k], k))
    &&& (forall|g: int|
        0 <= g < groups.len() ==> (#[trigger] t[2 + g])@.len() == 1 + perms.len()
            && is_fingerprint_index_cell(t[2 + g]@[0], g))
    &&& (forall|g: int, k: int|
        0 <= g < groups.len() && 0 <= k < perms.len() ==> is_sums_cell(
            #[trigger] t[2 + g]@[1 + k],
            count_aut(sorted, groups[g].0 as int, groups[g].1 as int, k),
            count_aff(sorted, groups[g].0 as int, groups[g].1 as int, k),
        ))
    &&& t[t.len() - 2]@.len() == 1 + perms.len()
    &&& t[t.len() - 1]@.len() == 1 + perms.len()
    &&& is_label_cell(t[t.len() - 2]@[0], "Sum W/o 0"@)
    &&& is_label_cell(t[t.len() - 1]@[0], "Sum All"@)
    &&& (forall|k: int|
        0 <= k < perms.len() ==> is_sums_cell(
            #[trigger] t[t.len() - 2]@[1 + k],
            count_aut(sorted, groups[0].1 as int, sorted.len() as int, k),
            count_aff(sorted, groups[0].1 as int, sorted.len() as int, k),
        ))
    &&& (forall|k: int|
        0 <= k < perms.len() ==> is_sums_cell(
            #[trigger] t[t.len() - 1]@[1 + k],
            count_aut(sorted, 0, sorted.len() as int, k),
            count_aff(sorted, 0, sorted.len() as int, k),
        ))
}

/// The automorphism and affine automorphism counts over the rows [lo, hi),
/// one pair per permutation.
fn count_sums(
    sorted: &Vec<LatinSquareClassification>,
    lo: usize,
    hi: usize,
    nperms: usize,
) -> (sums: Vec<(usize, usize)>)
    requires
        lo <= hi <= sorted@.len(),
        forall|j: int|
            0 <= j < sorted@.len()
                ==> (#[trigger] sorted@[j]).all_permutations_all_affine_automorphisms@.len()
                == nperms,
    ensures
        sums@.len() == nperms,
        forall|k: int|
            0 <= k < nperms ==> (#[trigger] sums@[k]).0 == count_aut(
                sorted@,
                lo as int,
                hi as int,
                k,
            ) && sums@[k].1 == count_aff(sorted@, lo as int, hi as int, k),
{
    let mut sums: Vec<(usize, usize)> = Vec::new();
    let mut k: usize = 0;
    while k < nperms
        invariant
            lo <= hi <= sorted@.len(),
            forall|j: int|
                0 <= j < sorted@.len()
                    ==> (#[trigger] sorted@[j]).all_permutations_all_affine_automorphisms@.len()
                    == nperms,
            k <= nperms,
            sums@.len() == k,
            forall|q: int|
                0 <= q < k ==> (#[trigger] sums@[q]).0 == count_aut(
                    sorted@,
                    lo as int,
                    hi as int,
                    q,
                ) && sums@[q].1 == count_aff(sorted@, lo as int, hi as int, q),
        decreases nperms - k,
    {
        let mut aut: usize = 0;
        let mut aff: usize = 0;
        let mut j = lo;
        while j < hi
            invariant
                lo <= j <= hi <= sorted@.len(),
                k < nperms,
                forall|q: int|
                    0 <= q < sorted@.len()
                        ==> (#[trigger] sorted@[q]).all_permutations_all_affine_automorphisms@.len()
                        == nperms,
                aut == count_aut(sorted@, lo as int, j as int, k as int),
                aff == count_aff(sorted@, lo as int, j as int, k as int),
            decreases hi - j,
        {
            proof {
                lemma_count_bounds(sorted@, lo as int, j as int, k as int);
            }
            if sorted[j].all_permutations_all_affine_automorphisms[k].0 {
                aut = aut + 1;
            }
            if sorted[j].all_permutations_all_affine_automorphisms[k].1.len() > 0 {
                aff = aff + 1;
            }
            j = j + 1;
        }
        sums.push((aut, aff));
        k = k + 1;
    }
    sums
}

/// Turns the classifications into the summary report table: the squares
/// are sorted and grouped by their automorphism fingerprint, and each group
/// row counts, per permutation, how many of its squares flag it as an
/// automorphism and how many record an affine automorphism on it.  Two sum
/// rows close the table: all groups but the first, then all groups.
#[verifier::rlimit(30)]
pub fn create_summary_table(rows: Vec<LatinSquareClassification>, perms: &Vec<Permutation>) -> (result: Table<SquareInformation>)
    requires
        rows@.len() >= 1,
        forall|j: int|
            0 <= j < rows@.len()
                ==> (#[trigger] rows@[j]).all_permutations_all_affine_automorphisms@.len()
                == perms@.len(),
    ensures
        exists|sorted: Seq<LatinSquareClassification>, groups: Seq<(usize, usize)>|
            #[trigger] summary_table_shape(result.table@, sorted, groups, rows@, perms@),
{
    let ghost rows0 = rows@;
    let sorted = sort_by_key(rows, true);
    let ghost sv = sorted@;
    let nperms = perms.len();

    proof {
        sv.to_multiset_ensures();
        rows0.to_multiset_ensures();
        assert forall|q: int|
            0 <= q < sv.len() implies (#[trigger] sv[q]).all_permutations_all_affine_automorphisms@.len()
            == perms@.len() by {
            assert(sv.contains(sv[q]));
            assert(sv.to_multiset().count(sv[q]) > 0);
            assert(rows0.to_multiset().count(sv[q]) > 0);
            assert(rows0.contains(sv[q]));
            let w = choose|w: int| 0 <= w < rows0.len() && rows0[w] == sv[q];
        }
        assert forall|j1: int, j2: int|
            0 <= j1 < j2 < sv.len() implies bits_cmp(
            fp_bits_no_structure(#[trigger] sv[j1]),
            fp_bits_no_structure(#[trigger] sv[j2]),
        ) <= 0 by {
            assert(key_of(sv[j1], true) == fp_bits_no_structure(sv[j1]));
        }
    }

    // Split the sorted list into maximal runs of one fingerprint.
    let mut groups: Vec<(usize, usize)> = Vec::new();
    let mut group_start: usize = 0;
    let mut j: usize = 1;
    while j < sorted.len()
        invariant
            sorted@ == sv,
            sv.len() == rows0.len() >= 1,
            forall|q: int|
                0 <= q < sv.len()
                    ==> (#[trigger] sv[q]).all_permutations_all_affine_automorphisms@.len()
                    == perms@.len(),
            forall|j1: int, j2: int|
                0 <= j1 < j2 < sv.len() ==> bits_cmp(
                    fp_bits_no_structure(#[trigger] sv[j1]),
                    fp_bits_no_structure(#[trigger] sv[j2]),
                ) <= 0,
            group_start < j <= sv.len(),
            groups@.len() == 0 ==> group_start == 0,
            groups@.len() >= 1 ==> groups@[0].0 == 0 && groups@.last().1 == group_start,
            forall|g: int| 0 <= g < groups@.len() ==> (#[trigger] groups@[g]).0 < groups@[g].1,
            forall|g: int|
                0 <= g < groups@.len() - 1 ==> (#[trigger] groups@[g + 1]).0 == groups@[g].1,
            forall|g: int, q: int|
                0 <= g < groups@.len() && (#[trigger] groups@[g]).0 <= q < groups@[g].1
                    ==> fp_bits_no_structure(#[trigger] sv[q]) == fp_bits_no_structure(
                    sv[groups@[g].0 as int],
                ),
            forall|g: int|
                0 <= g < groups@.len() - 1 ==> fp_bits_no_structure(
                    sv[(#[trigger] groups@[g + 1]).0 as int],
                ) != fp_bits_no_structure(sv[groups@[g].0 as int]),
            groups@.len() >= 1 ==> fp_bits_no_structure(sv[group_start as int])
                != fp_bits_no_structure(sv[groups@.last().0 as int]),
            forall|q: int|
                group_start <= q < j ==> fp_bits_no_structure(#[trigger] sv[q])
                    == fp_bits_no_structure(sv[group_start as int]),
        decreases sv.len() - j,
    {
        let key_j = classification_key(&sorted[j], true);
        let key_prev = classification_key(&sorted[group_start], true);
        if key_j.gt(&key_prev) {
            let ghost old_groups = groups@;
            groups.push((group_start, j));
            proof {
                assert(groups@.last() == (group_start, j));
                assert(forall|g: int| 0 <= g < old_groups.len() ==> groups@[g] == old_groups[g]);
                crate::bits::lemma_bits_cmp_antisym(key_j@, key_prev@, key_j@.len() as int);
            }
            group_start = j;
        } else {
            proof {
                crate::bits::lemma_bits_cmp_antisym(key_j@, key_prev@, key_j@.len() as int);
                assert(bits_cmp(fp_bits_no_structure(sv[group_start as int]), fp_bits_no_structure(sv[j as int])) <= 0);
                lemma_bits_cmp_zero(
                    fp_bits_no_structure(sv[group_start as int]),
                    fp_bits_no_structure(sv[j as int]),
                );
            }
        }
        j = j + 1;
    }
    let ghost old_groups = groups@;
    groups.push((group_start, sorted.len()));
    proof {
        assert(groups@.last() == (group_start, sorted.len() as usize));
        assert(forall|g: int| 0 <= g < old_groups.len() ==> groups@[g] == old_groups[g]);
        assert(groups_ok(groups@, sv));
    }
    let ghost gv = groups@;

    // Assemble the table.
    let mut table: Vec<Vec<SquareInformation>> = Vec::new();
    push_header_rows(&mut table, perms, 1);

    let mut g: usize = 0;
    while g < groups.len()
        invariant
            sorted@ == sv,
            groups@ == gv,
            groups_ok(gv, sv),
            forall|q: int|
                0 <= q < sv.len()
                    ==> (#[trigger] sv[q]).all_permutations_all_affine_automorphisms@.len()
                    == perms@.len(),
            nperms == perms@.len(),
            g <= gv.len(),
            table@.len() == 2 + g,
            table@[0]@.len() == 1 + perms@.len(),
            table@[1]@.len() == 1 + perms@.len(),
            is_empty_cell(table@[0]@[0]),
            is_empty_cell(table@[1]@[0]),
            forall|k: int|
                0 <= k < perms@.len() ==> is_perm_cell(#[trigger] table@[0]@[1 + k], perms@[k]@),
            forall|k: int|
                0 <= k < perms@.len() ==> is_perm_index_cell(#[trigger] table@[1]@[1 + k], k),
            forall|q: int|
                0 <= q < g ==> (#[trigger] table@[2 + q])@.len() == 1 + perms@.len()
                    && is_fingerprint_index_cell(table@[2 + q]@[0], q),
            forall|q: int, k: int|
                0 <= q < g && 0 <= k < perms@.len() ==> is_sums_cell(
                    #[trigger] table@[2 + q]@[1 + k],
                    count_aut(sv, gv[q].0 as int, gv[q].1 as int, k),
                    count_aff(sv, gv[q].0 as int, gv[q].1 as int, k),
                ),
        decreases gv.len() - g,
    {
        let (lo, hi) = groups[g];
        proof {
            assert(gv[g as int].0 == lo && gv[g as int].1 == hi);
            assert(gv.last().1 == sv.len());
            assert(hi <= sv.len()) by {
                if (g as int) < gv.len() - 1 {
                    lemma_group_ends_bounded(gv, sv, g as int);
                }
            }
        }
        let sums = count_sums(&sorted, lo, hi, nperms);
        let mut tr: Vec<SquareInformation> = Vec::new();
        tr.push(SquareInformation::FingerprintIndex(g));
        let mut k: usize = 0;
        while k < nperms
            invariant
                k <= nperms,
                tr@.len() == 1 + k,
                is_fingerprint_index_cell(tr@[0], g as int),
                sums@.len() == nperms,
                forall|q: int|
                    0 <= q < nperms ==> (#[trigger] sums@[q]).0 == count_aut(
                        sv,
                        gv[g as int].0 as int,
                        gv[g as int].1 as int,
                        q,
                    ) && sums@[q].1 == count_aff(sv, gv[g as int].0 as int, gv[g as int].1 as int, q),
                forall|q: int|
                    0 <= q < k ==> is_sums_cell(
                        #[trigger] tr@[1 + q],
                        count_aut(sv, gv[g as int].0 as int, gv[g as int].1 as int, q),
                        count_aff(sv, gv[g as int].0 as int, gv[g as int].1 as int, q),
                    ),
            decreases nperms - k,
        {
            tr.push(SquareInformation::AutomorphismAndAffineSums(sums[k]));
            k = k + 1;
        }
        table.push(tr);
        g = g + 1;
    }

    // The two closing sum rows: all groups but the first, then all groups.
    let first_end = groups[0].1;
    let sums_wo0 = count_sums(&sorted, first_end, sorted.len(), nperms);
    let sums_all = count_sums(&sorted, 0, sorted.len(), nperms);
    let mut row_wo0: Vec<SquareInformation> = Vec::new();
    let label_wo0 = "Sum W/o 0".to_string();
    let label_all = "Sum All".to_string();
    proof {
        broadcast use vstd::string::to_string_from_display_ensures_for_str;

        assert(label_wo0@ == "Sum W/o 0"@);
        assert(label_all@ == "Sum All"@);
    }
    row_wo0.push(SquareInformation::Text(label_wo0));
    let mut row_all: Vec<SquareInformation> = Vec::new();
    row_all.push(SquareInformation::Text(label_all));
    let mut k: usize = 0;
    while k < nperms
        invariant
            k <= nperms,
            nperms == perms@.len(),
            row_wo0@.len() == 1 + k,
            row_all@.len() == 1 + k,
            is_label_cell(row_wo0@[0], "Sum W/o 0"@),
            is_label_cell(row_all@[0], "Sum All"@),
            sums_wo0@.len() == nperms,
            sums_all@.len() == nperms,
            first_end == gv[0].1,
            forall|q: int|
                0 <= q < nperms ==> (#[trigger] sums_wo0@[q]).0 == count_aut(
                    sv,
                    gv[0].1 as int,
                    sv.len() as int,
                    q,
                ) && sums_wo0@[q].1 == count_aff(sv, gv[0].1 as int, sv.len() as int, q),
            forall|q: int|
                0 <= q < nperms ==> (#[trigger] sums_all@[q]).0 == count_aut(
                    sv,
                    0,
                    sv.len() as int,
                    q,
                ) && sums_all@[q].1 == count_aff(sv, 0, sv.len() as int, q),
            forall|q: int|
                0 <= q < k ==> is_sums_cell(
                    #[trigger] row_wo0@[1 + q],
                    count_aut(sv, gv[0].1 as int, sv.len() as int, q),
                    count_aff(sv, gv[0].1 as int, sv.len() as int, q),
                ),
            forall|q: int|
                0 <= q < k ==> is_sums_cell(
                    #[trigger] row_all@[1 + q],
                    count_aut(sv, 0, sv.len() as int, q),
                    count_aff(sv, 0, sv.len() as int, q),
                ),
        decreases nperms - k,
    {
        row_wo0.push(SquareInformation::AutomorphismAndAffineSums(sums_wo0[k]));
        row_all.push(SquareInformation::AutomorphismAndAffineSums(sums_all[k]));
        k = k + 1;
    }
    table.push(row_wo0);
    table.push(row_all);

    let result = Table { table };
    proof {
        assert(summary_table_shape(result.table@, sv, gv, rows0, perms@));
    }
    result
}

/// A comparison of zero between equally long keys means equality.
proof fn lemma_bits_cmp_zero(a: Seq<bool>, b: Seq<bool>)
    requires
        a.len() == b.len(),
        bits_cmp(a, b) == 0,
    ensures
        a == b,
{
    lemma_bits_cmp_zero_upto(a, b, a.len() as int);
    assert(a =~= b);
}

proof fn lemma_bits_cmp_zero_upto(a: Seq<bool>, b: Seq<bool>, k: int)
    requires
        crate::bits::bits_cmp_upto(a, b, k) == 0,
    ensures
        forall|i: int| 0 <= i < k ==> a[i] == b[i],
    decreases k,
{
    if k > 0 {
        lemma_bits_cmp_zero_upto(a, b, k - 1);
    }
}

/// Every group but the last ends where the next begins, so below the end of
/// the list.
proof fn lemma_group_ends_bounded(gv: Seq<(usize, usize)>, sv: Seq<LatinSquareClassification>, g: int)
    requires
        groups_ok(gv, sv),
        0 <= g < gv.len() - 1,
    ensures
        gv[g].1 <= sv.len(),
    decreases gv.len() - g,
{
    if g == gv.len() - 2 {
        assert(gv[g + 1].0 == gv[g].1);
        assert(gv[g + 1].1 == sv.len());
    } else {
        lemma_group_ends_bounded(gv, sv, g + 1);
        assert(gv[g + 1].0 == gv[g].1);
    }
}

} // verus!
