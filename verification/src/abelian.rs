use vstd::prelude::*;
use crate::latin_square::cell_before;
use crate::latin_square::clone_grid;
use crate::latin_square::grid_extends;
use crate::latin_square::grid_lex_lt;
use crate::latin_square::grid_of;
use crate::latin_square::lemma_grid_lex_asym;
use crate::latin_square::lemma_grid_lex_branch;
use crate::permutation::clone_row;
use crate::permutation::contains_val;
use crate::permutation::identity_perm;
use crate::permutation::is_permutation;
use crate::permutation::lemma_compose_is_permutation;
use crate::permutation::lemma_identity_perm;
use crate::permutation::lemma_perm_inv;
use crate::permutation::lemma_permutation_surjective;
use crate::permutation::lemma_right_inverse_unique;
use crate::permutation::lemma_transposition_is_permutation;
use crate::permutation::perm_inv;
use crate::permutation::spec_compose;
use crate::permutation::transposition;

verus! {

// ---------------------------------------------------------------------------
// Specification: tables in compressed symmetric (upper triangular) storage.
//
// Row a of the storage holds the values a*a, a*(a+1), .., a*(n-1).  The value
// of a*b with b < a is read at b*a: the layout is only used for commutative
// operations.
// ---------------------------------------------------------------------------

/// The value of a*b in a table with every needed cell present.
pub open spec fn tri_at(t: Seq<Seq<usize>>, a: int, b: int) -> usize {
    if b >= a {
        t[a][b - a]
    } else {
        t[b][a - b]
    }
}

/// The value of a*b in a partial table: None while the cell is unfilled.
pub open spec fn tri_get(t: Seq<Seq<usize>>, a: int, b: int) -> Option<usize> {
    if b > a {
        if a < t.len() && b - a < t[a].len() {
            Option::Some(t[a][b - a])
        } else {
            Option::None
        }
    } else {
        if b < t.len() && a - b < t[b].len() {
            Option::Some(t[b][a - b])
        } else {
            Option::None
        }
    }
}

/// A prefix of a triangular table: every row before the last is full, rows
/// shrink by one cell each, and entries stay below n.
pub open spec fn tri_partial_wf(p: Seq<Seq<usize>>, n: int) -> bool {
    &&& 1 <= p.len() <= n
    &&& forall|i: int| 0 <= i < p.len() - 1 ==> #[trigger] p[i].len() == n - i
    &&& 1 <= p.last().len() <= n - (p.len() - 1)
    &&& forall|i: int, j: int| 0 <= i < p.len() && 0 <= j < p[i].len() ==> #[trigger] p[i][j] < n
}

/// A complete triangular table of order n.
pub open spec fn tri_complete(t: Seq<Seq<usize>>, n: int) -> bool {
    &&& n >= 1
    &&& t.len() == n
    &&& forall|i: int| 0 <= i < n ==> #[trigger] t[i].len() == n - i
    &&& forall|i: int, j: int| 0 <= i < t.len() && 0 <= j < t[i].len() ==> #[trigger] t[i][j] < n
}

/// The Latin ("sudoku") condition on the filled cells: reading the stored
/// symmetric table in full, no row repeats a value.  By symmetry the same
/// holds for columns.
pub open spec fn tri_sudoku(t: Seq<Seq<usize>>, n: int) -> bool {
    forall|a: int, y1: int, y2: int|
        0 <= a < n && 0 <= y1 < y2 < n && #[trigger] tri_get(t, a, y1) is Some && #[trigger] tri_get(
            t,
            a,
            y2,
        ) is Some ==> tri_get(t, a, y1) != tri_get(t, a, y2)
}

/// The triplet (a, b, c) respects associativity: a*(b*c) == (a*b)*c.
pub open spec fn tri_assoc_at(t: Seq<Seq<usize>>, a: int, b: int, c: int) -> bool {
    tri_at(t, tri_at(t, a, b) as int, c) == tri_at(t, a, tri_at(t, b, c) as int)
}

/// Membership in the obligation list: a <= b <= c with a != c, a below n-1,
/// and a starting from 1 when the identity is fixed at 0.
pub open spec fn obligation(n: int, zero_identity: bool, a: int, b: int, c: int) -> bool {
    &&& (if zero_identity { 1int } else { 0int }) <= a
    &&& a < n - 1
    &&& a <= b <= c < n
    &&& a != c
}

/// Every obligation of the list holds in the table.
pub open spec fn tri_list_sat(t: Seq<Seq<usize>>, n: int, zero_identity: bool) -> bool {
    forall|a: int, b: int, c: int|
        obligation(n, zero_identity, a, b, c) ==> #[trigger] tri_assoc_at(t, a, b, c)
}

/// Membership of a triangular table value in a list of tables.
pub open spec fn tables_contain(rs: Seq<Vec<Vec<usize>>>, g: Seq<Seq<usize>>) -> bool {
    exists|k: int| 0 <= k < rs.len() && grid_of(rs[k]@) == g
}

/// No two tables of the list hold the same value.
pub open spec fn tables_distinct(rs: Seq<Vec<Vec<usize>>>) -> bool {
    forall|k1: int, k2: int| 0 <= k1 < k2 < rs.len() ==> grid_of(rs[k1]@) != grid_of(rs[k2]@)
}

/// The tables of the list are in strictly increasing row-major
/// lexicographic order of their stored rows.
pub open spec fn tables_lex_sorted(rs: Seq<Vec<Vec<usize>>>) -> bool {
    forall|k1: int, k2: int|
        0 <= k1 < k2 < rs.len() ==> grid_lex_lt(
            grid_of(#[trigger] rs[k1]@),
            grid_of(#[trigger] rs[k2]@),
        )
}

/// Two strictly sorted lists of complete tables holding the same tables are
/// pointwise the same list.
pub proof fn lemma_tri_sorted_lists_equal(
    xs: Seq<Vec<Vec<usize>>>,
    ys: Seq<Vec<Vec<usize>>>,
    n: int,
)
    requires
        forall|k: int| 0 <= k < xs.len() ==> tri_complete(grid_of(#[trigger] xs[k]@), n),
        forall|k: int| 0 <= k < ys.len() ==> tri_complete(grid_of(#[trigger] ys[k]@), n),
        tables_lex_sorted(xs),
        tables_lex_sorted(ys),
        forall|gg: Seq<Seq<usize>>|
            #[trigger] tables_contain(xs, gg) <==> #[trigger] tables_contain(ys, gg),
    ensures
        xs.len() == ys.len(),
        forall|k: int| 0 <= k < xs.len() ==> grid_of(#[trigger] xs[k]@) == grid_of(ys[k]@),
    decreases xs.len(),
{
    if xs.len() == 0 {
        if ys.len() > 0 {
            assert(tables_contain(ys, grid_of(ys[0]@)));
            assert(tables_contain(xs, grid_of(ys[0]@)));
            assert(false);
        }
    } else {
        if ys.len() == 0 {
            assert(tables_contain(xs, grid_of(xs[0]@)));
            assert(tables_contain(ys, grid_of(xs[0]@)));
            assert(false);
        }
        assert forall|g1: Seq<Seq<usize>>, g2: Seq<Seq<usize>>|
            tri_complete(g1, n) && tri_complete(g2, n) && #[trigger] grid_lex_lt(g1, g2) implies
            !grid_lex_lt(g2, g1) && g1 != g2 by {
            lemma_grid_lex_asym(g1, g2);
        }
        // The heads agree.
        assert(grid_of(xs[0]@) == grid_of(ys[0]@)) by {
            assert(tables_contain(xs, grid_of(xs[0]@)));
            assert(tables_contain(ys, grid_of(xs[0]@)));
            let j = choose|j: int| 0 <= j < ys.len() && grid_of(ys[j]@) == grid_of(xs[0]@);
            if j > 0 {
                assert(grid_lex_lt(grid_of(ys[0]@), grid_of(ys[j]@)));
                assert(tables_contain(ys, grid_of(ys[0]@)));
                assert(tables_contain(xs, grid_of(ys[0]@)));
                let m = choose|m: int| 0 <= m < xs.len() && grid_of(xs[m]@) == grid_of(ys[0]@);
                if m == 0 {
                    assert(grid_lex_lt(grid_of(ys[0]@), grid_of(xs[0]@)));
                    assert(false);
                } else {
                    assert(grid_lex_lt(grid_of(xs[0]@), grid_of(xs[m]@)));
                    assert(grid_lex_lt(grid_of(ys[0]@), grid_of(xs[0]@)));
                    assert(false);
                }
            }
        }
        let xt = xs.drop_first();
        let yt = ys.drop_first();
        assert(forall|k: int| 0 <= k < xt.len() ==> #[trigger] xt[k] == xs[k + 1]);
        assert(forall|k: int| 0 <= k < yt.len() ==> #[trigger] yt[k] == ys[k + 1]);
        assert forall|gg: Seq<Seq<usize>>| #[trigger] tables_contain(xt, gg) implies tables_contain(
            yt,
            gg,
        ) by {
            let k = choose|k: int| 0 <= k < xt.len() && grid_of(xt[k]@) == gg;
            assert(grid_of(xs[k + 1]@) == gg);
            assert(tables_contain(xs, gg));
            assert(tables_contain(ys, gg));
            let j = choose|j: int| 0 <= j < ys.len() && grid_of(ys[j]@) == gg;
            assert(grid_lex_lt(grid_of(xs[0]@), grid_of(xs[k + 1]@)));
            assert(j > 0) by {
                if j == 0 {
                    assert(grid_of(ys[0]@) == gg);
                    assert(grid_of(xs[0]@) != gg);
                }
            }
            assert(grid_of(yt[j - 1]@) == gg);
        }
        assert forall|gg: Seq<Seq<usize>>| #[trigger] tables_contain(yt, gg) implies tables_contain(
            xt,
            gg,
        ) by {
            let k = choose|k: int| 0 <= k < yt.len() && grid_of(yt[k]@) == gg;
            assert(grid_of(ys[k + 1]@) == gg);
            assert(tables_contain(ys, gg));
            assert(tables_contain(xs, gg));
            let j = choose|j: int| 0 <= j < xs.len() && grid_of(xs[j]@) == gg;
            assert(grid_lex_lt(grid_of(ys[0]@), grid_of(ys[k + 1]@)));
            assert(j > 0) by {
                if j == 0 {
                    assert(grid_of(xs[0]@) == gg);
                    assert(grid_of(ys[0]@) != gg);
                }
            }
            assert(grid_of(xt[j - 1]@) == gg);
        }
        lemma_tri_sorted_lists_equal(xt, yt, n);
        assert forall|k: int| 0 <= k < xs.len() implies grid_of(#[trigger] xs[k]@) == grid_of(
            ys[k]@,
        ) by {
            if k > 0 {
                assert(grid_of(xt[k - 1]@) == grid_of(yt[k - 1]@));
            }
        }
    }
}

/// The triplet value occurs in the list.
pub open spec fn trip_listed(w: Seq<[usize; 3]>, tr: Seq<usize>) -> bool {
    exists|k: int| 0 <= k < w.len() && #[trigger] w[k]@ == tr
}

/// The first triplet comes strictly before the second in lexicographic
/// order.
pub open spec fn trip_lt(x: [usize; 3], y: [usize; 3]) -> bool {
    ||| x@[0] < y@[0]
    ||| (x@[0] == y@[0] && x@[1] < y@[1])
    ||| (x@[0] == y@[0] && x@[1] == y@[1] && x@[2] < y@[2])
}

/// The triplet sorts strictly before the position (a, b, c).
pub open spec fn trip_below(x: [usize; 3], a: int, b: int, c: int) -> bool {
    ||| (x@[0] as int) < a
    ||| (x@[0] as int == a && (x@[1] as int) < b)
    ||| (x@[0] as int == a && x@[1] as int == b && (x@[2] as int) < c)
}

/// The triplet (a, b, c) occurs in the list.
pub open spec fn trip_in(w: Seq<[usize; 3]>, a: int, b: int, c: int) -> bool {
    exists|k: int|
        0 <= k < w.len() && #[trigger] w[k]@[0] == a && w[k]@[1] == b && w[k]@[2] == c
}

/// Appending to a triplet list keeps every triplet it held and adds the new
/// one.
proof fn lemma_trip_in_push(w: Seq<[usize; 3]>, x: [usize; 3])
    ensures
        forall|a: int, b: int, c: int|
            #[trigger] trip_in(w, a, b, c) ==> trip_in(w.push(x), a, b, c),
        trip_in(w.push(x), x@[0] as int, x@[1] as int, x@[2] as int),
{
    assert forall|a: int, b: int, c: int| #[trigger] trip_in(w, a, b, c) implies trip_in(
        w.push(x),
        a,
        b,
        c,
    ) by {
        let k = choose|k: int|
            0 <= k < w.len() && #[trigger] w[k]@[0] == a && w[k]@[1] == b && w[k]@[2] == c;
        assert(w.push(x)[k]@[0] == a && w.push(x)[k]@[1] == b && w.push(x)[k]@[2] == c);
    }
    let m = w.len() as int;
    assert(w.push(x)[m]@[0] == x@[0] && w.push(x)[m]@[1] == x@[1] && w.push(x)[m]@[2] == x@[2]);
}

// ---------------------------------------------------------------------------
// Associativity obligations.
// ---------------------------------------------------------------------------

/// Generates every triplet that a complete table must satisfy: (a, b, c)
/// with a <= b <= c and a != c, starting from a == 1 when the identity is
/// fixed at element 0 (triplets touching the identity hold by themselves).
/// The list is in strictly increasing lexicographic order, each triplet
/// exactly once.
pub fn generate_all_associativity_triplets(n: usize, zero_identity: bool) -> (work: Vec<
    [usize; 3],
>)
    requires
        n >= 1,
    ensures
        forall|k: int|
            0 <= k < work@.len() ==> obligation(
                n as int,
                zero_identity,
                #[trigger] work@[k]@[0] as int,
                work@[k]@[1] as int,
                work@[k]@[2] as int,
            ),
        forall|a: int, b: int, c: int|
            #[trigger] obligation(n as int, zero_identity, a, b, c) ==> trip_in(work@, a, b, c),
        forall|k1: int, k2: int|
            0 <= k1 < k2 < work@.len() ==> trip_lt(#[trigger] work@[k1], #[trigger] work@[k2]),
{
    let mut work: Vec<[usize; 3]> = Vec::new();
    let start: usize = if zero_identity {
        1
    } else {
        0
    };

    let mut a = start;
    while a < n - 1
        invariant
            start == (if zero_identity { 1int } else { 0int }),
            start <= a <= n || a == start,
            n >= 1,
            forall|k: int|
                0 <= k < work@.len() ==> obligation(
                    n as int,
                    zero_identity,
                    #[trigger] work@[k]@[0] as int,
                    work@[k]@[1] as int,
                    work@[k]@[2] as int,
                ),
            forall|a2: int, b2: int, c2: int|
                #[trigger] obligation(n as int, zero_identity, a2, b2, c2) && a2 < a ==> trip_in(
                    work@,
                    a2,
                    b2,
                    c2,
                ),
            forall|k1: int, k2: int|
                0 <= k1 < k2 < work@.len() ==> trip_lt(#[trigger] work@[k1], #[trigger] work@[k2]),
            forall|k: int| 0 <= k < work@.len() ==> trip_below(#[trigger] work@[k], a as int, a as int, a as int),
        decreases n - a,
    {
        let mut b = a;
        while b < n
            invariant
                start == (if zero_identity { 1int } else { 0int }),
                start <= a < n - 1,
                a <= b <= n,
                forall|k: int|
                    0 <= k < work@.len() ==> obligation(
                        n as int,
                        zero_identity,
                        #[trigger] work@[k]@[0] as int,
                        work@[k]@[1] as int,
                        work@[k]@[2] as int,
                    ),
                forall|a2: int, b2: int, c2: int|
                    #[trigger] obligation(n as int, zero_identity, a2, b2, c2) && a2 < a
                        ==> trip_in(work@, a2, b2, c2),
                forall|b2: int, c2: int|
                    #[trigger] obligation(n as int, zero_identity, a as int, b2, c2) && b2 < b
                        ==> trip_in(work@, a as int, b2, c2),
                forall|k1: int, k2: int|
                    0 <= k1 < k2 < work@.len() ==> trip_lt(
                        #[trigger] work@[k1],
                        #[trigger] work@[k2],
                    ),
                forall|k: int|
                    0 <= k < work@.len() ==> trip_below(#[trigger] work@[k], a as int, b as int, b as int),
            decreases n - b,
        {
            let mut c = b;
            while c < n
                invariant
                    start == (if zero_identity { 1int } else { 0int }),
                    start <= a < n - 1,
                    a <= b < n,
                    b <= c <= n,
                    forall|k: int|
                        0 <= k < work@.len() ==> obligation(
                            n as int,
                            zero_identity,
                            #[trigger] work@[k]@[0] as int,
                            work@[k]@[1] as int,
                            work@[k]@[2] as int,
                        ),
                    forall|a2: int, b2: int, c2: int|
                        #[trigger] obligation(n as int, zero_identity, a2, b2, c2) && a2 < a
                            ==> trip_in(work@, a2, b2, c2),
                    forall|b2: int, c2: int|
                        #[trigger] obligation(n as int, zero_identity, a as int, b2, c2) && b2 < b
                            ==> trip_in(work@, a as int, b2, c2),
                    forall|c2: int|
                        #[trigger] obligation(n as int, zero_identity, a as int, b as int, c2) && c2
                            < c ==> trip_in(work@, a as int, b as int, c2),
                    forall|k1: int, k2: int|
                        0 <= k1 < k2 < work@.len() ==> trip_lt(
                            #[trigger] work@[k1],
                            #[trigger] work@[k2],
                        ),
                    forall|k: int|
                        0 <= k < work@.len() ==> trip_below(
                            #[trigger] work@[k],
                            a as int,
                            b as int,
                            c as int,
                        ),
                decreases n - c,
            {
                if a != c {
                    let trip = [a, b, c];
                    let ghost old_work = work@;
                    proof {
                        assert(trip@[0] == a && trip@[1] == b && trip@[2] == c);
                    }
                    work.push(trip);
                    proof {
                        lemma_trip_in_push(old_work, trip);
                        assert(work@ == old_work.push(trip));
                        assert forall|k1: int, k2: int|
                            0 <= k1 < k2 < work@.len() implies trip_lt(
                            #[trigger] work@[k1],
                            #[trigger] work@[k2],
                        ) by {
                            if k2 == old_work.len() {
                                assert(work@[k1] == old_work[k1]);
                                assert(trip_below(old_work[k1], a as int, b as int, c as int));
                            } else {
                                assert(work@[k1] == old_work[k1]);
                                assert(work@[k2] == old_work[k2]);
                            }
                        }
                        assert forall|k: int| 0 <= k < work@.len() implies trip_below(
                            #[trigger] work@[k],
                            a as int,
                            b as int,
                            c + 1,
                        ) by {
                            if k < old_work.len() {
                                assert(work@[k] == old_work[k]);
                                assert(trip_below(old_work[k], a as int, b as int, c as int));
                            }
                        }
                    }
                }
                c = c + 1;
            }
            b = b + 1;
        }
        a = a + 1;
    }
    proof {
        assert forall|a2: int, b2: int, c2: int|
            #[trigger] obligation(n as int, zero_identity, a2, b2, c2) implies trip_in(
            work@,
            a2,
            b2,
            c2,
        ) by {
            assert(a2 < a);
        }
    }
    work
}

// ---------------------------------------------------------------------------
// Reading a table.
// ---------------------------------------------------------------------------

/// The value a*b of a complete table.
pub fn group_add(table: &Vec<Vec<usize>>, a: &usize, b: &usize) -> (r: usize)
    requires
        tri_complete(grid_of(table@), table@.len() as int),
        *a < table@.len(),
        *b < table@.len(),
    ensures
        r == tri_at(grid_of(table@), *a as int, *b as int),
        r < table@.len(),
{
    proof {
        assert(grid_of(table@)[*a as int] == table@[*a as int]@);
        assert(grid_of(table@)[*b as int] == table@[*b as int]@);
    }
    if b > a {
        table[*a][*b - *a]
    } else {
        table[*b][*a - *b]
    }
}

/// The value a*b of a partial table, or None while its cell is unfilled.
pub fn group_add_new(table: &Vec<Vec<usize>>, a: &usize, b: &usize) -> (r: Option<usize>)
    ensures
        r == tri_get(grid_of(table@), *a as int, *b as int),
{
    proof {
        if *a < table@.len() {
            assert(grid_of(table@)[*a as int] == table@[*a as int]@);
        }
        if *b < table@.len() {
            assert(grid_of(table@)[*b as int] == table@[*b as int]@);
        }
    }
    if b > a {
        if *a < table.len() && *b - *a < table[*a].len() {
            Option::Some(table[*a][*b - *a])
        } else {
            Option::None
        }
    } else {
        if *b < table.len() && *a - *b < table[*b].len() {
            Option::Some(table[*b][*a - *b])
        } else {
            Option::None
        }
    }
}

/// What testing one triplet against a partial table yields: None while a
/// needed product is unfilled, otherwise whether the two sides agree.
pub open spec fn spec_test_triplet(t: Seq<Seq<usize>>, a: int, b: int, c: int) -> Option<bool> {
    match tri_get(t, a, b) {
        Option::None => Option::None,
        Option::Some(l0) => match tri_get(t, l0 as int, c) {
            Option::None => Option::None,
            Option::Some(l) => match tri_get(t, b, c) {
                Option::None => Option::None,
                Option::Some(r0) => match tri_get(t, a, r0 as int) {
                    Option::None => Option::None,
                    Option::Some(r) => Option::Some(l == r),
                },
            },
        },
    }
}

/// The triplet is settled true in the table.
pub open spec fn trip_settled(t: Seq<Seq<usize>>, tr: [usize; 3]) -> bool {
    spec_test_triplet(t, tr@[0] as int, tr@[1] as int, tr@[2] as int) == Option::Some(true)
}

/// `g` holds every cell of `p`, with the same value.
pub open spec fn tri_covers(g: Seq<Seq<usize>>, p: Seq<Seq<usize>>) -> bool {
    &&& g.len() >= p.len()
    &&& forall|i: int| 0 <= i < p.len() ==> #[trigger] g[i].len() >= p[i].len()
    &&& forall|i: int, j: int|
        0 <= i < p.len() && 0 <= j < p[i].len() ==> #[trigger] g[i][j] == p[i][j]
}

/// A filled product keeps its value in any covering table.
proof fn lemma_tri_get_covers(p: Seq<Seq<usize>>, g: Seq<Seq<usize>>, a: int, b: int)
    requires
        tri_covers(g, p),
        tri_get(p, a, b) is Some,
        0 <= a,
        0 <= b,
    ensures
        tri_get(g, a, b) == tri_get(p, a, b),
{
    if b > a {
        assert(a < p.len() && b - a < p[a].len());
        assert(g[a].len() >= p[a].len());
        assert(g[a][b - a] == p[a][b - a]);
    } else {
        assert(b < p.len() && a - b < p[b].len());
        assert(g[b].len() >= p[b].len());
        assert(g[b][a - b] == p[b][a - b]);
    }
}

/// A settled triplet keeps its verdict in any covering table.
proof fn lemma_test_covers(p: Seq<Seq<usize>>, g: Seq<Seq<usize>>, a: int, b: int, c: int)
    requires
        tri_covers(g, p),
        spec_test_triplet(p, a, b, c) is Some,
        0 <= a,
        0 <= b,
        0 <= c,
    ensures
        spec_test_triplet(g, a, b, c) == spec_test_triplet(p, a, b, c),
{
    let l0 = tri_get(p, a, b).unwrap();
    lemma_tri_get_covers(p, g, a, b);
    lemma_tri_get_covers(p, g, l0 as int, c);
    let r0 = tri_get(p, b, c).unwrap();
    lemma_tri_get_covers(p, g, b, c);
    lemma_tri_get_covers(p, g, a, r0 as int);
}

/// On a complete table, testing a triplet in range settles it, and agrees
/// with the direct associativity reading.
proof fn lemma_test_complete(g: Seq<Seq<usize>>, n: int, a: int, b: int, c: int)
    requires
        tri_complete(g, n),
        0 <= a < n,
        0 <= b < n,
        0 <= c < n,
    ensures
        spec_test_triplet(g, a, b, c) == Option::Some(tri_assoc_at(g, a, b, c)),
{
    assert(tri_get(g, a, b) == Option::Some(tri_at(g, a, b)));
    let l0 = tri_at(g, a, b);
    assert(l0 < n);
    assert(tri_get(g, l0 as int, c) == Option::Some(tri_at(g, l0 as int, c)));
    assert(tri_get(g, b, c) == Option::Some(tri_at(g, b, c)));
    let r0 = tri_at(g, b, c);
    assert(r0 < n);
    assert(tri_get(g, a, r0 as int) == Option::Some(tri_at(g, a, r0 as int)));
}

/// A complete table extending a prefix covers it.
proof fn lemma_complete_covers(g: Seq<Seq<usize>>, p: Seq<Seq<usize>>, n: int)
    requires
        tri_complete(g, n),
        tri_partial_wf(p, n),
        grid_extends(g, p),
    ensures
        tri_covers(g, p),
{
    assert forall|i: int| 0 <= i < p.len() implies #[trigger] g[i].len() >= p[i].len() by {
        if i < p.len() - 1 {
            assert(p[i].len() == n - i);
        } else {
            assert(p[i].len() <= n - i);
        }
        assert(g[i].len() == n - i);
    }
}

// ---------------------------------------------------------------------------
// Testing obligations against a partial table.
// ---------------------------------------------------------------------------

/// Tests one obligation: None while undetermined, otherwise whether both
/// sides agree.
pub fn test_triplet(table: &Vec<Vec<usize>>, triplet: &[usize; 3]) -> (r: Option<bool>)
    ensures
        r == spec_test_triplet(
            grid_of(table@),
            triplet@[0] as int,
            triplet@[1] as int,
            triplet@[2] as int,
        ),
{
    let a = triplet[0];
    let b = triplet[1];
    let c = triplet[2];

    let l = match group_add_new(table, &a, &b) {
        Option::Some(l0) => {
            match group_add_new(table, &l0, &c) {
                Option::Some(l) => l,
                Option::None => {
                    return Option::None;
                },
            }
        },
        Option::None => {
            return Option::None;
        },
    };

    let r = match group_add_new(table, &b, &c) {
        Option::Some(r0) => {
            match group_add_new(table, &a, &r0) {
                Option::Some(r) => r,
                Option::None => {
                    return Option::None;
                },
            }
        },
        Option::None => {
            return Option::None;
        },
    };

    if l != r {
        return Option::Some(false);
    }
    Option::Some(true)
}

/// Tests every remaining obligation.  Returns None as soon as one is settled
/// false; otherwise returns exactly the subsequence of obligations still
/// undetermined, in their relative order — the settled ones are dropped for
/// good and never re-checked.
pub fn check_associativity(table: &Vec<Vec<usize>>, remaining_associativity_checks: &Vec<
    [usize; 3],
>) -> (r: Option<Vec<[usize; 3]>>)
    ensures
        r is None <==> exists|k: int|
            0 <= k < remaining_associativity_checks@.len() && spec_test_triplet(
                grid_of(table@),
                #[trigger] remaining_associativity_checks@[k]@[0] as int,
                remaining_associativity_checks@[k]@[1] as int,
                remaining_associativity_checks@[k]@[2] as int,
            ) == Option::Some(false),
        r is Some ==> r.unwrap()@ == remaining_associativity_checks@.filter(
            |tr: [usize; 3]|
                spec_test_triplet(
                    grid_of(table@),
                    tr@[0] as int,
                    tr@[1] as int,
                    tr@[2] as int,
                ) is None,
        ),
        r is Some ==> ({
            let v = r.unwrap();
            &&& forall|j: int|
                0 <= j < v@.len() ==> #[trigger] trip_listed(
                    remaining_associativity_checks@,
                    v@[j]@,
                )
            &&& forall|j: int|
                0 <= j < v@.len() ==> spec_test_triplet(
                    grid_of(table@),
                    #[trigger] v@[j]@[0] as int,
                    v@[j]@[1] as int,
                    v@[j]@[2] as int,
                ) is None
            &&& forall|k: int|
                0 <= k < remaining_associativity_checks@.len() && !(spec_test_triplet(
                    grid_of(table@),
                    #[trigger] remaining_associativity_checks@[k]@[0] as int,
                    remaining_associativity_checks@[k]@[1] as int,
                    remaining_associativity_checks@[k]@[2] as int,
                ) == Option::Some(true)) ==> trip_listed(
                    v@,
                    remaining_associativity_checks@[k]@,
                )
        }),
{
    let ghost g = grid_of(table@);
    let ghost rem = remaining_associativity_checks@;
    let ghost pred = |tr: [usize; 3]|
        spec_test_triplet(g, tr@[0] as int, tr@[1] as int, tr@[2] as int) is None;
    let mut new_associativity_checks: Vec<[usize; 3]> = Vec::new();
    proof {
        reveal(Seq::filter);
        assert(rem.take(0) =~= Seq::<[usize; 3]>::empty());
        assert(new_associativity_checks@ == rem.take(0).filter(pred));
    }

    let mut k: usize = 0;
    while k < remaining_associativity_checks.len()
        invariant
            g == grid_of(table@),
            rem == remaining_associativity_checks@,
            pred == (|tr: [usize; 3]|
                spec_test_triplet(g, tr@[0] as int, tr@[1] as int, tr@[2] as int) is None),
            new_associativity_checks@ == rem.take(k as int).filter(pred),
            k <= rem.len(),
            forall|k2: int|
                0 <= k2 < k ==> spec_test_triplet(
                    g,
                    #[trigger] rem[k2]@[0] as int,
                    rem[k2]@[1] as int,
                    rem[k2]@[2] as int,
                ) != Option::Some(false),
            forall|j: int|
                0 <= j < new_associativity_checks@.len() ==> #[trigger] trip_listed(
                    rem,
                    new_associativity_checks@[j]@,
                ),
            forall|j: int|
                0 <= j < new_associativity_checks@.len() ==> spec_test_triplet(
                    g,
                    #[trigger] new_associativity_checks@[j]@[0] as int,
                    new_associativity_checks@[j]@[1] as int,
                    new_associativity_checks@[j]@[2] as int,
                ) is None,
            forall|k2: int|
                0 <= k2 < k && !(spec_test_triplet(
                    g,
                    #[trigger] rem[k2]@[0] as int,
                    rem[k2]@[1] as int,
                    rem[k2]@[2] as int,
                ) == Option::Some(true)) ==> trip_listed(new_associativity_checks@, rem[k2]@),
        decreases rem.len() - k,
    {
        let trip = remaining_associativity_checks[k];
        proof {
            assert(trip == rem[k as int]);
            assert(rem.take(k + 1).drop_last() =~= rem.take(k as int));
            assert(rem.take(k + 1).last() == rem[k as int]);
        }
        let ghost old_checks = new_associativity_checks@;
        match test_triplet(table, &trip) {
            Option::None => {
                new_associativity_checks.push(trip);
                proof {
                    reveal(Seq::filter);
                    assert(pred(rem[k as int]));
                    assert(new_associativity_checks@ == rem.take(k + 1).filter(pred));
                    assert forall|j: int|
                        0 <= j < old_checks.len() implies new_associativity_checks@[j]
                        == old_checks[j] by {}
                    assert(new_associativity_checks@[old_checks.len() as int]@ == rem[k as int]@);
                    assert(trip_listed(rem, rem[k as int]@));
                    assert forall|j: int|
                        0 <= j < new_associativity_checks@.len() implies #[trigger] trip_listed(
                        rem,
                        new_associativity_checks@[j]@,
                    ) by {
                        if j < old_checks.len() {
                            assert(new_associativity_checks@[j]@ == old_checks[j]@);
                        } else {
                            assert(new_associativity_checks@[j]@ == rem[k as int]@);
                        }
                    }
                    assert forall|k2: int|
                        0 <= k2 < k + 1 && !(spec_test_triplet(
                            g,
                            #[trigger] rem[k2]@[0] as int,
                            rem[k2]@[1] as int,
                            rem[k2]@[2] as int,
                        ) == Option::Some(true)) implies trip_listed(
                        new_associativity_checks@,
                        rem[k2]@,
                    ) by {
                        if k2 < k {
                            let j = choose|j: int|
                                0 <= j < old_checks.len() && #[trigger] old_checks[j]@
                                    == rem[k2]@;
                            assert(new_associativity_checks@[j]@ == rem[k2]@);
                        } else {
                            assert(new_associativity_checks@[old_checks.len() as int]@
                                == rem[k2]@);
                        }
                    }
                }
            },
            Option::Some(b) => {
                proof {
                    reveal(Seq::filter);
                    assert(!pred(rem[k as int]));
                    assert(new_associativity_checks@ == rem.take(k + 1).filter(pred));
                }
                if !b {
                    proof {
                        assert(spec_test_triplet(
                            g,
                            rem[k as int]@[0] as int,
                            rem[k as int]@[1] as int,
                            rem[k as int]@[2] as int,
                        ) == Option::Some(false));
                    }
                    return Option::None;
                }
            },
        }
        k = k + 1;
    }
    proof {
        assert(rem.take(rem.len() as int) =~= rem);
    }
    Option::Some(new_associativity_checks)
}

/// Tests whether a complete table satisfies every obligation of its list:
/// triplets touching element 0 are skipped when 0 sits on the diagonal as
/// its own square, the dispatch the search itself uses.
pub fn is_group_associative(table: &Vec<Vec<usize>>) -> (r: bool)
    requires
        tri_complete(grid_of(table@), table@.len() as int),
    ensures
        r == tri_list_sat(
            grid_of(table@),
            table@.len() as int,
            grid_of(table@)[0][0] == 0,
        ),
{
    let ghost g = grid_of(table@);
    let n = table.len();
    let ghost n_spec = n as int;
    proof {
        assert(g[0] == table@[0]@);
        assert(g[0].len() == n);
    }
    let zero_identity = table[0][0] == 0;
    let triplets = generate_all_associativity_triplets(n, zero_identity);

    let mut k: usize = 0;
    while k < triplets.len()
        invariant
            g == grid_of(table@),
            n_spec == n as int,
            tri_complete(g, n_spec),
            table@.len() == n,
            zero_identity == (g[0][0] == 0),
            k <= triplets@.len(),
            forall|j: int|
                0 <= j < triplets@.len() ==> obligation(
                    n_spec,
                    zero_identity,
                    #[trigger] triplets@[j]@[0] as int,
                    triplets@[j]@[1] as int,
                    triplets@[j]@[2] as int,
                ),
            forall|a: int, b: int, c: int|
                #[trigger] obligation(n_spec, zero_identity, a, b, c) ==> trip_in(triplets@, a, b, c),
            forall|j: int|
                0 <= j < k ==> tri_assoc_at(
                    g,
                    #[trigger] triplets@[j]@[0] as int,
                    triplets@[j]@[1] as int,
                    triplets@[j]@[2] as int,
                ),
        decreases triplets@.len() - k,
    {
        let a = triplets[k][0];
        let b = triplets[k][1];
        let c = triplets[k][2];
        proof {
            assert(obligation(n_spec, zero_identity, a as int, b as int, c as int));
        }

        let l0 = group_add(table, &a, &b);
        let l = group_add(table, &l0, &c);

        let r0 = group_add(table, &b, &c);
        let r = group_add(table, &a, &r0);

        if l != r {
            proof {
                assert(!tri_assoc_at(g, a as int, b as int, c as int));
            }
            return false;
        }
        proof {
            assert(tri_assoc_at(g, a as int, b as int, c as int));
        }
        k = k + 1;
    }
    proof {
        assert forall|a: int, b: int, c: int|
            obligation(n_spec, zero_identity, a, b, c) implies #[trigger] tri_assoc_at(
            g,
            a,
            b,
            c,
        ) by {
            assert(trip_in(triplets@, a, b, c));
            let j = choose|j: int|
                0 <= j < triplets@.len() && #[trigger] triplets@[j]@[0] == a && triplets@[j]@[1]
                    == b && triplets@[j]@[2] == c;
            assert(tri_assoc_at(
                g,
                triplets@[j]@[0] as int,
                triplets@[j]@[1] as int,
                triplets@[j]@[2] as int,
            ));
        }
    }
    true
}

/// Whether `x` occurs on the rising diagonal through full-table column
/// `column`, over the first `upto` storage rows.
fn upper_col_contains(table: &Vec<Vec<usize>>, upto: usize, column: usize, x: usize) -> (r: bool)
    requires
        upto <= table@.len(),
        upto <= column,
        forall|j: int| 0 <= j < upto ==> column - j < #[trigger] table@[j]@.len(),
    ensures
        r == exists|j: int| 0 <= j < upto && #[trigger] table@[j]@[column - j] == x,
{
    let mut k: usize = 0;
    while k < upto
        invariant
            k <= upto,
            upto <= table@.len(),
            upto <= column,
            forall|j: int| 0 <= j < upto ==> column - j < #[trigger] table@[j]@.len(),
            forall|j: int| 0 <= j < k ==> #[trigger] table@[j]@[column - j] != x,
        decreases upto - k,
    {
        if table[k][column - k] == x {
            return true;
        }
        k = k + 1;
    }
    false
}

// ---------------------------------------------------------------------------
// Lemmas for the backtracking generators.
// ---------------------------------------------------------------------------

/// Two complete tables of one order agreeing on every stored cell are equal.
proof fn lemma_complete_extends_eq(gg: Seq<Seq<usize>>, g: Seq<Seq<usize>>, n: int)
    requires
        tri_complete(gg, n),
        tri_complete(g, n),
        grid_extends(gg, g),
    ensures
        gg == g,
{
    assert forall|x: int| 0 <= x < n implies gg[x] == g[x] by {
        assert(gg[x].len() == g[x].len());
        assert forall|y: int| 0 <= y < g[x].len() implies gg[x][y] == g[x][y] by {}
        assert(gg[x] =~= g[x]);
    }
    assert(gg =~= g);
}

/// Opening a new storage row with a value missing from its column keeps the
/// prefix well formed and Latin.
proof fn lemma_sudoku_push_row(g: Seq<Seq<usize>>, new_g: Seq<Seq<usize>>, n: int, i: usize)
    requires
        tri_partial_wf(g, n),
        tri_sudoku(g, n),
        g.len() < n,
        g.last().len() == n - (g.len() - 1),
        new_g == g.push(seq![i]),
        i < n,
        forall|j: int| 0 <= j < g.len() ==> #[trigger] g[j][g.len() - j] != i,
    ensures
        tri_partial_wf(new_g, n),
        tri_sudoku(new_g, n),
{
    let r = g.len() as int;
    assert(tri_partial_wf(new_g, n)) by {
        assert(new_g.last() == seq![i]);
        assert forall|k: int| 0 <= k < new_g.len() - 1 implies #[trigger] new_g[k].len() == n
            - k by {
            if k < r - 1 {
                assert(new_g[k] == g[k]);
            } else {
                assert(new_g[k] == g.last());
            }
        }
        assert(seq![i].len() == 1);
    }
    assert forall|a: int, y1: int, y2: int|
        0 <= a < n && 0 <= y1 < y2 < n && #[trigger] tri_get(new_g, a, y1) is Some
            && #[trigger] tri_get(new_g, a, y2) is Some implies tri_get(new_g, a, y1) != tri_get(
        new_g,
        a,
        y2,
    ) by {
        // A cell is new exactly when it is the diagonal cell of the new row;
        // every other filled cell keeps its value from the prefix.
        assert forall|y: int|
            0 <= y < n && !(a == r && y == r) && #[trigger] tri_get(new_g, a, y)
                is Some implies tri_get(new_g, a, y) == tri_get(g, a, y) && (y < r && a == r
            ==> tri_get(g, a, y) == Option::Some(g[y][r - y])) by {
            if a < r || y < r {
                if y >= a {
                    assert(a < r);
                    assert(new_g[a] == g[a]);
                } else {
                    assert(y < r);
                    assert(new_g[y] == g[y]);
                }
            } else {
                // both at least r: the only filled such cell is (r, r)
                assert(false);
            }
        }
        if a == r && y2 == r {
            assert(tri_get(new_g, a, y2) == Option::Some(i));
            assert(tri_get(new_g, a, y1) == Option::Some(g[y1][r - y1]));
            assert(g[y1][r - y1] != i);
        } else if a == r && y1 == r {
            assert(tri_get(new_g, a, y1) == Option::Some(i));
            assert(tri_get(new_g, a, y2) == Option::Some(g[y2][r - y2]));
            assert(g[y2][r - y2] != i);
        } else {
            assert(tri_get(new_g, a, y1) == tri_get(g, a, y1));
            assert(tri_get(new_g, a, y2) == tri_get(g, a, y2));
        }
    }
}

/// Extending the last storage row with a value missing from its row and its
/// two columns keeps the prefix well formed and Latin.
proof fn lemma_sudoku_extend_row(
    g: Seq<Seq<usize>>,
    new_g: Seq<Seq<usize>>,
    n: int,
    i: usize,
    row: int,
    idx: int,
)
    requires
        tri_partial_wf(g, n),
        tri_sudoku(g, n),
        row == g.len() - 1,
        idx == g[row].len(),
        idx < n - row,
        new_g == g.update(row, g[row].push(i)),
        i < n,
        !g[row].contains(i),
        forall|j: int| 0 <= j < row ==> #[trigger] g[j][row - j] != i,
        forall|j: int| 0 <= j < row ==> #[trigger] g[j][row + idx - j] != i,
    ensures
        tri_partial_wf(new_g, n),
        tri_sudoku(new_g, n),
{
    let col = row + idx;
    assert(tri_partial_wf(new_g, n)) by {
        assert(new_g.last() == g[row].push(i));
        assert(forall|k: int| 0 <= k < row ==> #[trigger] new_g[k] == g[k]);
    }
    assert forall|a: int, y1: int, y2: int|
        0 <= a < n && 0 <= y1 < y2 < n && #[trigger] tri_get(new_g, a, y1) is Some
            && #[trigger] tri_get(new_g, a, y2) is Some implies tri_get(new_g, a, y1) != tri_get(
        new_g,
        a,
        y2,
    ) by {
        // The one new cell is (row, col); other filled cells keep their
        // value from the prefix.
        assert forall|y: int|
            0 <= y < n && !(a == row && y == col) && !(a == col && y == row) && #[trigger] tri_get(
                new_g,
                a,
                y,
            ) is Some implies tri_get(new_g, a, y) == tri_get(g, a, y) by {
            if y >= a {
                if a == row {
                    assert(new_g[a] == g[a].push(i));
                    assert(y != col);
                    assert(y - a < idx);
                    assert(new_g[a][y - a] == g[a][y - a]);
                } else if a < row {
                    assert(new_g[a] == g[a]);
                } else {
                    assert(a > row);
                    assert(a >= new_g.len());
                    assert(false);
                }
            } else {
                if y == row {
                    assert(new_g[y] == g[y].push(i));
                    assert(a != col);
                    assert(a - y < idx);
                    assert(new_g[y][a - y] == g[y][a - y]);
                } else if y < row {
                    assert(new_g[y] == g[y]);
                } else {
                    assert(y >= new_g.len());
                    assert(false);
                }
            }
        }
        // The value of each old filled cell on the two affected lines.
        assert forall|y: int|
            0 <= y < n && y != col && (a == row || a == col) && #[trigger] tri_get(new_g, a, y)
                is Some && !(a == col && y == row) implies tri_get(new_g, a, y) != Option::Some(
            i,
        ) by {
            if a == row {
                if y < row {
                    assert(tri_get(g, a, y) == Option::Some(g[y][row - y]));
                } else {
                    assert(y - row < idx);
                    assert(tri_get(g, a, y) == Option::Some(g[row][y - row]));
                    assert(g[row].contains(g[row][y - row]));
                }
            } else {
                if y < row {
                    assert(tri_get(g, a, y) == Option::Some(g[y][col - y]));
                } else {
                    // strictly between row and col, or beyond col: unfilled
                    assert(tri_get(new_g, a, y) is None);
                    assert(false);
                }
            }
        }
        if a == row && y2 == col {
            assert(tri_get(new_g, a, y2) == Option::Some(i));
            assert(tri_get(new_g, a, y1) != Option::Some(i));
        } else if a == row && y1 == col {
            assert(tri_get(new_g, a, y1) == Option::Some(i));
            assert(tri_get(new_g, a, y2) != Option::Some(i));
        } else if a == col && y2 == row {
            assert(tri_get(new_g, a, y2) == Option::Some(i));
            assert(tri_get(new_g, a, y1) != Option::Some(i));
        } else if a == col && y1 == row {
            assert(tri_get(new_g, a, y1) == Option::Some(i));
            assert(tri_get(new_g, a, y2) != Option::Some(i));
        } else {
            assert(tri_get(new_g, a, y1) == tri_get(g, a, y1));
            assert(tri_get(new_g, a, y2) == tri_get(g, a, y2));
        }
    }
}

/// After one candidate branch of a triangular generator, the accumulated
/// list holds exactly the tables whose cell at the branch position stays
/// below the next candidate.
#[verifier::rlimit(30)]
proof fn lemma_tri_branch_append(
    g: Seq<Seq<usize>>,
    new_g: Seq<Seq<usize>>,
    old_rs: Seq<Vec<Vec<usize>>>,
    sub_rs: Seq<Vec<Vec<usize>>>,
    all_rs: Seq<Vec<Vec<usize>>>,
    n: int,
    row: int,
    idx: int,
    i: usize,
    pred: spec_fn(Seq<Seq<usize>>) -> bool,
)
    requires
        all_rs == old_rs + sub_rs,
        tri_partial_wf(g, n),
        tri_partial_wf(new_g, n),
        0 <= row < n,
        0 <= idx < n - row,
        i < n,
        idx == 0 ==> row == g.len(),
        idx == 0 ==> g.last().len() == n - (g.len() - 1),
        idx != 0 ==> row == g.len() - 1,
        new_g.len() == if idx == 0 { g.len() + 1 } else { g.len() },
        forall|k: int| 0 <= k < g.len() && k != row ==> #[trigger] new_g[k] == g[k],
        row < g.len() ==> new_g[row] == g[row].push(i),
        row == g.len() ==> new_g[row] == seq![i],
        row < g.len() ==> idx == g[row].len(),
        forall|k: int|
            0 <= k < old_rs.len() ==> tri_complete(grid_of(#[trigger] old_rs[k]@), n) && tri_sudoku(
                grid_of(old_rs[k]@),
                n,
            ) && grid_extends(grid_of(old_rs[k]@), g) && pred(grid_of(old_rs[k]@)) && grid_of(
                old_rs[k]@,
            )[row][idx] < i,
        forall|gg: Seq<Seq<usize>>|
            tri_complete(gg, n) && tri_sudoku(gg, n) && #[trigger] grid_extends(gg, g) && pred(gg)
                && gg[row][idx] < i ==> tables_contain(old_rs, gg),
        tables_distinct(old_rs),
        tables_lex_sorted(old_rs),
        forall|k: int|
            0 <= k < sub_rs.len() ==> tri_complete(grid_of(#[trigger] sub_rs[k]@), n) && tri_sudoku(
                grid_of(sub_rs[k]@),
                n,
            ) && grid_extends(grid_of(sub_rs[k]@), new_g) && pred(grid_of(sub_rs[k]@)),
        forall|gg: Seq<Seq<usize>>|
            tri_complete(gg, n) && tri_sudoku(gg, n) && #[trigger] grid_extends(gg, new_g) && pred(
                gg,
            ) ==> tables_contain(sub_rs, gg),
        tables_distinct(sub_rs),
        tables_lex_sorted(sub_rs),
    ensures
        forall|k: int|
            0 <= k < all_rs.len() ==> tri_complete(grid_of(#[trigger] all_rs[k]@), n) && tri_sudoku(
                grid_of(all_rs[k]@),
                n,
            ) && grid_extends(grid_of(all_rs[k]@), g) && pred(grid_of(all_rs[k]@)) && grid_of(
                all_rs[k]@,
            )[row][idx] < i + 1,
        forall|gg: Seq<Seq<usize>>|
            tri_complete(gg, n) && tri_sudoku(gg, n) && #[trigger] grid_extends(gg, g) && pred(gg)
                && gg[row][idx] < i + 1 ==> tables_contain(all_rs, gg),
        tables_distinct(all_rs),
        tables_lex_sorted(all_rs),
{
    assert forall|k: int| 0 <= k < sub_rs.len() implies grid_extends(
        grid_of(#[trigger] sub_rs[k]@),
        g,
    ) && grid_of(sub_rs[k]@)[row][idx] == i by {
        let l = grid_of(sub_rs[k]@);
        assert forall|x: int, y: int|
            0 <= x < g.len() && 0 <= y < g[x].len() implies l[x][y] == #[trigger] g[x][y] by {
            if x == row {
                assert(y < new_g[x].len());
                assert(new_g[x][y] == g[x][y]);
                assert(l[x][y] == new_g[x][y]);
            } else {
                assert(new_g[x] == g[x]);
                assert(y < new_g[x].len());
                assert(l[x][y] == new_g[x][y]);
            }
        }
        assert(idx < new_g[row].len());
        assert(l[row][idx] == new_g[row][idx]);
        assert(new_g[row][idx] == i);
    }
    assert forall|k: int| 0 <= k < all_rs.len() implies tri_complete(
        grid_of(#[trigger] all_rs[k]@),
        n,
    ) && tri_sudoku(grid_of(all_rs[k]@), n) && grid_extends(grid_of(all_rs[k]@), g) && pred(
        grid_of(all_rs[k]@),
    ) && grid_of(all_rs[k]@)[row][idx] < i + 1 by {
        if k < old_rs.len() {
            assert(all_rs[k] == old_rs[k]);
        } else {
            assert(all_rs[k] == sub_rs[k - old_rs.len()]);
        }
    }
    assert forall|gg: Seq<Seq<usize>>|
        tri_complete(gg, n) && tri_sudoku(gg, n) && #[trigger] grid_extends(gg, g) && pred(gg)
            && gg[row][idx] < i + 1 implies tables_contain(all_rs, gg) by {
        if gg[row][idx] < i {
            let k = choose|k: int| 0 <= k < old_rs.len() && grid_of(old_rs[k]@) == gg;
            assert(grid_of(all_rs[k]@) == gg);
        } else {
            assert(grid_extends(gg, new_g)) by {
                assert forall|x: int, y: int|
                    0 <= x < new_g.len() && 0 <= y < new_g[x].len() implies gg[x][y]
                        == #[trigger] new_g[x][y] by {
                    if x == row && y == idx {
                        assert(new_g[x][y] == i);
                    } else if x == row {
                        assert(y < idx);
                        if row < g.len() {
                            assert(new_g[x][y] == g[x][y]);
                        } else {
                            assert(false);
                        }
                    } else {
                        assert(new_g[x] == g[x]);
                    }
                }
            }
            let k = choose|k: int| 0 <= k < sub_rs.len() && grid_of(sub_rs[k]@) == gg;
            assert(grid_of(all_rs[old_rs.len() + k]@) == gg);
        }
    }
    assert forall|k1: int, k2: int|
        0 <= k1 < k2 < all_rs.len() implies grid_of(all_rs[k1]@) != grid_of(all_rs[k2]@)
        && grid_lex_lt(grid_of(all_rs[k1]@), grid_of(all_rs[k2]@)) by {
        if k1 < old_rs.len() && k2 >= old_rs.len() {
            assert(all_rs[k1] == old_rs[k1]);
            assert(all_rs[k2] == sub_rs[k2 - old_rs.len()]);
            let l1 = grid_of(all_rs[k1]@);
            let l2 = grid_of(all_rs[k2]@);
            assert(l1[row][idx] < i);
            assert(l2[row][idx] == i);
            // Every cell before (row, idx) is filled in the prefix.
            assert forall|i2: int, j2: int|
                #![trigger l1[i2][j2]]
                0 <= i2 < l1.len() && 0 <= j2 < l1[i2].len() && cell_before(row, idx, i2, j2)
                    implies i2 < g.len() && j2 < g[i2].len() by {
                if idx == 0 {
                    assert(i2 < row);
                    if i2 < g.len() - 1 {
                        assert(g[i2].len() == n - i2);
                        assert(l1[i2].len() == n - i2);
                    } else {
                        assert(g[i2] == g.last());
                        assert(l1[i2].len() == n - i2);
                    }
                } else {
                    if i2 < row {
                        assert(g[i2].len() == n - i2);
                        assert(l1[i2].len() == n - i2);
                    } else {
                        assert(j2 < idx);
                        assert(idx == g[row].len());
                    }
                }
            }
            assert(idx < l1[row].len()) by {
                assert(l1[row].len() == n - row);
            }
            assert(idx < l2[row].len()) by {
                assert(l2[row].len() == n - row);
            }
            lemma_grid_lex_branch(l1, l2, g, row, idx);
        } else if k1 >= old_rs.len() {
            assert(all_rs[k1] == sub_rs[k1 - old_rs.len()]);
            assert(all_rs[k2] == sub_rs[k2 - old_rs.len()]);
            assert(grid_lex_lt(
                grid_of(sub_rs[k1 - old_rs.len()]@),
                grid_of(sub_rs[k2 - old_rs.len()]@),
            ));
        } else {
            assert(all_rs[k1] == old_rs[k1]);
            assert(all_rs[k2] == old_rs[k2]);
        }
    }
}

// ---------------------------------------------------------------------------
// The backtracking generator, naive variant: associativity is checked only
// on completed tables.
// ---------------------------------------------------------------------------

/// Extends a valid triangular prefix, cell by cell, to every complete table
/// satisfying the Latin condition and the obligation list (dispatched on
/// whether 0 is its own square), by trying each value at the next free
/// cell.  The tables come out in strictly increasing row-major order of
/// their stored rows.
pub fn group_generation_recursion(table: &Vec<Vec<usize>>, n: usize) -> (result: Vec<
    Vec<Vec<usize>>,
>)
    requires
        tri_partial_wf(grid_of(table@), n as int),
        tri_sudoku(grid_of(table@), n as int),
    ensures
        forall|k: int|
            0 <= k < result@.len() ==> tri_complete(grid_of(#[trigger] result@[k]@), n as int)
                && tri_sudoku(grid_of(result@[k]@), n as int) && grid_extends(
                grid_of(result@[k]@),
                grid_of(table@),
            ) && tri_list_sat(grid_of(result@[k]@), n as int, grid_of(result@[k]@)[0][0] == 0),
        forall|gg: Seq<Seq<usize>>|
            tri_complete(gg, n as int) && tri_sudoku(gg, n as int) && #[trigger] grid_extends(
                gg,
                grid_of(table@),
            ) && tri_list_sat(gg, n as int, gg[0][0] == 0) ==> tables_contain(result@, gg),
        tables_distinct(result@),
        tables_lex_sorted(result@),
    decreases n - table@.len(), n - table@.last()@.len(),
{
    let ghost g = grid_of(table@);
    let ghost n_spec = n as int;
    let ghost pred = |gg: Seq<Seq<usize>>| tri_list_sat(gg, n_spec, gg[0][0] == 0);
    let tlen = table.len();

    proof {
        assert forall|q: int| 0 <= q < g.len() implies #[trigger] table@[q]@.len()
            == g[q].len() by {
            assert(g[q] == table@[q]@);
        }
    }

    if tlen == n {
        // The prefix is already a complete table: keep it exactly when it
        // passes the associativity obligations.
        proof {
            assert(tri_complete(g, n_spec)) by {
                assert forall|i2: int| 0 <= i2 < n implies #[trigger] g[i2].len() == n - i2 by {
                    if i2 == n - 1 {
                        assert(g.last().len() <= n_spec - (g.len() - 1));
                        assert(g.last().len() >= 1);
                    }
                }
            }
        }
        if is_group_associative(table) {
            let mut result: Vec<Vec<Vec<usize>>> = Vec::new();
            let cp = clone_grid(table);
            proof {
                assert(grid_of(cp@) =~= g);
            }
            result.push(cp);
            proof {
                assert(grid_of(result@[0]@) == g);
                assert(grid_extends(g, g));
                assert forall|gg: Seq<Seq<usize>>|
                    tri_complete(gg, n_spec) && tri_sudoku(gg, n_spec) && #[trigger] grid_extends(
                        gg,
                        g,
                    ) && tri_list_sat(gg, n_spec, gg[0][0] == 0) implies tables_contain(
                    result@,
                    gg,
                ) by {
                    lemma_complete_extends_eq(gg, g, n_spec);
                    assert(grid_of(result@[0]@) == gg);
                }
            }
            return result;
        }
        let result: Vec<Vec<Vec<usize>>> = Vec::new();
        proof {
            assert forall|gg: Seq<Seq<usize>>|
                tri_complete(gg, n_spec) && tri_sudoku(gg, n_spec) && #[trigger] grid_extends(
                    gg,
                    g,
                ) && tri_list_sat(gg, n_spec, gg[0][0] == 0) implies tables_contain(
                result@,
                gg,
            ) by {
                lemma_complete_extends_eq(gg, g, n_spec);
            }
        }
        return result;
    }

    let last_len = table[tlen - 1].len();
    let mut result: Vec<Vec<Vec<usize>>> = Vec::new();

    if last_len == n - tlen + 1 {
        // The last row is full: the next cell opens a new row, on the
        // diagonal.
        let column = tlen;
        let mut i: usize = 0;
        while i < n
            invariant
                g == grid_of(table@),
                n_spec == n as int,
                pred == (|gg: Seq<Seq<usize>>| tri_list_sat(gg, n_spec, gg[0][0] == 0)),
                tri_partial_wf(g, n_spec),
                tri_sudoku(g, n_spec),
                tlen == g.len(),
                tlen < n,
                table@.len() == tlen,
                column == tlen,
                g.last().len() == n_spec - (g.len() - 1),
                forall|q: int| 0 <= q < g.len() ==> #[trigger] table@[q]@.len() == g[q].len(),
                i <= n,
                forall|k: int|
                    0 <= k < result@.len() ==> tri_complete(
                        grid_of(#[trigger] result@[k]@),
                        n_spec,
                    ) && tri_sudoku(grid_of(result@[k]@), n_spec) && grid_extends(
                        grid_of(result@[k]@),
                        g,
                    ) && pred(grid_of(result@[k]@)) && grid_of(result@[k]@)[tlen as int][0] < i,
                forall|gg: Seq<Seq<usize>>|
                    tri_complete(gg, n_spec) && tri_sudoku(gg, n_spec) && #[trigger] grid_extends(
                        gg,
                        g,
                    ) && pred(gg) && gg[tlen as int][0] < i ==> tables_contain(result@, gg),
                tables_distinct(result@),
                tables_lex_sorted(result@),
            decreases n - i,
        {
            proof {
                assert forall|j: int| 0 <= j < tlen implies column - j
                    < #[trigger] table@[j]@.len() by {
                    if j < tlen - 1 {
                        assert(g[j].len() == n - j);
                    } else {
                        assert(g[j].len() == n_spec - (g.len() - 1));
                    }
                }
            }
            if !upper_col_contains(table, tlen, column, i) {
                let mut working_table = clone_grid(table);
                let mut newrow: Vec<usize> = Vec::new();
                newrow.push(i);
                working_table.push(newrow);
                let ghost new_g = grid_of(working_table@);
                proof {
                    assert(new_g =~= g.push(seq![i]));
                    assert forall|j: int| 0 <= j < g.len() implies #[trigger] g[j][g.len() - j]
                        != i by {
                        assert(table@[j]@[column - j] != i);
                        assert(g[j] == table@[j]@);
                    }
                    lemma_sudoku_push_row(g, new_g, n_spec, i);
                }
                let mut sub = group_generation_recursion(&working_table, n);
                let ghost old_rs = result@;
                let ghost sub_rs = sub@;
                result.append(&mut sub);
                proof {
                    assert(new_g[tlen as int] == seq![i]);
                    lemma_tri_branch_append(
                        g,
                        new_g,
                        old_rs,
                        sub_rs,
                        result@,
                        n_spec,
                        tlen as int,
                        0,
                        i,
                        pred,
                    );
                }
            } else {
                proof {
                    let c = column as int;
                    assert forall|gg: Seq<Seq<usize>>|
                        tri_complete(gg, n_spec) && tri_sudoku(gg, n_spec)
                            && #[trigger] grid_extends(gg, g) && pred(gg) && gg[tlen as int][0] < i
                            + 1 implies tables_contain(result@, gg) by {
                        if gg[tlen as int][0] == i {
                            let j = choose|j: int|
                                0 <= j < tlen && #[trigger] table@[j]@[column - j] == i;
                            assert(g[j] == table@[j]@);
                            assert(g[j][c - j] == i);
                            assert(gg[j][c - j] == i);
                            assert(gg[j].len() == n - j);
                            assert(tri_get(gg, c, j) == Option::Some(i));
                            assert(gg[c].len() == n - c);
                            assert(tri_get(gg, c, c) == Option::Some(gg[c][0]));
                            assert(false);
                        }
                    }
                }
            }
            i = i + 1;
        }
        proof {
            assert forall|gg: Seq<Seq<usize>>|
                tri_complete(gg, n_spec) && tri_sudoku(gg, n_spec) && #[trigger] grid_extends(
                    gg,
                    g,
                ) && tri_list_sat(gg, n_spec, gg[0][0] == 0) implies tables_contain(
                result@,
                gg,
            ) by {
                assert(gg[tlen as int].len() == n - tlen);
                assert(gg[tlen as int][0] < n);
                assert(pred(gg));
            }
        }
        result
    } else {
        // Extend the last row with one more cell.
        let row = tlen - 1;
        let column = last_len + tlen - 1;
        proof {
            assert(g[row as int].len() == last_len);
            assert(last_len < n - row);
            assert(column < n);
        }
        let mut i: usize = 0;
        while i < n
            invariant
                g == grid_of(table@),
                n_spec == n as int,
                pred == (|gg: Seq<Seq<usize>>| tri_list_sat(gg, n_spec, gg[0][0] == 0)),
                tri_partial_wf(g, n_spec),
                tri_sudoku(g, n_spec),
                tlen == g.len(),
                tlen <= n,
                table@.len() == tlen,
                row == tlen - 1,
                g[row as int].len() == last_len,
                1 <= last_len,
                last_len < n - row,
                column == last_len + tlen - 1,
                column < n,
                forall|q: int| 0 <= q < g.len() ==> #[trigger] table@[q]@.len() == g[q].len(),
                i <= n,
                forall|k: int|
                    0 <= k < result@.len() ==> tri_complete(
                        grid_of(#[trigger] result@[k]@),
                        n_spec,
                    ) && tri_sudoku(grid_of(result@[k]@), n_spec) && grid_extends(
                        grid_of(result@[k]@),
                        g,
                    ) && pred(grid_of(result@[k]@)) && grid_of(result@[k]@)[row as int][last_len as int] < i,
                forall|gg: Seq<Seq<usize>>|
                    tri_complete(gg, n_spec) && tri_sudoku(gg, n_spec) && #[trigger] grid_extends(
                        gg,
                        g,
                    ) && pred(gg) && gg[row as int][last_len as int] < i ==> tables_contain(
                        result@,
                        gg,
                    ),
                tables_distinct(result@),
                tables_lex_sorted(result@),
            decreases n - i,
        {
            proof {
                assert forall|j: int| 0 <= j < row implies row - j < #[trigger] table@[j]@.len()
                    && column - j < table@[j]@.len() by {
                    assert(g[j].len() == n - j);
                }
                assert(g[row as int] == table@[row as int]@);
            }
            let in_row = contains_val(&table[row], i);
            let in_col_row = upper_col_contains(table, row, row, i);
            let in_col_column = upper_col_contains(table, row, column, i);
            if !in_row && !in_col_row && !in_col_column {
                let mut working_table = clone_grid(table);
                let mut lastrow = clone_row(&table[row]);
                lastrow.push(i);
                working_table[row] = lastrow;
                let ghost new_g = grid_of(working_table@);
                proof {
                    assert(new_g =~= g.update(row as int, g[row as int].push(i)));
                    assert forall|j: int| 0 <= j < row implies #[trigger] g[j][row - j] != i by {
                        assert(table@[j]@[row - j] != i);
                        assert(g[j] == table@[j]@);
                    }
                    assert forall|j: int|
                        0 <= j < row implies #[trigger] g[j][row + last_len - j] != i by {
                        assert(table@[j]@[column - j] != i);
                        assert(g[j] == table@[j]@);
                    }
                    lemma_sudoku_extend_row(g, new_g, n_spec, i, row as int, last_len as int);
                }
                let mut sub = group_generation_recursion(&working_table, n);
                let ghost old_rs = result@;
                let ghost sub_rs = sub@;
                result.append(&mut sub);
                proof {
                    assert(new_g[row as int] == g[row as int].push(i));
                    lemma_tri_branch_append(
                        g,
                        new_g,
                        old_rs,
                        sub_rs,
                        result@,
                        n_spec,
                        row as int,
                        last_len as int,
                        i,
                        pred,
                    );
                }
            } else {
                proof {
                    let r = row as int;
                    let c = column as int;
                    let d = last_len as int;
                    assert forall|gg: Seq<Seq<usize>>|
                        tri_complete(gg, n_spec) && tri_sudoku(gg, n_spec)
                            && #[trigger] grid_extends(gg, g) && pred(gg) && gg[r][d] < i
                            + 1 implies tables_contain(result@, gg) by {
                        if gg[r][d] == i {
                            assert(gg[r].len() == n - r);
                            assert(tri_get(gg, r, c) == Option::Some(gg[r][d]));
                            assert(tri_get(gg, c, r) == Option::Some(gg[r][d]));
                            if in_row {
                                let y = choose|y: int|
                                    0 <= y < g[r].len() && #[trigger] g[r][y] == i;
                                assert(gg[r][y] == i);
                                assert(tri_get(gg, r, r + y) == Option::Some(i));
                                assert(r + y < c);
                                assert(false);
                            } else if in_col_row {
                                let j = choose|j: int|
                                    0 <= j < row && #[trigger] table@[j]@[row - j] == i;
                                assert(g[j] == table@[j]@);
                                assert(gg[j][r - j] == i);
                                assert(gg[j].len() == n - j);
                                assert(tri_get(gg, r, j) == Option::Some(i));
                                assert(false);
                            } else {
                                let j = choose|j: int|
                                    0 <= j < row && #[trigger] table@[j]@[column - j] == i;
                                assert(g[j] == table@[j]@);
                                assert(gg[j][c - j] == i);
                                assert(gg[j].len() == n - j);
                                assert(tri_get(gg, c, j) == Option::Some(i));
                                assert(false);
                            }
                        }
                    }
                }
            }
            i = i + 1;
        }
        proof {
            assert forall|gg: Seq<Seq<usize>>|
                tri_complete(gg, n_spec) && tri_sudoku(gg, n_spec) && #[trigger] grid_extends(
                    gg,
                    g,
                ) && tri_list_sat(gg, n_spec, gg[0][0] == 0) implies tables_contain(
                result@,
                gg,
            ) by {
                assert(gg[row as int].len() == n - row);
                assert(gg[row as int][last_len as int] < n);
                assert(pred(gg));
            }
        }
        result
    }
}

/// The one-cell prefix [[i]] is well formed and Latin.
proof fn lemma_single_cell_prefix(g: Seq<Seq<usize>>, n: int, i: usize)
    requires
        n >= 1,
        i < n,
        g == seq![seq![i]],
    ensures
        tri_partial_wf(g, n),
        tri_sudoku(g, n),
{
    assert(g.last() == seq![i]);
    assert forall|a: int, y1: int, y2: int|
        0 <= a < n && 0 <= y1 < y2 < n && #[trigger] tri_get(g, a, y1) is Some && #[trigger] tri_get(
            g,
            a,
            y2,
        ) is Some implies tri_get(g, a, y1) != tri_get(g, a, y2) by {
        assert(tri_get(g, a, y1) is Some ==> a == 0 && y1 == 0);
        assert(tri_get(g, a, y2) is Some ==> a == 0 && y2 == 0);
    }
}

/// Generates every complete triangular table of order n that satisfies the
/// Latin condition and its obligation list, in strictly increasing
/// row-major order — in particular grouped by the value of 0*0 ascending.
pub fn generate_all_groups(n: usize) -> (work: Vec<Vec<Vec<usize>>>)
    requires
        n >= 1,
    ensures
        forall|k: int|
            0 <= k < work@.len() ==> tri_complete(grid_of(#[trigger] work@[k]@), n as int)
                && tri_sudoku(grid_of(work@[k]@), n as int) && tri_list_sat(
                grid_of(work@[k]@),
                n as int,
                grid_of(work@[k]@)[0][0] == 0,
            ),
        forall|gg: Seq<Seq<usize>>|
            #[trigger] tri_complete(gg, n as int) && tri_sudoku(gg, n as int) && tri_list_sat(
                gg,
                n as int,
                gg[0][0] == 0,
            ) ==> tables_contain(work@, gg),
        tables_distinct(work@),
        tables_lex_sorted(work@),
{
    let ghost n_spec = n as int;
    let mut work: Vec<Vec<Vec<usize>>> = Vec::new();

    let mut i: usize = 0;
    while i < n
        invariant
            n_spec == n as int,
            n >= 1,
            i <= n,
            forall|k: int|
                0 <= k < work@.len() ==> tri_complete(grid_of(#[trigger] work@[k]@), n_spec)
                    && tri_sudoku(grid_of(work@[k]@), n_spec) && tri_list_sat(
                    grid_of(work@[k]@),
                    n_spec,
                    grid_of(work@[k]@)[0][0] == 0,
                ) && grid_of(work@[k]@)[0][0] < i,
            forall|gg: Seq<Seq<usize>>|
                #[trigger] tri_complete(gg, n_spec) && tri_sudoku(gg, n_spec) && tri_list_sat(
                    gg,
                    n_spec,
                    gg[0][0] == 0,
                ) && gg[0][0] < i ==> tables_contain(work@, gg),
            tables_distinct(work@),
            tables_lex_sorted(work@),
        decreases n - i,
    {
        let mut row0: Vec<usize> = Vec::new();
        row0.push(i);
        let mut working_table: Vec<Vec<usize>> = Vec::new();
        working_table.push(row0);
        let ghost start = grid_of(working_table@);
        proof {
            assert(start =~= seq![seq![i]]);
            lemma_single_cell_prefix(start, n_spec, i);
        }
        let mut sub = group_generation_recursion(&working_table, n);
        let ghost old_rs = work@;
        let ghost sub_rs = sub@;
        work.append(&mut sub);
        proof {
            assert forall|k: int| 0 <= k < sub_rs.len() implies grid_of(#[trigger] sub_rs[k]@)[0][0]
                == i by {
                assert(grid_extends(grid_of(sub_rs[k]@), start));
                assert(start[0][0] == i);
            }
            assert forall|k: int| 0 <= k < work@.len() implies tri_complete(
                grid_of(#[trigger] work@[k]@),
                n_spec,
            ) && tri_sudoku(grid_of(work@[k]@), n_spec) && tri_list_sat(
                grid_of(work@[k]@),
                n_spec,
                grid_of(work@[k]@)[0][0] == 0,
            ) && grid_of(work@[k]@)[0][0] < i + 1 by {
                if k < old_rs.len() {
                    assert(work@[k] == old_rs[k]);
                } else {
                    assert(work@[k] == sub_rs[k - old_rs.len()]);
                }
            }
            assert forall|gg: Seq<Seq<usize>>|
                #[trigger] tri_complete(gg, n_spec) && tri_sudoku(gg, n_spec) && tri_list_sat(
                    gg,
                    n_spec,
                    gg[0][0] == 0,
                ) && gg[0][0] < i + 1 implies tables_contain(work@, gg) by {
                if gg[0][0] < i {
                    let k = choose|k: int| 0 <= k < old_rs.len() && grid_of(old_rs[k]@) == gg;
                    assert(grid_of(work@[k]@) == gg);
                } else {
                    assert(grid_extends(gg, start)) by {
                        assert(start[0][0] == i);
                        assert(gg[0][0] == i);
                    }
                    let k = choose|k: int| 0 <= k < sub_rs.len() && grid_of(sub_rs[k]@) == gg;
                    assert(grid_of(work@[old_rs.len() + k]@) == gg);
                }
            }
            assert forall|k1: int, k2: int|
                0 <= k1 < k2 < work@.len() implies grid_of(work@[k1]@) != grid_of(work@[k2]@)
                && grid_lex_lt(grid_of(work@[k1]@), grid_of(work@[k2]@)) by {
                if k1 < old_rs.len() && k2 >= old_rs.len() {
                    assert(work@[k1] == old_rs[k1]);
                    assert(work@[k2] == sub_rs[k2 - old_rs.len()]);
                    let l1 = grid_of(work@[k1]@);
                    let l2 = grid_of(work@[k2]@);
                    assert(l1[0][0] < i);
                    assert(l2[0][0] == i);
                    assert(l1[0].len() == n);
                    assert(l2[0].len() == n);
                    assert(grid_extends(l1, Seq::<Seq<usize>>::empty()));
                    assert(grid_extends(l2, Seq::<Seq<usize>>::empty()));
                    lemma_grid_lex_branch(l1, l2, Seq::<Seq<usize>>::empty(), 0, 0);
                } else if k1 >= old_rs.len() {
                    assert(work@[k1] == sub_rs[k1 - old_rs.len()]);
                    assert(work@[k2] == sub_rs[k2 - old_rs.len()]);
                    assert(grid_lex_lt(
                        grid_of(sub_rs[k1 - old_rs.len()]@),
                        grid_of(sub_rs[k2 - old_rs.len()]@),
                    ));
                } else {
                    assert(work@[k1] == old_rs[k1]);
                    assert(work@[k2] == old_rs[k2]);
                }
            }
        }
        i = i + 1;
    }
    proof {
        assert forall|gg: Seq<Seq<usize>>|
            #[trigger] tri_complete(gg, n_spec) && tri_sudoku(gg, n_spec) && tri_list_sat(
                gg,
                n_spec,
                gg[0][0] == 0,
            ) implies tables_contain(work@, gg) by {
            assert(gg[0].len() == n);
            assert(gg[0][0] < n);
        }
    }
    work
}

/// Generates every such table whose first row fixes 0 as the identity —
/// 0*y == y for every y — in strictly increasing row-major order.
pub fn generate_all_sudocurity_groups(n: usize) -> (work: Vec<Vec<Vec<usize>>>)
    requires
        n >= 1,
    ensures
        forall|k: int|
            0 <= k < work@.len() ==> tri_complete(grid_of(#[trigger] work@[k]@), n as int)
                && tri_sudoku(grid_of(work@[k]@), n as int) && grid_of(work@[k]@)[0]
                == identity_perm(n as int) && tri_list_sat(grid_of(work@[k]@), n as int, true),
        forall|gg: Seq<Seq<usize>>|
            #[trigger] tri_complete(gg, n as int) && tri_sudoku(gg, n as int) && gg[0]
                == identity_perm(n as int) && tri_list_sat(gg, n as int, true) ==> tables_contain(
                work@,
                gg,
            ),
        tables_distinct(work@),
        tables_lex_sorted(work@),
{
    let ghost n_spec = n as int;
    let mut v: Vec<usize> = Vec::new();
    let mut j: usize = 0;
    while j < n
        invariant
            j <= n,
            v@.len() == j,
            forall|q: int| 0 <= q < j ==> #[trigger] v@[q] == q as usize,
        decreases n - j,
    {
        v.push(j);
        j = j + 1;
    }
    proof {
        assert(v@ =~= identity_perm(n_spec));
    }
    let mut working_table: Vec<Vec<usize>> = Vec::new();
    working_table.push(v);
    let ghost start = grid_of(working_table@);
    proof {
        assert(start.len() == 1);
        assert(start[0] == identity_perm(n_spec));
        assert(start.last() == identity_perm(n_spec));
        assert(tri_partial_wf(start, n_spec)) by {
            assert forall|q: int| 0 <= q < n implies #[trigger] identity_perm(n_spec)[q]
                < n by {}
        }
        assert(tri_sudoku(start, n_spec)) by {
            assert forall|a: int, y1: int, y2: int|
                0 <= a < n && 0 <= y1 < y2 < n && #[trigger] tri_get(start, a, y1) is Some
                    && #[trigger] tri_get(start, a, y2) is Some implies tri_get(start, a, y1)
                != tri_get(start, a, y2) by {
                if a == 0 {
                    assert(tri_get(start, a, y1) == Option::Some(identity_perm(n_spec)[y1]));
                    assert(tri_get(start, a, y2) == Option::Some(identity_perm(n_spec)[y2]));
                } else {
                    assert(tri_get(start, a, y1) is Some ==> y1 == 0);
                    assert(tri_get(start, a, y2) is Some ==> y2 == 0);
                }
            }
        }
    }
    let mut work = group_generation_recursion(&working_table, n);
    proof {
        assert forall|k: int| 0 <= k < work@.len() implies grid_of(#[trigger] work@[k]@)[0]
            == identity_perm(n_spec) && tri_list_sat(grid_of(work@[k]@), n_spec, true) by {
            let gg = grid_of(work@[k]@);
            assert(grid_extends(gg, start));
            assert forall|q: int| 0 <= q < n implies gg[0][q] == identity_perm(n_spec)[q] by {
                assert(gg[0][q] == start[0][q]);
            }
            assert(gg[0].len() == n);
            assert(gg[0] =~= identity_perm(n_spec));
            assert(gg[0][0] == 0);
        }
        assert forall|gg: Seq<Seq<usize>>|
            #[trigger] tri_complete(gg, n_spec) && tri_sudoku(gg, n_spec) && gg[0]
                == identity_perm(n_spec) && tri_list_sat(gg, n_spec, true) implies tables_contain(
            work@,
            gg,
        ) by {
            assert(grid_extends(gg, start)) by {
                assert forall|x: int, y: int|
                    0 <= x < start.len() && 0 <= y < start[x].len() implies gg[x][y]
                        == #[trigger] start[x][y] by {
                    assert(gg[0][y] == identity_perm(n_spec)[y]);
                }
            }
            assert(gg[0][0] == 0);
        }
    }
    work
}

// ---------------------------------------------------------------------------
// The backtracking generator with incremental pruning: obligations are
// tested after every placement, settled ones dropped, failing ones cutting
// the branch at once.
// ---------------------------------------------------------------------------

/// Every obligation of the carried list is settled true in the table.
pub open spec fn rem_sat(gg: Seq<Seq<usize>>, rem: Seq<[usize; 3]>) -> bool {
    forall|k: int| 0 <= k < rem.len() ==> #[trigger] trip_settled(gg, rem[k])
}

/// On a complete table, a carried obligation list in range is settled true
/// exactly when the direct associativity readings hold.
proof fn lemma_rem_sat_complete(gg: Seq<Seq<usize>>, n: int, rem: Seq<[usize; 3]>)
    requires
        tri_complete(gg, n),
        forall|k: int|
            0 <= k < rem.len() ==> #[trigger] rem[k]@[0] < n && rem[k]@[1] < n && rem[k]@[2] < n,
    ensures
        rem_sat(gg, rem) == (forall|k: int|
            0 <= k < rem.len() ==> #[trigger] tri_assoc_at(
                gg,
                rem[k]@[0] as int,
                rem[k]@[1] as int,
                rem[k]@[2] as int,
            )),
{
    assert forall|k: int| 0 <= k < rem.len() implies #[trigger] trip_settled(gg, rem[k])
        == tri_assoc_at(gg, rem[k]@[0] as int, rem[k]@[1] as int, rem[k]@[2] as int) by {
        lemma_test_complete(gg, n, rem[k]@[0] as int, rem[k]@[1] as int, rem[k]@[2] as int);
    }
    if rem_sat(gg, rem) {
        assert forall|k: int| 0 <= k < rem.len() implies #[trigger] tri_assoc_at(
            gg,
            rem[k]@[0] as int,
            rem[k]@[1] as int,
            rem[k]@[2] as int,
        ) by {
            assert(trip_settled(gg, rem[k]));
        }
    } else {
        let k = choose|k: int| 0 <= k < rem.len() && !#[trigger] trip_settled(gg, rem[k]);
        assert(!tri_assoc_at(gg, rem[k]@[0] as int, rem[k]@[1] as int, rem[k]@[2] as int));
    }
}

/// For a complete table, carrying the full obligation list of an order is
/// the same as the obligation property itself.
proof fn lemma_rem_sat_iff_list_sat(
    gg: Seq<Seq<usize>>,
    n: int,
    zero_identity: bool,
    trips: Seq<[usize; 3]>,
)
    requires
        tri_complete(gg, n),
        forall|k: int|
            0 <= k < trips.len() ==> obligation(
                n,
                zero_identity,
                #[trigger] trips[k]@[0] as int,
                trips[k]@[1] as int,
                trips[k]@[2] as int,
            ),
        forall|a: int, b: int, c: int|
            #[trigger] obligation(n, zero_identity, a, b, c) ==> trip_in(trips, a, b, c),
    ensures
        rem_sat(gg, trips) == tri_list_sat(gg, n, zero_identity),
{
    assert forall|k: int| 0 <= k < trips.len() implies #[trigger] trips[k]@[0] < n
        && trips[k]@[1] < n && trips[k]@[2] < n by {
        assert(obligation(
            n,
            zero_identity,
            trips[k]@[0] as int,
            trips[k]@[1] as int,
            trips[k]@[2] as int,
        ));
    }
    lemma_rem_sat_complete(gg, n, trips);
    if forall|k: int|
        0 <= k < trips.len() ==> #[trigger] tri_assoc_at(
            gg,
            trips[k]@[0] as int,
            trips[k]@[1] as int,
            trips[k]@[2] as int,
        ) {
        assert forall|a: int, b: int, c: int|
            obligation(n, zero_identity, a, b, c) implies #[trigger] tri_assoc_at(gg, a, b, c) by {
            assert(trip_in(trips, a, b, c));
            let k = choose|k: int|
                0 <= k < trips.len() && #[trigger] trips[k]@[0] == a && trips[k]@[1] == b
                    && trips[k]@[2] == c;
            assert(tri_assoc_at(
                gg,
                trips[k]@[0] as int,
                trips[k]@[1] as int,
                trips[k]@[2] as int,
            ));
        }
    } else {
        let k = choose|k: int|
            0 <= k < trips.len() && !#[trigger] tri_assoc_at(
                gg,
                trips[k]@[0] as int,
                trips[k]@[1] as int,
                trips[k]@[2] as int,
            );
        assert(!tri_list_sat(gg, n, zero_identity));
    }
}

/// Extends a valid triangular prefix to every complete Latin table settling
/// each carried obligation true, in strictly increasing row-major order.
/// After every placement the remaining obligations are tested: a failing
/// one cuts the branch at once, a settled one is dropped and never tested
/// again.
pub fn group_generation_recursion_new(
    table: &Vec<Vec<usize>>,
    n: usize,
    remaining_associativity_checks: &Vec<[usize; 3]>,
) -> (result: Vec<Vec<Vec<usize>>>)
    requires
        tri_partial_wf(grid_of(table@), n as int),
        tri_sudoku(grid_of(table@), n as int),
        forall|k: int|
            0 <= k < remaining_associativity_checks@.len()
                ==> #[trigger] remaining_associativity_checks@[k]@[0] < n
                && remaining_associativity_checks@[k]@[1] < n
                && remaining_associativity_checks@[k]@[2] < n,
        forall|k: int|
            0 <= k < remaining_associativity_checks@.len() ==> spec_test_triplet(
                grid_of(table@),
                #[trigger] remaining_associativity_checks@[k]@[0] as int,
                remaining_associativity_checks@[k]@[1] as int,
                remaining_associativity_checks@[k]@[2] as int,
            ) != Option::Some(false),
    ensures
        forall|k: int|
            0 <= k < result@.len() ==> tri_complete(grid_of(#[trigger] result@[k]@), n as int)
                && tri_sudoku(grid_of(result@[k]@), n as int) && grid_extends(
                grid_of(result@[k]@),
                grid_of(table@),
            ) && rem_sat(grid_of(result@[k]@), remaining_associativity_checks@),
        forall|gg: Seq<Seq<usize>>|
            tri_complete(gg, n as int) && tri_sudoku(gg, n as int) && #[trigger] grid_extends(
                gg,
                grid_of(table@),
            ) && rem_sat(gg, remaining_associativity_checks@) ==> tables_contain(result@, gg),
        tables_distinct(result@),
        tables_lex_sorted(result@),
    decreases n - table@.len(), n - table@.last()@.len(),
{
    let ghost g = grid_of(table@);
    let ghost n_spec = n as int;
    let ghost rem = remaining_associativity_checks@;
    let ghost pred = |gg: Seq<Seq<usize>>| rem_sat(gg, rem);
    let tlen = table.len();

    proof {
        assert forall|q: int| 0 <= q < g.len() implies #[trigger] table@[q]@.len()
            == g[q].len() by {
            assert(g[q] == table@[q]@);
        }
    }

    if tlen == n {
        // Every obligation was settled on the way down, so the complete
        // table is kept with no final associativity pass.
        proof {
            assert(tri_complete(g, n_spec)) by {
                assert forall|i2: int| 0 <= i2 < n implies #[trigger] g[i2].len() == n - i2 by {
                    if i2 == n - 1 {
                        assert(g.last().len() <= n_spec - (g.len() - 1));
                        assert(g.last().len() >= 1);
                    }
                }
            }
            assert forall|k: int| 0 <= k < rem.len() implies #[trigger] trip_settled(
                g,
                rem[k],
            ) by {
                lemma_test_complete(g, n_spec, rem[k]@[0] as int, rem[k]@[1] as int, rem[k]@[2] as int);
                assert(spec_test_triplet(g, rem[k]@[0] as int, rem[k]@[1] as int, rem[k]@[2] as int)
                    != Option::Some(false));
            }
        }
        let mut result: Vec<Vec<Vec<usize>>> = Vec::new();
        let cp = clone_grid(table);
        proof {
            assert(grid_of(cp@) =~= g);
        }
        result.push(cp);
        proof {
            assert(grid_of(result@[0]@) == g);
            assert(grid_extends(g, g));
            assert forall|gg: Seq<Seq<usize>>|
                tri_complete(gg, n_spec) && tri_sudoku(gg, n_spec) && #[trigger] grid_extends(
                    gg,
                    g,
                ) && rem_sat(gg, rem) implies tables_contain(result@, gg) by {
                lemma_complete_extends_eq(gg, g, n_spec);
                assert(grid_of(result@[0]@) == gg);
            }
        }
        return result;
    }

    let last_len = table[tlen - 1].len();
    let mut result: Vec<Vec<Vec<usize>>> = Vec::new();

    if last_len == n - tlen + 1 {
        // The last row is full: the next cell opens a new row.
        let column = tlen;
        let mut i: usize = 0;
        while i < n
            invariant
                g == grid_of(table@),
                n_spec == n as int,
                rem == remaining_associativity_checks@,
                pred == (|gg: Seq<Seq<usize>>| rem_sat(gg, rem)),
                tri_partial_wf(g, n_spec),
                tri_sudoku(g, n_spec),
                forall|k: int|
                    0 <= k < rem.len() ==> #[trigger] rem[k]@[0] < n && rem[k]@[1] < n
                        && rem[k]@[2] < n,
                tlen == g.len(),
                tlen < n,
                table@.len() == tlen,
                column == tlen,
                g.last().len() == n_spec - (g.len() - 1),
                forall|q: int| 0 <= q < g.len() ==> #[trigger] table@[q]@.len() == g[q].len(),
                i <= n,
                forall|k: int|
                    0 <= k < result@.len() ==> tri_complete(
                        grid_of(#[trigger] result@[k]@),
                        n_spec,
                    ) && tri_sudoku(grid_of(result@[k]@), n_spec) && grid_extends(
                        grid_of(result@[k]@),
                        g,
                    ) && pred(grid_of(result@[k]@)) && grid_of(result@[k]@)[tlen as int][0] < i,
                forall|gg: Seq<Seq<usize>>|
                    tri_complete(gg, n_spec) && tri_sudoku(gg, n_spec) && #[trigger] grid_extends(
                        gg,
                        g,
                    ) && pred(gg) && gg[tlen as int][0] < i ==> tables_contain(result@, gg),
                tables_distinct(result@),
                tables_lex_sorted(result@),
            decreases n - i,
        {
            proof {
                assert forall|j: int| 0 <= j < tlen implies column - j
                    < #[trigger] table@[j]@.len() by {
                    if j < tlen - 1 {
                        assert(g[j].len() == n - j);
                    } else {
                        assert(g[j].len() == n_spec - (g.len() - 1));
                    }
                }
            }
            if !upper_col_contains(table, tlen, column, i) {
                let mut working_table = clone_grid(table);
                let mut newrow: Vec<usize> = Vec::new();
                newrow.push(i);
                working_table.push(newrow);
                let ghost new_g = grid_of(working_table@);
                proof {
                    assert(new_g =~= g.push(seq![i]));
                    assert forall|j: int| 0 <= j < g.len() implies #[trigger] g[j][g.len() - j]
                        != i by {
                        assert(table@[j]@[column - j] != i);
                        assert(g[j] == table@[j]@);
                    }
                    lemma_sudoku_push_row(g, new_g, n_spec, i);
                }
                if let Option::Some(remaining_checks) = check_associativity(
                    &working_table,
                    remaining_associativity_checks,
                ) {
                    let ghost v = remaining_checks@;
                    proof {
                        lemma_new_branch_requirements(new_g, n_spec, rem, v);
                    }
                    let mut sub = group_generation_recursion_new(&working_table, n, &remaining_checks);
                    let ghost old_rs = result@;
                    let ghost sub_rs = sub@;
                    result.append(&mut sub);
                    proof {
                        lemma_convert_sub(new_g, n_spec, rem, v, sub_rs);
                        assert(new_g[tlen as int] == seq![i]);
                        lemma_tri_branch_append(
                            g,
                            new_g,
                            old_rs,
                            sub_rs,
                            result@,
                            n_spec,
                            tlen as int,
                            0,
                            i,
                            pred,
                        );
                    }
                } else {
                    proof {
                        lemma_pruned_branch_empty(g, new_g, n_spec, rem, tlen as int, 0, i);
                        assert forall|gg: Seq<Seq<usize>>|
                            tri_complete(gg, n_spec) && tri_sudoku(gg, n_spec)
                                && #[trigger] grid_extends(gg, g) && pred(gg) && gg[tlen as int][0]
                                < i + 1 implies tables_contain(result@, gg) by {
                            if gg[tlen as int][0] == i {
                                assert(false);
                            }
                        }
                    }
                }
            } else {
                proof {
                    let c = column as int;
                    assert forall|gg: Seq<Seq<usize>>|
                        tri_complete(gg, n_spec) && tri_sudoku(gg, n_spec)
                            && #[trigger] grid_extends(gg, g) && pred(gg) && gg[tlen as int][0] < i
                            + 1 implies tables_contain(result@, gg) by {
                        if gg[tlen as int][0] == i {
                            let j = choose|j: int|
                                0 <= j < tlen && #[trigger] table@[j]@[column - j] == i;
                            assert(g[j] == table@[j]@);
                            assert(g[j][c - j] == i);
                            assert(gg[j][c - j] == i);
                            assert(gg[j].len() == n - j);
                            assert(tri_get(gg, c, j) == Option::Some(i));
                            assert(gg[c].len() == n - c);
                            assert(tri_get(gg, c, c) == Option::Some(gg[c][0]));
                            assert(false);
                        }
                    }
                }
            }
            i = i + 1;
        }
        proof {
            assert forall|gg: Seq<Seq<usize>>|
                tri_complete(gg, n_spec) && tri_sudoku(gg, n_spec) && #[trigger] grid_extends(
                    gg,
                    g,
                ) && rem_sat(gg, rem) implies tables_contain(result@, gg) by {
                assert(gg[tlen as int].len() == n - tlen);
                assert(gg[tlen as int][0] < n);
                assert(pred(gg));
            }
        }
        result
    } else {
        // Extend the last row with one more cell.
        let row = tlen - 1;
        let column = last_len + tlen - 1;
        proof {
            assert(g[row as int].len() == last_len);
            assert(last_len < n - row);
            assert(column < n);
        }
        let mut i: usize = 0;
        while i < n
            invariant
                g == grid_of(table@),
                n_spec == n as int,
                rem == remaining_associativity_checks@,
                pred == (|gg: Seq<Seq<usize>>| rem_sat(gg, rem)),
                tri_partial_wf(g, n_spec),
                tri_sudoku(g, n_spec),
                forall|k: int|
                    0 <= k < rem.len() ==> #[trigger] rem[k]@[0] < n && rem[k]@[1] < n
                        && rem[k]@[2] < n,
                tlen == g.len(),
                tlen <= n,
                table@.len() == tlen,
                row == tlen - 1,
                g[row as int].len() == last_len,
                1 <= last_len,
                last_len < n - row,
                column == last_len + tlen - 1,
                column < n,
                forall|q: int| 0 <= q < g.len() ==> #[trigger] table@[q]@.len() == g[q].len(),
                i <= n,
                forall|k: int|
                    0 <= k < result@.len() ==> tri_complete(
                        grid_of(#[trigger] result@[k]@),
                        n_spec,
                    ) && tri_sudoku(grid_of(result@[k]@), n_spec) && grid_extends(
                        grid_of(result@[k]@),
                        g,
                    ) && pred(grid_of(result@[k]@)) && grid_of(result@[k]@)[row as int][last_len as int] < i,
                forall|gg: Seq<Seq<usize>>|
                    tri_complete(gg, n_spec) && tri_sudoku(gg, n_spec) && #[trigger] grid_extends(
                        gg,
                        g,
                    ) && pred(gg) && gg[row as int][last_len as int] < i ==> tables_contain(
                        result@,
                        gg,
                    ),
                tables_distinct(result@),
                tables_lex_sorted(result@),
            decreases n - i,
        {
            proof {
                assert forall|j: int| 0 <= j < row implies row - j < #[trigger] table@[j]@.len()
                    && column - j < table@[j]@.len() by {
                    assert(g[j].len() == n - j);
                }
                assert(g[row as int] == table@[row as int]@);
            }
            let in_row = contains_val(&table[row], i);
            let in_col_row = upper_col_contains(table, row, row, i);
            let in_col_column = upper_col_contains(table, row, column, i);
            if !in_row && !in_col_row && !in_col_column {
                let mut working_table = clone_grid(table);
                let mut lastrow = clone_row(&table[row]);
                lastrow.push(i);
                working_table[row] = lastrow;
                let ghost new_g = grid_of(working_table@);
                proof {
                    assert(new_g =~= g.update(row as int, g[row as int].push(i)));
                    assert forall|j: int| 0 <= j < row implies #[trigger] g[j][row - j] != i by {
                        assert(table@[j]@[row - j] != i);
                        assert(g[j] == table@[j]@);
                    }
                    assert forall|j: int|
                        0 <= j < row implies #[trigger] g[j][row + last_len - j] != i by {
                        assert(table@[j]@[column - j] != i);
                        assert(g[j] == table@[j]@);
                    }
                    lemma_sudoku_extend_row(g, new_g, n_spec, i, row as int, last_len as int);
                }
                if let Option::Some(remaining_checks) = check_associativity(
                    &working_table,
                    remaining_associativity_checks,
                ) {
                    let ghost v = remaining_checks@;
                    proof {
                        lemma_new_branch_requirements(new_g, n_spec, rem, v);
                    }
                    let mut sub = group_generation_recursion_new(&working_table, n, &remaining_checks);
                    let ghost old_rs = result@;
                    let ghost sub_rs = sub@;
                    result.append(&mut sub);
                    proof {
                        lemma_convert_sub(new_g, n_spec, rem, v, sub_rs);
                        assert(new_g[row as int] == g[row as int].push(i));
                        lemma_tri_branch_append(
                            g,
                            new_g,
                            old_rs,
                            sub_rs,
                            result@,
                            n_spec,
                            row as int,
                            last_len as int,
                            i,
                            pred,
                        );
                    }
                } else {
                    proof {
                        lemma_pruned_branch_empty(
                            g,
                            new_g,
                            n_spec,
                            rem,
                            row as int,
                            last_len as int,
                            i,
                        );
                        assert forall|gg: Seq<Seq<usize>>|
                            tri_complete(gg, n_spec) && tri_sudoku(gg, n_spec)
                                && #[trigger] grid_extends(gg, g) && pred(gg)
                                && gg[row as int][last_len as int] < i + 1 implies tables_contain(
                            result@,
                            gg,
                        ) by {
                            if gg[row as int][last_len as int] == i {
                                assert(false);
                            }
                        }
                    }
                }
            } else {
                proof {
                    let r = row as int;
                    let c = column as int;
                    let d = last_len as int;
                    assert forall|gg: Seq<Seq<usize>>|
                        tri_complete(gg, n_spec) && tri_sudoku(gg, n_spec)
                            && #[trigger] grid_extends(gg, g) && pred(gg) && gg[r][d] < i
                            + 1 implies tables_contain(result@, gg) by {
                        if gg[r][d] == i {
                            assert(gg[r].len() == n - r);
                            assert(tri_get(gg, r, c) == Option::Some(gg[r][d]));
                            assert(tri_get(gg, c, r) == Option::Some(gg[r][d]));
                            if in_row {
                                let y = choose|y: int|
                                    0 <= y < g[r].len() && #[trigger] g[r][y] == i;
                                assert(gg[r][y] == i);
                                assert(tri_get(gg, r, r + y) == Option::Some(i));
                                assert(r + y < c);
                                assert(false);
                            } else if in_col_row {
                                let j = choose|j: int|
                                    0 <= j < row && #[trigger] table@[j]@[row - j] == i;
                                assert(g[j] == table@[j]@);
                                assert(gg[j][r - j] == i);
                                assert(gg[j].len() == n - j);
                                assert(tri_get(gg, r, j) == Option::Some(i));
                                assert(false);
                            } else {
                                let j = choose|j: int|
                                    0 <= j < row && #[trigger] table@[j]@[column - j] == i;
                                assert(g[j] == table@[j]@);
                                assert(gg[j][c - j] == i);
                                assert(gg[j].len() == n - j);
                                assert(tri_get(gg, c, j) == Option::Some(i));
                                assert(false);
                            }
                        }
                    }
                }
            }
            i = i + 1;
        }
        proof {
            assert forall|gg: Seq<Seq<usize>>|
                tri_complete(gg, n_spec) && tri_sudoku(gg, n_spec) && #[trigger] grid_extends(
                    gg,
                    g,
                ) && rem_sat(gg, rem) implies tables_contain(result@, gg) by {
                assert(gg[row as int].len() == n - row);
                assert(gg[row as int][last_len as int] < n);
                assert(pred(gg));
            }
        }
        result
    }
}

/// The obligations kept after a successful incremental check meet the
/// recursive call's requirements.
proof fn lemma_new_branch_requirements(
    new_g: Seq<Seq<usize>>,
    n: int,
    rem: Seq<[usize; 3]>,
    v: Seq<[usize; 3]>,
)
    requires
        forall|k: int|
            0 <= k < rem.len() ==> #[trigger] rem[k]@[0] < n && rem[k]@[1] < n && rem[k]@[2] < n,
        forall|j: int| 0 <= j < v.len() ==> #[trigger] trip_listed(rem, v[j]@),
        forall|j: int|
            0 <= j < v.len() ==> spec_test_triplet(
                new_g,
                #[trigger] v[j]@[0] as int,
                v[j]@[1] as int,
                v[j]@[2] as int,
            ) is None,
    ensures
        forall|j: int| 0 <= j < v.len() ==> #[trigger] v[j]@[0] < n && v[j]@[1] < n && v[j]@[2] < n,
        forall|j: int|
            0 <= j < v.len() ==> spec_test_triplet(
                new_g,
                #[trigger] v[j]@[0] as int,
                v[j]@[1] as int,
                v[j]@[2] as int,
            ) != Option::Some(false),
{
    assert forall|j: int| 0 <= j < v.len() implies #[trigger] v[j]@[0] < n && v[j]@[1] < n
        && v[j]@[2] < n by {
        assert(trip_listed(rem, v[j]@));
        let k = choose|k: int| 0 <= k < rem.len() && #[trigger] rem[k]@ == v[j]@;
        assert(rem[k]@[0] < n && rem[k]@[1] < n && rem[k]@[2] < n);
        assert(v[j]@[0] == rem[k]@[0] && v[j]@[1] == rem[k]@[1] && v[j]@[2] == rem[k]@[2]);
    }
}

/// A completed table from a branch settles the carried obligations of the
/// branch's parent, and any table settling the parent's obligations settles
/// the branch's own.
proof fn lemma_convert_sub(
    new_g: Seq<Seq<usize>>,
    n: int,
    rem: Seq<[usize; 3]>,
    v: Seq<[usize; 3]>,
    sub_rs: Seq<Vec<Vec<usize>>>,
)
    requires
        tri_partial_wf(new_g, n),
        forall|k: int|
            0 <= k < rem.len() ==> #[trigger] rem[k]@[0] < n && rem[k]@[1] < n && rem[k]@[2] < n,
        forall|j: int| 0 <= j < v.len() ==> #[trigger] trip_listed(rem, v[j]@),
        forall|j: int|
            0 <= j < v.len() ==> spec_test_triplet(
                new_g,
                #[trigger] v[j]@[0] as int,
                v[j]@[1] as int,
                v[j]@[2] as int,
            ) is None,
        forall|k: int|
            0 <= k < rem.len() && !(spec_test_triplet(
                new_g,
                #[trigger] rem[k]@[0] as int,
                rem[k]@[1] as int,
                rem[k]@[2] as int,
            ) == Option::Some(true)) ==> trip_listed(v, rem[k]@),
        forall|k: int|
            0 <= k < sub_rs.len() ==> tri_complete(grid_of(#[trigger] sub_rs[k]@), n) && tri_sudoku(
                grid_of(sub_rs[k]@),
                n,
            ) && grid_extends(grid_of(sub_rs[k]@), new_g) && rem_sat(grid_of(sub_rs[k]@), v),
        forall|gg: Seq<Seq<usize>>|
            tri_complete(gg, n) && tri_sudoku(gg, n) && #[trigger] grid_extends(gg, new_g)
                && rem_sat(gg, v) ==> tables_contain(sub_rs, gg),
    ensures
        forall|k: int|
            0 <= k < sub_rs.len() ==> tri_complete(grid_of(#[trigger] sub_rs[k]@), n) && tri_sudoku(
                grid_of(sub_rs[k]@),
                n,
            ) && grid_extends(grid_of(sub_rs[k]@), new_g) && rem_sat(grid_of(sub_rs[k]@), rem),
        forall|gg: Seq<Seq<usize>>|
            tri_complete(gg, n) && tri_sudoku(gg, n) && #[trigger] grid_extends(gg, new_g)
                && rem_sat(gg, rem) ==> tables_contain(sub_rs, gg),
{
    assert forall|k: int| 0 <= k < sub_rs.len() implies rem_sat(
        grid_of(#[trigger] sub_rs[k]@),
        rem,
    ) by {
        let gg = grid_of(sub_rs[k]@);
        lemma_complete_covers(gg, new_g, n);
        assert forall|k2: int| 0 <= k2 < rem.len() implies #[trigger] trip_settled(
            gg,
            rem[k2],
        ) by {
            if spec_test_triplet(new_g, rem[k2]@[0] as int, rem[k2]@[1] as int, rem[k2]@[2] as int)
                == Option::Some(true) {
                lemma_test_covers(
                    new_g,
                    gg,
                    rem[k2]@[0] as int,
                    rem[k2]@[1] as int,
                    rem[k2]@[2] as int,
                );
            } else {
                assert(trip_listed(v, rem[k2]@));
                let j = choose|j: int| 0 <= j < v.len() && #[trigger] v[j]@ == rem[k2]@;
                assert(trip_settled(gg, v[j]));
                assert(v[j]@[0] == rem[k2]@[0] && v[j]@[1] == rem[k2]@[1] && v[j]@[2]
                    == rem[k2]@[2]);
            }
        }
    }
    assert forall|gg: Seq<Seq<usize>>|
        tri_complete(gg, n) && tri_sudoku(gg, n) && #[trigger] grid_extends(gg, new_g) && rem_sat(
            gg,
            rem,
        ) implies tables_contain(sub_rs, gg) by {
        assert forall|j: int| 0 <= j < v.len() implies #[trigger] trip_settled(gg, v[j]) by {
            assert(trip_listed(rem, v[j]@));
            let k = choose|k: int| 0 <= k < rem.len() && #[trigger] rem[k]@ == v[j]@;
            assert(trip_settled(gg, rem[k]));
            assert(v[j]@[0] == rem[k]@[0] && v[j]@[1] == rem[k]@[1] && v[j]@[2] == rem[k]@[2]);
        }
        assert(rem_sat(gg, v));
    }
}

/// A branch cut by a failing obligation contains no table: the failure
/// persists into every completion.
proof fn lemma_pruned_branch_empty(
    g: Seq<Seq<usize>>,
    new_g: Seq<Seq<usize>>,
    n: int,
    rem: Seq<[usize; 3]>,
    row: int,
    idx: int,
    i: usize,
)
    requires
        tri_partial_wf(g, n),
        tri_partial_wf(new_g, n),
        0 <= row < n,
        0 <= idx < n - row,
        i < n,
        idx == 0 ==> row == g.len(),
        idx == 0 ==> g.last().len() == n - (g.len() - 1),
        idx != 0 ==> row == g.len() - 1,
        new_g.len() == if idx == 0 { g.len() + 1 } else { g.len() },
        forall|k: int| 0 <= k < g.len() && k != row ==> #[trigger] new_g[k] == g[k],
        row < g.len() ==> new_g[row] == g[row].push(i),
        row == g.len() ==> new_g[row] == seq![i],
        row < g.len() ==> idx == g[row].len(),
        exists|k: int|
            0 <= k < rem.len() && spec_test_triplet(
                new_g,
                #[trigger] rem[k]@[0] as int,
                rem[k]@[1] as int,
                rem[k]@[2] as int,
            ) == Option::Some(false),
    ensures
        forall|gg: Seq<Seq<usize>>|
            tri_complete(gg, n) && tri_sudoku(gg, n) && #[trigger] grid_extends(gg, g) && rem_sat(
                gg,
                rem,
            ) ==> gg[row][idx] != i,
{
    let k = choose|k: int|
        0 <= k < rem.len() && spec_test_triplet(
            new_g,
            #[trigger] rem[k]@[0] as int,
            rem[k]@[1] as int,
            rem[k]@[2] as int,
        ) == Option::Some(false);
    assert forall|gg: Seq<Seq<usize>>|
        tri_complete(gg, n) && tri_sudoku(gg, n) && #[trigger] grid_extends(gg, g) && rem_sat(
            gg,
            rem,
        ) implies gg[row][idx] != i by {
        if gg[row][idx] == i {
            assert(grid_extends(gg, new_g)) by {
                assert forall|x: int, y: int|
                    0 <= x < new_g.len() && 0 <= y < new_g[x].len() implies gg[x][y]
                        == #[trigger] new_g[x][y] by {
                    if x == row && y == idx {
                        assert(new_g[x][y] == i);
                    } else if x == row {
                        assert(y < idx);
                        if row < g.len() {
                            assert(new_g[x][y] == g[x][y]);
                        } else {
                            assert(false);
                        }
                    } else {
                        assert(new_g[x] == g[x]);
                    }
                }
            }
            lemma_complete_covers(gg, new_g, n);
            lemma_test_covers(
                new_g,
                gg,
                rem[k]@[0] as int,
                rem[k]@[1] as int,
                rem[k]@[2] as int,
            );
            assert(!trip_settled(gg, rem[k]));
            assert(false);
        }
    }
}

/// Against a table holding one cell, no obligation can yet fail.
proof fn lemma_single_cell_no_false(start: Seq<Seq<usize>>, n: int, i: usize, a: int, b: int, c: int)
    requires
        start == seq![seq![i]],
        0 <= a <= b <= c,
        a != c,
    ensures
        spec_test_triplet(start, a, b, c) is None,
{
    assert(start[0] == seq![i]);
    if b > a {
        assert(tri_get(start, a, b) is None);
    } else {
        if a == 0 {
            assert(tri_get(start, a, b) == Option::Some(i));
            assert(c >= 1);
            if c > i as int {
                assert(tri_get(start, i as int, c) is None);
            } else {
                assert(tri_get(start, i as int, c) is None);
            }
        } else {
            assert(tri_get(start, a, b) is None);
        }
    }
}

/// Against a prefix of the identity row and one further cell, no obligation
/// that skips element 0 can yet fail.
proof fn lemma_two_row_no_false(w: Seq<Seq<usize>>, n: int, i: usize, a: int, b: int, c: int)
    requires
        n >= 2,
        w == seq![identity_perm(n), seq![i]],
        1 <= a <= b <= c < n,
        a != c,
    ensures
        spec_test_triplet(w, a, b, c) is None,
{
    assert(w[0] == identity_perm(n));
    assert(w[1] == seq![i]);
    if b > a {
        assert(tri_get(w, a, b) is None);
    } else {
        // b == a; the only filled diagonal cell beyond row 0 is (1, 1)
        if a == 1 {
            assert(tri_get(w, a, b) == Option::Some(i));
            assert(c >= 2);
            if i == 0 {
                assert(tri_get(w, 0, c) == Option::Some(identity_perm(n)[c]));
                assert(tri_get(w, b, c) is None);
            } else {
                assert(tri_get(w, i as int, c) is None);
            }
        } else {
            assert(tri_get(w, a, b) is None);
        }
    }
}

/// Generates every complete triangular table of order n that satisfies the
/// Latin condition and the full obligation list, in strictly increasing
/// row-major order, pruning branches as soon as an obligation fails.
pub fn generate_all_groups_new(n: usize) -> (work: Vec<Vec<Vec<usize>>>)
    requires
        n >= 1,
    ensures
        forall|k: int|
            0 <= k < work@.len() ==> tri_complete(grid_of(#[trigger] work@[k]@), n as int)
                && tri_sudoku(grid_of(work@[k]@), n as int) && tri_list_sat(
                grid_of(work@[k]@),
                n as int,
                false,
            ),
        forall|gg: Seq<Seq<usize>>|
            #[trigger] tri_complete(gg, n as int) && tri_sudoku(gg, n as int) && tri_list_sat(
                gg,
                n as int,
                false,
            ) ==> tables_contain(work@, gg),
        tables_distinct(work@),
        tables_lex_sorted(work@),
{
    let ghost n_spec = n as int;
    let mut work: Vec<Vec<Vec<usize>>> = Vec::new();

    let triplets = generate_all_associativity_triplets(n, false);
    let ghost trips = triplets@;
    let ghost pred = |gg: Seq<Seq<usize>>| rem_sat(gg, trips);

    let mut i: usize = 0;
    while i < n
        invariant
            n_spec == n as int,
            n >= 1,
            i <= n,
            trips == triplets@,
            pred == (|gg: Seq<Seq<usize>>| rem_sat(gg, trips)),
            forall|k: int|
                0 <= k < trips.len() ==> obligation(
                    n_spec,
                    false,
                    #[trigger] trips[k]@[0] as int,
                    trips[k]@[1] as int,
                    trips[k]@[2] as int,
                ),
            forall|a: int, b: int, c: int|
                #[trigger] obligation(n_spec, false, a, b, c) ==> trip_in(trips, a, b, c),
            forall|k: int|
                0 <= k < work@.len() ==> tri_complete(grid_of(#[trigger] work@[k]@), n_spec)
                    && tri_sudoku(grid_of(work@[k]@), n_spec) && pred(grid_of(work@[k]@))
                    && grid_of(work@[k]@)[0][0] < i,
            forall|gg: Seq<Seq<usize>>|
                #[trigger] tri_complete(gg, n_spec) && tri_sudoku(gg, n_spec) && pred(gg) && gg[0][0]
                    < i ==> tables_contain(work@, gg),
            tables_distinct(work@),
            tables_lex_sorted(work@),
        decreases n - i,
    {
        let mut row0: Vec<usize> = Vec::new();
        row0.push(i);
        let mut working_table: Vec<Vec<usize>> = Vec::new();
        working_table.push(row0);
        let ghost start = grid_of(working_table@);
        proof {
            assert(start =~= seq![seq![i]]);
            lemma_single_cell_prefix(start, n_spec, i);
            assert forall|k: int| 0 <= k < trips.len() implies spec_test_triplet(
                start,
                #[trigger] trips[k]@[0] as int,
                trips[k]@[1] as int,
                trips[k]@[2] as int,
            ) != Option::Some(false) by {
                assert(obligation(
                    n_spec,
                    false,
                    trips[k]@[0] as int,
                    trips[k]@[1] as int,
                    trips[k]@[2] as int,
                ));
                lemma_single_cell_no_false(
                    start,
                    n_spec,
                    i,
                    trips[k]@[0] as int,
                    trips[k]@[1] as int,
                    trips[k]@[2] as int,
                );
            }
        }
        proof {
            assert forall|k: int| 0 <= k < trips.len() implies #[trigger] trips[k]@[0] < n
                && trips[k]@[1] < n && trips[k]@[2] < n by {
                assert(obligation(
                    n_spec,
                    false,
                    trips[k]@[0] as int,
                    trips[k]@[1] as int,
                    trips[k]@[2] as int,
                ));
            }
        }
        let mut sub = group_generation_recursion_new(&working_table, n, &triplets);
        let ghost old_rs = work@;
        let ghost sub_rs = sub@;
        work.append(&mut sub);
        proof {
            assert forall|k: int| 0 <= k < sub_rs.len() implies grid_of(#[trigger] sub_rs[k]@)[0][0]
                == i && grid_extends(grid_of(sub_rs[k]@), start) by {
                assert(grid_extends(grid_of(sub_rs[k]@), start));
                assert(start[0][0] == i);
            }
            assert forall|k: int| 0 <= k < work@.len() implies tri_complete(
                grid_of(#[trigger] work@[k]@),
                n_spec,
            ) && tri_sudoku(grid_of(work@[k]@), n_spec) && pred(grid_of(work@[k]@)) && grid_of(
                work@[k]@,
            )[0][0] < i + 1 by {
                if k < old_rs.len() {
                    assert(work@[k] == old_rs[k]);
                } else {
                    assert(work@[k] == sub_rs[k - old_rs.len()]);
                }
            }
            assert forall|gg: Seq<Seq<usize>>|
                #[trigger] tri_complete(gg, n_spec) && tri_sudoku(gg, n_spec) && pred(gg) && gg[0][0]
                    < i + 1 implies tables_contain(work@, gg) by {
                if gg[0][0] < i {
                    let k = choose|k: int| 0 <= k < old_rs.len() && grid_of(old_rs[k]@) == gg;
                    assert(grid_of(work@[k]@) == gg);
                } else {
                    assert(grid_extends(gg, start)) by {
                        assert(start[0][0] == i);
                        assert(gg[0][0] == i);
                    }
                    let k = choose|k: int| 0 <= k < sub_rs.len() && grid_of(sub_rs[k]@) == gg;
                    assert(grid_of(work@[old_rs.len() + k]@) == gg);
                }
            }
            assert forall|k1: int, k2: int|
                0 <= k1 < k2 < work@.len() implies grid_of(work@[k1]@) != grid_of(work@[k2]@)
                && grid_lex_lt(grid_of(work@[k1]@), grid_of(work@[k2]@)) by {
                if k1 < old_rs.len() && k2 >= old_rs.len() {
                    assert(work@[k1] == old_rs[k1]);
                    assert(work@[k2] == sub_rs[k2 - old_rs.len()]);
                    let l1 = grid_of(work@[k1]@);
                    let l2 = grid_of(work@[k2]@);
                    assert(l1[0][0] < i);
                    assert(l2[0][0] == i);
                    assert(l1[0].len() == n);
                    assert(l2[0].len() == n);
                    assert(grid_extends(l1, Seq::<Seq<usize>>::empty()));
                    assert(grid_extends(l2, Seq::<Seq<usize>>::empty()));
                    lemma_grid_lex_branch(l1, l2, Seq::<Seq<usize>>::empty(), 0, 0);
                } else if k1 >= old_rs.len() {
                    assert(work@[k1] == sub_rs[k1 - old_rs.len()]);
                    assert(work@[k2] == sub_rs[k2 - old_rs.len()]);
                    assert(grid_lex_lt(
                        grid_of(sub_rs[k1 - old_rs.len()]@),
                        grid_of(sub_rs[k2 - old_rs.len()]@),
                    ));
                } else {
                    assert(work@[k1] == old_rs[k1]);
                    assert(work@[k2] == old_rs[k2]);
                }
            }
        }
        i = i + 1;
    }
    proof {
        assert forall|k: int| 0 <= k < work@.len() implies tri_list_sat(
            grid_of(#[trigger] work@[k]@),
            n_spec,
            false,
        ) by {
            lemma_rem_sat_iff_list_sat(grid_of(work@[k]@), n_spec, false, trips);
        }
        assert forall|gg: Seq<Seq<usize>>|
            #[trigger] tri_complete(gg, n_spec) && tri_sudoku(gg, n_spec) && tri_list_sat(
                gg,
                n_spec,
                false,
            ) implies tables_contain(work@, gg) by {
            lemma_rem_sat_iff_list_sat(gg, n_spec, false, trips);
            assert(gg[0].len() == n);
            assert(gg[0][0] < n);
            assert(pred(gg));
        }
    }
    work
}

/// Generates every such table with 0 fixed as the identity, in strictly
/// increasing row-major order, pruning by the identity-skipping obligation
/// list.  The second row's first value is tried as 0 and then 2 upward: 1
/// is impossible under the Latin condition.
pub fn generate_all_sudocurity_groups_new(n: usize) -> (work: Vec<Vec<Vec<usize>>>)
    requires
        n >= 1,
    ensures
        forall|k: int|
            0 <= k < work@.len() ==> tri_complete(grid_of(#[trigger] work@[k]@), n as int)
                && tri_sudoku(grid_of(work@[k]@), n as int) && grid_of(work@[k]@)[0]
                == identity_perm(n as int) && tri_list_sat(grid_of(work@[k]@), n as int, true),
        forall|gg: Seq<Seq<usize>>|
            #[trigger] tri_complete(gg, n as int) && tri_sudoku(gg, n as int) && gg[0]
                == identity_perm(n as int) && tri_list_sat(gg, n as int, true) ==> tables_contain(
                work@,
                gg,
            ),
        tables_distinct(work@),
        tables_lex_sorted(work@),
{
    let ghost n_spec = n as int;

    if n == 1 {
        let mut row0: Vec<usize> = Vec::new();
        row0.push(0);
        let mut only: Vec<Vec<usize>> = Vec::new();
        only.push(row0);
        let ghost og = grid_of(only@);
        let mut work: Vec<Vec<Vec<usize>>> = Vec::new();
        work.push(only);
        proof {
            assert(og =~= seq![seq![0usize]]);
            lemma_single_cell_prefix(og, 1, 0);
            assert(og[0] =~= identity_perm(1));
            assert(forall|a: int, b: int, c: int| !obligation(1, true, a, b, c));
            assert(grid_of(work@[0]@) == og);
            assert forall|gg: Seq<Seq<usize>>|
                #[trigger] tri_complete(gg, n_spec) && tri_sudoku(gg, n_spec) && gg[0]
                    == identity_perm(n_spec) && tri_list_sat(gg, n_spec, true)
                implies tables_contain(work@, gg) by {
                assert(gg.len() == 1);
                assert(gg[0] == identity_perm(1));
                assert(identity_perm(1) == seq![0usize]) by {
                    assert(identity_perm(1) =~= seq![0usize]);
                }
                assert(gg =~= og);
                assert(grid_of(work@[0]@) == gg);
            }
        }
        return work;
    }

    let mut v: Vec<usize> = Vec::new();
    let mut j: usize = 0;
    while j < n
        invariant
            j <= n,
            v@.len() == j,
            forall|q: int| 0 <= q < j ==> #[trigger] v@[q] == q as usize,
        decreases n - j,
    {
        v.push(j);
        j = j + 1;
    }
    let mut base: Vec<Vec<usize>> = Vec::new();
    base.push(v);
    let ghost bg = grid_of(base@);
    proof {
        assert(bg.len() == 1);
        assert(bg[0] =~= identity_perm(n_spec));
        assert(bg.last() == bg[0]);
        assert(tri_partial_wf(bg, n_spec)) by {
            assert(forall|q: int| 0 <= q < n ==> #[trigger] identity_perm(n_spec)[q] < n);
        }
        assert(tri_sudoku(bg, n_spec)) by {
            assert forall|a: int, y1: int, y2: int|
                0 <= a < n && 0 <= y1 < y2 < n && #[trigger] tri_get(bg, a, y1) is Some
                    && #[trigger] tri_get(bg, a, y2) is Some implies tri_get(bg, a, y1) != tri_get(
                bg,
                a,
                y2,
            ) by {
                if a == 0 {
                    assert(tri_get(bg, a, y1) == Option::Some(identity_perm(n_spec)[y1]));
                    assert(tri_get(bg, a, y2) == Option::Some(identity_perm(n_spec)[y2]));
                } else {
                    assert(tri_get(bg, a, y1) is Some ==> y1 == 0);
                    assert(tri_get(bg, a, y2) is Some ==> y2 == 0);
                }
            }
        }
    }

    let triplets = generate_all_associativity_triplets(n, true);
    let ghost trips = triplets@;
    let ghost pred = |gg: Seq<Seq<usize>>| rem_sat(gg, trips);
    let mut work: Vec<Vec<Vec<usize>>> = Vec::new();

    let mut i: usize = 0;
    while i < n
        invariant
            n_spec == n as int,
            n >= 2,
            i <= n,
            bg == grid_of(base@),
            base@.len() == 1,
            bg.len() == 1,
            bg[0] == identity_perm(n_spec),
            bg.last() == bg[0],
            base@[0]@.len() == n,
            tri_partial_wf(bg, n_spec),
            tri_sudoku(bg, n_spec),
            trips == triplets@,
            pred == (|gg: Seq<Seq<usize>>| rem_sat(gg, trips)),
            forall|k: int|
                0 <= k < trips.len() ==> obligation(
                    n_spec,
                    true,
                    #[trigger] trips[k]@[0] as int,
                    trips[k]@[1] as int,
                    trips[k]@[2] as int,
                ),
            forall|a: int, b: int, c: int|
                #[trigger] obligation(n_spec, true, a, b, c) ==> trip_in(trips, a, b, c),
            forall|k: int|
                0 <= k < work@.len() ==> tri_complete(grid_of(#[trigger] work@[k]@), n_spec)
                    && tri_sudoku(grid_of(work@[k]@), n_spec) && grid_extends(
                    grid_of(work@[k]@),
                    bg,
                ) && pred(grid_of(work@[k]@)) && grid_of(work@[k]@)[1][0] < i,
            forall|gg: Seq<Seq<usize>>|
                tri_complete(gg, n_spec) && tri_sudoku(gg, n_spec) && #[trigger] grid_extends(
                    gg,
                    bg,
                ) && pred(gg) && gg[1][0] < i ==> tables_contain(work@, gg),
            tables_distinct(work@),
            tables_lex_sorted(work@),
        decreases n - i,
    {
        if i != 1 {
            let mut working_table = clone_grid(&base);
            let mut newrow: Vec<usize> = Vec::new();
            newrow.push(i);
            working_table.push(newrow);
            let ghost wg = grid_of(working_table@);
            proof {
                assert(wg =~= bg.push(seq![i]));
                assert forall|q: int| 0 <= q < bg.len() implies #[trigger] bg[q][bg.len() - q]
                    != i by {
                    assert(bg[0][1] == identity_perm(n_spec)[1]);
                    assert(identity_perm(n_spec)[1] == 1usize);
                }
                lemma_sudoku_push_row(bg, wg, n_spec, i);
                assert forall|k: int| 0 <= k < trips.len() implies spec_test_triplet(
                    wg,
                    #[trigger] trips[k]@[0] as int,
                    trips[k]@[1] as int,
                    trips[k]@[2] as int,
                ) != Option::Some(false) by {
                    assert(obligation(
                        n_spec,
                        true,
                        trips[k]@[0] as int,
                        trips[k]@[1] as int,
                        trips[k]@[2] as int,
                    ));
                    assert(wg =~= seq![identity_perm(n_spec), seq![i]]);
                    lemma_two_row_no_false(
                        seq![identity_perm(n_spec), seq![i]],
                        n_spec,
                        i,
                        trips[k]@[0] as int,
                        trips[k]@[1] as int,
                        trips[k]@[2] as int,
                    );
                }
            }
            proof {
                assert forall|k: int| 0 <= k < trips.len() implies #[trigger] trips[k]@[0] < n
                    && trips[k]@[1] < n && trips[k]@[2] < n by {
                    assert(obligation(
                        n_spec,
                        true,
                        trips[k]@[0] as int,
                        trips[k]@[1] as int,
                        trips[k]@[2] as int,
                    ));
                }
            }
            let mut sub = group_generation_recursion_new(&working_table, n, &triplets);
            let ghost old_rs = work@;
            let ghost sub_rs = sub@;
            work.append(&mut sub);
            proof {
                assert(wg[1] == seq![i]);
                lemma_tri_branch_append(
                    bg,
                    wg,
                    old_rs,
                    sub_rs,
                    work@,
                    n_spec,
                    1,
                    0,
                    i,
                    pred,
                );
            }
        } else {
            proof {
                // The second row cannot start with 1: column 1 already holds
                // it in the identity row.
                assert forall|gg: Seq<Seq<usize>>|
                    tri_complete(gg, n_spec) && tri_sudoku(gg, n_spec) && #[trigger] grid_extends(
                        gg,
                        bg,
                    ) && pred(gg) && gg[1][0] < i + 1 implies tables_contain(work@, gg) by {
                    if gg[1][0] == 1 {
                        assert(gg[0][1] == bg[0][1]);
                        assert(bg[0][1] == identity_perm(n_spec)[1]);
                        assert(gg[0].len() == n);
                        assert(tri_get(gg, 1, 0) == Option::Some(gg[0][1]));
                        assert(gg[1].len() == n - 1);
                        assert(tri_get(gg, 1, 1) == Option::Some(gg[1][0]));
                        assert(false);
                    }
                }
            }
        }
        i = i + 1;
    }
    proof {
        assert forall|k: int| 0 <= k < work@.len() implies grid_of(#[trigger] work@[k]@)[0]
            == identity_perm(n_spec) && tri_list_sat(grid_of(work@[k]@), n_spec, true) by {
            let gg = grid_of(work@[k]@);
            assert forall|q: int| 0 <= q < n implies gg[0][q] == identity_perm(n_spec)[q] by {
                assert(gg[0][q] == bg[0][q]);
            }
            assert(gg[0].len() == n);
            assert(gg[0] =~= identity_perm(n_spec));
            lemma_rem_sat_iff_list_sat(gg, n_spec, true, trips);
        }
        assert forall|gg: Seq<Seq<usize>>|
            #[trigger] tri_complete(gg, n_spec) && tri_sudoku(gg, n_spec) && gg[0] == identity_perm(
                n_spec,
            ) && tri_list_sat(gg, n_spec, true) implies tables_contain(work@, gg) by {
            assert(grid_extends(gg, bg)) by {
                assert forall|x: int, y: int|
                    0 <= x < bg.len() && 0 <= y < bg[x].len() implies gg[x][y]
                        == #[trigger] bg[x][y] by {
                    assert(gg[0][y] == identity_perm(n_spec)[y]);
                }
            }
            lemma_rem_sat_iff_list_sat(gg, n_spec, true, trips);
            assert(gg[1].len() == n - 1);
            assert(gg[1][0] < n);
            assert(pred(gg));
        }
    }
    work
}

// ---------------------------------------------------------------------------
// Agreement of the two generators.
// ---------------------------------------------------------------------------

/// The pruning generator yields a subset of the naive one: every table
/// satisfying the full obligation list satisfies the list the naive filter
/// dispatches to.  The converse holds for every table whose first stored
/// cell is not 0; when it is 0, the naive filter skips the obligations
/// touching element 0, so only tables also satisfying those come back from
/// the pruning generator.
pub proof fn lemma_generators_agree(
    old_work: Seq<Vec<Vec<usize>>>,
    new_work: Seq<Vec<Vec<usize>>>,
    n: int,
)
    requires
        forall|gg: Seq<Seq<usize>>|
            tables_contain(old_work, gg) <==> #[trigger] tri_complete(gg, n) && tri_sudoku(gg, n)
                && tri_list_sat(gg, n, gg[0][0] == 0),
        forall|gg: Seq<Seq<usize>>|
            tables_contain(new_work, gg) <==> #[trigger] tri_complete(gg, n) && tri_sudoku(gg, n)
                && tri_list_sat(gg, n, false),
    ensures
        forall|gg: Seq<Seq<usize>>|
            #[trigger] tables_contain(new_work, gg) ==> tables_contain(old_work, gg),
        forall|gg: Seq<Seq<usize>>|
            #[trigger] tables_contain(old_work, gg) && tri_list_sat(gg, n, false)
                ==> tables_contain(new_work, gg),
        forall|gg: Seq<Seq<usize>>|
            #[trigger] tables_contain(old_work, gg) && gg[0][0] != 0 ==> tables_contain(
                new_work,
                gg,
            ),
{
    assert forall|gg: Seq<Seq<usize>>| #[trigger] tables_contain(new_work, gg) implies
        tables_contain(old_work, gg) by {
        assert(tri_complete(gg, n));
        assert forall|a: int, b: int, c: int|
            obligation(n, gg[0][0] == 0, a, b, c) implies #[trigger] tri_assoc_at(gg, a, b, c) by {
            assert(obligation(n, false, a, b, c));
        }
    }
    assert forall|gg: Seq<Seq<usize>>|
        #[trigger] tables_contain(old_work, gg) && tri_list_sat(gg, n, false)
            implies tables_contain(new_work, gg) by {
        assert(tri_complete(gg, n));
    }
    assert forall|gg: Seq<Seq<usize>>|
        #[trigger] tables_contain(old_work, gg) && gg[0][0] != 0 implies tables_contain(
        new_work,
        gg,
    ) by {
        assert(tri_complete(gg, n));
        assert(tri_list_sat(gg, n, gg[0][0] == 0));
        assert forall|a: int, b: int, c: int|
            obligation(n, false, a, b, c) implies #[trigger] tri_assoc_at(gg, a, b, c) by {
            assert(obligation(n, gg[0][0] == 0, a, b, c));
        }
    }
}

/// The naive and the pruning generator of identity-fixed tables yield the
/// very same list: both are characterized by the identity first row, the
/// Latin condition and the identity-skipping obligation list, and both emit
/// their tables in strictly increasing row-major order, which leaves only
/// one list.
pub proof fn lemma_sudocurity_generators_agree(
    old_work: Seq<Vec<Vec<usize>>>,
    new_work: Seq<Vec<Vec<usize>>>,
    n: int,
)
    requires
        forall|gg: Seq<Seq<usize>>|
            tables_contain(old_work, gg) <==> #[trigger] tri_complete(gg, n) && tri_sudoku(gg, n)
                && gg[0] == identity_perm(n) && tri_list_sat(gg, n, true),
        forall|gg: Seq<Seq<usize>>|
            tables_contain(new_work, gg) <==> #[trigger] tri_complete(gg, n) && tri_sudoku(gg, n)
                && gg[0] == identity_perm(n) && tri_list_sat(gg, n, true),
        tables_lex_sorted(old_work),
        tables_lex_sorted(new_work),
    ensures
        forall|gg: Seq<Seq<usize>>|
            #[trigger] tables_contain(old_work, gg) <==> #[trigger] tables_contain(new_work, gg),
        old_work.len() == new_work.len(),
        forall|k: int|
            0 <= k < old_work.len() ==> grid_of(#[trigger] old_work[k]@) == grid_of(new_work[k]@),
{
    assert forall|gg: Seq<Seq<usize>>|
        #[trigger] tables_contain(old_work, gg) <==> #[trigger] tables_contain(new_work, gg) by {
        if tables_contain(old_work, gg) {
            assert(tri_complete(gg, n));
        }
        if tables_contain(new_work, gg) {
            assert(tri_complete(gg, n));
        }
    }
    assert forall|k: int| 0 <= k < old_work.len() implies tri_complete(
        grid_of(#[trigger] old_work[k]@),
        n,
    ) by {
        assert(tables_contain(old_work, grid_of(old_work[k]@)));
    }
    assert forall|k: int| 0 <= k < new_work.len() implies tri_complete(
        grid_of(#[trigger] new_work[k]@),
        n,
    ) by {
        assert(tables_contain(new_work, grid_of(new_work[k]@)));
    }
    lemma_tri_sorted_lists_equal(old_work, new_work, n);
}

/// Where the naive generator's dispatch loses nothing — every table it
/// keeps satisfies the full obligation list — the two general-variant
/// generators return the very same list, both being sorted.
pub proof fn lemma_generators_agree_lists(
    old_work: Seq<Vec<Vec<usize>>>,
    new_work: Seq<Vec<Vec<usize>>>,
    n: int,
)
    requires
        forall|gg: Seq<Seq<usize>>|
            tables_contain(old_work, gg) <==> #[trigger] tri_complete(gg, n) && tri_sudoku(gg, n)
                && tri_list_sat(gg, n, gg[0][0] == 0),
        forall|gg: Seq<Seq<usize>>|
            tables_contain(new_work, gg) <==> #[trigger] tri_complete(gg, n) && tri_sudoku(gg, n)
                && tri_list_sat(gg, n, false),
        forall|gg: Seq<Seq<usize>>|
            #[trigger] tables_contain(old_work, gg) ==> tri_list_sat(gg, n, false),
        tables_lex_sorted(old_work),
        tables_lex_sorted(new_work),
    ensures
        old_work.len() == new_work.len(),
        forall|k: int|
            0 <= k < old_work.len() ==> grid_of(#[trigger] old_work[k]@) == grid_of(new_work[k]@),
{
    lemma_generators_agree(old_work, new_work, n);
    assert forall|gg: Seq<Seq<usize>>|
        #[trigger] tables_contain(old_work, gg) <==> #[trigger] tables_contain(new_work, gg) by {
        if tables_contain(old_work, gg) {
            assert(tables_contain(new_work, gg));
        }
        if tables_contain(new_work, gg) {
            assert(tables_contain(old_work, gg));
        }
    }
    assert forall|k: int| 0 <= k < old_work.len() implies tri_complete(
        grid_of(#[trigger] old_work[k]@),
        n,
    ) by {
        assert(tables_contain(old_work, grid_of(old_work[k]@)));
    }
    assert forall|k: int| 0 <= k < new_work.len() implies tri_complete(
        grid_of(#[trigger] new_work[k]@),
        n,
    ) by {
        assert(tables_contain(new_work, grid_of(new_work[k]@)));
    }
    lemma_tri_sorted_lists_equal(old_work, new_work, n);
}

// ---------------------------------------------------------------------------
// Conjugation of a triangular table.
// ---------------------------------------------------------------------------

/// The stored value is symmetric in its two operands.
proof fn lemma_tri_at_symmetric(t: Seq<Seq<usize>>, x: int, y: int)
    ensures
        tri_at(t, x, y) == tri_at(t, y, x),
{
}

/// Exchanges the logical rows and columns a and b of a complete symmetric
/// table: afterwards the value at (x, y) is the old value at the positions
/// with a and b swapped.  Realized as a re-index pass over the triangular
/// storage.
pub fn swap_rows_and_columns(table: &mut Vec<Vec<usize>>, a: usize, b: usize)
    requires
        tri_complete(grid_of(old(table)@), old(table)@.len() as int),
        a < old(table)@.len(),
        b < old(table)@.len(),
    ensures
        final(table)@.len() == old(table)@.len(),
        tri_complete(grid_of(final(table)@), old(table)@.len() as int),
        forall|x: int, y: int|
            0 <= x < old(table)@.len() && 0 <= y < old(table)@.len() ==> #[trigger] tri_at(
                grid_of(final(table)@),
                x,
                y,
            ) == tri_at(
                grid_of(old(table)@),
                transposition(old(table)@.len() as int, a as int, b as int)[x] as int,
                transposition(old(table)@.len() as int, a as int, b as int)[y] as int,
            ),
{
    let ghost g = grid_of(old(table)@);
    let n = table.len();
    let ghost n_spec = n as int;
    let ghost tau = transposition(n_spec, a as int, b as int);

    let old_t = clone_grid(table);
    proof {
        assert(grid_of(old_t@) =~= g);
    }

    let mut new_t: Vec<Vec<usize>> = Vec::new();
    let mut x: usize = 0;
    while x < n
        invariant
            g == grid_of(old_t@),
            n_spec == n as int,
            tri_complete(g, n_spec),
            old_t@.len() == n,
            a < n,
            b < n,
            tau == transposition(n_spec, a as int, b as int),
            x <= n,
            new_t@.len() == x,
            forall|x2: int|
                0 <= x2 < x ==> #[trigger] new_t@[x2]@.len() == n - x2,
            forall|x2: int, d: int|
                0 <= x2 < x && 0 <= d < n - x2 ==> #[trigger] new_t@[x2]@[d] == tri_at(
                    g,
                    tau[x2] as int,
                    tau[x2 + d] as int,
                ),
        decreases n - x,
    {
        let mut row: Vec<usize> = Vec::new();
        let tx = if x == a {
            b
        } else if x == b {
            a
        } else {
            x
        };
        proof {
            assert(tau[x as int] == tx);
        }
        let mut y: usize = x;
        while y < n
            invariant
                g == grid_of(old_t@),
                n_spec == n as int,
                tri_complete(g, n_spec),
                old_t@.len() == n,
                a < n,
                b < n,
                x < n,
                tau == transposition(n_spec, a as int, b as int),
                tau[x as int] == tx,
                tx < n,
                x <= y <= n,
                row@.len() == y - x,
                forall|d: int|
                    0 <= d < y - x ==> #[trigger] row@[d] == tri_at(
                        g,
                        tau[x as int] as int,
                        tau[x + d] as int,
                    ),
            decreases n - y,
        {
            let ty = if y == a {
                b
            } else if y == b {
                a
            } else {
                y
            };
            proof {
                assert(tau[y as int] == ty);
            }
            row.push(group_add(&old_t, &tx, &ty));
            y = y + 1;
        }
        new_t.push(row);
        x = x + 1;
    }

    *table = new_t;

    proof {
        let ng = grid_of(table@);
        assert(tri_complete(ng, n_spec)) by {
            assert forall|x2: int| 0 <= x2 < n implies #[trigger] ng[x2].len() == n - x2 by {
                assert(ng[x2] == table@[x2]@);
            }
            assert forall|x2: int, d: int|
                0 <= x2 < ng.len() && 0 <= d < ng[x2].len() implies #[trigger] ng[x2][d] < n by {
                assert(ng[x2][d] == tri_at(g, tau[x2] as int, tau[x2 + d] as int));
                assert(tau[x2] < n && tau[x2 + d] < n);
                assert(tri_at(g, tau[x2] as int, tau[x2 + d] as int) < n) by {
                    let p = tau[x2] as int;
                    let q = tau[x2 + d] as int;
                    if q >= p {
                        assert(g[p].len() == n - p);
                    } else {
                        assert(g[q].len() == n - q);
                    }
                }
            }
        }
        assert forall|x2: int, y2: int|
            0 <= x2 < n && 0 <= y2 < n implies #[trigger] tri_at(ng, x2, y2) == tri_at(
            g,
            tau[x2] as int,
            tau[y2] as int,
        ) by {
            if y2 >= x2 {
                assert(tri_at(ng, x2, y2) == ng[x2][y2 - x2]);
                assert(ng[x2] == table@[x2]@);
                assert(ng[x2][y2 - x2] == tri_at(g, tau[x2] as int, tau[x2 + (y2 - x2)] as int));
            } else {
                assert(tri_at(ng, x2, y2) == ng[y2][x2 - y2]);
                assert(ng[y2] == table@[y2]@);
                assert(ng[y2][x2 - y2] == tri_at(g, tau[y2] as int, tau[y2 + (x2 - y2)] as int));
                lemma_tri_at_symmetric(g, tau[y2] as int, tau[x2] as int);
            }
        }
    }
}

/// The conjugate of a triangular table under a permutation: every entry is
/// relabeled, then rows and columns are brought back in order by pairwise
/// swaps following the permutation.  In the result, p(x)*p(y) equals
/// p(x*y) of the original.
pub fn apply_permutation_to_group(table: &Vec<Vec<usize>>, permutation: &Vec<usize>) -> (result:
    Vec<Vec<usize>>)
    requires
        tri_complete(grid_of(table@), table@.len() as int),
        is_permutation(permutation@, table@.len() as int),
    ensures
        result@.len() == table@.len(),
        tri_complete(grid_of(result@), table@.len() as int),
        forall|x: int, y: int|
            0 <= x < table@.len() && 0 <= y < table@.len() ==> tri_at(
                grid_of(result@),
                #[trigger] permutation@[x] as int,
                #[trigger] permutation@[y] as int,
            ) == permutation@[tri_at(grid_of(table@), x, y) as int],
{
    let ghost g = grid_of(table@);
    let ghost p0 = permutation@;
    let n = table.len();
    let ghost n_spec = n as int;

    // Relabel every entry by the permutation.
    let mut working_table = clone_grid(table);
    proof {
        assert(grid_of(working_table@) =~= g);
        assert forall|x: int| 0 <= x < n implies #[trigger] working_table@[x]@.len() == n - x by {
            assert(working_table@[x]@ == g[x]);
            assert(g[x].len() == n - x);
        }
    }
    let mut r: usize = 0;
    while r < n
        invariant
            g == grid_of(table@),
            n_spec == n as int,
            tri_complete(g, n_spec),
            is_permutation(p0, n_spec),
            p0 == permutation@,
            r <= n,
            working_table@.len() == n,
            forall|x: int| 0 <= x < n ==> #[trigger] working_table@[x]@.len() == n - x,
            forall|x: int, d: int|
                0 <= x < r && 0 <= d < n - x ==> #[trigger] working_table@[x]@[d] == p0[g[x][d] as int],
            forall|x: int, d: int|
                r <= x < n && 0 <= d < n - x ==> #[trigger] working_table@[x]@[d] == g[x][d],
        decreases n - r,
    {
        let mut row = clone_row(&working_table[r]);
        let ghost oldrow = row@;
        let rlen = row.len();
        let mut d: usize = 0;
        while d < rlen
            invariant
                d <= rlen,
                row@.len() == rlen,
                oldrow.len() == rlen,
                p0 == permutation@,
                is_permutation(p0, n_spec),
                forall|q: int| 0 <= q < rlen ==> #[trigger] oldrow[q] < n_spec,
                forall|q: int| d <= q < rlen ==> #[trigger] row@[q] == oldrow[q],
                forall|q: int| 0 <= q < d ==> #[trigger] row@[q] == p0[oldrow[q] as int],
            decreases rlen - d,
        {
            let v = row[d];
            row[d] = permutation[v];
            d = d + 1;
        }
        working_table[r] = row;
        r = r + 1;
    }

    // Sort the rows and columns back by pairwise swaps.
    let mut working_permutation = clone_row(permutation);
    let ghost mut sigma: Seq<usize> = identity_perm(n_spec);
    proof {
        lemma_identity_perm(n_spec);
        assert(spec_compose(p0, sigma) == p0);
        assert forall|x: int, y: int|
            0 <= x < n && 0 <= y < n implies #[trigger] tri_at(grid_of(working_table@), x, y)
                == p0[tri_at(g, sigma[x] as int, sigma[y] as int) as int] by {
            assert(sigma[x] == x as usize && sigma[y] == y as usize);
            if y >= x {
                assert(working_table@[x]@[y - x] == p0[g[x][y - x] as int]);
            } else {
                assert(working_table@[y]@[x - y] == p0[g[y][x - y] as int]);
            }
        }
        assert(tri_complete(grid_of(working_table@), n_spec)) by {
            assert forall|x2: int, d2: int|
                0 <= x2 < n && 0 <= d2 < n - x2 implies #[trigger] grid_of(working_table@)[x2][d2]
                    < n by {
                assert(grid_of(working_table@)[x2][d2] == working_table@[x2]@[d2]);
                assert(working_table@[x2]@[d2] == p0[g[x2][d2] as int]);
            }
            assert(forall|x2: int|
                0 <= x2 < n ==> #[trigger] grid_of(working_table@)[x2].len() == n - x2);
        }
    }

    let mut i: usize = 0;
    while i < n
        invariant
            g == grid_of(table@),
            n_spec == n as int,
            tri_complete(g, n_spec),
            is_permutation(p0, n_spec),
            is_permutation(sigma, n_spec),
            working_permutation@ == spec_compose(p0, sigma),
            working_permutation@.len() == n,
            i <= n,
            forall|k: int| 0 <= k < i ==> #[trigger] working_permutation@[k] == k,
            working_table@.len() == n,
            tri_complete(grid_of(working_table@), n_spec),
            forall|x: int, y: int|
                0 <= x < n && 0 <= y < n ==> #[trigger] tri_at(grid_of(working_table@), x, y)
                    == p0[tri_at(g, sigma[x] as int, sigma[y] as int) as int],
        decreases n - i,
    {
        proof {
            lemma_compose_is_permutation(p0, sigma, n_spec);
            lemma_permutation_surjective(working_permutation@, n_spec, i);
        }
        let mut j: usize = 0;
        let mut found = false;
        let mut k: usize = 0;
        while k < n
            invariant
                working_permutation@.len() == n,
                k <= n,
                !found ==> forall|z: int| 0 <= z < k ==> #[trigger] working_permutation@[z] != i,
                found ==> j < n && working_permutation@[j as int] == i,
            decreases n - k,
        {
            if !found && working_permutation[k] == i {
                j = k;
                found = true;
            }
            k = k + 1;
        }
        proof {
            assert(found) by {
                if !found {
                    let z = choose|z: int| 0 <= z < n && working_permutation@[z] == i;
                    assert(working_permutation@[z] != i);
                }
            }
            assert(j >= i) by {
                if (j as int) < i {
                    assert(working_permutation@[j as int] == j);
                }
            }
        }

        if i != j {
            let ghost before = grid_of(working_table@);
            let ghost w_before = working_permutation@;
            let ghost tau = transposition(n_spec, i as int, j as int);

            swap_rows_and_columns(&mut working_table, i, j);

            let wi = working_permutation[i];
            let wj = working_permutation[j];
            working_permutation[i] = wj;
            working_permutation[j] = wi;

            proof {
                lemma_transposition_is_permutation(n_spec, i as int, j as int);
                let sigma2 = spec_compose(sigma, tau);
                lemma_compose_is_permutation(sigma, tau, n_spec);

                assert forall|x2: int, y2: int|
                    0 <= x2 < n && 0 <= y2 < n implies #[trigger] tri_at(
                    grid_of(working_table@),
                    x2,
                    y2,
                ) == p0[tri_at(g, sigma2[x2] as int, sigma2[y2] as int) as int] by {
                    let txv = tau[x2] as int;
                    let tyv = tau[y2] as int;
                    assert(tri_at(grid_of(working_table@), x2, y2) == tri_at(before, txv, tyv));
                    assert(tri_at(before, txv, tyv) == p0[tri_at(
                        g,
                        sigma[txv] as int,
                        sigma[tyv] as int,
                    ) as int]);
                    assert(sigma2[x2] == sigma[txv]);
                    assert(sigma2[y2] == sigma[tyv]);
                }

                assert forall|z: int| 0 <= z < n implies #[trigger] working_permutation@[z]
                    == spec_compose(p0, sigma2)[z] by {
                    let tz = tau[z] as int;
                    assert(working_permutation@[z] == w_before[tz]) by {
                        if z == i {
                            assert(tau[z] == j as usize);
                        } else if z == j {
                            assert(tau[z] == i as usize);
                        } else {
                            assert(tau[z] == z as usize);
                        }
                    }
                    assert(w_before[tz] == p0[sigma[tz] as int]);
                    assert(sigma2[z] == sigma[tz]);
                }
                assert(working_permutation@ =~= spec_compose(p0, sigma2));

                assert forall|z: int| 0 <= z < i + 1 implies #[trigger] working_permutation@[z]
                    == z by {
                    if z < i {
                        assert(tau[z] == z as usize);
                        assert(working_permutation@[z] == w_before[z]);
                    } else {
                        assert(tau[z] == j as usize);
                        assert(working_permutation@[z] == w_before[j as int]);
                    }
                }

                sigma = sigma2;
            }
        } else {
            proof {
                assert(working_permutation@[i as int] == i);
            }
        }
        i = i + 1;
    }

    proof {
        assert(working_permutation@ =~= identity_perm(n_spec));
        lemma_identity_perm(n_spec);
        lemma_right_inverse_unique(p0, sigma, n_spec);
        lemma_perm_inv(p0, n_spec);
        assert forall|x: int, y: int|
            0 <= x < n && 0 <= y < n implies tri_at(
            grid_of(working_table@),
            #[trigger] p0[x] as int,
            #[trigger] p0[y] as int,
        ) == p0[tri_at(g, x, y) as int] by {
            let px = p0[x] as int;
            let py = p0[y] as int;
            assert(tri_at(grid_of(working_table@), px, py) == p0[tri_at(
                g,
                sigma[px] as int,
                sigma[py] as int,
            ) as int]);
            assert(sigma[px] == x);
            assert(sigma[py] == y);
        }
    }
    working_table
}

/// Composes a permutation with the translation by a fixed element: each
/// image is added to `row` through the table.
pub fn compose_affine_permutation(permutation: &Vec<usize>, table: &Vec<Vec<usize>>, row: &usize) -> (perm: Vec<usize>)
    requires
        tri_complete(grid_of(table@), table@.len() as int),
        *row < table@.len(),
        forall|k: int| 0 <= k < permutation@.len() ==> #[trigger] permutation@[k] < table@.len(),
    ensures
        perm@.len() == permutation@.len(),
        forall|k: int|
            0 <= k < permutation@.len() ==> #[trigger] perm@[k] == tri_at(
                grid_of(table@),
                permutation@[k] as int,
                *row as int,
            ),
{
    let ghost g = grid_of(table@);
    let n = table.len();
    let mut perm: Vec<usize> = Vec::new();

    let mut k: usize = 0;
    while k < permutation.len()
        invariant
            g == grid_of(table@),
            tri_complete(g, n as int),
            table@.len() == n,
            *row < n,
            forall|q: int| 0 <= q < permutation@.len() ==> #[trigger] permutation@[q] < n,
            k <= permutation@.len(),
            perm@.len() == k,
            forall|q: int|
                0 <= q < k ==> #[trigger] perm@[q] == tri_at(g, permutation@[q] as int, *row as int),
        decreases permutation@.len() - k,
    {
        let pv = permutation[k];
        let a = match group_add_new(table, &pv, row) {
            Option::Some(a) => a,
            Option::None => {
                proof {
                    assert(tri_get(g, pv as int, *row as int) is Some) by {
                        if *row as int > pv as int {
                            assert(g[pv as int].len() == n - pv);
                        } else {
                            assert(g[*row as int].len() == n - *row);
                        }
                    }
                    assert(false);
                }
                0
            },
        };
        proof {
            assert(tri_get(g, pv as int, *row as int) == Option::Some(tri_at(
                g,
                pv as int,
                *row as int,
            )));
        }
        perm.push(a);
        k = k + 1;
    }
    perm
}

} // verus!
