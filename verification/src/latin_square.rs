use vstd::prelude::*;
use crate::permutation::Permutation;
use crate::sidedness::Sidedness;
use crate::permutation::clone_row;
use crate::permutation::contains_val;
use crate::permutation::identity_perm;
use crate::permutation::is_permutation;
use crate::permutation::lemma_compose_is_permutation;
use crate::permutation::lemma_identity_perm;
use crate::permutation::lemma_missing_value_unique;
use crate::permutation::lemma_nodup_unordered;
use crate::permutation::lemma_perm_inv;
use crate::permutation::lemma_permutation_surjective;
use crate::permutation::lemma_right_inverse_unique;
use crate::permutation::lemma_transposition_is_permutation;
use crate::permutation::perm_inv;
use crate::permutation::spec_compose;
use crate::permutation::transposition;
use crate::permutation::vec_usize_eq;

verus! {

// ---------------------------------------------------------------------------
// Specification: square grids and the Latin property.
// ---------------------------------------------------------------------------

/// The mathematical value of a table held as a vector of rows.
pub open spec fn grid_of(rows: Seq<Vec<usize>>) -> Seq<Seq<usize>> {
    Seq::new(rows.len(), |i: int| rows[i]@)
}

/// An n by n grid of values below n.
pub open spec fn grid_wf(t: Seq<Seq<usize>>, n: int) -> bool {
    &&& t.len() == n
    &&& forall|i: int| 0 <= i < n ==> #[trigger] t[i].len() == n
    &&& forall|i: int, j: int| 0 <= i < n && 0 <= j < n ==> #[trigger] t[i][j] < n
}

/// A non-empty square grid where no row and no column repeats a value.
/// Together with well-formedness this makes every row and column a
/// permutation of {0, .., n-1}.
pub open spec fn latin_ok(t: Seq<Seq<usize>>, n: int) -> bool {
    &&& n >= 1
    &&& grid_wf(t, n)
    &&& forall|i: int| 0 <= i < n ==> (#[trigger] t[i]).no_duplicates()
    &&& forall|j: int, i1: int, i2: int|
        0 <= j < n && 0 <= i1 < i2 < n ==> #[trigger] t[i1][j] != #[trigger] t[i2][j]
}

/// A prefix of a square under construction: every row before the last is
/// complete, the last row may be partial, and no filled row or column
/// repeats a value.
pub open spec fn partial_wf(p: Seq<Seq<usize>>, n: int) -> bool {
    &&& 1 <= p.len() <= n
    &&& forall|i: int| 0 <= i < p.len() - 1 ==> #[trigger] p[i].len() == n
    &&& 1 <= p.last().len() <= n
    &&& forall|i: int, j: int|
        0 <= i < p.len() && 0 <= j < p[i].len() ==> #[trigger] p[i][j] < n
    &&& forall|i: int| 0 <= i < p.len() ==> (#[trigger] p[i]).no_duplicates()
    &&& forall|j: int, i1: int, i2: int|
        0 <= i1 < i2 < p.len() && 0 <= j < p[i1].len() && j < p[i2].len() ==> #[trigger] p[i1][j]
            != #[trigger] p[i2][j]
}

/// `l` agrees with the prefix `p` on every filled cell of `p`.
pub open spec fn grid_extends(l: Seq<Seq<usize>>, p: Seq<Seq<usize>>) -> bool {
    forall|i: int, j: int|
        0 <= i < p.len() && 0 <= j < p[i].len() ==> l[i][j] == #[trigger] p[i][j]
}

/// The prefix still has an unfilled cell.
pub open spec fn partial_incomplete(p: Seq<Seq<usize>>, n: int) -> bool {
    p.len() < n || p.last().len() < n
}

/// Cell (i2, j2) comes before cell (i, j) in row-major order.
pub open spec fn cell_before(i: int, j: int, i2: int, j2: int) -> bool {
    i2 < i || (i2 == i && j2 < j)
}

/// The first row-major difference between a and b sits at (i, j), where a
/// holds the smaller value.
pub open spec fn grid_lt_at(a: Seq<Seq<usize>>, b: Seq<Seq<usize>>, i: int, j: int) -> bool {
    &&& 0 <= i < a.len()
    &&& 0 <= j < a[i].len()
    &&& i < b.len()
    &&& j < b[i].len()
    &&& a[i][j] < b[i][j]
    &&& forall|i2: int, j2: int|
        0 <= i2 < a.len() && 0 <= j2 < a[i2].len() && cell_before(i, j, i2, j2)
            ==> (#[trigger] a[i2][j2]) == b[i2][j2]
}

/// a comes strictly before b in row-major lexicographic order.
pub open spec fn grid_lex_lt(a: Seq<Seq<usize>>, b: Seq<Seq<usize>>) -> bool {
    exists|i: int, j: int| #[trigger] grid_lt_at(a, b, i, j)
}

/// The squares of the list are in strictly increasing row-major
/// lexicographic order.
pub open spec fn squares_lex_sorted(rs: Seq<LatinSquare>) -> bool {
    forall|k1: int, k2: int|
        0 <= k1 < k2 < rs.len() ==> grid_lex_lt(#[trigger] rs[k1]@, #[trigger] rs[k2]@)
}

/// Two extensions of one prefix order by the value of the first cell beyond
/// it, provided every earlier row-major cell is filled in the prefix.
pub proof fn lemma_grid_lex_branch(
    l1: Seq<Seq<usize>>,
    l2: Seq<Seq<usize>>,
    pd: Seq<Seq<usize>>,
    row: int,
    idx: int,
)
    requires
        grid_extends(l1, pd),
        grid_extends(l2, pd),
        0 <= row < l1.len(),
        0 <= idx < l1[row].len(),
        row < l2.len(),
        idx < l2[row].len(),
        l1[row][idx] < l2[row][idx],
        forall|i2: int, j2: int|
            #![trigger l1[i2][j2]]
            0 <= i2 < l1.len() && 0 <= j2 < l1[i2].len() && cell_before(row, idx, i2, j2)
                ==> i2 < pd.len() && j2 < pd[i2].len(),
    ensures
        grid_lex_lt(l1, l2),
{
    assert(grid_lt_at(l1, l2, row, idx)) by {
        assert forall|i2: int, j2: int|
            0 <= i2 < l1.len() && 0 <= j2 < l1[i2].len() && cell_before(row, idx, i2, j2)
                implies (#[trigger] l1[i2][j2]) == l2[i2][j2] by {
            assert(l1[i2][j2] == pd[i2][j2]);
            assert(l2[i2][j2] == pd[i2][j2]);
        }
    }
}

/// The row-major order is strict on grids of one shape.
pub proof fn lemma_grid_lex_asym(a: Seq<Seq<usize>>, b: Seq<Seq<usize>>)
    requires
        grid_lex_lt(a, b),
        a.len() == b.len(),
        forall|i: int| 0 <= i < a.len() ==> (#[trigger] a[i]).len() == b[i].len(),
    ensures
        !grid_lex_lt(b, a),
        a != b,
{
    let (i1, j1) = choose|i: int, j: int| #[trigger] grid_lt_at(a, b, i, j);
    assert(a != b) by {
        if a == b {
            assert(a[i1][j1] < a[i1][j1]);
        }
    }
    if grid_lex_lt(b, a) {
        let (i2, j2) = choose|i: int, j: int| #[trigger] grid_lt_at(b, a, i, j);
        if i1 == i2 && j1 == j2 {
            assert(false);
        } else if cell_before(i2, j2, i1, j1) {
            assert(b[i1][j1] == a[i1][j1]);
            assert(false);
        } else {
            assert(cell_before(i1, j1, i2, j2));
            assert(a[i2][j2] == b[i2][j2]);
            assert(false);
        }
    }
}

/// Membership of a grid value in a list of squares.
pub open spec fn squares_contain(rs: Seq<LatinSquare>, l: Seq<Seq<usize>>) -> bool {
    exists|k: int| 0 <= k < rs.len() && rs[k]@ == l
}

/// No two squares of the list hold the same grid.
pub open spec fn squares_distinct(rs: Seq<LatinSquare>) -> bool {
    forall|k1: int, k2: int| 0 <= k1 < k2 < rs.len() ==> rs[k1]@ != rs[k2]@
}

// ---------------------------------------------------------------------------
// Specification: conjugation.
// ---------------------------------------------------------------------------

/// Every entry of the grid replaced by its image under p.
pub open spec fn relabel(t: Seq<Seq<usize>>, p: Seq<usize>) -> Seq<Seq<usize>> {
    Seq::new(t.len(), |x: int| Seq::new(t.len(), |y: int| p[t[x][y] as int]))
}

/// Rows and columns rearranged: cell (x, y) reads cell (s[x], s[y]).
pub open spec fn reindex(t: Seq<Seq<usize>>, s: Seq<usize>) -> Seq<Seq<usize>> {
    Seq::new(t.len(), |x: int| Seq::new(t.len(), |y: int| t[s[x] as int][s[y] as int]))
}

/// The conjugate of a table under a permutation: relabel every entry by p,
/// then rearrange rows and columns so that row and column labels follow the
/// relabeling too.  Pointwise, conjugate(t, p)[p[x]][p[y]] == p[t[x][y]].
pub open spec fn conjugate(t: Seq<Seq<usize>>, p: Seq<usize>) -> Seq<Seq<usize>> {
    reindex(relabel(t, p), perm_inv(p))
}

/// The defining pointwise law of conjugation.
pub proof fn lemma_conjugate_pointwise(t: Seq<Seq<usize>>, p: Seq<usize>, n: int)
    requires
        n <= usize::MAX + 1,
        grid_wf(t, n),
        is_permutation(p, n),
        n >= 1,
    ensures
        grid_wf(conjugate(t, p), n),
        forall|x: int, y: int|
            0 <= x < n && 0 <= y < n ==> conjugate(t, p)[p[x] as int][#[trigger] p[y] as int]
                == p[#[trigger] t[x][y] as int],
        forall|x: int, y: int|
            0 <= x < n && 0 <= y < n ==> #[trigger] conjugate(t, p)[x][y] == p[t[perm_inv(p)[x] as int][perm_inv(
                p,
            )[y] as int] as int],
{
    lemma_perm_inv(p, n);
    let c = conjugate(t, p);
    assert forall|x: int, y: int| 0 <= x < n && 0 <= y < n implies #[trigger] c[x][y] == p[t[perm_inv(
        p,
    )[x] as int][perm_inv(p)[y] as int] as int] && c[x][y] < n by {
        let ix = perm_inv(p)[x] as int;
        let iy = perm_inv(p)[y] as int;
        assert(c[x][y] == relabel(t, p)[ix][iy]);
        assert(relabel(t, p)[ix][iy] == p[t[ix][iy] as int]);
        assert(t[ix][iy] < n);
    }
    assert forall|x: int, y: int|
        0 <= x < n && 0 <= y < n implies c[p[x] as int][#[trigger] p[y] as int]
            == p[#[trigger] t[x][y] as int] by {
        let px = p[x] as int;
        let py = p[y] as int;
        assert(perm_inv(p)[px] == x);
        assert(perm_inv(p)[py] == y);
        assert(c[px][py] == p[t[x][y] as int]);
    }
}

/// Conjugation preserves the Latin property.
pub proof fn lemma_conjugate_latin(t: Seq<Seq<usize>>, p: Seq<usize>, n: int)
    requires
        n <= usize::MAX + 1,
        latin_ok(t, n),
        is_permutation(p, n),
    ensures
        latin_ok(conjugate(t, p), n),
{
    lemma_perm_inv(p, n);
    lemma_conjugate_pointwise(t, p, n);
    let c = conjugate(t, p);
    assert forall|i: int| 0 <= i < n implies (#[trigger] c[i]).no_duplicates() by {
        assert forall|y1: int, y2: int| 0 <= y1 < y2 < c[i].len() implies c[i][y1] != c[i][y2] by {
            let ix = perm_inv(p)[i] as int;
            let iy1 = perm_inv(p)[y1] as int;
            let iy2 = perm_inv(p)[y2] as int;
            assert(c[i][y1] == p[t[ix][iy1] as int]);
            assert(c[i][y2] == p[t[ix][iy2] as int]);
            assert(iy1 != iy2) by {
                lemma_nodup_unordered(perm_inv(p), y1, y2);
            }
            assert(t[ix][iy1] != t[ix][iy2]) by {
                lemma_nodup_unordered(t[ix], iy1, iy2);
            }
            lemma_nodup_unordered(p, t[ix][iy1] as int, t[ix][iy2] as int);
        }
    }
    assert forall|j: int, i1: int, i2: int|
        0 <= j < n && 0 <= i1 < i2 < n implies #[trigger] c[i1][j] != #[trigger] c[i2][j] by {
        let jj = perm_inv(p)[j] as int;
        let x1 = perm_inv(p)[i1] as int;
        let x2 = perm_inv(p)[i2] as int;
        assert(c[i1][j] == p[t[x1][jj] as int]);
        assert(c[i2][j] == p[t[x2][jj] as int]);
        assert(x1 != x2) by {
            lemma_nodup_unordered(perm_inv(p), i1, i2);
        }
        assert(t[x1][jj] != t[x2][jj]) by {
            if x1 < x2 {
            } else {
            }
        }
        lemma_nodup_unordered(p, t[x1][jj] as int, t[x2][jj] as int);
    }
}

/// Conjugating by the identity permutation leaves the table unchanged.
pub proof fn lemma_conjugate_identity(t: Seq<Seq<usize>>, n: int)
    requires
        n <= usize::MAX + 1,
        grid_wf(t, n),
        n >= 1,
    ensures
        conjugate(t, identity_perm(n)) == t,
{
    let id = identity_perm(n);
    lemma_identity_perm(n);
    lemma_right_inverse_unique(id, id, n);
    assert(perm_inv(id) == id);
    let c = conjugate(t, id);
    assert forall|x: int| 0 <= x < n implies c[x] == t[x] by {
        assert forall|y: int| 0 <= y < n implies c[x][y] == t[x][y] by {
            assert(id[x] == x as usize);
            assert(id[y] == y as usize);
            assert(c[x][y] == relabel(t, id)[x][y]);
            assert(relabel(t, id)[x][y] == id[t[x][y] as int]);
            assert(t[x][y] < n);
            assert(id[t[x][y] as int] == t[x][y]);
        }
        assert(c[x] =~= t[x]);
    }
    assert(c =~= t);
}

/// Conjugating twice equals conjugating once by the composition: the second
/// permutation is applied outside the first.
pub proof fn lemma_conjugate_compose(t: Seq<Seq<usize>>, p: Seq<usize>, q: Seq<usize>, n: int)
    requires
        n <= usize::MAX + 1,
        grid_wf(t, n),
        is_permutation(p, n),
        is_permutation(q, n),
        n >= 1,
    ensures
        conjugate(conjugate(t, p), q) == conjugate(t, spec_compose(q, p)),
{
    let r = spec_compose(q, p);
    lemma_compose_is_permutation(q, p, n);
    lemma_perm_inv(p, n);
    lemma_perm_inv(q, n);
    lemma_perm_inv(r, n);
    lemma_conjugate_pointwise(t, p, n);
    let c1 = conjugate(t, p);
    lemma_conjugate_pointwise(c1, q, n);
    lemma_conjugate_pointwise(t, r, n);
    // The inverse of the composition chains the inverses the other way round.
    assert forall|x: int| 0 <= x < n implies #[trigger] perm_inv(r)[x] == perm_inv(p)[perm_inv(
        q,
    )[x] as int] by {
        let z = perm_inv(p)[perm_inv(q)[x] as int];
        assert(p[z as int] == perm_inv(q)[x]);
        assert(r[z as int] == q[p[z as int] as int]);
        assert(q[perm_inv(q)[x] as int] == x);
        assert(r[z as int] == x);
        assert(perm_inv(r)[r[z as int] as int] == z);
    }
    let lhs = conjugate(c1, q);
    let rhs = conjugate(t, r);
    assert forall|x: int| 0 <= x < n implies lhs[x] == rhs[x] by {
        assert forall|y: int| 0 <= y < n implies lhs[x][y] == rhs[x][y] by {
            let qx = perm_inv(q)[x] as int;
            let qy = perm_inv(q)[y] as int;
            let px = perm_inv(p)[qx] as int;
            let py = perm_inv(p)[qy] as int;
            assert(lhs[x][y] == q[c1[qx][qy] as int]);
            assert(c1[qx][qy] == p[t[px][py] as int]);
            assert(rhs[x][y] == r[t[perm_inv(r)[x] as int][perm_inv(r)[y] as int] as int]);
            assert(perm_inv(r)[x] as int == px);
            assert(perm_inv(r)[y] as int == py);
            assert(t[px][py] < n);
            assert(r[t[px][py] as int] == q[p[t[px][py] as int] as int]);
        }
        assert(lhs[x] =~= rhs[x]);
    }
    assert(lhs =~= rhs);
}

// ---------------------------------------------------------------------------
// Specification: classification.
// ---------------------------------------------------------------------------

/// Some row of the table is the sequence 0, 1, .., n-1: its index acts as
/// identity from the left.
pub open spec fn spec_has_left_identity(t: Seq<Seq<usize>>, n: int) -> bool {
    exists|e: int| 0 <= e < n && #[trigger] t[e] == identity_perm(n)
}

/// Column c of the table reads 0, 1, .., n-1.
pub open spec fn right_identity_at(t: Seq<Seq<usize>>, n: int, c: int) -> bool {
    forall|r: int| 0 <= r < n ==> #[trigger] t[r][c] == r as usize
}

/// Some column of the table reads 0, 1, .., n-1: its index acts as identity
/// from the right.
pub open spec fn spec_has_right_identity(t: Seq<Seq<usize>>, n: int) -> bool {
    exists|c: int| 0 <= c < n && #[trigger] right_identity_at(t, n, c)
}

/// The operation is commutative.
pub open spec fn spec_commutative(t: Seq<Seq<usize>>, n: int) -> bool {
    forall|a: int, b: int| 0 <= a < n && 0 <= b < n ==> #[trigger] t[a][b] == #[trigger] t[b][a]
}

/// The triple (x, y, z) respects associativity: x(yz) == (xy)z.
pub open spec fn assoc_at(t: Seq<Seq<usize>>, x: int, y: int, z: int) -> bool {
    t[x][t[y][z] as int] == t[t[x][y] as int][z]
}

/// The operation is associative.
pub open spec fn spec_associative(t: Seq<Seq<usize>>, n: int) -> bool {
    forall|x: int, y: int, z: int|
        0 <= x < n && 0 <= y < n && 0 <= z < n ==> #[trigger] assoc_at(t, x, y, z)
}

/// Associativity restricted to the triples whose members all differ from
/// `skip`; with `skip` outside {0, .., n-1} this is full associativity.
pub open spec fn spec_nonskip_associative(t: Seq<Seq<usize>>, n: int, skip: int) -> bool {
    forall|x: int, y: int, z: int|
        0 <= x < n && 0 <= y < n && 0 <= z < n && x != skip && y != skip && z != skip
            ==> #[trigger] assoc_at(t, x, y, z)
}

/// The class of a Latin square: a quasigroup without a two-sided identity, a
/// loop with one, a group when also associative, abelian when also
/// commutative.
pub open spec fn spec_classify(t: Seq<Seq<usize>>, n: int) -> LatinStructure {
    if !(spec_has_left_identity(t, n) && spec_has_right_identity(t, n)) {
        LatinStructure::Quasigroup
    } else if !spec_associative(t, n) {
        LatinStructure::Loop
    } else if !spec_commutative(t, n) {
        LatinStructure::Group
    } else {
        LatinStructure::Abelian
    }
}

// ---------------------------------------------------------------------------
// The square types.
// ---------------------------------------------------------------------------

/// The different classes that a Latin square can belong to.
#[derive(Debug, Clone, Copy, PartialEq, Eq, Structural)]
pub enum LatinStructure {
    Quasigroup,
    Loop,
    Group,
    Abelian,
}

/// The class of a Latin square together with the three refinement flags it
/// was derived from.
#[derive(Debug, Clone, Copy, PartialEq, Eq, Structural)]
pub struct LatinType {
    pub structure: LatinStructure,
    pub left_identity: bool,
    pub right_identity: bool,
    pub commutative: bool,
}

/// A prefix of a Latin square during backtracking: a sequence of rows, the
/// last possibly incomplete.
#[derive(Debug, Clone)]
pub struct PartialLatinSquare(pub Vec<Vec<usize>>);

/// A complete Latin square, held as its rows.
#[derive(Debug, Clone)]
pub struct LatinSquare(pub Vec<Vec<usize>>);

impl View for LatinSquare {
    type V = Seq<Seq<usize>>;

    open spec fn view(&self) -> Seq<Seq<usize>> {
        grid_of(self.0@)
    }
}

impl PartialEq for LatinSquare {
    fn eq(&self, other: &LatinSquare) -> (r: bool) {
        if self.0.len() != other.0.len() {
            proof {
                assert(self@.len() != other@.len());
            }
            return false;
        }
        let mut k: usize = 0;
        while k < self.0.len()
            invariant
                k <= self.0@.len(),
                self.0@.len() == other.0@.len(),
                forall|j: int| 0 <= j < k ==> self.0@[j]@ == other.0@[j]@,
            decreases self.0@.len() - k,
        {
            if !vec_usize_eq(&self.0[k], &other.0[k]) {
                proof {
                    assert(self@[k as int] != other@[k as int]);
                }
                return false;
            }
            k = k + 1;
        }
        proof {
            assert(self@ =~= other@);
        }
        true
    }
}

impl Eq for LatinSquare {

}

impl vstd::std_specs::cmp::PartialEqSpecImpl for LatinSquare {
    open spec fn obeys_eq_spec() -> bool {
        true
    }

    open spec fn eq_spec(&self, other: &LatinSquare) -> bool {
        self@ == other@
    }
}

// ---------------------------------------------------------------------------
// Executable helpers.
// ---------------------------------------------------------------------------

/// An independent copy of a table's rows.
pub fn clone_grid(v: &Vec<Vec<usize>>) -> (r: Vec<Vec<usize>>)
    ensures
        r@.len() == v@.len(),
        forall|i: int| 0 <= i < v@.len() ==> #[trigger] r@[i]@ == v@[i]@,
{
    let mut r: Vec<Vec<usize>> = Vec::new();
    let mut k: usize = 0;
    while k < v.len()
        invariant
            k <= v@.len(),
            r@.len() == k,
            forall|i: int| 0 <= i < k ==> #[trigger] r@[i]@ == v@[i]@,
        decreases v@.len() - k,
    {
        r.push(clone_row(&v[k]));
        k = k + 1;
    }
    r
}

/// Whether `x` occurs at column `col` in one of the first `upto` rows.
fn col_contains(rows: &Vec<Vec<usize>>, upto: usize, col: usize, x: usize) -> (r: bool)
    requires
        upto <= rows@.len(),
        forall|i: int| 0 <= i < upto ==> col < #[trigger] rows@[i]@.len(),
    ensures
        r == exists|i: int| 0 <= i < upto && #[trigger] rows@[i]@[col as int] == x,
{
    let mut k: usize = 0;
    while k < upto
        invariant
            k <= upto,
            upto <= rows@.len(),
            forall|i: int| 0 <= i < upto ==> col < #[trigger] rows@[i]@.len(),
            forall|i: int| 0 <= i < k ==> #[trigger] rows@[i]@[col as int] != x,
        decreases upto - k,
    {
        if rows[k][col] == x {
            return true;
        }
        k = k + 1;
    }
    false
}

// ---------------------------------------------------------------------------
// Generation of all Latin squares.
// ---------------------------------------------------------------------------

/// Takes a prefix of a Latin square and extends it, cell by cell in
/// row-major order, to every complete Latin square beginning with it, the
/// squares coming out in strictly increasing row-major order.  A prefix
/// with no free cell yields nothing.
pub fn latin_square_recursion(n: usize, partial: PartialLatinSquare) -> (result: Vec<LatinSquare>)
    requires
        partial_wf(grid_of(partial.0@), n as int),
    ensures
        forall|k: int|
            0 <= k < result@.len() ==> latin_ok(#[trigger] result@[k]@, n as int) && grid_extends(
                result@[k]@,
                grid_of(partial.0@),
            ),
        partial_incomplete(grid_of(partial.0@), n as int) ==> forall|l: Seq<Seq<usize>>|
            latin_ok(l, n as int) && #[trigger] grid_extends(l, grid_of(partial.0@))
                ==> squares_contain(result@, l),
        !partial_incomplete(grid_of(partial.0@), n as int) ==> result@.len() == 0,
        squares_distinct(result@),
        squares_lex_sorted(result@),
    decreases n - partial.0@.len(), n - partial.0@.last()@.len(),
{
    let ghost pd = grid_of(partial.0@);
    let plen = partial.0.len();
    let last_len = partial.0[plen - 1].len();

    let mut col = last_len;
    let mut row = plen - 1;

    if col == n {
        col = 0;
        row = row + 1;
    }

    proof {
        assert(col == 0 ==> row == pd.len() && pd.last().len() == n);
        assert(col != 0 ==> row == pd.len() - 1 && col == pd[row as int].len() && col < n);
    }

    let mut result: Vec<LatinSquare> = Vec::new();
    let mut i: usize = 0;

    while i < n
        invariant
            pd == grid_of(partial.0@),
            partial_wf(pd, n as int),
            plen == pd.len(),
            i <= n,
            col == 0 ==> row == pd.len() && pd.last().len() == n,
            col != 0 ==> row == pd.len() - 1 && col == pd[row as int].len() && col < n,
            row == n ==> result@.len() == 0,
            forall|k: int|
                0 <= k < result@.len() ==> latin_ok(#[trigger] result@[k]@, n as int)
                    && grid_extends(result@[k]@, pd) && result@[k]@[row as int][col as int] < i,
            row < n ==> forall|l: Seq<Seq<usize>>|
                latin_ok(l, n as int) && #[trigger] grid_extends(l, pd) && l[row as int][col as int]
                    < i ==> squares_contain(result@, l),
            squares_distinct(result@),
            squares_lex_sorted(result@),
        decreases n - i,
    {
        // The candidate must be new to its row and to its column.
        let mut ok = true;
        if row < plen {
            if contains_val(&partial.0[row], i) {
                ok = false;
            }
        }
        if ok {
            proof {
                assert forall|r: int| 0 <= r < row implies col < #[trigger] partial.0@[r]@.len() by {
                    assert(pd[r] == partial.0@[r]@);
                    if r < pd.len() - 1 {
                        assert(pd[r].len() == n);
                    } else {
                        assert(col == 0 && pd.last().len() == n);
                    }
                }
            }
            if col_contains(&partial.0, row, col, i) {
                ok = false;
            }
        }

        if ok {
            proof {
                // A full table admits no candidate: its first column already
                // holds every value.
                if row == n {
                    let col_seq = Seq::new(n as nat, |r: int| pd[r][0]);
                    assert forall|r1: int, r2: int|
                        0 <= r1 < r2 < col_seq.len() implies col_seq[r1] != col_seq[r2] by {
                        assert(pd[r1][0] != pd[r2][0]);
                    }
                    assert(is_permutation(col_seq, n as int));
                    lemma_permutation_surjective(col_seq, n as int, i);
                    let r = choose|r: int| 0 <= r < n && col_seq[r] == i;
                    assert(pd[r][0] == i);
                    assert(false);
                }
                assert(row < n);
            }

            let mut p = clone_grid(&partial.0);

            if col == 0 {
                // Start a new row with the candidate.
                let mut newrow: Vec<usize> = Vec::new();
                newrow.push(i);
                p.push(newrow);
                let ghost new_pd = grid_of(p@);
                proof {
                    assert(new_pd =~= pd.push(seq![i]));
                    assert(seq![i].no_duplicates());
                    assert(partial_wf(new_pd, n as int)) by {
                        assert(forall|k: int| 0 <= k < pd.len() ==> #[trigger] new_pd[k] == pd[k]);
                        assert(new_pd.last() == seq![i]);
                        assert forall|k: int|
                            0 <= k < new_pd.len() - 1 implies #[trigger] new_pd[k].len() == n by {
                            if k < pd.len() - 1 {
                            } else {
                                assert(new_pd[k] == pd.last());
                            }
                        }
                    }
                    assert(partial_incomplete(new_pd, n as int)) by {
                        assert(new_pd.last().len() == 1);
                        assert(n >= 2);
                    }
                }
                let mut sub = latin_square_recursion(n, PartialLatinSquare(p));
                let ghost old_rs = result@;
                let ghost sub_rs = sub@;
                result.append(&mut sub);
                proof {
                    lemma_branch_append(
                        pd,
                        new_pd,
                        old_rs,
                        sub_rs,
                        result@,
                        n as int,
                        row as int,
                        col as int,
                        i,
                    );
                }
            } else {
                // Extend the last row with the candidate.
                let mut lastrow = clone_row(&partial.0[row]);
                lastrow.push(i);
                let ghost lr = lastrow@;
                p[row] = lastrow;
                let ghost new_pd = grid_of(p@);
                proof {
                    assert(new_pd =~= pd.update(row as int, pd[row as int].push(i)));
                    assert(lr == pd[row as int].push(i));
                    assert(lr.no_duplicates()) by {
                        assert(forall|j: int|
                            0 <= j < pd[row as int].len() ==> #[trigger] pd[row as int][j] != i);
                        assert(forall|j: int|
                            0 <= j < pd[row as int].len() ==> lr[j] == #[trigger] pd[row as int][j]);
                    }
                    assert(partial_wf(new_pd, n as int)) by {
                        assert(forall|k: int|
                            0 <= k < pd.len() && k != row ==> #[trigger] new_pd[k] == pd[k]);
                        assert(new_pd[row as int] == lr);
                        assert(new_pd.last() == lr);
                    }
                }
                if row == n - 1 && col == n - 1 {
                    // The last free cell: its value was forced, and the
                    // completed table is the one extension.
                    let single = LatinSquare(p);
                    proof {
                        assert(single@ == new_pd);
                        lemma_last_cell(pd, new_pd, n as int, i);
                    }
                    let mut result2: Vec<LatinSquare> = Vec::new();
                    result2.push(single);
                    proof {
                        assert(result2@[0]@ == new_pd);
                        assert forall|l: Seq<Seq<usize>>|
                            latin_ok(l, n as int) && #[trigger] grid_extends(l, pd)
                                implies squares_contain(result2@, l) by {
                            assert(l == new_pd);
                        }
                        assert(partial_incomplete(pd, n as int));
                    }
                    return result2;
                }
                proof {
                    assert(partial_incomplete(new_pd, n as int)) by {
                        if row < n - 1 {
                            assert(new_pd.len() < n);
                        } else {
                            assert(col < n - 1);
                            assert(new_pd.last().len() == col + 1);
                        }
                    }
                }
                let mut sub = latin_square_recursion(n, PartialLatinSquare(p));
                let ghost old_rs = result@;
                let ghost sub_rs = sub@;
                result.append(&mut sub);
                proof {
                    lemma_branch_append(
                        pd,
                        new_pd,
                        old_rs,
                        sub_rs,
                        result@,
                        n as int,
                        row as int,
                        col as int,
                        i,
                    );
                }
            }
        } else {
            proof {
                // A rejected candidate extends no Latin square: it would
                // repeat a value in its row or in its column.
                if row < n {
                    assert forall|l: Seq<Seq<usize>>|
                        latin_ok(l, n as int) && #[trigger] grid_extends(l, pd)
                            && l[row as int][col as int] < i + 1 implies squares_contain(
                        result@,
                        l,
                    ) by {
                        if l[row as int][col as int] == i {
                            if row < plen && pd[row as int].contains(i) {
                                let j = choose|j: int|
                                    0 <= j < pd[row as int].len() && pd[row as int][j] == i;
                                assert(l[row as int][j] == i);
                                assert(j < col);
                                assert(l[row as int].no_duplicates());
                                assert(false);
                            } else {
                                let r = choose|r: int|
                                    0 <= r < row && #[trigger] partial.0@[r]@[col as int] == i;
                                assert(pd[r][col as int] == i);
                                assert(l[r][col as int] == i);
                                assert(false);
                            }
                        }
                    }
                }
            }
        }
        i = i + 1;
    }

    proof {
        if row < n {
            assert(partial_incomplete(pd, n as int));
            assert forall|l: Seq<Seq<usize>>|
                latin_ok(l, n as int) && #[trigger] grid_extends(l, pd) implies squares_contain(
                result@,
                l,
            ) by {
                assert(l[row as int][col as int] < n);
            }
        } else {
            assert(!partial_incomplete(pd, n as int));
        }
    }
    result
}

impl LatinSquare {
    /// Applies a permutation to the Latin square in place, replacing it with
    /// its conjugate: every entry is relabeled, and the rows and columns are
    /// brought back in order by pairwise swaps following the permutation.
    pub fn apply_permutation(&mut self, p: Permutation)
        requires
            latin_ok(old(self)@, old(self)@.len() as int),
            is_permutation(p@, old(self)@.len() as int),
        ensures
            final(self)@ == conjugate(old(self)@, p@),
    {
        let ghost t0 = old(self)@;
        let ghost p0 = p@;
        let ghost n_spec = t0.len() as int;
        let n = self.0.len();
        let mut p = p;

        // Relabel every entry by p.
        let mut r: usize = 0;
        while r < n
            invariant
                self.0@.len() == n,
                p@ == p0,
                n_spec == n as int,
                latin_ok(t0, n_spec),
                is_permutation(p0, n_spec),
                grid_of(self.0@).len() == n,
                forall|x: int| r <= x < n ==> #[trigger] self.0@[x]@ == t0[x],
                forall|x: int| 0 <= x < r ==> #[trigger] self.0@[x]@.len() == n,
                forall|x: int, y: int|
                    0 <= x < r && 0 <= y < n ==> #[trigger] self.0@[x]@[y] == p0[t0[x][y] as int],
            decreases n - r,
        {
            let mut rowv = clone_row(&self.0[r]);
            let ghost oldrow = rowv@;
            proof {
                assert(oldrow == t0[r as int]);
            }
            let mut y: usize = 0;
            while y < n
                invariant
                    rowv@.len() == n,
                    oldrow.len() == n,
                    p@ == p0,
                    is_permutation(p0, n_spec),
                    n_spec == n as int,
                    forall|z: int| 0 <= z < oldrow.len() ==> #[trigger] oldrow[z] < n,
                    y <= n,
                    forall|z: int| y <= z < n ==> #[trigger] rowv@[z] == oldrow[z],
                    forall|z: int| 0 <= z < y ==> #[trigger] rowv@[z] == p0[oldrow[z] as int],
                decreases n - y,
            {
                let v = rowv[y];
                rowv[y] = p.0[v];
                y = y + 1;
            }
            self.0[r] = rowv;
            r = r + 1;
        }

        let ghost rl = relabel(t0, p0);
        proof {
            assert forall|x: int| 0 <= x < n implies #[trigger] self.0@[x]@ == rl[x] by {
                assert(self.0@[x]@ =~= rl[x]);
            }
        }

        // Sort the rows and columns back by pairwise swaps: bring value i to
        // position i of the working permutation, swapping the table alike.
        let ghost mut sigma: Seq<usize> = identity_perm(n_spec);
        proof {
            lemma_identity_perm(n_spec);
            assert forall|x: int, y: int|
                0 <= x < n && 0 <= y < n implies #[trigger] self.0@[x]@[y] == rl[sigma[x] as int][sigma[y] as int] by {
                assert(self.0@[x]@ == rl[x]);
            }
            assert(spec_compose(p0, sigma) == p0);
        }

        let mut i: usize = 0;
        while i < n
            invariant
                self.0@.len() == n,
                p@.len() == n,
                n_spec == n as int,
                latin_ok(t0, n_spec),
                is_permutation(p0, n_spec),
                is_permutation(sigma, n_spec),
                p@ == spec_compose(p0, sigma),
                i <= n,
                forall|k: int| 0 <= k < i ==> #[trigger] p@[k] == k,
                forall|x: int| 0 <= x < n ==> #[trigger] self.0@[x]@.len() == n,
                forall|x: int, y: int|
                    0 <= x < n && 0 <= y < n ==> #[trigger] self.0@[x]@[y] == rl[sigma[x] as int][sigma[y] as int],
            decreases n - i,
        {
            // Find where the working permutation holds value i.
            proof {
                lemma_compose_is_permutation(p0, sigma, n_spec);
                lemma_permutation_surjective(p@, n_spec, i);
            }
            let mut j: usize = 0;
            let mut found = false;
            let mut k: usize = 0;
            while k < n
                invariant
                    p@.len() == n,
                    k <= n,
                    !found ==> forall|z: int| 0 <= z < k ==> #[trigger] p@[z] != i,
                    found ==> j < n && p@[j as int] == i,
                decreases n - k,
            {
                if !found && p.0[k] == i {
                    j = k;
                    found = true;
                }
                k = k + 1;
            }
            proof {
                assert(found) by {
                    if !found {
                        let z = choose|z: int| 0 <= z < n && p@[z] == i;
                        assert(p@[z] != i);
                    }
                }
                assert(j >= i) by {
                    if (j as int) < i {
                        assert(p@[j as int] == j);
                    }
                }
            }

            if i != j {
                let ghost before = grid_of(self.0@);
                let ghost w_before = p@;
                let ghost tau = transposition(n_spec, i as int, j as int);

                // Swap rows i and j.
                let ri = clone_row(&self.0[i]);
                let rj = clone_row(&self.0[j]);
                self.0[i] = rj;
                self.0[j] = ri;

                // Swap columns i and j in every row.
                let mut x: usize = 0;
                while x < n
                    invariant
                        self.0@.len() == n,
                        i < n,
                        j < n,
                        i != j,
                        x <= n,
                        forall|z: int| 0 <= z < n ==> #[trigger] self.0@[z]@.len() == n,
                        forall|z: int|
                            0 <= z < n ==> #[trigger] self.0@[z]@ == (if z < x {
                                before[tau[z] as int].update(i as int, before[tau[z] as int][j as int]).update(
                                    j as int,
                                    before[tau[z] as int][i as int],
                                )
                            } else {
                                before[tau[z] as int]
                            }),
                    decreases n - x,
                {
                    let mut rowx = clone_row(&self.0[x]);
                    let a = rowx[i];
                    let b = rowx[j];
                    rowx[i] = b;
                    rowx[j] = a;
                    self.0[x] = rowx;
                    x = x + 1;
                }

                // Swap the two positions of the working permutation.
                let wi = p.0[i];
                let wj = p.0[j];
                p.0[i] = wj;
                p.0[j] = wi;

                proof {
                    lemma_transposition_is_permutation(n_spec, i as int, j as int);
                    let sigma2 = spec_compose(sigma, tau);
                    lemma_compose_is_permutation(sigma, tau, n_spec);

                    // The table now reads the relabeled table through sigma o tau.
                    assert forall|x2: int, y2: int|
                        0 <= x2 < n && 0 <= y2 < n implies #[trigger] self.0@[x2]@[y2]
                            == rl[sigma2[x2] as int][sigma2[y2] as int] by {
                        let tx = tau[x2] as int;
                        let ty = tau[y2] as int;
                        assert(self.0@[x2]@ == before[tx].update(i as int, before[tx][j as int]).update(
                            j as int,
                            before[tx][i as int],
                        ));
                        assert(before[tx].len() == n);
                        assert(self.0@[x2]@[y2] == before[tx][ty]) by {
                            if y2 == i {
                                assert(tau[y2] == j as usize);
                            } else if y2 == j {
                                assert(tau[y2] == i as usize);
                            } else {
                                assert(tau[y2] == y2 as usize);
                            }
                        }
                        assert(before[tx][ty] == rl[sigma[tx] as int][sigma[ty] as int]);
                        assert(sigma2[x2] == sigma[tx]);
                        assert(sigma2[y2] == sigma[ty]);
                    }

                    // The working permutation is p0 composed with sigma o tau.
                    assert forall|z: int| 0 <= z < n implies #[trigger] p@[z] == spec_compose(
                        p0,
                        sigma2,
                    )[z] by {
                        let tz = tau[z] as int;
                        assert(p@[z] == w_before[tz]) by {
                            if z == i {
                                assert(tau[z] == j as usize);
                            } else if z == j {
                                assert(tau[z] == i as usize);
                            } else {
                                assert(tau[z] == z as usize);
                            }
                        }
                        assert(w_before[tz] == p0[sigma[tz] as int]);
                        assert(sigma2[z] == sigma[tz]);
                    }
                    assert(p@ =~= spec_compose(p0, sigma2));

                    // Positions up to and including i now hold their own index.
                    assert forall|z: int| 0 <= z < i + 1 implies #[trigger] p@[z] == z by {
                        if z < i {
                            assert(tau[z] == z as usize);
                            assert(p@[z] == w_before[z]);
                        } else {
                            assert(tau[z] == j as usize);
                            assert(p@[z] == w_before[j as int]);
                        }
                    }

                    sigma = sigma2;
                }
            } else {
                proof {
                    assert(p@[i as int] == i);
                }
            }
            i = i + 1;
        }

        proof {
            assert(p@ =~= identity_perm(n_spec));
            lemma_identity_perm(n_spec);
            lemma_right_inverse_unique(p0, sigma, n_spec);
            assert(sigma == perm_inv(p0));
            let c = conjugate(t0, p0);
            assert(c.len() == n);
            assert forall|x: int| 0 <= x < n implies #[trigger] self@[x] == c[x] by {
                assert forall|y: int| 0 <= y < n implies #[trigger] self.0@[x]@[y] == c[x][y] by {
                    assert(self.0@[x]@[y] == rl[sigma[x] as int][sigma[y] as int]);
                    assert(c[x][y] == rl[perm_inv(p0)[x] as int][perm_inv(p0)[y] as int]);
                }
                assert(self@[x] == self.0@[x]@);
                assert(self@[x] =~= c[x]);
            }
            assert(self@ =~= c);
        }
    }

    /// Whether some row is the sequence 0, 1, .., n-1.
    pub fn left_identity(&self) -> (r: bool)
        requires
            latin_ok(self@, self@.len() as int),
        ensures
            r == spec_has_left_identity(self@, self@.len() as int),
    {
        let ghost n_spec = self@.len() as int;
        let n = self.0.len();
        let mut standard: Vec<usize> = Vec::new();
        let mut k: usize = 0;
        while k < n
            invariant
                k <= n,
                standard@.len() == k,
                forall|z: int| 0 <= z < k ==> #[trigger] standard@[z] == z as usize,
            decreases n - k,
        {
            standard.push(k);
            k = k + 1;
        }
        proof {
            assert(standard@ =~= identity_perm(n_spec));
        }
        proof {
            assert forall|q: int| 0 <= q < n implies #[trigger] self.0@[q]@.len() == n by {
                assert(self@[q] == self.0@[q]@);
            }
        }
        let mut e: usize = 0;
        while e < n
            invariant
                e <= n,
                n_spec == n as int,
                standard@ == identity_perm(n_spec),
                self@.len() == n,
                self.0@.len() == n,
                forall|q: int| 0 <= q < n ==> #[trigger] self.0@[q]@.len() == n,
                forall|z: int| 0 <= z < e ==> #[trigger] self@[z] != identity_perm(n_spec),
            decreases n - e,
        {
            if vec_usize_eq(&self.0[e], &standard) {
                proof {
                    assert(self@[e as int] == identity_perm(n_spec));
                }
                return true;
            }
            e = e + 1;
        }
        proof {
            if spec_has_left_identity(self@, n_spec) {
                let w = choose|w: int| 0 <= w < n_spec && #[trigger] self@[w] == identity_perm(
                    n_spec,
                );
                assert(false);
            }
        }
        false
    }

    /// Whether some column reads 0, 1, .., n-1.
    pub fn right_identity(&self) -> (r: bool)
        requires
            latin_ok(self@, self@.len() as int),
        ensures
            r == spec_has_right_identity(self@, self@.len() as int),
    {
        let ghost t = self@;
        let ghost n_spec = t.len() as int;
        let n = self.0.len();
        let column = self.zero_column();
        proof {
            assert forall|q: int| 0 <= q < n implies #[trigger] self.0@[q]@.len() == n by {
                assert(self@[q] == self.0@[q]@);
            }
        }
        let mut rr: usize = 0;
        while rr < n
            invariant
                rr <= n,
                n_spec == n as int,
                latin_ok(t, n_spec),
                t == self@,
                self.0@.len() == n,
                forall|q: int| 0 <= q < n ==> #[trigger] self.0@[q]@.len() == n,
                column < n,
                t[0][column as int] == 0,
                forall|z: int| 0 <= z < rr ==> #[trigger] t[z][column as int] == z as usize,
            decreases n - rr,
        {
            if self.0[rr][column] != rr {
                proof {
                    // Any identity column would hold 0 in row 0, so it would
                    // be this column; but this column fails at row rr.
                    if spec_has_right_identity(t, n_spec) {
                        let c = choose|c: int|
                            0 <= c < n_spec && #[trigger] right_identity_at(t, n_spec, c);
                        assert(t[0][c] == 0);
                        if c != column {
                            lemma_nodup_unordered(t[0], c, column as int);
                        }
                        assert(t[rr as int][c] == rr as usize);
                        assert(false);
                    }
                }
                return false;
            }
            rr = rr + 1;
        }
        proof {
            assert(right_identity_at(t, n_spec, column as int));
        }
        true
    }

    /// The column of the first row holding the value 0.
    fn zero_column(&self) -> (c: usize)
        requires
            latin_ok(self@, self@.len() as int),
        ensures
            c < self@.len(),
            self@[0][c as int] == 0,
    {
        let ghost t = self@;
        let ghost n_spec = t.len() as int;
        let n = self.0.len();
        proof {
            assert forall|q: int| 0 <= q < n implies #[trigger] self.0@[q]@.len() == n by {
                assert(self@[q] == self.0@[q]@);
            }
            assert(t[0] == self.0@[0]@);
            assert(is_permutation(t[0], n_spec));
            lemma_permutation_surjective(t[0], n_spec, 0);
        }
        let mut k: usize = 0;
        while k < n
            invariant
                k <= n,
                n_spec == n as int,
                t == self@,
                t[0].len() == n,
                self.0@.len() == n,
                forall|q: int| 0 <= q < n ==> #[trigger] self.0@[q]@.len() == n,
                exists|z: int| 0 <= z < n_spec && t[0][z] == 0,
                forall|z: int| 0 <= z < k ==> #[trigger] t[0][z] != 0,
            decreases n - k,
        {
            if self.0[0][k] == 0 {
                return k;
            }
            k = k + 1;
        }
        proof {
            let z = choose|z: int| 0 <= z < n_spec && t[0][z] == 0;
            assert(t[0][z] != 0);
            assert(false);
        }
        0
    }

    /// Whether the table is symmetric.
    pub fn commutative(&self) -> (r: bool)
        requires
            latin_ok(self@, self@.len() as int),
        ensures
            r == spec_commutative(self@, self@.len() as int),
    {
        let ghost t = self@;
        let ghost n_spec = t.len() as int;
        let n = self.0.len();
        proof {
            assert forall|q: int| 0 <= q < n implies #[trigger] self.0@[q]@.len() == n by {
                assert(self@[q] == self.0@[q]@);
            }
        }
        let mut a: usize = 1;
        while a < n
            invariant
                1 <= a <= n || n == 0,
                n_spec == n as int,
                t == self@,
                latin_ok(t, n_spec) || n == 0,
                self.0@.len() == n,
                forall|q: int| 0 <= q < n ==> #[trigger] self.0@[q]@.len() == n,
                forall|a2: int, b2: int|
                    0 <= b2 < a2 < a ==> #[trigger] t[a2][b2] == #[trigger] t[b2][a2],
            decreases n - a,
        {
            let mut b: usize = 0;
            while b < a
                invariant
                    b <= a < n,
                    n_spec == n as int,
                    t == self@,
                    latin_ok(t, n_spec),
                    self.0@.len() == n,
                    forall|q: int| 0 <= q < n ==> #[trigger] self.0@[q]@.len() == n,
                    forall|a2: int, b2: int|
                        0 <= b2 < a2 < a ==> #[trigger] t[a2][b2] == #[trigger] t[b2][a2],
                    forall|b2: int| 0 <= b2 < b ==> #[trigger] t[a as int][b2] == t[b2][a as int],
                decreases a - b,
            {
                proof {
                    assert(t[a as int] == self.0@[a as int]@);
                    assert(t[b as int] == self.0@[b as int]@);
                }
                if self.0[a][b] != self.0[b][a] {
                    return false;
                }
                b = b + 1;
            }
            a = a + 1;
        }
        proof {
            assert forall|a2: int, b2: int|
                0 <= a2 < n && 0 <= b2 < n implies #[trigger] t[a2][b2] == #[trigger] t[b2][a2] by {
                if a2 < b2 {
                } else if b2 < a2 {
                } else {
                }
            }
        }
        true
    }

    /// Whether the operation is associative, by the direct check of every
    /// triple over a completed table.
    pub fn associative(&self) -> (r: bool)
        requires
            latin_ok(self@, self@.len() as int),
        ensures
            r == spec_associative(self@, self@.len() as int),
    {
        let n = self.0.len();
        self.triples_associative(n)
    }

    /// Checks a(bc) == (ab)c for every triple whose members differ from
    /// `skip`; passing n as `skip` checks every triple.
    fn triples_associative(&self, skip: usize) -> (r: bool)
        requires
            latin_ok(self@, self@.len() as int),
        ensures
            r == spec_nonskip_associative(self@, self@.len() as int, skip as int),
    {
        let ghost t = self@;
        let ghost n_spec = t.len() as int;
        let n = self.0.len();
        proof {
            assert forall|q: int| 0 <= q < n implies #[trigger] self.0@[q]@.len() == n by {
                assert(self@[q] == self.0@[q]@);
            }
        }
        let mut x: usize = 0;
        while x < n
            invariant
                x <= n,
                n_spec == n as int,
                t == self@,
                latin_ok(t, n_spec),
                self.0@.len() == n,
                forall|q: int| 0 <= q < n ==> #[trigger] self.0@[q]@.len() == n,
                forall|x2: int, y2: int, z2: int|
                    0 <= x2 < x && 0 <= y2 < n && 0 <= z2 < n && x2 != skip && y2 != skip && z2
                        != skip ==> #[trigger] assoc_at(t, x2, y2, z2),
            decreases n - x,
        {
            if x != skip {
                let mut y: usize = 0;
                while y < n
                    invariant
                        y <= n,
                        x < n,
                        x != skip,
                        n_spec == n as int,
                        t == self@,
                        latin_ok(t, n_spec),
                        self.0@.len() == n,
                        forall|q: int| 0 <= q < n ==> #[trigger] self.0@[q]@.len() == n,
                        forall|y2: int, z2: int|
                            0 <= y2 < y && 0 <= z2 < n && y2 != skip && z2 != skip
                                ==> #[trigger] assoc_at(t, x as int, y2, z2),
                    decreases n - y,
                {
                    if y != skip {
                        let mut z: usize = 0;
                        while z < n
                            invariant
                                z <= n,
                                x < n,
                                y < n,
                                x != skip,
                                y != skip,
                                n_spec == n as int,
                                t == self@,
                                latin_ok(t, n_spec),
                                self.0@.len() == n,
                                forall|q: int| 0 <= q < n ==> #[trigger] self.0@[q]@.len() == n,
                                forall|z2: int|
                                    0 <= z2 < z && z2 != skip
                                        ==> #[trigger] assoc_at(t, x as int, y as int, z2),
                            decreases n - z,
                        {
                            if z != skip {
                                proof {
                                    assert(t[x as int] == self.0@[x as int]@);
                                    assert(t[y as int] == self.0@[y as int]@);
                                }
                                let bc = self.0[y][z];
                                let ab = self.0[x][y];
                                proof {
                                    assert(bc == t[y as int][z as int]);
                                    assert(ab == t[x as int][y as int]);
                                    assert(t[bc as int] == self.0@[bc as int]@);
                                    assert(t[ab as int] == self.0@[ab as int]@);
                                }
                                if self.0[x][bc] != self.0[ab][z] {
                                    proof {
                                        assert(!assoc_at(t, x as int, y as int, z as int));
                                    }
                                    return false;
                                }
                                proof {
                                    assert(assoc_at(t, x as int, y as int, z as int));
                                }
                            }
                            z = z + 1;
                        }
                    }
                    y = y + 1;
                }
            }
            x = x + 1;
        }
        true
    }

    /// Classifies the Latin square as a quasigroup, loop, group or abelian
    /// group.  With a two-sided identity present, associativity is checked
    /// over the non-identity elements only; triples touching the identity
    /// hold by themselves.
    pub fn classify(&self) -> (r: LatinStructure)
        requires
            latin_ok(self@, self@.len() as int),
        ensures
            r == spec_classify(self@, self@.len() as int),
    {
        let ghost t = self@;
        let ghost n_spec = t.len() as int;
        let n = self.0.len();
        proof {
            assert(n_spec == n as int);
        }
        if !self.left_identity() {
            return LatinStructure::Quasigroup;
        }

        if !self.right_identity() {
            return LatinStructure::Quasigroup;
        }

        // The value 0 sits in the identity column of row 0.
        let column = self.zero_column();
        proof {
            lemma_identity_element(t, n_spec, column as int);
        }

        if !self.triples_associative(column) {
            proof {
                lemma_nonskip_assoc_suffices(t, n_spec, column as int);
            }
            return LatinStructure::Loop;
        }
        proof {
            lemma_nonskip_assoc_suffices(t, n_spec, column as int);
        }

        if !self.commutative() {
            return LatinStructure::Group;
        }

        LatinStructure::Abelian
    }

    /// The class of the square together with the identity and commutativity
    /// flags.
    pub fn classify_structure(&self) -> (r: LatinType)
        requires
            latin_ok(self@, self@.len() as int),
        ensures
            r.structure == spec_classify(self@, self@.len() as int),
            r.left_identity == spec_has_left_identity(self@, self@.len() as int),
            r.right_identity == spec_has_right_identity(self@, self@.len() as int),
            r.commutative == spec_commutative(self@, self@.len() as int),
    {
        let ghost t = self@;
        let ghost n_spec = t.len() as int;
        let n = self.0.len();
        proof {
            assert(n_spec == n as int);
        }
        let class = self.classify();

        let flags: (bool, bool, bool) = match class {
            LatinStructure::Abelian => (true, true, true),
            LatinStructure::Group => (true, true, false),
            LatinStructure::Loop => {
                if self.commutative() {
                    (true, true, true)
                } else {
                    (true, true, false)
                }
            },
            LatinStructure::Quasigroup => {
                if self.commutative() {
                    proof {
                        lemma_commutative_one_sided(t, n_spec);
                    }
                    (false, false, true)
                } else if self.left_identity() {
                    (true, false, false)
                } else if self.right_identity() {
                    (false, true, false)
                } else {
                    (false, false, false)
                }
            },
        };

        LatinType {
            commutative: flags.2,
            left_identity: flags.0,
            right_identity: flags.1,
            structure: class,
        }
    }

    /// The permutation given by translation with the element v: row v for a
    /// left translation, column v for a right translation.
    pub fn addition_permutation(&self, v: usize, side: &Sidedness) -> (r: Permutation)
        requires
            latin_ok(self@, self@.len() as int),
            v < self@.len(),
        ensures
            r@.len() == self@.len(),
            *side == Sidedness::Left ==> forall|k: int|
                0 <= k < self@.len() ==> r@[k] == #[trigger] self@[v as int][k],
            *side == Sidedness::Right ==> forall|k: int|
                0 <= k < self@.len() ==> r@[k] == #[trigger] self@[k][v as int],
            is_permutation(r@, self@.len() as int),
    {
        let ghost t = self@;
        let ghost n_spec = t.len() as int;
        let n = self.0.len();
        let mut result: Vec<usize> = Vec::new();

        proof {
            assert forall|q: int| 0 <= q < n implies #[trigger] self.0@[q]@.len() == n by {
                assert(self@[q] == self.0@[q]@);
            }
        }
        let mut i: usize = 0;
        while i < n
            invariant
                i <= n,
                n_spec == n as int,
                t == self@,
                latin_ok(t, n_spec),
                v < n,
                self.0@.len() == n,
                forall|q: int| 0 <= q < n ==> #[trigger] self.0@[q]@.len() == n,
                result@.len() == i,
                *side == Sidedness::Left ==> forall|k: int|
                    0 <= k < i ==> result@[k] == #[trigger] t[v as int][k],
                *side == Sidedness::Right ==> forall|k: int|
                    0 <= k < i ==> result@[k] == #[trigger] t[k][v as int],
            decreases n - i,
        {
            let val = match side {
                Sidedness::Left => self.0[v][i],
                Sidedness::Right => self.0[i][v],
            };
            result.push(val);
            i = i + 1;
        }

        proof {
            assert forall|k1: int, k2: int|
                0 <= k1 < k2 < result@.len() implies result@[k1] != result@[k2] by {
                match *side {
                    Sidedness::Left => {
                        lemma_nodup_unordered(t[v as int], k1, k2);
                    },
                    Sidedness::Right => {
                        assert(t[k1][v as int] != t[k2][v as int]);
                    },
                }
            }
            assert forall|k: int| 0 <= k < result@.len() implies #[trigger] result@[k] < n_spec by {
                if *side == Sidedness::Left {
                    assert(result@[k] == t[v as int][k]);
                    assert(t[v as int][k] < n_spec);
                } else {
                    assert(*side == Sidedness::Right);
                    assert(result@[k] == t[k][v as int]);
                    assert(t[k][v as int] < n_spec);
                }
            }
        }
        Permutation(result)
    }

    /// Generates every Latin square of order n, with no fixed identity, in
    /// strictly increasing row-major order — in particular grouped by the
    /// first entry ascending.  Order 1 yields exactly the one trivial
    /// square.
    pub fn generate_all(n: usize) -> (result: Vec<LatinSquare>)
        ensures
            forall|k: int| 0 <= k < result@.len() ==> latin_ok(#[trigger] result@[k]@, n as int),
            n >= 1 ==> forall|l: Seq<Seq<usize>>|
                #[trigger] latin_ok(l, n as int) ==> squares_contain(result@, l),
            squares_distinct(result@),
            squares_lex_sorted(result@),
    {
        if n == 1 {
            // The one trivial square: the backtracking below starts from a
            // filled first cell and would never revisit this complete
            // prefix.
            let mut r0: Vec<usize> = Vec::new();
            r0.push(0);
            let mut cells: Vec<Vec<usize>> = Vec::new();
            cells.push(r0);
            let single = LatinSquare(cells);
            let mut result: Vec<LatinSquare> = Vec::new();
            proof {
                assert(single@ =~= seq![seq![0usize]]);
                assert(seq![0usize].no_duplicates());
                assert(latin_ok(single@, 1));
            }
            result.push(single);
            proof {
                assert forall|l: Seq<Seq<usize>>|
                    #[trigger] latin_ok(l, n as int) implies squares_contain(result@, l) by {
                    assert(l[0][0] < 1);
                    assert(l[0] =~= seq![0usize]);
                    assert(l =~= single@);
                    assert(result@[0]@ == l);
                }
            }
            return result;
        }

        let mut result: Vec<LatinSquare> = Vec::new();
        let mut i: usize = 0;

        while i < n
            invariant
                i <= n,
                n != 1,
                forall|k: int|
                    0 <= k < result@.len() ==> latin_ok(#[trigger] result@[k]@, n as int)
                        && result@[k]@[0][0] < i,
                forall|l: Seq<Seq<usize>>|
                    #[trigger] latin_ok(l, n as int) && l[0][0] < i ==> squares_contain(result@, l),
                squares_distinct(result@),
                squares_lex_sorted(result@),
            decreases n - i,
        {
            let mut r0: Vec<usize> = Vec::new();
            r0.push(i);
            let mut start: Vec<Vec<usize>> = Vec::new();
            start.push(r0);
            let ghost spd = grid_of(start@);
            proof {
                assert(spd =~= seq![seq![i]]);
                assert(spd.last() == seq![i]);
                assert(seq![i].no_duplicates());
                assert(partial_wf(spd, n as int));
            }
            let mut sub = latin_square_recursion(n, PartialLatinSquare(start));
            let ghost old_rs = result@;
            let ghost sub_rs = sub@;
            result.append(&mut sub);
            proof {
                assert forall|k: int| 0 <= k < sub_rs.len() implies latin_ok(
                    #[trigger] sub_rs[k]@,
                    n as int,
                ) && sub_rs[k]@[0][0] == i by {
                    assert(grid_extends(sub_rs[k]@, spd));
                    assert(spd[0][0] == i);
                }
                assert forall|k: int| 0 <= k < result@.len() implies latin_ok(
                    #[trigger] result@[k]@,
                    n as int,
                ) && result@[k]@[0][0] < i + 1 by {
                    if k < old_rs.len() {
                        assert(result@[k] == old_rs[k]);
                    } else {
                        assert(result@[k] == sub_rs[k - old_rs.len()]);
                    }
                }
                assert(n >= 2);
                assert(partial_incomplete(spd, n as int));
                assert forall|l: Seq<Seq<usize>>|
                    #[trigger] latin_ok(l, n as int) && l[0][0] < i + 1 implies squares_contain(
                    result@,
                    l,
                ) by {
                    if l[0][0] < i {
                        let k = choose|k: int| 0 <= k < old_rs.len() && old_rs[k]@ == l;
                        assert(result@[k]@ == l);
                    } else {
                        assert(grid_extends(l, spd)) by {
                            assert(spd[0][0] == i);
                            assert(l[0][0] == i);
                        }
                        let k = choose|k: int| 0 <= k < sub_rs.len() && sub_rs[k]@ == l;
                        assert(result@[old_rs.len() + k]@ == l);
                    }
                }
                assert forall|k1: int, k2: int|
                    0 <= k1 < k2 < result@.len() implies result@[k1]@ != result@[k2]@
                    && grid_lex_lt(result@[k1]@, result@[k2]@) by {
                    if k1 < old_rs.len() && k2 >= old_rs.len() {
                        assert(result@[k1] == old_rs[k1]);
                        assert(result@[k2] == sub_rs[k2 - old_rs.len()]);
                        assert(result@[k1]@[0][0] < i);
                        assert(result@[k2]@[0][0] == i);
                        assert(grid_extends(result@[k1]@, spd.subrange(0, 0))) by {
                            assert(spd.subrange(0, 0).len() == 0);
                        }
                        assert(grid_extends(result@[k2]@, spd.subrange(0, 0)));
                        lemma_grid_lex_branch(result@[k1]@, result@[k2]@, spd.subrange(0, 0), 0, 0);
                    } else if k1 >= old_rs.len() {
                        assert(result@[k1] == sub_rs[k1 - old_rs.len()]);
                        assert(result@[k2] == sub_rs[k2 - old_rs.len()]);
                        assert(grid_lex_lt(sub_rs[k1 - old_rs.len()]@, sub_rs[k2 - old_rs.len()]@));
                    } else {
                        assert(result@[k1] == old_rs[k1]);
                        assert(result@[k2] == old_rs[k2]);
                    }
                }
            }
            i = i + 1;
        }

        proof {
            assert forall|l: Seq<Seq<usize>>|
                #[trigger] latin_ok(l, n as int) implies squares_contain(result@, l) by {
                assert(l[0][0] < n);
            }
        }
        result
    }
}

/// Each classification property carries over from a table to its conjugate.
proof fn lemma_conjugate_props_fwd(t: Seq<Seq<usize>>, p: Seq<usize>, n: int)
    requires
        n <= usize::MAX + 1,
        latin_ok(t, n),
        is_permutation(p, n),
    ensures
        spec_has_left_identity(t, n) ==> spec_has_left_identity(conjugate(t, p), n),
        spec_has_right_identity(t, n) ==> spec_has_right_identity(conjugate(t, p), n),
        spec_commutative(t, n) ==> spec_commutative(conjugate(t, p), n),
        spec_associative(t, n) ==> spec_associative(conjugate(t, p), n),
{
    lemma_perm_inv(p, n);
    lemma_conjugate_pointwise(t, p, n);
    let c = conjugate(t, p);
    let q = perm_inv(p);

    if spec_has_left_identity(t, n) {
        let e = choose|e: int| 0 <= e < n && #[trigger] t[e] == identity_perm(n);
        let pe = p[e] as int;
        assert forall|y1: int| 0 <= y1 < n implies c[pe][y1] == identity_perm(n)[y1] by {
            let y = q[y1] as int;
            assert(p[y] as int == y1);
            assert(c[p[e] as int][p[y] as int] == p[t[e][y] as int]);
            assert(t[e][y] == identity_perm(n)[y]);
            assert(identity_perm(n)[y] == y as usize);
        }
        assert(c[pe] =~= identity_perm(n));
        assert(spec_has_left_identity(c, n));
    }
    if spec_has_right_identity(t, n) {
        let c0 = choose|c0: int| 0 <= c0 < n && #[trigger] right_identity_at(t, n, c0);
        let pc = p[c0] as int;
        assert forall|r1: int| 0 <= r1 < n implies #[trigger] c[r1][pc] == r1 as usize by {
            let r = q[r1] as int;
            assert(p[r] as int == r1);
            assert(c[p[r] as int][p[c0] as int] == p[t[r][c0] as int]);
            assert(t[r][c0] == r as usize);
        }
        assert(right_identity_at(c, n, pc));
        assert(spec_has_right_identity(c, n));
    }
    if spec_commutative(t, n) {
        assert forall|a: int, b: int|
            0 <= a < n && 0 <= b < n implies #[trigger] c[a][b] == #[trigger] c[b][a] by {
            let x = q[a] as int;
            let y = q[b] as int;
            assert(p[x] as int == a);
            assert(p[y] as int == b);
            assert(c[p[x] as int][p[y] as int] == p[t[x][y] as int]);
            assert(c[p[y] as int][p[x] as int] == p[t[y][x] as int]);
            assert(t[x][y] == t[y][x]);
        }
    }
    if spec_associative(t, n) {
        assert forall|a: int, b: int, d: int|
            0 <= a < n && 0 <= b < n && 0 <= d < n implies #[trigger] assoc_at(c, a, b, d) by {
            let x = q[a] as int;
            let y = q[b] as int;
            let z = q[d] as int;
            assert(p[x] as int == a);
            assert(p[y] as int == b);
            assert(p[z] as int == d);
            let yz = t[y][z];
            let xy = t[x][y];
            assert(yz < n);
            assert(xy < n);
            assert(c[b][d] == p[yz as int]);
            assert(c[a][b] == p[xy as int]);
            assert(c[a][p[yz as int] as int] == p[t[x][yz as int] as int]);
            assert(c[p[xy as int] as int][d] == p[t[xy as int][z] as int]);
            assert(assoc_at(t, x, y, z));
        }
    }
}

/// Conjugating back by the inverse permutation restores the table.
proof fn lemma_conjugate_inverse(t: Seq<Seq<usize>>, p: Seq<usize>, n: int)
    requires
        n <= usize::MAX + 1,
        latin_ok(t, n),
        is_permutation(p, n),
    ensures
        conjugate(conjugate(t, p), perm_inv(p)) == t,
{
    lemma_perm_inv(p, n);
    lemma_conjugate_compose(t, p, perm_inv(p), n);
    lemma_identity_perm(n);
    assert(spec_compose(perm_inv(p), p) =~= identity_perm(n));
    lemma_conjugate_identity(t, n);
}

/// The class of a Latin square is a conjugacy invariant: relabeling the
/// elements moves each property — identities, commutativity, associativity —
/// along with the table, so the classification of the conjugate equals the
/// classification of the original.
pub proof fn lemma_classify_conjugate(t: Seq<Seq<usize>>, p: Seq<usize>, n: int)
    requires
        n <= usize::MAX + 1,
        latin_ok(t, n),
        is_permutation(p, n),
    ensures
        spec_classify(conjugate(t, p), n) == spec_classify(t, n),
        spec_has_left_identity(conjugate(t, p), n) == spec_has_left_identity(t, n),
        spec_has_right_identity(conjugate(t, p), n) == spec_has_right_identity(t, n),
        spec_commutative(conjugate(t, p), n) == spec_commutative(t, n),
        spec_associative(conjugate(t, p), n) == spec_associative(t, n),
{
    let c = conjugate(t, p);
    lemma_perm_inv(p, n);
    lemma_conjugate_latin(t, p, n);
    lemma_conjugate_props_fwd(t, p, n);
    lemma_conjugate_props_fwd(c, perm_inv(p), n);
    lemma_conjugate_inverse(t, p, n);
}

/// A complete list of the Latin squares of an order is closed under
/// conjugation: the conjugate of a Latin square is again a Latin square, so
/// it appears in the list.
pub proof fn lemma_generated_closed_under_conjugation(
    tables: Seq<LatinSquare>,
    t: Seq<Seq<usize>>,
    p: Seq<usize>,
    n: int,
)
    requires
        n <= usize::MAX + 1,
        forall|l: Seq<Seq<usize>>| #[trigger] latin_ok(l, n) ==> squares_contain(tables, l),
        latin_ok(t, n),
        is_permutation(p, n),
    ensures
        squares_contain(tables, conjugate(t, p)),
{
    lemma_conjugate_latin(t, p, n);
}

/// With both identity tests passed, the column holding 0 in row 0 is the
/// two-sided identity element: its row and its column are the identity map.
pub proof fn lemma_identity_element(t: Seq<Seq<usize>>, n: int, c: int)
    requires
        n <= usize::MAX + 1,
        latin_ok(t, n),
        spec_has_left_identity(t, n),
        spec_has_right_identity(t, n),
        0 <= c < n,
        t[0][c] == 0,
    ensures
        forall|y: int| 0 <= y < n ==> #[trigger] t[c][y] == y as usize,
        forall|x: int| 0 <= x < n ==> #[trigger] t[x][c] == x as usize,
{
    let rc = choose|rc: int| 0 <= rc < n && #[trigger] right_identity_at(t, n, rc);
    assert(t[0][rc] == 0);
    if rc != c {
        lemma_nodup_unordered(t[0], rc, c);
    }
    assert(forall|x: int| 0 <= x < n ==> #[trigger] t[x][c] == x as usize);

    let e = choose|e: int| 0 <= e < n && #[trigger] t[e] == identity_perm(n);
    assert(t[e][c] == e as usize);
    assert(t[e][c] == identity_perm(n)[c]);
    assert(identity_perm(n)[c] == c as usize);
    assert(e == c);
    assert forall|y: int| 0 <= y < n implies #[trigger] t[c][y] == y as usize by {
        assert(t[c][y] == identity_perm(n)[y]);
    }
}

/// With a two-sided identity at index c, checking associativity over the
/// other elements checks it everywhere: triples touching c hold trivially.
pub proof fn lemma_nonskip_assoc_suffices(t: Seq<Seq<usize>>, n: int, c: int)
    requires
        n <= usize::MAX + 1,
        latin_ok(t, n),
        0 <= c < n,
        forall|y: int| 0 <= y < n ==> #[trigger] t[c][y] == y as usize,
        forall|x: int| 0 <= x < n ==> #[trigger] t[x][c] == x as usize,
    ensures
        spec_nonskip_associative(t, n, c) == spec_associative(t, n),
{
    if spec_nonskip_associative(t, n, c) {
        assert forall|x: int, y: int, z: int|
            0 <= x < n && 0 <= y < n && 0 <= z < n implies #[trigger] assoc_at(t, x, y, z) by {
            assert(t[y][z] < n);
            assert(t[x][y] < n);
            if x == c {
                assert(t[x][t[y][z] as int] == t[y][z]);
                assert(t[x][y] == y as usize);
            } else if y == c {
                assert(t[y][z] == z as usize);
                assert(t[x][y] == t[x][c]);
                assert(t[x][c] == x as usize);
            } else if z == c {
                assert(t[y][z] == y as usize);
                assert(t[t[x][y] as int][z] == t[x][y]);
            } else {
            }
        }
    }
}

/// For a commutative Latin square a left identity is a right identity and
/// conversely.
pub proof fn lemma_commutative_one_sided(t: Seq<Seq<usize>>, n: int)
    requires
        n <= usize::MAX + 1,
        latin_ok(t, n),
        spec_commutative(t, n),
    ensures
        spec_has_left_identity(t, n) == spec_has_right_identity(t, n),
{
    if spec_has_left_identity(t, n) {
        let e = choose|e: int| 0 <= e < n && #[trigger] t[e] == identity_perm(n);
        assert forall|r2: int| 0 <= r2 < n implies #[trigger] t[r2][e] == r2 as usize by {
            assert(t[e][r2] == identity_perm(n)[r2]);
        }
        assert(right_identity_at(t, n, e));
        assert(spec_has_right_identity(t, n));
    }
    if spec_has_right_identity(t, n) {
        let c = choose|c: int| 0 <= c < n && #[trigger] right_identity_at(t, n, c);
        assert forall|y: int| 0 <= y < n implies #[trigger] t[c][y] == identity_perm(n)[y] by {
            assert(t[y][c] == y as usize);
        }
        assert(t[c] =~= identity_perm(n));
        assert(spec_has_left_identity(t, n));
    }
}

/// After one candidate branch, the accumulated list holds exactly the squares
/// whose cell at (row, col) stays below the next candidate.
proof fn lemma_branch_append(
    pd: Seq<Seq<usize>>,
    new_pd: Seq<Seq<usize>>,
    old_rs: Seq<LatinSquare>,
    sub_rs: Seq<LatinSquare>,
    all_rs: Seq<LatinSquare>,
    n: int,
    row: int,
    col: int,
    i: usize,
)
    requires
        all_rs == old_rs + sub_rs,
        partial_wf(pd, n),
        partial_wf(new_pd, n),
        0 <= row < n,
        0 <= col < n,
        i < n,
        // the new prefix adds exactly the cell (row, col) with value i
        col == 0 ==> row == pd.len(),
        col == 0 ==> pd.last().len() == n,
        col != 0 ==> row == pd.len() - 1,
        new_pd.len() == if col == 0 { pd.len() + 1 } else { pd.len() },
        forall|k: int| 0 <= k < pd.len() && k != row ==> #[trigger] new_pd[k] == pd[k],
        row < pd.len() ==> new_pd[row] == pd[row].push(i),
        row == pd.len() ==> new_pd[row] == seq![i],
        row < pd.len() ==> col == pd[row].len(),
        row == pd.len() ==> col == 0,
        // the old accumulator
        forall|k: int|
            0 <= k < old_rs.len() ==> latin_ok(#[trigger] old_rs[k]@, n) && grid_extends(
                old_rs[k]@,
                pd,
            ) && old_rs[k]@[row][col] < i,
        forall|l: Seq<Seq<usize>>|
            latin_ok(l, n) && #[trigger] grid_extends(l, pd) && l[row][col] < i ==> squares_contain(
                old_rs,
                l,
            ),
        squares_distinct(old_rs),
        squares_lex_sorted(old_rs),
        // the branch result
        forall|k: int|
            0 <= k < sub_rs.len() ==> latin_ok(#[trigger] sub_rs[k]@, n) && grid_extends(
                sub_rs[k]@,
                new_pd,
            ),
        partial_incomplete(new_pd, n) ==> forall|l: Seq<Seq<usize>>|
            latin_ok(l, n) && #[trigger] grid_extends(l, new_pd) ==> squares_contain(sub_rs, l),
        partial_incomplete(new_pd, n),
        squares_distinct(sub_rs),
        squares_lex_sorted(sub_rs),
    ensures
        forall|k: int|
            0 <= k < all_rs.len() ==> latin_ok(#[trigger] all_rs[k]@, n) && grid_extends(
                all_rs[k]@,
                pd,
            ) && all_rs[k]@[row][col] < i + 1,
        forall|l: Seq<Seq<usize>>|
            latin_ok(l, n) && #[trigger] grid_extends(l, pd) && l[row][col] < i + 1
                ==> squares_contain(all_rs, l),
        squares_distinct(all_rs),
        squares_lex_sorted(all_rs),
{
    assert forall|k: int| 0 <= k < sub_rs.len() implies grid_extends(#[trigger] sub_rs[k]@, pd)
        && sub_rs[k]@[row][col] == i by {
        let l = sub_rs[k]@;
        assert forall|a: int, b: int|
            0 <= a < pd.len() && 0 <= b < pd[a].len() implies l[a][b] == #[trigger] pd[a][b] by {
            if a == row {
                assert(b < new_pd[a].len());
                assert(new_pd[a][b] == pd[a][b]);
                assert(l[a][b] == new_pd[a][b]);
            } else {
                assert(new_pd[a] == pd[a]);
                assert(b < new_pd[a].len());
                assert(l[a][b] == new_pd[a][b]);
            }
        }
        assert(col < new_pd[row].len());
        assert(l[row][col] == new_pd[row][col]);
        assert(new_pd[row][col] == i);
    }
    assert forall|k: int| 0 <= k < all_rs.len() implies latin_ok(#[trigger] all_rs[k]@, n)
        && grid_extends(all_rs[k]@, pd) && all_rs[k]@[row][col] < i + 1 by {
        if k < old_rs.len() {
            assert(all_rs[k] == old_rs[k]);
        } else {
            assert(all_rs[k] == sub_rs[k - old_rs.len()]);
        }
    }
    assert forall|l: Seq<Seq<usize>>|
        latin_ok(l, n) && #[trigger] grid_extends(l, pd) && l[row][col] < i + 1
        implies squares_contain(all_rs, l) by {
        if l[row][col] < i {
            let k = choose|k: int| 0 <= k < old_rs.len() && old_rs[k]@ == l;
            assert(all_rs[k]@ == l);
        } else {
            assert(grid_extends(l, new_pd)) by {
                assert forall|a: int, b: int|
                    0 <= a < new_pd.len() && 0 <= b < new_pd[a].len() implies l[a][b]
                        == #[trigger] new_pd[a][b] by {
                    if a == row && b == col {
                        assert(new_pd[a][b] == i);
                    } else if a == row {
                        assert(b < col);
                        assert(new_pd[a][b] == pd[a][b]);
                    } else {
                        assert(new_pd[a] == pd[a]);
                    }
                }
            }
            let k = choose|k: int| 0 <= k < sub_rs.len() && sub_rs[k]@ == l;
            assert(all_rs[old_rs.len() + k]@ == l);
        }
    }
    assert forall|k1: int, k2: int|
        0 <= k1 < k2 < all_rs.len() implies all_rs[k1]@ != all_rs[k2]@ && grid_lex_lt(
        all_rs[k1]@,
        all_rs[k2]@,
    ) by {
        if k1 < old_rs.len() && k2 >= old_rs.len() {
            assert(all_rs[k1] == old_rs[k1]);
            assert(all_rs[k2] == sub_rs[k2 - old_rs.len()]);
            assert(all_rs[k1]@[row][col] < i);
            assert(all_rs[k2]@[row][col] == i);
            // Every cell before (row, col) is filled in the prefix.
            assert forall|i2: int, j2: int|
                #![trigger all_rs[k1]@[i2][j2]]
                0 <= i2 < all_rs[k1]@.len() && 0 <= j2 < all_rs[k1]@[i2].len() && cell_before(
                    row,
                    col,
                    i2,
                    j2,
                ) implies i2 < pd.len() && j2 < pd[i2].len() by {
                if col == 0 {
                    assert(i2 < row);
                    if i2 < pd.len() - 1 {
                        assert(pd[i2].len() == n);
                    } else {
                        assert(pd[i2] == pd.last());
                    }
                } else {
                    if i2 < row {
                        assert(pd[i2].len() == n);
                    } else {
                        assert(j2 < col);
                        assert(col == pd[row].len());
                    }
                }
            }
            lemma_grid_lex_branch(all_rs[k1]@, all_rs[k2]@, pd, row, col);
        } else if k1 >= old_rs.len() {
            assert(all_rs[k1] == sub_rs[k1 - old_rs.len()]);
            assert(all_rs[k2] == sub_rs[k2 - old_rs.len()]);
            assert(grid_lex_lt(sub_rs[k1 - old_rs.len()]@, sub_rs[k2 - old_rs.len()]@));
        } else {
            assert(all_rs[k1] == old_rs[k1]);
            assert(all_rs[k2] == old_rs[k2]);
        }
    }
}

/// Filling the last free cell: the completed table is Latin, and every Latin
/// square extending the prefix equals it.
proof fn lemma_last_cell(pd: Seq<Seq<usize>>, new_pd: Seq<Seq<usize>>, n: int, i: usize)
    requires
        partial_wf(pd, n),
        partial_wf(new_pd, n),
        pd.len() == n,
        pd.last().len() == n - 1,
        new_pd.len() == n,
        forall|k: int| 0 <= k < n - 1 ==> #[trigger] new_pd[k] == pd[k],
        new_pd[n - 1] == pd[n - 1].push(i),
        i < n,
        !pd[n - 1].contains(i),
        forall|r: int| 0 <= r < n - 1 ==> #[trigger] pd[r][n - 1] != i,
    ensures
        latin_ok(new_pd, n),
        forall|l: Seq<Seq<usize>>|
            latin_ok(l, n) && #[trigger] grid_extends(l, pd) ==> l == new_pd,
{
    assert(latin_ok(new_pd, n)) by {
        assert forall|k: int| 0 <= k < n implies #[trigger] new_pd[k].len() == n by {
            if k == n - 1 {
                assert(new_pd[k] == pd[n - 1].push(i));
            }
        }
        assert forall|j: int, i1: int, i2: int|
            0 <= j < n && 0 <= i1 < i2 < n implies #[trigger] new_pd[i1][j]
                != #[trigger] new_pd[i2][j] by {
            if i2 == n - 1 && j == n - 1 {
                assert(new_pd[i1][j] == pd[i1][j]);
                assert(new_pd[i2][j] == i);
            } else if i2 == n - 1 {
                assert(new_pd[i2][j] == pd[i2][j]);
                assert(pd[i1][j] != pd[i2][j]);
            } else {
                assert(pd[i1][j] != pd[i2][j]);
            }
        }
    }
    assert forall|l: Seq<Seq<usize>>|
        latin_ok(l, n) && #[trigger] grid_extends(l, pd) implies l == new_pd by {
        let v = l[n - 1][n - 1];
        assert(v < n);
        assert(!pd[n - 1].contains(v)) by {
            if pd[n - 1].contains(v) {
                let j = choose|j: int| 0 <= j < pd[n - 1].len() && #[trigger] pd[n - 1][j] == v;
                assert(l[n - 1][j] == v);
                assert(l[n - 1].no_duplicates());
                assert(false);
            }
        }
        lemma_missing_value_unique(pd[n - 1], n, i, v);
        assert forall|a: int, b: int| 0 <= a < n && 0 <= b < n implies l[a][b] == new_pd[a][b] by {
            if a == n - 1 && b == n - 1 {
                assert(new_pd[a][b] == i);
            } else if a == n - 1 {
                assert(new_pd[a][b] == pd[a][b]);
            } else {
                assert(new_pd[a] == pd[a]);
            }
        }
        assert forall|a: int| 0 <= a < n implies l[a] == new_pd[a] by {
            assert(l[a] =~= new_pd[a]);
        }
        assert(l =~= new_pd);
    }
}

} // verus!
