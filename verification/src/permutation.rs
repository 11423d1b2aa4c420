use vstd::prelude::*;
use vstd::seq_lib::*;
use vstd::set_lib::*;
use crate::common::lemma_factorial_step;
use crate::common::spec_factorial;

verus! {

// ---------------------------------------------------------------------------
// Specification: permutations of {0, .., n-1} as sequences.
// ---------------------------------------------------------------------------

/// `s` is a bijection of {0, .., n-1}, written as the sequence s[0], .., s[n-1].
pub open spec fn is_permutation(s: Seq<usize>, n: int) -> bool {
    &&& s.len() == n
    &&& (forall|i: int| 0 <= i < s.len() ==> #[trigger] s[i] < n)
    &&& s.no_duplicates()
}

/// The identity permutation on n elements.
pub open spec fn identity_perm(n: int) -> Seq<usize>
    recommends
        n >= 0,
{
    Seq::new(n as nat, |i: int| i as usize)
}

/// Composition: (outer o inner)[i] == outer[inner[i]]; inner is applied first.
pub open spec fn spec_compose(outer: Seq<usize>, inner: Seq<usize>) -> Seq<usize> {
    Seq::new(outer.len(), |i: int| outer[inner[i] as int])
}

/// The inverse of a permutation: maps each value back to its position.
pub open spec fn perm_inv(p: Seq<usize>) -> Seq<usize> {
    Seq::new(p.len(), |i: int| (choose|j: int| 0 <= j < p.len() && p[j] == i) as usize)
}

/// The permutation exchanging a and b, fixing everything else.
pub open spec fn transposition(n: int, a: int, b: int) -> Seq<usize>
    recommends
        0 <= a < n,
        0 <= b < n,
{
    Seq::new(n as nat, |i: int| if i == a { b as usize } else if i == b { a as usize } else { i as usize })
}

/// Membership of a row value sequence in a list of rows.
pub open spec fn rows_contain(rows: Seq<Vec<usize>>, q: Seq<usize>) -> bool {
    exists|k: int| 0 <= k < rows.len() && rows[k]@ == q
}

/// No two rows of the list hold the same sequence.
pub open spec fn rows_distinct(rows: Seq<Vec<usize>>) -> bool {
    forall|k1: int, k2: int| 0 <= k1 < k2 < rows.len() ==> rows[k1]@ != rows[k2]@
}

/// Position i is the first where a differs from b, and a is smaller there.
pub open spec fn seq_lt_at(a: Seq<usize>, b: Seq<usize>, i: int) -> bool {
    &&& 0 <= i < a.len()
    &&& i < b.len()
    &&& a[i] < b[i]
    &&& forall|j: int| 0 <= j < i ==> (#[trigger] a[j]) == b[j]
}

/// a comes strictly before b in lexicographic order.
pub open spec fn seq_lex_lt(a: Seq<usize>, b: Seq<usize>) -> bool {
    exists|i: int| #[trigger] seq_lt_at(a, b, i)
}

/// The rows of the list are in strictly increasing lexicographic order.
pub open spec fn rows_lex_sorted(rows: Seq<Vec<usize>>) -> bool {
    forall|k1: int, k2: int|
        0 <= k1 < k2 < rows.len() ==> seq_lex_lt(#[trigger] rows[k1]@, #[trigger] rows[k2]@)
}

/// Two sequences sharing a prefix order by their next position.
pub proof fn lemma_lex_next_position(a: Seq<usize>, b: Seq<usize>, part: Seq<usize>)
    requires
        a.subrange(0, part.len() as int) == part,
        b.subrange(0, part.len() as int) == part,
        part.len() < a.len(),
        part.len() < b.len(),
        a[part.len() as int] < b[part.len() as int],
    ensures
        seq_lex_lt(a, b),
{
    let l = part.len() as int;
    assert(seq_lt_at(a, b, l)) by {
        assert forall|j: int| 0 <= j < l implies (#[trigger] a[j]) == b[j] by {
            assert(a.subrange(0, l)[j] == a[j]);
            assert(b.subrange(0, l)[j] == b[j]);
        }
    }
}

/// The lexicographic order is strict: it never holds both ways, nor on a
/// sequence and itself.
pub proof fn lemma_seq_lex_asym(a: Seq<usize>, b: Seq<usize>)
    requires
        seq_lex_lt(a, b),
    ensures
        !seq_lex_lt(b, a),
        a != b,
{
    let i1 = choose|i: int| #[trigger] seq_lt_at(a, b, i);
    assert(a != b) by {
        if a == b {
            assert(a[i1] < a[i1]);
        }
    }
    if seq_lex_lt(b, a) {
        let i2 = choose|i: int| #[trigger] seq_lt_at(b, a, i);
        if i1 == i2 {
            assert(false);
        } else if i1 < i2 {
            assert(b[i1] == a[i1]);
            assert(false);
        } else {
            assert(a[i2] == b[i2]);
            assert(false);
        }
    }
}

/// Two strictly sorted lists holding the same sequences are the same list.
pub proof fn lemma_lex_sorted_seqs_equal(xs: Seq<Seq<usize>>, ys: Seq<Seq<usize>>)
    requires
        forall|k1: int, k2: int|
            0 <= k1 < k2 < xs.len() ==> seq_lex_lt(#[trigger] xs[k1], #[trigger] xs[k2]),
        forall|k1: int, k2: int|
            0 <= k1 < k2 < ys.len() ==> seq_lex_lt(#[trigger] ys[k1], #[trigger] ys[k2]),
        forall|q: Seq<usize>| #[trigger] xs.contains(q) <==> #[trigger] ys.contains(q),
    ensures
        xs == ys,
    decreases xs.len(),
{
    if xs.len() == 0 {
        if ys.len() > 0 {
            assert(ys.contains(ys[0]));
            assert(xs.contains(ys[0]));
            assert(false);
        }
        assert(xs =~= ys);
    } else {
        if ys.len() == 0 {
            assert(xs.contains(xs[0]));
            assert(ys.contains(xs[0]));
            assert(false);
        }
        // The heads agree: each list's head sits in the other, and a head
        // strictly precedes every later entry.
        assert(xs[0] == ys[0]) by {
            assert(xs.contains(xs[0]));
            assert(ys.contains(xs[0]));
            let j = choose|j: int| 0 <= j < ys.len() && ys[j] == xs[0];
            if j > 0 {
                assert(seq_lex_lt(ys[0], ys[j]));
                assert(ys.contains(ys[0]));
                assert(xs.contains(ys[0]));
                let m = choose|m: int| 0 <= m < xs.len() && xs[m] == ys[0];
                if m == 0 {
                    lemma_seq_lex_asym(ys[0], xs[0]);
                } else {
                    assert(seq_lex_lt(xs[0], xs[m]));
                    lemma_seq_lex_asym(ys[0], xs[0]);
                }
            }
        }
        let xt = xs.drop_first();
        let yt = ys.drop_first();
        assert forall|q: Seq<usize>| #[trigger] xt.contains(q) implies yt.contains(q) by {
            let k = choose|k: int| 0 <= k < xt.len() && xt[k] == q;
            assert(xs[k + 1] == q);
            assert(xs.contains(q));
            assert(ys.contains(q));
            let j = choose|j: int| 0 <= j < ys.len() && ys[j] == q;
            assert(seq_lex_lt(xs[0], xs[k + 1]));
            lemma_seq_lex_asym(xs[0], q);
            assert(j > 0);
            assert(yt[j - 1] == q);
        }
        assert forall|q: Seq<usize>| #[trigger] yt.contains(q) implies xt.contains(q) by {
            let k = choose|k: int| 0 <= k < yt.len() && yt[k] == q;
            assert(ys[k + 1] == q);
            assert(ys.contains(q));
            assert(xs.contains(q));
            let j = choose|j: int| 0 <= j < xs.len() && xs[j] == q;
            assert(seq_lex_lt(ys[0], ys[k + 1]));
            lemma_seq_lex_asym(ys[0], q);
            assert(j > 0);
            assert(xt[j - 1] == q);
        }
        assert(forall|k1: int, k2: int|
            0 <= k1 < k2 < xt.len() ==> seq_lex_lt(#[trigger] xt[k1], #[trigger] xt[k2]));
        assert(forall|k1: int, k2: int|
            0 <= k1 < k2 < yt.len() ==> seq_lex_lt(#[trigger] yt[k1], #[trigger] yt[k2]));
        lemma_lex_sorted_seqs_equal(xt, yt);
        assert(xs =~= ys) by {
            assert(forall|k: int| 1 <= k < xs.len() ==> #[trigger] xs[k] == xt[k - 1]);
            assert(forall|k: int| 1 <= k < ys.len() ==> #[trigger] ys[k] == yt[k - 1]);
        }
    }
}

/// Two lists of rows that are strictly sorted and hold the same sequences
/// correspond elementwise: in particular, the Permutation values of
/// generate_all and the plain rows of generate_all_permutations are the
/// same list, as both carry the sound, complete, sorted characterization
/// of the permutations of one order.
pub proof fn lemma_sorted_rows_correspond(vs: Seq<Vec<usize>>, ps: Seq<Permutation>)
    requires
        forall|q: Seq<usize>|
            #[trigger] rows_contain(vs, q) <==> exists|k: int|
                0 <= k < ps.len() && ps[k]@ == q,
        rows_lex_sorted(vs),
        forall|k1: int, k2: int|
            0 <= k1 < k2 < ps.len() ==> seq_lex_lt(#[trigger] ps[k1]@, #[trigger] ps[k2]@),
    ensures
        vs.len() == ps.len(),
        forall|k: int| 0 <= k < vs.len() ==> (#[trigger] vs[k])@ == ps[k]@,
{
    let xs = Seq::new(vs.len(), |k: int| vs[k]@);
    let ys = Seq::new(ps.len(), |k: int| ps[k]@);
    assert forall|q: Seq<usize>| #[trigger] xs.contains(q) implies ys.contains(q) by {
        let k = choose|k: int| 0 <= k < xs.len() && xs[k] == q;
        assert(vs[k]@ == q);
        assert(rows_contain(vs, q));
        let j = choose|j: int| 0 <= j < ps.len() && ps[j]@ == q;
        assert(ys[j] == q);
    }
    assert forall|q: Seq<usize>| #[trigger] ys.contains(q) implies xs.contains(q) by {
        let k = choose|k: int| 0 <= k < ys.len() && ys[k] == q;
        assert(ps[k]@ == q);
        assert(rows_contain(vs, q));
        let j = choose|j: int| 0 <= j < vs.len() && vs[j]@ == q;
        assert(xs[j] == q);
    }
    lemma_lex_sorted_seqs_equal(xs, ys);
    assert forall|k: int| 0 <= k < vs.len() implies (#[trigger] vs[k])@ == ps[k]@ by {
        assert(xs[k] == vs[k]@);
        assert(ys[k] == ps[k]@);
    }
}

/// How many values below i are free of the partial assignment.
pub open spec fn count_free(part: Seq<usize>, i: int) -> int
    decreases i,
{
    if i <= 0 {
        0
    } else {
        count_free(part, i - 1) + (if part.contains((i - 1) as usize) {
            0int
        } else {
            1int
        })
    }
}

proof fn lemma_count_free_empty(i: int)
    requires
        i >= 0,
    ensures
        count_free(Seq::<usize>::empty(), i) == i,
    decreases i,
{
    if i > 0 {
        lemma_count_free_empty(i - 1);
        assert(!Seq::<usize>::empty().contains((i - 1) as usize));
    }
}

proof fn lemma_count_free_push(q: Seq<usize>, x: usize, i: int)
    requires
        !q.contains(x),
        0 <= i <= usize::MAX + 1,
    ensures
        count_free(q.push(x), i) == count_free(q, i) - (if (x as int) < i {
            1int
        } else {
            0int
        }),
    decreases i,
{
    if i > 0 {
        lemma_count_free_push(q, x, i - 1);
        let v = (i - 1) as usize;
        assert(q.push(x).contains(v) == (q.contains(v) || v == x)) by {
            if q.push(x).contains(v) {
                let j = choose|j: int| 0 <= j < q.push(x).len() && q.push(x)[j] == v;
                if j < q.len() {
                    assert(q[j] == v);
                }
            }
            if q.contains(v) {
                let j = choose|j: int| 0 <= j < q.len() && q[j] == v;
                assert(q.push(x)[j] == v);
            }
            if v == x {
                assert(q.push(x)[q.len() as int] == v);
            }
        }
        assert(v as int == i - 1);
        if v == x {
            assert(q.push(x).contains(v));
            assert(!q.contains(v));
        } else {
            assert(q.push(x).contains(v) == q.contains(v));
        }
    }
}

/// A partial assignment of distinct values below n leaves exactly its
/// complement free.
pub proof fn lemma_count_free_full(part: Seq<usize>, n: int)
    requires
        part.no_duplicates(),
        forall|j: int| 0 <= j < part.len() ==> #[trigger] part[j] < n,
        part.len() <= n,
        n <= usize::MAX + 1,
    ensures
        count_free(part, n) == n - part.len(),
    decreases part.len(),
{
    if part.len() == 0 {
        assert(part =~= Seq::<usize>::empty());
        lemma_count_free_empty(n);
    } else {
        let q = part.drop_last();
        let x = part.last();
        assert(part =~= q.push(x));
        assert(!q.contains(x)) by {
            if q.contains(x) {
                let j = choose|j: int| 0 <= j < q.len() && q[j] == x;
                assert(part[j] == x);
                lemma_nodup_unordered(part, j, part.len() - 1);
            }
        }
        lemma_count_free_full(q, n);
        lemma_count_free_push(q, x, n);
    }
}

// ---------------------------------------------------------------------------
// Lemmas about permutations.
// ---------------------------------------------------------------------------

/// Every value below n is hit by a permutation of {0, .., n-1}.
pub proof fn lemma_permutation_surjective(s: Seq<usize>, n: int, v: usize)
    requires
        is_permutation(s, n),
        v < n,
    ensures
        exists|i: int| 0 <= i < n && s[i] == v,
{
    let f = |x: usize| x as int;
    let si = s.map_values(f);
    assert forall|a1: usize, a2: usize| #[trigger] f(a1) == #[trigger] f(a2) implies a1 == a2 by {}
    s.lemma_no_duplicates_injective(f);
    si.unique_seq_to_set();
    let range = set_int_range(0, n);
    lemma_int_range(0, n);
    if forall|i: int| 0 <= i < n ==> s[i] != v {
        let smaller = range.remove(v as int);
        assert forall|x: int| #[trigger] si.to_set().contains(x) implies smaller.contains(x) by {
            let k = choose|k: int| 0 <= k < si.len() && si[k] == x;
            assert(s[k] < n);
            assert(s[k] != v);
        }
        lemma_len_subset(si.to_set(), smaller);
        assert(smaller.len() == n - 1);
        assert(false);
    }
}

/// A row of n-1 distinct values below n misses exactly one value: two values
/// outside the row must coincide.
pub proof fn lemma_missing_value_unique(s: Seq<usize>, n: int, a: usize, b: usize)
    requires
        s.no_duplicates(),
        forall|i: int| 0 <= i < s.len() ==> #[trigger] s[i] < n,
        s.len() == n - 1,
        a < n,
        b < n,
        !s.contains(a),
        !s.contains(b),
    ensures
        a == b,
{
    if a != b {
        let f = |x: usize| x as int;
        let si = s.map_values(f);
        assert forall|a1: usize, a2: usize| #[trigger] f(a1) == #[trigger] f(a2) implies a1 == a2 by {}
        s.lemma_no_duplicates_injective(f);
        si.unique_seq_to_set();
        let range = set_int_range(0, n);
        lemma_int_range(0, n);
        let with_a = si.to_set().insert(a as int);
        let with_ab = with_a.insert(b as int);
        assert(!si.to_set().contains(a as int)) by {
            if si.to_set().contains(a as int) {
                let k = choose|k: int| 0 <= k < si.len() && si[k] == a as int;
                assert(s[k] == a);
            }
        }
        assert(!with_a.contains(b as int)) by {
            if si.to_set().contains(b as int) {
                let k = choose|k: int| 0 <= k < si.len() && si[k] == b as int;
                assert(s[k] == b);
            }
        }
        assert(with_a.len() == n);
        assert(with_ab.len() == n + 1);
        assert forall|x: int| #[trigger] with_ab.contains(x) implies range.contains(x) by {
            if x != a as int && x != b as int {
                let k = choose|k: int| 0 <= k < si.len() && si[k] == x;
                assert(s[k] < n);
            }
        }
        lemma_len_subset(with_ab, range);
        assert(false);
    }
}

/// Distinct positions of a permutation hold distinct values, in either order.
pub proof fn lemma_nodup_unordered(s: Seq<usize>, i: int, j: int)
    requires
        s.no_duplicates(),
        0 <= i < s.len(),
        0 <= j < s.len(),
        i != j,
    ensures
        s[i] != s[j],
{
}

/// The inverse of a permutation is a permutation and cancels it on both sides.
pub proof fn lemma_perm_inv(p: Seq<usize>, n: int)
    requires
        is_permutation(p, n),
        n <= usize::MAX + 1,
    ensures
        is_permutation(perm_inv(p), n),
        forall|i: int| 0 <= i < n ==> p[#[trigger] perm_inv(p)[i] as int] == i,
        forall|i: int| 0 <= i < n ==> perm_inv(p)[#[trigger] p[i] as int] == i,
{
    let q = perm_inv(p);
    assert forall|i: int| 0 <= i < n implies q[i] < n && p[q[i] as int] == i by {
        assert((i as usize) as int == i);
        lemma_permutation_surjective(p, n, i as usize);
        assert(exists|j: int| 0 <= j < p.len() && p[j] == i as usize);
        let j = choose|j: int| 0 <= j < p.len() && p[j] == i;
        assert(p[j] == i);
        assert(q[i] == j as usize);
    }
    assert forall|i: int| 0 <= i < n implies q[#[trigger] p[i] as int] == i by {
        let v = p[i] as int;
        assert(p[q[v] as int] == v);
        if q[v] as int != i {
            lemma_nodup_unordered(p, q[v] as int, i);
        }
    }
    assert forall|k1: int, k2: int| 0 <= k1 < k2 < n implies q[k1] != q[k2] by {
        assert(p[q[k1] as int] == k1);
        assert(p[q[k2] as int] == k2);
    }
}

/// Composing two permutations yields a permutation.
pub proof fn lemma_compose_is_permutation(outer: Seq<usize>, inner: Seq<usize>, n: int)
    requires
        is_permutation(outer, n),
        is_permutation(inner, n),
    ensures
        is_permutation(spec_compose(outer, inner), n),
{
    let c = spec_compose(outer, inner);
    assert forall|i: int| 0 <= i < c.len() implies #[trigger] c[i] < n by {
        assert(inner[i] < n);
    }
    assert forall|k1: int, k2: int| 0 <= k1 < k2 < c.len() implies c[k1] != c[k2] by {
        assert(inner[k1] != inner[k2]);
        lemma_nodup_unordered(outer, inner[k1] as int, inner[k2] as int);
    }
}

/// Composition is associative.
pub proof fn lemma_compose_assoc(a: Seq<usize>, b: Seq<usize>, c: Seq<usize>, n: int)
    requires
        is_permutation(a, n),
        is_permutation(b, n),
        is_permutation(c, n),
    ensures
        spec_compose(spec_compose(a, b), c) == spec_compose(a, spec_compose(b, c)),
{
    assert(spec_compose(spec_compose(a, b), c) =~= spec_compose(a, spec_compose(b, c)));
}

/// The identity permutation is a permutation and a neutral element.
pub proof fn lemma_identity_perm(n: int)
    requires
        0 <= n <= usize::MAX + 1,
    ensures
        is_permutation(identity_perm(n), n),
        forall|p: Seq<usize>| is_permutation(p, n) ==> #[trigger] spec_compose(p, identity_perm(n)) == p,
        forall|p: Seq<usize>| is_permutation(p, n) ==> #[trigger] spec_compose(identity_perm(n), p) == p,
{
    let id = identity_perm(n);
    assert(forall|i: int| 0 <= i < n ==> #[trigger] id[i] == i as usize);
    assert forall|k1: int, k2: int| 0 <= k1 < k2 < id.len() implies id[k1] != id[k2] by {
        assert(id[k1] == k1 as usize);
        assert(id[k2] == k2 as usize);
    }
    assert forall|p: Seq<usize>| is_permutation(p, n) implies #[trigger] spec_compose(p, id) == p by {
        assert forall|i: int| 0 <= i < n implies spec_compose(p, id)[i] == p[i] by {
            assert(id[i] == i as usize);
        }
        assert(spec_compose(p, id) =~= p);
    }
    assert forall|p: Seq<usize>| is_permutation(p, n) implies #[trigger] spec_compose(id, p) == p by {
        assert forall|i: int| 0 <= i < n implies spec_compose(id, p)[i] == p[i] by {
            assert(p[i] < n);
            assert(id[p[i] as int] == p[i]);
        }
        assert(spec_compose(id, p) =~= p);
    }
}

/// A right factor that composes to the identity is the inverse.
pub proof fn lemma_right_inverse_unique(p: Seq<usize>, s: Seq<usize>, n: int)
    requires
        is_permutation(p, n),
        is_permutation(s, n),
        spec_compose(p, s) == identity_perm(n),
        n <= usize::MAX + 1,
    ensures
        s == perm_inv(p),
{
    lemma_perm_inv(p, n);
    assert forall|i: int| 0 <= i < n implies s[i] == perm_inv(p)[i] by {
        assert(spec_compose(p, s)[i] == identity_perm(n)[i]);
        assert(identity_perm(n)[i] == i as usize);
        assert(p[s[i] as int] == i as usize);
        assert(p[s[i] as int] == i);
        assert(p[perm_inv(p)[i] as int] == i);
        if s[i] != perm_inv(p)[i] {
            lemma_nodup_unordered(p, s[i] as int, perm_inv(p)[i] as int);
        }
    }
    assert(s =~= perm_inv(p));
}

/// A transposition is a permutation.
pub proof fn lemma_transposition_is_permutation(n: int, a: int, b: int)
    requires
        0 <= a < n,
        0 <= b < n,
        n <= usize::MAX + 1,
    ensures
        is_permutation(transposition(n, a, b), n),
{
    let t = transposition(n, a, b);
    assert forall|i: int| 0 <= i < t.len() implies #[trigger] t[i] < n by {}
    assert forall|k1: int, k2: int| 0 <= k1 < k2 < t.len() implies t[k1] != t[k2] by {
        assert(t[k1] as int == if k1 == a { b } else if k1 == b { a } else { k1 });
        assert(t[k2] as int == if k2 == a { b } else if k2 == b { a } else { k2 });
    }
}

// ---------------------------------------------------------------------------
// Executable helpers.
// ---------------------------------------------------------------------------

/// Whether `x` occurs in `v`.
pub fn contains_val(v: &Vec<usize>, x: usize) -> (r: bool)
    ensures
        r == v@.contains(x),
{
    let mut k: usize = 0;
    while k < v.len()
        invariant
            k <= v@.len(),
            forall|j: int| 0 <= j < k ==> v@[j] != x,
        decreases v@.len() - k,
    {
        if v[k] == x {
            return true;
        }
        k = k + 1;
    }
    false
}

/// An independent copy of a row of values.
pub fn clone_row(v: &Vec<usize>) -> (r: Vec<usize>)
    ensures
        r@ == v@,
{
    let mut r: Vec<usize> = Vec::new();
    let mut k: usize = 0;
    while k < v.len()
        invariant
            k <= v@.len(),
            r@ == v@.subrange(0, k as int),
        decreases v@.len() - k,
    {
        r.push(v[k]);
        proof {
            assert(r@ =~= v@.subrange(0, k + 1));
        }
        k = k + 1;
    }
    proof {
        assert(v@.subrange(0, v@.len() as int) =~= v@);
    }
    r
}

/// Whether two rows hold the same values.
pub fn vec_usize_eq(a: &Vec<usize>, b: &Vec<usize>) -> (r: bool)
    ensures
        r == (a@ == b@),
{
    if a.len() != b.len() {
        return false;
    }
    let mut k: usize = 0;
    while k < a.len()
        invariant
            k <= a@.len(),
            a@.len() == b@.len(),
            forall|j: int| 0 <= j < k ==> a@[j] == b@[j],
        decreases a@.len() - k,
    {
        if a[k] != b[k] {
            return false;
        }
        k = k + 1;
    }
    proof {
        assert(a@ =~= b@);
    }
    true
}

// ---------------------------------------------------------------------------
// Generation of all permutations.
// ---------------------------------------------------------------------------

/// Extends a partial assignment of distinct values below n to every full
/// permutation of {0, .., n-1} beginning with it: all (n - len)! of them,
/// in strictly increasing lexicographic order.
pub fn permutation_recursion(n: usize, part_of_permutation: Vec<usize>) -> (result: Vec<
    Vec<usize>,
>)
    requires
        part_of_permutation@.len() <= n,
        forall|i: int| 0 <= i < part_of_permutation@.len() ==> #[trigger] part_of_permutation@[i] < n,
        part_of_permutation@.no_duplicates(),
    ensures
        forall|k: int|
            0 <= k < result@.len() ==> is_permutation(#[trigger] result@[k]@, n as int)
                && result@[k]@.subrange(0, part_of_permutation@.len() as int)
                == part_of_permutation@,
        forall|q: Seq<usize>|
            #[trigger] is_permutation(q, n as int) && q.subrange(
                0,
                part_of_permutation@.len() as int,
            ) == part_of_permutation@ ==> rows_contain(result@, q),
        rows_distinct(result@),
        rows_lex_sorted(result@),
        result@.len() == spec_factorial((n - part_of_permutation@.len()) as nat),
    decreases n - part_of_permutation@.len(),
{
    let ghost part = part_of_permutation@;
    if part_of_permutation.len() == n {
        let result = vec![part_of_permutation];
        proof {
            assert(part.subrange(0, part.len() as int) =~= part);
            assert(result@[0]@ == part);
            assert forall|q: Seq<usize>|
                is_permutation(q, n as int) && q.subrange(0, part.len() as int)
                    == part implies rows_contain(result@, q) by {
                assert(q.subrange(0, q.len() as int) =~= q);
                assert(result@[0]@ == q);
            }
            assert(spec_factorial(0) == 1);
        }
        return result;
    }

    let ghost len = part.len() as int;
    let ghost sub_count = spec_factorial((n - len - 1) as nat);
    let ghost mut free_seen: int = 0;
    let mut result: Vec<Vec<usize>> = Vec::new();
    let mut i: usize = 0;

    while i < n
        invariant
            part_of_permutation@ == part,
            part.len() < n,
            i <= n,
            forall|j: int| 0 <= j < part.len() ==> #[trigger] part[j] < n,
            part.no_duplicates(),
            len == part.len() as int,
            sub_count == spec_factorial((n - len - 1) as nat),
            free_seen == count_free(part, i as int),
            result@.len() == free_seen * sub_count,
            forall|k: int|
                0 <= k < result@.len() ==> is_permutation(#[trigger] result@[k]@, n as int)
                    && result@[k]@.subrange(0, len) == part && result@[k]@[len] < i,
            forall|q: Seq<usize>|
                #[trigger] is_permutation(q, n as int) && q.subrange(0, len) == part && q[len]
                    < i ==> rows_contain(result@, q),
            rows_distinct(result@),
            rows_lex_sorted(result@),
        decreases n - i,
    {
        if !contains_val(&part_of_permutation, i) {
            let mut new_permutation = clone_row(&part_of_permutation);
            new_permutation.push(i);
            proof {
                assert(new_permutation@ == part.push(i));
                assert(new_permutation@.no_duplicates()) by {
                    assert(forall|j: int| 0 <= j < len ==> part[j] == #[trigger] new_permutation@[j]);
                }
            }
            let mut sub = permutation_recursion(n, new_permutation);
            let ghost old_rows = result@;
            let ghost sub_rows = sub@;
            result.append(&mut sub);
            proof {
                assert(result@ == old_rows + sub_rows);
                // Rows coming from the recursive call extend part with value i.
                assert forall|k: int| 0 <= k < sub_rows.len() implies is_permutation(
                    #[trigger] sub_rows[k]@,
                    n as int,
                ) && sub_rows[k]@.subrange(0, len) == part && sub_rows[k]@[len] == i by {
                    let q = sub_rows[k]@;
                    assert(q.subrange(0, len + 1) == part.push(i));
                    assert(q.subrange(0, len) =~= q.subrange(0, len + 1).subrange(0, len));
                    assert(part.push(i).subrange(0, len) =~= part);
                    assert(q[len] == q.subrange(0, len + 1)[len]);
                }
                assert forall|k: int| 0 <= k < result@.len() implies is_permutation(
                    #[trigger] result@[k]@,
                    n as int,
                ) && result@[k]@.subrange(0, len) == part && result@[k]@[len] < i + 1 by {
                    if k < old_rows.len() {
                        assert(result@[k] == old_rows[k]);
                    } else {
                        assert(result@[k] == sub_rows[k - old_rows.len()]);
                    }
                }
                assert forall|q: Seq<usize>|
                    is_permutation(q, n as int) && q.subrange(0, len) == part && q[len] < i
                        + 1 implies rows_contain(result@, q) by {
                    if q[len] < i {
                        let k = choose|k: int| 0 <= k < old_rows.len() && old_rows[k]@ == q;
                        assert(result@[k]@ == q);
                    } else {
                        assert(q[len] == i);
                        assert(q.subrange(0, len + 1) =~= part.push(i)) by {
                            assert(forall|j: int|
                                0 <= j < len ==> q.subrange(0, len + 1)[j] == #[trigger] q.subrange(
                                    0,
                                    len,
                                )[j]);
                        }
                        assert(rows_contain(sub_rows, q));
                        let k = choose|k: int| 0 <= k < sub_rows.len() && sub_rows[k]@ == q;
                        assert(result@[old_rows.len() + k]@ == q);
                    }
                }
                assert forall|k1: int, k2: int|
                    0 <= k1 < k2 < result@.len() implies result@[k1]@ != result@[k2]@
                    && seq_lex_lt(result@[k1]@, result@[k2]@) by {
                    if k1 < old_rows.len() && k2 >= old_rows.len() {
                        assert(result@[k1] == old_rows[k1]);
                        assert(result@[k2] == sub_rows[k2 - old_rows.len()]);
                        assert(result@[k1]@[len] < i);
                        assert(result@[k2]@[len] == i);
                        lemma_lex_next_position(result@[k1]@, result@[k2]@, part);
                        lemma_seq_lex_asym(result@[k1]@, result@[k2]@);
                    } else if k1 >= old_rows.len() {
                        assert(result@[k1] == sub_rows[k1 - old_rows.len()]);
                        assert(result@[k2] == sub_rows[k2 - old_rows.len()]);
                        assert(seq_lex_lt(sub_rows[k1 - old_rows.len()]@, sub_rows[k2 - old_rows.len()]@));
                    } else {
                        assert(result@[k1] == old_rows[k1]);
                        assert(result@[k2] == old_rows[k2]);
                    }
                }
                // One more free value has been used up.
                assert(sub_rows.len() == sub_count) by {
                    assert((n - (len + 1)) as nat == (n - len - 1) as nat);
                }
                free_seen = free_seen + 1;
                assert(result@.len() == free_seen * sub_count) by {
                    assert((free_seen - 1) * sub_count + sub_count == free_seen * sub_count)
                        by (nonlinear_arith);
                }
                assert(free_seen == count_free(part, i + 1)) by {
                    assert(((i + 1) - 1) as usize == i);
                    assert(!part.contains(i));
                }
            }
        } else {
            proof {
                // Any permutation placing i next would repeat a value of part.
                assert forall|q: Seq<usize>|
                    is_permutation(q, n as int) && q.subrange(0, len) == part && q[len] < i
                        + 1 implies rows_contain(result@, q) by {
                    if q[len] == i {
                        let j = choose|j: int| 0 <= j < part.len() && part[j] == i;
                        assert(q.subrange(0, len)[j] == i);
                        assert(q[j] == i);
                        lemma_nodup_unordered(q, j, len);
                        assert(false);
                    }
                }
                assert(free_seen == count_free(part, i + 1)) by {
                    assert(((i + 1) - 1) as usize == i);
                    assert(part.contains(i));
                }
            }
        }
        i = i + 1;
    }

    proof {
        assert forall|q: Seq<usize>|
            #[trigger] is_permutation(q, n as int) && q.subrange(0, len)
                == part implies rows_contain(result@, q) by {
            assert(q[len] < n);
        }
        // Each of the n - len free values opened one branch of (n-len-1)!
        // permutations.
        lemma_count_free_full(part, n as int);
        lemma_factorial_step((n - len - 1) as nat);
        assert(result@.len() == (n - len) * spec_factorial((n - len - 1) as nat));
        assert(spec_factorial((n - len) as nat) == (n - len) * spec_factorial((n - len - 1) as nat))
            by {
            assert((n - len - 1) as nat + 1 == (n - len) as nat);
        }
    }
    result
}

/// Every permutation of {0, .., n-1}, each exactly once: all n! of them, in
/// strictly increasing lexicographic order.
pub fn generate_all_permutations(n: usize) -> (result: Vec<Vec<usize>>)
    ensures
        forall|k: int| 0 <= k < result@.len() ==> is_permutation(#[trigger] result@[k]@, n as int),
        forall|q: Seq<usize>| #[trigger] is_permutation(q, n as int) ==> rows_contain(result@, q),
        rows_distinct(result@),
        rows_lex_sorted(result@),
        result@.len() == spec_factorial(n as nat),
{
    let start: Vec<usize> = Vec::new();
    let result = permutation_recursion(n, start);
    proof {
        assert forall|q: Seq<usize>| #[trigger] is_permutation(q, n as int) implies rows_contain(
            result@,
            q,
        ) by {
            assert(q.subrange(0, 0) =~= Seq::<usize>::empty());
        }
    }
    result
}

/// Every permutation of {0, .., n-1} fixing 0, each exactly once: all
/// (n-1)! of them, in strictly increasing lexicographic order.
pub fn generate_sudocurity_permutations(n: usize) -> (result: Vec<Vec<usize>>)
    requires
        n >= 1,
    ensures
        forall|k: int|
            0 <= k < result@.len() ==> is_permutation(#[trigger] result@[k]@, n as int)
                && result@[k]@[0] == 0,
        forall|q: Seq<usize>|
            #[trigger] is_permutation(q, n as int) && q[0] == 0 ==> rows_contain(result@, q),
        rows_distinct(result@),
        rows_lex_sorted(result@),
        result@.len() == spec_factorial((n - 1) as nat),
{
    let start: Vec<usize> = vec![0];
    let result = permutation_recursion(n, start);
    proof {
        assert forall|k: int| 0 <= k < result@.len() implies is_permutation(
            #[trigger] result@[k]@,
            n as int,
        ) && result@[k]@[0] == 0 by {
            assert(result@[k]@.subrange(0, 1)[0] == 0);
        }
        assert forall|q: Seq<usize>|
            #[trigger] is_permutation(q, n as int) && q[0] == 0 implies rows_contain(result@, q) by {
            assert(q.subrange(0, 1) =~= seq![0usize]);
            assert(q.subrange(0, 1) == start@);
        }
    }
    result
}

// ---------------------------------------------------------------------------
// The Permutation type.
// ---------------------------------------------------------------------------

/// A permutation in one-line notation: x is mapped to p.0[x].
#[derive(Debug, Clone)]
pub struct Permutation(pub Vec<usize>);

impl View for Permutation {
    type V = Seq<usize>;

    open spec fn view(&self) -> Seq<usize> {
        self.0@
    }
}

impl PartialEq for Permutation {
    fn eq(&self, other: &Permutation) -> (r: bool) {
        vec_usize_eq(&self.0, &other.0)
    }
}

impl Eq for Permutation {

}

impl vstd::std_specs::cmp::PartialEqSpecImpl for Permutation {
    open spec fn obeys_eq_spec() -> bool {
        true
    }

    open spec fn eq_spec(&self, other: &Permutation) -> bool {
        self.0@ == other.0@
    }
}

impl Permutation {
    /// Every permutation of {0, .., n-1} as a Permutation value, each exactly
    /// once: all n! of them, in the same strictly increasing lexicographic
    /// order that generate_all_permutations emits — the two lists correspond
    /// elementwise, as lemma_lex_sorted_seqs_equal derives from sortedness
    /// and equal membership.
    pub fn generate_all(n: usize) -> (result: Vec<Permutation>)
        ensures
            forall|k: int|
                0 <= k < result@.len() ==> is_permutation(#[trigger] result@[k]@, n as int),
            forall|q: Seq<usize>|
                #[trigger] is_permutation(q, n as int) ==> exists|k: int|
                    0 <= k < result@.len() && result@[k]@ == q,
            forall|k1: int, k2: int|
                0 <= k1 < k2 < result@.len() ==> result@[k1]@ != result@[k2]@,
            forall|k1: int, k2: int|
                0 <= k1 < k2 < result@.len() ==> seq_lex_lt(
                    #[trigger] result@[k1]@,
                    #[trigger] result@[k2]@,
                ),
            result@.len() == spec_factorial(n as nat),
    {
        let perms = generate_all_permutations(n);
        let mut result: Vec<Permutation> = Vec::new();
        let mut k: usize = 0;
        while k < perms.len()
            invariant
                k <= perms@.len(),
                result@.len() == k,
                forall|j: int| 0 <= j < k ==> #[trigger] result@[j]@ == perms@[j]@,
                forall|j: int|
                    0 <= j < perms@.len() ==> is_permutation(#[trigger] perms@[j]@, n as int),
                forall|q: Seq<usize>|
                    #[trigger] is_permutation(q, n as int) ==> rows_contain(perms@, q),
                rows_distinct(perms@),
                rows_lex_sorted(perms@),
                perms@.len() == spec_factorial(n as nat),
            decreases perms@.len() - k,
        {
            result.push(Permutation(clone_row(&perms[k])));
            k = k + 1;
        }
        proof {
            assert forall|q: Seq<usize>| #[trigger] is_permutation(q, n as int) implies exists|
                j: int,
            | 0 <= j < result@.len() && result@[j]@ == q by {
                let j = choose|j: int| 0 <= j < perms@.len() && perms@[j]@ == q;
                assert(result@[j]@ == q);
            }
        }
        result
    }

    /// The composition self o inner: inner is applied first.
    pub fn compose(&self, inner: &Permutation) -> (r: Permutation)
        requires
            inner@.len() == self@.len(),
            forall|i: int| 0 <= i < inner@.len() ==> #[trigger] inner@[i] < self@.len(),
        ensures
            r@ == spec_compose(self@, inner@),
    {
        let mut result: Vec<usize> = Vec::new();
        let mut i: usize = 0;

        while i < self.0.len()
            invariant
                i <= self@.len(),
                inner@.len() == self@.len(),
                forall|j: int| 0 <= j < inner@.len() ==> #[trigger] inner@[j] < self@.len(),
                result@.len() == i,
                forall|j: int| 0 <= j < i ==> #[trigger] result@[j] == self@[inner@[j] as int],
            decreases self@.len() - i,
        {
            result.push(self.0[inner.0[i]]);
            i = i + 1;
        }
        proof {
            assert(result@ =~= spec_compose(self@, inner@));
        }
        Permutation(result)
    }
}

} // verus!
