use vstd::prelude::*;

verus! {

// ---------------------------------------------------------------------------
// Serialization of a list of tables as bracketed decimal text, the cache
// format: a list of lists of rows of numbers, e.g. [[[0,1],[1,0]]].
// ---------------------------------------------------------------------------

/// The byte of one decimal digit.
pub open spec fn digit_byte(d: nat) -> u8 {
    (48 + d) as u8
}

/// The canonical decimal encoding of a number: no leading zeros.
pub open spec fn enc_num(v: nat) -> Seq<u8>
    decreases v,
{
    if v < 10 {
        seq![digit_byte(v)]
    } else {
        enc_num(v / 10).push(digit_byte(v % 10))
    }
}

/// The items of a row, separated by commas.
pub open spec fn enc_row_body(r: Seq<usize>) -> Seq<u8>
    decreases r.len(),
{
    if r.len() == 0 {
        Seq::empty()
    } else if r.len() == 1 {
        enc_num(r[0] as nat)
    } else {
        enc_num(r[0] as nat) + seq![44u8] + enc_row_body(r.drop_first())
    }
}

/// One row in brackets.
pub open spec fn enc_row(r: Seq<usize>) -> Seq<u8> {
    seq![91u8] + enc_row_body(r) + seq![93u8]
}

/// The rows of a table, separated by commas.
pub open spec fn enc_table_body(t: Seq<Seq<usize>>) -> Seq<u8>
    decreases t.len(),
{
    if t.len() == 0 {
        Seq::empty()
    } else if t.len() == 1 {
        enc_row(t[0])
    } else {
        enc_row(t[0]) + seq![44u8] + enc_table_body(t.drop_first())
    }
}

/// One table in brackets.
pub open spec fn enc_table(t: Seq<Seq<usize>>) -> Seq<u8> {
    seq![91u8] + enc_table_body(t) + seq![93u8]
}

/// The tables of a list, separated by commas.
pub open spec fn enc_tables_body(ts: Seq<Seq<Seq<usize>>>) -> Seq<u8>
    decreases ts.len(),
{
    if ts.len() == 0 {
        Seq::empty()
    } else if ts.len() == 1 {
        enc_table(ts[0])
    } else {
        enc_table(ts[0]) + seq![44u8] + enc_tables_body(ts.drop_first())
    }
}

/// The whole list in brackets: the serialized form.
pub open spec fn enc_tables(ts: Seq<Seq<Seq<usize>>>) -> Seq<u8> {
    seq![91u8] + enc_tables_body(ts) + seq![93u8]
}

/// The value of the tables held in a vector, for the contracts.
pub open spec fn tables_value(ts: Seq<Vec<Vec<usize>>>) -> Seq<Seq<Seq<usize>>> {
    Seq::new(ts.len(), |i: int| crate::latin_square::grid_of(ts[i]@))
}

// ---------------------------------------------------------------------------
// The encoder.
// ---------------------------------------------------------------------------

/// Appends the decimal digits of v.
fn write_num(v: usize, out: &mut Vec<u8>)
    ensures
        final(out)@ == old(out)@ + enc_num(v as nat),
    decreases v,
{
    if v < 10 {
        out.push(48 + (v as u8));
        proof {
            assert(final(out)@ =~= old(out)@ + enc_num(v as nat));
        }
    } else {
        write_num(v / 10, out);
        out.push(48 + ((v % 10) as u8));
        proof {
            assert(final(out)@ =~= old(out)@ + enc_num(v as nat));
        }
    }
}

/// Appends the items of r from position idx on, separated by commas.
fn write_row_items(r: &Vec<usize>, idx: usize, out: &mut Vec<u8>)
    requires
        idx <= r@.len(),
    ensures
        final(out)@ == old(out)@ + enc_row_body(r@.skip(idx as int)),
    decreases r@.len() - idx,
{
    if idx < r.len() {
        write_num(r[idx], out);
        if idx + 1 < r.len() {
            out.push(44);
            write_row_items(r, idx + 1, out);
            proof {
                let s = r@.skip(idx as int);
                assert(s.drop_first() =~= r@.skip(idx + 1));
                assert(s[0] == r@[idx as int]);
                assert(final(out)@ =~= old(out)@ + enc_row_body(s));
            }
        } else {
            proof {
                let s = r@.skip(idx as int);
                assert(s.len() == 1);
                assert(s[0] == r@[idx as int]);
                assert(final(out)@ =~= old(out)@ + enc_row_body(s));
            }
        }
    } else {
        proof {
            assert(r@.skip(idx as int) =~= Seq::<usize>::empty());
            assert(final(out)@ =~= old(out)@ + enc_row_body(r@.skip(idx as int)));
        }
    }
}

/// Appends one bracketed row.
fn write_row(r: &Vec<usize>, out: &mut Vec<u8>)
    ensures
        final(out)@ == old(out)@ + enc_row(r@),
{
    out.push(91);
    write_row_items(r, 0, out);
    out.push(93);
    proof {
        assert(r@.skip(0) =~= r@);
        assert(final(out)@ =~= old(out)@ + enc_row(r@));
    }
}

/// Appends the rows of t from position idx on, separated by commas.
fn write_table_rows(t: &Vec<Vec<usize>>, idx: usize, out: &mut Vec<u8>)
    requires
        idx <= t@.len(),
    ensures
        final(out)@ == old(out)@ + enc_table_body(crate::latin_square::grid_of(t@).skip(idx as int)),
    decreases t@.len() - idx,
{
    let ghost g = crate::latin_square::grid_of(t@);
    if idx < t.len() {
        write_row(&t[idx], out);
        proof {
            assert(g[idx as int] == t@[idx as int]@);
        }
        if idx + 1 < t.len() {
            out.push(44);
            write_table_rows(t, idx + 1, out);
            proof {
                let s = g.skip(idx as int);
                assert(s.drop_first() =~= g.skip(idx + 1));
                assert(s[0] == g[idx as int]);
                assert(final(out)@ =~= old(out)@ + enc_table_body(s));
            }
        } else {
            proof {
                let s = g.skip(idx as int);
                assert(s.len() == 1);
                assert(s[0] == g[idx as int]);
                assert(final(out)@ =~= old(out)@ + enc_table_body(s));
            }
        }
    } else {
        proof {
            assert(g.skip(idx as int) =~= Seq::<Seq<usize>>::empty());
            assert(final(out)@ =~= old(out)@ + enc_table_body(g.skip(idx as int)));
        }
    }
}

/// Appends one bracketed table.
fn write_table(t: &Vec<Vec<usize>>, out: &mut Vec<u8>)
    ensures
        final(out)@ == old(out)@ + enc_table(crate::latin_square::grid_of(t@)),
{
    out.push(91);
    write_table_rows(t, 0, out);
    out.push(93);
    proof {
        let g = crate::latin_square::grid_of(t@);
        assert(g.skip(0) =~= g);
        assert(final(out)@ =~= old(out)@ + enc_table(g));
    }
}

/// Serializes a list of tables: the bracketed decimal text of its values.
pub fn encode_tables(tables: &Vec<Vec<Vec<usize>>>) -> (r: Vec<u8>)
    ensures
        r@ == enc_tables(tables_value(tables@)),
{
    let ghost ts = tables_value(tables@);
    let mut out: Vec<u8> = Vec::new();
    out.push(91);
    let mut idx: usize = 0;
    while idx < tables.len()
        invariant
            ts == tables_value(tables@),
            idx <= tables@.len(),
            idx == 0 ==> out@ == seq![91u8],
            idx > 0 ==> out@ == seq![91u8] + enc_tables_body(ts.take(idx as int)),
        decreases tables@.len() - idx,
    {
        if idx > 0 {
            out.push(44);
        }
        write_table(&tables[idx], &mut out);
        proof {
            assert(ts[idx as int] == crate::latin_square::grid_of(tables@[idx as int]@));
            lemma_enc_tables_body_snoc(ts, idx as int);
        }
        idx = idx + 1;
    }
    out.push(93);
    proof {
        if tables@.len() == 0 {
            assert(enc_tables_body(ts) =~= Seq::<u8>::empty());
            assert(out@ =~= enc_tables(ts));
        } else {
            assert(ts.take(tables@.len() as int) =~= ts);
            assert(out@ =~= enc_tables(ts));
        }
    }
    out
}

/// Extending a prefix of the list by one table appends a comma (after the
/// first) and the table's encoding.
proof fn lemma_enc_tables_body_snoc(ts: Seq<Seq<Seq<usize>>>, idx: int)
    requires
        0 <= idx < ts.len(),
    ensures
        idx == 0 ==> enc_tables_body(ts.take(1)) == enc_table(ts[0]),
        idx > 0 ==> enc_tables_body(ts.take(idx + 1)) == enc_tables_body(ts.take(idx)) + seq![44u8]
            + enc_table(ts[idx]),
    decreases idx,
{
    if idx == 0 {
        assert(ts.take(1).len() == 1);
        assert(ts.take(1)[0] == ts[0]);
    } else {
        lemma_enc_tables_body_snoc(ts.drop_first(), idx - 1);
        let a = ts.take(idx + 1);
        let b = ts.take(idx);
        assert(a.drop_first() =~= ts.drop_first().take(idx));
        assert(b.drop_first() =~= ts.drop_first().take(idx - 1));
        assert(a[0] == ts[0]);
        assert(b[0] == ts[0]);
        assert(a.len() == idx + 1);
        assert(b.len() == idx);
        assert(ts.drop_first().take(idx)[idx - 1] == ts[idx]);
        if idx == 1 {
            assert(enc_tables_body(a) == enc_table(a[0]) + seq![44u8] + enc_tables_body(
                a.drop_first(),
            ));
            assert(enc_tables_body(a.drop_first()) == enc_table(ts[1]));
            assert(enc_tables_body(b) == enc_table(ts[0]));
        } else {
            assert(enc_tables_body(a) == enc_table(a[0]) + seq![44u8] + enc_tables_body(
                a.drop_first(),
            ));
            assert(enc_tables_body(b) == enc_table(b[0]) + seq![44u8] + enc_tables_body(
                b.drop_first(),
            ));
            assert((enc_table(ts[0]) + seq![44u8] + (enc_tables_body(ts.drop_first().take(idx - 1))
                + seq![44u8] + enc_table(ts[idx]))) =~= (enc_table(ts[0]) + seq![44u8]
                + enc_tables_body(ts.drop_first().take(idx - 1))) + seq![44u8] + enc_table(
                ts[idx],
            ));
        }
    }
}

// ---------------------------------------------------------------------------
// Injectivity of the serialization: two different table lists never
// serialize alike, so reloading a stored serialization identifies the
// stored list uniquely.
// ---------------------------------------------------------------------------

/// A number's encoding is non-empty and all digits.
proof fn lemma_enc_num_digits(v: nat)
    ensures
        enc_num(v).len() >= 1,
        forall|i: int| 0 <= i < enc_num(v).len() ==> 48 <= #[trigger] enc_num(v)[i] <= 57,
    decreases v,
{
    if v >= 10 {
        lemma_enc_num_digits(v / 10);
        assert forall|i: int| 0 <= i < enc_num(v).len() implies 48 <= #[trigger] enc_num(v)[i]
            <= 57 by {
            if i < enc_num(v / 10).len() {
                assert(enc_num(v)[i] == enc_num(v / 10)[i]);
            }
        }
    }
}

/// The decimal value read back from an encoding.
pub open spec fn dec_num(ds: Seq<u8>) -> nat
    decreases ds.len(),
{
    if ds.len() == 0 {
        0
    } else {
        dec_num(ds.drop_last()) * 10 + (if ds.last() >= 48 {
            (ds.last() - 48) as nat
        } else {
            0
        })
    }
}

/// Reading back an encoding yields the encoded value.
proof fn lemma_dec_enc_num(v: nat)
    ensures
        dec_num(enc_num(v)) == v,
    decreases v,
{
    reveal_with_fuel(dec_num, 3);
    if v < 10 {
        assert(enc_num(v).drop_last() =~= Seq::<u8>::empty());
        assert(dec_num(Seq::<u8>::empty()) == 0);
        assert(enc_num(v).last() == digit_byte(v));
        assert(digit_byte(v) == 48 + v);
    } else {
        lemma_dec_enc_num(v / 10);
        assert(enc_num(v).drop_last() =~= enc_num(v / 10));
        assert(enc_num(v).last() == digit_byte(v % 10));
        assert(digit_byte(v % 10) == 48 + v % 10);
        assert(dec_num(enc_num(v)) == dec_num(enc_num(v / 10)) * 10 + v % 10);
        assert(v == (v / 10) * 10 + v % 10);
    }
}

/// Two number encodings followed by non-digit (or empty) tails agree only
/// when the values and the tails agree.
proof fn lemma_enc_num_concat_inj(x: nat, y: nat, s1: Seq<u8>, s2: Seq<u8>)
    requires
        enc_num(x) + s1 == enc_num(y) + s2,
        s1.len() > 0 ==> !(48 <= s1[0] <= 57),
        s2.len() > 0 ==> !(48 <= s2[0] <= 57),
    ensures
        x == y,
        s1 == s2,
{
    lemma_enc_num_digits(x);
    lemma_enc_num_digits(y);
    let a = enc_num(x);
    let b = enc_num(y);
    let whole = a + s1;
    if a.len() < b.len() {
        assert(whole[a.len() as int] == s1[0]);
        assert(whole[a.len() as int] == b[a.len() as int]);
        assert(s1.len() > 0) by {
            assert(whole.len() == b.len() + s2.len());
        }
        assert(false);
    } else if b.len() < a.len() {
        assert(whole[b.len() as int] == s2[0]);
        assert(whole[b.len() as int] == a[b.len() as int]);
        assert(s2.len() > 0) by {
            assert(whole.len() == a.len() + s1.len());
        }
        assert(false);
    }
    assert(a =~= b) by {
        assert(forall|i: int| 0 <= i < a.len() ==> whole[i] == a[i] && whole[i] == #[trigger] b[i]);
    }
    lemma_dec_enc_num(x);
    lemma_dec_enc_num(y);
    assert(s1.len() == s2.len()) by {
        assert(whole.len() == a.len() + s1.len());
        assert(whole.len() == b.len() + s2.len());
    }
    assert forall|i: int| 0 <= i < s1.len() implies s1[i] == s2[i] by {
        assert(s1[i] == whole[a.len() + i]);
        assert(s2[i] == (b + s2)[b.len() + i]);
    }
    assert(s1 =~= s2);
}

/// A row body holds digits and commas only.
proof fn lemma_enc_row_body_chars(r: Seq<usize>)
    ensures
        forall|i: int|
            0 <= i < enc_row_body(r).len() ==> (48 <= #[trigger] enc_row_body(r)[i] <= 57
                || enc_row_body(r)[i] == 44),
    decreases r.len(),
{
    if r.len() == 0 {
    } else if r.len() == 1 {
        lemma_enc_num_digits(r[0] as nat);
    } else {
        lemma_enc_num_digits(r[0] as nat);
        lemma_enc_row_body_chars(r.drop_first());
        let e = enc_num(r[0] as nat);
        let rest = enc_row_body(r.drop_first());
        assert forall|i: int| 0 <= i < enc_row_body(r).len() implies (48
            <= #[trigger] enc_row_body(r)[i] <= 57 || enc_row_body(r)[i] == 44) by {
            if i < e.len() {
                assert(enc_row_body(r)[i] == e[i]);
            } else if i == e.len() {
                assert(enc_row_body(r)[i] == 44);
            } else {
                assert(enc_row_body(r)[i] == rest[i - e.len() - 1]);
            }
        }
    }
}

/// Two row bodies agree only when the rows agree.
proof fn lemma_enc_row_body_inj(r1: Seq<usize>, r2: Seq<usize>, s1: Seq<u8>, s2: Seq<u8>)
    requires
        enc_row_body(r1) + s1 == enc_row_body(r2) + s2,
        s1.len() > 0 ==> !(48 <= s1[0] <= 57) && s1[0] != 44,
        s2.len() > 0 ==> !(48 <= s2[0] <= 57) && s2[0] != 44,
        s1.len() > 0,
        s2.len() > 0,
    ensures
        r1 == r2,
        s1 == s2,
    decreases r1.len(),
{
    if r1.len() == 0 || r2.len() == 0 {
        if r1.len() == 0 && r2.len() == 0 {
            assert(s1 =~= s2);
            assert(r1 =~= r2);
        } else if r1.len() == 0 {
            // s1 starts the other side's first number: a digit.
            lemma_enc_num_digits(r2[0] as nat);
            let whole = enc_row_body(r2) + s2;
            assert(whole[0] == s1[0]);
            if r2.len() == 1 {
                assert(whole[0] == enc_num(r2[0] as nat)[0]);
            } else {
                assert(whole[0] == enc_num(r2[0] as nat)[0]);
            }
            assert(false);
        } else {
            lemma_enc_num_digits(r1[0] as nat);
            let whole = enc_row_body(r1) + s1;
            assert(whole[0] == s2[0]);
            if r1.len() == 1 {
                assert(whole[0] == enc_num(r1[0] as nat)[0]);
            } else {
                assert(whole[0] == enc_num(r1[0] as nat)[0]);
            }
            assert(false);
        }
    } else {
        let t1 = if r1.len() == 1 {
            s1
        } else {
            seq![44u8] + enc_row_body(r1.drop_first()) + s1
        };
        let t2 = if r2.len() == 1 {
            s2
        } else {
            seq![44u8] + enc_row_body(r2.drop_first()) + s2
        };
        assert(enc_num(r1[0] as nat) + t1 =~= enc_row_body(r1) + s1);
        assert(enc_num(r2[0] as nat) + t2 =~= enc_row_body(r2) + s2);
        lemma_enc_num_concat_inj(r1[0] as nat, r2[0] as nat, t1, t2);
        if r1.len() == 1 && r2.len() == 1 {
            assert(r1 =~= r2);
        } else if r1.len() == 1 {
            assert(t1[0] == 44);
            assert(false);
        } else if r2.len() == 1 {
            assert(t2[0] == 44);
            assert(false);
        } else {
            assert(t1.drop_first() =~= enc_row_body(r1.drop_first()) + s1);
            assert(t2.drop_first() =~= enc_row_body(r2.drop_first()) + s2);
            assert(enc_row_body(r1.drop_first()) + s1 == enc_row_body(r2.drop_first()) + s2);
            lemma_enc_row_body_inj(r1.drop_first(), r2.drop_first(), s1, s2);
            assert(r1.len() == r2.len());
            assert forall|i: int| 0 <= i < r1.len() implies r1[i] == r2[i] by {
                if i == 0 {
                } else {
                    assert(r1[i] == r1.drop_first()[i - 1]);
                    assert(r2[i] == r2.drop_first()[i - 1]);
                }
            }
            assert(r1 =~= r2);
        }
    }
}

/// Two bracketed rows followed by arbitrary tails agree only when the rows
/// and the tails agree.
proof fn lemma_enc_row_concat_inj(r1: Seq<usize>, r2: Seq<usize>, s1: Seq<u8>, s2: Seq<u8>)
    requires
        enc_row(r1) + s1 == enc_row(r2) + s2,
    ensures
        r1 == r2,
        s1 == s2,
{
    let e1 = enc_row(r1);
    let e2 = enc_row(r2);
    let whole = e1 + s1;
    lemma_enc_row_body_chars(r1);
    lemma_enc_row_body_chars(r2);
    // The single closing bracket of a row encoding is its last byte.
    assert(e1[e1.len() - 1] == 93);
    assert(e2[e2.len() - 1] == 93);
    assert forall|i: int| 0 <= i < e1.len() - 1 implies #[trigger] e1[i] != 93 by {
        if i >= 1 {
            assert(e1[i] == enc_row_body(r1)[i - 1]);
        }
    }
    assert forall|i: int| 0 <= i < e2.len() - 1 implies #[trigger] e2[i] != 93 by {
        if i >= 1 {
            assert(e2[i] == enc_row_body(r2)[i - 1]);
        }
    }
    if e1.len() < e2.len() {
        assert(whole[e1.len() - 1] == e1[e1.len() - 1]);
        assert(whole[e1.len() - 1] == e2[e1.len() - 1]);
        assert(false);
    } else if e2.len() < e1.len() {
        assert(whole[e2.len() - 1] == e2[e2.len() - 1]);
        assert(whole[e2.len() - 1] == e1[e2.len() - 1]);
        assert(false);
    }
    let body1 = enc_row_body(r1);
    let body2 = enc_row_body(r2);
    let lhs = body1 + (seq![93u8] + s1);
    let rhs = body2 + (seq![93u8] + s2);
    assert(e1.len() == body1.len() + 2);
    assert(e2.len() == body2.len() + 2);
    assert(e1.len() == e2.len());
    assert(lhs.len() == body1.len() + 1 + s1.len());
    assert(rhs.len() == body2.len() + 1 + s2.len());
    assert(whole.len() == e1.len() + s1.len());
    assert(whole.len() == e2.len() + s2.len());
    assert(lhs.len() == rhs.len());
    assert forall|i: int| 0 <= i < lhs.len() implies lhs[i] == rhs[i] by {
        assert(lhs[i] == whole[i + 1]) by {
            if i < body1.len() {
                assert(lhs[i] == body1[i]);
                assert(e1[i + 1] == body1[i]);
                assert(whole[i + 1] == e1[i + 1]);
            } else if i == body1.len() {
                assert(lhs[i] == (seq![93u8] + s1)[0]);
                assert(e1[i + 1] == 93);
                assert(whole[i + 1] == e1[i + 1]);
            } else {
                assert(lhs[i] == (seq![93u8] + s1)[i - body1.len()]);
                assert((seq![93u8] + s1)[i - body1.len()] == s1[i - body1.len() - 1]);
                assert(whole[i + 1] == s1[i + 1 - e1.len()]);
            }
        }
        assert(rhs[i] == whole[i + 1]) by {
            let whole2 = e2 + s2;
            assert(whole2 == whole);
            if i < body2.len() {
                assert(rhs[i] == body2[i]);
                assert(e2[i + 1] == body2[i]);
                assert(whole2[i + 1] == e2[i + 1]);
            } else if i == body2.len() {
                assert(rhs[i] == (seq![93u8] + s2)[0]);
                assert(e2[i + 1] == 93);
                assert(whole2[i + 1] == e2[i + 1]);
            } else {
                assert(rhs[i] == (seq![93u8] + s2)[i - body2.len()]);
                assert((seq![93u8] + s2)[i - body2.len()] == s2[i - body2.len() - 1]);
                assert(whole2[i + 1] == s2[i + 1 - e2.len()]);
            }
        }
    }
    assert(lhs =~= rhs);
    lemma_enc_row_body_inj(r1, r2, seq![93u8] + s1, seq![93u8] + s2);
    assert(s1 =~= s2) by {
        assert((seq![93u8] + s1).drop_first() =~= s1);
        assert((seq![93u8] + s2).drop_first() =~= s2);
    }
}

/// A bracketed item followed by a tail regroups around the brackets.
proof fn lemma_reassoc(b: Seq<u8>, s: Seq<u8>)
    ensures
        (seq![91u8] + b + seq![93u8]) + s == seq![91u8] + (b + (seq![93u8] + s)),
{
    assert((seq![91u8] + b + seq![93u8]) + s =~= seq![91u8] + (b + (seq![93u8] + s)));
}

/// Equal sequences with the same first byte stay equal with it removed.
proof fn lemma_cancel_first(x: Seq<u8>, y: Seq<u8>)
    requires
        seq![91u8] + x == seq![91u8] + y,
    ensures
        x == y,
{
    let wx = seq![91u8] + x;
    assert(x.len() == y.len()) by {
        assert(wx.len() == 1 + x.len());
        assert((seq![91u8] + y).len() == 1 + y.len());
    }
    assert forall|i: int| 0 <= i < x.len() implies x[i] == y[i] by {
        assert(x[i] == wx[i + 1]);
        assert(y[i] == (seq![91u8] + y)[i + 1]);
    }
    assert(x =~= y);
}

/// Two table bodies followed by closing-bracket tails agree only when the
/// tables and the tails agree.
proof fn lemma_enc_table_body_inj(t1: Seq<Seq<usize>>, t2: Seq<Seq<usize>>, s1: Seq<u8>, s2: Seq<u8>)
    requires
        enc_table_body(t1) + s1 == enc_table_body(t2) + s2,
        s1.len() > 0,
        s1[0] == 93,
        s2.len() > 0,
        s2[0] == 93,
    ensures
        t1 == t2,
        s1 == s2,
    decreases t1.len(),
{
    if t1.len() == 0 || t2.len() == 0 {
        if t1.len() == 0 && t2.len() == 0 {
            assert(s1 =~= s2);
            assert(t1 =~= t2);
        } else if t1.len() == 0 {
            let whole = enc_table_body(t2) + s2;
            assert(whole[0] == s1[0]);
            assert(whole[0] == enc_table_body(t2)[0]);
            assert(enc_table_body(t2)[0] == enc_row(t2[0])[0]);
            assert(enc_row(t2[0])[0] == 91);
            assert(false);
        } else {
            let whole = enc_table_body(t1) + s1;
            assert(whole[0] == s2[0]);
            assert(whole[0] == enc_table_body(t1)[0]);
            assert(enc_table_body(t1)[0] == enc_row(t1[0])[0]);
            assert(enc_row(t1[0])[0] == 91);
            assert(false);
        }
    } else {
        let u1 = if t1.len() == 1 {
            s1
        } else {
            seq![44u8] + enc_table_body(t1.drop_first()) + s1
        };
        let u2 = if t2.len() == 1 {
            s2
        } else {
            seq![44u8] + enc_table_body(t2.drop_first()) + s2
        };
        assert(enc_row(t1[0]) + u1 =~= enc_table_body(t1) + s1);
        assert(enc_row(t2[0]) + u2 =~= enc_table_body(t2) + s2);
        lemma_enc_row_concat_inj(t1[0], t2[0], u1, u2);
        if t1.len() == 1 && t2.len() == 1 {
            assert(t1 =~= t2);
        } else if t1.len() == 1 {
            assert(u1[0] == 44);
            assert(false);
        } else if t2.len() == 1 {
            assert(u2[0] == 44);
            assert(false);
        } else {
            assert(u1.drop_first() =~= enc_table_body(t1.drop_first()) + s1);
            assert(u2.drop_first() =~= enc_table_body(t2.drop_first()) + s2);
            assert(enc_table_body(t1.drop_first()) + s1 == enc_table_body(t2.drop_first()) + s2);
            lemma_enc_table_body_inj(t1.drop_first(), t2.drop_first(), s1, s2);
            assert(t1.len() == t2.len());
            assert forall|i: int| 0 <= i < t1.len() implies t1[i] == t2[i] by {
                if i == 0 {
                } else {
                    assert(t1[i] == t1.drop_first()[i - 1]);
                    assert(t2[i] == t2.drop_first()[i - 1]);
                }
            }
            assert(t1 =~= t2);
        }
    }
}

/// Two bracketed tables followed by arbitrary tails agree only when the
/// tables and the tails agree.
proof fn lemma_enc_table_concat_inj(t1: Seq<Seq<usize>>, t2: Seq<Seq<usize>>, s1: Seq<u8>, s2: Seq<u8>)
    requires
        enc_table(t1) + s1 == enc_table(t2) + s2,
    ensures
        t1 == t2,
        s1 == s2,
{
    lemma_reassoc(enc_table_body(t1), s1);
    lemma_reassoc(enc_table_body(t2), s2);
    lemma_cancel_first(
        enc_table_body(t1) + (seq![93u8] + s1),
        enc_table_body(t2) + (seq![93u8] + s2),
    );
    lemma_enc_table_body_inj(t1, t2, seq![93u8] + s1, seq![93u8] + s2);
    assert(s1 =~= s2) by {
        assert((seq![93u8] + s1).drop_first() =~= s1);
        assert((seq![93u8] + s2).drop_first() =~= s2);
    }
}

/// Two lists of table bodies followed by closing-bracket tails agree only
/// when the lists and the tails agree.
proof fn lemma_enc_tables_body_inj(
    ts1: Seq<Seq<Seq<usize>>>,
    ts2: Seq<Seq<Seq<usize>>>,
    s1: Seq<u8>,
    s2: Seq<u8>,
)
    requires
        enc_tables_body(ts1) + s1 == enc_tables_body(ts2) + s2,
        s1.len() > 0,
        s1[0] == 93,
        s2.len() > 0,
        s2[0] == 93,
    ensures
        ts1 == ts2,
        s1 == s2,
    decreases ts1.len(),
{
    if ts1.len() == 0 || ts2.len() == 0 {
        if ts1.len() == 0 && ts2.len() == 0 {
            assert(s1 =~= s2);
            assert(ts1 =~= ts2);
        } else if ts1.len() == 0 {
            let whole = enc_tables_body(ts2) + s2;
            assert(whole[0] == s1[0]);
            assert(whole[0] == enc_tables_body(ts2)[0]);
            assert(enc_tables_body(ts2)[0] == enc_table(ts2[0])[0]);
            assert(enc_table(ts2[0])[0] == 91);
            assert(false);
        } else {
            let whole = enc_tables_body(ts1) + s1;
            assert(whole[0] == s2[0]);
            assert(whole[0] == enc_tables_body(ts1)[0]);
            assert(enc_tables_body(ts1)[0] == enc_table(ts1[0])[0]);
            assert(enc_table(ts1[0])[0] == 91);
            assert(false);
        }
    } else {
        let u1 = if ts1.len() == 1 {
            s1
        } else {
            seq![44u8] + enc_tables_body(ts1.drop_first()) + s1
        };
        let u2 = if ts2.len() == 1 {
            s2
        } else {
            seq![44u8] + enc_tables_body(ts2.drop_first()) + s2
        };
        assert(enc_table(ts1[0]) + u1 =~= enc_tables_body(ts1) + s1);
        assert(enc_table(ts2[0]) + u2 =~= enc_tables_body(ts2) + s2);
        lemma_enc_table_concat_inj(ts1[0], ts2[0], u1, u2);
        if ts1.len() == 1 && ts2.len() == 1 {
            assert(ts1 =~= ts2);
        } else if ts1.len() == 1 {
            assert(u1[0] == 44);
            assert(false);
        } else if ts2.len() == 1 {
            assert(u2[0] == 44);
            assert(false);
        } else {
            assert(u1.drop_first() =~= enc_tables_body(ts1.drop_first()) + s1);
            assert(u2.drop_first() =~= enc_tables_body(ts2.drop_first()) + s2);
            assert(enc_tables_body(ts1.drop_first()) + s1 == enc_tables_body(ts2.drop_first())
                + s2);
            lemma_enc_tables_body_inj(ts1.drop_first(), ts2.drop_first(), s1, s2);
            assert(ts1.len() == ts2.len());
            assert forall|i: int| 0 <= i < ts1.len() implies ts1[i] == ts2[i] by {
                if i == 0 {
                } else {
                    assert(ts1[i] == ts1.drop_first()[i - 1]);
                    assert(ts2[i] == ts2.drop_first()[i - 1]);
                }
            }
            assert(ts1 =~= ts2);
        }
    }
}

/// The round-trip law of the serialization: two different lists of tables
/// never serialize alike.  Together with the decoder's contract — whatever
/// it returns is exactly the value whose serialization the input was — a
/// stored serialization reloads to the stored list and nothing else.
pub proof fn lemma_encoding_injective(ts1: Seq<Seq<Seq<usize>>>, ts2: Seq<Seq<Seq<usize>>>)
    requires
        enc_tables(ts1) == enc_tables(ts2),
    ensures
        ts1 == ts2,
{
    lemma_reassoc(enc_tables_body(ts1), Seq::<u8>::empty());
    lemma_reassoc(enc_tables_body(ts2), Seq::<u8>::empty());
    assert(enc_tables(ts1) + Seq::<u8>::empty() =~= enc_tables(ts1));
    assert(enc_tables(ts2) + Seq::<u8>::empty() =~= enc_tables(ts2));
    lemma_cancel_first(
        enc_tables_body(ts1) + (seq![93u8] + Seq::<u8>::empty()),
        enc_tables_body(ts2) + (seq![93u8] + Seq::<u8>::empty()),
    );
    lemma_enc_tables_body_inj(
        ts1,
        ts2,
        seq![93u8] + Seq::<u8>::empty(),
        seq![93u8] + Seq::<u8>::empty(),
    );
}

// ---------------------------------------------------------------------------
// The decoder: parses the bracketed decimal text, then re-serializes and
// compares, so anything returned is exactly the value whose serialization
// the input was.
// ---------------------------------------------------------------------------

/// A canonical number encoding sits at `pos`, delimited by a non-digit or
/// the end of the input.
pub open spec fn num_at(bytes: Seq<u8>, pos: int, v: nat) -> bool {
    &&& 0 <= pos
    &&& pos + enc_num(v).len() <= bytes.len()
    &&& bytes.subrange(pos, pos + enc_num(v).len()) == enc_num(v)
    &&& (pos + enc_num(v).len() == bytes.len() || !(48 <= bytes[pos + enc_num(v).len()] <= 57))
}

/// One more digit multiplies the read value by ten and adds it.
proof fn lemma_dec_take_step(s: Seq<u8>, k: int)
    requires
        0 <= k < s.len(),
        s[k] >= 48,
    ensures
        dec_num(s.take(k + 1)) == dec_num(s.take(k)) * 10 + (s[k] - 48),
{
    let t = s.take(k + 1);
    assert(t.drop_last() =~= s.take(k));
    assert(t.last() == s[k]);
}

/// Reading a prefix never exceeds reading the whole string of digits.
proof fn lemma_dec_take_mono(s: Seq<u8>, k: int)
    requires
        0 <= k <= s.len(),
        forall|i: int| 0 <= i < s.len() ==> 48 <= #[trigger] s[i] <= 57,
    ensures
        dec_num(s.take(k)) <= dec_num(s),
    decreases s.len() - k,
{
    if k == s.len() {
        assert(s.take(k) =~= s);
    } else {
        lemma_dec_take_step(s, k);
        lemma_dec_take_mono(s, k + 1);
        assert(dec_num(s.take(k)) * 10 >= dec_num(s.take(k)) * 1);
    }
}

/// Reads one decimal number at `pos`.  Returns the value and the position
/// after it, or None on a malformed or oversized number.  Whenever a
/// representable number's encoding sits at `pos`, exactly it is read.
fn parse_num(bytes: &Vec<u8>, pos: usize) -> (r: Option<(usize, usize)>)
    requires
        pos <= bytes@.len(),
    ensures
        r matches Option::Some(p) ==> pos < p.1 <= bytes@.len(),
        forall|v: nat|
            v <= usize::MAX && #[trigger] num_at(bytes@, pos as int, v) ==> r == Option::Some(
                (v as usize, (pos + enc_num(v).len()) as usize),
            ),
{
    let mut value: usize = 0;
    let mut cur = pos;
    let mut any = false;
    while cur < bytes.len() && bytes[cur] >= 48 && bytes[cur] <= 57
        invariant
            pos <= cur <= bytes@.len(),
            any == (cur > pos),
            forall|i: int| pos <= i < cur ==> 48 <= #[trigger] bytes@[i] <= 57,
            value == dec_num(bytes@.subrange(pos as int, cur as int)),
        decreases bytes@.len() - cur,
    {
        let ghost k = cur - pos;
        proof {
            // Against any encoding at pos, only its own digits have been
            // consumed so far, and the next digit still fits.
            assert forall|v: nat|
                v <= usize::MAX && #[trigger] num_at(bytes@, pos as int, v) implies k
                < enc_num(v).len() && value == dec_num(enc_num(v).take(k as int)) && value * 10 + (
            bytes@[cur as int] - 48) == dec_num(enc_num(v).take(k + 1)) && dec_num(
                enc_num(v).take(k + 1),
            ) <= v by {
                lemma_enc_num_digits(v);
                let e = enc_num(v);
                assert(k <= e.len()) by {
                    if k > e.len() {
                        assert(48 <= bytes@[pos + e.len()] <= 57);
                        assert(pos + e.len() < bytes@.len());
                        assert(false);
                    }
                }
                assert(k < e.len()) by {
                    if k == e.len() {
                        assert(48 <= bytes@[cur as int] <= 57);
                        assert(false);
                    }
                }
                assert(bytes@.subrange(pos as int, cur as int) =~= e.take(k as int)) by {
                    assert(forall|i: int|
                        0 <= i < e.len() ==> #[trigger] e[i] == bytes@.subrange(
                            pos as int,
                            pos + e.len(),
                        )[i]);
                }
                assert(bytes@[cur as int] == e[k as int]) by {
                    assert(e[k as int] == bytes@.subrange(pos as int, pos + e.len())[k as int]);
                }
                lemma_dec_take_step(e, k as int);
                lemma_dec_take_mono(e, k + 1);
                lemma_dec_enc_num(v);
            }
        }
        let d = (bytes[cur] - 48) as usize;
        if value > usize::MAX / 10 {
            proof {
                assert forall|v: nat|
                    v <= usize::MAX && #[trigger] num_at(bytes@, pos as int, v) implies false by {
                    assert(value * 10 <= dec_num(enc_num(v).take(k + 1)));
                    assert(value >= usize::MAX / 10 + 1);
                    assert(value * 10 >= (usize::MAX / 10 + 1) * 10);
                }
            }
            return Option::None;
        }
        value = value * 10;
        if d > usize::MAX - value {
            proof {
                assert forall|v: nat|
                    v <= usize::MAX && #[trigger] num_at(bytes@, pos as int, v) implies false by {
                    assert(value + d == dec_num(enc_num(v).take(k + 1)));
                }
            }
            return Option::None;
        }
        value = value + d;
        any = true;
        cur = cur + 1;
        proof {
            lemma_dec_take_step(bytes@.subrange(pos as int, cur as int), cur - pos - 1);
            assert(bytes@.subrange(pos as int, cur as int).take(cur - pos - 1) =~= bytes@.subrange(
                pos as int,
                cur - 1,
            ));
            assert(bytes@.subrange(pos as int, cur as int).take(cur - pos) =~= bytes@.subrange(
                pos as int,
                cur as int,
            ));
        }
    }
    proof {
        // Any encoding at pos was consumed whole: the loop stopped at its
        // delimiter, neither before nor after.
        assert forall|v: nat|
            v <= usize::MAX && #[trigger] num_at(bytes@, pos as int, v) implies cur == pos
            + enc_num(v).len() && value == v && any by {
            lemma_enc_num_digits(v);
            let e = enc_num(v);
            let k = cur - pos;
            assert(k <= e.len()) by {
                if k > e.len() {
                    assert(48 <= bytes@[pos + e.len()] <= 57);
                    assert(pos + e.len() < bytes@.len());
                    assert(false);
                }
            }
            assert(k == e.len()) by {
                if k < e.len() {
                    assert(bytes@[cur as int] == e[k as int]) by {
                        assert(e[k as int] == bytes@.subrange(pos as int, pos + e.len())[k as int]);
                    }
                    assert(48 <= bytes@[cur as int] <= 57);
                    assert(cur < bytes@.len());
                    assert(false);
                }
            }
            assert(bytes@.subrange(pos as int, cur as int) =~= e) by {
                assert(forall|i: int|
                    0 <= i < e.len() ==> #[trigger] e[i] == bytes@.subrange(
                        pos as int,
                        pos + e.len(),
                    )[i]);
            }
            lemma_dec_enc_num(v);
        }
    }
    if !any {
        return Option::None;
    }
    Option::Some((value, cur))
}

/// A row encoding sits at `pos`.
pub open spec fn row_at(bytes: Seq<u8>, pos: int, row: Seq<usize>) -> bool {
    &&& 0 <= pos
    &&& pos + enc_row(row).len() <= bytes.len()
    &&& bytes.subrange(pos, pos + enc_row(row).len()) == enc_row(row)
}

/// Comma-separated items and the closing bracket fill [p, endp).
pub open spec fn row_items_at(bytes: Seq<u8>, p: int, endp: int, items: Seq<usize>) -> bool {
    &&& 0 <= p <= endp <= bytes.len()
    &&& bytes.subrange(p, endp) == enc_row_body(items) + seq![93u8]
}

/// An equation between a subrange and a concatenation splits at the seam.
proof fn lemma_subrange_split(bytes: Seq<u8>, p: int, q: int, a: Seq<u8>, b: Seq<u8>)
    requires
        0 <= p <= q <= bytes.len(),
        bytes.subrange(p, q) == a + b,
    ensures
        p + a.len() + b.len() == q,
        bytes.subrange(p, p + a.len()) == a,
        bytes.subrange(p + a.len(), q) == b,
{
    assert(bytes.subrange(p, q).len() == a.len() + b.len());
    assert(bytes.subrange(p, p + a.len()) =~= a) by {
        assert(forall|i: int| 0 <= i < a.len() ==> #[trigger] bytes.subrange(p, q)[i] == a[i]);
    }
    assert forall|i: int| 0 <= i < b.len() implies bytes.subrange(p + a.len(), q)[i] == b[i] by {
        assert(bytes.subrange(p + a.len(), q)[i] == bytes[p + a.len() + i]);
        assert(bytes.subrange(p, q)[a.len() + i] == bytes[p + a.len() + i]);
        assert((a + b)[a.len() + i] == b[i]);
    }
    assert(bytes.subrange(p + a.len(), q) =~= b);
}

/// The head of a run of row items: its number sits first, delimited by the
/// comma or closing bracket after it, behind which the remaining items
/// follow.
proof fn lemma_row_items_head(bytes: Seq<u8>, p: int, endp: int, items: Seq<usize>)
    requires
        row_items_at(bytes, p, endp, items),
        items.len() > 0,
    ensures
        num_at(bytes, p, items[0] as nat),
        items.len() == 1 ==> p + enc_num(items[0] as nat).len() + 1 == endp && bytes[p + enc_num(
            items[0] as nat,
        ).len()] == 93,
        items.len() > 1 ==> bytes[p + enc_num(items[0] as nat).len()] == 44 && row_items_at(
            bytes,
            p + enc_num(items[0] as nat).len() + 1,
            endp,
            items.drop_first(),
        ),
{
    let e = enc_num(items[0] as nat);
    lemma_enc_num_digits(items[0] as nat);
    if items.len() == 1 {
        assert(enc_row_body(items) + seq![93u8] =~= e + seq![93u8]);
        lemma_subrange_split(bytes, p, endp, e, seq![93u8]);
        assert(bytes[p + e.len()] == bytes.subrange(p + e.len(), endp)[0]);
        assert(num_at(bytes, p, items[0] as nat)) by {
            assert(bytes.subrange(p, p + e.len()) == e);
            assert(bytes[p + e.len()] == 93);
        }
    } else {
        let rest = seq![44u8] + enc_row_body(items.drop_first()) + seq![93u8];
        assert(enc_row_body(items) + seq![93u8] =~= e + rest) by {
            assert(enc_row_body(items) == e + seq![44u8] + enc_row_body(items.drop_first()));
        }
        lemma_subrange_split(bytes, p, endp, e, rest);
        assert(bytes.subrange(p + e.len(), endp) == rest);
        assert(bytes[p + e.len()] == rest[0]) by {
            assert(rest[0] == bytes.subrange(p + e.len(), endp)[0]);
        }
        assert(rest[0] == 44);
        assert(num_at(bytes, p, items[0] as nat)) by {
            assert(bytes.subrange(p, p + e.len()) == e);
        }
        assert(rest =~= seq![44u8] + (enc_row_body(items.drop_first()) + seq![93u8]));
        lemma_subrange_split(
            bytes,
            p + e.len(),
            endp,
            seq![44u8],
            enc_row_body(items.drop_first()) + seq![93u8],
        );
    }
}

/// Reads one bracketed row at `pos`.  Whenever a row encoding sits at
/// `pos`, exactly that row is read.
fn parse_row(bytes: &Vec<u8>, pos: usize) -> (r: Option<(Vec<usize>, usize)>)
    requires
        pos <= bytes@.len(),
    ensures
        r matches Option::Some(p) ==> pos < p.1 <= bytes@.len(),
        forall|rw: Seq<usize>|
            #[trigger] row_at(bytes@, pos as int, rw) ==> (r is Some && r.unwrap().0@ == rw
                && r.unwrap().1 == pos + enc_row(rw).len()),
{
    if pos >= bytes.len() || bytes[pos] != 91 {
        proof {
            assert forall|rw: Seq<usize>| #[trigger] row_at(bytes@, pos as int, rw) implies false by {
                assert(bytes@[pos as int] == bytes@.subrange(pos as int, pos + enc_row(rw).len())[0]);
            }
        }
        return Option::None;
    }
    let mut cur = pos + 1;
    let mut row: Vec<usize> = Vec::new();
    if cur < bytes.len() && bytes[cur] == 93 {
        proof {
            assert forall|rw: Seq<usize>| #[trigger] row_at(bytes@, pos as int, rw) implies rw
                == Seq::<usize>::empty() && pos + enc_row(rw).len() == cur + 1 by {
                let sub = bytes@.subrange(pos as int, pos + enc_row(rw).len());
                if rw.len() > 0 {
                    lemma_enc_num_digits(rw[0] as nat);
                    assert(enc_row(rw)[1] == enc_row_body(rw)[0]);
                    assert(enc_row_body(rw)[0] == enc_num(rw[0] as nat)[0]) by {
                        if rw.len() > 1 {
                            assert(enc_row_body(rw) == enc_num(rw[0] as nat) + seq![44u8]
                                + enc_row_body(rw.drop_first()));
                        }
                    }
                    assert(bytes@[cur as int] == sub[1]);
                    assert(false);
                }
                assert(rw =~= Seq::<usize>::empty());
                assert(enc_row(rw).len() == 2);
            }
        }
        return Option::Some((row, cur + 1));
    }
    proof {
        assert forall|rw: Seq<usize>| #[trigger] row_at(bytes@, pos as int, rw) implies rw.len() > 0
            && row_items_at(bytes@, cur as int, pos + enc_row(rw).len(), rw.skip(0)) by {
            let endp = pos + enc_row(rw).len();
            let sub = bytes@.subrange(pos as int, endp);
            if rw.len() == 0 {
                assert(enc_row(rw).len() == 2);
                assert(bytes@[cur as int] == sub[1]);
                assert(sub[1] == 93);
                assert(cur < bytes@.len());
                assert(false);
            }
            assert(enc_row(rw) =~= seq![91u8] + (enc_row_body(rw) + seq![93u8]));
            lemma_subrange_split(
                bytes@,
                pos as int,
                endp,
                seq![91u8],
                enc_row_body(rw) + seq![93u8],
            );
            assert(rw.skip(0) =~= rw);
        }
    }
    loop
        invariant
            pos < cur <= bytes@.len(),
            bytes@.len() <= usize::MAX,
            forall|rw: Seq<usize>|
                #[trigger] row_at(bytes@, pos as int, rw) ==> (row@.len() < rw.len() && row@
                    == rw.take(row@.len() as int) && row_items_at(
                    bytes@,
                    cur as int,
                    pos + enc_row(rw).len(),
                    rw.skip(row@.len() as int),
                )),
        decreases bytes@.len() - cur,
    {
        let ghost k = row@.len() as int;
        let ghost cur0 = cur as int;
        proof {
            assert forall|rw: Seq<usize>| #[trigger] row_at(bytes@, pos as int, rw) implies num_at(
                bytes@,
                cur as int,
                rw[k] as nat,
            ) by {
                lemma_row_items_head(bytes@, cur as int, pos + enc_row(rw).len(), rw.skip(k));
                assert(rw.skip(k)[0] == rw[k]);
            }
        }
        let parsed = parse_num(bytes, cur);
        proof {
            assert forall|rw: Seq<usize>| #[trigger] row_at(bytes@, pos as int, rw) implies parsed
                == Option::Some(
                (rw[k], (cur0 + enc_num(rw[k] as nat).len()) as usize),
            ) by {
                assert(num_at(bytes@, cur0, rw[k] as nat));
                assert((rw[k] as nat) <= usize::MAX);
            }
        }
        match parsed {
            Option::Some((v, next)) => {
                row.push(v);
                cur = next;
                proof {
                    assert forall|rw: Seq<usize>|
                        #[trigger] row_at(bytes@, pos as int, rw) implies row@ == rw.take(k + 1)
                        && cur == cur0 + enc_num(rw[k] as nat).len() by {
                        assert(num_at(bytes@, cur0, rw[k] as nat));
                        assert(cur0 + enc_num(rw[k] as nat).len() <= bytes@.len());
                        assert(v == rw[k]);
                        assert(rw.take(k).push(rw[k]) =~= rw.take(k + 1));
                    }
                }
            },
            Option::None => {
                proof {
                    assert forall|rw: Seq<usize>|
                        #[trigger] row_at(bytes@, pos as int, rw) implies false by {}
                }
                return Option::None;
            },
        }
        if cur < bytes.len() && bytes[cur] == 44 {
            proof {
                assert forall|rw: Seq<usize>|
                    #[trigger] row_at(bytes@, pos as int, rw) implies (row@.len() < rw.len()
                    && row_items_at(
                    bytes@,
                    cur + 1,
                    pos + enc_row(rw).len(),
                    rw.skip(k + 1),
                )) by {
                    lemma_row_items_head(bytes@, cur0, pos + enc_row(rw).len(), rw.skip(k));
                    assert(rw.skip(k)[0] == rw[k]);
                    if k + 1 == rw.len() {
                        assert(bytes@[cur as int] == 93);
                        assert(false);
                    }
                    assert(rw.skip(k).drop_first() =~= rw.skip(k + 1));
                }
            }
            cur = cur + 1;
        } else if cur < bytes.len() && bytes[cur] == 93 {
            proof {
                assert forall|rw: Seq<usize>| #[trigger] row_at(bytes@, pos as int, rw) implies (
                row@ == rw && cur + 1 == pos + enc_row(rw).len()) by {
                    lemma_row_items_head(bytes@, cur0, pos + enc_row(rw).len(), rw.skip(k));
                    assert(rw.skip(k)[0] == rw[k]);
                    if k + 1 < rw.len() {
                        assert(bytes@[cur as int] == 44);
                        assert(false);
                    }
                    assert(rw.take(k + 1) =~= rw);
                }
            }
            return Option::Some((row, cur + 1));
        } else {
            proof {
                assert forall|rw: Seq<usize>|
                    #[trigger] row_at(bytes@, pos as int, rw) implies false by {
                    lemma_row_items_head(bytes@, cur0, pos + enc_row(rw).len(), rw.skip(k));
                    assert(rw.skip(k)[0] == rw[k]);
                    if k + 1 < rw.len() {
                        assert(bytes@[cur as int] == 44);
                        assert(cur < bytes@.len());
                    } else {
                        assert(bytes@[cur as int] == 93);
                        assert(cur < bytes@.len());
                    }
                }
            }
            return Option::None;
        }
    }
}

/// A table encoding sits at `pos`.
pub open spec fn table_at(bytes: Seq<u8>, pos: int, t: Seq<Seq<usize>>) -> bool {
    &&& 0 <= pos
    &&& pos + enc_table(t).len() <= bytes.len()
    &&& bytes.subrange(pos, pos + enc_table(t).len()) == enc_table(t)
}

/// Comma-separated rows and the closing bracket fill [p, endp).
pub open spec fn table_rows_at(bytes: Seq<u8>, p: int, endp: int, rows: Seq<Seq<usize>>) -> bool {
    &&& 0 <= p <= endp <= bytes.len()
    &&& bytes.subrange(p, endp) == enc_table_body(rows) + seq![93u8]
}

/// The head of a run of rows: its encoding sits first, a comma or the
/// closing bracket after it, behind which the remaining rows follow.
proof fn lemma_table_rows_head(bytes: Seq<u8>, p: int, endp: int, rows: Seq<Seq<usize>>)
    requires
        table_rows_at(bytes, p, endp, rows),
        rows.len() > 0,
    ensures
        row_at(bytes, p, rows[0]),
        rows.len() == 1 ==> p + enc_row(rows[0]).len() + 1 == endp && bytes[p + enc_row(
            rows[0],
        ).len()] == 93,
        rows.len() > 1 ==> bytes[p + enc_row(rows[0]).len()] == 44 && table_rows_at(
            bytes,
            p + enc_row(rows[0]).len() + 1,
            endp,
            rows.drop_first(),
        ),
{
    let e = enc_row(rows[0]);
    if rows.len() == 1 {
        assert(enc_table_body(rows) + seq![93u8] =~= e + seq![93u8]);
        lemma_subrange_split(bytes, p, endp, e, seq![93u8]);
        assert(bytes[p + e.len()] == bytes.subrange(p + e.len(), endp)[0]);
    } else {
        let rest = seq![44u8] + enc_table_body(rows.drop_first()) + seq![93u8];
        assert(enc_table_body(rows) + seq![93u8] =~= e + rest) by {
            assert(enc_table_body(rows) == e + seq![44u8] + enc_table_body(rows.drop_first()));
        }
        lemma_subrange_split(bytes, p, endp, e, rest);
        assert(bytes[p + e.len()] == rest[0]) by {
            assert(rest[0] == bytes.subrange(p + e.len(), endp)[0]);
        }
        assert(rest =~= seq![44u8] + (enc_table_body(rows.drop_first()) + seq![93u8]));
        lemma_subrange_split(
            bytes,
            p + e.len(),
            endp,
            seq![44u8],
            enc_table_body(rows.drop_first()) + seq![93u8],
        );
    }
}

/// Reads one bracketed table at `pos`.  Whenever a table encoding sits at
/// `pos`, exactly that table is read.
fn parse_table(bytes: &Vec<u8>, pos: usize) -> (r: Option<(Vec<Vec<usize>>, usize)>)
    requires
        pos <= bytes@.len(),
    ensures
        r matches Option::Some(p) ==> pos < p.1 <= bytes@.len(),
        forall|t: Seq<Seq<usize>>|
            #[trigger] table_at(bytes@, pos as int, t) ==> (r is Some
                && crate::latin_square::grid_of(r.unwrap().0@) == t && r.unwrap().1 == pos
                + enc_table(t).len()),
{
    if pos >= bytes.len() || bytes[pos] != 91 {
        proof {
            assert forall|t: Seq<Seq<usize>>|
                #[trigger] table_at(bytes@, pos as int, t) implies false by {
                assert(bytes@[pos as int] == bytes@.subrange(
                    pos as int,
                    pos + enc_table(t).len(),
                )[0]);
            }
        }
        return Option::None;
    }
    let mut cur = pos + 1;
    let mut table: Vec<Vec<usize>> = Vec::new();
    if cur < bytes.len() && bytes[cur] == 93 {
        proof {
            assert forall|t: Seq<Seq<usize>>| #[trigger] table_at(bytes@, pos as int, t) implies t
                == Seq::<Seq<usize>>::empty() && pos + enc_table(t).len() == cur + 1
                && crate::latin_square::grid_of(table@) == t by {
                let sub = bytes@.subrange(pos as int, pos + enc_table(t).len());
                if t.len() > 0 {
                    assert(enc_table(t)[1] == enc_table_body(t)[0]);
                    assert(enc_table_body(t)[0] == enc_row(t[0])[0]) by {
                        if t.len() > 1 {
                            assert(enc_table_body(t) == enc_row(t[0]) + seq![44u8]
                                + enc_table_body(t.drop_first()));
                        }
                    }
                    assert(enc_row(t[0])[0] == 91);
                    assert(bytes@[cur as int] == sub[1]);
                    assert(false);
                }
                assert(t =~= Seq::<Seq<usize>>::empty());
                assert(enc_table(t).len() == 2);
                assert(crate::latin_square::grid_of(table@) =~= t);
            }
        }
        return Option::Some((table, cur + 1));
    }
    proof {
        assert forall|t: Seq<Seq<usize>>| #[trigger] table_at(bytes@, pos as int, t) implies t.len()
            > 0 && table_rows_at(bytes@, cur as int, pos + enc_table(t).len(), t.skip(0)) by {
            let endp = pos + enc_table(t).len();
            let sub = bytes@.subrange(pos as int, endp);
            if t.len() == 0 {
                assert(enc_table(t).len() == 2);
                assert(bytes@[cur as int] == sub[1]);
                assert(sub[1] == 93);
                assert(cur < bytes@.len());
                assert(false);
            }
            assert(enc_table(t) =~= seq![91u8] + (enc_table_body(t) + seq![93u8]));
            lemma_subrange_split(
                bytes@,
                pos as int,
                endp,
                seq![91u8],
                enc_table_body(t) + seq![93u8],
            );
            assert(t.skip(0) =~= t);
        }
    }
    loop
        invariant
            pos < cur <= bytes@.len(),
            bytes@.len() <= usize::MAX,
            forall|t: Seq<Seq<usize>>|
                #[trigger] table_at(bytes@, pos as int, t) ==> (table@.len() < t.len() && (forall|
                    j: int,
                |
                    0 <= j < table@.len() ==> (#[trigger] table@[j])@ == t[j]) && table_rows_at(
                    bytes@,
                    cur as int,
                    pos + enc_table(t).len(),
                    t.skip(table@.len() as int),
                )),
        decreases bytes@.len() - cur,
    {
        let ghost k = table@.len() as int;
        let ghost cur0 = cur as int;
        proof {
            assert forall|t: Seq<Seq<usize>>|
                #[trigger] table_at(bytes@, pos as int, t) implies row_at(
                bytes@,
                cur as int,
                t[k],
            ) by {
                lemma_table_rows_head(bytes@, cur as int, pos + enc_table(t).len(), t.skip(k));
                assert(t.skip(k)[0] == t[k]);
            }
        }
        let parsed = parse_row(bytes, cur);
        proof {
            assert forall|t: Seq<Seq<usize>>|
                #[trigger] table_at(bytes@, pos as int, t) implies parsed is Some
                && parsed.unwrap().0@ == t[k] && parsed.unwrap().1 == cur0 + enc_row(t[k]).len() by {
                assert(row_at(bytes@, cur0, t[k]));
            }
        }
        match parsed {
            Option::Some((row, next)) => {
                table.push(row);
                cur = next;
                proof {
                    assert forall|t: Seq<Seq<usize>>|
                        #[trigger] table_at(bytes@, pos as int, t) implies (forall|j: int|
                        0 <= j < k + 1 ==> (#[trigger] table@[j])@ == t[j]) && cur == cur0
                        + enc_row(t[k]).len() by {
                        assert(table@[k as int]@ == t[k]);
                        assert(forall|j: int| 0 <= j < k ==> (#[trigger] table@[j])@ == t[j]);
                    }
                }
            },
            Option::None => {
                proof {
                    assert forall|t: Seq<Seq<usize>>|
                        #[trigger] table_at(bytes@, pos as int, t) implies false by {}
                }
                return Option::None;
            },
        }
        if cur < bytes.len() && bytes[cur] == 44 {
            proof {
                assert forall|t: Seq<Seq<usize>>|
                    #[trigger] table_at(bytes@, pos as int, t) implies (table@.len() < t.len()
                    && table_rows_at(
                    bytes@,
                    cur + 1,
                    pos + enc_table(t).len(),
                    t.skip(k + 1),
                )) by {
                    lemma_table_rows_head(bytes@, cur0, pos + enc_table(t).len(), t.skip(k));
                    assert(t.skip(k)[0] == t[k]);
                    if k + 1 == t.len() {
                        assert(bytes@[cur as int] == 93);
                        assert(false);
                    }
                    assert(t.skip(k).drop_first() =~= t.skip(k + 1));
                }
            }
            cur = cur + 1;
        } else if cur < bytes.len() && bytes[cur] == 93 {
            proof {
                assert forall|t: Seq<Seq<usize>>|
                    #[trigger] table_at(bytes@, pos as int, t) implies (crate::latin_square::grid_of(
                    table@,
                ) == t && cur + 1 == pos + enc_table(t).len()) by {
                    lemma_table_rows_head(bytes@, cur0, pos + enc_table(t).len(), t.skip(k));
                    assert(t.skip(k)[0] == t[k]);
                    if k + 1 < t.len() {
                        assert(bytes@[cur as int] == 44);
                        assert(false);
                    }
                    assert(crate::latin_square::grid_of(table@) =~= t);
                }
            }
            return Option::Some((table, cur + 1));
        } else {
            proof {
                assert forall|t: Seq<Seq<usize>>|
                    #[trigger] table_at(bytes@, pos as int, t) implies false by {
                    lemma_table_rows_head(bytes@, cur0, pos + enc_table(t).len(), t.skip(k));
                    assert(t.skip(k)[0] == t[k]);
                    if k + 1 < t.len() {
                        assert(bytes@[cur as int] == 44);
                        assert(cur < bytes@.len());
                    } else {
                        assert(bytes@[cur as int] == 93);
                        assert(cur < bytes@.len());
                    }
                }
            }
            return Option::None;
        }
    }
}

/// Comma-separated tables and the closing bracket fill [p, endp).
pub open spec fn tables_items_at(
    bytes: Seq<u8>,
    p: int,
    endp: int,
    items: Seq<Seq<Seq<usize>>>,
) -> bool {
    &&& 0 <= p <= endp <= bytes.len()
    &&& bytes.subrange(p, endp) == enc_tables_body(items) + seq![93u8]
}

/// The head of a run of tables: its encoding sits first, a comma or the
/// closing bracket after it, behind which the remaining tables follow.
proof fn lemma_tables_items_head(bytes: Seq<u8>, p: int, endp: int, items: Seq<Seq<Seq<usize>>>)
    requires
        tables_items_at(bytes, p, endp, items),
        items.len() > 0,
    ensures
        table_at(bytes, p, items[0]),
        items.len() == 1 ==> p + enc_table(items[0]).len() + 1 == endp && bytes[p + enc_table(
            items[0],
        ).len()] == 93,
        items.len() > 1 ==> bytes[p + enc_table(items[0]).len()] == 44 && tables_items_at(
            bytes,
            p + enc_table(items[0]).len() + 1,
            endp,
            items.drop_first(),
        ),
{
    let e = enc_table(items[0]);
    if items.len() == 1 {
        assert(enc_tables_body(items) + seq![93u8] =~= e + seq![93u8]);
        lemma_subrange_split(bytes, p, endp, e, seq![93u8]);
        assert(bytes[p + e.len()] == bytes.subrange(p + e.len(), endp)[0]);
    } else {
        let rest = seq![44u8] + enc_tables_body(items.drop_first()) + seq![93u8];
        assert(enc_tables_body(items) + seq![93u8] =~= e + rest) by {
            assert(enc_tables_body(items) == e + seq![44u8] + enc_tables_body(items.drop_first()));
        }
        lemma_subrange_split(bytes, p, endp, e, rest);
        assert(bytes[p + e.len()] == rest[0]) by {
            assert(rest[0] == bytes.subrange(p + e.len(), endp)[0]);
        }
        assert(rest =~= seq![44u8] + (enc_tables_body(items.drop_first()) + seq![93u8]));
        lemma_subrange_split(
            bytes,
            p + e.len(),
            endp,
            seq![44u8],
            enc_tables_body(items.drop_first()) + seq![93u8],
        );
    }
}

/// Reloads a serialized list of tables.  Whatever comes back Some is
/// exactly the value whose serialization the input was — the parse is
/// checked by re-serializing it — and every serialization is reloaded to
/// the value it was made from.
pub fn decode_tables(bytes: &Vec<u8>) -> (r: Option<Vec<Vec<Vec<usize>>>>)
    ensures
        r matches Option::Some(ts) ==> bytes@ == enc_tables(tables_value(ts@)),
        forall|ts: Seq<Seq<Seq<usize>>>|
            bytes@ == #[trigger] enc_tables(ts) ==> (r is Some && tables_value(r.unwrap()@) == ts),
{
    let blen = bytes.len();
    proof {
        assert forall|ts: Seq<Seq<Seq<usize>>>|
            bytes@ == #[trigger] enc_tables(ts) implies bytes@.len() >= 2 && bytes@[0] == 91
            && bytes@[bytes@.len() - 1] == 93 by {}
    }
    if bytes.len() == 0 || bytes[0] != 91 {
        return Option::None;
    }
    let mut cur: usize = 1;
    let mut tables: Vec<Vec<Vec<usize>>> = Vec::new();
    let mut done = false;
    if cur < bytes.len() && bytes[cur] == 93 {
        cur = cur + 1;
        done = true;
        proof {
            assert forall|ts: Seq<Seq<Seq<usize>>>|
                bytes@ == #[trigger] enc_tables(ts) implies ts == Seq::<Seq<Seq<usize>>>::empty()
                && cur == bytes@.len() by {
                if ts.len() > 0 {
                    assert(enc_tables(ts)[1] == enc_tables_body(ts)[0]);
                    assert(enc_tables_body(ts)[0] == enc_table(ts[0])[0]) by {
                        if ts.len() > 1 {
                            assert(enc_tables_body(ts) == enc_table(ts[0]) + seq![44u8]
                                + enc_tables_body(ts.drop_first()));
                        }
                    }
                    assert(enc_table(ts[0])[0] == 91);
                    assert(false);
                }
                assert(ts =~= Seq::<Seq<Seq<usize>>>::empty());
                assert(enc_tables(ts).len() == 2);
            }
        }
    } else {
        proof {
            assert forall|ts: Seq<Seq<Seq<usize>>>|
                bytes@ == #[trigger] enc_tables(ts) implies ts.len() > 0 && tables_items_at(
                bytes@,
                1,
                bytes@.len() as int,
                ts.skip(0),
            ) by {
                if ts.len() == 0 {
                    assert(enc_tables(ts).len() == 2);
                    assert(bytes@[1] == 93);
                    assert(false);
                }
                assert(enc_tables(ts) =~= seq![91u8] + (enc_tables_body(ts) + seq![93u8]));
                assert(bytes@.subrange(0, bytes@.len() as int) =~= bytes@);
                lemma_subrange_split(
                    bytes@,
                    0,
                    bytes@.len() as int,
                    seq![91u8],
                    enc_tables_body(ts) + seq![93u8],
                );
                assert(ts.skip(0) =~= ts);
            }
        }
    }
    while !done
        invariant
            0 < cur <= bytes@.len(),
            bytes@.len() == blen,
            forall|ts: Seq<Seq<Seq<usize>>>|
                bytes@ == #[trigger] enc_tables(ts) && !done ==> (tables@.len() < ts.len() && (
                forall|j: int|
                    0 <= j < tables@.len() ==> crate::latin_square::grid_of(
                        (#[trigger] tables@[j])@,
                    ) == ts[j]) && tables_items_at(
                    bytes@,
                    cur as int,
                    bytes@.len() as int,
                    ts.skip(tables@.len() as int),
                )),
            forall|ts: Seq<Seq<Seq<usize>>>|
                bytes@ == #[trigger] enc_tables(ts) && done ==> (tables@.len() == ts.len() && (
                forall|j: int|
                    0 <= j < tables@.len() ==> crate::latin_square::grid_of(
                        (#[trigger] tables@[j])@,
                    ) == ts[j]) && cur == bytes@.len()),
        decreases bytes@.len() + 1 - cur + (if done {
            0int
        } else {
            1int
        }),
    {
        let ghost k = tables@.len() as int;
        let ghost cur0 = cur as int;
        proof {
            assert forall|ts: Seq<Seq<Seq<usize>>>|
                bytes@ == #[trigger] enc_tables(ts) implies table_at(bytes@, cur as int, ts[k]) by {
                lemma_tables_items_head(bytes@, cur as int, bytes@.len() as int, ts.skip(k));
                assert(ts.skip(k)[0] == ts[k]);
            }
        }
        let parsed = parse_table(bytes, cur);
        proof {
            assert forall|ts: Seq<Seq<Seq<usize>>>|
                bytes@ == #[trigger] enc_tables(ts) implies parsed is Some
                && crate::latin_square::grid_of(parsed.unwrap().0@) == ts[k] && parsed.unwrap().1
                == cur0 + enc_table(ts[k]).len() by {
                assert(table_at(bytes@, cur0, ts[k]));
            }
        }
        match parsed {
            Option::Some((t, next)) => {
                tables.push(t);
                cur = next;
                proof {
                    assert forall|ts: Seq<Seq<Seq<usize>>>|
                        bytes@ == #[trigger] enc_tables(ts) implies (forall|j: int|
                        0 <= j < k + 1 ==> crate::latin_square::grid_of((#[trigger] tables@[j])@)
                            == ts[j]) && cur == cur0 + enc_table(ts[k]).len() by {
                        assert(crate::latin_square::grid_of(tables@[k as int]@) == ts[k]);
                        assert(forall|j: int|
                            0 <= j < k ==> crate::latin_square::grid_of((#[trigger] tables@[j])@)
                                == ts[j]);
                    }
                }
            },
            Option::None => {
                proof {
                    assert forall|ts: Seq<Seq<Seq<usize>>>|
                        bytes@ == #[trigger] enc_tables(ts) implies false by {}
                }
                return Option::None;
            },
        }
        if cur < bytes.len() && bytes[cur] == 44 {
            proof {
                assert forall|ts: Seq<Seq<Seq<usize>>>|
                    bytes@ == #[trigger] enc_tables(ts) implies (tables@.len() < ts.len()
                    && tables_items_at(bytes@, cur + 1, bytes@.len() as int, ts.skip(k + 1))) by {
                    lemma_tables_items_head(bytes@, cur0, bytes@.len() as int, ts.skip(k));
                    assert(ts.skip(k)[0] == ts[k]);
                    if k + 1 == ts.len() {
                        assert(bytes@[cur as int] == 93);
                        assert(false);
                    }
                    assert(ts.skip(k).drop_first() =~= ts.skip(k + 1));
                }
            }
            cur = cur + 1;
        } else if cur < bytes.len() && bytes[cur] == 93 {
            cur = cur + 1;
            done = true;
            proof {
                assert forall|ts: Seq<Seq<Seq<usize>>>|
                    bytes@ == #[trigger] enc_tables(ts) implies (tables@.len() == ts.len() && cur
                    == bytes@.len()) by {
                    lemma_tables_items_head(bytes@, cur0, bytes@.len() as int, ts.skip(k));
                    assert(ts.skip(k)[0] == ts[k]);
                    if k + 1 < ts.len() {
                        assert(bytes@[cur - 1] == 44);
                        assert(false);
                    }
                }
            }
        } else {
            proof {
                assert forall|ts: Seq<Seq<Seq<usize>>>|
                    bytes@ == #[trigger] enc_tables(ts) implies false by {
                    lemma_tables_items_head(bytes@, cur0, bytes@.len() as int, ts.skip(k));
                    assert(ts.skip(k)[0] == ts[k]);
                    if k + 1 < ts.len() {
                        assert(bytes@[cur as int] == 44);
                        assert(cur < bytes@.len());
                    } else {
                        assert(bytes@[cur as int] == 93);
                        assert(cur < bytes@.len());
                    }
                }
            }
            return Option::None;
        }
    }
    if cur != bytes.len() {
        proof {
            assert forall|ts: Seq<Seq<Seq<usize>>>|
                bytes@ == #[trigger] enc_tables(ts) implies false by {}
        }
        return Option::None;
    }
    // Check the parse against the canonical serialization.
    let again = encode_tables(&tables);
    proof {
        assert forall|ts: Seq<Seq<Seq<usize>>>|
            bytes@ == #[trigger] enc_tables(ts) implies again@ == bytes@ by {
            assert(tables_value(tables@) =~= ts);
        }
    }
    let mut k: usize = 0;
    if again.len() != bytes.len() {
        proof {
            assert forall|ts: Seq<Seq<Seq<usize>>>|
                bytes@ == #[trigger] enc_tables(ts) implies false by {}
        }
        return Option::None;
    }
    while k < again.len()
        invariant
            k <= again@.len(),
            again@.len() == bytes@.len(),
            again@ == enc_tables(tables_value(tables@)),
            forall|q: int| 0 <= q < k ==> again@[q] == bytes@[q],
            forall|ts: Seq<Seq<Seq<usize>>>|
                bytes@ == #[trigger] enc_tables(ts) ==> again@ == bytes@ && tables_value(tables@)
                    == ts,
        decreases again@.len() - k,
    {
        if again[k] != bytes[k] {
            proof {
                assert forall|ts: Seq<Seq<Seq<usize>>>|
                    bytes@ == #[trigger] enc_tables(ts) implies false by {}
            }
            return Option::None;
        }
        k = k + 1;
    }
    proof {
        assert(again@ =~= bytes@);
    }
    Option::Some(tables)
}

} // verus!
