//! Writing a model back out, with the round-trip law.
//!
//! `save` renders a model in the same line-oriented text format that the
//! loader reads: one line of labels, one line of intercepts, one line per
//! coefficient row, each token followed by a space and each line by a
//! newline.  Its contract is the round-trip law itself: loading the bytes
//! `save` produces succeeds and returns exactly the saved model's labels,
//! coefficient bits and intercept bits — so the reloaded model yields the
//! same logits, probabilities and predicted label for every feature
//! vector, all of which are functions of those bits.

use vstd::prelude::*;
use crate::model::{finite_row, Model};
use crate::num::{finite_bits, num_render, parse_bits};
use crate::store::{
    distinct_tokens, load_spec, parsed_row, parsed_table, row_table, table_parses,
};
use crate::text::{
    good_row, lemma_line_len_is, lemma_run_len_is, row_matches, token_byte, tokens_of,
    well_formed_token, NEWLINE, SPACE,
};

verus! {

/// The byte strings of a vector of byte vectors.
pub open spec fn row_view(v: Seq<Vec<u8>>) -> Seq<Seq<u8>> {
    Seq::new(v.len(), |i: int| v[i]@)
}

/// A row of tokens as line bytes: each token followed by one space.
pub open spec fn line_body(ts: Seq<Seq<u8>>) -> Seq<u8>
    decreases ts.len(),
{
    if ts.len() == 0 {
        Seq::empty()
    } else {
        ts[0] + seq![SPACE] + line_body(ts.skip(1))
    }
}

/// A table of token rows as bytes: each row's line followed by a newline.
pub open spec fn table_bytes(rows: Seq<Seq<Seq<u8>>>) -> Seq<u8>
    decreases rows.len(),
{
    if rows.len() == 0 {
        Seq::empty()
    } else {
        line_body(rows[0]) + seq![NEWLINE] + table_bytes(rows.skip(1))
    }
}

proof fn lemma_line_body_snoc(ts: Seq<Seq<u8>>, t: Seq<u8>)
    ensures
        line_body(ts.push(t)) == line_body(ts) + t + seq![SPACE],
    decreases ts.len(),
{
    if ts.len() == 0 {
        assert(ts.push(t).skip(1) =~= Seq::<Seq<u8>>::empty());
        assert(line_body(ts.push(t)) == ts.push(t)[0] + seq![SPACE] + line_body(
            ts.push(t).skip(1),
        ));
        assert(ts.push(t)[0] == t);
        assert(line_body(ts.push(t)) =~= t + seq![SPACE]);
        assert(line_body(ts) + t + seq![SPACE] =~= t + seq![SPACE]);
    } else {
        lemma_line_body_snoc(ts.skip(1), t);
        assert(ts.push(t).skip(1) =~= ts.skip(1).push(t));
        assert(ts.push(t)[0] == ts[0]);
        assert(line_body(ts.push(t)) =~= line_body(ts) + t + seq![SPACE]);
    }
}

proof fn lemma_table_bytes_snoc(rows: Seq<Seq<Seq<u8>>>, r: Seq<Seq<u8>>)
    ensures
        table_bytes(rows.push(r)) == table_bytes(rows) + line_body(r) + seq![NEWLINE],
    decreases rows.len(),
{
    if rows.len() == 0 {
        assert(rows.push(r).skip(1) =~= Seq::<Seq<Seq<u8>>>::empty());
        assert(table_bytes(rows.push(r)) == line_body(rows.push(r)[0]) + seq![NEWLINE]
            + table_bytes(rows.push(r).skip(1)));
        assert(rows.push(r)[0] == r);
        assert(table_bytes(rows.push(r)) =~= line_body(r) + seq![NEWLINE]);
        assert(table_bytes(rows) + line_body(r) + seq![NEWLINE] =~= line_body(r)
            + seq![NEWLINE]);
    } else {
        lemma_table_bytes_snoc(rows.skip(1), r);
        assert(rows.push(r).skip(1) =~= rows.skip(1).push(r));
        assert(rows.push(r)[0] == rows[0]);
        assert(table_bytes(rows.push(r)) =~= table_bytes(rows) + line_body(r) + seq![NEWLINE]);
    }
}

/// Every byte of a line body is a space or a token byte, so none is a
/// newline.
proof fn lemma_line_body_bytes(ts: Seq<Seq<u8>>)
    requires
        forall|b: int| 0 <= b < ts.len() ==> well_formed_token(#[trigger] ts[b]),
    ensures
        forall|i: int|
            0 <= i < line_body(ts).len() ==> (line_body(ts)[i] == SPACE || token_byte(
                #[trigger] line_body(ts)[i],
            )),
    decreases ts.len(),
{
    if ts.len() == 0 {
    } else {
        lemma_line_body_bytes(ts.skip(1));
        let l = line_body(ts);
        let head = ts[0];
        assert forall|i: int| 0 <= i < l.len() implies (l[i] == SPACE || token_byte(
            #[trigger] l[i],
        )) by {
            if i < head.len() {
                assert(l[i] == head[i]);
                assert(well_formed_token(head));
            } else if i == head.len() {
                assert(l[i] == SPACE);
            } else {
                assert(l[i] == line_body(ts.skip(1))[i - head.len() - 1]);
            }
        }
    }
}

/// A well-formed token followed by a space starts its own token.
proof fn lemma_tokens_of_cons(t: Seq<u8>, tail: Seq<u8>)
    requires
        well_formed_token(t),
    ensures
        tokens_of(t + seq![SPACE] + tail) == Seq::empty().push(t) + tokens_of(tail),
{
    let s = t + seq![SPACE] + tail;
    assert(s[0] == t[0]);
    assert forall|i: int| 0 <= i < t.len() implies token_byte(s[i]) by {
        assert(s[i] == t[i]);
    }
    assert(s[t.len() as int] == SPACE);
    lemma_run_len_is(s, t.len() as int);
    assert(s.take(t.len() as int) =~= t);
    assert(s.skip(t.len() as int) =~= seq![SPACE] + tail);
    assert(tokens_of(s) == Seq::empty().push(t) + tokens_of(seq![SPACE] + tail));
    assert((seq![SPACE] + tail).skip(1) =~= tail);
    assert(tokens_of(seq![SPACE] + tail) == tokens_of(tail));
}

/// Tokenizing a rendered line recovers its tokens.
proof fn lemma_tokens_of_line_body(ts: Seq<Seq<u8>>)
    requires
        forall|b: int| 0 <= b < ts.len() ==> well_formed_token(#[trigger] ts[b]),
    ensures
        tokens_of(line_body(ts)) == ts,
    decreases ts.len(),
{
    if ts.len() == 0 {
        assert(tokens_of(line_body(ts)) =~= ts);
    } else {
        lemma_tokens_of_line_body(ts.skip(1));
        lemma_tokens_of_cons(ts[0], line_body(ts.skip(1)));
        assert(Seq::empty().push(ts[0]) + ts.skip(1) =~= ts);
    }
}

/// Splitting a rendered table recovers its rows.
proof fn lemma_row_table_of_table_bytes(rows: Seq<Seq<Seq<u8>>>)
    requires
        forall|a: int| 0 <= a < rows.len() ==> good_row(#[trigger] rows[a]),
    ensures
        row_table(table_bytes(rows)) == rows,
    decreases rows.len(),
{
    if rows.len() == 0 {
        assert(row_table(table_bytes(rows)) =~= rows);
    } else {
        let r0 = rows[0];
        let lb = line_body(r0);
        let s = table_bytes(rows);
        lemma_line_body_bytes(r0);
        lemma_tokens_of_line_body(r0);
        lemma_row_table_of_table_bytes(rows.skip(1));
        assert(s.len() > 0);
        assert forall|i: int| 0 <= i < lb.len() implies s[i] != NEWLINE by {
            assert(s[i] == lb[i]);
            assert(lb[i] == SPACE || token_byte(lb[i]));
        }
        assert(s[lb.len() as int] == NEWLINE);
        lemma_line_len_is(s, lb.len() as int);
        assert(s.take(lb.len() as int) =~= lb);
        assert(s.skip(lb.len() as int + 1) =~= table_bytes(rows.skip(1)));
        assert(r0.len() >= 1);
        assert(row_table(s) == Seq::empty().push(tokens_of(lb)) + row_table(
            table_bytes(rows.skip(1)),
        ));
        assert(Seq::empty().push(r0) + rows.skip(1) =~= rows);
    }
}

/// Renders every number of a row as a decimal token.
fn render_row(vals: &Vec<u64>) -> (r: Vec<Vec<u8>>)
    ensures
        r@.len() == vals@.len(),
        forall|i: int| 0 <= i < vals@.len() ==> well_formed_token((#[trigger] r@[i])@),
        forall|i: int|
            0 <= i < vals@.len() ==> (finite_bits(vals@[i]) ==> parse_bits((#[trigger] r@[i])@)
                == Some(vals@[i])),
{
    let mut r: Vec<Vec<u8>> = Vec::new();
    let mut i: usize = 0;
    while i < vals.len()
        invariant
            i <= vals@.len(),
            r@.len() == i,
            forall|q: int| 0 <= q < i ==> well_formed_token((#[trigger] r@[q])@),
            forall|q: int|
                0 <= q < i ==> (finite_bits(vals@[q]) ==> parse_bits((#[trigger] r@[q])@)
                    == Some(vals@[q])),
        decreases vals@.len() - i,
    {
        let tok = num_render(vals[i]);
        r.push(tok);
        i = i + 1;
    }
    r
}

/// Appends one line: each token followed by a space, then a newline.
#[verifier::loop_isolation(false)]
fn write_line(out: &mut Vec<u8>, ts: &Vec<Vec<u8>>)
    ensures
        final(out)@ == old(out)@ + line_body(row_view(ts@)) + seq![NEWLINE],
{
    let ghost base = out@;
    let mut i: usize = 0;
    proof {
        assert(row_view(ts@).take(0) =~= Seq::<Seq<u8>>::empty());
        assert(base + line_body(row_view(ts@).take(0)) =~= base);
    }
    while i < ts.len()
        invariant
            i <= ts@.len(),
            out@ == base + line_body(row_view(ts@).take(i as int)),
        decreases ts@.len() - i,
    {
        let tok = &ts[i];
        let ghost mid = out@;
        let mut j: usize = 0;
        while j < tok.len()
            invariant
                j <= tok@.len(),
                out@ == mid + tok@.take(j as int),
            decreases tok@.len() - j,
        {
            out.push(tok[j]);
            proof {
                assert(mid + tok@.take(j as int + 1) =~= (mid + tok@.take(j as int)).push(
                    tok@[j as int],
                ));
            }
            j = j + 1;
        }
        out.push(SPACE);
        proof {
            assert(tok@.take(tok@.len() as int) =~= tok@);
            lemma_line_body_snoc(row_view(ts@).take(i as int), tok@);
            assert(row_view(ts@).take(i as int).push(tok@) =~= row_view(ts@).take(i as int + 1));
            assert(out@ =~= base + line_body(row_view(ts@).take(i as int + 1)));
        }
        i = i + 1;
    }
    out.push(NEWLINE);
    proof {
        assert(row_view(ts@).take(ts@.len() as int) =~= row_view(ts@));
        assert(out@ =~= base + line_body(row_view(ts@)) + seq![NEWLINE]);
    }
}

/// Writes a model out as bytes.  The contract is the round-trip law:
/// loading the result succeeds and returns exactly this model's labels,
/// coefficient bits and intercept bits.
#[verifier::loop_isolation(false)]
pub fn save(model: &Model) -> (r: Vec<u8>)
    requires
        model.wf(),
    ensures
        load_spec(r@) is Ok,
        row_matches(model.labels@, load_spec(r@)->Ok_0.0),
        crate::store::values_match(model.coefficients@, load_spec(r@)->Ok_0.1),
        model.intercept@ == load_spec(r@)->Ok_0.2,
{
    let mut out: Vec<u8> = Vec::new();
    let ghost mut rows: Seq<Seq<Seq<u8>>> = Seq::empty();
    proof {
        assert(out@ =~= table_bytes(rows));
    }
    // labels line
    write_line(&mut out, &model.labels);
    proof {
        lemma_table_bytes_snoc(rows, row_view(model.labels@));
        rows = rows.push(row_view(model.labels@));
        assert(out@ =~= table_bytes(rows));
        assert(good_row(rows[0]));
    }
    // intercept line
    let icept_toks = render_row(&model.intercept);
    write_line(&mut out, &icept_toks);
    proof {
        lemma_table_bytes_snoc(rows, row_view(icept_toks@));
        rows = rows.push(row_view(icept_toks@));
        assert(out@ =~= table_bytes(rows));
        assert forall|q: int| 0 <= q < rows[1].len() implies parse_bits(#[trigger] rows[1][q])
            == Some(model.intercept@[q]) by {
            assert(rows[1][q] == icept_toks@[q]@);
            assert(finite_bits(model.intercept@[q]));
        }
        assert forall|b: int| 0 <= b < rows[1].len() implies well_formed_token(
            #[trigger] rows[1][b],
        ) by {
            assert(rows[1][b] == icept_toks@[b]@);
        }
        assert(good_row(rows[1]));
        assert(parsed_row(rows[1]) =~= model.intercept@);
    }
    // coefficient rows
    let mut c: usize = 0;
    while c < model.coefficients.len()
        invariant
            c <= model.k(),
            rows.len() == c + 2,
            out@ == table_bytes(rows),
            rows[0] == row_view(model.labels@),
            rows[1] == row_view(icept_toks@),
            good_row(rows[0]),
            good_row(rows[1]),
            parsed_row(rows[1]) == model.intercept@,
            forall|q: int| 0 <= q < rows[1].len() ==> parse_bits(#[trigger] rows[1][q]) is Some,
            forall|a: int| 0 <= a < c ==> good_row(#[trigger] rows[a + 2]),
            forall|a: int|
                0 <= a < c ==> #[trigger] parsed_row(rows[a + 2]) == model.coefficients@[a]@,
            forall|a: int| 0 <= a < c ==> (#[trigger] rows[a + 2]).len() == model.d(),
            forall|a: int, q: int|
                0 <= a < c && 0 <= q < rows[a + 2].len() ==> parse_bits(
                    #[trigger] rows[a + 2][q],
                ) is Some,
        decreases model.k() - c,
    {
        let row_toks = render_row(&model.coefficients[c]);
        write_line(&mut out, &row_toks);
        proof {
            lemma_table_bytes_snoc(rows, row_view(row_toks@));
            rows = rows.push(row_view(row_toks@));
            assert(out@ =~= table_bytes(rows));
            assert(finite_row(model.coefficients@[c as int]@));
            assert forall|q: int| 0 <= q < rows[c + 2].len() implies parse_bits(
                #[trigger] rows[c + 2][q],
            ) == Some(model.coefficients@[c as int]@[q]) by {
                assert(rows[c + 2][q] == row_toks@[q]@);
                assert(finite_bits(model.coefficients@[c as int]@[q]));
            }
            assert forall|b: int| 0 <= b < rows[c + 2].len() implies well_formed_token(
                #[trigger] rows[c + 2][b],
            ) by {
                assert(rows[c + 2][b] == row_toks@[b]@);
            }
            assert(good_row(rows[c + 2]));
            assert(parsed_row(rows[c + 2]) =~= model.coefficients@[c as int]@);
        }
        c = c + 1;
    }
    proof {
        assert forall|a: int| 0 <= a < rows.len() implies good_row(#[trigger] rows[a]) by {
            if a >= 2 {
                assert(good_row(rows[(a - 2) + 2]));
            }
        }
        lemma_row_table_of_table_bytes(rows);
        let t = row_table(out@);
        assert(t == rows);
        let body = t.skip(2);
        assert forall|x: int, y: int| 0 <= x < y < t[0].len() implies t[0][x] != t[0][y] by {
            assert(t[0][x] == model.labels@[x]@);
            assert(t[0][y] == model.labels@[y]@);
        }
        assert(distinct_tokens(t[0]));
        assert(t[1].len() == model.k());
        assert(body.len() == model.k());
        assert forall|i: int| 0 <= i < body.len() implies (#[trigger] body[i]).len()
            == body[0].len() by {
            assert(body[i] == rows[i + 2]);
            assert(body[0] == rows[2]);
        }
        assert forall|i: int| 0 <= i < t[1].len() implies parse_bits(#[trigger] t[1][i]) is Some
            by {
            assert(t[1][i] == row_view(icept_toks@)[i]);
            assert(finite_bits(model.intercept@[i]));
        }
        assert forall|i: int| 0 <= i < body.len() implies crate::store::row_parses(
            #[trigger] body[i],
        ) by {
            assert(body[i] == rows[i + 2]);
        }
        assert(table_parses(body));
        assert forall|i: int| 0 <= i < parsed_table(body).len() implies finite_row(
            #[trigger] parsed_table(body)[i],
        ) by {
            assert(parsed_table(body)[i] == parsed_row(rows[i + 2]));
            assert(parsed_row(rows[i + 2]) == model.coefficients@[i]@);
            assert(finite_row(model.coefficients@[i]@));
        }
        assert(load_spec(out@) is Ok);
        assert(row_matches(model.labels@, load_spec(out@)->Ok_0.0));
        assert forall|a: int| 0 <= a < model.coefficients@.len() implies (
        #[trigger] model.coefficients@[a])@ == parsed_table(body)[a] by {
            assert(parsed_table(body)[a] == parsed_row(rows[a + 2]));
        }
        assert(crate::store::values_match(model.coefficients@, load_spec(out@)->Ok_0.1));
    }
    out
}

} // verus!
