//! The parameter store: loading a model from persisted bytes.
//!
//! The format is line-oriented, whitespace-delimited text.  The first
//! nonempty line holds the class labels; the second holds the intercept
//! vector; each following nonempty line holds one coefficient row.  The
//! loader enforces the structural and numerical invariants of `Model` and
//! reports exactly which one failed; `load_spec` is the full statement of
//! its behaviour on every input.

use vstd::prelude::*;
use crate::model::{finite_row, labels_ok, Model, ModelError};
use crate::num::{num_parse, parse_bits};
use crate::text::{
    good_row, lemma_line_len_bound, lemma_line_len_is, lemma_tokens_well_formed, line_len,
    row_matches, split_tokens, tokens_of, NEWLINE,
};

verus! {

/// The nonempty token rows of a byte stream, line by line.
pub open spec fn row_table(s: Seq<u8>) -> Seq<Seq<Seq<u8>>>
    decreases s.len(),
    via row_table_decreases
{
    if s.len() == 0 {
        Seq::empty()
    } else {
        let n = line_len(s);
        let ts = tokens_of(s.take(n as int));
        let rest = if n == s.len() {
            Seq::empty()
        } else {
            row_table(s.skip(n as int + 1))
        };
        if ts.len() == 0 {
            rest
        } else {
            Seq::empty().push(ts) + rest
        }
    }
}

#[via_fn]
proof fn row_table_decreases(s: Seq<u8>) {
    if s.len() > 0 {
        lemma_line_len_bound(s);
    }
}

/// Every row of the table is nonempty and made of well-formed tokens.
pub proof fn lemma_row_table_wf(s: Seq<u8>)
    ensures
        forall|a: int| 0 <= a < row_table(s).len() ==> good_row(#[trigger] row_table(s)[a]),
    decreases s.len(),
{
    if s.len() == 0 {
    } else {
        let n = line_len(s);
        lemma_line_len_bound(s);
        let ts = tokens_of(s.take(n as int));
        lemma_tokens_well_formed(s.take(n as int));
        if n < s.len() {
            lemma_row_table_wf(s.skip(n as int + 1));
        }
        let rest = if n == s.len() {
            Seq::<Seq<Seq<u8>>>::empty()
        } else {
            row_table(s.skip(n as int + 1))
        };
        if ts.len() == 0 {
        } else {
            assert forall|a: int| 0 <= a < row_table(s).len() implies good_row(
                #[trigger] row_table(s)[a],
            ) by {
                if a == 0 {
                    assert(row_table(s)[0] == ts);
                } else {
                    assert(row_table(s)[a] == rest[a - 1]);
                }
            }
        }
    }
}

/// Pairwise distinct byte strings.
pub open spec fn distinct_tokens(ts: Seq<Seq<u8>>) -> bool {
    forall|i: int, j: int| 0 <= i < j < ts.len() ==> ts[i] != ts[j]
}

/// Every token of the row parses as a number.
pub open spec fn row_parses(ts: Seq<Seq<u8>>) -> bool {
    forall|i: int| 0 <= i < ts.len() ==> parse_bits(#[trigger] ts[i]) is Some
}

/// The parsed numbers of a row.
pub open spec fn parsed_row(ts: Seq<Seq<u8>>) -> Seq<u64> {
    Seq::new(ts.len(), |i: int| parse_bits(ts[i]).unwrap())
}

/// Every row of the table parses.
pub open spec fn table_parses(rows: Seq<Seq<Seq<u8>>>) -> bool {
    forall|i: int| 0 <= i < rows.len() ==> row_parses(#[trigger] rows[i])
}

/// The parsed numbers of a table.
pub open spec fn parsed_table(rows: Seq<Seq<Seq<u8>>>) -> Seq<Seq<u64>> {
    Seq::new(rows.len(), |i: int| parsed_row(rows[i]))
}

/// Every parsed row is finite throughout.
pub open spec fn finite_table(vals: Seq<Seq<u64>>) -> bool {
    forall|i: int| 0 <= i < vals.len() ==> finite_row(#[trigger] vals[i])
}

/// What loading makes of a byte stream: the labels, the coefficient
/// matrix, and the intercept vector, or the first failure in order of
/// precedence — too few rows or repeated labels or a ragged matrix or an
/// unparsable token (`MalformedModel`), disagreeing class counts
/// (`ShapeMismatch`), a non-finite parameter (`InvalidValue`).
pub open spec fn load_spec(s: Seq<u8>) -> Result<
    (Seq<Seq<u8>>, Seq<Seq<u64>>, Seq<u64>),
    ModelError,
> {
    let t = row_table(s);
    if t.len() < 2 {
        Err(ModelError::MalformedModel)
    } else {
        let labels = t[0];
        let icept_toks = t[1];
        let body = t.skip(2);
        if !distinct_tokens(labels) {
            Err(ModelError::MalformedModel)
        } else if icept_toks.len() != labels.len() || body.len() != labels.len() {
            Err(ModelError::ShapeMismatch)
        } else if !(forall|i: int|
            0 <= i < body.len() ==> (#[trigger] body[i]).len() == body[0].len()) {
            Err(ModelError::MalformedModel)
        } else if !row_parses(icept_toks) || !table_parses(body) {
            Err(ModelError::MalformedModel)
        } else if !finite_row(parsed_row(icept_toks)) || !finite_table(parsed_table(body)) {
            Err(ModelError::InvalidValue)
        } else {
            Ok((labels, parsed_table(body), parsed_row(icept_toks)))
        }
    }
}

/// A vector of vectors of byte vectors agreeing pointwise with a table.
pub open spec fn table_matches(v: Seq<Vec<Vec<u8>>>, t: Seq<Seq<Seq<u8>>>) -> bool {
    &&& v.len() == t.len()
    &&& forall|a: int|
        #![trigger v[a]]
        #![trigger t[a]]
        0 <= a < v.len() ==> row_matches(v[a]@, t[a])
}

/// A vector of numeric rows agreeing pointwise with a sequence of rows.
pub open spec fn values_match(v: Seq<Vec<u64>>, t: Seq<Seq<u64>>) -> bool {
    &&& v.len() == t.len()
    &&& forall|a: int| #![trigger v[a]] #![trigger t[a]] 0 <= a < v.len() ==> v[a]@ == t[a]
}

/// Splits a byte stream into its nonempty token rows.
pub fn build_table(s: &[u8]) -> (r: Vec<Vec<Vec<u8>>>)
    ensures
        table_matches(r@, row_table(s@)),
{
    let mut rows: Vec<Vec<Vec<u8>>> = Vec::new();
    let ghost mut done: Seq<Seq<Seq<u8>>> = Seq::empty();
    let mut i: usize = 0;
    proof {
        assert(s@.skip(0) =~= s@);
        assert(Seq::<Seq<Seq<u8>>>::empty() + row_table(s@) =~= row_table(s@));
    }
    while i < s.len()
        invariant
            i <= s@.len(),
            table_matches(rows@, done),
            done + row_table(s@.skip(i as int)) == row_table(s@),
        decreases s@.len() - i,
    {
        let mut j: usize = i;
        while j < s.len() && s[j] != NEWLINE
            invariant
                i <= j <= s@.len(),
                forall|q: int| i <= q < j ==> s@[q] != NEWLINE,
            decreases s@.len() - j,
        {
            j = j + 1;
        }
        let toks = split_tokens(s, i, j);
        let ghost sub = s@.skip(i as int);
        let ghost ts = tokens_of(s@.subrange(i as int, j as int));
        proof {
            assert forall|q: int| 0 <= q < j - i implies sub[q] != NEWLINE by {
                assert(sub[q] == s@[i + q]);
            }
            if j < s@.len() {
                assert(sub[j - i] == s@[j as int]);
            }
            lemma_line_len_is(sub, j - i);
            assert(sub.take(j - i) =~= s@.subrange(i as int, j as int));
            if j < s@.len() {
                assert(sub.skip(j - i + 1) =~= s@.skip(j as int + 1));
                if ts.len() == 0 {
                    assert(row_table(sub) == row_table(s@.skip(j as int + 1)));
                } else {
                    assert(row_table(sub) == Seq::empty().push(ts) + row_table(
                        s@.skip(j as int + 1),
                    ));
                }
            } else {
                assert(j == s@.len());
                assert(sub.take(j - i) =~= sub);
                if ts.len() == 0 {
                    assert(row_table(sub) =~= Seq::<Seq<Seq<u8>>>::empty());
                } else {
                    assert(row_table(sub) =~= Seq::empty().push(ts));
                }
            }
        }
        if toks.len() > 0 {
            rows.push(toks);
            proof {
                done = done.push(ts);
            }
        }
        proof {
            if j < s@.len() {
                assert(done + row_table(s@.skip(j as int + 1)) =~= row_table(s@));
            } else {
                assert(s@.skip(j as int) =~= s@.skip(j as int).take(line_len(s@.skip(j as int)) as int));
            }
        }
        if j < s.len() {
            i = j + 1;
        } else {
            proof {
                assert(s@.skip(j as int) =~= Seq::<u8>::empty());
                assert(done + row_table(s@.skip(j as int)) =~= row_table(s@));
            }
            i = j;
        }
    }
    proof {
        assert(s@.skip(i as int) =~= Seq::<u8>::empty());
        assert(done + row_table(s@.skip(i as int)) =~= done);
    }
    rows
}

/// Parses every token of a row, or reports that one does not parse.
pub fn parse_row_values(toks: &Vec<Vec<u8>>) -> (r: Option<Vec<u64>>)
    ensures
        match r {
            Some(v) => {
                &&& forall|i: int|
                    0 <= i < toks@.len() ==> parse_bits((#[trigger] toks@[i])@) is Some
                &&& v@.len() == toks@.len()
                &&& forall|i: int|
                    0 <= i < v@.len() ==> v@[i] == parse_bits(toks@[i]@).unwrap()
            },
            None => !(forall|i: int|
                0 <= i < toks@.len() ==> parse_bits((#[trigger] toks@[i])@) is Some),
        },
{
    let mut v: Vec<u64> = Vec::new();
    let mut i: usize = 0;
    while i < toks.len()
        invariant
            i <= toks@.len(),
            v@.len() == i,
            forall|q: int| 0 <= q < i ==> parse_bits((#[trigger] toks@[q])@) is Some,
            forall|q: int| 0 <= q < i ==> v@[q] == parse_bits(toks@[q]@).unwrap(),
        decreases toks@.len() - i,
    {
        match num_parse(&toks[i]) {
            Some(x) => {
                v.push(x);
            },
            None => {
                return None;
            },
        }
        i = i + 1;
    }
    Some(v)
}

/// Loads a model from persisted bytes, or reports exactly why the bytes
/// are not a model, as `load_spec` states for every input.
#[verifier::loop_isolation(false)]
pub fn load(bytes: &[u8]) -> (r: Result<Model, ModelError>)
    ensures
        match r {
            Ok(m) => {
                &&& load_spec(bytes@) is Ok
                &&& m.wf()
                &&& row_matches(m.labels@, load_spec(bytes@)->Ok_0.0)
                &&& values_match(m.coefficients@, load_spec(bytes@)->Ok_0.1)
                &&& m.intercept@ == load_spec(bytes@)->Ok_0.2
            },
            Err(e) => load_spec(bytes@) == Err::<
                (Seq<Seq<u8>>, Seq<Seq<u64>>, Seq<u64>),
                ModelError,
            >(e),
        },
{
    let mut rows = build_table(bytes);
    let ghost t = row_table(bytes@);
    proof {
        lemma_row_table_wf(bytes@);
    }
    if rows.len() < 2 {
        return Err(ModelError::MalformedModel);
    }
    let labels = rows.remove(0);
    let icept_toks = rows.remove(0);
    proof {
        assert(row_matches(labels@, t[0]));
        assert(row_matches(icept_toks@, t[1]));
        assert forall|a: int| 0 <= a < rows@.len() implies row_matches(
            (#[trigger] rows@[a])@,
            t.skip(2)[a],
        ) by {
            assert(t.skip(2)[a] == t[a + 2]);
        }
        assert(rows@.len() == t.skip(2).len());
    }
    let ghost body = t.skip(2);
    // label well-formedness and distinctness
    proof {
        assert(good_row(t[0]));
        assert(labels@.len() >= 1);
        assert forall|b: int| 0 <= b < labels@.len() implies crate::text::well_formed_token(
            (#[trigger] labels@[b])@,
        ) by {
            assert(labels@[b]@ == t[0][b]);
        }
    }
    if !crate::model::labels_well_formed(&labels) {
        proof {
            assert(!distinct_tokens(t[0])) by {
                if distinct_tokens(t[0]) {
                    assert forall|x: int, y: int| 0 <= x < y < labels@.len() implies labels@[x]@
                        != labels@[y]@ by {
                        assert(labels@[x]@ == t[0][x]);
                        assert(labels@[y]@ == t[0][y]);
                    }
                    assert(labels_ok(labels@));
                    assert(false);
                }
            }
        }
        return Err(ModelError::MalformedModel);
    }
    proof {
        assert forall|x: int, y: int| 0 <= x < y < t[0].len() implies t[0][x] != t[0][y] by {
            assert(labels@[x]@ == t[0][x]);
            assert(labels@[y]@ == t[0][y]);
        }
        assert(distinct_tokens(t[0]));
    }
    let k = labels.len();
    if icept_toks.len() != k || rows.len() != k {
        return Err(ModelError::ShapeMismatch);
    }
    // uniform row width
    let width = rows[0].len();
    let mut a: usize = 0;
    while a < rows.len()
        invariant
            a <= rows@.len(),
            rows@.len() >= 1,
            table_matches(rows@, body),
            body == t.skip(2),
            t == row_table(bytes@),
            width == rows@[0]@.len(),
            forall|q: int| 0 <= q < a ==> (#[trigger] rows@[q])@.len() == width,
        decreases rows@.len() - a,
    {
        if rows[a].len() != width {
            proof {
                assert(body[a as int].len() == rows@[a as int]@.len());
                assert(body[0].len() == width);
            }
            return Err(ModelError::MalformedModel);
        }
        a = a + 1;
    }
    proof {
        assert forall|q: int| 0 <= q < body.len() implies (#[trigger] body[q]).len()
            == body[0].len() by {
            assert(body[q].len() == rows@[q]@.len());
        }
    }
    // parse the intercept
    let icept = match parse_row_values(&icept_toks) {
        Some(v) => v,
        None => {
            proof {
                if row_parses(t[1]) {
                    assert forall|q: int| 0 <= q < icept_toks@.len() implies parse_bits(
                        (#[trigger] icept_toks@[q])@,
                    ) is Some by {
                        assert(icept_toks@[q]@ == t[1][q]);
                    }
                }
            }
            return Err(ModelError::MalformedModel);
        },
    };
    proof {
        assert forall|q: int| 0 <= q < t[1].len() implies parse_bits(
            #[trigger] t[1][q],
        ) is Some by {
            assert(icept_toks@[q]@ == t[1][q]);
        }
        assert(icept@ =~= parsed_row(t[1]));
    }
    // parse the coefficient rows
    let mut vals: Vec<Vec<u64>> = Vec::new();
    let mut c: usize = 0;
    while c < rows.len()
        invariant
            c <= rows@.len(),
            table_matches(rows@, body),
            body == t.skip(2),
            t == row_table(bytes@),
            vals@.len() == c,
            forall|q: int| 0 <= q < c ==> row_parses(#[trigger] body[q]),
            forall|q: int| 0 <= q < c ==> (#[trigger] vals@[q])@ == parsed_row(body[q]),
        decreases rows@.len() - c,
    {
        match parse_row_values(&rows[c]) {
            Some(v) => {
                proof {
                    assert forall|q: int| 0 <= q < body[c as int].len() implies parse_bits(
                        #[trigger] body[c as int][q],
                    ) is Some by {
                        assert(rows@[c as int]@[q]@ == body[c as int][q]);
                    }
                    assert(v@ =~= parsed_row(body[c as int]));
                }
                vals.push(v);
            },
            None => {
                proof {
                    if row_parses(body[c as int]) {
                        assert forall|q: int| 0 <= q < rows@[c as int]@.len() implies parse_bits(
                            (#[trigger] rows@[c as int]@[q])@,
                        ) is Some by {
                            assert(rows@[c as int]@[q]@ == body[c as int][q]);
                        }
                    }
                    assert(!table_parses(body));
                }
                return Err(ModelError::MalformedModel);
            },
        }
        c = c + 1;
    }
    proof {
        assert(table_parses(body));
        assert forall|q: int| 0 <= q < vals@.len() implies (#[trigger] vals@[q])@
            == parsed_table(body)[q] by {
            assert(vals@[q]@ == parsed_row(body[q]));
        }
    }
    // finiteness
    if !crate::model::row_finite(&icept) {
        return Err(ModelError::InvalidValue);
    }
    if !crate::model::matrix_finite(&vals) {
        proof {
            if finite_table(parsed_table(body)) {
                assert forall|q: int| 0 <= q < vals@.len() implies finite_row(
                    (#[trigger] vals@[q])@,
                ) by {
                    assert(vals@[q]@ == parsed_table(body)[q]);
                    assert(finite_row(parsed_table(body)[q]));
                }
            }
        }
        return Err(ModelError::InvalidValue);
    }
    proof {
        assert forall|q: int| 0 <= q < parsed_table(body).len() implies finite_row(
            #[trigger] parsed_table(body)[q],
        ) by {
            assert(parsed_table(body)[q] == vals@[q]@);
        }
        assert(finite_table(parsed_table(body)));
    }
    let m = Model { labels, coefficients: vals, intercept: icept };
    proof {
        assert(m.d() == body[0].len());
        assert(m.wf());
        assert(values_match(m.coefficients@, parsed_table(body)));
    }
    Ok(m)
}

} // verus!
