//! Byte-level text structure of the persisted model format.
//!
//! A model file is a sequence of lines separated by newline bytes; each line
//! is a sequence of tokens separated by blank bytes (space, tab, carriage
//! return).  The splitting functions are specified recursively and the
//! executable splitters are proved to match them.

use vstd::prelude::*;

verus! {

/// The newline byte, which separates lines.
pub const NEWLINE: u8 = 10;

/// The space byte, which separates tokens when a model is written out.
pub const SPACE: u8 = 32;

/// A blank byte: space, tab or carriage return.  These separate tokens
/// within a line.
pub open spec fn blank_byte(b: u8) -> bool {
    b == 32 || b == 9 || b == 13
}

/// A byte that may stand in a token: neither blank nor a newline.
pub open spec fn token_byte(b: u8) -> bool {
    !blank_byte(b) && b != NEWLINE
}

pub fn is_blank_byte(b: u8) -> (r: bool)
    ensures
        r == blank_byte(b),
{
    b == 32 || b == 9 || b == 13
}

/// Length of the leading run of token bytes.
pub open spec fn run_len(s: Seq<u8>) -> nat
    decreases s.len(),
{
    if s.len() == 0 || !token_byte(s[0]) {
        0
    } else {
        1 + run_len(s.skip(1))
    }
}

/// The tokens of a line, in order: maximal runs of token bytes.
pub open spec fn tokens_of(s: Seq<u8>) -> Seq<Seq<u8>>
    decreases s.len(),
    via tokens_of_decreases
{
    if s.len() == 0 {
        Seq::empty()
    } else if !token_byte(s[0]) {
        tokens_of(s.skip(1))
    } else {
        Seq::empty().push(s.take(run_len(s) as int)) + tokens_of(s.skip(run_len(s) as int))
    }
}

#[via_fn]
proof fn tokens_of_decreases(s: Seq<u8>) {
    if s.len() > 0 && token_byte(s[0]) {
        lemma_run_len_bound(s);
        assert(run_len(s) >= 1);
    }
}

/// The lines of a byte stream: the pieces between newline bytes.
pub open spec fn lines_of(s: Seq<u8>) -> Seq<Seq<u8>>
    decreases s.len(),
    via lines_of_decreases
{
    if s.len() == 0 {
        Seq::empty()
    } else {
        let n = line_len(s);
        if n == s.len() {
            Seq::empty().push(s)
        } else {
            Seq::empty().push(s.take(n as int)) + lines_of(s.skip(n as int + 1))
        }
    }
}

#[via_fn]
proof fn lines_of_decreases(s: Seq<u8>) {
    if s.len() > 0 {
        lemma_line_len_bound(s);
    }
}

/// Length of the leading run of bytes before the first newline.
pub open spec fn line_len(s: Seq<u8>) -> nat
    decreases s.len(),
{
    if s.len() == 0 || s[0] == NEWLINE {
        0
    } else {
        1 + line_len(s.skip(1))
    }
}

/// Every token is nonempty and made of token bytes.
pub open spec fn well_formed_token(t: Seq<u8>) -> bool {
    t.len() >= 1 && forall|i: int| 0 <= i < t.len() ==> token_byte(t[i])
}

/// A nonempty row of well-formed tokens.
pub open spec fn good_row(r: Seq<Seq<u8>>) -> bool {
    r.len() >= 1 && forall|b: int| 0 <= b < r.len() ==> well_formed_token(#[trigger] r[b])
}

pub proof fn lemma_run_len_bound(s: Seq<u8>)
    ensures
        run_len(s) <= s.len(),
        forall|i: int| 0 <= i < run_len(s) ==> token_byte(s[i]),
        run_len(s) < s.len() ==> !token_byte(s[run_len(s) as int]),
    decreases s.len(),
{
    if s.len() == 0 || !token_byte(s[0]) {
    } else {
        lemma_run_len_bound(s.skip(1));
        assert forall|i: int| 0 <= i < run_len(s) implies token_byte(s[i]) by {
            if i > 0 {
                assert(token_byte(s.skip(1)[i - 1]));
            }
        }
        if run_len(s) < s.len() {
            assert(!token_byte(s.skip(1)[run_len(s) as int - 1]));
        }
    }
}

pub proof fn lemma_line_len_bound(s: Seq<u8>)
    ensures
        line_len(s) <= s.len(),
        forall|i: int| 0 <= i < line_len(s) ==> s[i] != NEWLINE,
        line_len(s) < s.len() ==> s[line_len(s) as int] == NEWLINE,
    decreases s.len(),
{
    if s.len() == 0 || s[0] == NEWLINE {
    } else {
        lemma_line_len_bound(s.skip(1));
        assert forall|i: int| 0 <= i < line_len(s) implies s[i] != NEWLINE by {
            if i > 0 {
                assert(s.skip(1)[i - 1] != NEWLINE);
            }
        }
        if line_len(s) < s.len() {
            assert(s.skip(1)[line_len(s) as int - 1] == NEWLINE);
        }
    }
}

/// Every token that `tokens_of` yields is a nonempty run of token bytes.
pub proof fn lemma_tokens_well_formed(s: Seq<u8>)
    ensures
        forall|i: int| 0 <= i < tokens_of(s).len() ==> #[trigger] well_formed_token(tokens_of(s)[i]),
    decreases s.len(),
{
    if s.len() == 0 {
    } else if !token_byte(s[0]) {
        lemma_tokens_well_formed(s.skip(1));
        assert(tokens_of(s) == tokens_of(s.skip(1)));
    } else {
        lemma_run_len_bound(s);
        let rest = tokens_of(s.skip(run_len(s) as int));
        lemma_tokens_well_formed(s.skip(run_len(s) as int));
        assert(well_formed_token(s.take(run_len(s) as int)));
        assert forall|i: int| 0 <= i < tokens_of(s).len() implies #[trigger] well_formed_token(
            tokens_of(s)[i],
        ) by {
            if i == 0 {
                assert(tokens_of(s)[0] == s.take(run_len(s) as int));
            } else {
                assert(tokens_of(s)[i] == rest[i - 1]);
                assert(well_formed_token(rest[i - 1]));
            }
        }
    }
}

/// The tokens of the blank-trimmed remainder: stepping over one leading
/// blank byte changes nothing.
proof fn lemma_tokens_skip_blank(s: Seq<u8>, i: int)
    requires
        0 <= i < s.len(),
        !token_byte(s[i]),
        s[i] != NEWLINE,
    ensures
        tokens_of(s.skip(i)) == tokens_of(s.skip(i + 1)),
{
    assert(s.skip(i).skip(1) =~= s.skip(i + 1));
    assert(s.skip(i)[0] == s[i]);
}

/// A vector of byte vectors agreeing pointwise with a sequence of byte
/// strings.
pub open spec fn row_matches(v: Seq<Vec<u8>>, t: Seq<Seq<u8>>) -> bool {
    &&& v.len() == t.len()
    &&& forall|b: int| #![trigger v[b]] #![trigger t[b]] 0 <= b < v.len() ==> v[b]@ == t[b]
}

/// Splitting a line into its tokens, executable form.
pub fn split_tokens(s: &[u8], start: usize, end: usize) -> (r: Vec<Vec<u8>>)
    requires
        start <= end <= s@.len(),
        forall|i: int| start <= i < end ==> s@[i] != NEWLINE,
    ensures
        row_matches(r@, tokens_of(s@.subrange(start as int, end as int))),
{
    let mut out: Vec<Vec<u8>> = Vec::new();
    let mut i: usize = start;
    let ghost whole = s@.subrange(start as int, end as int);
    let ghost mut done: Seq<Seq<u8>> = Seq::empty();
    while i < end
        invariant
            start <= i <= end <= s@.len(),
            forall|j: int| start <= j < end ==> s@[j] != NEWLINE,
            whole == s@.subrange(start as int, end as int),
            row_matches(out@, done),
            done + tokens_of(s@.subrange(i as int, end as int)) == tokens_of(whole),
        decreases end - i,
    {
        if is_blank_byte(s[i]) {
            proof {
                lemma_tokens_skip_blank(s@.subrange(i as int, end as int), 0);
                assert(s@.subrange(i as int, end as int).skip(1)
                    =~= s@.subrange(i as int + 1, end as int));
                assert(s@.subrange(i as int, end as int).skip(0)
                    =~= s@.subrange(i as int, end as int));
            }
            i = i + 1;
        } else {
            let tok_start = i;
            let mut tok: Vec<u8> = Vec::new();
            while i < end && !is_blank_byte(s[i])
                invariant
                    start <= tok_start <= i <= end <= s@.len(),
                    forall|j: int| start <= j < end ==> s@[j] != NEWLINE,
                    tok@ == s@.subrange(tok_start as int, i as int),
                    forall|j: int| tok_start <= j < i ==> token_byte(s@[j]),
                decreases end - i,
            {
                tok.push(s[i]);
                proof {
                    assert(tok@ =~= s@.subrange(tok_start as int, i as int + 1));
                }
                i = i + 1;
            }
            proof {
                let rest = s@.subrange(tok_start as int, end as int);
                lemma_run_len_is(rest, i - tok_start);
                assert(rest.take(i - tok_start) =~= s@.subrange(tok_start as int, i as int));
                assert(rest.skip(i - tok_start) =~= s@.subrange(i as int, end as int));
                assert(tokens_of(rest) == Seq::empty().push(tok@)
                    + tokens_of(s@.subrange(i as int, end as int)));
                assert(done + tokens_of(rest) =~= done.push(tok@)
                    + tokens_of(s@.subrange(i as int, end as int)));
            }
            out.push(tok);
            proof {
                done = done.push(tok@);
            }
        }
    }
    proof {
        assert(s@.subrange(end as int, end as int) =~= Seq::<u8>::empty());
        assert(done + Seq::<Seq<u8>>::empty() =~= done);
    }
    out
}

/// A sequence whose first `n` bytes are free of newlines, ended by its end
/// or a newline, has a leading line of exactly `n`.
pub proof fn lemma_line_len_is(s: Seq<u8>, n: int)
    requires
        0 <= n <= s.len(),
        forall|i: int| 0 <= i < n ==> s[i] != NEWLINE,
        n < s.len() ==> s[n] == NEWLINE,
    ensures
        line_len(s) == n,
    decreases n,
{
    if n == 0 {
    } else {
        lemma_line_len_is(s.skip(1), n - 1);
    }
}

/// A sequence whose first `n` bytes are token bytes, ended by its end or a
/// separator, has a leading run of exactly `n`.
pub proof fn lemma_run_len_is(s: Seq<u8>, n: int)
    requires
        0 <= n <= s.len(),
        forall|i: int| 0 <= i < n ==> token_byte(s[i]),
        n < s.len() ==> !token_byte(s[n]),
    ensures
        run_len(s) == n,
    decreases n,
{
    if n == 0 {
    } else {
        lemma_run_len_is(s.skip(1), n - 1);
    }
}

} // verus!
