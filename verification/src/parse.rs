use vstd::prelude::*;

use crate::board::{grid_of, rows_form_valid_board, Puzzle, MAX_SIZE};
use crate::errors::PuzzleError;

verus! {

/// ASCII whitespace, as token separators.
pub open spec fn is_space_byte(b: u8) -> bool {
    b == 32 || b == 9 || b == 10 || b == 13 || b == 11 || b == 12
}

pub open spec fn is_digit_byte(b: u8) -> bool {
    48 <= b <= 57
}

/// The number a digit token denotes.
pub open spec fn token_val(t: Seq<u8>) -> int
    decreases t.len(),
{
    if t.len() == 0 {
        0
    } else {
        token_val(t.drop_last()) * 10 + (t.last() - 48)
    }
}

pub open spec fn all_digit_bytes(t: Seq<u8>) -> bool {
    forall|i: int| 0 <= i < t.len() ==> is_digit_byte(#[trigger] t[i])
}

/// A usable numeric token: non-empty, all digits, value within `usize`.
pub open spec fn good_token(t: Seq<u8>) -> bool {
    &&& t.len() > 0
    &&& all_digit_bytes(t)
    &&& token_val(t) <= usize::MAX
}

/// The whitespace-separated tokens of the text from position `i` on, with
/// `pending` the token under construction; everything from `#` to the end of
/// its line is a comment and separates tokens.
pub open spec fn tok_from(s: Seq<u8>, i: int, pending: Seq<u8>, in_comment: bool) -> Seq<Seq<u8>>
    decreases s.len() - i,
{
    if i >= s.len() {
        if pending.len() > 0 {
            seq![pending]
        } else {
            Seq::empty()
        }
    } else if in_comment {
        if s[i] == 10 {
            tok_from(s, i + 1, pending, false)
        } else {
            tok_from(s, i + 1, pending, true)
        }
    } else if s[i] == 35 {
        (if pending.len() > 0 {
            seq![pending]
        } else {
            Seq::empty()
        }) + tok_from(s, i + 1, Seq::empty(), true)
    } else if is_space_byte(s[i]) {
        (if pending.len() > 0 {
            seq![pending]
        } else {
            Seq::empty()
        }) + tok_from(s, i + 1, Seq::empty(), false)
    } else {
        tok_from(s, i + 1, pending.push(s[i]), false)
    }
}

/// The tokens of a puzzle description.
pub open spec fn tokens_of(s: Seq<u8>) -> Seq<Seq<u8>> {
    tok_from(s, 0, Seq::empty(), false)
}

/// The sequences a vector of byte vectors holds.
pub open spec fn token_views(v: Seq<Vec<u8>>) -> Seq<Seq<u8>> {
    Seq::new(v.len(), |i: int| v[i]@)
}

/// The grid the tokens after the size describe, row-major.
pub open spec fn parsed_grid(toks: Seq<Seq<u8>>, n: int) -> Seq<Seq<usize>> {
    Seq::new(n as nat, |y: int| Seq::new(n as nat, |x: int| token_val(toks[1 + y * n + x]) as usize))
}

/// A text parses into a board exactly when its first token is a size at most
/// `MAX_SIZE`, exactly size² value tokens follow, every token is numeric,
/// and the values form a valid board.
pub open spec fn parses_ok(s: Seq<u8>) -> bool {
    let toks = tokens_of(s);
    &&& toks.len() >= 1
    &&& good_token(toks[0])
    &&& token_val(toks[0]) <= MAX_SIZE
    &&& toks.len() == token_val(toks[0]) * token_val(toks[0]) + 1
    &&& (forall|i: int| 1 <= i < toks.len() ==> good_token(#[trigger] toks[i]))
    &&& rows_form_valid_board(parsed_grid(toks, token_val(toks[0])))
}

/// Parse a numeric token.
fn parse_token(t: &Vec<u8>) -> (r: Option<usize>)
    ensures
        match r {
            Some(v) => good_token(t@) && v as int == token_val(t@),
            None => !good_token(t@),
        },
{
    let len = t.len();
    if len == 0 {
        return None;
    }
    let mut acc: usize = 0;
    let mut i: usize = 0;
    while i < len
        invariant
            len == t@.len(),
            i <= len,
            acc as int == token_val(t@.take(i as int)),
            forall|j: int| 0 <= j < i ==> is_digit_byte(#[trigger] t@[j]),
        decreases len - i,
    {
        let b = t[i];
        if b < 48 || b > 57 {
            return None;
        }
        let d = (b - 48) as usize;
        if acc > (usize::MAX - d) / 10 {
            proof {
                let w = t@.take(i as int + 1);
                assert(w.drop_last() =~= t@.take(i as int));
                assert(w.last() == t@[i as int]);
                assert(token_val(w) == acc * 10 + d);
                assert(acc * 10 + d > usize::MAX) by (nonlinear_arith)
                    requires
                        acc > (usize::MAX as int - d) / 10,
                        0 <= d <= 9,
                        0 <= acc,
                ;
                if all_digit_bytes(t@) {
                    lemma_token_val_prefix(t@, i as int + 1);
                }
            }
            return None;
        }
        proof {
            assert(acc * 10 + d <= usize::MAX) by (nonlinear_arith)
                requires
                    acc <= (usize::MAX as int - d) / 10,
                    0 <= d <= 9,
                    0 <= acc,
            ;
            let w = t@.take(i as int + 1);
            assert(w.drop_last() =~= t@.take(i as int));
            assert(w.last() == t@[i as int]);
        }
        acc = acc * 10 + d;
        i += 1;
    }
    proof {
        assert(t@.take(len as int) =~= t@);
    }
    Some(acc)
}

proof fn lemma_token_val_nonneg(t: Seq<u8>)
    requires
        all_digit_bytes(t),
    ensures
        0 <= token_val(t),
    decreases t.len(),
{
    if t.len() > 0 {
        assert(all_digit_bytes(t.drop_last())) by {
            assert(forall|i: int| 0 <= i < t.len() - 1 ==> #[trigger] t.drop_last()[i] == t[i]);
        }
        lemma_token_val_nonneg(t.drop_last());
        assert(is_digit_byte(t.last()));
    }
}

proof fn lemma_token_val_prefix(t: Seq<u8>, i: int)
    requires
        all_digit_bytes(t),
        0 <= i <= t.len(),
    ensures
        token_val(t.take(i)) <= token_val(t),
    decreases t.len() - i,
{
    if i < t.len() {
        lemma_token_val_prefix(t, i + 1);
        let w = t.take(i + 1);
        assert(w.drop_last() =~= t.take(i));
        assert(w.last() == t[i]);
        assert(all_digit_bytes(t.take(i))) by {
            assert(forall|j: int| 0 <= j < i ==> #[trigger] t.take(i)[j] == t[j]);
        }
        lemma_token_val_nonneg(t.take(i));
        assert(is_digit_byte(t[i]));
        assert(token_val(t.take(i)) <= token_val(t.take(i)) * 10 + (t[i] - 48))
            by (nonlinear_arith)
            requires
                0 <= token_val(t.take(i)),
                48 <= t[i] <= 57,
        ;
    } else {
        assert(t.take(i) =~= t);
    }
}

/// Split a puzzle description into its tokens.
fn tokenize(text: &Vec<u8>) -> (r: Vec<Vec<u8>>)
    ensures
        token_views(r@) == tokens_of(text@),
{
    let mut toks: Vec<Vec<u8>> = Vec::new();
    let mut pending: Vec<u8> = Vec::new();
    let mut in_comment = false;
    let mut i: usize = 0;
    while i < text.len()
        invariant
            i <= text@.len(),
            token_views(toks@) + tok_from(text@, i as int, pending@, in_comment) == tokens_of(
                text@,
            ),
        decreases text@.len() - i,
    {
        let b = text[i];
        let ghost pend = pending@;
        let ghost tv = token_views(toks@);
        if in_comment {
            if b == 10 {
                in_comment = false;
            }
        } else if b == 35 {
            if pending.len() > 0 {
                toks.push(pending);
                pending = Vec::new();
            }
            in_comment = true;
            proof {
                if pend.len() > 0 {
                    assert(token_views(toks@) =~= tv + seq![pend]);
                }
                assert(pending@ =~= Seq::<u8>::empty());
                assert(tok_from(text@, i as int, pend, false) == (if pend.len() > 0 {
                    seq![pend]
                } else {
                    Seq::<Seq<u8>>::empty()
                }) + tok_from(text@, i as int + 1, Seq::<u8>::empty(), true));
                assert(token_views(toks@) + tok_from(text@, i as int + 1, pending@, true) =~= tv
                    + tok_from(text@, i as int, pend, false));
            }
        } else if b == 32 || b == 9 || b == 10 || b == 13 || b == 11 || b == 12 {
            if pending.len() > 0 {
                toks.push(pending);
                pending = Vec::new();
            }
            proof {
                if pend.len() > 0 {
                    assert(token_views(toks@) =~= tv + seq![pend]);
                }
                assert(pending@ =~= Seq::<u8>::empty());
                assert(tok_from(text@, i as int, pend, false) == (if pend.len() > 0 {
                    seq![pend]
                } else {
                    Seq::<Seq<u8>>::empty()
                }) + tok_from(text@, i as int + 1, Seq::<u8>::empty(), false));
                assert(token_views(toks@) + tok_from(text@, i as int + 1, pending@, false) =~= tv
                    + tok_from(text@, i as int, pend, false));
            }
        } else {
            pending.push(b);
        }
        i += 1;
    }
    if pending.len() > 0 {
        toks.push(pending);
    }
    proof {
        assert(token_views(toks@) =~= tokens_of(text@));
    }
    toks
}

impl Puzzle {
    /// Parse a textual puzzle description: `#` starts a line comment, tokens
    /// are whitespace-separated decimal numbers, the first is the size N and
    /// the next N² are the row-major cell values.  Fails with
    /// `MalformedBoard` on any other shape of text.
    pub fn from_text(text: &Vec<u8>) -> (r: Result<Puzzle, PuzzleError>)
        ensures
            match r {
                Ok(p) => {
                    &&& parses_ok(text@)
                    &&& p.wf()
                    &&& p.size == token_val(tokens_of(text@)[0])
                    &&& p.grid() == parsed_grid(tokens_of(text@), p.size as int)
                },
                Err(e) => e == PuzzleError::MalformedBoard && !parses_ok(text@),
            },
    {
        let toks = tokenize(text);
        if toks.len() == 0 {
            return Err(PuzzleError::MalformedBoard);
        }
        proof {
            assert(toks@[0]@ == tokens_of(text@)[0]);
        }
        let n = match parse_token(&toks[0]) {
            Some(v) => v,
            None => {
                return Err(PuzzleError::MalformedBoard);
            },
        };
        if n > MAX_SIZE {
            return Err(PuzzleError::MalformedBoard);
        }
        proof {
            assert(n * n <= 65025) by (nonlinear_arith)
                requires
                    n <= 255,
            ;
        }
        let nn = n * n;
        if toks.len() != nn + 1 {
            return Err(PuzzleError::MalformedBoard);
        }
        let mut state: Vec<Vec<usize>> = Vec::new();
        let mut y: usize = 0;
        while y < n
            invariant
                n <= MAX_SIZE,
                nn == n * n,
                toks@.len() == nn + 1,
                token_views(toks@) == tokens_of(text@),
                y <= n,
                state@.len() == y,
                forall|y0: int|
                    0 <= y0 < y ==> (#[trigger] state@[y0]@).len() == n && forall|x0: int|
                        0 <= x0 < n ==> state@[y0]@[x0] as int == token_val(
                            tokens_of(text@)[1 + y0 * n + x0],
                        ),
                forall|k: int| 0 <= k < y * n ==> good_token(#[trigger] tokens_of(text@)[1 + k]),
            decreases n - y,
        {
            let mut row: Vec<usize> = Vec::new();
            let mut x: usize = 0;
            while x < n
                invariant
                    n <= MAX_SIZE,
                    nn == n * n,
                    toks@.len() == nn + 1,
                    token_views(toks@) == tokens_of(text@),
                    y < n,
                    x <= n,
                    row@.len() == x,
                    forall|x0: int|
                        0 <= x0 < x ==> row@[x0] as int == token_val(
                            tokens_of(text@)[1 + y * n + x0],
                        ),
                    forall|k: int|
                        0 <= k < y * n + x ==> good_token(#[trigger] tokens_of(text@)[1 + k]),
                decreases n - x,
            {
                proof {
                    assert(y * n + x < n * n) by (nonlinear_arith)
                        requires
                            0 <= x < n,
                            0 <= y < n,
                    ;
                }
                let idx = 1 + y * n + x;
                proof {
                    assert(toks@[idx as int]@ == tokens_of(text@)[idx as int]);
                }
                let val = match parse_token(&toks[idx]) {
                    Some(v) => v,
                    None => {
                        proof {
                            assert(!good_token(tokens_of(text@)[1 + y as int * n + x as int]));
                        }
                        return Err(PuzzleError::MalformedBoard);
                    },
                };
                row.push(val);
                proof {
                    assert(good_token(tokens_of(text@)[1 + y as int * n + x as int]));
                }
                x += 1;
            }
            state.push(row);
            proof {
                assert((y as int + 1) * n == y as int * n + n) by (nonlinear_arith);
            }
            y += 1;
        }
        let ghost toks_spec = tokens_of(text@);
        proof {
            assert forall|y0: int| 0 <= y0 < n implies grid_of(state@)[y0] =~= parsed_grid(
                toks_spec,
                n as int,
            )[y0] by {
                assert(state@[y0]@.len() == n);
                assert forall|x0: int|
                    0 <= x0 < n implies grid_of(state@)[y0][x0] == parsed_grid(
                    toks_spec,
                    n as int,
                )[y0][x0] by {
                    assert(state@[y0]@[x0] as int == token_val(toks_spec[1 + y0 * n + x0]));
                }
            }
            assert(grid_of(state@) =~= parsed_grid(toks_spec, n as int));
        }
        match Puzzle::new_from_state(state) {
            Ok(p) => {
                proof {
                    assert(parses_ok(text@)) by {
                        assert forall|i: int| 1 <= i < toks_spec.len() implies good_token(
                            #[trigger] toks_spec[i],
                        ) by {
                            assert(good_token(tokens_of(text@)[1 + (i - 1)]));
                        }
                    }
                }
                Ok(p)
            },
            Err(_) => {
                proof {
                    if parses_ok(text@) {
                        assert(rows_form_valid_board(parsed_grid(toks_spec, n as int)));
                        assert(false);
                    }
                }
                Err(PuzzleError::MalformedBoard)
            },
        }
    }
}

} // verus!
