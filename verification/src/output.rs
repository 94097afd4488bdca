use vstd::prelude::*;
use vstd::string::StringExecFns;

use crate::board::{Board, Puzzle};
use crate::errors::PuzzleError;
use crate::moves::Move;
use crate::numfmt::{dec_digits, usize_to_string, u64_to_string};

verus! {

/// The rendering of the first `i` values of a row: decimal numbers joined by
/// single spaces.
pub open spec fn render_row_upto(row: Seq<usize>, i: int) -> Seq<char>
    decreases i,
{
    if i <= 0 {
        Seq::empty()
    } else if i == 1 {
        dec_digits(row[0] as int)
    } else {
        render_row_upto(row, i - 1) + seq![' '] + dec_digits(row[i - 1] as int)
    }
}

/// The rendering of the first `y` rows of a grid, each row on its own line.
pub open spec fn render_grid_upto(g: Seq<Seq<usize>>, y: int) -> Seq<char>
    decreases y,
{
    if y <= 0 {
        Seq::empty()
    } else {
        render_grid_upto(g, y - 1) + render_row_upto(g[y - 1], g[y - 1].len() as int) + seq!['\n']
    }
}

/// The textual rendering of a grid: rows separated by newlines, values by
/// single spaces, a trailing newline on each row.
pub open spec fn render_spec(g: Seq<Seq<usize>>) -> Seq<char> {
    render_grid_upto(g, g.len() as int)
}

impl Puzzle {
    /// Render the board as text.
    pub fn render(&self) -> (r: String)
        ensures
            r@ == render_spec(self.grid()),
    {
        proof {
            reveal_strlit(" ");
            reveal_strlit("\n");
        }
        let mut text = String::new();
        let mut y: usize = 0;
        while y < self.state.len()
            invariant
                y <= self.state@.len(),
                text@ == render_grid_upto(self.grid(), y as int),
            decreases self.state@.len() - y,
        {
            proof {
                reveal_strlit(" ");
                reveal_strlit("\n");
            }
            let row = &self.state[y];
            let mut x: usize = 0;
            while x < row.len()
                invariant
                    y < self.state@.len(),
                    row@ == self.state@[y as int]@,
                    x <= row@.len(),
                    text@ == render_grid_upto(self.grid(), y as int) + render_row_upto(
                        self.grid()[y as int],
                        x as int,
                    ),
                decreases row@.len() - x,
            {
                proof {
                    reveal_strlit(" ");
                }
                if x > 0 {
                    text.append(" ");
                }
                let num = usize_to_string(row[x]);
                text.append(num.as_str());
                proof {
                    assert(self.grid()[y as int] == row@);
                    assert(text@ =~= render_grid_upto(self.grid(), y as int) + render_row_upto(
                        self.grid()[y as int],
                        x as int + 1,
                    ));
                }
                x += 1;
            }
            text.append("\n");
            proof {
                assert(self.grid()[y as int] == row@);
                assert(text@ =~= render_grid_upto(self.grid(), y as int + 1));
            }
            y += 1;
        }
        text
    }
}

/// The fixed-width rendering of the lowest `k` decimal digits of a number.
pub open spec fn frac_digits(n: int, k: int) -> Seq<char>
    decreases k,
{
    if k <= 0 {
        Seq::empty()
    } else {
        frac_digits(n / 10, k - 1) + seq![crate::numfmt::digit_char(n % 10)]
    }
}

/// Render the microsecond remainder as exactly six digits.
fn micros_frac_string(n: u64) -> (r: String)
    requires
        n < 1000000,
    ensures
        r@ == frac_digits(n as int, 6),
{
    frac_string_rec(n, 6)
}

fn frac_string_rec(n: u64, k: u64) -> (r: String)
    ensures
        r@ == frac_digits(n as int, k as int),
    decreases k,
{
    if k == 0 {
        let r = String::new();
        proof {
            assert(r@ =~= frac_digits(n as int, 0));
        }
        r
    } else {
        let mut s = frac_string_rec(n / 10, k - 1);
        let d = (n % 10) as usize;
        s.append(crate::numfmt::digit_str(d));
        proof {
            assert(s@ =~= frac_digits(n as int, k as int));
        }
        s
    }
}

/// The header lines every report begins with.
pub open spec fn report_header(time: int, size: int, micros: int, moves: int) -> Seq<char> {
    "Complexity in time: "@ + dec_digits(time) + "\n"@ + "Complexity in size: "@ + dec_digits(size)
        + "\n"@ + "Elapsed time: "@ + dec_digits(micros / 1000000) + "."@ + frac_digits(
        micros % 1000000,
        6,
    ) + " seconds\n"@ + "Number of moves: "@ + dec_digits(moves) + "\n"@
}

/// The single-line move list of the compact report.
pub open spec fn moves_line(path: Seq<Move>, i: int) -> Seq<char>
    decreases i,
{
    if i <= 0 {
        Seq::empty()
    } else {
        moves_line(path, i - 1) + path[i - 1].name_chars() + seq![' ']
    }
}

/// The per-move unfolding of the verbose report: each move's name under an
/// arrow, followed by the board it produces.
pub open spec fn trace_spec(b: Board, path: Seq<Move>) -> Seq<char>
    decreases path.len(),
{
    if path.len() == 0 {
        Seq::empty()
    } else {
        let b2 = b.do_move(path[0]);
        "\u{2193} "@ + path[0].name_chars() + "\n"@ + render_spec(b2.grid) + trace_spec(
            b2,
            path.drop_first(),
        )
    }
}

/// The outcome of a successful search: the effort counters, the elapsed wall
/// time in microseconds, and the move path from start to goal.
#[derive(Debug)]
pub struct Output {
    pub complexity_in_time: usize,
    pub complexity_in_size: usize,
    pub elapsed_micros: u64,
    pub path: Vec<Move>,
}

impl Output {
    pub fn new(
        complexity_in_time: usize,
        complexity_in_size: usize,
        elapsed_micros: u64,
        path: Vec<Move>,
    ) -> (r: Output)
        ensures
            r.complexity_in_time == complexity_in_time,
            r.complexity_in_size == complexity_in_size,
            r.elapsed_micros == elapsed_micros,
            r.path@ == path@,
    {
        Output { complexity_in_time, complexity_in_size, elapsed_micros, path }
    }

    /// The report rendered as text: the header, the start board, then either
    /// the per-move unfolding (verbose) or the single move line.  Fails with
    /// `IllegalMove` when the recorded path cannot be applied to the board.
    pub fn get_result_string(&self, puzzle: Puzzle, verbose: bool) -> (r: Result<
        String,
        PuzzleError,
    >)
        requires
            puzzle.wf(),
        ensures
            ({
                let header = report_header(
                    self.complexity_in_time as int,
                    self.complexity_in_size as int,
                    self.elapsed_micros as int,
                    self.path@.len() as int,
                );
                match r {
                    Ok(text) => {
                        &&& puzzle.model().apply_path(self.path@).is_some() || !verbose
                        &&& text@ == header + render_spec(puzzle.grid()) + (if verbose {
                            trace_spec(puzzle.model(), self.path@)
                        } else {
                            "Moves: "@ + moves_line(self.path@, self.path@.len() as int) + "\n"@
                        })
                    },
                    Err(e) => {
                        &&& e == PuzzleError::IllegalMove
                        &&& verbose
                        &&& puzzle.model().apply_path(self.path@).is_none()
                    },
                }
            }),
    {
        proof {
            reveal_strlit("Complexity in time: ");
            reveal_strlit("Complexity in size: ");
            reveal_strlit("Elapsed time: ");
            reveal_strlit("Number of moves: ");
            reveal_strlit(" seconds\n");
            reveal_strlit("\n");
            reveal_strlit(".");
            reveal_strlit("Moves: ");
        }
        let mut text = String::new();
        text.append("Complexity in time: ");
        let num = usize_to_string(self.complexity_in_time);
        text.append(num.as_str());
        text.append("\n");
        text.append("Complexity in size: ");
        let num = usize_to_string(self.complexity_in_size);
        text.append(num.as_str());
        text.append("\n");
        text.append("Elapsed time: ");
        let num = u64_to_string(self.elapsed_micros / 1000000);
        text.append(num.as_str());
        text.append(".");
        let num = micros_frac_string(self.elapsed_micros % 1000000);
        text.append(num.as_str());
        text.append(" seconds\n");
        text.append("Number of moves: ");
        let num = usize_to_string(self.path.len());
        text.append(num.as_str());
        text.append("\n");
        proof {
            assert(text@ =~= report_header(
                self.complexity_in_time as int,
                self.complexity_in_size as int,
                self.elapsed_micros as int,
                self.path@.len() as int,
            ));
        }
        let board_text = puzzle.render();
        text.append(board_text.as_str());
        if verbose {
            let mut cur = puzzle;
            let ghost start_model = cur.model();
            let ghost header = report_header(
                self.complexity_in_time as int,
                self.complexity_in_size as int,
                self.elapsed_micros as int,
                self.path@.len() as int,
            );
            let mut i: usize = 0;
            proof {
                assert(self.path@.skip(0) =~= self.path@);
                assert(self.path@.take(0) =~= Seq::<Move>::empty());
            }
            while i < self.path.len()
                invariant
                    verbose,
                    cur.wf(),
                    i <= self.path@.len(),
                    start_model == puzzle.model(),
                    start_model.apply_path(self.path@.take(i as int)) == Some(cur.model()),
                    text@ + trace_spec(cur.model(), self.path@.skip(i as int)) == header
                        + render_spec(start_model.grid) + trace_spec(start_model, self.path@),
                decreases self.path@.len() - i,
            {
                let mv = self.path[i];
                let ghost pre = cur.model();
                let ghost rest = self.path@.skip(i as int);
                proof {
                    assert(rest[0] == self.path@[i as int]);
                }
                match cur.move_blank(mv) {
                    Ok(()) => {},
                    Err(_) => {
                        proof {
                            crate::board::lemma_apply_path_split(
                                start_model,
                                self.path@,
                                i as int,
                            );
                            assert(start_model == puzzle.model());
                            assert(start_model.apply_path(self.path@.take(i as int)) == Some(pre));
                            assert(!pre.legal(mv));
                            assert(rest.len() > 0);
                            assert(pre.apply_path(rest) is None);
                            assert(start_model.apply_path(self.path@) is None);
                        }
                        return Err(PuzzleError::IllegalMove);
                    },
                }
                proof {
                    reveal_strlit("\u{2193} ");
                    reveal_strlit("\n");
                }
                text.append("\u{2193} ");
                text.append(mv.name());
                text.append("\n");
                let board_text = cur.render();
                text.append(board_text.as_str());
                proof {
                    crate::board::lemma_apply_path_push(
                        start_model,
                        self.path@.take(i as int),
                        mv,
                        pre,
                    );
                    assert(self.path@.take(i as int).push(mv) =~= self.path@.take(i as int + 1));
                    assert(rest.drop_first() =~= self.path@.skip(i as int + 1));
                    assert(trace_spec(pre, rest) == "\u{2193} "@ + mv.name_chars() + "\n"@
                        + render_spec(cur.model().grid) + trace_spec(
                        cur.model(),
                        self.path@.skip(i as int + 1),
                    ));
                    assert(text@ + trace_spec(cur.model(), self.path@.skip(i as int + 1)) =~= header
                        + render_spec(start_model.grid) + trace_spec(start_model, self.path@));
                }
                i += 1;
            }
            proof {
                assert(self.path@.take(self.path@.len() as int) =~= self.path@);
                assert(self.path@.skip(self.path@.len() as int) =~= Seq::<Move>::empty());
                assert(text@ + trace_spec(cur.model(), Seq::<Move>::empty()) =~= text@);
                assert(text@ =~= header + render_spec(start_model.grid) + trace_spec(
                    start_model,
                    self.path@,
                ));
            }
            Ok(text)
        } else {
            text.append("Moves: ");
            let ghost header = report_header(
                self.complexity_in_time as int,
                self.complexity_in_size as int,
                self.elapsed_micros as int,
                self.path@.len() as int,
            );
            proof {
                assert(text@ =~= header + render_spec(puzzle.grid()) + "Moves: "@ + moves_line(
                    self.path@,
                    0,
                ));
            }
            let mut i: usize = 0;
            while i < self.path.len()
                invariant
                    i <= self.path@.len(),
                    text@ == report_header(
                        self.complexity_in_time as int,
                        self.complexity_in_size as int,
                        self.elapsed_micros as int,
                        self.path@.len() as int,
                    ) + render_spec(puzzle.grid()) + "Moves: "@ + moves_line(self.path@, i as int),
                decreases self.path@.len() - i,
            {
                proof {
                    reveal_strlit(" ");
                }
                let mv = self.path[i];
                text.append(mv.name());
                text.append(" ");
                proof {
                    assert(text@ =~= report_header(
                        self.complexity_in_time as int,
                        self.complexity_in_size as int,
                        self.elapsed_micros as int,
                        self.path@.len() as int,
                    ) + render_spec(puzzle.grid()) + "Moves: "@ + moves_line(
                        self.path@,
                        i as int + 1,
                    ));
                }
                i += 1;
            }
            proof {
                reveal_strlit("\n");
            }
            text.append("\n");
            proof {
                assert(text@ =~= header + render_spec(puzzle.grid()) + ("Moves: "@ + moves_line(
                    self.path@,
                    self.path@.len() as int,
                ) + "\n"@));
            }
            Ok(text)
        }
    }
}

} // verus!
