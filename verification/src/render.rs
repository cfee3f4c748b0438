//! Text renderings of squares and puzzles: the plain grid dump, the boxed
//! pretty print with candidate lists, and the save-file text that Simon
//! Tatham's puzzle collection loads. Every function's output is pinned down
//! character by character by a specification.

use vstd::prelude::*;

use crate::bits::{card, mask_seq, resolved, value_of};
use crate::latin::LatinSquare;
use crate::puzzle::{Adjacency, UnequalLatinSquare};

verus! {

/// The single decimal digit character of `d`.
pub open spec fn digit_seq(d: int) -> Seq<char> {
    if d == 0 {
        "0"@
    } else if d == 1 {
        "1"@
    } else if d == 2 {
        "2"@
    } else if d == 3 {
        "3"@
    } else if d == 4 {
        "4"@
    } else if d == 5 {
        "5"@
    } else if d == 6 {
        "6"@
    } else if d == 7 {
        "7"@
    } else if d == 8 {
        "8"@
    } else {
        "9"@
    }
}

/// The decimal digits of `n`, most significant first.
pub open spec fn dec_digits(n: int) -> Seq<char>
    decreases n,
{
    if n < 10 {
        digit_seq(n)
    } else {
        dec_digits(n / 10) + digit_seq(n % 10)
    }
}

/// A single decimal digit as text.
fn digit_str(d: u8) -> (r: &'static str)
    requires
        d <= 9,
    ensures
        r@ == digit_seq(d as int),
{
    match d {
        0 => "0",
        1 => "1",
        2 => "2",
        3 => "3",
        4 => "4",
        5 => "5",
        6 => "6",
        7 => "7",
        8 => "8",
        _ => "9",
    }
}

/// Appends the decimal digits of `n`.
fn append_dec(out: &mut String, n: usize)
    ensures
        final(out)@ == old(out)@ + dec_digits(n as int),
    decreases n,
{
    let ghost start = out@;
    if n >= 10 {
        append_dec(out, n / 10);
    }
    out.append(digit_str((n % 10) as u8));
    proof {
        if n >= 10 {
            assert(out@ =~= start + dec_digits(n as int));
        }
    }
}

/// The first `x` cells of row `y` of the plain grid dump.
pub open spec fn grid_row(ls: &LatinSquare, y: int, x: int) -> Seq<char>
    decreases x,
{
    if x <= 0 {
        Seq::empty()
    } else {
        grid_row(ls, y, x - 1) + digit_seq(ls.at(x - 1, y) as int)
    }
}

/// The first `y` lines of the plain grid dump: one digit per cell, one line
/// per row.
pub open spec fn grid_text(ls: &LatinSquare, y: int) -> Seq<char>
    decreases y,
{
    if y <= 0 {
        Seq::empty()
    } else {
        grid_text(ls, y - 1) + grid_row(ls, y - 1, ls.n()) + "\n"@
    }
}

impl LatinSquare {
    /// The completed square as text: one decimal digit per cell, one line
    /// per row.
    pub fn pprint(&self) -> (out: String)
        requires
            self.wf(),
        ensures
            out@ == grid_text(self, self.n()),
    {
        let mut out = String::new();
        for y in 0..self.size
            invariant
                self.wf(),
                out@ == grid_text(self, y as int),
        {
            for x in 0..self.size
                invariant
                    self.wf(),
                    y < self.spec_size(),
                    out@ == grid_text(self, y as int) + grid_row(self, y as int, x as int),
            {
                out.append(digit_str(self.square(x, y)));
                proof {
                    assert(out@ =~= grid_text(self, y as int) + grid_row(
                        self,
                        y as int,
                        x as int + 1,
                    ));
                }
            }
            out.append("\n");
            proof {
                assert(out@ =~= grid_text(self, y as int + 1));
            }
        }
        out
    }
}

/// The digit the save format shows for a cell: its value plus 1 when it is
/// resolved, 0 when it is still open.
pub open spec fn id_value(m: u32) -> int {
    if resolved(m) {
        value_of(m) + 1
    } else {
        0
    }
}

/// The adjacency letters of one cell, in the fixed order U, D, L, R,
/// followed by the cell separator.
pub open spec fn id_flags(a: Adjacency) -> Seq<char> {
    (if a.above {
        "U"@
    } else {
        Seq::empty()
    }) + (if a.below {
        "D"@
    } else {
        Seq::empty()
    }) + (if a.left {
        "L"@
    } else {
        Seq::empty()
    }) + (if a.right {
        "R"@
    } else {
        Seq::empty()
    }) + ","@
}

/// The first `x` cells of row `y` of the puzzle description.
pub open spec fn id_row(p: &UnequalLatinSquare, y: int, x: int) -> Seq<char>
    decreases x,
{
    if x <= 0 {
        Seq::empty()
    } else {
        id_row(p, y, x - 1) + digit_seq(id_value(p.mask(x - 1, y))) + id_flags(p.adj_at(x - 1, y))
    }
}

/// The first `y` rows of the puzzle description.
pub open spec fn id_text(p: &UnequalLatinSquare, y: int) -> Seq<char>
    decreases y,
{
    if y <= 0 {
        Seq::empty()
    } else {
        id_text(p, y - 1) + id_row(p, y - 1, p.n())
    }
}

/// Appends the adjacency letters of one cell and the cell separator.
fn append_flags(out: &mut String, adj: Adjacency)
    ensures
        final(out)@ == old(out)@ + id_flags(adj),
{
    let ghost start = out@;
    if adj.above {
        out.append("U");
    }
    if adj.below {
        out.append("D");
    }
    if adj.left {
        out.append("L");
    }
    if adj.right {
        out.append("R");
    }
    out.append(",");
    proof {
        assert(out@ =~= start + id_flags(adj));
    }
}

impl UnequalLatinSquare {
    /// The body of the puzzle description: for every cell, its shown digit
    /// and its adjacency letters, separated by commas.
    #[verifier::rlimit(60)]
    pub fn tatham_puzzle_id_base(&self) -> (out: String)
        requires
            self.wf(),
        ensures
            out@ == id_text(self, self.n()),
    {
        let mut out = String::new();
        for y in 0..self.size
            invariant
                self.wf(),
                out@ == id_text(self, y as int),
        {
            for x in 0..self.size
                invariant
                    self.wf(),
                    y < self.spec_size(),
                    out@ == id_text(self, y as int) + id_row(self, y as int, x as int),
            {
                let shown: u8 = match self.square_value(x, y) {
                    Some(v) => v + 1,
                    None => 0,
                };
                out.append(digit_str(shown));
                let adj = self.square_adjacents(x, y);
                append_flags(&mut out, adj);
                proof {
                    assert(out@ =~= id_text(self, y as int) + id_row(self, y as int, x as int + 1));
                }
            }
            proof {
                assert(out@ =~= id_text(self, y as int + 1));
            }
        }
        out
    }

    /// The full puzzle id: the size, the letter `a` for the adjacent-clues
    /// variant, a colon, and the description body.
    pub fn tatham_puzzle_id(&self) -> (out: String)
        requires
            self.wf(),
        ensures
            out@ == dec_digits(self.n()) + "a:"@ + id_text(self, self.n()),
    {
        let mut out = String::new();
        append_dec(&mut out, self.size as usize);
        out.append("a:");
        let base = self.tatham_puzzle_id_base();
        out.append(base.as_str());
        proof {
            assert(out@ =~= dec_digits(self.n()) + "a:"@ + id_text(self, self.n()));
        }
        out
    }
}

/// One line of the save file: a name padded to eight characters, the
/// length of the value, and the value.
pub open spec fn save_line(name8: Seq<char>, value: Seq<char>) -> Seq<char> {
    name8 + ":"@ + dec_digits(value.len() as int) + ":"@ + value + "\n"@
}

/// The move line that reports one still-possible value of one cell.
pub open spec fn move_line(x: int, y: int, v: u8) -> Seq<char> {
    save_line("MOVE    "@, "P"@ + dec_digits(x) + ","@ + dec_digits(y) + ","@ + digit_seq(v + 1))
}

/// The move lines of the first `k` candidates of the cell at `(x, y)`.
pub open spec fn moves_of(vals: Seq<u8>, x: int, y: int, k: int) -> Seq<char>
    decreases k,
{
    if k <= 0 {
        Seq::empty()
    } else {
        moves_of(vals, x, y, k - 1) + move_line(x, y, vals[k - 1])
    }
}

/// The move lines of one cell: one per candidate, and none when the cell
/// is already down to at most one candidate.
pub open spec fn cell_moves(p: &UnequalLatinSquare, x: int, y: int) -> Seq<char> {
    let vals = mask_seq(p.mask(x, y), 32);
    if vals.len() > 1 {
        moves_of(vals, x, y, vals.len() as int)
    } else {
        Seq::empty()
    }
}

/// The move lines of the first `y` cells of column `x`.
pub open spec fn moves_col(p: &UnequalLatinSquare, x: int, y: int) -> Seq<char>
    decreases y,
{
    if y <= 0 {
        Seq::empty()
    } else {
        moves_col(p, x, y - 1) + cell_moves(p, x, y - 1)
    }
}

/// The move lines of the first `x` columns.
pub open spec fn moves_text(p: &UnequalLatinSquare, x: int) -> Seq<char>
    decreases x,
{
    if x <= 0 {
        Seq::empty()
    } else {
        moves_text(p, x - 1) + moves_col(p, x - 1, p.n())
    }
}

/// How many move lines the first `y` cells of column `x` contribute.
pub open spec fn count_col(p: &UnequalLatinSquare, x: int, y: int) -> int
    decreases y,
{
    if y <= 0 {
        0
    } else {
        count_col(p, x, y - 1) + if card(p.mask(x, y - 1)) > 1 {
            card(p.mask(x, y - 1)) as int
        } else {
            0
        }
    }
}

/// How many move lines the first `x` columns contribute.
pub open spec fn count_text(p: &UnequalLatinSquare, x: int) -> int
    decreases x,
{
    if x <= 0 {
        0
    } else {
        count_text(p, x - 1) + count_col(p, x - 1, p.n())
    }
}

/// The whole save file: the fixed header, the parameters, the puzzle
/// description, the state counters, and the move lines (two fixed ones the
/// loader expects, then one per still-open candidate).
pub open spec fn save_text(p: &UnequalLatinSquare) -> Seq<char> {
    let params = dec_digits(p.n()) + "adk"@;
    let f1 = save_line("MOVE    "@, "F1,1,2048"@);
    let count = 2 + count_text(p, p.n());
    "SAVEFILE:41:Simon Tatham's Portable Puzzle Collection\n"@ + "VERSION :1:1\n"@
        + "GAME    :7:Unequal\n"@ + save_line("PARAMS  "@, params) + save_line("CPARAMS "@, params)
        + save_line("DESC    "@, id_text(p, p.n())) + save_line(
        "NSTATES "@,
        dec_digits(count),
    ) + save_line("STATEPOS"@, dec_digits(count)) + f1 + f1 + moves_text(p, p.n())
}

/// A column contributes at most 32 move lines per cell.
proof fn lemma_count_col_bound(p: &UnequalLatinSquare, x: int, y: int)
    ensures
        0 <= count_col(p, x, y) <= 32 * y || y < 0,
    decreases y,
{
    if y > 0 {
        lemma_count_col_bound(p, x, y - 1);
        crate::bits::lemma_pop_le(p.mask(x, y - 1), 32);
    }
}

/// The whole grid contributes at most 32 move lines per cell.
proof fn lemma_count_text_bound(p: &UnequalLatinSquare, x: int)
    requires
        0 <= p.n() <= 9,
    ensures
        0 <= count_text(p, x) <= 288 * x || x < 0,
    decreases x,
{
    if x > 0 {
        lemma_count_text_bound(p, x - 1);
        lemma_count_col_bound(p, x - 1, p.n());
    }
}

/// Appends one line of the save file.
fn append_save_line(out: &mut String, name8: &str, value: &str)
    ensures
        final(out)@ == old(out)@ + save_line(name8@, value@),
{
    let ghost start = out@;
    out.append(name8);
    out.append(":");
    append_dec(out, value.unicode_len());
    out.append(":");
    out.append(value);
    out.append("\n");
    proof {
        assert(out@ =~= start + save_line(name8@, value@));
    }
}

impl UnequalLatinSquare {
    /// The puzzle as a save file that Simon Tatham's puzzle collection
    /// loads: header, parameters, description and one move per candidate
    /// still open.
    #[verifier::rlimit(100)]
    pub fn to_tatham_save(&self) -> (out: String)
        requires
            self.wf(),
        ensures
            out@ == save_text(self),
    {
        let mut out = String::new();
        out.append("SAVEFILE:41:Simon Tatham's Portable Puzzle Collection\n");
        out.append("VERSION :1:1\n");
        out.append("GAME    :7:Unequal\n");
        let mut params = String::new();
        append_dec(&mut params, self.size as usize);
        params.append("adk");
        append_save_line(&mut out, "PARAMS  ", params.as_str());
        append_save_line(&mut out, "CPARAMS ", params.as_str());
        let desc = self.tatham_puzzle_id_base();
        append_save_line(&mut out, "DESC    ", desc.as_str());

        let mut moves = String::new();
        append_save_line(&mut moves, "MOVE    ", "F1,1,2048");
        append_save_line(&mut moves, "MOVE    ", "F1,1,2048");
        let ghost f1f1 = save_line("MOVE    "@, "F1,1,2048"@) + save_line(
            "MOVE    "@,
            "F1,1,2048"@,
        );
        let mut move_count: usize = 2;
        for x in 0..self.size
            invariant
                self.wf(),
                f1f1 == save_line("MOVE    "@, "F1,1,2048"@) + save_line("MOVE    "@, "F1,1,2048"@),
                moves@ == f1f1 + moves_text(self, x as int),
                move_count == 2 + count_text(self, x as int),
        {
            for y in 0..self.size
                invariant
                    self.wf(),
                    x < self.spec_size(),
                    f1f1 == save_line("MOVE    "@, "F1,1,2048"@) + save_line(
                        "MOVE    "@,
                        "F1,1,2048"@,
                    ),
                    moves@ == f1f1 + moves_text(self, x as int) + moves_col(
                        self,
                        x as int,
                        y as int,
                    ),
                    move_count == 2 + count_text(self, x as int) + count_col(
                        self,
                        x as int,
                        y as int,
                    ),
            {
                let poss = self.square_possible(x, y);
                proof {
                    lemma_count_text_bound(self, x as int);
                    lemma_count_col_bound(self, x as int, y as int);
                    assert forall|j: int| 0 <= j < poss@.len() implies (#[trigger] poss@[j])
                        <= 8 by {
                        crate::latin::grid_index_bounds(self.n(), x as int, y as int);
                        if poss@[j] >= self.spec_size() {
                            crate::bits::lemma_bit_bound(
                                self.mask(x as int, y as int),
                                self.size as u32,
                                poss@[j] as u32,
                            );
                        }
                    }
                }
                if poss.len() > 1 {
                    let ghost col_start = moves@;
                    let ghost count_start: int = move_count as int;
                    proof {
                        assert(moves@ =~= col_start + moves_of(poss@, x as int, y as int, 0));
                        crate::bits::lemma_pop_le(self.mask(x as int, y as int), 32);
                        assert(count_col(self, x as int, y as int) <= 32 * (y as int));
                        assert(count_text(self, x as int) <= 288 * (x as int));
                        assert(count_start <= 10000);
                    }
                    for i in 0..poss.len()
                        invariant
                            forall|j: int| 0 <= j < poss@.len() ==> (#[trigger] poss@[j]) <= 8,
                            x < 256,
                            y < 256,
                            moves@ == col_start + moves_of(poss@, x as int, y as int, i as int),
                            move_count == count_start + i,
                            count_start <= 10000,
                            poss@.len() <= 32,
                    {
                        let mut mv = String::new();
                        mv.append("P");
                        append_dec(&mut mv, x as usize);
                        mv.append(",");
                        append_dec(&mut mv, y as usize);
                        mv.append(",");
                        mv.append(digit_str(poss[i] + 1));
                        proof {
                            assert(mv@ =~= "P"@ + dec_digits(x as int) + ","@ + dec_digits(
                                y as int,
                            ) + ","@ + digit_seq(poss@[i as int] + 1));
                        }
                        append_save_line(&mut moves, "MOVE    ", mv.as_str());
                        move_count = move_count + 1;
                        proof {
                            assert(moves@ =~= col_start + moves_of(
                                poss@,
                                x as int,
                                y as int,
                                i as int + 1,
                            ));
                        }
                    }
                    proof {
                        crate::latin::grid_index_bounds(self.n(), x as int, y as int);
                        assert(poss@.len() == card(self.mask(x as int, y as int)));
                        assert(moves@ =~= f1f1 + moves_text(self, x as int) + moves_col(
                            self,
                            x as int,
                            y as int + 1,
                        ));
                    }
                } else {
                    proof {
                        assert(cell_moves(self, x as int, y as int) == Seq::<char>::empty());
                        assert(moves@ =~= f1f1 + moves_text(self, x as int) + moves_col(
                            self,
                            x as int,
                            y as int + 1,
                        ));
                    }
                }
            }
            proof {
                assert(moves@ =~= f1f1 + moves_text(self, x as int + 1));
            }
        }
        let mut cnt = String::new();
        append_dec(&mut cnt, move_count);
        append_save_line(&mut out, "NSTATES ", cnt.as_str());
        append_save_line(&mut out, "STATEPOS", cnt.as_str());
        out.append(moves.as_str());
        proof {
            assert(out@ =~= save_text(self));
        }
        out
    }
}

/// `k` dashes.
pub open spec fn dashes(k: int) -> Seq<char>
    decreases k,
{
    if k <= 0 {
        Seq::empty()
    } else {
        dashes(k - 1) + "-"@
    }
}

/// One cell of a board line: its resolved digit or `X`, then a bar where
/// the edge to the right neighbor is marked, a space before any unmarked
/// right neighbor, and nothing at the right border.
pub open spec fn cell_text(p: &UnequalLatinSquare, x: int, y: int) -> Seq<char> {
    (if resolved(p.mask(x, y)) {
        digit_seq(value_of(p.mask(x, y)) + 1)
    } else {
        "X"@
    }) + (if p.adj_at(x, y).right {
        "|"@
    } else if x < p.n() - 1 {
        " "@
    } else {
        Seq::empty()
    })
}

/// The first `x` cells of board line `y`.
pub open spec fn value_row(p: &UnequalLatinSquare, y: int, x: int) -> Seq<char>
    decreases x,
{
    if x <= 0 {
        Seq::empty()
    } else {
        value_row(p, y, x - 1) + cell_text(p, x - 1, y)
    }
}

/// One cell of a separator line: a dash where the edge to the cell below
/// is marked, plus the column spacer.
pub open spec fn sep_text(p: &UnequalLatinSquare, x: int, y: int) -> Seq<char> {
    (if p.adj_at(x, y).below {
        "-"@
    } else {
        " "@
    }) + (if x < p.n() - 1 {
        " "@
    } else {
        Seq::empty()
    })
}

/// The first `x` cells of separator line `y`.
pub open spec fn sep_row(p: &UnequalLatinSquare, y: int, x: int) -> Seq<char>
    decreases x,
{
    if x <= 0 {
        Seq::empty()
    } else {
        sep_row(p, y, x - 1) + sep_text(p, x - 1, y)
    }
}

/// The first `y` rows of the boxed board: each value line between bars,
/// followed by a separator line everywhere but after the last row.
pub open spec fn board_rows(p: &UnequalLatinSquare, y: int) -> Seq<char>
    decreases y,
{
    if y <= 0 {
        Seq::empty()
    } else {
        board_rows(p, y - 1) + "|"@ + value_row(p, y - 1, p.n()) + "|\n"@ + (if y - 1 < p.n()
            - 1 {
            "|"@ + sep_row(p, y - 1, p.n()) + "|\n"@
        } else {
            Seq::empty()
        })
    }
}

/// The candidates of one cell, shifted up by 1, separated by commas.
pub open spec fn poss_items(vals: Seq<u8>, k: int) -> Seq<char>
    decreases k,
{
    if k <= 0 {
        Seq::empty()
    } else if k == 1 {
        digit_seq(vals[0] + 1)
    } else {
        poss_items(vals, k - 1) + ", "@ + digit_seq(vals[k - 1] + 1)
    }
}

/// The candidate report of one cell.
pub open spec fn poss_line(p: &UnequalLatinSquare, x: int, y: int) -> Seq<char> {
    let vals = mask_seq(p.mask(x, y), 32);
    dec_digits(x) + ","@ + dec_digits(y) + " possible values: ["@ + poss_items(
        vals,
        vals.len() as int,
    ) + "]\n"@
}

/// The candidate reports of the first `x` cells of row `y`.
pub open spec fn poss_row(p: &UnequalLatinSquare, y: int, x: int) -> Seq<char>
    decreases x,
{
    if x <= 0 {
        Seq::empty()
    } else {
        poss_row(p, y, x - 1) + poss_line(p, x - 1, y)
    }
}

/// The candidate reports of the first `y` rows, a blank line after each row.
pub open spec fn poss_text(p: &UnequalLatinSquare, y: int) -> Seq<char>
    decreases y,
{
    if y <= 0 {
        Seq::empty()
    } else {
        poss_text(p, y - 1) + poss_row(p, y - 1, p.n()) + "\n"@
    }
}

/// The whole pretty print: the boxed board between dashed borders, then
/// the per-cell candidate reports.
pub open spec fn pp_text(p: &UnequalLatinSquare) -> Seq<char> {
    "/"@ + dashes(2 * p.n() - 1) + "\\\n"@ + board_rows(p, p.n()) + "\\"@ + dashes(2 * p.n() - 1)
        + "/\n\n"@ + poss_text(p, p.n())
}

/// Appends `k` dashes.
fn append_dashes(out: &mut String, k: u8)
    ensures
        final(out)@ == old(out)@ + dashes(k as int),
{
    let ghost start = out@;
    for i in 0..k
        invariant
            out@ == start + dashes(i as int),
    {
        out.append("-");
        proof {
            assert(out@ =~= start + dashes(i as int + 1));
        }
    }
}

/// Appends the candidate list of one cell, bracketed and comma-separated.
fn append_poss_items(out: &mut String, poss: &Vec<u8>)
    requires
        forall|i: int| 0 <= i < poss@.len() ==> (#[trigger] poss@[i]) <= 8,
    ensures
        final(out)@ == old(out)@ + poss_items(poss@, poss@.len() as int),
{
    let ghost start = out@;
    for i in 0..poss.len()
        invariant
            forall|j: int| 0 <= j < poss@.len() ==> (#[trigger] poss@[j]) <= 8,
            out@ == start + poss_items(poss@, i as int),
    {
        if i > 0 {
            out.append(", ");
        }
        out.append(digit_str(poss[i] + 1));
        proof {
            assert(out@ =~= start + poss_items(poss@, i as int + 1));
        }
    }
}

impl UnequalLatinSquare {
    /// The puzzle as text: the boxed board with resolved digits, `X` for
    /// open cells and the marked edges drawn, followed by every cell's
    /// remaining candidates.
    #[verifier::rlimit(60)]
    pub fn pprint(&self) -> (out: String)
        requires
            self.wf(),
        ensures
            out@ == pp_text(self),
    {
        let mut out = String::new();
        out.append("/");
        append_dashes(&mut out, 2 * self.size - 1);
        out.append("\\\n");
        let ghost head = "/"@ + dashes(2 * self.n() - 1) + "\\\n"@;
        proof {
            assert(out@ =~= head);
        }
        for y in 0..self.size
            invariant
                self.wf(),
                head == "/"@ + dashes(2 * self.n() - 1) + "\\\n"@,
                out@ == head + board_rows(self, y as int),
        {
            out.append("|");
            for x in 0..self.size
                invariant
                    self.wf(),
                    y < self.spec_size(),
                    out@ == head + board_rows(self, y as int) + "|"@ + value_row(
                        self,
                        y as int,
                        x as int,
                    ),
            {
                match self.square_value(x, y) {
                    Some(v) => out.append(digit_str(v + 1)),
                    None => out.append("X"),
                };
                let adj = self.square_adjacents(x, y);
                if adj.right {
                    out.append("|");
                } else if x < self.size - 1 {
                    out.append(" ");
                }
                proof {
                    assert(out@ =~= head + board_rows(self, y as int) + "|"@ + value_row(
                        self,
                        y as int,
                        x as int + 1,
                    ));
                }
            }
            out.append("|\n");
            if y < self.size - 1 {
                out.append("|");
                for x in 0..self.size
                    invariant
                        self.wf(),
                        y < self.spec_size(),
                        out@ == head + board_rows(self, y as int) + "|"@ + value_row(
                            self,
                            y as int,
                            self.n(),
                        ) + "|\n"@ + "|"@ + sep_row(self, y as int, x as int),
                {
                    if self.square_adjacents(x, y).below {
                        out.append("-");
                    } else {
                        out.append(" ");
                    }
                    if x < self.size - 1 {
                        out.append(" ");
                    }
                    proof {
                        assert(out@ =~= head + board_rows(self, y as int) + "|"@ + value_row(
                            self,
                            y as int,
                            self.n(),
                        ) + "|\n"@ + "|"@ + sep_row(self, y as int, x as int + 1));
                    }
                }
                out.append("|\n");
            }
            proof {
                assert(out@ =~= head + board_rows(self, y as int + 1));
            }
        }
        out.append("\\");
        append_dashes(&mut out, 2 * self.size - 1);
        out.append("/\n\n");
        let ghost mid = head + board_rows(self, self.n()) + "\\"@ + dashes(2 * self.n() - 1)
            + "/\n\n"@;
        proof {
            assert(out@ =~= mid);
        }
        for y in 0..self.size
            invariant
                self.wf(),
                mid == head + board_rows(self, self.n()) + "\\"@ + dashes(2 * self.n() - 1)
                    + "/\n\n"@,
                out@ == mid + poss_text(self, y as int),
        {
            for x in 0..self.size
                invariant
                    self.wf(),
                    y < self.spec_size(),
                    out@ == mid + poss_text(self, y as int) + poss_row(self, y as int, x as int),
            {
                append_dec(&mut out, x as usize);
                out.append(",");
                append_dec(&mut out, y as usize);
                out.append(" possible values: [");
                let poss = self.square_possible(x, y);
                proof {
                    assert forall|j: int| 0 <= j < poss@.len() implies (#[trigger] poss@[j])
                        <= 8 by {
                        crate::latin::grid_index_bounds(self.n(), x as int, y as int);
                        if poss@[j] >= self.spec_size() {
                            crate::bits::lemma_bit_bound(
                                self.mask(x as int, y as int),
                                self.size as u32,
                                poss@[j] as u32,
                            );
                        }
                    }
                }
                append_poss_items(&mut out, &poss);
                out.append("]\n");
                proof {
                    assert(out@ =~= mid + poss_text(self, y as int) + poss_row(
                        self,
                        y as int,
                        x as int + 1,
                    ));
                }
            }
            out.append("\n");
            proof {
                assert(out@ =~= mid + poss_text(self, y as int + 1));
            }
        }
        proof {
            assert(out@ =~= pp_text(self));
        }
        out
    }
}

} // verus!
