//! Text frame of the terminal bar chart.
//!
//! Each band is drawn as a column of blocks that grows from the bottom row.
//! The caller hands over, per band, the number of rows that the band's level
//! reaches (the smallest integer not below the scaled and clamped level); the
//! bottom row of every band is always drawn.
use vstd::prelude::*;

verus! {

/// The escape sequence that clears the screen and moves the cursor home.
pub open spec fn clear_screen() -> Seq<char> {
    seq!['\x1b', '[', '2', 'J', '\x1b', '[', 'H']
}

/// Whether the cell of a band that reaches `level` rows is drawn at `row`
/// (row 0 is the bottom row).
pub open spec fn cell_visible(level: nat, row: nat) -> bool {
    row == 0 || row < level
}

/// The two characters of one cell.
pub open spec fn cell_text(level: nat, row: nat) -> Seq<char> {
    if cell_visible(level, row) {
        seq!['█', ' ']
    } else {
        seq![' ', ' ']
    }
}

/// The cells of one row, band by band, without the line break.
pub open spec fn row_cells(cells: Seq<usize>, row: nat) -> Seq<char>
    decreases cells.len(),
{
    if cells.len() == 0 {
        Seq::empty()
    } else {
        row_cells(cells.drop_last(), row) + cell_text(cells.last() as nat, row)
    }
}

/// One printed line: the row's cells and a line break.
pub open spec fn row_line(cells: Seq<usize>, row: nat) -> Seq<char> {
    row_cells(cells, row).push('\n')
}

/// The first `done` lines of a chart of `height` rows, top row first.
pub open spec fn top_lines(cells: Seq<usize>, height: nat, done: nat) -> Seq<char>
    decreases done,
{
    if done == 0 {
        Seq::empty()
    } else {
        top_lines(cells, height, (done - 1) as nat) + row_line(cells, (height - done) as nat)
    }
}

/// The whole frame: clear the screen, then every row from the top down.
pub open spec fn frame_text(cells: Seq<usize>, height: nat) -> Seq<char> {
    clear_screen() + top_lines(cells, height, height)
}

/// Width of one printed line of a chart of `bands` bands, line break included.
pub open spec fn line_width(bands: nat) -> nat {
    2 * bands + 1
}

/// Position in the frame of the block character of `band` at `row`.
pub open spec fn cell_index(bands: nat, height: nat, row: nat, band: nat) -> int {
    7 + (height - 1 - row) * line_width(bands) + 2 * band
}

proof fn lemma_row_cells(cells: Seq<usize>, row: nat)
    ensures
        row_cells(cells, row).len() == 2 * cells.len(),
        forall|b: int|
            0 <= b < cells.len() ==> {
                &&& #[trigger] row_cells(cells, row)[2 * b] == cell_text(cells[b] as nat, row)[0]
                &&& row_cells(cells, row)[2 * b + 1] == ' '
            },
    decreases cells.len(),
{
    if cells.len() > 0 {
        lemma_row_cells(cells.drop_last(), row);
        let prev = row_cells(cells.drop_last(), row);
        assert forall|b: int| 0 <= b < cells.len() implies {
            &&& #[trigger] row_cells(cells, row)[2 * b] == cell_text(cells[b] as nat, row)[0]
            &&& row_cells(cells, row)[2 * b + 1] == ' '
        } by {
            if b < cells.len() - 1 {
                assert(cells.drop_last()[b] == cells[b]);
                assert(prev[2 * b] == cell_text(cells.drop_last()[b] as nat, row)[0]);
            }
        }
    }
}

proof fn lemma_top_lines(cells: Seq<usize>, height: nat, done: nat)
    ensures
        top_lines(cells, height, done).len() == done * line_width(cells.len()),
        forall|t: int, k: int|
            0 <= t < done && 0 <= k < line_width(cells.len()) ==> #[trigger] top_lines(
                cells,
                height,
                done,
            )[t * line_width(cells.len()) + k] == #[trigger] row_line(
                cells,
                (height - 1 - t) as nat,
            )[k],
    decreases done,
{
    let w = line_width(cells.len());
    if done > 0 {
        let d1 = (done - 1) as nat;
        lemma_top_lines(cells, height, d1);
        lemma_row_cells(cells, (height - done) as nat);
        assert(done * w == d1 * w + w) by (nonlinear_arith)
            requires
                done == d1 + 1,
        ;
        assert forall|t: int, k: int| 0 <= t < done && 0 <= k < w implies #[trigger] top_lines(
            cells,
            height,
            done,
        )[t * w + k] == #[trigger] row_line(cells, (height - 1 - t) as nat)[k] by {
            if t < d1 {
                assert(t * w + k < d1 * w) by (nonlinear_arith)
                    requires
                        0 <= t < d1,
                        0 <= k < w,
                ;
                assert(0 <= t * w) by (nonlinear_arith)
                    requires
                        0 <= t,
                        0 <= w,
                ;
            } else {
                assert(t * w == d1 * w);
            }
        }
    }
}

/// A frame is the clearing sequence followed by `height` lines of
/// `2 * bands + 1` characters each.
pub proof fn lemma_frame_len(cells: Seq<usize>, height: nat)
    ensures
        frame_text(cells, height).len() == 7 + height * line_width(cells.len()),
        line_width(cells.len()) == 2 * cells.len() + 1,
{
    lemma_top_lines(cells, height, height);
}

/// Every cell of a frame is a block when the band reaches past the row (or
/// the row is the bottom one) and blank otherwise, followed by a space; every
/// line ends in a line break.
pub proof fn lemma_frame_cell(cells: Seq<usize>, height: nat, row: nat, band: nat)
    requires
        row < height,
        band < cells.len(),
    ensures
        cell_index(cells.len(), height, row, band) == 7 + (height - 1 - row) * (2 * cells.len()
            + 1) + 2 * band,
        frame_text(cells, height)[cell_index(cells.len(), height, row, band)] == (if row == 0 || row
            < cells[band as int] {
            '█'
        } else {
            ' '
        }),
        frame_text(cells, height)[cell_index(cells.len(), height, row, band) + 1] == ' ',
        frame_text(cells, height)[7 + (height - 1 - row) * line_width(cells.len()) + 2
            * cells.len()] == '\n',
{
    let w = line_width(cells.len());
    let t = (height - 1 - row) as int;
    lemma_top_lines(cells, height, height);
    lemma_row_cells(cells, row);
    let lines = top_lines(cells, height, height);
    assert(lines[t * w + 2 * band] == row_line(cells, (height - 1 - t) as nat)[2 * band as int]);
    assert(lines[t * w + (2 * band + 1)] == row_line(cells, (height - 1 - t) as nat)[2 * band + 1int]);
    assert(lines[t * w + 2 * cells.len()] == row_line(cells, (height - 1 - t) as nat)[2
        * cells.len() as int]);
    assert(0 <= t * w) by (nonlinear_arith)
        requires
            0 <= t,
            0 <= w,
    ;
    assert(t * w + w <= height * w) by (nonlinear_arith)
        requires
            0 <= t < height,
            0 <= w,
    ;
    lemma_frame_len(cells, height);
}

/// The bottom row of every band is always drawn.
pub proof fn lemma_bottom_row_drawn(cells: Seq<usize>, height: nat, band: nat)
    requires
        0 < height,
        band < cells.len(),
    ensures
        frame_text(cells, height)[cell_index(cells.len(), height, 0, band)] == '█',
{
    lemma_frame_cell(cells, height, 0, band);
}

/// A band is drawn as one solid column: where a row of it holds a block, every
/// row below holds one too.
pub proof fn lemma_column_solid(cells: Seq<usize>, height: nat, band: nat, row: nat, lower: nat)
    requires
        lower <= row < height,
        band < cells.len(),
        frame_text(cells, height)[cell_index(cells.len(), height, row, band)] == '█',
    ensures
        frame_text(cells, height)[cell_index(cells.len(), height, lower, band)] == '█',
{
    lemma_frame_cell(cells, height, row, band);
    lemma_frame_cell(cells, height, lower, band);
}

/// Draws bar charts of a fixed number of rows.
pub struct TerminalRenderer {
    height: usize,
}

impl TerminalRenderer {
    /// The number of rows of the chart.
    pub closed spec fn spec_height(&self) -> nat {
        self.height as nat
    }

    /// A renderer that draws `height` rows.
    pub fn new(height: usize) -> (renderer: Self)
        ensures
            renderer.spec_height() == height,
    {
        TerminalRenderer { height }
    }

    /// The number of rows of the chart.
    pub fn height(&self) -> (h: usize)
        ensures
            h == self.spec_height(),
    {
        self.height
    }

    /// The text of one frame, for bands that reach `cells[i]` rows.
    pub fn render(&self, cells: &Vec<usize>) -> (frame: String)
        ensures
            frame@ == frame_text(cells@, self.spec_height()),
            frame@.len() == 7 + self.spec_height() * line_width(cells@.len()),
            forall|row: nat, band: nat|
                row < self.spec_height() && band < cells@.len() ==> #[trigger] frame@[cell_index(
                    cells@.len(),
                    self.spec_height(),
                    row,
                    band,
                )] == (if row == 0 || row < cells@[band as int] {
                    '█'
                } else {
                    ' '
                }),
    {
        let mut frame = String::new();
        frame.append("\x1b[2J\x1b[H");
        proof {
            reveal_strlit("\x1b[2J\x1b[H");
            assert(frame@ =~= clear_screen() + top_lines(cells@, self.height as nat, 0));
        }
        let mut done: usize = 0;
        while done < self.height
            invariant
                done <= self.height,
                frame@ == clear_screen() + top_lines(cells@, self.height as nat, done as nat),
            decreases self.height - done,
        {
            let row: usize = self.height - 1 - done;
            let line = render_row(cells, row);
            frame.append(line.as_str());
            done = done + 1;
            proof {
                assert(frame@ =~= clear_screen() + top_lines(cells@, self.height as nat, done as nat));
            }
        }
        proof {
            lemma_frame_len(cells@, self.height as nat);
            assert forall|row: nat, band: nat|
                row < self.height && band < cells@.len() implies #[trigger] frame@[cell_index(
                cells@.len(),
                self.height as nat,
                row,
                band,
            )] == (if row == 0 || row < cells@[band as int] {
                '█'
            } else {
                ' '
            }) by {
                lemma_frame_cell(cells@, self.height as nat, row, band);
            }
        }
        frame
    }
}

/// The text of one row of the chart, line break included.
fn render_row(cells: &Vec<usize>, row: usize) -> (line: String)
    ensures
        line@ == row_line(cells@, row as nat),
{
    let mut line = String::new();
    let mut i: usize = 0;
    while i < cells.len()
        invariant
            i <= cells.len(),
            line@ == row_cells(cells@.take(i as int), row as nat),
        decreases cells.len() - i,
    {
        proof {
            assert(cells@.take(i + 1).drop_last() =~= cells@.take(i as int));
        }
        if row == 0 || row < cells[i] {
            line.append("█ ");
            proof {
                reveal_strlit("█ ");
            }
        } else {
            line.append("  ");
            proof {
                reveal_strlit("  ");
            }
        }
        i = i + 1;
    }
    proof {
        assert(cells@.take(cells.len() as int) =~= cells@);
    }
    line.append("\n");
    proof {
        reveal_strlit("\n");
    }
    line
}

} // verus!
