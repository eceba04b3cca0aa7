//! The board as text.

use vstd::prelude::*;
use vstd::string::StringExecFns;
use crate::rules::{Grid, BLACK, WHITE};
use crate::table_state::Table;

verus! {

/// The text of one cell: its value as a decimal number.
pub open spec fn cell_text(v: i32) -> Seq<char> {
    if v == BLACK {
        seq!['1']
    } else if v == WHITE {
        seq!['-', '1']
    } else {
        seq!['0']
    }
}

/// The texts of the first `n` cells of `row`, with a comma and a space
/// between two of them.
pub open spec fn cells_text(row: Seq<i32>, n: nat) -> Seq<char>
    decreases n,
{
    if n == 0 {
        Seq::empty()
    } else if n == 1 {
        cell_text(row[0])
    } else {
        cells_text(row, (n - 1) as nat) + seq![',', ' '] + cell_text(row[n - 1])
    }
}

/// The text of a row: its cells between square brackets.
pub open spec fn row_text(row: Seq<i32>) -> Seq<char> {
    seq!['['] + cells_text(row, 8) + seq![']']
}

/// The texts of the first `n` rows of `g`, with a comma and a space
/// between two of them.
pub open spec fn rows_text(g: Grid, n: nat) -> Seq<char>
    decreases n,
{
    if n == 0 {
        Seq::empty()
    } else if n == 1 {
        row_text(g[0])
    } else {
        rows_text(g, (n - 1) as nat) + seq![',', ' '] + row_text(g[n - 1])
    }
}

/// The text of a grid: its rows between square brackets, as a list of
/// lists of numbers is commonly written.
pub open spec fn grid_text(g: Grid) -> Seq<char> {
    seq!['['] + rows_text(g, 8) + seq![']']
}

impl Table {
    /// The grid as text, such as `[[0, 0, 1, ...], ...]`.
    pub fn to_string(&self) -> (text: String)
        ensures
            text@ == grid_text(self.grid()),
    {
        proof {
            reveal_strlit("[");
            reveal_strlit("]");
            reveal_strlit(", ");
            reveal_strlit("0");
            reveal_strlit("1");
            reveal_strlit("-1");
        }
        let ghost g = self.grid();
        let mut text = String::new();
        text.append("[");
        let mut r: usize = 0;
        while r < 8
            invariant
                r <= 8,
                g == self.grid(),
                "["@ == seq!['['],
                "]"@ == seq![']'],
                ", "@ == seq![',', ' '],
                "0"@ == seq!['0'],
                "1"@ == seq!['1'],
                "-1"@ == seq!['-', '1'],
                text@ == seq!['['] + rows_text(g, r as nat),
            decreases 8 - r,
        {
            let ghost before = text@;
            if r > 0 {
                text.append(", ");
            }
            text.append("[");
            let ghost opened = text@;
            let mut c: usize = 0;
            while c < 8
                invariant
                    c <= 8,
                    r < 8,
                    g == self.grid(),
                    ", "@ == seq![',', ' '],
                    "0"@ == seq!['0'],
                    "1"@ == seq!['1'],
                    "-1"@ == seq!['-', '1'],
                    text@ == opened + cells_text(g[r as int], c as nat),
                decreases 8 - c,
            {
                if c > 0 {
                    text.append(", ");
                }
                let v = self.cell(r, c);
                if v == BLACK {
                    text.append("1");
                } else if v == WHITE {
                    text.append("-1");
                } else {
                    text.append("0");
                }
                c += 1;
                assert(text@ =~= opened + cells_text(g[r as int], c as nat));
            }
            text.append("]");
            r += 1;
            assert(text@ =~= seq!['['] + rows_text(g, r as nat));
        }
        text.append("]");
        text
    }
}

} // verus!
