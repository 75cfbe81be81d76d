//! Ruled-table output: the recovered grid of cell text.
//!
//! A [`Table`] is a grid of cell text in `[row][col]` order (top-to-bottom,
//! left-to-right). Text placed into a cell is appended with [`append_cell`],
//! which keeps the pieces separated by single spaces.

use vstd::prelude::*;
use vstd::string::StrSliceExecFns;
use vstd::string::StringExecFns;

verus! {

/// A recovered table: a grid of cell text in `[row][col]` order (top-to-bottom,
/// left-to-right).
#[derive(Debug, Clone)]
pub struct Table {
    pub rows: usize,
    pub cols: usize,
    pub cells: Vec<Vec<String>>,
}

/// A cell after appending `text`: a space first when the cell already holds
/// text that does not end in a space.
pub open spec fn append_cell_spec(cell: Seq<char>, text: Seq<char>) -> Seq<char> {
    if cell.len() > 0 && cell.last() != ' ' {
        cell + seq![' '] + text
    } else {
        cell + text
    }
}

/// Append text to a cell, space-separating existing content.
pub fn append_cell(cell: &mut String, text: &str)
    ensures
        final(cell)@ == append_cell_spec(old(cell)@, text@),
{
    let n = cell.as_str().unicode_len();
    if n > 0 && cell.as_str().get_char(n - 1) != ' ' {
        cell.append(" ");
        proof {
            reveal_strlit(" ");
        }
    }
    cell.append(text);
}

} // verus!
