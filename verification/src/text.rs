//! A board as text: one line for each row, one mark for each cell.

use vstd::prelude::*;
use vstd::string::StringExecFns;

verus! {

/// The decimal digit `d` as text.
pub open spec fn digit_text(d: nat) -> Seq<char> {
    if d == 0 {
        "0"@
    } else if d == 1 {
        "1"@
    } else if d == 2 {
        "2"@
    } else if d == 3 {
        "3"@
    } else if d == 4 {
        "4"@
    } else if d == 5 {
        "5"@
    } else if d == 6 {
        "6"@
    } else if d == 7 {
        "7"@
    } else if d == 8 {
        "8"@
    } else {
        "9"@
    }
}

/// The number `n` in decimal digits, without leading zeros.
pub open spec fn decimal(n: nat) -> Seq<char>
    decreases n,
{
    if n < 10 {
        digit_text(n)
    } else {
        decimal(n / 10) + digit_text(n % 10)
    }
}

/// The text of one cell. Plainly, the mark for its liveness and a space;
/// with `dbg`, the mark after `label` and then the column and the row of the
/// cell, all in brackets, and a space.
pub open spec fn cell_text(
    alive: bool,
    x: nat,
    y: nat,
    alive_cell: Seq<char>,
    dead_cell: Seq<char>,
    dbg: bool,
    label: Seq<char>,
) -> Seq<char> {
    let mark = if alive {
        alive_cell
    } else {
        dead_cell
    };
    if dbg {
        "("@ + label + mark + ", "@ + decimal(x) + ", "@ + decimal(y) + ") "@
    } else {
        mark + " "@
    }
}

/// The text of the first `n` cells of row `y`.
pub open spec fn row_text(
    g: Seq<Seq<bool>>,
    y: nat,
    n: nat,
    alive_cell: Seq<char>,
    dead_cell: Seq<char>,
    dbg: bool,
    label: Seq<char>,
) -> Seq<char>
    decreases n,
{
    if n == 0 {
        Seq::empty()
    } else {
        row_text(g, y, (n - 1) as nat, alive_cell, dead_cell, dbg, label) + cell_text(
            g[n - 1][y as int],
            (n - 1) as nat,
            y,
            alive_cell,
            dead_cell,
            dbg,
            label,
        )
    }
}

/// What follows row `y`: a line break, but none after the row whose number
/// is the width of the grid less one. On a square grid that is the last row.
pub open spec fn row_end(g: Seq<Seq<bool>>, y: nat) -> Seq<char> {
    if y == g.len() - 1 {
        Seq::empty()
    } else {
        "\n"@
    }
}

/// The text of the first `n` rows, each followed by its end.
pub open spec fn rows_text(
    g: Seq<Seq<bool>>,
    n: nat,
    alive_cell: Seq<char>,
    dead_cell: Seq<char>,
    dbg: bool,
    label: Seq<char>,
) -> Seq<char>
    decreases n,
{
    if n == 0 {
        Seq::empty()
    } else {
        rows_text(g, (n - 1) as nat, alive_cell, dead_cell, dbg, label) + row_text(
            g,
            (n - 1) as nat,
            g.len(),
            alive_cell,
            dead_cell,
            dbg,
            label,
        ) + row_end(g, (n - 1) as nat)
    }
}

/// The text of a grid, row by row.
pub open spec fn grid_text(
    g: Seq<Seq<bool>>,
    alive_cell: Seq<char>,
    dead_cell: Seq<char>,
    dbg: bool,
    label: Seq<char>,
) -> Seq<char> {
    rows_text(g, g[0].len(), alive_cell, dead_cell, dbg, label)
}

/// The decimal digit `d` as text.
fn digit(d: usize) -> (text: &'static str)
    requires
        d < 10,
    ensures
        text@ == digit_text(d as nat),
{
    match d {
        0 => "0",
        1 => "1",
        2 => "2",
        3 => "3",
        4 => "4",
        5 => "5",
        6 => "6",
        7 => "7",
        8 => "8",
        _ => "9",
    }
}

/// Appends the number `n` in decimal digits.
pub fn push_decimal(text: &mut String, n: usize)
    ensures
        final(text)@ == old(text)@ + decimal(n as nat),
    decreases n,
{
    if n >= 10 {
        push_decimal(text, n / 10);
    }
    text.append(digit(n % 10));
    assert(text@ =~= old(text)@ + decimal(n as nat));
}

/// Appends the text of one cell.
pub fn push_cell(
    text: &mut String,
    alive: bool,
    x: usize,
    y: usize,
    alive_cell: &str,
    dead_cell: &str,
    dbg: bool,
    label: &str,
)
    ensures
        final(text)@ == old(text)@ + cell_text(
            alive,
            x as nat,
            y as nat,
            alive_cell@,
            dead_cell@,
            dbg,
            label@,
        ),
{
    let mark = if alive {
        alive_cell
    } else {
        dead_cell
    };
    if dbg {
        text.append("(");
        text.append(label);
        text.append(mark);
        text.append(", ");
        push_decimal(text, x);
        text.append(", ");
        push_decimal(text, y);
        text.append(") ");
    } else {
        text.append(mark);
        text.append(" ");
    }
    assert(text@ =~= old(text)@ + cell_text(
        alive,
        x as nat,
        y as nat,
        alive_cell@,
        dead_cell@,
        dbg,
        label@,
    ));
}

} // verus!
