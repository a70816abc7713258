//! The report: a boxed table with one row for each extension and a row
//! for the total, and its place on the terminal.

use crate::counts::total_of;
use crate::tally::{lists, row_counts, row_names, ExtensionTally};
use vstd::prelude::*;
use vstd::string::*;

verus! {

/// The width of the column of extensions.
pub const LABEL_WIDTH: usize = 13;

/// The width of the column of counts.
pub const COUNT_WIDTH: usize = 9;

/// A run of `n` spaces.
pub open spec fn spaces(n: nat) -> Seq<char> {
    Seq::new(n, |i: int| ' ')
}

/// `text` with spaces after it, as many as it takes to fill `width`.
pub open spec fn padded_right(text: Seq<char>, width: nat) -> Seq<char> {
    if text.len() < width {
        text + spaces((width - text.len()) as nat)
    } else {
        text
    }
}

/// `text` with spaces before it, as many as it takes to fill `width`.
pub open spec fn padded_left(text: Seq<char>, width: nat) -> Seq<char> {
    if text.len() < width {
        spaces((width - text.len()) as nat) + text
    } else {
        text
    }
}

/// The digit `d` as text.
pub open spec fn digit_text(d: nat) -> Seq<char> {
    if d == 0 {
        "0"@
    } else if d == 1 {
        "1"@
    } else if d == 2 {
        "2"@
    } else if d == 3 {
        "3"@
    } else if d == 4 {
        "4"@
    } else if d == 5 {
        "5"@
    } else if d == 6 {
        "6"@
    } else if d == 7 {
        "7"@
    } else if d == 8 {
        "8"@
    } else {
        "9"@
    }
}

/// The number `n` in decimal digits.
pub open spec fn decimal_text(n: nat) -> Seq<char>
    decreases n,
{
    if n < 10 {
        digit_text(n)
    } else {
        decimal_text(n / 10) + digit_text(n % 10)
    }
}

/// A string of `n` spaces.
pub fn blank(n: usize) -> (text: String)
    ensures
        text@ == spaces(n as nat),
{
    let mut text = String::new();
    let mut i: usize = 0;
    proof {
        reveal_strlit(" ");
        assert(text@ =~= spaces(0));
    }
    while i < n
        invariant
            i <= n,
            text@ == spaces(i as nat),
            " "@.len() == 1,
            " "@[0] == ' ',
        decreases n - i,
    {
        text.append(" ");
        i = i + 1;
        proof {
            assert(text@ =~= spaces(i as nat));
        }
    }
    text
}

/// Fills `text` to `width` with spaces after it.
pub fn pad_right(text: &str, width: usize) -> (padded: String)
    ensures
        padded@ == padded_right(text@, width as nat),
{
    let len = text.unicode_len();
    let mut padded = String::from_str(text);
    if len < width {
        let fill = blank(width - len);
        padded.append(fill.as_str());
    }
    padded
}

/// Fills `text` to `width` with spaces before it.
pub fn pad_left(text: &str, width: usize) -> (padded: String)
    ensures
        padded@ == padded_left(text@, width as nat),
{
    let len = text.unicode_len();
    if len < width {
        let mut padded = blank(width - len);
        padded.append(text);
        padded
    } else {
        String::from_str(text)
    }
}

/// The text of a digit.
fn digit(d: usize) -> (text: &'static str)
    requires
        d < 10,
    ensures
        text@ == digit_text(d as nat),
{
    if d == 0 {
        "0"
    } else if d == 1 {
        "1"
    } else if d == 2 {
        "2"
    } else if d == 3 {
        "3"
    } else if d == 4 {
        "4"
    } else if d == 5 {
        "5"
    } else if d == 6 {
        "6"
    } else if d == 7 {
        "7"
    } else if d == 8 {
        "8"
    } else {
        "9"
    }
}

/// Writes `n` in decimal digits.
pub fn decimal(n: usize) -> (text: String)
    ensures
        text@ == decimal_text(n as nat),
    decreases n,
{
    if n < 10 {
        String::from_str(digit(n))
    } else {
        let mut text = decimal(n / 10);
        text.append(digit(n % 10));
        text
    }
}

/// The row of the table for `label` and `count`.
pub open spec fn row_text(label: Seq<char>, count: nat) -> Seq<char> {
    "║ "@ + padded_right(label, LABEL_WIDTH as nat) + " ║ "@ + padded_left(
        decimal_text(count),
        COUNT_WIDTH as nat,
    ) + " ║"@
}

/// The lines of the table for the rows of `names` and `counts` and the
/// total `total`: an empty line, the title, the upper border, the rows,
/// the row of the total and the lower border.
pub open spec fn table_text(names: Seq<Seq<char>>, counts: Seq<nat>, total: nat) -> Seq<Seq<char>> {
    seq!["\n"@, "BLAZINGLY FAST LINE COUNTER"@, "╔═══════════════════════════╗"@] + Seq::new(
        names.len(),
        |i: int| row_text(names[i], counts[i]),
    ) + seq![row_text("TOTAL"@, total), "╚═══════════════════════════╝"@]
}

/// Whether `lines` is the table of `tally`: the table of its rows, in
/// ascending order of the extensions, and of its total.
pub open spec fn is_table_of(lines: Seq<Seq<char>>, tally: Map<Seq<char>, nat>) -> bool {
    exists|names: Seq<Seq<char>>, counts: Seq<nat>|
        lists(names, counts, tally) && lines == table_text(names, counts, total_of(tally))
}

/// The texts that the strings of `lines` hold.
pub open spec fn texts_of(lines: Seq<String>) -> Seq<Seq<char>> {
    Seq::new(lines.len(), |i: int| lines[i]@)
}

/// Writes the row of the table for `label` and `count`.
pub fn table_row(label: &str, count: usize) -> (row: String)
    ensures
        row@ == row_text(label@, count as nat),
{
    let mut row = String::from_str("║ ");
    row.append(pad_right(label, LABEL_WIDTH).as_str());
    row.append(" ║ ");
    row.append(pad_left(decimal(count).as_str(), COUNT_WIDTH).as_str());
    row.append(" ║");
    row
}

/// Writes the table of `tally`.
pub fn table(tally: &ExtensionTally) -> (lines: Vec<String>)
    ensures
        is_table_of(texts_of(lines@), tally@),
{
    let rows = tally.rows();
    let total = tally.total();
    let ghost names = row_names(rows@);
    let ghost counts = row_counts(rows@);
    let mut lines: Vec<String> = Vec::new();
    lines.push(String::from_str("\n"));
    lines.push(String::from_str("BLAZINGLY FAST LINE COUNTER"));
    lines.push(String::from_str("╔═══════════════════════════╗"));
    let mut i: usize = 0;
    while i < rows.len()
        invariant
            i <= rows@.len(),
            names == row_names(rows@),
            counts == row_counts(rows@),
            texts_of(lines@) == seq![
                "\n"@,
                "BLAZINGLY FAST LINE COUNTER"@,
                "╔═══════════════════════════╗"@,
            ] + Seq::new(i as nat, |k: int| row_text(names[k], counts[k])),
        decreases rows@.len() - i,
    {
        let ghost before = texts_of(lines@);
        lines.push(table_row(rows[i].0.as_str(), rows[i].1));
        i = i + 1;
        proof {
            assert(texts_of(lines@) =~= before.push(row_text(names[i - 1], counts[i - 1])));
            assert(texts_of(lines@) =~= seq![
                "\n"@,
                "BLAZINGLY FAST LINE COUNTER"@,
                "╔═══════════════════════════╗"@,
            ] + Seq::new(i as nat, |k: int| row_text(names[k], counts[k])));
        }
    }
    let ghost before = texts_of(lines@);
    lines.push(table_row("TOTAL", total));
    lines.push(String::from_str("╚═══════════════════════════╝"));
    proof {
        assert(texts_of(lines@) =~= before.push(row_text("TOTAL"@, total as nat)).push(
            "╚═══════════════════════════╝"@,
        ));
        assert(texts_of(lines@) =~= table_text(names, counts, total_of(tally@)));
    }
    lines
}

/// The length of the longest of `lines`, in characters.
pub open spec fn widest_of(lines: Seq<Seq<char>>) -> nat
    decreases lines.len(),
{
    if lines.len() == 0 {
        0
    } else if lines.last().len() > widest_of(lines.drop_last()) {
        lines.last().len()
    } else {
        widest_of(lines.drop_last())
    }
}

/// The number of spaces to put before lines of at most `widest`
/// characters to centre them on a terminal of the width `width`: half of
/// what the terminal has left, rounded down. Where the width is unknown
/// the lines stay at the left.
pub open spec fn margin_for(width: Option<usize>, widest: nat) -> nat {
    match width {
        Some(columns) => if columns > widest {
            ((columns - widest) / 2) as nat
        } else {
            0
        },
        None => 0,
    }
}

/// `lines`, each after a margin of `margin` spaces.
pub open spec fn placed(lines: Seq<Seq<char>>, margin: nat) -> Seq<Seq<char>> {
    Seq::new(lines.len(), |i: int| spaces(margin) + lines[i])
}

/// Finds the length of the longest of `lines`, in characters.
pub fn widest(lines: &Vec<String>) -> (width: usize)
    ensures
        width == widest_of(texts_of(lines@)),
{
    let ghost texts = texts_of(lines@);
    let mut width: usize = 0;
    let mut i: usize = 0;
    proof {
        assert(texts.take(0) =~= Seq::<Seq<char>>::empty());
    }
    while i < lines.len()
        invariant
            i <= lines@.len(),
            texts == texts_of(lines@),
            width == widest_of(texts.take(i as int)),
        decreases lines@.len() - i,
    {
        proof {
            assert(texts.take(i + 1).drop_last() =~= texts.take(i as int));
        }
        let len = lines[i].as_str().unicode_len();
        if len > width {
            width = len;
        }
        i = i + 1;
    }
    proof {
        assert(texts.take(i as int) =~= texts);
    }
    width
}

/// Finds the margin that centres lines of at most `widest` characters on
/// a terminal of the width `width`.
pub fn margin(width: Option<usize>, widest: usize) -> (margin: usize)
    ensures
        margin == margin_for(width, widest as nat),
{
    match width {
        Some(columns) => if columns > widest {
            (columns - widest) / 2
        } else {
            0
        },
        None => 0,
    }
}

/// Puts a margin of `margin` spaces before each of `lines`.
pub fn place(lines: &Vec<String>, margin: usize) -> (out: Vec<String>)
    ensures
        texts_of(out@) == placed(texts_of(lines@), margin as nat),
{
    let mut out: Vec<String> = Vec::new();
    let mut i: usize = 0;
    while i < lines.len()
        invariant
            i <= lines@.len(),
            out@.len() == i,
            forall|k: int| 0 <= k < i ==> (#[trigger] out@[k])@ == spaces(margin as nat) + lines@[k]@,
        decreases lines@.len() - i,
    {
        let mut line = blank(margin);
        line.append(lines[i].as_str());
        out.push(line);
        i = i + 1;
    }
    proof {
        assert(texts_of(out@) =~= placed(texts_of(lines@), margin as nat));
    }
    out
}

/// Centres `lines` on a terminal of the width `width`, or leaves them at
/// the left where the width is unknown.
pub fn centre(lines: &Vec<String>, width: Option<usize>) -> (out: Vec<String>)
    ensures
        texts_of(out@) == placed(
            texts_of(lines@),
            margin_for(width, widest_of(texts_of(lines@))),
        ),
{
    place(lines, margin(width, widest(lines)))
}

/// The width of the terminal in columns, where the process has one.
///
/// Trusted. The body calls `term_size::dimensions` and keeps the first
/// number of the pair. The result depends on the terminal, so nothing is
/// claimed of it.
#[verifier::external_body]
fn terminal_width() -> (width: Option<usize>) {
    term_size::dimensions().map(|size| size.0)
}

/// Centres `lines` on the terminal of the process, or leaves them at the
/// left where it has none.
pub fn centre_on_terminal(lines: &Vec<String>) -> (out: Vec<String>)
    ensures
        exists|width: Option<usize>|
            texts_of(out@) == #[trigger] placed(
                texts_of(lines@),
                margin_for(width, widest_of(texts_of(lines@))),
            ),
{
    let width = terminal_width();
    centre(lines, width)
}

} // verus!
