//! Text tables.

use crate::text::chars_of;
use vstd::prelude::*;

verus! {

/// The character that starts a terminal escape sequence.
pub const ESCAPE: char = '\u{1b}';

/// Whether a text holds no escape character.
pub open spec fn plain(text: Seq<char>) -> bool {
    forall|i: int| 0 <= i < text.len() ==> text[i] != ESCAPE
}

/// Whether no cell of the rows holds an escape character.
pub open spec fn plain_rows(rows: Seq<Seq<Seq<char>>>) -> bool {
    forall|r: int, c: int|
        0 <= r < rows.len() && 0 <= c < rows[r].len() ==> plain(#[trigger] rows[r][c])
}

/// The text of the table that `prettytable` draws of the given rows of cells, in its
/// default format. Nothing is proved of it but that `render_table` returns it.
pub uninterp spec fn table_text(rows: Seq<Seq<Seq<char>>>) -> Seq<char>;

/// `prettytable::Table::new`, `add_row` and `to_string`: one row is added for each of
/// `rows`, with one left-aligned cell (`Cell::new`) for each of its strings, and the
/// table is written out as its `Display` writes it. Taken on trust: the text depends on
/// the cells alone. A cell with an escape character is kept out: the crate takes what
/// follows it for a hidden sequence, and its measuring of the cell can then panic.
#[verifier::external_body]
pub(crate) fn render_table(rows: &Vec<Vec<String>>) -> (text: String)
    requires
        plain_rows(rows.deep_view()),
    ensures
        text@ == table_text(rows.deep_view()),
{
    let mut table = prettytable::Table::new();
    for row in rows.iter() {
        table.add_row(prettytable::Row::new(row.iter().map(|c| prettytable::Cell::new(c)).collect()));
    }
    table.to_string()
}

/// Whether a text holds no escape character.
pub fn is_plain(text: &str) -> (res: bool)
    ensures
        res == plain(text@),
{
    let chars: Vec<char> = chars_of(text);
    let mut i: usize = 0;
    while i < chars.len()
        invariant
            i <= chars@.len(),
            chars@ == text@,
            forall|k: int| 0 <= k < i ==> chars@[k] != ESCAPE,
        decreases chars@.len() - i,
    {
        if chars[i] == ESCAPE {
            return false;
        }
        i += 1;
    }
    true
}

/// Whether no cell of the rows holds an escape character.
pub fn are_plain(rows: &Vec<Vec<String>>) -> (res: bool)
    ensures
        res == plain_rows(rows.deep_view()),
{
    let mut r: usize = 0;
    while r < rows.len()
        invariant
            r <= rows@.len(),
            forall|a: int, c: int|
                0 <= a < r && 0 <= c < rows.deep_view()[a].len() ==> plain(
                    #[trigger] rows.deep_view()[a][c],
                ),
        decreases rows@.len() - r,
    {
        let row: &Vec<String> = &rows[r];
        assert(rows.deep_view()[r as int] == row.deep_view());
        let mut c: usize = 0;
        while c < row.len()
            invariant
                c <= row@.len(),
                r < rows@.len(),
                rows.deep_view()[r as int] == row.deep_view(),
                forall|b: int| 0 <= b < c ==> plain(#[trigger] row.deep_view()[b]),
            decreases row@.len() - c,
        {
            assert(row.deep_view()[c as int] == row@[c as int]@);
            if !is_plain(row[c].as_str()) {
                assert(!plain(rows.deep_view()[r as int][c as int]));
                return false;
            }
            c += 1;
        }
        r += 1;
    }
    true
}

} // verus!
