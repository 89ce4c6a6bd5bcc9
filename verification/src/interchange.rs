//! What is put on the clipboard comes back: the markup of a block, read again, is
//! the block.
//!
//! [`a_block_comes_back`] says what of a spelled block comes back,
//! [`a_whole_block_comes_back`] for which that is all of it, and
//! [`what_was_copied_is_pasted`] for which blocks, their lengths in points.

pub mod attrs;
pub mod cells;
pub mod escapes;
pub mod foreign;
pub mod grid;
pub mod looks;
pub mod scan;
pub mod styles;
pub mod tables;
pub mod widths;

use crate::clipboard::{
    html_like, positive, BlockView, CellView, LengthReader, LengthWriter, SNIFF_CHARS,
};
use crate::format::clamped_pt;
use crate::interchange::cells::{carriable, kept_cell};
use crate::interchange::grid::{
    all_carriable, kept_cells, kept_rows, lemma_piece_avoids, lemma_rows_avoid, lemma_rows_kept,
    outside, rows_markup,
};
use crate::interchange::scan::{
    avoids, differs, lemma_avoids_joined, lemma_find_word, lemma_lowered_joined, lemma_lowered_same,
    lemma_word_absent, lemma_word_found, lemma_word_shift,
};
use crate::interchange::widths::{
    legible_width, lemma_colgroup_kept, lemma_widths_avoid,
};
use crate::paste::{block_in, longest, rows_from, squared, table_in, widths_from};
use crate::spelled::{
    any_width, block_html, cells_html, row_cells, rows_html, widths_html, BlockText, CellText,
    WidthText,
};
use crate::table::CellRef;
use crate::text::{ascii_lowered, float_literal, has_at};
use crate::value::F32;
use vstd::prelude::*;

verus! {

// -------------------------------------------------------------- the pieces --

spec fn block_rows(b: BlockText) -> Seq<Seq<CellText>> {
    Seq::new(b.rows, |r: int| row_cells(b, r))
}

proof fn lemma_rows_last(rows: Seq<Seq<CellText>>, row: Seq<CellText>)
    ensures
        rows_markup(rows.push(row)) == rows_markup(rows) + ("<tr>"@ + cells_html(row)
            + "</tr>\n"@),
    decreases rows.len(),
{
    let all = rows.push(row);
    let one = "<tr>"@ + cells_html(row) + "</tr>\n"@;
    if rows.len() == 0 {
        let rest = all.subrange(1, 1);
        assert(rest =~= Seq::<Seq<CellText>>::empty());
        assert(rows_markup(rest) == Seq::<char>::empty());
        assert(rows_markup(rows) == Seq::<char>::empty());
        assert(rows_markup(all) =~= one);
        assert(rows_markup(rows) + one =~= one);
    } else {
        let rest = rows.subrange(1, rows.len() as int);
        lemma_rows_last(rest, row);
        assert(all.subrange(1, all.len() as int) =~= rest.push(row));
        assert(rows_markup(all) =~= rows_markup(rows) + one);
    }
}

proof fn lemma_rows_html(b: BlockText, n: int)
    requires
        0 <= n <= b.rows,
    ensures
        rows_html(b, n) == rows_markup(block_rows(b).subrange(0, n)),
    decreases n,
{
    let rows = block_rows(b).subrange(0, n);
    if n == 0 {
        assert(rows =~= Seq::<Seq<CellText>>::empty());
    } else {
        let before = block_rows(b).subrange(0, n - 1);
        lemma_rows_html(b, n - 1);
        assert(rows =~= before.push(row_cells(b, n - 1)));
        lemma_rows_last(before, row_cells(b, n - 1));
    }
}

/// What stands before the table.
proof fn lemma_page_head()
    ensures
        avoids(ascii_lowered("<html><head><meta charset=\"utf-8\"></head><body>\n"@), "<table"@),
{
    let s = "<html><head><meta charset=\"utf-8\"></head><body>\n"@;
    reveal_strlit("<html><head><meta charset=\"utf-8\"></head><body>\n");
    reveal_strlit("<table");
    lemma_lowered_same(s);
    assert forall|k: int| 0 <= k < s.len() implies #[trigger] differs(s, k, "<table"@) by {
        if s[k] == '<' {
            assert(k + 1 < s.len() && s[k + 1] != 't');
            assert(s[k + 1] != "<table"@[1]);
        } else {
            assert(s[k + 0] != "<table"@[0]);
        }
    }
}

/// The words that are looked for, against what a table and its columns begin and
/// end with.
proof fn lemma_words()
    ensures
        outside("<col"@),
        outside("</table"@),
        avoids(ascii_lowered("<table border=\"0\" cellpadding=\"0\" cellspacing=\"0\">\n"@), "<tr"@),
        avoids(ascii_lowered("<table border=\"0\" cellpadding=\"0\" cellspacing=\"0\">\n"@), "<col"@),
        avoids(
            ascii_lowered("<table border=\"0\" cellpadding=\"0\" cellspacing=\"0\">\n"@),
            "</table"@,
        ),
        "<table border=\"0\" cellpadding=\"0\" cellspacing=\"0\">\n"@.len() > 6,
        ascii_lowered("<table border=\"0\" cellpadding=\"0\" cellspacing=\"0\">\n"@).subrange(0, 6)
            == "<table"@,
        avoids(ascii_lowered("<colgroup>"@), "<tr"@),
        avoids(ascii_lowered("<colgroup>"@), "</table"@),
        avoids(ascii_lowered("</colgroup>\n"@), "<tr"@),
        avoids(ascii_lowered("</colgroup>\n"@), "<col"@),
        avoids(ascii_lowered("</colgroup>\n"@), "</table"@),
        differs("<col"@, 0, "<tr"@),
        differs("<col"@, 0, "</table"@),
        "<tr"@.len() > 0 && "<tr"@[0] == '<',
        "</table"@.len() == 7 && "</table"@[0] == '<',
        "</table>\n</body></html>"@.len() >= 7,
        ascii_lowered("</table>\n</body></html>"@).subrange(0, 7) == "</table"@,
{
    let table = "<table border=\"0\" cellpadding=\"0\" cellspacing=\"0\">\n"@;
    let group = "<colgroup>"@;
    let ended = "</colgroup>\n"@;
    let foot = "</table>\n</body></html>"@;
    reveal_strlit("<table border=\"0\" cellpadding=\"0\" cellspacing=\"0\">\n");
    reveal_strlit("<colgroup>");
    reveal_strlit("</colgroup>\n");
    reveal_strlit("</table>\n</body></html>");
    reveal_strlit("<table");
    reveal_strlit("</table");
    reveal_strlit("<tr");
    reveal_strlit("<col");
    reveal_strlit("<td");
    reveal_strlit("</td>");
    reveal_strlit("<tr>");
    reveal_strlit("</tr>\n");
    lemma_lowered_same(table);
    lemma_lowered_same(group);
    lemma_lowered_same(ended);
    lemma_lowered_same(foot);
    assert("<td"@[0int + 1] != "<col"@[1]);
    assert("</td>"@[0int + 1] != "<col"@[1]);
    assert("<tr>"@[0int + 1] != "<col"@[1]);
    assert("</tr>\n"@[0int + 1] != "<col"@[1]);
    assert("<td"@[0int + 1] != "</table"@[1]);
    assert("</td>"@[0int + 3] != "</table"@[3]);
    assert("<tr>"@[0int + 1] != "</table"@[1]);
    assert("</tr>\n"@[0int + 3] != "</table"@[3]);
    assert(table[0int + 2] != "<tr"@[2]);
    assert(table[0int + 1] != "<col"@[1]);
    assert(table[0int + 1] != "</table"@[1]);
    assert(group[0int + 1] != "<tr"@[1]);
    assert(group[0int + 1] != "</table"@[1]);
    assert(ended[0int + 1] != "<tr"@[1]);
    assert(ended[0int + 1] != "<col"@[1]);
    assert(ended[0int + 2] != "</table"@[2]);
    assert("<col"@[0int + 1] != "<tr"@[1]);
    assert("<col"@[0int + 1] != "</table"@[1]);
    assert(table.subrange(0, table.len() as int) =~= table);
    assert(group.subrange(0, group.len() as int) =~= group);
    assert(ended.subrange(0, ended.len() as int) =~= ended);
    lemma_piece_avoids(table, table, "<tr"@);
    lemma_piece_avoids(table, table, "<col"@);
    lemma_piece_avoids(table, table, "</table"@);
    lemma_piece_avoids(group, group, "<tr"@);
    lemma_piece_avoids(group, group, "</table"@);
    lemma_piece_avoids(ended, ended, "<tr"@);
    lemma_piece_avoids(ended, ended, "<col"@);
    lemma_piece_avoids(ended, ended, "</table"@);
    assert(table.subrange(0, 6) =~= "<table"@);
    assert(foot.subrange(0, 7) =~= "</table"@);
}

// ----------------------------------------------------------------- the law --

/// A block that the markup can carry.
pub open spec fn carriable_block(b: BlockText) -> bool {
    &&& b.rows > 0
    &&& b.cols > 0
    &&& b.rows * b.cols <= usize::MAX
    &&& b.cells.len() == b.rows * b.cols
    &&& b.widths.len() == b.cols
    &&& all_carriable(b.cells)
    &&& forall|i: int| 0 <= i < b.widths.len() ==> legible_width(#[trigger] b.widths[i])
}

/// A block as it comes back.
pub open spec fn kept_block(b: BlockText) -> BlockText {
    BlockText { cells: kept_cells(b.cells), ..b }
}

spec fn columns_html(b: BlockText) -> Seq<char> {
    if any_width(b.widths) {
        "<colgroup>"@ + widths_html(b.widths) + "</colgroup>\n"@
    } else {
        Seq::empty()
    }
}

/// The markup from the table's tag up to its end.
spec fn table_html(b: BlockText) -> Seq<char> {
    "<table border=\"0\" cellpadding=\"0\" cellspacing=\"0\">\n"@ + columns_html(b)
        + rows_markup(block_rows(b))
}

proof fn lemma_rows_carriable(b: BlockText)
    requires
        carriable_block(b),
    ensures
        forall|r: int| 0 <= r < block_rows(b).len() ==> all_carriable(#[trigger] block_rows(b)[r]),
        forall|r: int| 0 <= r < block_rows(b).len() ==> (#[trigger] block_rows(b)[r]).len() == b.cols,
{
    assert forall|r: int| 0 <= r < block_rows(b).len() implies all_carriable(
        #[trigger] block_rows(b)[r],
    ) && block_rows(b)[r].len() == b.cols by {
        assert(0 <= r * b.cols && r * b.cols + b.cols <= b.rows * b.cols) by (nonlinear_arith)
            requires
                0 <= r < b.rows,
                b.cols > 0,
        ;
        let row = row_cells(b, r);
        assert forall|i: int| 0 <= i < row.len() implies carriable(#[trigger] row[i]) by {
            assert(row[i] == b.cells[r * b.cols + i]);
        }
    }
}

proof fn lemma_columns_avoid(b: BlockText, word: Seq<char>)
    requires
        carriable_block(b),
        word == "<tr"@ || word == "</table"@,
    ensures
        avoids(ascii_lowered(columns_html(b)), word),
{
    lemma_words();
    let group = "<colgroup>"@;
    let ended = "</colgroup>\n"@;
    if any_width(b.widths) {
        let w = widths_html(b.widths);
        lemma_widths_avoid(b.widths, word);
        lemma_lowered_joined(group, w);
        lemma_lowered_joined(group + w, ended);
        lemma_avoids_joined(ascii_lowered(group), ascii_lowered(w), word);
        lemma_avoids_joined(ascii_lowered(group) + ascii_lowered(w), ascii_lowered(ended), word);
    } else {
        assert(ascii_lowered(columns_html(b)) =~= Seq::<char>::empty());
    }
}

/// The table is found in the markup.
proof fn lemma_table_found(b: BlockText)
    requires
        carriable_block(b),
    ensures
        table_in(block_html(b)) == Some(table_html(b)),
{
    let html = block_html(b);
    let head = "<html><head><meta charset=\"utf-8\"></head><body>\n"@;
    let table = "<table border=\"0\" cellpadding=\"0\" cellspacing=\"0\">\n"@;
    let foot = "</table>\n</body></html>"@;
    let body = table_html(b);
    lemma_words();
    lemma_page_head();
    lemma_rows_html(b, b.rows as int);
    assert(block_rows(b).subrange(0, b.rows as int) =~= block_rows(b));
    assert(html =~= head + (body + foot));
    let rest = body + foot;
    lemma_lowered_joined(head, rest);
    assert(ascii_lowered(rest).subrange(0, 6) =~= ascii_lowered(table).subrange(0, 6));
    reveal_strlit("<table");
    lemma_word_found(ascii_lowered(head), ascii_lowered(rest), "<table"@, 0);
    // The end of the table.
    lemma_rows_carriable(b);
    lemma_columns_avoid(b, "</table"@);
    lemma_rows_avoid(block_rows(b), "</table"@);
    let cols = columns_html(b);
    let rows = rows_markup(block_rows(b));
    lemma_lowered_joined(table, cols);
    lemma_lowered_joined(table + cols, rows);
    lemma_avoids_joined(ascii_lowered(table), ascii_lowered(cols), "</table"@);
    lemma_avoids_joined(
        ascii_lowered(table) + ascii_lowered(cols),
        ascii_lowered(rows),
        "</table"@,
    );
    lemma_lowered_joined(body, foot);
    lemma_word_shift(ascii_lowered(head), ascii_lowered(rest), "</table"@, 0);
    lemma_word_found(ascii_lowered(body), ascii_lowered(foot), "</table"@, 0);
    assert(html.subrange(head.len() as int, head.len() as int + body.len()) =~= body);
}

proof fn lemma_table_rows(b: BlockText)
    requires
        carriable_block(b),
    ensures
        rows_from(table_html(b), 0) == kept_rows(block_rows(b)),
{
    let table = "<table border=\"0\" cellpadding=\"0\" cellspacing=\"0\">\n"@;
    let cols = columns_html(b);
    lemma_words();
    lemma_columns_avoid(b, "<tr"@);
    lemma_rows_carriable(b);
    lemma_lowered_joined(table, cols);
    lemma_avoids_joined(ascii_lowered(table), ascii_lowered(cols), "<tr"@);
    lemma_rows_kept(table + cols, block_rows(b));
}

proof fn lemma_table_widths(b: BlockText)
    requires
        carriable_block(b),
    ensures
        widths_from(table_html(b), 0) == if any_width(b.widths) {
            b.widths
        } else {
            Seq::empty()
        },
{
    let table = "<table border=\"0\" cellpadding=\"0\" cellspacing=\"0\">\n"@;
    let rows = rows_markup(block_rows(b));
    let body = table_html(b);
    lemma_words();
    lemma_rows_carriable(b);
    lemma_rows_avoid(block_rows(b), "<col"@);
    if any_width(b.widths) {
        let ended = "</colgroup>\n"@;
        let post = ended + rows;
        lemma_lowered_joined(ended, rows);
        lemma_avoids_joined(ascii_lowered(ended), ascii_lowered(rows), "<col"@);
        lemma_colgroup_kept(table, b.widths, post);
        assert(body =~= table + ("<colgroup>"@ + widths_html(b.widths) + post));
    } else {
        assert(body =~= table + rows);
        lemma_lowered_joined(table, rows);
        lemma_avoids_joined(ascii_lowered(table), ascii_lowered(rows), "<col"@);
        lemma_word_absent(ascii_lowered(body), "<col"@, 0);
    }
}

proof fn lemma_longest(rows: Seq<Seq<CellText>>, cols: nat)
    requires
        rows.len() > 0,
        forall|i: int| 0 <= i < rows.len() ==> (#[trigger] rows[i]).len() == cols,
    ensures
        longest(rows) == cols,
    decreases rows.len(),
{
    assert(rows.last() == rows[rows.len() - 1]);
    let front = rows.drop_last();
    if rows.len() == 1 {
        assert(longest(front) == 0);
    } else {
        assert forall|i: int| 0 <= i < front.len() implies (#[trigger] front[i]).len() == cols by {
            assert(front[i] == rows[i]);
        }
        lemma_longest(front, cols);
    }
}

/// What is put on the clipboard comes back: every cell's text, its formula and where
/// that was copied from, its number format, its fill, colour and font, and every
/// column's width.
pub proof fn a_block_comes_back(b: BlockText)
    requires
        carriable_block(b),
    ensures
        block_in(block_html(b)) == Some(kept_block(b)),
{
    let body = table_html(b);
    let rows = block_rows(b);
    let kept = kept_rows(rows);
    lemma_table_found(b);
    lemma_table_rows(b);
    lemma_table_widths(b);
    lemma_rows_carriable(b);
    assert forall|i: int| 0 <= i < kept.len() implies (#[trigger] kept[i]).len() == b.cols by {
        assert(rows[i].len() == b.cols);
    }
    lemma_longest(kept, b.cols);
    let got = squared(kept, widths_from(body, 0));
    let cols = b.cols as int;
    assert forall|i: int| 0 <= i < b.rows * b.cols implies #[trigger] got.cells[i] == kept_cells(
        b.cells,
    )[i] by {
        let r = i / cols;
        let c = i % cols;
        assert(0 <= r < b.rows && 0 <= c < cols && r * cols + c == i) by (nonlinear_arith)
            requires
                0 <= i < b.rows * cols,
                cols > 0,
                r == i / cols,
                c == i % cols,
        ;
        assert(0 <= r * cols && r * cols + cols <= b.rows * cols) by (nonlinear_arith)
            requires
                0 <= r < b.rows,
                cols > 0,
        ;
        assert(kept[r] == kept_cells(rows[r]));
        assert(kept[r].len() == b.cols);
        assert(rows[r][c] == b.cells[r * cols + c]);
    }
    assert(got.cells =~= kept_cells(b.cells));
    assert forall|i: int| 0 <= i < b.cols implies #[trigger] got.widths[i] == b.widths[i] by {
        if !any_width(b.widths) {
            assert(b.widths[i] == WidthText::unset());
        }
    }
    assert(got.widths =~= b.widths);
    assert(got =~= kept_block(b));
}

/// A copied block is taken for markup, so that a paste reads the block and not its
/// markup as text.
pub proof fn a_copied_block_is_taken_for_markup(b: BlockText)
    ensures
        html_like(block_html(b)),
{
    let html = block_html(b);
    let head = "<html><head><meta charset=\"utf-8\"></head><body>\n"@;
    let table = "<table border=\"0\" cellpadding=\"0\" cellspacing=\"0\">\n"@;
    lemma_words();
    reveal_strlit("<html><head><meta charset=\"utf-8\"></head><body>\n");
    reveal_strlit("<table");
    let n = if html.len() < SNIFF_CHARS {
        html.len() as int
    } else {
        SNIFF_CHARS as int
    };
    let low = ascii_lowered(html.subrange(0, n));
    let k = head.len() as int;
    let rest = columns_html(b) + rows_html(b, b.rows as int) + "</table>\n</body></html>"@;
    assert(html =~= head + table + rest);
    assert(low.subrange(k, k + 6) =~= ascii_lowered(table).subrange(0, 6));
    assert(has_at(low, k, "<table"@));
    lemma_find_word(low, "<table"@, 0);
}

/// A cell with these comes back whole: what it has for a formula begins with `=`, it
/// tells where it was copied from only beside a formula, which alone asks for it, and
/// the general number format is left unsaid.
pub open spec fn whole(
    formula: Option<Seq<char>>,
    origin: Option<CellRef>,
    format: Option<Seq<char>>,
) -> bool {
    &&& formula matches Some(f) ==> f.len() > 0 && f[0] == '='
    &&& origin is Some ==> formula is Some
    &&& format matches Some(f) ==> f.len() > 0 && f != "General"@
}

/// A spelled block of such cells comes back as it is.
pub proof fn a_whole_block_comes_back(b: BlockText)
    requires
        carriable_block(b),
        forall|i: int|
            0 <= i < b.cells.len() ==> whole(
                (#[trigger] b.cells[i]).formula,
                b.cells[i].origin,
                b.cells[i].format,
            ),
    ensures
        block_in(block_html(b)) == Some(b),
{
    a_block_comes_back(b);
    assert forall|i: int| 0 <= i < b.cells.len() implies #[trigger] kept_cells(b.cells)[i]
        == b.cells[i] by {
        assert(whole(b.cells[i].formula, b.cells[i].origin, b.cells[i].format));
        assert(kept_cell(b.cells[i]) =~= b.cells[i]);
    }
    assert(kept_cells(b.cells) =~= b.cells);
    assert(kept_block(b) =~= b);
}

/// What is written is a number's text.
pub open spec fn writes_numbers<N: Fn(F32) -> String, P: Fn(F32) -> F32>(
    writer: LengthWriter<N, P>,
) -> bool {
    forall|x: F32, w: String| #[trigger] writer.number.ensures((x,), w) ==> float_literal(w@)
}

/// A length survives: it is positive, and its text is read as the length.
pub open spec fn survives<
    N: Fn(F32) -> String,
    P: Fn(F32) -> F32,
    M: Fn(&str) -> Option<F32>,
    Q: Fn(F32) -> F32,
>(writer: LengthWriter<N, P>, reader: LengthReader<M, Q>, x: F32) -> bool {
    &&& F32(0).lt_spec(x)
    &&& forall|w: String, s: &str, got: Option<F32>| #[trigger]
        writer.number.ensures((x,), w) && #[trigger] reader.number.ensures((s,), got) && s@ == w@
            ==> got == Some(x)
}

/// A cell of a block that is pasted as it was copied: it comes back whole, and its font
/// size survives and can be drawn.
pub open spec fn pastes<
    N: Fn(F32) -> String,
    P: Fn(F32) -> F32,
    M: Fn(&str) -> Option<F32>,
    Q: Fn(F32) -> F32,
>(writer: LengthWriter<N, P>, reader: LengthReader<M, Q>, c: CellView) -> bool {
    &&& whole(c.formula, c.origin, c.format)
    &&& c.style.typography.size matches Some(x) ==> survives(writer, reader, x) && clamped_pt(x)
        == x
}

proof fn lemma_survives<
    N: Fn(F32) -> String,
    P: Fn(F32) -> F32,
    M: Fn(&str) -> Option<F32>,
    Q: Fn(F32) -> F32,
>(
    writer: LengthWriter<N, P>,
    reader: LengthReader<M, Q>,
    x: F32,
    text: Seq<char>,
    r: Option<F32>,
)
    requires
        survives(writer, reader, x),
        writer.writes(x, text),
        reader.amount(text, r),
    ensures
        r == Some(x),
{
    let w = choose|w: String| #[trigger] writer.number.ensures((x,), w) && w@ == text;
    let (s, got) = choose|s: &str, got: Option<F32>| #[trigger]
        reader.number.ensures((s,), got) && s@ == text && r == positive(got);
    assert(got == Some(x));
}

/// What was copied is pasted. A block whose lengths survive being written and read comes
/// back as it is, cells, looks and widths.
pub proof fn what_was_copied_is_pasted<
    N: Fn(F32) -> String,
    P: Fn(F32) -> F32,
    M: Fn(&str) -> Option<F32>,
    Q: Fn(F32) -> F32,
>(
    b: BlockView,
    writer: LengthWriter<N, P>,
    t: BlockText,
    reader: LengthReader<M, Q>,
    pasted: BlockView,
)
    requires
        b.rows > 0,
        b.cols > 0,
        b.rows * b.cols <= usize::MAX,
        b.cells.len() == b.rows * b.cols,
        b.widths.len() == b.cols,
        writes_numbers(writer),
        forall|i: int| 0 <= i < b.cells.len() ==> pastes(writer, reader, #[trigger] b.cells[i]),
        forall|i: int|
            0 <= i < b.widths.len() ==> ((#[trigger] b.widths[i]) matches Some(x) ==> survives(
                writer,
                reader,
                x,
            )),
        writer.spells(b, t),
    ensures
        html_like(block_html(t)),
        block_in(block_html(t)) == Some(t),
        reader.fills(t, pasted) ==> pasted == b,
{
    a_copied_block_is_taken_for_markup(t);
    assert forall|i: int| 0 <= i < t.cells.len() implies carriable(#[trigger] t.cells[i]) && whole(
        t.cells[i].formula,
        t.cells[i].origin,
        t.cells[i].format,
    ) by {
        assert(pastes(writer, reader, b.cells[i]));
        assert(writer.makes(b.cells[i], t.cells[i]));
    }
    assert forall|i: int| 0 <= i < t.widths.len() implies legible_width(#[trigger] t.widths[i]) by {
        assert(writer.widens(b.widths[i], t.widths[i]));
    }
    a_whole_block_comes_back(t);
    if reader.fills(t, pasted) {
        assert forall|i: int| 0 <= i < b.cells.len() implies #[trigger] pasted.cells[i]
            == b.cells[i] by {
            let (c, u, d) = (b.cells[i], t.cells[i], pasted.cells[i]);
            assert(pastes(writer, reader, c));
            assert(writer.makes(c, u));
            assert(reader.makes(u, d));
            let pt = choose|pt: Option<F32>| #[trigger]
                reader.measures(u.style.size, pt) && d.style.typography.size == match pt {
                    Some(x) => Some(clamped_pt(x)),
                    None => None,
                };
            if let Some(x) = c.style.typography.size {
                lemma_survives(writer, reader, x, u.style.size->0.amount, pt);
            }
            assert(d.style == c.style);
            assert(d =~= c);
        }
        assert(pasted.cells =~= b.cells);
        assert forall|i: int| 0 <= i < b.widths.len() implies #[trigger] pasted.widths[i]
            == b.widths[i] by {
            let (v, u, r) = (b.widths[i], t.widths[i], pasted.widths[i]);
            assert(writer.widens(v, u));
            assert(reader.widens(u, r));
            if let Some(x) = v {
                let got = if r is Some && reader.measures(u.css, r) {
                    r
                } else {
                    None
                };
                lemma_survives(writer, reader, x, u.css->0.amount, got);
            }
        }
        assert(pasted.widths =~= b.widths);
        assert(pasted =~= b);
    }
}

} // verus!
