//! Rows of cells, written and read again.

use crate::interchange::cells::{
    carriable, cell_tag, kept_cell, lemma_cell_kept, lemma_tag_plain,
};
use crate::interchange::escapes::{lemma_only_breaks, lemma_text_only_breaks, only_breaks};
use crate::interchange::scan::{
    avoids, differs, lacks, lemma_avoids_joined, lemma_avoids_lacking, lemma_char_found,
    lemma_char_shift, lemma_differs, lemma_find_word, lemma_lowered_joined, lemma_lowered_same,
    lemma_word_absent, lemma_word_found, lemma_word_shift,
};
use crate::markup::text_written;
use crate::paste::{blanks, cell_of, cells_from, closing, next_cell, rows_from, span_of};
use crate::spelled::{cell_html, cells_html, CellText};
use crate::text::{ascii_lowered, find_from, find_word, has_at};
use vstd::prelude::*;

verus! {

// --------------------------------------------------------------- shifting --

/// Reading cells does not look back.
proof fn lemma_cells_shift(a: Seq<char>, t: Seq<char>, k: int)
    requires
        0 <= k <= t.len(),
    ensures
        cells_from(a + t, a.len() + k) == cells_from(t, k),
    decreases t.len() - k,
{
    let s = a + t;
    let la = ascii_lowered(a);
    let lt = ascii_lowered(t);
    let low = ascii_lowered(s);
    lemma_lowered_joined(a, t);
    lemma_word_shift(la, lt, "<td"@, k);
    lemma_word_shift(la, lt, "<th"@, k);
    lemma_find_word(lt, "<td"@, k);
    lemma_find_word(lt, "<th"@, k);
    let start = next_cell(lt, k);
    assert(next_cell(low, a.len() + k) == a.len() + start);
    lemma_char_shift(la, lt, '>', start);
    let gt = find_from(lt, '>', start);
    if start + 3 <= t.len() {
        assert(low.subrange(a.len() + start, a.len() + start + 3) =~= lt.subrange(start, start + 3));
    }
    reveal_strlit("<th");
    let close = closing(lt, start);
    assert(closing(low, a.len() + start) == close);
    if start <= gt < t.len() {
        lemma_word_shift(la, lt, close, gt + 1);
        lemma_find_word(lt, close, gt + 1);
        let end = find_word(lt, close, gt + 1);
        assert(s.subrange(a.len() + start, a.len() + gt) =~= t.subrange(start, gt));
        assert(s.subrange(a.len() + gt + 1, a.len() + end) =~= t.subrange(gt + 1, end));
        if gt < end < t.len() {
            lemma_cells_shift(a, t, end);
        }
    }
}

/// Reading rows does not look back.
proof fn lemma_rows_shift(a: Seq<char>, t: Seq<char>, k: int)
    requires
        0 <= k <= t.len(),
    ensures
        rows_from(a + t, a.len() + k) == rows_from(t, k),
    decreases t.len() - k,
{
    let s = a + t;
    let la = ascii_lowered(a);
    let lt = ascii_lowered(t);
    lemma_lowered_joined(a, t);
    lemma_word_shift(la, lt, "<tr"@, k);
    lemma_find_word(lt, "<tr"@, k);
    let start = find_word(lt, "<tr"@, k);
    lemma_char_shift(la, lt, '>', start);
    let gt = find_from(lt, '>', start);
    if start <= gt < t.len() {
        lemma_word_shift(la, lt, "</tr"@, gt + 1);
        lemma_find_word(lt, "</tr"@, gt + 1);
        let end = find_word(lt, "</tr"@, gt + 1);
        assert(s.subrange(a.len() + gt + 1, a.len() + end) =~= t.subrange(gt + 1, end));
        if gt < end < t.len() {
            lemma_rows_shift(a, t, end);
        }
    }
}

// ------------------------------------------------------------------ cells --

/// A word that no cell's markup holds.
pub open spec fn foreign(word: Seq<char>) -> bool {
    &&& word.len() >= 2
    &&& word[0] == '<'
    &&& word[1] != 'b'
    &&& differs("<td"@, 0, word)
    &&& differs("</td>"@, 0, word)
}

/// A piece that opens a tag at its start and nowhere else.
pub(crate) proof fn lemma_piece_avoids(s: Seq<char>, lead: Seq<char>, word: Seq<char>)
    requires
        word.len() > 0,
        word[0] == '<',
        lead.len() <= s.len(),
        s.subrange(0, lead.len() as int) == lead,
        differs(lead, 0, word),
        forall|i: int| 1 <= i < s.len() ==> #[trigger] s[i] != '<',
    ensures
        avoids(s, word),
{
    let rest = s.subrange(lead.len() as int, s.len() as int);
    assert(s =~= lead + rest);
    lemma_differs(lead, 0, word);
    assert(differs(lead + rest, 0, word));
    assert forall|k: int| 0 <= k < s.len() implies #[trigger] differs(s, k, word) by {
        if k > 0 {
            assert(s[k + 0] != word[0]);
        }
    }
}

/// The tag's opening in either case of letters.
proof fn lemma_tag_low(c: CellText)
    requires
        carriable(c),
    ensures
        ascii_lowered(cell_tag(c)).subrange(0, 3) == "<td"@,
        forall|i: int|
            1 <= i < cell_tag(c).len() ==> #[trigger] ascii_lowered(cell_tag(c))[i] != '<',
{
    lemma_tag_plain(c);
    reveal_strlit("<td");
    let low = ascii_lowered(cell_tag(c));
    let head = cell_tag(c).subrange(0, 3);
    assert forall|i: int| 0 <= i < 3 implies low.subrange(0, 3)[i] == "<td"@[i] by {
        assert(cell_tag(c)[i] == head[i]);
    }
    assert(low.subrange(0, 3) =~= "<td"@);
}

proof fn lemma_cell_avoids(c: CellText, word: Seq<char>)
    requires
        carriable(c),
        foreign(word),
    ensures
        avoids(ascii_lowered(cell_html(c)), word),
{
    let tag = cell_tag(c);
    let text = text_written(c.text);
    lemma_tag_plain(c);
    lemma_tag_low(c);
    lemma_text_only_breaks(c.text);
    lemma_only_breaks(text, word);
    reveal_strlit(">");
    reveal_strlit("</td>");
    lemma_piece_avoids(ascii_lowered(tag), "<td"@, word);
    lemma_lowered_same(">"@);
    lemma_lowered_same("</td>"@);
    lemma_avoids_lacking(">"@, word);
    assert("</td>"@.subrange(0, 5) =~= "</td>"@);
    lemma_piece_avoids("</td>"@, "</td>"@, word);
    lemma_lowered_joined(tag, ">"@);
    lemma_lowered_joined(tag + ">"@, text);
    lemma_lowered_joined(tag + ">"@ + text, "</td>"@);
    let l1 = ascii_lowered(tag) + ">"@;
    let l2 = l1 + ascii_lowered(text);
    lemma_avoids_joined(ascii_lowered(tag), ">"@, word);
    lemma_avoids_joined(l1, ascii_lowered(text), word);
    lemma_avoids_joined(l2, "</td>"@, word);
}

pub(crate) proof fn lemma_cells_avoid(cells: Seq<CellText>, word: Seq<char>)
    requires
        forall|i: int| 0 <= i < cells.len() ==> carriable(#[trigger] cells[i]),
        foreign(word),
    ensures
        avoids(ascii_lowered(cells_html(cells)), word),
    decreases cells.len(),
{
    if cells.len() == 0 {
        assert(ascii_lowered(cells_html(cells)) =~= Seq::<char>::empty());
    } else {
        let front = cells.drop_last();
        assert forall|i: int| 0 <= i < front.len() implies carriable(#[trigger] front[i]) by {
            assert(front[i] == cells[i]);
        }
        lemma_cells_avoid(front, word);
        assert(carriable(cells[cells.len() - 1]));
        lemma_cell_avoids(cells.last(), word);
        lemma_lowered_joined(cells_html(front), cell_html(cells.last()));
        lemma_avoids_joined(
            ascii_lowered(cells_html(front)),
            ascii_lowered(cell_html(cells.last())),
            word,
        );
    }
}

proof fn lemma_cells_first(cells: Seq<CellText>)
    requires
        cells.len() > 0,
    ensures
        cells_html(cells) == cell_html(cells[0]) + cells_html(
            cells.subrange(1, cells.len() as int),
        ),
    decreases cells.len(),
{
    let rest = cells.subrange(1, cells.len() as int);
    if cells.len() == 1 {
        assert(cells.drop_last() =~= Seq::<CellText>::empty());
        assert(rest =~= Seq::<CellText>::empty());
        assert(cells_html(cells.drop_last()) == Seq::<char>::empty());
        assert(cells_html(rest) == Seq::<char>::empty());
        assert(cells_html(cells) =~= cell_html(cells[0]));
        assert(cell_html(cells[0]) + cells_html(rest) =~= cell_html(cells[0]));
    } else {
        lemma_cells_first(cells.drop_last());
        assert(cells.drop_last().subrange(1, cells.len() - 1) =~= rest.drop_last());
        assert(rest.last() == cells.last());
        assert(cells_html(cells) =~= cell_html(cells[0]) + cells_html(rest));
    }
}

pub open spec fn kept_cells(cells: Seq<CellText>) -> Seq<CellText> {
    Seq::new(cells.len(), |i: int| kept_cell(cells[i]))
}

/// Where the first cell's tag begins.
proof fn lemma_cell_start(lp: Seq<char>, lb: Seq<char>)
    requires
        avoids(lp, "<td"@),
        avoids(lp, "<th"@),
        lb.len() >= 3,
        lb.subrange(0, 3) == "<td"@,
    ensures
        next_cell(lp + lb, 0) == lp.len(),
        closing(lp + lb, lp.len() as int) == "</td"@,
{
    reveal_strlit("<td");
    reveal_strlit("<th");
    let low = lp + lb;
    let start = lp.len() as int;
    lemma_word_found(lp, lb, "<td"@, 0);
    lemma_find_word(low, "<th"@, 0);
    let th = find_word(low, "<th"@, 0);
    if th < start {
        assert(differs(lp, th, "<th"@));
        lemma_differs(lp, th, "<th"@);
        assert(differs(lp + lb, th, "<th"@));
        lemma_differs(low, th, "<th"@);
    }
    if has_at(low, start, "<th"@) {
        assert(low.subrange(start, start + 3)[2] == low[start + 2]);
        assert(lb.subrange(0, 3)[2] == lb[2]);
    }
}

/// Where the first cell ends.
proof fn lemma_cell_end(head: Seq<char>, text: Seq<char>, after: Seq<char>)
    requires
        only_breaks(text),
        after.len() >= 4,
        ascii_lowered(after).subrange(0, 4) == "</td"@,
    ensures
        find_word(ascii_lowered(head + (text + after)), "</td"@, head.len() as int) == head.len()
            + text.len(),
{
    reveal_strlit("</td");
    lemma_lowered_joined(head, text + after);
    lemma_lowered_joined(text, after);
    lemma_word_shift(ascii_lowered(head), ascii_lowered(text + after), "</td"@, 0);
    lemma_only_breaks(text, "</td"@);
    lemma_word_found(ascii_lowered(text), ascii_lowered(after), "</td"@, 0);
}

/// The first cell of a row, and what is left.
proof fn lemma_first_cell(pre: Seq<char>, tag: Seq<char>, text: Seq<char>, after: Seq<char>)
    requires
        avoids(ascii_lowered(pre), "<td"@),
        avoids(ascii_lowered(pre), "<th"@),
        tag.len() >= 3,
        ascii_lowered(tag).subrange(0, 3) == "<td"@,
        lacks(tag, '>'),
        only_breaks(text),
        after.len() >= 4,
        ascii_lowered(after).subrange(0, 4) == "</td"@,
        span_of(tag) == 1,
    ensures
        cells_from(pre + (tag + seq!['>'] + text + after), 0) == seq![cell_of(tag, text)]
            + cells_from(after, 0),
{
    let s = pre + (tag + seq!['>'] + text + after);
    let low = ascii_lowered(s);
    let start = pre.len() as int;
    let gt = start + tag.len();
    let end = gt + 1 + text.len();
    let body = tag + seq!['>'] + text + after;
    assert(ascii_lowered(body).subrange(0, 3) =~= ascii_lowered(tag).subrange(0, 3));
    lemma_lowered_joined(pre, body);
    lemma_cell_start(ascii_lowered(pre), ascii_lowered(body));
    let front = pre + tag;
    let back = seq!['>'] + text + after;
    assert(s =~= front + back);
    lemma_lowered_joined(front, back);
    let lf = ascii_lowered(front);
    assert forall|k: int| start <= k < lf.len() implies lf[k] != '>' by {
        assert(front[k] == tag[k - start]);
    }
    assert(ascii_lowered(back)[0] == '>');
    lemma_char_found(lf, ascii_lowered(back), '>', start);
    let head = front + seq!['>'];
    assert(s =~= head + (text + after));
    lemma_cell_end(head, text, after);
    assert(s.subrange(start, gt) =~= tag);
    assert(s.subrange(gt + 1, end) =~= text);
    let past = head + text;
    assert(s =~= past + after);
    lemma_cells_shift(past, after, 0);
    assert(blanks(0) =~= Seq::<CellText>::empty());
    let here = seq![cell_of(tag, text)];
    assert(here + blanks(0) =~= here);
    assert(next_cell(low, 0) == start);
    assert(find_from(low, '>', start) == gt);
    assert(find_word(low, closing(low, start), gt + 1) == end);
}

/// A cell's markup, with `more` behind it, piece by piece.
proof fn lemma_cell_pieces(c: CellText, more: Seq<char>)
    ensures
        cell_html(c) + more == cell_tag(c) + seq!['>'] + text_written(c.text) + ("</td>"@ + more),
{
    reveal_strlit(">");
    let tag = cell_tag(c);
    let text = text_written(c.text);
    assert(">"@ =~= seq!['>']);
    assert(cell_html(c) == tag + ">"@ + text + "</td>"@);
    assert(cell_html(c) + more =~= tag + seq!['>'] + text + ("</td>"@ + more));
}

/// Cells read again, behind what holds none.
pub(crate) proof fn lemma_cells_kept(pre: Seq<char>, cells: Seq<CellText>)
    requires
        forall|i: int| 0 <= i < cells.len() ==> carriable(#[trigger] cells[i]),
        avoids(ascii_lowered(pre), "<td"@),
        avoids(ascii_lowered(pre), "<th"@),
    ensures
        cells_from(pre + cells_html(cells), 0) == kept_cells(cells),
    decreases cells.len(),
{
    let s = pre + cells_html(cells);
    let lp = ascii_lowered(pre);
    if cells.len() == 0 {
        assert(s =~= pre);
        lemma_word_absent(lp, "<td"@, 0);
        lemma_word_absent(lp, "<th"@, 0);
        assert(cells_from(s, 0) =~= kept_cells(cells));
    } else {
        let c = cells[0];
        let rest = cells.subrange(1, cells.len() as int);
        let tag = cell_tag(c);
        let text = text_written(c.text);
        let after = "</td>"@ + cells_html(rest);
        lemma_cells_first(cells);
        lemma_close();
        lemma_cell_pieces(c, cells_html(rest));
        lemma_tag_plain(c);
        lemma_tag_low(c);
        lemma_text_only_breaks(c.text);
        lemma_cell_kept(c);
        lemma_lowered_joined("</td>"@, cells_html(rest));
        assert(ascii_lowered(after).subrange(0, 4) =~= ascii_lowered("</td>"@).subrange(0, 4));
        lemma_first_cell(pre, tag, text, after);
        assert forall|i: int| 0 <= i < rest.len() implies carriable(#[trigger] rest[i]) by {
            assert(rest[i] == cells[i + 1]);
        }
        lemma_cells_kept("</td>"@, rest);
        assert(seq![kept_cell(c)] + kept_cells(rest) =~= kept_cells(cells));
    }
}

/// The end of a cell begins none.
proof fn lemma_close()
    ensures
        "</td>"@.len() == 5,
        avoids(ascii_lowered("</td>"@), "<td"@),
        avoids(ascii_lowered("</td>"@), "<th"@),
        ascii_lowered("</td>"@).subrange(0, 4) == "</td"@,
{
    reveal_strlit("<td");
    reveal_strlit("<th");
    reveal_strlit("</td");
    reveal_strlit("</td>");
    lemma_lowered_same("</td>"@);
    assert("</td>"@[0int + 1] != "<td"@[1]);
    assert("</td>"@[0int + 1] != "<th"@[1]);
    assert("</td>"@.subrange(0, 5) =~= "</td>"@);
    lemma_piece_avoids("</td>"@, "</td>"@, "<td"@);
    lemma_piece_avoids("</td>"@, "</td>"@, "<th"@);
    assert(ascii_lowered("</td>"@).subrange(0, 4) =~= "</td"@);
}

// ------------------------------------------------------------------- rows --

/// Rows between their tags.
pub open spec fn rows_markup(rows: Seq<Seq<CellText>>) -> Seq<char>
    decreases rows.len(),
{
    if rows.len() == 0 {
        Seq::empty()
    } else {
        "<tr>"@ + cells_html(rows[0]) + "</tr>\n"@ + rows_markup(
            rows.subrange(1, rows.len() as int),
        )
    }
}

pub open spec fn kept_rows(rows: Seq<Seq<CellText>>) -> Seq<Seq<CellText>> {
    Seq::new(rows.len(), |i: int| kept_cells(rows[i]))
}

pub open spec fn all_carriable(cells: Seq<CellText>) -> bool {
    forall|i: int| 0 <= i < cells.len() ==> carriable(#[trigger] cells[i])
}

/// The first row, and what is left.
proof fn lemma_first_row(pre: Seq<char>, cells: Seq<char>, after: Seq<char>)
    requires
        avoids(ascii_lowered(pre), "<tr"@),
        avoids(ascii_lowered(cells), "</tr"@),
        after.len() >= 4,
        ascii_lowered(after).subrange(0, 4) == "</tr"@,
    ensures
        rows_from(pre + ("<tr>"@ + cells + after), 0) == seq![cells_from(cells, 0)] + rows_from(
            after,
            0,
        ),
{
    reveal_strlit("<tr");
    reveal_strlit("<tr>");
    reveal_strlit("</tr");
    let s = pre + ("<tr>"@ + cells + after);
    let low = ascii_lowered(s);
    let lp = ascii_lowered(pre);
    let start = pre.len() as int;
    let body = "<tr>"@ + cells + after;
    lemma_lowered_joined(pre, body);
    assert(ascii_lowered(body).subrange(0, 3) =~= "<tr"@);
    lemma_word_found(lp, ascii_lowered(body), "<tr"@, 0);
    let front = pre + "<tr"@;
    let back = seq!['>'] + cells + after;
    assert(s =~= front + back);
    lemma_lowered_joined(front, back);
    let lf = ascii_lowered(front);
    assert forall|k: int| start <= k < lf.len() implies lf[k] != '>' by {
        assert(front[k] == "<tr"@[k - start]);
    }
    assert(ascii_lowered(back)[0] == '>');
    lemma_char_found(lf, ascii_lowered(back), '>', start);
    let gt = start + 3;
    let head = pre + "<tr>"@;
    let tail = cells + after;
    assert(s =~= head + tail);
    lemma_lowered_joined(head, tail);
    lemma_lowered_joined(cells, after);
    lemma_word_shift(ascii_lowered(head), ascii_lowered(tail), "</tr"@, 0);
    lemma_word_found(ascii_lowered(cells), ascii_lowered(after), "</tr"@, 0);
    let end = gt + 1 + cells.len();
    assert(s.subrange(gt + 1, end) =~= cells);
    let past = head + cells;
    assert(s =~= past + after);
    lemma_rows_shift(past, after, 0);
    assert(find_word(low, "<tr"@, 0) == start);
    assert(find_from(low, '>', start) == gt);
    assert(find_word(low, "</tr"@, gt + 1) == end);
}

/// The ends of a row and of its cells against the words for a row.
proof fn lemma_row_words()
    ensures
        foreign("</tr"@),
        foreign("<tr"@),
        "</tr>\n"@.len() == 6,
        avoids(ascii_lowered("</tr>\n"@), "<tr"@),
        ascii_lowered("</tr>\n"@).subrange(0, 4) == "</tr"@,
{
    reveal_strlit("<tr");
    reveal_strlit("</tr");
    reveal_strlit("</tr>\n");
    reveal_strlit("<td");
    reveal_strlit("</td>");
    assert("<td"@[0int + 1] != "</tr"@[1]);
    assert("</td>"@[0int + 3] != "</tr"@[3]);
    assert("<td"@[0int + 2] != "<tr"@[2]);
    assert("</td>"@[0int + 1] != "<tr"@[1]);
    lemma_lowered_same("</tr>\n"@);
    assert("</tr>\n"@[0int + 1] != "<tr"@[1]);
    assert("</tr>\n"@.subrange(0, 6) =~= "</tr>\n"@);
    lemma_piece_avoids("</tr>\n"@, "</tr>\n"@, "<tr"@);
    assert("</tr>\n"@.subrange(0, 4) =~= "</tr"@);
}

/// Rows read again, behind what holds none.
pub(crate) proof fn lemma_rows_kept(pre: Seq<char>, rows: Seq<Seq<CellText>>)
    requires
        forall|i: int| 0 <= i < rows.len() ==> all_carriable(#[trigger] rows[i]),
        avoids(ascii_lowered(pre), "<tr"@),
    ensures
        rows_from(pre + rows_markup(rows), 0) == kept_rows(rows),
    decreases rows.len(),
{
    let s = pre + rows_markup(rows);
    lemma_row_words();
    if rows.len() == 0 {
        assert(s =~= pre);
        lemma_word_absent(ascii_lowered(pre), "<tr"@, 0);
        assert(rows_from(s, 0) =~= kept_rows(rows));
    } else {
        let rest = rows.subrange(1, rows.len() as int);
        let cells = cells_html(rows[0]);
        let after = "</tr>\n"@ + rows_markup(rest);
        assert(rows_markup(rows) =~= "<tr>"@ + cells + after);
        assert(all_carriable(rows[0]));
        lemma_cells_avoid(rows[0], "</tr"@);
        lemma_lowered_joined("</tr>\n"@, rows_markup(rest));
        assert(ascii_lowered(after).subrange(0, 4) =~= ascii_lowered("</tr>\n"@).subrange(0, 4));
        lemma_first_row(pre, cells, after);
        let none = Seq::<char>::empty();
        assert(ascii_lowered(none) =~= none);
        lemma_cells_kept(none, rows[0]);
        assert(none + cells =~= cells);
        assert forall|i: int| 0 <= i < rest.len() implies all_carriable(#[trigger] rest[i]) by {
            assert(rest[i] == rows[i + 1]);
        }
        lemma_rows_kept("</tr>\n"@, rest);
        assert(seq![kept_cells(rows[0])] + kept_rows(rest) =~= kept_rows(rows));
    }
}

/// A word that no row's markup holds.
pub open spec fn outside(word: Seq<char>) -> bool {
    foreign(word) && differs("<tr>"@, 0, word) && differs("</tr>\n"@, 0, word)
}

pub(crate) proof fn lemma_rows_avoid(rows: Seq<Seq<CellText>>, word: Seq<char>)
    requires
        forall|i: int| 0 <= i < rows.len() ==> all_carriable(#[trigger] rows[i]),
        outside(word),
    ensures
        avoids(ascii_lowered(rows_markup(rows)), word),
    decreases rows.len(),
{
    if rows.len() == 0 {
        assert(ascii_lowered(rows_markup(rows)) =~= Seq::<char>::empty());
    } else {
        let rest = rows.subrange(1, rows.len() as int);
        let cells = cells_html(rows[0]);
        let open = "<tr>"@;
        let close = "</tr>\n"@;
        assert forall|i: int| 0 <= i < rest.len() implies all_carriable(#[trigger] rest[i]) by {
            assert(rest[i] == rows[i + 1]);
        }
        lemma_rows_avoid(rest, word);
        assert(all_carriable(rows[0]));
        lemma_cells_avoid(rows[0], word);
        reveal_strlit("<tr>");
        reveal_strlit("</tr>\n");
        lemma_lowered_same(open);
        lemma_lowered_same(close);
        assert(open.subrange(0, open.len() as int) =~= open);
        assert(close.subrange(0, close.len() as int) =~= close);
        lemma_piece_avoids(open, open, word);
        lemma_piece_avoids(close, close, word);
        lemma_lowered_joined(open, cells);
        lemma_lowered_joined(open + cells, close);
        lemma_lowered_joined(open + cells + close, rows_markup(rest));
        let lc = ascii_lowered(cells);
        lemma_avoids_joined(open, lc, word);
        lemma_avoids_joined(open + lc, close, word);
        lemma_avoids_joined(open + lc + close, ascii_lowered(rows_markup(rest)), word);
    }
}

} // verus!
