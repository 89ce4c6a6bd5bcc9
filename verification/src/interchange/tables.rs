//! How the cells of a table fall into place, whoever wrote the table.

use crate::interchange::scan::{lemma_char_found, lemma_find_word};
use crate::clipboard::lemma_place;
use crate::paste::{blanks, cell_of, cells_from, closing, longest, next_cell, span_of, squared};
use crate::spelled::{CellText, WidthText};
use crate::text::{ascii_lower, ascii_lowered, find_from, find_word, has_at};
use vstd::prelude::*;

verus! {

/// Opens a cell of one kind or the other, in letters of either case.
pub open spec fn opens(tag: Seq<char>, header: bool) -> bool {
    &&& tag.len() >= 3
    &&& tag[0] == '<'
    &&& ascii_lower(tag[1]) == 't'
    &&& ascii_lower(tag[2]) == if header {
        'h'
    } else {
        'd'
    }
}

/// A cell ends where its own kind of cell is closed, a header at the end of a header and
/// another at the end of another; it holds what stands between its tag and that, and is
/// followed by a blank for every further column that it spans.
pub proof fn a_cell_holds_what_its_tags_enclose(
    tag: Seq<char>,
    header: bool,
    content: Seq<char>,
    rest: Seq<char>,
    k: int,
)
    requires
        opens(tag, header),
        forall|i: int| 0 <= i < tag.len() ==> #[trigger] tag[i] != '>',
        forall|i: int| 0 <= i < content.len() ==> #[trigger] content[i] != '<',
        span_of(tag) >= 1,
        1 <= k < span_of(tag),
    ensures
        ({
            let close = if header {
                "</th"@
            } else {
                "</td"@
            };
            let cells = cells_from(tag + seq!['>'] + content + close + rest, 0);
            &&& cells.len() >= span_of(tag)
            &&& cells[0] == cell_of(tag, content)
            &&& cells[k] == CellText::blank()
        }),
{
    lemma_cell(tag, header, content, rest);
}

/// The same for a cell that spans one column.
pub proof fn a_narrow_cell_holds_what_its_tags_enclose(
    tag: Seq<char>,
    header: bool,
    content: Seq<char>,
    rest: Seq<char>,
)
    requires
        opens(tag, header),
        forall|i: int| 0 <= i < tag.len() ==> #[trigger] tag[i] != '>',
        forall|i: int| 0 <= i < content.len() ==> #[trigger] content[i] != '<',
        span_of(tag) == 1,
    ensures
        ({
            let close = if header {
                "</th"@
            } else {
                "</td"@
            };
            let s = tag + seq!['>'] + content + close + rest;
            &&& cells_from(s, 0) == seq![cell_of(tag, content)] + cells_from(
                s,
                tag.len() + 1int + content.len(),
            )
        }),
{
    lemma_cell(tag, header, content, rest);
    let close = if header {
        "</th"@
    } else {
        "</td"@
    };
    let s = tag + seq!['>'] + content + close + rest;
    let one = seq![cell_of(tag, content)];
    let none = blanks(0);
    assert(one + none =~= one);
}

proof fn lemma_cell(tag: Seq<char>, header: bool, content: Seq<char>, rest: Seq<char>)
    requires
        opens(tag, header),
        forall|i: int| 0 <= i < tag.len() ==> #[trigger] tag[i] != '>',
        forall|i: int| 0 <= i < content.len() ==> #[trigger] content[i] != '<',
        span_of(tag) >= 1,
    ensures
        ({
            let close = if header {
                "</th"@
            } else {
                "</td"@
            };
            let s = tag + seq!['>'] + content + close + rest;
            cells_from(s, 0) == seq![cell_of(tag, content)] + blanks(
                (span_of(tag) - 1) as nat,
            ) + cells_from(s, tag.len() + 1int + content.len())
        }),
{
    reveal_strlit("<td");
    reveal_strlit("<th");
    reveal_strlit("</td");
    reveal_strlit("</th");
    let close = if header {
        "</th"@
    } else {
        "</td"@
    };
    let s = tag + seq!['>'] + content + close + rest;
    let low = ascii_lowered(s);
    let n = s.len() as int;
    let gt = tag.len() as int;
    let end = gt + 1 + content.len();
    assert(low.len() == n);
    assert forall|i: int| 0 <= i < n implies (#[trigger] low[i] == '<' <==> s[i] == '<') && (low[i]
        == '>' <==> s[i] == '>') by {}
    // The tag opens the cell.
    let word = if header {
        "<th"@
    } else {
        "<td"@
    };
    let other = if header {
        "<td"@
    } else {
        "<th"@
    };
    assert(s[0] == tag[0] && s[1] == tag[1] && s[2] == tag[2]);
    assert(low.subrange(0, 3) =~= word);
    assert(low.subrange(0, 3)[2] != other[2]);
    assert(has_at(low, 0, word));
    assert(!has_at(low, 0, other));
    assert(find_word(low, word, 0) == 0);
    lemma_find_word(low, other, 0);
    assert(find_word(low, other, 0) > 0) by {
        if find_word(low, other, 0) == 0 {
            assert(has_at(low, 0, other));
        }
    }
    assert(next_cell(low, 0) == 0);
    assert(closing(low, 0) == close);
    // It ends at the first angle.
    let back = seq!['>'] + content + close + rest;
    assert(s =~= tag + back);
    let front = low.subrange(0, gt);
    let behind = low.subrange(gt, n);
    assert(low =~= front + behind);
    assert(s[gt] == '>');
    assert forall|k: int| 0 <= k < front.len() implies front[k] != '>' by {
        assert(s[k] == tag[k]);
    }
    lemma_char_found(front, behind, '>', 0);
    assert(find_from(low, '>', 0) == gt);
    // The content ends at the closing tag.
    assert(s.subrange(gt + 1, end) =~= content);
    assert forall|k: int| 0 <= k < 4 implies low.subrange(end, end + 4)[k] == close[k] by {
        assert(s[end + k] == close[k]);
    }
    assert(low.subrange(end, end + 4) =~= close);
    assert(has_at(low, end, close));
    lemma_find_word(low, close, gt + 1);
    let found = find_word(low, close, gt + 1);
    assert(found <= end);
    if found < end {
        assert(has_at(low, found, close));
        assert(low.subrange(found, found + 4)[0] == low[found]);
        assert(s[found] == content[found - gt - 1]);
    }
    assert(found == end);
    assert(s.subrange(0, gt) =~= tag);
}

/// Of a table's rows the longest gives the number of columns; a short one is filled up
/// with blanks at its end, and every cell keeps its place.
pub proof fn short_rows_are_filled_up(
    rows: Seq<Seq<CellText>>,
    widths: Seq<WidthText>,
    r: int,
    c: int,
)
    requires
        0 <= r < rows.len(),
        0 <= c < longest(rows),
    ensures
        squared(rows, widths).rows == rows.len(),
        squared(rows, widths).cols == longest(rows),
        rows[r].len() <= longest(rows),
        exists|i: int| 0 <= i < rows.len() && (#[trigger] rows[i]).len() == longest(rows),
        ({
            let cell = squared(rows, widths).cells[r * longest(rows) + c];
            if c < rows[r].len() {
                cell == rows[r][c]
            } else {
                cell == CellText::blank()
            }
        }),
        c < widths.len() ==> squared(rows, widths).widths[c] == widths[c],
        squared(rows, widths).widths.len() == longest(rows),
{
    lemma_longest(rows);
    lemma_place(r, c, rows.len() as int, longest(rows) as int);
}

proof fn lemma_longest(rows: Seq<Seq<CellText>>)
    ensures
        forall|i: int| 0 <= i < rows.len() ==> (#[trigger] rows[i]).len() <= longest(rows),
        rows.len() > 0 ==> exists|i: int|
            0 <= i < rows.len() && (#[trigger] rows[i]).len() == longest(rows),
    decreases rows.len(),
{
    if rows.len() > 0 {
        let d = rows.drop_last();
        let n = rows.len() - 1;
        lemma_longest(d);
        assert(rows[n] == rows.last());
        assert forall|i: int| 0 <= i < rows.len() implies (#[trigger] rows[i]).len() <= longest(
            rows,
        ) by {
            if i < n {
                assert(rows[i] == d[i]);
            }
        }
        if rows.last().len() > longest(d) {
            assert(rows[n].len() == longest(rows));
        } else if d.len() > 0 {
            let i = choose|i: int| 0 <= i < d.len() && (#[trigger] d[i]).len() == longest(d);
            assert(rows[i] == d[i]);
        } else {
            assert(rows[n].len() == longest(rows));
        }
    }
}

} // verus!
