use ferrix_core::clipboard::{
    looks_like_html, ClipBlock, ClipCell, FourOps, LengthReader, LengthWriter, LooseNumber, PasteOp,
    PasteOptions, PasteWhat,
};
use ferrix_core::format::{FontFamily, ManualStyle, Typography, MAX_FONT_PT};
use ferrix_core::rectangles::merge_rectangles;
use ferrix_core::table::{CellRef, Rgb};
use ferrix_core::value::{F32, F64};

fn plain(rows: &[&[&str]]) -> ClipBlock {
    ClipBlock::from_text_grid(&grid_of(rows))
}

fn grid_of(rows: &[&[&str]]) -> Vec<Vec<String>> {
    rows.iter()
        .map(|r| r.iter().map(|s| s.to_string()).collect())
        .collect()
}

fn text_at(b: &ClipBlock, r: usize, c: usize) -> String {
    b.get(r, c).map(|x| x.text.clone()).unwrap_or_default()
}

fn pt(x: f32) -> F32 {
    F32(x.to_bits())
}

fn float(x: F32) -> f32 {
    f32::from_bits(x.0)
}

fn reader() -> LengthReader<fn(&str) -> Option<F32>, fn(F32) -> F32> {
    LengthReader {
        number: |s| s.parse().ok().map(pt),
        points: |px| pt(float(px) * 0.75),
    }
}

fn writer() -> LengthWriter<fn(F32) -> String, fn(F32) -> F32> {
    LengthWriter {
        number: |x| format!("{}", (float(x) * 100.0).round() / 100.0),
        pixels: |x| pt(float(x) / 0.75),
    }
}

fn from_html(html: &str) -> Option<ClipBlock> {
    ferrix_core::paste::from_html(html, &reader())
}

fn parse_clipboard(text: &str, grid: &Vec<Vec<String>>) -> ClipBlock {
    ferrix_core::paste::parse_clipboard(text, grid, &reader())
}

fn to_html(block: &ClipBlock) -> String {
    ferrix_core::clipboard::to_html(block, &writer())
}

fn width(x: f32) -> Option<F32> {
    Some(pt(x))
}

fn font_size(style: &ManualStyle) -> Option<f32> {
    style.typography.size.map(float)
}

fn apply(op: PasteOp, dest: Option<f64>, src: Option<f64>) -> Option<f64> {
    let bits = |x: f64| F64(x.to_bits());
    let num = |x: F64| f64::from_bits(x.0);
    let ops = FourOps {
        plus: |a: F64, b: F64| bits(num(a) + num(b)),
        minus: |a: F64, b: F64| bits(num(a) - num(b)),
        times: |a: F64, b: F64| bits(num(a) * num(b)),
        over: |a: F64, b: F64| bits(num(a) / num(b)),
    };
    op.apply(dest.map(bits), src.map(bits), &ops).map(num)
}

fn number_of(cell: &ClipCell) -> Option<f64> {
    let n: LooseNumber = cell.as_number()?;
    let mut v: f64 = n.digits.parse().ok()?;
    if n.percent {
        v /= 100.0;
    }
    Some(if n.negative { -v } else { v })
}

#[test]
fn html_is_detected_only_when_a_table_is_present() {
    assert!(looks_like_html("<table><tr><td>1</td></tr></table>"));
    assert!(looks_like_html(
        "<html><body>\n<TABLE>\n<TR><TD>1</TD></TR></TABLE>"
    ));
    assert!(!looks_like_html("a<b\tc>d"));
    assert!(!looks_like_html("1\t2\r\n3\t4"));
    assert!(!looks_like_html("<div>not a table</div>"));
}

#[test]
fn html_sniffing_only_reads_the_head_of_a_huge_paste() {
    let mut s = "x\ty\r\n".repeat(200_000);
    s.push_str("<table><tr><td>1</td></tr></table>");
    assert!(!looks_like_html(&s));
}

#[test]
fn an_excel_shaped_table_parses_to_the_right_values() {
    let html = r##"<html><body><table border=0>
<tr><th>Name</th><th>Amount</th></tr>
<tr><td>Widget</td><td style="mso-number-format:'\0022$\0022#,##0.00'" align=right>$1,234.50</td></tr>
<tr><td>Gadget</td><td style='mso-number-format:"#,##0.00"' align=right>99.00</td></tr>
</table></body></html>"##;
    let b = from_html(html).expect("an Excel table must parse");
    assert_eq!((b.rows(), b.cols()), (3, 2), "3 rows x 2 cols");
    assert_eq!(text_at(&b, 0, 0), "Name");
    assert_eq!(text_at(&b, 1, 0), "Widget");
    assert_eq!(text_at(&b, 1, 1), "$1,234.50");
    assert_eq!(text_at(&b, 2, 1), "99.00");
    assert_eq!(b.get(0, 0).unwrap().style.typography.bold, Some(true));
    assert_eq!(b.get(1, 0).unwrap().style.typography.bold, None);
}

#[test]
fn the_html_flavour_is_preferred_over_the_text_one() {
    let html = "<table><tr><td>1</td><td>2</td></tr><tr><td>3</td><td>4</td></tr></table>";
    let b = parse_clipboard(html, &grid_of(&[&[html]]));
    assert_eq!((b.rows(), b.cols()), (2, 2));
    assert_eq!(text_at(&b, 1, 1), "4");
    assert!(
        !text_at(&b, 0, 0).contains('<'),
        "markup must not land in a cell as literal text"
    );
}

#[test]
fn plain_text_still_goes_down_the_tsv_path() {
    let b = parse_clipboard("a\tb\r\n\"has\ttab\"\td", &grid_of(&[&["a", "b"], &["has\ttab", "d"]]));
    assert_eq!((b.rows(), b.cols()), (2, 2));
    assert_eq!(text_at(&b, 0, 1), "b");
    assert_eq!(text_at(&b, 1, 0), "has\ttab", "TSV quoting still honoured");
}

#[test]
fn entities_and_line_breaks_inside_cells_are_decoded() {
    let html =
        "<table><tr><td>a &amp; b</td><td>1 &lt; 2</td><td>x<br>y</td><td>&#65;&#x42;</td></tr></table>";
    let b = from_html(html).unwrap();
    assert_eq!(text_at(&b, 0, 0), "a & b");
    assert_eq!(text_at(&b, 0, 1), "1 < 2");
    assert_eq!(text_at(&b, 0, 2), "x\ny", "<br> is a newline, not nothing");
    assert_eq!(text_at(&b, 0, 3), "AB", "numeric entities decode");
}

#[test]
fn nested_markup_inside_a_cell_is_reduced_to_its_text() {
    let html = "<table><tr><td><font color=\"#FF0000\"><b>42</b></font></td></tr></table>";
    let b = from_html(html).unwrap();
    assert_eq!(text_at(&b, 0, 0), "42");
}

#[test]
fn colspan_keeps_later_cells_under_the_right_columns() {
    let html = "<table>\
<tr><td colspan=\"2\">Q1</td><td>Q2</td></tr>\
<tr><td>10</td><td>20</td><td>30</td></tr></table>";
    let b = from_html(html).unwrap();
    assert_eq!(b.cols(), 3);
    assert_eq!(text_at(&b, 0, 0), "Q1");
    assert_eq!(text_at(&b, 0, 1), "", "the spanned column is blank");
    assert_eq!(text_at(&b, 0, 2), "Q2", "Q2 stays in column 3");
    assert_eq!(text_at(&b, 1, 2), "30");
}

#[test]
fn ragged_rows_are_padded_to_a_rectangle() {
    let html = "<table><tr><td>a</td><td>b</td><td>c</td></tr><tr><td>d</td></tr></table>";
    let b = from_html(html).unwrap();
    assert_eq!((b.rows(), b.cols()), (2, 3));
    assert_eq!(text_at(&b, 1, 0), "d");
    assert_eq!(text_at(&b, 1, 2), "");
}

#[test]
fn a_table_with_no_rows_is_none_not_an_empty_block() {
    assert!(from_html("<table></table>").is_none());
    assert!(from_html("no markup at all").is_none());
}

#[test]
fn a_tableless_html_payload_falls_back_to_text_rather_than_vanishing() {
    let b = parse_clipboard("<table-ish\tnot really", &grid_of(&[&["<table-ish", "not really"]]));
    assert_eq!(text_at(&b, 0, 0), "<table-ish");
}

#[test]
fn column_widths_are_read_from_the_colgroup() {
    let html = "<table><colgroup><col width=\"120\"><col><col width=\"60pt\"></colgroup>\
<tr><td>a</td><td>b</td><td>c</td></tr></table>";
    let b = from_html(html).unwrap();
    assert_eq!(b.col_widths.len(), 3);
    assert_eq!(b.col_widths[0].map(float), Some(90.0));
    assert_eq!(b.col_widths[1].map(float), None, "an unsized column stays unsized");
    assert_eq!(b.col_widths[2].map(float), Some(60.0), "an explicit pt is taken as pt");
}

#[test]
fn styles_are_read_off_the_cells() {
    let html = "<table><tr>\
<td style=\"background-color:#FFFF00;color:#FF0000;font-weight:bold\">a</td>\
<td style=\"font-style:italic;text-decoration:underline line-through\">b</td>\
<td style=\"font-family:Consolas,monospace;font-size:14pt\">c</td>\
<td style=\"color:rgb(0, 128, 255)\">d</td>\
<td style=\"background-color:#0f0\">e</td>\
</tr></table>";
    let b = from_html(html).unwrap();
    let a = &b.get(0, 0).unwrap().style;
    assert_eq!(a.fill, Some(Rgb(0xFF, 0xFF, 0x00)));
    assert_eq!(a.text, Some(Rgb(0xFF, 0x00, 0x00)));
    assert_eq!(a.typography.bold, Some(true));

    let s = &b.get(0, 1).unwrap().style.typography;
    assert_eq!(s.italic, Some(true));
    assert_eq!(s.underline, Some(true));
    assert_eq!(
        s.strikethrough,
        Some(true),
        "both decorations must survive one text-decoration declaration"
    );

    let t = &b.get(0, 2).unwrap().style.typography;
    assert_eq!(t.family, Some(FontFamily::Monospace));
    assert_eq!(t.size, Some(pt(14.0)));

    assert_eq!(b.get(0, 3).unwrap().style.text, Some(Rgb(0, 128, 255)));
    assert_eq!(
        b.get(0, 4).unwrap().style.fill,
        Some(Rgb(0x00, 0xFF, 0x00)),
        "#abc shorthand expands"
    );
}

#[test]
fn a_pasted_font_size_is_clamped_to_something_renderable() {
    let html = "<table><tr><td style=\"font-size:400pt\">a</td></tr></table>";
    let b = from_html(html).unwrap();
    assert_eq!(
        font_size(&b.get(0, 0).unwrap().style),
        Some(f32::from_bits(MAX_FONT_PT))
    );
}

#[test]
fn an_mso_number_format_with_a_semicolon_is_not_split_in_half() {
    let html = "<table><tr><td style=\"mso-number-format:'#,##0.00;[Red]\\(#,##0.00\\)';color:#0000FF\">1.00</td></tr></table>";
    let b = from_html(html).unwrap();
    let cell = b.get(0, 0).unwrap();
    let code = cell
        .format
        .as_ref()
        .cloned()
        .unwrap_or_default();
    assert!(
        code.contains(';') && code.contains("[Red]"),
        "the whole two-section code must survive, got {code:?}"
    );
    assert_eq!(
        cell.style.text,
        Some(Rgb(0, 0, 0xFF)),
        "and the declaration after it must still be read"
    );
}

#[test]
fn an_excel_style_formula_attribute_is_read() {
    let html = "<table><tr><td x:fmla=\"=SUM(A1:A3)\">6</td></tr></table>";
    let b = from_html(html).unwrap();
    assert_eq!(b.get(0, 0).unwrap().formula.as_deref(), Some("=SUM(A1:A3)"));
}

#[test]
fn rendered_html_is_a_table_with_one_td_per_cell() {
    let b = plain(&[&["a", "b"], &["c", "d"]]);
    let html = to_html(&b);
    assert_eq!(html.matches("<tr>").count(), 2, "one <tr> per row");
    assert_eq!(html.matches("<td").count(), 4, "one <td> per cell");
    assert!(html.contains(">a</td>"));
    assert!(html.contains(">d</td>"));
}

#[test]
fn rendered_html_escapes_content_that_would_otherwise_be_markup() {
    let mut b = ClipBlock::new(1, 1);
    b.set(0, 0, ClipCell::text("<b>&\"x\""));
    let html = to_html(&b);
    assert!(
        html.contains("&lt;b&gt;&amp;"),
        "unescaped content would change the table's structure: {html}"
    );
    assert_eq!(text_at(&from_html(&html).unwrap(), 0, 0), "<b>&\"x\"");
}

#[test]
fn a_number_format_is_written_where_excel_looks_for_it() {
    let mut b = ClipBlock::new(1, 1);
    b.set(
        0,
        0,
        ClipCell {
            text: "$1,234.50".into(),
            format: Some("\"$\"#,##0.00".into()),
            ..Default::default()
        },
    );
    let html = to_html(&b);
    assert!(
        html.contains("mso-number-format:"),
        "Excel reads the format from mso-number-format: {html}"
    );
}

#[test]
fn a_round_trip_preserves_values_formats_and_styling() {
    let mut b = ClipBlock::new(2, 2);
    b.set(
        0,
        0,
        ClipCell {
            text: "1,234.50".into(),
            formula: None,
            origin: None,
            format: Some("#,##0.00".into()),
            style: ManualStyle {
                fill: Some(Rgb(0xFF, 0xEE, 0x00)),
                text: Some(Rgb(0x11, 0x22, 0x33)),
                typography: Typography::default()
                    .with_bold(true)
                    .with_italic(true)
                    .with_size(pt(13.0))
                    .with_family(FontFamily::Monospace),
            },
        },
    );
    b.set(
        0,
        1,
        ClipCell {
            text: "42%".into(),
            format: Some("0%".into()),
            ..Default::default()
        },
    );
    b.set(
        1,
        0,
        ClipCell {
            text: "2024-01-31".into(),
            format: Some("yyyy-mm-dd".into()),
            ..Default::default()
        },
    );
    b.set(1, 1, ClipCell::text("plain"));
    b.col_widths = vec![width(90.0), width(150.0)];

    let back = from_html(&to_html(&b)).expect("round trip must parse");

    assert_eq!((back.rows(), back.cols()), (2, 2));
    for (r, c) in [(0, 0), (0, 1), (1, 0), (1, 1)] {
        let a = b.get(r, c).unwrap();
        let z = back.get(r, c).unwrap();
        assert_eq!(z.text, a.text, "value at ({r},{c})");
        assert_eq!(z.format, a.format, "number format at ({r},{c})");
        assert_eq!(z.style.fill, a.style.fill, "fill at ({r},{c})");
        assert_eq!(z.style.text, a.style.text, "text colour at ({r},{c})");
        assert_eq!(
            z.style.typography.bold, a.style.typography.bold,
            "bold at ({r},{c})"
        );
        assert_eq!(
            z.style.typography.italic, a.style.typography.italic,
            "italic at ({r},{c})"
        );
        assert_eq!(
            z.style.typography.size, a.style.typography.size,
            "font size at ({r},{c})"
        );
        assert_eq!(
            z.style.typography.family, a.style.typography.family,
            "font family at ({r},{c})"
        );
    }
    assert_eq!(back.col_widths, b.col_widths, "column widths survive");
}

#[test]
fn a_formula_round_trips_as_text_with_its_dollars_intact() {
    let mut b = ClipBlock::new(1, 1);
    b.set(
        0,
        0,
        ClipCell {
            text: "60".into(),
            formula: Some("=SUM($A$1:A10)*LOG10(B2)".into()),
            ..Default::default()
        },
    );
    let back = from_html(&to_html(&b)).unwrap();
    assert_eq!(
        back.get(0, 0).unwrap().formula.as_deref(),
        Some("=SUM($A$1:A10)*LOG10(B2)"),
        "every $ must survive verbatim"
    );
    assert_eq!(back.get(0, 0).unwrap().text, "60", "and the cached value");
}

#[test]
fn a_formula_containing_quotes_and_angle_brackets_round_trips() {
    let mut b = ClipBlock::new(1, 1);
    b.set(
        0,
        0,
        ClipCell {
            text: "yes".into(),
            formula: Some("=IF(A1<B1,\"a<b\",\"a>=b\")".into()),
            ..Default::default()
        },
    );
    let back = from_html(&to_html(&b)).unwrap();
    assert_eq!(
        back.get(0, 0).unwrap().formula.as_deref(),
        Some("=IF(A1<B1,\"a<b\",\"a>=b\")")
    );
}

#[test]
fn a_round_trip_through_tsv_alone_loses_formatting() {
    let mut b = ClipBlock::new(1, 1);
    b.set(
        0,
        0,
        ClipCell {
            text: "1234.5".into(),
            format: Some("#,##0.00".into()),
            ..Default::default()
        },
    );
    let via_tsv = ClipBlock::from_text_grid(&b.to_text_grid());
    assert_eq!(via_tsv.get(0, 0).unwrap().text, "1234.5", "values survive");
    assert_eq!(
        via_tsv.get(0, 0).unwrap().format,
        None,
        "TSV cannot carry a number format — that is why to_html exists"
    );
}

#[test]
fn transpose_swaps_axes_and_carries_everything_with_them() {
    let mut b = ClipBlock::new(2, 3);
    for r in 0..2 {
        for c in 0..3 {
            b.set(
                r,
                c,
                ClipCell {
                    text: format!("{r}{c}"),
                    format: Some(if r == 0 { "0".into() } else { "0.0".into() }),
                    ..Default::default()
                },
            );
        }
    }
    let t = b.transposed();
    assert_eq!((t.rows(), t.cols()), (3, 2));
    assert_eq!(text_at(&t, 2, 1), "12", "(1,2) must land at (2,1)");
    assert_eq!(
        t.get(2, 1).unwrap().format,
        Some("0.0".into()),
        "the format travels with its value"
    );
    assert_eq!(b.transposed().transposed(), b, "transpose is an involution");
}

#[test]
fn transpose_drops_column_widths_rather_than_applying_them_to_the_wrong_axis() {
    let mut b = ClipBlock::new(1, 2);
    b.col_widths = vec![width(100.0), width(50.0)];
    let t = b.transposed();
    assert_eq!(t.cols(), 1);
    assert_eq!(t.col_widths, vec![None], "widths describe rows now");
}

#[test]
fn arithmetic_operations_combine_destination_with_source() {
    assert_eq!(apply(PasteOp::Add, Some(10.0), Some(3.0)), Some(13.0));
    assert_eq!(apply(PasteOp::Subtract, Some(10.0), Some(3.0)), Some(7.0));
    assert_eq!(apply(PasteOp::Multiply, Some(10.0), Some(3.0)), Some(30.0));
    assert_eq!(apply(PasteOp::Divide, Some(12.0), Some(4.0)), Some(3.0));
    assert_eq!(apply(PasteOp::Nothing, Some(10.0), Some(3.0)), Some(3.0));
}

#[test]
fn arithmetic_ordering_is_destination_op_source_not_the_reverse() {
    assert_eq!(
        apply(PasteOp::Subtract, Some(10.0), Some(3.0)),
        Some(7.0),
        "must be dest - src"
    );
    assert_eq!(
        apply(PasteOp::Divide, Some(10.0), Some(4.0)),
        Some(2.5),
        "must be dest / src"
    );
}

#[test]
fn an_empty_destination_counts_as_zero_for_arithmetic() {
    assert_eq!(apply(PasteOp::Add, None, Some(5.0)), Some(5.0));
    assert_eq!(apply(PasteOp::Subtract, None, Some(5.0)), Some(-5.0));
}

#[test]
fn arithmetic_refuses_rather_than_writing_nonsense() {
    assert_eq!(apply(PasteOp::Add, Some(1.0), None), None);
    assert_eq!(
        apply(PasteOp::Divide, Some(1.0), Some(0.0)),
        None,
        "divide by zero must not produce an infinity"
    );
}

#[test]
fn formatted_numbers_are_still_numbers_for_arithmetic() {
    assert_eq!(number_of(&ClipCell::text("1,234.50")), Some(1234.50));
    assert_eq!(number_of(&ClipCell::text("$1,234.50")), Some(1234.50));
    assert_eq!(number_of(&ClipCell::text("(500)")), Some(-500.0));
    assert_eq!(number_of(&ClipCell::text("42%")), Some(0.42));
    assert_eq!(number_of(&ClipCell::text("-7")), Some(-7.0));
    assert_eq!(number_of(&ClipCell::text("hello")), None);
    assert_eq!(number_of(&ClipCell::text("")), None);
}

#[test]
fn paste_modes_agree_about_what_they_write() {
    assert!(PasteWhat::All.writes_contents() && PasteWhat::All.writes_formats());
    assert!(PasteWhat::Values.writes_contents() && !PasteWhat::Values.writes_formats());
    assert!(PasteWhat::Formulas.writes_contents() && !PasteWhat::Formulas.writes_formats());
    assert!(!PasteWhat::Formats.writes_contents() && PasteWhat::Formats.writes_formats());
    assert!(!PasteWhat::ColumnWidths.writes_contents());
    assert!(!PasteWhat::ColumnWidths.writes_formats());
    assert!(PasteWhat::ColumnWidths.writes_widths());
    assert!(!PasteWhat::All.writes_widths());
}

#[test]
fn a_plain_paste_is_not_special_and_describes_itself_when_it_is() {
    assert!(!PasteOptions::plain().is_special());
    let o = PasteOptions {
        what: PasteWhat::Values,
        op: PasteOp::Add,
        transpose: true,
        skip_blanks: true,
    };
    assert!(o.is_special());
    let d = o.describe();
    for part in ["Values", "Add", "Transpose", "Skip Blanks"] {
        assert!(d.contains(part), "{part} missing from {d:?}");
    }
}

#[test]
fn a_uniform_format_over_a_big_block_collapses_to_one_rectangle() {
    let (rows, cols) = (1000usize, 100usize);
    let keys: Vec<Option<u8>> = vec![Some(7); rows * cols];
    let rects = merge_rectangles(&keys, rows, cols);
    assert_eq!(
        rects.len(),
        1,
        "100k uniformly formatted cells must be one rectangle, not {}",
        rects.len()
    );
    assert_eq!(rects[0].cells(), rows * cols, "and it must cover them all");
}

#[test]
fn rectangles_cover_exactly_the_non_empty_cells_and_do_not_overlap() {
    let (rows, cols) = (5usize, 4usize);
    let keys: Vec<Option<u8>> = vec![
        Some(1), Some(1), None,    Some(2),
        Some(1), Some(1), None,    Some(2),
        None,    None,    Some(3), Some(2),
        Some(3), Some(3), Some(3), None,
        Some(3), Some(3), Some(3), None,
    ];
    let rects = merge_rectangles(&keys, rows, cols);
    let mut cover = vec![0usize; rows * cols];
    for r in &rects {
        for rr in r.first_row..=r.last_row {
            for cc in r.first_col..=r.last_col {
                cover[rr * cols + cc] += 1;
                assert_eq!(
                    keys[rr * cols + cc].as_ref(),
                    keys[r.key_index].as_ref(),
                    "rectangle at ({rr},{cc}) carries the wrong key"
                );
            }
        }
    }
    for (i, k) in keys.iter().enumerate() {
        let want = if k.is_some() { 1 } else { 0 };
        assert_eq!(
            cover[i], want,
            "cell {i} covered {} times, expected {want}",
            cover[i]
        );
    }
    assert!(
        rects.len() < 8,
        "greedy merge did nothing useful: {} rectangles",
        rects.len()
    );
}

#[test]
fn different_keys_never_share_a_rectangle() {
    let keys: Vec<Option<u8>> = vec![Some(1), Some(2), Some(1), Some(2)];
    let rects = merge_rectangles(&keys, 2, 2);
    assert_eq!(rects.len(), 2, "two columns of two different keys");
    for r in &rects {
        assert_eq!(r.first_col, r.last_col, "a rectangle spans one key only");
    }
}

#[test]
fn an_empty_grid_produces_no_rectangles() {
    let keys: Vec<Option<u8>> = vec![None; 12];
    assert!(merge_rectangles(&keys, 3, 4).is_empty());
}

#[test]
fn a_block_reports_its_own_shape_honestly() {
    let b = plain(&[&["a", "b", "c"], &["d", "e", "f"]]);
    assert_eq!(b.cell_count(), 6);
    assert!(!b.is_empty());
    assert!(ClipBlock::new(0, 0).is_empty());
    assert!(b.get(2, 0).is_none(), "out of bounds reads are None");
    assert!(b.get(0, 3).is_none());
}

#[test]
fn to_text_grid_matches_what_went_in() {
    let grid = vec![
        vec!["a".to_string(), "".to_string()],
        vec!["c".to_string(), "d".to_string()],
    ];
    assert_eq!(ClipBlock::from_text_grid(&grid).to_text_grid(), grid);
}

#[test]
fn a_plain_cell_writes_no_attributes() {
    let html = to_html(&plain(&[&["a"]]));
    assert!(html.contains("<td>a</td>"), "got {html}");
}

#[test]
fn an_origin_travels_with_its_formula() {
    let mut b = ClipBlock::new(1, 2);
    b.set(
        0,
        0,
        ClipCell {
            text: "1".into(),
            formula: Some("=A1".into()),
            origin: Some(CellRef { row: 4_000_000_000, col: 7 }),
            ..Default::default()
        },
    );
    b.set(
        0,
        1,
        ClipCell { text: "2".into(), origin: Some(CellRef { row: 1, col: 1 }), ..Default::default() },
    );
    let back = from_html(&to_html(&b)).unwrap();
    assert_eq!(back.get(0, 0).unwrap().origin, Some(CellRef { row: 4_000_000_000, col: 7 }));
    assert_eq!(back.get(0, 1).unwrap().origin, None);
}

#[test]
fn a_block_of_awkward_text_comes_back_exactly() {
    let b = plain(&[
        &["a & b", "<td>", "&amp;", "\"q\" 'q'"],
        &["&lt;", "x;y", "</table>", "1 < 2 > 0"],
    ]);
    let back = from_html(&to_html(&b)).unwrap();
    assert_eq!(back, b);
}

#[test]
fn character_references_decode_to_their_characters() {
    let b = from_html("<table><tr><td>&#233;&#x20AC;&nbsp;z</td><td>&#xD800;</td></tr></table>")
        .unwrap();
    assert!(text_at(&b, 0, 0).starts_with("\u{e9}\u{20ac}"));
    assert_eq!(text_at(&b, 0, 1), "&#xD800;", "a surrogate is no character");
}

#[test]
fn lengths_that_are_not_positive_are_dropped() {
    let sized = |size: &str| {
        let html = format!("<table><tr><td style=\"font-size:{size}\">a</td></tr></table>");
        font_size(&from_html(&html).unwrap().get(0, 0).unwrap().style)
    };
    assert_eq!(sized("0pt"), None);
    assert_eq!(sized("-3pt"), None);
    assert_eq!(sized("nan"), None);
    assert_eq!(sized("1pt"), Some(6.0));
    assert_eq!(sized("16px"), Some(12.0));
    let html = "<table><col width=80 style='width:0pt'><tr><td>a</td></tr></table>";
    let b = from_html(html).unwrap();
    assert_eq!(b.col_widths[0].map(float), Some(60.0), "the attribute stands in");
}

#[test]
fn lengths_are_settled_when_they_are_read() {
    let sized = |size: &str| {
        let html = format!("<table><tr><td style=\"font-size:{size}\">a</td></tr></table>");
        from_html(&html).unwrap()
    };
    // A size that is dropped leaves nothing to carry.
    assert!(sized("0pt").get(0, 0).unwrap().is_plain());
    assert!(sized("-3px").get(0, 0).unwrap().style.is_empty());
    assert!(!to_html(&sized("0pt")).contains("font-size"));
    // What is written again is what was read.
    assert!(to_html(&sized("200pt")).contains("font-size:72pt"));
    assert!(to_html(&sized("16px")).contains("font-size:12pt"));
    assert!(to_html(&sized("10.128pt")).contains("font-size:10.13pt"));
}

#[test]
fn a_width_is_written_in_pixels_and_in_points() {
    let mut b = plain(&[&["a", "b"]]);
    b.col_widths = vec![width(60.0), None];
    let html = to_html(&b);
    assert!(html.contains("<col width=\"80\" style=\"width:60pt\"><col>"), "got {html}");
    let b = from_html("<table><col width=0><col width='-1pt'><tr><td>a</td><td>b</td></tr></table>")
        .unwrap();
    assert_eq!(b.col_widths, vec![None, None]);
    assert!(!to_html(&b).contains("<col"));
}

#[test]
fn whitespace_at_the_ends_of_a_text_comes_back() {
    let b = plain(&[
        &["  x", "x  ", "\tx\n", " ", "\n\n"],
        &["\u{a0}x\u{3000}", "a\n b", " a  b ", "", "&#32;"],
    ]);
    let html = to_html(&b);
    assert!(html.contains("<td>&#32;&#32;x</td>"), "got {html}");
    assert_eq!(from_html(&html).unwrap(), b);
}

#[test]
fn underline_and_strikethrough_come_back_as_they_were_said() {
    let said = [None, Some(false), Some(true)];
    let mut b = ClipBlock::new(3, 3);
    for (r, underline) in said.into_iter().enumerate() {
        for (c, strikethrough) in said.into_iter().enumerate() {
            let typography = Typography { underline, strikethrough, ..Default::default() };
            let style = ManualStyle { typography, ..Default::default() };
            b.set(r, c, ClipCell { text: "x".into(), style, ..Default::default() });
        }
    }
    assert_eq!(from_html(&to_html(&b)).unwrap(), b);
    // Markup from elsewhere says both with its one declaration.
    let html = "<table><tr><td style=\"text-decoration:underline\">x</td></tr></table>";
    let style = from_html(html).unwrap().get(0, 0).unwrap().style.clone();
    let lines = style.typography;
    assert_eq!((lines.underline, lines.strikethrough), (Some(true), Some(false)));
}

#[test]
fn a_field_that_spells_an_attribute_comes_back() {
    let mut b = ClipBlock::new(1, 2);
    b.set(
        0,
        0,
        ClipCell {
            text: "1".into(),
            formula: Some("=A1 data-ferrix-origin=3,4 colspan=2 style='color:#f00'".into()),
            format: Some("0 data-ferrix-numfmt=1".into()),
            ..Default::default()
        },
    );
    b.set(
        0,
        1,
        ClipCell {
            text: "2".into(),
            format: Some("0\"it's; so\";'0'".into()),
            style: ManualStyle {
                typography: Typography::default().with_bold(true),
                ..Default::default()
            },
            ..Default::default()
        },
    );
    assert_eq!(from_html(&to_html(&b)).unwrap(), b);
}
