use ferrix_core::index::TextIndex;
use ferrix_core::markup::{attr, escape_attr, strip_tags, style_prop, unescape, write_text};
use ferrix_core::table::{CellRef, Rgb};
use ferrix_core::text::{chars_of, is_text_before, push_decimal, string_of, trim_range};

fn through(s: &str, f: fn(&mut Vec<char>, &Vec<char>)) -> String {
    let mut out = Vec::new();
    f(&mut out, &chars_of(s));
    string_of(&out)
}

#[test]
fn escaped_text_is_inert_and_comes_back() {
    for s in ["", "plain", "<td>", "a & b", "\"q\" 'q'", "&amp;lt;", "1 < 2\n> 0", " x\t", "\n"] {
        let text = through(s, write_text);
        let bare = text.replace("<br>", "");
        assert!(!bare.contains('<') && !bare.contains('>'));
        assert_eq!(string_of(&strip_tags(&chars_of(&text))), s);
        let inside = through(s, escape_attr);
        assert!(!inside.contains(|c: char| c == '"' || c == '\'' || c == '<' || c.is_whitespace()));
        assert_eq!(string_of(&unescape(&chars_of(&inside))), s);
    }
}

#[test]
fn an_attribute_is_read_off_its_tag() {
    let tag = chars_of("<td width=12 style=\"color:#f00;mso-number-format:'0;0'\" x='y'>");
    assert_eq!(attr(&tag, "width").map(|v| string_of(&v)), Some("12".to_string()));
    assert_eq!(attr(&tag, "x").map(|v| string_of(&v)), Some("y".to_string()));
    assert_eq!(attr(&tag, "y"), None);
    assert_eq!(style_prop(&tag, "color").map(|v| string_of(&v)), Some("#f00".to_string()));
}

#[test]
fn addresses_and_colours_are_written_as_users_read_them() {
    assert_eq!(CellRef::new(0, 0).to_a1(), "A1");
    assert_eq!(CellRef::new(9, 25).to_a1(), "Z10");
    assert_eq!(CellRef::new(0, 26).to_a1(), "AA1");
    assert_eq!(CellRef::new(0, 701).to_a1(), "ZZ1");
    assert_eq!(CellRef::new(0, 702).to_a1(), "AAA1");
    let c = Rgb(0x0a, 0xff, 0x10);
    assert_eq!(Rgb::from_hex(&chars_of(&c.to_hex())), Some(c));
}

#[test]
fn text_pieces() {
    let mut s = String::from("n = ");
    push_decimal(&mut s, 1_234_567_890_123);
    assert_eq!(s, "n = 1234567890123");
    let cs = chars_of("  \u{a0}x y\t\n");
    assert_eq!(string_of(&trim_range(&cs, 0, cs.len())), "x y");
    assert!(is_text_before("a", "ab") && is_text_before("ab", "b") && !is_text_before("b", "b"));
}

#[test]
fn a_text_index_finds_what_it_holds() {
    let mut ix = TextIndex::new();
    for i in 0..2000 {
        let key = format!("key {i}");
        assert_eq!(ix.find(&key), None);
        ix.add(key);
    }
    for i in 0..2000 {
        assert_eq!(ix.find(&format!("key {i}")), Some(i));
    }
    assert_eq!(ix.len(), 2000);
    assert_eq!(ix.into_texts()[7], "key 7");
}
