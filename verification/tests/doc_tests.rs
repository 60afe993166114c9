use pprint::convert::doc_from_bool;
use pprint::convert::doc_from_i64;
use pprint::convert::doc_from_map_items;
use pprint::convert::doc_from_option;
use pprint::convert::doc_from_set_items;
use pprint::convert::doc_from_tuple_items;
use pprint::convert::doc_from_u128;
use pprint::convert::doc_from_i128;
use pprint::convert::doc_from_unit;
use pprint::convert::doc_from_vec;
use pprint::convert::entry_doc;
use pprint::convert::field_doc;
use pprint::convert::record_doc;
use pprint::convert::variant_doc;
use pprint::group;
use pprint::hardline;
use pprint::if_break;
use pprint::indent;
use pprint::dedent;
use pprint::join;
use pprint::pprint;
use pprint::smart_join;
use pprint::softline;
use pprint::text;
use pprint::wrap;
use pprint::Doc;
use pprint::Printer;

#[test]
fn test_vec() {
    let s = wrap(
        text("["),
        join(
            pprint::doc::concat(vec![text(","), Doc::Hardline]),
            vec![doc_from_i64(1), doc_from_i64(2), doc_from_i64(3)],
        ),
        text("]"),
    );

    let pretty = pprint(s, None);
    println!("{}", pretty);
}

#[test]
fn test_text_hello() {
    assert_eq!(pprint(text("hello"), None), "hello");
}

#[test]
fn test_vec_fits_one_line() {
    let items = vec![doc_from_i64(1), doc_from_i64(2), doc_from_i64(3)];
    assert_eq!(pprint(doc_from_vec(items), None), "[1, 2, 3]");
}

#[test]
fn test_vec_empty() {
    assert_eq!(pprint(doc_from_vec(Vec::new()), None), "[]");
}

#[test]
fn test_vec_breaks_multi_line() {
    let items: Vec<Doc> = (1..30).map(doc_from_i64).collect();
    let printer = Printer::new(32, 4, false, false);
    let pretty = pprint(doc_from_vec(items), Some(printer));
    let lines: Vec<&str> = pretty.lines().collect();
    assert!(lines.len() > 2, "expected a multi-line rendering: {:?}", pretty);
    assert_eq!(*lines.last().unwrap(), "]");
    for line in &lines[1..lines.len() - 1] {
        assert!(line.starts_with("    "), "continuation line not indented: {:?}", line);
    }
    let flat: String = pretty
        .chars()
        .filter(|c| *c != '\n' && *c != ' ')
        .collect();
    assert_eq!(
        flat,
        "[1,2,3,4,5,6,7,8,9,10,11,12,13,14,15,16,17,18,19,20,21,22,23,24,25,26,27,28,29]"
    );
}

#[test]
fn test_hardline_indent() {
    let d = indent(pprint::doc::concat(vec![text("a"), hardline(), text("b")]));
    assert_eq!(pprint(d, None), "a\n    b");
}

#[test]
fn test_hardline_tabs() {
    let d = indent(pprint::doc::concat(vec![text("a"), hardline(), text("b")]));
    let printer = Printer::new(80, 1, false, true);
    assert_eq!(pprint(d, Some(printer)), "a\n\tb");
}

#[test]
fn test_if_break_after_hardline() {
    let d = pprint::doc::concat(vec![hardline(), if_break(text(","), text(""))]);
    assert_eq!(pprint(d, None), "\n,");
}

#[test]
fn test_if_break_without_break() {
    let d = if_break(text(","), text(""));
    assert_eq!(pprint(d, None), "");
}

#[test]
fn test_smart_join_single_line() {
    let d = smart_join(text(", "), vec![text("a"), text("b")]);
    assert_eq!(pprint(d, None), "a, b");
}

#[test]
fn test_group_fits() {
    assert_eq!(pprint(group(text("hello")), None), "hello");
}

#[test]
fn test_group_breaks() {
    let long: String = "x".repeat(81);
    let expected = format!("\n{}\n", long);
    assert_eq!(pprint(group(text(&long)), None), expected);
}

#[test]
fn test_softline_fires_only_past_width() {
    let long: String = "x".repeat(85);
    let d = pprint::doc::concat(vec![text(&long), softline(), text("b")]);
    assert_eq!(pprint(d, None), format!("{}\nb", long));

    let d2 = pprint::doc::concat(vec![text("a"), softline(), text("b")]);
    assert_eq!(pprint(d2, None), "ab");
}

#[test]
fn test_mediumline_fires_past_half_width() {
    let long: String = "x".repeat(45);
    let d = pprint::doc::concat(vec![text(&long), Doc::Mediumline, text("b")]);
    assert_eq!(pprint(d, None), format!("{}\nb", long));

    let d2 = pprint::doc::concat(vec![text("a"), Doc::Mediumline, text("b")]);
    assert_eq!(pprint(d2, None), "ab");
}

#[test]
fn test_line_no_indent() {
    let d = indent(pprint::doc::concat(vec![text("a"), Doc::Line, text("b")]));
    assert_eq!(pprint(d, None), "a\nb");
}

#[test]
fn test_indent_dedent_cancel() {
    let d = indent(dedent(pprint::doc::concat(vec![text("a"), hardline(), text("b")])));
    assert_eq!(pprint(d, None), "a\nb");
}

#[test]
fn test_dedent_saturates_at_zero() {
    let d = dedent(dedent(pprint::doc::concat(vec![text("a"), hardline(), text("b")])));
    assert_eq!(pprint(d, None), "a\nb");
}

#[test]
fn test_numbers_render_decimal() {
    assert_eq!(pprint(doc_from_i64(0), None), "0");
    assert_eq!(pprint(doc_from_i64(-123), None), "-123");
    assert_eq!(pprint(doc_from_u128(u128::MAX), None), u128::MAX.to_string());
    assert_eq!(pprint(doc_from_i128(i128::MIN), None), i128::MIN.to_string());
}

#[test]
fn test_bool_unit_option() {
    assert_eq!(pprint(doc_from_bool(true), None), "true");
    assert_eq!(pprint(doc_from_bool(false), None), "false");
    assert_eq!(pprint(doc_from_unit(), None), "()");
    assert_eq!(pprint(doc_from_option(Some(text("x")), ), None), "x");
    assert_eq!(pprint(doc_from_option(None), None), "None");
}

#[test]
fn test_tuple_renders_parenthesized() {
    let d = doc_from_tuple_items(vec![doc_from_i64(1), doc_from_i64(2)]);
    assert_eq!(pprint(d, None), "(1, 2)");
}

#[test]
fn test_set_renders_braced() {
    let d = doc_from_set_items(vec![doc_from_i64(1), doc_from_i64(2)]);
    assert_eq!(pprint(d, None), "{1, 2}");
    assert_eq!(pprint(doc_from_set_items(Vec::new()), None), "{}");
}

#[test]
fn test_map_renders_entries() {
    assert_eq!(pprint(doc_from_map_items(Vec::new()), None), "{}");
    let one = doc_from_map_items(vec![entry_doc(text("a"), doc_from_i64(1))]);
    assert_eq!(pprint(one, None), "{a: 1}");
}

#[test]
fn test_record_plain_and_verbose() {
    let fields = vec![field_doc("a", doc_from_i64(1))];
    assert_eq!(pprint(record_doc("Foo", false, fields), None), "{a: 1}");
    let fields2 = vec![field_doc("a", doc_from_i64(1))];
    assert_eq!(pprint(record_doc("Foo", true, fields2), None), "Foo {a: 1}");
}

#[test]
fn test_variant_plain_and_verbose() {
    assert_eq!(pprint(variant_doc("There", false, text("x")), None), "x");
    assert_eq!(pprint(variant_doc("There", true, text("x")), None), "There(x)");
}

#[test]
fn test_wrap_concatenates() {
    assert_eq!(pprint(wrap(text("("), text("m"), text(")")), None), "(m)");
}

#[test]
fn test_concat_is_concatenation() {
    let left = pprint(text("ab"), None);
    let right = pprint(doc_from_i64(17), None);
    let both = pprint(pprint::doc::concat(vec![text("ab"), doc_from_i64(17)]), None);
    assert_eq!(both, format!("{}{}", left, right));
}

#[test]
fn test_utf8_text_passthrough() {
    assert_eq!(pprint(text("héllo — ∀x"), None), "héllo — ∀x");
}

#[test]
fn test_column_counts_bytes() {
    // Two-byte characters: forty of them exceed the default width of 80.
    let long: String = "é".repeat(41);
    let d = pprint::doc::concat(vec![text(&long), softline(), text("b")]);
    assert_eq!(pprint(d, None), format!("{}\nb", long));
}

#[test]
fn test_if_break_after_unfired_softline() {
    // A softline counts as a break node even when it emits nothing.
    let d = pprint::doc::concat(vec![text("a"), softline(), if_break(text(","), text(""))]);
    assert_eq!(pprint(d, None), "a,");
}

#[test]
fn test_printer_configuration() {
    let p = Printer::new(32, 2, false, false);
    assert_eq!(p.max_width, 32);
    assert_eq!(p.indent, 2);
    assert!(!p.break_long_text);
    assert!(!p.use_tabs);
    let d = Printer::default();
    assert_eq!(d.max_width, 80);
    assert_eq!(d.indent, 4);
}

#[test]
fn test_nested_join_of_joins() {
    let inner1 = join(text("+"), vec![text("a"), text("b")]);
    let inner2 = join(text("+"), vec![text("c"), text("d")]);
    let outer = join(text(" | "), vec![inner1, inner2]);
    assert_eq!(pprint(outer, None), "a+b | c+d");
}

#[test]
fn test_null_contributes_nothing() {
    let d = pprint::doc::concat(vec![text("a"), Doc::Null, text("b")]);
    assert_eq!(pprint(d, None), "ab");
}
