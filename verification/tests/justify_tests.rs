use pprint::smart_join_breaks;
use pprint::text;
use pprint::text_justify;
use pprint::Printer;

#[test]
fn test_justify_empty() {
    let mut out: Vec<usize> = Vec::new();
    text_justify(4, &Vec::new(), 20, &mut out);
    assert_eq!(out, Vec::<usize>::new());
}

#[test]
fn test_justify_single_line_when_fits() {
    let mut out: Vec<usize> = Vec::new();
    text_justify(4, &vec![1, 1, 1], 20, &mut out);
    assert_eq!(out, vec![3]);
}

#[test]
fn test_justify_breaks_wide_items() {
    let mut out: Vec<usize> = Vec::new();
    text_justify(12, &vec![10, 10, 10], 20, &mut out);
    assert_eq!(out, vec![1, 3]);
}

#[test]
fn test_justify_partitions_all_items() {
    let lens: Vec<usize> = (0..40).map(|i| 1 + (i % 7)).collect();
    let mut out: Vec<usize> = Vec::new();
    text_justify(3, &lens, 11, &mut out);
    assert!(!out.is_empty());
    assert_eq!(*out.last().unwrap(), lens.len());
    let mut prev = 0;
    for &b in &out {
        assert!(b > prev, "break positions must increase: {:?}", out);
        prev = b;
    }
}

#[test]
fn test_justify_appends_to_output() {
    let mut out: Vec<usize> = vec![99];
    text_justify(4, &vec![1, 1, 1], 20, &mut out);
    assert_eq!(out, vec![99, 3]);
}

#[test]
fn test_justify_prefers_balanced_lines() {
    // Eight equal items, two to a full line: breaking evenly beats any
    // lopsided split, so the breaks march in equal steps.
    let mut out: Vec<usize> = Vec::new();
    text_justify(4, &vec![2, 2, 2, 2, 2, 2, 2, 2], 8, &mut out);
    assert_eq!(out, vec![2, 4, 6, 8]);
}

#[test]
fn test_smart_join_breaks_single_line() {
    let docs = vec![text("a"), text("b")];
    let sep = text(", ");
    let printer = Printer::default();
    let breaks = smart_join_breaks(&sep, &docs, &printer);
    assert_eq!(breaks, vec![2]);
}

#[test]
fn test_smart_join_breaks_inserts_interior_break() {
    let docs = vec![text("aaaaaaaaaa"), text("bbbbbbbbbb"), text("cccccccccc")];
    let sep = text(", ");
    let printer = Printer::new(80, 4, false, false);
    let breaks = smart_join_breaks(&sep, &docs, &printer);
    assert_eq!(*breaks.last().unwrap(), 3);
    assert!(breaks.len() > 1, "wide items should break: {:?}", breaks);
}

#[test]
fn test_count_text_length_values() {
    let printer = Printer::default();
    assert_eq!(pprint::count_text_length(&text("hello"), &printer), 5);
    assert_eq!(pprint::count_text_length(&pprint::Doc::Hardline, &printer), 80);
    assert_eq!(pprint::count_text_length(&pprint::Doc::Softline, &printer), 40);
    assert_eq!(
        pprint::count_text_length(&pprint::doc::concat(vec![text("ab"), text("cd")]), &printer),
        4
    );
    assert_eq!(pprint::count_text_length(&pprint::indent(text("ab")), &printer), 6);
    assert_eq!(pprint::count_text_length(&pprint::dedent(text("ab")), &printer), 0);
    assert_eq!(
        pprint::count_text_length(
            &pprint::if_break(text("aaa"), text("b")),
            &printer
        ),
        3
    );
}

#[test]
fn test_count_join_length_values() {
    let printer = Printer::default();
    let docs = vec![text("a"), text("bb"), text("c")];
    assert_eq!(pprint::count_join_length(&text(", "), &docs, &printer), 8);
    assert_eq!(pprint::count_join_length(&text(", "), &Vec::new(), &printer), 0);
}
