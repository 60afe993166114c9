//! Conversions from plain values and containers into documents: the
//! renderings that the derivation layer and the built-in container
//! conversions produce.

use vstd::prelude::*;
use vstd::utf8::encode_utf8;

use crate::doc::Doc;
use crate::doc::text;
use crate::doc::group;
use crate::doc::wrap;
use crate::doc::join;
use crate::doc::smart_join;
use crate::doc::indent;
use crate::doc::dedent;
use crate::num::dec_digits;
use crate::num::signed_dec_digits;
use crate::num::dec_bytes_u128;
use crate::num::dec_bytes_i128;
use crate::num::lemma_dec_digits_ascii;
use crate::print::bytes_to_string;
use crate::print::lemma_ascii_valid_utf8;

verus! {

/// The document is a text node with the given characters.
pub open spec fn is_text(d: Doc, s: Seq<char>) -> bool {
    d matches Doc::Text(t) && t@ == s
}

/// The document is a text node whose bytes are the given ones.
pub open spec fn is_text_bytes(d: Doc, bs: Seq<u8>) -> bool {
    d matches Doc::Text(t) && encode_utf8(t@) == bs
}

/// The document is the separator of a map rendering: a comma-space
/// followed by a hard line break.
pub open spec fn is_comma_hardline(d: Doc) -> bool {
    d matches Doc::Concat(c) && c@.len() == 2 && is_text(c@[0], ", "@) && c@[1] == Doc::Hardline
}

/// The document renders a sequence: the items smart-joined on comma-space,
/// grouped, wrapped in the given brackets, and indented.
pub open spec fn is_bracketed_smart_join(
    r: Doc,
    l: Seq<char>,
    items: Seq<Doc>,
    rt: Seq<char>,
) -> bool {
    r matches Doc::Indent(w) && (*w) matches Doc::Concat(parts) && parts@.len() == 3 && is_text(
        parts@[0],
        l,
    ) && (parts@[1] matches Doc::Group(g) && (*g) matches Doc::SmartJoin(s, ds) && is_text(
        *s,
        ", "@,
    ) && ds@ == items) && is_text(parts@[2], rt)
}

/// The document renders a key-value entry: the key, a colon-space, the
/// value.
pub open spec fn is_entry_doc(d: Doc, k: Doc, v: Doc) -> bool {
    d matches Doc::Concat(c) && c@.len() == 3 && c@[0] == k && is_text(c@[1], ": "@) && c@[2] == v
}

/// The document renders a map body: the entries joined on comma and hard
/// break, grouped, braced, and indented.
pub open spec fn is_braced_join(r: Doc, items: Seq<Doc>) -> bool {
    r matches Doc::Indent(w) && (*w) matches Doc::Concat(parts) && parts@.len() == 3 && is_text(
        parts@[0],
        "{"@,
    ) && (parts@[1] matches Doc::Group(g) && (*g) matches Doc::Join(s, ds) && is_comma_hardline(*s)
        && ds@ == items) && is_text(parts@[2], "}"@)
}

/// The document renders a record body: the fields joined on comma and hard
/// break, grouped, wrapped in braces with the closing brace dedented, and
/// indented.
pub open spec fn is_record_body(r: Doc, fields: Seq<Doc>) -> bool {
    r matches Doc::Indent(w) && (*w) matches Doc::Concat(parts) && parts@.len() == 3 && is_text(
        parts@[0],
        "{"@,
    ) && (parts@[1] matches Doc::Group(g) && (*g) matches Doc::Join(s, ds) && is_comma_hardline(*s)
        && ds@ == fields) && (parts@[2] matches Doc::Dedent(b) && is_text(*b, "}"@))
}

/// The document is a record header: the type name and a trailing space,
/// grouped and indented.
pub open spec fn is_record_header(d: Doc, s: Seq<char>) -> bool {
    d matches Doc::Indent(h) && (*h) matches Doc::Group(g) && is_text(*g, s)
}

/// An unsigned integer renders to its decimal digits.
pub fn doc_from_u128(x: u128) -> (r: Doc)
    ensures
        is_text_bytes(r, dec_digits(x as nat)),
{
    let bytes = dec_bytes_u128(x);
    proof {
        lemma_dec_digits_ascii(x as nat);
        lemma_ascii_valid_utf8(bytes@);
    }
    Doc::Text(bytes_to_string(bytes))
}

/// A signed integer renders to its decimal digits, a minus sign first
/// when negative.
pub fn doc_from_i128(x: i128) -> (r: Doc)
    ensures
        is_text_bytes(r, signed_dec_digits(x as int)),
{
    let bytes = dec_bytes_i128(x);
    proof {
        if x < 0 {
            lemma_dec_digits_ascii((-(x as int)) as nat);
        } else {
            lemma_dec_digits_ascii(x as nat);
        }
        lemma_ascii_valid_utf8(bytes@);
    }
    Doc::Text(bytes_to_string(bytes))
}

/// An unsigned 64-bit integer renders to its decimal digits.
pub fn doc_from_u64(x: u64) -> (r: Doc)
    ensures
        is_text_bytes(r, dec_digits(x as nat)),
{
    doc_from_u128(x as u128)
}

/// A signed 64-bit integer renders to its decimal digits.
pub fn doc_from_i64(x: i64) -> (r: Doc)
    ensures
        is_text_bytes(r, signed_dec_digits(x as int)),
{
    doc_from_i128(x as i128)
}

/// A machine-sized integer renders to its decimal digits.
pub fn doc_from_usize(x: usize) -> (r: Doc)
    ensures
        is_text_bytes(r, dec_digits(x as nat)),
{
    doc_from_u128(x as u128)
}

/// A boolean renders to the literal `true` or `false`.
pub fn doc_from_bool(b: bool) -> (r: Doc)
    ensures
        b ==> is_text(r, "true"@),
        !b ==> is_text(r, "false"@),
{
    if b {
        text("true")
    } else {
        text("false")
    }
}

/// The unit value renders to `()`.
pub fn doc_from_unit() -> (r: Doc)
    ensures
        is_text(r, "()"@),
{
    text("()")
}

/// An optional document renders to its value if present, else to the
/// literal `None`.
pub fn doc_from_option(opt: Option<Doc>) -> (r: Doc)
    ensures
        opt matches Some(d) ==> r == d,
        opt is None ==> is_text(r, "None"@),
{
    match opt {
        Some(d) => d,
        None => text("None"),
    }
}

/// A sequence renders as its elements joined by comma-space under a smart
/// join, wrapped in square brackets, grouped, and indented; an empty
/// sequence renders as the literal `[]`.
pub fn doc_from_vec(items: Vec<Doc>) -> (r: Doc)
    ensures
        items@.len() == 0 ==> is_text(r, "[]"@),
        items@.len() > 0 ==> is_bracketed_smart_join(r, "["@, items@, "]"@),
{
    if items.len() == 0 {
        text("[]")
    } else {
        indent(wrap(text("["), group(smart_join(text(", "), items)), text("]")))
    }
}

/// A set renders like a sequence, but in braces.
pub fn doc_from_set_items(items: Vec<Doc>) -> (r: Doc)
    ensures
        items@.len() == 0 ==> is_text(r, "{}"@),
        items@.len() > 0 ==> is_bracketed_smart_join(r, "{"@, items@, "}"@),
{
    if items.len() == 0 {
        text("{}")
    } else {
        indent(wrap(text("{"), group(smart_join(text(", "), items)), text("}")))
    }
}

/// A tuple renders as its elements smart-joined on comma-space, grouped,
/// and parenthesized.
pub fn doc_from_tuple_items(items: Vec<Doc>) -> (r: Doc)
    ensures
        r matches Doc::Concat(parts) && parts@.len() == 3 && is_text(parts@[0], "("@) && (
        parts@[1] matches Doc::Group(g) && (*g) matches Doc::SmartJoin(s, ds) && is_text(*s, ", "@)
            && ds@ == items@) && is_text(parts@[2], ")"@),
{
    wrap(text("("), group(smart_join(text(", "), items)), text(")"))
}

/// One key-value entry of a map rendering.
pub fn entry_doc(key: Doc, value: Doc) -> (r: Doc)
    ensures
        is_entry_doc(r, key, value),
{
    let mut parts: Vec<Doc> = Vec::new();
    parts.push(key);
    parts.push(text(": "));
    parts.push(value);
    Doc::Concat(parts)
}

/// A map renders as its entries joined by comma and hard break, grouped,
/// braced, and indented; an empty map renders as the literal `{}`.
pub fn doc_from_map_items(entries: Vec<Doc>) -> (r: Doc)
    ensures
        entries@.len() == 0 ==> is_text(r, "{}"@),
        entries@.len() > 0 ==> is_braced_join(r, entries@),
{
    if entries.len() == 0 {
        text("{}")
    } else {
        let mut sep_parts: Vec<Doc> = Vec::new();
        sep_parts.push(text(", "));
        sep_parts.push(Doc::Hardline);
        let sep = Doc::Concat(sep_parts);
        indent(wrap(text("{"), group(join(sep, entries)), text("}")))
    }
}

/// One field of a record rendering: the field name, a colon-space, and
/// the rendered value.
pub fn field_doc(name: &str, value: Doc) -> (r: Doc)
    ensures
        r matches Doc::Concat(c) && c@.len() == 3 && is_text(c@[0], name@) && is_text(
            c@[1],
            ": "@,
        ) && c@[2] == value,
{
    let mut parts: Vec<Doc> = Vec::new();
    parts.push(text(name));
    parts.push(text(": "));
    parts.push(value);
    Doc::Concat(parts)
}

/// A record renders as its fields joined by comma and hard break,
/// grouped, wrapped in braces with the closing brace dedented, and
/// indented; in verbose mode a grouped, indented header with the type
/// name and a trailing space stands before the body.
pub fn record_doc(rec_name: &str, verbose: bool, fields: Vec<Doc>) -> (r: Doc)
    ensures
        !verbose ==> is_record_body(r, fields@),
        verbose ==> (r matches Doc::Concat(c) && c@.len() == 2 && is_record_header(
            c@[0],
            rec_name@ + " "@,
        ) && is_record_body(c@[1], fields@)),
{
    let mut sep_parts: Vec<Doc> = Vec::new();
    sep_parts.push(text(", "));
    sep_parts.push(Doc::Hardline);
    let sep = Doc::Concat(sep_parts);
    let body = indent(wrap(text("{"), group(join(sep, fields)), dedent(text("}"))));
    if verbose {
        let mut header_text = rec_name.to_owned();
        header_text.append(" ");
        let header = indent(group(Doc::Text(header_text)));
        let mut parts: Vec<Doc> = Vec::new();
        parts.push(header);
        parts.push(body);
        Doc::Concat(parts)
    } else {
        body
    }
}

/// A tagged-union variant renders as its fields' rendering; in verbose
/// mode the variant name stands before it and the rendering is
/// parenthesized.
pub fn variant_doc(variant_name: &str, verbose: bool, inner: Doc) -> (r: Doc)
    ensures
        !verbose ==> r == inner,
        verbose ==> (r matches Doc::Concat(c) && c@.len() == 2 && is_text(c@[0], variant_name@) && (
        c@[1] matches Doc::Concat(w) && w@.len() == 3 && is_text(w@[0], "("@) && w@[1] == inner
            && is_text(w@[2], ")"@))),
{
    if verbose {
        let wrapped = wrap(text("("), inner, text(")"));
        let mut parts: Vec<Doc> = Vec::new();
        parts.push(text(variant_name));
        parts.push(wrapped);
        Doc::Concat(parts)
    } else {
        inner
    }
}

} // verus!
