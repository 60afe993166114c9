//! The width estimator: a pure measure of how wide a document would render
//! on a single line, used by `Group` and the smart-join preamble to decide
//! breaking.

use vstd::prelude::*;
use vstd::utf8::encode_utf8;

use crate::doc::Doc;
use crate::doc::doc_height;
use crate::doc::seq_height;
use crate::doc::max_nat;
use crate::doc::lemma_seq_height_bound;
use crate::print::Printer;

verus! {

/// The width in bytes that a text payload contributes.
pub open spec fn text_width(s: Seq<char>) -> usize {
    encode_utf8(s).len() as usize
}

/// Product clamped to the machine word, mirroring a checked multiply whose
/// overflow is treated as "as wide as possible".
pub open spec fn cap_mul(a: usize, b: usize) -> usize {
    if a * b > usize::MAX {
        usize::MAX
    } else {
        (a * b) as usize
    }
}

/// Estimated rendered width of a document.
///
/// Break sentinels are deliberately over-approximated: a hardline counts as
/// the full page width, so any group that contains one always breaks.  All
/// arithmetic saturates at the machine word.
pub open spec fn estimate(d: Doc, p: Printer) -> usize
    decreases doc_height(d), 0int, 0int,
{
    match d {
        Doc::Null => 0,
        Doc::Text(s) => text_width(s@),
        Doc::Concat(ds) => estimate_seq(ds@, 0, p),
        Doc::Group(x) => estimate(*x, p),
        Doc::Indent(x) => estimate(*x, p).saturating_add(p.indent),
        Doc::Dedent(x) => estimate(*x, p).saturating_sub(p.indent),
        Doc::Join(sep, ds) => estimate_join(*sep, ds@, p),
        Doc::SmartJoin(sep, ds) => estimate_join(*sep, ds@, p),
        Doc::IfBreak(a, b) => max_usize(estimate(*a, p), estimate(*b, p)),
        Doc::Hardline => p.max_width,
        Doc::Softline => p.max_width / 2,
        Doc::Mediumline => p.max_width / 2,
        Doc::Line => p.max_width,
    }
}

/// Estimated width of the tail `ds[i..]` of a concatenation.
pub open spec fn estimate_seq(ds: Seq<Doc>, i: int, p: Printer) -> usize
    decreases seq_height(ds), 1int, ds.len() - i,
    via estimate_seq_decreases
{
    if i < 0 || i >= ds.len() {
        0
    } else {
        estimate(ds[i], p).saturating_add(estimate_seq(ds, i + 1, p))
    }
}

#[via_fn]
proof fn estimate_seq_decreases(ds: Seq<Doc>, i: int, p: Printer) {
    if 0 <= i < ds.len() {
        lemma_seq_height_bound(ds, i);
    }
}

/// Estimated width of a join: the widths of the items plus one separator
/// width for each adjacent pair.
pub open spec fn estimate_join(sep: Doc, ds: Seq<Doc>, p: Printer) -> usize
    decreases max_nat(doc_height(sep), seq_height(ds)), 2int, 0int,
{
    if ds.len() == 0 {
        0
    } else {
        estimate_join_seq(sep, ds, 0, p).saturating_add(
            cap_mul(estimate_in_join(sep, ds, p), (ds.len() - 1) as usize),
        )
    }
}

/// Width of the separator of a join, carried on a measure that dominates
/// both the separator and the items.
pub open spec fn estimate_in_join(sep: Doc, ds: Seq<Doc>, p: Printer) -> usize
    decreases max_nat(doc_height(sep), seq_height(ds)), 1int, 0int,
    via estimate_in_join_decreases
{
    estimate(sep, p)
}

#[via_fn]
proof fn estimate_in_join_decreases(sep: Doc, ds: Seq<Doc>, p: Printer) {
}

/// Sum of the estimated widths of the items `ds[i..]` of a join.
pub open spec fn estimate_join_seq(sep: Doc, ds: Seq<Doc>, i: int, p: Printer) -> usize
    decreases max_nat(doc_height(sep), seq_height(ds)), 1int, ds.len() - i,
    via estimate_join_seq_decreases
{
    if i < 0 || i >= ds.len() {
        0
    } else {
        estimate(ds[i], p).saturating_add(estimate_join_seq(sep, ds, i + 1, p))
    }
}

#[via_fn]
proof fn estimate_join_seq_decreases(sep: Doc, ds: Seq<Doc>, i: int, p: Printer) {
    if 0 <= i < ds.len() {
        lemma_seq_height_bound(ds, i);
    }
}

pub open spec fn max_usize(a: usize, b: usize) -> usize {
    if a >= b {
        a
    } else {
        b
    }
}

/// Saturating cube used by the justifier's badness measure.
pub open spec fn cap_cube(d: usize) -> usize {
    cap_mul(cap_mul(d, d), d)
}

/// Compute the estimated width of a document without rendering it.
///
/// Returns exactly the pure measure [`estimate`].
pub fn count_text_length(doc: &Doc, printer: &Printer) -> (r: usize)
    ensures
        r == estimate(*doc, *printer),
    decreases doc_height(*doc), 0int, 0int,
{
    match doc {
        Doc::Null => 0,
        Doc::Text(s) => s.as_str().len(),
        Doc::Concat(ds) => count_seq_length(ds, 0, printer),
        Doc::Group(x) => count_text_length(x, printer),
        Doc::Indent(x) => count_text_length(x, printer).saturating_add(printer.indent),
        Doc::Dedent(x) => count_text_length(x, printer).saturating_sub(printer.indent),
        Doc::Join(sep, ds) => count_join_length(sep, ds, printer),
        Doc::SmartJoin(sep, ds) => count_join_length(sep, ds, printer),
        Doc::IfBreak(a, b) => {
            let wa = count_text_length(a, printer);
            let wb = count_text_length(b, printer);
            if wa >= wb {
                wa
            } else {
                wb
            }
        },
        Doc::Hardline => printer.max_width,
        Doc::Softline => printer.max_width / 2,
        Doc::Mediumline => printer.max_width / 2,
        Doc::Line => printer.max_width,
    }
}

/// Sum of the estimated widths of the documents `ds[i..]`.
fn count_seq_length(ds: &Vec<Doc>, i: usize, printer: &Printer) -> (r: usize)
    requires
        i <= ds@.len(),
    ensures
        r == estimate_seq(ds@, i as int, *printer),
    decreases seq_height(ds@), 1int, ds@.len() - i,
{
    if i == ds.len() {
        0
    } else {
        proof {
            lemma_seq_height_bound(ds@, i as int);
        }
        let w = count_text_length(&ds[i], printer);
        w.saturating_add(count_seq_length(ds, i + 1, printer))
    }
}

/// Estimated width of a join of `docs` on the separator `sep`: the item
/// widths plus one separator width per adjacent pair.
///
/// Returns exactly the pure measure [`estimate_join`].
pub fn count_join_length(sep: &Doc, docs: &Vec<Doc>, printer: &Printer) -> (r: usize)
    ensures
        r == estimate_join(*sep, docs@, *printer),
    decreases max_nat(doc_height(*sep), seq_height(docs@)), 2int, 0int,
{
    if docs.len() == 0 {
        return 0;
    }
    let doc_len = count_join_seq_length(sep, docs, 0, printer);
    let sep_len = count_sep_length(sep, docs, printer);
    let total_sep = match sep_len.checked_mul(docs.len() - 1) {
        Some(v) => v,
        None => usize::MAX,
    };
    doc_len.saturating_add(total_sep)
}

/// Width of the separator of a join.
fn count_sep_length(sep: &Doc, docs: &Vec<Doc>, printer: &Printer) -> (r: usize)
    ensures
        r == estimate_in_join(*sep, docs@, *printer),
    decreases max_nat(doc_height(*sep), seq_height(docs@)), 1int, 0int,
{
    count_text_length(sep, printer)
}

/// Sum of the estimated widths of the join items `docs[i..]`.
fn count_join_seq_length(sep: &Doc, docs: &Vec<Doc>, i: usize, printer: &Printer) -> (r: usize)
    requires
        i <= docs@.len(),
    ensures
        r == estimate_join_seq(*sep, docs@, i as int, *printer),
    decreases max_nat(doc_height(*sep), seq_height(docs@)), 1int, docs@.len() - i,
{
    if i == docs.len() {
        0
    } else {
        proof {
            lemma_seq_height_bound(docs@, i as int);
        }
        let w = count_text_length(&docs[i], printer);
        w.saturating_add(count_join_seq_length(sep, docs, i + 1, printer))
    }
}

} // verus!
