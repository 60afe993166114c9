//! General laws of the layout engine, stated over the layout
//! interpretation [`lay`](crate::print::lay) and proved once for all
//! documents.

use vstd::prelude::*;
use vstd::utf8::encode_utf8;

use crate::doc::Doc;
use crate::doc::doc_height;
use crate::doc::seq_height;
use crate::doc::max_nat;
use crate::doc::lemma_seq_height_bound;
use crate::estimate::estimate;
use crate::print::Printer;
use crate::print::Layout;
use crate::print::init_layout;
use crate::print::lay;
use crate::print::lay_seq;
use crate::print::lay_join;
use crate::print::emit_break;
use crate::print::break_bytes;
use crate::print::sj_breaks;
use crate::print::sj_lens;
use crate::print::sj_sep_len;
use crate::print::sj_width;
use crate::justify::break_chain;
use crate::justify::best_next;
use crate::justify::best_cost;
use crate::justify::scan_best;
use crate::justify::line_len;
use crate::justify::line_badness;
use crate::justify::lemma_best_next_range;

verus! {

/// Grouping a document that fits the page changes nothing: the group
/// prints exactly as its child does.
pub proof fn lemma_group_fits(d: Doc, ind: usize, st: Layout, p: Printer)
    requires
        estimate(d, p) <= p.max_width,
    ensures
        lay(Doc::Group(Box::new(d)), ind, st, p) == lay(d, ind, st, p),
{
}

/// Grouping a document that overflows the page forces a break before and
/// after it: the output is the child's, preceded by a line break at the
/// group's depth and followed by one at the surrounding depth.
pub proof fn lemma_group_breaks(d: Doc, ind: usize, st: Layout, p: Printer)
    requires
        estimate(d, p) > p.max_width,
    ensures
        lay(Doc::Group(Box::new(d)), ind, st, p) == emit_break(
            lay(d, ind, emit_break(st, ind, p, true), p),
            ind.saturating_sub(p.indent),
            p,
            true,
        ),
{
}

/// Indenting a dedented document restores the original depth: the two
/// wrappers cancel whenever the indent arithmetic does not saturate.
pub proof fn lemma_indent_dedent(d: Doc, ind: usize, st: Layout, p: Printer)
    requires
        ind + p.indent <= usize::MAX,
    ensures
        lay(Doc::Indent(Box::new(Doc::Dedent(Box::new(d)))), ind, st, p) == lay(d, ind, st, p),
{
    let mid = ind.saturating_add(p.indent);
    assert(mid == ind + p.indent);
    assert(lay(Doc::Indent(Box::new(Doc::Dedent(Box::new(d)))), ind, st, p) == lay(
        Doc::Dedent(Box::new(d)),
        mid,
        st,
        p,
    ));
    assert(lay(Doc::Dedent(Box::new(d)), mid, st, p) == lay(d, mid.saturating_sub(p.indent), st, p));
    assert(mid.saturating_sub(p.indent) == ind);
}

/// Dedent clamps at depth zero: below one indent step of depth it leaves
/// the depth at zero rather than going negative.
pub proof fn lemma_dedent_saturates(d: Doc, ind: usize, st: Layout, p: Printer)
    requires
        ind <= p.indent,
    ensures
        lay(Doc::Dedent(Box::new(d)), ind, st, p) == lay(d, 0, st, p),
{
}

/// Laying a document out only appends bytes: what was already emitted
/// stays unchanged at the front of the output.
pub proof fn lemma_lay_extends(d: Doc, ind: usize, st: Layout, p: Printer)
    ensures
        lay(d, ind, st, p).out.len() >= st.out.len(),
        lay(d, ind, st, p).out.take(st.out.len() as int) == st.out,
    decreases doc_height(d), 0int, 0int,
{
    match d {
        Doc::Null => {},
        Doc::Text(s) => {
            assert(lay(d, ind, st, p).out.take(st.out.len() as int) =~= st.out);
        },
        Doc::Concat(ds) => {
            lemma_lay_seq_extends(ds@, 0, ind, st, p);
        },
        Doc::Group(x) => {
            if estimate(*x, p) > p.max_width {
                let st1 = emit_break(st, ind, p, true);
                assert(st1.out.take(st.out.len() as int) =~= st.out);
                lemma_lay_extends(*x, ind, st1, p);
                let st2 = lay(*x, ind, st1, p);
                let st3 = emit_break(st2, ind.saturating_sub(p.indent), p, true);
                assert(st3.out.take(st2.out.len() as int) =~= st2.out);
                assert(st3.out.take(st.out.len() as int) =~= st.out);
            } else {
                lemma_lay_extends(*x, ind, st, p);
            }
        },
        Doc::Indent(x) => {
            lemma_lay_extends(*x, ind.saturating_add(p.indent), st, p);
        },
        Doc::Dedent(x) => {
            lemma_lay_extends(*x, ind.saturating_sub(p.indent), st, p);
        },
        Doc::Join(sep, ds) => {
            lemma_lay_join_extends(*sep, ds@, Seq::empty(), 0, ind, st, p);
        },
        Doc::SmartJoin(sep, ds) => {
            lemma_lay_join_extends(*sep, ds@, sj_breaks(*sep, ds@, p), 0, ind, st, p);
        },
        Doc::IfBreak(a, b) => {
            if st.after_break {
                lemma_lay_extends(*a, ind, st, p);
            } else {
                lemma_lay_extends(*b, ind, st, p);
            }
        },
        Doc::Hardline => {
            assert(lay(d, ind, st, p).out.take(st.out.len() as int) =~= st.out);
        },
        Doc::Softline => {
            assert(lay(d, ind, st, p).out.take(st.out.len() as int) =~= st.out);
        },
        Doc::Mediumline => {
            assert(lay(d, ind, st, p).out.take(st.out.len() as int) =~= st.out);
        },
        Doc::Line => {
            assert(lay(d, ind, st, p).out.take(st.out.len() as int) =~= st.out);
        },
    }
}

proof fn lemma_lay_seq_extends(ds: Seq<Doc>, i: int, ind: usize, st: Layout, p: Printer)
    ensures
        lay_seq(ds, i, ind, st, p).out.len() >= st.out.len(),
        lay_seq(ds, i, ind, st, p).out.take(st.out.len() as int) == st.out,
    decreases seq_height(ds), 1int, ds.len() - i,
{
    if 0 <= i < ds.len() {
        lemma_seq_height_bound(ds, i);
        lemma_lay_extends(ds[i], ind, st, p);
        let st1 = lay(ds[i], ind, st, p);
        lemma_lay_seq_extends(ds, i + 1, ind, st1, p);
        assert(lay_seq(ds, i, ind, st, p).out.take(st.out.len() as int) =~= st.out);
    } else {
        assert(lay_seq(ds, i, ind, st, p).out.take(st.out.len() as int) =~= st.out);
    }
}

proof fn lemma_lay_join_extends(
    sep: Doc,
    ds: Seq<Doc>,
    breaks: Seq<usize>,
    i: int,
    ind: usize,
    st: Layout,
    p: Printer,
)
    ensures
        lay_join(sep, ds, breaks, i, ind, st, p).out.len() >= st.out.len(),
        lay_join(sep, ds, breaks, i, ind, st, p).out.take(st.out.len() as int) == st.out,
    decreases max_nat(doc_height(sep), seq_height(ds)), 1int, ds.len() - i,
{
    if 0 <= i < ds.len() {
        lemma_seq_height_bound(ds, i);
        let st1 = if i > 0 {
            lay(sep, ind, st, p)
        } else {
            st
        };
        if i > 0 {
            lemma_lay_extends(sep, ind, st, p);
        }
        let st2 = if i > 0 && breaks.contains(i as usize) {
            emit_break(st1, ind, p, true)
        } else {
            st1
        };
        if i > 0 && breaks.contains(i as usize) {
            assert(st2.out.take(st1.out.len() as int) =~= st1.out);
        }
        lemma_lay_extends(ds[i], ind, st2, p);
        let st3 = lay(ds[i], ind, st2, p);
        lemma_lay_join_extends(sep, ds, breaks, i + 1, ind, st3, p);
        assert(lay_join(sep, ds, breaks, i, ind, st, p).out.take(st.out.len() as int) =~= st.out);
    } else {
        assert(lay_join(sep, ds, breaks, i, ind, st, p).out.take(st.out.len() as int) =~= st.out);
    }
}

/// A document whose layout does not depend on the state it starts from:
/// it holds no soft or medium line and no break conditional, the three
/// nodes that read the current column or the preceding-break flag.  Group
/// decisions depend only on estimated widths, so groups and smart joins
/// are independent.
pub open spec fn state_independent(d: Doc) -> bool
    decreases doc_height(d), 0int, 0int,
{
    match d {
        Doc::Null => true,
        Doc::Text(_) => true,
        Doc::Concat(ds) => state_independent_seq(ds@, 0),
        Doc::Group(x) => state_independent(*x),
        Doc::Indent(x) => state_independent(*x),
        Doc::Dedent(x) => state_independent(*x),
        Doc::Join(sep, ds) => state_independent(*sep) && state_independent_seq(ds@, 0),
        Doc::SmartJoin(sep, ds) => state_independent(*sep) && state_independent_seq(ds@, 0),
        Doc::IfBreak(_, _) => false,
        Doc::Hardline => true,
        Doc::Softline => false,
        Doc::Mediumline => false,
        Doc::Line => true,
    }
}

pub open spec fn state_independent_seq(ds: Seq<Doc>, i: int) -> bool
    decreases seq_height(ds), 1int, ds.len() - i,
    via state_independent_seq_decreases
{
    if i < 0 || i >= ds.len() {
        true
    } else {
        state_independent(ds[i]) && state_independent_seq(ds, i + 1)
    }
}

#[via_fn]
proof fn state_independent_seq_decreases(ds: Seq<Doc>, i: int) {
    if 0 <= i < ds.len() {
        lemma_seq_height_bound(ds, i);
    }
}

/// The bytes a state-independent document appends do not depend on the
/// state it is laid out from.
pub proof fn lemma_lay_independent(d: Doc, ind: usize, st1: Layout, st2: Layout, p: Printer)
    requires
        state_independent(d),
    ensures
        lay(d, ind, st1, p).out.skip(st1.out.len() as int) == lay(d, ind, st2, p).out.skip(
            st2.out.len() as int,
        ),
    decreases doc_height(d), 0int, 0int,
{
    match d {
        Doc::Null => {
            assert(lay(d, ind, st1, p).out.skip(st1.out.len() as int) =~= lay(
                d,
                ind,
                st2,
                p,
            ).out.skip(st2.out.len() as int));
        },
        Doc::Text(s) => {
            assert(lay(d, ind, st1, p).out.skip(st1.out.len() as int) =~= lay(
                d,
                ind,
                st2,
                p,
            ).out.skip(st2.out.len() as int));
        },
        Doc::Concat(ds) => {
            lemma_lay_seq_independent(ds@, 0, ind, st1, st2, p);
        },
        Doc::Group(x) => {
            if estimate(*x, p) > p.max_width {
                let a1 = emit_break(st1, ind, p, true);
                let a2 = emit_break(st2, ind, p, true);
                lemma_lay_independent(*x, ind, a1, a2, p);
                lemma_lay_extends(*x, ind, a1, p);
                lemma_lay_extends(*x, ind, a2, p);
                let b1 = lay(*x, ind, a1, p);
                let b2 = lay(*x, ind, a2, p);
                assert(emit_break(b1, ind.saturating_sub(p.indent), p, true).out.skip(
                    st1.out.len() as int,
                ) =~= emit_break(b2, ind.saturating_sub(p.indent), p, true).out.skip(
                    st2.out.len() as int,
                )) by {
                    assert(b1.out =~= b1.out.take(a1.out.len() as int) + b1.out.skip(
                        a1.out.len() as int,
                    ));
                    assert(b2.out =~= b2.out.take(a2.out.len() as int) + b2.out.skip(
                        a2.out.len() as int,
                    ));
                }
            } else {
                lemma_lay_independent(*x, ind, st1, st2, p);
            }
        },
        Doc::Indent(x) => {
            lemma_lay_independent(*x, ind.saturating_add(p.indent), st1, st2, p);
        },
        Doc::Dedent(x) => {
            lemma_lay_independent(*x, ind.saturating_sub(p.indent), st1, st2, p);
        },
        Doc::Join(sep, ds) => {
            lemma_lay_join_independent(*sep, ds@, Seq::empty(), 0, ind, st1, st2, p);
        },
        Doc::SmartJoin(sep, ds) => {
            lemma_lay_join_independent(*sep, ds@, sj_breaks(*sep, ds@, p), 0, ind, st1, st2, p);
        },
        Doc::IfBreak(a, b) => {},
        Doc::Hardline => {
            assert(lay(d, ind, st1, p).out.skip(st1.out.len() as int) =~= lay(
                d,
                ind,
                st2,
                p,
            ).out.skip(st2.out.len() as int));
        },
        Doc::Softline => {},
        Doc::Mediumline => {},
        Doc::Line => {
            assert(lay(d, ind, st1, p).out.skip(st1.out.len() as int) =~= lay(
                d,
                ind,
                st2,
                p,
            ).out.skip(st2.out.len() as int));
        },
    }
}

proof fn lemma_lay_seq_independent(
    ds: Seq<Doc>,
    i: int,
    ind: usize,
    st1: Layout,
    st2: Layout,
    p: Printer,
)
    requires
        state_independent_seq(ds, i),
    ensures
        lay_seq(ds, i, ind, st1, p).out.skip(st1.out.len() as int) == lay_seq(
            ds,
            i,
            ind,
            st2,
            p,
        ).out.skip(st2.out.len() as int),
    decreases seq_height(ds), 1int, ds.len() - i,
{
    if 0 <= i < ds.len() {
        lemma_seq_height_bound(ds, i);
        lemma_lay_independent(ds[i], ind, st1, st2, p);
        lemma_lay_extends(ds[i], ind, st1, p);
        lemma_lay_extends(ds[i], ind, st2, p);
        let a1 = lay(ds[i], ind, st1, p);
        let a2 = lay(ds[i], ind, st2, p);
        lemma_lay_seq_independent(ds, i + 1, ind, a1, a2, p);
        lemma_lay_seq_extends(ds, i + 1, ind, a1, p);
        lemma_lay_seq_extends(ds, i + 1, ind, a2, p);
        let b1 = lay_seq(ds, i + 1, ind, a1, p);
        let b2 = lay_seq(ds, i + 1, ind, a2, p);
        assert(b1.out.skip(st1.out.len() as int) =~= b2.out.skip(st2.out.len() as int)) by {
            assert(b1.out =~= b1.out.take(a1.out.len() as int) + b1.out.skip(a1.out.len() as int));
            assert(b2.out =~= b2.out.take(a2.out.len() as int) + b2.out.skip(a2.out.len() as int));
            assert(a1.out =~= a1.out.take(st1.out.len() as int) + a1.out.skip(
                st1.out.len() as int,
            ));
            assert(a2.out =~= a2.out.take(st2.out.len() as int) + a2.out.skip(
                st2.out.len() as int,
            ));
        }
    } else {
        assert(lay_seq(ds, i, ind, st1, p).out.skip(st1.out.len() as int) =~= lay_seq(
            ds,
            i,
            ind,
            st2,
            p,
        ).out.skip(st2.out.len() as int));
    }
}

proof fn lemma_lay_join_independent(
    sep: Doc,
    ds: Seq<Doc>,
    breaks: Seq<usize>,
    i: int,
    ind: usize,
    st1: Layout,
    st2: Layout,
    p: Printer,
)
    requires
        state_independent(sep),
        state_independent_seq(ds, i),
    ensures
        lay_join(sep, ds, breaks, i, ind, st1, p).out.skip(st1.out.len() as int) == lay_join(
            sep,
            ds,
            breaks,
            i,
            ind,
            st2,
            p,
        ).out.skip(st2.out.len() as int),
    decreases max_nat(doc_height(sep), seq_height(ds)), 1int, ds.len() - i,
{
    if 0 <= i < ds.len() {
        lemma_seq_height_bound(ds, i);
        let a1 = if i > 0 {
            lay(sep, ind, st1, p)
        } else {
            st1
        };
        let a2 = if i > 0 {
            lay(sep, ind, st2, p)
        } else {
            st2
        };
        if i > 0 {
            lemma_lay_independent(sep, ind, st1, st2, p);
            lemma_lay_extends(sep, ind, st1, p);
            lemma_lay_extends(sep, ind, st2, p);
        }
        let b1 = if i > 0 && breaks.contains(i as usize) {
            emit_break(a1, ind, p, true)
        } else {
            a1
        };
        let b2 = if i > 0 && breaks.contains(i as usize) {
            emit_break(a2, ind, p, true)
        } else {
            a2
        };
        lemma_lay_independent(ds[i], ind, b1, b2, p);
        lemma_lay_extends(ds[i], ind, b1, p);
        lemma_lay_extends(ds[i], ind, b2, p);
        let c1 = lay(ds[i], ind, b1, p);
        let c2 = lay(ds[i], ind, b2, p);
        lemma_lay_join_independent(sep, ds, breaks, i + 1, ind, c1, c2, p);
        lemma_lay_join_extends(sep, ds, breaks, i + 1, ind, c1, p);
        lemma_lay_join_extends(sep, ds, breaks, i + 1, ind, c2, p);
        let e1 = lay_join(sep, ds, breaks, i + 1, ind, c1, p);
        let e2 = lay_join(sep, ds, breaks, i + 1, ind, c2, p);
        assert(e1.out.skip(st1.out.len() as int) =~= e2.out.skip(st2.out.len() as int)) by {
            assert(e1.out =~= e1.out.take(c1.out.len() as int) + e1.out.skip(c1.out.len() as int));
            assert(e2.out =~= e2.out.take(c2.out.len() as int) + e2.out.skip(c2.out.len() as int));
            assert(c1.out =~= c1.out.take(b1.out.len() as int) + c1.out.skip(b1.out.len() as int));
            assert(c2.out =~= c2.out.take(b2.out.len() as int) + c2.out.skip(b2.out.len() as int));
            assert(a1.out =~= a1.out.take(st1.out.len() as int) + a1.out.skip(
                st1.out.len() as int,
            ));
            assert(a2.out =~= a2.out.take(st2.out.len() as int) + a2.out.skip(
                st2.out.len() as int,
            ));
        }
    } else {
        assert(lay_join(sep, ds, breaks, i, ind, st1, p).out.skip(st1.out.len() as int)
            =~= lay_join(sep, ds, breaks, i, ind, st2, p).out.skip(st2.out.len() as int));
    }
}

/// Printing the concatenation of two documents yields the printing of the
/// first followed by the printing of the second, whenever the second does
/// not read the layout state.
pub proof fn lemma_concat_splits(d: Doc, a: Doc, b: Doc, p: Printer)
    requires
        d matches Doc::Concat(ds) && ds@ == seq![a, b],
        state_independent(b),
    ensures
        lay(d, 0, init_layout(), p).out == lay(a, 0, init_layout(), p).out + lay(
            b,
            0,
            init_layout(),
            p,
        ).out,
{
    let ds = d->Concat_0;
    let sta = lay(a, 0, init_layout(), p);
    assert(lay_seq(ds@, 0, 0, init_layout(), p) == lay_seq(ds@, 1, 0, sta, p));
    assert(lay_seq(ds@, 1, 0, sta, p) == lay_seq(ds@, 2, 0, lay(b, 0, sta, p), p));
    assert(lay_seq(ds@, 2, 0, lay(b, 0, sta, p), p) == lay(b, 0, sta, p));
    lemma_lay_independent(b, 0, sta, init_layout(), p);
    lemma_lay_extends(b, 0, sta, p);
    let stb = lay(b, 0, sta, p);
    assert(lay(b, 0, init_layout(), p).out.skip(0) =~= lay(b, 0, init_layout(), p).out);
    assert(stb.out =~= stb.out.take(sta.out.len() as int) + stb.out.skip(sta.out.len() as int));
}

/// No-break fits, at the printing entry: a document that fits the page
/// width prints without any newline byte.
pub proof fn lemma_print_no_newline(d: Doc, p: Printer)
    requires
        fits_safe(d),
        newline_free(d),
        estimate(d, p) <= p.max_width,
        p.max_width < usize::MAX,
    ensures
        forall|i: int|
            0 <= i < lay(d, 0, init_layout(), p).out.len() ==> #[trigger] lay(
                d,
                0,
                init_layout(),
                p,
            ).out[i] != 10u8,
{
    lemma_no_break_fits(d, 0, init_layout(), p);
}

/// The number of bytes on the current (last) line of the output: the
/// length of the longest suffix that holds no newline.
pub open spec fn line_tail_len(out: Seq<u8>) -> nat
    decreases out.len(),
{
    if out.len() == 0 {
        0
    } else if out.last() == 10u8 {
        0
    } else {
        1 + line_tail_len(out.drop_last())
    }
}

/// The engine's column is faithful: it equals the number of bytes on the
/// current line of the output.
pub open spec fn col_tracks(st: Layout) -> bool {
    st.col == line_tail_len(st.out)
}

/// Every text payload of the document is free of newline bytes.
pub open spec fn newline_free(d: Doc) -> bool
    decreases doc_height(d), 0int, 0int,
{
    match d {
        Doc::Null => true,
        Doc::Text(s) => forall|i: int|
            0 <= i < encode_utf8(s@).len() ==> #[trigger] encode_utf8(s@)[i] != 10u8,
        Doc::Concat(ds) => newline_free_seq(ds@, 0),
        Doc::Group(x) => newline_free(*x),
        Doc::Indent(x) => newline_free(*x),
        Doc::Dedent(x) => newline_free(*x),
        Doc::Join(sep, ds) => newline_free(*sep) && newline_free_seq(ds@, 0),
        Doc::SmartJoin(sep, ds) => newline_free(*sep) && newline_free_seq(ds@, 0),
        Doc::IfBreak(a, b) => newline_free(*a) && newline_free(*b),
        Doc::Hardline => true,
        Doc::Softline => true,
        Doc::Mediumline => true,
        Doc::Line => true,
    }
}

pub open spec fn newline_free_seq(ds: Seq<Doc>, i: int) -> bool
    decreases seq_height(ds), 1int, ds.len() - i,
    via newline_free_seq_decreases
{
    if i < 0 || i >= ds.len() {
        true
    } else {
        newline_free(ds[i]) && newline_free_seq(ds, i + 1)
    }
}

#[via_fn]
proof fn newline_free_seq_decreases(ds: Seq<Doc>, i: int) {
    if 0 <= i < ds.len() {
        lemma_seq_height_bound(ds, i);
    }
}

/// Appending newline-free bytes lengthens the current line by their
/// count.
proof fn lemma_tail_append_free(out: Seq<u8>, bs: Seq<u8>)
    requires
        forall|i: int| 0 <= i < bs.len() ==> #[trigger] bs[i] != 10u8,
    ensures
        line_tail_len(out + bs) == line_tail_len(out) + bs.len(),
    decreases bs.len(),
{
    if bs.len() == 0 {
        assert(out + bs =~= out);
    } else {
        lemma_tail_append_free(out, bs.drop_last());
        assert((out + bs).drop_last() =~= out + bs.drop_last());
        assert((out + bs).last() == bs.last());
    }
}

/// After a line break at depth `ind`, the current line holds exactly the
/// `ind` indent bytes.
proof fn lemma_tail_break(out: Seq<u8>, ind: usize, p: Printer)
    ensures
        line_tail_len(out + break_bytes(ind, p)) == ind,
{
    let nl = out + seq![10u8];
    assert(nl.last() == 10u8);
    assert(line_tail_len(nl) == 0);
    let indents = Seq::new(ind as nat, |j: int| crate::print::indent_byte(p));
    assert(forall|i: int| 0 <= i < indents.len() ==> #[trigger] indents[i] != 10u8);
    lemma_tail_append_free(nl, indents);
    assert(out + break_bytes(ind, p) =~= nl + indents);
}

/// Indent accounting: for a document whose text payloads hold no newline,
/// laying it out keeps the column equal to the byte count of the current
/// output line.  Every line break writes a newline followed by exactly
/// the indent bytes of its depth, so after any hard break the new line
/// begins with as many indent bytes as the depth at that point.
pub proof fn lemma_indent_accounting(d: Doc, ind: usize, st: Layout, p: Printer)
    requires
        newline_free(d),
        col_tracks(st),
    ensures
        col_tracks(lay(d, ind, st, p)),
    decreases doc_height(d), 0int, 0int,
{
    match d {
        Doc::Null => {},
        Doc::Text(s) => {
            lemma_tail_append_free(st.out, encode_utf8(s@));
        },
        Doc::Concat(ds) => {
            lemma_indent_accounting_seq(ds@, 0, ind, st, p);
        },
        Doc::Group(x) => {
            if estimate(*x, p) > p.max_width {
                lemma_tail_break(st.out, ind, p);
                let st1 = emit_break(st, ind, p, true);
                lemma_indent_accounting(*x, ind, st1, p);
                let st2 = lay(*x, ind, st1, p);
                lemma_tail_break(st2.out, ind.saturating_sub(p.indent), p);
            } else {
                lemma_indent_accounting(*x, ind, st, p);
            }
        },
        Doc::Indent(x) => {
            lemma_indent_accounting(*x, ind.saturating_add(p.indent), st, p);
        },
        Doc::Dedent(x) => {
            lemma_indent_accounting(*x, ind.saturating_sub(p.indent), st, p);
        },
        Doc::Join(sep, ds) => {
            lemma_indent_accounting_join(*sep, ds@, Seq::empty(), 0, ind, st, p);
        },
        Doc::SmartJoin(sep, ds) => {
            lemma_indent_accounting_join(*sep, ds@, sj_breaks(*sep, ds@, p), 0, ind, st, p);
        },
        Doc::IfBreak(a, b) => {
            if st.after_break {
                lemma_indent_accounting(*a, ind, st, p);
            } else {
                lemma_indent_accounting(*b, ind, st, p);
            }
        },
        Doc::Hardline => {
            lemma_tail_break(st.out, ind, p);
        },
        Doc::Softline => {
            if st.col > p.max_width {
                lemma_tail_break(st.out, ind, p);
            }
        },
        Doc::Mediumline => {
            if st.col > p.max_width / 2 {
                lemma_tail_break(st.out, ind, p);
            }
        },
        Doc::Line => {
            assert((st.out + seq![10u8]).last() == 10u8);
        },
    }
}

proof fn lemma_indent_accounting_seq(ds: Seq<Doc>, i: int, ind: usize, st: Layout, p: Printer)
    requires
        newline_free_seq(ds, i),
        col_tracks(st),
    ensures
        col_tracks(lay_seq(ds, i, ind, st, p)),
    decreases seq_height(ds), 1int, ds.len() - i,
{
    if 0 <= i < ds.len() {
        lemma_seq_height_bound(ds, i);
        lemma_indent_accounting(ds[i], ind, st, p);
        lemma_indent_accounting_seq(ds, i + 1, ind, lay(ds[i], ind, st, p), p);
    }
}

proof fn lemma_indent_accounting_join(
    sep: Doc,
    ds: Seq<Doc>,
    breaks: Seq<usize>,
    i: int,
    ind: usize,
    st: Layout,
    p: Printer,
)
    requires
        newline_free(sep),
        newline_free_seq(ds, i),
        col_tracks(st),
    ensures
        col_tracks(lay_join(sep, ds, breaks, i, ind, st, p)),
    decreases max_nat(doc_height(sep), seq_height(ds)), 1int, ds.len() - i,
{
    if 0 <= i < ds.len() {
        lemma_seq_height_bound(ds, i);
        let st1 = if i > 0 {
            lay(sep, ind, st, p)
        } else {
            st
        };
        if i > 0 {
            lemma_indent_accounting(sep, ind, st, p);
        }
        let st2 = if i > 0 && breaks.contains(i as usize) {
            emit_break(st1, ind, p, true)
        } else {
            st1
        };
        if i > 0 && breaks.contains(i as usize) {
            lemma_tail_break(st1.out, ind, p);
        }
        lemma_indent_accounting(ds[i], ind, st2, p);
        lemma_indent_accounting_join(sep, ds, breaks, i + 1, ind, lay(ds[i], ind, st2, p), p);
    }
}

/// A document that can take part in the no-break law: it holds no node
/// that forces or may force a newline regardless of fit (hard breaks,
/// bare newlines, medium lines, smart joins) and no dedent (which can
/// make an inner group wider than its surroundings), and each text
/// payload fits the machine word.
pub open spec fn fits_safe(d: Doc) -> bool
    decreases doc_height(d), 0int, 0int,
{
    match d {
        Doc::Null => true,
        Doc::Text(s) => encode_utf8(s@).len() <= usize::MAX,
        Doc::Concat(ds) => fits_safe_seq(ds@, 0),
        Doc::Group(x) => fits_safe(*x),
        Doc::Indent(x) => fits_safe(*x),
        Doc::Dedent(_) => false,
        Doc::Join(sep, ds) => fits_safe(*sep) && fits_safe_seq(ds@, 0),
        Doc::SmartJoin(_, _) => false,
        Doc::IfBreak(a, b) => fits_safe(*a) && fits_safe(*b),
        Doc::Hardline => false,
        Doc::Softline => true,
        Doc::Mediumline => false,
        Doc::Line => false,
    }
}

pub open spec fn fits_safe_seq(ds: Seq<Doc>, i: int) -> bool
    decreases seq_height(ds), 1int, ds.len() - i,
    via fits_safe_seq_decreases
{
    if i < 0 || i >= ds.len() {
        true
    } else {
        fits_safe(ds[i]) && fits_safe_seq(ds, i + 1)
    }
}

#[via_fn]
proof fn fits_safe_seq_decreases(ds: Seq<Doc>, i: int) {
    if 0 <= i < ds.len() {
        lemma_seq_height_bound(ds, i);
    }
}

/// The second state extends the first and everything appended is free of
/// newlines.
pub open spec fn appended_clean(a: Layout, b: Layout) -> bool {
    &&& b.out.len() >= a.out.len()
    &&& b.out.take(a.out.len() as int) == a.out
    &&& forall|i: int| a.out.len() <= i < b.out.len() ==> #[trigger] b.out[i] != 10u8
}

proof fn lemma_appended_clean_trans(a: Layout, b: Layout, c: Layout)
    requires
        appended_clean(a, b),
        appended_clean(b, c),
    ensures
        appended_clean(a, c),
{
    assert(c.out.take(a.out.len() as int) =~= a.out) by {
        assert forall|i: int| 0 <= i < a.out.len() implies c.out[i] == a.out[i] by {
            assert(c.out.take(b.out.len() as int)[i] == b.out[i]);
            assert(b.out.take(a.out.len() as int)[i] == a.out[i]);
        }
    }
    assert forall|i: int| a.out.len() <= i < c.out.len() implies #[trigger] c.out[i] != 10u8 by {
        if i < b.out.len() {
            assert(c.out.take(b.out.len() as int)[i] == b.out[i]);
        }
    }
}

/// No-break fits: a document that fits in the space left on the page
/// emits no newline, and the column moves by at most its estimate.
pub proof fn lemma_no_break_fits(d: Doc, ind: usize, st: Layout, p: Printer)
    requires
        fits_safe(d),
        newline_free(d),
        st.col + estimate(d, p) <= p.max_width,
        p.max_width < usize::MAX,
    ensures
        appended_clean(st, lay(d, ind, st, p)),
        lay(d, ind, st, p).col <= st.col + estimate(d, p),
    decreases doc_height(d), 0int, 0int,
{
    match d {
        Doc::Null => {
            assert(lay(d, ind, st, p).out.take(st.out.len() as int) =~= st.out);
        },
        Doc::Text(s) => {
            let r = lay(d, ind, st, p);
            assert(r.out.take(st.out.len() as int) =~= st.out);
            assert forall|i: int| st.out.len() <= i < r.out.len() implies #[trigger] r.out[i]
                != 10u8 by {
                assert(r.out[i] == encode_utf8(s@)[i - st.out.len()]);
            }
        },
        Doc::Concat(ds) => {
            lemma_no_break_fits_seq(ds@, 0, ind, st, p);
        },
        Doc::Group(x) => {
            lemma_no_break_fits(*x, ind, st, p);
        },
        Doc::Indent(x) => {
            lemma_no_break_fits(*x, ind.saturating_add(p.indent), st, p);
        },
        Doc::Dedent(x) => {},
        Doc::Join(sep, ds) => {
            vstd::std_specs::vec::axiom_spec_len(&ds);
            if ds@.len() == 0 {
                assert(lay_join(*sep, ds@, Seq::empty(), 0, ind, st, p) == st);
                assert(lay(d, ind, st, p).out.take(st.out.len() as int) =~= st.out);
            } else {
                proof_est_join_split(*sep, ds@, p, st.col as int);
                lemma_no_break_fits_join(*sep, ds@, Seq::empty(), 0, ind, st, p);
            }
        },
        Doc::SmartJoin(sep, ds) => {},
        Doc::IfBreak(a, b) => {
            if st.after_break {
                lemma_no_break_fits(*a, ind, st, p);
            } else {
                lemma_no_break_fits(*b, ind, st, p);
            }
        },
        Doc::Hardline => {},
        Doc::Softline => {
            assert(lay(d, ind, st, p).out.take(st.out.len() as int) =~= st.out);
        },
        Doc::Mediumline => {},
        Doc::Line => {},
    }
}

/// Remaining width budget of the join items `ds[i..]`: the item
/// estimates plus one separator estimate for each separator still to
/// come.
spec fn join_rest_est(sep: Doc, ds: Seq<Doc>, i: int, p: Printer) -> int {
    crate::estimate::estimate_join_seq(sep, ds, i, p) as int + (estimate(sep, p) as int) * (
    if i == 0 {
        ds.len() as int - 1
    } else {
        ds.len() - i
    })
}

/// For a join that fits the remaining space, the saturating estimate
/// arithmetic is exact.
proof fn proof_est_join_split(sep: Doc, ds: Seq<Doc>, p: Printer, col: int)
    requires
        0 < ds.len() <= usize::MAX,
        col + crate::estimate::estimate_join(sep, ds, p) <= p.max_width < usize::MAX,
        col >= 0,
    ensures
        col + join_rest_est(sep, ds, 0, p) <= p.max_width,
        join_rest_est(sep, ds, 0, p) == crate::estimate::estimate_join(sep, ds, p) as int,
{
    let items = crate::estimate::estimate_join_seq(sep, ds, 0, p) as int;
    let seps = crate::estimate::cap_mul(
        crate::estimate::estimate_in_join(sep, ds, p),
        (ds.len() - 1) as usize,
    );
    assert(crate::estimate::estimate_join(sep, ds, p) == (items as usize).saturating_add(seps));
    assert(crate::estimate::estimate_in_join(sep, ds, p) == estimate(sep, p));
    assert(seps as int == (estimate(sep, p) as int) * (ds.len() as int - 1)) by {
        assert(seps < usize::MAX);
        assert(crate::estimate::cap_mul(estimate(sep, p), (ds.len() - 1) as usize) == if estimate(
            sep,
            p,
        ) * ((ds.len() - 1) as usize) > usize::MAX {
            usize::MAX
        } else {
            (estimate(sep, p) * ((ds.len() - 1) as usize)) as usize
        });
    }
}

proof fn lemma_no_break_fits_seq(ds: Seq<Doc>, i: int, ind: usize, st: Layout, p: Printer)
    requires
        fits_safe_seq(ds, i),
        newline_free_seq(ds, i),
        st.col + crate::estimate::estimate_seq(ds, i, p) <= p.max_width,
        p.max_width < usize::MAX,
    ensures
        appended_clean(st, lay_seq(ds, i, ind, st, p)),
        lay_seq(ds, i, ind, st, p).col <= st.col + crate::estimate::estimate_seq(ds, i, p),
    decreases seq_height(ds), 1int, ds.len() - i,
{
    if 0 <= i < ds.len() {
        lemma_seq_height_bound(ds, i);
        let e0 = estimate(ds[i], p) as int;
        let erest = crate::estimate::estimate_seq(ds, i + 1, p) as int;
        assert(crate::estimate::estimate_seq(ds, i, p) == (estimate(ds[i], p)).saturating_add(
            crate::estimate::estimate_seq(ds, i + 1, p),
        ));
        lemma_no_break_fits(ds[i], ind, st, p);
        let st1 = lay(ds[i], ind, st, p);
        lemma_no_break_fits_seq(ds, i + 1, ind, st1, p);
        lemma_appended_clean_trans(st, st1, lay_seq(ds, i, ind, st, p));
    } else {
        assert(lay_seq(ds, i, ind, st, p).out.take(st.out.len() as int) =~= st.out);
    }
}

proof fn lemma_no_break_fits_join(
    sep: Doc,
    ds: Seq<Doc>,
    breaks: Seq<usize>,
    i: int,
    ind: usize,
    st: Layout,
    p: Printer,
)
    requires
        fits_safe(sep),
        fits_safe_seq(ds, i),
        newline_free(sep),
        newline_free_seq(ds, i),
        breaks.len() == 0,
        0 <= i <= ds.len(),
        0 < ds.len() <= usize::MAX,
        st.col + join_rest_est(sep, ds, i, p) <= p.max_width,
        p.max_width < usize::MAX,
    ensures
        appended_clean(st, lay_join(sep, ds, breaks, i, ind, st, p)),
        lay_join(sep, ds, breaks, i, ind, st, p).col <= st.col + join_rest_est(sep, ds, i, p),
    decreases max_nat(doc_height(sep), seq_height(ds)), 1int, ds.len() - i,
{
    if 0 <= i < ds.len() {
        lemma_seq_height_bound(ds, i);
        let n = ds.len() as int;
        let sw = estimate(sep, p) as int;
        let e0 = estimate(ds[i], p) as int;
        let erest = crate::estimate::estimate_join_seq(sep, ds, i + 1, p) as int;
        assert(crate::estimate::estimate_join_seq(sep, ds, i, p) == (estimate(
            ds[i],
            p,
        )).saturating_add(crate::estimate::estimate_join_seq(sep, ds, i + 1, p)));
        assert(sw * (n - i) == sw + sw * (n - i - 1)) by (nonlinear_arith);
        assert(sw * (n - 1) >= sw * (n - i - 1)) by (nonlinear_arith)
            requires
                i >= 0,
                sw >= 0,
                n >= 1,
        ;
        assert(sw * (n - i) >= 0 && sw * (n - i - 1) >= 0 && sw * (n - 1) >= 0)
            by (nonlinear_arith)
            requires
                0 <= i < n,
                sw >= 0,
        ;
        assert(crate::estimate::estimate_join_seq(sep, ds, i, p) as int == e0 + erest) by {
            if e0 + erest > usize::MAX {
                assert(crate::estimate::estimate_join_seq(sep, ds, i, p) == usize::MAX);
            }
        }
        let st1 = if i > 0 {
            lay(sep, ind, st, p)
        } else {
            st
        };
        if i > 0 {
            lemma_no_break_fits(sep, ind, st, p);
        }
        assert(!breaks.contains(i as usize));
        lemma_no_break_fits(ds[i], ind, st1, p);
        let st2 = lay(ds[i], ind, st1, p);
        lemma_no_break_fits_join(sep, ds, breaks, i + 1, ind, st2, p);
        if i > 0 {
            lemma_appended_clean_trans(st, st1, st2);
        }
        lemma_appended_clean_trans(st, st2, lay_join(sep, ds, breaks, i, ind, st, p));
        let res = lay_join(sep, ds, breaks, i, ind, st, p);
        assert(res == lay_join(sep, ds, breaks, i + 1, ind, st2, p));
        assert(res.col <= st2.col + join_rest_est(sep, ds, i + 1, p));
        assert(st2.col <= st1.col + e0);
        if i > 0 {
            assert(st1.col <= st.col + sw);
            assert(join_rest_est(sep, ds, i + 1, p) == erest + sw * (n - i - 1));
            assert(join_rest_est(sep, ds, i, p) == e0 + erest + sw * (n - i));
            assert(res.col <= st.col + sw + e0 + erest + sw * (n - i - 1));
        } else {
            assert(st1 == st);
            assert(join_rest_est(sep, ds, 1, p) == erest + sw * (n - 1));
            assert(join_rest_est(sep, ds, 0, p) == e0 + erest + sw * (n - 1));
            assert(res.col <= st.col + e0 + erest + sw * (n - 1));
        }
    } else {
        assert(lay_join(sep, ds, breaks, i, ind, st, p).out.take(st.out.len() as int) =~= st.out);
        assert(join_rest_est(sep, ds, i, p) == 0) by {
            assert((estimate(sep, p) as int) * (ds.len() - ds.len()) == 0) by (nonlinear_arith);
        }
    }
}

/// The chain of break positions the justifier returns partitions the
/// items: it is strictly increasing, starts after the first item, and
/// ends exactly at the item count.
pub proof fn lemma_break_chain_partition(lens: Seq<usize>, sep: usize, ml: usize)
    requires
        0 < lens.len() <= usize::MAX,
    ensures
        break_chain(lens, sep, ml, 0).len() > 0,
        break_chain(lens, sep, ml, 0).last() == lens.len(),
        forall|k: int|
            0 <= k < break_chain(lens, sep, ml, 0).len() ==> 0 < #[trigger] break_chain(
                lens,
                sep,
                ml,
                0,
            )[k] <= lens.len(),
        forall|k: int|
            0 < k < break_chain(lens, sep, ml, 0).len() ==> #[trigger] break_chain(
                lens,
                sep,
                ml,
                0,
            )[k - 1] < break_chain(lens, sep, ml, 0)[k],
{
    lemma_break_chain_partition_from(lens, sep, ml, 0);
}

proof fn lemma_break_chain_partition_from(lens: Seq<usize>, sep: usize, ml: usize, i: int)
    requires
        0 <= i < lens.len() <= usize::MAX,
    ensures
        break_chain(lens, sep, ml, i).len() > 0,
        break_chain(lens, sep, ml, i).last() == lens.len(),
        forall|k: int|
            0 <= k < break_chain(lens, sep, ml, i).len() ==> i < #[trigger] break_chain(
                lens,
                sep,
                ml,
                i,
            )[k] <= lens.len(),
        forall|k: int|
            0 < k < break_chain(lens, sep, ml, i).len() ==> #[trigger] break_chain(
                lens,
                sep,
                ml,
                i,
            )[k - 1] < break_chain(lens, sep, ml, i)[k],
    decreases lens.len() - i,
{
    lemma_best_next_range(lens, sep, ml, i);
    let nx = best_next(lens, sep, ml, i);
    let tail = break_chain(lens, sep, ml, nx);
    let whole = break_chain(lens, sep, ml, i);
    assert(whole == seq![nx as usize] + tail);
    assert(whole[0] == nx as usize);
    if nx == lens.len() {
        assert(tail =~= Seq::<usize>::empty());
        assert(whole =~= seq![nx as usize]);
    } else {
        lemma_break_chain_partition_from(lens, sep, ml, nx);
        assert(whole.last() == tail.last());
        assert forall|k: int| 0 <= k < whole.len() implies i < #[trigger] whole[k] <= lens.len()
            by {
            if k == 0 {
            } else {
                assert(whole[k] == tail[k - 1]);
            }
        }
        assert forall|k: int| 0 < k < whole.len() implies #[trigger] whole[k - 1] < whole[k] by {
            if k == 1 {
                assert(whole[0] == nx as usize);
                assert(whole[1] == tail[0]);
            } else {
                assert(whole[k - 1] == tail[k - 2]);
                assert(whole[k] == tail[k - 1]);
            }
        }
    }
}

/// A break sequence that the justifier's search discipline considers:
/// every line ends strictly after it begins, only the last item of a line
/// may reach the width target, and the lines cover the items exactly.
pub open spec fn admissible_breaks(
    lens: Seq<usize>,
    sep: usize,
    ml: usize,
    i: int,
    bs: Seq<usize>,
) -> bool
    decreases bs.len(),
{
    if bs.len() == 0 {
        i == lens.len()
    } else {
        &&& i < bs[0] <= lens.len()
        &&& (forall|k: int| i < k < bs[0] ==> line_len(lens, sep, ml, i, k) < ml)
        &&& admissible_breaks(lens, sep, ml, bs[0] as int, bs.drop_first())
    }
}

/// The total badness of the lines that a break sequence cuts.
pub open spec fn breaks_badness(
    lens: Seq<usize>,
    sep: usize,
    ml: usize,
    i: int,
    bs: Seq<usize>,
) -> int
    decreases bs.len(),
{
    if bs.len() == 0 {
        0int
    } else {
        line_badness(lens, sep, ml, i, bs[0] as int) as int + breaks_badness(
            lens,
            sep,
            ml,
            bs[0] as int,
            bs.drop_first(),
        )
    }
}

/// The badness arithmetic stays exact: the cube of the width target,
/// times one line per item and one more, fits the machine word.
pub open spec fn badness_exact(lens: Seq<usize>, ml: usize) -> bool {
    (ml as int) * (ml as int) * (ml as int) * (lens.len() as int + 1) < usize::MAX
}

proof fn lemma_line_len_le(lens: Seq<usize>, sep: usize, ml: usize, i: int, c: int)
    ensures
        line_len(lens, sep, ml, i, c) <= ml,
    decreases c - i,
{
    if 0 <= i && i < c && c <= lens.len() && c != i + 1 {
        lemma_line_len_le(lens, sep, ml, i, c - 1);
    }
}

proof fn lemma_badness_le_cube(lens: Seq<usize>, sep: usize, ml: usize, i: int, c: int)
    requires
        (ml as int) * (ml as int) * (ml as int) < usize::MAX,
    ensures
        line_badness(lens, sep, ml, i, c) as int <= (ml as int) * (ml as int) * (ml as int),
        line_badness(lens, sep, ml, i, c) as int == ({
            let d = ml - line_len(lens, sep, ml, i, c);
            (d as int) * (d as int) * (d as int)
        }),
{
    lemma_line_len_le(lens, sep, ml, i, c);
    let d = (ml - line_len(lens, sep, ml, i, c)) as usize;
    assert((d as int) * (d as int) * (d as int) <= (ml as int) * (ml as int) * (ml as int))
        by (nonlinear_arith)
        requires
            0 <= d <= ml,
    ;
    assert((d as int) * (d as int) * (d as int) < usize::MAX);
    assert((d as int) * (d as int) < usize::MAX) by (nonlinear_arith)
        requires
            (d as int) * (d as int) * (d as int) < usize::MAX,
            d >= 0,
    ;
    let p2 = crate::estimate::cap_mul(d, d);
    assert(p2 == d * d);
    assert((p2 as int) * (d as int) < usize::MAX) by (nonlinear_arith)
        requires
            p2 == (d as int) * (d as int),
            (d as int) * (d as int) * (d as int) < usize::MAX,
    ;
    assert(crate::estimate::cap_mul(p2, d) == p2 * d);
    assert(crate::estimate::cap_cube(d) as int == (d as int) * (d as int) * (d as int))
        by (nonlinear_arith)
        requires
            crate::estimate::cap_cube(d) == p2 * d,
            p2 == (d as int) * (d as int),
    ;
}

/// The running best of the search never worsens.
proof fn lemma_scan_le_acc(
    lens: Seq<usize>,
    sep: usize,
    ml: usize,
    i: int,
    c: int,
    bb: usize,
    bj: int,
)
    ensures
        scan_best(lens, sep, ml, i, c, bb, bj).0 <= bb,
    decreases lens.len() - i, lens.len() - c + 1,
{
    if 0 <= i && i < c && c <= lens.len() {
        let b = line_badness(lens, sep, ml, i, c).saturating_add(best_cost(lens, sep, ml, c));
        let nb = if b < bb {
            b
        } else {
            bb
        };
        let nj = if b < bb {
            c
        } else {
            bj
        };
        if line_len(lens, sep, ml, i, c) >= ml || c == lens.len() {
        } else {
            lemma_scan_le_acc(lens, sep, ml, i, c + 1, nb, nj);
        }
    }
}

/// The search result is at least as good as any position it examines: any
/// candidate whose line saturates no earlier prefix.
proof fn lemma_scan_le_candidate(
    lens: Seq<usize>,
    sep: usize,
    ml: usize,
    i: int,
    c0: int,
    bb: usize,
    bj: int,
    c: int,
)
    requires
        0 <= i < c0 <= c <= lens.len(),
        forall|k: int| c0 <= k < c ==> line_len(lens, sep, ml, i, k) < ml,
    ensures
        scan_best(lens, sep, ml, i, c0, bb, bj).0 <= line_badness(lens, sep, ml, i, c).saturating_add(
            best_cost(lens, sep, ml, c),
        ),
    decreases c - c0,
{
    let b = line_badness(lens, sep, ml, i, c0).saturating_add(best_cost(lens, sep, ml, c0));
    let nb = if b < bb {
        b
    } else {
        bb
    };
    let nj = if b < bb {
        c0
    } else {
        bj
    };
    if c0 == c {
        if line_len(lens, sep, ml, i, c0) >= ml || c0 == lens.len() {
        } else {
            lemma_scan_le_acc(lens, sep, ml, i, c0 + 1, nb, nj);
        }
    } else {
        assert(line_len(lens, sep, ml, i, c0) < ml);
        lemma_scan_le_candidate(lens, sep, ml, i, c0 + 1, nb, nj, c);
    }
}

/// The least total badness over the items after `i` is at most that of
/// any admissible break sequence.
pub proof fn lemma_cost_le_admissible(
    lens: Seq<usize>,
    sep: usize,
    ml: usize,
    i: int,
    bs: Seq<usize>,
)
    requires
        0 <= i <= lens.len(),
        admissible_breaks(lens, sep, ml, i, bs),
    ensures
        best_cost(lens, sep, ml, i) as int <= breaks_badness(lens, sep, ml, i, bs),
    decreases bs.len(),
{
    if bs.len() == 0 {
    } else {
        let c = bs[0] as int;
        lemma_scan_le_candidate(lens, sep, ml, i, i + 1, usize::MAX, lens.len() as int, c);
        lemma_cost_le_admissible(lens, sep, ml, c, bs.drop_first());
    }
}

/// What the search returns: either the accumulator it was given, or an
/// examined position together with the badness through it.
pub open spec fn scan_outcome(
    lens: Seq<usize>,
    sep: usize,
    ml: usize,
    i: int,
    c0: int,
    bb: usize,
    bj: int,
) -> bool {
    let r = scan_best(lens, sep, ml, i, c0, bb, bj);
    (r.0 == bb && r.1 == bj) || (i < r.1 <= lens.len() && r.0 == line_badness(
        lens,
        sep,
        ml,
        i,
        r.1,
    ).saturating_add(best_cost(lens, sep, ml, r.1)) && (forall|k: int|
        i < k < r.1 ==> line_len(lens, sep, ml, i, k) < ml))
}

proof fn lemma_scan_characterize(
    lens: Seq<usize>,
    sep: usize,
    ml: usize,
    i: int,
    c0: int,
    bb: usize,
    bj: int,
)
    requires
        0 <= i < c0 <= lens.len(),
        forall|k: int| i < k < c0 ==> line_len(lens, sep, ml, i, k) < ml,
    ensures
        scan_outcome(lens, sep, ml, i, c0, bb, bj),
    decreases lens.len() - c0,
{
    let b = line_badness(lens, sep, ml, i, c0).saturating_add(best_cost(lens, sep, ml, c0));
    let nb = if b < bb {
        b
    } else {
        bb
    };
    let nj = if b < bb {
        c0
    } else {
        bj
    };
    if line_len(lens, sep, ml, i, c0) >= ml || c0 == lens.len() {
    } else {
        lemma_scan_characterize(lens, sep, ml, i, c0 + 1, nb, nj);
    }
}

/// The least total badness is bounded by one full line's badness per
/// item.
proof fn lemma_cost_bound(lens: Seq<usize>, sep: usize, ml: usize, i: int)
    requires
        0 <= i <= lens.len(),
        (ml as int) * (ml as int) * (ml as int) < usize::MAX,
    ensures
        best_cost(lens, sep, ml, i) as int <= (ml as int) * (ml as int) * (ml as int) * (
        lens.len() - i),
    decreases lens.len() - i,
{
    let cube = (ml as int) * (ml as int) * (ml as int);
    if i == lens.len() {
        assert(cube * 0 == 0) by (nonlinear_arith);
    } else {
        lemma_scan_le_candidate(lens, sep, ml, i, i + 1, usize::MAX, lens.len() as int, i + 1);
        lemma_badness_le_cube(lens, sep, ml, i, i + 1);
        lemma_cost_bound(lens, sep, ml, i + 1);
        assert(cube * (lens.len() - i) == cube + cube * (lens.len() - i - 1)) by (nonlinear_arith);
    }
}

/// The chain the justifier returns is admissible and achieves the least
/// total badness exactly.
pub proof fn lemma_chain_achieves_cost(lens: Seq<usize>, sep: usize, ml: usize, i: int)
    requires
        0 <= i <= lens.len(),
        lens.len() < usize::MAX,
        badness_exact(lens, ml),
    ensures
        admissible_breaks(lens, sep, ml, i, break_chain(lens, sep, ml, i)),
        breaks_badness(lens, sep, ml, i, break_chain(lens, sep, ml, i)) == best_cost(
            lens,
            sep,
            ml,
            i,
        ) as int,
    decreases lens.len() - i,
{
    let n = lens.len() as int;
    let cube = (ml as int) * (ml as int) * (ml as int);
    assert(cube * 1 <= cube * (n + 1) && cube * (n - i) <= cube * (n + 1) && cube >= 0)
        by (nonlinear_arith)
        requires
            0 <= i <= n,
            cube == (ml as int) * (ml as int) * (ml as int),
    ;
    if i == n {
        assert(break_chain(lens, sep, ml, i) =~= Seq::<usize>::empty());
    } else {
        lemma_best_next_range(lens, sep, ml, i);
        let cstar = best_next(lens, sep, ml, i);
        let chain = break_chain(lens, sep, ml, i);
        let tail = break_chain(lens, sep, ml, cstar);
        assert(chain == seq![cstar as usize] + tail);
        assert(chain[0] == cstar as usize);
        assert(chain.drop_first() =~= tail);
        lemma_scan_characterize(lens, sep, ml, i, i + 1, usize::MAX, n);
        let r = scan_best(lens, sep, ml, i, i + 1, usize::MAX, n);
        assert(r.0 == best_cost(lens, sep, ml, i));
        assert(r.1 == cstar);
        lemma_scan_le_candidate(lens, sep, ml, i, i + 1, usize::MAX, n, i + 1);
        lemma_badness_le_cube(lens, sep, ml, i, i + 1);
        lemma_cost_bound(lens, sep, ml, i + 1);
        assert(best_cost(lens, sep, ml, i) as int <= cube + cube * (n - i - 1));
        assert(cube + cube * (n - i - 1) == cube * (n - i)) by (nonlinear_arith);
        assert((best_cost(lens, sep, ml, i) as int) < usize::MAX);
        assert(!(r.0 == usize::MAX && r.1 == n) || cstar == n);
        assert(i < r.1 <= n && r.0 == line_badness(lens, sep, ml, i, r.1).saturating_add(
            best_cost(lens, sep, ml, r.1),
        ) && (forall|k: int| i < k < r.1 ==> line_len(lens, sep, ml, i, k) < ml)) by {
            if r.0 == usize::MAX && r.1 == n {
                assert(false);
            }
        }
        lemma_badness_le_cube(lens, sep, ml, i, cstar);
        lemma_cost_bound(lens, sep, ml, cstar);
        assert(cube * (n - cstar) <= cube * (n + 1)) by (nonlinear_arith)
            requires
                0 <= cstar <= n,
                cube >= 0,
        ;
        assert((line_badness(lens, sep, ml, i, cstar) as int) + (best_cost(lens, sep, ml, cstar) as int)
            < usize::MAX) by (nonlinear_arith)
            requires
                line_badness(lens, sep, ml, i, cstar) as int <= cube,
                best_cost(lens, sep, ml, cstar) as int <= cube * (n - cstar),
                cube * (n - cstar) <= cube * (n + 1),
                cube * 1 <= cube * (n + 1),
                cube * (n + 1) < usize::MAX,
                cube >= 0,
        ;
        assert(best_cost(lens, sep, ml, i) as int == line_badness(lens, sep, ml, i, cstar) as int
            + best_cost(lens, sep, ml, cstar) as int);
        lemma_chain_achieves_cost(lens, sep, ml, cstar);
    }
}

/// Justifier optimality: the break chain the justifier returns has total
/// badness no greater than that of any admissible break sequence.
pub proof fn lemma_justifier_optimal(lens: Seq<usize>, sep: usize, ml: usize, bs: Seq<usize>)
    requires
        lens.len() < usize::MAX,
        badness_exact(lens, ml),
        admissible_breaks(lens, sep, ml, 0, bs),
    ensures
        admissible_breaks(lens, sep, ml, 0, break_chain(lens, sep, ml, 0)),
        breaks_badness(lens, sep, ml, 0, break_chain(lens, sep, ml, 0)) <= breaks_badness(
            lens,
            sep,
            ml,
            0,
            bs,
        ),
{
    lemma_chain_achieves_cost(lens, sep, ml, 0);
    lemma_cost_le_admissible(lens, sep, ml, 0, bs);
}

/// The unclamped length of the line covering the items `[i..c)`.
pub open spec fn width_sum(lens: Seq<usize>, sep: usize, i: int, c: int) -> int
    decreases c - i,
{
    if !(0 <= i && i < c && c <= lens.len()) {
        0int
    } else if c == i + 1 {
        lens[i] as int
    } else {
        width_sum(lens, sep, i, c - 1) + sep + lens[c - 1]
    }
}

proof fn lemma_width_sum_nonneg(lens: Seq<usize>, sep: usize, i: int, c: int)
    ensures
        width_sum(lens, sep, i, c) >= 0,
    decreases c - i,
{
    if 0 <= i && i < c && c <= lens.len() && c != i + 1 {
        lemma_width_sum_nonneg(lens, sep, i, c - 1);
    }
}

/// Cutting a line in two costs one separator: the widths add up.
proof fn lemma_width_sum_split(lens: Seq<usize>, sep: usize, i: int, c: int, m: int)
    requires
        0 <= i < c < m <= lens.len(),
    ensures
        width_sum(lens, sep, i, m) == width_sum(lens, sep, i, c) + sep + width_sum(lens, sep, c, m),
    decreases m - c,
{
    if c == m - 1 {
    } else {
        lemma_width_sum_split(lens, sep, i, c, m - 1);
    }
}

/// Below the width target the clamped line length is the exact sum.
proof fn lemma_line_len_exact(lens: Seq<usize>, sep: usize, ml: usize, i: int, c: int)
    requires
        0 <= i < c <= lens.len(),
        width_sum(lens, sep, i, c) < ml,
    ensures
        line_len(lens, sep, ml, i, c) == width_sum(lens, sep, i, c),
    decreases c - i,
{
    if c == i + 1 {
    } else {
        assert(width_sum(lens, sep, i, c - 1) <= width_sum(lens, sep, i, c));
        lemma_line_len_exact(lens, sep, ml, i, c - 1);
    }
}

/// When every proper break after `i` costs strictly more than running to
/// the end, the search settles on the end.
proof fn lemma_scan_single(
    lens: Seq<usize>,
    sep: usize,
    ml: usize,
    i: int,
    c0: int,
    bb: usize,
    bj: int,
)
    requires
        0 <= i < c0 <= lens.len(),
        forall|k: int| i < k < lens.len() ==> line_len(lens, sep, ml, i, k) < ml,
        forall|c: int|
            c0 <= c < lens.len() ==> (line_badness(lens, sep, ml, i, c).saturating_add(
                best_cost(lens, sep, ml, c),
            ) as int) > line_badness(lens, sep, ml, i, lens.len() as int) as int,
        (bb as int) > line_badness(lens, sep, ml, i, lens.len() as int) as int,
    ensures
        scan_best(lens, sep, ml, i, c0, bb, bj).0 == line_badness(
            lens,
            sep,
            ml,
            i,
            lens.len() as int,
        ),
        scan_best(lens, sep, ml, i, c0, bb, bj).1 == lens.len() as int,
    decreases lens.len() - c0,
{
    let n = lens.len() as int;
    let b = line_badness(lens, sep, ml, i, c0).saturating_add(best_cost(lens, sep, ml, c0));
    let nb = if b < bb {
        b
    } else {
        bb
    };
    let nj = if b < bb {
        c0
    } else {
        bj
    };
    if c0 == n {
        assert(best_cost(lens, sep, ml, c0) == 0);
        assert(b == line_badness(lens, sep, ml, i, n).saturating_add(0));
        assert(b == line_badness(lens, sep, ml, i, n));
        assert(b < bb);
    } else {
        assert(line_len(lens, sep, ml, i, c0) < ml);
        assert((nb as int) > line_badness(lens, sep, ml, i, n) as int);
        lemma_scan_single(lens, sep, ml, i, c0 + 1, nb, nj);
    }
}

/// Any line inside a fitting whole is itself below the target, exactly.
proof fn lemma_subline(lens: Seq<usize>, sep: usize, ml: usize, a: int, c: int)
    requires
        0 <= a < c <= lens.len(),
        sep >= 0,
        width_sum(lens, sep, 0, lens.len() as int) < ml,
    ensures
        width_sum(lens, sep, a, c) < ml,
        line_len(lens, sep, ml, a, c) == width_sum(lens, sep, a, c),
{
    let n = lens.len() as int;
    lemma_width_sum_nonneg(lens, sep, 0, a);
    lemma_width_sum_nonneg(lens, sep, c, n);
    if a > 0 && c < n {
        lemma_width_sum_split(lens, sep, 0, a, n);
        lemma_width_sum_split(lens, sep, a, c, n);
    } else if a > 0 {
        lemma_width_sum_split(lens, sep, 0, a, c);
    } else if c < n {
        lemma_width_sum_split(lens, sep, 0, c, n);
    }
    lemma_line_len_exact(lens, sep, ml, a, c);
}

/// When the whole tail fits on one line and every item is at least one
/// byte wide, the best break after any position is the end: splitting the
/// line anywhere costs strictly more.
proof fn lemma_single_range(lens: Seq<usize>, sep: usize, ml: usize, i: int)
    requires
        0 <= i < lens.len() < usize::MAX,
        sep >= 0,
        forall|k: int| 0 <= k < lens.len() ==> (#[trigger] lens[k] as int) >= 1,
        width_sum(lens, sep, 0, lens.len() as int) < ml,
        badness_exact(lens, ml),
    ensures
        forall|c: int|
            i <= c < lens.len() ==> #[trigger] best_next(lens, sep, ml, c) == lens.len()
                && best_cost(lens, sep, ml, c) as int == line_badness(
                lens,
                sep,
                ml,
                c,
                lens.len() as int,
            ) as int,
    decreases lens.len() - i,
{
    let n = lens.len() as int;
    let cube = (ml as int) * (ml as int) * (ml as int);
    assert(cube >= 0 && cube * 1 <= cube * (n + 1)) by (nonlinear_arith)
        requires
            cube == (ml as int) * (ml as int) * (ml as int),
            n >= 1,
    ;
    assert(cube < usize::MAX);
    if i + 1 < n {
        lemma_single_range(lens, sep, ml, i + 1);
    }
    // splitting the line [i..n) at c costs strictly more than not
    assert forall|c: int|
        i + 1 <= c < n implies (line_badness(lens, sep, ml, i, c).saturating_add(
        best_cost(lens, sep, ml, c),
    ) as int) > line_badness(lens, sep, ml, i, n) as int by {
        lemma_subline(lens, sep, ml, i, c);
        lemma_subline(lens, sep, ml, c, n);
        lemma_subline(lens, sep, ml, i, n);
        assert(best_next(lens, sep, ml, c) == lens.len());
        lemma_badness_le_cube(lens, sep, ml, i, c);
        lemma_badness_le_cube(lens, sep, ml, c, n);
        lemma_badness_le_cube(lens, sep, ml, i, n);
        lemma_width_sum_split(lens, sep, i, c, n);
        let l1 = width_sum(lens, sep, i, c);
        let l2 = width_sum(lens, sep, c, n);
        let lw = width_sum(lens, sep, i, n);
        let x = ml - l1;
        let y = ml - l2;
        let z = ml - lw;
        assert(l2 >= 1) by {
            lemma_width_sum_nonneg(lens, sep, c, n - 1);
            if c == n - 1 {
            } else {
                lemma_width_sum_split(lens, sep, c, n - 1, n);
            }
        }
        assert(x > z && y >= 1 && z >= 1);
        assert(x * x * x > z * z * z) by (nonlinear_arith)
            requires
                x > z >= 1,
        ;
        assert(y * y * y >= 1) by (nonlinear_arith)
            requires
                y >= 1,
        ;
        assert(line_badness(lens, sep, ml, i, c) as int == x * x * x);
        assert(line_badness(lens, sep, ml, c, n) as int == y * y * y);
        assert(line_badness(lens, sep, ml, i, n) as int == z * z * z);
        assert(best_cost(lens, sep, ml, c) as int == line_badness(lens, sep, ml, c, n) as int);
    }
    assert forall|k: int| i < k < n implies line_len(lens, sep, ml, i, k) < ml by {
        lemma_subline(lens, sep, ml, i, k);
    }
    lemma_badness_le_cube(lens, sep, ml, i, n);
    lemma_scan_single(lens, sep, ml, i, i + 1, usize::MAX, n);
    assert(best_next(lens, sep, ml, i) == n);
    assert(best_cost(lens, sep, ml, i) as int == line_badness(lens, sep, ml, i, n) as int);
    assert forall|c: int|
        i <= c < lens.len() implies #[trigger] best_next(lens, sep, ml, c) == lens.len()
            && best_cost(lens, sep, ml, c) as int == line_badness(
            lens,
            sep,
            ml,
            c,
            lens.len() as int,
        ) as int by {
        if c > i {
            assert(i + 1 <= c < n);
        }
    }
}

/// A smart join whose items all fit on one line is not broken: when every
/// item is at least one byte wide and the full width including separators
/// stays below the line target, the justifier returns the single break at
/// the end.
pub proof fn lemma_single_line_when_fits(lens: Seq<usize>, sep: usize, ml: usize)
    requires
        0 < lens.len() < usize::MAX,
        forall|k: int| 0 <= k < lens.len() ==> (#[trigger] lens[k] as int) >= 1,
        width_sum(lens, sep, 0, lens.len() as int) < ml,
        badness_exact(lens, ml),
    ensures
        break_chain(lens, sep, ml, 0) =~= seq![lens.len() as usize],
{
    let n = lens.len() as int;
    lemma_single_range(lens, sep, ml, 0);
    assert(best_next(lens, sep, ml, 0) == n);
    assert(break_chain(lens, sep, ml, n) =~= Seq::<usize>::empty());
}

/// A join is indifferent to break positions that name no item: two break
/// sets that agree on the item indices produce the same layout.
proof fn lemma_lay_join_same_breaks(
    sep: Doc,
    ds: Seq<Doc>,
    breaks1: Seq<usize>,
    breaks2: Seq<usize>,
    i: int,
    ind: usize,
    st: Layout,
    p: Printer,
)
    requires
        forall|k: int|
            1 <= k < ds.len() ==> (#[trigger] breaks1.contains(k as usize)
                == breaks2.contains(k as usize)),
    ensures
        lay_join(sep, ds, breaks1, i, ind, st, p) == lay_join(sep, ds, breaks2, i, ind, st, p),
    decreases max_nat(doc_height(sep), seq_height(ds)), 1int, ds.len() - i,
{
    if 0 <= i < ds.len() {
        lemma_seq_height_bound(ds, i);
        let st1 = if i > 0 {
            lay(sep, ind, st, p)
        } else {
            st
        };
        let st2 = if i > 0 && breaks1.contains(i as usize) {
            emit_break(st1, ind, p, true)
        } else {
            st1
        };
        lemma_lay_join_same_breaks(
            sep,
            ds,
            breaks1,
            breaks2,
            i + 1,
            ind,
            lay(ds[i], ind, st2, p),
            p,
        );
    }
}

/// A smart join whose items all fit on one line prints exactly as the
/// plain join does: when every item has positive estimated width and the
/// whole line, separators included, stays under the justifier's target,
/// no interior break is inserted.
pub proof fn lemma_smart_join_prints_plain(
    sep: Doc,
    ds: Vec<Doc>,
    ind: usize,
    st: Layout,
    p: Printer,
)
    requires
        0 < ds@.len() < usize::MAX,
        forall|k: int| 0 <= k < ds@.len() ==> estimate(#[trigger] ds@[k], p) >= 1,
        width_sum(sj_lens(ds@, p), sj_sep_len(sep, ds@, p), 0, ds@.len() as int) < sj_width(p),
        badness_exact(sj_lens(ds@, p), sj_width(p)),
    ensures
        lay(Doc::SmartJoin(Box::new(sep), ds), ind, st, p) == lay(
            Doc::Join(Box::new(sep), ds),
            ind,
            st,
            p,
        ),
{
    vstd::std_specs::vec::axiom_spec_len(&ds);
    let lens = sj_lens(ds@, p);
    let n = lens.len() as int;
    assert(lens.len() == ds@.len());
    assert forall|k: int| 0 <= k < lens.len() implies (#[trigger] lens[k] as int) >= 1 by {
        assert(lens[k] == estimate(ds@[k], p));
    }
    lemma_single_line_when_fits(lens, sj_sep_len(sep, ds@, p), sj_width(p));
    let chain = sj_breaks(sep, ds@, p);
    assert(chain =~= seq![ds@.len() as usize]);
    assert forall|k: int|
        1 <= k < ds@.len() implies (#[trigger] chain.contains(k as usize)
            == Seq::<usize>::empty().contains(k as usize)) by {
        assert(!Seq::<usize>::empty().contains(k as usize));
        if chain.contains(k as usize) {
            let t = choose|t: int| 0 <= t < chain.len() && chain[t] == k as usize;
            assert(chain[0] == ds@.len() as usize);
            assert(false);
        }
    }
    lemma_lay_join_same_breaks(sep, ds@, chain, Seq::empty(), 0, ind, st, p);
}

} // verus!
