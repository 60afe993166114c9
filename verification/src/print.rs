//! The layout engine: an iterative, stack-driven interpreter that walks a
//! document, tracking the current column and indent depth, and emits bytes.
//!
//! The meaning of a document is fixed by the recursive interpretation
//! [`lay`]; the executable engine drives an explicit work stack so that
//! deeply nested documents cannot overflow the native call stack, and is
//! proved to produce exactly the bytes of [`lay`].

use vstd::prelude::*;
use vstd::utf8::encode_utf8;
use vstd::utf8::valid_utf8;

use crate::doc::Doc;
use crate::doc::doc_height;
use crate::doc::seq_height;
use crate::doc::max_nat;
use crate::doc::lemma_seq_height_bound;
use crate::estimate::estimate;
use crate::estimate::max_usize;
use crate::estimate::count_text_length;
use crate::justify::break_chain;

verus! {

/// Printer configuration: the page width, the indent step, and the indent
/// byte.  `break_long_text` is kept for forward compatibility and has no
/// effect on layout.
#[derive(Debug, Clone, Copy)]
pub struct Printer {
    /// Target line width in bytes.
    pub max_width: usize,
    /// Bytes added per indent level.
    pub indent: usize,
    /// Reserved; no required behavior.
    pub break_long_text: bool,
    /// If true, the indent byte is a tab; otherwise a space.
    pub use_tabs: bool,
}

/// The configuration used when the caller passes none: width 80, four-space
/// indent.
pub open spec fn default_printer() -> Printer {
    Printer { max_width: 80, indent: 4, break_long_text: false, use_tabs: false }
}

impl Printer {
    /// Build a printer configuration from all four options.
    pub fn new(max_width: usize, indent: usize, break_long_text: bool, use_tabs: bool) -> (r:
        Printer)
        ensures
            r == (Printer { max_width, indent, break_long_text, use_tabs }),
    {
        Printer { max_width, indent, break_long_text, use_tabs }
    }
}

impl Default for Printer {
    fn default() -> (r: Self)
        ensures
            r == default_printer(),
    {
        Printer { max_width: 80, indent: 4, break_long_text: false, use_tabs: false }
    }
}

/// The state of a layout in progress: the bytes emitted so far, the bytes
/// on the current line, and whether the node handled last was a break.
pub ghost struct Layout {
    pub out: Seq<u8>,
    pub col: nat,
    pub after_break: bool,
}

/// The state at the start of a print: nothing emitted, column zero, no
/// preceding break.
pub open spec fn init_layout() -> Layout {
    Layout { out: Seq::empty(), col: 0, after_break: false }
}

/// The byte used for one step of indentation.
pub open spec fn indent_byte(p: Printer) -> u8 {
    if p.use_tabs {
        9u8
    } else {
        32u8
    }
}

/// The bytes of a line break at depth `ind`: a newline followed by `ind`
/// indent bytes.
pub open spec fn break_bytes(ind: usize, p: Printer) -> Seq<u8> {
    seq![10u8] + Seq::new(ind as nat, |j: int| indent_byte(p))
}

/// Emit a line break at depth `ind`: the column becomes the indent width.
pub open spec fn emit_break(st: Layout, ind: usize, p: Printer, ab: bool) -> Layout {
    Layout { out: st.out + break_bytes(ind, p), col: ind as nat, after_break: ab }
}

/// The widths handed to the justifier for a smart join: the estimated
/// width of each item.
pub open spec fn sj_lens(ds: Seq<Doc>, p: Printer) -> Seq<usize> {
    ds.map(|k: int, d: Doc| estimate(d, p))
}

/// The widest estimated item of a smart join, over the items `ds[i..]`.
pub open spec fn sj_max_len(ds: Seq<Doc>, i: int, p: Printer) -> usize
    decreases ds.len() - i,
{
    if i < 0 || i >= ds.len() {
        0
    } else {
        max_usize(estimate(ds[i], p), sj_max_len(ds, i + 1, p))
    }
}

/// The separator width handed to the justifier for a smart join: the
/// separator's estimate, padded by the wider of itself and the widest item.
pub open spec fn sj_sep_len(sep: Doc, ds: Seq<Doc>, p: Printer) -> usize {
    estimate(sep, p).saturating_add(max_usize(estimate(sep, p), sj_max_len(ds, 0, p)))
}

/// The line-width target handed to the justifier for a smart join: a
/// quarter of the page, but at least two.
pub open spec fn sj_width(p: Printer) -> usize {
    max_usize(p.max_width / 4, 2)
}

/// The break positions of a smart join: the chain chosen by the
/// minimum-raggedness justifier.
pub open spec fn sj_breaks(sep: Doc, ds: Seq<Doc>, p: Printer) -> Seq<usize> {
    break_chain(sj_lens(ds, p), sj_sep_len(sep, ds, p), sj_width(p), 0)
}

/// The meaning of a document: the layout state after emitting `d` at
/// indent depth `ind`, starting from the state `st`.
pub open spec fn lay(d: Doc, ind: usize, st: Layout, p: Printer) -> Layout
    decreases doc_height(d), 0int, 0int,
{
    match d {
        Doc::Null => st,
        Doc::Text(s) => Layout {
            out: st.out + encode_utf8(s@),
            col: st.col + encode_utf8(s@).len(),
            after_break: false,
        },
        Doc::Concat(ds) => lay_seq(ds@, 0, ind, st, p),
        Doc::Group(x) => {
            if estimate(*x, p) > p.max_width {
                let st1 = emit_break(st, ind, p, true);
                let st2 = lay(*x, ind, st1, p);
                emit_break(st2, ind.saturating_sub(p.indent), p, true)
            } else {
                lay(*x, ind, st, p)
            }
        },
        Doc::Indent(x) => lay(*x, ind.saturating_add(p.indent), st, p),
        Doc::Dedent(x) => lay(*x, ind.saturating_sub(p.indent), st, p),
        Doc::Join(sep, ds) => lay_join(*sep, ds@, Seq::empty(), 0, ind, st, p),
        Doc::SmartJoin(sep, ds) => lay_join(*sep, ds@, sj_breaks(*sep, ds@, p), 0, ind, st, p),
        Doc::IfBreak(a, b) => {
            if st.after_break {
                lay(*a, ind, st, p)
            } else {
                lay(*b, ind, st, p)
            }
        },
        Doc::Hardline => emit_break(st, ind, p, true),
        Doc::Softline => {
            if st.col > p.max_width {
                emit_break(st, ind, p, true)
            } else {
                Layout { out: st.out, col: st.col, after_break: true }
            }
        },
        Doc::Mediumline => {
            if st.col > p.max_width / 2 {
                emit_break(st, ind, p, false)
            } else {
                Layout { out: st.out, col: st.col, after_break: false }
            }
        },
        Doc::Line => Layout { out: st.out + seq![10u8], col: 0, after_break: false },
    }
}

/// Lay out the documents `ds[i..]` in order, at one indent depth.
pub open spec fn lay_seq(ds: Seq<Doc>, i: int, ind: usize, st: Layout, p: Printer) -> Layout
    decreases seq_height(ds), 1int, ds.len() - i,
    via lay_seq_decreases
{
    if i < 0 || i >= ds.len() {
        st
    } else {
        lay_seq(ds, i + 1, ind, lay(ds[i], ind, st, p), p)
    }
}

#[via_fn]
proof fn lay_seq_decreases(ds: Seq<Doc>, i: int, ind: usize, st: Layout, p: Printer) {
    if 0 <= i < ds.len() {
        lemma_seq_height_bound(ds, i);
    }
}

/// Lay out the join items `ds[i..]`: the separator stands before every item
/// but the first, and a line break follows the separator before each item
/// whose index is among `breaks`.
pub open spec fn lay_join(
    sep: Doc,
    ds: Seq<Doc>,
    breaks: Seq<usize>,
    i: int,
    ind: usize,
    st: Layout,
    p: Printer,
) -> Layout
    decreases max_nat(doc_height(sep), seq_height(ds)), 1int, ds.len() - i,
    via lay_join_decreases
{
    if i < 0 || i >= ds.len() {
        st
    } else {
        let st1 = if i > 0 {
            lay(sep, ind, st, p)
        } else {
            st
        };
        let st2 = if i > 0 && breaks.contains(i as usize) {
            emit_break(st1, ind, p, true)
        } else {
            st1
        };
        lay_join(sep, ds, breaks, i + 1, ind, lay(ds[i], ind, st2, p), p)
    }
}

#[via_fn]
proof fn lay_join_decreases(
    sep: Doc,
    ds: Seq<Doc>,
    breaks: Seq<usize>,
    i: int,
    ind: usize,
    st: Layout,
    p: Printer,
) {
    if 0 <= i < ds.len() {
        lemma_seq_height_bound(ds, i);
    }
}

/// Weight of a document: an upper bound on the work the engine spends on
/// it, used to justify that the main loop terminates.  Expanding a node
/// onto the work stack always replaces it by tasks of smaller total weight.
pub open spec fn doc_weight(d: Doc) -> nat
    decreases doc_height(d), 2int, 0int,
{
    match d {
        Doc::Null => 1,
        Doc::Text(_) => 1,
        Doc::Concat(ds) => 1 + weight_seq(ds@, 0),
        Doc::Group(x) => 3 + doc_weight(*x),
        Doc::Indent(x) => 1 + doc_weight(*x),
        Doc::Dedent(x) => 1 + doc_weight(*x),
        Doc::Join(sep, ds) => 1 + weight_join(*sep, ds@, 0),
        Doc::SmartJoin(sep, ds) => 1 + weight_join(*sep, ds@, 0),
        Doc::IfBreak(a, b) => 1 + doc_weight(*a) + doc_weight(*b),
        Doc::Hardline => 1,
        Doc::Softline => 1,
        Doc::Mediumline => 1,
        Doc::Line => 1,
    }
}

/// Total weight of the documents `ds[i..]`.
pub open spec fn weight_seq(ds: Seq<Doc>, i: int) -> nat
    decreases seq_height(ds), 3int, ds.len() - i,
    via weight_seq_decreases
{
    if i < 0 || i >= ds.len() {
        0
    } else {
        doc_weight(ds[i]) + weight_seq(ds, i + 1)
    }
}

#[via_fn]
proof fn weight_seq_decreases(ds: Seq<Doc>, i: int) {
    if 0 <= i < ds.len() {
        lemma_seq_height_bound(ds, i);
    }
}

/// Total weight of the join items `ds[i..]`, counting one separator and
/// one possible break for each item.
pub open spec fn weight_join(sep: Doc, ds: Seq<Doc>, i: int) -> nat
    decreases max_nat(doc_height(sep), seq_height(ds)), 3int, ds.len() - i,
    via weight_join_decreases
{
    if i < 0 || i >= ds.len() {
        0
    } else {
        doc_weight(sep) + 2 + doc_weight(ds[i]) + weight_join(sep, ds, i + 1)
    }
}

#[via_fn]
proof fn weight_join_decreases(sep: Doc, ds: Seq<Doc>, i: int) {
    if 0 <= i < ds.len() {
        lemma_seq_height_bound(ds, i);
    }
}

/// A unit of pending work: either a borrowed document to lay out at a
/// given indent depth, or a forced line break at a given depth.
enum Task<'a> {
    D(&'a Doc, usize),
    Brk(usize),
}

/// The effect of one task on the layout state.
spec fn step(t: Task, st: Layout, p: Printer) -> Layout {
    match t {
        Task::D(d, ind) => lay(*d, ind, st, p),
        Task::Brk(ind) => emit_break(st, ind, p, true),
    }
}

/// The weight of one task.
spec fn task_weight(t: Task) -> nat {
    match t {
        Task::D(d, _) => doc_weight(*d),
        Task::Brk(_) => 1,
    }
}

/// The layout state after the whole work stack runs, topmost task first.
spec fn run(ts: Seq<Task>, st: Layout, p: Printer) -> Layout
    decreases ts.len(),
{
    if ts.len() == 0 {
        st
    } else {
        run(ts.drop_last(), step(ts.last(), st, p), p)
    }
}

/// Total weight of a work stack.
spec fn stack_weight(ts: Seq<Task>) -> nat
    decreases ts.len(),
{
    if ts.len() == 0 {
        0
    } else {
        task_weight(ts.last()) + stack_weight(ts.drop_last())
    }
}

/// Pushing a task composes its step in front of the rest of the run.
proof fn lemma_run_push(ts: Seq<Task>, t: Task, st: Layout, p: Printer)
    ensures
        run(ts.push(t), st, p) == run(ts, step(t, st, p), p),
        stack_weight(ts.push(t)) == stack_weight(ts) + task_weight(t),
{
    assert(ts.push(t).drop_last() =~= ts);
    assert(ts.push(t).last() == t);
}

/// Append a newline and `ind` indent bytes.
#[verifier::loop_isolation(false)]
fn emit_break_exec(out: &mut Vec<u8>, ind: usize, printer: &Printer)
    ensures
        final(out)@ == old(out)@ + break_bytes(ind, *printer),
{
    out.push(10u8);
    let b: u8 = if printer.use_tabs {
        9
    } else {
        32
    };
    let mut j: usize = 0;
    while j < ind
        invariant
            j <= ind,
            out@ == old(out)@ + seq![10u8] + Seq::new(j as nat, |t: int| indent_byte(*printer)),
        decreases ind - j,
    {
        out.push(b);
        j += 1;
        proof {
            assert(out@ =~= old(out)@ + seq![10u8] + Seq::new(
                j as nat,
                |t: int| indent_byte(*printer),
            ));
        }
    }
    proof {
        assert(final(out)@ =~= old(out)@ + break_bytes(ind, *printer));
    }
}

/// Append the bytes of a slice.
#[verifier::loop_isolation(false)]
fn extend_bytes(out: &mut Vec<u8>, bs: &[u8])
    ensures
        final(out)@ == old(out)@ + bs@,
{
    let n = bs.len();
    let mut j: usize = 0;
    while j < n
        invariant
            j <= n,
            out@ == old(out)@ + bs@.take(j as int),
        decreases n - j,
    {
        out.push(bs[j]);
        j += 1;
        proof {
            assert(out@ =~= old(out)@ + bs@.take(j as int));
        }
    }
    proof {
        assert(bs@.take(n as int) =~= bs@);
    }
}

/// Whether a break position occurs in the list of breaks.
#[verifier::loop_isolation(false)]
fn contains_break(breaks: &Vec<usize>, x: usize) -> (r: bool)
    ensures
        r == breaks@.contains(x),
{
    let n = breaks.len();
    let mut j: usize = 0;
    while j < n
        invariant
            j <= n,
            forall|t: int| 0 <= t < j ==> breaks@[t] != x,
        decreases n - j,
    {
        if breaks[j] == x {
            return true;
        }
        j += 1;
    }
    false
}

/// Compute the break positions the layout engine uses for a smart join:
/// the justifier's chain over the items' estimated widths, with the
/// separator width padded by the widest item and the line target set to a
/// quarter of the page.
#[verifier::loop_isolation(false)]
pub fn smart_join_breaks(sep: &Doc, docs: &Vec<Doc>, printer: &Printer) -> (r: Vec<usize>)
    ensures
        r@ == sj_breaks(*sep, docs@, *printer),
{
    let n = docs.len();
    let mut doc_lengths: Vec<usize> = Vec::new();
    let mut k: usize = 0;
    while k < n
        invariant
            k <= n,
            doc_lengths@.len() == k,
            forall|t: int| 0 <= t < k ==> doc_lengths@[t] == estimate(docs@[t], *printer),
        decreases n - k,
    {
        let w = count_text_length(&docs[k], printer);
        doc_lengths.push(w);
        k += 1;
    }
    proof {
        assert(doc_lengths@ =~= sj_lens(docs@, *printer));
    }

    let mut mx: usize = 0;
    let mut k2: usize = 0;
    while k2 < n
        invariant
            k2 <= n,
            max_usize(mx, sj_max_len(docs@, k2 as int, *printer)) == sj_max_len(
                docs@,
                0,
                *printer,
            ),
            mx <= sj_max_len(docs@, 0, *printer),
        decreases n - k2,
    {
        let w = doc_lengths[k2];
        if w > mx {
            mx = w;
        }
        k2 += 1;
    }
    proof {
        assert(sj_max_len(docs@, n as int, *printer) == 0);
        assert(mx == sj_max_len(docs@, 0, *printer));
    }

    let sep_length = count_text_length(sep, printer);
    let padded = if sep_length >= mx {
        sep_length
    } else {
        mx
    };
    let eff_sep = sep_length.saturating_add(padded);
    let quarter = printer.max_width / 4;
    let ml = if quarter >= 2 {
        quarter
    } else {
        2
    };
    let mut output: Vec<usize> = Vec::new();
    crate::justify::text_justify(eff_sep, &doc_lengths, ml, &mut output);
    proof {
        assert(eff_sep == sj_sep_len(*sep, docs@, *printer));
        assert(ml == sj_width(*printer));
        assert(output@ =~= sj_breaks(*sep, docs@, *printer));
    }
    output
}

/// Push the tasks of a join onto the work stack: the items in order, a
/// separator before every item but the first, and a forced break before
/// each item listed in `breaks`.
#[verifier::loop_isolation(false)]
fn push_join_tasks<'a>(
    stack: &mut Vec<Task<'a>>,
    sep: &'a Doc,
    ds: &'a Vec<Doc>,
    breaks: &Vec<usize>,
    ind: usize,
    p: Ghost<Printer>,
)
    ensures
        forall|st: Layout| #![all_triggers]
            run(final(stack)@, st, p@) == run(
                old(stack)@,
                lay_join(*sep, ds@, breaks@, 0, ind, st, p@),
                p@,
            ),
        stack_weight(final(stack)@) <= stack_weight(old(stack)@) + weight_join(*sep, ds@, 0),
{
    let mut k = ds.len();
    while k > 0
        invariant
            k <= ds@.len(),
            forall|st: Layout| #![all_triggers]
                run(stack@, st, p@) == run(
                    old(stack)@,
                    lay_join(*sep, ds@, breaks@, k as int, ind, st, p@),
                    p@,
                ),
            stack_weight(stack@) <= stack_weight(old(stack)@) + weight_join(*sep, ds@, k as int),
        decreases k,
    {
        k = k - 1;
        let ghost s0 = stack@;
        stack.push(Task::D(&ds[k], ind));
        let ghost s1 = stack@;
        proof {
            assert forall|st: Layout| #![all_triggers]
                run(s1, st, p@) == run(s0, lay(ds@[k as int], ind, st, p@), p@) by {
                lemma_run_push(s0, Task::D(&ds[k as int], ind), st, p@);
            }
            lemma_run_push(s0, Task::D(&ds[k as int], ind), init_layout(), p@);
        }
        if k > 0 {
            let brk = contains_break(breaks, k);
            if brk {
                stack.push(Task::Brk(ind));
                proof {
                    assert forall|st: Layout| #![all_triggers]
                        run(stack@, st, p@) == run(s1, emit_break(st, ind, p@, true), p@) by {
                        lemma_run_push(s1, Task::Brk(ind), st, p@);
                    }
                    lemma_run_push(s1, Task::Brk(ind), init_layout(), p@);
                }
            }
            let ghost s2 = stack@;
            stack.push(Task::D(sep, ind));
            proof {
                assert forall|st: Layout| #![all_triggers]
                    run(stack@, st, p@) == run(s2, lay(*sep, ind, st, p@), p@) by {
                    lemma_run_push(s2, Task::D(sep, ind), st, p@);
                }
                lemma_run_push(s2, Task::D(sep, ind), init_layout(), p@);
            }
        }
        proof {
            assert forall|st: Layout| #![all_triggers]
                run(stack@, st, p@) == run(
                    old(stack)@,
                    lay_join(*sep, ds@, breaks@, k as int, ind, st, p@),
                    p@,
                ) by {
                let st1 = if k > 0 {
                    lay(*sep, ind, st, p@)
                } else {
                    st
                };
                let st2 = if k > 0 && breaks@.contains(k as usize) {
                    emit_break(st1, ind, p@, true)
                } else {
                    st1
                };
                assert(lay_join(*sep, ds@, breaks@, k as int, ind, st, p@) == lay_join(
                    *sep,
                    ds@,
                    breaks@,
                    k as int + 1,
                    ind,
                    lay(ds@[k as int], ind, st2, p@),
                    p@,
                ));
            }
        }
    }
}

/// Render a document to bytes.
///
/// Drives an explicit work stack instead of recursing, keeping track of
/// the current line length and indent depth.  The bytes produced are
/// exactly those of the document's meaning [`lay`], started at depth zero
/// from the empty state.
#[verifier::loop_isolation(false)]
#[verifier::rlimit(50)]
pub fn pprint_bytes(doc: &Doc, printer: &Printer) -> (out: Vec<u8>)
    ensures
        out@ == lay(*doc, 0, init_layout(), *printer).out,
{
    let ghost p = *printer;
    let ghost target = lay(*doc, 0, init_layout(), p);
    let mut out: Vec<u8> = Vec::new();
    let mut col: usize = 0;
    let mut lb: bool = false;
    let mut stack: Vec<Task> = Vec::new();
    stack.push(Task::D(doc, 0));
    proof {
        lemma_run_push(Seq::empty(), Task::D(doc, 0), init_layout(), p);
        assert(Seq::<Task>::empty().push(Task::D(doc, 0)) =~= stack@);
    }
    while stack.len() > 0
        invariant
            run(stack@, Layout { out: out@, col: col as nat, after_break: lb }, p) == target,
            col <= out@.len(),
        decreases stack_weight(stack@),
    {
        let ghost st0 = Layout { out: out@, col: col as nat, after_break: lb };
        let ghost stack0 = stack@;
        let t = stack.pop().unwrap();
        proof {
            assert(stack@ =~= stack0.drop_last());
            assert(t == stack0.last());
            assert(run(stack@, step(t, st0, p), p) == target);
            assert(stack_weight(stack@) + task_weight(t) == stack_weight(stack0));
        }
        let ghost sbase = stack@;
        match t {
            Task::Brk(ind) => {
                emit_break_exec(&mut out, ind, printer);
                col = ind;
                lb = true;
            },
            Task::D(d, ind) => match d {
                Doc::Null => {},
                Doc::Text(s) => {
                    let bs = s.as_str().as_bytes();
                    let l = bs.len();
                    extend_bytes(&mut out, bs);
                    let total = out.len();
                    proof {
                        assert(col + l <= total);
                    }
                    col = col + l;
                    lb = false;
                },
                Doc::Concat(ds) => {
                    let mut k = ds.len();
                    while k > 0
                        invariant
                            k <= ds@.len(),
                            forall|st: Layout| #![all_triggers]
                                run(stack@, st, p) == run(
                                    sbase,
                                    lay_seq(ds@, k as int, ind, st, p),
                                    p,
                                ),
                            stack_weight(stack@) <= stack_weight(sbase) + weight_seq(
                                ds@,
                                k as int,
                            ),
                        decreases k,
                    {
                        k = k - 1;
                        let ghost s0 = stack@;
                        stack.push(Task::D(&ds[k], ind));
                        proof {
                            assert forall|st: Layout| #![all_triggers]
                                run(stack@, st, p) == run(
                                    sbase,
                                    lay_seq(ds@, k as int, ind, st, p),
                                    p,
                                ) by {
                                lemma_run_push(s0, Task::D(&ds[k as int], ind), st, p);
                            }
                            lemma_run_push(s0, Task::D(&ds[k as int], ind), init_layout(), p);
                        }
                    }
                },
                Doc::Group(x) => {
                    let w = count_text_length(x, printer);
                    if w > printer.max_width {
                        let ghost s0 = stack@;
                        stack.push(Task::Brk(ind.saturating_sub(printer.indent)));
                        let ghost s1 = stack@;
                        stack.push(Task::D(x, ind));
                        let ghost s2 = stack@;
                        stack.push(Task::Brk(ind));
                        proof {
                            lemma_run_push(s0, Task::Brk(ind.saturating_sub(printer.indent)), lay(**x, ind, emit_break(st0, ind, p, true), p), p);
                            lemma_run_push(s1, Task::D(&**x, ind), emit_break(st0, ind, p, true), p);
                            lemma_run_push(s2, Task::Brk(ind), st0, p);
                        }
                    } else {
                        let ghost s0 = stack@;
                        stack.push(Task::D(x, ind));
                        proof {
                            lemma_run_push(s0, Task::D(&**x, ind), st0, p);
                        }
                    }
                },
                Doc::Indent(x) => {
                    let ghost s0 = stack@;
                    stack.push(Task::D(x, ind.saturating_add(printer.indent)));
                    proof {
                        lemma_run_push(
                            s0,
                            Task::D(&**x, ind.saturating_add(printer.indent)),
                            st0,
                            p,
                        );
                    }
                },
                Doc::Dedent(x) => {
                    let ghost s0 = stack@;
                    stack.push(Task::D(x, ind.saturating_sub(printer.indent)));
                    proof {
                        lemma_run_push(
                            s0,
                            Task::D(&**x, ind.saturating_sub(printer.indent)),
                            st0,
                            p,
                        );
                    }
                },
                Doc::Join(sep, ds) => {
                    let empty_breaks: Vec<usize> = Vec::new();
                    push_join_tasks(&mut stack, sep, ds, &empty_breaks, ind, Ghost(p));
                    proof {
                        assert(empty_breaks@ =~= Seq::<usize>::empty());
                    }
                },
                Doc::SmartJoin(sep, ds) => {
                    let breaks = smart_join_breaks(sep, ds, printer);
                    push_join_tasks(&mut stack, sep, ds, &breaks, ind, Ghost(p));
                },
                Doc::IfBreak(a, b) => {
                    let ghost s0 = stack@;
                    if lb {
                        stack.push(Task::D(a, ind));
                        proof {
                            lemma_run_push(s0, Task::D(&**a, ind), st0, p);
                        }
                    } else {
                        stack.push(Task::D(b, ind));
                        proof {
                            lemma_run_push(s0, Task::D(&**b, ind), st0, p);
                        }
                    }
                },
                Doc::Hardline => {
                    emit_break_exec(&mut out, ind, printer);
                    col = ind;
                    lb = true;
                },
                Doc::Softline => {
                    if col > printer.max_width {
                        emit_break_exec(&mut out, ind, printer);
                        col = ind;
                    }
                    lb = true;
                },
                Doc::Mediumline => {
                    if col > printer.max_width / 2 {
                        emit_break_exec(&mut out, ind, printer);
                        col = ind;
                    }
                    lb = false;
                },
                Doc::Line => {
                    out.push(10u8);
                    col = 0;
                    lb = false;
                },
            },
        }
        proof {
            let stnew = Layout { out: out@, col: col as nat, after_break: lb };
            match t {
                Task::Brk(ind) => {
                    assert(stnew == step(t, st0, p));
                },
                Task::D(d, ind) => {
                    match d {
                        Doc::Null => {
                            assert(stnew == step(t, st0, p));
                        },
                        Doc::Text(s) => {
                            assert(stnew == step(t, st0, p));
                        },
                        Doc::Concat(ds) => {
                            assert(run(stack@, stnew, p) == run(
                                sbase,
                                lay_seq(ds@, 0, ind, stnew, p),
                                p,
                            ));
                        },
                        Doc::Group(x) => {},
                        Doc::Indent(x) => {},
                        Doc::Dedent(x) => {},
                        Doc::Join(sep, ds) => {
                            assert(run(stack@, stnew, p) == run(
                                sbase,
                                lay_join(**sep, ds@, Seq::empty(), 0, ind, stnew, p),
                                p,
                            ));
                        },
                        Doc::SmartJoin(sep, ds) => {
                            assert(run(stack@, stnew, p) == run(
                                sbase,
                                lay_join(**sep, ds@, sj_breaks(**sep, ds@, p), 0, ind, stnew, p),
                                p,
                            ));
                        },
                        Doc::IfBreak(a, b) => {},
                        Doc::Hardline => {
                            assert(stnew == step(t, st0, p));
                        },
                        Doc::Softline => {
                            assert(stnew == step(t, st0, p));
                        },
                        Doc::Mediumline => {
                            assert(stnew == step(t, st0, p));
                        },
                        Doc::Line => {
                            assert(stnew.out =~= st0.out + seq![10u8]);
                            assert(stnew == step(t, st0, p));
                        },
                    }
                },
            }
            assert(run(stack@, stnew, p) == target);
            assert(stack_weight(stack@) < stack_weight(stack0));
        }
    }
    proof {
        assert(run(stack@, Layout { out: out@, col: col as nat, after_break: lb }, p) == Layout {
            out: out@,
            col: col as nat,
            after_break: lb,
        });
    }
    out
}

/// A sequence of bytes below 0x80 is valid UTF-8.
pub(crate) proof fn lemma_ascii_valid_utf8(bs: Seq<u8>)
    requires
        forall|i: int| 0 <= i < bs.len() ==> bs[i] < 0x80,
    ensures
        valid_utf8(bs),
    decreases bs.len(),
{
    if bs.len() != 0 {
        assert(vstd::utf8::is_leading_byte_width_1(bs[0]));
        assert(vstd::utf8::valid_first_scalar(bs));
        assert(vstd::utf8::length_of_first_scalar(bs) == 1);
        assert(vstd::utf8::pop_first_scalar(bs) =~= bs.subrange(1, bs.len() as int));
        lemma_ascii_valid_utf8(bs.subrange(1, bs.len() as int));
    }
}

/// Emitting a line break keeps the output valid UTF-8.
proof fn lemma_emit_break_valid(st: Layout, ind: usize, p: Printer, ab: bool)
    requires
        valid_utf8(st.out),
    ensures
        valid_utf8(emit_break(st, ind, p, ab).out),
{
    lemma_ascii_valid_utf8(break_bytes(ind, p));
    vstd::utf8::valid_utf8_concat(st.out, break_bytes(ind, p));
}

/// Laying out any document keeps the output valid UTF-8: every text
/// payload is the encoding of a string, and everything else the engine
/// emits is plain ASCII.
pub proof fn lemma_lay_valid(d: Doc, ind: usize, st: Layout, p: Printer)
    requires
        valid_utf8(st.out),
    ensures
        valid_utf8(lay(d, ind, st, p).out),
    decreases doc_height(d), 0int, 0int,
{
    match d {
        Doc::Null => {},
        Doc::Text(s) => {
            vstd::utf8::encode_utf8_valid_utf8(s@);
            vstd::utf8::valid_utf8_concat(st.out, encode_utf8(s@));
        },
        Doc::Concat(ds) => {
            lemma_lay_seq_valid(ds@, 0, ind, st, p);
        },
        Doc::Group(x) => {
            if estimate(*x, p) > p.max_width {
                lemma_emit_break_valid(st, ind, p, true);
                let st1 = emit_break(st, ind, p, true);
                lemma_lay_valid(*x, ind, st1, p);
                lemma_emit_break_valid(lay(*x, ind, st1, p), ind.saturating_sub(p.indent), p, true);
            } else {
                lemma_lay_valid(*x, ind, st, p);
            }
        },
        Doc::Indent(x) => {
            lemma_lay_valid(*x, ind.saturating_add(p.indent), st, p);
        },
        Doc::Dedent(x) => {
            lemma_lay_valid(*x, ind.saturating_sub(p.indent), st, p);
        },
        Doc::Join(sep, ds) => {
            lemma_lay_join_valid(*sep, ds@, Seq::empty(), 0, ind, st, p);
        },
        Doc::SmartJoin(sep, ds) => {
            lemma_lay_join_valid(*sep, ds@, sj_breaks(*sep, ds@, p), 0, ind, st, p);
        },
        Doc::IfBreak(a, b) => {
            if st.after_break {
                lemma_lay_valid(*a, ind, st, p);
            } else {
                lemma_lay_valid(*b, ind, st, p);
            }
        },
        Doc::Hardline => {
            lemma_emit_break_valid(st, ind, p, true);
        },
        Doc::Softline => {
            if st.col > p.max_width {
                lemma_emit_break_valid(st, ind, p, true);
            }
        },
        Doc::Mediumline => {
            if st.col > p.max_width / 2 {
                lemma_emit_break_valid(st, ind, p, false);
            }
        },
        Doc::Line => {
            lemma_ascii_valid_utf8(seq![10u8]);
            vstd::utf8::valid_utf8_concat(st.out, seq![10u8]);
        },
    }
}

proof fn lemma_lay_seq_valid(ds: Seq<Doc>, i: int, ind: usize, st: Layout, p: Printer)
    requires
        valid_utf8(st.out),
    ensures
        valid_utf8(lay_seq(ds, i, ind, st, p).out),
    decreases seq_height(ds), 1int, ds.len() - i,
{
    if 0 <= i < ds.len() {
        lemma_seq_height_bound(ds, i);
        lemma_lay_valid(ds[i], ind, st, p);
        lemma_lay_seq_valid(ds, i + 1, ind, lay(ds[i], ind, st, p), p);
    }
}

proof fn lemma_lay_join_valid(
    sep: Doc,
    ds: Seq<Doc>,
    breaks: Seq<usize>,
    i: int,
    ind: usize,
    st: Layout,
    p: Printer,
)
    requires
        valid_utf8(st.out),
    ensures
        valid_utf8(lay_join(sep, ds, breaks, i, ind, st, p).out),
    decreases max_nat(doc_height(sep), seq_height(ds)), 1int, ds.len() - i,
{
    if 0 <= i < ds.len() {
        lemma_seq_height_bound(ds, i);
        let st1 = if i > 0 {
            lay(sep, ind, st, p)
        } else {
            st
        };
        if i > 0 {
            lemma_lay_valid(sep, ind, st, p);
        }
        let st2 = if i > 0 && breaks.contains(i as usize) {
            emit_break(st1, ind, p, true)
        } else {
            st1
        };
        if i > 0 && breaks.contains(i as usize) {
            lemma_emit_break_valid(st1, ind, p, true);
        }
        lemma_lay_valid(ds[i], ind, st2, p);
        lemma_lay_join_valid(sep, ds, breaks, i + 1, ind, lay(ds[i], ind, st2, p), p);
    }
}

/// Relies on `String::from_utf8`: on bytes that are a valid UTF-8
/// encoding it returns `Ok` with the string whose encoding is exactly
/// those bytes.
#[verifier::external_body]
pub(crate) fn bytes_to_string(v: Vec<u8>) -> (r: String)
    requires
        valid_utf8(v@),
    ensures
        encode_utf8(r@) == v@,
{
    String::from_utf8(v).unwrap_or_default()
}

/// The printer a print call runs with: the one given, or the default.
pub open spec fn chosen_printer(o: Option<Printer>) -> Printer {
    match o {
        Some(q) => q,
        None => default_printer(),
    }
}

/// Core pretty printing function.
///
/// Takes a document and an optional printer configuration and returns the
/// formatted text: the UTF-8 decoding of exactly the bytes that the
/// layout interpretation [`lay`] assigns to the document.
pub fn pprint(doc: Doc, printer: Option<Printer>) -> (r: String)
    ensures
        encode_utf8(r@) == lay(doc, 0, init_layout(), chosen_printer(printer)).out,
{
    let ghost cfg = chosen_printer(printer);
    let q = match printer {
        Some(q) => q,
        None => Printer::default(),
    };
    let bytes = pprint_bytes(&doc, &q);
    proof {
        assert(valid_utf8(init_layout().out));
        lemma_lay_valid(doc, 0, init_layout(), q);
    }
    bytes_to_string(bytes)
}

} // verus!
