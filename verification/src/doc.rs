//! The document algebra: a closed set of node variants that describe the
//! shape of a value, together with the constructor surface.

use vstd::prelude::*;

verus! {

/// A document that can be pretty printed.
///
/// This is the core type of the library: an enum describing the different
/// ways a piece of text can be laid out.  A document is immutable once
/// built; the layout engine borrows it for the duration of printing.
pub enum Doc {
    /// Empty; contributes nothing.
    Null,
    /// Literal text, emitted as-is.
    Text(String),
    /// An ordered sequence of documents, emitted in order.
    Concat(Vec<Doc>),
    /// Emitted on one line if its estimated width fits the page, otherwise
    /// with a forced break before and after.
    Group(Box<Doc>),
    /// The child is emitted with the indent depth one level deeper.
    Indent(Box<Doc>),
    /// The child is emitted with the indent depth one level shallower,
    /// saturating at zero.
    Dedent(Box<Doc>),
    /// The items emitted with the separator between each adjacent pair.
    Join(Box<Doc>, Vec<Doc>),
    /// Like `Join`, but the layout engine chooses break positions with the
    /// minimum-raggedness justifier.
    SmartJoin(Box<Doc>, Vec<Doc>),
    /// The first child if the previous emitted node was a break, else the
    /// second.
    IfBreak(Box<Doc>, Box<Doc>),
    /// A line break that is always printed, followed by the indent.
    Hardline,
    /// A line break printed only when the current column exceeds the page
    /// width.
    Softline,
    /// A line break printed only when the current column exceeds half the
    /// page width.
    Mediumline,
    /// A bare newline with no indent.
    Line,
}

/// Height of a document tree; a structural measure used to justify
/// termination of the recursive functions that walk a document.
pub open spec fn doc_height(d: Doc) -> nat
    decreases d,
{
    match d {
        Doc::Null => 0,
        Doc::Text(_) => 0,
        Doc::Concat(ds) => 1 + seq_height(ds@),
        Doc::Group(x) => 1 + doc_height(*x),
        Doc::Indent(x) => 1 + doc_height(*x),
        Doc::Dedent(x) => 1 + doc_height(*x),
        Doc::Join(sep, ds) => 1 + max_nat(doc_height(*sep), seq_height(ds@)),
        Doc::SmartJoin(sep, ds) => 1 + max_nat(doc_height(*sep), seq_height(ds@)),
        Doc::IfBreak(a, b) => 1 + max_nat(doc_height(*a), doc_height(*b)),
        Doc::Hardline => 0,
        Doc::Softline => 0,
        Doc::Mediumline => 0,
        Doc::Line => 0,
    }
}

/// Height of a sequence of documents: the largest height of any element.
pub open spec fn seq_height(ds: Seq<Doc>) -> nat
    decreases ds,
{
    if ds.len() == 0 {
        0
    } else {
        max_nat(doc_height(ds[0]), seq_height(ds.drop_first()))
    }
}

pub open spec fn max_nat(a: nat, b: nat) -> nat {
    if a >= b {
        a
    } else {
        b
    }
}

/// Every element of a sequence of documents is at most as high as the
/// sequence itself.
pub proof fn lemma_seq_height_bound(ds: Seq<Doc>, i: int)
    requires
        0 <= i < ds.len(),
    ensures
        doc_height(ds[i]) <= seq_height(ds),
    decreases ds.len(),
{
    if i == 0 {
    } else {
        lemma_seq_height_bound(ds.drop_first(), i - 1);
        assert(ds.drop_first()[i - 1] == ds[i]);
    }
}

/// Literal text.  The bytes of `s` are emitted exactly as given.
pub fn text(s: &str) -> (r: Doc)
    ensures
        r matches Doc::Text(t) && t@ == s@,
{
    Doc::Text(s.to_owned())
}

/// Group a document: it is printed on a single line if it fits the page,
/// otherwise it is printed with a break before and after.
pub fn group(doc: Doc) -> (r: Doc)
    ensures
        r matches Doc::Group(d) && *d == doc,
{
    Doc::Group(Box::new(doc))
}

/// Concatenate a vector of documents into a single document.
pub fn concat(docs: Vec<Doc>) -> (r: Doc)
    ensures
        r matches Doc::Concat(ds) && ds == docs,
{
    Doc::Concat(docs)
}

/// Enwrap a document with two other documents, `left` and `right`.
pub fn wrap(left: Doc, doc: Doc, right: Doc) -> (r: Doc)
    ensures
        r matches Doc::Concat(ds) && ds@ == seq![left, doc, right],
{
    let mut ds: Vec<Doc> = Vec::new();
    ds.push(left);
    ds.push(doc);
    ds.push(right);
    proof {
        assert(ds@ =~= seq![left, doc, right]);
    }
    Doc::Concat(ds)
}

/// Join a vector of documents on a separator.
pub fn join(sep: Doc, docs: Vec<Doc>) -> (r: Doc)
    ensures
        r matches Doc::Join(s, ds) && *s == sep && ds == docs,
{
    Doc::Join(Box::new(sep), docs)
}

/// Join a vector of documents on a separator if the result fits the page,
/// hence the name "smart join"; otherwise break at the positions chosen by
/// the minimum-raggedness justifier.
pub fn smart_join(sep: Doc, docs: Vec<Doc>) -> (r: Doc)
    ensures
        r matches Doc::SmartJoin(s, ds) && *s == sep && ds == docs,
{
    Doc::SmartJoin(Box::new(sep), docs)
}

/// Indent a document by one level.
pub fn indent(doc: Doc) -> (r: Doc)
    ensures
        r matches Doc::Indent(d) && *d == doc,
{
    Doc::Indent(Box::new(doc))
}

/// Dedent a document by one level.
pub fn dedent(doc: Doc) -> (r: Doc)
    ensures
        r matches Doc::Dedent(d) && *d == doc,
{
    Doc::Dedent(Box::new(doc))
}

/// An absolute line break, i.e. a line break that is always printed.
pub fn hardline() -> (r: Doc)
    ensures
        r == Doc::Hardline,
{
    Doc::Hardline
}

/// A line break that is only printed if the document does not fit the page.
pub fn softline() -> (r: Doc)
    ensures
        r == Doc::Softline,
{
    Doc::Softline
}

/// If the previous emitted node was a break, print the first document,
/// otherwise print the second.
pub fn if_break(doc: Doc, other: Doc) -> (r: Doc)
    ensures
        r matches Doc::IfBreak(a, b) && *a == doc && *b == other,
{
    Doc::IfBreak(Box::new(doc), Box::new(other))
}

/// Method form of [`group`].
pub trait Group {
    fn group(self) -> Self;
}

impl Group for Doc {
    fn group(self) -> Self {
        group(self)
    }
}

/// Method form of [`indent`].
pub trait Indent {
    fn indent(self) -> Self;
}

impl Indent for Doc {
    fn indent(self) -> Self {
        indent(self)
    }
}

/// Method form of [`dedent`].
pub trait Dedent {
    fn dedent(self) -> Self;
}

impl Dedent for Doc {
    fn dedent(self) -> Self {
        dedent(self)
    }
}

/// Method form of [`join`].
pub trait Join {
    fn join(self, sep: Doc) -> Doc;
}

impl Join for Vec<Doc> {
    fn join(self, sep: Doc) -> Doc {
        join(sep, self)
    }
}

/// Method form of [`smart_join`].
pub trait SmartJoin {
    fn smart_join(self, sep: Doc) -> Doc;
}

impl SmartJoin for Vec<Doc> {
    fn smart_join(self, sep: Doc) -> Doc {
        smart_join(sep, self)
    }
}

/// Method form of [`wrap`].
pub trait Wrap {
    fn wrap(self, left: Doc, right: Doc) -> Doc;
}

impl Wrap for Doc {
    fn wrap(self, left: Doc, right: Doc) -> Doc {
        wrap(left, self, right)
    }
}

} // verus!
