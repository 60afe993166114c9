//! A pretty-printing library built around a document algebra.
//!
//! A caller describes the shape of a value as a [`Doc`](doc::Doc) tree and
//! hands it to the layout engine in [`print`](print::pprint), which walks
//! the tree iteratively, tracks the current column and indent depth, and
//! produces the formatted text.  Width decisions rest on the pure
//! estimator in [`estimate`], and multi-line joins pick their break
//! positions with the minimum-raggedness justifier in [`justify`].

pub mod convert;
pub mod doc;
pub mod estimate;
pub mod justify;
pub mod laws;
pub mod num;
pub mod print;

pub use doc::Doc;
pub use doc::Group;
pub use doc::Indent;
pub use doc::Dedent;
pub use doc::Join;
pub use doc::SmartJoin;
pub use doc::Wrap;
pub use doc::group;
pub use doc::wrap;
pub use doc::join;
pub use doc::smart_join;
pub use doc::indent;
pub use doc::dedent;
pub use doc::hardline;
pub use doc::softline;
pub use doc::if_break;
pub use doc::text;
pub use estimate::count_text_length;
pub use estimate::count_join_length;
pub use justify::text_justify;
pub use num::DigitCount;
pub use num::u128_mulhi;
pub use num::udivmod_1e19;
pub use print::Printer;
pub use print::pprint;
pub use print::smart_join_breaks;
