//! Verified core of a set of small Unix tools (echo, cat, head, tail, grep,
//! sort, cut, tr, find, ls, tree, cp, mv, du, xargs and a terminal report):
//! what each prints for its input and options, stated and proved; reading,
//! walking directories and running programs are left to the caller.
pub mod text;
pub mod order;
pub mod glob;
pub mod find;
pub mod charset;
pub mod cut;
pub mod escape;
pub mod lines;
pub mod sizes;
pub mod sort;
pub mod matcher;
pub mod highlight;
pub mod grep;
pub mod names;
pub mod ls;
pub mod tree;
pub mod du;
pub mod xargs;
pub mod transfer;
pub mod paint;
pub mod report;
