//! Where the text that tokens come from is found.
use vstd::prelude::*;
use std::path::{Path, PathBuf};

verus! {

/// `std::path::Path`, a file-system path, which this library only carries.
#[verifier::external_type_specification]
#[verifier::external_body]
pub struct ExPath(Path);

/// `std::path::PathBuf`, the owned form of a path. It is declared because
/// std's impls for `Path` name it; this library holds none.
#[verifier::external_type_specification]
#[verifier::external_body]
pub struct ExPathBuf(PathBuf);

/// Where some content lives: in a file, given by its path, or in a string
/// held in memory.
pub enum ContentLocation<'s> {
    File(&'s Path),
    String(&'s str),
}

/// A span of content: where the content lives, and the span's start and end
/// in it.
pub struct ContentSpan<'s> {
    content: ContentLocation<'s>,
    span: (usize, usize),
}

} // verus!
