//! An index is read from its kept form where there is one, and built from
//! the source index where there is none.

use crate::indices::{
    built_from, ids_of, is_kept_form, read_from, read_indices, write_all_indices,
    write_template_indices, IndexError,
};
use crate::text::texts;
use std::collections::HashMap;
use vstd::prelude::*;

verus! {

/// The lines from which an index is made.
pub enum IndexLines {
    /// The lines of the kept index, which exists.
    Kept(Vec<String>),
    /// The lines of the source index; no kept index exists.
    Source(Vec<String>),
}

/// An index, and the lines under which it is to be kept if it was built.
pub struct LoadedIndices {
    pub indices: HashMap<usize, Vec<usize>>,
    pub to_write: Option<Vec<String>>,
}

/// What is loaded from the given lines: a kept index is read and nothing is
/// written; a source index is built, with or without the filter for
/// templates, and is to be written.
pub open spec fn loads(lines: IndexLines, templates: bool, r: Result<LoadedIndices, IndexError>) -> bool {
    match lines {
        IndexLines::Kept(kept) => match read_from(Map::empty(), texts(kept@), 0) {
            Ok(m) => r matches Ok(l) && ids_of(l.indices@) == m && l.to_write is None,
            Err(e) => r matches Err(f) && f == e,
        },
        IndexLines::Source(source) => match built_from(
            Map::empty(),
            texts(source@),
            0,
            templates,
        ) {
            Ok(m) => r matches Ok(l) && ids_of(l.indices@) == m && (l.to_write matches Some(w)
                && is_kept_form(w@, l.indices@)),
            Err(e) => r matches Err(f) && f == e,
        },
    }
}

/// The index of all pages.
pub fn build_or_load_page_indices(lines: IndexLines) -> (r: Result<LoadedIndices, IndexError>)
    ensures
        loads(lines, false, r),
{
    match lines {
        IndexLines::Kept(kept) => match read_indices(&kept) {
            Ok(indices) => Ok(LoadedIndices { indices, to_write: None }),
            Err(e) => Err(e),
        },
        IndexLines::Source(source) => match write_all_indices(&source) {
            Ok((indices, written)) => Ok(LoadedIndices { indices, to_write: Some(written) }),
            Err(e) => Err(e),
        },
    }
}

/// The index of the template pages.
pub fn build_or_load_template_indices(lines: IndexLines) -> (r: Result<LoadedIndices, IndexError>)
    ensures
        loads(lines, true, r),
{
    match lines {
        IndexLines::Kept(kept) => match read_indices(&kept) {
            Ok(indices) => Ok(LoadedIndices { indices, to_write: None }),
            Err(e) => Err(e),
        },
        IndexLines::Source(source) => match write_template_indices(&source) {
            Ok((indices, written)) => Ok(LoadedIndices { indices, to_write: Some(written) }),
            Err(e) => Err(e),
        },
    }
}

} // verus!
