//! Parser components, includes parser error.
//!
//! This parser is a simple greedy algorithm that returns result when
//! matched successfully; try next or return error when mismatched.
//!
//! Each pattern (the method of [`Parser`] type) is called "sub-parser",
//! which returns a `Result<T, PError>` type, where `T` is the return type.
pub mod base;
pub mod error;
pub mod grammar;
pub mod strings;
pub mod directive;
pub mod structure;

pub use self::base::TakeOpt;
pub use self::error::{PError, PResult};
pub use self::structure::{parse, parse_cyclic};
use crate::anchors::{anchor_entries, Anchors};
use crate::yaml::{alias_free, yaml_view, Yaml};
use vstd::prelude::*;

verus! {

/// The default prefix of the YAML sub tag.
pub const DEFAULT_PREFIX: &'static str = "tag:yaml.org,2002:";

/// A PEG parser with YAML grammar, support UTF-8 characters.
///
/// The methods are the sub-parsers. They move the cursor `pos` when they match; the
/// checkpoint `eaten` is where a mismatched sub-parser takes the cursor back to.
pub struct Parser<'a> {
    /// The document.
    pub doc: &'a [u8],
    /// The indentation width of each level.
    pub indent: Vec<usize>,
    /// Bytes consumed before the document.
    pub consumed: u64,
    /// A version directive has been read.
    pub version_checked: bool,
    /// Tag handles and their prefixes.
    pub tag: Vec<(Vec<u8>, Vec<u8>)>,
    /// Current position.
    pub pos: usize,
    /// Read position.
    pub eaten: usize,
    /// A visitor of anchors.
    pub anchors: Anchors,
    /// Keep aliases instead of replacing them with the anchored data.
    pub keep_alias: bool,
}

impl<'a> Parser<'a> {
    /// The cursors are in the document, the indentation has a root level, and the
    /// indicator cannot overflow.
    pub open spec fn wf(&self) -> bool {
        &&& self.eaten <= self.doc@.len()
        &&& self.pos <= self.doc@.len()
        &&& self.indent@.len() >= 1
        &&& self.consumed + self.doc@.len() <= u64::MAX
        &&& forall|i: int|
            0 <= i < anchor_entries(self.anchors).len() ==> self.data_ok(#[trigger] anchor_entries(self.anchors)[i].1.yaml)
    }

    /// Data that this parser may give: free of aliases, unless it keeps them.
    pub open spec fn data_ok(&self, y: Yaml) -> bool {
        self.keep_alias || alias_free(yaml_view(y))
    }

    /// The frame of a sub-parser that only moves the cursor: well-formed, same document,
    /// same checkpoint, same tags, anchors and directives.
    pub open spec fn keeps(&self, old: &Self) -> bool {
        &&& self.wf()
        &&& self.same_doc(old)
        &&& self.eaten == old.eaten
        &&& self.tag == old.tag
        &&& self.anchors == old.anchors
        &&& self.version_checked == old.version_checked
    }

    /// Same document and same anchors, tags and settings.
    pub open spec fn same_doc(&self, other: &Self) -> bool {
        &&& self.doc@ == other.doc@
        &&& self.consumed == other.consumed
        &&& self.keep_alias == other.keep_alias
    }
}

} // verus!
