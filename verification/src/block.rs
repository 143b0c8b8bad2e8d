//! One notebook block and what it shows below its source. A block's
//! kind (declaration or query) is never stored: it is re-derived from
//! the current source whenever it matters.
use vstd::prelude::*;
use crate::text::same_text;

verus! {

/// A block's identity, stable across edits.
#[derive(Clone, Copy, PartialEq, Eq, Structural, PartialOrd, Ord, Hash, Debug)]
pub struct BlockId(pub u64);

/// The number of a session entry that holds a query's result.
#[derive(Clone, Copy, PartialEq, Eq, Structural, PartialOrd, Ord, Hash, Debug)]
pub struct EntryId(pub u64);

/// Three states for a declaration block.
#[derive(Clone, Debug, PartialEq, Eq)]
pub enum DeclarationStatus {
    /// The block's current text is exactly what the live model holds.
    Confirmed,
    /// Edited (or new) since the last successful reconstruction.
    Divergent,
    /// The attributable cause of the last failed reconstruction, with the
    /// rendered error.
    Error(String),
}

/// What a block currently shows below its source.
#[derive(Clone, Debug, PartialEq, Eq)]
pub enum BlockOutput {
    /// Never executed, and never swept into a reconstruction either.
    NeverRun,
    Declaration(DeclarationStatus),
    Query(EntryId),
    /// The latest attempt is running or was cancelled; `previous` is an
    /// earlier run's entry, kept visible meanwhile.
    Attempt { attempt: EntryId, previous: Option<EntryId> },
    /// The leading keyword is none of the recognized ones; the rendered
    /// error.
    Unrecognized(String),
}

/// One block of a notebook.
#[derive(Debug)]
pub struct Block {
    pub id: BlockId,
    pub source: String,
    pub output: BlockOutput,
    /// Which explicit execution of this block this is, notebook-wide;
    /// `None` before it was ever itself executed.
    pub execution_count: Option<u64>,
    /// `source` as it was when this block was last itself executed.
    pub executed_source: Option<String>,
    /// Set when an earlier block was edited, deleted or had a block
    /// inserted after it; cleared when this block is executed again.
    pub obsolete_by_cascade: bool,
}

impl Block {
    /// A fresh block: never run, never executed.
    pub fn new(id: BlockId, source: String) -> (r: Block)
        ensures
            r == (Block {
                id,
                source,
                output: BlockOutput::NeverRun,
                execution_count: None,
                executed_source: None,
                obsolete_by_cascade: false,
            }),
    {
        Block {
            id,
            source,
            output: BlockOutput::NeverRun,
            execution_count: None,
            executed_source: None,
            obsolete_by_cascade: false,
        }
    }

    /// Whether the result shown no longer trustworthily describes the
    /// current state: the block was executed before, and since then
    /// either its own text changed or an earlier block's edit, delete or
    /// insert might have affected it. Never for a block not yet itself
    /// executed.
    pub fn is_obsolete(&self) -> (r: bool)
        ensures
            r == (self.execution_count is Some && (self.obsolete_by_cascade || match self.executed_source {
                Some(s) => s@ != self.source@,
                None => true,
            })),
    {
        if self.execution_count.is_none() {
            return false;
        }
        if self.obsolete_by_cascade {
            return true;
        }
        match &self.executed_source {
            Some(s) => !same_text(s.as_str(), self.source.as_str()),
            None => true,
        }
    }
}

} // verus!
