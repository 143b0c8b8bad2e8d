//! The notebook's bookkeeping: an ordered list of blocks, which of them
//! were executed and in what order, which results are obsolete, and the
//! one execution allowed in flight at a time.
//!
//! The session that evaluates declarations and runs queries, and the
//! parser that classifies a block's text, sit outside: each operation
//! here takes what they answered as plain values and returns what must
//! be done next with them (entries to drop, a reconstruction to run, a
//! query to start, an execution to cancel).
use vstd::prelude::*;
use crate::block::{Block, BlockId, BlockOutput, DeclarationStatus, EntryId};
use crate::persist::{
    all_white, char_rows, lemma_render_then_parse, parse_sources_spec, render_spec, sources,
    split_lines, storable, text_lines,
};
use crate::text::{chars_of, push_char, push_str};

verus! {

/// What a block's leading keyword makes it.
#[derive(Clone, Copy, PartialEq, Eq, Structural, Debug)]
pub enum BlockKind {
    Declaration,
    Query,
}

/// How the session answered a query's start.
#[derive(Clone, Copy, PartialEq, Eq, Structural, Debug)]
pub enum QueryStart {
    /// Nothing was run (no document yet, or unparseable input): the
    /// failed entry is final.
    Failed(EntryId),
    /// The computation was handed off; the entry is running.
    Running(EntryId),
}

/// What [`Notebook::begin_execute`] decided.
#[derive(Clone, Copy, PartialEq, Eq, Structural, Debug)]
pub enum BeginExecution {
    /// Nothing further to do (the text classified as neither kind).
    Done,
    /// A query: start it in the session with the block's source and
    /// report how that went with [`Notebook::query_started`].
    StartQuery { previous: Option<EntryId> },
    /// A declaration: reconstruct every declaration block and report the
    /// outcome with [`Notebook::reconstructed`].
    Reconstruct,
    /// Some execution (`by`, possibly this very block) is in flight;
    /// nothing changed.
    Blocked { by: BlockId },
    /// No block has this id.
    NotFound,
}

/// The blocks of a notebook and the counters behind their ids and
/// execution numbers.
pub struct Notebook {
    blocks: Vec<Block>,
    next_block_id: u64,
    next_execution_count: u64,
    running: Option<BlockId>,
}

/// `b` after an earlier change: marked obsolete if it was ever executed.
pub open spec fn cascaded(b: Block) -> Block {
    Block { obsolete_by_cascade: b.obsolete_by_cascade || b.execution_count is Some, ..b }
}

/// Where a block inserted after `after` goes: right after it, or at the
/// end when it is `None` or absent.
pub open spec fn insert_point(s: Seq<Block>, after: Option<BlockId>) -> int {
    match after {
        Some(a) => if exists|i: int| 0 <= i < s.len() && s[i].id == a {
            (choose|i: int| 0 <= i < s.len() && s[i].id == a) + 1
        } else {
            s.len() as int
        },
        None => s.len() as int,
    }
}

/// The position of the block `id`, if any.
pub open spec fn has_block(s: Seq<Block>, id: BlockId) -> bool {
    exists|i: int| 0 <= i < s.len() && s[i].id == id
}

/// `t` is `s` with every block from `from` on marked as after a change.
pub open spec fn cascade_from(s: Seq<Block>, t: Seq<Block>, from: int) -> bool {
    &&& t.len() == s.len()
    &&& forall|i: int| 0 <= i < s.len() && i < from ==> t[i] == s[i]
    &&& forall|i: int| 0 <= i < s.len() && i >= from ==> t[i] == cascaded(s[i])
}

impl Notebook {
    /// The blocks, in order.
    pub closed spec fn blocks_spec(&self) -> Seq<Block> {
        self.blocks@
    }

    /// The id the next created block gets.
    pub closed spec fn next_block_id_spec(&self) -> u64 {
        self.next_block_id
    }

    /// The number the next direct execution gets.
    pub closed spec fn next_execution_count_spec(&self) -> u64 {
        self.next_execution_count
    }

    /// The block whose execution is in flight.
    pub closed spec fn running_spec(&self) -> Option<BlockId> {
        self.running
    }

    /// Distinct ids, all below the next one; an execution number exactly
    /// where an executed source is kept, each below the next number.
    pub open spec fn wf(&self) -> bool {
        let s = self.blocks_spec();
        &&& forall|i: int, j: int| 0 <= i < j < s.len() ==> (#[trigger] s[i]).id != (#[trigger] s[j]).id
        &&& forall|i: int| 0 <= i < s.len() ==> (#[trigger] s[i]).id.0 < self.next_block_id_spec()
        &&& forall|i: int|
            0 <= i < s.len() ==> ((#[trigger] s[i]).execution_count is Some <==> s[i].executed_source is Some)
        &&& forall|i: int|
            0 <= i < s.len() ==> match (#[trigger] s[i]).execution_count {
                Some(n) => n < self.next_execution_count_spec(),
                None => true,
            }
        &&& self.next_execution_count_spec() >= 1
    }

    /// An empty notebook.
    pub fn new() -> (r: Notebook)
        ensures
            r.wf(),
            r.blocks_spec() == Seq::<Block>::empty(),
            r.next_block_id_spec() == 0,
            r.next_execution_count_spec() == 1,
            r.running_spec() is None,
    {
        Notebook { blocks: Vec::new(), next_block_id: 0, next_execution_count: 1, running: None }
    }

    /// The blocks, in order.
    pub fn blocks(&self) -> (r: &Vec<Block>)
        ensures
            r@ == self.blocks_spec(),
    {
        &self.blocks
    }

    /// The block `id`.
    pub fn block(&self, id: BlockId) -> (r: Option<&Block>)
        ensures
            match r {
                Some(b) => exists|i: int|
                    0 <= i < self.blocks_spec().len() && self.blocks_spec()[i] == *b && b.id == id,
                None => !has_block(self.blocks_spec(), id),
            },
    {
        match self.position(id) {
            Some(i) => {
                assert(self.blocks_spec()[i as int] == self.blocks@[i as int]);
                assert(self.blocks_spec()[i as int].id == id);
                Some(&self.blocks[i])
            },
            None => None,
        }
    }

    /// The id the next created block gets.
    pub fn next_block_id(&self) -> (r: u64)
        ensures
            r == self.next_block_id_spec(),
    {
        self.next_block_id
    }

    /// The number the next direct execution gets.
    pub fn next_execution_count(&self) -> (r: u64)
        ensures
            r == self.next_execution_count_spec(),
    {
        self.next_execution_count
    }

    /// The block whose execution is in flight, if any.
    pub fn running(&self) -> (r: Option<BlockId>)
        ensures
            r == self.running_spec(),
    {
        self.running
    }

    /// Where the block `id` stands.
    fn position(&self, id: BlockId) -> (r: Option<usize>)
        ensures
            match r {
                Some(i) => i < self.blocks@.len() && self.blocks@[i as int].id == id && forall|
                    k: int,
                | 0 <= k < i ==> (#[trigger] self.blocks@[k]).id != id,
                None => !has_block(self.blocks@, id),
            },
    {
        let mut i: usize = 0;
        while i < self.blocks.len()
            invariant
                i <= self.blocks@.len(),
                forall|k: int| 0 <= k < i ==> (#[trigger] self.blocks@[k]).id != id,
            decreases self.blocks@.len() - i,
        {
            if self.blocks[i].id.0 == id.0 {
                return Some(i);
            }
            i += 1;
        }
        None
    }

    /// Marks every already-executed block from `from` on obsolete: a
    /// change before them might have affected them, and nothing is
    /// recomputed to find out.
    fn mark_cascade_obsolete_from(&mut self, from: usize)
        requires
            old(self).wf(),
        ensures
            final(self).wf(),
            cascade_from(old(self).blocks@, final(self).blocks@, from as int),
            final(self).next_block_id == old(self).next_block_id,
            final(self).next_execution_count == old(self).next_execution_count,
            final(self).running == old(self).running,
    {
        let mut i: usize = from;
        if i > self.blocks.len() {
            i = self.blocks.len();
        }
        let ghost start = i;
        while i < self.blocks.len()
            invariant
                start <= i <= self.blocks@.len(),
                start == if from <= old(self).blocks@.len() {
                    from as int
                } else {
                    old(self).blocks@.len() as int
                },
                self.blocks@.len() == old(self).blocks@.len(),
                self.next_block_id == old(self).next_block_id,
                self.next_execution_count == old(self).next_execution_count,
                self.running == old(self).running,
                forall|k: int| 0 <= k < start ==> self.blocks@[k] == old(self).blocks@[k],
                forall|k: int| start <= k < i ==> self.blocks@[k] == cascaded(old(self).blocks@[k]),
                forall|k: int| i <= k < self.blocks@.len() ==> self.blocks@[k] == old(self).blocks@[k],
            decreases self.blocks@.len() - i,
        {
            if self.blocks[i].execution_count.is_some() {
                self.blocks[i].obsolete_by_cascade = true;
            }
            i += 1;
        }
    }

    /// Inserts a new block holding `source` right after `after` (at the
    /// end when `after` is `None` or absent) and marks every executed
    /// block below it obsolete.
    pub fn create_block_after(&mut self, after: Option<BlockId>, source: String) -> (id: BlockId)
        requires
            old(self).wf(),
            old(self).next_block_id_spec() < u64::MAX,
        ensures
            final(self).wf(),
            id.0 == old(self).next_block_id_spec(),
            final(self).next_block_id_spec() == old(self).next_block_id_spec() + 1,
            final(self).next_execution_count_spec() == old(self).next_execution_count_spec(),
            final(self).running_spec() == old(self).running_spec(),
            ({
                let s = old(self).blocks_spec();
                let t = final(self).blocks_spec();
                let p = insert_point(s, after);
                &&& t.len() == s.len() + 1
                &&& t[p] == Block {
                    id,
                    source,
                    output: BlockOutput::NeverRun,
                    execution_count: None,
                    executed_source: None,
                    obsolete_by_cascade: false,
                }
                &&& forall|i: int| 0 <= i < p ==> t[i] == s[i]
                &&& forall|i: int| p < i < t.len() ==> t[i] == cascaded(s[i - 1])
            }),
    {
        let id = BlockId(self.next_block_id);
        self.next_block_id = self.next_block_id + 1;
        let block = Block::new(id, source);
        let ghost s = self.blocks@;
        let p = match after {
            Some(a) => match self.position(a) {
                Some(k) => {
                    assert(k < self.blocks.len());
                    k + 1
                },
                None => self.blocks.len(),
            },
            None => self.blocks.len(),
        };
        proof {
            match after {
                Some(a) => {
                    if exists|i: int| 0 <= i < s.len() && s[i].id == a {
                        let c = choose|i: int| 0 <= i < s.len() && s[i].id == a;
                        assert(p - 1 == c) by {
                            if p - 1 < c {
                                assert(s[c].id == a && s[p - 1].id == a);
                            }
                            if c < p - 1 {
                                assert(s[c].id != a);
                            }
                        }
                    }
                },
                None => {},
            }
            assert(p == insert_point(s, after));
        }
        self.blocks.insert(p, block);
        proof {
            assert forall|i: int, j: int| 0 <= i < j < self.blocks@.len() implies (
            #[trigger] self.blocks@[i]).id != (#[trigger] self.blocks@[j]).id by {
                if i == p {
                    assert(self.blocks@[j] == s[j - 1]);
                } else if j == p {
                    assert(self.blocks@[i] == s[i]);
                } else {
                    let a = if i < p { i } else { i - 1 };
                    let b = if j < p { j } else { j - 1 };
                    assert(self.blocks@[i] == s[a] && self.blocks@[j] == s[b]);
                }
            }
            assert forall|i: int| 0 <= i < self.blocks@.len() implies (
            #[trigger] self.blocks@[i]).id.0 < self.next_block_id by {
                if i < p {
                    assert(self.blocks@[i] == s[i]);
                } else if i > p {
                    assert(self.blocks@[i] == s[i - 1]);
                }
            }
            assert forall|i: int| 0 <= i < self.blocks@.len() implies (
            (#[trigger] self.blocks@[i]).execution_count is Some
                <==> self.blocks@[i].executed_source is Some) && match self.blocks@[i].execution_count {
                Some(n) => n < self.next_execution_count,
                None => true,
            } by {
                if i < p {
                    assert(self.blocks@[i] == s[i]);
                } else if i > p {
                    assert(self.blocks@[i] == s[i - 1]);
                }
            }
        }
        let ghost u = self.blocks@;
        assert(p < self.blocks.len());
        self.mark_cascade_obsolete_from(p + 1);
        proof {
            assert forall|i: int| p < i < self.blocks@.len() implies self.blocks@[i] == cascaded(
                s[i - 1],
            ) by {
                assert(u[i] == s[i - 1]);
            }
            assert forall|i: int| 0 <= i < p implies self.blocks@[i] == s[i] by {
                assert(u[i] == s[i]);
            }
        }
        id
    }

    /// Replaces the source of `id`; `kind` is how the new source
    /// classifies (or the classifier's error). A block never itself
    /// executed shows the new classification at once; one that was keeps
    /// its old output, now obsolete. When the text changed, every
    /// executed block below is marked obsolete too. Nothing happens for
    /// an absent id.
    pub fn edit_block(&mut self, id: BlockId, new_source: String, kind: Result<BlockKind, String>)
        requires
            old(self).wf(),
        ensures
            final(self).wf(),
            final(self).next_block_id_spec() == old(self).next_block_id_spec(),
            final(self).next_execution_count_spec() == old(self).next_execution_count_spec(),
            final(self).running_spec() == old(self).running_spec(),
            !has_block(old(self).blocks_spec(), id) ==> final(self).blocks_spec() == old(self).blocks_spec(),
            forall|k: int|
                0 <= k < old(self).blocks_spec().len() && old(self).blocks_spec()[k].id == id
                    ==> {
                    let s = old(self).blocks_spec();
                    let t = final(self).blocks_spec();
                    let b = s[k];
                    let edited = Block {
                        source: new_source,
                        output: if b.execution_count is None {
                            match kind {
                                Ok(BlockKind::Declaration) => BlockOutput::Declaration(
                                    DeclarationStatus::Divergent,
                                ),
                                Ok(BlockKind::Query) => BlockOutput::NeverRun,
                                Err(e) => BlockOutput::Unrecognized(e),
                            }
                        } else {
                            b.output
                        },
                        ..b
                    };
                    &&& t.len() == s.len()
                    &&& t[k] == edited
                    &&& forall|i: int| 0 <= i < k ==> t[i] == s[i]
                    &&& forall|i: int|
                        k < i < s.len() ==> t[i] == if b.source@ != new_source@ {
                            cascaded(s[i])
                        } else {
                            s[i]
                        }
                },
    {
        let index = match self.position(id) {
            Some(i) => i,
            None => return ,
        };
        let ghost s = self.blocks@;
        let changed = !crate::text::same_text(self.blocks[index].source.as_str(), new_source.as_str());
        let ghost ns = new_source;
        if self.blocks[index].execution_count.is_none() {
            let output = match kind {
                Ok(BlockKind::Declaration) => BlockOutput::Declaration(DeclarationStatus::Divergent),
                Ok(BlockKind::Query) => BlockOutput::NeverRun,
                Err(e) => BlockOutput::Unrecognized(e),
            };
            self.blocks[index].output = output;
        }
        self.blocks[index].source = new_source;
        let ghost u = self.blocks@;
        proof {
            assert forall|i: int| 0 <= i < self.blocks@.len() && i != index implies self.blocks@[i]
                == s[i] by {}
        }
        if changed {
            assert(index < self.blocks.len());
            self.mark_cascade_obsolete_from(index + 1);
        }
        proof {
            assert forall|k: int|
                0 <= k < s.len() && s[k].id == id implies k == index by {
                if k != index {
                    assert(s[k].id != s[index as int].id);
                }
            }
        }
    }

    /// Removes `id`, returning what the session should drop: whether its
    /// in-flight execution must be cancelled, and the entries it showed.
    /// Every executed block that was below it is marked obsolete. Nothing
    /// happens for an absent id.
    pub fn delete_block(&mut self, id: BlockId) -> (r: (bool, Vec<EntryId>))
        requires
            old(self).wf(),
        ensures
            final(self).wf(),
            final(self).next_block_id_spec() == old(self).next_block_id_spec(),
            final(self).next_execution_count_spec() == old(self).next_execution_count_spec(),
            !has_block(old(self).blocks_spec(), id) ==> final(self).blocks_spec() == old(self).blocks_spec() && final(self).running_spec() == old(self).running_spec() && !r.0
                && r.1@.len() == 0,
            forall|k: int|
                0 <= k < old(self).blocks_spec().len() && old(self).blocks_spec()[k].id == id
                    ==> {
                    let s = old(self).blocks_spec();
                    let t = final(self).blocks_spec();
                    &&& t.len() == s.len() - 1
                    &&& forall|i: int| 0 <= i < k ==> t[i] == s[i]
                    &&& forall|i: int| k <= i < t.len() ==> t[i] == cascaded(s[i + 1])
                    &&& r.0 == (old(self).running_spec() == Some(id))
                    &&& final(self).running_spec() == if r.0 {
                        None
                    } else {
                        old(self).running_spec()
                    }
                    &&& r.1@ == match s[k].output {
                        BlockOutput::Query(e) => seq![e],
                        BlockOutput::Attempt { attempt, previous } => match previous {
                            Some(p) => seq![attempt, p],
                            None => seq![attempt],
                        },
                        _ => Seq::<EntryId>::empty(),
                    }
                },
    {
        let mut entries: Vec<EntryId> = Vec::new();
        let index = match self.position(id) {
            Some(i) => i,
            None => return (false, entries),
        };
        let ghost s = self.blocks@;
        let cancel = match self.running {
            Some(r) => r.0 == id.0,
            None => false,
        };
        if cancel {
            self.running = None;
        }
        match &self.blocks[index].output {
            BlockOutput::Query(e) => {
                entries.push(*e);
            },
            BlockOutput::Attempt { attempt, previous } => {
                entries.push(*attempt);
                if let Some(p) = previous {
                    entries.push(*p);
                }
            },
            _ => {},
        }
        self.blocks.remove(index);
        let ghost u = self.blocks@;
        proof {
            assert forall|i: int, j: int| 0 <= i < j < u.len() implies (#[trigger] u[i]).id != (
            #[trigger] u[j]).id by {
                let a = if i < index { i } else { i + 1 };
                let b = if j < index { j } else { j + 1 };
                assert(u[i] == s[a] && u[j] == s[b]);
            }
            assert forall|i: int| 0 <= i < u.len() implies (#[trigger] u[i]).id.0
                < self.next_block_id && ((u[i].execution_count is Some
                <==> u[i].executed_source is Some) && match u[i].execution_count {
                Some(n) => n < self.next_execution_count,
                None => true,
            }) by {
                let a = if i < index { i } else { i + 1 };
                assert(u[i] == s[a]);
            }
        }
        self.mark_cascade_obsolete_from(index);
        proof {
            assert forall|k: int| 0 <= k < s.len() && s[k].id == id implies k == index by {
                if k != index {
                    assert(s[k].id != s[index as int].id);
                }
            }
            assert forall|i: int| index <= i < self.blocks@.len() implies self.blocks@[i]
                == cascaded(s[i + 1]) by {
                assert(u[i] == s[i + 1]);
            }
            assert forall|i: int| 0 <= i < index implies self.blocks@[i] == s[i] by {
                assert(u[i] == s[i]);
            }
            if let BlockOutput::Attempt { attempt, previous } = s[index as int].output {
                if let Some(p) = previous {
                    assert(entries@ =~= seq![attempt, p]);
                } else {
                    assert(entries@ =~= seq![attempt]);
                }
            } else if let BlockOutput::Query(e) = s[index as int].output {
                assert(entries@ =~= seq![e]);
            } else {
                assert(entries@ =~= Seq::<EntryId>::empty());
            }
        }
        (cancel, entries)
    }

    /// The first half of an execution of `id`, whose current source
    /// classifies as `kind`. Refused, with nothing changed, while any
    /// execution is in flight. Otherwise the block gets the next
    /// execution number, its executed source becomes its current source
    /// and its own obsolete mark is cleared (no other block's); then an
    /// unrecognized source shows its error, a query returns what it
    /// showed before (kept visible until the new run settles) and a
    /// declaration asks for a reconstruction.
    pub fn begin_execute(&mut self, id: BlockId, kind: Result<BlockKind, String>) -> (r:
        BeginExecution)
        requires
            old(self).wf(),
            old(self).next_execution_count_spec() < u64::MAX,
        ensures
            final(self).wf(),
            final(self).next_block_id_spec() == old(self).next_block_id_spec(),
            final(self).running_spec() == old(self).running_spec(),
            !has_block(old(self).blocks_spec(), id) ==> r == BeginExecution::NotFound && *final(self) == *old(self),
            has_block(old(self).blocks_spec(), id) && old(self).running_spec() is Some ==> r
                == (BeginExecution::Blocked { by: old(self).running_spec()->0 }) && *final(self)
                == *old(self),
            forall|k: int|
                0 <= k < old(self).blocks_spec().len() && old(self).blocks_spec()[k].id == id && old(self).running_spec() is None ==> {
                    let s = old(self).blocks_spec();
                    let t = final(self).blocks_spec();
                    let b = s[k];
                    let n = old(self).next_execution_count_spec();
                    &&& final(self).next_execution_count_spec() == n + 1
                    &&& t.len() == s.len()
                    &&& forall|i: int| 0 <= i < s.len() && i != k ==> t[i] == s[i]
                    &&& t[k] == Block {
                        execution_count: Some(n),
                        executed_source: Some(b.source),
                        obsolete_by_cascade: false,
                        output: match kind {
                            Err(e) => BlockOutput::Unrecognized(e),
                            _ => b.output,
                        },
                        ..b
                    }
                    &&& r == match kind {
                        Err(_) => BeginExecution::Done,
                        Ok(BlockKind::Declaration) => BeginExecution::Reconstruct,
                        Ok(BlockKind::Query) => BeginExecution::StartQuery {
                            previous: match b.output {
                                BlockOutput::Query(e) => Some(e),
                                BlockOutput::Attempt { previous, .. } => previous,
                                _ => None,
                            },
                        },
                    }
                },
    {
        let index = match self.position(id) {
            Some(i) => i,
            None => return BeginExecution::NotFound,
        };
        if let Some(busy) = self.running {
            return BeginExecution::Blocked { by: busy };
        }
        let ghost s = self.blocks@;
        let n = self.next_execution_count;
        self.blocks[index].execution_count = Some(n);
        self.next_execution_count = n + 1;
        let source = self.blocks[index].source.clone();
        self.blocks[index].executed_source = Some(source);
        self.blocks[index].obsolete_by_cascade = false;
        let r = match kind {
            Ok(BlockKind::Query) => {
                let previous = match &self.blocks[index].output {
                    BlockOutput::Query(e) => Some(*e),
                    BlockOutput::Attempt { previous, .. } => *previous,
                    _ => None,
                };
                BeginExecution::StartQuery { previous }
            },
            Ok(BlockKind::Declaration) => BeginExecution::Reconstruct,
            Err(e) => {
                self.blocks[index].output = BlockOutput::Unrecognized(e);
                BeginExecution::Done
            },
        };
        proof {
            assert forall|k: int| 0 <= k < s.len() && s[k].id == id implies k == index by {
                if k != index {
                    assert(s[k].id != s[index as int].id);
                }
            }
            assert forall|i: int| 0 <= i < s.len() && i != index implies self.blocks@[i] == s[i] by {}
        }
        r
    }

    /// The session's answer to the query started for `id`, which showed
    /// `previous` before: a failed start replaces the output at once
    /// (`previous` is returned for the session to drop); a running one
    /// becomes the execution in flight, with `previous` kept visible.
    /// Nothing happens for an absent id.
    pub fn query_started(&mut self, id: BlockId, start: QueryStart, previous: Option<EntryId>) -> (r:
        Option<EntryId>)
        requires
            old(self).wf(),
        ensures
            final(self).wf(),
            final(self).next_block_id_spec() == old(self).next_block_id_spec(),
            final(self).next_execution_count_spec() == old(self).next_execution_count_spec(),
            !has_block(old(self).blocks_spec(), id) ==> *final(self) == *old(self) && r is None,
            forall|k: int|
                0 <= k < old(self).blocks_spec().len() && old(self).blocks_spec()[k].id == id
                    ==> {
                    let s = old(self).blocks_spec();
                    let t = final(self).blocks_spec();
                    &&& t.len() == s.len()
                    &&& forall|i: int| 0 <= i < s.len() && i != k ==> t[i] == s[i]
                    &&& match start {
                        QueryStart::Failed(e) => {
                            &&& t[k] == Block { output: BlockOutput::Query(e), ..s[k] }
                            &&& r == previous
                            &&& final(self).running_spec() == old(self).running_spec()
                        },
                        QueryStart::Running(e) => {
                            &&& t[k] == Block {
                                output: BlockOutput::Attempt { attempt: e, previous },
                                ..s[k]
                            }
                            &&& r is None
                            &&& final(self).running_spec() == Some(id)
                        },
                    }
                },
    {
        let index = match self.position(id) {
            Some(i) => i,
            None => return None,
        };
        let ghost s = self.blocks@;
        let r = match start {
            QueryStart::Failed(e) => {
                self.blocks[index].output = BlockOutput::Query(e);
                previous
            },
            QueryStart::Running(e) => {
                self.running = Some(id);
                self.blocks[index].output = BlockOutput::Attempt { attempt: e, previous };
                None
            },
        };
        proof {
            assert forall|k: int| 0 <= k < s.len() && s[k].id == id implies k == index by {
                if k != index {
                    assert(s[k].id != s[index as int].id);
                }
            }
        }
        r
    }

    /// The start of settling `id`'s finished computation: it is no
    /// longer in flight, and when it shows an attempt, that attempt and
    /// the entry kept from before are returned for the session to
    /// settle.
    pub fn finish_query(&mut self, id: BlockId) -> (r: Option<(EntryId, Option<EntryId>)>)
        requires
            old(self).wf(),
        ensures
            final(self).wf(),
            final(self).blocks_spec() == old(self).blocks_spec(),
            final(self).next_block_id_spec() == old(self).next_block_id_spec(),
            final(self).next_execution_count_spec() == old(self).next_execution_count_spec(),
            final(self).running_spec() == if old(self).running_spec() == Some(id) {
                None
            } else {
                old(self).running_spec()
            },
            !has_block(old(self).blocks_spec(), id) ==> r is None,
            forall|k: int|
                0 <= k < old(self).blocks_spec().len() && old(self).blocks_spec()[k].id == id
                    ==> r == match old(self).blocks_spec()[k].output {
                    BlockOutput::Attempt { attempt, previous } => Some((attempt, previous)),
                    _ => None,
                },
    {
        if let Some(busy) = self.running {
            if busy.0 == id.0 {
                self.running = None;
            }
        }
        let index = match self.position(id) {
            Some(i) => i,
            None => return None,
        };
        let r = match &self.blocks[index].output {
            BlockOutput::Attempt { attempt, previous } => Some((*attempt, *previous)),
            _ => None,
        };
        proof {
            let s = self.blocks@;
            assert forall|k: int| 0 <= k < s.len() && s[k].id == id implies k == index by {
                if k != index {
                    assert(s[k].id != s[index as int].id);
                }
            }
        }
        r
    }

    /// The end of settling `id`'s computation, given whether the session
    /// found it cancelled. A cancelled attempt stays shown with what it
    /// kept; a finished one settles to a plain query result and the entry
    /// kept from before is returned for the session to drop. Nothing
    /// happens unless `id` shows an attempt.
    pub fn settle_query(&mut self, id: BlockId, was_cancelled: bool) -> (r: Option<EntryId>)
        requires
            old(self).wf(),
        ensures
            final(self).wf(),
            final(self).next_block_id_spec() == old(self).next_block_id_spec(),
            final(self).next_execution_count_spec() == old(self).next_execution_count_spec(),
            final(self).running_spec() == old(self).running_spec(),
            !has_block(old(self).blocks_spec(), id) ==> final(self).blocks_spec() == old(self).blocks_spec() && r is None,
            forall|k: int|
                0 <= k < old(self).blocks_spec().len() && old(self).blocks_spec()[k].id == id
                    ==> {
                    let s = old(self).blocks_spec();
                    let t = final(self).blocks_spec();
                    &&& t.len() == s.len()
                    &&& forall|i: int| 0 <= i < s.len() && i != k ==> t[i] == s[i]
                    &&& match s[k].output {
                        BlockOutput::Attempt { attempt, previous } => if was_cancelled {
                            t[k] == s[k] && r is None
                        } else {
                            t[k] == Block { output: BlockOutput::Query(attempt), ..s[k] } && r
                                == previous
                        },
                        _ => t[k] == s[k] && r is None,
                    }
                },
    {
        let index = match self.position(id) {
            Some(i) => i,
            None => return None,
        };
        let ghost s = self.blocks@;
        let settled = match &self.blocks[index].output {
            BlockOutput::Attempt { attempt, previous } => Some((*attempt, *previous)),
            _ => None,
        };
        let r = match settled {
            Some((attempt, previous)) => {
                if was_cancelled {
                    None
                } else {
                    self.blocks[index].output = BlockOutput::Query(attempt);
                    previous
                }
            },
            None => None,
        };
        proof {
            assert forall|k: int| 0 <= k < s.len() && s[k].id == id implies k == index by {
                if k != index {
                    assert(s[k].id != s[index as int].id);
                }
            }
        }
        r
    }

    /// Whether the session should cancel an execution for `id`: exactly
    /// when `id` is the one in flight. Nothing changes here.
    pub fn cancel_block(&self, id: BlockId) -> (r: bool)
        ensures
            r == (self.running_spec() == Some(id)),
    {
        match self.running {
            Some(busy) => busy.0 == id.0,
            None => false,
        }
    }

    /// The declaration blocks, in notebook order, given whether each
    /// block's current source classifies as a declaration.
    pub fn declaration_ids(&self, is_declaration: &Vec<bool>) -> (r: Vec<BlockId>)
        requires
            is_declaration@.len() == self.blocks_spec().len(),
        ensures
            r@ == declarations(self.blocks_spec(), is_declaration@),
    {
        let mut r: Vec<BlockId> = Vec::new();
        let mut i: usize = 0;
        while i < self.blocks.len()
            invariant
                i <= self.blocks@.len(),
                is_declaration@.len() == self.blocks@.len(),
                r@ == declarations(self.blocks@.take(i as int), is_declaration@.take(i as int)),
            decreases self.blocks@.len() - i,
        {
            proof {
                assert(self.blocks@.take(i + 1).drop_last() =~= self.blocks@.take(i as int));
                assert(is_declaration@.take(i + 1).drop_last() =~= is_declaration@.take(i as int));
            }
            if is_declaration[i] {
                r.push(self.blocks[i].id);
            }
            i += 1;
        }
        proof {
            assert(self.blocks@.take(self.blocks@.len() as int) =~= self.blocks@);
            assert(is_declaration@.take(is_declaration@.len() as int) =~= is_declaration@);
        }
        r
    }

    /// Records the outcome of reconstructing the declaration blocks
    /// `decl_ids`: on success every one is confirmed; on failure the
    /// culprit (or, when none could be attributed, `just_executed`) shows
    /// the error, a declaration block swept in for the first time becomes
    /// divergent, and the others keep what they had.
    pub fn reconstructed(
        &mut self,
        decl_ids: &Vec<BlockId>,
        outcome: Result<(), (Option<BlockId>, String)>,
        just_executed: BlockId,
    )
        requires
            old(self).wf(),
        ensures
            final(self).wf(),
            final(self).next_block_id_spec() == old(self).next_block_id_spec(),
            final(self).next_execution_count_spec() == old(self).next_execution_count_spec(),
            final(self).running_spec() == old(self).running_spec(),
            final(self).blocks_spec().len() == old(self).blocks_spec().len(),
            forall|i: int|
                0 <= i < old(self).blocks_spec().len() ==> {
                    let b = old(self).blocks_spec()[i];
                    #[trigger] final(self).blocks_spec()[i] == if decl_ids@.contains(b.id) {
                        Block {
                            output: reconstructed_output(b.output, b.id, outcome, just_executed),
                            ..b
                        }
                    } else {
                        b
                    }
                },
    {
        let mut i: usize = 0;
        while i < self.blocks.len()
            invariant
                i <= self.blocks@.len(),
                self.blocks@.len() == old(self).blocks@.len(),
                self.next_block_id == old(self).next_block_id,
                self.next_execution_count == old(self).next_execution_count,
                self.running == old(self).running,
                forall|k: int| i <= k < self.blocks@.len() ==> self.blocks@[k] == old(self).blocks@[k],
                forall|k: int|
                    0 <= k < i ==> {
                        let b = old(self).blocks@[k];
                        #[trigger] self.blocks@[k] == if decl_ids@.contains(b.id) {
                            Block {
                                output: reconstructed_output(b.output, b.id, outcome, just_executed),
                                ..b
                            }
                        } else {
                            b
                        }
                    },
            decreases self.blocks@.len() - i,
        {
            let bid = self.blocks[i].id;
            if contains_id(decl_ids, bid) {
                let new_output = match &outcome {
                    Ok(()) => Some(BlockOutput::Declaration(DeclarationStatus::Confirmed)),
                    Err((culprit, msg)) => {
                        let c = match culprit {
                            Some(c) => *c,
                            None => just_executed,
                        };
                        if c.0 == bid.0 {
                            Some(BlockOutput::Declaration(DeclarationStatus::Error(msg.clone())))
                        } else {
                            match &self.blocks[i].output {
                                BlockOutput::Declaration(_) => None,
                                _ => Some(BlockOutput::Declaration(DeclarationStatus::Divergent)),
                            }
                        }
                    },
                };
                if let Some(o) = new_output {
                    self.blocks[i].output = o;
                }
            }
            i += 1;
        }
    }

    /// Resets every block to the state of freshly opening its current
    /// source: never run, never executed; the execution numbers restart
    /// at `1`. Block ids keep counting up, so a late report for an old id
    /// can never land on a new block. Returns whether an execution was in
    /// flight (for the session to cancel).
    pub fn clear_execution(&mut self) -> (r: bool)
        requires
            old(self).wf(),
            old(self).next_block_id_spec() + old(self).blocks_spec().len() <= u64::MAX,
        ensures
            final(self).wf(),
            r == (old(self).running_spec() is Some),
            (final(self).running_spec() is None),
            final(self).next_execution_count_spec() == 1,
            final(self).next_block_id_spec() == old(self).next_block_id_spec() + old(self).blocks_spec().len(),
            fresh_blocks(
                final(self).blocks_spec(),
                old(self).next_block_id_spec() as int,
                sources(old(self).blocks_spec()),
            ),
    {
        let r = self.running.is_some();
        let mut old_blocks: Vec<Block> = Vec::new();
        std::mem::swap(&mut old_blocks, &mut self.blocks);
        let ghost s = old_blocks@;
        self.running = None;
        self.next_execution_count = 1;
        let mut i: usize = 0;
        while i < old_blocks.len()
            invariant
                i <= s.len(),
                old_blocks@ == s,
                s == old(self).blocks@,
                (self.running is None),
                self.next_execution_count == 1,
                old(self).next_block_id + s.len() <= u64::MAX,
                self.next_block_id == old(self).next_block_id + i,
                self.blocks@.len() == i,
                forall|k: int|
                    0 <= k < i ==> fresh_block(
                        #[trigger] self.blocks@[k],
                        BlockId((old(self).next_block_id + k) as u64),
                        s[k].source@,
                    ),
            decreases s.len() - i,
        {
            let source = old_blocks[i].source.clone();
            let id = BlockId(self.next_block_id);
            self.next_block_id = self.next_block_id + 1;
            self.blocks.push(Block::new(id, source));
            i += 1;
        }
        proof {
            assert forall|a: int, b: int| 0 <= a < b < self.blocks@.len() implies (
            #[trigger] self.blocks@[a]).id != (#[trigger] self.blocks@[b]).id by {}
            assert forall|k: int| 0 <= k < self.blocks@.len() implies fresh_block(
                #[trigger] self.blocks@[k],
                BlockId((old(self).next_block_id + k) as u64),
                sources(s)[k],
            ) by {
                assert(sources(s)[k] == s[k].source@);
            }
        }
        r
    }
}

impl Notebook {
    /// The text the session reconstructs the model from, given whether
    /// each block's source classifies as a declaration: every declaration
    /// block's source followed by a newline, in notebook order; and the
    /// lines each of those blocks occupies in it (first and last, counting
    /// from `1`; at least one line per block).
    pub fn declaration_text(&self, is_declaration: &Vec<bool>) -> (r: (
        String,
        Vec<(BlockId, u32, u32)>,
    ))
        requires
            is_declaration@.len() == self.blocks_spec().len(),
            decl_lines(self.blocks_spec(), is_declaration@) < u32::MAX,
        ensures
            r.0@ == decl_text(self.blocks_spec(), is_declaration@),
            r.1@ == decl_ranges(self.blocks_spec(), is_declaration@),
    {
        let mut text = String::new();
        let mut ranges: Vec<(BlockId, u32, u32)> = Vec::new();
        let mut current_line: u32 = 1;
        let mut i: usize = 0;
        proof {
            lemma_decl_lines_mono(self.blocks@, is_declaration@, 0);
        }
        while i < self.blocks.len()
            invariant
                i <= self.blocks@.len(),
                is_declaration@.len() == self.blocks@.len(),
                decl_lines(self.blocks@, is_declaration@) < u32::MAX,
                text@ == decl_text(self.blocks@.take(i as int), is_declaration@.take(i as int)),
                ranges@ == decl_ranges(self.blocks@.take(i as int), is_declaration@.take(i as int)),
                current_line == 1 + decl_lines(
                    self.blocks@.take(i as int),
                    is_declaration@.take(i as int),
                ),
            decreases self.blocks@.len() - i,
        {
            let ghost bt = self.blocks@.take(i as int);
            let ghost dt = is_declaration@.take(i as int);
            proof {
                assert(self.blocks@.take(i + 1).drop_last() =~= bt);
                assert(is_declaration@.take(i + 1).drop_last() =~= dt);
                lemma_decl_lines_mono(self.blocks@, is_declaration@, i + 1);
            }
            if is_declaration[i] {
                let start = current_line;
                push_str(&mut text, self.blocks[i].source.as_str());
                push_char(&mut text, '\n');
                let cs = chars_of(self.blocks[i].source.as_str());
                let ls = split_lines(&cs);
                let lines = ls.len();
                proof {
                    assert(char_rows(ls@).len() == ls@.len());
                    assert(lines == text_lines(self.blocks@[i as int].source@).len());
                }
                let n: u32 = if lines <= 1 {
                    1
                } else {
                    lines as u32
                };
                current_line = current_line + n;
                ranges.push((self.blocks[i].id, start, current_line - 1));
                proof {
                    assert(text@ =~= decl_text(self.blocks@.take(i + 1), is_declaration@.take(i + 1)));
                }
            }
            i += 1;
        }
        proof {
            assert(self.blocks@.take(self.blocks@.len() as int) =~= self.blocks@);
            assert(is_declaration@.take(is_declaration@.len() as int) =~= is_declaration@);
        }
        (text, ranges)
    }
}

/// How many lines a block's text occupies: those `str::lines` finds, at
/// least one.
pub open spec fn line_count(s: Seq<char>) -> int {
    if text_lines(s).len() <= 1 {
        1
    } else {
        text_lines(s).len() as int
    }
}

/// The lines taken by the declaration blocks.
pub open spec fn decl_lines(s: Seq<Block>, d: Seq<bool>) -> int
    decreases s.len(),
{
    if s.len() == 0 {
        0
    } else if d.last() {
        decl_lines(s.drop_last(), d.drop_last()) + line_count(s.last().source@)
    } else {
        decl_lines(s.drop_last(), d.drop_last())
    }
}

/// The declaration blocks' sources, each followed by a newline.
pub open spec fn decl_text(s: Seq<Block>, d: Seq<bool>) -> Seq<char>
    decreases s.len(),
{
    if s.len() == 0 {
        Seq::empty()
    } else if d.last() {
        decl_text(s.drop_last(), d.drop_last()) + s.last().source@ + seq!['\n']
    } else {
        decl_text(s.drop_last(), d.drop_last())
    }
}

/// Each declaration block's first and last line in `decl_text`.
pub open spec fn decl_ranges(s: Seq<Block>, d: Seq<bool>) -> Seq<(BlockId, u32, u32)>
    decreases s.len(),
{
    if s.len() == 0 {
        Seq::empty()
    } else if d.last() {
        let before = decl_lines(s.drop_last(), d.drop_last());
        decl_ranges(s.drop_last(), d.drop_last()).push(
            (
                s.last().id,
                (before + 1) as u32,
                (before + line_count(s.last().source@)) as u32,
            ),
        )
    } else {
        decl_ranges(s.drop_last(), d.drop_last())
    }
}

/// A prefix takes no more lines than the whole.
proof fn lemma_decl_lines_mono(s: Seq<Block>, d: Seq<bool>, k: int)
    requires
        0 <= k <= s.len(),
        d.len() == s.len(),
    ensures
        0 <= decl_lines(s.take(k), d.take(k)) <= decl_lines(s, d),
    decreases s.len(),
{
    if k < s.len() {
        assert(s.drop_last().take(k) =~= s.take(k));
        assert(d.drop_last().take(k) =~= d.take(k));
        lemma_decl_lines_mono(s.drop_last(), d.drop_last(), k);
    } else {
        assert(s.take(k) =~= s);
        assert(d.take(k) =~= d);
        lemma_decl_lines_nonneg(s, d);
    }
}

proof fn lemma_decl_lines_nonneg(s: Seq<Block>, d: Seq<bool>)
    ensures
        decl_lines(s, d) >= 0,
    decreases s.len(),
{
    if s.len() > 0 {
        lemma_decl_lines_nonneg(s.drop_last(), d.drop_last());
    }
}

impl Notebook {
    /// A notebook holding one fresh block per source, in order, with ids
    /// from `0`: what opening a saved file gives.
    pub fn from_sources(srcs: Vec<String>) -> (r: Notebook)
        requires
            srcs@.len() < u64::MAX,
        ensures
            r.wf(),
            (r.running_spec() is None),
            r.next_execution_count_spec() == 1,
            r.next_block_id_spec() == srcs@.len(),
            fresh_blocks(r.blocks_spec(), 0, srcs@.map_values(|x: String| x@)),
    {
        let mut nb = Notebook::new();
        let mut i: usize = 0;
        let ghost v = srcs@.map_values(|x: String| x@);
        while i < srcs.len()
            invariant
                i <= srcs@.len(),
                srcs@.len() < u64::MAX,
                v == srcs@.map_values(|x: String| x@),
                nb.wf(),
                (nb.running is None),
                nb.next_execution_count == 1,
                nb.next_block_id == i,
                nb.blocks@.len() == i,
                forall|k: int|
                    0 <= k < i ==> fresh_block(#[trigger] nb.blocks@[k], BlockId(k as u64), v[k]),
            decreases srcs@.len() - i,
        {
            let ghost before = nb.blocks@;
            let id = BlockId(nb.next_block_id);
            nb.next_block_id = nb.next_block_id + 1;
            let source = srcs[i].clone();
            nb.blocks.push(Block::new(id, source));
            proof {
                assert forall|k: int| 0 <= k < i + 1 implies fresh_block(
                    #[trigger] nb.blocks@[k],
                    BlockId(k as u64),
                    v[k],
                ) by {
                    if k < i {
                        assert(nb.blocks@[k] == before[k]);
                    }
                }
                assert forall|a: int, b: int| 0 <= a < b < nb.blocks@.len() implies (
                #[trigger] nb.blocks@[a]).id != (#[trigger] nb.blocks@[b]).id by {}
            }
            i += 1;
        }
        nb
    }
}

/// `t` holds fresh blocks with the texts `srcs` and ids counting up from
/// `first`.
pub open spec fn fresh_blocks(t: Seq<Block>, first: int, srcs: Seq<Seq<char>>) -> bool {
    &&& t.len() == srcs.len()
    &&& forall|i: int|
        0 <= i < t.len() ==> fresh_block(#[trigger] t[i], BlockId((first + i) as u64), srcs[i])
}

/// Clearing a notebook's execution leaves it as saving it and opening the
/// file again would, block for block (only the ids differ: a cleared
/// notebook keeps counting them up), for sources the file format can
/// carry and short of a lone all-whitespace block.
pub proof fn lemma_clear_is_save_and_reopen(s: Seq<Block>, cleared: Seq<Block>, first: int, reopened: Seq<
    Block,
>)
    requires
        forall|i: int| 0 <= i < s.len() ==> storable(#[trigger] s[i].source@),
        s.len() == 1 ==> !all_white(s[0].source@),
        fresh_blocks(cleared, first, sources(s)),
        fresh_blocks(reopened, 0, parse_sources_spec(render_spec(sources(s)))),
    ensures
        cleared.len() == reopened.len(),
        forall|i: int|
            0 <= i < cleared.len() ==> (#[trigger] cleared[i]).source@ == reopened[i].source@
                && cleared[i].output == reopened[i].output && cleared[i].execution_count
                == reopened[i].execution_count && cleared[i].executed_source
                == reopened[i].executed_source && cleared[i].obsolete_by_cascade
                == reopened[i].obsolete_by_cascade,
{
    let srcs = sources(s);
    assert forall|i: int| 0 <= i < srcs.len() implies storable(#[trigger] srcs[i]) by {
        assert(srcs[i] == s[i].source@);
    }
    lemma_render_then_parse(srcs);
}

/// `b` is a freshly opened block with this id and text.
pub open spec fn fresh_block(b: Block, id: BlockId, source: Seq<char>) -> bool {
    &&& b.id == id
    &&& b.source@ == source
    &&& b.output == BlockOutput::NeverRun
    &&& b.execution_count is None
    &&& b.executed_source is None
    &&& !b.obsolete_by_cascade
}

/// The ids of the blocks marked as declarations, in order.
pub open spec fn declarations(s: Seq<Block>, is_declaration: Seq<bool>) -> Seq<BlockId>
    decreases s.len(),
{
    if s.len() == 0 {
        Seq::empty()
    } else if is_declaration.last() {
        declarations(s.drop_last(), is_declaration.drop_last()).push(s.last().id)
    } else {
        declarations(s.drop_last(), is_declaration.drop_last())
    }
}

/// What a declaration block shows after a reconstruction.
pub open spec fn reconstructed_output(
    output: BlockOutput,
    id: BlockId,
    outcome: Result<(), (Option<BlockId>, String)>,
    just_executed: BlockId,
) -> BlockOutput {
    match outcome {
        Ok(()) => BlockOutput::Declaration(DeclarationStatus::Confirmed),
        Err((culprit, msg)) => {
            let c = match culprit {
                Some(c) => c,
                None => just_executed,
            };
            if c == id {
                BlockOutput::Declaration(DeclarationStatus::Error(msg))
            } else {
                match output {
                    BlockOutput::Declaration(_) => output,
                    _ => BlockOutput::Declaration(DeclarationStatus::Divergent),
                }
            }
        },
    }
}

/// Whether `id` is among `ids`.
fn contains_id(ids: &Vec<BlockId>, id: BlockId) -> (r: bool)
    ensures
        r == ids@.contains(id),
{
    let mut i: usize = 0;
    while i < ids.len()
        invariant
            i <= ids@.len(),
            forall|k: int| 0 <= k < i ==> ids@[k] != id,
        decreases ids@.len() - i,
    {
        if ids[i].0 == id.0 {
            proof {
                assert(ids@[i as int] == id);
            }
            return true;
        }
        i += 1;
    }
    false
}

/// The texts of the growing prefixes of the declaration blocks: after
/// each declaration block, every declaration block's source up to it,
/// each followed by a newline.
pub open spec fn decl_prefixes(s: Seq<Block>, d: Seq<bool>) -> Seq<Seq<char>>
    decreases s.len(),
{
    if s.len() == 0 {
        Seq::empty()
    } else if d.last() {
        decl_prefixes(s.drop_last(), d.drop_last()).push(decl_text(s, d))
    } else {
        decl_prefixes(s.drop_last(), d.drop_last())
    }
}

/// The first of `ranges` whose lines hold line `l`.
pub open spec fn range_holding(ranges: Seq<(BlockId, u32, u32)>, l: u32) -> Option<BlockId>
    decreases ranges.len(),
{
    if ranges.len() == 0 {
        None
    } else if ranges[0].1 <= l <= ranges[0].2 {
        Some(ranges[0].0)
    } else {
        range_holding(ranges.drop_first(), l)
    }
}

/// The first of `ids` whose prefix fails to parse.
pub open spec fn first_failing(ids: Seq<BlockId>, ok: Seq<bool>) -> Option<BlockId>
    decreases ids.len(),
{
    if ids.len() == 0 || ok.len() == 0 {
        None
    } else if !ok[0] {
        Some(ids[0])
    } else {
        first_failing(ids.drop_first(), ok.drop_first())
    }
}

/// The declaration block to blame for a failed reconstruction: the one
/// whose lines hold the error's line, where the error has a line and
/// some block's lines hold it; otherwise the first whose prefix fails to
/// parse; otherwise none.
pub open spec fn blamed(
    error_line: Option<u32>,
    decl_ids: Seq<BlockId>,
    ranges: Seq<(BlockId, u32, u32)>,
    prefix_ok: Seq<bool>,
) -> Option<BlockId> {
    let by_line = match error_line {
        Some(l) => range_holding(ranges, l),
        None => None,
    };
    match by_line {
        Some(id) => Some(id),
        None => first_failing(decl_ids, prefix_ok),
    }
}

/// The declaration block to blame for a failed reconstruction (see
/// [`blamed`]). `error_line` is the line of the error in the
/// reconstructed text, where it has one; `line_ranges` are the blocks'
/// lines in that text; `prefix_ok[k]` is whether the prefix ending with
/// the `k`-th declaration block parses.
pub fn attribute_error(
    error_line: Option<u32>,
    decl_ids: &Vec<BlockId>,
    line_ranges: &Vec<(BlockId, u32, u32)>,
    prefix_ok: &Vec<bool>,
) -> (r: Option<BlockId>)
    ensures
        r == blamed(error_line, decl_ids@, line_ranges@, prefix_ok@),
{
    proof {
        assert(line_ranges@.skip(0) =~= line_ranges@);
        assert(decl_ids@.skip(0) =~= decl_ids@);
        assert(prefix_ok@.skip(0) =~= prefix_ok@);
    }
    if let Some(l) = error_line {
        let mut i: usize = 0;
        while i < line_ranges.len()
            invariant
                i <= line_ranges@.len(),
                error_line == Some(l),
                range_holding(line_ranges@, l) == range_holding(line_ranges@.skip(i as int), l),
            decreases line_ranges@.len() - i,
        {
            let (id, start, end) = line_ranges[i];
            proof {
                let rest = line_ranges@.skip(i as int);
                assert(rest[0] == line_ranges@[i as int]);
                assert(rest.drop_first() =~= line_ranges@.skip(i + 1));
            }
            if start <= l && l <= end {
                proof {
                    assert(range_holding(line_ranges@.skip(i as int), l) == Some(id));
                }
                return Some(id);
            }
            i += 1;
        }
        proof {
            assert(line_ranges@.skip(i as int).len() == 0);
        }
    }
    let mut k: usize = 0;
    while k < decl_ids.len() && k < prefix_ok.len()
        invariant
            k <= decl_ids@.len(),
            k <= prefix_ok@.len(),
            match error_line {
                Some(l) => range_holding(line_ranges@, l) is None,
                None => true,
            },
            first_failing(decl_ids@, prefix_ok@) == first_failing(
                decl_ids@.skip(k as int),
                prefix_ok@.skip(k as int),
            ),
        decreases decl_ids@.len() - k,
    {
        proof {
            let ri = decl_ids@.skip(k as int);
            let ro = prefix_ok@.skip(k as int);
            assert(ri[0] == decl_ids@[k as int] && ro[0] == prefix_ok@[k as int]);
            assert(ri.drop_first() =~= decl_ids@.skip(k + 1));
            assert(ro.drop_first() =~= prefix_ok@.skip(k + 1));
        }
        if !prefix_ok[k] {
            proof {
                assert(first_failing(decl_ids@.skip(k as int), prefix_ok@.skip(k as int)) == Some(
                    decl_ids@[k as int],
                ));
            }
            return Some(decl_ids[k]);
        }
        k += 1;
    }
    proof {
        assert(decl_ids@.skip(k as int).len() == 0 || prefix_ok@.skip(k as int).len() == 0);
    }
    None
}

impl Notebook {
    /// The texts the session parses, one after each declaration block,
    /// to find the block that breaks the model: every declaration
    /// block's source up to that one, each followed by a newline.
    pub fn declaration_prefixes(&self, is_declaration: &Vec<bool>) -> (r: Vec<String>)
        requires
            is_declaration@.len() == self.blocks_spec().len(),
        ensures
            r@.len() == decl_prefixes(self.blocks_spec(), is_declaration@).len(),
            forall|k: int|
                0 <= k < r@.len() ==> (#[trigger] r@[k])@ == decl_prefixes(
                    self.blocks_spec(),
                    is_declaration@,
                )[k],
    {
        let mut text = String::new();
        let mut out: Vec<String> = Vec::new();
        let mut i: usize = 0;
        while i < self.blocks.len()
            invariant
                i <= self.blocks@.len(),
                is_declaration@.len() == self.blocks@.len(),
                text@ == decl_text(self.blocks@.take(i as int), is_declaration@.take(i as int)),
                out@.len() == decl_prefixes(
                    self.blocks@.take(i as int),
                    is_declaration@.take(i as int),
                ).len(),
                forall|k: int|
                    0 <= k < out@.len() ==> (#[trigger] out@[k])@ == decl_prefixes(
                        self.blocks@.take(i as int),
                        is_declaration@.take(i as int),
                    )[k],
            decreases self.blocks@.len() - i,
        {
            let ghost bt = self.blocks@.take(i as int);
            let ghost dt = is_declaration@.take(i as int);
            let ghost bt1 = self.blocks@.take(i + 1);
            let ghost dt1 = is_declaration@.take(i + 1);
            proof {
                assert(bt1.drop_last() =~= bt);
                assert(dt1.drop_last() =~= dt);
                assert(bt1.last() == self.blocks@[i as int]);
                assert(dt1.last() == is_declaration@[i as int]);
            }
            if is_declaration[i] {
                push_str(&mut text, self.blocks[i].source.as_str());
                push_char(&mut text, '\n');
                let ghost before = out@;
                out.push(text.clone());
                proof {
                    assert(text@ =~= decl_text(bt1, dt1));
                    assert forall|k: int| 0 <= k < out@.len() implies (#[trigger] out@[k])@
                        == decl_prefixes(bt1, dt1)[k] by {
                        if k < before.len() {
                            assert(out@[k] == before[k]);
                        }
                    }
                }
            }
            i += 1;
        }
        proof {
            assert(self.blocks@.take(self.blocks@.len() as int) =~= self.blocks@);
            assert(is_declaration@.take(is_declaration@.len() as int) =~= is_declaration@);
        }
        out
    }
}

/// A gallery entry asked for by a name the gallery does not have.
#[derive(Debug, Clone)]
pub struct UnknownGalleryEntry {
    pub name: String,
}

/// A block just created: never executed.
pub open spec fn new_block(id: u64, source: String) -> Block {
    Block {
        id: BlockId(id),
        source,
        output: BlockOutput::NeverRun,
        execution_count: None,
        executed_source: None,
        obsolete_by_cascade: false,
    }
}

/// `t` is `s` with fresh blocks holding `srcs`, with ids from `base` on,
/// inserted in order at `p`, and, where there is any, every block after
/// them marked as after a change.
pub open spec fn inserted_run(s: Seq<Block>, t: Seq<Block>, p: int, srcs: Seq<String>, base: u64) -> bool {
    &&& t.len() == s.len() + srcs.len()
    &&& forall|i: int| 0 <= i < p ==> t[i] == s[i]
    &&& forall|k: int| 0 <= k < srcs.len() ==> t[p + k] == new_block((base + k) as u64, srcs[k])
    &&& forall|i: int|
        p <= i < s.len() ==> t[i + srcs.len()] == if srcs.len() == 0 {
            s[i]
        } else {
            cascaded(s[i])
        }
}

impl Notebook {
    /// `load NAME`: inserts the blocks of a gallery entry right after
    /// `after` (at the end when it is `None` or absent), one after the
    /// other in the entry's order, each exactly as
    /// [`Notebook::create_block_after`] inserts one; `entry` is what the
    /// gallery holds under `name`, if anything. Returns the new blocks'
    /// ids in order; for an unknown name, the error and nothing created.
    pub fn load_gallery_entry(
        &mut self,
        after: Option<BlockId>,
        name: &str,
        entry: Option<Vec<String>>,
    ) -> (r: Result<Vec<BlockId>, UnknownGalleryEntry>)
        requires
            old(self).wf(),
            match entry {
                Some(srcs) => old(self).next_block_id_spec() + srcs@.len() < u64::MAX,
                None => true,
            },
        ensures
            final(self).wf(),
            final(self).next_execution_count_spec() == old(self).next_execution_count_spec(),
            final(self).running_spec() == old(self).running_spec(),
            match entry {
                None => (r matches Err(e) && e.name@ == name@) && final(self).blocks_spec()
                    == old(self).blocks_spec() && final(self).next_block_id_spec()
                    == old(self).next_block_id_spec(),
                Some(srcs) => r matches Ok(ids) && ids@.len() == srcs@.len() && (forall|k: int|
                    0 <= k < ids@.len() ==> (#[trigger] ids@[k]).0 == old(self).next_block_id_spec()
                        + k) && final(self).next_block_id_spec() == old(self).next_block_id_spec()
                    + srcs@.len() && inserted_run(
                    old(self).blocks_spec(),
                    final(self).blocks_spec(),
                    insert_point(old(self).blocks_spec(), after),
                    srcs@,
                    old(self).next_block_id_spec(),
                ),
            },
    {
        let srcs = match entry {
            Some(srcs) => srcs,
            None => {
                return Err(UnknownGalleryEntry { name: name.to_string() });
            },
        };
        let ghost s = self.blocks@;
        let ghost base = self.next_block_id;
        let ghost p = insert_point(s, after);
        let mut cursor = after;
        let mut created: Vec<BlockId> = Vec::new();
        let mut k: usize = 0;
        proof {
            assert(inserted_run(s, self.blocks@, p, srcs@.take(0), base)) by {
                assert(srcs@.take(0).len() == 0);
                assert forall|i: int| p <= i < s.len() implies self.blocks@[i + 0] == s[i] by {}
            }
        }
        while k < srcs.len()
            invariant
                k <= srcs@.len(),
                self.wf(),
                base + srcs@.len() < u64::MAX,
                self.next_block_id == base + k,
                self.next_execution_count == old(self).next_execution_count,
                self.running == old(self).running,
                s == old(self).blocks@,
                p == insert_point(s, after),
                0 <= p <= s.len(),
                created@.len() == k,
                forall|j: int| 0 <= j < k ==> (#[trigger] created@[j]).0 == base + j,
                inserted_run(s, self.blocks@, p, srcs@.take(k as int), base),
                k == 0 ==> cursor == after,
                k > 0 ==> cursor == Some(BlockId((base + k - 1) as u64)),
            decreases srcs@.len() - k,
        {
            let ghost before = self.blocks@;
            let ghost q = insert_point(before, cursor);
            proof {
                if k == 0 {
                    assert(before =~= s) by {
                        assert forall|i: int| 0 <= i < s.len() implies before[i] == s[i] by {
                            if i >= p {
                                assert(before[i + 0] == s[i]);
                            }
                        }
                    }
                    assert(q == p);
                } else {
                    let j = p + k - 1;
                    assert(before[j] == new_block((base + (k - 1)) as u64, srcs@.take(k as int)[k - 1]));
                    assert(before[j].id == BlockId((base + k - 1) as u64));
                    assert(q == p + k) by {
                        let c = choose|i: int| 0 <= i < before.len() && before[i].id == BlockId((base + k - 1) as u64);
                        if c != j {
                            if c < j {
                                assert(before[c].id != before[j].id);
                            } else {
                                assert(before[j].id != before[c].id);
                            }
                        }
                    }
                }
            }
            let src = srcs[k].clone();
            let id = self.create_block_after(cursor, src);
            created.push(id);
            cursor = Some(id);
            proof {
                let t = self.blocks@;
                let st = srcs@.take(k + 1);
                assert(src == srcs@[k as int]);
                assert(inserted_run(s, t, p, st, base)) by {
                    assert(t.len() == s.len() + st.len());
                    assert forall|i: int| 0 <= i < p implies t[i] == s[i] by {
                        assert(t[i] == before[i]);
                    }
                    assert forall|j: int| 0 <= j < st.len() implies t[p + j] == new_block(
                        (base + j) as u64,
                        st[j],
                    ) by {
                        if j < k {
                            assert(t[p + j] == before[p + j]);
                            assert(srcs@.take(k as int)[j] == st[j]);
                        }
                    }
                    assert forall|i: int| p <= i < s.len() implies t[i + st.len()] == cascaded(s[i]) by {
                        assert(t[i + st.len()] == cascaded(before[i + st.len() - 1]));
                        if k == 0 {
                            assert(before[i + 0] == s[i]);
                        } else {
                            assert(before[i + k] == cascaded(s[i]));
                        }
                    }
                }
            }
            k += 1;
        }
        proof {
            assert(srcs@.take(srcs@.len() as int) =~= srcs@);
        }
        Ok(created)
    }
}

} // verus!
