use oderom::block::{BlockId, BlockOutput, DeclarationStatus, EntryId};
use oderom::notebook::{attribute_error, BeginExecution, BlockKind, Notebook, QueryStart};
use oderom::persist::{parse_sources, render};

const SCHWARZSCHILD_A: &str = "manifold M dim 4\nbundle TM on M dim 4";
const SCHWARZSCHILD_B: &str = "chart schw on M coords (t, r, theta, phi)";
const SCHWARZSCHILD_C: &str = "metric g on schw bundle TM {\n  [t,t] = -(1 - 2*M/r),\n  [r,r] = 1/(1 - 2*M/r),\n  [theta,theta] = r^2,\n  [phi,phi] = r^2 * sin(theta)^2\n}";

/// Stands in for the command parser's block classification.
fn classify(source: &str) -> Result<BlockKind, String> {
    let first = source.split_whitespace().next().unwrap_or("");
    match first {
        "manifold" | "bundle" | "chart" | "metric" => Ok(BlockKind::Declaration),
        "ricci" | "kretschmann" | "scalar" => Ok(BlockKind::Query),
        _ if source.contains(":=") => Ok(BlockKind::Declaration),
        _ => Err(format!("unrecognized block: {first:?}")),
    }
}

/// Runs `id` to completion, with a session that accepts every
/// reconstruction and finishes every query under the entry `entry`.
fn execute(nb: &mut Notebook, id: BlockId, entry: u64) {
    let source = nb.block(id).unwrap().source.clone();
    match nb.begin_execute(id, classify(&source)) {
        BeginExecution::StartQuery { previous } => {
            nb.query_started(id, QueryStart::Running(EntryId(entry)), previous);
            if let Some((_attempt, _previous)) = nb.finish_query(id) {
                nb.settle_query(id, false);
            }
        }
        BeginExecution::Reconstruct => {
            let kinds: Vec<bool> =
                nb.blocks().iter().map(|b| classify(&b.source) == Ok(BlockKind::Declaration)).collect();
            let ids = nb.declaration_ids(&kinds);
            nb.reconstructed(&ids, Ok(()), id);
        }
        _ => {}
    }
}

fn schwarzschild_notebook() -> (Notebook, BlockId, BlockId, BlockId) {
    let mut nb = Notebook::new();
    let a = nb.create_block_after(None, SCHWARZSCHILD_A.to_string());
    let b = nb.create_block_after(Some(a), SCHWARZSCHILD_B.to_string());
    let c = nb.create_block_after(Some(b), SCHWARZSCHILD_C.to_string());
    execute(&mut nb, c, 0);
    (nb, a, b, c)
}

fn four_directly_executed_blocks_notebook() -> (Notebook, BlockId, BlockId, BlockId, BlockId) {
    let mut nb = Notebook::new();
    let a = nb.create_block_after(None, SCHWARZSCHILD_A.to_string());
    let b = nb.create_block_after(Some(a), SCHWARZSCHILD_B.to_string());
    let c = nb.create_block_after(Some(b), SCHWARZSCHILD_C.to_string());
    let q = nb.create_block_after(Some(c), "ricci".to_string());
    execute(&mut nb, a, 0);
    execute(&mut nb, b, 0);
    execute(&mut nb, c, 0);
    execute(&mut nb, q, 7);
    (nb, a, b, c, q)
}

fn decl_status(nb: &Notebook, id: BlockId) -> DeclarationStatus {
    match &nb.block(id).unwrap().output {
        BlockOutput::Declaration(status) => status.clone(),
        other => panic!("expected a Declaration output, got {other:?}"),
    }
}

#[test]
fn a_freshly_created_block_has_no_execution_count() {
    let mut nb = Notebook::new();
    let id = nb.create_block_after(None, "manifold M dim 4".to_string());
    assert_eq!(nb.block(id).unwrap().execution_count, None);
}

#[test]
fn executing_a_declaration_block_stamps_only_itself_not_the_blocks_it_sweeps_in() {
    let (nb, a, b, c) = schwarzschild_notebook();
    assert_eq!(nb.block(c).unwrap().execution_count, Some(1));
    assert_eq!(nb.block(a).unwrap().execution_count, None);
    assert_eq!(nb.block(b).unwrap().execution_count, None);
    assert_eq!(decl_status(&nb, a), DeclarationStatus::Confirmed);
}

#[test]
fn execution_counts_increase_monotonically_in_the_order_blocks_are_run() {
    let (mut nb, a, b, _c) = schwarzschild_notebook();
    execute(&mut nb, a, 0);
    execute(&mut nb, b, 0);
    let ea = nb.block(a).unwrap().execution_count.unwrap();
    let eb = nb.block(b).unwrap().execution_count.unwrap();
    assert!(eb > ea);
}

#[test]
fn rerunning_a_block_gives_it_a_new_higher_execution_count_each_time() {
    let (mut nb, a, ..) = schwarzschild_notebook();
    execute(&mut nb, a, 0);
    let first = nb.block(a).unwrap().execution_count.unwrap();
    execute(&mut nb, a, 0);
    let second = nb.block(a).unwrap().execution_count.unwrap();
    assert!(second > first);
}

#[test]
fn editing_a_block_marks_it_and_every_executed_block_below_it_obsolete_but_runs_nothing() {
    let (mut nb, a, b, c, q) = four_directly_executed_blocks_notebook();
    assert!(!nb.block(b).unwrap().is_obsolete());
    let edited = SCHWARZSCHILD_B.replace("phi", "psi");
    let kind = classify(&edited);
    nb.edit_block(b, edited, kind);
    assert!(nb.block(b).unwrap().is_obsolete());
    assert!(nb.block(c).unwrap().is_obsolete());
    assert!(nb.block(q).unwrap().is_obsolete());
    assert!(!nb.block(a).unwrap().is_obsolete());
    assert_eq!(nb.running(), None);
    assert_eq!(decl_status(&nb, c), DeclarationStatus::Confirmed);
}

#[test]
fn reexecuting_clears_only_that_blocks_own_obsolete_mark() {
    let (mut nb, _a, b, c, q) = four_directly_executed_blocks_notebook();
    let eb = SCHWARZSCHILD_B.replace("phi", "psi");
    let ec = SCHWARZSCHILD_C.replace("phi", "psi");
    let (kb, kc) = (classify(&eb), classify(&ec));
    nb.edit_block(b, eb, kb);
    nb.edit_block(c, ec, kc);
    execute(&mut nb, b, 0);
    assert!(!nb.block(b).unwrap().is_obsolete());
    assert!(nb.block(c).unwrap().is_obsolete());
    assert!(nb.block(q).unwrap().is_obsolete());
}

#[test]
fn undoing_an_edit_back_to_the_executed_text_clears_the_mark_not_a_sticky_flag() {
    let (mut nb, .., c, _q) = four_directly_executed_blocks_notebook();
    let changed = format!("{SCHWARZSCHILD_C}\n");
    let kind = classify(&changed);
    nb.edit_block(c, changed, kind);
    assert!(nb.block(c).unwrap().is_obsolete());
    nb.edit_block(c, SCHWARZSCHILD_C.to_string(), classify(SCHWARZSCHILD_C));
    assert!(!nb.block(c).unwrap().is_obsolete());
}

#[test]
fn deleting_a_block_marks_only_the_executed_blocks_below_it_obsolete() {
    let (mut nb, a, b, c, q) = four_directly_executed_blocks_notebook();
    let (cancel, entries) = nb.delete_block(b);
    assert!(!cancel);
    assert!(entries.is_empty());
    assert!(!nb.block(a).unwrap().is_obsolete());
    assert!(nb.block(c).unwrap().is_obsolete());
    assert!(nb.block(q).unwrap().is_obsolete());
    assert!(nb.block(b).is_none());
}

#[test]
fn deleting_a_query_block_removes_its_session_entry() {
    let (mut nb, ..) = schwarzschild_notebook();
    let q = nb.create_block_after(None, "ricci".to_string());
    execute(&mut nb, q, 7);
    let (cancel, entries) = nb.delete_block(q);
    assert!(!cancel);
    assert_eq!(entries, vec![EntryId(7)]);
    assert!(nb.block(q).is_none());
}

#[test]
fn a_never_directly_executed_block_can_never_be_obsolete() {
    let mut nb = Notebook::new();
    let id = nb.create_block_after(None, "manifold M dim 4".to_string());
    nb.edit_block(id, "manifold M dim 5".to_string(), Ok(BlockKind::Declaration));
    assert!(!nb.block(id).unwrap().is_obsolete());
    assert_eq!(nb.block(id).unwrap().execution_count, None);
    assert_eq!(decl_status(&nb, id), DeclarationStatus::Divergent);
}

#[test]
fn begin_execute_is_blocked_while_the_same_block_is_already_running() {
    let mut nb = Notebook::new();
    let a = nb.create_block_after(None, SCHWARZSCHILD_A.to_string());
    execute(&mut nb, a, 0);
    let q = nb.create_block_after(Some(a), "kretschmann".to_string());
    let BeginExecution::StartQuery { previous } = nb.begin_execute(q, Ok(BlockKind::Query)) else {
        panic!("expected a query start")
    };
    assert_eq!(nb.query_started(q, QueryStart::Running(EntryId(3)), previous), None);
    let count_after_first_start = nb.block(q).unwrap().execution_count;
    let second = nb.begin_execute(q, Ok(BlockKind::Query));
    assert!(matches!(second, BeginExecution::Blocked { by } if by == q));
    assert_eq!(nb.block(q).unwrap().execution_count, count_after_first_start);
    assert!(nb.cancel_block(q));
    assert_eq!(nb.finish_query(q), Some((EntryId(3), None)));
    assert_eq!(nb.settle_query(q, true), None);
    assert!(matches!(nb.block(q).unwrap().output, BlockOutput::Attempt { attempt: EntryId(3), previous: None }));
    assert_eq!(nb.running(), None);
}

#[test]
fn cancel_block_on_a_block_that_isnt_running_is_a_no_op() {
    let mut nb = Notebook::new();
    let a = nb.create_block_after(None, "manifold M dim 4".to_string());
    execute(&mut nb, a, 0);
    assert!(!nb.cancel_block(a));
    assert!(matches!(nb.block(a).unwrap().output, BlockOutput::Declaration(DeclarationStatus::Confirmed)));
}

#[test]
fn clear_execution_resets_every_blocks_execution_state_but_never_its_source() {
    let (mut nb, a, b, c, q) = four_directly_executed_blocks_notebook();
    let edited_b = SCHWARZSCHILD_B.replace("phi", "psi");
    let kind = classify(&edited_b);
    nb.edit_block(b, edited_b.clone(), kind);
    assert!(nb.block(c).unwrap().is_obsolete());
    let sources_before: Vec<String> = [a, b, c, q].iter().map(|id| nb.block(*id).unwrap().source.clone()).collect();
    nb.clear_execution();
    let blocks_after = nb.blocks();
    assert_eq!(blocks_after.len(), 4);
    let sources_after: Vec<&str> = blocks_after.iter().map(|b| b.source.as_str()).collect();
    let expected: Vec<&str> = vec![SCHWARZSCHILD_A, &edited_b, SCHWARZSCHILD_C, "ricci"];
    assert_eq!(sources_after, expected);
    assert_eq!(sources_after, sources_before);
    for block in blocks_after {
        assert_eq!(block.execution_count, None);
        assert!(!block.is_obsolete());
        assert!(matches!(block.output, BlockOutput::NeverRun));
    }
}

#[test]
fn clear_execution_resets_the_execution_counter_so_the_next_run_is_1() {
    let (mut nb, a, b, ..) = four_directly_executed_blocks_notebook();
    assert!(nb.block(a).unwrap().execution_count.unwrap() >= 1);
    assert!(nb.block(b).unwrap().execution_count.unwrap() > nb.block(a).unwrap().execution_count.unwrap());
    nb.clear_execution();
    let first_id = nb.blocks()[0].id;
    execute(&mut nb, first_id, 0);
    assert_eq!(nb.block(first_id).unwrap().execution_count, Some(1));
}

#[test]
fn clear_execution_produces_state_identical_to_a_save_then_load_round_trip() {
    let (mut original, ..) = four_directly_executed_blocks_notebook();
    let sources: Vec<String> = original.blocks().iter().map(|b| b.source.clone()).collect();
    let text = render(original.blocks()).unwrap();
    let loaded = Notebook::from_sources(parse_sources(&text));
    original.clear_execution();
    let cleared_sources: Vec<&str> = original.blocks().iter().map(|b| b.source.as_str()).collect();
    let loaded_sources: Vec<&str> = loaded.blocks().iter().map(|b| b.source.as_str()).collect();
    assert_eq!(cleared_sources, loaded_sources);
    assert_eq!(cleared_sources, sources.iter().map(String::as_str).collect::<Vec<_>>());
    for (cleared, loaded) in original.blocks().iter().zip(loaded.blocks().iter()) {
        assert_eq!(cleared.execution_count, loaded.execution_count);
        assert!(matches!(cleared.output, BlockOutput::NeverRun));
        assert!(matches!(loaded.output, BlockOutput::NeverRun));
        assert_eq!(cleared.is_obsolete(), loaded.is_obsolete());
    }
}

#[test]
fn clear_execution_never_executes_anything_by_itself() {
    let mut nb = Notebook::new();
    nb.create_block_after(None, "manifold M dim 4".to_string());
    nb.create_block_after(None, "ricci".to_string());
    assert!(!nb.clear_execution());
    for block in nb.blocks() {
        assert!(matches!(block.output, BlockOutput::NeverRun));
    }
}

#[test]
fn a_failed_reconstruction_marks_the_culprit_and_sweeps_new_blocks_to_divergent() {
    let mut nb = Notebook::new();
    let a = nb.create_block_after(None, SCHWARZSCHILD_A.to_string());
    let b = nb.create_block_after(Some(a), SCHWARZSCHILD_B.to_string());
    let c = nb.create_block_after(Some(b), SCHWARZSCHILD_C.to_string());
    assert!(matches!(nb.begin_execute(c, Ok(BlockKind::Declaration)), BeginExecution::Reconstruct));
    let ids = nb.declaration_ids(&vec![true, true, true]);
    assert_eq!(ids, vec![a, b, c]);
    nb.reconstructed(&ids, Err((Some(b), "bad chart".to_string())), c);
    assert_eq!(decl_status(&nb, b), DeclarationStatus::Error("bad chart".to_string()));
    assert_eq!(decl_status(&nb, a), DeclarationStatus::Divergent);
    assert_eq!(decl_status(&nb, c), DeclarationStatus::Divergent);
}

#[test]
fn the_declaration_text_tracks_each_blocks_lines() {
    let mut nb = Notebook::new();
    let a = nb.create_block_after(None, SCHWARZSCHILD_A.to_string());
    let q = nb.create_block_after(Some(a), "ricci".to_string());
    let b = nb.create_block_after(Some(q), SCHWARZSCHILD_B.to_string());
    let empty = nb.create_block_after(Some(b), String::new());
    let (text, ranges) = nb.declaration_text(&vec![true, false, true, true]);
    assert_eq!(text, format!("{SCHWARZSCHILD_A}\n{SCHWARZSCHILD_B}\n\n"));
    assert_eq!(ranges, vec![(a, 1, 2), (b, 3, 3), (empty, 4, 4)]);
}

/// Starts the query `id` in a session that hands it off under `entry`.
fn start(nb: &mut Notebook, id: BlockId, entry: u64) -> BeginExecution {
    let source = nb.block(id).unwrap().source.clone();
    let r = nb.begin_execute(id, classify(&source));
    if let BeginExecution::StartQuery { previous } = r {
        assert_eq!(nb.query_started(id, QueryStart::Running(EntryId(entry)), previous), None);
    }
    r
}

/// Settles the query `id`, as the session found it; returns the entry
/// to drop.
fn finish(nb: &mut Notebook, id: BlockId, cancelled: bool) -> Option<EntryId> {
    match nb.finish_query(id) {
        Some(_) => nb.settle_query(id, cancelled),
        None => None,
    }
}

#[test]
fn a_block_with_no_recognized_leading_keyword_is_unrecognized_not_silently_guessed() {
    let mut nb = Notebook::new();
    let id = nb.create_block_after(None, "bogus nonsense".to_string());
    execute(&mut nb, id, 0);
    assert!(matches!(nb.block(id).unwrap().output, BlockOutput::Unrecognized(_)));
}

#[test]
fn editing_a_directly_executed_query_block_keeps_the_old_result_visible_but_obsolete() {
    let (mut nb, ..) = schwarzschild_notebook();
    let q = nb.create_block_after(None, "ricci".to_string());
    execute(&mut nb, q, 5);
    assert!(matches!(nb.block(q).unwrap().output, BlockOutput::Query(EntryId(5))));
    assert!(!nb.block(q).unwrap().is_obsolete());
    nb.edit_block(q, "scalar".to_string(), Ok(BlockKind::Query));
    assert!(matches!(nb.block(q).unwrap().output, BlockOutput::Query(EntryId(5))));
    assert!(nb.block(q).unwrap().is_obsolete());
}

#[test]
fn begin_execute_on_a_query_block_shows_running_immediately_and_settles_on_finish() {
    let mut nb = Notebook::new();
    let a = nb.create_block_after(None, SCHWARZSCHILD_A.to_string());
    execute(&mut nb, a, 0);
    let q = nb.create_block_after(Some(a), "kretschmann".to_string());
    assert!(matches!(start(&mut nb, q, 1), BeginExecution::StartQuery { previous: None }));
    assert!(matches!(nb.block(q).unwrap().output, BlockOutput::Attempt { attempt: EntryId(1), previous: None }));
    assert_eq!(finish(&mut nb, q, false), None);
    assert!(matches!(nb.block(q).unwrap().output, BlockOutput::Query(EntryId(1))));
}

#[test]
fn cancelling_a_first_ever_execution_leaves_the_block_cancelled_with_no_previous_result() {
    let mut nb = Notebook::new();
    let a = nb.create_block_after(None, SCHWARZSCHILD_A.to_string());
    execute(&mut nb, a, 0);
    let q = nb.create_block_after(Some(a), "kretschmann".to_string());
    start(&mut nb, q, 1);
    assert!(nb.cancel_block(q));
    assert_eq!(finish(&mut nb, q, true), None);
    assert!(matches!(nb.block(q).unwrap().output, BlockOutput::Attempt { attempt: EntryId(1), previous: None }));
}

fn notebook_with_a_cancelled_reexecution() -> (Notebook, BlockId, BlockId, EntryId) {
    let mut nb = Notebook::new();
    let a = nb.create_block_after(None, SCHWARZSCHILD_A.to_string());
    execute(&mut nb, a, 0);
    let q = nb.create_block_after(Some(a), "kretschmann".to_string());
    execute(&mut nb, q, 1);
    let first_id = EntryId(1);
    nb.edit_block(a, SCHWARZSCHILD_B.to_string(), Ok(BlockKind::Declaration));
    execute(&mut nb, a, 0);
    start(&mut nb, q, 2);
    assert!(nb.cancel_block(q));
    assert_eq!(finish(&mut nb, q, true), None);
    (nb, a, q, first_id)
}

#[test]
fn cancelling_a_reexecution_keeps_the_previous_result_visible_and_marks_it_obsolete() {
    let (nb, _a, q, first_id) = notebook_with_a_cancelled_reexecution();
    let BlockOutput::Attempt { attempt, previous } = nb.block(q).unwrap().output.clone() else {
        panic!("expected Attempt")
    };
    assert_eq!(previous, Some(first_id));
    assert_eq!(attempt, EntryId(2));
}

#[test]
fn reexecuting_a_cancelled_block_completes_normally_and_clears_the_cancelled_state() {
    let (mut nb, a, q, first_id) = notebook_with_a_cancelled_reexecution();
    nb.edit_block(a, SCHWARZSCHILD_A.to_string(), Ok(BlockKind::Declaration));
    execute(&mut nb, a, 0);
    assert!(matches!(start(&mut nb, q, 3), BeginExecution::StartQuery { previous: Some(p) } if p == first_id));
    assert_eq!(finish(&mut nb, q, false), Some(first_id));
    assert!(matches!(nb.block(q).unwrap().output, BlockOutput::Query(EntryId(3))));
    assert!(!nb.block(q).unwrap().is_obsolete());
}

#[test]
fn cancelling_a_block_does_not_trigger_execution_of_any_other_block() {
    let mut nb = Notebook::new();
    let a = nb.create_block_after(None, SCHWARZSCHILD_A.to_string());
    execute(&mut nb, a, 0);
    let other = nb.create_block_after(Some(a), "scalar".to_string());
    let q = nb.create_block_after(Some(other), "kretschmann".to_string());
    start(&mut nb, q, 1);
    assert!(nb.cancel_block(q));
    finish(&mut nb, q, true);
    assert_eq!(nb.block(other).unwrap().execution_count, None);
    assert!(matches!(nb.block(other).unwrap().output, BlockOutput::NeverRun));
}

#[test]
fn a_different_block_is_blocked_while_one_execution_is_in_flight_and_is_left_completely_untouched() {
    let mut nb = Notebook::new();
    let a = nb.create_block_after(None, SCHWARZSCHILD_A.to_string());
    execute(&mut nb, a, 0);
    let q1 = nb.create_block_after(Some(a), "kretschmann".to_string());
    let q2 = nb.create_block_after(Some(q1), "ricci".to_string());
    start(&mut nb, q1, 1);
    let refused = nb.begin_execute(q2, Ok(BlockKind::Query));
    assert!(matches!(refused, BeginExecution::Blocked { by } if by == q1));
    assert_eq!(nb.block(q2).unwrap().execution_count, None);
    assert!(matches!(nb.block(q2).unwrap().output, BlockOutput::NeverRun));
    finish(&mut nb, q1, true);
}

#[test]
fn a_declaration_block_is_also_blocked_while_a_query_is_running_elsewhere() {
    let mut nb = Notebook::new();
    let a = nb.create_block_after(None, SCHWARZSCHILD_A.to_string());
    execute(&mut nb, a, 0);
    let q = nb.create_block_after(Some(a), "kretschmann".to_string());
    let other_decl = nb.create_block_after(None, "manifold Other dim 2".to_string());
    start(&mut nb, q, 1);
    let refused = nb.begin_execute(other_decl, Ok(BlockKind::Declaration));
    assert!(matches!(refused, BeginExecution::Blocked { by } if by == q));
    assert_eq!(nb.block(other_decl).unwrap().execution_count, None);
    assert!(matches!(nb.block(other_decl).unwrap().output, BlockOutput::NeverRun));
    finish(&mut nb, q, true);
}

#[test]
fn cancelling_the_running_block_unblocks_a_previously_refused_block() {
    let mut nb = Notebook::new();
    let a = nb.create_block_after(None, SCHWARZSCHILD_A.to_string());
    execute(&mut nb, a, 0);
    let q1 = nb.create_block_after(Some(a), "kretschmann".to_string());
    let q2 = nb.create_block_after(Some(q1), "ricci".to_string());
    start(&mut nb, q1, 1);
    assert!(matches!(nb.begin_execute(q2, Ok(BlockKind::Query)), BeginExecution::Blocked { .. }));
    assert!(nb.cancel_block(q1));
    finish(&mut nb, q1, true);
    assert!(matches!(start(&mut nb, q2, 2), BeginExecution::StartQuery { .. }));
}

#[test]
fn the_running_block_finishing_naturally_also_unblocks_a_previously_refused_block() {
    let mut nb = Notebook::new();
    let a = nb.create_block_after(None, SCHWARZSCHILD_A.to_string());
    execute(&mut nb, a, 0);
    let q1 = nb.create_block_after(Some(a), "kretschmann".to_string());
    let q2 = nb.create_block_after(Some(q1), "ricci".to_string());
    start(&mut nb, q1, 1);
    assert!(matches!(nb.begin_execute(q2, Ok(BlockKind::Query)), BeginExecution::Blocked { .. }));
    finish(&mut nb, q1, false);
    assert!(matches!(nb.block(q1).unwrap().output, BlockOutput::Query(_)));
    assert!(matches!(start(&mut nb, q2, 2), BeginExecution::StartQuery { .. }));
    finish(&mut nb, q2, false);
}

#[test]
fn editing_and_focus_related_operations_are_never_blocked_while_something_runs() {
    let mut nb = Notebook::new();
    let a = nb.create_block_after(None, SCHWARZSCHILD_A.to_string());
    execute(&mut nb, a, 0);
    let q1 = nb.create_block_after(Some(a), "kretschmann".to_string());
    let other = nb.create_block_after(Some(q1), "manifold Other dim 2".to_string());
    start(&mut nb, q1, 1);
    nb.edit_block(other, "manifold Other dim 3".to_string(), Ok(BlockKind::Declaration));
    assert_eq!(nb.block(other).unwrap().source, "manifold Other dim 3");
    nb.edit_block(q1, "kretschmann".to_string(), Ok(BlockKind::Query));
    assert_eq!(nb.block(q1).unwrap().source, "kretschmann");
    assert_eq!(nb.running(), Some(q1));
    finish(&mut nb, q1, true);
}

#[test]
fn deleting_a_block_with_an_in_flight_execution_cancels_it_and_removes_its_entries() {
    let mut nb = Notebook::new();
    let a = nb.create_block_after(None, SCHWARZSCHILD_A.to_string());
    execute(&mut nb, a, 0);
    let q = nb.create_block_after(Some(a), "kretschmann".to_string());
    start(&mut nb, q, 1);
    let (cancel, entries) = nb.delete_block(q);
    assert!(cancel);
    assert_eq!(entries, vec![EntryId(1)]);
    assert!(nb.block(q).is_none());
    assert_eq!(nb.running(), None);
}

#[test]
fn a_parse_error_is_blamed_on_the_block_holding_its_line() {
    let ranges = vec![(BlockId(0), 1, 2), (BlockId(2), 3, 3), (BlockId(5), 4, 8)];
    let ids = vec![BlockId(0), BlockId(2), BlockId(5)];
    assert_eq!(attribute_error(Some(3), &ids, &ranges, &vec![true, true, true]), Some(BlockId(2)));
    assert_eq!(attribute_error(Some(6), &ids, &ranges, &vec![false, true, true]), Some(BlockId(5)));
}

#[test]
fn without_a_line_the_first_prefix_that_fails_to_parse_is_blamed() {
    let ranges = vec![(BlockId(0), 1, 2), (BlockId(2), 3, 3), (BlockId(5), 4, 8)];
    let ids = vec![BlockId(0), BlockId(2), BlockId(5)];
    // A duplicate name declared by the third block: the first two
    // prefixes parse, the third does not.
    assert_eq!(attribute_error(None, &ids, &ranges, &vec![true, true, false]), Some(BlockId(5)));
    // A line outside every block falls back to the prefixes too.
    assert_eq!(attribute_error(Some(40), &ids, &ranges, &vec![true, false, false]), Some(BlockId(2)));
    assert_eq!(attribute_error(None, &ids, &ranges, &vec![true, true, true]), None);
}

#[test]
fn the_declaration_prefixes_grow_one_declaration_block_at_a_time() {
    let mut nb = Notebook::new();
    let a = nb.create_block_after(None, SCHWARZSCHILD_A.to_string());
    let q = nb.create_block_after(Some(a), "ricci".to_string());
    let _b = nb.create_block_after(Some(q), SCHWARZSCHILD_B.to_string());
    let prefixes = nb.declaration_prefixes(&vec![true, false, true]);
    assert_eq!(
        prefixes,
        vec![format!("{SCHWARZSCHILD_A}\n"), format!("{SCHWARZSCHILD_A}\n{SCHWARZSCHILD_B}\n")]
    );
}

#[test]
fn loading_a_gallery_entry_inserts_its_blocks_in_order_after_the_cursor() {
    let (mut nb, a, b, c, q) = four_directly_executed_blocks_notebook();
    let entry = vec!["manifold N dim 2".to_string(), "chart k on N coords (u, v)".to_string()];
    let created = nb.load_gallery_entry(Some(a), "plane", Some(entry)).unwrap();
    assert_eq!(created.len(), 2);
    let order: Vec<BlockId> = nb.blocks().iter().map(|blk| blk.id).collect();
    assert_eq!(order, vec![a, created[0], created[1], b, c, q]);
    assert_eq!(nb.block(created[0]).unwrap().source, "manifold N dim 2");
    assert!(matches!(nb.block(created[1]).unwrap().output, BlockOutput::NeverRun));
    assert!(!nb.block(a).unwrap().is_obsolete());
    assert!(nb.block(b).unwrap().is_obsolete());
    assert!(nb.block(q).unwrap().is_obsolete());
}

#[test]
fn loading_an_unknown_gallery_entry_creates_nothing() {
    let (mut nb, _a, _b, _c, _q) = four_directly_executed_blocks_notebook();
    let before: Vec<BlockId> = nb.blocks().iter().map(|blk| blk.id).collect();
    let err = nb.load_gallery_entry(None, "nope", None).unwrap_err();
    assert_eq!(err.name, "nope");
    let after: Vec<BlockId> = nb.blocks().iter().map(|blk| blk.id).collect();
    assert_eq!(before, after);
}
