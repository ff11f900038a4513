//! Compaction: tables, volumes, rows and files.

use rustc_hash::{FxHashMap, FxHashSet};
use stoolap_mvcc::batch_merge::{merge_batch, merged_rows};
use stoolap_mvcc::compaction::{
    applied_tombstones, chunk_ranges, effective_threshold, fate_of_file, needs_compaction,
    output_ranges, plan_volumes, request_is_done, rows_of_batch, volumes_to_rewrite, FileFate,
    ReclusterScan, SegmentSummary, TableVolumes,
};
use stoolap_mvcc::compaction_plan::{plan_compaction, ReclusterChoice};
use stoolap_mvcc::compaction_run::{
    tombstones_after_rewrite, RewriteEvent, RewriteOutcome, RewritePhase, RewriteRun,
};
use stoolap_mvcc::key_order::{key_order, order_by_key, order_rows_by_key, KeyOrder};
use stoolap_mvcc::live_rows::{is_tombstoned, live_rows};
use stoolap_mvcc::seal::HotRow;

fn tombstones(entries: &[(i64, u64)]) -> FxHashMap<i64, u64> {
    entries.iter().copied().collect()
}

#[test]
fn a_table_needs_compaction_for_each_of_its_reasons() {
    let quiet = TableVolumes {
        sub_target: 0,
        volumes: 3,
        largest: 150,
        has_tombstones: false,
        recluster_pending: false,
    };
    assert!(!needs_compaction(&quiet, 4, 100));
    assert!(needs_compaction(&TableVolumes { sub_target: 5, ..quiet }, 4, 100));
    assert!(!needs_compaction(&TableVolumes { sub_target: 4, ..quiet }, 4, 100));
    assert!(needs_compaction(&TableVolumes { sub_target: 2, has_tombstones: true, ..quiet }, 4, 100));
    assert!(!needs_compaction(&TableVolumes { sub_target: 1, has_tombstones: true, ..quiet }, 4, 100));
    assert!(needs_compaction(&TableVolumes { has_tombstones: true, ..quiet }, 4, 100));
    assert!(needs_compaction(&TableVolumes { largest: 151, ..quiet }, 4, 100));
    assert!(needs_compaction(&TableVolumes { recluster_pending: true, ..quiet }, 4, 100));
    assert_eq!(effective_threshold(0), 2);
    assert_eq!(effective_threshold(7), 7);
}

#[test]
fn a_plan_says_why_a_volume_is_rewritten() {
    let segment = |segment_id, row_count, seal_seq| SegmentSummary { segment_id, row_count, seal_seq };
    let segments = [
        segment(1, 10, 0),
        segment(2, 100, 0),
        segment(3, 100, 0),
        segment(4, 151, 0),
        segment(5, 10, 21),
        segment(6, 10, 20),
    ];
    let ids: Vec<&[i64]> = vec![&[1], &[2], &[3], &[4], &[5], &[6]];
    let ts = tombstones(&[(3, 19), (2, 20)]);
    let plan = plan_volumes(&segments, &ids, &ts, Some(20), 100);
    assert_eq!(
        plan.planned,
        vec![
            (1, 10, true, false),
            (2, 100, false, false),
            (3, 100, true, false),
            (4, 151, true, false),
            (5, 10, false, true),
            (6, 10, true, false),
        ]
    );
    assert_eq!(plan.size_only, vec![true, false, false, false, false, true]);
    assert!(plan.deferred);
}

#[test]
fn a_recluster_looks_into_so_many_volumes() {
    let mut scan = ReclusterScan::new(2, false);
    // Known to be in order, then out of order
    assert!(!scan.wants_order(false, Some(true)));
    scan.visit(false, Some(true), false);
    scan.visit(false, Some(false), false);
    // Two are looked into, the third is not
    for answer in [true, false] {
        assert!(scan.wants_order(false, None));
        scan.visit(false, None, answer);
    }
    assert!(!scan.wants_order(false, None));
    scan.visit(false, None, false);
    let (selected, all_checked) = scan.finish();
    assert_eq!(selected, vec![1, 3]);
    assert!(!all_checked);
    assert!(request_is_done(true, false, false, false));
    assert!(request_is_done(false, true, false, false));
    assert!(!request_is_done(false, true, false, true));
}

#[test]
fn a_lone_small_volume_waits() {
    let planned = [(1, 5, true, false), (2, 100, false, false)];
    assert!(volumes_to_rewrite(&planned, &[true, false], false).is_empty());
    assert_eq!(volumes_to_rewrite(&planned, &[true, false], true), vec![0]);
    assert_eq!(volumes_to_rewrite(&planned, &[false, false], false), vec![0]);
}

#[test]
fn rows_come_from_the_newest_volume() {
    let volumes: Vec<&[i64]> = vec![&[5, 2], &[1, 2, 3]];
    let ts = tombstones(&[(3, 10), (1, 30)]);
    assert_eq!(merged_rows(&volumes, &ts, Some(20)), vec![(1, 1, 0), (2, 0, 1), (5, 0, 0)]);
    assert_eq!(merged_rows(&volumes, &ts, None), vec![(2, 0, 1), (5, 0, 0)]);
    let covered: FxHashSet<i64> = [5].into_iter().collect();
    assert_eq!(live_rows(&volumes, &covered, &ts, None), vec![(2, 0, 1)]);
    assert!(is_tombstoned(&ts, Some(11), 3));
    assert!(!is_tombstoned(&ts, Some(10), 3));
    assert!(!is_tombstoned(&ts, None, 2));
}

#[test]
fn the_last_volume_of_the_manifest_takes_precedence() {
    let volumes: Vec<&[i64]> = vec![&[1, 2, 3], &[2], &[2, 3, 4], &[3]];
    let ts = tombstones(&[(4, 10)]);
    // The second and the last stay out of the batch
    assert_eq!(
        merge_batch(&[0, 2], &volumes, &ts, None),
        vec![(1, 0, 0), (2, 2, 0), (3, 2, 1)]
    );
    assert_eq!(
        merge_batch(&[0, 1, 2, 3], &volumes, &ts, Some(10)),
        vec![(1, 0, 0), (2, 2, 0), (3, 3, 0), (4, 2, 2)]
    );
    assert!(merge_batch(&[], &volumes, &ts, None).is_empty());
}

#[test]
fn only_applied_tombstones_are_cleared() {
    let ts = tombstones(&[(1, 5), (2, 50), (3, 5), (9, 5)]);
    let applied = applied_tombstones(&ts, Some(10));
    assert_eq!(applied, tombstones(&[(1, 5), (3, 5), (9, 5)]));
    let rows = rows_of_batch(&[&[1, 2], &[3]]);
    assert_eq!(rows, [1, 2, 3].into_iter().collect::<FxHashSet<i64>>());
    // Meanwhile row 3 was deleted once more
    let now = tombstones(&[(1, 5), (2, 50), (3, 60), (9, 5)]);
    assert_eq!(
        tombstones_after_rewrite(&now, &applied, &rows),
        tombstones(&[(2, 50), (3, 60), (9, 5)])
    );
}

#[test]
fn outputs_are_runs_of_the_chunk_size() {
    assert_eq!(output_ranges(0, 100), vec![]);
    assert_eq!(output_ranges(65_536, 100), vec![(0, 65_536)]);
    assert_eq!(output_ranges(65_537, 100), vec![(0, 65_536), (65_536, 65_537)]);
    assert_eq!(chunk_ranges(5, 2), vec![(0, 2), (2, 4), (4, 5)]);
}

#[test]
fn old_files_go_with_their_volumes() {
    let name = "vol_0000000000000007.vol";
    assert_eq!(fate_of_file(name, "vol", &[7], true), FileFate::Retire);
    assert_eq!(fate_of_file(name, "vol", &[8], true), FileFate::Keep);
    assert_eq!(fate_of_file("x.dv", "dv", &[7], true), FileFate::Remove);
    assert_eq!(fate_of_file("x.dv", "dv", &[7], false), FileFate::Keep);
}

#[test]
fn a_rewrite_removes_old_files_last() {
    let mut run = RewriteRun::new(2);
    let mut phases = vec![run.phase];
    for event in [
        RewriteEvent::Done,
        RewriteEvent::Done,
        RewriteEvent::Done,
        RewriteEvent::Moved,
        RewriteEvent::Done,
        RewriteEvent::Done,
        RewriteEvent::Done,
        RewriteEvent::Done,
    ] {
        run.step(event);
        phases.push(run.phase);
    }
    assert_eq!(
        phases,
        vec![
            RewritePhase::Writing { output: 0 },
            RewritePhase::Writing { output: 1 },
            RewritePhase::Collecting,
            RewritePhase::Publishing,
            RewritePhase::Publishing,
            RewritePhase::Clearing,
            RewritePhase::Persisting,
            RewritePhase::Removing,
            RewritePhase::Finished { outcome: RewriteOutcome::Replaced },
        ]
    );
}

#[test]
fn a_failed_rewrite_removes_what_it_wrote() {
    let mut run = RewriteRun::new(3);
    run.step(RewriteEvent::Done);
    run.step(RewriteEvent::Failed);
    assert_eq!(run.phase, RewritePhase::Discarding { written: 1 });
    run.step(RewriteEvent::Done);
    assert_eq!(run.phase, RewritePhase::Finished { outcome: RewriteOutcome::Failed });
    let mut kept = RewriteRun::new(0);
    assert_eq!(kept.phase, RewritePhase::Collecting);
    for event in [RewriteEvent::Done, RewriteEvent::Done, RewriteEvent::Done, RewriteEvent::Failed] {
        kept.step(event);
    }
    assert_eq!(kept.phase, RewritePhase::Finished { outcome: RewriteOutcome::FilesKept });
}

fn plan_of(rows: &[usize], ids: &[&[i64]], choice: Option<ReclusterChoice>) -> (Vec<usize>, bool) {
    let segments: Vec<SegmentSummary> = rows
        .iter()
        .enumerate()
        .map(|(i, row_count)| SegmentSummary { segment_id: i as u64 + 1, row_count: *row_count, seal_seq: 0 })
        .collect();
    let plan = plan_volumes(&segments, ids, &FxHashMap::default(), None, 1_048_576);
    let r = plan_compaction(plan, choice, ids, 4, 1_048_576);
    (r.volumes, r.request_done)
}

#[test]
fn small_volumes_are_merged_and_a_lone_one_waits() {
    let ids: Vec<&[i64]> = vec![&[1], &[2], &[3]];
    assert_eq!(plan_of(&[600_000, 1_048_576, 200_000], &ids, None), (vec![0, 2], false));
    assert_eq!(plan_of(&[600_000, 1_048_576, 1_048_576], &ids, None), (vec![], false));
    assert_eq!(plan_of(&[1_600_000, 1_048_576, 1_048_576], &ids, None), (vec![0], false));
    // The middle volume shares a row with a member
    let ids: Vec<&[i64]> = vec![&[1], &[1, 2], &[3]];
    assert_eq!(plan_of(&[1_600_000, 1_048_576, 1_600_000], &ids, None), (vec![0, 1, 2], false));
}

#[test]
fn a_request_to_cluster_is_done_once_nothing_is_left() {
    let ids: Vec<&[i64]> = vec![&[1], &[2]];
    let rows = [1_048_576, 1_048_576];
    let choice = |key_is_empty, selected, all_checked| Some(ReclusterChoice { key_is_empty, selected, all_checked });
    assert_eq!(plan_of(&rows, &ids, choice(false, vec![1], true)), (vec![1], false));
    assert_eq!(plan_of(&rows, &ids, choice(false, vec![], true)), (vec![], true));
    assert_eq!(plan_of(&rows, &ids, choice(false, vec![], false)), (vec![], false));
    assert_eq!(plan_of(&rows, &ids, choice(true, vec![], false)), (vec![], true));
}

#[test]
fn rows_stand_by_key_and_then_by_row() {
    assert_eq!(key_order(&[KeyOrder::Equal, KeyOrder::Greater], 1, 2), KeyOrder::Greater);
    assert_eq!(key_order(&[KeyOrder::Less, KeyOrder::Greater], 2, 1), KeyOrder::Less);
    assert_eq!(key_order(&[KeyOrder::Equal], 1, 2), KeyOrder::Less);
    assert_eq!(key_order(&[], 2, 2), KeyOrder::Equal);
    let refs = vec![(1, 0, 0), (2, 0, 1), (3, 1, 0), (4, 1, 1), (5, 0, 2)];
    let ranks = vec![vec![2, 0], vec![1, 9], vec![1, 9], vec![1, 3], vec![0, 7]];
    assert_eq!(
        order_by_key(refs.clone(), &ranks),
        vec![(5, 0, 2), (4, 1, 1), (2, 0, 1), (3, 1, 0), (1, 0, 0)]
    );
    // Without a key the rows' identities decide
    let unordered = vec![(3, 1, 0), (1, 0, 0), (2, 0, 1)];
    assert_eq!(
        order_by_key(unordered, &[vec![], vec![], vec![]]),
        vec![(1, 0, 0), (2, 0, 1), (3, 1, 0)]
    );
}

#[test]
fn many_rows_come_out_in_order() {
    let refs: Vec<(i64, usize, usize)> = (0..1000).map(|i| (i * 37 % 1009, 0, i as usize)).collect();
    let ranks: Vec<Vec<u64>> = refs.iter().map(|r| vec![(r.0 % 7) as u64]).collect();
    let sorted = order_by_key(refs.clone(), &ranks);
    let mut expected = refs;
    expected.sort_by_key(|r| (r.0 % 7, r.0));
    assert_eq!(sorted, expected);
}

#[test]
fn sealed_rows_stand_by_key() {
    let rows = |ids: &[i64]| -> Vec<HotRow> {
        ids.iter().map(|id| HotRow { row_id: *id, values: Vec::new() }).collect()
    };
    let ids = |rows: Vec<HotRow>| -> Vec<i64> { rows.iter().map(|r| r.row_id).collect() };
    let ranks = [vec![5], vec![1], vec![5], vec![0]];
    assert_eq!(ids(order_rows_by_key(rows(&[4, 3, 2, 1]), &ranks)), vec![1, 3, 2, 4]);
    // A table without a key keeps the order of its rows
    let none = [vec![], vec![], vec![]];
    assert_eq!(ids(order_rows_by_key(rows(&[4, 3, 9]), &none)), vec![4, 3, 9]);
    assert!(order_rows_by_key(Vec::new(), &[]).is_empty());
}
