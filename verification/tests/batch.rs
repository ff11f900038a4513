//! The choice of the volumes that are rewritten together.

use stoolap_mvcc::batch::{
    batch_within_proportion, compaction_chunk_rows, drop_unaccepted_size_members, PlannedVolume,
};
use stoolap_mvcc::batch_closure::{accept_batch, close_batch_over_overlap};

/// Volumes at positions 0..n with the given row ids; none base, none deferred unless said.
fn batch_of(ids: &[&[i64]]) -> Vec<PlannedVolume> {
    ids.iter()
        .enumerate()
        .map(|(i, rows)| (i as u64 + 1, rows.len(), false, false))
        .collect()
}

/// The step before the closure: the batch is the base and the selection.
fn drop_size_members(
    planned: &[PlannedVolume],
    base: &mut Vec<bool>,
    size_only: &[bool],
    selected: &[usize],
    target: usize,
) {
    let members: Vec<bool> = (0..planned.len())
        .map(|position| base[position] || selected.contains(&position))
        .collect();
    drop_unaccepted_size_members(planned, &members, base, size_only, selected, target);
}

#[test]
fn a_near_target_volume_is_not_rewritten_for_a_volume_forty_times_smaller() {
    let target = 1_048_576;
    // The seed volume just under the target and one seal's worth of rows: the seed waits, the small
    // one stays in the batch alone
    let planned = vec![(1, 1_044_000, true, false), (2, 26_215, true, false)];
    let mut base = vec![true, true];
    drop_size_members(&planned, &mut base, &[true, true], &[], target);
    assert_eq!(base, vec![false, true]);
    // Two volumes of the same order merge: one volume instead of two
    let planned = vec![(1, 600_000, true, false), (2, 200_000, true, false)];
    let mut base = vec![true, true];
    drop_size_members(&planned, &mut base, &[true, true], &[], target);
    assert_eq!(base, vec![true, true]);
    // The largest is there to shed tombstones: its own reason, kept; the small one would only come
    // out as a remainder and waits
    let planned = vec![(1, 1_044_000, true, false), (2, 26_215, true, false)];
    let mut base = vec![true, true];
    drop_size_members(&planned, &mut base, &[false, true], &[], target);
    assert_eq!(base, vec![true, false]);
    // The largest was selected by the recluster: kept as well
    let planned = vec![(1, 1_044_000, false, false), (2, 26_215, true, false)];
    let mut base = vec![false, true];
    drop_size_members(&planned, &mut base, &[true, true], &[0], target);
    assert_eq!(base, vec![false, false]);
    // Several small ones and one large: the large waits, the small merge
    let planned = vec![
        (1, 1_000_000, true, false),
        (2, 30_000, true, false),
        (3, 30_000, true, false),
        (4, 30_000, true, false),
    ];
    let mut base = vec![true; 4];
    drop_size_members(&planned, &mut base, &[true; 4], &[], target);
    assert_eq!(base, vec![false, true, true, true]);
    let mut members = planned.clone();
    for (entry, keep) in members.iter_mut().zip(&base) {
        entry.2 = *keep;
    }
    assert!(batch_within_proportion(&members));
}

#[test]
fn a_size_member_the_batch_gains_nothing_from_waits() {
    let target = 1_048_576;
    // The seed with the volume the small ones accumulated into and three seals: within the ratio,
    // but five inputs give two outputs with the seed and four inputs give one without it, the same
    // reduction, so the seed waits. Then the accumulated volume is more than four times the three
    // seals and waits as well
    let planned = vec![
        (1, 1_044_000, true, false),
        (2, 235_944, true, false),
        (3, 13_108, true, false),
        (4, 13_108, true, false),
        (5, 13_108, true, false),
    ];
    let mut base = vec![true; 5];
    drop_size_members(&planned, &mut base, &[true; 5], &[], target);
    assert_eq!(base, vec![false, false, true, true, true]);
    // Without the seed the accumulated volume and the seals merge to one volume instead of four
    let mut base = vec![false, true, true, true, true];
    let planned_rows = [
        (1, 1_044_000),
        (2, 100_000),
        (3, 13_108),
        (4, 13_108),
        (5, 13_108),
    ];
    let planned: Vec<PlannedVolume> = planned_rows
        .iter()
        .map(|(id, rows)| (*id, *rows, true, false))
        .collect();
    drop_size_members(&planned, &mut base, &[true; 5], &[], target);
    assert_eq!(base, vec![false, true, true, true, true]);
    // An oversized volume of exactly two targets and one row: the split gives two volumes either
    // way, the row waits
    let planned = vec![(1, 2 * target, true, false), (2, 1, true, false)];
    let mut base = vec![true, true];
    drop_size_members(&planned, &mut base, &[false, true], &[], target);
    assert_eq!(base, vec![true, false]);
}

#[test]
fn the_estimated_output_count_uses_the_rows_an_output_holds() {
    // A target of 100,000 rows writes outputs of 65,536: three volumes of 40,000 rows become two
    // outputs, one volume fewer, and all three stay; against the raw target one of them would leave
    let planned = vec![
        (1, 40_000, true, false),
        (2, 40_000, true, false),
        (3, 40_000, true, false),
    ];
    let mut base = vec![true; 3];
    drop_size_members(&planned, &mut base, &[true; 3], &[], 100_000);
    assert_eq!(base, vec![true; 3]);
    assert_eq!(compaction_chunk_rows(100_000), 65_536);
    assert_eq!(compaction_chunk_rows(1_000), 65_536);
    assert_eq!(compaction_chunk_rows(1_048_576), 1_048_576);
}

#[test]
fn the_closed_batch_is_judged_again() {
    // Manifest order 31k, 85k, 31k, 1, 1, 1 at a target of 65,536: the five sub-target volumes give
    // one output from five. The clean 85k volume shares a row with the first 31k one, so the closure
    // pulls it in: six inputs for three outputs, and the first 31k volume no longer removes a
    // volume. It leaves and the closure no longer reaches the 85k volume; the second 31k volume is
    // then out of proportion with three single rows and waits as well
    let rows: Vec<&[i64]> = vec![&[1, 2], &[2, 3], &[4], &[5], &[6], &[7]];
    let mut planned = vec![
        (1, 31_000, true, false),
        (2, 85_000, false, false),
        (3, 31_000, true, false),
        (4, 1, true, false),
        (5, 1, true, false),
        (6, 1, true, false),
    ];
    let mut base = vec![true, false, true, true, true, true];
    let size_only = vec![true, false, true, true, true, true];
    let mut selected = Vec::new();
    let (held, reduced) = accept_batch(
        &mut planned,
        &mut base,
        &size_only,
        &mut selected,
        4,
        65_536,
        &rows,
    );
    assert!(!held && !reduced);
    assert_eq!(
        planned.iter().map(|entry| entry.2).collect::<Vec<_>>(),
        vec![false, false, false, true, true, true]
    );
}

#[test]
fn a_member_the_closure_brings_back_counts_in_the_closed_batch() {
    // Manifest order 5k, 40k, 20k, 20k, 1 at a target of 65,536, the 40k volume sharing a row with
    // the 5k one. The base drops the 40k volume (four inputs give one output without it, five give
    // two with it) and the closure brings it back. It then counts as a member of the closed batch:
    // 85,001 rows for two outputs, and one 20k volume leaves for the same reduction of three at
    // 65,001 rows, the closure holding through the 5k volume
    let rows: Vec<&[i64]> = vec![&[1, 2], &[2, 3], &[4], &[5], &[6]];
    let mut planned = vec![
        (1, 5_000, true, false),
        (2, 40_000, true, false),
        (3, 20_000, true, false),
        (4, 20_000, true, false),
        (5, 1, true, false),
    ];
    let mut base = vec![true; 5];
    let mut selected = Vec::new();
    accept_batch(
        &mut planned,
        &mut base,
        &[true; 5],
        &mut selected,
        4,
        65_536,
        &rows,
    );
    assert_eq!(
        planned.iter().map(|entry| entry.2).collect::<Vec<_>>(),
        vec![true, true, false, true, true]
    );
    assert_eq!(base, vec![true, false, false, true, true]);
}

#[test]
fn a_closed_batch_stays_within_the_recluster_limit() {
    let rows: Vec<&[i64]> = vec![&[1, 2], &[2, 3], &[3, 4]];
    // Two selected around an ordered volume that shares rows with both: the closure would take all
    // three, so the selection drops to one
    let mut planned = batch_of(&rows);
    let mut selected = vec![0, 2];
    let (held, reduced) =
        close_batch_over_overlap(&mut planned, &[false; 3], &mut selected, 2, &rows);
    assert!(!held && reduced);
    assert_eq!(selected, vec![0]);
    assert_eq!(
        planned.iter().map(|e| e.2).collect::<Vec<_>>(),
        vec![true, false, false]
    );
    // With room for three the closure takes the middle volume
    let mut planned = batch_of(&rows);
    let mut selected = vec![0, 2];
    let (_, reduced) = close_batch_over_overlap(&mut planned, &[false; 3], &mut selected, 3, &rows);
    assert!(!reduced);
    assert!(planned.iter().all(|e| e.2));
    // A lone member closes over nothing: the volumes around it keep their places on either side of
    // its rewrite
    let rows: Vec<&[i64]> = vec![&[1], &[1, 2], &[2, 3], &[3, 4]];
    let mut planned = batch_of(&rows);
    let mut selected = vec![0];
    let (_, reduced) = close_batch_over_overlap(&mut planned, &[false; 4], &mut selected, 2, &rows);
    assert!(!reduced);
    assert_eq!(
        planned.iter().map(|e| e.2).collect::<Vec<_>>(),
        vec![true, false, false, false]
    );
    // Beside distant base work the same selection goes alone and the base work waits for the next
    // cycle
    let mut planned = batch_of(&rows);
    planned[3].2 = true;
    let mut selected = vec![0];
    let (_, reduced) = close_batch_over_overlap(
        &mut planned,
        &[false, false, false, true],
        &mut selected,
        2,
        &rows,
    );
    assert!(!reduced && selected == vec![0]);
    assert_eq!(
        planned.iter().map(|e| e.2).collect::<Vec<_>>(),
        vec![true, false, false, false]
    );
}

#[test]
fn a_deferred_volume_sharing_a_row_with_the_batch_holds_it() {
    let rows: Vec<&[i64]> = vec![&[1], &[1, 2], &[5], &[5, 6]];
    let mut planned = batch_of(&rows);
    planned[1].3 = true;
    let mut selected = vec![0, 3];
    let (held, reduced) =
        close_batch_over_overlap(&mut planned, &[false; 4], &mut selected, 3, &rows);
    assert!(held && !reduced);
    assert!(!planned[1].2, "a deferred volume joined the batch");
    assert!(
        planned[2].2,
        "the volume sharing a row with a member was left out"
    );
}

#[test]
fn a_batch_is_in_proportion_up_to_four_times_the_rest() {
    assert!(batch_within_proportion(&[(1, 400, true, false), (2, 100, true, false)]));
    assert!(!batch_within_proportion(&[(1, 401, true, false), (2, 100, true, false)]));
    assert!(batch_within_proportion(&[(1, 401, false, false), (2, 100, true, false), (3, 90, true, false)]));
}

#[test]
fn closing_a_closed_batch_changes_nothing() {
    let rows: Vec<&[i64]> = vec![&[1, 2], &[2, 3], &[3, 4]];
    let mut planned = batch_of(&rows);
    let mut selected = vec![0, 2];
    close_batch_over_overlap(&mut planned, &[false; 3], &mut selected, 3, &rows);
    let base: Vec<bool> = planned.iter().map(|e| e.2).collect();
    let before = planned.clone();
    let mut none = Vec::new();
    let (held, reduced) = close_batch_over_overlap(&mut planned, &base, &mut none, 3, &rows);
    assert!(!held && !reduced);
    assert_eq!(planned, before);
}

#[test]
fn without_members_by_size_alone_the_batch_is_the_closure() {
    let rows: Vec<&[i64]> = vec![&[1, 2], &[2, 3], &[3, 4], &[9]];
    let base = [true, false, true, false];
    let start: Vec<_> = batch_of(&rows)
        .into_iter()
        .zip(base)
        .map(|(e, rewrite)| (e.0, e.1, rewrite, e.3))
        .collect();
    let mut closed = start.clone();
    let mut closed_selected = vec![3];
    let outcome = close_batch_over_overlap(&mut closed, &base, &mut closed_selected, 2, &rows);
    let mut accepted = start;
    let mut accepted_base = base.to_vec();
    let mut selected = vec![3];
    let settled = accept_batch(
        &mut accepted,
        &mut accepted_base,
        &[false; 4],
        &mut selected,
        2,
        65_536,
        &rows,
    );
    assert_eq!(settled, outcome);
    assert_eq!(accepted, closed);
    assert_eq!(selected, closed_selected);
    assert_eq!(accepted_base, base.to_vec());
}

#[test]
fn volumes_outside_the_batch_do_not_count_in_its_proportion() {
    assert!(batch_within_proportion(&[
        (1, usize::MAX, false, false),
        (2, 400, true, false),
        (3, 100, true, false),
    ]));
}

#[test]
fn batches_of_any_size_are_judged() {
    let huge = usize::MAX;
    assert!(batch_within_proportion(&[(1, huge, true, false), (2, huge, true, false)]));
    assert!(!batch_within_proportion(&[(1, huge, true, false), (2, huge / 5, true, false)]));
    assert!(batch_within_proportion(&[(1, huge, true, false), (2, huge / 4 + 1, true, false)]));
}
