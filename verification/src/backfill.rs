//! Backfilling: side files with indexes for the volumes that lack them.

use crate::text::{lemma_text_le_antisymmetric, text_le, text_not_after};
use vstd::prelude::*;
use vstd::relations::*;
use vstd::seq_lib::*;
use vstd::string::*;

verus! {

// ---------------------------------------------------------------------------
// Which volumes lack a side file
// ---------------------------------------------------------------------------

/// Where a volume has a column of its table.
#[derive(Debug, Clone, Copy, PartialEq, Eq, Structural)]
pub enum ColumnSource {
    /// At a position of its own.
    Volume(usize),
    /// Nowhere: the column was added later, and has its default value.
    Default,
}

/// Where a volume has the columns of its table.
#[derive(Debug)]
pub struct ColumnMapping {
    pub sources: Vec<ColumnSource>,
    /// Whether the columns that have no source stand at their own positions.
    pub is_identity: bool,
    /// The number of columns of the volume.
    pub columns: usize,
}

/// Where a volume has a column of its table.
pub open spec fn physical_column(m: ColumnMapping, column: usize) -> Option<usize> {
    if column < m.sources@.len() {
        match m.sources@[column as int] {
            ColumnSource::Volume(p) => Some(p),
            ColumnSource::Default => None,
        }
    } else if m.is_identity && column < m.columns {
        Some(column)
    } else {
        None
    }
}

/// The indexed columns that a volume has, at their positions in it, each with its index's identity.
pub open spec fn wanted_pairs(m: ColumnMapping, identities: Seq<(usize, u64)>) -> Seq<(usize, u64)>
    decreases identities.len(),
{
    if identities.len() == 0 {
        Seq::empty()
    } else {
        let before = wanted_pairs(m, identities.drop_last());
        match physical_column(m, identities.last().0) {
            Some(p) => before.push((p, identities.last().1)),
            None => before,
        }
    }
}

/// The indexed columns that a volume has. A column that was added after the volume was written, or
/// dropped, is no business of its side file.
pub fn wanted_columns(mapping: &ColumnMapping, identities: &[(usize, u64)]) -> (r: Vec<(usize, u64)>)
    ensures
        r@ == wanted_pairs(*mapping, identities@),
{
    let mut out: Vec<(usize, u64)> = Vec::new();
    let mut i: usize = 0;
    assert(identities@.take(0) =~= Seq::empty());
    while i < identities.len()
        invariant
            i <= identities@.len(),
            out@ == wanted_pairs(*mapping, identities@.take(i as int)),
        decreases identities@.len() - i,
    {
        proof {
            assert(identities@.take(i + 1).drop_last() =~= identities@.take(i as int));
            assert(identities@.take(i + 1).last() == identities@[i as int]);
        }
        let (column, identity) = identities[i];
        if column < mapping.sources.len() {
            match mapping.sources[column] {
                ColumnSource::Volume(p) => {
                    out.push((p, identity));
                },
                ColumnSource::Default => {},
            }
        } else if mapping.is_identity && column < mapping.columns {
            out.push((column, identity));
        }
        i = i + 1;
    }
    assert(identities@.take(i as int) =~= identities@);
    out
}

/// Whether a side file with the given columns and identities has all that is wanted.
pub open spec fn has_all(side: Seq<(usize, u64)>, wanted: Seq<(usize, u64)>) -> bool {
    forall|i: int| 0 <= i < wanted.len() ==> side.contains(#[trigger] wanted[i])
}

/// Whether a side file with the given columns and identities has all that is wanted.
pub fn covers_all(side: &[(usize, u64)], wanted: &[(usize, u64)]) -> (r: bool)
    ensures
        r == has_all(side@, wanted@),
{
    let mut i: usize = 0;
    while i < wanted.len()
        invariant
            i <= wanted@.len(),
            forall|k: int| 0 <= k < i ==> side@.contains(#[trigger] wanted@[k]),
        decreases wanted@.len() - i,
    {
        let (column, identity) = wanted[i];
        let mut found = false;
        let mut j: usize = 0;
        while j < side.len() && !found
            invariant
                j <= side@.len(),
                found ==> side@.contains((column, identity)),
                !found ==> forall|k: int| 0 <= k < j ==> #[trigger] side@[k] != (column, identity),
            decreases side@.len() - j + (if found { 0int } else { 1int }),
        {
            if side[j].0 == column && side[j].1 == identity {
                assert(side@[j as int] == (column, identity));
                found = true;
            } else {
                j = j + 1;
            }
        }
        if !found {
            assert(!side@.contains(wanted@[i as int]));
            return false;
        }
        i = i + 1;
    }
    true
}

/// A volume, as far as its side file goes.
#[derive(Debug)]
pub struct ColdVolume {
    pub id: u64,
    pub mapping: ColumnMapping,
    /// The columns and identities of its side file, where it has one.
    pub side: Option<Vec<(usize, u64)>>,
}

/// Whether a volume lacks a side file for an indexed column that it has.
pub open spec fn lacks_side(v: ColdVolume, identities: Seq<(usize, u64)>) -> bool {
    let wanted = wanted_pairs(v.mapping, identities);
    wanted.len() > 0 && match v.side {
        Some(side) => !has_all(side@, wanted),
        None => true,
    }
}

/// Whether a volume lacks a side file for an indexed column that it has.
pub fn is_candidate(v: &ColdVolume, identities: &[(usize, u64)]) -> (r: bool)
    ensures
        r == lacks_side(*v, identities@),
{
    let wanted = wanted_columns(&v.mapping, identities);
    if wanted.len() == 0 {
        return false;
    }
    match &v.side {
        Some(side) => !covers_all(side.as_slice(), wanted.as_slice()),
        None => true,
    }
}

// ---------------------------------------------------------------------------
// The work of a pass
// ---------------------------------------------------------------------------

/// A table with its indexes and volumes.
#[derive(Debug)]
pub struct BackfillTable {
    pub name: String,
    /// The indexed columns, each with its index's identity.
    pub identities: Vec<(usize, u64)>,
    pub volumes: Vec<ColdVolume>,
}

/// The order of numbers.
pub open spec fn ascending() -> spec_fn(u64, u64) -> bool {
    |a: u64, b: u64| a <= b
}

/// The volumes of a table that lack a side file.
pub open spec fn lacking(volumes: Seq<ColdVolume>, identities: Seq<(usize, u64)>) -> Seq<u64>
    decreases volumes.len(),
{
    if volumes.len() == 0 {
        Seq::empty()
    } else {
        let before = lacking(volumes.drop_last(), identities);
        if lacks_side(volumes.last(), identities) {
            before.push(volumes.last().id)
        } else {
            before
        }
    }
}

/// The volumes of a table that lack a side file, oldest first.
pub open spec fn candidate_ids(t: BackfillTable) -> Seq<u64> {
    lacking(t.volumes@, t.identities@).sort_by(ascending())
}

/// Each of the ids with the position of its table.
pub open spec fn at_table(ids: Seq<u64>, table: int) -> Seq<(usize, u64)> {
    ids.map_values(|id: u64| (table as usize, id))
}

/// The volumes that lack a side file, table by table, each with the position of its table.
pub open spec fn work_of(tables: Seq<BackfillTable>) -> Seq<(usize, u64)>
    decreases tables.len(),
{
    if tables.len() == 0 {
        Seq::empty()
    } else {
        work_of(tables.drop_last()) + at_table(candidate_ids(tables.last()), tables.len() - 1)
    }
}

/// Calls `<[u64]>::sort_unstable`: the same numbers in ascending order.
#[verifier::external_body]
fn sort_ids(ids: &mut Vec<u64>)
    ensures
        final(ids)@.to_multiset() == old(ids)@.to_multiset(),
        forall|i: int, j: int|
            0 <= i < j < final(ids)@.len() ==> (#[trigger] final(ids)@[i]) <= (
            #[trigger] final(ids)@[j]),
{
    ids.sort_unstable()
}

/// The volumes of a table that lack a side file, oldest first.
pub fn candidates(table: &BackfillTable) -> (ids: Vec<u64>)
    ensures
        ids@ == candidate_ids(*table),
{
    let mut ids: Vec<u64> = Vec::new();
    let mut i: usize = 0;
    assert(table.volumes@.take(0) =~= Seq::empty());
    while i < table.volumes.len()
        invariant
            i <= table.volumes@.len(),
            ids@ == lacking(table.volumes@.take(i as int), table.identities@),
        decreases table.volumes@.len() - i,
    {
        proof {
            assert(table.volumes@.take(i + 1).drop_last() =~= table.volumes@.take(i as int));
            assert(table.volumes@.take(i + 1).last() == table.volumes@[i as int]);
        }
        if is_candidate(&table.volumes[i], table.identities.as_slice()) {
            ids.push(table.volumes[i].id);
        }
        i = i + 1;
    }
    assert(table.volumes@.take(i as int) =~= table.volumes@);
    let ghost unsorted = ids@;
    sort_ids(&mut ids);
    proof {
        unsorted.lemma_sort_by_ensures(ascending());
        assert(sorted_by(ids@, ascending()));
        lemma_sorted_unique(ids@, unsorted.sort_by(ascending()), ascending());
    }
    ids
}

/// The volumes that lack a side file, table by table, oldest first in each.
pub fn backfill_work(tables: &[BackfillTable]) -> (work: Vec<(usize, u64)>)
    ensures
        work@ == work_of(tables@),
{
    let mut work: Vec<(usize, u64)> = Vec::new();
    let mut i: usize = 0;
    assert(tables@.take(0) =~= Seq::empty());
    while i < tables.len()
        invariant
            i <= tables@.len(),
            work@ == work_of(tables@.take(i as int)),
        decreases tables@.len() - i,
    {
        proof {
            assert(tables@.take(i + 1).drop_last() =~= tables@.take(i as int));
            assert(tables@.take(i + 1).last() == tables@[i as int]);
        }
        let ids = candidates(&tables[i]);
        let ghost start = work@;
        let ghost all = at_table(ids@, i as int);
        let mut j: usize = 0;
        assert(work@ =~= start + all.take(0));
        while j < ids.len()
            invariant
                j <= ids@.len(),
                all == at_table(ids@, i as int),
                work@ == start + all.take(j as int),
            decreases ids@.len() - j,
        {
            work.push((i, ids[j]));
            assert(all.take(j + 1) =~= all.take(j as int).push(all[j as int]));
            assert(work@ =~= start + all.take(j + 1));
            j = j + 1;
        }
        assert(all.take(j as int) =~= all);
        i = i + 1;
    }
    assert(tables@.take(i as int) =~= tables@);
    work
}

/// Whether a volume of the table `name` stands before the cursor, or at it: by the order of tables'
/// names, then of ids.
pub open spec fn not_after(name: Seq<char>, id: u64, cursor: (Seq<char>, u64)) -> bool {
    if name == cursor.0 {
        id <= cursor.1
    } else {
        text_le(name, cursor.0)
    }
}

/// The number of volumes at the front of the work that do not stand after the cursor.
pub open spec fn done_count(
    work: Seq<(usize, u64)>,
    names: Seq<Seq<char>>,
    cursor: (Seq<char>, u64),
) -> nat
    decreases work.len(),
{
    if work.len() == 0 {
        0
    } else if not_after(names[work[0].0 as int], work[0].1, cursor) {
        1 + done_count(work.skip(1), names, cursor)
    } else {
        0
    }
}

/// The work of a pass: it starts behind the cursor, where the last pass stopped, and wraps.
pub open spec fn work_from(
    work: Seq<(usize, u64)>,
    names: Seq<Seq<char>>,
    cursor: Option<(Seq<char>, u64)>,
) -> Seq<(usize, u64)> {
    match cursor {
        None => work,
        Some(c) => {
            let at = done_count(work, names, c) as int;
            work.skip(at) + work.take(at)
        },
    }
}

/// The names of tables.
pub open spec fn table_names(tables: Seq<BackfillTable>) -> Seq<Seq<char>> {
    tables.map_values(|t: BackfillTable| t.name@)
}

/// The view of a cursor.
pub open spec fn cursor_view(cursor: Option<(String, u64)>) -> Option<(Seq<char>, u64)> {
    match cursor {
        Some(c) => Some((c.0@, c.1)),
        None => None,
    }
}

proof fn lemma_done_count(
    work: Seq<(usize, u64)>,
    names: Seq<Seq<char>>,
    cursor: (Seq<char>, u64),
    n: int,
)
    requires
        0 <= n <= work.len(),
        forall|i: int|
            0 <= i < n ==> not_after(names[(#[trigger] work[i]).0 as int], work[i].1, cursor),
        n < work.len() ==> !not_after(names[work[n].0 as int], work[n].1, cursor),
    ensures
        done_count(work, names, cursor) == n,
    decreases work.len(),
{
    if n > 0 {
        assert(not_after(names[work[0].0 as int], work[0].1, cursor));
        assert forall|i: int| 0 <= i < n - 1 implies not_after(
            names[(#[trigger] work.skip(1)[i]).0 as int],
            work.skip(1)[i].1,
            cursor,
        ) by {
            assert(work.skip(1)[i] == work[i + 1]);
        }
        if n < work.len() {
            assert(work.skip(1)[n - 1] == work[n]);
        }
        lemma_done_count(work.skip(1), names, cursor, n - 1);
    }
}

/// The work of a pass: it starts behind the cursor, where the last pass stopped, and wraps, so that a
/// volume whose side file cannot be built does not hold up the rest.
pub fn rotate_work(
    work: &[(usize, u64)],
    tables: &[BackfillTable],
    cursor: &Option<(String, u64)>,
) -> (r: Vec<(usize, u64)>)
    requires
        forall|i: int| 0 <= i < work@.len() ==> (#[trigger] work@[i]).0 < tables@.len(),
    ensures
        r@ == work_from(work@, table_names(tables@), cursor_view(*cursor)),
{
    let ghost names = table_names(tables@);
    let mut at: usize = 0;
    match cursor {
        None => {},
        Some(c) => {
            let ghost cv = (c.0@, c.1);
            let mut on = true;
            while at < work.len() && on
                invariant
                    at <= work@.len(),
                    cv == (c.0@, c.1),
                    names == table_names(tables@),
                    forall|i: int|
                        0 <= i < work@.len() ==> (#[trigger] work@[i]).0 < tables@.len(),
                    forall|i: int|
                        0 <= i < at ==> not_after(
                            names[(#[trigger] work@[i]).0 as int],
                            work@[i].1,
                            cv,
                        ),
                    !on ==> at < work@.len() && !not_after(
                        names[work@[at as int].0 as int],
                        work@[at as int].1,
                        cv,
                    ),
                decreases work@.len() - at + (if on { 1int } else { 0int }),
            {
                let (index, id) = work[at];
                assert(work@[at as int].0 < tables@.len());
                assert(names[index as int] == tables@[index as int].name@);
                let before: bool = if tables[index].name == c.0 {
                    id <= c.1
                } else {
                    text_not_after(tables[index].name.as_str(), c.0.as_str())
                };
                if before {
                    at = at + 1;
                } else {
                    on = false;
                }
            }
            proof {
                lemma_done_count(work@, names, cv, at as int);
            }
        },
    }
    let mut out: Vec<(usize, u64)> = Vec::new();
    let mut i: usize = at;
    assert(out@ =~= work@.subrange(at as int, at as int));
    while i < work.len()
        invariant
            at <= i <= work@.len(),
            out@ == work@.subrange(at as int, i as int),
        decreases work@.len() - i,
    {
        out.push(work[i]);
        assert(out@ =~= work@.subrange(at as int, i + 1));
        i = i + 1;
    }
    assert(out@ =~= work@.skip(at as int));
    let mut j: usize = 0;
    assert(out@ =~= work@.skip(at as int) + work@.take(0));
    while j < at
        invariant
            j <= at <= work@.len(),
            out@ == work@.skip(at as int) + work@.take(j as int),
        decreases at - j,
    {
        out.push(work[j]);
        assert(work@.take(j + 1) =~= work@.take(j as int).push(work@[j as int]));
        assert(out@ =~= work@.skip(at as int) + work@.take(j + 1));
        j = j + 1;
    }
    assert(cursor is None ==> out@ =~= work@);
    out
}

// ---------------------------------------------------------------------------
// A pass
// ---------------------------------------------------------------------------

/// What a pass did.
#[derive(Debug, Clone, Copy, PartialEq, Eq, Structural)]
pub struct BackfillReport {
    /// The volumes that were looked at.
    pub examined: usize,
    /// The side files that were built and attached.
    pub built: usize,
    /// The builds that had no room in memory.
    pub refused: usize,
    /// The volumes or files that were given up.
    pub discarded: usize,
    /// The builds that failed.
    pub failed: usize,
    /// The volumes that are left for a later pass.
    pub left: usize,
}

/// The report of a pass that has done nothing.
pub open spec fn empty_report() -> BackfillReport {
    BackfillReport { examined: 0, built: 0, refused: 0, discarded: 0, failed: 0, left: 0 }
}

impl Default for BackfillReport {
    fn default() -> (r: BackfillReport)
        ensures
            r == empty_report(),
    {
        BackfillReport { examined: 0, built: 0, refused: 0, discarded: 0, failed: 0, left: 0 }
    }
}

/// How the work on a volume ended.
#[derive(Debug, Clone, Copy, PartialEq, Eq, Structural)]
pub enum VolumeOutcome {
    Built,
    Refused,
    Discarded,
    Failed,
}

/// A pass over the volumes that lack a side file.
#[derive(Debug)]
pub struct BackfillPass {
    /// The volumes, each with the position of its table.
    pub work: Vec<(usize, u64)>,
    /// How many volumes are looked at, at most.
    pub limit: usize,
    pub report: BackfillReport,
    /// Whether a volume is being worked on.
    pub busy: bool,
}

/// The number of volumes whose work has ended.
pub open spec fn settled(r: BackfillReport) -> int {
    r.built + r.refused + r.discarded + r.failed
}

/// Whether a pass begins: not on an engine that closes, nor beside a pass that runs.
pub fn pass_begins(closing: bool, running: bool) -> (r: bool)
    ensures
        r == (!closing && !running),
{
    !closing && !running
}

impl BackfillPass {
    /// Whether the counts fit together: every volume that was looked at is counted once, but for the
    /// one that is being worked on.
    pub open spec fn wf(&self) -> bool {
        &&& self.report.examined <= self.work@.len()
        &&& self.report.examined <= self.limit
        &&& settled(self.report) + (if self.busy { 1int } else { 0int }) == self.report.examined
        &&& self.report.left == 0
    }

    /// A pass over `work`, of at most `limit` volumes.
    pub fn new(work: Vec<(usize, u64)>, limit: usize) -> (p: BackfillPass)
        ensures
            p.wf(),
            p.work == work,
            p.limit == limit,
            p.report == empty_report(),
            !p.busy,
    {
        BackfillPass { work, limit, report: BackfillReport::default(), busy: false }
    }

    /// A pass over `work`, of at most `limit` volumes. Where none begins, because the engine closes or
    /// another pass runs, the report is that of a pass that has done nothing.
    pub fn begin(closing: bool, running: bool, work: Vec<(usize, u64)>, limit: usize) -> (r: Result<
        BackfillPass,
        BackfillReport,
    >)
        ensures
            match r {
                Ok(p) => {
                    &&& !closing && !running
                    &&& p.wf()
                    &&& p.work == work
                    &&& p.limit == limit
                    &&& p.report == empty_report()
                    &&& !p.busy
                },
                Err(report) => (closing || running) && report == empty_report(),
            },
    {
        if pass_begins(closing, running) {
            Ok(BackfillPass::new(work, limit))
        } else {
            Err(BackfillReport::default())
        }
    }

    /// The next volume, which is then counted as looked at: none where the limit is reached, nothing
    /// is left, the engine closes, or another build has taken memory.
    pub fn next_volume(&mut self, closing: bool, charged_bytes: u64) -> (r: Option<(usize, u64)>)
        requires
            old(self).wf(),
            !old(self).busy,
        ensures
            final(self).wf(),
            final(self).work == old(self).work,
            final(self).limit == old(self).limit,
            match r {
                Some(v) => {
                    let n = old(self).report.examined;
                    &&& n < old(self).limit && n < old(self).work@.len()
                    &&& !closing && charged_bytes == 0
                    &&& v == old(self).work@[n as int]
                    &&& final(self).busy
                    &&& final(self).report == (BackfillReport {
                        examined: (n + 1) as usize,
                        ..old(self).report
                    })
                },
                None => {
                    &&& final(self).report == old(self).report
                    &&& !final(self).busy
                    &&& closing || charged_bytes != 0 || old(self).report.examined
                        == old(self).limit || old(self).report.examined == old(self).work@.len()
                },
            },
    {
        let n: usize = self.report.examined;
        if n >= self.work.len() || n >= self.limit || closing || charged_bytes != 0 {
            return None;
        }
        self.report.examined = n + 1;
        self.busy = true;
        Some(self.work[n])
    }

    /// Counts how the work on the volume ended.
    pub fn settle(&mut self, outcome: VolumeOutcome)
        requires
            old(self).wf(),
            old(self).busy,
        ensures
            final(self).wf(),
            !final(self).busy,
            final(self).work == old(self).work,
            final(self).limit == old(self).limit,
            ({
                let r = old(self).report;
                final(self).report == match outcome {
                    VolumeOutcome::Built => BackfillReport { built: (r.built + 1) as usize, ..r },
                    VolumeOutcome::Refused => BackfillReport {
                        refused: (r.refused + 1) as usize,
                        ..r
                    },
                    VolumeOutcome::Discarded => BackfillReport {
                        discarded: (r.discarded + 1) as usize,
                        ..r
                    },
                    VolumeOutcome::Failed => BackfillReport { failed: (r.failed + 1) as usize, ..r },
                }
            }),
    {
        match outcome {
            VolumeOutcome::Built => {
                self.report.built = self.report.built + 1;
            },
            VolumeOutcome::Refused => {
                self.report.refused = self.report.refused + 1;
            },
            VolumeOutcome::Discarded => {
                self.report.discarded = self.report.discarded + 1;
            },
            VolumeOutcome::Failed => {
                self.report.failed = self.report.failed + 1;
            },
        }
        self.busy = false;
    }

    /// The report of the pass: what was not looked at is left. Every volume that was is counted in
    /// exactly one way.
    pub fn finish(self) -> (r: BackfillReport)
        requires
            self.wf(),
            !self.busy,
        ensures
            r == (BackfillReport {
                left: (self.work@.len() - self.report.examined) as usize,
                ..self.report
            }),
            r.examined + r.left == self.work@.len(),
            settled(r) == r.examined,
    {
        let mut r = self.report;
        r.left = self.work.len() - self.report.examined;
        r
    }
}

/// The memory that a build may take: half of what there is, so that a seal has the other half.
pub fn build_cap(budget_bytes: u64) -> (cap: u64)
    ensures
        cap == budget_bytes / 2,
{
    budget_bytes / 2
}

/// Whether a side file that was built is published: the engine stays open, the volume is still
/// registered and has a file, and the built file opens and has all that is wanted of it now.
pub fn is_published(
    closing: bool,
    volume: Option<&ColdVolume>,
    has_file: bool,
    built: Option<&[(usize, u64)]>,
    identities: &[(usize, u64)],
) -> (r: bool)
    ensures
        r == (!closing && has_file && match (volume, built) {
            (Some(v), Some(b)) => {
                let wanted = wanted_pairs(v.mapping, identities@);
                wanted.len() > 0 && has_all(b@, wanted)
            },
            _ => false,
        }),
{
    if closing || !has_file {
        return false;
    }
    match volume {
        None => false,
        Some(v) => match built {
            None => false,
            Some(b) => {
                let wanted = wanted_columns(&v.mapping, identities);
                wanted.len() > 0 && covers_all(b, wanted.as_slice())
            },
        },
    }
}

// ---------------------------------------------------------------------------
// Laws
// ---------------------------------------------------------------------------

/// Whether the names are in the order of text, and none is repeated.
pub open spec fn names_ascend(names: Seq<Seq<char>>) -> bool {
    forall|i: int, j: int|
        0 <= i < j < names.len() ==> text_le(#[trigger] names[i], #[trigger] names[j]) && names[i]
            != names[j]
}

/// Whether no volume of the table is listed twice.
pub open spec fn distinct_volumes(t: BackfillTable) -> bool {
    forall|i: int, j: int|
        0 <= i < j < t.volumes@.len() ==> (#[trigger] t.volumes@[i]).id != (
        #[trigger] t.volumes@[j]).id
}

/// Whether each volume stands before the next, by the order of tables' names, then of ids.
pub open spec fn work_ascends(work: Seq<(usize, u64)>, names: Seq<Seq<char>>) -> bool {
    forall|i: int, j: int|
        0 <= i < j < work.len() ==> {
            let a = #[trigger] work[i];
            let b = #[trigger] work[j];
            &&& not_after(names[a.0 as int], a.1, (names[b.0 as int], b.1))
            &&& !not_after(names[b.0 as int], b.1, (names[a.0 as int], a.1))
        }
}

/// A pass goes on where the last one stopped: once a volume has been looked at, the next pass begins
/// with the volume behind it and comes to it last. So every volume has its turn, whatever becomes of
/// the others.
pub proof fn next_pass_goes_on(work: Seq<(usize, u64)>, names: Seq<Seq<char>>, i: int)
    requires
        work_ascends(work, names),
        0 <= i < work.len(),
    ensures
        work_from(work, names, Some((names[work[i].0 as int], work[i].1))) == work.skip(i + 1)
            + work.take(i + 1),
        i + 1 < work.len() ==> work_from(work, names, Some((names[work[i].0 as int], work[i].1)))[0]
            == work[i + 1],
        work_from(work, names, Some((names[work[i].0 as int], work[i].1))).last() == work[i],
{
    let c = (names[work[i].0 as int], work[i].1);
    assert forall|k: int| 0 <= k < i + 1 implies not_after(
        names[(#[trigger] work[k]).0 as int],
        work[k].1,
        c,
    ) by {
        if k < i {
            assert(not_after(names[work[k].0 as int], work[k].1, c));
        }
    }
    lemma_done_count(work, names, c, i + 1);
}

/// The volumes that lack a side file ascend, where the tables' names do and no volume is listed
/// twice.
pub proof fn collected_work_ascends(tables: Seq<BackfillTable>)
    requires
        tables.len() <= usize::MAX,
        names_ascend(table_names(tables)),
        forall|i: int| 0 <= i < tables.len() ==> distinct_volumes(#[trigger] tables[i]),
    ensures
        work_ascends(work_of(tables), table_names(tables)),
        forall|k: int|
            0 <= k < work_of(tables).len() ==> (#[trigger] work_of(tables)[k]).0 < tables.len(),
    decreases tables.len(),
{
    if tables.len() > 0 {
        let before = tables.drop_last();
        let names = table_names(tables);
        let last = tables.len() - 1;
        let t = tables.last();
        assert(table_names(before) =~= names.drop_last());
        assert(names_ascend(table_names(before))) by {
            assert forall|i: int, j: int| 0 <= i < j < before.len() implies text_le(
                #[trigger] table_names(before)[i],
                #[trigger] table_names(before)[j],
            ) && table_names(before)[i] != table_names(before)[j] by {
                assert(text_le(names[i], names[j]));
            }
        }
        assert forall|i: int| 0 <= i < before.len() implies distinct_volumes(
            #[trigger] before[i],
        ) by {
            assert(before[i] == tables[i]);
        }
        collected_work_ascends(before);
        let first = work_of(before);
        let ids = candidate_ids(t);
        let rest = at_table(ids, last);
        let work = work_of(tables);
        assert(distinct_volumes(tables[last]));
        lemma_candidates_ascend(t);
        assert forall|k: int| 0 <= k < work.len() implies (#[trigger] work[k]).0 < tables.len() by {
            if k < first.len() {
                assert(work[k] == first[k]);
            } else {
                assert(work[k] == rest[k - first.len()]);
            }
        }
        assert forall|i: int, j: int| 0 <= i < j < work.len() implies {
            let a = #[trigger] work[i];
            let b = #[trigger] work[j];
            &&& not_after(names[a.0 as int], a.1, (names[b.0 as int], b.1))
            &&& !not_after(names[b.0 as int], b.1, (names[a.0 as int], a.1))
        } by {
            if j < first.len() {
                assert(work[i] == first[i] && work[j] == first[j]);
                assert(first[i].0 < before.len() && first[j].0 < before.len());
                assert(names[first[i].0 as int] == table_names(before)[first[i].0 as int]);
                assert(names[first[j].0 as int] == table_names(before)[first[j].0 as int]);
            } else if i < first.len() {
                assert(work[i] == first[i] && work[j] == rest[j - first.len()]);
                let a = names[first[i].0 as int];
                let b = names[last];
                assert(first[i].0 < before.len());
                assert(text_le(a, b) && a != b);
                if text_le(b, a) {
                    lemma_text_le_antisymmetric(a, b);
                }
            } else {
                assert(work[i] == rest[i - first.len()] && work[j] == rest[j - first.len()]);
                assert(ids[i - first.len()] < ids[j - first.len()]);
            }
        }
    }
}

proof fn lemma_lacking(volumes: Seq<ColdVolume>, identities: Seq<(usize, u64)>)
    requires
        forall|i: int, j: int|
            0 <= i < j < volumes.len() ==> (#[trigger] volumes[i]).id != (#[trigger] volumes[j]).id,
    ensures
        lacking(volumes, identities).no_duplicates(),
        forall|k: int|
            0 <= k < lacking(volumes, identities).len() ==> exists|i: int|
                0 <= i < volumes.len() && (#[trigger] volumes[i]).id == #[trigger] lacking(
                    volumes,
                    identities,
                )[k],
    decreases volumes.len(),
{
    if volumes.len() > 0 {
        let before = volumes.drop_last();
        let some = lacking(before, identities);
        let all = lacking(volumes, identities);
        assert forall|i: int, j: int| 0 <= i < j < before.len() implies (#[trigger] before[i]).id
            != (#[trigger] before[j]).id by {
            assert(volumes[i].id != volumes[j].id);
        }
        lemma_lacking(before, identities);
        assert forall|k: int| 0 <= k < all.len() implies exists|i: int|
            0 <= i < volumes.len() && (#[trigger] volumes[i]).id == #[trigger] all[k] by {
            if k < some.len() {
                assert(all[k] == some[k]);
                let i = choose|i: int|
                    0 <= i < before.len() && (#[trigger] before[i]).id == some[k];
                assert(volumes[i].id == all[k]);
            } else {
                assert(volumes[volumes.len() - 1].id == all[k]);
            }
        }
        assert forall|a: int, b: int| 0 <= a < b < all.len() implies all[a] != all[b] by {
            assert(all[a] == some[a]);
            if b == some.len() {
                let i = choose|i: int|
                    0 <= i < before.len() && (#[trigger] before[i]).id == some[a];
                assert(volumes[i].id != volumes[volumes.len() - 1].id);
            } else {
                assert(all[b] == some[b]);
            }
        }
    }
}

proof fn lemma_candidates_ascend(t: BackfillTable)
    requires
        distinct_volumes(t),
    ensures
        forall|i: int, j: int|
            0 <= i < j < candidate_ids(t).len() ==> (#[trigger] candidate_ids(t)[i]) < (
            #[trigger] candidate_ids(t)[j]),
{
    let ids = lacking(t.volumes@, t.identities@);
    let sorted = candidate_ids(t);
    lemma_lacking(t.volumes@, t.identities@);
    ids.lemma_sort_by_ensures(ascending());
    ids.lemma_multiset_has_no_duplicates();
    sorted.lemma_multiset_has_no_duplicates_conv();
    assert forall|i: int, j: int| 0 <= i < j < sorted.len() implies (#[trigger] sorted[i]) < (
    #[trigger] sorted[j]) by {
        assert(ascending()(sorted[i], sorted[j]));
        assert(sorted[i] != sorted[j]);
    }
}

} // verus!
