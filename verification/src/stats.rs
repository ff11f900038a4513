//! Figures on what tables take up, and what a clean-up removed.

use crate::engine::{EngineError, ErrorV, MVCCEngine};
use crate::key_order::{is_permutation, lemma_reordered, reordered};
use crate::names::{in_text_order, name_order, str_views};
use crate::text::{lemma_text_le_reflexive, text_le};
use vstd::prelude::*;
use vstd::string::*;

verus! {

// ---------------------------------------------------------------------------
// Volumes
// ---------------------------------------------------------------------------

/// How much of a volume is in memory.
#[derive(Debug, Clone, Copy, PartialEq, Eq, Structural)]
pub enum VolumeTier {
    /// Its columns.
    Hot,
    /// Its columns in compressed form.
    Warm,
    /// What describes it.
    Cold,
}

/// A volume of a table.
#[derive(Debug, Clone, Copy, PartialEq, Eq, Structural)]
pub struct SegmentStat {
    pub segment_id: u64,
    pub tier: VolumeTier,
    pub row_count: usize,
    pub memory_bytes: usize,
    pub idle_cycles: u64,
}

/// The volumes of a table.
#[derive(Debug)]
pub struct TableSegments {
    pub table_name: String,
    pub tombstones: usize,
    pub segments: Vec<SegmentStat>,
}

/// A volume, with its table and the number of the table's tombstones.
#[derive(Debug)]
pub struct VolumeStat {
    pub table_name: String,
    pub segment: SegmentStat,
    pub tombstones: usize,
}

/// A volume, with its table's name as a sequence.
pub struct VolumeStatV {
    pub table_name: Seq<char>,
    pub segment: SegmentStat,
    pub tombstones: usize,
}

impl View for VolumeStat {
    type V = VolumeStatV;

    open spec fn view(&self) -> VolumeStatV {
        VolumeStatV {
            table_name: self.table_name@,
            segment: self.segment,
            tombstones: self.tombstones,
        }
    }
}

/// The views of figures on volumes.
pub open spec fn volume_stat_views(s: Seq<VolumeStat>) -> Seq<VolumeStatV> {
    s.map_values(|v: VolumeStat| v@)
}

/// The figures on the volumes of a table.
pub open spec fn stats_of_table(t: TableSegments) -> Seq<VolumeStatV> {
    t.segments@.map_values(
        |s: SegmentStat|
            VolumeStatV { table_name: t.table_name@, segment: s, tombstones: t.tombstones },
    )
}

/// The figures on the volumes of some tables, table by table.
pub open spec fn stats_of_tables(tables: Seq<TableSegments>) -> Seq<VolumeStatV>
    decreases tables.len(),
{
    if tables.len() == 0 {
        Seq::empty()
    } else {
        stats_of_tables(tables.drop_last()) + stats_of_table(tables.last())
    }
}

/// The names of tables with their volumes.
pub open spec fn segment_names(tables: Seq<TableSegments>) -> Seq<Seq<char>> {
    tables.map_values(|t: TableSegments| t.table_name@)
}

/// Whether `sorted` are the tables of `tables` in the order of their names.
pub open spec fn segments_by_name(sorted: Seq<TableSegments>, tables: Seq<TableSegments>) -> bool {
    exists|order: Seq<usize>|
        #![trigger reordered(tables, order)]
        is_permutation(order, tables.len()) && sorted == reordered(tables, order) && in_text_order(
            segment_names(sorted),
        )
}

/// The names of the tables of figures on volumes.
pub open spec fn volume_names(stats: Seq<VolumeStatV>) -> Seq<Seq<char>> {
    stats.map_values(|v: VolumeStatV| v.table_name)
}

proof fn lemma_stats_in_order(sorted: Seq<TableSegments>)
    requires
        in_text_order(segment_names(sorted)),
    ensures
        in_text_order(volume_names(stats_of_tables(sorted))),
        forall|i: int|
            0 <= i < stats_of_tables(sorted).len() ==> segment_names(sorted).contains(
                (#[trigger] stats_of_tables(sorted)[i]).table_name,
            ),
    decreases sorted.len(),
{
    if sorted.len() > 0 {
        let before = sorted.drop_last();
        let names = segment_names(sorted);
        assert(segment_names(before) =~= names.drop_last());
        lemma_stats_in_order(before);
        let n = stats_of_tables(before).len() as int;
        let all = stats_of_tables(sorted);
        let last = names[names.len() - 1];
        assert forall|i: int| 0 <= i < all.len() implies names.contains((#[trigger] all[i]).table_name)
            && text_le(all[i].table_name, last) && (i >= n ==> all[i].table_name == last) by {
            lemma_text_le_reflexive(last);
            if i < n {
                assert(all[i] == stats_of_tables(before)[i]);
                let k = segment_names(before).index_of(all[i].table_name);
                assert(names[k] == all[i].table_name);
            } else {
                assert(all[i].table_name == last);
                assert(names[names.len() - 1] == last);
            }
        }
        assert forall|i: int, j: int| 0 <= i < j < all.len() implies text_le(
            #[trigger] volume_names(all)[i],
            #[trigger] volume_names(all)[j],
        ) by {
            if j < n {
                let earlier = volume_names(stats_of_tables(before));
                assert(earlier[i] == volume_names(all)[i] && earlier[j] == volume_names(all)[j]);
            } else {
                assert(all[j].table_name == last);
                assert(text_le(all[i].table_name, last));
            }
        }
    }
}

fn list_volumes(tables: &[TableSegments]) -> (r: Vec<VolumeStat>)
    ensures
        exists|sorted: Seq<TableSegments>| #[trigger]
            segments_by_name(sorted, tables@) && volume_stat_views(r@) == stats_of_tables(sorted),
        in_text_order(volume_names(volume_stat_views(r@))),
{
    let mut names: Vec<&str> = Vec::new();
    while names.len() < tables.len()
        invariant
            names@.len() <= tables@.len(),
            str_views(names@) == segment_names(tables@).take(names@.len() as int),
        decreases tables@.len() - names@.len(),
    {
        let ghost k = names@.len() as int;
        names.push(tables[names.len()].table_name.as_str());
        assert(str_views(names@) =~= segment_names(tables@).take(k + 1));
    }
    assert(str_views(names@) =~= segment_names(tables@));
    let order = name_order(names.as_slice());
    let ghost sorted = reordered(tables@, order@);
    assert(segment_names(sorted) =~= reordered(segment_names(tables@), order@));
    assert(segments_by_name(sorted, tables@));
    let mut out: Vec<VolumeStat> = Vec::new();
    let mut i: usize = 0;
    assert(sorted.take(0) =~= Seq::empty());
    assert(volume_stat_views(out@) =~= Seq::empty());
    while i < order.len()
        invariant
            i <= order@.len(),
            is_permutation(order@, tables@.len()),
            sorted == reordered(tables@, order@),
            volume_stat_views(out@) == stats_of_tables(sorted.take(i as int)),
        decreases order@.len() - i,
    {
        let t = &tables[order[i]];
        proof {
            assert(sorted.take(i + 1).drop_last() =~= sorted.take(i as int));
            assert(sorted.take(i + 1).last() == *t);
        }
        let ghost start = volume_stat_views(out@);
        let ghost all = stats_of_table(*t);
        let mut j: usize = 0;
        assert(start =~= start + all.take(0));
        while j < t.segments.len()
            invariant
                j <= t.segments@.len(),
                all == stats_of_table(*t),
                volume_stat_views(out@) == start + all.take(j as int),
            decreases t.segments@.len() - j,
        {
            let ghost before = out@;
            let stat = VolumeStat {
                table_name: t.table_name.as_str().to_owned(),
                segment: t.segments[j],
                tombstones: t.tombstones,
            };
            let ghost added = stat@;
            out.push(stat);
            proof {
                assert(added == all[j as int]);
                assert(volume_stat_views(out@) =~= volume_stat_views(before).push(added));
                assert(start + all.take(j + 1) =~= (start + all.take(j as int)).push(
                    all[j as int],
                ));
            }
            j = j + 1;
        }
        assert(all.take(j as int) =~= all);
        i = i + 1;
    }
    assert(sorted.take(i as int) =~= sorted);
    proof {
        lemma_stats_in_order(sorted);
    }
    out
}

/// The memory that the volumes of a table take up.
pub open spec fn bytes_of_table(volumes: Seq<VolumeStat>, table: Seq<char>) -> int
    decreases volumes.len(),
{
    if volumes.len() == 0 {
        0
    } else {
        bytes_of_table(volumes.drop_last(), table) + if volumes.last().table_name@ == table {
            volumes.last().segment.memory_bytes as int
        } else {
            0
        }
    }
}

/// The memory that volumes take up.
pub open spec fn bytes_of_all(volumes: Seq<VolumeStat>) -> int
    decreases volumes.len(),
{
    if volumes.len() == 0 {
        0
    } else {
        bytes_of_all(volumes.drop_last()) + volumes.last().segment.memory_bytes
    }
}

proof fn lemma_bytes(volumes: Seq<VolumeStat>, table: Seq<char>, n: int)
    requires
        0 <= n <= volumes.len(),
    ensures
        0 <= bytes_of_table(volumes.take(n), table) <= bytes_of_all(volumes.take(n)),
        bytes_of_all(volumes.take(n)) <= bytes_of_all(volumes),
    decreases volumes.len(), n,
{
    if n < volumes.len() {
        let v = volumes.drop_last();
        assert(v.take(n) =~= volumes.take(n));
        lemma_bytes(v, table, n);
        assert(v.take(v.len() as int) =~= v);
    } else if n > 0 {
        let v = volumes.take(n);
        assert(v =~= volumes);
        lemma_bytes(volumes.drop_last(), table, n - 1);
        assert(volumes.drop_last().take(n - 1) =~= volumes.drop_last());
    }
}

fn table_bytes(volumes: &[VolumeStat], table: &String) -> (n: usize)
    requires
        bytes_of_all(volumes@) <= usize::MAX,
    ensures
        n == bytes_of_table(volumes@, table@),
{
    let mut total: usize = 0;
    let mut i: usize = 0;
    assert(volumes@.take(0) =~= Seq::empty());
    while i < volumes.len()
        invariant
            i <= volumes@.len(),
            bytes_of_all(volumes@) <= usize::MAX,
            total == bytes_of_table(volumes@.take(i as int), table@),
        decreases volumes@.len() - i,
    {
        proof {
            assert(volumes@.take(i + 1).drop_last() =~= volumes@.take(i as int));
            assert(volumes@.take(i + 1).last() == volumes@[i as int]);
            lemma_bytes(volumes@, table@, i + 1);
        }
        if volumes[i].table_name == *table {
            total = total + volumes[i].segment.memory_bytes;
        }
        i = i + 1;
    }
    assert(volumes@.take(i as int) =~= volumes@);
    total
}

fn all_bytes(volumes: &[VolumeStat]) -> (n: usize)
    requires
        bytes_of_all(volumes@) <= usize::MAX,
    ensures
        n == bytes_of_all(volumes@),
{
    let mut total: usize = 0;
    let mut i: usize = 0;
    assert(volumes@.take(0) =~= Seq::empty());
    while i < volumes.len()
        invariant
            i <= volumes@.len(),
            bytes_of_all(volumes@) <= usize::MAX,
            total == bytes_of_all(volumes@.take(i as int)),
        decreases volumes@.len() - i,
    {
        proof {
            assert(volumes@.take(i + 1).drop_last() =~= volumes@.take(i as int));
            assert(volumes@.take(i + 1).last() == volumes@[i as int]);
            lemma_bytes(volumes@, Seq::empty(), i + 1);
        }
        total = total + volumes[i].segment.memory_bytes;
        i = i + 1;
    }
    assert(volumes@.take(i as int) =~= volumes@);
    total
}

// ---------------------------------------------------------------------------
// Memory
// ---------------------------------------------------------------------------

/// What a table takes up in memory and in volumes, or all tables together where the name is `*`.
#[derive(Debug)]
pub struct MemoryStat {
    pub table_name: String,
    pub hot_rows: usize,
    pub hot_bytes: usize,
    pub arena_slots: usize,
    pub arena_capacity_bytes: usize,
    pub chain_entries: usize,
    pub volume_bytes: usize,
    /// The number of commits that waited for a seal; only counted for all tables together.
    pub admission_waits: u64,
}

/// What a table takes up, with its name as a sequence.
pub struct MemoryV {
    pub table_name: Seq<char>,
    pub hot_rows: int,
    pub hot_bytes: int,
    pub arena_slots: int,
    pub arena_capacity_bytes: int,
    pub chain_entries: int,
    pub volume_bytes: int,
    pub admission_waits: int,
}

impl View for MemoryStat {
    type V = MemoryV;

    open spec fn view(&self) -> MemoryV {
        MemoryV {
            table_name: self.table_name@,
            hot_rows: self.hot_rows as int,
            hot_bytes: self.hot_bytes as int,
            arena_slots: self.arena_slots as int,
            arena_capacity_bytes: self.arena_capacity_bytes as int,
            chain_entries: self.chain_entries as int,
            volume_bytes: self.volume_bytes as int,
            admission_waits: self.admission_waits as int,
        }
    }
}

/// Nothing.
pub open spec fn no_memory(table_name: Seq<char>) -> MemoryV {
    MemoryV {
        table_name,
        hot_rows: 0,
        hot_bytes: 0,
        arena_slots: 0,
        arena_capacity_bytes: 0,
        chain_entries: 0,
        volume_bytes: 0,
        admission_waits: 0,
    }
}

impl Default for MemoryStat {
    fn default() -> (s: MemoryStat)
        ensures
            s@ == no_memory(Seq::empty()),
    {
        let s = MemoryStat {
            table_name: String::new(),
            hot_rows: 0,
            hot_bytes: 0,
            arena_slots: 0,
            arena_capacity_bytes: 0,
            chain_entries: 0,
            volume_bytes: 0,
            admission_waits: 0,
        };
        assert(s.table_name@ =~= Seq::empty());
        s
    }
}

/// What a table keeps in memory.
#[derive(Debug)]
pub struct HotFootprint {
    pub table_name: String,
    pub hot_rows: usize,
    pub hot_bytes: usize,
    pub arena_slots: usize,
    pub arena_capacity_bytes: usize,
    pub chain_entries: usize,
}

/// The figures of a table with the given volumes among those of all tables.
pub open spec fn memory_of(f: HotFootprint, volumes: Seq<VolumeStat>) -> MemoryV {
    MemoryV {
        table_name: f.table_name@,
        hot_rows: f.hot_rows as int,
        hot_bytes: f.hot_bytes as int,
        arena_slots: f.arena_slots as int,
        arena_capacity_bytes: f.arena_capacity_bytes as int,
        chain_entries: f.chain_entries as int,
        volume_bytes: bytes_of_table(volumes, f.table_name@),
        admission_waits: 0,
    }
}

/// The sums of the figures on memory.
pub open spec fn memory_sums(tables: Seq<HotFootprint>) -> MemoryV
    decreases tables.len(),
{
    if tables.len() == 0 {
        no_memory("*"@)
    } else {
        let s = memory_sums(tables.drop_last());
        let f = tables.last();
        MemoryV {
            hot_rows: s.hot_rows + f.hot_rows,
            hot_bytes: s.hot_bytes + f.hot_bytes,
            arena_slots: s.arena_slots + f.arena_slots,
            arena_capacity_bytes: s.arena_capacity_bytes + f.arena_capacity_bytes,
            chain_entries: s.chain_entries + f.chain_entries,
            ..s
        }
    }
}

/// Whether sums fit in memory's word.
pub open spec fn sums_fit(s: MemoryV) -> bool {
    &&& s.hot_rows <= usize::MAX
    &&& s.hot_bytes <= usize::MAX
    &&& s.arena_slots <= usize::MAX
    &&& s.arena_capacity_bytes <= usize::MAX
    &&& s.chain_entries <= usize::MAX
}

/// The figures of all tables together.
pub open spec fn memory_total(
    tables: Seq<HotFootprint>,
    volumes: Seq<VolumeStat>,
    admission_waits: u64,
) -> MemoryV {
    MemoryV {
        volume_bytes: bytes_of_all(volumes),
        admission_waits: admission_waits as int,
        ..memory_sums(tables)
    }
}

proof fn lemma_sums(tables: Seq<HotFootprint>, n: int)
    requires
        0 <= n <= tables.len(),
    ensures
        ({
            let a = memory_sums(tables.take(n));
            let b = memory_sums(tables);
            &&& 0 <= a.hot_rows <= b.hot_rows
            &&& 0 <= a.hot_bytes <= b.hot_bytes
            &&& 0 <= a.arena_slots <= b.arena_slots
            &&& 0 <= a.arena_capacity_bytes <= b.arena_capacity_bytes
            &&& 0 <= a.chain_entries <= b.chain_entries
            &&& a.table_name == "*"@ && a.volume_bytes == 0 && a.admission_waits == 0
        }),
    decreases tables.len(), n,
{
    if n < tables.len() {
        let t = tables.drop_last();
        assert(t.take(n) =~= tables.take(n));
        lemma_sums(t, n);
    } else if n > 0 {
        assert(tables.take(n) =~= tables);
        lemma_sums(tables.drop_last(), n - 1);
        assert(tables.drop_last().take(n - 1) =~= tables.drop_last());
    }
}

/// The names of tables with what they keep in memory.
pub open spec fn footprint_names(tables: Seq<HotFootprint>) -> Seq<Seq<char>> {
    tables.map_values(|t: HotFootprint| t.table_name@)
}

/// Whether `sorted` are the tables of `tables` in the order of their names.
pub open spec fn footprints_by_name(sorted: Seq<HotFootprint>, tables: Seq<HotFootprint>) -> bool {
    exists|order: Seq<usize>|
        #![trigger reordered(tables, order)]
        is_permutation(order, tables.len()) && sorted == reordered(tables, order) && in_text_order(
            footprint_names(sorted),
        )
}

/// The names of the tables of figures on memory, but for the last, which are of all tables.
pub open spec fn memory_names(r: Seq<MemoryStat>) -> Seq<Seq<char>> {
    r.drop_last().map_values(|m: MemoryStat| m.table_name@)
}

/// Whether `r` has the figures on memory: one for each of `sorted`, and one for all together.
pub open spec fn lists_memory(
    r: Seq<MemoryStat>,
    sorted: Seq<HotFootprint>,
    tables: Seq<HotFootprint>,
    volumes: Seq<VolumeStat>,
    admission_waits: u64,
) -> bool {
    &&& r.len() == tables.len() + 1
    &&& forall|i: int| 0 <= i < tables.len() ==> (#[trigger] r[i])@ == memory_of(sorted[i], volumes)
    &&& r[tables.len() as int]@ == memory_total(tables, volumes, admission_waits)
}

fn total_memory(tables: &[HotFootprint], volumes: &[VolumeStat], admission_waits: u64) -> (total:
    MemoryStat)
    requires
        sums_fit(memory_sums(tables@)),
        bytes_of_all(volumes@) <= usize::MAX,
    ensures
        total@ == memory_total(tables@, volumes@, admission_waits),
{
    let mut total = MemoryStat {
        table_name: "*".to_owned(),
        hot_rows: 0,
        hot_bytes: 0,
        arena_slots: 0,
        arena_capacity_bytes: 0,
        chain_entries: 0,
        volume_bytes: 0,
        admission_waits: 0,
    };
    let mut i: usize = 0;
    assert(tables@.take(0) =~= Seq::empty());
    while i < tables.len()
        invariant
            i <= tables@.len(),
            sums_fit(memory_sums(tables@)),
            total@ == memory_sums(tables@.take(i as int)),
        decreases tables@.len() - i,
    {
        proof {
            assert(tables@.take(i + 1).drop_last() =~= tables@.take(i as int));
            assert(tables@.take(i + 1).last() == tables@[i as int]);
            lemma_sums(tables@, i + 1);
        }
        let f = &tables[i];
        total.hot_rows = total.hot_rows + f.hot_rows;
        total.hot_bytes = total.hot_bytes + f.hot_bytes;
        total.arena_slots = total.arena_slots + f.arena_slots;
        total.arena_capacity_bytes = total.arena_capacity_bytes + f.arena_capacity_bytes;
        total.chain_entries = total.chain_entries + f.chain_entries;
        i = i + 1;
    }
    assert(tables@.take(i as int) =~= tables@);
    total.volume_bytes = all_bytes(volumes);
    total.admission_waits = admission_waits;
    total
}

fn list_memory(tables: &[HotFootprint], volumes: &[VolumeStat], admission_waits: u64) -> (r: Vec<
    MemoryStat,
>)
    requires
        sums_fit(memory_sums(tables@)),
        bytes_of_all(volumes@) <= usize::MAX,
    ensures
        exists|sorted: Seq<HotFootprint>| #[trigger]
            footprints_by_name(sorted, tables@) && lists_memory(
                r@,
                sorted,
                tables@,
                volumes@,
                admission_waits,
            ),
        in_text_order(memory_names(r@)),
        memory_names(r@).to_multiset() == footprint_names(tables@).to_multiset(),
{
    let mut names: Vec<&str> = Vec::new();
    while names.len() < tables.len()
        invariant
            names@.len() <= tables@.len(),
            str_views(names@) == footprint_names(tables@).take(names@.len() as int),
        decreases tables@.len() - names@.len(),
    {
        let ghost k = names@.len() as int;
        names.push(tables[names.len()].table_name.as_str());
        assert(str_views(names@) =~= footprint_names(tables@).take(k + 1));
    }
    assert(str_views(names@) =~= footprint_names(tables@));
    let order = name_order(names.as_slice());
    let ghost sorted = reordered(tables@, order@);
    assert(footprint_names(sorted) =~= reordered(footprint_names(tables@), order@));
    assert(footprints_by_name(sorted, tables@));
    let mut out: Vec<MemoryStat> = Vec::new();
    let mut i: usize = 0;
    while i < order.len()
        invariant
            i <= order@.len(),
            is_permutation(order@, tables@.len()),
            sorted == reordered(tables@, order@),
            bytes_of_all(volumes@) <= usize::MAX,
            out@.len() == i,
            forall|k: int| 0 <= k < i ==> (#[trigger] out@[k])@ == memory_of(sorted[k], volumes@),
        decreases order@.len() - i,
    {
        let f = &tables[order[i]];
        assert(sorted[i as int] == *f);
        let bytes: usize = table_bytes(volumes, &f.table_name);
        out.push(
            MemoryStat {
                table_name: f.table_name.as_str().to_owned(),
                hot_rows: f.hot_rows,
                hot_bytes: f.hot_bytes,
                arena_slots: f.arena_slots,
                arena_capacity_bytes: f.arena_capacity_bytes,
                chain_entries: f.chain_entries,
                volume_bytes: bytes,
                admission_waits: 0,
            },
        );
        i = i + 1;
    }
    out.push(total_memory(tables, volumes, admission_waits));
    proof {
        assert forall|k: int| 0 <= k < sorted.len() implies #[trigger] memory_names(out@)[k]
            == footprint_names(sorted)[k] by {
            assert(out@[k]@ == memory_of(sorted[k], volumes@));
        }
        assert(memory_names(out@) =~= footprint_names(sorted));
        lemma_reordered(footprint_names(tables@), order@);
    }
    out
}

// ---------------------------------------------------------------------------
// Clean-up
// ---------------------------------------------------------------------------

/// What was removed from a table.
#[derive(Debug, Clone, Copy, PartialEq, Eq, Structural)]
pub struct Removed {
    pub rows: i32,
    pub versions: i32,
}

/// What was removed from some tables.
pub open spec fn removed_sum(s: Seq<Removed>) -> (int, int)
    decreases s.len(),
{
    if s.len() == 0 {
        (0, 0)
    } else {
        let before = removed_sum(s.drop_last());
        (before.0 + s.last().rows, before.1 + s.last().versions)
    }
}

/// Whether what was removed from the first tables can be counted, however many they are.
pub open spec fn sums_count(s: Seq<Removed>) -> bool {
    forall|n: int|
        0 <= n <= s.len() ==> {
            &&& i32::MIN <= (#[trigger] removed_sum(s.take(n))).0 <= i32::MAX
            &&& i32::MIN <= removed_sum(s.take(n)).1 <= i32::MAX
        }
}

fn removed_in_all(tables: &[Removed]) -> (r: (i32, i32))
    requires
        sums_count(tables@),
    ensures
        r.0 == removed_sum(tables@).0,
        r.1 == removed_sum(tables@).1,
{
    let mut rows: i32 = 0;
    let mut versions: i32 = 0;
    let mut i: usize = 0;
    assert(tables@.take(0) =~= Seq::empty());
    while i < tables.len()
        invariant
            i <= tables@.len(),
            sums_count(tables@),
            rows == removed_sum(tables@.take(i as int)).0,
            versions == removed_sum(tables@.take(i as int)).1,
        decreases tables@.len() - i,
    {
        proof {
            assert(tables@.take(i + 1).drop_last() =~= tables@.take(i as int));
            assert(tables@.take(i + 1).last() == tables@[i as int]);
            assert(removed_sum(tables@.take(i + 1)).0 <= i32::MAX);
        }
        rows = rows + tables[i].rows;
        versions = versions + tables[i].versions;
        i = i + 1;
    }
    assert(tables@.take(i as int) =~= tables@);
    (rows, versions)
}

/// What a clean-up of some tables works on.
#[derive(Debug, Clone, Copy, PartialEq, Eq, Structural)]
pub enum VacuumScope {
    /// Nothing: the engine is closed.
    Nothing,
    /// One table.
    Table,
    /// All tables.
    AllTables,
}

impl MVCCEngine {
    /// What a clean-up works on, where `table_name` is that of a table or none for all. The name is
    /// taken as it is.
    pub fn vacuum_scope(&self, table_name: Option<&str>) -> (r: Result<VacuumScope, EngineError>)
        requires
            self.wf(),
        ensures
            match r {
                Ok(VacuumScope::Nothing) => !self@.open,
                Ok(VacuumScope::Table) => self@.open && table_name is Some
                    && self@.tables.contains_key(table_name->Some_0@),
                Ok(VacuumScope::AllTables) => self@.open && table_name is None,
                Err(e) => self@.open && table_name is Some && !self@.tables.contains_key(
                    table_name->Some_0@,
                ) && e@ == ErrorV::TableNotFound(table_name->Some_0@),
            },
    {
        if !self.is_open() {
            return Ok(VacuumScope::Nothing);
        }
        match table_name {
            Some(name) => if self.has_table(name) {
                Ok(VacuumScope::Table)
            } else {
                Err(EngineError::TableNotFound(name.to_owned()))
            },
            None => Ok(VacuumScope::AllTables),
        }
    }

    /// What a clean-up removed: rows and versions of the tables that it worked on, and transactions.
    /// A closed engine removes nothing.
    pub fn vacuum(&self, table_name: Option<&str>, removed: &[Removed], transactions: i32) -> (r:
        Result<(i32, i32, i32), EngineError>)
        requires
            self.wf(),
            sums_count(removed@),
        ensures
            match r {
                Ok(t) => if !self@.open {
                    t == (0i32, 0i32, 0i32)
                } else {
                    &&& table_name is Some ==> self@.tables.contains_key(table_name->Some_0@)
                    &&& t.0 == removed_sum(removed@).0
                    &&& t.1 == removed_sum(removed@).1
                    &&& t.2 == transactions
                },
                Err(e) => self@.open && table_name is Some && !self@.tables.contains_key(
                    table_name->Some_0@,
                ) && e@ == ErrorV::TableNotFound(table_name->Some_0@),
            },
    {
        match self.vacuum_scope(table_name) {
            Ok(VacuumScope::Nothing) => Ok((0, 0, 0)),
            Ok(_) => {
                let (rows, versions) = removed_in_all(removed);
                Ok((rows, versions, transactions))
            },
            Err(e) => Err(e),
        }
    }

    /// The number of old transactions that a clean-up removed; none where the engine is closed.
    pub fn cleanup_old_transactions(&self, removed: i32) -> (n: i32)
        ensures
            n == if self@.open {
                removed as int
            } else {
                0
            },
    {
        if !self.is_open() {
            return 0;
        }
        removed
    }

    /// The number of deleted rows that a clean-up removed from the tables; none where the engine is
    /// closed.
    pub fn cleanup_deleted_rows(&self, removed: &[Removed]) -> (n: i32)
        requires
            sums_count(removed@),
        ensures
            n == if self@.open {
                removed_sum(removed@).0
            } else {
                0
            },
    {
        if !self.is_open() {
            return 0;
        }
        removed_in_all(removed).0
    }

    /// The number of old versions that a clean-up removed from the tables; none where the engine is
    /// closed.
    pub fn cleanup_old_previous_versions(&self, removed: &[Removed]) -> (n: i32)
        requires
            sums_count(removed@),
        ensures
            n == if self@.open {
                removed_sum(removed@).1
            } else {
                0
            },
    {
        if !self.is_open() {
            return 0;
        }
        removed_in_all(removed).1
    }

    /// The figures on the volumes of some tables, table by table, in the order of the tables' names.
    pub fn volume_stats(&self, tables: &[TableSegments]) -> (r: Vec<VolumeStat>)
        ensures
            exists|sorted: Seq<TableSegments>| #[trigger]
                segments_by_name(sorted, tables@) && volume_stat_views(r@) == stats_of_tables(
                    sorted,
                ),
            in_text_order(volume_names(volume_stat_views(r@))),
    {
        list_volumes(tables)
    }

    /// The figures on memory, table by table in the order of their names, and at the end those of all
    /// tables together, with the number of commits that waited for a seal. The volumes of a table that
    /// keeps nothing in memory count in the latter alone.
    pub fn memory_stats(&self, tables: &[HotFootprint], volumes: &[VolumeStat]) -> (r: Vec<
        MemoryStat,
    >)
        requires
            sums_fit(memory_sums(tables@)),
            bytes_of_all(volumes@) <= usize::MAX,
        ensures
            exists|sorted: Seq<HotFootprint>| #[trigger]
                footprints_by_name(sorted, tables@) && lists_memory(
                    r@,
                    sorted,
                    tables@,
                    volumes@,
                    self@.limits.admission_waits,
                ),
            in_text_order(memory_names(r@)),
            memory_names(r@).to_multiset() == footprint_names(tables@).to_multiset(),
    {
        list_memory(tables, volumes, self.hot_limits().admission_waits)
    }
}

} // verus!
