//! What the figures on volumes and memory add up to.

use crate::key_order::{is_permutation, reordered};
use crate::names::in_text_order;
use crate::order_laws::reordering_keeps_every_item;
use crate::stats::{
    HotFootprint, MemoryStat, Removed, TableSegments, VolumeStat, VolumeStatV, bytes_of_all,
    bytes_of_table, footprint_names, footprints_by_name, lists_memory, memory_of, memory_sums,
    memory_total, removed_sum, segment_names, segments_by_name, stats_of_table, stats_of_tables,
};
use crate::text::text_le;
use vstd::prelude::*;
use vstd::string::*;

verus! {

/// Each volume of each table has its figures, under the table's name and with the number of the
/// table's tombstones; there are as many figures as volumes.
pub proof fn every_volume_has_its_figures(tables: Seq<TableSegments>, t: int, i: int)
    requires
        0 <= t < tables.len(),
        0 <= i < tables[t].segments@.len(),
    ensures
        stats_of_tables(tables).contains(
            VolumeStatV {
                table_name: tables[t].table_name@,
                segment: tables[t].segments@[i],
                tombstones: tables[t].tombstones,
            },
        ),
        stats_of_tables(tables).len() == stats_of_tables(tables.drop_last()).len()
            + tables.last().segments@.len(),
    decreases tables.len(),
{
    let before = tables.drop_last();
    let n = tables.len() - 1;
    let s0 = stats_of_tables(before);
    let own = stats_of_table(tables[n]);
    let s = stats_of_tables(tables);
    let wanted = VolumeStatV {
        table_name: tables[t].table_name@,
        segment: tables[t].segments@[i],
        tombstones: tables[t].tombstones,
    };
    if t < n {
        assert(before[t] == tables[t]);
        every_volume_has_its_figures(before, t, i);
        let k = choose|k: int| 0 <= k < s0.len() && s0[k] == wanted;
        assert(s[k] == wanted);
    } else {
        assert(own[i] == wanted);
        assert(s[s0.len() + i] == wanted);
    }
}

/// The memory of a table's volumes adds up over lists of volumes, and each of its volumes counts with
/// its own memory; a volume of another table does not.
pub proof fn volumes_of_a_table_add_up(a: Seq<VolumeStat>, b: Seq<VolumeStat>, v: VolumeStat, table: Seq<char>)
    ensures
        bytes_of_table(a + b, table) == bytes_of_table(a, table) + bytes_of_table(b, table),
        bytes_of_all(a + b) == bytes_of_all(a) + bytes_of_all(b),
        v.table_name@ == table ==> bytes_of_table(seq![v], table) == v.segment.memory_bytes,
        v.table_name@ != table ==> bytes_of_table(seq![v], table) == 0,
        bytes_of_all(seq![v]) == v.segment.memory_bytes,
        bytes_of_all(Seq::empty()) == 0,
        bytes_of_table(Seq::empty(), table) == 0,
    decreases b.len(),
{
    reveal_with_fuel(bytes_of_table, 2);
    reveal_with_fuel(bytes_of_all, 2);
    assert(seq![v].drop_last() =~= Seq::empty());
    assert(seq![v].last() == v);
    if b.len() == 0 {
        assert(a + b =~= a);
    } else {
        volumes_of_a_table_add_up(a, b.drop_last(), v, table);
        assert((a + b).drop_last() =~= a + b.drop_last());
        assert((a + b).last() == b.last());
    }
}

/// The figures of all tables are the sums of those of each, one by one; the memory of volumes is that
/// of all volumes, and the commits that waited are counted as they are.
pub proof fn figures_of_tables_add_up(
    a: Seq<HotFootprint>,
    b: Seq<HotFootprint>,
    f: HotFootprint,
    volumes: Seq<VolumeStat>,
    waits: u64,
)
    ensures
        ({
            let x = memory_sums(a);
            let y = memory_sums(b);
            let z = memory_sums(a + b);
            &&& z.hot_rows == x.hot_rows + y.hot_rows
            &&& z.hot_bytes == x.hot_bytes + y.hot_bytes
            &&& z.arena_slots == x.arena_slots + y.arena_slots
            &&& z.arena_capacity_bytes == x.arena_capacity_bytes + y.arena_capacity_bytes
            &&& z.chain_entries == x.chain_entries + y.chain_entries
        }),
        ({
            let one = memory_sums(seq![f]);
            &&& one.hot_rows == f.hot_rows
            &&& one.hot_bytes == f.hot_bytes
            &&& one.arena_slots == f.arena_slots
            &&& one.arena_capacity_bytes == f.arena_capacity_bytes
            &&& one.chain_entries == f.chain_entries
        }),
        ({
            let t = memory_total(a, volumes, waits);
            let x = memory_sums(a);
            &&& t.table_name == "*"@
            &&& t.hot_rows == x.hot_rows
            &&& t.hot_bytes == x.hot_bytes
            &&& t.arena_slots == x.arena_slots
            &&& t.arena_capacity_bytes == x.arena_capacity_bytes
            &&& t.chain_entries == x.chain_entries
            &&& t.volume_bytes == bytes_of_all(volumes)
            &&& t.admission_waits == waits
        }),
        ({
            let m = memory_of(f, volumes);
            &&& m.table_name == f.table_name@
            &&& m.hot_rows == f.hot_rows
            &&& m.hot_bytes == f.hot_bytes
            &&& m.arena_slots == f.arena_slots
            &&& m.arena_capacity_bytes == f.arena_capacity_bytes
            &&& m.chain_entries == f.chain_entries
            &&& m.volume_bytes == bytes_of_table(volumes, f.table_name@)
            &&& m.admission_waits == 0
        }),
    decreases b.len(),
{
    reveal_with_fuel(memory_sums, 2);
    assert(seq![f].drop_last() =~= Seq::empty());
    assert(seq![f].last() == f);
    lemma_sums_name(a);
    if b.len() == 0 {
        assert(a + b =~= a);
    } else {
        figures_of_tables_add_up(a, b.drop_last(), f, volumes, waits);
        assert((a + b).drop_last() =~= a + b.drop_last());
        assert((a + b).last() == b.last());
    }
}

proof fn lemma_sums_name(a: Seq<HotFootprint>)
    ensures
        memory_sums(a).table_name == "*"@,
    decreases a.len(),
{
    if a.len() > 0 {
        lemma_sums_name(a.drop_last());
    }
}

/// What was removed from tables adds up, rows with rows and versions with versions.
pub proof fn removals_add_up(a: Seq<Removed>, b: Seq<Removed>, r: Removed)
    ensures
        removed_sum(a + b).0 == removed_sum(a).0 + removed_sum(b).0,
        removed_sum(a + b).1 == removed_sum(a).1 + removed_sum(b).1,
        removed_sum(seq![r]) == (r.rows as int, r.versions as int),
        removed_sum(Seq::empty()) == (0int, 0int),
    decreases b.len(),
{
    reveal_with_fuel(removed_sum, 2);
    assert(seq![r].drop_last() =~= Seq::empty());
    assert(seq![r].last() == r);
    if b.len() == 0 {
        assert(a + b =~= a);
    } else {
        removals_add_up(a, b.drop_last(), r);
        assert((a + b).drop_last() =~= a + b.drop_last());
        assert((a + b).last() == b.last());
    }
}

/// Tables that are listed by name are those that were given, each once, and no table stands before
/// one whose name comes first.
pub proof fn tables_are_listed_by_name(sorted: Seq<TableSegments>, tables: Seq<TableSegments>)
    requires
        segments_by_name(sorted, tables),
        tables.len() <= usize::MAX,
    ensures
        sorted.to_multiset() == tables.to_multiset(),
        sorted.len() == tables.len(),
        forall|i: int, j: int|
            0 <= i < j < sorted.len() ==> text_le(
                (#[trigger] sorted[i]).table_name@,
                (#[trigger] sorted[j]).table_name@,
            ),
{
    let order = choose|order: Seq<usize>|
        #![trigger reordered(tables, order)]
        is_permutation(order, tables.len()) && sorted == reordered(tables, order) && in_text_order(
            segment_names(sorted),
        );
    reordering_keeps_every_item(tables, order);
    let names = segment_names(sorted);
    assert forall|i: int, j: int| 0 <= i < j < sorted.len() implies text_le(
        (#[trigger] sorted[i]).table_name@,
        (#[trigger] sorted[j]).table_name@,
    ) by {
        assert(text_le(names[i], names[j]));
    }
}

/// The figures on memory have every table that was given, once and in the order of the names, with
/// its own figures, and the figures of all tables behind them.
pub proof fn memory_is_listed_by_name(
    r: Seq<MemoryStat>,
    sorted: Seq<HotFootprint>,
    tables: Seq<HotFootprint>,
    volumes: Seq<VolumeStat>,
    admission_waits: u64,
)
    requires
        footprints_by_name(sorted, tables),
        lists_memory(r, sorted, tables, volumes, admission_waits),
        tables.len() <= usize::MAX,
    ensures
        sorted.to_multiset() == tables.to_multiset(),
        r.len() == tables.len() + 1,
        forall|i: int, j: int|
            0 <= i < j < tables.len() ==> text_le(
                (#[trigger] r[i]).table_name@,
                (#[trigger] r[j]).table_name@,
            ),
        forall|i: int|
            0 <= i < tables.len() ==> {
                &&& (#[trigger] r[i]).table_name@ == sorted[i].table_name@
                &&& r[i].hot_rows == sorted[i].hot_rows
                &&& r[i].hot_bytes == sorted[i].hot_bytes
                &&& r[i].arena_slots == sorted[i].arena_slots
                &&& r[i].arena_capacity_bytes == sorted[i].arena_capacity_bytes
                &&& r[i].chain_entries == sorted[i].chain_entries
                &&& r[i].admission_waits == 0
            },
        r.last().table_name@ == "*"@,
        r.last().admission_waits == admission_waits,
{
    let order = choose|order: Seq<usize>|
        #![trigger reordered(tables, order)]
        is_permutation(order, tables.len()) && sorted == reordered(tables, order) && in_text_order(
            footprint_names(sorted),
        );
    reordering_keeps_every_item(tables, order);
    let names = footprint_names(sorted);
    assert forall|i: int| 0 <= i < tables.len() implies (#[trigger] r[i]).table_name@
        == sorted[i].table_name@ by {
        assert(r[i]@ == memory_of(sorted[i], volumes));
    }
    assert forall|i: int, j: int| 0 <= i < j < tables.len() implies text_le(
        (#[trigger] r[i]).table_name@,
        (#[trigger] r[j]).table_name@,
    ) by {
        assert(text_le(names[i], names[j]));
    }
    lemma_sums_name(tables);
}

} // verus!
