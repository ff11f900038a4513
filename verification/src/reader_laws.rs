//! What is read from records, files and lists, and what is refused, in terms of the bytes and the
//! items themselves.

use crate::alter_table::{
    AlterError, AlterV, read_alter, read_column_spec, read_detail, read_known_type,
};
use crate::batch_merge::{
    are_members, holds_row, is_carried, merges_batch, newest_copy_is_carried,
};
use crate::bytes::{i64_of, le_value, split_le};
use crate::catalog_laws::column_is_found_by_name;
use crate::compaction::names_volume;
use crate::defaults::{checks_to, is_checked_default};
use crate::indexes::{IndexColumns, are_columns, graph_name, lacks_column};
use crate::listing::lists;
use crate::live_rows::RowPlace;
use crate::loading::{LoadedTable, is_loaded_from};
use crate::names::{graph_survives, volume_name, volume_name_round_trip};
use crate::schema::{ColumnV, DataType, type_of_tag};
use crate::restore::is_first;
use crate::snapshot_format::{FileHeader, Footer, field};
use crate::snapshot_reader::{
    FileV, OpenError, answers, decoded_rows, decodes_to, file_header, file_index, file_schema,
    handed_out, index_entries, readable_rows, row_views,
};
use crate::schema_change::column_called;
use crate::schema_format::read_name;
use crate::text::{text_le, unicode_lowercase};
use crate::view_def::{ViewError, ViewV, read_view, split_view};
use vstd::prelude::*;
use vstd::string::*;
use vstd::utf8::*;

verus! {

/// A number of two bytes has the low byte first.
pub proof fn two_bytes_make_a_number(b: Seq<u8>)
    requires
        b.len() >= 2,
    ensures
        split_le(b, 2) == Some(((b[0] + 256 * b[1]) as nat, b.skip(2))),
{
    reveal_with_fuel(le_value, 3);
    let h = b.take(2);
    assert(h.skip(1)[0] == b[1]);
    assert(h.skip(1).skip(1).len() == 0);
}

/// A record of a change that is read begins with the number of the change, from 1 to 6, which decides
/// on what it does, and the name of the table behind its length.
pub proof fn read_change_has_a_number_and_a_table(b: Seq<u8>)
    requires
        read_alter(b) is Ok,
    ensures
        b.len() >= 3,
        1 <= b[0] <= 6,
        b.len() >= 3 + b[1] + 256 * b[2],
        valid_utf8(b.subrange(3, 3 + b[1] + 256 * b[2])),
        ({
            let name = decode_utf8(b.subrange(3, 3 + b[1] + 256 * b[2]));
            match read_alter(b)->Ok_0 {
                AlterV::AddColumn { table, .. } => b[0] == 1 && table == name,
                AlterV::DropColumn { table, .. } => b[0] == 2 && table == name,
                AlterV::RenameColumn { table, .. } => b[0] == 3 && table == name,
                AlterV::ModifyColumn { table, .. } => b[0] == 4 && table == name,
                AlterV::RenameTable { table, .. } => b[0] == 5 && table == name,
                AlterV::ClusterBy { table, .. } => b[0] == 6 && table == name,
            }
        }),
{
    reveal(read_name);
    let b1 = b.skip(1);
    if b1.len() >= 2 {
        two_bytes_make_a_number(b1);
        let n = b1[0] + 256 * b1[1];
        if n <= b1.skip(2).len() {
            assert(b1.skip(2).take(n) =~= b.subrange(3, 3 + n));
        }
    }
}

/// A record with a number of no change is refused, where its table's name can be read.
pub proof fn unknown_change_is_refused(b: Seq<u8>)
    requires
        b.len() >= 3,
        b[0] == 0 || b[0] > 6,
        b.len() >= 3 + b[1] + 256 * b[2],
        valid_utf8(b.subrange(3, 3 + b[1] + 256 * b[2])),
    ensures
        read_alter(b) == Err::<AlterV, AlterError>(AlterError::UnknownOperation { op: b[0] }),
{
    reveal(read_name);
    let b1 = b.skip(1);
    two_bytes_make_a_number(b1);
    let n = b1[0] + 256 * b1[1];
    assert(b1.skip(2).take(n) =~= b.subrange(3, 3 + n));
}

proof fn lemma_table_read(b: Seq<u8>)
    requires
        read_alter(b) is Ok,
    ensures
        b.len() >= 3 + b[1] + 256 * b[2],
        read_alter(b) == read_detail(
            b.skip(3 + b[1] + 256 * b[2]),
            b[0],
            decode_utf8(b.subrange(3, 3 + b[1] + 256 * b[2])),
        ),
{
    reveal(read_name);
    read_change_has_a_number_and_a_table(b);
    let b1 = b.skip(1);
    two_bytes_make_a_number(b1);
    let n = b1[0] + 256 * b1[1];
    assert(b1.skip(2).take(n) =~= b.subrange(3, 3 + n));
    assert(b1.skip(2).skip(n) =~= b.skip(3 + n));
}

proof fn lemma_type_read(d: Seq<u8>, op: u8)
    requires
        read_known_type(d, op) is Ok,
    ensures
        d.len() > 0,
        d[0] <= 7,
        ({
            let ((t, dimensions), rest) = read_known_type(d, op)->Ok_0;
            &&& t == type_of_tag(d[0])
            &&& t != DataType::Vector || d.len() < 3 ==> dimensions == 0 && rest == d.skip(1)
            &&& t == DataType::Vector && d.len() >= 3 ==> dimensions == d[1] + 256 * d[2] && rest
                == d.skip(3)
        }),
{
    let e = d.skip(1);
    if e.len() >= 2 {
        two_bytes_make_a_number(e);
        assert(e.skip(2) =~= d.skip(3));
    }
}

proof fn lemma_column_read(c: Seq<u8>, op: u8)
    requires
        read_column_spec(c, op) is Ok,
    ensures
        c.len() >= 2,
        ({
            let t = 2 + c[0] + 256 * c[1];
            let ((column, data_type, dimensions, nullable), rest) = read_column_spec(
                c,
                op,
            )->Ok_0;
            &&& t + 1 < c.len()
            &&& c[t] <= 7
            &&& column == decode_utf8(c.subrange(2, t))
            &&& data_type == type_of_tag(c[t])
            &&& data_type != DataType::Vector ==> dimensions == 0 && nullable == (c[t + 1] != 0)
            &&& data_type == DataType::Vector && t + 3 < c.len() ==> dimensions == c[t + 1] + 256
                * c[t + 2] && nullable == (c[t + 3] != 0)
        }),
{
    reveal(read_name);
    if c.len() >= 2 {
        two_bytes_make_a_number(c);
        let m = c[0] + 256 * c[1];
        let t = 2 + m;
        assert(m <= c.skip(2).len());
        assert(c.skip(2).take(m) =~= c.subrange(2, t));
        let d = c.skip(2).skip(m);
        assert(d =~= c.skip(t));
        lemma_type_read(d, op);
        assert(d[0] == c[t]);
        if d.len() >= 3 {
            assert(d[1] == c[t + 1] && d[2] == c[t + 2]);
        }
    }
}

/// A record that adds or changes a column has, behind the names, a type that there is and whether the
/// column may be NULL; between the two stand the dimensions of a vector.
pub proof fn read_column_is_of_a_known_type(b: Seq<u8>)
    requires
        read_alter(b) is Ok,
        b[0] == 1 || b[0] == 4,
    ensures
        ({
            let at = 3 + b[1] + 256 * b[2];
            let t = at + 2 + b[at] + 256 * b[at + 1];
            &&& at + 2 <= t
            &&& t + 1 < b.len()
            &&& b[t] <= 7
            &&& match read_alter(b)->Ok_0 {
                AlterV::AddColumn { column, data_type, nullable, vector_dimensions, .. } => {
                    &&& column == decode_utf8(b.subrange(at + 2, t))
                    &&& data_type == type_of_tag(b[t])
                    &&& data_type != DataType::Vector ==> vector_dimensions == 0 && nullable == (b[t
                        + 1] != 0)
                    &&& data_type == DataType::Vector && t + 3 < b.len() ==> vector_dimensions == b[t
                        + 1] + 256 * b[t + 2] && nullable == (b[t + 3] != 0)
                },
                AlterV::ModifyColumn { column, data_type, nullable, vector_dimensions, .. } => {
                    &&& column == decode_utf8(b.subrange(at + 2, t))
                    &&& data_type == type_of_tag(b[t])
                    &&& data_type != DataType::Vector ==> vector_dimensions == 0 && nullable == (b[t
                        + 1] != 0)
                    &&& data_type == DataType::Vector && t + 3 < b.len() ==> vector_dimensions == b[t
                        + 1] + 256 * b[t + 2] && nullable == (b[t + 3] != 0)
                },
                _ => false,
            }
        }),
{
    lemma_table_read(b);
    let at = 3 + b[1] + 256 * b[2];
    let c = b.skip(at);
    assert(read_column_spec(c, b[0]) is Ok);
    lemma_column_read(c, b[0]);
    let m = c[0] + 256 * c[1];
    assert(c[0] == b[at] && c[1] == b[at + 1]);
    assert(c.subrange(2, 2 + m) =~= b.subrange(at + 2, at + 2 + m));
    let t = at + 2 + m;
    assert(c[2 + m] == b[t] && c[3 + m] == b[t + 1]);
    if t + 3 < b.len() {
        assert(c[4 + m] == b[t + 2] && c[5 + m] == b[t + 3]);
    }
}

/// A record of a view that is read has its name and its query, each behind its length and as long as
/// that says; a record that is shorter is refused.
pub proof fn read_view_has_its_parts(b: Seq<u8>)
    ensures
        split_view(b) is Ok ==> {
            let (name, query) = split_view(b)->Ok_0;
            let at = 2 + name.len() as int;
            &&& b.len() >= at + 4 + query.len()
            &&& name.len() == b[0] + 256 * b[1]
            &&& name == b.subrange(2, at)
            &&& query.len() == le_value(b.subrange(at, at + 4))
            &&& query == b.subrange(at + 4, at + 4 + query.len())
        },
        b.len() < 6 ==> split_view(b) is Err,
{
    if b.len() >= 2 {
        two_bytes_make_a_number(b);
        let n = b[0] + 256 * b[1];
        let b1 = b.skip(2);
        if n <= b1.len() {
            assert(b1.take(n) =~= b.subrange(2, 2 + n));
            let b2 = b1.skip(n);
            if b2.len() >= 4 {
                assert(b2.take(4) =~= b.subrange(2 + n, 2 + n + 4));
                let m = le_value(b2.take(4));
                let b3 = b2.skip(4);
                if m <= b3.len() {
                    assert(b3.take(m as int) =~= b.subrange(2 + n + 4, 2 + n + 4 + m));
                }
            }
        }
    }
}

/// The index of a file has every entry's row, and the offset of the last entry that has the row.
pub proof fn index_has_the_last_entry(b: Seq<u8>, n: nat, k: int)
    requires
        0 <= k < n,
        forall|j: int|
            k < j < n ==> i64_of(#[trigger] field(b, 16 * j, 16 * j + 8)) as i64 != i64_of(
                field(b, 16 * k, 16 * k + 8),
            ) as i64,
    ensures
        index_entries(b, n).contains_key(i64_of(field(b, 16 * k, 16 * k + 8)) as i64),
        index_entries(b, n)[i64_of(field(b, 16 * k, 16 * k + 8)) as i64] == field(
            b,
            16 * k + 8,
            16 * k + 16,
        ) as u64,
    decreases n,
{
    if k < n - 1 {
        let j = n - 1;
        assert(i64_of(field(b, 16 * j, 16 * j + 8)) as i64 != i64_of(field(b, 16 * k, 16 * k + 8)) as i64);
        index_has_the_last_entry(b, (n - 1) as nat, k);
    }
}

/// The index of a file has no row that no entry has.
pub proof fn index_has_only_its_entries(b: Seq<u8>, n: nat, row_id: i64)
    requires
        index_entries(b, n).contains_key(row_id),
    ensures
        exists|k: int|
            0 <= k < n && i64_of(#[trigger] field(b, 16 * k, 16 * k + 8)) as i64 == row_id,
    decreases n,
{
    if n > 0 {
        let k = n - 1;
        if i64_of(field(b, 16 * k, 16 * k + 8)) as i64 != row_id {
            index_has_only_its_entries(b, (n - 1) as nat, row_id);
        }
    }
}

/// Each row that is decoded is one of those that were read, and is what its bytes decode to.
pub proof fn decoded_rows_were_read<D, F: Fn(&[u8]) -> Option<D>>(
    encoded: Seq<(i64, Seq<u8>)>,
    decode: F,
    rows: Seq<(i64, D)>,
    k: int,
)
    requires
        decoded_rows(encoded, decode, rows),
        0 <= k < rows.len(),
    ensures
        exists|i: int|
            0 <= i < encoded.len() && (#[trigger] encoded[i]).0 == rows[k].0 && decodes_to(
                decode,
                encoded[i].1,
                Some(rows[k].1),
            ),
    decreases encoded.len(),
{
    if encoded.len() > 0 {
        let before = encoded.drop_last();
        let e = encoded.last();
        if decoded_rows(before, decode, rows) && decodes_to(decode, e.1, None) {
            decoded_rows_were_read(before, decode, rows, k);
            let i = choose|i: int|
                0 <= i < before.len() && (#[trigger] before[i]).0 == rows[k].0 && decodes_to(
                    decode,
                    before[i].1,
                    Some(rows[k].1),
                );
            assert(encoded[i] == before[i]);
        } else if k == rows.len() - 1 {
            assert(encoded[encoded.len() - 1] == e);
        } else {
            let shorter = rows.drop_last();
            decoded_rows_were_read(before, decode, shorter, k);
            assert(shorter[k] == rows[k]);
            let i = choose|i: int|
                0 <= i < before.len() && (#[trigger] before[i]).0 == shorter[k].0 && decodes_to(
                    decode,
                    before[i].1,
                    Some(shorter[k].1),
                );
            assert(encoded[i] == before[i]);
        }
    }
}

/// Where every row's bytes decode, every row that was read is there, in its place.
pub proof fn rows_that_decode_are_all_there<D, F: Fn(&[u8]) -> Option<D>>(
    encoded: Seq<(i64, Seq<u8>)>,
    decode: F,
    rows: Seq<(i64, D)>,
)
    requires
        decoded_rows(encoded, decode, rows),
        forall|i: int|
            0 <= i < encoded.len() ==> !decodes_to::<D, F>(decode, (#[trigger] encoded[i]).1, None),
    ensures
        rows.len() == encoded.len(),
        forall|i: int| 0 <= i < encoded.len() ==> (#[trigger] rows[i]).0 == encoded[i].0,
    decreases encoded.len(),
{
    if encoded.len() > 0 {
        let before = encoded.drop_last();
        assert(encoded[encoded.len() - 1] == encoded.last());
        assert forall|i: int| 0 <= i < before.len() implies !decodes_to::<D, F>(
            decode,
            (#[trigger] before[i]).1,
            None,
        ) by {
            assert(before[i] == encoded[i]);
        }
        rows_that_decode_are_all_there(before, decode, rows.drop_last());
        assert forall|i: int| 0 <= i < encoded.len() implies (#[trigger] rows[i]).0
            == encoded[i].0 by {
            if i < before.len() {
                assert(rows.drop_last()[i] == rows[i]);
            }
        }
    }
}

/// Rows are handed out until one is answered with a stop: all of them where none is, and no more than
/// the first where each is.
pub proof fn rows_are_handed_out_until_a_stop<F: Fn(i64, &[u8]) -> bool>(
    rows: Seq<(i64, Seq<u8>)>,
    callback: F,
    n: int,
)
    requires
        handed_out(rows, callback, n),
    ensures
        0 <= n <= rows.len(),
        rows.len() > 0 ==> n > 0,
        (forall|k: int| 0 <= k < rows.len() ==> !answers(callback, #[trigger] rows[k], false)) ==> n
            == rows.len(),
        (forall|k: int| 0 <= k < rows.len() ==> !answers(callback, #[trigger] rows[k], true)) ==> n
            <= 1,
{
    if n > 1 {
        assert(answers(callback, rows[0], true));
    }
}

/// A stored default value that is found to be a value stays as it was; one that is found to be none
/// goes. Nothing else ever stands there.
pub proof fn default_stays_where_it_is_a_value<F: Fn(&[u8]) -> bool>(
    decodes: F,
    before: Option<Seq<u8>>,
    after: Option<Seq<u8>>,
)
    requires
        is_checked_default(decodes, before, after),
    ensures
        before is None ==> after is None,
        after is Some ==> before is Some && after->Some_0 == before->Some_0,
        before is Some && !checks_to(decodes, before->Some_0, false) ==> after is Some,
        before is Some && !checks_to(decodes, before->Some_0, true) ==> after is None,
{
}

/// The columns of an index are, for each name, the first column that has it whatever the case of its
/// letters, with that column's type.
pub proof fn index_has_the_named_columns(
    x: IndexColumns,
    columns: Seq<ColumnV>,
    names: Seq<Seq<char>>,
    i: int,
)
    requires
        are_columns(x, columns, names),
        0 <= i < names.len(),
    ensures
        x.positions@.len() == names.len(),
        x.data_types@.len() == names.len(),
        x.positions@[i] < columns.len(),
        columns[x.positions@[i] as int].name_lower == unicode_lowercase(names[i]),
        x.data_types@[i] == columns[x.positions@[i] as int].data_type,
        forall|j: int|
            0 <= j < x.positions@[i] ==> (#[trigger] columns[j]).name_lower != unicode_lowercase(
                names[i],
            ),
{
    column_is_found_by_name(columns, names[i]);
}

/// An index lacks a column where some name is that of none, and only there.
pub proof fn missing_column_has_no_name(columns: Seq<ColumnV>, names: Seq<Seq<char>>, i: int)
    requires
        0 <= i < names.len(),
    ensures
        (forall|j: int|
            0 <= j < columns.len() ==> (#[trigger] columns[j]).name_lower != unicode_lowercase(
                names[i],
            )) ==> lacks_column(columns, names),
        (forall|k: int|
            0 <= k < names.len() ==> exists|j: int|
                0 <= j < columns.len() && (#[trigger] columns[j]).name_lower == unicode_lowercase(
                    #[trigger] names[k],
                )) ==> !lacks_column(columns, names),
{
    column_is_found_by_name(columns, names[i]);
    if lacks_column(columns, names) {
        let k = choose|k: int|
            0 <= k < names.len() && column_called(columns, #[trigger] names[k]) is None;
        column_is_found_by_name(columns, names[k]);
    }
}

/// The graph of an index is kept with the snapshot that it belongs to, and only a file whose name ends
/// in the time stamp of a snapshot that is kept, between a dash and the extension, is.
pub proof fn graph_is_kept_with_its_snapshot(
    index: Seq<char>,
    timestamp: Seq<char>,
    surviving: Seq<Seq<char>>,
    name: Seq<char>,
)
    ensures
        surviving.contains(timestamp) ==> graph_survives(
            graph_name(index, Some(timestamp)),
            surviving,
        ),
        surviving.len() == 0 ==> !graph_survives(name, surviving),
        graph_survives(name, surviving) ==> name.len() >= 5 && name.last() == 'n' && name[name.len()
            - 4] == '.',
{
    reveal_strlit("-");
    reveal_strlit(".bin");
    reveal_strlit("hnsw_");
    if surviving.contains(timestamp) {
        let i = choose|i: int| 0 <= i < surviving.len() && surviving[i] == timestamp;
        let tail = "-"@ + surviving[i] + ".bin"@;
        let whole = graph_name(index, Some(timestamp));
        assert(whole.subrange(whole.len() - tail.len(), whole.len() as int) =~= tail);
        assert(tail.is_suffix_of(whole));
    }
    if graph_survives(name, surviving) {
        let i = choose|i: int|
            0 <= i < surviving.len() && ("-"@ + (#[trigger] surviving[i]) + ".bin"@).is_suffix_of(
                name,
            );
        let tail = "-"@ + surviving[i] + ".bin"@;
        let end = name.subrange(name.len() - tail.len(), name.len() as int);
        assert(tail == end);
        assert(tail[tail.len() - 1] == 'n');
        assert(tail[tail.len() - 4] == '.');
        assert(end[tail.len() - 1] == name[name.len() - 1]);
        assert(end[tail.len() - 4] == name[name.len() - 4]);
    }
}

/// The file of a volume is named by a list of volumes exactly where the volume is in it.
pub proof fn volume_is_named_where_listed(id: u64, ids: Seq<u64>)
    ensures
        names_volume(volume_name(id), ids) <==> ids.contains(id),
{
    if names_volume(volume_name(id), ids) {
        let i = choose|i: int|
            0 <= i < ids.len() && volume_name(id) == volume_name(#[trigger] ids[i]);
        volume_name_round_trip(id);
        volume_name_round_trip(ids[i]);
        assert(ids[i] == id);
    }
    if ids.contains(id) {
        let i = choose|i: int| 0 <= i < ids.len() && ids[i] == id;
        assert(volume_name(id) == volume_name(ids[i]));
    }
}

/// The rows of a batch that is merged come in the order of their identities, each from the newest
/// volume of the batch that holds it, and none of them has a tombstone that may be applied.
pub proof fn merged_row_is_the_newest(
    refs: Seq<RowPlace>,
    members: Seq<usize>,
    volumes: Seq<Seq<i64>>,
    tombstones: Map<i64, u64>,
    limit: Option<u64>,
    k: int,
)
    requires
        merges_batch(refs, members, volumes, tombstones, limit),
        0 <= k < refs.len(),
    ensures
        members.contains(refs[k].1),
        refs[k].2 < volumes[refs[k].1 as int].len(),
        refs[k].0 == volumes[refs[k].1 as int][refs[k].2 as int],
        tombstones.contains_key(refs[k].0) ==> limit is Some && tombstones[refs[k].0]
            >= limit->Some_0,
        forall|p: usize, j: int|
            members.contains(p) && p > refs[k].1 && 0 <= j < volumes[p as int].len()
                ==> #[trigger] volumes[p as int][j] != refs[k].0,
        k + 1 < refs.len() ==> refs[k].0 < refs[k + 1].0,
{
    let r = refs[k];
    assert(is_carried(members, volumes, tombstones, limit, r.1 as int, r.2 as int));
    assert forall|p: usize, j: int|
        members.contains(p) && p > r.1 && 0 <= j < volumes[p as int].len() implies #[trigger]
        volumes[p as int][j] != r.0 by {
        assert(holds_row(members, volumes, p as int, j));
    }
}

/// Every row that a volume of the batch holds comes out of the merge, unless a tombstone that may be
/// applied marks it.
pub proof fn merge_loses_no_row(
    refs: Seq<RowPlace>,
    members: Seq<usize>,
    volumes: Seq<Seq<i64>>,
    tombstones: Map<i64, u64>,
    limit: Option<u64>,
    p: usize,
    j: int,
)
    requires
        are_members(members, volumes.len()),
        merges_batch(refs, members, volumes, tombstones, limit),
        members.contains(p),
        0 <= j < volumes[p as int].len(),
        tombstones.contains_key(volumes[p as int][j]) ==> limit is Some && tombstones[volumes[p as int][j]]
            >= limit->Some_0,
    ensures
        exists|k: int| 0 <= k < refs.len() && (#[trigger] refs[k]).0 == volumes[p as int][j],
{
    assert(holds_row(members, volumes, p as int, j));
    newest_copy_is_carried(refs, members, volumes, tombstones, limit, p as int, j);
}

/// A view is read where its name and its query are valid text, and is then called by its name in lower
/// case and in its own; a record in which one of them is not is refused.
pub proof fn view_is_read_where_it_is_text(b: Seq<u8>)
    requires
        split_view(b) is Ok,
    ensures
        read_view(b) is Ok <==> valid_utf8(split_view(b)->Ok_0.0) && valid_utf8(
            split_view(b)->Ok_0.1,
        ),
        !valid_utf8(split_view(b)->Ok_0.0) ==> read_view(b) == Err::<ViewV, ViewError>(
            ViewError::InvalidName,
        ),
        read_view(b) matches Ok(v) ==> {
            &&& v.original_name == decode_utf8(split_view(b)->Ok_0.0)
            &&& v.name == unicode_lowercase(v.original_name)
            &&& v.query == decode_utf8(split_view(b)->Ok_0.1)
        },
{
}

/// A file is too small for its header where it has fewer than 16 bytes, and too small for one of a
/// later version where it has fewer than 64; no other file is refused for that.
pub proof fn small_file_has_no_header(b: Seq<u8>)
    ensures
        b.len() < 16 <==> file_header(b) == Err::<FileHeader, OpenError>(
            OpenError::TooSmallForHeader,
        ),
        16 <= b.len() < 64 && field(b, 8, 12) > 2 <==> file_header(b) == Err::<
            FileHeader,
            OpenError,
        >(OpenError::TooSmallForVersion),
{
}

/// A schema stands behind its length, and is missed only where the file ends before it does; the same
/// holds of the index, which may be empty.
pub proof fn parts_of_a_file_are_missed_past_its_end(b: Seq<u8>, hs: int, now: int, f: Footer)
    requires
        0 <= hs,
    ensures
        b.len() < hs + 4 <==> file_schema(b, hs, now) is Err && file_schema(
            b,
            hs,
            now,
        )->Err_0 is MissingSchemaLength,
        b.len() >= hs + 4 && b.len() < hs + 4 + field(b, hs, hs + 4) <==> file_schema(b, hs, now)
            is Err && file_schema(b, hs, now)->Err_0 is MissingSchema,
        f.index_size > 0 && b.len() < f.index_offset + f.index_size <==> file_index(b, f) is Err,
        f.index_size == 0 ==> file_index(b, f) is Ok && file_index(b, f)->Ok_0.dom()
            =~= Set::<i64>::empty(),
        file_index(b, f) is Err ==> file_index(b, f)->Err_0 is MissingIndex,
{
    reveal(file_schema);
    reveal(file_index);
}

/// A table that was loaded from a file is the one whose schema the file has, goes as far in the log as
/// the file says, and has only rows that the file's index has, each once.
pub proof fn loaded_table_is_that_of_its_file(t: LoadedTable, data: Seq<u8>, f: FileV)
    requires
        is_loaded_from(t, data, f),
    ensures
        t.table@ == f.schema.table_name_lower,
        t.source_lsn == f.header.source_lsn,
        exists|entries: Seq<(i64, u64)>| #[trigger]
            lists(entries, f.index) && row_views(t.rows@) == readable_rows(data, entries),
{
}

/// The time stamp that is first is one of those that were found, and none of them comes before it.
pub proof fn first_name_is_one_of_them(name: Seq<char>, names: Seq<Seq<char>>, i: int)
    requires
        is_first(name, names),
    ensures
        names.contains(name),
        0 <= i < names.len() ==> text_le(name, names[i]),
{
}

} // verus!
