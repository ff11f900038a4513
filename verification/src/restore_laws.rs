//! Which snapshots a restore takes, and what it brings back.

use crate::loading::{
    SnapshotFile, file_of, last_intact, with_loaded_table, with_noted_table, with_views,
};
use crate::catalog_log::{IndexRecord, RecordV, index_records};
use crate::engine::EngineV;
use crate::names::timestamp_in_name;
use crate::recovery::WalOperation;
use crate::restore::{
    ChosenSnapshot, SnapshotCandidate, TableFiles, counted_tables, gives_nothing, holds_up,
    intact_offers, is_choice, is_last, is_listed, is_offered, listed_tables, present_strings,
    some_offered, timestamps_of,
};
use crate::schema::SchemaV;
use crate::snapshot_reader::FileV;
use crate::text::{ascii_lower, text_le};
use crate::view_def::ViewV;
use vstd::prelude::*;

verus! {

/// Whether a file of a table can be taken: it is intact, and has the time stamp that is asked for, or
/// the name of a snapshot where none is.
pub open spec fn can_be_taken(f: SnapshotCandidate, timestamp: Option<Seq<char>>) -> bool {
    f.intact && match timestamp {
        Some(t) => f.name@ == "snapshot-"@ + t + ".bin"@,
        None => "snapshot-"@.is_prefix_of(f.name@) && ".bin"@.is_suffix_of(f.name@),
    }
}

proof fn lemma_offers(files: Seq<SnapshotCandidate>, timestamp: Option<Seq<char>>)
    ensures
        forall|i: int|
            0 <= i < files.len() && can_be_taken(#[trigger] files[i], timestamp) ==> intact_offers(
                files,
                timestamp,
            ).contains(files[i].name@),
        forall|n: Seq<char>| #[trigger]
            intact_offers(files, timestamp).contains(n) ==> exists|i: int|
                0 <= i < files.len() && can_be_taken(#[trigger] files[i], timestamp)
                    && files[i].name@ == n,
    decreases files.len(),
{
    if files.len() > 0 {
        let before = files.drop_last();
        let n = files.len() - 1;
        let o0 = intact_offers(before, timestamp);
        let o = intact_offers(files, timestamp);
        lemma_offers(before, timestamp);
        assert forall|i: int|
            0 <= i < files.len() && can_be_taken(#[trigger] files[i], timestamp) implies o.contains(
            files[i].name@,
        ) by {
            if i < n {
                assert(before[i] == files[i]);
                assert(o0.contains(files[i].name@));
                let k = choose|k: int| 0 <= k < o0.len() && o0[k] == files[i].name@;
                assert(o[k] == files[i].name@);
            } else {
                assert(o[o0.len() as int] == files[i].name@);
            }
        }
        assert forall|name: Seq<char>| #[trigger] o.contains(name) implies exists|i: int|
            0 <= i < files.len() && can_be_taken(#[trigger] files[i], timestamp) && files[i].name@
                == name by {
            let k = choose|k: int| 0 <= k < o.len() && o[k] == name;
            if k < o0.len() {
                assert(o0[k] == name);
                assert(o0.contains(name));
                let i = choose|i: int|
                    0 <= i < before.len() && can_be_taken(#[trigger] before[i], timestamp)
                        && before[i].name@ == name;
                assert(files[i] == before[i]);
            } else {
                assert(files[n].name@ == name);
                assert(can_be_taken(files[n], timestamp));
            }
        }
    }
}

/// A file is offered under the time stamp that is asked for; where none is, every snapshot is.
pub proof fn snapshots_are_offered(f: SnapshotCandidate, timestamp: Option<Seq<char>>)
    ensures
        can_be_taken(f, timestamp) <==> f.intact && is_offered(f.name@, timestamp),
{
}

/// The snapshot that is taken of a table is the newest that can be: it is intact, and none that can
/// be taken has a later name.
pub proof fn newest_snapshot_is_taken(
    files: Seq<SnapshotCandidate>,
    timestamp: Option<Seq<char>>,
    name: Seq<char>,
)
    requires
        is_last(name, intact_offers(files, timestamp)),
    ensures
        exists|i: int|
            0 <= i < files.len() && can_be_taken(#[trigger] files[i], timestamp) && files[i].name@
                == name,
        forall|i: int|
            0 <= i < files.len() && can_be_taken(#[trigger] files[i], timestamp) ==> text_le(
                files[i].name@,
                name,
            ),
{
    lemma_offers(files, timestamp);
    let offers = intact_offers(files, timestamp);
    assert forall|i: int|
        0 <= i < files.len() && can_be_taken(#[trigger] files[i], timestamp) implies text_le(
        files[i].name@,
        name,
    ) by {
        assert(offers.contains(files[i].name@));
        let k = choose|k: int| 0 <= k < offers.len() && offers[k] == files[i].name@;
        assert(text_le(offers[k], name));
    }
}

/// Whether the table of a directory is to be restored: there is no list of tables, or one of its
/// names is the table's, whatever the case of ASCII letters.
pub open spec fn is_wanted(d: TableFiles, tables: Option<Seq<Seq<char>>>) -> bool {
    tables is None || exists|i: int|
        0 <= i < (tables->Some_0).len() && ascii_lower(#[trigger] (tables->Some_0)[i])
            == ascii_lower(d.table@)
}

/// A table that is to be restored, and of which a snapshot can be taken, is restored from one, once;
/// and each snapshot that is taken is of such a table, in the order of the directories.
pub proof fn every_wanted_table_is_restored(
    chosen: Seq<ChosenSnapshot>,
    directories: Seq<TableFiles>,
    tables: Option<Seq<Seq<char>>>,
    timestamp: Option<Seq<char>>,
)
    requires
        is_choice(chosen, directories, tables, timestamp),
    ensures
        forall|d: int, i: int|
            0 <= d < directories.len() && is_wanted(#[trigger] directories[d], tables) && 0 <= i
                < directories[d].files@.len() && can_be_taken(
                #[trigger] directories[d].files@[i],
                timestamp,
            ) ==> exists|k: int| 0 <= k < chosen.len() && (#[trigger] chosen[k]).directory == d,
        forall|k: int|
            0 <= k < chosen.len() ==> {
                let c = #[trigger] chosen[k];
                &&& c.directory < directories.len()
                &&& is_wanted(directories[c.directory as int], tables)
                &&& is_last(
                    c.file@,
                    intact_offers(directories[c.directory as int].files@, timestamp),
                )
            },
        forall|k: int, m: int|
            0 <= k < m < chosen.len() ==> (#[trigger] chosen[k]).directory < (
            #[trigger] chosen[m]).directory,
    decreases directories.len(),
{
    if directories.len() > 0 {
        let before = directories.drop_last();
        let n = directories.len() - 1;
        let d = directories[n];
        let first = if gives_nothing(d, tables, timestamp) {
            chosen
        } else {
            chosen.drop_last()
        };
        every_wanted_table_is_restored(first, before, tables, timestamp);
        assert forall|x: int, i: int|
            0 <= x < directories.len() && is_wanted(#[trigger] directories[x], tables) && 0 <= i
                < directories[x].files@.len() && can_be_taken(
                #[trigger] directories[x].files@[i],
                timestamp,
            ) implies exists|k: int|
            0 <= k < chosen.len() && (#[trigger] chosen[k]).directory == x by {
            if x < n {
                assert(before[x] == directories[x]);
                assert(can_be_taken(before[x].files@[i], timestamp));
                let k = choose|k: int| 0 <= k < first.len() && (#[trigger] first[k]).directory == x;
                assert(chosen[k] == first[k]);
            } else {
                assert(is_offered(d.files@[i].name@, timestamp));
                assert(some_offered(d.files@, timestamp));
                if tables is Some {
                    let names = tables->Some_0;
                    let j = choose|j: int|
                        0 <= j < names.len() && ascii_lower(#[trigger] names[j]) == ascii_lower(
                            d.table@,
                        );
                    assert(is_listed(d.table@, names));
                }
                assert(!gives_nothing(d, tables, timestamp));
                assert(chosen[chosen.len() - 1].directory == n);
            }
        }
        assert forall|k: int| 0 <= k < chosen.len() implies {
            let c = #[trigger] chosen[k];
            &&& c.directory < directories.len()
            &&& is_wanted(directories[c.directory as int], tables)
            &&& is_last(c.file@, intact_offers(directories[c.directory as int].files@, timestamp))
        } by {
            if k < first.len() {
                assert(chosen[k] == first[k]);
                assert(before[first[k].directory as int] == directories[first[k].directory as int]);
            } else {
                assert(!gives_nothing(d, tables, timestamp));
            }
        }
        assert forall|k: int, m: int| 0 <= k < m < chosen.len() implies (
        #[trigger] chosen[k]).directory < (#[trigger] chosen[m]).directory by {
            assert(chosen[k] == first[k]);
            if m < first.len() {
                assert(chosen[m] == first[m]);
            }
        }
    }
}

/// A restore is held up just by a table that is to be restored, of which a file is offered and none
/// is intact. A list of tables counts just where no time stamp is asked for.
pub proof fn restore_is_held_up_by_damage(
    d: TableFiles,
    tables: Option<Seq<Seq<char>>>,
    timestamp: Option<Seq<char>>,
)
    ensures
        holds_up(d, tables, timestamp) <==> {
            &&& is_wanted(d, tables)
            &&& exists|i: int|
                0 <= i < d.files@.len() && is_offered((#[trigger] d.files@[i]).name@, timestamp)
            &&& forall|i: int|
                0 <= i < d.files@.len() ==> !can_be_taken(#[trigger] d.files@[i], timestamp)
        },
        timestamp is None ==> counted_tables(tables, timestamp) == tables,
        timestamp is Some ==> counted_tables(tables, timestamp) is None,
{
    lemma_offers(d.files@, timestamp);
    let offers = intact_offers(d.files@, timestamp);
    if offers.len() > 0 {
        assert(offers.contains(offers[0]));
    }
    if is_wanted(d, tables) && tables is Some {
        let names = tables->Some_0;
        let i = choose|i: int|
            0 <= i < names.len() && ascii_lower(#[trigger] names[i]) == ascii_lower(d.table@);
        assert(is_listed(d.table@, names));
    }
}

/// The tables of a list are its strings, in order; what is no string is passed over. A list that
/// names none is no list.
pub proof fn list_names_its_strings(elements: Seq<Option<Seq<char>>>)
    ensures
        forall|i: int|
            0 <= i < elements.len() && (#[trigger] elements[i]) is Some ==> present_strings(
                elements,
            ).contains(elements[i]->Some_0),
        forall|k: int|
            0 <= k < present_strings(elements).len() ==> elements.contains(
                Some(#[trigger] present_strings(elements)[k]),
            ),
        (forall|i: int| 0 <= i < elements.len() ==> (#[trigger] elements[i]) is None)
            ==> listed_tables(Some(elements)) is None,
        (exists|i: int| 0 <= i < elements.len() && (#[trigger] elements[i]) is Some)
            ==> listed_tables(Some(elements)) == Some(present_strings(elements)),
        listed_tables(None) is None,
    decreases elements.len(),
{
    if elements.len() > 0 {
        let before = elements.drop_last();
        let n = elements.len() - 1;
        let p0 = present_strings(before);
        let p = present_strings(elements);
        list_names_its_strings(before);
        assert forall|i: int|
            0 <= i < elements.len() && (#[trigger] elements[i]) is Some implies p.contains(
            elements[i]->Some_0,
        ) by {
            if i < n {
                assert(before[i] == elements[i]);
                assert(p0.contains(elements[i]->Some_0));
                let k = choose|k: int| 0 <= k < p0.len() && p0[k] == elements[i]->Some_0;
                assert(p[k] == elements[i]->Some_0);
            } else {
                assert(p[p0.len() as int] == elements[i]->Some_0);
            }
        }
        assert forall|k: int| 0 <= k < p.len() implies elements.contains(
            Some(#[trigger] p[k]),
        ) by {
            if k < p0.len() {
                assert(p[k] == p0[k]);
                assert(before.contains(Some(p0[k])));
                let i = choose|i: int| 0 <= i < before.len() && before[i] == Some(p0[k]);
                assert(elements[i] == Some(p[k]));
            } else {
                assert(elements[n] == Some(p[k]));
            }
        }
        if forall|i: int| 0 <= i < elements.len() ==> (#[trigger] elements[i]) is None {
            if p.len() > 0 {
                assert(elements.contains(Some(p[0])));
                let i = choose|i: int| 0 <= i < elements.len() && elements[i] == Some(p[0]);
                assert(elements[i] is None);
            }
        }
        if exists|i: int| 0 <= i < elements.len() && (#[trigger] elements[i]) is Some {
            let i = choose|i: int| 0 <= i < elements.len() && (#[trigger] elements[i]) is Some;
            assert(p.contains(elements[i]->Some_0));
        }
    }
}

/// The time stamp of each file that has one is found, and no other.
pub proof fn timestamps_are_found(files: Seq<Seq<char>>)
    ensures
        forall|i: int|
            0 <= i < files.len() && timestamp_in_name(#[trigger] files[i]) is Some
                ==> timestamps_of(files).contains(timestamp_in_name(files[i])->Some_0),
        forall|k: int|
            0 <= k < timestamps_of(files).len() ==> exists|i: int|
                0 <= i < files.len() && timestamp_in_name(#[trigger] files[i]) == Some(
                    #[trigger] timestamps_of(files)[k],
                ),
    decreases files.len(),
{
    if files.len() > 0 {
        let before = files.drop_last();
        let n = files.len() - 1;
        let t0 = timestamps_of(before);
        let t = timestamps_of(files);
        timestamps_are_found(before);
        assert forall|i: int|
            0 <= i < files.len() && timestamp_in_name(#[trigger] files[i]) is Some implies
            t.contains(timestamp_in_name(files[i])->Some_0) by {
            if i < n {
                assert(before[i] == files[i]);
                let s = timestamp_in_name(files[i])->Some_0;
                assert(t0.contains(s));
                let k = choose|k: int| 0 <= k < t0.len() && t0[k] == s;
                assert(t[k] == s);
            } else {
                assert(t[t0.len() as int] == timestamp_in_name(files[i])->Some_0);
            }
        }
        assert forall|k: int| 0 <= k < t.len() implies exists|i: int|
            0 <= i < files.len() && timestamp_in_name(#[trigger] files[i]) == Some(
                #[trigger] t[k],
            ) by {
            if k < t0.len() {
                assert(t[k] == t0[k]);
                let i = choose|i: int|
                    0 <= i < before.len() && timestamp_in_name(#[trigger] before[i]) == Some(t0[k]);
                assert(files[i] == before[i]);
            } else {
                assert(timestamp_in_name(files[n]) == Some(t[k]));
            }
        }
    }
}

// ---------------------------------------------------------------------------
// Loading
// ---------------------------------------------------------------------------

/// Of snapshot files of which the newest is the last, the one that is loaded can be read, and none
/// behind it can; where none is loaded, none can be read.
pub proof fn newest_readable_file_is_loaded(files: Seq<SnapshotFile>, now: int)
    ensures
        match last_intact(files, now) {
            Some(i) => {
                &&& 0 <= i < files.len()
                &&& file_of(files[i].data@, now) is Ok
                &&& forall|k: int|
                    i < k < files.len() ==> file_of((#[trigger] files[k]).data@, now) is Err
            },
            None => forall|k: int|
                0 <= k < files.len() ==> file_of((#[trigger] files[k]).data@, now) is Err,
        },
    decreases files.len(),
{
    if files.len() > 0 && file_of(files.last().data@, now) is Err {
        let before = files.drop_last();
        newest_readable_file_is_loaded(before, now);
        assert forall|k: int| 0 <= k < before.len() implies #[trigger] files[k] == before[k] by {}
    }
}

/// A loaded table is there under the name in its schema, with the schema of the file; every other
/// table and every view is as it was. The time stamp in the file's name is noted for the directory,
/// and every other as it was.
pub proof fn loaded_table_is_there(
    e: EngineV,
    f: FileV,
    directory: Seq<char>,
    name: Seq<char>,
)
    ensures
        ({
            let after = with_loaded_table(e, f);
            let noted = with_noted_table(e, f, directory, name);
            let key = f.schema.table_name_lower;
            &&& after.tables.contains_key(key)
            &&& after.tables[key] == f.schema
            &&& forall|k: Seq<char>|
                k != key ==> (#[trigger] after.tables.contains_key(k) <==> e.tables.contains_key(k))
                    && after.tables[k] == e.tables[k]
            &&& after == (EngineV { tables: after.tables, ..e })
            &&& noted == (EngineV { timestamps: noted.timestamps, ..after })
            &&& timestamp_in_name(name) is Some ==> noted.timestamps.contains_key(directory)
                && noted.timestamps[directory] == timestamp_in_name(name)->Some_0
            &&& timestamp_in_name(name) is None ==> noted.timestamps == e.timestamps
            &&& forall|k: Seq<char>|
                k != directory ==> (#[trigger] noted.timestamps.contains_key(k)
                    <==> e.timestamps.contains_key(k)) && noted.timestamps[k] == e.timestamps[k]
        }),
{
}

/// Views that are taken over are there, the last of a name in the place of the others; a view of
/// another name is as it was.
pub proof fn views_are_taken_over(m: Map<Seq<char>, ViewV>, views: Seq<ViewV>)
    ensures
        forall|i: int|
            0 <= i < views.len() && (forall|j: int|
                i < j < views.len() ==> (#[trigger] views[j]).name != views[i].name)
                ==> with_views(m, views).contains_pair((#[trigger] views[i]).name, views[i]),
        forall|k: Seq<char>|
            (forall|i: int| 0 <= i < views.len() ==> (#[trigger] views[i]).name != k) ==> (
            #[trigger] with_views(m, views).contains_key(k) <==> m.contains_key(k)) && with_views(
                m,
                views,
            )[k] == m[k],
    decreases views.len(),
{
    if views.len() > 0 {
        let before = views.drop_last();
        let n = views.len() - 1;
        views_are_taken_over(m, before);
        assert forall|i: int|
            0 <= i < views.len() && (forall|j: int|
                i < j < views.len() ==> (#[trigger] views[j]).name != views[i].name) implies
            with_views(m, views).contains_pair((#[trigger] views[i]).name, views[i]) by {
            if i < n {
                assert(before[i] == views[i]);
                assert(views[n].name != views[i].name);
                assert forall|j: int| i < j < before.len() implies (#[trigger] before[j]).name
                    != before[i].name by {
                    assert(views[j].name != views[i].name);
                }
                assert(with_views(m, before).contains_pair(before[i].name, before[i]));
            }
        }
        assert forall|k: Seq<char>|
            (forall|i: int| 0 <= i < views.len() ==> (#[trigger] views[i]).name != k) implies (
        #[trigger] with_views(m, views).contains_key(k) <==> m.contains_key(k)) && with_views(
            m,
            views,
        )[k] == m[k] by {
            assert(views[n].name != k);
            assert forall|i: int| 0 <= i < before.len() implies (#[trigger] before[i]).name != k by {
                assert(views[i].name != k);
            }
            assert(with_views(m, before).contains_key(k) <==> m.contains_key(k));
        }
    }
}

/// The log gets a record for each index of a table that there is, but for those of primary keys: under
/// the table's name and with the index's data, in order; and none for any other.
pub proof fn indexes_are_recorded(indexes: Seq<IndexRecord>, tables: Map<Seq<char>, SchemaV>)
    ensures
        forall|i: int|
            0 <= i < indexes.len() && !(#[trigger] indexes[i]).primary_key && tables.contains_key(
                indexes[i].table_name@,
            ) ==> index_records(indexes, tables).contains(
                RecordV {
                    operation: WalOperation::CreateIndex,
                    table_name: indexes[i].table_name@,
                    data: indexes[i].data@,
                },
            ),
        forall|k: int|
            0 <= k < index_records(indexes, tables).len() ==> {
                let r = #[trigger] index_records(indexes, tables)[k];
                &&& r.operation == WalOperation::CreateIndex
                &&& tables.contains_key(r.table_name)
                &&& exists|i: int|
                    0 <= i < indexes.len() && !(#[trigger] indexes[i]).primary_key
                        && indexes[i].table_name@ == r.table_name && indexes[i].data@ == r.data
            },
        index_records(indexes, tables).len() <= indexes.len(),
    decreases indexes.len(),
{
    if indexes.len() > 0 {
        let before = indexes.drop_last();
        let n = indexes.len() - 1;
        let r0 = index_records(before, tables);
        let r = index_records(indexes, tables);
        indexes_are_recorded(before, tables);
        assert forall|i: int|
            0 <= i < indexes.len() && !(#[trigger] indexes[i]).primary_key && tables.contains_key(
                indexes[i].table_name@,
            ) implies r.contains(
            RecordV {
                operation: WalOperation::CreateIndex,
                table_name: indexes[i].table_name@,
                data: indexes[i].data@,
            },
        ) by {
            let wanted = RecordV {
                operation: WalOperation::CreateIndex,
                table_name: indexes[i].table_name@,
                data: indexes[i].data@,
            };
            if i < n {
                assert(before[i] == indexes[i]);
                assert(r0.contains(wanted));
                let k = choose|k: int| 0 <= k < r0.len() && r0[k] == wanted;
                assert(r[k] == wanted);
            } else {
                assert(r[r0.len() as int] == wanted);
            }
        }
        assert forall|k: int| 0 <= k < r.len() implies {
            let x = #[trigger] r[k];
            &&& x.operation == WalOperation::CreateIndex
            &&& tables.contains_key(x.table_name)
            &&& exists|i: int|
                0 <= i < indexes.len() && !(#[trigger] indexes[i]).primary_key
                    && indexes[i].table_name@ == x.table_name && indexes[i].data@ == x.data
        } by {
            if k < r0.len() {
                assert(r[k] == r0[k]);
                let i = choose|i: int|
                    0 <= i < before.len() && !(#[trigger] before[i]).primary_key
                        && before[i].table_name@ == r0[k].table_name && before[i].data@
                        == r0[k].data;
                assert(indexes[i] == before[i]);
            } else {
                assert(!indexes[n].primary_key);
            }
        }
    }
}

} // verus!
