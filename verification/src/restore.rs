//! Restoring a backup: which snapshots are taken, and which file has their indexes and views.

use crate::backup::{json_escaped, manifest_of};
use crate::names::{
    ddl_file_name, matches_name, matching_names, name_matches, name_views, select_names,
    snapshot_file_name, snapshot_name, snapshot_timestamp, timestamp_in_name,
};
use crate::snapshot_reader::{SnapshotReader, file_crc, intact, read_file};
use crate::text::{
    ascii_lower, decimal, decimal_text, equal_ignoring_ascii_case, join3, lemma_text_le_reflexive,
    lemma_text_le_total, lemma_text_le_transitive, text_le, text_not_after,
};
use vstd::prelude::*;
use vstd::string::*;

verus! {

// ---------------------------------------------------------------------------
// Whether a restore can begin
// ---------------------------------------------------------------------------

/// Why a restore is refused.
#[derive(Debug)]
pub enum RestoreError {
    EngineNotOpen,
    NotPersistent,
    NoSnapshotDirectory,
    ActiveTransactions { remaining: usize },
    NoMatchingSnapshots,
    /// Of the table in the directory at the position no snapshot that could be taken is intact.
    InvalidSnapshot { directory: usize },
    /// There is no file with the indexes and views of the time stamp that was asked for.
    MissingDefinitions(String),
}

/// Checks that a restore can begin: the engine is open and persistent, there are snapshots, and no
/// transaction is active.
pub fn check_restore(
    open: bool,
    persistent: bool,
    has_snapshots: bool,
    active: usize,
) -> (r: Result<(), RestoreError>)
    ensures
        match r {
            Ok(_) => open && persistent && has_snapshots && active == 0,
            Err(RestoreError::EngineNotOpen) => !open,
            Err(RestoreError::NotPersistent) => open && !persistent,
            Err(RestoreError::NoSnapshotDirectory) => open && persistent && !has_snapshots,
            Err(RestoreError::ActiveTransactions { remaining }) => open && persistent
                && has_snapshots && active > 0 && remaining == active,
            _ => false,
        },
{
    if !open {
        return Err(RestoreError::EngineNotOpen);
    }
    if !persistent {
        return Err(RestoreError::NotPersistent);
    }
    if !has_snapshots {
        return Err(RestoreError::NoSnapshotDirectory);
    }
    if active > 0 {
        return Err(RestoreError::ActiveTransactions { remaining: active });
    }
    Ok(())
}

// ---------------------------------------------------------------------------
// The list of tables
// ---------------------------------------------------------------------------

/// The view of an optional list of optional texts.
pub open spec fn strings_view(o: Option<Vec<Option<String>>>) -> Option<Seq<Option<Seq<char>>>> {
    match o {
        Some(v) => Some(
            v@.map_values(
                |x: Option<String>|
                    match x {
                        Some(s) => Some(s@),
                        None => None,
                    },
            ),
        ),
        None => None,
    }
}

/// The elements of the array under `field` in the JSON object `text`, each the string that it is, or
/// none where it is no string; none where there is no such array.
pub uninterp spec fn json_strings(text: Seq<char>, field: Seq<char>) -> Option<
    Seq<Option<Seq<char>>>,
>;

/// Whether a text has no control characters, which JSON does not take as they are.
pub open spec fn is_printable(s: Seq<char>) -> bool {
    forall|i: int| 0 <= i < s.len() ==> (#[trigger] s[i]) as u32 >= 32
}

/// Whether a text is the list of the tables `names` that a backup wrote, at a time stamp that needs
/// no escapes.
pub open spec fn lists_names(text: Seq<char>, names: Seq<Seq<char>>) -> bool {
    &&& forall|i: int| 0 <= i < names.len() ==> is_printable(#[trigger] names[i])
    &&& exists|t: Seq<char>| #[trigger]
        manifest_of(t, names) == text && json_escaped(t) == t && is_printable(t)
}

/// Names, each as an element that is a string.
pub open spec fn as_elements(names: Seq<Seq<char>>) -> Seq<Option<Seq<char>>> {
    names.map_values(|n: Seq<char>| Some(n))
}

/// Calls `serde_json::from_str` and looks up an array in the value with `Value::get`,
/// `Value::as_array` and `Value::as_str`. What JSON a text is stays with the name, but for a list of
/// tables: its array of strings is read as it was written, escapes taken back.
#[verifier::external_body]
fn json_string_array(text: &str, field: &str) -> (r: Option<Vec<Option<String>>>)
    ensures
        strings_view(r) == json_strings(text@, field@),
        field@ == "tables"@ ==> forall|names: Seq<Seq<char>>| #[trigger]
            lists_names(text@, names) ==> strings_view(r) == Some(as_elements(names)),
{
    let parsed: serde_json::Value = serde_json::from_str(text).unwrap_or_default();
    parsed
        .get(field)
        .and_then(|v| v.as_array())
        .map(|a| a.iter().map(|v| v.as_str().map(String::from)).collect())
}

/// The strings among some elements, in order.
pub open spec fn present_strings(s: Seq<Option<Seq<char>>>) -> Seq<Seq<char>>
    decreases s.len(),
{
    if s.len() == 0 {
        Seq::empty()
    } else {
        let before = present_strings(s.drop_last());
        match s.last() {
            Some(x) => before.push(x),
            None => before,
        }
    }
}

/// The tables that a list names; none where it names none.
pub open spec fn listed_tables(s: Option<Seq<Option<Seq<char>>>>) -> Option<Seq<Seq<char>>> {
    match s {
        None => None,
        Some(elements) => if present_strings(elements).len() == 0 {
            None
        } else {
            Some(present_strings(elements))
        },
    }
}

/// The view of an optional list of names.
pub open spec fn names_view(o: Option<Vec<String>>) -> Option<Seq<Seq<char>>> {
    match o {
        Some(v) => Some(name_views(v@)),
        None => None,
    }
}

/// The tables that the elements of a list name; none where they name none.
pub fn tables_in_list(elements: Option<Vec<Option<String>>>) -> (r: Option<Vec<String>>)
    ensures
        names_view(r) == listed_tables(strings_view(elements)),
{
    let ghost all = strings_view(elements);
    let list = match elements {
        Some(v) => v,
        None => {
            return None;
        },
    };
    let ghost views = all->Some_0;
    let mut out: Vec<String> = Vec::new();
    let mut i: usize = 0;
    assert(views.take(0) =~= Seq::empty());
    assert(name_views(out@) =~= Seq::empty());
    while i < list.len()
        invariant
            i <= list@.len(),
            strings_view(Some(list)) == Some(views),
            views.len() == list@.len(),
            name_views(out@) == present_strings(views.take(i as int)),
        decreases list@.len() - i,
    {
        proof {
            assert(views.take(i + 1).drop_last() =~= views.take(i as int));
            assert(views.take(i + 1).last() == views[i as int]);
        }
        match &list[i] {
            Some(s) => {
                let ghost before = out@;
                out.push(s.as_str().to_owned());
                assert(name_views(out@) =~= name_views(before).push(s@));
            },
            None => {},
        }
        i = i + 1;
    }
    assert(views.take(i as int) =~= views);
    if out.len() == 0 {
        assert(name_views(out@).len() == 0);
        None
    } else {
        Some(out)
    }
}

proof fn lemma_present_names(names: Seq<Seq<char>>)
    ensures
        present_strings(as_elements(names)) == names,
    decreases names.len(),
{
    let all = as_elements(names);
    if names.len() > 0 {
        assert(all.drop_last() =~= as_elements(names.drop_last()));
        lemma_present_names(names.drop_last());
        assert(names =~= names.drop_last().push(names.last()));
    } else {
        assert(present_strings(all) =~= names);
    }
}

/// The tables of a set of snapshots, from the text that lists them: those that a backup listed there.
pub fn manifest_tables(text: &str) -> (r: Option<Vec<String>>)
    ensures
        names_view(r) == listed_tables(json_strings(text@, "tables"@)),
        forall|names: Seq<Seq<char>>| #[trigger]
            lists_names(text@, names) && names.len() > 0 ==> names_view(r) == Some(names),
{
    let elements = json_string_array(text, "tables");
    proof {
        assert forall|names: Seq<Seq<char>>| #[trigger]
            lists_names(text@, names) && names.len() > 0 implies listed_tables(
            strings_view(elements),
        ) == Some(names) by {
            lemma_present_names(names);
        }
    }
    tables_in_list(elements)
}

/// Whether a table is listed, whatever the case of ASCII letters in its name.
pub open spec fn is_listed(table: Seq<char>, names: Seq<Seq<char>>) -> bool {
    exists|i: int|
        0 <= i < names.len() && ascii_lower(#[trigger] names[i]) == ascii_lower(table)
}

/// Whether a table is restored: it is listed, or there is no list.
pub open spec fn is_restored(table: Seq<char>, tables: Option<Seq<Seq<char>>>) -> bool {
    match tables {
        None => true,
        Some(names) => is_listed(table, names),
    }
}

/// Whether a table is restored: it is listed, or there is no list. A table that was dropped before
/// the backup is not.
pub fn table_is_restored(table: &str, tables: &Option<Vec<String>>) -> (r: bool)
    ensures
        r == is_restored(table@, names_view(*tables)),
{
    match tables {
        None => true,
        Some(names) => {
            let ghost views = name_views(names@);
            let mut i: usize = 0;
            while i < names.len()
                invariant
                    i <= names@.len(),
                    views == name_views(names@),
                    views.len() == names@.len(),
                    names_view(*tables) == Some(views),
                    forall|k: int|
                        0 <= k < i ==> ascii_lower(#[trigger] views[k]) != ascii_lower(table@),
                decreases names@.len() - i,
            {
                assert(views[i as int] == names@[i as int]@);
                if equal_ignoring_ascii_case(names[i].as_str(), table) {
                    return true;
                }
                i = i + 1;
            }
            false
        },
    }
}

// ---------------------------------------------------------------------------
// Files
// ---------------------------------------------------------------------------

/// Whether `name` is the last of `names` in the order of text.
pub open spec fn is_last(name: Seq<char>, names: Seq<Seq<char>>) -> bool {
    &&& names.contains(name)
    &&& forall|i: int| 0 <= i < names.len() ==> text_le(#[trigger] names[i], name)
}

/// Whether `name` is the first of `names` in the order of text.
pub open spec fn is_first(name: Seq<char>, names: Seq<Seq<char>>) -> bool {
    &&& names.contains(name)
    &&& forall|i: int| 0 <= i < names.len() ==> text_le(name, #[trigger] names[i])
}

fn last_name(names: &Vec<String>) -> (r: Option<String>)
    ensures
        match r {
            Some(n) => is_last(n@, name_views(names@)),
            None => names@.len() == 0,
        },
{
    let ghost views = name_views(names@);
    let mut best: Option<usize> = None;
    let mut i: usize = 0;
    while i < names.len()
        invariant
            i <= names@.len(),
            views == name_views(names@),
            match best {
                Some(b) => b < i && forall|k: int|
                    0 <= k < i ==> text_le(#[trigger] views[k], views[b as int]),
                None => i == 0,
            },
        decreases names@.len() - i,
    {
        assert(views[i as int] == names@[i as int]@);
        best = match best {
            None => {
                proof {
                    lemma_text_le_reflexive(views[i as int]);
                }
                Some(i)
            },
            Some(b) => {
                assert(views[b as int] == names@[b as int]@);
                if text_not_after(names[b].as_str(), names[i].as_str()) {
                    proof {
                        lemma_text_le_reflexive(views[i as int]);
                        assert forall|k: int| 0 <= k < i implies text_le(
                            #[trigger] views[k],
                            views[i as int],
                        ) by {
                            lemma_text_le_transitive(views[k], views[b as int], views[i as int]);
                        }
                    }
                    Some(i)
                } else {
                    proof {
                        lemma_text_le_total(views[b as int], views[i as int]);
                    }
                    Some(b)
                }
            },
        };
        i = i + 1;
    }
    match best {
        Some(b) => {
            assert(views.contains(views[b as int]));
            Some(names[b].as_str().to_owned())
        },
        None => None,
    }
}

/// The latest list of tables among the files of the snapshot directory.
pub fn latest_manifest(names: &[String]) -> (r: Option<String>)
    ensures
        ({
            let found = matching_names(name_views(names@), "manifest-"@, ".json"@);
            match r {
                Some(n) => is_last(n@, found),
                None => found.len() == 0,
            }
        }),
{
    let found = select_names(names, "manifest-", ".json");
    assert(name_views(found@).len() == found@.len());
    last_name(&found)
}

/// The view of an optional text.
pub open spec fn str_view(o: Option<&str>) -> Option<Seq<char>> {
    match o {
        Some(s) => Some(s@),
        None => None,
    }
}

/// The view of an optional owned text.
pub open spec fn string_view(o: Option<String>) -> Option<Seq<char>> {
    match o {
        Some(s) => Some(s@),
        None => None,
    }
}

/// A file in a table's directory.
#[derive(Debug)]
pub struct SnapshotCandidate {
    pub name: String,
    /// Whether it is an intact snapshot, and so is the volume file beside it where there is one.
    pub intact: bool,
}

/// A file with the given contents, where it could be read, and whether the volume file beside it,
/// where there is one, is intact.
pub fn snapshot_candidate(name: &str, data: Option<Vec<u8>>, volume: Option<bool>, now: i64) -> (c:
    SnapshotCandidate)
    ensures
        c.name@ == name@,
        c.intact == (volume != Some(false) && match data {
            Some(d) => read_file(d@, file_crc(d@), now as int) is Ok,
            None => false,
        }),
{
    let opens: bool = match data {
        Some(d) => SnapshotReader::open(d, now).is_ok(),
        None => false,
    };
    let volume_is_intact: bool = match volume {
        Some(v) => v,
        None => true,
    };
    SnapshotCandidate { name: name.to_owned(), intact: opens && volume_is_intact }
}

/// Whether a file is offered for a restore: it has the time stamp that is asked for, or, where none
/// is, the name of a snapshot.
pub open spec fn is_offered(name: Seq<char>, timestamp: Option<Seq<char>>) -> bool {
    match timestamp {
        Some(t) => name == snapshot_name(t),
        None => name_matches(name, "snapshot-"@, ".bin"@),
    }
}

/// Whether a file is offered for a restore among the files of a table.
pub open spec fn some_offered(files: Seq<SnapshotCandidate>, timestamp: Option<Seq<char>>) -> bool {
    exists|i: int| 0 <= i < files.len() && is_offered((#[trigger] files[i]).name@, timestamp)
}

/// The names of the intact files of a table that are offered for a restore.
pub open spec fn intact_offers(files: Seq<SnapshotCandidate>, timestamp: Option<Seq<char>>) -> Seq<
    Seq<char>,
>
    decreases files.len(),
{
    if files.len() == 0 {
        Seq::empty()
    } else {
        let before = intact_offers(files.drop_last(), timestamp);
        let f = files.last();
        if f.intact && is_offered(f.name@, timestamp) {
            before.push(f.name@)
        } else {
            before
        }
    }
}

/// What a restore takes of a table.
#[derive(Debug)]
pub enum TableChoice {
    /// Nothing: no file is offered.
    Nothing,
    /// None of the files that are offered is intact.
    Invalid,
    /// The file of this name.
    Snapshot(String),
}

/// Whether `choice` is what a restore takes of a table with the given files: the newest intact one of
/// those that are offered.
pub open spec fn is_taken(
    files: Seq<SnapshotCandidate>,
    timestamp: Option<Seq<char>>,
    choice: TableChoice,
) -> bool {
    match choice {
        TableChoice::Nothing => !some_offered(files, timestamp),
        TableChoice::Invalid => is_invalid(files, timestamp),
        TableChoice::Snapshot(name) => is_last(name@, intact_offers(files, timestamp)),
    }
}

/// Whether files are offered of a table, and none is intact.
pub open spec fn is_invalid(files: Seq<SnapshotCandidate>, timestamp: Option<Seq<char>>) -> bool {
    some_offered(files, timestamp) && intact_offers(files, timestamp).len() == 0
}

/// What a restore takes of a table with the given files. A damaged file is passed over where an older
/// one is intact, unless a time stamp is asked for.
pub fn choose_snapshot(files: &[SnapshotCandidate], timestamp: Option<&str>) -> (choice: TableChoice)
    ensures
        is_taken(files@, str_view(timestamp), choice),
{
    let ghost ts = str_view(timestamp);
    let target: Option<String> = match timestamp {
        Some(t) => Some(snapshot_file_name(t)),
        None => None,
    };
    let mut found: Vec<String> = Vec::new();
    let mut offered: bool = false;
    let mut i: usize = 0;
    assert(files@.take(0) =~= Seq::empty());
    assert(name_views(found@) =~= Seq::empty());
    while i < files.len()
        invariant
            i <= files@.len(),
            ts == str_view(timestamp),
            match ts {
                Some(t) => string_view(target) == Some(snapshot_name(t)),
                None => target is None,
            },
            name_views(found@) == intact_offers(files@.take(i as int), ts),
            offered == some_offered(files@.take(i as int), ts),
        decreases files@.len() - i,
    {
        let ghost before = files@.take(i as int);
        let ghost after = files@.take(i + 1);
        let ghost names = found@;
        proof {
            assert(after.drop_last() =~= before);
            assert(after.last() == files@[i as int]);
        }
        let matches: bool = match &target {
            Some(t) => files[i].name == *t,
            None => matches_name(files[i].name.as_str(), "snapshot-", ".bin"),
        };
        assert(matches == is_offered(files@[i as int].name@, ts));
        if matches && files[i].intact {
            found.push(files[i].name.as_str().to_owned());
            assert(name_views(found@) =~= name_views(names).push(files@[i as int].name@));
        }
        proof {
            if offered {
                let k = choose|k: int|
                    0 <= k < before.len() && is_offered((#[trigger] before[k]).name@, ts);
                assert(after[k] == before[k]);
            }
            if matches {
                assert(is_offered(after[i as int].name@, ts));
            }
            if some_offered(after, ts) {
                let k = choose|k: int|
                    0 <= k < after.len() && is_offered((#[trigger] after[k]).name@, ts);
                if k < i {
                    assert(before[k] == after[k]);
                }
            }
        }
        if matches {
            offered = true;
        }
        i = i + 1;
    }
    assert(files@.take(i as int) =~= files@);
    assert(name_views(found@).len() == found@.len());
    match last_name(&found) {
        Some(name) => TableChoice::Snapshot(name),
        None => if offered {
            TableChoice::Invalid
        } else {
            TableChoice::Nothing
        },
    }
}

/// A damaged file changes nothing of what is taken, where another is intact: the newest intact
/// snapshot of a table is restored, whatever newer files there are.
pub proof fn damaged_files_are_passed_over(
    files: Seq<SnapshotCandidate>,
    damaged: SnapshotCandidate,
    timestamp: Option<Seq<char>>,
    name: String,
)
    requires
        !damaged.intact,
        is_taken(files, timestamp, TableChoice::Snapshot(name)),
    ensures
        is_taken(files.push(damaged), timestamp, TableChoice::Snapshot(name)),
        !is_invalid(files.push(damaged), timestamp),
{
    assert(files.push(damaged).drop_last() =~= files);
    assert(intact_offers(files.push(damaged), timestamp) == intact_offers(files, timestamp));
}

/// A table's directory among the snapshots.
#[derive(Debug)]
pub struct TableFiles {
    pub table: String,
    pub files: Vec<SnapshotCandidate>,
}

/// A snapshot that is restored: the table's directory, by position, and the file in it.
#[derive(Debug)]
pub struct ChosenSnapshot {
    pub directory: usize,
    pub file: String,
}

/// Whether a directory gives nothing to a restore: its table is not restored, or no file is offered.
pub open spec fn gives_nothing(
    d: TableFiles,
    tables: Option<Seq<Seq<char>>>,
    timestamp: Option<Seq<char>>,
) -> bool {
    !is_restored(d.table@, tables) || !some_offered(d.files@, timestamp)
}

/// Whether a directory keeps a restore from going on: its table is restored, and none of the files
/// that are offered is intact.
pub open spec fn holds_up(
    d: TableFiles,
    tables: Option<Seq<Seq<char>>>,
    timestamp: Option<Seq<char>>,
) -> bool {
    is_restored(d.table@, tables) && is_invalid(d.files@, timestamp)
}

/// Whether `chosen` has, in order, the newest intact snapshot of each of the directories that gives
/// something.
pub open spec fn is_choice(
    chosen: Seq<ChosenSnapshot>,
    directories: Seq<TableFiles>,
    tables: Option<Seq<Seq<char>>>,
    timestamp: Option<Seq<char>>,
) -> bool
    decreases directories.len(),
{
    if directories.len() == 0 {
        chosen.len() == 0
    } else {
        let before = directories.drop_last();
        let d = directories.last();
        if gives_nothing(d, tables, timestamp) {
            is_choice(chosen, before, tables, timestamp)
        } else {
            &&& chosen.len() > 0
            &&& is_choice(chosen.drop_last(), before, tables, timestamp)
            &&& chosen.last().directory == directories.len() - 1
            &&& is_last(chosen.last().file@, intact_offers(d.files@, timestamp))
        }
    }
}

/// The list of tables that counts: none where a time stamp is asked for.
pub open spec fn counted_tables(
    tables: Option<Seq<Seq<char>>>,
    timestamp: Option<Seq<char>>,
) -> Option<Seq<Seq<char>>> {
    if timestamp is None {
        tables
    } else {
        None
    }
}

/// The snapshots that are restored: of each table the newest that is intact, or the one with the time
/// stamp that is asked for. A list of tables counts only where no time stamp is. Refused where no
/// file is offered, and where none that is offered of a table is intact.
pub fn choose_snapshots(
    directories: &[TableFiles],
    tables: &Option<Vec<String>>,
    timestamp: Option<&str>,
) -> (r: Result<Vec<ChosenSnapshot>, RestoreError>)
    ensures
        ({
            let ts = str_view(timestamp);
            let listed = counted_tables(names_view(*tables), ts);
            match r {
                Ok(chosen) => {
                    &&& chosen@.len() > 0
                    &&& is_choice(chosen@, directories@, listed, ts)
                    &&& forall|i: int|
                        0 <= i < directories@.len() ==> !holds_up(#[trigger] directories@[i], listed, ts)
                },
                Err(RestoreError::InvalidSnapshot { directory }) => {
                    &&& directory < directories@.len()
                    &&& holds_up(directories@[directory as int], listed, ts)
                    &&& forall|i: int|
                        0 <= i < directory ==> !holds_up(#[trigger] directories@[i], listed, ts)
                },
                Err(RestoreError::NoMatchingSnapshots) => forall|i: int|
                    0 <= i < directories@.len() ==> gives_nothing(
                        #[trigger] directories@[i],
                        listed,
                        ts,
                    ),
                Err(_) => false,
            }
        }),
{
    let ghost ts = str_view(timestamp);
    let ghost listed = counted_tables(names_view(*tables), ts);
    let mut chosen: Vec<ChosenSnapshot> = Vec::new();
    let mut i: usize = 0;
    assert(directories@.take(0) =~= Seq::empty());
    while i < directories.len()
        invariant
            i <= directories@.len(),
            ts == str_view(timestamp),
            listed == counted_tables(names_view(*tables), ts),
            is_choice(chosen@, directories@.take(i as int), listed, ts),
            forall|k: int| 0 <= k < i ==> !holds_up(#[trigger] directories@[k], listed, ts),
            chosen@.len() == 0 ==> forall|k: int|
                0 <= k < i ==> gives_nothing(#[trigger] directories@[k], listed, ts),
        decreases directories@.len() - i,
    {
        proof {
            assert(directories@.take(i + 1).drop_last() =~= directories@.take(i as int));
            assert(directories@.take(i + 1).last() == directories@[i as int]);
        }
        let wanted: bool = timestamp.is_some() || table_is_restored(
            directories[i].table.as_str(),
            tables,
        );
        assert(wanted == is_restored(directories@[i as int].table@, listed));
        if wanted {
            match choose_snapshot(directories[i].files.as_slice(), timestamp) {
                TableChoice::Snapshot(file) => {
                    let ghost before = chosen@;
                    let ghost name = file@;
                    chosen.push(ChosenSnapshot { directory: i, file });
                    proof {
                        assert(chosen@.drop_last() =~= before);
                        lemma_intact_is_offered(directories@[i as int].files@, ts, name);
                    }
                },
                TableChoice::Invalid => {
                    return Err(RestoreError::InvalidSnapshot { directory: i });
                },
                TableChoice::Nothing => {},
            }
        }
        i = i + 1;
    }
    assert(directories@.take(i as int) =~= directories@);
    if chosen.len() == 0 {
        Err(RestoreError::NoMatchingSnapshots)
    } else {
        Ok(chosen)
    }
}

proof fn lemma_intact_is_offered(
    files: Seq<SnapshotCandidate>,
    timestamp: Option<Seq<char>>,
    name: Seq<char>,
)
    requires
        intact_offers(files, timestamp).contains(name),
    ensures
        some_offered(files, timestamp),
        exists|i: int|
            0 <= i < files.len() && (#[trigger] files[i]).name@ == name && files[i].intact
                && is_offered(name, timestamp),
    decreases files.len(),
{
    let before = files.drop_last();
    let some = intact_offers(before, timestamp);
    let all = intact_offers(files, timestamp);
    let k = all.index_of(name);
    if k < some.len() {
        assert(some[k] == name);
        lemma_intact_is_offered(before, timestamp, name);
        let i = choose|i: int|
            0 <= i < before.len() && (#[trigger] before[i]).name@ == name && before[i].intact
                && is_offered(name, timestamp);
        assert(files[i] == before[i]);
    } else {
        assert(files[files.len() - 1].name@ == name);
    }
}

/// Every snapshot that is chosen is an intact file of its directory: nothing else is restored.
pub proof fn chosen_snapshots_are_intact(
    chosen: Seq<ChosenSnapshot>,
    directories: Seq<TableFiles>,
    tables: Option<Seq<Seq<char>>>,
    timestamp: Option<Seq<char>>,
    k: int,
)
    requires
        is_choice(chosen, directories, tables, timestamp),
        0 <= k < chosen.len(),
    ensures
        chosen[k].directory < directories.len(),
        exists|i: int|
            0 <= i < directories[chosen[k].directory as int].files@.len() && (
            #[trigger] directories[chosen[k].directory as int].files@[i]).intact
                && directories[chosen[k].directory as int].files@[i].name@ == chosen[k].file@,
    decreases directories.len(),
{
    if directories.len() > 0 {
        let before = directories.drop_last();
        let d = directories.last();
        if gives_nothing(d, tables, timestamp) {
            chosen_snapshots_are_intact(chosen, before, tables, timestamp, k);
            assert(before[chosen[k].directory as int] == directories[chosen[k].directory as int]);
        } else if k == chosen.len() - 1 {
            lemma_intact_is_offered(d.files@, timestamp, chosen[k].file@);
            assert(directories[chosen[k].directory as int] == d);
        } else {
            chosen_snapshots_are_intact(chosen.drop_last(), before, tables, timestamp, k);
            assert(before[chosen[k].directory as int] == directories[chosen[k].directory as int]);
        }
    }
}

/// The time stamps in the names of snapshot files, in order; names without one are passed over.
pub open spec fn timestamps_of(files: Seq<Seq<char>>) -> Seq<Seq<char>>
    decreases files.len(),
{
    if files.len() == 0 {
        Seq::empty()
    } else {
        let before = timestamps_of(files.drop_last());
        match timestamp_in_name(files.last()) {
            Some(t) => before.push(t),
            None => before,
        }
    }
}

/// The files of chosen snapshots.
pub open spec fn chosen_files(chosen: Seq<ChosenSnapshot>) -> Seq<Seq<char>> {
    chosen.map_values(|c: ChosenSnapshot| c.file@)
}

/// The time stamp of the indexes and views that are restored: the one that is asked for, or the
/// oldest of the chosen snapshots, so that they are no newer than any table's rows.
pub fn definitions_timestamp(chosen: &[ChosenSnapshot], timestamp: Option<&str>) -> (r: Option<
    String,
>)
    ensures
        match timestamp {
            Some(t) => string_view(r) == Some(t@),
            None => {
                let found = timestamps_of(chosen_files(chosen@));
                match r {
                    Some(t) => is_first(t@, found),
                    None => found.len() == 0,
                }
            },
        },
{
    match timestamp {
        Some(t) => {
            return Some(t.to_owned());
        },
        None => {},
    }
    let ghost files = chosen_files(chosen@);
    let mut best: Option<String> = None;
    let mut i: usize = 0;
    assert(files.take(0) =~= Seq::empty());
    while i < chosen.len()
        invariant
            i <= chosen@.len(),
            files == chosen_files(chosen@),
            match best {
                Some(t) => is_first(t@, timestamps_of(files.take(i as int))),
                None => timestamps_of(files.take(i as int)).len() == 0,
            },
        decreases chosen@.len() - i,
    {
        let ghost before = timestamps_of(files.take(i as int));
        proof {
            assert(files.take(i + 1).drop_last() =~= files.take(i as int));
            assert(files.take(i + 1).last() == chosen@[i as int].file@);
        }
        match snapshot_timestamp(chosen[i].file.as_str()) {
            None => {},
            Some(t) => {
                let ghost after = before.push(t@);
                proof {
                    assert(after[before.len() as int] == t@);
                    lemma_text_le_reflexive(t@);
                }
                best = match best {
                    None => {
                        assert(is_first(t@, after));
                        Some(t)
                    },
                    Some(b) => if text_not_after(b.as_str(), t.as_str()) {
                        proof {
                            let k = before.index_of(b@);
                            assert(after[k] == b@);
                            assert(is_first(b@, after)) by {
                                assert forall|m: int| 0 <= m < after.len() implies text_le(
                                    b@,
                                    #[trigger] after[m],
                                ) by {
                                    if m < before.len() {
                                        assert(text_le(b@, before[m]));
                                    }
                                }
                            }
                        }
                        Some(b)
                    } else {
                        proof {
                            lemma_text_le_total(b@, t@);
                            assert(is_first(t@, after)) by {
                                assert forall|m: int| 0 <= m < after.len() implies text_le(
                                    t@,
                                    #[trigger] after[m],
                                ) by {
                                    if m < before.len() {
                                        assert(text_le(b@, before[m]));
                                        lemma_text_le_transitive(t@, b@, before[m]);
                                    }
                                }
                            }
                        }
                        Some(t)
                    },
                };
            },
        }
        i = i + 1;
    }
    assert(files.take(i as int) =~= files);
    best
}

/// The name of the file with the indexes and views of a time stamp; the one without a time stamp
/// where there is none.
pub fn definitions_file(timestamp: &Option<String>) -> (name: String)
    ensures
        name@ == match string_view(*timestamp) {
            Some(t) => "ddl-"@ + t + ".bin"@,
            None => "ddl.bin"@,
        },
{
    match timestamp {
        Some(t) => ddl_file_name(t.as_str()),
        None => "ddl.bin".to_owned(),
    }
}

/// Where the indexes and views of a restore come from.
#[derive(Debug, Clone, Copy, PartialEq, Eq, Structural)]
pub enum DefinitionSource {
    /// From their file.
    File,
    /// From what the engine has before the restore.
    Memory,
}

/// Where the indexes and views of a restore come from, given whether their file exists and can be
/// read. A restore of a time stamp is refused without the file.
pub fn definition_source(file_exists: bool, readable: bool, timestamp: Option<&str>) -> (r: Result<
    DefinitionSource,
    RestoreError,
>)
    ensures
        match r {
            Ok(DefinitionSource::File) => file_exists && readable,
            Ok(DefinitionSource::Memory) => if file_exists {
                !readable
            } else {
                timestamp is None
            },
            Err(RestoreError::MissingDefinitions(t)) => !file_exists && str_view(timestamp) == Some(
                t@,
            ),
            Err(_) => false,
        },
{
    if file_exists {
        return Ok(
            if readable {
                DefinitionSource::File
            } else {
                DefinitionSource::Memory
            },
        );
    }
    match timestamp {
        Some(t) => Err(RestoreError::MissingDefinitions(t.to_owned())),
        None => Ok(DefinitionSource::Memory),
    }
}

// ---------------------------------------------------------------------------
// Progress
// ---------------------------------------------------------------------------

/// What a restore has loaded.
#[derive(Debug, Clone, Copy, PartialEq, Eq, Structural)]
pub struct RestoreProgress {
    pub tables: u32,
    pub rows: u64,
}

impl RestoreProgress {
    /// A restore before its first table.
    pub fn new() -> (p: RestoreProgress)
        ensures
            p == (RestoreProgress { tables: 0, rows: 0 }),
    {
        RestoreProgress { tables: 0, rows: 0 }
    }

    /// Notes a table that was loaded, with its rows in memory and in volumes.
    pub fn table_loaded(&mut self, hot_rows: u64, cold_rows: u64)
        requires
            old(self).tables < u32::MAX,
            old(self).rows + hot_rows + cold_rows <= u64::MAX,
        ensures
            *final(self) == (RestoreProgress {
                tables: (old(self).tables + 1) as u32,
                rows: (old(self).rows + hot_rows + cold_rows) as u64,
            }),
    {
        self.tables = self.tables + 1;
        self.rows = self.rows + hot_rows + cold_rows;
    }

    /// Whether what was loaded is made durable when a table fails to load: where something was.
    pub fn keeps_partial_restore(&self) -> (r: bool)
        ensures
            r == (self.tables > 0),
    {
        self.tables > 0
    }

    /// What a finished restore says.
    pub fn message(&self) -> (text: String)
        ensures
            text@ == "Restored "@ + decimal(self.tables as nat) + " tables ("@ + decimal(
                self.rows as nat,
            ) + " rows) from snapshot"@,
    {
        let tables = decimal_text(self.tables as u64);
        let rows = decimal_text(self.rows);
        let mut text = join3("Restored ", tables.as_str(), " tables (");
        text.append(rows.as_str());
        text.append(" rows) from snapshot");
        text
    }
}

} // verus!
