//! The file beside a set of snapshots that holds the indexes and views of the database.

use crate::bytes::{
    le_bytes, le_to_u64, le_value, lemma_byte_range, lemma_join_assoc, lemma_join_nothing,
    lemma_le_bytes_len, lemma_le_round_trip, lemma_split_bytes, lemma_split_le, push_bytes, push_le,
    skip_bytes, split_bytes, split_le, take_bytes, take_u16, take_u32,
};
use crate::checksum::{changed_byte_breaks_the_seal, checksum, crc32, one_byte_apart};
use crate::schema_format::{fits16, text16};
use crate::text::{lemma_utf8_round_trip, utf8_lossy, utf8_string_lossy};
use crate::view_def::{ViewDefinition, ViewV, view_bytes, view_of};
use vstd::prelude::*;
use vstd::slice::*;
use vstd::utf8::*;

verus! {

/// An entry behind its length in four bytes.
pub open spec fn entry_bytes(e: Seq<u8>) -> Seq<u8> {
    le_bytes(e.len(), 4) + e
}

/// Entries one behind the other.
pub open spec fn entries_bytes(es: Seq<Seq<u8>>) -> Seq<u8>
    decreases es.len(),
{
    if es.len() == 0 {
        Seq::empty()
    } else {
        entry_bytes(es[0]) + entries_bytes(es.skip(1))
    }
}

/// The first five bytes of the file: `SDDL` and the version.
pub open spec fn ddl_head() -> Seq<u8> {
    seq![0x53u8, 0x44u8, 0x44u8, 0x4Cu8, 1u8]
}

/// What the file's checksum covers.
pub open spec fn ddl_payload(indexes: Seq<Seq<u8>>, views: Seq<Seq<u8>>) -> Seq<u8> {
    ddl_head() + ((le_bytes(indexes.len(), 4) + entries_bytes(indexes)) + (le_bytes(views.len(), 4)
        + entries_bytes(views)))
}

/// The file's contents: what its checksum covers, and the checksum.
pub open spec fn ddl_bytes(indexes: Seq<Seq<u8>>, views: Seq<Seq<u8>>) -> Seq<u8> {
    ddl_payload(indexes, views) + le_bytes(crc32(ddl_payload(indexes, views)) as nat, 4)
}

/// `count` entries at the front of `b`, as far as they are whole, and where the reading stops.
pub open spec fn read_entries(b: Seq<u8>, count: nat) -> (Seq<Seq<u8>>, Seq<u8>)
    decreases count,
{
    if count == 0 {
        (Seq::empty(), b)
    } else {
        match split_le(b, 4) {
            None => (Seq::empty(), b),
            Some((n, b1)) => match split_bytes(b1, n) {
                None => (Seq::empty(), b1),
                Some((e, b2)) => {
                    let (es, rest) = read_entries(b2, (count - 1) as nat);
                    (seq![e] + es, rest)
                },
            },
        }
    }
}

/// The view in an entry; what is not UTF-8 in it is replaced. None where the entry is cut short.
pub open spec fn read_lossy_view(e: Seq<u8>) -> Option<ViewV> {
    match split_le(e, 2) {
        None => None,
        Some((n, b1)) => match split_bytes(b1, n) {
            None => None,
            Some((name, b2)) => match split_le(b2, 4) {
                None => None,
                Some((m, b3)) => match split_bytes(b3, m) {
                    None => None,
                    Some((query, b4)) => Some(view_of(lossy_text(name), lossy_text(query))),
                },
            },
        },
    }
}

/// The text that bytes stand for: decoded where they are UTF-8, else with replacements.
pub open spec fn lossy_text(b: Seq<u8>) -> Seq<char> {
    if valid_utf8(b) {
        decode_utf8(b)
    } else {
        utf8_lossy(b)
    }
}

/// The views in entries, without those that are cut short.
pub open spec fn read_views(es: Seq<Seq<u8>>) -> Seq<ViewV>
    decreases es.len(),
{
    if es.len() == 0 {
        Seq::empty()
    } else {
        let before = read_views(es.drop_last());
        match read_lossy_view(es.last()) {
            Some(v) => before.push(v),
            None => before,
        }
    }
}

/// Whether `data` is such a file, intact, given what the checksum of all but its last four bytes is.
pub open spec fn ddl_intact(data: Seq<u8>, computed: u32) -> bool {
    &&& data.len() >= 9
    &&& data.take(4) == ddl_head().take(4)
    &&& le_value(data.skip(data.len() - 4)) == computed
}

/// The index entries and the views in the file, given what the checksum of all but its last four
/// bytes is; nothing where the file is not intact.
pub open spec fn read_ddl(data: Seq<u8>, computed: u32) -> (Seq<Seq<u8>>, Seq<ViewV>) {
    if !ddl_intact(data, computed) {
        (Seq::empty(), Seq::empty())
    } else {
        match split_le(data.skip(5), 4) {
            None => (Seq::empty(), Seq::empty()),
            Some((count, b1)) => {
                let (indexes, b2) = read_entries(b1, count);
                match split_le(b2, 4) {
                    None => (indexes, Seq::empty()),
                    Some((n, b3)) => (indexes, read_views(read_entries(b3, n).0)),
                }
            },
        }
    }
}

/// The views of a list of byte strings.
pub open spec fn entry_views(es: Seq<Vec<u8>>) -> Seq<Seq<u8>> {
    es.map_values(|e: Vec<u8>| e@)
}

/// The views of a list of view definitions.
pub open spec fn definition_views(vs: Seq<ViewDefinition>) -> Seq<ViewV> {
    vs.map_values(|v: ViewDefinition| v@)
}

/// View definitions as entries of the file.
pub open spec fn view_entries(vs: Seq<ViewV>) -> Seq<Seq<u8>> {
    vs.map_values(|v: ViewV| view_bytes(v))
}

fn push_entries(out: &mut Vec<u8>, entries: &[Vec<u8>])
    ensures
        final(out)@ == old(out)@ + (le_bytes(entries@.len(), 4) + entries_bytes(
            entry_views(entries@),
        )),
{
    let ghost views = entry_views(entries@);
    let ghost start = out@;
    push_le(out, entries.len() as u64, 4);
    let ghost counted = out@;
    let mut i: usize = 0;
    assert(views.skip(0) =~= views);
    while i < entries.len()
        invariant
            i <= entries@.len(),
            views == entry_views(entries@),
            out@ + entries_bytes(views.skip(i as int)) == counted + entries_bytes(views),
        decreases entries@.len() - i,
    {
        let ghost before = out@;
        push_le(out, entries[i].len() as u64, 4);
        push_bytes(out, entries[i].as_slice());
        proof {
            let tail = views.skip(i as int);
            let e = entries@[i as int]@;
            assert(tail.skip(1) =~= views.skip(i + 1));
            assert(tail[0] == e);
            lemma_join_assoc(before, le_bytes(e.len(), 4), e);
            lemma_join_assoc(before, entry_bytes(e), entries_bytes(tail.skip(1)));
        }
        i = i + 1;
    }
    proof {
        assert(entries_bytes(views.skip(i as int)) =~= Seq::empty());
        lemma_join_nothing(out@);
        lemma_join_assoc(start, le_bytes(entries@.len(), 4), entries_bytes(views));
    }
}

/// The file's contents for index entries and views.
pub fn encode_ddl(indexes: &[Vec<u8>], views: &[ViewDefinition]) -> (data: Vec<u8>)
    ensures
        data@ == ddl_bytes(entry_views(indexes@), view_entries(definition_views(views@))),
{
    let mut entries: Vec<Vec<u8>> = Vec::new();
    let ghost goal = view_entries(definition_views(views@));
    let mut i: usize = 0;
    while i < views.len()
        invariant
            i <= views@.len(),
            goal == view_entries(definition_views(views@)),
            entry_views(entries@) == goal.take(i as int),
        decreases views@.len() - i,
    {
        let entry = views[i].serialize();
        let ghost before = entries@;
        entries.push(entry);
        proof {
            assert(entry_views(entries@) =~= entry_views(before).push(entry@));
            assert(goal.take(i + 1) =~= goal.take(i as int).push(entry@));
        }
        i = i + 1;
    }
    assert(goal.take(i as int) =~= goal);
    let mut data: Vec<u8> = Vec::new();
    data.push(0x53);
    data.push(0x44);
    data.push(0x44);
    data.push(0x4C);
    data.push(1);
    assert(data@ =~= ddl_head());
    push_entries(&mut data, indexes);
    push_entries(&mut data, entries.as_slice());
    proof {
        let x = entry_views(indexes@);
        lemma_join_assoc(
            ddl_head(),
            le_bytes(x.len(), 4) + entries_bytes(x),
            le_bytes(goal.len(), 4) + entries_bytes(goal),
        );
        assert(data@ == ddl_payload(x, goal));
    }
    let crc: u32 = checksum(data.as_slice());
    push_le(&mut data, crc as u64, 4);
    data
}

fn read_entry_list(input: &[u8], count: usize) -> (r: (Vec<Vec<u8>>, &[u8]))
    ensures
        (entry_views(r.0@), r.1@) == read_entries(input@, count as nat),
{
    let mut entries: Vec<Vec<u8>> = Vec::new();
    let mut rest: &[u8] = input;
    let mut i: usize = 0;
    let ghost goal = read_entries(input@, count as nat);
    proof {
        assert(entry_views(entries@) =~= Seq::empty());
        assert(entry_views(entries@) + goal.0 =~= goal.0);
    }
    while i < count
        invariant
            i <= count,
            goal == read_entries(input@, count as nat),
            goal == ({
                let tail = read_entries(rest@, (count - i) as nat);
                (entry_views(entries@) + tail.0, tail.1)
            }),
        decreases count - i,
    {
        match take_u32(rest) {
            None => {
                assert(entry_views(entries@) + Seq::<Seq<u8>>::empty() =~= entry_views(entries@));
                return (entries, rest);
            },
            Some((n, b1)) => match take_bytes(b1, n as usize) {
                None => {
                    assert(entry_views(entries@) + Seq::<Seq<u8>>::empty() =~= entry_views(
                        entries@,
                    ));
                    return (entries, b1);
                },
                Some((e, b2)) => {
                    let ghost before = entries@;
                    entries.push(slice_to_vec(e));
                    proof {
                        let more = read_entries(b2@, (count - i - 1) as nat).0;
                        assert(entry_views(entries@) =~= entry_views(before).push(e@));
                        assert(entry_views(before) + (seq![e@] + more) =~= entry_views(entries@)
                            + more);
                    }
                    rest = b2;
                    i = i + 1;
                },
            },
        }
    }
    assert(entry_views(entries@) + Seq::<Seq<u8>>::empty() =~= entry_views(entries@));
    (entries, rest)
}

fn text_of(bytes: &[u8]) -> (r: String)
    ensures
        r@ == lossy_text(bytes@),
{
    utf8_string_lossy(bytes)
}

fn read_lossy_view_entry(entry: &[u8]) -> (r: Option<ViewDefinition>)
    ensures
        match r {
            Some(v) => read_lossy_view(entry@) == Some(v@),
            None => read_lossy_view(entry@) is None,
        },
{
    let (n, b1) = match take_u16(entry) {
        Some(v) => v,
        None => {
            return None;
        },
    };
    let (name, b2) = match take_bytes(b1, n as usize) {
        Some(v) => v,
        None => {
            return None;
        },
    };
    let (m, b3) = match take_u32(b2) {
        Some(v) => v,
        None => {
            return None;
        },
    };
    match take_bytes(b3, m as usize) {
        Some((query, _)) => {
            let name = text_of(name);
            Some(ViewDefinition::new(name.as_str(), text_of(query)))
        },
        None => None,
    }
}

fn read_view_list(entries: &Vec<Vec<u8>>) -> (r: Vec<ViewDefinition>)
    ensures
        definition_views(r@) == read_views(entry_views(entries@)),
{
    let ghost views = entry_views(entries@);
    let mut out: Vec<ViewDefinition> = Vec::new();
    let mut i: usize = 0;
    assert(views.take(0) =~= Seq::empty());
    assert(definition_views(out@) =~= Seq::empty());
    while i < entries.len()
        invariant
            i <= entries@.len(),
            views == entry_views(entries@),
            definition_views(out@) == read_views(views.take(i as int)),
        decreases entries@.len() - i,
    {
        proof {
            assert(views.take(i + 1).drop_last() =~= views.take(i as int));
            assert(views.take(i + 1).last() == entries@[i as int]@);
        }
        match read_lossy_view_entry(entries[i].as_slice()) {
            Some(v) => {
                let ghost before = out@;
                let ghost vv = v@;
                out.push(v);
                assert(definition_views(out@) =~= definition_views(before).push(vv));
            },
            None => {},
        }
        i = i + 1;
    }
    assert(views.take(i as int) =~= views);
    out
}

/// The index entries and the views in a file, given the checksum of all but its last four bytes.
pub fn decode_checked_ddl(data: &[u8], computed: u32) -> (r: (Vec<Vec<u8>>, Vec<ViewDefinition>))
    ensures
        (entry_views(r.0@), definition_views(r.1@)) == read_ddl(data@, computed),
{
    let no_entries: Vec<Vec<u8>> = Vec::new();
    let no_views: Vec<ViewDefinition> = Vec::new();
    assert(entry_views(no_entries@) =~= Seq::empty());
    assert(definition_views(no_views@) =~= Seq::empty());
    if data.len() < 9 {
        return (no_entries, no_views);
    }
    let ghost head = ddl_head().take(4);
    let is_ddl: bool = data[0] == 0x53 && data[1] == 0x44 && data[2] == 0x44 && data[3] == 0x4C;
    proof {
        if is_ddl {
            assert(data@.take(4) =~= head);
        } else {
            assert(data@.take(4)[0] == data@[0] && data@.take(4)[1] == data@[1] && data@.take(4)[2]
                == data@[2] && data@.take(4)[3] == data@[3]);
            assert(head[0] == 0x53 && head[1] == 0x44 && head[2] == 0x44 && head[3] == 0x4C);
        }
    }
    if !is_ddl {
        return (no_entries, no_views);
    }
    if le_to_u64(skip_bytes(data, data.len() - 4)) != computed as u64 {
        return (no_entries, no_views);
    }
    let (count, b1) = match take_u32(skip_bytes(data, 5)) {
        Some(v) => v,
        None => {
            return (no_entries, no_views);
        },
    };
    let (indexes, b2) = read_entry_list(b1, count as usize);
    match take_u32(b2) {
        None => (indexes, no_views),
        Some((n, b3)) => {
            let (entries, _) = read_entry_list(b3, n as usize);
            (indexes, read_view_list(&entries))
        },
    }
}

/// The index entries and the views in a file; nothing where it is damaged.
pub fn decode_ddl(data: &[u8]) -> (r: (Vec<Vec<u8>>, Vec<ViewDefinition>))
    ensures
        (entry_views(r.0@), definition_views(r.1@)) == read_ddl(
            data@,
            crc32(data@.take(data@.len() - 4)),
        ),
{
    if data.len() < 9 {
        return decode_checked_ddl(data, 0);
    }
    let payload = slice_subrange(data, 0, data.len() - 4);
    assert(payload@ =~= data@.take(data@.len() - 4));
    let computed: u32 = checksum(payload);
    decode_checked_ddl(data, computed)
}

// ---------------------------------------------------------------------------
// What is written is read back
// ---------------------------------------------------------------------------

proof fn lemma_read_entries(es: Seq<Seq<u8>>, rest: Seq<u8>)
    requires
        forall|i: int| 0 <= i < es.len() ==> (#[trigger] es[i]).len() < 0x1_0000_0000,
    ensures
        read_entries(entries_bytes(es) + rest, es.len()) == (es, rest),
    decreases es.len(),
{
    if es.len() == 0 {
        assert(entries_bytes(es) + rest =~= rest);
        assert(es =~= Seq::empty());
    } else {
        let more = es.skip(1);
        let r1 = entries_bytes(more) + rest;
        lemma_byte_range();
        lemma_join_assoc(entry_bytes(es[0]), entries_bytes(more), rest);
        lemma_join_assoc(le_bytes(es[0].len(), 4), es[0], r1);
        lemma_split_le(es[0].len(), 4, es[0] + r1);
        lemma_split_bytes(es[0], r1);
        assert(forall|i: int| 0 <= i < more.len() ==> #[trigger] more[i] == es[i + 1]);
        lemma_read_entries(more, rest);
        assert(seq![es[0]] + more =~= es);
    }
}

/// Whether a view is one that its name and query make, and its lengths fit.
pub open spec fn storable_view(v: ViewV) -> bool {
    &&& v == view_of(v.original_name, v.query)
    &&& fits16(v.original_name)
    &&& view_bytes(v).len() < 0x1_0000_0000
}

proof fn lemma_read_lossy_view(v: ViewV)
    requires
        storable_view(v),
    ensures
        read_lossy_view(view_bytes(v)) == Some(v),
{
    reveal(text16);
    let n = encode_utf8(v.original_name);
    let q = encode_utf8(v.query);
    let x1 = le_bytes(q.len(), 4) + q;
    let nothing = Seq::<u8>::empty();
    lemma_byte_range();
    lemma_utf8_round_trip(v.original_name);
    lemma_utf8_round_trip(v.query);
    lemma_le_bytes_len(n.len(), 2);
    lemma_le_bytes_len(q.len(), 4);
    lemma_join_assoc(le_bytes(n.len(), 2), n, x1);
    lemma_split_le(n.len(), 2, n + x1);
    lemma_split_bytes(n, x1);
    lemma_split_le(q.len(), 4, q);
    lemma_join_nothing(q);
    lemma_split_bytes(q, nothing);
}

proof fn lemma_read_views(vs: Seq<ViewV>)
    requires
        forall|i: int| 0 <= i < vs.len() ==> storable_view(#[trigger] vs[i]),
    ensures
        read_views(view_entries(vs)) == vs,
    decreases vs.len(),
{
    if vs.len() == 0 {
        assert(view_entries(vs) =~= Seq::empty());
        assert(vs =~= Seq::empty());
    } else {
        let before = vs.drop_last();
        assert forall|i: int| 0 <= i < before.len() implies storable_view(#[trigger] before[i]) by {
            assert(storable_view(vs[i]));
        }
        lemma_read_views(before);
        assert(storable_view(vs[vs.len() - 1]));
        lemma_read_lossy_view(vs.last());
        assert(view_entries(vs).drop_last() =~= view_entries(before));
        assert(before.push(vs.last()) =~= vs);
    }
}

/// The indexes and views that were written are read back, where every length fits.
pub proof fn ddl_round_trip(indexes: Seq<Seq<u8>>, views: Seq<ViewV>)
    requires
        indexes.len() < 0x1_0000_0000,
        views.len() < 0x1_0000_0000,
        forall|i: int| 0 <= i < indexes.len() ==> (#[trigger] indexes[i]).len() < 0x1_0000_0000,
        forall|i: int| 0 <= i < views.len() ==> storable_view(#[trigger] views[i]),
    ensures
        ({
            let data = ddl_bytes(indexes, view_entries(views));
            read_ddl(data, crc32(data.take(data.len() - 4))) == (indexes, views)
        }),
{
    let es = view_entries(views);
    let payload = ddl_payload(indexes, es);
    let tail = le_bytes(crc32(payload) as nat, 4);
    let data = ddl_bytes(indexes, es);
    lemma_byte_range();
    lemma_le_round_trip(crc32(payload) as nat, 4);
    lemma_le_bytes_len(indexes.len(), 4);
    lemma_le_bytes_len(es.len(), 4);
    assert(data.take(data.len() - 4) =~= payload);
    assert(data.skip(data.len() - 4) =~= tail);
    let a = le_bytes(indexes.len(), 4);
    let b = entries_bytes(indexes);
    let c = le_bytes(es.len(), 4);
    let d = entries_bytes(es);
    assert(data.take(4) =~= ddl_head().take(4));
    let r3 = d + tail;
    let r2 = c + r3;
    let r1 = b + r2;
    assert(data.skip(5) =~= a + r1) by {
        lemma_join_assoc(ddl_head(), (a + b) + (c + d), tail);
        lemma_join_assoc(a + b, c + d, tail);
        lemma_join_assoc(a, b, (c + d) + tail);
        lemma_join_assoc(c, d, tail);
        assert((ddl_head() + (a + r1)).skip(5) =~= a + r1);
    }
    lemma_split_le(indexes.len(), 4, r1);
    lemma_read_entries(indexes, r2);
    lemma_split_le(es.len(), 4, r3);
    assert forall|i: int| 0 <= i < es.len() implies (#[trigger] es[i]).len() < 0x1_0000_0000 by {
        assert(storable_view(views[i]));
    }
    lemma_read_entries(es, tail);
    lemma_read_views(views);
}

/// A file whose last four bytes are not the checksum of the rest gives nothing.
pub proof fn damaged_ddl_gives_nothing(data: Seq<u8>)
    requires
        data.len() >= 4,
        le_value(data.skip(data.len() - 4)) != crc32(data.take(data.len() - 4)),
    ensures
        read_ddl(data, crc32(data.take(data.len() - 4))) == (
            Seq::<Seq<u8>>::empty(),
            Seq::<ViewV>::empty(),
        ),
{
}

/// A written file in which one byte was changed gives nothing.
pub proof fn changed_ddl_gives_nothing(
    indexes: Seq<Seq<u8>>,
    views: Seq<Seq<u8>>,
    data: Seq<u8>,
    i: int,
)
    requires
        one_byte_apart(ddl_bytes(indexes, views), data, i),
    ensures
        read_ddl(data, crc32(data.take(data.len() - 4))) == (
            Seq::<Seq<u8>>::empty(),
            Seq::<ViewV>::empty(),
        ),
{
    let payload = ddl_payload(indexes, views);
    lemma_le_bytes_len(crc32(payload) as nat, 4);
    changed_byte_breaks_the_seal(payload, data, i);
    assert(data.skip(data.len() - 4) =~= data.subrange(data.len() - 4, data.len() as int));
    damaged_ddl_gives_nothing(data);
}

} // verus!
