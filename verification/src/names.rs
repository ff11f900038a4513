//! The names of the engine's files, and which files are kept.

use crate::key_order::{is_permutation, reordered};
use crate::text::{
    digit_char, digit_value, digits_value, hex_digits, hex_text, join3, lemma_text_le_total,
    lemma_text_le_transitive, parse_u64, strip_prefix, strip_suffix, text_le, text_not_after,
    u64_in_text, without_prefix, without_suffix,
};
use vstd::prelude::*;
use vstd::string::*;

verus! {

// ---------------------------------------------------------------------------
// Volumes
// ---------------------------------------------------------------------------

/// The name of the file of the volume `id`.
pub open spec fn volume_name(id: u64) -> Seq<char> {
    "vol_"@ + hex_digits(id as nat, 16) + ".vol"@
}

/// The identity of the volume whose file is called `name`.
pub open spec fn volume_in_name(name: Seq<char>) -> Option<u64> {
    match without_prefix(name, "vol_"@) {
        None => None,
        Some(rest) => match without_suffix(rest, ".vol"@) {
            None => None,
            Some(digits) => u64_in_text(digits, 16),
        },
    }
}

/// The name of the file of the volume `id`.
pub fn volume_file_name(id: u64) -> (name: String)
    ensures
        name@ == volume_name(id),
{
    let digits = hex_text(id, 16);
    join3("vol_", digits.as_str(), ".vol")
}

/// The identity of the volume whose file is called `name`.
pub fn parse_volume_id(name: &str) -> (r: Option<u64>)
    ensures
        r == volume_in_name(name@),
{
    match strip_prefix(name, "vol_") {
        None => None,
        Some(rest) => match strip_suffix(rest, ".vol") {
            None => None,
            Some(digits) => parse_u64(digits, 16),
        },
    }
}

/// 16 to the power `n`.
spec fn pow16(n: nat) -> nat
    decreases n,
{
    if n == 0 {
        1
    } else {
        16 * pow16((n - 1) as nat)
    }
}

proof fn lemma_hex_digits(v: nat, width: nat)
    requires
        v < pow16(width),
    ensures
        hex_digits(v, width).len() == width,
        digits_value(hex_digits(v, width), 16) == v,
        forall|i: int|
            0 <= i < width ==> digit_value(#[trigger] hex_digits(v, width)[i]) < 16 && hex_digits(
                v,
                width,
            )[i] != '+',
    decreases width,
{
    if width > 0 {
        let shorter = hex_digits(v / 16, (width - 1) as nat);
        assert(v / 16 < pow16((width - 1) as nat));
        lemma_hex_digits(v / 16, (width - 1) as nat);
        let all = hex_digits(v, width);
        assert(all.drop_last() =~= shorter);
        let d = v % 16;
        assert(digit_value(digit_char(d)) == d && digit_char(d) != '+');
        assert forall|i: int| 0 <= i < width implies digit_value(#[trigger] all[i]) < 16 && all[i]
            != '+' by {
            if i < width - 1 {
                assert(all[i] == shorter[i]);
            }
        }
    }
}

/// Every volume is found again under the name of its file.
pub proof fn volume_name_round_trip(id: u64)
    ensures
        volume_in_name(volume_name(id)) == Some(id),
{
    let digits = hex_digits(id as nat, 16);
    assert(pow16(16) == 0x1_0000_0000_0000_0000) by {
        reveal_with_fuel(pow16, 17);
    }
    lemma_hex_digits(id as nat, 16);
    lemma_name_parts("vol_"@, digits, ".vol"@);
    assert(digits[0] != '+');
}

/// The middle of a name is found between its prefix and its suffix.
pub proof fn lemma_name_parts(prefix: Seq<char>, middle: Seq<char>, suffix: Seq<char>)
    ensures
        without_prefix(prefix + middle + suffix, prefix) == Some(middle + suffix),
        without_suffix(middle + suffix, suffix) == Some(middle),
{
    let name = prefix + middle + suffix;
    assert(prefix.is_prefix_of(name)) by {
        assert(name.take(prefix.len() as int) =~= prefix);
    }
    assert(name.skip(prefix.len() as int) =~= middle + suffix);
    assert(suffix.is_suffix_of(middle + suffix)) by {
        assert((middle + suffix).skip(middle.len() as int) =~= suffix);
    }
    assert((middle + suffix).take(middle.len() as int) =~= middle);
}

// ---------------------------------------------------------------------------
// Snapshots
// ---------------------------------------------------------------------------

/// The name of the file of a snapshot with the given time stamp.
pub open spec fn snapshot_name(timestamp: Seq<char>) -> Seq<char> {
    "snapshot-"@ + timestamp + ".bin"@
}

/// The time stamp in the name of a snapshot's file.
pub open spec fn timestamp_in_name(name: Seq<char>) -> Option<Seq<char>> {
    match without_prefix(name, "snapshot-"@) {
        None => None,
        Some(rest) => without_suffix(rest, ".bin"@),
    }
}

/// The name of the file of a snapshot with the given time stamp.
pub fn snapshot_file_name(timestamp: &str) -> (name: String)
    ensures
        name@ == snapshot_name(timestamp@),
{
    join3("snapshot-", timestamp, ".bin")
}

/// The name of the file with the indexes and views of the snapshots with the given time stamp.
pub fn ddl_file_name(timestamp: &str) -> (name: String)
    ensures
        name@ == "ddl-"@ + timestamp@ + ".bin"@,
{
    join3("ddl-", timestamp, ".bin")
}

/// The name of the file that lists the tables of the snapshots with the given time stamp.
pub fn manifest_file_name(timestamp: &str) -> (name: String)
    ensures
        name@ == "manifest-"@ + timestamp@ + ".json"@,
{
    join3("manifest-", timestamp, ".json")
}

/// The time stamp in the name of a snapshot's file.
pub fn snapshot_timestamp(name: &str) -> (r: Option<String>)
    ensures
        match r {
            Some(t) => timestamp_in_name(name@) == Some(t@),
            None => timestamp_in_name(name@) is None,
        },
{
    match strip_prefix(name, "snapshot-") {
        None => None,
        Some(rest) => match strip_suffix(rest, ".bin") {
            None => None,
            Some(t) => Some(t.to_owned()),
        },
    }
}

/// The time stamp of a snapshot is found again in the name of its file.
pub proof fn snapshot_name_round_trip(timestamp: Seq<char>)
    ensures
        timestamp_in_name(snapshot_name(timestamp)) == Some(timestamp),
{
    lemma_name_parts("snapshot-"@, timestamp, ".bin"@);
}

// ---------------------------------------------------------------------------
// Lists of names
// ---------------------------------------------------------------------------

/// The views of a list of names.
pub open spec fn name_views(names: Seq<String>) -> Seq<Seq<char>> {
    names.map_values(|n: String| n@)
}

/// Whether `name` begins with `prefix` and ends with `suffix`.
pub open spec fn name_matches(name: Seq<char>, prefix: Seq<char>, suffix: Seq<char>) -> bool {
    prefix.is_prefix_of(name) && suffix.is_suffix_of(name)
}

/// The names that begin with `prefix` and end with `suffix`, in order.
pub open spec fn matching_names(names: Seq<Seq<char>>, prefix: Seq<char>, suffix: Seq<char>) -> Seq<
    Seq<char>,
> {
    names.filter(|n: Seq<char>| name_matches(n, prefix, suffix))
}

/// Whether every name stands at or before those behind it, in the order of text.
pub open spec fn in_text_order(names: Seq<Seq<char>>) -> bool {
    forall|i: int, j: int|
        0 <= i < j < names.len() ==> text_le(#[trigger] names[i], #[trigger] names[j])
}

/// Calls `<[String]>::sort`: the same names in the order of text.
#[verifier::external_body]
pub(crate) fn sort_names(names: &mut Vec<String>)
    ensures
        name_views(final(names)@).to_multiset() == name_views(old(names)@).to_multiset(),
        in_text_order(name_views(final(names)@)),
{
    names.sort()
}

/// The names in the order of text.
pub fn sorted_names(names: Vec<String>) -> (r: Vec<String>)
    ensures
        name_views(r@).to_multiset() == name_views(names@).to_multiset(),
        in_text_order(name_views(r@)),
{
    let mut r = names;
    sort_names(&mut r);
    r
}

/// The views of borrowed names.
pub open spec fn str_views(names: Seq<&str>) -> Seq<Seq<char>> {
    names.map_values(|n: &str| n@)
}

/// The positions of names in the order of text.
pub fn name_order(names: &[&str]) -> (order: Vec<usize>)
    ensures
        is_permutation(order@, names@.len()),
        in_text_order(reordered(str_views(names@), order@)),
{
    let ghost views = str_views(names@);
    let mut order: Vec<usize> = Vec::new();
    let mut i: usize = 0;
    while i < names.len()
        invariant
            i <= names@.len(),
            views == str_views(names@),
            is_permutation(order@, i as nat),
            in_text_order(reordered(views, order@)),
        decreases names@.len() - i,
    {
        let ghost before = order@;
        let ghost sorted = reordered(views, before);
        let name = names[i];
        assert(name@ == views[i as int]);
        let mut k: usize = 0;
        while k < order.len() && text_not_after(names[order[k]], name)
            invariant
                i < names@.len(),
                name@ == views[i as int],
                views == str_views(names@),
                order@ == before,
                is_permutation(before, i as nat),
                sorted == reordered(views, before),
                k <= before.len(),
                forall|m: int| 0 <= m < k ==> text_le(#[trigger] sorted[m], name@),
            decreases before.len() - k,
        {
            assert(sorted[k as int] == views[before[k as int] as int]);
            k = k + 1;
        }
        proof {
            if k < before.len() {
                assert(before[k as int] < i);
                assert(sorted[k as int] == names@[before[k as int] as int]@);
                lemma_text_le_total(sorted[k as int], name@);
                assert forall|m: int| k <= m < sorted.len() implies text_le(
                    name@,
                    #[trigger] sorted[m],
                ) by {
                    if m > k {
                        lemma_text_le_transitive(name@, sorted[k as int], sorted[m]);
                    }
                }
            }
        }
        order.insert(k, i);
        proof {
            let after = reordered(views, order@);
            assert(after =~= sorted.insert(k as int, name@));
            assert forall|a: int, b: int| 0 <= a < b < after.len() implies text_le(
                #[trigger] after[a],
                #[trigger] after[b],
            ) by {
                let x = if a < k {
                    a
                } else {
                    a - 1
                };
                let y = if b < k {
                    b
                } else {
                    b - 1
                };
                if a != k && b != k {
                    assert(after[a] == sorted[x] && after[b] == sorted[y]);
                }
            }
            assert forall|a: int| 0 <= a < order@.len() implies #[trigger] order@[a] < i + 1 by {
                if a < k {
                    assert(order@[a] == before[a]);
                } else if a > k {
                    assert(order@[a] == before[a - 1]);
                }
            }
            assert forall|a: int, b: int| 0 <= a < order@.len() && 0 <= b < order@.len() && a != b implies order@[a]
                != order@[b] by {
                let x = if a < k {
                    a
                } else {
                    a - 1
                };
                let y = if b < k {
                    b
                } else {
                    b - 1
                };
                if a != k && b != k {
                    assert(order@[a] == before[x] && order@[b] == before[y]);
                } else if a == k {
                    assert(order@[b] == before[y]);
                    assert(before[y] < i);
                } else {
                    assert(order@[a] == before[x]);
                    assert(before[x] < i);
                }
            }
        }
        i = i + 1;
    }
    order
}

pub(crate) fn matches_name(name: &str, prefix: &str, suffix: &str) -> (r: bool)
    ensures
        r == name_matches(name@, prefix@, suffix@),
{
    strip_prefix(name, prefix).is_some() && strip_suffix(name, suffix).is_some()
}

/// The names that begin with `prefix` and end with `suffix`, in order.
pub fn select_names(names: &[String], prefix: &str, suffix: &str) -> (r: Vec<String>)
    ensures
        name_views(r@) == matching_names(name_views(names@), prefix@, suffix@),
{
    let mut out: Vec<String> = Vec::new();
    let ghost views = name_views(names@);
    let ghost pred = |n: Seq<char>| name_matches(n, prefix@, suffix@);
    let mut i: usize = 0;
    proof {
        assert(views.take(0) =~= Seq::empty());
        reveal(Seq::filter);
        assert(name_views(out@) =~= Seq::empty());
    }
    while i < names.len()
        invariant
            i <= names@.len(),
            views == name_views(names@),
            pred == (|n: Seq<char>| name_matches(n, prefix@, suffix@)),
            name_views(out@) == views.take(i as int).filter(pred),
        decreases names@.len() - i,
    {
        let ghost before = out@;
        proof {
            let longer = views.take(i + 1);
            assert(longer.drop_last() =~= views.take(i as int));
            assert(longer.last() == names@[i as int]@);
            reveal(Seq::filter);
        }
        if matches_name(names[i].as_str(), prefix, suffix) {
            out.push(names[i].as_str().to_owned());
            assert(name_views(out@) =~= name_views(before).push(names@[i as int]@));
        }
        i = i + 1;
    }
    assert(views.take(i as int) =~= views);
    out
}

/// The names of snapshot files among `names`, the latest time stamp first.
pub fn find_snapshots_newest_first(names: &[String]) -> (r: Vec<String>)
    ensures
        name_views(r@).to_multiset() == matching_names(
            name_views(names@),
            "snapshot-"@,
            ".bin"@,
        ).to_multiset(),
        in_text_order(name_views(r@).reverse()),
{
    let mut found = select_names(names, "snapshot-", ".bin");
    sort_names(&mut found);
    let ghost sorted = name_views(found@);
    let r = reversed(found);
    proof {
        assert(name_views(r@).reverse() =~= sorted);
        lemma_reverse_multiset(sorted);
        assert(name_views(r@) =~= sorted.reverse());
    }
    r
}

proof fn lemma_reverse_multiset(s: Seq<Seq<char>>)
    ensures
        s.reverse().to_multiset() == s.to_multiset(),
    decreases s.len(),
{
    broadcast use vstd::seq_lib::group_to_multiset_ensures;

    if s.len() > 0 {
        let first = s.first();
        let rest = s.skip(1);
        lemma_reverse_multiset(rest);
        assert(s.reverse() =~= rest.reverse().push(first));
        assert(s =~= seq![first] + rest);
        vstd::seq_lib::lemma_multiset_commutative(seq![first], rest);
        assert(seq![first] =~= Seq::<Seq<char>>::empty().push(first));
    } else {
        assert(s.reverse() =~= s);
    }
}

fn reversed(names: Vec<String>) -> (r: Vec<String>)
    ensures
        name_views(r@) == name_views(names@).reverse(),
{
    let mut out: Vec<String> = Vec::new();
    let ghost views = name_views(names@);
    let mut i: usize = names.len();
    while i > 0
        invariant
            i <= names@.len(),
            views == name_views(names@),
            out@.len() == names@.len() - i,
            forall|k: int|
                0 <= k < out@.len() ==> (#[trigger] out@[k])@ == views[views.len() - 1 - k],
        decreases i,
    {
        i = i - 1;
        out.push(names[i].as_str().to_owned());
    }
    assert(name_views(out@) =~= views.reverse());
    out
}

/// The number of snapshots of a table that are kept: as configured, but at least one.
pub fn snapshots_to_keep(configured: u32) -> (keep: usize)
    ensures
        keep == if configured == 0 {
            1
        } else {
            configured as int
        },
{
    if configured == 0 {
        1
    } else {
        configured as usize
    }
}

/// The names that are in excess where the last `keep` of those that match are kept: the first ones
/// in the order of text.
pub fn names_in_excess(names: &[String], prefix: &str, suffix: &str, keep: usize) -> (r: Vec<
    String,
>)
    ensures
        ({
            let found = matching_names(name_views(names@), prefix@, suffix@);
            if found.len() <= keep {
                r@.len() == 0
            } else {
                exists|sorted: Seq<Seq<char>>| #[trigger]
                    in_text_order(sorted) && sorted.to_multiset() == found.to_multiset()
                        && name_views(r@) == sorted.take(found.len() - keep)
            }
        }),
{
    let mut found = select_names(names, prefix, suffix);
    let ghost before = name_views(found@);
    if found.len() <= keep {
        return Vec::new();
    }
    sort_names(&mut found);
    let ghost sorted = name_views(found@);
    proof {
        broadcast use vstd::seq_lib::group_to_multiset_ensures;

        assert(sorted.len() == sorted.to_multiset().len());
        assert(before.len() == before.to_multiset().len());
    }
    let n: usize = found.len() - keep;
    found.truncate(n);
    assert(name_views(found@) =~= sorted.take(n as int));
    found
}

// ---------------------------------------------------------------------------
// Which snapshots are kept
// ---------------------------------------------------------------------------

/// The positions that are kept when the newest `keep` intact snapshots are: `intact` says of each
/// snapshot, newest first, whether it is.
pub open spec fn kept_snapshots(intact: Seq<bool>, keep: nat) -> Seq<bool>
    decreases intact.len(),
{
    if intact.len() == 0 {
        Seq::empty()
    } else {
        let before = kept_snapshots(intact.drop_last(), keep);
        before.push(intact.last() && intact_total(intact.drop_last()) < keep)
    }
}

/// The number of intact snapshots.
pub open spec fn intact_total(intact: Seq<bool>) -> nat
    decreases intact.len(),
{
    if intact.len() == 0 {
        0
    } else {
        intact_total(intact.drop_last()) + if intact.last() {
            1nat
        } else {
            0
        }
    }
}

/// Decides which snapshots to keep, newest first. Only the outcome of as many checks as are needed
/// is asked for.
pub struct Retention {
    keep: usize,
    kept: usize,
    checked: Ghost<Seq<bool>>,
}

impl Retention {
    /// The most snapshots that are kept.
    pub closed spec fn limit(&self) -> nat {
        self.keep as nat
    }

    /// The snapshots that were decided on, newest first: whether each is intact, as far as that was
    /// asked.
    pub closed spec fn decided(&self) -> Seq<bool> {
        self.checked@
    }

    /// Whether as many are counted as kept as there are intact ones, up to the limit.
    pub closed spec fn wf(&self) -> bool {
        &&& self.kept <= self.keep
        &&& self.kept == if intact_total(self.checked@) < self.keep {
            intact_total(self.checked@)
        } else {
            self.keep as nat
        }
    }

    /// Keeps the newest `keep` intact snapshots.
    pub fn new(keep: usize) -> (r: Retention)
        ensures
            r.wf(),
            r.limit() == keep,
            r.decided() == Seq::<bool>::empty(),
    {
        Retention { keep, kept: 0, checked: Ghost(Seq::empty()) }
    }

    /// Whether the next snapshot has to be checked: none need be once enough are kept.
    pub fn needs_check(&self) -> (r: bool)
        requires
            self.wf(),
        ensures
            r == (intact_total(self.decided()) < self.limit()),
    {
        self.kept < self.keep
    }

    /// Whether the next snapshot is kept, given whether it is intact; else it is removed.
    pub fn decide(&mut self, intact: bool) -> (keep: bool)
        requires
            old(self).wf(),
        ensures
            final(self).wf(),
            final(self).limit() == old(self).limit(),
            final(self).decided() == old(self).decided().push(intact),
            keep == kept_snapshots(final(self).decided(), final(self).limit()).last(),
            keep == (intact && intact_total(old(self).decided()) < old(self).limit()),
    {
        let keep: bool = intact && self.kept < self.keep;
        if keep {
            self.kept = self.kept + 1;
        }
        proof {
            let before = self.checked@;
            assert(before.push(intact).drop_last() =~= before);
        }
        self.checked = Ghost(self.checked@.push(intact));
        keep
    }
}

/// Of snapshots taken newest first, at most the limit are kept, every one that is kept is intact,
/// and every intact one before which fewer than the limit are intact is kept: a damaged snapshot
/// takes no place.
pub proof fn newest_intact_snapshots_are_kept(intact: Seq<bool>, keep: nat, i: int)
    requires
        0 <= i < intact.len(),
    ensures
        kept_snapshots(intact, keep).len() == intact.len(),
        kept_snapshots(intact, keep)[i] == (intact[i] && intact_total(intact.take(i)) < keep),
        intact_total(kept_snapshots(intact, keep)) <= keep,
    decreases intact.len(),
{
    let before = intact.drop_last();
    lemma_kept_count(intact, keep);
    lemma_kept_count(before, keep);
    if i == intact.len() - 1 {
        assert(intact.take(i) =~= before);
    } else {
        newest_intact_snapshots_are_kept(before, keep, i);
        assert(before.take(i) =~= intact.take(i));
    }
}

proof fn lemma_kept_count(intact: Seq<bool>, keep: nat)
    ensures
        kept_snapshots(intact, keep).len() == intact.len(),
        intact_total(kept_snapshots(intact, keep)) == if intact_total(intact) < keep {
            intact_total(intact)
        } else {
            keep
        },
    decreases intact.len(),
{
    if intact.len() > 0 {
        lemma_kept_count(intact.drop_last(), keep);
        let kept = kept_snapshots(intact, keep);
        assert(kept.drop_last() =~= kept_snapshots(intact.drop_last(), keep));
    }
}

/// Whether the graph file `name` belongs to one of the snapshots that are kept: it ends with one of
/// their time stamps.
pub open spec fn graph_survives(name: Seq<char>, surviving: Seq<Seq<char>>) -> bool {
    exists|i: int|
        0 <= i < surviving.len() && ("-"@ + (#[trigger] surviving[i]) + ".bin"@).is_suffix_of(name)
}

/// Whether the file `name` in a table's snapshot directory is a graph file to remove: a graph file
/// of none of the snapshots that are kept.
pub fn graph_file_is_stale(name: &str, surviving: &[String]) -> (r: bool)
    ensures
        r == (name_matches(name@, "hnsw_"@, ".bin"@) && !graph_survives(
            name@,
            name_views(surviving@),
        )),
{
    if !matches_name(name, "hnsw_", ".bin") {
        return false;
    }
    let ghost views = name_views(surviving@);
    let mut i: usize = 0;
    while i < surviving.len()
        invariant
            i <= surviving@.len(),
            views == name_views(surviving@),
            forall|k: int|
                0 <= k < i ==> !("-"@ + (#[trigger] views[k]) + ".bin"@).is_suffix_of(name@),
        decreases surviving@.len() - i,
    {
        let ending = join3("-", surviving[i].as_str(), ".bin");
        assert(ending@ == "-"@ + views[i as int] + ".bin"@);
        if strip_suffix(name, ending.as_str()).is_some() {
            return false;
        }
        i = i + 1;
    }
    true
}

} // verus!
