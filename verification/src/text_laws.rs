//! What numbers and literals in text mean, and how names are found.

use crate::defaults::{
    LiteralV, literal_in, missing_defaults, quotes_are_doubled, unescaped,
};
use crate::indexes::{RowPresence, not_found, only_in_volumes};
use crate::names::{intact_total, kept_snapshots, matching_names};
use crate::schema::{ColumnV, DataType};
use crate::selection::{is_selection, lemma_selection_of_none, lemma_selection_step};
use crate::text::{
    all_digits, ascii_lower, ascii_lower_char, decimal, digit_char, digit_value, digits_value,
    i64_in_text, is_white_space, text_le, trimmed, u64_in_text,
};
use vstd::prelude::*;
use vstd::string::*;

verus! {

// ---------------------------------------------------------------------------
// Numbers
// ---------------------------------------------------------------------------

pub proof fn lemma_decimal(v: nat)
    ensures
        all_digits(decimal(v), 10),
        digits_value(decimal(v), 10) == v,
        decimal(v)[0] != '+',
        decimal(v)[0] != '-',
        decimal(v)[0] != '\'',
        forall|i: int| 0 <= i < decimal(v).len() ==> '0' <= #[trigger] decimal(v)[i] <= '9',
    decreases v,
{
    reveal_with_fuel(digits_value, 2);
    let d = digit_char(v % 10);
    assert(digit_value(d) == v % 10 && '0' <= d <= '9');
    if v < 10 {
        assert(decimal(v).drop_last() =~= Seq::empty());
        assert(decimal(v)[0] == d);
    } else {
        lemma_decimal(v / 10);
        let s = decimal(v / 10);
        assert(decimal(v).drop_last() =~= s);
        assert(decimal(v)[0] == s[0]);
        assert(10 * (v / 10) + v % 10 == v);
        assert forall|i: int| 0 <= i < decimal(v).len() implies '0' <= #[trigger] decimal(v)[i]
            <= '9' by {
            if i < s.len() {
                assert(decimal(v)[i] == s[i]);
            }
        }
        assert forall|i: int| 0 <= i < decimal(v).len() implies digit_value(
            #[trigger] decimal(v)[i],
        ) < 10 by {
            if i < s.len() {
                assert(decimal(v)[i] == s[i]);
            }
        }
    }
}

/// A number that is written in base 10 is read back as it is, with or without a plus sign; a negative
/// one behind a minus sign; and one that does not fit is none.
pub proof fn written_numbers_are_read_back(v: nat)
    ensures
        v <= u64::MAX ==> u64_in_text(decimal(v), 10) == Some(v as u64),
        v <= u64::MAX ==> u64_in_text(seq!['+'] + decimal(v), 10) == Some(v as u64),
        v > u64::MAX ==> u64_in_text(decimal(v), 10) is None,
        v <= i64::MAX ==> i64_in_text(decimal(v)) == Some(v as i64),
        v <= i64::MAX ==> i64_in_text(seq!['+'] + decimal(v)) == Some(v as i64),
        v <= i64::MAX + 1 ==> i64_in_text(seq!['-'] + decimal(v)) == Some((-(v as int)) as i64),
        v > i64::MAX ==> i64_in_text(decimal(v)) is None,
        u64_in_text(seq!['-'] + decimal(v), 10) is None,
{
    lemma_decimal(v);
    let plus = seq!['+'] + decimal(v);
    let minus = seq!['-'] + decimal(v);
    assert(plus.skip(1) =~= decimal(v));
    assert(minus.skip(1) =~= decimal(v));
    assert(plus[0] == '+');
    assert(minus[0] == '-');
    assert(digit_value(minus[0]) == 16);
}

/// A text without digits, or with a character that is no digit of the base behind its sign, is no
/// number.
pub proof fn other_text_is_no_number(s: Seq<char>, base: nat, i: int)
    requires
        2 <= base <= 16,
        s.len() == 0 || 1 <= i < s.len() && digit_value(s[i]) >= base,
    ensures
        u64_in_text(s, base) is None,
        base == 10 ==> i64_in_text(s) is None,
{
    if s.len() > 0 {
        assert(s.skip(1)[i - 1] == s[i]);
    }
}

// ---------------------------------------------------------------------------
// Ends and cases
// ---------------------------------------------------------------------------

/// Whether a text is white space alone.
pub open spec fn is_blank(s: Seq<char>) -> bool {
    forall|i: int| 0 <= i < s.len() ==> is_white_space(#[trigger] s[i])
}

/// Whether `s` is `t` between two texts of white space.
pub open spec fn stands_between_blanks(s: Seq<char>, t: Seq<char>, front: Seq<char>, back: Seq<char>) -> bool {
    s == front + t + back && is_blank(front) && is_blank(back)
}

proof fn lemma_trimmed(s: Seq<char>) -> (r: (Seq<char>, Seq<char>))
    ensures
        stands_between_blanks(s, trimmed(s), r.0, r.1),
    decreases s.len(),
{
    let none = Seq::<char>::empty();
    if s.len() > 0 && is_white_space(s[0]) {
        let (front, back) = lemma_trimmed(s.skip(1));
        let longer = seq![s[0]] + front;
        assert(s =~= longer + trimmed(s) + back) by {
            assert(s =~= seq![s[0]] + s.skip(1));
        }
        assert forall|i: int| 0 <= i < longer.len() implies is_white_space(#[trigger] longer[i]) by {
            if i > 0 {
                assert(longer[i] == front[i - 1]);
            }
        }
        (longer, back)
    } else if s.len() > 0 && is_white_space(s.last()) {
        let (front, back) = lemma_trimmed(s.drop_last());
        let longer = back + seq![s.last()];
        assert(s =~= front + trimmed(s) + longer) by {
            assert(s =~= s.drop_last() + seq![s.last()]);
        }
        assert forall|i: int| 0 <= i < longer.len() implies is_white_space(#[trigger] longer[i]) by {
            if i < back.len() {
                assert(longer[i] == back[i]);
            }
        }
        (front, longer)
    } else {
        assert(s =~= none + trimmed(s) + none);
        (none, none)
    }
}

/// A trimmed text has no white space at its ends, and differs from the text by white space at the
/// ends alone.
pub proof fn trimming_takes_white_space_off(s: Seq<char>)
    ensures
        trimmed(s).len() > 0 ==> !is_white_space(trimmed(s)[0]) && !is_white_space(
            trimmed(s).last(),
        ),
        exists|front: Seq<char>, back: Seq<char>| #[trigger]
            stands_between_blanks(s, trimmed(s), front, back),
{
    lemma_trimmed_ends(s);
    let (front, back) = lemma_trimmed(s);
    assert(stands_between_blanks(s, trimmed(s), front, back));
}

proof fn lemma_trimmed_ends(s: Seq<char>)
    ensures
        trimmed(s).len() > 0 ==> !is_white_space(trimmed(s)[0]) && !is_white_space(
            trimmed(s).last(),
        ),
    decreases s.len(),
{
    if s.len() > 0 {
        if is_white_space(s[0]) {
            lemma_trimmed_ends(s.skip(1));
        } else if is_white_space(s.last()) {
            lemma_trimmed_ends(s.drop_last());
        }
    }
}

/// The order of text is that of the first character in which two texts differ; a text stands before
/// those that it begins.
pub proof fn text_is_ordered_by_the_first_difference(
    front: Seq<char>,
    x: char,
    y: char,
    a: Seq<char>,
    b: Seq<char>,
)
    requires
        x != y,
    ensures
        text_le(front + seq![x] + a, front + seq![y] + b) <==> (x as u32) < (y as u32),
        text_le(front, front + a),
        a.len() > 0 ==> !text_le(front + a, front),
    decreases front.len(),
{
    let l = front + seq![x] + a;
    let r = front + seq![y] + b;
    if front.len() == 0 {
        assert(l[0] == x && r[0] == y);
    } else {
        let f = front.skip(1);
        text_is_ordered_by_the_first_difference(f, x, y, a, b);
        assert(l.skip(1) =~= f + seq![x] + a);
        assert(r.skip(1) =~= f + seq![y] + b);
        assert((front + a).skip(1) =~= f + a);
        assert(l[0] == r[0] && (front + a)[0] == front[0]);
    }
}

// ---------------------------------------------------------------------------
// Literals
// ---------------------------------------------------------------------------

/// A text with each quote doubled.
pub open spec fn doubled(s: Seq<char>) -> Seq<char>
    decreases s.len(),
{
    if s.len() == 0 {
        s
    } else if s[0] == '\'' {
        seq!['\'', '\''] + doubled(s.skip(1))
    } else {
        seq![s[0]] + doubled(s.skip(1))
    }
}

proof fn lemma_doubled(s: Seq<char>)
    ensures
        quotes_are_doubled(doubled(s)),
        unescaped(doubled(s)) == s,
    decreases s.len(),
{
    if s.len() > 0 {
        lemma_doubled(s.skip(1));
        let d = doubled(s);
        let rest = doubled(s.skip(1));
        if s[0] == '\'' {
            assert(d.skip(2) =~= rest);
            assert(d[0] == '\'' && d[1] == '\'');
        } else {
            assert(d.skip(1) =~= rest);
            assert(d[0] == s[0]);
        }
        assert(unescaped(d) =~= seq![s[0]] + unescaped(rest));
        assert(seq![s[0]] + s.skip(1) =~= s);
    }
}

/// A text in single quotes, with the quotes in it doubled, is the literal of that text, whatever it
/// is.
pub proof fn quoted_text_is_its_literal(s: Seq<char>, data_type: DataType)
    ensures
        literal_in(seq!['\''] + doubled(s) + seq!['\''], data_type) == LiteralV::Text(s, data_type),
{
    let e = seq!['\''] + doubled(s) + seq!['\''];
    lemma_doubled(s);
    assert(e[0] == '\'' && e.last() == '\'');
    assert(trimmed(e) == e);
    assert(e.subrange(1, e.len() - 1) =~= doubled(s));
    reveal_strlit("null");
    reveal_strlit("true");
    reveal_strlit("false");
    assert(ascii_lower(e)[0] == '\'');
    assert(ascii_lower("null"@)[0] == 'n');
    assert(ascii_lower("true"@)[0] == 't');
    assert(ascii_lower("false"@)[0] == 'f');
}

/// A text in single quotes in which a quote stands alone is no literal.
pub proof fn lone_quote_is_no_literal(a: Seq<char>, b: Seq<char>, data_type: DataType)
    requires
        forall|i: int| 0 <= i < a.len() ==> #[trigger] a[i] != '\'',
        b.len() > 0 ==> b[0] != '\'',
    ensures
        literal_in(seq!['\''] + (a + seq!['\''] + b) + seq!['\''], data_type) == LiteralV::Other,
{
    let inner = a + seq!['\''] + b;
    let e = seq!['\''] + inner + seq!['\''];
    lemma_lone_quote(a, b);
    assert(e[0] == '\'' && e.last() == '\'');
    assert(trimmed(e) == e);
    assert(e.subrange(1, e.len() - 1) =~= inner);
    reveal_strlit("null");
    reveal_strlit("true");
    reveal_strlit("false");
    assert(ascii_lower(e)[0] == '\'');
    assert(ascii_lower("null"@)[0] == 'n');
    assert(ascii_lower("true"@)[0] == 't');
    assert(ascii_lower("false"@)[0] == 'f');
}

proof fn lemma_lone_quote(a: Seq<char>, b: Seq<char>)
    requires
        forall|i: int| 0 <= i < a.len() ==> #[trigger] a[i] != '\'',
        b.len() > 0 ==> b[0] != '\'',
    ensures
        !quotes_are_doubled(a + seq!['\''] + b),
    decreases a.len(),
{
    let s = a + seq!['\''] + b;
    if a.len() == 0 {
        assert(s[0] == '\'');
        if s.len() >= 2 {
            assert(s[1] == b[0]);
        }
    } else {
        let rest = a.skip(1);
        assert forall|i: int| 0 <= i < rest.len() implies #[trigger] rest[i] != '\'' by {
            assert(rest[i] == a[i + 1]);
        }
        lemma_lone_quote(rest, b);
        assert(s[0] == a[0]);
        assert(s.skip(1) =~= rest + seq!['\''] + b);
    }
}

/// An integer in base 10 is the literal of that integer, with or without a sign.
pub proof fn integer_is_its_literal(v: nat, data_type: DataType)
    ensures
        v <= i64::MAX ==> literal_in(decimal(v), data_type) == LiteralV::Integer(
            v as i64,
            data_type,
        ),
        v <= i64::MAX + 1 ==> literal_in(seq!['-'] + decimal(v), data_type) == LiteralV::Integer(
            (-(v as int)) as i64,
            data_type,
        ),
{
    lemma_decimal(v);
    written_numbers_are_read_back(v);
    let d = decimal(v);
    let m = seq!['-'] + d;
    assert(d.last() == d[d.len() - 1]);
    assert(trimmed(d) == d);
    assert(m[0] == '-');
    assert(m.last() == d.last());
    assert(trimmed(m) == m);
    reveal_strlit("null");
    reveal_strlit("true");
    reveal_strlit("false");
    assert(ascii_lower(d)[0] == d[0]);
    assert(ascii_lower(m)[0] == '-');
    assert(ascii_lower("null"@)[0] == 'n');
    assert(ascii_lower("true"@)[0] == 't');
    assert(ascii_lower("false"@)[0] == 'f');
}

/// NULL, TRUE and FALSE are literals in whatever case they are written, and whatever white space
/// stands about them; NULL is of the column's type.
pub proof fn words_are_literals(expr: Seq<char>, data_type: DataType)
    ensures
        ascii_lower(trimmed(expr)) == ascii_lower("null"@) ==> literal_in(expr, data_type)
            == LiteralV::Null(data_type),
        ascii_lower(trimmed(expr)) == ascii_lower("true"@) ==> literal_in(expr, data_type)
            == LiteralV::Boolean(true),
        ascii_lower(trimmed(expr)) == ascii_lower("false"@) ==> literal_in(expr, data_type)
            == LiteralV::Boolean(false),
        literal_in(expr, data_type) is Boolean ==> ascii_lower(trimmed(expr)) == ascii_lower(
            "true"@,
        ) || ascii_lower(trimmed(expr)) == ascii_lower("false"@),
        literal_in(expr, data_type) is Null ==> ascii_lower(trimmed(expr)) == ascii_lower("null"@),
{
    reveal_strlit("null");
    reveal_strlit("true");
    reveal_strlit("false");
    assert(ascii_lower("null"@)[0] == 'n');
    assert(ascii_lower("true"@)[0] == 't');
    assert(ascii_lower("false"@)[0] == 'f');
}

/// Two texts are the same up to the case of ASCII letters just where they are as long and each
/// character of the one is that of the other, or the other case of the same letter.
pub proof fn ascii_case_is_ignored(a: Seq<char>, b: Seq<char>)
    ensures
        ascii_lower(a) == ascii_lower(b) <==> a.len() == b.len() && forall|i: int|
            0 <= i < a.len() ==> {
                let x = #[trigger] a[i];
                let y = b[i];
                ||| x == y
                ||| 'A' <= x <= 'Z' && y as u32 == x as u32 + 32
                ||| 'A' <= y <= 'Z' && x as u32 == y as u32 + 32
            },
{
    let la = ascii_lower(a);
    let lb = ascii_lower(b);
    if la == lb {
        assert(la.len() == lb.len());
        assert forall|i: int| 0 <= i < a.len() implies {
            let x = #[trigger] a[i];
            let y = b[i];
            ||| x == y
            ||| 'A' <= x <= 'Z' && y as u32 == x as u32 + 32
            ||| 'A' <= y <= 'Z' && x as u32 == y as u32 + 32
        } by {
            assert(la[i] == lb[i]);
            assert(ascii_lower_char(a[i]) == ascii_lower_char(b[i]));
        }
    }
    if a.len() == b.len() && forall|i: int|
        0 <= i < a.len() ==> {
            let x = #[trigger] a[i];
            let y = b[i];
            ||| x == y
            ||| 'A' <= x <= 'Z' && y as u32 == x as u32 + 32
            ||| 'A' <= y <= 'Z' && x as u32 == y as u32 + 32
        } {
        assert forall|i: int| 0 <= i < la.len() implies la[i] == lb[i] by {
            let x = a[i];
            let y = b[i];
            assert(ascii_lower_char(x) == ascii_lower_char(y));
        }
        assert(la =~= lb);
    }
}

/// The default values that are told from expressions are those of the columns that have an expression
/// and no value: each with the literal of its expression in the column's type, in order.
pub proof fn defaults_come_from_expressions(columns: Seq<ColumnV>)
    ensures
        forall|i: int|
            0 <= i < columns.len() && (#[trigger] columns[i]).default_value is None
                && columns[i].default_expr is Some ==> missing_defaults(columns).contains(
                (i as nat, literal_in(columns[i].default_expr->Some_0, columns[i].data_type)),
            ),
        forall|k: int|
            0 <= k < missing_defaults(columns).len() ==> {
                let (p, l) = #[trigger] missing_defaults(columns)[k];
                &&& p < columns.len()
                &&& columns[p as int].default_value is None
                &&& columns[p as int].default_expr is Some
                &&& l == literal_in(
                    columns[p as int].default_expr->Some_0,
                    columns[p as int].data_type,
                )
            },
        forall|k: int, m: int|
            0 <= k < m < missing_defaults(columns).len() ==> (
            #[trigger] missing_defaults(columns)[k]).0 < (#[trigger] missing_defaults(columns)[m]).0,
    decreases columns.len(),
{
    if columns.len() > 0 {
        let before = columns.drop_last();
        let n = columns.len() - 1;
        let m0 = missing_defaults(before);
        let m = missing_defaults(columns);
        defaults_come_from_expressions(before);
        assert forall|i: int|
            0 <= i < columns.len() && (#[trigger] columns[i]).default_value is None
                && columns[i].default_expr is Some implies m.contains(
            (i as nat, literal_in(columns[i].default_expr->Some_0, columns[i].data_type)),
        ) by {
            let wanted = (
                i as nat,
                literal_in(columns[i].default_expr->Some_0, columns[i].data_type),
            );
            if i < n {
                assert(before[i] == columns[i]);
                assert(m0.contains(wanted));
                let k = choose|k: int| 0 <= k < m0.len() && m0[k] == wanted;
                assert(m[k] == wanted);
            } else {
                assert(m[m0.len() as int] == wanted);
            }
        }
        assert forall|k: int| 0 <= k < m.len() implies {
            let (p, l) = #[trigger] m[k];
            &&& p < columns.len()
            &&& columns[p as int].default_value is None
            &&& columns[p as int].default_expr is Some
            &&& l == literal_in(
                columns[p as int].default_expr->Some_0,
                columns[p as int].data_type,
            )
        } by {
            if k < m0.len() {
                assert(m[k] == m0[k]);
                assert(before[m0[k].0 as int] == columns[m0[k].0 as int]);
            }
        }
        assert forall|k: int, j: int| 0 <= k < j < m.len() implies (#[trigger] m[k]).0 < (
        #[trigger] m[j]).0 by {
            assert(m[k] == m0[k]);
            if j < m0.len() {
                assert(m[j] == m0[j]);
            }
        }
    }
}

// ---------------------------------------------------------------------------
// Rows and names
// ---------------------------------------------------------------------------

/// The rows that are looked for in volumes are the wanted ones that were not found, in order.
pub proof fn missing_rows_are_looked_for(wanted: Seq<i64>, found: Seq<i64>)
    ensures
        is_selection(
            wanted,
            |x: i64| !found.contains(x),
            |x: i64| x,
            not_found(wanted, found),
        ),
    decreases wanted.len(),
{
    let keep = |x: i64| !found.contains(x);
    let same = |x: i64| x;
    if wanted.len() == 0 {
        lemma_selection_of_none(wanted, keep, same, not_found(wanted, found));
    } else {
        missing_rows_are_looked_for(wanted.drop_last(), found);
        lemma_selection_step(
            wanted,
            keep,
            same,
            not_found(wanted.drop_last(), found),
            not_found(wanted, found),
        );
    }
}

/// Rows that only volumes have are counted one by one; a row in memory, or in no volume, does not
/// count; and the rows of two lists count together.
pub proof fn rows_in_volumes_are_counted(a: Seq<RowPresence>, b: Seq<RowPresence>, r: RowPresence)
    ensures
        only_in_volumes(a + b) == only_in_volumes(a) + only_in_volumes(b),
        only_in_volumes(seq![r]) == if r.in_volume && !r.in_memory {
            1nat
        } else {
            0
        },
        only_in_volumes(Seq::empty()) == 0,
    decreases b.len(),
{
    reveal_with_fuel(only_in_volumes, 2);
    assert(seq![r].drop_last() =~= Seq::empty());
    assert(seq![r].last() == r);
    if b.len() == 0 {
        assert(a + b =~= a);
    } else {
        rows_in_volumes_are_counted(a, b.drop_last(), r);
        assert((a + b).drop_last() =~= a + b.drop_last());
        assert((a + b).last() == b.last());
    }
}

/// The names that match are those with the prefix and the suffix, in order.
pub proof fn names_match_by_their_ends(
    names: Seq<Seq<char>>,
    prefix: Seq<char>,
    suffix: Seq<char>,
)
    ensures
        is_selection(
            names,
            |n: Seq<char>| prefix.is_prefix_of(n) && suffix.is_suffix_of(n),
            |n: Seq<char>| n,
            matching_names(names, prefix, suffix),
        ),
    decreases names.len(),
{
    let keep = |n: Seq<char>| prefix.is_prefix_of(n) && suffix.is_suffix_of(n);
    let same = |n: Seq<char>| n;
    reveal(Seq::filter);
    if names.len() == 0 {
        lemma_selection_of_none(names, keep, same, matching_names(names, prefix, suffix));
    } else {
        names_match_by_their_ends(names.drop_last(), prefix, suffix);
        lemma_selection_step(
            names,
            keep,
            same,
            matching_names(names.drop_last(), prefix, suffix),
            matching_names(names, prefix, suffix),
        );
    }
}

/// Of snapshots taken newest first, an intact one is kept where fewer than the limit before it are
/// kept, and no damaged one is; where no more are intact than the limit, every intact one is kept.
pub proof fn intact_snapshots_are_kept_up_to_the_limit(intact: Seq<bool>, keep: nat)
    ensures
        kept_snapshots(intact, keep).len() == intact.len(),
        forall|i: int|
            0 <= i < intact.len() && #[trigger] kept_snapshots(intact, keep)[i] ==> intact[i],
        intact_total(kept_snapshots(intact, keep)) == if intact_total(intact) < keep {
            intact_total(intact)
        } else {
            keep
        },
        forall|i: int, j: int|
            0 <= i < j < intact.len() && intact[i] && #[trigger] kept_snapshots(intact, keep)[j]
                ==> #[trigger] kept_snapshots(intact, keep)[i],
    decreases intact.len(),
{
    if intact.len() > 0 {
        let before = intact.drop_last();
        let k0 = kept_snapshots(before, keep);
        let k = kept_snapshots(intact, keep);
        let n = intact.len() - 1;
        intact_snapshots_are_kept_up_to_the_limit(before, keep);
        assert(k.drop_last() =~= k0);
        assert forall|i: int| 0 <= i < intact.len() && #[trigger] k[i] implies intact[i] by {
            if i < n {
                assert(k0[i]);
                assert(before[i] == intact[i]);
            }
        }
        assert forall|i: int, j: int|
            0 <= i < j < intact.len() && intact[i] && #[trigger] k[j] implies #[trigger] k[i] by {
            assert(k[i] == k0[i]);
            if j < n {
                assert(k0[j] && before[i]);
            } else {
                lemma_kept_below(before, keep, i);
            }
        }
    }
}

proof fn lemma_kept_below(intact: Seq<bool>, keep: nat, i: int)
    requires
        intact_total(intact) < keep,
        0 <= i < intact.len(),
        intact[i],
    ensures
        kept_snapshots(intact, keep).len() == intact.len(),
        kept_snapshots(intact, keep)[i],
    decreases intact.len(),
{
    lemma_kept_len(intact, keep);
    lemma_kept_len(intact.drop_last(), keep);
    if i < intact.len() - 1 {
        lemma_kept_below(intact.drop_last(), keep, i);
    }
}

proof fn lemma_kept_len(intact: Seq<bool>, keep: nat)
    ensures
        kept_snapshots(intact, keep).len() == intact.len(),
    decreases intact.len(),
{
    if intact.len() > 0 {
        lemma_kept_len(intact.drop_last(), keep);
    }
}

/// A text is read only from what stands between two single quotes, and an integer only from what is a
/// number; a literal of either kind is of the column's type.
pub proof fn literals_are_written_as_such(expr: Seq<char>, data_type: DataType)
    ensures
        literal_in(expr, data_type) matches LiteralV::Text(s, t) ==> {
            let e = trimmed(expr);
            &&& t == data_type
            &&& e.len() >= 2
            &&& e[0] == '\''
            &&& e.last() == '\''
        },
        literal_in(expr, data_type) matches LiteralV::Integer(v, t) ==> t == data_type
            && i64_in_text(trimmed(expr)) == Some(v),
{
}

/// White space are the five controls from tab to carriage return, the space, the next line, the
/// no-break spaces, and the spaces and separators of Unicode; no letter or digit is.
pub proof fn white_space_is_unicodes(c: char)
    ensures
        is_white_space(c) <==> seq![
            0x09u32,
            0x0A,
            0x0B,
            0x0C,
            0x0D,
            0x20,
            0x85,
            0xA0,
            0x1680,
            0x2000,
            0x2001,
            0x2002,
            0x2003,
            0x2004,
            0x2005,
            0x2006,
            0x2007,
            0x2008,
            0x2009,
            0x200A,
            0x2028,
            0x2029,
            0x202F,
            0x205F,
            0x3000,
        ].contains(c as u32),
        'a' <= c <= 'z' || 'A' <= c <= 'Z' || '0' <= c <= '9' ==> !is_white_space(c),
{
    let v = c as u32;
    let s = seq![
        0x09u32,
        0x0A,
        0x0B,
        0x0C,
        0x0D,
        0x20,
        0x85,
        0xA0,
        0x1680,
        0x2000,
        0x2001,
        0x2002,
        0x2003,
        0x2004,
        0x2005,
        0x2006,
        0x2007,
        0x2008,
        0x2009,
        0x200A,
        0x2028,
        0x2029,
        0x202F,
        0x205F,
        0x3000,
    ];
    if 0x9 <= v <= 0xD {
        assert(s[v - 0x9] == v);
    } else if 0x2000 <= v <= 0x200A {
        assert(s[9 + (v - 0x2000)] == v);
    } else {
        assert(s[5] == 0x20 && s[6] == 0x85 && s[7] == 0xA0 && s[8] == 0x1680);
        assert(s[20] == 0x2028 && s[21] == 0x2029 && s[22] == 0x202F && s[23] == 0x205F);
        assert(s[24] == 0x3000);
    }
}

} // verus!
