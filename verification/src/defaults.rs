//! Default values that can be told from the text of a DEFAULT expression.

use crate::schema::{ColumnV, DataType, Schema, SchemaV};
use crate::text::{ascii_lower, equal_ignoring_ascii_case, i64_in_text, parse_i64, trim, trimmed};
use vstd::prelude::*;
use vstd::string::*;

verus! {

/// A literal in a DEFAULT expression, and the type of the column that it is for.
#[derive(Debug)]
pub enum DefaultLiteral {
    Null(DataType),
    Boolean(bool),
    Text(String, DataType),
    Integer(i64, DataType),
    /// Neither of the others: a number with a fraction or an exponent, or no literal.
    Other,
}

/// A literal, with its text as a sequence.
pub enum LiteralV {
    Null(DataType),
    Boolean(bool),
    Text(Seq<char>, DataType),
    Integer(i64, DataType),
    Other,
}

impl View for DefaultLiteral {
    type V = LiteralV;

    open spec fn view(&self) -> LiteralV {
        match *self {
            DefaultLiteral::Null(t) => LiteralV::Null(t),
            DefaultLiteral::Boolean(b) => LiteralV::Boolean(b),
            DefaultLiteral::Text(s, t) => LiteralV::Text(s@, t),
            DefaultLiteral::Integer(v, t) => LiteralV::Integer(v, t),
            DefaultLiteral::Other => LiteralV::Other,
        }
    }
}

/// `s` with every two quotes that follow each other, from the front, replaced by one.
pub open spec fn unescaped(s: Seq<char>) -> Seq<char>
    decreases s.len(),
{
    if s.len() == 0 {
        s
    } else if s.len() >= 2 && s[0] == '\'' && s[1] == '\'' {
        seq!['\''] + unescaped(s.skip(2))
    } else {
        seq![s[0]] + unescaped(s.skip(1))
    }
}

/// Whether every quote in `s` is one of two that follow each other, taken from the front: what stands
/// between the quotes of one literal, and not, for instance, two literals and an operator.
pub open spec fn quotes_are_doubled(s: Seq<char>) -> bool
    decreases s.len(),
{
    if s.len() == 0 {
        true
    } else if s[0] == '\'' {
        s.len() >= 2 && s[1] == '\'' && quotes_are_doubled(s.skip(2))
    } else {
        quotes_are_doubled(s.skip(1))
    }
}

fn unescape_quotes(s: &str) -> (r: Option<String>)
    ensures
        match r {
            Some(t) => quotes_are_doubled(s@) && t@ == unescaped(s@),
            None => !quotes_are_doubled(s@),
        },
{
    let n: usize = s.unicode_len();
    let mut out = String::new();
    let mut i: usize = 0;
    assert(s@.skip(0) =~= s@);
    assert(out@ + unescaped(s@) =~= unescaped(s@));
    while i < n
        invariant
            i <= n,
            n == s@.len(),
            out@ + unescaped(s@.skip(i as int)) == unescaped(s@),
            quotes_are_doubled(s@.skip(i as int)) == quotes_are_doubled(s@),
        decreases n - i,
    {
        let ghost rest = s@.skip(i as int);
        let ghost before = out@;
        let one = s.substring_char(i, i + 1);
        assert(one@ =~= seq![rest[0]]);
        let quote: bool = s.get_char(i) == '\'';
        if quote && (n - i < 2 || s.get_char(i + 1) != '\'') {
            return None;
        }
        out.append(one);
        if quote {
            assert(rest.skip(2) =~= s@.skip(i + 2));
            assert(before + (seq!['\''] + unescaped(rest.skip(2))) =~= out@ + unescaped(
                s@.skip(i + 2),
            ));
            i = i + 2;
        } else {
            assert(rest.skip(1) =~= s@.skip(i + 1));
            assert(before + (seq![rest[0]] + unescaped(rest.skip(1))) =~= out@ + unescaped(
                s@.skip(i + 1),
            ));
            i = i + 1;
        }
    }
    assert(s@.skip(i as int) =~= Seq::empty());
    assert(out@ + unescaped(s@.skip(i as int)) =~= out@);
    Some(out)
}

/// The literal that the text of an expression is; an expression that is more than a literal is none.
pub open spec fn literal_in(expr: Seq<char>, data_type: DataType) -> LiteralV {
    let e = trimmed(expr);
    if ascii_lower(e) == ascii_lower("null"@) {
        LiteralV::Null(data_type)
    } else if ascii_lower(e) == ascii_lower("true"@) {
        LiteralV::Boolean(true)
    } else if ascii_lower(e) == ascii_lower("false"@) {
        LiteralV::Boolean(false)
    } else if e.len() >= 2 && e[0] == '\'' && e.last() == '\'' {
        if quotes_are_doubled(e.subrange(1, e.len() - 1)) {
            LiteralV::Text(unescaped(e.subrange(1, e.len() - 1)), data_type)
        } else {
            LiteralV::Other
        }
    } else {
        match i64_in_text(e) {
            Some(v) => LiteralV::Integer(v, data_type),
            None => LiteralV::Other,
        }
    }
}

/// The literal that the text of a DEFAULT expression is: NULL, TRUE, FALSE, a text in single quotes,
/// or an integer.
pub fn try_parse_default_literal(expr: &str, data_type: DataType) -> (r: DefaultLiteral)
    ensures
        r@ == literal_in(expr@, data_type),
{
    let e = trim(expr);
    if equal_ignoring_ascii_case(e, "null") {
        return DefaultLiteral::Null(data_type);
    }
    if equal_ignoring_ascii_case(e, "true") {
        return DefaultLiteral::Boolean(true);
    }
    if equal_ignoring_ascii_case(e, "false") {
        return DefaultLiteral::Boolean(false);
    }
    let n: usize = e.unicode_len();
    if n >= 2 && e.get_char(0) == '\'' && e.get_char(n - 1) == '\'' {
        let inner = e.substring_char(1, n - 1);
        return match unescape_quotes(inner) {
            Some(text) => DefaultLiteral::Text(text, data_type),
            None => DefaultLiteral::Other,
        };
    }
    match parse_i64(e) {
        Some(v) => DefaultLiteral::Integer(v, data_type),
        None => DefaultLiteral::Other,
    }
}

/// Whether a check of whether bytes are a value may answer `valid`.
pub open spec fn checks_to<F: Fn(&[u8]) -> bool>(decodes: F, bytes: Seq<u8>, valid: bool) -> bool {
    exists|b: &[u8]| b@ == bytes && #[trigger] decodes.ensures((b,), valid)
}

/// Whether `after` is what is left of a stored default value once it was checked: all of it, or
/// nothing where its bytes are no value.
pub open spec fn is_checked_default<F: Fn(&[u8]) -> bool>(
    decodes: F,
    before: Option<Seq<u8>>,
    after: Option<Seq<u8>>,
) -> bool {
    match before {
        Some(b) => {
            ||| after == Some(b) && checks_to(decodes, b, true)
            ||| after is None && checks_to(decodes, b, false)
        },
        None => after is None,
    }
}

impl Schema {
    /// Drops the stored default values whose bytes are no value. What the columns' expressions say
    /// takes their place.
    pub fn drop_undecodable_defaults<F: Fn(&[u8]) -> bool>(&mut self, decodes: &F)
        requires
            forall|b: &[u8]| #[trigger] decodes.requires((b,)),
        ensures
            final(self)@ == (SchemaV { columns: final(self)@.columns, ..old(self)@ }),
            final(self)@.columns.len() == old(self)@.columns.len(),
            forall|i: int|
                0 <= i < old(self)@.columns.len() ==> {
                    let before = old(self)@.columns[i];
                    let after = #[trigger] final(self)@.columns[i];
                    &&& after == (ColumnV { default_value: after.default_value, ..before })
                    &&& is_checked_default(*decodes, before.default_value, after.default_value)
                },
    {
        let ghost start = self.columns@;
        let mut i: usize = 0;
        while i < self.columns.len()
            invariant
                i <= self.columns@.len(),
                self.columns@.len() == start.len(),
                start == old(self).columns@,
                self.table_name == old(self).table_name,
                self.table_name_lower == old(self).table_name_lower,
                self.foreign_keys == old(self).foreign_keys,
                self.created_at == old(self).created_at,
                self.updated_at == old(self).updated_at,
                self.cluster_key == old(self).cluster_key,
                forall|b: &[u8]| #[trigger] decodes.requires((b,)),
                forall|k: int| i <= k < start.len() ==> #[trigger] self.columns@[k] == start[k],
                forall|k: int|
                    0 <= k < i ==> {
                        let before = start[k]@;
                        let after = (#[trigger] self.columns@[k])@;
                        &&& after == (ColumnV { default_value: after.default_value, ..before })
                        &&& is_checked_default(*decodes, before.default_value, after.default_value)
                    },
            decreases self.columns@.len() - i,
        {
            let valid: bool = match &self.columns[i].default_value {
                Some(b) => {
                    let bytes: &[u8] = b.as_slice();
                    let v: bool = decodes(bytes);
                    assert(checks_to(*decodes, bytes@, v));
                    v
                },
                None => true,
            };
            if !valid {
                self.columns[i].default_value = None;
            }
            i = i + 1;
        }
        proof {
            assert forall|k: int| 0 <= k < start.len() implies {
                let before = old(self)@.columns[k];
                let after = #[trigger] self@.columns[k];
                &&& after == (ColumnV { default_value: after.default_value, ..before })
                &&& is_checked_default(*decodes, before.default_value, after.default_value)
            } by {
                assert(self@.columns[k] == self.columns@[k]@);
                assert(old(self)@.columns[k] == start[k]@);
            }
        }
    }
}

/// Whether a column's default value is to be told from its expression: it has the one and lacks the
/// other.
pub open spec fn lacks_default(c: ColumnV) -> bool {
    c.default_value is None && c.default_expr is Some
}

/// The columns whose default values are to be told from their expressions, with the literals, in
/// order.
pub open spec fn missing_defaults(columns: Seq<ColumnV>) -> Seq<(nat, LiteralV)>
    decreases columns.len(),
{
    if columns.len() == 0 {
        Seq::empty()
    } else {
        let before = missing_defaults(columns.drop_last());
        let c = columns.last();
        if lacks_default(c) {
            before.push(
                ((columns.len() - 1) as nat, literal_in(c.default_expr->Some_0, c.data_type)),
            )
        } else {
            before
        }
    }
}

/// The view of a list of positions with literals.
pub open spec fn literal_views(s: Seq<(usize, DefaultLiteral)>) -> Seq<(nat, LiteralV)> {
    s.map_values(|e: (usize, DefaultLiteral)| (e.0 as nat, e.1@))
}

/// The columns of a schema whose default values are to be told from their expressions, with the
/// literals. Schemas that were stored without encoded default values need this.
pub fn schema_defaults_to_populate(schema: &Schema) -> (r: Vec<(usize, DefaultLiteral)>)
    ensures
        literal_views(r@) == missing_defaults(schema@.columns),
{
    let ghost columns = schema@.columns;
    let mut out: Vec<(usize, DefaultLiteral)> = Vec::new();
    let mut i: usize = 0;
    assert(columns.take(0) =~= Seq::empty());
    assert(literal_views(out@) =~= Seq::empty());
    while i < schema.columns.len()
        invariant
            i <= schema.columns@.len(),
            columns == schema@.columns,
            literal_views(out@) == missing_defaults(columns.take(i as int)),
        decreases schema.columns@.len() - i,
    {
        proof {
            assert(columns.take(i + 1).drop_last() =~= columns.take(i as int));
            assert(columns.take(i + 1).last() == schema.columns@[i as int]@);
        }
        if schema.columns[i].default_value.is_none() {
            match &schema.columns[i].default_expr {
                Some(expr) => {
                    let literal = try_parse_default_literal(
                        expr.as_str(),
                        schema.columns[i].data_type,
                    );
                    let ghost before = out@;
                    let ghost v = literal@;
                    out.push((i, literal));
                    assert(literal_views(out@) =~= literal_views(before).push((i as nat, v)));
                },
                None => {},
            }
        }
        i = i + 1;
    }
    assert(columns.take(i as int) =~= columns);
    out
}

/// Drops the stored default values of a schema whose bytes are no value, and gives the columns whose
/// default values are to be told from their expressions, with the literals, in order.
pub fn settle_defaults<F: Fn(&[u8]) -> bool>(schema: &mut Schema, decodes: &F) -> (r: Vec<
    (usize, DefaultLiteral),
>)
    requires
        forall|b: &[u8]| #[trigger] decodes.requires((b,)),
    ensures
        final(schema)@ == (SchemaV { columns: final(schema)@.columns, ..old(schema)@ }),
        final(schema)@.columns.len() == old(schema)@.columns.len(),
        forall|i: int|
            0 <= i < old(schema)@.columns.len() ==> {
                let before = old(schema)@.columns[i];
                let after = #[trigger] final(schema)@.columns[i];
                &&& after == (ColumnV { default_value: after.default_value, ..before })
                &&& is_checked_default(*decodes, before.default_value, after.default_value)
            },
        literal_views(r@) == missing_defaults(final(schema)@.columns),
{
    schema.drop_undecodable_defaults(decodes);
    schema_defaults_to_populate(schema)
}

} // verus!
