//! Changes to a schema.

use crate::schema::{
    ColumnV, DataType, ForeignKeyConstraint, ForeignKeyV, Schema, SchemaColumn, SchemaV,
    column_views, foreign_key_views, position_views,
};
use crate::text::{lowercase, unicode_lowercase};
use vstd::prelude::*;
use vstd::string::*;

verus! {

/// The position of the first column called `name`, whatever the case of its letters.
pub open spec fn column_called(columns: Seq<ColumnV>, name: Seq<char>) -> Option<nat>
    decreases columns.len(),
{
    if columns.len() == 0 {
        None
    } else {
        match column_called(columns.drop_last(), name) {
            Some(i) => Some(i),
            None => if columns.last().name_lower == unicode_lowercase(name) {
                Some((columns.len() - 1) as nat)
            } else {
                None
            },
        }
    }
}

/// The number behind which the positions of the columns after `p` move when the column at `p` goes.
pub open spec fn moved(i: nat, p: nat) -> nat {
    if i > p {
        (i - 1) as nat
    } else {
        i
    }
}

/// A schema with one more column.
pub open spec fn with_column(s: SchemaV, c: ColumnV) -> SchemaV {
    SchemaV { columns: s.columns.push(c), ..s }
}

/// Columns numbered by their positions.
pub open spec fn renumbered(columns: Seq<ColumnV>) -> Seq<ColumnV> {
    Seq::new(columns.len(), |i: int| ColumnV { id: i as nat, ..columns[i] })
}

/// The foreign keys that are left when the column at `p` goes.
pub open spec fn keys_without(keys: Seq<ForeignKeyV>, p: nat) -> Seq<ForeignKeyV>
    decreases keys.len(),
{
    if keys.len() == 0 {
        Seq::empty()
    } else {
        let before = keys_without(keys.drop_last(), p);
        let k = keys.last();
        if k.column_index == p {
            before
        } else {
            before.push(ForeignKeyV { column_index: moved(k.column_index, p), ..k })
        }
    }
}

/// The clustering key that is left when the column at `p` goes.
pub open spec fn key_without(key: Seq<nat>, p: nat) -> Seq<nat>
    decreases key.len(),
{
    if key.len() == 0 {
        Seq::empty()
    } else {
        let before = key_without(key.drop_last(), p);
        if key.last() == p {
            before
        } else {
            before.push(moved(key.last(), p))
        }
    }
}

/// A schema without the column at `p`, with everything that speaks of columns by their positions
/// moved along.
pub open spec fn without_column(s: SchemaV, p: nat) -> SchemaV {
    SchemaV {
        columns: renumbered(s.columns.remove(p as int)),
        foreign_keys: keys_without(s.foreign_keys, p),
        cluster_key: key_without(s.cluster_key, p),
        ..s
    }
}

/// A schema with another column at `p`.
pub open spec fn with_column_at(s: SchemaV, p: nat, c: ColumnV) -> SchemaV {
    SchemaV { columns: s.columns.update(p as int, c), ..s }
}

/// A column with another name.
pub open spec fn renamed_column(c: ColumnV, name: Seq<char>) -> ColumnV {
    ColumnV { name, name_lower: unicode_lowercase(name), ..c }
}

/// Foreign keys that do not reference the table `parent`.
pub open spec fn keys_not_to(keys: Seq<ForeignKeyV>, parent: Seq<char>) -> Seq<ForeignKeyV> {
    keys.filter(|k: ForeignKeyV| k.referenced_table != parent)
}

impl Schema {
    /// The position of the column called `name`, whatever the case of its letters.
    pub fn get_column_index(&self, name: &str) -> (r: Option<usize>)
        ensures
            match r {
                Some(i) => column_called(self@.columns, name@) == Some(i as nat) && i
                    < self.columns@.len(),
                None => column_called(self@.columns, name@) is None,
            },
    {
        let wanted = lowercase(name);
        let ghost columns = self@.columns;
        let mut i: usize = 0;
        assert(columns.take(0) =~= Seq::empty());
        while i < self.columns.len()
            invariant
                i <= self.columns@.len(),
                columns == self@.columns,
                wanted@ == unicode_lowercase(name@),
                column_called(columns.take(i as int), name@) is None,
            decreases self.columns@.len() - i,
        {
            proof {
                assert(columns.take(i + 1).drop_last() =~= columns.take(i as int));
                assert(columns.take(i + 1).last() == self.columns@[i as int]@);
            }
            if self.columns[i].name_lower == wanted {
                proof {
                    lemma_column_prefix(columns, name@, i + 1);
                }
                return Some(i);
            }
            i = i + 1;
        }
        assert(columns.take(i as int) =~= columns);
        None
    }

    /// Whether there is a column called `name`, whatever the case of its letters.
    pub fn has_column(&self, name: &str) -> (r: bool)
        ensures
            r == column_called(self@.columns, name@) is Some,
    {
        self.get_column_index(name).is_some()
    }

    /// Adds a column.
    pub fn add_column(&mut self, column: SchemaColumn)
        ensures
            final(self)@ == with_column(old(self)@, column@),
    {
        self.columns.push(column);
        assert(self@.columns =~= old(self)@.columns.push(column@));
    }

    /// Takes the column at a position out.
    pub fn remove_column(&mut self, p: usize)
        requires
            p < old(self).columns@.len(),
        ensures
            final(self)@ == without_column(old(self)@, p as nat),
    {
        let mut columns: Vec<SchemaColumn> = Vec::new();
        let ghost goal = without_column(self@, p as nat).columns;
        let mut i: usize = 0;
        while i < self.columns.len()
            invariant
                p < self.columns@.len(),
                i <= self.columns@.len(),
                self@ == old(self)@,
                goal == renumbered(self@.columns.remove(p as int)),
                columns@.len() == if i <= p {
                    i as int
                } else {
                    i - 1
                },
                column_views(columns@) == goal.take(columns@.len() as int),
            decreases self.columns@.len() - i,
        {
            if i != p {
                let mut column = self.columns[i].duplicate();
                column.id = columns.len();
                let ghost before = columns@;
                columns.push(column);
                proof {
                    assert(column_views(columns@) =~= column_views(before).push(column@));
                    assert(goal[before.len() as int] == column@);
                    assert(goal.take(columns@.len() as int) =~= goal.take(
                        before.len() as int,
                    ).push(column@));
                }
            }
            i = i + 1;
        }
        assert(goal.take(columns@.len() as int) =~= goal);
        let foreign_keys = self.keys_left_without(p);
        let cluster_key = self.cluster_key_left_without(p);
        self.columns = columns;
        self.foreign_keys = foreign_keys;
        self.cluster_key = cluster_key;
    }

    fn keys_left_without(&self, p: usize) -> (r: Vec<ForeignKeyConstraint>)
        ensures
            foreign_key_views(r@) == keys_without(self@.foreign_keys, p as nat),
    {
        let ghost keys = self@.foreign_keys;
        let mut out: Vec<ForeignKeyConstraint> = Vec::new();
        let mut i: usize = 0;
        assert(keys.take(0) =~= Seq::empty());
        assert(foreign_key_views(out@) =~= Seq::empty());
        while i < self.foreign_keys.len()
            invariant
                i <= self.foreign_keys@.len(),
                keys == self@.foreign_keys,
                foreign_key_views(out@) == keys_without(keys.take(i as int), p as nat),
            decreases self.foreign_keys@.len() - i,
        {
            proof {
                assert(keys.take(i + 1).drop_last() =~= keys.take(i as int));
                assert(keys.take(i + 1).last() == self.foreign_keys@[i as int]@);
            }
            if self.foreign_keys[i].column_index != p {
                let mut key = self.foreign_keys[i].duplicate();
                if key.column_index > p {
                    key.column_index = key.column_index - 1;
                }
                let ghost before = out@;
                out.push(key);
                assert(foreign_key_views(out@) =~= foreign_key_views(before).push(key@));
            }
            i = i + 1;
        }
        assert(keys.take(i as int) =~= keys);
        out
    }

    fn cluster_key_left_without(&self, p: usize) -> (r: Vec<usize>)
        ensures
            position_views(r@) == key_without(self@.cluster_key, p as nat),
    {
        let ghost key = self@.cluster_key;
        let mut out: Vec<usize> = Vec::new();
        let mut i: usize = 0;
        assert(key.take(0) =~= Seq::empty());
        assert(position_views(out@) =~= Seq::empty());
        while i < self.cluster_key.len()
            invariant
                i <= self.cluster_key@.len(),
                key == self@.cluster_key,
                position_views(out@) == key_without(key.take(i as int), p as nat),
            decreases self.cluster_key@.len() - i,
        {
            proof {
                assert(key.take(i + 1).drop_last() =~= key.take(i as int));
                assert(key.take(i + 1).last() == self.cluster_key@[i as int] as nat);
            }
            let position: usize = self.cluster_key[i];
            if position != p {
                let left: usize = if position > p {
                    position - 1
                } else {
                    position
                };
                let ghost before = out@;
                out.push(left);
                assert(position_views(out@) =~= position_views(before).push(left as nat));
            }
            i = i + 1;
        }
        assert(key.take(i as int) =~= key);
        out
    }

    /// Gives the column at a position another name.
    pub fn rename_column(&mut self, p: usize, name: &str)
        requires
            p < old(self).columns@.len(),
        ensures
            final(self)@ == with_column_at(
                old(self)@,
                p as nat,
                renamed_column(old(self)@.columns[p as int], name@),
            ),
    {
        let mut column = self.columns[p].duplicate();
        column.name = name.to_owned();
        column.name_lower = lowercase(name);
        self.columns.set(p, column);
        assert(self@.columns =~= old(self)@.columns.update(p as int, column@));
    }

    /// Gives the column at a position another type, and the dimensions that are given.
    pub fn modify_column(
        &mut self,
        p: usize,
        data_type: DataType,
        nullable: bool,
        vector_dimensions: Option<u16>,
    )
        requires
            p < old(self).columns@.len(),
        ensures
            final(self)@ == with_column_at(
                old(self)@,
                p as nat,
                modified_column(
                    old(self)@.columns[p as int],
                    data_type,
                    nullable,
                    vector_dimensions,
                ),
            ),
    {
        let mut column = self.columns[p].duplicate();
        column.data_type = data_type;
        column.nullable = nullable;
        match vector_dimensions {
            Some(d) => {
                column.vector_dimensions = d;
            },
            None => {},
        }
        self.columns.set(p, column);
        assert(self@.columns =~= old(self)@.columns.update(p as int, column@));
    }

    /// Takes out the foreign keys that reference the table `parent`.
    pub fn strip_references(&mut self, parent: &str)
        ensures
            final(self)@ == (SchemaV {
                foreign_keys: keys_not_to(old(self)@.foreign_keys, parent@),
                ..old(self)@
            }),
    {
        let ghost keys = self@.foreign_keys;
        let ghost pred = |k: ForeignKeyV| k.referenced_table != parent@;
        let wanted = parent.to_owned();
        let mut out: Vec<ForeignKeyConstraint> = Vec::new();
        let mut i: usize = 0;
        proof {
            reveal(Seq::filter);
            assert(keys.take(0) =~= Seq::empty());
            assert(foreign_key_views(out@) =~= Seq::empty());
        }
        while i < self.foreign_keys.len()
            invariant
                i <= self.foreign_keys@.len(),
                self@ == old(self)@,
                keys == self@.foreign_keys,
                pred == (|k: ForeignKeyV| k.referenced_table != parent@),
                wanted@ == parent@,
                foreign_key_views(out@) == keys.take(i as int).filter(pred),
            decreases self.foreign_keys@.len() - i,
        {
            proof {
                reveal(Seq::filter);
                assert(keys.take(i + 1).drop_last() =~= keys.take(i as int));
                assert(keys.take(i + 1).last() == self.foreign_keys@[i as int]@);
            }
            if !(self.foreign_keys[i].referenced_table == wanted) {
                let key = self.foreign_keys[i].duplicate();
                let ghost before = out@;
                out.push(key);
                assert(foreign_key_views(out@) =~= foreign_key_views(before).push(key@));
            }
            i = i + 1;
        }
        assert(keys.take(i as int) =~= keys);
        self.foreign_keys = out;
    }
}

/// A column with another type, and with the dimensions that are given.
pub open spec fn modified_column(
    c: ColumnV,
    data_type: DataType,
    nullable: bool,
    vector_dimensions: Option<u16>,
) -> ColumnV {
    ColumnV {
        data_type,
        nullable,
        vector_dimensions: match vector_dimensions {
            Some(d) => d as nat,
            None => c.vector_dimensions,
        },
        ..c
    }
}

proof fn lemma_column_prefix(columns: Seq<ColumnV>, name: Seq<char>, n: int)
    requires
        0 <= n <= columns.len(),
        column_called(columns.take(n), name) is Some,
    ensures
        column_called(columns, name) == column_called(columns.take(n), name),
    decreases columns.len(),
{
    if n == columns.len() {
        assert(columns.take(n) =~= columns);
    } else {
        assert(columns.drop_last().take(n) =~= columns.take(n));
        lemma_column_prefix(columns.drop_last(), name, n);
    }
}

/// The column that is found is in the schema and is called so; where none is found, none is.
pub proof fn lemma_column_called(columns: Seq<ColumnV>, name: Seq<char>)
    ensures
        match column_called(columns, name) {
            Some(i) => i < columns.len() && columns[i as int].name_lower == unicode_lowercase(name),
            None => forall|i: int|
                0 <= i < columns.len() ==> (#[trigger] columns[i]).name_lower
                    != unicode_lowercase(name),
        },
    decreases columns.len(),
{
    if columns.len() > 0 {
        lemma_column_called(columns.drop_last(), name);
        assert forall|i: int| 0 <= i < columns.len() - 1 implies #[trigger] columns[i]
            == columns.drop_last()[i] by {}
    }
}

} // verus!
