//! Views: a name and the query that defines it.

use crate::bytes::{
    le_bytes, lemma_byte_range, lemma_join_assoc, lemma_split_bytes, lemma_split_le, push_bytes,
    push_le, split_bytes, split_le, take_bytes, take_u16, take_u32,
};
use crate::schema_codec::push_text16;
use crate::schema_format::{fits16, text16};
use crate::text::{lemma_utf8_round_trip, lowercase, unicode_lowercase, utf8_string};
use vstd::prelude::*;
use vstd::string::*;
use vstd::utf8::*;

verus! {

/// The query that defines a view.
#[derive(Debug)]
pub struct ViewDefinition {
    /// The name in lower case, under which the view is found.
    pub name: String,
    /// The name as it was given.
    pub original_name: String,
    /// The text of the query.
    pub query: String,
}

/// A view definition, with its texts as sequences.
pub struct ViewV {
    pub name: Seq<char>,
    pub original_name: Seq<char>,
    pub query: Seq<char>,
}

impl View for ViewDefinition {
    type V = ViewV;

    open spec fn view(&self) -> ViewV {
        ViewV { name: self.name@, original_name: self.original_name@, query: self.query@ }
    }
}

/// The definition of the view called `name` by `query`.
pub open spec fn view_of(name: Seq<char>, query: Seq<char>) -> ViewV {
    ViewV { name: unicode_lowercase(name), original_name: name, query }
}

/// Why bytes are not a stored view definition.
#[derive(Debug, Clone, Copy, PartialEq, Eq, Structural)]
pub enum ViewError {
    MissingNameLength,
    MissingName,
    InvalidName,
    MissingQueryLength,
    MissingQuery,
    InvalidQuery,
}

/// A stored view definition: the name behind its length in two bytes, and the query behind its
/// length in four.
pub open spec fn view_bytes(v: ViewV) -> Seq<u8> {
    text16(v.original_name) + (le_bytes(encode_utf8(v.query).len(), 4) + encode_utf8(v.query))
}

/// The name and the query at the front of `b`, as bytes.
pub open spec fn split_view(b: Seq<u8>) -> Result<(Seq<u8>, Seq<u8>), ViewError> {
    match split_le(b, 2) {
        None => Err(ViewError::MissingNameLength),
        Some((n, b1)) => match split_bytes(b1, n) {
            None => Err(ViewError::MissingName),
            Some((name, b2)) => match split_le(b2, 4) {
                None => if valid_utf8(name) {
                    Err(ViewError::MissingQueryLength)
                } else {
                    Err(ViewError::InvalidName)
                },
                Some((m, b3)) => match split_bytes(b3, m) {
                    None => if valid_utf8(name) {
                        Err(ViewError::MissingQuery)
                    } else {
                        Err(ViewError::InvalidName)
                    },
                    Some((query, b4)) => Ok((name, query)),
                },
            },
        },
    }
}

/// The view definition at the front of `b`.
pub open spec fn read_view(b: Seq<u8>) -> Result<ViewV, ViewError> {
    match split_view(b) {
        Err(e) => Err(e),
        Ok((name, query)) => if !valid_utf8(name) {
            Err(ViewError::InvalidName)
        } else if !valid_utf8(query) {
            Err(ViewError::InvalidQuery)
        } else {
            Ok(view_of(decode_utf8(name), decode_utf8(query)))
        },
    }
}

impl ViewDefinition {
    /// The definition of the view called `name` by `query`.
    pub fn new(name: &str, query: String) -> (r: ViewDefinition)
        ensures
            r@ == view_of(name@, query@),
    {
        ViewDefinition { name: lowercase(name), original_name: name.to_owned(), query }
    }

    /// The definition as it is stored. A length that does not fit is stored by its low bytes.
    pub fn serialize(&self) -> (buf: Vec<u8>)
        ensures
            buf@ == view_bytes(self@),
    {
        let mut buf: Vec<u8> = Vec::new();
        push_text16(&mut buf, self.original_name.as_str());
        let query = self.query.as_str().as_bytes();
        push_le(&mut buf, query.len() as u64, 4);
        push_bytes(&mut buf, query);
        proof {
            lemma_join_assoc(text16(self@.original_name), le_bytes(query@.len(), 4), query@);
            assert(Seq::<u8>::empty() + text16(self@.original_name) =~= text16(self@.original_name));
        }
        buf
    }

    /// Reads a stored definition; bytes behind it are ignored.
    pub fn deserialize(data: &[u8]) -> (r: Result<ViewDefinition, ViewError>)
        ensures
            match r {
                Ok(v) => read_view(data@) == Ok::<ViewV, ViewError>(v@),
                Err(e) => read_view(data@) == Err::<ViewV, ViewError>(e),
            },
    {
        let (n, b1) = match take_u16(data) {
            Some(v) => v,
            None => {
                return Err(ViewError::MissingNameLength);
            },
        };
        let (name, b2) = match take_bytes(b1, n as usize) {
            Some(v) => v,
            None => {
                return Err(ViewError::MissingName);
            },
        };
        let original_name = match utf8_string(name) {
            Some(s) => s,
            None => {
                return Err(ViewError::InvalidName);
            },
        };
        let (m, b3) = match take_u32(b2) {
            Some(v) => v,
            None => {
                return Err(ViewError::MissingQueryLength);
            },
        };
        match take_bytes(b3, m as usize) {
            None => Err(ViewError::MissingQuery),
            Some((query, b4)) => match utf8_string(query) {
                Some(q) => Ok(ViewDefinition::new(original_name.as_str(), q)),
                None => Err(ViewError::InvalidQuery),
            },
        }
    }

    /// A copy of the definition.
    pub fn duplicate(&self) -> (r: ViewDefinition)
        ensures
            r@ == self@,
    {
        ViewDefinition {
            name: self.name.as_str().to_owned(),
            original_name: self.original_name.as_str().to_owned(),
            query: self.query.as_str().to_owned(),
        }
    }
}

/// A stored view definition is read back as it was made, whatever stands behind it, where its
/// lengths fit.
pub proof fn view_round_trip(name: Seq<char>, query: Seq<char>, rest: Seq<u8>)
    requires
        fits16(name),
        encode_utf8(query).len() < 0x1_0000_0000,
    ensures
        read_view(view_bytes(view_of(name, query)) + rest) == Ok::<ViewV, ViewError>(
            view_of(name, query),
        ),
{
    reveal(text16);
    let n = encode_utf8(name);
    let q = encode_utf8(query);
    let x1 = le_bytes(q.len(), 4) + q;
    lemma_byte_range();
    lemma_utf8_round_trip(name);
    lemma_utf8_round_trip(query);
    lemma_join_assoc(text16(name), x1, rest);
    lemma_join_assoc(le_bytes(n.len(), 2), n, x1 + rest);
    lemma_join_assoc(le_bytes(q.len(), 4), q, rest);
    lemma_split_le(n.len(), 2, n + (x1 + rest));
    lemma_split_bytes(n, x1 + rest);
    lemma_split_le(q.len(), 4, q + rest);
    lemma_split_bytes(q, rest);
}

} // verus!
