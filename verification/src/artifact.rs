//! The structural form of an on-disk artifact: a tree of typed fields.
//!
//! The loader consumes this tree; reading a file and turning its concrete
//! encoding into a [`Node`] is the caller's concern.  Records are ordered
//! lists of keyed entries; a lookup returns the first entry with the wanted
//! key.

use vstd::prelude::*;

verus! {

/// One node of the artifact tree.
#[derive(Debug)]
pub enum Node {
    /// A text field.
    Text(String),
    /// A small non-negative integer field.
    Uint(usize),
    /// An ordered list.
    List(Vec<Node>),
    /// A record of keyed entries, in artifact order.
    Object(Vec<(String, Node)>),
}

/// The first entry of `fields` keyed `name`, if any.
pub open spec fn field_of(fields: Seq<(String, Node)>, name: Seq<char>) -> Option<Node>
    decreases fields.len(),
{
    if fields.len() == 0 {
        None
    } else if fields[0].0@ == name {
        Some(fields[0].1)
    } else {
        field_of(fields.skip(1), name)
    }
}

/// Look a key up in a record, first match.
pub fn get_field<'a>(fields: &'a Vec<(String, Node)>, name: &String) -> (r: Option<&'a Node>)
    ensures
        match r {
            Some(n) => field_of(fields@, name@) == Some(*n),
            None => field_of(fields@, name@) is None,
        },
{
    let mut i: usize = 0;
    proof {
        assert(fields@.skip(0) =~= fields@);
    }
    while i < fields.len()
        invariant
            i <= fields@.len(),
            field_of(fields@, name@) == field_of(fields@.skip(i as int), name@),
        decreases fields@.len() - i,
    {
        proof {
            assert(fields@.skip(i as int)[0] == fields@[i as int]);
        }
        let hit = fields[i].0 == *name;
        if hit {
            return Some(&fields[i].1);
        }
        proof {
            assert(fields@.skip(i as int).skip(1) =~= fields@.skip(i as int + 1));
        }
        i += 1;
    }
    None
}

} // verus!
