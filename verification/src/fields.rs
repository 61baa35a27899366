//! Which fields of a record travel in a stream of their own.
//!
//! A record is sent as one stream of its fields of fixed width and one stream
//! for each field of variable length. A field is of variable length if its
//! type is a vector or a text.

use vstd::prelude::*;

verus! {

/// Whether a type of this name, the last segment of its path, is a vector or
/// a text.
pub open spec fn sequence_name(name: Seq<char>) -> bool {
    name == "Vec"@ || name == "String"@ || name == "str"@
}

/// Whether a field is of variable length, given the last segment of the path
/// of its type, or none where its type is no path.
pub open spec fn variable_length(segment: Option<String>) -> bool {
    match segment {
        Some(name) => sequence_name(name@),
        None => false,
    }
}

/// The places below `k` of the fields that are of variable length, or of those
/// that are not, in order.
pub open spec fn places(segments: Seq<Option<String>>, variable: bool, k: int) -> Seq<usize>
    decreases k,
{
    if k <= 0 {
        Seq::empty()
    } else if variable_length(segments[k - 1]) == variable {
        places(segments, variable, k - 1).push((k - 1) as usize)
    } else {
        places(segments, variable, k - 1)
    }
}

/// Whether a type of this name is a vector or a text.
pub fn is_sequence_type(name: &str) -> (r: bool)
    ensures
        r == sequence_name(name@),
{
    let name = name.to_owned();
    name == "Vec".to_owned() || name == "String".to_owned() || name == "str".to_owned()
}

/// The places of the fields of fixed width, and the places of the fields of
/// variable length, each in the order of the record.
pub fn split_fields(segments: &Vec<Option<String>>) -> (r: (Vec<usize>, Vec<usize>))
    ensures
        r.0@ == places(segments@, false, segments@.len() as int),
        r.1@ == places(segments@, true, segments@.len() as int),
{
    let mut non_vec_fields: Vec<usize> = Vec::new();
    let mut vec_fields: Vec<usize> = Vec::new();
    let mut i: usize = 0;
    while i < segments.len()
        invariant
            i <= segments@.len(),
            non_vec_fields@ == places(segments@, false, i as int),
            vec_fields@ == places(segments@, true, i as int),
        decreases segments@.len() - i,
    {
        let is_vec = match &segments[i] {
            Some(name) => is_sequence_type(name.as_str()),
            None => false,
        };
        if is_vec {
            vec_fields.push(i);
        } else {
            non_vec_fields.push(i);
        }
        i += 1;
    }
    (non_vec_fields, vec_fields)
}

} // verus!
