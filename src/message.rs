//! Messages of the form `<category> <value>`, as a chat sends them.
use vstd::prelude::*;
use crate::entry::find_char;
use crate::error::TrackError;
use crate::text::{chars_of, slice_chars, string_of, trim, trim_chars};

verus! {

/// A message split at its first space into a category and the trimmed rest.
pub open spec fn split_spec(data: Seq<char>) -> Result<(Seq<char>, Seq<char>), TrackError> {
    match find_char(data, 0, ' ') {
        None => Err(TrackError::MalformedMessage),
        Some(i) => {
            let c = data.take(i);
            let v = trim(data.skip(i));
            if c.len() == 0 {
                Err(TrackError::EmptyCategory)
            } else if v.len() == 0 {
                Err(TrackError::EmptyValue)
            } else {
                Ok((c, v))
            }
        },
    }
}

/// Splits a message into its category and its value.
pub fn split_message(data: &str) -> (r: Result<(String, String), TrackError>)
    ensures
        r matches Ok((c, v)) ==> split_spec(data@) == Ok::<(Seq<char>, Seq<char>), TrackError>((c@, v@)),
        r matches Err(x) ==> split_spec(data@) == Err::<(Seq<char>, Seq<char>), TrackError>(x),
{
    let d = chars_of(data);
    let mut i: usize = 0;
    while i < d.len() && d[i] != ' '
        invariant
            i <= d@.len(),
            find_char(d@, 0, ' ') == find_char(d@, i as int, ' '),
        decreases d@.len() - i,
    {
        i = i + 1;
    }
    if i == d.len() {
        return Err(TrackError::MalformedMessage);
    }
    let c = slice_chars(&d, 0, i);
    let v = trim_chars(&slice_chars(&d, i, d.len()));
    assert(c@ =~= d@.take(i as int));
    assert(d@.subrange(i as int, d@.len() as int) =~= d@.skip(i as int));
    if c.len() == 0 {
        return Err(TrackError::EmptyCategory);
    }
    if v.len() == 0 {
        return Err(TrackError::EmptyValue);
    }
    Ok((string_of(&c), string_of(&v)))
}

} // verus!
