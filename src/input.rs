//! Choice of the default input among the files of a folder.

use vstd::prelude::*;
use vstd::string::StrSliceExecFns;
use crate::names::views;

verus! {

/// Index of the last `.` in `s` before index `end`, or -1.
pub open spec fn last_dot(s: Seq<char>, end: int) -> int
    decreases end,
{
    if end <= 0 {
        -1
    } else if s[end - 1] == '.' {
        end - 1
    } else {
        last_dot(s, end - 1)
    }
}

/// The file name has the extension `pbf`: the text after its last dot, a
/// dot that does not start the name.
pub open spec fn is_pbf_name(s: Seq<char>) -> bool {
    let p = last_dot(s, s.len() as int);
    p > 0 && s.subrange(p + 1, s.len() as int) == "pbf"@
}

/// Number of binary map files among the first `n` names.
pub open spec fn pbf_count(names: Seq<Seq<char>>, n: int) -> int
    decreases n,
{
    if n <= 0 {
        0
    } else {
        pbf_count(names, n - 1) + if is_pbf_name(names[n - 1]) {
            1int
        } else {
            0int
        }
    }
}

/// Why no default input could be chosen.
#[derive(Clone, Copy, Debug, PartialEq, Eq, Structural)]
pub enum DefaultInputError {
    /// The folder holds no binary map file.
    NoCandidate,
    /// The folder holds more than one.
    Ambiguous,
}

/// Whether a file name has the extension of the binary map format.
pub fn has_pbf_extension(name: &str) -> (r: bool)
    ensures
        r == is_pbf_name(name@),
{
    let n = name.unicode_len();
    let mut end = n;
    while end > 0 && name.get_char(end - 1) != '.'
        invariant
            n == name@.len(),
            0 <= end <= n,
            last_dot(name@, end as int) == last_dot(name@, n as int),
        decreases end,
    {
        end = end - 1;
    }
    if end <= 1 {
        return false;
    }
    let p = end - 1;
    let tail = name.substring_char(p + 1, n);
    crate::text::text_eq(tail, "pbf")
}

/// The index of the only binary map file among the names of a folder's
/// files; an error when there is none or more than one.
pub fn find_default_pbf(names: &Vec<String>) -> (r: Result<usize, DefaultInputError>)
    ensures
        match r {
            Ok(i) => pbf_count(views(names@), names@.len() as int) == 1 && i < names@.len()
                && is_pbf_name(names@[i as int]@),
            Err(DefaultInputError::NoCandidate) => pbf_count(views(names@), names@.len() as int) == 0,
            Err(DefaultInputError::Ambiguous) => pbf_count(views(names@), names@.len() as int) > 1,
        },
{
    let ghost vs = views(names@);
    let mut found: Option<usize> = None;
    let mut count: usize = 0;
    let mut i: usize = 0;
    while i < names.len()
        invariant
            0 <= i <= names@.len(),
            vs == views(names@),
            count == pbf_count(vs, i as int),
            count <= i,
            count == 0 <==> found is None,
            found matches Some(f) ==> f < i && is_pbf_name(vs[f as int]),
            count == 0 ==> forall|q: int| 0 <= q < i ==> !is_pbf_name(#[trigger] vs[q]),
            count == 1 ==> (found matches Some(f) && forall|q: int| 0 <= q < i && q != f ==> !is_pbf_name(#[trigger] vs[q])),
        decreases names@.len() - i,
    {
        if has_pbf_extension(names[i].as_str()) {
            if count == 0 {
                found = Some(i);
            }
            count = count + 1;
        }
        i = i + 1;
    }
    match found {
        None => Err(DefaultInputError::NoCandidate),
        Some(f) => if count == 1 {
            Ok(f)
        } else {
            Err(DefaultInputError::Ambiguous)
        },
    }
}

} // verus!
