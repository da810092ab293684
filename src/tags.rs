//! Tag lists and the classification of features by their tags.

use vstd::prelude::*;
use crate::text::text_eq;

verus! {

/// One `key = value` tag of a map entity.
#[derive(Clone, Debug)]
pub struct Tag {
    pub key: String,
    pub value: String,
}

impl Tag {
    pub fn new(key: String, value: String) -> (r: Tag)
        ensures
            r.key@ == key@,
            r.value@ == value@,
    {
        Tag { key, value }
    }
}

/// No key is repeated: a map entity carries each key at most once.
pub open spec fn keys_unique(tags: Seq<Tag>) -> bool {
    forall|i: int, j: int| 0 <= i < j < tags.len() ==> (#[trigger] tags[i]).key@ != (#[trigger] tags[j]).key@
}

/// Value of the first tag from index `i` on whose key is `k`.
pub open spec fn lookup_from(tags: Seq<Tag>, k: Seq<char>, i: int) -> Option<Seq<char>>
    decreases tags.len() - i,
{
    if i < 0 || i >= tags.len() {
        None
    } else if tags[i].key@ == k {
        Some(tags[i].value@)
    } else {
        lookup_from(tags, k, i + 1)
    }
}

/// Value of the tag with key `k`; the first one should a key repeat.
pub open spec fn tag_value(tags: Seq<Tag>, k: Seq<char>) -> Option<Seq<char>> {
    lookup_from(tags, k, 0)
}

/// The tag `k` is present with a non-empty value.
pub open spec fn has_value(tags: Seq<Tag>, k: Seq<char>) -> bool {
    tag_value(tags, k) matches Some(v) && v.len() > 0
}

/// The tag `k` is present with one of `values`.
pub open spec fn value_in(tags: Seq<Tag>, k: Seq<char>, values: Seq<Seq<char>>) -> bool {
    tag_value(tags, k) matches Some(v) && values.contains(v)
}

/// The characters of each string.
pub open spec fn texts(values: Seq<&str>) -> Seq<Seq<char>> {
    values.map_values(|v: &str| v@)
}

/// Index of the tag with key `key`, if any.
pub fn find_tag(tags: &Vec<Tag>, key: &str) -> (r: Option<usize>)
    ensures
        r is None ==> tag_value(tags@, key@) is None,
        r matches Some(i) ==> i < tags@.len() && tag_value(tags@, key@) == Some(tags@[i as int].value@),
{
    let mut i: usize = 0;
    while i < tags.len()
        invariant
            0 <= i <= tags@.len(),
            lookup_from(tags@, key@, i as int) == tag_value(tags@, key@),
        decreases tags@.len() - i,
    {
        if text_eq(tags[i].key.as_str(), key) {
            return Some(i);
        }
        i = i + 1;
    }
    None
}

/// Whether the tag `key` is present.
pub fn contains_key(tags: &Vec<Tag>, key: &str) -> (r: bool)
    ensures
        r == (tag_value(tags@, key@) is Some),
{
    find_tag(tags, key).is_some()
}

/// Whether the tag `key` is present with a non-empty value.
pub fn has_tag(tags: &Vec<Tag>, key: &str) -> (r: bool)
    ensures
        r == has_value(tags@, key@),
{
    match find_tag(tags, key) {
        Some(i) => tags[i].value.as_str().unicode_len() > 0,
        None => false,
    }
}

/// Whether the tag `key` is present with one of `values`.
pub fn has_tag_value(tags: &Vec<Tag>, key: &str, values: &[&str]) -> (r: bool)
    ensures
        r == value_in(tags@, key@, texts(values@)),
{
    match find_tag(tags, key) {
        Some(i) => {
            let v = tags[i].value.as_str();
            let ghost vals = texts(values@);
            let mut j: usize = 0;
            while j < values.len()
                invariant
                    0 <= j <= values@.len(),
                    vals == texts(values@),
                    tag_value(tags@, key@) == Some(v@),
                    forall|m: int| 0 <= m < j ==> vals[m] != v@,
                decreases values@.len() - j,
            {
                if text_eq(values[j], v) {
                    assert(vals[j as int] == v@);
                    assert(vals.contains(v@));
                    return true;
                }
                j = j + 1;
            }
            false
        },
        None => false,
    }
}


/// Whether no key is repeated.
pub fn has_unique_keys(tags: &Vec<Tag>) -> (r: bool)
    ensures
        r == keys_unique(tags@),
{
    let n = tags.len();
    let mut j: usize = 0;
    while j < n
        invariant
            n == tags@.len(),
            0 <= j <= n,
            forall|a: int, b: int| 0 <= a < b < j ==> (#[trigger] tags@[a]).key@ != (#[trigger] tags@[b]).key@,
        decreases n - j,
    {
        let mut i: usize = 0;
        while i < j
            invariant
                n == tags@.len(),
                0 <= i <= j < n,
                forall|a: int| 0 <= a < i ==> (#[trigger] tags@[a]).key@ != tags@[j as int].key@,
            decreases j - i,
        {
            if text_eq(tags[i].key.as_str(), tags[j].key.as_str()) {
                return false;
            }
            i = i + 1;
        }
        j = j + 1;
    }
    true
}

} // verus!
