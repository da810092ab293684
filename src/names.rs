//! Display names of a feature: the name keys, their variants, and the
//! splitting of multi-valued names.

use vstd::prelude::*;
use vstd::string::StrSliceExecFns;
use crate::tags::{Tag, find_tag, tag_value};
use crate::text::{has_prefix, split_on, starts_with, text_eq, trim, trimmed_piece};

verus! {

/// The characters of each string.
pub open spec fn views(v: Seq<String>) -> Seq<Seq<char>> {
    v.map_values(|s: String| s@)
}

/// The keys that carry a name, in the order their values are taken.
pub open spec fn name_keys() -> Seq<Seq<char>> {
    seq!["name"@, "alt_name"@, "old_name"@, "official_name"@, "loc_name"@, "short_name"@]
}

/// The prefixes of the language and other variants of the name keys.
pub open spec fn name_prefixes() -> Seq<Seq<char>> {
    seq!["name:"@, "alt_name:"@, "old_name:"@, "official_name:"@, "loc_name:"@, "short_name:"@]
}

/// `k` is one of the name keys.
pub open spec fn is_primary_key(k: Seq<char>) -> bool {
    name_keys().contains(k)
}

/// `k` starts with one of the variant prefixes.
pub open spec fn is_variant_key(k: Seq<char>) -> bool {
    exists|i: int| 0 <= i < 6 && has_prefix(k, #[trigger] name_prefixes()[i])
}

/// `k` is a name key or a variant of one.
pub open spec fn is_name_key_spec(k: Seq<char>) -> bool {
    is_primary_key(k) || is_variant_key(k)
}

fn name_key_at(i: usize) -> (r: &'static str)
    requires
        i < 6,
    ensures
        r@ == name_keys()[i as int],
{
    match i {
        0 => "name",
        1 => "alt_name",
        2 => "old_name",
        3 => "official_name",
        4 => "loc_name",
        _ => "short_name",
    }
}

fn name_prefix_at(i: usize) -> (r: &'static str)
    requires
        i < 6,
    ensures
        r@ == name_prefixes()[i as int],
{
    match i {
        0 => "name:",
        1 => "alt_name:",
        2 => "old_name:",
        3 => "official_name:",
        4 => "loc_name:",
        _ => "short_name:",
    }
}

/// Whether `key` is one of the name keys.
pub fn is_primary_name_key(key: &str) -> (r: bool)
    ensures
        r == is_primary_key(key@),
{
    let mut i: usize = 0;
    while i < 6
        invariant
            0 <= i <= 6,
            forall|j: int| 0 <= j < i ==> name_keys()[j] != key@,
        decreases 6 - i,
    {
        if text_eq(name_key_at(i), key) {
            assert(name_keys()[i as int] == key@);
            return true;
        }
        i = i + 1;
    }
    assert(name_keys().len() == 6);
    false
}

/// Whether `key` starts with one of the variant prefixes.
pub fn is_variant_name_key(key: &str) -> (r: bool)
    ensures
        r == is_variant_key(key@),
{
    let mut i: usize = 0;
    while i < 6
        invariant
            0 <= i <= 6,
            forall|j: int| 0 <= j < i ==> !has_prefix(key@, #[trigger] name_prefixes()[j]),
        decreases 6 - i,
    {
        if starts_with(key, name_prefix_at(i)) {
            return true;
        }
        i = i + 1;
    }
    false
}

/// Whether `key` is a name key or a variant of one.
pub fn is_name_key(key: &str) -> (r: bool)
    ensures
        r == is_name_key_spec(key@),
{
    is_primary_name_key(key) || is_variant_name_key(key)
}

/// The trimmed, non-empty pieces of `ps`, in order.
pub open spec fn keep_names(ps: Seq<Seq<char>>) -> Seq<Seq<char>>
    decreases ps.len(),
{
    if ps.len() == 0 {
        Seq::<Seq<char>>::empty()
    } else {
        let prev = keep_names(ps.drop_last());
        let t = trim(ps.last());
        if t.len() > 0 {
            prev.push(t)
        } else {
            prev
        }
    }
}

/// The names in a value: its pieces between `;`, trimmed, empty ones dropped.
pub open spec fn split_names_spec(value: Seq<char>) -> Seq<Seq<char>> {
    keep_names(split_on(value, ';'))
}

/// The pieces of `value` between occurrences of `sep`, trimmed, empty ones
/// dropped.
pub fn split_trimmed(value: &str, sep: char) -> (r: Vec<String>)
    ensures
        views(r@) == keep_names(split_on(value@, sep)),
{
    let n = value.unicode_len();
    let ghost s = value@;
    let mut out: Vec<String> = Vec::new();
    let ghost mut done: Seq<Seq<char>> = Seq::empty();
    let mut start: usize = 0;
    let mut i: usize = 0;
    assert(s.subrange(0, 0) =~= Seq::<char>::empty());
    assert(done.push(Seq::<char>::empty()) =~= seq![Seq::<char>::empty()]);
    while i < n
        invariant
            n == s.len(),
            s == value@,
            0 <= start <= i <= n,
            split_on(s.subrange(0, i as int), sep) == done.push(s.subrange(start as int, i as int)),
            views(out@) == keep_names(done),
        decreases n - i,
    {
        let c = value.get_char(i);
        let ghost prefix = s.subrange(0, i + 1);
        assert(prefix.drop_last() == s.subrange(0, i as int));
        assert(prefix.last() == c);
        if c == sep {
            let piece = trimmed_piece(value, start, i);
            proof {
                let d2 = done.push(s.subrange(start as int, i as int));
                assert(d2.drop_last() == done);
                assert(keep_names(d2) == if piece@.len() > 0 {
                    keep_names(done).push(piece@)
                } else {
                    keep_names(done)
                });
                done = d2;
            }
            if piece.as_str().unicode_len() > 0 {
                let ghost before = out@;
                out.push(piece);
                assert(views(out@) =~= views(before).push(piece@));
            }
            start = i + 1;
            assert(s.subrange(start as int, i + 1) == Seq::<char>::empty());
        } else {
            assert(s.subrange(start as int, i + 1) == s.subrange(start as int, i as int).push(c));
        }
        i = i + 1;
    }
    let piece = trimmed_piece(value, start, n);
    assert(s.subrange(0, n as int) == s);
    let ghost all = done.push(s.subrange(start as int, n as int));
    assert(all.drop_last() == done);
    if piece.as_str().unicode_len() > 0 {
        let ghost before = out@;
        out.push(piece);
        assert(views(out@) =~= views(before).push(piece@));
    }
    out
}


/// The names held in one tag value.
pub fn split_names(value: &str) -> (r: Vec<String>)
    ensures
        views(r@) == split_names_spec(value@),
{
    split_trimmed(value, ';')
}

/// `names` followed by those of `items` not yet present, each once, in order.
pub open spec fn append_new(names: Seq<Seq<char>>, items: Seq<Seq<char>>) -> Seq<Seq<char>>
    decreases items.len(),
{
    if items.len() == 0 {
        names
    } else {
        let prev = append_new(names, items.drop_last());
        if prev.contains(items.last()) {
            prev
        } else {
            prev.push(items.last())
        }
    }
}

/// Whether `names` holds `s`.
pub fn contains_text(names: &Vec<String>, s: &String) -> (r: bool)
    ensures
        r == views(names@).contains(s@),
{
    let ghost vs = views(names@);
    let mut i: usize = 0;
    while i < names.len()
        invariant
            0 <= i <= names@.len(),
            vs == views(names@),
            forall|j: int| 0 <= j < i ==> vs[j] != s@,
        decreases names@.len() - i,
    {
        if names[i] == *s {
            assert(vs[i as int] == s@);
            return true;
        }
        i = i + 1;
    }
    false
}

/// Append to `names` each name of `value` that it does not hold yet.
pub fn add_names(value: &str, names: &mut Vec<String>)
    ensures
        views(final(names)@) == append_new(views(old(names)@), split_names_spec(value@)),
{
    let parts = split_names(value);
    let ghost start = views(names@);
    let ghost items = views(parts@);
    let mut k: usize = 0;
    assert(items.subrange(0, 0) =~= Seq::<Seq<char>>::empty());
    while k < parts.len()
        invariant
            0 <= k <= parts@.len(),
            items == views(parts@),
            items == split_names_spec(value@),
            views(names@) == append_new(start, items.subrange(0, k as int)),
        decreases parts@.len() - k,
    {
        let ghost sub = items.subrange(0, k + 1);
        assert(sub.drop_last() =~= items.subrange(0, k as int));
        assert(sub.last() == parts@[k as int]@);
        if !contains_text(names, &parts[k]) {
            let ghost before = names@;
            names.push(parts[k].clone());
            assert(views(names@) =~= views(before).push(parts@[k as int]@));
        }
        k = k + 1;
    }
    assert(items.subrange(0, parts@.len() as int) =~= items);
}

/// Names from the name keys, taken in their fixed order, up to the `j`th.
pub open spec fn primary_names(tags: Seq<Tag>, j: int) -> Seq<Seq<char>>
    decreases j,
{
    if j <= 0 {
        Seq::<Seq<char>>::empty()
    } else {
        let prev = primary_names(tags, j - 1);
        match tag_value(tags, name_keys()[j - 1]) {
            Some(v) => if v.len() > 0 {
                append_new(prev, split_names_spec(v))
            } else {
                prev
            },
            None => prev,
        }
    }
}

/// The tag is a non-empty variant of a name key.
pub open spec fn is_variant_tag(t: Tag) -> bool {
    t.value@.len() > 0 && !is_primary_key(t.key@) && is_variant_key(t.key@)
}

/// Names from the name keys, then from the variant tags among the first `j`
/// tags, in tag order.
pub open spec fn variant_names(tags: Seq<Tag>, j: int) -> Seq<Seq<char>>
    decreases j,
{
    if j <= 0 {
        primary_names(tags, 6)
    } else {
        let prev = variant_names(tags, j - 1);
        if is_variant_tag(tags[j - 1]) {
            append_new(prev, split_names_spec(tags[j - 1].value@))
        } else {
            prev
        }
    }
}

/// All display names of a feature, each once: those of the name keys in
/// their fixed order, then those of the variant tags in tag order.
pub open spec fn collect_names_spec(tags: Seq<Tag>) -> Seq<Seq<char>> {
    variant_names(tags, tags.len() as int)
}

/// The display names of a feature.
pub fn collect_names(tags: &Vec<Tag>) -> (r: Vec<String>)
    ensures
        views(r@) == collect_names_spec(tags@),
{
    let mut names: Vec<String> = Vec::new();
    assert(views(names@) =~= Seq::<Seq<char>>::empty());
    let mut k: usize = 0;
    while k < 6
        invariant
            0 <= k <= 6,
            views(names@) == primary_names(tags@, k as int),
        decreases 6 - k,
    {
        let key = name_key_at(k);
        match find_tag(tags, key) {
            Some(i) => {
                if tags[i].value.as_str().unicode_len() > 0 {
                    add_names(tags[i].value.as_str(), &mut names);
                }
            },
            None => {},
        }
        k = k + 1;
    }
    let mut j: usize = 0;
    while j < tags.len()
        invariant
            0 <= j <= tags@.len(),
            views(names@) == variant_names(tags@, j as int),
        decreases tags@.len() - j,
    {
        let t = &tags[j];
        if t.value.as_str().unicode_len() > 0 && !is_primary_name_key(t.key.as_str())
            && is_variant_name_key(t.key.as_str()) {
            add_names(t.value.as_str(), &mut names);
        }
        j = j + 1;
    }
    names
}

/// Some name key, or a variant of one, has a non-empty value.
pub open spec fn has_name_tags_spec(tags: Seq<Tag>) -> bool {
    exists|i: int|
        0 <= i < tags.len() && is_name_key_spec(#[trigger] tags[i].key@) && tags[i].value@.len() > 0
}

/// Whether the feature carries a name.
pub fn has_name_tags(tags: &Vec<Tag>) -> (r: bool)
    ensures
        r == has_name_tags_spec(tags@),
{
    let mut i: usize = 0;
    while i < tags.len()
        invariant
            0 <= i <= tags@.len(),
            forall|j: int|
                0 <= j < i ==> !(is_name_key_spec(#[trigger] tags@[j].key@) && tags@[j].value@.len()
                    > 0),
        decreases tags@.len() - i,
    {
        if is_name_key(tags[i].key.as_str()) && tags[i].value.as_str().unicode_len() > 0 {
            return true;
        }
        i = i + 1;
    }
    false
}

} // verus!
