//! Path syntax: components, surrounding slashes, and the parent of a path.

use vstd::prelude::*;
use vstd::string::StrSliceExecFns;

verus! {

/// Index of the first character from `i` on that is no slash, or the length.
pub open spec fn component_start(path: Seq<char>, i: int) -> int
    decreases path.len() - i,
{
    if 0 <= i < path.len() && path[i] == '/' {
        component_start(path, i + 1)
    } else {
        i
    }
}

/// Index of the first slash from `i` on, or the length.
pub open spec fn component_end(path: Seq<char>, i: int) -> int
    decreases path.len() - i,
{
    if 0 <= i < path.len() && path[i] != '/' {
        component_end(path, i + 1)
    } else {
        i
    }
}

/// The components of a path from character `i` on: the parts between slashes
/// that are not empty.
pub open spec fn components_from(path: Seq<char>, i: int) -> Seq<Seq<char>>
    decreases path.len() - i,
{
    let start = component_start(path, i);
    let end = component_end(path, start);
    if 0 <= i <= start < end <= path.len() {
        seq![path.subrange(start, end)] + components_from(path, end)
    } else {
        Seq::empty()
    }
}

/// The components of a path.
pub open spec fn components(path: Seq<char>) -> Seq<Seq<char>> {
    components_from(path, 0)
}

/// A path without the slashes at its end.
pub open spec fn end_trimmed(path: Seq<char>) -> Seq<char>
    decreases path.len(),
{
    if path.len() > 0 && path.last() == '/' {
        end_trimmed(path.drop_last())
    } else {
        path
    }
}

/// A path without the slashes around it.
pub open spec fn trimmed(path: Seq<char>) -> Seq<char> {
    end_trimmed(path.skip(component_start(path, 0)))
}

/// Index of the last slash before character `i`, if there is one.
pub open spec fn slash_before(path: Seq<char>, i: int) -> Option<int>
    decreases i,
{
    if i <= 0 {
        None
    } else if path[i - 1] == '/' {
        Some(i - 1)
    } else {
        slash_before(path, i - 1)
    }
}

/// A path split at its last slash, if it has one.
pub open spec fn split_last(path: Seq<char>) -> Option<(Seq<char>, Seq<char>)> {
    match slash_before(path, path.len() as int) {
        Some(k) => Some((path.take(k), path.skip(k + 1))),
        None => None,
    }
}

/// Where a component starts and ends.
pub proof fn lemma_component(path: Seq<char>, i: int)
    requires
        0 <= i <= path.len(),
    ensures
        i <= component_start(path, i) <= path.len(),
        i <= component_end(path, i) <= path.len(),
        component_start(path, i) < path.len() ==> path[component_start(path, i)] != '/',
        i < path.len() && path[i] != '/' ==> component_end(path, i) > i,
    decreases path.len() - i,
{
    if i < path.len() {
        lemma_component(path, i + 1);
    }
}

/// Find the first character from `from` on that is no slash.
fn skip_slashes(path: &str, from: usize) -> (start: usize)
    requires
        from <= path@.len(),
    ensures
        start == component_start(path@, from as int),
        from <= start <= path@.len(),
{
    let count: usize = path.unicode_len();
    let mut i: usize = from;
    while i < count && path.get_char(i) == '/'
        invariant
            from <= i <= count,
            count == path@.len(),
            component_start(path@, from as int) == component_start(path@, i as int),
        decreases count - i,
    {
        i = i + 1;
    }
    i
}

/// Find the first slash from `from` on.
fn skip_component(path: &str, from: usize) -> (end: usize)
    requires
        from <= path@.len(),
    ensures
        end == component_end(path@, from as int),
        from <= end <= path@.len(),
{
    let count: usize = path.unicode_len();
    let mut i: usize = from;
    while i < count && path.get_char(i) != '/'
        invariant
            from <= i <= count,
            count == path@.len(),
            component_end(path@, from as int) == component_end(path@, i as int),
        decreases count - i,
    {
        i = i + 1;
    }
    i
}

/// Find the first component of a path from character `from` on, and where it
/// ends.
pub fn next_component(path: &str, from: usize) -> (found: Option<(&str, usize)>)
    requires
        from <= path@.len(),
    ensures
        match found {
            Some((component, end)) => {
                &&& from < end <= path@.len()
                &&& components_from(path@, from as int) == seq![component@] + components_from(
                    path@,
                    end as int,
                )
            },
            None => components_from(path@, from as int).len() == 0,
        },
{
    let start: usize = skip_slashes(path, from);
    proof {
        lemma_component(path@, from as int);
    }
    if start >= path.unicode_len() {
        return None;
    }
    let end: usize = skip_component(path, start);
    proof {
        lemma_component(path@, start as int);
    }
    Some((path.substring_char(start, end), end))
}

/// Remove the slashes around a path.
pub fn trim_slashes(path: &str) -> (inner: &str)
    ensures
        inner@ == trimmed(path@),
{
    let count: usize = path.unicode_len();
    let start: usize = skip_slashes(path, 0);
    let mut end: usize = count;
    assert(path@.subrange(start as int, count as int) =~= path@.skip(start as int));
    while end > start && path.get_char(end - 1) == '/'
        invariant
            start <= end <= count,
            count == path@.len(),
            trimmed(path@) == end_trimmed(path@.subrange(start as int, end as int)),
        decreases end,
    {
        assert(path@.subrange(start as int, end as int).drop_last() =~= path@.subrange(
            start as int,
            end - 1,
        ));
        end = end - 1;
    }
    proof {
        let rest = path@.subrange(start as int, end as int);
        if end > start {
            assert(rest.last() == path@[end - 1]);
        }
    }
    path.substring_char(start, end)
}

/// Split a path at its last slash.
pub fn split_parent(path: &str) -> (split: Option<(&str, &str)>)
    ensures
        match split {
            Some((parent, name)) => split_last(path@) == Some((parent@, name@)),
            None => split_last(path@) is None,
        },
{
    let count: usize = path.unicode_len();
    let mut i: usize = count;
    while i > 0
        invariant
            i <= count,
            count == path@.len(),
            slash_before(path@, count as int) == slash_before(path@, i as int),
        decreases i,
    {
        if path.get_char(i - 1) == '/' {
            let parent = path.substring_char(0, i - 1);
            let name = path.substring_char(i, count);
            assert(parent@ =~= path@.take(i - 1));
            assert(name@ =~= path@.skip(i as int));
            return Some((parent, name));
        }
        i = i - 1;
    }
    None
}

} // verus!
