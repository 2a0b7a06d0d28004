//! Path syntax: slashes around a path make no difference, and a path has the
//! components of its parent and then its last one.

use crate::fs::create;
use crate::fs::paths;
use vstd::prelude::*;

verus! {

/// Where components start and end does not depend on what precedes them.
proof fn lemma_bounds_shifted(path: Seq<char>, k: int, i: int)
    requires
        0 <= k <= path.len(),
        0 <= i,
        k + i <= path.len(),
    ensures
        paths::component_start(path, k + i) == k + paths::component_start(path.skip(k), i),
        paths::component_end(path, k + i) == k + paths::component_end(path.skip(k), i),
    decreases path.len() - k - i,
{
    if k + i < path.len() {
        lemma_bounds_shifted(path, k, i + 1);
    }
}

/// Components do not depend on what precedes them.
pub proof fn lemma_shifted(path: Seq<char>, k: int, i: int)
    requires
        0 <= k <= path.len(),
        0 <= i,
        k + i <= path.len(),
    ensures
        paths::components_from(path, k + i) == paths::components_from(path.skip(k), i),
    decreases path.len() - k - i,
{
    let rest = path.skip(k);
    let start = paths::component_start(rest, i);
    let end = paths::component_end(rest, start);
    lemma_bounds_shifted(path, k, i);
    paths::lemma_component(rest, i);
    lemma_bounds_shifted(path, k, start);
    paths::lemma_component(rest, start);
    if start < end {
        lemma_shifted(path, k, end);
        assert(path.subrange(k + start, k + end) =~= rest.subrange(start, end));
    }
}

/// The start of a component is where it starts.
proof fn lemma_start_twice(path: Seq<char>, i: int)
    requires
        0 <= i <= path.len(),
    ensures
        paths::component_start(path, paths::component_start(path, i)) == paths::component_start(
            path,
            i,
        ),
    decreases path.len() - i,
{
    if i < path.len() && path[i] == '/' {
        lemma_start_twice(path, i + 1);
    }
}

/// Where components start and end in a path with a slash, and perhaps more,
/// behind it.
proof fn lemma_bounds_before(above: Seq<char>, path: Seq<char>, i: int)
    requires
        0 <= i <= above.len(),
        above.len() < path.len(),
        above == path.take(above.len() as int),
        path[above.len() as int] == '/',
    ensures
        paths::component_end(path, i) == paths::component_end(above, i),
        paths::component_start(above, i) < above.len() ==> paths::component_start(path, i)
            == paths::component_start(above, i),
        paths::component_start(above, i) >= above.len() ==> paths::component_start(path, i)
            == paths::component_start(path, above.len() as int + 1),
    decreases above.len() - i,
{
    if i < above.len() {
        assert(above[i] == path[i]);
        lemma_bounds_before(above, path, i + 1);
    }
}

/// The components of a path with a slash in it: those before it, and then
/// those behind it.
pub proof fn lemma_joined(above: Seq<char>, path: Seq<char>, i: int)
    requires
        0 <= i <= above.len(),
        above.len() < path.len(),
        above == path.take(above.len() as int),
        path[above.len() as int] == '/',
    ensures
        paths::components_from(path, i) == paths::components_from(above, i)
            + paths::components_from(path, above.len() as int + 1),
    decreases above.len() - i,
{
    let start = paths::component_start(above, i);
    let end = paths::component_end(above, start);
    let rest = paths::components_from(path, above.len() as int + 1);
    lemma_bounds_before(above, path, i);
    paths::lemma_component(above, i);
    paths::lemma_component(above, start);
    if start < above.len() {
        lemma_bounds_before(above, path, start);
        lemma_joined(above, path, end);
        assert(path.subrange(start, end) =~= above.subrange(start, end));
        assert(seq![above.subrange(start, end)] + (paths::components_from(above, end) + rest)
            =~= seq![above.subrange(start, end)] + paths::components_from(above, end) + rest);
    } else {
        let behind = above.len() as int + 1;
        let later = paths::component_start(path, behind);
        paths::lemma_component(path, behind);
        paths::lemma_component(path, later);
        lemma_start_twice(path, behind);
        assert(Seq::<Seq<char>>::empty() + rest =~= rest);
    }
}

/// Slashes at the end of a path make no difference.
proof fn lemma_end_trimmed(path: Seq<char>)
    ensures
        paths::components(paths::end_trimmed(path)) == paths::components(path),
    decreases path.len(),
{
    if path.len() > 0 && path.last() == '/' {
        let above = path.drop_last();
        lemma_end_trimmed(above);
        assert(above =~= path.take(above.len() as int));
        lemma_joined(above, path, 0);
        let end = path.len() as int;
        assert(paths::component_start(path, end) == end);
        let all = paths::components(above);
        assert(all + Seq::<Seq<char>>::empty() =~= all);
    }
}

/// Slashes around a path make no difference: it has the same components
/// without them.
pub proof fn law_surrounding_slashes_do_not_matter(path: Seq<char>)
    ensures
        paths::components(paths::trimmed(path)) == paths::components(path),
{
    let start = paths::component_start(path, 0);
    paths::lemma_component(path, 0);
    lemma_start_twice(path, 0);
    lemma_end_trimmed(path.skip(start));
    lemma_shifted(path, start, 0);
    paths::lemma_component(path, start);
}

/// Where the last slash of a path is.
pub proof fn lemma_slash(path: Seq<char>, i: int)
    requires
        0 <= i <= path.len(),
    ensures
        match paths::slash_before(path, i) {
            Some(k) => 0 <= k < i && path[k] == '/' && forall|j: int|
                k < j < i ==> path[j] != '/',
            None => forall|j: int| 0 <= j < i ==> path[j] != '/',
        },
    decreases i,
{
    if i > 0 {
        lemma_slash(path, i - 1);
    }
}

/// A component goes on to the next slash.
pub proof fn lemma_unbroken(path: Seq<char>, i: int)
    requires
        0 <= i <= path.len(),
        forall|j: int| i <= j < path.len() ==> path[j] != '/',
    ensures
        paths::component_end(path, i) == path.len(),
    decreases path.len() - i,
{
    if i < path.len() {
        lemma_unbroken(path, i + 1);
    }
}

/// Trimming leaves no slash at the end.
proof fn lemma_no_last_slash(path: Seq<char>)
    ensures
        paths::end_trimmed(path).len() > 0 ==> paths::end_trimmed(path).last() != '/',
    decreases path.len(),
{
    if path.len() > 0 && path.last() == '/' {
        lemma_no_last_slash(path.drop_last());
    }
}

/// A path without slashes around it has the components of its parent and then
/// its last one; without a parent it is its only component.
pub proof fn law_path_is_parent_and_name(path: Seq<char>)
    requires
        paths::trimmed(path).len() > 0,
    ensures
        ({
            let inner = paths::trimmed(path);
            match paths::split_last(inner) {
                Some((above, name)) => paths::components(inner) == paths::components(above).push(
                    name,
                ),
                None => paths::components(inner) == seq![inner],
            }
        }),
{
    let inner = paths::trimmed(path);
    let end = inner.len() as int;
    lemma_no_last_slash(path.skip(paths::component_start(path, 0)));
    lemma_slash(inner, end);
    match paths::slash_before(inner, end) {
        Some(k) => {
            let above = inner.take(k);
            let name = inner.skip(k + 1);
            lemma_joined(above, inner, 0);
            lemma_unbroken(inner, k + 1);
            assert(inner.subrange(k + 1, end) =~= name);
            assert(paths::component_start(inner, end) == end);
            assert(paths::components_from(inner, end) =~= Seq::empty());
            assert(paths::components_from(inner, k + 1) =~= seq![name]);
            assert(paths::components(above) + seq![name] =~= paths::components(above).push(name));
        },
        None => {
            lemma_unbroken(inner, 0);
            assert(inner.subrange(0, end) =~= inner);
            assert(paths::component_start(inner, end) == end);
            assert(paths::components_from(inner, end) =~= Seq::empty());
            assert(paths::components(inner) =~= seq![inner]);
        },
    }
}

/// The part of a path before its last component has a component.
pub proof fn lemma_parent_component(path: Seq<char>)
    ensures
        paths::split_last(paths::trimmed(path)) matches Some((above, _)) ==> paths::components(
            above,
        ).len() > 0,
{
    let inner = paths::trimmed(path);
    if let Some((above, name)) = paths::split_last(inner) {
        let start = paths::component_start(path, 0);
        lemma_slash(inner, inner.len() as int);
        paths::lemma_component(path, 0);
        create::lemma_end_trimmed(path.skip(start));
        assert(inner[0] == path.skip(start)[0]);
        assert(above.len() > 0);
        assert(above[0] == inner[0]);
        assert(paths::component_start(above, 0) == 0);
        paths::lemma_component(above, 0);
    }
}

} // verus!
