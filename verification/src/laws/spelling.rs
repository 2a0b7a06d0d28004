//! How text is spelled in units, and what a name and a path are.

use crate::directory::codec;
use crate::error::Error;
use crate::fs::paths;
use crate::laws::components;
use vstd::prelude::*;

verus! {

/// A character below `0x1_0000` is one unit, its code; any other is a pair of a
/// high and a low surrogate that together hold its code.
pub proof fn law_characters_are_units_or_pairs(c: char)
    ensures
        ({
            let units = codec::char_units(c);
            let code = c as int;
            if code < 0x1_0000 {
                units.len() == 1 && units[0] == code
            } else {
                &&& units.len() == 2
                &&& 0xd800 <= units[0] < 0xdc00
                &&& 0xdc00 <= units[1] < 0xe000
                &&& code == 0x1_0000 + (units[0] - 0xd800) * 0x400 + (units[1] - 0xdc00)
            }
        }),
{
}

/// The units of two strings, one after the other, are those of the first and
/// then those of the second; one character gives its units, and no text none.
pub proof fn law_units_follow_the_text(head: Seq<char>, tail: Seq<char>, c: char)
    ensures
        codec::str_units(Seq::empty()) == Seq::<u16>::empty(),
        codec::str_units(seq![c]) == codec::char_units(c),
        codec::str_units(head + tail) == codec::str_units(head) + codec::str_units(tail),
    decreases tail.len(),
{
    let one = seq![c];
    assert(one.drop_last() =~= Seq::empty());
    assert(codec::str_units(one.drop_last()) =~= Seq::empty());
    assert(Seq::<u16>::empty() + codec::char_units(c) =~= codec::char_units(c));
    if tail.len() == 0 {
        assert(head + tail =~= head);
        assert(codec::str_units(head) + codec::str_units(tail) =~= codec::str_units(head));
    } else {
        assert((head + tail).drop_last() =~= head + tail.drop_last());
        assert((head + tail).last() == tail.last());
        law_units_follow_the_text(head, tail.drop_last(), c);
        assert(codec::str_units(head) + (codec::str_units(tail.drop_last()) + codec::char_units(
            tail.last(),
        )) =~= codec::str_units(head) + codec::str_units(tail.drop_last()) + codec::char_units(
            tail.last(),
        ));
    }
}

/// Which text can name an entry: any that is not empty, not `.` or `..`, holds
/// no zero character, slash or backslash, and takes no more than 255 units.
pub proof fn law_names_are_judged<E>(text: Seq<char>)
    ensures
        ({
            let bad = text.len() == 0 || text == seq!['.'] || text == seq!['.', '.'] || exists|
                i: int,
            |
                0 <= i < text.len() && (#[trigger] text[i] == '\0' || text[i] == '/' || text[i]
                    == '\\');
            codec::name_result::<E>(text) == if bad {
                Err::<Seq<u16>, Error<E>>(Error::InvalidPath)
            } else if codec::str_units(text).len() > 255 {
                Err(Error::NameTooLong)
            } else {
                Ok(codec::str_units(text))
            }
        }),
{
    if forall|i: int| 0 <= i < text.len() ==> !codec::is_forbidden(#[trigger] text[i]) {
        assert(!exists|i: int|
            0 <= i < text.len() && (#[trigger] text[i] == '\0' || text[i] == '/' || text[i]
                == '\\')) by {
            if exists|i: int|
                0 <= i < text.len() && (#[trigger] text[i] == '\0' || text[i] == '/' || text[i]
                    == '\\') {
                let i = choose|i: int|
                    0 <= i < text.len() && (#[trigger] text[i] == '\0' || text[i] == '/' || text[i]
                        == '\\');
                assert(!codec::is_forbidden(text[i]));
            }
        }
    }
}

/// The components of a path are those before a slash and then those behind it;
/// text without a slash is its own only component, and no text has none. So a
/// path has the parts between its slashes that are not empty, in order.
pub proof fn law_slashes_part_a_path(head: Seq<char>, tail: Seq<char>)
    ensures
        paths::components(head + seq!['/'] + tail) == paths::components(head) + paths::components(
            tail,
        ),
        !head.contains('/') ==> paths::components(head) == if head.len() == 0 {
            Seq::<Seq<char>>::empty()
        } else {
            seq![head]
        },
{
    let path = head + seq!['/'] + tail;
    let k = head.len() as int;
    assert(path.take(k) =~= head);
    assert(path.skip(k + 1) =~= tail);
    components::lemma_joined(head, path, 0);
    components::lemma_shifted(path, k + 1, 0);
    if !head.contains('/') {
        if head.len() > 0 {
            assert(head[0] != '/');
            components::lemma_unbroken(head, 0);
            assert(head.subrange(0, k) =~= head);
            assert(paths::component_start(head, k) == k);
            assert(paths::components_from(head, k) =~= Seq::empty());
            assert(paths::components(head) =~= seq![head]);
        } else {
            assert(paths::component_start(head, 0) == 0);
        }
    }
}

/// What is left of a path without the slashes at its end.
proof fn lemma_end_trimmed(path: Seq<char>)
    ensures
        paths::end_trimmed(path).len() <= path.len(),
        paths::end_trimmed(path) == path.take(paths::end_trimmed(path).len() as int),
        paths::end_trimmed(path).len() > 0 ==> paths::end_trimmed(path).last() != '/',
        forall|i: int|
            paths::end_trimmed(path).len() <= i < path.len() ==> #[trigger] path[i] == '/',
    decreases path.len(),
{
    if path.len() > 0 && path.last() == '/' {
        let less = path.drop_last();
        lemma_end_trimmed(less);
        let n = paths::end_trimmed(path).len() as int;
        assert(less.take(n) =~= path.take(n));
        assert forall|i: int| n <= i < path.len() implies #[trigger] path[i] == '/' by {
            if i < less.len() {
                assert(less[i] == '/');
            }
        }
    } else {
        assert(path.take(path.len() as int) =~= path);
    }
}

/// Where the first component of a path starts.
proof fn lemma_first_start(path: Seq<char>, i: int)
    requires
        0 <= i <= path.len(),
    ensures
        i <= paths::component_start(path, i) <= path.len(),
        forall|j: int| i <= j < paths::component_start(path, i) ==> #[trigger] path[j] == '/',
        paths::component_start(path, i) < path.len() ==> path[paths::component_start(path, i)]
            != '/',
    decreases path.len() - i,
{
    if i < path.len() && path[i] == '/' {
        lemma_first_start(path, i + 1);
    }
}

/// Trimming takes off the slashes around a path, all of them and nothing else.
pub proof fn law_trimming_takes_slashes_off(path: Seq<char>) -> (from: int)
    ensures
        ({
            let inner = paths::trimmed(path);
            let to = from + inner.len();
            &&& 0 <= from
            &&& to <= path.len()
            &&& inner == path.subrange(from, to)
            &&& forall|i: int| 0 <= i < from || to <= i < path.len() ==> #[trigger] path[i] == '/'
            &&& inner.len() > 0 ==> inner[0] != '/' && inner.last() != '/'
        }),
{
    let from = paths::component_start(path, 0);
    lemma_first_start(path, 0);
    let rest = path.skip(from);
    lemma_end_trimmed(rest);
    let inner = paths::trimmed(path);
    let to = from + inner.len();
    assert(inner =~= path.subrange(from, to));
    assert forall|i: int| 0 <= i < from || to <= i < path.len() implies #[trigger] path[i]
        == '/' by {
        if i >= to {
            assert(rest[i - from] == '/');
        }
    }
    if inner.len() > 0 {
        assert(inner[0] == path[from]);
    }
    from
}

/// A path is split at its last slash: the part behind it has none, and the two
/// parts with the slash between them are the path.
pub proof fn law_paths_split_at_the_last_slash(path: Seq<char>)
    ensures
        match paths::split_last(path) {
            Some((above, name)) => path == above + seq!['/'] + name && !name.contains('/'),
            None => !path.contains('/'),
        },
{
    components::lemma_slash(path, path.len() as int);
    if let Some((above, name)) = paths::split_last(path) {
        let k = paths::slash_before(path, path.len() as int)->0;
        assert(path =~= above + seq!['/'] + name);
        assert forall|j: int| 0 <= j < name.len() implies name[j] != '/' by {
            assert(name[j] == path[k + 1 + j]);
        }
    }
}

} // verus!
