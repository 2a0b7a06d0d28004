//! Names are compared without regard to case.

use crate::device::Media;
use crate::directory::codec;
use crate::directory::entry;
use crate::directory::entry::DirectoryModel;
use crate::fs::listing;
use crate::fs::listing::Listing;
use crate::fs::lookup;
use crate::fs::names;
use crate::fs::paths;
use crate::mount::Volume;
use vstd::prelude::*;

verus! {

/// Two names that match from unit `i` on have units with the same upper-case
/// form there.
proof fn lemma_match_units(
    v: Volume,
    media: Media,
    left: Seq<u16>,
    right: Seq<u16>,
    i: int,
    k: int,
)
    requires
        left.len() == right.len(),
        0 <= i <= k < left.len(),
        names::match_from(v, media, left, right, i) == Some(true),
    ensures
        names::upcase(v, media, left[k]) is Some,
        names::upcase(v, media, left[k]) == names::upcase(v, media, right[k]),
    decreases k - i,
{
    if i < k {
        lemma_match_units(v, media, left, right, i + 1, k);
    }
}

/// Names with the same upper-case form compare alike with every other name.
proof fn lemma_match_alike(
    v: Volume,
    media: Media,
    other: Seq<u16>,
    left: Seq<u16>,
    right: Seq<u16>,
    i: int,
)
    requires
        other.len() == left.len(),
        left.len() == right.len(),
        0 <= i <= left.len(),
        forall|k: int|
            0 <= k < left.len() ==> names::upcase(v, media, #[trigger] left[k]) == names::upcase(
                v,
                media,
                right[k],
            ),
    ensures
        names::match_from(v, media, other, left, i) == names::match_from(
            v,
            media,
            other,
            right,
            i,
        ),
    decreases left.len() - i,
{
    if i < left.len() {
        assert(names::upcase(v, media, left[i]) == names::upcase(v, media, right[i]));
        lemma_match_alike(v, media, other, left, right, i + 1);
    }
}

/// A search finds the same for names that compare alike.
proof fn lemma_find_alike(
    v: Volume,
    media: Media,
    list: Listing,
    left: Seq<u16>,
    right: Seq<u16>,
    i: int,
)
    requires
        names::same_name(v, media, left, right) == Some(true),
        0 <= i,
    ensures
        listing::find_from(v, media, list, left, i) == listing::find_from(
            v,
            media,
            list,
            right,
            i,
        ),
    decreases list.entries.len() - i,
{
    if i < list.entries.len() {
        let name = list.entries[i].name;
        if name.len() == left.len() {
            assert forall|k: int| 0 <= k < left.len() implies names::upcase(
                v,
                media,
                #[trigger] left[k],
            ) == names::upcase(v, media, right[k]) by {
                lemma_match_units(v, media, left, right, 0, k);
            }
            lemma_match_alike(v, media, name, left, right, 0);
        }
        lemma_find_alike(v, media, list, left, right, i + 1);
    }
}

/// Path lookup goes by the volume's UpCase table and not by the case of a
/// name: two names that are equal up to case find the same entry of every
/// directory.
pub proof fn law_lookup_ignores_case(
    v: Volume,
    media: Media,
    d: DirectoryModel,
    left: Seq<u16>,
    right: Seq<u16>,
)
    requires
        names::same_name(v, media, left, right) == Some(true),
    ensures
        listing::child(v, media, d, left) == listing::child(v, media, d, right),
{
    lemma_find_alike(v, media, listing::listing(v.geometry, media, d), left, right, 0);
}

/// Whether the components of two paths are names that are equal up to case, one
/// by one.
pub open spec fn same_parts<E>(
    v: Volume,
    media: Media,
    left: Seq<Seq<char>>,
    right: Seq<Seq<char>>,
) -> bool {
    &&& left.len() == right.len()
    &&& forall|k: int|
        0 <= k < left.len() ==> match (
            codec::name_result::<E>(#[trigger] left[k]),
            codec::name_result::<E>(right[k]),
        ) {
            (Ok(a), Ok(b)) => names::same_name(v, media, a, b) == Some(true),
            _ => false,
        }
}

/// Paths whose components are equal up to case lead to the same.
proof fn lemma_resolve_alike<E>(
    v: Volume,
    media: Media,
    d: DirectoryModel,
    left: Seq<Seq<char>>,
    right: Seq<Seq<char>>,
    scratch_len: nat,
)
    requires
        same_parts::<E>(v, media, left, right),
    ensures
        lookup::resolve::<E>(v, media, d, left, scratch_len) == lookup::resolve::<E>(
            v,
            media,
            d,
            right,
            scratch_len,
        ),
    decreases left.len(),
{
    if left.len() > 0 {
        let a = codec::name_result::<E>(left[0])->Ok_0;
        let b = codec::name_result::<E>(right[0])->Ok_0;
        law_lookup_ignores_case(v, media, d, a, b);
        let found = listing::child(v, media, d, a);
        if found is Some && found->0 is Some && found->0->0.directory() is Some {
            let below = found->0->0.directory()->0;
            let x = left.drop_first();
            let y = right.drop_first();
            assert forall|k: int| 0 <= k < x.len() implies match (
                codec::name_result::<E>(#[trigger] x[k]),
                codec::name_result::<E>(y[k]),
            ) {
                (Ok(a), Ok(b)) => names::same_name(v, media, a, b) == Some(true),
                _ => false,
            } by {
                assert(x[k] == left[k + 1] && y[k] == right[k + 1]);
            }
            lemma_resolve_alike::<E>(v, media, below, x, y, scratch_len);
        }
    }
}

/// The case of a path does not matter, in any of its components: paths that are
/// equal up to case name the same file or directory, and opening them answers
/// the same.
pub proof fn law_paths_ignore_case<E>(
    v: Volume,
    media: Media,
    left: Seq<char>,
    right: Seq<char>,
    scratch_len: nat,
)
    requires
        same_parts::<E>(v, media, paths::components(left), paths::components(right)),
    ensures
        lookup::lookup_result::<E>(v, media, left, scratch_len) == lookup::lookup_result::<E>(
            v,
            media,
            right,
            scratch_len,
        ),
        lookup::open_result::<E>(v, media, left, scratch_len) == lookup::open_result::<E>(
            v,
            media,
            right,
            scratch_len,
        ),
{
    lemma_resolve_alike::<E>(
        v,
        media,
        entry::root_model(v.geometry),
        paths::components(left),
        paths::components(right),
        scratch_len,
    );
}

/// Equality up to case does not depend on the order of the names.
proof fn lemma_match_turned(
    v: Volume,
    media: Media,
    left: Seq<u16>,
    right: Seq<u16>,
    i: int,
)
    requires
        left.len() == right.len(),
        0 <= i,
    ensures
        names::match_from(v, media, left, right, i) == names::match_from(
            v,
            media,
            right,
            left,
            i,
        ),
    decreases left.len() - i,
{
    if i < left.len() {
        lemma_match_turned(v, media, left, right, i + 1);
    }
}

/// Equality up to case is symmetric.
pub proof fn law_same_name_is_symmetric(v: Volume, media: Media, left: Seq<u16>, right: Seq<u16>)
    ensures
        names::same_name(v, media, left, right) == names::same_name(v, media, right, left),
{
    if left.len() == right.len() {
        lemma_match_turned(v, media, left, right, 0);
    }
}

/// Where every unit has an upper-case form, a name matches itself from any
/// unit on.
pub proof fn lemma_match_self(v: Volume, media: Media, name: Seq<u16>, i: int)
    requires
        0 <= i,
        forall|k: int|
            0 <= k < name.len() ==> names::upcase(v, media, #[trigger] name[k]) is Some,
    ensures
        names::match_from(v, media, name, name, i) == Some(true),
    decreases name.len() - i,
{
    if i < name.len() {
        assert(names::upcase(v, media, name[i]) is Some);
        lemma_match_self(v, media, name, i + 1);
    }
}

/// A name that has a hash has an upper-case form.
pub proof fn lemma_hash_units(v: Volume, media: Media, name: Seq<u16>, k: int)
    requires
        0 <= k < name.len(),
        names::name_hash(v, media, name) is Some,
    ensures
        names::upcase(v, media, name[k]) is Some,
    decreases name.len(),
{
    if k < name.len() - 1 {
        lemma_hash_units(v, media, name.drop_last(), k);
    }
}

/// A name that can be recorded, because it has a hash, is found again: it is
/// equal to itself up to case.
pub proof fn law_hashed_name_matches_itself(v: Volume, media: Media, name: Seq<u16>)
    requires
        names::name_hash(v, media, name) is Some,
    ensures
        names::same_name(v, media, name, name) == Some(true),
{
    assert forall|k: int| 0 <= k < name.len() implies names::upcase(
        v,
        media,
        #[trigger] name[k],
    ) is Some by {
        lemma_hash_units(v, media, name, k);
    }
    lemma_match_self(v, media, name, 0);
}

/// Names with the same upper-case form have the same hash.
pub proof fn law_hash_ignores_case(v: Volume, media: Media, left: Seq<u16>, right: Seq<u16>)
    requires
        left.len() == right.len(),
        forall|k: int|
            0 <= k < left.len() ==> names::upcase(v, media, #[trigger] left[k]) == names::upcase(
                v,
                media,
                right[k],
            ),
    ensures
        names::name_hash(v, media, left) == names::name_hash(v, media, right),
    decreases left.len(),
{
    if left.len() > 0 {
        let a = left.drop_last();
        let b = right.drop_last();
        assert forall|k: int| 0 <= k < a.len() implies names::upcase(v, media, #[trigger] a[k])
            == names::upcase(v, media, b[k]) by {
            assert(names::upcase(v, media, left[k]) == names::upcase(v, media, right[k]));
        }
        law_hash_ignores_case(v, media, a, b);
        assert(names::upcase(v, media, left[left.len() - 1]) == names::upcase(
            v,
            media,
            right[left.len() - 1],
        ));
    }
}

/// The table's identity range: a word `0xffff` and a count stand for that many
/// units that map to themselves.
pub proof fn law_compressed_range_is_identity(v: Volume, media: Media, unit: u16, code: int, byte: int)
    requires
        0 <= code,
        byte + 2 <= v.upcase.byte_length,
        code <= u32::MAX,
        names::upcase_word(v, media, byte) == Some(0xffffu16),
        names::upcase_word(v, media, byte + 2) matches Some(skipped) && code <= unit < code
            + skipped,
    ensures
        names::upcase_scan(v, media, unit, code, byte) == Some(unit),
{
}

} // verus!
