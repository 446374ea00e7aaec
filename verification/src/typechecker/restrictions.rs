//! What a condition tells about variables: pairs of a variable's name and
//! the type it has where the condition holds. Narrowing collects them in an
//! `ahash` map keyed by name.
use ahash::AHashMap;
use vstd::prelude::*;

verus! {

#[verifier::external_type_specification]
#[verifier::external_body]
#[verifier::reject_recursive_types(K)]
#[verifier::reject_recursive_types(V)]
#[verifier::reject_recursive_types(S)]
pub struct ExAHashMap<K, V, S>(AHashMap<K, V, S>);

#[verifier::external_type_specification]
#[verifier::external_body]
pub struct ExRandomState(ahash::RandomState);

/// A variable's name and the type it is narrowed to.
pub type Restriction<'s> = (&'s str, usize);

/// What a map of restrictions holds: a type for each name.
pub uninterp spec fn restriction_entries(map: AHashMap<&str, usize>) -> Map<Seq<char>, usize>;

/// The map that inserting the pairs in order gives: the last pair for a
/// name wins.
pub open spec fn list_map(list: Seq<Restriction>) -> Map<Seq<char>, usize>
    decreases list.len(),
{
    if list.len() == 0 {
        Map::empty()
    } else {
        let last = list[list.len() - 1];
        list_map(list.subrange(0, list.len() - 1)).insert(last.0@, last.1)
    }
}

/// `AHashMap::from_iter`: a map filled by inserting the pairs in order
/// (`HashMap::extend`, which it calls, keeps the last value for a key).
#[verifier::external_body]
pub(crate) fn map_from_list<'s>(list: Vec<Restriction<'s>>) -> (r: AHashMap<&'s str, usize>)
    ensures
        restriction_entries(r) == list_map(list@),
{
    AHashMap::from_iter(list.into_iter())
}

/// `AHashMap::get`: the type held for the name, if any.
#[verifier::external_body]
pub(crate) fn map_get(map: &AHashMap<&str, usize>, name: &str) -> (r: Option<usize>)
    ensures
        r == if restriction_entries(*map).contains_key(name@) {
            Some(restriction_entries(*map)[name@])
        } else {
            None
        },
{
    map.get(name).copied()
}

/// `AHashMap::insert`: the name now holds the type.
#[verifier::external_body]
pub(crate) fn map_insert<'s>(map: &mut AHashMap<&'s str, usize>, name: &'s str, t: usize)
    ensures
        restriction_entries(*final(map)) == restriction_entries(*old(map)).insert(name@, t),
{
    map.insert(name, t);
}

/// `AHashMap::into_iter`, collected: each entry once, in an order that the
/// hasher's random seed decides.
#[verifier::external_body]
pub(crate) fn map_into_list<'s>(map: AHashMap<&'s str, usize>) -> (r: Vec<Restriction<'s>>)
    ensures
        forall|i: int|
            0 <= i < r@.len() ==> restriction_entries(map).contains_key(#[trigger] r@[i].0@)
                && restriction_entries(map)[r@[i].0@] == r@[i].1,
        forall|i: int, j: int| 0 <= i < j < r@.len() ==> #[trigger] r@[i].0@ != #[trigger] r@[j].0@,
        forall|k: Seq<char>|
            restriction_entries(map).contains_key(k) ==> exists|i: int|
                0 <= i < r@.len() && #[trigger] r@[i].0@ == k,
{
    map.into_iter().collect()
}

/// Every key of the map of a list is the name of one of its pairs, and
/// every value one of its types.
pub proof fn lemma_list_map(list: Seq<Restriction>)
    ensures
        forall|k: Seq<char>|
            #[trigger] list_map(list).contains_key(k) ==> exists|i: int|
                0 <= i < list.len() && list[i].0@ == k && list[i].1 == list_map(list)[k],
        forall|i: int| 0 <= i < list.len() ==> #[trigger] list_map(list).contains_key(list[i].0@),
    decreases list.len(),
{
    if list.len() > 0 {
        let p = list.subrange(0, list.len() - 1);
        lemma_list_map(p);
        let last = list[list.len() - 1];
        assert forall|k: Seq<char>| #[trigger] list_map(list).contains_key(k) implies exists|i: int|
            0 <= i < list.len() && list[i].0@ == k && list[i].1 == list_map(list)[k] by {
            if k == last.0@ {
                assert(list[list.len() - 1].0@ == k);
            } else {
                let i = choose|i: int|
                    0 <= i < p.len() && p[i].0@ == k && p[i].1 == list_map(p)[k];
                assert(list[i] == p[i]);
            }
        }
        assert forall|i: int| 0 <= i < list.len() implies #[trigger] list_map(list).contains_key(
            list[i].0@,
        ) by {
            if i < list.len() - 1 {
                assert(list[i] == p[i]);
                assert(list_map(p).contains_key(p[i].0@));
            }
        }
    }
}

} // verus!
