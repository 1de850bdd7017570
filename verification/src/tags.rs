//! The raw tags of a map object: text keys with text values.
use rustc_hash::FxHashMap;
use vstd::prelude::*;

verus! {

/// The hasher of `FxHashMap`, of crate `rustc_hash`.
#[verifier::external_type_specification]
#[verifier::external_body]
pub struct ExFxBuildHasher(rustc_hash::FxBuildHasher);

/// An object's tags, each key at most once.
pub type RawTags = FxHashMap<String, String>;

/// What the tags hold.
pub uninterp spec fn tag_map(tags: FxHashMap<String, String>) -> Map<Seq<char>, Seq<char>>;

/// The tags of an object that has none.
pub open spec fn untagged() -> Map<Seq<char>, Seq<char>> {
    Map::empty()
}

/// The pair list `entries` lists every tag of `m` once, in some order.
pub open spec fn lists(entries: Seq<(Seq<char>, Seq<char>)>, m: Map<Seq<char>, Seq<char>>) -> bool {
    &&& forall|i: int|
        0 <= i < entries.len() ==> m.dom().contains((#[trigger] entries[i]).0) && m[entries[i].0]
            == entries[i].1
    &&& forall|i: int, j: int|
        0 <= i < j < entries.len() ==> (#[trigger] entries[i]).0 != (#[trigger] entries[j]).0
    &&& forall|k: Seq<char>| #[trigger]
        m.dom().contains(k) ==> exists|i: int|
            0 <= i < entries.len() && (#[trigger] entries[i]).0 == k
}

/// The texts of a list of pairs of strings.
pub open spec fn pairs(v: Seq<(String, String)>) -> Seq<(Seq<char>, Seq<char>)> {
    v.map_values(|p: (String, String)| (p.0@, p.1@))
}

/// `FxHashMap::default`: no tags.
#[verifier::external_body]
pub(crate) fn no_tags() -> (r: RawTags)
    ensures
        tag_map(r) == untagged(),
{
    FxHashMap::default()
}

/// `FxHashMap::get`: the value of `key`, where it is set.
#[verifier::external_body]
pub(crate) fn get<'a>(tags: &'a RawTags, key: &str) -> (r: Option<&'a str>)
    ensures
        r is Some <==> tag_map(*tags).dom().contains(key@),
        r is Some ==> r->0@ == tag_map(*tags)[key@],
{
    tags.get(key).map(String::as_str)
}

/// `FxHashMap::insert`: sets `key` to `value`, whatever it held before.
#[verifier::external_body]
pub(crate) fn put(tags: &mut RawTags, key: String, value: String)
    ensures
        tag_map(*final(tags)) == tag_map(*old(tags)).insert(key@, value@),
{
    tags.insert(key, value);
}

/// `FxHashMap::remove`: leaves `key` unset.
#[verifier::external_body]
pub(crate) fn unset(tags: &mut RawTags, key: &str)
    ensures
        tag_map(*final(tags)) == tag_map(*old(tags)).remove(key@),
{
    tags.remove(key);
}

/// `FxHashMap::is_empty`: whether there is no tag at all.
#[verifier::external_body]
pub(crate) fn is_empty(tags: &RawTags) -> (r: bool)
    ensures
        r == (tag_map(*tags) == untagged()),
{
    tags.is_empty()
}

/// `FxHashMap::iter`: every tag once, in an order that the map does not promise.
#[verifier::external_body]
pub(crate) fn entries(tags: &RawTags) -> (r: Vec<(String, String)>)
    ensures
        lists(pairs(r@), tag_map(*tags)),
{
    tags.iter().map(|(k, v)| (k.clone(), v.clone())).collect()
}

/// `FxHashMap::clone`: the same tags.
#[verifier::external_body]
pub(crate) fn copy(tags: &RawTags) -> (r: RawTags)
    ensures
        tag_map(r) == tag_map(*tags),
{
    tags.clone()
}

/// Whether some key starts with `prefix`.
pub open spec fn some_key_starts_with(m: Map<Seq<char>, Seq<char>>, prefix: Seq<char>) -> bool {
    exists|k: Seq<char>| #[trigger] m.dom().contains(k) && prefix.is_prefix_of(k)
}

/// Whether some key of the object starts with `prefix`.
pub fn has_key_prefix(tags: &RawTags, prefix: &str) -> (r: bool)
    ensures
        r == some_key_starts_with(tag_map(*tags), prefix@),
{
    let list = entries(tags);
    let ghost m = tag_map(*tags);
    for i in 0..list.len()
        invariant
            m == tag_map(*tags),
            lists(pairs(list@), m),
            forall|j: int| 0 <= j < i ==> !prefix@.is_prefix_of((#[trigger] pairs(list@)[j]).0),
    {
        proof {
            assert(pairs(list@)[i as int].0 == list@[i as int].0@);
        }
        if crate::text::starts_with(list[i].0.as_str(), prefix) {
            return true;
        }
    }
    false
}

} // verus!
