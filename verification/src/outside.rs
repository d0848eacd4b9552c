//! What the library takes from other crates: the ordered map, JSON, and random
//! identifiers. Nothing here is proved; each item says what it claims.

use crate::links::{keeps, Keep};
use indexmap::IndexMap;
use uuid::Uuid;
use vstd::prelude::*;

verus! {

/// Links from link identifier to end points, in order.
#[verifier::external_type_specification]
#[verifier::external_body]
#[verifier::reject_recursive_types(K)]
#[verifier::reject_recursive_types(V)]
#[verifier::reject_recursive_types(S)]
pub struct ExIndexMap<K, V, S>(IndexMap<K, V, S>);

/// A failure of `serde_json`.
#[verifier::external_type_specification]
#[verifier::external_body]
pub struct ExJsonError(serde_json::Error);

/// The links that a map holds, in the map's order.
pub uninterp spec fn entries(map: IndexMap<u128, (u128, u128)>) -> Seq<(u128, u128, u128)>;

/// The links that a JSON text spells, if it spells an array of triples of UUIDs.
pub uninterp spec fn links_parsed(text: Seq<char>) -> Option<Seq<(u128, u128, u128)>>;

/// The JSON text of an array of links.
pub uninterp spec fn links_rendered(links: Seq<(u128, u128, u128)>) -> Seq<char>;

/// `id` is a UUID of version 4 (bits 76 to 79) and of the standard variant
/// (bits 62 and 63).
pub open spec fn is_random_id(id: u128) -> bool {
    &&& (id / 0x1000_0000_0000_0000_0000) % 16 == 4
    &&& (id / 0x4000_0000_0000_0000) % 4 == 2
}

/// Calls `IndexMap::new`: the map that it makes holds nothing.
#[verifier::external_body]
pub(crate) fn map_new() -> (map: IndexMap<u128, (u128, u128)>)
    ensures
        entries(map) == Seq::<(u128, u128, u128)>::empty(),
{
    IndexMap::new()
}

/// Calls `IndexMap::insert`. An identifier that the map has keeps its place
/// and gets the new end points, and the call returns the old ones; any other
/// goes last, and the call returns `None`.
#[verifier::external_body]
pub(crate) fn map_insert(
    map: &mut IndexMap<u128, (u128, u128)>,
    id: u128,
    ends: (u128, u128),
) -> (replaced: Option<(u128, u128)>)
    ensures
        replaced is Some <==> crate::links::has_id(entries(*old(map)), id),
        replaced is None ==> entries(*final(map)) == entries(*old(map)).push((id, ends.0, ends.1)),
        replaced matches Some(was) ==> exists|i: int|
            0 <= i < entries(*old(map)).len() && #[trigger] entries(*old(map))[i] == (
                id,
                was.0,
                was.1,
            ) && entries(*final(map)) == entries(*old(map)).update(i, (id, ends.0, ends.1)),
{
    map.insert(id, ends)
}

/// Calls `IndexMap::swap_remove`. The link with the identifier leaves, the
/// last one takes its place, and the call returns its end points; without
/// such a link nothing changes, and the call returns `None`.
#[verifier::external_body]
pub(crate) fn map_swap_remove(map: &mut IndexMap<u128, (u128, u128)>, id: u128) -> (removed: Option<
    (u128, u128),
>)
    ensures
        removed is Some <==> crate::links::has_id(entries(*old(map)), id),
        removed is None ==> entries(*final(map)) == entries(*old(map)),
        removed matches Some(was) ==> exists|i: int|
            0 <= i < entries(*old(map)).len() && #[trigger] entries(*old(map))[i] == (
                id,
                was.0,
                was.1,
            ) && entries(*final(map)) == crate::links::swap_removed(entries(*old(map)), i),
{
    map.swap_remove(&id)
}

/// Calls `IndexMap::retain` with a closure that asks `keeps`: exactly the
/// links that `rule` keeps stay, in their order.
#[verifier::external_body]
pub(crate) fn map_retain(map: &mut IndexMap<u128, (u128, u128)>, rule: Keep)
    ensures
        entries(*final(map)) == crate::links::retained(entries(*old(map)), rule),
{
    map.retain(|_, ends| keeps(rule, ends.0, ends.1))
}

/// Calls `IndexMap::iter`: all links come out, in the map's order.
#[verifier::external_body]
pub(crate) fn map_iter(map: &IndexMap<u128, (u128, u128)>) -> (links: Vec<(u128, u128, u128)>)
    ensures
        links@ == entries(*map),
{
    map.iter().map(|(id, ends)| (*id, ends.0, ends.1)).collect()
}

/// Calls `serde_json::from_str` for an array of triples of `uuid::Uuid`, and
/// names what it reads; each UUID comes out as the integer it stands for.
#[verifier::external_body]
pub(crate) fn json_parse(text: &str) -> (parsed: Result<Vec<(u128, u128, u128)>, serde_json::Error>)
    ensures
        parsed matches Ok(links) ==> links_parsed(text@) == Some(links@),
        parsed is Err ==> links_parsed(text@) is None,
{
    let links = serde_json::from_str::<Vec<(Uuid, Uuid, Uuid)>>(text)?;
    Ok(links.iter().map(|l| (l.0.as_u128(), l.1.as_u128(), l.2.as_u128())).collect())
}

/// Calls `serde_json::to_string_pretty` on an array of triples of
/// `uuid::Uuid`. UUIDs are written as strings into memory, which cannot fail,
/// and reading the text gives the same links back.
#[verifier::external_body]
pub(crate) fn json_render(links: &Vec<(u128, u128, u128)>) -> (rendered: Result<String, serde_json::Error>)
    ensures
        rendered is Ok,
        rendered->Ok_0@ == links_rendered(links@),
        links_parsed(rendered->Ok_0@) == Some(links@),
{
    let id = Uuid::from_u128;
    let links: Vec<(Uuid, Uuid, Uuid)> = links.iter().map(|l| (id(l.0), id(l.1), id(l.2))).collect();
    serde_json::to_string_pretty(&links)
}

/// Calls `Uuid::new_v4`: a random UUID of version 4. Which one it is rests on
/// chance; the version and variant bits are the same in all of them. The call
/// panics if the operating system has no random bytes to give.
#[verifier::external_body]
pub(crate) fn fresh_id() -> (id: u128)
    ensures
        is_random_id(id),
{
    Uuid::new_v4().as_u128()
}

} // verus!
