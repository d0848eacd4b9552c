//! The table of links between nodes.
//!
//! The table keeps links in the order in which they are drawn and saved.
//! Identifiers of links and nodes are UUIDs, held as the integers they stand
//! for.

use crate::outside::{map_insert, map_iter, map_new, map_retain, map_swap_remove};
use indexmap::IndexMap;
use vstd::prelude::*;

verus! {

/// A link: its own identifier, the node it starts from, the node it leads to.
pub type Link = (u128, u128, u128);

/// Some link of `links` has identifier `id`.
pub open spec fn has_id(links: Seq<Link>, id: u128) -> bool {
    exists|i: int| 0 <= i < links.len() && #[trigger] links[i].0 == id
}

/// `links` without the one at `i`, whose place the last one takes.
pub open spec fn swap_removed(
    links: Seq<Link>,
    i: int,
) -> Seq<Link> {
    links.update(i, links.last()).drop_last()
}

/// Which links to keep.
#[derive(Clone, Copy, Debug, PartialEq, Eq)]
pub enum Keep {
    /// All links but those from `start` to `end`.
    NotBetween { start: u128, end: u128 },
    /// All links but those that start from or lead to `node`.
    NotTouching { node: u128 },
}

/// Whether `rule` keeps `link`.
pub open spec fn kept(rule: Keep, link: Link) -> bool {
    match rule {
        Keep::NotBetween { start, end } => !(link.1 == start && link.2 == end),
        Keep::NotTouching { node } => link.1 != node && link.2 != node,
    }
}

/// Whether `rule` keeps the link from `start` to `end`.
pub fn keeps(rule: Keep, from: u128, to: u128) -> (keep: bool)
    ensures
        forall|id: u128| keep == #[trigger] kept(rule, (id, from, to)),
        rule matches Keep::NotBetween { start, end } ==> keep == (from != start || to != end),
        rule matches Keep::NotTouching { node } ==> keep == (from != node && to != node),
{
    match rule {
        Keep::NotBetween { start, end } => !(from == start && to == end),
        Keep::NotTouching { node } => from != node && to != node,
    }
}

/// The links of `links` that `rule` keeps, in their order.
pub open spec fn retained(links: Seq<Link>, rule: Keep) -> Seq<Link> {
    links.filter(|link: Link| kept(rule, link))
}

/// No two links share an identifier.
pub open spec fn unique_ids(links: Seq<Link>) -> bool {
    forall|i: int, j: int|
        0 <= i < j < links.len() ==> (#[trigger] links[i]).0 != (#[trigger] links[j]).0
}

/// Where the link with identifier `id` stands.
pub open spec fn place(links: Seq<Link>, id: u128) -> int {
    choose|i: int| 0 <= i < links.len() && #[trigger] links[i].0 == id
}

/// `links` after `link` was put in: in place of the link with its identifier,
/// or last if there is none.
pub open spec fn inserted(links: Seq<Link>, link: Link) -> Seq<Link> {
    if has_id(links, link.0) {
        links.update(place(links, link.0), link)
    } else {
        links.push(link)
    }
}

/// `links` after the link with identifier `id` was taken out, if there is one;
/// the last link takes its place.
pub open spec fn removed(links: Seq<Link>, id: u128) -> Seq<Link> {
    if has_id(links, id) {
        swap_removed(links, place(links, id))
    } else {
        links
    }
}

/// `link` starts from or leads to one of `nodes`.
pub open spec fn touches_any(link: Link, nodes: Seq<u128>) -> bool {
    nodes.contains(link.1) || nodes.contains(link.2)
}

/// The links that touch none of `nodes`, in their order.
pub open spec fn without_nodes(links: Seq<Link>, nodes: Seq<u128>) -> Seq<Link> {
    links.filter(|link: Link| !touches_any(link, nodes))
}

proof fn lemma_filter_members(links: Seq<Link>, keep: spec_fn(Link) -> bool, i: int)
    requires
        0 <= i < links.filter(keep).len(),
    ensures
        links.contains(links.filter(keep)[i]),
        keep(links.filter(keep)[i]),
    decreases links.len(),
{
    reveal(Seq::filter);
    let rest = links.drop_last();
    if i < rest.filter(keep).len() {
        lemma_filter_members(rest, keep, i);
        let j = choose|j: int| 0 <= j < rest.len() && rest[j] == rest.filter(keep)[i];
        assert(links[j] == links.filter(keep)[i]);
    } else {
        assert(links[links.len() - 1] == links.filter(keep)[i]);
    }
}

proof fn lemma_filter_keeps_unique(links: Seq<Link>, keep: spec_fn(Link) -> bool)
    requires
        unique_ids(links),
    ensures
        unique_ids(links.filter(keep)),
    decreases links.len(),
{
    reveal(Seq::filter);
    if links.len() > 0 {
        let rest = links.drop_last();
        lemma_filter_keeps_unique(rest, keep);
        let out = links.filter(keep);
        assert forall|i: int, j: int| 0 <= i < j < out.len() implies (#[trigger] out[i]).0 != (
        #[trigger] out[j]).0 by {
            let kept_rest = rest.filter(keep);
            if j < kept_rest.len() {
                assert(kept_rest[i] == out[i] && kept_rest[j] == out[j]);
            } else {
                lemma_filter_members(rest, keep, i);
                let k = choose|k: int| 0 <= k < rest.len() && rest[k] == kept_rest[i];
                assert(links[k] == out[i]);
                assert(out[j] == links[links.len() - 1]);
            }
        }
    }
}

proof fn lemma_filter_twice(
    links: Seq<Link>,
    first: spec_fn(Link) -> bool,
    second: spec_fn(Link) -> bool,
    both: spec_fn(Link) -> bool,
)
    requires
        forall|link: Link| #[trigger] both(link) == (first(link) && second(link)),
    ensures
        links.filter(first).filter(second) == links.filter(both),
    decreases links.len(),
{
    reveal(Seq::filter);
    if links.len() > 0 {
        let rest = links.drop_last();
        lemma_filter_twice(rest, first, second, both);
        assert(both(links.last()) == (first(links.last()) && second(links.last())));
        if first(links.last()) {
            assert(rest.filter(first).push(links.last()).drop_last() =~= rest.filter(first));
        }
    }
}

/// Dropping the links of one more node.
pub proof fn without_one_more_node(links: Seq<Link>, nodes: Seq<u128>, node: u128)
    ensures
        retained(without_nodes(links, nodes), Keep::NotTouching { node }) == without_nodes(
            links,
            nodes.push(node),
        ),
{
    let both = |link: Link| !touches_any(link, nodes.push(node));
    let first = |link: Link| !touches_any(link, nodes);
    let second = |link: Link| kept(Keep::NotTouching { node }, link);
    assert forall|link: Link| #[trigger] both(link) == (first(link) && second(link)) by {
        lemma_contains_push(nodes, node, link.1);
        lemma_contains_push(nodes, node, link.2);
    }
    lemma_filter_twice(links, first, second, both);
}

proof fn lemma_contains_push(nodes: Seq<u128>, node: u128, x: u128)
    ensures
        nodes.push(node).contains(x) == (nodes.contains(x) || x == node),
{
    let more = nodes.push(node);
    if nodes.contains(x) {
        let i = choose|i: int| 0 <= i < nodes.len() && nodes[i] == x;
        assert(more[i] == x);
    }
    if x == node {
        assert(more[nodes.len() as int] == x);
    }
    if more.contains(x) && x != node {
        let i = choose|i: int| 0 <= i < more.len() && more[i] == x;
        assert(nodes[i] == x);
    }
}

/// Links between nodes, in order, each under its own identifier.
pub struct LinkTable {
    map: IndexMap<u128, (u128, u128)>,
}

impl View for LinkTable {
    type V = Seq<Link>;

    closed spec fn view(&self) -> Seq<Link> {
        crate::outside::entries(self.map)
    }
}

impl LinkTable {
    /// No two links share an identifier.
    pub open spec fn wf(self) -> bool {
        unique_ids(self@)
    }

    /// A table without links.
    pub fn new() -> (table: LinkTable)
        ensures
            table.wf(),
            table@ == Seq::<Link>::empty(),
    {
        LinkTable { map: map_new() }
    }

    /// Puts a link in, in place of the one with its identifier or last.
    /// Returns the end points of the link whose place it took.
    pub fn insert(&mut self, id: u128, start: u128, end: u128) -> (replaced: Option<(u128, u128)>)
        requires
            old(self).wf(),
        ensures
            final(self).wf(),
            final(self)@ == inserted(old(self)@, (id, start, end)),
            replaced == if has_id(old(self)@, id) {
                let was = old(self)@[place(old(self)@, id)];
                Some((was.1, was.2))
            } else {
                None
            },
            forall|k: int|
                0 <= k < old(self)@.len() && (#[trigger] old(self)@[k]).0 == id ==> replaced == Some(
                    (old(self)@[k].1, old(self)@[k].2),
                ),
            (forall|k: int| 0 <= k < old(self)@.len() ==> (#[trigger] old(self)@[k]).0 != id)
                ==> replaced is None,
    {
        let ghost before = self@;
        let replaced = map_insert(&mut self.map, id, (start, end));
        proof {
            if has_id(before, id) {
                let p = place(before, id);
                assert(before[p].0 == id);
                let was = replaced.unwrap();
                let i = choose|i: int|
                    0 <= i < before.len() && #[trigger] before[i] == (id, was.0, was.1) && self@
                        == before.update(i, (id, start, end));
                assert(before[i].0 == before[p].0);
                assert(i == p);
            }
        }
        replaced
    }

    /// Takes the link with identifier `id` out, if there is one; the last link
    /// takes its place. Returns its end points.
    pub fn remove(&mut self, id: u128) -> (ends: Option<(u128, u128)>)
        requires
            old(self).wf(),
        ensures
            final(self).wf(),
            final(self)@ == removed(old(self)@, id),
            ends == if has_id(old(self)@, id) {
                let was = old(self)@[place(old(self)@, id)];
                Some((was.1, was.2))
            } else {
                None
            },
            forall|k: int|
                0 <= k < old(self)@.len() && (#[trigger] old(self)@[k]).0 == id ==> ends == Some(
                    (old(self)@[k].1, old(self)@[k].2),
                ),
            (forall|k: int| 0 <= k < old(self)@.len() ==> (#[trigger] old(self)@[k]).0 != id)
                ==> ends is None,
    {
        let ghost before = self@;
        let ends = map_swap_remove(&mut self.map, id);
        proof {
            if has_id(before, id) {
                let p = place(before, id);
                assert(before[p].0 == id);
                let was = ends.unwrap();
                let i = choose|i: int|
                    0 <= i < before.len() && #[trigger] before[i] == (id, was.0, was.1) && self@
                        == swap_removed(before, i);
                assert(before[i].0 == before[p].0);
                assert(i == p);
            }
        }
        ends
    }

    /// Drops the links that `rule` does not keep.
    pub fn retain(&mut self, rule: Keep)
        requires
            old(self).wf(),
        ensures
            final(self).wf(),
            final(self)@ == retained(old(self)@, rule),
    {
        let ghost before = self@;
        map_retain(&mut self.map, rule);
        proof {
            lemma_filter_keeps_unique(before, |link: Link| kept(rule, link));
        }
    }

    /// Drops the links that touch any of `nodes`.
    pub fn drop_nodes(&mut self, nodes: &Vec<u128>)
        requires
            old(self).wf(),
        ensures
            final(self).wf(),
            final(self)@ == without_nodes(old(self)@, nodes@),
            forall|link: Link|
                #![trigger final(self)@.contains(link)]
                final(self)@.contains(link) <==> old(self)@.contains(link) && !nodes@.contains(
                    link.1,
                ) && !nodes@.contains(link.2),
    {
        let ghost before = self@;
        proof {
            without_no_nodes(before);
            assert(nodes@.take(0) =~= Seq::<u128>::empty());
        }
        let mut i: usize = 0;
        while i < nodes.len()
            invariant
                i <= nodes@.len(),
                self.wf(),
                self@ == without_nodes(before, nodes@.take(i as int)),
            decreases nodes@.len() - i,
        {
            self.retain(Keep::NotTouching { node: nodes[i] });
            proof {
                without_one_more_node(before, nodes@.take(i as int), nodes@[i as int]);
                assert(nodes@.take(i as int).push(nodes@[i as int]) =~= nodes@.take(i + 1));
            }
            i = i + 1;
        }
        assert(nodes@.take(nodes@.len() as int) =~= nodes@);
        assert forall|link: Link|
            #![trigger self@.contains(link)]
            self@.contains(link) <==> before.contains(link) && !nodes@.contains(link.1)
                && !nodes@.contains(link.2) by {
            removed_nodes_lose_exactly_their_links(before, nodes@, link);
        }
    }

    /// All links, in order.
    pub fn links(&self) -> (links: Vec<Link>)
        ensures
            links@ == self@,
    {
        map_iter(&self.map)
    }
}

/// Removing no nodes drops no links.
pub proof fn without_no_nodes(links: Seq<Link>)
    ensures
        without_nodes(links, Seq::<u128>::empty()) == links,
    decreases links.len(),
{
    reveal(Seq::filter);
    if links.len() > 0 {
        without_no_nodes(links.drop_last());
        assert(links.drop_last().push(links.last()) =~= links);
    }
}

/// Removing nodes drops exactly the links that touch them.
pub proof fn without_nodes_is_exact(links: Seq<Link>, nodes: Seq<u128>, link: Link)
    ensures
        without_nodes(links, nodes).contains(link) <==> links.contains(link) && !touches_any(
            link,
            nodes,
        ),
{
    let keep = |link: Link| !touches_any(link, nodes);
    let left = links.filter(keep);
    if left.contains(link) {
        let i = choose|i: int| 0 <= i < left.len() && left[i] == link;
        lemma_filter_members(links, keep, i);
    }
    if links.contains(link) && keep(link) {
        let i = choose|i: int| 0 <= i < links.len() && links[i] == link;
        links.lemma_filter_contains(keep, i);
    }
}

/// A rule keeps exactly the links that it says it keeps.
pub proof fn retained_is_exact(links: Seq<Link>, rule: Keep, link: Link)
    ensures
        retained(links, rule).contains(link) <==> links.contains(link) && kept(rule, link),
{
    let keep = |link: Link| kept(rule, link);
    let left = links.filter(keep);
    if left.contains(link) {
        let i = choose|i: int| 0 <= i < left.len() && left[i] == link;
        lemma_filter_members(links, keep, i);
    }
    if links.contains(link) && keep(link) {
        let i = choose|i: int| 0 <= i < links.len() && links[i] == link;
        links.lemma_filter_contains(keep, i);
    }
}

/// Links keep distinct identifiers whatever is put in, taken out or dropped.
pub proof fn ids_stay_unique(links: Seq<Link>, link: Link, rule: Keep, nodes: Seq<u128>)
    requires
        unique_ids(links),
    ensures
        unique_ids(inserted(links, link)),
        unique_ids(removed(links, link.0)),
        unique_ids(retained(links, rule)),
        unique_ids(without_nodes(links, nodes)),
{
    lemma_filter_keeps_unique(links, |link: Link| kept(rule, link));
    lemma_filter_keeps_unique(links, |link: Link| !touches_any(link, nodes));
    if has_id(links, link.0) {
        let p = place(links, link.0);
        assert(links[p].0 == link.0);
    }
}

/// Conditions that agree on every link keep the same links.
pub proof fn lemma_filter_same(
    links: Seq<Link>,
    one: spec_fn(Link) -> bool,
    other: spec_fn(Link) -> bool,
)
    requires
        forall|link: Link| #[trigger] one(link) == other(link),
    ensures
        links.filter(one) == links.filter(other),
    decreases links.len(),
{
    reveal(Seq::filter);
    if links.len() > 0 {
        lemma_filter_same(links.drop_last(), one, other);
        assert(one(links.last()) == other(links.last()));
    }
}

/// Links are told apart by the whole identifiers of their end points: a rule
/// against a node lets go of the links that start from or lead to that very
/// node, a rule against a pair of the links between that very pair, in that
/// direction.
pub proof fn rules_compare_whole_identifiers(node: u128, start: u128, end: u128, link: Link)
    ensures
        kept(Keep::NotTouching { node }, link) <==> (link.1 != node && link.2 != node),
        kept(Keep::NotBetween { start, end }, link) <==> (link.1 != start || link.2 != end),
{
}

/// After nodes were removed no link starts from or leads to any of them, and
/// every link between two other nodes is still there, in the same order and
/// as often as before.
pub proof fn removed_nodes_lose_exactly_their_links(
    links: Seq<Link>,
    nodes: Seq<u128>,
    link: Link,
)
    ensures
        without_nodes(links, nodes).contains(link) ==> !nodes.contains(link.1) && !nodes.contains(
            link.2,
        ),
        links.contains(link) && !nodes.contains(link.1) && !nodes.contains(link.2)
            ==> without_nodes(links, nodes).contains(link),
        without_nodes(links, nodes).contains(link) ==> links.contains(link),
        without_nodes(links, nodes) == links.filter(
            |link: Link| !nodes.contains(link.1) && !nodes.contains(link.2),
        ),
{
    without_nodes_is_exact(links, nodes, link);
    lemma_filter_same(
        links,
        |link: Link| !touches_any(link, nodes),
        |link: Link| !nodes.contains(link.1) && !nodes.contains(link.2),
    );
}

/// Dropping the links of a node, or those between a pair of nodes, leaves all
/// others, in the same order and as often as before.
pub proof fn dropped_links_are_the_named_ones(
    links: Seq<Link>,
    node: u128,
    start: u128,
    end: u128,
)
    ensures
        retained(links, Keep::NotTouching { node }) == links.filter(
            |link: Link| link.1 != node && link.2 != node,
        ),
        retained(links, Keep::NotBetween { start, end }) == links.filter(
            |link: Link| link.1 != start || link.2 != end,
        ),
{
    lemma_filter_same(
        links,
        |link: Link| kept(Keep::NotTouching { node }, link),
        |link: Link| link.1 != node && link.2 != node,
    );
    lemma_filter_same(
        links,
        |link: Link| kept(Keep::NotBetween { start, end }, link),
        |link: Link| link.1 != start || link.2 != end,
    );
}

/// A table in which no two links share an identifier tells any two of its
/// links apart by it.
pub proof fn identifiers_tell_links_apart(links: Seq<Link>, i: int, j: int)
    requires
        unique_ids(links),
        0 <= i < links.len(),
        0 <= j < links.len(),
    ensures
        links[i].0 == links[j].0 ==> i == j,
{
}

/// A link whose identifier is new goes last and moves no other; one whose
/// identifier is that of link `k` takes that link's place and leaves the rest
/// alone.
pub proof fn inserting_replaces_or_appends(links: Seq<Link>, link: Link, k: int)
    requires
        forall|i: int, j: int|
            0 <= i < j < links.len() ==> (#[trigger] links[i]).0 != (#[trigger] links[j]).0,
    ensures
        (forall|i: int| 0 <= i < links.len() ==> (#[trigger] links[i]).0 != link.0)
            ==> inserted(links, link) == links.push(link),
        0 <= k < links.len() && links[k].0 == link.0 ==> inserted(links, link) == links.update(
            k,
            link,
        ),
{
    if has_id(links, link.0) {
        let p = place(links, link.0);
        assert(links[p].0 == link.0);
        if 0 <= k < links.len() && links[k].0 == link.0 {
            assert(p == k);
        }
    } else if 0 <= k < links.len() {
        assert(links[k].0 != link.0);
    }
}

/// Taking out the link with identifier `id` takes out that one alone: the last
/// link moves into its place, and all others stay where they are. Without
/// such a link nothing changes.
pub proof fn taking_out_moves_only_the_last(links: Seq<Link>, id: u128, k: int)
    requires
        forall|i: int, j: int|
            0 <= i < j < links.len() ==> (#[trigger] links[i]).0 != (#[trigger] links[j]).0,
    ensures
        (forall|i: int| 0 <= i < links.len() ==> (#[trigger] links[i]).0 != id) ==> removed(
            links,
            id,
        ) == links,
        0 <= k < links.len() && links[k].0 == id ==> {
            &&& removed(links, id).len() == links.len() - 1
            &&& forall|i: int|
                0 <= i < links.len() - 1 ==> #[trigger] removed(links, id)[i] == (if i == k {
                    links[links.len() - 1]
                } else {
                    links[i]
                })
        },
{
    if has_id(links, id) {
        let p = place(links, id);
        assert(links[p].0 == id);
        if 0 <= k < links.len() && links[k].0 == id {
            assert(p == k);
        }
    } else if 0 <= k < links.len() {
        assert(links[k].0 != id);
    }
}

} // verus!
