//! The node editor: what its links, its context menu and its saved state
//! become as things happen on the canvas.
//!
//! Connecting, disconnecting, adding and removing are done by an audio service
//! that stands outside. The editor says what to ask of it and takes the answer.

use crate::links::{Keep, Link, LinkTable};
use crate::node::NewNode;
use crate::outside::{fresh_id, json_parse, json_render};
use vstd::prelude::*;

verus! {

/// How long a message of failure stays on screen, in seconds.
pub const TOAST_SECONDS: u32 = 10;

/// Seconds between saves when nothing waits to be saved.
pub const IDLE_SAVE_SECONDS: u64 = 30;

/// The storage key of the nodes.
pub const NODES_KEY: &'static str = "nodes";

/// The storage key of the links.
pub const LINKS_KEY: &'static str = "links";

/// What a context menu is about.
#[derive(Clone, Copy, Debug, PartialEq, Eq)]
pub enum ContextMenuKind {
    /// The node with this identifier.
    Node(u128),
    /// The canvas itself.
    Editor,
}

/// A message of failure to show.
#[derive(Debug, PartialEq, Eq)]
pub struct Toast {
    pub text: String,
    pub seconds: u32,
}

/// Where a node is: as the audio service has it, and as the canvas drew it, if
/// it did.
#[derive(Debug, PartialEq, Eq)]
pub struct Placed<P> {
    pub stored: P,
    pub drawn: Option<P>,
}

/// What to save: the position of each node, and the text of the links.
#[derive(Debug, PartialEq, Eq)]
pub struct Saved<P> {
    pub positions: Vec<P>,
    pub links: String,
}

/// Something to ask of the audio service.
#[derive(Clone, Copy, Debug, PartialEq, Eq)]
pub enum Request {
    Disconnect { from: u128, to: u128 },
    Connect { start: u128, end: u128 },
}

/// The state of the editor.
pub struct Editor {
    /// Links between nodes.
    pub ui_links: LinkTable,
    /// What the context menu is about, while one is open.
    pub context_menu_kind: Option<ContextMenuKind>,
    /// The end points of the link that was last taken off its pin, kept until
    /// a link is let go over nothing or one is refused by the audio service.
    pub detached_link: Option<(u128, u128)>,
    /// Something changed since the last save.
    pub should_save: bool,
}

/// What the context menu is about: what it was about in the last frame, else
/// the node under the pointer, else the canvas.
pub open spec fn menu_kind(
    open: Option<ContextMenuKind>,
    hovered: Option<u128>,
) -> ContextMenuKind {
    match (open, hovered) {
        (Some(kind), _) => kind,
        (None, Some(node)) => ContextMenuKind::Node(node),
        (None, None) => ContextMenuKind::Editor,
    }
}

/// The links, and the detached link, after a link from `start` to `end` was
/// drawn and the audio service did or did not connect it. A link that was
/// connected replaces any other between the same nodes; instead of one that
/// was refused, the detached link, if there is one, is put in again. What is put
/// in has the identifier `id` and goes last, or takes the place of a link that
/// has that identifier already.
pub open spec fn after_created(
    links: Seq<Link>,
    detached: Option<(u128, u128)>,
    id: u128,
    start: u128,
    end: u128,
    connected: bool,
) -> (Seq<Link>, Option<(u128, u128)>) {
    if connected {
        (
            crate::links::inserted(
                crate::links::retained(links, Keep::NotBetween { start, end }),
                (id, start, end),
            ),
            detached,
        )
    } else {
        match detached {
            Some((from, to)) => (crate::links::inserted(links, (id, from, to)), None),
            None => (links, None),
        }
    }
}

/// The end points of the link with identifier `id`, if there is one.
pub open spec fn ends_at(links: Seq<Link>, id: u128) -> Option<(u128, u128)> {
    if crate::links::has_id(links, id) {
        let link = links[crate::links::place(links, id)];
        Some((link.1, link.2))
    } else {
        None
    }
}

/// The end points of the link that came off its pin in a frame, if one did.
pub open spec fn came_off(links: Seq<Link>, detached: Option<u128>) -> Option<(u128, u128)> {
    match detached {
        Some(id) => ends_at(links, id),
        None => None,
    }
}

/// What to ask of the audio service after a frame, in order: to disconnect
/// the link that came off its pin, then to connect the one that was drawn.
pub open spec fn frame_requests(
    off: Option<(u128, u128)>,
    created: Option<(u128, u128)>,
) -> Seq<Request> {
    let first = match off {
        Some((from, to)) => seq![Request::Disconnect { from, to }],
        None => Seq::empty(),
    };
    let second = match created {
        Some((start, end)) => seq![Request::Connect { start, end }],
        None => Seq::empty(),
    };
    first + second
}

/// The links of a table into which `saved` was put, one after the other.
pub open spec fn restored(table: Seq<Link>, saved: Seq<Link>) -> Seq<Link>
    decreases saved.len(),
{
    if saved.len() == 0 {
        table
    } else {
        crate::links::inserted(restored(table, saved.drop_last()), saved.last())
    }
}

/// The connections to make when `saved` is put into a table: one for each link
/// whose identifier was not there yet.
pub open spec fn to_connect(table: Seq<Link>, saved: Seq<Link>) -> Seq<(u128, u128)>
    decreases saved.len(),
{
    if saved.len() == 0 {
        Seq::empty()
    } else {
        let earlier = to_connect(table, saved.drop_last());
        if crate::links::has_id(restored(table, saved.drop_last()), saved.last().0) {
            earlier
        } else {
            earlier.push((saved.last().1, saved.last().2))
        }
    }
}

/// The links that a saved text stands for: none if there is no text or it does
/// not read as links.
pub open spec fn saved_links(text: Option<&str>) -> Seq<Link> {
    match text {
        Some(text) => match crate::outside::links_parsed(text@) {
            Some(links) => links,
            None => Seq::empty(),
        },
        None => Seq::empty(),
    }
}

/// The position to save for a node: where it was drawn, else where the audio
/// service has it.
pub open spec fn saved_position<P>(node: Placed<P>) -> P {
    match node.drawn {
        Some(pos) => pos,
        None => node.stored,
    }
}

impl Editor {
    /// No two links share an identifier.
    pub open spec fn wf(self) -> bool {
        self.ui_links.wf()
    }

    /// An editor without links.
    pub fn new() -> (editor: Editor)
        ensures
            editor.wf(),
            editor.ui_links@ == Seq::<Link>::empty(),
            editor.context_menu_kind is None,
            editor.detached_link is None,
            !editor.should_save,
    {
        Editor {
            ui_links: LinkTable::new(),
            context_menu_kind: None,
            detached_link: None,
            should_save: false,
        }
    }

    /// Decides what the context menu of this frame is about, with `hovered`
    /// the node under the pointer. The answer is forgotten unless the menu
    /// shows.
    pub fn context_menu(&mut self, hovered: Option<u128>) -> (kind: ContextMenuKind)
        requires
            old(self).wf(),
        ensures
            final(self).wf(),
            kind == menu_kind(old(self).context_menu_kind, hovered),
            *final(self) == (Editor { context_menu_kind: None, ..*old(self) }),
    {
        match self.context_menu_kind.take() {
            Some(kind) => kind,
            None => match hovered {
                Some(node) => ContextMenuKind::Node(node),
                None => ContextMenuKind::Editor,
            },
        }
    }

    /// The context menu shows: it is about the same thing in the next frame.
    pub fn context_menu_shown(&mut self, kind: ContextMenuKind)
        requires
            old(self).wf(),
        ensures
            final(self).wf(),
            *final(self) == (Editor { context_menu_kind: Some(kind), ..*old(self) }),
    {
        self.context_menu_kind = Some(kind);
    }

    /// The context menu of `node_id` was drawn, with its one entry clicked or
    /// not. If it was, that node goes, and the `selected` ones with it. Returns
    /// the nodes to remove, in order.
    pub fn node_context_menu_items(
        &mut self,
        remove_clicked: bool,
        node_id: u128,
        selected: &Vec<u128>,
    ) -> (removed: Vec<u128>)
        requires
            old(self).wf(),
        ensures
            final(self).wf(),
            final(self).context_menu_kind == old(self).context_menu_kind,
            final(self).detached_link == old(self).detached_link,
            final(self).should_save == old(self).should_save,
            removed@ == (if remove_clicked {
                seq![node_id] + selected@
            } else {
                Seq::empty()
            }),
            final(self).ui_links@ == (if remove_clicked {
                crate::links::without_nodes(old(self).ui_links@, removed@)
            } else {
                old(self).ui_links@
            }),
            forall|link: Link|
                #![trigger final(self).ui_links@.contains(link)]
                final(self).ui_links@.contains(link) <==> old(self).ui_links@.contains(link)
                    && !removed@.contains(link.1) && !removed@.contains(link.2),
    {
        proof {
            crate::links::without_no_nodes(self.ui_links@);
        }
        let mut removed: Vec<u128> = Vec::new();
        if remove_clicked {
            removed.push(node_id);
            let mut i: usize = 0;
            assert(removed@ =~= seq![node_id] + selected@.take(0));
            while i < selected.len()
                invariant
                    i <= selected@.len(),
                    removed@ == seq![node_id] + selected@.take(i as int),
                decreases selected@.len() - i,
            {
                removed.push(selected[i]);
                assert(removed@ =~= seq![node_id] + selected@.take(i + 1));
                i = i + 1;
            }
            assert(selected@.take(selected@.len() as int) =~= selected@);
        }
        self.ui_links.drop_nodes(&removed);
        removed
    }

    /// The selected nodes go: their links are dropped. The nodes themselves are
    /// for the audio service to remove.
    pub fn remove_selected_nodes(&mut self, selected: &Vec<u128>)
        requires
            old(self).wf(),
        ensures
            final(self).wf(),
            final(self).ui_links@ == crate::links::without_nodes(
                old(self).ui_links@,
                selected@,
            ),
            forall|link: Link|
                #![trigger final(self).ui_links@.contains(link)]
                final(self).ui_links@.contains(link) <==> old(self).ui_links@.contains(link)
                    && !selected@.contains(link.1) && !selected@.contains(link.2),
            final(self).context_menu_kind == old(self).context_menu_kind,
            final(self).detached_link == old(self).detached_link,
            final(self).should_save == old(self).should_save,
    {
        self.ui_links.drop_nodes(selected);
    }

    /// The canvas's context menu was drawn, and `added_node` was chosen from
    /// it. Returns the node to add; one that is added is worth saving.
    pub fn editor_context_menu_items<P>(&mut self, added_node: Option<NewNode<P>>) -> (node: Option<
        NewNode<P>,
    >)
        requires
            old(self).wf(),
        ensures
            final(self).wf(),
            node == added_node,
            *final(self) == (Editor {
                should_save: old(self).should_save || added_node is Some,
                ..*old(self)
            }),
    {
        if added_node.is_some() {
            self.should_save = true;
        }
        added_node
    }

    /// The link with identifier `id` was taken off a pin. Returns the end
    /// points to disconnect, if there is such a link.
    pub fn link_detached(&mut self, id: u128) -> (disconnect: Option<(u128, u128)>)
        requires
            old(self).wf(),
        ensures
            final(self).wf(),
            final(self).ui_links@ == crate::links::removed(old(self).ui_links@, id),
            disconnect == ends_at(old(self).ui_links@, id),
            forall|k: int|
                0 <= k < old(self).ui_links@.len() && (#[trigger] old(self).ui_links@[k]).0 == id
                    ==> disconnect == Some(
                    (old(self).ui_links@[k].1, old(self).ui_links@[k].2),
                ),
            (forall|k: int|
                0 <= k < old(self).ui_links@.len() ==> (#[trigger] old(self).ui_links@[k]).0 != id)
                ==> disconnect is None,
            final(self).detached_link == (if disconnect is Some {
                disconnect
            } else {
                old(self).detached_link
            }),
            final(self).context_menu_kind == old(self).context_menu_kind,
            final(self).should_save == old(self).should_save,
    {
        let ends = self.ui_links.remove(id);
        if ends.is_some() {
            self.detached_link = ends;
        }
        ends
    }

    /// A link was let go over nothing: a detached one stays off.
    pub fn link_dropped(&mut self)
        requires
            old(self).wf(),
        ensures
            final(self).wf(),
            *final(self) == (Editor { should_save: true, detached_link: None, ..*old(self) }),
    {
        self.should_save = true;
        self.detached_link = None;
    }

    /// What happened to links on the canvas in one frame: which one was taken
    /// off its pin, whether one was let go over nothing, and between which nodes
    /// one was drawn. Returns what to ask of the audio service, in order; its
    /// answer to [`Request::Connect`] is for [`Editor::link_created`].
    pub fn interact(
        &mut self,
        detached: Option<u128>,
        dropped: bool,
        created: Option<(u128, u128)>,
    ) -> (requests: Vec<Request>)
        requires
            old(self).wf(),
        ensures
            final(self).wf(),
            requests@ == frame_requests(came_off(old(self).ui_links@, detached), created),
            created matches Some((start, end)) ==> requests@.len() > 0
                && requests@[requests@.len() - 1] == (Request::Connect { start, end }),
            forall|i: int|
                0 <= i < requests@.len() && (#[trigger] requests@[i] is Connect) ==> created is Some
                    && i == requests@.len() - 1,
            forall|i: int|
                0 <= i < requests@.len() && (#[trigger] requests@[i] is Disconnect) ==> i == 0
                    && detached is Some,
            forall|k: int|
                0 <= k < old(self).ui_links@.len() && detached == Some(
                    (#[trigger] old(self).ui_links@[k]).0,
                ) ==> requests@.len() > 0 && requests@[0] == (Request::Disconnect {
                    from: old(self).ui_links@[k].1,
                    to: old(self).ui_links@[k].2,
                }),
            final(self).ui_links@ == (match detached {
                Some(id) => crate::links::removed(old(self).ui_links@, id),
                None => old(self).ui_links@,
            }),
            final(self).detached_link == (if dropped {
                None
            } else if came_off(old(self).ui_links@, detached) is Some {
                came_off(old(self).ui_links@, detached)
            } else {
                old(self).detached_link
            }),
            final(self).should_save == (old(self).should_save || dropped),
            final(self).context_menu_kind == old(self).context_menu_kind,
    {
        let mut requests: Vec<Request> = Vec::new();
        if let Some(id) = detached {
            if let Some((from, to)) = self.link_detached(id) {
                requests.push(Request::Disconnect { from, to });
            }
        }
        if dropped {
            self.link_dropped();
        }
        if let Some((start, end)) = created {
            requests.push(Request::Connect { start, end });
        }
        proof {
            let links = old(self).ui_links@;
            assert(requests@ =~= frame_requests(came_off(links, detached), created));
            gestures_become_requests(links, detached, created, 0);
            assert forall|k: int|
                0 <= k < links.len() && detached == Some((#[trigger] links[k]).0) implies requests@.len()
                > 0 && requests@[0] == (Request::Disconnect {
                from: links[k].1,
                to: links[k].2,
            }) by {
                gestures_become_requests(links, detached, created, k);
            }
        }
        requests
    }

    /// A link from `start` to `end` was drawn, and `connected` is what the
    /// audio service answered to connecting the two. The link that is put into
    /// the table, if any, gets the identifier `id`. Returns the message to
    /// show.
    pub fn link_created_as(
        &mut self,
        id: u128,
        start: u128,
        end: u128,
        connected: Result<(), String>,
    ) -> (toast: Option<Toast>)
        requires
            old(self).wf(),
        ensures
            final(self).wf(),
            (final(self).ui_links@, final(self).detached_link) == after_created(
                old(self).ui_links@,
                old(self).detached_link,
                id,
                start,
                end,
                connected is Ok,
            ),
            final(self).context_menu_kind == old(self).context_menu_kind,
            final(self).should_save,
            toast == (match connected {
                Ok(()) => None,
                Err(text) => Some(Toast { text, seconds: TOAST_SECONDS }),
            }),
    {
        let toast = match connected {
            Ok(()) => {
                self.ui_links.retain(Keep::NotBetween { start, end });
                self.ui_links.insert(id, start, end);
                None
            },
            Err(text) => {
                if let Some((from, to)) = self.detached_link.take() {
                    self.ui_links.insert(id, from, to);
                }
                Some(Toast { text, seconds: TOAST_SECONDS })
            },
        };
        self.should_save = true;
        toast
    }

    /// As [`Editor::link_created_as`], under a random identifier.
    pub fn link_created(
        &mut self,
        start: u128,
        end: u128,
        connected: Result<(), String>,
    ) -> (toast: Option<Toast>)
        requires
            old(self).wf(),
        ensures
            final(self).wf(),
            exists|id: u128| #[trigger]
                crate::outside::is_random_id(id) && (
                final(self).ui_links@,
                final(self).detached_link,
                ) == after_created(
                    old(self).ui_links@,
                    old(self).detached_link,
                    id,
                    start,
                    end,
                    connected is Ok,
                ),
            final(self).context_menu_kind == old(self).context_menu_kind,
            final(self).should_save,
            toast == (match connected {
                Ok(()) => None,
                Err(text) => Some(Toast { text, seconds: TOAST_SECONDS }),
            }),
    {
        let id: u128 = if connected.is_ok() || self.detached_link.is_some() {
            fresh_id()
        } else {
            0
        };
        // Without a link to put in, the table is the same for any identifier.
        assert(crate::outside::is_random_id(0x4000_8000_0000_0000_0000));
        self.link_created_as(id, start, end, connected)
    }

    /// Puts saved links into the table. Returns the connections to ask of the
    /// audio service, in order.
    pub fn restore(&mut self, saved: &Vec<Link>) -> (connect: Vec<(u128, u128)>)
        requires
            old(self).wf(),
        ensures
            final(self).wf(),
            final(self).ui_links@ == restored(old(self).ui_links@, saved@),
            connect@ == to_connect(old(self).ui_links@, saved@),
            final(self).context_menu_kind == old(self).context_menu_kind,
            final(self).detached_link == old(self).detached_link,
            final(self).should_save == old(self).should_save,
    {
        let ghost table = self.ui_links@;
        let mut connect: Vec<(u128, u128)> = Vec::new();
        let mut i: usize = 0;
        assert(saved@.take(0) =~= Seq::<Link>::empty());
        while i < saved.len()
            invariant
                i <= saved@.len(),
                self.wf(),
                self.ui_links@ == restored(table, saved@.take(i as int)),
                connect@ == to_connect(table, saved@.take(i as int)),
                self.context_menu_kind == old(self).context_menu_kind,
                self.detached_link == old(self).detached_link,
                self.should_save == old(self).should_save,
            decreases saved@.len() - i,
        {
            let (id, start, end) = saved[i];
            assert(saved@.take(i + 1).drop_last() =~= saved@.take(i as int));
            assert(saved@.take(i + 1).last() == saved@[i as int]);
            if self.ui_links.insert(id, start, end).is_none() {
                connect.push((start, end));
            }
            i = i + 1;
        }
        assert(saved@.take(saved@.len() as int) =~= saved@);
        connect
    }

    /// Restores the links that were saved as `text`; a text that does not read
    /// as links stands for none. Returns the connections to ask of the audio
    /// service, in order.
    pub fn restore_links(&mut self, text: Option<&str>) -> (connect: Vec<(u128, u128)>)
        requires
            old(self).wf(),
        ensures
            final(self).wf(),
            final(self).ui_links@ == restored(old(self).ui_links@, saved_links(text)),
            connect@ == to_connect(old(self).ui_links@, saved_links(text)),
            final(self).context_menu_kind == old(self).context_menu_kind,
            final(self).detached_link == old(self).detached_link,
            final(self).should_save == old(self).should_save,
    {
        let saved: Vec<Link> = match text {
            Some(text) => match json_parse(text) {
                Ok(links) => links,
                Err(_) => Vec::new(),
            },
            None => Vec::new(),
        };
        self.restore(&saved)
    }

    /// What to save, with `nodes` where the nodes are. Nothing waits to be
    /// saved afterwards.
    pub fn save<P: Copy>(&mut self, nodes: &Vec<Placed<P>>) -> (saved: Saved<P>)
        requires
            old(self).wf(),
        ensures
            final(self).wf(),
            *final(self) == (Editor { should_save: false, ..*old(self) }),
            saved.positions@ == nodes@.map_values(|node: Placed<P>| saved_position(node)),
            saved.links@ == crate::outside::links_rendered(old(self).ui_links@),
            crate::outside::links_parsed(saved.links@) == Some(old(self).ui_links@),
    {
        self.should_save = false;
        let mut positions: Vec<P> = Vec::new();
        let mut i: usize = 0;
        while i < nodes.len()
            invariant
                i <= nodes@.len(),
                positions@.len() == i,
                forall|j: int| 0 <= j < i ==> #[trigger] positions@[j] == saved_position(nodes@[j]),
            decreases nodes@.len() - i,
        {
            let pos: P = match nodes[i].drawn {
                Some(pos) => pos,
                None => nodes[i].stored,
            };
            positions.push(pos);
            i = i + 1;
        }
        assert(positions@ =~= nodes@.map_values(|node: Placed<P>| saved_position(node)));
        let links: String = json_render(&self.ui_links.links()).unwrap();
        Saved { positions, links }
    }

    /// Seconds until the next save: none while something waits to be saved.
    pub fn auto_save_interval(&self) -> (seconds: u64)
        ensures
            seconds == (if self.should_save {
                0
            } else {
                IDLE_SAVE_SECONDS
            }),
    {
        if self.should_save {
            0
        } else {
            IDLE_SAVE_SECONDS
        }
    }
}

/// The end points of links, in order.
pub open spec fn ends_of(links: Seq<Link>) -> Seq<(u128, u128)> {
    links.map_values(|link: Link| (link.1, link.2))
}

/// An open context menu stays about the same thing, wherever the pointer goes.
pub proof fn open_menu_keeps_its_subject(kind: ContextMenuKind, hovered: Option<u128>)
    ensures
        menu_kind(Some(kind), hovered) == kind,
{
}

proof fn lemma_restored_unique(saved: Seq<Link>)
    requires
        crate::links::unique_ids(saved),
    ensures
        restored(Seq::empty(), saved) == saved,
        to_connect(Seq::empty(), saved) == ends_of(saved),
    decreases saved.len(),
{
    if saved.len() > 0 {
        let rest = saved.drop_last();
        assert(crate::links::unique_ids(rest)) by {
            assert forall|i: int, j: int| 0 <= i < j < rest.len() implies (#[trigger] rest[i]).0
                != (#[trigger] rest[j]).0 by {
                assert(saved[i] == rest[i] && saved[j] == rest[j]);
            }
        }
        lemma_restored_unique(rest);
        assert(!crate::links::has_id(rest, saved.last().0)) by {
            assert forall|i: int| 0 <= i < rest.len() implies #[trigger] rest[i].0
                != saved.last().0 by {
                assert(saved[i] == rest[i]);
                assert(saved[saved.len() - 1] == saved.last());
            }
        }
        assert(rest.push(saved.last()) =~= saved);
        assert(ends_of(rest).push((saved.last().1, saved.last().2)) =~= ends_of(saved));
    } else {
        assert(saved =~= Seq::<Link>::empty());
        assert(ends_of(saved) =~= Seq::<(u128, u128)>::empty());
    }
}

/// What was saved comes back: an empty table that is restored from the text of
/// `links` holds the same links in the same order, and each of them is
/// connected, once and in order.
pub proof fn saved_links_come_back(links: Seq<Link>, text: &str)
    requires
        crate::links::unique_ids(links),
        crate::outside::links_parsed(text@) == Some(links),
    ensures
        restored(Seq::empty(), saved_links(Some(text))) == links,
        to_connect(Seq::empty(), saved_links(Some(text))) == ends_of(links),
        to_connect(Seq::empty(), saved_links(Some(text))).len() == links.len(),
        forall|i: int|
            0 <= i < links.len() ==> #[trigger] to_connect(
                Seq::empty(),
                saved_links(Some(text)),
            )[i] == (links[i].1, links[i].2),
{
    lemma_restored_unique(links);
}

/// Restoring connects once for each link that it adds.
pub proof fn restoring_connects_what_it_adds(table: Seq<Link>, saved: Seq<Link>)
    ensures
        restored(table, saved).len() == table.len() + to_connect(table, saved).len(),
    decreases saved.len(),
{
    if saved.len() > 0 {
        restoring_connects_what_it_adds(table, saved.drop_last());
    }
}

/// After two nodes were connected exactly one link leads from the one to the
/// other: the new one.
pub proof fn connected_link_is_single(
    links: Seq<Link>,
    detached: Option<(u128, u128)>,
    id: u128,
    start: u128,
    end: u128,
    link: Link,
)
    requires
        crate::links::unique_ids(links),
        link.1 == start,
        link.2 == end,
    ensures
        after_created(links, detached, id, start, end, true).0.contains(link) <==> link.0 == id,
        crate::links::unique_ids(after_created(links, detached, id, start, end, true).0),
{
    let rule = Keep::NotBetween { start, end };
    let left = crate::links::retained(links, rule);
    let new = (id, start, end);
    let after = crate::links::inserted(left, new);
    crate::links::ids_stay_unique(links, link, rule, Seq::empty());
    crate::links::ids_stay_unique(left, new, rule, Seq::empty());
    crate::links::retained_is_exact(links, rule, link);
    if crate::links::has_id(left, id) {
        let p = crate::links::place(left, id);
        assert(left[p].0 == id);
        assert(after[p] == new);
    } else {
        assert(after[left.len() as int] == new);
    }
    if after.contains(link) && link != new {
        let i = choose|i: int| 0 <= i < after.len() && after[i] == link;
        assert(left[i] == link);
        assert(left.contains(link));
    }
}

/// Connecting two nodes leaves every other link alone, unless it had the new
/// link's identifier.
pub proof fn connecting_keeps_other_links(
    links: Seq<Link>,
    detached: Option<(u128, u128)>,
    id: u128,
    start: u128,
    end: u128,
    link: Link,
)
    requires
        crate::links::unique_ids(links),
        !(link.1 == start && link.2 == end),
        link.0 != id,
    ensures
        after_created(links, detached, id, start, end, true).0.contains(link) <==> links.contains(
            link,
        ),
{
    let rule = Keep::NotBetween { start, end };
    let left = crate::links::retained(links, rule);
    let new = (id, start, end);
    let after = crate::links::inserted(left, new);
    crate::links::retained_is_exact(links, rule, link);
    if crate::links::has_id(left, id) {
        let p = crate::links::place(left, id);
        assert(left[p].0 == id);
    }
    if left.contains(link) {
        let i = choose|i: int| 0 <= i < left.len() && left[i] == link;
        assert(after[i] == link);
    }
    if after.contains(link) {
        let i = choose|i: int| 0 <= i < after.len() && after[i] == link;
        assert(left[i] == link);
    }
}

/// A link that was taken off its pin and could not be put elsewhere comes
/// back: the table has the same end points as before, as many times each, and
/// nothing is left detached.
pub proof fn refused_move_puts_link_back(
    links: Seq<Link>,
    id: u128,
    new_id: u128,
    start: u128,
    end: u128,
)
    requires
        crate::links::unique_ids(links),
        crate::links::has_id(links, id),
        !crate::links::has_id(crate::links::removed(links, id), new_id),
    ensures
        ({
            let (after, detached) = after_created(
                crate::links::removed(links, id),
                ends_at(links, id),
                new_id,
                start,
                end,
                false,
            );
            &&& ends_of(after).to_multiset() == ends_of(links).to_multiset()
            &&& detached is None
        }),
{
    broadcast use vstd::seq_lib::group_to_multiset_ensures;

    let p = crate::links::place(links, id);
    assert(links[p].0 == id);
    let gone = crate::links::removed(links, id);
    let ends = ends_of(links);
    let moved = ends_of(gone);
    let last = ends.last();
    assert(ends.update(p, last).drop_last() =~= moved);
    assert(ends.update(p, last) =~= moved.push(last));
    assert(ends_of(gone.push((new_id, links[p].1, links[p].2))) =~= moved.push(ends[p]));
    assert(ends.update(p, last).to_multiset() =~= ends.to_multiset().insert(last).remove(ends[p]));
    assert(moved.push(last).to_multiset() =~= moved.to_multiset().insert(last));
    assert(moved.push(ends[p]).to_multiset() =~= moved.to_multiset().insert(ends[p]));
    assert(ends.to_multiset().count(ends[p]) > 0) by {
        assert(ends.contains(ends[p]));
    }
    assert(moved.to_multiset().insert(ends[p]) =~= ends.to_multiset()) by {
        assert forall|v: (u128, u128)| #[trigger] moved.to_multiset().insert(ends[p]).count(v)
            == ends.to_multiset().count(v) by {
            assert(moved.to_multiset().insert(last).count(v) == ends.to_multiset().insert(
                last,
            ).remove(ends[p]).count(v));
        }
    }
}

/// A detached link that was let go over nothing does not come back: a later
/// link that could not be connected changes nothing.
pub proof fn dropped_link_stays_off(links: Seq<Link>, id: u128, start: u128, end: u128)
    ensures
        after_created(links, None, id, start, end, false) == (links, None::<(u128, u128)>),
{
}

/// A context menu that opens is about the node under the pointer, or about the
/// canvas if there is none.
pub proof fn new_menu_is_about_what_is_under_the_pointer(node: u128)
    ensures
        menu_kind(None, Some(node)) == ContextMenuKind::Node(node),
        menu_kind(None, None) == ContextMenuKind::Editor,
{
}

/// What the audio service is asked after a frame. A link that was drawn is
/// connected, once and last, whatever else happened. A link that came off its
/// pin is disconnected, once and first, if the table has it: `k` is where. There
/// is nothing else.
pub proof fn gestures_become_requests(
    links: Seq<Link>,
    detached: Option<u128>,
    created: Option<(u128, u128)>,
    k: int,
)
    requires
        forall|i: int, j: int|
            0 <= i < j < links.len() ==> (#[trigger] links[i]).0 != (#[trigger] links[j]).0,
    ensures
        ({
            let requests = frame_requests(came_off(links, detached), created);
            let drawn = if created is Some {
                1int
            } else {
                0
            };
            &&& created matches Some((start, end)) ==> requests.len() > 0
                && requests[requests.len() - 1] == (Request::Connect { start, end })
            &&& forall|i: int|
                0 <= i < requests.len() && (#[trigger] requests[i] is Connect) ==> created is Some
                    && i == requests.len() - 1
            &&& 0 <= k < links.len() && detached == Some(links[k].0) ==> requests.len() == 1 + drawn
                && requests[0] == (Request::Disconnect { from: links[k].1, to: links[k].2 })
            &&& (forall|i: int|
                0 <= i < links.len() ==> Some((#[trigger] links[i]).0) != detached)
                ==> requests.len() == drawn
            &&& forall|i: int|
                0 <= i < requests.len() && (#[trigger] requests[i] is Disconnect) ==> i == 0
                    && detached is Some
        }),
{
    if let Some(id) = detached {
        if crate::links::has_id(links, id) {
            let p = crate::links::place(links, id);
            assert(links[p].0 == id);
            if 0 <= k < links.len() && links[k].0 == id {
                assert(p == k);
            }
        } else if 0 <= k < links.len() {
            assert(links[k].0 != id);
        }
    }
}

/// A link that could not be connected changes nothing but for the detached
/// link, which is put in again under the identifier `id`, last or in place of
/// link `k` if that has the identifier, and is detached no longer.
pub proof fn refused_link_only_puts_the_detached_one_in(
    links: Seq<Link>,
    detached: Option<(u128, u128)>,
    id: u128,
    start: u128,
    end: u128,
    k: int,
)
    requires
        forall|i: int, j: int|
            0 <= i < j < links.len() ==> (#[trigger] links[i]).0 != (#[trigger] links[j]).0,
    ensures
        ({
            let (after, left) = after_created(links, detached, id, start, end, false);
            let free = forall|i: int| 0 <= i < links.len() ==> (#[trigger] links[i]).0 != id;
            &&& left is None
            &&& detached is None ==> after == links
            &&& detached matches Some(ends) ==> {
                &&& free ==> after == links.push((id, ends.0, ends.1))
                &&& 0 <= k < links.len() && links[k].0 == id ==> after == links.update(
                    k,
                    (id, ends.0, ends.1),
                )
            }
        }),
{
    if let Some(ends) = detached {
        crate::links::inserting_replaces_or_appends(links, (id, ends.0, ends.1), k);
    }
}

/// A link that was connected leaves all links between other pairs of nodes, in
/// their order, and is put in under the identifier `id`, last or in place of
/// the one at `k` among those, if that has the identifier. A link that is
/// detached stays so.
pub proof fn connected_link_takes_over_its_pair(
    links: Seq<Link>,
    detached: Option<(u128, u128)>,
    id: u128,
    start: u128,
    end: u128,
    k: int,
)
    requires
        crate::links::unique_ids(links),
    ensures
        ({
            let (after, left) = after_created(links, detached, id, start, end, true);
            let others = links.filter(|link: Link| link.1 != start || link.2 != end);
            let free = forall|i: int| 0 <= i < others.len() ==> (#[trigger] others[i]).0 != id;
            &&& left == detached
            &&& free ==> after == others.push((id, start, end))
            &&& 0 <= k < others.len() && others[k].0 == id ==> after == others.update(
                k,
                (id, start, end),
            )
        }),
{
    let rule = Keep::NotBetween { start, end };
    let others = links.filter(|link: Link| link.1 != start || link.2 != end);
    crate::links::dropped_links_are_the_named_ones(links, 0, start, end);
    crate::links::lemma_filter_same(
        links,
        |link: Link| crate::links::kept(rule, link),
        |link: Link| link.1 != start || link.2 != end,
    );
    assert(crate::links::retained(links, rule) == others);
    crate::links::ids_stay_unique(links, (id, start, end), rule, Seq::empty());
    crate::links::inserting_replaces_or_appends(others, (id, start, end), k);
}

proof fn lemma_restored_ids(table: Seq<Link>, saved: Seq<Link>, id: u128)
    ensures
        crate::links::has_id(restored(table, saved), id) <==> crate::links::has_id(table, id)
            || crate::links::has_id(saved, id),
    decreases saved.len(),
{
    if saved.len() > 0 {
        let rest = saved.drop_last();
        let link = saved.last();
        let before = restored(table, rest);
        let after = restored(table, saved);
        lemma_restored_ids(table, rest, id);
        if crate::links::has_id(rest, id) {
            let i = choose|i: int| 0 <= i < rest.len() && #[trigger] rest[i].0 == id;
            assert(saved[i].0 == id);
        }
        if crate::links::has_id(saved, id) && link.0 != id {
            let i = choose|i: int| 0 <= i < saved.len() && #[trigger] saved[i].0 == id;
            assert(rest[i].0 == id);
        }
        if link.0 == id {
            assert(saved[saved.len() - 1].0 == id);
        }
        if crate::links::has_id(before, link.0) {
            let p = crate::links::place(before, link.0);
            assert(before[p].0 == link.0);
            assert(after[p] == link);
        } else {
            assert(after[before.len() as int] == link);
        }
        if crate::links::has_id(before, id) {
            let i = choose|i: int| 0 <= i < before.len() && #[trigger] before[i].0 == id;
            assert(after[i].0 == id);
        }
        if crate::links::has_id(after, id) && link.0 != id {
            let i = choose|i: int| 0 <= i < after.len() && #[trigger] after[i].0 == id;
            assert(before[i].0 == id);
        }
    }
}

proof fn lemma_restored_stays_unique(table: Seq<Link>, saved: Seq<Link>)
    requires
        crate::links::unique_ids(table),
    ensures
        crate::links::unique_ids(restored(table, saved)),
    decreases saved.len(),
{
    if saved.len() > 0 {
        let rest = saved.drop_last();
        lemma_restored_stays_unique(table, rest);
        crate::links::ids_stay_unique(
            restored(table, rest),
            saved.last(),
            Keep::NotTouching { node: 0 },
            Seq::empty(),
        );
    }
}

/// Nothing saved, nothing restored and nothing connected.
pub proof fn restoring_nothing_changes_nothing(table: Seq<Link>)
    ensures
        restored(table, Seq::empty()) == table,
        to_connect(table, Seq::empty()) == Seq::<(u128, u128)>::empty(),
{
}

/// One more saved link. If no link of the table or of those saved before it
/// has its identifier, it is added last and connected last. Otherwise it takes
/// the place of the link with its identifier, nothing else moves, and it is not
/// connected.
pub proof fn restoring_one_more_link(table: Seq<Link>, saved: Seq<Link>, link: Link)
    requires
        crate::links::unique_ids(table),
    ensures
        ({
            let (before, after) = (restored(table, saved), restored(table, saved.push(link)));
            let (asked, asking) = (to_connect(table, saved), to_connect(table, saved.push(link)));
            let known = (exists|i: int| 0 <= i < table.len() && (#[trigger] table[i]).0 == link.0)
                || (exists|i: int| 0 <= i < saved.len() && (#[trigger] saved[i]).0 == link.0);
            &&& !known ==> after == before.push(link) && asking == asked.push((link.1, link.2))
            &&& known ==> {
                &&& asking == asked
                &&& after.len() == before.len()
                &&& forall|i: int|
                    0 <= i < before.len() ==> #[trigger] after[i] == (if before[i].0 == link.0 {
                        link
                    } else {
                        before[i]
                    })
            }
        }),
{
    let before = restored(table, saved);
    assert(saved.push(link).drop_last() =~= saved);
    lemma_restored_ids(table, saved, link.0);
    lemma_restored_stays_unique(table, saved);
    if crate::links::has_id(before, link.0) {
        let p = crate::links::place(before, link.0);
        assert(before[p].0 == link.0);
        crate::links::inserting_replaces_or_appends(before, link, p);
    }
}

/// A text that reads as links stands for exactly those; no text, or one that
/// does not, stands for none.
pub proof fn saved_text_stands_for_what_it_reads_as(text: &str)
    ensures
        crate::outside::links_parsed(text@) matches Some(links) ==> saved_links(Some(text))
            == links,
        crate::outside::links_parsed(text@) is None ==> saved_links(Some(text)).len() == 0,
        saved_links(None).len() == 0,
{
}

/// A node is saved where it was drawn, wherever the audio service has it, and
/// where the audio service has it if it was not drawn.
pub proof fn drawn_position_is_saved<P>(stored: P, drawn: P)
    ensures
        saved_position(Placed { stored, drawn: Some(drawn) }) == drawn,
        saved_position(Placed { stored, drawn: None }) == stored,
{
}

/// A link that comes off its pin is known by its end points: those of the link
/// at `k` that has the identifier. Without such a link, or if none came off,
/// there is nothing to know.
pub proof fn detached_link_is_known_by_its_ends(links: Seq<Link>, id: u128, k: int)
    requires
        forall|i: int, j: int|
            0 <= i < j < links.len() ==> (#[trigger] links[i]).0 != (#[trigger] links[j]).0,
    ensures
        0 <= k < links.len() && links[k].0 == id ==> came_off(links, Some(id)) == Some(
            (links[k].1, links[k].2),
        ),
        (forall|i: int| 0 <= i < links.len() ==> (#[trigger] links[i]).0 != id) ==> came_off(
            links,
            Some(id),
        ) is None,
        came_off(links, None) is None,
{
    if crate::links::has_id(links, id) {
        let p = crate::links::place(links, id);
        assert(links[p].0 == id);
        if 0 <= k < links.len() && links[k].0 == id {
            assert(p == k);
        }
    } else if 0 <= k < links.len() {
        assert(links[k].0 != id);
    }
}

} // verus!
