//! Nodes as the editor shows and adds them.
//!
//! Positions on the canvas are carried through untouched, so their type `P` is
//! left open.

use vstd::prelude::*;

verus! {

/// What a node stands for.
#[derive(Clone, Copy, Debug, PartialEq, Eq)]
pub enum NodeKind {
    Application,
    InputDevice,
    OutputDevice,
}

/// The side of a node that its pin is on.
#[derive(Clone, Copy, Debug, PartialEq, Eq)]
pub enum PinSide {
    Input,
    Output,
}

/// How a node's pin behaves.
#[derive(Clone, Copy, Debug, PartialEq, Eq)]
pub struct Pin {
    pub side: PinSide,
    /// Dragging from the pin detaches the link that leads to it.
    pub detach_with_drag: bool,
}

/// The pin of a node: sound leaves applications and input devices and goes
/// into output devices, where links can be detached.
pub fn node_pin(kind: NodeKind) -> (pin: Pin)
    ensures
        pin == (if kind is OutputDevice {
            Pin { side: PinSide::Input, detach_with_drag: true }
        } else {
            Pin { side: PinSide::Output, detach_with_drag: false }
        }),
{
    match kind {
        NodeKind::Application | NodeKind::InputDevice => Pin {
            side: PinSide::Output,
            detach_with_drag: false,
        },
        NodeKind::OutputDevice => Pin { side: PinSide::Input, detach_with_drag: true },
    }
}

/// The speaker sign on a node's mute button.
pub fn speaker_icon(muted: bool, active: bool) -> (icon: &'static str)
    ensures
        icon@ == (if muted {
            "🔇"@
        } else if active {
            "🔉"@
        } else {
            "🔈"@
        }),
{
    if muted {
        "🔇"
    } else if active {
        "🔉"
    } else {
        "🔈"
    }
}

/// What to set a node's mute to after its mute button was drawn: the opposite
/// if it was clicked, else nothing.
pub fn mute_button(clicked: bool, muted: bool) -> (set: Option<bool>)
    ensures
        set == (if clicked {
            Some(!muted)
        } else {
            None
        }),
{
    if clicked {
        Some(!muted)
    } else {
        None
    }
}

/// The hint that an editor without nodes shows.
pub fn empty_hint(node_count: usize) -> (hint: Option<&'static str>)
    ensures
        hint is Some <==> node_count == 0,
        hint matches Some(text) ==> text@ == "Right-click anywhere to add nodes"@,
{
    if node_count == 0 {
        Some("Right-click anywhere to add nodes")
    } else {
        None
    }
}

/// A running process that can be added as an application node.
#[derive(Debug, PartialEq, Eq)]
pub struct ProcessInfo {
    pub pid: u32,
    pub display_name: String,
    pub filename: String,
}

/// A device that can be added as a node.
#[derive(Debug, PartialEq, Eq)]
pub struct DeviceInfo {
    pub id: u128,
    pub name: String,
}

/// A node to add. What is `None` is left to the node's defaults.
#[derive(Debug, PartialEq, Eq)]
pub struct NewNode<P> {
    pub id: Option<u128>,
    pub kind: NodeKind,
    pub display_name: String,
    pub filename: Option<String>,
    pub pos: P,
    pub process_id: Option<u32>,
}

/// The node that stands for `process`, placed at `pos`.
pub open spec fn application_node<P>(process: ProcessInfo, pos: P) -> NewNode<P> {
    NewNode {
        id: None,
        kind: NodeKind::Application,
        display_name: process.display_name,
        filename: Some(process.filename),
        pos,
        process_id: Some(process.pid),
    }
}

/// The node of kind `kind` that stands for `device`, placed at `pos`.
pub open spec fn device_node<P>(device: DeviceInfo, kind: NodeKind, pos: P) -> NewNode<P> {
    NewNode {
        id: Some(device.id),
        kind,
        display_name: device.name,
        filename: None,
        pos,
        process_id: None,
    }
}

/// A process's entry in the menu for adding nodes was drawn. If it was clicked,
/// its node becomes the one to add, and the menu closes.
pub fn application_node_button<P>(
    added_node: &mut Option<NewNode<P>>,
    menu_pos: P,
    clicked: bool,
    process: ProcessInfo,
) -> (close: bool)
    ensures
        close == clicked,
        *final(added_node) == (if clicked {
            Some(application_node(process, menu_pos))
        } else {
            *old(added_node)
        }),
        clicked ==> (match *final(added_node) {
            Some(node) => {
                &&& node.kind is Application
                &&& node.id is None
                &&& node.display_name == process.display_name
                &&& node.filename == Some(process.filename)
                &&& node.process_id == Some(process.pid)
                &&& node.pos == menu_pos
            },
            None => false,
        }),
{
    if clicked {
        *added_node = Some(
            NewNode {
                id: None,
                kind: NodeKind::Application,
                display_name: process.display_name,
                filename: Some(process.filename),
                pos: menu_pos,
                process_id: Some(process.pid),
            },
        );
    }
    clicked
}

/// A device's entry in the menu for adding nodes was drawn. If it was clicked,
/// its node becomes the one to add, and the menu closes.
pub fn device_node_button<P>(
    added_node: &mut Option<NewNode<P>>,
    menu_pos: P,
    clicked: bool,
    device: DeviceInfo,
    node_kind: NodeKind,
) -> (close: bool)
    ensures
        close == clicked,
        *final(added_node) == (if clicked {
            Some(device_node(device, node_kind, menu_pos))
        } else {
            *old(added_node)
        }),
        clicked ==> (match *final(added_node) {
            Some(node) => {
                &&& node.kind == node_kind
                &&& node.id == Some(device.id)
                &&& node.display_name == device.name
                &&& node.filename is None
                &&& node.process_id is None
                &&& node.pos == menu_pos
            },
            None => false,
        }),
{
    if clicked {
        *added_node = Some(
            NewNode {
                id: Some(device.id),
                kind: node_kind,
                display_name: device.name,
                filename: None,
                pos: menu_pos,
                process_id: None,
            },
        );
    }
    clicked
}

/// The node of a device is of the kind that was asked for, whichever it is, and
/// carries the device's identifier and name to the place that was asked for; no
/// file and no process belong to it.
pub proof fn device_nodes_are_what_was_chosen<P>(device: DeviceInfo, kind: NodeKind, pos: P)
    ensures
        device_node(device, kind, pos).kind == kind,
        device_node(device, kind, pos).id == Some(device.id),
        device_node(device, kind, pos).display_name == device.name,
        device_node(device, kind, pos).pos == pos,
        device_node(device, kind, pos).filename is None,
        device_node(device, kind, pos).process_id is None,
{
}

/// Different choices of device, kind or place never add the same node.
pub proof fn device_nodes_differ<P>(
    one: DeviceInfo,
    kind: NodeKind,
    pos: P,
    other: DeviceInfo,
    other_kind: NodeKind,
    other_pos: P,
)
    ensures
        device_node(one, kind, pos) == device_node(other, other_kind, other_pos) ==> one == other
            && kind == other_kind && pos == other_pos,
{
}

/// The node of a process is an application, carries the process's name, file
/// and number to the place that was asked for, and leaves its identifier to
/// the audio service.
pub proof fn application_nodes_are_what_was_chosen<P>(process: ProcessInfo, pos: P)
    ensures
        application_node(process, pos).kind is Application,
        application_node(process, pos).id is None,
        application_node(process, pos).display_name == process.display_name,
        application_node(process, pos).filename == Some(process.filename),
        application_node(process, pos).process_id == Some(process.pid),
        application_node(process, pos).pos == pos,
{
}

} // verus!
