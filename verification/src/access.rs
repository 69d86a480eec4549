//! The nodes of the accessibility tree as the core hands them out.

use crate::style::{Live, Role};
use vstd::prelude::*;

verus! {

/// A rectangle by two of its corners.
#[derive(Clone, Copy, Debug, PartialEq, Eq, Structural)]
pub struct Rect {
    pub x0: i64,
    pub y0: i64,
    pub x1: i64,
    pub y1: i64,
}

/// What assistive technology is told of one node.
pub struct NodeData {
    pub role: Role,
    pub bounds: Option<Rect>,
    pub disabled: bool,
    pub hidden: bool,
    /// The node can take the focus.
    pub focusable: bool,
    pub name: Option<String>,
    pub value: Option<String>,
    pub numeric_value: Option<i64>,
    pub min_numeric_value: Option<i64>,
    pub max_numeric_value: Option<i64>,
    pub numeric_value_step: Option<i64>,
    pub live: Option<Live>,
    /// The identifier of the node that labels this one.
    pub labelled_by: Option<u64>,
    /// Whether the node is checked, for a node that can be.
    pub toggled: Option<bool>,
}

impl NodeData {
    /// The data of a node of which nothing is known.
    pub fn new() -> (d: NodeData)
        ensures
            d.role == Role::Unknown,
            d.bounds is None,
            !d.disabled,
            !d.hidden,
            !d.focusable,
            d.name is None,
            d.value is None,
            d.numeric_value is None,
            d.min_numeric_value is None,
            d.max_numeric_value is None,
            d.numeric_value_step is None,
            d.live is None,
            d.labelled_by is None,
            d.toggled is None,
    {
        NodeData {
            role: Role::Unknown,
            bounds: None,
            disabled: false,
            hidden: false,
            focusable: false,
            name: None,
            value: None,
            numeric_value: None,
            min_numeric_value: None,
            max_numeric_value: None,
            numeric_value_step: None,
            live: None,
            labelled_by: None,
            toggled: None,
        }
    }
}

/// A node that a view adds below the node of its entity, for a part of the
/// view that is no entity of its own.
pub struct ExtraNode {
    pub node_id: u64,
    pub data: NodeData,
}

/// The node of an entity while it is being made: a view may change the data
/// and add nodes of its own.
pub struct AccessNode {
    pub node_id: u64,
    pub node_builder: NodeData,
    pub children: Vec<ExtraNode>,
}

impl AccessNode {
    /// The identifier of the node.
    pub fn node_id(&self) -> (id: u64)
        ensures
            id == self.node_id,
    {
        self.node_id
    }

    /// Adds a node for a part of the view.
    pub fn add_child(&mut self, child: ExtraNode)
        ensures
            final(self).children@ == old(self).children@.push(child),
            final(self).node_id == old(self).node_id,
            final(self).node_builder == old(self).node_builder,
    {
        self.children.push(child);
    }
}

/// A node as it goes out: its identifier, its data and the identifiers of
/// its children.
pub struct NodeEntry {
    pub id: u64,
    pub data: NodeData,
    pub children: Vec<u64>,
}

/// What is said of the tree as a whole.
#[derive(Clone, Copy, Debug, PartialEq, Eq, Structural)]
pub struct TreeInfo {
    /// The identifier of the root node.
    pub root: u64,
}

/// A batch of changes to the accessibility tree.
pub struct TreeUpdate {
    /// The nodes that are new or have changed.
    pub nodes: Vec<NodeEntry>,
    /// Set in the batch that builds the tree, and only there.
    pub tree: Option<TreeInfo>,
    /// The identifier of the node that has the focus; 0 if the window does
    /// not.
    pub focus: u64,
}

} // verus!
