//! The records that the store hands out: elements, attributes and the other
//! kinds of node.

use vstd::prelude::*;

use crate::document::NodeType;

verus! {

/// An element: its id, its namespace prefix if it has one, and its name.
#[derive(Debug, Clone)]
pub struct Element {
    pub node_id: usize,
    pub ns: Option<String>,
    pub name: String,
}

/// What an [`Element`] holds, as plain values.
pub struct ElementView {
    pub node_id: usize,
    pub ns: Option<Seq<char>>,
    pub name: Seq<char>,
}

impl View for Element {
    type V = ElementView;

    open spec fn view(&self) -> ElementView {
        ElementView { node_id: self.node_id, ns: self.ns.deep_view(), name: self.name@ }
    }
}

impl Element {
    /// A copy of the record.
    pub fn clone_element(&self) -> (r: Element)
        ensures
            r@ == self@,
    {
        Element {
            node_id: self.node_id,
            ns: crate::text::clone_opt(&self.ns),
            name: self.name.clone(),
        }
    }
}

impl DeepView for Element {
    type V = ElementView;

    open spec fn deep_view(&self) -> ElementView {
        self@
    }
}

#[derive(Debug, Clone)]
pub struct Text {
    pub node_id: usize,
    pub value: String,
}

#[derive(Debug, Clone)]
pub struct Comment {
    pub node_id: usize,
    pub value: String,
}

#[derive(Debug, Clone)]
pub struct CData {
    pub node_id: usize,
    pub value: String,
}

#[derive(Debug, Clone)]
pub struct Declaration {
    pub node_id: usize,
    pub value: String,
}

#[derive(Debug, Clone)]
pub struct Doctype {
    pub node_id: usize,
    pub value: String,
}

#[derive(Debug, Clone)]
pub struct ProcessingInstruction {
    pub node_id: usize,
    pub value: String,
}

/// An attribute: its id, its namespace prefix if it has one, its name and
/// its value.
#[derive(Debug, Clone)]
pub struct Attr {
    pub attr_id: usize,
    pub ns: Option<String>,
    pub name: String,
    pub value: String,
}

/// What an [`Attr`] holds, as plain values.
pub struct AttrView {
    pub attr_id: usize,
    pub ns: Option<Seq<char>>,
    pub name: Seq<char>,
    pub value: Seq<char>,
}

impl View for Attr {
    type V = AttrView;

    open spec fn view(&self) -> AttrView {
        AttrView {
            attr_id: self.attr_id,
            ns: self.ns.deep_view(),
            name: self.name@,
            value: self.value@,
        }
    }
}

impl DeepView for Attr {
    type V = AttrView;

    open spec fn deep_view(&self) -> AttrView {
        self@
    }
}

/// A node as its row gives it, before its kind has been looked at.
#[derive(Debug, Clone)]
pub struct RawNode {
    pub node_id: usize,
    pub node_type: NodeType,
    pub ns: Option<String>,
    pub name: Option<String>,
    pub value: Option<String>,
}

/// What a [`RawNode`] holds, as plain values.
pub struct RawNodeView {
    pub node_id: usize,
    pub node_type: NodeType,
    pub ns: Option<Seq<char>>,
    pub name: Option<Seq<char>>,
    pub value: Option<Seq<char>>,
}

impl View for RawNode {
    type V = RawNodeView;

    open spec fn view(&self) -> RawNodeView {
        RawNodeView {
            node_id: self.node_id,
            node_type: self.node_type,
            ns: self.ns.deep_view(),
            name: self.name.deep_view(),
            value: self.value.deep_view(),
        }
    }
}

/// A node of any kind but the document sentinel.
#[derive(Debug, Clone)]
pub enum Node {
    Element(Element),
    Text(Text),
    Comment(Comment),
    CData(CData),
    Declaration(Declaration),
    Doctype(Doctype),
    ProcessingInstruction(ProcessingInstruction),
}

/// What a [`Node`] holds, as plain values: its kind, its id, and the
/// strings that its kind carries.
pub struct NodeView {
    pub node_type: NodeType,
    pub node_id: usize,
    pub ns: Option<Seq<char>>,
    pub text: Seq<char>,
}

/// The text of an optional string, empty where there is none.
pub open spec fn text_or_empty(s: Option<Seq<char>>) -> Seq<char> {
    match s {
        Some(t) => t,
        None => Seq::empty(),
    }
}

impl RawNodeView {
    /// The node that a row stands for: an element keeps its prefix and name,
    /// every other kind its value, and a missing name or value reads as empty.
    pub open spec fn to_node(self) -> NodeView {
        if self.node_type == NodeType::Element {
            NodeView {
                node_type: self.node_type,
                node_id: self.node_id,
                ns: self.ns,
                text: text_or_empty(self.name),
            }
        } else {
            NodeView {
                node_type: self.node_type,
                node_id: self.node_id,
                ns: None,
                text: text_or_empty(self.value),
            }
        }
    }
}

impl View for Node {
    type V = NodeView;

    open spec fn view(&self) -> NodeView {
        match self {
            Node::Element(x) => NodeView {
                node_type: NodeType::Element,
                node_id: x.node_id,
                ns: x.ns.deep_view(),
                text: x.name@,
            },
            Node::Text(x) => NodeView {
                node_type: NodeType::Text,
                node_id: x.node_id,
                ns: None,
                text: x.value@,
            },
            Node::Comment(x) => NodeView {
                node_type: NodeType::Comment,
                node_id: x.node_id,
                ns: None,
                text: x.value@,
            },
            Node::CData(x) => NodeView {
                node_type: NodeType::CData,
                node_id: x.node_id,
                ns: None,
                text: x.value@,
            },
            Node::Declaration(x) => NodeView {
                node_type: NodeType::Declaration,
                node_id: x.node_id,
                ns: None,
                text: x.value@,
            },
            Node::Doctype(x) => NodeView {
                node_type: NodeType::Doctype,
                node_id: x.node_id,
                ns: None,
                text: x.value@,
            },
            Node::ProcessingInstruction(x) => NodeView {
                node_type: NodeType::ProcessingInstruction,
                node_id: x.node_id,
                ns: None,
                text: x.value@,
            },
        }
    }
}

impl DeepView for Node {
    type V = NodeView;

    open spec fn deep_view(&self) -> NodeView {
        self@
    }
}

/// The string of an optional value, empty where there is none.
fn unwrap_or_empty(s: Option<String>) -> (r: String)
    ensures
        r@ == text_or_empty(s.deep_view()),
{
    match s {
        Some(t) => t,
        None => String::new(),
    }
}

impl Node {
    /// Sorts a row into the record of its kind. The document sentinel is no
    /// node and has no record.
    pub fn from(value: RawNode) -> (node: Node)
        requires
            value.node_type != NodeType::Document,
        ensures
            node@ == value@.to_node(),
    {
        let RawNode { node_id, node_type, ns, name, value } = value;
        match node_type {
            NodeType::Element => Node::Element(
                Element { node_id, ns, name: unwrap_or_empty(name) },
            ),
            NodeType::Text => Node::Text(Text { node_id, value: unwrap_or_empty(value) }),
            NodeType::CData => Node::CData(CData { node_id, value: unwrap_or_empty(value) }),
            NodeType::Comment => Node::Comment(Comment { node_id, value: unwrap_or_empty(value) }),
            NodeType::Declaration => Node::Declaration(
                Declaration { node_id, value: unwrap_or_empty(value) },
            ),
            NodeType::Doctype => Node::Doctype(Doctype { node_id, value: unwrap_or_empty(value) }),
            NodeType::ProcessingInstruction => Node::ProcessingInstruction(
                ProcessingInstruction { node_id, value: unwrap_or_empty(value) },
            ),
            NodeType::Document => Node::Text(Text { node_id, value: String::new() }),
        }
    }

    /// The id of the node, whatever its kind.
    pub fn node_id(&self) -> (id: usize)
        ensures
            id == self@.node_id,
    {
        match self {
            Node::Element(x) => x.node_id,
            Node::Text(x) => x.node_id,
            Node::Comment(x) => x.node_id,
            Node::CData(x) => x.node_id,
            Node::Declaration(x) => x.node_id,
            Node::Doctype(x) => x.node_id,
            Node::ProcessingInstruction(x) => x.node_id,
        }
    }
}

/// The plain values of a list of elements.
pub open spec fn elements_view(s: Seq<Element>) -> Seq<ElementView> {
    s.map_values(|e: Element| e@)
}

/// The plain values of a list of nodes.
pub open spec fn nodes_view(s: Seq<Node>) -> Seq<NodeView> {
    s.map_values(|n: Node| n@)
}

/// The plain values of a list of attributes.
pub open spec fn attrs_view(s: Seq<Attr>) -> Seq<AttrView> {
    s.map_values(|a: Attr| a@)
}

} // verus!
