//! The document store: the node and attribute tables and the reads over them.

use vstd::prelude::*;
use vstd::std_specs::convert::{FromSpecImpl, TryFromSpecImpl};

use crate::infer::InferredType;
use crate::model::{
    attrs_view, elements_view, nodes_view, text_or_empty, Attr, AttrView, Element, ElementView,
    Node, NodeView, RawNode, RawNodeView,
};
use crate::parse::ParseOptions;
use crate::text::{clone_opt, lowercase, opt_str_view, str_eq, to_lowercase};

verus! {

/// What kind of XML item a node row stands for. The stored code of a kind is
/// its position in this list, starting at 0.
#[derive(Debug, Clone, Copy, PartialEq, Eq, Structural)]
pub enum NodeType {
    Document,
    Element,
    Text,
    CData,
    Comment,
    Declaration,
    Doctype,
    ProcessingInstruction,
}

impl NodeType {
    /// The code under which the kind is stored.
    pub open spec fn code(self) -> u8 {
        match self {
            NodeType::Document => 0,
            NodeType::Element => 1,
            NodeType::Text => 2,
            NodeType::CData => 3,
            NodeType::Comment => 4,
            NodeType::Declaration => 5,
            NodeType::Doctype => 6,
            NodeType::ProcessingInstruction => 7,
        }
    }

    /// The kind stored under a code, if the code is one of the eight.
    pub open spec fn of_code(value: u8) -> Option<NodeType> {
        match value {
            0 => Some(NodeType::Document),
            1 => Some(NodeType::Element),
            2 => Some(NodeType::Text),
            3 => Some(NodeType::CData),
            4 => Some(NodeType::Comment),
            5 => Some(NodeType::Declaration),
            6 => Some(NodeType::Doctype),
            7 => Some(NodeType::ProcessingInstruction),
            _ => None,
        }
    }

    /// Every kind is found again from its code.
    pub proof fn lemma_code_round_trip(self)
        ensures
            NodeType::of_code(self.code()) == Some(self),
            self.code() <= 7,
    {
    }

    /// A code that names a kind is the code of that kind.
    pub proof fn lemma_of_code_inverse(value: u8)
        ensures
            NodeType::of_code(value) is Some <==> value <= 7,
            NodeType::of_code(value) is Some ==> NodeType::of_code(value).unwrap().code() == value,
    {
    }
}

impl TryFrom<u8> for NodeType {
    type Error = ();

    fn try_from(value: u8) -> (r: Result<NodeType, ()>) {
        match value {
            0 => Ok(NodeType::Document),
            1 => Ok(NodeType::Element),
            2 => Ok(NodeType::Text),
            3 => Ok(NodeType::CData),
            4 => Ok(NodeType::Comment),
            5 => Ok(NodeType::Declaration),
            6 => Ok(NodeType::Doctype),
            7 => Ok(NodeType::ProcessingInstruction),
            _ => Err(()),
        }
    }
}

impl TryFromSpecImpl<u8> for NodeType {
    open spec fn obeys_try_from_spec() -> bool {
        true
    }

    open spec fn try_from_spec(value: u8) -> Result<NodeType, ()> {
        match NodeType::of_code(value) {
            Some(t) => Ok(t),
            None => Err(()),
        }
    }
}

impl From<NodeType> for u8 {
    fn from(value: NodeType) -> (r: u8) {
        match value {
            NodeType::Document => 0,
            NodeType::Element => 1,
            NodeType::Text => 2,
            NodeType::CData => 3,
            NodeType::Comment => 4,
            NodeType::Declaration => 5,
            NodeType::Doctype => 6,
            NodeType::ProcessingInstruction => 7,
        }
    }
}

impl FromSpecImpl<NodeType> for u8 {
    open spec fn obeys_from_spec() -> bool {
        true
    }

    open spec fn from_spec(value: NodeType) -> u8 {
        value.code()
    }
}

/// Why the store refused a read or a write.
#[derive(Debug, Clone, Copy, PartialEq, Eq, Structural)]
pub enum DbError {
    /// A read of one row named an id that no row has.
    NotFound,
    /// A read of an inferred type from a store that keeps none, or a write
    /// that brings one to such a store or none to a store that keeps them.
    MissingColumn,
    /// A write that would break a rule of the tables.
    Constraint,
}

/// A row of the node table. Its `node_id` is its place in the table.
#[derive(Debug, Clone)]
pub struct NodeRow {
    pub parent_node_id: usize,
    pub node_order: usize,
    pub node_type: NodeType,
    pub node_ns: Option<String>,
    pub node_name: Option<String>,
    pub node_value: Option<String>,
    pub buffer_position: usize,
    pub inferred_type: Option<InferredType>,
}

/// What a [`NodeRow`] holds, as plain values.
pub struct NodeRowView {
    pub parent_node_id: usize,
    pub node_order: usize,
    pub node_type: NodeType,
    pub node_ns: Option<Seq<char>>,
    pub node_name: Option<Seq<char>>,
    pub node_value: Option<Seq<char>>,
    pub buffer_position: usize,
    pub inferred_type: Option<InferredType>,
}

impl View for NodeRow {
    type V = NodeRowView;

    open spec fn view(&self) -> NodeRowView {
        NodeRowView {
            parent_node_id: self.parent_node_id,
            node_order: self.node_order,
            node_type: self.node_type,
            node_ns: self.node_ns.deep_view(),
            node_name: self.node_name.deep_view(),
            node_value: self.node_value.deep_view(),
            buffer_position: self.buffer_position,
            inferred_type: self.inferred_type,
        }
    }
}

/// A row of the attribute table. Its `attr_id` is its place in the table,
/// counted from 1.
#[derive(Debug, Clone)]
pub struct AttrRow {
    pub parent_node_id: usize,
    pub attr_order: usize,
    pub attr_ns: Option<String>,
    pub attr_name: String,
    pub attr_value: String,
    pub buffer_position: usize,
    pub inferred_type: Option<InferredType>,
}

/// What an [`AttrRow`] holds, as plain values.
pub struct AttrRowView {
    pub parent_node_id: usize,
    pub attr_order: usize,
    pub attr_ns: Option<Seq<char>>,
    pub attr_name: Seq<char>,
    pub attr_value: Seq<char>,
    pub buffer_position: usize,
    pub inferred_type: Option<InferredType>,
}

impl View for AttrRow {
    type V = AttrRowView;

    open spec fn view(&self) -> AttrRowView {
        AttrRowView {
            parent_node_id: self.parent_node_id,
            attr_order: self.attr_order,
            attr_ns: self.attr_ns.deep_view(),
            attr_name: self.attr_name@,
            attr_value: self.attr_value@,
            buffer_position: self.buffer_position,
            inferred_type: self.inferred_type,
        }
    }
}

/// The store as plain values: the two tables, and for every node the ids of
/// its children and of its attributes.
///
/// Row 0 of the node table is the document sentinel, the parent of what
/// stands at the top of the document. Row 1 is kept for the root element and
/// is a node of the document only once it has its name.
pub struct DocumentView {
    pub nodes: Seq<NodeRowView>,
    pub attrs: Seq<AttrRowView>,
    pub children: Seq<Seq<usize>>,
    pub attr_lists: Seq<Seq<usize>>,
    pub options: ParseOptions,
}

impl DocumentView {
    /// Whether the row kept for the root element has been filled in.
    pub open spec fn root_populated(self) -> bool {
        self.nodes[1].node_name is Some
    }

    /// Whether an id names a node of the document: any row but the sentinel,
    /// and the root's row only once it is filled in.
    pub open spec fn is_node(self, id: int) -> bool {
        &&& 1 <= id < self.nodes.len()
        &&& id == 1 ==> self.root_populated()
    }

    /// Whether an id names an element of the document.
    pub open spec fn is_element(self, id: int) -> bool {
        self.is_node(id) && self.nodes[id].node_type == NodeType::Element
    }

    /// Whether an id names an attribute.
    pub open spec fn is_attr(self, id: int) -> bool {
        1 <= id <= self.attrs.len()
    }

    /// The row of an attribute.
    pub open spec fn attr_row(self, id: int) -> AttrRowView {
        self.attrs[id - 1]
    }

    /// The rules of the node table: the two reserved rows are there, only
    /// the sentinel is of kind `Document`, every later row has a parent
    /// that was stored before it and is the sentinel or a node of the
    /// document, every element but the unfilled root has a name, and a row
    /// has an inferred type exactly if the store keeps them.
    pub open spec fn nodes_wf(self) -> bool {
        &&& 2 <= self.nodes.len() <= usize::MAX
        &&& self.nodes[0].node_type == NodeType::Document
        &&& self.nodes[0].parent_node_id == 0
        &&& self.nodes[1].node_type == NodeType::Element
        &&& self.nodes[1].parent_node_id == 0
        &&& forall|i: int|
            2 <= i < self.nodes.len() ==> {
                &&& (#[trigger] self.nodes[i]).node_type != NodeType::Document
                &&& self.nodes[i].parent_node_id < i
                &&& self.nodes[i].parent_node_id == 0 || self.is_node(
                    self.nodes[i].parent_node_id as int,
                )
                &&& self.nodes[i].node_type == NodeType::Element ==> self.nodes[i].node_name
                    is Some
            }
        &&& forall|i: int|
            0 <= i < self.nodes.len() ==> ((#[trigger] self.nodes[i]).inferred_type is Some
                <==> self.options.infer_types)
    }

    /// The rules of the child lists: the list of a node holds exactly the
    /// nodes of the document whose parent it is, each once, in rising
    /// `node_order`.
    pub open spec fn children_wf(self) -> bool {
        &&& self.children.len() == self.nodes.len()
        &&& forall|p: int, k: int|
            0 <= p < self.children.len() && 0 <= k < self.children[p].len() ==> {
                &&& self.is_node(#[trigger] self.children[p][k] as int)
                &&& self.nodes[self.children[p][k] as int].parent_node_id == p
            }
        &&& forall|p: int, j: int, k: int|
            0 <= p < self.children.len() && 0 <= j < k < self.children[p].len()
                ==> self.nodes[#[trigger] self.children[p][j] as int].node_order
                <= self.nodes[#[trigger] self.children[p][k] as int].node_order
        &&& forall|p: int, j: int, k: int|
            0 <= p < self.children.len() && 0 <= j < k < self.children[p].len()
                ==> #[trigger] self.children[p][j] != #[trigger] self.children[p][k]
        &&& forall|c: int|
            self.is_node(c) ==> self.children[(#[trigger] self.nodes[c]).parent_node_id as int].contains(
                c as usize,
            )
    }

    /// Whether the children of every node differ in `node_order`, so that
    /// each list of children rises strictly.
    pub open spec fn strictly_ordered(self) -> bool {
        forall|p: int, j: int, k: int|
            0 <= p < self.children.len() && 0 <= j < k < self.children[p].len()
                ==> self.nodes[#[trigger] self.children[p][j] as int].node_order
                < self.nodes[#[trigger] self.children[p][k] as int].node_order
    }

    /// The rules of the attribute table: every attribute belongs to an
    /// element, a row has an inferred type exactly if the store keeps them,
    /// and the list of a node holds exactly the ids of its attributes, in
    /// rising order.
    pub open spec fn attrs_wf(self) -> bool {
        &&& self.attr_lists.len() == self.nodes.len()
        &&& self.attrs.len() < usize::MAX
        &&& forall|a: int|
            0 <= a < self.attrs.len() ==> {
                &&& (#[trigger] self.attrs[a]).parent_node_id < self.nodes.len()
                &&& self.nodes[self.attrs[a].parent_node_id as int].node_type == NodeType::Element
                &&& self.attrs[a].inferred_type is Some <==> self.options.infer_types
            }
        &&& forall|p: int, k: int|
            0 <= p < self.attr_lists.len() && 0 <= k < self.attr_lists[p].len() ==> {
                &&& self.is_attr(#[trigger] self.attr_lists[p][k] as int)
                &&& self.attr_row(self.attr_lists[p][k] as int).parent_node_id == p
            }
        &&& forall|p: int, j: int, k: int|
            0 <= p < self.attr_lists.len() && 0 <= j < k < self.attr_lists[p].len()
                ==> #[trigger] self.attr_lists[p][j] < #[trigger] self.attr_lists[p][k]
        &&& forall|a: int|
            0 <= a < self.attrs.len() ==> self.attr_lists[(#[trigger] self.attrs[a]).parent_node_id as int].contains(
                (a + 1) as usize,
            )
    }

    /// Whether the tables keep all their rules.
    pub open spec fn wf(self) -> bool {
        &&& self.nodes_wf()
        &&& self.children_wf()
        &&& self.attrs_wf()
    }

    /// The store as it is created: the sentinel and the unfilled row of the
    /// root, and nothing else.
    pub open spec fn empty(options: ParseOptions) -> DocumentView {
        let inferred = if options.infer_types {
            Some(InferredType::Empty)
        } else {
            None
        };
        DocumentView {
            nodes: seq![
                NodeRowView {
                    parent_node_id: 0,
                    node_order: 0,
                    node_type: NodeType::Document,
                    node_ns: None,
                    node_name: None,
                    node_value: None,
                    buffer_position: 0,
                    inferred_type: inferred,
                },
                NodeRowView {
                    parent_node_id: 0,
                    node_order: 0,
                    node_type: NodeType::Element,
                    node_ns: None,
                    node_name: None,
                    node_value: None,
                    buffer_position: 0,
                    inferred_type: inferred,
                },
            ],
            attrs: Seq::empty(),
            children: seq![Seq::empty(), Seq::empty()],
            attr_lists: seq![Seq::empty(), Seq::empty()],
            options,
        }
    }

    /// Whether, of two nodes of the document under one parent, the one with
    /// the lower `node_order` is always the one that stands earlier in the
    /// text.
    pub open spec fn order_follows_places(self) -> bool {
        forall|a: int, b: int|
            self.is_node(a) && self.is_node(b) && a != b && (#[trigger] self.nodes[a]).parent_node_id
                == (#[trigger] self.nodes[b]).parent_node_id ==> (self.nodes[a].node_order
                < self.nodes[b].node_order <==> self.nodes[a].buffer_position
                < self.nodes[b].buffer_position)
    }

    /// Whether an order is above that of every child that a node has so far.
    pub open spec fn follows_siblings(self, parent: int, order: usize) -> bool {
        self.children[parent].len() > 0 ==> self.nodes[self.children[parent].last() as int].node_order
            < order
    }

    /// The place, at or before `at`, at which a node with an order goes into
    /// a list that rises in order: behind every node whose order is not
    /// above its own.
    pub open spec fn place_in(self, list: Seq<usize>, at: int, order: usize) -> int
        decreases at,
    {
        if 0 < at <= list.len() && self.nodes[list[at - 1] as int].node_order > order {
            self.place_in(list, at - 1, order)
        } else {
            at
        }
    }

    /// The place at which a node with an order goes among the children of a
    /// parent.
    pub open spec fn place_for(self, parent: int, order: usize) -> int {
        self.place_in(self.children[parent], self.children[parent].len() as int, order)
    }

    /// Whether the node table takes a row under an id: the id is the next
    /// free one, the parent is the sentinel or a node of the document, the
    /// kind is not `Document`, an element has a name, and the row has an
    /// inferred type exactly if the store keeps them. Any order is taken.
    pub open spec fn accepts_node(self, id: int, row: NodeRowView) -> bool {
        &&& id == self.nodes.len()
        &&& id < usize::MAX
        &&& row.parent_node_id < self.nodes.len()
        &&& row.parent_node_id == 0 || self.is_node(row.parent_node_id as int)
        &&& row.node_type != NodeType::Document
        &&& row.node_type == NodeType::Element ==> row.node_name is Some
        &&& row.inferred_type is Some <==> self.options.infer_types
    }

    /// Why the node table refuses a row under an id, if it does.
    pub open spec fn node_refusal(self, id: int, row: NodeRowView) -> Option<DbError> {
        if row.inferred_type is Some != self.options.infer_types {
            Some(DbError::MissingColumn)
        } else if !self.accepts_node(id, row) {
            Some(DbError::Constraint)
        } else {
            None
        }
    }

    /// The store with one more node, which stands among its parent's
    /// children where its order puts it: behind the children whose order is
    /// not above its own.
    pub open spec fn with_node(self, row: NodeRowView) -> DocumentView {
        let id = self.nodes.len() as usize;
        let p = row.parent_node_id as int;
        DocumentView {
            nodes: self.nodes.push(row),
            children: self.children.update(
                p,
                self.children[p].insert(self.place_for(p, row.node_order), id),
            ).push(Seq::empty()),
            attr_lists: self.attr_lists.push(Seq::empty()),
            ..self
        }
    }

    /// Whether the root's row can be filled in: it is still unfilled.
    pub open spec fn accepts_root(self) -> bool {
        !self.root_populated()
    }

    /// The store with the root's row filled in. The root stands among the
    /// nodes at the top of the document where its order puts it: behind
    /// those whose order is not above its own. Of the root's row only the
    /// prefix, the name, the position and the order change; every other row
    /// stays as it is.
    pub open spec fn with_root(
        self,
        ns: Option<Seq<char>>,
        name: Seq<char>,
        position: usize,
        order: usize,
    ) -> DocumentView {
        DocumentView {
            nodes: self.nodes.update(
                1,
                NodeRowView {
                    node_ns: ns,
                    node_name: Some(name),
                    buffer_position: position,
                    node_order: order,
                    ..self.nodes[1]
                },
            ),
            children: self.children.update(
                0,
                self.children[0].insert(self.place_for(0, order), 1),
            ),
            ..self
        }
    }

    /// Whether the attribute table takes a row: its parent is an element,
    /// and the row has an inferred type exactly if the store keeps them.
    pub open spec fn accepts_attr(self, row: AttrRowView) -> bool {
        &&& self.attrs.len() + 1 < usize::MAX
        &&& row.parent_node_id < self.nodes.len()
        &&& self.nodes[row.parent_node_id as int].node_type == NodeType::Element
        &&& row.inferred_type is Some <==> self.options.infer_types
    }

    /// Why the attribute table refuses a row, if it does.
    pub open spec fn attr_refusal(self, row: AttrRowView) -> Option<DbError> {
        if row.inferred_type is Some != self.options.infer_types {
            Some(DbError::MissingColumn)
        } else if !self.accepts_attr(row) {
            Some(DbError::Constraint)
        } else {
            None
        }
    }

    /// The store with one more attribute, under the next free id.
    pub open spec fn with_attr(self, row: AttrRowView) -> DocumentView {
        let id = (self.attrs.len() + 1) as usize;
        let p = row.parent_node_id as int;
        DocumentView {
            attrs: self.attrs.push(row),
            attr_lists: self.attr_lists.update(p, self.attr_lists[p].push(id)),
            ..self
        }
    }

    /// The record of an element.
    pub open spec fn element(self, id: int) -> ElementView {
        ElementView {
            node_id: id as usize,
            ns: self.nodes[id].node_ns,
            name: text_or_empty(self.nodes[id].node_name),
        }
    }

    /// The record of a node.
    pub open spec fn node(self, id: int) -> NodeView {
        (RawNodeView {
            node_id: id as usize,
            node_type: self.nodes[id].node_type,
            ns: self.nodes[id].node_ns,
            name: self.nodes[id].node_name,
            value: self.nodes[id].node_value,
        }).to_node()
    }

    /// The record of an attribute.
    pub open spec fn attr(self, id: int) -> AttrView {
        AttrView {
            attr_id: id as usize,
            ns: self.attr_row(id).attr_ns,
            name: self.attr_row(id).attr_name,
            value: self.attr_row(id).attr_value,
        }
    }

    /// A name as it is matched: in lower case where the store ignores case.
    pub open spec fn normalized(self, name: Seq<char>) -> Seq<char> {
        if self.options.case_insensitive {
            lowercase(name)
        } else {
            name
        }
    }

    /// How many rows of the node table are elements, the root's row among
    /// them whether it is filled in or not.
    pub open spec fn element_rows(self) -> nat {
        self.nodes.filter(|r: NodeRowView| r.node_type == NodeType::Element).len()
    }

    /// The ids of the nodes under a parent, in rising `node_order`;
    /// none where the id names no row.
    pub open spec fn child_ids(self, parent: int) -> Seq<usize> {
        if 0 <= parent < self.children.len() {
            self.children[parent]
        } else {
            Seq::empty()
        }
    }

    /// The ids of the attributes of a node, in rising order; none where the
    /// id names no row.
    pub open spec fn attr_ids(self, node: int) -> Seq<usize> {
        if 0 <= node < self.attr_lists.len() {
            self.attr_lists[node]
        } else {
            Seq::empty()
        }
    }

    /// The nodes under a parent, in rising `node_order`.
    pub open spec fn child_nodes(self, parent: int) -> Seq<NodeView> {
        self.child_ids(parent).map_values(|c: usize| self.node(c as int))
    }

    /// The ids of the elements under a parent, in rising `node_order`.
    pub open spec fn child_element_ids(self, parent: int) -> Seq<usize> {
        self.child_ids(parent).filter(|c: usize| self.is_element(c as int))
    }

    /// The elements under a parent, in rising `node_order`.
    pub open spec fn children(self, parent: int) -> Seq<ElementView> {
        self.child_element_ids(parent).map_values(|c: usize| self.element(c as int))
    }

    /// The elements under a parent that have the given name, as it is
    /// matched.
    pub open spec fn children_by_name(self, parent: int, name: Seq<char>) -> Seq<ElementView> {
        self.children(parent).filter(|e: ElementView| e.name == self.normalized(name))
    }

    /// The attributes of a node, in rising order of their ids.
    pub open spec fn attrs(self, node: int) -> Seq<AttrView> {
        self.attr_ids(node).map_values(|a: usize| self.attr(a as int))
    }

    /// The namespace that a query asks for: an empty one asks for none.
    pub open spec fn wanted_ns(ns: Option<Seq<char>>) -> Option<Seq<char>> {
        match ns {
            Some(t) => if t.len() > 0 {
                Some(t)
            } else {
                None
            },
            None => None,
        }
    }

    /// Whether an attribute has the name, as it is matched, and the
    /// namespace that a query asks for.
    pub open spec fn attr_matches(self, attr: int, name: Seq<char>, ns: Option<Seq<char>>) -> bool {
        &&& self.attr_row(attr).attr_name == self.normalized(name)
        &&& self.attr_row(attr).attr_ns == Self::wanted_ns(ns)
    }

    /// The last element before a place in a list of nodes, if there is one.
    pub open spec fn element_before(self, list: Seq<usize>, at: int) -> Option<usize>
        decreases at,
    {
        if at <= 0 || at > list.len() {
            None
        } else if self.is_element(list[at - 1] as int) {
            Some(list[at - 1])
        } else {
            self.element_before(list, at - 1)
        }
    }

    /// The first element from a place on in a list of nodes, if there is
    /// one.
    pub open spec fn element_from(self, list: Seq<usize>, at: int) -> Option<usize>
        decreases list.len() - at,
    {
        if at < 0 || at >= list.len() {
            None
        } else if self.is_element(list[at] as int) {
            Some(list[at])
        } else {
            self.element_from(list, at + 1)
        }
    }

    /// The nearest element before a node among the children of its parent,
    /// if there is one.
    pub open spec fn prev_sibling_element(self, id: int) -> Option<usize> {
        if self.is_node(id) {
            self.element_before(
                self.children[self.nodes[id].parent_node_id as int],
                self.sibling_index(id),
            )
        } else {
            None
        }
    }

    /// The nearest element after a node among the children of its parent,
    /// if there is one.
    pub open spec fn next_sibling_element(self, id: int) -> Option<usize> {
        if self.is_node(id) {
            self.element_from(
                self.children[self.nodes[id].parent_node_id as int],
                self.sibling_index(id) + 1,
            )
        } else {
            None
        }
    }

    /// The first of the ids from a place on that names a matching attribute.
    pub open spec fn first_attr_match(
        self,
        ids: Seq<usize>,
        from: int,
        name: Seq<char>,
        ns: Option<Seq<char>>,
    ) -> Option<usize>
        decreases ids.len() - from,
    {
        if from < 0 || from >= ids.len() {
            None
        } else if self.attr_matches(ids[from] as int, name, ns) {
            Some(ids[from])
        } else {
            self.first_attr_match(ids, from + 1, name, ns)
        }
    }

    /// The first attribute of a node that has the name and namespace asked
    /// for, if there is one.
    pub open spec fn attr_by_name(self, node: int, name: Seq<char>, ns: Option<Seq<char>>) -> Option<
        AttrView,
    > {
        match self.first_attr_match(self.attr_ids(node), 0, name, ns) {
            Some(a) => Some(self.attr(a as int)),
            None => None,
        }
    }

    /// Whether any row of the node table has the id as its parent. The
    /// sentinel is its own parent.
    pub open spec fn has_children(self, id: int) -> bool {
        exists|j: int| 0 <= j < self.nodes.len() && (#[trigger] self.nodes[j]).parent_node_id == id
    }

    /// The place of a node among the children of its parent.
    pub open spec fn sibling_index(self, id: int) -> int {
        self.children[self.nodes[id].parent_node_id as int].index_of(id as usize)
    }

    /// The node just before a node among the children of its parent, if
    /// there is one.
    pub open spec fn prev_sibling(self, id: int) -> Option<usize> {
        if self.is_node(id) && self.sibling_index(id) > 0 {
            Some(self.children[self.nodes[id].parent_node_id as int][self.sibling_index(id) - 1])
        } else {
            None
        }
    }

    /// The node just after a node among the children of its parent, if
    /// there is one.
    pub open spec fn next_sibling(self, id: int) -> Option<usize> {
        if self.is_node(id) && self.sibling_index(id) + 1
            < self.children[self.nodes[id].parent_node_id as int].len() {
            Some(self.children[self.nodes[id].parent_node_id as int][self.sibling_index(id) + 1])
        } else {
            None
        }
    }

    /// Whether a node stands under another, at any depth.
    pub open spec fn is_under(self, ancestor: int, id: int) -> bool
        decreases id,
    {
        &&& self.is_node(id)
        &&& {
            let parent = self.nodes[id].parent_node_id as int;
            ||| parent == ancestor
            ||| (parent < id && self.is_under(ancestor, parent))
        }
    }

    /// All ids of the node table, in rising order.
    pub open spec fn all_ids(self) -> Seq<usize> {
        Seq::new(self.nodes.len(), |i: int| i as usize)
    }

    /// The ids of the nodes that stand under a node, in rising order.
    pub open spec fn descendent_ids(self, ancestor: int) -> Seq<usize> {
        self.all_ids().filter(|c: usize| self.is_under(ancestor, c as int))
    }

    /// The nodes that stand under a node, in rising order of their ids.
    pub open spec fn descendent_nodes(self, ancestor: int) -> Seq<NodeView> {
        self.descendent_ids(ancestor).map_values(|c: usize| self.node(c as int))
    }

    /// The ids of the elements that stand under a node, in rising order.
    pub open spec fn descendent_element_ids(self, ancestor: int) -> Seq<usize> {
        self.all_ids().filter(
            |c: usize| self.is_under(ancestor, c as int) && self.is_element(c as int),
        )
    }

    /// The elements that stand under a node, in rising order of their ids.
    pub open spec fn descendents(self, ancestor: int) -> Seq<ElementView> {
        self.descendent_element_ids(ancestor).map_values(|c: usize| self.element(c as int))
    }

    /// What a read of the inferred type of a row gives.
    pub open spec fn inferred_type(self, id: int) -> Result<InferredType, DbError> {
        if !self.options.infer_types {
            Err(DbError::MissingColumn)
        } else if 0 <= id < self.nodes.len() && self.nodes[id].inferred_type is Some {
            Ok(self.nodes[id].inferred_type->0)
        } else {
            Err(DbError::NotFound)
        }
    }

    /// What a read of the inferred type of an attribute gives.
    pub open spec fn attr_inferred_type(self, id: int) -> Result<InferredType, DbError> {
        if !self.options.infer_types {
            Err(DbError::MissingColumn)
        } else if self.is_attr(id) && self.attr_row(id).inferred_type is Some {
            Ok(self.attr_row(id).inferred_type->0)
        } else {
            Err(DbError::NotFound)
        }
    }

    /// The ids of all attributes, in rising order.
    pub open spec fn all_attr_ids(self) -> Seq<usize> {
        Seq::new(self.attrs.len(), |i: int| (i + 1) as usize)
    }

    /// Whether an attribute has the name, as it is matched, and the value,
    /// and belongs to an element of the document.
    pub open spec fn attr_has_value(self, attr: int, name: Seq<char>, value: Seq<char>) -> bool {
        &&& self.attr_row(attr).attr_name == self.normalized(name)
        &&& self.attr_row(attr).attr_value == value
        &&& self.is_element(self.attr_row(attr).parent_node_id as int)
    }

    /// For every attribute with the name and the value, in rising order of
    /// the attributes' ids, the element that it belongs to.
    pub open spec fn elements_matching_attr_value(self, name: Seq<char>, value: Seq<char>) -> Seq<
        ElementView,
    > {
        self.all_attr_ids().filter(|a: usize| self.attr_has_value(a as int, name, value)).map_values(
            |a: usize| self.element(self.attr_row(a as int).parent_node_id as int),
        )
    }

    /// The store with another value in the row of a node; the same store
    /// where the id names no row.
    pub open spec fn with_node_value(self, id: int, value: Seq<char>) -> DocumentView {
        if 0 <= id < self.nodes.len() {
            DocumentView {
                nodes: self.nodes.update(
                    id,
                    NodeRowView { node_value: Some(value), ..self.nodes[id] },
                ),
                ..self
            }
        } else {
            self
        }
    }

    /// The store with another value in the row of an attribute; the same
    /// store where the id names none.
    pub open spec fn with_attr_value(self, id: int, value: Seq<char>) -> DocumentView {
        if self.is_attr(id) {
            DocumentView {
                attrs: self.attrs.update(
                    id - 1,
                    AttrRowView { attr_value: value, ..self.attr_row(id) },
                ),
                ..self
            }
        } else {
            self
        }
    }

    /// No node stands twice among the children of a parent.
    pub proof fn lemma_children_distinct(self, p: int, j: int, k: int)
        requires
            self.wf(),
            0 <= p < self.children.len(),
            0 <= j < self.children[p].len(),
            0 <= k < self.children[p].len(),
            self.children[p][j] == self.children[p][k],
        ensures
            j == k,
    {
        if j < k {
            assert(self.children[p][j] != self.children[p][k]);
        } else if k < j {
            assert(self.children[p][k] != self.children[p][j]);
        }
    }

    /// A node stands at its place among the children of its parent, and
    /// nowhere else.
    pub proof fn lemma_sibling_index(self, id: int, k: int)
        requires
            self.wf(),
            self.is_node(id),
            0 <= k < self.children[self.nodes[id].parent_node_id as int].len(),
            self.children[self.nodes[id].parent_node_id as int][k] == id,
        ensures
            self.sibling_index(id) == k,
    {
        let p = self.nodes[id].parent_node_id as int;
        let i = self.sibling_index(id);
        assert(0 <= i < self.children[p].len() && self.children[p][i] == id as usize);
        self.lemma_children_distinct(p, i, k);
    }

    /// A store with another value in a row keeps the rules.
    pub proof fn lemma_with_value_wf(self, id: int, value: Seq<char>)
        requires
            self.wf(),
        ensures
            self.with_node_value(id, value).wf(),
            self.with_attr_value(id, value).wf(),
    {
        let v = self.with_node_value(id, value);
        assert(v.nodes_wf());
        assert forall|p: int, k: int|
            0 <= p < v.children.len() && 0 <= k < v.children[p].len() implies {
            &&& v.is_node(#[trigger] v.children[p][k] as int)
            &&& v.nodes[v.children[p][k] as int].parent_node_id == p
        } by {
            assert(self.is_node(self.children[p][k] as int));
        }
        assert forall|p: int, j: int, k: int|
            0 <= p < v.children.len() && 0 <= j < k < v.children[p].len() implies v.nodes[#[trigger] v.children[p][j] as int].node_order
            <= v.nodes[#[trigger] v.children[p][k] as int].node_order by {
            assert(self.is_node(self.children[p][j] as int));
            assert(self.is_node(self.children[p][k] as int));
        }
        assert forall|p: int, j: int, k: int|
            0 <= p < v.children.len() && 0 <= j < k < v.children[p].len() implies #[trigger] v.children[p][j]
            != #[trigger] v.children[p][k] by {
            assert(self.children[p][j] != self.children[p][k]);
        }
        assert forall|c: int| v.is_node(c) implies v.children[(#[trigger] v.nodes[c]).parent_node_id as int].contains(
            c as usize,
        ) by {
            assert(self.is_node(c));
            assert(self.children[self.nodes[c].parent_node_id as int].contains(c as usize));
        }
        assert(v.children_wf());
        assert forall|a: int| 0 <= a < v.attrs.len() implies {
            &&& (#[trigger] v.attrs[a]).parent_node_id < v.nodes.len()
            &&& v.nodes[v.attrs[a].parent_node_id as int].node_type == NodeType::Element
            &&& v.attrs[a].inferred_type is Some <==> v.options.infer_types
        } by {
            assert(self.attrs[a].parent_node_id < self.nodes.len());
        }
        assert(v.attrs_wf());
        let w = self.with_attr_value(id, value);
        assert(w.nodes_wf());
        assert(w.children_wf());
        assert forall|p: int, k: int|
            0 <= p < w.attr_lists.len() && 0 <= k < w.attr_lists[p].len() implies {
            &&& w.is_attr(#[trigger] w.attr_lists[p][k] as int)
            &&& w.attr_row(w.attr_lists[p][k] as int).parent_node_id == p
        } by {
            assert(self.is_attr(self.attr_lists[p][k] as int));
        }
        assert forall|a: int| 0 <= a < w.attrs.len() implies w.attr_lists[(#[trigger] w.attrs[a]).parent_node_id as int].contains(
            (a + 1) as usize,
        ) by {
            assert(self.attr_lists[self.attrs[a].parent_node_id as int].contains((a + 1) as usize));
        }
        assert(w.attrs_wf());
    }

    /// The row with id 1 is there and is an element: the root of the
    /// document has that id and no other node has.
    pub proof fn lemma_root_is_element(self)
        requires
            self.wf(),
        ensures
            1 < self.nodes.len(),
            self.nodes[1].node_type == NodeType::Element,
            self.nodes[1].parent_node_id == 0,
    {
    }

    /// The parent of every row but the sentinel's is a row of the table,
    /// stored before it.
    pub proof fn lemma_parent_exists(self, id: int)
        requires
            self.wf(),
            1 <= id < self.nodes.len(),
        ensures
            0 <= self.nodes[id].parent_node_id < self.nodes.len(),
            self.nodes[id].parent_node_id < id,
    {
    }

    /// In a store whose lists of children rise strictly, two nodes of the
    /// document under one parent differ in `node_order`, and stand among the
    /// children of their parent in the order that `node_order` gives.
    pub proof fn lemma_siblings_ordered(self, a: int, b: int)
        requires
            self.wf(),
            self.strictly_ordered(),
            self.is_node(a),
            self.is_node(b),
            a != b,
            self.nodes[a].parent_node_id == self.nodes[b].parent_node_id,
        ensures
            self.nodes[a].node_order != self.nodes[b].node_order,
            self.sibling_index(a) < self.sibling_index(b) <==> self.nodes[a].node_order
                < self.nodes[b].node_order,
    {
        let p = self.nodes[a].parent_node_id as int;
        assert(self.children[p].contains(a as usize));
        assert(self.children[p].contains(b as usize));
        let i = choose|i: int| 0 <= i < self.children[p].len() && self.children[p][i] == a as usize;
        let j = choose|j: int| 0 <= j < self.children[p].len() && self.children[p][j] == b as usize;
        self.lemma_sibling_index(a, i);
        self.lemma_sibling_index(b, j);
        if i < j {
            assert(self.nodes[self.children[p][i] as int].node_order
                < self.nodes[self.children[p][j] as int].node_order);
        } else if j < i {
            assert(self.nodes[self.children[p][j] as int].node_order
                < self.nodes[self.children[p][i] as int].node_order);
        }
    }

    /// Whatever orders the rows of a store have, the children of a node
    /// stand in rising `node_order`.
    pub proof fn lemma_children_rise(self, p: int, j: int, k: int)
        requires
            self.wf(),
            0 <= p < self.children.len(),
            0 <= j <= k < self.children[p].len(),
        ensures
            self.nodes[self.children[p][j] as int].node_order
                <= self.nodes[self.children[p][k] as int].node_order,
    {
        if j < k {
            assert(self.nodes[self.children[p][j] as int].node_order
                <= self.nodes[self.children[p][k] as int].node_order);
        }
    }

    /// Every attribute belongs to a row that is an element.
    pub proof fn lemma_attr_parent_is_element(self, attr: int)
        requires
            self.wf(),
            self.is_attr(attr),
        ensures
            self.attr_row(attr).parent_node_id < self.nodes.len(),
            self.nodes[self.attr_row(attr).parent_node_id as int].node_type == NodeType::Element,
    {
    }

    /// An element is among the children of a parent exactly if it is the
    /// record of an element of the document whose parent that is.
    pub proof fn lemma_children_members(self, parent: int, e: ElementView)
        requires
            self.wf(),
        ensures
            self.children(parent).contains(e) <==> (self.is_element(e.node_id as int)
                && self.nodes[e.node_id as int].parent_node_id == parent && e == self.element(
                e.node_id as int,
            )),
    {
        let ids = self.child_ids(parent);
        let pred = |c: usize| self.is_element(c as int);
        let kept = self.child_element_ids(parent);
        let f = |c: usize| self.element(c as int);
        if self.children(parent).contains(e) {
            let i = choose|i: int| 0 <= i < kept.map_values(f).len() && kept.map_values(f)[i] == e;
            ids.lemma_filter_pred(pred, i);
            assert(kept.contains(kept[i]));
            ids.lemma_filter_contains_rev(pred, kept[i]);
            let k = choose|k: int| 0 <= k < ids.len() && ids[k] == kept[i];
            assert(self.is_node(self.children[parent][k] as int));
        }
        if self.is_element(e.node_id as int) && self.nodes[e.node_id as int].parent_node_id
            == parent && e == self.element(e.node_id as int) {
            assert(self.children[parent].contains(e.node_id));
            let k = choose|k: int| 0 <= k < ids.len() && ids[k] == e.node_id;
            ids.lemma_filter_contains(pred, k);
            let i = choose|i: int| 0 <= i < kept.len() && kept[i] == e.node_id;
            assert(kept.map_values(f)[i] == e);
        }
    }

    /// The children of a parent that have a name are among its children,
    /// and are those of its children whose name is that name, as it is
    /// matched.
    pub proof fn lemma_children_by_name(self, parent: int, name: Seq<char>, e: ElementView)
        requires
            self.wf(),
        ensures
            self.children_by_name(parent, name).contains(e) <==> (self.children(parent).contains(e)
                && e.name == self.normalized(name)),
            self.children_by_name(parent, name) == self.children(parent).filter(
                |c: ElementView| c.name == self.normalized(name),
            ),
    {
        let all = self.children(parent);
        let pred = |c: ElementView| c.name == self.normalized(name);
        if all.filter(pred).contains(e) {
            all.lemma_filter_contains_rev(pred, e);
            let i = choose|i: int| 0 <= i < all.filter(pred).len() && all.filter(pred)[i] == e;
            all.lemma_filter_pred(pred, i);
        }
        if all.contains(e) && pred(e) {
            let k = choose|k: int| 0 <= k < all.len() && all[k] == e;
            all.lemma_filter_contains(pred, k);
        }
    }

    /// The first match from a place on is one of the ids from there on and
    /// matches, and there is one exactly if any id from there on matches.
    pub proof fn lemma_first_attr_match(
        self,
        ids: Seq<usize>,
        from: int,
        name: Seq<char>,
        ns: Option<Seq<char>>,
    )
        requires
            0 <= from <= ids.len(),
        ensures
            match self.first_attr_match(ids, from, name, ns) {
                Some(a) => exists|k: int|
                    from <= k < ids.len() && ids[k] == a && self.attr_matches(a as int, name, ns)
                        && forall|j: int|
                        from <= j < k ==> !self.attr_matches(#[trigger] ids[j] as int, name, ns),
                None => forall|k: int|
                    from <= k < ids.len() ==> !self.attr_matches(#[trigger] ids[k] as int, name, ns),
            },
        decreases ids.len() - from,
    {
        if from < ids.len() {
            if self.attr_matches(ids[from] as int, name, ns) {
                assert(from <= from < ids.len() && ids[from] == ids[from]);
            } else {
                self.lemma_first_attr_match(ids, from + 1, name, ns);
                match self.first_attr_match(ids, from + 1, name, ns) {
                    Some(a) => {
                        let k = choose|k: int|
                            from + 1 <= k < ids.len() && ids[k] == a && self.attr_matches(
                                a as int,
                                name,
                                ns,
                            ) && forall|j: int|
                                from + 1 <= j < k ==> !self.attr_matches(
                                    #[trigger] ids[j] as int,
                                    name,
                                    ns,
                                );
                        assert(from <= k < ids.len() && ids[k] == a);
                    },
                    None => {},
                }
            }
        }
    }

    /// An attribute found by name, with no namespace asked for, is one of
    /// the node's attributes, has the name as it is matched, and has no
    /// namespace. One is found exactly if the node has such an attribute.
    pub proof fn lemma_attr_by_name(self, node: int, name: Seq<char>)
        requires
            self.wf(),
        ensures
            match self.attr_by_name(node, name, None) {
                Some(a) => self.attrs(node).contains(a) && a.name == self.normalized(name) && a.ns
                    is None,
                None => forall|b: AttrView|
                    #[trigger] self.attrs(node).contains(b) ==> !(b.name == self.normalized(name)
                        && b.ns is None),
            },
    {
        let ids = self.attr_ids(node);
        let f = |a: usize| self.attr(a as int);
        self.lemma_first_attr_match(ids, 0, name, None);
        match self.first_attr_match(ids, 0, name, None) {
            Some(a) => {
                let k = choose|k: int| 0 <= k < ids.len() && ids[k] == a;
                assert(ids.map_values(f)[k] == self.attr(a as int));
            },
            None => {
                assert forall|b: AttrView| #[trigger] self.attrs(node).contains(b) implies !(b.name
                    == self.normalized(name) && b.ns is None) by {
                    let k = choose|k: int|
                        0 <= k < ids.map_values(f).len() && ids.map_values(f)[k] == b;
                    assert(!self.attr_matches(ids[k] as int, name, None));
                }
            },
        }
    }

    /// An attribute of a node that has the name, as it is matched, and no
    /// namespace, and is the only such attribute of the node, is the one
    /// that is found by that name.
    pub proof fn lemma_attr_by_name_found(self, node: int, name: Seq<char>, a: AttrView)
        requires
            self.wf(),
            self.attrs(node).contains(a),
            a.name == self.normalized(name),
            a.ns is None,
            forall|b: AttrView|
                #[trigger] self.attrs(node).contains(b) && b.name == self.normalized(name) && b.ns
                    is None ==> b == a,
        ensures
            self.attr_by_name(node, name, None) == Some(a),
    {
        self.lemma_attr_by_name(node, name);
    }

    /// Every node of the document stands under the sentinel.
    pub proof fn lemma_all_under_sentinel(self, id: int)
        requires
            self.wf(),
            self.is_node(id),
        ensures
            self.is_under(0, id),
        decreases id,
    {
        let p = self.nodes[id].parent_node_id as int;
        if id >= 2 && p != 0 {
            self.lemma_all_under_sentinel(p);
        }
    }

    /// An element stands among the descendents of a node exactly if it is
    /// the record of an element of the document that stands under it.
    pub proof fn lemma_descendents_members(self, ancestor: int, e: ElementView)
        requires
            self.wf(),
        ensures
            self.descendents(ancestor).contains(e) <==> (self.is_element(e.node_id as int)
                && self.is_under(ancestor, e.node_id as int) && e == self.element(
                e.node_id as int,
            )),
    {
        let ids = self.all_ids();
        let pred = |c: usize| self.is_under(ancestor, c as int) && self.is_element(c as int);
        let kept = self.descendent_element_ids(ancestor);
        let f = |c: usize| self.element(c as int);
        if self.descendents(ancestor).contains(e) {
            let i = choose|i: int| 0 <= i < kept.map_values(f).len() && kept.map_values(f)[i] == e;
            ids.lemma_filter_pred(pred, i);
        }
        if self.is_element(e.node_id as int) && self.is_under(ancestor, e.node_id as int) && e
            == self.element(e.node_id as int) {
            assert(ids[e.node_id as int] == e.node_id);
            ids.lemma_filter_contains(pred, e.node_id as int);
            let i = choose|i: int| 0 <= i < kept.len() && kept[i] == e.node_id;
            assert(kept.map_values(f)[i] == e);
        }
    }

    /// The descendents of a node hold its children, and with an element its
    /// children.
    pub proof fn lemma_descendents_closed(self, ancestor: int)
        requires
            self.wf(),
        ensures
            forall|e: ElementView| #[trigger]
                self.children(ancestor).contains(e) ==> self.descendents(ancestor).contains(e),
            forall|x: ElementView, e: ElementView|
                self.descendents(ancestor).contains(x) && #[trigger] self.children(
                    x.node_id as int,
                ).contains(e) ==> #[trigger] self.descendents(ancestor).contains(e),
    {
        assert forall|e: ElementView| #[trigger]
            self.children(ancestor).contains(e) implies self.descendents(ancestor).contains(e) by {
            self.lemma_children_members(ancestor, e);
            self.lemma_descendents_members(ancestor, e);
        }
        assert forall|x: ElementView, e: ElementView|
            self.descendents(ancestor).contains(x) && #[trigger] self.children(
                x.node_id as int,
            ).contains(e) implies #[trigger] self.descendents(ancestor).contains(e) by {
            self.lemma_descendents_members(ancestor, x);
            self.lemma_children_members(x.node_id as int, e);
            self.lemma_descendents_members(ancestor, e);
        }
    }

    /// The store with the root's row filled in from a row, or the reason
    /// why it cannot be.
    pub open spec fn load_root(self, root: NodeRowView) -> Result<DocumentView, DbError> {
        if root.node_name is Some && self.accepts_root() {
            Ok(self.with_root(root.node_ns, root.node_name->0, root.buffer_position, root.node_order))
        } else {
            Err(DbError::Constraint)
        }
    }

    /// The store with one more row of a saved node table.
    pub open spec fn load_node(self, id: int, row: NodeRowView) -> Result<DocumentView, DbError> {
        match self.node_refusal(id, row) {
            Some(e) => Err(e),
            None => Ok(self.with_node(row)),
        }
    }

    /// Whether the first two rows of a saved node table are the sentinel
    /// and a row for the root: unfilled as a new store has it, or filled
    /// in with a name.
    pub open spec fn reserved_rows(options: ParseOptions, rows: Seq<NodeRowView>) -> bool {
        let fresh = DocumentView::empty(options);
        &&& rows.len() >= 2
        &&& rows[0] == fresh.nodes[0]
        &&& rows[1].node_type == NodeType::Element
        &&& rows[1].parent_node_id == 0
        &&& rows[1].node_value is None
        &&& rows[1].inferred_type == fresh.nodes[1].inferred_type
        &&& rows[1].node_name is None ==> rows[1] == fresh.nodes[1]
    }

    /// The store that holds the first `k` rows of a saved node table, or
    /// the reason why the table cannot be loaded. The root's row is filled
    /// in first, if it has a name.
    pub open spec fn load_nodes(options: ParseOptions, rows: Seq<NodeRowView>, k: int) -> Result<
        DocumentView,
        DbError,
    >
        decreases k,
    {
        if k <= 2 {
            if !DocumentView::reserved_rows(options, rows) {
                Err(DbError::Constraint)
            } else if rows[1].node_name is Some {
                DocumentView::empty(options).load_root(rows[1])
            } else {
                Ok(DocumentView::empty(options))
            }
        } else if k > rows.len() {
            Err(DbError::Constraint)
        } else {
            match DocumentView::load_nodes(options, rows, k - 1) {
                Ok(v) => v.load_node(k - 1, rows[k - 1]),
                Err(e) => Err(e),
            }
        }
    }

    /// The store that holds the first `k` rows of a saved attribute table
    /// besides what it holds already.
    pub open spec fn load_attrs(self, rows: Seq<AttrRowView>, k: int) -> Result<DocumentView, DbError>
        decreases k,
    {
        if k <= 0 {
            Ok(self)
        } else if k > rows.len() {
            Err(DbError::Constraint)
        } else {
            match self.load_attrs(rows, k - 1) {
                Ok(v) => match v.attr_refusal(rows[k - 1]) {
                    Some(e) => Err(e),
                    None => Ok(v.with_attr(rows[k - 1])),
                },
                Err(e) => Err(e),
            }
        }
    }

    /// The store that two saved tables give, or the reason why they give
    /// none. The root's row is filled in first; then the rows are stored in
    /// the order of their ids.
    pub open spec fn from_rows(
        options: ParseOptions,
        nodes: Seq<NodeRowView>,
        attrs: Seq<AttrRowView>,
    ) -> Result<DocumentView, DbError> {
        match DocumentView::load_nodes(options, nodes, nodes.len() as int) {
            Err(e) => Err(e),
            Ok(v) => v.load_attrs(attrs, attrs.len() as int),
        }
    }

    /// A store as created keeps the rules.
    pub proof fn lemma_empty_wf(options: ParseOptions)
        ensures
            DocumentView::empty(options).wf(),
    {
    }

    /// The place of a node in a list is at or before the end from which it
    /// is looked for; behind it stand only nodes of higher order, and just
    /// before it a node whose order is not higher.
    pub proof fn lemma_place_in(self, list: Seq<usize>, at: int, order: usize)
        requires
            0 <= at <= list.len(),
        ensures
            0 <= self.place_in(list, at, order) <= at,
            forall|k: int|
                self.place_in(list, at, order) <= k < at ==> self.nodes[#[trigger] list[k] as int].node_order
                    > order,
            self.place_in(list, at, order) > 0 ==> self.nodes[list[self.place_in(
                list,
                at,
                order,
            ) - 1] as int].node_order <= order,
        decreases at,
    {
        if 0 < at && self.nodes[list[at - 1] as int].node_order > order {
            self.lemma_place_in(list, at - 1, order);
        }
    }

    /// A node whose order is above that of every child of its parent goes
    /// behind them all.
    pub proof fn lemma_place_at_end(self, parent: int, order: usize)
        requires
            self.follows_siblings(parent, order),
        ensures
            self.place_for(parent, order) == self.children[parent].len(),
            self.children[parent].insert(self.place_for(parent, order), self.nodes.len() as usize)
                == self.children[parent].push(self.nodes.len() as usize),
            self.children[parent].insert(self.place_for(parent, order), 1)
                == self.children[parent].push(1),
    {
        let list = self.children[parent];
        let n = list.len() as int;
        assert(list.insert(n, self.nodes.len() as usize) =~= list.push(self.nodes.len() as usize));
        assert(list.insert(n, 1) =~= list.push(1));
    }

    /// A store that takes a node keeps the rules.
    pub proof fn lemma_with_node_wf(self, row: NodeRowView)
        requires
            self.wf(),
            self.accepts_node(self.nodes.len() as int, row),
        ensures
            self.with_node(row).wf(),
    {
        let v = self.with_node(row);
        let id = self.nodes.len() as int;
        let p = row.parent_node_id as int;
        let was = self.children[p];
        let pos = self.place_for(p, row.node_order);
        self.lemma_place_in(was, was.len() as int, row.node_order);
        let now = was.insert(pos, id as usize);
        assert(v.children[p] == now);
        assert(now.len() == was.len() + 1);
        assert(v.nodes_wf());
        assert forall|q: int, k: int|
            0 <= q < v.children.len() && 0 <= k < v.children[q].len() implies {
            &&& v.is_node(#[trigger] v.children[q][k] as int)
            &&& v.nodes[v.children[q][k] as int].parent_node_id == q
        } by {
            if q == p {
                lemma_inserted(was, pos, id as usize, k);
                if k < pos {
                    assert(self.is_node(was[k] as int));
                } else if k > pos {
                    assert(self.is_node(was[k - 1] as int));
                }
            } else {
                assert(v.children[q][k] == self.children[q][k]);
                assert(self.is_node(self.children[q][k] as int));
            }
        }
        assert forall|q: int, j: int, k: int|
            0 <= q < v.children.len() && 0 <= j < k < v.children[q].len() implies v.nodes[#[trigger] v.children[q][j] as int].node_order
            <= v.nodes[#[trigger] v.children[q][k] as int].node_order by {
            if q == p {
                lemma_inserted(was, pos, id as usize, j);
                lemma_inserted(was, pos, id as usize, k);
                let oj = if j < pos {
                    j
                } else {
                    j - 1
                };
                let ok = if k < pos {
                    k
                } else {
                    k - 1
                };
                if j != pos {
                    assert(self.is_node(was[oj] as int));
                }
                if k != pos {
                    assert(self.is_node(was[ok] as int));
                }
                if j == pos {
                    assert(self.nodes[was[ok] as int].node_order > row.node_order);
                } else if k == pos {
                    self.lemma_children_rise(p, oj, pos - 1);
                } else {
                    self.lemma_children_rise(p, oj, ok);
                }
            } else {
                assert(v.children[q][j] == self.children[q][j]);
                assert(v.children[q][k] == self.children[q][k]);
                assert(self.is_node(self.children[q][j] as int));
                assert(self.is_node(self.children[q][k] as int));
                self.lemma_children_rise(q, j, k);
            }
        }
        assert forall|q: int, j: int, k: int|
            0 <= q < v.children.len() && 0 <= j < k < v.children[q].len() implies #[trigger] v.children[q][j]
            != #[trigger] v.children[q][k] by {
            if q == p {
                lemma_inserted(was, pos, id as usize, j);
                lemma_inserted(was, pos, id as usize, k);
                let oj = if j < pos {
                    j
                } else {
                    j - 1
                };
                let ok = if k < pos {
                    k
                } else {
                    k - 1
                };
                if j != pos {
                    assert(self.is_node(was[oj] as int));
                }
                if k != pos {
                    assert(self.is_node(was[ok] as int));
                }
                if j != pos && k != pos {
                    assert(was[oj] != was[ok]);
                }
            } else {
                assert(v.children[q][j] == self.children[q][j]);
                assert(v.children[q][k] == self.children[q][k]);
                assert(self.children[q][j] != self.children[q][k]);
            }
        }
        assert forall|c: int| v.is_node(c) implies v.children[(#[trigger] v.nodes[c]).parent_node_id as int].contains(
            c as usize,
        ) by {
            if c == id {
                lemma_inserted(was, pos, id as usize, pos);
                assert(v.children[p][pos] == id as usize);
            } else {
                assert(self.is_node(c));
                let q = self.nodes[c].parent_node_id as int;
                let k = choose|k: int|
                    0 <= k < self.children[q].len() && self.children[q][k] == c as usize;
                if q == p {
                    let nk = if k < pos {
                        k
                    } else {
                        k + 1
                    };
                    lemma_inserted(was, pos, id as usize, nk);
                    assert(v.children[q][nk] == c as usize);
                } else {
                    assert(v.children[q][k] == c as usize);
                }
            }
        }
        assert(v.children_wf());
        assert forall|q: int, k: int|
            0 <= q < v.attr_lists.len() && 0 <= k < v.attr_lists[q].len() implies {
            &&& v.is_attr(#[trigger] v.attr_lists[q][k] as int)
            &&& v.attr_row(v.attr_lists[q][k] as int).parent_node_id == q
        } by {
            assert(v.attr_lists[q][k] == self.attr_lists[q][k]);
        }
        assert(v.attrs_wf());
    }

    /// A store whose root row is filled in keeps the rules.
    pub proof fn lemma_with_root_wf(
        self,
        ns: Option<Seq<char>>,
        name: Seq<char>,
        position: usize,
        order: usize,
    )
        requires
            self.wf(),
            self.accepts_root(),
        ensures
            self.with_root(ns, name, position, order).wf(),
    {
        let v = self.with_root(ns, name, position, order);
        let was = self.children[0];
        let pos = self.place_for(0, order);
        self.lemma_place_in(was, was.len() as int, order);
        let now = was.insert(pos, 1usize);
        assert(v.children[0] == now);
        assert(now.len() == was.len() + 1);
        assert forall|q: int, k: int|
            0 <= q < self.children.len() && 0 <= k < self.children[q].len() implies self.children[q][k]
            != 1 by {
            assert(self.is_node(self.children[q][k] as int));
        }
        assert forall|i: int| 2 <= i < v.nodes.len() implies {
            &&& (#[trigger] v.nodes[i]).node_type != NodeType::Document
            &&& v.nodes[i].parent_node_id < i
            &&& v.nodes[i].parent_node_id == 0 || v.is_node(v.nodes[i].parent_node_id as int)
            &&& v.nodes[i].node_type == NodeType::Element ==> v.nodes[i].node_name is Some
        } by {
            assert(v.nodes[i] == self.nodes[i]);
        }
        assert(v.nodes_wf());
        assert forall|q: int, k: int|
            0 <= q < v.children.len() && 0 <= k < v.children[q].len() implies {
            &&& v.is_node(#[trigger] v.children[q][k] as int)
            &&& v.nodes[v.children[q][k] as int].parent_node_id == q
        } by {
            if q == 0 {
                lemma_inserted(was, pos, 1usize, k);
                if k < pos {
                    assert(self.is_node(was[k] as int));
                } else if k > pos {
                    assert(self.is_node(was[k - 1] as int));
                }
            } else {
                assert(v.children[q][k] == self.children[q][k]);
                assert(self.is_node(self.children[q][k] as int));
            }
        }
        assert forall|q: int, j: int, k: int|
            0 <= q < v.children.len() && 0 <= j < k < v.children[q].len() implies v.nodes[#[trigger] v.children[q][j] as int].node_order
            <= v.nodes[#[trigger] v.children[q][k] as int].node_order by {
            if q == 0 {
                lemma_inserted(was, pos, 1usize, j);
                lemma_inserted(was, pos, 1usize, k);
                let oj = if j < pos {
                    j
                } else {
                    j - 1
                };
                let ok = if k < pos {
                    k
                } else {
                    k - 1
                };
                if j != pos {
                    assert(self.is_node(was[oj] as int));
                }
                if k != pos {
                    assert(self.is_node(was[ok] as int));
                }
                if j == pos {
                    assert(self.nodes[was[ok] as int].node_order > order);
                } else if k == pos {
                    self.lemma_children_rise(0, oj, pos - 1);
                } else {
                    self.lemma_children_rise(0, oj, ok);
                }
            } else {
                assert(v.children[q][j] == self.children[q][j]);
                assert(v.children[q][k] == self.children[q][k]);
                assert(self.is_node(self.children[q][j] as int));
                assert(self.is_node(self.children[q][k] as int));
                self.lemma_children_rise(q, j, k);
            }
        }
        assert forall|q: int, j: int, k: int|
            0 <= q < v.children.len() && 0 <= j < k < v.children[q].len() implies #[trigger] v.children[q][j]
            != #[trigger] v.children[q][k] by {
            if q == 0 {
                lemma_inserted(was, pos, 1usize, j);
                lemma_inserted(was, pos, 1usize, k);
                let oj = if j < pos {
                    j
                } else {
                    j - 1
                };
                let ok = if k < pos {
                    k
                } else {
                    k - 1
                };
                if j != pos {
                    assert(self.is_node(was[oj] as int));
                }
                if k != pos {
                    assert(self.is_node(was[ok] as int));
                }
                if j != pos && k != pos {
                    assert(was[oj] != was[ok]);
                }
            } else {
                assert(v.children[q][j] == self.children[q][j]);
                assert(v.children[q][k] == self.children[q][k]);
                assert(self.children[q][j] != self.children[q][k]);
            }
        }
        assert forall|c: int| v.is_node(c) implies v.children[(#[trigger] v.nodes[c]).parent_node_id as int].contains(
            c as usize,
        ) by {
            if c == 1 {
                lemma_inserted(was, pos, 1usize, pos);
                assert(v.children[0][pos] == 1);
            } else {
                assert(self.is_node(c));
                let q = self.nodes[c].parent_node_id as int;
                let k = choose|k: int|
                    0 <= k < self.children[q].len() && self.children[q][k] == c as usize;
                if q == 0 {
                    let nk = if k < pos {
                        k
                    } else {
                        k + 1
                    };
                    lemma_inserted(was, pos, 1usize, nk);
                    assert(v.children[q][nk] == c as usize);
                } else {
                    assert(v.children[q][k] == c as usize);
                }
            }
        }
        assert(v.children_wf());
        assert forall|a: int| 0 <= a < v.attrs.len() implies {
            &&& (#[trigger] v.attrs[a]).parent_node_id < v.nodes.len()
            &&& v.nodes[v.attrs[a].parent_node_id as int].node_type == NodeType::Element
            &&& v.attrs[a].inferred_type is Some <==> v.options.infer_types
        } by {
            assert(self.attrs[a].parent_node_id < self.nodes.len());
        }
        assert(v.attrs_wf());
    }

    /// A store that takes an attribute keeps the rules.
    pub proof fn lemma_with_attr_wf(self, row: AttrRowView)
        requires
            self.wf(),
            self.accepts_attr(row),
        ensures
            self.with_attr(row).wf(),
    {
        let v = self.with_attr(row);
        let id = self.attrs.len() + 1;
        let p = row.parent_node_id as int;
        assert(v.nodes_wf());
        assert(v.children_wf());
        assert forall|q: int, k: int|
            0 <= q < v.attr_lists.len() && 0 <= k < v.attr_lists[q].len() implies {
            &&& v.is_attr(#[trigger] v.attr_lists[q][k] as int)
            &&& v.attr_row(v.attr_lists[q][k] as int).parent_node_id == q
        } by {
            if q == p && k == self.attr_lists[p].len() {
            } else {
                assert(v.attr_lists[q][k] == self.attr_lists[q][k]);
                assert(self.is_attr(self.attr_lists[q][k] as int));
            }
        }
        assert forall|q: int, j: int, k: int|
            0 <= q < v.attr_lists.len() && 0 <= j < k < v.attr_lists[q].len() implies #[trigger] v.attr_lists[q][j]
            < #[trigger] v.attr_lists[q][k] by {
            assert(v.attr_lists[q][j] == self.attr_lists[q][j]);
            assert(self.is_attr(self.attr_lists[q][j] as int));
            if q == p && k == self.attr_lists[p].len() {
            } else {
                assert(v.attr_lists[q][k] == self.attr_lists[q][k]);
            }
        }
        assert forall|a: int| 0 <= a < v.attrs.len() implies v.attr_lists[(#[trigger] v.attrs[a]).parent_node_id as int].contains(
            (a + 1) as usize,
        ) by {
            if a + 1 == id {
                assert(v.attr_lists[p][self.attr_lists[p].len() as int] == id);
            } else {
                let q = self.attrs[a].parent_node_id as int;
                let k = choose|k: int|
                    0 <= k < self.attr_lists[q].len() && self.attr_lists[q][k] == (a + 1) as usize;
                assert(v.attr_lists[q][k] == (a + 1) as usize);
            }
        }
        assert(v.attrs_wf());
    }
}

/// The rows of a node table as plain values.
pub open spec fn node_rows_view(rows: Seq<NodeRow>) -> Seq<NodeRowView> {
    rows.map_values(|r: NodeRow| r@)
}

/// The rows of an attribute table as plain values.
pub open spec fn attr_rows_view(rows: Seq<AttrRow>) -> Seq<AttrRowView> {
    rows.map_values(|r: AttrRow| r@)
}

/// Lists of ids as plain values.
pub open spec fn id_lists_view(lists: Seq<Vec<usize>>) -> Seq<Seq<usize>> {
    lists.map_values(|l: Vec<usize>| l@)
}

/// An XML document as two tables of rows.
#[derive(Debug)]
pub struct DocumentDb {
    nodes: Vec<NodeRow>,
    attrs: Vec<AttrRow>,
    children: Vec<Vec<usize>>,
    attr_lists: Vec<Vec<usize>>,
    options: ParseOptions,
}

impl View for DocumentDb {
    type V = DocumentView;

    closed spec fn view(&self) -> DocumentView {
        DocumentView {
            nodes: node_rows_view(self.nodes@),
            attrs: attr_rows_view(self.attrs@),
            children: id_lists_view(self.children@),
            attr_lists: id_lists_view(self.attr_lists@),
            options: self.options,
        }
    }
}

impl DocumentDb {
    /// A store with the two reserved rows and nothing else.
    pub fn create_in_memory(options: ParseOptions) -> (db: DocumentDb)
        ensures
            db@ == DocumentView::empty(options),
            db@.wf(),
    {
        let inferred = if options.infer_types {
            Some(InferredType::Empty)
        } else {
            None
        };
        let sentinel = NodeRow {
            parent_node_id: 0,
            node_order: 0,
            node_type: NodeType::Document,
            node_ns: None,
            node_name: None,
            node_value: None,
            buffer_position: 0,
            inferred_type: inferred,
        };
        let root = NodeRow {
            parent_node_id: 0,
            node_order: 0,
            node_type: NodeType::Element,
            node_ns: None,
            node_name: None,
            node_value: None,
            buffer_position: 0,
            inferred_type: inferred,
        };
        let mut nodes: Vec<NodeRow> = Vec::new();
        nodes.push(sentinel);
        nodes.push(root);
        let mut children: Vec<Vec<usize>> = Vec::new();
        children.push(Vec::new());
        children.push(Vec::new());
        let mut attr_lists: Vec<Vec<usize>> = Vec::new();
        attr_lists.push(Vec::new());
        attr_lists.push(Vec::new());
        let db = DocumentDb { nodes, attrs: Vec::new(), children, attr_lists, options };
        proof {
            assert(db@.nodes =~= DocumentView::empty(options).nodes);
            assert(db@.attrs =~= DocumentView::empty(options).attrs);
            assert(db@.children =~= DocumentView::empty(options).children);
            assert(db@.attr_lists =~= DocumentView::empty(options).attr_lists);
            DocumentView::lemma_empty_wf(options);
        }
        db
    }

    /// The options that the store was created with.
    pub fn options(&self) -> (o: ParseOptions)
        ensures
            o == self@.options,
    {
        self.options
    }

    /// The place at which a node with an order goes among the children of a
    /// parent.
    fn place(&self, parent: usize, order: usize) -> (r: usize)
        requires
            self@.wf(),
            parent < self@.nodes.len(),
        ensures
            r == self@.place_for(parent as int, order),
            r <= self@.children[parent as int].len(),
    {
        let list = &self.children[parent];
        let mut at = list.len();
        proof {
            self@.lemma_place_in(list@, at as int, order);
        }
        let mut found = false;
        while at > 0 && !found
            invariant
                at <= list@.len(),
                self@.wf(),
                parent < self@.nodes.len(),
                list@ == self@.children[parent as int],
                self@.place_for(parent as int, order) == self@.place_in(list@, at as int, order),
                found ==> at > 0 && self@.nodes[list@[at - 1] as int].node_order <= order,
            decreases at + (if found { 0int } else { 1int }),
        {
            let c = list[at - 1];
            assert(self@.is_node(self@.children[parent as int][at - 1] as int));
            if self.nodes[c].node_order <= order {
                found = true;
            } else {
                at -= 1;
            }
        }
        at
    }

    /// Stores a node under the next free id, among its parent's children
    /// where its order puts it, or refuses it and leaves the store as it
    /// was.
    pub(crate) fn insert_node_row(&mut self, node_id: usize, row: NodeRow) -> (r: Result<
        (),
        DbError,
    >)
        requires
            old(self)@.wf(),
        ensures
            final(self)@.wf(),
            match old(self)@.node_refusal(node_id as int, row@) {
                Some(e) => r == Err::<(), DbError>(e) && final(self)@ == old(self)@,
                None => r is Ok && final(self)@ == old(self)@.with_node(row@),
            },
    {
        let n = self.nodes.len();
        if row.inferred_type.is_some() != self.options.infer_types {
            return Err(DbError::MissingColumn);
        }
        if node_id != n || n == usize::MAX || row.parent_node_id >= n {
            return Err(DbError::Constraint);
        }
        if row.parent_node_id != 0 && !self.is_node(row.parent_node_id) {
            return Err(DbError::Constraint);
        }
        match row.node_type {
            NodeType::Document => {
                return Err(DbError::Constraint);
            },
            NodeType::Element => {
                if row.node_name.is_none() {
                    return Err(DbError::Constraint);
                }
            },
            _ => {},
        }
        let p = row.parent_node_id;
        let place = self.place(p, row.node_order);
        proof {
            old(self)@.lemma_with_node_wf(row@);
        }
        self.nodes.push(row);
        self.children.push(Vec::new());
        self.attr_lists.push(Vec::new());
        self.children[p].insert(place, node_id);
        proof {
            let v = old(self)@.with_node(row@);
            assert(self@.nodes =~= v.nodes);
            assert(self@.attrs =~= v.attrs);
            assert(self@.children =~= v.children);
            assert(self@.attr_lists =~= v.attr_lists);
        }
        Ok(())
    }

    /// Fills in the row of the root element and puts it among the nodes at
    /// the top of the document where its order puts it. It is refused, and
    /// the store stays as it was, where the row is filled in already, and
    /// nowhere else.
    pub(crate) fn populate_root(
        &mut self,
        ns: Option<String>,
        name: String,
        position: usize,
        order: usize,
    ) -> (r: Result<(), DbError>)
        requires
            old(self)@.wf(),
        ensures
            final(self)@.wf(),
            old(self)@.accepts_root() ==> r is Ok && final(self)@ == old(self)@.with_root(
                ns.deep_view(),
                name@,
                position,
                order,
            ),
            !old(self)@.accepts_root() ==> r == Err::<(), DbError>(DbError::Constraint)
                && final(self)@ == old(self)@,
    {
        if self.nodes[1].node_name.is_some() {
            return Err(DbError::Constraint);
        }
        let place = self.place(0, order);
        proof {
            old(self)@.lemma_with_root_wf(ns.deep_view(), name@, position, order);
        }
        self.nodes[1].node_ns = ns;
        self.nodes[1].node_name = Some(name);
        self.nodes[1].buffer_position = position;
        self.nodes[1].node_order = order;
        self.children[0].insert(place, 1);
        proof {
            let v = old(self)@.with_root(ns.deep_view(), name@, position, order);
            assert(self@.nodes =~= v.nodes);
            assert(self@.attrs =~= v.attrs);
            assert(self@.children =~= v.children);
            assert(self@.attr_lists =~= v.attr_lists);
        }
        Ok(())
    }

    /// Stores an attribute under the next free id, or refuses it and leaves
    /// the store as it was.
    pub(crate) fn insert_attr_row(&mut self, row: AttrRow) -> (r: Result<(), DbError>)
        requires
            old(self)@.wf(),
        ensures
            final(self)@.wf(),
            match old(self)@.attr_refusal(row@) {
                Some(e) => r == Err::<(), DbError>(e) && final(self)@ == old(self)@,
                None => r is Ok && final(self)@ == old(self)@.with_attr(row@),
            },
    {
        if row.inferred_type.is_some() != self.options.infer_types {
            return Err(DbError::MissingColumn);
        }
        let n = self.attrs.len();
        if n >= usize::MAX - 1 || row.parent_node_id >= self.nodes.len() {
            return Err(DbError::Constraint);
        }
        let p = row.parent_node_id;
        match self.nodes[p].node_type {
            NodeType::Element => {},
            _ => {
                return Err(DbError::Constraint);
            },
        }
        proof {
            old(self)@.lemma_with_attr_wf(row@);
        }
        self.attrs.push(row);
        self.attr_lists[p].push(n + 1);
        proof {
            let v = old(self)@.with_attr(row@);
            assert(self@.nodes =~= v.nodes);
            assert(self@.attrs =~= v.attrs);
            assert(self@.children =~= v.children);
            assert(self@.attr_lists =~= v.attr_lists);
        }
        Ok(())
    }

    /// How many rows the node table has, the two reserved rows among them.
    pub fn node_count(&self) -> (r: usize)
        ensures
            r == self@.nodes.len(),
    {
        self.nodes.len()
    }

    /// How many attributes there are.
    pub fn attr_count(&self) -> (r: usize)
        ensures
            r == self@.attrs.len(),
    {
        self.attrs.len()
    }

    /// How many rows of the node table are elements, the root's row among
    /// them whether it is filled in or not.
    pub fn element_count(&self) -> (r: usize)
        ensures
            r == self@.element_rows(),
    {
        let ghost pred = |r: NodeRowView| r.node_type == NodeType::Element;
        let mut count: usize = 0;
        let mut i: usize = 0;
        proof {
            reveal(Seq::filter);
            assert(self@.nodes.take(0) == Seq::<NodeRowView>::empty());
        }
        while i < self.nodes.len()
            invariant
                i <= self.nodes.len(),
                count <= i,
                pred == |r: NodeRowView| r.node_type == NodeType::Element,
                count == self@.nodes.take(i as int).filter(pred).len(),
            decreases self.nodes.len() - i,
        {
            proof {
                lemma_filter_take_step(self@.nodes, pred, i as int);
            }
            if self.nodes[i].node_type == NodeType::Element {
                count += 1;
            }
            i += 1;
        }
        assert(self@.nodes.take(i as int) == self@.nodes);
        count
    }

    /// The id of the parent of a row. The sentinel is its own parent.
    pub fn parent_element_id(&self, node_id: usize) -> (r: Result<usize, DbError>)
        ensures
            node_id < self@.nodes.len() ==> r == Ok::<usize, DbError>(
                self@.nodes[node_id as int].parent_node_id,
            ),
            node_id >= self@.nodes.len() ==> r == Err::<usize, DbError>(DbError::NotFound),
    {
        if node_id < self.nodes.len() {
            Ok(self.nodes[node_id].parent_node_id)
        } else {
            Err(DbError::NotFound)
        }
    }

    /// Whether an id names a node of the document.
    pub fn is_node(&self, node_id: usize) -> (r: bool)
        requires
            self@.wf(),
        ensures
            r == self@.is_node(node_id as int),
    {
        1 <= node_id && node_id < self.nodes.len() && (node_id != 1
            || self.nodes[1].node_name.is_some())
    }

    /// Whether an id names an element of the document.
    pub fn is_element(&self, node_id: usize) -> (r: bool)
        requires
            self@.wf(),
        ensures
            r == self@.is_element(node_id as int),
    {
        self.is_node(node_id) && self.nodes[node_id].node_type == NodeType::Element
    }

    /// The record of the element in a row.
    fn element_at(&self, node_id: usize) -> (r: Element)
        requires
            node_id < self@.nodes.len(),
        ensures
            r@ == self@.element(node_id as int),
    {
        let row = &self.nodes[node_id];
        Element {
            node_id,
            ns: clone_opt(&row.node_ns),
            name: match &row.node_name {
                Some(s) => s.clone(),
                None => String::new(),
            },
        }
    }

    /// The record of the node in a row.
    fn node_at(&self, node_id: usize) -> (r: Node)
        requires
            1 <= node_id < self@.nodes.len(),
            self@.wf(),
        ensures
            r@ == self@.node(node_id as int),
    {
        let row = &self.nodes[node_id];
        Node::from(
            RawNode {
                node_id,
                node_type: row.node_type,
                ns: clone_opt(&row.node_ns),
                name: clone_opt(&row.node_name),
                value: clone_opt(&row.node_value),
            },
        )
    }

    /// The record of the attribute in a row.
    fn attr_at(&self, attr_id: usize) -> (r: Attr)
        requires
            1 <= attr_id <= self@.attrs.len(),
        ensures
            r@ == self@.attr(attr_id as int),
    {
        let row = &self.attrs[attr_id - 1];
        Attr {
            attr_id,
            ns: clone_opt(&row.attr_ns),
            name: row.attr_name.clone(),
            value: row.attr_value.clone(),
        }
    }

    /// The element with an id. Fails where the id names no element of the
    /// document; the row kept for the root names none as long as it has no
    /// name.
    pub fn element(&self, node_id: usize) -> (r: Result<Element, DbError>)
        requires
            self@.wf(),
        ensures
            self@.is_element(node_id as int) ==> r is Ok && r->Ok_0@ == self@.element(
                node_id as int,
            ),
            !self@.is_element(node_id as int) ==> r is Err && r->Err_0 == DbError::NotFound,
    {
        if self.is_element(node_id) {
            Ok(self.element_at(node_id))
        } else {
            Err(DbError::NotFound)
        }
    }

    /// The root element. Fails where the document has none.
    pub fn root(&self) -> (r: Result<Element, DbError>)
        requires
            self@.wf(),
        ensures
            self@.root_populated() ==> r is Ok && r->Ok_0@ == self@.element(1),
            !self@.root_populated() ==> r is Err && r->Err_0 == DbError::NotFound,
    {
        self.element(1)
    }

    /// The node with an id, as the record of its kind. Fails where the id
    /// names no node of the document: where no row has it, for the
    /// sentinel, and for the row kept for the root as long as that row has
    /// no name.
    pub fn node(&self, node_id: usize) -> (r: Result<Node, DbError>)
        requires
            self@.wf(),
        ensures
            self@.is_node(node_id as int) ==> r is Ok && r->Ok_0@ == self@.node(node_id as int),
            !self@.is_node(node_id as int) ==> r is Err && r->Err_0 == DbError::NotFound,
            node_id == 0 || node_id >= self@.nodes.len() || (node_id == 1
                && self@.nodes[1].node_name is None) ==> r is Err,
    {
        if self.is_node(node_id) {
            Ok(self.node_at(node_id))
        } else {
            Err(DbError::NotFound)
        }
    }

    /// The kind of a row. Fails where the id names no row.
    pub fn node_type(&self, node_id: usize) -> (r: Result<NodeType, DbError>)
        ensures
            node_id < self@.nodes.len() ==> r == Ok::<NodeType, DbError>(
                self@.nodes[node_id as int].node_type,
            ),
            node_id >= self@.nodes.len() ==> r == Err::<NodeType, DbError>(DbError::NotFound),
    {
        if node_id < self.nodes.len() {
            Ok(self.nodes[node_id].node_type)
        } else {
            Err(DbError::NotFound)
        }
    }

    /// The id of the element that an attribute belongs to. Fails where the
    /// id names no attribute.
    pub fn attr_parent_id(&self, attr_id: usize) -> (r: Result<usize, DbError>)
        ensures
            self@.is_attr(attr_id as int) ==> r == Ok::<usize, DbError>(
                self@.attr_row(attr_id as int).parent_node_id,
            ),
            !self@.is_attr(attr_id as int) ==> r == Err::<usize, DbError>(DbError::NotFound),
    {
        if 1 <= attr_id && attr_id <= self.attrs.len() {
            Ok(self.attrs[attr_id - 1].parent_node_id)
        } else {
            Err(DbError::NotFound)
        }
    }

    /// The byte offset at which the token of a row began.
    pub fn buffer_position(&self, node_id: usize) -> (r: Result<u64, DbError>)
        ensures
            node_id < self@.nodes.len() ==> r == Ok::<u64, DbError>(
                self@.nodes[node_id as int].buffer_position as u64,
            ),
            node_id >= self@.nodes.len() ==> r == Err::<u64, DbError>(DbError::NotFound),
    {
        if node_id < self.nodes.len() {
            Ok(self.nodes[node_id].buffer_position as u64)
        } else {
            Err(DbError::NotFound)
        }
    }

    /// The byte offset at which an attribute began.
    pub fn attr_buffer_position(&self, attr_id: usize) -> (r: Result<u64, DbError>)
        ensures
            self@.is_attr(attr_id as int) ==> r == Ok::<u64, DbError>(
                self@.attr_row(attr_id as int).buffer_position as u64,
            ),
            !self@.is_attr(attr_id as int) ==> r == Err::<u64, DbError>(DbError::NotFound),
    {
        if 1 <= attr_id && attr_id <= self.attrs.len() {
            Ok(self.attrs[attr_id - 1].buffer_position as u64)
        } else {
            Err(DbError::NotFound)
        }
    }

    /// The nodes under a parent, in rising `node_order`. The sentinel is
    /// never among them, and the row kept for the root is not as long as it
    /// has no name.
    pub fn child_nodes(&self, parent_node_id: usize) -> (r: Vec<Node>)
        requires
            self@.wf(),
        ensures
            nodes_view(r@) == self@.child_nodes(parent_node_id as int),
            forall|k: int|
                0 <= k < r.len() ==> (#[trigger] r[k])@.node_id != 0 && (r[k]@.node_id == 1
                    ==> self@.nodes[1].node_name is Some),
    {
        let mut out: Vec<Node> = Vec::new();
        if parent_node_id >= self.nodes.len() {
            assert(nodes_view(out@) =~= self@.child_nodes(parent_node_id as int));
            return out;
        }
        let list = &self.children[parent_node_id];
        let ghost ids = self@.child_ids(parent_node_id as int);
        let mut k: usize = 0;
        while k < list.len()
            invariant
                k <= list.len(),
                self@.wf(),
                parent_node_id < self@.nodes.len(),
                list@ == ids,
                ids == self@.child_ids(parent_node_id as int),
                out.len() == k,
                forall|j: int| 0 <= j < k ==> (#[trigger] out[j])@ == self@.node(ids[j] as int),
            decreases list.len() - k,
        {
            let c = list[k];
            assert(self@.is_node(self@.children[parent_node_id as int][k as int] as int));
            out.push(self.node_at(c));
            k += 1;
        }
        assert(nodes_view(out@) =~= self@.child_nodes(parent_node_id as int));
        assert forall|k: int| 0 <= k < out.len() implies (#[trigger] out[k])@.node_id != 0 && (
        out[k]@.node_id == 1 ==> self@.nodes[1].node_name is Some) by {
            assert(self@.is_node(self@.children[parent_node_id as int][k] as int));
        }
        out
    }

    /// The nodes at the top of the document, in rising `node_order`: the
    /// root among them once it has its name, the sentinel never.
    pub fn document_child_nodes(&self) -> (r: Vec<Node>)
        requires
            self@.wf(),
        ensures
            nodes_view(r@) == self@.child_nodes(0),
            forall|k: int|
                0 <= k < r.len() ==> (#[trigger] r[k])@.node_id != 0 && (r[k]@.node_id == 1
                    ==> self@.nodes[1].node_name is Some),
    {
        self.child_nodes(0)
    }

    /// The elements under a parent, in rising `node_order`. The row kept
    /// for the root is not among them as long as it has no name.
    pub fn children(&self, parent_node_id: usize) -> (r: Vec<Element>)
        requires
            self@.wf(),
        ensures
            elements_view(r@) == self@.children(parent_node_id as int),
            self@.nodes[1].node_name is None ==> forall|k: int|
                0 <= k < r.len() ==> (#[trigger] r[k])@.node_id != 1,
    {
        let mut out: Vec<Element> = Vec::new();
        let ghost pred = |c: usize| self@.is_element(c as int);
        let ghost ids = self@.child_ids(parent_node_id as int);
        proof {
            reveal(Seq::filter);
            assert(ids.take(0) == Seq::<usize>::empty());
        }
        if parent_node_id >= self.nodes.len() {
            assert(ids == ids.take(0));
            assert(elements_view(out@) =~= self@.children(parent_node_id as int));
            return out;
        }
        let list = &self.children[parent_node_id];
        let mut k: usize = 0;
        while k < list.len()
            invariant
                k <= list.len(),
                self@.wf(),
                parent_node_id < self@.nodes.len(),
                list@ == ids,
                ids == self@.child_ids(parent_node_id as int),
                pred == |c: usize| self@.is_element(c as int),
                elements_view(out@) == ids.take(k as int).filter(pred).map_values(
                    |c: usize| self@.element(c as int),
                ),
            decreases list.len() - k,
        {
            let c = list[k];
            proof {
                lemma_filter_take_step(ids, pred, k as int);
                assert(self@.is_node(self@.children[parent_node_id as int][k as int] as int));
            }
            if self.nodes[c].node_type == NodeType::Element {
                let ghost before = out@;
                out.push(self.element_at(c));
                assert(elements_view(out@) =~= elements_view(before).push(
                    self@.element(c as int),
                ));
                assert(ids.take(k + 1).filter(pred).map_values(
                    |c: usize| self@.element(c as int),
                ) =~= ids.take(k as int).filter(pred).map_values(
                    |c: usize| self@.element(c as int),
                ).push(self@.element(c as int)));
            }
            k += 1;
        }
        assert(ids.take(k as int) == ids);
        assert forall|j: int| 0 <= j < out.len() && self@.nodes[1].node_name is None implies (
        #[trigger] out[j])@.node_id != 1 by {
            let e = elements_view(out@)[j];
            assert(e == out[j]@);
            assert(self@.children(parent_node_id as int).contains(e));
            self@.lemma_children_members(parent_node_id as int, e);
        }
        out
    }

    /// A name as it is matched: in lower case where the store ignores case.
    fn normalize(&self, name: &str) -> (r: String)
        ensures
            r@ == self@.normalized(name@),
    {
        if self.options.case_insensitive {
            to_lowercase(name)
        } else {
            name.to_owned()
        }
    }

    /// The elements under a parent that have the given name, in the order
    /// of the document. The name is matched in lower case where the store
    /// ignores case.
    pub fn children_by_name(&self, parent_node_id: usize, element_name: &str) -> (r: Vec<Element>)
        requires
            self@.wf(),
        ensures
            elements_view(r@) == self@.children_by_name(parent_node_id as int, element_name@),
    {
        let name = self.normalize(element_name);
        let all = self.children(parent_node_id);
        let ghost pred = |e: ElementView| e.name == self@.normalized(element_name@);
        let ghost views = elements_view(all@);
        let mut out: Vec<Element> = Vec::new();
        let mut k: usize = 0;
        proof {
            reveal(Seq::filter);
            assert(views.take(0) == Seq::<ElementView>::empty());
            assert(elements_view(out@) =~= views.take(0).filter(pred));
        }
        while k < all.len()
            invariant
                k <= all.len(),
                views == elements_view(all@),
                name@ == self@.normalized(element_name@),
                pred == |e: ElementView| e.name == self@.normalized(element_name@),
                elements_view(out@) == views.take(k as int).filter(pred),
            decreases all.len() - k,
        {
            proof {
                lemma_filter_take_step(views, pred, k as int);
            }
            if all[k].name == name {
                let ghost before = out@;
                out.push(all[k].clone_element());
                assert(elements_view(out@) =~= elements_view(before).push(views[k as int]));
            }
            k += 1;
        }
        assert(views.take(k as int) == views);
        out
    }

    /// The attributes of a node, in rising order of their ids.
    pub fn attrs(&self, node_id: usize) -> (r: Vec<Attr>)
        requires
            self@.wf(),
        ensures
            attrs_view(r@) == self@.attrs(node_id as int),
    {
        let mut out: Vec<Attr> = Vec::new();
        if node_id >= self.nodes.len() {
            assert(attrs_view(out@) =~= self@.attrs(node_id as int));
            return out;
        }
        let list = &self.attr_lists[node_id];
        let ghost ids = self@.attr_ids(node_id as int);
        let mut k: usize = 0;
        while k < list.len()
            invariant
                k <= list.len(),
                self@.wf(),
                node_id < self@.nodes.len(),
                list@ == ids,
                ids == self@.attr_ids(node_id as int),
                out.len() == k,
                forall|j: int| 0 <= j < k ==> (#[trigger] out[j])@ == self@.attr(ids[j] as int),
            decreases list.len() - k,
        {
            let a = list[k];
            assert(self@.is_attr(self@.attr_lists[node_id as int][k as int] as int));
            out.push(self.attr_at(a));
            k += 1;
        }
        assert(attrs_view(out@) =~= self@.attrs(node_id as int));
        out
    }

    /// The attribute with an id. Fails where there is none.
    pub fn attr(&self, attr_id: usize) -> (r: Result<Attr, DbError>)
        ensures
            self@.is_attr(attr_id as int) ==> r is Ok && r->Ok_0@ == self@.attr(attr_id as int),
            !self@.is_attr(attr_id as int) ==> r is Err && r->Err_0 == DbError::NotFound,
    {
        if 1 <= attr_id && attr_id <= self.attrs.len() {
            Ok(self.attr_at(attr_id))
        } else {
            Err(DbError::NotFound)
        }
    }

    /// The first attribute of a node that has the given name and namespace,
    /// if there is one. The name is matched in lower case where the store
    /// ignores case. No namespace, or an empty one, asks for an attribute
    /// without a namespace.
    pub fn attr_by_name(&self, node_id: usize, attr_name: &str, attr_ns: Option<&str>) -> (r:
        Option<Attr>)
        requires
            self@.wf(),
        ensures
            r.deep_view() == self@.attr_by_name(
                node_id as int,
                attr_name@,
                opt_str_view(attr_ns),
            ),
    {
        if node_id >= self.nodes.len() {
            return None;
        }
        let name = self.normalize(attr_name);
        let wanted: Option<&str> = match attr_ns {
            Some(t) => if t.unicode_len() > 0 {
                Some(t)
            } else {
                None
            },
            None => None,
        };
        let list = &self.attr_lists[node_id];
        let ghost ids = self@.attr_ids(node_id as int);
        let ghost ns = opt_str_view(attr_ns);
        let mut k: usize = 0;
        while k < list.len()
            invariant
                k <= list.len(),
                self@.wf(),
                node_id < self@.nodes.len(),
                list@ == ids,
                ids == self@.attr_ids(node_id as int),
                name@ == self@.normalized(attr_name@),
                ns == opt_str_view(attr_ns),
                opt_str_view(wanted) == DocumentView::wanted_ns(ns),
                self@.first_attr_match(ids, 0, attr_name@, ns) == self@.first_attr_match(
                    ids,
                    k as int,
                    attr_name@,
                    ns,
                ),
            decreases list.len() - k,
        {
            let a = list[k];
            assert(self@.is_attr(self@.attr_lists[node_id as int][k as int] as int));
            let row = &self.attrs[a - 1];
            let same_ns = match (&row.attr_ns, wanted) {
                (Some(x), Some(y)) => str_eq(x.as_str(), y),
                (None, None) => true,
                _ => false,
            };
            if same_ns && row.attr_name == name {
                return Some(self.attr_at(a));
            }
            k += 1;
        }
        None
    }

    /// Whether any row of the node table has the id as its parent. The
    /// sentinel is its own parent.
    pub fn has_children(&self, node_id: usize) -> (r: bool)
        requires
            self@.wf(),
        ensures
            r == self@.has_children(node_id as int),
    {
        if node_id == 0 {
            assert(self@.nodes[0].parent_node_id == 0);
            return true;
        }
        if node_id >= self.nodes.len() {
            return false;
        }
        let any = self.children[node_id].len() > 0;
        proof {
            if any {
                let c = self@.children[node_id as int][0];
                assert(self@.is_node(c as int));
                assert(self@.nodes[c as int].parent_node_id == node_id);
            } else {
                assert forall|j: int| 0 <= j < self@.nodes.len() implies (
                #[trigger] self@.nodes[j]).parent_node_id != node_id by {
                    if self@.nodes[j].parent_node_id == node_id {
                        assert(self@.is_node(j));
                        assert(self@.children[node_id as int].contains(j as usize));
                    }
                }
            }
        }
        any
    }

    /// The ids of the nodes under a parent, in rising `node_order`.
    pub fn child_ids(&self, parent_node_id: usize) -> (r: &[usize])
        requires
            parent_node_id < self@.nodes.len(),
            self@.wf(),
        ensures
            r@ == self@.child_ids(parent_node_id as int),
    {
        self.children[parent_node_id].as_slice()
    }

    /// A name as it is matched: in lower case where the store ignores case.
    pub fn normalize_name(&self, name: &str) -> (r: String)
        ensures
            r@ == self@.normalized(name@),
    {
        self.normalize(name)
    }

    /// The place of a node among the children of its parent.
    pub fn sibling_place(&self, node_id: usize) -> (k: usize)
        requires
            self@.wf(),
            self@.is_node(node_id as int),
        ensures
            k == self@.sibling_index(node_id as int),
            k < self@.children[self@.nodes[node_id as int].parent_node_id as int].len(),
    {
        let p = self.nodes[node_id].parent_node_id;
        let list = &self.children[p];
        let ghost at = choose|k: int| 0 <= k < list@.len() && list@[k] == node_id;
        assert(self@.children[p as int].contains(node_id));
        let mut k: usize = 0;
        while k < list.len() && list[k] != node_id
            invariant
                k <= at < list@.len(),
                list@[at] == node_id,
            decreases list.len() - k,
        {
            k += 1;
        }
        proof {
            self@.lemma_sibling_index(node_id as int, k as int);
        }
        k
    }

    /// The node just before a node among the children of its parent. Fails
    /// where the id names no node of the document, and where the node is
    /// the first child.
    pub fn prev_sibling_element_id(&self, node_id: usize) -> (r: Result<usize, DbError>)
        requires
            self@.wf(),
        ensures
            match self@.prev_sibling(node_id as int) {
                Some(s) => r == Ok::<usize, DbError>(s),
                None => r == Err::<usize, DbError>(DbError::NotFound),
            },
    {
        if !self.is_node(node_id) {
            return Err(DbError::NotFound);
        }
        let k = self.sibling_place(node_id);
        if k > 0 {
            Ok(self.children[self.nodes[node_id].parent_node_id][k - 1])
        } else {
            Err(DbError::NotFound)
        }
    }

    /// The node just after a node among the children of its parent. Fails
    /// where the id names no node of the document, and where the node is
    /// the last child.
    pub fn next_sibling_element_id(&self, node_id: usize) -> (r: Result<usize, DbError>)
        requires
            self@.wf(),
        ensures
            match self@.next_sibling(node_id as int) {
                Some(s) => r == Ok::<usize, DbError>(s),
                None => r == Err::<usize, DbError>(DbError::NotFound),
            },
    {
        if !self.is_node(node_id) {
            return Err(DbError::NotFound);
        }
        let k = self.sibling_place(node_id);
        let list = &self.children[self.nodes[node_id].parent_node_id];
        let n = list.len();
        if k + 1 < n {
            Ok(list[k + 1])
        } else {
            Err(DbError::NotFound)
        }
    }

    /// The nearest element before a node among the children of its parent,
    /// if there is one.
    pub fn prev_sibling_element(&self, node_id: usize) -> (r: Option<usize>)
        requires
            self@.wf(),
        ensures
            r == self@.prev_sibling_element(node_id as int),
            r is Some ==> self@.is_element(r->0 as int),
    {
        if !self.is_node(node_id) {
            return None;
        }
        let p = self.nodes[node_id].parent_node_id;
        let list = &self.children[p];
        let mut at = self.sibling_place(node_id);
        while at > 0
            invariant
                at <= list@.len(),
                self@.wf(),
                self@.is_node(node_id as int),
                p < self@.nodes.len(),
                p == self@.nodes[node_id as int].parent_node_id,
                list@ == self@.children[p as int],
                self@.element_before(list@, at as int) == self@.prev_sibling_element(
                    node_id as int,
                ),
            decreases at,
        {
            let c = list[at - 1];
            assert(self@.is_node(self@.children[p as int][at - 1] as int));
            if self.nodes[c].node_type == NodeType::Element {
                return Some(c);
            }
            at -= 1;
        }
        None
    }

    /// The nearest element after a node among the children of its parent,
    /// if there is one.
    pub fn next_sibling_element(&self, node_id: usize) -> (r: Option<usize>)
        requires
            self@.wf(),
        ensures
            r == self@.next_sibling_element(node_id as int),
            r is Some ==> self@.is_element(r->0 as int),
    {
        if !self.is_node(node_id) {
            return None;
        }
        let p = self.nodes[node_id].parent_node_id;
        let list = &self.children[p];
        let n = list.len();
        let mut at = self.sibling_place(node_id) + 1;
        while at < n
            invariant
                at <= n,
                n == list@.len(),
                self@.wf(),
                self@.is_node(node_id as int),
                p < self@.nodes.len(),
                p == self@.nodes[node_id as int].parent_node_id,
                list@ == self@.children[p as int],
                self@.element_from(list@, at as int) == self@.next_sibling_element(
                    node_id as int,
                ),
            decreases n - at,
        {
            let c = list[at];
            assert(self@.is_node(self@.children[p as int][at as int] as int));
            if self.nodes[c].node_type == NodeType::Element {
                return Some(c);
            }
            at += 1;
        }
        None
    }

    /// For every row, whether its node stands under the given one.
    fn marks_under(&self, parent_node_id: usize) -> (marks: Vec<bool>)
        requires
            self@.wf(),
        ensures
            marks.len() == self@.nodes.len(),
            forall|c: int|
                0 <= c < marks.len() ==> #[trigger] marks[c] == self@.is_under(
                    parent_node_id as int,
                    c,
                ),
    {
        let n = self.nodes.len();
        let mut marks: Vec<bool> = Vec::new();
        marks.push(false);
        let mut c: usize = 1;
        while c < n
            invariant
                1 <= c <= n,
                n == self@.nodes.len(),
                self@.wf(),
                marks.len() == c,
                forall|j: int|
                    0 <= j < c ==> #[trigger] marks[j] == self@.is_under(parent_node_id as int, j),
            decreases n - c,
        {
            let parent = self.nodes[c].parent_node_id;
            assert(parent < c) by {
                assert(self@.nodes[c as int].parent_node_id < c);
            }
            let under = self.is_node(c) && (parent == parent_node_id || marks[parent]);
            marks.push(under);
            c += 1;
        }
        marks
    }

    /// The nodes that stand under a node, at any depth, in rising order of
    /// their ids. Under the sentinel stand all nodes of the document.
    pub fn descendent_nodes(&self, parent_node_id: usize) -> (r: Vec<Node>)
        requires
            self@.wf(),
        ensures
            nodes_view(r@) == self@.descendent_nodes(parent_node_id as int),
    {
        let marks = self.marks_under(parent_node_id);
        let ghost pred = |c: usize| self@.is_under(parent_node_id as int, c as int);
        let ghost ids = self@.all_ids();
        let mut out: Vec<Node> = Vec::new();
        let mut c: usize = 0;
        proof {
            reveal(Seq::filter);
            assert(ids.take(0) == Seq::<usize>::empty());
        }
        while c < self.nodes.len()
            invariant
                c <= self.nodes.len(),
                self@.wf(),
                ids == self@.all_ids(),
                marks.len() == self@.nodes.len(),
                forall|j: int|
                    0 <= j < marks.len() ==> #[trigger] marks[j] == self@.is_under(
                        parent_node_id as int,
                        j,
                    ),
                pred == |c: usize| self@.is_under(parent_node_id as int, c as int),
                nodes_view(out@) == ids.take(c as int).filter(pred).map_values(
                    |c: usize| self@.node(c as int),
                ),
            decreases self.nodes.len() - c,
        {
            proof {
                lemma_filter_take_step(ids, pred, c as int);
            }
            if marks[c] {
                let ghost before = out@;
                out.push(self.node_at(c));
                assert(nodes_view(out@) =~= nodes_view(before).push(self@.node(c as int)));
                assert(ids.take(c + 1).filter(pred).map_values(|c: usize| self@.node(c as int))
                    =~= ids.take(c as int).filter(pred).map_values(
                    |c: usize| self@.node(c as int),
                ).push(self@.node(c as int)));
            }
            c += 1;
        }
        assert(ids.take(c as int) == ids);
        out
    }

    /// The elements that stand under a node, at any depth, in rising order
    /// of their ids. Under the sentinel stand all elements of the document.
    pub fn descendents(&self, parent_node_id: usize) -> (r: Vec<Element>)
        requires
            self@.wf(),
        ensures
            elements_view(r@) == self@.descendents(parent_node_id as int),
    {
        let marks = self.marks_under(parent_node_id);
        let ghost pred = |c: usize|
            self@.is_under(parent_node_id as int, c as int) && self@.is_element(c as int);
        let ghost ids = self@.all_ids();
        let mut out: Vec<Element> = Vec::new();
        let mut c: usize = 0;
        proof {
            reveal(Seq::filter);
            assert(ids.take(0) == Seq::<usize>::empty());
        }
        while c < self.nodes.len()
            invariant
                c <= self.nodes.len(),
                self@.wf(),
                ids == self@.all_ids(),
                marks.len() == self@.nodes.len(),
                forall|j: int|
                    0 <= j < marks.len() ==> #[trigger] marks[j] == self@.is_under(
                        parent_node_id as int,
                        j,
                    ),
                pred == |c: usize|
                    self@.is_under(parent_node_id as int, c as int) && self@.is_element(c as int),
                elements_view(out@) == ids.take(c as int).filter(pred).map_values(
                    |c: usize| self@.element(c as int),
                ),
            decreases self.nodes.len() - c,
        {
            proof {
                lemma_filter_take_step(ids, pred, c as int);
            }
            if marks[c] && self.nodes[c].node_type == NodeType::Element {
                let ghost before = out@;
                out.push(self.element_at(c));
                assert(elements_view(out@) =~= elements_view(before).push(
                    self@.element(c as int),
                ));
                assert(ids.take(c + 1).filter(pred).map_values(
                    |c: usize| self@.element(c as int),
                ) =~= ids.take(c as int).filter(pred).map_values(
                    |c: usize| self@.element(c as int),
                ).push(self@.element(c as int)));
            }
            c += 1;
        }
        assert(ids.take(c as int) == ids);
        out
    }

    /// All elements of the document, in rising order of their ids.
    pub fn all_elements(&self) -> (r: Vec<Element>)
        requires
            self@.wf(),
        ensures
            elements_view(r@) == self@.descendents(0),
    {
        self.descendents(0)
    }

    /// All nodes of the document, in rising order of their ids.
    pub fn all_nodes(&self) -> (r: Vec<Node>)
        requires
            self@.wf(),
        ensures
            nodes_view(r@) == self@.descendent_nodes(0),
    {
        self.descendent_nodes(0)
    }

    /// The inferred type of a row. Fails with `MissingColumn` on a store
    /// that keeps none, with `NotFound` where the id names no row.
    pub fn inferred_type(&self, node_id: usize) -> (r: Result<InferredType, DbError>)
        ensures
            r == self@.inferred_type(node_id as int),
    {
        if !self.options.infer_types {
            return Err(DbError::MissingColumn);
        }
        if node_id >= self.nodes.len() {
            return Err(DbError::NotFound);
        }
        match self.nodes[node_id].inferred_type {
            Some(t) => Ok(t),
            None => Err(DbError::NotFound),
        }
    }

    /// The inferred type of an attribute. Fails with `MissingColumn` on a
    /// store that keeps none, with `NotFound` where the id names none.
    pub fn attr_inferred_type(&self, attr_id: usize) -> (r: Result<InferredType, DbError>)
        ensures
            r == self@.attr_inferred_type(attr_id as int),
    {
        if !self.options.infer_types {
            return Err(DbError::MissingColumn);
        }
        if attr_id < 1 || attr_id > self.attrs.len() {
            return Err(DbError::NotFound);
        }
        match self.attrs[attr_id - 1].inferred_type {
            Some(t) => Ok(t),
            None => Err(DbError::NotFound),
        }
    }

    /// The value in the row of a node, if it has one. Fails where the id
    /// names no row.
    pub fn node_raw_value(&self, node_id: usize) -> (r: Result<Option<String>, DbError>)
        ensures
            node_id < self@.nodes.len() ==> r is Ok && r->Ok_0.deep_view()
                == self@.nodes[node_id as int].node_value,
            node_id >= self@.nodes.len() ==> r is Err && r->Err_0 == DbError::NotFound,
    {
        if node_id < self.nodes.len() {
            Ok(clone_opt(&self.nodes[node_id].node_value))
        } else {
            Err(DbError::NotFound)
        }
    }

    /// The value of an attribute. Fails where the id names none.
    pub fn attr_raw_value(&self, attr_id: usize) -> (r: Result<Option<String>, DbError>)
        ensures
            self@.is_attr(attr_id as int) ==> r is Ok && r->Ok_0.deep_view() == Some(
                self@.attr_row(attr_id as int).attr_value,
            ),
            !self@.is_attr(attr_id as int) ==> r is Err && r->Err_0 == DbError::NotFound,
    {
        if 1 <= attr_id && attr_id <= self.attrs.len() {
            Ok(Some(self.attrs[attr_id - 1].attr_value.clone()))
        } else {
            Err(DbError::NotFound)
        }
    }

    /// For every attribute with the given name and value, in rising order
    /// of the attributes' ids, the element that it belongs to. The name is
    /// matched in lower case where the store ignores case.
    pub fn elements_matching_attr_value(&self, attr_name: &str, attr_value: &str) -> (r: Vec<
        Element,
    >)
        requires
            self@.wf(),
        ensures
            elements_view(r@) == self@.elements_matching_attr_value(attr_name@, attr_value@),
    {
        let name = self.normalize(attr_name);
        let ghost pred = |a: usize| self@.attr_has_value(a as int, attr_name@, attr_value@);
        let ghost ids = self@.all_attr_ids();
        let ghost to_element = |a: usize|
            self@.element(self@.attr_row(a as int).parent_node_id as int);
        let mut out: Vec<Element> = Vec::new();
        let mut i: usize = 0;
        proof {
            reveal(Seq::filter);
            assert(ids.take(0) == Seq::<usize>::empty());
        }
        while i < self.attrs.len()
            invariant
                i <= self.attrs.len(),
                self@.wf(),
                ids == self@.all_attr_ids(),
                name@ == self@.normalized(attr_name@),
                pred == |a: usize| self@.attr_has_value(a as int, attr_name@, attr_value@),
                to_element == |a: usize|
                    self@.element(self@.attr_row(a as int).parent_node_id as int),
                elements_view(out@) == ids.take(i as int).filter(pred).map_values(to_element),
            decreases self.attrs.len() - i,
        {
            proof {
                lemma_filter_take_step(ids, pred, i as int);
            }
            let row = &self.attrs[i];
            if row.attr_name == name && str_eq(row.attr_value.as_str(), attr_value)
                && self.is_element(row.parent_node_id) {
                let ghost before = out@;
                out.push(self.element_at(row.parent_node_id));
                assert(elements_view(out@) =~= elements_view(before).push(
                    to_element((i + 1) as usize),
                ));
                assert(ids.take(i + 1).filter(pred).map_values(to_element) =~= ids.take(
                    i as int,
                ).filter(pred).map_values(to_element).push(to_element((i + 1) as usize)));
            }
            i += 1;
        }
        assert(ids.take(i as int) == ids);
        out
    }

    /// Puts another value into the row of a node. Nothing changes where the
    /// id names no row.
    pub(crate) fn set_node_value(&mut self, node_id: usize, value: &str)
        requires
            old(self)@.wf(),
        ensures
            final(self)@ == old(self)@.with_node_value(node_id as int, value@),
            final(self)@.wf(),
    {
        proof {
            old(self)@.lemma_with_value_wf(node_id as int, value@);
        }
        if node_id < self.nodes.len() {
            self.nodes[node_id].node_value = Some(value.to_owned());
            assert(self@.nodes =~= old(self)@.with_node_value(node_id as int, value@).nodes);
        }
    }

    /// Puts another value into the row of an attribute. Nothing changes
    /// where the id names none.
    pub(crate) fn set_attr_value(&mut self, attr_id: usize, value: &str)
        requires
            old(self)@.wf(),
        ensures
            final(self)@ == old(self)@.with_attr_value(attr_id as int, value@),
            final(self)@.wf(),
    {
        proof {
            old(self)@.lemma_with_value_wf(attr_id as int, value@);
        }
        if 1 <= attr_id && attr_id <= self.attrs.len() {
            self.attrs[attr_id - 1].attr_value = value.to_owned();
            assert(self@.attrs =~= old(self)@.with_attr_value(attr_id as int, value@).attrs);
        }
    }

    /// A copy of the row of a node, if the id names one.
    pub fn node_row(&self, node_id: usize) -> (r: Option<NodeRow>)
        ensures
            node_id < self@.nodes.len() ==> r is Some && r->0@ == self@.nodes[node_id as int],
            node_id >= self@.nodes.len() ==> r is None,
    {
        if node_id < self.nodes.len() {
            let row = &self.nodes[node_id];
            Some(
                NodeRow {
                    parent_node_id: row.parent_node_id,
                    node_order: row.node_order,
                    node_type: row.node_type,
                    node_ns: clone_opt(&row.node_ns),
                    node_name: clone_opt(&row.node_name),
                    node_value: clone_opt(&row.node_value),
                    buffer_position: row.buffer_position,
                    inferred_type: row.inferred_type,
                },
            )
        } else {
            None
        }
    }

    /// A copy of the row of an attribute, if the id names one.
    pub fn attr_row(&self, attr_id: usize) -> (r: Option<AttrRow>)
        ensures
            self@.is_attr(attr_id as int) ==> r is Some && r->0@ == self@.attr_row(attr_id as int),
            !self@.is_attr(attr_id as int) ==> r is None,
    {
        if 1 <= attr_id && attr_id <= self.attrs.len() {
            let row = &self.attrs[attr_id - 1];
            Some(
                AttrRow {
                    parent_node_id: row.parent_node_id,
                    attr_order: row.attr_order,
                    attr_ns: clone_opt(&row.attr_ns),
                    attr_name: row.attr_name.clone(),
                    attr_value: row.attr_value.clone(),
                    buffer_position: row.buffer_position,
                    inferred_type: row.inferred_type,
                },
            )
        } else {
            None
        }
    }

    /// Fills in the root's row from a saved row.
    fn load_root(&mut self, root: &NodeRow) -> (r: Result<(), DbError>)
        requires
            old(self)@.wf(),
        ensures
            final(self)@.wf(),
            match old(self)@.load_root(root@) {
                Ok(v) => r is Ok && final(self)@ == v,
                Err(e) => r == Err::<(), DbError>(e) && final(self)@ == old(self)@,
            },
    {
        match &root.node_name {
            Some(name) => self.populate_root(
                clone_opt(&root.node_ns),
                name.clone(),
                root.buffer_position,
                root.node_order,
            ),
            None => Err(DbError::Constraint),
        }
    }

    /// Whether the first two rows of a saved node table are the sentinel
    /// and a row for the root.
    fn check_reserved(options: ParseOptions, nodes: &Vec<NodeRow>) -> (r: bool)
        ensures
            r == DocumentView::reserved_rows(options, node_rows_view(nodes@)),
    {
        if nodes.len() < 2 {
            return false;
        }
        let inferred = if options.infer_types {
            Some(InferredType::Empty)
        } else {
            None
        };
        let zero = &nodes[0];
        let one = &nodes[1];
        let same_inferred_zero = match (zero.inferred_type, inferred) {
            (Some(a), Some(b)) => a == b,
            (None, None) => true,
            _ => false,
        };
        let same_inferred_one = match (one.inferred_type, inferred) {
            (Some(a), Some(b)) => a == b,
            (None, None) => true,
            _ => false,
        };
        let sentinel = zero.parent_node_id == 0 && zero.node_order == 0 && zero.node_type
            == NodeType::Document && zero.node_ns.is_none() && zero.node_name.is_none()
            && zero.node_value.is_none() && zero.buffer_position == 0 && same_inferred_zero;
        let root = one.node_type == NodeType::Element && one.parent_node_id == 0
            && one.node_value.is_none() && same_inferred_one && (one.node_name.is_some() || (
        one.node_order == 0 && one.node_ns.is_none() && one.buffer_position == 0));
        proof {
            let rows = node_rows_view(nodes@);
            let fresh = DocumentView::empty(options);
            assert(rows[0] == nodes[0]@);
            assert(rows[1] == nodes[1]@);
            if sentinel {
                assert(rows[0] == fresh.nodes[0]);
            }
            if root && one.node_name.is_none() {
                assert(rows[1] == fresh.nodes[1]);
            }
        }
        sentinel && root
    }

    /// The store that two saved tables give. Fails where
    /// [`DocumentView::from_rows`] gives a reason.
    pub fn from_rows(options: ParseOptions, nodes: Vec<NodeRow>, attrs: Vec<AttrRow>) -> (r: Result<
        DocumentDb,
        DbError,
    >)
        ensures
            match DocumentView::from_rows(
                options,
                node_rows_view(nodes@),
                attr_rows_view(attrs@),
            ) {
                Ok(v) => r is Ok && r->Ok_0@ == v,
                Err(e) => r is Err && r->Err_0 == e,
            },
            r is Ok ==> r->Ok_0@.wf(),
    {
        let ghost rows = node_rows_view(nodes@);
        let ghost arows = attr_rows_view(attrs@);
        if !Self::check_reserved(options, &nodes) {
            proof {
                lemma_load_nodes_start(options, rows, rows.len() as int);
            }
            return Err(DbError::Constraint);
        }
        let mut db = DocumentDb::create_in_memory(options);
        assert(rows[1] == nodes[1]@);
        if nodes[1].node_name.is_some() {
            match db.load_root(&nodes[1]) {
                Ok(()) => {},
                Err(e) => {
                    proof {
                        lemma_load_nodes_error(options, rows, 2, rows.len() as int);
                    }
                    return Err(e);
                },
            }
        }
        let mut k: usize = 2;
        while k < nodes.len()
            invariant
                2 <= k <= nodes.len(),
                rows == node_rows_view(nodes@),
                db@.wf(),
                DocumentView::load_nodes(options, rows, k as int) == Ok::<DocumentView, DbError>(
                    db@,
                ),
            decreases nodes.len() - k,
        {
            let row = &nodes[k];
            assert(rows[k as int] == row@);
            let copy = NodeRow {
                parent_node_id: row.parent_node_id,
                node_order: row.node_order,
                node_type: row.node_type,
                node_ns: clone_opt(&row.node_ns),
                node_name: clone_opt(&row.node_name),
                node_value: clone_opt(&row.node_value),
                buffer_position: row.buffer_position,
                inferred_type: row.inferred_type,
            };
            match db.insert_node_row(k, copy) {
                Ok(()) => {},
                Err(e) => {
                    proof {
                        lemma_load_nodes_error(options, rows, k + 1, rows.len() as int);
                    }
                    return Err(e);
                },
            }
            k += 1;
        }
        let ghost loaded = db@;
        assert(DocumentView::from_rows(options, rows, arows) == loaded.load_attrs(
            arows,
            arows.len() as int,
        ));
        let mut a: usize = 0;
        while a < attrs.len()
            invariant
                a <= attrs.len(),
                arows == attr_rows_view(attrs@),
                rows == node_rows_view(nodes@),
                DocumentView::from_rows(options, rows, arows) == loaded.load_attrs(
                    arows,
                    arows.len() as int,
                ),
                db@.wf(),
                loaded.load_attrs(arows, a as int) == Ok::<DocumentView, DbError>(db@),
            decreases attrs.len() - a,
        {
            let row = &attrs[a];
            assert(arows[a as int] == row@);
            let copy = AttrRow {
                parent_node_id: row.parent_node_id,
                attr_order: row.attr_order,
                attr_ns: clone_opt(&row.attr_ns),
                attr_name: row.attr_name.clone(),
                attr_value: row.attr_value.clone(),
                buffer_position: row.buffer_position,
                inferred_type: row.inferred_type,
            };
            match db.insert_attr_row(copy) {
                Ok(()) => {},
                Err(e) => {
                    proof {
                        lemma_load_attrs_error(loaded, arows, a + 1, arows.len() as int);
                    }
                    return Err(e);
                },
            }
            a += 1;
        }
        Ok(db)
    }
}

/// Filtering one more item either appends it or changes nothing.
pub proof fn lemma_filter_take_step<A>(s: Seq<A>, pred: spec_fn(A) -> bool, i: int)
    requires
        0 <= i < s.len(),
    ensures
        s.take(i + 1).filter(pred) == if pred(s[i]) {
            s.take(i).filter(pred).push(s[i])
        } else {
            s.take(i).filter(pred)
        },
{
    reveal(Seq::filter);
    assert(s.take(i + 1).drop_last() == s.take(i));
}

/// A node table whose first two rows are not the reserved ones cannot be
/// loaded.
proof fn lemma_load_nodes_start(options: ParseOptions, rows: Seq<NodeRowView>, k: int)
    requires
        !DocumentView::reserved_rows(options, rows),
    ensures
        DocumentView::load_nodes(options, rows, k) == Err::<DocumentView, DbError>(
            DbError::Constraint,
        ),
    decreases k,
{
    if k > 2 && k <= rows.len() {
        lemma_load_nodes_start(options, rows, k - 1);
    }
}

/// A node table of which the first rows cannot be loaded cannot be loaded.
proof fn lemma_load_nodes_error(options: ParseOptions, rows: Seq<NodeRowView>, k: int, n: int)
    requires
        2 <= k <= n <= rows.len(),
        DocumentView::load_nodes(options, rows, k) is Err,
    ensures
        DocumentView::load_nodes(options, rows, n) == DocumentView::load_nodes(options, rows, k),
    decreases n - k,
{
    if k < n {
        lemma_load_nodes_error(options, rows, k, n - 1);
    }
}

/// An attribute table of which the first rows cannot be loaded cannot be
/// loaded.
proof fn lemma_load_attrs_error(v: DocumentView, rows: Seq<AttrRowView>, k: int, n: int)
    requires
        0 <= k <= n <= rows.len(),
        v.load_attrs(rows, k) is Err,
    ensures
        v.load_attrs(rows, n) == v.load_attrs(rows, k),
    decreases n - k,
{
    if k < n {
        lemma_load_attrs_error(v, rows, k, n - 1);
    }
}

/// What stands at a place of a list into which an item was put.
pub proof fn lemma_inserted(s: Seq<usize>, pos: int, x: usize, k: int)
    requires
        0 <= pos <= s.len(),
        0 <= k <= s.len(),
    ensures
        s.insert(pos, x).len() == s.len() + 1,
        s.insert(pos, x)[k] == if k < pos {
            s[k]
        } else if k == pos {
            x
        } else {
            s[k - 1]
        },
{
}

} // verus!
