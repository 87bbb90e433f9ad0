//! Filling a store: the messages that carry one row each, and the writer
//! that applies them.

use vstd::prelude::*;

use crate::document::{AttrRow, AttrRowView, DbError, DocumentDb, NodeRow, NodeRowView, NodeType};
use crate::infer::{infer_spec, infer_type, InferredType};
use crate::model::text_or_empty;

verus! {

/// The row of a node to store, with the id that it is to have.
#[derive(Debug)]
pub struct InsertNode {
    pub node_id: usize,
    pub parent_node_id: usize,
    pub node_type: NodeType,
    pub node_ns: Option<String>,
    pub node_name: Option<String>,
    pub node_value: Option<String>,
    pub buffer_position: usize,
    pub node_order: usize,
}

/// What an [`InsertNode`] holds, as plain values.
pub struct InsertNodeView {
    pub node_id: usize,
    pub parent_node_id: usize,
    pub node_type: NodeType,
    pub node_ns: Option<Seq<char>>,
    pub node_name: Option<Seq<char>>,
    pub node_value: Option<Seq<char>>,
    pub buffer_position: usize,
    pub node_order: usize,
}

impl View for InsertNode {
    type V = InsertNodeView;

    open spec fn view(&self) -> InsertNodeView {
        InsertNodeView {
            node_id: self.node_id,
            parent_node_id: self.parent_node_id,
            node_type: self.node_type,
            node_ns: self.node_ns.deep_view(),
            node_name: self.node_name.deep_view(),
            node_value: self.node_value.deep_view(),
            buffer_position: self.buffer_position,
            node_order: self.node_order,
        }
    }
}

impl InsertNode {
    pub fn new(
        node_id: usize,
        parent_node_id: usize,
        node_type: NodeType,
        node_ns: Option<String>,
        node_name: Option<String>,
        node_value: Option<String>,
        buffer_position: usize,
        node_order: usize,
    ) -> (r: InsertNode)
        ensures
            r@ == (InsertNodeView {
                node_id,
                parent_node_id,
                node_type,
                node_ns: node_ns.deep_view(),
                node_name: node_name.deep_view(),
                node_value: node_value.deep_view(),
                buffer_position,
                node_order,
            }),
    {
        InsertNode {
            node_id,
            parent_node_id,
            node_type,
            node_ns,
            node_name,
            node_value,
            buffer_position,
            node_order,
        }
    }
}

/// The row of an attribute to store. Its id is given when it is stored.
#[derive(Debug)]
pub struct InsertAttr {
    pub parent_node_id: usize,
    pub attr_ns: Option<String>,
    pub attr_name: String,
    pub attr_value: String,
    pub buffer_position: usize,
    pub attr_order: usize,
}

/// What an [`InsertAttr`] holds, as plain values.
pub struct InsertAttrView {
    pub parent_node_id: usize,
    pub attr_ns: Option<Seq<char>>,
    pub attr_name: Seq<char>,
    pub attr_value: Seq<char>,
    pub buffer_position: usize,
    pub attr_order: usize,
}

impl View for InsertAttr {
    type V = InsertAttrView;

    open spec fn view(&self) -> InsertAttrView {
        InsertAttrView {
            parent_node_id: self.parent_node_id,
            attr_ns: self.attr_ns.deep_view(),
            attr_name: self.attr_name@,
            attr_value: self.attr_value@,
            buffer_position: self.buffer_position,
            attr_order: self.attr_order,
        }
    }
}

impl InsertAttr {
    pub fn new(
        parent_node_id: usize,
        attr_ns: Option<String>,
        attr_name: String,
        attr_value: String,
        buffer_position: usize,
        attr_order: usize,
    ) -> (r: InsertAttr)
        ensures
            r@ == (InsertAttrView {
                parent_node_id,
                attr_ns: attr_ns.deep_view(),
                attr_name: attr_name@,
                attr_value: attr_value@,
                buffer_position,
                attr_order,
            }),
    {
        InsertAttr { parent_node_id, attr_ns, attr_name, attr_value, buffer_position, attr_order }
    }
}

/// What fills in the row of the root element.
#[derive(Debug)]
pub struct InsertRootElement {
    pub node_ns: Option<String>,
    pub node_name: Option<String>,
    pub buffer_position: usize,
    pub node_order: usize,
}

/// What an [`InsertRootElement`] holds, as plain values.
pub struct InsertRootElementView {
    pub node_ns: Option<Seq<char>>,
    pub node_name: Option<Seq<char>>,
    pub buffer_position: usize,
    pub node_order: usize,
}

impl View for InsertRootElement {
    type V = InsertRootElementView;

    open spec fn view(&self) -> InsertRootElementView {
        InsertRootElementView {
            node_ns: self.node_ns.deep_view(),
            node_name: self.node_name.deep_view(),
            buffer_position: self.buffer_position,
            node_order: self.node_order,
        }
    }
}

impl InsertRootElement {
    pub fn new(
        node_ns: Option<String>,
        node_name: Option<String>,
        buffer_position: usize,
        node_order: usize,
    ) -> (r: InsertRootElement)
        ensures
            r@ == (InsertRootElementView {
                node_ns: node_ns.deep_view(),
                node_name: node_name.deep_view(),
                buffer_position,
                node_order,
            }),
    {
        InsertRootElement { node_ns, node_name, buffer_position, node_order }
    }
}

/// The inferred type that a row gets: none where the writer infers none,
/// else the kind of its value, a missing value counting as empty.
pub open spec fn inferred_for(infer_types: bool, value: Option<Seq<char>>) -> Option<
    InferredType,
> {
    if infer_types {
        Some(infer_spec(text_or_empty(value)).kind())
    } else {
        None
    }
}

impl InsertNodeView {
    /// The row that the writer stores for the message.
    pub open spec fn row(self, infer_types: bool) -> NodeRowView {
        NodeRowView {
            parent_node_id: self.parent_node_id,
            node_order: self.node_order,
            node_type: self.node_type,
            node_ns: self.node_ns,
            node_name: self.node_name,
            node_value: self.node_value,
            buffer_position: self.buffer_position,
            inferred_type: inferred_for(infer_types, self.node_value),
        }
    }
}

impl InsertAttrView {
    /// The row that the writer stores for the message.
    pub open spec fn row(self, infer_types: bool) -> AttrRowView {
        AttrRowView {
            parent_node_id: self.parent_node_id,
            attr_order: self.attr_order,
            attr_ns: self.attr_ns,
            attr_name: self.attr_name,
            attr_value: self.attr_value,
            buffer_position: self.buffer_position,
            inferred_type: inferred_for(infer_types, Some(self.attr_value)),
        }
    }
}

/// The writer of a store. It holds the store while rows are written and
/// gives it back on `commit`; a store whose writer is dropped is lost.
#[derive(Debug)]
pub struct DocumentDbBuilder {
    pub db: DocumentDb,
    pub infer_types: bool,
}

impl DocumentDbBuilder {
    /// A writer on a store. Rows are classified where `infer_types` is set.
    pub fn new(db: DocumentDb, infer_types: bool) -> (r: DocumentDbBuilder)
        ensures
            r.db == db,
            r.infer_types == infer_types,
    {
        DocumentDbBuilder { db, infer_types }
    }

    /// Ends the writing and hands the store out.
    pub fn commit(self) -> (db: DocumentDb)
        ensures
            db == self.db,
    {
        self.db
    }

    /// Stores a node, whatever order it is given: it stands among the
    /// children of its parent where its order puts it, behind those whose
    /// order is not above its own. The store refuses it, and stays as it was, where
    /// [`DocumentView::node_refusal`](crate::document::DocumentView::node_refusal)
    /// gives a reason.
    pub fn insert_node(&mut self, data: InsertNode) -> (r: Result<(), DbError>)
        requires
            old(self).db@.wf(),
        ensures
            final(self).db@.wf(),
            final(self).infer_types == old(self).infer_types,
            match old(self).db@.node_refusal(
                data.node_id as int,
                data@.row(old(self).infer_types),
            ) {
                Some(e) => r == Err::<(), DbError>(e) && final(self).db@ == old(self).db@,
                None => r is Ok && final(self).db@ == old(self).db@.with_node(
                    data@.row(old(self).infer_types),
                ),
            },
    {
        let InsertNode {
            node_id,
            parent_node_id,
            node_type,
            node_ns,
            node_name,
            node_value,
            buffer_position,
            node_order,
        } = data;
        let inferred_type = if self.infer_types {
            Some(
                match &node_value {
                    Some(v) => infer_type(v.as_str()).as_type(),
                    None => InferredType::Empty,
                },
            )
        } else {
            None
        };
        self.db.insert_node_row(
            node_id,
            NodeRow {
                parent_node_id,
                node_order,
                node_type,
                node_ns,
                node_name,
                node_value,
                buffer_position,
                inferred_type,
            },
        )
    }

    /// Stores an attribute under the next free id. The store refuses it, and
    /// stays as it was, where
    /// [`DocumentView::attr_refusal`](crate::document::DocumentView::attr_refusal)
    /// gives a reason.
    pub fn insert_attr(&mut self, data: InsertAttr) -> (r: Result<(), DbError>)
        requires
            old(self).db@.wf(),
        ensures
            final(self).db@.wf(),
            final(self).infer_types == old(self).infer_types,
            match old(self).db@.attr_refusal(data@.row(old(self).infer_types)) {
                Some(e) => r == Err::<(), DbError>(e) && final(self).db@ == old(self).db@,
                None => r is Ok && final(self).db@ == old(self).db@.with_attr(
                    data@.row(old(self).infer_types),
                ),
            },
    {
        let InsertAttr {
            parent_node_id,
            attr_ns,
            attr_name,
            attr_value,
            buffer_position,
            attr_order,
        } = data;
        let inferred_type = if self.infer_types {
            Some(infer_type(attr_value.as_str()).as_type())
        } else {
            None
        };
        self.db.insert_attr_row(
            AttrRow {
                parent_node_id,
                attr_order,
                attr_ns,
                attr_name,
                attr_value,
                buffer_position,
                inferred_type,
            },
        )
    }

    /// Fills in the row of the root element, whatever order it is given:
    /// the row gets the prefix, the name, the position and the order of the
    /// message, and the root stands among the nodes at the top of the
    /// document where that order puts it. Every other row stays as it is.
    /// It is refused, and the store stays as it was, where the message has
    /// no name and where the row is filled in already, and nowhere else.
    pub fn insert_root_element(&mut self, data: InsertRootElement) -> (r: Result<(), DbError>)
        requires
            old(self).db@.wf(),
        ensures
            final(self).db@.wf(),
            final(self).infer_types == old(self).infer_types,
            data@.node_name is Some && old(self).db@.accepts_root() ==> r is Ok
                && final(self).db@ == old(self).db@.with_root(
                data@.node_ns,
                data@.node_name.unwrap(),
                data.buffer_position,
                data.node_order,
            ),
            !(data@.node_name is Some && old(self).db@.accepts_root()) ==> r
                == Err::<(), DbError>(DbError::Constraint) && final(self).db@ == old(self).db@,
    {
        let InsertRootElement { node_ns, node_name, buffer_position, node_order } = data;
        match node_name {
            Some(name) => self.db.populate_root(node_ns, name, buffer_position, node_order),
            None => Err(DbError::Constraint),
        }
    }
}

} // verus!
