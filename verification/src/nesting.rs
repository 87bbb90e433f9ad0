//! Which runs of tokens are read to their end: those in which elements
//! nest as in a document.

use vstd::prelude::*;

use crate::document::{AttrRowView, DocumentView, NodeRowView, NodeType};
use crate::parse::{
    is_plain_node, token_message, IngestView, ParseOptions, ParserStateValue, ParserStateView,
    TokenKind, XmlTokenView,
};

verus! {

/// How deep in elements a place in a run of tokens is, and whether an
/// element has started before it.
pub struct Nesting {
    pub depth: nat,
    pub root_started: bool,
}

/// The nesting behind a token.
pub open spec fn nesting_after(n: Nesting, token: XmlTokenView) -> Nesting {
    if token.kind == TokenKind::ElementStart {
        Nesting { depth: n.depth + 1, root_started: true }
    } else if token.kind == TokenKind::ElementClose {
        Nesting {
            depth: if n.depth > 0 {
                (n.depth - 1) as nat
            } else {
                0
            },
            root_started: n.root_started,
        }
    } else {
        n
    }
}

/// Whether a token can stand at a place: an element starts inside another
/// or is the first of the run, and an attribute stands inside an element.
pub open spec fn token_fits(n: Nesting, token: XmlTokenView) -> bool {
    if token.kind == TokenKind::ElementStart {
        n.depth > 0 || !n.root_started
    } else if token.kind == TokenKind::Attribute {
        n.depth > 0
    } else {
        true
    }
}

/// The nesting behind the first `k` tokens of a run.
pub open spec fn nesting(tokens: Seq<XmlTokenView>, k: int) -> Nesting
    decreases k,
{
    if k <= 0 {
        Nesting { depth: 0, root_started: false }
    } else {
        nesting_after(nesting(tokens, k - 1), tokens[k - 1])
    }
}

/// Whether each of the first `k` tokens of a run can stand at its place: the
/// run has at most one element at its top, and no attribute outside an
/// element.
pub open spec fn well_nested(tokens: Seq<XmlTokenView>, k: int) -> bool
    decreases k,
{
    k <= 0 || (well_nested(tokens, k - 1) && token_fits(nesting(tokens, k - 1), tokens[k - 1]))
}

/// The id of the node that the children of an open element go under.
pub open spec fn frame_parent(v: ParserStateValue) -> int {
    match v {
        ParserStateValue::Document => 0,
        ParserStateValue::Root => 1,
        ParserStateValue::Element(id) => id as int,
    }
}

/// Whether the open elements of a reader fit a store: each is an element of
/// the store, the order that its next child gets is above that of its last
/// child, and each was stored before those inside it.
pub open spec fn frames_fit(db: DocumentView, frames: Seq<(ParserStateValue, usize)>) -> bool {
    &&& forall|k: int|
        0 <= k < frames.len() ==> {
            &&& (#[trigger] frames[k]).0 != ParserStateValue::Document
            &&& db.is_element(frame_parent(frames[k].0))
            &&& db.follows_siblings(frame_parent(frames[k].0), frames[k].1)
        }
    &&& forall|j: int, k: int|
        0 <= j < k < frames.len() ==> frame_parent((#[trigger] frames[j]).0) < frame_parent(
            (#[trigger] frames[k]).0,
        )
}

/// Whether the counters of a reader fit a store: the store keeps its rules,
/// the children of each of its nodes differ in order, and every counter is
/// above the order of what was stored under its node.
pub open spec fn counters_fit(db: DocumentView, state: ParserStateView) -> bool {
    &&& db.wf()
    &&& db.strictly_ordered()
    &&& db.follows_siblings(0, state.context_order)
    &&& frames_fit(db, state.frames)
}

/// Whether a reading fits the nesting of the tokens that were read: the
/// counters fit the store, the next free id is the next free row, as many
/// elements are open as the nesting is deep, and the root's row is filled
/// in exactly if an element has started.
pub open spec fn reading_fits(s: IngestView, n: Nesting) -> bool {
    &&& counters_fit(s.db, s.state)
    &&& s.next_id == s.db.nodes.len()
    &&& s.state.frames.len() == n.depth
    &&& s.db.root_populated() == n.root_started
    &&& n.depth > 0 ==> n.root_started
}

/// Whether no counter of a reading is above what `i` tokens can have
/// brought it to.
pub open spec fn bounded(s: IngestView, i: int) -> bool {
    &&& s.state.context_order <= i
    &&& forall|k: int| 0 <= k < s.state.frames.len() ==> (#[trigger] s.state.frames[k]).1 <= i
    &&& s.next_id <= 2 + i
    &&& s.db.attrs.len() <= i
}

/// Nothing stands under the root's row before it is filled in.
proof fn lemma_unfilled_root_is_bare(v: DocumentView)
    requires
        v.wf(),
        !v.root_populated(),
    ensures
        v.children[1].len() == 0,
{
    if v.children[1].len() > 0 {
        let c = v.children[1][0] as int;
        assert(v.is_node(c));
        assert(v.nodes[c].parent_node_id == 1);
    }
}

/// What storing a node above its siblings changes for the counters of a
/// reading: the parent's next child has to come above the node; the node
/// itself has no child; for every other row nothing changes.
proof fn lemma_with_node_effects(v: DocumentView, row: NodeRowView)
    requires
        v.wf(),
        v.strictly_ordered(),
        v.accepts_node(v.nodes.len() as int, row),
        v.follows_siblings(row.parent_node_id as int, row.node_order),
    ensures
        v.with_node(row).wf(),
        v.with_node(row).strictly_ordered(),
        v.with_node(row).root_populated() == v.root_populated(),
        v.with_node(row).nodes.len() == v.nodes.len() + 1,
        v.with_node(row).attrs == v.attrs,
        forall|c: usize|
            row.node_order < c ==> v.with_node(row).follows_siblings(row.parent_node_id as int, c),
        forall|c: usize| v.with_node(row).follows_siblings(v.nodes.len() as int, c),
        forall|q: int, c: usize|
            0 <= q < v.nodes.len() && q != row.parent_node_id && v.follows_siblings(q, c)
                ==> #[trigger] v.with_node(row).follows_siblings(q, c),
        forall|q: int| v.is_element(q) ==> #[trigger] v.with_node(row).is_element(q),
        row.node_type == NodeType::Element ==> v.with_node(row).is_element(v.nodes.len() as int),
{
    v.lemma_with_node_wf(row);
    let w = v.with_node(row);
    let p = row.parent_node_id as int;
    let n = v.nodes.len() as int;
    v.lemma_place_at_end(p, row.node_order);
    assert(w.children[p] == v.children[p].push(n as usize));
    assert(w.children[p].last() == n as usize);
    assert forall|q: int, c: usize|
        0 <= q < v.nodes.len() && q != row.parent_node_id && v.follows_siblings(
            q,
            c,
        ) implies #[trigger] w.follows_siblings(q, c) by {
        assert(w.children[q] == v.children[q]);
        if v.children[q].len() > 0 {
            assert(v.is_node(v.children[q][v.children[q].len() - 1] as int));
        }
    }
    assert forall|q: int, j: int, k: int|
        0 <= q < w.children.len() && 0 <= j < k < w.children[q].len() implies w.nodes[#[trigger] w.children[q][j] as int].node_order
        < w.nodes[#[trigger] w.children[q][k] as int].node_order by {
        if q == p {
            let last = v.children[p].len() as int;
            assert(w.children[q][j] == v.children[p][j]);
            assert(v.is_node(v.children[p][j] as int));
            if k == last {
                assert(v.is_node(v.children[p][last - 1] as int));
                if j < last - 1 {
                    assert(v.nodes[v.children[p][j] as int].node_order
                        < v.nodes[v.children[p][last - 1] as int].node_order);
                }
            } else {
                assert(w.children[q][k] == v.children[p][k]);
                assert(v.is_node(v.children[p][k] as int));
                assert(v.nodes[v.children[p][j] as int].node_order
                    < v.nodes[v.children[p][k] as int].node_order);
            }
        } else if q < n {
            assert(w.children[q] == v.children[q]);
            assert(v.is_node(v.children[q][j] as int));
            assert(v.is_node(v.children[q][k] as int));
            assert(v.nodes[v.children[q][j] as int].node_order
                < v.nodes[v.children[q][k] as int].node_order);
        }
    }
}

/// What filling in the root's row above the nodes at the top changes for
/// the counters of a reading: the next node at the top has to come above
/// the root; the root has no child; for every other row nothing changes.
proof fn lemma_with_root_effects(
    v: DocumentView,
    ns: Option<Seq<char>>,
    name: Seq<char>,
    position: usize,
    order: usize,
)
    requires
        v.wf(),
        v.strictly_ordered(),
        v.accepts_root(),
        v.follows_siblings(0, order),
    ensures
        v.with_root(ns, name, position, order).wf(),
        v.with_root(ns, name, position, order).strictly_ordered(),
        v.with_root(ns, name, position, order).root_populated(),
        v.with_root(ns, name, position, order).is_element(1),
        v.with_root(ns, name, position, order).nodes.len() == v.nodes.len(),
        v.with_root(ns, name, position, order).attrs == v.attrs,
        forall|c: usize|
            order < c ==> v.with_root(ns, name, position, order).follows_siblings(0, c),
        forall|c: usize| v.with_root(ns, name, position, order).follows_siblings(1, c),
{
    v.lemma_with_root_wf(ns, name, position, order);
    lemma_unfilled_root_is_bare(v);
    let w = v.with_root(ns, name, position, order);
    v.lemma_place_at_end(0, order);
    assert(w.children[0] == v.children[0].push(1));
    assert(w.children[0].last() == 1);
    assert(w.children[1] == v.children[1]);
    assert forall|q: int, j: int, k: int|
        0 <= q < w.children.len() && 0 <= j < k < w.children[q].len() implies w.nodes[#[trigger] w.children[q][j] as int].node_order
        < w.nodes[#[trigger] w.children[q][k] as int].node_order by {
        if q == 0 {
            let last = v.children[0].len() as int;
            assert(w.children[q][j] == v.children[0][j]);
            assert(v.is_node(v.children[0][j] as int));
            if k == last {
                assert(v.is_node(v.children[0][last - 1] as int));
                if j < last - 1 {
                    assert(v.nodes[v.children[0][j] as int].node_order
                        < v.nodes[v.children[0][last - 1] as int].node_order);
                }
            } else {
                assert(w.children[q][k] == v.children[0][k]);
                assert(v.is_node(v.children[0][k] as int));
                assert(v.nodes[v.children[0][j] as int].node_order
                    < v.nodes[v.children[0][k] as int].node_order);
            }
        } else {
            assert(w.children[q] == v.children[q]);
            assert(v.is_node(v.children[q][j] as int));
            assert(v.is_node(v.children[q][k] as int));
            assert(v.nodes[v.children[q][j] as int].node_order
                < v.nodes[v.children[q][k] as int].node_order);
        }
    }
}

/// The counters of a reader that leaves its innermost element fit the
/// store as before.
proof fn lemma_counters_keep(db: DocumentView, state: ParserStateView)
    requires
        counters_fit(db, state),
    ensures
        counters_fit(db, state.popped()),
{
    let out = state.popped();
    assert forall|k: int| 0 <= k < out.frames.len() implies {
        &&& (#[trigger] out.frames[k]).0 != ParserStateValue::Document
        &&& db.is_element(frame_parent(out.frames[k].0))
        &&& db.follows_siblings(frame_parent(out.frames[k].0), out.frames[k].1)
    } by {
        assert(out.frames[k] == state.frames[k]);
    }
    assert forall|j: int, k: int| 0 <= j < k < out.frames.len() implies frame_parent(
        (#[trigger] out.frames[j]).0,
    ) < frame_parent((#[trigger] out.frames[k]).0) by {
        assert(out.frames[j] == state.frames[j]);
        assert(out.frames[k] == state.frames[k]);
    }
}

/// The node that the next child of a reader goes under is the sentinel or
/// an element of the store, and the child's order is above that of the
/// node's last child.
proof fn lemma_current_parent(db: DocumentView, state: ParserStateView)
    requires
        counters_fit(db, state),
    ensures
        state.parent_node_id() == 0 <==> state.frames.len() == 0,
        state.frames.len() == 0 <==> state.current() == ParserStateValue::Document,
        state.frames.len() > 0 ==> db.is_element(state.parent_node_id() as int)
            && state.parent_node_id() == frame_parent(state.frames.last().0),
        db.follows_siblings(state.parent_node_id() as int, state.current_order()),
        state.parent_node_id() < db.nodes.len(),
{
    if state.frames.len() > 0 {
        let top = state.frames.len() - 1;
        assert(state.frames[top].0 != ParserStateValue::Document);
        assert(db.is_element(frame_parent(state.frames[top].0)));
    }
}

/// After a node was stored under the node that the reader is inside of,
/// with the order that the reader gave it, the counters, with one more
/// child counted, fit the store; and where the node is an element, they
/// still do with the reader inside it.
proof fn lemma_counters_after_node(db: DocumentView, state: ParserStateView, row: NodeRowView)
    requires
        counters_fit(db, state),
        state.current_order() < usize::MAX,
        row.parent_node_id == state.parent_node_id(),
        row.node_order == state.current_order(),
        db.accepts_node(db.nodes.len() as int, row),
    ensures
        counters_fit(db.with_node(row), state.incremented()),
        row.node_type == NodeType::Element ==> counters_fit(
            db.with_node(row),
            state.incremented().pushed(ParserStateValue::Element(db.nodes.len() as usize)),
        ),
        db.with_node(row).root_populated() == db.root_populated(),
        db.with_node(row).nodes.len() == db.nodes.len() + 1,
        db.with_node(row).attrs == db.attrs,
{
    lemma_current_parent(db, state);
    lemma_with_node_effects(db, row);
    let w = db.with_node(row);
    let frames = state.frames;
    let depth = frames.len() as int;
    let grown = state.incremented();
    let p = row.parent_node_id as int;
    assert forall|k: int| 0 <= k < grown.frames.len() implies {
        &&& (#[trigger] grown.frames[k]).0 != ParserStateValue::Document
        &&& w.is_element(frame_parent(grown.frames[k].0))
        &&& w.follows_siblings(frame_parent(grown.frames[k].0), grown.frames[k].1)
    } by {
        assert(frames[k].0 != ParserStateValue::Document);
        assert(db.is_element(frame_parent(frames[k].0)));
        if k == depth - 1 {
        } else {
            assert(grown.frames[k] == frames[k]);
            assert(frame_parent(frames[k].0) < frame_parent(frames[depth - 1].0));
        }
    }
    assert forall|j: int, k: int| 0 <= j < k < grown.frames.len() implies frame_parent(
        (#[trigger] grown.frames[j]).0,
    ) < frame_parent((#[trigger] grown.frames[k]).0) by {
        assert(frame_parent(frames[j].0) < frame_parent(frames[k].0));
    }
    if depth > 0 {
        assert(p != 0);
        assert(w.follows_siblings(0, state.context_order));
    }
    assert(counters_fit(w, grown));
    if row.node_type == NodeType::Element {
        let id = db.nodes.len() as usize;
        let inside = grown.pushed(ParserStateValue::Element(id));
        assert forall|k: int| 0 <= k < inside.frames.len() implies {
            &&& (#[trigger] inside.frames[k]).0 != ParserStateValue::Document
            &&& w.is_element(frame_parent(inside.frames[k].0))
            &&& w.follows_siblings(frame_parent(inside.frames[k].0), inside.frames[k].1)
        } by {
            if k < depth {
                assert(inside.frames[k] == grown.frames[k]);
            }
        }
        assert forall|j: int, k: int| 0 <= j < k < inside.frames.len() implies frame_parent(
            (#[trigger] inside.frames[j]).0,
        ) < frame_parent((#[trigger] inside.frames[k]).0) by {
            assert(inside.frames[j] == grown.frames[j]);
            assert(db.is_element(frame_parent(frames[j].0)));
            if k < depth {
                assert(inside.frames[k] == grown.frames[k]);
            }
        }
    }
}

/// After an attribute was stored under the element that the reader is
/// inside of, the counters, with one more child counted, fit the store.
proof fn lemma_counters_after_attr(db: DocumentView, state: ParserStateView, row: AttrRowView)
    requires
        counters_fit(db, state),
        state.frames.len() > 0,
        state.current_order() < usize::MAX,
        db.accepts_attr(row),
    ensures
        counters_fit(db.with_attr(row), state.incremented()),
{
    db.lemma_with_attr_wf(row);
    let w = db.with_attr(row);
    let frames = state.frames;
    let depth = frames.len() as int;
    let grown = state.incremented();
    assert(w.children == db.children);
    assert(w.nodes == db.nodes);
    assert forall|k: int| 0 <= k < grown.frames.len() implies {
        &&& (#[trigger] grown.frames[k]).0 != ParserStateValue::Document
        &&& w.is_element(frame_parent(grown.frames[k].0))
        &&& w.follows_siblings(frame_parent(grown.frames[k].0), grown.frames[k].1)
    } by {
        assert(frames[k].0 != ParserStateValue::Document);
        assert(db.is_element(frame_parent(frames[k].0)));
        assert(db.follows_siblings(frame_parent(frames[k].0), frames[k].1));
        if k == depth - 1 {
        } else {
            assert(grown.frames[k] == frames[k]);
        }
    }
    assert forall|j: int, k: int| 0 <= j < k < grown.frames.len() implies frame_parent(
        (#[trigger] grown.frames[j]).0,
    ) < frame_parent((#[trigger] grown.frames[k]).0) by {
        assert(frame_parent(frames[j].0) < frame_parent(frames[k].0));
    }
}

/// After the root's row was filled in by a reader that is inside of no
/// element, the counters, with one more child counted and the reader inside
/// the root, fit the store.
proof fn lemma_counters_after_root(
    db: DocumentView,
    state: ParserStateView,
    ns: Option<Seq<char>>,
    name: Seq<char>,
    position: usize,
)
    requires
        counters_fit(db, state),
        state.frames.len() == 0,
        state.context_order < usize::MAX,
        !db.root_populated(),
    ensures
        counters_fit(
            db.with_root(ns, name, position, state.context_order),
            state.incremented().pushed(ParserStateValue::Root),
        ),
{
    lemma_with_root_effects(db, ns, name, position, state.context_order);
    let inside = state.incremented().pushed(ParserStateValue::Root);
    assert(inside.frames.len() == 1);
    assert(inside.frames[0] == (ParserStateValue::Root, 0usize));
    assert(frame_parent(inside.frames[0].0) == 1);
}

/// A token that was read could stand at its place, and the reading behind
/// it fits the nesting behind it.
proof fn lemma_token_kept(s: IngestView, n: Nesting, token: XmlTokenView)
    requires
        reading_fits(s, n),
        s.token(token) is Ok,
    ensures
        reading_fits(s.token(token)->Ok_0, nesting_after(n, token)),
        token_fits(n, token),
{
    lemma_current_parent(s.db, s.state);
    let infer = s.db.options.infer_types;
    if is_plain_node(token.kind) {
        let m = token_message(token, s.db.options, s.state, s.next_id)->0->InsertNode_0;
        lemma_counters_after_node(s.db, s.state, m.row(infer));
    } else if token.kind == TokenKind::ElementStart {
        if s.state.frames.len() > 0 {
            let m = token_message(token, s.db.options, s.state, s.next_id)->0->InsertNode_0;
            lemma_counters_after_node(s.db, s.state, m.row(infer));
        } else {
            let m = token_message(token, s.db.options, s.state, s.next_id)->0->InsertRootElement_0;
            assert(s.db.accepts_root());
            lemma_counters_after_root(
                s.db,
                s.state,
                m.node_ns,
                m.node_name->0,
                m.buffer_position,
            );
            lemma_with_root_effects(
                s.db,
                m.node_ns,
                m.node_name->0,
                m.buffer_position,
                s.state.context_order,
            );
        }
    } else if token.kind == TokenKind::Attribute {
        let m = token_message(token, s.db.options, s.state, s.next_id)->0->InsertAttr_0;
        let row = m.row(infer);
        assert(s.db.accepts_attr(row));
        assert(s.state.frames.len() > 0);
        lemma_counters_after_attr(s.db, s.state, row);
    } else {
        lemma_counters_keep(s.db, s.state);
        assert(token_message(token, s.db.options, s.state, s.next_id) is None);
    }
}

/// A token that can stand at its place is read where the counters have
/// room, and then they have room for the next.
proof fn lemma_token_owed(s: IngestView, n: Nesting, i: int, token: XmlTokenView)
    requires
        reading_fits(s, n),
        bounded(s, i),
        token_fits(n, token),
        0 <= i,
        i + 3 < usize::MAX,
    ensures
        s.token(token) is Ok,
        bounded(s.token(token)->Ok_0, i + 1),
{
    lemma_current_parent(s.db, s.state);
    let infer = s.db.options.infer_types;
    let frames = s.state.frames;
    let depth = frames.len() as int;
    if depth > 0 {
        assert(frames[depth - 1].1 <= i);
    }
    assert(s.state.current_order() <= i);
    if is_plain_node(token.kind) {
        let m = token_message(token, s.db.options, s.state, s.next_id)->0->InsertNode_0;
        assert(s.db.accepts_node(s.next_id as int, m.row(infer)));
        lemma_counters_after_node(s.db, s.state, m.row(infer));
        let t = s.token(token)->Ok_0;
        assert forall|k: int| 0 <= k < t.state.frames.len() implies (#[trigger] t.state.frames[k]).1
            <= i + 1 by {
            if k < depth - 1 {
                assert(t.state.frames[k] == frames[k]);
            }
        }
    } else if token.kind == TokenKind::ElementStart {
        if depth > 0 {
            let m = token_message(token, s.db.options, s.state, s.next_id)->0->InsertNode_0;
            assert(s.db.accepts_node(s.next_id as int, m.row(infer)));
            lemma_counters_after_node(s.db, s.state, m.row(infer));
            let t = s.token(token)->Ok_0;
            assert forall|k: int| 0 <= k < t.state.frames.len() implies (
            #[trigger] t.state.frames[k]).1 <= i + 1 by {
                if k < depth - 1 {
                    assert(t.state.frames[k] == frames[k]);
                }
            }
        } else {
            let m = token_message(token, s.db.options, s.state, s.next_id)->0->InsertRootElement_0;
            assert(s.db.accepts_root());
            lemma_with_root_effects(
                s.db,
                m.node_ns,
                m.node_name->0,
                m.buffer_position,
                s.state.context_order,
            );
        }
    } else if token.kind == TokenKind::Attribute {
        let m = token_message(token, s.db.options, s.state, s.next_id)->0->InsertAttr_0;
        assert(s.db.accepts_attr(m.row(infer)));
        let t = s.token(token)->Ok_0;
        assert forall|k: int| 0 <= k < t.state.frames.len() implies (#[trigger] t.state.frames[k]).1
            <= i + 1 by {
            if k < depth - 1 {
                assert(t.state.frames[k] == frames[k]);
            }
        }
    } else {
        assert(token_message(token, s.db.options, s.state, s.next_id) is None);
        let t = s.token(token)->Ok_0;
        assert forall|k: int| 0 <= k < t.state.frames.len() implies (#[trigger] t.state.frames[k]).1
            <= i + 1 by {
            assert(t.state.frames[k] == frames[k]);
        }
    }
}

/// Tokens that were read nest as in a document, and the reading behind
/// them fits their nesting.
proof fn lemma_prefix_kept(start: IngestView, tokens: Seq<XmlTokenView>, k: int)
    requires
        reading_fits(start, Nesting { depth: 0, root_started: false }),
        0 <= k <= tokens.len(),
        start.tokens(tokens.take(k)) is Ok,
    ensures
        reading_fits(start.tokens(tokens.take(k))->Ok_0, nesting(tokens, k)),
        well_nested(tokens, k),
    decreases k,
{
    if k == 0 {
        assert(tokens.take(0).len() == 0);
    } else {
        assert(tokens.take(k).drop_last() == tokens.take(k - 1));
        assert(tokens.take(k).last() == tokens[k - 1]);
        lemma_prefix_kept(start, tokens, k - 1);
        lemma_token_kept(
            start.tokens(tokens.take(k - 1))->Ok_0,
            nesting(tokens, k - 1),
            tokens[k - 1],
        );
    }
}

/// The first tokens of a well-nested run are read.
proof fn lemma_prefix_owed(start: IngestView, tokens: Seq<XmlTokenView>, k: int)
    requires
        reading_fits(start, Nesting { depth: 0, root_started: false }),
        bounded(start, 0),
        0 <= k <= tokens.len(),
        well_nested(tokens, k),
        tokens.len() + 3 < usize::MAX,
    ensures
        start.tokens(tokens.take(k)) is Ok,
        bounded(start.tokens(tokens.take(k))->Ok_0, k),
    decreases k,
{
    if k == 0 {
        assert(tokens.take(0).len() == 0);
    } else {
        lemma_prefix_owed(start, tokens, k - 1);
        lemma_prefix_kept(start, tokens, k - 1);
        assert(tokens.take(k).drop_last() == tokens.take(k - 1));
        assert(tokens.take(k).last() == tokens[k - 1]);
        lemma_token_owed(
            start.tokens(tokens.take(k - 1))->Ok_0,
            nesting(tokens, k - 1),
            k - 1,
            tokens[k - 1],
        );
    }
}

/// A new store fits a reader that has read nothing.
proof fn lemma_start_fits(options: ParseOptions)
    ensures
        reading_fits(
            IngestView::start(DocumentView::empty(options)),
            Nesting { depth: 0, root_started: false },
        ),
        bounded(IngestView::start(DocumentView::empty(options)), 0),
{
    DocumentView::lemma_empty_wf(options);
}

/// A run of tokens in which elements nest as in a document is read into a
/// new store to its end: no row of it is refused.
pub proof fn lemma_well_nested_is_read(options: ParseOptions, tokens: Seq<XmlTokenView>)
    requires
        well_nested(tokens, tokens.len() as int),
        tokens.len() + 3 < usize::MAX,
    ensures
        IngestView::start(DocumentView::empty(options)).tokens(tokens) is Ok,
{
    let start = IngestView::start(DocumentView::empty(options));
    lemma_start_fits(options);
    lemma_prefix_owed(start, tokens, tokens.len() as int);
    assert(tokens.take(tokens.len() as int) == tokens);
}

/// In every store that a run of tokens was read into from new, the
/// children of each node differ in `node_order` and stand in the order in
/// which they were read; and the elements of the run nested as in a
/// document.
pub proof fn lemma_read_is_ordered(options: ParseOptions, tokens: Seq<XmlTokenView>)
    requires
        IngestView::start(DocumentView::empty(options)).tokens(tokens) is Ok,
    ensures
        (IngestView::start(DocumentView::empty(options)).tokens(tokens)->Ok_0).db.wf(),
        (IngestView::start(DocumentView::empty(options)).tokens(tokens)->Ok_0).db.strictly_ordered(),
        well_nested(tokens, tokens.len() as int),
{
    let start = IngestView::start(DocumentView::empty(options));
    lemma_start_fits(options);
    assert(tokens.take(tokens.len() as int) == tokens);
    lemma_prefix_kept(start, tokens, tokens.len() as int);
}

/// Whether the tokens of a run stand at rising places of the text.
pub open spec fn positions_rise(tokens: Seq<XmlTokenView>) -> bool {
    forall|i: int, j: int|
        0 <= i < j < tokens.len() ==> (#[trigger] tokens[i]).position
            < (#[trigger] tokens[j]).position
}

/// Whether the children of every node of a store stand at rising places of
/// the text, all of them below a bound.
pub open spec fn places_rise(db: DocumentView, bound: int) -> bool {
    &&& forall|p: int, j: int, k: int|
        0 <= p < db.children.len() && 0 <= j < k < db.children[p].len()
            ==> db.nodes[#[trigger] db.children[p][j] as int].buffer_position
            < db.nodes[#[trigger] db.children[p][k] as int].buffer_position
    &&& forall|p: int, k: int|
        0 <= p < db.children.len() && 0 <= k < db.children[p].len()
            ==> db.nodes[#[trigger] db.children[p][k] as int].buffer_position < bound
}

/// A store whose nodes stand below a bound keeps them below every higher
/// bound.
proof fn lemma_places_bound(db: DocumentView, bound: int, higher: int)
    requires
        places_rise(db, bound),
        bound <= higher,
    ensures
        places_rise(db, higher),
{
}

/// After a node was stored behind its siblings at a place above all that
/// was stored, the children of every node still stand at rising places.
proof fn lemma_places_after_node(db: DocumentView, row: NodeRowView)
    requires
        db.wf(),
        db.accepts_node(db.nodes.len() as int, row),
        db.follows_siblings(row.parent_node_id as int, row.node_order),
        places_rise(db, row.buffer_position as int),
    ensures
        places_rise(db.with_node(row), row.buffer_position + 1),
{
    let w = db.with_node(row);
    let p = row.parent_node_id as int;
    let n = db.nodes.len() as int;
    db.lemma_place_at_end(p, row.node_order);
    assert(w.children[p] == db.children[p].push(n as usize));
    assert forall|q: int, k: int|
        0 <= q < w.children.len() && 0 <= k < w.children[q].len() implies w.nodes[#[trigger] w.children[q][k] as int].buffer_position
        < row.buffer_position + 1 by {
        if q == p {
            if k < db.children[p].len() {
                assert(w.children[q][k] == db.children[p][k]);
                assert(db.is_node(db.children[p][k] as int));
            }
        } else if q < n {
            assert(w.children[q] == db.children[q]);
            assert(db.is_node(db.children[q][k] as int));
        }
    }
    assert forall|q: int, j: int, k: int|
        0 <= q < w.children.len() && 0 <= j < k < w.children[q].len() implies w.nodes[#[trigger] w.children[q][j] as int].buffer_position
        < w.nodes[#[trigger] w.children[q][k] as int].buffer_position by {
        if q == p {
            assert(w.children[q][j] == db.children[p][j]);
            assert(db.is_node(db.children[p][j] as int));
            if k < db.children[p].len() {
                assert(w.children[q][k] == db.children[p][k]);
                assert(db.is_node(db.children[p][k] as int));
                assert(db.nodes[db.children[p][j] as int].buffer_position
                    < db.nodes[db.children[p][k] as int].buffer_position);
            }
        } else if q < n {
            assert(w.children[q] == db.children[q]);
            assert(db.is_node(db.children[q][j] as int));
            assert(db.is_node(db.children[q][k] as int));
            assert(db.nodes[db.children[q][j] as int].buffer_position
                < db.nodes[db.children[q][k] as int].buffer_position);
        }
    }
}

/// After the root's row was filled in behind the nodes at the top at a
/// place above all that was stored, the children of every node still stand
/// at rising places.
proof fn lemma_places_after_root(
    db: DocumentView,
    ns: Option<Seq<char>>,
    name: Seq<char>,
    position: usize,
    order: usize,
)
    requires
        db.wf(),
        db.accepts_root(),
        db.follows_siblings(0, order),
        places_rise(db, position as int),
    ensures
        places_rise(db.with_root(ns, name, position, order), position + 1),
{
    let w = db.with_root(ns, name, position, order);
    db.lemma_place_at_end(0, order);
    assert(w.children[0] == db.children[0].push(1));
    assert forall|q: int, k: int|
        0 <= q < db.children.len() && 0 <= k < db.children[q].len() implies db.children[q][k]
        != 1 by {
        assert(db.is_node(db.children[q][k] as int));
    }
    assert forall|q: int, k: int|
        0 <= q < w.children.len() && 0 <= k < w.children[q].len() implies w.nodes[#[trigger] w.children[q][k] as int].buffer_position
        < position + 1 by {
        if q == 0 {
            if k < db.children[0].len() {
                assert(w.children[q][k] == db.children[0][k]);
                assert(db.is_node(db.children[0][k] as int));
            }
        } else {
            assert(w.children[q] == db.children[q]);
            assert(db.is_node(db.children[q][k] as int));
        }
    }
    assert forall|q: int, j: int, k: int|
        0 <= q < w.children.len() && 0 <= j < k < w.children[q].len() implies w.nodes[#[trigger] w.children[q][j] as int].buffer_position
        < w.nodes[#[trigger] w.children[q][k] as int].buffer_position by {
        if q == 0 {
            assert(w.children[q][j] == db.children[0][j]);
            assert(db.is_node(db.children[0][j] as int));
            if k < db.children[0].len() {
                assert(w.children[q][k] == db.children[0][k]);
                assert(db.is_node(db.children[0][k] as int));
                assert(db.nodes[db.children[0][j] as int].buffer_position
                    < db.nodes[db.children[0][k] as int].buffer_position);
            }
        } else {
            assert(w.children[q] == db.children[q]);
            assert(db.is_node(db.children[q][j] as int));
            assert(db.is_node(db.children[q][k] as int));
            assert(db.nodes[db.children[q][j] as int].buffer_position
                < db.nodes[db.children[q][k] as int].buffer_position);
        }
    }
}

/// After a token was read whose place is above all that was stored, the
/// children of every node stand at rising places, none above the token's.
proof fn lemma_token_places(s: IngestView, n: Nesting, token: XmlTokenView)
    requires
        reading_fits(s, n),
        s.token(token) is Ok,
        places_rise(s.db, token.position as int),
    ensures
        places_rise((s.token(token)->Ok_0).db, token.position + 1),
{
    lemma_current_parent(s.db, s.state);
    let infer = s.db.options.infer_types;
    if is_plain_node(token.kind) || (token.kind == TokenKind::ElementStart && s.state.frames.len()
        > 0) {
        let m = token_message(token, s.db.options, s.state, s.next_id)->0->InsertNode_0;
        lemma_places_after_node(s.db, m.row(infer));
    } else if token.kind == TokenKind::ElementStart {
        let m = token_message(token, s.db.options, s.state, s.next_id)->0->InsertRootElement_0;
        assert(s.db.accepts_root());
        lemma_places_after_root(
            s.db,
            m.node_ns,
            m.node_name->0,
            m.buffer_position,
            s.state.context_order,
        );
    } else if token.kind == TokenKind::Attribute {
        let m = token_message(token, s.db.options, s.state, s.next_id)->0->InsertAttr_0;
        let w = s.db.with_attr(m.row(infer));
        assert(w.nodes == s.db.nodes);
        assert(w.children == s.db.children);
        lemma_places_bound(s.db, token.position as int, token.position + 1);
    } else {
        assert(token_message(token, s.db.options, s.state, s.next_id) is None);
        lemma_places_bound(s.db, token.position as int, token.position + 1);
    }
}

/// The bound below which everything stands that the first `k` tokens of a
/// run brought.
pub open spec fn place_bound(tokens: Seq<XmlTokenView>, k: int) -> int {
    if 0 < k <= tokens.len() {
        tokens[k - 1].position + 1
    } else {
        0
    }
}

/// After the first tokens of a run at rising places were read, the
/// children of every node stand at rising places.
proof fn lemma_prefix_places(start: IngestView, tokens: Seq<XmlTokenView>, k: int)
    requires
        reading_fits(start, Nesting { depth: 0, root_started: false }),
        places_rise(start.db, 0),
        positions_rise(tokens),
        0 <= k <= tokens.len(),
        start.tokens(tokens.take(k)) is Ok,
    ensures
        places_rise((start.tokens(tokens.take(k))->Ok_0).db, place_bound(tokens, k)),
    decreases k,
{
    if k == 0 {
        assert(tokens.take(0).len() == 0);
    } else {
        assert(tokens.take(k).drop_last() == tokens.take(k - 1));
        assert(tokens.take(k).last() == tokens[k - 1]);
        lemma_prefix_places(start, tokens, k - 1);
        lemma_prefix_kept(start, tokens, k - 1);
        let before = start.tokens(tokens.take(k - 1))->Ok_0;
        if k >= 2 {
            assert(tokens[k - 2].position < tokens[k - 1].position);
        }
        lemma_places_bound(before.db, place_bound(tokens, k - 1), tokens[k - 1].position as int);
        lemma_token_places(before, nesting(tokens, k - 1), tokens[k - 1]);
    }
}

/// In a store that a run of tokens at rising places was read into from
/// new, of two nodes of the document under one parent the one with the
/// lower `node_order` is the one that stands earlier in the text.
pub proof fn lemma_order_follows_places(
    options: ParseOptions,
    tokens: Seq<XmlTokenView>,
    a: int,
    b: int,
)
    requires
        IngestView::start(DocumentView::empty(options)).tokens(tokens) is Ok,
        positions_rise(tokens),
        (IngestView::start(DocumentView::empty(options)).tokens(tokens)->Ok_0).db.is_node(a),
        (IngestView::start(DocumentView::empty(options)).tokens(tokens)->Ok_0).db.is_node(b),
        a != b,
        (IngestView::start(DocumentView::empty(options)).tokens(tokens)->Ok_0).db.nodes[a].parent_node_id
            == (IngestView::start(DocumentView::empty(options)).tokens(
            tokens,
        )->Ok_0).db.nodes[b].parent_node_id,
    ensures
        ({
            let db = (IngestView::start(DocumentView::empty(options)).tokens(tokens)->Ok_0).db;
            &&& db.nodes[a].node_order != db.nodes[b].node_order
            &&& db.nodes[a].node_order < db.nodes[b].node_order <==> db.nodes[a].buffer_position
                < db.nodes[b].buffer_position
        }),
{
    let start = IngestView::start(DocumentView::empty(options));
    let db = (start.tokens(tokens)->Ok_0).db;
    lemma_start_fits(options);
    lemma_read_is_ordered(options, tokens);
    assert(tokens.take(tokens.len() as int) == tokens);
    lemma_prefix_places(start, tokens, tokens.len() as int);
    let p = db.nodes[a].parent_node_id as int;
    assert(db.children[p].contains(a as usize));
    assert(db.children[p].contains(b as usize));
    let i = choose|i: int| 0 <= i < db.children[p].len() && db.children[p][i] == a as usize;
    let j = choose|j: int| 0 <= j < db.children[p].len() && db.children[p][j] == b as usize;
    if i < j {
        assert(db.nodes[db.children[p][i] as int].node_order
            < db.nodes[db.children[p][j] as int].node_order);
        assert(db.nodes[db.children[p][i] as int].buffer_position
            < db.nodes[db.children[p][j] as int].buffer_position);
    } else if j < i {
        assert(db.nodes[db.children[p][j] as int].node_order
            < db.nodes[db.children[p][i] as int].node_order);
        assert(db.nodes[db.children[p][j] as int].buffer_position
            < db.nodes[db.children[p][i] as int].buffer_position);
    }
}

/// In a store that a run of tokens at rising places was read into from
/// new, the order of the children of every node is the order in which they
/// stand in the text.
pub proof fn lemma_read_follows_places(options: ParseOptions, tokens: Seq<XmlTokenView>)
    requires
        IngestView::start(DocumentView::empty(options)).tokens(tokens) is Ok,
        positions_rise(tokens),
    ensures
        (IngestView::start(DocumentView::empty(options)).tokens(
            tokens,
        )->Ok_0).db.order_follows_places(),
{
    let db = (IngestView::start(DocumentView::empty(options)).tokens(tokens)->Ok_0).db;
    assert forall|a: int, b: int|
        db.is_node(a) && db.is_node(b) && a != b && (#[trigger] db.nodes[a]).parent_node_id == (
        #[trigger] db.nodes[b]).parent_node_id implies (db.nodes[a].node_order
        < db.nodes[b].node_order <==> db.nodes[a].buffer_position
        < db.nodes[b].buffer_position) by {
        lemma_order_follows_places(options, tokens, a, b);
    }
}

} // verus!
