//! Data model for diff results.

use vstd::prelude::*;
use crate::value::{JsonValue, Value};

verus! {

/// The top-level result of a diff operation.
pub struct DiffTree {
    /// The root-level diff nodes.
    pub roots: Vec<DiffNode>,
}

/// Whether a container's children come from object fields or array items.
#[derive(Clone, Copy, PartialEq, Eq, Structural, Debug)]
pub enum ChildKind {
    /// The children are object fields.
    Fields,
    /// The children are array items.
    Items,
}

/// A node in the diff tree.
pub enum DiffNode {
    /// An intermediate node containing child diffs.
    Container {
        /// The path segment for this container.
        segment: PathSegment,
        /// Whether the children are object fields or array items.
        child_kind: ChildKind,
        /// Number of siblings/elements in the actual data not shown in the diff.
        omitted_count: u16,
        /// Child diff nodes.
        children: Vec<DiffNode>,
    },
    /// A terminal node representing a single difference.
    Leaf {
        /// The path segment for this leaf.
        segment: PathSegment,
        /// The kind of difference.
        kind: DiffKind,
    },
}

/// The kind of difference found at a leaf node.
pub enum DiffKind {
    /// Values differ but have the same type.
    Changed {
        /// The value that was actually present.
        actual: Value,
        /// The value that was expected.
        expected: Value,
    },
    /// A key or element is missing from the actual data.
    Missing {
        /// The expected value that was not found.
        expected: Value,
    },
    /// Values have different JSON types.
    TypeMismatch {
        /// The value that was actually present.
        actual: Value,
        /// Human-readable name of the actual type.
        actual_type: &'static str,
        /// The value that was expected.
        expected: Value,
        /// Human-readable name of the expected type.
        expected_type: &'static str,
    },
    /// Several actual elements matched one expected element and the best
    /// match strategy picked the closest of them; recorded as a warning.
    Ambiguous {
        /// The number of actual elements that matched.
        candidates: u16,
    },
}

/// A segment in the path to a diff location.
pub enum PathSegment {
    /// An object key (e.g. `spec` in `spec.containers`).
    Key(String),
    /// An array element matched by a distinguished key (e.g. `name: FOO`).
    NamedElement {
        /// The key used to match (e.g. `name`).
        match_key: String,
        /// The value of the match key (e.g. `FOO`).
        match_value: String,
    },
    /// An array element matched by several key fields together (e.g.
    /// `containerPort: 53` and `protocol: TCP`): each key with its value.
    KeyedElement {
        /// The keys used to match, each with its value.
        keys: Vec<(String, String)>,
    },
    /// An array element matched by position.
    Index(u16),
    /// An expected array element with no matching actual element.
    ///
    /// Used with key-based and contains matching when no candidate was
    /// found in the actual array.
    Unmatched,
}

/// The mathematical model of a [`PathSegment`].
pub enum SegmentView {
    Key(Seq<char>),
    NamedElement(Seq<char>, Seq<char>),
    KeyedElement(Seq<(Seq<char>, Seq<char>)>),
    Index(int),
    Unmatched,
}

/// The models of key-value string pairs.
pub open spec fn pairs_view(ps: Seq<(String, String)>) -> Seq<(Seq<char>, Seq<char>)> {
    Seq::new(ps.len(), |i: int| (ps[i].0@, ps[i].1@))
}

/// The mathematical model of a [`DiffKind`].
pub enum KindView {
    Changed(JsonValue, JsonValue),
    Missing(JsonValue),
    TypeMismatch(JsonValue, Seq<char>, JsonValue, Seq<char>),
    Ambiguous(int),
}

/// The mathematical model of a [`DiffNode`].
#[verifier::ext_equal]
pub enum NodeView {
    Container(SegmentView, ChildKind, int, Seq<NodeView>),
    Leaf(SegmentView, KindView),
}

impl View for PathSegment {
    type V = SegmentView;

    open spec fn view(&self) -> SegmentView {
        match self {
            PathSegment::Key(k) => SegmentView::Key(k@),
            PathSegment::NamedElement { match_key, match_value } => SegmentView::NamedElement(
                match_key@,
                match_value@,
            ),
            PathSegment::KeyedElement { keys } => SegmentView::KeyedElement(pairs_view(keys@)),
            PathSegment::Index(i) => SegmentView::Index(*i as int),
            PathSegment::Unmatched => SegmentView::Unmatched,
        }
    }
}

impl View for DiffKind {
    type V = KindView;

    open spec fn view(&self) -> KindView {
        match self {
            DiffKind::Changed { actual, expected } => KindView::Changed(actual@, expected@),
            DiffKind::Missing { expected } => KindView::Missing(expected@),
            DiffKind::TypeMismatch { actual, actual_type, expected, expected_type } => {
                KindView::TypeMismatch(actual@, actual_type@, expected@, expected_type@)
            },
            DiffKind::Ambiguous { candidates } => KindView::Ambiguous(*candidates as int),
        }
    }
}

impl View for DiffNode {
    type V = NodeView;

    open spec fn view(&self) -> NodeView
        decreases self, 0nat,
    {
        match self {
            DiffNode::Container { segment, child_kind, omitted_count, children } => {
                NodeView::Container(
                    segment@,
                    *child_kind,
                    *omitted_count as int,
                    Seq::new(
                        children@.len(),
                        |i: int|
                            if 0 <= i < children@.len() {
                                children@[i].view()
                            } else {
                                NodeView::Leaf(SegmentView::Unmatched, KindView::Missing(JsonValue::Null))
                            },
                    ),
                )
            },
            DiffNode::Leaf { segment, kind } => NodeView::Leaf(segment@, kind@),
        }
    }
}

/// The models of a sequence of nodes.
pub open spec fn nodes_view(nodes: Seq<DiffNode>) -> Seq<NodeView> {
    Seq::new(nodes.len(), |i: int| nodes[i]@)
}

impl View for DiffTree {
    type V = Seq<NodeView>;

    open spec fn view(&self) -> Seq<NodeView> {
        nodes_view(self.roots@)
    }
}

/// Pushing a node extends the models by the node's model.
pub proof fn lemma_nodes_view_push(nodes: Seq<DiffNode>, node: DiffNode)
    ensures
        nodes_view(nodes.push(node)) == nodes_view(nodes).push(node@),
{
    assert(nodes_view(nodes.push(node)) =~= nodes_view(nodes).push(node@));
}

impl DiffTree {
    /// Returns `true` if there are no differences.
    pub fn is_empty(&self) -> (r: bool)
        ensures
            r == (self@.len() == 0),
    {
        self.roots.len() == 0
    }
}

impl DiffNode {
    /// Creates a leaf node representing a single difference.
    pub fn leaf(segment: PathSegment, kind: DiffKind) -> (r: Self)
        ensures
            r@ == NodeView::Leaf(segment@, kind@),
    {
        DiffNode::Leaf { segment, kind }
    }

    /// Creates a container node with child diffs.
    pub fn container(
        segment: PathSegment,
        child_kind: ChildKind,
        omitted_count: u16,
        children: Vec<DiffNode>,
    ) -> (r: Self)
        ensures
            r@ == NodeView::Container(
                segment@,
                child_kind,
                omitted_count as int,
                nodes_view(children@),
            ),
    {
        let ghost cv = children@;
        let r = DiffNode::Container { segment, child_kind, omitted_count, children };
        assert(r@->Container_3 =~= nodes_view(cv));
        r
    }
}

impl DiffKind {
    /// Creates a `Changed` diff for values of the same type that differ.
    pub fn changed(actual: Value, expected: Value) -> (r: Self)
        ensures
            r@ == KindView::Changed(actual@, expected@),
    {
        DiffKind::Changed { actual, expected }
    }

    /// Creates a `Missing` diff for a value not found in actual.
    pub fn missing(expected: Value) -> (r: Self)
        ensures
            r@ == KindView::Missing(expected@),
    {
        DiffKind::Missing { expected }
    }

    /// Creates a `TypeMismatch` diff for values with different JSON types.
    pub fn type_mismatch(
        actual: Value,
        actual_type: &'static str,
        expected: Value,
        expected_type: &'static str,
    ) -> (r: Self)
        ensures
            r@ == KindView::TypeMismatch(actual@, actual_type@, expected@, expected_type@),
    {
        DiffKind::TypeMismatch { actual, actual_type, expected, expected_type }
    }

    /// Creates an `Ambiguous` warning for a match among several candidates.
    pub fn ambiguous(candidates: u16) -> (r: Self)
        ensures
            r@ == KindView::Ambiguous(candidates as int),
    {
        DiffKind::Ambiguous { candidates }
    }
}

impl PathSegment {
    /// Returns true if this segment represents an array element.
    pub fn is_array(&self) -> (r: bool)
        ensures
            r == !(self@ is Key),
    {
        match self {
            PathSegment::Key(_) => false,
            _ => true,
        }
    }
}

} // verus!
