use super::tree::{lemma_view_children, FileNode, NodeView};
use crate::text::{is_text_le, lemma_lex_le_total, lemma_lex_le_transitive, text_le};
use vstd::prelude::*;

verus! {

/// Whether `a` may stand before `b` among siblings: a directory before a
/// file, and within each kind the smaller name first, in case-sensitive
/// ordinal order.
pub open spec fn precedes(a: NodeView, b: NodeView) -> bool {
    if a.is_dir != b.is_dir {
        a.is_dir
    } else {
        text_le(a.name, b.name)
    }
}

/// Whether siblings stand in order: each may stand before all that follow.
pub open spec fn siblings_ordered(nodes: Seq<NodeView>) -> bool {
    forall|i: int, j: int| 0 <= i < j < nodes.len() ==> precedes(nodes[i], nodes[j])
}

/// The first position from `from` on whose node `node` may stand before, or
/// the length where there is none.
pub open spec fn place_from(nodes: Seq<NodeView>, node: NodeView, from: int) -> int
    decreases nodes.len() - from,
{
    if from < 0 || from >= nodes.len() {
        nodes.len() as int
    } else if precedes(node, nodes[from]) {
        from
    } else {
        place_from(nodes, node, from + 1)
    }
}

/// `nodes` with `node` put before the first one that it may stand before.
/// A node that stood before its equals stays before them.
pub open spec fn placed(nodes: Seq<NodeView>, node: NodeView) -> Seq<NodeView> {
    nodes.insert(place_from(nodes, node, 0), node)
}

impl NodeView {
    /// The tree with the children of every node in order.  The order is
    /// stable: of two siblings that may stand either way the one that came
    /// first stays first.
    pub open spec fn sorted(self) -> NodeView
        decreases self, self.children.len() + 1,
    {
        NodeView { children: self.sorted_from(0), ..self }
    }

    /// The children from `from` on, each sorted within, in order.
    pub open spec fn sorted_from(self, from: nat) -> Seq<NodeView>
        decreases self, self.children.len() - from,
    {
        if from >= self.children.len() {
            Seq::empty()
        } else {
            placed(self.sorted_from(from + 1), self.children[from as int].sorted())
        }
    }

    /// Whether in every node of the tree the children stand in order.
    pub open spec fn ordered(self) -> bool
        decreases self,
    {
        &&& siblings_ordered(self.children)
        &&& forall|i: int| 0 <= i < self.children.len() ==> (#[trigger] self.children[i]).ordered()
    }
}

/// Of two nodes, one may stand before the other.
pub proof fn lemma_precedes_total(a: NodeView, b: NodeView)
    ensures
        precedes(a, b) || precedes(b, a),
{
    lemma_lex_le_total(vstd::utf8::encode_utf8(a.name), vstd::utf8::encode_utf8(b.name));
}

/// Standing before is transitive.
pub proof fn lemma_precedes_transitive(a: NodeView, b: NodeView, c: NodeView)
    requires
        precedes(a, b),
        precedes(b, c),
    ensures
        precedes(a, c),
{
    if a.is_dir == b.is_dir && b.is_dir == c.is_dir {
        lemma_lex_le_transitive(
            vstd::utf8::encode_utf8(a.name),
            vstd::utf8::encode_utf8(b.name),
            vstd::utf8::encode_utf8(c.name),
        );
    }
}

/// Where `node` is placed: behind nodes that it may not stand before, and
/// before one that it may.
pub proof fn lemma_place_from(nodes: Seq<NodeView>, node: NodeView, from: int)
    requires
        0 <= from <= nodes.len(),
    ensures
        from <= place_from(nodes, node, from) <= nodes.len(),
        forall|j: int| from <= j < place_from(nodes, node, from) ==> !precedes(node, nodes[j]),
        place_from(nodes, node, from) < nodes.len() ==> precedes(
            node,
            nodes[place_from(nodes, node, from)],
        ),
    decreases nodes.len() - from,
{
    if from < nodes.len() && !precedes(node, nodes[from]) {
        lemma_place_from(nodes, node, from + 1);
    }
}

/// Placing a node among ordered siblings leaves them ordered.
pub proof fn lemma_placed_ordered(nodes: Seq<NodeView>, node: NodeView)
    requires
        siblings_ordered(nodes),
    ensures
        siblings_ordered(placed(nodes, node)),
        placed(nodes, node).len() == nodes.len() + 1,
{
    lemma_place_from(nodes, node, 0);
    let at = place_from(nodes, node, 0);
    let result = placed(nodes, node);
    assert forall|i: int, j: int| 0 <= i < j < result.len() implies precedes(
        result[i],
        result[j],
    ) by {
        if j < at {
            assert(result[i] == nodes[i] && result[j] == nodes[j]);
        } else if i > at {
            assert(result[i] == nodes[i - 1] && result[j] == nodes[j - 1]);
        } else if i < at && j > at {
            assert(result[i] == nodes[i] && result[j] == nodes[j - 1]);
        } else if i == at {
            // the placed node before a later one
            assert(result[j] == nodes[j - 1]);
            if j - 1 > at {
                lemma_precedes_transitive(node, nodes[at], nodes[j - 1]);
            }
        } else {
            // an earlier node before the placed one
            assert(j == at && result[i] == nodes[i]);
            lemma_precedes_total(node, nodes[i]);
        }
    }
}

impl NodeView {
    /// For each child from `from` on, in the order in which sorting puts
    /// them, the place that it had among the children before.
    pub open spec fn places_from(self, from: nat) -> Seq<int>
        decreases self.children.len() - from,
    {
        if from >= self.children.len() {
            Seq::empty()
        } else {
            self.places_from(from + 1).insert(
                place_from(self.sorted_from(from + 1), self.children[from as int].sorted(), 0),
                from as int,
            )
        }
    }
}

/// Sorting is a stable sort of the children.  The children of the sorted
/// tree stand in order; every one of them is a child of the tree, sorted
/// within, each taken once; and of two children that may stand either way,
/// the one that came first in the tree comes first in the sorted tree.
pub proof fn law_sorting_is_stable(tree: NodeView)
    ensures
        ({
            let places = tree.places_from(0);
            let sorted = tree.sorted().children;
            &&& siblings_ordered(sorted)
            &&& places.len() == tree.children.len()
            &&& sorted.len() == tree.children.len()
            &&& forall|m: int|
                0 <= m < sorted.len() ==> 0 <= #[trigger] places[m] < tree.children.len()
                    && sorted[m] == tree.children[places[m]].sorted()
            &&& forall|m: int, n: int|
                0 <= m < n < sorted.len() ==> #[trigger] places[m] != #[trigger] places[n]
            &&& forall|m: int, n: int|
                0 <= m < n < sorted.len() && precedes(sorted[n], sorted[m]) ==> #[trigger] places[m]
                    < #[trigger] places[n]
        }),
{
    lemma_places_from(tree, 0);
}

proof fn lemma_places_from(tree: NodeView, from: nat)
    requires
        from <= tree.children.len(),
    ensures
        ({
            let places = tree.places_from(from);
            let sorted = tree.sorted_from(from);
            &&& siblings_ordered(sorted)
            &&& places.len() == tree.children.len() - from
            &&& sorted.len() == tree.children.len() - from
            &&& forall|m: int|
                0 <= m < sorted.len() ==> from <= #[trigger] places[m] < tree.children.len()
                    && sorted[m] == tree.children[places[m]].sorted()
            &&& forall|m: int, n: int|
                0 <= m < n < sorted.len() ==> #[trigger] places[m] != #[trigger] places[n]
            &&& forall|m: int, n: int|
                0 <= m < n < sorted.len() && precedes(sorted[n], sorted[m]) ==> #[trigger] places[m]
                    < #[trigger] places[n]
        }),
    decreases tree.children.len() - from,
{
    if from < tree.children.len() {
        lemma_places_from(tree, from + 1);
        let rest = tree.sorted_from(from + 1);
        let rest_places = tree.places_from(from + 1);
        let node = tree.children[from as int].sorted();
        lemma_place_from(rest, node, 0);
        lemma_placed_ordered(rest, node);
        let at = place_from(rest, node, 0);
        let sorted = tree.sorted_from(from);
        let places = tree.places_from(from);
        assert(sorted == rest.insert(at, node));
        assert(places == rest_places.insert(at, from as int));
        assert forall|m: int| 0 <= m < sorted.len() implies from <= #[trigger] places[m]
            < tree.children.len() && sorted[m] == tree.children[places[m]].sorted() by {
            if m < at {
                assert(places[m] == rest_places[m] && sorted[m] == rest[m]);
            } else if m > at {
                assert(places[m] == rest_places[m - 1] && sorted[m] == rest[m - 1]);
            }
        }
        assert forall|m: int, n: int| 0 <= m < n < sorted.len() implies #[trigger] places[m]
            != #[trigger] places[n] && (precedes(sorted[n], sorted[m]) ==> places[m]
            < places[n]) by {
            if m == at {
                assert(places[n] == rest_places[n - 1]);
            } else if n == at {
                assert(places[m] == rest_places[m] && sorted[m] == rest[m]);
                assert(!precedes(node, rest[m]));
            } else if n < at {
                assert(places[m] == rest_places[m] && sorted[m] == rest[m]);
                assert(places[n] == rest_places[n] && sorted[n] == rest[n]);
            } else if m > at {
                assert(places[m] == rest_places[m - 1] && sorted[m] == rest[m - 1]);
                assert(places[n] == rest_places[n - 1] && sorted[n] == rest[n - 1]);
            } else {
                assert(places[m] == rest_places[m] && sorted[m] == rest[m]);
                assert(places[n] == rest_places[n - 1] && sorted[n] == rest[n - 1]);
            }
        }
    }
}

/// Sorting a tree puts the children of every node in order: directories
/// before files, and names non-decreasing within each kind.
pub proof fn law_sorted_tree_is_ordered(tree: NodeView)
    ensures
        tree.sorted().ordered(),
    decreases tree,
{
    law_sorting_is_stable(tree);
    let sorted = tree.sorted();
    let places = tree.places_from(0);
    assert forall|i: int| 0 <= i < sorted.children.len() implies (
    #[trigger] sorted.children[i]).ordered() by {
        assert(sorted.children[i] == tree.children[places[i]].sorted());
        law_sorted_tree_is_ordered(tree.children[places[i]]);
    }
}

/// Whether `a` may stand before `b` among siblings.
pub fn stands_before(a: &FileNode, b: &FileNode) -> (r: bool)
    ensures
        r == precedes(a@, b@),
{
    proof {
        lemma_view_children(a);
        lemma_view_children(b);
    }
    if a.is_dir != b.is_dir {
        a.is_dir
    } else {
        is_text_le(a.name.as_str(), b.name.as_str())
    }
}

impl FileNode {
    /// Puts the children of every node of the tree in order: directories
    /// before files, then by name.
    pub fn sort_children(&mut self)
        ensures
            final(self)@ == old(self)@.sorted(),
        decreases old(self)@,
    {
        proof {
            lemma_view_children(&*self);
        }
        let ghost start = self@;
        let mut pending: Vec<FileNode> = Vec::new();
        core::mem::swap(&mut self.children, &mut pending);
        proof {
            lemma_view_children(&*self);
            assert(self@.children =~= start.sorted_from(start.children.len()));
        }
        while pending.len() > 0
            invariant
                pending@.len() <= start.children.len(),
                forall|j: int| 0 <= j < pending@.len() ==> (#[trigger] pending@[j])@ == start.children[j],
                self@.children == start.sorted_from(pending@.len() as nat),
                self@.name == start.name,
                self@.path == start.path,
                self@.is_dir == start.is_dir,
                self@.metrics == start.metrics,
                self@.is_expanded == start.is_expanded,
                start == old(self)@,
            decreases pending@.len(),
        {
            let ghost k = pending@.len() - 1;
            let mut child = pending.pop().unwrap();
            assert(child@ == start.children[k]);
            child.sort_children();
            let ghost rest = self@.children;
            proof {
                lemma_view_children(&*self);
                lemma_place_from(rest, child@, 0);
            }
            let n = self.children.len();
            let mut at: usize = 0;
            while at < n && !stands_before(&child, &self.children[at])
                invariant
                    at <= n,
                    n == self.children@.len(),
                    n == rest.len(),
                    forall|j: int| 0 <= j < n ==> rest[j] == (#[trigger] self.children@[j])@,
                    place_from(rest, child@, 0) == place_from(rest, child@, at as int),
                decreases n - at,
            {
                at += 1;
            }
            let ghost placed_child = child@;
            self.children.insert(at, child);
            proof {
                lemma_view_children(&*self);
                assert(at == place_from(rest, placed_child, 0));
                assert(self@.children =~= placed(rest, placed_child));
            }
        }
        proof {
            assert(self@.children == start.sorted().children);
        }
    }
}

} // verus!
