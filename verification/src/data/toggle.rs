use super::metrics::Metrics;
use super::tree::{lemma_view_children, FileNode, NodeView, Row};
use crate::text::is_same_text;
use vstd::prelude::*;

verus! {

impl NodeView {
    /// Whether some node of the tree has the path `path`.
    pub open spec fn has_path(self, path: Seq<char>) -> bool
        decreases self, self.children.len() + 1,
    {
        self.path == path || self.has_path_upto(path, self.children.len())
    }

    /// Whether some node below the first `upto` children has the path `path`.
    pub open spec fn has_path_upto(self, path: Seq<char>, upto: nat) -> bool
        decreases self, upto,
    {
        if upto == 0 || upto > self.children.len() {
            false
        } else {
            self.has_path_upto(path, (upto - 1) as nat) || self.children[upto - 1].has_path(path)
        }
    }

    /// The first child from `from` on that holds a node with the path
    /// `path`, or the number of children where there is none.
    pub open spec fn first_child_with(self, path: Seq<char>, from: nat) -> nat
        decreases self.children.len() - from,
    {
        if from >= self.children.len() {
            self.children.len()
        } else if self.children[from as int].has_path(path) {
            from
        } else {
            self.first_child_with(path, from + 1)
        }
    }

    /// The tree after a toggle of `path`: the first node in pre-order with
    /// that path has its expansion flag flipped where it is a directory;
    /// nothing else changes.
    pub open spec fn toggled(self, path: Seq<char>) -> NodeView
        decreases self,
    {
        if self.path == path {
            if self.is_dir {
                NodeView { is_expanded: !self.is_expanded, ..self }
            } else {
                self
            }
        } else {
            let hit = self.first_child_with(path, 0);
            if hit < self.children.len() {
                NodeView {
                    children: self.children.update(
                        hit as int,
                        self.children[hit as int].toggled(path),
                    ),
                    ..self
                }
            } else {
                self
            }
        }
    }
}

/// Where the first child with a path is found: no child before it holds the
/// path, and it does.
pub proof fn lemma_first_child_with(node: NodeView, path: Seq<char>, from: nat)
    requires
        from <= node.children.len(),
    ensures
        from <= node.first_child_with(path, from) <= node.children.len(),
        forall|j: int|
            from <= j < node.first_child_with(path, from) ==> !(
            #[trigger] node.children[j]).has_path(path),
        node.first_child_with(path, from) < node.children.len() ==> node.children[node.first_child_with(
            path,
            from,
        ) as int].has_path(path),
    decreases node.children.len() - from,
{
    if from < node.children.len() && !node.children[from as int].has_path(path) {
        lemma_first_child_with(node, path, from + 1);
    }
}

/// A path is below the first children just where one of them holds it.
pub proof fn lemma_has_path_upto(node: NodeView, path: Seq<char>, upto: nat)
    requires
        upto <= node.children.len(),
    ensures
        node.has_path_upto(path, upto) <==> exists|j: int|
            0 <= j < upto && (#[trigger] node.children[j]).has_path(path),
    decreases upto,
{
    if upto > 0 {
        lemma_has_path_upto(node, path, (upto - 1) as nat);
        if node.children[upto - 1].has_path(path) {
            assert(0 <= upto - 1 < upto && node.children[upto - 1].has_path(path));
        }
    }
}

/// A toggle of a path that no node has changes nothing.
pub proof fn law_toggle_of_unknown_path(tree: NodeView, path: Seq<char>)
    requires
        !tree.has_path(path),
    ensures
        tree.toggled(path) == tree,
{
    lemma_first_child_with(tree, path, 0);
    lemma_has_path_upto(tree, path, tree.children.len());
}

/// A toggle leaves the height of a tree as it is.
pub proof fn lemma_toggled_height(tree: NodeView, path: Seq<char>)
    ensures
        tree.toggled(path).height() == tree.height(),
    decreases tree,
{
    if tree.path != path {
        let hit = tree.first_child_with(path, 0);
        if hit < tree.children.len() {
            lemma_toggled_height(tree.children[hit as int], path);
            lemma_height_upto_same(tree, tree.toggled(path), tree.children.len());
        }
    } else {
        lemma_height_upto_same(tree, tree.toggled(path), tree.children.len());
    }
}

proof fn lemma_height_upto_same(a: NodeView, b: NodeView, upto: nat)
    requires
        a.children.len() == b.children.len(),
        upto <= a.children.len(),
        forall|i: int| 0 <= i < a.children.len() ==> a.children[i].height() == b.children[i].height(),
    ensures
        a.height_upto(upto) == b.height_upto(upto),
    decreases upto,
{
    if upto > 0 {
        lemma_height_upto_same(a, b, (upto - 1) as nat);
    }
}

impl FileNode {
    /// Flips the expansion flag of the first node in pre-order whose path
    /// is `path`, where that node is a directory, and says whether a node
    /// with that path was found.
    pub fn toggle(&mut self, path: &str) -> (found: bool)
        ensures
            final(self)@ == old(self)@.toggled(path@),
            found == old(self)@.has_path(path@),
        decreases old(self)@,
    {
        proof {
            lemma_view_children(&*self);
        }
        if is_same_text(self.path.as_str(), path) {
            if self.is_dir {
                let ghost before = self@;
                self.is_expanded = !self.is_expanded;
                proof {
                    lemma_view_children(&*self);
                    assert(self@.children =~= before.children);
                }
            }
            return true;
        }
        let n = self.children.len();
        let mut i: usize = 0;
        while i < n
            invariant
                i <= n,
                n == self.children@.len(),
                self@ == old(self)@,
                self@.path != path@,
                forall|j: int| 0 <= j < i ==> !(#[trigger] self@.children[j]).has_path(path@),
            decreases n - i,
        {
            proof {
                lemma_view_children(&*self);
            }
            let ghost before = self@;
            let found = self.children[i].toggle(path);
            proof {
                lemma_view_children(&*self);
                lemma_first_child_with(before, path@, 0);
                lemma_has_path_upto(before, path@, n as nat);
                if found {
                    assert(before.first_child_with(path@, 0) == i);
                    assert(self@.children =~= before.children.update(
                        i as int,
                        before.children[i as int].toggled(path@),
                    ));
                } else {
                    law_toggle_of_unknown_path(before.children[i as int], path@);
                    assert(self@.children =~= before.children);
                }
            }
            if found {
                return true;
            }
            i += 1;
        }
        proof {
            lemma_first_child_with(self@, path@, 0);
            lemma_has_path_upto(self@, path@, n as nat);
        }
        false
    }
}


/// What a node is by itself, its children left aside but for their number.
pub struct NodeLabel {
    pub name: Seq<char>,
    pub path: Seq<char>,
    pub is_dir: bool,
    pub metrics: Metrics,
    pub is_expanded: bool,
    pub child_count: nat,
}

/// A row by the label of its node.
pub type LabelRow = (nat, NodeLabel);

impl NodeLabel {
    /// The label with the expansion flag flipped.
    pub open spec fn flipped(self) -> NodeLabel {
        NodeLabel { is_expanded: !self.is_expanded, ..self }
    }
}

impl NodeView {
    /// What the node is by itself.
    pub open spec fn label(self) -> NodeLabel {
        NodeLabel {
            name: self.name,
            path: self.path,
            is_dir: self.is_dir,
            metrics: self.metrics,
            is_expanded: self.is_expanded,
            child_count: self.children.len(),
        }
    }

    /// The labels of all nodes of the tree in pre-order, shown or not.
    pub open spec fn labels(self) -> Seq<NodeLabel>
        decreases self, self.children.len() + 1,
    {
        seq![self.label()] + self.labels_upto(self.children.len())
    }

    /// The labels of all nodes at and below the first `upto` children.
    pub open spec fn labels_upto(self, upto: nat) -> Seq<NodeLabel>
        decreases self, upto,
    {
        if upto == 0 || upto > self.children.len() {
            Seq::empty()
        } else {
            self.labels_upto((upto - 1) as nat) + self.children[upto - 1].labels()
        }
    }

    /// The first node in pre-order with the path `path`.
    pub open spec fn find(self, path: Seq<char>) -> Option<NodeView>
        decreases self,
    {
        if self.path == path {
            Some(self)
        } else {
            let hit = self.first_child_with(path, 0);
            if hit < self.children.len() {
                self.children[hit as int].find(path)
            } else {
                None
            }
        }
    }

    /// Where the first node with the path `path` stands among all nodes in
    /// pre-order.
    pub open spec fn index_of(self, path: Seq<char>) -> nat
        decreases self,
    {
        if self.path == path {
            0
        } else {
            let hit = self.first_child_with(path, 0);
            if hit < self.children.len() {
                1 + self.labels_upto(hit).len() + self.children[hit as int].index_of(path)
            } else {
                0
            }
        }
    }

    /// The number of visible rows of the tree.
    pub open spec fn visible(self) -> nat
        decreases self, self.children.len() + 1,
    {
        1 + if self.shows_children() {
            self.visible_upto(self.children.len())
        } else {
            0
        }
    }

    /// The number of visible rows of the first `upto` children.
    pub open spec fn visible_upto(self, upto: nat) -> nat
        decreases self, upto,
    {
        if upto == 0 || upto > self.children.len() {
            0
        } else {
            self.visible_upto((upto - 1) as nat) + self.children[upto - 1].visible()
        }
    }

    /// Where the first node with the path `path` stands among the visible
    /// rows, where it is visible.
    pub open spec fn row_of(self, path: Seq<char>) -> Option<nat>
        decreases self,
    {
        if self.path == path {
            Some(0)
        } else if !self.shows_children() {
            None
        } else {
            let hit = self.first_child_with(path, 0);
            if hit < self.children.len() {
                match self.children[hit as int].row_of(path) {
                    Some(k) => Some(1 + self.visible_upto(hit) + k),
                    None => None,
                }
            } else {
                None
            }
        }
    }
}

/// Rows by the labels of their nodes.
pub open spec fn row_labels(rows: Seq<Row>) -> Seq<LabelRow> {
    Seq::new(rows.len(), |i: int| (rows[i].0, rows[i].1.label()))
}

/// `rows` with the `count` rows from `at` on taken out and `with` put in
/// their place.
pub open spec fn replaced(rows: Seq<LabelRow>, at: int, count: int, with: Seq<LabelRow>) -> Seq<
    LabelRow,
> {
    rows.subrange(0, at) + with + rows.subrange(at + count, rows.len() as int)
}

/// Whether `after` is `before` with the rows of the directory `node`, which
/// start at `at`, replaced by its rows after a toggle of `path`.
pub open spec fn rows_replaced(
    before: Seq<LabelRow>,
    after: Seq<LabelRow>,
    at: int,
    node: NodeView,
    path: Seq<char>,
) -> bool {
    &&& 0 <= at
    &&& at + node.visible() <= before.len()
    &&& before.subrange(at, at + node.visible()) == row_labels(node.rows(before[at].0))
    &&& after == replaced(
        before,
        at,
        node.visible() as int,
        row_labels(node.toggled(path).rows(before[at].0)),
    )
}

/// A tree has as many visible rows as it has rows.
pub proof fn lemma_rows_len(tree: NodeView, depth: nat)
    ensures
        tree.rows(depth).len() == tree.visible(),
    decreases tree, tree.children.len() + 1,
{
    if tree.shows_children() {
        lemma_rows_upto_len(tree, tree.children.len(), depth + 1);
    }
}

/// The first children have as many visible rows as they have rows.
pub proof fn lemma_rows_upto_len(tree: NodeView, upto: nat, depth: nat)
    requires
        upto <= tree.children.len(),
    ensures
        tree.rows_upto(upto, depth).len() == tree.visible_upto(upto),
    decreases tree, upto,
{
    if upto > 0 {
        lemma_rows_upto_len(tree, (upto - 1) as nat, depth);
        lemma_rows_len(tree.children[upto - 1], depth);
    }
}

/// A node with a path is found just where the tree has the path.
pub proof fn lemma_find(tree: NodeView, path: Seq<char>)
    ensures
        tree.find(path) is Some <==> tree.has_path(path),
        tree.find(path) matches Some(node) ==> node.path == path,
    decreases tree,
{
    lemma_first_child_with(tree, path, 0);
    lemma_has_path_upto(tree, path, tree.children.len());
    let hit = tree.first_child_with(path, 0);
    if tree.path != path && hit < tree.children.len() {
        lemma_find(tree.children[hit as int], path);
    }
}

/// A toggle of the path of a file changes nothing.
pub proof fn law_toggle_of_file_path(tree: NodeView, path: Seq<char>)
    requires
        tree.find(path) matches Some(node) && !node.is_dir,
    ensures
        tree.toggled(path) == tree,
    decreases tree,
{
    if tree.path != path {
        let hit = tree.first_child_with(path, 0);
        law_toggle_of_file_path(tree.children[hit as int], path);
        assert(tree.children.update(hit as int, tree.children[hit as int]) =~= tree.children);
    }
}

/// Trees with the same children have the same labels below them.
proof fn lemma_labels_upto_same(a: NodeView, b: NodeView, upto: nat)
    requires
        a.children.len() == b.children.len(),
        upto <= a.children.len(),
        forall|i: int| 0 <= i < upto ==> a.children[i] == b.children[i],
    ensures
        a.labels_upto(upto) == b.labels_upto(upto),
    decreases upto,
{
    if upto > 0 {
        lemma_labels_upto_same(a, b, (upto - 1) as nat);
    }
}

/// A toggle of the path of a directory flips the expansion flag of that
/// directory and changes nothing else: among the labels of all nodes in
/// pre-order, that of the first node with the path has its flag flipped, and
/// every other label stays as it is.
pub proof fn law_toggle_of_directory_path(tree: NodeView, path: Seq<char>)
    requires
        tree.find(path) matches Some(node) && node.is_dir,
    ensures
        tree.index_of(path) < tree.labels().len(),
        tree.labels()[tree.index_of(path) as int] == tree.find(path)->0.label(),
        tree.toggled(path).labels() == tree.labels().update(
            tree.index_of(path) as int,
            tree.find(path)->0.label().flipped(),
        ),
    decreases tree, tree.children.len() + 1,
{
    let after = tree.toggled(path);
    if tree.path == path {
        lemma_labels_upto_same(tree, after, tree.children.len());
        assert(after.labels() =~= tree.labels().update(0, tree.label().flipped()));
    } else {
        let hit = tree.first_child_with(path, 0);
        lemma_toggled_labels_upto(tree, path, tree.children.len());
        let offset = tree.labels_upto(hit).len();
        let inner = tree.children[hit as int].index_of(path);
        assert(after.label() == tree.label());
        assert(after.labels() =~= tree.labels().update(
            (1 + offset + inner) as int,
            tree.find(path)->0.label().flipped(),
        ));
    }
}

proof fn lemma_toggled_labels_upto(tree: NodeView, path: Seq<char>, upto: nat)
    requires
        tree.path != path,
        tree.find(path) matches Some(node) && node.is_dir,
        upto <= tree.children.len(),
    ensures
        ({
            let hit = tree.first_child_with(path, 0);
            let at = tree.labels_upto(hit).len() + tree.children[hit as int].index_of(path);
            let before = tree.labels_upto(upto);
            let after = tree.toggled(path).labels_upto(upto);
            if upto <= hit {
                after == before
            } else {
                &&& at < before.len()
                &&& before[at as int] == tree.find(path)->0.label()
                &&& after == before.update(at as int, tree.find(path)->0.label().flipped())
            }
        }),
    decreases tree, upto,
{
    let hit = tree.first_child_with(path, 0);
    let toggled = tree.toggled(path);
    let child = tree.children[hit as int];
    let offset = tree.labels_upto(hit).len();
    let at = offset + child.index_of(path);
    let flipped = tree.find(path)->0.label().flipped();
    if upto > 0 {
        lemma_toggled_labels_upto(tree, path, (upto - 1) as nat);
        let before = tree.labels_upto(upto);
        let after = toggled.labels_upto(upto);
        if upto - 1 == hit {
            law_toggle_of_directory_path(child, path);
            assert(toggled.children[hit as int] == child.toggled(path));
            assert(after =~= before.update(at as int, flipped));
        } else if upto - 1 > hit {
            assert(toggled.children[upto - 1] == tree.children[upto - 1]);
            assert(after =~= before.update(at as int, flipped));
        } else {
            assert(toggled.children[upto - 1] == tree.children[upto - 1]);
        }
    }
}

/// A toggle leaves every path where it is.
pub proof fn lemma_toggled_has_path(tree: NodeView, path: Seq<char>, other: Seq<char>)
    ensures
        tree.toggled(path).has_path(other) == tree.has_path(other),
        tree.toggled(path).path == tree.path,
        tree.toggled(path).children.len() == tree.children.len(),
    decreases tree, tree.children.len() + 1,
{
    lemma_toggled_has_path_upto(tree, path, other, tree.children.len());
}

proof fn lemma_toggled_has_path_upto(tree: NodeView, path: Seq<char>, other: Seq<char>, upto: nat)
    requires
        upto <= tree.children.len(),
    ensures
        tree.toggled(path).children.len() == tree.children.len(),
        tree.toggled(path).has_path_upto(other, upto) == tree.has_path_upto(other, upto),
    decreases tree, upto,
{
    if upto > 0 {
        lemma_toggled_has_path_upto(tree, path, other, (upto - 1) as nat);
        let hit = tree.first_child_with(path, 0);
        if tree.path != path && hit == upto - 1 {
            lemma_toggled_has_path(tree.children[upto - 1], path, other);
        }
    }
}

proof fn lemma_toggled_first_child(tree: NodeView, path: Seq<char>, from: nat)
    requires
        from <= tree.children.len(),
    ensures
        tree.toggled(path).first_child_with(path, from) == tree.first_child_with(path, from),
    decreases tree.children.len() - from,
{
    lemma_toggled_has_path(tree, path, path);
    if from < tree.children.len() {
        let hit = tree.first_child_with(path, 0);
        if tree.path != path && hit == from {
            lemma_toggled_has_path(tree.children[from as int], path, path);
        }
        lemma_first_child_with(tree, path, 0);
        if !tree.children[from as int].has_path(path) {
            lemma_toggled_first_child(tree, path, from + 1);
        }
    }
}

/// A directory has two states: a second toggle of a path undoes the first.
pub proof fn law_toggle_twice_restores(tree: NodeView, path: Seq<char>)
    ensures
        tree.toggled(path).toggled(path) == tree,
    decreases tree,
{
    let once = tree.toggled(path);
    if tree.path != path {
        let hit = tree.first_child_with(path, 0);
        lemma_toggled_first_child(tree, path, 0);
        if hit < tree.children.len() {
            law_toggle_twice_restores(tree.children[hit as int], path);
            assert(once.toggled(path).children =~= tree.children);
        }
    }
}

/// The labels of rows put one behind the other.
proof fn lemma_row_labels_add(a: Seq<Row>, b: Seq<Row>)
    ensures
        row_labels(a + b) == row_labels(a) + row_labels(b),
{
    assert(row_labels(a + b) =~= row_labels(a) + row_labels(b));
}

/// A replacement among rows stays one with rows put before them.
proof fn lemma_replaced_behind(
    front: Seq<LabelRow>,
    before: Seq<LabelRow>,
    after: Seq<LabelRow>,
    at: int,
    node: NodeView,
    path: Seq<char>,
)
    requires
        rows_replaced(before, after, at, node, path),
        node.visible() >= 1,
    ensures
        rows_replaced(front + before, front + after, front.len() + at, node, path),
{
    let count = node.visible() as int;
    let all = front + before;
    let shifted = front.len() + at;
    assert(all[shifted] == before[at]);
    assert(all.subrange(shifted, shifted + count) =~= before.subrange(at, at + count));
    let with = row_labels(node.toggled(path).rows(before[at].0));
    assert(front + after =~= replaced(all, shifted, count, with));
}

/// A replacement among rows stays one with rows put behind them.
proof fn lemma_replaced_before(
    before: Seq<LabelRow>,
    after: Seq<LabelRow>,
    back: Seq<LabelRow>,
    at: int,
    node: NodeView,
    path: Seq<char>,
)
    requires
        rows_replaced(before, after, at, node, path),
        node.visible() >= 1,
    ensures
        rows_replaced(before + back, after + back, at, node, path),
{
    let count = node.visible() as int;
    let all = before + back;
    assert(all[at] == before[at]);
    assert(all.subrange(at, at + count) =~= before.subrange(at, at + count));
    let with = row_labels(node.toggled(path).rows(before[at].0));
    assert(after + back =~= replaced(all, at, count, with));
}

/// A toggle of the path of a directory that is visible replaces the rows of
/// that directory, which are its own row and the rows of what is shown
/// below it, by its rows after the flip, and leaves every other row as it
/// is.  A toggle of a directory that is not visible leaves all rows as they
/// are.  Rows are compared by the labels of their nodes.
pub proof fn law_toggle_replaces_the_rows_of_one_directory(
    tree: NodeView,
    path: Seq<char>,
    depth: nat,
)
    requires
        tree.find(path) matches Some(node) && node.is_dir,
    ensures
        match tree.row_of(path) {
            Some(at) => rows_replaced(
                row_labels(tree.rows(depth)),
                row_labels(tree.toggled(path).rows(depth)),
                at as int,
                tree.find(path)->0,
                path,
            ),
            None => row_labels(tree.toggled(path).rows(depth)) == row_labels(tree.rows(depth)),
        },
    decreases tree, tree.children.len() + 1,
{
    let toggled = tree.toggled(path);
    let before = row_labels(tree.rows(depth));
    let after = row_labels(toggled.rows(depth));
    if tree.path == path {
        lemma_rows_len(tree, depth);
        assert(before.subrange(0, tree.visible() as int) =~= before);
        assert(after =~= replaced(before, 0, tree.visible() as int, after));
    } else {
        let hit = tree.first_child_with(path, 0);
        assert(toggled.label() == tree.label());
        if tree.shows_children() {
            let n = tree.children.len();
            lemma_toggled_rows_upto(tree, path, n, depth + 1);
            lemma_row_labels_add(seq![(depth, tree)], tree.rows_upto(n, depth + 1));
            lemma_row_labels_add(seq![(depth, toggled)], toggled.rows_upto(n, depth + 1));
            let head = row_labels(seq![(depth, tree)]);
            assert(row_labels(seq![(depth, toggled)]) =~= head);
            let below = row_labels(tree.rows_upto(n, depth + 1));
            let below_after = row_labels(toggled.rows_upto(n, depth + 1));
            match tree.children[hit as int].row_of(path) {
                Some(k) => {
                    lemma_visible_at_least_one(tree.find(path)->0);
                    lemma_replaced_behind(
                        head,
                        below,
                        below_after,
                        (tree.visible_upto(hit) + k) as int,
                        tree.find(path)->0,
                        path,
                    );
                },
                None => {},
            }
        } else {
            assert(after =~= before);
        }
    }
}

/// Every tree shows at least the row of its root.
pub proof fn lemma_visible_at_least_one(tree: NodeView)
    ensures
        tree.visible() >= 1,
{
}

proof fn lemma_toggled_rows_upto(tree: NodeView, path: Seq<char>, upto: nat, depth: nat)
    requires
        tree.path != path,
        tree.find(path) matches Some(node) && node.is_dir,
        upto <= tree.children.len(),
    ensures
        ({
            let hit = tree.first_child_with(path, 0);
            let before = row_labels(tree.rows_upto(upto, depth));
            let after = row_labels(tree.toggled(path).rows_upto(upto, depth));
            if upto <= hit {
                after == before
            } else {
                match tree.children[hit as int].row_of(path) {
                    Some(k) => rows_replaced(
                        before,
                        after,
                        (tree.visible_upto(hit) + k) as int,
                        tree.find(path)->0,
                        path,
                    ),
                    None => after == before,
                }
            }
        }),
    decreases tree, upto,
{
    let hit = tree.first_child_with(path, 0);
    let toggled = tree.toggled(path);
    let child = tree.children[hit as int];
    let node = tree.find(path)->0;
    if upto > 0 {
        lemma_toggled_rows_upto(tree, path, (upto - 1) as nat, depth);
        let earlier = row_labels(tree.rows_upto((upto - 1) as nat, depth));
        let earlier_after = row_labels(toggled.rows_upto((upto - 1) as nat, depth));
        let last = tree.children[upto - 1];
        lemma_row_labels_add(tree.rows_upto((upto - 1) as nat, depth), last.rows(depth));
        lemma_row_labels_add(
            toggled.rows_upto((upto - 1) as nat, depth),
            toggled.children[upto - 1].rows(depth),
        );
        lemma_visible_at_least_one(node);
        if upto - 1 == hit {
            law_toggle_replaces_the_rows_of_one_directory(child, path, depth);
            lemma_rows_upto_len(tree, hit, depth);
            assert(toggled.children[hit as int] == child.toggled(path));
            match child.row_of(path) {
                Some(k) => {
                    lemma_replaced_behind(
                        earlier,
                        row_labels(child.rows(depth)),
                        row_labels(child.toggled(path).rows(depth)),
                        k as int,
                        node,
                        path,
                    );
                },
                None => {},
            }
        } else if upto - 1 > hit {
            assert(toggled.children[upto - 1] == last);
            match child.row_of(path) {
                Some(k) => {
                    lemma_replaced_before(
                        earlier,
                        earlier_after,
                        row_labels(last.rows(depth)),
                        (tree.visible_upto(hit) + k) as int,
                        node,
                        path,
                    );
                },
                None => {},
            }
        } else {
            assert(toggled.children[upto - 1] == last);
        }
    }
}

/// Collapsing a visible directory takes out of the rows just the rows of
/// what was shown below it: its own row stays, with the flag flipped, and
/// every row before and behind stays as it is.
pub proof fn law_collapse_removes_the_rows_below(tree: NodeView, path: Seq<char>, depth: nat)
    requires
        tree.find(path) matches Some(node) && node.is_dir && node.is_expanded,
        tree.row_of(path) is Some,
    ensures
        ({
            let at = tree.row_of(path)->0 as int;
            let node = tree.find(path)->0;
            let before = row_labels(tree.rows(depth));
            let after = row_labels(tree.toggled(path).rows(depth));
            &&& at + node.visible() <= before.len()
            &&& before[at] == (before[at].0, node.label())
            &&& before.subrange(at, at + node.visible()) == row_labels(node.rows(before[at].0))
            &&& after == before.subrange(0, at) + seq![(before[at].0, node.label().flipped())]
                + before.subrange(at + node.visible(), before.len() as int)
        }),
{
    law_toggle_replaces_the_rows_of_one_directory(tree, path, depth);
    lemma_find(tree, path);
    let at = tree.row_of(path)->0 as int;
    let node = tree.find(path)->0;
    let before = row_labels(tree.rows(depth));
    let collapsed = node.toggled(path);
    assert(row_labels(collapsed.rows(before[at].0)) =~= seq![
        (before[at].0, node.label().flipped()),
    ]);
    assert(before.subrange(at, at + node.visible())[0] == before[at]);
    assert(row_labels(node.rows(before[at].0))[0] == (before[at].0, node.label()));
}

} // verus!
