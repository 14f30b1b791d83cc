use super::metrics::Metrics;
use vstd::prelude::*;
use vstd::slice::slice_to_vec;

verus! {

/// A node of the file tree: one entry of the file system.
#[derive(Debug)]
pub struct FileNode {
    /// Base name.
    pub name: String,
    /// Path, by which navigation finds the node again.
    pub path: String,
    pub is_dir: bool,
    /// The entries of a directory, owned by it.
    pub children: Vec<FileNode>,
    pub metrics: Metrics,
    /// Whether the children of a directory are shown.
    pub is_expanded: bool,
}

/// A file tree as contracts see it.
pub struct NodeView {
    pub name: Seq<char>,
    pub path: Seq<char>,
    pub is_dir: bool,
    pub children: Seq<NodeView>,
    pub metrics: Metrics,
    pub is_expanded: bool,
}

impl View for FileNode {
    type V = NodeView;

    open spec fn view(&self) -> NodeView {
        self.model()
    }
}

impl FileNode {
    /// The tree that contracts see in place of this node.
    pub open spec fn model(&self) -> NodeView
        decreases self,
    {
        NodeView {
            name: self.name@,
            path: self.path@,
            is_dir: self.is_dir,
            children: Seq::new(
                self.children@.len(),
                |i: int|
                    if 0 <= i < self.children@.len() {
                        self.children@[i].model()
                    } else {
                        arbitrary()
                    },
            ),
            metrics: self.metrics,
            is_expanded: self.is_expanded,
        }
    }
}

impl Clone for FileNode {
    /// A copy of the whole tree.
    fn clone(&self) -> (copy: FileNode)
        ensures
            copy@ == self@,
        decreases self,
    {
        let mut children: Vec<FileNode> = Vec::new();
        let n = self.children.len();
        let mut i: usize = 0;
        while i < n
            invariant
                i <= n,
                n == self.children@.len(),
                children@.len() == i,
                forall|j: int| 0 <= j < i ==> (#[trigger] children@[j])@ == self.children@[j]@,
            decreases n - i,
        {
            children.push(self.children[i].clone());
            i += 1;
        }
        let copy = FileNode {
            name: self.name.clone(),
            path: self.path.clone(),
            is_dir: self.is_dir,
            children,
            metrics: self.metrics,
            is_expanded: self.is_expanded,
        };
        proof {
            lemma_view_children(self);
            lemma_view_children(&copy);
            assert(copy@.children =~= self@.children);
        }
        copy
    }
}

/// The children of a node's view are the views of its children.
pub proof fn lemma_view_children(node: &FileNode)
    ensures
        node@.children.len() == node.children@.len(),
        forall|i: int|
            0 <= i < node.children@.len() ==> node@.children[i] == (#[trigger] node.children@[i])@,
        node@.name == node.name@,
        node@.path == node.path@,
        node@.is_dir == node.is_dir,
        node@.metrics == node.metrics,
        node@.is_expanded == node.is_expanded,
{
    reveal_with_fuel(FileNode::model, 2);
    assert(node@.children.len() == node.children@.len());
}

/// One row of the flattened tree: a depth and the node shown there.
pub type Row = (nat, NodeView);

/// One row with what the connector lines need: whether the node is the
/// last of its siblings, and for each ancestor level whether siblings of
/// that ancestor follow further down.
pub type LineRow = (nat, NodeView, bool, Seq<bool>);

impl NodeView {
    /// Whether the rows of the children follow the row of this node.
    pub open spec fn shows_children(self) -> bool {
        self.is_expanded && self.is_dir
    }

    /// The number of levels of the tree.
    pub open spec fn height(self) -> nat
        decreases self, self.children.len() + 1,
    {
        1 + self.height_upto(self.children.len())
    }

    /// The largest height among the first `upto` children.
    pub open spec fn height_upto(self, upto: nat) -> nat
        decreases self, upto,
    {
        if upto == 0 || upto > self.children.len() {
            0
        } else {
            let rest = self.height_upto((upto - 1) as nat);
            let last = self.children[upto - 1].height();
            if rest >= last {
                rest
            } else {
                last
            }
        }
    }

    /// The number of levels of what is shown of the tree: one for the node
    /// itself, and where it is an expanded directory the levels shown of its
    /// children below it.
    pub open spec fn visible_height(self) -> nat
        decreases self, self.children.len() + 1,
    {
        1 + if self.shows_children() {
            self.visible_height_upto(self.children.len())
        } else {
            0
        }
    }

    /// The largest number of levels shown among the first `upto` children.
    pub open spec fn visible_height_upto(self, upto: nat) -> nat
        decreases self, upto,
    {
        if upto == 0 || upto > self.children.len() {
            0
        } else {
            let rest = self.visible_height_upto((upto - 1) as nat);
            let last = self.children[upto - 1].visible_height();
            if rest >= last {
                rest
            } else {
                last
            }
        }
    }

    /// The visible rows in pre-order: the node itself at `depth`, then, where
    /// it is an expanded directory, the rows of its children one level
    /// deeper, in their stored order.
    pub open spec fn rows(self, depth: nat) -> Seq<Row>
        decreases self, self.children.len() + 1,
    {
        seq![(depth, self)] + if self.shows_children() {
            self.rows_upto(self.children.len(), depth + 1)
        } else {
            Seq::empty()
        }
    }

    /// The visible rows of the first `upto` children, each at `depth`.
    pub open spec fn rows_upto(self, upto: nat, depth: nat) -> Seq<Row>
        decreases self, upto,
    {
        if upto == 0 || upto > self.children.len() {
            Seq::empty()
        } else {
            self.rows_upto((upto - 1) as nat, depth) + self.children[upto - 1].rows(depth)
        }
    }

    /// The visible rows with what the connector lines need.  The traversal is
    /// that of `rows`; a child is last where it is the final one of its
    /// parent, and the children of a node see, at the node's own level,
    /// whether the node has siblings further down.
    pub open spec fn line_rows(self, depth: nat, is_last: bool, ancestors: Seq<bool>) -> Seq<
        LineRow,
    >
        decreases self, self.children.len() + 1,
    {
        seq![(depth, self, is_last, ancestors)] + if self.shows_children() {
            self.line_rows_upto(self.children.len(), depth + 1, ancestors.push(!is_last))
        } else {
            Seq::empty()
        }
    }

    /// The rows, with what the connector lines need, of the first `upto`
    /// children.
    pub open spec fn line_rows_upto(self, upto: nat, depth: nat, ancestors: Seq<bool>) -> Seq<
        LineRow,
    >
        decreases self, upto,
    {
        if upto == 0 || upto > self.children.len() {
            Seq::empty()
        } else {
            self.line_rows_upto((upto - 1) as nat, depth, ancestors) + self.children[upto
                - 1].line_rows(depth, upto == self.children.len(), ancestors)
        }
    }
}

/// Every child is less high than its parent.
pub proof fn lemma_child_height(node: NodeView, i: int)
    requires
        0 <= i < node.children.len(),
    ensures
        node.children[i].height() < node.height(),
{
    lemma_height_upto(node, node.children.len(), i);
}

proof fn lemma_height_upto(node: NodeView, upto: nat, i: int)
    requires
        0 <= i < upto <= node.children.len(),
    ensures
        node.children[i].height() <= node.height_upto(upto),
    decreases upto,
{
    if i < upto - 1 {
        lemma_height_upto(node, (upto - 1) as nat, i);
    }
}

/// Every child that is shown shows fewer levels than its parent.
pub proof fn lemma_child_visible_height(node: NodeView, i: int)
    requires
        node.shows_children(),
        0 <= i < node.children.len(),
    ensures
        node.children[i].visible_height() < node.visible_height(),
        node.children[i].visible_height() >= 1,
{
    lemma_visible_height_upto(node, node.children.len(), i);
}

proof fn lemma_visible_height_upto(node: NodeView, upto: nat, i: int)
    requires
        0 <= i < upto <= node.children.len(),
    ensures
        node.children[i].visible_height() <= node.visible_height_upto(upto),
    decreases upto,
{
    if i < upto - 1 {
        lemma_visible_height_upto(node, (upto - 1) as nat, i);
    }
}

/// No more levels are shown of a tree than it has.
pub proof fn lemma_visible_height_within(node: NodeView)
    ensures
        1 <= node.visible_height() <= node.height(),
    decreases node, node.children.len() + 1,
{
    if node.shows_children() {
        lemma_visible_height_upto_within(node, node.children.len());
    }
}

proof fn lemma_visible_height_upto_within(node: NodeView, upto: nat)
    requires
        upto <= node.children.len(),
    ensures
        node.visible_height_upto(upto) <= node.height_upto(upto),
    decreases node, upto,
{
    if upto > 0 {
        lemma_visible_height_upto_within(node, (upto - 1) as nat);
        lemma_visible_height_within(node.children[upto - 1]);
    }
}

/// The rows that a vector of flattened nodes stands for.
pub open spec fn rows_view<'a>(rows: Seq<(usize, &'a FileNode)>) -> Seq<Row> {
    Seq::new(rows.len(), |i: int| (rows[i].0 as nat, rows[i].1@))
}

/// The rows that a vector of flattened nodes with connector information
/// stands for.
pub open spec fn line_rows_view<'a>(rows: Seq<(usize, &'a FileNode, bool, Vec<bool>)>) -> Seq<
    LineRow,
> {
    Seq::new(rows.len(), |i: int| (rows[i].0 as nat, rows[i].1@, rows[i].2, rows[i].3@))
}

impl FileNode {
    /// A node without children and without metrics; directories start
    /// expanded.
    pub fn new(name: String, path: String, is_dir: bool) -> (node: FileNode)
        ensures
            node@ == (NodeView {
                name: name@,
                path: path@,
                is_dir,
                children: Seq::empty(),
                metrics: Metrics { lines: 0, change_frequency: crate::data::metrics::Rate {
                    micro_touches: 0,
                    window_days: 0,
                } },
                is_expanded: true,
            }),
    {
        let node = FileNode {
            name,
            path,
            is_dir,
            children: Vec::new(),
            metrics: Metrics::default(),
            is_expanded: true,
        };
        proof {
            lemma_view_children(&node);
            assert(node@.children =~= Seq::empty());
        }
        node
    }

    /// Appends a child.
    pub fn add_child(&mut self, child: FileNode)
        ensures
            final(self)@ == (NodeView { children: old(self)@.children.push(child@), ..old(self)@ }),
    {
        proof {
            lemma_view_children(&*self);
        }
        self.children.push(child);
        proof {
            lemma_view_children(&*self);
            assert(self@.children =~= old(self)@.children.push(child@));
        }
    }

    /// Appends the visible rows of this subtree to `result`, the node itself
    /// at `depth`.  The depth of the deepest row has to fit the machine.
    pub fn flatten<'a>(&'a self, depth: usize, result: &mut Vec<(usize, &'a FileNode)>)
        requires
            depth + self@.visible_height() - 1 <= usize::MAX,
        ensures
            rows_view(final(result)@) == rows_view(old(result)@) + self@.rows(depth as nat),
        decreases self,
    {
        result.push((depth, self));
        proof {
            lemma_view_children(self);
            assert(rows_view(result@) =~= rows_view(old(result)@) + seq![(depth as nat, self@)]);
        }
        if self.is_expanded && self.is_dir {
            let n = self.children.len();
            let mut i: usize = 0;
            while i < n
                invariant
                    i <= n,
                    n == self.children@.len(),
                    n == self@.children.len(),
                    self@.shows_children(),
                    depth + self@.visible_height() - 1 <= usize::MAX,
                    forall|j: int|
                        0 <= j < self.children@.len() ==> self@.children[j] == (
                        #[trigger] self.children@[j])@,
                    rows_view(result@) == rows_view(old(result)@) + seq![(depth as nat, self@)]
                        + self@.rows_upto(i as nat, (depth + 1) as nat),
                decreases n - i,
            {
                proof {
                    lemma_child_visible_height(self@, i as int);
                }
                let ghost before = rows_view(result@);
                self.children[i].flatten(depth + 1, result);
                proof {
                    assert(rows_view(result@) =~= before + self@.children[i as int].rows(
                        (depth + 1) as nat,
                    ));
                    assert(rows_view(result@) =~= rows_view(old(result)@) + seq![
                        (depth as nat, self@),
                    ] + self@.rows_upto((i + 1) as nat, (depth + 1) as nat));
                }
                i += 1;
            }
        }
    }

    /// Appends the visible rows of this subtree to `result`, each with what
    /// the connector lines need.  `is_last` says whether this node is the
    /// last of its siblings, `parent_lines` for each level above it whether
    /// siblings of the ancestor at that level follow.
    pub fn flatten_with_lines<'a>(
        &'a self,
        depth: usize,
        is_last: bool,
        parent_lines: &[bool],
        result: &mut Vec<(usize, &'a FileNode, bool, Vec<bool>)>,
    )
        requires
            depth + self@.visible_height() - 1 <= usize::MAX,
        ensures
            line_rows_view(final(result)@) == line_rows_view(old(result)@) + self@.line_rows(
                depth as nat,
                is_last,
                parent_lines@,
            ),
            final(result)@.len() >= old(result)@.len(),
            parent_lines@.len() == depth ==> forall|i: int|
                old(result)@.len() <= i < final(result)@.len() ==> (
                #[trigger] final(result)@[i]).3@.len() == final(result)@[i].0,
        decreases self,
    {
        result.push((depth, self, is_last, slice_to_vec(parent_lines)));
        proof {
            lemma_view_children(self);
            assert(line_rows_view(result@) =~= line_rows_view(old(result)@) + seq![
                (depth as nat, self@, is_last, parent_lines@),
            ]);
        }
        if self.is_expanded && self.is_dir {
            let n = self.children.len();
            let mut lines = slice_to_vec(parent_lines);
            lines.push(!is_last);
            let mut i: usize = 0;
            while i < n
                invariant
                    i <= n,
                    n == self.children@.len(),
                    n == self@.children.len(),
                    self@.shows_children(),
                    depth + self@.visible_height() - 1 <= usize::MAX,
                    lines@ == parent_lines@.push(!is_last),
                    forall|j: int|
                        0 <= j < self.children@.len() ==> self@.children[j] == (
                        #[trigger] self.children@[j])@,
                    line_rows_view(result@) == line_rows_view(old(result)@) + seq![
                        (depth as nat, self@, is_last, parent_lines@),
                    ] + self@.line_rows_upto(i as nat, (depth + 1) as nat, lines@),
                decreases n - i,
            {
                proof {
                    lemma_child_visible_height(self@, i as int);
                }
                let ghost before = line_rows_view(result@);
                let last_child = i + 1 == n;
                self.children[i].flatten_with_lines(depth + 1, last_child, lines.as_slice(), result);
                proof {
                    assert(line_rows_view(result@) =~= before + self@.children[i as int].line_rows(
                        (depth + 1) as nat,
                        last_child,
                        lines@,
                    ));
                    assert(line_rows_view(result@) =~= line_rows_view(old(result)@) + seq![
                        (depth as nat, self@, is_last, parent_lines@),
                    ] + self@.line_rows_upto((i + 1) as nat, (depth + 1) as nat, lines@));
                }
                i += 1;
            }
        }
        proof {
            let rows = self@.line_rows(depth as nat, is_last, parent_lines@);
            let before = line_rows_view(old(result)@);
            assert(line_rows_view(result@) == before + rows);
            assert(line_rows_view(result@).len() == result@.len());
            assert(before.len() == old(result)@.len());
            if parent_lines@.len() == depth {
                crate::data::rows::law_ancestor_flags_are_as_many_as_the_depth(
                    self@,
                    depth as nat,
                    is_last,
                    parent_lines@,
                );
                assert forall|i: int| old(result)@.len() <= i < result@.len() implies (
                #[trigger] result@[i]).3@.len() == result@[i].0 by {
                    let row = rows[i - before.len()];
                    assert(line_rows_view(result@)[i] == row);
                    assert(row.3.len() == row.0);
                }
            }
        }
    }

    /// Whether the rows of what is shown of the tree, the node itself at
    /// `depth`, have depths that fit the machine.
    pub fn depth_fits(&self, depth: usize) -> (fits: bool)
        ensures
            fits == (depth + self@.visible_height() - 1 <= usize::MAX),
        decreases self,
    {
        proof {
            lemma_view_children(self);
        }
        if !(self.is_expanded && self.is_dir) {
            return true;
        }
        let n = self.children.len();
        let mut i: usize = 0;
        while i < n
            invariant
                i <= n,
                n == self.children@.len(),
                n == self@.children.len(),
                self@.shows_children(),
                forall|j: int|
                    0 <= j < self.children@.len() ==> self@.children[j] == (
                    #[trigger] self.children@[j])@,
                depth + self@.visible_height_upto(i as nat) <= usize::MAX,
            decreases n - i,
        {
            proof {
                lemma_child_visible_height(self@, i as int);
                lemma_visible_height_upto(self@, n as nat, i as int);
            }
            if depth == usize::MAX {
                return false;
            }
            if !self.children[i].depth_fits(depth + 1) {
                return false;
            }
            i += 1;
        }
        true
    }

    /// Appends the visible rows of this subtree to `result`, the node itself
    /// at `depth`, where the depths of the rows fit the machine; else it
    /// leaves `result` as it is and says so.
    pub fn try_flatten<'a>(&'a self, depth: usize, result: &mut Vec<(usize, &'a FileNode)>) -> (done:
        bool)
        ensures
            done == (depth + self@.visible_height() - 1 <= usize::MAX),
            done ==> rows_view(final(result)@) == rows_view(old(result)@) + self@.rows(
                depth as nat,
            ),
            !done ==> final(result)@ == old(result)@,
    {
        if self.depth_fits(depth) {
            self.flatten(depth, result);
            true
        } else {
            false
        }
    }

    /// Appends the visible rows of this subtree to `result`, each with what
    /// the connector lines need, where the depths of the rows fit the
    /// machine; else it leaves `result` as it is and says so.
    pub fn try_flatten_with_lines<'a>(
        &'a self,
        depth: usize,
        is_last: bool,
        parent_lines: &[bool],
        result: &mut Vec<(usize, &'a FileNode, bool, Vec<bool>)>,
    ) -> (done: bool)
        ensures
            done == (depth + self@.visible_height() - 1 <= usize::MAX),
            done ==> line_rows_view(final(result)@) == line_rows_view(old(result)@)
                + self@.line_rows(depth as nat, is_last, parent_lines@),
            done && parent_lines@.len() == depth ==> forall|i: int|
                old(result)@.len() <= i < final(result)@.len() ==> (
                #[trigger] final(result)@[i]).3@.len() == final(result)@[i].0,
            !done ==> final(result)@ == old(result)@,
    {
        if self.depth_fits(depth) {
            self.flatten_with_lines(depth, is_last, parent_lines, result);
            true
        } else {
            false
        }
    }

    /// The number of levels of the tree, where it fits the machine.
    pub fn checked_height(&self) -> (height: Option<usize>)
        ensures
            match height {
                Some(h) => h == self@.height(),
                None => self@.height() > usize::MAX,
            },
        decreases self,
    {
        proof {
            lemma_view_children(self);
        }
        let n = self.children.len();
        let mut below: usize = 0;
        let mut i: usize = 0;
        while i < n
            invariant
                i <= n,
                n == self.children@.len(),
                n == self@.children.len(),
                forall|j: int|
                    0 <= j < self.children@.len() ==> self@.children[j] == (
                    #[trigger] self.children@[j])@,
                below == self@.height_upto(i as nat),
            decreases n - i,
        {
            match self.children[i].checked_height() {
                Some(h) => {
                    if h > below {
                        below = h;
                    }
                },
                None => {
                    proof {
                        lemma_child_height(self@, i as int);
                    }
                    return None;
                },
            }
            i += 1;
        }
        if below == usize::MAX {
            None
        } else {
            Some(below + 1)
        }
    }
}

} // verus!
