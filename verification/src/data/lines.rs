use super::order::{law_sorting_is_stable, lemma_place_from, place_from, placed};
use super::tree::NodeView;
use vstd::prelude::*;

verus! {

/// The sum of `values`.
pub open spec fn sum(values: Seq<nat>) -> nat
    decreases values.len(),
{
    if values.len() == 0 {
        0
    } else {
        sum(values.drop_last()) + values.last()
    }
}

/// A value put anywhere into a sequence adds itself to the sum.
pub proof fn lemma_sum_insert(values: Seq<nat>, at: int, value: nat)
    requires
        0 <= at <= values.len(),
    ensures
        sum(values.insert(at, value)) == sum(values) + value,
    decreases values.len(),
{
    let longer = values.insert(at, value);
    if at == values.len() {
        assert(longer.drop_last() =~= values);
    } else {
        assert(longer.drop_last() =~= values.drop_last().insert(at, value));
        lemma_sum_insert(values.drop_last(), at, value);
    }
}

impl NodeView {
    /// The lines of all files of the tree: those of the node itself where it
    /// is a file, and of the files below it where it is a directory.
    pub open spec fn file_lines(self) -> nat
        decreases self, self.children.len() + 1,
    {
        if self.is_dir {
            self.file_lines_upto(self.children.len())
        } else {
            self.metrics.lines as nat
        }
    }

    /// The lines of all files at and below the first `upto` children.
    pub open spec fn file_lines_upto(self, upto: nat) -> nat
        decreases self, upto,
    {
        if upto == 0 || upto > self.children.len() {
            0
        } else {
            self.file_lines_upto((upto - 1) as nat) + self.children[upto - 1].file_lines()
        }
    }

    /// Whether every node of the tree has as its line count the lines of
    /// its files.
    pub open spec fn lines_consistent(self) -> bool
        decreases self,
    {
        &&& self.metrics.lines == self.file_lines()
        &&& forall|i: int|
            0 <= i < self.children.len() ==> (#[trigger] self.children[i]).lines_consistent()
    }
}

/// The lines of the files of each of `nodes`.
pub open spec fn file_lines_of(nodes: Seq<NodeView>) -> Seq<nat> {
    Seq::new(nodes.len(), |i: int| nodes[i].file_lines())
}

/// The lines below the first children are the sum of the lines below each.
pub proof fn lemma_file_lines_upto(node: NodeView, upto: nat)
    requires
        upto <= node.children.len(),
    ensures
        node.file_lines_upto(upto) == sum(file_lines_of(node.children).take(upto as int)),
    decreases upto,
{
    let all = file_lines_of(node.children);
    if upto > 0 {
        lemma_file_lines_upto(node, (upto - 1) as nat);
        assert(all.take(upto as int).drop_last() =~= all.take(upto - 1));
    }
}

/// Sorting a tree leaves the lines of its files and its own metrics as
/// they are.
pub proof fn lemma_sorted_file_lines(tree: NodeView)
    ensures
        tree.sorted().file_lines() == tree.file_lines(),
        tree.sorted().metrics == tree.metrics,
        tree.sorted().is_dir == tree.is_dir,
    decreases tree, tree.children.len() + 1,
{
    if tree.is_dir {
        let sorted = tree.sorted();
        lemma_sorted_from_lines(tree, 0);
        lemma_file_lines_upto(sorted, sorted.children.len());
        lemma_file_lines_upto(tree, tree.children.len());
        assert(file_lines_of(sorted.children).take(sorted.children.len() as int) =~= file_lines_of(
            sorted.children,
        ));
        assert(file_lines_of(tree.children).take(tree.children.len() as int) =~= file_lines_of(
            tree.children,
        ));
        assert(file_lines_of(tree.children).skip(0) =~= file_lines_of(tree.children));
    }
}

proof fn lemma_sorted_from_lines(tree: NodeView, from: nat)
    requires
        from <= tree.children.len(),
    ensures
        sum(file_lines_of(tree.sorted_from(from))) == sum(
            file_lines_of(tree.children).skip(from as int),
        ),
        tree.sorted_from(from).len() == tree.children.len() - from,
    decreases tree, tree.children.len() - from,
{
    let all = file_lines_of(tree.children);
    if from < tree.children.len() {
        let rest = tree.sorted_from(from + 1);
        let node = tree.children[from as int].sorted();
        lemma_sorted_from_lines(tree, from + 1);
        lemma_sorted_file_lines(tree.children[from as int]);
        lemma_place_from(rest, node, 0);
        let at = place_from(rest, node, 0);
        assert(file_lines_of(placed(rest, node)) =~= file_lines_of(rest).insert(
            at,
            node.file_lines(),
        ));
        lemma_sum_insert(file_lines_of(rest), at, node.file_lines());
        assert(all.skip(from as int) =~= all.skip(from as int + 1).insert(0, all[from as int]));
        lemma_sum_insert(all.skip(from as int + 1), 0, all[from as int]);
    } else {
        assert(all.skip(from as int) =~= Seq::<nat>::empty());
        assert(file_lines_of(tree.sorted_from(from)) =~= Seq::<nat>::empty());
    }
}

/// Sorting a tree whose nodes have as line counts the lines of their files
/// gives such a tree.
pub proof fn lemma_sorted_lines_consistent(tree: NodeView)
    requires
        tree.lines_consistent(),
    ensures
        tree.sorted().lines_consistent(),
    decreases tree,
{
    lemma_sorted_file_lines(tree);
    law_sorting_is_stable(tree);
    let sorted = tree.sorted();
    let places = tree.places_from(0);
    assert forall|i: int| 0 <= i < sorted.children.len() implies (
    #[trigger] sorted.children[i]).lines_consistent() by {
        assert(sorted.children[i] == tree.children[places[i]].sorted());
        assert(tree.children[places[i]].lines_consistent());
        lemma_sorted_lines_consistent(tree.children[places[i]]);
    }
}

} // verus!
