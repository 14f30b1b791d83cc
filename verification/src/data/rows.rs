use super::tree::NodeView;
use vstd::prelude::*;

verus! {

/// The rows of the first children come first among the rows of more
/// children.
pub proof fn lemma_line_rows_upto_prefix(
    node: NodeView,
    a: nat,
    b: nat,
    depth: nat,
    ancestors: Seq<bool>,
)
    requires
        a <= b <= node.children.len(),
    ensures
        node.line_rows_upto(a, depth, ancestors).len() <= node.line_rows_upto(
            b,
            depth,
            ancestors,
        ).len(),
        node.line_rows_upto(b, depth, ancestors).subrange(
            0,
            node.line_rows_upto(a, depth, ancestors).len() as int,
        ) == node.line_rows_upto(a, depth, ancestors),
    decreases b,
{
    let short = node.line_rows_upto(a, depth, ancestors);
    let long = node.line_rows_upto(b, depth, ancestors);
    if a < b {
        lemma_line_rows_upto_prefix(node, a, (b - 1) as nat, depth, ancestors);
        let middle = node.line_rows_upto((b - 1) as nat, depth, ancestors);
        assert(long.subrange(0, short.len() as int) =~= middle.subrange(0, short.len() as int));
    } else {
        assert(long.subrange(0, short.len() as int) =~= short);
    }
}

/// In the rows with connector information, every row carries one flag for
/// each level above it: the list of flags is as long as the row is deep.
pub proof fn law_ancestor_flags_are_as_many_as_the_depth(
    tree: NodeView,
    depth: nat,
    is_last: bool,
    ancestors: Seq<bool>,
)
    requires
        ancestors.len() == depth,
    ensures
        forall|i: int|
            0 <= i < tree.line_rows(depth, is_last, ancestors).len() ==> (#[trigger] tree.line_rows(
                depth,
                is_last,
                ancestors,
            )[i]).3.len() == tree.line_rows(depth, is_last, ancestors)[i].0,
    decreases tree, tree.children.len() + 1,
{
    let rows = tree.line_rows(depth, is_last, ancestors);
    if tree.shows_children() {
        let below = tree.line_rows_upto(tree.children.len(), depth + 1, ancestors.push(!is_last));
        lemma_ancestor_flags_upto(tree, tree.children.len(), depth + 1, ancestors.push(!is_last));
        assert forall|i: int| 0 <= i < rows.len() implies (#[trigger] rows[i]).3.len()
            == rows[i].0 by {
            if i > 0 {
                assert(rows[i] == below[i - 1]);
            }
        }
    }
}

proof fn lemma_ancestor_flags_upto(tree: NodeView, upto: nat, depth: nat, ancestors: Seq<bool>)
    requires
        ancestors.len() == depth,
        upto <= tree.children.len(),
    ensures
        forall|i: int|
            0 <= i < tree.line_rows_upto(upto, depth, ancestors).len() ==> (
            #[trigger] tree.line_rows_upto(upto, depth, ancestors)[i]).3.len()
                == tree.line_rows_upto(upto, depth, ancestors)[i].0,
    decreases tree, upto,
{
    if upto > 0 {
        lemma_ancestor_flags_upto(tree, (upto - 1) as nat, depth, ancestors);
        law_ancestor_flags_are_as_many_as_the_depth(
            tree.children[upto - 1],
            depth,
            upto == tree.children.len(),
            ancestors,
        );
        let rows = tree.line_rows_upto(upto, depth, ancestors);
        let before = tree.line_rows_upto((upto - 1) as nat, depth, ancestors);
        let own = tree.children[upto - 1].line_rows(depth, upto == tree.children.len(), ancestors);
        assert forall|i: int| 0 <= i < rows.len() implies (#[trigger] rows[i]).3.len()
            == rows[i].0 by {
            if i < before.len() {
                assert(rows[i] == before[i]);
            } else {
                assert(rows[i] == own[i - before.len()]);
            }
        }
    }
}

/// The rows with connector information are the visible rows, in the same
/// order, with the same depths.
pub proof fn law_line_rows_follow_the_rows(
    tree: NodeView,
    depth: nat,
    is_last: bool,
    ancestors: Seq<bool>,
)
    ensures
        tree.line_rows(depth, is_last, ancestors).len() == tree.rows(depth).len(),
        forall|i: int|
            0 <= i < tree.rows(depth).len() ==> {
                &&& (#[trigger] tree.line_rows(depth, is_last, ancestors)[i]).0 == tree.rows(
                    depth,
                )[i].0
                &&& tree.line_rows(depth, is_last, ancestors)[i].1 == tree.rows(depth)[i].1
            },
    decreases tree, tree.children.len() + 1,
{
    let lines = tree.line_rows(depth, is_last, ancestors);
    let rows = tree.rows(depth);
    if tree.shows_children() {
        let n = tree.children.len();
        lemma_line_rows_follow_upto(tree, n, depth + 1, ancestors.push(!is_last));
        let lines_below = tree.line_rows_upto(n, depth + 1, ancestors.push(!is_last));
        let rows_below = tree.rows_upto(n, depth + 1);
        assert forall|i: int| 0 <= i < rows.len() implies (#[trigger] lines[i]).0 == rows[i].0
            && lines[i].1 == rows[i].1 by {
            if i > 0 {
                assert(lines[i] == lines_below[i - 1]);
                assert(rows[i] == rows_below[i - 1]);
            }
        }
    }
}

proof fn lemma_line_rows_follow_upto(tree: NodeView, upto: nat, depth: nat, ancestors: Seq<bool>)
    requires
        upto <= tree.children.len(),
    ensures
        tree.line_rows_upto(upto, depth, ancestors).len() == tree.rows_upto(upto, depth).len(),
        forall|i: int|
            0 <= i < tree.rows_upto(upto, depth).len() ==> {
                &&& (#[trigger] tree.line_rows_upto(upto, depth, ancestors)[i]).0
                    == tree.rows_upto(upto, depth)[i].0
                &&& tree.line_rows_upto(upto, depth, ancestors)[i].1 == tree.rows_upto(
                    upto,
                    depth,
                )[i].1
            },
    decreases tree, upto,
{
    if upto > 0 {
        lemma_line_rows_follow_upto(tree, (upto - 1) as nat, depth, ancestors);
        law_line_rows_follow_the_rows(
            tree.children[upto - 1],
            depth,
            upto == tree.children.len(),
            ancestors,
        );
        let lines = tree.line_rows_upto(upto, depth, ancestors);
        let rows = tree.rows_upto(upto, depth);
        let lines_before = tree.line_rows_upto((upto - 1) as nat, depth, ancestors);
        let rows_before = tree.rows_upto((upto - 1) as nat, depth);
        let own_lines = tree.children[upto - 1].line_rows(
            depth,
            upto == tree.children.len(),
            ancestors,
        );
        let own_rows = tree.children[upto - 1].rows(depth);
        assert forall|i: int| 0 <= i < rows.len() implies (#[trigger] lines[i]).0 == rows[i].0
            && lines[i].1 == rows[i].1 by {
            if i < rows_before.len() {
                assert(lines[i] == lines_before[i]);
                assert(rows[i] == rows_before[i]);
            } else {
                assert(lines[i] == own_lines[i - rows_before.len()]);
                assert(rows[i] == own_rows[i - rows_before.len()]);
            }
        }
    }
}

/// Among the rows of an expanded directory, the row of each child comes
/// behind the rows of the children before it, one level deeper than the
/// directory, and is marked as last just where the child is the final one
/// of the directory.
pub proof fn law_last_sibling_is_the_final_child(
    tree: NodeView,
    child: int,
    depth: nat,
    is_last: bool,
    ancestors: Seq<bool>,
)
    requires
        tree.shows_children(),
        0 <= child < tree.children.len(),
    ensures
        ({
            let rows = tree.line_rows(depth, is_last, ancestors);
            let at = 1 + tree.line_rows_upto(
                child as nat,
                depth + 1,
                ancestors.push(!is_last),
            ).len();
            &&& at < rows.len()
            &&& rows[at as int] == (
                (depth + 1) as nat,
                tree.children[child],
                child == tree.children.len() - 1,
                ancestors.push(!is_last),
            )
        }),
{
    let below = ancestors.push(!is_last);
    let all = tree.line_rows_upto(tree.children.len(), depth + 1, below);
    let before = tree.line_rows_upto(child as nat, depth + 1, below);
    let with = tree.line_rows_upto((child + 1) as nat, depth + 1, below);
    lemma_line_rows_upto_prefix(tree, (child + 1) as nat, tree.children.len(), depth + 1, below);
    let own = tree.children[child].line_rows(depth + 1, child + 1 == tree.children.len(), below);
    assert(with == before + own);
    assert(own[0] == ((depth + 1) as nat, tree.children[child], child + 1 == tree.children.len(), below));
    assert(with[before.len() as int] == own[0]);
    assert(all.subrange(0, with.len() as int)[before.len() as int] == all[before.len() as int]);
}

} // verus!
