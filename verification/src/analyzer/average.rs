use crate::analyzer::git::FrequencyMap;
use crate::analyzer::mean::{
    count_weight, countable_nodes, is_mean, lemma_mean_rate_is_mean, lemma_rate_sum_insert,
    lemma_total_insert, lines_total, lines_weight, rate_sum, total,
};
use crate::analyzer::scanner::{
    children_upto, entries_fit_upto, entry_count, entry_fits, entry_lines,
    lemma_children_lines, lemma_lines_upto_monotonic, lines_upto, listing_lines, node_of,
    rates_fit, scan_fits, tree_of, EntryKind, Listing,
};
use crate::data::lines::lemma_sorted_file_lines;
use crate::data::order::{law_sorting_is_stable, lemma_place_from, place_from};
use crate::data::tree::NodeView;
use crate::text::{hidden, joined};
use vstd::prelude::*;

verus! {

/// Whether every directory of the tree has the metrics that its children
/// give it: the sum of their lines, and as its change rate the unweighted
/// arithmetic mean of the rates of those that count.
pub open spec fn averaged(tree: NodeView) -> bool
    decreases tree,
{
    &&& tree.is_dir ==> tree.metrics.lines == lines_total(tree.children) && is_mean(
        tree.metrics.change_frequency,
        tree.children,
    )
    &&& forall|i: int| 0 <= i < tree.children.len() ==> averaged(#[trigger] tree.children[i])
}

/// Whether a weight looks at nothing of a node but its kind and its metrics.
pub open spec fn weighs_metrics(weight: spec_fn(NodeView) -> nat) -> bool {
    forall|a: NodeView, b: NodeView|
        a.is_dir == b.is_dir && a.metrics == b.metrics ==> #[trigger] weight(a) == #[trigger] weight(
            b,
        )
}

/// In the tree built from a listing that can be held, every directory has
/// the lines of its children in sum and the mean of their rates.
pub proof fn lemma_built_tree_is_averaged(
    listing: Listing,
    name: Seq<char>,
    path: Seq<char>,
    relative: Seq<char>,
    frequency_map: FrequencyMap,
)
    requires
        listing_lines(listing) <= usize::MAX,
        rates_fit(listing, path, relative, frequency_map),
    ensures
        averaged(tree_of(listing, name, path, relative, frequency_map)),
    decreases listing, entry_count(listing) + 1,
{
    let tree = tree_of(listing, name, path, relative, frequency_map);
    let count = entry_count(listing);
    lemma_children_are_averaged(listing, path, relative, frequency_map, count);
    lemma_children_lines(listing, path, relative, frequency_map, count);
    lemma_mean_rate_is_mean(tree.children);
    let nodes = children_upto(listing, path, relative, frequency_map, count);
    assert(tree.children == nodes);
    assert forall|i: int| 0 <= i < tree.children.len() implies averaged(
        #[trigger] tree.children[i],
    ) by {
        assert(averaged(nodes[i]));
    }
}

proof fn lemma_children_are_averaged(
    listing: Listing,
    path: Seq<char>,
    relative: Seq<char>,
    frequency_map: FrequencyMap,
    upto: nat,
)
    requires
        listing_lines(listing) <= usize::MAX,
        upto <= entry_count(listing),
        entries_fit_upto(listing, path, relative, frequency_map, upto),
    ensures
        forall|i: int|
            0 <= i < children_upto(listing, path, relative, frequency_map, upto).len()
                ==> averaged(
                #[trigger] children_upto(listing, path, relative, frequency_map, upto)[i],
            ),
    decreases listing, upto,
{
    let nodes = children_upto(listing, path, relative, frequency_map, upto);
    if upto > 0 {
        let entries = listing->Entries_0;
        let entry = entries@[upto - 1];
        let before = children_upto(listing, path, relative, frequency_map, (upto - 1) as nat);
        lemma_children_are_averaged(listing, path, relative, frequency_map, (upto - 1) as nat);
        lemma_lines_upto_monotonic(listing, upto, entry_count(listing));
        assert(lines_upto(listing, upto) == lines_upto(listing, (upto - 1) as nat) + entry_lines(
            entry,
        ));
        assert(entry_fits(entry, path, relative, frequency_map));
        if !hidden(entry.name@) {
            let node = node_of(entry, path, relative, frequency_map);
            match entry.kind {
                EntryKind::File { lines } => {
                    assert(averaged(node));
                },
                EntryKind::Directory { listing: inner } => {
                    assert(entry_lines(entry) == listing_lines(inner));
                    lemma_built_tree_is_averaged(
                        inner,
                        entry.name@,
                        joined(path, entry.name@),
                        joined(relative, entry.name@),
                        frequency_map,
                    );
                },
            }
            assert forall|i: int| 0 <= i < nodes.len() implies averaged(#[trigger] nodes[i]) by {
                if i < before.len() {
                    assert(nodes[i] == before[i]);
                }
            }
        }
    }
}

/// The children of a sorted tree weigh in all what the children of the
/// tree weigh, for every weight that looks at kind and metrics alone.
pub proof fn lemma_sorted_from_total(tree: NodeView, from: nat, weight: spec_fn(NodeView) -> nat)
    requires
        from <= tree.children.len(),
        weighs_metrics(weight),
    ensures
        total(tree.sorted_from(from), weight) == total(tree.children.skip(from as int), weight),
    decreases tree.children.len() - from,
{
    let rest = tree.children.skip(from as int);
    if from < tree.children.len() {
        let sorted_rest = tree.sorted_from(from + 1);
        let child = tree.children[from as int];
        let node = child.sorted();
        lemma_sorted_from_total(tree, from + 1, weight);
        lemma_sorted_file_lines(child);
        assert(weight(node) == weight(child));
        lemma_place_from(sorted_rest, node, 0);
        lemma_total_insert(sorted_rest, place_from(sorted_rest, node, 0), node, weight);
        assert(rest =~= tree.children.skip(from as int + 1).insert(0, child));
        lemma_total_insert(tree.children.skip(from as int + 1), 0, child, weight);
    } else {
        assert(rest =~= Seq::<NodeView>::empty());
    }
}

/// The rates of the children of a sorted tree add up to what the rates of
/// the children of the tree add up to.
pub proof fn lemma_sorted_from_rate_sum(tree: NodeView, from: nat)
    requires
        from <= tree.children.len(),
    ensures
        rate_sum(tree.sorted_from(from)) == rate_sum(tree.children.skip(from as int)),
    decreases tree.children.len() - from,
{
    let rest = tree.children.skip(from as int);
    if from < tree.children.len() {
        let sorted_rest = tree.sorted_from(from + 1);
        let child = tree.children[from as int];
        let node = child.sorted();
        lemma_sorted_from_rate_sum(tree, from + 1);
        lemma_sorted_file_lines(child);
        lemma_place_from(sorted_rest, node, 0);
        lemma_rate_sum_insert(sorted_rest, place_from(sorted_rest, node, 0), node);
        assert(rest =~= tree.children.skip(from as int + 1).insert(0, child));
        lemma_rate_sum_insert(tree.children.skip(from as int + 1), 0, child);
    } else {
        assert(rest =~= Seq::<NodeView>::empty());
    }
}

/// Sorting keeps in every directory the sum of the lines and the mean of
/// the rates of its children.
pub proof fn lemma_sorted_tree_is_averaged(tree: NodeView)
    requires
        averaged(tree),
    ensures
        averaged(tree.sorted()),
    decreases tree,
{
    let sorted = tree.sorted();
    lemma_sorted_file_lines(tree);
    law_sorting_is_stable(tree);
    let places = tree.places_from(0);
    assert forall|i: int| 0 <= i < sorted.children.len() implies averaged(
        #[trigger] sorted.children[i],
    ) by {
        assert(sorted.children[i] == tree.children[places[i]].sorted());
        assert(averaged(tree.children[places[i]]));
        lemma_sorted_tree_is_averaged(tree.children[places[i]]);
    }
    if tree.is_dir {
        assert(tree.children.skip(0) =~= tree.children);
        assert(sorted.children == tree.sorted_from(0));
        assert(weighs_metrics(lines_weight()));
        assert(weighs_metrics(count_weight()));
        lemma_sorted_from_total(tree, 0, lines_weight());
        lemma_sorted_from_total(tree, 0, count_weight());
        lemma_sorted_from_rate_sum(tree, 0);
        assert(countable_nodes(sorted.children) == countable_nodes(tree.children));
        assert(rate_sum(sorted.children) == rate_sum(tree.children));
    }
}

/// In a scanned tree every directory has the lines of its children in sum,
/// and as its change rate the unweighted arithmetic mean of the rates of
/// those of its children that count: the files, and the directories that
/// hold lines.
pub proof fn law_directories_average_their_children(
    listing: Listing,
    name: Seq<char>,
    path: Seq<char>,
    frequency_map: FrequencyMap,
)
    requires
        scan_fits(listing, path, frequency_map),
    ensures
        averaged(tree_of(listing, name, path, Seq::empty(), frequency_map).sorted()),
{
    lemma_built_tree_is_averaged(listing, name, path, Seq::empty(), frequency_map);
    lemma_sorted_tree_is_averaged(tree_of(listing, name, path, Seq::empty(), frequency_map));
}

} // verus!
