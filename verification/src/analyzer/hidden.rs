use crate::analyzer::git::FrequencyMap;
use crate::analyzer::scanner::{children_upto, entry_count, node_of, tree_of, EntryKind, Listing};
use crate::data::order::law_sorting_is_stable;
use crate::data::tree::NodeView;
use crate::text::{hidden, joined};
use vstd::prelude::*;

verus! {

/// Whether no node below the root of the tree has a hidden name.
pub open spec fn holds_no_hidden_entry(tree: NodeView) -> bool
    decreases tree,
{
    forall|i: int|
        0 <= i < tree.children.len() ==> !hidden((#[trigger] tree.children[i]).name)
            && holds_no_hidden_entry(tree.children[i])
}

proof fn lemma_built_tree_holds_no_hidden_entry(
    listing: Listing,
    name: Seq<char>,
    path: Seq<char>,
    relative: Seq<char>,
    frequency_map: FrequencyMap,
)
    ensures
        holds_no_hidden_entry(tree_of(listing, name, path, relative, frequency_map)),
    decreases listing, entry_count(listing) + 1,
{
    lemma_children_hold_no_hidden_entry(
        listing,
        path,
        relative,
        frequency_map,
        entry_count(listing),
    );
    let tree = tree_of(listing, name, path, relative, frequency_map);
    let nodes = children_upto(listing, path, relative, frequency_map, entry_count(listing));
    assert(tree.children == nodes);
    assert forall|i: int| 0 <= i < tree.children.len() implies !hidden(
        (#[trigger] tree.children[i]).name,
    ) && holds_no_hidden_entry(tree.children[i]) by {
        assert(!hidden(nodes[i].name));
    }
}

proof fn lemma_children_hold_no_hidden_entry(
    listing: Listing,
    path: Seq<char>,
    relative: Seq<char>,
    frequency_map: FrequencyMap,
    upto: nat,
)
    requires
        upto <= entry_count(listing),
    ensures
        forall|i: int|
            0 <= i < children_upto(listing, path, relative, frequency_map, upto).len() ==> !hidden(
                (#[trigger] children_upto(listing, path, relative, frequency_map, upto)[i]).name,
            ) && holds_no_hidden_entry(
                children_upto(listing, path, relative, frequency_map, upto)[i],
            ),
    decreases listing, upto,
{
    let nodes = children_upto(listing, path, relative, frequency_map, upto);
    if upto > 0 {
        let entry = listing->Entries_0@[upto - 1];
        let before = children_upto(listing, path, relative, frequency_map, (upto - 1) as nat);
        lemma_children_hold_no_hidden_entry(
            listing,
            path,
            relative,
            frequency_map,
            (upto - 1) as nat,
        );
        if !hidden(entry.name@) {
            let node = node_of(entry, path, relative, frequency_map);
            match entry.kind {
                EntryKind::File { lines } => {
                    assert(holds_no_hidden_entry(node));
                },
                EntryKind::Directory { listing: inner } => {
                    lemma_built_tree_holds_no_hidden_entry(
                        inner,
                        entry.name@,
                        joined(path, entry.name@),
                        joined(relative, entry.name@),
                        frequency_map,
                    );
                },
            }
            assert forall|i: int| 0 <= i < nodes.len() implies !hidden((#[trigger] nodes[i]).name)
                && holds_no_hidden_entry(nodes[i]) by {
                if i < before.len() {
                    assert(nodes[i] == before[i]);
                }
            }
        }
    }
}

proof fn lemma_sorted_tree_holds_no_hidden_entry(tree: NodeView)
    requires
        holds_no_hidden_entry(tree),
    ensures
        holds_no_hidden_entry(tree.sorted()),
        tree.sorted().name == tree.name,
    decreases tree,
{
    law_sorting_is_stable(tree);
    let sorted = tree.sorted();
    let places = tree.places_from(0);
    assert forall|i: int| 0 <= i < sorted.children.len() implies !hidden(
        (#[trigger] sorted.children[i]).name,
    ) && holds_no_hidden_entry(sorted.children[i]) by {
        let child = tree.children[places[i]];
        assert(sorted.children[i] == child.sorted());
        assert(!hidden(child.name) && holds_no_hidden_entry(child));
        lemma_sorted_tree_holds_no_hidden_entry(child);
    }
}

/// A scanned tree holds no entry whose name starts with a dot, at any depth
/// below its root.
pub proof fn law_scanned_tree_holds_no_hidden_entry(
    listing: Listing,
    name: Seq<char>,
    path: Seq<char>,
    frequency_map: FrequencyMap,
)
    ensures
        holds_no_hidden_entry(tree_of(listing, name, path, Seq::empty(), frequency_map).sorted()),
{
    lemma_built_tree_holds_no_hidden_entry(listing, name, path, Seq::empty(), frequency_map);
    lemma_sorted_tree_holds_no_hidden_entry(
        tree_of(listing, name, path, Seq::empty(), frequency_map),
    );
}

} // verus!
