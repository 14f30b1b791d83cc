use crate::analyzer::average::{averaged, law_directories_average_their_children};
use crate::analyzer::git::FrequencyMap;
use crate::analyzer::mean::{aggregate, lines_total, mean_fits, try_aggregate_metrics};
use crate::data::lines::{
    file_lines_of, lemma_file_lines_upto, lemma_sorted_file_lines, lemma_sorted_lines_consistent,
    sum,
};
use crate::data::metrics::Metrics;
use crate::data::order::law_sorted_tree_is_ordered;
use crate::data::tree::{lemma_view_children, FileNode, NodeView};
use crate::text::{hidden, is_hidden, join_path, joined};
use vstd::prelude::*;
use vstd::utf8::encode_utf8;

verus! {

/// What listing a directory gave.
#[derive(Debug)]
pub enum Listing {
    /// The path is no directory: there is nothing below it.
    NotDirectory,
    /// The directory could not be listed.
    Unreadable,
    /// The entries of the directory, in the order in which they were read.
    Entries(Vec<DirEntry>),
}

/// One entry of a directory.
#[derive(Debug)]
pub struct DirEntry {
    pub name: String,
    pub kind: EntryKind,
}

#[derive(Debug)]
pub enum EntryKind {
    /// A file with its number of lines, where it could be read as text.
    File { lines: Option<usize> },
    /// A directory with what listing it gave.
    Directory { listing: Listing },
}

/// A directory that could not be listed, by its path.
#[derive(Debug)]
pub struct FilesystemError {
    pub path: String,
}

/// The number of line feeds among `bytes`.
pub open spec fn line_feeds(bytes: Seq<u8>) -> nat
    decreases bytes.len(),
{
    if bytes.len() == 0 {
        0
    } else {
        line_feeds(bytes.drop_last()) + if bytes.last() == 0x0a {
            1nat
        } else {
            0nat
        }
    }
}

/// The number of lines of a text in UTF-8: each line feed ends a line, and
/// what follows the last line feed is a line where it is not empty.
pub open spec fn lines_of(bytes: Seq<u8>) -> nat {
    line_feeds(bytes) + if bytes.len() > 0 && bytes.last() != 0x0a {
        1nat
    } else {
        0nat
    }
}

/// The number of lines of a text.
pub open spec fn line_count(text: Seq<char>) -> nat {
    lines_of(encode_utf8(text))
}

/// The number of lines of `content`.
pub fn count_lines(content: &str) -> (n: usize)
    ensures
        n == line_count(content@),
{
    let bytes = content.as_bytes();
    let len = bytes.len();
    let mut feeds: usize = 0;
    let mut i: usize = 0;
    while i < len
        invariant
            i <= len,
            len == bytes@.len(),
            feeds == line_feeds(bytes@.take(i as int)),
            feeds <= i,
            i > 0 && bytes@[i - 1] != 0x0a ==> feeds < i,
        decreases len - i,
    {
        proof {
            assert(bytes@.take(i + 1).drop_last() =~= bytes@.take(i as int));
        }
        if bytes[i] == 0x0a {
            feeds += 1;
        }
        i += 1;
    }
    proof {
        assert(bytes@.take(len as int) =~= bytes@);
    }
    if len > 0 && bytes[len - 1] != 0x0a {
        feeds + 1
    } else {
        feeds
    }
}

/// The number of entries of a listing.
pub open spec fn entry_count(listing: Listing) -> nat {
    match listing {
        Listing::Entries(entries) => entries@.len(),
        _ => 0,
    }
}

/// The tree for a directory called `name` at `path`, `relative` being its
/// path from the root of the scan, as `listing` and the touch counts of
/// `frequency_map` give it, before its children are put in order.
pub open spec fn tree_of(
    listing: Listing,
    name: Seq<char>,
    path: Seq<char>,
    relative: Seq<char>,
    frequency_map: FrequencyMap,
) -> NodeView
    decreases listing, entry_count(listing) + 1,
{
    let children = children_upto(listing, path, relative, frequency_map, entry_count(listing));
    NodeView { name, path, is_dir: true, children, metrics: aggregate(children), is_expanded: true }
}

/// The nodes for the first `upto` entries of a listing, hidden entries
/// left out.
pub open spec fn children_upto(
    listing: Listing,
    path: Seq<char>,
    relative: Seq<char>,
    frequency_map: FrequencyMap,
    upto: nat,
) -> Seq<NodeView>
    decreases listing, upto,
{
    match listing {
        Listing::Entries(entries) => if upto == 0 || upto > entries@.len() {
            Seq::empty()
        } else {
            let before = children_upto(listing, path, relative, frequency_map, (upto - 1) as nat);
            let entry = entries@[upto - 1];
            if hidden(entry.name@) {
                before
            } else {
                before.push(node_of(entry, path, relative, frequency_map))
            }
        },
        _ => Seq::empty(),
    }
}

/// The node for one entry of the directory at `parent_path`.  A file has
/// the lines that were counted, none where it could not be read as text,
/// and the change rate that `frequency_map` has for its path from the root.
pub open spec fn node_of(
    entry: DirEntry,
    parent_path: Seq<char>,
    parent_relative: Seq<char>,
    frequency_map: FrequencyMap,
) -> NodeView
    decreases entry, 0nat,
{
    let path = joined(parent_path, entry.name@);
    let relative = joined(parent_relative, entry.name@);
    match entry.kind {
        EntryKind::File { lines } => NodeView {
            name: entry.name@,
            path,
            is_dir: false,
            children: Seq::empty(),
            metrics: Metrics {
                lines: match lines {
                    Some(n) => n,
                    None => 0,
                },
                change_frequency: frequency_map.rate_of(relative),
            },
            is_expanded: true,
        },
        EntryKind::Directory { listing } => tree_of(
            listing,
            entry.name@,
            path,
            relative,
            frequency_map,
        ),
    }
}

/// The first directory, in the order of the walk, that could not be listed,
/// by its path.  Hidden entries are not looked into.
pub open spec fn first_unreadable(listing: Listing, path: Seq<char>) -> Option<Seq<char>>
    decreases listing, entry_count(listing) + 1,
{
    match listing {
        Listing::Unreadable => Some(path),
        _ => first_unreadable_upto(listing, path, entry_count(listing)),
    }
}

/// The first directory that could not be listed below the first `upto`
/// entries of a listing.
pub open spec fn first_unreadable_upto(listing: Listing, path: Seq<char>, upto: nat) -> Option<
    Seq<char>,
>
    decreases listing, upto,
{
    match listing {
        Listing::Entries(entries) => if upto == 0 || upto > entries@.len() {
            None
        } else {
            let before = first_unreadable_upto(listing, path, (upto - 1) as nat);
            if before is Some {
                before
            } else {
                unreadable_below(entries@[upto - 1], path)
            }
        },
        _ => None,
    }
}

/// The first directory that could not be listed at or below one entry.
pub open spec fn unreadable_below(entry: DirEntry, parent_path: Seq<char>) -> Option<Seq<char>>
    decreases entry, 0nat,
{
    match entry.kind {
        EntryKind::Directory { listing } => if hidden(entry.name@) {
            None
        } else {
            first_unreadable(listing, joined(parent_path, entry.name@))
        },
        EntryKind::File { .. } => None,
    }
}

/// The lines of all files at and below a listing, hidden entries left out.
pub open spec fn listing_lines(listing: Listing) -> nat
    decreases listing, entry_count(listing) + 1,
{
    lines_upto(listing, entry_count(listing))
}

/// The lines of all files at and below the first `upto` entries.
pub open spec fn lines_upto(listing: Listing, upto: nat) -> nat
    decreases listing, upto,
{
    match listing {
        Listing::Entries(entries) => if upto == 0 || upto > entries@.len() {
            0
        } else {
            lines_upto(listing, (upto - 1) as nat) + entry_lines(entries@[upto - 1])
        },
        _ => 0,
    }
}

/// The lines of all files at and below one entry.
pub open spec fn entry_lines(entry: DirEntry) -> nat
    decreases entry, 0nat,
{
    if hidden(entry.name@) {
        0
    } else {
        match entry.kind {
            EntryKind::File { lines } => match lines {
                Some(n) => n as nat,
                None => 0,
            },
            EntryKind::Directory { listing } => listing_lines(listing),
        }
    }
}

/// The first entries of a listing hold no more lines than all of it.
pub proof fn lemma_lines_upto_monotonic(listing: Listing, a: nat, b: nat)
    requires
        a <= b <= entry_count(listing),
    ensures
        lines_upto(listing, a) <= lines_upto(listing, b),
    decreases b,
{
    if a < b {
        lemma_lines_upto_monotonic(listing, a, (b - 1) as nat);
    }
}

/// Where the lines of a listing fit the machine, the nodes built for its
/// first entries hold just the lines of those entries.
pub proof fn lemma_children_lines(
    listing: Listing,
    path: Seq<char>,
    relative: Seq<char>,
    frequency_map: FrequencyMap,
    upto: nat,
)
    requires
        listing_lines(listing) <= usize::MAX,
        upto <= entry_count(listing),
    ensures
        lines_total(children_upto(listing, path, relative, frequency_map, upto)) == lines_upto(
            listing,
            upto,
        ),
    decreases listing, upto,
{
    if upto > 0 {
        let entries = listing->Entries_0;
        let entry = entries@[upto - 1];
        let before = children_upto(listing, path, relative, frequency_map, (upto - 1) as nat);
        lemma_children_lines(listing, path, relative, frequency_map, (upto - 1) as nat);
        lemma_lines_upto_monotonic(listing, upto, entry_count(listing));
        assert(lines_upto(listing, upto) == lines_upto(listing, (upto - 1) as nat) + entry_lines(
            entry,
        ));
        if !hidden(entry.name@) {
            let node = node_of(entry, path, relative, frequency_map);
            let nodes = before.push(node);
            assert(nodes.drop_last() =~= before);
            assert(lines_total(nodes) == lines_total(before) + node.metrics.lines);
            match entry.kind {
                EntryKind::File { lines } => {
                    assert(node.metrics.lines == entry_lines(entry));
                },
                EntryKind::Directory { listing: inner } => {
                    assert(entry_lines(entry) == listing_lines(inner));
                    lemma_children_lines(
                        inner,
                        joined(path, entry.name@),
                        joined(relative, entry.name@),
                        frequency_map,
                        entry_count(inner),
                    );
                    assert(node.metrics.lines == listing_lines(inner));
                },
            }
        } else {
            assert(entry_lines(entry) == 0);
        }
    }
}

/// Once a directory that could not be listed is found, it stays the first.
pub proof fn lemma_first_unreadable_stays(listing: Listing, path: Seq<char>, a: nat, b: nat)
    requires
        a <= b <= entry_count(listing),
        first_unreadable_upto(listing, path, a) is Some,
    ensures
        first_unreadable_upto(listing, path, b) == first_unreadable_upto(listing, path, a),
    decreases b,
{
    if a < b {
        lemma_first_unreadable_stays(listing, path, a, (b - 1) as nat);
    }
}

/// Whether the mean rate of every directory at and below the listing can
/// be held, the directory of the listing itself among them; hidden entries
/// are left out.
pub open spec fn rates_fit(
    listing: Listing,
    path: Seq<char>,
    relative: Seq<char>,
    frequency_map: FrequencyMap,
) -> bool
    decreases listing, entry_count(listing) + 1,
{
    &&& mean_fits(children_upto(listing, path, relative, frequency_map, entry_count(listing)))
    &&& entries_fit_upto(listing, path, relative, frequency_map, entry_count(listing))
}

/// Whether the mean rate of every directory at and below the first `upto`
/// entries can be held.
pub open spec fn entries_fit_upto(
    listing: Listing,
    path: Seq<char>,
    relative: Seq<char>,
    frequency_map: FrequencyMap,
    upto: nat,
) -> bool
    decreases listing, upto,
{
    match listing {
        Listing::Entries(entries) => if upto == 0 || upto > entries@.len() {
            true
        } else {
            &&& entries_fit_upto(listing, path, relative, frequency_map, (upto - 1) as nat)
            &&& entry_fits(entries@[upto - 1], path, relative, frequency_map)
        },
        _ => true,
    }
}

/// Whether the mean rate of every directory at and below one entry can be
/// held.
pub open spec fn entry_fits(
    entry: DirEntry,
    parent_path: Seq<char>,
    parent_relative: Seq<char>,
    frequency_map: FrequencyMap,
) -> bool
    decreases entry, 0nat,
{
    if hidden(entry.name@) {
        true
    } else {
        match entry.kind {
            EntryKind::Directory { listing } => rates_fit(
                listing,
                joined(parent_path, entry.name@),
                joined(parent_relative, entry.name@),
                frequency_map,
            ),
            EntryKind::File { .. } => true,
        }
    }
}

/// Whether the tree of a listing can be held: the lines of its files fit
/// the machine, and so does the mean rate of every directory.
pub open spec fn scan_fits(listing: Listing, path: Seq<char>, frequency_map: FrequencyMap) -> bool {
    &&& listing_lines(listing) <= usize::MAX
    &&& rates_fit(listing, path, Seq::empty(), frequency_map)
}

/// Where the rates fit below the first entries, they fit below fewer.
pub proof fn lemma_entries_fit_fewer(
    listing: Listing,
    path: Seq<char>,
    relative: Seq<char>,
    frequency_map: FrequencyMap,
    a: nat,
    b: nat,
)
    requires
        a <= b <= entry_count(listing),
        entries_fit_upto(listing, path, relative, frequency_map, b),
    ensures
        entries_fit_upto(listing, path, relative, frequency_map, a),
    decreases b,
{
    if a < b {
        lemma_entries_fit_fewer(listing, path, relative, frequency_map, a, (b - 1) as nat);
    }
}

/// Appends to the children of the directory `node` the nodes for its
/// entries, as `listing` gives them, in the order of the listing, hidden
/// entries left out, and says whether that could be done: it cannot where
/// the mean rate of a directory below cannot be held.  A listing that has
/// no entries to give adds nothing.
pub fn build_tree(
    node: &mut FileNode,
    relative: &str,
    listing: &Listing,
    frequency_map: &FrequencyMap,
) -> (built: bool)
    requires
        listing_lines(*listing) <= usize::MAX,
    ensures
        built == entries_fit_upto(
            *listing,
            old(node)@.path,
            relative@,
            *frequency_map,
            entry_count(*listing),
        ),
        built ==> final(node)@ == (NodeView {
            children: old(node)@.children + children_upto(
                *listing,
                old(node)@.path,
                relative@,
                *frequency_map,
                entry_count(*listing),
            ),
            ..old(node)@
        }),
    decreases listing,
{
    proof {
        lemma_view_children(&*node);
        assert(node@.children =~= old(node)@.children + Seq::empty());
    }
    match listing {
        Listing::Entries(entries) => {
            let n = entries.len();
            let mut i: usize = 0;
            while i < n
                invariant
                    i <= n,
                    n == entries@.len(),
                    *listing == Listing::Entries(*entries),
                    listing_lines(*listing) <= usize::MAX,
                    entries_fit_upto(
                        *listing,
                        old(node)@.path,
                        relative@,
                        *frequency_map,
                        i as nat,
                    ),
                    node@ == (NodeView {
                        children: old(node)@.children + children_upto(
                            *listing,
                            old(node)@.path,
                            relative@,
                            *frequency_map,
                            i as nat,
                        ),
                        ..old(node)@
                    }),
                decreases n - i,
            {
                let entry = &entries[i];
                proof {
                    lemma_view_children(&*node);
                    lemma_lines_upto_monotonic(*listing, (i + 1) as nat, n as nat);
                    assert(lines_upto(*listing, (i + 1) as nat) == lines_upto(
                        *listing,
                        i as nat,
                    ) + entry_lines(*entry));
                    assert(entries_fit_upto(
                        *listing,
                        old(node)@.path,
                        relative@,
                        *frequency_map,
                        (i + 1) as nat,
                    ) == (entries_fit_upto(
                        *listing,
                        old(node)@.path,
                        relative@,
                        *frequency_map,
                        i as nat,
                    ) && entry_fits(*entry, old(node)@.path, relative@, *frequency_map)));
                    if !entries_fit_upto(
                        *listing,
                        old(node)@.path,
                        relative@,
                        *frequency_map,
                        (i + 1) as nat,
                    ) && entries_fit_upto(
                        *listing,
                        old(node)@.path,
                        relative@,
                        *frequency_map,
                        n as nat,
                    ) {
                        lemma_entries_fit_fewer(
                            *listing,
                            old(node)@.path,
                            relative@,
                            *frequency_map,
                            (i + 1) as nat,
                            n as nat,
                        );
                    }
                }
                if !is_hidden(entry.name.as_str()) {
                    let path = join_path(node.path.as_str(), entry.name.as_str());
                    let inner_relative = join_path(relative, entry.name.as_str());
                    match &entry.kind {
                        EntryKind::Directory { listing: inner } => {
                            let mut child = FileNode::new(entry.name.clone(), path, true);
                            proof {
                                assert(entry_lines(*entry) == listing_lines(*inner));
                                assert(entry_fits(
                                    *entry,
                                    old(node)@.path,
                                    relative@,
                                    *frequency_map,
                                ) == rates_fit(*inner, path@, inner_relative@, *frequency_map));
                            }
                            if !build_tree(&mut child, inner_relative.as_str(), inner, frequency_map) {
                                return false;
                            }
                            proof {
                                lemma_children_lines(
                                    *inner,
                                    path@,
                                    inner_relative@,
                                    *frequency_map,
                                    entry_count(*inner),
                                );
                                lemma_view_children(&child);
                                assert(child@.children =~= children_upto(
                                    *inner,
                                    path@,
                                    inner_relative@,
                                    *frequency_map,
                                    entry_count(*inner),
                                ));
                            }
                            let ghost filled = child@;
                            match try_aggregate_metrics(&child) {
                                Some(metrics) => {
                                    child.metrics = metrics;
                                },
                                None => {
                                    return false;
                                },
                            }
                            proof {
                                lemma_view_children(&child);
                                assert(child@.children =~= filled.children);
                                assert(child@ == node_of(
                                    *entry,
                                    old(node)@.path,
                                    relative@,
                                    *frequency_map,
                                ));
                                assert(rates_fit(*inner, path@, inner_relative@, *frequency_map));
                            }
                            node.add_child(child);
                        },
                        EntryKind::File { lines } => {
                            let mut child = FileNode::new(entry.name.clone(), path, false);
                            let count: usize = match lines {
                                Some(n) => *n,
                                None => 0,
                            };
                            let ghost fresh = child@;
                            proof {
                                lemma_view_children(&child);
                            }
                            child.metrics =
                            Metrics::new(count, frequency_map.rate(inner_relative.as_str()));
                            proof {
                                lemma_view_children(&child);
                                assert(child@.children =~= fresh.children);
                                assert(child@ == node_of(
                                    *entry,
                                    old(node)@.path,
                                    relative@,
                                    *frequency_map,
                                ));
                                assert(entry_fits(
                                    *entry,
                                    old(node)@.path,
                                    relative@,
                                    *frequency_map,
                                ));
                            }
                            node.add_child(child);
                        },
                    }
                } else {
                    proof {
                        assert(entry_fits(*entry, old(node)@.path, relative@, *frequency_map));
                    }
                }
                i += 1;
            }
            true
        },
        _ => true,
    }
}

/// The first directory at or below the listing, in the order of the walk,
/// that could not be listed, by its path; hidden entries are not looked
/// into.
pub fn find_unreadable(listing: &Listing, path: &str) -> (found: Option<String>)
    ensures
        match found {
            Some(p) => first_unreadable(*listing, path@) == Some(p@),
            None => first_unreadable(*listing, path@) is None,
        },
    decreases listing,
{
    match listing {
        Listing::Unreadable => Some(path.to_owned()),
        Listing::NotDirectory => None,
        Listing::Entries(entries) => {
            let n = entries.len();
            let mut i: usize = 0;
            while i < n
                invariant
                    i <= n,
                    n == entries@.len(),
                    *listing == Listing::Entries(*entries),
                    first_unreadable_upto(*listing, path@, i as nat) is None,
                decreases n - i,
            {
                let entry = &entries[i];
                proof {
                    assert(first_unreadable_upto(*listing, path@, (i + 1) as nat)
                        == unreadable_below(*entry, path@));
                }
                if !is_hidden(entry.name.as_str()) {
                    match &entry.kind {
                        EntryKind::Directory { listing: inner } => {
                            let below = join_path(path, entry.name.as_str());
                            proof {
                                assert(unreadable_below(*entry, path@) == first_unreadable(
                                    *inner,
                                    below@,
                                ));
                            }
                            match find_unreadable(inner, below.as_str()) {
                                Some(p) => {
                                    proof {
                                        lemma_first_unreadable_stays(
                                            *listing,
                                            path@,
                                            (i + 1) as nat,
                                            n as nat,
                                        );
                                    }
                                    return Some(p);
                                },
                                None => {},
                            }
                        },
                        EntryKind::File { .. } => {},
                    }
                }
                i += 1;
            }
            None
        },
    }
}

/// Builds the tree of the directory called `name` at `path` from what
/// listing it gave, where the tree can be held.  Hidden entries are left
/// out; every directory, the root too, has the lines of its files and the
/// exact mean change rate of its children that count; the children of every
/// node stand in order.  It fails where a directory could not be listed,
/// naming the first such.
pub fn try_scan_directory(
    name: &str,
    path: &str,
    listing: &Listing,
    frequency_map: &FrequencyMap,
) -> (result: Option<Result<FileNode, FilesystemError>>)
    ensures
        match result {
            Some(Ok(tree)) => {
                &&& scan_fits(*listing, path@, *frequency_map)
                &&& first_unreadable(*listing, path@) is None
                &&& tree@ == tree_of(
                    *listing,
                    name@,
                    path@,
                    Seq::empty(),
                    *frequency_map,
                ).sorted()
                &&& tree@.ordered()
                &&& tree@.lines_consistent()
                &&& averaged(tree@)
            },
            Some(Err(e)) => {
                &&& scan_fits(*listing, path@, *frequency_map)
                &&& first_unreadable(*listing, path@) == Some(e.path@)
            },
            None => !scan_fits(*listing, path@, *frequency_map),
        },
{
    if listing.checked_lines().is_none() {
        return None;
    }
    let mut root = FileNode::new(name.to_owned(), path.to_owned(), true);
    proof {
        reveal_strlit("");
        assert(""@ =~= Seq::<char>::empty());
    }
    if !build_tree(&mut root, "", listing, frequency_map) {
        return None;
    }
    proof {
        lemma_children_lines(*listing, path@, Seq::empty(), *frequency_map, entry_count(*listing));
        lemma_view_children(&root);
        assert(listing_lines(*listing) == lines_upto(*listing, entry_count(*listing)));
        assert(root@.children =~= children_upto(
            *listing,
            path@,
            Seq::empty(),
            *frequency_map,
            entry_count(*listing),
        ));
    }
    let ghost filled = root@;
    match try_aggregate_metrics(&root) {
        Some(metrics) => {
            root.metrics = metrics;
        },
        None => {
            return None;
        },
    }
    proof {
        lemma_view_children(&root);
        assert(root@.children =~= filled.children);
    }
    match find_unreadable(listing, path) {
        Some(unreadable) => Some(Err(FilesystemError { path: unreadable })),
        None => {
            root.sort_children();
            proof {
                law_sorted_tree_is_ordered(
                    tree_of(*listing, name@, path@, Seq::empty(), *frequency_map),
                );
                law_directories_hold_the_lines_of_their_files(
                    *listing,
                    name@,
                    path@,
                    *frequency_map,
                );
                law_directories_average_their_children(*listing, name@, path@, *frequency_map);
            }
            Some(Ok(root))
        },
    }
}

/// Builds the tree of the directory called `name` at `path` from what
/// listing it gave: hidden entries are left out, every directory has the
/// lines of its files and the exact mean change rate of its children that
/// count, and the children of every node stand in order.  It fails where a
/// directory could not be listed, naming the first such.
pub fn scan_directory(
    name: &str,
    path: &str,
    listing: &Listing,
    frequency_map: &FrequencyMap,
) -> (result: Result<FileNode, FilesystemError>)
    requires
        scan_fits(*listing, path@, *frequency_map),
    ensures
        match result {
            Ok(tree) => {
                &&& first_unreadable(*listing, path@) is None
                &&& tree@ == tree_of(
                    *listing,
                    name@,
                    path@,
                    Seq::empty(),
                    *frequency_map,
                ).sorted()
                &&& tree@.ordered()
                &&& tree@.lines_consistent()
                &&& averaged(tree@)
            },
            Err(e) => first_unreadable(*listing, path@) == Some(e.path@),
        },
{
    match try_scan_directory(name, path, listing, frequency_map) {
        Some(result) => result,
        None => unreached(),
    }
}

impl Listing {
    /// The lines of all files at and below the listing, hidden entries left
    /// out, where their sum fits the machine.
    pub fn checked_lines(&self) -> (total: Option<usize>)
        ensures
            match total {
                Some(n) => n == listing_lines(*self),
                None => listing_lines(*self) > usize::MAX,
            },
        decreases self,
    {
        match self {
            Listing::Entries(entries) => {
                let n = entries.len();
                let mut total: usize = 0;
                let mut i: usize = 0;
                while i < n
                    invariant
                        i <= n,
                        n == entries@.len(),
                        *self == Listing::Entries(*entries),
                        total == lines_upto(*self, i as nat),
                    decreases n - i,
                {
                    let entry = &entries[i];
                    proof {
                        lemma_lines_upto_monotonic(*self, (i + 1) as nat, n as nat);
                        assert(lines_upto(*self, (i + 1) as nat) == lines_upto(*self, i as nat)
                            + entry_lines(*entry));
                    }
                    if !is_hidden(entry.name.as_str()) {
                        let below: Option<usize> = match &entry.kind {
                            EntryKind::File { lines } => match lines {
                                Some(count) => Some(*count),
                                None => Some(0),
                            },
                            EntryKind::Directory { listing } => {
                                proof {
                                    assert(entry_lines(*entry) == listing_lines(*listing));
                                }
                                listing.checked_lines()
                            },
                        };
                        match below {
                            None => {
                                return None;
                            },
                            Some(lines) => match total.checked_add(lines) {
                                None => {
                                    return None;
                                },
                                Some(next) => {
                                    total = next;
                                },
                            },
                        }
                    }
                    i += 1;
                }
                Some(total)
            },
            _ => Some(0),
        }
    }
}

/// In the tree built from a listing whose lines fit the machine, every node
/// has as its line count the lines of its files, which are those of the
/// listing.
pub proof fn lemma_built_lines_consistent(
    listing: Listing,
    name: Seq<char>,
    path: Seq<char>,
    relative: Seq<char>,
    frequency_map: FrequencyMap,
)
    requires
        listing_lines(listing) <= usize::MAX,
    ensures
        tree_of(listing, name, path, relative, frequency_map).lines_consistent(),
        tree_of(listing, name, path, relative, frequency_map).file_lines() == listing_lines(listing),
    decreases listing, entry_count(listing) + 1,
{
    let tree = tree_of(listing, name, path, relative, frequency_map);
    let count = entry_count(listing);
    lemma_children_consistent(listing, path, relative, frequency_map, count);
    lemma_children_lines(listing, path, relative, frequency_map, count);
    lemma_file_lines_upto(tree, tree.children.len());
    assert(file_lines_of(tree.children).take(tree.children.len() as int) =~= file_lines_of(
        tree.children,
    ));
}

proof fn lemma_children_consistent(
    listing: Listing,
    path: Seq<char>,
    relative: Seq<char>,
    frequency_map: FrequencyMap,
    upto: nat,
)
    requires
        listing_lines(listing) <= usize::MAX,
        upto <= entry_count(listing),
    ensures
        forall|i: int|
            0 <= i < children_upto(listing, path, relative, frequency_map, upto).len() ==> (
            #[trigger] children_upto(listing, path, relative, frequency_map, upto)[i]).lines_consistent(),
        sum(file_lines_of(children_upto(listing, path, relative, frequency_map, upto)))
            == lines_upto(listing, upto),
    decreases listing, upto,
{
    let nodes = children_upto(listing, path, relative, frequency_map, upto);
    if upto > 0 {
        let entries = listing->Entries_0;
        let entry = entries@[upto - 1];
        let before = children_upto(listing, path, relative, frequency_map, (upto - 1) as nat);
        lemma_children_consistent(listing, path, relative, frequency_map, (upto - 1) as nat);
        lemma_lines_upto_monotonic(listing, upto, entry_count(listing));
        assert(lines_upto(listing, upto) == lines_upto(listing, (upto - 1) as nat) + entry_lines(
            entry,
        ));
        if !hidden(entry.name@) {
            let node = node_of(entry, path, relative, frequency_map);
            match entry.kind {
                EntryKind::File { lines } => {
                    assert(node.lines_consistent());
                    assert(node.file_lines() == entry_lines(entry));
                },
                EntryKind::Directory { listing: inner } => {
                    assert(entry_lines(entry) == listing_lines(inner));
                    lemma_built_lines_consistent(
                        inner,
                        entry.name@,
                        joined(path, entry.name@),
                        joined(relative, entry.name@),
                        frequency_map,
                    );
                },
            }
            assert(file_lines_of(nodes).drop_last() =~= file_lines_of(before));
            assert forall|i: int| 0 <= i < nodes.len() implies (
            #[trigger] nodes[i]).lines_consistent() by {
                if i < before.len() {
                    assert(nodes[i] == before[i]);
                }
            }
        }
    } else {
        assert(file_lines_of(nodes) =~= Seq::<nat>::empty());
    }
}

/// In a scanned tree the line count of every directory is the sum of the
/// line counts of all files below it.
pub proof fn law_directories_hold_the_lines_of_their_files(
    listing: Listing,
    name: Seq<char>,
    path: Seq<char>,
    frequency_map: FrequencyMap,
)
    requires
        listing_lines(listing) <= usize::MAX,
    ensures
        tree_of(listing, name, path, Seq::empty(), frequency_map).sorted().lines_consistent(),
        tree_of(listing, name, path, Seq::empty(), frequency_map).sorted().metrics.lines
            == listing_lines(listing),
{
    lemma_built_lines_consistent(listing, name, path, Seq::empty(), frequency_map);
    lemma_sorted_lines_consistent(tree_of(listing, name, path, Seq::empty(), frequency_map));
    lemma_sorted_file_lines(tree_of(listing, name, path, Seq::empty(), frequency_map));
}

} // verus!
