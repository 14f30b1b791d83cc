use crate::data::tree::{lemma_view_children, FileNode, NodeView};
use vstd::prelude::*;

verus! {

/// The width, in columns, of the field behind a value in which its bar is
/// drawn.
pub const BAR_FIELD_WIDTH: usize = 36;

/// `count` times the character `c`.
pub open spec fn repeated(c: char, count: nat) -> Seq<char> {
    Seq::new(count, |i: int| c)
}

/// The connector lines of the levels above a row: a vertical line where
/// siblings of the ancestor follow, blanks where none do.
pub open spec fn ancestor_lines(parent_lines: Seq<bool>) -> Seq<char>
    decreases parent_lines.len(),
{
    if parent_lines.len() == 0 {
        Seq::empty()
    } else {
        ancestor_lines(parent_lines.drop_last()) + if parent_lines.last() {
            seq!['│', ' ']
        } else {
            seq![' ', ' ']
        }
    }
}

/// The connector lines before the name of a row: none for the root, else
/// the lines of the levels above it and the branch to the row itself, a
/// corner where the row is the last of its siblings.
pub open spec fn connectors(depth: nat, is_last: bool, parent_lines: Seq<bool>) -> Seq<char> {
    if depth == 0 {
        Seq::empty()
    } else {
        ancestor_lines(parent_lines) + if is_last {
            seq!['└', '─']
        } else {
            seq!['├', '─']
        }
    }
}

/// The mark before the name: an open or a closed directory, or a file.
pub open spec fn icon(node: NodeView) -> Seq<char> {
    if node.is_dir {
        if node.is_expanded {
            seq!['[', '▼', ']', ' ']
        } else {
            seq!['[', '▶', ']', ' ']
        }
    } else {
        seq!['[', ' ', ']', ' ']
    }
}

/// The name as it is shown: that of a directory ends in a slash.
pub open spec fn display_name(node: NodeView) -> Seq<char> {
    if node.is_dir {
        node.name + seq!['/']
    } else {
        node.name
    }
}

/// The text of the name column of a row.
pub open spec fn name_text(depth: nat, node: NodeView, is_last: bool, parent_lines: Seq<bool>) -> Seq<
    char,
> {
    connectors(depth, is_last, parent_lines) + icon(node) + display_name(node)
}

/// The number of squares in the bar of a bucket: two for each bucket up to
/// and with it.
pub open spec fn bar_squares(category: nat) -> nat {
    (category + 1) * 2
}

/// The bar of a bucket in its field: a blank, the squares, each two
/// columns wide, and blanks up to the width of the field where the squares
/// leave room.
pub open spec fn bar_text(category: nat) -> Seq<char> {
    let squares = bar_squares(category);
    seq![' '] + repeated('■', squares) + if squares * 2 < BAR_FIELD_WIDTH {
        repeated(' ', (BAR_FIELD_WIDTH - 1 - squares * 2) as nat)
    } else {
        Seq::empty()
    }
}

/// Appends `count` times the text `piece` of one character.
fn push_repeated(text: &mut String, piece: &str, count: usize)
    requires
        piece@.len() == 1,
    ensures
        final(text)@ == old(text)@ + repeated(piece@[0], count as nat),
{
    let mut i: usize = 0;
    assert(text@ =~= old(text)@ + repeated(piece@[0], 0));
    while i < count
        invariant
            i <= count,
            piece@.len() == 1,
            text@ == old(text)@ + repeated(piece@[0], i as nat),
        decreases count - i,
    {
        text.append(piece);
        i += 1;
        assert(text@ =~= old(text)@ + repeated(piece@[0], i as nat));
    }
}

/// The text of the name column of a row: connector lines, the mark of the
/// node, and its name.
pub fn name_cell_text(depth: usize, node: &FileNode, is_last: bool, parent_lines: &[bool]) -> (text:
    String)
    ensures
        text@ == name_text(depth as nat, node@, is_last, parent_lines@),
{
    proof {
        lemma_view_children(node);
        reveal_strlit("│ ");
        reveal_strlit("  ");
        reveal_strlit("└─");
        reveal_strlit("├─");
        reveal_strlit("[▼] ");
        reveal_strlit("[▶] ");
        reveal_strlit("[ ] ");
        reveal_strlit("/");
    }
    let mut text = String::new();
    if depth > 0 {
        let n = parent_lines.len();
        let mut i: usize = 0;
        assert(text@ =~= ancestor_lines(parent_lines@.take(0)));
        while i < n
            invariant
                i <= n,
                n == parent_lines@.len(),
                text@ == ancestor_lines(parent_lines@.take(i as int)),
                "│ "@ == seq!['│', ' '],
                "  "@ == seq![' ', ' '],
            decreases n - i,
        {
            proof {
                assert(parent_lines@.take(i + 1).drop_last() =~= parent_lines@.take(i as int));
            }
            if parent_lines[i] {
                text.append("│ ");
            } else {
                text.append("  ");
            }
            i += 1;
        }
        proof {
            assert(parent_lines@.take(n as int) =~= parent_lines@);
            assert("└─"@ =~= seq!['└', '─']);
            assert("├─"@ =~= seq!['├', '─']);
        }
        if is_last {
            text.append("└─");
        } else {
            text.append("├─");
        }
    }
    assert(text@ =~= connectors(depth as nat, is_last, parent_lines@));
    proof {
        assert("[▼] "@ =~= seq!['[', '▼', ']', ' ']);
        assert("[▶] "@ =~= seq!['[', '▶', ']', ' ']);
        assert("[ ] "@ =~= seq!['[', ' ', ']', ' ']);
        assert("/"@ =~= seq!['/']);
    }
    if node.is_dir {
        if node.is_expanded {
            text.append("[▼] ");
        } else {
            text.append("[▶] ");
        }
    } else {
        text.append("[ ] ");
    }
    text.append(node.name.as_str());
    if node.is_dir {
        text.append("/");
    }
    assert(text@ =~= name_text(depth as nat, node@, is_last, parent_lines@));
    text
}

/// The bar of a bucket in its field.
pub fn bar_cell_text(category: usize) -> (text: String)
    requires
        category < usize::MAX / 4,
    ensures
        text@ == bar_text(category as nat),
{
    proof {
        reveal_strlit(" ");
        reveal_strlit("■");
        assert(" "@ =~= seq![' ']);
        assert("■"@ =~= seq!['■']);
    }
    let squares = (category + 1) * 2;
    let width = squares * 2;
    let mut text = String::new();
    text.append(" ");
    push_repeated(&mut text, "■", squares);
    if width < BAR_FIELD_WIDTH {
        push_repeated(&mut text, " ", BAR_FIELD_WIDTH - 1 - width);
    }
    assert(text@ =~= bar_text(category as nat));
    text
}

} // verus!
