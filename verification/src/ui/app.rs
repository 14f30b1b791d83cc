use crate::data::toggle::lemma_toggled_height;
use crate::data::tree::{
    lemma_visible_height_within, line_rows_view, rows_view, FileNode, LineRow, NodeView, Row,
};
use vstd::prelude::*;

verus! {

/// The navigation state: the tree, with the expansion flags in it, and the
/// cursor, an index into the rows that are visible now.
pub struct App {
    root: FileNode,
    should_quit: bool,
    selected_index: usize,
}

/// The navigation state as contracts see it.
pub struct AppView {
    pub root: NodeView,
    pub should_quit: bool,
    pub selected_index: usize,
}

impl AppView {
    /// The rows that are visible, the root first.
    pub open spec fn rows(self) -> Seq<Row> {
        self.root.rows(0)
    }

    /// The state after a step of the cursor towards the root.
    pub open spec fn moved_up(self) -> AppView {
        if self.selected_index > 0 {
            AppView { selected_index: (self.selected_index - 1) as usize, ..self }
        } else {
            self
        }
    }

    /// The state after a step of the cursor away from the root: it stays
    /// where it is on the last row and beyond.
    pub open spec fn moved_down(self) -> AppView {
        if self.selected_index + 1 < self.rows().len() {
            AppView { selected_index: (self.selected_index + 1) as usize, ..self }
        } else {
            self
        }
    }

    /// The state after a toggle of the row under the cursor; nothing
    /// changes where the cursor is on no row.
    pub open spec fn toggled(self) -> AppView {
        if self.selected_index < self.rows().len() {
            AppView {
                root: self.root.toggled(self.rows()[self.selected_index as int].1.path),
                ..self
            }
        } else {
            self
        }
    }
}

impl View for App {
    type V = AppView;

    closed spec fn view(&self) -> AppView {
        AppView {
            root: self.root@,
            should_quit: self.should_quit,
            selected_index: self.selected_index,
        }
    }
}

impl App {
    #[verifier::type_invariant]
    closed spec fn inv(&self) -> bool {
        self.root@.height() <= usize::MAX
    }

    /// The state in which navigation starts: the cursor on the first row.
    pub fn new(root: FileNode) -> (app: App)
        requires
            root@.height() <= usize::MAX,
        ensures
            app@ == (AppView { root: root@, should_quit: false, selected_index: 0 }),
    {
        App { root, should_quit: false, selected_index: 0 }
    }

    /// Asks for the session to end.
    pub fn quit(&mut self)
        ensures
            final(self)@ == (AppView { should_quit: true, ..old(self)@ }),
    {
        proof {
            use_type_invariant(&*self);
        }
        self.should_quit = true;
    }

    /// The tree.
    pub fn root(&self) -> (root: &FileNode)
        ensures
            root@ == self@.root,
    {
        &self.root
    }

    /// Whether the session is to end.
    pub fn should_quit(&self) -> (b: bool)
        ensures
            b == self@.should_quit,
    {
        self.should_quit
    }

    /// The cursor.
    pub fn selected_index(&self) -> (index: usize)
        ensures
            index == self@.selected_index,
    {
        self.selected_index
    }

    /// The visible rows, from the tree as it is now.
    pub fn get_flat_tree(&self) -> (rows: Vec<(usize, &FileNode)>)
        ensures
            rows_view(rows@) == self@.rows(),
    {
        proof {
            use_type_invariant(self);
            lemma_visible_height_within(self.root@);
        }
        let mut result: Vec<(usize, &FileNode)> = Vec::new();
        self.root.flatten(0, &mut result);
        proof {
            assert(rows_view(Seq::<(usize, &FileNode)>::empty()) =~= Seq::<Row>::empty());
            assert(Seq::<Row>::empty() + self.root@.rows(0) =~= self.root@.rows(0));
        }
        result
    }

    /// The visible rows with what the connector lines need.
    pub fn get_flat_tree_with_lines(&self) -> (rows: Vec<(usize, &FileNode, bool, Vec<bool>)>)
        ensures
            line_rows_view(rows@) == self@.root.line_rows(0, true, Seq::empty()),
    {
        proof {
            use_type_invariant(self);
            lemma_visible_height_within(self.root@);
        }
        let mut result: Vec<(usize, &FileNode, bool, Vec<bool>)> = Vec::new();
        let none: Vec<bool> = Vec::new();
        self.root.flatten_with_lines(0, true, none.as_slice(), &mut result);
        proof {
            assert(line_rows_view(Seq::<(usize, &FileNode, bool, Vec<bool>)>::empty())
                =~= Seq::<LineRow>::empty());
            assert(Seq::<LineRow>::empty() + self.root@.line_rows(0, true, none@)
                =~= self.root@.line_rows(0, true, none@));
            assert(none@ =~= Seq::<bool>::empty());
        }
        result
    }

    /// Moves the cursor one row up; on the first row it stays.
    pub fn move_up(&mut self)
        ensures
            final(self)@ == old(self)@.moved_up(),
    {
        proof {
            use_type_invariant(&*self);
        }
        if self.selected_index > 0 {
            self.selected_index = self.selected_index - 1;
        }
    }

    /// Moves the cursor one row down; on the last visible row it stays.
    pub fn move_down(&mut self)
        ensures
            final(self)@ == old(self)@.moved_down(),
    {
        proof {
            use_type_invariant(&*self);
        }
        let len = self.get_flat_tree().len();
        if len > 0 && self.selected_index < len - 1 {
            self.selected_index = self.selected_index + 1;
        }
    }

    /// Expands or collapses the directory under the cursor.
    pub fn toggle_selected(&mut self)
        ensures
            final(self)@ == old(self)@.toggled(),
    {
        let items = self.get_flat_tree();
        if self.selected_index >= items.len() {
            return ;
        }
        let selected_path = items[self.selected_index].1.path.clone();
        self.toggle_node_by_path(selected_path.as_str());
    }

    /// Expands or collapses the directory with the path `path`.
    fn toggle_node_by_path(&mut self, path: &str)
        ensures
            final(self)@ == (AppView { root: old(self)@.root.toggled(path@), ..old(self)@ }),
    {
        proof {
            use_type_invariant(&*self);
            lemma_toggled_height(self.root@, path@);
        }
        let mut root = FileNode::new(String::new(), String::new(), false);
        assert(root@.height() == 1);
        core::mem::swap(&mut self.root, &mut root);
        root.toggle(path);
        core::mem::swap(&mut self.root, &mut root);
    }
}

} // verus!
