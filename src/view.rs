//! A tree view component: a tree, its navigation state and the commands a
//! host dispatches to it.
use vstd::prelude::*;

use crate::tree::{Node, Tree};
use crate::tree_state::{StateView, TreeState};

verus! {

/// A command for the tree view.
#[derive(PartialEq, Eq, Structural, Debug, Clone, Copy)]
pub enum TreeCommand {
    /// Select the first sibling of the selected node.
    GoToBegin,
    /// Select the last sibling of the selected node.
    GoToEnd,
    /// Move to the next row.
    MoveDown,
    /// Move to the previous row.
    MoveUp,
    /// Move down by the scroll step.
    ScrollDown,
    /// Move up by the scroll step.
    ScrollUp,
    /// Report the selected node.
    Submit,
    /// Open the selected node.
    Open,
    /// Close the selected node.
    Close,
}

/// What a command reports.
#[derive(PartialEq, Eq, Debug, Clone)]
pub enum TreeCommandResult {
    /// Nothing to report.
    Unchanged,
    /// The selection moved to the node with this id.
    Changed(String),
    /// The selected node's id, on submission.
    Submit(Option<String>),
}

/// The state after `steps` moves down.
pub open spec fn moved_down<V>(s: StateView, root: Node<V>, steps: nat) -> StateView
    decreases steps,
{
    if steps == 0 {
        s
    } else {
        moved_down(s, root, (steps - 1) as nat).after_move_down(root)
    }
}

/// The state after `steps` moves up.
pub open spec fn moved_up<V>(s: StateView, root: Node<V>, steps: nat) -> StateView
    decreases steps,
{
    if steps == 0 {
        s
    } else {
        moved_up(s, root, (steps - 1) as nat).after_move_up(root)
    }
}

/// The state after `cmd`, with `step` moves for a scroll.
pub open spec fn state_after_command<V>(s: StateView, root: Node<V>, cmd: TreeCommand, step: nat) -> StateView {
    match cmd {
        TreeCommand::GoToBegin => match s.sibling_at_end(root, true) {
            Some(n) => s.after_select(root, n),
            None => s,
        },
        TreeCommand::GoToEnd => match s.sibling_at_end(root, false) {
            Some(n) => s.after_select(root, n),
            None => s,
        },
        TreeCommand::MoveDown => s.after_move_down(root),
        TreeCommand::MoveUp => s.after_move_up(root),
        TreeCommand::ScrollDown => moved_down(s, root, step),
        TreeCommand::ScrollUp => moved_up(s, root, step),
        TreeCommand::Submit => s,
        TreeCommand::Open => s.after_open(root),
        TreeCommand::Close => s.after_close(root),
    }
}

/// What `cmd` reports, from the state before and after it: a submission
/// reports the selection, a move reports a selection that changed.
pub open spec fn command_result(before: StateView, after: StateView, cmd: TreeCommand) -> TreeCommandResult {
    match cmd {
        TreeCommand::Submit => TreeCommandResult::Submit(before.selected),
        TreeCommand::Open | TreeCommand::Close => TreeCommandResult::Unchanged,
        _ => match after.selected {
            None => TreeCommandResult::Unchanged,
            Some(a) => if before.selected matches Some(b) && b@ == a@ {
                TreeCommandResult::Unchanged
            } else {
                TreeCommandResult::Changed(a)
            },
        },
    }
}

/// A tree view: the tree, the navigation state over it, whether the state is
/// kept when the tree is replaced, and how many rows a scroll moves.
pub struct TreeView<V> {
    tree: Tree<V>,
    states: TreeState,
    preserve: bool,
    step: usize,
}

impl<V: Default> Default for TreeView<V> {
    fn default() -> (r: Self)
        ensures
            r.tree_spec().root.id@.len() == 0,
            r.tree_spec().root.children@.len() == 0,
            r.state_spec().open.len() == 0,
            r.state_spec().selected is None,
            !r.preserve_spec(),
            r.step_spec() == 8,
    {
        TreeView {
            tree: Tree::new(Node::new(String::new(), V::default())),
            states: TreeState::default(),
            preserve: false,
            step: 8,
        }
    }
}

impl<V> TreeView<V> {
    pub closed spec fn tree_spec(&self) -> Tree<V> {
        self.tree
    }

    pub closed spec fn state_spec(&self) -> StateView {
        self.states@
    }

    pub closed spec fn preserve_spec(&self) -> bool {
        self.preserve
    }

    pub closed spec fn step_spec(&self) -> nat {
        self.step as nat
    }

    /// Uses `tree` as the data (the state is left as it is).
    pub fn with_tree(self, tree: Tree<V>) -> (r: Self)
        ensures
            r.tree_spec() == tree,
            r.state_spec() == self.state_spec(),
            r.preserve_spec() == self.preserve_spec(),
            r.step_spec() == self.step_spec(),
    {
        let mut s = self;
        s.tree = tree;
        s
    }

    /// Selects the node carrying `node`, when the tree has one.
    pub fn initial_node(self, node: String) -> (r: Self)
        requires
            self.tree_spec().root.unique_ids(),
        ensures
            r.tree_spec() == self.tree_spec(),
            r.state_spec() == if self.tree_spec().root.has_id(node@) {
                let root = self.tree_spec().root;
                self.state_spec().after_select(root, root.node_at(root.route_of(node@)))
            } else {
                self.state_spec()
            },
            r.preserve_spec() == self.preserve_spec(),
            r.step_spec() == self.step_spec(),
    {
        let mut s = self;
        if let Some(n) = s.tree.root.query(&node) {
            proof {
                let q = choose|q: Seq<usize>| s.tree.root.valid_route(q) && #[trigger] s.tree.root.node_at(q) == *n;
                s.tree.root.lemma_route_of(q);
            }
            s.states.select(&s.tree.root, n);
        }
        s
    }

    /// Whether the state is kept when the tree is replaced.
    pub fn preserve_state(self, preserve: bool) -> (r: Self)
        ensures
            r.tree_spec() == self.tree_spec(),
            r.state_spec() == self.state_spec(),
            r.preserve_spec() == preserve,
            r.step_spec() == self.step_spec(),
    {
        let mut s = self;
        s.preserve = preserve;
        s
    }

    /// How many rows a scroll command moves.
    pub fn scroll_step(self, step: usize) -> (r: Self)
        ensures
            r.tree_spec() == self.tree_spec(),
            r.state_spec() == self.state_spec(),
            r.preserve_spec() == self.preserve_spec(),
            r.step_spec() == step,
    {
        let mut s = self;
        s.step = step;
        s
    }

    /// The tree.
    pub fn tree(&self) -> (r: &Tree<V>)
        ensures
            *r == self.tree_spec(),
    {
        &self.tree
    }

    /// The tree, for editing.
    pub fn tree_mut(&mut self) -> (r: &mut Tree<V>)
        ensures
            *r == old(self).tree_spec(),
            final(self).tree_spec() == *final(r),
            final(self).state_spec() == old(self).state_spec(),
            final(self).preserve_spec() == old(self).preserve_spec(),
            final(self).step_spec() == old(self).step_spec(),
    {
        &mut self.tree
    }

    /// Replaces the tree and reconciles the state with it.
    pub fn set_tree(&mut self, tree: Tree<V>)
        ensures
            final(self).tree_spec() == tree,
            final(self).state_spec() == old(self).state_spec().after_tree_changed(
                tree.root,
                old(self).preserve_spec(),
            ),
            final(self).preserve_spec() == old(self).preserve_spec(),
            final(self).step_spec() == old(self).step_spec(),
    {
        self.tree = tree;
        self.states.tree_changed(&self.tree.root, self.preserve);
    }

    /// The navigation state.
    pub fn tree_state(&self) -> (r: &TreeState)
        ensures
            r@ == self.state_spec(),
    {
        &self.states
    }

    /// The id of the selected node.
    pub fn state(&self) -> (r: Option<String>)
        ensures
            r == self.state_spec().selected,
    {
        match self.states.selected_id() {
            Some(s) => Some(s.clone()),
            None => None,
        }
    }

    /// Runs `cmd` and reports its outcome.
    pub fn perform(&mut self, cmd: TreeCommand) -> (r: TreeCommandResult)
        requires
            old(self).tree_spec().root.unique_ids(),
        ensures
            final(self).tree_spec() == old(self).tree_spec(),
            final(self).preserve_spec() == old(self).preserve_spec(),
            final(self).step_spec() == old(self).step_spec(),
            final(self).state_spec() == state_after_command(
                old(self).state_spec(),
                old(self).tree_spec().root,
                cmd,
                old(self).step_spec(),
            ),
            r == command_result(old(self).state_spec(), final(self).state_spec(), cmd),
    {
        let prev = self.state();
        match cmd {
            TreeCommand::GoToBegin => {
                if let Some(first) = self.states.first_sibling(&self.tree.root) {
                    self.states.select(&self.tree.root, first);
                }
            },
            TreeCommand::GoToEnd => {
                if let Some(last) = self.states.last_sibling(&self.tree.root) {
                    self.states.select(&self.tree.root, last);
                }
            },
            TreeCommand::MoveDown => self.states.move_down(&self.tree.root),
            TreeCommand::MoveUp => self.states.move_up(&self.tree.root),
            TreeCommand::ScrollDown => {
                let mut i: usize = 0;
                while i < self.step
                    invariant
                        i <= self.step,
                        self.tree == old(self).tree,
                        self.preserve == old(self).preserve,
                        self.step == old(self).step,
                        self.tree.root.unique_ids(),
                        self.states@ == moved_down(old(self).states@, self.tree.root, i as nat),
                    decreases self.step - i,
                {
                    self.states.move_down(&self.tree.root);
                    i += 1;
                }
            },
            TreeCommand::ScrollUp => {
                let mut i: usize = 0;
                while i < self.step
                    invariant
                        i <= self.step,
                        self.tree == old(self).tree,
                        self.preserve == old(self).preserve,
                        self.step == old(self).step,
                        self.tree.root.unique_ids(),
                        self.states@ == moved_up(old(self).states@, self.tree.root, i as nat),
                    decreases self.step - i,
                {
                    self.states.move_up(&self.tree.root);
                    i += 1;
                }
            },
            TreeCommand::Submit => {
                return TreeCommandResult::Submit(prev);
            },
            TreeCommand::Open => {
                self.states.open(&self.tree.root);
                return TreeCommandResult::Unchanged;
            },
            TreeCommand::Close => {
                self.states.close(&self.tree.root);
                return TreeCommandResult::Unchanged;
            },
        }
        self.changed(prev)
    }

    /// `Changed` with the selected id when it differs from `prev`.
    fn changed(&self, prev: Option<String>) -> (r: TreeCommandResult)
        ensures
            r == match self.state_spec().selected {
                None => TreeCommandResult::Unchanged,
                Some(a) => if prev matches Some(b) && b@ == a@ {
                    TreeCommandResult::Unchanged
                } else {
                    TreeCommandResult::Changed(a)
                },
            },
    {
        match self.states.selected_id() {
            None => TreeCommandResult::Unchanged,
            Some(id) => {
                match prev {
                    Some(p) => {
                        if p == *id {
                            TreeCommandResult::Unchanged
                        } else {
                            TreeCommandResult::Changed(id.clone())
                        }
                    },
                    None => TreeCommandResult::Changed(id.clone()),
                }
            },
        }
    }
}

} // verus!
