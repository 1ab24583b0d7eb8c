//! Selection and expansion state of a tree view.
//!
//! The state refers to nodes by id only, so that it survives the replacement
//! of the tree it was built on.
use vstd::prelude::*;

use crate::tree::Node;

verus! {

/// The value of a [`TreeState`]: ids of the open nodes, in the order in which
/// they were opened, and the id of the selected node.
pub ghost struct StateView {
    pub open: Seq<String>,
    pub selected: Option<String>,
}

/// Some entry of `ids` reads `id`.
pub open spec fn lists_id(ids: Seq<String>, id: Seq<char>) -> bool {
    exists|i: int| 0 <= i < ids.len() && (#[trigger] ids[i])@ == id
}

/// `open` with each id of `ids` appended in turn, unless it is listed already.
pub open spec fn push_missing(open: Seq<String>, ids: Seq<String>) -> Seq<String>
    decreases ids.len(),
{
    if ids.len() == 0 {
        open
    } else {
        let before = push_missing(open, ids.drop_last());
        if lists_id(before, ids.last()@) {
            before
        } else {
            before.push(ids.last())
        }
    }
}

/// Ids of the proper ancestors of the node at `route`, nearest first.
pub open spec fn route_ancestor_ids<V>(root: Node<V>, route: Seq<usize>) -> Seq<String> {
    Seq::new(route.len(), |j: int| root.node_at(route.take(route.len() - 1 - j)).id)
}

/// Ids of the proper ancestors of the node carrying `id`, nearest first.
pub open spec fn ancestor_ids<V>(root: Node<V>, id: Seq<char>) -> Seq<String> {
    if root.has_id(id) {
        route_ancestor_ids(root, root.route_of(id))
    } else {
        Seq::empty()
    }
}

/// The route of the next sibling of the node at `route`, or of its nearest
/// ancestor that has one.
pub open spec fn next_sibling_route<V>(root: Node<V>, route: Seq<usize>) -> Option<Seq<usize>>
    decreases route.len(),
{
    if route.len() == 0 {
        None
    } else {
        let up = route.drop_last();
        let i = route.last();
        if i + 1 < root.node_at(up).children@.len() {
            Some(up.push((i + 1) as usize))
        } else {
            next_sibling_route(root, up)
        }
    }
}

impl StateView {
    /// The node carrying `id` is open.
    pub open spec fn is_open_id(self, id: Seq<char>) -> bool {
        lists_id(self.open, id)
    }

    /// The deepest node reached from `node` by stepping to the last child
    /// as long as the current node is open and has children.
    pub open spec fn last_open_heir<V>(self, node: Node<V>) -> Node<V>
        decreases node,
    {
        if self.is_open_id(node.id@) && node.children@.len() > 0 {
            self.last_open_heir(node.children@[node.children@.len() - 1])
        } else {
            node
        }
    }

    /// The route selected by a move down from the node at `route`: its first
    /// child when it is open, else the next sibling of it or of an ancestor.
    pub open spec fn down_route<V>(self, root: Node<V>, route: Seq<usize>) -> Option<Seq<usize>> {
        let n = root.node_at(route);
        if n.children@.len() > 0 && self.is_open_id(n.id@) {
            Some(route.push(0))
        } else {
            next_sibling_route(root, route)
        }
    }

    /// The node selected by a move up from the (non-root) node at `route`:
    /// the last open heir of its previous sibling, else its parent.
    pub open spec fn up_node<V>(self, root: Node<V>, route: Seq<usize>) -> Node<V> {
        let up = route.drop_last();
        let i = route.last();
        if i > 0 {
            self.last_open_heir(root.node_at(up.push((i - 1) as usize)))
        } else {
            root.node_at(up)
        }
    }

    /// `select`: the ancestors of `node` are opened and `node` is selected.
    pub open spec fn after_select<V>(self, root: Node<V>, node: Node<V>) -> StateView {
        StateView { open: push_missing(self.open, ancestor_ids(root, node.id@)), selected: Some(node.id) }
    }

    /// `open`: the selected node is opened, unless it is a leaf, and so are its ancestors.
    pub open spec fn after_open<V>(self, root: Node<V>) -> StateView {
        match self.selected {
            Some(s) if root.has_id(s@) => {
                let n = root.node_at(root.route_of(s@));
                let first = if n.children@.len() > 0 && !self.is_open_id(n.id@) {
                    self.open.push(n.id)
                } else {
                    self.open
                };
                StateView { open: push_missing(first, ancestor_ids(root, s@)), selected: self.selected }
            },
            _ => self,
        }
    }

    /// `close`: when the selected node is open, it and every node below it are closed.
    pub open spec fn after_close<V>(self, root: Node<V>) -> StateView {
        match self.selected {
            Some(s) if root.has_id(s@) && self.is_open_id(s@) => {
                let n = root.node_at(root.route_of(s@));
                StateView { open: self.open.filter(|x: String| !n.has_id(x@)), selected: self.selected }
            },
            _ => self,
        }
    }

    /// `move_down`: the selection moves to the next row; it stays on the last one.
    pub open spec fn after_move_down<V>(self, root: Node<V>) -> StateView {
        match self.selected {
            Some(s) if root.has_id(s@) => match self.down_route(root, root.route_of(s@)) {
                Some(r) => StateView { open: self.open, selected: Some(root.node_at(r).id) },
                None => self,
            },
            _ => self,
        }
    }

    /// `move_up`: the selection moves to the previous row; it stays on the root.
    pub open spec fn after_move_up<V>(self, root: Node<V>) -> StateView {
        match self.selected {
            Some(s) if root.has_id(s@) && root.route_of(s@).len() > 0 => StateView {
                open: self.open,
                selected: Some(self.up_node(root, root.route_of(s@)).id),
            },
            _ => self,
        }
    }

    /// `tree_changed`: either a reset to the root, or the selection and the
    /// open ids kept where the new tree still has them.
    pub open spec fn after_tree_changed<V>(self, root: Node<V>, preserve: bool) -> StateView {
        if preserve {
            StateView {
                open: self.open.filter(|x: String| root.has_id(x@)),
                selected: match self.selected {
                    Some(s) => Some(
                        if root.has_id(s@) {
                            s
                        } else {
                            root.id
                        },
                    ),
                    None => None,
                },
            }
        } else {
            StateView { open: Seq::empty(), selected: Some(root.id) }
        }
    }

    /// The node under the selection's parent at `first` (or last) position.
    pub open spec fn sibling_at_end<V>(self, root: Node<V>, first: bool) -> Option<Node<V>> {
        match self.selected {
            Some(s) if root.has_id(s@) && root.route_of(s@).len() > 0 => {
                let p = root.node_at(root.route_of(s@).drop_last());
                Some(
                    if first {
                        p.children@[0]
                    } else {
                        p.children@[p.children@.len() - 1]
                    },
                )
            },
            _ => None,
        }
    }
}

/// The sibling just before (or after) the node carrying `id`.
pub open spec fn adjacent_sibling<V>(root: Node<V>, id: Seq<char>, before: bool) -> Option<Node<V>> {
    if root.has_id(id) && root.route_of(id).len() > 0 {
        let r = root.route_of(id);
        let i = r.last();
        let p = root.node_at(r.drop_last());
        if before {
            if i > 0 {
                Some(p.children@[i - 1])
            } else {
                None
            }
        } else {
            if i + 1 < p.children@.len() {
                Some(p.children@[i + 1])
            } else {
                None
            }
        }
    } else {
        None
    }
}

/// Tracks the selected node and the open nodes of a tree view.
#[derive(Clone, Debug)]
pub struct TreeState {
    open: Vec<String>,
    selected: Option<String>,
}

impl View for TreeState {
    type V = StateView;

    closed spec fn view(&self) -> StateView {
        StateView { open: self.open@, selected: self.selected }
    }
}

impl Default for TreeState {
    fn default() -> (r: Self)
        ensures
            r@.open.len() == 0,
            r@.selected is None,
    {
        TreeState { open: Vec::new(), selected: None }
    }
}

/// Whether `ids` lists `id`.
fn lists(ids: &Vec<String>, id: &String) -> (r: bool)
    ensures
        r == lists_id(ids@, id@),
{
    let mut i: usize = 0;
    while i < ids.len()
        invariant
            i <= ids@.len(),
            forall|j: int| 0 <= j < i ==> (#[trigger] ids@[j])@ != id@,
        decreases ids@.len() - i,
    {
        if ids[i] == *id {
            return true;
        }
        i += 1;
    }
    false
}

/// The ids of `ids` that `within` carries (`keep_present`) or does not carry.
fn filter_by_presence<V>(ids: &Vec<String>, within: &Node<V>, keep_present: bool) -> (r: Vec<String>)
    ensures
        r@ == ids@.filter(|x: String| within.has_id(x@) == keep_present),
{
    let ghost pred = |x: String| within.has_id(x@) == keep_present;
    let mut kept: Vec<String> = Vec::new();
    let mut i: usize = 0;
    while i < ids.len()
        invariant
            i <= ids@.len(),
            pred == (|x: String| within.has_id(x@) == keep_present),
            kept@ == ids@.take(i as int).filter(pred),
        decreases ids@.len() - i,
    {
        let ghost before = kept@;
        let present = within.query(&ids[i]).is_some();
        if present == keep_present {
            kept.push(ids[i].clone());
        }
        proof {
            let t = ids@.take(i + 1);
            assert(t.drop_last() =~= ids@.take(i as int));
            assert(t.last() == ids@[i as int]);
            assert(t.filter(pred) == if pred(t.last()) {
                t.drop_last().filter(pred).push(t.last())
            } else {
                t.drop_last().filter(pred)
            }) by {
                reveal(Seq::filter);
            }
        }
        i += 1;
    }
    assert(ids@.take(i as int) =~= ids@);
    kept
}

/// The node at a route known to be valid.
fn node_of<'a, V>(root: &'a Node<V>, route: &Vec<usize>) -> (r: &'a Node<V>)
    requires
        root.valid_route(route@),
    ensures
        *r == root.node_at(route@),
{
    match root.node_by_route(route.as_slice()) {
        Some(n) => n,
        None => root,
    }
}

/// Exec form of [`next_sibling_route`].
fn next_sibling_route_of<V>(root: &Node<V>, route: Vec<usize>) -> (r: Option<Vec<usize>>)
    requires
        root.valid_route(route@),
    ensures
        r matches Some(q) ==> next_sibling_route(*root, route@) == Some(q@) && root.valid_route(q@),
        r is None ==> next_sibling_route(*root, route@) is None,
{
    let ghost orig = route@;
    let mut walk = route;
    while walk.len() > 0
        invariant
            root.valid_route(walk@),
            orig == route@,
            next_sibling_route(*root, orig) == next_sibling_route(*root, walk@),
        decreases walk@.len(),
    {
        let ghost cur = walk@;
        let i = walk.pop().unwrap();
        proof {
            assert(walk@ =~= cur.drop_last());
            root.lemma_route_prefix(cur, cur.len() - 1);
            assert(cur.take(cur.len() - 1) =~= walk@);
            assert(cur =~= walk@.push(i));
            root.lemma_route_push(walk@, i);
        }
        let parent = node_of(root, &walk);
        let n = parent.children.len();
        proof {
            assert(cur.drop_last() == walk@);
            assert(cur.last() == i);
        }
        if i + 1 < n {
            let ghost up = walk@;
            walk.push(i + 1);
            proof {
                assert(root.node_at(up).children@.len() == n);
                assert(next_sibling_route(*root, cur) == Some(up.push((i + 1) as usize)));
                assert(walk@ == up.push((i + 1) as usize));
                root.lemma_route_push(up, (i + 1) as usize);
            }
            return Some(walk);
        }
    }
    None
}

impl TreeState {
    /// Whether `node` is open.
    pub fn is_open<V>(&self, node: &Node<V>) -> (r: bool)
        ensures
            r == self@.is_open_id(node.id@),
    {
        lists(&self.open, &node.id)
    }

    /// Whether `node` is closed.
    pub fn is_closed<V>(&self, node: &Node<V>) -> (r: bool)
        ensures
            r == !self@.is_open_id(node.id@),
    {
        !self.is_open(node)
    }

    /// The id of the selected node.
    pub fn selected(&self) -> (r: Option<&str>)
        ensures
            r is Some <==> self@.selected is Some,
            r matches Some(s) ==> s@ == self@.selected.unwrap()@,
    {
        match &self.selected {
            Some(s) => Some(s.as_str()),
            None => None,
        }
    }

    /// The id of the selected node, as stored.
    pub fn selected_id(&self) -> (r: Option<&String>)
        ensures
            r is Some <==> self@.selected is Some,
            r matches Some(s) ==> *s == self@.selected.unwrap(),
    {
        self.selected.as_ref()
    }

    /// Whether `node` is the selected one.
    pub fn is_selected<V>(&self, node: &Node<V>) -> (r: bool)
        ensures
            r == (self@.selected matches Some(s) && s@ == node.id@),
    {
        match &self.selected {
            Some(s) => *s == node.id,
            None => false,
        }
    }

    /// The open ids, in the order in which they were opened.
    pub fn opened(&self) -> (r: &Vec<String>)
        ensures
            r@ == self@.open,
    {
        &self.open
    }

    /// Replaces the open ids with `open`.
    pub fn force_open(&mut self, open: &[&str])
        ensures
            final(self)@.open.len() == open@.len(),
            forall|i: int| 0 <= i < open@.len() ==> (#[trigger] final(self)@.open[i])@ == open@[i]@,
            final(self)@.selected == old(self)@.selected,
    {
        let mut ids: Vec<String> = Vec::new();
        let mut i: usize = 0;
        while i < open.len()
            invariant
                i <= open@.len(),
                ids@.len() == i,
                forall|j: int| 0 <= j < i ==> (#[trigger] ids@[j])@ == open@[j]@,
            decreases open@.len() - i,
        {
            ids.push(open[i].to_owned());
            i += 1;
        }
        self.open = ids;
    }

    /// Appends to the open ids those of the proper ancestors of the node at
    /// `route` that are not listed yet, nearest first.
    fn open_ancestors<V>(&mut self, root: &Node<V>, route: &Vec<usize>)
        requires
            root.valid_route(route@),
        ensures
            final(self)@.open == push_missing(old(self)@.open, route_ancestor_ids(*root, route@)),
            final(self)@.selected == old(self)@.selected,
    {
        let ghost r0 = route@;
        let ghost ids = route_ancestor_ids(*root, r0);
        let n = route.len();
        let mut up = route.clone();
        let mut j: usize = 0;
        assert(up@ =~= r0);
        while up.len() > 0
            invariant
                root.valid_route(r0),
                ids == route_ancestor_ids(*root, r0),
                r0.len() == n,
                j + up@.len() == r0.len(),
                up@ == r0.take(r0.len() - j),
                self@.open == push_missing(old(self)@.open, ids.take(j as int)),
                self@.selected == old(self)@.selected,
            decreases up@.len(),
        {
            up.pop();
            proof {
                assert(up@ =~= r0.take(r0.len() - 1 - j));
                root.lemma_route_prefix(r0, r0.len() - 1 - j);
            }
            let anc = node_of(root, &up);
            let ghost before = self@.open;
            if !lists(&self.open, &anc.id) {
                self.open.push(anc.id.clone());
            }
            proof {
                let t = ids.take(j + 1);
                assert(t.drop_last() =~= ids.take(j as int));
                assert(t.last() == anc.id);
            }
            j += 1;
        }
        assert(ids.take(j as int) =~= ids);
    }

    /// Selects `node` and opens all of its ancestors.
    pub fn select<V>(&mut self, root: &Node<V>, node: &Node<V>)
        requires
            root.unique_ids(),
        ensures
            final(self)@ == old(self)@.after_select(*root, *node),
            root.has_id(node.id@) ==> forall|k: int|
                0 <= k < root.route_of(node.id@).len() ==> final(self)@.is_open_id(
                    #[trigger] root.node_at(root.route_of(node.id@).take(k)).id@,
                ),
    {
        if let Some(route) = root.route_by_node(&node.id) {
            proof {
                root.lemma_route_of(route@);
            }
            self.open_ancestors(root, &route);
        }
        self.selected = Some(node.id.clone());
        proof {
            if root.has_id(node.id@) {
                let r = root.route_of(node.id@);
                root.lemma_has_id(node.id@);
                assert forall|k: int| 0 <= k < r.len() implies final(self)@.is_open_id(
                    #[trigger] root.node_at(r.take(k)).id@,
                ) by {
                    let ids = route_ancestor_ids(*root, r);
                    assert(ids[r.len() - 1 - k] == root.node_at(r.take(k)).id);
                    lemma_push_missing_lists(old(self)@.open, ids, r.len() - 1 - k);
                }
            }
        }
    }
    /// The route of the selected node, when the tree carries its id.
    fn selected_route<V>(&self, root: &Node<V>) -> (r: Option<Vec<usize>>)
        requires
            root.unique_ids(),
        ensures
            r is Some <==> (self@.selected matches Some(s) && root.has_id(s@)),
            r matches Some(q) ==> q@ == root.route_of(self@.selected.unwrap()@) && root.valid_route(q@),
    {
        match &self.selected {
            Some(s) => {
                let r = root.route_by_node(s);
                proof {
                    if r is Some {
                        root.lemma_route_of(r.unwrap()@);
                    }
                }
                r
            },
            None => None,
        }
    }

    /// Opens the selected node (unless it is a leaf or open already) and all of its ancestors.
    pub fn open<V>(&mut self, root: &Node<V>)
        requires
            root.unique_ids(),
        ensures
            final(self)@ == old(self)@.after_open(*root),
    {
        let route = match self.selected_route(root) {
            Some(r) => r,
            None => return ,
        };
        let node = node_of(root, &route);
        if !node.is_leaf() && !self.is_open(node) {
            self.open.push(node.id.clone());
        }
        self.open_ancestors(root, &route);
    }

    /// Closes the selected node, when it is open, together with every node below it.
    pub fn close<V>(&mut self, root: &Node<V>)
        requires
            root.unique_ids(),
        ensures
            final(self)@ == old(self)@.after_close(*root),
            old(self)@.selected is Some ==> ({
                let s = old(self)@.selected.unwrap()@;
                let n = root.node_at(root.route_of(s));
                root.has_id(s) && old(self)@.is_open_id(s) ==> forall|q: Seq<usize>|
                    n.valid_route(q) ==> !final(self)@.is_open_id((#[trigger] n.node_at(q)).id@)
            }),
    {
        let route = match self.selected_route(root) {
            Some(r) => r,
            None => return ,
        };
        let node = node_of(root, &route);
        if self.is_open(node) {
            let ghost before = self@.open;
            self.open = filter_by_presence(&self.open, node, false);
            proof {
                let p1 = |x: String| node.has_id(x@) == false;
                let p2 = |x: String| !node.has_id(x@);
                assert(p1 =~= p2);
                assert forall|q: Seq<usize>| node.valid_route(q) implies !self@.is_open_id(
                    (#[trigger] node.node_at(q)).id@,
                ) by {
                    if self@.is_open_id(node.node_at(q).id@) {
                        let i = choose|i: int|
                            0 <= i < self@.open.len() && (#[trigger] self@.open[i])@ == node.node_at(q).id@;
                        before.lemma_filter_pred(p2, i);
                    }
                }
            }
        }
    }

    /// Moves the selection to the next visible row: the first child of an open
    /// node, else the next sibling of the node or of its nearest ancestor that
    /// has one. On the last row the selection stays.
    pub fn move_down<V>(&mut self, root: &Node<V>)
        requires
            root.unique_ids(),
        ensures
            final(self)@ == old(self)@.after_move_down(*root),
    {
        let route = match self.selected_route(root) {
            Some(r) => r,
            None => return ,
        };
        let node = node_of(root, &route);
        let target = if !node.is_leaf() && self.is_open(node) {
            let mut first = route.clone();
            first.push(0);
            proof {
                root.lemma_route_push(route@, 0);
            }
            Some(first)
        } else {
            next_sibling_route_of(root, route.clone())
        };
        if let Some(t) = target {
            let next = node_of(root, &t);
            self.selected = Some(next.id.clone());
        }
    }

    /// Moves the selection to the previous visible row: the last open heir of
    /// the previous sibling, else the parent. On the root the selection stays.
    pub fn move_up<V>(&mut self, root: &Node<V>)
        requires
            root.unique_ids(),
        ensures
            final(self)@ == old(self)@.after_move_up(*root),
    {
        let route = match self.selected_route(root) {
            Some(r) => r,
            None => return ,
        };
        if route.len() == 0 {
            return ;
        }
        let mut up = route.clone();
        let i = up.pop().unwrap();
        proof {
            assert(up@ =~= route@.take(route@.len() - 1));
            root.lemma_route_prefix(route@, route@.len() - 1);
            assert(route@ =~= up@.push(i));
            root.lemma_route_push(up@, i);
            assert(up@ == route@.drop_last());
        }
        if i > 0 {
            let ghost parent = up@;
            up.push(i - 1);
            proof {
                root.lemma_route_push(parent, (i - 1) as usize);
            }
            let sibling = node_of(root, &up);
            let heir = self.get_last_open_heir(sibling);
            self.selected = Some(heir.id.clone());
        } else {
            let parent = node_of(root, &up);
            self.selected = Some(parent.id.clone());
        }
    }

    /// The deepest node reached from `node` by stepping to the last child as
    /// long as the current node is open and has children.
    pub fn get_last_open_heir<'a, V>(&self, node: &'a Node<V>) -> (r: &'a Node<V>)
        ensures
            *r == self@.last_open_heir(*node),
        decreases node,
    {
        if self.is_open(node) && node.children.len() > 0 {
            let last = node.children.len() - 1;
            self.get_last_open_heir(&node.children[last])
        } else {
            node
        }
    }

    /// Reconciles the state with a new tree: when `preserve` holds, the
    /// selection is kept if the tree still carries it (else the root is
    /// selected) and the open ids are kept where the tree carries them;
    /// otherwise nothing is open and the root is selected.
    pub fn tree_changed<V>(&mut self, root: &Node<V>, preserve: bool)
        ensures
            final(self)@ == old(self)@.after_tree_changed(*root, preserve),
            !preserve ==> final(self)@.selected == Some(root.id) && final(self)@.open.len() == 0,
    {
        if preserve {
            let sel = self.selected.take();
            self.selected = match sel {
                Some(s) => {
                    if root.query(&s).is_some() {
                        Some(s)
                    } else {
                        Some(root.id.clone())
                    }
                },
                None => None,
            };
            let ghost before = self@.open;
            self.open = filter_by_presence(&self.open, root, true);
            proof {
                let p1 = |x: String| root.has_id(x@) == true;
                let p2 = |x: String| root.has_id(x@);
                assert(p1 =~= p2);
            }
        } else {
            self.open = Vec::new();
            self.selected = Some(root.id.clone());
        }
    }

    /// The first child of the selected node's parent; `None` for the root.
    pub fn first_sibling<'a, V>(&self, tree: &'a Node<V>) -> (r: Option<&'a Node<V>>)
        requires
            tree.unique_ids(),
        ensures
            r is Some <==> self@.sibling_at_end(*tree, true) is Some,
            r matches Some(n) ==> self@.sibling_at_end(*tree, true) == Some(*n),
    {
        self.sibling_at_end(tree, true)
    }

    /// The last child of the selected node's parent; `None` for the root.
    pub fn last_sibling<'a, V>(&self, tree: &'a Node<V>) -> (r: Option<&'a Node<V>>)
        requires
            tree.unique_ids(),
        ensures
            r is Some <==> self@.sibling_at_end(*tree, false) is Some,
            r matches Some(n) ==> self@.sibling_at_end(*tree, false) == Some(*n),
    {
        self.sibling_at_end(tree, false)
    }

    fn sibling_at_end<'a, V>(&self, tree: &'a Node<V>, first: bool) -> (r: Option<&'a Node<V>>)
        requires
            tree.unique_ids(),
        ensures
            r is Some <==> self@.sibling_at_end(*tree, first) is Some,
            r matches Some(n) ==> self@.sibling_at_end(*tree, first) == Some(*n),
    {
        let route = match self.selected_route(tree) {
            Some(r) => r,
            None => return None,
        };
        if route.len() == 0 {
            return None;
        }
        let mut up = route.clone();
        let i = up.pop().unwrap();
        proof {
            assert(up@ =~= route@.take(route@.len() - 1));
            tree.lemma_route_prefix(route@, route@.len() - 1);
            assert(route@ =~= up@.push(i));
            tree.lemma_route_push(up@, i);
            assert(up@ == route@.drop_last());
        }
        let parent = node_of(tree, &up);
        if first {
            Some(&parent.children[0])
        } else {
            let last = parent.children.len() - 1;
            Some(&parent.children[last])
        }
    }

    /// The sibling just before `node` in `root`.
    pub fn previous_sibling<'a, V>(&self, root: &'a Node<V>, node: &Node<V>) -> (r: Option<&'a Node<V>>)
        requires
            root.unique_ids(),
        ensures
            r is Some <==> adjacent_sibling(*root, node.id@, true) is Some,
            r matches Some(n) ==> adjacent_sibling(*root, node.id@, true) == Some(*n),
    {
        adjacent(root, &node.id, true)
    }

    /// The sibling just after `node` in `root`.
    pub fn next_sibling<'a, V>(&self, root: &'a Node<V>, node: &Node<V>) -> (r: Option<&'a Node<V>>)
        requires
            root.unique_ids(),
        ensures
            r is Some <==> adjacent_sibling(*root, node.id@, false) is Some,
            r matches Some(n) ==> adjacent_sibling(*root, node.id@, false) == Some(*n),
    {
        adjacent(root, &node.id, false)
    }
}

/// Exec form of [`adjacent_sibling`].
fn adjacent<'a, V>(root: &'a Node<V>, id: &String, before: bool) -> (r: Option<&'a Node<V>>)
    requires
        root.unique_ids(),
    ensures
        r is Some <==> adjacent_sibling(*root, id@, before) is Some,
        r matches Some(n) ==> adjacent_sibling(*root, id@, before) == Some(*n),
{
    let route = match root.route_by_node(id) {
        Some(r) => r,
        None => return None,
    };
    proof {
        root.lemma_route_of(route@);
    }
    if route.len() == 0 {
        return None;
    }
    let mut up = route.clone();
    let i = up.pop().unwrap();
    proof {
        assert(up@ =~= route@.take(route@.len() - 1));
        root.lemma_route_prefix(route@, route@.len() - 1);
        assert(route@ =~= up@.push(i));
        root.lemma_route_push(up@, i);
        assert(up@ == route@.drop_last());
    }
    let parent = node_of(root, &up);
    let n = parent.children.len();
    if before {
        if i > 0 {
            Some(&parent.children[i - 1])
        } else {
            None
        }
    } else {
        if i + 1 < n {
            Some(&parent.children[i + 1])
        } else {
            None
        }
    }
}

/// Every id of `ids` is listed after `push_missing`.
pub proof fn lemma_push_missing_lists(open: Seq<String>, ids: Seq<String>, j: int)
    requires
        0 <= j < ids.len(),
    ensures
        lists_id(push_missing(open, ids), ids[j]@),
    decreases ids.len(),
{
    lemma_push_missing_keeps(open, ids.drop_last());
    if j < ids.len() - 1 {
        lemma_push_missing_lists(open, ids.drop_last(), j);
        let before = push_missing(open, ids.drop_last());
        assert(ids.drop_last()[j] == ids[j]);
        let i = choose|i: int| 0 <= i < before.len() && (#[trigger] before[i])@ == ids[j]@;
        if !lists_id(before, ids.last()@) {
            assert(before.push(ids.last())[i] == before[i]);
        }
    } else {
        let before = push_missing(open, ids.drop_last());
        if !lists_id(before, ids.last()@) {
            assert(before.push(ids.last())[before.len() as int] == ids.last());
        }
    }
}

/// `push_missing` only appends.
pub proof fn lemma_push_missing_keeps(open: Seq<String>, ids: Seq<String>)
    ensures
        push_missing(open, ids).len() >= open.len(),
        push_missing(open, ids).take(open.len() as int) == open,
    decreases ids.len(),
{
    if ids.len() > 0 {
        lemma_push_missing_keeps(open, ids.drop_last());
        let before = push_missing(open, ids.drop_last());
        assert(before.push(ids.last()).take(open.len() as int) =~= before.take(open.len() as int));
    }
}


/// `push_missing` appends nothing when every id is listed already.
pub proof fn lemma_push_missing_listed(open: Seq<String>, ids: Seq<String>)
    requires
        forall|j: int| 0 <= j < ids.len() ==> lists_id(open, (#[trigger] ids[j])@),
    ensures
        push_missing(open, ids) == open,
    decreases ids.len(),
{
    if ids.len() > 0 {
        assert forall|j: int| 0 <= j < ids.drop_last().len() implies lists_id(
            open,
            (#[trigger] ids.drop_last()[j])@,
        ) by {
            assert(ids.drop_last()[j] == ids[j]);
        }
        lemma_push_missing_listed(open, ids.drop_last());
        assert(lists_id(open, ids[ids.len() - 1]@));
    }
}

/// An id listed before `push_missing` stays listed.
pub proof fn lemma_push_missing_still_lists(open: Seq<String>, ids: Seq<String>, id: Seq<char>)
    requires
        lists_id(open, id),
    ensures
        lists_id(push_missing(open, ids), id),
{
    lemma_push_missing_keeps(open, ids);
    let out = push_missing(open, ids);
    let i = choose|i: int| 0 <= i < open.len() && (#[trigger] open[i])@ == id;
    assert(out.take(open.len() as int)[i] == out[i]);
}

/// Opening the selected node a second time changes nothing: in particular
/// the number of open ids stays the same.
pub proof fn lemma_open_twice<V>(s: StateView, root: Node<V>)
    requires
        root.unique_ids(),
    ensures
        s.after_open(root).after_open(root) == s.after_open(root),
        s.after_open(root).after_open(root).open.len() == s.after_open(root).open.len(),
{
    let s1 = s.after_open(root);
    match s.selected {
        Some(sel) if root.has_id(sel@) => {
            let n = root.node_at(root.route_of(sel@));
            let first = if n.children@.len() > 0 && !s.is_open_id(n.id@) {
                s.open.push(n.id)
            } else {
                s.open
            };
            let ids = ancestor_ids(root, sel@);
            if n.children@.len() > 0 {
                if s.is_open_id(n.id@) {
                    assert(lists_id(first, n.id@));
                } else {
                    assert(first[s.open.len() as int] == n.id);
                    assert(lists_id(first, n.id@));
                }
                lemma_push_missing_still_lists(first, ids, n.id@);
            }
            assert forall|j: int| 0 <= j < ids.len() implies lists_id(s1.open, (#[trigger] ids[j])@) by {
                lemma_push_missing_lists(first, ids, j);
            }
            lemma_push_missing_listed(s1.open, ids);
        },
        _ => {},
    }
}

/// The shape of a next-sibling route: at some level `m` the index steps to
/// the following sibling, and below that level the route ran through last
/// children only.
pub proof fn lemma_next_sibling_route_shape<V>(root: Node<V>, r: Seq<usize>) -> (m: int)
    requires
        root.valid_route(r),
        next_sibling_route(root, r) is Some,
    ensures
        0 <= m < r.len(),
        r[m] + 1 < root.node_at(r.take(m)).children@.len(),
        r[m] + 1 <= usize::MAX,
        next_sibling_route(root, r) == Some(r.take(m).push((r[m] + 1) as usize)),
        forall|k: int| m < k < r.len() ==> r[k] + 1 == (#[trigger] root.node_at(r.take(k))).children@.len(),
    decreases r.len(),
{
    let up = r.drop_last();
    let i = r.last();
    root.lemma_route_prefix(r, r.len() - 1);
    assert(r.take(r.len() - 1) =~= up);
    assert(r =~= up.push(i));
    root.lemma_route_push(up, i);
    let c = root.node_at(up).children;
    assert(c@.len() == c.len());
    if i + 1 < root.node_at(up).children@.len() {
        (r.len() - 1) as int
    } else {
        let m = lemma_next_sibling_route_shape(root, up);
        assert(up.take(m) =~= r.take(m));
        assert(up[m] == r[m]);
        assert forall|k: int| m < k < r.len() implies r[k] + 1 == (#[trigger] root.node_at(
            r.take(k),
        )).children@.len() by {
            if k < r.len() - 1 {
                assert(up.take(k) =~= r.take(k));
                assert(up[k] == r[k]);
                assert(root.node_at(up.take(k)) == root.node_at(r.take(k)));
            }
        }
        m
    }
}

/// A route reached by a move down is a route of the tree.
pub proof fn lemma_down_route_valid<V>(s: StateView, root: Node<V>, r: Seq<usize>)
    requires
        root.valid_route(r),
        s.down_route(root, r) is Some,
    ensures
        root.valid_route(s.down_route(root, r).unwrap()),
        s.down_route(root, r).unwrap().len() > 0,
{
    let n = root.node_at(r);
    if n.children@.len() > 0 && s.is_open_id(n.id@) {
        root.lemma_route_push(r, 0);
    } else {
        let m = lemma_next_sibling_route_shape(root, r);
        root.lemma_route_prefix(r, m);
        root.lemma_route_push(r.take(m), (r[m] + 1) as usize);
    }
}

/// The last open heir depends on the open ids only.
proof fn lemma_heir_same_open<V>(s: StateView, t: StateView, node: Node<V>)
    requires
        s.open == t.open,
    ensures
        s.last_open_heir(node) == t.last_open_heir(node),
    decreases node,
{
    if s.is_open_id(node.id@) && node.children@.len() > 0 {
        lemma_heir_same_open(s, t, node.children@[node.children@.len() - 1]);
    }
}

/// Walking the last open heirs from a prefix of `r` ends at the node of `r`
/// when, below the prefix, `r` runs through open nodes and last children
/// and ends on a node that is closed or has no children.
proof fn lemma_heir_chain<V>(s: StateView, root: Node<V>, r: Seq<usize>, k: int)
    requires
        root.valid_route(r),
        0 <= k <= r.len(),
        forall|j: int| k <= j < r.len() ==> s.is_open_id((#[trigger] root.node_at(r.take(j))).id@),
        forall|j: int| k <= j < r.len() ==> r[j] + 1 == (#[trigger] root.node_at(r.take(j))).children@.len(),
        !(root.node_at(r).children@.len() > 0 && s.is_open_id(root.node_at(r).id@)),
    ensures
        s.last_open_heir(root.node_at(r.take(k))) == root.node_at(r),
    decreases r.len() - k,
{
    if k == r.len() {
        assert(r.take(k) =~= r);
    } else {
        lemma_heir_chain(s, root, r, k + 1);
        root.lemma_route_prefix(r, k + 1);
        assert(r.take(k + 1) =~= r.take(k).push(r[k]));
        root.lemma_route_push(r.take(k), r[k]);
        let n = root.node_at(r.take(k));
        assert(s.is_open_id(n.id@));
        assert(r[k] + 1 == n.children@.len());
    }
}

/// Moving down and then up returns to the starting row, for a selected row
/// whose ancestors are all open (a row that can be scrolled to) that is not
/// the last row; on the root row this also holds when it is the last row.
pub proof fn lemma_move_down_then_up<V>(s: StateView, root: Node<V>)
    requires
        root.unique_ids(),
        s.selected is Some,
        root.has_id(s.selected.unwrap()@),
        forall|k: int|
            0 <= k < root.route_of(s.selected.unwrap()@).len() ==> s.is_open_id(
                (#[trigger] root.node_at(root.route_of(s.selected.unwrap()@).take(k))).id@,
            ),
        s.down_route(root, root.route_of(s.selected.unwrap()@)) is Some || root.route_of(
            s.selected.unwrap()@,
        ).len() == 0,
    ensures
        s.after_move_down(root).after_move_up(root).selected is Some,
        s.after_move_down(root).after_move_up(root).selected.unwrap()@ == s.selected.unwrap()@,
{
    let sel = s.selected.unwrap();
    let r = root.route_of(sel@);
    root.lemma_has_id(sel@);
    let s1 = s.after_move_down(root);
    match s.down_route(root, r) {
        None => {
            assert(r.len() == 0);
            assert(s1 == s);
        },
        Some(u) => {
            lemma_down_route_valid(s, root, r);
            root.lemma_route_of(u);
            let sel1 = root.node_at(u).id;
            assert(s1.selected == Some(sel1));
            assert(root.route_of(sel1@) == u);
            let n = root.node_at(r);
            if n.children@.len() > 0 && s.is_open_id(n.id@) {
                assert(u.drop_last() =~= r);
                assert(u.last() == 0);
                assert(s1.up_node(root, u) == n);
            } else {
                let m = lemma_next_sibling_route_shape(root, r);
                let w = r.take(m).push((r[m] + 1) as usize);
                assert(u == w);
                assert(w.drop_last() =~= r.take(m));
                assert(r.take(m).push(r[m]) =~= r.take(m + 1));
                assert((w.last() - 1) as usize == r[m]);
                lemma_heir_chain(s, root, r, m + 1);
                lemma_heir_same_open(s, s1, root.node_at(r.take(m + 1)));
                assert(u.drop_last().push((u.last() - 1) as usize) =~= r.take(m + 1));
                assert(s1.up_node(root, u) == s.last_open_heir(root.node_at(r.take(m + 1))));
            }
        },
    }
}

} // verus!
