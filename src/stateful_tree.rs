//! A tree navigated by routes: the open nodes and the selected node are
//! child-index routes from the top-level items, kept in a
//! `tui_tree_widget::TreeState`.
use vstd::prelude::*;

use tui_tree_widget::TreeState as WidgetState;

use crate::tree::{Node, Tree};

verus! {

#[verifier::external_type_specification]
#[verifier::external_body]
#[verifier::reject_recursive_types(Identifier)]
pub struct ExWidgetState<Identifier>(WidgetState<Identifier>);

/// The routes a widget state holds open.
pub uninterp spec fn opened_routes(s: WidgetState<usize>) -> Set<Seq<usize>>;

/// The route a widget state holds selected (empty for none).
pub uninterp spec fn selected_route(s: WidgetState<usize>) -> Seq<usize>;

/// Relies on tui_tree_widget's `TreeState::default`: nothing open, nothing selected.
#[verifier::external_body]
fn new_widget_state() -> (r: WidgetState<usize>)
    ensures
        opened_routes(r) == Set::<Seq<usize>>::empty(),
        selected_route(r) == Seq::<usize>::empty(),
{
    WidgetState::default()
}

/// Relies on tui_tree_widget's `TreeState::select`: the selection becomes `route`, the open set stays.
#[verifier::external_body]
fn widget_select(s: &mut WidgetState<usize>, route: Vec<usize>)
    ensures
        selected_route(*final(s)) == route@,
        opened_routes(*final(s)) == opened_routes(*old(s)),
{
    s.select(route);
}

/// Relies on tui_tree_widget's `TreeState::open`: a non-empty route is added to the open set.
#[verifier::external_body]
fn widget_open(s: &mut WidgetState<usize>, route: Vec<usize>)
    ensures
        opened_routes(*final(s)) == if route@.len() == 0 {
            opened_routes(*old(s))
        } else {
            opened_routes(*old(s)).insert(route@)
        },
        selected_route(*final(s)) == selected_route(*old(s)),
{
    s.open(route);
}

/// Relies on tui_tree_widget's `TreeState::close`: the route leaves the open set; the result
/// tells whether it was there.
#[verifier::external_body]
fn widget_close(s: &mut WidgetState<usize>, route: &Vec<usize>) -> (r: bool)
    ensures
        r == opened_routes(*old(s)).contains(route@),
        opened_routes(*final(s)) == opened_routes(*old(s)).remove(route@),
        selected_route(*final(s)) == selected_route(*old(s)),
{
    s.close(route.as_slice())
}

/// Relies on tui_tree_widget's `TreeState::selected`: the selected route.
#[verifier::external_body]
fn widget_selected(s: &WidgetState<usize>) -> (r: Vec<usize>)
    ensures
        r@ == selected_route(*s),
{
    s.selected().to_vec()
}

/// Relies on tui_tree_widget's `TreeState::opened` and `HashSet::contains`: whether the route is open.
#[verifier::external_body]
fn widget_is_open(s: &WidgetState<usize>, route: &Vec<usize>) -> (r: bool)
    ensures
        r == opened_routes(*s).contains(route@),
{
    s.opened().contains(route)
}

/// The value of a route-navigated state: the open routes and the selected one.
pub ghost struct RouteState {
    pub opened: Set<Seq<usize>>,
    pub selected: Seq<usize>,
}

/// Routes of the rows under `n` (reached by `route`), in drawing order: the
/// node, then, when its route is open, the rows of each child.
pub open spec fn node_rows<V>(n: Node<V>, route: Seq<usize>, opened: Set<Seq<usize>>) -> Seq<Seq<usize>>
    decreases n, 1nat, 0int,
{
    seq![route] + if opened.contains(route) {
        child_rows(n, route, opened, n.children@.len() as int)
    } else {
        Seq::empty()
    }
}

/// Routes of the rows of the first `count` children of `n`.
pub open spec fn child_rows<V>(n: Node<V>, route: Seq<usize>, opened: Set<Seq<usize>>, count: int) -> Seq<
    Seq<usize>,
>
    decreases n, 0nat, count,
{
    if count <= 0 || count > n.children@.len() {
        Seq::empty()
    } else {
        child_rows(n, route, opened, count - 1) + node_rows(
            n.children@[count - 1],
            route.push((count - 1) as usize),
            opened,
        )
    }
}

/// Routes of the rows of the first `count` top-level items.
pub open spec fn item_rows<V>(items: Seq<Node<V>>, opened: Set<Seq<usize>>, count: int) -> Seq<Seq<usize>>
    decreases count,
{
    if count <= 0 || count > items.len() {
        Seq::empty()
    } else {
        item_rows(items, opened, count - 1) + node_rows(items[count - 1], seq![(count - 1) as usize], opened)
    }
}

/// Routes of all visible rows.
pub open spec fn visible_routes<V>(items: Seq<Node<V>>, opened: Set<Seq<usize>>) -> Seq<Seq<usize>> {
    item_rows(items, opened, items.len() as int)
}

/// The position of the first row equal to `route`, if any.
pub open spec fn row_position(rows: Seq<Seq<usize>>, route: Seq<usize>) -> Option<int> {
    if exists|i: int| 0 <= i < rows.len() && rows[i] == route {
        Some(choose|i: int| 0 <= i < rows.len() && rows[i] == route && forall|j: int| 0 <= j < i ==> rows[j] != route)
    } else {
        None
    }
}

impl RouteState {
    /// The selection after a move: to the next (or previous) row, held at
    /// the ends; to the first row when the selection is not a row.
    pub open spec fn after_move<V>(self, items: Seq<Node<V>>, down: bool) -> RouteState {
        let rows = visible_routes(items, self.opened);
        if rows.len() == 0 {
            self
        } else {
            let target = match row_position(rows, self.selected) {
                None => 0,
                Some(c) => if down {
                    if c + 1 < rows.len() {
                        c + 1
                    } else {
                        rows.len() - 1
                    }
                } else {
                    if c > 0 {
                        c - 1
                    } else {
                        0
                    }
                },
            };
            RouteState { opened: self.opened, selected: rows[target] }
        }
    }

    /// The selected route opened (an empty selection opens nothing).
    pub open spec fn after_open(self) -> RouteState {
        RouteState {
            opened: if self.selected.len() == 0 {
                self.opened
            } else {
                self.opened.insert(self.selected)
            },
            selected: self.selected,
        }
    }

    /// The selected route closed when open; otherwise the selection goes up a level.
    pub open spec fn after_close(self) -> RouteState {
        if self.opened.contains(self.selected) {
            RouteState { opened: self.opened.remove(self.selected), selected: self.selected }
        } else {
            RouteState {
                opened: self.opened,
                selected: if self.selected.len() == 0 {
                    self.selected
                } else {
                    self.selected.drop_last()
                },
            }
        }
    }

    /// The state after `n` moves down.
    pub open spec fn after_moves_down<V>(self, items: Seq<Node<V>>, n: nat) -> RouteState
        decreases n,
    {
        if n == 0 {
            self
        } else {
            self.after_moves_down(items, (n - 1) as nat).after_move(items, true)
        }
    }
}

/// The state `set_state` builds for `route` from a fresh one: for each index
/// `k` of the route in turn, `k + 1` moves down and then an open.
pub open spec fn state_for_route<V>(items: Seq<Node<V>>, route: Seq<usize>) -> RouteState
    decreases route.len(),
{
    if route.len() == 0 {
        RouteState { opened: Set::empty(), selected: Seq::empty() }
    } else {
        state_for_route(items, route.drop_last()).after_moves_down(items, (route.last() + 1) as nat).after_open()
    }
}

/// A tree whose open nodes and selection are routes.
pub struct StatefulTree<V> {
    state: WidgetState<usize>,
    items: Vec<Node<V>>,
}

/// Appends the routes of the rows under `node`, reached by `route`.
fn collect_routes<V>(node: &Node<V>, route: Vec<usize>, state: &WidgetState<usize>, out: &mut Vec<Vec<usize>>)
    ensures
        final(out)@.map_values(|r: Vec<usize>| r@) == old(out)@.map_values(|r: Vec<usize>| r@)
            + node_rows(*node, route@, opened_routes(*state)),
    decreases node,
{
    let ghost f = |r: Vec<usize>| r@;
    let ghost start = out@.map_values(f);
    let ghost opened = opened_routes(*state);
    let open = widget_is_open(state, &route);
    out.push(route.clone());
    proof {
        assert(out@.map_values(f) =~= start + seq![route@]);
    }
    if open {
        let mut i: usize = 0;
        while i < node.children.len()
            invariant
                i <= node.children@.len(),
                f == (|r: Vec<usize>| r@),
                opened == opened_routes(*state),
                out@.map_values(f) == start + seq![route@] + child_rows(*node, route@, opened, i as int),
            decreases node.children@.len() - i,
        {
            let mut sub = route.clone();
            sub.push(i);
            collect_routes(&node.children[i], sub, state, out);
            proof {
                assert(child_rows(*node, route@, opened, i + 1) == child_rows(*node, route@, opened, i as int)
                    + node_rows(node.children@[i as int], route@.push(i), opened));
                assert(out@.map_values(f) =~= start + seq![route@] + child_rows(*node, route@, opened, i + 1));
            }
            i += 1;
        }
    } else {
        proof {
            assert(node_rows(*node, route@, opened) =~= seq![route@]);
        }
    }
}

/// Whether two routes are equal.
fn same_route(a: &Vec<usize>, b: &Vec<usize>) -> (r: bool)
    ensures
        r == (a@ == b@),
{
    if a.len() != b.len() {
        return false;
    }
    let mut i: usize = 0;
    while i < a.len()
        invariant
            i <= a@.len(),
            a@.len() == b@.len(),
            forall|j: int| 0 <= j < i ==> a@[j] == b@[j],
        decreases a@.len() - i,
    {
        if a[i] != b[i] {
            return false;
        }
        i += 1;
    }
    assert(a@ =~= b@);
    true
}

/// A copy of a route.
fn copy_route(a: &Vec<usize>) -> (r: Vec<usize>)
    ensures
        r@ == a@,
{
    let mut r: Vec<usize> = Vec::new();
    let mut i: usize = 0;
    while i < a.len()
        invariant
            i <= a@.len(),
            r@ == a@.take(i as int),
        decreases a@.len() - i,
    {
        r.push(a[i]);
        proof {
            assert(a@.take(i + 1) =~= a@.take(i as int).push(a@[i as int]));
        }
        i += 1;
    }
    assert(a@.take(i as int) =~= a@);
    r
}

impl<V> StatefulTree<V> {
    pub closed spec fn view_items(&self) -> Seq<Node<V>> {
        self.items@
    }

    pub closed spec fn view_state(&self) -> RouteState {
        RouteState { opened: opened_routes(self.state), selected: selected_route(self.state) }
    }

    /// An empty tree: no items, nothing open, nothing selected.
    pub fn new() -> (r: Self)
        ensures
            r.view_items().len() == 0,
            r.view_state() == (RouteState { opened: Set::empty(), selected: Seq::empty() }),
    {
        StatefulTree { state: new_widget_state(), items: Vec::new() }
    }

    /// A stateful tree over the single top-level item `tree`'s root.
    pub fn from_tree(tree: Tree<V>) -> (r: Self)
        ensures
            r.view_items() == seq![tree.root],
            r.view_state() == (RouteState { opened: Set::empty(), selected: Seq::empty() }),
    {
        let mut items: Vec<Node<V>> = Vec::new();
        items.push(tree.root);
        StatefulTree::new().with_items(items)
    }

    /// Uses `items` as the top-level items.
    pub fn with_items(self, items: Vec<Node<V>>) -> (r: Self)
        ensures
            r.view_items() == items@,
            r.view_state() == self.view_state(),
    {
        let mut s = self;
        s.items = items;
        s
    }

    /// Routes of the visible rows, in drawing order.
    pub fn visible(&self) -> (r: Vec<Vec<usize>>)
        ensures
            r@.map_values(|q: Vec<usize>| q@) == visible_routes(self.view_items(), self.view_state().opened),
    {
        let ghost f = |q: Vec<usize>| q@;
        let ghost opened = opened_routes(self.state);
        let mut out: Vec<Vec<usize>> = Vec::new();
        let mut i: usize = 0;
        while i < self.items.len()
            invariant
                i <= self.items@.len(),
                f == (|q: Vec<usize>| q@),
                opened == opened_routes(self.state),
                out@.map_values(f) == item_rows(self.items@, opened, i as int),
            decreases self.items@.len() - i,
        {
            let mut top: Vec<usize> = Vec::new();
            top.push(i);
            proof {
                assert(top@ =~= seq![i]);
            }
            collect_routes(&self.items[i], top, &self.state, &mut out);
            proof {
                assert(item_rows(self.items@, opened, i + 1) == item_rows(self.items@, opened, i as int)
                    + node_rows(self.items@[i as int], seq![i], opened));
            }
            i += 1;
        }
        out
    }

    /// Moves the selection one row down or up; see [`RouteState::after_move`].
    fn move_up_down(&mut self, down: bool)
        ensures
            final(self).view_items() == old(self).view_items(),
            final(self).view_state() == old(self).view_state().after_move(old(self).view_items(), down),
    {
        let rows = self.visible();
        let ghost all = visible_routes(self.items@, opened_routes(self.state));
        if rows.len() == 0 {
            proof {
                assert(rows@.map_values(|q: Vec<usize>| q@).len() == 0);
            }
            return ;
        }
        let current = widget_selected(&self.state);
        let mut pos: Option<usize> = None;
        let mut i: usize = 0;
        while i < rows.len()
            invariant
                i <= rows@.len(),
                rows@.map_values(|q: Vec<usize>| q@) == all,
                pos is None ==> forall|j: int| 0 <= j < i ==> all[j] != current@,
                pos matches Some(p) ==> p < rows@.len() && all[p as int] == current@ && forall|j: int|
                    0 <= j < p ==> all[j] != current@,
            decreases rows@.len() - i,
        {
            if pos.is_none() && same_route(&rows[i], &current) {
                pos = Some(i);
            }
            i += 1;
        }
        let last = rows.len() - 1;
        let target = match pos {
            None => 0,
            Some(c) => if down {
                if c < last {
                    c + 1
                } else {
                    last
                }
            } else {
                if c > 0 {
                    c - 1
                } else {
                    0
                }
            },
        };
        proof {
            let ghost rp = row_position(all, current@);
            match pos {
                None => {
                    assert(rp is None);
                },
                Some(p) => {
                    assert(0 <= p < all.len() && all[p as int] == current@);
                    let c = choose|c: int|
                        0 <= c < all.len() && all[c] == current@ && forall|j: int| 0 <= j < c ==> all[j] != current@;
                    assert(c == p as int) by {
                        if c < p {
                        } else if c > p {
                            assert(all[p as int] != current@);
                        }
                    }
                },
            }
            assert(all[target as int] == rows@[target as int]@);
        }
        let chosen = copy_route(&rows[target]);
        widget_select(&mut self.state, chosen);
    }

    /// Moves the selection to the next row.
    pub fn next(&mut self)
        ensures
            final(self).view_items() == old(self).view_items(),
            final(self).view_state() == old(self).view_state().after_move(old(self).view_items(), true),
    {
        self.move_up_down(true);
    }

    /// Moves the selection to the previous row.
    pub fn previous(&mut self)
        ensures
            final(self).view_items() == old(self).view_items(),
            final(self).view_state() == old(self).view_state().after_move(old(self).view_items(), false),
    {
        self.move_up_down(false);
    }

    /// Closes the selected route; when it was not open, selects its parent.
    pub fn close(&mut self)
        ensures
            final(self).view_items() == old(self).view_items(),
            final(self).view_state() == old(self).view_state().after_close(),
    {
        let selected = self.selected();
        if !widget_close(&mut self.state, &selected) {
            let mut head = selected;
            if head.len() > 0 {
                head.pop();
            }
            widget_select(&mut self.state, head);
        }
        proof {
            let s0 = old(self).view_state();
            if s0.opened.contains(s0.selected) {
            } else {
                assert(s0.opened.remove(s0.selected) =~= s0.opened);
            }
        }
    }

    /// Opens the selected route.
    pub fn open(&mut self)
        ensures
            final(self).view_items() == old(self).view_items(),
            final(self).view_state() == old(self).view_state().after_open(),
    {
        let selected = self.selected();
        widget_open(&mut self.state, selected);
    }

    /// The selected route.
    pub fn selected(&self) -> (r: Vec<usize>)
        ensures
            r@ == self.view_state().selected,
    {
        widget_selected(&self.state)
    }

    /// Resets the state and walks to `route`: for each index `k` of the
    /// route in turn, `k + 1` moves down and then an open.
    pub fn set_state(&mut self, route: &[usize])
        ensures
            final(self).view_items() == old(self).view_items(),
            final(self).view_state() == state_for_route(old(self).view_items(), route@),
    {
        self.state = new_widget_state();
        let mut i: usize = 0;
        proof {
            assert(route@.take(0) =~= Seq::<usize>::empty());
            assert(self.view_state() =~= state_for_route(self.items@, Seq::<usize>::empty()));
        }
        while i < route.len()
            invariant
                i <= route@.len(),
                self.items@ == old(self).items@,
                self.view_state() == state_for_route(self.items@, route@.take(i as int)),
            decreases route@.len() - i,
        {
            let k = route[i];
            let ghost base = self.view_state();
            let mut j: usize = 0;
            while j < k
                invariant
                    j <= k,
                    self.items@ == old(self).items@,
                    self.view_state() == base.after_moves_down(self.items@, j as nat),
                decreases k - j,
            {
                self.next();
                j += 1;
            }
            self.next();
            self.open();
            proof {
                let t = route@.take(i + 1);
                assert(t.drop_last() =~= route@.take(i as int));
                assert(t.last() == k);
                assert(self.view_state() == base.after_moves_down(self.items@, (k + 1) as nat).after_open());
            }
            i += 1;
        }
        assert(route@.take(i as int) =~= route@);
    }
}

} // verus!
