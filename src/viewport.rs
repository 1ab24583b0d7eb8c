//! The rows of a tree view in drawing order, and where the view starts.
use vstd::prelude::*;

use unicode_width::UnicodeWidthStr;

use crate::tree::Node;
use crate::tree_state::{StateView, TreeState};

verus! {

/// A visible node and its level (the root's is 1).
pub struct VisibleRow<'a, V> {
    pub node: &'a Node<V>,
    pub depth: usize,
}

/// The trailing mark of a drawn row.
#[derive(PartialEq, Eq, Structural, Debug, Clone, Copy)]
pub enum RowMarker {
    /// An open node.
    Open,
    /// A closed node that has children.
    Closed,
    /// A node without children.
    Leaf,
}

/// The rows of the subtree of `n`, drawn from level `depth`: the node, then,
/// when it is open, the rows of each child in turn.
pub open spec fn visible_rows<V>(n: Node<V>, state: StateView, depth: nat) -> Seq<(Node<V>, nat)>
    decreases n, 1nat, 0int,
{
    seq![(n, depth)] + if state.is_open_id(n.id@) {
        visible_children(n, state, depth + 1, n.children@.len() as int)
    } else {
        Seq::empty()
    }
}

/// The rows of the first `count` children of `n`, drawn from level `depth`.
pub open spec fn visible_children<V>(n: Node<V>, state: StateView, depth: nat, count: int) -> Seq<
    (Node<V>, nat),
>
    decreases n, 0nat, count,
{
    if count <= 0 || count > n.children@.len() {
        Seq::empty()
    } else {
        visible_children(n, state, depth, count - 1) + visible_rows(
            n.children@[count - 1],
            state,
            depth,
        )
    }
}

/// One plus the position of the last row carrying `id`, or 0 when none does.
pub open spec fn row_number<V>(rows: Seq<(Node<V>, nat)>, id: Seq<char>) -> nat
    decreases rows.len(),
{
    if rows.len() == 0 {
        0
    } else if rows.last().0.id@ == id {
        rows.len()
    } else {
        row_number(rows.drop_last(), id)
    }
}

/// How many leading rows are skipped so that the selected row sits in the
/// middle of a view `height` rows high, without scrolling past the end.
pub open spec fn skip_rows<V>(rows: Seq<(Node<V>, nat)>, selected: Option<String>, height: nat) -> nat {
    match selected {
        None => 0,
        Some(s) => {
            let centred = if row_number(rows, s@) >= height / 2 {
                (row_number(rows, s@) - height / 2) as nat
            } else {
                0
            };
            let last_start = if rows.len() >= height {
                (rows.len() - height) as nat
            } else {
                0
            };
            if centred <= last_start {
                centred
            } else {
                last_start
            }
        },
    }
}

/// The width of `s` in terminal columns.
pub uninterp spec fn display_width(s: Seq<char>) -> nat;

/// Relies on unicode_width's `UnicodeWidthStr::width`: the number of columns
/// the string takes, a function of its characters.
#[verifier::external_body]
fn text_width(s: &str) -> (r: usize)
    ensures
        r as nat == display_width(s@),
{
    UnicodeWidthStr::width(s)
}

/// The indentation of a row at level `depth`: `depth * indent_size` columns,
/// less the width of the highlight symbol and one space where one is drawn.
pub open spec fn indent_of(depth: nat, indent_size: nat, symbol: Option<Seq<char>>) -> nat {
    match symbol {
        None => depth * indent_size,
        Some(s) => if depth * indent_size >= display_width(s) + 1 {
            (depth * indent_size - display_width(s) - 1) as nat
        } else {
            0
        },
    }
}

/// Appends the rows of the subtree of `node`, drawn from level `depth`.
fn collect_rows<'a, V>(node: &'a Node<V>, state: &TreeState, depth: usize, out: &mut Vec<VisibleRow<'a, V>>)
    requires
        node.routes_shorter_than((usize::MAX - depth + 1) as nat),
        depth >= 1,
    ensures
        final(out)@.map_values(|r: VisibleRow<'a, V>| (*r.node, r.depth as nat)) == old(
            out,
        )@.map_values(|r: VisibleRow<'a, V>| (*r.node, r.depth as nat)) + visible_rows(
            *node,
            state@,
            depth as nat,
        ),
    decreases node,
{
    let ghost f = |r: VisibleRow<'a, V>| (*r.node, r.depth as nat);
    let ghost start = out@.map_values(f);
    out.push(VisibleRow { node, depth });
    proof {
        assert(out@.map_values(f) =~= start + seq![(*node, depth as nat)]);
    }
    if state.is_open(node) {
        let mut i: usize = 0;
        while i < node.children.len()
            invariant
                i <= node.children@.len(),
                node.routes_shorter_than((usize::MAX - depth + 1) as nat),
                depth >= 1,
                f == (|r: VisibleRow<'a, V>| (*r.node, r.depth as nat)),
                out@.map_values(f) == start + seq![(*node, depth as nat)] + visible_children(
                    *node,
                    state@,
                    (depth + 1) as nat,
                    i as int,
                ),
            decreases node.children@.len() - i,
        {
            let child = &node.children[i];
            proof {
                node.lemma_route_child(i, Seq::empty());
                assert(seq![i] + Seq::<usize>::empty() =~= seq![i]);
                assert(node.valid_route(seq![i]));
                assert forall|q: Seq<usize>| #[trigger] child.valid_route(q) implies q.len() < (
                usize::MAX - (depth + 1) + 1) as nat by {
                    node.lemma_route_child(i, q);
                    assert(node.valid_route(seq![i] + q));
                }
            }
            let ghost before = out@.map_values(f);
            collect_rows(child, state, depth + 1, out);
            proof {
                assert(visible_children(*node, state@, (depth + 1) as nat, i + 1) == visible_children(
                    *node,
                    state@,
                    (depth + 1) as nat,
                    i as int,
                ) + visible_rows(*child, state@, (depth + 1) as nat));
                assert(out@.map_values(f) =~= start + seq![(*node, depth as nat)] + visible_children(
                    *node,
                    state@,
                    (depth + 1) as nat,
                    i + 1,
                ));
            }
            i += 1;
        }
        proof {
            assert(visible_rows(*node, state@, depth as nat) == seq![(*node, depth as nat)]
                + visible_children(*node, state@, (depth + 1) as nat, node.children@.len() as int));
        }
    } else {
        proof {
            assert(visible_rows(*node, state@, depth as nat) =~= seq![(*node, depth as nat)]);
        }
    }
}

/// The visible rows of the tree under `root`, in drawing order: a node's
/// children follow it, each with its own rows, when the node is open.
pub fn visible_nodes<'a, V>(root: &'a Node<V>, state: &TreeState) -> (r: Vec<VisibleRow<'a, V>>)
    requires
        root.routes_shorter_than(usize::MAX as nat),
    ensures
        r@.map_values(|r: VisibleRow<'a, V>| (*r.node, r.depth as nat)) == visible_rows(*root, state@, 1),
{
    let mut out: Vec<VisibleRow<'a, V>> = Vec::new();
    collect_rows(root, state, 1, &mut out);
    assert(out@.map_values(|r: VisibleRow<'a, V>| (*r.node, r.depth as nat)) =~= Seq::empty() + visible_rows(*root, state@, 1));
    out
}

/// The number of leading rows to leave out so that the selected row stays in
/// view: the row is centred where possible and the view never scrolls past
/// the last row; with no selection nothing is skipped.
pub fn rows_to_skip<V>(root: &Node<V>, state: &TreeState, height: u16) -> (r: usize)
    requires
        root.routes_shorter_than(usize::MAX as nat),
    ensures
        r as nat == skip_rows(visible_rows(*root, state@, 1), state@.selected, height as nat),
        visible_rows(*root, state@, 1).len() <= height ==> r == 0,
{
    let selected = match state.selected() {
        Some(s) => s,
        None => return 0,
    };
    let rows = visible_nodes(root, state);
    let ghost all = visible_rows(*root, state@, 1);
    let ghost f = |r: VisibleRow<V>| (*r.node, r.depth as nat);
    let mut number: usize = 0;
    let mut i: usize = 0;
    while i < rows.len()
        invariant
            i <= rows@.len(),
            f == (|r: VisibleRow<V>| (*r.node, r.depth as nat)),
            rows@.map_values(f) == all,
            state@.selected is Some,
            selected@ == state@.selected.unwrap()@,
            number as nat == row_number(all.take(i as int), selected@),
        decreases rows@.len() - i,
    {
        proof {
            let t = all.take(i + 1);
            assert(t.drop_last() =~= all.take(i as int));
            assert(t.last() == f(rows@[i as int]));
        }
        if state.is_selected(rows[i].node) {
            number = i + 1;
        }
        i += 1;
    }
    proof {
        assert(all.take(i as int) =~= all);
    }
    let half = (height / 2) as usize;
    let total = rows.len();
    let h = height as usize;
    let centred = number.saturating_sub(half);
    let last_start = total.saturating_sub(h);
    if centred <= last_start {
        centred
    } else {
        last_start
    }
}

/// The range `[start, end)` of the rows drawn when `skip` rows are left out
/// of `total` and the view is `height` rows high.
pub fn visible_window(total: usize, skip: usize, height: usize) -> (r: (usize, usize))
    ensures
        r.0 as int == if skip <= total { skip as int } else { total as int },
        r.1 as int == if skip + height <= total { skip + height } else { total as int },
{
    let start = if skip <= total { skip } else { total };
    let room = total - start;
    let end = if height <= room { start + height } else { total };
    (start, end)
}

/// The indentation of a row at level `depth`; `symbol` is the highlight
/// symbol drawn before the selected row.
pub fn row_indent(depth: usize, indent_size: usize, symbol: Option<&str>) -> (r: usize)
    requires
        depth * indent_size <= usize::MAX,
    ensures
        r as nat == indent_of(depth as nat, indent_size as nat, match symbol {
            Some(s) => Some(s@),
            None => None,
        }),
{
    let base = depth * indent_size;
    match symbol {
        None => base,
        Some(s) => {
            let w = text_width(s);
            base.saturating_sub(w).saturating_sub(1)
        },
    }
}

/// The trailing mark of the row of `node`.
pub fn row_marker<V>(state: &TreeState, node: &Node<V>) -> (r: RowMarker)
    ensures
        r == (if state@.is_open_id(node.id@) {
            RowMarker::Open
        } else if node.children@.len() == 0 {
            RowMarker::Leaf
        } else {
            RowMarker::Closed
        }),
{
    if state.is_open(node) {
        RowMarker::Open
    } else if node.is_leaf() {
        RowMarker::Leaf
    } else {
        RowMarker::Closed
    }
}

} // verus!
