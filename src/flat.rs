//! A tree written as a flat list of records, one per node in depth-first
//! order, each naming its parent.
use vstd::prelude::*;

use crate::tree::{Node, Tree};

verus! {

/// One node of a flattened tree: its id, its label and its parent's id.
#[derive(Debug, PartialEq, Eq, Clone)]
pub struct FlatRecord {
    pub id: String,
    pub label: String,
    pub parent: String,
}

/// Why a list of records does not make a tree.
#[derive(Debug, PartialEq, Eq, Structural, Clone, Copy)]
pub enum FlatError {
    /// There is no record for the root.
    Empty,
    /// The record at this position names a parent that no earlier record has.
    MissingParent(usize),
}

/// The records of `n` and of up to `depth` levels below it, depth-first;
/// `n`'s record names `parent`.
pub open spec fn flat_records(n: Node<String>, depth: nat, parent: String) -> Seq<FlatRecord>
    decreases n, 1nat, 0int,
{
    seq![FlatRecord { id: n.id, label: n.value, parent }] + if depth > 0 {
        flat_children(n, (depth - 1) as nat, n.children@.len() as int)
    } else {
        Seq::empty()
    }
}

/// The records of the first `k` children of `n`, each to `depth` more levels.
pub open spec fn flat_children(n: Node<String>, depth: nat, k: int) -> Seq<FlatRecord>
    decreases n, 0nat, k,
{
    if k <= 0 || k > n.children@.len() {
        Seq::empty()
    } else {
        flat_children(n, depth, k - 1) + flat_records(n.children@[k - 1], depth, n.id)
    }
}

/// Some record before position `i` carries the parent named by record `i`.
pub open spec fn parent_listed(recs: Seq<FlatRecord>, i: int) -> bool {
    exists|j: int| 0 <= j < i && (#[trigger] recs[j]).id@ == recs[i].parent@
}

/// The node at `q` is record `j`'s: same id and label, under a node
/// carrying the parent it names (or, for the root, `j` is the first record).
pub open spec fn node_is_record(t: Node<String>, q: Seq<usize>, recs: Seq<FlatRecord>, j: int) -> bool {
    &&& t.node_at(q).id == recs[j].id
    &&& t.node_at(q).value == recs[j].label
    &&& q.len() > 0 ==> t.node_at(q.drop_last()).id@ == recs[j].parent@
    &&& q.len() == 0 ==> j == 0
}

/// `idx` gives, for each node of `t`, the position of the record (among the
/// first `k`) that it is made from; of two siblings, the earlier one is made
/// from the earlier record.
pub open spec fn records_index(t: Node<String>, recs: Seq<FlatRecord>, k: int, idx: Map<Seq<usize>, int>) -> bool {
    &&& forall|q: Seq<usize>|
        #[trigger] t.valid_route(q) ==> idx.dom().contains(q) && 0 <= idx[q] < k && node_is_record(
            t,
            q,
            recs,
            idx[q],
        )
    &&& forall|p: Seq<usize>, a: usize, b: usize|
        a < b && t.valid_route(p.push(b)) ==> #[trigger] idx[p.push(a)] < #[trigger] idx[p.push(b)]
}

/// `t` holds the first `k` records and nothing else: each record's id is in
/// `t`, each node of `t` is made from one of the records, and siblings come
/// in the order of their records.
pub open spec fn holds_records(t: Node<String>, recs: Seq<FlatRecord>, k: int) -> bool {
    &&& forall|j: int| 0 <= j < k ==> t.has_id((#[trigger] recs[j]).id@)
    &&& exists|idx: Map<Seq<usize>, int>| records_index(t, recs, k, idx)
}

/// Appends the records of `node` and of up to `depth` levels below it.
fn collect_records(node: &Node<String>, depth: usize, parent: &String, out: &mut Vec<FlatRecord>)
    ensures
        final(out)@ == old(out)@ + flat_records(*node, depth as nat, *parent),
    decreases node,
{
    let ghost start = out@;
    out.push(FlatRecord { id: node.id.clone(), label: node.value.clone(), parent: parent.clone() });
    if depth > 0 {
        let mut i: usize = 0;
        while i < node.children.len()
            invariant
                i <= node.children@.len(),
                depth > 0,
                out@ == start + seq![FlatRecord { id: node.id, label: node.value, parent: *parent }]
                    + flat_children(*node, (depth - 1) as nat, i as int),
            decreases node.children@.len() - i,
        {
            collect_records(&node.children[i], depth - 1, &node.id, out);
            proof {
                assert(flat_children(*node, (depth - 1) as nat, i + 1) == flat_children(
                    *node,
                    (depth - 1) as nat,
                    i as int,
                ) + flat_records(node.children@[i as int], (depth - 1) as nat, node.id));
                assert(out@ =~= start + seq![FlatRecord { id: node.id, label: node.value, parent: *parent }]
                    + flat_children(*node, (depth - 1) as nat, i + 1));
            }
            i += 1;
        }
        proof {
            assert(out@ =~= start + flat_records(*node, depth as nat, *parent));
        }
    } else {
        proof {
            assert(out@ =~= start + flat_records(*node, depth as nat, *parent));
        }
    }
}

/// The records of `node` and of up to `depth` levels below it, in
/// depth-first order; `node`'s own record names `parent`.
pub fn to_records(node: &Node<String>, depth: usize, parent: &String) -> (r: Vec<FlatRecord>)
    ensures
        r@ == flat_records(*node, depth as nat, *parent),
{
    let mut out: Vec<FlatRecord> = Vec::new();
    collect_records(node, depth, parent, &mut out);
    assert(out@ =~= flat_records(*node, depth as nat, *parent));
    out
}

/// Adds the leaf `child` as the last child of the node at `route@.skip(from)`.
fn push_child_at<V>(node: &mut Node<V>, route: &Vec<usize>, from: usize, child: Node<V>)
    requires
        from <= route@.len(),
        old(node).valid_route(route@.skip(from as int)),
        child.children@.len() == 0,
    ensures
        ({
            let p = route@.skip(from as int);
            let m = old(node).node_at(p).children@.len();
            &&& forall|q: Seq<usize>|
                #[trigger] final(node).valid_route(q) <==> (old(node).valid_route(q) || q == p.push(
                    m as usize,
                ))
            &&& forall|q: Seq<usize>|
                old(node).valid_route(q) ==> (#[trigger] final(node).node_at(q)).id == old(node).node_at(
                    q,
                ).id && final(node).node_at(q).value == old(node).node_at(q).value
            &&& final(node).node_at(p.push(m as usize)) == child
            &&& m <= usize::MAX
        }),
    decreases route@.len() - from,
{
    let ghost p = route@.skip(from as int);
    let ghost orig = *node;
    if from == route.len() {
        let m = node.children.len();
        node.children.push(child);
        proof {
            assert(p =~= Seq::<usize>::empty());
            assert(p.push(m) =~= seq![m]);
            assert forall|q: Seq<usize>| #[trigger] node.valid_route(q) <==> (orig.valid_route(q) || q
                == p.push(m)) by {
                if q.len() > 0 {
                    let i = q[0];
                    assert(q =~= seq![i] + q.drop_first());
                    if i < orig.children@.len() {
                        orig.lemma_route_child(i, q.drop_first());
                    }
                    if i < node.children@.len() {
                        node.lemma_route_child(i, q.drop_first());
                    }
                    if i == m {
                        if q.drop_first().len() > 0 {
                            assert(!child.valid_route(q.drop_first()));
                        } else {
                            assert(q =~= seq![m]);
                        }
                    }
                }
            }
            assert forall|q: Seq<usize>| orig.valid_route(q) implies (#[trigger] node.node_at(q)).id
                == orig.node_at(q).id && node.node_at(q).value == orig.node_at(q).value by {
                if q.len() > 0 {
                    let i = q[0];
                    assert(q =~= seq![i] + q.drop_first());
                    orig.lemma_route_child(i, q.drop_first());
                    node.lemma_route_child(i, q.drop_first());
                }
            }
            node.lemma_route_child(m, Seq::empty());
            assert(seq![m] + Seq::<usize>::empty() =~= seq![m]);
            assert(child.node_at(Seq::empty()) == child);
        }
    } else {
        let i = route[from];
        proof {
            assert(p[0] == i);
            assert(p.drop_first() =~= route@.skip(from + 1));
        }
        let mut c = node.children.remove(i);
        let ghost c0 = c;
        push_child_at(&mut c, route, from + 1, child);
        node.children.insert(i, c);
        proof {
            assert(node.children@ =~= orig.children@.update(i as int, c));
            let p1 = route@.skip(from + 1);
            let m = c0.node_at(p1).children@.len();
            orig.lemma_route_child(i, p1);
            assert(p =~= seq![i] + p1);
            assert(p.push(m as usize) =~= seq![i] + p1.push(m as usize));
            assert forall|q: Seq<usize>| #[trigger] node.valid_route(q) <==> (orig.valid_route(q) || q
                == p.push(m as usize)) by {
                if q.len() > 0 {
                    let j = q[0];
                    assert(q =~= seq![j] + q.drop_first());
                    if j < orig.children@.len() {
                        orig.lemma_route_child(j, q.drop_first());
                        node.lemma_route_child(j, q.drop_first());
                        if j == i {
                            if q == p.push(m as usize) {
                                assert(q.drop_first() =~= p1.push(m as usize));
                            }
                            if q.drop_first() == p1.push(m as usize) {
                                assert(q =~= p.push(m as usize));
                            }
                        } else {
                            assert(q != p.push(m as usize));
                        }
                    } else {
                        assert(q != p.push(m as usize));
                    }
                }
            }
            assert forall|q: Seq<usize>| orig.valid_route(q) implies (#[trigger] node.node_at(q)).id
                == orig.node_at(q).id && node.node_at(q).value == orig.node_at(q).value by {
                if q.len() > 0 {
                    let j = q[0];
                    assert(q =~= seq![j] + q.drop_first());
                    orig.lemma_route_child(j, q.drop_first());
                    node.lemma_route_child(j, q.drop_first());
                }
            }
            node.lemma_route_child(i, p1.push(m as usize));
        }
    }
}

/// Builds a tree from records in the order `to_records` writes them: the
/// first record is the root, and each later one becomes the last child of
/// the node carrying the parent it names.
pub fn tree_from_records(records: &Vec<FlatRecord>) -> (r: Result<Tree<String>, FlatError>)
    ensures
        r == Err::<Tree<String>, FlatError>(FlatError::Empty) <==> records@.len() == 0,
        r matches Err(FlatError::MissingParent(i)) ==> 1 <= i < records@.len() && !parent_listed(
            records@,
            i as int,
        ) && forall|k: int| 1 <= k < i ==> parent_listed(records@, k),
        r is Ok <==> records@.len() > 0 && forall|k: int| 1 <= k < records@.len() ==> parent_listed(records@, k),
        r matches Ok(t) ==> holds_records(t.root, records@, records@.len() as int),
{
    if records.len() == 0 {
        return Err(FlatError::Empty);
    }
    let ghost recs = records@;
    let mut root = Node::new(records[0].id.clone(), records[0].label.clone());
    let ghost mut idx: Map<Seq<usize>, int> = map![Seq::<usize>::empty() => 0int];
    proof {
        assert(root.node_at(Seq::empty()) == root);
        assert forall|q: Seq<usize>| #[trigger] root.valid_route(q) implies idx.dom().contains(q) && 0
            <= idx[q] < 1 && node_is_record(root, q, recs, idx[q]) by {
            assert(q.len() == 0);
            assert(q =~= Seq::<usize>::empty());
        }
        assert forall|p: Seq<usize>, a: usize, b: usize|
            a < b && root.valid_route(p.push(b)) implies #[trigger] idx[p.push(a)] < #[trigger] idx[p.push(
            b,
        )] by {
            assert(p.push(b).len() > 0);
        }
        assert(root.valid_route(Seq::empty()) && root.node_at(Seq::empty()).id@ == recs[0].id@);
    }
    let mut k: usize = 1;
    while k < records.len()
        invariant
            1 <= k <= records@.len(),
            recs == records@,
            forall|j: int| 0 <= j < k ==> root.has_id((#[trigger] recs[j]).id@),
            records_index(root, recs, k as int, idx),
            forall|i: int| 1 <= i < k ==> parent_listed(recs, i),
        decreases records@.len() - k,
    {
        let rec = &records[k];
        let route = match root.route_by_node(&rec.parent) {
            Some(r) => r,
            None => {
                proof {
                    if parent_listed(recs, k as int) {
                        let j = choose|j: int| 0 <= j < k && (#[trigger] recs[j]).id@ == recs[k as int].parent@;
                        assert(root.has_id(recs[j].id@));
                    }
                    assert(!parent_listed(recs, k as int));
                }
                return Err(FlatError::MissingParent(k));
            },
        };
        let ghost old_root = root;
        let ghost p = route@;
        let leaf = Node::new(rec.id.clone(), rec.label.clone());
        assert(route@.skip(0) =~= route@);
        push_child_at(&mut root, &route, 0, leaf);
        proof {
            let m = old_root.node_at(p).children@.len();
            let np = p.push(m as usize);
            let old_idx = idx;
            idx = old_idx.insert(np, k as int);
            assert(np.drop_last() =~= p);
            assert(old_root.valid_route(p));
            let jp = old_idx[p];
            assert(node_is_record(old_root, p, recs, jp));
            assert(parent_listed(recs, k as int)) by {
                assert(recs[jp].id@ == recs[k as int].parent@);
            }
            old_root.lemma_route_push(p, m as usize);
            assert(!old_root.valid_route(np));
            assert(node_is_record(root, np, recs, k as int));
            assert forall|q: Seq<usize>| #[trigger] root.valid_route(q) implies idx.dom().contains(q) && 0
                <= idx[q] < k + 1 && node_is_record(root, q, recs, idx[q]) by {
                if q != np {
                    assert(old_root.valid_route(q));
                    if q.len() > 0 {
                        old_root.lemma_route_prefix(q, q.len() - 1);
                        assert(q.take(q.len() - 1) =~= q.drop_last());
                    }
                    assert(node_is_record(root, q, recs, old_idx[q]));
                }
            }
            assert forall|pp: Seq<usize>, a: usize, b: usize|
                a < b && root.valid_route(pp.push(b)) implies #[trigger] idx[pp.push(a)]
                < #[trigger] idx[pp.push(b)] by {
                root.lemma_route_push(pp, b);
                root.lemma_route_push(pp, a);
                old_root.lemma_route_push(pp, a);
                old_root.lemma_route_push(pp, b);
                if pp.push(b) == np {
                    assert(pp =~= p) by {
                        assert(pp.push(b).drop_last() =~= pp);
                    }
                    assert(pp.push(b).last() == b);
                    assert(pp.push(a) != np) by {
                        assert(pp.push(a).last() == a);
                    }
                    assert(old_root.valid_route(pp.push(a)));
                } else {
                    assert(old_root.valid_route(pp.push(b)));
                    if pp.push(a) == np {
                        assert(pp.push(a).drop_last() =~= pp);
                        assert(pp =~= p);
                        assert(pp.push(a).last() == a);
                    }
                    assert(old_root.valid_route(pp.push(a)));
                }
            }
            assert forall|j: int| 0 <= j < k + 1 implies root.has_id((#[trigger] recs[j]).id@) by {
                if j < k {
                    assert(old_root.has_id(recs[j].id@));
                    let q = choose|q: Seq<usize>| old_root.valid_route(q) && (#[trigger] old_root.node_at(q)).id@
                        == recs[j].id@;
                    assert(root.node_at(q).id == old_root.node_at(q).id);
                } else {
                    assert(root.valid_route(np));
                    assert(root.node_at(np).id@ == recs[j].id@);
                }
            }
        }
        k += 1;
    }
    assert(records_index(root, recs, k as int, idx));
    Ok(Tree::new(root))
}

} // verus!
