//! Ordered, identity-keyed tree of owned nodes.
//!
//! A node is addressed either by its id or by its route: the sequence of
//! child indices that leads to it from the root, outermost first.
use vstd::prelude::*;

verus! {

/// A tree vertex: an id (unique across a well-formed tree), a payload and
/// the ordered list of its children.
#[derive(Debug, PartialEq)]
pub struct Node<V> {
    pub id: String,
    pub value: V,
    pub children: Vec<Node<V>>,
}

/// A tree: the owner of a root node.
#[derive(Debug, PartialEq)]
pub struct Tree<V> {
    pub root: Node<V>,
}

impl<V> Node<V> {
    /// `route` leads from this node to a node of its subtree.
    pub open spec fn valid_route(self, route: Seq<usize>) -> bool
        decreases route.len(),
    {
        route.len() == 0 || (route[0] < self.children@.len() && self.children@[route[0] as int].valid_route(
            route.drop_first(),
        ))
    }

    /// The node that `route` leads to (meaningful for a valid route).
    pub open spec fn node_at(self, route: Seq<usize>) -> Node<V>
        decreases route.len(),
    {
        if route.len() == 0 {
            self
        } else if route[0] < self.children@.len() {
            self.children@[route[0] as int].node_at(route.drop_first())
        } else {
            self
        }
    }

    /// Some node of this subtree carries `id`.
    pub open spec fn has_id(self, id: Seq<char>) -> bool {
        exists|r: Seq<usize>| self.valid_route(r) && (#[trigger] self.node_at(r)).id@ == id
    }

    /// No two nodes of this subtree share an id.
    pub open spec fn unique_ids(self) -> bool {
        forall|r1: Seq<usize>, r2: Seq<usize>|
            self.valid_route(r1) && self.valid_route(r2) && (#[trigger] self.node_at(r1)).id@ == (
            #[trigger] self.node_at(r2)).id@ ==> r1 == r2
    }

    /// The route of the node carrying `id` (the only one in a tree with unique ids).
    pub open spec fn route_of(self, id: Seq<char>) -> Seq<usize> {
        choose|r: Seq<usize>| self.valid_route(r) && (#[trigger] self.node_at(r)).id@ == id
    }

    /// Every route of this subtree is shorter than `bound`.
    pub open spec fn routes_shorter_than(self, bound: nat) -> bool {
        forall|r: Seq<usize>| #[trigger] self.valid_route(r) ==> r.len() < bound
    }

    /// Extending a route by one child index.
    pub proof fn lemma_route_push(self, r: Seq<usize>, i: usize)
        ensures
            self.valid_route(r.push(i)) <==> (self.valid_route(r) && i < self.node_at(r).children@.len()),
            self.valid_route(r.push(i)) ==> self.node_at(r.push(i)) == self.node_at(r).children@[i as int],
        decreases r.len(),
    {
        if r.len() > 0 {
            assert(r.push(i).drop_first() =~= r.drop_first().push(i));
            assert(r.push(i)[0] == r[0]);
            if r[0] < self.children@.len() {
                let c = self.children@[r[0] as int];
                c.lemma_route_push(r.drop_first(), i);
            }
        } else {
            assert(r.push(i).drop_first() =~= Seq::<usize>::empty());
            assert(r.push(i)[0] == i);
            if i < self.children@.len() {
                assert(self.children@[i as int].node_at(Seq::<usize>::empty()) == self.children@[i as int]);
                assert(self.children@[i as int].valid_route(Seq::<usize>::empty()));
            }
        }
    }

    /// An id that neither this node nor any child subtree carries is absent.
    pub proof fn lemma_absent(self, id: Seq<char>)
        requires
            self.id@ != id,
            forall|j: int| 0 <= j < self.children@.len() ==> !(#[trigger] self.children@[j]).has_id(id),
        ensures
            !self.has_id(id),
    {
        assert forall|q: Seq<usize>| self.valid_route(q) implies (#[trigger] self.node_at(q)).id@ != id by {
            if q.len() > 0 {
                let j = q[0];
                assert(q =~= seq![j] + q.drop_first());
                self.lemma_route_child(j, q.drop_first());
                let c = self.children@[j as int];
                if c.node_at(q.drop_first()).id@ == id {
                    assert(c.has_id(id));
                }
            }
        }
    }

    pub proof fn lemma_route_prefix(self, r: Seq<usize>, k: int)
        requires
            self.valid_route(r),
            0 <= k <= r.len(),
        ensures
            self.valid_route(r.take(k)),
        decreases r.len(),
    {
        if k > 0 {
            let c = self.children@[r[0] as int];
            assert(r.take(k).drop_first() =~= r.drop_first().take(k - 1));
            c.lemma_route_prefix(r.drop_first(), k - 1);
        }
    }

    /// A route of child `i` prefixed by `i` is a route of this node, to the same node.
    pub proof fn lemma_route_child(self, i: usize, r: Seq<usize>)
        requires
            i < self.children@.len(),
        ensures
            self.valid_route(seq![i] + r) == self.children@[i as int].valid_route(r),
            self.node_at(seq![i] + r) == self.children@[i as int].node_at(r),
    {
        assert((seq![i] + r).drop_first() =~= r);
    }

    /// In a tree with unique ids, the node carrying an id is at `route_of`.
    pub proof fn lemma_route_of(self, r: Seq<usize>)
        requires
            self.unique_ids(),
            self.valid_route(r),
        ensures
            self.route_of(self.node_at(r).id@) == r,
            self.has_id(self.node_at(r).id@),
    {
        let id = self.node_at(r).id@;
        assert(self.valid_route(r) && self.node_at(r).id@ == id);
        let q = self.route_of(id);
        assert(self.node_at(q) == self.node_at(q));
    }

    /// The node carrying a present id is found at `route_of`.
    pub proof fn lemma_has_id(self, id: Seq<char>)
        requires
            self.has_id(id),
        ensures
            self.valid_route(self.route_of(id)),
            self.node_at(self.route_of(id)).id@ == id,
    {
    }

    /// Depth-first search, self first and then the children in order, for a
    /// node carrying `id`.
    pub fn query(&self, id: &String) -> (r: Option<&Node<V>>)
        ensures
            r matches Some(n) ==> n.id@ == id@ && exists|q: Seq<usize>|
                self.valid_route(q) && #[trigger] self.node_at(q) == *n,
            r is None <==> !self.has_id(id@),
        decreases self,
    {
        if self.id == *id {
            proof {
                assert(self.valid_route(Seq::empty()) && self.node_at(Seq::empty()) == *self);
            }
            return Some(self);
        }
        let mut i: usize = 0;
        while i < self.children.len()
            invariant
                i <= self.children@.len(),
                self.id@ != id@,
                forall|j: int| 0 <= j < i ==> !(#[trigger] self.children@[j]).has_id(id@),
            decreases self.children@.len() - i,
        {
            let r = self.children[i].query(id);
            match r {
                Some(n) => {
                    proof {
                        let c = self.children@[i as int];
                        let q = choose|q: Seq<usize>| c.valid_route(q) && #[trigger] c.node_at(q) == *n;
                        self.lemma_route_child(i, q);
                        assert(self.node_at(seq![i] + q) == *n);
                        assert(self.node_at(seq![i] + q).id@ == id@);
                    }
                    return Some(n);
                },
                None => {},
            }
            i += 1;
        }
        proof {
            self.lemma_absent(id@);
        }
        None
    }

    /// The route of a node carrying `id`.
    pub fn route_by_node(&self, id: &String) -> (r: Option<Vec<usize>>)
        ensures
            r matches Some(q) ==> self.valid_route(q@) && self.node_at(q@).id@ == id@,
            r matches Some(q) ==> (q@.len() == 0 <==> self.id@ == id@),
            r is None <==> !self.has_id(id@),
        decreases self,
    {
        if self.id == *id {
            proof {
                assert(self.node_at(Seq::empty()) == *self);
            }
            return Some(Vec::new());
        }
        let mut i: usize = 0;
        while i < self.children.len()
            invariant
                i <= self.children@.len(),
                self.id@ != id@,
                forall|j: int| 0 <= j < i ==> !(#[trigger] self.children@[j]).has_id(id@),
            decreases self.children@.len() - i,
        {
            let r = self.children[i].route_by_node(id);
            match r {
                Some(q) => {
                    let ghost q0 = q@;
                    let mut q = q;
                    q.insert(0, i);
                    proof {
                        assert(q@ =~= seq![i] + q0);
                        self.lemma_route_child(i, q0);
                    }
                    return Some(q);
                },
                None => {},
            }
            i += 1;
        }
        proof {
            self.lemma_absent(id@);
        }
        None
    }

    /// The node that `route` leads to, if it is a route of this node.
    pub fn node_by_route(&self, route: &[usize]) -> (r: Option<&Node<V>>)
        ensures
            r is Some <==> self.valid_route(route@),
            r matches Some(n) ==> *n == self.node_at(route@),
    {
        let mut cur = self;
        let mut i: usize = 0;
        while i < route.len()
            invariant
                i <= route@.len(),
                self.valid_route(route@.take(i as int)),
                *cur == self.node_at(route@.take(i as int)),
            decreases route@.len() - i,
        {
            let k = route[i];
            proof {
                assert(route@.take(i + 1) =~= route@.take(i as int).push(k));
                self.lemma_route_push(route@.take(i as int), k);
            }
            if k >= cur.children.len() {
                proof {
                    if self.valid_route(route@) {
                        self.lemma_route_prefix(route@, i + 1);
                    }
                }
                return None;
            }
            cur = &cur.children[k];
            i += 1;
        }
        assert(route@.take(i as int) =~= route@);
        Some(cur)
    }

    /// The parent of the node carrying `id`: `None` for an absent id and for the root's.
    pub fn parent(&self, id: &String) -> (r: Option<&Node<V>>)
        ensures
            r matches Some(p) ==> exists|q: Seq<usize>|
                self.valid_route(q) && q.len() > 0 && (#[trigger] self.node_at(q)).id@ == id@
                    && *p == self.node_at(q.drop_last()),
            r is None <==> (!self.has_id(id@) || self.id@ == id@),
    {
        match self.route_by_node(id) {
            None => None,
            Some(route) => {
                if route.len() == 0 {
                    None
                } else {
                    let ghost q = route@;
                    let mut up = route;
                    up.pop();
                    proof {
                        assert(up@ =~= q.take(q.len() - 1));
                        self.lemma_route_prefix(q, q.len() - 1);
                        assert(q.drop_last() =~= up@);
                    }
                    let r = self.node_by_route(up.as_slice());
                    proof {
                        assert(self.node_at(q).id@ == id@);
                    }
                    r
                }
            },
        }
    }

    /// The number of nodes of this subtree, itself included.
    pub open spec fn size(self) -> nat
        decreases self, 1nat, 0int,
    {
        1 + self.children_size(self.children@.len() as int)
    }

    /// The number of nodes under the first `k` children.
    pub open spec fn children_size(self, k: int) -> nat
        decreases self, 0nat, k,
    {
        if k <= 0 || k > self.children@.len() {
            0
        } else {
            self.children_size(k - 1) + self.children@[k - 1].size()
        }
    }

    /// The number of levels of this subtree: 1 for a leaf.
    pub open spec fn levels(self) -> nat
        decreases self, 1nat, 0int,
    {
        1 + self.children_levels(self.children@.len() as int)
    }

    /// The most levels among the first `k` children (0 for none).
    pub open spec fn children_levels(self, k: int) -> nat
        decreases self, 0nat, k,
    {
        if k <= 0 || k > self.children@.len() {
            0
        } else {
            let before = self.children_levels(k - 1);
            let here = self.children@[k - 1].levels();
            if before >= here {
                before
            } else {
                here
            }
        }
    }

    proof fn lemma_children_size_grows(self, j: int, k: int)
        requires
            0 <= j <= k <= self.children@.len(),
        ensures
            self.children_size(j) <= self.children_size(k),
        decreases k - j,
    {
        if j < k {
            self.lemma_children_size_grows(j, k - 1);
        }
    }

    proof fn lemma_children_levels_bound(self, j: int, k: int)
        requires
            0 <= j < k <= self.children@.len(),
        ensures
            self.children@[j].levels() <= self.children_levels(k),
        decreases k - j,
    {
        if j < k - 1 {
            self.lemma_children_levels_bound(j, k - 1);
        }
    }

    /// The number of nodes of this subtree, itself included.
    pub fn count(&self) -> (r: usize)
        requires
            self.size() <= usize::MAX,
        ensures
            r == self.size(),
        decreases self,
    {
        let mut total: usize = 1;
        let mut i: usize = 0;
        while i < self.children.len()
            invariant
                i <= self.children@.len(),
                self.size() <= usize::MAX,
                total == 1 + self.children_size(i as int),
            decreases self.children@.len() - i,
        {
            proof {
                self.lemma_children_size_grows(i + 1, self.children@.len() as int);
            }
            let c = self.children[i].count();
            total = total + c;
            i += 1;
        }
        total
    }

    /// The number of levels of this subtree: 1 for a leaf, one more than
    /// its deepest child otherwise.
    pub fn depth(&self) -> (r: usize)
        requires
            self.levels() <= usize::MAX,
        ensures
            r == self.levels(),
        decreases self,
    {
        let mut deepest: usize = 0;
        let mut i: usize = 0;
        while i < self.children.len()
            invariant
                i <= self.children@.len(),
                self.levels() <= usize::MAX,
                deepest == self.children_levels(i as int),
            decreases self.children@.len() - i,
        {
            proof {
                self.lemma_children_levels_bound(i as int, self.children@.len() as int);
            }
            let d = self.children[i].depth();
            if d > deepest {
                deepest = d;
            }
            i += 1;
        }
        deepest + 1
    }

    /// The ids of the other children of the parent of the node carrying
    /// `id`; `None` where `parent` gives none.
    pub fn siblings(&self, id: &String) -> (r: Option<Vec<String>>)
        ensures
            r is None <==> (!self.has_id(id@) || self.id@ == id@),
            r matches Some(v) ==> exists|q: Seq<usize>|
                self.valid_route(q) && q.len() > 0 && (#[trigger] self.node_at(q)).id@ == id@
                    && v@ == self.node_at(q.drop_last()).children@.filter(
                    |c: Node<V>| c.id@ != id@,
                ).map_values(|c: Node<V>| c.id),
    {
        let parent = match self.parent(id) {
            Some(p) => p,
            None => return None,
        };
        let ghost pred = |c: Node<V>| c.id@ != id@;
        let ghost f = |c: Node<V>| c.id;
        let mut ids: Vec<String> = Vec::new();
        let mut i: usize = 0;
        while i < parent.children.len()
            invariant
                i <= parent.children@.len(),
                pred == (|c: Node<V>| c.id@ != id@),
                f == (|c: Node<V>| c.id),
                ids@ == parent.children@.take(i as int).filter(pred).map_values(f),
            decreases parent.children@.len() - i,
        {
            let ghost before = ids@;
            let keep = !(parent.children[i].id == *id);
            if keep {
                ids.push(parent.children[i].id.clone());
            }
            proof {
                let t = parent.children@.take(i + 1);
                assert(t.drop_last() =~= parent.children@.take(i as int));
                assert(t.last() == parent.children@[i as int]);
                assert(t.filter(pred) == if pred(t.last()) {
                    t.drop_last().filter(pred).push(t.last())
                } else {
                    t.drop_last().filter(pred)
                }) by {
                    reveal(Seq::filter);
                }
                if keep {
                    assert(ids@ =~= t.filter(pred).map_values(f));
                } else {
                    assert(ids@ =~= t.filter(pred).map_values(f));
                }
            }
            i += 1;
        }
        assert(parent.children@.take(i as int) =~= parent.children@);
        Some(ids)
    }

    /// Keeps `depth` levels below this node and drops the nodes deeper down;
    /// `truncate(0)` removes the children.
    pub fn truncate(&mut self, depth: usize)
        ensures
            forall|r: Seq<usize>|
                #[trigger] final(self).valid_route(r) <==> (old(self).valid_route(r) && r.len() <= depth),
            forall|r: Seq<usize>|
                final(self).valid_route(r) ==> (#[trigger] final(self).node_at(r)).id == old(
                    self,
                ).node_at(r).id && final(self).node_at(r).value == old(self).node_at(r).value,
        decreases *old(self),
    {
        let ghost orig = *self;
        let mut rest: Vec<Node<V>> = Vec::new();
        std::mem::swap(&mut rest, &mut self.children);
        let n = rest.len();
        let mut k: usize = 0;
        while rest.len() > 0
            invariant
                orig == *old(self),
                self.id == orig.id,
                self.value == orig.value,
                orig.children@.len() == n,
                k + rest@.len() == n,
                rest@ == orig.children@.skip(k as int),
                depth > 0 ==> self.children@.len() == k,
                depth == 0 ==> self.children@.len() == 0,
                depth > 0 ==> forall|i: int| 0 <= i < k ==> ({
                    let c = #[trigger] self.children@[i];
                    &&& forall|r: Seq<usize>|
                        #[trigger] c.valid_route(r) <==> (orig.children@[i].valid_route(r) && r.len() + 1
                            <= depth)
                    &&& forall|r: Seq<usize>|
                        c.valid_route(r) ==> (#[trigger] c.node_at(r)).id == orig.children@[i].node_at(
                            r,
                        ).id && c.node_at(r).value == orig.children@[i].node_at(r).value
                }),
            decreases rest@.len(),
        {
            let mut c = rest.remove(0);
            proof {
                assert(orig.children@[k as int] == c);
                assert(orig.children@.skip(k + 1) =~= orig.children@.skip(k as int).drop_first());
            }
            if depth > 0 {
                c.truncate(depth - 1);
                self.children.push(c);
            }
            k += 1;
        }
        proof {
            assert forall|r: Seq<usize>| #[trigger] self.valid_route(r) <==> (orig.valid_route(r) && r.len()
                <= depth) by {
                if r.len() > 0 {
                    let i = r[0];
                    assert(r =~= seq![i] + r.drop_first());
                    if i < orig.children@.len() {
                        orig.lemma_route_child(i, r.drop_first());
                    }
                    if i < self.children@.len() {
                        self.lemma_route_child(i, r.drop_first());
                    }
                }
            }
            assert forall|r: Seq<usize>| self.valid_route(r) implies (#[trigger] self.node_at(r)).id
                == orig.node_at(r).id && self.node_at(r).value == orig.node_at(r).value by {
                if r.len() > 0 {
                    let i = r[0];
                    assert(r =~= seq![i] + r.drop_first());
                    orig.lemma_route_child(i, r.drop_first());
                    self.lemma_route_child(i, r.drop_first());
                    assert(self.children@[i as int].valid_route(r.drop_first()));
                }
            }
        }
    }

    /// Removes all children.
    pub fn clear(&mut self)
        ensures
            final(self).id == old(self).id,
            final(self).value == old(self).value,
            final(self).children@.len() == 0,
    {
        self.children.clear();
    }

    /// Instantiates a new leaf.
    pub fn new(id: String, value: V) -> (r: Self)
        ensures
            r.id == id,
            r.value == value,
            r.children@.len() == 0,
    {
        Node { id, value, children: Vec::new() }
    }

    /// Returns this node with `child` added (see `add_child`).
    pub fn with_child(self, child: Node<V>) -> (r: Self)
        ensures
            r.id == self.id,
            r.value == self.value,
            r.children@ == self.children_after_add(child),
    {
        let mut s = self;
        s.add_child(child);
        s
    }

    /// The children after adding `child`: a child with the same id takes the
    /// new value in place, otherwise `child` goes last.
    pub open spec fn children_after_add(self, child: Node<V>) -> Seq<Node<V>> {
        if exists|i: int| 0 <= i < self.children@.len() && self.children@[i].id@ == child.id@ {
            let i = choose|i: int|
                0 <= i < self.children@.len() && self.children@[i].id@ == child.id@ && forall|j: int|
                    0 <= j < i ==> self.children@[j].id@ != child.id@;
            self.children@.update(i, Node { value: child.value, ..self.children@[i] })
        } else {
            self.children@.push(child)
        }
    }

    /// Adds `child`; where a child with the same id exists, only its value is replaced.
    pub fn add_child(&mut self, child: Node<V>)
        ensures
            final(self).id == old(self).id,
            final(self).value == old(self).value,
            final(self).children@ == old(self).children_after_add(child),
    {
        let mut i: usize = 0;
        while i < self.children.len()
            invariant
                i <= self.children@.len(),
                *self == *old(self),
                forall|j: int| 0 <= j < i ==> self.children@[j].id@ != child.id@,
            decreases self.children@.len() - i,
        {
            if self.children[i].id == child.id {
                let ghost old_children = self.children@;
                let mut c = self.children.remove(i);
                c.value = child.value;
                self.children.insert(i, c);
                proof {
                    let k = choose|k: int|
                        0 <= k < old_children.len() && old_children[k].id@ == child.id@ && forall|j: int|
                            0 <= j < k ==> old_children[j].id@ != child.id@;
                    assert(0 <= i < old_children.len() && old_children[i as int].id@ == child.id@
                        && forall|j: int| 0 <= j < i ==> old_children[j].id@ != child.id@);
                    if k < i {
                    } else if k > i {
                        assert(old_children[i as int].id@ != child.id@);
                    }
                    assert(self.children@ =~= old_children.update(i as int, c));
                }
                return;
            }
            i += 1;
        }
        self.children.push(child);
    }

    /// Removes the children carrying `id`.
    pub fn remove_child(&mut self, id: &String)
        ensures
            final(self).id == old(self).id,
            final(self).value == old(self).value,
            final(self).children@ == old(self).children@.filter(|c: Node<V>| c.id@ != id@),
    {
        let ghost orig = self.children@;
        let n = self.children.len();
        let mut rest: Vec<Node<V>> = Vec::new();
        std::mem::swap(&mut rest, &mut self.children);
        let ghost pred = |c: Node<V>| c.id@ != id@;
        let mut k: usize = 0;
        while rest.len() > 0
            invariant
                self.id == old(self).id,
                self.value == old(self).value,
                orig == old(self).children@,
                orig.len() == n,
                pred == (|c: Node<V>| c.id@ != id@),
                k + rest@.len() == orig.len(),
                rest@ == orig.skip(k as int),
                self.children@ == orig.take(k as int).filter(pred),
            decreases rest@.len(),
        {
            let c = rest.remove(0);
            let ghost before = self.children@;
            proof {
                assert(orig.take(k + 1).drop_last() =~= orig.take(k as int));
                assert(orig[k as int] == c);
                assert(orig.take(k + 1).last() == c);
                assert(orig.skip(k + 1) =~= orig.skip(k as int).drop_first());
            }
            let keep = !(c.id == *id);
            if keep {
                self.children.push(c);
            }
            proof {
                let t = orig.take(k + 1);
                assert(keep == pred(c));
                assert(t.len() > 0);
                assert(t.filter(pred) == if pred(t.last()) {
                    t.drop_last().filter(pred).push(t.last())
                } else {
                    t.drop_last().filter(pred)
                }) by {
                    reveal(Seq::filter);
                }
            }
            k += 1;
        }
        assert(orig.take(k as int) =~= orig);
    }

    /// The id of this node.
    pub fn id(&self) -> (r: &String)
        ensures
            *r == self.id,
    {
        &self.id
    }

    /// The payload of this node.
    pub fn value(&self) -> (r: &V)
        ensures
            *r == self.value,
    {
        &self.value
    }

    /// The children of this node, in order.
    pub fn children(&self) -> (r: &Vec<Node<V>>)
        ensures
            *r == self.children,
    {
        &self.children
    }

    /// Whether this node has no children.
    pub fn is_leaf(&self) -> (r: bool)
        ensures
            r == (self.children@.len() == 0),
    {
        self.children.len() == 0
    }
}

impl<V> Tree<V> {
    /// A tree owning `root`.
    pub fn new(root: Node<V>) -> (r: Self)
        ensures
            r.root == root,
    {
        Tree { root }
    }

    /// The root node.
    pub fn root(&self) -> (r: &Node<V>)
        ensures
            *r == self.root,
    {
        &self.root
    }

    /// The root node, for editing.
    pub fn root_mut(&mut self) -> (r: &mut Node<V>)
        ensures
            *r == old(self).root,
            final(self).root == *final(r),
    {
        &mut self.root
    }
}

} // verus!
