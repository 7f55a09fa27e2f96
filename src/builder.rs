use vstd::prelude::*;
use vstd::multiset::Multiset;
use rand::seq::SliceRandom;
use crate::codec::{lemma_walk_step, weight};
use crate::mapping::Mapping;
use crate::model::{reaches, Node, TokenView};

verus! {

broadcast use vstd::seq_lib::group_to_multiset_ensures;

/// Relies on rand's `SliceRandom::shuffle` with `thread_rng`: the nodes are
/// put in a random order (a sequence of swaps, so the same nodes remain).
#[verifier::external_body]
fn shuffle_nodes(v: &mut Vec<Node>)
    ensures
        final(v)@.to_multiset() == old(v)@.to_multiset(),
{
    v.shuffle(&mut rand::thread_rng());
}

/// The frequency of a node as computed by `Node::frequency`.
pub open spec fn saturated_weight(node: Node, map: Mapping) -> int {
    if weight(node, map) < usize::MAX {
        weight(node, map)
    } else {
        usize::MAX as int
    }
}

/// The tokens of the leaves beneath a node, with their multiplicity.
pub open spec fn leaves(node: Node) -> Multiset<TokenView>
    decreases node,
{
    match node {
        Node::Leaf(t) => Multiset::singleton(t@),
        Node::Branches(ch) => forest_leaves(ch@),
    }
}

/// The tokens of the leaves beneath all nodes of a forest.
pub open spec fn forest_leaves(s: Seq<Node>) -> Multiset<TokenView>
    decreases s,
{
    if s.len() == 0 {
        Multiset::empty()
    } else {
        forest_leaves(s.drop_last()).add(leaves(s.last()))
    }
}

/// Adding a node to a forest adds its leaves.
proof fn lemma_forest_push(s: Seq<Node>, x: Node)
    ensures
        forest_leaves(s.push(x)) == forest_leaves(s).add(leaves(x)),
{
    assert(s.push(x).drop_last() =~= s);
}

/// Taking a node out of a forest takes its leaves out.
pub(crate) proof fn lemma_forest_remove(s: Seq<Node>, i: int)
    requires
        0 <= i < s.len(),
    ensures
        forest_leaves(s.remove(i)).add(leaves(s[i])) == forest_leaves(s),
    decreases s.len(),
{
    if i == s.len() - 1 {
        assert(s.remove(i) =~= s.drop_last());
    } else {
        lemma_forest_remove(s.drop_last(), i);
        assert(s.remove(i).drop_last() =~= s.drop_last().remove(i));
        assert(s.remove(i).last() == s.last());
        assert(forest_leaves(s.remove(i)) == forest_leaves(s.remove(i).drop_last()).add(
            leaves(s.remove(i).last()),
        ));
        assert(forest_leaves(s.remove(i)).add(leaves(s[i])) =~= forest_leaves(s));
    }
}

/// The leaves of a forest do not depend on the order of its nodes.
proof fn lemma_forest_reorder(a: Seq<Node>, b: Seq<Node>)
    requires
        a.to_multiset() == b.to_multiset(),
    ensures
        forest_leaves(a) == forest_leaves(b),
    decreases a.len(),
{
    if a.len() == 0 {
        vstd::seq_lib::to_multiset_len(a);
        vstd::seq_lib::to_multiset_len(b);
        assert(b.len() == 0);
        assert(b =~= Seq::<Node>::empty());
    } else {
        let x = a.last();
        assert(a.contains(x) ) by {
            assert(a[a.len() - 1] == x);
        }
        assert(a.to_multiset().count(x) > 0);
        assert(b.contains(x));
        let i = choose|i: int| 0 <= i < b.len() && b[i] == x;
        assert(a.drop_last() =~= a.remove(a.len() - 1));
        assert(b.remove(i).to_multiset() == b.to_multiset().remove(x));
        assert(a.remove(a.len() - 1).to_multiset() == a.to_multiset().remove(x));
        lemma_forest_reorder(a.drop_last(), b.remove(i));
        lemma_forest_remove(b, i);
    }
}

impl Mapping {
    /// Every root of the forest has its leaves in the tables.
    pub open spec fn forest_in_tables(&self, roots: Seq<Node>) -> bool {
        forall|j: int| 0 <= j < roots.len() ==> self.leaves_in_tables(#[trigger] roots[j])
    }
}

/// A branch whose children have their leaves in the tables has too.
proof fn lemma_branch_leaves(map: Mapping, ch: Vec<Node>)
    requires
        map.forest_in_tables(ch@),
    ensures
        map.leaves_in_tables(Node::Branches(ch)),
{
    let node = Node::Branches(ch);
    assert forall|p: Seq<nat>, t: TokenView| #[trigger] reaches(node, p, t) implies map.in_tables(
        t,
    ) by {
        if p.len() > 0 && p[0] < ch@.len() {
            assert(p =~= seq![p[0]] + p.drop_first());
            lemma_walk_step(node, p[0], p.drop_first());
            assert(reaches(ch@[p[0] as int], p.drop_first(), t));
        }
    }
}

/// Reordering keeps a property that every element has.
proof fn lemma_reorder_in_tables(map: Mapping, a: Seq<Node>, b: Seq<Node>)
    requires
        a.to_multiset() == b.to_multiset(),
        map.forest_in_tables(a),
    ensures
        map.forest_in_tables(b),
{
    assert forall|j: int| 0 <= j < b.len() implies map.leaves_in_tables(#[trigger] b[j]) by {
        assert(b.contains(b[j]));
        assert(b.to_multiset().count(b[j]) > 0);
        assert(a.contains(b[j]));
    }
}

/// Orders `nodes` by ascending frequency, given as `keys`, moving each key
/// with its node; among equal keys the earlier node stays first.
fn order_by_keys(nodes: &mut Vec<Node>, keys: &mut Vec<usize>, map: Ghost<Mapping>)
    requires
        old(nodes)@.len() == old(keys)@.len(),
        forall|j: int|
            0 <= j < old(keys)@.len() ==> old(keys)@[j] == saturated_weight(
                #[trigger] old(nodes)@[j],
                map@,
            ),
    ensures
        final(nodes)@.to_multiset() == old(nodes)@.to_multiset(),
        final(nodes)@.len() == old(nodes)@.len(),
        final(keys)@.len() == final(nodes)@.len(),
        forall|i: int, j: int| 0 <= i < j < final(keys)@.len() ==> final(keys)@[i] <= final(keys)@[j],
        forall|j: int|
            0 <= j < final(keys)@.len() ==> final(keys)@[j] == saturated_weight(
                #[trigger] final(nodes)@[j],
                map@,
            ),
{
    let ghost orig_nodes = nodes@;
    let mut out_nodes: Vec<Node> = Vec::new();
    let mut out_keys: Vec<usize> = Vec::new();
    while nodes.len() > 0
        invariant
            nodes@.len() == keys@.len(),
            out_nodes@.len() == out_keys@.len(),
            out_nodes@.len() + nodes@.len() == orig_nodes.len(),
            out_nodes@.to_multiset().add(nodes@.to_multiset()) == orig_nodes.to_multiset(),
            forall|i: int, j: int| 0 <= i < j < out_keys@.len() ==> out_keys@[i] <= out_keys@[j],
            forall|i: int, j: int|
                0 <= i < out_keys@.len() && 0 <= j < keys@.len() ==> out_keys@[i] <= keys@[j],
            forall|j: int|
                0 <= j < keys@.len() ==> keys@[j] == saturated_weight(#[trigger] nodes@[j], map@),
            forall|j: int|
                0 <= j < out_keys@.len() ==> out_keys@[j] == saturated_weight(
                    #[trigger] out_nodes@[j],
                    map@,
                ),
        decreases nodes@.len(),
    {
        let mut m: usize = 0;
        let mut i: usize = 1;
        while i < keys.len()
            invariant
                0 <= m < i <= keys@.len(),
                forall|j: int| 0 <= j < i ==> keys@[m as int] <= keys@[j],
            decreases keys.len() - i,
        {
            if keys[i] < keys[m] {
                m = i;
            }
            i += 1;
        }
        let ghost before_nodes = nodes@;
        let ghost before_keys = keys@;
        let ghost before_out = out_nodes@;
        let ghost before_out_keys = out_keys@;
        let node = nodes.remove(m);
        let key = keys.remove(m);
        out_nodes.push(node);
        out_keys.push(key);
        proof {
            assert(out_nodes@ == before_out.push(node));
            assert(before_nodes.remove(m as int).to_multiset() == before_nodes.to_multiset().remove(node));
            assert(before_nodes.to_multiset().count(node) > 0) by {
                assert(before_nodes.contains(before_nodes[m as int]));
            }
            assert(out_nodes@.to_multiset().add(nodes@.to_multiset()) =~= orig_nodes.to_multiset());
            assert forall|a: int| 0 <= a < keys@.len() implies keys@[a] == saturated_weight(
                #[trigger] nodes@[a],
                map@,
            ) by {
                if a < m {
                    assert(nodes@[a] == before_nodes[a] && keys@[a] == before_keys[a]);
                } else {
                    assert(nodes@[a] == before_nodes[a + 1] && keys@[a] == before_keys[a + 1]);
                }
            }
            assert forall|a: int| 0 <= a < out_keys@.len() implies out_keys@[a] == saturated_weight(
                #[trigger] out_nodes@[a],
                map@,
            ) by {
                if a < before_out.len() {
                    assert(out_nodes@[a] == before_out[a] && out_keys@[a] == before_out_keys[a]);
                }
            }
            assert forall|a: int, b: int|
                0 <= a < out_keys@.len() && 0 <= b < keys@.len() implies out_keys@[a] <= keys@[b] by {
                if b < m {
                    assert(keys@[b] == before_keys[b]);
                } else {
                    assert(keys@[b] == before_keys[b + 1]);
                }
                if a < before_out.len() {
                    assert(out_keys@[a] == before_out_keys[a]);
                }
            }
        }
    }
    proof {
        assert(nodes@.to_multiset() =~= Multiset::empty());
        assert(out_nodes@.to_multiset().add(nodes@.to_multiset()) =~= out_nodes@.to_multiset());
    }
    *nodes = out_nodes;
    *keys = out_keys;
}

impl Mapping {
    /// The frequency of each root of the forest, in order.
    fn root_frequencies(&self) -> (r: Vec<usize>)
        requires
            self.forest_in_tables(self.tree@),
        ensures
            r@.len() == self.tree@.len(),
            forall|j: int|
                0 <= j < r@.len() ==> r@[j] == saturated_weight(#[trigger] self.tree@[j], *self),
    {
        let mut r: Vec<usize> = Vec::new();
        let mut j: usize = 0;
        while j < self.tree.len()
            invariant
                j <= self.tree@.len(),
                r@.len() == j,
                self.forest_in_tables(self.tree@),
                forall|a: int|
                    0 <= a < j ==> r@[a] == saturated_weight(#[trigger] self.tree@[a], *self),
            decreases self.tree.len() - j,
        {
            let f = self.tree[j].frequency(self);
            r.push(f);
            j += 1;
        }
        r
    }

    /// Builds the code tree: while the forest has more than one root, sorts
    /// the roots by ascending frequency, takes the first `to.len()` of them
    /// (all, where fewer remain), puts them in a random order and adds a
    /// branch over them as a new root.
    pub fn build(&mut self)
        requires
            old(self).to@.len() >= 2 || old(self).tree@.len() <= 1,
            old(self).forest_in_tables(old(self).tree@),
        ensures
            final(self).from == old(self).from,
            final(self).to == old(self).to,
            final(self).tree@.len() == if old(self).tree@.len() == 0 {
                0int
            } else {
                1int
            },
            old(self).tree@.len() <= 1 ==> final(self).tree@ == old(self).tree@,
            final(self).forest_in_tables(final(self).tree@),
            forest_leaves(final(self).tree@) == forest_leaves(old(self).tree@),
    {
        let ghost from0 = self.from;
        let ghost to0 = self.to;
        let ghost len0 = self.tree@.len();
        let ghost tree0 = self.tree@;
        while self.tree.len() > 1
            invariant
                self.from == from0,
                self.to == to0,
                self.to@.len() >= 2 || self.tree@.len() <= 1,
                self.forest_in_tables(self.tree@),
                len0 == 0 <==> self.tree@.len() == 0,
                len0 <= 1 ==> self.tree@ == tree0,
                tree0.len() == len0,
                forest_leaves(self.tree@) == forest_leaves(tree0),
            decreases self.tree@.len(),
        {
            let mut keys = self.root_frequencies();
            let ghost m = *self;
            let ghost before = self.tree@;
            order_by_keys(&mut self.tree, &mut keys, Ghost(m));
            proof {
                lemma_reorder_in_tables(*self, before, self.tree@);
                lemma_forest_reorder(before, self.tree@);
            }
            let ghost sorted_len = self.tree@.len();
            let k = self.to.len();
            let mut children: Vec<Node> = Vec::new();
            while children.len() < k && self.tree.len() > 0
                invariant
                    self.from == from0,
                    self.to == to0,
                    k == self.to@.len(),
                    k >= 2,
                    children@.len() <= k,
                    children@.len() + self.tree@.len() == sorted_len,
                    sorted_len >= 2,
                    self.forest_in_tables(self.tree@),
                    self.forest_in_tables(children@),
                    forest_leaves(children@).add(forest_leaves(self.tree@)) == forest_leaves(tree0),
                decreases self.tree@.len(),
            {
                let ghost bt = self.tree@;
                let ghost bc = children@;
                let n = self.tree.remove(0);
                children.push(n);
                proof {
                    assert(self.tree@ == bt.remove(0));
                    lemma_forest_remove(bt, 0);
                    lemma_forest_push(bc, n);
                    assert(forest_leaves(children@).add(forest_leaves(self.tree@)) =~= forest_leaves(
                        tree0,
                    ));
                    assert forall|j: int| 0 <= j < self.tree@.len() implies self.leaves_in_tables(
                        #[trigger] self.tree@[j],
                    ) by {
                        assert(self.tree@[j] == bt[j + 1]);
                    }
                    assert forall|j: int| 0 <= j < children@.len() implies self.leaves_in_tables(
                        #[trigger] children@[j],
                    ) by {
                        if j < bc.len() {
                            assert(children@[j] == bc[j]);
                        }
                    }
                }
            }
            let ghost bc = children@;
            shuffle_nodes(&mut children);
            proof {
                lemma_forest_reorder(bc, children@);
                lemma_reorder_in_tables(*self, bc, children@);
                lemma_branch_leaves(*self, children);
            }
            let ghost bt = self.tree@;
            let ghost cv = children;
            self.tree.push(Node::Branches(children));
            proof {
                lemma_forest_push(bt, Node::Branches(cv));
                assert(leaves(Node::Branches(cv)) == forest_leaves(cv@));
                assert(forest_leaves(self.tree@) =~= forest_leaves(tree0));
                assert forall|j: int| 0 <= j < self.tree@.len() implies self.leaves_in_tables(
                    #[trigger] self.tree@[j],
                ) by {
                    if j < bt.len() {
                        assert(self.tree@[j] == bt[j]);
                    }
                }
            }
        }
    }
}

} // verus!
