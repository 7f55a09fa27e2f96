use vstd::prelude::*;
use vstd::multiset::Multiset;
use crate::builder::{forest_leaves, leaves};
use crate::mapping::Mapping;
use crate::codec::lemma_walk_step;
use crate::model::{holds, path_tokens, reaches, resolve, walk, Node, Token, TokenView};
use crate::words::words;

verus! {

/// Walking the tokens of a path that ends at a leaf resolves to that leaf's
/// token, and no shorter part of the path resolves to anything.
proof fn lemma_resolve_path(node: Node, p: Seq<nat>, t: TokenView)
    requires
        reaches(node, p, t),
    ensures
        resolve(node, path_tokens(p)) == Some(t),
        forall|j: int| 0 <= j < p.len() ==> resolve(node, #[trigger] path_tokens(p).take(j)) is None,
    decreases p.len(),
{
    let pt = path_tokens(p);
    if p.len() > 0 {
        let ch = node->Branches_0;
        let k = p[0];
        let rest = p.drop_first();
        assert(walk(node, p) == walk(ch@[k as int], rest));
        lemma_resolve_path(ch@[k as int], rest, t);
        assert(pt.drop_first() =~= path_tokens(rest));
        assert forall|j: int| 0 <= j < p.len() implies resolve(node, #[trigger] pt.take(j)) is None by {
            if j > 0 {
                assert(pt.take(j).drop_first() =~= path_tokens(rest).take(j - 1));
                assert(pt.take(j)[0] == TokenView::To(k));
            }
        }
    }
}

/// Decoding the tokens of a path to a leaf of the code tree gives back that
/// leaf's token, provided the tree is a branch.
proof fn lemma_decode_path(m: Mapping, p: Seq<nat>, t: TokenView)
    requires
        m.tree@.len() > 0,
        m.tree@[0] is Branches,
        reaches(m.tree@[0], p, t),
    ensures
        m.decode(path_tokens(p)) == seq![t],
{
    let r = m.tree@[0];
    let pt = path_tokens(p);
    lemma_resolve_path(r, p, t);
    assert(p.len() > 0);
    assert forall|j: int| 0 <= j < p.len() implies #[trigger] m.decode_run(pt.take(j)) == (
    pt.take(j), Seq::<TokenView>::empty()) by {
        lemma_decode_prefix(m, pt, j);
    }
    let last = p.len() - 1;
    assert(pt.take(p.len() as int).drop_last() =~= pt.take(last));
    assert(pt.take(last).push(pt[last]) =~= pt);
    assert(pt.take(p.len() as int) =~= pt);
    assert(m.decode_run(pt.take(last)) == (pt.take(last), Seq::<TokenView>::empty()));
}

proof fn lemma_decode_prefix(m: Mapping, pt: Seq<TokenView>, j: int)
    requires
        m.tree@.len() > 0,
        0 <= j < pt.len(),
        forall|i: int| 0 <= i < pt.len() ==> #[trigger] pt[i] is To,
        forall|i: int| 0 <= i < pt.len() ==> resolve(m.tree@[0], #[trigger] pt.take(i)) is None,
    ensures
        m.decode_run(pt.take(j)) == (pt.take(j), Seq::<TokenView>::empty()),
    decreases j,
{
    if j > 0 {
        lemma_decode_prefix(m, pt, j - 1);
        assert(pt.take(j).drop_last() =~= pt.take(j - 1));
        assert(pt.take(j - 1).push(pt[j - 1]) =~= pt.take(j));
        assert(pt.take(0) =~= Seq::<TokenView>::empty());
    } else {
        assert(pt.take(0) =~= Seq::<TokenView>::empty());
    }
}

/// A source symbol held by a code tree with unique paths and a branch at its
/// root is decoded back to itself from its own code, and so renders to its
/// own text.
pub proof fn law_round_trip(m: Mapping, s: nat)
    requires
        m.tree@.len() > 0,
        m.tree@[0] is Branches,
        m.paths_unique(),
        holds(m.tree@[0], TokenView::From(s)),
    ensures
        m.decode(m.encode(seq![TokenView::From(s)])) == seq![TokenView::From(s)],
        m.text_of(m.decode(m.encode(seq![TokenView::From(s)]))[0]) == m.from_texts()[s as int],
{
    let t = TokenView::From(s);
    let r = m.tree@[0];
    let p = choose|p: Seq<nat>| reaches(r, p, t);
    lemma_encode_single(m, t);
    assert(m.encode(seq![t]) =~= path_tokens(p));
    lemma_decode_path(m, p, t);
}

proof fn lemma_encode_single(m: Mapping, t: TokenView)
    ensures
        m.encode(seq![t]) == m.encode_one(t),
{
    let ts = seq![t];
    assert(ts.drop_last() =~= Seq::<TokenView>::empty());
    assert(m.encode(Seq::<TokenView>::empty()) == Seq::<TokenView>::empty());
    assert(ts.last() == t);
    assert(m.encode(ts) =~= m.encode_one(t));
}

/// A literal is encoded and decoded as itself, whatever the codebook.
pub proof fn law_literal_passthrough(m: Mapping, s: Seq<char>)
    ensures
        m.encode(seq![TokenView::Literal(s)]) == seq![TokenView::Literal(s)],
        m.decode(seq![TokenView::Literal(s)]) == seq![TokenView::Literal(s)],
{
    let ts = seq![TokenView::Literal(s)];
    lemma_encode_single(m, ts[0]);
    assert(ts.drop_last() =~= Seq::<TokenView>::empty());
    assert(m.decode_run(Seq::<TokenView>::empty()) == (Seq::<TokenView>::empty(), Seq::<TokenView>::empty()));
    assert(m.encode(ts) =~= ts);
    assert(m.decode(ts) =~= ts);
}

/// With an empty source table every word of a text is tokenized as a
/// literal, and encoding those tokens gives literals only.
pub proof fn law_no_sources(m: Mapping, text: Seq<char>)
    requires
        m.from@.len() == 0,
    ensures
        forall|i: int|
            0 <= i < m.encode(m.source_tokens(text)).len() ==> #[trigger] m.encode(
                m.source_tokens(text),
            )[i] is Literal,
{
    let ts = words(text).map_values(|w: Seq<char>| m.source_token(w));
    assert forall|i: int| 0 <= i < ts.len() implies #[trigger] ts[i] is Literal by {
        let w = words(text)[i];
        if crate::mapping::has_match(m.from_texts(), w) {
            let c = choose|c: int| crate::mapping::is_first_match(m.from_texts(), w, c);
            assert(m.from_texts().len() == 0);
        }
    }
    lemma_encode_literals(m, ts);
}

proof fn lemma_encode_literals(m: Mapping, ts: Seq<TokenView>)
    requires
        forall|i: int| 0 <= i < ts.len() ==> #[trigger] ts[i] is Literal,
    ensures
        m.encode(ts) == ts,
    decreases ts.len(),
{
    if ts.len() > 0 {
        lemma_encode_literals(m, ts.drop_last());
        assert(ts.drop_last().push(ts.last()) =~= ts);
        assert(m.encode_one(ts.last()) =~= seq![ts.last()]);
    }
}

/// A codebook whose tree is a single leaf gives that leaf's source symbol
/// an empty code.
pub proof fn law_single_leaf(m: Mapping, s: usize)
    requires
        m.tree@ == seq![Node::Leaf(Token::From(s))],
    ensures
        m.encode(seq![TokenView::From(s as nat)]) == Seq::<TokenView>::empty(),
{
    let t = TokenView::From(s as nat);
    let r = m.tree@[0];
    assert(reaches(r, Seq::<nat>::empty(), t));
    let p = choose|p: Seq<nat>| reaches(r, p, t);
    if p.len() > 0 {
        assert(walk(r, p) is None);
    }
    lemma_encode_single(m, t);
    assert(m.encode(seq![t]) =~= path_tokens(p));
}

/// A forest of one leaf per source index, in index order, as it stands
/// before building.
pub open spec fn is_seed_forest(roots: Seq<Node>, n: nat) -> bool {
    &&& roots.len() == n
    &&& forall|i: int|
        0 <= i < n ==> #[trigger] roots[i] is Leaf && roots[i]->Leaf_0@ == TokenView::From(
            i as nat,
        )
}

proof fn lemma_seed_leaves(roots: Seq<Node>, n: nat)
    requires
        is_seed_forest(roots, n),
    ensures
        forest_leaves(roots).len() == n,
        forall|t: TokenView| #[trigger]
            forest_leaves(roots).count(t) == if t is From && t->From_0 < n {
                1nat
            } else {
                0nat
            },
    decreases n,
{
    if n > 0 {
        let init = roots.drop_last();
        assert(is_seed_forest(init, (n - 1) as nat)) by {
            assert forall|i: int| 0 <= i < n - 1 implies #[trigger] init[i] is Leaf && init[i]->Leaf_0@
                == TokenView::From(i as nat) by {
                assert(init[i] == roots[i]);
            }
        }
        lemma_seed_leaves(init, (n - 1) as nat);
        assert(roots.last() == roots[n - 1]);
        assert(leaves(roots.last()) == Multiset::singleton(TokenView::From((n - 1) as nat)));
    } else {
        assert(forest_leaves(roots) == Multiset::<TokenView>::empty());
    }
}

/// Building from one leaf per source index leaves a tree in which every
/// source index stands at exactly one leaf, and which has as many leaves as
/// there are source symbols.
pub proof fn law_built_leaves(seeded: Mapping, built: Mapping)
    requires
        is_seed_forest(seeded.tree@, seeded.from@.len()),
        built.tree@.len() == 1,
        built.from@.len() == seeded.from@.len(),
        forest_leaves(built.tree@) == forest_leaves(seeded.tree@),
    ensures
        leaves(built.tree@[0]).len() == built.from@.len(),
        forall|i: nat| i < built.from@.len() ==> #[trigger] leaves(built.tree@[0]).count(TokenView::From(i)) == 1,
        forall|t: TokenView| !(t is From && t->From_0 < built.from@.len()) ==> #[trigger] leaves(built.tree@[0]).count(t) == 0,
{
    lemma_seed_leaves(seeded.tree@, seeded.from@.len());
    let t = built.tree@;
    assert(t.drop_last() =~= Seq::<Node>::empty());
    assert(forest_leaves(t.drop_last()) == Multiset::<TokenView>::empty());
    assert(t.last() == t[0]);
    assert(forest_leaves(t) == forest_leaves(t.drop_last()).add(leaves(t.last())));
    assert(forest_leaves(t) =~= leaves(t[0]));
}

/// A node's leaves are among those of any forest holding it; two nodes at
/// different places of a forest contribute both.
proof fn lemma_forest_parts(s: Seq<Node>, j: int, k: int, t: TokenView)
    requires
        0 <= j < s.len(),
        0 <= k < s.len(),
    ensures
        forest_leaves(s).count(t) >= leaves(s[k]).count(t),
        j != k ==> forest_leaves(s).count(t) >= leaves(s[j]).count(t) + leaves(s[k]).count(t),
{
    crate::builder::lemma_forest_remove(s, k);
    if j != k {
        let r = s.remove(k);
        let jj = if j < k { j } else { j - 1 };
        assert(r[jj] == s[j]);
        crate::builder::lemma_forest_remove(r, jj);
    }
}

/// A leaf reached by a path counts among the leaves.
proof fn lemma_path_count(node: Node, p: Seq<nat>, t: TokenView)
    requires
        reaches(node, p, t),
    ensures
        leaves(node).count(t) >= 1,
    decreases p.len(),
{
    if p.len() > 0 {
        let ch = node->Branches_0;
        assert(reaches(ch@[p[0] as int], p.drop_first(), t));
        lemma_forest_parts(ch@, p[0] as int, p[0] as int, t);
        lemma_path_count(ch@[p[0] as int], p.drop_first(), t);
    }
}

/// Each path to a leaf holding `t` counts once among the leaves.
proof fn lemma_path_counts(node: Node, p: Seq<nat>, q: Seq<nat>, t: TokenView)
    requires
        reaches(node, p, t),
        reaches(node, q, t),
    ensures
        leaves(node).count(t) >= 1,
        p != q ==> leaves(node).count(t) >= 2,
    decreases p.len(),
{
    if p.len() == 0 {
        if q.len() > 0 {
            assert(walk(node, q) is None);
        }
        assert(p =~= q);
    } else {
        if q.len() == 0 {
            assert(walk(node, p) is None);
        }
        let ch = node->Branches_0;
        let (j, k) = (p[0], q[0]);
        let (pr, qr) = (p.drop_first(), q.drop_first());
        assert(reaches(ch@[j as int], pr, t));
        assert(reaches(ch@[k as int], qr, t));
        lemma_forest_parts(ch@, j as int, k as int, t);
        if j == k {
            lemma_path_counts(ch@[j as int], pr, qr, t);
            if p != q {
                assert(pr != qr) by {
                    if pr == qr {
                        assert(p =~= seq![j] + pr);
                        assert(q =~= seq![k] + qr);
                    }
                }
            }
        } else {
            lemma_path_count(ch@[j as int], pr, t);
            lemma_path_count(ch@[k as int], qr, t);
        }
    }
}

proof fn lemma_forest_count(s: Seq<Node>, t: TokenView)
    requires
        forest_leaves(s).count(t) > 0,
    ensures
        exists|k: int| 0 <= k < s.len() && #[trigger] leaves(s[k]).count(t) > 0,
    decreases s.len(),
{
    if s.len() > 0 {
        if leaves(s.last()).count(t) == 0 {
            lemma_forest_count(s.drop_last(), t);
            let k = choose|k: int| 0 <= k < s.len() - 1 && #[trigger] leaves(s.drop_last()[k]).count(t) > 0;
            assert(s.drop_last()[k] == s[k]);
        } else {
            assert(leaves(s[s.len() - 1]).count(t) > 0);
        }
    }
}

/// A token counted among the leaves is reached by some path.
proof fn lemma_count_holds(node: Node, t: TokenView)
    requires
        leaves(node).count(t) > 0,
    ensures
        holds(node, t),
    decreases node,
{
    match node {
        Node::Leaf(l) => {
            assert(l@ == t);
            assert(reaches(node, Seq::<nat>::empty(), t));
        },
        Node::Branches(ch) => {
            lemma_forest_count(ch@, t);
            let k = choose|k: int| 0 <= k < ch@.len() && #[trigger] leaves(ch@[k]).count(t) > 0;
            assert(decreases_to!(node => node->Branches_0));
            assert(decreases_to!(ch => ch[k]));
            lemma_count_holds(ch@[k], t);
            let p = choose|p: Seq<nat>| reaches(ch@[k], p, t);
            lemma_walk_step(node, k as nat, p);
            assert(reaches(node, seq![k as nat] + p, t));
        },
    }
}

/// In a codebook built from one leaf per source index, every token is
/// reached by at most one path of the tree and every source index by one.
pub proof fn law_built_paths(seeded: Mapping, built: Mapping)
    requires
        is_seed_forest(seeded.tree@, seeded.from@.len()),
        built.tree@.len() == 1,
        built.from@.len() == seeded.from@.len(),
        forest_leaves(built.tree@) == forest_leaves(seeded.tree@),
    ensures
        built.paths_unique(),
        forall|i: nat| i < built.from@.len() ==> #[trigger] holds(built.tree@[0], TokenView::From(i)),
{
    law_built_leaves(seeded, built);
    let r = built.tree@[0];
    assert forall|p: Seq<nat>, q: Seq<nat>, t: TokenView|
        reaches(r, p, t) && reaches(r, q, t) implies p == q by {
        lemma_path_counts(r, p, q, t);
        if !(t is From && t->From_0 < built.from@.len()) {
            assert(leaves(r).count(t) == 0);
        } else {
            assert(leaves(r).count(TokenView::From(t->From_0)) == 1);
        }
    }
    assert forall|i: nat| i < built.from@.len() implies #[trigger] holds(r, TokenView::From(i)) by {
        assert(leaves(r).count(TokenView::From(i)) == 1);
        lemma_count_holds(r, TokenView::From(i));
    }
}

/// In a codebook built from one leaf per source index whose root is a
/// branch, every source symbol is decoded back to itself from its own code.
pub proof fn law_built_round_trip(seeded: Mapping, built: Mapping, s: nat)
    requires
        is_seed_forest(seeded.tree@, seeded.from@.len()),
        built.tree@.len() == 1,
        built.tree@[0] is Branches,
        built.from@.len() == seeded.from@.len(),
        forest_leaves(built.tree@) == forest_leaves(seeded.tree@),
        s < built.from@.len(),
    ensures
        built.decode(built.encode(seq![TokenView::From(s)])) == seq![TokenView::From(s)],
{
    law_built_paths(seeded, built);
    law_round_trip(built, s);
}

} // verus!
