use vstd::prelude::*;
use crate::mapping::Mapping;
use crate::model::{
    all_target, holds, path_tokens, reaches, resolve, token_path, tokens_view, walk, Node, Token,
    TokenView,
};

verus! {

/// Stepping into child `k` of a branch and walking on from there.
pub(crate) proof fn lemma_walk_step(node: Node, k: nat, p: Seq<nat>)
    requires
        node is Branches,
        k < node->Branches_0@.len(),
    ensures
        walk(node, seq![k] + p) == walk(node->Branches_0@[k as int], p),
{
    assert((seq![k] + p).drop_first() =~= p);
}

impl Node {
    /// The path of target tokens from this node to the first leaf, in child
    /// order, that holds `from`; `None` where no leaf holds it.
    pub fn translate(&self, from: &Token, map: &Mapping) -> (r: Option<Vec<Token>>)
        ensures
            r is None <==> !holds(*self, from@),
            r is Some ==> all_target(tokens_view(r->0@)) && reaches(
                *self,
                token_path(tokens_view(r->0@)),
                from@,
            ),
        decreases self,
    {
        match self {
            Node::Leaf(this) => {
                if this.eq(from) {
                    let v: Vec<Token> = Vec::new();
                    proof {
                        assert(token_path(tokens_view(v@)) =~= Seq::<nat>::empty());
                        assert(reaches(*self, Seq::<nat>::empty(), from@));
                    }
                    Some(v)
                } else {
                    proof {
                        assert forall|p: Seq<nat>| !reaches(*self, p, from@) by {
                            if p.len() > 0 {
                                assert(walk(*self, p) is None);
                            }
                        }
                    }
                    None
                }
            },
            Node::Branches(children) => {
                let mut n: usize = 0;
                while n < children.len()
                    invariant
                        n <= children@.len(),
                        *self == Node::Branches(*children),
                        forall|k: int| 0 <= k < n ==> !holds(#[trigger] children@[k], from@),
                    decreases children.len() - n,
                {
                    proof {
                        broadcast use vstd::std_specs::vec::axiom_vec_index_decreases;
                        assert(decreases_to!(*self => self->Branches_0));
                        assert(decreases_to!(*children => children[n as int]));
                        assert(decreases_to!(*self => children[n as int]));
                    }
                    match children[n].translate(from, map) {
                        Some(path) => {
                            let ghost old_path = path@;
                            let ghost q = token_path(tokens_view(old_path));
                            let mut v: Vec<Token> = Vec::new();
                            v.push(Token::To(n));
                            let mut path = path;
                            v.append(&mut path);
                            proof {
                                let tv = tokens_view(v@);
                                assert(tv =~= seq![TokenView::To(n as nat)] + tokens_view(old_path));
                                assert(token_path(tv) =~= seq![n as nat] + q);
                                assert(*self == Node::Branches(*children));
                                lemma_walk_step(*self, n as nat, q);
                                assert(reaches(*self, token_path(tv), from@));
                                assert(all_target(tv)) by {
                                    assert forall|i: int| 0 <= i < tv.len() implies #[trigger] tv[i] is To by {
                                        if i > 0 {
                                            assert(tv[i] == tokens_view(old_path)[i - 1]);
                                        }
                                    }
                                }
                            }
                            return Some(v);
                        },
                        None => {},
                    }
                    n += 1;
                }
                proof {
                    assert forall|p: Seq<nat>| !reaches(*self, p, from@) by {
                        assert(*self == Node::Branches(*children));
                        if p.len() > 0 && p[0] < children@.len() {
                            assert(!holds(children@[p[0] as int], from@));
                            assert(!reaches(children@[p[0] as int], p.drop_first(), from@));
                        }
                    }
                }
                None
            },
        }
    }
}

impl Node {
    /// The token of the first leaf reached by walking `from` as a path of
    /// target tokens from this node; `None` where no leaf is reached.
    pub fn translate_reverse(&self, from: &[Token], map: &Mapping) -> (r: Option<Token>)
        ensures
            r is Some <==> resolve(*self, tokens_view(from@)) is Some,
            r is Some ==> resolve(*self, tokens_view(from@)) == Some(r->0@),
    {
        proof {
            assert(tokens_view(from@).subrange(0, from@.len() as int) =~= tokens_view(from@));
        }
        self.resolve_from(from, 0)
    }

    fn resolve_from(&self, from: &[Token], start: usize) -> (r: Option<Token>)
        requires
            start <= from@.len(),
        ensures
            r is Some <==> resolve(*self, tokens_view(from@).subrange(start as int, from@.len() as int)) is Some,
            r is Some ==> resolve(*self, tokens_view(from@).subrange(start as int, from@.len() as int))
                == Some(r->0@),
        decreases from@.len() - start,
    {
        let ghost buf = tokens_view(from@).subrange(start as int, from@.len() as int);
        match self {
            Node::Leaf(leaf) => Some(leaf.clone()),
            Node::Branches(children) => {
                if start >= from.len() {
                    None
                } else {
                    match &from[start] {
                        Token::To(index) => {
                            if *index < children.len() {
                                proof {
                                    assert(buf.drop_first() =~= tokens_view(from@).subrange(
                                        start + 1,
                                        from@.len() as int,
                                    ));
                                    assert(buf[0] == from@[start as int]@);
                                }
                                children[*index].resolve_from(from, start + 1)
                            } else {
                                proof {
                                    assert(buf[0] == from@[start as int]@);
                                }
                                None
                            }
                        },
                        _ => {
                            proof {
                                assert(buf[0] == from@[start as int]@);
                            }
                            None
                        },
                    }
                }
            },
        }
    }
}

/// The state of decoding: pending target tokens, and the output so far.
pub type DecodeState = (Seq<TokenView>, Seq<TokenView>);

impl Mapping {
    /// The code tree, once the forest has collapsed into one.
    pub open spec fn root(&self) -> Option<Node> {
        if self.tree@.len() > 0 {
            Some(self.tree@[0])
        } else {
            None
        }
    }

    /// No token is reached by two different paths of the code tree.
    pub open spec fn paths_unique(&self) -> bool {
        forall|p: Seq<nat>, q: Seq<nat>, t: TokenView|
            #![trigger reaches(self.tree@[0], p, t), reaches(self.tree@[0], q, t)]
            self.tree@.len() > 0 && reaches(self.tree@[0], p, t) && reaches(self.tree@[0], q, t)
                ==> p == q
    }

    /// The code of one token: a literal passes through; a source token
    /// becomes the target tokens of its path, or nothing where no leaf holds it.
    pub open spec fn encode_one(&self, t: TokenView) -> Seq<TokenView> {
        match t {
            TokenView::Literal(_) => seq![t],
            _ => match self.root() {
                Some(r) => if holds(r, t) {
                    path_tokens(choose|p: Seq<nat>| reaches(r, p, t))
                } else {
                    seq![]
                },
                None => seq![],
            },
        }
    }

    /// The codes of the tokens, concatenated in order.
    pub open spec fn encode(&self, ts: Seq<TokenView>) -> Seq<TokenView>
        decreases ts.len(),
    {
        if ts.len() == 0 {
            seq![]
        } else {
            self.encode(ts.drop_last()) + self.encode_one(ts.last())
        }
    }

    /// One step of decoding: a literal goes straight to the output; a target
    /// token joins the pending buffer, which is emptied into the output as
    /// soon as it resolves to a leaf.
    pub open spec fn decode_step(&self, st: DecodeState, t: TokenView) -> DecodeState {
        match t {
            TokenView::Literal(_) => (st.0, st.1.push(t)),
            _ => {
                let buf = st.0.push(t);
                match self.root() {
                    Some(r) => match resolve(r, buf) {
                        Some(x) => (seq![], st.1.push(x)),
                        None => (buf, st.1),
                    },
                    None => (buf, st.1),
                }
            },
        }
    }

    /// The decoding state after the tokens, from an empty buffer.
    pub open spec fn decode_run(&self, ts: Seq<TokenView>) -> DecodeState
        decreases ts.len(),
    {
        if ts.len() == 0 {
            (seq![], seq![])
        } else {
            self.decode_step(self.decode_run(ts.drop_last()), ts.last())
        }
    }

    /// What decoding the tokens outputs; a trailing partial code is dropped.
    pub open spec fn decode(&self, ts: Seq<TokenView>) -> Seq<TokenView> {
        self.decode_run(ts).1
    }

    /// Encodes tokens: each literal is kept and each source token is replaced
    /// by the target tokens of its path from the root.
    pub fn translate(&self, symbols: &[Token]) -> (r: Vec<Token>)
        requires
            self.paths_unique(),
            forall|i: int| 0 <= i < symbols@.len() ==> !(#[trigger] symbols@[i]@ is To),
        ensures
            tokens_view(r@) == self.encode(tokens_view(symbols@)),
    {
        let ghost sv = tokens_view(symbols@);
        let mut r: Vec<Token> = Vec::new();
        let mut k: usize = 0;
        while k < symbols.len()
            invariant
                k <= symbols@.len(),
                sv == tokens_view(symbols@),
                self.paths_unique(),
                forall|i: int| 0 <= i < symbols@.len() ==> !(#[trigger] symbols@[i]@ is To),
                tokens_view(r@) == self.encode(sv.take(k as int)),
            decreases symbols.len() - k,
        {
            let token = &symbols[k];
            let ghost before = r@;
            proof {
                assert(sv.take(k + 1).drop_last() =~= sv.take(k as int));
                assert(sv.take(k + 1).last() == token@);
            }
            match token {
                Token::Literal(s) => {
                    r.push(Token::Literal(s.clone()));
                    proof {
                        assert(tokens_view(r@) =~= tokens_view(before) + seq![token@]);
                    }
                },
                _ => {
                    if self.tree.len() > 0 {
                        match self.tree[0].translate(token, self) {
                            Some(path) => {
                                let ghost pv = tokens_view(path@);
                                proof {
                                    let p = token_path(pv);
                                    let c = choose|q: Seq<nat>| reaches(self.tree@[0], q, token@);
                                    assert(reaches(self.tree@[0], p, token@));
                                    assert(p == c);
                                    assert(pv =~= path_tokens(p)) by {
                                        assert forall|j: int| 0 <= j < pv.len() implies pv[j] == path_tokens(p)[j] by {
                                            assert(pv[j] is To);
                                        }
                                    }
                                }
                                let mut path = path;
                                r.append(&mut path);
                                proof {
                                    assert(tokens_view(r@) =~= tokens_view(before) + pv);
                                }
                            },
                            None => {
                                proof {
                                    assert(self.encode_one(token@) =~= Seq::<TokenView>::empty());
                                    assert(tokens_view(r@) =~= tokens_view(before) + Seq::<TokenView>::empty());
                                }
                            },
                        }
                    } else {
                        proof {
                            assert(tokens_view(r@) =~= tokens_view(before) + Seq::<TokenView>::empty());
                        }
                    }
                },
            }
            k += 1;
        }
        proof {
            assert(sv.take(k as int) =~= sv);
        }
        r
    }

    /// Decodes tokens: literals pass straight through; target tokens gather
    /// in a buffer until, walked from the root, they reach a leaf, whose token
    /// is then output and the buffer emptied.
    pub fn translate_reverse(&self, symbols: &[Token]) -> (r: Vec<Token>)
        requires
            forall|i: int| 0 <= i < symbols@.len() ==> !(#[trigger] symbols@[i]@ is From),
        ensures
            tokens_view(r@) == self.decode(tokens_view(symbols@)),
    {
        let ghost sv = tokens_view(symbols@);
        let mut buffer: Vec<Token> = Vec::new();
        let mut results: Vec<Token> = Vec::new();
        let mut k: usize = 0;
        while k < symbols.len()
            invariant
                k <= symbols@.len(),
                sv == tokens_view(symbols@),
                forall|i: int| 0 <= i < symbols@.len() ==> !(#[trigger] symbols@[i]@ is From),
                (tokens_view(buffer@), tokens_view(results@)) == self.decode_run(sv.take(k as int)),
            decreases symbols.len() - k,
        {
            let symbol = &symbols[k];
            let ghost st = self.decode_run(sv.take(k as int));
            proof {
                assert(sv.take(k + 1).drop_last() =~= sv.take(k as int));
                assert(sv.take(k + 1).last() == symbol@);
            }
            match symbol {
                Token::Literal(s) => {
                    let ghost before = results@;
                    results.push(Token::Literal(s.clone()));
                    proof {
                        assert(tokens_view(results@) =~= tokens_view(before).push(symbol@));
                    }
                },
                _ => {
                    let ghost bb = buffer@;
                    buffer.push(symbol.clone());
                    proof {
                        assert(tokens_view(buffer@) =~= tokens_view(bb).push(symbol@));
                    }
                    if self.tree.len() > 0 {
                        match self.tree[0].translate_reverse(buffer.as_slice(), self) {
                            Some(token) => {
                                let ghost before = results@;
                                results.push(token);
                                buffer.clear();
                                proof {
                                    assert(tokens_view(results@) =~= tokens_view(before).push(token@));
                                    assert(tokens_view(buffer@) =~= Seq::<TokenView>::empty());
                                }
                            },
                            None => {},
                        }
                    }
                },
            }
            k += 1;
        }
        proof {
            assert(sv.take(k as int) =~= sv);
        }
        results
    }
}

/// The number of children of a branch; zero for a leaf.
pub open spec fn width(node: Node) -> int {
    match node {
        Node::Branches(ch) => ch@.len() as int,
        Node::Leaf(_) => 0,
    }
}

/// The sum of the leaf frequencies beneath a node.
pub open spec fn weight(node: Node, map: Mapping) -> int
    decreases node, width(node) + 1,
{
    match node {
        Node::Leaf(t) => map.freq_of(t@) as int,
        Node::Branches(ch) => weight_upto(node, ch@.len() as int, map),
    }
}

/// The sum of the weights of the first `k` children of a branch.
pub open spec fn weight_upto(node: Node, k: int, map: Mapping) -> int
    decreases node, k,
{
    match node {
        Node::Branches(ch) => if 0 < k <= ch@.len() {
            weight_upto(node, k - 1, map) + weight(ch@[k - 1], map)
        } else {
            0
        },
        Node::Leaf(_) => 0,
    }
}

impl Mapping {
    /// Every leaf beneath `node` holds a token whose index lies in its table.
    pub open spec fn leaves_in_tables(&self, node: Node) -> bool {
        forall|p: Seq<nat>, t: TokenView| #[trigger] reaches(node, p, t) ==> self.in_tables(t)
    }
}

/// What holds of every leaf beneath a branch holds of those beneath each child.
proof fn lemma_child_leaves(map: Mapping, node: Node, k: int)
    requires
        node is Branches,
        0 <= k < node->Branches_0@.len(),
        map.leaves_in_tables(node),
    ensures
        map.leaves_in_tables(node->Branches_0@[k]),
{
    assert forall|p: Seq<nat>, t: TokenView|
        #[trigger] reaches(node->Branches_0@[k], p, t) implies map.in_tables(t) by {
        lemma_walk_step(node, k as nat, p);
        assert(reaches(node, seq![k as nat] + p, t));
    }
}

impl Node {
    /// The sum of the frequencies of the leaves beneath this node, saturated
    /// at the largest `usize`.
    pub fn frequency(&self, map: &Mapping) -> (r: usize)
        requires
            map.leaves_in_tables(*self),
        ensures
            r == if weight(*self, *map) < usize::MAX { weight(*self, *map) } else { usize::MAX as int },
        decreases self,
    {
        match self {
            Node::Leaf(token) => {
                proof {
                    assert(reaches(*self, Seq::<nat>::empty(), token@));
                }
                map.freq(token)
            },
            Node::Branches(children) => {
                let mut acc: usize = 0;
                let mut n: usize = 0;
                while n < children.len()
                    invariant
                        n <= children@.len(),
                        *self == Node::Branches(*children),
                        map.leaves_in_tables(*self),
                        acc == if weight_upto(*self, n as int, *map) < usize::MAX {
                            weight_upto(*self, n as int, *map)
                        } else {
                            usize::MAX as int
                        },
                    decreases children.len() - n,
                {
                    proof {
                        assert(decreases_to!(*self => self->Branches_0));
                        assert(decreases_to!(*children => children[n as int]));
                        lemma_child_leaves(*map, *self, n as int);
                        lemma_weight_nonneg(children@[n as int], *map);
                        lemma_weight_upto_nonneg(*self, n as int, *map);
                    }
                    let f = children[n].frequency(map);
                    acc = acc.saturating_add(f);
                    n += 1;
                }
                acc
            },
        }
    }
}

/// Weights are never negative.
proof fn lemma_weight_nonneg(node: Node, map: Mapping)
    ensures
        weight(node, map) >= 0,
    decreases node, width(node) + 1,
{
    match node {
        Node::Branches(ch) => lemma_weight_upto_nonneg(node, ch@.len() as int, map),
        Node::Leaf(_) => {},
    }
}

proof fn lemma_weight_upto_nonneg(node: Node, k: int, map: Mapping)
    ensures
        weight_upto(node, k, map) >= 0,
    decreases node, k,
{
    match node {
        Node::Branches(ch) => if 0 < k <= ch@.len() {
            lemma_weight_upto_nonneg(node, k - 1, map);
            lemma_weight_nonneg(ch@[k - 1], map);
        },
        Node::Leaf(_) => {},
    }
}

} // verus!
