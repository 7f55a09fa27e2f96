use vstd::prelude::*;

verus! {

/// A word of the source alphabet with its observed frequency.
#[derive(Clone, Debug)]
pub struct FromSymbol {
    pub text: String,
    pub frequency: usize,
}

/// A word of the target alphabet.
#[derive(Clone, Debug)]
pub struct ToSymbol {
    pub text: String,
}

/// The unit that moves through the codebook: a literal word, or an index
/// into the source (`From`) or target (`To`) table.
#[derive(Debug)]
pub enum Token {
    Literal(String),
    From(usize),
    To(usize),
}

/// The mathematical value of a token.
pub enum TokenView {
    Literal(Seq<char>),
    From(nat),
    To(nat),
}

impl View for Token {
    type V = TokenView;

    open spec fn view(&self) -> TokenView {
        match self {
            Token::Literal(s) => TokenView::Literal(s@),
            Token::From(i) => TokenView::From(*i as nat),
            Token::To(i) => TokenView::To(*i as nat),
        }
    }
}

impl PartialEq for Token {
    fn eq(&self, other: &Token) -> (r: bool)
        ensures
            r == (self@ == other@),
    {
        match self {
            Token::Literal(a) => match other {
                Token::Literal(b) => a.eq(b),
                _ => false,
            },
            Token::From(a) => match other {
                Token::From(b) => *a == *b,
                _ => false,
            },
            Token::To(a) => match other {
                Token::To(b) => *a == *b,
                _ => false,
            },
        }
    }
}

impl vstd::std_specs::cmp::PartialEqSpecImpl for Token {
    open spec fn obeys_eq_spec() -> bool {
        true
    }

    open spec fn eq_spec(&self, other: &Token) -> bool {
        self@ == other@
    }
}

impl Eq for Token {}

impl Clone for Token {
    fn clone(&self) -> (r: Token)
        ensures
            r@ == self@,
    {
        match self {
            Token::Literal(s) => Token::Literal(s.clone()),
            Token::From(i) => Token::From(*i),
            Token::To(i) => Token::To(*i),
        }
    }
}

/// A node of the code tree: a leaf holding a token, or a branch whose child
/// at position `i` is reached by the target token `To(i)`.
#[derive(Debug)]
pub enum Node {
    Leaf(Token),
    Branches(Vec<Node>),
}

/// The views of a sequence of tokens.
pub open spec fn tokens_view(ts: Seq<Token>) -> Seq<TokenView> {
    ts.map_values(|t: Token| t@)
}

/// The node reached from `node` by taking, at each step, the child whose
/// position is the next entry of `path`; `None` where a step leaves the tree.
pub open spec fn walk(node: Node, path: Seq<nat>) -> Option<Node>
    decreases path.len(),
{
    if path.len() == 0 {
        Some(node)
    } else {
        match node {
            Node::Leaf(_) => None,
            Node::Branches(ch) => if path[0] < ch@.len() {
                walk(ch@[path[0] as int], path.drop_first())
            } else {
                None
            },
        }
    }
}

/// `path` leads from `node` to a leaf whose token is `t`.
pub open spec fn reaches(node: Node, path: Seq<nat>, t: TokenView) -> bool {
    match walk(node, path) {
        Some(Node::Leaf(l)) => l@ == t,
        _ => false,
    }
}

/// Some path leads from `node` to a leaf holding `t`.
pub open spec fn holds(node: Node, t: TokenView) -> bool {
    exists|p: Seq<nat>| #[trigger] reaches(node, p, t)
}

/// What walking a buffer of tokens from `node` resolves to: the token of
/// the first leaf met, or `None` where the buffer runs out inside a branch,
/// or its next entry is not a target token naming a child of the branch.
pub open spec fn resolve(node: Node, buf: Seq<TokenView>) -> Option<TokenView>
    decreases buf.len(),
{
    match node {
        Node::Leaf(t) => Some(t@),
        Node::Branches(ch) => if buf.len() == 0 {
            None
        } else {
            match buf[0] {
                TokenView::To(k) => if k < ch@.len() {
                    resolve(ch@[k as int], buf.drop_first())
                } else {
                    None
                },
                _ => None,
            }
        },
    }
}

/// The path named by a sequence of target tokens.
pub open spec fn token_path(ts: Seq<TokenView>) -> Seq<nat> {
    ts.map_values(|t: TokenView| match t {
        TokenView::To(k) => k,
        _ => 0,
    })
}

/// Every token is a target token.
pub open spec fn all_target(ts: Seq<TokenView>) -> bool {
    forall|i: int| 0 <= i < ts.len() ==> #[trigger] ts[i] is To
}

/// The target tokens of a path.
pub open spec fn path_tokens(p: Seq<nat>) -> Seq<TokenView> {
    p.map_values(|i: nat| TokenView::To(i))
}

} // verus!
