use vstd::prelude::*;

use crate::ast::{lemma_nodes_view_is_deep_view, Fun, Node, SpecNode};
use crate::errors::Error;
use crate::lexer::{
    is_u64_literal, lemma_lex_print_tokens, print_tokens, spec_lex, wf_token, wf_word, SpecToken,
    Token,
};

verus! {

broadcast use vstd::seq::group_seq_axioms, vstd::std_specs::vec::group_vec_axioms;

/// One expression read from the front of the token sequence: how many tokens
/// it takes and the tree it denotes. An empty sequence or a leading closing
/// parenthesis is a failure; a number or symbol token is a leaf taking one
/// token; an opening parenthesis must be followed by a symbol naming the
/// function (with at least three tokens in all) and then arguments up to and
/// including the matching closing parenthesis.
pub open spec fn spec_parse_exp(ts: Seq<SpecToken>) -> Result<(int, SpecNode), Error>
    decreases ts.len(), 0int,
{
    if ts.len() == 0 {
        Err(Error::NoTokens)
    } else {
        match ts[0] {
            SpecToken::Number(n) => Ok((1, SpecNode::Number(n))),
            SpecToken::Symbol(s) => Ok((1, SpecNode::Symbol(s))),
            SpecToken::RightParen => Err(Error::UnexpectedToken),
            SpecToken::LeftParen => if ts.len() < 3 {
                Err(Error::TooFewTokens)
            } else {
                match ts[1] {
                    SpecToken::Symbol(name) => match spec_parse_args(ts.skip(2)) {
                        Ok((m, args)) => Ok((2 + m, SpecNode::Application(name, args))),
                        Err(e) => Err(e),
                    },
                    _ => Err(Error::UnexpectedToken),
                }
            },
        }
    }
}

/// The number of tokens an expression would take, clamped so that recursion
/// always advances; `lemma_spec_parse_exp_consumed` shows the clamp is never
/// exercised.
pub open spec fn advance(n: int, len: int) -> int {
    if n < 1 {
        1
    } else if n > len {
        len
    } else {
        n
    }
}

/// Argument expressions read from the front of the token sequence, up to and
/// including one closing parenthesis: how many tokens they take and the trees
/// they denote, in order. Running out of tokens before the closing
/// parenthesis is a failure.
pub open spec fn spec_parse_args(ts: Seq<SpecToken>) -> Result<(int, Seq<SpecNode>), Error>
    decreases ts.len(), 1int,
{
    if ts.len() == 0 {
        Err(Error::TooFewTokens)
    } else if ts[0] is RightParen {
        Ok((1, seq![]))
    } else {
        match spec_parse_exp(ts) {
            Ok((n, node)) => {
                let k = advance(n, ts.len() as int);
                match spec_parse_args(ts.skip(k)) {
                    Ok((m, rest)) => Ok((k + m, seq![node] + rest)),
                    Err(e) => Err(e),
                }
            },
            Err(e) => Err(e),
        }
    }
}

/// A complete expression takes at least one token and no more than there are.
pub proof fn lemma_spec_parse_exp_consumed(ts: Seq<SpecToken>)
    ensures
        spec_parse_exp(ts) matches Ok((n, _)) ==> 1 <= n <= ts.len(),
    decreases ts.len(), 0int,
{
    if ts.len() >= 3 && ts[0] is LeftParen {
        lemma_spec_parse_args_consumed(ts.skip(2));
    }
}

/// An argument list with its closing parenthesis takes at least one token
/// and no more than there are.
pub proof fn lemma_spec_parse_args_consumed(ts: Seq<SpecToken>)
    ensures
        spec_parse_args(ts) matches Ok((m, _)) ==> 1 <= m <= ts.len(),
    decreases ts.len(), 1int,
{
    if ts.len() > 0 && !(ts[0] is RightParen) {
        lemma_spec_parse_exp_consumed(ts);
        match spec_parse_exp(ts) {
            Ok(p) => {
                lemma_spec_parse_args_consumed(ts.skip(advance(p.0, ts.len() as int)));
            },
            Err(_) => {},
        }
    }
}

/// The exec result of `parse_exp`, as the mathematical parser states it.
pub open spec fn parse_exp_result_view(r: Result<(usize, Node), Error>) -> Result<
    (int, SpecNode),
    Error,
> {
    match r {
        Ok((n, node)) => Ok((n as int, node@)),
        Err(e) => Err(e),
    }
}

/// While reading arguments: the tokens before `i` have been read into `done`,
/// and however the rest goes, the whole argument list goes the same way.
spec fn args_continue(tv: Seq<SpecToken>, i: int, done: Seq<SpecNode>) -> bool {
    match spec_parse_args(tv.skip(i)) {
        Ok((m, rest)) => spec_parse_args(tv.skip(2)) == Ok::<(int, Seq<SpecNode>), Error>(
            (i - 2 + m, done + rest),
        ),
        Err(e) => spec_parse_args(tv.skip(2)) == Err::<(int, Seq<SpecNode>), Error>(e),
    }
}

/// Reads one complete expression from the front of `tokens`: the number of
/// tokens it consumed and the tree it denotes.
#[verifier::loop_isolation(false)]
pub fn parse_exp(tokens: &[Token]) -> (r: Result<(usize, Node), Error>)
    ensures
        parse_exp_result_view(r) == spec_parse_exp(tokens.deep_view()),
    decreases tokens@.len(),
{
    let ghost tv = tokens.deep_view();
    let len = tokens.len();
    if len == 0 {
        return Err(Error::NoTokens);
    }
    match vstd::slice::slice_index_get(tokens, 0) {
        Token::Number(n) => Ok((1, Node::Number(*n))),
        Token::Symbol(s) => Ok((1, Node::Symbol((*s).to_owned()))),
        Token::RightParen => Err(Error::UnexpectedToken),
        Token::LeftParen => {
            if len < 3 {
                return Err(Error::TooFewTokens);
            }
            let name: String = match vstd::slice::slice_index_get(tokens, 1) {
                Token::Symbol(s) => (*s).to_owned(),
                _ => {
                    return Err(Error::UnexpectedToken);
                },
            };
            let mut args: Vec<Node> = Vec::new();
            let mut i: usize = 2;
            proof {
                assert(tv.skip(2).skip(0) =~= tv.skip(2));
                assert(args.deep_view() =~= Seq::<SpecNode>::empty());
                match spec_parse_args(tv.skip(2)) {
                    Ok(p) => {
                        assert(Seq::<SpecNode>::empty() + p.1 =~= p.1);
                    },
                    Err(_) => {},
                }
            }
            loop
                invariant
                    2 <= i <= len,
                    args_continue(tv, i as int, args.deep_view()),
                decreases len - i,
            {
                if i >= len {
                    proof {
                        assert(tv.skip(i as int).len() == 0);
                    }
                    return Err(Error::TooFewTokens);
                }
                let at_close = match vstd::slice::slice_index_get(tokens, i) {
                    Token::RightParen => true,
                    _ => false,
                };
                if at_close {
                    let consumed = i + 1;
                    let r = Node::Application(Fun { name, args });
                    proof {
                        assert(tv.skip(i as int)[0] is RightParen);
                        assert(spec_parse_args(tv.skip(i as int)) == Ok::<
                            (int, Seq<SpecNode>),
                            Error,
                        >((1, seq![])));
                        let done = r->Application_0.args.deep_view();
                        assert(done + seq![] =~= done);
                        lemma_nodes_view_is_deep_view(r->Application_0.args);
                    }
                    return Ok((consumed, r));
                }
                let rest = vstd::slice::slice_subrange(tokens, i, len);
                proof {
                    assert(rest.deep_view() =~= tv.skip(i as int));
                }
                match parse_exp(rest) {
                    Err(e) => {
                        return Err(e);
                    },
                    Ok((n, node)) => {
                        proof {
                            lemma_spec_parse_exp_consumed(tv.skip(i as int));
                            assert(1 <= n <= len - i);
                            assert(advance(n as int, tv.skip(i as int).len() as int) == n as int);
                            assert(tv.skip(i as int).skip(n as int) =~= tv.skip(i as int + n as int));
                        }
                        let ghost old_done = args.deep_view();
                        args.push(node);
                        proof {
                            assert(args.deep_view() =~= old_done + seq![node@]);
                            match spec_parse_args(tv.skip(i as int + n as int)) {
                                Ok(p) => {
                                    assert((old_done + seq![node@]) + p.1 =~= old_done + (seq![
                                        node@,
                                    ] + p.1));
                                },
                                Err(_) => {},
                            }
                        }
                        i += n;
                    },
                }
            }
        },
    }
}

/// The whole program: complete expressions read from the front until the
/// token sequence is exhausted, every token consumed exactly once.
pub open spec fn spec_parse(ts: Seq<SpecToken>) -> Result<Seq<SpecNode>, Error>
    decreases ts.len(),
{
    if ts.len() == 0 {
        Ok(seq![])
    } else {
        match spec_parse_exp(ts) {
            Ok((n, node)) => {
                let k = advance(n, ts.len() as int);
                match spec_parse(ts.skip(k)) {
                    Ok(rest) => Ok(seq![node] + rest),
                    Err(e) => Err(e),
                }
            },
            Err(e) => Err(e),
        }
    }
}

/// While reading roots: the tokens before `i` have been read into `done`,
/// and however the rest goes, the whole program goes the same way.
spec fn parse_continue(tv: Seq<SpecToken>, i: int, done: Seq<SpecNode>) -> bool {
    match spec_parse(tv.skip(i)) {
        Ok(rest) => spec_parse(tv) == Ok::<Seq<SpecNode>, Error>(done + rest),
        Err(e) => spec_parse(tv) == Err::<Seq<SpecNode>, Error>(e),
    }
}

/// Parses the token sequence into the ordered sequence of top-level syntax
/// tree roots, consuming every token exactly once, with no leftover.
#[verifier::loop_isolation(false)]
pub fn parse(tokens: &Vec<Token>) -> (r: Result<Vec<Node>, Error>)
    ensures
        match r {
            Ok(v) => spec_parse(tokens.deep_view()) == Ok::<Seq<SpecNode>, Error>(v.deep_view()),
            Err(e) => spec_parse(tokens.deep_view()) == Err::<Seq<SpecNode>, Error>(e),
        },
{
    let ghost tv = tokens.deep_view();
    let len = tokens.len();
    let mut v: Vec<Node> = Vec::new();
    let mut n: usize = 0;
    proof {
        assert(tv.skip(0) =~= tv);
        assert(v.deep_view() =~= Seq::<SpecNode>::empty());
        match spec_parse(tv) {
            Ok(rest) => {
                assert(Seq::<SpecNode>::empty() + rest =~= rest);
            },
            Err(_) => {},
        }
    }
    while n < len
        invariant
            n <= len,
            parse_continue(tv, n as int, v.deep_view()),
        decreases len - n,
    {
        let rest = vstd::slice::slice_subrange(tokens.as_slice(), n, len);
        proof {
            assert(rest.deep_view() =~= tv.skip(n as int));
        }
        match parse_exp(rest) {
            Err(e) => {
                return Err(e);
            },
            Ok((k, node)) => {
                proof {
                    lemma_spec_parse_exp_consumed(tv.skip(n as int));
                    assert(1 <= k <= len - n);
                    assert(advance(k as int, tv.skip(n as int).len() as int) == k as int);
                    assert(tv.skip(n as int).skip(k as int) =~= tv.skip(n as int + k as int));
                }
                let ghost old_done = v.deep_view();
                v.push(node);
                proof {
                    assert(v.deep_view() =~= old_done + seq![node@]);
                    match spec_parse(tv.skip(n as int + k as int)) {
                        Ok(rest2) => {
                            assert((old_done + seq![node@]) + rest2 =~= old_done + (seq![node@]
                                + rest2));
                        },
                        Err(_) => {},
                    }
                }
                n += k;
            },
        }
    }
    proof {
        assert(n == len);
        assert(tv.skip(n as int).len() == 0);
        assert(v.deep_view() + Seq::<SpecNode>::empty() =~= v.deep_view());
    }
    Ok(v)
}

/// The token sequence a tree prints as: a leaf is its one token, an
/// application is an opening parenthesis, its name as a symbol, its
/// arguments' tokens in order, and a closing parenthesis.
pub open spec fn node_tokens(n: SpecNode) -> Seq<SpecToken>
    decreases n,
{
    match n {
        SpecNode::Symbol(s) => seq![SpecToken::Symbol(s)],
        SpecNode::Number(v) => seq![SpecToken::Number(v)],
        SpecNode::Application(name, args) => seq![SpecToken::LeftParen, SpecToken::Symbol(name)]
            + nodes_tokens(args) + seq![SpecToken::RightParen],
    }
}

/// The token sequences of a list of trees, in order.
pub open spec fn nodes_tokens(ns: Seq<SpecNode>) -> Seq<SpecToken>
    decreases ns,
{
    if ns.len() == 0 {
        seq![]
    } else {
        node_tokens(ns[0]) + nodes_tokens(ns.skip(1))
    }
}

/// A tree prints as at least one token, and never starts with a closing
/// parenthesis.
proof fn lemma_node_tokens_head(n: SpecNode)
    ensures
        node_tokens(n).len() >= 1,
        !(node_tokens(n)[0] is RightParen),
{
}

/// Reading one expression from a tree's tokens, whatever follows them, gives
/// back exactly that tree and consumes exactly its tokens.
pub proof fn lemma_parse_exp_inverts(n: SpecNode, rest: Seq<SpecToken>)
    ensures
        spec_parse_exp(node_tokens(n) + rest) == Ok::<(int, SpecNode), Error>(
            (node_tokens(n).len() as int, n),
        ),
    decreases n,
{
    let ts = node_tokens(n) + rest;
    match n {
        SpecNode::Symbol(s) => {
            assert(ts[0] == SpecToken::Symbol(s));
        },
        SpecNode::Number(v) => {
            assert(ts[0] == SpecToken::Number(v));
        },
        SpecNode::Application(name, args) => {
            assert(ts[0] is LeftParen);
            assert(ts[1] == SpecToken::Symbol(name));
            assert(ts.len() >= 3);
            assert(ts.skip(2) =~= nodes_tokens(args) + seq![SpecToken::RightParen] + rest);
            lemma_parse_args_inverts(args, rest);
        },
    }
}

/// Reading an argument list from its trees' tokens followed by the closing
/// parenthesis, whatever follows, gives back exactly those trees and
/// consumes exactly those tokens.
pub proof fn lemma_parse_args_inverts(args: Seq<SpecNode>, rest: Seq<SpecToken>)
    ensures
        spec_parse_args(nodes_tokens(args) + seq![SpecToken::RightParen] + rest) == Ok::<
            (int, Seq<SpecNode>),
            Error,
        >((nodes_tokens(args).len() as int + 1, args)),
    decreases args,
{
    let ts = nodes_tokens(args) + seq![SpecToken::RightParen] + rest;
    if args.len() == 0 {
        assert(ts[0] is RightParen);
        assert(args =~= Seq::<SpecNode>::empty());
    } else {
        let n0 = args[0];
        let tail = nodes_tokens(args.skip(1)) + seq![SpecToken::RightParen] + rest;
        assert(ts =~= node_tokens(n0) + tail);
        lemma_node_tokens_head(n0);
        lemma_parse_exp_inverts(n0, tail);
        let l0 = node_tokens(n0).len() as int;
        assert(ts[0] == node_tokens(n0)[0]);
        assert(advance(l0, ts.len() as int) == l0);
        assert(ts.skip(l0) =~= tail);
        lemma_parse_args_inverts(args.skip(1), rest);
        assert(seq![n0] + args.skip(1) =~= args);
    }
}

/// Round trip: for a program made of any trees, the parser consumes exactly
/// the tokens those trees print as, with zero leftover, and returns exactly
/// those trees.
pub proof fn lemma_parse_round_trip(roots: Seq<SpecNode>)
    ensures
        spec_parse(nodes_tokens(roots)) == Ok::<Seq<SpecNode>, Error>(roots),
    decreases roots,
{
    let ts = nodes_tokens(roots);
    if roots.len() == 0 {
        assert(roots =~= Seq::<SpecNode>::empty());
    } else {
        let n0 = roots[0];
        let tail = nodes_tokens(roots.skip(1));
        assert(ts =~= node_tokens(n0) + tail);
        lemma_node_tokens_head(n0);
        lemma_parse_exp_inverts(n0, tail);
        let l0 = node_tokens(n0).len() as int;
        assert(advance(l0, ts.len() as int) == l0);
        assert(ts.skip(l0) =~= tail);
        lemma_parse_round_trip(roots.skip(1));
        assert(seq![n0] + roots.skip(1) =~= roots);
    }
}

/// A tree the printer can render and the pipeline read back: every symbol
/// and every application name is one printable word and not a numeral.
pub open spec fn wf_node(n: SpecNode) -> bool
    decreases n,
{
    match n {
        SpecNode::Symbol(s) => wf_word(s) && !is_u64_literal(s),
        SpecNode::Number(_) => true,
        SpecNode::Application(name, args) => wf_word(name) && !is_u64_literal(name) && wf_nodes(
            args,
        ),
    }
}

/// Whether every tree of the list is printable.
pub open spec fn wf_nodes(ns: Seq<SpecNode>) -> bool
    decreases ns,
{
    if ns.len() == 0 {
        true
    } else {
        wf_node(ns[0]) && wf_nodes(ns.skip(1))
    }
}

/// A printable tree prints as printable tokens.
proof fn lemma_node_tokens_wf(n: SpecNode)
    requires
        wf_node(n),
    ensures
        forall|i: int|
            0 <= i < node_tokens(n).len() ==> wf_token(#[trigger] node_tokens(n)[i]),
    decreases n,
{
    match n {
        SpecNode::Symbol(_) => {},
        SpecNode::Number(_) => {},
        SpecNode::Application(name, args) => {
            lemma_nodes_tokens_wf(args);
            let head = seq![SpecToken::LeftParen, SpecToken::Symbol(name)];
            let mid = nodes_tokens(args);
            let ts = node_tokens(n);
            assert forall|i: int| 0 <= i < ts.len() implies wf_token(#[trigger] ts[i]) by {
                if i < 2 {
                    assert(ts[i] == head[i]);
                } else if i < 2 + mid.len() {
                    assert(ts[i] == mid[i - 2]);
                } else {
                    assert(ts[i] == SpecToken::RightParen);
                }
            }
        },
    }
}

/// A list of printable trees prints as printable tokens.
proof fn lemma_nodes_tokens_wf(ns: Seq<SpecNode>)
    requires
        wf_nodes(ns),
    ensures
        forall|i: int|
            0 <= i < nodes_tokens(ns).len() ==> wf_token(#[trigger] nodes_tokens(ns)[i]),
    decreases ns,
{
    if ns.len() > 0 {
        lemma_node_tokens_wf(ns[0]);
        lemma_nodes_tokens_wf(ns.skip(1));
        let a = node_tokens(ns[0]);
        let b = nodes_tokens(ns.skip(1));
        let ts = nodes_tokens(ns);
        assert forall|i: int| 0 <= i < ts.len() implies wf_token(#[trigger] ts[i]) by {
            if i < a.len() {
                assert(ts[i] == a[i]);
            } else {
                assert(ts[i] == b[i - a.len()]);
            }
        }
    }
}

/// Round trip through source text: a program made of printable trees,
/// printed as source text, tokenizes to exactly its token sequence, and the
/// parser consumes exactly those tokens, with zero leftover, giving back
/// exactly those trees.
pub proof fn lemma_print_lex_parse_round_trip(roots: Seq<SpecNode>)
    requires
        wf_nodes(roots),
    ensures
        spec_parse(spec_lex(print_tokens(nodes_tokens(roots)))) == Ok::<Seq<SpecNode>, Error>(
            roots,
        ),
{
    lemma_nodes_tokens_wf(roots);
    lemma_lex_print_tokens(nodes_tokens(roots));
    lemma_parse_round_trip(roots);
}

/// Determinism: tokenizing and parsing the same source characters twice,
/// independently, yields structurally identical trees.
pub proof fn lemma_pipeline_deterministic(s1: Seq<char>, s2: Seq<char>)
    requires
        s1 == s2,
    ensures
        spec_parse(crate::lexer::spec_lex(s1)) == spec_parse(crate::lexer::spec_lex(s2)),
{
}

} // verus!
