use vstd::prelude::*;

use crate::ast::{
    duplicate, lemma_nodes_view_index, lemma_nodes_view_len, nodes_view, Node, SpecNode,
};
use crate::errors::Error;

verus! {

broadcast use vstd::seq::group_seq_axioms, vstd::std_specs::vec::group_vec_axioms,
    vstd::string::group_string_axioms;

/// Whether two string slices hold the same characters.
pub fn str_eq(a: &str, b: &str) -> (r: bool)
    ensures
        r == (a@ == b@),
{
    let la = a.unicode_len();
    let lb = b.unicode_len();
    if la != lb {
        return false;
    }
    let mut i: usize = 0;
    while i < la
        invariant
            i <= la,
            la == a@.len(),
            la == b@.len(),
            forall|j: int| 0 <= j < i ==> a@[j] == b@[j],
        decreases la - i,
    {
        if a.get_char(i) != b.get_char(i) {
            return false;
        }
        i += 1;
    }
    proof {
        assert(a@ =~= b@);
    }
    true
}

/// One name bound to one tree.
struct Binding {
    name: String,
    node: Node,
}

/// The binding environment: a flat map from symbol name to the tree the name
/// stands for. A later binding for the same name overwrites the earlier one.
pub struct Env {
    bindings: Vec<Binding>,
}

/// The map an ordered list of bindings denotes: each binding inserted in
/// order, so the last binding for a name wins.
spec fn env_map(s: Seq<Binding>) -> Map<Seq<char>, SpecNode>
    decreases s.len(),
{
    if s.len() == 0 {
        Map::empty()
    } else {
        env_map(s.drop_last()).insert(s.last().name@, s.last().node@)
    }
}

/// Entries at and after `i` whose names all differ from `k` do not affect
/// what the map holds at `k`.
proof fn lemma_env_map_prefix(s: Seq<Binding>, i: int, k: Seq<char>)
    requires
        0 <= i <= s.len(),
        forall|j: int| i <= j < s.len() ==> (#[trigger] s[j].name@) != k,
    ensures
        env_map(s).contains_key(k) == env_map(s.take(i)).contains_key(k),
        env_map(s).contains_key(k) ==> env_map(s)[k] == env_map(s.take(i))[k],
    decreases s.len() - i,
{
    if i == s.len() {
        assert(s.take(i) =~= s);
    } else {
        lemma_env_map_prefix(s, i + 1, k);
        let t = s.take(i + 1);
        assert(t.drop_last() =~= s.take(i));
        assert(t.last() == s[i]);
    }
}

impl View for Env {
    type V = Map<Seq<char>, SpecNode>;

    closed spec fn view(&self) -> Map<Seq<char>, SpecNode> {
        env_map(self.bindings@)
    }
}

impl Env {
    /// The empty environment evaluation starts from.
    pub fn new() -> (r: Env)
        ensures
            r@ == Map::<Seq<char>, SpecNode>::empty(),
    {
        Env { bindings: Vec::new() }
    }

    /// The tree bound to `name`, as a copy of its own, or nothing when the
    /// name is unbound.
    pub fn get(&self, name: &str) -> (r: Option<Node>)
        ensures
            match r {
                Some(n) => self@.contains_key(name@) && n@ == self@[name@],
                None => !self@.contains_key(name@),
            },
    {
        let mut i: usize = self.bindings.len();
        while i > 0
            invariant
                i <= self.bindings@.len(),
                forall|j: int| i <= j < self.bindings@.len() ==> (#[trigger] self.bindings@[j].name@)
                    != name@,
            decreases i,
        {
            i = i - 1;
            if str_eq(self.bindings[i].name.as_str(), name) {
                let n = duplicate(&self.bindings[i].node);
                proof {
                    lemma_env_map_prefix(self.bindings@, i + 1, name@);
                    let t = self.bindings@.take(i + 1);
                    assert(t.drop_last() =~= self.bindings@.take(i as int));
                    assert(t.last() == self.bindings@[i as int]);
                }
                return Some(n);
            }
        }
        proof {
            lemma_env_map_prefix(self.bindings@, 0, name@);
            assert(self.bindings@.take(0) =~= Seq::<Binding>::empty());
        }
        None
    }

    /// Binds `name` to `node`, overwriting any earlier binding.
    pub fn set(&mut self, name: String, node: Node)
        ensures
            final(self)@ == old(self)@.insert(name@, node@),
    {
        let ghost before = self.bindings@;
        self.bindings.push(Binding { name, node });
        proof {
            assert(self.bindings@.drop_last() =~= before);
        }
    }
}

/// The mathematical shape of the environment.
pub type SpecEnv = Map<Seq<char>, SpecNode>;

/// How many symbol lookups one evaluation may chain through. Symbol
/// resolution is recursive, and a cyclic chain of bindings would never end;
/// this budget bounds the chain and makes every evaluation terminate.
pub const MAX_LOOKUP_DEPTH: u64 = u64::MAX;

/// Left-to-right fold with wrapping addition.
pub open spec fn fold_wadd(vs: Seq<u64>, acc: u64) -> u64
    decreases vs.len(),
{
    if vs.len() == 0 {
        acc
    } else {
        fold_wadd(vs.skip(1), acc.wrapping_add(vs[0]))
    }
}

/// Left-to-right fold with wrapping subtraction.
pub open spec fn fold_wsub(vs: Seq<u64>, acc: u64) -> u64
    decreases vs.len(),
{
    if vs.len() == 0 {
        acc
    } else {
        fold_wsub(vs.skip(1), acc.wrapping_sub(vs[0]))
    }
}

/// Left-to-right fold with wrapping multiplication.
pub open spec fn fold_wmul(vs: Seq<u64>, acc: u64) -> u64
    decreases vs.len(),
{
    if vs.len() == 0 {
        acc
    } else {
        fold_wmul(vs.skip(1), acc.wrapping_mul(vs[0]))
    }
}

/// What evaluating one tree returns and what it leaves in the environment.
///
/// A number is its value. A symbol is what its bound tree evaluates to,
/// resolved recursively, an unbound symbol being fatal; each hop through a
/// binding spends one unit of `fuel`. An application evaluates its arguments
/// left to right, threading the environment, then folds them: `+` from 0,
/// `-` from 0 (so one argument wraps below zero), `*` from 1; `/` seeds the
/// accumulator with its first argument and divides by the rest in order,
/// failing with no argument or on a zero divisor; `define` binds its first
/// argument, which must be a symbol, to its second, unevaluated, and yields
/// 0; any other name is fatal.
pub open spec fn eval_node_spec(n: SpecNode, env: SpecEnv, fuel: nat) -> (Result<u64, Error>, SpecEnv)
    decreases fuel, n, 1int,
{
    match n {
        SpecNode::Number(v) => (Ok(v), env),
        SpecNode::Symbol(s) => if !env.contains_key(s) {
            (Err(Error::UnresolvedSymbol), env)
        } else if fuel == 0 {
            (Err(Error::RecursionLimit), env)
        } else {
            eval_node_spec(env[s], env, (fuel - 1) as nat)
        },
        SpecNode::Application(name, args) => {
            if name == "+"@ {
                let (r, em) = eval_args_spec(args, env, fuel);
                match r {
                    Ok(vs) => (Ok(fold_wadd(vs, 0)), em),
                    Err(e) => (Err(e), em),
                }
            } else if name == "-"@ {
                let (r, em) = eval_args_spec(args, env, fuel);
                match r {
                    Ok(vs) => (Ok(fold_wsub(vs, 0)), em),
                    Err(e) => (Err(e), em),
                }
            } else if name == "*"@ {
                let (r, em) = eval_args_spec(args, env, fuel);
                match r {
                    Ok(vs) => (Ok(fold_wmul(vs, 1)), em),
                    Err(e) => (Err(e), em),
                }
            } else if name == "/"@ {
                if args.len() == 0 {
                    (Err(Error::ArithmeticFault), env)
                } else {
                    proof {
                        assert(decreases_to!(n => args));
                    }
                    let (r0, env0) = eval_node_spec(args[0], env, fuel);
                    match r0 {
                        Err(e) => (Err(e), env0),
                        Ok(acc) => eval_div_spec(args.skip(1), acc, env0, fuel),
                    }
                }
            } else if name == "define"@ {
                if args.len() < 2 {
                    (Err(Error::MalformedDefine), env)
                } else {
                    match args[0] {
                        SpecNode::Symbol(s) => (Ok(0u64), env.insert(s, args[1])),
                        _ => (Err(Error::MalformedDefine), env),
                    }
                }
            } else {
                (Err(Error::UnknownFunction), env)
            }
        },
    }
}

/// The values of a list of argument trees, evaluated left to right with the
/// environment threaded through, stopping at the first failure.
pub open spec fn eval_args_spec(args: Seq<SpecNode>, env: SpecEnv, fuel: nat) -> (Result<
    Seq<u64>,
    Error,
>, SpecEnv)
    decreases fuel, args, 0int,
{
    if args.len() == 0 {
        (Ok(seq![]), env)
    } else {
        let (r0, env0) = eval_node_spec(args[0], env, fuel);
        match r0 {
            Err(e) => (Err(e), env0),
            Ok(v) => {
                let (r1, env1) = eval_args_spec(args.skip(1), env0, fuel);
                match r1 {
                    Err(e) => (Err(e), env1),
                    Ok(vs) => (Ok(seq![v] + vs), env1),
                }
            },
        }
    }
}

/// Division's fold: each remaining argument is evaluated in turn and the
/// accumulator divided by it, a zero divisor being fatal at that point, so
/// later arguments are not evaluated.
pub open spec fn eval_div_spec(args: Seq<SpecNode>, acc: u64, env: SpecEnv, fuel: nat) -> (Result<
    u64,
    Error,
>, SpecEnv)
    decreases fuel, args, 0int,
{
    if args.len() == 0 {
        (Ok(acc), env)
    } else {
        let (r0, env0) = eval_node_spec(args[0], env, fuel);
        match r0 {
            Err(e) => (Err(e), env0),
            Ok(d) => if d == 0 {
                (Err(Error::ArithmeticFault), env0)
            } else {
                eval_div_spec(args.skip(1), acc / d, env0, fuel)
            },
        }
    }
}

/// Evaluates every argument tree left to right, threading the environment.
#[verifier::loop_isolation(false)]
fn eval_args(args: &Vec<Node>, env: &mut Env, fuel: u64) -> (r: Result<Vec<u64>, Error>)
    ensures
        ({
            let (res, em) = eval_args_spec(nodes_view(args@), old(env)@, fuel as nat);
            final(env)@ == em && match r {
                Ok(vals) => res == Ok::<Seq<u64>, Error>(vals@),
                Err(e) => res == Err::<Seq<u64>, Error>(e),
            }
        }),
    decreases fuel, args@, 0int,
{
    let ghost nv = nodes_view(args@);
    let mut vals: Vec<u64> = Vec::new();
    let mut i: usize = 0;
    proof {
        lemma_nodes_view_len(args@);
        assert(nv.skip(0) =~= nv);
        match eval_args_spec(nv, old(env)@, fuel as nat).0 {
            Ok(vs) => {
                assert(vals@ + vs =~= vs);
            },
            Err(_) => {},
        }
    }
    while i < args.len()
        invariant
            i <= args@.len(),
            ({
                let full = eval_args_spec(nv, old(env)@, fuel as nat);
                let rest = eval_args_spec(nv.skip(i as int), env@, fuel as nat);
                full.1 == rest.1 && full.0 == match rest.0 {
                    Ok(vs) => Ok::<Seq<u64>, Error>(vals@ + vs),
                    Err(e) => Err::<Seq<u64>, Error>(e),
                }
            }),
        decreases args@.len() - i,
    {
        let ghost pre = env@;
        proof {
            lemma_nodes_view_index(args@, i as int);
            assert(nv.skip(i as int)[0] == nv[i as int]);
            assert(nv.skip(i as int).skip(1) =~= nv.skip(i as int + 1));
            assert(decreases_to!(args@ => args@[i as int]));
        }
        match eval_node(&args[i], env, fuel) {
            Err(e) => {
                return Err(e);
            },
            Ok(v) => {
                let ghost old_vals = vals@;
                vals.push(v);
                proof {
                    assert(vals@ =~= old_vals + seq![v]);
                    match eval_args_spec(nv.skip(i as int + 1), env@, fuel as nat).0 {
                        Ok(vs) => {
                            assert(old_vals + (seq![v] + vs) =~= (old_vals + seq![v]) + vs);
                        },
                        Err(_) => {},
                    }
                }
                i += 1;
            },
        }
    }
    proof {
        assert(nv.skip(i as int).len() == 0);
        assert(vals@ + Seq::<u64>::empty() =~= vals@);
    }
    Ok(vals)
}

/// The wrapping sum of the values, folded left to right from 0.
fn fold_add(vals: &Vec<u64>) -> (r: u64)
    ensures
        r == fold_wadd(vals@, 0),
{
    let mut acc: u64 = 0;
    let mut i: usize = 0;
    proof {
        assert(vals@.skip(0) =~= vals@);
    }
    while i < vals.len()
        invariant
            i <= vals@.len(),
            fold_wadd(vals@, 0) == fold_wadd(vals@.skip(i as int), acc),
        decreases vals@.len() - i,
    {
        proof {
            assert(vals@.skip(i as int)[0] == vals@[i as int]);
            assert(vals@.skip(i as int).skip(1) =~= vals@.skip(i as int + 1));
        }
        acc = acc.wrapping_add(vals[i]);
        i += 1;
    }
    acc
}

/// The wrapping difference: 0 minus each value in turn, left to right.
fn fold_sub(vals: &Vec<u64>) -> (r: u64)
    ensures
        r == fold_wsub(vals@, 0),
{
    let mut acc: u64 = 0;
    let mut i: usize = 0;
    proof {
        assert(vals@.skip(0) =~= vals@);
    }
    while i < vals.len()
        invariant
            i <= vals@.len(),
            fold_wsub(vals@, 0) == fold_wsub(vals@.skip(i as int), acc),
        decreases vals@.len() - i,
    {
        proof {
            assert(vals@.skip(i as int)[0] == vals@[i as int]);
            assert(vals@.skip(i as int).skip(1) =~= vals@.skip(i as int + 1));
        }
        acc = acc.wrapping_sub(vals[i]);
        i += 1;
    }
    acc
}

/// The wrapping product of the values, folded left to right from 1.
fn fold_mul(vals: &Vec<u64>) -> (r: u64)
    ensures
        r == fold_wmul(vals@, 1),
{
    let mut acc: u64 = 1;
    let mut i: usize = 0;
    proof {
        assert(vals@.skip(0) =~= vals@);
    }
    while i < vals.len()
        invariant
            i <= vals@.len(),
            fold_wmul(vals@, 1) == fold_wmul(vals@.skip(i as int), acc),
        decreases vals@.len() - i,
    {
        proof {
            assert(vals@.skip(i as int)[0] == vals@[i as int]);
            assert(vals@.skip(i as int).skip(1) =~= vals@.skip(i as int + 1));
        }
        acc = acc.wrapping_mul(vals[i]);
        i += 1;
    }
    acc
}

/// Evaluates one tree against the environment, with `fuel` bounding how many
/// symbol lookups the evaluation may chain through.
#[verifier::loop_isolation(false)]
pub fn eval_node(root: &Node, env: &mut Env, fuel: u64) -> (r: Result<u64, Error>)
    ensures
        ({
            let (res, em) = eval_node_spec(root@, old(env)@, fuel as nat);
            r == res && final(env)@ == em
        }),
    decreases fuel, *root, 1int,
{
    match root {
        Node::Number(v) => Ok(*v),
        Node::Symbol(s) => match env.get(s.as_str()) {
            None => Err(Error::UnresolvedSymbol),
            Some(bound) => {
                if fuel == 0 {
                    Err(Error::RecursionLimit)
                } else {
                    eval_node(&bound, env, fuel - 1)
                }
            },
        },
        Node::Application(f) => {
            let ghost nv = nodes_view(f.args@);
            proof {
                assert(decreases_to!(*root => f.args@));
                lemma_nodes_view_len(f.args@);
            }
            if str_eq(f.name.as_str(), "+") {
                match eval_args(&f.args, env, fuel) {
                    Err(e) => Err(e),
                    Ok(vals) => Ok(fold_add(&vals)),
                }
            } else if str_eq(f.name.as_str(), "-") {
                match eval_args(&f.args, env, fuel) {
                    Err(e) => Err(e),
                    Ok(vals) => Ok(fold_sub(&vals)),
                }
            } else if str_eq(f.name.as_str(), "*") {
                match eval_args(&f.args, env, fuel) {
                    Err(e) => Err(e),
                    Ok(vals) => Ok(fold_mul(&vals)),
                }
            } else if str_eq(f.name.as_str(), "/") {
                if f.args.len() == 0 {
                    return Err(Error::ArithmeticFault);
                }
                proof {
                    lemma_nodes_view_index(f.args@, 0);
                    assert(decreases_to!(*root => f.args@[0]));
                }
                let mut acc = match eval_node(&f.args[0], env, fuel) {
                    Err(e) => {
                        return Err(e);
                    },
                    Ok(v) => v,
                };
                let ghost target = eval_div_spec(nv.skip(1), acc, env@, fuel as nat);
                let mut i: usize = 1;
                while i < f.args.len()
                    invariant
                        1 <= i <= f.args@.len(),
                        eval_div_spec(nv.skip(i as int), acc, env@, fuel as nat) == target,
                    decreases f.args@.len() - i,
                {
                    proof {
                        lemma_nodes_view_index(f.args@, i as int);
                        assert(nv.skip(i as int)[0] == nv[i as int]);
                        assert(nv.skip(i as int).skip(1) =~= nv.skip(i as int + 1));
                        assert(decreases_to!(*root => f.args@[i as int]));
                    }
                    let d = match eval_node(&f.args[i], env, fuel) {
                        Err(e) => {
                            return Err(e);
                        },
                        Ok(v) => v,
                    };
                    if d == 0 {
                        return Err(Error::ArithmeticFault);
                    }
                    acc = acc / d;
                    i += 1;
                }
                proof {
                    assert(nv.skip(i as int).len() == 0);
                }
                Ok(acc)
            } else if str_eq(f.name.as_str(), "define") {
                if f.args.len() < 2 {
                    return Err(Error::MalformedDefine);
                }
                proof {
                    lemma_nodes_view_index(f.args@, 0);
                    lemma_nodes_view_index(f.args@, 1);
                }
                let key: String = match &f.args[0] {
                    Node::Symbol(s) => s.clone(),
                    _ => {
                        return Err(Error::MalformedDefine);
                    },
                };
                let bound = duplicate(&f.args[1]);
                env.set(key, bound);
                Ok(0)
            } else {
                Err(Error::UnknownFunction)
            }
        },
    }
}

/// Evaluates one tree against the environment, with the full lookup budget.
pub fn eval(root: &Node, env: &mut Env) -> (r: Result<u64, Error>)
    ensures
        ({
            let (res, em) = eval_node_spec(root@, old(env)@, MAX_LOOKUP_DEPTH as nat);
            r == res && final(env)@ == em
        }),
{
    eval_node(root, env, MAX_LOOKUP_DEPTH)
}

/// The result of a whole program: each root evaluated in order against one
/// shared environment, so bindings persist from root to root; the result is
/// the last root's value, 0 for an empty program, and the first failure
/// aborts the rest.
pub open spec fn eval_program_spec(roots: Seq<SpecNode>, env: SpecEnv, res: u64, fuel: nat) -> Result<
    u64,
    Error,
>
    decreases roots.len(),
{
    if roots.len() == 0 {
        Ok(res)
    } else {
        let (r0, env0) = eval_node_spec(roots[0], env, fuel);
        match r0 {
            Err(e) => Err(e),
            Ok(v) => eval_program_spec(roots.skip(1), env0, v, fuel),
        }
    }
}

/// Evaluates each root in order against one environment created empty, the
/// binding side effects of earlier roots visible to later ones.
#[verifier::loop_isolation(false)]
pub fn eval_program(roots: &Vec<Node>) -> (r: Result<u64, Error>)
    ensures
        r == eval_program_spec(nodes_view(roots@), Map::empty(), 0, MAX_LOOKUP_DEPTH as nat),
{
    let ghost nv = nodes_view(roots@);
    let mut env = Env::new();
    let mut res: u64 = 0;
    let mut i: usize = 0;
    proof {
        lemma_nodes_view_len(roots@);
        assert(nv.skip(0) =~= nv);
    }
    while i < roots.len()
        invariant
            i <= roots@.len(),
            eval_program_spec(nv.skip(i as int), env@, res, MAX_LOOKUP_DEPTH as nat)
                == eval_program_spec(nv, Map::empty(), 0, MAX_LOOKUP_DEPTH as nat),
        decreases roots@.len() - i,
    {
        proof {
            lemma_nodes_view_index(roots@, i as int);
            assert(nv.skip(i as int)[0] == nv[i as int]);
            assert(nv.skip(i as int).skip(1) =~= nv.skip(i as int + 1));
        }
        match eval(&roots[i], &mut env) {
            Err(e) => {
                return Err(e);
            },
            Ok(v) => {
                res = v;
            },
        }
        i += 1;
    }
    proof {
        assert(nv.skip(i as int).len() == 0);
    }
    Ok(res)
}

/// The whole pipeline on one source string: tokenize, parse, evaluate.
pub open spec fn spec_run(s: Seq<char>) -> Result<u64, Error> {
    match crate::parser::spec_parse(crate::lexer::spec_lex(s)) {
        Ok(roots) => eval_program_spec(roots, Map::empty(), 0, MAX_LOOKUP_DEPTH as nat),
        Err(e) => Err(e),
    }
}

/// Tokenizes and parses the source, then evaluates each top-level expression
/// in order; the last one's value is the program's result.
pub fn run(source: &str) -> (r: Result<u64, Error>)
    ensures
        r == spec_run(source@),
{
    let tokens = crate::lexer::lex(source);
    let roots = match crate::parser::parse(&tokens) {
        Ok(v) => v,
        Err(e) => {
            return Err(e);
        },
    };
    proof {
        crate::ast::lemma_nodes_view_is_deep_view(roots);
    }
    eval_program(&roots)
}

} // verus!
