use vstd::prelude::*;

verus! {

broadcast use vstd::seq::group_seq_axioms, vstd::std_specs::vec::group_vec_axioms;

/// An application form `(name arg...)`: a fixed operator name and an ordered,
/// possibly empty list of argument subtrees, each owned exclusively by this
/// node.
#[derive(Debug, PartialEq, Eq)]
pub struct Fun {
    pub name: String,
    pub args: Vec<Node>,
}

/// One node of the syntax tree.
#[derive(Debug, PartialEq, Eq)]
pub enum Node {
    /// A reference to a previously bound name.
    Symbol(String),
    /// An application of a named operator to argument subtrees.
    Application(Fun),
    /// A literal unsigned 64-bit integer.
    Number(u64),
}

/// The mathematical shape of a syntax tree: names as character sequences,
/// argument lists as sequences of subtrees.
pub enum SpecNode {
    Symbol(Seq<char>),
    Application(Seq<char>, Seq<SpecNode>),
    Number(u64),
}

/// The mathematical shape of one node.
pub open spec fn node_view(n: Node) -> SpecNode
    decreases n, 1int,
{
    match n {
        Node::Symbol(s) => SpecNode::Symbol(s@),
        Node::Number(v) => SpecNode::Number(v),
        Node::Application(f) => {
            proof {
                assert(decreases_to!(n => f));
                assert(decreases_to!(f => f.args));
                assert(decreases_to!(f.args => f.args@));
            }
            SpecNode::Application(f.name@, nodes_view(f.args@))
        },
    }
}

/// The mathematical shapes of a list of nodes, in order.
pub open spec fn nodes_view(ns: Seq<Node>) -> Seq<SpecNode>
    decreases ns, 0int,
{
    if ns.len() == 0 {
        seq![]
    } else {
        proof {
            assert(decreases_to!(ns => ns[0]));
            vstd::seq::axiom_seq_len_decreases(ns, ns.skip(1));
        }
        seq![node_view(ns[0])] + nodes_view(ns.skip(1))
    }
}

impl View for Node {
    type V = SpecNode;

    open spec fn view(&self) -> SpecNode {
        node_view(*self)
    }
}

impl DeepView for Node {
    type V = SpecNode;

    open spec fn deep_view(&self) -> SpecNode {
        self.view()
    }
}

/// `nodes_view` is the elementwise view.
pub proof fn lemma_nodes_view_len(ns: Seq<Node>)
    ensures
        nodes_view(ns).len() == ns.len(),
    decreases ns.len(),
{
    if ns.len() > 0 {
        lemma_nodes_view_len(ns.skip(1));
    }
}

/// The view of the list at `i` is the view of the node at `i`.
pub proof fn lemma_nodes_view_index(ns: Seq<Node>, i: int)
    requires
        0 <= i < ns.len(),
    ensures
        nodes_view(ns).len() == ns.len(),
        nodes_view(ns)[i] == ns[i]@,
    decreases i,
{
    lemma_nodes_view_len(ns);
    if i > 0 {
        lemma_nodes_view_index(ns.skip(1), i - 1);
    }
}

/// `nodes_view` agrees with the deep view of a vector of nodes.
pub proof fn lemma_nodes_view_is_deep_view(v: Vec<Node>)
    ensures
        nodes_view(v@) == v.deep_view(),
{
    lemma_nodes_view_len(v@);
    assert forall|i: int| 0 <= i < v@.len() implies nodes_view(v@)[i] == v.deep_view()[i] by {
        lemma_nodes_view_index(v@, i);
    }
    assert(nodes_view(v@) =~= v.deep_view());
}

/// A structurally equal copy of the tree, owned by the caller.
#[verifier::loop_isolation(false)]
pub fn duplicate(n: &Node) -> (r: Node)
    ensures
        r@ == n@,
    decreases n,
{
    match n {
        Node::Symbol(s) => Node::Symbol(s.clone()),
        Node::Number(v) => Node::Number(*v),
        Node::Application(f) => {
            let mut args: Vec<Node> = Vec::new();
            let mut i: usize = 0;
            while i < f.args.len()
                invariant
                    i <= f.args@.len(),
                    args@.len() == i,
                    forall|j: int| 0 <= j < i ==> args@[j]@ == #[trigger] f.args@[j]@,
                decreases f.args@.len() - i,
            {
                proof {
                    assert(decreases_to!(*n => f.args@[i as int]));
                }
                let a = duplicate(&f.args[i]);
                args.push(a);
                i += 1;
            }
            let r = Node::Application(Fun { name: f.name.clone(), args });
            proof {
                lemma_nodes_view_len(args@);
                lemma_nodes_view_len(f.args@);
                assert forall|k: int| 0 <= k < args@.len() implies nodes_view(args@)[k]
                    == nodes_view(f.args@)[k] by {
                    lemma_nodes_view_index(args@, k);
                    lemma_nodes_view_index(f.args@, k);
                }
                assert(nodes_view(args@) =~= nodes_view(f.args@));
            }
            r
        },
    }
}

} // verus!
