use vstd::prelude::*;

verus! {

/// Handle of a node of a [`Context`]: its position in the arena.
#[derive(Clone, Copy, Debug)]
pub struct Variable {
    id: usize,
}

impl Variable {
    /// The position of the node in its arena.
    pub closed spec fn id_spec(self) -> usize {
        self.id
    }

    /// The position of the node in its arena.
    pub fn id(&self) -> (r: usize)
        ensures
            r == self.id_spec(),
    {
        self.id
    }
}

/// An operation node, with the positions of its operands.
#[derive(Clone, Copy, Debug, PartialEq, Eq)]
pub enum Op {
    Add(usize, usize),
    Sub(usize, usize),
    Mul(usize, usize),
    Sin(usize),
    ReLU(usize),
}

/// The value an input node starts with.
///
/// `Bits` is an IEEE-754 binary32 bit pattern. The other leaves name the
/// constants of the Fourier transforms, whose numeric value is computed where
/// the graph is evaluated: `TwiddleCos(len)` and `TwiddleSin(len)` are the
/// cosine and sine of `-2 * PI / len`, and `Reciprocal(n)` is `1 / n`.
#[derive(Clone, Copy, Debug, PartialEq, Eq)]
pub enum Leaf {
    Bits(u32),
    TwiddleCos(usize),
    TwiddleSin(usize),
    Reciprocal(usize),
}

/// A node of the computation graph: an input (a variable of the graph, such as a
/// weight), a constant the library itself puts in, or an operation on earlier nodes.
#[derive(Clone, Copy, Debug, PartialEq, Eq)]
pub enum Node {
    Input(Leaf),
    Const(Leaf),
    Apply(Op),
}

/// The expression that a node computes, as a tree over the nodes it reads: an input
/// node is named by its position and the value it holds, a constant by its value.
pub enum Expr {
    Var(usize, Leaf),
    Const(Leaf),
    Add(Box<Expr>, Box<Expr>),
    Sub(Box<Expr>, Box<Expr>),
    Mul(Box<Expr>, Box<Expr>),
    Sin(Box<Expr>),
    Relu(Box<Expr>),
}

/// Bit pattern of the binary32 number `0.0`.
pub const ZERO_BITS: u32 = 0u32;

/// Bit pattern of the binary32 number `1.0`.
pub const ONE_BITS: u32 = 0x3f80_0000u32;

pub open spec fn zero_expr() -> Expr {
    Expr::Const(Leaf::Bits(ZERO_BITS))
}

pub open spec fn one_expr() -> Expr {
    Expr::Const(Leaf::Bits(ONE_BITS))
}

/// Every operation reads only nodes that come before it.
pub open spec fn node_wf(node: Node, i: int) -> bool {
    match node {
        Node::Input(_) => true,
        Node::Const(_) => true,
        Node::Apply(op) => match op {
            Op::Add(l, r) => l < i && r < i,
            Op::Sub(l, r) => l < i && r < i,
            Op::Mul(l, r) => l < i && r < i,
            Op::Sin(a) => a < i,
            Op::ReLU(a) => a < i,
        },
    }
}

pub open spec fn nodes_wf(nodes: Seq<Node>) -> bool {
    forall|i: int| 0 <= i < nodes.len() ==> node_wf(#[trigger] nodes[i], i)
}

/// The expression computed by node `i` of `nodes`.
pub open spec fn node_expr(nodes: Seq<Node>, i: int) -> Expr
    decreases i,
{
    if i < 0 || i >= nodes.len() {
        zero_expr()
    } else {
        match nodes[i] {
            Node::Input(leaf) => Expr::Var(i as usize, leaf),
            Node::Const(leaf) => Expr::Const(leaf),
            Node::Apply(op) => match op {
                Op::Add(l, r) => if l < i && r < i {
                    Expr::Add(Box::new(node_expr(nodes, l as int)), Box::new(node_expr(nodes, r as int)))
                } else {
                    zero_expr()
                },
                Op::Sub(l, r) => if l < i && r < i {
                    Expr::Sub(Box::new(node_expr(nodes, l as int)), Box::new(node_expr(nodes, r as int)))
                } else {
                    zero_expr()
                },
                Op::Mul(l, r) => if l < i && r < i {
                    Expr::Mul(Box::new(node_expr(nodes, l as int)), Box::new(node_expr(nodes, r as int)))
                } else {
                    zero_expr()
                },
                Op::Sin(a) => if a < i {
                    Expr::Sin(Box::new(node_expr(nodes, a as int)))
                } else {
                    zero_expr()
                },
                Op::ReLU(a) => if a < i {
                    Expr::Relu(Box::new(node_expr(nodes, a as int)))
                } else {
                    zero_expr()
                },
            },
        }
    }
}

/// Appending nodes leaves the expression of every earlier node unchanged.
pub proof fn lemma_node_expr_prefix(nodes: Seq<Node>, more: Seq<Node>, i: int)
    requires
        0 <= i < nodes.len(),
        nodes.len() <= more.len(),
        forall|k: int| 0 <= k < nodes.len() ==> more[k] == nodes[k],
    ensures
        node_expr(more, i) == node_expr(nodes, i),
    decreases i,
{
    match nodes[i] {
        Node::Input(_) => {},
        Node::Const(_) => {},
        Node::Apply(op) => match op {
            Op::Add(l, r) | Op::Sub(l, r) | Op::Mul(l, r) => {
                if l < i && r < i {
                    lemma_node_expr_prefix(nodes, more, l as int);
                    lemma_node_expr_prefix(nodes, more, r as int);
                }
            },
            Op::Sin(a) | Op::ReLU(a) => {
                if a < i {
                    lemma_node_expr_prefix(nodes, more, a as int);
                }
            },
        },
    }
}

/// An arena of nodes, each one an input or an operation on earlier nodes.
pub struct Context {
    nodes: Vec<Node>,
}

impl View for Context {
    type V = Seq<Node>;

    closed spec fn view(&self) -> Seq<Node> {
        self.nodes@
    }
}

impl Default for Context {
    fn default() -> (ctx: Self)
        ensures
            ctx@ == Seq::<Node>::empty(),
    {
        Context { nodes: Vec::new() }
    }
}

impl Context {
    /// Every operation of the arena reads only earlier nodes.
    pub open spec fn wf(self) -> bool {
        nodes_wf(self@)
    }

    /// `v` names a node of this arena.
    pub open spec fn contains(self, v: Variable) -> bool {
        v.id_spec() < self@.len()
    }

    /// The expression that the node `v` computes.
    pub open spec fn expr_of(self, v: Variable) -> Expr {
        node_expr(self@, v.id_spec() as int)
    }

    /// `self` holds the nodes of `older` at the same places, and possibly more after them.
    pub open spec fn extends(self, older: Context) -> bool {
        &&& older@.len() <= self@.len()
        &&& forall|k: int| 0 <= k < older@.len() ==> #[trigger] self@[k] == older@[k]
    }

    /// Every variable of `older` names the same expression in `self`.
    pub proof fn lemma_extends(self, older: Context)
        requires
            self.extends(older),
        ensures
            forall|v: Variable| older.contains(v) ==> self.contains(v) && #[trigger] self.expr_of(v) == older.expr_of(v),
    {
        assert forall|v: Variable| older.contains(v) implies self.contains(v) && #[trigger] self.expr_of(v) == older.expr_of(v) by {
            lemma_node_expr_prefix(older@, self@, v.id_spec() as int);
        }
    }

    /// An empty arena.
    pub fn new() -> (ctx: Self)
        ensures
            ctx@ == Seq::<Node>::empty(),
            ctx.wf(),
    {
        Context { nodes: Vec::new() }
    }

    /// The number of nodes.
    pub fn len(&self) -> (n: usize)
        ensures
            n == self@.len(),
    {
        self.nodes.len()
    }

    /// The node at position `i`.
    pub fn node(&self, i: usize) -> (node: Node)
        requires
            i < self@.len(),
        ensures
            node == self@[i as int],
    {
        self.nodes[i]
    }

    fn push_node(&mut self, node: Node) -> (v: Variable)
        requires
            old(self).wf(),
            node_wf(node, old(self)@.len() as int),
        ensures
            final(self)@ == old(self)@.push(node),
            final(self).wf(),
            final(self).extends(*old(self)),
            v.id_spec() == old(self)@.len(),
            final(self).contains(v),
            final(self).expr_of(v) == node_expr(final(self)@, old(self)@.len() as int),
    {
        let id = self.nodes.len();
        self.nodes.push(node);
        proof {
            assert forall|i: int| 0 <= i < self@.len() implies node_wf(#[trigger] self@[i], i) by {
                if i < old(self)@.len() {
                    assert(self@[i] == old(self)@[i]);
                }
            }
        }
        Variable { id }
    }

    /// A new input node holding the binary32 number with bit pattern `bits`.
    pub fn variable(&mut self, bits: u32) -> (v: Variable)
        requires
            old(self).wf(),
        ensures
            final(self)@ == old(self)@.push(Node::Input(Leaf::Bits(bits))),
            final(self).wf(),
            final(self).extends(*old(self)),
            v.id_spec() == old(self)@.len(),
            final(self).contains(v),
            final(self).expr_of(v) == Expr::Var(old(self)@.len() as usize, Leaf::Bits(bits)),
    {
        self.push_node(Node::Input(Leaf::Bits(bits)))
    }

    /// A new constant node holding `leaf`.
    pub fn constant(&mut self, leaf: Leaf) -> (v: Variable)
        requires
            old(self).wf(),
        ensures
            final(self)@ == old(self)@.push(Node::Const(leaf)),
            final(self).wf(),
            final(self).extends(*old(self)),
            v.id_spec() == old(self)@.len(),
            final(self).contains(v),
            final(self).expr_of(v) == Expr::Const(leaf),
    {
        self.push_node(Node::Const(leaf))
    }

    /// A new node for `lhs + rhs`.
    pub fn add(&mut self, lhs: Variable, rhs: Variable) -> (v: Variable)
        requires
            old(self).wf(),
            old(self).contains(lhs),
            old(self).contains(rhs),
        ensures
            final(self)@ == old(self)@.push(Node::Apply(Op::Add(lhs.id_spec(), rhs.id_spec()))),
            final(self).wf(),
            final(self).extends(*old(self)),
            v.id_spec() == old(self)@.len(),
            final(self).contains(v),
            final(self).expr_of(v) == Expr::Add(Box::new(old(self).expr_of(lhs)), Box::new(old(self).expr_of(rhs))),
    {
        let v = self.push_node(Node::Apply(Op::Add(lhs.id, rhs.id)));
        proof {
            lemma_node_expr_prefix(old(self)@, self@, lhs.id as int);
            lemma_node_expr_prefix(old(self)@, self@, rhs.id as int);
        }
        v
    }

    /// A new node for `lhs - rhs`.
    pub fn sub(&mut self, lhs: Variable, rhs: Variable) -> (v: Variable)
        requires
            old(self).wf(),
            old(self).contains(lhs),
            old(self).contains(rhs),
        ensures
            final(self)@ == old(self)@.push(Node::Apply(Op::Sub(lhs.id_spec(), rhs.id_spec()))),
            final(self).wf(),
            final(self).extends(*old(self)),
            v.id_spec() == old(self)@.len(),
            final(self).contains(v),
            final(self).expr_of(v) == Expr::Sub(Box::new(old(self).expr_of(lhs)), Box::new(old(self).expr_of(rhs))),
    {
        let v = self.push_node(Node::Apply(Op::Sub(lhs.id, rhs.id)));
        proof {
            lemma_node_expr_prefix(old(self)@, self@, lhs.id as int);
            lemma_node_expr_prefix(old(self)@, self@, rhs.id as int);
        }
        v
    }

    /// A new node for `lhs * rhs`.
    pub fn mul(&mut self, lhs: Variable, rhs: Variable) -> (v: Variable)
        requires
            old(self).wf(),
            old(self).contains(lhs),
            old(self).contains(rhs),
        ensures
            final(self)@ == old(self)@.push(Node::Apply(Op::Mul(lhs.id_spec(), rhs.id_spec()))),
            final(self).wf(),
            final(self).extends(*old(self)),
            v.id_spec() == old(self)@.len(),
            final(self).contains(v),
            final(self).expr_of(v) == Expr::Mul(Box::new(old(self).expr_of(lhs)), Box::new(old(self).expr_of(rhs))),
    {
        let v = self.push_node(Node::Apply(Op::Mul(lhs.id, rhs.id)));
        proof {
            lemma_node_expr_prefix(old(self)@, self@, lhs.id as int);
            lemma_node_expr_prefix(old(self)@, self@, rhs.id as int);
        }
        v
    }

    /// A new node for `sin(inp)`.
    pub fn sin(&mut self, inp: Variable) -> (v: Variable)
        requires
            old(self).wf(),
            old(self).contains(inp),
        ensures
            final(self)@ == old(self)@.push(Node::Apply(Op::Sin(inp.id_spec()))),
            final(self).wf(),
            final(self).extends(*old(self)),
            v.id_spec() == old(self)@.len(),
            final(self).contains(v),
            final(self).expr_of(v) == Expr::Sin(Box::new(old(self).expr_of(inp))),
    {
        let v = self.push_node(Node::Apply(Op::Sin(inp.id)));
        proof {
            lemma_node_expr_prefix(old(self)@, self@, inp.id as int);
        }
        v
    }

    /// A new node for `max(inp, 0)`.
    pub fn relu(&mut self, inp: Variable) -> (v: Variable)
        requires
            old(self).wf(),
            old(self).contains(inp),
        ensures
            final(self)@ == old(self)@.push(Node::Apply(Op::ReLU(inp.id_spec()))),
            final(self).wf(),
            final(self).extends(*old(self)),
            v.id_spec() == old(self)@.len(),
            final(self).contains(v),
            final(self).expr_of(v) == Expr::Relu(Box::new(old(self).expr_of(inp))),
    {
        let v = self.push_node(Node::Apply(Op::ReLU(inp.id)));
        proof {
            lemma_node_expr_prefix(old(self)@, self@, inp.id as int);
        }
        v
    }
}

impl Context {
    /// Every variable of `s` names a node of this arena.
    pub open spec fn contains_vars(self, s: Seq<Variable>) -> bool {
        forall|i: int| 0 <= i < s.len() ==> self.contains(#[trigger] s[i])
    }

    /// The expressions of the variables of `s`.
    pub open spec fn exprs(self, s: Seq<Variable>) -> Seq<Expr> {
        Seq::new(s.len(), |i: int| self.expr_of(s[i]))
    }

    /// Growing the arena keeps the expressions of the variables it held.
    pub proof fn lemma_exprs_stable(self, older: Context, s: Seq<Variable>)
        requires
            self.extends(older),
            older.contains_vars(s),
        ensures
            self.contains_vars(s),
            self.exprs(s) == older.exprs(s),
    {
        self.lemma_extends(older);
        assert forall|i: int| 0 <= i < s.len() implies self.contains(#[trigger] s[i]) by {
            assert(older.contains(s[i]));
        }
        assert(self.exprs(s) =~= older.exprs(s)) by {
            assert forall|i: int| 0 <= i < s.len() implies #[trigger] self.exprs(s)[i] == older.exprs(s)[i] by {
                assert(older.contains(s[i]));
            }
        }
    }
}

/// The positions `start, start + 1, ..., start + len - 1`.
pub open spec fn id_range(start: int, len: nat) -> Seq<int> {
    Seq::new(len, |k: int| start + k)
}

/// The input nodes at the positions `ids`, holding the bit patterns `w`.
pub open spec fn leaves_at(ids: Seq<int>, w: Seq<u32>) -> Seq<Expr> {
    Seq::new(w.len(), |k: int| Expr::Var(ids[k] as usize, Leaf::Bits(w[k])))
}

pub proof fn lemma_leaves_at_append(i1: Seq<int>, w1: Seq<u32>, i2: Seq<int>, w2: Seq<u32>)
    requires
        i1.len() == w1.len(),
        i2.len() == w2.len(),
    ensures
        leaves_at(i1 + i2, w1 + w2) == leaves_at(i1, w1) + leaves_at(i2, w2),
{
    assert(leaves_at(i1 + i2, w1 + w2) =~= leaves_at(i1, w1) + leaves_at(i2, w2));
}

pub proof fn lemma_id_range_append(start: int, a: nat, b: nat)
    ensures
        id_range(start, a) + id_range(start + a, b) == id_range(start, a + b),
{
    assert(id_range(start, a) + id_range(start + a, b) =~= id_range(start, a + b));
}

impl Context {
    /// A variable whose expression is an input node at position `j` holding `leaf` is
    /// that node.
    pub proof fn lemma_var_node(self, v: Variable, j: usize, leaf: Leaf)
        requires
            self.contains(v),
            self.expr_of(v) == Expr::Var(j, leaf),
        ensures
            v.id_spec() == j,
            self@[v.id_spec() as int] == Node::Input(leaf),
    {
    }
}

/// The value of an expression in exact integer arithmetic, each leaf valued by `leaf`
/// and the sine by `sin`: the mathematical meaning of what a node computes.
pub open spec fn eval(e: Expr, leaf: spec_fn(Leaf) -> int, sin: spec_fn(int) -> int) -> int
    decreases e,
{
    match e {
        Expr::Var(_, l) => leaf(l),
        Expr::Const(l) => leaf(l),
        Expr::Add(a, b) => eval(*a, leaf, sin) + eval(*b, leaf, sin),
        Expr::Sub(a, b) => eval(*a, leaf, sin) - eval(*b, leaf, sin),
        Expr::Mul(a, b) => eval(*a, leaf, sin) * eval(*b, leaf, sin),
        Expr::Sin(a) => sin(eval(*a, leaf, sin)),
        Expr::Relu(a) => if eval(*a, leaf, sin) > 0 { eval(*a, leaf, sin) } else { 0 },
    }
}

} // verus!
