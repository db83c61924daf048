use vstd::prelude::*;
use vstd::string::StringExecFns;

verus! {

/// The operators of the modal mu-calculus; `NoBinder` marks a fixed point that
/// no other fixed point encloses.
#[derive(Debug, PartialEq, Eq, Clone, Copy, Structural)]
pub enum Operator {
    SimpleFalse,
    SimpleTrue,
    Conjunction,
    Disjunction,
    DiamondModality,
    BoxModality,
    LeastFixpoint,
    GreatestFixpoint,
    NoBinder,
}

/// A node of a formula. A modality is a `BinaryExpr` whose left side is the
/// `Action`; a fixed point records the operator of the nearest enclosing one.
#[derive(Debug)]
pub enum Node {
    Variable(String),
    Action(String),
    UnaryExpr { op: Operator },
    BinaryExpr { op: Operator, lhs: Box<Node>, rhs: Box<Node> },
    FixPointExpr { op: Operator, variable: String, rhs: Box<Node>, surrounding_binder: Operator },
}

/// A formula, by its root.
pub struct Formula {
    pub root_node: Node,
}

/// The variables bound by fixed points in `n`.
pub open spec fn binders(n: Node) -> Set<Seq<char>>
    decreases n,
{
    match n {
        Node::BinaryExpr { lhs, rhs, .. } => binders(*lhs).union(binders(*rhs)),
        Node::FixPointExpr { variable, rhs, .. } => binders(*rhs).insert(variable@),
        _ => Set::empty(),
    }
}

/// The variables that occur in `n` outside a fixed point binding them.
pub open spec fn free_vars(n: Node) -> Set<Seq<char>>
    decreases n,
{
    match n {
        Node::Variable(x) => set![x@],
        Node::BinaryExpr { lhs, rhs, .. } => free_vars(*lhs).union(free_vars(*rhs)),
        Node::FixPointExpr { variable, rhs, .. } => free_vars(*rhs).remove(variable@),
        _ => Set::empty(),
    }
}

/// `n` is a formula the evaluators accept: every node has a shape that the
/// semantics gives a meaning to, and no fixed point rebinds a variable that is
/// in use around it.
pub open spec fn well_formed(n: Node) -> bool
    decreases n,
{
    match n {
        Node::Variable(_) => true,
        Node::Action(_) => false,
        Node::UnaryExpr { op } => op == Operator::SimpleTrue || op == Operator::SimpleFalse,
        Node::BinaryExpr { op, lhs, rhs } => {
            if op == Operator::Conjunction || op == Operator::Disjunction {
                &&& well_formed(*lhs)
                &&& well_formed(*rhs)
                &&& binders(*lhs).disjoint(free_vars(*rhs))
            } else if op == Operator::DiamondModality || op == Operator::BoxModality {
                &&& (*lhs) is Action
                &&& well_formed(*rhs)
            } else {
                false
            }
        },
        Node::FixPointExpr { op, variable, rhs, .. } => {
            &&& (op == Operator::LeastFixpoint || op == Operator::GreatestFixpoint)
            &&& well_formed(*rhs)
            &&& !binders(*rhs).contains(variable@)
            &&& binders(*rhs).disjoint(free_vars(*rhs))
        },
    }
}

/// The name of an operator, as `Debug` writes it.
pub open spec fn op_text(op: Operator) -> Seq<char> {
    match op {
        Operator::SimpleFalse => "SimpleFalse"@,
        Operator::SimpleTrue => "SimpleTrue"@,
        Operator::Conjunction => "Conjunction"@,
        Operator::Disjunction => "Disjunction"@,
        Operator::DiamondModality => "DiamondModality"@,
        Operator::BoxModality => "BoxModality"@,
        Operator::LeastFixpoint => "LeastFixpoint"@,
        Operator::GreatestFixpoint => "GreatestFixpoint"@,
        Operator::NoBinder => "NoBinder"@,
    }
}

fn op_name(op: Operator) -> (r: &'static str)
    ensures
        r@ == op_text(op),
{
    match op {
        Operator::SimpleFalse => "SimpleFalse",
        Operator::SimpleTrue => "SimpleTrue",
        Operator::Conjunction => "Conjunction",
        Operator::Disjunction => "Disjunction",
        Operator::DiamondModality => "DiamondModality",
        Operator::BoxModality => "BoxModality",
        Operator::LeastFixpoint => "LeastFixpoint",
        Operator::GreatestFixpoint => "GreatestFixpoint",
        Operator::NoBinder => "NoBinder",
    }
}

/// What `format!("{:?}", s)` writes for the string `s`.
pub uninterp spec fn debug_text(s: Seq<char>) -> Seq<char>;

/// Relies on `Debug` for `str`: the string quoted, with escapes.
#[verifier::external_body]
fn debug_quoted(s: &str) -> (r: String)
    ensures
        r@ == debug_text(s@),
{
    format!("{:?}", s)
}

/// `n` spaces.
pub open spec fn spaces(n: nat) -> Seq<char> {
    Seq::new(n, |i: int| ' ')
}

/// One line of the tree view: `indent` spaces, `head`, `(`, `body`, `)`, CR LF.
pub open spec fn ast_line(indent: nat, head: Seq<char>, body: Seq<char>) -> Seq<char> {
    spaces(indent) + head + "("@ + body + ")\r\n"@
}

/// The tree view of `n`, each level indented four spaces more.
pub open spec fn ast_text(n: Node, indent: nat) -> Seq<char>
    decreases n,
{
    match n {
        Node::Variable(x) => ast_line(indent, "Variable"@, x@),
        Node::Action(a) => ast_line(indent, "Action"@, debug_text(a@)),
        Node::UnaryExpr { op } => ast_line(indent, "UnaryExpr"@, op_text(op)),
        Node::BinaryExpr { op, lhs, rhs } => ast_line(indent, "BinaryExpr"@, op_text(op))
            + ast_text(*lhs, indent + 4) + ast_text(*rhs, indent + 4),
        Node::FixPointExpr { op, variable, rhs, .. } => ast_line(indent, "FixPointExpr"@, op_text(op))
            + ast_line(indent + 4, "Variable"@, variable@) + ast_text(*rhs, indent + 4),
    }
}

fn push_line(out: &mut String, indent: usize, head: &str, body: &str)
    ensures
        final(out)@ == old(out)@ + ast_line(indent as nat, head@, body@),
{
    let mut i: usize = 0;
    while i < indent
        invariant
            i <= indent,
            out@ == old(out)@ + spaces(i as nat),
        decreases indent - i,
    {
        out.append(" ");
        proof { reveal_strlit(" "); }
        i = i + 1;
        assert(out@ =~= old(out)@ + spaces(i as nat));
    }
    out.append(head);
    out.append("(");
    out.append(body);
    out.append(")\r\n");
    assert(out@ =~= old(out)@ + ast_line(indent as nat, head@, body@));
}

/// The tree view of `node`, starting `indent` spaces in.
pub fn print_ast(node: &Node, indent: usize) -> (r: String)
    requires
        indent + 4 * node_depth(*node) <= usize::MAX,
    ensures
        r@ == ast_text(*node, indent as nat),
    decreases node,
{
    let mut output = String::new();
    match node {
        Node::Variable(var) => {
            push_line(&mut output, indent, "Variable", var.as_str());
        },
        Node::Action(act) => {
            let q = debug_quoted(act.as_str());
            push_line(&mut output, indent, "Action", q.as_str());
        },
        Node::UnaryExpr { op } => {
            push_line(&mut output, indent, "UnaryExpr", op_name(*op));
        },
        Node::BinaryExpr { op, lhs, rhs } => {
            push_line(&mut output, indent, "BinaryExpr", op_name(*op));
            let l = print_ast(lhs, indent + 4);
            output.append(l.as_str());
            let r = print_ast(rhs, indent + 4);
            output.append(r.as_str());
        },
        Node::FixPointExpr { op, variable, rhs, .. } => {
            push_line(&mut output, indent, "FixPointExpr", op_name(*op));
            push_line(&mut output, indent + 4, "Variable", variable.as_str());
            let r = print_ast(rhs, indent + 4);
            output.append(r.as_str());
        },
    }
    output
}

/// The number of nested levels of `n`.
pub open spec fn node_depth(n: Node) -> nat
    decreases n,
{
    match n {
        Node::BinaryExpr { lhs, rhs, .. } => 1 + if node_depth(*lhs) >= node_depth(*rhs) { node_depth(*lhs) } else { node_depth(*rhs) },
        Node::FixPointExpr { rhs, .. } => 1 + node_depth(*rhs),
        _ => 1,
    }
}

/// The number of nested levels of `node`, capped at `u64::MAX`.
pub fn formula_depth(node: &Node) -> (r: u64)
    ensures
        r == if node_depth(*node) > u64::MAX { u64::MAX as nat } else { node_depth(*node) },
    decreases node,
{
    match node {
        Node::BinaryExpr { lhs, rhs, .. } => {
            let l = formula_depth(lhs);
            let r = formula_depth(rhs);
            let m = if l >= r { l } else { r };
            if m < u64::MAX { m + 1 } else { u64::MAX }
        },
        Node::FixPointExpr { rhs, .. } => {
            let m = formula_depth(rhs);
            if m < u64::MAX { m + 1 } else { u64::MAX }
        },
        _ => 1,
    }
}

} // verus!
