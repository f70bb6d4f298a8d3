use vstd::prelude::*;

use crate::tree::{Node, Tree};
use crate::value::{EvalError, Operator, Value};

verus! {

/// What the arithmetic `f` gives for `op` on `a` and `b`.
pub open spec fn apply_op<N, F: Fn(Operator, N, N) -> N>(f: F, op: Operator, a: N, b: N) -> N {
    choose|r: N| call_ensures(f, (op, a, b), r)
}

/// `f` accepts every input and gives one result for each.
pub open spec fn arith_ok<N, F: Fn(Operator, N, N) -> N>(f: F) -> bool {
    &&& forall|op: Operator, a: N, b: N| call_requires(f, (op, a, b))
    &&& forall|op: Operator, a: N, b: N, r: N| #[trigger]
        call_ensures(f, (op, a, b), r) ==> r == apply_op(f, op, a, b)
}

/// The value of the subtree at index `i`, following at most `fuel` levels of
/// links: a number leaf is itself; an operator applies `f` to the values of
/// both of its children. A node without a value, an operator with a child
/// missing, or running out of levels gives `BadTree`.
pub open spec fn eval_node<N, F: Fn(Operator, N, N) -> N>(
    ns: Seq<Node<Value<N>>>,
    i: int,
    f: F,
    fuel: nat,
) -> Result<N, EvalError>
    decreases fuel,
{
    if fuel == 0 || !(0 <= i < ns.len()) {
        Err(EvalError::BadTree)
    } else {
        match ns[i].value {
            None => Err(EvalError::BadTree),
            Some(Value::Value(x)) => Ok(x),
            Some(Value::Operator(op)) => match (ns[i].left, ns[i].right) {
                (Some(l), Some(r)) => match eval_node(ns, l as int, f, (fuel - 1) as nat) {
                    Ok(a) => match eval_node(ns, r as int, f, (fuel - 1) as nat) {
                        Ok(b) => Ok(apply_op(f, op, a, b)),
                        Err(e) => Err(e),
                    },
                    Err(e) => Err(e),
                },
                _ => Err(EvalError::BadTree),
            },
        }
    }
}

/// The value of a whole tree: that of its root, with as many levels as there
/// are nodes; `BadTree` for a tree without nodes.
pub open spec fn eval_tree<N, F: Fn(Operator, N, N) -> N>(t: Tree<Value<N>>, f: F) -> Result<
    N,
    EvalError,
> {
    match t.spec_head() {
        Some(h) => eval_node(t.spec_nodes(), h as int, f, t.spec_nodes().len() as nat),
        None => Err(EvalError::BadTree),
    }
}

/// The value stack `s` after collapsing, as long as its three newest entries
/// are an operator followed by two numbers, those three into the number that
/// `f` gives for them.
pub open spec fn collapse_top<N, F: Fn(Operator, N, N) -> N>(s: Seq<Value<N>>, f: F) -> Seq<
    Value<N>,
>
    decreases s.len(),
{
    if s.len() >= 3 {
        let n = s.len() - 3;
        match (s[n], s[n + 1], s[n + 2]) {
            (Value::Operator(op), Value::Value(a), Value::Value(b)) => collapse_top(
                s.take(n).push(Value::Value(apply_op(f, op, a, b))),
                f,
            ),
            _ => s,
        }
    } else {
        s
    }
}

pub open spec fn is_op<N>(v: Option<Value<N>>) -> bool {
    v matches Some(Value::Operator(_))
}

/// Node `i` is an operator whose two children are stored and hold values.
pub open spec fn inner_ok<N>(ns: Seq<Node<Value<N>>>, i: int) -> bool {
    &&& 0 <= i < ns.len()
    &&& is_op(ns[i].value)
    &&& ns[i].left matches Some(l) && 0 <= l < ns.len() && ns[l as int].value is Some
    &&& ns[i].right matches Some(r) && 0 <= r < ns.len() && ns[r as int].value is Some
}

/// The children of node `i` that are operators, left before right.
pub open spec fn op_kids<N>(ns: Seq<Node<Value<N>>>, i: int) -> Seq<usize> {
    let l = ns[i].left->Some_0;
    let r = ns[i].right->Some_0;
    (if is_op(ns[l as int].value) {
        seq![l]
    } else {
        seq![]
    }) + (if is_op(ns[r as int].value) {
        seq![r]
    } else {
        seq![]
    })
}

/// The values of the operator children of node `i`, evaluated with `k - 1`
/// levels.
pub open spec fn kid_values<N, F: Fn(Operator, N, N) -> N>(
    ns: Seq<Node<Value<N>>>,
    i: int,
    f: F,
    k: nat,
) -> Seq<N> {
    op_kids(ns, i).map_values(|x: usize| eval_node(ns, x as int, f, (k - 1) as nat)->Ok_0)
}

/// Iterations the register walk spends at node `i` and below it, with `k`
/// levels, from the moment it has `d` results of the node's operator
/// children in hand.
pub open spec fn rem_work<N>(ns: Seq<Node<Value<N>>>, i: int, k: nat, d: int) -> nat
    decreases k, 1nat,
{
    if k == 0 || !inner_ok(ns, i) {
        1
    } else {
        let kids = op_kids(ns, i);
        1 + (if d <= 0 && kids.len() > 0 {
            rem_work(ns, kids[0] as int, (k - 1) as nat, 0) + 1
        } else {
            0
        }) + (if d <= 1 && kids.len() > 1 {
            rem_work(ns, kids[1] as int, (k - 1) as nat, 0) + 1
        } else {
            0
        })
    }
}

/// Iterations still owed to the suspended operators in `frames`, where the
/// registers of the innermost one end at `blen`.
pub open spec fn frames_work<N>(ns: Seq<Node<Value<N>>>, frames: Seq<(usize, usize, usize)>, blen: int) -> nat
    decreases frames.len(),
{
    if frames.len() == 0 {
        0
    } else {
        let x = frames.last();
        rem_work(ns, x.0 as int, x.2 as nat, blen - x.1 + 1) + frames_work(
            ns,
            frames.drop_last(),
            x.1 as int,
        )
    }
}

/// The suspended operators `frames` (node, register base, levels) form a path
/// from the root `h` down to node `c`, walked with `k` levels; `pre` holds the
/// registers below `c`'s own. Each frame waits on its operator child `c` of
/// rank `d`; its first `d` operator children evaluate successfully, and,
/// where `good`, the frame's registers hold their values.
pub open spec fn frames_ok<N, F: Fn(Operator, N, N) -> N>(
    ns: Seq<Node<Value<N>>>,
    f: F,
    h: int,
    total: nat,
    frames: Seq<(usize, usize, usize)>,
    c: int,
    k: nat,
    pre: Seq<N>,
    good: bool,
) -> bool
    decreases frames.len(),
{
    if frames.len() == 0 {
        c == h && k == total && pre.len() == 0
    } else {
        let x = frames.last();
        let p = x.0 as int;
        let pb = x.1 as int;
        let pk = x.2 as nat;
        let d = pre.len() - pb;
        &&& pb <= pre.len()
        &&& inner_ok(ns, p)
        &&& pk >= 1 && k == pk - 1
        &&& d < op_kids(ns, p).len()
        &&& op_kids(ns, p)[d] == c
        &&& forall|t: int|
            0 <= t < d ==> eval_node(ns, #[trigger] op_kids(ns, p)[t] as int, f, (pk - 1) as nat) is Ok
        &&& good ==> eval_node(ns, p, f, pk) is Ok && pre.subrange(pb, pre.len() as int)
            == kid_values(ns, p, f, pk).take(d)
        &&& frames_ok(ns, f, h, total, frames.drop_last(), p, pk, pre.take(pb), good)
    }
}

proof fn lemma_eval_op<N, F: Fn(Operator, N, N) -> N>(
    ns: Seq<Node<Value<N>>>,
    f: F,
    c: int,
    k: nat,
    op: Operator,
    a: N,
    b: N,
)
    requires
        eval_node(ns, c, f, k) is Ok,
        ns[c].value == Some(Value::<N>::Operator(op)),
        a == eval_node(ns, ns[c].left->Some_0 as int, f, (k - 1) as nat)->Ok_0,
        b == eval_node(ns, ns[c].right->Some_0 as int, f, (k - 1) as nat)->Ok_0,
    ensures
        eval_node(ns, c, f, k) == Ok::<N, EvalError>(apply_op(f, op, a, b)),
{
}

proof fn lemma_err_is_bad_tree<N, F: Fn(Operator, N, N) -> N>(
    ns: Seq<Node<Value<N>>>,
    i: int,
    f: F,
    fuel: nat,
)
    ensures
        eval_node(ns, i, f, fuel) is Err ==> eval_node(ns, i, f, fuel) == Err::<N, EvalError>(
            EvalError::BadTree,
        ),
    decreases fuel,
{
    if fuel > 0 && 0 <= i < ns.len() {
        if let (Some(l), Some(r)) = (ns[i].left, ns[i].right) {
            lemma_err_is_bad_tree(ns, l as int, f, (fuel - 1) as nat);
            lemma_err_is_bad_tree(ns, r as int, f, (fuel - 1) as nat);
        }
    }
}

proof fn lemma_eval_op_ok<N, F: Fn(Operator, N, N) -> N>(
    ns: Seq<Node<Value<N>>>,
    f: F,
    c: int,
    k: nat,
    op: Operator,
)
    requires
        k >= 1,
        0 <= c < ns.len(),
        ns[c].value == Some(Value::<N>::Operator(op)),
        ns[c].left is Some,
        ns[c].right is Some,
        eval_node(ns, ns[c].left->Some_0 as int, f, (k - 1) as nat) is Ok,
        eval_node(ns, ns[c].right->Some_0 as int, f, (k - 1) as nat) is Ok,
    ensures
        eval_node(ns, c, f, k) is Ok,
{
}

proof fn lemma_rem_step<N>(ns: Seq<Node<Value<N>>>, i: int, k: nat, d: int)
    requires
        k > 0,
        inner_ok(ns, i),
        0 <= d < op_kids(ns, i).len(),
        op_kids(ns, i).len() <= 2,
    ensures
        rem_work(ns, i, k, d) == 1 + rem_work(ns, op_kids(ns, i)[d] as int, (k - 1) as nat, 0)
            + rem_work(ns, i, k, d + 1),
{
}

proof fn lemma_kids_are_ops<N>(ns: Seq<Node<Value<N>>>, i: int)
    requires
        inner_ok(ns, i),
    ensures
        op_kids(ns, i).len() <= 2,
        forall|t: int| 0 <= t < op_kids(ns, i).len() ==> {
            let x = #[trigger] op_kids(ns, i)[t];
            &&& 0 <= x < ns.len()
            &&& is_op(ns[x as int].value)
            &&& (x == ns[i].left->Some_0 || x == ns[i].right->Some_0)
        },
        is_op(ns[ns[i].left->Some_0 as int].value) ==> op_kids(ns, i)[0] == ns[i].left->Some_0,
        !is_op(ns[ns[i].left->Some_0 as int].value) && is_op(ns[ns[i].right->Some_0 as int].value)
            ==> op_kids(ns, i).len() == 1 && op_kids(ns, i)[0] == ns[i].right->Some_0,
        is_op(ns[ns[i].left->Some_0 as int].value) && is_op(ns[ns[i].right->Some_0 as int].value)
            ==> op_kids(ns, i).len() == 2 && op_kids(ns, i)[1] == ns[i].right->Some_0,
        is_op(ns[ns[i].left->Some_0 as int].value) && !is_op(ns[ns[i].right->Some_0 as int].value)
            ==> op_kids(ns, i).len() == 1,
        !is_op(ns[ns[i].left->Some_0 as int].value) && !is_op(ns[ns[i].right->Some_0 as int].value)
            ==> op_kids(ns, i).len() == 0,
{
}

/// Node `i` roots a well-formed expression within `fuel` levels: every
/// operator has both children, each again well-formed, and every number is a
/// leaf.
pub open spec fn expr_ok<N>(ns: Seq<Node<Value<N>>>, i: int, fuel: nat) -> bool
    decreases fuel,
{
    fuel > 0 && 0 <= i < ns.len() && match ns[i].value {
        Some(Value::Value(_)) => ns[i].left is None && ns[i].right is None,
        Some(Value::Operator(_)) => match (ns[i].left, ns[i].right) {
            (Some(l), Some(r)) => expr_ok(ns, l as int, (fuel - 1) as nat) && expr_ok(
                ns,
                r as int,
                (fuel - 1) as nat,
            ),
            _ => false,
        },
        None => false,
    }
}

/// A tree is a well-formed expression when its root is one within as many
/// levels as the tree has nodes.
pub open spec fn tree_expr_ok<N>(t: Tree<Value<N>>) -> bool {
    t.spec_head() matches Some(h) && expr_ok(t.spec_nodes(), h as int, t.spec_nodes().len() as nat)
}

proof fn lemma_expr_evaluates<N, F: Fn(Operator, N, N) -> N>(
    ns: Seq<Node<Value<N>>>,
    i: int,
    f: F,
    fuel: nat,
)
    requires
        expr_ok(ns, i, fuel),
    ensures
        eval_node(ns, i, f, fuel) is Ok,
    decreases fuel,
{
    if let Some(Value::Operator(_)) = ns[i].value {
        lemma_expr_evaluates(ns, ns[i].left->Some_0 as int, f, (fuel - 1) as nat);
        lemma_expr_evaluates(ns, ns[i].right->Some_0 as int, f, (fuel - 1) as nat);
    }
}

/// On a well-formed expression tree the recursive evaluation succeeds. As
/// `rec_evaluate` and `evaluate_it2` return the recursive evaluation on every
/// tree, and `evaluate_it1` returns it on every well-formed expression tree,
/// the three evaluators give the same value on every such tree.
pub proof fn lemma_evaluators_agree<N, F: Fn(Operator, N, N) -> N>(t: Tree<Value<N>>, f: F)
    requires
        t.wf(),
        tree_expr_ok(t),
    ensures
        eval_tree(t, f) is Ok,
{
    let h = t.spec_head()->Some_0;
    lemma_expr_evaluates(t.spec_nodes(), h as int, f, t.spec_nodes().len() as nat);
}

/// The value stack the pre-order walk holds when it has come down `path`
/// (node, levels, whether the walk went right) from the root: each operator on
/// the path, followed by the value of its left child where the walk went right.
pub open spec fn tokens<N, F: Fn(Operator, N, N) -> N>(
    ns: Seq<Node<Value<N>>>,
    f: F,
    path: Seq<(usize, usize, bool)>,
) -> Seq<Value<N>>
    decreases path.len(),
{
    if path.len() == 0 {
        seq![]
    } else {
        let x = path.last();
        let a = ns[x.0 as int];
        let front = tokens(ns, f, path.drop_last()).push(a.value->Some_0);
        if x.2 {
            front.push(
                Value::Value(eval_node(ns, a.left->Some_0 as int, f, (x.1 - 1) as nat)->Ok_0),
            )
        } else {
            front
        }
    }
}

/// The nodes of `path` (with their levels) where the walk went left: those
/// whose right subtree is still to be walked.
pub open spec fn left_ones(path: Seq<(usize, usize, bool)>) -> Seq<(usize, usize)>
    decreases path.len(),
{
    if path.len() == 0 {
        seq![]
    } else {
        let x = path.last();
        if x.2 {
            left_ones(path.drop_last())
        } else {
            left_ones(path.drop_last()).push((x.0, x.1))
        }
    }
}

/// `path` with its trailing right turns dropped and its last left turn made a
/// right turn: where the walk goes once the subtree it is in is done.
pub open spec fn flip(path: Seq<(usize, usize, bool)>) -> Seq<(usize, usize, bool)>
    decreases path.len(),
{
    if path.len() == 0 {
        path
    } else {
        let x = path.last();
        if x.2 {
            flip(path.drop_last())
        } else {
            path.drop_last().push((x.0, x.1, true))
        }
    }
}

/// `path` leads from the root `h`, walked with `total` levels, through
/// operators with both children down to node `c`, reached with `kc` levels;
/// where the walk went right, the left child is a well-formed expression.
pub open spec fn path_ok<N>(
    ns: Seq<Node<Value<N>>>,
    h: int,
    total: nat,
    path: Seq<(usize, usize, bool)>,
    c: int,
    kc: nat,
) -> bool
    decreases path.len(),
{
    if path.len() == 0 {
        c == h && kc == total
    } else {
        let x = path.last();
        let a = ns[x.0 as int];
        &&& x.1 >= 1 && kc == x.1 - 1
        &&& 0 <= x.0 < ns.len()
        &&& is_op(a.value)
        &&& a.left is Some && a.right is Some
        &&& (x.2 ==> expr_ok(ns, a.left->Some_0 as int, (x.1 - 1) as nat))
        &&& c == (if x.2 {
            a.right->Some_0
        } else {
            a.left->Some_0
        })
        &&& path_ok(ns, h, total, path.drop_last(), x.0 as int, x.1 as nat)
    }
}

/// Nodes met below and at `i` within `k` levels, counting shared ones again.
pub open spec fn tree_size<N>(ns: Seq<Node<Value<N>>>, i: int, k: nat) -> nat
    decreases k,
{
    if k == 0 || !(0 <= i < ns.len()) {
        1
    } else {
        1 + (match ns[i].left {
            Some(l) => tree_size(ns, l as int, (k - 1) as nat),
            None => 0,
        }) + (match ns[i].right {
            Some(r) => tree_size(ns, r as int, (k - 1) as nat),
            None => 0,
        })
    }
}

pub open spec fn ptrs_size<N>(ns: Seq<Node<Value<N>>>, ptrs: Seq<(usize, usize)>) -> nat
    decreases ptrs.len(),
{
    if ptrs.len() == 0 {
        0
    } else {
        let x = ptrs.last();
        (match ns[x.0 as int].right {
            Some(r) => tree_size(ns, r as int, (x.1 - 1) as nat),
            None => 0,
        }) + ptrs_size(ns, ptrs.drop_last())
    }
}

proof fn lemma_unwind<N, F: Fn(Operator, N, N) -> N>(
    ns: Seq<Node<Value<N>>>,
    f: F,
    h: int,
    total: nat,
    path: Seq<(usize, usize, bool)>,
    c: int,
    kc: nat,
)
    requires
        path_ok(ns, h, total, path, c, kc),
        expr_ok(ns, c, kc),
    ensures
        ({
            let v = eval_node(ns, c, f, kc)->Ok_0;
            let out = collapse_top(tokens(ns, f, path).push(Value::Value(v)), f);
            &&& flip(path).len() <= path.len()
            &&& forall|j: int|
                0 <= j < flip(path).len() ==> (#[trigger] flip(path)[j]).0 == path[j].0 && flip(
                    path,
                )[j].1 == path[j].1
            &&& if left_ones(path).len() == 0 {
                &&& out == seq![Value::<N>::Value(eval_node(ns, h, f, total)->Ok_0)]
                &&& expr_ok(ns, h, total)
            } else {
                let fp = flip(path);
                let x = fp.last();
                &&& fp.len() > 0
                &&& x.2
                &&& out == tokens(ns, f, fp)
                &&& left_ones(path).last() == (x.0, x.1)
                &&& left_ones(fp) == left_ones(path).drop_last()
                &&& path_ok(ns, h, total, fp, ns[x.0 as int].right->Some_0 as int, (x.1 - 1) as nat)
            }
        }),
    decreases path.len(),
{
    lemma_expr_evaluates(ns, c, f, kc);
    let v = eval_node(ns, c, f, kc)->Ok_0;
    if path.len() == 0 {
        assert(tokens(ns, f, path).push(Value::Value(v)) =~= seq![Value::<N>::Value(v)]);
    } else {
        let x = path.last();
        let a = ns[x.0 as int];
        let dl = path.drop_last();
        let t0 = tokens(ns, f, dl);
        if x.2 {
            let lv = eval_node(ns, a.left->Some_0 as int, f, (x.1 - 1) as nat)->Ok_0;
            let s = t0.push(a.value->Some_0).push(Value::Value(lv)).push(Value::Value(v));
            assert(tokens(ns, f, path).push(Value::Value(v)) == s);
            let n = s.len() - 3;
            assert(s.take(n) =~= t0);
            let op = a.value->Some_0->Operator_0;
            assert(expr_ok(ns, x.0 as int, x.1 as nat));
            lemma_expr_evaluates(ns, x.0 as int, f, x.1 as nat);
            lemma_eval_op(ns, f, x.0 as int, x.1 as nat, op, lv, v);
            lemma_unwind(ns, f, h, total, dl, x.0 as int, x.1 as nat);
            assert(flip(path) == flip(dl));
            assert(left_ones(path) == left_ones(dl));
        } else {
            let s = t0.push(a.value->Some_0).push(Value::Value(v));
            assert(tokens(ns, f, path).push(Value::Value(v)) == s);
            let fp = flip(path);
            assert(fp == dl.push((x.0, x.1, true)));
            assert(fp.drop_last() =~= dl);
            assert(left_ones(fp) == left_ones(dl));
            assert(path_ok(ns, h, total, fp, a.right->Some_0 as int, (x.1 - 1) as nat));
            assert(tokens(ns, f, fp) == s);
        }
    }
}

impl<N: Copy> Tree<Value<N>> {
    fn rec_node<F: Fn(Operator, N, N) -> N>(&self, i: usize, f: &F, fuel: usize) -> (r: Result<
        N,
        EvalError,
    >)
        requires
            self.wf(),
            arith_ok(*f),
        ensures
            r == eval_node(self.spec_nodes(), i as int, *f, fuel as nat),
        decreases fuel,
    {
        if fuel == 0 || i >= self.len() {
            return Err(EvalError::BadTree);
        }
        let nd = self.node(i);
        match nd.value {
            None => Err(EvalError::BadTree),
            Some(Value::Value(x)) => Ok(x),
            Some(Value::Operator(op)) => match (nd.left, nd.right) {
                (Some(l), Some(r)) => {
                    let a = match self.rec_node(l, f, fuel - 1) {
                        Ok(a) => a,
                        Err(e) => return Err(e),
                    };
                    let b = match self.rec_node(r, f, fuel - 1) {
                        Ok(b) => b,
                        Err(e) => return Err(e),
                    };
                    let v = f(op, a, b);
                    Ok(v)
                },
                _ => Err(EvalError::BadTree),
            },
        }
    }

    /// Evaluates the tree by recursion from the root, combining the two
    /// children of each operator with `f` after both are evaluated. An
    /// operator missing a child, a node without a value, or an empty tree
    /// gives `BadTree`; no default value stands in for a missing child.
    pub fn rec_evaluate<F: Fn(Operator, N, N) -> N>(&self, f: &F) -> (r: Result<N, EvalError>)
        requires
            self.wf(),
            arith_ok(*f),
        ensures
            r == eval_tree(*self, *f),
    {
        match self.head() {
            Some(h) => self.rec_node(h, f, self.len()),
            None => Err(EvalError::BadTree),
        }
    }

    /// Collapses the newest entries of `vals` as `collapse_top` describes.
    fn collapse<F: Fn(Operator, N, N) -> N>(vals: &mut Vec<Value<N>>, f: &F)
        requires
            arith_ok(*f),
        ensures
            final(vals)@ == collapse_top(old(vals)@, *f),
    {
        loop
            invariant
                arith_ok(*f),
                collapse_top(vals@, *f) == collapse_top(old(vals)@, *f),
            ensures
                vals@ == collapse_top(old(vals)@, *f),
            decreases vals.len(),
        {
            let n = vals.len();
            if n < 3 {
                return;
            }
            match (vals[n - 3], vals[n - 2], vals[n - 1]) {
                (Value::Operator(op), Value::Value(a), Value::Value(b)) => {
                    let ghost s = vals@;
                    vals.pop();
                    vals.pop();
                    vals.pop();
                    let v = f(op, a, b);
                    vals.push(Value::Value(v));
                    proof {
                        assert(vals@ =~= s.take(n - 3).push(Value::Value(apply_op(*f, op, a, b))));
                    }
                },
                _ => {
                    return;
                },
            }
        }
    }

    /// Evaluates the tree by a pre-order walk with two stacks: the values met,
    /// and the nodes (with their levels left) whose right subtree is still to
    /// be walked. After each value is pushed, an operator followed by two
    /// numbers on top of the value stack collapses into one number. A node
    /// without a value, an operator missing a child, or a number with a child
    /// gives `BadTree`; so a well-formed expression tree gives the recursive
    /// evaluation, and every other tree `BadTree`.
    #[verifier::rlimit(50)]
    pub fn evaluate_it1<F: Fn(Operator, N, N) -> N>(&mut self, f: &F) -> (r: Result<N, EvalError>)
        requires
            old(self).wf(),
            arith_ok(*f),
        ensures
            final(self).wf(),
            final(self).spec_nodes() == old(self).spec_nodes(),
            final(self).spec_head() == old(self).spec_head(),
            r == if tree_expr_ok(*old(self)) {
                eval_tree(*old(self), *f)
            } else {
                Err::<N, EvalError>(EvalError::BadTree)
            },
    {
        self.select_root();
        let h = match self.head() {
            Some(h) => h,
            None => return Err(EvalError::BadTree),
        };
        let ghost ns = self.spec_nodes();
        let ghost total = ns.len() as nat;
        let ghost good = tree_expr_ok(*old(self));
        let mut val_stack: Vec<Value<N>> = Vec::new();
        let mut ptr_stack: Vec<(usize, usize)> = Vec::new();
        let mut c: usize = h;
        let mut k: usize = self.len();
        let ghost mut path: Seq<(usize, usize, bool)> = Seq::empty();
        loop
            invariant
                self.wf(),
                arith_ok(*f),
                self.spec_nodes() == ns,
                self.spec_head() == Some(h),
                ns == old(self).spec_nodes(),
                total == ns.len(),
                old(self).spec_head() == Some(h),
                good == tree_expr_ok(*old(self)),
                self.spec_current() == Some(c),
                c < ns.len(),
                forall|j: int|
                    0 <= j < ptr_stack@.len() ==> ptr_stack@[j].0 < ns.len() && ptr_stack@[j].1
                        >= 1,
                path_ok(ns, h as int, total, path, c as int, k as nat),
                val_stack@ == tokens(ns, *f, path),
                ptr_stack@ == left_ones(path),
                good ==> expr_ok(ns, c as int, k as nat),
                good ==> forall|j: int|
                    0 <= j < path.len() ==> expr_ok(ns, (#[trigger] path[j]).0 as int, path[j].1 as nat),
            decreases tree_size(ns, c as int, k as nat) + ptrs_size(ns, ptr_stack@),
        {
            if k == 0 {
                return Err(EvalError::BadTree);
            }
            let nd = self.node(c);
            let v = match nd.value {
                Some(v) => v,
                None => return Err(EvalError::BadTree),
            };
            let leaf = match v {
                Value::Value(_) => true,
                Value::Operator(_) => false,
            };
            if leaf && (nd.left.is_some() || nd.right.is_some()) {
                return Err(EvalError::BadTree);
            }
            if !leaf && (nd.left.is_none() || nd.right.is_none()) {
                return Err(EvalError::BadTree);
            }
            val_stack.push(v);
            proof {
                assert(ptr_stack@.push((c, k)).drop_last() =~= ptr_stack@);
            }
            match nd.left {
                Some(l) => {
                    proof {
                        assert(crate::tree::node_ok(ns, c as int));
                        let p2 = path.push((c, k, false));
                        assert(p2.drop_last() =~= path);
                        assert(val_stack@ =~= tokens(ns, *f, p2));
                        assert(left_ones(p2) == ptr_stack@.push((c, k)));
                        assert(forall|j: int| 0 <= j < path.len() ==> p2[j] == path[j]);
                        path = p2;
                    }
                    ptr_stack.push((c, k));
                    c = l;
                    k = k - 1;
                    self.move_to(c);
                },
                None => {
                    let ghost vals0 = val_stack@;
                    let ghost path0 = path;
                    proof {
                        assert(expr_ok(ns, c as int, k as nat));
                        lemma_expr_evaluates(ns, c as int, *f, k as nat);
                        assert(v == Value::<N>::Value(eval_node(ns, c as int, *f, k as nat)->Ok_0));
                        lemma_unwind(ns, *f, h as int, total, path, c as int, k as nat);
                    }
                    let ghost old_ptrs = ptr_stack@;
                    match ptr_stack.pop() {
                        Some(x) => {
                            let (p, pk) = x;
                            proof {
                                assert(ptr_stack@ =~= old_ptrs.drop_last());
                            }
                            match self.node(p).right {
                                Some(rt) => {
                                    proof {
                                        assert(crate::tree::node_ok(ns, p as int));
                                        path = flip(path0);
                                        if good {
                                            let j = path.len() - 1;
                                            assert(path[j].0 == path0[j].0);
                                            assert(expr_ok(ns, p as int, pk as nat));
                                        }
                                    }
                                    c = rt;
                                    k = pk - 1;
                                    self.move_to(c);
                                },
                                None => return Err(EvalError::BadTree),
                            }
                        },
                        None => {
                            Self::collapse(&mut val_stack, f);
                            proof {
                                assert(vals0 == tokens(ns, *f, path).push(v));
                                lemma_expr_evaluates(ns, h as int, *f, total);
                                assert(val_stack@ == seq![
                                    Value::<N>::Value(eval_node(ns, h as int, *f, total)->Ok_0),
                                ]);
                            }
                            if val_stack.len() == 1 {
                                match val_stack.pop() {
                                    Some(Value::Value(x)) => return Ok(x),
                                    _ => return Err(EvalError::BadTree),
                                }
                            } else {
                                return Err(EvalError::BadTree);
                            }
                        },
                    }
                },
            }
            Self::collapse(&mut val_stack, f);
        }
    }

    /// Evaluates the tree by a cursor walk that keeps partial results in a
    /// register stack and, for each operator it has descended from, the node,
    /// the register height at which that operator's results begin, and the
    /// levels left. At an operator whose two children are settled (numbers,
    /// or results in the registers), `f` combines them into one register and
    /// the walk backs up; otherwise it descends into the first unsettled
    /// child. On every tree it returns what the recursive evaluation does:
    /// its value, or `BadTree`.
    #[verifier::rlimit(50)]
    pub fn evaluate_it2<F: Fn(Operator, N, N) -> N>(&mut self, f: &F) -> (r: Result<N, EvalError>)
        requires
            old(self).wf(),
            arith_ok(*f),
        ensures
            final(self).wf(),
            final(self).spec_nodes() == old(self).spec_nodes(),
            final(self).spec_head() == old(self).spec_head(),
            r == eval_tree(*old(self), *f),
    {
        self.select_root();
        let h = match self.head() {
            Some(h) => h,
            None => return Err(EvalError::BadTree),
        };
        let ghost ns = self.spec_nodes();
        proof {
            lemma_err_is_bad_tree(ns, h as int, *f, ns.len() as nat);
        }
        let ghost good = eval_tree(*old(self), *f) is Ok;
        let mut regs: Vec<N> = Vec::new();
        let mut frames: Vec<(usize, usize, usize)> = Vec::new();
        let mut base: usize = 0;
        let mut c: usize = h;
        let mut k: usize = self.len();
        proof {
            assert(regs@.take(0) =~= Seq::<N>::empty());
            assert(regs@.subrange(0, 0) =~= kid_values(ns, c as int, *f, k as nat).take(0));
        }
        loop
            invariant
                self.wf(),
                arith_ok(*f),
                self.spec_nodes() == ns,
                self.spec_head() == Some(h),
                ns == old(self).spec_nodes(),
                old(self).spec_head() == Some(h),
                good == (eval_tree(*old(self), *f) is Ok),
                self.spec_current() == Some(c),
                c < ns.len(),
                base <= regs@.len(),
                frames_ok(ns, *f, h as int, ns.len() as nat, frames@, c as int, k as nat,
                    regs@.take(base as int), good),
                regs@.len() == base || (inner_ok(ns, c as int) && regs@.len() - base <= op_kids(
                    ns,
                    c as int,
                ).len()),
                good ==> eval_node(ns, c as int, *f, k as nat) is Ok,
                eval_node(ns, h as int, *f, ns.len() as nat) is Err ==> eval_node(ns, h as int, *f, ns.len() as nat)
                    == Err::<N, EvalError>(EvalError::BadTree),
                inner_ok(ns, c as int) ==> forall|t: int|
                    0 <= t < regs@.len() - base ==> eval_node(
                        ns,
                        #[trigger] op_kids(ns, c as int)[t] as int,
                        *f,
                        (k - 1) as nat,
                    ) is Ok,
                good ==> regs@.subrange(base as int, regs@.len() as int) == kid_values(
                    ns,
                    c as int,
                    *f,
                    k as nat,
                ).take(regs@.len() - base),
                frames@.len() == 0 ==> base == 0,
                frames@.len() > 0 || c == h,
            decreases rem_work(ns, c as int, k as nat, regs@.len() - base) + frames_work(
                ns,
                frames@,
                base as int,
            ),
        {
            if k == 0 {
                return Err(EvalError::BadTree);
            }
            let op = match self.node(c).value {
                Some(Value::Value(x)) => {
                    proof {
                        if frames@.len() > 0 {
                            let x = frames@.last();
                            lemma_kids_are_ops(ns, x.0 as int);
                            assert(op_kids(ns, x.0 as int)[regs@.take(base as int).len() - x.1] == c);
                        }
                    }
                    return Ok(x);
                },
                Some(Value::Operator(op)) => op,
                None => return Err(EvalError::BadTree),
            };
            proof {
                assert(crate::tree::node_ok(ns, c as int));
            }
            proof {
                if good {
                    assert(eval_node(ns, c as int, *f, k as nat) is Ok);
                    assert(ns[c as int].left is Some && ns[c as int].right is Some);
                }
            }
            let (l, rt) = match (self.node(c).left, self.node(c).right) {
                (Some(l), Some(rt)) => (l, rt),
                _ => return Err(EvalError::BadTree),
            };
            proof {
                if good {
                    assert(eval_node(ns, l as int, *f, (k - 1) as nat) is Ok);
                    assert(eval_node(ns, rt as int, *f, (k - 1) as nat) is Ok);
                }
            }
            let (lv, rv) = match (self.node(l).value, self.node(rt).value) {
                (Some(lv), Some(rv)) => (lv, rv),
                _ => return Err(EvalError::BadTree),
            };
            if k < 2 {
                return Err(EvalError::BadTree);
            }
            proof {
                if let Some(Value::Value(x)) = ns[l as int].value {
                    assert(eval_node(ns, l as int, *f, (k - 1) as nat) == Ok::<N, EvalError>(x));
                }
                if let Some(Value::Value(x)) = ns[rt as int].value {
                    assert(eval_node(ns, rt as int, *f, (k - 1) as nat) == Ok::<N, EvalError>(x));
                }
            }
            let ghost kv = kid_values(ns, c as int, *f, k as nat);
            proof {
                if good {
                    let rs = regs@.subrange(base as int, regs@.len() as int);
                    assert(forall|t: int| 0 <= t < rs.len() ==> rs[t] == regs@[base + t]);
                    assert(forall|t: int| 0 <= t < rs.len() ==> rs[t] == kv[t]);
                    if let Some(Value::Value(x)) = ns[l as int].value {
                        assert(eval_node(ns, l as int, *f, (k - 1) as nat) == Ok::<N, EvalError>(x));
                    }
                    if let Some(Value::Value(x)) = ns[rt as int].value {
                        assert(eval_node(ns, rt as int, *f, (k - 1) as nat) == Ok::<N, EvalError>(x));
                    }
                }
            }
            proof {
                lemma_kids_are_ops(ns, c as int);
            }
            let ghost regs0 = regs@;
            let ghost d = regs@.len() - base;
            let done = regs.len() - base;
            let mut descend: Option<usize> = None;
            match (lv, rv) {
                (Value::Value(a), Value::Value(b)) => {
                    let v = f(op, a, b);
                    proof {
                        if good {
                            lemma_eval_op(ns, *f, c as int, k as nat, op, a, b);
                        }
                    }
                    regs.push(v);
                },
                (Value::Operator(_), Value::Value(b)) => {
                    if done >= 1 {
                        let a = regs.pop().unwrap();
                        let v = f(op, a, b);
                        proof {
                            if good {
                                assert(a == kv[0]);
                                lemma_eval_op(ns, *f, c as int, k as nat, op, a, b);
                            }
                        }
                        regs.push(v);
                    } else {
                        descend = Some(l);
                    }
                },
                (Value::Value(a), Value::Operator(_)) => {
                    if done >= 1 {
                        let b = regs.pop().unwrap();
                        let v = f(op, a, b);
                        proof {
                            if good {
                                assert(b == kv[0]);
                                lemma_eval_op(ns, *f, c as int, k as nat, op, a, b);
                            }
                        }
                        regs.push(v);
                    } else {
                        descend = Some(rt);
                    }
                },
                (Value::Operator(_), Value::Operator(_)) => {
                    if done >= 2 {
                        let b = regs.pop().unwrap();
                        let a = regs.pop().unwrap();
                        let v = f(op, a, b);
                        proof {
                            if good {
                                assert(a == kv[0]);
                                assert(b == kv[1]);
                                lemma_eval_op(ns, *f, c as int, k as nat, op, a, b);
                            }
                        }
                        regs.push(v);
                    } else if done == 1 {
                        descend = Some(rt);
                    } else {
                        descend = Some(l);
                    }
                },
            }
            match descend {
                Some(next) => {
                    proof {
                        assert(next == op_kids(ns, c as int)[d]);
                        lemma_rem_step(ns, c as int, k as nat, d);
                        assert(regs@.take(regs@.len() as int) =~= regs@);
                        let fr = frames@.push((c, base, k));
                        assert(fr.drop_last() =~= frames@);
                        assert(fr.last() == (c, base, k));
                        assert(regs@.take(base as int) =~= regs@.take(regs@.len() as int).take(base as int));
                        assert(regs@.subrange(regs@.len() as int, regs@.len() as int) =~= kid_values(
                            ns, next as int, *f, (k - 1) as nat).take(0));
                    }
                    frames.push((c, base, k));
                    base = regs.len();
                    c = next;
                    k = k - 1;
                    self.move_to(c);
                },
                None => {
                    proof {
                        assert(d == op_kids(ns, c as int).len());
                        if is_op(ns[l as int].value) {
                            assert(op_kids(ns, c as int)[0] == l);
                        }
                        if is_op(ns[rt as int].value) {
                            assert(op_kids(ns, c as int)[op_kids(ns, c as int).len() - 1] == rt);
                        }
                        lemma_eval_op_ok(ns, *f, c as int, k as nat, op);
                        assert(regs@ =~= regs0.take(base as int).push(regs@.last()));
                        if good {
                            assert(regs@.last() == eval_node(ns, c as int, *f, k as nat)->Ok_0);
                        }
                    }
                    let ghost f0 = frames@;
                    match frames.pop() {
                        Some(x) => {
                            let (p, pb, pk) = x;
                            proof {
                                assert(frames@ =~= f0.drop_last());
                                let pre = regs0.take(base as int);
                                let dp = pre.len() - pb;
                                lemma_kids_are_ops(ns, p as int);
                                assert(regs@.take(pb as int) =~= pre.take(pb as int));
                                assert(frames_ok(ns, *f, h as int, ns.len() as nat, frames@, p as int,
                                    pk as nat, pre.take(pb as int), good));
                                if frames@.len() == 0 {
                                    assert(pre.take(pb as int).len() == 0);
                                }
                                if good {
                                    let kv = kid_values(ns, p as int, *f, pk as nat);
                                    assert(kv[dp] == eval_node(ns, c as int, *f, k as nat)->Ok_0);
                                    assert(regs@.subrange(pb as int, regs@.len() as int) =~= pre.subrange(
                                        pb as int,
                                        pre.len() as int,
                                    ).push(regs@.last()));
                                    assert(kv.take(dp + 1) =~= kv.take(dp).push(kv[dp]));
                                }
                            }
                            base = pb;
                            c = p;
                            k = pk;
                            self.move_to(p);
                        },
                        None => {
                            let n = regs.len();
                            proof {
                                assert(f0.len() == 0);
                            }
                            return Ok(regs[n - 1]);
                        },
                    }
                },
            }
        }
    }
}

} // verus!
