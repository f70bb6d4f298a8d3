use vstd::prelude::*;

verus! {

/// A binary arithmetic operator.
#[derive(PartialEq, Eq, Structural, Debug, Clone, Copy)]
pub enum Operator {
    Plus,
    Minus,
    Mult,
    Div,
}

impl Operator {
    /// The operator's symbol.
    pub fn symbol(&self) -> (r: char)
        ensures
            r == op_symbol(*self),
    {
        match self {
            Operator::Plus => '+',
            Operator::Minus => '-',
            Operator::Mult => '*',
            Operator::Div => '/',
        }
    }
}

pub open spec fn op_symbol(op: Operator) -> char {
    match op {
        Operator::Plus => '+',
        Operator::Minus => '-',
        Operator::Mult => '*',
        Operator::Div => '/',
    }
}

/// The payload of an expression-tree node: a number of type `N`, or an operator.
#[derive(PartialEq, Eq, Structural, Debug, Clone, Copy)]
pub enum Value<N> {
    Value(N),
    Operator(Operator),
}

impl<N> Value<N> {
    /// An operator payload.
    pub fn new_op(op: Operator) -> (r: Value<N>)
        ensures
            r == Value::<N>::Operator(op),
    {
        Value::Operator(op)
    }

    /// A number payload.
    pub fn new_f64(val: N) -> (r: Value<N>)
        ensures
            r == Value::<N>::Value(val),
    {
        Value::Value(val)
    }
}

#[derive(PartialEq, Eq, Structural, Debug, Clone, Copy)]
pub enum EvalError {
    /// A visited node has no value, a child an operator needs is missing, or
    /// the walk reached a state it cannot handle.
    BadTree,
    /// An operator stands where a leaf is required; no evaluator returns it.
    UnexpectedOp,
}

impl EvalError {
    pub fn to_string(&self) -> (r: String)
        ensures
            r@ == (match self {
                EvalError::BadTree => "BadTree"@,
                EvalError::UnexpectedOp => "UnexpectedOp"@,
            }),
    {
        match self {
            EvalError::BadTree => "BadTree".to_string(),
            EvalError::UnexpectedOp => "UnexpectedOp".to_string(),
        }
    }
}

} // verus!
