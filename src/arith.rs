use vstd::prelude::*;
use crate::names::{names_view, merge_names, merge_into, lemma_merge_names_contains};
use crate::num;
use crate::text::chars_of;

verus! {

/// Arithmetic operators.
#[derive(Clone, Copy, Debug, PartialEq, Eq, Structural)]
pub enum OpType {
    Add,
    Sub,
    Mul,
    Div,
}

/// The operator that a one-character text names; any other text names addition.
pub open spec fn op_of(s: Seq<char>) -> OpType {
    if s == seq!['-'] {
        OpType::Sub
    } else if s == seq!['*'] {
        OpType::Mul
    } else if s == seq!['/'] {
        OpType::Div
    } else {
        OpType::Add
    }
}

pub open spec fn apply_op(op: OpType, a: int, b: int) -> int {
    match op {
        OpType::Add => num::fixed_add(a, b),
        OpType::Sub => num::fixed_sub(a, b),
        OpType::Mul => num::fixed_mul(a, b),
        OpType::Div => num::fixed_div(a, b),
    }
}

impl OpType {
    pub fn from(s: &str) -> (r: OpType)
        ensures
            r == op_of(s@),
    {
        let cs = chars_of(s);
        if cs.len() != 1 {
            proof {
                assert(cs@.len() != seq!['-'].len());
            }
            return OpType::Add;
        }
        let c = cs[0];
        proof {
            assert(cs@ =~= seq![c]);
        }
        if c == '-' {
            OpType::Sub
        } else if c == '*' {
            OpType::Mul
        } else if c == '/' {
            OpType::Div
        } else {
            proof {
                assert(seq![c] != seq!['-'] && seq![c] != seq!['*'] && seq![c] != seq!['/']) by {
                    assert(seq![c][0] == c);
                    assert(seq!['-'][0] == '-');
                    assert(seq!['*'][0] == '*');
                    assert(seq!['/'][0] == '/');
                }
            }
            OpType::Add
        }
    }

    pub fn apply(&self, a: i64, b: i64) -> (r: i64)
        ensures
            r as int == apply_op(*self, a as int, b as int),
    {
        match self {
            OpType::Add => num::add(a, b),
            OpType::Sub => num::sub(a, b),
            OpType::Mul => num::mul(a, b),
            OpType::Div => num::div(a, b),
        }
    }
}

/// A leaf: a named variable with its current value, or a literal.
pub struct Var {
    pub name: Option<String>,
    pub value: i64,
}

pub struct ArithOp {
    pub left: Box<Arith>,
    pub right: Box<Arith>,
    pub operator: OpType,
}

/// An arithmetic expression over fixed-point values.
pub enum Arith {
    Var(Var),
    Op(ArithOp),
}

impl Arith {
    /// Value of the expression, each variable standing for its current value.
    pub open spec fn value(&self) -> int
        decreases self,
    {
        match self {
            Arith::Var(v) => v.value as int,
            Arith::Op(o) => apply_op(o.operator, o.left.value(), o.right.value()),
        }
    }

    /// Names of the free variables, in order of first occurrence, each once.
    pub open spec fn free_vars(&self) -> Seq<Seq<char>>
        decreases self,
    {
        match self {
            Arith::Var(v) => match v.name {
                Some(n) => seq![n@],
                None => Seq::empty(),
            },
            Arith::Op(o) => merge_names(o.left.free_vars(), o.right.free_vars()),
        }
    }

    /// The expression with every variable named `name` set to `val`.
    pub open spec fn bound(&self, name: Seq<char>, val: i64) -> Arith
        decreases self,
    {
        match self {
            Arith::Var(v) => match v.name {
                Some(n) => if n@ == name {
                    Arith::Var(Var { name: v.name, value: val })
                } else {
                    *self
                },
                None => *self,
            },
            Arith::Op(o) => Arith::Op(ArithOp {
                left: Box::new(o.left.bound(name, val)),
                right: Box::new(o.right.bound(name, val)),
                operator: o.operator,
            }),
        }
    }

    pub fn eval(&self) -> (r: i64)
        ensures
            r as int == self.value(),
        decreases self,
    {
        match self {
            Arith::Var(v) => v.value,
            Arith::Op(o) => {
                let a = o.left.eval();
                let b = o.right.eval();
                o.operator.apply(a, b)
            },
        }
    }

    pub fn vars(&self) -> (r: Vec<String>)
        ensures
            names_view(r@) == self.free_vars(),
        decreases self,
    {
        match self {
            Arith::Var(v) => match &v.name {
                Some(n) => {
                    let r = vec![n.clone()];
                    assert(names_view(r@) =~= seq![n@]);
                    r
                },
                None => {
                    let r: Vec<String> = Vec::new();
                    assert(names_view(r@) =~= Seq::<Seq<char>>::empty());
                    r
                },
            },
            Arith::Op(o) => {
                let mut v1 = o.left.vars();
                let v2 = o.right.vars();
                merge_into(&mut v1, v2);
                v1
            },
        }
    }

    /// Sets every variable named `var` to `val`; fails, changing nothing,
    /// when no variable has that name.
    pub fn set(&mut self, var: &String, val: i64) -> (r: Result<(), ()>)
        ensures
            *final(self) == old(self).bound(var@, val),
            r is Ok <==> old(self).free_vars().contains(var@),
        decreases *old(self),
    {
        match self {
            Arith::Var(v) => {
                let hit = match &v.name {
                    Some(n) => *n == *var,
                    None => false,
                };
                if hit {
                    v.value = val;
                    proof {
                        assert(seq![var@][0] == var@);
                    }
                    Ok(())
                } else {
                    Err(())
                }
            },
            Arith::Op(o) => {
                proof {
                    lemma_merge_names_contains(o.left.free_vars(), o.right.free_vars(), var@);
                }
                let r1 = o.left.set(var, val);
                let r2 = o.right.set(var, val);
                if r1.is_err() && r2.is_err() {
                    Err(())
                } else {
                    Ok(())
                }
            },
        }
    }

    /// A copy of the expression.
    pub fn copy(&self) -> (r: Arith)
        ensures
            r == *self,
        decreases self,
    {
        match self {
            Arith::Var(v) => Arith::Var(Var { name: v.name.clone(), value: v.value }),
            Arith::Op(o) => Arith::Op(ArithOp {
                left: Box::new(o.left.copy()),
                right: Box::new(o.right.copy()),
                operator: o.operator,
            }),
        }
    }
}

impl Var {
    pub fn new_name(name: String) -> (r: Box<Arith>)
        ensures
            *r == Arith::Var(Var { name: Some(name), value: 0 }),
    {
        Box::new(Arith::Var(Var { name: Some(name), value: 0 }))
    }

    pub fn new_value(value: i64) -> (r: Box<Arith>)
        ensures
            *r == Arith::Var(Var { name: None, value }),
    {
        Box::new(Arith::Var(Var { name: None, value }))
    }
}

impl ArithOp {
    pub fn new(op: &OpType, left: Box<Arith>, right: Box<Arith>) -> (r: Box<Arith>)
        ensures
            *r == Arith::Op(ArithOp { left, right, operator: *op }),
    {
        Box::new(Arith::Op(ArithOp { left, right, operator: *op }))
    }
}

} // verus!
