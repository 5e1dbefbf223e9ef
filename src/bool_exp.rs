use vstd::prelude::*;
use crate::arith::Arith;
use crate::names::{names_view, merge_names, merge_into, lemma_merge_names_contains};
use crate::text::chars_of;

verus! {

#[derive(Clone, Copy, Debug, PartialEq, Eq, Structural)]
pub enum BinOpType {
    And,
    Or,
}

#[derive(Clone, Copy, Debug, PartialEq, Eq, Structural)]
pub enum UnOpType {
    Not,
}

/// Comparison operators.
#[derive(Clone, Copy, Debug, PartialEq, Eq, Structural)]
pub enum CompType {
    Less,
    Greater,
    LessEq,
    GreaterEq,
    Equal,
    NotEqual,
}

/// The comparison that a text names; any other text names `<`.
pub open spec fn comp_of(s: Seq<char>) -> CompType {
    if s == seq!['>'] {
        CompType::Greater
    } else if s == seq!['<', '='] {
        CompType::LessEq
    } else if s == seq!['>', '='] {
        CompType::GreaterEq
    } else if s == seq!['='] {
        CompType::Equal
    } else if s == seq!['!', '='] {
        CompType::NotEqual
    } else {
        CompType::Less
    }
}

pub open spec fn compare(op: CompType, a: int, b: int) -> bool {
    match op {
        CompType::Less => a < b,
        CompType::Greater => a > b,
        CompType::LessEq => a <= b,
        CompType::GreaterEq => a >= b,
        CompType::Equal => a == b,
        CompType::NotEqual => a != b,
    }
}

impl CompType {
    pub fn from(s: &str) -> (r: CompType)
        ensures
            r == comp_of(s@),
    {
        let cs = chars_of(s);
        let n = cs.len();
        if n == 1 {
            let c = cs[0];
            assert(cs@ =~= seq![c]);
            assert(seq![c][0] == c);
            if c == '>' {
                CompType::Greater
            } else if c == '=' {
                assert(seq![c] != seq!['>']);
                CompType::Equal
            } else {
                assert(seq![c] != seq!['>']);
                assert(seq![c] != seq!['=']);
                assert(seq![c].len() != seq!['<', '='].len());
                assert(seq![c].len() != seq!['>', '='].len());
                assert(seq![c].len() != seq!['!', '='].len());
                CompType::Less
            }
        } else if n == 2 {
            let c0 = cs[0];
            let c1 = cs[1];
            assert(cs@ =~= seq![c0, c1]);
            assert(seq![c0, c1][0] == c0 && seq![c0, c1][1] == c1);
            assert(seq![c0, c1].len() != seq!['>'].len());
            assert(seq![c0, c1].len() != seq!['='].len());
            if c1 == '=' && c0 == '<' {
                CompType::LessEq
            } else if c1 == '=' && c0 == '>' {
                assert(seq![c0, c1] != seq!['<', '=']);
                CompType::GreaterEq
            } else if c1 == '=' && c0 == '!' {
                assert(seq![c0, c1] != seq!['<', '=']);
                assert(seq![c0, c1] != seq!['>', '=']);
                CompType::NotEqual
            } else {
                assert(seq![c0, c1] != seq!['<', '=']);
                assert(seq![c0, c1] != seq!['>', '=']);
                assert(seq![c0, c1] != seq!['!', '=']);
                CompType::Less
            }
        } else {
            assert(cs@.len() != seq!['>'].len());
            assert(cs@.len() != seq!['<', '='].len());
            CompType::Less
        }
    }

    pub fn apply(&self, a: i64, b: i64) -> (r: bool)
        ensures
            r == compare(*self, a as int, b as int),
    {
        match self {
            CompType::Less => a < b,
            CompType::Greater => a > b,
            CompType::LessEq => a <= b,
            CompType::GreaterEq => a >= b,
            CompType::Equal => a == b,
            CompType::NotEqual => a != b,
        }
    }
}

pub struct BinOp {
    pub left: Box<BoolExp>,
    pub right: Box<BoolExp>,
    pub operator: BinOpType,
}

pub struct UnOp {
    pub exp: Box<BoolExp>,
    pub operator: UnOpType,
}

pub struct CompOp {
    pub left: Box<Arith>,
    pub right: Box<Arith>,
    pub operator: CompType,
}

pub struct Bool {
    pub value: bool,
}

/// A boolean expression: connectives over comparisons of arithmetic expressions.
pub enum BoolExp {
    BinOp(BinOp),
    Unop(UnOp),
    CompOp(CompOp),
    Bool(Bool),
}

impl BoolExp {
    /// Truth of the expression, each variable standing for its current value.
    pub open spec fn holds(&self) -> bool
        decreases self,
    {
        match self {
            BoolExp::BinOp(b) => match b.operator {
                BinOpType::And => b.left.holds() && b.right.holds(),
                BinOpType::Or => b.left.holds() || b.right.holds(),
            },
            BoolExp::Unop(u) => !u.exp.holds(),
            BoolExp::CompOp(c) => compare(c.operator, c.left.value(), c.right.value()),
            BoolExp::Bool(b) => b.value,
        }
    }

    /// Names of the free variables, in order of first occurrence, each once.
    pub open spec fn free_vars(&self) -> Seq<Seq<char>>
        decreases self,
    {
        match self {
            BoolExp::BinOp(b) => merge_names(b.left.free_vars(), b.right.free_vars()),
            BoolExp::Unop(u) => u.exp.free_vars(),
            BoolExp::CompOp(c) => merge_names(c.left.free_vars(), c.right.free_vars()),
            BoolExp::Bool(_) => Seq::empty(),
        }
    }

    /// The expression with every variable named `name` set to `val`.
    pub open spec fn bound(&self, name: Seq<char>, val: i64) -> BoolExp
        decreases self,
    {
        match self {
            BoolExp::BinOp(b) => BoolExp::BinOp(BinOp {
                left: Box::new(b.left.bound(name, val)),
                right: Box::new(b.right.bound(name, val)),
                operator: b.operator,
            }),
            BoolExp::Unop(u) => BoolExp::Unop(UnOp {
                exp: Box::new(u.exp.bound(name, val)),
                operator: u.operator,
            }),
            BoolExp::CompOp(c) => BoolExp::CompOp(CompOp {
                left: Box::new(c.left.bound(name, val)),
                right: Box::new(c.right.bound(name, val)),
                operator: c.operator,
            }),
            BoolExp::Bool(_) => *self,
        }
    }

    pub fn eval(&self) -> (r: bool)
        ensures
            r == self.holds(),
        decreases self,
    {
        match self {
            BoolExp::BinOp(b) => {
                let x = b.left.eval();
                let y = b.right.eval();
                match b.operator {
                    BinOpType::And => x && y,
                    BinOpType::Or => x || y,
                }
            },
            BoolExp::Unop(u) => !u.exp.eval(),
            BoolExp::CompOp(c) => {
                let x = c.left.eval();
                let y = c.right.eval();
                c.operator.apply(x, y)
            },
            BoolExp::Bool(b) => b.eval(),
        }
    }

    pub fn vars(&self) -> (r: Vec<String>)
        ensures
            names_view(r@) == self.free_vars(),
        decreases self,
    {
        match self {
            BoolExp::BinOp(b) => {
                let mut v1 = b.left.vars();
                let v2 = b.right.vars();
                merge_into(&mut v1, v2);
                v1
            },
            BoolExp::Unop(u) => u.exp.vars(),
            BoolExp::CompOp(c) => {
                let mut v1 = c.left.vars();
                let v2 = c.right.vars();
                merge_into(&mut v1, v2);
                v1
            },
            BoolExp::Bool(b) => b.vars(),
        }
    }

    /// Sets every variable named `var` to `val`; fails, changing nothing,
    /// when no variable has that name.
    pub fn set(&mut self, var: &String, val: i64) -> (r: Result<(), ()>)
        ensures
            *final(self) == old(self).bound(var@, val),
            r is Ok <==> old(self).free_vars().contains(var@),
        decreases *old(self),
    {
        match self {
            BoolExp::BinOp(b) => {
                proof {
                    lemma_merge_names_contains(b.left.free_vars(), b.right.free_vars(), var@);
                }
                let r1 = b.left.set(var, val);
                let r2 = b.right.set(var, val);
                if r1.is_err() && r2.is_err() { Err(()) } else { Ok(()) }
            },
            BoolExp::Unop(u) => u.exp.set(var, val),
            BoolExp::CompOp(c) => {
                proof {
                    lemma_merge_names_contains(c.left.free_vars(), c.right.free_vars(), var@);
                }
                let r1 = c.left.set(var, val);
                let r2 = c.right.set(var, val);
                if r1.is_err() && r2.is_err() { Err(()) } else { Ok(()) }
            },
            BoolExp::Bool(b) => b.set(var, val),
        }
    }

    /// A copy of the expression.
    pub fn copy(&self) -> (r: BoolExp)
        ensures
            r == *self,
        decreases self,
    {
        match self {
            BoolExp::BinOp(b) => BoolExp::BinOp(BinOp {
                left: Box::new(b.left.copy()),
                right: Box::new(b.right.copy()),
                operator: b.operator,
            }),
            BoolExp::Unop(u) => BoolExp::Unop(UnOp { exp: Box::new(u.exp.copy()), operator: u.operator }),
            BoolExp::CompOp(c) => BoolExp::CompOp(CompOp {
                left: Box::new(c.left.copy()),
                right: Box::new(c.right.copy()),
                operator: c.operator,
            }),
            BoolExp::Bool(b) => BoolExp::Bool(Bool { value: b.value }),
        }
    }
}

impl BinOp {
    pub fn new(op: &BinOpType, left: Box<BoolExp>, right: Box<BoolExp>) -> (r: Box<BoolExp>)
        ensures
            *r == BoolExp::BinOp(BinOp { left, right, operator: *op }),
    {
        Box::new(BoolExp::BinOp(BinOp { left, right, operator: *op }))
    }
}

impl UnOp {
    pub fn new(op: &UnOpType, exp: Box<BoolExp>) -> (r: Box<BoolExp>)
        ensures
            *r == BoolExp::Unop(UnOp { exp, operator: *op }),
    {
        Box::new(BoolExp::Unop(UnOp { exp, operator: *op }))
    }
}

impl CompOp {
    pub fn new(op: &CompType, left: Box<Arith>, right: Box<Arith>) -> (r: Box<BoolExp>)
        ensures
            *r == BoolExp::CompOp(CompOp { left, right, operator: *op }),
    {
        Box::new(BoolExp::CompOp(CompOp { left, right, operator: *op }))
    }
}

impl Bool {
    pub fn new(val: bool) -> (r: Box<BoolExp>)
        ensures
            *r == BoolExp::Bool(Bool { value: val }),
    {
        Box::new(BoolExp::Bool(Bool { value: val }))
    }

    pub fn eval(&self) -> (r: bool)
        ensures
            r == self.value,
    {
        self.value
    }

    /// A literal has no variables.
    pub fn vars(&self) -> (r: Vec<String>)
        ensures
            r@.len() == 0,
    {
        Vec::new()
    }

    /// A literal has no variable to set.
    pub fn set(&mut self, var: &String, val: i64) -> (r: Result<(), ()>)
        ensures
            r is Err,
            *final(self) == *old(self),
    {
        Err(())
    }
}

} // verus!
