use vstd::prelude::*;
use crate::arith::{Arith, ArithOp, OpType, Var, op_of};
use crate::ast::AstNode;
use crate::lexer::TokenType;
use crate::parse_rules::leaf_sum;
use crate::num::{decimal_value, fits_i64, is_decimal, parse_decimal};
use crate::text::chars_of_string;

verus! {

/// A leaf of an arithmetic expression: a number when its text is a decimal
/// literal in range, else a variable of that name.
pub open spec fn leaf_of(data: String) -> Arith {
    if is_decimal(data@) && fits_i64(decimal_value(data@)) {
        Arith::Var(Var { name: None, value: decimal_value(data@) as i64 })
    } else {
        Arith::Var(Var { name: Some(data), value: 0 })
    }
}

/// The compiled expression of a sum, product or factor node; none for a
/// malformed node.
pub open spec fn compile_arith(exp: AstNode) -> Option<Arith>
    decreases exp, exp.children@.len() + 1,
{
    if exp.node_type == TokenType::Aexp || exp.node_type == TokenType::AexpMul {
        let n = exp.children@.len();
        if n == 0 || n % 2 == 0 {
            None
        } else {
            fold_operands(exp, ((n - 1) / 2) as nat)
        }
    } else if exp.node_type == TokenType::Apara {
        if exp.data@.len() > 0 {
            Some(leaf_of(exp.data))
        } else if exp.children@.len() == 0 {
            None
        } else {
            compile_arith(*exp.children@[0])
        }
    } else {
        None
    }
}

/// The first `m` operators of a sum or product node applied left to right
/// to its operands.
pub open spec fn fold_operands(exp: AstNode, m: nat) -> Option<Arith>
    decreases exp, m,
{
    if m == 0 {
        if exp.children@.len() == 0 { None } else { compile_arith(*exp.children@[0]) }
    } else if 2 * m >= exp.children@.len() {
        None
    } else {
        match fold_operands(exp, (m - 1) as nat) {
            None => None,
            Some(left) => {
                let opn = exp.children@[2 * m - 1];
                let rn = exp.children@[2 * m as int];
                if opn.node_type != TokenType::Add && opn.node_type != TokenType::Mul {
                    None
                } else if rn.node_type != TokenType::Apara && rn.node_type != TokenType::AexpMul {
                    None
                } else {
                    match compile_arith(*rn) {
                        None => None,
                        Some(right) => Some(Arith::Op(ArithOp {
                            left: Box::new(left),
                            right: Box::new(right),
                            operator: op_of(opn.data@),
                        })),
                    }
                }
            },
        }
    }
}

impl Arith {
    /// Compiles an arithmetic syntax tree: a sum or product node folds its
    /// operands left to right with the operators between them; a factor is
    /// a leaf or a parenthesised sum.
    pub fn create_from(exp: &AstNode) -> (r: Result<Box<Arith>, &'static str>)
        ensures
            match r {
                Ok(a) => compile_arith(*exp) == Some(*a),
                Err(_) => compile_arith(*exp) is None,
            },
            leaf_sum(*exp, exp.children@[0].children@[0].data@) && exp.children@[0].children@[0].data@.len() > 0
                ==> r is Ok && *r->Ok_0 == leaf_of(exp.children@[0].children@[0].data),
        decreases exp,
    {
        proof {
            lemma_leaf_sum_compiles(*exp);
        }
        if exp.node_type == TokenType::Aexp || exp.node_type == TokenType::AexpMul {
            let n = exp.children.len();
            if n == 0 {
                return Err("Could not convert Aexp: No children.");
            }
            if n % 2 == 0 {
                return Err("Could not convert Aexp: Invalid number of children.");
            }
            let mut left = match Arith::create_from(&exp.children[0]) {
                Ok(a) => a,
                Err(e) => {
                    proof {
                        lemma_fold_none_stays(*exp, 0, ((n - 1) / 2) as nat);
                    }
                    return Err(e);
                },
            };
            let mut i: usize = 1;
            while i < n - 1
                invariant
                    n == exp.children@.len(),
                    n >= 1,
                    n % 2 == 1,
                    1 <= i <= n,
                    i % 2 == 1,
                    exp.node_type == TokenType::Aexp || exp.node_type == TokenType::AexpMul,
                    fold_operands(*exp, ((i - 1) / 2) as nat) == Some(*left),
                decreases n - i,
            {
                let ghost m = ((i - 1) / 2) as nat;
                assert(2 * (m + 1) - 1 == i && 2 * (m + 1) == i + 1);
                let opnode = &exp.children[i];
                if opnode.node_type != TokenType::Add && opnode.node_type != TokenType::Mul {
                    proof {
                        lemma_fold_none_stays(*exp, m + 1, ((n - 1) / 2) as nat);
                    }
                    return Err("Could not convert Aexp: Expected Add or Mul operator.");
                }
                let rnode = &exp.children[i + 1];
                if rnode.node_type != TokenType::Apara && rnode.node_type != TokenType::AexpMul {
                    proof {
                        lemma_fold_none_stays(*exp, m + 1, ((n - 1) / 2) as nat);
                    }
                    return Err("Could not convert Aexp: Expected Apara|AexpMul expression.");
                }
                let right = match Arith::create_from(rnode) {
                    Ok(a) => a,
                    Err(e) => {
                        proof {
                            lemma_fold_none_stays(*exp, m + 1, ((n - 1) / 2) as nat);
                        }
                        return Err(e);
                    },
                };
                let op = OpType::from(opnode.data.as_str());
                left = ArithOp::new(&op, left, right);
                i += 2;
            }
            assert(i == n);
            Ok(left)
        } else if exp.node_type == TokenType::Apara {
            let cs = chars_of_string(&exp.data);
            if cs.len() > 0 {
                match parse_decimal(&cs) {
                    Some(v) => Ok(Var::new_value(v)),
                    None => Ok(Var::new_name(exp.data.clone())),
                }
            } else if exp.children.len() == 0 {
                Err("Could not convert Apara expression: No children to convert.")
            } else {
                Arith::create_from(&exp.children[0])
            }
        } else {
            Err("Invalid arithmetic expression type.")
        }
    }
}

/// A sum made of one product of one non-empty leaf compiles to that leaf.
pub proof fn lemma_leaf_sum_compiles(exp: AstNode)
    ensures
        leaf_sum(exp, exp.children@[0].children@[0].data@) && exp.children@[0].children@[0].data@.len() > 0
            ==> compile_arith(exp) == Some(leaf_of(exp.children@[0].children@[0].data)),
{
    if leaf_sum(exp, exp.children@[0].children@[0].data@) && exp.children@[0].children@[0].data@.len() > 0 {
        let p = *exp.children@[0];
        let f = *p.children@[0];
        assert(compile_arith(f) == Some(leaf_of(f.data)));
        assert(fold_operands(p, 0) == compile_arith(f));
        assert(compile_arith(p) == fold_operands(p, 0));
        assert(fold_operands(exp, 0) == compile_arith(p));
    }
}

/// Once the fold fails, folding further operators fails too.
proof fn lemma_fold_none_stays(exp: AstNode, m: nat, k: nat)
    requires
        fold_operands(exp, m) is None,
        m <= k,
    ensures
        fold_operands(exp, k) is None,
    decreases k - m,
{
    if m < k {
        lemma_fold_none_stays(exp, m, (k - 1) as nat);
    }
}

} // verus!
