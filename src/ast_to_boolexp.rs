use vstd::prelude::*;
use crate::arith::Arith;
use crate::ast::AstNode;
use crate::ast_to_arith::compile_arith;
use crate::bool_exp::{BinOp, BinOpType, Bool, BoolExp, CompOp, CompType, UnOp, UnOpType, comp_of};
use crate::lexer::TokenType;
use crate::text::chars_of_string;

verus! {

/// The compiled condition of a condition node; none for a malformed node.
pub open spec fn compile_cond(exp: AstNode) -> Option<BoolExp>
    decreases exp, exp.children@.len() + 1,
{
    if exp.node_type == TokenType::Cond || exp.node_type == TokenType::CondAnd {
        if exp.children@.len() == 0 {
            None
        } else {
            fold_conds(exp, (exp.children@.len() - 1) as nat)
        }
    } else if exp.node_type == TokenType::Not {
        if exp.children@.len() == 0 {
            None
        } else {
            match compile_cond(*exp.children@[0]) {
                Some(e) => Some(BoolExp::Unop(UnOp { exp: Box::new(e), operator: UnOpType::Not })),
                None => None,
            }
        }
    } else if exp.node_type == TokenType::CondBool {
        if exp.data@ == seq!['t', 'r', 'u', 'e'] {
            Some(BoolExp::Bool(Bool { value: true }))
        } else if exp.data@ == seq!['f', 'a', 'l', 's', 'e'] {
            Some(BoolExp::Bool(Bool { value: false }))
        } else {
            None
        }
    } else if exp.node_type == TokenType::CompExp {
        if exp.children@.len() != 2 {
            None
        } else {
            match (compile_arith(*exp.children@[0]), compile_arith(*exp.children@[1])) {
                (Some(l), Some(r)) => Some(BoolExp::CompOp(CompOp {
                    left: Box::new(l),
                    right: Box::new(r),
                    operator: comp_of(exp.data@),
                })),
                _ => None,
            }
        }
    } else {
        None
    }
}

/// The first `m + 1` operands of a disjunction (or conjunction) node
/// joined left to right.
pub open spec fn fold_conds(exp: AstNode, m: nat) -> Option<BoolExp>
    decreases exp, m,
{
    if m >= exp.children@.len() {
        None
    } else if m == 0 {
        compile_cond(*exp.children@[0])
    } else {
        match fold_conds(exp, (m - 1) as nat) {
            None => None,
            Some(l) => match compile_cond(*exp.children@[m as int]) {
                None => None,
                Some(r) => Some(BoolExp::BinOp(BinOp {
                    left: Box::new(l),
                    right: Box::new(r),
                    operator: if exp.node_type == TokenType::Cond { BinOpType::Or } else { BinOpType::And },
                })),
            },
        }
    }
}

proof fn lemma_fold_conds_none_stays(exp: AstNode, m: nat, k: nat)
    requires
        fold_conds(exp, m) is None,
        m <= k,
    ensures
        fold_conds(exp, k) is None,
    decreases k - m,
{
    if m < k {
        lemma_fold_conds_none_stays(exp, m, (k - 1) as nat);
    }
}

impl BoolExp {
    /// Compiles a condition syntax tree: disjunctions and conjunctions fold
    /// their operands left to right, `!` negates, `true` and `false` are
    /// literals, and a comparison compiles its two arithmetic sides.
    pub fn create_from(exp: &AstNode) -> (r: Result<Box<BoolExp>, &'static str>)
        ensures
            match r {
                Ok(b) => compile_cond(*exp) == Some(*b),
                Err(_) => compile_cond(*exp) is None,
            },
        decreases exp,
    {
        if exp.node_type == TokenType::Cond || exp.node_type == TokenType::CondAnd {
            let n = exp.children.len();
            if n == 0 {
                return Err("Could not convert Cond: No children.");
            }
            let op = if exp.node_type == TokenType::Cond { BinOpType::Or } else { BinOpType::And };
            let mut left = match BoolExp::create_from(&exp.children[0]) {
                Ok(b) => b,
                Err(e) => {
                    proof {
                        lemma_fold_conds_none_stays(*exp, 0, (n - 1) as nat);
                    }
                    return Err(e);
                },
            };
            let mut i: usize = 1;
            while i < n
                invariant
                    n == exp.children@.len(),
                    1 <= i <= n,
                    exp.node_type == TokenType::Cond || exp.node_type == TokenType::CondAnd,
                    op == (if exp.node_type == TokenType::Cond { BinOpType::Or } else { BinOpType::And }),
                    fold_conds(*exp, (i - 1) as nat) == Some(*left),
                decreases n - i,
            {
                let right = match BoolExp::create_from(&exp.children[i]) {
                    Ok(b) => b,
                    Err(e) => {
                        proof {
                            lemma_fold_conds_none_stays(*exp, i as nat, (n - 1) as nat);
                        }
                        return Err(e);
                    },
                };
                left = BinOp::new(&op, left, right);
                i += 1;
            }
            Ok(left)
        } else if exp.node_type == TokenType::Not {
            if exp.children.len() == 0 {
                return Err("Could not convert Not: No children.");
            }
            let e = BoolExp::create_from(&exp.children[0])?;
            Ok(UnOp::new(&UnOpType::Not, e))
        } else if exp.node_type == TokenType::CondBool {
            let cs = chars_of_string(&exp.data);
            let is_true = cs.len() == 4 && cs[0] == 't' && cs[1] == 'r' && cs[2] == 'u' && cs[3] == 'e';
            let is_false = cs.len() == 5 && cs[0] == 'f' && cs[1] == 'a' && cs[2] == 'l' && cs[3] == 's'
                && cs[4] == 'e';
            proof {
                if is_true {
                    assert(cs@ =~= seq!['t', 'r', 'u', 'e']);
                }
                if is_false {
                    assert(cs@ =~= seq!['f', 'a', 'l', 's', 'e']);
                    assert(seq!['f', 'a', 'l', 's', 'e'].len() != seq!['t', 'r', 'u', 'e'].len());
                }
                if cs@ == seq!['t', 'r', 'u', 'e'] {
                    assert(cs@[0] == 't' && cs@[1] == 'r' && cs@[2] == 'u' && cs@[3] == 'e');
                }
                if cs@ == seq!['f', 'a', 'l', 's', 'e'] {
                    assert(cs@[0] == 'f' && cs@[1] == 'a' && cs@[2] == 'l' && cs@[3] == 's' && cs@[4] == 'e');
                }
            }
            if is_true {
                Ok(Bool::new(true))
            } else if is_false {
                Ok(Bool::new(false))
            } else {
                Err("Could not convert CondBool: invalid value.")
            }
        } else if exp.node_type == TokenType::CompExp {
            if exp.children.len() != 2 {
                return Err("Could not convert CompExp: invalid number of children.");
            }
            let left = Arith::create_from(&exp.children[0])?;
            let right = Arith::create_from(&exp.children[1])?;
            Ok(CompOp::new(&CompType::from(exp.data.as_str()), left, right))
        } else {
            Err("Invalid expression type.")
        }
    }
}

} // verus!
