//! The postfix evaluator.  It runs the stack machine over a postfix token
//! sequence: a number is pushed, an operator pops its two operands (the most
//! recently pushed one is the right operand) and pushes the combination, and
//! a missing operand is replaced by the default value zero.  Any other token
//! is ignored with no stack effect.
//!
//! Arithmetic on floating-point numbers has no place in verified code, so
//! the machine is run symbolically: the result is the expression tree that
//! the stack machine wires up, with the numeric literals at its leaves.  A
//! caller folds that tree with floating-point arithmetic to obtain the
//! numeric value; the whole stack discipline is decided, and verified, here.

use vstd::prelude::*;

use crate::token::is_number;
use crate::token::is_number_token;

verus! {

/// The five binary operators.
#[derive(Clone, Copy, Debug, PartialEq, Eq, Structural)]
pub enum BinOp {
    Add,
    Sub,
    Mul,
    Div,
    Pow,
}

/// The symbolic value of a postfix token sequence: a numeric literal kept as
/// its token text, the default value zero that stands in for a missing
/// operand, or an operator applied to two operands.
#[derive(Debug)]
pub enum Expr {
    Num(String),
    Zero,
    Bin(BinOp, Box<Expr>, Box<Expr>),
}

/// The mathematical shape of an [`Expr`]: the same tree with the literal
/// texts as character sequences.
#[verifier::ext_equal]
pub enum ExprModel {
    Num(Seq<char>),
    Zero,
    Bin(BinOp, Box<ExprModel>, Box<ExprModel>),
}

impl View for Expr {
    type V = ExprModel;

    open spec fn view(&self) -> ExprModel
        decreases self,
    {
        match self {
            Expr::Num(s) => ExprModel::Num(s@),
            Expr::Zero => ExprModel::Zero,
            Expr::Bin(op, a, b) => ExprModel::Bin(*op, Box::new((**a)@), Box::new((**b)@)),
        }
    }
}

impl DeepView for Expr {
    type V = ExprModel;

    open spec fn deep_view(&self) -> ExprModel {
        self@
    }
}

/// An operator token: one of the five one-character operators.
pub open spec fn is_operator_token(t: Seq<char>) -> bool {
    t.len() == 1 && (t[0] == '+' || t[0] == '-' || t[0] == '*' || t[0] == '/' || t[0] == '^')
}

/// Which operator an operator token denotes.
pub open spec fn spec_op_of(t: Seq<char>) -> BinOp {
    if t[0] == '+' {
        BinOp::Add
    } else if t[0] == '-' {
        BinOp::Sub
    } else if t[0] == '*' {
        BinOp::Mul
    } else if t[0] == '/' {
        BinOp::Div
    } else {
        BinOp::Pow
    }
}

/// One step of the evaluation stack machine on reading token `t`: push a
/// number; on an operator pop the right then the left operand, each replaced
/// by zero when the stack runs out, and push the combination; ignore any
/// other token.
pub open spec fn eval_step(st: Seq<ExprModel>, t: Seq<char>) -> Seq<ExprModel> {
    if is_number_token(t) {
        st.push(ExprModel::Num(t))
    } else if is_operator_token(t) {
        let b = if st.len() >= 1 {
            st[st.len() - 1]
        } else {
            ExprModel::Zero
        };
        let a = if st.len() >= 2 {
            st[st.len() - 2]
        } else {
            ExprModel::Zero
        };
        let rest = if st.len() >= 2 {
            st.take(st.len() - 2)
        } else {
            Seq::empty()
        };
        rest.push(ExprModel::Bin(spec_op_of(t), Box::new(a), Box::new(b)))
    } else {
        st
    }
}

/// Runs the stack machine over the remaining tokens; the result is the value
/// left on top of the stack, or zero when the stack ends up empty.
pub open spec fn eval_run(toks: Seq<Seq<char>>, st: Seq<ExprModel>) -> ExprModel
    decreases toks.len(),
{
    if toks.len() == 0 {
        if st.len() > 0 {
            st[st.len() - 1]
        } else {
            ExprModel::Zero
        }
    } else {
        eval_run(toks.skip(1), eval_step(st, toks[0]))
    }
}

/// The symbolic value of a whole postfix token sequence.
pub open spec fn spec_evaluate(toks: Seq<Seq<char>>) -> ExprModel {
    eval_run(toks, Seq::empty())
}

/// Which operator an operator token denotes; `None` for every other token.
pub fn op_of(t: &String) -> (r: Option<BinOp>)
    ensures
        r is Some <==> is_operator_token(t@),
        is_operator_token(t@) ==> r == Some(spec_op_of(t@)),
{
    let n = t.as_str().unicode_len();
    if n == 1 {
        let c = t.as_str().get_char(0);
        if c == '+' {
            Some(BinOp::Add)
        } else if c == '-' {
            Some(BinOp::Sub)
        } else if c == '*' {
            Some(BinOp::Mul)
        } else if c == '/' {
            Some(BinOp::Div)
        } else if c == '^' {
            Some(BinOp::Pow)
        } else {
            None
        }
    } else {
        None
    }
}

/// Evaluates a postfix token sequence to its symbolic value by running the
/// stack machine.  No input is rejected: missing operands become zero, and a
/// token that is neither a number nor an operator has no effect.
pub fn evaluate_postfix(tokens: &Vec<String>) -> (result: Expr)
    ensures
        result@ == spec_evaluate(tokens.deep_view()),
{
    let ghost toks = tokens.deep_view();
    let mut stack: Vec<Expr> = Vec::new();
    let mut idx: usize = 0;
    proof {
        assert(toks.skip(0) =~= toks);
        assert(stack.deep_view() =~~= Seq::<ExprModel>::empty());
    }
    while idx < tokens.len()
        invariant
            toks == tokens.deep_view(),
            idx <= toks.len(),
            eval_run(toks.skip(idx as int), stack.deep_view()) == spec_evaluate(toks),
        decreases toks.len() - idx,
    {
        let ghost st0 = stack.deep_view();
        let t = &tokens[idx];
        proof {
            assert(toks.skip(idx as int)[0] == t@);
        }
        if is_number(t.as_str()) {
            let owned = t.clone();
            stack.push(Expr::Num(owned));
            proof {
                assert(stack.deep_view() =~~= st0.push(ExprModel::Num(t@)));
            }
        } else {
            match op_of(t) {
                Some(op) => {
                    let ghost st_b = stack.deep_view();
                    let b = match stack.pop() {
                        Some(e) => e,
                        None => Expr::Zero,
                    };
                    proof {
                        if st_b.len() > 0 {
                            assert(stack.deep_view() =~~= st_b.drop_last());
                            assert(b@ == st_b.last());
                        }
                    }
                    let ghost st_a = stack.deep_view();
                    let a = match stack.pop() {
                        Some(e) => e,
                        None => Expr::Zero,
                    };
                    proof {
                        if st_a.len() > 0 {
                            assert(stack.deep_view() =~~= st_a.drop_last());
                            assert(a@ == st_a.last());
                        }
                    }
                    let ghost st_rest = stack.deep_view();
                    stack.push(Expr::Bin(op, Box::new(a), Box::new(b)));
                    proof {
                        assert(stack.deep_view() =~~= st_rest.push(
                            ExprModel::Bin(op, Box::new(a@), Box::new(b@)),
                        ));
                        if st0.len() >= 2 {
                            assert(st_rest =~~= st0.take(st0.len() - 2));
                        } else {
                            assert(st_rest =~~= Seq::<ExprModel>::empty());
                        }
                        assert(stack.deep_view() =~~= eval_step(st0, t@));
                    }
                },
                None => {
                    proof {
                        assert(stack.deep_view() == eval_step(st0, t@));
                    }
                },
            }
        }
        idx += 1;
        proof {
            assert(toks.skip(idx - 1).skip(1) =~= toks.skip(idx as int));
            assert(stack.deep_view() =~~= eval_step(st0, t@));
            assert(eval_run(toks.skip(idx - 1), st0) == eval_run(
                toks.skip(idx as int),
                stack.deep_view(),
            ));
        }
    }
    proof {
        assert(toks.skip(toks.len() as int) =~= Seq::<Seq<char>>::empty());
    }
    let ghost st_done = stack.deep_view();
    let result = match stack.pop() {
        Some(e) => e,
        None => Expr::Zero,
    };
    proof {
        if st_done.len() > 0 {
            assert(result@ == st_done.last());
        }
    }
    result
}

} // verus!
