//! The infix-to-postfix converter: the shunting-yard algorithm with an
//! explicit operator stack.  Numbers go straight to the output; `(` is
//! stacked; `)` pops down to the matching `(`; an operator first pops every
//! stacked token of equal or higher precedence (so every operator, `^`
//! included, associates to the left), then is stacked itself.  Whatever is
//! left on the stack at the end is flushed to the output in pop order.

use vstd::prelude::*;
use vstd::string::StrSliceExecFns;

use crate::precedence::get_precedence;
use crate::precedence::spec_precedence;
use crate::token::digit_run_len;
use crate::token::is_number;
use crate::token::is_number_token;
use crate::token::spec_tokenize;
use crate::token::tokenize;

verus! {

/// A left parenthesis token.
pub open spec fn is_lparen_token(t: Seq<char>) -> bool {
    t.len() == 1 && t[0] == '('
}

/// A right parenthesis token.
pub open spec fn is_rparen_token(t: Seq<char>) -> bool {
    t.len() == 1 && t[0] == ')'
}

/// The tokens that handling a `)` pops onto the output, in pop order: the
/// stack from the top down to the first `(` (exclusive) or to the bottom.
pub open spec fn rparen_popped(st: Seq<Seq<char>>) -> Seq<Seq<char>>
    decreases st.len(),
{
    if st.len() == 0 {
        Seq::empty()
    } else if is_lparen_token(st.last()) {
        Seq::empty()
    } else {
        seq![st.last()] + rparen_popped(st.drop_last())
    }
}

/// The operator stack after handling a `)`: everything above the first `(`
/// is popped to the output and the `(` itself is discarded; an unmatched `)`
/// just empties the stack.
pub open spec fn rparen_rest(st: Seq<Seq<char>>) -> Seq<Seq<char>>
    decreases st.len(),
{
    if st.len() == 0 {
        Seq::empty()
    } else if is_lparen_token(st.last()) {
        st.drop_last()
    } else {
        rparen_rest(st.drop_last())
    }
}

/// The tokens that an incoming operator of precedence `p` pops onto the
/// output, in pop order: the stack from the top down, as long as the top has
/// precedence at least `p`.
pub open spec fn ops_popped(st: Seq<Seq<char>>, p: int) -> Seq<Seq<char>>
    decreases st.len(),
{
    if st.len() == 0 {
        Seq::empty()
    } else if spec_precedence(st.last()) >= p {
        seq![st.last()] + ops_popped(st.drop_last(), p)
    } else {
        Seq::empty()
    }
}

/// The operator stack left after an incoming operator of precedence `p` has
/// popped everything of precedence at least `p`.
pub open spec fn ops_rest(st: Seq<Seq<char>>, p: int) -> Seq<Seq<char>>
    decreases st.len(),
{
    if st.len() == 0 {
        Seq::empty()
    } else if spec_precedence(st.last()) >= p {
        ops_rest(st.drop_last(), p)
    } else {
        st
    }
}

/// One step of the shunting-yard algorithm: how the output and the operator
/// stack change on reading token `t`.
pub open spec fn sy_step(out: Seq<Seq<char>>, st: Seq<Seq<char>>, t: Seq<char>) -> (Seq<Seq<char>>, Seq<
    Seq<char>,
>) {
    if is_number_token(t) {
        (out.push(t), st)
    } else if is_lparen_token(t) {
        (out, st.push(t))
    } else if is_rparen_token(t) {
        (out + rparen_popped(st), rparen_rest(st))
    } else {
        (out + ops_popped(st, spec_precedence(t)), ops_rest(st, spec_precedence(t)).push(t))
    }
}

/// Runs the shunting-yard algorithm over the remaining tokens and flushes the
/// operator stack at the end.
pub open spec fn sy_run(toks: Seq<Seq<char>>, out: Seq<Seq<char>>, st: Seq<Seq<char>>) -> Seq<
    Seq<char>,
>
    decreases toks.len(),
{
    if toks.len() == 0 {
        out + st.reverse()
    } else {
        sy_run(toks.skip(1), sy_step(out, st, toks[0]).0, sy_step(out, st, toks[0]).1)
    }
}

/// The postfix form of a token sequence.
pub open spec fn spec_convert(toks: Seq<Seq<char>>) -> Seq<Seq<char>> {
    sy_run(toks, Seq::empty(), Seq::empty())
}

/// How many times the token value `t` occurs in `ts`.
pub open spec fn count_tok(ts: Seq<Seq<char>>, t: Seq<char>) -> nat
    decreases ts.len(),
{
    if ts.len() == 0 {
        0
    } else {
        (if ts[0] == t {
            1nat
        } else {
            0nat
        }) + count_tok(ts.skip(1), t)
    }
}

proof fn lemma_count_empty(t: Seq<char>)
    ensures
        count_tok(Seq::<Seq<char>>::empty(), t) == 0,
{
}

proof fn lemma_count_single(x: Seq<char>, t: Seq<char>)
    ensures
        count_tok(seq![x], t) == (if x == t {
            1nat
        } else {
            0nat
        }),
{
    assert(seq![x].skip(1) =~= Seq::<Seq<char>>::empty());
    lemma_count_empty(t);
    assert(seq![x][0] == x);
}

proof fn lemma_count_concat(a: Seq<Seq<char>>, b: Seq<Seq<char>>, t: Seq<char>)
    ensures
        count_tok(a + b, t) == count_tok(a, t) + count_tok(b, t),
    decreases a.len(),
{
    if a.len() == 0 {
        assert(a + b =~= b);
    } else {
        assert((a + b)[0] == a[0]);
        assert((a + b).skip(1) =~= a.skip(1) + b);
        lemma_count_concat(a.skip(1), b, t);
    }
}

proof fn lemma_count_push(s: Seq<Seq<char>>, x: Seq<char>, t: Seq<char>)
    ensures
        count_tok(s.push(x), t) == count_tok(s, t) + (if x == t {
            1nat
        } else {
            0nat
        }),
{
    assert(s.push(x) =~= s + seq![x]);
    lemma_count_concat(s, seq![x], t);
    lemma_count_single(x, t);
}

proof fn lemma_count_reverse(s: Seq<Seq<char>>, t: Seq<char>)
    ensures
        count_tok(s.reverse(), t) == count_tok(s, t),
    decreases s.len(),
{
    if s.len() == 0 {
        assert(s.reverse() =~= s);
    } else {
        let dl = s.drop_last();
        assert(s.reverse() =~= seq![s.last()] + dl.reverse());
        lemma_count_concat(seq![s.last()], dl.reverse(), t);
        lemma_count_single(s.last(), t);
        lemma_count_reverse(dl, t);
        assert(s =~= dl.push(s.last()));
        lemma_count_push(dl, s.last(), t);
    }
}

proof fn lemma_count_rparen_split(st: Seq<Seq<char>>, t: Seq<char>)
    requires
        !is_lparen_token(t),
    ensures
        count_tok(rparen_popped(st), t) + count_tok(rparen_rest(st), t) == count_tok(st, t),
    decreases st.len(),
{
    lemma_count_empty(t);
    if st.len() > 0 {
        let dl = st.drop_last();
        assert(st =~= dl.push(st.last()));
        lemma_count_push(dl, st.last(), t);
        if is_lparen_token(st.last()) {
            assert(st.last() != t);
        } else {
            lemma_count_concat(seq![st.last()], rparen_popped(dl), t);
            lemma_count_single(st.last(), t);
            lemma_count_rparen_split(dl, t);
        }
    }
}

proof fn lemma_count_ops_split(st: Seq<Seq<char>>, p: int, t: Seq<char>)
    ensures
        count_tok(ops_popped(st, p), t) + count_tok(ops_rest(st, p), t) == count_tok(st, t),
    decreases st.len(),
{
    lemma_count_empty(t);
    if st.len() > 0 && spec_precedence(st.last()) >= p {
        let dl = st.drop_last();
        assert(st =~= dl.push(st.last()));
        lemma_count_push(dl, st.last(), t);
        lemma_count_concat(seq![st.last()], ops_popped(dl, p), t);
        lemma_count_single(st.last(), t);
        lemma_count_ops_split(dl, p, t);
    }
}

proof fn lemma_sy_run_count(toks: Seq<Seq<char>>, out: Seq<Seq<char>>, st: Seq<Seq<char>>, t: Seq<char>)
    requires
        !is_lparen_token(t),
        !is_rparen_token(t),
    ensures
        count_tok(sy_run(toks, out, st), t) == count_tok(out, t) + count_tok(st, t) + count_tok(
            toks,
            t,
        ),
    decreases toks.len(),
{
    if toks.len() == 0 {
        lemma_count_concat(out, st.reverse(), t);
        lemma_count_reverse(st, t);
    } else {
        let x = toks[0];
        lemma_sy_run_count(toks.skip(1), sy_step(out, st, x).0, sy_step(out, st, x).1, t);
        if is_number_token(x) {
            lemma_count_push(out, x, t);
        } else if is_lparen_token(x) {
            lemma_count_push(st, x, t);
            assert(x != t);
        } else if is_rparen_token(x) {
            lemma_count_concat(out, rparen_popped(st), t);
            lemma_count_rparen_split(st, t);
            assert(x != t);
        } else {
            lemma_count_concat(out, ops_popped(st, spec_precedence(x)), t);
            lemma_count_ops_split(st, spec_precedence(x), t);
            lemma_count_push(ops_rest(st, spec_precedence(x)), x, t);
        }
    }
}

/// The converter neither duplicates nor drops a token: a token value that is
/// not a parenthesis occurs in the postfix output exactly as often as in the
/// input sequence.
pub proof fn lemma_convert_conserves_tokens(toks: Seq<Seq<char>>, t: Seq<char>)
    requires
        !is_lparen_token(t),
        !is_rparen_token(t),
    ensures
        count_tok(spec_convert(toks), t) == count_tok(toks, t),
{
    lemma_sy_run_count(toks, Seq::empty(), Seq::empty(), t);
}

proof fn lemma_sy_run_no_rparen(toks: Seq<Seq<char>>, out: Seq<Seq<char>>, st: Seq<Seq<char>>, t: Seq<char>)
    requires
        is_rparen_token(t),
        count_tok(out, t) == 0,
        count_tok(st, t) == 0,
    ensures
        count_tok(sy_run(toks, out, st), t) == 0,
    decreases toks.len(),
{
    assert(digit_run_len(t) == 0);
    assert(!is_number_token(t));
    if toks.len() == 0 {
        lemma_count_concat(out, st.reverse(), t);
        lemma_count_reverse(st, t);
    } else {
        let x = toks[0];
        if is_number_token(x) {
            lemma_count_push(out, x, t);
        } else if is_lparen_token(x) {
            lemma_count_push(st, x, t);
            assert(x != t);
        } else if is_rparen_token(x) {
            lemma_count_concat(out, rparen_popped(st), t);
            lemma_count_rparen_split(st, t);
        } else {
            lemma_count_concat(out, ops_popped(st, spec_precedence(x)), t);
            lemma_count_ops_split(st, spec_precedence(x), t);
            lemma_count_push(ops_rest(st, spec_precedence(x)), x, t);
            assert(x != t);
        }
        lemma_sy_run_no_rparen(toks.skip(1), sy_step(out, st, x).0, sy_step(out, st, x).1, t);
    }
}

/// A right parenthesis is consumed by the converter, never emitted: the
/// postfix output holds no `)` token, whatever the input.
pub proof fn lemma_convert_consumes_rparens(toks: Seq<Seq<char>>, t: Seq<char>)
    requires
        is_rparen_token(t),
    ensures
        count_tok(spec_convert(toks), t) == 0,
{
    lemma_sy_run_no_rparen(toks, Seq::empty(), Seq::empty(), t);
}

/// Exec check that a token is the single character `c`.
pub fn is_single_char_token(t: &String, c: char) -> (b: bool)
    ensures
        b == (t@.len() == 1 && t@[0] == c),
{
    let n = t.as_str().unicode_len();
    if n == 1 {
        t.as_str().get_char(0) == c
    } else {
        false
    }
}

/// Converts a token sequence from infix to postfix order with the
/// shunting-yard algorithm.  No input is rejected: unmatched parentheses and
/// stray tokens flow through the same three stack rules.
pub fn convert(tokens: &Vec<String>) -> (postfix: Vec<String>)
    ensures
        postfix.deep_view() == spec_convert(tokens.deep_view()),
{
    let ghost toks = tokens.deep_view();
    let mut output: Vec<String> = Vec::new();
    let mut op_stack: Vec<String> = Vec::new();
    let mut idx: usize = 0;
    proof {
        assert(toks.skip(0) =~= toks);
        assert(output.deep_view() =~~= Seq::<Seq<char>>::empty());
        assert(op_stack.deep_view() =~~= Seq::<Seq<char>>::empty());
    }
    while idx < tokens.len()
        invariant
            toks == tokens.deep_view(),
            idx <= toks.len(),
            sy_run(toks.skip(idx as int), output.deep_view(), op_stack.deep_view())
                == spec_convert(toks),
        decreases toks.len() - idx,
    {
        let ghost out0 = output.deep_view();
        let ghost st0 = op_stack.deep_view();
        let t = &tokens[idx];
        proof {
            assert(toks.skip(idx as int)[0] == t@);
        }
        if is_number(t.as_str()) {
            let owned = t.clone();
            output.push(owned);
            proof {
                assert(output.deep_view() =~~= out0.push(t@));
            }
        } else if is_single_char_token(t, '(') {
            let owned = t.clone();
            op_stack.push(owned);
            proof {
                assert(op_stack.deep_view() =~~= st0.push(t@));
            }
        } else if is_single_char_token(t, ')') {
            while op_stack.len() > 0 && !is_single_char_token(&op_stack[op_stack.len() - 1], '(')
                invariant
                    out0 + rparen_popped(st0) == output.deep_view() + rparen_popped(
                        op_stack.deep_view(),
                    ),
                    rparen_rest(st0) == rparen_rest(op_stack.deep_view()),
                decreases op_stack@.len(),
            {
                let ghost out1 = output.deep_view();
                let ghost st1 = op_stack.deep_view();
                match op_stack.pop() {
                    Some(x) => {
                        output.push(x);
                        proof {
                            assert(op_stack.deep_view() =~~= st1.drop_last());
                            assert(output.deep_view() =~~= out1.push(st1.last()));
                            assert(out1 + rparen_popped(st1) =~~= output.deep_view()
                                + rparen_popped(op_stack.deep_view()));
                        }
                    },
                    None => {},
                }
            }
            proof {
                assert(rparen_popped(op_stack.deep_view()) =~~= Seq::<Seq<char>>::empty());
                assert(output.deep_view() =~~= out0 + rparen_popped(st0));
            }
            if op_stack.len() > 0 {
                let ghost st1 = op_stack.deep_view();
                op_stack.pop();
                proof {
                    assert(op_stack.deep_view() =~~= st1.drop_last());
                    assert(is_lparen_token(st1.last()));
                }
            }
            proof {
                assert(op_stack.deep_view() == rparen_rest(st0));
            }
        } else {
            let p = get_precedence(t.as_str());
            let ghost pp = spec_precedence(t@);
            while op_stack.len() > 0 && get_precedence(op_stack[op_stack.len() - 1].as_str()) >= p
                invariant
                    p as int == pp,
                    out0 + ops_popped(st0, pp) == output.deep_view() + ops_popped(
                        op_stack.deep_view(),
                        pp,
                    ),
                    ops_rest(st0, pp) == ops_rest(op_stack.deep_view(), pp),
                decreases op_stack@.len(),
            {
                let ghost out1 = output.deep_view();
                let ghost st1 = op_stack.deep_view();
                match op_stack.pop() {
                    Some(x) => {
                        output.push(x);
                        proof {
                            assert(op_stack.deep_view() =~~= st1.drop_last());
                            assert(output.deep_view() =~~= out1.push(st1.last()));
                            assert(out1 + ops_popped(st1, pp) =~~= output.deep_view()
                                + ops_popped(op_stack.deep_view(), pp));
                        }
                    },
                    None => {},
                }
            }
            proof {
                assert(ops_popped(op_stack.deep_view(), pp) =~~= Seq::<Seq<char>>::empty());
                assert(output.deep_view() =~~= out0 + ops_popped(st0, pp));
                assert(op_stack.deep_view() == ops_rest(st0, pp));
            }
            let ghost st2 = op_stack.deep_view();
            let owned = t.clone();
            op_stack.push(owned);
            proof {
                assert(op_stack.deep_view() =~~= st2.push(t@));
            }
        }
        idx += 1;
        proof {
            assert(toks.skip(idx - 1).skip(1) =~= toks.skip(idx as int));
            assert((output.deep_view(), op_stack.deep_view()) == sy_step(out0, st0, t@));
            assert(sy_run(toks.skip(idx - 1), out0, st0) == sy_run(
                toks.skip(idx as int),
                output.deep_view(),
                op_stack.deep_view(),
            ));
        }
    }
    proof {
        assert(toks.skip(toks.len() as int) =~= Seq::<Seq<char>>::empty());
    }
    let ghost out_done = output.deep_view();
    let ghost st_done = op_stack.deep_view();
    while op_stack.len() > 0
        invariant
            out_done + st_done.reverse() == output.deep_view() + op_stack.deep_view().reverse(),
        decreases op_stack@.len(),
    {
        let ghost out1 = output.deep_view();
        let ghost st1 = op_stack.deep_view();
        match op_stack.pop() {
            Some(x) => {
                output.push(x);
                proof {
                    assert(op_stack.deep_view() =~~= st1.drop_last());
                    assert(output.deep_view() =~~= out1.push(st1.last()));
                    assert(st1.reverse() =~~= seq![st1.last()] + st1.drop_last().reverse());
                    assert(out1 + st1.reverse() =~~= output.deep_view()
                        + op_stack.deep_view().reverse());
                }
            },
            None => {},
        }
    }
    proof {
        assert(op_stack.deep_view().reverse() =~~= Seq::<Seq<char>>::empty());
        assert(output.deep_view() =~~= output.deep_view() + op_stack.deep_view().reverse());
        assert(output.deep_view() =~~= out_done + st_done.reverse());
    }
    output
}

/// Tokenizes an expression string and converts the tokens to postfix order
/// in one call.
pub fn infix_to_postfix(expression: &str) -> (postfix: Vec<String>)
    ensures
        postfix.deep_view() == spec_convert(spec_tokenize(expression@)),
{
    let tokens = tokenize(expression);
    convert(&tokens)
}

} // verus!
