//! The tokenizer.  It scans an expression string left to right and cuts it
//! into tokens: numeric literals (`[0-9]* [.]? [0-9]+`), the five operator
//! characters `+ - * / ^`, and the two parentheses.  Every character that
//! starts no token is skipped silently, so any input is accepted.

use vstd::prelude::*;
use vstd::string::StrSliceExecFns;

verus! {

/// The seven one-character tokens: the five operators and the parentheses.
pub open spec fn is_symbol_char(c: char) -> bool {
    c == '+' || c == '-' || c == '*' || c == '/' || c == '(' || c == ')' || c == '^'
}

/// A decimal digit.
pub open spec fn is_digit_char(c: char) -> bool {
    '0' <= c && c <= '9'
}

/// Length of the run of decimal digits at the front of `s`.
pub open spec fn digit_run_len(s: Seq<char>) -> int
    decreases s.len(),
{
    if s.len() > 0 && is_digit_char(s[0]) {
        1 + digit_run_len(s.skip(1))
    } else {
        0
    }
}

/// Length of the longest numeric-literal prefix of `s`: a run of digits,
/// optionally followed by a dot and at least one more digit.  0 when no
/// numeric literal starts at the front of `s`.
pub open spec fn number_prefix_len(s: Seq<char>) -> int {
    let k = digit_run_len(s);
    if k < s.len() && s[k] == '.' && digit_run_len(s.skip(k + 1)) > 0 {
        k + 1 + digit_run_len(s.skip(k + 1))
    } else {
        k
    }
}

/// A whole token of the numeric class: `[0-9]* [.]? [0-9]+` matching the
/// entire token, so at least one digit, and a digit after the dot if there
/// is a dot.
pub open spec fn is_number_token(t: Seq<char>) -> bool {
    t.len() > 0 && number_prefix_len(t) == t.len()
}

pub proof fn lemma_digit_run_len_bounds(s: Seq<char>)
    ensures
        0 <= digit_run_len(s) <= s.len(),
    decreases s.len(),
{
    if s.len() > 0 && is_digit_char(s[0]) {
        lemma_digit_run_len_bounds(s.skip(1));
    }
}

pub proof fn lemma_number_prefix_len_bounds(s: Seq<char>)
    ensures
        0 <= number_prefix_len(s) <= s.len(),
{
    lemma_digit_run_len_bounds(s);
    let k = digit_run_len(s);
    if k < s.len() && s[k] == '.' && digit_run_len(s.skip(k + 1)) > 0 {
        lemma_digit_run_len_bounds(s.skip(k + 1));
    }
}

/// `digit_run_len` is pinned down by its two defining properties: the first
/// `k` characters are digits and the run stops at `k`.
pub proof fn lemma_digit_run_len_is(s: Seq<char>, k: int)
    requires
        0 <= k <= s.len(),
        forall|j: int| 0 <= j < k ==> is_digit_char(#[trigger] s[j]),
        k == s.len() || !is_digit_char(s[k]),
    ensures
        digit_run_len(s) == k,
    decreases s.len(),
{
    if k == 0 {
        if s.len() > 0 && is_digit_char(s[0]) {
            assert(false);
        }
    } else {
        assert(is_digit_char(s[0]));
        lemma_digit_run_len_is(s.skip(1), k - 1);
    }
}

/// The token sequence of `s`: scan from the left; a symbol character is a
/// token of its own, a numeric literal is taken whole, and any other
/// character is skipped.
pub open spec fn spec_tokenize(s: Seq<char>) -> Seq<Seq<char>>
    decreases s.len()
    via spec_tokenize_dec
{
    if s.len() == 0 {
        Seq::empty()
    } else if is_symbol_char(s[0]) {
        seq![seq![s[0]]] + spec_tokenize(s.skip(1))
    } else if number_prefix_len(s) > 0 {
        seq![s.take(number_prefix_len(s))] + spec_tokenize(s.skip(number_prefix_len(s)))
    } else {
        spec_tokenize(s.skip(1))
    }
}

#[via_fn]
proof fn spec_tokenize_dec(s: Seq<char>) {
    lemma_number_prefix_len_bounds(s);
}

/// Exec check for a decimal digit.
pub fn is_digit(c: char) -> (b: bool)
    ensures
        b == is_digit_char(c),
{
    '0' <= c && c <= '9'
}

/// Exec check for the seven one-character tokens.
pub fn is_symbol(c: char) -> (b: bool)
    ensures
        b == is_symbol_char(c),
{
    c == '+' || c == '-' || c == '*' || c == '/' || c == '(' || c == ')' || c == '^'
}

/// Scans the run of digits of `s` that starts at `from` and returns the
/// position just past it.
fn scan_digits(s: &str, from: usize, n: usize) -> (end: usize)
    requires
        n == s@.len(),
        from <= n,
    ensures
        from <= end <= n,
        end - from == digit_run_len(s@.skip(from as int)),
{
    let mut j: usize = from;
    while j < n && is_digit(s.get_char(j))
        invariant
            n == s@.len(),
            from <= j <= n,
            forall|t: int| from <= t < j ==> is_digit_char(#[trigger] s@[t]),
        decreases n - j,
    {
        j += 1;
    }
    proof {
        let sub = s@.skip(from as int);
        let k = j - from;
        assert forall|t: int| 0 <= t < k implies is_digit_char(#[trigger] sub[t]) by {
            assert(sub[t] == s@[t + from]);
        }
        if j < n {
            assert(sub[k] == s@[j as int]);
        }
        lemma_digit_run_len_is(sub, k);
    }
    j
}

/// Exec check that a whole token is a numeric literal.
pub fn is_number(t: &str) -> (b: bool)
    ensures
        b == is_number_token(t@),
{
    let n = t.unicode_len();
    let j = scan_digits(t, 0, n);
    proof {
        assert(t@.skip(0) =~= t@);
    }
    if j == n {
        n > 0
    } else if t.get_char(j) == '.' {
        let j2 = scan_digits(t, j + 1, n);
        j2 == n && j2 > j + 1
    } else {
        false
    }
}

/// Splits an expression string into its tokens, in reading order.
/// Characters that belong to no token are dropped.
pub fn tokenize(expression: &str) -> (tokens: Vec<String>)
    ensures
        tokens.deep_view() == spec_tokenize(expression@),
{
    let n = expression.unicode_len();
    let mut tokens: Vec<String> = Vec::new();
    let mut i: usize = 0;
    proof {
        assert(expression@.skip(0) =~= expression@);
        assert(tokens.deep_view() + spec_tokenize(expression@) =~~= spec_tokenize(expression@));
    }
    while i < n
        invariant
            n == expression@.len(),
            i <= n,
            spec_tokenize(expression@) == tokens.deep_view() + spec_tokenize(
                expression@.skip(i as int),
            ),
        decreases n - i,
    {
        let ghost prev = tokens.deep_view();
        let ghost rest = expression@.skip(i as int);
        let c = expression.get_char(i);
        proof {
            assert(rest[0] == c);
        }
        if is_symbol(c) {
            let t = expression.substring_char(i, i + 1);
            let owned = t.to_owned();
            tokens.push(owned);
            i += 1;
            proof {
                assert(t@ =~= seq![c]);
                assert(rest.skip(1) =~= expression@.skip(i as int));
                assert(spec_tokenize(rest) == seq![seq![c]] + spec_tokenize(
                    expression@.skip(i as int),
                ));
                assert(tokens.deep_view() =~~= prev.push(owned@));
                assert(prev + spec_tokenize(rest) =~~= tokens.deep_view() + spec_tokenize(
                    expression@.skip(i as int),
                ));
            }
        } else {
            let j = scan_digits(expression, i, n);
            let mut end = j;
            if j < n && expression.get_char(j) == '.' {
                let j2 = scan_digits(expression, j + 1, n);
                if j2 > j + 1 {
                    end = j2;
                }
            }
            proof {
                assert(digit_run_len(rest) == j - i);
            }
            if end == i {
                // no token starts here: the character is skipped
                i += 1;
                proof {
                    assert(digit_run_len(rest) == 0);
                    if 0 < rest.len() && rest[0] == '.' {
                        assert(rest.skip(1) =~= expression@.skip(j as int + 1));
                    }
                    assert(number_prefix_len(rest) == 0);
                    assert(rest.skip(1) =~= expression@.skip(i as int));
                    assert(spec_tokenize(rest) == spec_tokenize(expression@.skip(i as int)));
                }
            } else {
                let t = expression.substring_char(i, end);
                let owned = t.to_owned();
                tokens.push(owned);
                proof {
                    lemma_number_len_here(expression@, i as int, j as int, end as int);
                    assert(t@ =~= rest.take(end - i));
                    assert(rest.skip(end - i) =~= expression@.skip(end as int));
                    assert(spec_tokenize(rest) == seq![rest.take(end - i)] + spec_tokenize(
                        expression@.skip(end as int),
                    ));
                    assert(tokens.deep_view() =~~= prev.push(owned@));
                    assert(prev + spec_tokenize(rest) =~~= tokens.deep_view() + spec_tokenize(
                        expression@.skip(end as int),
                    ));
                }
                i = end;
            }
        }
    }
    proof {
        assert(expression@.skip(n as int) =~= Seq::<char>::empty());
        assert(tokens.deep_view() + spec_tokenize(expression@.skip(n as int)) =~~= tokens.deep_view());
    }
    tokens
}

/// `a` can be read out of `b` left to right: every character of `a` appears
/// in `b`, in the same relative order, with gaps allowed.
pub open spec fn is_subsequence(a: Seq<char>, b: Seq<char>) -> bool
    decreases b.len(), a.len(),
{
    if a.len() == 0 {
        true
    } else if b.len() == 0 {
        false
    } else if a[0] == b[0] {
        is_subsequence(a.skip(1), b.skip(1))
    } else {
        is_subsequence(a, b.skip(1))
    }
}

/// A subsequence of `b` without its first character is a subsequence of `b`.
proof fn lemma_subseq_widen(a: Seq<char>, b: Seq<char>)
    requires
        b.len() > 0,
        is_subsequence(a, b.skip(1)),
    ensures
        is_subsequence(a, b),
    decreases b.len(), 0int,
{
    if a.len() == 0 {
    } else if a[0] == b[0] {
        lemma_subseq_tail(a, b.skip(1));
    }
}

/// Dropping the first character of a sequence keeps it a subsequence.
proof fn lemma_subseq_tail(a: Seq<char>, b: Seq<char>)
    requires
        a.len() > 0,
        is_subsequence(a, b),
    ensures
        is_subsequence(a.skip(1), b),
    decreases b.len(), 1int,
{
    if b.len() == 0 {
    } else if a[0] == b[0] {
        lemma_subseq_widen(a.skip(1), b);
    } else {
        lemma_subseq_tail(a, b.skip(1));
        lemma_subseq_widen(a.skip(1), b);
    }
}

/// A prefix of `b`, followed by a subsequence of the rest of `b`, is a
/// subsequence of `b`.
proof fn lemma_subseq_prefix(p: Seq<char>, f: Seq<char>, b: Seq<char>)
    requires
        p.len() <= b.len(),
        p == b.take(p.len() as int),
        is_subsequence(f, b.skip(p.len() as int)),
    ensures
        is_subsequence(p + f, b),
    decreases p.len(),
{
    if p.len() == 0 {
        assert(p + f =~= f);
        assert(b.skip(0) =~= b);
    } else {
        assert((p + f)[0] == b[0]);
        let p1 = p.skip(1);
        let b1 = b.skip(1);
        assert(p1 =~= b1.take(p1.len() as int));
        assert(b1.skip(p1.len() as int) =~= b.skip(p.len() as int));
        lemma_subseq_prefix(p1, f, b1);
        assert((p + f).skip(1) =~= p1 + f);
    }
}

/// Token coverage: the characters of the tokens of `s`, concatenated in
/// token order, appear in `s` in the same relative order — the tokenizer
/// reorders nothing and fabricates nothing.
pub proof fn lemma_token_coverage(s: Seq<char>)
    ensures
        is_subsequence(spec_tokenize(s).flatten(), s),
    decreases s.len(),
{
    if s.len() == 0 {
        assert(spec_tokenize(s).flatten() =~= Seq::<char>::empty());
    } else if is_symbol_char(s[0]) {
        let ts = spec_tokenize(s);
        let rest = spec_tokenize(s.skip(1));
        lemma_token_coverage(s.skip(1));
        assert(ts.drop_first() =~= rest);
        assert(ts.flatten() == seq![s[0]] + rest.flatten());
        assert(seq![s[0]] =~= s.take(1));
        lemma_subseq_prefix(seq![s[0]], rest.flatten(), s);
    } else if number_prefix_len(s) > 0 {
        let n = number_prefix_len(s);
        lemma_number_prefix_len_bounds(s);
        let ts = spec_tokenize(s);
        let rest = spec_tokenize(s.skip(n));
        lemma_token_coverage(s.skip(n));
        assert(ts.drop_first() =~= rest);
        assert(ts.flatten() == s.take(n) + rest.flatten());
        lemma_subseq_prefix(s.take(n), rest.flatten(), s);
    } else {
        lemma_token_coverage(s.skip(1));
        lemma_subseq_widen(spec_tokenize(s).flatten(), s);
    }
}

/// Every character of the digit run is a digit.
proof fn lemma_digit_run_chars(s: Seq<char>)
    ensures
        forall|j: int| 0 <= j < digit_run_len(s) ==> is_digit_char(#[trigger] s[j]),
    decreases s.len(),
{
    lemma_digit_run_len_bounds(s);
    if s.len() > 0 && is_digit_char(s[0]) {
        lemma_digit_run_chars(s.skip(1));
        assert forall|j: int| 0 <= j < digit_run_len(s) implies is_digit_char(#[trigger] s[j]) by {
            if j > 0 {
                assert(s.skip(1)[j - 1] == s[j]);
            }
        }
    }
}

/// The numeric prefix, taken by itself, is a numeric token.
proof fn lemma_number_prefix_is_number(s: Seq<char>)
    requires
        number_prefix_len(s) > 0,
    ensures
        is_number_token(s.take(number_prefix_len(s))),
{
    let k = digit_run_len(s);
    lemma_digit_run_len_bounds(s);
    lemma_digit_run_chars(s);
    if k < s.len() && s[k] == '.' && digit_run_len(s.skip(k + 1)) > 0 {
        let m = digit_run_len(s.skip(k + 1));
        lemma_digit_run_len_bounds(s.skip(k + 1));
        lemma_digit_run_chars(s.skip(k + 1));
        let t = s.take(k + 1 + m);
        assert forall|j: int| 0 <= j < k implies is_digit_char(#[trigger] t[j]) by {
            assert(t[j] == s[j]);
        }
        assert(t[k] == s[k]);
        lemma_digit_run_len_is(t, k);
        assert(t.skip(k + 1) =~= s.skip(k + 1).take(m));
        assert forall|j: int| 0 <= j < m implies is_digit_char(#[trigger] t.skip(k + 1)[j]) by {
            assert(t.skip(k + 1)[j] == s.skip(k + 1)[j]);
        }
        lemma_digit_run_len_is(t.skip(k + 1), m);
    } else {
        let t = s.take(k);
        assert forall|j: int| 0 <= j < k implies is_digit_char(#[trigger] t[j]) by {
            assert(t[j] == s[j]);
        }
        lemma_digit_run_len_is(t, k);
    }
}

/// Every token the tokenizer produces falls in one of the four classes of
/// the data model: a numeric literal, an operator, or a parenthesis — the
/// last two being the seven one-character symbols.
pub proof fn lemma_token_classes(s: Seq<char>)
    ensures
        forall|i: int|
            0 <= i < spec_tokenize(s).len() ==> is_number_token(#[trigger] spec_tokenize(s)[i]) || (
            spec_tokenize(s)[i].len() == 1 && is_symbol_char(spec_tokenize(s)[i][0])),
    decreases s.len(),
{
    let ts = spec_tokenize(s);
    if s.len() == 0 {
    } else if is_symbol_char(s[0]) {
        lemma_token_classes(s.skip(1));
        assert forall|i: int|
            0 <= i < ts.len() implies is_number_token(#[trigger] ts[i]) || (ts[i].len() == 1
            && is_symbol_char(ts[i][0])) by {
            if i > 0 {
                assert(ts[i] == spec_tokenize(s.skip(1))[i - 1]);
            }
        }
    } else if number_prefix_len(s) > 0 {
        let n = number_prefix_len(s);
        lemma_number_prefix_len_bounds(s);
        lemma_number_prefix_is_number(s);
        lemma_token_classes(s.skip(n));
        assert forall|i: int|
            0 <= i < ts.len() implies is_number_token(#[trigger] ts[i]) || (ts[i].len() == 1
            && is_symbol_char(ts[i][0])) by {
            if i > 0 {
                assert(ts[i] == spec_tokenize(s.skip(n))[i - 1]);
            }
        }
    } else {
        lemma_token_classes(s.skip(1));
    }
}

/// Tokenization is deterministic: the token sequence is a function of the
/// input text alone, so any two tokenizations of the same text are equal.
pub proof fn lemma_tokenize_deterministic(
    s: Seq<char>,
    first: Seq<Seq<char>>,
    second: Seq<Seq<char>>,
)
    requires
        first == spec_tokenize(s),
        second == spec_tokenize(s),
    ensures
        first == second,
{
}

/// Characterises `number_prefix_len` of the suffix that starts at `i` from
/// the absolute positions found by the scans: `j` ends the digit run at `i`,
/// and `end` ends the whole numeric literal.
proof fn lemma_number_len_here(s: Seq<char>, i: int, j: int, end: int)
    requires
        0 <= i <= j <= s.len(),
        digit_run_len(s.skip(i)) == j - i,
        i < end,
        if j < s.len() && s[j] == '.' && digit_run_len(s.skip(j + 1)) > 0 {
            end == j + 1 + digit_run_len(s.skip(j + 1))
        } else {
            end == j
        },
    ensures
        number_prefix_len(s.skip(i)) == end - i,
{
    let rest = s.skip(i);
    let k = digit_run_len(rest);
    lemma_digit_run_len_bounds(rest);
    if j < s.len() && s[j] == '.' && digit_run_len(s.skip(j + 1)) > 0 {
        assert(rest[k] == s[j]);
        assert(rest.skip(k + 1) =~= s.skip(j + 1));
    } else {
        if k < rest.len() && rest[k] == '.' {
            assert(rest[k] == s[j]);
            assert(rest.skip(k + 1) =~= s.skip(j + 1));
        }
    }
}

} // verus!
