//! The expression language: numbers, `+ - * /`, parentheses, references
//! `[name]` and the variadic `avg(...)`. An expression is rendered, with
//! the values of its references, into plain arithmetic text that evalexpr
//! evaluates.
use vstd::prelude::*;
use crate::graph::{lemma_word_run_end, ref_at, word_run};
use crate::text::{is_space, space, is_word_char, push_decimal, decimal, same_chars, slice_of, word_char, string_of, chars_of};

verus! {

/// Names bound to value texts; the first binding of a name counts.
pub type Bindings = Seq<(Seq<char>, Seq<char>)>;

pub open spec fn bindings_view(c: Seq<(Vec<char>, Vec<char>)>) -> Bindings {
    c.map_values(|p: (Vec<char>, Vec<char>)| (p.0@, p.1@))
}

/// The value bound to `n` at or after position `i`.
pub open spec fn lookup_from(ctx: Bindings, n: Seq<char>, i: int) -> Option<Seq<char>>
    decreases ctx.len() - i,
{
    if i < 0 || i >= ctx.len() {
        None
    } else if ctx[i].0 == n {
        Some(ctx[i].1)
    } else {
        lookup_from(ctx, n, i + 1)
    }
}

pub open spec fn lookup(ctx: Bindings, n: Seq<char>) -> Option<Seq<char>> {
    lookup_from(ctx, n, 0)
}

pub open spec fn is_digit(c: char) -> bool {
    '0' <= c <= '9'
}

pub open spec fn digit_run(s: Seq<char>, i: int) -> nat
    decreases s.len() - i,
{
    if 0 <= i < s.len() && is_digit(s[i]) {
        1 + digit_run(s, i + 1)
    } else {
        0
    }
}

/// Length of the number literal (digits, then optionally `.` and digits)
/// that starts at `i`; -1 where a `.` is not followed by a digit.
pub open spec fn num_len(s: Seq<char>, i: int) -> int {
    let a = digit_run(s, i);
    if i + a < s.len() && s[i + a] == '.' {
        if digit_run(s, i + a + 1) > 0 {
            (a + 1 + digit_run(s, i + a + 1)) as int
        } else {
            -1
        }
    } else {
        a as int
    }
}

/// A number as values are written: an optional `-`, then a literal.
pub open spec fn is_number_text(v: Seq<char>) -> bool {
    let st: int = if v.len() > 0 && v[0] == '-' {
        1
    } else {
        0
    };
    digit_run(v, st) > 0 && num_len(v, st) == v.len() - st
}

/// A literal written as a floating-point literal: `.0` is added to a whole number.
pub open spec fn float_text(d: Seq<char>) -> Seq<char> {
    if d.contains('.') {
        d
    } else {
        d + seq!['.', '0']
    }
}

pub open spec fn is_op(c: char) -> bool {
    c == '+' || c == '-' || c == '*' || c == '/'
}

pub open spec fn avg_name() -> Seq<char> {
    seq!['a', 'v', 'g']
}

/// The text that closes an `avg` call of `k` arguments: `))/k.0`.
pub open spec fn avg_close(k: nat) -> Seq<char> {
    seq![')', ')', '/'] + decimal(k) + seq!['.', '0']
}

/// Renders `s` from position `i` on. `open` holds one entry per open
/// parenthesis: 0 for a plain one, `k > 0` for an `avg` call that has seen
/// `k` arguments so far. Numbers become floating-point literals, a reference
/// becomes its bound value in parentheses, and `avg(x1, .., xk)` becomes
/// `((x1)+..+(xk))/k.0`.
pub open spec fn render_from(s: Seq<char>, i: int, open: Seq<nat>, ctx: Bindings) -> Option<Seq<char>>
    decreases s.len() - i,
{
    if i < 0 || i >= s.len() {
        if open.len() == 0 {
            Some(Seq::empty())
        } else {
            None
        }
    } else {
        let c = s[i];
        if is_space(c) {
            render_from(s, i + 1, open, ctx)
        } else if is_digit(c) {
            let l = num_len(s, i);
            if l <= 0 || i + l > s.len() {
                None
            } else {
                match render_from(s, i + l, open, ctx) {
                    None => None,
                    Some(rest) => Some(float_text(s.subrange(i, i + l)) + rest),
                }
            }
        } else if c == '[' {
            if !ref_at(s, i) {
                None
            } else {
                let w = word_run(s, i + 1);
                match lookup(ctx, s.subrange(i + 1, i + 1 + w)) {
                    None => None,
                    Some(v) => if !is_number_text(v) {
                        None
                    } else {
                        match render_from(s, i + 2 + w, open, ctx) {
                            None => None,
                            Some(rest) => Some(seq!['('] + float_text(v) + seq![')'] + rest),
                        }
                    },
                }
            }
        } else if is_op(c) {
            match render_from(s, i + 1, open, ctx) {
                None => None,
                Some(rest) => Some(seq![c] + rest),
            }
        } else if c == '(' {
            match render_from(s, i + 1, open.push(0), ctx) {
                None => None,
                Some(rest) => Some(seq!['('] + rest),
            }
        } else if c == ',' {
            if open.len() == 0 || open.last() == 0 {
                None
            } else {
                match render_from(s, i + 1, open.drop_last().push(open.last() + 1), ctx) {
                    None => None,
                    Some(rest) => Some(seq![')', '+', '('] + rest),
                }
            }
        } else if c == ')' {
            if open.len() == 0 {
                None
            } else {
                match render_from(s, i + 1, open.drop_last(), ctx) {
                    None => None,
                    Some(rest) => if open.last() == 0 {
                        Some(seq![')'] + rest)
                    } else {
                        Some(avg_close(open.last()) + rest)
                    },
                }
            }
        } else if is_word_char(c) {
            let w = word_run(s, i);
            if avg_call(s, i) {
                match render_from(s, i + w + 1, open.push(1), ctx) {
                    None => None,
                    Some(rest) => Some(seq!['(', '('] + rest),
                }
            } else {
                None
            }
        } else {
            None
        }
    }
}

/// The arithmetic text of an expression whose references take their
/// values from `ctx`; `None` where the expression is malformed, calls an
/// unknown function, or references a name without a numeric value.
pub open spec fn render(s: Seq<char>, ctx: Bindings) -> Option<Seq<char>> {
    render_from(s, 0, Seq::empty(), ctx)
}

pub open spec fn then_prefix(o: Seq<char>, r: Option<Seq<char>>) -> Option<Seq<char>> {
    match r {
        None => None,
        Some(t) => Some(o + t),
    }
}

pub open spec fn opt_view(r: Option<Vec<char>>) -> Option<Seq<char>> {
    match r {
        None => None,
        Some(v) => Some(v@),
    }
}

pub open spec fn open_view(o: Seq<usize>) -> Seq<nat> {
    o.map_values(|x: usize| x as nat)
}

proof fn lemma_digit_run_end(s: Seq<char>, i: int, j: int)
    requires
        0 <= i <= j <= s.len(),
        forall|k: int| i <= k < j ==> is_digit(#[trigger] s[k]),
    ensures
        digit_run(s, i) == (j - i) + digit_run(s, j),
    decreases j - i,
{
    if i < j {
        lemma_digit_run_end(s, i + 1, j);
    }
}

fn digit_len(s: &Vec<char>, i: usize) -> (r: usize)
    requires
        i <= s@.len(),
    ensures
        r == digit_run(s@, i as int),
        i + r <= s@.len(),
{
    let mut j: usize = i;
    while j < s.len() && '0' <= s[j] && s[j] <= '9'
        invariant
            i <= j <= s@.len(),
            forall|k: int| i <= k < j ==> is_digit(#[trigger] s@[k]),
        decreases s@.len() - j,
    {
        j = j + 1;
    }
    proof {
        lemma_digit_run_end(s@, i as int, j as int);
    }
    j - i
}

fn word_len(s: &Vec<char>, i: usize) -> (r: usize)
    requires
        i <= s@.len(),
    ensures
        r == word_run(s@, i as int),
        i + r <= s@.len(),
{
    let mut j: usize = i;
    while j < s.len() && word_char(s[j])
        invariant
            i <= j <= s@.len(),
            forall|k: int| i <= k < j ==> is_word_char(#[trigger] s@[k]),
        decreases s@.len() - j,
    {
        j = j + 1;
    }
    proof {
        lemma_word_run_end(s@, i as int, j as int);
    }
    j - i
}

fn number_len(s: &Vec<char>, i: usize) -> (r: Option<usize>)
    requires
        i <= s@.len(),
    ensures
        match r {
            None => num_len(s@, i as int) < 0,
            Some(l) => l == num_len(s@, i as int) && i + l <= s@.len(),
        },
{
    let a = digit_len(s, i);
    if a < s.len() - i && s[i + a] == '.' {
        let b = digit_len(s, i + a + 1);
        if b > 0 {
            Some(a + 1 + b)
        } else {
            None
        }
    } else {
        Some(a)
    }
}

/// Appends `float_text(v[lo..hi])`.
fn push_float_text(out: &mut Vec<char>, v: &Vec<char>, lo: usize, hi: usize)
    requires
        lo <= hi <= v@.len(),
    ensures
        final(out)@ == old(out)@ + float_text(v@.subrange(lo as int, hi as int)),
{
    let ghost d = v@.subrange(lo as int, hi as int);
    let mut dot = false;
    assert(v@.subrange(lo as int, lo as int) =~= Seq::<char>::empty());
    assert(out@ =~= old(out)@ + v@.subrange(lo as int, lo as int));
    let mut i: usize = lo;
    while i < hi
        invariant
            lo <= i <= hi <= v@.len(),
            d == v@.subrange(lo as int, hi as int),
            out@ == old(out)@ + v@.subrange(lo as int, i as int),
            dot <==> exists|k: int| lo <= k < i && v@[k] == '.',
        decreases hi - i,
    {
        if v[i] == '.' {
            dot = true;
        }
        out.push(v[i]);
        i = i + 1;
        assert(out@ =~= old(out)@ + v@.subrange(lo as int, i as int));
    }
    assert(dot <==> d.contains('.')) by {
        if dot {
            let k = choose|k: int| lo <= k < i && v@[k] == '.';
            assert(d[k - lo] == '.');
        }
        if d.contains('.') {
            let k = choose|k: int| 0 <= k < d.len() && d[k] == '.';
            assert(v@[lo + k] == '.');
        }
    }
    if !dot {
        out.push('.');
        out.push('0');
    }
    assert(out@ =~= old(out)@ + float_text(d));
}

/// The value bound to `n`, as its position in `ctx`.
pub(crate) fn lookup_index(ctx: &Vec<(Vec<char>, Vec<char>)>, n: &Vec<char>) -> (r: Option<usize>)
    ensures
        match r {
            None => lookup(bindings_view(ctx@), n@) is None,
            Some(k) => k < ctx@.len() && lookup(bindings_view(ctx@), n@) == Some(ctx@[k as int].1@),
        },
{
    let ghost b = bindings_view(ctx@);
    let mut i: usize = 0;
    while i < ctx.len()
        invariant
            0 <= i <= ctx@.len(),
            b == bindings_view(ctx@),
            lookup(b, n@) == lookup_from(b, n@, i as int),
        decreases ctx@.len() - i,
    {
        assert(b[i as int] == (ctx@[i as int].0@, ctx@[i as int].1@));
        if same_chars(&ctx[i].0, n) {
            return Some(i);
        }
        i = i + 1;
    }
    None
}

/// Whether `v` is written as a number.
pub fn is_number(v: &Vec<char>) -> (r: bool)
    ensures
        r == is_number_text(v@),
{
    let st: usize = if v.len() > 0 && v[0] == '-' {
        1
    } else {
        0
    };
    if st > v.len() {
        return false;
    }
    let a = digit_len(v, st);
    if a == 0 {
        return false;
    }
    match number_len(v, st) {
        None => false,
        Some(l) => l == v.len() - st,
    }
}

pub open spec fn avg_call(s: Seq<char>, i: int) -> bool {
    s.subrange(i, i + word_run(s, i)) == avg_name() && i + word_run(s, i) < s.len() && s[i + word_run(s, i)] == '('
}

/// Whether `avg(` starts at `i`, the name not running on.
fn avg_call_at(s: &Vec<char>, i: usize) -> (r: bool)
    requires
        i < s@.len(),
    ensures
        r == avg_call(s@, i as int),
        r ==> word_run(s@, i as int) == 3 && i + 3 < s@.len(),
{
    let w = word_len(s, i);
    proof {
        if s@.subrange(i as int, i + w) == avg_name() {
            assert(s@.subrange(i as int, i + w).len() == 3);
            assert(s@.subrange(i as int, i + w)[0] == 'a');
            assert(s@.subrange(i as int, i + w)[1] == 'v');
            assert(s@.subrange(i as int, i + w)[2] == 'g');
        }
    }
    if w == 3 && s.len() - i > 3 && s[i] == 'a' && s[i + 1] == 'v' && s[i + 2] == 'g' && s[i + 3] == '(' {
        assert(s@.subrange(i as int, i + 3) =~= avg_name());
        true
    } else {
        false
    }
}

/// Renders an expression into arithmetic text; see `render`.
#[verifier::rlimit(40)]
pub fn render_expression(s: &Vec<char>, ctx: &Vec<(Vec<char>, Vec<char>)>) -> (r: Option<Vec<char>>)
    ensures
        opt_view(r) == render(s@, bindings_view(ctx@)),
{
    let ghost b = bindings_view(ctx@);
    let mut out: Vec<char> = Vec::new();
    let mut open: Vec<usize> = Vec::new();
    let mut i: usize = 0;
    assert(open_view(open@) =~= Seq::<nat>::empty());
    while i < s.len()
        invariant
            i <= s@.len(),
            b == bindings_view(ctx@),
            render(s@, b) == then_prefix(out@, render_from(s@, i as int, open_view(open@), b)),
            forall|k: int| 0 <= k < open@.len() ==> #[trigger] open@[k] <= i,
        decreases s@.len() - i,
    {
        let c = s[i];
        let ghost ov = open_view(open@);
        let ghost prev = out@;
        if space(c) {
            i = i + 1;
        } else if '0' <= c && c <= '9' {
            match number_len(s, i) {
                None => {
                    return None;
                },
                Some(l) => {
                    assert(l > 0);
                    push_float_text(&mut out, s, i, i + l);
                    assert(then_prefix(out@, render_from(s@, i + l, ov, b)) == then_prefix(prev, render_from(s@, i as int, ov, b)));
                    i = i + l;
                },
            }
        } else if c == '[' {
            let w = word_len(s, i + 1);
            if w == 0 || i + 1 + w >= s.len() || s[i + 1 + w] != ']' {
                return None;
            }
            let name = slice_of(s, i + 1, i + 1 + w);
            match lookup_index(ctx, &name) {
                None => {
                    return None;
                },
                Some(k) => {
                    let v = &ctx[k].1;
                    if !is_number(v) {
                        return None;
                    }
                    out.push('(');
                    push_float_text(&mut out, v, 0, v.len());
                    out.push(')');
                    assert(v@.subrange(0, v@.len() as int) =~= v@);
                    assert(out@ =~= prev + (seq!['('] + float_text(v@) + seq![')']));
                    i = i + 2 + w;
                },
            }
        } else if c == '+' || c == '-' || c == '*' || c == '/' {
            out.push(c);
            assert(out@ =~= prev + seq![c]);
            i = i + 1;
        } else if c == '(' {
            out.push('(');
            open.push(0);
            assert(out@ =~= prev + seq!['(']);
            assert(open_view(open@) =~= ov.push(0));
            i = i + 1;
        } else if c == ',' {
            if open.len() == 0 || open[open.len() - 1] == 0 {
                return None;
            }
            let top = open.pop().unwrap();
            open.push(top + 1);
            out.push(')');
            out.push('+');
            out.push('(');
            assert(out@ =~= prev + seq![')', '+', '(']);
            assert(open_view(open@) =~= ov.drop_last().push(ov.last() + 1));
            i = i + 1;
        } else if c == ')' {
            if open.len() == 0 {
                return None;
            }
            let top = open.pop().unwrap();
            assert(open_view(open@) =~= ov.drop_last());
            if top == 0 {
                out.push(')');
                assert(out@ =~= prev + seq![')']);
            } else {
                out.push(')');
                out.push(')');
                out.push('/');
                push_decimal(top, &mut out);
                out.push('.');
                out.push('0');
                assert(out@ =~= prev + avg_close(top as nat));
            }
            i = i + 1;
        } else if word_char(c) {
            if avg_call_at(s, i) {
                out.push('(');
                out.push('(');
                open.push(1);
                assert(out@ =~= prev + seq!['(', '(']);
                assert(open_view(open@) =~= ov.push(1));
                i = i + 4;
            } else {
                return None;
            }
        } else {
            return None;
        }
    }
    if open.len() > 0 {
        return None;
    }
    assert(out@ + Seq::<char>::empty() =~= out@);
    Some(out)
}

/// Plain arithmetic text: digits, `.`, `+ - * /` and parentheses only.
pub open spec fn is_arithmetic_text(t: Seq<char>) -> bool {
    forall|k: int| 0 <= k < t.len() ==> is_digit(#[trigger] t[k]) || t[k] == '.' || is_op(t[k]) || t[k] == '(' || t[k] == ')'
}

fn arithmetic_only(t: &Vec<char>) -> (r: bool)
    ensures
        r == is_arithmetic_text(t@),
{
    let mut i: usize = 0;
    while i < t.len()
        invariant
            i <= t@.len(),
            forall|k: int| 0 <= k < i ==> is_digit(#[trigger] t@[k]) || t@[k] == '.' || is_op(t@[k]) || t@[k] == '(' || t@[k] == ')',
        decreases t@.len() - i,
    {
        let c = t[i];
        if !(('0' <= c && c <= '9') || c == '.' || c == '+' || c == '-' || c == '*' || c == '/' || c == '(' || c == ')') {
            return false;
        }
        i = i + 1;
    }
    true
}

/// The number that evalexpr computes from a plain arithmetic text, as its
/// `Display` writes it.
pub uninterp spec fn arithmetic_value(t: Seq<char>) -> Option<Seq<char>>;

/// Relies on `evalexpr::eval`: evaluates the text; a float or an integer
/// result is written out by `Display`, anything else is no number. The text
/// holds only digits, `.`, operators and parentheses, so no evalexpr function
/// or variable is reached and the result depends on the text alone.
#[verifier::external_body]
fn eval_arithmetic(t: &str) -> (r: Option<String>)
    requires
        is_arithmetic_text(t@),
    ensures
        match r {
            None => arithmetic_value(t@) is None,
            Some(v) => arithmetic_value(t@) == Some(v@),
        },
{
    match evalexpr::eval(t) {
        Ok(evalexpr::Value::Float(x)) => Some(x.to_string()),
        Ok(evalexpr::Value::Int(x)) => Some(x.to_string()),
        _ => None,
    }
}

/// The value of an expression under `ctx`: its arithmetic text evaluated,
/// where that gives a finite number.
pub open spec fn evaluate(s: Seq<char>, ctx: Bindings) -> Option<Seq<char>> {
    match render(s, ctx) {
        None => None,
        Some(t) => if !is_arithmetic_text(t) {
            None
        } else {
            match arithmetic_value(t) {
                Some(v) => if is_number_text(v) {
                    Some(v)
                } else {
                    None
                },
                None => None,
            }
        },
    }
}

/// Evaluates an expression whose references take their values from `ctx`.
pub fn evaluate_expression(s: &Vec<char>, ctx: &Vec<(Vec<char>, Vec<char>)>) -> (r: Option<Vec<char>>)
    ensures
        opt_view(r) == evaluate(s@, bindings_view(ctx@)),
{
    let t = match render_expression(s, ctx) {
        None => {
            return None;
        },
        Some(t) => t,
    };
    if !arithmetic_only(&t) {
        return None;
    }
    let text = string_of(&t);
    match eval_arithmetic(text.as_str()) {
        None => None,
        Some(v) => {
            let cs = chars_of(v.as_str());
            if is_number(&cs) {
                Some(cs)
            } else {
                None
            }
        },
    }
}

} // verus!
