//! Arithmetic expression trees over 32-bit integers, and their evaluation.
use vstd::prelude::*;
use vstd::std_specs::iter::IteratorSpec;

verus! {

/// An arithmetic expression, or one of the tokens that the tokenizer
/// produces before parsing (`Sym`, `EOF`, `Dummy`).
#[derive(Debug)]
pub enum Expr {
    Val(i32),
    Plus(Box<Expr>, Box<Expr>),
    Minus(Box<Expr>, Box<Expr>),
    Times(Box<Expr>, Box<Expr>),
    Divide(Box<Expr>, Box<Expr>),
    Mod(Box<Expr>, Box<Expr>),
    Neg(Box<Expr>),
    Sym(char),
    EOF,
    Dummy,
}

/// Combines the values of two operands, when both have one.
pub open spec fn both(a: Option<i32>, b: Option<i32>, f: spec_fn(i32, i32) -> Option<i32>) -> Option<i32> {
    match (a, b) {
        (Some(x), Some(y)) => f(x, y),
        _ => None,
    }
}

/// The value of an expression: `None` for a token that is not a value, for
/// a division or remainder by zero, and for a result outside the range of
/// `i32`.  Division and remainder truncate toward zero.
pub open spec fn value(e: Expr) -> Option<i32>
    decreases e,
{
    match e {
        Expr::Val(x) => Some(x),
        Expr::Neg(a) => match value(*a) {
            Some(x) => x.checked_mul(-1i32),
            None => None,
        },
        Expr::Plus(a, b) => both(value(*a), value(*b), |x: i32, y: i32| x.checked_add(y)),
        Expr::Minus(a, b) => both(value(*a), value(*b), |x: i32, y: i32| x.checked_sub(y)),
        Expr::Times(a, b) => both(value(*a), value(*b), |x: i32, y: i32| x.checked_mul(y)),
        Expr::Divide(a, b) => both(value(*a), value(*b), |x: i32, y: i32| x.checked_div(y)),
        Expr::Mod(a, b) => both(value(*a), value(*b), |x: i32, y: i32| x.checked_rem(y)),
        _ => None,
    }
}

/// The default expression is the placeholder.
impl Default for Expr {
    fn default() -> (r: Self)
        ensures
            r is Dummy,
    {
        Expr::Dummy
    }
}

impl Expr {
    /// The value of the expression: the same as [`eval`].
    pub fn eval_to(&self) -> (r: Option<i32>)
        ensures
            r == value(*self),
    {
        eval(self)
    }

    /// Whether the expression is a token of the tokenizer (a value, a
    /// symbol, the end of input or the placeholder).
    pub fn is_token(&self) -> (r: bool)
        ensures
            r == (self is Val || self is Sym || self is EOF || self is Dummy),
    {
        match self {
            Expr::Val(_) | Expr::Sym(_) | Expr::EOF | Expr::Dummy => true,
            _ => false,
        }
    }

    /// A copy of a token; any other expression copies to `Dummy`.
    pub fn clone_token(&self) -> (r: Self)
        ensures
            r == (match *self {
                Expr::Val(n) => Expr::Val(n),
                Expr::Sym(c) => Expr::Sym(c),
                Expr::EOF => Expr::EOF,
                _ => Expr::Dummy,
            }),
    {
        match self {
            Expr::Val(n) => Expr::Val(*n),
            Expr::Sym(c) => Expr::Sym(*c),
            Expr::EOF => Expr::EOF,
            _ => Expr::Dummy,
        }
    }
}

/// Whether `e` is an expression rather than a bare symbol, the end of
/// input or the placeholder (a value is both a token and an expression).
pub fn proper(e: &Expr) -> (r: bool)
    ensures
        r == !(*e is Sym || *e is EOF || *e is Dummy),
{
    match e {
        Expr::Sym(_) | Expr::EOF | Expr::Dummy => false,
        _ => true,
    }
}

/// Evaluates `e`; see [`value`] for when there is no value.
pub fn eval(e: &Expr) -> (r: Option<i32>)
    ensures
        r == value(*e),
    decreases e,
{
    match e {
        Expr::Val(x) => Some(*x),
        Expr::Neg(a) => match eval(a) {
            Some(x) => x.checked_mul(-1),
            None => None,
        },
        Expr::Plus(a, b) => match (eval(a), eval(b)) {
            (Some(x), Some(y)) => x.checked_add(y),
            _ => None,
        },
        Expr::Minus(a, b) => match (eval(a), eval(b)) {
            (Some(x), Some(y)) => x.checked_sub(y),
            _ => None,
        },
        Expr::Times(a, b) => match (eval(a), eval(b)) {
            (Some(x), Some(y)) => x.checked_mul(y),
            _ => None,
        },
        Expr::Divide(a, b) => match eval(b) {
            Some(y) => if y != 0 {
                match eval(a) {
                    Some(x) => x.checked_div(y),
                    None => None,
                }
            } else {
                None
            },
            None => None,
        },
        Expr::Mod(a, b) => match eval(b) {
            Some(y) => if y != 0 {
                match eval(a) {
                    Some(x) => x.checked_rem(y),
                    None => None,
                }
            } else {
                None
            },
            None => None,
        },
        _ => None,
    }
}

/// A decimal digit.
pub open spec fn is_digit_char(c: char) -> bool {
    '0' as u32 <= c as u32 && c as u32 <= '9' as u32
}

/// The space character.
pub open spec fn is_space(c: char) -> bool {
    c as u32 == ' ' as u32
}

/// The value of a decimal digit.
pub open spec fn digit_of(c: char) -> u32 {
    (c as u32 - '0' as u32) as u32
}

/// One more digit `c` after the digits read so far, in wrapping 32-bit
/// arithmetic.
pub open spec fn shift_in(acc: Option<u32>, c: char) -> u32 {
    match acc {
        Some(n) => n.wrapping_mul(10u32).wrapping_add(digit_of(c)),
        None => digit_of(c),
    }
}

/// The token of the number being read, if any.
pub open spec fn pending_number(acc: Option<u32>) -> Seq<Expr> {
    match acc {
        Some(n) => seq![Expr::Val(#[verifier::truncate] (n as i32))],
        None => Seq::empty(),
    }
}

/// The token of a symbol.
pub open spec fn symbol_token(c: char) -> Seq<Expr> {
    seq![Expr::Sym(c)]
}

/// The tokens of `s`, where `acc` is the value of the digits just before
/// it: each run of digits is a value, spaces end tokens and are dropped,
/// and every other character is a symbol.
pub open spec fn tokens_from(s: Seq<char>, acc: Option<u32>) -> Seq<Expr>
    decreases s.len(),
{
    if s.len() == 0 {
        pending_number(acc)
    } else {
        let c = s.first();
        if is_digit_char(c) {
            tokens_from(s.drop_first(), Some(shift_in(acc, c)))
        } else if is_space(c) {
            pending_number(acc) + tokens_from(s.drop_first(), None)
        } else {
            pending_number(acc) + symbol_token(c) + tokens_from(s.drop_first(), None)
        }
    }
}

/// The tokens of a string that starts with a character other than a
/// digit.
proof fn lemma_tokens_step(s: Seq<char>, acc: Option<u32>)
    requires
        s.len() > 0,
        !is_digit_char(s[0]),
    ensures
        tokens_from(s, acc) == pending_number(acc) + (if is_space(s.first()) {
            Seq::<Expr>::empty()
        } else {
            symbol_token(s.first())
        }) + tokens_from(s.drop_first(), None),
{
    let c = s.first();
    let rest = tokens_from(s.drop_first(), None);
    let p = pending_number(acc);
    if is_space(c) {
        assert(p + Seq::<Expr>::empty() =~= p);
    } else {
        assert(s.len() != 0);
        assert(!is_digit_char(c));
        assert(!is_space(c));
        assert(tokens_from(s, acc) == p + symbol_token(c) + rest);
    }
}

/// Appends the token of `c`, a character other than a digit: nothing for a
/// space, a symbol otherwise.
fn push_symbol(tokens: &mut Vec<Expr>, c: char)
    ensures
        final(tokens)@ == old(tokens)@ + (if is_space(c) {
            Seq::<Expr>::empty()
        } else {
            symbol_token(c)
        }),
{
    if c as u32 != ' ' as u32 {
        tokens.push(Expr::Sym(c));
        assert(final(tokens)@ =~= old(tokens)@ + symbol_token(c));
    } else {
        assert(old(tokens)@ + Seq::<Expr>::empty() =~= old(tokens)@);
    }
}

/// Appends the token of the number `n`.
fn push_number(tokens: &mut Vec<Expr>, n: u32)
    ensures
        final(tokens)@ == old(tokens)@ + pending_number(Some(n)),
{
    tokens.push(Expr::Val(#[verifier::truncate] (n as i32)));
    assert(final(tokens)@ =~= old(tokens)@ + pending_number(Some(n)));
}

/// The characters of `inp`, in order.
fn chars_of(inp: &str) -> (r: Vec<char>)
    ensures
        r@ == inp@,
{
    let mut out: Vec<char> = Vec::new();
    let mut it = inp.chars();
    loop
        invariant
            out@ + it.remaining() == inp@,
            it.decrease() is Some,
        ensures
            out@ == inp@,
        decreases it.decrease()->0,
    {
        match it.next() {
            Some(c) => {
                out.push(c);
                assert(out@ + it.remaining() =~= inp@);
            },
            None => {
                assert(out@ =~= inp@);
                break;
            },
        }
    }
    out
}

/// Splits `inp` into tokens (see [`tokens_from`]) and appends the end of
/// input.
pub fn lex(inp: &str) -> (r: Vec<Expr>)
    ensures
        r@ == tokens_from(inp@, None).push(Expr::EOF),
{
    let input = chars_of(inp);
    let mut tokens: Vec<Expr> = Vec::new();
    let mut i: usize = 0;
    assert(input@.skip(0) =~= input@);
    while i < input.len()
        invariant
            input@ == inp@,
            i <= input@.len(),
            tokens@ + tokens_from(input@.skip(i as int), None) == tokens_from(input@, None),
        decreases input@.len() - i,
    {
        let c = input[i];
        proof {
            assert(input@.skip(i as int).drop_first() =~= input@.skip(i + 1));
        }
        if '0' as u32 <= c as u32 && c as u32 <= '9' as u32 {
            let mut n: u32 = 0;
            let ghost mut acc: Option<u32> = None;
            let ghost i0 = i;
            while i < input.len() && '0' as u32 <= input[i] as u32 && input[i] as u32 <= '9' as u32
                invariant
                    i0 <= i <= input@.len(),
                    n == (match acc {
                        Some(v) => v,
                        None => 0u32,
                    }),
                    acc is None ==> i == i0 && i < input@.len() && is_digit_char(input@[i as int]),
                    acc is Some ==> i0 < i,
                    tokens@ + tokens_from(input@.skip(i as int), acc) == tokens_from(input@, None),
                decreases input@.len() - i,
            {
                proof {
                    assert(input@.skip(i as int).drop_first() =~= input@.skip(i + 1));
                }
                let d = (input[i] as u32) - ('0' as u32);
                n = n.wrapping_mul(10).wrapping_add(d);
                proof {
                    acc = Some(n);
                }
                i += 1;
            }
            let ghost before = tokens@;
            let ghost rest = input@.skip(i as int);
            push_number(&mut tokens, n);
            if i < input.len() {
                let c2 = input[i];
                proof {
                    assert(rest.drop_first() =~= input@.skip(i + 1));
                    lemma_tokens_step(rest, acc);
                }
                push_symbol(&mut tokens, c2);
                i += 1;
            } else {
                assert(rest =~= Seq::<char>::empty());
                assert(tokens@ + tokens_from(input@.skip(i as int), None) =~= before + tokens_from(
                    rest,
                    acc,
                ));
            }
        } else {
            let ghost rest = input@.skip(i as int);
            proof {
                lemma_tokens_step(rest, None);
                assert(pending_number(None) =~= Seq::<Expr>::empty());
            }
            push_symbol(&mut tokens, c);
            i += 1;
        }
    }
    proof {
        assert(input@.skip(i as int) =~= Seq::<char>::empty());
        assert(tokens@ =~= tokens_from(input@, None));
    }
    tokens.push(Expr::EOF);
    tokens
}

/// Whether `e` is the symbol `c`.
fn is_sym(e: &Expr, c: char) -> (r: bool)
    ensures
        r == (*e is Sym && e->Sym_0 == c),
{
    match e {
        Expr::Sym(d) => *d == c,
        _ => false,
    }
}

/// The binding strength of a token in the operator-precedence parser.
pub open spec fn precedence_of(e: Expr) -> u32 {
    match e {
        Expr::Val(_) => 250,
        Expr::Sym(c) => if c == '+' || c == '-' {
            100
        } else if c == '*' || c == '/' || c == '%' {
            200
        } else if c == 'u' {
            220
        } else if c == '(' {
            500
        } else if c == ')' {
            10
        } else {
            0
        },
        Expr::EOF => 5,
        _ => 0,
    }
}

/// The binding strength of a token; see [`precedence_of`].
fn precedence(e: &Expr) -> (r: u32)
    ensures
        r == precedence_of(*e),
{
    match e {
        Expr::Val(_) => 250,
        Expr::Sym(c) => {
            let c = *c;
            if c == '+' || c == '-' {
                100
            } else if c == '*' || c == '/' || c == '%' {
                200
            } else if c == 'u' {
                220
            } else if c == '(' {
                500
            } else if c == ')' {
                10
            } else {
                0
            }
        },
        Expr::EOF => 5,
        _ => 0,
    }
}

/// Whether the lookahead `a` lets the operator `b` be reduced: it binds
/// no more strongly than `b` (all operators associate to the left).
fn prec(a: &Expr, b: char) -> (r: bool)
    ensures
        r == (precedence_of(*a) <= precedence_of(Expr::Sym(b))),
{
    precedence(a) <= precedence(&Expr::Sym(b))
}

/// Whether `e` is the end of input.
fn ateof(e: &Expr) -> (r: bool)
    ensures
        r == (*e is EOF),
{
    match e {
        Expr::EOF => true,
        _ => false,
    }
}

/// The symbol `c`.
pub open spec fn is_symbol(e: Expr, c: char) -> bool {
    e is Sym && e->Sym_0 == c
}

/// The lookahead `la` lets the operator `op` be reduced: it binds no more
/// strongly than `op` (all operators associate to the left).
pub open spec fn yields(la: Expr, op: char) -> bool {
    precedence_of(la) <= precedence_of(Expr::Sym(op))
}

/// The expression that applies the binary operator `op` to `a` and `b`.
pub open spec fn binary(op: char, a: Expr, b: Expr) -> Expr {
    if op == '+' {
        Expr::Plus(Box::new(a), Box::new(b))
    } else if op == '-' {
        Expr::Minus(Box::new(a), Box::new(b))
    } else if op == '*' {
        Expr::Times(Box::new(a), Box::new(b))
    } else if op == '/' {
        Expr::Divide(Box::new(a), Box::new(b))
    } else {
        Expr::Mod(Box::new(a), Box::new(b))
    }
}

/// The top of the stack is an operand, the operator `op` and an operand,
/// and the lookahead lets `op` be reduced.
pub open spec fn binary_applies(s: Seq<Expr>, la: Expr, op: char) -> bool {
    s.len() >= 3 && is_symbol(s[s.len() - 2], op) && yields(la, op)
}

/// The reduction that the parser makes on the stack `s` before the
/// lookahead `la`, tried in this order: a parenthesised expression, the
/// binary operators `+ - * / %`, then a unary minus (after a non-operand
/// or at the bottom of the stack); `None` when no reduction applies.
pub open spec fn reduce_step(s: Seq<Expr>, la: Expr) -> Option<Seq<Expr>> {
    let n = s.len();
    if n >= 3 && is_symbol(s[n - 3], '(') && is_symbol(s[n - 1], ')') && yields(la, '(') {
        Some(s.take(n - 3).push(s[n - 2]))
    } else if binary_applies(s, la, '+') {
        Some(s.take(n - 3).push(binary('+', s[n - 3], s[n - 1])))
    } else if binary_applies(s, la, '-') {
        Some(s.take(n - 3).push(binary('-', s[n - 3], s[n - 1])))
    } else if binary_applies(s, la, '*') {
        Some(s.take(n - 3).push(binary('*', s[n - 3], s[n - 1])))
    } else if binary_applies(s, la, '/') {
        Some(s.take(n - 3).push(binary('/', s[n - 3], s[n - 1])))
    } else if binary_applies(s, la, '%') {
        Some(s.take(n - 3).push(binary('%', s[n - 3], s[n - 1])))
    } else if (n >= 3 && is_symbol(s[n - 2], '-') && (s[n - 3] is Sym || s[n - 3] is EOF
        || s[n - 3] is Dummy) && yields(la, 'u')) || (n == 2 && is_symbol(s[0], '-') && yields(
        la,
        'u',
    )) {
        Some(s.take(n - 2).push(Expr::Neg(Box::new(s[n - 1]))))
    } else {
        None
    }
}

/// The copy of a token that the parser shifts onto its stack.
pub open spec fn token_copy(e: Expr) -> Expr {
    match e {
        Expr::Val(n) => Expr::Val(n),
        Expr::Sym(c) => Expr::Sym(c),
        Expr::EOF => Expr::EOF,
        _ => Expr::Dummy,
    }
}

/// The outcome of the shift-reduce parse of `tokens` from the stack `s`
/// with the lookahead at index `ti`: it stops with the one entry of the
/// stack at the end of input, reduces where [`reduce_step`] applies, and
/// otherwise shifts the lookahead, failing when no token is left to shift.
pub open spec fn parse_from(tokens: Seq<Expr>, s: Seq<Expr>, ti: nat) -> Option<Expr>
    decreases 2 * (tokens.len() - ti) + s.len(),
{
    if ti >= tokens.len() {
        None
    } else if tokens[ti as int] is EOF && s.len() == 1 {
        Some(s[0])
    } else {
        match reduce_step(s, tokens[ti as int]) {
            Some(s2) => if s2.len() < s.len() {
                parse_from(tokens, s2, ti)
            } else {
                None
            },
            None => if ti + 1 < tokens.len() {
                parse_from(tokens, s.push(token_copy(tokens[ti as int])), ti + 1)
            } else {
                None
            },
        }
    }
}

/// Replaces the top three entries of the stack, operand, operator and
/// operand, by the expression that applies the operator `op` to the two
/// operands.
fn reduce_binary(stack: &mut Vec<Expr>, op: char)
    requires
        old(stack)@.len() >= 3,
    ensures
        final(stack)@ == old(stack)@.take(old(stack)@.len() - 3).push(
            binary(op, old(stack)@[old(stack)@.len() - 3], old(stack)@[old(stack)@.len() - 1]),
        ),
{
    let ghost s0 = stack@;
    let e2 = stack.pop().unwrap();
    stack.pop();
    let e1 = stack.pop().unwrap();
    assert(stack@ =~= s0.take(s0.len() - 3));
    let (a, b) = (Box::new(e1), Box::new(e2));
    let e = if op == '+' {
        Expr::Plus(a, b)
    } else if op == '-' {
        Expr::Minus(a, b)
    } else if op == '*' {
        Expr::Times(a, b)
    } else if op == '/' {
        Expr::Divide(a, b)
    } else {
        Expr::Mod(a, b)
    };
    stack.push(e);
}

/// Parses the tokens that [`lex`] produces with a shift-reduce
/// operator-precedence parser (see [`parse_from`]): the result is
/// `parse_from(tokens, [], 0)`.
pub fn parse(tokens: &Vec<Expr>) -> (r: Option<Expr>)
    requires
        tokens@.len() > 0,
    ensures
        r == parse_from(tokens@, Seq::empty(), 0),
{
    let mut stack: Vec<Expr> = Vec::new();
    let mut ti: usize = 0;
    loop
        invariant
            ti < tokens@.len(),
            parse_from(tokens@, stack@, ti as nat) == parse_from(tokens@, Seq::empty(), 0),
        ensures
            stack@.len() == 1,
            parse_from(tokens@, Seq::empty(), 0) == Some(stack@[0]),
        decreases 2 * (tokens@.len() - ti) + stack@.len(),
    {
        let ghost s0 = stack@;
        let lookahead = &tokens[ti];
        let sl = stack.len();
        if ateof(lookahead) && sl == 1 {
            break;
        }
        if sl >= 3 && is_sym(&stack[sl - 3], '(') && is_sym(&stack[sl - 1], ')') && prec(
            lookahead,
            '(',
        ) {
            stack.pop();
            let e = stack.pop().unwrap();
            stack.pop();
            stack.push(e);
            assert(stack@ =~= s0.take(sl - 3).push(s0[sl - 2]));
        } else if sl >= 3 && is_sym(&stack[sl - 2], '+') && prec(lookahead, '+') {
            reduce_binary(&mut stack, '+');
        } else if sl >= 3 && is_sym(&stack[sl - 2], '-') && prec(lookahead, '-') {
            reduce_binary(&mut stack, '-');
        } else if sl >= 3 && is_sym(&stack[sl - 2], '*') && prec(lookahead, '*') {
            reduce_binary(&mut stack, '*');
        } else if sl >= 3 && is_sym(&stack[sl - 2], '/') && prec(lookahead, '/') {
            reduce_binary(&mut stack, '/');
        } else if sl >= 3 && is_sym(&stack[sl - 2], '%') && prec(lookahead, '%') {
            reduce_binary(&mut stack, '%');
        } else if (sl >= 3 && is_sym(&stack[sl - 2], '-') && !proper(&stack[sl - 3]) && prec(
            lookahead,
            'u',
        )) || (sl == 2 && is_sym(&stack[0], '-') && prec(lookahead, 'u')) {
            let e1 = stack.pop().unwrap();
            stack.pop();
            stack.push(Expr::Neg(Box::new(e1)));
            assert(stack@ =~= s0.take(sl - 2).push(Expr::Neg(Box::new(s0[sl - 1]))));
        } else if ti < tokens.len() - 1 {
            stack.push(lookahead.clone_token());
            ti += 1;
        } else {
            return None;
        }
    }
    stack.pop()
}

/// An instruction of the stack machine that [`compile`] targets, or the
/// mark of an expression it cannot compile.
#[derive(Debug, PartialEq, Eq, Structural)]
pub enum Instr {
    PushVal(i32),
    PushZero,
    PopAx,
    PopBx,
    SubAxBx,
    PushBx,
    Failed,
}

/// The instructions for `e`: a value is pushed; a negation computes its
/// operand, then `0 - operand` in the registers, and pushes the result;
/// every other expression gives the failure mark in its place.
pub open spec fn code_of(e: Expr) -> Seq<Instr>
    decreases e,
{
    match e {
        Expr::Val(x) => seq![Instr::PushVal(x)],
        Expr::Neg(a) => code_of(*a) + negation_code(),
        _ => seq![Instr::Failed],
    }
}

/// The instructions that negate the value on top of the stack.
pub open spec fn negation_code() -> Seq<Instr> {
    seq![Instr::PushZero, Instr::PopBx, Instr::PopAx, Instr::SubAxBx, Instr::PushBx]
}

/// Compiles `e` to instructions for the stack machine; see [`code_of`].
pub fn compile(e: &Expr) -> (r: Vec<Instr>)
    ensures
        r@ == code_of(*e),
    decreases e,
{
    match e {
        Expr::Val(x) => {
            let r = vec![Instr::PushVal(*x)];
            assert(r@ =~= seq![Instr::PushVal(*x)]);
            r
        },
        Expr::Neg(a) => {
            let mut code = compile(a);
            let ghost inner = code@;
            code.push(Instr::PushZero);
            code.push(Instr::PopBx);
            code.push(Instr::PopAx);
            code.push(Instr::SubAxBx);
            code.push(Instr::PushBx);
            assert(code@ =~= inner + negation_code());
            code
        },
        _ => {
            let r = vec![Instr::Failed];
            assert(r@ =~= seq![Instr::Failed]);
            r
        },
    }
}

/// Relies on `String::push` (std): appends one character.
#[verifier::external_body]
fn push_char(s: &mut String, c: char)
    ensures
        final(s)@ == old(s)@.push(c),
{
    s.push(c)
}

/// The character of a decimal digit.
pub open spec fn digit_char(d: u32) -> char {
    if d == 0 {
        '0'
    } else if d == 1 {
        '1'
    } else if d == 2 {
        '2'
    } else if d == 3 {
        '3'
    } else if d == 4 {
        '4'
    } else if d == 5 {
        '5'
    } else if d == 6 {
        '6'
    } else if d == 7 {
        '7'
    } else if d == 8 {
        '8'
    } else {
        '9'
    }
}

/// The decimal digits of `n`, most significant first.
pub open spec fn digits(n: u32) -> Seq<char>
    decreases n,
{
    if n < 10 {
        seq![digit_char(n)]
    } else {
        digits(n / 10).push(digit_char(n % 10))
    }
}

/// The decimal text of `x`, with a minus sign when it is negative.
pub open spec fn int_text(x: i32) -> Seq<char> {
    if x < 0 {
        seq!['-'] + digits((-(x as int)) as u32)
    } else {
        digits(x as u32)
    }
}

/// The text of `e`: values in decimal, sums and differences in
/// parentheses, products, quotients and remainders without, a negation as
/// a minus sign (two negations cancel), and tokens with spaces around.
pub open spec fn shown(e: Expr) -> Seq<char>
    decreases e,
{
    match e {
        Expr::Val(x) => int_text(x),
        Expr::Plus(a, b) => seq!['('] + shown(*a) + seq!['+'] + shown(*b) + seq![')'],
        Expr::Minus(a, b) => seq!['('] + shown(*a) + seq!['-'] + shown(*b) + seq![')'],
        Expr::Times(a, b) => shown(*a) + seq!['*'] + shown(*b),
        Expr::Divide(a, b) => shown(*a) + seq!['/'] + shown(*b),
        Expr::Mod(a, b) => shown(*a) + seq!['%'] + shown(*b),
        Expr::Neg(a) => match *a {
            Expr::Neg(b) => shown(*b),
            _ => seq!['-'] + shown(*a),
        },
        Expr::Sym(c) => seq![' ', c, ' '],
        Expr::EOF => seq![' ', 'E', 'O', 'F', ' '],
        Expr::Dummy => seq![' ', 'D', 'u', 'm', 'm', 'y', ' '],
    }
}

/// Appends the character of the digit `d`.
fn push_digit(out: &mut String, d: u32)
    requires
        d < 10,
    ensures
        final(out)@ == old(out)@.push(digit_char(d)),
{
    let c = if d == 0 {
        '0'
    } else if d == 1 {
        '1'
    } else if d == 2 {
        '2'
    } else if d == 3 {
        '3'
    } else if d == 4 {
        '4'
    } else if d == 5 {
        '5'
    } else if d == 6 {
        '6'
    } else if d == 7 {
        '7'
    } else if d == 8 {
        '8'
    } else {
        '9'
    };
    push_char(out, c);
}

/// Appends the decimal digits of `n`.
fn push_digits(out: &mut String, n: u32)
    ensures
        final(out)@ == old(out)@ + digits(n),
    decreases n,
{
    if n >= 10 {
        push_digits(out, n / 10);
    }
    push_digit(out, n % 10);
    proof {
        if n >= 10 {
            assert(old(out)@ + digits(n) =~= old(out)@ + digits(n / 10) + seq![digit_char(n % 10)]);
        } else {
            assert(old(out)@ + digits(n) =~= old(out)@.push(digit_char(n % 10)));
        }
    }
}

/// Appends the characters of `cs`, a literal text.
fn push_chars(out: &mut String, cs: &[char])
    ensures
        final(out)@ == old(out)@ + cs@,
{
    let mut i: usize = 0;
    while i < cs.len()
        invariant
            i <= cs@.len(),
            out@ == old(out)@ + cs@.take(i as int),
        decreases cs@.len() - i,
    {
        push_char(out, cs[i]);
        i += 1;
        assert(out@ =~= old(out)@ + cs@.take(i as int));
    }
    assert(cs@.take(i as int) =~= cs@);
}

impl Expr {
    /// Appends the text of the expression (see [`shown`]).
    fn write_to(&self, out: &mut String)
        ensures
            final(out)@ == old(out)@ + shown(*self),
        decreases self,
    {
        let ghost o = out@;
        match self {
            Expr::Val(x) => {
                if *x < 0 {
                    push_char(out, '-');
                    let n: u32 = (-(*x as i64)) as u32;
                    push_digits(out, n);
                    assert(out@ =~= o + shown(*self));
                } else {
                    push_digits(out, *x as u32);
                }
            },
            Expr::Plus(a, b) => {
                push_char(out, '(');
                a.write_to(out);
                push_char(out, '+');
                b.write_to(out);
                push_char(out, ')');
                assert(out@ =~= o + shown(*self));
            },
            Expr::Minus(a, b) => {
                push_char(out, '(');
                a.write_to(out);
                push_char(out, '-');
                b.write_to(out);
                push_char(out, ')');
                assert(out@ =~= o + shown(*self));
            },
            Expr::Times(a, b) => {
                a.write_to(out);
                push_char(out, '*');
                b.write_to(out);
                assert(out@ =~= o + shown(*self));
            },
            Expr::Divide(a, b) => {
                a.write_to(out);
                push_char(out, '/');
                b.write_to(out);
                assert(out@ =~= o + shown(*self));
            },
            Expr::Mod(a, b) => {
                a.write_to(out);
                push_char(out, '%');
                b.write_to(out);
                assert(out@ =~= o + shown(*self));
            },
            Expr::Neg(a) => {
                if let Expr::Neg(b) = &**a {
                    b.write_to(out);
                } else {
                    push_char(out, '-');
                    a.write_to(out);
                    assert(out@ =~= o + shown(*self));
                }
            },
            Expr::Sym(c) => {
                push_chars(out, &[' ', *c, ' ']);
                assert(out@ =~= o + shown(*self));
            },
            Expr::EOF => {
                push_chars(out, &[' ', 'E', 'O', 'F', ' ']);
                assert(out@ =~= o + shown(*self));
            },
            Expr::Dummy => {
                push_chars(out, &[' ', 'D', 'u', 'm', 'm', 'y', ' ']);
                assert(out@ =~= o + shown(*self));
            },
        }
    }

    /// The text of the expression (see [`shown`]).
    pub fn show(&self) -> (r: String)
        ensures
            r@ == shown(*self),
    {
        let mut out = String::new();
        self.write_to(&mut out);
        assert(out@ =~= shown(*self));
        out
    }
}

} // verus!
