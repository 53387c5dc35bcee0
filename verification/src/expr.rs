//! Symbolic scalar expressions over shape variables, kept in reverse Polish
//! notation, together with their integer semantics and their rendering into
//! the target GPU C dialect.
//!
//! By convention the variable `z` stands for the per-thread logical element
//! index; every other variable is a dynamic dimension symbol whose value is
//! looked up at launch time.
//!
//! The stack convention follows the renderer: for a binary term the first
//! value popped is the left operand of the rendered infix expression, so a
//! tree node emits the right subtree first, then the left, then the operator.

use vstd::prelude::*;
use vstd::string::StringExecFns;

verus! {

/// One term of an expression in reverse Polish notation.
#[derive(Clone, Copy, PartialEq, Eq, Structural, Debug)]
pub enum Term {
    /// Integer literal.
    Num(i64),
    /// Named variable (one character).
    Var(char),
    Add,
    Sub,
    Mul,
    Div,
    Mod,
    Min,
    Max,
    And,
    Or,
    Gte,
    Lt,
}

/// A term that pushes a value without consuming any.
pub open spec fn is_atom(t: Term) -> bool {
    t is Num || t is Var
}

/// Stack height after consuming `terms`, starting from height `depth`;
/// `None` when a binary term finds fewer than two operands.
pub open spec fn rpn_depth_from(terms: Seq<Term>, depth: int) -> Option<int>
    decreases terms.len(),
{
    if terms.len() == 0 {
        Some(depth)
    } else if is_atom(terms[0]) {
        rpn_depth_from(terms.subrange(1, terms.len() as int), depth + 1)
    } else if depth >= 2 {
        rpn_depth_from(terms.subrange(1, terms.len() as int), depth - 1)
    } else {
        None
    }
}

/// A well-formed expression leaves exactly one value on an empty stack.
pub open spec fn wf_rpn(terms: Seq<Term>) -> bool {
    rpn_depth_from(terms, 0) == Some(1int)
}

/// Whether a binary term is defined on the given operands (`a` is the left
/// operand). Division and remainder require a non-negative dividend and a
/// positive divisor, matching their use in index arithmetic.
pub open spec fn term_ok(t: Term, a: int, b: int) -> bool {
    match t {
        Term::Div => 0 <= a && 0 < b,
        Term::Mod => 0 <= a && 0 < b,
        _ => true,
    }
}

/// Value of a binary term on operands `a` (left) and `b` (right).
/// Comparisons and logical connectives yield 0 or 1.
pub open spec fn term_value(t: Term, a: int, b: int) -> int {
    match t {
        Term::Add => a + b,
        Term::Sub => a - b,
        Term::Mul => a * b,
        Term::Div => a / b,
        Term::Mod => a % b,
        Term::Min => if a <= b { a } else { b },
        Term::Max => if a >= b { a } else { b },
        Term::And => if a != 0 && b != 0 { 1int } else { 0int },
        Term::Or => if a != 0 || b != 0 { 1int } else { 0int },
        Term::Gte => if a >= b { 1int } else { 0int },
        Term::Lt => if a < b { 1int } else { 0int },
        Term::Num(_) => 0int,
        Term::Var(_) => 0int,
    }
}

/// Value pushed by an atom under the environment; `None` for an unbound
/// variable.
pub open spec fn atom_value(t: Term, env: Map<char, int>) -> Option<int> {
    match t {
        Term::Num(n) => Some(n as int),
        Term::Var(c) => if env.dom().contains(c) {
            Some(env[c])
        } else {
            None
        },
        _ => None,
    }
}

/// Run the stack machine over `terms` starting from `stack`. The first value
/// popped by a binary term is its left operand. `None` on an unbound
/// variable, an operand shortage, or an undefined division.
pub open spec fn rpn_eval_from(terms: Seq<Term>, env: Map<char, int>, stack: Seq<int>) -> Option<
    Seq<int>,
>
    decreases terms.len(),
{
    if terms.len() == 0 {
        Some(stack)
    } else {
        let t = terms[0];
        let rest = terms.subrange(1, terms.len() as int);
        if is_atom(t) {
            match atom_value(t, env) {
                Some(v) => rpn_eval_from(rest, env, stack.push(v)),
                None => None,
            }
        } else if stack.len() >= 2 {
            let a = stack[stack.len() - 1];
            let b = stack[stack.len() - 2];
            if term_ok(t, a, b) {
                rpn_eval_from(rest, env, stack.drop_last().drop_last().push(term_value(t, a, b)))
            } else {
                None
            }
        } else {
            None
        }
    }
}

/// The value of a whole expression: a run from the empty stack that ends
/// with exactly one value.
pub open spec fn rpn_value(terms: Seq<Term>, env: Map<char, int>) -> Option<int> {
    match rpn_eval_from(terms, env, Seq::empty()) {
        Some(st) => if st.len() == 1 {
            Some(st[0])
        } else {
            None
        },
        None => None,
    }
}

pub open spec fn fits_i64(v: int) -> bool {
    i64::MIN <= v <= i64::MAX
}

/// Whether every value the run pushes fits a 64-bit signed integer, so that
/// the executable evaluator loses nothing. Trivially true once the run
/// itself fails.
pub open spec fn rpn_bounded_from(terms: Seq<Term>, env: Map<char, int>, stack: Seq<int>) -> bool
    decreases terms.len(),
{
    if terms.len() == 0 {
        true
    } else {
        let t = terms[0];
        let rest = terms.subrange(1, terms.len() as int);
        if is_atom(t) {
            match atom_value(t, env) {
                Some(v) => fits_i64(v) && rpn_bounded_from(rest, env, stack.push(v)),
                None => true,
            }
        } else if stack.len() >= 2 {
            let a = stack[stack.len() - 1];
            let b = stack[stack.len() - 2];
            if term_ok(t, a, b) {
                fits_i64(term_value(t, a, b)) && rpn_bounded_from(
                    rest,
                    env,
                    stack.drop_last().drop_last().push(term_value(t, a, b)),
                )
            } else {
                true
            }
        } else {
            true
        }
    }
}

pub open spec fn spec_digit_char(d: int) -> char {
    if d == 0 {
        '0'
    } else if d == 1 {
        '1'
    } else if d == 2 {
        '2'
    } else if d == 3 {
        '3'
    } else if d == 4 {
        '4'
    } else if d == 5 {
        '5'
    } else if d == 6 {
        '6'
    } else if d == 7 {
        '7'
    } else if d == 8 {
        '8'
    } else {
        '9'
    }
}

/// Decimal text of a non-negative integer.
pub open spec fn spec_nat_text(n: int) -> Seq<char>
    decreases n,
{
    if n < 10 {
        seq![spec_digit_char(n)]
    } else {
        spec_nat_text(n / 10).push(spec_digit_char(n % 10))
    }
}

/// Decimal text of an integer, with a leading minus sign when negative.
pub open spec fn spec_int_text(n: int) -> Seq<char> {
    if n < 0 {
        seq!['-'] + spec_nat_text(-n)
    } else {
        spec_nat_text(n)
    }
}

/// Infix symbol of a binary term in the GPU C dialect.
pub open spec fn spec_op_text(t: Term) -> Seq<char> {
    match t {
        Term::Add => "+"@,
        Term::Sub => "-"@,
        Term::Mul => "*"@,
        Term::Div => "/"@,
        Term::Mod => "%"@,
        Term::And => "&&"@,
        Term::Or => "||"@,
        Term::Gte => ">="@,
        Term::Lt => "<"@,
        _ => ""@,
    }
}

/// Text pushed for an atom: the thread index variable `z` reads the kernel's
/// `idx` register; any other variable appears as a kernel parameter name.
pub open spec fn spec_atom_text(t: Term) -> Seq<char> {
    match t {
        Term::Num(n) => spec_int_text(n as int),
        Term::Var(c) => if c == 'z' {
            "(int)idx"@
        } else {
            seq![c]
        },
        _ => ""@,
    }
}

/// Text pushed for a binary term over rendered operands `a` (popped first,
/// printed left) and `b`.
pub open spec fn spec_combined_text(t: Term, a: Seq<char>, b: Seq<char>) -> Seq<char> {
    if t is Max {
        "max((int)"@ + a + ", (int)"@ + b + ")"@
    } else if t is Min {
        "min((int)"@ + a + ", (int)"@ + b + ")"@
    } else {
        "("@ + a + spec_op_text(t) + b + ")"@
    }
}

/// Run the renderer's stack machine over `terms`.
pub open spec fn rpn_render_from(terms: Seq<Term>, stack: Seq<Seq<char>>) -> Option<Seq<Seq<char>>>
    decreases terms.len(),
{
    if terms.len() == 0 {
        Some(stack)
    } else {
        let t = terms[0];
        let rest = terms.subrange(1, terms.len() as int);
        if is_atom(t) {
            rpn_render_from(rest, stack.push(spec_atom_text(t)))
        } else if stack.len() >= 2 {
            let a = stack[stack.len() - 1];
            let b = stack[stack.len() - 2];
            rpn_render_from(rest, stack.drop_last().drop_last().push(spec_combined_text(t, a, b)))
        } else {
            None
        }
    }
}

/// The rendered text of a well-formed expression.
pub open spec fn rpn_text(terms: Seq<Term>) -> Seq<char> {
    match rpn_render_from(terms, Seq::empty()) {
        Some(st) => if st.len() >= 1 {
            st[st.len() - 1]
        } else {
            Seq::empty()
        },
        None => Seq::empty(),
    }
}

/// A run whose starting stack covers the required depth always succeeds and
/// ends at the height the depth count predicts.
pub proof fn lemma_render_progress(terms: Seq<Term>, stack: Seq<Seq<char>>, d: int)
    requires
        rpn_depth_from(terms, stack.len() as int) == Some(d),
    ensures
        rpn_render_from(terms, stack) matches Some(st) && st.len() == d,
    decreases terms.len(),
{
    if terms.len() == 0 {
    } else {
        let rest = terms.subrange(1, terms.len() as int);
        if is_atom(terms[0]) {
            lemma_render_progress(rest, stack.push(spec_atom_text(terms[0])), d);
        } else {
            let a = stack[stack.len() - 1];
            let b = stack[stack.len() - 2];
            lemma_render_progress(
                rest,
                stack.drop_last().drop_last().push(spec_combined_text(terms[0], a, b)),
                d,
            );
        }
    }
}

/// An expression in reverse Polish notation.
pub struct Expression {
    pub terms: Vec<Term>,
}

impl Expression {
    /// Well-formed: evaluating it consumes the whole stack discipline and
    /// leaves exactly one value.
    pub open spec fn wf(&self) -> bool {
        wf_rpn(self.terms@)
    }
}

/// The process-wide mapping from dynamic dimension symbols to their current
/// integer values, read (never written) while launching kernels.
pub struct DynDimMap {
    pub entries: Vec<(char, u64)>,
}

/// First value bound to `c` in the entry list.
pub open spec fn lookup_entries(entries: Seq<(char, u64)>, c: char) -> Option<u64>
    decreases entries.len(),
{
    if entries.len() == 0 {
        None
    } else if entries[0].0 == c {
        Some(entries[0].1)
    } else {
        lookup_entries(entries.subrange(1, entries.len() as int), c)
    }
}

impl DynDimMap {
    /// The environment the map denotes: each bound symbol maps to its value.
    pub open spec fn env(&self) -> Map<char, int> {
        Map::new(
            |c: char| lookup_entries(self.entries@, c) is Some,
            |c: char| lookup_entries(self.entries@, c)->Some_0 as int,
        )
    }

    pub fn new() -> (r: Self)
        ensures
            r.entries@ =~= Seq::<(char, u64)>::empty(),
    {
        DynDimMap { entries: Vec::new() }
    }

    /// Bind `c` to `v` in front of any existing binding.
    pub fn bind(&mut self, c: char, v: u64)
        ensures
            final(self).entries@ == seq![(c, v)] + old(self).entries@,
    {
        self.entries.insert(0, (c, v));
    }

    /// The current value of `c`, if bound.
    pub fn get(&self, c: char) -> (r: Option<u64>)
        ensures
            r == lookup_entries(self.entries@, c),
    {
        let n = self.entries.len();
        let mut i: usize = 0;
        proof {
            assert(self.entries@.subrange(0, n as int) =~= self.entries@);
        }
        while i < n
            invariant
                0 <= i <= n,
                n == self.entries@.len(),
                lookup_entries(self.entries@, c) == lookup_entries(
                    self.entries@.subrange(i as int, n as int),
                    c,
                ),
            decreases n - i,
        {
            proof {
                assert(self.entries@.subrange(i as int, n as int)[0] == self.entries@[i as int]);
                assert(self.entries@.subrange(i as int, n as int).subrange(
                    1,
                    (n - i) as int,
                ) =~= self.entries@.subrange(i as int + 1, n as int));
            }
            if self.entries[i].0 == c {
                return Some(self.entries[i].1);
            }
            i = i + 1;
        }
        proof {
            assert(self.entries@.subrange(n as int, n as int) =~= Seq::<(char, u64)>::empty());
        }
        None
    }
}

/// Relies on std's `String::push`: appends exactly the given character.
#[verifier::external_body]
pub(crate) fn push_char(s: &mut String, c: char)
    ensures
        final(s)@ == old(s)@.push(c),
{
    s.push(c);
}

pub(crate) fn digit_char(d: u64) -> (c: char)
    requires
        d < 10,
    ensures
        c == spec_digit_char(d as int),
{
    if d == 0 {
        '0'
    } else if d == 1 {
        '1'
    } else if d == 2 {
        '2'
    } else if d == 3 {
        '3'
    } else if d == 4 {
        '4'
    } else if d == 5 {
        '5'
    } else if d == 6 {
        '6'
    } else if d == 7 {
        '7'
    } else if d == 8 {
        '8'
    } else {
        '9'
    }
}

/// Append the decimal text of `n`.
pub fn push_nat_text(s: &mut String, n: u64)
    ensures
        final(s)@ == old(s)@ + spec_nat_text(n as int),
    decreases n,
{
    if n < 10 {
        push_char(s, digit_char(n));
        proof {
            assert(final(s)@ =~= old(s)@ + spec_nat_text(n as int));
        }
    } else {
        push_nat_text(s, n / 10);
        push_char(s, digit_char(n % 10));
        proof {
            assert(final(s)@ =~= old(s)@ + spec_nat_text(n as int));
        }
    }
}

/// Append the decimal text of `n`, with a minus sign when negative.
pub fn push_int_text(s: &mut String, n: i64)
    ensures
        final(s)@ == old(s)@ + spec_int_text(n as int),
{
    if n < 0 {
        let mag: u64 = if n == i64::MIN {
            9223372036854775808u64
        } else {
            (-n) as u64
        };
        push_char(s, '-');
        push_nat_text(s, mag);
        proof {
            assert(final(s)@ =~= old(s)@ + spec_int_text(n as int));
        }
    } else {
        push_nat_text(s, n as u64);
    }
}

fn op_text(t: Term) -> (r: &'static str)
    ensures
        r@ == spec_op_text(t),
{
    match t {
        Term::Add => "+",
        Term::Sub => "-",
        Term::Mul => "*",
        Term::Div => "/",
        Term::Mod => "%",
        Term::And => "&&",
        Term::Or => "||",
        Term::Gte => ">=",
        Term::Lt => "<",
        _ => "",
    }
}

fn atom_string(t: Term) -> (r: String)
    requires
        is_atom(t),
    ensures
        r@ == spec_atom_text(t),
{
    match t {
        Term::Num(n) => {
            let mut s = String::new();
            push_int_text(&mut s, n);
            s
        },
        Term::Var(c) => {
            if c == 'z' {
                String::from_str("(int)idx")
            } else {
                let mut s = String::new();
                push_char(&mut s, c);
                proof {
                    assert(s@ =~= seq![c]);
                }
                s
            }
        },
        _ => String::new(),
    }
}

impl Expression {
    /// Evaluate the expression against the dynamic dimension map, the left
    /// operand of each binary term being the first value popped. `None` when
    /// the expression is malformed, a variable is unbound, a division is
    /// undefined, or a value leaves the 64-bit signed range.
    pub fn exec(&self, env: &DynDimMap) -> (r: Option<i64>)
        ensures
            rpn_bounded_from(self.terms@, env.env(), Seq::empty()) ==> r == (match rpn_value(
                self.terms@,
                env.env(),
            ) {
                Some(v) => Some(v as i64),
                None => None::<i64>,
            }),
            !rpn_bounded_from(self.terms@, env.env(), Seq::empty()) ==> r == None::<i64>,
    {
        let ghost e = env.env();
        let n = self.terms.len();
        let mut stack: Vec<i64> = Vec::new();
        let mut i: usize = 0;
        proof {
            assert(self.terms@.subrange(0, n as int) =~= self.terms@);
            assert(stack@.map_values(|x: i64| x as int) =~= Seq::<int>::empty());
        }
        while i < n
            invariant
                0 <= i <= n,
                n == self.terms@.len(),
                rpn_eval_from(
                    self.terms@.subrange(i as int, n as int),
                    e,
                    stack@.map_values(|x: i64| x as int),
                ) == rpn_eval_from(self.terms@, e, Seq::empty()),
                rpn_bounded_from(
                    self.terms@.subrange(i as int, n as int),
                    e,
                    stack@.map_values(|x: i64| x as int),
                ) == rpn_bounded_from(self.terms@, e, Seq::empty()),
                e == env.env(),
            decreases n - i,
        {
            let ghost pre = stack@.map_values(|x: i64| x as int);
            proof {
                assert(self.terms@.subrange(i as int, n as int)[0] == self.terms@[i as int]);
                assert(self.terms@.subrange(i as int, n as int).subrange(
                    1,
                    (n - i) as int,
                ) =~= self.terms@.subrange(i as int + 1, n as int));
            }
            let t = self.terms[i];
            match t {
                Term::Num(v) => {
                    stack.push(v);
                    proof {
                        assert(stack@.map_values(|x: i64| x as int) =~= pre.push(v as int));
                    }
                },
                Term::Var(c) => {
                    match env.get(c) {
                        Some(v) => {
                            if v > i64::MAX as u64 {
                                return None;
                            }
                            stack.push(v as i64);
                            proof {
                                assert(stack@.map_values(|x: i64| x as int) =~= pre.push(v as int));
                            }
                        },
                        None => {
                            return None;
                        },
                    }
                },
                _ => {
                    if stack.len() < 2 {
                        return None;
                    }
                    let a = stack.pop().unwrap();
                    let b = stack.pop().unwrap();
                    proof {
                        assert(pre[pre.len() - 1] == a as int);
                        assert(pre[pre.len() - 2] == b as int);
                        assert(stack@.map_values(|x: i64| x as int) =~= pre.drop_last().drop_last());
                    }
                    let v: i64 = match t {
                        Term::Add => {
                            match a.checked_add(b) {
                                Some(v) => v,
                                None => {
                                    return None;
                                },
                            }
                        },
                        Term::Sub => {
                            match a.checked_sub(b) {
                                Some(v) => v,
                                None => {
                                    return None;
                                },
                            }
                        },
                        Term::Mul => {
                            match a.checked_mul(b) {
                                Some(v) => v,
                                None => {
                                    return None;
                                },
                            }
                        },
                        Term::Div => {
                            if a < 0 || b <= 0 {
                                return None;
                            }
                            ((a as u64) / (b as u64)) as i64
                        },
                        Term::Mod => {
                            if a < 0 || b <= 0 {
                                return None;
                            }
                            ((a as u64) % (b as u64)) as i64
                        },
                        Term::Min => if a <= b {
                            a
                        } else {
                            b
                        },
                        Term::Max => if a >= b {
                            a
                        } else {
                            b
                        },
                        Term::And => if a != 0 && b != 0 {
                            1
                        } else {
                            0
                        },
                        Term::Or => if a != 0 || b != 0 {
                            1
                        } else {
                            0
                        },
                        Term::Gte => if a >= b {
                            1
                        } else {
                            0
                        },
                        Term::Lt => if a < b {
                            1
                        } else {
                            0
                        },
                        _ => 0,
                    };
                    proof {
                        assert(v as int == term_value(t, a as int, b as int));
                    }
                    stack.push(v);
                    proof {
                        assert(stack@.map_values(|x: i64| x as int) =~= pre.drop_last().drop_last().push(
                            v as int,
                        ));
                    }
                },
            }
            i = i + 1;
        }
        proof {
            assert(self.terms@.subrange(n as int, n as int) =~= Seq::<Term>::empty());
        }
        if stack.len() == 1 {
            Some(stack[0])
        } else {
            None
        }
    }
}

/// Render a well-formed expression as a scalar expression in the GPU C
/// dialect: one left-to-right pass over the terms, maintaining a stack of
/// rendered sub-expressions.
pub fn expr_to_cuda_string(expr: &Expression) -> (r: String)
    requires
        expr.wf(),
    ensures
        r@ == rpn_text(expr.terms@),
{
    let n = expr.terms.len();
    let mut stack: Vec<String> = Vec::new();
    let mut i: usize = 0;
    proof {
        assert(expr.terms@.subrange(0, n as int) =~= expr.terms@);
        assert(stack@.map_values(|s: String| s@) =~= Seq::<Seq<char>>::empty());
        lemma_render_progress(expr.terms@, Seq::empty(), 1);
    }
    while i < n
        invariant
            0 <= i <= n,
            n == expr.terms@.len(),
            rpn_render_from(
                expr.terms@.subrange(i as int, n as int),
                stack@.map_values(|s: String| s@),
            ) == rpn_render_from(expr.terms@, Seq::empty()),
            rpn_render_from(expr.terms@, Seq::empty()) matches Some(st) && st.len() == 1,
        decreases n - i,
    {
        let ghost pre = stack@.map_values(|s: String| s@);
        proof {
            assert(expr.terms@.subrange(i as int, n as int)[0] == expr.terms@[i as int]);
            assert(expr.terms@.subrange(i as int, n as int).subrange(
                1,
                (n - i) as int,
            ) =~= expr.terms@.subrange(i as int + 1, n as int));
        }
        let t = expr.terms[i];
        match t {
            Term::Num(_) => {
                stack.push(atom_string(t));
                proof {
                    assert(stack@.map_values(|s: String| s@) =~= pre.push(spec_atom_text(t)));
                }
            },
            Term::Var(_) => {
                stack.push(atom_string(t));
                proof {
                    assert(stack@.map_values(|s: String| s@) =~= pre.push(spec_atom_text(t)));
                }
            },
            _ => {
                proof {
                    if stack@.len() < 2 {
                        assert(rpn_render_from(
                            expr.terms@.subrange(i as int, n as int),
                            stack@.map_values(|s: String| s@),
                        ) is None);
                        assert(false);
                    }
                }
                let a = stack.pop().unwrap();
                let b = stack.pop().unwrap();
                proof {
                    assert(pre[pre.len() - 1] == a@);
                    assert(pre[pre.len() - 2] == b@);
                }
                let mut s = String::new();
                match t {
                    Term::Max => {
                        s.append("max((int)");
                        s.append(a.as_str());
                        s.append(", (int)");
                        s.append(b.as_str());
                        s.append(")");
                    },
                    Term::Min => {
                        s.append("min((int)");
                        s.append(a.as_str());
                        s.append(", (int)");
                        s.append(b.as_str());
                        s.append(")");
                    },
                    _ => {
                        s.append("(");
                        s.append(a.as_str());
                        s.append(op_text(t));
                        s.append(b.as_str());
                        s.append(")");
                    },
                }
                proof {
                    assert(s@ =~= spec_combined_text(t, a@, b@));
                }
                stack.push(s);
                proof {
                    assert(stack@.map_values(|s2: String| s2@) =~= pre.drop_last().drop_last().push(
                        spec_combined_text(t, a@, b@),
                    ));
                }
            },
        }
        i = i + 1;
    }
    proof {
        assert(expr.terms@.subrange(n as int, n as int) =~= Seq::<Term>::empty());
    }
    proof {
        if stack@.len() != 1 {
            assert(false);
        }
    }
    let r = stack.pop().unwrap();
    proof {
        assert(rpn_text(expr.terms@) == stack@.map_values(|s: String| s@).push(r@)[0]);
    }
    r
}

/// A scalar expression as a tree, used to assemble well-formed reverse
/// Polish sequences. The right subtree is emitted first, so the left operand
/// is the first value popped, matching the renderer's convention.
pub enum ExprNode {
    Num(i64),
    Var(char),
    Op(Term, Box<ExprNode>, Box<ExprNode>),
}

pub open spec fn node_rpn(n: ExprNode) -> Seq<Term>
    decreases n,
{
    match n {
        ExprNode::Num(v) => seq![Term::Num(v)],
        ExprNode::Var(c) => seq![Term::Var(c)],
        ExprNode::Op(t, l, r) => node_rpn(*r) + node_rpn(*l) + seq![t],
    }
}

/// Value of a tree under an environment; `None` on an unbound variable, an
/// undefined division, or an atom in operator position.
pub open spec fn node_value(n: ExprNode, env: Map<char, int>) -> Option<int>
    decreases n,
{
    match n {
        ExprNode::Num(v) => Some(v as int),
        ExprNode::Var(c) => if env.dom().contains(c) {
            Some(env[c])
        } else {
            None
        },
        ExprNode::Op(t, l, r) => if is_atom(t) {
            None
        } else {
            match node_value(*l, env) {
                Some(a) => match node_value(*r, env) {
                    Some(b) => if term_ok(t, a, b) {
                        Some(term_value(t, a, b))
                    } else {
                        None
                    },
                    None => None,
                },
                None => None,
            }
        },
    }
}

/// A tree whose every operator position holds a binary term.
pub open spec fn node_ok(n: ExprNode) -> bool
    decreases n,
{
    match n {
        ExprNode::Num(_) => true,
        ExprNode::Var(_) => true,
        ExprNode::Op(t, l, r) => !is_atom(t) && node_ok(*l) && node_ok(*r),
    }
}

/// The reverse Polish form of a tree consumes no stack and pushes one value.
pub proof fn lemma_node_depth(n: ExprNode, rest: Seq<Term>, depth: int)
    requires
        node_ok(n),
        0 <= depth,
    ensures
        rpn_depth_from(node_rpn(n) + rest, depth) == rpn_depth_from(rest, depth + 1),
    decreases n,
{
    match n {
        ExprNode::Num(v) => {
            let whole = node_rpn(n) + rest;
            assert(whole[0] == Term::Num(v));
            assert(whole.subrange(1, whole.len() as int) =~= rest);
        },
        ExprNode::Var(c) => {
            let whole = node_rpn(n) + rest;
            assert(whole[0] == Term::Var(c));
            assert(whole.subrange(1, whole.len() as int) =~= rest);
        },
        ExprNode::Op(t, l, r) => {
            assert(node_rpn(n) + rest =~= node_rpn(*r) + (node_rpn(*l) + (seq![t] + rest)));
            lemma_node_depth(*r, node_rpn(*l) + (seq![t] + rest), depth);
            lemma_node_depth(*l, seq![t] + rest, depth + 1);
            assert((seq![t] + rest)[0] == t);
            assert((seq![t] + rest).subrange(1, (seq![t] + rest).len() as int) =~= rest);
        },
    }
}

pub proof fn lemma_node_wf(n: ExprNode)
    requires
        node_ok(n),
    ensures
        wf_rpn(node_rpn(n)),
{
    lemma_node_depth(n, Seq::empty(), 0);
    assert(node_rpn(n) + Seq::<Term>::empty() =~= node_rpn(n));
}

/// Running the stack machine over a tree's reverse Polish form pushes the
/// tree's value.
pub proof fn lemma_node_eval(n: ExprNode, rest: Seq<Term>, env: Map<char, int>, stack: Seq<int>)
    requires
        node_ok(n),
    ensures
        rpn_eval_from(node_rpn(n) + rest, env, stack) == (match node_value(n, env) {
            Some(v) => rpn_eval_from(rest, env, stack.push(v)),
            None => None::<Seq<int>>,
        }),
    decreases n,
{
    match n {
        ExprNode::Num(v) => {
            assert((node_rpn(n) + rest)[0] == Term::Num(v));
            assert((node_rpn(n) + rest).subrange(1, (node_rpn(n) + rest).len() as int) =~= rest);
        },
        ExprNode::Var(c) => {
            assert((node_rpn(n) + rest)[0] == Term::Var(c));
            assert((node_rpn(n) + rest).subrange(1, (node_rpn(n) + rest).len() as int) =~= rest);
        },
        ExprNode::Op(t, l, r) => {
            assert(node_rpn(n) + rest =~= node_rpn(*r) + (node_rpn(*l) + (seq![t] + rest)));
            lemma_node_eval(*r, node_rpn(*l) + (seq![t] + rest), env, stack);
            match node_value(*r, env) {
                Some(b) => {
                    lemma_node_eval(*l, seq![t] + rest, env, stack.push(b));
                    match node_value(*l, env) {
                        Some(a) => {
                            let st2 = stack.push(b).push(a);
                            assert((seq![t] + rest)[0] == t);
                            assert((seq![t] + rest).subrange(
                                1,
                                (seq![t] + rest).len() as int,
                            ) =~= rest);
                            assert(st2[st2.len() - 1] == a);
                            assert(st2[st2.len() - 2] == b);
                            assert(st2.drop_last().drop_last() =~= stack);
                        },
                        None => {},
                    }
                },
                None => {},
            }
        },
    }
}

/// The value of the whole expression built from a tree is the tree's value.
pub proof fn lemma_node_expression_value(n: ExprNode, env: Map<char, int>)
    requires
        node_ok(n),
    ensures
        rpn_value(node_rpn(n), env) == node_value(n, env),
{
    assert(node_rpn(n) + Seq::<Term>::empty() =~= node_rpn(n));
    lemma_node_eval(n, Seq::empty(), env, Seq::empty());
    match node_value(n, env) {
        Some(v) => {
            assert(rpn_eval_from(Seq::empty(), env, Seq::<int>::empty().push(v)) == Some(
                Seq::<int>::empty().push(v),
            ));
        },
        None => {},
    }
}

/// The reverse Polish form of a tree, built right subtree first.
pub fn rpn_of_node(n: &ExprNode) -> (r: Vec<Term>)
    ensures
        r@ == node_rpn(*n),
    decreases *n,
{
    match n {
        ExprNode::Num(v) => {
            let mut out: Vec<Term> = Vec::new();
            out.push(Term::Num(*v));
            proof {
                assert(out@ =~= node_rpn(*n));
            }
            out
        },
        ExprNode::Var(c) => {
            let mut out: Vec<Term> = Vec::new();
            out.push(Term::Var(*c));
            proof {
                assert(out@ =~= node_rpn(*n));
            }
            out
        },
        ExprNode::Op(t, l, r) => {
            let mut out = rpn_of_node(r);
            let mut lv = rpn_of_node(l);
            out.append(&mut lv);
            out.push(*t);
            proof {
                assert(out@ =~= node_rpn(*n));
            }
            out
        },
    }
}

} // verus!
