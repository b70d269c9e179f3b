//! The evaluator: an expression and an environment to a value.
//!
//! Evaluation walks the tree, resolves symbols and applies the built-in
//! operators. The arithmetic on doubles is its caller's: each result is read
//! from the results supplied, in the order in which the operations come up,
//! and where they run out evaluation stops and names the operation it needs
//! next.

use crate::env::{lookup, LispEnv};
use crate::expr::{forms, Builtin, Form, LispError, LispExpr};
use crate::meaning::{honest, lemma_honest_results_give_the_value, value};
use vstd::prelude::*;
use vstd::string::*;

verus! {

/// The bit pattern of the double 0.0.
pub const ZERO: u64 = 0;

/// The bit pattern of the double 1.0.
pub const ONE: u64 = 0x3FF0_0000_0000_0000;

/// The bit pattern of the double -0.0.
pub const MINUS_ZERO: u64 = 0x8000_0000_0000_0000;

/// How far an evaluation got.
#[derive(Debug, PartialEq)]
pub enum Step {
    /// It is complete, with this value.
    Done(LispExpr),
    /// It needs the result of this operation on these two doubles.
    Need(Builtin, u64, u64),
}

/// The mathematical outcome of an evaluation.
pub ghost enum Outcome {
    Value(Form),
    Fail(Seq<char>),
    Ask(Builtin, u64, u64),
}

/// Whether the double with these bits equals zero: 0.0 and -0.0 do.
pub open spec fn is_zero(bits: u64) -> bool {
    bits == ZERO || bits == MINUS_ZERO
}

/// Whether every operand is a number.
pub open spec fn all_numbers(args: Seq<Form>) -> bool {
    forall|i: int| 0 <= i < args.len() ==> (#[trigger] args[i]) is Number
}

/// The bits of a sequence of numbers.
pub open spec fn numbers(args: Seq<Form>) -> Seq<u64> {
    Seq::new(
        args.len(),
        |i: int|
            match args[i] {
                Form::Number(n) => n,
                _ => ZERO,
            },
    )
}

/// Whether any of the doubles is zero.
pub open spec fn has_zero(nums: Seq<u64>) -> bool {
    exists|i: int| 0 <= i < nums.len() && is_zero(#[trigger] nums[i])
}

/// The reason when an operand is no number.
pub open spec fn not_a_number() -> Seq<char> {
    "a number is expected"@
}

/// The reason when a difference or a quotient has no operand.
pub open spec fn too_few() -> Seq<char> {
    "too few arguments were given"@
}

/// The reason when an operand of a quotient is zero.
pub open spec fn divide_by_zero() -> Seq<char> {
    "divide by zero"@
}

/// The reason when nothing binds the symbol `name`.
pub open spec fn unknown_symbol(name: Seq<char>) -> Seq<char> {
    "unexpected symbol "@ + name
}

/// The reason when the empty list is evaluated.
pub open spec fn empty_list() -> Seq<char> {
    "empty list"@
}

/// The reason when the first form of a list is no operator.
pub open spec fn not_callable() -> Seq<char> {
    "first form is not callable"@
}

/// The reason when an operator is evaluated by itself.
pub open spec fn bare_callable() -> Seq<char> {
    "unexpected form"@
}

/// Folds `op` over `nums[i..]` from the left, starting from `acc`. Each
/// result is read from `tape` at `pos`; where the tape ends, the fold asks
/// for the operation it has reached. With the outcome comes the position in
/// the tape that it got to.
pub open spec fn fold(op: Builtin, acc: u64, nums: Seq<u64>, i: int, tape: Seq<u64>, pos: int) -> (
    Outcome,
    int,
)
    decreases nums.len() - i,
{
    if i < 0 || i >= nums.len() {
        (Outcome::Value(Form::Number(acc)), pos)
    } else if pos < 0 || pos >= tape.len() {
        (Outcome::Ask(op, acc, nums[i]), pos)
    } else {
        fold(op, tape[pos], nums, i + 1, tape, pos + 1)
    }
}

/// Applies a built-in operator to evaluated operands.
///
/// Every operand must be a number. A sum starts from 0.0 and a product from
/// 1.0; a difference and a quotient start from the first operand, which must
/// be there. A quotient fails where any operand, the first too, is zero.
pub open spec fn apply(op: Builtin, args: Seq<Form>, tape: Seq<u64>, pos: int) -> (Outcome, int) {
    let nums = numbers(args);
    if !all_numbers(args) {
        (Outcome::Fail(not_a_number()), pos)
    } else {
        match op {
            Builtin::Add => fold(op, ZERO, nums, 0, tape, pos),
            Builtin::Mul => fold(op, ONE, nums, 0, tape, pos),
            Builtin::Sub => if nums.len() == 0 {
                (Outcome::Fail(too_few()), pos)
            } else {
                fold(op, nums[0], nums, 1, tape, pos)
            },
            Builtin::Div => if nums.len() == 0 {
                (Outcome::Fail(too_few()), pos)
            } else if has_zero(nums) {
                (Outcome::Fail(divide_by_zero()), pos)
            } else {
                fold(op, nums[0], nums, 1, tape, pos)
            },
        }
    }
}

/// Evaluates `form`, reading arithmetic results from `tape` at `pos` on.
pub open spec fn eval_at(form: Form, env: Map<Seq<char>, Form>, tape: Seq<u64>, pos: int) -> (
    Outcome,
    int,
)
    decreases form, 0int,
{
    match form {
        Form::Symbol(name) => match lookup(env, name) {
            Some(v) => (Outcome::Value(v), pos),
            None => (Outcome::Fail(unknown_symbol(name)), pos),
        },
        Form::Number(_) => (Outcome::Value(form), pos),
        Form::Func(_) => (Outcome::Fail(bare_callable()), pos),
        Form::List(items) => if items.len() == 0 {
            (Outcome::Fail(empty_list()), pos)
        } else {
            let (head, p) = eval_at(items[0], env, tape, pos);
            match head {
                Outcome::Value(Form::Func(op)) => operands(items, 1, Seq::empty(), op, env, tape, p),
                Outcome::Value(_) => (Outcome::Fail(not_callable()), p),
                _ => (head, p),
            }
        },
    }
}

/// Evaluates the operands `items[i..]` from left to right, after the values
/// `done` of those before them, and applies `op` to them all. The first
/// operand that does not come to a value ends the evaluation.
pub open spec fn operands(
    items: Seq<Form>,
    i: int,
    done: Seq<Form>,
    op: Builtin,
    env: Map<Seq<char>, Form>,
    tape: Seq<u64>,
    pos: int,
) -> (Outcome, int)
    decreases items, items.len() - i,
{
    if i < 0 || i >= items.len() {
        apply(op, done, tape, pos)
    } else {
        let (o, p) = eval_at(items[i], env, tape, pos);
        match o {
            Outcome::Value(v) => operands(items, i + 1, done.push(v), op, env, tape, p),
            _ => (o, p),
        }
    }
}

/// The outcome of evaluating `form` in `env` with the arithmetic results
/// `tape`.
pub open spec fn evaluate(form: Form, env: Map<Seq<char>, Form>, tape: Seq<u64>) -> Outcome {
    eval_at(form, env, tape, 0).0
}

/// What an evaluation returns, against the model's outcome.
pub open spec fn shows(r: Result<Step, LispError>, o: Outcome) -> bool {
    match o {
        Outcome::Value(f) => r matches Ok(Step::Done(e)) && e@ == f,
        Outcome::Ask(op, a, b) => r matches Ok(Step::Need(p, x, y)) && p == op && x == a && y == b,
        Outcome::Fail(reason) => r matches Err(e) && e@ == reason,
    }
}

/// A quotient with a zero among its operands, wherever it stands, fails as
/// a division by zero, and reads no arithmetic result.
pub proof fn lemma_zero_operand_fails(args: Seq<Form>, k: int, tape: Seq<u64>, pos: int)
    requires
        all_numbers(args),
        0 <= k < args.len(),
        args[k] matches Form::Number(z) && is_zero(z),
    ensures
        apply(Builtin::Div, args, tape, pos) == (Outcome::Fail(divide_by_zero()), pos),
{
    assert(is_zero(numbers(args)[k]));
}

/// A list whose first form is a symbol that nothing binds fails on that
/// symbol, before any operand is evaluated: no arithmetic result is read.
pub proof fn lemma_unbound_operator_fails(
    items: Seq<Form>,
    name: Seq<char>,
    env: Map<Seq<char>, Form>,
    tape: Seq<u64>,
    pos: int,
)
    requires
        items.len() > 0,
        items[0] == Form::Symbol(name),
        lookup(env, name) is None,
    ensures
        eval_at(Form::List(items), env, tape, pos) == (Outcome::Fail(unknown_symbol(name)), pos),
{
    assert(eval_at(items[0], env, tape, pos) == (Outcome::Fail(unknown_symbol(name)), pos));
}

/// A number evaluates to itself, whatever the environment and the results
/// supplied.
pub proof fn lemma_number_is_its_value(n: u64, env: Map<Seq<char>, Form>, tape: Seq<u64>)
    ensures
        evaluate(Form::Number(n), env, tape) == Outcome::Value(Form::Number(n)),
{
}

/// A symbol that the environment binds evaluates to what it is bound to.
pub proof fn lemma_bound_symbol_is_its_binding(
    name: Seq<char>,
    bound: Form,
    env: Map<Seq<char>, Form>,
    tape: Seq<u64>,
)
    requires
        lookup(env, name) == Some(bound),
    ensures
        evaluate(Form::Symbol(name), env, tape) == Outcome::Value(bound),
{
}

/// The empty list never evaluates: it fails as an empty list.
pub proof fn lemma_empty_list_fails(env: Map<Seq<char>, Form>, tape: Seq<u64>)
    ensures
        evaluate(Form::List(Seq::empty()), env, tape) == Outcome::Fail(empty_list()),
{
}

/// The bits of a number; anything else is refused.
fn parse_single_float(expr: &LispExpr) -> (r: Result<u64, LispError>)
    ensures
        match expr@ {
            Form::Number(n) => r matches Ok(m) && m == n,
            _ => r matches Err(e) && e@ == not_a_number(),
        },
{
    match expr {
        LispExpr::Number(num) => Ok(*num),
        _ => Err(LispError::new("a number is expected")),
    }
}

/// The bits of each operand, if all are numbers.
fn parse_float_list(args: &Vec<LispExpr>) -> (r: Result<Vec<u64>, LispError>)
    ensures
        all_numbers(forms(args@)) ==> (r matches Ok(v) && v@ == numbers(forms(args@))),
        !all_numbers(forms(args@)) ==> (r matches Err(e) && e@ == not_a_number()),
{
    let mut out: Vec<u64> = Vec::new();
    let mut i: usize = 0;
    while i < args.len()
        invariant
            i <= args@.len(),
            out@.len() == i,
            forall|k: int| 0 <= k < i ==> (#[trigger] forms(args@)[k]) is Number,
            forall|k: int| 0 <= k < i ==> out@[k] == numbers(forms(args@))[k],
        decreases args@.len() - i,
    {
        match parse_single_float(&args[i]) {
            Ok(n) => {
                out.push(n);
            },
            Err(e) => {
                proof {
                    assert(!(forms(args@)[i as int] is Number));
                }
                return Err(e);
            },
        }
        i += 1;
    }
    proof {
        assert(out@ =~= numbers(forms(args@)));
    }
    Ok(out)
}

/// Whether any of the doubles is zero.
fn contains_zero(nums: &Vec<u64>) -> (r: bool)
    ensures
        r == has_zero(nums@),
{
    let mut i: usize = 0;
    while i < nums.len()
        invariant
            i <= nums@.len(),
            forall|k: int| 0 <= k < i ==> !is_zero(#[trigger] nums@[k]),
        decreases nums@.len() - i,
    {
        if nums[i] == ZERO || nums[i] == MINUS_ZERO {
            return true;
        }
        i += 1;
    }
    false
}

/// Folds `op` over `nums[from..]`, starting from `init`, with the results
/// read from `results[pos..]`.
fn fold_from(
    op: Builtin,
    init: u64,
    nums: &Vec<u64>,
    from: usize,
    results: &[u64],
    pos: usize,
) -> (r: (Result<Step, LispError>, usize))
    requires
        from <= nums@.len(),
        pos <= results@.len(),
    ensures
        shows(r.0, fold(op, init, nums@, from as int, results@, pos as int).0),
        r.1 == fold(op, init, nums@, from as int, results@, pos as int).1,
        pos <= r.1 <= results@.len(),
{
    let mut acc: u64 = init;
    let mut i: usize = from;
    let mut p: usize = pos;
    while i < nums.len() && p < results.len()
        invariant
            from <= i <= nums@.len(),
            pos <= p <= results@.len(),
            fold(op, acc, nums@, i as int, results@, p as int) == fold(
                op,
                init,
                nums@,
                from as int,
                results@,
                pos as int,
            ),
        decreases nums@.len() - i,
    {
        acc = results[p];
        i += 1;
        p += 1;
    }
    if i < nums.len() {
        (Ok(Step::Need(op, acc, nums[i])), p)
    } else {
        (Ok(Step::Done(LispExpr::Number(acc))), p)
    }
}

/// Applies a built-in operator to evaluated operands, with the results of
/// its arithmetic read from `results[pos..]`.
fn apply_builtin(op: Builtin, args: &Vec<LispExpr>, results: &[u64], pos: usize) -> (r: (
    Result<Step, LispError>,
    usize,
))
    requires
        pos <= results@.len(),
    ensures
        shows(r.0, apply(op, forms(args@), results@, pos as int).0),
        r.1 == apply(op, forms(args@), results@, pos as int).1,
        pos <= r.1 <= results@.len(),
{
    let nums = match parse_float_list(args) {
        Ok(v) => v,
        Err(e) => {
            return (Err(e), pos);
        },
    };
    match op {
        Builtin::Add => fold_from(op, ZERO, &nums, 0, results, pos),
        Builtin::Mul => fold_from(op, ONE, &nums, 0, results, pos),
        Builtin::Sub => {
            if nums.len() == 0 {
                (Err(LispError::new("too few arguments were given")), pos)
            } else {
                fold_from(op, nums[0], &nums, 1, results, pos)
            }
        },
        Builtin::Div => {
            if nums.len() == 0 {
                (Err(LispError::new("too few arguments were given")), pos)
            } else if contains_zero(&nums) {
                (Err(LispError::new("divide by zero")), pos)
            } else {
                fold_from(op, nums[0], &nums, 1, results, pos)
            }
        },
    }
}

/// The error for a symbol that nothing binds.
fn unknown(name: &String) -> (e: LispError)
    ensures
        e@ == unknown_symbol(name@),
{
    let mut reason = String::from_str("unexpected symbol ");
    reason.append(name.as_str());
    LispError::Reason(reason)
}

/// Evaluates `expr` with the arithmetic results read from `results[pos..]`,
/// and returns how far it got with the position it read up to.
fn eval_from(expr: &LispExpr, env: &LispEnv, results: &[u64], pos: usize) -> (r: (
    Result<Step, LispError>,
    usize,
))
    requires
        pos <= results@.len(),
    ensures
        shows(r.0, eval_at(expr@, env@, results@, pos as int).0),
        r.1 == eval_at(expr@, env@, results@, pos as int).1,
        pos <= r.1 <= results@.len(),
    decreases expr,
{
    match expr {
        LispExpr::Symbol(name) => match env.get(name) {
            Some(bound) => (Ok(Step::Done(bound.copy())), pos),
            None => (Err(unknown(name)), pos),
        },
        LispExpr::Number(n) => (Ok(Step::Done(LispExpr::Number(*n))), pos),
        LispExpr::Func(_) => (Err(LispError::new("unexpected form")), pos),
        LispExpr::List(list) => {
            if list.len() == 0 {
                return (Err(LispError::new("empty list")), pos);
            }
            let ghost items = forms(list@);
            proof {
                vstd::std_specs::vec::axiom_vec_index_decreases(*list, 0);
                assert(items[0] == list@[0]@);
            }
            let (head, after_head) = eval_from(&list[0], env, results, pos);
            let op = match head {
                Ok(Step::Done(LispExpr::Func(op))) => op,
                Ok(Step::Done(_)) => {
                    return (Err(LispError::new("first form is not callable")), after_head);
                },
                other => {
                    return (other, after_head);
                },
            };
            let mut args: Vec<LispExpr> = Vec::new();
            let mut p: usize = after_head;
            let mut i: usize = 1;
            proof {
                assert(forms(args@) =~= Seq::empty());
            }
            while i < list.len()
                invariant
                    decreases_to!(*expr => *list),
                    items == forms(list@),
                    1 <= i <= list@.len(),
                    pos <= p <= results@.len(),
                    operands(items, i as int, forms(args@), op, env@, results@, p as int)
                        == eval_at(expr@, env@, results@, pos as int),
                decreases list@.len() - i,
            {
                proof {
                    vstd::std_specs::vec::axiom_vec_index_decreases(*list, i as int);
                    assert(items[i as int] == list@[i as int]@);
                }
                let ghost before = forms(args@);
                let (arg, next) = eval_from(&list[i], env, results, p);
                match arg {
                    Ok(Step::Done(value)) => {
                        args.push(value);
                        proof {
                            assert(forms(args@) =~= before.push(value@));
                        }
                    },
                    other => {
                        return (other, next);
                    },
                }
                p = next;
                i += 1;
            }
            apply_builtin(op, &args, results, p)
        },
    }
}

/// Evaluates `expr` in `env`, with the arithmetic results that are known so
/// far.
///
/// Returns the value, or the failure, or the next operation whose result is
/// needed: append that result to `results` and evaluate again. The
/// environment is left as it was.
///
/// Where each result supplied is what its operation gives, under whatever
/// table `f` of operations, a value or a failure that is returned is the one
/// that the expression has under `f`.
pub fn eval(expr: &LispExpr, env: &mut LispEnv, results: &[u64]) -> (r: Result<Step, LispError>)
    ensures
        *final(env) == *old(env),
        shows(r, evaluate(expr@, old(env)@, results@)),
        forall|f: spec_fn(Builtin, u64, u64) -> u64| #[trigger]
            honest(f, expr@, old(env)@, results@) ==> (r matches Ok(Step::Need(_, _, _)) || shows(
                r,
                value(f, expr@, old(env)@),
            )),
{
    proof {
        assert forall|f: spec_fn(Builtin, u64, u64) -> u64| #[trigger]
            honest(f, expr@, env@, results@) implies evaluate(expr@, env@, results@) is Ask
            || evaluate(expr@, env@, results@) == value(f, expr@, env@) by {
            lemma_honest_results_give_the_value(f, expr@, env@, results@);
        }
    }
    let (r, _) = eval_from(expr, env, results, 0);
    r
}

} // verus!
