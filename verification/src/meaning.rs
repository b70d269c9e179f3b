//! What evaluation means once the arithmetic is given: the value of an
//! expression under a table of operations, and the proof that evaluation
//! against supplied results comes to that value whenever each result
//! supplied is the table's answer to the operation that was asked for.

use crate::env::lookup;
use crate::eval::{
    all_numbers, apply, bare_callable, divide_by_zero, empty_list, eval_at, evaluate, fold,
    has_zero, not_a_number, not_callable, numbers, operands, too_few, unknown_symbol, Outcome,
    ONE, ZERO,
};
use crate::expr::{Builtin, Form};
use vstd::prelude::*;

verus! {

/// Folds `op` over `nums[i..]` from the left, starting from `acc`, with the
/// operations computed by `f`.
pub open spec fn fold_by(
    f: spec_fn(Builtin, u64, u64) -> u64,
    op: Builtin,
    acc: u64,
    nums: Seq<u64>,
    i: int,
) -> u64
    decreases nums.len() - i,
{
    if i < 0 || i >= nums.len() {
        acc
    } else {
        fold_by(f, op, f(op, acc, nums[i]), nums, i + 1)
    }
}

/// The result of a built-in operator on evaluated operands, with the
/// operations computed by `f`.
pub open spec fn apply_by(f: spec_fn(Builtin, u64, u64) -> u64, op: Builtin, args: Seq<Form>)
    -> Outcome {
    let nums = numbers(args);
    if !all_numbers(args) {
        Outcome::Fail(not_a_number())
    } else {
        match op {
            Builtin::Add => Outcome::Value(Form::Number(fold_by(f, op, ZERO, nums, 0))),
            Builtin::Mul => Outcome::Value(Form::Number(fold_by(f, op, ONE, nums, 0))),
            Builtin::Sub => if nums.len() == 0 {
                Outcome::Fail(too_few())
            } else {
                Outcome::Value(Form::Number(fold_by(f, op, nums[0], nums, 1)))
            },
            Builtin::Div => if nums.len() == 0 {
                Outcome::Fail(too_few())
            } else if has_zero(nums) {
                Outcome::Fail(divide_by_zero())
            } else {
                Outcome::Value(Form::Number(fold_by(f, op, nums[0], nums, 1)))
            },
        }
    }
}

/// The value of `form` in `env`, with the operations computed by `f`: a
/// value or a failure, never a question.
pub open spec fn value(f: spec_fn(Builtin, u64, u64) -> u64, form: Form, env: Map<Seq<char>, Form>)
    -> Outcome
    decreases form, 0int,
{
    match form {
        Form::Symbol(name) => match lookup(env, name) {
            Some(v) => Outcome::Value(v),
            None => Outcome::Fail(unknown_symbol(name)),
        },
        Form::Number(_) => Outcome::Value(form),
        Form::Func(_) => Outcome::Fail(bare_callable()),
        Form::List(items) => if items.len() == 0 {
            Outcome::Fail(empty_list())
        } else {
            match value(f, items[0], env) {
                Outcome::Value(Form::Func(op)) => operands_by(f, items, 1, Seq::empty(), op, env),
                Outcome::Value(_) => Outcome::Fail(not_callable()),
                other => other,
            }
        },
    }
}

/// The result of `op` on the operands `items[i..]`, evaluated from left to
/// right after the values `done`, with the operations computed by `f`.
pub open spec fn operands_by(
    f: spec_fn(Builtin, u64, u64) -> u64,
    items: Seq<Form>,
    i: int,
    done: Seq<Form>,
    op: Builtin,
    env: Map<Seq<char>, Form>,
) -> Outcome
    decreases items, items.len() - i,
{
    if i < 0 || i >= items.len() {
        apply_by(f, op, done)
    } else {
        match value(f, items[i], env) {
            Outcome::Value(v) => operands_by(f, items, i + 1, done.push(v), op, env),
            other => other,
        }
    }
}

/// Where the outcome is a question, `r` is the answer that `f` gives to it.
pub open spec fn answers(f: spec_fn(Builtin, u64, u64) -> u64, o: Outcome, r: u64) -> bool {
    o matches Outcome::Ask(op, a, b) ==> r == f(op, a, b)
}

/// Each result in `tape` is the answer of `f` to what evaluation asks for
/// when it is given the results before it.
pub open spec fn honest(
    f: spec_fn(Builtin, u64, u64) -> u64,
    form: Form,
    env: Map<Seq<char>, Form>,
    tape: Seq<u64>,
) -> bool {
    honest_eval(f, form, env, tape, 0)
}

/// The results from `pos` on are honest for this fold.
spec fn honest_fold(
    f: spec_fn(Builtin, u64, u64) -> u64,
    op: Builtin,
    acc: u64,
    nums: Seq<u64>,
    i: int,
    tape: Seq<u64>,
    pos: int,
) -> bool {
    forall|k: int|
        pos <= k < tape.len() ==> answers(
            f,
            fold(op, acc, nums, i, #[trigger] tape.take(k), pos).0,
            tape[k],
        )
}

/// The results from `pos` on are honest for this application.
spec fn honest_apply(
    f: spec_fn(Builtin, u64, u64) -> u64,
    op: Builtin,
    args: Seq<Form>,
    tape: Seq<u64>,
    pos: int,
) -> bool {
    forall|k: int|
        pos <= k < tape.len() ==> answers(f, apply(op, args, #[trigger] tape.take(k), pos).0, tape[k])
}

/// The results from `pos` on are honest for the evaluation of `form`.
pub open spec fn honest_eval(
    f: spec_fn(Builtin, u64, u64) -> u64,
    form: Form,
    env: Map<Seq<char>, Form>,
    tape: Seq<u64>,
    pos: int,
) -> bool {
    forall|k: int|
        pos <= k < tape.len() ==> answers(
            f,
            eval_at(form, env, #[trigger] tape.take(k), pos).0,
            tape[k],
        )
}

/// The results from `pos` on are honest for the evaluation of these operands.
spec fn honest_operands(
    f: spec_fn(Builtin, u64, u64) -> u64,
    items: Seq<Form>,
    i: int,
    done: Seq<Form>,
    op: Builtin,
    env: Map<Seq<char>, Form>,
    tape: Seq<u64>,
    pos: int,
) -> bool {
    forall|k: int|
        pos <= k < tape.len() ==> answers(
            f,
            operands(items, i, done, op, env, #[trigger] tape.take(k), pos).0,
            tape[k],
        )
}

/// How a run on the first `k` results relates to the run on them all, both
/// from position `pos`: the full run reads on within the results and asks
/// only at their end; the cut run asks at `k` where the full run reads
/// further, and is the full run where that one ends by `k` without asking.
spec fn cut_of(full: (Outcome, int), cut: (Outcome, int), pos: int, k: int, len: int)
    -> bool {
    &&& pos <= full.1 <= len
    &&& (full.0 is Ask ==> full.1 == len)
    &&& (k < full.1 ==> cut.0 is Ask && cut.1 == k)
    &&& (k >= full.1 && !(full.0 is Ask) ==> cut == full)
}

/// A fold on the first `k` results is a cut of the fold on them all.
proof fn lemma_fold_cut(
    op: Builtin,
    acc: u64,
    nums: Seq<u64>,
    i: int,
    tape: Seq<u64>,
    pos: int,
    k: int,
)
    requires
        0 <= pos <= k <= tape.len(),
    ensures
        cut_of(
            fold(op, acc, nums, i, tape, pos),
            fold(op, acc, nums, i, tape.take(k), pos),
            pos,
            k,
            tape.len() as int,
        ),
    decreases nums.len() - i,
{
    if i < 0 || i >= nums.len() {
    } else if pos >= tape.len() {
    } else if pos == k {
        lemma_fold_cut(op, tape[pos], nums, i + 1, tape, pos + 1, pos + 1);
    } else {
        assert(tape.take(k)[pos] == tape[pos]);
        lemma_fold_cut(op, tape[pos], nums, i + 1, tape, pos + 1, k);
    }
}

/// An application on the first `k` results is a cut of that on them all.
proof fn lemma_apply_cut(op: Builtin, args: Seq<Form>, tape: Seq<u64>, pos: int, k: int)
    requires
        0 <= pos <= k <= tape.len(),
    ensures
        cut_of(
            apply(op, args, tape, pos),
            apply(op, args, tape.take(k), pos),
            pos,
            k,
            tape.len() as int,
        ),
{
    let nums = numbers(args);
    if all_numbers(args) {
        match op {
            Builtin::Add => lemma_fold_cut(op, ZERO, nums, 0, tape, pos, k),
            Builtin::Mul => lemma_fold_cut(op, ONE, nums, 0, tape, pos, k),
            _ => if nums.len() > 0 {
                lemma_fold_cut(op, nums[0], nums, 1, tape, pos, k)
            },
        }
    }
}

/// An evaluation on the first `k` results is a cut of that on them all.
proof fn lemma_eval_cut(
    form: Form,
    env: Map<Seq<char>, Form>,
    tape: Seq<u64>,
    pos: int,
    k: int,
)
    requires
        0 <= pos <= k <= tape.len(),
    ensures
        cut_of(
            eval_at(form, env, tape, pos),
            eval_at(form, env, tape.take(k), pos),
            pos,
            k,
            tape.len() as int,
        ),
    decreases form, 0int,
{
    if let Form::List(items) = form {
        if items.len() > 0 {
            lemma_eval_cut(items[0], env, tape, pos, k);
            let (head, p) = eval_at(items[0], env, tape, pos);
            if let Outcome::Value(Form::Func(op)) = head {
                lemma_operands_cut(items, 1, Seq::empty(), op, env, tape, p, if k < p {
                    p
                } else {
                    k
                });
            }
        }
    }
}

/// The operands on the first `k` results are a cut of those on them all.
proof fn lemma_operands_cut(
    items: Seq<Form>,
    i: int,
    done: Seq<Form>,
    op: Builtin,
    env: Map<Seq<char>, Form>,
    tape: Seq<u64>,
    pos: int,
    k: int,
)
    requires
        0 <= pos <= k <= tape.len(),
    ensures
        cut_of(
            operands(items, i, done, op, env, tape, pos),
            operands(items, i, done, op, env, tape.take(k), pos),
            pos,
            k,
            tape.len() as int,
        ),
    decreases items, items.len() - i,
{
    if i < 0 || i >= items.len() {
        lemma_apply_cut(op, done, tape, pos, k);
    } else {
        lemma_eval_cut(items[i], env, tape, pos, k);
        let (o, p) = eval_at(items[i], env, tape, pos);
        if let Outcome::Value(v) = o {
            lemma_operands_cut(items, i + 1, done.push(v), op, env, tape, p, if k < p {
                p
            } else {
                k
            });
        }
    }
}

/// A fold over honest results asks, or is the fold under `f`.
proof fn lemma_fold_honest(
    f: spec_fn(Builtin, u64, u64) -> u64,
    op: Builtin,
    acc: u64,
    nums: Seq<u64>,
    i: int,
    tape: Seq<u64>,
    pos: int,
)
    requires
        0 <= pos <= tape.len(),
        honest_fold(f, op, acc, nums, i, tape, pos),
    ensures
        fold(op, acc, nums, i, tape, pos).0 is Ask || fold(op, acc, nums, i, tape, pos).0
            == Outcome::Value(Form::Number(fold_by(f, op, acc, nums, i))),
    decreases nums.len() - i,
{
    if i < 0 || i >= nums.len() {
    } else if pos >= tape.len() {
    } else {
        assert(fold(op, acc, nums, i, tape.take(pos), pos).0 == Outcome::Ask(op, acc, nums[i]));
        assert(tape[pos] == f(op, acc, nums[i]));
        assert forall|k: int| pos + 1 <= k < tape.len() implies answers(
            f,
            fold(op, tape[pos], nums, i + 1, #[trigger] tape.take(k), pos + 1).0,
            tape[k],
        ) by {
            assert(tape.take(k)[pos] == tape[pos]);
            assert(fold(op, acc, nums, i, tape.take(k), pos) == fold(
                op,
                tape[pos],
                nums,
                i + 1,
                tape.take(k),
                pos + 1,
            ));
        }
        lemma_fold_honest(f, op, tape[pos], nums, i + 1, tape, pos + 1);
    }
}

/// An application over honest results asks, or is the application under `f`.
proof fn lemma_apply_honest(
    f: spec_fn(Builtin, u64, u64) -> u64,
    op: Builtin,
    args: Seq<Form>,
    tape: Seq<u64>,
    pos: int,
)
    requires
        0 <= pos <= tape.len(),
        honest_apply(f, op, args, tape, pos),
    ensures
        apply(op, args, tape, pos).0 is Ask || apply(op, args, tape, pos).0 == apply_by(f, op, args),
{
    let nums = numbers(args);
    if all_numbers(args) {
        let start: int = if op == Builtin::Add || op == Builtin::Mul {
            0
        } else {
            1
        };
        let init = match op {
            Builtin::Add => ZERO,
            Builtin::Mul => ONE,
            _ => if nums.len() > 0 {
                nums[0]
            } else {
                ZERO
            },
        };
        let folds = match op {
            Builtin::Add => true,
            Builtin::Mul => true,
            Builtin::Sub => nums.len() > 0,
            Builtin::Div => nums.len() > 0 && !has_zero(nums),
        };
        if folds {
            assert forall|k: int| pos <= k < tape.len() implies answers(
                f,
                fold(op, init, nums, start, #[trigger] tape.take(k), pos).0,
                tape[k],
            ) by {
                assert(apply(op, args, tape.take(k), pos) == fold(
                    op,
                    init,
                    nums,
                    start,
                    tape.take(k),
                    pos,
                ));
            }
            lemma_fold_honest(f, op, init, nums, start, tape, pos);
        }
    }
}

/// An evaluation over honest results asks, or is the value under `f`.
proof fn lemma_eval_honest(
    f: spec_fn(Builtin, u64, u64) -> u64,
    form: Form,
    env: Map<Seq<char>, Form>,
    tape: Seq<u64>,
    pos: int,
)
    requires
        0 <= pos <= tape.len(),
        honest_eval(f, form, env, tape, pos),
    ensures
        eval_at(form, env, tape, pos).0 is Ask || eval_at(form, env, tape, pos).0 == value(
            f,
            form,
            env,
        ),
    decreases form, 0int,
{
    if let Form::List(items) = form {
        if items.len() > 0 {
            let (head, p) = eval_at(items[0], env, tape, pos);
            assert forall|k: int| pos <= k < tape.len() implies answers(
                f,
                eval_at(items[0], env, #[trigger] tape.take(k), pos).0,
                tape[k],
            ) by {
                let cut = eval_at(items[0], env, tape.take(k), pos);
                if cut.0 is Ask {
                    assert(eval_at(form, env, tape.take(k), pos) == cut);
                }
            }
            lemma_eval_honest(f, items[0], env, tape, pos);
            lemma_eval_cut(items[0], env, tape, pos, tape.len() as int);
            if let Outcome::Value(Form::Func(op)) = head {
                assert forall|k: int| p <= k < tape.len() implies answers(
                    f,
                    operands(items, 1, Seq::empty(), op, env, #[trigger] tape.take(k), p).0,
                    tape[k],
                ) by {
                    lemma_eval_cut(items[0], env, tape, pos, k);
                    assert(eval_at(items[0], env, tape.take(k), pos) == (head, p));
                    assert(eval_at(form, env, tape.take(k), pos) == operands(
                        items,
                        1,
                        Seq::empty(),
                        op,
                        env,
                        tape.take(k),
                        p,
                    ));
                }
                lemma_operands_honest(f, items, 1, Seq::empty(), op, env, tape, p);
            }
        }
    }
}

/// Operands over honest results ask, or come to their result under `f`.
proof fn lemma_operands_honest(
    f: spec_fn(Builtin, u64, u64) -> u64,
    items: Seq<Form>,
    i: int,
    done: Seq<Form>,
    op: Builtin,
    env: Map<Seq<char>, Form>,
    tape: Seq<u64>,
    pos: int,
)
    requires
        0 <= pos <= tape.len(),
        honest_operands(f, items, i, done, op, env, tape, pos),
    ensures
        operands(items, i, done, op, env, tape, pos).0 is Ask || operands(
            items,
            i,
            done,
            op,
            env,
            tape,
            pos,
        ).0 == operands_by(f, items, i, done, op, env),
    decreases items, items.len() - i,
{
    if i < 0 || i >= items.len() {
        assert forall|k: int| pos <= k < tape.len() implies answers(
            f,
            apply(op, done, #[trigger] tape.take(k), pos).0,
            tape[k],
        ) by {
            assert(operands(items, i, done, op, env, tape.take(k), pos) == apply(
                op,
                done,
                tape.take(k),
                pos,
            ));
        }
        lemma_apply_honest(f, op, done, tape, pos);
    } else {
        let (o, p) = eval_at(items[i], env, tape, pos);
        assert forall|k: int| pos <= k < tape.len() implies answers(
            f,
            eval_at(items[i], env, #[trigger] tape.take(k), pos).0,
            tape[k],
        ) by {
            let cut = eval_at(items[i], env, tape.take(k), pos);
            if cut.0 is Ask {
                assert(operands(items, i, done, op, env, tape.take(k), pos) == cut);
            }
        }
        lemma_eval_honest(f, items[i], env, tape, pos);
        lemma_eval_cut(items[i], env, tape, pos, tape.len() as int);
        if let Outcome::Value(v) = o {
            assert forall|k: int| p <= k < tape.len() implies answers(
                f,
                operands(items, i + 1, done.push(v), op, env, #[trigger] tape.take(k), p).0,
                tape[k],
            ) by {
                lemma_eval_cut(items[i], env, tape, pos, k);
                assert(eval_at(items[i], env, tape.take(k), pos) == (o, p));
                assert(operands(items, i, done, op, env, tape.take(k), pos) == operands(
                    items,
                    i + 1,
                    done.push(v),
                    op,
                    env,
                    tape.take(k),
                    p,
                ));
            }
            lemma_operands_honest(f, items, i + 1, done.push(v), op, env, tape, p);
        }
    }
}

/// Evaluation against honest results is evaluation under the table: where
/// it does not ask for a further operation, it has come to the value, or
/// the failure, that the expression has with the operations computed by `f`.
pub proof fn lemma_honest_results_give_the_value(
    f: spec_fn(Builtin, u64, u64) -> u64,
    form: Form,
    env: Map<Seq<char>, Form>,
    tape: Seq<u64>,
)
    requires
        honest(f, form, env, tape),
    ensures
        evaluate(form, env, tape) is Ask || evaluate(form, env, tape) == value(f, form, env),
{
    lemma_eval_honest(f, form, env, tape, 0);
}

/// No results at all are honest results.
pub proof fn lemma_no_results_are_honest(
    f: spec_fn(Builtin, u64, u64) -> u64,
    form: Form,
    env: Map<Seq<char>, Form>,
)
    ensures
        honest(f, form, env, Seq::empty()),
{
}

/// Honest results stay honest when the answer of `f` to the operation that
/// evaluation asks for is appended to them.
pub proof fn lemma_answer_keeps_honest(
    f: spec_fn(Builtin, u64, u64) -> u64,
    form: Form,
    env: Map<Seq<char>, Form>,
    tape: Seq<u64>,
    op: Builtin,
    a: u64,
    b: u64,
)
    requires
        honest(f, form, env, tape),
        evaluate(form, env, tape) == Outcome::Ask(op, a, b),
    ensures
        honest(f, form, env, tape.push(f(op, a, b))),
{
    let next = tape.push(f(op, a, b));
    assert forall|k: int| 0 <= k < next.len() implies answers(
        f,
        eval_at(form, env, #[trigger] next.take(k), 0).0,
        next[k],
    ) by {
        if k < tape.len() {
            assert(next.take(k) =~= tape.take(k));
        } else {
            assert(next.take(k) =~= tape);
        }
    }
}

/// Evaluation asks only when it has read every result supplied: a result
/// appended after a question is the next one read.
pub proof fn lemma_asks_at_the_end(form: Form, env: Map<Seq<char>, Form>, tape: Seq<u64>)
    ensures
        0 <= eval_at(form, env, tape, 0).1 <= tape.len(),
        evaluate(form, env, tape) is Ask ==> eval_at(form, env, tape, 0).1 == tape.len(),
{
    lemma_eval_cut(form, env, tape, 0, tape.len() as int);
}

/// A bound on the operations that evaluating `form` can ask for: one for
/// each item of each list in it.
pub open spec fn work(form: Form) -> nat
    decreases form, 0int,
{
    match form {
        Form::List(items) => work_from(items, 0) + items.len(),
        _ => 0,
    }
}

/// The sum of the bounds of `items[i..]`.
pub open spec fn work_from(items: Seq<Form>, i: int) -> nat
    decreases items, items.len() - i,
{
    if i < 0 || i >= items.len() {
        0
    } else {
        work(items[i]) + work_from(items, i + 1)
    }
}

/// A fold reads at most one result for each number it folds in.
proof fn lemma_fold_reads(
    op: Builtin,
    acc: u64,
    nums: Seq<u64>,
    i: int,
    tape: Seq<u64>,
    pos: int,
)
    requires
        0 <= i <= nums.len(),
    ensures
        fold(op, acc, nums, i, tape, pos).1 - pos <= nums.len() - i,
    decreases nums.len() - i,
{
    if i < nums.len() && 0 <= pos < tape.len() {
        lemma_fold_reads(op, tape[pos], nums, i + 1, tape, pos + 1);
    }
}

/// An application reads at most one result for each operand.
proof fn lemma_apply_reads(op: Builtin, args: Seq<Form>, tape: Seq<u64>, pos: int)
    ensures
        apply(op, args, tape, pos).1 - pos <= args.len(),
{
    let nums = numbers(args);
    if all_numbers(args) {
        match op {
            Builtin::Add => lemma_fold_reads(op, ZERO, nums, 0, tape, pos),
            Builtin::Mul => lemma_fold_reads(op, ONE, nums, 0, tape, pos),
            _ => if nums.len() > 0 {
                lemma_fold_reads(op, nums[0], nums, 1, tape, pos)
            },
        }
    }
}

/// An evaluation reads no more results than the bound of its expression.
proof fn lemma_eval_reads(form: Form, env: Map<Seq<char>, Form>, tape: Seq<u64>, pos: int)
    ensures
        eval_at(form, env, tape, pos).1 - pos <= work(form),
    decreases form, 0int,
{
    if let Form::List(items) = form {
        if items.len() > 0 {
            lemma_eval_reads(items[0], env, tape, pos);
            let (head, p) = eval_at(items[0], env, tape, pos);
            if let Outcome::Value(Form::Func(op)) = head {
                lemma_operands_reads(items, 1, Seq::empty(), op, env, tape, p);
            }
            assert(work_from(items, 0) == work(items[0]) + work_from(items, 1));
        }
    }
}

/// The operands read no more results than their bounds and their number.
proof fn lemma_operands_reads(
    items: Seq<Form>,
    i: int,
    done: Seq<Form>,
    op: Builtin,
    env: Map<Seq<char>, Form>,
    tape: Seq<u64>,
    pos: int,
)
    requires
        0 <= i <= items.len(),
    ensures
        operands(items, i, done, op, env, tape, pos).1 - pos <= work_from(items, i) + done.len()
            + items.len() - i,
    decreases items, items.len() - i,
{
    if i >= items.len() {
        lemma_apply_reads(op, done, tape, pos);
    } else {
        lemma_eval_reads(items[i], env, tape, pos);
        let (o, p) = eval_at(items[i], env, tape, pos);
        if let Outcome::Value(v) = o {
            lemma_operands_reads(items, i + 1, done.push(v), op, env, tape, p);
        }
    }
}

/// Evaluation asks only so often: with more results than the bound of the
/// expression it does not ask again, so supplying one answer after another
/// comes to an end.
pub proof fn lemma_questions_are_bounded(form: Form, env: Map<Seq<char>, Form>, tape: Seq<u64>)
    ensures
        evaluate(form, env, tape) is Ask ==> tape.len() <= work(form),
{
    lemma_eval_reads(form, env, tape, 0);
    lemma_asks_at_the_end(form, env, tape);
}

/// Results that evaluation does not ask for change nothing: where it ends
/// without asking, it ends the same with further results appended.
pub proof fn lemma_further_results_are_ignored(
    form: Form,
    env: Map<Seq<char>, Form>,
    tape: Seq<u64>,
    more: Seq<u64>,
)
    requires
        !(evaluate(form, env, tape) is Ask),
    ensures
        evaluate(form, env, tape + more) == evaluate(form, env, tape),
{
    let all = tape + more;
    let k = tape.len() as int;
    assert(all.take(k) =~= tape);
    lemma_eval_cut(form, env, all, 0, k);
}

} // verus!
