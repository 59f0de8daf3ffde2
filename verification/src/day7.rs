//! Bridge calibration equations: a target value and operands that must be
//! combined left to right with addition, multiplication, and (in the second
//! part) digit concatenation.
use vstd::prelude::*;

use crate::text::{
    all_digits, ascii_bytes, dec_chars_u, dec_value, find_byte, find_index, lemma_dec_value_bound,
    lemma_find_index_is_first, lemma_find_index_props, lemma_pow10_mono, lemma_pow10_value, lines,
    lines_of, parse_u64, pow10, split_all, split_bytes, to_bytes, u128_to_string,
};

verus! {

pub struct Equation {
    pub result: i64,
    pub operands: Vec<i64>,
}

pub enum Operation {
    Add,
    Multiply,
}

/// The target value of a line: the digits before the colon.
pub open spec fn eq_result(l: Seq<u8>) -> int {
    dec_value(l.take(find_index(l, 58)))
}

/// The operand fields of a line: the space-separated digits after ": ".
pub open spec fn eq_operand_fields(l: Seq<u8>) -> Seq<Seq<u8>> {
    split_all(l.skip(find_index(l, 58) + 2), 32)
}

pub open spec fn eq_operands(l: Seq<u8>) -> Seq<i64> {
    eq_operand_fields(l).map_values(|f: Seq<u8>| dec_value(f) as i64)
}

pub open spec fn day7_line_ok(l: Seq<u8>) -> bool {
    let p = find_index(l, 58);
    &&& 1 <= p
    &&& p + 2 <= l.len()
    &&& all_digits(l.take(p))
    &&& p <= 18
    &&& forall|i: int|
        0 <= i < eq_operand_fields(l).len() ==> {
            let f = #[trigger] eq_operand_fields(l)[i];
            all_digits(f) && 1 <= f.len() <= 18 && dec_value(f) >= 1
        }
}

pub open spec fn day7_input_ok(s: Seq<u8>) -> bool {
    forall|i: int| 0 <= i < lines_of(s).len() ==> day7_line_ok(#[trigger] lines_of(s)[i])
}

/// Whether the first `n` operands can combine by `+` and `*` into `result`,
/// working backwards from the last operand.
pub open spec fn can_make(result: int, ops: Seq<i64>, n: int) -> bool
    decreases n,
{
    if n <= 0 {
        result == 0
    } else {
        let o = ops[n - 1] as int;
        o <= result && ((result % o == 0 && can_make(result / o, ops, n - 1)) || can_make(
            result - o,
            ops,
            n - 1,
        ))
    }
}

/// Like `can_make`, but a step may also strip the operand's digits off the
/// end of the target.
pub open spec fn can_make_concat(result: int, ops: Seq<i64>, n: int) -> bool
    decreases n,
{
    if n <= 0 {
        result == 0
    } else {
        let o = ops[n - 1] as int;
        let p = pow10(dec_digits(o));
        o <= result && ((result % o == 0 && can_make_concat(result / o, ops, n - 1)) || (result
            % p == o && can_make_concat(result / p, ops, n - 1)) || can_make_concat(
            result - o,
            ops,
            n - 1,
        ))
    }
}

/// The first `n` operands folded left to right under the chosen operators:
/// a true choice multiplies, a false one adds.
pub open spec fn fold_ops(ops: Seq<i64>, choices: Seq<bool>, n: int) -> int
    decreases n,
{
    if n <= 0 {
        0
    } else if n == 1 {
        ops[0] as int
    } else {
        let prev = fold_ops(ops, choices, n - 1);
        if choices[n - 2] {
            prev * (ops[n - 1] as int)
        } else {
            prev + (ops[n - 1] as int)
        }
    }
}

/// A fold over positive operands is positive.
pub proof fn lemma_fold_pos(ops: Seq<i64>, choices: Seq<bool>, n: int)
    requires
        ops_positive(ops),
        1 <= n <= ops.len(),
    ensures
        fold_ops(ops, choices, n) >= 1,
    decreases n,
{
    if n > 1 {
        lemma_fold_pos(ops, choices, n - 1);
        let prev = fold_ops(ops, choices, n - 1);
        let o = ops[n - 1] as int;
        if choices[n - 2] {
            assert(prev * o >= 1) by (nonlinear_arith)
                requires
                    prev >= 1,
                    o >= 1,
            ;
        }
    }
}

/// The fold reads only the first `n - 1` choices.
pub proof fn lemma_fold_prefix(ops: Seq<i64>, c1: Seq<bool>, c2: Seq<bool>, n: int)
    requires
        forall|i: int| 0 <= i < n - 1 ==> c1[i] == c2[i],
    ensures
        fold_ops(ops, c1, n) == fold_ops(ops, c2, n),
    decreases n,
{
    if n > 1 {
        lemma_fold_prefix(ops, c1, c2, n - 1);
    }
}

/// The backward divide-and-subtract search reaches `result` exactly when
/// some assignment of add and multiply operators, folded left to right over
/// the first `n` operands, evaluates to it.
pub proof fn lemma_can_make_iff(result: int, ops: Seq<i64>, n: int)
    requires
        ops_positive(ops),
        1 <= n <= ops.len(),
    ensures
        can_make(result, ops, n) <==> exists|choices: Seq<bool>|
            #[trigger] fold_ops(ops, choices, n) == result,
    decreases n,
{
    let o = ops[n - 1] as int;
    if n == 1 {
        if can_make(result, ops, 1) {
            assert(o >= 1);
            assert(o <= result);
            vstd::arithmetic::div_mod::lemma_fundamental_div_mod(result, o);
            if result % o == 0 && can_make(result / o, ops, 0) {
                assert(result / o == 0);
                assert(result == o * (result / o) + result % o);
                assert(o * (result / o) == 0) by (nonlinear_arith)
                    requires
                        result / o == 0,
                ;
                assert(false);
            }
            assert(can_make(result - o, ops, 0));
            assert(result == o);
            let w = Seq::<bool>::empty();
            assert(fold_ops(ops, w, 1) == result);
        }
        if exists|choices: Seq<bool>| #[trigger] fold_ops(ops, choices, 1) == result {
            assert(result == ops[0] as int);
            assert(can_make(0, ops, 0));
            assert(can_make(result, ops, 1));
        }
    } else {
        lemma_can_make_iff(result / o, ops, n - 1);
        lemma_can_make_iff(result - o, ops, n - 1);
        if can_make(result, ops, n) {
            if result % o == 0 && can_make(result / o, ops, n - 1) {
                let c = choose|choices: Seq<bool>|
                    #[trigger] fold_ops(ops, choices, n - 1) == result / o;
                let w = Seq::<bool>::new((n - 1) as nat, |i: int| if i == n - 2 {
                    true
                } else {
                    c[i]
                });
                lemma_fold_prefix(ops, c, w, n - 1);
                vstd::arithmetic::div_mod::lemma_fundamental_div_mod(result, o);
                assert((result / o) * o == result) by (nonlinear_arith)
                    requires
                        result == o * (result / o) + result % o,
                        result % o == 0,
                ;
                assert(fold_ops(ops, w, n) == result);
            } else {
                assert(can_make(result - o, ops, n - 1));
                let c = choose|choices: Seq<bool>|
                    #[trigger] fold_ops(ops, choices, n - 1) == result - o;
                let w = Seq::<bool>::new((n - 1) as nat, |i: int| if i == n - 2 {
                    false
                } else {
                    c[i]
                });
                lemma_fold_prefix(ops, c, w, n - 1);
                assert(fold_ops(ops, w, n) == result);
            }
        }
        if exists|choices: Seq<bool>| #[trigger] fold_ops(ops, choices, n) == result {
            let c = choose|choices: Seq<bool>| #[trigger] fold_ops(ops, choices, n) == result;
            let prev = fold_ops(ops, c, n - 1);
            lemma_fold_pos(ops, c, n - 1);
            if c[n - 2] {
                assert(result == prev * o);
                assert(o <= result && result == o * prev) by (nonlinear_arith)
                    requires
                        result == prev * o,
                        prev >= 1,
                        o >= 1,
                ;
                vstd::arithmetic::div_mod::lemma_fundamental_div_mod_converse(result, o, prev, 0);
                assert(result % o == 0 && result / o == prev);
                assert(fold_ops(ops, c, n - 1) == result / o);
                assert(can_make(result / o, ops, n - 1));
                assert(can_make(result, ops, n));
            } else {
                assert(result == prev + o);
                assert(fold_ops(ops, c, n - 1) == result - o);
                assert(can_make(result - o, ops, n - 1));
                assert(can_make(result, ops, n));
            }
        }
    }
}

/// A number is smaller than ten to its digit count.
pub proof fn lemma_below_pow10_digits(n: int)
    requires
        n >= 0,
    ensures
        n < pow10(dec_digits(n)),
        pow10(dec_digits(n)) >= 10,
    decreases n,
{
    if n < 10 {
        assert(pow10(1) == 10) by {
            reveal_with_fuel(pow10, 2);
        }
    } else {
        lemma_below_pow10_digits(n / 10);
        vstd::arithmetic::div_mod::lemma_fundamental_div_mod(n, 10);
        assert(pow10(dec_digits(n)) == 10 * pow10(dec_digits(n / 10)));
        assert(10 * (n / 10) + 9 < 10 * pow10(dec_digits(n / 10))) by (nonlinear_arith)
            requires
                n / 10 < pow10(dec_digits(n / 10)),
        ;
        assert(10 * pow10(dec_digits(n / 10)) >= 10) by (nonlinear_arith)
            requires
                pow10(dec_digits(n / 10)) >= 10,
        ;
    }
}

/// The first `n` operands folded left to right under the chosen operators:
/// zero multiplies, one concatenates the operand's digits, anything else
/// adds.
pub open spec fn fold_ops_concat(ops: Seq<i64>, choices: Seq<u8>, n: int) -> int
    decreases n,
{
    if n <= 0 {
        0
    } else if n == 1 {
        ops[0] as int
    } else {
        let prev = fold_ops_concat(ops, choices, n - 1);
        let o = ops[n - 1] as int;
        if choices[n - 2] == 0 {
            prev * o
        } else if choices[n - 2] == 1 {
            prev * pow10(dec_digits(o)) + o
        } else {
            prev + o
        }
    }
}

/// A concatenating fold over positive operands is positive.
pub proof fn lemma_fold_concat_pos(ops: Seq<i64>, choices: Seq<u8>, n: int)
    requires
        ops_positive(ops),
        1 <= n <= ops.len(),
    ensures
        fold_ops_concat(ops, choices, n) >= 1,
    decreases n,
{
    if n > 1 {
        lemma_fold_concat_pos(ops, choices, n - 1);
        let prev = fold_ops_concat(ops, choices, n - 1);
        let o = ops[n - 1] as int;
        lemma_below_pow10_digits(o);
        assert(prev * o >= 1 && prev * pow10(dec_digits(o)) + o >= 1) by (nonlinear_arith)
            requires
                prev >= 1,
                o >= 1,
                pow10(dec_digits(o)) >= 10,
        ;
    }
}

/// The concatenating fold reads only the first `n - 1` choices.
pub proof fn lemma_fold_concat_prefix(ops: Seq<i64>, c1: Seq<u8>, c2: Seq<u8>, n: int)
    requires
        forall|i: int| 0 <= i < n - 1 ==> c1[i] == c2[i],
    ensures
        fold_ops_concat(ops, c1, n) == fold_ops_concat(ops, c2, n),
    decreases n,
{
    if n > 1 {
        lemma_fold_concat_prefix(ops, c1, c2, n - 1);
    }
}

/// The backward search with digit stripping reaches `result` exactly when
/// some assignment of multiply, concatenate and add operators, folded left
/// to right over the first `n` operands, evaluates to it.
pub proof fn lemma_can_make_concat_iff(result: int, ops: Seq<i64>, n: int)
    requires
        ops_positive(ops),
        1 <= n <= ops.len(),
    ensures
        can_make_concat(result, ops, n) <==> exists|choices: Seq<u8>|
            #[trigger] fold_ops_concat(ops, choices, n) == result,
    decreases n,
{
    let o = ops[n - 1] as int;
    let p = pow10(dec_digits(o));
    lemma_below_pow10_digits(o);
    if n == 1 {
        if can_make_concat(result, ops, 1) {
            assert(o >= 1);
            assert(o <= result);
            vstd::arithmetic::div_mod::lemma_fundamental_div_mod(result, o);
            vstd::arithmetic::div_mod::lemma_fundamental_div_mod(result, p);
            if result % o == 0 && can_make_concat(result / o, ops, 0) {
                assert(result / o == 0);
                assert(o * (result / o) == 0) by (nonlinear_arith)
                    requires
                        result / o == 0,
                ;
                assert(false);
            }
            if result % p == o && can_make_concat(result / p, ops, 0) {
                assert(result / p == 0);
                assert(p * (result / p) == 0) by (nonlinear_arith)
                    requires
                        result / p == 0,
                ;
                assert(result == o);
            } else {
                assert(can_make_concat(result - o, ops, 0));
                assert(result == o);
            }
            let w = Seq::<u8>::empty();
            assert(fold_ops_concat(ops, w, 1) == result);
        }
        if exists|choices: Seq<u8>| #[trigger] fold_ops_concat(ops, choices, 1) == result {
            assert(result == ops[0] as int);
            assert(can_make_concat(0, ops, 0));
            assert(can_make_concat(result, ops, 1));
        }
    } else {
        lemma_can_make_concat_iff(result / o, ops, n - 1);
        lemma_can_make_concat_iff(result / p, ops, n - 1);
        lemma_can_make_concat_iff(result - o, ops, n - 1);
        if can_make_concat(result, ops, n) {
            if result % o == 0 && can_make_concat(result / o, ops, n - 1) {
                let c = choose|choices: Seq<u8>|
                    #[trigger] fold_ops_concat(ops, choices, n - 1) == result / o;
                let w = Seq::<u8>::new((n - 1) as nat, |i: int| if i == n - 2 {
                    0u8
                } else {
                    c[i]
                });
                lemma_fold_concat_prefix(ops, c, w, n - 1);
                vstd::arithmetic::div_mod::lemma_fundamental_div_mod(result, o);
                assert((result / o) * o == result) by (nonlinear_arith)
                    requires
                        result == o * (result / o) + result % o,
                        result % o == 0,
                ;
                assert(fold_ops_concat(ops, w, n) == result);
            } else if result % p == o && can_make_concat(result / p, ops, n - 1) {
                let c = choose|choices: Seq<u8>|
                    #[trigger] fold_ops_concat(ops, choices, n - 1) == result / p;
                let w = Seq::<u8>::new((n - 1) as nat, |i: int| if i == n - 2 {
                    1u8
                } else {
                    c[i]
                });
                lemma_fold_concat_prefix(ops, c, w, n - 1);
                vstd::arithmetic::div_mod::lemma_fundamental_div_mod(result, p);
                assert((result / p) * p + o == result) by (nonlinear_arith)
                    requires
                        result == p * (result / p) + result % p,
                        result % p == o,
                ;
                assert(fold_ops_concat(ops, w, n) == result);
            } else {
                assert(can_make_concat(result - o, ops, n - 1));
                let c = choose|choices: Seq<u8>|
                    #[trigger] fold_ops_concat(ops, choices, n - 1) == result - o;
                let w = Seq::<u8>::new((n - 1) as nat, |i: int| if i == n - 2 {
                    2u8
                } else {
                    c[i]
                });
                lemma_fold_concat_prefix(ops, c, w, n - 1);
                assert(fold_ops_concat(ops, w, n) == result);
            }
        }
        if exists|choices: Seq<u8>| #[trigger] fold_ops_concat(ops, choices, n) == result {
            let c = choose|choices: Seq<u8>| #[trigger] fold_ops_concat(ops, choices, n) == result;
            let prev = fold_ops_concat(ops, c, n - 1);
            lemma_fold_concat_pos(ops, c, n - 1);
            if c[n - 2] == 0 {
                assert(result == prev * o);
                assert(o <= result && result == o * prev) by (nonlinear_arith)
                    requires
                        result == prev * o,
                        prev >= 1,
                        o >= 1,
                ;
                vstd::arithmetic::div_mod::lemma_fundamental_div_mod_converse(result, o, prev, 0);
                assert(can_make_concat(result / o, ops, n - 1));
                assert(can_make_concat(result, ops, n));
            } else if c[n - 2] == 1 {
                assert(result == prev * p + o);
                assert(o <= result && result == p * prev + o) by (nonlinear_arith)
                    requires
                        result == prev * p + o,
                        prev >= 1,
                        p >= 10,
                        o >= 1,
                ;
                vstd::arithmetic::div_mod::lemma_fundamental_div_mod_converse(result, p, prev, o);
                assert(result % p == o && result / p == prev);
                assert(can_make_concat(result / p, ops, n - 1));
                assert(can_make_concat(result, ops, n));
            } else {
                assert(result == prev + o);
                assert(can_make_concat(result - o, ops, n - 1));
                assert(can_make_concat(result, ops, n));
            }
        }
    }
}

/// How many decimal digits `n` has.
pub open spec fn dec_digits(n: int) -> nat
    decreases n,
{
    if n < 10 {
        1
    } else {
        1 + dec_digits(n / 10)
    }
}

pub open spec fn ops_positive(ops: Seq<i64>) -> bool {
    forall|i: int| 0 <= i < ops.len() ==> #[trigger] ops[i] >= 1
}

/// Searches for a way to reach `result` from the first `position` operands.
pub fn get_first_valid_equation(result: i64, operands: &Vec<i64>, position: usize) -> (r: Option<
    Vec<Operation>,
>)
    requires
        position <= operands@.len(),
        ops_positive(operands@),
        result >= 0,
    ensures
        r.is_some() == can_make(result as int, operands@, position as int),
    decreases position,
{
    if position == 0 {
        return if result == 0 {
            Some(Vec::new())
        } else {
            None
        };
    }
    let operand = operands[position - 1];
    if operand > result {
        return None;
    }
    if result % operand == 0 {
        let equation_assuming_multiplication = get_first_valid_equation(
            result / operand,
            operands,
            position - 1,
        );
        if equation_assuming_multiplication.is_some() {
            return equation_assuming_multiplication;
        }
    }
    get_first_valid_equation(result - operand, operands, position - 1)
}

/// The power of ten that shifts past `n`'s digits.
fn pow10_digits(n: i64) -> (r: i64)
    requires
        n >= 1,
    ensures
        r == pow10(dec_digits(n as int)) || dec_digits(n as int) > 18,
        r >= 10,
    decreases n,
{
    proof {
        lemma_pow10_mono(1, dec_digits(n as int));
    }
    if n < 10 {
        proof {
            reveal_with_fuel(pow10, 3);
        }
        10
    } else {
        let rest = pow10_digits(n / 10);
        proof {
            assert(dec_digits(n as int) == 1 + dec_digits(n as int / 10));
        }
        if rest > 922337203685477580 {
            proof {
                lemma_dec_digits_pos(n as int / 10);
                if dec_digits(n as int / 10) <= 17 {
                    lemma_pow10_mono(dec_digits(n as int / 10), 17);
                    assert(pow10(17) == 100000000000000000) by {
                        reveal_with_fuel(pow10, 19);
                    }
                }
            }
            1000000000000000000
        } else {
            proof {
                if dec_digits(n as int / 10) <= 18 {
                    assert(pow10(dec_digits(n as int)) == 10 * pow10(
                        (dec_digits(n as int) - 1) as nat,
                    ));
                    assert((dec_digits(n as int) - 1) as nat == dec_digits(n as int / 10));
                }
            }
            rest * 10
        }
    }
}

proof fn lemma_dec_digits_pos(n: int)
    ensures
        dec_digits(n) >= 1,
    decreases n,
{
}

/// Searches with concatenation allowed as a third operation.
pub fn get_first_valid_equation_with_concatenation(
    result: i64,
    operands: &Vec<i64>,
    position: usize,
) -> (r: Option<Vec<Operation>>)
    requires
        position <= operands@.len(),
        ops_positive(operands@),
        result >= 0,
        forall|i: int| 0 <= i < operands@.len() ==> dec_digits(#[trigger] operands@[i] as int) <= 18,
    ensures
        r.is_some() == can_make_concat(result as int, operands@, position as int),
    decreases position,
{
    if position == 0 {
        return if result == 0 {
            Some(Vec::new())
        } else {
            None
        };
    }
    let operand = operands[position - 1];
    if operand > result {
        return None;
    }
    if result % operand == 0 {
        let equation_assuming_multiplication = get_first_valid_equation_with_concatenation(
            result / operand,
            operands,
            position - 1,
        );
        if equation_assuming_multiplication.is_some() {
            return equation_assuming_multiplication;
        }
    }
    let power_of_ten = pow10_digits(operand);
    if result % power_of_ten == operand {
        let equation_assuming_concatenation = get_first_valid_equation_with_concatenation(
            result / power_of_ten,
            operands,
            position - 1,
        );
        if equation_assuming_concatenation.is_some() {
            return equation_assuming_concatenation;
        }
    }
    get_first_valid_equation_with_concatenation(result - operand, operands, position - 1)
}

/// The targets of the satisfiable equations, in order.
pub open spec fn valid_results(eqs: Seq<(int, Seq<i64>)>, n: int) -> Seq<int>
    decreases n,
{
    if n <= 0 {
        Seq::<int>::empty()
    } else {
        let p = valid_results(eqs, n - 1);
        if can_make(eqs[n - 1].0, eqs[n - 1].1, eqs[n - 1].1.len() as int) {
            p.push(eqs[n - 1].0)
        } else {
            p
        }
    }
}

pub open spec fn valid_results_concat(eqs: Seq<(int, Seq<i64>)>, n: int) -> Seq<int>
    decreases n,
{
    if n <= 0 {
        Seq::<int>::empty()
    } else {
        let p = valid_results_concat(eqs, n - 1);
        if can_make_concat(eqs[n - 1].0, eqs[n - 1].1, eqs[n - 1].1.len() as int) {
            p.push(eqs[n - 1].0)
        } else {
            p
        }
    }
}

pub open spec fn eq_view(eqs: Seq<Equation>) -> Seq<(int, Seq<i64>)> {
    Seq::new(eqs.len(), |i: int| (eqs[i].result as int, eqs[i].operands@))
}

pub open spec fn eqs_wf(eqs: Seq<Equation>) -> bool {
    forall|i: int|
        0 <= i < eqs.len() ==> (#[trigger] eqs[i]).result >= 0 && ops_positive(eqs[i].operands@)
            && forall|j: int|
            0 <= j < eqs[i].operands@.len() ==> dec_digits(#[trigger] eqs[i].operands@[j] as int)
                <= 18
}

/// Parses the equations, one per line.
pub fn get_equations(input: &String) -> (r: Vec<Equation>)
    requires
        input.is_ascii(),
        day7_input_ok(ascii_bytes(input@)),
    ensures
        r@.len() == lines_of(ascii_bytes(input@)).len(),
        forall|i: int|
            0 <= i < r@.len() ==> (#[trigger] r@[i]).result == eq_result(
                lines_of(ascii_bytes(input@))[i],
            ) && r@[i].operands@.map_values(|o: i64| o as int) == eq_operands(
                lines_of(ascii_bytes(input@))[i],
            ).map_values(|o: i64| o as int),
        eqs_wf(r@),
{
    let bytes = to_bytes(input.as_str());
    let ls = lines(&bytes);
    let ghost lsv = lines_of(bytes@);
    let mut r: Vec<Equation> = Vec::new();
    let mut i: usize = 0;
    while i < ls.len()
        invariant
            i <= ls@.len() == lsv.len(),
            forall|j: int| 0 <= j < ls@.len() ==> (#[trigger] ls@[j])@ == lsv[j],
            forall|j: int| 0 <= j < lsv.len() ==> day7_line_ok(#[trigger] lsv[j]),
            r@.len() == i,
            forall|j: int|
                0 <= j < i ==> (#[trigger] r@[j]).result == eq_result(lsv[j]) && r@[j].operands@
                    .map_values(|o: i64| o as int) == eq_operands(lsv[j]).map_values(
                    |o: i64| o as int,
                ),
            eqs_wf(r@),
        decreases ls@.len() - i,
    {
        let line = &ls[i];
        assert(day7_line_ok(line@));
        let colon = match find_byte(line, 0, 58) {
            Some(p) => p,
            None => {
                proof {
                    lemma_find_index_props(line@, 58);
                }
                unreached()
            },
        };
        proof {
            lemma_find_index_is_first(line@, 58, colon as int);
            assert(line@.subrange(0, colon as int) =~= line@.take(colon as int));
            lemma_dec_value_bound(line@.take(colon as int));
            lemma_pow10_mono(line@.take(colon as int).len(), 18);
            lemma_pow10_value();
        }
        let result = parse_u64(line, 0, colon) as i64;
        let mut tail: Vec<u8> = Vec::new();
        let mut j: usize = colon + 2;
        proof {
            assert(tail@ =~= line@.skip(colon + 2).take(0));
        }
        while j < line.len()
            invariant
                colon + 2 <= j <= line@.len(),
                tail@ == line@.skip(colon + 2).take(j - colon - 2),
            decreases line@.len() - j,
        {
            tail.push(line[j]);
            proof {
                assert(line@.skip(colon + 2).take(j + 1 - colon - 2) =~= line@.skip(
                    colon + 2,
                ).take(j - colon - 2).push(line@[j as int]));
            }
            j += 1;
        }
        proof {
            assert(tail@ =~= line@.skip(colon + 2));
        }
        let fields = split_bytes(&tail, 32);
        let ghost gfields = eq_operand_fields(line@);
        let mut operands: Vec<i64> = Vec::new();
        let mut k: usize = 0;
        while k < fields.len()
            invariant
                k <= fields@.len() == gfields.len(),
                forall|m: int| 0 <= m < gfields.len() ==> (#[trigger] fields@[m])@ == gfields[m],
                forall|m: int|
                    0 <= m < gfields.len() ==> all_digits(#[trigger] gfields[m]) && 1 <= gfields[m].len()
                        <= 18 && dec_value(gfields[m]) >= 1,
                operands@.len() == k,
                forall|m: int|
                    0 <= m < k ==> #[trigger] operands@[m] == dec_value(gfields[m]) as i64,
                forall|m: int| 0 <= m < k ==> #[trigger] operands@[m] >= 1,
                forall|m: int|
                    0 <= m < k ==> dec_digits(#[trigger] operands@[m] as int) <= 18,
            decreases fields@.len() - k,
        {
            let f = &fields[k];
            proof {
                assert(f@.subrange(0, f@.len() as int) =~= f@);
                lemma_dec_value_bound(f@);
                lemma_pow10_mono(f@.len(), 18);
                lemma_pow10_value();
            }
            let v = parse_u64(f, 0, f.len()) as i64;
            proof {
                lemma_dec_digits_le(v as int, f@.len() as int);
            }
            operands.push(v);
            k += 1;
        }
        proof {
            assert(operands@.map_values(|o: i64| o as int) =~= eq_operands(line@).map_values(
                |o: i64| o as int,
            ));
        }
        r.push(Equation { result, operands });
        i += 1;
    }
    r
}

/// A value below `pow10(d)` has at most `d` digits.
proof fn lemma_dec_digits_le(n: int, d: int)
    requires
        0 <= n < pow10(d as nat),
        d >= 1,
    ensures
        dec_digits(n) <= d,
    decreases d,
{
    if d > 1 {
        if n >= 10 {
            lemma_dec_digits_le(n / 10, d - 1);
        }
    } else {
        assert(pow10(1) == 10) by {
            reveal_with_fuel(pow10, 3);
        }
    }
}

/// The targets reachable with `+` and `*`.
pub fn get_valid_results(equations: Vec<Equation>) -> (r: Vec<i64>)
    requires
        eqs_wf(equations@),
    ensures
        r@.map_values(|x: i64| x as int) == valid_results(
            eq_view(equations@),
            equations@.len() as int,
        ),
{
    let mut r: Vec<i64> = Vec::new();
    let mut i: usize = 0;
    proof {
        assert(r@.map_values(|x: i64| x as int) =~= valid_results(eq_view(equations@), 0));
    }
    while i < equations.len()
        invariant
            i <= equations@.len(),
            eqs_wf(equations@),
            r@.map_values(|x: i64| x as int) == valid_results(eq_view(equations@), i as int),
        decreases equations@.len() - i,
    {
        let e = &equations[i];
        let found = get_first_valid_equation(e.result, &e.operands, e.operands.len());
        if found.is_some() {
            r.push(e.result);
            proof {
                assert(r@.map_values(|x: i64| x as int) =~= valid_results(
                    eq_view(equations@),
                    i + 1,
                ));
            }
        } else {
            proof {
                assert(r@.map_values(|x: i64| x as int) =~= valid_results(
                    eq_view(equations@),
                    i + 1,
                ));
            }
        }
        i += 1;
    }
    r
}

/// The targets reachable once concatenation is allowed too.
pub fn get_valid_results_with_concatenation(equations: Vec<Equation>) -> (r: Vec<i64>)
    requires
        eqs_wf(equations@),
    ensures
        r@.map_values(|x: i64| x as int) == valid_results_concat(
            eq_view(equations@),
            equations@.len() as int,
        ),
{
    let mut r: Vec<i64> = Vec::new();
    let mut i: usize = 0;
    proof {
        assert(r@.map_values(|x: i64| x as int) =~= valid_results_concat(eq_view(equations@), 0));
    }
    while i < equations.len()
        invariant
            i <= equations@.len(),
            eqs_wf(equations@),
            r@.map_values(|x: i64| x as int) == valid_results_concat(
                eq_view(equations@),
                i as int,
            ),
        decreases equations@.len() - i,
    {
        let e = &equations[i];
        let found = get_first_valid_equation_with_concatenation(
            e.result,
            &e.operands,
            e.operands.len(),
        );
        if found.is_some() {
            r.push(e.result);
            proof {
                assert(r@.map_values(|x: i64| x as int) =~= valid_results_concat(
                    eq_view(equations@),
                    i + 1,
                ));
            }
        } else {
            proof {
                assert(r@.map_values(|x: i64| x as int) =~= valid_results_concat(
                    eq_view(equations@),
                    i + 1,
                ));
            }
        }
        i += 1;
    }
    r
}

pub open spec fn sum_of(s: Seq<int>) -> int
    decreases s.len(),
{
    if s.len() == 0 {
        0
    } else {
        sum_of(s.drop_last()) + s.last()
    }
}

fn sum_valid(values: &Vec<i64>) -> (r: u128)
    requires
        forall|i: int| 0 <= i < values@.len() ==> #[trigger] values@[i] >= 0,
        values@.len() <= 100000001,
    ensures
        r == sum_of(values@.map_values(|x: i64| x as int)),
{
    let ghost gv = values@.map_values(|x: i64| x as int);
    let mut total: u128 = 0;
    let mut i: usize = 0;
    proof {
        assert(gv.take(0) =~= Seq::<int>::empty());
        assert(total == sum_of(gv.take(0)));
    }
    while i < values.len()
        invariant
            i <= values@.len() <= 100000001,
            gv == values@.map_values(|x: i64| x as int),
            forall|j: int| 0 <= j < values@.len() ==> #[trigger] values@[j] >= 0,
            total == sum_of(gv.take(i as int)),
            total <= i * 9223372036854775807,
        decreases values@.len() - i,
    {
        proof {
            assert(gv.take(i + 1).drop_last() =~= gv.take(i as int));
            assert((i + 1) * 9223372036854775807 == i * 9223372036854775807
                + 9223372036854775807) by (nonlinear_arith);
            assert((i + 1) * 9223372036854775807 <= 100000001int * 9223372036854775807)
                by (nonlinear_arith)
                requires
                    0 <= i < 100000001,
            ;
        }
        total = total + values[i] as u128;
        i += 1;
    }
    proof {
        assert(gv.take(gv.len() as int) =~= gv);
    }
    total
}

/// The sum of the targets reachable with `+` and `*`.
pub fn part1(input: &String) -> (r: String)
    requires
        input.is_ascii(),
        input@.len() <= 100000000,
        day7_input_ok(ascii_bytes(input@)),
    ensures
        r@ == dec_chars_u(
            sum_of(
                valid_results(
                    eq_view_of_input(ascii_bytes(input@)),
                    lines_of(ascii_bytes(input@)).len() as int,
                ),
            ),
        ),
{
    let equations = get_equations(input);
    proof {
        lemma_eq_view_step(
            equations@,
            ascii_bytes(input@),
            lines_of(ascii_bytes(input@)).len() as int,
        );
        crate::text::lemma_lines_count(ascii_bytes(input@));
    }
    let valid = get_valid_results(equations);
    proof {
        assert(forall|i: int| 0 <= i < valid@.len() ==> #[trigger] valid@[i] >= 0) by {
            assert(forall|i: int|
                0 <= i < valid@.len() ==> valid@.map_values(|x: i64| x as int)[i] == (
                #[trigger] valid@[i]) as int);
            lemma_input_ops_positive(ascii_bytes(input@));
            lemma_valid_results_nonneg(
                eq_view_of_input(ascii_bytes(input@)),
                lines_of(ascii_bytes(input@)).len() as int,
            );
        }
        lemma_valid_len(
            eq_view_of_input(ascii_bytes(input@)),
            lines_of(ascii_bytes(input@)).len() as int,
        );
    }
    let total = sum_valid(&valid);
    u128_to_string(total)
}

/// The sum of the targets reachable once concatenation is allowed.
pub fn part2(input: &String) -> (r: String)
    requires
        input.is_ascii(),
        input@.len() <= 100000000,
        day7_input_ok(ascii_bytes(input@)),
    ensures
        r@ == dec_chars_u(
            sum_of(
                valid_results_concat(
                    eq_view_of_input(ascii_bytes(input@)),
                    lines_of(ascii_bytes(input@)).len() as int,
                ),
            ),
        ),
{
    let equations = get_equations(input);
    proof {
        lemma_eq_view_step(
            equations@,
            ascii_bytes(input@),
            lines_of(ascii_bytes(input@)).len() as int,
        );
        crate::text::lemma_lines_count(ascii_bytes(input@));
    }
    let valid = get_valid_results_with_concatenation(equations);
    proof {
        assert(forall|i: int| 0 <= i < valid@.len() ==> #[trigger] valid@[i] >= 0) by {
            assert(forall|i: int|
                0 <= i < valid@.len() ==> valid@.map_values(|x: i64| x as int)[i] == (
                #[trigger] valid@[i]) as int);
            lemma_input_ops_positive(ascii_bytes(input@));
            lemma_valid_concat_nonneg(
                eq_view_of_input(ascii_bytes(input@)),
                lines_of(ascii_bytes(input@)).len() as int,
            );
        }
        lemma_valid_concat_len(
            eq_view_of_input(ascii_bytes(input@)),
            lines_of(ascii_bytes(input@)).len() as int,
        );
    }
    let total = sum_valid(&valid);
    u128_to_string(total)
}

/// The equations as parsed from the input text.
pub open spec fn eq_view_of_input(s: Seq<u8>) -> Seq<(int, Seq<i64>)> {
    Seq::new(
        lines_of(s).len(),
        |i: int|
            (
                eq_result(lines_of(s)[i]),
                eq_operands(lines_of(s)[i]),
            ),
    )
}

proof fn lemma_eq_view_step(eqs: Seq<Equation>, s: Seq<u8>, n: int)
    requires
        eqs.len() == lines_of(s).len(),
        forall|i: int|
            0 <= i < eqs.len() ==> (#[trigger] eqs[i]).result == eq_result(lines_of(s)[i])
                && eqs[i].operands@.map_values(|o: i64| o as int) == eq_operands(
                lines_of(s)[i],
            ).map_values(|o: i64| o as int),
        n <= eqs.len(),
    ensures
        valid_results(eq_view(eqs), n) == valid_results(eq_view_of_input(s), n),
        valid_results_concat(eq_view(eqs), n) == valid_results_concat(eq_view_of_input(s), n),
    decreases n,
{
    if n > 0 {
        lemma_eq_view_step(eqs, s, n - 1);
        lemma_ops_eq(eqs[n - 1].operands@, eq_operands(lines_of(s)[n - 1]));
        assert(eq_view(eqs)[n - 1].0 == eq_view_of_input(s)[n - 1].0);
        assert(eq_view(eqs)[n - 1].1 == eq_view_of_input(s)[n - 1].1);
    }
}

proof fn lemma_ops_eq(a: Seq<i64>, b: Seq<i64>)
    requires
        a.map_values(|o: i64| o as int) == b.map_values(|o: i64| o as int),
    ensures
        a == b,
{
    assert(a.map_values(|o: i64| o as int).len() == a.len());
    assert(b.map_values(|o: i64| o as int).len() == b.len());
    assert(a.len() == b.len());
    assert forall|i: int| 0 <= i < a.len() implies a[i] == b[i] by {
        assert(a.map_values(|o: i64| o as int)[i] == a[i] as int);
        assert(b.map_values(|o: i64| o as int)[i] == b[i] as int);
    }
    assert(a =~= b);
}

/// Every operand parsed from a valid input is positive.
pub proof fn lemma_input_ops_positive(s: Seq<u8>)
    requires
        day7_input_ok(s),
    ensures
        forall|i: int|
            0 <= i < eq_view_of_input(s).len() ==> ops_positive(
                (#[trigger] eq_view_of_input(s)[i]).1,
            ),
{
    assert forall|i: int|
        0 <= i < eq_view_of_input(s).len() implies ops_positive(
        (#[trigger] eq_view_of_input(s)[i]).1,
    ) by {
        let l = lines_of(s)[i];
        assert(day7_line_ok(l));
        assert forall|j: int| 0 <= j < eq_operands(l).len() implies #[trigger] eq_operands(l)[j]
            >= 1 by {
            let f = eq_operand_fields(l)[j];
            lemma_dec_value_bound(f);
            lemma_pow10_mono(f.len(), 18);
            lemma_pow10_value();
            assert(eq_operands(l)[j] == dec_value(f) as i64);
        }
    }
}

proof fn lemma_valid_results_nonneg(eqs: Seq<(int, Seq<i64>)>, n: int)
    requires
        forall|i: int| 0 <= i < eqs.len() ==> ops_positive((#[trigger] eqs[i]).1),
        n <= eqs.len(),
    ensures
        forall|i: int|
            0 <= i < valid_results(eqs, n).len() ==> #[trigger] valid_results(eqs, n)[i] >= 0,
    decreases n,
{
    if n > 0 {
        lemma_valid_results_nonneg(eqs, n - 1);
        let p = valid_results(eqs, n - 1);
        if can_make(eqs[n - 1].0, eqs[n - 1].1, eqs[n - 1].1.len() as int) {
            lemma_can_make_nonneg(eqs[n - 1].0, eqs[n - 1].1, eqs[n - 1].1.len() as int);
        }
        assert forall|i: int|
            0 <= i < valid_results(eqs, n).len() implies #[trigger] valid_results(eqs, n)[i]
            >= 0 by {
            if i < p.len() {
                assert(valid_results(eqs, n)[i] == p[i]);
            }
        }
    }
}

proof fn lemma_valid_concat_nonneg(eqs: Seq<(int, Seq<i64>)>, n: int)
    requires
        forall|i: int| 0 <= i < eqs.len() ==> ops_positive((#[trigger] eqs[i]).1),
        n <= eqs.len(),
    ensures
        forall|i: int|
            0 <= i < valid_results_concat(eqs, n).len() ==> #[trigger] valid_results_concat(
                eqs,
                n,
            )[i] >= 0,
    decreases n,
{
    if n > 0 {
        lemma_valid_concat_nonneg(eqs, n - 1);
        let p = valid_results_concat(eqs, n - 1);
        if can_make_concat(eqs[n - 1].0, eqs[n - 1].1, eqs[n - 1].1.len() as int) {
            lemma_can_make_concat_nonneg(eqs[n - 1].0, eqs[n - 1].1, eqs[n - 1].1.len() as int);
        }
        assert forall|i: int|
            0 <= i < valid_results_concat(eqs, n).len() implies #[trigger] valid_results_concat(
            eqs,
            n,
        )[i] >= 0 by {
            if i < p.len() {
                assert(valid_results_concat(eqs, n)[i] == p[i]);
            }
        }
    }
}

proof fn lemma_can_make_nonneg(result: int, ops: Seq<i64>, n: int)
    requires
        can_make(result, ops, n),
        ops_positive(ops),
        n <= ops.len(),
    ensures
        result >= 0,
    decreases n,
{
    if n > 0 {
        assert(ops[n - 1] <= result);
    }
}

proof fn lemma_can_make_concat_nonneg(result: int, ops: Seq<i64>, n: int)
    requires
        can_make_concat(result, ops, n),
        ops_positive(ops),
        n <= ops.len(),
    ensures
        result >= 0,
    decreases n,
{
    if n > 0 {
        assert(ops[n - 1] <= result);
    }
}

proof fn lemma_valid_len(eqs: Seq<(int, Seq<i64>)>, n: int)
    requires
        n >= 0,
    ensures
        valid_results(eqs, n).len() <= n,
    decreases n,
{
    if n > 0 {
        lemma_valid_len(eqs, n - 1);
    }
}

proof fn lemma_valid_concat_len(eqs: Seq<(int, Seq<i64>)>, n: int)
    requires
        n >= 0,
    ensures
        valid_results_concat(eqs, n).len() <= n,
    decreases n,
{
    if n > 0 {
        lemma_valid_concat_len(eqs, n - 1);
    }
}

} // verus!