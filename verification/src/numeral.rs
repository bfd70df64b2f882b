//! Positional numeral conversion between a non-negative integer and a string
//! of alphabet characters, with the round-trip proof.

use vstd::prelude::*;

use crate::chars::{find_char_from, lemma_first_occurrence};

verus! {

/// The value a character stands for: the position of its first occurrence in
/// the digit alphabet (zero when it does not occur at all).
pub open spec fn digit_index(alpha: Seq<char>, c: char) -> int {
    match alpha.index_of_first(c) {
        Some(i) => i,
        None => 0,
    }
}

/// The canonical digit string of `num` over the digit alphabet: most
/// significant digit first, no leading padding, a single digit for zero.
pub open spec fn to_id_seq(num: int, alpha: Seq<char>) -> Seq<char>
    recommends
        num >= 0,
        alpha.len() >= 2,
    decreases num,
    via to_id_seq_decreases
{
    if num < 0 || alpha.len() < 2 {
        Seq::empty()
    } else if num < alpha.len() {
        seq![alpha[num]]
    } else {
        to_id_seq(num / alpha.len() as int, alpha).push(alpha[num % alpha.len() as int])
    }
}

#[via_fn]
proof fn to_id_seq_decreases(num: int, alpha: Seq<char>) {
    if !(num < 0 || alpha.len() < 2) && num >= alpha.len() {
        vstd::arithmetic::div_mod::lemma_div_decreases(num, alpha.len() as int);
    }
}

/// Dividing a non-negative number by the base at least two strictly shrinks
/// it, so the digit recursion unfolds one digit at a time.
pub proof fn lemma_div_shrinks(num: int, b: int)
    requires
        num >= 0,
        b >= 2,
    ensures
        num >= b ==> 0 < num / b < num,
        num < b ==> num / b == 0 && num % b == num,
{
    if num >= b {
        vstd::arithmetic::div_mod::lemma_div_decreases(num, b);
        vstd::arithmetic::div_mod::lemma_div_pos_is_pos(num, b);
        vstd::arithmetic::div_mod::lemma_div_non_zero(num, b);
    } else {
        vstd::arithmetic::div_mod::lemma_basic_div(num, b);
        vstd::arithmetic::div_mod::lemma_small_mod(num as nat, b as nat);
    }
}

/// The value of a digit string: a left-to-right fold multiplying by the base
/// and adding each digit's index.
pub open spec fn to_number_seq(s: Seq<char>, alpha: Seq<char>) -> int
    decreases s.len(),
{
    if s.len() == 0 {
        0
    } else {
        to_number_seq(s.drop_last(), alpha) * alpha.len() + digit_index(alpha, s.last())
    }
}

/// A digit index is a position in the alphabet, so it lies below the base.
pub proof fn lemma_digit_index_range(alpha: Seq<char>, c: char)
    ensures
        0 <= digit_index(alpha, c),
        alpha.len() > 0 ==> digit_index(alpha, c) < alpha.len(),
        alpha.contains(c) ==> alpha[digit_index(alpha, c)] == c,
{
    alpha.index_of_first_ensures(c);
}

/// In a duplicate-free alphabet the digit standing at position `i` has
/// exactly the value `i`.
pub proof fn lemma_digit_index_of_position(alpha: Seq<char>, i: int)
    requires
        alpha.no_duplicates(),
        0 <= i < alpha.len(),
    ensures
        digit_index(alpha, alpha[i]) == i,
{
    alpha.index_of_first_ensures(alpha[i]);
    assert(alpha.contains(alpha[i]));
    let k = alpha.index_of_first(alpha[i]).unwrap();
    if k != i {
        assert(alpha[k] == alpha[i]);
        assert(false);
    }
}

/// A digit string is never empty and uses only alphabet characters.
pub proof fn lemma_to_id_chars(num: int, alpha: Seq<char>)
    requires
        num >= 0,
        alpha.len() >= 2,
    ensures
        to_id_seq(num, alpha).len() >= 1,
        forall|k: int|
            0 <= k < to_id_seq(num, alpha).len() ==> alpha.contains(#[trigger] to_id_seq(
                num,
                alpha,
            )[k]),
    decreases num,
{
    let b = alpha.len() as int;
    if num < b {
        assert(alpha.contains(alpha[num]));
    } else {
        lemma_div_shrinks(num, b);
        lemma_to_id_chars(num / b, alpha);
        let rec = to_id_seq(num / b, alpha);
        let whole = to_id_seq(num, alpha);
        assert(whole == rec.push(alpha[num % b]));
        assert(alpha.contains(alpha[num % b]));
        assert forall|k: int| 0 <= k < whole.len() implies alpha.contains(#[trigger] whole[k]) by {
            if k < rec.len() {
                assert(whole[k] == rec[k]);
            } else {
                assert(whole[k] == alpha[num % b]);
            }
        }
    }
}

/// Converting a number to digits and folding the digits back yields the
/// same number: the numeral system is bijective on canonical strings.
pub proof fn lemma_to_id_round_trip(num: int, alpha: Seq<char>)
    requires
        num >= 0,
        alpha.len() >= 2,
        alpha.no_duplicates(),
    ensures
        to_number_seq(to_id_seq(num, alpha), alpha) == num,
    decreases num,
{
    let b = alpha.len() as int;
    if num < b {
        let s = to_id_seq(num, alpha);
        assert(s == seq![alpha[num]]);
        assert(s.drop_last() =~= Seq::<char>::empty());
        assert(s.last() == alpha[num]);
        lemma_digit_index_of_position(alpha, num);
        assert(to_number_seq(s, alpha) == to_number_seq(s.drop_last(), alpha) * b + digit_index(
            alpha,
            s.last(),
        ));
        assert(to_number_seq(s.drop_last(), alpha) == 0);
        assert(to_number_seq(s, alpha) == num);
    } else {
        lemma_div_shrinks(num, b);
        lemma_to_id_round_trip(num / b, alpha);
        let rec = to_id_seq(num / b, alpha);
        let s = to_id_seq(num, alpha);
        assert(s == rec.push(alpha[num % b]));
        assert(s.drop_last() =~= rec);
        assert(s.last() == alpha[num % b]);
        lemma_digit_index_of_position(alpha, num % b);
        assert(to_number_seq(s, alpha) == (num / b) * b + num % b);
        vstd::arithmetic::div_mod::lemma_fundamental_div_mod(num, b);
    }
}

/// Digit-string values are never negative.
pub proof fn lemma_to_number_nonneg(s: Seq<char>, alpha: Seq<char>)
    ensures
        to_number_seq(s, alpha) >= 0,
    decreases s.len(),
{
    if s.len() > 0 {
        lemma_to_number_nonneg(s.drop_last(), alpha);
        lemma_digit_index_range(alpha, s.last());
        let rest = to_number_seq(s.drop_last(), alpha);
        assert(rest * alpha.len() >= 0) by (nonlinear_arith)
            requires
                rest >= 0,
                alpha.len() >= 0,
        ;
    }
}

/// Extending a digit string never lowers its value, so a prefix whose value
/// is already too large proves the whole string too large.
pub proof fn lemma_to_number_prefix_le(s: Seq<char>, alpha: Seq<char>, i: int)
    requires
        0 <= i <= s.len(),
        alpha.len() >= 2,
    ensures
        to_number_seq(s.take(i), alpha) <= to_number_seq(s, alpha),
    decreases s.len(),
{
    if i == s.len() {
        assert(s.take(i) =~= s);
    } else {
        lemma_to_number_prefix_le(s.drop_last(), alpha, i);
        assert(s.drop_last().take(i) =~= s.take(i));
        let rest = to_number_seq(s.drop_last(), alpha);
        lemma_to_number_nonneg(s.drop_last(), alpha);
        lemma_digit_index_range(alpha, s.last());
        assert(rest * alpha.len() >= rest) by (nonlinear_arith)
            requires
                rest >= 0,
                alpha.len() >= 1,
        ;
    }
}

/// Renders `num` over the digit alphabet, most significant digit first.
pub fn to_id(num: u64, alpha: &Vec<char>) -> (r: Vec<char>)
    requires
        alpha@.len() >= 2,
    ensures
        r@ == to_id_seq(num as int, alpha@),
{
    let b = alpha.len() as u64;
    let mut out: Vec<char> = Vec::new();
    let mut result = num;
    proof {
        assert(to_id_seq(num as int, alpha@) =~= to_id_seq(num as int, alpha@)
            + Seq::<char>::empty());
    }
    loop
        invariant_except_break
            alpha@.len() >= 2,
            alpha@.len() <= usize::MAX,
            b == alpha@.len() as u64,
            result > 0 || out@.len() == 0,
            to_id_seq(num as int, alpha@) == to_id_seq(result as int, alpha@) + out@,
        ensures
            out@ == to_id_seq(num as int, alpha@),
        decreases result,
    {
        let idx = (result % b) as usize;
        let digit = alpha[idx];
        let ghost prev = out@;
        out.insert(0, digit);
        proof {
            let v = result as int;
            let bb = alpha@.len() as int;
            lemma_div_shrinks(v, bb);
            assert(out@ =~= seq![digit] + prev) by {
                assert(out@ == prev.insert(0, digit));
            }
            if v < bb {
                assert(v % bb == v);
                assert(to_id_seq(v, alpha@) == seq![alpha@[v]]);
                assert(seq![alpha@[v]] + prev =~= out@);
            } else {
                assert(to_id_seq(v, alpha@) == to_id_seq(v / bb, alpha@).push(alpha@[v % bb]));
                assert(to_id_seq(v / bb, alpha@).push(digit) + prev =~= to_id_seq(v / bb, alpha@)
                    + out@);
            }
        }
        result = result / b;
        if result == 0 {
            break;
        }
    }
    out
}

/// Folds a digit string back to its value, reporting `None` when the value
/// does not fit in a machine word.
pub fn to_number(chunk: &Vec<char>, alpha: &Vec<char>) -> (r: Option<u64>)
    requires
        alpha@.len() >= 2,
        forall|k: int| 0 <= k < chunk@.len() ==> alpha@.contains(#[trigger] chunk@[k]),
    ensures
        match r {
            Some(v) => v as int == to_number_seq(chunk@, alpha@),
            None => to_number_seq(chunk@, alpha@) > u64::MAX,
        },
{
    let b = alpha.len() as u64;
    let mut acc: u64 = 0;
    let mut i: usize = 0;
    proof {
        assert(chunk@.take(0) =~= Seq::<char>::empty());
    }
    while i < chunk.len()
        invariant
            alpha@.len() >= 2,
            alpha@.len() <= usize::MAX,
            b == alpha@.len() as u64,
            0 <= i <= chunk@.len(),
            forall|k: int| 0 <= k < chunk@.len() ==> alpha@.contains(#[trigger] chunk@[k]),
            acc as int == to_number_seq(chunk@.take(i as int), alpha@),
        decreases chunk@.len() - i,
    {
        let c = chunk[i];
        let idx = match find_char_from(alpha, 0, c) {
            Some(k) => k,
            None => {
                proof {
                    assert(alpha@.contains(chunk@[i as int]));
                }
                assert(false);
                0
            },
        };
        proof {
            lemma_first_occurrence(alpha@, c, idx as int);
            assert(digit_index(alpha@, c) == idx as int);
            assert(chunk@.take(i + 1).drop_last() =~= chunk@.take(i as int));
            assert(chunk@.take(i + 1).last() == c);
        }
        let step = match acc.checked_mul(b) {
            Some(m) => m.checked_add(idx as u64),
            None => None,
        };
        match step {
            Some(v) => {
                acc = v;
            },
            None => {
                proof {
                    let partial = to_number_seq(chunk@.take(i + 1), alpha@);
                    assert(partial == acc as int * b as int + idx as int);
                    assert(partial > u64::MAX);
                    lemma_to_number_prefix_le(chunk@, alpha@, i + 1);
                }
                return None;
            },
        }
        i = i + 1;
    }
    proof {
        assert(chunk@.take(chunk@.len() as int) =~= chunk@);
    }
    Some(acc)
}

} // verus!
