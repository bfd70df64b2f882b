//! Validation of raw caller-supplied parameters into the codec's input types.

use vstd::prelude::*;

use crate::error::Error;

verus! {

/// The numeric value an optional input stands for: absent entries count as zero.
pub open spec fn input_value(o: Option<i64>) -> i64 {
    match o {
        Some(n) => n,
        None => 0,
    }
}

/// Checks that a requested minimum length lies in 0..=255 and narrows it.
pub fn process_min_length(min_length: i16) -> (r: Result<u8, Error>)
    ensures
        match r {
            Ok(v) => 0 <= min_length <= 255 && v == min_length as u8,
            Err(e) => !(0 <= min_length <= 255) && e == Error::MinLengthRange,
        },
{
    if min_length < 0 || min_length > 255 {
        return Err(Error::MinLengthRange);
    }
    Ok(min_length as u8)
}

/// Checks that every present input number is non-negative and widens the
/// sequence to unsigned values; absent entries become zero.
pub fn process_numbers(numbers: &Vec<Option<i64>>) -> (r: Result<Vec<u64>, Error>)
    ensures
        match r {
            Ok(v) => {
                &&& forall|i: int| 0 <= i < numbers@.len() ==> input_value(numbers@[i]) >= 0
                &&& v@ == numbers@.map_values(|o: Option<i64>| input_value(o) as u64)
            },
            Err(e) => {
                &&& exists|i: int| 0 <= i < numbers@.len() && input_value(numbers@[i]) < 0
                &&& e == Error::NegativeNumbers
            },
        },
{
    let mut out: Vec<u64> = Vec::new();
    let mut i: usize = 0;
    while i < numbers.len()
        invariant
            0 <= i <= numbers@.len(),
            forall|j: int| 0 <= j < i ==> input_value(numbers@[j]) >= 0,
            out@ == numbers@.take(i as int).map_values(|o: Option<i64>| input_value(o) as u64),
        decreases numbers@.len() - i,
    {
        let n: i64 = match numbers[i] {
            Some(n) => n,
            None => 0,
        };
        if n < 0 {
            return Err(Error::NegativeNumbers);
        }
        out.push(n as u64);
        proof {
            assert(numbers@.take(i + 1).drop_last() =~= numbers@.take(i as int));
            assert(out@ =~= numbers@.take(i + 1).map_values(
                |o: Option<i64>| input_value(o) as u64,
            ));
        }
        i = i + 1;
    }
    proof {
        assert(numbers@.take(numbers@.len() as int) =~= numbers@);
    }
    Ok(out)
}

} // verus!
