//! The deterministic self-shuffle that turns a raw alphabet into the working
//! alphabet, and its permutation properties.

use vstd::prelude::*;

verus! {

/// The sequence with positions `i` and `r` exchanged.
pub open spec fn swap_chars(a: Seq<char>, i: int, r: int) -> Seq<char>
    recommends
        0 <= i < a.len(),
        0 <= r < a.len(),
{
    a.update(i, a[r]).update(r, a[i])
}

/// The position that step `i` of the shuffle swaps position `i` with: it is
/// derived from the two characters at the ends of the not-yet-shuffled span.
pub open spec fn shuffle_target(a: Seq<char>, i: int) -> int
    recommends
        a.len() >= 1,
        0 <= i < a.len(),
{
    let j = a.len() - 1 - i;
    (i * j + a[i] as u32 as int + a[j] as u32 as int) % (a.len() as int)
}

/// The alphabet after the first `steps` swap steps of the shuffle.
pub open spec fn shuffle_steps(a: Seq<char>, steps: nat) -> Seq<char>
    decreases steps,
{
    if steps == 0 {
        a
    } else {
        let prev = shuffle_steps(a, (steps - 1) as nat);
        swap_chars(prev, steps - 1, shuffle_target(prev, steps - 1))
    }
}

/// The deterministic self-shuffle: one content-derived swap for each leading
/// position. The same alphabet always shuffles to the same result.
pub open spec fn shuffled(a: Seq<char>) -> Seq<char> {
    if a.len() == 0 {
        a
    } else {
        shuffle_steps(a, (a.len() - 1) as nat)
    }
}

/// A swap keeps the length, the character set and distinctness.
proof fn lemma_swap_preserves(a: Seq<char>, i: int, r: int)
    requires
        0 <= i < a.len(),
        0 <= r < a.len(),
    ensures
        swap_chars(a, i, r).len() == a.len(),
        forall|c: char| swap_chars(a, i, r).contains(c) <==> a.contains(c),
        a.no_duplicates() ==> swap_chars(a, i, r).no_duplicates(),
{
    let s = swap_chars(a, i, r);
    assert forall|c: char| s.contains(c) implies a.contains(c) by {
        let k = choose|k: int| 0 <= k < s.len() && s[k] == c;
        if k == i {
            assert(a[r] == c);
        } else if k == r {
            assert(a[i] == c);
        } else {
            assert(a[k] == c);
        }
    }
    assert forall|c: char| a.contains(c) implies s.contains(c) by {
        let k = choose|k: int| 0 <= k < a.len() && a[k] == c;
        if k == i {
            assert(s[r] == c);
        } else if k == r {
            assert(s[i] == c);
        } else {
            assert(s[k] == c);
        }
    }
    if a.no_duplicates() {
        assert forall|p: int, q: int| 0 <= p < s.len() && 0 <= q < s.len() && p != q implies s[p]
            != s[q] by {
            let sp = if p == i {
                r
            } else if p == r {
                i
            } else {
                p
            };
            let sq = if q == i {
                r
            } else if q == r {
                i
            } else {
                q
            };
            assert(s[p] == a[sp]);
            assert(s[q] == a[sq]);
        }
    }
}

/// Every prefix of the shuffle keeps the length, the character set and
/// distinctness.
pub proof fn lemma_shuffle_steps_preserves(a: Seq<char>, steps: nat)
    requires
        a.len() >= 1,
        steps < a.len(),
    ensures
        shuffle_steps(a, steps).len() == a.len(),
        forall|c: char| shuffle_steps(a, steps).contains(c) <==> a.contains(c),
        a.no_duplicates() ==> shuffle_steps(a, steps).no_duplicates(),
    decreases steps,
{
    if steps > 0 {
        lemma_shuffle_steps_preserves(a, (steps - 1) as nat);
        let prev = shuffle_steps(a, (steps - 1) as nat);
        let i = steps - 1;
        lemma_swap_preserves(prev, i, shuffle_target(prev, i));
    }
}

/// The shuffle is a permutation: it keeps the length, the character set and
/// distinctness.
pub proof fn lemma_shuffled_preserves(a: Seq<char>)
    ensures
        shuffled(a).len() == a.len(),
        forall|c: char| shuffled(a).contains(c) <==> a.contains(c),
        a.no_duplicates() ==> shuffled(a).no_duplicates(),
{
    if a.len() > 0 {
        lemma_shuffle_steps_preserves(a, (a.len() - 1) as nat);
    }
}

/// Computes the deterministic self-shuffle of an alphabet.
pub fn shuffle(alphabet: &Vec<char>) -> (r: Vec<char>)
    requires
        alphabet@.len() >= 1,
    ensures
        r@ == shuffled(alphabet@),
{
    let n = alphabet.len();
    let mut chars = crate::chars::copy_chars(alphabet);
    let mut i: usize = 0;
    while i < n - 1
        invariant
            n == alphabet@.len(),
            n >= 1,
            0 <= i <= n - 1,
            chars@ == shuffle_steps(alphabet@, i as nat),
            chars@.len() == n,
        decreases n - 1 - i,
    {
        proof {
            lemma_shuffle_steps_preserves(alphabet@, i as nat);
        }
        let j = n - 1 - i;
        let ci = chars[i] as u32;
        let cj = chars[j] as u32;
        proof {
            assert((i as int) * (j as int) <= 0xFFFF_FFFF_FFFF_FFFF * 0xFFFF_FFFF_FFFF_FFFF)
                by (nonlinear_arith)
                requires
                    0 <= i as int <= 0xFFFF_FFFF_FFFF_FFFF,
                    0 <= j as int <= 0xFFFF_FFFF_FFFF_FFFF,
            ;
        }
        let wide: u128 = ((i as u128) * (j as u128) + (ci as u128) + (cj as u128)) % (n as u128);
        proof {
            assert(wide as int == shuffle_target(chars@, i as int));
        }
        let r = wide as usize;
        let tmp = chars[i];
        let cr = chars[r];
        chars.set(i, cr);
        chars.set(r, tmp);
        proof {
            assert(chars@ == shuffle_steps(alphabet@, (i + 1) as nat));
        }
        i = i + 1;
    }
    chars
}

} // verus!
