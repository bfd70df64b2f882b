//! The laws of the codec, proved once and for all configurations: encoding
//! is deterministic, honours the minimum length and the blocklist, and
//! decoding inverts it exactly.

use vstd::prelude::*;

use crate::blocklist::{contains_sub, is_blocked, word_blocks};
use crate::chars::lower_seq;
use crate::codec::{
    attempt_offset, decode_chunks, decode_spec, encode_attempt, encode_rec, encode_spec,
    lemma_working_preserves, pad_tail, padded, render, render_final_alpha, working_alphabet,
    CodecView,
};
use crate::numeral::{
    lemma_to_id_chars, lemma_to_id_round_trip, lemma_to_number_nonneg, to_id_seq, to_number_seq,
};
use crate::shuffle::{lemma_shuffled_preserves, shuffled};

verus! {

/// True when every character of `s` occurs in `alpha`.
pub open spec fn all_in(s: Seq<char>, alpha: Seq<char>) -> bool {
    forall|k: int| 0 <= k < s.len() ==> alpha.contains(#[trigger] s[k])
}

/// In a duplicate-free alphabet the first character never recurs later, so
/// no digit drawn from the remaining characters equals it.
proof fn lemma_first_not_in_tail(alpha: Seq<char>)
    requires
        alpha.len() >= 1,
        alpha.no_duplicates(),
    ensures
        forall|c: char| alpha.drop_first().contains(c) ==> c != alpha[0],
        forall|c: char| alpha.drop_first().contains(c) ==> alpha.contains(c),
{
    assert forall|c: char| alpha.drop_first().contains(c) implies c != alpha[0] && alpha.contains(
        c,
    ) by {
        let i = choose|i: int| 0 <= i < alpha.drop_first().len() && alpha.drop_first()[i] == c;
        assert(alpha[i + 1] == c);
    }
}

/// A rendered body is never empty and uses only alphabet characters.
proof fn lemma_render_props(alpha: Seq<char>, nums: Seq<u64>)
    requires
        alpha.len() >= 3,
        nums.len() >= 1,
    ensures
        render(alpha, nums).len() >= 1,
        all_in(render(alpha, nums), alpha),
    decreases nums.len(),
{
    let seg = to_id_seq(nums[0] as int, alpha.drop_first());
    lemma_to_id_chars(nums[0] as int, alpha.drop_first());
    assert forall|c: char| alpha.drop_first().contains(c) implies alpha.contains(c) by {
        let i = choose|i: int| 0 <= i < alpha.drop_first().len() && alpha.drop_first()[i] == c;
        assert(alpha[i + 1] == c);
    }
    if nums.len() == 1 {
        assert forall|k: int| 0 <= k < render(alpha, nums).len() implies alpha.contains(
            #[trigger] render(alpha, nums)[k],
        ) by {
            assert(alpha.drop_first().contains(seg[k]));
        }
    } else {
        lemma_shuffled_preserves(alpha);
        lemma_render_props(shuffled(alpha), nums.drop_first());
        let tailpart = render(shuffled(alpha), nums.drop_first());
        assert(render(alpha, nums) == seg + seq![alpha[0]] + tailpart);
        assert forall|k: int| 0 <= k < render(alpha, nums).len() implies alpha.contains(
            #[trigger] render(alpha, nums)[k],
        ) by {
            if k < seg.len() {
                assert(render(alpha, nums)[k] == seg[k]);
                assert(alpha.drop_first().contains(seg[k]));
            } else if k == seg.len() {
                assert(render(alpha, nums)[k] == alpha[0]);
                assert(alpha.contains(alpha[0]));
            } else {
                assert(render(alpha, nums)[k] == tailpart[k - seg.len() - 1]);
                assert(shuffled(alpha).contains(tailpart[k - seg.len() - 1]));
            }
        }
    }
}

/// The alphabet state left behind by rendering keeps the length, the
/// character set and distinctness.
proof fn lemma_rfa_preserves(alpha: Seq<char>, nums: Seq<u64>)
    requires
        alpha.len() >= 1,
    ensures
        render_final_alpha(alpha, nums).len() == alpha.len(),
        forall|c: char| render_final_alpha(alpha, nums).contains(c) <==> alpha.contains(c),
        alpha.no_duplicates() ==> render_final_alpha(alpha, nums).no_duplicates(),
    decreases nums.len(),
{
    if nums.len() > 1 {
        lemma_shuffled_preserves(alpha);
        lemma_rfa_preserves(shuffled(alpha), nums.drop_first());
    }
}

/// The padding rounds supply exactly the missing characters, start with the
/// first character of the next shuffle, and draw only from the alphabet.
proof fn lemma_pad_tail_shape(alpha: Seq<char>, have: int, min_length: int)
    requires
        alpha.len() >= 1,
    ensures
        pad_tail(alpha, have, min_length).len() == if have >= min_length {
            0
        } else {
            min_length - have
        },
        pad_tail(alpha, have, min_length).len() > 0 ==> pad_tail(alpha, have, min_length)[0]
            == shuffled(alpha)[0],
        all_in(pad_tail(alpha, have, min_length), alpha),
    decreases min_length - have,
{
    if have < min_length {
        let a2 = shuffled(alpha);
        lemma_shuffled_preserves(alpha);
        let k = if min_length - have < a2.len() as int {
            min_length - have
        } else {
            a2.len() as int
        };
        lemma_pad_tail_shape(a2, have + k, min_length);
        let front = a2.take(k);
        let rest = pad_tail(a2, have + k, min_length);
        assert(pad_tail(alpha, have, min_length) == front + rest);
        assert(front[0] == a2[0]);
        assert forall|t: int| 0 <= t < (front + rest).len() implies alpha.contains(
            #[trigger] (front + rest)[t],
        ) by {
            if t < k {
                assert((front + rest)[t] == a2[t]);
                assert(a2.contains(a2[t]));
            } else {
                assert((front + rest)[t] == rest[t - k]);
                assert(a2.contains(rest[t - k]));
            }
        }
    }
}

/// Decoding the rendered body of some numbers, followed by a tail that is
/// either empty or opens with the padding separator and the next shuffle's
/// first character, recovers exactly those numbers.
proof fn lemma_decode_render(alpha: Seq<char>, nums: Seq<u64>, tail: Seq<char>)
    requires
        alpha.len() >= 3,
        alpha.no_duplicates(),
        nums.len() >= 1,
        tail.len() == 0 || {
            let fa = render_final_alpha(alpha, nums);
            &&& tail[0] == fa[0]
            &&& (tail.len() == 1 || tail[1] == shuffled(fa)[0])
        },
    ensures
        decode_chunks(alpha, render(alpha, nums) + tail) == nums,
    decreases nums.len(),
{
    let seg = to_id_seq(nums[0] as int, alpha.drop_first());
    let rest = render(alpha, nums) + tail;
    let sep = alpha[0];
    lemma_to_id_chars(nums[0] as int, alpha.drop_first());
    lemma_to_id_round_trip(nums[0] as int, alpha.drop_first());
    lemma_first_not_in_tail(alpha);
    assert(alpha.drop_first().no_duplicates()) by {
        assert forall|p: int, q: int|
            0 <= p < q < alpha.drop_first().len() implies alpha.drop_first()[p]
            != alpha.drop_first()[q] by {
            assert(alpha.drop_first()[p] == alpha[p + 1]);
            assert(alpha.drop_first()[q] == alpha[q + 1]);
        }
    }
    assert forall|j: int| 0 <= j < seg.len() implies seg[j] != sep by {
        assert(alpha.drop_first().contains(seg[j]));
    }
    if nums.len() == 1 {
        let fa = alpha;
        assert(render(alpha, nums) == seg);
        if tail.len() == 0 {
            assert(rest =~= seg);
            assert forall|j: int| 0 <= j < rest.len() implies rest[j] != sep by {
                assert(rest[j] == seg[j]);
            }
            crate::chars::lemma_no_occurrence(rest, sep);
            lemma_to_number_nonneg(rest, alpha.drop_first());
            assert(to_number_seq(rest, alpha.drop_first()) == nums[0] as int);
            assert(decode_chunks(alpha, rest) == seq![nums[0]]);
            assert(seq![nums[0]] =~= nums);
        } else {
            assert(tail[0] == sep);
            assert(rest[seg.len() as int] == sep);
            assert forall|j: int| 0 <= j < seg.len() implies rest[j] != sep by {
                assert(rest[j] == seg[j]);
            }
            crate::chars::lemma_first_occurrence(rest, sep, seg.len() as int);
            let k = seg.len() as int;
            assert(rest.take(k) =~= seg);
            assert(to_number_seq(rest.take(k), alpha.drop_first()) == nums[0] as int);
            let after = rest.skip(k + 1);
            assert(after =~= tail.drop_first());
            lemma_shuffled_preserves(alpha);
            if tail.len() == 1 {
                assert(after =~= Seq::<char>::empty());
                assert(decode_chunks(shuffled(alpha), after) == Seq::<u64>::empty());
            } else {
                assert(after[0] == tail[1]);
                assert(after[0] == shuffled(alpha)[0]);
                assert(after.index_of_first(shuffled(alpha)[0]) == Some(0int)) by {
                    crate::chars::lemma_first_occurrence(after, shuffled(alpha)[0], 0);
                }
                assert(decode_chunks(shuffled(alpha), after) == Seq::<u64>::empty());
            }
            assert(decode_chunks(alpha, rest) == seq![nums[0]] + Seq::<u64>::empty());
            assert(seq![nums[0]] + Seq::<u64>::empty() =~= nums);
        }
    } else {
        let tailnums = nums.drop_first();
        let body2 = render(shuffled(alpha), tailnums);
        assert(render(alpha, nums) == seg + seq![sep] + body2);
        assert(rest[seg.len() as int] == sep);
        assert forall|j: int| 0 <= j < seg.len() implies rest[j] != sep by {
            assert(rest[j] == seg[j]);
        }
        crate::chars::lemma_first_occurrence(rest, sep, seg.len() as int);
        let k = seg.len() as int;
        assert(rest.take(k) =~= seg);
        assert(to_number_seq(rest.take(k), alpha.drop_first()) == nums[0] as int);
        let after = rest.skip(k + 1);
        assert(after =~= body2 + tail);
        lemma_shuffled_preserves(alpha);
        assert(render_final_alpha(alpha, nums) == render_final_alpha(shuffled(alpha), tailnums));
        lemma_decode_render(shuffled(alpha), tailnums, tail);
        assert(decode_chunks(shuffled(alpha), after) == tailnums);
        assert(decode_chunks(alpha, rest) == seq![nums[0]] + tailnums);
        assert(seq![nums[0]] + tailnums =~= nums);
    }
}

/// One encode attempt decodes back to exactly the numbers it encoded.
proof fn lemma_attempt_round_trip(cfg: CodecView, nums: Seq<u64>, inc: int)
    requires
        cfg.wf(),
        nums.len() >= 1,
    ensures
        decode_spec(cfg, encode_attempt(cfg, nums, inc)) == nums,
        encode_attempt(cfg, nums, inc).len() >= 2,
        encode_attempt(cfg, nums, inc).len() >= cfg.min_length,
{
    let a = cfg.alphabet;
    let n = a.len() as int;
    let off = attempt_offset(a, nums, inc);
    assert(0 <= off < n);
    let wa = working_alphabet(a, off);
    lemma_working_preserves(a, off);
    let body = render(wa, nums);
    lemma_render_props(wa, nums);
    let core = seq![a[off]] + body;
    let fa = render_final_alpha(wa, nums);
    lemma_rfa_preserves(wa, nums);
    let id = padded(core, fa, cfg.min_length);
    let tail: Seq<char> = if core.len() >= cfg.min_length {
        Seq::empty()
    } else {
        seq![fa[0]] + pad_tail(fa, core.len() as int + 1, cfg.min_length)
    };
    lemma_pad_tail_shape(fa, core.len() as int + 1, cfg.min_length);
    assert(id =~= core + tail) by {
        if core.len() < cfg.min_length {
            assert(id == core.push(fa[0]) + pad_tail(fa, core.len() as int + 1, cfg.min_length));
        }
    }
    // The minimum length is honoured.
    assert(id.len() >= cfg.min_length);
    assert(id.len() >= 2);
    // Every character of the id belongs to the base alphabet.
    assert forall|t: int| 0 <= t < id.len() implies a.contains(#[trigger] id[t]) by {
        if t == 0 {
            assert(id[0] == a[off]);
            assert(a.contains(a[off]));
        } else if t < core.len() {
            assert(id[t] == body[t - 1]);
            assert(wa.contains(body[t - 1]));
        } else if t == core.len() {
            assert(id[t] == tail[0]);
            assert(fa.contains(fa[0]));
            assert(wa.contains(fa[0]));
        } else {
            assert(id[t] == tail[t - core.len()]);
            assert(tail[t - core.len()] == pad_tail(fa, core.len() as int + 1, cfg.min_length)[t
                - core.len() - 1]);
            assert(fa.contains(tail[t - core.len()]));
            assert(wa.contains(tail[t - core.len()]));
        }
    }
    // The prefix character recovers the rotation offset.
    assert(id[0] == a[off]);
    crate::chars::lemma_first_occurrence(a, a[off], off);
    assert(a.index_of_first(id[0]) == Some(off));
    // The body plus padding decodes to the numbers.
    assert(id.drop_first() =~= body + tail);
    lemma_decode_render(wa, nums, tail);
    assert(decode_spec(cfg, id) == decode_chunks(wa, body + tail));
}

/// An id that the retry loop returns is some attempt's candidate, passes
/// the blocklist, and decodes back to the numbers.
proof fn lemma_rec_round_trip(cfg: CodecView, nums: Seq<u64>, inc: int)
    requires
        cfg.wf(),
        nums.len() >= 1,
        0 <= inc,
        encode_rec(cfg, nums, inc) is Some,
    ensures
        decode_spec(cfg, encode_rec(cfg, nums, inc).unwrap()) == nums,
        !is_blocked(cfg.blocklist, encode_rec(cfg, nums, inc).unwrap()),
        encode_rec(cfg, nums, inc).unwrap().len() >= cfg.min_length,
        encode_rec(cfg, nums, inc).unwrap().len() >= 2,
    decreases cfg.alphabet.len() + 1 - inc,
{
    let id = encode_attempt(cfg, nums, inc);
    if is_blocked(cfg.blocklist, id) {
        lemma_rec_round_trip(cfg, nums, inc + 1);
    } else {
        lemma_attempt_round_trip(cfg, nums, inc);
    }
}

/// Round-trip: whenever encoding succeeds, decoding its output returns
/// exactly the numbers that were encoded, under the same configuration.
pub proof fn lemma_round_trip(cfg: CodecView, nums: Seq<u64>)
    requires
        cfg.wf(),
        encode_spec(cfg, nums) is Some,
    ensures
        decode_spec(cfg, encode_spec(cfg, nums).unwrap()) == nums,
{
    if nums.len() == 0 {
        assert(encode_spec(cfg, nums).unwrap() =~= Seq::<char>::empty());
        assert(decode_spec(cfg, Seq::<char>::empty()) =~= nums);
    } else {
        lemma_rec_round_trip(cfg, nums, 0);
    }
}

/// Determinism: what encoding returns is a function of the configuration
/// and the numbers alone, so two successful runs agree exactly.
pub proof fn lemma_encode_deterministic(cfg: CodecView, nums: Seq<u64>, r1: Seq<char>, r2: Seq<
    char,
>)
    requires
        encode_spec(cfg, nums) == Some(r1),
        encode_spec(cfg, nums) == Some(r2),
    ensures
        r1 == r2,
{
}

/// Minimum length: a successful encoding of at least one number is never
/// shorter than the configured minimum.
pub proof fn lemma_min_length(cfg: CodecView, nums: Seq<u64>)
    requires
        cfg.wf(),
        nums.len() >= 1,
        encode_spec(cfg, nums) is Some,
    ensures
        encode_spec(cfg, nums).unwrap().len() >= cfg.min_length,
{
    lemma_rec_round_trip(cfg, nums, 0);
}

/// With no blocklist configured nothing can reject a candidate, so
/// encoding succeeds on every input.
pub proof fn lemma_encode_succeeds_without_blocklist(cfg: CodecView, nums: Seq<u64>)
    requires
        cfg.wf(),
        cfg.blocklist.len() == 0,
    ensures
        encode_spec(cfg, nums) is Some,
{
    if nums.len() > 0 {
        assert(!is_blocked(cfg.blocklist, encode_attempt(cfg, nums, 0)));
    }
}

/// Blocklist enforcement, in full: no word of the configured blocklist
/// matches a successful encoding under any of the layered rules — not by
/// equality for short ids or words, not at the start or the end for words
/// holding a digit, and not as a substring for the rest.
pub proof fn lemma_blocklist_never_matches(cfg: CodecView, nums: Seq<u64>, id: Seq<char>)
    requires
        cfg.wf(),
        nums.len() >= 1,
        encode_spec(cfg, nums) == Some(id),
    ensures
        forall|k: int| 0 <= k < cfg.blocklist.len() ==> !word_blocks(
            lower_seq(id),
            #[trigger] cfg.blocklist[k],
        ),
{
    lemma_rec_round_trip(cfg, nums, 0);
    assert(!is_blocked(cfg.blocklist, id));
}

/// Blocklist enforcement: a word of the configured blocklist that is longer
/// than three characters and holds no digit never appears, in lowercase, as
/// a substring of a successful encoding.
pub proof fn lemma_blocklist_excluded(cfg: CodecView, nums: Seq<u64>, id: Seq<char>, w: Seq<char>)
    requires
        cfg.wf(),
        encode_spec(cfg, nums) == Some(id),
        cfg.blocklist.contains(w),
        w.len() > 3,
        !crate::blocklist::has_digit(w),
    ensures
        !contains_sub(lower_seq(id), w),
{
    if nums.len() == 0 {
        if contains_sub(lower_seq(id), w) {
            let i = choose|i: int| crate::blocklist::matches_at(lower_seq(id), w, i);
            assert(i + w.len() <= 0);
            assert(false);
        }
    } else {
        lemma_rec_round_trip(cfg, nums, 0);
        assert(!is_blocked(cfg.blocklist, id));
        assert(id.len() >= 2);
        if contains_sub(lower_seq(id), w) {
            let i = choose|i: int| crate::blocklist::matches_at(lower_seq(id), w, i);
            assert(lower_seq(id).len() == id.len());
            assert(w.len() <= id.len());
            assert(id.len() > 3);
            assert(word_blocks(lower_seq(id), w));
            let k = choose|k: int| 0 <= k < cfg.blocklist.len() && cfg.blocklist[k] == w;
            assert(is_blocked(cfg.blocklist, id));
            assert(false);
        }
    }
}

} // verus!
