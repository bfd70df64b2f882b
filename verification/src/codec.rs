//! The codec itself: configuration building, encoding and decoding.

use vstd::prelude::*;

use crate::blocklist::{build_blocklist, filtered_blocklist, is_blocked, is_blocked_id,
    str_seqs, word_seqs};
use crate::chars::{chars_to_string, find_char_from, str_to_chars};
use crate::error::Error;
use crate::numeral::{to_id, to_id_seq, to_number, to_number_seq};
use crate::shuffle::{lemma_shuffled_preserves, shuffle, shuffled};

verus! {

/// The distinct characters of `s`, each at its first occurrence, in order.
pub open spec fn uniq_chars(s: Seq<char>) -> Seq<char>
    decreases s.len(),
{
    if s.len() == 0 {
        Seq::empty()
    } else {
        let rest = uniq_chars(s.drop_last());
        if rest.contains(s.last()) {
            rest
        } else {
            rest.push(s.last())
        }
    }
}

/// True when every character of `s` is a decimal digit.
pub open spec fn all_digits(s: Seq<char>) -> bool {
    forall|i: int| 0 <= i < s.len() ==> crate::chars::is_digit_char(s[i])
}

/// True when `a` is acceptable as a raw alphabet: at least three distinct
/// characters, no repeated character, and not entirely decimal digits.
pub open spec fn alphabet_ok(a: Seq<char>) -> bool {
    &&& uniq_chars(a).len() >= 3
    &&& a.no_duplicates()
    &&& !all_digits(a)
}

/// The rotation seed before any retry: the count of the numbers plus, for
/// each number, the code of the alphabet character it selects plus its
/// position.
pub open spec fn offset_sum(alpha: Seq<char>, numbers: Seq<u64>, k: int) -> int
    recommends
        alpha.len() >= 1,
        k <= numbers.len(),
    decreases k,
{
    if k <= 0 {
        numbers.len() as int
    } else {
        offset_sum(alpha, numbers, k - 1) + alpha[numbers[k - 1] as int % alpha.len() as int]
            as u32 as int + (k - 1)
    }
}

/// The rotation offset used by one encode attempt: the seed plus the
/// attempt counter, reduced modulo the alphabet length.
pub open spec fn attempt_offset(alpha: Seq<char>, numbers: Seq<u64>, increment: int) -> int
    recommends
        alpha.len() >= 1,
{
    (offset_sum(alpha, numbers, numbers.len() as int) % alpha.len() as int + increment)
        % alpha.len() as int
}

/// The alphabet rotated left by `off` positions.
pub open spec fn rotated(a: Seq<char>, off: int) -> Seq<char>
    recommends
        0 <= off <= a.len(),
{
    a.subrange(off, a.len() as int) + a.subrange(0, off)
}

/// The working alphabet of one attempt: the rotation, reversed. Its last
/// character is the attempt's prefix character.
pub open spec fn working_alphabet(a: Seq<char>, off: int) -> Seq<char>
    recommends
        0 <= off <= a.len(),
{
    rotated(a, off).reverse()
}

/// The concatenated digit runs of the numbers, separated by the running
/// alphabet's first character, the alphabet being shuffled after each
/// separator.
pub open spec fn render(alpha: Seq<char>, numbers: Seq<u64>) -> Seq<char>
    decreases numbers.len(),
{
    if numbers.len() == 0 {
        Seq::empty()
    } else if numbers.len() == 1 {
        to_id_seq(numbers[0] as int, alpha.drop_first())
    } else {
        to_id_seq(numbers[0] as int, alpha.drop_first()) + seq![alpha[0]] + render(
            shuffled(alpha),
            numbers.drop_first(),
        )
    }
}

/// The alphabet state after rendering all the numbers: one shuffle for each
/// separator that was emitted.
pub open spec fn render_final_alpha(alpha: Seq<char>, numbers: Seq<u64>) -> Seq<char>
    decreases numbers.len(),
{
    if numbers.len() <= 1 {
        alpha
    } else {
        render_final_alpha(shuffled(alpha), numbers.drop_first())
    }
}

/// The characters the padding rounds append once the separator is placed:
/// each round shuffles the alphabet and takes just enough of its front.
pub open spec fn pad_tail(alpha: Seq<char>, have: int, min_length: int) -> Seq<char>
    decreases min_length - have,
    via pad_tail_decreases
{
    if have >= min_length || alpha.len() == 0 {
        Seq::empty()
    } else {
        let a2 = shuffled(alpha);
        let k = if min_length - have < a2.len() as int {
            min_length - have
        } else {
            a2.len() as int
        };
        a2.take(k) + pad_tail(a2, have + k, min_length)
    }
}

#[via_fn]
proof fn pad_tail_decreases(alpha: Seq<char>, have: int, min_length: int) {
    if !(have >= min_length || alpha.len() == 0) {
        lemma_shuffled_preserves(alpha);
    }
}

/// A candidate stretched to the minimum length: unchanged when long enough,
/// otherwise one separator and then padding rounds.
pub open spec fn padded(core: Seq<char>, alpha: Seq<char>, min_length: int) -> Seq<char>
    recommends
        alpha.len() >= 1,
{
    if core.len() >= min_length {
        core
    } else {
        core.push(alpha[0]) + pad_tail(alpha, core.len() as int + 1, min_length)
    }
}

/// The candidate id of one encode attempt: the prefix character, the
/// rendered numbers, and any padding.
pub open spec fn encode_attempt(cfg: CodecView, numbers: Seq<u64>, increment: int) -> Seq<char>
    recommends
        cfg.wf(),
        numbers.len() >= 1,
{
    let off = attempt_offset(cfg.alphabet, numbers, increment);
    let wa = working_alphabet(cfg.alphabet, off);
    let core = seq![cfg.alphabet[off]] + render(wa, numbers);
    padded(core, render_final_alpha(wa, numbers), cfg.min_length)
}

/// The retry loop: each blocked candidate raises the attempt counter, and
/// the counter may not exceed the alphabet length.
pub open spec fn encode_rec(cfg: CodecView, numbers: Seq<u64>, increment: int) -> Option<
    Seq<char>,
>
    recommends
        cfg.wf(),
        numbers.len() >= 1,
        increment >= 0,
    decreases cfg.alphabet.len() + 1 - increment,
{
    if increment > cfg.alphabet.len() {
        None
    } else {
        let id = encode_attempt(cfg, numbers, increment);
        if is_blocked(cfg.blocklist, id) {
            encode_rec(cfg, numbers, increment + 1)
        } else {
            Some(id)
        }
    }
}

/// What encoding returns: the empty string for no numbers, otherwise the
/// first unblocked attempt, or nothing when every attempt is blocked.
pub open spec fn encode_spec(cfg: CodecView, numbers: Seq<u64>) -> Option<Seq<char>>
    recommends
        cfg.wf(),
{
    if numbers.len() == 0 {
        Some(Seq::empty())
    } else {
        encode_rec(cfg, numbers, 0)
    }
}

/// One decoding pass over the id body: split a digit run off at the current
/// separator, fold it back to a number, shuffle, and continue. An empty
/// digit run ends the pass; a run whose value does not fit in a machine
/// word is dropped.
pub open spec fn decode_chunks(alpha: Seq<char>, rest: Seq<char>) -> Seq<u64>
    decreases rest.len(),
    via decode_chunks_decreases
{
    if alpha.len() < 2 || rest.len() == 0 {
        Seq::empty()
    } else {
        let sep = alpha[0];
        match rest.index_of_first(sep) {
            Some(k) => {
                if k == 0 {
                    Seq::empty()
                } else {
                    let v = to_number_seq(rest.take(k), alpha.drop_first());
                    let tail = decode_chunks(shuffled(alpha), rest.skip(k + 1));
                    if v <= u64::MAX {
                        seq![v as u64] + tail
                    } else {
                        tail
                    }
                }
            },
            None => {
                let v = to_number_seq(rest, alpha.drop_first());
                if v <= u64::MAX {
                    seq![v as u64]
                } else {
                    Seq::empty()
                }
            },
        }
    }
}

#[via_fn]
proof fn decode_chunks_decreases(alpha: Seq<char>, rest: Seq<char>) {
    if !(alpha.len() < 2 || rest.len() == 0) {
        rest.index_of_first_ensures(alpha[0]);
    }
}

/// What decoding returns: nothing for the empty id or an id with a foreign
/// character; otherwise the prefix character selects the rotation and the
/// body is split at the running separators.
pub open spec fn decode_spec(cfg: CodecView, id: Seq<char>) -> Seq<u64>
    recommends
        cfg.wf(),
{
    if id.len() == 0 {
        Seq::empty()
    } else if exists|i: int| 0 <= i < id.len() && !cfg.alphabet.contains(id[i]) {
        Seq::empty()
    } else {
        let off = match cfg.alphabet.index_of_first(id[0]) {
            Some(o) => o,
            None => 0,
        };
        decode_chunks(working_alphabet(cfg.alphabet, off), id.drop_first())
    }
}

/// The mathematical content of a codec: its working alphabet, minimum
/// length and configured blocklist.
pub struct CodecView {
    /// The shuffled working alphabet.
    pub alphabet: Seq<char>,
    /// The minimum length of a generated id.
    pub min_length: int,
    /// The configured blocklist: lowercase words of at least three characters.
    pub blocklist: Seq<Seq<char>>,
}

impl CodecView {
    /// A structurally sound configuration: a duplicate-free alphabet of at
    /// least three characters and a minimum length that fits one byte.
    pub open spec fn wf(self) -> bool {
        &&& self.alphabet.len() >= 3
        &&& self.alphabet.no_duplicates()
        &&& 0 <= self.min_length <= 255
    }
}

/// A reversible codec between sequences of non-negative integers and short
/// shuffled strings, built once from an alphabet, a minimum output length
/// and a blocklist.
#[derive(Debug)]
pub struct Codec {
    alphabet: Vec<char>,
    min_length: u8,
    blocklist: Vec<Vec<char>>,
}

impl View for Codec {
    type V = CodecView;

    closed spec fn view(&self) -> CodecView {
        CodecView {
            alphabet: self.alphabet@,
            min_length: self.min_length as int,
            blocklist: word_seqs(self.blocklist@),
        }
    }
}

/// The distinct characters of `s`: duplicate-free, the same character set,
/// never longer than `s`, and of equal length exactly when `s` itself is
/// duplicate-free.
pub proof fn lemma_uniq_chars(s: Seq<char>)
    ensures
        uniq_chars(s).no_duplicates(),
        forall|c: char| uniq_chars(s).contains(c) <==> s.contains(c),
        uniq_chars(s).len() <= s.len(),
        uniq_chars(s).len() == s.len() <==> s.no_duplicates(),
    decreases s.len(),
{
    if s.len() > 0 {
        let d = s.drop_last();
        lemma_uniq_chars(d);
        let rest = uniq_chars(d);
        let last = s.last();
        assert forall|c: char| uniq_chars(s).contains(c) implies s.contains(c) by {
            if rest.contains(c) {
                assert(d.contains(c));
                let i = choose|i: int| 0 <= i < d.len() && d[i] == c;
                assert(s[i] == c);
            } else {
                assert(c == last);
                assert(s[s.len() - 1] == c);
            }
        }
        assert forall|c: char| s.contains(c) implies uniq_chars(s).contains(c) by {
            let i = choose|i: int| 0 <= i < s.len() && s[i] == c;
            if i < s.len() - 1 {
                assert(d[i] == c);
                assert(d.contains(c));
                assert(rest.contains(c));
                if !rest.contains(last) {
                    assert(uniq_chars(s)[rest.index_of(c)] == c);
                }
            } else {
                assert(c == last);
                if rest.contains(last) {
                } else {
                    assert(uniq_chars(s).last() == c);
                }
            }
        }
        if rest.contains(last) {
            assert(d.contains(last));
            let i = choose|i: int| 0 <= i < d.len() && d[i] == last;
            assert(s[i] == s[s.len() - 1]);
            assert(!s.no_duplicates());
        } else {
            assert(uniq_chars(s) == rest.push(last));
            assert(uniq_chars(s).no_duplicates()) by {
                assert forall|p: int, q: int|
                    0 <= p < q < rest.push(last).len() implies rest.push(last)[p] != rest.push(
                    last,
                )[q] by {
                    if q < rest.len() {
                    } else {
                        assert(rest.push(last)[q] == last);
                        assert(rest.contains(rest[p]));
                    }
                }
            }
            assert(s.no_duplicates() <==> d.no_duplicates() && !d.contains(last)) by {
                if d.no_duplicates() && !d.contains(last) {
                    assert forall|p: int, q: int| 0 <= p < q < s.len() implies s[p] != s[q] by {
                        if q < s.len() - 1 {
                            assert(d[p] == s[p] && d[q] == s[q]);
                        } else {
                            assert(s[q] == last);
                            if s[p] == last {
                                assert(d[p] == last);
                                assert(d.contains(last));
                            }
                        }
                    }
                }
                if s.no_duplicates() {
                    assert forall|p: int, q: int| 0 <= p < q < d.len() implies d[p] != d[q] by {
                        assert(s[p] == d[p] && s[q] == d[q]);
                    }
                    if d.contains(last) {
                        let i = choose|i: int| 0 <= i < d.len() && d[i] == last;
                        assert(s[i] == s[s.len() - 1]);
                        assert(false);
                    }
                }
            }
        }
    }
}

impl Codec {
    /// Builds a codec. The raw alphabet must hold at least three distinct
    /// characters, hold no repeated character, and not consist solely of
    /// decimal digits; the errors report those conditions in that order.
    /// On success the alphabet is deterministically shuffled and the
    /// blocklist is distilled to the words that can ever match.
    pub fn new(alphabet: &str, min_length: u8, blocklist: &Vec<String>) -> (r: Result<Codec, Error>)
        ensures
            match r {
                Ok(c) => {
                    &&& alphabet_ok(alphabet@)
                    &&& c@.alphabet == shuffled(alphabet@)
                    &&& c@.min_length == min_length as int
                    &&& c@.blocklist == filtered_blocklist(
                        alphabet@,
                        str_seqs(blocklist@),
                    )
                    &&& c@.wf()
                },
                Err(e) => {
                    &&& !alphabet_ok(alphabet@)
                    &&& if uniq_chars(alphabet@).len() < 3 {
                        e == Error::AlphabetTooShort
                    } else if !alphabet@.no_duplicates() {
                        e == Error::AlphabetHasDuplicates
                    } else {
                        e == Error::AlphabetNumericOnly && all_digits(alphabet@)
                    }
                },
            },
    {
        let chars = str_to_chars(alphabet);
        // Count the distinct characters by collecting first occurrences.
        let mut seen: Vec<char> = Vec::new();
        let mut i: usize = 0;
        while i < chars.len()
            invariant
                0 <= i <= chars@.len(),
                seen@ == uniq_chars(chars@.take(i as int)),
            decreases chars@.len() - i,
        {
            let c = chars[i];
            proof {
                assert(chars@.take(i + 1).drop_last() =~= chars@.take(i as int));
                assert(chars@.take(i + 1).last() == c);
            }
            match find_char_from(&seen, 0, c) {
                Some(_) => {
                    proof {
                        assert(seen@.contains(c));
                    }
                },
                None => {
                    proof {
                        if seen@.contains(c) {
                            let k = choose|k: int| 0 <= k < seen@.len() && seen@[k] == c;
                            assert(false);
                        }
                    }
                    seen.push(c);
                },
            }
            i = i + 1;
        }
        proof {
            assert(chars@.take(chars@.len() as int) =~= chars@);
            lemma_uniq_chars(chars@);
        }
        if seen.len() < 3 {
            return Err(Error::AlphabetTooShort);
        }
        if seen.len() != chars.len() {
            return Err(Error::AlphabetHasDuplicates);
        }
        // Reject an alphabet of digits alone.
        let mut all_dig = true;
        let mut j: usize = 0;
        while j < chars.len()
            invariant
                0 <= j <= chars@.len(),
                all_dig == (forall|t: int|
                    0 <= t < j ==> crate::chars::is_digit_char(#[trigger] chars@[t])),
            decreases chars@.len() - j,
        {
            let u = chars[j] as u32;
            if !(48 <= u && u <= 57) {
                all_dig = false;
            }
            j = j + 1;
        }
        if all_dig {
            return Err(Error::AlphabetNumericOnly);
        }
        let mut words: Vec<Vec<char>> = Vec::new();
        let mut k: usize = 0;
        while k < blocklist.len()
            invariant
                0 <= k <= blocklist@.len(),
                word_seqs(words@) == str_seqs(blocklist@).take(k as int),
            decreases blocklist@.len() - k,
        {
            let cw = str_to_chars(blocklist[k].as_str());
            let ghost wv = cw@;
            let ghost prev = words@;
            words.push(cw);
            proof {
                let ws = str_seqs(blocklist@);
                assert(wv == ws[k as int]);
                assert(prev.len() == k) by {
                    assert(word_seqs(prev).len() == ws.take(k as int).len());
                }
                assert(words@ == prev.push(words@[k as int]));
                assert forall|t: int| 0 <= t < k + 1 implies word_seqs(words@)[t]
                    == #[trigger] ws.take(k + 1)[t] by {
                    if t < k {
                        assert(words@[t] == prev[t]);
                        assert(word_seqs(prev)[t] == ws.take(k as int)[t]);
                    } else {
                        assert(words@[t]@ == wv);
                    }
                }
                assert(word_seqs(words@) =~= ws.take(k + 1));
            }
            k = k + 1;
        }
        proof {
            let ws = str_seqs(blocklist@);
            assert(ws.take(ws.len() as int) =~= ws);
        }
        let filtered = build_blocklist(&chars, &words);
        let shuffled_alphabet = shuffle(&chars);
        proof {
            lemma_shuffled_preserves(chars@);
        }
        Ok(Codec { alphabet: shuffled_alphabet, min_length, blocklist: filtered })
    }

    /// Encodes a sequence of numbers, retrying over rotations until the
    /// candidate passes the blocklist; the empty sequence encodes to the
    /// empty string, and when every rotation is blocked the attempt budget
    /// is exhausted.
    pub fn encode(&self, numbers: &Vec<u64>) -> (r: Result<String, Error>)
        requires
            self@.wf(),
        ensures
            match r {
                Ok(s) => encode_spec(self@, numbers@) == Some(s@),
                Err(e) => {
                    &&& encode_spec(self@, numbers@) is None
                    &&& e == Error::BlocklistExhausted
                },
            },
    {
        if numbers.len() == 0 {
            return Ok(String::new());
        }
        let n = self.alphabet.len();
        let mut increment: usize = 0;
        loop
            invariant
                self@.wf(),
                numbers@.len() >= 1,
                n == self@.alphabet.len(),
                0 <= increment <= n,
                forall|j: int|
                    0 <= j < increment ==> is_blocked(
                        self@.blocklist,
                        encode_attempt(self@, numbers@, j),
                    ),
            decreases n - increment,
        {
            let cand = self.attempt(numbers, increment);
            if !is_blocked_id(&self.blocklist, &cand) {
                proof {
                    lemma_encode_rec_skip(self@, numbers@, increment as int);
                }
                return Ok(chars_to_string(&cand));
            }
            if increment == n {
                proof {
                    lemma_encode_rec_skip(self@, numbers@, n as int + 1);
                }
                return Err(Error::BlocklistExhausted);
            }
            increment = increment + 1;
        }
    }

    /// Decodes an id back to its numbers. Decoding is total: the empty
    /// string, a string holding a character outside the alphabet, and any
    /// other ill-formed body all yield an empty or truncated sequence,
    /// never an error.
    pub fn decode(&self, id: &str) -> (r: Vec<u64>)
        requires
            self@.wf(),
        ensures
            r@ == decode_spec(self@, id@),
            id@.len() == 0 ==> r@.len() == 0,
            (exists|i: int| 0 <= i < id@.len() && !self@.alphabet.contains(id@[i])) ==> r@.len()
                == 0,
    {
        let chars = str_to_chars(id);
        let mut ret: Vec<u64> = Vec::new();
        if chars.len() == 0 {
            return ret;
        }
        let mut i: usize = 0;
        while i < chars.len()
            invariant
                self@.wf(),
                0 <= i <= chars@.len(),
                chars@ == id@,
                ret@ == Seq::<u64>::empty(),
                forall|j: int| 0 <= j < i ==> self@.alphabet.contains(#[trigger] chars@[j]),
            decreases chars@.len() - i,
        {
            match find_char_from(&self.alphabet, 0, chars[i]) {
                Some(_) => {
                    proof {
                        assert(self@.alphabet.contains(chars@[i as int]));
                    }
                },
                None => {
                    proof {
                        assert(!self@.alphabet.contains(id@[i as int]));
                        assert(ret@ =~= Seq::<u64>::empty());
                        assert(decode_spec(self@, id@) == Seq::<u64>::empty());
                    }
                    return ret;
                },
            }
            i = i + 1;
        }
        let prefix = chars[0];
        let off = match find_char_from(&self.alphabet, 0, prefix) {
            Some(k) => k,
            None => {
                proof {
                    assert(self@.alphabet.contains(chars@[0]));
                }
                assert(false);
                0
            },
        };
        proof {
            crate::chars::lemma_first_occurrence(self@.alphabet, prefix, off as int);
            lemma_working_preserves(self@.alphabet, off as int);
        }
        let mut alpha = make_working(&self.alphabet, off);
        let mut pos: usize = 1;
        proof {
            assert(chars@.skip(1) =~= chars@.drop_first());
            assert(decode_spec(self@, id@) == decode_chunks(alpha@, chars@.skip(1)));
            assert(ret@ + decode_chunks(alpha@, chars@.skip(1)) =~= decode_chunks(
                alpha@,
                chars@.skip(1),
            ));
        }
        loop
            invariant
                self@.wf(),
                1 <= pos <= chars@.len(),
                chars@ == id@,
                alpha@.len() == self@.alphabet.len(),
                alpha@.no_duplicates(),
                forall|j: int| 0 <= j < chars@.len() ==> self@.alphabet.contains(
                    #[trigger] chars@[j],
                ),
                forall|c: char| alpha@.contains(c) <==> self@.alphabet.contains(c),
                decode_spec(self@, id@) == ret@ + decode_chunks(alpha@, chars@.skip(pos as int)),
            decreases chars@.len() - pos,
        {
            let ghost rest = chars@.skip(pos as int);
            if pos >= chars.len() {
                proof {
                    assert(rest =~= Seq::<char>::empty());
                    assert(decode_chunks(alpha@, rest) == Seq::<u64>::empty());
                    assert(ret@ + Seq::<u64>::empty() =~= ret@);
                }
                return ret;
            }
            let sep = alpha[0];
            proof {
                assert(rest.len() == chars@.len() - pos);
            }
            match find_char_from(&chars, pos, sep) {
                None => {
                    proof {
                        assert forall|j: int| 0 <= j < rest.len() implies rest[j] != sep by {
                            assert(chars@[pos + j] != sep);
                        }
                        crate::chars::lemma_no_occurrence(rest, sep);
                    }
                    let chunk = crate::chars::copy_range(&chars, pos, chars.len());
                    let data = crate::chars::tail_of(&alpha);
                    proof {
                        assert(chunk@ =~= rest);
                        assert forall|t: int| 0 <= t < chunk@.len() implies alpha@.contains(
                            #[trigger] chunk@[t],
                        ) && chunk@[t] != alpha@[0] by {
                            assert(chunk@[t] == chars@[pos + t]);
                            assert(self@.alphabet.contains(chars@[pos + t]));
                            assert(rest[t] != sep);
                        }
                        lemma_member_of_tail(alpha@, chunk@);
                    }
                    let ghost before = ret@;
                    let r_opt = to_number(&chunk, &data);
                    let ghost numpart: Seq<u64> = match r_opt {
                        Some(v) => seq![v],
                        None => Seq::empty(),
                    };
                    match r_opt {
                        Some(v) => {
                            ret.push(v);
                        },
                        None => {
                        },
                    }
                    proof {
                        assert(decode_chunks(alpha@, rest) =~= numpart);
                        assert(before + numpart =~= ret@);
                    }
                    return ret;
                },
                Some(kk) => {
                    proof {
                        assert(rest[kk - pos] == sep);
                        assert forall|j: int| 0 <= j < kk - pos implies rest[j] != sep by {
                            assert(chars@[pos + j] != sep);
                        }
                        crate::chars::lemma_first_occurrence(rest, sep, kk - pos);
                    }
                    if kk == pos {
                        proof {
                            assert(decode_chunks(alpha@, rest) == Seq::<u64>::empty());
                            assert(ret@ + Seq::<u64>::empty() =~= ret@);
                        }
                        return ret;
                    }
                    let chunk = crate::chars::copy_range(&chars, pos, kk);
                    let data = crate::chars::tail_of(&alpha);
                    let ghost k0 = kk - pos;
                    proof {
                        assert(chunk@ =~= rest.take(k0));
                        assert forall|t: int| 0 <= t < chunk@.len() implies rest[t] != sep
                            && self@.alphabet.contains(#[trigger] chunk@[t]) by {
                            assert(chunk@[t] == chars@[pos + t]);
                        }
                        lemma_member_of_tail(alpha@, chunk@);
                    }
                    let ghost before = ret@;
                    let r_opt = to_number(&chunk, &data);
                    let ghost numpart: Seq<u64> = match r_opt {
                        Some(v) => seq![v],
                        None => Seq::empty(),
                    };
                    match r_opt {
                        Some(v) => {
                            ret.push(v);
                        },
                        None => {
                        },
                    }
                    proof {
                        assert(before + numpart =~= ret@);
                    }
                    let ghost a_old = alpha@;
                    let next_alpha = shuffle(&alpha);
                    proof {
                        lemma_shuffled_preserves(a_old);
                        assert(rest.skip(k0 + 1) =~= chars@.skip(kk + 1));
                        assert(decode_chunks(a_old, rest) =~= numpart + decode_chunks(
                            shuffled(a_old),
                            rest.skip(k0 + 1),
                        ));
                        assert(before + (numpart + decode_chunks(shuffled(a_old), chars@.skip(
                            kk + 1,
                        ))) =~= ret@ + decode_chunks(shuffled(a_old), chars@.skip(kk + 1)));
                    }
                    alpha = next_alpha;
                    pos = kk + 1;
                    proof {
                        assert forall|c: char| alpha@.contains(c) <==> self@.alphabet.contains(
                            c,
                        ) by {
                            assert(shuffled(a_old).contains(c) <==> a_old.contains(c));
                            assert(a_old.contains(c) <==> self@.alphabet.contains(c));
                        }
                    }
                },
            }
        }
    }

    /// Builds the candidate id of one encode attempt.
    fn attempt(&self, numbers: &Vec<u64>, increment: usize) -> (out: Vec<char>)
        requires
            self@.wf(),
            numbers@.len() >= 1,
        ensures
            out@ == encode_attempt(self@, numbers@, increment as int),
    {
        let off = compute_offset(&self.alphabet, numbers, increment);
        let mut alpha = make_working(&self.alphabet, off);
        let prefix = self.alphabet[off];
        let ghost wa0 = alpha@;
        let ghost n = self@.alphabet.len();
        proof {
            lemma_working_preserves(self@.alphabet, off as int);
        }
        let mut out: Vec<char> = Vec::new();
        out.push(prefix);
        let m = numbers.len();
        let mut i: usize = 0;
        proof {
            assert(numbers@.skip(0) =~= numbers@);
            assert(out@ =~= seq![prefix]);
        }
        while i < m
            invariant
                self@.wf(),
                m == numbers@.len(),
                m >= 1,
                0 <= i <= m,
                alpha@.len() == n,
                n == self@.alphabet.len(),
                alpha@.no_duplicates(),
                i < m ==> out@ + render(alpha@, numbers@.skip(i as int)) == seq![prefix] + render(
                    wa0,
                    numbers@,
                ),
                i < m ==> render_final_alpha(alpha@, numbers@.skip(i as int))
                    == render_final_alpha(wa0, numbers@),
                i == m ==> out@ == seq![prefix] + render(wa0, numbers@),
                i == m ==> alpha@ == render_final_alpha(wa0, numbers@),
            decreases m - i,
        {
            let data = crate::chars::tail_of(&alpha);
            let seg = to_id(numbers[i], &data);
            let ghost out_start = out@;
            let mut q: usize = 0;
            while q < seg.len()
                invariant
                    0 <= q <= seg@.len(),
                    out@ == out_start + seg@.take(q as int),
                decreases seg@.len() - q,
            {
                proof {
                    assert(out_start + seg@.take(q + 1) =~= (out_start + seg@.take(q as int)).push(
                        seg@[q as int],
                    ));
                }
                out.push(seg[q]);
                q = q + 1;
            }
            proof {
                assert(seg@.take(seg@.len() as int) =~= seg@);
                assert(out@ == out_start + seg@);
            }
            proof {
                let rest = numbers@.skip(i as int);
                assert(rest[0] == numbers@[i as int]);
                assert(seg@ == to_id_seq(rest[0] as int, alpha@.drop_first()));
            }
            if i + 1 < m {
                let sep = alpha[0];
                let ghost old_alpha = alpha@;
                let ghost before = out@;
                out.push(sep);
                let next_alpha = shuffle(&alpha);
                alpha = next_alpha;
                proof {
                    lemma_shuffled_preserves(old_alpha);
                    let rest = numbers@.skip(i as int);
                    assert(rest.drop_first() =~= numbers@.skip(i + 1));
                    assert(render(old_alpha, rest) == to_id_seq(rest[0] as int,
                        old_alpha.drop_first()) + seq![old_alpha[0]] + render(
                        alpha@,
                        numbers@.skip(i + 1),
                    ));
                    assert(out@ =~= out_start + (seg@ + seq![old_alpha[0]]));
                    assert(out@ + render(alpha@, numbers@.skip(i + 1)) =~= out_start + render(
                        old_alpha,
                        rest,
                    ));
                    assert(render_final_alpha(old_alpha, rest) == render_final_alpha(
                        alpha@,
                        numbers@.skip(i + 1),
                    ));
                }
            } else {
                proof {
                    let rest = numbers@.skip(i as int);
                    assert(rest.len() == 1);
                    assert(render(alpha@, rest) == seg@);
                    assert(render_final_alpha(alpha@, rest) == alpha@);
                }
            }
            i = i + 1;
        }
        proof {
            assert(i == m);
        }
        // Padding to the minimum length.
        let minl = self.min_length as usize;
        let ghost core = out@;
        let ghost fa = alpha@;
        if out.len() < minl {
            let sep = alpha[0];
            out.push(sep);
            proof {
                assert(out@ == core.push(fa[0]));
                assert(padded(core, fa, minl as int) == out@ + pad_tail(
                    fa,
                    out@.len() as int,
                    minl as int,
                ));
            }
            while out.len() < minl
                invariant
                    alpha@.len() == n,
                    n >= 3,
                    minl <= 255,
                    padded(core, fa, minl as int) == out@ + pad_tail(
                        alpha@,
                        out@.len() as int,
                        minl as int,
                    ),
                decreases minl - out@.len(),
            {
                let next_alpha = shuffle(&alpha);
                proof {
                    lemma_shuffled_preserves(alpha@);
                }
                let need = minl - out.len();
                let k = if need < next_alpha.len() {
                    need
                } else {
                    next_alpha.len()
                };
                let ghost before = out@;
                let ghost a2 = next_alpha@;
                let mut q: usize = 0;
                while q < k
                    invariant
                        0 <= q <= k,
                        k <= a2.len(),
                        a2 == next_alpha@,
                        out@ == before + a2.take(q as int),
                    decreases k - q,
                {
                    proof {
                        assert(before + a2.take(q + 1) =~= (before + a2.take(q as int)).push(
                            a2[q as int],
                        ));
                    }
                    out.push(next_alpha[q]);
                    q = q + 1;
                }
                proof {
                    assert(pad_tail(alpha@, before.len() as int, minl as int) == a2.take(k as int)
                        + pad_tail(a2, before.len() + k, minl as int));
                    assert((before + a2.take(k as int)) + pad_tail(a2, before.len() + k, minl as int)
                        =~= before + (a2.take(k as int) + pad_tail(a2, before.len() + k, minl as int)));
                }
                alpha = next_alpha;
            }
            proof {
                assert(pad_tail(alpha@, out@.len() as int, minl as int) == Seq::<char>::empty());
                assert(out@ + Seq::<char>::empty() =~= out@);
            }
        } else {
            proof {
                assert(padded(core, fa, minl as int) == core);
            }
        }
        out
    }
}

/// Rotating and reversing keeps the length, the character set and
/// distinctness.
pub proof fn lemma_working_preserves(a: Seq<char>, off: int)
    requires
        0 <= off < a.len(),
    ensures
        working_alphabet(a, off).len() == a.len(),
        forall|c: char| working_alphabet(a, off).contains(c) <==> a.contains(c),
        a.no_duplicates() ==> working_alphabet(a, off).no_duplicates(),
{
    let rot = rotated(a, off);
    let w = working_alphabet(a, off);
    assert(rot.len() == a.len());
    assert forall|i: int| 0 <= i < a.len() implies rot[i] == a[rotated_source(a.len() as int, off, i)] by {
    }
    assert forall|c: char| w.contains(c) implies a.contains(c) by {
        let i = choose|i: int| 0 <= i < w.len() && w[i] == c;
        assert(w[i] == rot[a.len() - 1 - i]);
        assert(a[rotated_source(a.len() as int, off, a.len() - 1 - i)] == c);
    }
    assert forall|c: char| a.contains(c) implies w.contains(c) by {
        let i = choose|i: int| 0 <= i < a.len() && a[i] == c;
        let p = if i >= off {
            i - off
        } else {
            i + a.len() - off
        };
        assert(rot[p] == c);
        assert(w[a.len() - 1 - p] == c);
    }
    if a.no_duplicates() {
        assert forall|p: int, q: int|
            0 <= p < w.len() && 0 <= q < w.len() && p != q implies w[p] != w[q] by {
            let sp = rotated_source(a.len() as int, off, a.len() - 1 - p);
            let sq = rotated_source(a.len() as int, off, a.len() - 1 - q);
            assert(w[p] == a[sp]);
            assert(w[q] == a[sq]);
        }
    }
}

/// The base-alphabet position that position `i` of the rotation reads.
pub open spec fn rotated_source(n: int, off: int, i: int) -> int {
    if i < n - off {
        off + i
    } else {
        off + i - n
    }
}

/// A character of a duplicate-free alphabet that is not its first character
/// occurs among the remaining characters.
pub proof fn lemma_member_of_tail(alpha: Seq<char>, chunk: Seq<char>)
    requires
        alpha.len() >= 1,
        alpha.no_duplicates(),
        forall|t: int| 0 <= t < chunk.len() ==> alpha.contains(#[trigger] chunk[t]),
        forall|t: int| 0 <= t < chunk.len() ==> chunk[t] != alpha[0],
    ensures
        forall|t: int| 0 <= t < chunk.len() ==> alpha.drop_first().contains(#[trigger] chunk[t]),
{
    assert forall|t: int| 0 <= t < chunk.len() implies alpha.drop_first().contains(
        #[trigger] chunk[t],
    ) by {
        let i = choose|i: int| 0 <= i < alpha.len() && alpha[i] == chunk[t];
        assert(i != 0);
        assert(alpha.drop_first()[i - 1] == chunk[t]);
    }
}

/// Skipping attempts that are all blocked does not change what the retry
/// loop returns.
pub proof fn lemma_encode_rec_skip(cfg: CodecView, numbers: Seq<u64>, inc: int)
    requires
        cfg.wf(),
        numbers.len() >= 1,
        0 <= inc <= cfg.alphabet.len() + 1,
        forall|j: int|
            0 <= j < inc ==> is_blocked(cfg.blocklist, encode_attempt(cfg, numbers, j)),
    ensures
        encode_rec(cfg, numbers, 0) == encode_rec(cfg, numbers, inc),
    decreases inc,
{
    if inc > 0 {
        lemma_encode_rec_skip(cfg, numbers, inc - 1);
    }
}

/// Computes the rotation offset of one attempt.
fn compute_offset(alphabet: &Vec<char>, numbers: &Vec<u64>, increment: usize) -> (off: usize)
    requires
        alphabet@.len() >= 1,
    ensures
        off as int == attempt_offset(alphabet@, numbers@, increment as int),
        off < alphabet@.len(),
{
    let n = alphabet.len();
    let mut acc: usize = numbers.len() % n;
    proof {
        assert(offset_sum(alphabet@, numbers@, 0) == numbers@.len() as int);
    }
    let mut i: usize = 0;
    while i < numbers.len()
        invariant
            n == alphabet@.len(),
            n >= 1,
            0 <= i <= numbers@.len(),
            acc < n,
            acc as int == offset_sum(alphabet@, numbers@, i as int) % n as int,
        decreases numbers@.len() - i,
    {
        let v = numbers[i];
        let idx = (v % (n as u64)) as usize;
        let c = alphabet[idx] as u32;
        let wide: u128 = ((acc as u128) + (c as u128) + (i as u128)) % (n as u128);
        proof {
            let sk = offset_sum(alphabet@, numbers@, i as int);
            let t = c as int + i as int;
            assert(idx as int == numbers@[i as int] as int % n as int);
            assert(offset_sum(alphabet@, numbers@, i + 1) == sk + t);
            vstd::arithmetic::div_mod::lemma_add_mod_noop(acc as int, t, n as int);
            vstd::arithmetic::div_mod::lemma_add_mod_noop(sk, t, n as int);
            vstd::arithmetic::div_mod::lemma_mod_twice(sk, n as int);
            assert((acc as int + t) % n as int == (sk + t) % n as int);
            assert(wide as int == offset_sum(alphabet@, numbers@, i + 1) % n as int);
        }
        acc = wide as usize;
        i = i + 1;
    }
    let wide2: u128 = ((acc as u128) + (increment as u128)) % (n as u128);
    proof {
        assert(wide2 as int == attempt_offset(alphabet@, numbers@, increment as int));
    }
    wide2 as usize
}

/// Builds the working alphabet of one attempt: the base alphabet rotated
/// left and then reversed.
fn make_working(alphabet: &Vec<char>, off: usize) -> (wa: Vec<char>)
    requires
        off < alphabet@.len(),
    ensures
        wa@ == working_alphabet(alphabet@, off as int),
{
    let n = alphabet.len();
    let mut wa: Vec<char> = Vec::new();
    let mut t: usize = 0;
    while t < n
        invariant
            n == alphabet@.len(),
            off < n,
            0 <= t <= n,
            wa@.len() == t,
            forall|s: int|
                0 <= s < t ==> wa@[s] == working_alphabet(alphabet@, off as int)[s],
        decreases n - t,
    {
        let p = n - 1 - t;
        let idx = if p < n - off {
            off + p
        } else {
            p - (n - off)
        };
        wa.push(alphabet[idx]);
        proof {
            let w = working_alphabet(alphabet@, off as int);
            let rot = rotated(alphabet@, off as int);
            assert(rot.len() == n);
            assert(w[t as int] == rot[n - 1 - t]);
            if p < n - off {
                assert(rot[p as int] == alphabet@[off + p]);
            } else {
                assert(rot[p as int] == alphabet@[p - (n - off)]);
            }
        }
        t = t + 1;
    }
    proof {
        assert(wa@ =~= working_alphabet(alphabet@, off as int));
    }
    wa
}

} // verus!
