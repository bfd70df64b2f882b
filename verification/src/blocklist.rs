//! The blocklist filter: which candidate ids are rejected, and how the
//! configured word list is distilled from the raw one.

use vstd::prelude::*;

use crate::chars::{is_digit_char, lower_char, lower_seq, to_lower_char};

verus! {

/// True when `w` occurs in `s` starting at offset `i`.
pub open spec fn matches_at(s: Seq<char>, w: Seq<char>, i: int) -> bool {
    0 <= i && i + w.len() <= s.len() && s.subrange(i, i + w.len()) == w
}

/// True when `w` occurs somewhere in `s`.
pub open spec fn contains_sub(s: Seq<char>, w: Seq<char>) -> bool {
    exists|i: int| matches_at(s, w, i)
}

/// True when some character of `w` is a decimal digit.
pub open spec fn has_digit(w: Seq<char>) -> bool {
    exists|i: int| 0 <= i < w.len() && is_digit_char(w[i])
}

/// The layered matching rule for one blocklist word against a lowercased
/// candidate: a short candidate or word must match the candidate exactly, a
/// word holding a digit must match at the start or the end, and any other
/// word matches anywhere inside the candidate.
pub open spec fn word_blocks(id_low: Seq<char>, w: Seq<char>) -> bool {
    &&& w.len() <= id_low.len()
    &&& if id_low.len() <= 3 || w.len() <= 3 {
        id_low == w
    } else if has_digit(w) {
        matches_at(id_low, w, 0) || matches_at(id_low, w, id_low.len() - w.len())
    } else {
        contains_sub(id_low, w)
    }
}

/// True when the candidate, compared in lowercase, is rejected by some word
/// of the blocklist.
pub open spec fn is_blocked(blocklist: Seq<Seq<char>>, id: Seq<char>) -> bool {
    exists|k: int| 0 <= k < blocklist.len() && word_blocks(lower_seq(id), blocklist[k])
}

/// The character sequences of a vector of character vectors.
pub open spec fn word_seqs(ws: Seq<Vec<char>>) -> Seq<Seq<char>> {
    ws.map_values(|w: Vec<char>| w@)
}

/// The character sequences of a vector of strings.
pub open spec fn str_seqs(ws: Seq<String>) -> Seq<Seq<char>> {
    ws.map_values(|w: String| w@)
}

/// True when a raw blocklist word is worth keeping: at least three
/// characters, all of which occur in the alphabet when both are folded to
/// lowercase. Any other word can never match a generated id.
pub open spec fn keep_word(alpha: Seq<char>, w: Seq<char>) -> bool {
    w.len() >= 3 && forall|i: int|
        0 <= i < w.len() ==> lower_seq(alpha).contains(lower_char(#[trigger] w[i]))
}

/// The configured blocklist: the surviving raw words, folded to lowercase,
/// in their given order.
pub open spec fn filtered_blocklist(alpha: Seq<char>, words: Seq<Seq<char>>) -> Seq<Seq<char>>
    decreases words.len(),
{
    if words.len() == 0 {
        Seq::empty()
    } else {
        let rest = filtered_blocklist(alpha, words.drop_last());
        if keep_word(alpha, words.last()) {
            rest.push(lower_seq(words.last()))
        } else {
            rest
        }
    }
}

/// Reports whether some character of `w` is a decimal digit.
pub fn has_digit_word(w: &Vec<char>) -> (b: bool)
    ensures
        b == has_digit(w@),
{
    let mut i: usize = 0;
    while i < w.len()
        invariant
            0 <= i <= w@.len(),
            forall|j: int| 0 <= j < i ==> !is_digit_char(w@[j]),
        decreases w@.len() - i,
    {
        let u = w[i] as u32;
        if 48 <= u && u <= 57 {
            return true;
        }
        i = i + 1;
    }
    false
}

/// Compares `w` against the candidate folded to lowercase, at offset `off`.
pub fn ci_match_at(id: &Vec<char>, w: &Vec<char>, off: usize) -> (b: bool)
    requires
        off + w@.len() <= id@.len(),
    ensures
        b == matches_at(lower_seq(id@), w@, off as int),
{
    let idn = id.len();
    let mut j: usize = 0;
    while j < w.len()
        invariant
            0 <= j <= w@.len(),
            off + w@.len() <= id@.len(),
            idn == id@.len(),
            forall|t: int| 0 <= t < j ==> lower_seq(id@)[off + t] == w@[t],
        decreases w@.len() - j,
    {
        let c = to_lower_char(id[off + j]);
        if c != w[j] {
            proof {
                let low = lower_seq(id@);
                assert(low[off + j] != w@[j as int]);
                if low.subrange(off as int, off + w@.len()) == w@ {
                    assert(low.subrange(off as int, off + w@.len())[j as int] == w@[j as int]);
                    assert(false);
                }
            }
            return false;
        }
        j = j + 1;
    }
    proof {
        let low = lower_seq(id@);
        assert(low.subrange(off as int, off + w@.len()) =~= w@);
    }
    true
}

/// Searches the candidate, folded to lowercase, for `w` at any offset.
pub fn ci_contains(id: &Vec<char>, w: &Vec<char>) -> (b: bool)
    requires
        1 <= w@.len() <= id@.len(),
    ensures
        b == contains_sub(lower_seq(id@), w@),
{
    let bound = id.len() - w.len();
    let mut off: usize = 0;
    loop
        invariant
            0 <= off <= bound + 1,
            bound < usize::MAX,
            bound == id@.len() - w@.len(),
            1 <= w@.len() <= id@.len(),
            forall|i: int| 0 <= i < off ==> !matches_at(lower_seq(id@), w@, i),
        decreases bound + 1 - off,
    {
        if off > bound {
            proof {
                assert forall|i: int| !matches_at(lower_seq(id@), w@, i) by {
                    if 0 <= i < off {
                    } else {
                        assert(lower_seq(id@).len() == id@.len());
                    }
                }
            }
            return false;
        }
        if ci_match_at(id, w, off) {
            return true;
        }
        off = off + 1;
    }
}

/// Tests one candidate against the whole blocklist.
pub fn is_blocked_id(blocklist: &Vec<Vec<char>>, id: &Vec<char>) -> (b: bool)
    ensures
        b == is_blocked(word_seqs(blocklist@), id@),
{
    let ghost bl = word_seqs(blocklist@);
    let mut k: usize = 0;
    while k < blocklist.len()
        invariant
            0 <= k <= blocklist@.len(),
            bl == word_seqs(blocklist@),
            forall|j: int| 0 <= j < k ==> !word_blocks(lower_seq(id@), bl[j]),
        decreases blocklist@.len() - k,
    {
        let w = &blocklist[k];
        proof {
            assert(bl[k as int] == w@);
            assert(lower_seq(id@).len() == id@.len());
        }
        if w.len() <= id.len() {
            if id.len() <= 3 || w.len() <= 3 {
                if w.len() == id.len() {
                    if ci_match_at(id, w, 0) {
                        proof {
                            assert(lower_seq(id@).subrange(0, w@.len() as int) =~= lower_seq(id@));
                        }
                        return true;
                    }
                    proof {
                        if lower_seq(id@) == w@ {
                            assert(lower_seq(id@).subrange(0, w@.len() as int) =~= w@);
                            assert(false);
                        }
                    }
                } else {
                    proof {
                        assert(lower_seq(id@) != w@);
                    }
                }
            } else if has_digit_word(w) {
                if ci_match_at(id, w, 0) {
                    return true;
                }
                if ci_match_at(id, w, id.len() - w.len()) {
                    return true;
                }
            } else {
                if ci_contains(id, w) {
                    return true;
                }
            }
        }
        k = k + 1;
    }
    false
}

/// Folds a word to lowercase, character by character.
pub fn lower_word(w: &Vec<char>) -> (r: Vec<char>)
    ensures
        r@ == lower_seq(w@),
{
    let mut r: Vec<char> = Vec::new();
    let mut i: usize = 0;
    while i < w.len()
        invariant
            0 <= i <= w@.len(),
            r@ =~= lower_seq(w@).take(i as int),
        decreases w@.len() - i,
    {
        r.push(to_lower_char(w[i]));
        i = i + 1;
    }
    proof {
        assert(lower_seq(w@).take(w@.len() as int) =~= lower_seq(w@));
    }
    r
}

/// Distills the configured blocklist from the raw words: drops words that
/// can never match a generated id and folds the rest to lowercase.
pub fn build_blocklist(alphabet: &Vec<char>, words: &Vec<Vec<char>>) -> (r: Vec<Vec<char>>)
    ensures
        word_seqs(r@) == filtered_blocklist(
            alphabet@,
            word_seqs(words@),
        ),
{
    let low_alpha = lower_word(alphabet);
    let ghost ws = word_seqs(words@);
    let mut r: Vec<Vec<char>> = Vec::new();
    let mut k: usize = 0;
    proof {
        assert(ws.take(0) =~= Seq::<Seq<char>>::empty());
    }
    while k < words.len()
        invariant
            0 <= k <= words@.len(),
            ws == word_seqs(words@),
            low_alpha@ == lower_seq(alphabet@),
            word_seqs(r@) == filtered_blocklist(alphabet@, ws.take(k as int)),
        decreases words@.len() - k,
    {
        let w = &words[k];
        proof {
            assert(ws[k as int] == w@);
            assert(ws.take(k + 1).drop_last() =~= ws.take(k as int));
            assert(ws.take(k + 1).last() == w@);
        }
        let keep = if w.len() < 3 {
            false
        } else {
            let mut i: usize = 0;
            let mut all_in: bool = true;
            while i < w.len()
                invariant
                    0 <= i <= w@.len(),
                    low_alpha@ == lower_seq(alphabet@),
                    all_in == (forall|j: int|
                        0 <= j < i ==> lower_seq(alphabet@).contains(
                            lower_char(#[trigger] w@[j]),
                        )),
                decreases w@.len() - i,
    {
                let c = to_lower_char(w[i]);
                match crate::chars::find_char_from(&low_alpha, 0, c) {
                    Some(_) => {
                        proof {
                            assert(lower_seq(alphabet@).contains(lower_char(w@[i as int])));
                        }
                    },
                    None => {
                        proof {
                            assert(!lower_seq(alphabet@).contains(lower_char(w@[i as int])));
                        }
                        all_in = false;
                    },
                }
                i = i + 1;
            }
            all_in
        };
        if keep {
            proof {
                assert(keep_word(alphabet@, w@));
            }
            let lw = lower_word(w);
            r.push(lw);
            proof {
                assert(word_seqs(r@) =~= filtered_blocklist(
                    alphabet@,
                    ws.take(k + 1),
                ));
            }
        } else {
            proof {
                assert(!keep_word(alphabet@, w@));
                assert(word_seqs(r@) =~= filtered_blocklist(
                    alphabet@,
                    ws.take(k + 1),
                ));
            }
        }
        k = k + 1;
    }
    proof {
        assert(ws.take(ws.len() as int) =~= ws);
    }
    r
}

} // verus!
