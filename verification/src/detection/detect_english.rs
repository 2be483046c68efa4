use vstd::prelude::*;

use crate::detection::trie::SpecNode;
use crate::detection::trie::Trie;
use crate::detection::trie::TrieIterator;
use crate::errors::CipherError;
use crate::text;

verus! {

/// The tokens of `s`: maximal runs of non-whitespace characters, collected
/// left to right with `cur` as the partial token already read.
pub open spec fn split_ws_acc(s: Seq<char>, cur: Seq<char>) -> Seq<Seq<char>>
    decreases s.len(),
{
    if s.len() == 0 {
        if cur.len() > 0 {
            seq![cur]
        } else {
            Seq::empty()
        }
    } else if text::is_space_char(s[0]) {
        if cur.len() > 0 {
            seq![cur] + split_ws_acc(s.drop_first(), Seq::empty())
        } else {
            split_ws_acc(s.drop_first(), Seq::empty())
        }
    } else {
        split_ws_acc(s.drop_first(), cur.push(s[0]))
    }
}

/// The whitespace-delimited tokens of `s`.
pub open spec fn split_ws(s: Seq<char>) -> Seq<Seq<char>> {
    split_ws_acc(s, Seq::empty())
}

/// The alphabetic characters of `s`, in order; everything else is stripped.
pub open spec fn strip_alpha(s: Seq<char>) -> Seq<char>
    decreases s.len(),
{
    if s.len() == 0 {
        Seq::empty()
    } else if text::is_alpha_char(s.last()) {
        strip_alpha(s.drop_last()).push(s.last())
    } else {
        strip_alpha(s.drop_last())
    }
}

/// Whether a token counts as an English word: stripped of non-alphabetic
/// characters and case-folded, it must be in the dictionary.
pub open spec fn token_matches(tok: Seq<char>, words: Set<Seq<char>>) -> bool {
    words.contains(text::lower_seq(strip_alpha(tok)))
}

/// How many of the tokens count as English words.
pub open spec fn count_matches(toks: Seq<Seq<char>>, words: Set<Seq<char>>) -> int
    decreases toks.len(),
{
    if toks.len() == 0 {
        0
    } else {
        count_matches(toks.drop_last(), words) + if token_matches(toks.last(), words) {
            1int
        } else {
            0int
        }
    }
}

/// The classification rule: a text is English-like when it has at least one
/// token and the matching fraction reaches the threshold (in thousandths).
/// A text with no tokens is never English-like.
pub open spec fn spec_is_english(words: Set<Seq<char>>, threshold: int, text: Seq<char>) -> bool {
    let toks = split_ws(text);
    toks.len() > 0 && 1000 * count_matches(toks, words) >= threshold * toks.len()
}

/// A language detector: a dictionary trie plus an acceptance threshold,
/// measured in thousandths of the token fraction that must match.
pub struct Detector {
    trie: Trie,
    threshold_millis: u64,
}

impl Detector {
    /// The acceptance threshold, in thousandths.
    pub closed spec fn threshold(self) -> int {
        self.threshold_millis as int
    }

    /// The model of the dictionary trie.
    pub closed spec fn model(self) -> SpecNode {
        self.trie@
    }

    /// The dictionary, as the set of case-folded words the trie holds.
    pub open spec fn dict_words(self) -> Set<Seq<char>> {
        crate::detection::trie::spec_words(self.model())
    }

    /// A well-formed detector holds a well-formed trie.
    pub proof fn lemma_wf_model(self)
        requires
            self.wf(),
        ensures
            crate::detection::trie::spec_wf(self.model()),
    {
    }

    /// The detector's invariant: a well-formed trie and a threshold in
    /// `(0, 1000]`.
    pub closed spec fn wf(self) -> bool {
        &&& self.trie.wf()
        &&& 0 < self.threshold_millis <= 1000
    }

    /// Wraps a loaded dictionary trie with the documented default threshold
    /// of 0.85.
    pub fn new(trie: Trie) -> (d: Detector)
        requires
            trie.wf(),
        ensures
            d.wf(),
            d.threshold() == 850,
            d.dict_words() == trie.words(),
    {
        Detector { trie, threshold_millis: 850 }
    }

    /// Reconfigures the threshold. Values outside `(0, 1000]` thousandths are
    /// rejected with a `ValidationError` and leave the detector unchanged.
    pub fn set_threshold(&mut self, threshold_millis: i64) -> (r: Result<(), CipherError>)
        requires
            old(self).wf(),
        ensures
            final(self).wf(),
            r is Ok <==> 0 < threshold_millis <= 1000,
            r is Ok ==> final(self).threshold() == threshold_millis
                && final(self).dict_words() == old(self).dict_words(),
            r is Err ==> r == Err::<(), CipherError>(CipherError::ValidationError) && *final(self)
                == *old(self),
    {
        if 0 < threshold_millis && threshold_millis <= 1000 {
            self.threshold_millis = threshold_millis as u64;
            Ok(())
        } else {
            Err(CipherError::ValidationError)
        }
    }

    /// A fresh enumeration of every dictionary word, exposed so that a
    /// brute-force search can try each entry as a candidate key.
    pub fn iter_dictionary_words(&self) -> (it: TrieIterator)
        ensures
            it.remaining() == crate::detection::trie::words_list(Seq::empty(), self.model()),
    {
        self.trie.iter_words()
    }

    /// Whether a single token, stripped and case-folded, is in the dictionary.
    fn contains_token(&self, tok: &Vec<char>) -> (r: bool)
        ensures
            r == token_matches(tok@, self.dict_words()),
    {
        let stripped = strip_alpha_vec(tok);
        let word = text::chars_to_string(&stripped);
        self.trie.contains(word.as_str())
    }

    /// Splits `text` on whitespace, strips each token of non-alphabetic
    /// characters, and classifies the text as English-like when the fraction
    /// of tokens found in the dictionary reaches the threshold. A text with
    /// no tokens (empty or all whitespace) is classified `false`.
    pub fn is_english(&self, text: &str) -> (r: bool)
        requires
            self.wf(),
        ensures
            r == spec_is_english(self.dict_words(), self.threshold(), text@),
    {
        let s = text::str_chars(text);
        let n = s.len();
        let mut i: usize = 0;
        let mut cur: Vec<char> = Vec::new();
        let mut total: usize = 0;
        let mut matches: usize = 0;
        let ghost mut toks_done: Seq<Seq<char>> = Seq::empty();
        proof {
            assert(text@.skip(0) =~= text@);
            assert(split_ws(text@) == toks_done + split_ws_acc(text@.skip(0), cur@)) by {
                assert(toks_done + split_ws_acc(text@, cur@) =~= split_ws_acc(text@, cur@));
                assert(cur@ =~= Seq::<char>::empty());
            }
        }
        while i < n
            invariant
                i <= n,
                n == s@.len(),
                s@ == text@,
                self.wf(),
                split_ws(text@) == toks_done + split_ws_acc(text@.skip(i as int), cur@),
                total == toks_done.len(),
                total + cur@.len() <= i,
                matches == count_matches(toks_done, self.dict_words()),
                0 <= matches <= total,
            decreases n - i,
        {
            let c = s[i];
            let ghost rest = text@.skip(i as int);
            proof {
                assert(rest.len() == n - i);
                assert(rest[0] == text@[i as int]);
                assert(rest.drop_first() =~= text@.skip(i as int + 1));
            }
            if text::is_space(c) {
                if cur.len() > 0 {
                    let is_word = self.contains_token(&cur);
                    proof {
                        let pushed = toks_done.push(cur@);
                        assert(pushed.drop_last() =~= toks_done);
                        assert(pushed.last() == cur@);
                        assert(count_matches(pushed, self.dict_words()) == matches + if is_word {
                            1int
                        } else {
                            0int
                        });
                        assert(toks_done + split_ws_acc(rest, cur@) =~= pushed + split_ws_acc(
                            rest.drop_first(),
                            Seq::empty(),
                        ));
                        toks_done = pushed;
                    }
                    if is_word {
                        matches = matches + 1;
                    }
                    total = total + 1;
                    cur = Vec::new();
                    proof {
                        assert(cur@ =~= Seq::<char>::empty());
                    }
                } else {
                    proof {
                        assert(cur@ =~= Seq::<char>::empty());
                    }
                }
            } else {
                cur.push(c);
            }
            i = i + 1;
        }
        proof {
            assert(text@.skip(n as int) =~= Seq::<char>::empty());
        }
        if cur.len() > 0 {
            let is_word = self.contains_token(&cur);
            proof {
                let pushed = toks_done.push(cur@);
                assert(pushed.drop_last() =~= toks_done);
                assert(pushed.last() == cur@);
                assert(count_matches(pushed, self.dict_words()) == matches + if is_word {
                    1int
                } else {
                    0int
                });
                assert(toks_done + split_ws_acc(text@.skip(n as int), cur@) =~= pushed);
                toks_done = pushed;
            }
            if is_word {
                matches = matches + 1;
            }
            total = total + 1;
        } else {
            proof {
                assert(toks_done + split_ws_acc(text@.skip(n as int), cur@) =~= toks_done);
            }
        }
        proof {
            assert(split_ws(text@) == toks_done);
        }
        if total == 0 {
            false
        } else {
            proof {
                assert((self.threshold_millis as u128) * (total as u128) <= 1000 * (
                0xFFFF_FFFF_FFFF_FFFFu128)) by (nonlinear_arith)
                    requires
                        self.threshold_millis as u128 <= 1000,
                        total as u128 <= 0xFFFF_FFFF_FFFF_FFFFu128,
                ;
            }
            (matches as u128) * 1000 >= (self.threshold_millis as u128) * (total as u128)
        }
    }
}

/// Executable stripping of non-alphabetic characters, matching `strip_alpha`.
fn strip_alpha_vec(v: &Vec<char>) -> (r: Vec<char>)
    ensures
        r@ == strip_alpha(v@),
{
    let n = v.len();
    let mut r: Vec<char> = Vec::new();
    let mut k: usize = 0;
    proof {
        assert(v@.take(0) =~= Seq::<char>::empty());
    }
    while k < n
        invariant
            k <= n,
            n == v@.len(),
            r@ == strip_alpha(v@.take(k as int)),
        decreases n - k,
    {
        let c = v[k];
        proof {
            assert(v@.take(k as int + 1).drop_last() =~= v@.take(k as int));
            assert(v@.take(k as int + 1).last() == v@[k as int]);
        }
        if c.is_alphabetic() {
            r.push(c);
        }
        k = k + 1;
    }
    proof {
        assert(v@.take(n as int) =~= v@);
    }
    r
}

} // verus!
