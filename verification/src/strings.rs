use crate::chain::{cap_add, pair_count, Chain, ChainError};
use crate::rng::SplitMix64;
use vstd::prelude::*;
use vstd::string::StrSliceExecFns;
use vstd::string::StringExecFns;

verus! {

/// Index of the first space character of `s`, or `s.len()` if there is
/// none.
pub open spec fn first_space(s: Seq<char>) -> nat
    decreases s.len(),
{
    if s.len() == 0 {
        0
    } else if s[0] == ' ' {
        0
    } else {
        1 + first_space(s.skip(1))
    }
}

/// The words of `s`: the segments between space characters, in order.
/// Empty segments are kept, and a string without spaces is one word.
pub open spec fn split_at_spaces(s: Seq<char>) -> Seq<Seq<char>>
    decreases s.len(),
{
    let j = first_space(s);
    if j >= s.len() {
        seq![s]
    } else {
        seq![s.take(j as int)] + split_at_spaces(s.skip(j as int + 1))
    }
}

/// The words joined with single spaces between them.
pub open spec fn join_with_spaces(ws: Seq<Seq<char>>) -> Seq<char>
    decreases ws.len(),
{
    if ws.len() == 0 {
        Seq::<char>::empty()
    } else if ws.len() == 1 {
        ws[0]
    } else {
        ws[0] + seq![' '] + join_with_spaces(ws.skip(1))
    }
}

/// `first_space` is the position of the space that ends the first word.
proof fn lemma_first_space_at(s: Seq<char>, j: int)
    requires
        0 <= j <= s.len(),
        forall|k: int| 0 <= k < j ==> s[k] != ' ',
        j < s.len() ==> s[j] == ' ',
    ensures
        first_space(s) == j,
    decreases s.len(),
{
    if j == 0 {
    } else {
        assert(s[0] != ' ');
        assert forall|k: int| 0 <= k < j - 1 implies s.skip(1)[k] != ' ' by {
            assert(s.skip(1)[k] == s[k + 1]);
        }
        assert(j - 1 < s.skip(1).len() ==> s.skip(1)[j - 1] == ' ');
        lemma_first_space_at(s.skip(1), j - 1);
    }
}

/// A split always yields at least one word.
proof fn lemma_split_len(s: Seq<char>)
    ensures
        split_at_spaces(s).len() >= 1,
{
}

/// Appending one more word to a joined sequence.
proof fn lemma_join_append(ws: Seq<Seq<char>>, w: Seq<char>)
    ensures
        join_with_spaces(ws.push(w)) == (if ws.len() == 0 {
            w
        } else {
            join_with_spaces(ws) + seq![' '] + w
        }),
    decreases ws.len(),
{
    reveal_with_fuel(join_with_spaces, 3);
    if ws.len() == 0 {
        assert(ws.push(w) =~= seq![w]);
        assert(join_with_spaces(ws.push(w)) == w);
    } else if ws.len() == 1 {
        assert(ws.push(w).len() == 2);
        assert(ws.push(w)[0] == ws[0]);
        assert(ws.push(w).skip(1) =~= seq![w]);
        assert(join_with_spaces(ws.push(w)) == ws[0] + seq![' '] + w);
        assert(join_with_spaces(ws) == ws[0]);
        assert(join_with_spaces(ws) + seq![' '] + w =~= ws[0] + seq![' '] + w);
    } else {
        assert(ws.push(w).skip(1) =~= ws.skip(1).push(w));
        lemma_join_append(ws.skip(1), w);
        assert(ws.push(w)[0] == ws[0]);
        assert(join_with_spaces(ws.push(w)) == ws[0] + seq![' '] + (join_with_spaces(ws.skip(1))
            + seq![' '] + w));
        assert(join_with_spaces(ws) == ws[0] + seq![' '] + join_with_spaces(ws.skip(1)));
        assert(ws[0] + seq![' '] + (join_with_spaces(ws.skip(1)) + seq![' '] + w) =~= (ws[0]
            + seq![' '] + join_with_spaces(ws.skip(1))) + seq![' '] + w);
        assert(join_with_spaces(ws.push(w)) =~= join_with_spaces(ws) + seq![' '] + w);
    }
}

/// Splits `s` at every space character, keeping empty words.
fn split_spaces(s: &str) -> (r: Vec<String>)
    ensures
        r.deep_view() == split_at_spaces(s@),
{
    let n = s.unicode_len();
    let mut r: Vec<String> = Vec::new();
    let mut word_start: usize = 0;
    let mut i: usize = 0;
    proof {
        assert(s@.skip(0) =~= s@);
        assert(r.deep_view() =~= Seq::<Seq<char>>::empty());
        assert(r.deep_view() + split_at_spaces(s@) =~= split_at_spaces(s@));
    }
    while i < n
        invariant
            n == s@.len(),
            word_start <= i <= n,
            forall|k: int| word_start <= k < i ==> s@[k] != ' ',
            r.deep_view() + split_at_spaces(s@.skip(word_start as int)) == split_at_spaces(s@),
        decreases n - i,
    {
        if s.get_char(i) == ' ' {
            let w = s.substring_char(word_start, i).to_owned();
            let ghost oldr = r.deep_view();
            r.push(w);
            proof {
                let t = s@.skip(word_start as int);
                assert forall|k: int| 0 <= k < i - word_start implies t[k] != ' ' by {
                    assert(t[k] == s@[word_start + k]);
                }
                assert(t[i - word_start] == s@[i as int]);
                lemma_first_space_at(t, i - word_start);
                assert(t.take(i - word_start) =~= s@.subrange(word_start as int, i as int));
                assert(t.skip(i - word_start + 1) =~= s@.skip(i as int + 1));
                assert(split_at_spaces(t) == seq![w@] + split_at_spaces(s@.skip(i as int + 1)));
                assert(r.deep_view() =~= oldr.push(w@));
                assert(r.deep_view() + split_at_spaces(s@.skip(i as int + 1)) =~= oldr + (seq![w@]
                    + split_at_spaces(s@.skip(i as int + 1))));
                assert(oldr + (seq![w@] + split_at_spaces(s@.skip(i as int + 1))) =~= oldr
                    + split_at_spaces(t));
            }
            word_start = i + 1;
        }
        i = i + 1;
    }
    let w = s.substring_char(word_start, n).to_owned();
    let ghost oldr = r.deep_view();
    r.push(w);
    proof {
        let t = s@.skip(word_start as int);
        assert forall|k: int| 0 <= k < t.len() implies t[k] != ' ' by {
            assert(t[k] == s@[word_start + k]);
        }
        lemma_first_space_at(t, t.len() as int);
        assert(split_at_spaces(t) == seq![t]);
        assert(w@ =~= t);
        assert(r.deep_view() =~= oldr.push(w@));
        assert(r.deep_view() =~= oldr + seq![t]);
        assert(oldr + seq![t] =~= oldr + split_at_spaces(t));
    }
    r
}

/// Joins the words with single spaces.
fn join_spaced(words: &Vec<String>) -> (r: String)
    ensures
        r@ == join_with_spaces(words.deep_view()),
{
    let mut r = String::new();
    let n = words.len();
    let mut i: usize = 0;
    proof {
        assert(words.deep_view().take(0) =~= Seq::<Seq<char>>::empty());
    }
    while i < n
        invariant
            n == words@.len(),
            i <= n,
            r@ == join_with_spaces(words.deep_view().take(i as int)),
        decreases n - i,
    {
        if i > 0 {
            r.append(" ");
            proof {
                reveal_strlit(" ");
                assert(" "@ =~= seq![' ']);
            }
        }
        r.append(words[i].as_str());
        proof {
            let dv = words.deep_view();
            assert(dv[i as int] == words@[i as int]@);
            assert(dv.take(i as int + 1) =~= dv.take(i as int).push(dv[i as int]));
            lemma_join_append(dv.take(i as int), dv[i as int]);
            if i > 0 {
                assert(r@ =~= (join_with_spaces(dv.take(i as int)) + seq![' ']) + dv[i as int]);
                assert((join_with_spaces(dv.take(i as int)) + seq![' ']) + dv[i as int] =~= (
                join_with_spaces(dv.take(i as int)) + seq![' '] + dv[i as int]));
            }
        }
        i = i + 1;
    }
    proof {
        assert(words.deep_view().take(n as int) =~= words.deep_view());
    }
    r
}

impl Chain<String> {
    /// A chain for strings whose sentinels are the Unicode start-of-text
    /// and end-of-text control characters, so any ordinary word can be fed.
    pub fn for_strings() -> (c: Chain<String>)
        ensures
            c.wf(),
            c.start_token() == seq!['\u{0002}'],
            c.end_token() == seq!['\u{0003}'],
            forall|v: Seq<char>| c.has_token(v) <==> v == c.start_token() || v == c.end_token(),
            forall|a: Seq<char>, b: Seq<char>| c.trans_count(a, b) == 0,
    {
        let start = "\u{0002}".to_owned();
        let end = "\u{0003}".to_owned();
        proof {
            reveal_strlit("\u{0002}");
            reveal_strlit("\u{0003}");
            assert(start@ =~= seq!['\u{0002}']);
            assert(end@ =~= seq!['\u{0003}']);
        }
        Chain::new(start, end)
    }

    /// Feeds a line of text: the line is split at every space character
    /// and the words are fed as one training sequence.  Ending punctuation
    /// should already have been removed by the caller.
    pub fn feed_str(&mut self, string: &str)
        requires
            old(self).wf(),
        ensures
            final(self).wf(),
            ({
                let fed = split_at_spaces(string@);
                let ws = old(self).walk_seq(fed);
                &&& final(self).start_token() == old(self).start_token()
                &&& final(self).end_token() == old(self).end_token()
                &&& forall|v: Seq<char>|
                    final(self).has_token(v) <==> old(self).has_token(v) || fed.contains(v)
                &&& forall|a: Seq<char>, b: Seq<char>|
                    final(self).trans_count(a, b) == cap_add(
                        old(self).trans_count(a, b),
                        pair_count(ws, a, b),
                    )
            }),
    {
        let words = split_spaces(string);
        proof {
            lemma_split_len(string@);
            assert(words@.len() == words.deep_view().len());
        }
        self.feed(words);
    }

    /// Generates a sequence of words and formats it for reading: the words
    /// joined with single spaces, with a terminal period appended.
    pub fn generate_str(&self, rng: &mut SplitMix64) -> (r: String)
        requires
            self.wf(),
        ensures
            exists|out: Seq<Seq<char>>|
                #[trigger] self.can_generate(out) && r@ == join_with_spaces(out) + seq!['.'],
    {
        let words = self.generate(rng);
        let mut r = join_spaced(&words);
        r.append(".");
        proof {
            reveal_strlit(".");
            assert("."@ =~= seq!['.']);
            assert(self.can_generate(words.deep_view()) && r@ == join_with_spaces(
                words.deep_view(),
            ) + seq!['.']);
        }
        r
    }

    /// Generates a formatted sequence starting from the given word.
    /// Returns `TokenNotFound` exactly when the chain has never seen it.
    pub fn generate_str_from_token(&self, string: &str, rng: &mut SplitMix64) -> (r: Result<
        String,
        ChainError,
    >)
        requires
            self.wf(),
        ensures
            match r {
                Ok(s) => self.has_token(string@) && (exists|out: Seq<Seq<char>>|
                    #[trigger] self.can_generate_from(string@, out) && s@ == join_with_spaces(out)
                        + seq!['.']),
                Err(e) => !self.has_token(string@) && e == ChainError::TokenNotFound,
            },
    {
        let token = string.to_owned();
        match self.generate_from_token(token, rng) {
            Ok(words) => {
                let mut r = join_spaced(&words);
                r.append(".");
                proof {
                    reveal_strlit(".");
                    assert("."@ =~= seq!['.']);
                    assert(self.can_generate_from(string@, words.deep_view()) && r@
                        == join_with_spaces(words.deep_view()) + seq!['.']);
                }
                Ok(r)
            },
            Err(e) => Err(e),
        }
    }
}

} // verus!
