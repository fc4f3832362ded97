//! Splitting text into tokens.

use vstd::prelude::*;
use vstd::std_specs::iter::IteratorSpec;
use crate::chars::{is_retained, is_space, is_word_char};

verus! {

/// The text with every character that is neither alphanumeric nor
/// whitespace removed.
pub open spec fn retained(text: Seq<char>) -> Seq<char> {
    text.filter(|c: char| is_retained(c))
}

/// Length of the longest prefix of `s` that holds no whitespace.
pub open spec fn leading_word_len(s: Seq<char>) -> nat
    decreases s.len(),
{
    if s.len() == 0 || is_space(s[0]) {
        0
    } else {
        1 + leading_word_len(s.drop_first())
    }
}

/// The leading word is no longer than the text, and not empty where the
/// text starts with a character that is no whitespace.
pub proof fn lemma_leading_word_len_bound(s: Seq<char>)
    ensures
        leading_word_len(s) <= s.len(),
        s.len() > 0 && !is_space(s[0]) ==> leading_word_len(s) >= 1,
    decreases s.len(),
{
    if s.len() != 0 && !is_space(s[0]) {
        lemma_leading_word_len_bound(s.drop_first());
    }
}

/// The maximal runs of non-whitespace characters of `s`, left to right.
/// Leading whitespace is skipped, the longest whitespace-free prefix is one
/// word, and the rest is split in the same way.
pub open spec fn words(s: Seq<char>) -> Seq<Seq<char>>
    decreases s.len(),
    via words_decreases
{
    if s.len() == 0 {
        Seq::empty()
    } else if is_space(s[0]) {
        words(s.drop_first())
    } else {
        let n = leading_word_len(s) as int;
        seq![s.take(n)] + words(s.skip(n))
    }
}

#[via_fn]
proof fn words_decreases(s: Seq<char>) {
    lemma_leading_word_len_bound(s);
}

/// The tokens of a text: its retained characters, split on whitespace runs.
pub open spec fn tokens_of(text: Seq<char>) -> Seq<Seq<char>> {
    words(retained(text))
}

/// Whether `s` is made of token characters only.
pub open spec fn all_word_chars(s: Seq<char>) -> bool {
    forall|i: int| 0 <= i < s.len() ==> is_word_char(#[trigger] s[i])
}

/// A whitespace-free run that ends where whitespace or the end follows is
/// as long as the leading word.
pub proof fn lemma_leading_word_len_of_run(run: Seq<char>, rest: Seq<char>)
    requires
        forall|i: int| 0 <= i < run.len() ==> !is_space(#[trigger] run[i]),
        rest.len() == 0 || is_space(rest[0]),
    ensures
        leading_word_len(run + rest) == run.len(),
    decreases run.len(),
{
    if run.len() == 0 {
        assert(run + rest =~= rest);
    } else {
        assert((run + rest)[0] == run[0]);
        assert((run + rest).drop_first() =~= run.drop_first() + rest);
        assert forall|i: int| 0 <= i < run.drop_first().len() implies !is_space(
            #[trigger] run.drop_first()[i],
        ) by {
            assert(run.drop_first()[i] == run[i + 1]);
        }
        lemma_leading_word_len_of_run(run.drop_first(), rest);
    }
}

/// A non-empty whitespace-free run followed by whitespace or by the end is
/// the first word.
pub proof fn lemma_words_after_run(run: Seq<char>, rest: Seq<char>)
    requires
        run.len() > 0,
        forall|i: int| 0 <= i < run.len() ==> !is_space(#[trigger] run[i]),
        rest.len() == 0 || is_space(rest[0]),
    ensures
        words(run + rest) == seq![run] + words(rest),
{
    lemma_leading_word_len_of_run(run, rest);
    let s = run + rest;
    assert(s[0] == run[0]);
    assert(s.take(run.len() as int) =~= run);
    assert(s.skip(run.len() as int) =~= rest);
}

/// Whitespace in front of a text adds no word.
pub proof fn lemma_words_skip_space(c: char, rest: Seq<char>)
    requires
        is_space(c),
    ensures
        words(seq![c] + rest) == words(rest),
{
    assert((seq![c] + rest).drop_first() =~= rest);
}

/// The leading word ends at the first whitespace or at the end of the
/// text, and holds no whitespace itself.
pub proof fn lemma_leading_word(s: Seq<char>)
    ensures
        leading_word_len(s) <= s.len(),
        forall|i: int| 0 <= i < leading_word_len(s) ==> !is_space(#[trigger] s[i]),
        leading_word_len(s) < s.len() ==> is_space(s[leading_word_len(s) as int]),
    decreases s.len(),
{
    if s.len() != 0 && !is_space(s[0]) {
        let tail = s.drop_first();
        lemma_leading_word(tail);
        assert forall|i: int| 0 <= i < leading_word_len(s) implies !is_space(#[trigger] s[i]) by {
            if i > 0 {
                assert(s[i] == tail[i - 1]);
            }
        }
        if leading_word_len(s) < s.len() {
            assert(s[leading_word_len(s) as int] == tail[leading_word_len(tail) as int]);
        }
    }
}

/// Two texts joined by one whitespace character have the words of the
/// first followed by the words of the second.
pub proof fn lemma_words_concat(x: Seq<char>, c: char, y: Seq<char>)
    requires
        is_space(c),
    ensures
        words(x + seq![c] + y) == words(x) + words(y),
    decreases x.len(),
{
    let joined = x + seq![c] + y;
    if x.len() == 0 {
        assert(joined =~= seq![c] + y);
        lemma_words_skip_space(c, y);
        assert(words(x) + words(y) =~= words(y));
    } else if is_space(x[0]) {
        assert(joined[0] == x[0]);
        assert(joined.drop_first() =~= x.drop_first() + seq![c] + y);
        lemma_words_concat(x.drop_first(), c, y);
    } else {
        lemma_leading_word(x);
        let n = leading_word_len(x) as int;
        let run = x.take(n);
        let rest = x.skip(n);
        let tail = rest + seq![c] + y;
        assert(joined =~= run + tail);
        assert(tail[0] == if rest.len() > 0 {
            rest[0]
        } else {
            c
        });
        assert(rest.len() > 0 ==> rest[0] == x[n]);
        lemma_words_after_run(run, tail);
        lemma_words_concat(rest, c, y);
        assert(seq![run] + (words(rest) + words(y)) =~= (seq![run] + words(rest)) + words(y));
    }
}

/// The words of a text made of retained characters are non-empty and made
/// of token characters.
pub proof fn lemma_words_are_runs(s: Seq<char>)
    requires
        forall|i: int| 0 <= i < s.len() ==> is_retained(#[trigger] s[i]),
    ensures
        forall|k: int|
            0 <= k < words(s).len() ==> (#[trigger] words(s)[k]).len() > 0 && all_word_chars(
                words(s)[k],
            ),
    decreases s.len(),
{
    if s.len() == 0 {
        assert(words(s).len() == 0);
    } else if is_space(s[0]) {
        let tail = s.drop_first();
        assert forall|i: int| 0 <= i < tail.len() implies is_retained(#[trigger] tail[i]) by {
            assert(tail[i] == s[i + 1]);
        }
        lemma_words_are_runs(tail);
        assert(words(s) == words(tail));
    } else {
        lemma_leading_word(s);
        let n = leading_word_len(s) as int;
        let run = s.take(n);
        let rest = s.skip(n);
        assert forall|i: int| 0 <= i < rest.len() implies is_retained(#[trigger] rest[i]) by {
            assert(rest[i] == s[i + n]);
        }
        lemma_words_are_runs(rest);
        assert(all_word_chars(run)) by {
            assert forall|i: int| 0 <= i < run.len() implies is_word_char(#[trigger] run[i]) by {
                assert(run[i] == s[i]);
            }
        }
        assert forall|k: int| 0 <= k < words(s).len() implies (#[trigger] words(s)[k]).len() > 0
            && all_word_chars(words(s)[k]) by {
            if k > 0 {
                assert(words(s)[k] == words(rest)[k - 1]);
            } else {
                lemma_leading_word_len_bound(s);
                assert(words(s)[0] == run);
            }
        }
    }
}

/// Every token is non-empty and made of token characters: alphanumeric
/// and not whitespace.
pub proof fn lemma_tokens_are_words(text: Seq<char>)
    ensures
        forall|k: int|
            0 <= k < tokens_of(text).len() ==> (#[trigger] tokens_of(text)[k]).len() > 0
                && all_word_chars(tokens_of(text)[k]),
{
    let kept = retained(text);
    assert forall|i: int| 0 <= i < kept.len() implies is_retained(#[trigger] kept[i]) by {
        text.lemma_filter_pred(|c: char| is_retained(c), i);
    }
    lemma_words_are_runs(kept);
}

/// A text of whitespace alone has no word.
pub proof fn lemma_words_of_spaces(s: Seq<char>)
    requires
        forall|i: int| 0 <= i < s.len() ==> is_space(#[trigger] s[i]),
    ensures
        words(s) == Seq::<Seq<char>>::empty(),
    decreases s.len(),
{
    if s.len() > 0 {
        let tail = s.drop_first();
        assert forall|i: int| 0 <= i < tail.len() implies is_space(#[trigger] tail[i]) by {
            assert(tail[i] == s[i + 1]);
        }
        lemma_words_of_spaces(tail);
    }
}

/// A text without a token character has no token: the empty text, and
/// any text of punctuation and whitespace alone.
pub proof fn lemma_no_word_chars_no_tokens(text: Seq<char>)
    requires
        forall|i: int| 0 <= i < text.len() ==> !is_word_char(#[trigger] text[i]),
    ensures
        tokens_of(text) == Seq::<Seq<char>>::empty(),
{
    let keep = |c: char| is_retained(c);
    let kept = retained(text);
    assert forall|i: int| 0 <= i < kept.len() implies is_space(#[trigger] kept[i]) by {
        text.lemma_filter_pred(keep, i);
        assert(kept.contains(kept[i]));
        text.lemma_filter_contains_rev(keep, kept[i]);
        let k = choose|k: int| 0 <= k < text.len() && text[k] == kept[i];
        assert(!is_word_char(text[k]));
    }
    lemma_words_of_spaces(kept);
}

/// Nothing is removed from a text made of retained characters.
pub proof fn lemma_retained_all(s: Seq<char>)
    requires
        forall|i: int| 0 <= i < s.len() ==> is_retained(#[trigger] s[i]),
    ensures
        retained(s) == s,
    decreases s.len(),
{
    reveal(Seq::filter);
    if s.len() > 0 {
        let front = s.drop_last();
        assert forall|i: int| 0 <= i < front.len() implies is_retained(#[trigger] front[i]) by {
            assert(front[i] == s[i]);
        }
        lemma_retained_all(front);
        assert(front.push(s.last()) =~= s);
    }
}

/// A token, read as a text, is its own and only token.
pub proof fn lemma_tokens_of_word(word: Seq<char>)
    requires
        word.len() > 0,
        all_word_chars(word),
    ensures
        tokens_of(word) == seq![word],
{
    lemma_retained_all(word);
    lemma_words_after_run(word, Seq::<char>::empty());
    assert(word + Seq::<char>::empty() =~= word);
    assert(seq![word] + Seq::<Seq<char>>::empty() =~= seq![word]);
}

/// Two texts joined by a space have the tokens of the first followed by
/// the tokens of the second.
pub proof fn lemma_tokens_of_concat(a: Seq<char>, b: Seq<char>)
    ensures
        tokens_of(a + seq![' '] + b) == tokens_of(a) + tokens_of(b),
{
    let keep = |c: char| is_retained(c);
    Seq::filter_distributes_over_add(a + seq![' '], b, keep);
    Seq::filter_distributes_over_add(a, seq![' '], keep);
    assert(seq![' '].filter(keep) =~= seq![' ']) by {
        reveal(Seq::filter);
        assert(seq![' '].drop_last() =~= Seq::<char>::empty());
        assert(seq![' '].last() == ' ');
        assert(Seq::<char>::empty().filter(keep) =~= Seq::<char>::empty());
    }
    lemma_words_concat(retained(a), ' ', retained(b));
}

/// Splits `text` into its tokens: characters that are neither alphanumeric
/// nor whitespace are dropped, and what is left is cut at whitespace runs.
/// A text without alphanumeric characters has no token at all.
pub fn tokenize(text: &str) -> (tokens: Vec<String>)
    ensures
        tokens.deep_view() == tokens_of(text@),
        forall|k: int| 0 <= k < tokens.len() ==> (#[trigger] tokens[k])@.len() > 0,
{
    broadcast use vstd::string::group_string_axioms;

    proof {
        lemma_tokens_are_words(text@);
    }

    let mut tokens: Vec<String> = Vec::new();
    let mut current = String::new();
    let mut chars = text.chars();
    let ghost mut rest: Seq<char> = text@;
    assert(tokens.deep_view() =~= Seq::<Seq<char>>::empty());
    assert(current@ + retained(rest) =~= retained(rest));
    loop
        invariant
            chars.remaining() == rest,
            all_word_chars(current@),
            tokens_of(text@) == tokens.deep_view() + words(current@ + retained(rest)),
        ensures
            rest.len() == 0,
        decreases rest.len(),
    {
        let ghost before = tokens.deep_view();
        let ghost run = current@;
        match chars.next() {
            None => {
                break ;
            },
            Some(c) => {
                proof {
                    let tail = rest.drop_first();
                    assert(rest =~= seq![c] + tail);
                    tail.lemma_filter_prepend(c, |c: char| is_retained(c));
                    rest = tail;
                }
                if c.is_whitespace() {
                    assert(run + (seq![c] + retained(rest)) =~= run + seq![c] + retained(rest));
                    if !current.as_str().is_empty() {
                        proof {
                            lemma_words_after_run(run, seq![c] + retained(rest));
                            lemma_words_skip_space(c, retained(rest));
                        }
                        tokens.push(current);
                        current = String::new();
                        assert(tokens.deep_view() =~= before.push(run));
                        assert(current@ + retained(rest) =~= retained(rest));
                        assert(before + (seq![run] + words(retained(rest))) =~= before.push(run)
                            + words(retained(rest)));
                    } else {
                        proof {
                            lemma_words_skip_space(c, retained(rest));
                            assert(run + (seq![c] + retained(rest)) =~= seq![c] + retained(rest));
                            assert(current@ + retained(rest) =~= retained(rest));
                        }
                    }
                } else if c.is_alphanumeric() {
                    current.push(c);
                    assert(run + (seq![c] + retained(rest)) =~= current@ + retained(rest));
                }
            },
        }
    }
    proof {
        assert(rest =~= Seq::<char>::empty());
        assert(retained(rest) =~= Seq::<char>::empty());
        assert(current@ + retained(rest) =~= current@);
    }
    if !current.as_str().is_empty() {
        let ghost before = tokens.deep_view();
        let ghost run = current@;
        proof {
            lemma_words_after_run(run, Seq::<char>::empty());
            assert(run + Seq::<char>::empty() =~= run);
        }
        tokens.push(current);
        assert(tokens.deep_view() =~= before.push(run));
        assert(before + (seq![run] + Seq::<Seq<char>>::empty()) =~= before.push(run));
    } else {
        assert(tokens.deep_view() + Seq::<Seq<char>>::empty() =~= tokens.deep_view());
    }
    assert forall|k: int| 0 <= k < tokens.len() implies (#[trigger] tokens[k])@.len() > 0 by {
        assert(tokens[k]@ == tokens.deep_view()[k]);
    }
    tokens
}

} // verus!
