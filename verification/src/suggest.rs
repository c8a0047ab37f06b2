//! The suggestion engine: trigram, then bigram, then prefix completion.
use crate::ngram_cache::{
    completes, first_match, opt_view, prefix_candidates, unigram_choice, NgramCache,
    PREFIX_BUCKET_SIZE,
};
use crate::pattern::{compile, find_all, regex_accepts, regex_find_all, regex_replace_all, replace_all};
use crate::state::AppState;
use crate::text::{
    byte_len, chars_of, has_min_bytes, is_white_space, lowercase, string_of, to_lowercase, trim,
    trim_chars, trim_end, trim_end_chars, white_space,
};
use vstd::prelude::*;

verus! {

/// A word: letters and digits, possibly joined once by an apostrophe or a
/// hyphen to more letters and digits.
pub const WORD_PATTERN: &'static str = "[\\p{L}\\p{N}]+(?:['\\-][\\p{L}\\p{N}]+)?";

/// A run of white space.
pub const SPACE_PATTERN: &'static str = "\\s+";

/// `s` trimmed, with every run of white space made a single space.
pub open spec fn spaces_normalized(s: Seq<char>) -> Seq<char> {
    if regex_accepts(SPACE_PATTERN@) {
        regex_replace_all(SPACE_PATTERN@, trim(s), " "@)
    } else {
        trim(s)
    }
}

/// The words of `text`, lower-cased, in order.
pub open spec fn context_words(text: Seq<char>) -> Seq<Seq<char>> {
    if regex_accepts(WORD_PATTERN@) {
        regex_find_all(WORD_PATTERN@, text).map_values(|w: Seq<char>| lowercase(w))
    } else {
        Seq::empty()
    }
}

/// A list of words as characters.
pub open spec fn words_of(v: Seq<String>) -> Seq<Seq<char>> {
    v.map_values(|w: String| w@)
}

/// The word predicted after `context` that starts with `prefix`: from the
/// last two words if they have a follower that fits, else from the last
/// word, else (for a prefix of at least `min_prefix` bytes) the best
/// completion.
pub open spec fn prediction(
    cache: NgramCache,
    context: Seq<Seq<char>>,
    prefix: Seq<char>,
    min_prefix: nat,
) -> Option<Seq<char>> {
    let n = context.len();
    let tri = if n >= 2 {
        first_match(cache.trigram_bucket(context[n - 2], context[n - 1]), prefix)
    } else {
        None
    };
    let bi = if n >= 1 {
        first_match(cache.bigram_bucket(context[n - 1]), prefix)
    } else {
        None
    };
    if tri is Some {
        tri
    } else if bi is Some {
        bi
    } else if byte_len(prefix) >= min_prefix {
        unigram_choice(cache.prefix_bucket(prefix), prefix)
    } else {
        None
    }
}

/// Whether the typed text ends in white space, that is after a finished word.
pub open spec fn ends_in_space(buffer: Seq<char>) -> bool {
    buffer.len() > 0 && is_white_space(buffer.last())
}

/// The suggestion for typed text `buffer` whose lower-cased, space-normalized
/// form is `norm` with words `words`, as the full text and the part still to
/// be typed. After white space the next word is predicted and appended to
/// the text; otherwise the last word is completed once it takes at least
/// `min_prefix` bytes.
pub open spec fn suggestion_from(
    cache: NgramCache,
    buffer: Seq<char>,
    norm: Seq<char>,
    words: Seq<Seq<char>>,
    min_prefix: nat,
) -> (Option<Seq<char>>, Option<Seq<char>>) {
    if norm.len() == 0 || words.len() == 0 {
        (None, None)
    } else if ends_in_space(buffer) {
        match prediction(cache, words, Seq::empty(), min_prefix) {
            Some(w) => (Some(trim_end(buffer) + seq![' '] + w), Some(w)),
            None => (None, None),
        }
    } else {
        let prefix = words.last();
        if byte_len(prefix) < min_prefix {
            (None, None)
        } else {
            match prediction(cache, words.drop_last(), prefix, min_prefix) {
                Some(w) => if w.len() > prefix.len() {
                    (Some(w), Some(w.skip(prefix.len() as int)))
                } else {
                    (None, None)
                },
                None => (None, None),
            }
        }
    }
}

/// The suggestion for typed text `buffer`, as the full text and the part
/// still to be typed, completing words of at least `min_prefix` bytes.
pub open spec fn suggestion(cache: NgramCache, buffer: Seq<char>, min_prefix: nat) -> (
    Option<Seq<char>>,
    Option<Seq<char>>,
) {
    let norm = spaces_normalized(lowercase(buffer));
    suggestion_from(cache, buffer, norm, context_words(norm), min_prefix)
}

proof fn lemma_words_of_push(s: Seq<String>, x: String)
    ensures
        words_of(s.push(x)) == words_of(s).push(x@),
{
    assert(words_of(s.push(x)) =~= words_of(s).push(x@));
}

/// The first fitting follower starts with the prefix asked for.
pub proof fn lemma_first_match_extends(b: Seq<(Seq<char>, i64)>, prefix: Seq<char>)
    ensures
        first_match(b, prefix) matches Some(w) ==> prefix.is_prefix_of(w),
    decreases b.len(),
{
    if b.len() > 0 && !prefix.is_prefix_of(b[0].0) {
        lemma_first_match_extends(b.drop_first(), prefix);
    }
}

/// A predicted word starts with the prefix it was asked for.
pub proof fn lemma_prediction_extends(
    cache: NgramCache,
    context: Seq<Seq<char>>,
    prefix: Seq<char>,
    min_prefix: nat,
)
    requires
        cache.wf(),
    ensures
        prediction(cache, context, prefix, min_prefix) matches Some(w) ==> prefix.is_prefix_of(w),
{
    let n = context.len();
    if n >= 2 {
        lemma_first_match_extends(cache.trigram_bucket(context[n - 2], context[n - 1]), prefix);
    }
    if n >= 1 {
        lemma_first_match_extends(cache.bigram_bucket(context[n - 1]), prefix);
    }
    cache.lemma_wf();
    let b = cache.prefix_bucket(prefix);
    let c = prefix_candidates(cache.unigram_freqs(), prefix);
    assert(crate::ngram_cache::is_top_k_of(b, c, PREFIX_BUCKET_SIZE as nat));
    if b.len() > 0 {
        assert(c.contains(b[0]));
        assert(completes(prefix, b[0].0));
    }
    if b.len() > 1 {
        assert(c.contains(b[1]));
        assert(completes(prefix, b[1].0));
    }
}

/// Trims `s` and makes every run of white space a single space.
fn normalize_spaces(s: &str) -> (r: String)
    ensures
        r@ == spaces_normalized(s@),
{
    let trimmed = string_of(trim_chars(&chars_of(s)).as_slice());
    match compile(SPACE_PATTERN) {
        Some(p) => replace_all(&p, trimmed.as_str(), " "),
        None => trimmed,
    }
}

/// The words of `text`, lower-cased.
pub fn extract_context_words(text: &str) -> (r: Vec<String>)
    ensures
        words_of(r@) == context_words(text@),
{
    match compile(WORD_PATTERN) {
        Some(p) => {
            let found = find_all(&p, text);
            let mut r: Vec<String> = Vec::new();
            let mut i: usize = 0;
            while i < found.len()
                invariant
                    i <= found@.len(),
                    words_of(r@) == found@.take(i as int).map_values(
                        |s: String| lowercase(s@),
                    ),
                decreases found@.len() - i,
            {
                let lw = to_lowercase(found[i].as_str());
                let ghost old_r = r@;
                r.push(lw);
                proof {
                    lemma_words_of_push(old_r, lw);
                    assert(found@.take(i + 1) =~= found@.take(i as int).push(found@[i as int]));
                    assert(found@.take(i + 1).map_values(|s: String| lowercase(s@))
                        =~= found@.take(i as int).map_values(|s: String| lowercase(s@)).push(
                        lowercase(found@[i as int]@),
                    ));
                }
                i = i + 1;
            }
            proof {
                assert(found@.take(found@.len() as int) =~= found@);
                assert(words_of(r@) =~= found@.map_values(|s: String| s@).map_values(
                    |w: Seq<char>| lowercase(w),
                ));
            }
            r
        },
        None => {
            let r: Vec<String> = Vec::new();
            proof {
                assert(words_of(r@) =~= Seq::<Seq<char>>::empty());
            }
            r
        },
    }
}

/// The word predicted after `context` that starts with `prefix`.
fn predict_with_context(cache: &NgramCache, context: &Vec<String>, prefix: &str, min_prefix: usize) -> (r: Option<
    String,
>)
    requires
        cache.wf(),
    ensures
        opt_view(r) == prediction(*cache, words_of(context@), prefix@, min_prefix as nat),
{
    let ghost ctx = words_of(context@);
    let n = context.len();
    if n >= 2 {
        let w1 = &context[n - 2];
        let w2 = &context[n - 1];
        if let Some(word) = cache.trigram_predict(w1.as_str(), w2.as_str(), prefix) {
            return Some(word);
        }
    }
    if n >= 1 {
        let w1 = &context[n - 1];
        if let Some(word) = cache.bigram_predict(w1.as_str(), prefix) {
            return Some(word);
        }
    }
    if has_min_bytes(prefix, min_prefix) {
        return cache.unigram_predict(prefix);
    }
    None
}

/// The word predicted after `context` that starts with `prefix`.
fn predict_next_word(cache: &NgramCache, context: &Vec<String>, prefix: &str, min_prefix: usize) -> (r: Option<
    String,
>)
    requires
        cache.wf(),
    ensures
        opt_view(r) == prediction(*cache, words_of(context@), prefix@, min_prefix as nat),
{
    predict_with_context(cache, context, prefix, min_prefix)
}

/// The suggestion for typed text `typed` whose lower-cased, space-normalized
/// form is `normalized` with words `words`: the full text and the part still
/// to be typed.
pub fn suggestion_for(
    cache: &NgramCache,
    typed: &str,
    normalized: &str,
    words: &Vec<String>,
    min_prefix: usize,
) -> (r: (Option<String>, Option<String>))
    requires
        cache.wf(),
    ensures
        (opt_view(r.0), opt_view(r.1)) == suggestion_from(
            *cache,
            typed@,
            normalized@,
            words_of(words@),
            min_prefix as nat,
        ),
{
    let nchars = chars_of(normalized);
    if nchars.len() == 0 || words.len() == 0 {
        return (None, None);
    }
    let ghost ws = words_of(words@);
    let tchars = chars_of(typed);
    let ends_with_space = tchars.len() > 0 && white_space(tchars[tchars.len() - 1]);
    if ends_with_space {
        let empty = String::new();
        if let Some(word) = predict_next_word(cache, words, empty.as_str(), min_prefix) {
            let mut full = trim_end_chars(&chars_of(typed));
            full.push(' ');
            let wc = chars_of(word.as_str());
            let mut i: usize = 0;
            let ghost base = full@;
            while i < wc.len()
                invariant
                    i <= wc@.len(),
                    full@ == base + wc@.take(i as int),
                decreases wc@.len() - i,
            {
                full.push(wc[i]);
                i = i + 1;
                proof {
                    assert(full@ =~= base + wc@.take(i as int));
                }
            }
            proof {
                assert(wc@.take(wc@.len() as int) =~= wc@);
                assert(base =~= trim_end(typed@) + seq![' ']);
            }
            return (Some(string_of(full.as_slice())), Some(word));
        }
    } else {
        let current_prefix = &words[words.len() - 1];
        if !has_min_bytes(current_prefix.as_str(), min_prefix) {
            return (None, None);
        }
        let mut context: Vec<String> = Vec::new();
        let mut j: usize = 0;
        while j < words.len() - 1
            invariant
                words@.len() >= 1,
                j <= words@.len() - 1,
                words_of(context@) == ws.take(j as int),
                ws == words_of(words@),
            decreases words@.len() - 1 - j,
        {
            let w = words[j].clone();
            let ghost old_c = context@;
            context.push(w);
            proof {
                lemma_words_of_push(old_c, w);
                assert(ws.take(j + 1) =~= ws.take(j as int).push(ws[j as int]));
            }
            j = j + 1;
        }
        proof {
            assert(ws.take(ws.len() - 1) =~= ws.drop_last());
        }
        if let Some(word) = predict_with_context(cache, &context, current_prefix.as_str(), min_prefix) {
            proof {
                lemma_prediction_extends(*cache, ws.drop_last(), current_prefix@, min_prefix as nat);
            }
            let wc = chars_of(word.as_str());
            let pn = chars_of(current_prefix.as_str()).len();
            if wc.len() > pn {
                let mut suffix: Vec<char> = Vec::new();
                let mut i: usize = pn;
                while i < wc.len()
                    invariant
                        pn <= i <= wc@.len(),
                        suffix@ == wc@.subrange(pn as int, i as int),
                    decreases wc@.len() - i,
                {
                    suffix.push(wc[i]);
                    i = i + 1;
                    proof {
                        assert(suffix@ =~= wc@.subrange(pn as int, i as int));
                    }
                }
                proof {
                    assert(suffix@ =~= wc@.skip(pn as int));
                }
                return (Some(word), Some(string_of(suffix.as_slice())));
            }
        }
    }
    (None, None)
}

/// Works out the suggestion for the typed text and stores it in `state`.
pub fn refresh_suggestion(cache: &NgramCache, state: &mut AppState, min_prefix: usize)
    requires
        cache.wf(),
    ensures
        (opt_view(final(state).current_full), opt_view(final(state).current_suffix)) == suggestion(
            *cache,
            old(state).typed_buffer@,
            min_prefix as nat,
        ),
        final(state).typed_buffer == old(state).typed_buffer,
        final(state).engine_running == old(state).engine_running,
        final(state).overlay_visible == old(state).overlay_visible,
        final(state).last_auto_completed == old(state).last_auto_completed,
{
    let lower = to_lowercase(state.typed_buffer.as_str());
    let normalized = normalize_spaces(lower.as_str());
    if chars_of(normalized.as_str()).len() == 0 {
        state.clear_suggestion();
        return;
    }
    let words = extract_context_words(normalized.as_str());
    let (full, suffix) = suggestion_for(
        cache,
        state.typed_buffer.as_str(),
        normalized.as_str(),
        &words,
        min_prefix,
    );
    state.current_full = full;
    state.current_suffix = suffix;
}

/// Forgets the typed text and the suggestion.
pub fn finalize_buffer(state: &mut AppState)
    ensures
        final(state).typed_buffer@ == Seq::<char>::empty(),
        final(state).current_full is None,
        final(state).current_suffix is None,
        final(state).engine_running == old(state).engine_running,
        final(state).overlay_visible == old(state).overlay_visible,
        final(state).last_auto_completed == old(state).last_auto_completed,
{
    state.typed_buffer = String::new();
    state.clear_suggestion();
}

} // verus!

verus! {

/// An offered suggestion always comes as both the full text and the part
/// still to be typed, and the full text ends with that part.
pub proof fn law_suggestion_ends_with_suffix(cache: NgramCache, buffer: Seq<char>, min_prefix: nat)
    requires
        cache.wf(),
    ensures
        suggestion(cache, buffer, min_prefix).0 is Some <==> suggestion(cache, buffer, min_prefix).1 is Some,
        suggestion(cache, buffer, min_prefix) matches (Some(full), Some(rest)) ==> rest.len()
            <= full.len() && full.skip(full.len() - rest.len()) == rest,
{
    let norm = spaces_normalized(lowercase(buffer));
    let words = context_words(norm);
    if norm.len() != 0 && words.len() != 0 {
        if ends_in_space(buffer) {
            if let Some(w) = prediction(cache, words, Seq::empty(), min_prefix) {
                let full = trim_end(buffer) + seq![' '] + w;
                assert(full.skip(full.len() - w.len()) =~= w);
            }
        } else {
            let prefix = words.last();
            if let Some(w) = prediction(cache, words.drop_last(), prefix, min_prefix) {
                if w.len() > prefix.len() {
                    let rest = w.skip(prefix.len() as int);
                    assert(w.skip(w.len() - rest.len()) =~= rest);
                }
            }
        }
    }
}

/// After a finished word (the text ends in white space) the suggestion is
/// the next word predicted from the words typed, appended to the text after
/// one space.
pub proof fn law_next_word_after_space(cache: NgramCache, buffer: Seq<char>, min_prefix: nat)
    requires
        ends_in_space(buffer),
        spaces_normalized(lowercase(buffer)).len() > 0,
        context_words(spaces_normalized(lowercase(buffer))).len() > 0,
    ensures
        ({
            let words = context_words(spaces_normalized(lowercase(buffer)));
            suggestion(cache, buffer, min_prefix) == match prediction(
                cache,
                words,
                Seq::empty(),
                min_prefix,
            ) {
                Some(w) => (Some(trim_end(buffer) + seq![' '] + w), Some(w)),
                None => (None, None),
            }
        }),
{
}

/// While a word is being typed, nothing is suggested before it takes
/// `min_prefix` bytes; then the suggestion is a known word that starts with
/// it, and what is left to type is the rest of that word, never empty.
pub proof fn law_completion_continues_word(cache: NgramCache, buffer: Seq<char>, min_prefix: nat)
    requires
        cache.wf(),
        !ends_in_space(buffer),
        spaces_normalized(lowercase(buffer)).len() > 0,
        context_words(spaces_normalized(lowercase(buffer))).len() > 0,
    ensures
        ({
            let typed = context_words(spaces_normalized(lowercase(buffer))).last();
            &&& byte_len(typed) < min_prefix ==> suggestion(cache, buffer, min_prefix) == (
                None::<Seq<char>>,
                None::<Seq<char>>,
            )
            &&& suggestion(cache, buffer, min_prefix) matches (Some(full), Some(rest)) ==> {
                &&& typed.is_prefix_of(full)
                &&& full == typed + rest
                &&& rest.len() > 0
            }
        }),
{
    let words = context_words(spaces_normalized(lowercase(buffer)));
    let prefix = words.last();
    lemma_prediction_extends(cache, words.drop_last(), prefix, min_prefix);
    if let Some(w) = prediction(cache, words.drop_last(), prefix, min_prefix) {
        if w.len() > prefix.len() {
            assert(w =~= prefix + w.skip(prefix.len() as int));
        }
    }
}

/// The last two words decide first: when they have a follower that fits,
/// it is the prediction.
pub proof fn law_trigram_first(
    cache: NgramCache,
    context: Seq<Seq<char>>,
    prefix: Seq<char>,
    min_prefix: nat,
)
    requires
        context.len() >= 2,
        first_match(
            cache.trigram_bucket(context[context.len() - 2], context[context.len() - 1]),
            prefix,
        ) is Some,
    ensures
        prediction(cache, context, prefix, min_prefix) == first_match(
            cache.trigram_bucket(context[context.len() - 2], context[context.len() - 1]),
            prefix,
        ),
{
}

/// Without a fitting follower of the last two words, a fitting follower of
/// the last word is the prediction.
pub proof fn law_bigram_second(
    cache: NgramCache,
    context: Seq<Seq<char>>,
    prefix: Seq<char>,
    min_prefix: nat,
)
    requires
        context.len() >= 1,
        context.len() >= 2 ==> first_match(
            cache.trigram_bucket(context[context.len() - 2], context[context.len() - 1]),
            prefix,
        ) is None,
        first_match(cache.bigram_bucket(context[context.len() - 1]), prefix) is Some,
    ensures
        prediction(cache, context, prefix, min_prefix) == first_match(
            cache.bigram_bucket(context[context.len() - 1]),
            prefix,
        ),
{
}

/// Only without any fitting follower does completion from known words
/// decide, and only for a prefix of at least `min_prefix` bytes.
pub proof fn law_completion_last(
    cache: NgramCache,
    context: Seq<Seq<char>>,
    prefix: Seq<char>,
    min_prefix: nat,
)
    requires
        context.len() >= 2 ==> first_match(
            cache.trigram_bucket(context[context.len() - 2], context[context.len() - 1]),
            prefix,
        ) is None,
        context.len() >= 1 ==> first_match(cache.bigram_bucket(context[context.len() - 1]), prefix)
            is None,
    ensures
        prediction(cache, context, prefix, min_prefix) == if byte_len(prefix) >= min_prefix {
            unigram_choice(cache.prefix_bucket(prefix), prefix)
        } else {
            None
        },
{
}

/// The next word (empty prefix) comes from the followers alone: the first
/// follower of the last two words, else of the last word, else none, for
/// any minimum prefix length.
pub proof fn law_next_word_from_followers(cache: NgramCache, context: Seq<Seq<char>>, min_prefix: nat)
    requires
        cache.wf(),
    ensures
        prediction(cache, context, Seq::empty(), min_prefix) == {
            let n = context.len();
            let tri = if n >= 2 {
                first_match(cache.trigram_bucket(context[n - 2], context[n - 1]), Seq::empty())
            } else {
                None
            };
            let bi = if n >= 1 {
                first_match(cache.bigram_bucket(context[n - 1]), Seq::empty())
            } else {
                None
            };
            if tri is Some {
                tri
            } else if bi is Some {
                bi
            } else {
                None::<Seq<char>>
            }
        },
{
    let e = Seq::<char>::empty();
    cache.lemma_wf();
    let c = prefix_candidates(cache.unigram_freqs(), e);
    assert(crate::ngram_cache::is_top_k_of(cache.prefix_bucket(e), c, PREFIX_BUCKET_SIZE as nat));
    assert(byte_len(e) == 0) by {
        assert(vstd::utf8::encode_utf8(e) =~= Seq::<u8>::empty());
    }
    assert(c =~= Set::<(Seq<char>, i64)>::empty());
}

/// While a word is being typed, the completion comes from all the words
/// before it: when the prediction from that whole context is longer than
/// the typed word, it is the suggestion, with the rest of it to type;
/// otherwise nothing is suggested.
pub proof fn law_completion_uses_whole_context(cache: NgramCache, buffer: Seq<char>, min_prefix: nat)
    requires
        !ends_in_space(buffer),
        spaces_normalized(lowercase(buffer)).len() > 0,
        context_words(spaces_normalized(lowercase(buffer))).len() > 0,
        byte_len(context_words(spaces_normalized(lowercase(buffer))).last()) >= min_prefix,
    ensures
        ({
            let words = context_words(spaces_normalized(lowercase(buffer)));
            let typed = words.last();
            suggestion(cache, buffer, min_prefix) == match prediction(
                cache,
                words.drop_last(),
                typed,
                min_prefix,
            ) {
                Some(p) => if p.len() > typed.len() {
                    (Some(p), Some(p.skip(typed.len() as int)))
                } else {
                    (None, None)
                },
                None => (None, None),
            }
        }),
{
}

/// While a word is being typed after at least two other words, a follower
/// of the two words just before it that starts with the typed word (and is
/// longer) is the suggestion, whatever came earlier in the text.
pub proof fn law_completion_from_last_two_words(
    cache: NgramCache,
    buffer: Seq<char>,
    min_prefix: nat,
    p: Seq<char>,
)
    requires
        !ends_in_space(buffer),
        spaces_normalized(lowercase(buffer)).len() > 0,
        context_words(spaces_normalized(lowercase(buffer))).len() >= 3,
        byte_len(context_words(spaces_normalized(lowercase(buffer))).last()) >= min_prefix,
        ({
            let words = context_words(spaces_normalized(lowercase(buffer)));
            let n = words.len();
            &&& first_match(cache.trigram_bucket(words[n - 3], words[n - 2]), words.last())
                == Some(p)
            &&& p.len() > words.last().len()
        }),
    ensures
        ({
            let typed = context_words(spaces_normalized(lowercase(buffer))).last();
            suggestion(cache, buffer, min_prefix) == (
                Some(p),
                Some(p.skip(typed.len() as int)),
            )
        }),
{
    let words = context_words(spaces_normalized(lowercase(buffer)));
    let ctx = words.drop_last();
    let n = words.len();
    assert(ctx[ctx.len() - 2] == words[n - 3]);
    assert(ctx[ctx.len() - 1] == words[n - 2]);
    law_completion_uses_whole_context(cache, buffer, min_prefix);
}

} // verus!
