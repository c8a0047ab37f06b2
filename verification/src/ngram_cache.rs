//! In-memory n-gram tables, so that a keypress never waits on the database.
use crate::ngram_map::{words_view, NgramMap};
use crate::ranked::{
    entry_view, insert_ranked, insert_sorted, is_insert_pos, is_sorted_perm, is_top_k, kept_len,
    lemma_insert_pos_unique, lemma_sorted_perm_step, lemma_top_k_step, ranked_top, ranked_view,
    sorted_desc, stable_sorted,
};
use crate::text::{byte_len, char_byte_len, chars_of, lemma_byte_len_push, starts_with, string_of};
use vstd::prelude::*;

verus! {

/// How many completions are kept for each prefix.
pub const PREFIX_BUCKET_SIZE: usize = 5;

/// The rows read from the database: unigrams `(word, freq)`, bigrams
/// `(w1, w2, freq)` and trigrams `(w1, w2, w3, freq)`.
pub struct NgramTables {
    pub unigrams: Vec<(String, i64)>,
    pub bigrams: Vec<(String, String, i64)>,
    pub trigrams: Vec<(String, String, String, i64)>,
}

/// Word frequencies as given by unigram rows; a later row for the same word
/// replaces an earlier one.
pub open spec fn unigram_table_map(rows: Seq<(String, i64)>) -> Map<Seq<char>, i64>
    decreases rows.len(),
{
    if rows.len() == 0 {
        Map::empty()
    } else {
        unigram_table_map(rows.drop_last()).insert(rows.last().0@, rows.last().1)
    }
}

/// The followers `(w2, freq)` of `w1` among the bigram rows, in row order.
pub open spec fn bigram_table_rows(rows: Seq<(String, String, i64)>, w1: Seq<char>) -> Seq<
    (Seq<char>, i64),
>
    decreases rows.len(),
{
    if rows.len() == 0 {
        Seq::empty()
    } else {
        let r = rows.last();
        let rest = bigram_table_rows(rows.drop_last(), w1);
        if r.0@ == w1 {
            rest.push((r.1@, r.2))
        } else {
            rest
        }
    }
}

/// The followers `(w3, freq)` of `w1 w2` among the trigram rows, in row order.
pub open spec fn trigram_table_rows(
    rows: Seq<(String, String, String, i64)>,
    w1: Seq<char>,
    w2: Seq<char>,
) -> Seq<(Seq<char>, i64)>
    decreases rows.len(),
{
    if rows.len() == 0 {
        Seq::empty()
    } else {
        let r = rows.last();
        let rest = trigram_table_rows(rows.drop_last(), w1, w2);
        if r.0@ == w1 && r.1@ == w2 {
            rest.push((r.2@, r.3))
        } else {
            rest
        }
    }
}

/// The candidates stored under key `k` of `m`, or none.
pub open spec fn bucket_of(m: NgramMap<Vec<(String, i64)>>, k: Seq<Seq<char>>) -> Seq<
    (Seq<char>, i64),
> {
    if m.as_map().contains_key(k) {
        ranked_view(m.as_map()[k]@)
    } else {
        Seq::empty()
    }
}

/// The key of a pair of words.
pub open spec fn pair_key(w1: Seq<char>, w2: Seq<char>) -> Seq<Seq<char>> {
    seq![w1, w2]
}

/// Every key of `m` is made of `n` words and has a non-empty bucket.
pub open spec fn keys_filled(m: NgramMap<Vec<(String, i64)>>, n: nat) -> bool {
    forall|k: Seq<Seq<char>>|
        #[trigger] m.as_map().dom().contains(k) ==> k.len() == n && bucket_of(m, k).len() > 0
}

/// The word frequencies of a map keyed by single words.
pub open spec fn word_freqs(m: NgramMap<i64>) -> Map<Seq<char>, i64> {
    Map::new(
        |w: Seq<char>| m.as_map().contains_key(seq![w]),
        |w: Seq<char>| m.as_map()[seq![w]],
    )
}

/// `w` completes prefix `p`: `p` is at least two bytes long and `w` starts
/// with it.
pub open spec fn completes(p: Seq<char>, w: Seq<char>) -> bool {
    byte_len(p) >= 2 && p.is_prefix_of(w)
}

/// The known words that complete `p`, with their frequencies.
pub open spec fn prefix_candidates(freqs: Map<Seq<char>, i64>, p: Seq<char>) -> Set<
    (Seq<char>, i64),
> {
    Set::new(
        |x: (Seq<char>, i64)| freqs.contains_key(x.0) && freqs[x.0] == x.1 && completes(p, x.0),
    )
}

/// `b` holds the `k` best of the candidates `c`: as many as fit, in order of
/// decreasing frequency, and none left out that beats the last one kept.
pub open spec fn is_top_k_of(b: Seq<(Seq<char>, i64)>, c: Set<(Seq<char>, i64)>, k: nat) -> bool {
    &&& c.finite()
    &&& b.len() == if c.len() < k {
        c.len()
    } else {
        k
    }
    &&& sorted_desc(b)
    &&& b.no_duplicates()
    &&& forall|i: int| 0 <= i < b.len() ==> c.contains(#[trigger] b[i])
    &&& forall|x: (Seq<char>, i64)|
        c.contains(x) && !b.contains(x) ==> b.len() == k && k > 0 && x.1 <= b[k - 1].1
}

/// The words of `entries` that complete `p`, in order.
pub open spec fn candidates_in(entries: Seq<(Seq<char>, i64)>, p: Seq<char>) -> Seq<
    (Seq<char>, i64),
>
    decreases entries.len(),
{
    if entries.len() == 0 {
        Seq::empty()
    } else {
        let rest = candidates_in(entries.drop_last(), p);
        if completes(p, entries.last().0) {
            rest.push(entries.last())
        } else {
            rest
        }
    }
}

proof fn lemma_candidates_in_contains(entries: Seq<(Seq<char>, i64)>, p: Seq<char>, x: (Seq<char>, i64))
    ensures
        candidates_in(entries, p).contains(x) <==> entries.contains(x) && completes(p, x.0),
    decreases entries.len(),
{
    if entries.len() > 0 {
        lemma_candidates_in_contains(entries.drop_last(), p, x);
        let rest = candidates_in(entries.drop_last(), p);
        if entries.contains(x) && x != entries.last() {
            let t = entries.index_of(x);
            assert(entries.drop_last()[t] == x);
        }
        if entries.drop_last().contains(x) {
            let t = entries.drop_last().index_of(x);
            assert(entries[t] == x);
        }
        if completes(p, entries.last().0) {
            if rest.push(entries.last()).contains(x) && x != entries.last() {
                let t = rest.push(entries.last()).index_of(x);
                assert(rest[t] == x);
            }
            if rest.contains(x) {
                let t = rest.index_of(x);
                assert(rest.push(entries.last())[t] == x);
            }
            assert(rest.push(entries.last())[rest.len() as int] == entries.last());
        }
        assert(entries[entries.len() - 1] == entries.last());
    }
}

proof fn lemma_candidates_in_no_dup(entries: Seq<(Seq<char>, i64)>, p: Seq<char>)
    requires
        entries.no_duplicates(),
    ensures
        candidates_in(entries, p).no_duplicates(),
    decreases entries.len(),
{
    if entries.len() > 0 {
        let d = entries.drop_last();
        assert(d.no_duplicates());
        lemma_candidates_in_no_dup(d, p);
        if completes(p, entries.last().0) {
            lemma_candidates_in_contains(d, p, entries.last());
            if d.contains(entries.last()) {
                let t = d.index_of(entries.last());
                assert(entries[t] == entries[entries.len() - 1]);
            }
            let r = candidates_in(d, p);
            assert forall|a: int, b: int|
                0 <= a < r.push(entries.last()).len() && 0 <= b < r.push(entries.last()).len() && a
                    != b implies r.push(entries.last())[a] != r.push(entries.last())[b] by {
                if a == r.len() {
                    assert(r.contains(r[b]));
                } else if b == r.len() {
                    assert(r.contains(r[a]));
                }
            }
        }
    }
}

/// The candidates of `p` among the first `i` entries gain entry `i` exactly
/// when it completes `p`.
proof fn lemma_candidates_in_take(entries: Seq<(Seq<char>, i64)>, p: Seq<char>, i: int)
    requires
        0 <= i < entries.len(),
    ensures
        candidates_in(entries.take(i + 1), p) == if completes(p, entries[i].0) {
            candidates_in(entries.take(i), p).push(entries[i])
        } else {
            candidates_in(entries.take(i), p)
        },
{
    assert(entries.take(i + 1).drop_last() =~= entries.take(i));
}

/// The first candidate of `b` that starts with `prefix`.
pub open spec fn first_match(b: Seq<(Seq<char>, i64)>, prefix: Seq<char>) -> Option<Seq<char>>
    decreases b.len(),
{
    if b.len() == 0 {
        None
    } else if prefix.is_prefix_of(b[0].0) {
        Some(b[0].0)
    } else {
        first_match(b.drop_first(), prefix)
    }
}

/// A word, as characters.
pub open spec fn opt_view(o: Option<String>) -> Option<Seq<char>> {
    match o {
        Some(s) => Some(s@),
        None => None,
    }
}

/// Completion of `prefix` from its bucket: the most frequent word, unless it
/// is `prefix` itself, in which case the next one.
pub open spec fn unigram_choice(b: Seq<(Seq<char>, i64)>, prefix: Seq<char>) -> Option<Seq<char>> {
    if b.len() == 0 {
        None
    } else if b[0].0 != prefix {
        Some(b[0].0)
    } else if b.len() > 1 {
        Some(b[1].0)
    } else {
        None
    }
}

fn first_match_exec(b: &Vec<(String, i64)>, prefix: &str) -> (r: Option<String>)
    ensures
        opt_view(r) == first_match(ranked_view(b@), prefix@),
{
    let mut j: usize = 0;
    assert(ranked_view(b@).skip(0) =~= ranked_view(b@));
    while j < b.len()
        invariant
            j <= b@.len(),
            first_match(ranked_view(b@), prefix@) == first_match(
                ranked_view(b@).skip(j as int),
                prefix@,
            ),
        decreases b@.len() - j,
    {
        let ghost rest = ranked_view(b@).skip(j as int);
        proof {
            assert(rest[0] == entry_view(b@[j as int]));
            assert(rest.drop_first() =~= ranked_view(b@).skip(j + 1));
        }
        if starts_with(b[j].0.as_str(), prefix) {
            return Some(b[j].0.clone());
        }
        j = j + 1;
    }
    proof {
        assert(ranked_view(b@).skip(j as int).len() == 0);
    }
    None
}

/// Adds `x` to the bucket of `key`, keeping the bucket sorted.
fn add_sorted(m: &mut NgramMap<Vec<(String, i64)>>, key: Vec<String>, x: (String, i64))
    requires
        old(m).wf(),
        sorted_desc(bucket_of(*old(m), words_view(key@))),
    ensures
        final(m).wf(),
        exists|pos: int|
            is_insert_pos(bucket_of(*old(m), words_view(key@)), x.1, pos) && bucket_of(
                *final(m),
                words_view(key@),
            ) == bucket_of(*old(m), words_view(key@)).insert(pos, entry_view(x)),
        forall|k2: Seq<Seq<char>>|
            k2 != words_view(key@) ==> #[trigger] bucket_of(*final(m), k2) == bucket_of(
                *old(m),
                k2,
            ),
        final(m).as_map().dom() == old(m).as_map().dom().insert(words_view(key@)),
{
    let ghost kv = words_view(key@);
    let ghost old_b = bucket_of(*old(m), kv);
    match m.find(&key) {
        Some(i) => {
            let mut b: Vec<(String, i64)> = Vec::new();
            m.swap_value(i, &mut b);
            let ghost b0 = b@;
            insert_sorted(&mut b, x);
            let ghost nb = b@;
            proof {
                assert(ranked_view(b0) == old_b);
                let pos = choose|pos: int|
                    is_insert_pos(ranked_view(b0), x.1, pos) && ranked_view(b@) == ranked_view(
                        b0,
                    ).insert(pos, entry_view(x));
                assert(is_insert_pos(old_b, x.1, pos));
            }
            m.swap_value(i, &mut b);
            proof {
                assert(m.as_map()[kv]@ == nb);
            }
        },
        None => {
            let mut b: Vec<(String, i64)> = Vec::new();
            let ghost b0 = b@;
            insert_sorted(&mut b, x);
            proof {
                assert(old_b =~= ranked_view(b0));
                let pos = choose|pos: int|
                    is_insert_pos(ranked_view(b0), x.1, pos) && ranked_view(b@) == ranked_view(
                        b0,
                    ).insert(pos, entry_view(x));
                assert(is_insert_pos(old_b, x.1, pos));
            }
            m.push_new(key, b);
        },
    }
}

/// Adds `x` to the bucket of `key`, keeping the bucket sorted and at most `k`
/// long.
fn add_ranked(m: &mut NgramMap<Vec<(String, i64)>>, key: Vec<String>, x: (String, i64), k: usize)
    requires
        old(m).wf(),
        sorted_desc(bucket_of(*old(m), words_view(key@))),
        k > 0,
    ensures
        final(m).wf(),
        exists|pos: int|
            is_insert_pos(bucket_of(*old(m), words_view(key@)), x.1, pos) && bucket_of(
                *final(m),
                words_view(key@),
            ) == bucket_of(*old(m), words_view(key@)).insert(pos, entry_view(x)).take(
                kept_len(bucket_of(*old(m), words_view(key@)).len(), k as nat),
            ),
        forall|k2: Seq<Seq<char>>|
            k2 != words_view(key@) ==> #[trigger] bucket_of(*final(m), k2) == bucket_of(
                *old(m),
                k2,
            ),
{
    let ghost kv = words_view(key@);
    let ghost old_b = bucket_of(*old(m), kv);
    match m.find(&key) {
        Some(i) => {
            let mut b: Vec<(String, i64)> = Vec::new();
            m.swap_value(i, &mut b);
            let ghost b0 = b@;
            insert_ranked(&mut b, x, k);
            let ghost nb = b@;
            proof {
                assert(ranked_view(b0) == old_b);
                let pos = choose|pos: int|
                    is_insert_pos(ranked_view(b0), x.1, pos) && ranked_view(b@) == ranked_view(
                        b0,
                    ).insert(pos, entry_view(x)).take(kept_len(old_b.len(), k as nat));
                assert(is_insert_pos(old_b, x.1, pos));
            }
            m.swap_value(i, &mut b);
            proof {
                assert(m.as_map()[kv]@ == nb);
            }
        },
        None => {
            let mut b: Vec<(String, i64)> = Vec::new();
            let ghost b0 = b@;
            insert_ranked(&mut b, x, k);
            proof {
                assert(old_b =~= ranked_view(b0));
                let pos = choose|pos: int|
                    is_insert_pos(ranked_view(b0), x.1, pos) && ranked_view(b@) == ranked_view(
                        b0,
                    ).insert(pos, entry_view(x)).take(kept_len(old_b.len(), k as nat));
                assert(is_insert_pos(old_b, x.1, pos));
            }
            m.push_new(key, b);
        },
    }
}

/// The words of the unigram rows with the frequency of their last row, in
/// the order of their first row.
pub open spec fn unigram_entries(rows: Seq<(String, i64)>) -> Seq<(Seq<char>, i64)>
    decreases rows.len(),
{
    if rows.len() == 0 {
        Seq::empty()
    } else {
        let e = unigram_entries(rows.drop_last());
        let w = rows.last().0@;
        let f = rows.last().1;
        if exists|t: int| 0 <= t < e.len() && e[t].0 == w {
            e.update(choose|t: int| 0 <= t < e.len() && e[t].0 == w, (w, f))
        } else {
            e.push((w, f))
        }
    }
}

/// Word frequencies read from unigram rows, one key per distinct word.
fn build_unigrams(rows: &Vec<(String, i64)>) -> (m: NgramMap<i64>)
    ensures
        m.wf(),
        word_freqs(m) == unigram_table_map(rows@),
        forall|i: int| 0 <= i < m.spec_len() ==> (#[trigger] m.key_seq()[i]).len() == 1,
        word_entries(m) == unigram_entries(rows@),
{
    let mut m: NgramMap<i64> = NgramMap::new();
    let mut i: usize = 0;
    proof {
        assert(word_freqs(m) =~= unigram_table_map(rows@.take(0)));
    }
    while i < rows.len()
        invariant
            i <= rows@.len(),
            m.wf(),
            word_freqs(m) == unigram_table_map(rows@.take(i as int)),
            word_entries(m) == unigram_entries(rows@.take(i as int)),
            forall|t: int| 0 <= t < m.spec_len() ==> (#[trigger] m.key_seq()[t]).len() == 1,
        decreases rows@.len() - i,
    {
        let w = rows[i].0.clone();
        let f = rows[i].1;
        let key = vec![w];
        let ghost kv = words_view(key@);
        proof {
            assert(kv =~= seq![rows@[i as int].0@]);
            assert(rows@.take(i + 1).drop_last() =~= rows@.take(i as int));
        }
        let ghost old_m = m;
        let ghost wv = rows@[i as int].0@;
        let ghost e0 = word_entries(old_m);
        proof {
            old_m.lemma_wf();
            assert(unigram_entries(rows@.take(i + 1)) == if exists|t: int|
                0 <= t < e0.len() && e0[t].0 == wv {
                e0.update(choose|t: int| 0 <= t < e0.len() && e0[t].0 == wv, (wv, f))
            } else {
                e0.push((wv, f))
            });
        }
        match m.find(&key) {
            Some(t) => {
                m.set_value(t, f);
                proof {
                    assert(old_m.key_seq()[t as int].len() == 1);
                    assert(e0[t as int].0 == wv);
                    let t2 = choose|t2: int| 0 <= t2 < e0.len() && e0[t2].0 == wv;
                    assert(old_m.key_seq()[t2].len() == 1);
                    assert(old_m.key_seq()[t2] =~= old_m.key_seq()[t as int]);
                    assert(t2 == t);
                    assert(word_entries(m) =~= e0.update(t as int, (wv, f)));
                }
            },
            None => {
                m.push_new(key, f);
                proof {
                    assert forall|t2: int| 0 <= t2 < e0.len() implies e0[t2].0 != wv by {
                        assert(old_m.key_seq()[t2].len() == 1);
                        if e0[t2].0 == wv {
                            assert(old_m.key_seq()[t2] =~= kv);
                            assert(old_m.key_seq().contains(kv));
                        }
                    }
                    assert(word_entries(m) =~= e0.push((wv, f)));
                }
            },
        }
        proof {
            assert(m.as_map() == old_m.as_map().insert(kv, f));
            let wv = rows@[i as int].0@;
            assert forall|w2: Seq<char>| #[trigger] word_freqs(m).contains_key(w2) == word_freqs(
                old_m,
            ).insert(wv, f).contains_key(w2) by {
                if seq![w2] == kv {
                    assert(seq![w2][0] == kv[0]);
                }
            }
            assert forall|w2: Seq<char>| #[trigger] word_freqs(m).contains_key(w2) implies word_freqs(
                m,
            )[w2] == word_freqs(old_m).insert(wv, f)[w2] by {
                if seq![w2] == kv {
                    assert(seq![w2][0] == kv[0]);
                }
            }
            assert(word_freqs(m) =~= word_freqs(old_m).insert(wv, f));
            assert forall|t: int| 0 <= t < m.spec_len() implies (#[trigger] m.key_seq()[t]).len()
                == 1 by {
                if t >= old_m.spec_len() {
                    assert(m.key_seq()[t] == kv);
                } else {
                    assert(m.key_seq()[t] == old_m.key_seq()[t]);
                }
            }
        }
        i = i + 1;
    }
    proof {
        assert(rows@.take(rows@.len() as int) =~= rows@);
    }
    m
}

/// Followers of each first word, sorted by decreasing frequency.
fn build_bigrams(rows: &Vec<(String, String, i64)>) -> (m: NgramMap<Vec<(String, i64)>>)
    ensures
        m.wf(),
        forall|w1: Seq<char>|
            is_sorted_perm(#[trigger] bucket_of(m, seq![w1]), bigram_table_rows(rows@, w1)),
        keys_filled(m, 1),
        forall|w1: Seq<char>|
            #[trigger] bucket_of(m, seq![w1]) == stable_sorted(bigram_table_rows(rows@, w1)),
{
    let mut m: NgramMap<Vec<(String, i64)>> = NgramMap::new();
    let mut i: usize = 0;
    while i < rows.len()
        invariant
            i <= rows@.len(),
            m.wf(),
            keys_filled(m, 1),
            forall|w1: Seq<char>|
                #[trigger] bucket_of(m, seq![w1]) == stable_sorted(
                    bigram_table_rows(rows@.take(i as int), w1),
                ),
            forall|w1: Seq<char>|
                is_sorted_perm(
                    #[trigger] bucket_of(m, seq![w1]),
                    bigram_table_rows(rows@.take(i as int), w1),
                ),
        decreases rows@.len() - i,
    {
        let key = vec![rows[i].0.clone()];
        let x = (rows[i].1.clone(), rows[i].2);
        let ghost kv = words_view(key@);
        let ghost w0 = rows@[i as int].0@;
        let ghost old_m = m;
        proof {
            assert(kv =~= seq![w0]);
            assert(rows@.take(i + 1).drop_last() =~= rows@.take(i as int));
            assert(is_sorted_perm(bucket_of(m, seq![w0]), bigram_table_rows(rows@.take(i as int), w0)));
        }
        add_sorted(&mut m, key, x);
        proof {
            assert forall|k: Seq<Seq<char>>| #[trigger] m.as_map().dom().contains(k) implies k.len() == 1 && bucket_of(m, k).len() > 0 by {
                if k == kv {
                    let pos = choose|pos: int|
                        is_insert_pos(bucket_of(old_m, kv), x.1, pos) && bucket_of(m, kv)
                            == bucket_of(old_m, kv).insert(pos, entry_view(x));
                } else {
                    assert(old_m.as_map().dom().contains(k));
                }
            }
            assert forall|w1: Seq<char>|
                is_sorted_perm(
                    #[trigger] bucket_of(m, seq![w1]),
                    bigram_table_rows(rows@.take(i + 1), w1),
                ) by {
                assert(is_sorted_perm(bucket_of(old_m, seq![w1]), bigram_table_rows(rows@.take(i as int), w1)));
                if w1 == w0 {
                    let pos = choose|pos: int|
                        is_insert_pos(bucket_of(old_m, kv), x.1, pos) && bucket_of(m, kv)
                            == bucket_of(old_m, kv).insert(pos, entry_view(x));
                    lemma_sorted_perm_step(
                        bucket_of(old_m, kv),
                        bigram_table_rows(rows@.take(i as int), w1),
                        entry_view(x),
                        pos,
                    );
                } else {
                    if seq![w1] == kv {
                        assert(seq![w1][0] == kv[0]);
                    }
                    assert(bucket_of(m, seq![w1]) == bucket_of(old_m, seq![w1]));
                }
            }
        }
        proof {
            assert forall|w1: Seq<char>|
                #[trigger] bucket_of(m, seq![w1]) == stable_sorted(
                    bigram_table_rows(rows@.take(i + 1), w1),
                ) by {
                if w1 == w0 {
                    let c = bigram_table_rows(rows@.take(i as int), w1);
                    let ob = bucket_of(old_m, kv);
                    let pos = choose|pos: int|
                        is_insert_pos(ob, x.1, pos) && bucket_of(m, kv) == ob.insert(pos, entry_view(x));
                    assert(is_sorted_perm(ob, c));
                    lemma_insert_pos_unique(ob, x.1, pos);
                    let c2 = bigram_table_rows(rows@.take(i + 1), w1);
                    assert(c2 == c.push(entry_view(x)));
                    assert(c2.drop_last() =~= c);
                } else {
                    if seq![w1] == kv {
                        assert(seq![w1][0] == kv[0]);
                    }
                    assert(bucket_of(m, seq![w1]) == bucket_of(old_m, seq![w1]));
                }
            }
        }
        i = i + 1;
    }
    proof {
        assert(rows@.take(rows@.len() as int) =~= rows@);
    }
    m
}

/// Followers of each pair of words, sorted by decreasing frequency.
fn build_trigrams(rows: &Vec<(String, String, String, i64)>) -> (m: NgramMap<Vec<(String, i64)>>)
    ensures
        m.wf(),
        forall|w1: Seq<char>, w2: Seq<char>|
            is_sorted_perm(
                #[trigger] bucket_of(m, pair_key(w1, w2)),
                trigram_table_rows(rows@, w1, w2),
            ),
        keys_filled(m, 2),
        forall|w1: Seq<char>, w2: Seq<char>|
            #[trigger] bucket_of(m, pair_key(w1, w2)) == stable_sorted(trigram_table_rows(rows@, w1, w2)),
{
    let mut m: NgramMap<Vec<(String, i64)>> = NgramMap::new();
    let mut i: usize = 0;
    while i < rows.len()
        invariant
            i <= rows@.len(),
            m.wf(),
            keys_filled(m, 2),
            forall|w1: Seq<char>, w2: Seq<char>|
                #[trigger] bucket_of(m, pair_key(w1, w2)) == stable_sorted(
                    trigram_table_rows(rows@.take(i as int), w1, w2),
                ),
            forall|w1: Seq<char>, w2: Seq<char>|
                is_sorted_perm(
                    #[trigger] bucket_of(m, pair_key(w1, w2)),
                    trigram_table_rows(rows@.take(i as int), w1, w2),
                ),
        decreases rows@.len() - i,
    {
        let key = vec![rows[i].0.clone(), rows[i].1.clone()];
        let x = (rows[i].2.clone(), rows[i].3);
        let ghost kv = words_view(key@);
        let ghost a0 = rows@[i as int].0@;
        let ghost b0 = rows@[i as int].1@;
        let ghost old_m = m;
        proof {
            assert(kv =~= pair_key(a0, b0));
            assert(rows@.take(i + 1).drop_last() =~= rows@.take(i as int));
            assert(is_sorted_perm(bucket_of(m, pair_key(a0, b0)), trigram_table_rows(rows@.take(i as int), a0, b0)));
        }
        add_sorted(&mut m, key, x);
        proof {
            assert forall|k: Seq<Seq<char>>| #[trigger] m.as_map().dom().contains(k) implies k.len() == 2 && bucket_of(m, k).len() > 0 by {
                if k == kv {
                    let pos = choose|pos: int|
                        is_insert_pos(bucket_of(old_m, kv), x.1, pos) && bucket_of(m, kv)
                            == bucket_of(old_m, kv).insert(pos, entry_view(x));
                } else {
                    assert(old_m.as_map().dom().contains(k));
                }
            }
            assert forall|w1: Seq<char>, w2: Seq<char>|
                is_sorted_perm(
                    #[trigger] bucket_of(m, pair_key(w1, w2)),
                    trigram_table_rows(rows@.take(i + 1), w1, w2),
                ) by {
                assert(is_sorted_perm(bucket_of(old_m, pair_key(w1, w2)), trigram_table_rows(rows@.take(i as int), w1, w2)));
                if w1 == a0 && w2 == b0 {
                    let pos = choose|pos: int|
                        is_insert_pos(bucket_of(old_m, kv), x.1, pos) && bucket_of(m, kv)
                            == bucket_of(old_m, kv).insert(pos, entry_view(x));
                    lemma_sorted_perm_step(
                        bucket_of(old_m, kv),
                        trigram_table_rows(rows@.take(i as int), w1, w2),
                        entry_view(x),
                        pos,
                    );
                } else {
                    if pair_key(w1, w2) == kv {
                        assert(pair_key(w1, w2)[0] == kv[0]);
                        assert(pair_key(w1, w2)[1] == kv[1]);
                    }
                    assert(bucket_of(m, pair_key(w1, w2)) == bucket_of(old_m, pair_key(w1, w2)));
                }
            }
        }
        proof {
            assert forall|w1: Seq<char>, w2: Seq<char>|
                #[trigger] bucket_of(m, pair_key(w1, w2)) == stable_sorted(
                    trigram_table_rows(rows@.take(i + 1), w1, w2),
                ) by {
                if w1 == a0 && w2 == b0 {
                    let c = trigram_table_rows(rows@.take(i as int), w1, w2);
                    let ob = bucket_of(old_m, kv);
                    let pos = choose|pos: int|
                        is_insert_pos(ob, x.1, pos) && bucket_of(m, kv) == ob.insert(pos, entry_view(x));
                    assert(is_sorted_perm(ob, c));
                    lemma_insert_pos_unique(ob, x.1, pos);
                    let c2 = trigram_table_rows(rows@.take(i + 1), w1, w2);
                    assert(c2 == c.push(entry_view(x)));
                    assert(c2.drop_last() =~= c);
                } else {
                    if pair_key(w1, w2) == kv {
                        assert(pair_key(w1, w2)[0] == kv[0]);
                        assert(pair_key(w1, w2)[1] == kv[1]);
                    }
                    assert(bucket_of(m, pair_key(w1, w2)) == bucket_of(old_m, pair_key(w1, w2)));
                }
            }
        }
        i = i + 1;
    }
    proof {
        assert(rows@.take(rows@.len() as int) =~= rows@);
    }
    m
}

/// The entries of a map keyed by single words, as `(word, freq)` in order.
pub open spec fn word_entries(m: NgramMap<i64>) -> Seq<(Seq<char>, i64)> {
    Seq::new(m.spec_len(), |i: int| (m.key_seq()[i][0], m.val_seq()[i]))
}

/// Every key of `m` is a single word.
pub open spec fn single_word_keys<V>(m: NgramMap<V>) -> bool {
    forall|i: int| 0 <= i < m.spec_len() ==> (#[trigger] m.key_seq()[i]).len() == 1
}

proof fn lemma_word_entries(m: NgramMap<i64>)
    requires
        m.wf(),
        single_word_keys(m),
    ensures
        word_entries(m).no_duplicates(),
        forall|x: (Seq<char>, i64)|
            #[trigger] word_entries(m).contains(x) <==> word_freqs(m).contains_key(x.0)
                && word_freqs(m)[x.0] == x.1,
{
    m.lemma_wf();
    let e = word_entries(m);
    assert forall|a: int, b: int| 0 <= a < e.len() && 0 <= b < e.len() && a != b implies e[a]
        != e[b] by {
        assert(m.key_seq()[a].len() == 1);
        assert(m.key_seq()[b].len() == 1);
        if e[a].0 == e[b].0 {
            assert(m.key_seq()[a] =~= m.key_seq()[b]);
        }
    }
    assert forall|x: (Seq<char>, i64)| #[trigger] e.contains(x) <==> word_freqs(m).contains_key(x.0)
        && word_freqs(m)[x.0] == x.1 by {
        if e.contains(x) {
            let i = e.index_of(x);
            assert(m.key_seq()[i].len() == 1);
            assert(m.key_seq()[i] =~= seq![x.0]);
            m.lemma_position(i);
        }
        if word_freqs(m).contains_key(x.0) && word_freqs(m)[x.0] == x.1 {
            let k = seq![x.0];
            assert(m.as_map().contains_key(k));
            let i = m.position(k);
            assert(m.key_seq()[i] == k);
            m.lemma_position(i);
            assert(e[i] == x);
        }
    }
}

/// The `k` best completions of `p`, as a list, are the `k` best of the set.
proof fn lemma_top_k_as_set(m: NgramMap<i64>, b: Seq<(Seq<char>, i64)>, p: Seq<char>, k: nat)
    requires
        m.wf(),
        single_word_keys(m),
        is_top_k(b, candidates_in(word_entries(m), p), k),
    ensures
        is_top_k_of(b, prefix_candidates(word_freqs(m), p), k),
{
    lemma_word_entries(m);
    let c = candidates_in(word_entries(m), p);
    let cs = prefix_candidates(word_freqs(m), p);
    lemma_candidates_in_no_dup(word_entries(m), p);
    assert forall|x: (Seq<char>, i64)| #[trigger] c.contains(x) <==> cs.contains(x) by {
        lemma_candidates_in_contains(word_entries(m), p, x);
    }
    assert(c.to_set() =~= cs);
    c.unique_seq_to_set();
}

/// The `k` best completions of every prefix of the words of `uni`.
fn build_prefix_cache(uni: &NgramMap<i64>) -> (pc: NgramMap<Vec<(String, i64)>>)
    requires
        uni.wf(),
        single_word_keys(*uni),
    ensures
        pc.wf(),
        forall|p: Seq<char>|
            is_top_k(
                #[trigger] bucket_of(pc, seq![p]),
                candidates_in(word_entries(*uni), p),
                PREFIX_BUCKET_SIZE as nat,
            ),
        forall|p: Seq<char>|
            #[trigger] bucket_of(pc, seq![p]) == ranked_top(
                candidates_in(word_entries(*uni), p),
                PREFIX_BUCKET_SIZE as nat,
            ),
{
    let ghost e = word_entries(*uni);
    proof {
        lemma_word_entries(*uni);
    }
    let mut pc: NgramMap<Vec<(String, i64)>> = NgramMap::new();
    let n = uni.len();
    let mut i: usize = 0;
    proof {
        assert forall|p: Seq<char>|
            is_top_k(
                #[trigger] bucket_of(pc, seq![p]),
                candidates_in(e.take(0), p),
                PREFIX_BUCKET_SIZE as nat,
            ) by {
            assert(e.take(0) =~= Seq::<(Seq<char>, i64)>::empty());
            assert(bucket_of(pc, seq![p]) =~= Seq::<(Seq<char>, i64)>::empty());
        }
        assert forall|p: Seq<char>|
            #[trigger] bucket_of(pc, seq![p]) == ranked_top(
                candidates_in(e.take(0), p),
                PREFIX_BUCKET_SIZE as nat,
            ) by {
            assert(e.take(0) =~= Seq::<(Seq<char>, i64)>::empty());
            assert(bucket_of(pc, seq![p]) =~= Seq::<(Seq<char>, i64)>::empty());
        }
    }
    while i < n
        invariant
            uni.wf(),
            single_word_keys(*uni),
            e == word_entries(*uni),
            e.no_duplicates(),
            n == uni.spec_len(),
            i <= n,
            pc.wf(),
            forall|p: Seq<char>|
                is_top_k(
                    #[trigger] bucket_of(pc, seq![p]),
                    candidates_in(e.take(i as int), p),
                    PREFIX_BUCKET_SIZE as nat,
                ),
            forall|p: Seq<char>|
                #[trigger] bucket_of(pc, seq![p]) == ranked_top(
                    candidates_in(e.take(i as int), p),
                    PREFIX_BUCKET_SIZE as nat,
                ),
        decreases n - i,
    {
        let key = uni.key_at(i);
        proof {
            assert(uni.key_seq()[i as int].len() == 1);
            assert(words_view(key@).len() == 1);
        }
        let word: &String = &key[0];
        let freq: i64 = *uni.value_at(i);
        let ghost w = word@;
        let ghost x = (w, freq);
        proof {
            assert(e[i as int] == x);
            assert(!e.take(i as int).contains(x)) by {
                if e.take(i as int).contains(x) {
                    let t = e.take(i as int).index_of(x);
                    assert(e[t] == e[i as int]);
                }
            }
        }
        let cs = chars_of(word.as_str());
        let mut pre: Vec<char> = Vec::new();
        let mut bytes: usize = 0;
        let mut k: usize = 0;
        proof {
            assert(pre@ =~= cs@.take(0));
        }
        while k < cs.len()
            invariant
                cs@ == w,
                k <= cs@.len(),
                pre@ == cs@.take(k as int),
                bytes == if byte_len(pre@) >= 2 {
                    2
                } else {
                    byte_len(pre@)
                },
                pc.wf(),
                !e.take(i as int).contains(x),
                word@ == w,
                x == (w, freq),
                forall|p: Seq<char>|
                    is_top_k(
                        #[trigger] bucket_of(pc, seq![p]),
                        if p.len() <= k && completes(p, w) {
                            candidates_in(e.take(i as int), p).push(x)
                        } else {
                            candidates_in(e.take(i as int), p)
                        },
                        PREFIX_BUCKET_SIZE as nat,
                    ),
                forall|p: Seq<char>|
                    #[trigger] bucket_of(pc, seq![p]) == ranked_top(
                        if p.len() <= k && completes(p, w) {
                            candidates_in(e.take(i as int), p).push(x)
                        } else {
                            candidates_in(e.take(i as int), p)
                        },
                        PREFIX_BUCKET_SIZE as nat,
                    ),
            decreases cs@.len() - k,
        {
            let c = cs[k];
            let ghost old_pre = pre@;
            pre.push(c);
            let cw = char_byte_len(c);
            bytes = if bytes + cw >= 2 {
                2
            } else {
                bytes + cw
            };
            proof {
                lemma_byte_len_push(old_pre, c);
                assert(pre@ =~= cs@.take(k + 1));
            }
            let ghost p0 = pre@;
            let ghost old_pc = pc;
            if bytes >= 2 {
                let pkey = vec![string_of(pre.as_slice())];
                proof {
                    assert(words_view(pkey@) =~= seq![p0]);
                    assert(p0.is_prefix_of(w));
                    assert(completes(p0, w));
                }
                add_ranked(&mut pc, pkey, (word.clone(), freq), PREFIX_BUCKET_SIZE);
                proof {
                    let c0 = candidates_in(e.take(i as int), p0);
                    assert(is_top_k(bucket_of(old_pc, seq![p0]), c0, PREFIX_BUCKET_SIZE as nat));
                    let pos = choose|pos: int|
                        is_insert_pos(bucket_of(old_pc, seq![p0]), freq, pos) && bucket_of(
                            pc,
                            seq![p0],
                        ) == bucket_of(old_pc, seq![p0]).insert(pos, (w, freq)).take(
                            kept_len(bucket_of(old_pc, seq![p0]).len(), PREFIX_BUCKET_SIZE as nat),
                        );
                    lemma_candidates_in_contains(e.take(i as int), p0, x);
                    lemma_top_k_step(
                        bucket_of(old_pc, seq![p0]),
                        c0,
                        x,
                        pos,
                        PREFIX_BUCKET_SIZE as nat,
                    );
                    lemma_insert_pos_unique(bucket_of(old_pc, seq![p0]), freq, pos);
                    assert(c0.push(x).drop_last() =~= c0);
                }
            }
            proof {
                assert forall|p: Seq<char>|
                    is_top_k(
                        #[trigger] bucket_of(pc, seq![p]),
                        if p.len() <= k + 1 && completes(p, w) {
                            candidates_in(e.take(i as int), p).push(x)
                        } else {
                            candidates_in(e.take(i as int), p)
                        },
                        PREFIX_BUCKET_SIZE as nat,
                    ) by {
                    let before = bucket_of(old_pc, seq![p]);
                    assert(is_top_k(
                        before,
                        if p.len() <= k && completes(p, w) {
                            candidates_in(e.take(i as int), p).push(x)
                        } else {
                            candidates_in(e.take(i as int), p)
                        },
                        PREFIX_BUCKET_SIZE as nat,
                    ));
                    if p == p0 {
                        if bytes < 2 {
                            assert(!completes(p, w));
                            assert(bucket_of(pc, seq![p]) == before);
                        }
                    } else {
                        if seq![p] == seq![p0] {
                            assert(seq![p][0] == seq![p0][0]);
                        }
                        assert(bucket_of(pc, seq![p]) == before);
                        if p.len() == k + 1 && p.is_prefix_of(w) {
                            assert(p =~= cs@.take(k + 1));
                        }
                    }
                }
            }
            proof {
                assert forall|p: Seq<char>|
                    #[trigger] bucket_of(pc, seq![p]) == ranked_top(
                        if p.len() <= k + 1 && completes(p, w) {
                            candidates_in(e.take(i as int), p).push(x)
                        } else {
                            candidates_in(e.take(i as int), p)
                        },
                        PREFIX_BUCKET_SIZE as nat,
                    ) by {
                    let before = bucket_of(old_pc, seq![p]);
                    if p == p0 {
                        if bytes < 2 {
                            assert(!completes(p, w));
                            assert(bucket_of(pc, seq![p]) == before);
                        }
                    } else {
                        if seq![p] == seq![p0] {
                            assert(seq![p][0] == seq![p0][0]);
                        }
                        assert(bucket_of(pc, seq![p]) == before);
                        if p.len() == k + 1 && p.is_prefix_of(w) {
                            assert(p =~= cs@.take(k + 1));
                        }
                    }
                }
            }
            k = k + 1;
        }
        proof {
            assert forall|p: Seq<char>|
                is_top_k(
                    #[trigger] bucket_of(pc, seq![p]),
                    candidates_in(e.take(i + 1), p),
                    PREFIX_BUCKET_SIZE as nat,
                ) by {
                lemma_candidates_in_take(e, p, i as int);
            }
            assert forall|p: Seq<char>|
                #[trigger] bucket_of(pc, seq![p]) == ranked_top(
                    candidates_in(e.take(i + 1), p),
                    PREFIX_BUCKET_SIZE as nat,
                ) by {
                lemma_candidates_in_take(e, p, i as int);
            }
        }
        i = i + 1;
    }
    proof {
        assert(e.take(n as int) =~= e);
    }
    pc
}

/// In-memory copy of the n-gram tables, with a completion index by prefix.
pub struct NgramCache {
    unigrams: NgramMap<i64>,
    bigrams: NgramMap<Vec<(String, i64)>>,
    trigrams: NgramMap<Vec<(String, i64)>>,
    prefix_cache: NgramMap<Vec<(String, i64)>>,
}

impl NgramCache {
    /// Frequency of each known word.
    pub closed spec fn unigram_freqs(&self) -> Map<Seq<char>, i64> {
        word_freqs(self.unigrams)
    }

    /// Followers of `w1`, most frequent first.
    pub closed spec fn bigram_bucket(&self, w1: Seq<char>) -> Seq<(Seq<char>, i64)> {
        bucket_of(self.bigrams, seq![w1])
    }

    /// Followers of `w1 w2`, most frequent first.
    pub closed spec fn trigram_bucket(&self, w1: Seq<char>, w2: Seq<char>) -> Seq<
        (Seq<char>, i64),
    > {
        bucket_of(self.trigrams, pair_key(w1, w2))
    }

    /// The best completions of prefix `p`, most frequent first.
    pub closed spec fn prefix_bucket(&self, p: Seq<char>) -> Seq<(Seq<char>, i64)> {
        bucket_of(self.prefix_cache, seq![p])
    }

    /// The tables are well formed, the prefix buckets hold the best
    /// completions and the follower buckets are sorted.
    pub closed spec fn wf(&self) -> bool {
        &&& self.unigrams.wf()
        &&& single_word_keys(self.unigrams)
        &&& self.bigrams.wf()
        &&& self.trigrams.wf()
        &&& self.prefix_cache.wf()
        &&& keys_filled(self.bigrams, 1)
        &&& keys_filled(self.trigrams, 2)
        &&& forall|p: Seq<char>|
            is_top_k_of(
                #[trigger] bucket_of(self.prefix_cache, seq![p]),
                prefix_candidates(word_freqs(self.unigrams), p),
                PREFIX_BUCKET_SIZE as nat,
            )
        &&& forall|w1: Seq<char>| sorted_desc(#[trigger] bucket_of(self.bigrams, seq![w1]))
        &&& forall|w1: Seq<char>, w2: Seq<char>|
            sorted_desc(#[trigger] bucket_of(self.trigrams, pair_key(w1, w2)))
    }

    /// What a well-formed cache keeps: for every prefix the best completions
    /// among the known words, and followers sorted by decreasing frequency.
    pub proof fn lemma_wf(&self)
        requires
            self.wf(),
        ensures
            forall|p: Seq<char>|
                is_top_k_of(
                    #[trigger] self.prefix_bucket(p),
                    prefix_candidates(self.unigram_freqs(), p),
                    PREFIX_BUCKET_SIZE as nat,
                ),
            forall|w1: Seq<char>| sorted_desc(#[trigger] self.bigram_bucket(w1)),
            forall|w1: Seq<char>, w2: Seq<char>| sorted_desc(#[trigger] self.trigram_bucket(w1, w2)),
    {
        assert forall|p: Seq<char>|
            is_top_k_of(
                #[trigger] self.prefix_bucket(p),
                prefix_candidates(self.unigram_freqs(), p),
                PREFIX_BUCKET_SIZE as nat,
            ) by {
            assert(is_top_k_of(
                bucket_of(self.prefix_cache, seq![p]),
                prefix_candidates(word_freqs(self.unigrams), p),
                PREFIX_BUCKET_SIZE as nat,
            ));
        }
        assert forall|w1: Seq<char>| sorted_desc(#[trigger] self.bigram_bucket(w1)) by {
            assert(sorted_desc(bucket_of(self.bigrams, seq![w1])));
        }
        assert forall|w1: Seq<char>, w2: Seq<char>|
            sorted_desc(#[trigger] self.trigram_bucket(w1, w2)) by {
            assert(sorted_desc(bucket_of(self.trigrams, pair_key(w1, w2))));
        }
    }

    /// The cache holds exactly what the tables hold.
    pub open spec fn reflects(&self, t: NgramTables) -> bool {
        &&& self.unigram_freqs() == unigram_table_map(t.unigrams@)
        &&& forall|w1: Seq<char>|
            #[trigger] self.bigram_bucket(w1) == stable_sorted(bigram_table_rows(t.bigrams@, w1))
        &&& forall|w1: Seq<char>, w2: Seq<char>|
            #[trigger] self.trigram_bucket(w1, w2) == stable_sorted(
                trigram_table_rows(t.trigrams@, w1, w2),
            )
        &&& forall|p: Seq<char>|
            #[trigger] self.prefix_bucket(p) == ranked_top(
                candidates_in(unigram_entries(t.unigrams@), p),
                PREFIX_BUCKET_SIZE as nat,
            )
        &&& forall|w1: Seq<char>|
            is_sorted_perm(#[trigger] self.bigram_bucket(w1), bigram_table_rows(t.bigrams@, w1))
        &&& forall|w1: Seq<char>, w2: Seq<char>|
            is_sorted_perm(
                #[trigger] self.trigram_bucket(w1, w2),
                trigram_table_rows(t.trigrams@, w1, w2),
            )
    }

    fn build(tables: &NgramTables) -> (c: Self)
        ensures
            c.wf(),
            c.reflects(*tables),
    {
        let unigrams = build_unigrams(&tables.unigrams);
        let bigrams = build_bigrams(&tables.bigrams);
        let trigrams = build_trigrams(&tables.trigrams);
        let prefix_cache = build_prefix_cache(&unigrams);
        let c = NgramCache { unigrams, bigrams, trigrams, prefix_cache };
        proof {
            assert forall|p: Seq<char>|
                is_top_k_of(
                    #[trigger] bucket_of(c.prefix_cache, seq![p]),
                    prefix_candidates(word_freqs(c.unigrams), p),
                    PREFIX_BUCKET_SIZE as nat,
                ) by {
                lemma_top_k_as_set(
                    c.unigrams,
                    bucket_of(c.prefix_cache, seq![p]),
                    p,
                    PREFIX_BUCKET_SIZE as nat,
                );
            }
            assert forall|w1: Seq<char>| sorted_desc(#[trigger] bucket_of(c.bigrams, seq![w1])) by {
                assert(is_sorted_perm(bucket_of(c.bigrams, seq![w1]), bigram_table_rows(tables.bigrams@, w1)));
            }
            assert forall|w1: Seq<char>, w2: Seq<char>|
                sorted_desc(#[trigger] bucket_of(c.trigrams, pair_key(w1, w2))) by {
                assert(is_sorted_perm(
                    bucket_of(c.trigrams, pair_key(w1, w2)),
                    trigram_table_rows(tables.trigrams@, w1, w2),
                ));
            }
            assert forall|w1: Seq<char>|
                is_sorted_perm(#[trigger] c.bigram_bucket(w1), bigram_table_rows(tables.bigrams@, w1)) by {
                assert(is_sorted_perm(bucket_of(c.bigrams, seq![w1]), bigram_table_rows(tables.bigrams@, w1)));
            }
            assert forall|w1: Seq<char>, w2: Seq<char>|
                is_sorted_perm(
                    #[trigger] c.trigram_bucket(w1, w2),
                    trigram_table_rows(tables.trigrams@, w1, w2),
                ) by {
                assert(is_sorted_perm(
                    bucket_of(c.trigrams, pair_key(w1, w2)),
                    trigram_table_rows(tables.trigrams@, w1, w2),
                ));
            }
            assert forall|w1: Seq<char>|
                #[trigger] c.bigram_bucket(w1) == stable_sorted(bigram_table_rows(tables.bigrams@, w1)) by {
                assert(bucket_of(c.bigrams, seq![w1]) == stable_sorted(bigram_table_rows(tables.bigrams@, w1)));
            }
            assert forall|w1: Seq<char>, w2: Seq<char>|
                #[trigger] c.trigram_bucket(w1, w2) == stable_sorted(
                    trigram_table_rows(tables.trigrams@, w1, w2),
                ) by {
                assert(bucket_of(c.trigrams, pair_key(w1, w2)) == stable_sorted(
                    trigram_table_rows(tables.trigrams@, w1, w2),
                ));
            }
            assert forall|p: Seq<char>|
                #[trigger] c.prefix_bucket(p) == ranked_top(
                    candidates_in(unigram_entries(tables.unigrams@), p),
                    PREFIX_BUCKET_SIZE as nat,
                ) by {
                assert(bucket_of(c.prefix_cache, seq![p]) == ranked_top(
                    candidates_in(word_entries(c.unigrams), p),
                    PREFIX_BUCKET_SIZE as nat,
                ));
            }
        }
        c
    }

    /// Caches that reflect the same tables answer alike: the same word
    /// frequencies, followers and completions, whatever they were built
    /// from before (so a refresh gives what a fresh load gives).
    pub proof fn law_same_tables_same_answers(a: NgramCache, b: NgramCache, t: NgramTables)
        requires
            a.reflects(t),
            b.reflects(t),
        ensures
            a.unigram_freqs() == b.unigram_freqs(),
            forall|w1: Seq<char>| #[trigger] a.bigram_bucket(w1) == b.bigram_bucket(w1),
            forall|w1: Seq<char>, w2: Seq<char>|
                #[trigger] a.trigram_bucket(w1, w2) == b.trigram_bucket(w1, w2),
            forall|p: Seq<char>| #[trigger] a.prefix_bucket(p) == b.prefix_bucket(p),
    {
        assert forall|w1: Seq<char>| #[trigger] a.bigram_bucket(w1) == b.bigram_bucket(w1) by {
            assert(a.bigram_bucket(w1) == stable_sorted(bigram_table_rows(t.bigrams@, w1)));
        }
        assert forall|w1: Seq<char>, w2: Seq<char>|
            #[trigger] a.trigram_bucket(w1, w2) == b.trigram_bucket(w1, w2) by {
            assert(a.trigram_bucket(w1, w2) == stable_sorted(trigram_table_rows(t.trigrams@, w1, w2)));
        }
        assert forall|p: Seq<char>| #[trigger] a.prefix_bucket(p) == b.prefix_bucket(p) by {
            assert(a.prefix_bucket(p) == ranked_top(
                candidates_in(unigram_entries(t.unigrams@), p),
                PREFIX_BUCKET_SIZE as nat,
            ));
        }
    }

    /// Builds the cache from the rows read from the database.
    pub fn load_from_db(tables: &NgramTables) -> (c: Self)
        ensures
            c.wf(),
            c.reflects(*tables),
    {
        Self::build(tables)
    }

    /// Replaces the whole content with the rows read from the database.
    pub fn refresh(&mut self, tables: &NgramTables)
        ensures
            final(self).wf(),
            final(self).reflects(*tables),
    {
        *self = Self::build(tables);
    }

    /// Number of distinct known words.
    pub fn unigram_count(&self) -> (n: usize)
        requires
            self.wf(),
        ensures
            n == self.unigram_freqs().dom().len(),
    {
        proof {
            lemma_word_entries(self.unigrams);
            let e = word_entries(self.unigrams);
            assert forall|w: Seq<char>| #[trigger] self.unigram_freqs().dom().contains(w) <==> e.map_values(
                |x: (Seq<char>, i64)| x.0,
            ).to_set().contains(w) by {
                let ws = e.map_values(|x: (Seq<char>, i64)| x.0);
                if self.unigram_freqs().dom().contains(w) {
                    let x = (w, self.unigram_freqs()[w]);
                    assert(e.contains(x));
                    let t = e.index_of(x);
                    assert(ws[t] == w);
                }
                if ws.to_set().contains(w) {
                    let t = ws.index_of(w);
                    assert(e.contains(e[t]));
                }
            }
            let ws = e.map_values(|x: (Seq<char>, i64)| x.0);
            assert(ws.no_duplicates()) by {
                assert forall|a: int, b: int| 0 <= a < ws.len() && 0 <= b < ws.len() && a != b implies ws[a]
                    != ws[b] by {
                    if ws[a] == ws[b] {
                        assert(e[a].0 == e[b].0);
                        assert(e.contains(e[a]));
                        assert(e.contains(e[b]));
                        assert(e[a] == e[b]);
                    }
                }
            }
            ws.unique_seq_to_set();
            assert(self.unigram_freqs().dom() =~= ws.to_set());
        }
        self.unigrams.len()
    }

    /// The words that have followers.
    pub open spec fn bigram_words(&self) -> Set<Seq<char>> {
        Set::new(|w1: Seq<char>| self.bigram_bucket(w1).len() > 0)
    }

    /// The pairs of words that have followers.
    pub open spec fn trigram_pairs(&self) -> Set<(Seq<char>, Seq<char>)> {
        Set::new(|p: (Seq<char>, Seq<char>)| self.trigram_bucket(p.0, p.1).len() > 0)
    }

    /// Number of words that have followers.
    pub fn bigram_key_count(&self) -> (n: usize)
        requires
            self.wf(),
        ensures
            self.bigram_words().finite(),
            n == self.bigram_words().len(),
    {
        proof {
            let m = self.bigrams;
            let dom = m.as_map().dom();
            let f = |k: Seq<Seq<char>>| k[0];
            m.lemma_dom_len();
            assert forall|w1: Seq<char>| #[trigger] self.bigram_words().contains(w1) <==> dom.map(
                f,
            ).contains(w1) by {
                if self.bigram_words().contains(w1) {
                    assert(dom.contains(seq![w1]) && f(seq![w1]) == w1);
                }
                if dom.map(f).contains(w1) {
                    let k = choose|k: Seq<Seq<char>>| dom.contains(k) && f(k) == w1;
                    assert(k =~= seq![w1]);
                }
            }
            assert(dom.map(f) =~= self.bigram_words());
            assert forall|a: Seq<Seq<char>>, b: Seq<Seq<char>>|
                dom.contains(a) && dom.contains(b) && #[trigger] f(a) == #[trigger] f(b) implies a
                == b by {
                assert(a =~= b);
            }
            vstd::set_lib::lemma_map_size(dom, self.bigram_words(), f);
        }
        self.bigrams.len()
    }

    /// Number of pairs of words that have followers.
    pub fn trigram_key_count(&self) -> (n: usize)
        requires
            self.wf(),
        ensures
            self.trigram_pairs().finite(),
            n == self.trigram_pairs().len(),
    {
        proof {
            let m = self.trigrams;
            let dom = m.as_map().dom();
            let f = |k: Seq<Seq<char>>| (k[0], k[1]);
            m.lemma_dom_len();
            assert forall|p: (Seq<char>, Seq<char>)| #[trigger] self.trigram_pairs().contains(p) <==> dom.map(
                f,
            ).contains(p) by {
                if self.trigram_pairs().contains(p) {
                    assert(dom.contains(pair_key(p.0, p.1)) && f(pair_key(p.0, p.1)) == p);
                }
                if dom.map(f).contains(p) {
                    let k = choose|k: Seq<Seq<char>>| dom.contains(k) && f(k) == p;
                    assert(k =~= pair_key(p.0, p.1));
                }
            }
            assert(dom.map(f) =~= self.trigram_pairs());
            assert forall|a: Seq<Seq<char>>, b: Seq<Seq<char>>|
                dom.contains(a) && dom.contains(b) && #[trigger] f(a) == #[trigger] f(b) implies a
                == b by {
                assert(a =~= b);
            }
            vstd::set_lib::lemma_map_size(dom, self.trigram_pairs(), f);
        }
        self.trigrams.len()
    }

    /// The most frequent follower of `w1 w2` that starts with `prefix`.
    pub fn trigram_predict(&self, w1: &str, w2: &str, prefix: &str) -> (r: Option<String>)
        requires
            self.wf(),
        ensures
            opt_view(r) == first_match(self.trigram_bucket(w1@, w2@), prefix@),
    {
        let key = vec![w1.to_owned(), w2.to_owned()];
        proof {
            assert(words_view(key@) =~= pair_key(w1@, w2@));
        }
        match self.trigrams.find(&key) {
            Some(i) => first_match_exec(self.trigrams.value_at(i), prefix),
            None => None,
        }
    }

    /// The most frequent follower of `w1` that starts with `prefix`.
    pub fn bigram_predict(&self, w1: &str, prefix: &str) -> (r: Option<String>)
        requires
            self.wf(),
        ensures
            opt_view(r) == first_match(self.bigram_bucket(w1@), prefix@),
    {
        let key = vec![w1.to_owned()];
        proof {
            assert(words_view(key@) =~= seq![w1@]);
        }
        match self.bigrams.find(&key) {
            Some(i) => first_match_exec(self.bigrams.value_at(i), prefix),
            None => None,
        }
    }

    /// The most frequent known word that completes `prefix`, other than
    /// `prefix` itself.
    pub fn unigram_predict(&self, prefix: &str) -> (r: Option<String>)
        requires
            self.wf(),
        ensures
            opt_view(r) == unigram_choice(self.prefix_bucket(prefix@), prefix@),
    {
        let p = prefix.to_owned();
        let key = vec![prefix.to_owned()];
        proof {
            assert(words_view(key@) =~= seq![prefix@]);
        }
        match self.prefix_cache.find(&key) {
            Some(i) => {
                let b = self.prefix_cache.value_at(i);
                proof {
                    assert(ranked_view(b@).len() == b@.len());
                }
                if b.len() == 0 {
                    None
                } else if b[0].0 != p {
                    proof {
                        assert(ranked_view(b@)[0] == entry_view(b@[0]));
                    }
                    Some(b[0].0.clone())
                } else if b.len() > 1 {
                    proof {
                        assert(ranked_view(b@)[0] == entry_view(b@[0]));
                        assert(ranked_view(b@)[1] == entry_view(b@[1]));
                    }
                    Some(b[1].0.clone())
                } else {
                    proof {
                        assert(ranked_view(b@)[0] == entry_view(b@[0]));
                    }
                    None
                }
            },
            None => None,
        }
    }
}

} // verus!
