//! Counting the words, word pairs and word triples of exported Telegram
//! messages.
use crate::config::str_eq;
use crate::ngram_cache::pair_key;
use crate::ngram_map::{words_view, NgramMap};
use crate::suggest::{context_words, extract_context_words, words_of};
use crate::text::{byte_len, has_min_bytes, string_of};
use vstd::prelude::*;

verus! {

/// Counts of one import.
pub struct ImportStats {
    pub messages: usize,
    pub unigrams: usize,
    pub bigrams: usize,
    pub trigrams: usize,
}

/// One element of a formatted message text: a piece of text, or something
/// without text.
pub enum TextPart {
    Text(String),
    NoText,
}

/// The text of a message: plain, made of parts, or something else.
pub enum MessageText {
    Plain(String),
    Parts(Vec<TextPart>),
    Other,
}

/// One exported message.
pub struct TgMessage {
    pub msg_type: Option<String>,
    pub from_id: Option<String>,
    pub text: MessageText,
}

/// The texts of the parts, joined.
pub open spec fn parts_text(ps: Seq<TextPart>) -> Seq<char>
    decreases ps.len(),
{
    if ps.len() == 0 {
        Seq::empty()
    } else {
        parts_text(ps.drop_last()) + match ps.last() {
            TextPart::Text(s) => s@,
            TextPart::NoText => Seq::empty(),
        }
    }
}

/// The text of a message, if it has one.
pub open spec fn message_text(t: MessageText) -> Option<Seq<char>> {
    match t {
        MessageText::Plain(s) => Some(s@),
        MessageText::Parts(ps) => Some(parts_text(ps@)),
        MessageText::Other => None,
    }
}

/// The words of `ws` of at least two bytes.
pub open spec fn long_words(ws: Seq<Seq<char>>) -> Seq<Seq<char>>
    decreases ws.len(),
{
    if ws.len() == 0 {
        Seq::empty()
    } else if byte_len(ws.last()) >= 2 {
        long_words(ws.drop_last()).push(ws.last())
    } else {
        long_words(ws.drop_last())
    }
}

/// The words of a text that are learnt: lower-cased, at least two bytes.
pub open spec fn learnt_words(text: Seq<char>) -> Seq<Seq<char>> {
    long_words(context_words(text))
}

/// The words a message contributes, if it is an ordinary message (from the
/// sender asked for, if one is) with at least one word.
pub open spec fn used_words(m: TgMessage, filter: Option<Seq<char>>) -> Option<Seq<Seq<char>>> {
    if m.msg_type matches Some(t) && t@ == "message"@ && (filter matches Some(f) ==> (m.from_id matches Some(
        id,
    ) && id@ == f)) {
        match message_text(m.text) {
            Some(t) => if learnt_words(t).len() > 0 {
                Some(learnt_words(t))
            } else {
                None
            },
            None => None,
        }
    } else {
        None
    }
}

/// The word lists of the messages that contribute, in order.
pub open spec fn word_lists(msgs: Seq<TgMessage>, filter: Option<Seq<char>>) -> Seq<
    Seq<Seq<char>>,
>
    decreases msgs.len(),
{
    if msgs.len() == 0 {
        Seq::empty()
    } else {
        let rest = word_lists(msgs.drop_last(), filter);
        match used_words(msgs.last(), filter) {
            Some(ws) => rest.push(ws),
            None => rest,
        }
    }
}

/// How often `k` occurs as consecutive words of `ws`.
pub open spec fn window_count(ws: Seq<Seq<char>>, k: Seq<Seq<char>>) -> nat
    decreases ws.len(),
{
    if ws.len() == 0 {
        0
    } else {
        window_count(ws.drop_last(), k) + if 1 <= k.len() <= ws.len() && ws.subrange(
            ws.len() - k.len(),
            ws.len() as int,
        ) == k {
            1nat
        } else {
            0nat
        }
    }
}

/// How often `k` occurs as consecutive words of one of the lists.
pub open spec fn ngram_count(lists: Seq<Seq<Seq<char>>>, k: Seq<Seq<char>>) -> nat
    decreases lists.len(),
{
    if lists.len() == 0 {
        0
    } else {
        ngram_count(lists.drop_last(), k) + window_count(lists.last(), k)
    }
}

/// The key of three words.
pub open spec fn triple_key(w1: Seq<char>, w2: Seq<char>, w3: Seq<char>) -> Seq<Seq<char>> {
    seq![w1, w2, w3]
}

/// A count as stored: at most `i64::MAX`.
pub open spec fn capped(c: nat) -> i64 {
    if c > i64::MAX {
        i64::MAX
    } else {
        c as i64
    }
}

/// The counted n-grams of length `n`: those that occur, with their counts.
pub open spec fn ngram_counts(lists: Seq<Seq<Seq<char>>>, n: nat) -> Map<Seq<Seq<char>>, i64> {
    Map::new(
        |k: Seq<Seq<char>>| k.len() == n && ngram_count(lists, k) > 0,
        |k: Seq<Seq<char>>| capped(ngram_count(lists, k)),
    )
}

/// Counted words, word pairs and word triples.
pub struct NgramCounts {
    unigrams: NgramMap<i64>,
    bigrams: NgramMap<i64>,
    trigrams: NgramMap<i64>,
}

impl NgramCounts {
    /// The counts of the n-grams of length `n` (1, 2 or 3).
    pub closed spec fn counts(&self, n: nat) -> Map<Seq<Seq<char>>, i64> {
        if n == 1 {
            self.unigrams.as_map()
        } else if n == 2 {
            self.bigrams.as_map()
        } else {
            self.trigrams.as_map()
        }
    }

    pub closed spec fn wf(&self) -> bool {
        &&& self.unigrams.wf()
        &&& self.bigrams.wf()
        &&& self.trigrams.wf()
        &&& forall|i: int|
            0 <= i < self.unigrams.spec_len() ==> (#[trigger] self.unigrams.key_seq()[i]).len()
                == 1
        &&& forall|i: int|
            0 <= i < self.bigrams.spec_len() ==> (#[trigger] self.bigrams.key_seq()[i]).len() == 2
        &&& forall|i: int|
            0 <= i < self.trigrams.spec_len() ==> (#[trigger] self.trigrams.key_seq()[i]).len()
                == 3
    }

    /// The counted words, as `(word, count)`.
    pub fn unigram_rows(&self) -> (rows: Vec<(String, i64)>)
        requires
            self.wf(),
        ensures
            rows@.len() == self.counts(1).dom().len(),
            forall|i: int|
                0 <= i < rows@.len() ==> #[trigger] self.counts(1).contains_key(seq![rows@[i].0@])
                    && self.counts(1)[seq![rows@[i].0@]] == rows@[i].1,
            forall|i: int, j: int| 0 <= i < j < rows@.len() ==> rows@[i].0@ != rows@[j].0@,
    {
        let mut rows: Vec<(String, i64)> = Vec::new();
        let n = self.unigrams.len();
        let mut i: usize = 0;
        proof {
            self.unigrams.lemma_dom_len();
        }
        while i < n
            invariant
                self.wf(),
                n == self.unigrams.spec_len(),
                i <= n,
                rows@.len() == i,
                forall|t: int| 0 <= t < i ==> #[trigger] self.unigrams.key_seq()[t] == seq![rows@[t].0@],
                forall|t: int|
                    0 <= t < i ==> #[trigger] self.unigrams.as_map().contains_key(
                        seq![rows@[t].0@],
                    ) && self.unigrams.as_map()[seq![rows@[t].0@]] == rows@[t].1,
            decreases n - i,
        {
            let key = self.unigrams.key_at(i);
            let v = *self.unigrams.value_at(i);
            proof {
                assert(self.unigrams.key_seq()[i as int].len() == 1);
                assert(words_view(key@) =~= seq![key@[0]@]);
            }
            rows.push((key[0].clone(), v));
            i = i + 1;
        }
        proof {
            self.unigrams.lemma_wf();
            assert forall|i: int, j: int| 0 <= i < j < rows@.len() implies rows@[i].0@ != rows@[j].0@ by {
                assert(self.unigrams.key_seq()[i] == seq![rows@[i].0@]);
                assert(self.unigrams.key_seq()[j] == seq![rows@[j].0@]);
                if !(rows@[i].0@ != rows@[j].0@) {
                    assert(seq![rows@[i].0@] =~= seq![rows@[j].0@]);
                }
            }
        }
        rows
    }

    /// The counted word pairs, as `(w1, w2, count)`.
    pub fn bigram_rows(&self) -> (rows: Vec<(String, String, i64)>)
        requires
            self.wf(),
        ensures
            rows@.len() == self.counts(2).dom().len(),
            forall|i: int|
                0 <= i < rows@.len() ==> #[trigger] self.counts(2).contains_key(
                    pair_key(rows@[i].0@, rows@[i].1@),
                ) && self.counts(2)[pair_key(rows@[i].0@, rows@[i].1@)] == rows@[i].2,
            forall|i: int, j: int| 0 <= i < j < rows@.len() ==> (rows@[i].0@, rows@[i].1@) != (rows@[j].0@, rows@[j].1@),
    {
        let mut rows: Vec<(String, String, i64)> = Vec::new();
        let n = self.bigrams.len();
        let mut i: usize = 0;
        proof {
            self.bigrams.lemma_dom_len();
        }
        while i < n
            invariant
                self.wf(),
                n == self.bigrams.spec_len(),
                i <= n,
                rows@.len() == i,
                forall|t: int| 0 <= t < i ==> #[trigger] self.bigrams.key_seq()[t] == pair_key(rows@[t].0@, rows@[t].1@),
                forall|t: int|
                    0 <= t < i ==> #[trigger] self.bigrams.as_map().contains_key(
                        pair_key(rows@[t].0@, rows@[t].1@),
                    ) && self.bigrams.as_map()[pair_key(rows@[t].0@, rows@[t].1@)] == rows@[t].2,
            decreases n - i,
        {
            let key = self.bigrams.key_at(i);
            let v = *self.bigrams.value_at(i);
            proof {
                assert(self.bigrams.key_seq()[i as int].len() == 2);
                assert(words_view(key@) =~= seq![key@[0]@, key@[1]@]);
            }
            rows.push((key[0].clone(), key[1].clone(), v));
            i = i + 1;
        }
        proof {
            self.bigrams.lemma_wf();
            assert forall|i: int, j: int| 0 <= i < j < rows@.len() implies (rows@[i].0@, rows@[i].1@) != (rows@[j].0@, rows@[j].1@) by {
                assert(self.bigrams.key_seq()[i] == pair_key(rows@[i].0@, rows@[i].1@));
                assert(self.bigrams.key_seq()[j] == pair_key(rows@[j].0@, rows@[j].1@));
                if !((rows@[i].0@, rows@[i].1@) != (rows@[j].0@, rows@[j].1@)) {
                    assert(pair_key(rows@[i].0@, rows@[i].1@) =~= pair_key(rows@[j].0@, rows@[j].1@));
                }
            }
        }
        rows
    }

    /// The counted word triples, as `(w1, w2, w3, count)`.
    pub fn trigram_rows(&self) -> (rows: Vec<(String, String, String, i64)>)
        requires
            self.wf(),
        ensures
            rows@.len() == self.counts(3).dom().len(),
            forall|i: int|
                0 <= i < rows@.len() ==> #[trigger] self.counts(3).contains_key(
                    triple_key(rows@[i].0@, rows@[i].1@, rows@[i].2@),
                ) && self.counts(3)[triple_key(rows@[i].0@, rows@[i].1@, rows@[i].2@)] == rows@[i].3,
            forall|i: int, j: int| 0 <= i < j < rows@.len() ==> (rows@[i].0@, rows@[i].1@, rows@[i].2@) != (rows@[j].0@, rows@[j].1@, rows@[j].2@),
    {
        let mut rows: Vec<(String, String, String, i64)> = Vec::new();
        let n = self.trigrams.len();
        let mut i: usize = 0;
        proof {
            self.trigrams.lemma_dom_len();
        }
        while i < n
            invariant
                self.wf(),
                n == self.trigrams.spec_len(),
                i <= n,
                rows@.len() == i,
                forall|t: int| 0 <= t < i ==> #[trigger] self.trigrams.key_seq()[t] == triple_key(rows@[t].0@, rows@[t].1@, rows@[t].2@),
                forall|t: int|
                    0 <= t < i ==> #[trigger] self.trigrams.as_map().contains_key(
                        triple_key(rows@[t].0@, rows@[t].1@, rows@[t].2@),
                    ) && self.trigrams.as_map()[triple_key(rows@[t].0@, rows@[t].1@, rows@[t].2@)]
                        == rows@[t].3,
            decreases n - i,
        {
            let key = self.trigrams.key_at(i);
            let v = *self.trigrams.value_at(i);
            proof {
                assert(self.trigrams.key_seq()[i as int].len() == 3);
                assert(words_view(key@) =~= seq![key@[0]@, key@[1]@, key@[2]@]);
            }
            rows.push((key[0].clone(), key[1].clone(), key[2].clone(), v));
            i = i + 1;
        }
        proof {
            self.trigrams.lemma_wf();
            assert forall|i: int, j: int| 0 <= i < j < rows@.len() implies (rows@[i].0@, rows@[i].1@, rows@[i].2@) != (rows@[j].0@, rows@[j].1@, rows@[j].2@) by {
                assert(self.trigrams.key_seq()[i] == triple_key(rows@[i].0@, rows@[i].1@, rows@[i].2@));
                assert(self.trigrams.key_seq()[j] == triple_key(rows@[j].0@, rows@[j].1@, rows@[j].2@));
                if !((rows@[i].0@, rows@[i].1@, rows@[i].2@) != (rows@[j].0@, rows@[j].1@, rows@[j].2@)) {
                    assert(triple_key(rows@[i].0@, rows@[i].1@, rows@[i].2@) =~= triple_key(rows@[j].0@, rows@[j].1@, rows@[j].2@));
                }
            }
        }
        rows
    }
}

/// The words of `text` that are learnt: lower-cased, at least two bytes.
pub fn extract_words(text: &str) -> (r: Vec<String>)
    ensures
        words_of(r@) == learnt_words(text@),
{
    let all = extract_context_words(text);
    let ghost aw = words_of(all@);
    let mut r: Vec<String> = Vec::new();
    let mut i: usize = 0;
    while i < all.len()
        invariant
            i <= all@.len(),
            aw == words_of(all@),
            aw == context_words(text@),
            words_of(r@) == long_words(aw.take(i as int)),
        decreases all@.len() - i,
    {
        proof {
            assert(aw.take(i + 1).drop_last() =~= aw.take(i as int));
            assert(aw.take(i + 1).last() == all@[i as int]@);
        }
        if has_min_bytes(all[i].as_str(), 2) {
            let w = all[i].clone();
            let ghost old_r = r@;
            r.push(w);
            proof {
                assert(words_of(r@) =~= words_of(old_r).push(w@));
            }
        }
        i = i + 1;
    }
    proof {
        assert(aw.take(all@.len() as int) =~= aw);
    }
    r
}

/// The text of a message, if it has one.
fn text_of(t: &MessageText) -> (r: Option<String>)
    ensures
        match r {
            Some(s) => message_text(*t) == Some(s@),
            None => message_text(*t) is None,
        },
{
    match t {
        MessageText::Plain(s) => Some(s.clone()),
        MessageText::Parts(ps) => {
            let mut out: Vec<char> = Vec::new();
            let mut i: usize = 0;
            while i < ps.len()
                invariant
                    i <= ps@.len(),
                    out@ == parts_text(ps@.take(i as int)),
                decreases ps@.len() - i,
            {
                proof {
                    assert(ps@.take(i + 1).drop_last() =~= ps@.take(i as int));
                }
                match &ps[i] {
                    TextPart::Text(s) => {
                        let cs = crate::text::chars_of(s.as_str());
                        let ghost base = out@;
                        let mut k: usize = 0;
                        while k < cs.len()
                            invariant
                                k <= cs@.len(),
                                out@ == base + cs@.take(k as int),
                            decreases cs@.len() - k,
                        {
                            out.push(cs[k]);
                            k = k + 1;
                            proof {
                                assert(out@ =~= base + cs@.take(k as int));
                            }
                        }
                        proof {
                            assert(cs@.take(cs@.len() as int) =~= cs@);
                        }
                    },
                    TextPart::NoText => {
                        proof {
                            assert(out@ =~= out@ + Seq::<char>::empty());
                        }
                    },
                }
                i = i + 1;
            }
            proof {
                assert(ps@.take(ps@.len() as int) =~= ps@);
            }
            Some(string_of(out.as_slice()))
        },
        MessageText::Other => None,
    }
}

/// A stored count after one more occurrence.
pub open spec fn bumped(o: Option<i64>) -> i64 {
    match o {
        Some(v) => if v < i64::MAX {
            (v + 1) as i64
        } else {
            v
        },
        None => 1,
    }
}

/// The n-grams of length `n` counted over `lists` and the first `j` words of
/// `ws`.
pub open spec fn counted(lists: Seq<Seq<Seq<char>>>, ws: Seq<Seq<char>>, j: int, n: nat) -> Map<
    Seq<Seq<char>>,
    i64,
> {
    Map::new(
        |k: Seq<Seq<char>>| k.len() == n && ngram_count(lists, k) + window_count(ws.take(j), k) > 0,
        |k: Seq<Seq<char>>| capped(ngram_count(lists, k) + window_count(ws.take(j), k)),
    )
}

/// Adds one occurrence of `key`.
fn bump(m: &mut NgramMap<i64>, key: Vec<String>)
    requires
        old(m).wf(),
    ensures
        final(m).wf(),
        final(m).as_map() == old(m).as_map().insert(
            words_view(key@),
            bumped(
                if old(m).as_map().contains_key(words_view(key@)) {
                    Some(old(m).as_map()[words_view(key@)])
                } else {
                    None
                },
            ),
        ),
        forall|i: int|
            0 <= i < final(m).spec_len() ==> #[trigger] final(m).key_seq()[i] == words_view(key@) || (
            i < old(m).spec_len() && final(m).key_seq()[i] == old(m).key_seq()[i]),
{
    match m.find(&key) {
        Some(i) => {
            let v = *m.value_at(i);
            let nv = if v < i64::MAX {
                v + 1
            } else {
                v
            };
            m.set_value(i, nv);
        },
        None => {
            m.push_new(key, 1);
        },
    }
}

proof fn lemma_window_step(ws: Seq<Seq<char>>, j: int, k: Seq<Seq<char>>)
    requires
        0 <= j < ws.len(),
    ensures
        window_count(ws.take(j + 1), k) == window_count(ws.take(j), k) + if 1 <= k.len() <= j + 1
            && ws.subrange(j + 1 - k.len(), j + 1) == k {
            1nat
        } else {
            0nat
        },
{
    let t = ws.take(j + 1);
    assert(t.drop_last() =~= ws.take(j));
    if 1 <= k.len() <= j + 1 {
        assert(t.subrange(t.len() - k.len(), t.len() as int) =~= ws.subrange(j + 1 - k.len(), j + 1));
    }
}

proof fn lemma_count_step(
    m: Map<Seq<Seq<char>>, i64>,
    lists: Seq<Seq<Seq<char>>>,
    ws: Seq<Seq<char>>,
    j: int,
    n: nat,
)
    requires
        m == counted(lists, ws, j, n),
        0 <= j < ws.len(),
        n >= 1,
    ensures
        j + 1 >= n ==> counted(lists, ws, j + 1, n) == m.insert(
            ws.subrange(j + 1 - n, j + 1),
            bumped(
                if m.contains_key(ws.subrange(j + 1 - n, j + 1)) {
                    Some(m[ws.subrange(j + 1 - n, j + 1)])
                } else {
                    None
                },
            ),
        ),
        j + 1 < n ==> counted(lists, ws, j + 1, n) == m,
{
    let c2 = counted(lists, ws, j + 1, n);
    assert forall|k: Seq<Seq<char>>| #[trigger] c2.contains_key(k) || m.contains_key(k) || k
        == ws.subrange(j + 1 - n, j + 1) implies true by {
        lemma_window_step(ws, j, k);
    }
    if j + 1 >= n {
        let w = ws.subrange(j + 1 - n, j + 1);
        let m2 = m.insert(
            w,
            bumped(
                if m.contains_key(w) {
                    Some(m[w])
                } else {
                    None
                },
            ),
        );
        assert forall|k: Seq<Seq<char>>| #[trigger] c2.contains_key(k) == m2.contains_key(k) by {
            lemma_window_step(ws, j, k);
        }
        assert forall|k: Seq<Seq<char>>| #[trigger] c2.contains_key(k) implies c2[k] == m2[k] by {
            lemma_window_step(ws, j, k);
        }
        assert(c2 =~= m2);
    } else {
        assert forall|k: Seq<Seq<char>>| #[trigger] c2.contains_key(k) == m.contains_key(k) by {
            lemma_window_step(ws, j, k);
        }
        assert forall|k: Seq<Seq<char>>| #[trigger] c2.contains_key(k) implies c2[k] == m[k] by {
            lemma_window_step(ws, j, k);
        }
        assert(c2 =~= m);
    }
}

/// Keys of `m` all have `n` words.
pub open spec fn keys_of_len(m: NgramMap<i64>, n: nat) -> bool {
    forall|i: int| 0 <= i < m.spec_len() ==> (#[trigger] m.key_seq()[i]).len() == n
}

proof fn lemma_counted_start(lists: Seq<Seq<Seq<char>>>, ws: Seq<Seq<char>>, n: nat)
    ensures
        counted(lists, ws, 0, n) == ngram_counts(lists, n),
{
    assert(ws.take(0) =~= Seq::<Seq<char>>::empty());
    assert(counted(lists, ws, 0, n) =~= ngram_counts(lists, n));
}

proof fn lemma_counted_end(lists: Seq<Seq<Seq<char>>>, ws: Seq<Seq<char>>, n: nat)
    ensures
        counted(lists, ws, ws.len() as int, n) == ngram_counts(lists.push(ws), n),
{
    assert(ws.take(ws.len() as int) =~= ws);
    assert(lists.push(ws).drop_last() =~= lists);
    assert(counted(lists, ws, ws.len() as int, n) =~= ngram_counts(lists.push(ws), n));
}

/// Adds the n-grams of length `n` that end at word `j` of `ws`.
fn count_at(m: &mut NgramMap<i64>, ws: &Vec<String>, j: usize, n: usize, Ghost(lists): Ghost<Seq<Seq<Seq<char>>>>)
    requires
        old(m).wf(),
        keys_of_len(*old(m), n as nat),
        old(m).as_map() == counted(lists, words_of(ws@), j as int, n as nat),
        j < ws@.len(),
        1 <= n <= 3,
    ensures
        final(m).wf(),
        keys_of_len(*final(m), n as nat),
        final(m).as_map() == counted(lists, words_of(ws@), j + 1, n as nat),
{
    let ghost wv = words_of(ws@);
    proof {
        lemma_count_step(old(m).as_map(), lists, wv, j as int, n as nat);
    }
    if j >= n - 1 {
        let start = j - (n - 1);
        let mut key: Vec<String> = Vec::new();
        let mut c: usize = 0;
        while c < n
            invariant
                j >= n - 1,
                start == j - (n - 1),
                j < ws@.len(),
                c <= n,
                1 <= n <= 3,
                words_view(key@) == wv.subrange(start as int, start + c),
                wv == words_of(ws@),
            decreases n - c,
        {
            let w = ws[start + c].clone();
            let ghost old_key = key@;
            key.push(w);
            proof {
                assert(words_view(key@) =~= words_view(old_key).push(w@));
                assert(wv.subrange(start as int, start + c + 1) =~= wv.subrange(
                    start as int,
                    start + c,
                ).push(wv[start + c]));
            }
            c = c + 1;
        }
        let ghost kv = words_view(key@);
        bump(m, key);
        proof {
            assert forall|i: int| 0 <= i < m.spec_len() implies (#[trigger] m.key_seq()[i]).len()
                == n by {
                if m.key_seq()[i] != kv {
                    assert(old(m).key_seq()[i].len() == n);
                }
            }
        }
    }
}

/// The messages sent by `id`.
pub open spec fn sent_by(id: Seq<char>) -> spec_fn(TgMessage) -> bool {
    |m: TgMessage| m.from_id matches Some(f) && f@ == id
}

/// Importing with a sender filter counts the same word lists as importing,
/// without a filter, only the messages of that sender.
pub proof fn law_sender_filter(msgs: Seq<TgMessage>, id: Seq<char>)
    ensures
        word_lists(msgs, Some(id)) == word_lists(msgs.filter(sent_by(id)), None),
    decreases msgs.len(),
{
    if msgs.len() > 0 {
        law_sender_filter(msgs.drop_last(), id);
        reveal(Seq::filter);
        let f = msgs.filter(sent_by(id));
        let sub = msgs.drop_last().filter(sent_by(id));
        if sent_by(id)(msgs.last()) {
            assert(f == sub.push(msgs.last()));
            assert(f.drop_last() =~= sub);
            assert(f.last() == msgs.last());
        } else {
            assert(f == msgs.drop_last().filter(sent_by(id)));
        }
    }
}

/// Lists of words as characters, one list per message.
pub open spec fn lists_view(v: Seq<Vec<String>>) -> Seq<Seq<Seq<char>>> {
    v.map_values(|w: Vec<String>| words_of(w@))
}

/// The sender filter as characters.
pub open spec fn filter_view(f: Option<&str>) -> Option<Seq<char>> {
    match f {
        Some(f) => Some(f@),
        None => None,
    }
}

/// The learnt words of each message that contributes (an ordinary message,
/// from `from_id_filter` if given, with at least one word), in order.
pub fn message_word_lists(messages: &Vec<TgMessage>, from_id_filter: Option<&str>) -> (r: Vec<
    Vec<String>,
>)
    ensures
        lists_view(r@) == word_lists(messages@, filter_view(from_id_filter)),
{
    let ghost filter = filter_view(from_id_filter);
    let mut r: Vec<Vec<String>> = Vec::new();
    let mut i: usize = 0;
    proof {
        assert(messages@.take(0) =~= Seq::<TgMessage>::empty());
        assert(lists_view(r@) =~= Seq::<Seq<Seq<char>>>::empty());
    }
    while i < messages.len()
        invariant
            i <= messages@.len(),
            filter == filter_view(from_id_filter),
            lists_view(r@) == word_lists(messages@.take(i as int), filter),
        decreases messages@.len() - i,
    {
        let msg = &messages[i];
        let ghost lists = word_lists(messages@.take(i as int), filter);
        let ghost old_r = r@;
        proof {
            assert(messages@.take(i + 1).drop_last() =~= messages@.take(i as int));
            assert(messages@.take(i + 1).last() == messages@[i as int]);
        }
        let is_message = match &msg.msg_type {
            Some(t) => str_eq(t.as_str(), "message"),
            None => false,
        };
        let from_ok = match from_id_filter {
            Some(f) => match &msg.from_id {
                Some(id) => str_eq(id.as_str(), f),
                None => false,
            },
            None => true,
        };
        if is_message && from_ok {
            if let Some(text) = text_of(&msg.text) {
                let words = extract_words(text.as_str());
                if words.len() > 0 {
                    let ghost wv = words_of(words@);
                    r.push(words);
                    proof {
                        assert(lists_view(r@) =~= lists_view(old_r).push(wv));
                    }
                }
            }
        }
        i = i + 1;
    }
    proof {
        assert(messages@.take(messages@.len() as int) =~= messages@);
    }
    r
}

/// Counts the words, word pairs and word triples of `lists`, each list the
/// words of one message, and how many of each there are.
pub fn count_word_lists(lists: &Vec<Vec<String>>) -> (r: (NgramCounts, ImportStats))
    ensures
        r.0.wf(),
        forall|n: nat|
            1 <= n <= 3 ==> #[trigger] r.0.counts(n) == ngram_counts(lists_view(lists@), n),
        r.1.messages == lists@.len(),
        r.1.unigrams == r.0.counts(1).dom().len(),
        r.1.bigrams == r.0.counts(2).dom().len(),
        r.1.trigrams == r.0.counts(3).dom().len(),
{
    let ghost lv = lists_view(lists@);
    let mut uni: NgramMap<i64> = NgramMap::new();
    let mut bi: NgramMap<i64> = NgramMap::new();
    let mut tri: NgramMap<i64> = NgramMap::new();
    let mut i: usize = 0;
    proof {
        assert(lv.take(0) =~= Seq::<Seq<Seq<char>>>::empty());
        assert(uni.as_map() =~= ngram_counts(Seq::empty(), 1));
        assert(bi.as_map() =~= ngram_counts(Seq::empty(), 2));
        assert(tri.as_map() =~= ngram_counts(Seq::empty(), 3));
    }
    while i < lists.len()
        invariant
            i <= lists@.len(),
            lv == lists_view(lists@),
            uni.wf(),
            bi.wf(),
            tri.wf(),
            keys_of_len(uni, 1),
            keys_of_len(bi, 2),
            keys_of_len(tri, 3),
            uni.as_map() == ngram_counts(lv.take(i as int), 1),
            bi.as_map() == ngram_counts(lv.take(i as int), 2),
            tri.as_map() == ngram_counts(lv.take(i as int), 3),
        decreases lists@.len() - i,
    {
        let words = &lists[i];
        let ghost done = lv.take(i as int);
        let ghost wv = words_of(words@);
        proof {
            assert(wv == lv[i as int]);
            assert(lv.take(i + 1) =~= done.push(wv));
            lemma_counted_start(done, wv, 1);
            lemma_counted_start(done, wv, 2);
            lemma_counted_start(done, wv, 3);
        }
        let mut j: usize = 0;
        while j < words.len()
            invariant
                j <= words@.len(),
                wv == words_of(words@),
                uni.wf(),
                bi.wf(),
                tri.wf(),
                keys_of_len(uni, 1),
                keys_of_len(bi, 2),
                keys_of_len(tri, 3),
                uni.as_map() == counted(done, wv, j as int, 1),
                bi.as_map() == counted(done, wv, j as int, 2),
                tri.as_map() == counted(done, wv, j as int, 3),
            decreases words@.len() - j,
        {
            count_at(&mut uni, words, j, 1, Ghost(done));
            count_at(&mut bi, words, j, 2, Ghost(done));
            count_at(&mut tri, words, j, 3, Ghost(done));
            j = j + 1;
        }
        proof {
            lemma_counted_end(done, wv, 1);
            lemma_counted_end(done, wv, 2);
            lemma_counted_end(done, wv, 3);
        }
        i = i + 1;
    }
    proof {
        assert(lv.take(lists@.len() as int) =~= lv);
        uni.lemma_dom_len();
        bi.lemma_dom_len();
        tri.lemma_dom_len();
    }
    let stats = ImportStats {
        messages: lists.len(),
        unigrams: uni.len(),
        bigrams: bi.len(),
        trigrams: tri.len(),
    };
    let counts = NgramCounts { unigrams: uni, bigrams: bi, trigrams: tri };
    (counts, stats)
}

/// Counts the words, word pairs and word triples of the messages that
/// contribute (ordinary messages with words, from `from_id_filter` if
/// given), and how many of each there are.
pub fn count_ngrams(messages: &Vec<TgMessage>, from_id_filter: Option<&str>) -> (r: (
    NgramCounts,
    ImportStats,
))
    ensures
        r.0.wf(),
        forall|n: nat|
            1 <= n <= 3 ==> #[trigger] r.0.counts(n) == ngram_counts(
                word_lists(messages@, filter_view(from_id_filter)),
                n,
            ),
        r.1.messages == word_lists(messages@, filter_view(from_id_filter)).len(),
        r.1.unigrams == r.0.counts(1).dom().len(),
        r.1.bigrams == r.0.counts(2).dom().len(),
        r.1.trigrams == r.0.counts(3).dom().len(),
{
    let lists = message_word_lists(messages, from_id_filter);
    count_word_lists(&lists)
}

} // verus!
