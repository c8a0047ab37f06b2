//! Lists of `(word, frequency)` candidates kept in order of decreasing
//! frequency, optionally capped to the best `k`.
use vstd::prelude::*;

verus! {

broadcast use vstd::seq_lib::group_to_multiset_ensures;

/// How many entries remain after adding one to `n` entries and keeping at
/// most `k`.
pub open spec fn kept_len(n: nat, k: nat) -> int {
    if n + 1 < k {
        (n + 1) as int
    } else {
        k as int
    }
}

/// A candidate as characters and frequency.
pub open spec fn entry_view(e: (String, i64)) -> (Seq<char>, i64) {
    (e.0@, e.1)
}

/// A list of candidates as characters and frequencies.
pub open spec fn ranked_view(v: Seq<(String, i64)>) -> Seq<(Seq<char>, i64)> {
    v.map_values(|e: (String, i64)| entry_view(e))
}

/// Frequencies never increase along the list.
pub open spec fn sorted_desc(b: Seq<(Seq<char>, i64)>) -> bool {
    forall|i: int, j: int| 0 <= i < j < b.len() ==> b[i].1 >= b[j].1
}

/// `pos` is where a candidate of frequency `f` goes: after every entry of
/// frequency at least `f`, before the first of lower frequency.
pub open spec fn is_insert_pos(b: Seq<(Seq<char>, i64)>, f: i64, pos: int) -> bool {
    &&& 0 <= pos <= b.len()
    &&& forall|j: int| 0 <= j < pos ==> b[j].1 >= f
    &&& pos < b.len() ==> b[pos].1 < f
}

/// `b` holds the `k` best of the distinct candidates `c`: as many of them as
/// fit, in order of decreasing frequency, and none left out that beats the
/// last one kept.
pub open spec fn is_top_k(b: Seq<(Seq<char>, i64)>, c: Seq<(Seq<char>, i64)>, k: nat) -> bool {
    &&& b.len() == if c.len() < k { c.len() } else { k }
    &&& sorted_desc(b)
    &&& b.no_duplicates()
    &&& forall|i: int| 0 <= i < b.len() ==> c.contains(#[trigger] b[i])
    &&& forall|x: (Seq<char>, i64)|
        c.contains(x) && !b.contains(x) ==> b.len() == k && k > 0 && x.1 <= b[k - 1].1
}

/// `b` holds the candidates `c`, in order of decreasing frequency.
pub open spec fn is_sorted_perm(b: Seq<(Seq<char>, i64)>, c: Seq<(Seq<char>, i64)>) -> bool {
    &&& sorted_desc(b)
    &&& b.to_multiset() == c.to_multiset()
}

/// How many leading entries of `b` have frequency at least `f`.
pub open spec fn rank_of(b: Seq<(Seq<char>, i64)>, f: i64) -> nat
    decreases b.len(),
{
    if b.len() == 0 || b[0].1 < f {
        0
    } else {
        1 + rank_of(b.drop_first(), f)
    }
}

/// The candidates `c` inserted one after another, each after every entry of
/// at least its frequency: in order of decreasing frequency, equal
/// frequencies in the order of `c`.
pub open spec fn stable_sorted(c: Seq<(Seq<char>, i64)>) -> Seq<(Seq<char>, i64)>
    decreases c.len(),
{
    if c.len() == 0 {
        Seq::empty()
    } else {
        let b = stable_sorted(c.drop_last());
        b.insert(rank_of(b, c.last().1) as int, c.last())
    }
}

/// The candidates `c` inserted one after another as by `stable_sorted`,
/// keeping only the first `k` after each insertion.
pub open spec fn ranked_top(c: Seq<(Seq<char>, i64)>, k: nat) -> Seq<(Seq<char>, i64)>
    decreases c.len(),
{
    if c.len() == 0 {
        Seq::empty()
    } else {
        let b = ranked_top(c.drop_last(), k);
        b.insert(rank_of(b, c.last().1) as int, c.last()).take(kept_len(b.len(), k))
    }
}

/// In a sorted list the insertion position of a frequency is unique.
pub proof fn lemma_insert_pos_unique(b: Seq<(Seq<char>, i64)>, f: i64, pos: int)
    requires
        sorted_desc(b),
        is_insert_pos(b, f, pos),
    ensures
        pos == rank_of(b, f),
    decreases b.len(),
{
    if b.len() > 0 && b[0].1 >= f {
        let r = b.drop_first();
        assert(pos > 0);
        assert(sorted_desc(r)) by {
            assert forall|i: int, j: int| 0 <= i < j < r.len() implies r[i].1 >= r[j].1 by {
                assert(r[i] == b[i + 1] && r[j] == b[j + 1]);
            }
        }
        assert(is_insert_pos(r, f, pos - 1)) by {
            assert forall|j: int| 0 <= j < pos - 1 implies r[j].1 >= f by {
                assert(r[j] == b[j + 1]);
            }
            if pos - 1 < r.len() {
                assert(r[pos - 1] == b[pos]);
            }
        }
        lemma_insert_pos_unique(r, f, pos - 1);
    }
}

/// Inserting at an insertion position keeps a bucket sorted.
pub proof fn lemma_sorted_insert(b: Seq<(Seq<char>, i64)>, x: (Seq<char>, i64), pos: int)
    requires
        sorted_desc(b),
        is_insert_pos(b, x.1, pos),
    ensures
        sorted_desc(b.insert(pos, x)),
{
    let r = b.insert(pos, x);
    assert forall|i: int, j: int| 0 <= i < j < r.len() implies r[i].1 >= r[j].1 by {
        if i < pos && j < pos {
        } else if i < pos && j == pos {
        } else if i < pos {
            assert(r[j] == b[j - 1]);
        } else if i == pos {
            assert(r[j] == b[j - 1]);
        } else {
            assert(r[i] == b[i - 1]);
            assert(r[j] == b[j - 1]);
        }
    }
}

/// Adding a new candidate `x` to `c` and inserting it into `b` at its place,
/// then keeping the first `k`, keeps `b` the `k` best.
pub proof fn lemma_top_k_step(
    b: Seq<(Seq<char>, i64)>,
    c: Seq<(Seq<char>, i64)>,
    x: (Seq<char>, i64),
    pos: int,
    k: nat,
)
    requires
        is_top_k(b, c, k),
        !c.contains(x),
        is_insert_pos(b, x.1, pos),
        k > 0,
    ensures
        is_top_k(
            b.insert(pos, x).take(kept_len(b.len(), k)),
            c.push(x),
            k,
        ),
{
    let r = b.insert(pos, x);
    let n = kept_len(b.len(), k);
    let b2 = r.take(n);
    let c2 = c.push(x);
    lemma_sorted_insert(b, x, pos);
    assert(!b.contains(x)) by {
        if b.contains(x) {
            let t = b.index_of(x);
            assert(c.contains(b[t]));
        }
    }
    // sortedness of the prefix
    assert(sorted_desc(b2));
    // no duplicates
    assert(r.no_duplicates()) by {
        assert forall|i: int, j: int| 0 <= i < r.len() && 0 <= j < r.len() && i != j implies r[i]
            != r[j] by {
            if i == pos {
                if j < pos {
                    assert(b.contains(b[j]));
                } else {
                    assert(r[j] == b[j - 1]);
                    assert(b.contains(b[j - 1]));
                }
            } else if j == pos {
                if i < pos {
                    assert(b.contains(b[i]));
                } else {
                    assert(r[i] == b[i - 1]);
                    assert(b.contains(b[i - 1]));
                }
            } else {
                let bi = if i < pos { i } else { i - 1 };
                let bj = if j < pos { j } else { j - 1 };
                assert(r[i] == b[bi]);
                assert(r[j] == b[bj]);
            }
        }
    }
    assert(b2.no_duplicates());
    // membership
    assert forall|i: int| 0 <= i < b2.len() implies c2.contains(#[trigger] b2[i]) by {
        if i == pos {
            assert(c2[c.len() as int] == x);
        } else {
            let bi = if i < pos { i } else { i - 1 };
            assert(b2[i] == b[bi]);
            assert(c.contains(b[bi]));
            let t = c.index_of(b[bi]);
            assert(c2[t] == b[bi]);
        }
    }
    // excluded candidates
    assert forall|y: (Seq<char>, i64)| c2.contains(y) && !b2.contains(y) implies b2.len() == k && k
        > 0 && y.1 <= b2[k - 1].1 by {
        let t = c2.index_of(y);
        if y == x {
            // x was cut off: it sits at pos >= k
            if pos < n {
                assert(b2[pos] == x);
            }
            assert(pos >= n);
            assert(n == k) by {
                if n < k {
                    assert(n == b.len() + 1);
                }
            }
            assert(b2[k - 1] == b[k - 1]);
        } else {
            assert(t < c.len());
            assert(c[t] == y);
            assert(c.contains(y));
            if b.contains(y) {
                // y was pushed out of the first k
                let s = b.index_of(y);
                let ri = if s < pos { s } else { s + 1 };
                assert(r[ri] == y);
                if ri < n {
                    assert(b2[ri] == y);
                }
                assert(ri >= n);
                assert(n == k) by {
                    if n < k {
                        assert(n == b.len() + 1);
                    }
                }
                assert(r[k - 1].1 >= r[ri].1);
            } else {
                assert(b.len() == k);
                assert(y.1 <= b[k - 1].1);
                assert(n == k);
                if pos < k - 1 {
                    assert(b2[k - 1] == b[k - 2]);
                } else if pos == k - 1 {
                    assert(b2[k - 1] == x);
                } else {
                    assert(b2[k - 1] == b[k - 1]);
                }
            }
        }
    }
}

/// Inserting `x` at its place keeps `b` a sorted arrangement of `c` with `x`
/// added.
pub proof fn lemma_sorted_perm_step(
    b: Seq<(Seq<char>, i64)>,
    c: Seq<(Seq<char>, i64)>,
    x: (Seq<char>, i64),
    pos: int,
)
    requires
        is_sorted_perm(b, c),
        is_insert_pos(b, x.1, pos),
    ensures
        is_sorted_perm(b.insert(pos, x), c.push(x)),
{
    lemma_sorted_insert(b, x, pos);
}

/// Where a candidate of frequency `f` goes in `b`.
pub fn insert_pos(b: &Vec<(String, i64)>, f: i64) -> (pos: usize)
    requires
        sorted_desc(ranked_view(b@)),
    ensures
        is_insert_pos(ranked_view(b@), f, pos as int),
{
    let mut pos: usize = 0;
    while pos < b.len()
        invariant
            pos <= b@.len(),
            sorted_desc(ranked_view(b@)),
            forall|j: int| 0 <= j < pos ==> ranked_view(b@)[j].1 >= f,
        decreases b@.len() - pos,
    {
        if b[pos].1 < f {
            return pos;
        }
        pos = pos + 1;
    }
    pos
}

/// Puts `x` at its place in `b`, then keeps at most `k` entries.
pub fn insert_ranked(b: &mut Vec<(String, i64)>, x: (String, i64), k: usize)
    requires
        sorted_desc(ranked_view(old(b)@)),
        k > 0,
    ensures
        exists|pos: int|
            is_insert_pos(ranked_view(old(b)@), x.1, pos) && ranked_view(final(b)@) == ranked_view(
                old(b)@,
            ).insert(pos, entry_view(x)).take(kept_len(old(b)@.len(), k as nat)),
{
    let pos = insert_pos(b, x.1);
    let ghost xv = entry_view(x);
    b.insert(pos, x);
    proof {
        assert(ranked_view(b@) =~= ranked_view(old(b)@).insert(pos as int, xv));
    }
    if b.len() > k {
        b.truncate(k);
    }
    proof {
        let n = kept_len(old(b)@.len(), k as nat);
        assert(ranked_view(b@) =~= ranked_view(old(b)@).insert(pos as int, xv).take(n));
    }
}

/// Puts `x` at its place in `b`.
pub fn insert_sorted(b: &mut Vec<(String, i64)>, x: (String, i64))
    requires
        sorted_desc(ranked_view(old(b)@)),
    ensures
        exists|pos: int|
            is_insert_pos(ranked_view(old(b)@), x.1, pos) && ranked_view(final(b)@) == ranked_view(
                old(b)@,
            ).insert(pos, entry_view(x)),
{
    let pos = insert_pos(b, x.1);
    let ghost xv = entry_view(x);
    b.insert(pos, x);
    proof {
        assert(ranked_view(b@) =~= ranked_view(old(b)@).insert(pos as int, xv));
    }
}

} // verus!
