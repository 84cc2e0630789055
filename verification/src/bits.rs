use vstd::prelude::*;

verus! {

/// Number of positions of `s` that hold `bit`.
pub open spec fn count(s: Seq<bool>, bit: bool) -> nat
    decreases s.len(),
{
    if s.len() == 0 {
        0
    } else {
        count(s.drop_last(), bit) + if s.last() == bit {
            1nat
        } else {
            0nat
        }
    }
}

/// Number of `bit` values among the first `index` positions of `s`.
pub open spec fn rank_of(s: Seq<bool>, bit: bool, index: int) -> nat {
    count(s.take(index), bit)
}

/// `pos` is the position of the occurrence of `bit` in `s` that has exactly `n` occurrences
/// before it.
pub open spec fn is_select(s: Seq<bool>, bit: bool, n: nat, pos: int) -> bool {
    &&& 0 <= pos < s.len()
    &&& s[pos] == bit
    &&& rank_of(s, bit, pos) == n
}

pub proof fn lemma_count_push(s: Seq<bool>, b: bool, bit: bool)
    ensures
        count(s.push(b), bit) == count(s, bit) + if b == bit {
            1nat
        } else {
            0nat
        },
{
    assert(s.push(b).drop_last() =~= s);
}

pub proof fn lemma_count_concat(a: Seq<bool>, b: Seq<bool>, bit: bool)
    ensures
        count(a + b, bit) == count(a, bit) + count(b, bit),
    decreases b.len(),
{
    if b.len() == 0 {
        assert(a + b =~= a);
    } else {
        lemma_count_concat(a, b.drop_last(), bit);
        assert((a + b).drop_last() =~= a + b.drop_last());
    }
}

pub proof fn lemma_count_bound(s: Seq<bool>, bit: bool)
    ensures
        count(s, bit) <= s.len(),
    decreases s.len(),
{
    if s.len() > 0 {
        lemma_count_bound(s.drop_last(), bit);
    }
}

/// Every position holds one of the two bit values.
pub proof fn lemma_count_complement(s: Seq<bool>)
    ensures
        count(s, true) + count(s, false) == s.len(),
    decreases s.len(),
{
    if s.len() > 0 {
        lemma_count_complement(s.drop_last());
    }
}

pub proof fn lemma_rank_monotone(s: Seq<bool>, bit: bool, i: int, j: int)
    requires
        0 <= i <= j <= s.len(),
    ensures
        rank_of(s, bit, i) <= rank_of(s, bit, j),
{
    assert(s.take(j) =~= s.take(i) + s.subrange(i, j));
    lemma_count_concat(s.take(i), s.subrange(i, j), bit);
}

pub proof fn lemma_rank_step(s: Seq<bool>, bit: bool, i: int)
    requires
        0 <= i < s.len(),
    ensures
        rank_of(s, bit, i + 1) == rank_of(s, bit, i) + if s[i] == bit {
            1nat
        } else {
            0nat
        },
{
    assert(s.take(i + 1) =~= s.take(i).push(s[i]));
    lemma_count_push(s.take(i), s[i], bit);
}

pub proof fn lemma_rank_full(s: Seq<bool>, bit: bool)
    ensures
        rank_of(s, bit, s.len() as int) == count(s, bit),
{
    assert(s.take(s.len() as int) =~= s);
}

pub proof fn lemma_count_insert(s: Seq<bool>, i: int, b: bool, bit: bool)
    requires
        0 <= i <= s.len(),
    ensures
        count(s.insert(i, b), bit) == count(s, bit) + if b == bit {
            1nat
        } else {
            0nat
        },
{
    assert(s.insert(i, b) =~= s.take(i).push(b) + s.skip(i));
    assert(s =~= s.take(i) + s.skip(i));
    lemma_count_concat(s.take(i).push(b), s.skip(i), bit);
    lemma_count_concat(s.take(i), s.skip(i), bit);
    lemma_count_push(s.take(i), b, bit);
}

pub proof fn lemma_count_remove(s: Seq<bool>, i: int, bit: bool)
    requires
        0 <= i < s.len(),
    ensures
        count(s, bit) == count(s.remove(i), bit) + if s[i] == bit {
            1nat
        } else {
            0nat
        },
{
    assert(s.remove(i).insert(i, s[i]) =~= s);
    lemma_count_insert(s.remove(i), i, s[i], bit);
}

pub proof fn lemma_count_update(s: Seq<bool>, i: int, b: bool, bit: bool)
    requires
        0 <= i < s.len(),
    ensures
        count(s.update(i, b), bit) + (if s[i] == bit {
            1nat
        } else {
            0nat
        }) == count(s, bit) + if b == bit {
            1nat
        } else {
            0nat
        },
{
    assert(s.update(i, b) =~= s.remove(i).insert(i, b));
    lemma_count_insert(s.remove(i), i, b, bit);
    lemma_count_remove(s, i, bit);
}

/// If `t` marks, among the first `k` positions, exactly those where `s` holds `bit`, and
/// marks nothing from `k` on, then `t` has as many marks as `s` has `bit` before `k`.
pub proof fn lemma_count_marks(s: Seq<bool>, t: Seq<bool>, k: int, bit: bool)
    requires
        s.len() == t.len(),
        0 <= k <= s.len(),
        forall|j: int| 0 <= j < k ==> t[j] == (s[j] == bit),
        forall|j: int| k <= j < t.len() ==> !t[j],
    ensures
        count(t, true) == rank_of(s, bit, k),
    decreases s.len(),
{
    if s.len() == 0 {
        assert(s.take(k) =~= s);
    } else if k == s.len() {
        lemma_count_marks(s.drop_last(), t.drop_last(), k - 1, bit);
        lemma_rank_step(s, bit, k - 1);
        assert(s.drop_last().take(k - 1) =~= s.take(k - 1));
    } else {
        lemma_count_marks(s.drop_last(), t.drop_last(), k, bit);
        assert(s.drop_last().take(k) =~= s.take(k));
    }
}

/// The rank at a position inside the first of two joined sequences is its rank there.
pub proof fn lemma_rank_concat_left(l: Seq<bool>, r: Seq<bool>, bit: bool, i: int)
    requires
        0 <= i <= l.len(),
    ensures
        rank_of(l + r, bit, i) == rank_of(l, bit, i),
{
    assert((l + r).take(i) =~= l.take(i));
}

/// The rank at a position inside the second of two joined sequences is its rank there
/// plus all occurrences in the first.
pub proof fn lemma_rank_concat_right(l: Seq<bool>, r: Seq<bool>, bit: bool, i: int)
    requires
        0 <= i <= r.len(),
    ensures
        rank_of(l + r, bit, l.len() + i) == count(l, bit) + rank_of(r, bit, i),
{
    assert((l + r).take(l.len() + i) =~= l + r.take(i));
    lemma_count_concat(l, r.take(i), bit);
}

/// The two laws that tie selection to rank: the selected position holds the bit asked for,
/// and exactly `n` occurrences lie before it.
pub proof fn lemma_select_inverts_rank(s: Seq<bool>, bit: bool, n: nat, pos: int)
    requires
        is_select(s, bit, n, pos),
    ensures
        rank_of(s, bit, pos) == n,
        s[pos] == bit,
        n < count(s, bit),
{
    lemma_rank_step(s, bit, pos);
    lemma_rank_monotone(s, bit, pos + 1, s.len() as int);
    lemma_rank_full(s, bit);
}

/// A position that selects the occurrence numbered `n` is the only one that does.
pub proof fn lemma_select_unique(s: Seq<bool>, bit: bool, n: nat, p: int, q: int)
    requires
        is_select(s, bit, n, p),
        is_select(s, bit, n, q),
    ensures
        p == q,
{
    if p < q {
        lemma_rank_step(s, bit, p);
        lemma_rank_monotone(s, bit, p + 1, q);
    } else if q < p {
        lemma_rank_step(s, bit, q);
        lemma_rank_monotone(s, bit, q + 1, p);
    }
}

/// Flipping a position twice gives back the sequence.
pub proof fn lemma_flip_twice(s: Seq<bool>, i: int)
    requires
        0 <= i < s.len(),
    ensures
        s.update(i, !s[i]).update(i, !s.update(i, !s[i])[i]) == s,
{
    assert(s.update(i, !s[i]).update(i, !s.update(i, !s[i])[i]) =~= s);
}

} // verus!
