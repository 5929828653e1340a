//! The order in which navigation entries and articles are listed, and a
//! stable sort by that order.

use vstd::prelude::*;

verus! {

/// How one entry stands against another in a listing.
#[derive(PartialEq, Eq, Structural, Clone, Copy, Debug)]
pub enum Precedence {
    Before,
    Tie,
    After,
}

/// The reverse of a precedence.
pub open spec fn flipped(p: Precedence) -> Precedence {
    match p {
        Precedence::Before => Precedence::After,
        Precedence::Tie => Precedence::Tie,
        Precedence::After => Precedence::Before,
    }
}

/// Lexicographic order of byte strings (the order of `str::cmp`).
pub open spec fn byte_precedence(a: Seq<u8>, b: Seq<u8>) -> Precedence
    decreases a.len(),
{
    if a.len() == 0 {
        if b.len() == 0 {
            Precedence::Tie
        } else {
            Precedence::Before
        }
    } else if b.len() == 0 {
        Precedence::After
    } else if a[0] < b[0] {
        Precedence::Before
    } else if a[0] > b[0] {
        Precedence::After
    } else {
        byte_precedence(a.drop_first(), b.drop_first())
    }
}

/// What a listing is ordered by: an optional date (dated entries first,
/// newest first), then an order number, then the title's bytes.
pub struct RankKey {
    pub date: Option<Seq<u8>>,
    pub order: i32,
    pub title: Seq<u8>,
}

/// Precedence of integers.
pub open spec fn int_precedence(a: int, b: int) -> Precedence {
    if a < b {
        Precedence::Before
    } else if a > b {
        Precedence::After
    } else {
        Precedence::Tie
    }
}

/// Order number, then title.
pub open spec fn order_title_precedence(a: RankKey, b: RankKey) -> Precedence {
    match int_precedence(a.order as int, b.order as int) {
        Precedence::Tie => byte_precedence(a.title, b.title),
        p => p,
    }
}

/// The listing order of two keys.
pub open spec fn rank_precedence(a: RankKey, b: RankKey) -> Precedence {
    match (a.date, b.date) {
        (Some(x), Some(y)) => if x != y {
            byte_precedence(y, x)
        } else {
            order_title_precedence(a, b)
        },
        (Some(_), None) => Precedence::Before,
        (None, Some(_)) => Precedence::After,
        (None, None) => order_title_precedence(a, b),
    }
}

// ---------------------------------------------------------------------------
// The byte order is a total order.
// ---------------------------------------------------------------------------

pub proof fn lemma_byte_flip(a: Seq<u8>, b: Seq<u8>)
    ensures
        byte_precedence(b, a) == flipped(byte_precedence(a, b)),
    decreases a.len(),
{
    if a.len() > 0 && b.len() > 0 && a[0] == b[0] {
        lemma_byte_flip(a.drop_first(), b.drop_first());
    }
}

pub proof fn lemma_byte_tie(a: Seq<u8>, b: Seq<u8>)
    ensures
        (byte_precedence(a, b) == Precedence::Tie) == (a == b),
    decreases a.len(),
{
    if a.len() > 0 && b.len() > 0 && a[0] == b[0] {
        lemma_byte_tie(a.drop_first(), b.drop_first());
        if a.drop_first() == b.drop_first() {
            assert(a =~= seq![a[0]] + a.drop_first());
            assert(b =~= seq![b[0]] + b.drop_first());
        }
        if a == b {
            assert(a.drop_first() =~= b.drop_first());
        }
    } else if a.len() > 0 && b.len() > 0 {
        assert(a[0] != b[0]);
    } else if a.len() == 0 && b.len() == 0 {
        assert(a =~= b);
    }
}

pub proof fn lemma_byte_trans(a: Seq<u8>, b: Seq<u8>, c: Seq<u8>)
    requires
        byte_precedence(a, b) == Precedence::Before,
        byte_precedence(b, c) == Precedence::Before,
    ensures
        byte_precedence(a, c) == Precedence::Before,
    decreases a.len(),
{
    if a.len() > 0 && b.len() > 0 && c.len() > 0 && a[0] == b[0] && b[0] == c[0] {
        lemma_byte_trans(a.drop_first(), b.drop_first(), c.drop_first());
    }
}

// ---------------------------------------------------------------------------
// The listing order is a total preorder whose ties are equal keys.
// ---------------------------------------------------------------------------

/// Swapping the two keys reverses their precedence.
pub proof fn lemma_rank_flip(a: RankKey, b: RankKey)
    ensures
        rank_precedence(b, a) == flipped(rank_precedence(a, b)),
{
    lemma_byte_flip(a.title, b.title);
    match (a.date, b.date) {
        (Some(x), Some(y)) => {
            lemma_byte_flip(x, y);
        },
        _ => {},
    }
}

/// Two keys tie exactly when they are equal.
pub proof fn lemma_rank_tie(a: RankKey, b: RankKey)
    ensures
        (rank_precedence(a, b) == Precedence::Tie) == (a == b),
{
    lemma_byte_tie(a.title, b.title);
    match (a.date, b.date) {
        (Some(x), Some(y)) => {
            lemma_byte_tie(y, x);
        },
        _ => {},
    }
}

/// Coming before is transitive.
pub proof fn lemma_rank_trans(a: RankKey, b: RankKey, c: RankKey)
    requires
        rank_precedence(a, b) == Precedence::Before,
        rank_precedence(b, c) == Precedence::Before,
    ensures
        rank_precedence(a, c) == Precedence::Before,
{
    match (a.date, b.date, c.date) {
        (Some(x), Some(y), Some(z)) => {
            if x != y && y != z {
                lemma_byte_trans(z, y, x);
                lemma_byte_tie(z, x);
            } else if x == y && y != z {
            } else if x != y && y == z {
            } else {
                if a.order == b.order && b.order == c.order {
                    lemma_byte_trans(a.title, b.title, c.title);
                }
            }
        },
        (None, None, None) => {
            if a.order == b.order && b.order == c.order {
                lemma_byte_trans(a.title, b.title, c.title);
            }
        },
        _ => {},
    }
}

/// Not coming after is transitive.
pub proof fn lemma_rank_not_after_trans(a: RankKey, b: RankKey, c: RankKey)
    requires
        rank_precedence(a, b) != Precedence::After,
        rank_precedence(b, c) != Precedence::After,
    ensures
        rank_precedence(a, c) != Precedence::After,
{
    lemma_rank_tie(a, b);
    lemma_rank_tie(b, c);
    if rank_precedence(a, b) == Precedence::Before && rank_precedence(b, c) == Precedence::Before {
        lemma_rank_trans(a, b, c);
    }
}

// ---------------------------------------------------------------------------
// A stable sort has exactly one result.
// ---------------------------------------------------------------------------

/// Whether a value's key comes before `k`.
pub open spec fn ranked_before<T: Ranked>(k: RankKey) -> spec_fn(T) -> bool {
    |t: T| rank_precedence(t.rank(), k) == Precedence::Before
}

proof fn lemma_filter_split<A>(s: Seq<A>, f: spec_fn(A) -> bool)
    ensures
        s.len() > 0 ==> s.filter(f) == s.drop_last().filter(f) + (if f(s.last()) {
            seq![s.last()]
        } else {
            Seq::<A>::empty()
        }),
{
    if s.len() > 0 {
        assert(s.drop_last().push(s.last()) =~= s);
        s.drop_last().lemma_filter_push(s.last(), f);
        assert(s.drop_last().filter(f).push(s.last()) =~= s.drop_last().filter(f) + seq![s.last()]);
        assert(s.drop_last().filter(f) + Seq::<A>::empty() =~= s.drop_last().filter(f));
    }
}

/// Where each value satisfies exactly one of `p` and `q`, the two
/// filters together are as long as the sequence.
proof fn lemma_filter_partition<A>(s: Seq<A>, p: spec_fn(A) -> bool, q: spec_fn(A) -> bool)
    requires
        forall|i: int| 0 <= i < s.len() ==> (p(#[trigger] s[i]) != q(s[i])),
    ensures
        s.filter(p).len() + s.filter(q).len() == s.len(),
    decreases s.len(),
{
    reveal(Seq::filter);
    if s.len() > 0 {
        assert forall|i: int| 0 <= i < s.drop_last().len() implies (p(#[trigger] s.drop_last()[i])
            != q(s.drop_last()[i])) by {
            assert(s.drop_last()[i] == s[i]);
        }
        lemma_filter_partition(s.drop_last(), p, q);
        lemma_filter_split(s, p);
        lemma_filter_split(s, q);
        assert(p(s[s.len() - 1]) != q(s[s.len() - 1]));
    }
}

/// Where `p` and `q` exclude each other and each implies `t`, the
/// `t`-filter is at least as long as the other two together.
proof fn lemma_filter_count_mono<A>(
    s: Seq<A>,
    p: spec_fn(A) -> bool,
    q: spec_fn(A) -> bool,
    t: spec_fn(A) -> bool,
)
    requires
        forall|x: A| #[trigger] p(x) ==> t(x) && !q(x),
        forall|x: A| #[trigger] q(x) ==> t(x),
    ensures
        s.filter(t).len() >= s.filter(p).len() + s.filter(q).len(),
    decreases s.len(),
{
    if s.len() > 0 {
        lemma_filter_count_mono(s.drop_last(), p, q, t);
        lemma_filter_split(s, p);
        lemma_filter_split(s, q);
        lemma_filter_split(s, t);
        let x = s.last();
        if p(x) {
            assert(t(x) && !q(x));
        }
        if q(x) {
            assert(t(x));
        }
    } else {
        reveal(Seq::filter);
    }
}

/// Filtering commutes with forgetting the order.
proof fn lemma_filter_to_multiset<A>(s: Seq<A>, f: spec_fn(A) -> bool)
    ensures
        s.filter(f).to_multiset() == s.to_multiset().filter(f),
    decreases s.len(),
{
    broadcast use vstd::seq_lib::group_to_multiset_ensures;
    broadcast use vstd::multiset::group_multiset_axioms;

    if s.len() == 0 {
        reveal(Seq::filter);
        assert(s.filter(f) =~= Seq::<A>::empty());
        assert(s.to_multiset() =~= vstd::multiset::Multiset::<A>::empty());
        assert(s.filter(f).to_multiset() =~= s.to_multiset().filter(f));
    } else {
        lemma_filter_to_multiset(s.drop_last(), f);
        let x = s.last();
        assert(s.drop_last().push(x) =~= s);
        s.drop_last().lemma_filter_push(x, f);
        assert(s.filter(f).to_multiset() =~= s.to_multiset().filter(f));
    }
}

/// In a sorted sequence, the value at `i` sits in its key's run: `i` is
/// the number of values with an earlier key plus its place in the run.
proof fn lemma_sorted_position<T: Ranked>(r: Seq<T>, i: int)
    requires
        rank_sorted(r),
        0 <= i < r.len(),
    ensures
        ({
            let k = r[i].rank();
            let m = r.take(i).filter(has_rank::<T>(k)).len();
            &&& i == r.filter(ranked_before::<T>(k)).len() + m
            &&& m < with_rank(r, k).len()
            &&& with_rank(r, k)[m as int] == r[i]
        }),
{
    let k = r[i].rank();
    let hr = has_rank::<T>(k);
    let bf = ranked_before::<T>(k);
    let front = r.take(i);
    let back = r.skip(i);
    assert(r =~= front + back);
    assert forall|j: int| 0 <= j < front.len() implies (bf(#[trigger] front[j]) != hr(front[j])) by {
        assert(front[j] == r[j]);
        assert(rank_precedence(r[j].rank(), r[i].rank()) != Precedence::After);
        lemma_rank_tie(r[j].rank(), k);
    }
    lemma_filter_partition(front, bf, hr);
    assert forall|j: int| 0 <= j < back.len() implies !bf(#[trigger] back[j]) by {
        assert(back[j] == r[i + j]);
        if j > 0 {
            assert(rank_precedence(r[i].rank(), r[i + j].rank()) != Precedence::After);
        }
        lemma_rank_flip(r[i + j].rank(), k);
        lemma_rank_tie(r[i + j].rank(), k);
    }
    assert(back.all(|t: T| !bf(t)));
    back.lemma_all_neg_filter_empty(bf);
    Seq::filter_distributes_over_add(front, back, bf);
    Seq::filter_distributes_over_add(front, back, hr);
    assert(back =~= seq![r[i]] + back.drop_first());
    back.drop_first().lemma_filter_prepend(r[i], hr);
    assert(hr(r[i]));
    assert(back.filter(bf) =~= Seq::<T>::empty());
    assert(r.filter(bf) =~= front.filter(bf));
    let m = front.filter(hr).len();
    assert(with_rank(r, k) == front.filter(hr) + (seq![r[i]] + back.drop_first().filter(hr)));
    assert((front.filter(hr) + (seq![r[i]] + back.drop_first().filter(hr)))[m as int] == r[i]);
}

/// Sorting stably has exactly one result: the listing order of values is
/// fully determined by their keys and their order in the input.
pub proof fn lemma_stable_sort_unique<T: Ranked>(r1: Seq<T>, r2: Seq<T>, s: Seq<T>)
    requires
        is_stable_sort_of(r1, s),
        is_stable_sort_of(r2, s),
    ensures
        r1 == r2,
{
    broadcast use vstd::seq_lib::group_to_multiset_ensures;

    assert(r1.len() == r1.to_multiset().len());
    assert(r2.len() == r2.to_multiset().len());
    assert forall|i: int| 0 <= i < r1.len() implies r1[i] == r2[i] by {
        let k1 = r1[i].rank();
        let k2 = r2[i].rank();
        lemma_sorted_position(r1, i);
        lemma_sorted_position(r2, i);
        // counts of earlier keys agree: both are permutations of `s`
        assert forall|k: RankKey| #[trigger] r1.filter(ranked_before::<T>(k)).len() == r2.filter(
            ranked_before::<T>(k),
        ).len() by {
            lemma_filter_to_multiset(r1, ranked_before::<T>(k));
            lemma_filter_to_multiset(r2, ranked_before::<T>(k));
            assert(r1.filter(ranked_before::<T>(k)).len() == r1.filter(ranked_before::<T>(
                k,
            )).to_multiset().len());
            assert(r2.filter(ranked_before::<T>(k)).len() == r2.filter(ranked_before::<T>(
                k,
            )).to_multiset().len());
        }
        assert(with_rank(r1, k1) == with_rank(s, k1));
        assert(with_rank(r2, k1) == with_rank(s, k1));
        assert(with_rank(r1, k2) == with_rank(s, k2));
        assert(with_rank(r2, k2) == with_rank(s, k2));
        lemma_rank_tie(k1, k2);
        lemma_rank_flip(k1, k2);
        if rank_precedence(k1, k2) == Precedence::Before {
            assert forall|x: T| #[trigger] ranked_before::<T>(k1)(x) implies ranked_before::<T>(k2)(x)
                && !has_rank::<T>(k1)(x) by {
                lemma_rank_trans(x.rank(), k1, k2);
                lemma_rank_tie(x.rank(), k1);
            }
            assert forall|x: T| #[trigger] has_rank::<T>(k1)(x) implies ranked_before::<T>(k2)(x) by {}
            lemma_filter_count_mono(r1, ranked_before::<T>(k1), has_rank::<T>(k1), ranked_before::<T>(k2));
            assert(r1.filter(ranked_before::<T>(k2)).len() == r2.filter(ranked_before::<T>(k2)).len());
            assert(false);
        } else if rank_precedence(k1, k2) == Precedence::After {
            assert forall|x: T| #[trigger] ranked_before::<T>(k2)(x) implies ranked_before::<T>(k1)(x)
                && !has_rank::<T>(k2)(x) by {
                lemma_rank_trans(x.rank(), k2, k1);
                lemma_rank_tie(x.rank(), k2);
            }
            assert forall|x: T| #[trigger] has_rank::<T>(k2)(x) implies ranked_before::<T>(k1)(x) by {}
            lemma_filter_count_mono(r2, ranked_before::<T>(k2), has_rank::<T>(k2), ranked_before::<T>(k1));
            assert(r1.filter(ranked_before::<T>(k1)).len() == r2.filter(ranked_before::<T>(k1)).len());
            assert(false);
        } else {
            assert(k1 == k2);
            assert(r1.filter(ranked_before::<T>(k1)).len() == r2.filter(ranked_before::<T>(k1)).len());
        }
    }
    assert(r1 =~= r2);
}

// ---------------------------------------------------------------------------
// Byte comparison
// ---------------------------------------------------------------------------

/// Compares two byte strings in lexicographic order.
pub fn compare_bytes(a: &[u8], b: &[u8]) -> (r: Precedence)
    ensures
        r == byte_precedence(a@, b@),
{
    let mut i: usize = 0;
    assert(a@.skip(0) =~= a@);
    assert(b@.skip(0) =~= b@);
    while i < a.len() && i < b.len() && a[i] == b[i]
        invariant
            i <= a@.len(),
            i <= b@.len(),
            byte_precedence(a@, b@) == byte_precedence(a@.skip(i as int), b@.skip(i as int)),
        decreases a@.len() - i,
    {
        assert(a@.skip(i as int).drop_first() =~= a@.skip(i + 1));
        assert(b@.skip(i as int).drop_first() =~= b@.skip(i + 1));
        i = i + 1;
    }
    if i == a.len() {
        if i == b.len() {
            Precedence::Tie
        } else {
            Precedence::Before
        }
    } else if i == b.len() {
        Precedence::After
    } else if a[i] < b[i] {
        Precedence::Before
    } else {
        Precedence::After
    }
}

/// Compares two strings as `str::cmp` does: by their UTF-8 bytes.
pub fn compare_text(a: &str, b: &str) -> (r: Precedence)
    ensures
        r == byte_precedence(vstd::utf8::encode_utf8(a@), vstd::utf8::encode_utf8(b@)),
{
    compare_bytes(a.as_bytes(), b.as_bytes())
}

// ---------------------------------------------------------------------------
// Stable sorting
// ---------------------------------------------------------------------------

/// Values listed by a rank key.
pub trait Ranked: Sized {
    /// The key this value is listed by.
    spec fn rank(&self) -> RankKey;

    /// Compares the keys of two values.
    fn precedence(&self, other: &Self) -> (p: Precedence)
        ensures
            p == rank_precedence(self.rank(), other.rank()),
    ;
}

/// No value comes after a later one.
pub open spec fn rank_sorted<T: Ranked>(s: Seq<T>) -> bool {
    forall|i: int, j: int|
        0 <= i < j < s.len() ==> rank_precedence(#[trigger] s[i].rank(), #[trigger] s[j].rank())
            != Precedence::After
}

/// Whether a value's key is `k`.
pub open spec fn has_rank<T: Ranked>(k: RankKey) -> spec_fn(T) -> bool {
    |t: T| t.rank() == k
}

/// The values of `s` whose key is `k`, in their order in `s`.
pub open spec fn with_rank<T: Ranked>(s: Seq<T>, k: RankKey) -> Seq<T> {
    s.filter(has_rank::<T>(k))
}

proof fn lemma_filter_single<T: Ranked>(x: T, k: RankKey)
    ensures
        with_rank(seq![x], k) == (if x.rank() == k {
            seq![x]
        } else {
            Seq::<T>::empty()
        }),
{
    let p = has_rank::<T>(k);
    Seq::<T>::empty().lemma_filter_push(x, p);
    assert(Seq::<T>::empty().push(x) =~= seq![x]);
    reveal(Seq::filter);
    assert(Seq::<T>::empty().filter(p) =~= Seq::<T>::empty());
}

/// Inserting `x` where every later value comes after it adds `x` to the
/// end of its key's run and leaves the other runs as they were.
proof fn lemma_insert_keeps_runs<T: Ranked>(out: Seq<T>, j: int, x: T, k: RankKey)
    requires
        0 <= j <= out.len(),
        forall|m: int| j <= m < out.len() ==> rank_precedence(#[trigger] out[m].rank(), x.rank())
            == Precedence::After,
    ensures
        with_rank(out.insert(j, x), k) == (if x.rank() == k {
            with_rank(out, k).push(x)
        } else {
            with_rank(out, k)
        }),
{
    let p = has_rank::<T>(k);
    let front = out.take(j);
    let back = out.skip(j);
    assert(out =~= front + back);
    assert(out.insert(j, x) =~= front + seq![x] + back);
    Seq::filter_distributes_over_add(front, back, p);
    Seq::filter_distributes_over_add(front + seq![x], back, p);
    Seq::filter_distributes_over_add(front, seq![x], p);
    lemma_filter_single(x, k);
    if x.rank() == k {
        assert forall|m: int| 0 <= m < back.len() implies !p(back[m]) by {
            assert(back[m] == out[j + m]);
            lemma_rank_tie(out[j + m].rank(), x.rank());
        }
        assert(back.all(|t: T| !p(t)));
        back.lemma_all_neg_filter_empty(p);
        assert(back.filter(p) =~= Seq::<T>::empty());
        assert(with_rank(out.insert(j, x), k) =~= with_rank(out, k).push(x));
    } else {
        assert(with_rank(out.insert(j, x), k) =~= with_rank(out, k));
    }
}

/// `r` is `s` sorted by rank key, values with equal keys in their order in
/// `s`: sorted, the same values, and each key's run unchanged.
pub open spec fn is_stable_sort_of<T: Ranked>(r: Seq<T>, s: Seq<T>) -> bool {
    &&& rank_sorted(r)
    &&& r.to_multiset() == s.to_multiset()
    &&& forall|k: RankKey| #[trigger] with_rank(r, k) == with_rank(s, k)
}

/// Sorts values by their rank keys; values with equal keys keep their
/// relative order (as `slice::sort_by` does).
pub fn stable_sort<T: Ranked>(items: Vec<T>) -> (r: Vec<T>)
    ensures
        is_stable_sort_of(r@, items@),
{
    broadcast use vstd::seq_lib::group_seq_properties;

    let ghost orig = items@;
    let mut rest = items;
    let mut out: Vec<T> = Vec::new();
    let ghost mut i: int = 0;
    assert(orig.skip(0) =~= orig);
    assert(orig.take(0) =~= Seq::<T>::empty());
    proof {
        assert forall|k: RankKey| #[trigger] with_rank(out@, k) == with_rank(orig.take(0), k) by {
            reveal(Seq::filter);
        }
    }
    while rest.len() > 0
        invariant
            0 <= i <= orig.len(),
            rest@ == orig.skip(i),
            rank_sorted(out@),
            out@.to_multiset() == orig.take(i).to_multiset(),
            forall|k: RankKey| #[trigger] with_rank(out@, k) == with_rank(orig.take(i), k),
        decreases rest@.len(),
    {
        let x = rest.remove(0);
        assert(x == orig[i]);
        assert(rest@ =~= orig.skip(i + 1));
        let mut j: usize = out.len();
        while j > 0 && out[j - 1].precedence(&x) == Precedence::After
            invariant
                j <= out@.len(),
                forall|m: int| j <= m < out@.len() ==> rank_precedence(
                    #[trigger] out@[m].rank(),
                    x.rank(),
                ) == Precedence::After,
            decreases j,
        {
            j = j - 1;
        }
        let ghost before = out@;
        proof {
            // every value before position j comes no later than x
            assert forall|a: int| 0 <= a < j implies rank_precedence(
                #[trigger] before[a].rank(),
                x.rank(),
            ) != Precedence::After by {
                if a < j - 1 {
                    lemma_rank_not_after_trans(before[a].rank(), before[j - 1].rank(), x.rank());
                }
            }
            assert forall|k: RankKey| #[trigger] with_rank(before.insert(j as int, x), k) == with_rank(
                orig.take(i + 1),
                k,
            ) by {
                lemma_insert_keeps_runs(before, j as int, x, k);
                assert(orig.take(i + 1) =~= orig.take(i).push(x));
                orig.take(i).lemma_filter_push(x, has_rank::<T>(k));
            }
            assert(orig.take(i + 1) =~= orig.take(i).push(x));
            vstd::seq_lib::to_multiset_insert(before, j as int, x);
            vstd::seq_lib::to_multiset_build(orig.take(i), x);
        }
        out.insert(j, x);
        proof {
            assert forall|a: int, b: int| 0 <= a < b < out@.len() implies rank_precedence(
                #[trigger] out@[a].rank(),
                #[trigger] out@[b].rank(),
            ) != Precedence::After by {
                if a < j && b < j {
                    assert(out@[a] == before[a] && out@[b] == before[b]);
                } else if a < j && b == j {
                } else if a < j && b > j {
                    assert(out@[b] == before[b - 1]);
                    lemma_rank_flip(before[b - 1].rank(), x.rank());
                    lemma_rank_not_after_trans(before[a].rank(), x.rank(), before[b - 1].rank());
                } else if a == j {
                    assert(out@[b] == before[b - 1]);
                    lemma_rank_flip(before[b - 1].rank(), x.rank());
                } else {
                    assert(out@[a] == before[a - 1] && out@[b] == before[b - 1]);
                }
            }
            i = i + 1;
        }
    }
    assert(orig.take(i) =~= orig);
    out
}

} // verus!
