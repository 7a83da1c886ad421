//! Verified insertion sorts: scores ascending, and articles by popularity
//! rank. Both are specified as recursive insertion, so contracts can name
//! the exact sorted sequence.

use vstd::prelude::*;
use vstd::multiset::Multiset;
use crate::models::Article;
use crate::text::seq_char_lt;

verus! {

/// Non-decreasing order.
pub open spec fn sorted_asc(s: Seq<u64>) -> bool {
    forall|i: int, j: int| 0 <= i < j < s.len() ==> #[trigger] s[i] <= #[trigger] s[j]
}

/// `x` inserted into `s` before the first element it does not exceed.
pub open spec fn insert_sorted(s: Seq<u64>, x: u64) -> Seq<u64>
    decreases s.len(),
{
    if s.len() == 0 {
        seq![x]
    } else if x <= s[0] {
        seq![x] + s
    } else {
        seq![s[0]] + insert_sorted(s.drop_first(), x)
    }
}

/// The ascending insertion sort of a sequence.
pub open spec fn sort_u64(s: Seq<u64>) -> Seq<u64>
    decreases s.len(),
{
    if s.len() == 0 {
        Seq::empty()
    } else {
        insert_sorted(sort_u64(s.drop_last()), s.last())
    }
}

/// A one-element sequence's content is one element.
proof fn lemma_singleton_multiset(x: u64)
    ensures
        seq![x].to_multiset() == Multiset::<u64>::empty().insert(x),
{
    broadcast use vstd::multiset::group_multiset_axioms;
    broadcast use vstd::multiset::lemma_multiset_empty_len;

    let e = Seq::<u64>::empty();
    e.to_multiset_ensures();
    assert(e.to_multiset().len() == 0);
    assert(e.to_multiset() =~= Multiset::<u64>::empty());
    assert(seq![x] =~= e.push(x));
    assert(e.push(x).to_multiset() =~= e.to_multiset().insert(x));
}

/// Inserting keeps the order, grows the length by one, and adds exactly
/// the new element to the content.
pub proof fn lemma_insert_sorted_props(s: Seq<u64>, x: u64)
    requires
        sorted_asc(s),
    ensures
        sorted_asc(insert_sorted(s, x)),
        insert_sorted(s, x).len() == s.len() + 1,
        insert_sorted(s, x).to_multiset() == s.to_multiset().insert(x),
        insert_sorted(s, x)[0] == if s.len() > 0 && s[0] < x {
            s[0]
        } else {
            x
        },
    decreases s.len(),
{
    broadcast use vstd::multiset::group_multiset_axioms;
    broadcast use vstd::multiset::lemma_multiset_empty_len;

    let r = insert_sorted(s, x);
    if s.len() == 0 {
        s.to_multiset_ensures();
        assert(seq![x] =~= s.push(x));
        assert(s.push(x).to_multiset() =~= s.to_multiset().insert(x));
        assert(r.to_multiset() =~= s.to_multiset().insert(x));
    } else if x <= s[0] {
        assert(r == seq![x] + s);
        vstd::seq_lib::lemma_multiset_commutative(seq![x], s);
        lemma_singleton_multiset(x);
        assert(r.to_multiset() =~= s.to_multiset().insert(x));
        assert forall|i: int, j: int| 0 <= i < j < r.len() implies #[trigger] r[i] <= #[trigger] r[j] by {
            if i == 0 {
                assert(r[j] == s[j - 1]);
                if j > 1 {
                    assert(s[0] <= s[j - 1]);
                }
            } else {
                assert(r[i] == s[i - 1] && r[j] == s[j - 1]);
            }
        }
    } else {
        let rest = s.drop_first();
        assert(sorted_asc(rest)) by {
            assert(forall|i: int| 0 <= i < rest.len() ==> rest[i] == s[i + 1]);
        }
        lemma_insert_sorted_props(rest, x);
        let ri = insert_sorted(rest, x);
        assert(r == seq![s[0]] + ri);
        vstd::seq_lib::lemma_multiset_commutative(seq![s[0]], ri);
        vstd::seq_lib::lemma_multiset_commutative(seq![s[0]], rest);
        assert(s =~= seq![s[0]] + rest);
        lemma_singleton_multiset(s[0]);
        assert(r.to_multiset() =~= s.to_multiset().insert(x));
        assert(ri[0] == if rest.len() > 0 && rest[0] < x {
            rest[0]
        } else {
            x
        });
        assert forall|i: int, j: int| 0 <= i < j < r.len() implies #[trigger] r[i] <= #[trigger] r[j] by {
            if i == 0 {
                assert(r[j] == ri[j - 1]);
                if j == 1 {
                    assert(r[1] == ri[0]);
                    if rest.len() > 0 && rest[0] < x {
                        assert(s[0] <= s[1]);
                    }
                } else {
                    assert(ri[0] <= ri[j - 1]);
                    if rest.len() > 0 && rest[0] < x {
                        assert(s[0] <= s[1]);
                    }
                }
            } else {
                assert(r[i] == ri[i - 1] && r[j] == ri[j - 1]);
            }
        }
    }
}

/// The sort is sorted and keeps exactly the content.
pub proof fn lemma_sort_u64_props(s: Seq<u64>)
    ensures
        sorted_asc(sort_u64(s)),
        sort_u64(s).len() == s.len(),
        sort_u64(s).to_multiset() == s.to_multiset(),
    decreases s.len(),
{
    if s.len() > 0 {
        let rest = s.drop_last();
        lemma_sort_u64_props(rest);
        lemma_insert_sorted_props(sort_u64(rest), s.last());
        rest.to_multiset_ensures();
        assert(rest.push(s.last()) =~= s);
        assert(rest.push(s.last()).to_multiset() =~= rest.to_multiset().insert(s.last()));
        assert(sort_u64(s) == insert_sorted(sort_u64(rest), s.last()));
        assert(sort_u64(s).to_multiset() == sort_u64(rest).to_multiset().insert(s.last()));
        assert(s.to_multiset() == rest.push(s.last()).to_multiset());
        assert(sort_u64(s).to_multiset() =~= s.to_multiset());
    } else {
        assert(s =~= Seq::<u64>::empty());
    }
}

/// Insertion adds one matching element to a filter count exactly when the
/// inserted element matches.
proof fn lemma_insert_filter_len(s: Seq<u64>, x: u64, q: spec_fn(u64) -> bool)
    ensures
        insert_sorted(s, x).filter(q).len() == s.filter(q).len() + if q(x) {
            1int
        } else {
            0int
        },
    decreases s.len(),
{
    reveal(Seq::filter);
    broadcast use vstd::seq::Seq::filter_distributes_over_add;

    if s.len() == 0 {
        assert(seq![x].filter(q).len() == if q(x) {
            1int
        } else {
            0int
        }) by {
            reveal(Seq::filter);
            assert(seq![x].drop_last() =~= Seq::<u64>::empty());
            assert(Seq::<u64>::empty().filter(q) =~= Seq::<u64>::empty());
            assert(seq![x].filter(q) == if q(x) { Seq::<u64>::empty().push(x) } else { Seq::<u64>::empty() });
        }
    } else if x <= s[0] {
        assert(insert_sorted(s, x) == seq![x] + s);
        assert((seq![x] + s).filter(q) == seq![x].filter(q) + s.filter(q));
        assert(seq![x].filter(q).len() == if q(x) {
            1int
        } else {
            0int
        }) by {
            reveal(Seq::filter);
            assert(seq![x].drop_last() =~= Seq::<u64>::empty());
            assert(Seq::<u64>::empty().filter(q) =~= Seq::<u64>::empty());
            assert(seq![x].filter(q) == if q(x) { Seq::<u64>::empty().push(x) } else { Seq::<u64>::empty() });
        }
    } else {
        let rest = s.drop_first();
        lemma_insert_filter_len(rest, x, q);
        assert(insert_sorted(s, x) == seq![s[0]] + insert_sorted(rest, x));
        assert((seq![s[0]] + insert_sorted(rest, x)).filter(q) == seq![s[0]].filter(q)
            + insert_sorted(rest, x).filter(q));
        assert(s =~= seq![s[0]] + rest);
        assert((seq![s[0]] + rest).filter(q) == seq![s[0]].filter(q) + rest.filter(q));
    }
}

/// Sorting does not change how many elements match a predicate.
pub proof fn lemma_sort_filter_len(s: Seq<u64>, q: spec_fn(u64) -> bool)
    ensures
        sort_u64(s).filter(q).len() == s.filter(q).len(),
    decreases s.len(),
{
    reveal(Seq::filter);
    if s.len() > 0 {
        let rest = s.drop_last();
        lemma_sort_filter_len(rest, q);
        lemma_insert_filter_len(sort_u64(rest), s.last(), q);
    }
}

/// How many elements of `0, 1, …, n-1` are at least `t`.
pub proof fn lemma_range_count_ge(n: int, t: u64)
    requires
        0 <= n <= u64::MAX,
    ensures
        Seq::new(n as nat, |i: int| i as u64).filter(|x: u64| x >= t).len() == if t as int <= n {
            n - t
        } else {
            0int
        },
    decreases n,
{
    reveal(Seq::filter);
    let sn = Seq::new(n as nat, |i: int| i as u64);
    if n == 0 {
    } else {
        lemma_range_count_ge(n - 1, t);
        let prev = Seq::new((n - 1) as nat, |i: int| i as u64);
        assert(sn.drop_last() =~= prev);
        assert(sn.last() == (n - 1) as u64);
    }
}

/// Positional form of insertion: when everything before `j` is below `x`
/// and `x` does not exceed the element at `j`, inserting lands at `j`.
proof fn lemma_insert_sorted_at(s: Seq<u64>, x: u64, j: int)
    requires
        0 <= j <= s.len(),
        forall|k: int| 0 <= k < j ==> #[trigger] s[k] < x,
        j == s.len() || x <= s[j],
    ensures
        insert_sorted(s, x) == s.take(j) + seq![x] + s.skip(j),
    decreases j,
{
    if j == 0 {
        if s.len() == 0 {
            assert(insert_sorted(s, x) =~= s.take(0) + seq![x] + s.skip(0));
        } else {
            assert(x <= s[0]);
            assert(insert_sorted(s, x) =~= s.take(0) + seq![x] + s.skip(0));
        }
    } else {
        assert(s[0] < x);
        let rest = s.drop_first();
        assert(forall|k: int| 0 <= k < j - 1 ==> #[trigger] rest[k] == s[k + 1]);
        lemma_insert_sorted_at(rest, x, j - 1);
        assert(insert_sorted(s, x) == seq![s[0]] + (rest.take(j - 1) + seq![x] + rest.skip(j
            - 1)));
        assert(seq![s[0]] + (rest.take(j - 1) + seq![x] + rest.skip(j - 1)) =~= s.take(j)
            + seq![x] + s.skip(j));
    }
}

/// Sort scores ascending.
#[verifier::loop_isolation(false)]
pub fn sort_u64_exec(v: &Vec<u64>) -> (r: Vec<u64>)
    ensures
        r@ == sort_u64(v@),
{
    let mut out: Vec<u64> = Vec::new();
    let mut i: usize = 0;
    proof {
        assert(v@.take(0) =~= Seq::<u64>::empty());
        assert(out@ =~= sort_u64(v@.take(0)));
    }
    while i < v.len()
        invariant
            i <= v@.len(),
            out@ == sort_u64(v@.take(i as int)),
            out@.len() == i,
        decreases v@.len() - i,
    {
        proof {
            lemma_sort_u64_props(v@.take(i as int));
        }
        let x = v[i];
        let mut j: usize = 0;
        while j < out.len() && out[j] < x
            invariant
                j <= out@.len(),
                forall|k: int| 0 <= k < j ==> #[trigger] out@[k] < x,
            decreases out@.len() - j,
        {
            j = j + 1;
        }
        let ghost pre = out@;
        out.insert(j, x);
        proof {
            lemma_insert_sorted_at(pre, x, j as int);
            assert(out@ =~= pre.take(j as int) + seq![x] + pre.skip(j as int));
            let t1 = v@.take(i as int + 1);
            assert(t1.drop_last() =~= v@.take(i as int));
            assert(t1.last() == v@[i as int]);
            assert(out@ == sort_u64(t1));
        }
        i = i + 1;
    }
    proof {
        assert(v@.take(v@.len() as int) =~= v@);
    }
    out
}

/// Popularity rank order: higher score first, then newer, then larger id.
/// A strict total order on rows with distinct ids.
pub open spec fn rank_before(a: Article, b: Article) -> bool {
    ||| a.popularity_score > b.popularity_score
    ||| (a.popularity_score == b.popularity_score && a.published_at > b.published_at)
    ||| (a.popularity_score == b.popularity_score && a.published_at == b.published_at
        && seq_char_lt(b.id@, a.id@))
}

/// A row inserted into a ranked sequence, after every row that ranks
/// before it.
pub open spec fn rank_insert(s: Seq<Article>, a: Article) -> Seq<Article>
    decreases s.len(),
{
    if s.len() == 0 {
        seq![a]
    } else if rank_before(s[0], a) {
        seq![s[0]] + rank_insert(s.drop_first(), a)
    } else {
        seq![a] + s
    }
}

/// The rank sort of a sequence of rows.
pub open spec fn rank_sort(s: Seq<Article>) -> Seq<Article>
    decreases s.len(),
{
    if s.len() == 0 {
        Seq::empty()
    } else {
        rank_insert(rank_sort(s.drop_last()), s.last())
    }
}

/// Positional form of rank insertion.
proof fn lemma_rank_insert_at(s: Seq<Article>, a: Article, j: int)
    requires
        0 <= j <= s.len(),
        forall|k: int| 0 <= k < j ==> rank_before(#[trigger] s[k], a),
        j == s.len() || !rank_before(s[j], a),
    ensures
        rank_insert(s, a) == s.take(j) + seq![a] + s.skip(j),
    decreases j,
{
    if j == 0 {
        if s.len() == 0 {
            assert(rank_insert(s, a) =~= s.take(0) + seq![a] + s.skip(0));
        } else {
            assert(!rank_before(s[0], a));
            assert(rank_insert(s, a) =~= s.take(0) + seq![a] + s.skip(0));
        }
    } else {
        assert(rank_before(s[0], a));
        let rest = s.drop_first();
        assert(forall|k: int| 0 <= k < j - 1 ==> #[trigger] rest[k] == s[k + 1]);
        lemma_rank_insert_at(rest, a, j - 1);
        assert(rank_insert(s, a) == seq![s[0]] + (rest.take(j - 1) + seq![a] + rest.skip(j
            - 1)));
        assert(seq![s[0]] + (rest.take(j - 1) + seq![a] + rest.skip(j - 1)) =~= s.take(j)
            + seq![a] + s.skip(j));
    }
}

/// Rank insertion grows the length by one.
proof fn lemma_rank_insert_len(s: Seq<Article>, a: Article)
    ensures
        rank_insert(s, a).len() == s.len() + 1,
    decreases s.len(),
{
    if s.len() > 0 && rank_before(s[0], a) {
        lemma_rank_insert_len(s.drop_first(), a);
    }
}

/// The rank sort keeps the length.
pub proof fn lemma_rank_sort_len(s: Seq<Article>)
    ensures
        rank_sort(s).len() == s.len(),
    decreases s.len(),
{
    if s.len() > 0 {
        lemma_rank_sort_len(s.drop_last());
        lemma_rank_insert_len(rank_sort(s.drop_last()), s.last());
    }
}

/// Whether `a` ranks strictly before `b`, executable form.
fn rank_before_exec(a: &Article, b: &Article) -> (r: bool)
    ensures
        r == rank_before(*a, *b),
{
    a.popularity_score > b.popularity_score || (a.popularity_score == b.popularity_score
        && a.published_at > b.published_at) || (a.popularity_score == b.popularity_score
        && a.published_at == b.published_at && crate::text::str_lt(b.id.as_str(), a.id.as_str()))
}

/// Sort rows by popularity rank.
#[verifier::loop_isolation(false)]
pub fn rank_sort_exec(v: &Vec<Article>) -> (r: Vec<Article>)
    ensures
        r@ == rank_sort(v@),
{
    let mut out: Vec<Article> = Vec::new();
    let mut i: usize = 0;
    proof {
        assert(v@.take(0) =~= Seq::<Article>::empty());
        assert(out@ =~= rank_sort(v@.take(0)));
    }
    while i < v.len()
        invariant
            i <= v@.len(),
            out@ == rank_sort(v@.take(i as int)),
        decreases v@.len() - i,
    {
        let x = v[i].clone();
        let mut j: usize = 0;
        while j < out.len() && rank_before_exec(&out[j], &x)
            invariant
                j <= out@.len(),
                forall|k: int| 0 <= k < j ==> rank_before(#[trigger] out@[k], x),
            decreases out@.len() - j,
        {
            j = j + 1;
        }
        let ghost pre = out@;
        out.insert(j, x);
        proof {
            lemma_rank_insert_at(pre, v@[i as int], j as int);
            assert(out@ =~= pre.take(j as int) + seq![v@[i as int]] + pre.skip(j as int));
            let t1 = v@.take(i as int + 1);
            assert(t1.drop_last() =~= v@.take(i as int));
            assert(t1.last() == v@[i as int]);
            assert(out@ == rank_sort(t1));
        }
        i = i + 1;
    }
    proof {
        assert(v@.take(v@.len() as int) =~= v@);
    }
    out
}

} // verus!
