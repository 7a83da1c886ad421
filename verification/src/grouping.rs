//! Read-time near-duplicate clustering of titles: character trigrams,
//! Jaccard similarity, and union-find grouping of every pair at or above a
//! threshold. The threshold is a rational `num/den`, so the comparison is
//! exact integer arithmetic.

use vstd::prelude::*;
use vstd::pervasive::VecAdditionalExecFns;
use vstd::set_lib::group_set_properties;
use vstd::arithmetic::mul::{lemma_mul_inequality, lemma_mul_upper_bound};
use crate::text::chars_vec;

verus! {

/// The character windows a title contributes: all contiguous 3-character
/// windows for titles of 3 or more characters, the whole title as a single
/// token for shorter non-empty titles, nothing for the empty title.
pub open spec fn gram_seq(s: Seq<char>) -> Seq<Seq<char>> {
    if s.len() == 0 {
        Seq::empty()
    } else if s.len() < 3 {
        seq![s]
    } else {
        Seq::new((s.len() - 2) as nat, |i: int| s.subrange(i, i + 3))
    }
}

/// The trigram set of a title.
pub open spec fn gram_set(s: Seq<char>) -> Set<Seq<char>> {
    gram_seq(s).to_set()
}

/// `|A ∩ B|` for the trigram sets of two titles.
pub open spec fn inter_count(a: Seq<char>, b: Seq<char>) -> nat {
    gram_set(a).intersect(gram_set(b)).len()
}

/// `|A ∪ B|` for the trigram sets of two titles.
pub open spec fn union_count(a: Seq<char>, b: Seq<char>) -> nat {
    gram_set(a).union(gram_set(b)).len()
}

/// Whether the Jaccard similarity of two titles reaches `num/den`. Two
/// titles with empty trigram sets count as fully similar (score one), and
/// otherwise the score is `|A∩B| / |A∪B|`.
pub open spec fn similar_at(a: Seq<char>, b: Seq<char>, num: int, den: int) -> bool {
    if union_count(a, b) == 0 {
        den >= num
    } else {
        inter_count(a, b) * den >= num * union_count(a, b)
    }
}

/// The distinct trigrams of a title, as strings.
pub fn trigrams(s: &str) -> (v: Vec<String>)
    ensures
        v.deep_view().to_set() == gram_set(s@),
        v.deep_view().no_duplicates(),
        v@.len() <= s@.len(),
{
    let cs = chars_vec(s);
    let n = cs.len();
    let mut v: Vec<String> = Vec::new();
    if n == 0 {
        proof {
            assert(v.deep_view() =~= Seq::<Seq<char>>::empty());
            assert(v.deep_view().to_set() =~= gram_set(s@));
        }
        return v;
    }
    if n < 3 {
        v.push(s.to_owned());
        proof {
            assert(v.deep_view() =~= seq![s@]);
            assert(v.deep_view().to_set() =~= gram_set(s@));
        }
        return v;
    }
    let ghost gs = gram_seq(s@);
    let mut i: usize = 0;
    proof {
        assert(v.deep_view() =~= Seq::<Seq<char>>::empty());
        assert(v.deep_view().to_set() =~= gs.take(0).to_set());
    }
    while i < n - 2
        invariant
            3 <= n == s@.len() == cs@.len(),
            cs@ == s@,
            i <= n - 2,
            gs == gram_seq(s@),
            gs.len() == n - 2,
            v.deep_view().to_set() == gs.take(i as int).to_set(),
            v.deep_view().no_duplicates(),
            v@.len() <= i,
        decreases n - i,
    {
        let mut t = String::new();
        crate::text::push_char(&mut t, cs[i]);
        crate::text::push_char(&mut t, cs[i + 1]);
        crate::text::push_char(&mut t, cs[i + 2]);
        proof {
            assert(t@ =~= s@.subrange(i as int, i as int + 3));
            assert(gs[i as int] == t@);
            assert(gs.take(i as int + 1) =~= gs.take(i as int).push(t@));
        }
        let present = contains_gram(&v, &t);
        let ghost entry_dv = v.deep_view();
        let ghost tview = t@;
        if !present {
            v.push(t);
            proof {
                let dv = v.deep_view();
                assert(dv =~= entry_dv.push(tview));
                broadcast use vstd::seq::Seq::lemma_push_to_set_commute;
                assert(dv.to_set() == entry_dv.to_set().insert(tview));
                assert(gs.take(i as int).to_set().insert(gs[i as int]) =~= gs.take(
                    i as int + 1,
                ).to_set());
                assert forall|k1: int, k2: int| 0 <= k1 < k2 < dv.len() implies dv[k1]
                    != dv[k2] by {
                    if k2 == dv.len() - 1 {
                        if dv[k1] == tview {
                            assert(entry_dv[k1] == tview);
                            assert(entry_dv.contains(tview));
                        }
                    }
                }
            }
        } else {
            proof {
                assert(gs.take(i as int).to_set().contains(t@));
                assert(gs.take(i as int + 1).to_set() =~= gs.take(i as int).to_set());
            }
        }
        i = i + 1;
    }
    proof {
        assert(gs.take((n - 2) as int) =~= gs);
    }
    v
}

/// Whether the vector already holds this trigram.
fn contains_gram(v: &Vec<String>, x: &String) -> (r: bool)
    ensures
        r == v.deep_view().contains(x@),
{
    let mut j: usize = 0;
    while j < v.len()
        invariant
            j <= v@.len(),
            forall|k: int| 0 <= k < j ==> v.deep_view()[k] != x@,
        decreases v@.len() - j,
    {
        if v[j].eq(x) {
            proof {
                assert(v.deep_view()[j as int] == x@);
            }
            return true;
        }
        j = j + 1;
    }
    proof {
        if v.deep_view().contains(x@) {
            let k = choose|k: int| 0 <= k < v.deep_view().len() && v.deep_view()[k] == x@;
            assert(v.deep_view()[k] != x@);
        }
    }
    false
}

/// Counting a sequence's elements that satisfy a predicate counts the
/// matching elements of its set, when the sequence has no duplicates.
proof fn lemma_count_pred(s: Seq<Seq<char>>, pred: spec_fn(Seq<char>) -> bool)
    requires
        s.no_duplicates(),
    ensures
        s.filter(pred).len() == s.to_set().filter(pred).len(),
    decreases s.len(),
{
    broadcast use vstd::set::group_set_axioms;
    broadcast use vstd::seq_lib::seq_to_set_is_finite;

    reveal(Seq::filter);
    if s.len() == 0 {
        assert(s.to_set() =~= Set::<Seq<char>>::empty());
        assert(s.to_set().filter(pred) =~= Set::<Seq<char>>::empty());
    } else {
        let rest = s.drop_last();
        let x = s.last();
        assert(rest.no_duplicates());
        lemma_count_pred(rest, pred);
        assert(s =~= rest.push(x));
        broadcast use vstd::seq::Seq::lemma_push_to_set_commute;
        assert(s.to_set() == rest.to_set().insert(x));
        assert(!rest.to_set().contains(x)) by {
            if rest.to_set().contains(x) {
                let k = choose|k: int| 0 <= k < rest.len() && rest[k] == x;
                assert(s[k] == s[s.len() - 1]);
            }
        }
        assert(rest.to_set().filter(pred).finite());
        if pred(x) {
            assert(s.to_set().filter(pred) =~= rest.to_set().filter(pred).insert(x));
            assert(!rest.to_set().filter(pred).contains(x));
            assert(s.to_set().filter(pred).len() == rest.to_set().filter(pred).len() + 1);
        } else {
            assert(s.to_set().filter(pred) =~= rest.to_set().filter(pred));
        }
    }
}

/// `|S ∪ T| == |S| + |T ∖ S|` for finite sets.
proof fn lemma_len_union_difference(s: Set<Seq<char>>, t: Set<Seq<char>>)
    requires
        s.finite(),
        t.finite(),
    ensures
        s.union(t).len() == s.len() + t.difference(s).len(),
    decreases t.len(),
{
    broadcast use vstd::set::group_set_axioms;
    broadcast use group_set_properties;

    if t.len() == 0 {
        assert(t =~= Set::<Seq<char>>::empty());
        assert(s.union(t) =~= s);
        assert(t.difference(s) =~= Set::<Seq<char>>::empty());
    } else {
        let x = t.choose();
        assert(t.contains(x));
        let t1 = t.remove(x);
        lemma_len_union_difference(s, t1);
        if s.contains(x) {
            assert(s.union(t) =~= s.union(t1));
            assert(t.difference(s) =~= t1.difference(s));
        } else {
            assert(s.union(t) =~= s.union(t1).insert(x));
            assert(!s.union(t1).contains(x));
            assert(t.difference(s) =~= t1.difference(s).insert(x));
            assert(!t1.difference(s).contains(x));
        }
    }
}

/// The trigram counts of two titles: `|A ∩ B|` and `|A ∪ B|`.
#[verifier::loop_isolation(false)]
pub fn similarity_counts(a: &str, b: &str) -> (r: (usize, usize))
    requires
        a@.len() + b@.len() < usize::MAX,
    ensures
        r.0 == inter_count(a@, b@),
        r.1 == union_count(a@, b@),
{
    broadcast use vstd::set::group_set_axioms;
    broadcast use vstd::seq_lib::seq_to_set_is_finite;

    let ta = trigrams(a);
    let tb = trigrams(b);
    let ghost aset = gram_set(a@);
    let ghost bset = gram_set(b@);
    proof {
        reveal(Seq::filter);
        assert(ta.deep_view().take(0).filter(|t: Seq<char>| bset.contains(t)).len() == 0);
    }
    let mut inter: usize = 0;
    let mut i: usize = 0;
    while i < ta.len()
        invariant
            i <= ta@.len(),
            inter == ta.deep_view().take(i as int).filter(|t: Seq<char>| bset.contains(t)).len(),
            inter <= i,
        decreases ta@.len() - i,
    {
        proof {
            reveal(Seq::filter);
            let dv = ta.deep_view();
            let t1 = dv.take(i as int + 1);
            assert(t1.drop_last() =~= dv.take(i as int));
            assert(t1.last() == dv[i as int]);
        }
        if contains_gram(&tb, &ta[i]) {
            proof {
                assert(tb.deep_view().to_set().contains(ta.deep_view()[i as int]));
            }
            inter = inter + 1;
        }
        i = i + 1;
    }
    proof {
        reveal(Seq::filter);
        let dv = ta.deep_view();
        assert(dv.take(dv.len() as int) =~= dv);
        lemma_count_pred(dv, |t: Seq<char>| bset.contains(t));
        assert(aset.filter(|t: Seq<char>| bset.contains(t)) =~= aset.intersect(bset));
        assert(inter == inter_count(a@, b@));
    }
    let mut extra: usize = 0;
    let mut j: usize = 0;
    proof {
        reveal(Seq::filter);
        assert(tb.deep_view().take(0).filter(|t: Seq<char>| !aset.contains(t)).len() == 0);
    }
    while j < tb.len()
        invariant
            j <= tb@.len(),
            extra == tb.deep_view().take(j as int).filter(|t: Seq<char>| !aset.contains(t)).len(),
            extra <= j,
        decreases tb@.len() - j,
    {
        proof {
            reveal(Seq::filter);
            let dv = tb.deep_view();
            let t1 = dv.take(j as int + 1);
            assert(t1.drop_last() =~= dv.take(j as int));
            assert(t1.last() == dv[j as int]);
        }
        if !contains_gram(&ta, &tb[j]) {
            proof {
                assert(!ta.deep_view().to_set().contains(tb.deep_view()[j as int]));
            }
            extra = extra + 1;
        }
        j = j + 1;
    }
    proof {
        reveal(Seq::filter);
        let dv = tb.deep_view();
        assert(dv.take(dv.len() as int) =~= dv);
        lemma_count_pred(dv, |t: Seq<char>| !aset.contains(t));
        assert(bset.filter(|t: Seq<char>| !aset.contains(t)) =~= bset.difference(aset));
        assert(extra == bset.difference(aset).len());
        ta.deep_view().unique_seq_to_set();
        assert(ta@.len() == aset.len());
        lemma_len_union_difference(aset, bset);
        assert(ta@.len() + extra == union_count(a@, b@));
    }
    (inter, ta.len() + extra)
}

/// Whether two titles' Jaccard similarity reaches the threshold `num/den`.
pub fn similar(a: &str, b: &str, num: u64, den: u64) -> (r: bool)
    requires
        den >= 1,
        a@.len() + b@.len() < usize::MAX,
    ensures
        r == similar_at(a@, b@, num as int, den as int),
{
    let (inter, uni) = similarity_counts(a, b);
    if uni == 0 {
        den >= num
    } else {
        proof {
            lemma_mul_upper_bound(inter as int, u64::MAX as int, den as int, u64::MAX as int);
            lemma_mul_upper_bound(num as int, u64::MAX as int, uni as int, u64::MAX as int);
        }
        let lhs: u128 = (inter as u128) * (den as u128);
        let rhs: u128 = (num as u128) * (uni as u128);
        lhs >= rhs
    }
}

/// Law: a title is fully similar to itself, whatever the threshold allows
/// for a perfect score: its intersection and union counts coincide.
pub proof fn lemma_similarity_self(a: Seq<char>, num: int, den: int)
    requires
        0 <= num <= den,
    ensures
        inter_count(a, a) == union_count(a, a),
        similar_at(a, a, num, den),
{
    assert(gram_set(a).intersect(gram_set(a)) =~= gram_set(a));
    assert(gram_set(a).union(gram_set(a)) =~= gram_set(a));
    if union_count(a, a) != 0 {
        lemma_mul_inequality(num, den, union_count(a, a) as int);
        assert(union_count(a, a) * den == den * union_count(a, a)) by (nonlinear_arith);
        assert(num * union_count(a, a) <= den * union_count(a, a)) by (nonlinear_arith)
            requires num <= den, union_count(a, a) >= 0;
    }
}

/// One step of near-duplication: two distinct titles that meet the
/// threshold, whichever way round they are given.
pub open spec fn sim_edge(tv: Seq<Seq<char>>, num: int, den: int, x: int, y: int) -> bool {
    &&& 0 <= x < tv.len()
    &&& 0 <= y < tv.len()
    &&& x != y
    &&& if x < y {
        similar_at(tv[x], tv[y], num, den)
    } else {
        similar_at(tv[y], tv[x], num, den)
    }
}

/// A chain of indices in which each step either stays in place or crosses
/// a similarity edge.
pub open spec fn is_sim_chain(tv: Seq<Seq<char>>, num: int, den: int, c: Seq<int>) -> bool {
    &&& c.len() >= 1
    &&& forall|t: int| 0 <= t < c.len() ==> 0 <= #[trigger] c[t] < tv.len()
    &&& forall|t: int|
        0 <= t < c.len() - 1 ==> (#[trigger] c[t]) == c[t + 1] || sim_edge(
            tv,
            num,
            den,
            c[t],
            c[t + 1],
        )
}

/// The transitive closure of the similarity relation: two indices are
/// connected when a chain of threshold-meeting steps joins them.
pub open spec fn connected(tv: Seq<Seq<char>>, num: int, den: int, x: int, y: int) -> bool {
    exists|c: Seq<int>|
        #[trigger] is_sim_chain(tv, num, den, c) && c.first() == x && c.last() == y
}

/// Every index is connected to itself.
pub proof fn lemma_connected_refl(tv: Seq<Seq<char>>, num: int, den: int, x: int)
    requires
        0 <= x < tv.len(),
    ensures
        connected(tv, num, den, x, x),
{
    let c = seq![x];
    assert(is_sim_chain(tv, num, den, c));
}

/// A similarity edge connects its endpoints.
proof fn lemma_connected_edge(tv: Seq<Seq<char>>, num: int, den: int, x: int, y: int)
    requires
        sim_edge(tv, num, den, x, y),
    ensures
        connected(tv, num, den, x, y),
{
    let c = seq![x, y];
    assert(is_sim_chain(tv, num, den, c));
    assert(c.first() == x && c.last() == y);
}

/// Connectivity is transitive: chains concatenate.
proof fn lemma_connected_trans(tv: Seq<Seq<char>>, num: int, den: int, x: int, y: int, z: int)
    requires
        connected(tv, num, den, x, y),
        connected(tv, num, den, y, z),
    ensures
        connected(tv, num, den, x, z),
{
    let c1 = choose|c: Seq<int>|
        #[trigger] is_sim_chain(tv, num, den, c) && c.first() == x && c.last() == y;
    let c2 = choose|c: Seq<int>|
        #[trigger] is_sim_chain(tv, num, den, c) && c.first() == y && c.last() == z;
    let c = c1 + c2;
    assert(is_sim_chain(tv, num, den, c)) by {
        assert forall|t: int| 0 <= t < c.len() implies 0 <= #[trigger] c[t] < tv.len() by {
            if t < c1.len() {
                assert(c[t] == c1[t]);
            } else {
                assert(c[t] == c2[t - c1.len()]);
            }
        }
        assert forall|t: int| 0 <= t < c.len() - 1 implies (#[trigger] c[t]) == c[t + 1]
            || sim_edge(tv, num, den, c[t], c[t + 1]) by {
            if t + 1 < c1.len() {
                assert(c[t] == c1[t] && c[t + 1] == c1[t + 1]);
            } else if t + 1 == c1.len() {
                assert(c[t] == c1[c1.len() - 1] && c[t + 1] == c2[0]);
                assert(c[t] == y && c[t + 1] == y);
            } else {
                assert(c[t] == c2[t - c1.len()] && c[t + 1] == c2[t + 1 - c1.len()]);
            }
        }
    }
    assert(c.first() == c1[0] && c.last() == c2[c2.len() - 1]);
}

/// Every link of a chain shares one root once all similar pairs are
/// joined, so the chain's two ends do too.
proof fn lemma_chain_same_root(
    tv: Seq<Seq<char>>,
    num: int,
    den: int,
    p: Seq<usize>,
    c: Seq<int>,
)
    requires
        p.len() == tv.len(),
        is_sim_chain(tv, num, den, c),
        forall|x: int, y: int|
            0 <= x < y < tv.len() && similar_at(tv[x], tv[y], num, den) ==> #[trigger] uf_find(
                p,
                x,
            ) == #[trigger] uf_find(p, y),
    ensures
        uf_find(p, c.first()) == uf_find(p, c.last()),
    decreases c.len(),
{
    if c.len() >= 2 {
        let rest = c.drop_first();
        assert(is_sim_chain(tv, num, den, rest)) by {
            assert(forall|t: int| 0 <= t < rest.len() ==> rest[t] == c[t + 1]);
        }
        lemma_chain_same_root(tv, num, den, p, rest);
        if c[0] == c[1] {
        } else {
            assert(sim_edge(tv, num, den, c[0], c[1]));
            if c[0] < c[1] {
                assert(uf_find(p, c[0]) == uf_find(p, c[1]));
            } else {
                assert(uf_find(p, c[1]) == uf_find(p, c[0]));
            }
        }
        assert(rest.first() == c[1] && rest.last() == c.last());
    }
}

/// Whether every pair of indices sharing a root is connected.
pub open spec fn roots_connected(tv: Seq<Seq<char>>, num: int, den: int, p: Seq<usize>) -> bool {
    forall|x: int, y: int|
        0 <= x < p.len() && 0 <= y < p.len() && #[trigger] uf_find(p, x) == #[trigger] uf_find(
            p,
            y,
        ) ==> connected(tv, num, den, x, y)
}

/// A well-formed union-find forest over indices: every parent pointer goes
/// downward, so the lowest index of a component is its root.
pub open spec fn uf_wf(p: Seq<usize>) -> bool {
    forall|i: int| 0 <= i < p.len() ==> #[trigger] p[i] <= i
}

/// The root that following parent pointers from `i` reaches.
pub open spec fn uf_find(p: Seq<usize>, i: int) -> int
    decreases i,
{
    if 0 <= i < p.len() && p[i] < i {
        uf_find(p, p[i] as int)
    } else {
        i
    }
}

/// The root of an in-range index is an in-range fixed point, no larger than
/// the index itself.
pub proof fn lemma_uf_find_root(p: Seq<usize>, i: int)
    requires
        uf_wf(p),
        0 <= i < p.len(),
    ensures
        0 <= uf_find(p, i) <= i,
        p[uf_find(p, i)] == uf_find(p, i),
    decreases i,
{
    if p[i] < i {
        lemma_uf_find_root(p, p[i] as int);
    }
}

/// Redirecting the root `hi` to the root `lo` sends every index that used
/// to reach `hi` to `lo`, and leaves every other index's root unchanged.
proof fn lemma_uf_update(p: Seq<usize>, lo: int, hi: int, x: int)
    requires
        uf_wf(p),
        0 <= lo < hi < p.len(),
        p[lo] == lo,
        p[hi] == hi,
        0 <= x < p.len(),
    ensures
        uf_find(p.update(hi, lo as usize), x) == if uf_find(p, x) == hi {
            lo
        } else {
            uf_find(p, x)
        },
    decreases x,
{
    let q = p.update(hi, lo as usize);
    if x == hi {
        assert(q[x] == lo as usize);
        assert(uf_find(q, lo) == lo);
    } else if p[x] == x {
        assert(q[x] == p[x]);
    } else {
        assert(q[x] == p[x]);
        lemma_uf_update(p, lo, hi, p[x] as int);
    }
}

/// Find the root of `i` in the forest.
fn find_root(parent: &Vec<usize>, i: usize) -> (r: usize)
    requires
        uf_wf(parent@),
        i < parent@.len(),
    ensures
        r as int == uf_find(parent@, i as int),
        r <= i,
{
    let mut x = i;
    while parent[x] != x
        invariant
            x <= i,
            x < parent@.len(),
            uf_wf(parent@),
            uf_find(parent@, x as int) == uf_find(parent@, i as int),
        decreases x,
    {
        x = parent[x];
    }
    x
}

/// Join the components of `a` and `b`, rooting the result at the smaller
/// root. Every pair of indices whose roots already agreed keeps agreeing,
/// and a pair agrees afterwards only if it agreed before or spans the two
/// joined components.
fn uf_union(parent: &mut Vec<usize>, a: usize, b: usize)
    requires
        uf_wf(old(parent)@),
        a < old(parent)@.len(),
        b < old(parent)@.len(),
    ensures
        final(parent)@.len() == old(parent)@.len(),
        uf_wf(final(parent)@),
        uf_find(final(parent)@, a as int) == uf_find(final(parent)@, b as int),
        forall|x: int, y: int|
            0 <= x < old(parent)@.len() && 0 <= y < old(parent)@.len() && uf_find(
                old(parent)@,
                x,
            ) == uf_find(old(parent)@, y) ==> uf_find(final(parent)@, x) == uf_find(
                final(parent)@,
                y,
            ),
        forall|x: int, y: int|
            0 <= x < old(parent)@.len() && 0 <= y < old(parent)@.len() && #[trigger] uf_find(
                final(parent)@,
                x,
            ) == #[trigger] uf_find(final(parent)@, y) ==> uf_find(old(parent)@, x) == uf_find(
                old(parent)@,
                y,
            ) || (uf_find(old(parent)@, x) == uf_find(old(parent)@, a as int) && uf_find(
                old(parent)@,
                y,
            ) == uf_find(old(parent)@, b as int)) || (uf_find(old(parent)@, x) == uf_find(
                old(parent)@,
                b as int,
            ) && uf_find(old(parent)@, y) == uf_find(old(parent)@, a as int)),
{
    let ra = find_root(parent, a);
    let rb = find_root(parent, b);
    proof {
        lemma_uf_find_root(parent@, a as int);
        lemma_uf_find_root(parent@, b as int);
    }
    if ra == rb {
        return ;
    }
    let ghost p0 = parent@;
    let (lo, hi) = if ra < rb {
        (ra, rb)
    } else {
        (rb, ra)
    };
    parent.set(hi, lo);
    proof {
        assert(parent@ == p0.update(hi as int, lo));
        assert forall|x: int| 0 <= x < p0.len() implies uf_find(parent@, x) == (if uf_find(p0, x)
            == hi { lo as int } else { uf_find(p0, x) }) by {
            lemma_uf_update(p0, lo as int, hi as int, x);
        }
    }
}

/// The identity forest over `n` indices: everything is its own root.
pub open spec fn ident_forest(n: int) -> Seq<usize> {
    Seq::new(n as nat, |i: int| i as usize)
}

/// In the identity forest every index is its own root.
proof fn lemma_ident_find(n: int, x: int)
    requires
        0 <= x < n <= usize::MAX,
    ensures
        uf_find(ident_forest(n), x) == x,
{
    assert(ident_forest(n)[x] == x as usize);
}

/// Whether some group of the partition holds `x`.
pub open spec fn in_some_group(dv: Seq<Seq<usize>>, x: usize) -> bool {
    exists|gi: int| 0 <= gi < dv.len() && #[trigger] dv[gi].contains(x)
}

/// Whether one group of the partition holds both `x` and `y`.
pub open spec fn same_group(dv: Seq<Seq<usize>>, x: usize, y: usize) -> bool {
    exists|gi: int|
        0 <= gi < dv.len() && #[trigger] dv[gi].contains(x) && dv[gi].contains(y)
}

/// Whether every pair of distinct titles fails the threshold.
pub open spec fn no_similar_pair(tv: Seq<Seq<char>>, num: int, den: int) -> bool {
    forall|x: int, y: int|
        0 <= x < y < tv.len() ==> !similar_at(tv[x], tv[y], num, den)
}

/// What makes a grouping of titles valid: groups are non-empty lists of
/// in-range indices in increasing order, ordered by their first member;
/// every index lands in exactly one group; and two indices share a group
/// exactly when a chain of threshold-meeting steps connects their titles.
/// The last clause pins group membership uniquely.
pub open spec fn valid_grouping(tv: Seq<Seq<char>>, num: int, den: int, dv: Seq<Seq<usize>>) -> bool {
    &&& forall|gi: int| 0 <= gi < dv.len() ==> (#[trigger] dv[gi]).len() >= 1
    &&& forall|gi: int, k: int|
        0 <= gi < dv.len() && 0 <= k < dv[gi].len() ==> (#[trigger] dv[gi][k] as int) < tv.len()
    &&& forall|gi: int, k1: int, k2: int|
        0 <= gi < dv.len() && 0 <= k1 < k2 < dv[gi].len() ==> (#[trigger] dv[gi][k1]) < (
        #[trigger] dv[gi][k2])
    &&& forall|g1: int, g2: int|
        0 <= g1 < g2 < dv.len() ==> (#[trigger] dv[g1])[0] < (#[trigger] dv[g2])[0]
    &&& forall|x: usize| (x as int) < tv.len() ==> in_some_group(dv, x)
    &&& forall|g1: int, g2: int, x: usize|
        0 <= g1 < g2 < dv.len() ==> !(#[trigger] dv[g1].contains(x) && #[trigger] dv[g2].contains(
            x,
        ))
    &&& forall|x: usize, y: usize|
        (x as int) < tv.len() && (y as int) < tv.len() ==> (same_group(dv, x, y) <==> connected(
            tv,
            num,
            den,
            x as int,
            y as int,
        ))
}

/// Law: group membership is a pure function of the titles and the
/// threshold. Any two valid groupings of the same titles agree on which
/// indices share a group, because both agree with connectivity.
pub proof fn lemma_grouping_membership_unique(
    tv: Seq<Seq<char>>,
    num: int,
    den: int,
    dv1: Seq<Seq<usize>>,
    dv2: Seq<Seq<usize>>,
)
    requires
        valid_grouping(tv, num, den, dv1),
        valid_grouping(tv, num, den, dv2),
    ensures
        forall|x: usize, y: usize|
            (x as int) < tv.len() && (y as int) < tv.len() ==> (same_group(dv1, x, y)
                <==> same_group(dv2, x, y)),
{
}

/// Whether all pairs ordered before `(i, j)` that pass the threshold have
/// been joined in the forest.
spec fn joined_up_to(
    tv: Seq<Seq<char>>,
    p: Seq<usize>,
    num: int,
    den: int,
    i: int,
    j: int,
) -> bool {
    forall|x: int, y: int|
        0 <= x < y < tv.len() && (x < i || (x == i && y < j)) && similar_at(
            tv[x],
            tv[y],
            num,
            den,
        ) ==> uf_find(p, x) == uf_find(p, y)
}

/// A zero threshold accepts every pair.
proof fn lemma_zero_threshold(a: Seq<char>, b: Seq<char>, den: int)
    requires
        den >= 1,
    ensures
        similar_at(a, b, 0, den),
{
    if union_count(a, b) != 0 {
        lemma_mul_inequality(0, inter_count(a, b) as int, den);
    }
}

/// Joining one similar pair keeps every shared root explained by a
/// chain: a pair that newly agrees spans the two joined components, and
/// the joining edge links them.
proof fn lemma_union_keeps_connected(
    tv: Seq<Seq<char>>,
    num: int,
    den: int,
    p0: Seq<usize>,
    p1: Seq<usize>,
    i: int,
    j: int,
)
    requires
        p0.len() == tv.len(),
        p1.len() == p0.len(),
        roots_connected(tv, num, den, p0),
        0 <= i < j < tv.len(),
        similar_at(tv[i], tv[j], num, den),
        forall|x: int, y: int|
            0 <= x < p0.len() && 0 <= y < p0.len() && #[trigger] uf_find(p1, x)
                == #[trigger] uf_find(p1, y) ==> uf_find(p0, x) == uf_find(p0, y) || (uf_find(
                p0,
                x,
            ) == uf_find(p0, i) && uf_find(p0, y) == uf_find(p0, j)) || (uf_find(p0, x)
                == uf_find(p0, j) && uf_find(p0, y) == uf_find(p0, i)),
    ensures
        roots_connected(tv, num, den, p1),
{
    assert(sim_edge(tv, num, den, i, j));
    assert forall|x: int, y: int|
        0 <= x < p1.len() && 0 <= y < p1.len() && #[trigger] uf_find(p1, x)
            == #[trigger] uf_find(p1, y) implies connected(tv, num, den, x, y) by {
        if uf_find(p0, x) == uf_find(p0, y) {
            assert(connected(tv, num, den, x, y));
        } else if uf_find(p0, x) == uf_find(p0, i) && uf_find(p0, y) == uf_find(p0, j) {
            assert(connected(tv, num, den, x, i));
            lemma_connected_edge(tv, num, den, i, j);
            assert(connected(tv, num, den, j, y));
            lemma_connected_trans(tv, num, den, x, i, j);
            lemma_connected_trans(tv, num, den, x, j, y);
        } else {
            assert(uf_find(p0, x) == uf_find(p0, j) && uf_find(p0, y) == uf_find(p0, i));
            assert(connected(tv, num, den, x, j));
            lemma_connected_edge(tv, num, den, j, i);
            assert(connected(tv, num, den, i, y));
            lemma_connected_trans(tv, num, den, x, j, i);
            lemma_connected_trans(tv, num, den, x, i, y);
        }
    }
}

/// Assemble the collection loop's facts into a valid grouping: the
/// groups cover and separate the indices by root, and roots coincide
/// with chain connectivity once every similar pair is joined.
#[verifier::rlimit(100)]
proof fn lemma_assemble_grouping(
    tv: Seq<Seq<char>>,
    num: int,
    den: int,
    p: Seq<usize>,
    dv: Seq<Seq<usize>>,
)
    requires
        p.len() == tv.len(),
        uf_wf(p),
        roots_connected(tv, num, den, p),
        forall|x: int, y: int|
            0 <= x < y < tv.len() && similar_at(tv[x], tv[y], num, den) ==> #[trigger] uf_find(
                p,
                x,
            ) == #[trigger] uf_find(p, y),
        forall|gi: int| 0 <= gi < dv.len() ==> (#[trigger] dv[gi]).len() >= 1,
        forall|gi: int, k: int|
            0 <= gi < dv.len() && 0 <= k < dv[gi].len() ==> (#[trigger] dv[gi][k] as int)
                < p.len(),
        forall|gi: int, k: int|
            0 <= gi < dv.len() && 0 <= k < dv[gi].len() ==> uf_find(
                p,
                #[trigger] dv[gi][k] as int,
            ) == uf_find(p, dv[gi][0] as int),
        forall|gi: int|
            0 <= gi < dv.len() ==> ((#[trigger] dv[gi])[0] as int) == uf_find(
                p,
                dv[gi][0] as int,
            ),
        forall|g1: int, g2: int|
            0 <= g1 < g2 < dv.len() ==> uf_find(p, (#[trigger] dv[g1])[0] as int) < uf_find(
                p,
                (#[trigger] dv[g2])[0] as int,
            ),
        forall|gi: int, k1: int, k2: int|
            0 <= gi < dv.len() && 0 <= k1 < k2 < dv[gi].len() ==> (#[trigger] dv[gi][k1]) < (
            #[trigger] dv[gi][k2]),
        forall|y: int|
            0 <= y < p.len() && uf_find(p, y) < p.len() ==> in_some_group(dv, y as usize),
    ensures
        valid_grouping(tv, num, den, dv),
{
    let n = p.len() as int;
    // every index is covered, since its root is below n
    assert forall|x: usize| (x as int) < n implies in_some_group(dv, x) by {
        lemma_uf_find_root(p, x as int);
    }
    // distinct groups never share a member
    assert forall|g1: int, g2: int, x: usize|
        0 <= g1 < g2 < dv.len() implies !(#[trigger] dv[g1].contains(x)
        && #[trigger] dv[g2].contains(x)) by {
        if dv[g1].contains(x) && dv[g2].contains(x) {
            let k1 = choose|k: int| 0 <= k < dv[g1].len() && dv[g1][k] == x;
            let k2 = choose|k: int| 0 <= k < dv[g2].len() && dv[g2][k] == x;
            assert(uf_find(p, dv[g1][k1] as int) == uf_find(p, dv[g1][0] as int));
            assert(uf_find(p, dv[g2][k2] as int) == uf_find(p, dv[g2][0] as int));
        }
    }
    // two indices with one root share the group of that root
    assert forall|x: usize, y: usize|
        (x as int) < n && (y as int) < n && uf_find(p, x as int) == uf_find(
        p,
        y as int,
    ) implies same_group(dv, x, y) by {
        lemma_uf_find_root(p, x as int);
        lemma_uf_find_root(p, y as int);
        assert(in_some_group(dv, x));
        assert(in_some_group(dv, y));
        let g1 = choose|gi: int| 0 <= gi < dv.len() && #[trigger] dv[gi].contains(x);
        let g2 = choose|gi: int| 0 <= gi < dv.len() && #[trigger] dv[gi].contains(y);
        let k1 = choose|k: int| 0 <= k < dv[g1].len() && dv[g1][k] == x;
        let k2 = choose|k: int| 0 <= k < dv[g2].len() && dv[g2][k] == y;
        assert(uf_find(p, dv[g1][0] as int) == uf_find(p, x as int));
        assert(uf_find(p, dv[g2][0] as int) == uf_find(p, y as int));
        if g1 < g2 {
            assert(false);
        }
        if g2 < g1 {
            assert(false);
        }
        assert(dv[g1].contains(x) && dv[g1].contains(y));
    }
    // two indices in one group share that group's root
    assert forall|x: usize, y: usize|
        (x as int) < n && (y as int) < n && same_group(dv, x, y) implies uf_find(p, x as int)
        == uf_find(p, y as int) by {
        let gi = choose|gi: int|
            0 <= gi < dv.len() && #[trigger] dv[gi].contains(x) && dv[gi].contains(y);
        let k1 = choose|k: int| 0 <= k < dv[gi].len() && dv[gi][k] == x;
        let k2 = choose|k: int| 0 <= k < dv[gi].len() && dv[gi][k] == y;
        assert(uf_find(p, dv[gi][k1] as int) == uf_find(p, dv[gi][0] as int));
        assert(uf_find(p, dv[gi][k2] as int) == uf_find(p, dv[gi][0] as int));
    }
    // membership coincides with chain connectivity
    assert forall|x: usize, y: usize|
        (x as int) < n && (y as int) < n implies (same_group(dv, x, y) <==> connected(
        tv,
        num,
        den,
        x as int,
        y as int,
    )) by {
        if same_group(dv, x, y) {
            assert(uf_find(p, x as int) == uf_find(p, y as int));
            assert(connected(tv, num, den, x as int, y as int));
        }
        if connected(tv, num, den, x as int, y as int) {
            let c = choose|c: Seq<int>|
                #[trigger] is_sim_chain(tv, num, den, c) && c.first() == x as int && c.last()
                    == y as int;
            lemma_chain_same_root(tv, num, den, p, c);
            assert(uf_find(p, x as int) == uf_find(p, y as int));
            assert(same_group(dv, x, y));
        }
    }
}

/// Build the union-find forest joining every pair of titles that meets
/// the threshold.
#[verifier::loop_isolation(false)]
#[verifier::rlimit(100)]
fn join_similar_pairs(titles: &Vec<String>, threshold_num: u64, threshold_den: u64) -> (parent:
    Vec<usize>)
    requires
        threshold_den >= 1,
        forall|i: int|
            0 <= i < titles@.len() ==> (#[trigger] titles@[i])@.len() < usize::MAX / 2,
    ensures
        ({
            let tv = titles.deep_view();
            let num = threshold_num as int;
            let den = threshold_den as int;
            &&& parent@.len() == tv.len()
            &&& uf_wf(parent@)
            &&& roots_connected(tv, num, den, parent@)
            &&& forall|x: int, y: int|
                0 <= x < y < tv.len() && similar_at(tv[x], tv[y], num, den)
                    ==> #[trigger] uf_find(parent@, x) == #[trigger] uf_find(parent@, y)
            &&& no_similar_pair(tv, num, den) ==> parent@ == ident_forest(tv.len() as int)
        }),
{
    let n = titles.len();
    let ghost tv = titles.deep_view();
    let ghost num = threshold_num as int;
    let ghost den = threshold_den as int;

    // identity forest
    let mut parent: Vec<usize> = Vec::new();
    let mut i: usize = 0;
    while i < n
        invariant
            i <= n,
            parent@.len() == i,
            forall|k: int| 0 <= k < i ==> #[trigger] parent@[k] == k as usize,
        decreases n - i,
    {
        parent.push(i);
        i = i + 1;
    }
    proof {
        assert(parent@ =~= ident_forest(n as int));
        assert(uf_wf(parent@));
        // in the identity forest, only an index and itself share a root
        assert forall|x: int, y: int|
            0 <= x < parent@.len() && 0 <= y < parent@.len() && #[trigger] uf_find(parent@, x)
                == #[trigger] uf_find(parent@, y) implies connected(tv, num, den, x, y) by {
            lemma_ident_find(n as int, x);
            lemma_ident_find(n as int, y);
            lemma_connected_refl(tv, num, den, x);
        }
    }

    // join every similar pair
    let mut i: usize = 0;
    while i < n
        invariant
            i <= n,
            parent@.len() == n,
            uf_wf(parent@),
            joined_up_to(tv, parent@, num, den, i as int, 0),
            roots_connected(tv, num, den, parent@),
            no_similar_pair(tv, num, den) ==> parent@ == ident_forest(n as int),
        decreases n - i,
    {
        let mut j: usize = i + 1;
        while j < n
            invariant
                i < j <= n || (j == i + 1 && i < n),
                parent@.len() == n,
                uf_wf(parent@),
                joined_up_to(tv, parent@, num, den, i as int, j as int),
                roots_connected(tv, num, den, parent@),
                no_similar_pair(tv, num, den) ==> parent@ == ident_forest(n as int),
            decreases n - j,
        {
            proof {
                assert(tv[i as int] == titles@[i as int]@);
                assert(tv[j as int] == titles@[j as int]@);
            }
            let is_sim = similar(
                titles[i].as_str(),
                titles[j].as_str(),
                threshold_num,
                threshold_den,
            );
            if is_sim {
                let ghost p0 = parent@;
                uf_union(&mut parent, i, j);
                proof {
                    assert forall|x: int, y: int|
                        0 <= x < y < tv.len() && (x < i as int || (x == i as int && y < j as int
                            + 1)) && similar_at(tv[x], tv[y], num, den) implies uf_find(
                        parent@,
                        x,
                    ) == uf_find(parent@, y) by {
                        if x == i as int && y == j as int {
                        } else {
                            assert(uf_find(p0, x) == uf_find(p0, y));
                        }
                    }
                    lemma_union_keeps_connected(tv, num, den, p0, parent@, i as int, j as int);
                }
            } else {
                proof {
                    assert forall|x: int, y: int|
                        0 <= x < y < tv.len() && (x < i as int || (x == i as int && y < j as int
                            + 1)) && similar_at(tv[x], tv[y], num, den) implies uf_find(
                        parent@,
                        x,
                    ) == uf_find(parent@, y) by {
                        if x == i as int && y == j as int {
                            assert(false);
                        }
                    }
                }
            }
            j = j + 1;
        }
        i = i + 1;
    }
    proof {
        assert forall|x: int, y: int|
            0 <= x < y < (n as int) && similar_at(tv[x], tv[y], num, den) implies uf_find(
            parent@,
            x,
        ) == uf_find(parent@, y) by {
            assert(x < i as int);
        }
    }

    parent
}

/// Group titles by similarity: two indices share a group exactly when a
/// chain of threshold-meeting pairs connects their titles. The result is
/// a partition of all the input indices; members of a group are listed in
/// increasing order, and groups are ordered by their smallest member,
/// which is the component's root.
#[verifier::loop_isolation(false)]
#[verifier::rlimit(100)]
#[verifier::spinoff_prover]
pub fn group_articles(titles: &Vec<String>, threshold_num: u64, threshold_den: u64) -> (groups:
    Vec<Vec<usize>>)
    requires
        threshold_den >= 1,
        forall|i: int|
            0 <= i < titles@.len() ==> (#[trigger] titles@[i])@.len() < usize::MAX / 2,
    ensures
        ({
            let dv = groups.deep_view();
            let tv = titles.deep_view();
            let n = tv.len();
            &&& valid_grouping(tv, threshold_num as int, threshold_den as int, dv)
            &&& no_similar_pair(tv, threshold_num as int, threshold_den as int) ==> dv.len() == n
            &&& threshold_num == 0 && n >= 1 ==> dv.len() == 1
        }),
{
    let n = titles.len();
    let ghost tv = titles.deep_view();
    let ghost num = threshold_num as int;
    let ghost den = threshold_den as int;
    let parent = join_similar_pairs(titles, threshold_num, threshold_den);

    // collect the component of each root, in root order
    proof {
        assert forall|y: int| 0 <= y < n as int implies 0 <= #[trigger] uf_find(parent@, y) <= y by {
            lemma_uf_find_root(parent@, y);
        }
    }
    let mut groups: Vec<Vec<usize>> = Vec::new();
    let mut r: usize = 0;
    while r < n
        invariant
            r <= n,
            ({
                let dv = groups.deep_view();
                &&& forall|gi: int| 0 <= gi < dv.len() ==> #[trigger] dv[gi].len() >= 1
                &&& forall|gi: int, k: int|
                    0 <= gi < dv.len() && 0 <= k < dv[gi].len() ==> (#[trigger] dv[gi][k] as int)
                        < n
                &&& forall|gi: int, k: int|
                    0 <= gi < dv.len() && 0 <= k < dv[gi].len() ==> uf_find(
                        parent@,
                        #[trigger] dv[gi][k] as int,
                    ) == uf_find(parent@, dv[gi][0] as int)
                &&& forall|gi: int|
                    0 <= gi < dv.len() ==> uf_find(parent@, (#[trigger] dv[gi])[0] as int)
                        < r as int
                &&& forall|gi: int|
                    0 <= gi < dv.len() ==> ((#[trigger] dv[gi])[0] as int) == uf_find(
                        parent@,
                        dv[gi][0] as int,
                    )
                &&& forall|g1: int, g2: int|
                    0 <= g1 < g2 < dv.len() ==> uf_find(parent@, (#[trigger] dv[g1])[0] as int)
                        < uf_find(parent@, (#[trigger] dv[g2])[0] as int)
                &&& forall|gi: int, k1: int, k2: int|
                    0 <= gi < dv.len() && 0 <= k1 < k2 < dv[gi].len() ==> (#[trigger] dv[gi][k1])
                        < (#[trigger] dv[gi][k2])
                &&& forall|y: int|
                    0 <= y < n && uf_find(parent@, y) < r as int ==> in_some_group(
                        dv,
                        y as usize,
                    )
                &&& (parent@ == ident_forest(n as int) ==> dv.len() == r as int)
                &&& ((n as int >= 1 && forall|x: int, y: int|
                    0 <= x < n && 0 <= y < n ==> uf_find(parent@, x) == uf_find(parent@, y))
                    ==> dv.len() == (if uf_find(parent@, 0) < r as int {
                    1int
                } else {
                    0int
                }))
            }),
        decreases n - r,
    {
        let mut cur: Vec<usize> = Vec::new();
        let mut x: usize = 0;
        while x < n
            invariant
                x <= n,
                forall|k: int|
                    0 <= k < cur@.len() ==> (#[trigger] cur@[k] as int) < x as int && uf_find(
                        parent@,
                        cur@[k] as int,
                    ) == r as int,
                forall|y: int|
                    0 <= y < x && uf_find(parent@, y) == r as int ==> cur@.contains(y as usize),
                forall|k1: int, k2: int|
                    0 <= k1 < k2 < cur@.len() ==> (#[trigger] cur@[k1]) < (#[trigger] cur@[k2]),
            decreases n - x,
        {
            let root = find_root(&parent, x);
            if root == r {
                let ghost cur0 = cur@;
                cur.push(x);
                proof {
                    assert forall|y: int|
                        0 <= y < x as int + 1 && uf_find(parent@, y) == r as int implies
                        cur@.contains(y as usize) by {
                        if y < x as int {
                            assert(cur0.contains(y as usize));
                            let k = choose|k: int| 0 <= k < cur0.len() && cur0[k] == y as usize;
                            assert(cur@[k] == y as usize);
                        } else {
                            assert(cur@[cur@.len() - 1] == x);
                        }
                    }
                }
            }
            x = x + 1;
        }
        let ghost dv0 = groups.deep_view();
        let ghost curv = cur@;
        if cur.len() > 0 {
            groups.push(cur);
            proof {
                let dv = groups.deep_view();
                assert(dv =~~= dv0.push(curv));
                assert(dv[dv.len() - 1] == curv);
                assert(uf_find(parent@, curv[0] as int) == r as int);
                if n as int >= 1 && forall|x0: int, y0: int|
                    0 <= x0 < n && 0 <= y0 < n ==> uf_find(parent@, x0) == uf_find(parent@, y0) {
                    assert(uf_find(parent@, 0) == uf_find(parent@, curv[0] as int));
                    assert(dv0.len() == 0);
                    assert(dv.len() == 1);
                }
                assert forall|y: int|
                    0 <= y < n && uf_find(parent@, y) < r as int + 1 implies in_some_group(
                    dv,
                    y as usize,
                ) by {
                    if uf_find(parent@, y) < r as int {
                        assert(in_some_group(dv0, y as usize));
                        let gi = choose|gi: int|
                            0 <= gi < dv0.len() && #[trigger] dv0[gi].contains(y as usize);
                        assert(dv[gi] == dv0[gi]);
                        assert(dv[gi].contains(y as usize));
                    } else {
                        assert(uf_find(parent@, y) == r as int);
                        assert(curv.contains(y as usize));
                        assert(dv[dv.len() - 1].contains(y as usize));
                    }
                }
                if parent@ == ident_forest(n as int) {
                    assert forall|k: int| 0 <= k < curv.len() implies curv[k] == r by {
                        lemma_ident_find(n as int, curv[k] as int);
                    }
                    assert(curv.len() <= 1) by {
                        if curv.len() >= 2 {
                            assert(curv[0] < curv[1]);
                        }
                    }
                }
                // the root itself is the group's first member
                assert(curv[0] == r) by {
                    let x0 = curv[0];
                    assert(uf_find(parent@, x0 as int) == r as int);
                    assert(r as int <= x0 as int);
                    lemma_uf_find_root(parent@, x0 as int);
                    assert(parent@[r as int] == r as usize);
                    assert(uf_find(parent@, r as int) == r as int);
                    assert(curv.contains(r as usize));
                    let kr = choose|k: int| 0 <= k < curv.len() && curv[k] == r as usize;
                    if kr > 0 {
                        assert(curv[0] < curv[kr]);
                    }
                }
            }
        } else {
            proof {
                let dv = groups.deep_view();
                assert forall|y: int|
                    0 <= y < n && uf_find(parent@, y) < r as int + 1 implies in_some_group(
                    dv,
                    y as usize,
                ) by {
                    if uf_find(parent@, y) < r as int {
                    } else {
                        assert(uf_find(parent@, y) == r as int);
                        assert(curv.contains(y as usize));
                        assert(false);
                    }
                }
                if parent@ == ident_forest(n as int) {
                    lemma_ident_find(n as int, r as int);
                    assert(uf_find(parent@, r as int) == r as int);
                    assert(curv.contains(r as usize));
                    assert(false);
                }
                if n as int >= 1 && forall|x0: int, y0: int|
                    0 <= x0 < n && 0 <= y0 < n ==> uf_find(parent@, x0) == uf_find(parent@, y0) {
                    if uf_find(parent@, 0) == r as int {
                        assert(curv.contains(0usize));
                        assert(false);
                    }
                }
            }
        }
        r = r + 1;
    }
    proof {
        let dv = groups.deep_view();
        lemma_assemble_grouping(tv, num, den, parent@, dv);
        // no similar pair at all: the forest stayed the identity
        if no_similar_pair(tv, num, den) {
            assert(parent@ == ident_forest(n as int));
            assert(dv.len() == n as int);
        }
        // zero threshold: everything is one group
        if threshold_num == 0 && n >= 1 {
            assert forall|x: int, y: int|
                0 <= x < n as int && 0 <= y < n as int implies uf_find(parent@, x) == uf_find(
                parent@,
                y,
            ) by {
                if x < y {
                    lemma_zero_threshold(tv[x], tv[y], den);
                } else if y < x {
                    lemma_zero_threshold(tv[y], tv[x], den);
                }
            }
            lemma_uf_find_root(parent@, 0);
            assert(dv.len() == 1);
        }
    }
    groups
}

/// Law: similarity is symmetric: the counts, and hence the threshold test,
/// do not depend on the order of the two titles.
pub proof fn lemma_similarity_symmetric(a: Seq<char>, b: Seq<char>, num: int, den: int)
    ensures
        inter_count(a, b) == inter_count(b, a),
        union_count(a, b) == union_count(b, a),
        similar_at(a, b, num, den) == similar_at(b, a, num, den),
{
    assert(gram_set(a).intersect(gram_set(b)) =~= gram_set(b).intersect(gram_set(a)));
    assert(gram_set(a).union(gram_set(b)) =~= gram_set(b).union(gram_set(a)));
}

} // verus!
