//! The cards held by a list of collections, counted together.
use crate::card::Card;
use crate::registry::DeckRef;
use vstd::multiset::Multiset;
use vstd::prelude::*;
use vstd::seq_lib::lemma_multiset_commutative;

verus! {

/// All cards of the collections `hs` in the registry view `m`, as a multiset.
pub open spec fn pooled(m: Map<DeckRef, Seq<Card>>, hs: Seq<DeckRef>) -> Multiset<Card>
    decreases hs.len(),
{
    if hs.len() == 0 {
        Multiset::empty()
    } else {
        pooled(m, hs.drop_last()).add(m[hs.last()].to_multiset())
    }
}

/// Number of cards held by the collections `hs` together.
pub open spec fn card_count(m: Map<DeckRef, Seq<Card>>, hs: Seq<DeckRef>) -> nat
    decreases hs.len(),
{
    if hs.len() == 0 {
        0
    } else {
        card_count(m, hs.drop_last()) + m[hs.last()].len()
    }
}

pub proof fn lemma_count_is_pooled_len(m: Map<DeckRef, Seq<Card>>, hs: Seq<DeckRef>)
    ensures
        card_count(m, hs) == pooled(m, hs).len(),
    decreases hs.len(),
{
    broadcast use vstd::multiset::group_multiset_axioms, vstd::seq_lib::group_to_multiset_ensures;

    if hs.len() > 0 {
        lemma_count_is_pooled_len(m, hs.drop_last());
    }
}

/// Only the collections listed count.
pub proof fn lemma_pooled_frame(m1: Map<DeckRef, Seq<Card>>, m2: Map<DeckRef, Seq<Card>>, hs: Seq<DeckRef>)
    requires
        forall|i: int| 0 <= i < hs.len() ==> m1[#[trigger] hs[i]] == m2[hs[i]],
    ensures
        pooled(m1, hs) == pooled(m2, hs),
    decreases hs.len(),
{
    if hs.len() > 0 {
        let rest = hs.drop_last();
        assert forall|i: int| 0 <= i < rest.len() implies m1[#[trigger] rest[i]] == m2[rest[i]] by {
            assert(rest[i] == hs[i]);
        }
        lemma_pooled_frame(m1, m2, rest);
    }
}

pub proof fn lemma_pooled_concat(m: Map<DeckRef, Seq<Card>>, a: Seq<DeckRef>, b: Seq<DeckRef>)
    ensures
        pooled(m, a + b) == pooled(m, a).add(pooled(m, b)),
    decreases b.len(),
{
    broadcast use vstd::multiset::group_multiset_axioms;

    if b.len() == 0 {
        assert(a + b =~= a);
        assert(pooled(m, a).add(Multiset::empty()) =~= pooled(m, a));
    } else {
        assert((a + b).drop_last() =~= a + b.drop_last());
        lemma_pooled_concat(m, a, b.drop_last());
        assert(pooled(m, a + b) =~= pooled(m, a).add(pooled(m, b)));
    }
}

/// Collections that are all empty hold nothing together.
pub proof fn lemma_pooled_all_empty(m: Map<DeckRef, Seq<Card>>, hs: Seq<DeckRef>)
    requires
        forall|i: int| 0 <= i < hs.len() ==> m[#[trigger] hs[i]].len() == 0,
    ensures
        pooled(m, hs) == Multiset::<Card>::empty(),
    decreases hs.len(),
{
    broadcast use vstd::multiset::group_multiset_axioms, vstd::seq_lib::group_to_multiset_ensures;

    if hs.len() > 0 {
        let rest = hs.drop_last();
        assert forall|i: int| 0 <= i < rest.len() implies m[#[trigger] rest[i]].len() == 0 by {
            assert(rest[i] == hs[i]);
        }
        lemma_pooled_all_empty(m, rest);
        assert(m[hs.last()] =~= Seq::<Card>::empty());
        assert(pooled(m, hs) =~= Multiset::<Card>::empty());
    }
}

/// Replacing the cards of one listed collection changes the pool by exactly
/// what was taken out and what was put in.
pub proof fn lemma_pooled_replace(m: Map<DeckRef, Seq<Card>>, hs: Seq<DeckRef>, h: DeckRef, s: Seq<Card>)
    requires
        hs.no_duplicates(),
        hs.contains(h),
    ensures
        pooled(m.insert(h, s), hs).add(m[h].to_multiset()) == pooled(m, hs).add(s.to_multiset()),
    decreases hs.len(),
{
    broadcast use vstd::multiset::group_multiset_axioms;

    let m2 = m.insert(h, s);
    let rest = hs.drop_last();
    let last = hs.last();
    if last == h {
        assert(!rest.contains(h));
        assert forall|i: int| 0 <= i < rest.len() implies m2[#[trigger] rest[i]] == m[rest[i]] by {
            assert(rest[i] == hs[i]);
        }
        lemma_pooled_frame(m2, m, rest);
    } else {
        let k = choose|k: int| 0 <= k < hs.len() && hs[k] == h;
        assert(k < hs.len() - 1);
        assert(rest[k] == h);
        assert(rest.no_duplicates());
        lemma_pooled_replace(m, rest, h, s);
    }
    assert forall|c: Card| #[trigger] pooled(m2, hs).add(m[h].to_multiset()).count(c) == pooled(m, hs).add(
        s.to_multiset(),
    ).count(c) by {
        if last != h {
            assert(pooled(m2, rest).add(m[h].to_multiset()).count(c) == pooled(m, rest).add(
                s.to_multiset(),
            ).count(c));
        }
    }
    assert(pooled(m2, hs).add(m[h].to_multiset()) =~= pooled(m, hs).add(s.to_multiset()));
}

/// Moving the first `k` cards of `from` to the back of `to`, both listed,
/// keeps the pool.
pub proof fn lemma_pooled_move(m: Map<DeckRef, Seq<Card>>, hs: Seq<DeckRef>, from: DeckRef, to: DeckRef, k: int)
    requires
        hs.no_duplicates(),
        hs.contains(from),
        hs.contains(to),
        from != to,
        0 <= k <= m[from].len(),
    ensures
        pooled(m.insert(from, m[from].skip(k)).insert(to, m[to] + m[from].take(k)), hs) == pooled(m, hs),
{
    broadcast use vstd::multiset::group_multiset_axioms;

    let x = m[from];
    let m1 = m.insert(from, x.skip(k));
    let m2 = m1.insert(to, m[to] + x.take(k));
    lemma_pooled_replace(m, hs, from, x.skip(k));
    lemma_pooled_replace(m1, hs, to, m[to] + x.take(k));
    assert(x =~= x.take(k) + x.skip(k));
    lemma_multiset_commutative(x.take(k), x.skip(k));
    lemma_multiset_commutative(m[to], x.take(k));
    assert(m1[to] == m[to]);
    assert forall|c: Card| #[trigger] pooled(m2, hs).count(c) == pooled(m, hs).count(c) by {
        assert(pooled(m1, hs).add(x.to_multiset()).count(c) == pooled(m, hs).add(x.skip(k).to_multiset()).count(c));
        assert(pooled(m2, hs).add(m[to].to_multiset()).count(c) == pooled(m1, hs).add(
            (m[to] + x.take(k)).to_multiset(),
        ).count(c));
    }
    assert(pooled(m2, hs) =~= pooled(m, hs));
}

/// Moving the first `k` cards of a listed collection into a new collection
/// appended to the list keeps the pool.
pub proof fn lemma_pooled_split_off(m: Map<DeckRef, Seq<Card>>, hs: Seq<DeckRef>, from: DeckRef, new: DeckRef, k: int)
    requires
        hs.no_duplicates(),
        hs.contains(from),
        !hs.contains(new),
        0 <= k <= m[from].len(),
    ensures
        pooled(m.insert(from, m[from].skip(k)).insert(new, m[from].take(k)), hs.push(new)) == pooled(m, hs),
{
    broadcast use vstd::multiset::group_multiset_axioms;

    let x = m[from];
    let m1 = m.insert(from, x.skip(k));
    let m2 = m1.insert(new, x.take(k));
    lemma_pooled_replace(m, hs, from, x.skip(k));
    assert forall|i: int| 0 <= i < hs.len() implies m2[#[trigger] hs[i]] == m1[hs[i]] by {
        assert(hs[i] != new);
    }
    lemma_pooled_frame(m2, m1, hs);
    assert(hs.push(new).drop_last() =~= hs);
    assert(x =~= x.take(k) + x.skip(k));
    lemma_multiset_commutative(x.take(k), x.skip(k));
    assert(m2[new] == x.take(k));
    assert forall|c: Card| #[trigger] pooled(m2, hs.push(new)).count(c) == pooled(m, hs).count(c) by {
        assert(pooled(m1, hs).add(x.to_multiset()).count(c) == pooled(m, hs).add(x.skip(k).to_multiset()).count(c));
        assert(pooled(m2, hs.push(new)).count(c) == pooled(m2, hs).add(x.take(k).to_multiset()).count(c));
    }
    assert(pooled(m2, hs.push(new)) =~= pooled(m, hs));
}

} // verus!
