//! The waiting pool: ordering it by skill and taking a group out of it.

use crate::player::Player;
use vstd::prelude::*;

verus! {

/// Players ordered by non-decreasing skill rating.
pub open spec fn sorted_by_skill(s: Seq<Player>) -> bool {
    forall|a: int, b: int| 0 <= a < b < s.len() ==> #[trigger] s[a].skill_rating <= #[trigger] s[b].skill_rating
}

/// The predicate "has skill rating `v`".
pub open spec fn has_skill(v: u32) -> spec_fn(Player) -> bool {
    |p: Player| p.skill_rating == v
}

/// The players of `s` with skill rating `v`, in their order in `s`.
pub open spec fn with_skill(s: Seq<Player>, v: u32) -> Seq<Player> {
    s.filter(has_skill(v))
}

/// `sorted` is `original` stably sorted by skill: ordered by skill, the same
/// players, and players of equal skill in the same relative order.
pub open spec fn is_stable_skill_sort(sorted: Seq<Player>, original: Seq<Player>) -> bool {
    &&& sorted_by_skill(sorted)
    &&& sorted.to_multiset() == original.to_multiset()
    &&& forall|v: u32| #[trigger] with_skill(sorted, v) == with_skill(original, v)
}

/// Inserting `x` after every player of no greater skill and before every
/// player of greater skill appends it to the players of its own skill.
proof fn lemma_insert_after_equals(s: Seq<Player>, pos: int, x: Player, v: u32)
    requires
        0 <= pos <= s.len(),
        forall|q: int| 0 <= q < pos ==> #[trigger] s[q].skill_rating <= x.skill_rating,
        forall|q: int| pos <= q < s.len() ==> #[trigger] s[q].skill_rating > x.skill_rating,
    ensures
        with_skill(s.insert(pos, x), v) == if x.skill_rating == v {
            with_skill(s, v).push(x)
        } else {
            with_skill(s, v)
        },
{
    broadcast use Seq::filter_distributes_over_add, Seq::lemma_filter_push;

    let front = s.take(pos);
    let back = s.skip(pos);
    assert(s =~= front + back);
    assert(s.insert(pos, x) =~= front.push(x) + back);
    if x.skill_rating == v {
        assert(back.all(|p: Player| !has_skill(v)(p)));
        back.lemma_all_neg_filter_empty(has_skill(v));
        assert(back.filter(has_skill(v)) =~= Seq::<Player>::empty());
        assert(with_skill(s, v) =~= front.filter(has_skill(v)));
        assert(with_skill(s.insert(pos, x), v) =~= front.filter(has_skill(v)).push(x));
    } else {
        assert(with_skill(s.insert(pos, x), v) =~= front.filter(has_skill(v)) + back.filter(
            has_skill(v),
        ));
    }
}

/// Sort the pool by skill rating, keeping players of equal skill in their
/// original order (a stable insertion sort).
pub fn sort_by_skill(pool: &mut Vec<Player>)
    ensures
        is_stable_skill_sort(final(pool)@, old(pool)@),
        final(pool)@.len() == old(pool)@.len(),
{
    let n = pool.len();
    let mut sorted: Vec<Player> = Vec::new();
    let mut i: usize = 0;
    assert(pool@.take(0) =~= Seq::<Player>::empty());
    proof {
        assert forall|v: u32| #[trigger] with_skill(sorted@, v) == with_skill(pool@.take(0), v) by {
            reveal(Seq::filter);
        }
    }
    while i < n
        invariant
            n == pool@.len(),
            i <= n,
            sorted_by_skill(sorted@),
            sorted@.len() == i,
            sorted@.to_multiset() == pool@.take(i as int).to_multiset(),
            forall|v: u32| #[trigger] with_skill(sorted@, v) == with_skill(pool@.take(i as int), v),
        decreases n - i,
    {
        let x = pool[i];
        let mut pos: usize = 0;
        while pos < sorted.len() && sorted[pos].skill_rating <= x.skill_rating
            invariant
                pos <= sorted@.len(),
                forall|q: int| 0 <= q < pos ==> #[trigger] sorted@[q].skill_rating <= x.skill_rating,
            decreases sorted@.len() - pos,
        {
            pos = pos + 1;
        }
        let ghost before = sorted@;
        assert(forall|q: int|
            pos <= q < before.len() ==> #[trigger] before[q].skill_rating > x.skill_rating) by {
            if pos < before.len() {
                assert(before[pos as int].skill_rating > x.skill_rating);
            }
        }
        sorted.insert(pos, x);
        assert(sorted@ == before.insert(pos as int, x));
        assert(pool@.take(i + 1) =~= pool@.take(i as int).push(x));
        proof {
            vstd::seq_lib::to_multiset_insert(before, pos as int, x);
            vstd::seq_lib::to_multiset_build(pool@.take(i as int), x);
        }
        assert forall|v: u32| #[trigger] with_skill(sorted@, v) == with_skill(
            pool@.take(i + 1),
            v,
        ) by {
            lemma_insert_after_equals(before, pos as int, x, v);
            pool@.take(i as int).lemma_filter_push(x, has_skill(v));
        }
        i = i + 1;
    }
    assert(pool@.take(n as int) =~= pool@);
    *pool = sorted;
}

/// Remove the ten players at positions `start .. start + 10` from the pool,
/// keeping the others in order, and return them in order.
pub fn take_window(pool: &mut Vec<Player>, start: usize) -> (group: Vec<Player>)
    requires
        start + 10 <= old(pool)@.len(),
    ensures
        group@ == old(pool)@.subrange(start as int, start + 10),
        final(pool)@ == old(pool)@.take(start as int) + old(pool)@.skip(start + 10),
        final(pool)@.to_multiset().add(group@.to_multiset()) == old(pool)@.to_multiset(),
{
    let n = pool.len();
    let mut group: Vec<Player> = Vec::new();
    let mut remaining: Vec<Player> = Vec::new();
    let mut i: usize = 0;
    while i < n
        invariant
            n == pool@.len(),
            start + 10 <= n,
            i <= n,
            group@ == pool@.subrange(
                if i < start { i as int } else { start as int },
                if i < start { i as int } else if i < start + 10 { i as int } else { start + 10 },
            ),
            remaining@ == if i <= start {
                pool@.take(i as int)
            } else if i <= start + 10 {
                pool@.take(start as int)
            } else {
                pool@.take(start as int) + pool@.subrange(start + 10, i as int)
            },
        decreases n - i,
    {
        if start <= i && i < start + 10 {
            group.push(pool[i]);
        } else {
            remaining.push(pool[i]);
        }
        i = i + 1;
        assert(group@ =~= pool@.subrange(
            if i < start { i as int } else { start as int },
            if i < start { i as int } else if i < start + 10 { i as int } else { start + 10 },
        ));
        assert(remaining@ =~= if i <= start {
            pool@.take(i as int)
        } else if i <= start + 10 {
            pool@.take(start as int)
        } else {
            pool@.take(start as int) + pool@.subrange(start + 10, i as int)
        });
    }
    proof {
        let s = pool@;
        assert(s.subrange(start + 10, n as int) =~= s.skip(start + 10));
        assert(s =~= s.take(start as int) + s.subrange(start as int, start + 10) + s.skip(
            start + 10,
        ));
        vstd::seq_lib::lemma_multiset_commutative(
            s.take(start as int) + s.subrange(start as int, start + 10),
            s.skip(start + 10),
        );
        vstd::seq_lib::lemma_multiset_commutative(
            s.take(start as int),
            s.subrange(start as int, start + 10),
        );
        vstd::seq_lib::lemma_multiset_commutative(s.take(start as int), s.skip(start + 10));
        assert(s.to_multiset() =~= remaining@.to_multiset().add(group@.to_multiset()));
    }
    *pool = remaining;
    group
}

} // verus!
