//! Putting things in order.

use vstd::prelude::*;

verus! {

/// Whether `a` comes before `b` in the order of their characters.
pub open spec fn text_before(a: Seq<char>, b: Seq<char>) -> bool
    decreases a.len(),
{
    if b.len() == 0 {
        false
    } else if a.len() == 0 {
        true
    } else if a[0] != b[0] {
        a[0] < b[0]
    } else {
        text_before(a.skip(1), b.skip(1))
    }
}

/// Of two texts that differ exactly one comes before the other, and none comes
/// before itself.
pub proof fn lemma_text_before_total(a: Seq<char>, b: Seq<char>)
    ensures
        a == b ==> !text_before(a, b) && !text_before(b, a),
        a != b ==> text_before(a, b) != text_before(b, a),
    decreases a.len(),
{
    if a.len() > 0 && b.len() > 0 && a[0] == b[0] {
        lemma_text_before_total(a.skip(1), b.skip(1));
        if a.skip(1) == b.skip(1) {
            assert(a == seq![a[0]] + a.skip(1));
            assert(b == seq![b[0]] + b.skip(1));
        }
    } else if a.len() == 0 && b.len() == 0 {
        assert(a == b);
    }
}

/// What comes before something that comes before a third comes before the third.
pub proof fn lemma_text_before_chains(a: Seq<char>, b: Seq<char>, c: Seq<char>)
    requires
        text_before(a, b),
        text_before(b, c),
    ensures
        text_before(a, c),
    decreases a.len(),
{
    if a.len() > 0 && b.len() > 0 && c.len() > 0 && a[0] == b[0] && b[0] == c[0] {
        lemma_text_before_chains(a.skip(1), b.skip(1), c.skip(1));
    }
}

/// Whether `a` comes before `b` in the order of their characters.
pub fn comes_before(a: &[char], b: &[char]) -> (r: bool)
    ensures
        r == text_before(a@, b@),
{
    let mut i: usize = 0;
    assert(a@.skip(0) == a@ && b@.skip(0) == b@);
    loop
        invariant
            i <= a@.len(),
            i <= b@.len(),
            text_before(a@, b@) == text_before(a@.skip(i as int), b@.skip(i as int)),
        decreases a@.len() - i,
    {
        if i == b.len() {
            return false;
        }
        if i == a.len() {
            return true;
        }
        if a[i] != b[i] {
            return a[i] < b[i];
        }
        assert(a@.skip(i as int).skip(1) == a@.skip(i as int + 1));
        assert(b@.skip(i as int).skip(1) == b@.skip(i as int + 1));
        i += 1;
    }
}

/// Something that can be put in order.
pub trait Ranked: View + Sized {
    /// Whether what `a` stands for belongs strictly before what `b` stands for.
    spec fn before(a: Self::V, b: Self::V) -> bool;

    fn goes_before(&self, other: &Self) -> (r: bool)
        ensures
            r == Self::before(self@, other@),
    ;
}

/// What the things in a list stand for.
pub open spec fn views<T: View>(list: Seq<T>) -> Seq<T::V> {
    list.map_values(|item: T| item@)
}

/// `list` with `item` put in as late as the order allows.
pub open spec fn placed<T: Ranked>(list: Seq<T::V>, item: T::V) -> Seq<T::V>
    decreases list.len(),
{
    if list.len() > 0 && T::before(item, list.last()) {
        placed::<T>(list.drop_last(), item).push(list.last())
    } else {
        list.push(item)
    }
}

/// `list` in order, where things that belong in the same place stay in the order
/// in which they stand in `list`.
pub open spec fn arranged<T: Ranked>(list: Seq<T::V>) -> Seq<T::V>
    decreases list.len(),
{
    if list.len() == 0 {
        list
    } else {
        placed::<T>(arranged::<T>(list.drop_last()), list.last())
    }
}

/// Puts one more thing into a list that is in order.
pub fn place<T: Ranked>(list: &mut Vec<T>, item: T)
    ensures
        views(final(list)@) == placed::<T>(views(old(list)@), item@),
{
    let ghost all = views(list@);
    let mut n: usize = list.len();
    assert(all.take(n as int) == all);
    assert(all.skip(n as int) == Seq::<T::V>::empty());
    while n > 0 && item.goes_before(&list[n - 1])
        invariant
            n <= list@.len(),
            all == views(list@),
            placed::<T>(all, item@) == placed::<T>(all.take(n as int), item@) + all.skip(n as int),
        decreases n,
    {
        assert(all.take(n as int).drop_last() == all.take(n - 1));
        assert(all.take(n as int).last() == all[n - 1]);
        assert(placed::<T>(all.take(n - 1), item@).push(all[n - 1]) + all.skip(n as int)
            == placed::<T>(all.take(n - 1), item@) + all.skip(n - 1));
        n -= 1;
    }
    proof {
        if n > 0 {
            assert(all.take(n as int).last() == all[n - 1]);
        }
        assert(placed::<T>(all.take(n as int), item@) == all.take(n as int).push(item@));
        assert(all.take(n as int).push(item@) + all.skip(n as int) == all.insert(n as int, item@));
    }
    let ghost before = list@;
    list.insert(n, item);
    assert(views(before.insert(n as int, item)) == views(before).insert(n as int, item@));
}

/// Puts a list in order.
pub fn arrange<T: Ranked>(list: Vec<T>) -> (r: Vec<T>)
    ensures
        views(r@) == arranged::<T>(views(list@)),
{
    let mut rest = list;
    let mut out: Vec<T> = Vec::new();
    let ghost all = views(list@);
    let ghost mut done: int = 0;
    assert(all.skip(0) == all);
    assert(views(out@) == arranged::<T>(all.take(0)));
    while rest.len() > 0
        invariant
            0 <= done <= all.len(),
            views(rest@) == all.skip(done),
            views(out@) == arranged::<T>(all.take(done)),
        decreases rest@.len(),
    {
        assert(views(rest@).len() == rest@.len());
        assert(all.skip(done)[0] == all[done]);
        let ghost before = rest@;
        let item = rest.remove(0);
        assert(views(rest@) == views(before).skip(1));
        assert(all.skip(done).skip(1) == all.skip(done + 1));
        assert(all.take(done + 1).drop_last() == all.take(done));
        place(&mut out, item);
        proof {
            done = done + 1;
        }
    }
    assert(all.skip(done).len() == 0);
    assert(all.take(done) == all);
    out
}

/// Whether an order is one by rank: nothing belongs before itself or before what
/// belongs before it, and what two things do not belong before in turn, the first
/// does not belong before.
pub open spec fn by_rank<T: Ranked>() -> bool {
    &&& forall|a: T::V, b: T::V| #[trigger] T::before(a, b) ==> !T::before(b, a)
    &&& forall|a: T::V, b: T::V, c: T::V|
        !#[trigger] T::before(a, b) && !#[trigger] T::before(b, c) ==> !T::before(a, c)
}

/// Whether nothing in a list belongs before what stands in front of it.
pub open spec fn in_order<T: Ranked>(list: Seq<T::V>) -> bool {
    forall|i: int, j: int|
        0 <= i < j < list.len() ==> !T::before(#[trigger] list[j], #[trigger] list[i])
}

/// Whether two things belong in the same place.
pub open spec fn level<T: Ranked>(a: T::V, b: T::V) -> bool {
    !T::before(a, b) && !T::before(b, a)
}

proof fn lemma_placed_in_order<T: Ranked>(list: Seq<T::V>, item: T::V)
    requires
        by_rank::<T>(),
        in_order::<T>(list),
    ensures
        in_order::<T>(placed::<T>(list, item)),
        placed::<T>(list, item).to_multiset() == list.to_multiset().insert(item),
        forall|i: int|
            0 <= i < placed::<T>(list, item).len() ==> {
                let held = #[trigger] placed::<T>(list, item)[i];
                held == item || list.contains(held)
            },
    decreases list.len(),
{
    broadcast use vstd::seq_lib::group_to_multiset_ensures;

    let after = placed::<T>(list, item);
    if list.len() > 0 && T::before(item, list.last()) {
        let front = list.drop_last();
        let last = list.last();
        assert forall|i: int, j: int| 0 <= i < j < front.len() implies !T::before(
            #[trigger] front[j],
            #[trigger] front[i],
        ) by {
            assert(front[i] == list[i] && front[j] == list[j]);
        }
        lemma_placed_in_order::<T>(front, item);
        let rest = placed::<T>(front, item);
        assert forall|i: int| 0 <= i < rest.len() implies !T::before(last, #[trigger] rest[i]) by {
            if rest[i] != item {
                let k = choose|k: int| 0 <= k < front.len() && front[k] == rest[i];
                assert(list[k] == rest[i]);
                assert(list[list.len() - 1] == last);
            }
        }
        assert forall|i: int| 0 <= i < after.len() implies {
            let held = #[trigger] after[i];
            held == item || list.contains(held)
        } by {
            if i < rest.len() {
                assert(after[i] == rest[i]);
                if rest[i] != item {
                    let k = choose|k: int| 0 <= k < front.len() && front[k] == rest[i];
                    assert(list[k] == rest[i]);
                }
            } else {
                assert(list[list.len() - 1] == last);
            }
        }
        assert(front.push(last) == list);
        assert(after.to_multiset() == front.to_multiset().insert(item).insert(last));
        assert(list.to_multiset() == front.to_multiset().insert(last));
        assert(front.to_multiset().insert(item).insert(last) == front.to_multiset().insert(
            last,
        ).insert(item));
    } else {
        assert forall|i: int| 0 <= i < list.len() implies !T::before(item, #[trigger] list[i]) by {
            let last = list.last();
            assert(list[list.len() - 1] == last);
            if i < list.len() - 1 {
                assert(!T::before(last, list[i]));
                assert(!T::before(item, last));
            }
        }
        assert forall|i: int| 0 <= i < after.len() implies {
            let held = #[trigger] after[i];
            held == item || list.contains(held)
        } by {
            if i < list.len() {
                assert(after[i] == list[i]);
            }
        }
    }
}

/// Putting a list in order leaves nothing that belongs before what stands in front
/// of it, and neither adds nor drops anything.
pub proof fn lemma_arranged_in_order<T: Ranked>(list: Seq<T::V>)
    requires
        by_rank::<T>(),
    ensures
        in_order::<T>(arranged::<T>(list)),
        arranged::<T>(list).to_multiset() == list.to_multiset(),
    decreases list.len(),
{
    broadcast use vstd::seq_lib::group_to_multiset_ensures;

    if list.len() > 0 {
        let front = list.drop_last();
        lemma_arranged_in_order::<T>(front);
        lemma_placed_in_order::<T>(arranged::<T>(front), list.last());
        assert(front.push(list.last()) == list);
    }
}

proof fn lemma_placed_stable<T: Ranked>(list: Seq<T::V>, item: T::V, like: T::V)
    requires
        by_rank::<T>(),
    ensures
        placed::<T>(list, item).filter(|held: T::V| level::<T>(held, like)) == list.push(
            item,
        ).filter(|held: T::V| level::<T>(held, like)),
    decreases list.len(),
{
    reveal(Seq::filter);
    let peer = |held: T::V| level::<T>(held, like);
    assert(list.push(item).drop_last() == list);
    if list.len() > 0 && T::before(item, list.last()) {
        let front = list.drop_last();
        lemma_placed_stable::<T>(front, item, like);
        let rest = placed::<T>(front, item);
        assert(rest.push(list.last()).drop_last() == rest);
        assert(front.push(item).drop_last() == front);
        let last = list.last();
        if peer(item) && peer(last) {
            assert(!T::before(item, like) && !T::before(like, last));
        }
        assert(rest.filter(peer) == front.push(item).filter(peer));
        assert(rest.push(last).filter(peer) == if peer(last) {
            rest.filter(peer).push(last)
        } else {
            rest.filter(peer)
        });
        assert(list.filter(peer) == if peer(last) {
            front.filter(peer).push(last)
        } else {
            front.filter(peer)
        });
    }
}

/// Putting a list in order keeps things that belong in the same place in the order
/// in which they stood.
pub proof fn lemma_arranged_stable<T: Ranked>(list: Seq<T::V>, like: T::V)
    requires
        by_rank::<T>(),
    ensures
        arranged::<T>(list).filter(|held: T::V| level::<T>(held, like)) == list.filter(
            |held: T::V| level::<T>(held, like),
        ),
    decreases list.len(),
{
    reveal(Seq::filter);
    if list.len() > 0 {
        let front = list.drop_last();
        let sorted = arranged::<T>(front);
        lemma_arranged_stable::<T>(front, like);
        lemma_placed_stable::<T>(sorted, list.last(), like);
        assert(sorted.push(list.last()).drop_last() == sorted);
    }
}

} // verus!
