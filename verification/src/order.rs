//! Stable sorting, stated as insertion into a list that is already in order.
use vstd::prelude::*;

use crate::text::chars_of;

verus! {

/// Whether `a` stands before `b` in the order of their characters.
pub open spec fn text_before(a: Seq<char>, b: Seq<char>) -> bool
    decreases a.len(),
{
    if b.len() == 0 {
        false
    } else if a.len() == 0 {
        true
    } else if a[0] != b[0] {
        a[0] < b[0]
    } else {
        text_before(a.drop_first(), b.drop_first())
    }
}

/// Tells whether `a` stands before `b` in the order of their characters.
pub fn is_text_before(a: &str, b: &str) -> (r: bool)
    ensures
        r == text_before(a@, b@),
{
    let x = chars_of(a);
    let y = chars_of(b);
    let n: usize = x.len();
    let m: usize = y.len();
    let mut i: usize = 0;
    assert(a@.skip(0) == a@ && b@.skip(0) == b@);
    while i < n && i < m
        invariant
            n == x@.len(),
            m == y@.len(),
            x@ == a@,
            y@ == b@,
            i <= n,
            i <= m,
            text_before(a@, b@) == text_before(a@.skip(i as int), b@.skip(i as int)),
        decreases n - i,
    {
        if x[i] != y[i] {
            return x[i] < y[i];
        }
        assert(a@.skip(i as int).drop_first() == a@.skip(i + 1));
        assert(b@.skip(i as int).drop_first() == b@.skip(i + 1));
        i = i + 1;
    }
    i < m
}

pub proof fn lemma_text_before_asymmetric(a: Seq<char>, b: Seq<char>)
    ensures
        !(text_before(a, b) && text_before(b, a)),
    decreases a.len(),
{
    if a.len() > 0 && b.len() > 0 && a[0] == b[0] {
        lemma_text_before_asymmetric(a.drop_first(), b.drop_first());
    }
}

pub proof fn lemma_text_before_total(a: Seq<char>, b: Seq<char>)
    ensures
        text_before(a, b) || text_before(b, a) || a == b,
    decreases a.len(),
{
    if a.len() > 0 && b.len() > 0 && a[0] == b[0] {
        lemma_text_before_total(a.drop_first(), b.drop_first());
        if a.drop_first() == b.drop_first() {
            assert(a == seq![a[0]] + a.drop_first());
            assert(b == seq![b[0]] + b.drop_first());
        }
    } else if a.len() == 0 && b.len() == 0 {
        assert(a == b);
    }
}

pub proof fn lemma_text_before_transitive(a: Seq<char>, b: Seq<char>, c: Seq<char>)
    requires
        text_before(a, b),
        text_before(b, c),
    ensures
        text_before(a, c),
    decreases a.len(),
{
    if a.len() > 0 && a[0] == b[0] && b[0] == c[0] {
        lemma_text_before_transitive(a.drop_first(), b.drop_first(), c.drop_first());
    }
}

/// A type whose values are ranked by a strict weak order.
pub trait Ranked: View + Sized {
    /// Whether `a` has to stand before `b`.
    spec fn ahead(a: Self::V, b: Self::V) -> bool;

    /// Tells whether `self` has to stand before `other`.
    fn is_ahead(&self, other: &Self) -> (r: bool)
        ensures
            r == Self::ahead(self@, other@),
    ;

    /// Of two values at most one has to stand before the other.
    proof fn ahead_is_asymmetric(a: Self::V, b: Self::V)
        ensures
            !(Self::ahead(a, b) && Self::ahead(b, a)),
    ;

    /// What need not stand after `b` need not stand after what `b` precedes.
    proof fn ahead_is_weak(a: Self::V, b: Self::V, c: Self::V)
        requires
            !Self::ahead(b, a),
            !Self::ahead(c, b),
        ensures
            !Self::ahead(c, a),
    ;
}

/// The views of a list.
pub open spec fn views<T: View>(list: Seq<T>) -> Seq<T::V> {
    Seq::new(list.len(), |i: int| list[i]@)
}

/// `list` with `item` put behind everything that need not stand after it.
pub open spec fn inserted<T: Ranked>(list: Seq<T::V>, item: T::V) -> Seq<T::V>
    decreases list.len(),
{
    if list.len() == 0 || !T::ahead(item, list.last()) {
        list.push(item)
    } else {
        inserted::<T>(list.drop_last(), item).push(list.last())
    }
}

/// `list` in order; values of equal rank keep their order.
pub open spec fn ranked<T: Ranked>(list: Seq<T::V>) -> Seq<T::V>
    decreases list.len(),
{
    if list.len() == 0 {
        Seq::empty()
    } else {
        inserted::<T>(ranked::<T>(list.drop_last()), list.last())
    }
}

/// No value stands before one that has to stand before it.
pub open spec fn in_order<T: Ranked>(list: Seq<T::V>) -> bool {
    forall|i: int, j: int|
        0 <= i < j < list.len() ==> !T::ahead(#[trigger] list[j], #[trigger] list[i])
}

proof fn lemma_inserted<T: Ranked>(list: Seq<T::V>, item: T::V, i: int)
    requires
        0 <= i <= list.len(),
        forall|k: int| i <= k < list.len() ==> T::ahead(item, #[trigger] list[k]),
        i > 0 ==> !T::ahead(item, list[i - 1]),
    ensures
        inserted::<T>(list, item) == list.insert(i, item),
    decreases list.len(),
{
    if i == list.len() {
        assert(list.insert(i, item) == list.push(item));
    } else {
        assert(T::ahead(item, list[list.len() - 1]));
        lemma_inserted::<T>(list.drop_last(), item, i);
        assert(list.insert(i, item) == list.drop_last().insert(i, item).push(list.last()));
    }
}

proof fn lemma_ahead_of_the_rest<T: Ranked>(list: Seq<T::V>, item: T::V, i: int)
    requires
        in_order::<T>(list),
        0 <= i < list.len(),
        T::ahead(item, list[i]),
    ensures
        forall|k: int| i <= k < list.len() ==> T::ahead(item, #[trigger] list[k]),
{
    assert forall|k: int| i <= k < list.len() implies T::ahead(item, #[trigger] list[k]) by {
        if k > i && !T::ahead(item, list[k]) {
            T::ahead_is_weak(list[i], list[k], item);
        }
    }
}

/// Finds the place behind everything that need not stand after `item`.
fn find_place<T: Ranked>(list: &Vec<T>, item: &T) -> (r: usize)
    requires
        in_order::<T>(views(list@)),
    ensures
        r <= list@.len(),
        forall|k: int| r <= k < list@.len() ==> T::ahead(item@, #[trigger] views(list@)[k]),
        r > 0 ==> !T::ahead(item@, views(list@)[r - 1]),
{
    let n: usize = list.len();
    let ghost all = views(list@);
    let mut low: usize = 0;
    let mut high: usize = n;
    while low < high
        invariant
            n == list@.len(),
            all == views(list@),
            in_order::<T>(all),
            low <= high <= n,
            forall|k: int| high <= k < n ==> T::ahead(item@, #[trigger] all[k]),
            low > 0 ==> !T::ahead(item@, all[low - 1]),
        decreases high - low,
    {
        let middle: usize = low + (high - low) / 2;
        assert(all[middle as int] == list@[middle as int]@);
        if item.is_ahead(&list[middle]) {
            proof {
                lemma_ahead_of_the_rest::<T>(all, item@, middle as int);
            }
            high = middle;
        } else {
            low = middle + 1;
        }
    }
    low
}

/// Sorts `list` stably.
pub fn sort<T: Ranked>(list: Vec<T>) -> (r: Vec<T>)
    ensures
        views(r@) == ranked::<T>(views(list@)),
{
    let n: usize = list.len();
    let ghost all = views(list@);
    let ghost given = list@;
    let mut front = list;
    let mut rest: Vec<T> = Vec::new();
    let mut moved: usize = 0;
    assert(front@ == given.take(n as int));
    while moved < n
        invariant
            n == given.len(),
            moved <= n,
            front@ == given.take(n - moved),
            rest@.len() == moved,
            forall|k: int| 0 <= k < moved ==> #[trigger] rest@[k] == given[n - 1 - k],
        decreases n - moved,
    {
        let item = front.pop().unwrap();
        rest.push(item);
        moved = moved + 1;
    }
    let mut out: Vec<T> = Vec::new();
    let mut i: usize = 0;
    assert(views(out@) == Seq::<T::V>::empty());
    while i < n
        invariant
            n == given.len(),
            all == views(given),
            i <= n,
            rest@.len() == n - i,
            forall|k: int| 0 <= k < n - i ==> #[trigger] rest@[k] == given[n - 1 - k],
            views(out@) == ranked::<T>(all.take(i as int)),
        decreases n - i,
    {
        let item = rest.pop().unwrap();
        let ghost before = out@;
        let ghost model = item@;
        proof {
            law_ranked_is_ordered_permutation::<T>(all.take(i as int));
        }
        let place = find_place(&out, &item);
        proof {
            lemma_inserted::<T>(views(before), model, place as int);
        }
        out.insert(place, item);
        proof {
            assert(views(out@) == views(before).insert(place as int, model));
            assert(all.take(i + 1).drop_last() == all.take(i as int));
            assert(all.take(i + 1).last() == model);
        }
        i = i + 1;
    }
    assert(all.take(n as int) == all);
    out
}

proof fn lemma_inserted_in_order<T: Ranked>(list: Seq<T::V>, item: T::V)
    requires
        in_order::<T>(list),
    ensures
        in_order::<T>(inserted::<T>(list, item)),
        inserted::<T>(list, item).to_multiset() == list.to_multiset().insert(item),
        inserted::<T>(list, item).len() == list.len() + 1,
    decreases list.len(),
{
    broadcast use vstd::seq_lib::group_to_multiset_ensures;

    let out = inserted::<T>(list, item);
    if list.len() == 0 || !T::ahead(item, list.last()) {
        assert forall|i: int, j: int| 0 <= i < j < out.len() implies !T::ahead(
            #[trigger] out[j],
            #[trigger] out[i],
        ) by {
            if j == list.len() && i < list.len() - 1 {
                T::ahead_is_weak(list[i], list.last(), item);
            }
        }
    } else {
        let front = list.drop_last();
        lemma_inserted_in_order::<T>(front, item);
        let head = inserted::<T>(front, item);
        assert(list == front.push(list.last()));
        assert(out.to_multiset() == list.to_multiset().insert(item));
        assert forall|i: int, j: int| 0 <= i < j < out.len() implies !T::ahead(
            #[trigger] out[j],
            #[trigger] out[i],
        ) by {
            if j == head.len() {
                assert(head.to_multiset().count(head[i]) > 0);
                assert(front.to_multiset().insert(item).count(head[i]) > 0);
                if head[i] == item {
                    T::ahead_is_asymmetric(item, list.last());
                } else {
                    assert(front.to_multiset().count(head[i]) > 0);
                    assert(front.contains(head[i]));
                    let k = choose|k: int| 0 <= k < front.len() && front[k] == head[i];
                    assert(list[k] == head[i]);
                }
            }
        }
    }
}

/// Sorting gives a list in order that holds the same values, each as often.
pub proof fn law_ranked_is_ordered_permutation<T: Ranked>(list: Seq<T::V>)
    ensures
        in_order::<T>(ranked::<T>(list)),
        ranked::<T>(list).to_multiset() == list.to_multiset(),
        ranked::<T>(list).len() == list.len(),
    decreases list.len(),
{
    broadcast use vstd::seq_lib::group_to_multiset_ensures;

    if list.len() == 0 {
        assert(ranked::<T>(list) == list);
    } else {
        law_ranked_is_ordered_permutation::<T>(list.drop_last());
        lemma_inserted_in_order::<T>(ranked::<T>(list.drop_last()), list.last());
        assert(list == list.drop_last().push(list.last()));
    }
}

/// A list with one more value holds what it held before, and that value.
pub proof fn lemma_contains_push<T>(list: Seq<T>, x: T, y: T)
    ensures
        list.push(x).contains(y) <==> list.contains(y) || x == y,
{
    let longer = list.push(x);
    if list.contains(y) {
        let k = choose|k: int| 0 <= k < list.len() && list[k] == y;
        assert(longer[k] == y);
    }
    if x == y {
        assert(longer[list.len() as int] == y);
    }
}

proof fn lemma_inserted_stable<T: Ranked>(
    list: Seq<T::V>,
    item: T::V,
    v: T::V,
    tie: spec_fn(T::V) -> bool,
)
    requires
        forall|x: T::V| #[trigger] tie(x) <==> !T::ahead(x, v) && !T::ahead(v, x),
    ensures
        inserted::<T>(list, item).filter(tie) == list.push(item).filter(tie),
    decreases list.len(),
{
    reveal(Seq::filter);
    assert(list.push(item).drop_last() == list);
    if list.len() > 0 && T::ahead(item, list.last()) {
        let front = list.drop_last();
        lemma_inserted_stable::<T>(front, item, v, tie);
        assert(front.push(item).drop_last() == front);
        let out = inserted::<T>(front, item).push(list.last());
        assert(out.drop_last() == inserted::<T>(front, item));
        if tie(item) && tie(list.last()) {
            T::ahead_is_weak(list.last(), v, item);
        }
        assert(list.filter(tie) == if tie(list.last()) {
            front.filter(tie).push(list.last())
        } else {
            front.filter(tie)
        });
        assert(front.push(item).filter(tie) == if tie(item) {
            front.filter(tie).push(item)
        } else {
            front.filter(tie)
        });
        assert(list.push(item).filter(tie) == if tie(item) {
            list.filter(tie).push(item)
        } else {
            list.filter(tie)
        });
        assert(out.filter(tie) == if tie(list.last()) {
            front.push(item).filter(tie).push(list.last())
        } else {
            front.push(item).filter(tie)
        });
    }
}

/// Sorting is stable: values of equal rank keep their order.
pub proof fn law_equal_ranks_keep_their_order<T: Ranked>(
    list: Seq<T::V>,
    v: T::V,
    tie: spec_fn(T::V) -> bool,
)
    requires
        forall|x: T::V| #[trigger] tie(x) <==> !T::ahead(x, v) && !T::ahead(v, x),
    ensures
        ranked::<T>(list).filter(tie) == list.filter(tie),
    decreases list.len(),
{
    reveal(Seq::filter);
    if list.len() > 0 {
        let rest = list.drop_last();
        law_equal_ranks_keep_their_order::<T>(rest, v, tie);
        lemma_inserted_stable::<T>(ranked::<T>(rest), list.last(), v, tie);
        let before = ranked::<T>(rest);
        assert(before.push(list.last()).drop_last() == before);
    }
}

/// Of two texts the one with the smaller character at the first difference comes
/// first, and a text comes before every longer one that starts with it.
pub proof fn law_text_order(common: Seq<char>, x: char, y: char, a: Seq<char>, b: Seq<char>)
    ensures
        x < y ==> text_before(common + seq![x] + a, common + seq![y] + b),
        x < y ==> !text_before(common + seq![y] + b, common + seq![x] + a),
        text_before(common, common + seq![x] + a),
        !text_before(common + seq![x] + a, common),
    decreases common.len(),
{
    let p = common + seq![x] + a;
    let q = common + seq![y] + b;
    if common.len() > 0 {
        let rest = common.drop_first();
        law_text_order(rest, x, y, a, b);
        assert(p.drop_first() == rest + seq![x] + a);
        assert(q.drop_first() == rest + seq![y] + b);
        assert(p[0] == common[0] && q[0] == common[0]);
    } else {
        assert(p[0] == x && q[0] == y);
    }
}

}
