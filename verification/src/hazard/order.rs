//! Putting things in order of time.

use vstd::prelude::*;

verus! {

/// What can be put in order of time.
pub trait Timed: Sized {
    /// It is no later than another.
    spec fn no_later(self, other: Self) -> bool;

    fn is_no_later(&self, other: &Self) -> (r: bool)
        ensures
            r == self.no_later(*other),
    ;
}

/// `before` is an order: of any two things one comes no later, and what comes no
/// later than something comes no later than what that comes no later than.
pub open spec fn is_order<T>(before: spec_fn(T, T) -> bool) -> bool {
    &&& forall|a: T, b: T| #[trigger] before(a, b) || #[trigger] before(b, a)
    &&& forall|a: T, b: T, c: T| #[trigger] before(a, b) && #[trigger] before(b, c) ==> before(a, c)
}

/// `s`, in order, with `x` placed behind everything that is not later.
pub open spec fn placed<T>(s: Seq<T>, x: T, before: spec_fn(T, T) -> bool) -> Seq<T>
    decreases s.len(),
{
    if s.len() == 0 || before(s.last(), x) {
        s.push(x)
    } else {
        placed(s.drop_last(), x, before).push(s.last())
    }
}

/// `s` in order; what is equally late keeps its order.
pub open spec fn ordered<T>(s: Seq<T>, before: spec_fn(T, T) -> bool) -> Seq<T>
    decreases s.len(),
{
    if s.len() == 0 {
        s
    } else {
        placed(ordered(s.drop_last(), before), s.last(), before)
    }
}

/// No element is later than one that follows it.
pub open spec fn is_ordered<T>(s: Seq<T>, before: spec_fn(T, T) -> bool) -> bool {
    forall|i: int, j: int| 0 <= i <= j < s.len() ==> before(#[trigger] s[i], #[trigger] s[j])
}

proof fn lemma_placed<T>(s: Seq<T>, x: T, before: spec_fn(T, T) -> bool)
    requires
        is_order(before),
        is_ordered(s, before),
    ensures
        is_ordered(placed(s, x, before), before),
        placed(s, x, before).to_multiset() == s.to_multiset().insert(x),
        placed(s, x, before).len() == s.len() + 1,
        forall|i: int|
            0 <= i < placed(s, x, before).len() ==> s.contains(#[trigger] placed(s, x, before)[i]) || placed(
                s,
                x,
                before,
            )[i] == x,
    decreases s.len(),
{
    let r = placed(s, x, before);
    assert(before(x, x));
    s.to_multiset_ensures();
    if s.len() == 0 || before(s.last(), x) {
        assert forall|i: int, j: int| 0 <= i <= j < r.len() implies before(#[trigger] r[i], #[trigger] r[j]) by {
            if i < s.len() && j == s.len() {
                assert(before(s[i], s[s.len() - 1]));
            }
        }
        assert forall|i: int| 0 <= i < r.len() implies s.contains(#[trigger] r[i]) || r[i] == x by {
            if i < s.len() {
                assert(s[i] == r[i]);
            }
        }
    } else {
        let rest = s.drop_last();
        let last = s.last();
        assert(is_ordered(rest, before));
        lemma_placed(rest, x, before);
        assert(before(x, last));
        assert(before(last, last));
        let p = placed(rest, x, before);
        assert forall|i: int, j: int| 0 <= i <= j < r.len() implies before(#[trigger] r[i], #[trigger] r[j]) by {
            if i < p.len() && j == p.len() {
                if rest.contains(p[i]) {
                    let k = choose|k: int| 0 <= k < rest.len() && rest[k] == p[i];
                    assert(before(s[k], s[s.len() - 1]));
                }
            } else if j < p.len() {
                assert(before(p[i], p[j]));
            }
        }
        assert forall|i: int| 0 <= i < r.len() implies s.contains(#[trigger] r[i]) || r[i] == x by {
            if i < p.len() {
                if rest.contains(p[i]) {
                    let k = choose|k: int| 0 <= k < rest.len() && rest[k] == p[i];
                    assert(s[k] == r[i]);
                }
            } else {
                assert(s[s.len() - 1] == r[i]);
            }
        }
        p.to_multiset_ensures();
        rest.to_multiset_ensures();
        assert(s =~= rest.push(last));
        assert(r.to_multiset() =~= s.to_multiset().insert(x));
    }
}

/// Putting things in order keeps each of them, and leaves no later one before an
/// earlier one.
pub proof fn ordering_sorts<T>(s: Seq<T>, before: spec_fn(T, T) -> bool)
    requires
        is_order(before),
    ensures
        is_ordered(ordered(s, before), before),
        ordered(s, before).to_multiset() == s.to_multiset(),
        ordered(s, before).len() == s.len(),
        forall|i: int| 0 <= i < ordered(s, before).len() ==> s.contains(#[trigger] ordered(s, before)[i]),
    decreases s.len(),
{
    if s.len() > 0 {
        let rest = s.drop_last();
        ordering_sorts(rest, before);
        lemma_placed(ordered(rest, before), s.last(), before);
        rest.to_multiset_ensures();
        assert(s =~= rest.push(s.last()));
        assert forall|i: int| 0 <= i < ordered(s, before).len() implies s.contains(
            #[trigger] ordered(s, before)[i],
        ) by {
            let y = ordered(s, before)[i];
            if ordered(rest, before).contains(y) {
                let k = choose|k: int| 0 <= k < ordered(rest, before).len() && ordered(rest, before)[k] == y;
                assert(rest.contains(ordered(rest, before)[k]));
                let m = choose|m: int| 0 <= m < rest.len() && rest[m] == y;
                assert(s[m] == y);
            } else {
                assert(s[s.len() - 1] == y);
            }
        }
    }
}

/// Putting things in order loses none.
pub proof fn ordering_loses_nothing<T>(s: Seq<T>, before: spec_fn(T, T) -> bool, i: int)
    requires
        is_order(before),
        0 <= i < s.len(),
    ensures
        ordered(s, before).contains(s[i]),
{
    ordering_sorts(s, before);
    s.to_multiset_ensures();
    ordered(s, before).to_multiset_ensures();
    assert(s.contains(s[i]));
    assert(ordered(s, before).to_multiset().count(s[i]) > 0);
}

/// The elements that are as late as `x`, as they stand in a list.
pub open spec fn as_late_as<T>(s: Seq<T>, before: spec_fn(T, T) -> bool, x: T) -> Seq<T>
    decreases s.len(),
{
    if s.len() == 0 {
        s
    } else if before(s.last(), x) && before(x, s.last()) {
        as_late_as(s.drop_last(), before, x).push(s.last())
    } else {
        as_late_as(s.drop_last(), before, x)
    }
}

proof fn lemma_placed_stable<T>(s: Seq<T>, x: T, before: spec_fn(T, T) -> bool, y: T)
    requires
        is_order(before),
    ensures
        as_late_as(placed(s, x, before), before, y) == as_late_as(s.push(x), before, y),
    decreases s.len(),
{
    assert(s.push(x).drop_last() =~= s);
    if s.len() == 0 || before(s.last(), x) {
    } else {
        let rest = s.drop_last();
        let last = s.last();
        let p = placed(rest, x, before);
        lemma_placed_stable(rest, x, before, y);
        assert(rest.push(x).drop_last() =~= rest);
        assert(p.push(last).drop_last() =~= p);
        let last_counts = before(last, y) && before(y, last);
        let x_counts = before(x, y) && before(y, x);
        assert(!(last_counts && x_counts));
        assert(as_late_as(p.push(last), before, y) == if last_counts {
            as_late_as(p, before, y).push(last)
        } else {
            as_late_as(p, before, y)
        });
        assert(as_late_as(rest.push(x), before, y) == if x_counts {
            as_late_as(rest, before, y).push(x)
        } else {
            as_late_as(rest, before, y)
        });
        assert(as_late_as(s.push(x), before, y) == if x_counts {
            as_late_as(s, before, y).push(x)
        } else {
            as_late_as(s, before, y)
        });
    }
}

/// Things that are equally late keep the order in which they came.
pub proof fn ordering_is_stable<T>(s: Seq<T>, before: spec_fn(T, T) -> bool, y: T)
    requires
        is_order(before),
    ensures
        as_late_as(ordered(s, before), before, y) == as_late_as(s, before, y),
    decreases s.len(),
{
    if s.len() > 0 {
        let rest = s.drop_last();
        let o = ordered(rest, before);
        ordering_is_stable(rest, before, y);
        lemma_placed_stable(o, s.last(), before, y);
        assert(o.push(s.last()).drop_last() =~= o);
    }
}

/// Putting things in order commutes with a mapping that keeps the order.
pub proof fn lemma_ordered_mapped<T, U>(
    s: Seq<T>,
    before: spec_fn(T, T) -> bool,
    f: spec_fn(T) -> U,
    mapped_before: spec_fn(U, U) -> bool,
)
    requires
        forall|t: T, u: T| #[trigger] mapped_before(f(t), f(u)) == before(t, u),
    ensures
        ordered(s, before).map_values(f) == ordered(s.map_values(f), mapped_before),
    decreases s.len(),
{
    if s.len() > 0 {
        let rest = s.drop_last();
        lemma_ordered_mapped(rest, before, f, mapped_before);
        assert(s.map_values(f).drop_last() =~= rest.map_values(f));
        lemma_placed_mapped(ordered(rest, before), s.last(), before, f, mapped_before);
    } else {
        assert(s.map_values(f) =~= Seq::<U>::empty());
        assert(ordered(s, before).map_values(f) =~= Seq::<U>::empty());
        assert(ordered(s.map_values(f), mapped_before) =~= Seq::<U>::empty());
    }
}

proof fn lemma_placed_mapped<T, U>(
    s: Seq<T>,
    x: T,
    before: spec_fn(T, T) -> bool,
    f: spec_fn(T) -> U,
    mapped_before: spec_fn(U, U) -> bool,
)
    requires
        forall|t: T, u: T| #[trigger] mapped_before(f(t), f(u)) == before(t, u),
    ensures
        placed(s, x, before).map_values(f) == placed(s.map_values(f), f(x), mapped_before),
    decreases s.len(),
{
    let m = s.map_values(f);
    if s.len() > 0 {
        assert(m.last() == f(s.last()));
        assert(mapped_before(f(s.last()), f(x)) == before(s.last(), x));
    }
    if s.len() == 0 || before(s.last(), x) {
        assert(s.push(x).map_values(f) =~= m.push(f(x)));
    } else {
        let rest = s.drop_last();
        lemma_placed_mapped(rest, x, before, f, mapped_before);
        assert(m.drop_last() =~= rest.map_values(f));
        let p = placed(rest, x, before);
        assert(p.push(s.last()).map_values(f) =~= p.map_values(f).push(f(s.last())));
    }
}

proof fn lemma_placed_at<T>(s: Seq<T>, x: T, before: spec_fn(T, T) -> bool, at: int)
    requires
        0 <= at <= s.len(),
        forall|i: int| at <= i < s.len() ==> !before(#[trigger] s[i], x),
        at > 0 ==> before(s[at - 1], x),
    ensures
        placed(s, x, before) == s.insert(at, x),
    decreases s.len(),
{
    if at == s.len() {
        if at > 0 {
            assert(s.last() == s[at - 1]);
        }
        assert(s.insert(at, x) =~= s.push(x));
    } else {
        let rest = s.drop_last();
        assert(!before(s[s.len() - 1], x));
        assert forall|i: int| at <= i < rest.len() implies !before(#[trigger] rest[i], x) by {
            assert(rest[i] == s[i]);
        }
        lemma_placed_at(rest, x, before, at);
        assert(s.insert(at, x) =~= rest.insert(at, x).push(s.last()));
    }
}

/// Puts a list in order of time; what is equally late keeps its order.
pub fn sort_by_time<T: Timed>(items: Vec<T>) -> (r: Vec<T>)
    ensures
        r@ == ordered(items@, |a: T, b: T| a.no_later(b)),
{
    let ghost all = items@;
    let ghost before = |a: T, b: T| a.no_later(b);
    let mut rest = items;
    let mut out: Vec<T> = Vec::new();
    let ghost mut done: int = 0;
    assert(all.take(0) =~= Seq::<T>::empty());
    assert(all.skip(0) =~= all);
    while rest.len() > 0
        invariant
            0 <= done <= all.len(),
            rest@ == all.skip(done),
            out@ == ordered(all.take(done), before),
            before == (|a: T, b: T| a.no_later(b)),
        decreases rest@.len(),
    {
        let item = rest.remove(0);
        let mut at: usize = out.len();
        assert(item == all[done]);
        let mut searching = at > 0;
        while searching
            invariant
                at <= out@.len(),
                searching ==> at > 0,
                before == (|a: T, b: T| a.no_later(b)),
                forall|i: int| at <= i < out@.len() ==> !before(#[trigger] out@[i], item),
                !searching && at > 0 ==> before(out@[at - 1], item),
            decreases at + if searching { 1int } else { 0int },
        {
            if out[at - 1].is_no_later(&item) {
                searching = false;
            } else {
                at = at - 1;
                searching = at > 0;
            }
        }
        proof {
            lemma_placed_at(out@, item, before, at as int);
            assert(all.take(done + 1).drop_last() =~= all.take(done));
            assert(all.take(done + 1).last() == item);
            assert(rest@ =~= all.skip(done + 1));
            done = done + 1;
        }
        out.insert(at, item);
    }
    assert(all.take(done) =~= all);
    out
}

} // verus!
