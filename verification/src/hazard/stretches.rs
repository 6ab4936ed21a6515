//! The longest stretch of undisturbed computation, seen from the stretches.

use vstd::prelude::*;

use super::predict::{free_from, longest_stretch, summarized};
use super::schedule::EntryView;
use super::HazardView;
use crate::double::growth;
use crate::double::model::{size, BINADE, UNIT_EXPONENT};
use crate::double::{self, Double};
use crate::time::{self, UtcTime};

verus! {

/// An instant of the calendar outside of leap seconds.
pub open spec fn plain(t: UtcTime) -> bool {
    t.valid() && !t.leap()
}

/// When a hazard starts.
pub open spec fn start_of(h: HazardView) -> UtcTime {
    time::reading(h.start_time)->0
}

/// When the state is validated and restored after a hazard.
pub open spec fn ready_after(h: HazardView, t_serialize: Double, t_validate: Double) -> UtcTime {
    time::shifted(
        time::reading(h.end_time)->0,
        double::truncated(
            double::product(double::sum(t_validate, t_serialize), double::integer(1000)),
            i64::MIN as int,
            i64::MAX as int,
        ),
    )->0
}

/// The hazards can be read.
pub open spec fn legible_all(hazards: Seq<HazardView>, now: UtcTime, t_serialize: Double, t_validate: Double) -> bool {
    &&& plain(now)
    &&& forall|k: int|
        0 <= k < hazards.len() ==> {
            let h = #[trigger] hazards[k];
            &&& time::reading(h.start_time) is Some
            &&& time::reading(h.end_time) is Some
            &&& plain(start_of(h))
            &&& plain(ready_after(h, t_serialize, t_validate))
        }
}

/// The hazards can be read, none is over by `now`, and each starts and is over no
/// earlier than the one before it.
pub open spec fn one_by_one(hazards: Seq<HazardView>, now: UtcTime, t_serialize: Double, t_validate: Double) -> bool {
    &&& legible_all(hazards, now, t_serialize, t_validate)
    &&& forall|k: int|
        0 <= k < hazards.len() ==> !now.later_than(ready_after(#[trigger] hazards[k], t_serialize, t_validate))
    &&& forall|j: int, k: int|
        0 <= j <= k < hazards.len() ==> !start_of(#[trigger] hazards[j]).later_than(start_of(#[trigger] hazards[k]))
    &&& forall|j: int, k: int|
        0 <= j <= k < hazards.len() ==> !ready_after(#[trigger] hazards[j], t_serialize, t_validate).later_than(
            ready_after(#[trigger] hazards[k], t_serialize, t_validate),
        )
}

/// When computation can go on before the hazard `k` of a list: when the one before
/// it is done with, or from `now`.
pub open spec fn free_before(
    hazards: Seq<HazardView>,
    now: UtcTime,
    t_serialize: Double,
    t_validate: Double,
    k: int,
) -> UtcTime {
    if k == 0 {
        now
    } else {
        ready_after(hazards[k - 1], t_serialize, t_validate)
    }
}

/// From `a` to `b` there is no hazard, and none whose state is still to be
/// restored: each starts when `b` has come, or is over and done with by `a`.
pub open spec fn undisturbed(
    hazards: Seq<HazardView>,
    t_serialize: Double,
    t_validate: Double,
    a: UtcTime,
    b: UtcTime,
) -> bool {
    forall|k: int|
        0 <= k < hazards.len() ==> !b.later_than(start_of(#[trigger] hazards[k])) || !ready_after(
            hazards[k],
            t_serialize,
            t_validate,
        ).later_than(a)
}

/// A hazard is still ahead at `b`.
pub open spec fn hazard_ahead(hazards: Seq<HazardView>, b: UtcTime) -> bool {
    exists|k: int| 0 <= k < hazards.len() && !b.later_than(start_of(#[trigger] hazards[k]))
}

/// The seconds to compute in from `a` to `b`, where the state is still to be saved
/// by `b`: writing it takes `t_serialize`, with a margin of 4.5.
pub open spec fn usable_s(a: UtcTime, b: UtcTime, t_serialize: Double) -> Double {
    double::difference(
        double::difference(double::integer(time::seconds_between(b, a)), t_serialize),
        double::ratio(45, 10),
    )
}

/// The seconds from `a` to `b`.
pub open spec fn all_s(a: UtcTime, b: UtcTime) -> Double {
    double::integer(time::seconds_between(b, a))
}

proof fn lemma_free_before(
    hazards: Seq<HazardView>,
    now: UtcTime,
    t_serialize: Double,
    t_validate: Double,
    n: int,
)
    requires
        legible_all(hazards, now, t_serialize, t_validate),
        0 <= n <= hazards.len(),
    ensures
        free_from(hazards, now, t_serialize, t_validate, n) == free_before(hazards, now, t_serialize, t_validate, n),
        plain(free_before(hazards, now, t_serialize, t_validate, n)),
{
    if n > 0 {
        let h = hazards[n - 1];
        assert(time::reading(h.end_time) is Some);
    }
}

proof fn lemma_free_from(
    hazards: Seq<HazardView>,
    now: UtcTime,
    t_serialize: Double,
    t_validate: Double,
    n: int,
)
    requires
        one_by_one(hazards, now, t_serialize, t_validate),
        0 <= n <= hazards.len(),
    ensures
        !now.later_than(free_before(hazards, now, t_serialize, t_validate, n)),
        forall|k: int|
            0 <= k < n ==> !ready_after(#[trigger] hazards[k], t_serialize, t_validate).later_than(
                free_before(hazards, now, t_serialize, t_validate, n),
            ),
{
    if n > 0 {
        assert(!now.later_than(ready_after(hazards[n - 1], t_serialize, t_validate)));
        assert forall|k: int| 0 <= k < n implies !ready_after(
            #[trigger] hazards[k],
            t_serialize,
            t_validate,
        ).later_than(free_before(hazards, now, t_serialize, t_validate, n)) by {
            assert(!ready_after(hazards[k], t_serialize, t_validate).later_than(
                ready_after(hazards[n - 1], t_serialize, t_validate),
            ));
        }
    }
}

/// Seconds of the calendar, less what it takes to save, are finite.
proof fn lemma_usable_is_finite(a: UtcTime, b: UtcTime, t_serialize: Double)
    requires
        plain(a),
        plain(b),
        t_serialize.finite(),
    ensures
        usable_s(a, b, t_serialize).finite(),
        all_s(a, b).finite(),
        double::difference(all_s(a, b), t_serialize).finite(),
        double::ratio(45, 10).finite(),
{
    let s = time::seconds_between(b, a);
    assert(-20_000_000_000_000 <= s <= 20_000_000_000_000);
    double::integers_are_exact(s);
    let o = double::one() as int;
    vstd::arithmetic::power2::lemma_pow2_pos(UNIT_EXPONENT as nat);
    assert(-(2 * BINADE * o) <= s * o <= 2 * BINADE * o) by (nonlinear_arith)
        requires
            -20_000_000_000_000 <= s <= 20_000_000_000_000,
            o > 0,
            BINADE == 0x10_0000_0000_0000,
    ;
    growth::lemma_opposite(t_serialize);
    growth::small_steps_stay_finite(double::opposite(t_serialize), double::integer(s));
    growth::lemma_sum_rank(double::integer(s), double::opposite(t_serialize));
    growth::lemma_sum_rank(double::opposite(t_serialize), double::integer(s));
    let left = double::difference(all_s(a, b), t_serialize);
    assert(left.finite());
    lemma_margin_is_small();
    let margin = double::ratio(45, 10);
    growth::lemma_opposite(margin);
    growth::small_steps_stay_finite(left, double::opposite(margin));
}

proof fn lemma_margin_is_small()
    ensures
        double::ratio(45, 10).finite(),
        size(double::ratio(45, 10).unsigned()) <= 2 * BINADE * double::one(),
{
    let o = double::one();
    vstd::arithmetic::power2::lemma_pow2_pos(UNIT_EXPONENT as nat);
    double::integers_are_exact(45);
    double::integers_are_exact(10);
    double::integers_are_exact(5);
    double::integers_are_finite(45);
    double::integers_are_finite(10);
    double::integers_are_finite(5);
    growth::lemma_quotient_rank(double::integer(45), double::integer(10));
    let (x, z) = (size(double::integer(45).unsigned()), size(double::integer(10).unsigned()));
    assert((x * o) * 1 <= (5 * o) * z) by (nonlinear_arith)
        requires
            x == 45 * o,
            z == 10 * o,
            o > 0,
    ;
    growth::rounding_keeps_order(x * o, z, 5 * o, 1);
    growth::lemma_nearest_to_itself(double::integer(5).unsigned());
    let (j, k) = (double::ratio(45, 10).unsigned(), double::integer(5).unsigned());
    if j < k {
        crate::double::model::lemma_size_monotone(j, k);
    }
    assert(5 * o <= 2 * BINADE * o) by (nonlinear_arith)
        requires
            o > 0,
    ;
}

/// A longer stretch has no less to compute in.
proof fn lemma_longer_is_more(a: UtcTime, b: UtcTime, c: UtcTime, d: UtcTime, t_serialize: Double)
    requires
        plain(a),
        plain(b),
        plain(c),
        plain(d),
        !c.later_than(a),
        !b.later_than(d),
        t_serialize.finite(),
    ensures
        double::at_most(usable_s(a, b, t_serialize), usable_s(c, d, t_serialize)),
        double::at_most(all_s(a, b), all_s(c, d)),
{
    assert(time::nanos_between(b, a) <= time::nanos_between(d, c));
    let (s, t) = (time::seconds_between(b, a), time::seconds_between(d, c));
    assert(s <= t);
    growth::integers_keep_order(s, t);
    lemma_usable_is_finite(a, b, t_serialize);
    lemma_usable_is_finite(c, d, t_serialize);
    let margin = double::ratio(45, 10);
    growth::lemma_opposite(t_serialize);
    growth::lemma_opposite(margin);
    growth::sums_grow(all_s(a, b), all_s(c, d), double::opposite(t_serialize));
    growth::sums_grow(
        double::difference(all_s(a, b), t_serialize),
        double::difference(all_s(c, d), t_serialize),
        double::opposite(margin),
    );
}

/// The longest stretch before one of the first `n` hazards is none, or one of them;
/// and none of them is longer.
proof fn lemma_longest(
    hazards: Seq<HazardView>,
    now: UtcTime,
    t_serialize: Double,
    t_validate: Double,
    n: int,
)
    requires
        legible_all(hazards, now, t_serialize, t_validate),
        t_serialize.finite(),
        0 <= n <= hazards.len(),
    ensures
        ({
            let longest = longest_stretch(hazards, now, t_serialize, t_validate, n);
            &&& longest.finite()
            &&& longest == double::integer(0) || exists|j: int|
                0 <= j < n && longest == usable_s(
                    free_before(hazards, now, t_serialize, t_validate, j),
                    start_of(#[trigger] hazards[j]),
                    t_serialize,
                )
            &&& forall|j: int|
                0 <= j < n ==> double::at_most(
                    usable_s(
                        free_before(hazards, now, t_serialize, t_validate, j),
                        start_of(#[trigger] hazards[j]),
                        t_serialize,
                    ),
                    longest,
                )
            &&& double::at_most(double::integer(0), longest)
        }),
    decreases n,
{
    reveal(double::less);
    reveal(double::at_most);
    double::integer_zero();
    double::integers_are_finite(0);
    if n > 0 {
        lemma_longest(hazards, now, t_serialize, t_validate, n - 1);
        lemma_free_before(hazards, now, t_serialize, t_validate, n - 1);
        let h = hazards[n - 1];
        assert(time::reading(h.start_time) is Some);
        let free = free_before(hazards, now, t_serialize, t_validate, n - 1);
        lemma_usable_is_finite(free, start_of(h), t_serialize);
        let so_far = longest_stretch(hazards, now, t_serialize, t_validate, n - 1);
        let longest = longest_stretch(hazards, now, t_serialize, t_validate, n);
        assert(longest == so_far || longest == usable_s(free, start_of(hazards[n - 1]), t_serialize));
    }
}

/// Rounding to whole seconds keeps order.
proof fn lemma_whole_seconds(a: Double, b: Double)
    requires
        a.finite(),
        b.finite(),
        double::at_most(a, b),
    ensures
        double::at_most(double::nearest_whole(a), double::nearest_whole(b)),
{
    growth::whole_numbers_keep_order(a, b);
}

/// The window that the summary calls safe is one: some stretch of that many
/// seconds, to a whole one, begins at `now` or later and ends at the horizon or,
/// early enough to save the state, at a hazard's start; and in it there is no
/// hazard and nothing to be restored.
pub proof fn safe_window_is_undisturbed(
    hazards: Seq<HazardView>,
    checkpoints: Seq<EntryView>,
    now: UtcTime,
    end: UtcTime,
    t_serialize: Double,
    t_validate: Double,
    horizon_hours: Double,
)
    requires
        one_by_one(hazards, now, t_serialize, t_validate),
        plain(end),
        t_serialize.finite(),
    ensures
        ({
            let w = summarized(hazards, checkpoints, now, end, t_serialize, t_validate, horizon_hours)
                .max_safe_compute_window_s;
            ||| w.rank() == 0
            ||| exists|a: UtcTime, b: UtcTime| #[trigger]
                undisturbed(hazards, t_serialize, t_validate, a, b) && !now.later_than(a) && (w
                    == double::nearest_whole(usable_s(a, b, t_serialize)) && hazard_ahead(hazards, b) || w
                    == double::nearest_whole(all_s(a, b)) && b == end)
        }),
{
    reveal(double::less);
    reveal(double::at_most);
    double::integer_zero();
    let n = hazards.len() as int;
    lemma_longest(hazards, now, t_serialize, t_validate, n);
    lemma_free_from(hazards, now, t_serialize, t_validate, n);
    lemma_free_before(hazards, now, t_serialize, t_validate, n);
    let longest = longest_stretch(hazards, now, t_serialize, t_validate, n);
    let last = free_before(hazards, now, t_serialize, t_validate, n);
    lemma_usable_is_finite(last, end, t_serialize);
    let trailing = all_s(last, end);
    let w = summarized(hazards, checkpoints, now, end, t_serialize, t_validate, horizon_hours)
        .max_safe_compute_window_s;
    if double::less(longest, trailing) {
        assert(w == double::nearest_whole(trailing));
        assert(undisturbed(hazards, t_serialize, t_validate, last, end));
    } else if longest == double::integer(0) {
        growth::whole_numbers_stay(0);
        assert(w.rank() == 0);
    } else {
        assert(w == double::nearest_whole(longest));
        let j = choose|j: int|
            0 <= j < n && longest == usable_s(
                free_before(hazards, now, t_serialize, t_validate, j),
                start_of(#[trigger] hazards[j]),
                t_serialize,
            );
        lemma_free_from(hazards, now, t_serialize, t_validate, j);
        lemma_free_before(hazards, now, t_serialize, t_validate, j);
        let (a, b) = (free_before(hazards, now, t_serialize, t_validate, j), start_of(hazards[j]));
        assert forall|k: int| 0 <= k < hazards.len() implies !b.later_than(start_of(#[trigger] hazards[k]))
            || !ready_after(hazards[k], t_serialize, t_validate).later_than(a) by {
            if k >= j {
                assert(!start_of(hazards[j]).later_than(start_of(hazards[k])));
            }
        }
        assert(undisturbed(hazards, t_serialize, t_validate, a, b));
        assert(hazard_ahead(hazards, b));
    }
}

/// No safe window is longer than the one that the summary gives: neither one that
/// ends at or before a hazard's start, early enough to save the state, nor one
/// behind all hazards and within the horizon.
pub proof fn no_safe_window_is_longer(
    hazards: Seq<HazardView>,
    checkpoints: Seq<EntryView>,
    now: UtcTime,
    end: UtcTime,
    t_serialize: Double,
    t_validate: Double,
    horizon_hours: Double,
    a: UtcTime,
    b: UtcTime,
)
    requires
        one_by_one(hazards, now, t_serialize, t_validate),
        plain(end),
        plain(a),
        plain(b),
        t_serialize.finite(),
        !now.later_than(a),
        undisturbed(hazards, t_serialize, t_validate, a, b),
    ensures
        ({
            let w = summarized(hazards, checkpoints, now, end, t_serialize, t_validate, horizon_hours)
                .max_safe_compute_window_s;
            &&& double::at_most(double::integer(0), w)
            &&& hazard_ahead(hazards, b) ==> double::at_most(double::nearest_whole(usable_s(a, b, t_serialize)), w)
            &&& !hazard_ahead(hazards, b) && !b.later_than(end) ==> double::at_most(
                double::nearest_whole(all_s(a, b)),
                w,
            )
        }),
{
    reveal(double::less);
    reveal(double::at_most);
    double::integer_zero();
    double::integers_are_finite(0);
    let n = hazards.len() as int;
    lemma_longest(hazards, now, t_serialize, t_validate, n);
    lemma_free_from(hazards, now, t_serialize, t_validate, n);
    lemma_free_before(hazards, now, t_serialize, t_validate, n);
    let longest = longest_stretch(hazards, now, t_serialize, t_validate, n);
    let last = free_before(hazards, now, t_serialize, t_validate, n);
    lemma_usable_is_finite(last, end, t_serialize);
    lemma_usable_is_finite(a, b, t_serialize);
    let trailing = all_s(last, end);
    let top = if double::less(longest, trailing) { trailing } else { longest };
    let w = summarized(hazards, checkpoints, now, end, t_serialize, t_validate, horizon_hours)
        .max_safe_compute_window_s;
    assert(double::at_most(double::integer(0), top));
    assert(w == double::nearest_whole(top));
    lemma_whole_seconds(double::integer(0), top);
    growth::whole_numbers_stay(0);
    if hazard_ahead(hazards, b) {
        let j = lemma_first_ahead(hazards, b, n);
        lemma_free_from(hazards, now, t_serialize, t_validate, j);
        lemma_free_before(hazards, now, t_serialize, t_validate, j);
        let free = free_before(hazards, now, t_serialize, t_validate, j);
        if j > 0 {
            assert(b.later_than(start_of(hazards[j - 1])));
            assert(!ready_after(hazards[j - 1], t_serialize, t_validate).later_than(a));
        }
        lemma_longer_is_more(a, b, free, start_of(hazards[j]), t_serialize);
        lemma_whole_seconds(usable_s(a, b, t_serialize), top);
    } else if !b.later_than(end) {
        if n > 0 {
            assert(b.later_than(start_of(hazards[n - 1])));
            assert(!ready_after(hazards[n - 1], t_serialize, t_validate).later_than(a));
        }
        lemma_longer_is_more(a, b, last, end, t_serialize);
        lemma_whole_seconds(all_s(a, b), top);
    }
}

/// The first hazard that is still ahead.
proof fn lemma_first_ahead(hazards: Seq<HazardView>, b: UtcTime, n: int) -> (j: int)
    requires
        0 <= n <= hazards.len(),
        exists|k: int| 0 <= k < n && !b.later_than(start_of(#[trigger] hazards[k])),
    ensures
        0 <= j < n,
        !b.later_than(start_of(hazards[j])),
        forall|k: int| 0 <= k < j ==> b.later_than(start_of(#[trigger] hazards[k])),
    decreases n,
{
    if exists|k: int| 0 <= k < n - 1 && !b.later_than(start_of(#[trigger] hazards[k])) {
        lemma_first_ahead(hazards, b, n - 1)
    } else {
        let k = choose|k: int| 0 <= k < n && !b.later_than(start_of(#[trigger] hazards[k]));
        assert(k == n - 1);
        n - 1
    }
}

/// Whatever the order of the hazards, the window that the summary gives is the
/// longest of those between a hazard and the one before it in the list, the first
/// counted from `now` and the last up to the horizon; those that end at a hazard
/// are cut by what it takes to save the state.
pub proof fn safe_window_is_the_longest_between_neighbours(
    hazards: Seq<HazardView>,
    checkpoints: Seq<EntryView>,
    now: UtcTime,
    end: UtcTime,
    t_serialize: Double,
    t_validate: Double,
    horizon_hours: Double,
)
    requires
        legible_all(hazards, now, t_serialize, t_validate),
        plain(end),
        t_serialize.finite(),
    ensures
        ({
            let w = summarized(hazards, checkpoints, now, end, t_serialize, t_validate, horizon_hours)
                .max_safe_compute_window_s;
            let n = hazards.len() as int;
            let last = double::nearest_whole(all_s(free_before(hazards, now, t_serialize, t_validate, n), end));
            &&& forall|k: int|
                0 <= k < n ==> double::at_most(
                    double::nearest_whole(
                        usable_s(
                            free_before(hazards, now, t_serialize, t_validate, k),
                            start_of(#[trigger] hazards[k]),
                            t_serialize,
                        ),
                    ),
                    w,
                )
            &&& double::at_most(last, w)
            &&& double::at_most(double::integer(0), w)
            &&& w.rank() == 0 || w == last || exists|k: int|
                0 <= k < n && w == double::nearest_whole(
                    usable_s(
                        free_before(hazards, now, t_serialize, t_validate, k),
                        start_of(#[trigger] hazards[k]),
                        t_serialize,
                    ),
                )
        }),
{
    reveal(double::less);
    reveal(double::at_most);
    double::integer_zero();
    double::integers_are_finite(0);
    let n = hazards.len() as int;
    lemma_longest(hazards, now, t_serialize, t_validate, n);
    lemma_free_before(hazards, now, t_serialize, t_validate, n);
    let longest = longest_stretch(hazards, now, t_serialize, t_validate, n);
    let free = free_before(hazards, now, t_serialize, t_validate, n);
    lemma_usable_is_finite(free, end, t_serialize);
    let trailing = all_s(free, end);
    let top = if double::less(longest, trailing) { trailing } else { longest };
    assert(double::at_most(double::integer(0), top));
    lemma_whole_seconds(double::integer(0), top);
    growth::whole_numbers_stay(0);
    lemma_whole_seconds(trailing, top);
    assert forall|k: int| 0 <= k < n implies double::at_most(
        double::nearest_whole(
            usable_s(
                free_before(hazards, now, t_serialize, t_validate, k),
                start_of(#[trigger] hazards[k]),
                t_serialize,
            ),
        ),
        double::nearest_whole(top),
    ) by {
        lemma_free_before(hazards, now, t_serialize, t_validate, k);
        let x = usable_s(
            free_before(hazards, now, t_serialize, t_validate, k),
            start_of(hazards[k]),
            t_serialize,
        );
        lemma_usable_is_finite(
            free_before(hazards, now, t_serialize, t_validate, k),
            start_of(hazards[k]),
            t_serialize,
        );
        lemma_whole_seconds(x, top);
    }
}

/// A summary counts the hazards and the checkpoints, and names the start of the
/// first hazard in the list.
pub proof fn summaries_count(
    hazards: Seq<HazardView>,
    checkpoints: Seq<EntryView>,
    now: UtcTime,
    end: UtcTime,
    t_serialize: Double,
    t_validate: Double,
    horizon_hours: Double,
)
    ensures
        ({
            let s = summarized(hazards, checkpoints, now, end, t_serialize, t_validate, horizon_hours);
            &&& s.total_hazards == hazards.len()
            &&& s.total_checkpoints == checkpoints.len()
            &&& hazards.len() == 0 ==> s.next_hazard is None
            &&& hazards.len() > 0 ==> s.next_hazard == Some(hazards.first().start_time)
        }),
{
}

/// The share of the horizon that checkpoints take, in ten-thousandths, is what all
/// of them take over the seconds of the horizon; none where there is no horizon.
pub proof fn checkpoints_take_their_share(
    hazards: Seq<HazardView>,
    checkpoints: Seq<EntryView>,
    now: UtcTime,
    end: UtcTime,
    t_serialize: Double,
    t_validate: Double,
    horizon_hours: Double,
)
    requires
        horizon_hours.finite(),
        t_serialize.finite(),
        t_validate.finite(),
    ensures
        ({
            let share = summarized(hazards, checkpoints, now, end, t_serialize, t_validate, horizon_hours)
                .checkpoint_overhead_fraction;
            let each = double::sum(t_serialize, t_validate);
            let seconds = double::product(horizon_hours, double::integer(3600));
            if seconds.rank() > 0 {
                share == double::quotient(
                    double::nearest_whole(
                        double::product(
                            double::quotient(
                                double::product(double::integer(checkpoints.len() as int), each),
                                seconds,
                            ),
                            double::integer(10_000),
                        ),
                    ),
                    double::integer(10_000),
                )
            } else {
                share.rank() == 0
            }
        }),
{
    reveal(double::less);
    double::integer_zero();
    double::integers_are_finite(3600);
    double::integers_are_finite(10_000);
    double::integers_are_finite(0);
    growth::lemma_product_rank(horizon_hours, double::integer(3600));
    // Nothing, in ten-thousandths, is nothing.
    let none = double::integer(0);
    crate::hazard::shadow::lemma_times_zero(double::integer(10_000), none);
    let z = double::product(none, double::integer(10_000));
    reveal(double::nearest_whole);
    let o = double::one() as int;
    vstd::arithmetic::power2::lemma_pow2_pos(UNIT_EXPONENT as nat);
    assert(size(0) == 0);
    vstd::arithmetic::div_mod::lemma_basic_div(o, 2 * o);
    let y = double::nearest_whole(z);
    assert(y.zero());
    growth::lemma_quotient_rank(y, double::integer(10_000));
    assert(0 * double::one() == 0) by (nonlinear_arith);
    growth::lemma_nearest_to_zero(size(double::integer(10_000).unsigned()));
}

} // verus!
