//! What a schedule does about each hazard, and that it does nothing else.

use vstd::prelude::*;

use super::order;
use super::schedule::{
    all_entries, as_millis, by_time, crowds, entries_around, hazards_are_framed, lemma_by_time, lemma_entries_sorted,
    lemma_rest_is_ordered, lemma_sorted_ranked, lemma_thinned_are_ranked, ranked, resumes, save_time, schedule_for,
    thinned, thinning_keeps_order, EntryView,
};
use super::{hazard_name, CheckpointType, HazardView, RecommendedAction, Severity};
use crate::double::{self, Double};
use crate::time::{self, UtcTime};

verus! {

/// A checkpoint of the type is due at `due`, or one before it that is nearer than
/// two and a half times what it takes to write the state.
pub open spec fn attended(schedule: Seq<EntryView>, what: CheckpointType, due: UtcTime, t_serialize: Double) -> bool {
    exists|m: int| 0 <= m < schedule.len() && attends(#[trigger] schedule[m], what, due, t_serialize)
}

/// The checkpoint is of the type and due at `due`, or little before.
pub open spec fn attends(e: EntryView, what: CheckpointType, due: UtcTime, t_serialize: Double) -> bool {
    &&& e.checkpoint_type == what
    &&& time::reading(e.time) matches Some(t) && {
        ||| t == due
        ||| !t.later_than(due) && double::less(
            double::quotient(double::integer(time::millis_between(due, t)), double::integer(1000)),
            double::product(t_serialize, double::ratio(5, 2)),
        )
    }
}

/// Each hazard whose times can be read is followed up: the state is validated when
/// it ends and, where computation was to stop for it and go on after, or to go on
/// with error correction, it is restored as soon as that has taken its time.
pub open spec fn followed_up(
    schedule: Seq<EntryView>,
    hazards: Seq<HazardView>,
    t_serialize: Double,
    t_validate: Double,
) -> bool {
    forall|i: int|
        0 <= i < hazards.len() && time::reading((#[trigger] hazards[i]).start_time) is Some && time::reading(
            hazards[i].end_time,
        ) is Some ==> {
            let end = time::reading(hazards[i].end_time)->0;
            let ready = time::shifted(end, as_millis(t_validate))->0;
            &&& attended(schedule, CheckpointType::Validate, end, t_serialize)
            &&& hazards[i].recommended_action == RecommendedAction::CheckpointBeforeAndResumeAfter ==> attended(
                schedule,
                CheckpointType::Restore,
                ready,
                t_serialize,
            )
            &&& hazards[i].recommended_action == RecommendedAction::CheckpointAndEnableEcc ==> attended(
                schedule,
                CheckpointType::Restore,
                ready,
                t_serialize,
            )
        }
}

/// The checkpoint is one of those that the hazard calls for.
pub open spec fn called_for(
    e: EntryView,
    h: HazardView,
    now: UtcTime,
    t_serialize: Double,
    t_validate: Double,
) -> bool {
    let start = time::reading(h.start_time)->0;
    let end = time::reading(h.end_time)->0;
    &&& time::reading(h.start_time) is Some
    &&& time::reading(h.end_time) is Some
    &&& match e.checkpoint_type {
        CheckpointType::Save => {
            &&& save_time(start, t_serialize).later_than(now)
            &&& time::reading(e.time) == Some(save_time(start, t_serialize))
            &&& e.estimated_duration_s == t_serialize
        },
        CheckpointType::Validate => {
            &&& time::reading(e.time) == Some(end)
            &&& e.estimated_duration_s == t_validate
            &&& e.reason == "Post-"@ + hazard_name(h.hazard_type) + " state validation"@
            &&& e.urgency == Severity::Low
            &&& e.deadline is None
        },
        CheckpointType::Restore => {
            &&& h.recommended_action == RecommendedAction::CheckpointBeforeAndResumeAfter || h.recommended_action
                == RecommendedAction::CheckpointAndEnableEcc
            &&& time::reading(e.time) == time::shifted(end, as_millis(t_validate))
            &&& e.estimated_duration_s == t_serialize
            &&& e.reason == "Post-"@ + hazard_name(h.hazard_type) + " state restoration"@
            &&& e.urgency == Severity::Moderate
            &&& e.deadline is None
        },
    }
}

/// Every checkpoint of the schedule is called for by some hazard.
pub open spec fn nothing_idle(
    schedule: Seq<EntryView>,
    hazards: Seq<HazardView>,
    now: UtcTime,
    t_serialize: Double,
    t_validate: Double,
) -> bool {
    forall|m: int|
        0 <= m < schedule.len() ==> exists|i: int|
            0 <= i < hazards.len() && called_for(
                #[trigger] schedule[m],
                #[trigger] hazards[i],
                now,
                t_serialize,
                t_validate,
            )
}

/// The times of what follows a hazard, and of its save, read as they are written.
pub open spec fn read_back(h: HazardView, now: UtcTime, t_serialize: Double, t_validate: Double) -> bool {
    time::reading(h.start_time) is Some && time::reading(h.end_time) is Some ==> {
        let save = save_time(time::reading(h.start_time)->0, t_serialize);
        let end = time::reading(h.end_time)->0;
        &&& time::reading(time::stamp(end)) == Some(end)
        &&& save.later_than(now) ==> time::reading(time::stamp(save)) == Some(save)
        &&& resumes(h.recommended_action) ==> time::shifted(end, as_millis(t_validate)) is Some && time::reading(
            time::stamp(time::shifted(end, as_millis(t_validate))->0),
        ) == time::shifted(end, as_millis(t_validate))
    }
}

/// Thinning drops a checkpoint that is no save only for one of its type that it
/// crowds.
pub proof fn thinning_drops_only_what_crowds(entries: Seq<EntryView>, min_interval: Double, i: int)
    requires
        order::is_ordered(entries, by_time()),
        forall|j: int| 0 <= j < entries.len() ==> ranked(#[trigger] entries[j]),
        0 <= i < entries.len(),
        entries[i].checkpoint_type != CheckpointType::Save,
    ensures
        exists|k: int|
            0 <= k < thinned(entries, min_interval).len() && covers(
                #[trigger] thinned(entries, min_interval)[k],
                entries[i],
                min_interval,
            ),
    decreases entries.len(),
{
    let rest = entries.drop_last();
    let before = thinned(rest, min_interval);
    let after = thinned(entries, min_interval);
    lemma_rest_is_ordered(entries);
    assert forall|j: int| 0 <= j < rest.len() implies ranked(#[trigger] rest[j]) by {
        assert(rest[j] == entries[j]);
    }
    lemma_thinned_are_ranked(rest, min_interval);
    thinning_keeps_order(entries, min_interval);
    assert(ranked(entries[entries.len() - 1]));
    if before.len() > 0 {
        assert(ranked(before[before.len() - 1]));
    }
    if i == entries.len() - 1 {
        let k = after.len() - 1;
        assert(by_time()(after[k], entries[i]));
        assert(covers(after[k], entries[i], min_interval));
    } else {
        thinning_drops_only_what_crowds(rest, min_interval, i);
        assert(rest[i] == entries[i]);
        let k = choose|k: int| 0 <= k < before.len() && covers(#[trigger] before[k], rest[i], min_interval);
        assert(ranked(before[k]));
        assert(covers(after[k], entries[i], min_interval));
    }
}

/// `a` is of the type of `b` and due with it, or before it and crowded by it.
pub open spec fn covers(a: EntryView, b: EntryView, min_interval: Double) -> bool {
    &&& a.checkpoint_type == b.checkpoint_type
    &&& by_time()(a, b)
    &&& a.time == b.time || crowds(a, b, min_interval)
}

proof fn lemma_attended(
    hazards: Seq<HazardView>,
    now: UtcTime,
    t_serialize: Double,
    t_validate: Double,
    i: int,
    k: int,
    due: UtcTime,
)
    requires
        0 <= i < hazards.len(),
        0 <= k < entries_around(hazards[i], now, t_serialize, t_validate).len(),
        ({
            let entry = entries_around(hazards[i], now, t_serialize, t_validate)[k];
            entry.checkpoint_type != CheckpointType::Save && time::reading(entry.time) == Some(due)
        }),
    ensures
        attended(
            schedule_for(hazards, now, t_serialize, t_validate),
            entries_around(hazards[i], now, t_serialize, t_validate)[k].checkpoint_type,
            due,
            t_serialize,
        ),
{
    let entry = entries_around(hazards[i], now, t_serialize, t_validate)[k];
    let sorted = order::ordered(all_entries(hazards, now, t_serialize, t_validate), by_time());
    let n = lemma_entries_sorted(hazards, now, t_serialize, t_validate, i, k);
    lemma_sorted_ranked(hazards, now, t_serialize, t_validate);
    let min_interval = double::product(t_serialize, double::ratio(5, 2));
    thinning_drops_only_what_crowds(sorted, min_interval, n);
    let kept = thinned(sorted, min_interval);
    let m = choose|m: int| 0 <= m < kept.len() && covers(#[trigger] kept[m], sorted[n], min_interval);
    let schedule = schedule_for(hazards, now, t_serialize, t_validate);
    assert(attends(schedule[m], entry.checkpoint_type, due, t_serialize));
}

/// The schedule follows each hazard up.
pub proof fn every_hazard_is_attended_to(
    hazards: Seq<HazardView>,
    now: UtcTime,
    t_serialize: Double,
    t_validate: Double,
)
    requires
        forall|i: int| 0 <= i < hazards.len() ==> read_back(#[trigger] hazards[i], now, t_serialize, t_validate),
    ensures
        followed_up(schedule_for(hazards, now, t_serialize, t_validate), hazards, t_serialize, t_validate),
{
    let schedule = schedule_for(hazards, now, t_serialize, t_validate);
    assert forall|i: int|
        0 <= i < hazards.len() && time::reading((#[trigger] hazards[i]).start_time) is Some && time::reading(
            hazards[i].end_time,
        ) is Some implies {
        let end = time::reading(hazards[i].end_time)->0;
        let ready = time::shifted(end, as_millis(t_validate))->0;
        &&& attended(schedule, CheckpointType::Validate, end, t_serialize)
        &&& hazards[i].recommended_action == RecommendedAction::CheckpointBeforeAndResumeAfter ==> attended(
            schedule,
            CheckpointType::Restore,
            ready,
            t_serialize,
        )
        &&& hazards[i].recommended_action == RecommendedAction::CheckpointAndEnableEcc ==> attended(
            schedule,
            CheckpointType::Restore,
            ready,
            t_serialize,
        )
    } by {
        let h = hazards[i];
        assert(read_back(h, now, t_serialize, t_validate));
        let end = time::reading(h.end_time)->0;
        let ready = time::shifted(end, as_millis(t_validate))->0;
        hazards_are_framed(h, now, t_serialize, t_validate);
        let saves = if save_time(time::reading(h.start_time)->0, t_serialize).later_than(now) { 1int } else { 0int };
        lemma_attended(hazards, now, t_serialize, t_validate, i, saves, end);
        if h.recommended_action == RecommendedAction::CheckpointBeforeAndResumeAfter || h.recommended_action
            == RecommendedAction::CheckpointAndEnableEcc {
            assert(resumes(h.recommended_action));
            lemma_attended(hazards, now, t_serialize, t_validate, i, saves + 1, ready);
        }
    }
}

/// Each checkpoint belongs around some hazard.
proof fn lemma_origin(
    hazards: Seq<HazardView>,
    now: UtcTime,
    t_serialize: Double,
    t_validate: Double,
    j: int,
) -> (i: int)
    requires
        0 <= j < all_entries(hazards, now, t_serialize, t_validate).len(),
    ensures
        0 <= i < hazards.len(),
        entries_around(hazards[i], now, t_serialize, t_validate).contains(
            all_entries(hazards, now, t_serialize, t_validate)[j],
        ),
    decreases hazards.len(),
{
    let rest = hazards.drop_last();
    let before = all_entries(rest, now, t_serialize, t_validate);
    let last = entries_around(hazards.last(), now, t_serialize, t_validate);
    let all = all_entries(hazards, now, t_serialize, t_validate);
    assert(all == before + last);
    if j < before.len() {
        let i = lemma_origin(rest, now, t_serialize, t_validate, j);
        assert(hazards[i] == rest[i]);
        assert(all[j] == before[j]);
        i
    } else {
        assert(all[j] == last[j - before.len()]);
        hazards.len() - 1
    }
}

/// The kept checkpoints that are no saves are as they were.
proof fn lemma_kept_whole(entries: Seq<EntryView>, min_interval: Double, k: int)
    requires
        forall|j: int| 0 <= j < entries.len() ==> ranked(#[trigger] entries[j]),
        0 <= k < thinned(entries, min_interval).len(),
    ensures
        ({
            let kept = thinned(entries, min_interval)[k];
            exists|j: int|
                0 <= j < entries.len() && (#[trigger] entries[j]).checkpoint_type == kept.checkpoint_type
                    && entries[j].time == kept.time && entries[j].estimated_duration_s == kept.estimated_duration_s && (
                kept.checkpoint_type != CheckpointType::Save ==> entries[j] == kept)
        }),
    decreases entries.len(),
{
    let rest = entries.drop_last();
    let n = entries.len() - 1;
    assert forall|j: int| 0 <= j < rest.len() implies ranked(#[trigger] rest[j]) by {
        assert(rest[j] == entries[j]);
    }
    lemma_thinned_are_ranked(rest, min_interval);
    let before = thinned(rest, min_interval);
    let after = thinned(entries, min_interval);
    assert(ranked(entries[n]));
    if k < before.len() {
        assert(ranked(before[k]));
        if after[k] != entries[n] {
            lemma_kept_whole(rest, min_interval, k);
            let j = choose|j: int|
                0 <= j < rest.len() && (#[trigger] rest[j]).checkpoint_type == before[k].checkpoint_type
                    && rest[j].time == before[k].time && rest[j].estimated_duration_s
                    == before[k].estimated_duration_s && (before[k].checkpoint_type != CheckpointType::Save
                    ==> rest[j] == before[k]);
            assert(entries[j] == rest[j]);
        }
    } else {
        assert(after[k] == entries[n]);
    }
}

/// The schedule holds nothing that no hazard calls for.
pub proof fn schedule_has_nothing_idle(
    hazards: Seq<HazardView>,
    now: UtcTime,
    t_serialize: Double,
    t_validate: Double,
)
    requires
        forall|i: int| 0 <= i < hazards.len() ==> read_back(#[trigger] hazards[i], now, t_serialize, t_validate),
    ensures
        nothing_idle(
            schedule_for(hazards, now, t_serialize, t_validate),
            hazards,
            now,
            t_serialize,
            t_validate,
        ),
{
    let schedule = schedule_for(hazards, now, t_serialize, t_validate);
    let all = all_entries(hazards, now, t_serialize, t_validate);
    let sorted = order::ordered(all, by_time());
    lemma_by_time();
    order::ordering_sorts(all, by_time());
    lemma_sorted_ranked(hazards, now, t_serialize, t_validate);
    let min_interval = double::product(t_serialize, double::ratio(5, 2));
    assert(schedule == thinned(sorted, min_interval));
    assert forall|m: int| 0 <= m < schedule.len() implies exists|i: int|
        0 <= i < hazards.len() && called_for(
            #[trigger] schedule[m],
            #[trigger] hazards[i],
            now,
            t_serialize,
            t_validate,
        ) by {
        let e = schedule[m];
        lemma_kept_whole(sorted, min_interval, m);
        let n = choose|n: int|
            0 <= n < sorted.len() && (#[trigger] sorted[n]).checkpoint_type == e.checkpoint_type && sorted[n].time
                == e.time && sorted[n].estimated_duration_s == e.estimated_duration_s && (e.checkpoint_type
                != CheckpointType::Save ==> sorted[n] == e);
        assert(all.contains(sorted[n]));
        let j = choose|j: int| 0 <= j < all.len() && all[j] == sorted[n];
        let i = lemma_origin(hazards, now, t_serialize, t_validate, j);
        let h = hazards[i];
        let around = entries_around(h, now, t_serialize, t_validate);
        let k = choose|k: int| 0 <= k < around.len() && around[k] == all[j];
        assert(read_back(h, now, t_serialize, t_validate));
        hazards_are_framed(h, now, t_serialize, t_validate);
        assert(called_for(e, h, now, t_serialize, t_validate));
    }
}

/// The save is as urgent as some hazard is grave and says that it is for one of its type,
/// and its deadline is the start of some hazard.
pub open spec fn speaks_of(e: EntryView, hazards: Seq<HazardView>) -> bool {
    &&& exists|i: int| 0 <= i < hazards.len() && #[trigger] is_for(e, hazards[i])
    &&& exists|i: int| 0 <= i < hazards.len() && e.deadline == Some((#[trigger] hazards[i]).start_time)
}

/// The save is as urgent as the hazard is grave, and says that it is for one of its type.
pub open spec fn is_for(e: EntryView, h: HazardView) -> bool {
    e.urgency == h.severity && e.reason == "Pre-"@ + hazard_name(h.hazard_type) + " checkpoint"@
}

/// Every save of a schedule has its urgency, its reason and its deadline from hazards.
pub proof fn saves_speak_of_hazards(
    hazards: Seq<HazardView>,
    now: UtcTime,
    t_serialize: Double,
    t_validate: Double,
    m: int,
)
    requires
        0 <= m < schedule_for(hazards, now, t_serialize, t_validate).len(),
        schedule_for(hazards, now, t_serialize, t_validate)[m].checkpoint_type == CheckpointType::Save,
    ensures
        speaks_of(schedule_for(hazards, now, t_serialize, t_validate)[m], hazards),
{
    let all = all_entries(hazards, now, t_serialize, t_validate);
    let sorted = order::ordered(all, by_time());
    lemma_by_time();
    order::ordering_sorts(all, by_time());
    assert forall|n: int|
        0 <= n < sorted.len() && (#[trigger] sorted[n]).checkpoint_type == CheckpointType::Save implies speaks_of(
        sorted[n],
        hazards,
    ) by {
        assert(all.contains(sorted[n]));
        let j = choose|j: int| 0 <= j < all.len() && all[j] == sorted[n];
        let i = lemma_origin(hazards, now, t_serialize, t_validate, j);
        let h = hazards[i];
        let around = entries_around(h, now, t_serialize, t_validate);
        let k = choose|k: int| 0 <= k < around.len() && around[k] == all[j];
        hazards_are_framed(h, now, t_serialize, t_validate);
        assert(is_for(sorted[n], hazards[i]));
        assert(sorted[n].deadline == Some(hazards[i].start_time));
    }
    lemma_kept_saves(sorted, double::product(t_serialize, double::ratio(5, 2)), hazards, m);
}

proof fn lemma_kept_saves(entries: Seq<EntryView>, min_interval: Double, hazards: Seq<HazardView>, k: int)
    requires
        forall|n: int|
            0 <= n < entries.len() && (#[trigger] entries[n]).checkpoint_type == CheckpointType::Save ==> speaks_of(
                entries[n],
                hazards,
            ),
        0 <= k < thinned(entries, min_interval).len(),
        thinned(entries, min_interval)[k].checkpoint_type == CheckpointType::Save,
    ensures
        speaks_of(thinned(entries, min_interval)[k], hazards),
    decreases entries.len(),
{
    let rest = entries.drop_last();
    let n = entries.len() - 1;
    assert forall|i: int|
        0 <= i < rest.len() && (#[trigger] rest[i]).checkpoint_type == CheckpointType::Save implies speaks_of(
        rest[i],
        hazards,
    ) by {
        assert(rest[i] == entries[i]);
    }
    let before = thinned(rest, min_interval);
    let after = thinned(entries, min_interval);
    let e = after[k];
    if k < before.len() {
        let was = before[k];
        assert(was.checkpoint_type == CheckpointType::Save);
        lemma_kept_saves(rest, min_interval, hazards, k);
        if e != was {
            assert(entries[n].checkpoint_type == CheckpointType::Save);
            assert(speaks_of(entries[n], hazards));
            let i = choose|i: int| 0 <= i < hazards.len() && #[trigger] is_for(entries[n], hazards[i]);
            assert(is_for(e, hazards[i]));
        }
    } else {
        assert(e == entries[n]);
    }
}

} // verus!
