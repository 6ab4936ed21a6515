//! Hazards put together, and the checkpoints around them.

use vstd::arithmetic::power2::{lemma2_to64, lemma2_to64_rest, lemma_pow2_pos, lemma_pow2_strictly_increases};
use vstd::prelude::*;

use super::follow_up;
use super::order::{self, sort_by_time, Timed};
use super::{
    checkpoint_word, hazard_list, hazard_name, severity_rank, severity_word, CheckpointType, Hazard, HazardView,
    RecommendedAction, Severity,
};
use crate::double::growth::{self, nearest_to};
use crate::double::model::{lemma_size_monotone, size, BINADE, UNIT_EXPONENT};
use crate::double::{self, Double};
use crate::json::{self, Json, JsonView};
use crate::text::{self, join, sorts_no_later};
use crate::time::{self, UtcTime};
use crate::types::{self, copy_text};

verus! {

impl Timed for Hazard {
    open spec fn no_later(self, other: Hazard) -> bool {
        text::text_at_most(self.start_time@, other.start_time@)
    }

    fn is_no_later(&self, other: &Hazard) -> (r: bool) {
        sorts_no_later(self.start_time.as_str(), other.start_time.as_str())
    }
}

/// The order in which hazards start.
pub open spec fn by_start() -> spec_fn(HazardView, HazardView) -> bool {
    |a: HazardView, b: HazardView| text::text_at_most(a.start_time, b.start_time)
}

pub proof fn lemma_by_start()
    ensures
        order::is_order(by_start()),
{
    let before = by_start();
    assert forall|a: HazardView, b: HazardView| #[trigger] before(a, b) || #[trigger] before(b, a) by {
        text::text_order_total(a.start_time, b.start_time);
    }
    assert forall|a: HazardView, b: HazardView, c: HazardView| #[trigger]
        before(a, b) && #[trigger] before(b, c) implies before(a, c) by {
        text::text_order_transitive(a.start_time, b.start_time, c.start_time);
    }
}

/// Two hazards of the same type, the second of which starts before the first
/// has ended.
pub open spec fn overlaps(current: HazardView, next: HazardView) -> bool {
    next.hazard_type == current.hazard_type && text::text_at_most(next.start_time, current.end_time)
}

/// The later of two times.
pub open spec fn later(a: Seq<char>, b: Seq<char>) -> Seq<char> {
    if text::text_at_most(b, a) {
        a
    } else {
        b
    }
}

/// The graver of two severities.
pub open spec fn graver(a: Severity, b: Severity) -> Severity {
    if severity_rank(b) > severity_rank(a) {
        b
    } else {
        a
    }
}

/// One hazard that covers both.
pub open spec fn joined(current: HazardView, next: HazardView) -> HazardView {
    let end_time = later(current.end_time, next.end_time);
    HazardView {
        end_time,
        duration_s: match (time::reading(current.start_time), time::reading(end_time)) {
            (Some(s), Some(e)) => double::integer(time::seconds_between(e, s)),
            _ => current.duration_s,
        },
        severity: graver(current.severity, next.severity),
        ..current
    }
}

/// Hazards with each run of overlapping ones joined.
pub open spec fn merged(hazards: Seq<HazardView>) -> Seq<HazardView>
    decreases hazards.len(),
{
    if hazards.len() == 0 {
        Seq::empty()
    } else {
        let before = merged(hazards.drop_last());
        let next = hazards.last();
        if before.len() > 0 && overlaps(before.last(), next) {
            before.drop_last().push(joined(before.last(), next))
        } else {
            before.push(next)
        }
    }
}

/// After merging no hazard overlaps the next.
pub proof fn merging_parts_neighbours(hazards: Seq<HazardView>)
    ensures
        forall|i: int, j: int|
            0 <= i && j == i + 1 && j < merged(hazards).len() ==> !overlaps(
                #[trigger] merged(hazards)[i],
                #[trigger] merged(hazards)[j],
            ),
    decreases hazards.len(),
{
    if hazards.len() > 0 {
        merging_parts_neighbours(hazards.drop_last());
        let before = merged(hazards.drop_last());
        let after = merged(hazards);
        assert forall|i: int, j: int| 0 <= i && j == i + 1 && j < after.len() implies !overlaps(
            #[trigger] after[i],
            #[trigger] after[j],
        ) by {
            if j < before.len() {
                assert(!overlaps(before[i], before[j]));
            }
        }
    }
}

/// `whole` takes in `part`: it is of the same type, starts no later, ends no
/// earlier and is no less grave.
pub open spec fn takes_in(whole: HazardView, part: HazardView) -> bool {
    &&& whole.hazard_type == part.hazard_type
    &&& text::text_at_most(whole.start_time, part.start_time)
    &&& text::text_at_most(part.end_time, whole.end_time)
    &&& severity_rank(part.severity) <= severity_rank(whole.severity)
}

/// Merging hazards that stand in order of their start loses none: each is taken
/// in by one of the merged ones.
pub proof fn merging_loses_nothing(hazards: Seq<HazardView>, i: int)
    requires
        order::is_ordered(hazards, by_start()),
        0 <= i < hazards.len(),
    ensures
        exists|k: int| 0 <= k < merged(hazards).len() && takes_in(#[trigger] merged(hazards)[k], hazards[i]),
    decreases hazards.len(),
{
    let rest = hazards.drop_last();
    let before = merged(rest);
    let after = merged(hazards);
    let next = hazards.last();
    lemma_merged_starts(hazards);
    assert(order::is_ordered(rest, by_start())) by {
        assert forall|a: int, b: int| 0 <= a <= b < rest.len() implies by_start()(
            #[trigger] rest[a],
            #[trigger] rest[b],
        ) by {
            assert(by_start()(hazards[a], hazards[b]));
        }
    }
    if before.len() > 0 {
        let current = before.last();
        text::text_order_reflexive(current.end_time);
        text::text_order_reflexive(current.start_time);
        text::text_order_reflexive(next.end_time);
        text::text_order_total(current.end_time, next.end_time);
    }
    if i == hazards.len() - 1 {
        text::text_order_reflexive(next.start_time);
        text::text_order_reflexive(next.end_time);
        let k = after.len() - 1;
        if before.len() > 0 && overlaps(before.last(), next) {
            lemma_merged_starts(rest);
            let j = choose|j: int| 0 <= j < rest.len() && (#[trigger] rest[j]).start_time == before.last().start_time;
            assert(by_start()(hazards[j], hazards[hazards.len() - 1]));
        }
        assert(takes_in(after[k], hazards[i]));
    } else {
        merging_loses_nothing(rest, i);
        assert(rest[i] == hazards[i]);
        let k = choose|k: int| 0 <= k < before.len() && takes_in(#[trigger] before[k], rest[i]);
        if k == before.len() - 1 && overlaps(before.last(), next) {
            let whole = after[k];
            text::text_order_transitive(hazards[i].end_time, before[k].end_time, whole.end_time);
            assert(takes_in(after[k], hazards[i]));
        } else {
            assert(after[k] == before[k]);
        }
    }
}

/// Each merged hazard starts with one of the hazards.
proof fn lemma_merged_starts(hazards: Seq<HazardView>)
    ensures
        forall|k: int|
            0 <= k < merged(hazards).len() ==> exists|j: int|
                0 <= j < hazards.len() && (#[trigger] hazards[j]).start_time == (#[trigger] merged(
                    hazards,
                )[k]).start_time,
        hazards.len() > 0 ==> merged(hazards).len() > 0,
    decreases hazards.len(),
{
    if hazards.len() > 0 {
        let rest = hazards.drop_last();
        let before = merged(rest);
        let after = merged(hazards);
        lemma_merged_starts(rest);
        assert forall|k: int| 0 <= k < after.len() implies exists|j: int|
            0 <= j < hazards.len() && (#[trigger] hazards[j]).start_time == (#[trigger] after[k]).start_time by {
            if k < before.len() {
                assert(after[k].start_time == before[k].start_time);
                let j = choose|j: int| 0 <= j < rest.len() && (#[trigger] rest[j]).start_time == before[k].start_time;
                assert(hazards[j] == rest[j]);
            } else {
                assert(hazards[hazards.len() - 1] == after[k]);
            }
        }
    }
}

/// Merging keeps hazards in order of their start.
pub proof fn merging_keeps_order(hazards: Seq<HazardView>)
    requires
        order::is_ordered(hazards, by_start()),
    ensures
        order::is_ordered(merged(hazards), by_start()),
    decreases hazards.len(),
{
    if hazards.len() > 0 {
        let by_start = by_start();
        let rest = hazards.drop_last();
        let before = merged(rest);
        let after = merged(hazards);
        let next = hazards.last();
        assert forall|a: int, b: int| 0 <= a <= b < rest.len() implies by_start(
            #[trigger] rest[a],
            #[trigger] rest[b],
        ) by {
            assert(by_start(hazards[a], hazards[b]));
        }
        merging_keeps_order(rest);
        lemma_merged_starts(rest);
        text::text_order_reflexive(next.start_time);
        assert forall|a: int, b: int| 0 <= a <= b < after.len() implies by_start(
            #[trigger] after[a],
            #[trigger] after[b],
        ) by {
            if b < before.len() {
                assert(after[a].start_time == before[a].start_time && after[b].start_time == before[b].start_time);
                assert(by_start(before[a], before[b]));
            } else if a < before.len() {
                let j = choose|j: int| 0 <= j < rest.len() && (#[trigger] rest[j]).start_time == before[a].start_time;
                assert(by_start(hazards[j], hazards[hazards.len() - 1]));
            }
        }
    }
}

/// The hazard starts where `start_ok` and ends where `end_ok`, as far as its times
/// can be read.
pub open spec fn times_within(
    h: HazardView,
    start_ok: spec_fn(UtcTime) -> bool,
    end_ok: spec_fn(UtcTime) -> bool,
) -> bool {
    &&& time::reading(h.start_time) matches Some(t) ==> start_ok(t)
    &&& time::reading(h.end_time) matches Some(t) ==> end_ok(t)
}

/// Merged hazards have times of the hazards.
pub proof fn lemma_merged_times(
    hazards: Seq<HazardView>,
    start_ok: spec_fn(UtcTime) -> bool,
    end_ok: spec_fn(UtcTime) -> bool,
)
    requires
        forall|i: int| 0 <= i < hazards.len() ==> times_within(#[trigger] hazards[i], start_ok, end_ok),
    ensures
        forall|k: int| 0 <= k < merged(hazards).len() ==> times_within(#[trigger] merged(hazards)[k], start_ok, end_ok),
    decreases hazards.len(),
{
    if hazards.len() > 0 {
        let rest = hazards.drop_last();
        assert forall|i: int| 0 <= i < rest.len() implies times_within(#[trigger] rest[i], start_ok, end_ok) by {
            assert(rest[i] == hazards[i]);
        }
        lemma_merged_times(rest, start_ok, end_ok);
        let before = merged(rest);
        let after = merged(hazards);
        assert(times_within(hazards[hazards.len() - 1], start_ok, end_ok));
        assert forall|k: int| 0 <= k < after.len() implies times_within(#[trigger] after[k], start_ok, end_ok) by {
            if k < before.len() {
                assert(times_within(before[k], start_ok, end_ok));
            }
        }
    }
}

fn join_hazards(current: Hazard, next: &Hazard) -> (r: Hazard)
    ensures
        r@ == joined(current@, next@),
{
    let mut current = current;
    if !sorts_no_later(next.end_time.as_str(), current.end_time.as_str()) {
        current.end_time = next.end_time.clone();
    }
    if let (Some(s), Some(e)) = (
        UtcTime::parse(current.start_time.as_str()),
        UtcTime::parse(current.end_time.as_str()),
    ) {
        let secs: i64 = e.seconds_since(s);
        current.duration_s = Double::from_i64(secs);
    }
    if next.severity.rank() > current.severity.rank() {
        current.severity = next.severity;
    }
    current
}

/// Joins hazards of the same type that follow and overlap each other.
pub fn merge_overlapping_hazards(hazards: Vec<Hazard>) -> (r: Vec<Hazard>)
    ensures
        hazard_list(r@) == merged(hazard_list(hazards@)),
{
    let ghost all = hazard_list(hazards@);
    let mut out: Vec<Hazard> = Vec::new();
    let mut i: usize = 0;
    proof {
        assert(all.take(0) =~= Seq::<HazardView>::empty());
        assert(hazard_list(out@) =~= Seq::<HazardView>::empty());
    }
    while i < hazards.len()
        invariant
            i <= hazards@.len(),
            all == hazard_list(hazards@),
            hazard_list(out@) == merged(all.take(i as int)),
        decreases hazards@.len() - i,
    {
        let next = &hazards[i];
        let ghost before = hazard_list(out@);
        proof {
            assert(all.take(i + 1).drop_last() =~= all.take(i as int));
            assert(all.take(i + 1).last() == next@);
        }
        match out.pop() {
            Some(current) => {
                assert(before.last() == current@);
                assert(hazard_list(out@) =~= before.drop_last());
                if next.hazard_type == current.hazard_type && sorts_no_later(
                    next.start_time.as_str(),
                    current.end_time.as_str(),
                ) {
                    let both = join_hazards(current, next);
                    let ghost view = both@;
                    out.push(both);
                    assert(hazard_list(out@) =~= before.drop_last().push(view));
                } else {
                    out.push(current);
                    out.push(next.copy());
                    assert(hazard_list(out@) =~= before.push(next@));
                }
            },
            None => {
                out.push(next.copy());
                assert(hazard_list(out@) =~= before.push(next@));
            },
        }
        i = i + 1;
    }
    assert(all.take(i as int) =~= all);
    out
}

/// A checkpoint that is to be taken.
#[derive(Debug, Clone)]
pub struct CheckpointEntry {
    pub time: String,
    pub checkpoint_type: CheckpointType,
    pub urgency: Severity,
    pub reason: String,
    pub deadline: Option<String>,
    pub estimated_duration_s: Double,
}

/// What a checkpoint says.
pub struct EntryView {
    pub time: Seq<char>,
    pub checkpoint_type: CheckpointType,
    pub urgency: Severity,
    pub reason: Seq<char>,
    pub deadline: Option<Seq<char>>,
    pub estimated_duration_s: Double,
}

impl CheckpointEntry {
    pub open spec fn view(self) -> EntryView {
        EntryView {
            time: self.time@,
            checkpoint_type: self.checkpoint_type,
            urgency: self.urgency,
            reason: self.reason@,
            deadline: types::optional(self.deadline),
            estimated_duration_s: self.estimated_duration_s,
        }
    }
}

/// What a list of checkpoints says.
pub open spec fn entry_list(entries: Seq<CheckpointEntry>) -> Seq<EntryView> {
    entries.map_values(|e: CheckpointEntry| e@)
}

/// An instant is no later than another; what cannot be read comes first.
pub open spec fn instant_no_later(a: Option<UtcTime>, b: Option<UtcTime>) -> bool {
    match (a, b) {
        (Some(s), Some(t)) => !s.later_than(t),
        (Some(_), None) => false,
        (None, _) => true,
    }
}

impl Timed for CheckpointEntry {
    open spec fn no_later(self, other: CheckpointEntry) -> bool {
        instant_no_later(time::reading(self.time@), time::reading(other.time@))
    }

    fn is_no_later(&self, other: &CheckpointEntry) -> (r: bool) {
        match (UtcTime::parse(self.time.as_str()), UtcTime::parse(other.time.as_str())) {
            (Some(a), Some(b)) => !a.is_after(b),
            (Some(_), None) => false,
            (None, _) => true,
        }
    }
}

/// The order in which checkpoints are due.
pub open spec fn by_time() -> spec_fn(EntryView, EntryView) -> bool {
    |a: EntryView, b: EntryView| instant_no_later(time::reading(a.time), time::reading(b.time))
}

pub proof fn lemma_by_time()
    ensures
        order::is_order(by_time()),
{
}

/// The JSON form of a checkpoint: a deadline only where there is one.
pub open spec fn entry_form(e: EntryView) -> JsonView {
    let what = json::with_field(
        json::with_field(
            json::with_field(
                json::with_field(
                    JsonView::Object(Map::empty()),
                    "time"@,
                    JsonView::Text(e.time),
                ),
                "checkpoint_type"@,
                JsonView::Text(checkpoint_word(e.checkpoint_type)),
            ),
            "urgency"@,
            JsonView::Text(severity_word(e.urgency)),
        ),
        "reason"@,
        JsonView::Text(e.reason),
    );
    let limited = match e.deadline {
        Some(d) => json::with_field(what, "deadline"@, JsonView::Text(d)),
        None => what,
    };
    json::with_field(limited, "estimated_duration_s"@, json::number_view(e.estimated_duration_s))
}

/// The JSON form of a list of checkpoints.
pub open spec fn schedule_form(entries: Seq<EntryView>) -> JsonView {
    JsonView::Array(entries.map_values(|e: EntryView| entry_form(e)))
}

impl CheckpointEntry {
    /// The checkpoint as JSON.
    pub fn to_json(&self) -> (r: Json)
        ensures
            r@ == entry_form(self@),
    {
        let mut form = Json::object();
        form.set("time", Json::text(self.time.as_str()));
        form.set("checkpoint_type", Json::text(self.checkpoint_type.word()));
        form.set("urgency", Json::text(self.urgency.word()));
        form.set("reason", Json::text(self.reason.as_str()));
        if let Some(d) = &self.deadline {
            form.set("deadline", Json::text(d.as_str()));
        }
        form.set("estimated_duration_s", Json::number(self.estimated_duration_s));
        form
    }

    /// A copy of the checkpoint.
    pub fn copy(&self) -> (r: CheckpointEntry)
        ensures
            r@ == self@,
    {
        CheckpointEntry {
            time: self.time.clone(),
            checkpoint_type: self.checkpoint_type,
            urgency: self.urgency,
            reason: self.reason.clone(),
            deadline: copy_text(&self.deadline),
            estimated_duration_s: self.estimated_duration_s,
        }
    }
}

/// A list of checkpoints as JSON.
pub(crate) fn schedule_json(entries: &Vec<CheckpointEntry>) -> (r: Json)
    ensures
        r@ == schedule_form(entry_list(entries@)),
{
    let ghost forms = entry_list(entries@).map_values(|e: EntryView| entry_form(e));
    let mut items: Vec<Json> = Vec::new();
    let mut i: usize = 0;
    assert(json::array_view(items@) =~= forms.take(0));
    while i < entries.len()
        invariant
            i <= entries@.len(),
            forms == entry_list(entries@).map_values(|e: EntryView| entry_form(e)),
            json::array_view(items@) == forms.take(i as int),
        decreases entries@.len() - i,
    {
        let item = entries[i].to_json();
        proof {
            json::lemma_array_push(items@, item);
            assert(forms.take(i + 1) =~= forms.take(i as int).push(item@));
        }
        items.push(item);
        i = i + 1;
    }
    assert(forms.take(i as int) =~= forms);
    Json::list(items)
}

/// Seconds in milliseconds, cut to the range of the calendar's durations.
pub open spec fn as_millis(seconds: Double) -> int {
    double::truncated(double::product(seconds, double::integer(1000)), i64::MIN as int, i64::MAX as int)
}

/// The seconds by which a prediction may be off, 4.5.
pub open spec fn safety_margin_s() -> Double {
    double::ratio(45, 10)
}

/// How long before a hazard its checkpoint is taken: the time to write the state
/// and the margin.
pub open spec fn lead_millis(t_serialize: Double) -> int {
    as_millis(double::sum(t_serialize, safety_margin_s()))
}

/// Computation resumes after the hazard.
pub open spec fn resumes(action: RecommendedAction) -> bool {
    action == RecommendedAction::CheckpointBeforeAndResumeAfter || action
        == RecommendedAction::CheckpointAndEnableEcc
}

/// The state is saved before the hazard.
pub open spec fn save_entry(h: HazardView, at: UtcTime, t_serialize: Double) -> EntryView {
    EntryView {
        time: time::stamp(at),
        checkpoint_type: CheckpointType::Save,
        urgency: h.severity,
        reason: "Pre-"@ + hazard_name(h.hazard_type) + " checkpoint"@,
        deadline: Some(h.start_time),
        estimated_duration_s: t_serialize,
    }
}

/// The state is validated after the hazard.
pub open spec fn validate_entry(h: HazardView, at: UtcTime, t_validate: Double) -> EntryView {
    EntryView {
        time: time::stamp(at),
        checkpoint_type: CheckpointType::Validate,
        urgency: Severity::Low,
        reason: "Post-"@ + hazard_name(h.hazard_type) + " state validation"@,
        deadline: None,
        estimated_duration_s: t_validate,
    }
}

/// The state is restored once it is validated.
pub open spec fn restore_entry(h: HazardView, at: UtcTime, t_serialize: Double) -> EntryView {
    EntryView {
        time: time::stamp(at),
        checkpoint_type: CheckpointType::Restore,
        urgency: Severity::Moderate,
        reason: "Post-"@ + hazard_name(h.hazard_type) + " state restoration"@,
        deadline: None,
        estimated_duration_s: t_serialize,
    }
}

/// The checkpoints around one hazard: a save, if there is still time for it, a
/// validation, and a restoration where computation resumes. A hazard whose times
/// cannot be read has none.
pub open spec fn entries_around(
    h: HazardView,
    now: UtcTime,
    t_serialize: Double,
    t_validate: Double,
) -> Seq<EntryView> {
    match (time::reading(h.start_time), time::reading(h.end_time)) {
        (Some(start), Some(end)) => {
            let save = save_time(start, t_serialize);
            let before = if save.later_than(now) {
                seq![save_entry(h, save, t_serialize)]
            } else {
                Seq::empty()
            };
            let with_validation = before.push(validate_entry(h, end, t_validate));
            if resumes(h.recommended_action) {
                with_validation.push(
                    restore_entry(h, time::shifted(end, as_millis(t_validate))->0, t_serialize),
                )
            } else {
                with_validation
            }
        },
        _ => Seq::empty(),
    }
}

/// The checkpoints around all hazards, hazard by hazard.
pub open spec fn all_entries(
    hazards: Seq<HazardView>,
    now: UtcTime,
    t_serialize: Double,
    t_validate: Double,
) -> Seq<EntryView>
    decreases hazards.len(),
{
    if hazards.len() == 0 {
        Seq::empty()
    } else {
        all_entries(hazards.drop_last(), now, t_serialize, t_validate) + entries_around(
            hazards.last(),
            now,
            t_serialize,
            t_validate,
        )
    }
}

/// Two checkpoints of the same type follow each other too closely for both.
pub open spec fn crowds(previous: EntryView, entry: EntryView, min_interval: Double) -> bool {
    match (time::reading(previous.time), time::reading(entry.time)) {
        (Some(p), Some(e)) => {
            let gap_s = double::quotient(double::integer(time::millis_between(e, p)), double::integer(1000));
            double::less(gap_s, min_interval) && previous.checkpoint_type == entry.checkpoint_type
        },
        _ => false,
    }
}

/// The earlier of two deadlines, where there are both.
pub open spec fn earlier_deadline(a: Option<Seq<char>>, b: Option<Seq<char>>) -> Option<Seq<char>> {
    match (a, b) {
        (Some(s), Some(t)) => if instant_no_later(time::reading(s), time::reading(t)) {
            a
        } else {
            b
        },
        (Some(_), None) => a,
        (None, _) => b,
    }
}

/// When a checkpoint is to be done, where it has a deadline that can be read.
pub open spec fn limit_of(e: EntryView) -> Option<UtcTime> {
    match e.deadline {
        Some(d) => time::reading(d),
        None => None,
    }
}

/// The earlier of two limits, where there are both.
pub open spec fn sooner(a: Option<UtcTime>, b: Option<UtcTime>) -> Option<UtcTime> {
    match (a, b) {
        (Some(s), Some(t)) => if s.later_than(t) { b } else { a },
        (Some(_), None) => a,
        (None, _) => b,
    }
}

/// The checkpoint is done no later than the limit, where there is one.
#[verifier::opaque]
pub open spec fn done_by(e: EntryView, limit: Option<UtcTime>) -> bool {
    limit matches Some(l) ==> {
        &&& time::reading(e.time) matches Some(t) && time::shifted(t, as_millis(e.estimated_duration_s)) matches Some(
            done,
        ) && !done.later_than(l)
    }
}

/// One checkpoint in place of two of the same type: the more urgent one. Where it
/// is not done by the limit that the first one stands for, it is taken when the
/// first is due, and by the earlier deadline.
pub open spec fn combined(first: EntryView, second: EntryView, limit: Option<UtcTime>) -> EntryView {
    if severity_rank(second.urgency) <= severity_rank(first.urgency) {
        first
    } else if done_by(second, limit) {
        second
    } else {
        EntryView {
            urgency: second.urgency,
            reason: second.reason,
            deadline: earlier_deadline(first.deadline, second.deadline),
            ..first
        }
    }
}

/// Checkpoints as far as they are thinned, and the limit that the last of them
/// stands for: the earliest of its own and of those whose place it takes.
pub struct Thinning {
    pub kept: Seq<EntryView>,
    pub limit: Option<UtcTime>,
}

/// Thins checkpoints: each that crowds the one before it is combined with that.
pub open spec fn thinning(entries: Seq<EntryView>, min_interval: Double) -> Thinning
    decreases entries.len(),
{
    if entries.len() == 0 {
        Thinning { kept: Seq::empty(), limit: None }
    } else {
        let before = thinning(entries.drop_last(), min_interval);
        let entry = entries.last();
        if before.kept.len() > 0 && crowds(before.kept.last(), entry, min_interval) {
            Thinning {
                kept: before.kept.drop_last().push(combined(before.kept.last(), entry, before.limit)),
                limit: sooner(before.limit, limit_of(entry)),
            }
        } else {
            Thinning { kept: before.kept.push(entry), limit: limit_of(entry) }
        }
    }
}

/// Checkpoints, each that crowds the one before it combined with that.
pub open spec fn thinned(entries: Seq<EntryView>, min_interval: Double) -> Seq<EntryView> {
    thinning(entries, min_interval).kept
}

/// The shortest interval between two checkpoints of one type, in seconds: two and
/// a half times what it takes to write the state.
pub open spec fn min_interval_s(t_serialize: Double) -> Double {
    double::product(t_serialize, double::ratio(5, 2))
}

/// The checkpoint schedule for the hazards ahead.
pub open spec fn schedule_for(
    hazards: Seq<HazardView>,
    now: UtcTime,
    t_serialize: Double,
    t_validate: Double,
) -> Seq<EntryView> {
    thinned(
        order::ordered(all_entries(hazards, now, t_serialize, t_validate), by_time()),
        min_interval_s(t_serialize),
    )
}

/// Some of `entries` has the type of `kept` and is due when it is.
pub open spec fn due_among(entries: Seq<EntryView>, kept: EntryView) -> bool {
    exists|j: int| 0 <= j < entries.len() && #[trigger] due_together(entries[j], kept)
}

/// Two checkpoints of the same type are due at the same time and take as long.
pub open spec fn due_together(a: EntryView, b: EntryView) -> bool {
    &&& a.time == b.time
    &&& a.checkpoint_type == b.checkpoint_type
    &&& a.estimated_duration_s == b.estimated_duration_s
}

proof fn lemma_due_among_more(entries: Seq<EntryView>, kept: EntryView)
    requires
        entries.len() > 0,
        due_among(entries.drop_last(), kept),
    ensures
        due_among(entries, kept),
{
    let rest = entries.drop_last();
    let j = choose|j: int| 0 <= j < rest.len() && #[trigger] due_together(rest[j], kept);
    assert(due_together(entries[j], kept));
}

/// Thinning keeps checkpoints in order of time, and none is due when there was
/// none of its type.
pub proof fn thinning_keeps_order(entries: Seq<EntryView>, min_interval: Double)
    requires
        order::is_ordered(entries, by_time()),
    ensures
        order::is_ordered(thinned(entries, min_interval), by_time()),
        forall|k: int|
            0 <= k < thinned(entries, min_interval).len() ==> due_among(
                entries,
                #[trigger] thinned(entries, min_interval)[k],
            ),
        forall|k: int|
            0 <= k < thinned(entries, min_interval).len() ==> by_time()(
                #[trigger] thinned(entries, min_interval)[k],
                entries.last(),
            ),
        thinned(entries, min_interval).len() <= entries.len(),
    decreases entries.len(),
{
    if entries.len() > 0 {
        let by_time = by_time();
        let rest = entries.drop_last();
        let before = thinned(rest, min_interval);
        let after = thinned(entries, min_interval);
        let entry = entries.last();
        lemma_rest_is_ordered(entries);
        thinning_keeps_order(rest, min_interval);
        assert forall|k: int| 0 <= k < before.len() implies by_time(#[trigger] before[k], entry) by {
            assert(due_among(rest, before[k]));
            let j = choose|j: int| 0 <= j < rest.len() && #[trigger] due_together(rest[j], before[k]);
            assert(by_time(entries[j], entries[entries.len() - 1]));
        }
        assert(by_time(entry, entry));
        assert forall|k: int| 0 <= k < after.len() implies due_among(entries, #[trigger] after[k]) by {
            if k < before.len() && after[k].time == before[k].time && due_together(before[k], after[k]) {
                assert(due_among(rest, before[k]));
                let j = choose|j: int| 0 <= j < rest.len() && #[trigger] due_together(rest[j], before[k]);
                assert(due_together(rest[j], after[k]));
                lemma_due_among_more(entries, after[k]);
            } else {
                assert(due_together(entries[entries.len() - 1], after[k]));
            }
        }
        assert forall|a: int, b: int| 0 <= a <= b < after.len() implies by_time(
            #[trigger] after[a],
            #[trigger] after[b],
        ) by {
            if b < after.len() - 1 {
                assert(by_time(before[a], before[b]));
            } else if a < b {
                assert(by_time(before[a], entry));
                if b < before.len() {
                    assert(by_time(before[a], before[b]));
                }
            }
        }
    }
}

pub proof fn lemma_rest_is_ordered(entries: Seq<EntryView>)
    requires
        entries.len() > 0,
        order::is_ordered(entries, by_time()),
    ensures
        order::is_ordered(entries.drop_last(), by_time()),
{
    let rest = entries.drop_last();
    assert forall|a: int, b: int| 0 <= a <= b < rest.len() implies by_time()(
        #[trigger] rest[a],
        #[trigger] rest[b],
    ) by {
        assert(by_time()(entries[a], entries[b]));
    }
}

/// A checkpoint that is not a save has the urgency of its type, and no deadline.
pub open spec fn ranked(e: EntryView) -> bool {
    match e.checkpoint_type {
        CheckpointType::Save => true,
        CheckpointType::Validate => e.urgency == Severity::Low && e.deadline is None,
        CheckpointType::Restore => e.urgency == Severity::Moderate && e.deadline is None,
    }
}

/// The time of a save can be read, and lies in no leap second.
pub open spec fn plainly_timed(e: EntryView) -> bool {
    e.checkpoint_type == CheckpointType::Save ==> (time::reading(e.time) matches Some(t) && t.valid() && !t.leap())
}

pub proof fn lemma_thinned_are_ranked(entries: Seq<EntryView>, min_interval: Double)
    requires
        forall|i: int| 0 <= i < entries.len() ==> ranked(#[trigger] entries[i]),
    ensures
        forall|k: int| 0 <= k < thinned(entries, min_interval).len() ==> ranked(
            #[trigger] thinned(entries, min_interval)[k],
        ),
    decreases entries.len(),
{
    if entries.len() > 0 {
        let rest = entries.drop_last();
        assert forall|i: int| 0 <= i < rest.len() implies ranked(#[trigger] rest[i]) by {
            assert(rest[i] == entries[i]);
        }
        lemma_thinned_are_ranked(rest, min_interval);
        let before = thinned(rest, min_interval);
        let after = thinned(entries, min_interval);
        assert(ranked(entries[entries.len() - 1]));
        assert forall|k: int| 0 <= k < after.len() implies ranked(#[trigger] after[k]) by {
            if k < before.len() {
                assert(ranked(before[k]));
            }
        }
    }
}

/// A longer way back in time crowds no more.
proof fn lemma_later_crowds_less(previous: EntryView, first: EntryView, second: EntryView, min_interval: Double)
    requires
        plainly_timed(previous),
        plainly_timed(first),
        plainly_timed(second),
        previous.checkpoint_type == CheckpointType::Save,
        first.checkpoint_type == CheckpointType::Save,
        second.checkpoint_type == CheckpointType::Save,
        by_time()(first, second),
        !crowds(previous, first, min_interval),
    ensures
        !crowds(previous, second, min_interval),
{
    let p = time::reading(previous.time)->0;
    let a = time::reading(first.time)->0;
    let b = time::reading(second.time)->0;
    let (m, n) = (time::millis_between(a, p), time::millis_between(b, p));
    assert(time::nanos_between(a, p) <= time::nanos_between(b, p));
    assert(m <= n);
    growth::integers_keep_order(m, n);
    double::integers_are_finite(m);
    double::integers_are_finite(n);
    double::integers_are_finite(1000);
    growth::quotients_grow(double::integer(m), double::integer(n), double::integer(1000));
    reveal(double::less);
    reveal(double::at_most);
}

/// After thinning no checkpoint crowds the one before it.
pub proof fn thinning_parts_neighbours(entries: Seq<EntryView>, min_interval: Double)
    requires
        order::is_ordered(entries, by_time()),
        forall|i: int| 0 <= i < entries.len() ==> ranked(#[trigger] entries[i]) && plainly_timed(entries[i]),
    ensures
        forall|i: int, j: int|
            0 <= i && j == i + 1 && j < thinned(entries, min_interval).len() ==> !crowds(
                #[trigger] thinned(entries, min_interval)[i],
                #[trigger] thinned(entries, min_interval)[j],
                min_interval,
            ),
    decreases entries.len(),
{
    if entries.len() > 0 {
        let rest = entries.drop_last();
        let entry = entries.last();
        assert forall|i: int| 0 <= i < rest.len() implies ranked(#[trigger] rest[i]) && plainly_timed(rest[i]) by {
            assert(rest[i] == entries[i]);
        }
        lemma_rest_is_ordered(entries);
        thinning_parts_neighbours(rest, min_interval);
        thinning_keeps_order(rest, min_interval);
        thinning_keeps_order(entries, min_interval);
        lemma_thinned_are_ranked(rest, min_interval);
        let before = thinned(rest, min_interval);
        let after = thinned(entries, min_interval);
        assert(ranked(entries[entries.len() - 1]) && plainly_timed(entries[entries.len() - 1]));
        assert forall|k: int| 0 <= k < before.len() implies plainly_timed(#[trigger] before[k]) && by_time()(
            before[k],
            entry,
        ) by {
            assert(due_among(rest, before[k]));
            let j = choose|j: int| 0 <= j < rest.len() && #[trigger] due_together(rest[j], before[k]);
            assert(plainly_timed(rest[j]));
            assert(by_time()(entries[j], entries[entries.len() - 1]));
        }
        assert forall|i: int, j: int| 0 <= i && j == i + 1 && j < after.len() implies !crowds(
            #[trigger] after[i],
            #[trigger] after[j],
            min_interval,
        ) by {
            if j < before.len() {
                assert(!crowds(before[i], before[j], min_interval));
                if after[j].time != before[j].time {
                    // A more urgent save took the place of another.
                    assert(after[j] == entry);
                    assert(ranked(before[j]));
                    assert(before[j].checkpoint_type == CheckpointType::Save);
                    if before[i].checkpoint_type == CheckpointType::Save {
                        lemma_later_crowds_less(before[i], before[j], entry, min_interval);
                    }
                }
            }
        }
    }
}

/// Thinning leaves a stand-in for each checkpoint: one of the same type that is no
/// less urgent and, unless it is a save, due no later.
pub proof fn thinning_leaves_a_stand_in(entries: Seq<EntryView>, min_interval: Double, i: int)
    requires
        order::is_ordered(entries, by_time()),
        forall|j: int| 0 <= j < entries.len() ==> ranked(#[trigger] entries[j]),
        0 <= i < entries.len(),
    ensures
        exists|k: int|
            0 <= k < thinned(entries, min_interval).len() && stands_in(
                #[trigger] thinned(entries, min_interval)[k],
                entries[i],
            ),
    decreases entries.len(),
{
    let rest = entries.drop_last();
    let before = thinned(rest, min_interval);
    let after = thinned(entries, min_interval);
    let entry = entries.last();
    lemma_rest_is_ordered(entries);
    assert forall|j: int| 0 <= j < rest.len() implies ranked(#[trigger] rest[j]) by {
        assert(rest[j] == entries[j]);
    }
    lemma_thinned_are_ranked(rest, min_interval);
    thinning_keeps_order(entries, min_interval);
    assert(ranked(entries[entries.len() - 1]));
    if before.len() > 0 {
        assert(ranked(before[before.len() - 1]));
    }
    if i == entries.len() - 1 {
        assert(by_time()(after[after.len() - 1], entries[i]));
        assert(stands_in(after[after.len() - 1], entries[i]));
    } else {
        thinning_leaves_a_stand_in(rest, min_interval, i);
        assert(rest[i] == entries[i]);
        let k = choose|k: int| 0 <= k < before.len() && stands_in(#[trigger] before[k], rest[i]);
        assert(ranked(before[k]));
        assert(stands_in(after[k], entries[i]));
    }
}

/// `a` can do what `b` is for.
pub open spec fn stands_in(a: EntryView, b: EntryView) -> bool {
    &&& a.checkpoint_type == b.checkpoint_type
    &&& severity_rank(a.urgency) >= severity_rank(b.urgency)
    &&& a.checkpoint_type == CheckpointType::Save || by_time()(a, b)
}

/// Of any two checkpoints of a type, the one that is due no later is done by the
/// limit of the other.
pub open spec fn in_good_time(entries: Seq<EntryView>) -> bool {
    forall|i: int, j: int|
        0 <= i < entries.len() && 0 <= j < entries.len() && (#[trigger] entries[i]).checkpoint_type == (
        #[trigger] entries[j]).checkpoint_type && by_time()(entries[i], entries[j]) ==> done_by(
            entries[i],
            limit_of(entries[j]),
        )
}

/// The checkpoint `k` of a thinning does what `e` is for, by the limit of `e`.
pub open spec fn stands_in_time(t: Thinning, k: int, e: EntryView) -> bool {
    &&& t.kept[k].checkpoint_type == e.checkpoint_type
    &&& severity_rank(t.kept[k].urgency) >= severity_rank(e.urgency)
    &&& done_by(t.kept[k], limit_of(e))
    &&& k == t.kept.len() - 1 ==> no_later_limit(t.limit, limit_of(e))
}

/// The first limit is met no later than the second has to be.
pub open spec fn no_later_limit(a: Option<UtcTime>, b: Option<UtcTime>) -> bool {
    b matches Some(t) ==> a matches Some(s) && !s.later_than(t)
}

proof fn lemma_rest_in_good_time(entries: Seq<EntryView>)
    requires
        entries.len() > 0,
        in_good_time(entries),
    ensures
        in_good_time(entries.drop_last()),
{
    let rest = entries.drop_last();
    assert forall|i: int, j: int|
        0 <= i < rest.len() && 0 <= j < rest.len() && (#[trigger] rest[i]).checkpoint_type == (
        #[trigger] rest[j]).checkpoint_type && by_time()(rest[i], rest[j]) implies done_by(
        rest[i],
        limit_of(rest[j]),
    ) by {
        assert(entries[i].checkpoint_type == entries[j].checkpoint_type);
    }
}

/// The last checkpoint of a thinning is done by the limit that it stands for.
proof fn lemma_last_is_done(entries: Seq<EntryView>, min_interval: Double)
    requires
        order::is_ordered(entries, by_time()),
        in_good_time(entries),
        entries.len() > 0,
    ensures
        ({
            let t = thinning(entries, min_interval);
            t.kept.len() > 0 && done_by(t.kept.last(), t.limit)
        }),
    decreases entries.len(),
{
    let rest = entries.drop_last();
    let entry = entries.last();
    let n = entries.len() - 1;
    assert(by_time()(entries[n], entries[n]));
    assert(done_by(entries[n], limit_of(entries[n])));
    if rest.len() > 0 {
        lemma_rest_is_ordered(entries);
        lemma_rest_in_good_time(entries);
        lemma_last_is_done(rest, min_interval);
        thinning_keeps_order(rest, min_interval);
        let before = thinning(rest, min_interval);
        let first = before.kept.last();
        if crowds(first, entry, min_interval) {
            assert(due_among(rest, before.kept[before.kept.len() - 1]));
            let j = choose|j: int| 0 <= j < rest.len() && #[trigger] due_together(rest[j], first);
            assert(entries[j] == rest[j]);
            assert(by_time()(entries[j], entries[n]));
            assert(entries[j].checkpoint_type == entries[n].checkpoint_type);
            assert(done_by(entries[j], limit_of(entries[n])));
            lemma_done_together(entries[j], first, limit_of(entry));
            let both = combined(first, entry, before.limit);
            if due_together(first, both) {
                lemma_done_together(first, both, limit_of(entry));
                lemma_done_together(first, both, before.limit);
            }
            lemma_sooner(both, before.limit, limit_of(entry));
        }
    }
}

/// Thinning leaves for each checkpoint one of the same type that is no less urgent
/// and done by its limit.
pub proof fn thinning_keeps_limits(entries: Seq<EntryView>, min_interval: Double, i: int)
    requires
        order::is_ordered(entries, by_time()),
        in_good_time(entries),
        0 <= i < entries.len(),
    ensures
        ({
            let t = thinning(entries, min_interval);
            exists|k: int| 0 <= k < t.kept.len() && #[trigger] stands_in_time(t, k, entries[i])
        }),
    decreases entries.len(),
{
    let rest = entries.drop_last();
    let entry = entries.last();
    let before = thinning(rest, min_interval);
    let after = thinning(entries, min_interval);
    let last = after.kept.len() - 1;
    lemma_last_is_done(entries, min_interval);
    if i == entries.len() - 1 {
        assert(no_later_limit(after.limit, limit_of(entries[i])));
        lemma_limits(after.kept[last], after.limit, limit_of(entries[i]));
        assert(stands_in_time(after, last, entries[i]));
    } else {
        lemma_rest_is_ordered(entries);
        lemma_rest_in_good_time(entries);
        thinning_keeps_limits(rest, min_interval, i);
        assert(rest[i] == entries[i]);
        let k = choose|k: int| 0 <= k < before.kept.len() && #[trigger] stands_in_time(before, k, rest[i]);
        if after.kept.len() == before.kept.len() && k == last {
            assert(no_later_limit(after.limit, limit_of(entries[i])));
            lemma_limits(after.kept[last], after.limit, limit_of(entries[i]));
            assert(stands_in_time(after, last, entries[i]));
        } else {
            assert(after.kept[k] == before.kept[k]);
            assert(stands_in_time(after, k, entries[i]));
        }
    }
}

/// What is done by two limits is done by the earlier.
proof fn lemma_sooner(e: EntryView, a: Option<UtcTime>, b: Option<UtcTime>)
    requires
        done_by(e, a),
        done_by(e, b),
    ensures
        done_by(e, sooner(a, b)),
{
    reveal(done_by);
}

/// What is done by a limit is done by a later one.
proof fn lemma_limits(e: EntryView, a: Option<UtcTime>, b: Option<UtcTime>)
    requires
        done_by(e, a),
        no_later_limit(a, b),
    ensures
        done_by(e, b),
{
    reveal(done_by);
}

/// Checkpoints that are due together are done together.
proof fn lemma_done_together(a: EntryView, b: EntryView, limit: Option<UtcTime>)
    requires
        due_together(a, b),
    ensures
        done_by(a, limit) == done_by(b, limit),
{
    reveal(done_by);
}

proof fn lemma_entries_listed(
    hazards: Seq<HazardView>,
    now: UtcTime,
    t_serialize: Double,
    t_validate: Double,
    i: int,
    k: int,
)
    requires
        0 <= i < hazards.len(),
        0 <= k < entries_around(hazards[i], now, t_serialize, t_validate).len(),
    ensures
        all_entries(hazards, now, t_serialize, t_validate).contains(
            entries_around(hazards[i], now, t_serialize, t_validate)[k],
        ),
    decreases hazards.len(),
{
    let rest = hazards.drop_last();
    let before = all_entries(rest, now, t_serialize, t_validate);
    let all = all_entries(hazards, now, t_serialize, t_validate);
    let entry = entries_around(hazards[i], now, t_serialize, t_validate)[k];
    if i == hazards.len() - 1 {
        assert(all[before.len() + k] == entry);
    } else {
        assert(rest[i] == hazards[i]);
        lemma_entries_listed(rest, now, t_serialize, t_validate, i, k);
        let j = choose|j: int| 0 <= j < before.len() && before[j] == entry;
        assert(all[j] == entry);
    }
}

/// Checkpoints that are not saves are of one urgency each and have no deadline; a
/// save is the save of some hazard.
pub proof fn lemma_entries_ranked(
    hazards: Seq<HazardView>,
    now: UtcTime,
    t_serialize: Double,
    t_validate: Double,
    j: int,
)
    requires
        0 <= j < all_entries(hazards, now, t_serialize, t_validate).len(),
    ensures
        ranked(all_entries(hazards, now, t_serialize, t_validate)[j]),
        all_entries(hazards, now, t_serialize, t_validate)[j].checkpoint_type == CheckpointType::Save ==> exists|i: int|
            0 <= i < hazards.len() && can_be_prepared_for(#[trigger] hazards[i], now, t_serialize) && all_entries(
                hazards,
                now,
                t_serialize,
                t_validate,
            )[j] == save_entry(
                hazards[i],
                save_time(time::reading(hazards[i].start_time)->0, t_serialize),
                t_serialize,
            ),
    decreases hazards.len(),
{
    let rest = hazards.drop_last();
    let before = all_entries(rest, now, t_serialize, t_validate);
    let last = entries_around(hazards.last(), now, t_serialize, t_validate);
    let all = all_entries(hazards, now, t_serialize, t_validate);
    assert(all == before + last);
    if j < before.len() {
        assert(all[j] == before[j]);
        lemma_entries_ranked(rest, now, t_serialize, t_validate, j);
        if all[j].checkpoint_type == CheckpointType::Save {
            let i = choose|i: int|
                0 <= i < rest.len() && can_be_prepared_for(#[trigger] rest[i], now, t_serialize) && before[j]
                    == save_entry(
                    rest[i],
                    save_time(time::reading(rest[i].start_time)->0, t_serialize),
                    t_serialize,
                );
            assert(hazards[i] == rest[i]);
        }
    } else {
        assert(all[j] == last[j - before.len()]);
        let i = hazards.len() - 1;
        assert(hazards[i] == hazards.last());
        if time::reading(hazards[i].start_time) is Some && time::reading(hazards[i].end_time) is Some {
            hazards_are_framed(hazards[i], now, t_serialize, t_validate);
        }
        if all[j].checkpoint_type == CheckpointType::Save {
            assert(can_be_prepared_for(hazards[i], now, t_serialize));
        }
    }
}

/// The checkpoints in order of time are ranked.
pub proof fn lemma_sorted_ranked(hazards: Seq<HazardView>, now: UtcTime, t_serialize: Double, t_validate: Double)
    ensures
        ({
            let sorted = order::ordered(all_entries(hazards, now, t_serialize, t_validate), by_time());
            &&& order::is_ordered(sorted, by_time())
            &&& forall|n: int| 0 <= n < sorted.len() ==> ranked(#[trigger] sorted[n])
        }),
{
    let all = all_entries(hazards, now, t_serialize, t_validate);
    let sorted = order::ordered(all, by_time());
    lemma_by_time();
    order::ordering_sorts(all, by_time());
    assert forall|n: int| 0 <= n < sorted.len() implies ranked(#[trigger] sorted[n]) by {
        assert(all.contains(sorted[n]));
        let j = choose|j: int| 0 <= j < all.len() && all[j] == sorted[n];
        lemma_entries_ranked(hazards, now, t_serialize, t_validate, j);
    }
}

/// Every checkpoint around a hazard is among the checkpoints in order of time.
pub proof fn lemma_entries_sorted(
    hazards: Seq<HazardView>,
    now: UtcTime,
    t_serialize: Double,
    t_validate: Double,
    i: int,
    k: int,
) -> (n: int)
    requires
        0 <= i < hazards.len(),
        0 <= k < entries_around(hazards[i], now, t_serialize, t_validate).len(),
    ensures
        ({
            let sorted = order::ordered(all_entries(hazards, now, t_serialize, t_validate), by_time());
            0 <= n < sorted.len() && sorted[n] == entries_around(hazards[i], now, t_serialize, t_validate)[k]
        }),
{
    let entry = entries_around(hazards[i], now, t_serialize, t_validate)[k];
    let all = all_entries(hazards, now, t_serialize, t_validate);
    lemma_entries_listed(hazards, now, t_serialize, t_validate, i, k);
    let j = choose|j: int| 0 <= j < all.len() && all[j] == entry;
    lemma_by_time();
    order::ordering_loses_nothing(all, by_time(), j);
    let sorted = order::ordered(all, by_time());
    choose|n: int| 0 <= n < sorted.len() && sorted[n] == entry
}

/// Every checkpoint around a hazard is in the schedule, or has a stand-in there.
proof fn lemma_entries_scheduled(
    hazards: Seq<HazardView>,
    now: UtcTime,
    t_serialize: Double,
    t_validate: Double,
    i: int,
    k: int,
)
    requires
        0 <= i < hazards.len(),
        0 <= k < entries_around(hazards[i], now, t_serialize, t_validate).len(),
    ensures
        ({
            let schedule = schedule_for(hazards, now, t_serialize, t_validate);
            let entry = entries_around(hazards[i], now, t_serialize, t_validate)[k];
            exists|m: int| 0 <= m < schedule.len() && stands_in(#[trigger] schedule[m], entry)
        }),
{
    let entry = entries_around(hazards[i], now, t_serialize, t_validate)[k];
    let sorted = order::ordered(all_entries(hazards, now, t_serialize, t_validate), by_time());
    let n = lemma_entries_sorted(hazards, now, t_serialize, t_validate, i, k);
    lemma_sorted_ranked(hazards, now, t_serialize, t_validate);
    thinning_leaves_a_stand_in(sorted, min_interval_s(t_serialize), n);
    let kept = thinned(sorted, min_interval_s(t_serialize));
    let m = choose|m: int| 0 <= m < kept.len() && stands_in(#[trigger] kept[m], sorted[n]);
    assert(stands_in(schedule_for(hazards, now, t_serialize, t_validate)[m], entry));
}

/// The checkpoint is a save that is due after `now` and ends no later than `start`,
/// at the time that it takes to write the state.
pub open spec fn saves_in_time(e: EntryView, now: UtcTime, start: UtcTime, t_serialize: Double) -> bool {
    &&& e.checkpoint_type == CheckpointType::Save
    &&& time::reading(e.time) matches Some(t) && {
        &&& t.later_than(now)
        &&& time::shifted(t, as_millis(t_serialize)) matches Some(done) && !done.later_than(start)
    }
}

/// When the state is to be saved ahead of a hazard that starts at `start`.
pub open spec fn save_time(start: UtcTime, t_serialize: Double) -> UtcTime {
    time::shifted(start, -lead_millis(t_serialize))->0
}

/// The hazard's times can be read, and there is still time to save the state.
pub open spec fn can_be_prepared_for(h: HazardView, now: UtcTime, t_serialize: Double) -> bool {
    &&& time::reading(h.start_time) is Some
    &&& time::reading(h.end_time) is Some
    &&& save_time(time::reading(h.start_time)->0, t_serialize).later_than(now)
}

/// The state is preserved before the hazard: a save no less urgent than the hazard
/// is grave begins after `now` and ends before the hazard starts.
pub open spec fn preserved_before(
    schedule: Seq<EntryView>,
    h: HazardView,
    now: UtcTime,
    t_serialize: Double,
) -> bool {
    exists|m: int|
        0 <= m < schedule.len() && saves_in_time(
            #[trigger] schedule[m],
            now,
            time::reading(h.start_time)->0,
            t_serialize,
        ) && severity_rank(schedule[m].urgency) >= severity_rank(h.severity)
}

/// The schedule preserves the state before each hazard that there is still time
/// to prepare for.
pub open spec fn preserves_state(
    schedule: Seq<EntryView>,
    hazards: Seq<HazardView>,
    now: UtcTime,
    t_serialize: Double,
) -> bool {
    forall|i: int|
        0 <= i < hazards.len() && can_be_prepared_for(#[trigger] hazards[i], now, t_serialize)
            ==> preserved_before(schedule, hazards[i], now, t_serialize)
}

/// The times of a hazard and of its save are within the calendar, and the save
/// reads as it is written.
pub open spec fn written_well(h: HazardView, now: UtcTime, t_serialize: Double) -> bool {
    can_be_prepared_for(h, now, t_serialize) ==> {
        let start = time::reading(h.start_time)->0;
        let save = save_time(start, t_serialize);
        &&& start.valid()
        &&& save.valid()
        &&& time::shifted(start, -lead_millis(t_serialize)) is Some
        &&& time::reading(time::stamp(save)) == Some(save)
    }
}

/// Sizes of about `2^54` whole units at most, each near to its exact value, leave
/// most of a margin of four thousand.
proof fn lemma_margin_left(v: int, e: int, x: int, y: int, z: int, o: int)
    requires
        0x20_0000_0000_0000 * (v + e) <= 0x20_0000_0000_0001 * x + 0x10_0000_0000_0000,
        0x20_0000_0000_0000 * (1000 * x) <= 0x20_0000_0000_0001 * y + 0x10_0000_0000_0000,
        0x1f_ffff_ffff_ffff * z <= 0x20_0000_0000_0000 * (1000 * v) + 0x10_0000_0000_0000,
        4 * o <= e,
        0x10_0000_0000_0000 <= o,
        0 <= y < 0x40_0000_0000_0001 * o,
        0 <= x,
    ensures
        z + 1000 * o <= y,
{
}

/// The lead in milliseconds, before it is cut to whole ones, exceeds the time to
/// write the state by more than a second.
proof fn lemma_margin_of_sizes(t_serialize: Double)
    requires
        t_serialize.finite(),
        t_serialize.rank() >= 0,
        ({
            let whole = double::sum(t_serialize, safety_margin_s());
            let longer = double::product(whole, double::integer(1000));
            &&& whole.finite()
            &&& longer.finite()
            &&& size(longer.unsigned()) < 0x40_0000_0000_0001 * double::one()
        }),
    ensures
        ({
            let whole = double::sum(t_serialize, safety_margin_s());
            let longer = double::product(whole, double::integer(1000));
            let shorter = double::product(t_serialize, double::integer(1000));
            &&& !longer.negative()
            &&& size(shorter.unsigned()) + 1000 * double::one() <= size(longer.unsigned())
        }),
{
    let (thousand, margin) = (double::integer(1000), safety_margin_s());
    double::integers_are_finite(1000);
    double::integers_are_exact(1000);
    lemma_margin_seconds();
    let whole = double::sum(t_serialize, margin);
    let longer = double::product(whole, thousand);
    let shorter = double::product(t_serialize, thousand);
    growth::lemma_sum_rank(t_serialize, margin);
    growth::lemma_rank_of_units(t_serialize, t_serialize);
    let (v, e, o) = (t_serialize.units(), margin.units(), double::one() as int);
    lemma_pow2_pos(UNIT_EXPONENT as nat);
    lemma2_to64();
    lemma2_to64_rest();
    lemma_pow2_strictly_increases(60, UNIT_EXPONENT as nat);
    assert(whole.rank() == nearest_to((v + e) as nat, 1));
    growth::rounding_keeps_order(1, 1, (v + e) as nat, 1);
    assert(size(1) == 1);
    growth::lemma_nearest_to_itself(1);
    growth::lemma_product_rank(whole, thousand);
    growth::lemma_product_rank(t_serialize, thousand);
    let (x, y, z) = (
        size(whole.unsigned()) as int,
        size(longer.unsigned()) as int,
        size(shorter.unsigned()) as int,
    );
    assert(size(thousand.unsigned()) == 1000 * o);
    assert(size(t_serialize.unsigned()) == v) by {
        assert(size(0) == 0);
    }
    growth::rounding_stays_near((v + e) as nat, 1);
    let b = BINADE as int;
    assert(0x20_0000_0000_0000 * (v + e) <= 0x20_0000_0000_0001 * x + 0x10_0000_0000_0000) by (nonlinear_arith)
        requires
            (2 * b) * (v + e) <= ((2 * b) * x + x + b) * 1,
            b == 0x10_0000_0000_0000,
    ;
    lemma_thousandfold(x as nat, longer, o as nat);
    lemma_thousandfold(v as nat, shorter, o as nat);
    lemma_margin_left(v, e, x, y, z, o);
}

/// How near a thousandfold size is to the exact one.
proof fn lemma_thousandfold(x: nat, r: Double, o: nat)
    requires
        o > 0,
        r.unsigned() == nearest_to(x * (1000 * o), o),
    ensures
        r.finite() ==> 0x20_0000_0000_0000 * (1000 * x) <= 0x20_0000_0000_0001 * size(r.unsigned())
            + 0x10_0000_0000_0000,
        0x1f_ffff_ffff_ffff * size(r.unsigned()) <= 0x20_0000_0000_0000 * (1000 * x) + 0x10_0000_0000_0000,
{
    let y = size(r.unsigned());
    let b = BINADE as int;
    growth::rounding_stays_near(x * (1000 * o), o);
    if r.finite() {
        assert(0x20_0000_0000_0000 * (1000 * x) <= 0x20_0000_0000_0001 * y + 0x10_0000_0000_0000) by (nonlinear_arith)
            requires
                (2 * b) * (x * (1000 * o)) <= ((2 * b) * y + y + b) * o,
                b == 0x10_0000_0000_0000,
                o > 0,
        ;
    }
    assert(0x1f_ffff_ffff_ffff * y <= 0x20_0000_0000_0000 * (1000 * x) + 0x10_0000_0000_0000) by (nonlinear_arith)
        requires
            ((2 * b) * y) * o <= (2 * b) * (x * (1000 * o)) + (y + b) * o,
            b == 0x10_0000_0000_0000,
            o > 0,
    ;
}

/// The lead exceeds the time to write the state by a second or more.
proof fn lemma_margin(t_serialize: Double)
    requires
        !double::less(t_serialize, double::integer(0)),
        lead_millis(t_serialize) <= 0x40_0000_0000_0000,
    ensures
        0 <= as_millis(t_serialize),
        if t_serialize.nan() {
            as_millis(t_serialize) == 0 && lead_millis(t_serialize) == 0
        } else {
            as_millis(t_serialize) + 1000 <= lead_millis(t_serialize)
        },
{
    reveal(double::truncated);
    reveal(double::less);
    double::integer_zero();
    let thousand = double::integer(1000);
    let margin = safety_margin_s();
    double::integers_are_finite(1000);
    if t_serialize.nan() {
        reveal(double::sum);
        reveal(double::product);
    } else {
        lemma_margin_seconds();
        let whole = double::sum(t_serialize, margin);
        let longer = double::product(whole, thousand);
        let shorter = double::product(t_serialize, thousand);
        lemma_lead_is_positive(t_serialize);
        assert(longer.finite());
        let o = double::one();
        lemma_pow2_pos(UNIT_EXPONENT as nat);
        let (y, z) = (size(longer.unsigned()), size(shorter.unsigned()));
        assert(y < 0x40_0000_0000_0001 * o) by (nonlinear_arith)
            requires
                y / o <= 0x40_0000_0000_0000,
                o > 0,
        ;
        lemma_margin_of_sizes(t_serialize);
        assert(z / o + 1000 <= y / o) by (nonlinear_arith)
            requires
                z + 1000 * o <= y,
                o > 0,
        ;
        growth::lemma_product_rank(t_serialize, thousand);
        if longer.unsigned() < shorter.unsigned() {
            lemma_size_monotone(longer.unsigned(), shorter.unsigned());
        }
        if shorter.negative() {
            // Only a zero is.
            assert(t_serialize.unsigned() == 0);
            growth::lemma_nearest_to_zero(o);
            assert(size(0) == 0);
            assert(0 * size(thousand.unsigned()) == 0) by (nonlinear_arith);
        }
    }
}

/// The lead is a positive number; it is finite only if the time to write the state
/// and the sum with the margin are.
proof fn lemma_lead_is_positive(t_serialize: Double)
    requires
        !t_serialize.nan(),
        t_serialize.rank() >= 0,
    ensures
        ({
            let whole = double::sum(t_serialize, safety_margin_s());
            let longer = double::product(whole, double::integer(1000));
            &&& !longer.nan()
            &&& !longer.negative()
            &&& longer.finite() ==> t_serialize.finite() && whole.finite()
        }),
{
    let (thousand, margin) = (double::integer(1000), safety_margin_s());
    double::integers_are_finite(1000);
    lemma_margin_seconds();
    let whole = double::sum(t_serialize, margin);
    lemma_pow2_pos(UNIT_EXPONENT as nat);
    if t_serialize.finite() {
        growth::lemma_sum_rank(t_serialize, margin);
        growth::lemma_rank_of_units(t_serialize, t_serialize);
        let exact = (t_serialize.units() + margin.units()) as nat;
        growth::rounding_keeps_order(1, 1, exact, 1);
        assert(size(1) == 1);
        growth::lemma_nearest_to_itself(1);
        assert(whole.rank() > 0);
    } else {
        reveal(double::sum);
    }
    assert(!whole.negative() && !whole.zero());
    if whole.finite() {
        growth::lemma_product_rank(whole, thousand);
    } else {
        reveal(double::product);
    }
}

/// The margin lies between four and five seconds.
proof fn lemma_margin_seconds()
    ensures
        safety_margin_s().finite(),
        !safety_margin_s().negative(),
        4 * double::one() <= safety_margin_s().units(),
{
    let o = double::one();
    let (num, den) = (double::integer(45), double::integer(10));
    double::integers_are_exact(45);
    double::integers_are_exact(10);
    double::integers_are_exact(4);
    double::integers_are_exact(5);
    double::integers_are_finite(45);
    double::integers_are_finite(10);
    double::integers_are_finite(4);
    double::integers_are_finite(5);
    lemma_pow2_pos(UNIT_EXPONENT as nat);
    growth::lemma_quotient_rank(num, den);
    let (x, z) = (size(num.unsigned()), size(den.unsigned()));
    assert((4 * o) * z <= (x * o) * 1) by (nonlinear_arith)
        requires
            x == 45 * o,
            z == 10 * o,
            o > 0,
    ;
    assert((x * o) * 1 <= (5 * o) * z) by (nonlinear_arith)
        requires
            x == 45 * o,
            z == 10 * o,
            o > 0,
    ;
    growth::rounding_keeps_order(4 * o, 1, x * o, z);
    growth::rounding_keeps_order(x * o, z, 5 * o, 1);
    growth::lemma_nearest_to_itself(double::integer(4).unsigned());
    growth::lemma_nearest_to_itself(double::integer(5).unsigned());
    let (low, m) = (double::integer(4).unsigned(), safety_margin_s().unsigned());
    if low < m {
        lemma_size_monotone(low, m);
    }
}

/// A save among the checkpoints in order of time is the save of some hazard.
proof fn lemma_sorted_save(
    hazards: Seq<HazardView>,
    now: UtcTime,
    t_serialize: Double,
    t_validate: Double,
    n: int,
) -> (i: int)
    requires
        ({
            let sorted = order::ordered(all_entries(hazards, now, t_serialize, t_validate), by_time());
            0 <= n < sorted.len() && sorted[n].checkpoint_type == CheckpointType::Save
        }),
        forall|k: int| 0 <= k < hazards.len() ==> written_well(#[trigger] hazards[k], now, t_serialize),
    ensures
        0 <= i < hazards.len(),
        ({
            let sorted = order::ordered(all_entries(hazards, now, t_serialize, t_validate), by_time());
            let start = time::reading(hazards[i].start_time)->0;
            let save = save_time(start, t_serialize);
            &&& can_be_prepared_for(hazards[i], now, t_serialize)
            &&& written_well(hazards[i], now, t_serialize)
            &&& sorted[n] == save_entry(hazards[i], save, t_serialize)
            &&& time::reading(sorted[n].time) == Some(save)
            &&& limit_of(sorted[n]) == Some(start)
        }),
{
    let all = all_entries(hazards, now, t_serialize, t_validate);
    let sorted = order::ordered(all, by_time());
    lemma_by_time();
    order::ordering_sorts(all, by_time());
    assert(all.contains(sorted[n]));
    let j = choose|j: int| 0 <= j < all.len() && all[j] == sorted[n];
    lemma_entries_ranked(hazards, now, t_serialize, t_validate, j);
    let i = choose|i: int|
        0 <= i < hazards.len() && can_be_prepared_for(#[trigger] hazards[i], now, t_serialize) && all[j]
            == save_entry(hazards[i], save_time(time::reading(hazards[i].start_time)->0, t_serialize), t_serialize);
    assert(written_well(hazards[i], now, t_serialize));
    i
}

/// Where saves are written well, each is done by the start of any hazard whose own
/// save comes no earlier, and lies in no leap second.
proof fn lemma_saves_in_good_time(hazards: Seq<HazardView>, now: UtcTime, t_serialize: Double, t_validate: Double)
    requires
        !double::less(t_serialize, double::integer(0)),
        forall|i: int| 0 <= i < hazards.len() ==> written_well(#[trigger] hazards[i], now, t_serialize),
    ensures
        ({
            let sorted = order::ordered(all_entries(hazards, now, t_serialize, t_validate), by_time());
            &&& in_good_time(sorted)
            &&& !t_serialize.nan() ==> forall|n: int| 0 <= n < sorted.len() ==> plainly_timed(#[trigger] sorted[n])
        }),
{
    let sorted = order::ordered(all_entries(hazards, now, t_serialize, t_validate), by_time());
    lemma_sorted_ranked(hazards, now, t_serialize, t_validate);
    assert forall|a: int, b: int|
        0 <= a < sorted.len() && 0 <= b < sorted.len() && (#[trigger] sorted[a]).checkpoint_type == (
        #[trigger] sorted[b]).checkpoint_type && by_time()(sorted[a], sorted[b]) implies done_by(
        sorted[a],
        limit_of(sorted[b]),
    ) by {
        assert(ranked(sorted[a]) && ranked(sorted[b]));
        reveal(done_by);
        if sorted[a].checkpoint_type == CheckpointType::Save {
            let i = lemma_sorted_save(hazards, now, t_serialize, t_validate, a);
            let j = lemma_sorted_save(hazards, now, t_serialize, t_validate, b);
            let t = save_time(time::reading(hazards[i].start_time)->0, t_serialize);
            let start = time::reading(hazards[j].start_time)->0;
            let save = save_time(start, t_serialize);
            assert(lead_millis(t_serialize) <= 0x40_0000_0000_0000);
            lemma_margin(t_serialize);
            if t_serialize.nan() {
                time::no_time_shifts_nothing(start);
                time::no_time_shifts_nothing(t);
            } else {
                time::work_ahead_is_done(t, save, start, lead_millis(t_serialize), as_millis(t_serialize));
            }
        }
    }
    if !t_serialize.nan() {
        assert forall|n: int| 0 <= n < sorted.len() implies plainly_timed(#[trigger] sorted[n]) by {
            if sorted[n].checkpoint_type == CheckpointType::Save {
                let i = lemma_sorted_save(hazards, now, t_serialize, t_validate, n);
                let start = time::reading(hazards[i].start_time)->0;
                let save = save_time(start, t_serialize);
                assert(lead_millis(t_serialize) <= 0x40_0000_0000_0000);
                lemma_margin(t_serialize);
                time::far_shifts_leave_leap_seconds(start, save, lead_millis(t_serialize));
            }
        }
    }
}

/// A schedule preserves the state before each hazard that there is still time to
/// prepare for: a save begins in time and is done when the hazard starts.
pub proof fn state_is_preserved_before_each_hazard(
    hazards: Seq<HazardView>,
    now: UtcTime,
    t_serialize: Double,
    t_validate: Double,
)
    requires
        !double::less(t_serialize, double::integer(0)),
        forall|i: int| 0 <= i < hazards.len() ==> written_well(#[trigger] hazards[i], now, t_serialize),
    ensures
        preserves_state(
            schedule_for(hazards, now, t_serialize, t_validate),
            hazards,
            now,
            t_serialize,
        ),
{
    let schedule = schedule_for(hazards, now, t_serialize, t_validate);
    let sorted = order::ordered(all_entries(hazards, now, t_serialize, t_validate), by_time());
    let thin = thinning(sorted, min_interval_s(t_serialize));
    lemma_sorted_ranked(hazards, now, t_serialize, t_validate);
    lemma_saves_in_good_time(hazards, now, t_serialize, t_validate);
    thinning_keeps_order(sorted, min_interval_s(t_serialize));
    assert(schedule == thin.kept);
    assert forall|i: int| 0 <= i < hazards.len() && can_be_prepared_for(#[trigger] hazards[i], now, t_serialize)
        implies preserved_before(schedule, hazards[i], now, t_serialize) by {
        let h = hazards[i];
        let start = time::reading(h.start_time)->0;
        hazards_are_framed(h, now, t_serialize, t_validate);
        let n = lemma_entries_sorted(hazards, now, t_serialize, t_validate, i, 0);
        let entry = sorted[n];
        assert(entry == save_entry(h, save_time(start, t_serialize), t_serialize));
        thinning_keeps_limits(sorted, min_interval_s(t_serialize), n);
        let m = choose|m: int| 0 <= m < thin.kept.len() && #[trigger] stands_in_time(thin, m, sorted[n]);
        let kept = schedule[m];
        // What is kept is due with the save of some hazard.
        assert(due_among(sorted, kept));
        let k = choose|k: int| 0 <= k < sorted.len() && #[trigger] due_together(sorted[k], kept);
        let other = lemma_sorted_save(hazards, now, t_serialize, t_validate, k);
        reveal(done_by);
        assert(saves_in_time(kept, now, start, t_serialize));
    }
}

/// Around every hazard whose times can be read the schedule has a validation, and
/// a restoration where computation resumes, each due no later than the hazard's
/// own.
pub proof fn every_hazard_is_followed_up(
    hazards: Seq<HazardView>,
    now: UtcTime,
    t_serialize: Double,
    t_validate: Double,
    i: int,
)
    requires
        0 <= i < hazards.len(),
        time::reading(hazards[i].start_time) is Some,
        time::reading(hazards[i].end_time) is Some,
    ensures
        ({
            let schedule = schedule_for(hazards, now, t_serialize, t_validate);
            let end = time::reading(hazards[i].end_time)->0;
            &&& exists|m: int|
                0 <= m < schedule.len() && stands_in(
                    #[trigger] schedule[m],
                    validate_entry(hazards[i], end, t_validate),
                )
            &&& resumes(hazards[i].recommended_action) ==> exists|m: int|
                0 <= m < schedule.len() && stands_in(
                    #[trigger] schedule[m],
                    restore_entry(hazards[i], time::shifted(end, as_millis(t_validate))->0, t_serialize),
                )
        }),
{
    let h = hazards[i];
    let save = time::shifted(time::reading(h.start_time)->0, -lead_millis(t_serialize))->0;
    let saves = if save.later_than(now) { 1int } else { 0int };
    hazards_are_framed(h, now, t_serialize, t_validate);
    lemma_entries_scheduled(hazards, now, t_serialize, t_validate, i, saves);
    if resumes(h.recommended_action) {
        lemma_entries_scheduled(hazards, now, t_serialize, t_validate, i, saves + 1);
    }
}

/// In a schedule no checkpoint is nearer to the one before it, where that is of its
/// type, than two and a half times what it takes to write the state.
pub proof fn schedule_does_not_crowd(hazards: Seq<HazardView>, now: UtcTime, t_serialize: Double, t_validate: Double)
    requires
        !double::less(t_serialize, double::integer(0)),
        forall|i: int| 0 <= i < hazards.len() ==> written_well(#[trigger] hazards[i], now, t_serialize),
    ensures
        parted(
            schedule_for(hazards, now, t_serialize, t_validate),
            double::product(t_serialize, double::ratio(5, 2)),
        ),
{
    let sorted = order::ordered(all_entries(hazards, now, t_serialize, t_validate), by_time());
    lemma_sorted_ranked(hazards, now, t_serialize, t_validate);
    lemma_saves_in_good_time(hazards, now, t_serialize, t_validate);
    let schedule = schedule_for(hazards, now, t_serialize, t_validate);
    if t_serialize.nan() {
        reveal(double::product);
        reveal(double::less);
    } else {
        thinning_parts_neighbours(sorted, min_interval_s(t_serialize));
        assert forall|i: int, j: int|
            0 <= i && j == i + 1 && j < schedule.len() && (#[trigger] schedule[i]).checkpoint_type == (
            #[trigger] schedule[j]).checkpoint_type && time::reading(schedule[i].time) is Some && time::reading(
                schedule[j].time,
            ) is Some implies !double::less(
            double::quotient(
                double::integer(
                    time::millis_between(
                        time::reading(schedule[j].time)->0,
                        time::reading(schedule[i].time)->0,
                    ),
                ),
                double::integer(1000),
            ),
            double::product(t_serialize, double::ratio(5, 2)),
        ) by {
            assert(!crowds(schedule[i], schedule[j], min_interval_s(t_serialize)));
        }
    }
}

/// No checkpoint is nearer to the one before it, where that is of its type, than the
/// given seconds.
pub open spec fn parted(schedule: Seq<EntryView>, seconds: Double) -> bool {
    forall|i: int, j: int|
        0 <= i && j == i + 1 && j < schedule.len() && (#[trigger] schedule[i]).checkpoint_type == (
        #[trigger] schedule[j]).checkpoint_type && time::reading(schedule[i].time) is Some && time::reading(
            schedule[j].time,
        ) is Some ==> !double::less(
            double::quotient(
                double::integer(
                    time::millis_between(
                        time::reading(schedule[j].time)->0,
                        time::reading(schedule[i].time)->0,
                    ),
                ),
                double::integer(1000),
            ),
            seconds,
        )
}

/// A schedule stands in order of time.
pub proof fn schedule_is_in_order(hazards: Seq<HazardView>, now: UtcTime, t_serialize: Double, t_validate: Double)
    ensures
        order::is_ordered(schedule_for(hazards, now, t_serialize, t_validate), by_time()),
        ({
            let schedule = schedule_for(hazards, now, t_serialize, t_validate);
            forall|i: int, j: int|
                0 <= i <= j < schedule.len() && time::reading((#[trigger] schedule[i]).time) is Some && time::reading(
                    (#[trigger] schedule[j]).time,
                ) is Some ==> !time::reading(schedule[i].time)->0.later_than(time::reading(schedule[j].time)->0)
        }),
{
    let entries = all_entries(hazards, now, t_serialize, t_validate);
    lemma_by_time();
    order::ordering_sorts(entries, by_time());
    thinning_keeps_order(
        order::ordered(entries, by_time()),
        min_interval_s(t_serialize),
    );
}

/// Around a hazard whose times can be read stands exactly one validation, a save
/// exactly if there is still time for it, and a restoration exactly if
/// computation resumes.
pub proof fn hazards_are_framed(h: HazardView, now: UtcTime, t_serialize: Double, t_validate: Double)
    requires
        time::reading(h.start_time) is Some,
        time::reading(h.end_time) is Some,
    ensures
        ({
            let entries = entries_around(h, now, t_serialize, t_validate);
            let start = time::reading(h.start_time)->0;
            let end = time::reading(h.end_time)->0;
            let save = time::shifted(start, -lead_millis(t_serialize))->0;
            let saves = if save.later_than(now) { 1int } else { 0int };
            let restores = if resumes(h.recommended_action) { 1int } else { 0int };
            &&& entries.len() == saves + 1 + restores
            &&& saves == 1 ==> entries[0] == save_entry(h, save, t_serialize)
            &&& entries[saves] == validate_entry(h, end, t_validate)
            &&& restores == 1 ==> entries[saves + 1] == restore_entry(
                h,
                time::shifted(end, as_millis(t_validate))->0,
                t_serialize,
            )
        }),
{
}

/// How long a hazard's end keeps the computer busy: validating the state and
/// reading it back.
pub open spec fn pause_millis(t_serialize: Double, t_validate: Double) -> int {
    as_millis(double::sum(t_validate, t_serialize))
}

/// The calendar has room for the save before a hazard that starts at an instant.
pub open spec fn room_before(t: UtcTime, t_serialize: Double) -> bool {
    &&& lead_millis(t_serialize) > i64::MIN
    &&& time::shifted(t, -lead_millis(t_serialize)) is Some
}

/// The calendar has room for what follows a hazard that ends at an instant.
pub open spec fn room_after(t: UtcTime, t_serialize: Double, t_validate: Double) -> bool {
    &&& time::shifted(t, as_millis(t_validate)) is Some
    &&& time::shifted(t, pause_millis(t_serialize, t_validate)) is Some
}

/// The calendar has room around an instant for the checkpoints of a hazard that
/// starts or ends there.
pub open spec fn leaves_room(t: UtcTime, t_serialize: Double, t_validate: Double) -> bool {
    room_before(t, t_serialize) && room_after(t, t_serialize, t_validate)
}

/// The hazard leaves room for its checkpoints.
pub open spec fn framed_with_room(h: HazardView, t_serialize: Double, t_validate: Double) -> bool {
    times_within(
        h,
        |t: UtcTime| room_before(t, t_serialize),
        |t: UtcTime| room_after(t, t_serialize, t_validate),
    )
}

/// Every hazard leaves room for its checkpoints.
pub open spec fn all_leave_room(hazards: Seq<HazardView>, t_serialize: Double, t_validate: Double) -> bool {
    forall|i: int| 0 <= i < hazards.len() ==> framed_with_room(#[trigger] hazards[i], t_serialize, t_validate)
}

pub(crate) fn to_millis(seconds: Double) -> (r: i64)
    ensures
        r == as_millis(seconds),
{
    seconds.times(Double::from_i64(1000)).to_i64()
}

pub(crate) fn safety_margin() -> (r: Double)
    ensures
        r == safety_margin_s(),
{
    Double::decimal(45, 10)
}

/// The checkpoints around one hazard.
fn frame_hazard(hazard: &Hazard, current_time: UtcTime, t_serialize: Double, t_validate: Double) -> (r: Vec<
    CheckpointEntry,
>)
    requires
        framed_with_room(hazard@, t_serialize, t_validate),
    ensures
        entry_list(r@) == entries_around(hazard@, current_time, t_serialize, t_validate),
        written_well(hazard@, current_time, t_serialize),
        follow_up::read_back(hazard@, current_time, t_serialize, t_validate),
{
    let mut entries: Vec<CheckpointEntry> = Vec::new();
    assert(entry_list(entries@) =~= Seq::<EntryView>::empty());
    let (h_start, h_end) = match (
        UtcTime::parse(hazard.start_time.as_str()),
        UtcTime::parse(hazard.end_time.as_str()),
    ) {
        (Some(s), Some(e)) => (s, e),
        _ => {
            return entries;
        },
    };
    assert(room_before(h_start, t_serialize));
    assert(room_after(h_end, t_serialize, t_validate));

    // Pre-hazard save
    let lead: i64 = to_millis(t_serialize.plus(safety_margin()));
    if let Some(save_time) = h_start.shift_millis(-lead) {
        if save_time.is_after(current_time) {
            let entry = CheckpointEntry {
                time: save_time.to_rfc3339(),
                checkpoint_type: CheckpointType::Save,
                urgency: hazard.severity,
                reason: join("Pre-", hazard.hazard_type.name(), " checkpoint"),
                deadline: Some(hazard.start_time.clone()),
                estimated_duration_s: t_serialize,
            };
            let ghost view = entry@;
            entries.push(entry);
            assert(entry_list(entries@) =~= seq![view]);
        }
    }
    // Post-hazard validation
    let ghost before = entry_list(entries@);
    let entry = CheckpointEntry {
        time: h_end.to_rfc3339(),
        checkpoint_type: CheckpointType::Validate,
        urgency: Severity::Low,
        reason: join("Post-", hazard.hazard_type.name(), " state validation"),
        deadline: None,
        estimated_duration_s: t_validate,
    };
    let ghost view = entry@;
    entries.push(entry);
    assert(entry_list(entries@) =~= before.push(view));

    // Post-hazard restoration, where computation resumes
    let resumes_after = match hazard.recommended_action {
        RecommendedAction::CheckpointBeforeAndResumeAfter => true,
        RecommendedAction::CheckpointAndEnableEcc => true,
        _ => false,
    };
    if resumes_after {
        let wait: i64 = to_millis(t_validate);
        if let Some(restore_time) = h_end.shift_millis(wait) {
            let ghost before = entry_list(entries@);
            let entry = CheckpointEntry {
                time: restore_time.to_rfc3339(),
                checkpoint_type: CheckpointType::Restore,
                urgency: Severity::Moderate,
                reason: join("Post-", hazard.hazard_type.name(), " state restoration"),
                deadline: None,
                estimated_duration_s: t_serialize,
            };
            let ghost view = entry@;
            entries.push(entry);
            assert(entry_list(entries@) =~= before.push(view));
        }
    }
    entries
}

/// Whether two checkpoints of the same type follow each other too closely.
fn is_crowding(previous: &CheckpointEntry, entry: &CheckpointEntry, min_interval: Double) -> (r: bool)
    ensures
        r == crowds(previous@, entry@, min_interval),
{
    if let (Some(prev_t), Some(curr_t)) = (
        UtcTime::parse(previous.time.as_str()),
        UtcTime::parse(entry.time.as_str()),
    ) {
        let millis: i64 = curr_t.millis_since(prev_t);
        let gap_s = Double::from_i64(millis).over(Double::from_i64(1000));
        gap_s.is_less(min_interval) && previous.checkpoint_type == entry.checkpoint_type
    } else {
        false
    }
}

/// The earlier of two deadlines, where there are both.
fn first_deadline(a: &Option<String>, b: &Option<String>) -> (r: Option<String>)
    ensures
        types::optional(r) == earlier_deadline(types::optional(*a), types::optional(*b)),
{
    match (a, b) {
        (Some(s), Some(t)) => {
            let first = match (UtcTime::parse(s.as_str()), UtcTime::parse(t.as_str())) {
                (Some(x), Some(y)) => !x.is_after(y),
                (Some(_), None) => false,
                (None, _) => true,
            };
            if first {
                Some(s.clone())
            } else {
                Some(t.clone())
            }
        },
        (Some(s), None) => Some(s.clone()),
        (None, _) => copy_text(b),
    }
}

/// When a checkpoint is to be done, where it has a deadline that can be read.
fn find_limit(entry: &CheckpointEntry) -> (r: Option<UtcTime>)
    ensures
        r == limit_of(entry@),
{
    match &entry.deadline {
        Some(d) => UtcTime::parse(d.as_str()),
        None => None,
    }
}

/// Whether a checkpoint is done no later than the limit, where there is one.
fn is_done_by(entry: &CheckpointEntry, limit: Option<UtcTime>) -> (r: bool)
    ensures
        r == done_by(entry@, limit),
{
    proof {
        reveal(done_by);
    }
    match limit {
        Some(l) => match UtcTime::parse(entry.time.as_str()) {
            Some(t) => match t.shift_millis(to_millis(entry.estimated_duration_s)) {
                Some(done) => !done.is_after(l),
                None => false,
            },
            None => false,
        },
        None => true,
    }
}

/// One checkpoint in place of two of the same type: the more urgent one, unless
/// it would be done too late.
fn combine(first: CheckpointEntry, second: &CheckpointEntry, limit: Option<UtcTime>) -> (r: CheckpointEntry)
    ensures
        r@ == combined(first@, second@, limit),
{
    if second.urgency.rank() <= first.urgency.rank() {
        return first;
    }
    if is_done_by(second, limit) {
        return second.copy();
    }
    let mut first = first;
    first.deadline = first_deadline(&first.deadline, &second.deadline);
    first.urgency = second.urgency;
    first.reason = second.reason.clone();
    first
}

/// Merges adjacent checkpoints of the same type, keeping the more urgent one.
fn thin(entries: Vec<CheckpointEntry>, min_interval: Double) -> (r: Vec<CheckpointEntry>)
    ensures
        entry_list(r@) == thinned(entry_list(entries@), min_interval),
{
    let ghost all = entry_list(entries@);
    let mut out: Vec<CheckpointEntry> = Vec::new();
    let mut limit: Option<UtcTime> = None;
    let mut i: usize = 0;
    proof {
        assert(all.take(0) =~= Seq::<EntryView>::empty());
        assert(entry_list(out@) =~= Seq::<EntryView>::empty());
    }
    while i < entries.len()
        invariant
            i <= entries@.len(),
            all == entry_list(entries@),
            entry_list(out@) == thinning(all.take(i as int), min_interval).kept,
            limit == thinning(all.take(i as int), min_interval).limit,
        decreases entries@.len() - i,
    {
        let entry = &entries[i];
        let ghost before = entry_list(out@);
        proof {
            assert(all.take(i + 1).drop_last() =~= all.take(i as int));
            assert(all.take(i + 1).last() == entry@);
        }
        let own = find_limit(entry);
        match out.pop() {
            Some(previous) => {
                assert(before.last() == previous@);
                assert(entry_list(out@) =~= before.drop_last());
                if is_crowding(&previous, entry, min_interval) {
                    let both = combine(previous, entry, limit);
                    let ghost view = both@;
                    out.push(both);
                    limit = match (limit, own) {
                        (Some(s), Some(t)) => if s.is_after(t) { own } else { limit },
                        (Some(_), None) => limit,
                        (None, _) => own,
                    };
                    assert(entry_list(out@) =~= before.drop_last().push(view));
                } else {
                    out.push(previous);
                    out.push(entry.copy());
                    limit = own;
                    assert(entry_list(out@) =~= before.push(entry@));
                }
            },
            None => {
                out.push(entry.copy());
                limit = own;
                assert(entry_list(out@) =~= before.push(entry@));
            },
        }
        i = i + 1;
    }
    assert(all.take(i as int) =~= all);
    out
}

/// The checkpoints for the hazards ahead, in order of time.
pub(crate) fn compute_checkpoint_schedule(
    hazards: &Vec<Hazard>,
    current_time: UtcTime,
    t_serialize: Double,
    t_validate: Double,
) -> (r: Vec<CheckpointEntry>)
    requires
        all_leave_room(hazard_list(hazards@), t_serialize, t_validate),
    ensures
        entry_list(r@) == schedule_for(hazard_list(hazards@), current_time, t_serialize, t_validate),
        !double::less(t_serialize, double::integer(0)) ==> preserves_state(
            entry_list(r@),
            hazard_list(hazards@),
            current_time,
            t_serialize,
        ) && parted(entry_list(r@), double::product(t_serialize, double::ratio(5, 2))),
        follow_up::followed_up(entry_list(r@), hazard_list(hazards@), t_serialize, t_validate),
        follow_up::nothing_idle(entry_list(r@), hazard_list(hazards@), current_time, t_serialize, t_validate),
{
    let ghost all = hazard_list(hazards@);
    let mut schedule: Vec<CheckpointEntry> = Vec::new();
    let mut i: usize = 0;
    proof {
        assert(all.take(0) =~= Seq::<HazardView>::empty());
        assert(entry_list(schedule@) =~= Seq::<EntryView>::empty());
    }
    while i < hazards.len()
        invariant
            i <= hazards@.len(),
            all == hazard_list(hazards@),
            all_leave_room(all, t_serialize, t_validate),
            entry_list(schedule@) == all_entries(all.take(i as int), current_time, t_serialize, t_validate),
            forall|j: int|
                0 <= j < i ==> written_well(#[trigger] all[j], current_time, t_serialize) && follow_up::read_back(
                    all[j],
                    current_time,
                    t_serialize,
                    t_validate,
                ),
        decreases hazards@.len() - i,
    {
        proof {
            assert(all[i as int] == hazards@[i as int]@);
            assert(all.take(i + 1).drop_last() =~= all.take(i as int));
            assert(all.take(i + 1).last() == hazards@[i as int]@);
        }
        let mut entries = frame_hazard(&hazards[i], current_time, t_serialize, t_validate);
        let ghost (before, added) = (schedule@, entries@);
        schedule.append(&mut entries);
        assert(entry_list(schedule@) =~= entry_list(before) + entry_list(added));
        i = i + 1;
    }
    assert(all.take(i as int) =~= all);
    let ghost unsorted = schedule@;
    let sorted = sort_by_time(schedule);
    proof {
        order::lemma_ordered_mapped(
            unsorted,
            |a: CheckpointEntry, b: CheckpointEntry| a.no_later(b),
            |e: CheckpointEntry| e@,
            by_time(),
        );
    }
    proof {
        if !double::less(t_serialize, double::integer(0)) {
            state_is_preserved_before_each_hazard(all, current_time, t_serialize, t_validate);
            schedule_does_not_crowd(all, current_time, t_serialize, t_validate);
        }
        follow_up::every_hazard_is_attended_to(all, current_time, t_serialize, t_validate);
        follow_up::schedule_has_nothing_idle(all, current_time, t_serialize, t_validate);
    }
    let min_interval = t_serialize.times(Double::decimal(5, 2));
    thin(sorted, min_interval)
}

} // verus!
