//! The local view of a computation that spans a constellation: steps assigned to
//! this satellite, transfers over inter-satellite links, and handing steps over.

use vstd::prelude::*;

use crate::double::decimal::tenths_text;
use crate::double::growth;
use crate::double::model::size;
use crate::double::{self, Double};
use crate::json::{self, Json, JsonView};
use crate::sim_client::SatelliteState;
use crate::table::Table;
use crate::text::{begins_with, join, same};
use crate::time::{self, UtcTime};
use crate::types::{self, copy_text, AgentEvent, EventView, Position};

verus! {

#[derive(Debug, Clone, Copy, PartialEq, Eq, Structural)]
pub enum StepStatus {
    Pending,
    Executing,
    Completed,
    Failed,
    FailedOver,
}

#[derive(Debug, Clone, Copy, PartialEq, Eq, Structural)]
pub enum TransferStatus {
    InProgress,
    Completed,
    Failed,
}

/// Tracks the state of a single step assigned to this satellite.
#[derive(Debug, Clone)]
pub struct AssignedStep {
    pub step_id: String,
    pub step_name: String,
    pub assigned_at: String,
    pub status: StepStatus,
    pub duration_s: Double,
    pub dependencies: Vec<String>,
    pub is_replica: bool,
}

/// What is known of a step.
#[verifier::ext_equal]
pub struct StepView {
    pub step_id: Seq<char>,
    pub step_name: Seq<char>,
    pub assigned_at: Seq<char>,
    pub status: StepStatus,
    pub duration_s: Double,
    pub dependencies: Seq<Seq<char>>,
    pub is_replica: bool,
}

impl AssignedStep {
    pub open spec fn view(self) -> StepView {
        StepView {
            step_id: self.step_id@,
            step_name: self.step_name@,
            assigned_at: self.assigned_at@,
            status: self.status,
            duration_s: self.duration_s,
            dependencies: json::text_list(self.dependencies@),
            is_replica: self.is_replica,
        }
    }
}

/// One link of a transfer.
#[derive(Debug, Clone)]
pub struct ISLHop {
    pub from: String,
    pub to: String,
    pub distance_km: Double,
    pub latency_ms: Double,
    pub bw_mbps: Double,
    pub quality: Double,
    pub completed: bool,
}

/// What is known of a link.
pub struct HopView {
    pub from: Seq<char>,
    pub to: Seq<char>,
    pub distance_km: Double,
    pub latency_ms: Double,
    pub bw_mbps: Double,
    pub quality: Double,
    pub completed: bool,
}

impl ISLHop {
    pub open spec fn view(self) -> HopView {
        HopView {
            from: self.from@,
            to: self.to@,
            distance_km: self.distance_km,
            latency_ms: self.latency_ms,
            bw_mbps: self.bw_mbps,
            quality: self.quality,
            completed: self.completed,
        }
    }
}

/// Tracks a transfer in progress.
#[derive(Debug, Clone)]
pub struct ISLTransfer {
    pub transfer_id: String,
    pub from_satellite: String,
    pub to_satellite: String,
    pub data_mb: Double,
    pub hops: Vec<ISLHop>,
    pub started_at: String,
    pub status: TransferStatus,
}

/// What is known of a transfer.
#[verifier::ext_equal]
pub struct TransferView {
    pub transfer_id: Seq<char>,
    pub from_satellite: Seq<char>,
    pub to_satellite: Seq<char>,
    pub data_mb: Double,
    pub hops: Seq<HopView>,
    pub started_at: Seq<char>,
    pub status: TransferStatus,
}

/// What is known of a row of links.
pub open spec fn hop_views(hops: Seq<ISLHop>) -> Seq<HopView> {
    Seq::new(hops.len(), |i: int| hops[i]@)
}

impl ISLTransfer {
    pub open spec fn view(self) -> TransferView {
        TransferView {
            transfer_id: self.transfer_id@,
            from_satellite: self.from_satellite@,
            to_satellite: self.to_satellite@,
            data_mb: self.data_mb,
            hops: hop_views(self.hops@),
            started_at: self.started_at@,
            status: self.status,
        }
    }
}

/// The word for the status of a step.
pub open spec fn step_word(status: StepStatus) -> Seq<char> {
    match status {
        StepStatus::Pending => "pending"@,
        StepStatus::Executing => "executing"@,
        StepStatus::Completed => "completed"@,
        StepStatus::Failed => "failed"@,
        StepStatus::FailedOver => "failed_over"@,
    }
}

impl StepStatus {
    /// The word for the status.
    pub fn word(self) -> (r: &'static str)
        ensures
            r@ == step_word(self),
    {
        match self {
            StepStatus::Pending => "pending",
            StepStatus::Executing => "executing",
            StepStatus::Completed => "completed",
            StepStatus::Failed => "failed",
            StepStatus::FailedOver => "failed_over",
        }
    }
}

/// The word for the status of a transfer.
pub open spec fn transfer_word(status: TransferStatus) -> Seq<char> {
    match status {
        TransferStatus::InProgress => "in_progress"@,
        TransferStatus::Completed => "completed"@,
        TransferStatus::Failed => "failed"@,
    }
}

impl TransferStatus {
    /// The word for the status.
    pub fn word(self) -> (r: &'static str)
        ensures
            r@ == transfer_word(self),
    {
        match self {
            TransferStatus::InProgress => "in_progress",
            TransferStatus::Completed => "completed",
            TransferStatus::Failed => "failed",
        }
    }
}

/// The JSON form of a step.
pub open spec fn step_form(s: StepView) -> JsonView {
    let what = json::with_field(
        json::with_field(
            json::with_field(
                json::with_field(JsonView::Object(Map::empty()), "step_id"@, JsonView::Text(s.step_id)),
                "step_name"@,
                JsonView::Text(s.step_name),
            ),
            "assigned_at"@,
            JsonView::Text(s.assigned_at),
        ),
        "status"@,
        JsonView::Text(step_word(s.status)),
    );
    json::with_field(
        json::with_field(
            json::with_field(what, "duration_s"@, json::number_view(s.duration_s)),
            "dependencies"@,
            json::texts_view(s.dependencies),
        ),
        "is_replica"@,
        JsonView::Bool(s.is_replica),
    )
}

impl AssignedStep {
    /// The step as JSON.
    pub fn to_json(&self) -> (r: Json)
        ensures
            r@ == step_form(self@),
    {
        let mut form = Json::object();
        form.set("step_id", Json::text(self.step_id.as_str()));
        form.set("step_name", Json::text(self.step_name.as_str()));
        form.set("assigned_at", Json::text(self.assigned_at.as_str()));
        form.set("status", Json::text(self.status.word()));
        form.set("duration_s", Json::number(self.duration_s));
        form.set("dependencies", Json::texts(&self.dependencies));
        form.set("is_replica", Json::Bool(self.is_replica));
        form
    }
}

/// The JSON form of a link.
pub open spec fn hop_form(h: HopView) -> JsonView {
    let ends = json::with_field(
        json::with_field(JsonView::Object(Map::empty()), "from"@, JsonView::Text(h.from)),
        "to"@,
        JsonView::Text(h.to),
    );
    json::with_field(
        json::with_field(
            json::with_field(
                json::with_field(
                    json::with_field(ends, "distance_km"@, json::number_view(h.distance_km)),
                    "latency_ms"@,
                    json::number_view(h.latency_ms),
                ),
                "bw_mbps"@,
                json::number_view(h.bw_mbps),
            ),
            "quality"@,
            json::number_view(h.quality),
        ),
        "completed"@,
        JsonView::Bool(h.completed),
    )
}

impl ISLHop {
    /// The link as JSON.
    pub fn to_json(&self) -> (r: Json)
        ensures
            r@ == hop_form(self@),
    {
        let mut form = Json::object();
        form.set("from", Json::text(self.from.as_str()));
        form.set("to", Json::text(self.to.as_str()));
        form.set("distance_km", Json::number(self.distance_km));
        form.set("latency_ms", Json::number(self.latency_ms));
        form.set("bw_mbps", Json::number(self.bw_mbps));
        form.set("quality", Json::number(self.quality));
        form.set("completed", Json::Bool(self.completed));
        form
    }
}

/// The JSON form of a transfer.
pub open spec fn transfer_form(t: TransferView) -> JsonView {
    let what = json::with_field(
        json::with_field(
            json::with_field(
                json::with_field(
                    JsonView::Object(Map::empty()),
                    "transfer_id"@,
                    JsonView::Text(t.transfer_id),
                ),
                "from_satellite"@,
                JsonView::Text(t.from_satellite),
            ),
            "to_satellite"@,
            JsonView::Text(t.to_satellite),
        ),
        "data_mb"@,
        json::number_view(t.data_mb),
    );
    json::with_field(
        json::with_field(
            json::with_field(
                what,
                "hops"@,
                JsonView::Array(t.hops.map_values(|h: HopView| hop_form(h))),
            ),
            "started_at"@,
            JsonView::Text(t.started_at),
        ),
        "status"@,
        JsonView::Text(transfer_word(t.status)),
    )
}

impl ISLTransfer {
    /// The transfer as JSON.
    pub fn to_json(&self) -> (r: Json)
        ensures
            r@ == transfer_form(self@),
    {
        let mut form = Json::object();
        form.set("transfer_id", Json::text(self.transfer_id.as_str()));
        form.set("from_satellite", Json::text(self.from_satellite.as_str()));
        form.set("to_satellite", Json::text(self.to_satellite.as_str()));
        form.set("data_mb", Json::number(self.data_mb));
        form.set("hops", hops_json(&self.hops));
        form.set("started_at", Json::text(self.started_at.as_str()));
        form.set("status", Json::text(self.status.word()));
        form
    }
}

fn hops_json(hops: &Vec<ISLHop>) -> (r: Json)
    ensures
        r@ == JsonView::Array(hop_views(hops@).map_values(|h: HopView| hop_form(h))),
{
    let ghost forms = hop_views(hops@).map_values(|h: HopView| hop_form(h));
    let mut items: Vec<Json> = Vec::new();
    let mut i: usize = 0;
    assert(json::array_view(items@) =~= forms.take(0));
    while i < hops.len()
        invariant
            i <= hops@.len(),
            forms == hop_views(hops@).map_values(|h: HopView| hop_form(h)),
            json::array_view(items@) == forms.take(i as int),
        decreases hops@.len() - i,
    {
        let item = hops[i].to_json();
        proof {
            json::lemma_array_push(items@, item);
            assert(forms.take(i + 1) =~= forms.take(i as int).push(item@));
        }
        items.push(item);
        i = i + 1;
    }
    assert(forms.take(i as int) =~= forms);
    Json::list(items)
}

/// The local view of a constellation execution.
#[derive(Debug, Clone)]
pub struct ConstellationState {
    /// Steps assigned to this satellite
    pub assigned_steps: Table<AssignedStep>,
    /// Active transfers involving this satellite
    pub active_transfers: Table<ISLTransfer>,
    /// Steps completed on this satellite
    pub completed_steps: Vec<String>,
    /// Steps that failed and were handed off
    pub failed_over_steps: Vec<String>,
    /// This satellite's ID
    pub satellite_id: String,
    /// Accumulated data transferred (MB)
    pub total_isl_data_mb: Double,
}

/// What is known of the execution: steps and transfers by their names.
#[verifier::ext_equal]
pub struct ConstellationView {
    pub steps: Map<Seq<char>, StepView>,
    pub transfers: Map<Seq<char>, TransferView>,
    pub completed: Seq<Seq<char>>,
    pub failed_over: Seq<Seq<char>>,
    pub satellite_id: Seq<char>,
    pub total_isl_data_mb: Double,
}

pub open spec fn step_views(steps: Map<Seq<char>, AssignedStep>) -> Map<Seq<char>, StepView> {
    steps.map_values(|s: AssignedStep| s@)
}

pub open spec fn transfer_views(transfers: Map<Seq<char>, ISLTransfer>) -> Map<Seq<char>, TransferView> {
    transfers.map_values(|t: ISLTransfer| t@)
}

proof fn lemma_step_insert(steps: Map<Seq<char>, AssignedStep>, key: Seq<char>, step: AssignedStep)
    ensures
        step_views(steps.insert(key, step)) == step_views(steps).insert(key, step@),
{
    assert(step_views(steps.insert(key, step)) =~= step_views(steps).insert(key, step@));
}

proof fn lemma_transfer_insert(transfers: Map<Seq<char>, ISLTransfer>, key: Seq<char>, transfer: ISLTransfer)
    ensures
        transfer_views(transfers.insert(key, transfer)) == transfer_views(transfers).insert(key, transfer@),
{
    assert(transfer_views(transfers.insert(key, transfer)) =~= transfer_views(transfers).insert(key, transfer@));
}

impl ConstellationState {
    pub open spec fn view(self) -> ConstellationView {
        ConstellationView {
            steps: step_views(self.assigned_steps@),
            transfers: transfer_views(self.active_transfers@),
            completed: json::text_list(self.completed_steps@),
            failed_over: json::text_list(self.failed_over_steps@),
            satellite_id: self.satellite_id@,
            total_isl_data_mb: self.total_isl_data_mb,
        }
    }

    /// The tables are in order.
    pub open spec fn wf(self) -> bool {
        self.assigned_steps.wf() && self.active_transfers.wf()
    }
}

/// A step that nothing more is to be done for here.
pub open spec fn settled(status: StepStatus) -> bool {
    status == StepStatus::Completed || status == StepStatus::FailedOver
}

/// A step that is still to be done here.
pub open spec fn outstanding(status: StepStatus) -> bool {
    status == StepStatus::Pending || status == StepStatus::Executing
}

impl ConstellationView {
    /// Every assigned step is completed or failed over.
    pub open spec fn all_done(self) -> bool {
        forall|id: Seq<char>| #[trigger] self.steps.dom().contains(id) ==> settled(self.steps[id].status)
    }

    /// The steps that are still to be done here.
    pub open spec fn remaining(self) -> Set<Seq<char>> {
        self.steps.dom().filter(|id: Seq<char>| outstanding(self.steps[id].status))
    }

    /// Every step and every transfer is filed under its own name.
    pub open spec fn filed(self) -> bool {
        &&& forall|id: Seq<char>| #[trigger] self.steps.dom().contains(id) ==> self.steps[id].step_id == id
        &&& forall|id: Seq<char>| #[trigger]
            self.transfers.dom().contains(id) ==> self.transfers[id].transfer_id == id
    }

    /// The steps that are noted as completed or failed over are assigned ones, and
    /// each completed one is noted once.
    pub open spec fn tallied(self) -> bool {
        &&& forall|i: int| 0 <= i < self.completed.len() ==> self.steps.dom().contains(#[trigger] self.completed[i])
        &&& forall|i: int|
            0 <= i < self.failed_over.len() ==> self.steps.dom().contains(#[trigger] self.failed_over[i])
        &&& self.completed.no_duplicates()
        &&& self.steps.dom().finite()
    }
}

/// A list of names with one more noted, where it is not there yet.
pub open spec fn noted(names: Seq<Seq<char>>, name: Seq<char>) -> Seq<Seq<char>> {
    if names.contains(name) {
        names
    } else {
        names.push(name)
    }
}

/// The event is about the constellation.
pub open spec fn concerns_constellation(event_type: Seq<char>) -> bool {
    "constellation."@.is_prefix_of(event_type) || "isl_transfer."@.is_prefix_of(event_type)
}

/// A text, or another where there is none.
pub open spec fn text_or(text: Option<Seq<char>>, otherwise: Seq<char>) -> Seq<char> {
    match text {
        Some(t) => t,
        None => otherwise,
    }
}

/// A number, or another where there is none.
pub open spec fn number_or(x: Option<Double>, otherwise: Double) -> Double {
    match x {
        Some(d) => d,
        None => otherwise,
    }
}

/// The step that an assignment describes.
#[verifier::opaque]
pub open spec fn described_step(event: EventView) -> StepView {
    StepView {
        step_id: text_or(event.step_id, "unknown"@),
        step_name: text_or(json::text_field(event.payload, "step_name"@), "unnamed"@),
        assigned_at: event.timestamp,
        status: StepStatus::Pending,
        duration_s: number_or(json::number_field(event.payload, "duration_s"@), double::integer(0)),
        dependencies: json::texts_field(event.payload, "dependencies"@),
        is_replica: json::flag_field(event.payload, "is_replica"@) == Some(true),
    }
}

/// The transfer that an announcement describes.
#[verifier::opaque]
pub open spec fn described_transfer(event: EventView) -> TransferView {
    TransferView {
        transfer_id: text_or(json::text_field(event.payload, "transfer_id"@), "unknown"@),
        from_satellite: text_or(json::text_field(event.payload, "from_satellite"@), ""@),
        to_satellite: text_or(json::text_field(event.payload, "to_satellite"@), ""@),
        data_mb: number_or(json::number_field(event.payload, "data_mb"@), double::integer(0)),
        hops: Seq::empty(),
        started_at: event.timestamp,
        status: TransferStatus::InProgress,
    }
}

/// The transfer that a later event is about.
pub open spec fn transfer_meant(event: EventView) -> Seq<char> {
    text_or(json::text_field(event.payload, "transfer_id"@), ""@)
}

/// Quality of a link in sunlight, before it is cut off at zero.
pub open spec fn falloff(distance_km: Double) -> Double {
    double::difference(
        double::integer(1),
        double::product(double::quotient(distance_km, double::integer(5000)), double::ratio(6, 10)),
    )
}

/// Quality of a link: it falls with distance and is a tenth lower in eclipse;
/// 0.85 where the satellite's position is not known.
pub open spec fn link_quality(distance_km: Double, position: Option<Position>) -> Double {
    match position {
        Some(p) => double::larger(
            double::product(
                falloff(distance_km),
                if p.in_eclipse { double::ratio(9, 10) } else { double::integer(1) },
            ),
            double::integer(0),
        ),
        None => double::ratio(85, 100),
    }
}

/// However far apart satellites are, the quality of their link is never negative.
pub proof fn link_quality_is_not_negative(distance_km: Double, position: Position)
    ensures
        double::at_most(double::integer(0), link_quality(distance_km, Some(position))),
{
    double::integer_zero();
    reveal(double::less);
    reveal(double::at_most);
}

proof fn lemma_falloff(distance_km: Double)
    requires
        double::at_most(double::integer(0), distance_km),
    ensures
        ({
            let spent = double::product(double::quotient(distance_km, double::integer(5000)), double::ratio(6, 10));
            &&& falloff(distance_km) == double::sum(double::integer(1), double::opposite(spent))
            &&& distance_km.finite() ==> spent.finite() && spent.rank() >= 0
            &&& distance_km.finite() ==> falloff(distance_km).finite()
            &&& !distance_km.finite() ==> falloff(distance_km).infinite() && falloff(distance_km).negative()
            &&& double::at_most(falloff(distance_km), double::integer(1))
        }),
{
    reveal(double::at_most);
    double::integer_zero();
    let (one, far) = (double::integer(1), double::integer(5000));
    let share = double::ratio(6, 10);
    double::integers_are_exact(1);
    double::integers_are_exact(5000);
    double::integers_are_finite(1);
    double::integers_are_finite(5000);
    double::integers_compare(1, 5000);
    reveal(double::less);
    growth::fractions_are_shares(6, 10);
    let part = double::quotient(distance_km, far);
    let spent = double::product(part, share);
    if distance_km.finite() {
        growth::quotients_are_no_larger(distance_km, far);
        growth::lemma_quotient_rank(distance_km, far);
        growth::quotients_grow(double::integer(0), distance_km, far);
        growth::lemma_quotient_rank(double::integer(0), far);
        growth::lemma_nearest_to_zero(size(far.unsigned()));
        assert(size(0) == 0);
        assert(0 * double::one() == 0) by (nonlinear_arith);
        assert(part.rank() >= 0);
        growth::shares_are_no_larger(part, share);
        growth::products_grow(double::integer(0), part, share);
        growth::lemma_product_rank(double::integer(0), share);
        assert(0 * size(share.unsigned()) == 0) by (nonlinear_arith);
        growth::lemma_nearest_to_zero(double::one());
        assert(spent.rank() >= 0);
        let less_by = double::opposite(spent);
        growth::lemma_opposite(spent);
        growth::sums_move_with_the_sign(one, less_by);
        // Nor does it fall below what is spent.
        growth::lemma_rank_of_units(one, double::integer(0));
        growth::sums_move_with_the_sign(less_by, one);
        growth::lemma_sum_rank(one, less_by);
        growth::lemma_sum_rank(less_by, one);
    } else {
        reveal(double::quotient);
        reveal(double::product);
        reveal(double::sum);
        assert(part.infinite() && !part.negative());
        assert(spent.infinite() && !spent.negative());
    }
}

proof fn lemma_link_quality(distance_km: Double, position: Position)
    requires
        double::at_most(double::integer(0), distance_km),
    ensures
        ({
            let clear = falloff(distance_km);
            let share = if position.in_eclipse { double::ratio(9, 10) } else { double::integer(1) };
            let quality = link_quality(distance_km, Some(position));
            &&& share.finite() && share.rank() > 0 && double::at_most(share, double::integer(1))
            &&& double::at_most(double::integer(0), clear) ==> quality == double::product(clear, share)
            &&& double::at_most(clear, double::integer(0)) ==> quality.rank() == 0
            &&& !quality.nan()
        }),
{
    reveal(double::at_most);
    reveal(double::less);
    double::integer_zero();
    double::integers_are_finite(1);
    growth::fractions_are_shares(9, 10);
    lemma_falloff(distance_km);
    let clear = falloff(distance_km);
    let share = if position.in_eclipse { double::ratio(9, 10) } else { double::integer(1) };
    growth::lemma_rank_of_units(share, double::integer(0));
    if distance_km.finite() {
        growth::lemma_product_rank(clear, share);
        growth::lemma_product_rank(double::integer(0), share);
        assert(size(0) == 0);
        assert(0 * size(share.unsigned()) == 0) by (nonlinear_arith);
        vstd::arithmetic::power2::lemma_pow2_pos(double::model::UNIT_EXPONENT as nat);
        growth::lemma_nearest_to_zero(double::one());
        if clear.rank() >= 0 {
            growth::products_grow(double::integer(0), clear, share);
        }
        if clear.rank() <= 0 {
            growth::products_grow(clear, double::integer(0), share);
        }
    } else {
        reveal(double::product);
    }
}

/// The quality of a link lies between zero and one and does not rise with the
/// distance; it is zero from where it would fall below.
pub proof fn link_quality_falls_with_distance(near_km: Double, far_km: Double, position: Position)
    requires
        double::at_most(double::integer(0), near_km),
        double::at_most(near_km, far_km),
    ensures
        double::at_most(double::integer(0), link_quality(near_km, Some(position))),
        double::at_most(link_quality(near_km, Some(position)), double::integer(1)),
        double::at_most(link_quality(far_km, Some(position)), link_quality(near_km, Some(position))),
        double::at_most(falloff(far_km), double::integer(0)) ==> link_quality(far_km, Some(position)).rank() == 0,
{
    reveal(double::at_most);
    double::integer_zero();
    double::integers_are_finite(1);
    double::integers_are_finite(5000);
    lemma_link_quality(near_km, position);
    lemma_link_quality(far_km, position);
    lemma_falloff(near_km);
    lemma_falloff(far_km);
    link_quality_is_not_negative(near_km, position);
    let (near, far) = (falloff(near_km), falloff(far_km));
    let share = if position.in_eclipse { double::ratio(9, 10) } else { double::integer(1) };
    if near.rank() >= 0 {
        assert(near.finite());
        growth::shares_are_no_larger(near, share);
        growth::lemma_product_rank(near, share);
    }
    if far.rank() > 0 {
        assert(far.finite());
        let five = double::integer(5000);
        growth::fractions_are_shares(6, 10);
        growth::lemma_rank_of_units(five, double::integer(0));
        growth::quotients_grow(near_km, far_km, five);
        let (a, b) = (double::quotient(near_km, five), double::quotient(far_km, five));
        double::integers_are_exact(1);
        double::integers_are_exact(5000);
        double::integers_compare(1, 5000);
        reveal(double::less);
        growth::quotients_are_no_larger(near_km, five);
        growth::quotients_are_no_larger(far_km, five);
        growth::products_grow(a, b, double::ratio(6, 10));
        let (x, y) = (double::product(a, double::ratio(6, 10)), double::product(b, double::ratio(6, 10)));
        growth::lemma_opposite(x);
        growth::lemma_opposite(y);
        growth::sums_grow(double::opposite(y), double::opposite(x), double::integer(1));
        assert(double::at_most(far, near));
        growth::products_grow(far, near, share);
    }
}

/// In eclipse the quality of a link is nine tenths of what it is in sunlight.
pub proof fn link_quality_is_lower_in_eclipse(distance_km: Double, dark: Position, light: Position)
    requires
        double::at_most(double::integer(0), distance_km),
        dark.in_eclipse,
        !light.in_eclipse,
    ensures
        link_quality(distance_km, Some(dark)).rank() == double::product(
            link_quality(distance_km, Some(light)),
            double::ratio(9, 10),
        ).rank(),
        !link_quality(distance_km, Some(dark)).nan(),
{
    reveal(double::at_most);
    reveal(double::less);
    double::integer_zero();
    lemma_link_quality(distance_km, dark);
    lemma_link_quality(distance_km, light);
    lemma_falloff(distance_km);
    let clear = falloff(distance_km);
    if clear.rank() >= 0 {
        growth::product_with_one(clear);
    } else {
        let none = link_quality(distance_km, Some(light));
        let share = double::ratio(9, 10);
        growth::lemma_product_rank(none, share);
        assert(size(0) == 0);
        assert(0 * size(share.unsigned()) == 0) by (nonlinear_arith);
        vstd::arithmetic::power2::lemma_pow2_pos(double::model::UNIT_EXPONENT as nat);
        growth::lemma_nearest_to_zero(double::one());
    }
}

/// Latency of a link in milliseconds: the time of light and 2 for handling.
pub open spec fn link_latency_ms(distance_km: Double) -> Double {
    double::sum(
        double::product(
            double::quotient(distance_km, double::ratio(299_792_458, 1000)),
            double::integer(1000),
        ),
        double::integer(2),
    )
}

/// The completed link that an event describes.
#[verifier::opaque]
pub open spec fn described_hop(event: EventView, position: Option<Position>) -> HopView {
    let distance_km = number_or(json::number_field(event.payload, "distance_km"@), double::integer(1000));
    let quality = link_quality(distance_km, position);
    HopView {
        from: text_or(json::text_field(event.payload, "from"@), ""@),
        to: text_or(json::text_field(event.payload, "to"@), ""@),
        distance_km,
        latency_ms: link_latency_ms(distance_km),
        bw_mbps: double::product(double::integer(100), quality),
        quality,
        completed: true,
    }
}

/// Whether an event is about a step that is assigned here.
pub open spec fn step_known(state: ConstellationView, event: EventView) -> bool {
    event.step_id matches Some(id) && state.steps.dom().contains(id)
}

/// The state with the status of one step changed.
pub open spec fn with_status(state: ConstellationView, id: Seq<char>, status: StepStatus) -> ConstellationView {
    ConstellationView {
        steps: state.steps.insert(id, StepView { status, ..state.steps[id] }),
        ..state
    }
}

/// The state after a completed step, where it is assigned here.
pub open spec fn step_closed(event: EventView, state: ConstellationView) -> ConstellationView {
    if step_known(state, event) {
        let id = event.step_id->0;
        ConstellationView {
            completed: noted(state.completed, id),
            ..with_status(state, id, StepStatus::Completed)
        }
    } else {
        state
    }
}

/// The state after a step was handed over, where it is assigned here.
pub open spec fn step_handed_over(event: EventView, state: ConstellationView) -> ConstellationView {
    if step_known(state, event) {
        let id = event.step_id->0;
        ConstellationView {
            failed_over: state.failed_over.push(id),
            ..with_status(state, id, StepStatus::FailedOver)
        }
    } else {
        state
    }
}

/// The state after a completed link, where its transfer is known.
pub open spec fn hop_added(
    event: EventView,
    state: ConstellationView,
    position: Option<Position>,
) -> ConstellationView {
    let transfer_id = transfer_meant(event);
    let transfer = state.transfers[transfer_id];
    if state.transfers.dom().contains(transfer_id) {
        let longer = TransferView { hops: transfer.hops.push(described_hop(event, position)), ..transfer };
        ConstellationView { transfers: state.transfers.insert(transfer_id, longer), ..state }
    } else {
        state
    }
}

/// The state after a completed transfer, where it is known: its data counts as
/// transferred.
pub open spec fn transfer_closed(event: EventView, state: ConstellationView) -> ConstellationView {
    let transfer_id = transfer_meant(event);
    let transfer = state.transfers[transfer_id];
    if state.transfers.dom().contains(transfer_id) {
        let done = TransferView { status: TransferStatus::Completed, ..transfer };
        ConstellationView {
            transfers: state.transfers.insert(transfer_id, done),
            total_isl_data_mb: double::sum(state.total_isl_data_mb, transfer.data_mb),
            ..state
        }
    } else {
        state
    }
}

/// The state after an event.
pub open spec fn next_state(
    event: EventView,
    state: ConstellationView,
    position: Option<Position>,
) -> ConstellationView {
    if event.event_type == "constellation.step_assigned"@ {
        let step = described_step(event);
        ConstellationView { steps: state.steps.insert(step.step_id, step), ..state }
    } else if event.event_type == "constellation.step_started"@ {
        if step_known(state, event) {
            with_status(state, event.step_id->0, StepStatus::Executing)
        } else {
            state
        }
    } else if event.event_type == "constellation.step_completed"@ {
        step_closed(event, state)
    } else if event.event_type == "constellation.failover"@ {
        step_handed_over(event, state)
    } else if event.event_type == "isl_transfer.started"@ {
        let new = described_transfer(event);
        ConstellationView { transfers: state.transfers.insert(new.transfer_id, new), ..state }
    } else if event.event_type == "isl_transfer.hop_completed"@ {
        hop_added(event, state, position)
    } else if event.event_type == "isl_transfer.completed"@ {
        transfer_closed(event, state)
    } else {
        state
    }
}

/// The announcement that every step assigned to the satellite is done.
#[verifier::opaque]
pub open spec fn satellite_complete(
    event: EventView,
    state: ConstellationView,
    satellite: SatelliteState,
    stamp: Seq<char>,
) -> EventView {
    let counts = json::with_field(
        json::with_field(
            json::with_field(
                JsonView::Object(Map::empty()),
                "satellite_id"@,
                JsonView::Text(state.satellite_id),
            ),
            "steps_completed"@,
            json::natural_view(state.completed.len()),
        ),
        "steps_failed_over"@,
        json::natural_view(state.failed_over.len()),
    );
    EventView {
        event_type: "constellation.satellite_complete"@,
        timestamp: stamp,
        job_id: event.job_id,
        step_id: None,
        payload: json::with_field(
            json::with_field(
                json::with_field(
                    counts,
                    "total_isl_data_mb"@,
                    json::number_view(state.total_isl_data_mb),
                ),
                "battery_percent"@,
                json::number_view(satellite.battery_wh),
            ),
            "temperature_c"@,
            json::number_view(satellite.temperature_c),
        ),
    }
}

/// The acknowledgment that a step was handed over; `state` is the state after it.
#[verifier::opaque]
pub open spec fn failover_acknowledged(event: EventView, state: ConstellationView, stamp: Seq<char>) -> EventView {
    EventView {
        event_type: "constellation.failover_acknowledged"@,
        timestamp: stamp,
        job_id: event.job_id,
        step_id: event.step_id,
        payload: json::with_field(
            json::with_field(
                json::with_field(
                    JsonView::Object(Map::empty()),
                    "satellite_id"@,
                    JsonView::Text(state.satellite_id),
                ),
                "reason"@,
                JsonView::Text(text_or(json::text_field(event.payload, "reason"@), "unknown"@)),
            ),
            "steps_remaining"@,
            json::natural_view(state.remaining().len()),
        ),
    }
}

pub open spec fn quality_sum(hops: Seq<HopView>) -> Double
    decreases hops.len(),
{
    if hops.len() == 0 {
        double::integer(0)
    } else {
        double::sum(quality_sum(hops.drop_last()), hops.last().quality)
    }
}

pub open spec fn latency_sum(hops: Seq<HopView>) -> Double
    decreases hops.len(),
{
    if hops.len() == 0 {
        double::integer(0)
    } else {
        double::sum(latency_sum(hops.drop_last()), hops.last().latency_ms)
    }
}

/// Mean quality of the links; zero where there are none.
pub open spec fn mean_quality(hops: Seq<HopView>) -> Double {
    if hops.len() == 0 {
        double::integer(0)
    } else {
        double::quotient(quality_sum(hops), double::integer(hops.len() as int))
    }
}

/// The report on a completed transfer; `state` is the state after it.
#[verifier::opaque]
pub open spec fn quality_report(
    event: EventView,
    state: ConstellationView,
    satellite: SatelliteState,
    stamp: Seq<char>,
) -> EventView {
    let transfer_id = transfer_meant(event);
    let transfer = state.transfers[transfer_id];
    let what = json::with_field(
        json::with_field(
            json::with_field(
                JsonView::Object(Map::empty()),
                "transfer_id"@,
                JsonView::Text(transfer_id),
            ),
            "hops"@,
            json::natural_view(transfer.hops.len()),
        ),
        "data_mb"@,
        json::number_view(transfer.data_mb),
    );
    let how = json::with_field(
        json::with_field(
            what,
            "avg_link_quality"@,
            json::number_view(double::to_parts(mean_quality(transfer.hops), 1000)),
        ),
        "total_latency_ms"@,
        json::number_view(double::to_parts(latency_sum(transfer.hops), 10)),
    );
    EventView {
        event_type: "isl_transfer.quality_report"@,
        timestamp: stamp,
        job_id: event.job_id,
        step_id: event.step_id,
        payload: json::with_field(
            json::with_field(
                how,
                "total_isl_data_mb"@,
                json::number_view(state.total_isl_data_mb),
            ),
            "battery_after_transfer"@,
            json::number_view(satellite.battery_wh),
        ),
    }
}

/// The events that follow from an event: that the satellite is done with its
/// steps, that a step was handed over, or how a transfer went.
pub open spec fn follow_ups(
    event: EventView,
    state: ConstellationView,
    position: Option<Position>,
    satellite: SatelliteState,
    stamp: Seq<char>,
) -> Seq<EventView> {
    let after = next_state(event, state, position);
    if event.event_type == "constellation.step_completed"@ && step_known(state, event) && after.all_done() {
        seq![satellite_complete(event, after, satellite, stamp)]
    } else if event.event_type == "constellation.failover"@ && step_known(state, event) {
        seq![failover_acknowledged(event, after, stamp)]
    } else if event.event_type == "isl_transfer.completed"@ && state.transfers.dom().contains(
        transfer_meant(event),
    ) {
        seq![quality_report(event, after, satellite, stamp)]
    } else {
        Seq::empty()
    }
}

/// A completed link of a known transfer is added to that transfer, with the quality
/// that its length and the satellite's position give it; every other link and
/// transfer stays.
pub proof fn completed_hops_are_added(event: EventView, state: ConstellationView, position: Option<Position>)
    requires
        event.event_type == "isl_transfer.hop_completed"@,
        state.transfers.dom().contains(transfer_meant(event)),
    ensures
        ({
            let id = transfer_meant(event);
            let after = next_state(event, state, position);
            let hops = after.transfers[id].hops;
            let length_km = number_or(json::number_field(event.payload, "distance_km"@), double::integer(1000));
            &&& hops.len() == state.transfers[id].hops.len() + 1
            &&& hops.drop_last() == state.transfers[id].hops
            &&& hops.last().distance_km == length_km
            &&& hops.last().quality == link_quality(length_km, position)
            &&& hops.last().bw_mbps == double::product(double::integer(100), hops.last().quality)
            &&& hops.last().latency_ms == link_latency_ms(length_km)
            &&& position is None ==> hops.last().quality == double::ratio(85, 100)
            &&& hops.last().completed
            &&& json::text_field(event.payload, "from"@) matches Some(name) ==> hops.last().from == name
            &&& json::text_field(event.payload, "to"@) matches Some(name) ==> hops.last().to == name
            &&& after.transfers.dom() == state.transfers.dom()
            &&& forall|other: Seq<char>|
                other != id && state.transfers.dom().contains(other) ==> #[trigger] after.transfers[other]
                    == state.transfers[other]
        }),
{
    lemma_event_types();
    lemma_hop_event_type();
    reveal(described_hop);
    let id = transfer_meant(event);
    let after = next_state(event, state, position);
    assert(after == hop_added(event, state, position));
    assert(after.transfers[id].hops.drop_last() =~= state.transfers[id].hops);
    assert(after.transfers.dom() =~= state.transfers.dom());
}

proof fn lemma_hop_event_type()
    ensures
        "isl_transfer.hop_completed"@ != "constellation.step_started"@,
{
    reveal_strlit("isl_transfer.hop_completed");
    reveal_strlit("constellation.step_started");
    assert("isl_transfer.hop_completed"@[0] != "constellation.step_started"@[0]);
}

/// Handling an event keeps every step and every transfer under its own name.
pub proof fn handling_keeps_filing(event: EventView, state: ConstellationView, position: Option<Position>)
    requires
        state.filed(),
    ensures
        next_state(event, state, position).filed(),
{
    reveal(described_step);
    reveal(described_transfer);
}

/// Handling an event keeps the tally of completed and failed over steps.
pub proof fn handling_keeps_the_tally(event: EventView, state: ConstellationView, position: Option<Position>)
    requires
        state.tallied(),
    ensures
        next_state(event, state, position).tallied(),
{
    if step_known(state, event) {
        let id = event.step_id->0;
        assert(state.steps.dom().contains(id));
    }
}

/// A step that completes counts once, however often that is reported.
pub proof fn completing_again_counts_nothing(event: EventView, state: ConstellationView)
    ensures
        step_closed(event, step_closed(event, state)).completed == step_closed(event, state).completed,
        step_known(state, event) ==> step_closed(event, state).completed.contains(event.step_id->0),
{
    if step_known(state, event) {
        let id = event.step_id->0;
        if !state.completed.contains(id) {
            assert(state.completed.push(id)[state.completed.len() as int] == id);
        }
    }
}

/// Completed steps are assigned ones and never outnumber them; those that failed
/// over are assigned ones.
pub proof fn completed_steps_are_assigned(state: ConstellationView)
    requires
        state.tallied(),
    ensures
        state.completed.to_set().subset_of(state.steps.dom()),
        state.completed.len() == state.completed.to_set().len(),
        state.completed.len() <= state.steps.dom().len(),
        state.failed_over.to_set().subset_of(state.steps.dom()),
{
    state.completed.unique_seq_to_set();
    vstd::set_lib::lemma_len_subset(state.completed.to_set(), state.steps.dom());
}

/// No event takes a step or a transfer away, and a step other than the one that
/// the event names stays as it is.
pub proof fn handling_touches_only_what_is_named(
    event: EventView,
    state: ConstellationView,
    position: Option<Position>,
    id: Seq<char>,
)
    ensures
        ({
            let after = next_state(event, state, position);
            let named = text_or(event.step_id, "unknown"@);
            let meant = described_transfer(event).transfer_id;
            &&& state.steps.dom().contains(id) ==> after.steps.dom().contains(id)
            &&& state.transfers.dom().contains(id) ==> after.transfers.dom().contains(id)
            &&& state.steps.dom().contains(id) && id != named ==> after.steps[id] == state.steps[id]
            &&& state.transfers.dom().contains(id) && id != meant && id != transfer_meant(event)
                ==> after.transfers[id] == state.transfers[id]
            &&& after.satellite_id == state.satellite_id
        }),
{
    reveal(described_step);
    reveal(described_transfer);
}

/// An event that is not about the constellation changes nothing and has no
/// follow-ups.
pub proof fn other_events_change_nothing(
    event: EventView,
    state: ConstellationView,
    position: Option<Position>,
    satellite: SatelliteState,
    stamp: Seq<char>,
)
    requires
        !concerns_constellation(event.event_type),
    ensures
        next_state(event, state, position) == state,
        follow_ups(event, state, position, satellite, stamp).len() == 0,
{
    reveal_strlit("constellation.");
    reveal_strlit("isl_transfer.");
    reveal_strlit("constellation.step_assigned");
    reveal_strlit("constellation.step_started");
    reveal_strlit("constellation.step_completed");
    reveal_strlit("constellation.failover");
    reveal_strlit("isl_transfer.started");
    reveal_strlit("isl_transfer.hop_completed");
    reveal_strlit("isl_transfer.completed");
    assert("constellation."@.is_prefix_of("constellation.step_assigned"@));
    assert("constellation."@.is_prefix_of("constellation.step_started"@));
    assert("constellation."@.is_prefix_of("constellation.step_completed"@));
    assert("constellation."@.is_prefix_of("constellation.failover"@));
    assert("isl_transfer."@.is_prefix_of("isl_transfer.started"@));
    assert("isl_transfer."@.is_prefix_of("isl_transfer.hop_completed"@));
    assert("isl_transfer."@.is_prefix_of("isl_transfer.completed"@));
}

/// The satellite announces that it is done exactly when a step that is assigned
/// to it completes and every assigned step is then completed or failed over.
pub proof fn completion_is_announced_when_all_is_done(
    event: EventView,
    state: ConstellationView,
    position: Option<Position>,
    satellite: SatelliteState,
    stamp: Seq<char>,
)
    ensures
        ({
            let events = follow_ups(event, state, position, satellite, stamp);
            let announced = events.len() > 0 && events[0].event_type == "constellation.satellite_complete"@;
            announced <==> event.event_type == "constellation.step_completed"@ && step_known(state, event)
                && next_state(event, state, position).all_done()
        }),
        follow_ups(event, state, position, satellite, stamp).len() <= 1,
{
    reveal(satellite_complete);
    reveal(failover_acknowledged);
    reveal(quality_report);
    reveal_strlit("constellation.satellite_complete");
    reveal_strlit("constellation.failover_acknowledged");
    reveal_strlit("isl_transfer.quality_report");
    assert("constellation.satellite_complete"@.len() == 32);
    assert("constellation.failover_acknowledged"@.len() == 35);
    assert("isl_transfer.quality_report"@.len() == 27);
}

/// What an optional reference refers to.
pub open spec fn position_of(position: Option<&Position>) -> Option<Position> {
    match position {
        Some(p) => Some(*p),
        None => None,
    }
}

fn text_at_or(payload: &Json, name: &str, otherwise: &str) -> (r: String)
    ensures
        r@ == text_or(json::text_field(payload@, name@), otherwise@),
{
    match payload.text_at(name) {
        Some(t) => t.to_owned(),
        None => otherwise.to_owned(),
    }
}

fn number_at_or(payload: &Json, name: &str, otherwise: Double) -> (r: Double)
    ensures
        r == number_or(json::number_field(payload@, name@), otherwise),
{
    match payload.number_at(name) {
        Some(x) => x,
        None => otherwise,
    }
}

impl ConstellationState {
    pub fn new(satellite_id: String) -> (r: ConstellationState)
        ensures
            r.wf(),
            r@ == (ConstellationView {
                steps: Map::empty(),
                transfers: Map::empty(),
                completed: Seq::empty(),
                failed_over: Seq::empty(),
                satellite_id: satellite_id@,
                total_isl_data_mb: double::integer(0),
            }),
            r@.filed(),
            r@.tallied(),
    {
        let r = ConstellationState {
            assigned_steps: Table::new(),
            active_transfers: Table::new(),
            completed_steps: Vec::new(),
            failed_over_steps: Vec::new(),
            satellite_id,
            total_isl_data_mb: Double::from_i64(0),
        };
        proof {
            assert(r@.steps =~= Map::<Seq<char>, StepView>::empty());
            assert(r@.transfers =~= Map::<Seq<char>, TransferView>::empty());
            assert(r@.completed =~= Seq::<Seq<char>>::empty());
            assert(r@.failed_over =~= Seq::<Seq<char>>::empty());
        }
        r
    }

    /// Number of steps assigned to this satellite.
    pub fn steps_assigned(&self) -> (r: usize)
        requires
            self.wf(),
        ensures
            r == self@.steps.dom().len(),
    {
        assert(self@.steps.dom() =~= self.assigned_steps@.dom());
        self.assigned_steps.len()
    }

    /// Number of steps completed on this satellite.
    pub fn steps_completed(&self) -> (r: usize)
        ensures
            r == self@.completed.len(),
            self@.tallied() ==> r == self@.completed.to_set().len() && r <= self@.steps.dom().len(),
    {
        proof {
            if self@.tallied() {
                completed_steps_are_assigned(self@);
            }
        }
        self.completed_steps.len()
    }

    /// Whether all assigned steps are done (completed or failed over).
    pub fn all_done(&self) -> (r: bool)
        requires
            self.wf(),
        ensures
            r == self@.all_done(),
    {
        let ghost keys = self.assigned_steps.keys();
        let n: usize = self.assigned_steps.len();
        let mut i: usize = 0;
        proof {
            self.assigned_steps.lemma_keys();
        }
        while i < n
            invariant
                self.wf(),
                keys == self.assigned_steps.keys(),
                n == keys.len(),
                i <= n,
                forall|j: int| 0 <= j < i ==> settled(self@.steps[#[trigger] keys[j]].status),
            decreases n - i,
        {
            let step = self.assigned_steps.value_at(i);
            assert(self@.steps[keys[i as int]] == step@);
            if step.status != StepStatus::Completed && step.status != StepStatus::FailedOver {
                assert(self@.steps.dom().contains(keys[i as int]));
                return false;
            }
            i = i + 1;
        }
        assert forall|id: Seq<char>| #[trigger] self@.steps.dom().contains(id) implies settled(
            self@.steps[id].status,
        ) by {
            assert(keys.to_set().contains(id));
            let j = choose|j: int| 0 <= j < keys.len() && keys[j] == id;
            assert(keys[j] == id);
        }
        true
    }

    /// Number of steps that are still to be done here.
    fn steps_remaining(&self) -> (r: usize)
        requires
            self.wf(),
        ensures
            r == self@.remaining().len(),
    {
        let ghost keys = self.assigned_steps.keys();
        let n: usize = self.assigned_steps.len();
        let mut i: usize = 0;
        let mut count: usize = 0;
        let ghost mut counted: Set<Seq<char>> = Set::empty();
        proof {
            self.assigned_steps.lemma_keys();
        }
        while i < n
            invariant
                self.wf(),
                keys == self.assigned_steps.keys(),
                keys.no_duplicates(),
                n == keys.len(),
                count <= i <= n,
                counted.finite(),
                counted.len() == count,
                forall|id: Seq<char>| #[trigger]
                    counted.contains(id) <==> (exists|j: int| 0 <= j < i && keys[j] == id) && outstanding(
                        self@.steps[id].status,
                    ),
            decreases n - i,
        {
            let step = self.assigned_steps.value_at(i);
            let ghost id = keys[i as int];
            let ghost before = counted;
            assert(self@.steps[id] == step@);
            if step.status == StepStatus::Pending || step.status == StepStatus::Executing {
                count = count + 1;
                proof {
                    counted = counted.insert(id);
                }
            }
            proof {
                assert(!before.contains(id));
                assert forall|other: Seq<char>| #[trigger] counted.contains(other) <==> (exists|j: int|
                    0 <= j < i + 1 && keys[j] == other) && outstanding(self@.steps[other].status) by {
                    if other == id {
                        assert(keys[i as int] == other);
                    }
                    if exists|j: int| 0 <= j < i + 1 && keys[j] == other {
                        let j = choose|j: int| 0 <= j < i + 1 && keys[j] == other;
                        if other != id {
                            assert(0 <= j < i && keys[j] == other);
                        }
                    }
                    if before.contains(other) {
                        let j = choose|j: int| 0 <= j < i && keys[j] == other;
                        assert(0 <= j < i + 1 && keys[j] == other);
                    }
                }
            }
            i = i + 1;
        }
        proof {
            assert(counted =~= self@.remaining()) by {
                assert forall|id: Seq<char>| counted.contains(id) <==> self@.remaining().contains(id) by {
                    assert(self@.steps.dom().contains(id) <==> keys.to_set().contains(id));
                    if keys.contains(id) {
                        let j = choose|j: int| 0 <= j < keys.len() && keys[j] == id;
                        assert(0 <= j < i && keys[j] == id);
                    }
                }
            }
        }
        count
    }
}

/// Check if an event is constellation-related.
pub fn is_constellation_event(event: &AgentEvent) -> (r: bool)
    ensures
        r == concerns_constellation(event.event_type@),
{
    begins_with(event.event_type.as_str(), "constellation.") || begins_with(
        event.event_type.as_str(),
        "isl_transfer.",
    )
}

/// Process a constellation event and update local state.
/// Returns additional events to emit.
pub fn handle_event(
    event: &AgentEvent,
    state: &mut ConstellationState,
    sat_state: &SatelliteState,
    position: Option<&Position>,
) -> (r: Vec<AgentEvent>)
    requires
        old(state).wf(),
    ensures
        final(state).wf(),
        final(state)@ == next_state(event@, old(state)@, position_of(position)),
        old(state)@.tallied() ==> final(state)@.tallied(),
        exists|now: UtcTime|
            now.valid() && types::event_list(r@) == #[trigger] follow_ups(
                event@,
                old(state)@,
                position_of(position),
                *sat_state,
                time::stamp(now),
            ),
{
    let now = UtcTime::now();
    let stamp = now.to_rfc3339();
    handle_event_at(event, state, sat_state, position, stamp.as_str())
}

/// Processes a constellation event; events that follow carry the given stamp.
pub fn handle_event_at(
    event: &AgentEvent,
    state: &mut ConstellationState,
    sat_state: &SatelliteState,
    position: Option<&Position>,
    stamp: &str,
) -> (r: Vec<AgentEvent>)
    requires
        old(state).wf(),
    ensures
        final(state).wf(),
        final(state)@ == next_state(event@, old(state)@, position_of(position)),
        old(state)@.tallied() ==> final(state)@.tallied(),
        types::event_list(r@) == follow_ups(event@, old(state)@, position_of(position), *sat_state, stamp@),
{
    proof {
        lemma_event_types();
        if state@.tallied() {
            handling_keeps_the_tally(event@, state@, position_of(position));
        }
    }
    let kind = event.event_type.as_str();
    if same(kind, "constellation.step_assigned") {
        handle_step_assigned(event, state);
        listed(None)
    } else if same(kind, "constellation.step_started") {
        if let Some(step_id) = &event.step_id {
            set_status(state, step_id.as_str(), StepStatus::Executing);
        }
        listed(None)
    } else if same(kind, "constellation.step_completed") {
        listed(handle_step_completed(event, state, sat_state, stamp))
    } else if same(kind, "constellation.failover") {
        listed(handle_failover(event, state, stamp))
    } else if same(kind, "isl_transfer.started") {
        handle_isl_started(event, state);
        listed(None)
    } else if same(kind, "isl_transfer.hop_completed") {
        handle_isl_hop(event, state, position);
        listed(None)
    } else if same(kind, "isl_transfer.completed") {
        listed(handle_isl_completed(event, state, sat_state, stamp))
    } else {
        listed(None)
    }
}

/// The list of one event or none.
fn listed(event: Option<AgentEvent>) -> (r: Vec<AgentEvent>)
    ensures
        types::event_list(r@) == match event {
            Some(e) => seq![e@],
            None => Seq::<EventView>::empty(),
        },
{
    let mut events: Vec<AgentEvent> = Vec::new();
    match event {
        Some(e) => {
            let ghost view = e@;
            events.push(e);
            assert(types::event_list(events@) =~= seq![view]);
        },
        None => {
            assert(types::event_list(events@) =~= Seq::<EventView>::empty());
        },
    }
    events
}

/// Completes a step, where it is assigned here, and says so when it was the last.
fn handle_step_completed(
    event: &AgentEvent,
    state: &mut ConstellationState,
    sat_state: &SatelliteState,
    stamp: &str,
) -> (r: Option<AgentEvent>)
    requires
        old(state).wf(),
    ensures
        final(state).wf(),
        final(state)@ == step_closed(event@, old(state)@),
        r is Some == (step_known(old(state)@, event@) && final(state)@.all_done()),
        r matches Some(e) ==> e@ == satellite_complete(event@, final(state)@, *sat_state, stamp@),
{
    let step_id = match &event.step_id {
        Some(id) => id,
        None => {
            return None;
        },
    };
    if !set_status(state, step_id.as_str(), StepStatus::Completed) {
        return None;
    }
    note(&mut state.completed_steps, step_id.as_str());
    if state.all_done() {
        Some(build_progress_event(event, state, sat_state, stamp))
    } else {
        None
    }
}

/// Notes a name, where it is not there yet.
fn note(names: &mut Vec<String>, name: &str)
    ensures
        json::text_list(final(names)@) == noted(json::text_list(old(names)@), name@),
{
    let mut i: usize = 0;
    while i < names.len()
        invariant
            i <= names@.len(),
            names@ == old(names)@,
            forall|j: int| 0 <= j < i ==> (#[trigger] names@[j])@ != name@,
        decreases names@.len() - i,
    {
        if same(names[i].as_str(), name) {
            assert(json::text_list(names@)[i as int] == name@);
            return;
        }
        i = i + 1;
    }
    let ghost before = names@;
    assert(!json::text_list(before).contains(name@));
    names.push(name.to_owned());
    assert(json::text_list(names@) =~= json::text_list(before).push(name@));
}

/// The types of the events that are handled differ.
proof fn lemma_event_types()
    ensures
        "constellation.step_assigned"@.len() == 27,
        "constellation.step_started"@.len() == 26,
        "constellation.step_completed"@.len() == 28,
        "constellation.failover"@.len() == 22,
        "isl_transfer.started"@.len() == 20,
        "isl_transfer.hop_completed"@.len() == 26,
        "isl_transfer.completed"@.len() == 22,
        "constellation.failover"@ != "isl_transfer.completed"@,
{
    reveal_strlit("constellation.step_assigned");
    reveal_strlit("constellation.step_started");
    reveal_strlit("constellation.step_completed");
    reveal_strlit("constellation.failover");
    reveal_strlit("isl_transfer.started");
    reveal_strlit("isl_transfer.hop_completed");
    reveal_strlit("isl_transfer.completed");
    assert("constellation.failover"@[0] != "isl_transfer.completed"@[0]);
}

/// Changes the status of a step, where it is assigned here.
fn set_status(state: &mut ConstellationState, step_id: &str, status: StepStatus) -> (r: bool)
    requires
        old(state).wf(),
    ensures
        final(state).wf(),
        r == old(state)@.steps.dom().contains(step_id@),
        r ==> final(state)@ == with_status(old(state)@, step_id@, status),
        !r ==> final(state)@ == old(state)@,
{
    let ghost before = *state;
    let r = match state.assigned_steps.get_mut(step_id) {
        Some(step) => {
            step.status = status;
            true
        },
        None => false,
    };
    proof {
        if r {
            let step = state.assigned_steps@[step_id@];
            lemma_step_insert(before.assigned_steps@, step_id@, step);
            assert(state@ =~= with_status(before@, step_id@, status));
        } else {
            assert(state@ =~= before@);
        }
    }
    r
}

fn handle_step_assigned(event: &AgentEvent, state: &mut ConstellationState)
    requires
        old(state).wf(),
    ensures
        final(state).wf(),
        final(state)@ == (ConstellationView {
            steps: old(state)@.steps.insert(described_step(event@).step_id, described_step(event@)),
            ..old(state)@
        }),
{
    proof {
        reveal(described_step);
    }
    let ghost before = *state;
    let step_id = match &event.step_id {
        Some(id) => id.clone(),
        None => "unknown".to_owned(),
    };
    let is_replica = match event.payload.flag_at("is_replica") {
        Some(b) => b,
        None => false,
    };
    let step = AssignedStep {
        step_id: step_id.clone(),
        step_name: text_at_or(&event.payload, "step_name", "unnamed"),
        assigned_at: event.timestamp.clone(),
        status: StepStatus::Pending,
        duration_s: number_at_or(&event.payload, "duration_s", Double::from_i64(0)),
        dependencies: event.payload.texts_at("dependencies"),
        is_replica,
    };
    proof {
        assert(step@ =~= described_step(event@));
        lemma_step_insert(before.assigned_steps@, step_id@, step);
    }
    state.assigned_steps.insert(step_id, step);
}

/// Hands a step over, where it is assigned here, and acknowledges it.
fn handle_failover(event: &AgentEvent, state: &mut ConstellationState, stamp: &str) -> (r: Option<AgentEvent>)
    requires
        old(state).wf(),
    ensures
        final(state).wf(),
        final(state)@ == step_handed_over(event@, old(state)@),
        r is Some == step_known(old(state)@, event@),
        r matches Some(e) ==> e@ == failover_acknowledged(event@, final(state)@, stamp@),
{
    proof {
        reveal(failover_acknowledged);
    }
    let step_id = match &event.step_id {
        Some(id) => id,
        None => {
            return None;
        },
    };
    if !set_status(state, step_id.as_str(), StepStatus::FailedOver) {
        return None;
    }
    let ghost changed = state@;
    state.failed_over_steps.push(step_id.clone());
    assert(state@.failed_over =~= changed.failed_over.push(step_id@));

    let reason = text_at_or(&event.payload, "reason", "unknown");
    let mut payload = Json::object();
    payload.set("satellite_id", Json::text(state.satellite_id.as_str()));
    payload.set("reason", Json::text(reason.as_str()));
    payload.set("steps_remaining", Json::count(state.steps_remaining()));
    Some(
        AgentEvent {
            event_type: "constellation.failover_acknowledged".to_owned(),
            timestamp: stamp.to_owned(),
            job_id: event.job_id.clone(),
            step_id: Some(step_id.clone()),
            payload,
        },
    )
}

fn handle_isl_started(event: &AgentEvent, state: &mut ConstellationState)
    requires
        old(state).wf(),
    ensures
        final(state).wf(),
        final(state)@ == (ConstellationView {
            transfers: old(state)@.transfers.insert(
                described_transfer(event@).transfer_id,
                described_transfer(event@),
            ),
            ..old(state)@
        }),
{
    proof {
        reveal(described_transfer);
    }
    let ghost before = *state;
    let transfer_id = text_at_or(&event.payload, "transfer_id", "unknown");
    let transfer = ISLTransfer {
        transfer_id: transfer_id.clone(),
        from_satellite: text_at_or(&event.payload, "from_satellite", ""),
        to_satellite: text_at_or(&event.payload, "to_satellite", ""),
        data_mb: number_at_or(&event.payload, "data_mb", Double::from_i64(0)),
        hops: Vec::new(),
        started_at: event.timestamp.clone(),
        status: TransferStatus::InProgress,
    };
    proof {
        assert(transfer@ =~= described_transfer(event@));
        lemma_transfer_insert(before.active_transfers@, transfer_id@, transfer);
    }
    state.active_transfers.insert(transfer_id, transfer);
}

/// The link that an event describes, with the quality that the satellite's
/// position allows.
fn read_hop(event: &AgentEvent, position: Option<&Position>) -> (r: ISLHop)
    ensures
        r@ == described_hop(event@, position_of(position)),
{
    proof {
        reveal(described_hop);
    }
    let distance_km = number_at_or(&event.payload, "distance_km", Double::from_i64(1000));
    let quality = match position {
        Some(pos) => {
            let loss = distance_km.over(Double::from_i64(5000)).times(Double::decimal(6, 10));
            let base_quality = Double::from_i64(1).minus(loss);
            let eclipse_penalty = if pos.in_eclipse { Double::decimal(9, 10) } else { Double::from_i64(1) };
            base_quality.times(eclipse_penalty).max(Double::from_i64(0))
        },
        None => Double::decimal(85, 100),
    };
    let light_ms = distance_km.over(Double::decimal(299_792_458, 1000)).times(Double::from_i64(1000));
    ISLHop {
        from: text_at_or(&event.payload, "from", ""),
        to: text_at_or(&event.payload, "to", ""),
        distance_km,
        latency_ms: light_ms.plus(Double::from_i64(2)),
        bw_mbps: Double::from_i64(100).times(quality),
        quality,
        completed: true,
    }
}

fn handle_isl_hop(event: &AgentEvent, state: &mut ConstellationState, position: Option<&Position>)
    requires
        old(state).wf(),
    ensures
        final(state).wf(),
        final(state)@ == hop_added(event@, old(state)@, position_of(position)),
{
    let ghost before = *state;
    let transfer_id = text_at_or(&event.payload, "transfer_id", "");
    let hop = read_hop(event, position);
    let ghost hop_view = hop@;
    let known = match state.active_transfers.get_mut(transfer_id.as_str()) {
        Some(transfer) => {
            let ghost hops = transfer.hops@;
            transfer.hops.push(hop);
            assert(hop_views(transfer.hops@) =~= hop_views(hops).push(hop_view));
            true
        },
        None => false,
    };
    proof {
        if known {
            let transfer = state.active_transfers@[transfer_id@];
            lemma_transfer_insert(before.active_transfers@, transfer_id@, transfer);
        }
        assert(state@ =~= hop_added(event@, before@, position_of(position)));
    }
}

fn handle_isl_completed(
    event: &AgentEvent,
    state: &mut ConstellationState,
    sat_state: &SatelliteState,
    stamp: &str,
) -> (r: Option<AgentEvent>)
    requires
        old(state).wf(),
    ensures
        final(state).wf(),
        r is Some == old(state)@.transfers.dom().contains(transfer_meant(event@)),
        final(state)@ == transfer_closed(event@, old(state)@),
        r matches Some(e) ==> e@ == quality_report(event@, final(state)@, *sat_state, stamp@),
{
    proof {
        reveal(quality_report);
    }
    let ghost before = *state;
    let transfer_id = text_at_or(&event.payload, "transfer_id", "");
    let closed = match state.active_transfers.get_mut(transfer_id.as_str()) {
        Some(transfer) => {
            transfer.status = TransferStatus::Completed;
            let avg_quality = average_quality(&transfer.hops);
            let total_latency_ms = total_latency(&transfer.hops);
            Some((transfer.hops.len(), transfer.data_mb, avg_quality, total_latency_ms))
        },
        None => None,
    };
    let (hops, data_mb, avg_quality, total_latency_ms) = match closed {
        Some(c) => c,
        None => {
            assert(state@ =~= before@);
            return None;
        },
    };
    state.total_isl_data_mb = state.total_isl_data_mb.plus(data_mb);
    proof {
        let transfer = state.active_transfers@[transfer_id@];
        lemma_transfer_insert(before.active_transfers@, transfer_id@, transfer);
        assert(state@ =~= transfer_closed(event@, before@));
    }

    let mut payload = Json::object();
    payload.set("transfer_id", Json::text(transfer_id.as_str()));
    payload.set("hops", Json::count(hops));
    payload.set("data_mb", Json::number(data_mb));
    payload.set("avg_link_quality", Json::number(avg_quality.round_to(1000)));
    payload.set("total_latency_ms", Json::number(total_latency_ms.round_to(10)));
    payload.set("total_isl_data_mb", Json::number(state.total_isl_data_mb));
    payload.set("battery_after_transfer", Json::number(sat_state.battery_percent()));
    Some(
        AgentEvent {
            event_type: "isl_transfer.quality_report".to_owned(),
            timestamp: stamp.to_owned(),
            job_id: event.job_id.clone(),
            step_id: copy_text(&event.step_id),
            payload,
        },
    )
}

fn average_quality(hops: &Vec<ISLHop>) -> (r: Double)
    ensures
        r == mean_quality(hop_views(hops@)),
{
    if hops.len() == 0 {
        return Double::from_i64(0);
    }
    let ghost all = hop_views(hops@);
    let mut total = Double::from_i64(0);
    let mut i: usize = 0;
    assert(all.take(0) =~= Seq::<HopView>::empty());
    while i < hops.len()
        invariant
            i <= hops@.len(),
            all == hop_views(hops@),
            total == quality_sum(all.take(i as int)),
        decreases hops@.len() - i,
    {
        assert(all.take(i + 1).drop_last() =~= all.take(i as int));
        total = total.plus(hops[i].quality);
        i = i + 1;
    }
    assert(all.take(i as int) =~= all);
    total.over(Double::from_u64(hops.len() as u64))
}

fn total_latency(hops: &Vec<ISLHop>) -> (r: Double)
    ensures
        r == latency_sum(hop_views(hops@)),
{
    let ghost all = hop_views(hops@);
    let mut total = Double::from_i64(0);
    let mut i: usize = 0;
    assert(all.take(0) =~= Seq::<HopView>::empty());
    while i < hops.len()
        invariant
            i <= hops@.len(),
            all == hop_views(hops@),
            total == latency_sum(all.take(i as int)),
        decreases hops@.len() - i,
    {
        assert(all.take(i + 1).drop_last() =~= all.take(i as int));
        total = total.plus(hops[i].latency_ms);
        i = i + 1;
    }
    assert(all.take(i as int) =~= all);
    total
}

fn build_progress_event(
    event: &AgentEvent,
    state: &ConstellationState,
    sat_state: &SatelliteState,
    stamp: &str,
) -> (r: AgentEvent)
    ensures
        r@ == satellite_complete(event@, state@, *sat_state, stamp@),
{
    proof {
        reveal(satellite_complete);
    }
    let mut payload = Json::object();
    payload.set("satellite_id", Json::text(state.satellite_id.as_str()));
    payload.set("steps_completed", Json::count(state.completed_steps.len()));
    payload.set("steps_failed_over", Json::count(state.failed_over_steps.len()));
    payload.set("total_isl_data_mb", Json::number(state.total_isl_data_mb));
    payload.set("battery_percent", Json::number(sat_state.battery_percent()));
    payload.set("temperature_c", Json::number(sat_state.temperature_c));
    AgentEvent {
        event_type: "constellation.satellite_complete".to_owned(),
        timestamp: stamp.to_owned(),
        job_id: event.job_id.clone(),
        step_id: None,
        payload,
    }
}

/// The payload of a constellation event with the satellite's actual state.
pub open spec fn enriched_payload(
    payload: JsonView,
    satellite: SatelliteState,
    position: Option<Position>,
) -> JsonView {
    let health = json::with_field(
        json::with_field(payload, "actual_battery_percent"@, json::number_view(satellite.battery_wh)),
        "actual_temperature_c"@,
        json::number_view(satellite.temperature_c),
    );
    match position {
        Some(p) => json::with_field(
            json::with_field(
                json::with_field(
                    json::with_field(health, "actual_lat"@, json::number_view(p.lat)),
                    "actual_lon"@,
                    json::number_view(p.lon),
                ),
                "actual_altitude_km"@,
                json::number_view(p.altitude_km),
            ),
            "actual_in_eclipse"@,
            JsonView::Bool(p.in_eclipse),
        ),
        None => health,
    }
}

/// The event with the satellite's actual state, where it is about the
/// constellation.
pub open spec fn enriched(event: EventView, satellite: SatelliteState, position: Option<Position>) -> EventView {
    if concerns_constellation(event.event_type) {
        EventView { payload: enriched_payload(event.payload, satellite, position), ..event }
    } else {
        event
    }
}

/// Enrich a constellation event with actual satellite state.
pub fn enrich_event(event: &mut AgentEvent, sat_state: &SatelliteState, position: Option<&Position>)
    ensures
        final(event)@ == enriched(old(event)@, *sat_state, position_of(position)),
        final(event).payload is Object == old(event).payload is Object,
{
    if !is_constellation_event(event) {
        return;
    }
    event.payload.set("actual_battery_percent", Json::number(sat_state.battery_percent()));
    event.payload.set("actual_temperature_c", Json::number(sat_state.temperature_c));

    if let Some(pos) = position {
        event.payload.set("actual_lat", Json::number(pos.lat));
        event.payload.set("actual_lon", Json::number(pos.lon));
        event.payload.set("actual_altitude_km", Json::number(pos.altitude_km));
        event.payload.set("actual_in_eclipse", Json::Bool(pos.in_eclipse));
    }
}

/// Every member that enrichment sets.
pub open spec fn is_actual_field(name: Seq<char>) -> bool {
    name == "actual_battery_percent"@ || name == "actual_temperature_c"@ || name == "actual_lat"@ || name
        == "actual_lon"@ || name == "actual_altitude_km"@ || name == "actual_in_eclipse"@
}

/// Enrichment sets its own members and leaves every other one as it was, and an
/// event that is not about the constellation stays whole.
pub proof fn enrichment_keeps_other_fields(
    event: EventView,
    satellite: SatelliteState,
    position: Option<Position>,
    name: Seq<char>,
)
    ensures
        !is_actual_field(name) ==> json::field(enriched(event, satellite, position).payload, name) == json::field(
            event.payload,
            name,
        ),
        !concerns_constellation(event.event_type) ==> enriched(event, satellite, position) == event,
{
}

/// Enriching twice with the same state is enriching once.
pub proof fn enrichment_is_idempotent(event: EventView, satellite: SatelliteState, position: Option<Position>)
    ensures
        enriched(enriched(event, satellite, position), satellite, position) == enriched(event, satellite, position),
{
    let once = enriched(event, satellite, position).payload;
    let twice = enriched(enriched(event, satellite, position), satellite, position).payload;
    if event.payload is Object {
        assert(twice->Object_0 =~= once->Object_0);
    }
}

/// Why a step cannot be executed here.
pub open spec fn failover_reason(satellite: SatelliteState) -> Option<Seq<char>> {
    if double::less(satellite.battery_wh, double::integer(10)) {
        Some("Battery critically low ("@ + tenths_text(satellite.battery_wh) + "%), cannot execute step"@)
    } else if double::less(double::integer(75), satellite.temperature_c) {
        Some("Temperature too high ("@ + tenths_text(satellite.temperature_c) + "°C), thermal protection active"@)
    } else if !double::less(double::integer(15), satellite.battery_wh) {
        Some("Compute not available (battery below 15%)"@)
    } else {
        None
    }
}

/// Check if the satellite can execute a constellation step.
/// Returns Some(reason) if the step should be failed over.
pub fn check_failover_condition(sat_state: &SatelliteState, position: Option<&Position>) -> (r: Option<String>)
    ensures
        match r {
            Some(reason) => failover_reason(*sat_state) == Some(reason@),
            None => failover_reason(*sat_state) is None,
        },
{
    // Critical battery: can't sustain compute
    if sat_state.battery_percent().is_less(Double::from_i64(10)) {
        let figure = sat_state.battery_percent().to_tenths();
        return Some(join("Battery critically low (", figure.as_str(), "%), cannot execute step"));
    }
    // Thermal shutdown
    if Double::from_i64(75).is_less(sat_state.temperature_c) {
        let figure = sat_state.temperature_c.to_tenths();
        return Some(join("Temperature too high (", figure.as_str(), "°C), thermal protection active"));
    }
    // Compute not available
    if !sat_state.compute_available() {
        return Some("Compute not available (battery below 15%)".to_owned());
    }
    None
}

} // verus!
