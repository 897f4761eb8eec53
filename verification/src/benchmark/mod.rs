//! Measures each tool against the same work done without it.
use vstd::hash_map::StringHashMap;
use vstd::prelude::*;
use vstd::string::*;

use crate::order;
use crate::order::{sort, Ranked};
use crate::text;
use crate::text::{contains, count_bytes, fit, same, trim};

verus! {

/// How latency is measured.
#[derive(Clone, Copy, Debug)]
pub struct LatencyConfig {
    pub warmup_runs: usize,
    pub measured_runs: usize,
    pub trim_outliers: bool,
}

impl Default for LatencyConfig {
    fn default() -> (r: Self)
        ensures
            r.warmup_runs == 3,
            r.measured_runs == 7,
            r.trim_outliers,
    {
        LatencyConfig { warmup_runs: 3, measured_runs: 7, trim_outliers: true }
    }
}

/// The result of one side of a comparison.
#[derive(Debug)]
pub struct SideReport {
    pub response_bytes: usize,
    pub response_preview: String,
    pub tokens: usize,
    pub naive_tokens: usize,
    /// The times that count, in microseconds, the shortest first.
    pub latency_us: Vec<u128>,
    pub error: Option<String>,
    /// The arguments of the tool, as text.
    pub args: Option<String>,
    /// The steps that stand in for the tool.
    pub steps: Option<Vec<String>>,
    /// Whether the result was taken from an earlier report.
    pub reused: bool,
    pub full_output: String,
    /// How well the output is grounded, as text.
    pub grounding: Option<String>,
}

/// A `SideReport` as plain values.
pub struct SideModel {
    pub response_bytes: int,
    pub response_preview: Seq<char>,
    pub tokens: int,
    pub naive_tokens: int,
    pub latency_us: Seq<u128>,
    pub error: Option<Seq<char>>,
    pub args: Option<Seq<char>>,
    pub steps: Option<Seq<Seq<char>>>,
    pub reused: bool,
    pub full_output: Seq<char>,
    pub grounding: Option<Seq<char>>,
}

/// The texts of an optional list of strings.
pub open spec fn optional_texts(list: Option<Vec<String>>) -> Option<Seq<Seq<char>>> {
    match list {
        Some(list) => Some(text::texts(list@)),
        None => None,
    }
}

impl View for SideReport {
    type V = SideModel;

    open spec fn view(&self) -> SideModel {
        SideModel {
            response_bytes: self.response_bytes as int,
            response_preview: self.response_preview@,
            tokens: self.tokens as int,
            naive_tokens: self.naive_tokens as int,
            latency_us: self.latency_us@,
            error: text::optional_text(self.error),
            args: text::optional_text(self.args),
            steps: optional_texts(self.steps),
            reused: self.reused,
            full_output: self.full_output@,
            grounding: text::optional_text(self.grounding),
        }
    }
}

fn copy_text(s: &Option<String>) -> (r: Option<String>)
    ensures
        text::optional_text(r) == text::optional_text(*s),
{
    match s {
        Some(s) => Some(s.clone()),
        None => None,
    }
}

fn copy_texts(list: &Vec<String>) -> (r: Vec<String>)
    ensures
        text::texts(r@) == text::texts(list@),
{
    let n: usize = list.len();
    let mut out: Vec<String> = Vec::new();
    let mut i: usize = 0;
    while i < n
        invariant
            n == list@.len(),
            i <= n,
            out@.len() == i,
            forall|k: int| 0 <= k < i ==> (#[trigger] out@[k])@ == list@[k]@,
        decreases n - i,
    {
        out.push(list[i].clone());
        i = i + 1;
    }
    assert(text::texts(out@) == text::texts(list@));
    out
}

fn copy_times(list: &Vec<u128>) -> (r: Vec<u128>)
    ensures
        r@ == list@,
{
    let n: usize = list.len();
    let mut out: Vec<u128> = Vec::new();
    let mut i: usize = 0;
    while i < n
        invariant
            n == list@.len(),
            i <= n,
            out@ == list@.take(i as int),
        decreases n - i,
    {
        out.push(list[i]);
        assert(list@.take(i + 1) == list@.take(i as int).push(list@[i as int]));
        i = i + 1;
    }
    assert(list@.take(n as int) == list@);
    out
}

impl SideReport {
    /// Copies a report.
    pub fn copy(&self) -> (r: Self)
        ensures
            r@ == self@,
    {
        SideReport {
            response_bytes: self.response_bytes,
            response_preview: self.response_preview.clone(),
            tokens: self.tokens,
            naive_tokens: self.naive_tokens,
            latency_us: copy_times(&self.latency_us),
            error: copy_text(&self.error),
            args: copy_text(&self.args),
            steps: match &self.steps {
                Some(steps) => Some(copy_texts(steps)),
                None => None,
            },
            reused: self.reused,
            full_output: self.full_output.clone(),
            grounding: copy_text(&self.grounding),
        }
    }
}

/// A scenario: a use of a tool that is measured.
#[derive(Debug)]
pub struct Scenario {
    pub id: String,
    pub tool: String,
    pub tier: u8,
}

/// The result of a scenario.
#[derive(Debug)]
pub struct ScenarioReport {
    pub scenario_id: String,
    pub tool: String,
    pub mcp: SideReport,
    pub non_mcp: SideReport,
}

/// A `ScenarioReport` as plain values.
pub struct ScenarioModel {
    pub scenario_id: Seq<char>,
    pub tool: Seq<char>,
    pub mcp: SideModel,
    pub non_mcp: SideModel,
}

impl View for ScenarioReport {
    type V = ScenarioModel;

    open spec fn view(&self) -> ScenarioModel {
        ScenarioModel {
            scenario_id: self.scenario_id@,
            tool: self.tool@,
            mcp: self.mcp@,
            non_mcp: self.non_mcp@,
        }
    }
}

/// The results of an earlier run.
#[derive(Debug)]
pub struct BenchmarkReport {
    pub git_sha: Option<String>,
    pub scenarios: Vec<ScenarioReport>,
}

/// The sides without tools of an earlier run, by scenario.
pub struct NonMcpCache {
    inner: StringHashMap<SideReport>,
}

impl View for NonMcpCache {
    type V = Map<Seq<char>, SideModel>;

    closed spec fn view(&self) -> Map<Seq<char>, SideModel> {
        self.inner@.map_values(|side: SideReport| side@)
    }
}

impl NonMcpCache {
    /// Nothing is known of an earlier run.
    pub fn new() -> (r: Self)
        ensures
            r@ == Map::<Seq<char>, SideModel>::empty(),
    {
        let r = NonMcpCache { inner: StringHashMap::new() };
        assert(r@ == Map::<Seq<char>, SideModel>::empty());
        r
    }

    /// Notes the side of a scenario.
    pub fn insert(&mut self, scenario_id: &str, side: SideReport)
        ensures
            final(self)@ == old(self)@.insert(scenario_id@, side@),
    {
        self.inner.insert(scenario_id.to_owned(), side);
        assert(self@ == old(self)@.insert(scenario_id@, side@));
    }

    /// The side of a scenario, if it is known.
    pub fn get(&self, scenario_id: &str) -> (r: Option<&SideReport>)
        ensures
            match r {
                Some(side) => self@.contains_key(scenario_id@) && self@[scenario_id@] == side@,
                None => !self@.contains_key(scenario_id@),
            },
    {
        self.inner.get(scenario_id)
    }

    /// Counts the scenarios.
    pub fn len(&self) -> (r: usize)
        ensures
            r == self@.dom().len(),
    {
        assert(self@.dom() == self.inner@.dom());
        self.inner.len()
    }

    /// Tells whether there are no scenarios.
    pub fn is_empty(&self) -> (r: bool)
        ensures
            r == self@.is_empty(),
    {
        assert(self@.dom() == self.inner@.dom());
        self.inner.is_empty()
    }
}

/// The sides without tools in some reports; the last one where a scenario comes
/// twice.
pub open spec fn collected(scenarios: Seq<ScenarioReport>) -> Map<Seq<char>, SideModel>
    decreases scenarios.len(),
{
    if scenarios.len() == 0 {
        Map::empty()
    } else {
        collected(scenarios.drop_last()).insert(
            scenarios.last().scenario_id@,
            scenarios.last().non_mcp@,
        )
    }
}

/// Whether an earlier report may be used: any may where no revision is expected,
/// else only one of that revision.
pub open spec fn usable(git_sha: Option<String>, expected_sha: Option<&str>) -> bool {
    match expected_sha {
        Some(want) => text::optional_text(git_sha) == Some(want@),
        None => true,
    }
}

/// Takes the sides without tools from an earlier report, or nothing where the
/// report is not of the expected revision.
pub fn build_non_mcp_cache(prior: &BenchmarkReport, expected_sha: Option<&str>) -> (r: NonMcpCache)
    ensures
        r@ == if usable(prior.git_sha, expected_sha) {
            collected(prior.scenarios@)
        } else {
            Map::empty()
        },
{
    let mut cache = NonMcpCache::new();
    match expected_sha {
        Some(want) => match &prior.git_sha {
            Some(have) => {
                if !same(have.as_str(), want) {
                    return cache;
                }
            },
            None => {
                return cache;
            },
        },
        None => {},
    }
    let n: usize = prior.scenarios.len();
    let mut i: usize = 0;
    while i < n
        invariant
            n == prior.scenarios@.len(),
            i <= n,
            cache@ == collected(prior.scenarios@.take(i as int)),
        decreases n - i,
    {
        assert(prior.scenarios@.take(i + 1).drop_last() == prior.scenarios@.take(i as int));
        let report = &prior.scenarios[i];
        cache.insert(report.scenario_id.as_str(), report.non_mcp.copy());
        i = i + 1;
    }
    assert(prior.scenarios@.take(n as int) == prior.scenarios@);
    cache
}

/// A report without a revision, or of another one, is never used where a
/// revision is expected.
pub proof fn law_stale_reports_are_not_used(git_sha: Option<String>, expected_sha: &str)
    ensures
        git_sha is None ==> !usable(git_sha, Some(expected_sha)),
        git_sha is Some && git_sha->0@ != expected_sha@ ==> !usable(git_sha, Some(expected_sha)),
{
}

/// The number of bytes that a preview shows at most.
pub const PREVIEW_CAP_BYTES: usize = 240;

/// The start of a text: all of it where it is short, else as many characters as
/// fit, and an ellipsis.
pub open spec fn preview(s: Seq<char>) -> Seq<char> {
    if text::byte_len(s) <= PREVIEW_CAP_BYTES {
        s
    } else {
        text::fitting(s, PREVIEW_CAP_BYTES as int) + "…"@
    }
}

/// Gives the start of a text.
pub fn preview_of(s: &str) -> (r: String)
    ensures
        r@ == preview(s@),
{
    if count_bytes(s) <= PREVIEW_CAP_BYTES {
        return s.to_owned();
    }
    let mut out = fit(s, PREVIEW_CAP_BYTES).to_owned();
    out.append("…");
    out
}

/// A preview shows the start of the text, within the limit; a short text is its
/// own preview.
pub proof fn law_preview_is_short(s: Seq<char>)
    ensures
        text::byte_len(s) <= PREVIEW_CAP_BYTES ==> preview(s) == s,
        text::byte_len(s) > PREVIEW_CAP_BYTES ==> {
            let shown = text::fitting(s, PREVIEW_CAP_BYTES as int);
            preview(s) == shown + "…"@ && shown.is_prefix_of(s) && text::byte_len(shown)
                <= PREVIEW_CAP_BYTES
        },
{
    text::lemma_fitting(s, PREVIEW_CAP_BYTES as int);
}

/// Shorter times come first.
impl Ranked for u128 {
    open spec fn ahead(a: u128, b: u128) -> bool {
        a < b
    }

    fn is_ahead(&self, other: &Self) -> bool {
        *self < *other
    }

    proof fn ahead_is_asymmetric(a: u128, b: u128) {
    }

    proof fn ahead_is_weak(a: u128, b: u128, c: u128) {
    }
}

/// The times that count: in order, and without the shortest and the longest
/// where outliers are trimmed and three times at least were taken.
pub open spec fn effective(samples: Seq<u128>, trim: bool) -> Seq<u128> {
    let sorted = order::ranked::<u128>(samples);
    if trim && sorted.len() >= 3 {
        sorted.subrange(1, sorted.len() - 1)
    } else {
        sorted
    }
}

/// Picks the times that count.
pub fn effective_samples(samples: Vec<u128>, trim: bool) -> (r: Vec<u128>)
    ensures
        r@ == effective(samples@, trim),
{
    let ghost all = samples@;
    assert(order::views(all) == all);
    let mut sorted = sort(samples);
    assert(order::views(sorted@) == sorted@);
    if trim && sorted.len() >= 3 {
        let ghost full = sorted@;
        sorted.pop();
        sorted.remove(0);
        assert(sorted@ == full.subrange(1, full.len() - 1));
    }
    sorted
}

/// Two times are dropped where outliers are trimmed and three at least were
/// taken, else none; those that are left are in order.
pub proof fn law_effective_samples(samples: Seq<u128>, trim: bool)
    ensures
        effective(samples, trim).len() == if trim && samples.len() >= 3 {
            samples.len() - 2
        } else {
            samples.len() as int
        },
        forall|i: int, j: int|
            0 <= i < j < effective(samples, trim).len() ==> #[trigger] effective(samples, trim)[i]
                <= #[trigger] effective(samples, trim)[j],
{
    order::law_ranked_is_ordered_permutation::<u128>(samples);
    let sorted = order::ranked::<u128>(samples);
    let left = effective(samples, trim);
    assert forall|i: int, j: int| 0 <= i < j < left.len() implies #[trigger] left[i]
        <= #[trigger] left[j] by {
        if trim && sorted.len() >= 3 {
            assert(left[i] == sorted[i + 1] && left[j] == sorted[j + 1]);
        }
    }
}

/// The end of a run: the time that it took, and its output or its error.
pub struct OutcomeModel {
    pub micros: u128,
    pub result: Result<Seq<char>, Seq<char>>,
}

/// The end of a run, as plain values.
pub open spec fn outcome_of(micros: u128, result: Result<String, String>) -> OutcomeModel {
    OutcomeModel {
        micros,
        result: match result {
            Ok(output) => Ok(output@),
            Err(error) => Err(error@),
        },
    }
}

/// The output of the last run that succeeded; nothing where none did.
pub open spec fn last_output(history: Seq<OutcomeModel>) -> Seq<char>
    decreases history.len(),
{
    if history.len() == 0 {
        Seq::empty()
    } else {
        match history.last().result {
            Ok(output) => output,
            Err(_) => last_output(history.drop_last()),
        }
    }
}

/// The error of the last run, if it failed.
pub open spec fn last_error(history: Seq<OutcomeModel>) -> Option<Seq<char>> {
    if history.len() == 0 {
        None
    } else {
        match history.last().result {
            Ok(_) => None,
            Err(error) => Some(error),
        }
    }
}

/// The times of all runs.
pub open spec fn times(history: Seq<OutcomeModel>) -> Seq<u128> {
    Seq::new(history.len(), |i: int| history[i].micros)
}

/// What to do next in a measurement.
#[derive(Clone, Copy, Debug, PartialEq, Eq, Structural)]
pub enum MeasureStep {
    /// Run once, and forget the result.
    WarmUp,
    /// Run once, and record the result.
    Measure,
    /// Stop.
    Finish,
}

/// A measurement under way.
pub struct Measurement {
    config: LatencyConfig,
    warmups_left: usize,
    runs_left: usize,
    samples: Vec<u128>,
    output: String,
    error: Option<String>,
    recorded: Ghost<Seq<OutcomeModel>>,
}

impl Measurement {
    /// The runs that were recorded.
    pub closed spec fn history(self) -> Seq<OutcomeModel> {
        self.recorded@
    }

    /// How the measurement is made.
    pub closed spec fn config(self) -> LatencyConfig {
        self.config
    }

    /// The number of runs that are left to warm up.
    pub closed spec fn warmups(self) -> nat {
        self.warmups_left as nat
    }

    /// The number of runs that are left to record.
    pub closed spec fn runs(self) -> nat {
        self.runs_left as nat
    }

    /// Whether every run was made.
    pub open spec fn finished(self) -> bool {
        self.warmups() == 0 && self.runs() == 0
    }

    /// What is kept agrees with the runs that were recorded; those and the ones
    /// that are left are as many as are to be recorded, and none was recorded
    /// before the last run to warm up.
    pub closed spec fn well_formed(self) -> bool {
        &&& self.recorded@.len() + self.runs_left == self.config.measured_runs
        &&& self.warmups_left <= self.config.warmup_runs
        &&& self.warmups_left > 0 ==> self.recorded@.len() == 0
        &&& self.samples@ == times(self.recorded@)
        &&& self.output@ == last_output(self.recorded@)
        &&& text::optional_text(self.error) == last_error(self.recorded@)
    }

    /// Starts a measurement.
    pub fn start(config: &LatencyConfig) -> (r: Self)
        ensures
            r.well_formed(),
            r.config() == *config,
            r.history().len() == 0,
            r.warmups() == config.warmup_runs,
            r.runs() == config.measured_runs,
    {
        let r = Measurement {
            config: *config,
            warmups_left: config.warmup_runs,
            runs_left: config.measured_runs,
            samples: Vec::new(),
            output: String::new(),
            error: None,
            recorded: Ghost(Seq::empty()),
        };
        assert(r.samples@ == times(r.recorded@));
        r
    }

    /// What to do next: first all runs to warm up, then all that are recorded.
    pub fn next_step(&self) -> (r: MeasureStep)
        ensures
            r == if self.warmups() > 0 {
                MeasureStep::WarmUp
            } else if self.runs() > 0 {
                MeasureStep::Measure
            } else {
                MeasureStep::Finish
            },
    {
        if self.warmups_left > 0 {
            MeasureStep::WarmUp
        } else if self.runs_left > 0 {
            MeasureStep::Measure
        } else {
            MeasureStep::Finish
        }
    }

    /// Notes that a run to warm up is over.
    pub fn warmed_up(&mut self)
        requires
            old(self).well_formed(),
            old(self).warmups() > 0,
        ensures
            final(self).well_formed(),
            final(self).config() == old(self).config(),
            final(self).warmups() == old(self).warmups() - 1,
            final(self).runs() == old(self).runs(),
            final(self).history() == old(self).history(),
    {
        self.warmups_left = self.warmups_left - 1;
    }

    /// Records a run, once all runs to warm up are over.
    pub fn record(&mut self, micros: u128, result: Result<String, String>)
        requires
            old(self).well_formed(),
            old(self).warmups() == 0,
            old(self).runs() > 0,
        ensures
            final(self).well_formed(),
            final(self).config() == old(self).config(),
            final(self).warmups() == 0,
            final(self).runs() == old(self).runs() - 1,
            final(self).history() == old(self).history().push(outcome_of(micros, result)),
    {
        let ghost before = self.recorded@;
        let ghost outcome = outcome_of(micros, result);
        self.runs_left = self.runs_left - 1;
        self.samples.push(micros);
        match result {
            Ok(output) => {
                self.output = output;
                self.error = None;
            },
            Err(error) => {
                self.error = Some(error);
            },
        }
        self.recorded = Ghost(before.push(outcome));
        proof {
            assert(before.push(outcome).drop_last() == before);
            assert(times(before.push(outcome)) == times(before).push(micros));
        }
    }

    /// The output that is reported.
    pub fn final_output(&self) -> (r: &str)
        requires
            self.well_formed(),
        ensures
            r@ == last_output(self.history()),
    {
        self.output.as_str()
    }

    /// Reports on a measurement whose runs were all made. The counts of tokens and
    /// the grounding are those of the output that is reported.
    pub fn finish(
        self,
        tokens: usize,
        naive_tokens: usize,
        grounding: Option<String>,
        args: Option<String>,
        steps: Option<Vec<String>>,
    ) -> (r: SideReport)
        requires
            self.well_formed(),
            self.finished(),
        ensures
            self.history().len() == self.config().measured_runs,
            r.latency_us@.len() == counted(self.config()),
            r@ == measured(
                self.history(),
                self.config().trim_outliers,
                tokens as int,
                naive_tokens as int,
                text::optional_text(grounding),
                text::optional_text(args),
                optional_texts(steps),
            ),
    {
        let response_bytes: usize = count_bytes(self.output.as_str());
        let response_preview = preview_of(self.output.as_str());
        proof {
            law_effective_samples(self.samples@, self.config.trim_outliers);
        }
        let latency_us = effective_samples(self.samples, self.config.trim_outliers);
        SideReport {
            response_bytes,
            response_preview,
            tokens,
            naive_tokens,
            latency_us,
            error: self.error,
            args,
            steps,
            reused: false,
            full_output: self.output,
            grounding,
        }
    }
}

/// Whatever is under way, the runs that were recorded and those that are left are
/// as many as are to be recorded, and none was recorded before the last run to warm
/// up.
pub proof fn law_no_run_is_lost(measurement: Measurement)
    requires
        measurement.well_formed(),
    ensures
        measurement.history().len() + measurement.runs() == measurement.config().measured_runs,
        measurement.warmups() > 0 ==> measurement.history().len() == 0,
        measurement.finished() ==> measurement.history().len()
            == measurement.config().measured_runs,
{
}

/// The number of times that count in a measurement: all, but for two where
/// outliers are trimmed and three at least are taken.
pub open spec fn counted(config: LatencyConfig) -> int {
    if config.trim_outliers && config.measured_runs >= 3 {
        config.measured_runs - 2
    } else {
        config.measured_runs as int
    }
}

/// The report on a series of runs.
pub open spec fn measured(
    history: Seq<OutcomeModel>,
    trim: bool,
    tokens: int,
    naive_tokens: int,
    grounding: Option<Seq<char>>,
    args: Option<Seq<char>>,
    steps: Option<Seq<Seq<char>>>,
) -> SideModel {
    SideModel {
        response_bytes: text::byte_len(last_output(history)) as int,
        response_preview: preview(last_output(history)),
        tokens,
        naive_tokens,
        latency_us: effective(times(history), trim),
        error: last_error(history),
        args,
        steps,
        reused: false,
        full_output: last_output(history),
        grounding,
    }
}

/// A later success clears an earlier error, and a failure keeps the output of
/// the last success.
pub proof fn law_last_run_decides(history: Seq<OutcomeModel>, outcome: OutcomeModel)
    ensures
        outcome.result is Ok ==> last_error(history.push(outcome)) is None && last_output(
            history.push(outcome),
        ) == outcome.result->Ok_0,
        outcome.result is Err ==> last_error(history.push(outcome)) == Some(
            outcome.result->Err_0,
        ) && last_output(history.push(outcome)) == last_output(history),
{
    assert(history.push(outcome).drop_last() == history);
}

/// Whether a scenario is selected: it is of no higher tier, and its tool or its
/// id holds the filter.
pub open spec fn is_selected(scenario: Scenario, filter: Option<&str>, max_tier: u8) -> bool {
    scenario.tier <= max_tier && match filter {
        Some(filter) => text::contains_text(scenario.tool@, filter@) || text::contains_text(
            scenario.id@,
            filter@,
        ),
        None => true,
    }
}

/// The places of the selected ones among the first `n` scenarios.
pub open spec fn selected(
    scenarios: Seq<Scenario>,
    filter: Option<&str>,
    max_tier: u8,
    n: nat,
) -> Seq<usize>
    decreases n,
{
    if n == 0 {
        Seq::empty()
    } else {
        let rest = selected(scenarios, filter, max_tier, (n - 1) as nat);
        if is_selected(scenarios[n - 1], filter, max_tier) {
            rest.push((n - 1) as usize)
        } else {
            rest
        }
    }
}

/// Lists the scenarios to run, by their places.
pub fn select_scenarios(scenarios: &Vec<Scenario>, filter: Option<&str>, max_tier: u8) -> (r: Vec<
    usize,
>)
    ensures
        r@ == selected(scenarios@, filter, max_tier, scenarios@.len()),
        forall|k: int| 0 <= k < r@.len() ==> #[trigger] r@[k] < scenarios@.len(),
{
    let n: usize = scenarios.len();
    let mut out: Vec<usize> = Vec::new();
    let mut i: usize = 0;
    while i < n
        invariant
            n == scenarios@.len(),
            i <= n,
            out@ == selected(scenarios@, filter, max_tier, i as nat),
            forall|k: int| 0 <= k < out@.len() ==> #[trigger] out@[k] < n,
        decreases n - i,
    {
        let scenario = &scenarios[i];
        let named = match filter {
            Some(filter) => contains(scenario.tool.as_str(), filter) || contains(
                scenario.id.as_str(),
                filter,
            ),
            None => true,
        };
        if scenario.tier <= max_tier && named {
            out.push(i);
        }
        i = i + 1;
    }
    out
}

/// A scenario is selected exactly when its tier and its names allow it, and what
/// is selected up to a tier is selected up to every higher one.
pub proof fn law_selection(
    scenarios: Seq<Scenario>,
    filter: Option<&str>,
    max_tier: u8,
    higher: u8,
    n: nat,
    i: usize,
)
    requires
        n <= scenarios.len(),
        scenarios.len() <= usize::MAX,
        max_tier <= higher,
    ensures
        selected(scenarios, filter, max_tier, n).contains(i) <==> i < n && is_selected(
            scenarios[i as int],
            filter,
            max_tier,
        ),
        selected(scenarios, filter, max_tier, n).contains(i) ==> selected(
            scenarios,
            filter,
            higher,
            n,
        ).contains(i),
    decreases n,
{
    lemma_selected(scenarios, filter, max_tier, n, i);
    lemma_selected(scenarios, filter, higher, n, i);
}

proof fn lemma_selected(
    scenarios: Seq<Scenario>,
    filter: Option<&str>,
    max_tier: u8,
    n: nat,
    i: usize,
)
    requires
        n <= scenarios.len(),
        scenarios.len() <= usize::MAX,
    ensures
        selected(scenarios, filter, max_tier, n).contains(i) <==> i < n && is_selected(
            scenarios[i as int],
            filter,
            max_tier,
        ),
    decreases n,
{
    if n > 0 {
        let rest = selected(scenarios, filter, max_tier, (n - 1) as nat);
        let all = selected(scenarios, filter, max_tier, n);
        lemma_selected(scenarios, filter, max_tier, (n - 1) as nat, i);
        if all != rest {
            assert(all.last() == n - 1);
            if rest.contains(i) {
                let k = choose|k: int| 0 <= k < rest.len() && rest[k] == i;
                assert(all[k] == i);
            }
            if all.contains(i) && i != n - 1 {
                let k = choose|k: int| 0 <= k < all.len() && all[k] == i;
                assert(rest[k] == i);
            }
        }
    }
}

/// What was measured for a scenario. The side without tools is absent where an
/// earlier run has it.
#[derive(Debug)]
pub struct Measured {
    pub mcp: SideReport,
    pub simulated: Option<SideReport>,
}

/// Runs scenarios on both sides.
pub struct BenchmarkRunner {
    pub config: LatencyConfig,
    /// The sides without tools of an earlier run, which are not measured again.
    pub non_mcp_cache: NonMcpCache,
    /// Whether outputs are checked for how well they are grounded.
    pub grounding_enabled: bool,
}

/// A side from an earlier run, marked as such.
pub open spec fn reused(side: SideModel) -> SideModel {
    SideModel { reused: true, ..side }
}

/// The side without tools that is reported for a scenario.
pub open spec fn reported_side(
    cache: Map<Seq<char>, SideModel>,
    scenario_id: Seq<char>,
    simulated: Option<SideReport>,
) -> SideModel {
    if cache.contains_key(scenario_id) {
        reused(cache[scenario_id])
    } else {
        simulated->0@
    }
}

/// The report on a scenario.
pub open spec fn scenario_report(
    cache: Map<Seq<char>, SideModel>,
    scenario: Scenario,
    measured: Measured,
) -> ScenarioModel {
    ScenarioModel {
        scenario_id: scenario.id@,
        tool: scenario.tool@,
        mcp: measured.mcp@,
        non_mcp: reported_side(cache, scenario.id@, measured.simulated),
    }
}

/// Whether all that a report on a scenario needs was measured.
pub open spec fn complete(
    cache: Map<Seq<char>, SideModel>,
    scenario: Scenario,
    measured: Measured,
) -> bool {
    cache.contains_key(scenario.id@) || measured.simulated is Some
}

impl BenchmarkRunner {
    /// A runner with the usual configuration, without an earlier run, that does
    /// not check how well outputs are grounded.
    pub fn new() -> (r: Self)
        ensures
            r.config.warmup_runs == 3,
            r.config.measured_runs == 7,
            r.config.trim_outliers,
            r.non_mcp_cache@ == Map::<Seq<char>, SideModel>::empty(),
            !r.grounding_enabled,
    {
        BenchmarkRunner {
            config: LatencyConfig::default(),
            non_mcp_cache: NonMcpCache::new(),
            grounding_enabled: false,
        }
    }

    /// The runner with another configuration.
    pub fn with_config(self, config: LatencyConfig) -> (r: Self)
        ensures
            r == (BenchmarkRunner { config, ..self }),
    {
        BenchmarkRunner {
            config,
            non_mcp_cache: self.non_mcp_cache,
            grounding_enabled: self.grounding_enabled,
        }
    }

    /// The runner with the sides without tools of an earlier run.
    pub fn with_non_mcp_cache(self, cache: NonMcpCache) -> (r: Self)
        ensures
            r == (BenchmarkRunner { non_mcp_cache: cache, ..self }),
    {
        BenchmarkRunner {
            config: self.config,
            non_mcp_cache: cache,
            grounding_enabled: self.grounding_enabled,
        }
    }

    /// The runner that checks, or does not check, how well outputs are grounded.
    pub fn with_grounding_enabled(self, enabled: bool) -> (r: Self)
        ensures
            r == (BenchmarkRunner { grounding_enabled: enabled, ..self }),
    {
        BenchmarkRunner {
            config: self.config,
            non_mcp_cache: self.non_mcp_cache,
            grounding_enabled: enabled,
        }
    }

    /// The grounding that is reported: none where it is not checked.
    pub fn grounding_for(&self, verified: Option<String>) -> (r: Option<String>)
        ensures
            r == if self.grounding_enabled {
                verified
            } else {
                None
            },
    {
        if self.grounding_enabled {
            verified
        } else {
            None
        }
    }

    /// Reports on the runs of a tool, which were all made. The counts of tokens and the grounding are
    /// those of the output that is reported.
    pub fn run_mcp(
        &self,
        measurement: Measurement,
        tokens: usize,
        naive_tokens: usize,
        verified: Option<String>,
        args: String,
    ) -> (r: SideReport)
        requires
            measurement.well_formed(),
            measurement.config() == self.config,
            measurement.finished(),
        ensures
            measurement.history().len() == self.config.measured_runs,
            r.latency_us@.len() == counted(self.config),
            r@ == measured(
                measurement.history(),
                self.config.trim_outliers,
                tokens as int,
                naive_tokens as int,
                if self.grounding_enabled {
                    text::optional_text(verified)
                } else {
                    None
                },
                Some(args@),
                None,
            ),
    {
        let grounding = self.grounding_for(verified);
        measurement.finish(tokens, naive_tokens, grounding, Some(args), None)
    }

    /// Reports on the runs of the steps that stand in for a tool, which were all
    /// made.
    pub fn run_sim(
        &self,
        measurement: Measurement,
        tokens: usize,
        naive_tokens: usize,
        verified: Option<String>,
        steps: Vec<String>,
    ) -> (r: SideReport)
        requires
            measurement.well_formed(),
            measurement.config() == self.config,
            measurement.finished(),
        ensures
            measurement.history().len() == self.config.measured_runs,
            r.latency_us@.len() == counted(self.config),
            r@ == measured(
                measurement.history(),
                self.config.trim_outliers,
                tokens as int,
                naive_tokens as int,
                if self.grounding_enabled {
                    text::optional_text(verified)
                } else {
                    None
                },
                None,
                Some(text::texts(steps@)),
            ),
    {
        let grounding = self.grounding_for(verified);
        measurement.finish(tokens, naive_tokens, grounding, None, Some(steps))
    }

    /// Tells whether the side without tools has to be measured for a scenario.
    pub fn needs_simulation(&self, scenario: &Scenario) -> (r: bool)
        ensures
            r == !self.non_mcp_cache@.contains_key(scenario.id@),
    {
        self.non_mcp_cache.get(scenario.id.as_str()).is_none()
    }

    /// Reports on a scenario. The side without tools is taken from an earlier
    /// run where there is one.
    pub fn run_one(&self, scenario: &Scenario, measured: Measured) -> (r: ScenarioReport)
        requires
            complete(self.non_mcp_cache@, *scenario, measured),
        ensures
            r@ == scenario_report(self.non_mcp_cache@, *scenario, measured),
    {
        let non_mcp = match self.non_mcp_cache.get(scenario.id.as_str()) {
            Some(cached) => {
                let mut side = cached.copy();
                side.reused = true;
                side
            },
            None => measured.simulated.unwrap(),
        };
        ScenarioReport {
            scenario_id: scenario.id.clone(),
            tool: scenario.tool.clone(),
            mcp: measured.mcp,
            non_mcp,
        }
    }

    /// Reports on the scenarios of the first tier that a filter selects, as
    /// `run_all_with_tier` does.
    pub fn run_all(
        &self,
        scenarios: &Vec<Scenario>,
        filter: Option<&str>,
        measured: Vec<Measured>,
    ) -> (r: Vec<ScenarioReport>)
        requires
            measured@.len() == selected(scenarios@, filter, 1, scenarios@.len()).len(),
            forall|k: int|
                0 <= k < measured@.len() ==> complete(
                    self.non_mcp_cache@,
                    scenarios@[selected(scenarios@, filter, 1, scenarios@.len())[k] as int],
                    #[trigger] measured@[k],
                ),
        ensures
            order::views(r@) == all_reports(
                self.non_mcp_cache@,
                scenarios@,
                selected(scenarios@, filter, 1, scenarios@.len()),
                measured@,
            ),
    {
        self.run_all_with_tier(scenarios, filter, 1, measured)
    }

    /// Reports on the scenarios up to a tier that a filter selects. `measured[k]`
    /// is about the scenario at the place `k` of those that `select_scenarios`
    /// lists.
    pub fn run_all_with_tier(
        &self,
        scenarios: &Vec<Scenario>,
        filter: Option<&str>,
        max_tier: u8,
        measured: Vec<Measured>,
    ) -> (r: Vec<ScenarioReport>)
        requires
            measured@.len() == selected(scenarios@, filter, max_tier, scenarios@.len()).len(),
            forall|k: int|
                0 <= k < measured@.len() ==> complete(
                    self.non_mcp_cache@,
                    scenarios@[selected(scenarios@, filter, max_tier, scenarios@.len())[k] as int],
                    #[trigger] measured@[k],
                ),
        ensures
            order::views(r@) == all_reports(
                self.non_mcp_cache@,
                scenarios@,
                selected(scenarios@, filter, max_tier, scenarios@.len()),
                measured@,
            ),
    {
        let places = select_scenarios(scenarios, filter, max_tier);
        let ghost all = measured@;
        let mut rest = measured;
        let n: usize = places.len();
        let mut out: Vec<ScenarioReport> = Vec::new();
        let mut i: usize = 0;
        assert(all.skip(0) == all);
        while i < n
            invariant
                n == places@.len(),
                n == all.len(),
                places@ == selected(scenarios@, filter, max_tier, scenarios@.len()),
                forall|k: int| 0 <= k < n ==> #[trigger] places@[k] < scenarios@.len(),
                forall|k: int|
                    0 <= k < n ==> complete(
                        self.non_mcp_cache@,
                        scenarios@[places@[k] as int],
                        #[trigger] all[k],
                    ),
                i <= n,
                rest@ == all.skip(i as int),
                out@.len() == i,
                forall|k: int|
                    0 <= k < i ==> (#[trigger] out@[k])@ == scenario_report(
                        self.non_mcp_cache@,
                        scenarios@[places@[k] as int],
                        all[k],
                    ),
            decreases n - i,
        {
            let sides = rest.remove(0);
            assert(sides == all[i as int]);
            out.push(self.run_one(&scenarios[places[i]], sides));
            i = i + 1;
        }
        assert(order::views(out@) == all_reports(
            self.non_mcp_cache@,
            scenarios@,
            places@,
            all,
        ));
        out
    }
}

/// The reports on the scenarios at some places.
pub open spec fn all_reports(
    cache: Map<Seq<char>, SideModel>,
    scenarios: Seq<Scenario>,
    places: Seq<usize>,
    measured: Seq<Measured>,
) -> Seq<ScenarioModel> {
    Seq::new(
        places.len(),
        |k: int| scenario_report(cache, scenarios[places[k] as int], measured[k]),
    )
}

/// A side from an earlier run is reported as it was, but for the mark that says
/// so.
pub proof fn law_reused_side_is_kept(
    cache: Map<Seq<char>, SideModel>,
    scenario: Scenario,
    measured: Measured,
)
    requires
        cache.contains_key(scenario.id@),
    ensures
        scenario_report(cache, scenario, measured).non_mcp == reused(cache[scenario.id@]),
        scenario_report(cache, scenario, measured).non_mcp.reused,
        scenario_report(cache, scenario, measured).non_mcp.full_output
            == cache[scenario.id@].full_output,
{
}

/// The text of bytes, with a mark in place of what is not well-formed.
pub uninterp spec fn lossy_text(bytes: Seq<u8>) -> Seq<char>;

/// `String::from_utf8_lossy`: gives the text of bytes. Well-formed bytes give
/// the characters that they encode; what becomes of others depends on the bytes
/// alone, and is named.
#[verifier::external_body]
fn decode_lossy(bytes: &[u8]) -> (r: String)
    ensures
        r@ == lossy_text(bytes@),
        vstd::utf8::valid_utf8(bytes@) ==> r@ == vstd::utf8::decode_utf8(bytes@),
{
    String::from_utf8_lossy(bytes).into_owned()
}

/// The revision that a line names.
pub open spec fn sha_in(line: Seq<char>) -> Option<Seq<char>> {
    if text::trimmed(line).len() == 0 {
        None
    } else {
        Some(text::trimmed(line))
    }
}

/// Reads the revision that a line names.
pub fn parse_sha(line: &str) -> (r: Option<String>)
    ensures
        text::optional_text(r) == sha_in(line@),
{
    let sha = trim(line);
    if sha.is_empty() {
        None
    } else {
        Some(sha.to_owned())
    }
}

/// Reads the revision from the end of `git rev-parse`: none where the command
/// failed or wrote nothing.
pub fn git_sha(success: bool, stdout: &[u8]) -> (r: Option<String>)
    ensures
        text::optional_text(r) == if success {
            sha_in(lossy_text(stdout@))
        } else {
            None
        },
{
    if !success {
        return None;
    }
    let line = decode_lossy(stdout);
    parse_sha(line.as_str())
}

/// A scenario is run exactly when its tier is no higher than asked for and the filter,
/// if there is one, stands in the name of its tool or in its id.
pub proof fn law_what_is_selected(scenario: Scenario, filter: Option<&str>, max_tier: u8)
    ensures
        filter is None ==> (is_selected(scenario, filter, max_tier) <==> scenario.tier
            <= max_tier),
        filter matches Some(filter_text) ==> (is_selected(scenario, filter, max_tier)
            <==> scenario.tier <= max_tier && (text::contains_text(scenario.tool@, filter_text@)
            || text::contains_text(scenario.id@, filter_text@))),
{
}

/// Scenarios are run in their order, each once.
pub proof fn law_selected_in_order(
    scenarios: Seq<Scenario>,
    filter: Option<&str>,
    max_tier: u8,
    n: nat,
)
    requires
        n <= scenarios.len(),
        scenarios.len() <= usize::MAX,
    ensures
        forall|i: int, j: int|
            0 <= i < j < selected(scenarios, filter, max_tier, n).len() ==> #[trigger] selected(
                scenarios,
                filter,
                max_tier,
                n,
            )[i] < #[trigger] selected(scenarios, filter, max_tier, n)[j],
        forall|i: int|
            0 <= i < selected(scenarios, filter, max_tier, n).len() ==> #[trigger] selected(
                scenarios,
                filter,
                max_tier,
                n,
            )[i] < n,
    decreases n,
{
    if n > 0 {
        law_selected_in_order(scenarios, filter, max_tier, (n - 1) as nat);
        let rest = selected(scenarios, filter, max_tier, (n - 1) as nat);
        let all = selected(scenarios, filter, max_tier, n);
        assert(all == rest || all == rest.push((n - 1) as usize));
        assert forall|i: int| 0 <= i < all.len() implies #[trigger] all[i] < n by {
            if i < rest.len() {
                assert(all[i] == rest[i]);
            }
        }
        assert forall|i: int, j: int| 0 <= i < j < all.len() implies #[trigger] all[i]
            < #[trigger] all[j] by {
            assert(all[i] == rest[i]);
            if j < rest.len() {
                assert(all[j] == rest[j]);
            }
        }
    }
}

/// An earlier report is used where no revision is expected, and else exactly when it
/// is of the expected revision.
pub proof fn law_when_a_report_is_used(git_sha: Option<String>, expected_sha: &str)
    ensures
        usable(git_sha, None),
        usable(git_sha, Some(expected_sha)) <==> git_sha is Some && git_sha->0@ == expected_sha@,
{
}

/// A scenario is taken from an earlier report exactly when the report has it, and
/// with its last result there.
pub proof fn law_last_result_is_taken(scenarios: Seq<ScenarioReport>, id: Seq<char>, k: int)
    ensures
        collected(scenarios).contains_key(id) <==> exists|j: int|
            0 <= j < scenarios.len() && (#[trigger] scenarios[j]).scenario_id@ == id,
        0 <= k < scenarios.len() && scenarios[k].scenario_id@ == id && (forall|j: int|
            k < j < scenarios.len() ==> (#[trigger] scenarios[j]).scenario_id@ != id) ==> collected(
            scenarios,
        )[id] == scenarios[k].non_mcp@,
    decreases scenarios.len(),
{
    if scenarios.len() > 0 {
        let rest = scenarios.drop_last();
        law_last_result_is_taken(rest, id, k);
        assert(scenarios[scenarios.len() - 1] == scenarios.last());
        assert(forall|j: int| 0 <= j < rest.len() ==> #[trigger] rest[j] == scenarios[j]);
        if collected(rest).contains_key(id) {
            let j = choose|j: int| 0 <= j < rest.len() && (#[trigger] rest[j]).scenario_id@ == id;
            assert(scenarios[j] == rest[j]);
        }
        if exists|j: int|
            0 <= j < scenarios.len() && (#[trigger] scenarios[j]).scenario_id@ == id {
            let j = choose|j: int|
                0 <= j < scenarios.len() && (#[trigger] scenarios[j]).scenario_id@ == id;
            if j < rest.len() {
                assert(rest[j].scenario_id@ == id);
            }
        }
    }
}

/// Of three times or more the shortest and the longest are left out where outliers are
/// trimmed, and nothing else; else all times count. Times that count stand in order.
#[verifier::rlimit(50)]
pub proof fn law_outliers_are_the_extremes(samples: Seq<u128>, trim: bool)
    ensures
        !trim || samples.len() < 3 ==> effective(samples, trim).to_multiset()
            == samples.to_multiset(),
        trim && samples.len() >= 3 ==> exists|shortest: u128, longest: u128|
            #![trigger effective(samples, trim).to_multiset().insert(shortest).insert(longest)]
            samples.to_multiset() == effective(samples, trim).to_multiset().insert(
                shortest,
            ).insert(longest) && forall|k: int|
                0 <= k < samples.len() ==> shortest <= #[trigger] samples[k] <= longest,
{
    broadcast use vstd::seq_lib::group_to_multiset_ensures;

    order::law_ranked_is_ordered_permutation::<u128>(samples);
    let sorted = order::ranked::<u128>(samples);
    if trim && samples.len() >= 3 {
        let n = sorted.len() as int;
        let left = effective(samples, trim);
        let shortest = sorted[0];
        let longest = sorted[n - 1];
        let front = seq![shortest] + left;
        assert(sorted == front.push(longest));
        assert(left.insert(0, shortest) == front);
        assert(front.to_multiset() == left.to_multiset().insert(shortest)) by {
            vstd::seq_lib::to_multiset_insert(left, 0, shortest);
        }
        assert(sorted.to_multiset() == left.to_multiset().insert(shortest).insert(longest));
        assert forall|k: int| 0 <= k < samples.len() implies shortest <= #[trigger] samples[k]
            <= longest by {
            assert(samples.contains(samples[k]));
            assert(samples.to_multiset().count(samples[k]) > 0);
            assert(sorted.contains(samples[k]));
            let j = choose|j: int| 0 <= j < n && sorted[j] == samples[k];
            if j > 0 {
                assert(!<u128 as Ranked>::ahead(sorted[j], sorted[0]));
            }
            if j < n - 1 {
                assert(!<u128 as Ranked>::ahead(sorted[n - 1], sorted[j]));
            }
        }
    }
}

/// The output that is reported is that of the last run that succeeded, and nothing
/// where none did; an error is reported exactly when the last run failed.
pub proof fn law_what_is_reported(history: Seq<OutcomeModel>, k: int)
    requires
        0 <= k < history.len(),
    ensures
        history[k].result is Ok && (forall|j: int|
            k < j < history.len() ==> (#[trigger] history[j]).result is Err) ==> last_output(
            history,
        ) == history[k].result->Ok_0,
        (forall|j: int| 0 <= j < history.len() ==> (#[trigger] history[j]).result is Err)
            ==> last_output(history).len() == 0,
        last_error(history) is Some <==> history[history.len() - 1].result is Err,
        last_error(history) matches Some(error) ==> error == history[history.len()
            - 1].result->Err_0,
    decreases history.len(),
{
    let rest = history.drop_last();
    assert(history[history.len() - 1] == history.last());
    assert(forall|j: int| 0 <= j < rest.len() ==> #[trigger] rest[j] == history[j]);
    if k < rest.len() {
        law_what_is_reported(rest, k);
    } else if rest.len() > 0 {
        law_what_is_reported(rest, 0);
    }
}

/// A report on runs is about the output that it holds: it counts its bytes and shows
/// its start. It is no result of an earlier run, and its times are those of the runs.
pub proof fn law_report_is_about_its_output(
    history: Seq<OutcomeModel>,
    trim: bool,
    tokens: int,
    naive_tokens: int,
    grounding: Option<Seq<char>>,
    args: Option<Seq<char>>,
    steps: Option<Seq<Seq<char>>>,
)
    ensures
        ({
            let r = measured(history, trim, tokens, naive_tokens, grounding, args, steps);
            &&& r.full_output == last_output(history)
            &&& r.response_bytes == text::byte_len(r.full_output)
            &&& r.response_preview == preview(r.full_output)
            &&& r.tokens == tokens
            &&& r.naive_tokens == naive_tokens
            &&& r.error == last_error(history)
            &&& r.args == args
            &&& r.steps == steps
            &&& r.grounding == grounding
            &&& !r.reused
            &&& !trim ==> r.latency_us.len() == history.len()
        }),
{
    law_effective_samples(times(history), trim);
}

/// A scenario is reported under its id and its tool, with the side that was measured
/// and, where there is no earlier result, the side that was simulated.
pub proof fn law_scenario_is_reported(
    cache: Map<Seq<char>, SideModel>,
    scenario: Scenario,
    measured: Measured,
)
    ensures
        ({
            let r = scenario_report(cache, scenario, measured);
            &&& r.scenario_id == scenario.id@
            &&& r.tool == scenario.tool@
            &&& r.mcp == measured.mcp@
            &&& !cache.contains_key(scenario.id@) && measured.simulated is Some ==> r.non_mcp
                == measured.simulated->0@
            &&& cache.contains_key(scenario.id@) ==> r.non_mcp.latency_us
                == cache[scenario.id@].latency_us && r.non_mcp.tokens == cache[scenario.id@].tokens
                && r.non_mcp.error == cache[scenario.id@].error && r.non_mcp.response_bytes
                == cache[scenario.id@].response_bytes
        }),
{
}

/// A revision is read from a line without the white space around it.
pub proof fn law_revision(a: Seq<char>, sha: Seq<char>, b: Seq<char>)
    requires
        forall|k: int| 0 <= k < a.len() ==> text::white_space(#[trigger] a[k]),
        forall|k: int| 0 <= k < b.len() ==> text::white_space(#[trigger] b[k]),
        sha.len() > 0 ==> !text::white_space(sha[0]) && !text::white_space(sha.last()),
    ensures
        sha_in(a + sha + b) == if sha.len() > 0 {
            Some(sha)
        } else {
            None
        },
{
    text::law_trimmed(a, sha, b);
}

/// All runs to warm up come before the first that is recorded, and nothing is left to
/// do exactly when every run was made.
pub proof fn law_runs_in_order(measurement: &Measurement, r: MeasureStep)
    requires
        call_ensures(Measurement::next_step, (measurement,), r),
    ensures
        r is WarmUp <==> measurement.warmups() > 0,
        r is Measure <==> measurement.warmups() == 0 && measurement.runs() > 0,
        r is Finish <==> measurement.finished(),
{
}

/// Outputs are reported with their grounding exactly where it is checked.
pub proof fn law_grounding(
    runner: &BenchmarkRunner,
    verified: Option<String>,
    r: Option<String>,
)
    requires
        call_ensures(BenchmarkRunner::grounding_for, (runner, verified), r),
    ensures
        runner.grounding_enabled ==> r == verified,
        !runner.grounding_enabled ==> r is None,
{
}

/// The side without tools is measured exactly where no earlier run has it.
pub proof fn law_needed_simulations(runner: &BenchmarkRunner, scenario: &Scenario, r: bool)
    requires
        call_ensures(BenchmarkRunner::needs_simulation, (runner, scenario), r),
    ensures
        r <==> !runner.non_mcp_cache@.contains_key(scenario.id@),
{
}

/// A revision is read only from a command that succeeded.
pub proof fn law_failed_commands_give_no_revision(stdout: &[u8], r: Option<String>)
    requires
        call_ensures(git_sha, (false, stdout), r),
    ensures
        r is None,
{
}

}
