//! What must hold of a database under simulation, checked against the reference model.

use crate::codec::{bytes_eq, bytes_lt, copy_bytes, lex_le, lex_lt};
use crate::memtable::{opt_view, ValueView};
use crate::model::{
    agrees, answers_all, byte_strings, copy_keys, entries_between, entry_for, found_view, keys_of,
    lemma_filter_step, observed_keys, read_by, read_keys, value_for, values_view, Model,
    ModelEntry, Observed,
};
use crate::rng::{after_draws, drawn, Draws, DrawsView};
use crate::text::{decimal, lossy, lossy_text, push_count, push_decimal, quoted, quoted_text};
use crate::text::text_of;
use vstd::prelude::*;

verus! {

/// Result of an invariant check.
#[derive(Clone, Debug)]
pub struct InvariantResult {
    /// Name of the invariant.
    pub name: String,
    /// Whether the invariant passed.
    pub passed: bool,
    /// Details about the check.
    pub details: String,
    /// Keys involved in a violation.
    pub violated_keys: Vec<Vec<u8>>,
}

/// A result as a mathematical value.
pub struct ResultView {
    pub name: Seq<char>,
    pub passed: bool,
    pub details: Seq<char>,
    pub violated_keys: Seq<Seq<u8>>,
}

impl View for InvariantResult {
    type V = ResultView;

    open spec fn view(&self) -> ResultView {
        ResultView {
            name: self.name@,
            passed: self.passed,
            details: self.details@,
            violated_keys: byte_strings(self.violated_keys@),
        }
    }
}

/// A passing result.
pub open spec fn passing(name: Seq<char>) -> ResultView {
    ResultView { name, passed: true, details: "OK"@, violated_keys: Seq::empty() }
}

/// A failing result.
pub open spec fn failing(name: Seq<char>, details: Seq<char>, keys: Seq<Seq<u8>>) -> ResultView {
    ResultView { name, passed: false, details, violated_keys: keys }
}

impl InvariantResult {
    /// Creates a passing result.
    pub fn pass(name: &str) -> (r: Self)
        ensures
            r@ == passing(name@),
    {
        let r = InvariantResult {
            name: text_of(name),
            passed: true,
            details: text_of("OK"),
            violated_keys: Vec::new(),
        };
        assert(r@.violated_keys =~= Seq::<Seq<u8>>::empty());
        r
    }

    /// Creates a failing result.
    pub fn fail(name: &str, details: &str) -> (r: Self)
        ensures
            r@ == failing(name@, details@, Seq::empty()),
    {
        let r = InvariantResult::fail_with_keys(name, details, Vec::new());
        assert(r@.violated_keys =~= Seq::<Seq<u8>>::empty());
        r
    }

    /// Creates a failing result with violated keys.
    pub fn fail_with_keys(name: &str, details: &str, keys: Vec<Vec<u8>>) -> (r: Self)
        ensures
            r@ == failing(name@, details@, byte_strings(keys@)),
    {
        InvariantResult {
            name: text_of(name),
            passed: false,
            details: text_of(details),
            violated_keys: keys,
        }
    }
}

/// Results as mathematical values.
pub open spec fn results_view(s: Seq<InvariantResult>) -> Seq<ResultView> {
    s.map_values(|r: InvariantResult| r@)
}

/// Borrowed results as mathematical values.
pub open spec fn result_refs_view(s: Seq<&InvariantResult>) -> Seq<ResultView> {
    s.map_values(|r: &InvariantResult| r@)
}

/// The failed results.
pub open spec fn failed_results(s: Seq<ResultView>) -> Seq<ResultView> {
    s.filter(|r: ResultView| !r.passed)
}

/// A collection of invariant check results.
#[derive(Clone, Debug)]
pub struct InvariantReport {
    /// Individual check results.
    pub results: Vec<InvariantResult>,
    /// Total checks performed.
    pub total_checks: usize,
    /// Checks that passed.
    pub passed: usize,
    /// Checks that failed.
    pub failed: usize,
}

/// A report as a mathematical value.
pub struct ReportView {
    pub results: Seq<ResultView>,
    pub total_checks: nat,
    pub passed: nat,
    pub failed: nat,
}

impl View for InvariantReport {
    type V = ReportView;

    open spec fn view(&self) -> ReportView {
        ReportView {
            results: results_view(self.results@),
            total_checks: self.total_checks as nat,
            passed: self.passed as nat,
            failed: self.failed as nat,
        }
    }
}

/// The report without results.
pub open spec fn empty_report() -> ReportView {
    ReportView { results: Seq::empty(), total_checks: 0, passed: 0, failed: 0 }
}

/// The report with one result more.
pub open spec fn report_with(v: ReportView, r: ResultView) -> ReportView {
    ReportView {
        results: v.results.push(r),
        total_checks: v.total_checks + 1,
        passed: if r.passed {
            v.passed + 1
        } else {
            v.passed
        },
        failed: if r.passed {
            v.failed
        } else {
            v.failed + 1
        },
    }
}

/// Two reports in one.
pub open spec fn reports_merged(a: ReportView, b: ReportView) -> ReportView {
    ReportView {
        results: a.results + b.results,
        total_checks: a.total_checks + b.total_checks,
        passed: a.passed + b.passed,
        failed: a.failed + b.failed,
    }
}

/// Tells whether the counters of a report are those of its results.
pub open spec fn counts_match(v: ReportView) -> bool {
    &&& v.total_checks == v.results.len()
    &&& v.failed == failed_results(v.results).len()
    &&& v.passed + v.failed == v.total_checks
}

/// The text of a report.
pub open spec fn report_text(v: ReportView) -> Seq<char> {
    if v.failed == 0 {
        "All "@ + decimal(v.total_checks) + " invariants passed"@
    } else {
        decimal(v.failed) + "/"@ + decimal(v.total_checks) + " invariants failed"@
    }
}

impl Default for InvariantReport {
    fn default() -> (r: Self)
        ensures
            r@ == empty_report(),
    {
        InvariantReport::new()
    }
}

impl InvariantReport {
    /// Creates a new empty report.
    pub fn new() -> (r: Self)
        ensures
            r@ == empty_report(),
    {
        let r = InvariantReport { results: Vec::new(), total_checks: 0, passed: 0, failed: 0 };
        assert(r@.results =~= Seq::<ResultView>::empty());
        r
    }

    /// Adds a result to the report. The counters must be those of the results, as they are where
    /// a report is made by adding and merging, or have room.
    pub fn add(&mut self, result: InvariantResult)
        requires
            counts_match(old(self)@) || {
                &&& old(self).total_checks < usize::MAX
                &&& result.passed ==> old(self).passed < usize::MAX
                &&& !result.passed ==> old(self).failed < usize::MAX
            },
        ensures
            final(self)@ == report_with(old(self)@, result@),
            counts_match(old(self)@) ==> counts_match(final(self)@),
    {
        let ghost before = self.results@;
        let ghost view = self@;
        let passed = result.passed;
        let ghost added = result@;
        self.results.push(result);
        let n = self.results.len();
        assert(results_view(self.results@) =~= results_view(before).push(added));
        assert(results_view(before).len() + 1 == n);
        proof {
            if counts_match(view) {
                law_report_counts(view, added);
            }
        }
        self.total_checks += 1;
        if passed {
            self.passed += 1;
        } else {
            self.failed += 1;
        }
    }

    /// Returns true if all checks passed.
    pub fn all_passed(&self) -> (r: bool)
        ensures
            r == (self@.failed == 0),
    {
        self.failed == 0
    }

    /// Returns failed results only.
    pub fn failures(&self) -> (r: Vec<&InvariantResult>)
        ensures
            result_refs_view(r@) == failed_results(self@.results),
    {
        let ghost s = self@.results;
        let ghost p = |r: ResultView| !r.passed;
        let mut r: Vec<&InvariantResult> = Vec::new();
        let mut i: usize = 0;
        proof {
            assert(s.take(0).filter(p) =~= Seq::<ResultView>::empty()) by {
                reveal(Seq::filter);
            }
            assert(result_refs_view(r@) =~= Seq::<ResultView>::empty());
        }
        while i < self.results.len()
            invariant
                i <= self.results.len(),
                s == results_view(self.results@),
                p == |r: ResultView| !r.passed,
                result_refs_view(r@) == s.take(i as int).filter(p),
            decreases self.results.len() - i,
        {
            proof {
                lemma_filter_step(s, i as int, p);
            }
            let ghost before = r@;
            if !self.results[i].passed {
                r.push(&self.results[i]);
                assert(result_refs_view(r@) =~= result_refs_view(before).push(s[i as int]));
            }
            i += 1;
        }
        assert(s.take(i as int) =~= s);
        r
    }

    /// Returns a summary string.
    pub fn summary(&self) -> (r: String)
        ensures
            r@ == report_text(self@),
    {
        if self.all_passed() {
            let mut r = text_of("All ");
            push_count(&mut r, self.total_checks);
            r.push_str(" invariants passed");
            r
        } else {
            let mut r = String::new();
            push_count(&mut r, self.failed);
            r.push_str("/");
            push_count(&mut r, self.total_checks);
            r.push_str(" invariants failed");
            assert(r@ =~= report_text(self@));
            r
        }
    }

    /// Merges another report into this one. The counters must be those of the results, as they are
    /// where reports are made by adding and merging, or have room.
    pub fn merge(&mut self, other: InvariantReport)
        requires
            (counts_match(old(self)@) && counts_match(other@)) || {
                &&& old(self).total_checks + other.total_checks <= usize::MAX
                &&& old(self).passed + other.passed <= usize::MAX
                &&& old(self).failed + other.failed <= usize::MAX
            },
        ensures
            final(self)@ == reports_merged(old(self)@, other@),
            counts_match(old(self)@) && counts_match(other@) ==> counts_match(final(self)@),
    {
        let ghost a = self.results@;
        let ghost b = other.results@;
        let ghost (v, w) = (self@, other@);
        let InvariantReport { results, total_checks, passed, failed } = other;
        let mut rest = results;
        self.results.append(&mut rest);
        let n = self.results.len();
        assert(results_view(self.results@) =~= results_view(a) + results_view(b));
        assert(results_view(a).len() + results_view(b).len() == n);
        proof {
            if counts_match(v) && counts_match(w) {
                law_merge_counts(v, w);
            }
        }
        self.total_checks += total_checks;
        self.passed += passed;
        self.failed += failed;
    }
}

/// Adding a result keeps the counters of a report right.
pub proof fn law_report_counts(v: ReportView, r: ResultView)
    requires
        counts_match(v),
    ensures
        counts_match(report_with(v, r)),
{
    let p = |r: ResultView| !r.passed;
    let s = v.results.push(r);
    lemma_filter_step(s, v.results.len() as int, p);
    assert(s.take(v.results.len() as int) =~= v.results);
    assert(s.take((v.results.len() + 1) as int) =~= s);
}

/// The report with results added one by one.
pub open spec fn report_with_all(v: ReportView, rs: Seq<ResultView>) -> ReportView
    decreases rs.len(),
{
    if rs.len() == 0 {
        v
    } else {
        report_with(report_with_all(v, rs.drop_last()), rs.last())
    }
}

proof fn lemma_added(v: ReportView, rs: Seq<ResultView>)
    ensures
        report_with_all(v, rs).results == v.results + rs,
        report_with_all(v, rs).total_checks == v.total_checks + rs.len(),
        report_with_all(v, rs).failed == v.failed + failed_results(rs).len(),
        report_with_all(v, rs).passed + failed_results(rs).len() == v.passed + rs.len(),
    decreases rs.len(),
{
    reveal(Seq::filter);
    if rs.len() > 0 {
        lemma_added(v, rs.drop_last());
        assert(v.results + rs =~= (v.results + rs.drop_last()).push(rs.last()));
    } else {
        assert(v.results + rs =~= v.results);
    }
}

/// Merging a report adds its results one by one, and merging an empty one changes nothing.
pub proof fn law_merge_adds(a: ReportView, b: ReportView)
    requires
        counts_match(b),
    ensures
        reports_merged(a, b) == report_with_all(a, b.results),
        reports_merged(a, empty_report()) == a,
{
    lemma_added(a, b.results);
    assert(a.results + Seq::<ResultView>::empty() =~= a.results);
}

/// Merging keeps the counters right.
pub proof fn law_merge_counts(a: ReportView, b: ReportView)
    requires
        counts_match(a),
        counts_match(b),
    ensures
        counts_match(reports_merged(a, b)),
{
    Seq::filter_distributes_over_add(a.results, b.results, |r: ResultView| !r.passed);
}

/// What keys should read and read.
pub open spec fn observed_for(
    e: Seq<ModelEntry>,
    keys: Seq<Seq<u8>>,
    actual: Seq<ValueView>,
) -> Seq<Observed> {
    Seq::new(keys.len(), |i: int| (keys[i], value_for(e, keys[i]), actual[i]))
}

/// The observations of anything but the expected.
pub open spec fn disagreeing(s: Seq<Observed>) -> Seq<Observed> {
    s.filter(|o: Observed| !agrees(o))
}

fn agree(expected: Option<&Vec<u8>>, actual: &Option<Vec<u8>>) -> (r: bool)
    ensures
        r == (match expected {
            Some(v) => opt_view(*actual) == Some(v@),
            None => *actual is None,
        }),
{
    match (expected, actual) {
        (Some(e), Some(a)) => bytes_eq(e.as_slice(), a.as_slice()),
        (None, None) => true,
        _ => false,
    }
}

/// Lists the keys that do not read what the model says.
fn disagreeing_keys(model: &Model, keys: &Vec<Vec<u8>>, actual: &Vec<Option<Vec<u8>>>) -> (r: Vec<
    Vec<u8>,
>)
    requires
        model.wf(),
        actual.len() == keys.len(),
    ensures
        byte_strings(r@) == observed_keys(
            disagreeing(
                observed_for(model@.entries, byte_strings(keys@), values_view(actual@)),
            ),
        ),
        r.len() <= keys.len(),
{
    let ghost s = observed_for(model@.entries, byte_strings(keys@), values_view(actual@));
    let ghost p = |o: Observed| !agrees(o);
    let mut r: Vec<Vec<u8>> = Vec::new();
    let mut i: usize = 0;
    proof {
        assert(s.take(0).filter(p) =~= Seq::<Observed>::empty()) by {
            reveal(Seq::filter);
        }
        assert(byte_strings(r@) =~= observed_keys(Seq::<Observed>::empty()));
    }
    while i < keys.len()
        invariant
            i <= keys.len(),
            r.len() <= i,
            actual.len() == keys.len(),
            model.wf(),
            s == observed_for(model@.entries, byte_strings(keys@), values_view(actual@)),
            p == |o: Observed| !agrees(o),
            byte_strings(r@) == observed_keys(s.take(i as int).filter(p)),
        decreases keys.len() - i,
    {
        let ghost o = s[i as int];
        proof {
            lemma_filter_step(s, i as int, p);
            assert(o.0 == keys@[i as int]@ && o.2 == opt_view(actual@[i as int]));
        }
        let ghost before = r@;
        let expected = model.get_value(keys[i].as_slice());
        if !agree(expected, &actual[i]) {
            r.push(copy_bytes(keys[i].as_slice()));
            assert(byte_strings(r@) =~= byte_strings(before).push(o.0));
            assert(observed_keys(s.take(i as int).filter(p).push(o)) =~= observed_keys(
                s.take(i as int).filter(p),
            ).push(o.0));
        }
        i += 1;
    }
    assert(s.take(i as int) =~= s);
    r
}

/// What checking durability gives.
pub open spec fn durability_of(s: Seq<Observed>) -> ResultView {
    let bad = disagreeing(s);
    if bad.len() == 0 {
        passing("durability"@)
    } else {
        failing(
            "durability"@,
            decimal(bad.len()) + " keys have incorrect values after crash"@,
            observed_keys(bad),
        )
    }
}

/// Checks that every key that was written reads what the model says.
pub fn check_durability<F: Fn(&[u8]) -> Option<Vec<u8>>>(model: &Model, get: F) -> (r:
    InvariantResult)
    requires
        model.wf(),
        answers_all(get),
    ensures
        exists|actual: Seq<ValueView>|
            read_by(get, keys_of(model@.entries), actual) && r@ == durability_of(
                #[trigger] observed_for(model@.entries, keys_of(model@.entries), actual),
            ),
{
    let keys = model.all_keys();
    let actual = read_keys(&keys, &get);
    let bad = disagreeing_keys(model, &keys, &actual);
    let ghost s = observed_for(model@.entries, keys_of(model@.entries), values_view(actual@));
    assert(read_by(get, keys_of(model@.entries), values_view(actual@)));
    assert(byte_strings(bad@).len() == bad.len());
    if bad.len() == 0 {
        InvariantResult::pass("durability")
    } else {
        let mut details = String::new();
        push_count(&mut details, bad.len());
        details.push_str(" keys have incorrect values after crash");
        assert(details@ =~= decimal(bad.len() as nat)
            + " keys have incorrect values after crash"@);
        InvariantResult::fail_with_keys("durability", details.as_str(), bad)
    }
}

/// A key and what it reads.
pub type Asked = (Seq<u8>, ValueView);

/// Keys with what they read.
pub open spec fn asked(keys: Seq<Seq<u8>>, actual: Seq<ValueView>) -> Seq<Asked> {
    Seq::new(keys.len(), |i: int| (keys[i], actual[i]))
}

/// The keys that read something and were never written.
pub open spec fn phantoms(e: Seq<ModelEntry>, s: Seq<Asked>) -> Seq<Asked> {
    s.filter(|a: Asked| entry_for(e, a.0) is None && a.1 is Some)
}

/// The keys that were asked for.
pub open spec fn asked_keys(s: Seq<Asked>) -> Seq<Seq<u8>> {
    s.map_values(|a: Asked| a.0)
}

/// What checking for phantom data gives.
pub open spec fn phantom_data_of(e: Seq<ModelEntry>, s: Seq<Asked>) -> ResultView {
    let bad = phantoms(e, s);
    if bad.len() == 0 {
        passing("no_phantom_data"@)
    } else {
        failing(
            "no_phantom_data"@,
            decimal(bad.len()) + " phantom keys found in database"@,
            asked_keys(bad),
        )
    }
}

/// Checks that no key reads something that was never written.
pub fn check_no_phantom_data<F: Fn(&[u8]) -> Option<Vec<u8>>>(
    model: &Model,
    keys_to_check: &Vec<Vec<u8>>,
    get: F,
) -> (r: InvariantResult)
    requires
        model.wf(),
        answers_all(get),
    ensures
        exists|actual: Seq<ValueView>|
            read_by(get, byte_strings(keys_to_check@), actual) && r@ == phantom_data_of(
                model@.entries,
                #[trigger] asked(byte_strings(keys_to_check@), actual),
            ),
{
    let keys = keys_to_check;
    let actual = read_keys(keys, &get);
    let ghost e = model@.entries;
    let ghost s = asked(byte_strings(keys@), values_view(actual@));
    let ghost p = |a: Asked| entry_for(e, a.0) is None && a.1 is Some;
    let mut bad: Vec<Vec<u8>> = Vec::new();
    let mut i: usize = 0;
    proof {
        assert(s.take(0).filter(p) =~= Seq::<Asked>::empty()) by {
            reveal(Seq::filter);
        }
        assert(byte_strings(bad@) =~= asked_keys(Seq::<Asked>::empty()));
    }
    while i < keys.len()
        invariant
            i <= keys.len(),
            actual.len() == keys.len(),
            model.wf(),
            e == model@.entries,
            s == asked(byte_strings(keys@), values_view(actual@)),
            p == |a: Asked| entry_for(e, a.0) is None && a.1 is Some,
            byte_strings(bad@) == asked_keys(s.take(i as int).filter(p)),
        decreases keys.len() - i,
    {
        let ghost a = s[i as int];
        proof {
            lemma_filter_step(s, i as int, p);
            assert(a == (keys@[i as int]@, opt_view(actual@[i as int])));
        }
        let ghost before = bad@;
        if model.get(keys[i].as_slice()).is_none() && actual[i].is_some() {
            bad.push(copy_bytes(keys[i].as_slice()));
            assert(byte_strings(bad@) =~= byte_strings(before).push(a.0));
            assert(asked_keys(s.take(i as int).filter(p).push(a)) =~= asked_keys(
                s.take(i as int).filter(p),
            ).push(a.0));
        }
        i += 1;
    }
    assert(s.take(i as int) =~= s);
    assert(read_by(get, byte_strings(keys_to_check@), values_view(actual@)));
    assert(byte_strings(bad@).len() == bad.len());
    if bad.len() == 0 {
        InvariantResult::pass("no_phantom_data")
    } else {
        let mut details = String::new();
        push_count(&mut details, bad.len());
        details.push_str(" phantom keys found in database");
        assert(details@ =~= decimal(bad.len() as nat) + " phantom keys found in database"@);
        InvariantResult::fail_with_keys("no_phantom_data", details.as_str(), bad)
    }
}

/// The text of a value in a message.
pub open spec fn value_text(v: ValueView) -> Seq<char> {
    match v {
        Some(b) => quoted_text(lossy_text(b)),
        None => "None"@,
    }
}

/// What checking a read gives.
pub open spec fn read_check(key: Seq<u8>, expected: ValueView, actual: ValueView) -> ResultView {
    if expected == actual {
        passing("read_your_writes"@)
    } else {
        failing(
            "read_your_writes"@,
            "Expected "@ + value_text(expected) + ", got "@ + value_text(actual),
            seq![key],
        )
    }
}

fn quoted_bytes(b: &[u8]) -> (r: String)
    ensures
        r@ == quoted_text(lossy_text(b@)),
{
    let text = lossy(b);
    quoted(text.as_str())
}

/// Borrowed bytes as a mathematical value.
pub open spec fn opt_ref_view(v: Option<&Vec<u8>>) -> ValueView {
    match v {
        Some(b) => Some(b@),
        None => None,
    }
}

/// Checks that a key reads what is expected.
pub fn check_read_your_writes(
    key: &[u8],
    expected_value: Option<&Vec<u8>>,
    actual_value: &Option<Vec<u8>>,
) -> (r: InvariantResult)
    ensures
        r@ == read_check(key@, opt_ref_view(expected_value), opt_view(*actual_value)),
{
    if agree(expected_value, actual_value) {
        return InvariantResult::pass("read_your_writes");
    }
    let mut details = text_of("Expected ");
    match expected_value {
        Some(e) => details.push_str(quoted_bytes(e.as_slice()).as_str()),
        None => details.push_str("None"),
    }
    details.push_str(", got ");
    match actual_value {
        Some(a) => details.push_str(quoted_bytes(a.as_slice()).as_str()),
        None => details.push_str("None"),
    }
    let mut keys: Vec<Vec<u8>> = Vec::new();
    keys.push(copy_bytes(key));
    assert(byte_strings(keys@) =~= seq![key@]);
    InvariantResult::fail_with_keys("read_your_writes", details.as_str(), keys)
}

/// The keys of pairs.
pub open spec fn pair_keys(s: Seq<(Vec<u8>, Vec<u8>)>) -> Seq<Seq<u8>> {
    s.map_values(|p: (Vec<u8>, Vec<u8>)| p.0@)
}

/// Tells whether keys ascend.
pub open spec fn strictly_ascending(keys: Seq<Seq<u8>>) -> bool {
    forall|i: int| 0 < i < keys.len() ==> lex_lt(keys[i - 1], #[trigger] keys[i])
}

/// Tells whether the first key that is out of order stands at a place.
pub open spec fn first_disorder(keys: Seq<Seq<u8>>, i: int) -> bool {
    &&& 0 < i < keys.len()
    &&& !lex_lt(keys[i - 1], keys[i])
    &&& forall|j: int| 0 < j < i ==> lex_lt(keys[j - 1], #[trigger] keys[j])
}

/// What checking the order gives where a key is out of order.
pub open spec fn disorder_at(keys: Seq<Seq<u8>>, i: int) -> ResultView {
    failing(
        "scan_order"@,
        "Keys out of order: "@ + quoted_text(lossy_text(keys[i - 1])) + " >= "@ + quoted_text(
            lossy_text(keys[i]),
        ),
        seq![keys[i - 1], keys[i]],
    )
}

/// Checks that a scan returns results in sorted order.
pub fn check_scan_order(results: &Vec<(Vec<u8>, Vec<u8>)>) -> (r: InvariantResult)
    ensures
        strictly_ascending(pair_keys(results@)) ==> r@ == passing("scan_order"@),
        !strictly_ascending(pair_keys(results@)) ==> exists|i: int|
            #[trigger] first_disorder(pair_keys(results@), i) && r@ == disorder_at(
                pair_keys(results@),
                i,
            ),
{
    let ghost keys = pair_keys(results@);
    let mut i: usize = 1;
    while i < results.len()
        invariant
            1 <= i,
            keys == pair_keys(results@),
            forall|j: int| 0 < j < i && j < keys.len() ==> lex_lt(keys[j - 1], #[trigger] keys[j]),
        decreases results.len() - i,
    {
        let before = results[i - 1].0.as_slice();
        let here = results[i].0.as_slice();
        if !bytes_lt(before, here) {
            let mut details = text_of("Keys out of order: ");
            details.push_str(quoted_bytes(before).as_str());
            details.push_str(" >= ");
            details.push_str(quoted_bytes(here).as_str());
            let mut bad: Vec<Vec<u8>> = Vec::new();
            bad.push(copy_bytes(before));
            bad.push(copy_bytes(here));
            assert(byte_strings(bad@) =~= seq![keys[i - 1], keys[i as int]]);
            assert(first_disorder(keys, i as int));
            return InvariantResult::fail_with_keys("scan_order", details.as_str(), bad);
        }
        i += 1;
    }
    InvariantResult::pass("scan_order")
}

/// Tells whether two lists first differ at a place.
pub open spec fn first_difference(a: Seq<ModelEntry>, b: Seq<ModelEntry>, i: int) -> bool {
    &&& 0 <= i < a.len()
    &&& a[i] != b[i]
    &&& forall|j: int| 0 <= j < i ==> #[trigger] a[j] == b[j]
}

/// What checking a scan gives where it differs from what is expected.
pub open spec fn difference_at(a: Seq<ModelEntry>, b: Seq<ModelEntry>, i: int) -> ResultView {
    failing(
        "scan_correctness"@,
        "Mismatch at key "@ + quoted_text(lossy_text(a[i].0)) + ": expected "@ + value_text(a[i].1)
            + ", got "@ + value_text(b[i].1),
        seq![a[i].0],
    )
}

/// Checks that a scan returns the expected results.
pub fn check_scan_correctness(
    model: &Model,
    start: &[u8],
    end: &[u8],
    actual_results: &Vec<(Vec<u8>, Vec<u8>)>,
) -> (r: InvariantResult)
    requires
        lex_le(start@, end@),
    ensures
        ({
            let want = entries_between(model@.entries, start@, end@);
            let have = found_view(actual_results@);
            &&& want.len() != have.len() ==> r@ == failing(
                "scan_correctness"@,
                "Expected "@ + decimal(want.len()) + " results, got "@ + decimal(have.len()),
                Seq::empty(),
            )
            &&& want.len() == have.len() && want != have ==> exists|i: int|
                #[trigger] first_difference(want, have, i) && r@ == difference_at(want, have, i)
            &&& want == have ==> r@ == passing("scan_correctness"@)
        }),
{
    let expected = model.scan(start, end);
    let ghost want = entries_between(model@.entries, start@, end@);
    let ghost have = found_view(actual_results@);
    assert(want.len() == expected.len() && have.len() == actual_results.len());
    if expected.len() != actual_results.len() {
        let mut details = text_of("Expected ");
        push_count(&mut details, expected.len());
        details.push_str(" results, got ");
        push_count(&mut details, actual_results.len());
        return InvariantResult::fail("scan_correctness", details.as_str());
    }
    let mut i: usize = 0;
    while i < expected.len()
        invariant
            i <= expected.len(),
            expected.len() == actual_results.len(),
            want == found_view(expected@),
            want == entries_between(model@.entries, start@, end@),
            have == found_view(actual_results@),
            forall|j: int| 0 <= j < i ==> #[trigger] want[j] == have[j],
        decreases expected.len() - i,
    {
        assert(want[i as int] == (expected@[i as int].0@, Some(expected@[i as int].1@)));
        assert(have[i as int] == (
            actual_results@[i as int].0@,
            Some(actual_results@[i as int].1@),
        ));
        if !bytes_eq(expected[i].0.as_slice(), actual_results[i].0.as_slice()) || !bytes_eq(
            expected[i].1.as_slice(),
            actual_results[i].1.as_slice(),
        ) {
            let mut details = text_of("Mismatch at key ");
            details.push_str(quoted_bytes(expected[i].0.as_slice()).as_str());
            details.push_str(": expected ");
            details.push_str(quoted_bytes(expected[i].1.as_slice()).as_str());
            details.push_str(", got ");
            details.push_str(quoted_bytes(actual_results[i].1.as_slice()).as_str());
            let mut bad: Vec<Vec<u8>> = Vec::new();
            bad.push(copy_bytes(expected[i].0.as_slice()));
            assert(byte_strings(bad@) =~= seq![want[i as int].0]);
            assert(want[i as int] != have[i as int]);
            assert(first_difference(want, have, i as int));
            return InvariantResult::fail_with_keys("scan_correctness", details.as_str(), bad);
        }
        i += 1;
    }
    assert(want =~= have);
    InvariantResult::pass("scan_correctness")
}

/// Configuration for invariant checking.
#[derive(Clone, Copy, Debug)]
pub struct InvariantConfig {
    /// Check durability after each crash.
    pub check_durability: bool,
    /// Check read-your-writes after each write.
    pub check_read_your_writes: bool,
    /// Check for phantom data periodically.
    pub check_phantom_data: bool,
    /// Check scan order on scan operations.
    pub check_scan_order: bool,
    /// Number of random keys to check for phantoms.
    pub phantom_check_sample_size: usize,
}

impl Default for InvariantConfig {
    fn default() -> (r: Self)
        ensures
            r == (InvariantConfig {
                check_durability: true,
                check_read_your_writes: true,
                check_phantom_data: true,
                check_scan_order: true,
                phantom_check_sample_size: 100,
            }),
    {
        InvariantConfig {
            check_durability: true,
            check_read_your_writes: true,
            check_phantom_data: true,
            check_scan_order: true,
            phantom_check_sample_size: 100,
        }
    }
}

/// A recorded invariant violation.
#[derive(Clone, Debug)]
pub struct InvariantViolation {
    /// When the violation occurred, as an operation count.
    pub op_num: u64,
    /// The invariant that was violated.
    pub invariant: String,
    /// Details about the violation.
    pub details: String,
    /// Keys involved.
    pub keys: Vec<Vec<u8>>,
}

/// A violation as a mathematical value.
pub struct ViolationView {
    pub op_num: u64,
    pub name: Seq<char>,
    pub details: Seq<char>,
    pub keys: Seq<Seq<u8>>,
}

impl View for InvariantViolation {
    type V = ViolationView;

    open spec fn view(&self) -> ViolationView {
        ViolationView {
            op_num: self.op_num,
            name: self.invariant@,
            details: self.details@,
            keys: byte_strings(self.keys@),
        }
    }
}

/// Violations as mathematical values.
pub open spec fn violations_view(s: Seq<InvariantViolation>) -> Seq<ViolationView> {
    s.map_values(|v: InvariantViolation| v@)
}

/// An invariant checker that tracks state and runs checks.
pub struct InvariantChecker {
    config: InvariantConfig,
    total_checks: u64,
    total_failures: u64,
    violations: Vec<InvariantViolation>,
}

/// A checker as a mathematical value.
pub struct CheckerView {
    pub config: InvariantConfig,
    /// Number of checks recorded.
    pub total_checks: u64,
    /// Number of failed checks recorded.
    pub total_failures: u64,
    /// The violations not cleared.
    pub violations: Seq<ViolationView>,
}

impl View for InvariantChecker {
    type V = CheckerView;

    closed spec fn view(&self) -> CheckerView {
        CheckerView {
            config: self.config,
            total_checks: self.total_checks,
            total_failures: self.total_failures,
            violations: violations_view(self.violations@),
        }
    }
}

/// The checker that has recorded nothing.
pub open spec fn fresh_checker(config: InvariantConfig) -> CheckerView {
    CheckerView { config, total_checks: 0, total_failures: 0, violations: Seq::empty() }
}

/// The checker after it recorded a result.
pub open spec fn recorded(v: CheckerView, op_num: u64, r: ResultView) -> CheckerView {
    CheckerView {
        config: v.config,
        total_checks: (v.total_checks + 1) as u64,
        total_failures: if r.passed {
            v.total_failures
        } else {
            (v.total_failures + 1) as u64
        },
        violations: if r.passed {
            v.violations
        } else {
            v.violations.push(
                ViolationView { op_num, name: r.name, details: r.details, keys: r.violated_keys },
            )
        },
    }
}

/// The text of a checker's state.
pub open spec fn checker_text(v: CheckerView) -> Seq<char> {
    if v.violations.len() == 0 {
        "All "@ + decimal(v.total_checks as nat) + " invariant checks passed"@
    } else {
        decimal(v.violations.len()) + " invariant violations in "@ + decimal(
            v.total_checks as nat,
        ) + " checks"@
    }
}

impl InvariantChecker {
    /// Tells whether no more checks failed than were made.
    pub open spec fn wf(&self) -> bool {
        self@.total_failures <= self@.total_checks
    }

    /// Creates a new invariant checker.
    pub fn new(config: InvariantConfig) -> (r: Self)
        ensures
            r.wf(),
            r@ == fresh_checker(config),
    {
        let r = InvariantChecker {
            config,
            total_checks: 0,
            total_failures: 0,
            violations: Vec::new(),
        };
        assert(r@.violations =~= Seq::<ViolationView>::empty());
        r
    }

    /// Returns the configuration.
    pub fn config(&self) -> (r: &InvariantConfig)
        ensures
            *r == self@.config,
    {
        &self.config
    }

    /// Returns total checks performed.
    pub fn total_checks(&self) -> (r: u64)
        ensures
            r == self@.total_checks,
    {
        self.total_checks
    }

    /// Returns total failures.
    pub fn total_failures(&self) -> (r: u64)
        ensures
            r == self@.total_failures,
    {
        self.total_failures
    }

    /// Returns all violations.
    pub fn violations(&self) -> (r: &[InvariantViolation])
        ensures
            violations_view(r@) == self@.violations,
    {
        self.violations.as_slice()
    }

    /// Records a check result.
    pub fn record(&mut self, op_num: u64, result: &InvariantResult)
        requires
            old(self).wf(),
            old(self)@.total_checks < u64::MAX,
        ensures
            final(self).wf(),
            final(self)@ == recorded(old(self)@, op_num, result@),
    {
        let ghost before = self@;
        self.total_checks += 1;
        if !result.passed {
            self.total_failures += 1;
            let v = InvariantViolation {
                op_num,
                invariant: text_of(result.name.as_str()),
                details: text_of(result.details.as_str()),
                keys: copy_keys(&result.violated_keys),
            };
            self.violations.push(v);
            assert(violations_view(self.violations@) =~= before.violations.push(v@));
        }
    }

    /// Runs the durability check if enabled.
    pub fn check_durability_if_enabled<F: Fn(&[u8]) -> Option<Vec<u8>>>(
        &mut self,
        op_num: u64,
        model: &Model,
        get: F,
    ) -> (r: Option<InvariantResult>)
        requires
            old(self).wf(),
            old(self)@.total_checks < u64::MAX,
            model.wf(),
            answers_all(get),
        ensures
            final(self).wf(),
            (r is Some) == old(self)@.config.check_durability,
            match r {
                Some(result) => {
                    &&& final(self)@ == recorded(old(self)@, op_num, result@)
                    &&& exists|actual: Seq<ValueView>|
                        read_by(get, keys_of(model@.entries), actual) && result@ == durability_of(
                            #[trigger] observed_for(
                                model@.entries,
                                keys_of(model@.entries),
                                actual,
                            ),
                        )
                },
                None => final(self)@ == old(self)@,
            },
    {
        if !self.config.check_durability {
            return None;
        }
        let result = check_durability(model, get);
        self.record(op_num, &result);
        Some(result)
    }

    /// Runs the read-your-writes check if enabled.
    pub fn check_ryw_if_enabled(
        &mut self,
        op_num: u64,
        key: &[u8],
        expected: Option<&Vec<u8>>,
        actual: &Option<Vec<u8>>,
    ) -> (r: Option<InvariantResult>)
        requires
            old(self).wf(),
            old(self)@.total_checks < u64::MAX,
        ensures
            final(self).wf(),
            (r is Some) == old(self)@.config.check_read_your_writes,
            match r {
                Some(result) => {
                    &&& result@ == read_check(key@, opt_ref_view(expected), opt_view(*actual))
                    &&& final(self)@ == recorded(old(self)@, op_num, result@)
                },
                None => final(self)@ == old(self)@,
            },
    {
        if !self.config.check_read_your_writes {
            return None;
        }
        let result = check_read_your_writes(key, expected, actual);
        self.record(op_num, &result);
        Some(result)
    }

    /// Clears recorded violations.
    pub fn clear_violations(&mut self)
        ensures
            final(self)@ == (CheckerView { violations: Seq::empty(), ..old(self)@ }),
    {
        self.violations = Vec::new();
        assert(violations_view(self.violations@) =~= Seq::<ViolationView>::empty());
    }

    /// Returns true if any violations occurred.
    pub fn has_violations(&self) -> (r: bool)
        ensures
            r == (self@.violations.len() > 0),
    {
        self.violations.len() > 0
    }

    /// Gets a summary of the checker state.
    pub fn summary(&self) -> (r: String)
        ensures
            r@ == checker_text(self@),
    {
        if self.violations.len() == 0 {
            let mut r = text_of("All ");
            push_decimal(&mut r, self.total_checks);
            r.push_str(" invariant checks passed");
            r
        } else {
            let mut r = String::new();
            push_count(&mut r, self.violations.len());
            r.push_str(" invariant violations in ");
            push_decimal(&mut r, self.total_checks);
            r.push_str(" checks");
            assert(r@ =~= checker_text(self@));
            r
        }
    }
}

/// What verifying every key gives.
pub open spec fn verification_of(s: Seq<Observed>) -> ResultView {
    let bad = disagreeing(s);
    if bad.len() == 0 {
        passing("full_verification"@)
    } else {
        failing(
            "full_verification"@,
            decimal((s.len() - bad.len()) as nat) + " correct, "@ + decimal(bad.len())
                + " mismatches"@,
            observed_keys(bad),
        )
    }
}

/// The report with a single result.
pub open spec fn single_report(r: ResultView) -> ReportView {
    report_with(empty_report(), r)
}

fn report_single(result: InvariantResult) -> (r: InvariantReport)
    ensures
        r@ == single_report(result@),
{
    let mut r = InvariantReport::new();
    r.add(result);
    r
}

/// Verifies every key that was written against the model.
pub fn full_verification<F: Fn(&[u8]) -> Option<Vec<u8>>>(model: &Model, get: F) -> (r:
    InvariantReport)
    requires
        model.wf(),
        answers_all(get),
    ensures
        exists|actual: Seq<ValueView>|
            read_by(get, keys_of(model@.entries), actual) && r@ == single_report(
                verification_of(
                    #[trigger] observed_for(model@.entries, keys_of(model@.entries), actual),
                ),
            ),
{
    let keys = model.all_keys();
    let actual = read_keys(&keys, &get);
    let bad = disagreeing_keys(model, &keys, &actual);
    let ghost s = observed_for(model@.entries, keys_of(model@.entries), values_view(actual@));
    assert(read_by(get, keys_of(model@.entries), values_view(actual@)));
    assert(byte_strings(bad@).len() == bad.len());
    assert(byte_strings(keys@).len() == keys.len());
    if bad.len() == 0 {
        report_single(InvariantResult::pass("full_verification"))
    } else {
        let mut details = String::new();
        push_count(&mut details, keys.len() - bad.len());
        details.push_str(" correct, ");
        push_count(&mut details, bad.len());
        details.push_str(" mismatches");
        assert(details@ =~= decimal((s.len() - bad.len()) as nat) + " correct, "@ + decimal(
            bad.len() as nat,
        ) + " mismatches"@);
        report_single(
            InvariantResult::fail_with_keys("full_verification", details.as_str(), bad),
        )
    }
}

/// A full verification passes exactly where every key that was written reads what the model
/// says.
pub proof fn law_verification_passes(s: Seq<Observed>)
    ensures
        (single_report(verification_of(s)).failed == 0) <==> forall|i: int|
            0 <= i < s.len() ==> (#[trigger] s[i]).1 == s[i].2,
{
    let p = |o: Observed| !agrees(o);
    crate::model::lemma_filter_empty(s, p);
    if disagreeing(s).len() == 0 {
        assert forall|i: int| 0 <= i < s.len() implies agrees(#[trigger] s[i]) by {
            assert(!p(s[i]));
        }
    }
    if forall|i: int| 0 <= i < s.len() ==> agrees(#[trigger] s[i]) {
        assert forall|i: int| 0 <= i < s.len() implies !p(#[trigger] s[i]) by {
            assert(agrees(s[i]));
        }
    }
}

/// The keys that a sample draws, from a state of the generator on.
pub open spec fn sampled_keys(keys: Seq<Seq<u8>>, s: DrawsView, n: nat) -> Seq<Seq<u8>> {
    Seq::new(n, |i: int| keys[drawn(after_draws(s, i as nat)) as usize as int % keys.len() as int])
}

/// The number of keys that a sample draws.
pub open spec fn sample_count(size: nat, keys: nat) -> nat {
    if size < keys {
        size
    } else {
        keys
    }
}

/// What verifying a sample of all keys gives.
pub open spec fn spot_check_of(s: Seq<Observed>, all: nat) -> ResultView {
    let bad = disagreeing(s);
    if bad.len() == 0 {
        passing("spot_check"@)
    } else {
        failing(
            "spot_check"@,
            decimal(s.len()) + "/"@ + decimal(all) + " checked, "@ + decimal(bad.len())
                + " mismatches"@,
            observed_keys(bad),
        )
    }
}

/// Verifies a random sample of the keys that were written.
pub fn spot_check<F: Fn(&[u8]) -> Option<Vec<u8>>>(
    model: &Model,
    sample_size: usize,
    get: F,
    rng: &mut Draws,
) -> (r: InvariantReport)
    requires
        model.wf(),
        answers_all(get),
    ensures
        ({
            let all = keys_of(model@.entries);
            let n = sample_count(sample_size as nat, all.len());
            let keys = sampled_keys(all, old(rng).spec_state(), n);
            &&& final(rng).spec_state() == after_draws(old(rng).spec_state(), n)
            &&& exists|actual: Seq<ValueView>|
                read_by(get, keys, actual) && r@ == single_report(
                    spot_check_of(
                        #[trigger] observed_for(model@.entries, keys, actual),
                        all.len(),
                    ),
                )
        }),
{
    let ghost s0 = rng.spec_state();
    let all = model.all_keys();
    let count: usize = if sample_size < all.len() {
        sample_size
    } else {
        all.len()
    };
    let ghost names = byte_strings(all@);
    assert(names.len() == all.len());
    let mut keys: Vec<Vec<u8>> = Vec::new();
    let mut i: usize = 0;
    assert(byte_strings(keys@) =~= sampled_keys(names, s0, 0));
    while i < count
        invariant
            i <= count,
            count <= all.len(),
            names == byte_strings(all@),
            rng.spec_state() == after_draws(s0, i as nat),
            byte_strings(keys@) == sampled_keys(names, s0, i as nat),
            keys.len() == i,
        decreases count - i,
    {
        let ghost before = keys@;
        let k = rng.next_usize(all.len());
        keys.push(copy_bytes(all[k].as_slice()));
        i += 1;
        assert(byte_strings(keys@) =~= byte_strings(before).push(names[k as int]));
        assert(byte_strings(keys@) =~= sampled_keys(names, s0, i as nat));
    }
    let actual = read_keys(&keys, &get);
    let bad = disagreeing_keys(model, &keys, &actual);
    let ghost s = observed_for(model@.entries, byte_strings(keys@), values_view(actual@));
    assert(read_by(get, byte_strings(keys@), values_view(actual@)));
    assert(byte_strings(bad@).len() == bad.len());
    if bad.len() == 0 {
        report_single(InvariantResult::pass("spot_check"))
    } else {
        let mut details = String::new();
        push_count(&mut details, keys.len());
        details.push_str("/");
        push_count(&mut details, all.len());
        details.push_str(" checked, ");
        push_count(&mut details, bad.len());
        details.push_str(" mismatches");
        assert(details@ =~= decimal(s.len()) + "/"@ + decimal(names.len()) + " checked, "@
            + decimal(bad.len() as nat) + " mismatches"@);
        report_single(InvariantResult::fail_with_keys("spot_check", details.as_str(), bad))
    }
}

/// The observations of nothing where a value is expected.
pub open spec fn lost(s: Seq<Observed>) -> Seq<Observed> {
    s.filter(|o: Observed| o.1 is Some && o.2 is None)
}

/// The observations of a value other than the expected.
pub open spec fn incorrect(s: Seq<Observed>) -> Seq<Observed> {
    s.filter(|o: Observed| !agrees(o) && o.2 is Some)
}

/// What verifying a recovery gives.
pub open spec fn recovery_of(s: Seq<Observed>) -> ResultView {
    if lost(s).len() == 0 && incorrect(s).len() == 0 {
        passing("recovery_verification"@)
    } else {
        failing(
            "recovery_verification"@,
            decimal(lost(s).len()) + " missing, "@ + decimal(incorrect(s).len())
                + " incorrect of "@ + decimal(s.len()) + " checked"@,
            observed_keys(lost(s)) + observed_keys(incorrect(s)),
        )
    }
}

/// Verifies that the keys written read after recovery what the model says.
pub fn verify_recovery<F: Fn(&[u8]) -> Option<Vec<u8>>>(
    model: &Model,
    get: F,
    keys_written: &Vec<Vec<u8>>,
) -> (r: InvariantReport)
    requires
        model.wf(),
        answers_all(get),
    ensures
        exists|actual: Seq<ValueView>|
            read_by(get, byte_strings(keys_written@), actual) && r@ == single_report(
                recovery_of(
                    #[trigger] observed_for(
                        model@.entries,
                        byte_strings(keys_written@),
                        actual,
                    ),
                ),
            ),
{
    let keys = keys_written;
    let actual = read_keys(keys, &get);
    let ghost s = observed_for(model@.entries, byte_strings(keys@), values_view(actual@));
    let ghost p = |o: Observed| o.1 is Some && o.2 is None;
    let ghost q = |o: Observed| !agrees(o) && o.2 is Some;
    let mut missing: Vec<Vec<u8>> = Vec::new();
    let mut wrong: Vec<Vec<u8>> = Vec::new();
    let mut i: usize = 0;
    proof {
        assert(s.take(0).filter(p) =~= Seq::<Observed>::empty()) by {
            reveal(Seq::filter);
        }
        assert(s.take(0).filter(q) =~= Seq::<Observed>::empty()) by {
            reveal(Seq::filter);
        }
        assert(byte_strings(missing@) =~= observed_keys(Seq::<Observed>::empty()));
    }
    while i < keys.len()
        invariant
            i <= keys.len(),
            actual.len() == keys.len(),
            model.wf(),
            s == observed_for(model@.entries, byte_strings(keys@), values_view(actual@)),
            p == |o: Observed| o.1 is Some && o.2 is None,
            q == |o: Observed| !agrees(o) && o.2 is Some,
            byte_strings(missing@) == observed_keys(s.take(i as int).filter(p)),
            byte_strings(wrong@) == observed_keys(s.take(i as int).filter(q)),
        decreases keys.len() - i,
    {
        let ghost o = s[i as int];
        proof {
            lemma_filter_step(s, i as int, p);
            lemma_filter_step(s, i as int, q);
            assert(o.0 == keys@[i as int]@ && o.2 == opt_view(actual@[i as int]));
        }
        let ghost m0 = missing@;
        let ghost w0 = wrong@;
        let expected = model.get_value(keys[i].as_slice());
        if !agree(expected, &actual[i]) {
            if actual[i].is_none() {
                missing.push(copy_bytes(keys[i].as_slice()));
                assert(byte_strings(missing@) =~= byte_strings(m0).push(o.0));
                assert(observed_keys(s.take(i as int).filter(p).push(o)) =~= observed_keys(
                    s.take(i as int).filter(p),
                ).push(o.0));
            } else {
                wrong.push(copy_bytes(keys[i].as_slice()));
                assert(byte_strings(wrong@) =~= byte_strings(w0).push(o.0));
                assert(observed_keys(s.take(i as int).filter(q).push(o)) =~= observed_keys(
                    s.take(i as int).filter(q),
                ).push(o.0));
            }
        }
        i += 1;
    }
    assert(s.take(i as int) =~= s);
    assert(read_by(get, byte_strings(keys_written@), values_view(actual@)));
    assert(byte_strings(missing@).len() == missing.len());
    assert(byte_strings(wrong@).len() == wrong.len());
    if missing.len() == 0 && wrong.len() == 0 {
        report_single(InvariantResult::pass("recovery_verification"))
    } else {
        let mut details = String::new();
        push_count(&mut details, missing.len());
        details.push_str(" missing, ");
        push_count(&mut details, wrong.len());
        details.push_str(" incorrect of ");
        push_count(&mut details, keys.len());
        details.push_str(" checked");
        assert(details@ =~= decimal(missing.len() as nat) + " missing, "@ + decimal(
            wrong.len() as nat,
        ) + " incorrect of "@ + decimal(s.len()) + " checked"@);
        let ghost m = missing@;
        let ghost w = wrong@;
        missing.append(&mut wrong);
        assert(byte_strings(missing@) =~= byte_strings(m) + byte_strings(w));
        report_single(
            InvariantResult::fail_with_keys("recovery_verification", details.as_str(), missing),
        )
    }
}

/// The result of a read check passes exactly where the key reads what is expected, nothing
/// included. Where it fails it names the key and no other.
pub proof fn law_read_check(key: Seq<u8>, expected: ValueView, actual: ValueView)
    ensures
        read_check(key, expected, actual).passed <==> expected == actual,
        expected != actual ==> read_check(key, expected, actual).violated_keys == seq![key],
        expected == actual ==> read_check(key, expected, actual).violated_keys.len() == 0,
{
}

/// Tells whether a result says of observations what is so: it passes exactly where each key reads
/// what is expected of it, and it names exactly the keys that do not.
pub open spec fn tells_disagreement(r: ResultView, s: Seq<Observed>) -> bool {
    &&& r.passed <==> forall|i: int| 0 <= i < s.len() ==> (#[trigger] s[i]).1 == s[i].2
    &&& forall|key: Seq<u8>|
        #![trigger r.violated_keys.contains(key)]
        r.violated_keys.contains(key) <==> exists|i: int|
            0 <= i < s.len() && (#[trigger] s[i]).0 == key && s[i].1 != s[i].2
}

proof fn lemma_disagreeing(s: Seq<Observed>)
    ensures
        disagreeing(s).len() == 0 <==> forall|i: int|
            0 <= i < s.len() ==> (#[trigger] s[i]).1 == s[i].2,
        forall|key: Seq<u8>|
            #![trigger observed_keys(disagreeing(s)).contains(key)]
            observed_keys(disagreeing(s)).contains(key) <==> exists|i: int|
                0 <= i < s.len() && (#[trigger] s[i]).0 == key && s[i].1 != s[i].2,
{
    let p = |o: Observed| !agrees(o);
    crate::model::lemma_filter_empty(s, p);
    if disagreeing(s).len() == 0 {
        assert forall|i: int| 0 <= i < s.len() implies (#[trigger] s[i]).1 == s[i].2 by {
            assert(!p(s[i]));
        }
    }
    if forall|i: int| 0 <= i < s.len() ==> (#[trigger] s[i]).1 == s[i].2 {
        assert forall|i: int| 0 <= i < s.len() implies !p(#[trigger] s[i]) by {
            assert(s[i].1 == s[i].2);
        }
    }
    assert forall|key: Seq<u8>|
        #![trigger observed_keys(disagreeing(s)).contains(key)]
        observed_keys(disagreeing(s)).contains(key) <==> exists|i: int|
            0 <= i < s.len() && (#[trigger] s[i]).0 == key && s[i].1 != s[i].2 by {
        crate::model::lemma_filter_keys(s, p, key);
        if exists|i: int| 0 <= i < s.len() && (#[trigger] s[i]).0 == key && s[i].1 != s[i].2 {
            let i = choose|i: int|
                0 <= i < s.len() && (#[trigger] s[i]).0 == key && s[i].1 != s[i].2;
            assert(s[i].0 == key && p(s[i]));
        }
    }
}

/// Checks of durability, of everything and of a sample pass exactly where each key reads what is
/// expected, and name exactly the keys that do not.
pub proof fn law_checks_tell_disagreement(s: Seq<Observed>, all: nat)
    ensures
        tells_disagreement(durability_of(s), s),
        tells_disagreement(verification_of(s), s),
        tells_disagreement(spot_check_of(s, all), s),
{
    lemma_disagreeing(s);
    if disagreeing(s).len() == 0 {
        assert(observed_keys(disagreeing(s)) =~= Seq::<Seq<u8>>::empty());
    }
    assert forall|key: Seq<u8>|
        #![trigger durability_of(s).violated_keys.contains(key)]
        durability_of(s).violated_keys.contains(key) == observed_keys(disagreeing(s)).contains(
            key,
        ) by {}
    assert forall|key: Seq<u8>|
        #![trigger verification_of(s).violated_keys.contains(key)]
        verification_of(s).violated_keys.contains(key) == observed_keys(disagreeing(s)).contains(
            key,
        ) by {}
    assert forall|key: Seq<u8>|
        #![trigger spot_check_of(s, all).violated_keys.contains(key)]
        spot_check_of(s, all).violated_keys.contains(key) == observed_keys(
            disagreeing(s),
        ).contains(key) by {}
}

/// One observation more adds its key to what a durability check names where it disagrees, and
/// nothing otherwise.
pub proof fn law_durability_adds(s: Seq<Observed>, o: Observed)
    ensures
        durability_of(s.push(o)).violated_keys == durability_of(s).violated_keys + if o.1 != o.2 {
            seq![o.0]
        } else {
            Seq::empty()
        },
        verification_of(s.push(o)).violated_keys == verification_of(s).violated_keys + if o.1
            != o.2 {
            seq![o.0]
        } else {
            Seq::empty()
        },
{
    let p = |x: Observed| !agrees(x);
    crate::model::lemma_filter_push(s, o, p);
    let a = disagreeing(s);
    let b = disagreeing(s.push(o));
    if a.len() == 0 {
        assert(observed_keys(a) =~= Seq::<Seq<u8>>::empty());
    }
    if o.1 != o.2 {
        assert(observed_keys(b) =~= observed_keys(a) + seq![o.0]);
    } else {
        assert(observed_keys(a) =~= observed_keys(a) + Seq::<Seq<u8>>::empty());
        assert(Seq::<Seq<u8>>::empty() =~= Seq::<Seq<u8>>::empty() + Seq::<Seq<u8>>::empty());
    }
}

/// A check of durability passes exactly where every key that was written reads the value that
/// the model lists for it.
pub proof fn law_durable_reads(e: Seq<ModelEntry>, actual: Seq<ValueView>)
    requires
        crate::model::keys_ascend(e),
        actual.len() == e.len(),
    ensures
        durability_of(observed_for(e, keys_of(e), actual)).passed <==> forall|i: int|
            0 <= i < e.len() ==> (#[trigger] e[i]).1 == actual[i],
        single_report(verification_of(observed_for(e, keys_of(e), actual))).failed == 0
            <==> forall|i: int| 0 <= i < e.len() ==> (#[trigger] e[i]).1 == actual[i],
{
    let s = observed_for(e, keys_of(e), actual);
    law_checks_tell_disagreement(s, 0);
    assert forall|i: int| 0 <= i < e.len() implies (#[trigger] s[i]) == (
        e[i].0,
        e[i].1,
        actual[i],
    ) by {
        crate::model::lemma_entry_at(e, i);
    }
    if forall|i: int| 0 <= i < s.len() ==> (#[trigger] s[i]).1 == s[i].2 {
        assert forall|i: int| 0 <= i < e.len() implies (#[trigger] e[i]).1 == actual[i] by {
            assert(s[i].1 == s[i].2);
        }
    }
}

/// Verifying a recovery passes exactly where each key reads what is expected, and names exactly
/// the keys that do not.
pub proof fn law_recovery_told(s: Seq<Observed>)
    ensures
        tells_disagreement(recovery_of(s), s),
{
    let p = |o: Observed| o.1 is Some && o.2 is None;
    let q = |o: Observed| !agrees(o) && o.2 is Some;
    crate::model::lemma_filter_empty(s, p);
    crate::model::lemma_filter_empty(s, q);
    let r = recovery_of(s);
    let l = observed_keys(lost(s));
    let w = observed_keys(incorrect(s));
    if r.passed {
        assert forall|i: int| 0 <= i < s.len() implies (#[trigger] s[i]).1 == s[i].2 by {
            assert(!p(s[i]) && !q(s[i]));
        }
        assert(l =~= Seq::<Seq<u8>>::empty() && w =~= Seq::<Seq<u8>>::empty());
    }
    if forall|i: int| 0 <= i < s.len() ==> (#[trigger] s[i]).1 == s[i].2 {
        assert forall|i: int| 0 <= i < s.len() implies !p(#[trigger] s[i]) && !q(s[i]) by {
            assert(s[i].1 == s[i].2);
        }
    }
    assert(r.violated_keys =~= l + w);
    assert forall|key: Seq<u8>|
        #![trigger r.violated_keys.contains(key)]
        r.violated_keys.contains(key) <==> exists|i: int|
            0 <= i < s.len() && (#[trigger] s[i]).0 == key && s[i].1 != s[i].2 by {
        crate::model::lemma_filter_keys(s, p, key);
        crate::model::lemma_filter_keys(s, q, key);
        if l.contains(key) {
            let i = choose|i: int| 0 <= i < l.len() && l[i] == key;
            assert((l + w)[i] == key);
        }
        if w.contains(key) {
            let i = choose|i: int| 0 <= i < w.len() && w[i] == key;
            assert((l + w)[l.len() + i] == key);
        }
        if (l + w).contains(key) {
            let i = choose|i: int| 0 <= i < (l + w).len() && (l + w)[i] == key;
            if i < l.len() {
                assert(l[i] == key);
            } else {
                assert(w[i - l.len()] == key);
            }
        }
        if exists|i: int| 0 <= i < s.len() && (#[trigger] s[i]).0 == key && s[i].1 != s[i].2 {
            let i = choose|i: int|
                0 <= i < s.len() && (#[trigger] s[i]).0 == key && s[i].1 != s[i].2;
            assert(s[i].0 == key && (p(s[i]) || q(s[i])));
        }
    }
}

/// A check for phantom data passes exactly where each key that reads something was written, and
/// names exactly the keys that read something and were not.
pub proof fn law_phantoms_told(e: Seq<ModelEntry>, s: Seq<Asked>, key: Seq<u8>)
    requires
        crate::model::keys_ascend(e),
    ensures
        phantom_data_of(e, s).passed <==> forall|i: int|
            0 <= i < s.len() && (#[trigger] s[i]).1 is Some ==> exists|j: int|
                0 <= j < e.len() && (#[trigger] e[j]).0 == s[i].0,
        phantom_data_of(e, s).violated_keys.contains(key) <==> (exists|i: int|
            0 <= i < s.len() && (#[trigger] s[i]).0 == key && s[i].1 is Some) && (forall|j: int|
            0 <= j < e.len() ==> (#[trigger] e[j]).0 != key),
{
    let p = |a: Asked| entry_for(e, a.0) is None && a.1 is Some;
    let bad = phantoms(e, s);
    crate::model::lemma_filter_empty(s, p);
    assert forall|k: Seq<u8>|
        #![trigger entry_for(e, k)]
        entry_for(e, k) is None <==> forall|j: int| 0 <= j < e.len() ==> (#[trigger] e[j]).0
            != k by {
        crate::model::law_entry_read(e, k);
    }
    let r = phantom_data_of(e, s);
    if bad.len() == 0 {
        assert forall|i: int| 0 <= i < s.len() && (#[trigger] s[i]).1 is Some implies exists|j: int|
            0 <= j < e.len() && (#[trigger] e[j]).0 == s[i].0 by {
            assert(!p(s[i]));
        }
    } else {
        let i = choose|i: int| 0 <= i < s.len() && p(#[trigger] s[i]);
        assert(s[i].1 is Some && entry_for(e, s[i].0) is None);
    }
    assert(asked_keys(bad) =~= r.violated_keys);
    if r.violated_keys.contains(key) {
        let i = choose|i: int| 0 <= i < bad.len() && asked_keys(bad)[i] == key;
        assert(bad.contains(bad[i]));
        crate::model::lemma_filter_has(s, p, bad[i]);
        let k = choose|k: int| 0 <= k < s.len() && s[k] == bad[i];
        assert(s[k].0 == key && p(s[k]));
        assert(entry_for(e, key) is None);
    }
    if exists|i: int| 0 <= i < s.len() && (#[trigger] s[i]).0 == key && s[i].1 is Some {
        if forall|j: int| 0 <= j < e.len() ==> (#[trigger] e[j]).0 != key {
            let i = choose|i: int|
                0 <= i < s.len() && (#[trigger] s[i]).0 == key && s[i].1 is Some;
            assert(entry_for(e, key) is None);
            assert(p(s[i]));
            assert(s.contains(s[i]));
            crate::model::lemma_filter_has(s, p, s[i]);
            let k = choose|k: int| 0 <= k < bad.len() && bad[k] == s[i];
            assert(asked_keys(bad)[k] == key);
        }
    }
}

/// The order check accepts exactly the scans in which every key is less than every later one: a
/// key that comes twice is out of order.
pub proof fn law_order_checked(keys: Seq<Seq<u8>>)
    ensures
        strictly_ascending(keys) <==> forall|i: int, j: int|
            0 <= i < j < keys.len() ==> lex_lt(#[trigger] keys[i], #[trigger] keys[j]),
        strictly_ascending(keys) ==> keys.no_duplicates(),
{
    if strictly_ascending(keys) {
        assert forall|i: int, j: int| 0 <= i < j < keys.len() implies lex_lt(
            #[trigger] keys[i],
            #[trigger] keys[j],
        ) by {
            lemma_ascending_apart(keys, i, j);
        }
        assert forall|i: int, j: int| 0 <= i < j < keys.len() implies keys[i] != keys[j] by {
            assert(lex_lt(keys[i], keys[j]));
            crate::codec::lemma_lex_irreflexive(keys[i]);
        }
    }
}

proof fn lemma_ascending_apart(keys: Seq<Seq<u8>>, i: int, j: int)
    requires
        strictly_ascending(keys),
        0 <= i < j < keys.len(),
    ensures
        lex_lt(keys[i], keys[j]),
    decreases j - i,
{
    if i + 1 < j {
        lemma_ascending_apart(keys, i, j - 1);
        assert(lex_lt(keys[j - 1], keys[j]));
        crate::codec::lemma_lex_transitive(keys[i], keys[j - 1], keys[j]);
    } else {
        assert(lex_lt(keys[j - 1], keys[j]));
    }
}

/// Where the order check fails it names two keys that stand beside each other, and the first is
/// not less than the second.
pub proof fn law_disorder_told(keys: Seq<Seq<u8>>, i: int)
    requires
        first_disorder(keys, i),
    ensures
        !disorder_at(keys, i).passed,
        disorder_at(keys, i).violated_keys.len() == 2,
        disorder_at(keys, i).violated_keys[0] == keys[i - 1],
        disorder_at(keys, i).violated_keys[1] == keys[i],
        keys[i] == keys[i - 1] || lex_lt(keys[i], keys[i - 1]),
{
    crate::codec::lemma_lex_total(keys[i - 1], keys[i]);
}

/// A sample draws only keys that there are, and as many as were asked for, up to all of them.
pub proof fn law_sample_from_keys(keys: Seq<Seq<u8>>, s: DrawsView, size: nat)
    ensures
        ({
            let n = sample_count(size, keys.len());
            let k = sampled_keys(keys, s, n);
            &&& k.len() <= size && k.len() <= keys.len()
            &&& k.len() == size || k.len() == keys.len()
            &&& forall|i: int| 0 <= i < k.len() ==> keys.contains(#[trigger] k[i])
        }),
{
}

/// A checker that has recorded results.
pub open spec fn recorded_all(
    v: CheckerView,
    op_nums: Seq<u64>,
    rs: Seq<ResultView>,
) -> CheckerView
    decreases rs.len(),
{
    if rs.len() == 0 {
        v
    } else {
        recorded(
            recorded_all(v, op_nums, rs.drop_last()),
            op_nums[rs.len() - 1],
            rs.last(),
        )
    }
}

/// A checker counts what it records: all results, and those that failed. Each failed result is
/// there as a violation with its operation, its name, its details and its keys, and there are no
/// others.
pub proof fn law_checker_counts(v: CheckerView, op_nums: Seq<u64>, rs: Seq<ResultView>)
    requires
        v.total_checks + rs.len() <= u64::MAX,
        v.total_failures <= v.total_checks,
        op_nums.len() >= rs.len(),
    ensures
        ({
            let w = recorded_all(v, op_nums, rs);
            &&& w.config == v.config
            &&& w.total_checks == v.total_checks + rs.len()
            &&& w.total_failures - v.total_failures == w.violations.len() - v.violations.len()
            &&& v.total_failures <= w.total_failures <= v.total_failures + rs.len()
            &&& w.total_failures == v.total_failures <==> forall|i: int|
                0 <= i < rs.len() ==> (#[trigger] rs[i]).passed
            &&& forall|i: int|
                0 <= i < rs.len() && !(#[trigger] rs[i]).passed ==> w.violations.contains(
                    ViolationView {
                        op_num: op_nums[i],
                        name: rs[i].name,
                        details: rs[i].details,
                        keys: rs[i].violated_keys,
                    },
                )
            &&& forall|x: ViolationView| #[trigger]
                v.violations.contains(x) ==> w.violations.contains(x)
        }),
    decreases rs.len(),
{
    if rs.len() > 0 {
        let t = rs.drop_last();
        let n = rs.len() - 1;
        law_checker_counts(v, op_nums, t);
        let m = recorded_all(v, op_nums, t);
        let w = recorded_all(v, op_nums, rs);
        assert(rs[n] == rs.last());
        assert forall|x: ViolationView| #[trigger]
            m.violations.contains(x) implies w.violations.contains(x) by {
            let k = choose|k: int| 0 <= k < m.violations.len() && m.violations[k] == x;
            assert(w.violations[k] == x);
        }
        assert forall|i: int| 0 <= i < rs.len() && !(#[trigger] rs[i]).passed implies w
            .violations.contains(
            ViolationView {
                op_num: op_nums[i],
                name: rs[i].name,
                details: rs[i].details,
                keys: rs[i].violated_keys,
            },
        ) by {
            if i < n {
                assert(t[i] == rs[i]);
            } else {
                assert(w.violations[m.violations.len() as int] == (ViolationView {
                    op_num: op_nums[i],
                    name: rs[i].name,
                    details: rs[i].details,
                    keys: rs[i].violated_keys,
                }));
            }
        }
        if forall|i: int| 0 <= i < rs.len() ==> (#[trigger] rs[i]).passed {
            assert forall|i: int| 0 <= i < t.len() implies (#[trigger] t[i]).passed by {
                assert(t[i] == rs[i]);
            }
        }
        if w.total_failures == v.total_failures {
            assert forall|i: int| 0 <= i < rs.len() implies (#[trigger] rs[i]).passed by {
                if i < n {
                    assert(t[i] == rs[i]);
                }
            }
        }
    }
}

/// A report has failed exactly where one of its results has, and the failures that it lists are
/// exactly the results that did not pass.
pub proof fn law_failures_listed(v: ReportView, r: ResultView)
    requires
        counts_match(v),
    ensures
        v.failed == 0 <==> forall|i: int| 0 <= i < v.results.len() ==> (#[trigger] v.results[i]).passed,
        failed_results(v.results).contains(r) <==> v.results.contains(r) && !r.passed,
{
    let p = |x: ResultView| !x.passed;
    crate::model::lemma_filter_empty(v.results, p);
    crate::model::lemma_filter_has(v.results, p, r);
    if v.failed == 0 {
        assert forall|i: int| 0 <= i < v.results.len() implies (#[trigger] v.results[i]).passed by {
            assert(!p(v.results[i]));
        }
    }
    if forall|i: int| 0 <= i < v.results.len() ==> (#[trigger] v.results[i]).passed {
        assert forall|i: int| 0 <= i < v.results.len() implies !p(#[trigger] v.results[i]) by {
            assert(v.results[i].passed);
        }
    }
}

/// Verifying a recovery passes exactly where each key that was written reads the value of its
/// entry in the model, and nothing where it has none.
pub proof fn law_recovery_reads(e: Seq<ModelEntry>, keys: Seq<Seq<u8>>, actual: Seq<ValueView>)
    requires
        crate::model::keys_ascend(e),
        actual.len() == keys.len(),
    ensures
        recovery_of(observed_for(e, keys, actual)).passed <==> forall|i: int|
            0 <= i < keys.len() ==> reads_entry(e, #[trigger] keys[i], actual[i]),
        spot_check_of(observed_for(e, keys, actual), e.len()).passed <==> forall|i: int|
            0 <= i < keys.len() ==> reads_entry(e, #[trigger] keys[i], actual[i]),
{
    let s = observed_for(e, keys, actual);
    law_recovery_told(s);
    law_checks_tell_disagreement(s, e.len());
    assert forall|i: int| 0 <= i < keys.len() implies (reads_entry(
        e,
        #[trigger] keys[i],
        actual[i],
    ) <==> s[i].1 == s[i].2) by {
        crate::model::law_entry_read(e, keys[i]);
    }
    if forall|i: int| 0 <= i < s.len() ==> (#[trigger] s[i]).1 == s[i].2 {
        assert forall|i: int| 0 <= i < keys.len() implies reads_entry(
            e,
            #[trigger] keys[i],
            actual[i],
        ) by {
            assert(s[i].1 == s[i].2);
        }
    }
    if forall|i: int| 0 <= i < keys.len() ==> reads_entry(e, #[trigger] keys[i], actual[i]) {
        assert forall|i: int| 0 <= i < s.len() implies (#[trigger] s[i]).1 == s[i].2 by {
            assert(reads_entry(e, keys[i], actual[i]));
        }
    }
}

/// Tells whether a value is the one of the entry for a key, or nothing where there is none.
pub open spec fn reads_entry(e: Seq<ModelEntry>, key: Seq<u8>, value: ValueView) -> bool {
    &&& forall|j: int| 0 <= j < e.len() && (#[trigger] e[j]).0 == key ==> e[j].1 == value
    &&& (forall|j: int| 0 <= j < e.len() ==> (#[trigger] e[j]).0 != key) ==> value is None
}

/// A check for phantom data passes exactly where each of the keys that reads something was
/// written.
pub proof fn law_phantom_reads(e: Seq<ModelEntry>, keys: Seq<Seq<u8>>, actual: Seq<ValueView>)
    requires
        crate::model::keys_ascend(e),
        actual.len() == keys.len(),
    ensures
        phantom_data_of(e, asked(keys, actual)).passed <==> forall|i: int|
            0 <= i < keys.len() && actual[i] is Some ==> exists|j: int|
                0 <= j < e.len() && (#[trigger] e[j]).0 == #[trigger] keys[i],
{
    let s = asked(keys, actual);
    law_phantoms_told(e, s, Seq::empty());
    if forall|i: int|
        0 <= i < keys.len() && actual[i] is Some ==> exists|j: int|
            0 <= j < e.len() && (#[trigger] e[j]).0 == #[trigger] keys[i] {
        assert forall|i: int| 0 <= i < s.len() && (#[trigger] s[i]).1 is Some implies exists|j: int|
            0 <= j < e.len() && (#[trigger] e[j]).0 == s[i].0 by {
            assert(s[i].0 == keys[i]);
        }
    }
    if forall|i: int|
        0 <= i < s.len() && (#[trigger] s[i]).1 is Some ==> exists|j: int|
            0 <= j < e.len() && (#[trigger] e[j]).0 == s[i].0 {
        assert forall|i: int| 0 <= i < keys.len() && actual[i] is Some implies exists|j: int|
            0 <= j < e.len() && (#[trigger] e[j]).0 == #[trigger] keys[i] by {
            assert(s[i].1 is Some && s[i].0 == keys[i]);
        }
    }
}

/// Two lists that are equally long differ exactly where there is a first place at which they do; a
/// scan check that fails there names the key that was expected.
pub proof fn law_difference_told(a: Seq<ModelEntry>, b: Seq<ModelEntry>, i: int)
    requires
        a.len() == b.len(),
    ensures
        a != b <==> exists|j: int| #[trigger] first_difference(a, b, j),
        first_difference(a, b, i) ==> a[i] != b[i] && a.take(i) == b.take(i),
        first_difference(a, b, i) ==> !difference_at(a, b, i).passed && difference_at(
            a,
            b,
            i,
        ).violated_keys == seq![a[i].0],
{
    if a != b {
        assert(a.take(a.len() as int) =~= a && b.take(a.len() as int) =~= b);
        let k = lemma_some_difference(a, b, a.len() as int);
        assert(first_difference(a, b, k));
    }
    if first_difference(a, b, i) {
        assert(a.take(i) =~= b.take(i));
    }
}

proof fn lemma_some_difference(a: Seq<ModelEntry>, b: Seq<ModelEntry>, n: int) -> (k: int)
    requires
        a.len() == b.len(),
        0 <= n <= a.len(),
        a.take(n) != b.take(n),
    ensures
        first_difference(a, b, k),
    decreases n,
{
    if n == 0 {
        assert(a.take(0) =~= b.take(0));
        0
    } else if a.take(n - 1) != b.take(n - 1) {
        lemma_some_difference(a, b, n - 1)
    } else {
        assert forall|j: int| 0 <= j < n - 1 implies #[trigger] a[j] == b[j] by {
            assert(a.take(n - 1)[j] == b.take(n - 1)[j]);
        }
        if a[n - 1] == b[n - 1] {
            assert(a.take(n) =~= b.take(n));
        }
        n - 1
    }
}

} // verus!
