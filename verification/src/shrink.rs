//! Shrinking: from a failure to a smaller one of the same kind.

use crate::fault::Fault;
use crate::text::{decimal, hex, push_count, push_decimal, push_hex16, text_of};
use crate::workload::{copy_operations, operations_view, Operation, OperationView};
use vstd::slice::slice_subrange;
use vstd::prelude::*;

verus! {

/// A minimal reproduction of a failure.
#[derive(Clone, Debug)]
pub struct MinimalRepro {
    /// The seed that reproduces the failure.
    pub seed: u64,
    /// The operations leading to failure.
    pub operations: Vec<Operation>,
    /// The faults that were injected.
    pub faults: Vec<(u64, Fault)>,
    /// The operation number where the failure occurred.
    pub failure_op: u64,
    /// Description of the failure.
    pub failure_description: String,
}

/// A reproduction as a mathematical value.
pub struct ReproView {
    pub seed: u64,
    pub operations: Seq<OperationView>,
    pub faults: Seq<(u64, Fault)>,
    pub failure_op: u64,
    pub failure_description: Seq<char>,
}

impl View for MinimalRepro {
    type V = ReproView;

    open spec fn view(&self) -> ReproView {
        ReproView {
            seed: self.seed,
            operations: operations_view(self.operations@),
            faults: self.faults@,
            failure_op: self.failure_op,
            failure_description: self.failure_description@,
        }
    }
}

/// The text of a reproduction.
pub open spec fn repro_text(v: ReproView) -> Seq<char> {
    "Seed: 0x"@ + hex(v.seed as nat, 16) + "\nOperations: "@ + decimal(v.operations.len())
        + "\nFaults: "@ + decimal(v.faults.len()) + "\nFailure at op: "@ + decimal(
        v.failure_op as nat,
    ) + "\nDescription: "@ + v.failure_description
}

impl MinimalRepro {
    /// Creates a new minimal reproduction.
    pub fn new(seed: u64, failure_op: u64, failure_description: &str) -> (r: Self)
        ensures
            r@ == (ReproView {
                seed,
                operations: Seq::empty(),
                faults: Seq::empty(),
                failure_op,
                failure_description: failure_description@,
            }),
    {
        let r = MinimalRepro {
            seed,
            operations: Vec::new(),
            faults: Vec::new(),
            failure_op,
            failure_description: text_of(failure_description),
        };
        assert(r@.operations =~= Seq::<OperationView>::empty());
        r
    }

    /// Adds operations to the reproduction.
    pub fn with_operations(self, ops: Vec<Operation>) -> (r: Self)
        ensures
            r@ == (ReproView { operations: operations_view(ops@), ..self@ }),
    {
        MinimalRepro { operations: ops, ..self }
    }

    /// Adds faults to the reproduction.
    pub fn with_faults(self, faults: Vec<(u64, Fault)>) -> (r: Self)
        ensures
            r@ == (ReproView { faults: faults@, ..self@ }),
    {
        MinimalRepro { faults, ..self }
    }

    /// Returns a summary of the reproduction.
    pub fn summary(&self) -> (r: String)
        ensures
            r@ == repro_text(self@),
    {
        let mut r = text_of("Seed: 0x");
        push_hex16(&mut r, self.seed);
        r.push_str("\nOperations: ");
        push_count(&mut r, self.operations.len());
        r.push_str("\nFaults: ");
        push_count(&mut r, self.faults.len());
        r.push_str("\nFailure at op: ");
        push_decimal(&mut r, self.failure_op);
        r.push_str("\nDescription: ");
        r.push_str(self.failure_description.as_str());
        r
    }
}

/// Configuration for the shrinker.
#[derive(Clone, Copy, Debug)]
pub struct ShrinkConfig {
    /// Maximum seeds to try in neighborhood search.
    pub max_seed_neighborhood: u64,
    /// Maximum operation removal attempts.
    pub max_operation_removals: usize,
    /// Enable binary search for the critical operation.
    pub binary_search_enabled: bool,
    /// Maximum shrinking iterations.
    pub max_iterations: usize,
    /// Timeout for each shrink attempt in seconds.
    pub attempt_timeout_secs: u64,
}

impl Default for ShrinkConfig {
    fn default() -> (r: Self)
        ensures
            r == (ShrinkConfig {
                max_seed_neighborhood: 10,
                max_operation_removals: 100,
                binary_search_enabled: true,
                max_iterations: 1000,
                attempt_timeout_secs: 5,
            }),
    {
        ShrinkConfig {
            max_seed_neighborhood: 10,
            max_operation_removals: 100,
            binary_search_enabled: true,
            max_iterations: 1000,
            attempt_timeout_secs: 5,
        }
    }
}

/// Statistics about shrinking attempts.
#[derive(Clone, Copy, Debug, PartialEq, Eq, Structural)]
pub struct ShrinkStats {
    /// Total seeds tried.
    pub seeds_tried: u64,
    /// Total operation sequences tried.
    pub sequences_tried: u64,
    /// Number of successful reductions.
    pub reductions: u64,
    /// Original operation count.
    pub original_ops: usize,
    /// Final operation count.
    pub final_ops: usize,
    /// Original fault count.
    pub original_faults: usize,
    /// Final fault count.
    pub final_faults: usize,
}

/// The statistics before anything was tried.
pub open spec fn no_attempts() -> ShrinkStats {
    ShrinkStats {
        seeds_tried: 0,
        sequences_tried: 0,
        reductions: 0,
        original_ops: 0,
        final_ops: 0,
        original_faults: 0,
        final_faults: 0,
    }
}

impl Default for ShrinkStats {
    fn default() -> (r: Self)
        ensures
            r == no_attempts(),
    {
        ShrinkStats {
            seeds_tried: 0,
            sequences_tried: 0,
            reductions: 0,
            original_ops: 0,
            final_ops: 0,
            original_faults: 0,
            final_faults: 0,
        }
    }
}

/// A quotient rounded to the nearest whole number, a half to the even one.
pub open spec fn nearest(a: nat, b: nat) -> nat {
    let q = a / b;
    let r = a % b;
    if 2 * r > b || (2 * r == b && q % 2 == 1) {
        q + 1
    } else {
        q
    }
}

/// Computes a quotient rounded to the nearest whole number, a half to the even one.
pub fn rounded_quotient(a: u128, b: u128) -> (r: u128)
    requires
        0 < b <= u64::MAX,
    ensures
        r == nearest(a as nat, b as nat),
{
    let q = a / b;
    let rest = a % b;
    if 2 * rest > b || (2 * rest == b && q % 2 == 1) {
        proof {
            assert(q < u128::MAX) by (nonlinear_arith)
                requires
                    q == a / b,
                    rest == a % b,
                    rest > 0,
                    0 < b <= u64::MAX,
                    a <= u128::MAX,
            {
                assert(a == b * q + rest);
                assert(q <= b * q);
            }
        }
        q + 1
    } else {
        q
    }
}

/// A number of parts of a whole in tenths of a percent.
pub open spec fn tenths(part: nat, whole: nat) -> nat {
    nearest(1000 * part, whole)
}

/// Tenths of a percent as text.
pub open spec fn tenths_text(t: nat) -> Seq<char> {
    decimal(t / 10) + "."@ + decimal(t % 10)
}

/// By how many percent a number was reduced, as text.
pub open spec fn reduction_text(original: nat, left: nat) -> Seq<char> {
    if original == 0 {
        "0.0"@
    } else if left <= original {
        tenths_text(tenths((original - left) as nat, original))
    } else {
        "-"@ + tenths_text(tenths((left - original) as nat, original))
    }
}

fn push_wide(s: &mut String, n: u128)
    ensures
        final(s)@ == old(s)@ + decimal(n as nat),
    decreases n,
{
    let ghost before = s@;
    if n <= u64::MAX as u128 {
        push_decimal(s, n as u64);
    } else {
        push_wide(s, n / 10);
        push_decimal(s, (n % 10) as u64);
        assert(decimal((n % 10) as nat) =~= seq![crate::text::digit((n % 10) as nat)]);
        assert(s@ =~= before + decimal(n as nat));
    }
}

fn push_tenths(s: &mut String, part: usize, whole: usize)
    requires
        whole > 0,
    ensures
        final(s)@ == old(s)@ + tenths_text(tenths(part as nat, whole as nat)),
{
    let ghost before = s@;
    let t = rounded_quotient(1000 * (part as u128), whole as u128);
    push_wide(s, t / 10);
    s.push_str(".");
    push_wide(s, t % 10);
    assert(s@ =~= before + tenths_text(tenths(part as nat, whole as nat)));
}

/// Appends by how many percent a number was reduced.
pub fn push_reduction(s: &mut String, original: usize, left: usize)
    ensures
        final(s)@ == old(s)@ + reduction_text(original as nat, left as nat),
{
    let ghost before = s@;
    if original == 0 {
        s.push_str("0.0");
    } else if left <= original {
        push_tenths(s, original - left, original);
    } else {
        s.push_str("-");
        push_tenths(s, left - original, original);
    }
    assert(s@ =~= before + reduction_text(original as nat, left as nat));
}

impl ShrinkStats {
    /// Returns a summary string.
    pub fn summary(&self) -> (r: String)
        ensures
            r@ == "Shrunk from "@ + decimal(self.original_ops as nat) + " ops to "@ + decimal(
                self.final_ops as nat,
            ) + " ops ("@ + reduction_text(self.original_ops as nat, self.final_ops as nat)
                + "% reduction), "@ + decimal(self.seeds_tried as nat) + " seeds tried"@,
    {
        let mut r = text_of("Shrunk from ");
        push_count(&mut r, self.original_ops);
        r.push_str(" ops to ");
        push_count(&mut r, self.final_ops);
        r.push_str(" ops (");
        push_reduction(&mut r, self.original_ops, self.final_ops);
        r.push_str("% reduction), ");
        push_decimal(&mut r, self.seeds_tried);
        r.push_str(" seeds tried");
        r
    }
}

/// Result of a shrink attempt.
#[derive(Clone, Debug)]
pub enum ShrinkResult {
    /// Found a smaller reproduction.
    Shrunk(MinimalRepro),
    /// Could not shrink further.
    Minimal(MinimalRepro),
    /// Shrinking timed out.
    Timeout(MinimalRepro),
    /// No failure to shrink.
    NoFailure,
}

/// The reproduction of a result.
pub open spec fn repro_of(r: ShrinkResult) -> Option<ReproView> {
    match r {
        ShrinkResult::Shrunk(m) => Some(m@),
        ShrinkResult::Minimal(m) => Some(m@),
        ShrinkResult::Timeout(m) => Some(m@),
        ShrinkResult::NoFailure => None,
    }
}

impl ShrinkResult {
    /// Returns the reproduction if one exists.
    pub fn repro(&self) -> (r: Option<&MinimalRepro>)
        ensures
            match r {
                Some(m) => repro_of(*self) == Some(m@),
                None => repro_of(*self) is None,
            },
    {
        match self {
            ShrinkResult::Shrunk(m) => Some(m),
            ShrinkResult::Minimal(m) => Some(m),
            ShrinkResult::Timeout(m) => Some(m),
            ShrinkResult::NoFailure => None,
        }
    }

    /// Returns true if shrinking was successful.
    pub fn is_shrunk(&self) -> (r: bool)
        ensures
            r == (*self is Shrunk),
    {
        match self {
            ShrinkResult::Shrunk(_) => true,
            _ => false,
        }
    }
}

/// Tells whether a test of operations may be asked of any.
pub open spec fn tests_all_ops<F: Fn(&[Operation]) -> Option<String>>(test: F) -> bool {
    forall|s: &[Operation]| #[trigger] call_requires(test, (s,))
}

/// Tells whether a test may say of operations that they fail, with a description.
pub open spec fn ops_fail<F: Fn(&[Operation]) -> Option<String>>(
    test: F,
    ops: Seq<OperationView>,
    text: Seq<char>,
) -> bool {
    exists|s: &[Operation], d: String|
        operations_view(s@) == ops && d@ == text && #[trigger] call_ensures(test, (s,), Some(d))
}

/// Tells whether a test may say of operations that they pass.
pub open spec fn ops_pass<F: Fn(&[Operation]) -> Option<String>>(
    test: F,
    ops: Seq<OperationView>,
) -> bool {
    exists|s: &[Operation]|
        operations_view(s@) == ops && #[trigger] call_ensures(test, (s,), None)
}

/// Tells whether a test may say of operations that they fail.
pub open spec fn ops_may_fail<F: Fn(&[Operation]) -> Option<String>>(
    test: F,
    ops: Seq<OperationView>,
) -> bool {
    exists|text: Seq<char>| #[trigger] ops_fail(test, ops, text)
}

/// Tells whether a test says of operations, whenever it is asked, that they fail, or that they
/// pass.
pub open spec fn ops_decided<F: Fn(&[Operation]) -> Option<String>>(test: F) -> bool {
    forall|ops: Seq<OperationView>| !(#[trigger] ops_may_fail(test, ops) && ops_pass(test, ops))
}

/// The last of the first `n` operations that can be left out, where it is found within `left`
/// attempts, and how many were made.
pub open spec fn needless_op<F: Fn(&[Operation]) -> Option<String>>(
    test: F,
    ops: Seq<OperationView>,
    n: nat,
    left: nat,
) -> (Option<nat>, nat)
    decreases n,
{
    if n == 0 || left == 0 {
        (None, 0)
    } else if ops_may_fail(test, ops.remove(n - 1)) {
        (Some((n - 1) as nat), 1)
    } else {
        let (found, used) = needless_op(test, ops, (n - 1) as nat, (left - 1) as nat);
        (found, used + 1)
    }
}

/// What is left of operations when, time and again, the last that can be left out is left out, as
/// far as `left` attempts go; the attempts made; and how many operations were left out.
pub open spec fn ops_left<F: Fn(&[Operation]) -> Option<String>>(
    test: F,
    ops: Seq<OperationView>,
    left: nat,
) -> (Seq<OperationView>, nat, nat)
    decreases ops.len(),
{
    if left == 0 {
        (ops, 0, 0)
    } else {
        let (found, used) = needless_op(test, ops, ops.len(), left);
        match found {
            Some(i) => if i < ops.len() && used <= left {
                let (rest, more, n) = ops_left(test, ops.remove(i as int), (left - used) as nat);
                (rest, used + more, n + 1)
            } else {
                (ops, used, 0)
            },
            None => (ops, used, 0),
        }
    }
}

/// The length of the front that a search by halving finds to fail, and the attempts made.
pub open spec fn front_found<F: Fn(&[Operation]) -> Option<String>>(
    test: F,
    ops: Seq<OperationView>,
    lo: nat,
    hi: nat,
) -> (nat, nat)
    decreases hi - lo,
{
    if hi <= lo + 1 {
        (hi, 0)
    } else {
        let mid = (lo + (hi - lo) / 2) as nat;
        let (n, used) = if ops_may_fail(test, ops.take(mid as int)) {
            front_found(test, ops, lo, mid)
        } else {
            front_found(test, ops, mid, hi)
        };
        (n, used + 1)
    }
}

/// What operations are shrunk to, the attempts made, and how many operations were left out.
pub open spec fn shrunk_ops<F: Fn(&[Operation]) -> Option<String>>(
    test: F,
    c: ShrinkConfig,
    ops: Seq<OperationView>,
) -> (Seq<OperationView>, nat, nat) {
    let (rest, used, n) = ops_left(test, ops, c.max_iterations as nat);
    if c.binary_search_enabled && rest.len() > 2 {
        let (len, more) = front_found(test, rest, 0, rest.len());
        (rest.take(len as int), used + more, n)
    } else {
        (rest, used, n)
    }
}

/// Tells whether places pick the items of a list out of another, in order.
pub open spec fn picks<A>(places: Seq<int>, part: Seq<A>, whole: Seq<A>) -> bool {
    &&& places.len() == part.len()
    &&& forall|i: int|
        0 <= i < places.len() ==> 0 <= #[trigger] places[i] < whole.len() && part[i]
            == whole[places[i]]
    &&& forall|i: int, j: int|
        0 <= i < j < places.len() ==> #[trigger] places[i] < #[trigger] places[j]
}

/// Tells whether a list comes from another by leaving items out.
pub open spec fn is_part_of<A>(part: Seq<A>, whole: Seq<A>) -> bool {
    exists|places: Seq<int>| picks(places, part, whole)
}

/// Tells whether leaving out any one operation makes a test pass.
pub open spec fn all_needed<F: Fn(&[Operation]) -> Option<String>>(
    test: F,
    ops: Seq<OperationView>,
) -> bool {
    forall|i: int| 0 <= i < ops.len() ==> ops_pass(test, #[trigger] ops.remove(i))
}

/// Tells whether operations are the shortest front of others that a search by halving finds
/// to fail: one operation less passes, or only one is left.
pub open spec fn shortest_front<F: Fn(&[Operation]) -> Option<String>>(
    test: F,
    all: Seq<OperationView>,
    front: Seq<OperationView>,
) -> bool {
    &&& front.len() <= all.len()
    &&& front == all.take(front.len() as int)
    &&& front.len() <= 1 || ops_pass(test, all.take(front.len() - 1))
}

/// A shrinker that reduces failing test cases.
pub struct Shrinker {
    config: ShrinkConfig,
    stats: ShrinkStats,
}

proof fn lemma_part_whole<A>(whole: Seq<A>)
    ensures
        is_part_of(whole, whole),
{
    assert(picks(Seq::new(whole.len(), |i: int| i), whole, whole));
}

proof fn lemma_part_step<A>(part: Seq<A>, whole: Seq<A>, i: int)
    requires
        is_part_of(part, whole),
        0 <= i < part.len(),
    ensures
        is_part_of(part.remove(i), whole),
{
    let f = choose|f: Seq<int>| picks(f, part, whole);
    let g = f.remove(i);
    let p = part.remove(i);
    assert forall|k: int| 0 <= k < g.len() implies 0 <= #[trigger] g[k] < whole.len() && p[k]
        == whole[g[k]] by {
        let o = if k < i {
            k
        } else {
            k + 1
        };
        assert(g[k] == f[o] && p[k] == part[o]);
    }
    assert forall|k: int, l: int| 0 <= k < l < g.len() implies #[trigger] g[k] < #[trigger] g[l] by {
        let o = if k < i {
            k
        } else {
            k + 1
        };
        let q = if l < i {
            l
        } else {
            l + 1
        };
        assert(g[k] == f[o] && g[l] == f[q]);
    }
    assert(picks(g, p, whole));
}

proof fn lemma_part_front<A>(part: Seq<A>, whole: Seq<A>, n: int)
    requires
        is_part_of(part, whole),
        0 <= n <= part.len(),
    ensures
        is_part_of(part.take(n), whole),
{
    let f = choose|f: Seq<int>| picks(f, part, whole);
    assert(picks(f.take(n), part.take(n), whole));
}

fn without(ops: &Vec<Operation>, skip: usize) -> (r: Vec<Operation>)
    requires
        skip < ops.len(),
    ensures
        operations_view(r@) == operations_view(ops@).remove(skip as int),
        r.len() == ops.len() - 1,
{
    let ghost v = operations_view(ops@);
    let mut r: Vec<Operation> = Vec::new();
    let mut i: usize = 0;
    assert(operations_view(r@) =~= v.remove(skip as int).take(0));
    while i < ops.len()
        invariant
            skip < ops.len(),
            i <= ops.len(),
            v == operations_view(ops@),
            r.len() == if i <= skip {
                i as int
            } else {
                i - 1
            },
            operations_view(r@) == v.remove(skip as int).take(r.len() as int),
        decreases ops.len() - i,
    {
        if i != skip {
            let ghost before = r@;
            r.push(ops[i].copy());
            assert(operations_view(r@) =~= operations_view(before).push(v[i as int]));
            assert(v.remove(skip as int).take(r.len() as int) =~= v.remove(skip as int).take(
                before.len() as int,
            ).push(v[i as int]));
        }
        i += 1;
    }
    assert(v.remove(skip as int).take(r.len() as int) =~= v.remove(skip as int));
    r
}

/// A count with one more, as far as it goes.
pub open spec fn one_up(n: u64) -> u64 {
    if n < u64::MAX {
        (n + 1) as u64
    } else {
        n
    }
}

/// A count with more, as far as it goes.
pub open spec fn ups(v: u64, n: nat) -> u64 {
    if v + n > u64::MAX {
        u64::MAX
    } else {
        (v + n) as u64
    }
}

/// Counts one more, as far as it goes.
pub fn bump(n: u64) -> (r: u64)
    ensures
        r == one_up(n),
{
    if n < u64::MAX {
        n + 1
    } else {
        n
    }
}

impl Shrinker {
    /// The configuration of the shrinker.
    pub closed spec fn spec_config(&self) -> ShrinkConfig {
        self.config
    }

    /// The statistics of the shrinker.
    pub closed spec fn spec_stats(&self) -> ShrinkStats {
        self.stats
    }

    /// Creates a new shrinker with the given configuration.
    pub fn new(config: ShrinkConfig) -> (r: Self)
        ensures
            r.spec_config() == config,
            r.spec_stats() == no_attempts(),
    {
        Shrinker { config, stats: ShrinkStats::default() }
    }

    /// Returns the current statistics.
    pub fn stats(&self) -> (r: &ShrinkStats)
        ensures
            *r == self.spec_stats(),
    {
        &self.stats
    }

    /// Resets the statistics.
    pub fn reset_stats(&mut self)
        ensures
            final(self).spec_config() == old(self).spec_config(),
            final(self).spec_stats() == no_attempts(),
    {
        self.stats = ShrinkStats::default();
    }
}

/// Tells what shrinking operations may give, where `tired` says that the attempts were used
/// up: a part of the operations that still fails, from which no single operation can be left
/// out, or the shortest failing front of such a part.
pub open spec fn ops_shrunk<F: Fn(&[Operation]) -> Option<String>>(
    test: F,
    c: ShrinkConfig,
    ops: Seq<OperationView>,
    tired: bool,
    m: ReproView,
) -> bool {
    &&& is_part_of(m.operations, ops)
    &&& ops_fail(test, m.operations, m.failure_description)
    &&& m.seed == 0
    &&& m.failure_op == m.operations.len()
    &&& m.faults == Seq::<(u64, Fault)>::empty()
    &&& exists|left: Seq<OperationView>| #[trigger]
        ends_with(test, c, tired, left, m.operations)
}

/// Tells whether operations are what the search by halving makes of those that are left when
/// nothing more can be left out.
pub open spec fn ends_with<F: Fn(&[Operation]) -> Option<String>>(
    test: F,
    c: ShrinkConfig,
    tired: bool,
    left: Seq<OperationView>,
    ops: Seq<OperationView>,
) -> bool {
    &&& tired || all_needed(test, left)
    &&& if c.binary_search_enabled && left.len() > 2 {
        shortest_front(test, left, ops)
    } else {
        ops == left
    }
}

proof fn lemma_ops_shrunk<F: Fn(&[Operation]) -> Option<String>>(
    test: F,
    c: ShrinkConfig,
    ops: Seq<OperationView>,
    tired: bool,
    left: Seq<OperationView>,
    m: ReproView,
)
    requires
        is_part_of(m.operations, ops),
        ops_fail(test, m.operations, m.failure_description),
        m.seed == 0,
        m.failure_op == m.operations.len(),
        m.faults == Seq::<(u64, Fault)>::empty(),
        ends_with(test, c, tired, left, m.operations),
    ensures
        ops_shrunk(test, c, ops, tired, m),
{
}

/// Tells whether a shrinker used up its attempts between two states of its statistics.
pub open spec fn used_up(c: ShrinkConfig, before: ShrinkStats, after: ShrinkStats) -> bool {
    after.sequences_tried >= before.sequences_tried + c.max_iterations || after.sequences_tried
        == u64::MAX
}

impl Shrinker {
    fn remove_one<F: Fn(&[Operation]) -> Option<String>>(
        &mut self,
        current: &Vec<Operation>,
        test_fn: &F,
        iterations: usize,
    ) -> (r: (Option<(Vec<Operation>, String)>, usize))
        requires
            tests_all_ops(*test_fn),
            iterations <= old(self).config.max_iterations,
        ensures
            final(self).config == old(self).config,
            iterations <= r.1 <= old(self).config.max_iterations,
            final(self).stats == (ShrinkStats {
                sequences_tried: ups(
                    old(self).stats.sequences_tried,
                    (r.1 - iterations) as nat,
                ),
                ..old(self).stats
            }),
            ops_decided(*test_fn) ==> {
                let v = operations_view(current@);
                let (found, used) = needless_op(
                    *test_fn,
                    v,
                    v.len(),
                    (old(self).config.max_iterations - iterations) as nat,
                );
                &&& r.1 == iterations + used
                &&& match found {
                    Some(i) => i < v.len() && r.0 is Some && operations_view((r.0->0).0@)
                        == v.remove(i as int),
                    None => r.0 is None,
                }
            },
            match r.0 {
                Some((ops, desc)) => exists|i: int|
                    0 <= i < current.len() && operations_view(ops@)
                        == #[trigger] operations_view(current@).remove(i) && ops_fail(
                        *test_fn,
                        operations_view(ops@),
                        desc@,
                    ),
                None => r.1 == old(self).config.max_iterations || all_needed(
                    *test_fn,
                    operations_view(current@),
                ),
            },
    {
        let ghost v = operations_view(current@);
        let mut used: usize = iterations;
        let mut i: usize = current.len();
        while i > 0
            invariant
                i <= current.len(),
                v == operations_view(current@),
                v.len() == current.len(),
                tests_all_ops(*test_fn),
                self.config == old(self).config,
                iterations <= used <= self.config.max_iterations,
                self.stats == (ShrinkStats {
                    sequences_tried: ups(
                        old(self).stats.sequences_tried,
                        (used - iterations) as nat,
                    ),
                    ..old(self).stats
                }),
                ops_decided(*test_fn) ==> {
                    let all = needless_op(
                        *test_fn,
                        v,
                        v.len(),
                        (self.config.max_iterations - iterations) as nat,
                    );
                    let next = needless_op(
                        *test_fn,
                        v,
                        i as nat,
                        (self.config.max_iterations - used) as nat,
                    );
                    all == (next.0, (used - iterations) as nat + next.1)
                },
                forall|k: int| i <= k < v.len() ==> ops_pass(*test_fn, #[trigger] v.remove(k)),
            decreases i,
        {
            if used >= self.config.max_iterations {
                return (None, used);
            }
            i -= 1;
            let candidate = without(current, i);
            self.stats.sequences_tried = bump(self.stats.sequences_tried);
            used += 1;
            let s = candidate.as_slice();
            match test_fn(s) {
                Some(desc) => {
                    assert(ops_fail(*test_fn, operations_view(s@), desc@));
                    assert(operations_view(candidate@) == v.remove(i as int));
                    assert(ops_may_fail(*test_fn, v.remove(i as int)));
                    return (Some((candidate, desc)), used);
                },
                None => {
                    assert(ops_pass(*test_fn, operations_view(s@)));
                },
            }
        }
        (None, used)
    }

    /// Searches by halving for the critical operation.
    fn binary_shrink<F: Fn(&[Operation]) -> Option<String>>(
        &mut self,
        ops: Vec<Operation>,
        test_fn: &F,
        failure_desc: String,
    ) -> (r: (Vec<Operation>, String))
        requires
            tests_all_ops(*test_fn),
            ops_fail(*test_fn, operations_view(ops@), failure_desc@),
        ensures
            shortest_front(*test_fn, operations_view(ops@), operations_view((r.0)@)),
            ops_fail(*test_fn, operations_view((r.0)@), (r.1)@),
            final(self).config == old(self).config,
            final(self).stats.sequences_tried >= old(self).stats.sequences_tried,
            final(self).stats == (ShrinkStats {
                sequences_tried: final(self).stats.sequences_tried,
                ..old(self).stats
            }),
            ops_decided(*test_fn) ==> {
                let v = operations_view(ops@);
                let (n, used) = front_found(*test_fn, v, 0, v.len());
                &&& n <= v.len()
                &&& operations_view((r.0)@) == v.take(n as int)
                &&& final(self).stats.sequences_tried == ups(
                    old(self).stats.sequences_tried,
                    used,
                )
            },
    {
        let ghost v = operations_view(ops@);
        let ghost mut done: nat = 0;
        let mut lo: usize = 0;
        let mut hi: usize = ops.len();
        let mut best = copy_operations(ops.as_slice());
        let mut desc = failure_desc;
        assert(v.take(hi as int) =~= v);
        while hi - lo > 1
            invariant
                lo <= hi <= ops.len(),
                hi > 0 ==> lo < hi,
                v == operations_view(ops@),
                v.len() == ops.len(),
                tests_all_ops(*test_fn),
                operations_view(best@) == v.take(hi as int),
                ops_fail(*test_fn, operations_view(best@), desc@),
                lo == 0 || ops_pass(*test_fn, v.take(lo as int)),
                self.config == old(self).config,
                self.stats.sequences_tried >= old(self).stats.sequences_tried,
                self.stats == (ShrinkStats {
                    sequences_tried: self.stats.sequences_tried,
                    ..old(self).stats
                }),
                self.stats.sequences_tried == ups(old(self).stats.sequences_tried, done),
                ops_decided(*test_fn) ==> {
                    let all = front_found(*test_fn, v, 0, v.len());
                    let next = front_found(*test_fn, v, lo as nat, hi as nat);
                    all == (next.0, done + next.1)
                },
            decreases hi - lo,
        {
            proof {
                done = done + 1;
            }
            let mid: usize = lo + (hi - lo) / 2;
            let first_half = copy_operations(slice_subrange(ops.as_slice(), 0, mid));
            assert(operations_view(first_half@) =~= v.take(mid as int));
            self.stats.sequences_tried = bump(self.stats.sequences_tried);
            let s = first_half.as_slice();
            match test_fn(s) {
                Some(d) => {
                    assert(ops_fail(*test_fn, operations_view(s@), d@));
                    assert(ops_may_fail(*test_fn, v.take(mid as int)));
                    hi = mid;
                    best = first_half;
                    desc = d;
                },
                None => {
                    assert(ops_pass(*test_fn, operations_view(s@)));
                    lo = mid;
                },
            }
        }
        (best, desc)
    }

    /// Attempts to shrink a failing operation sequence. The test gives a description where the
    /// sequence fails.
    pub fn shrink_operations<F: Fn(&[Operation]) -> Option<String>>(
        &mut self,
        operations: Vec<Operation>,
        test_fn: F,
    ) -> (r: ShrinkResult)
        requires
            tests_all_ops(test_fn),
        ensures
            final(self).spec_config() == old(self).spec_config(),
            final(self).spec_stats().original_ops == operations.len(),
            match repro_of(r) {
                None => ops_pass(test_fn, operations_view(operations@)),
                Some(m) => {
                    &&& final(self).spec_stats().final_ops == m.operations.len()
                    &&& (r is Shrunk) == (m.operations.len() < operations.len())
                    &&& r is Shrunk || r is Minimal
                    &&& ops_shrunk(
                        test_fn,
                        old(self).spec_config(),
                        operations_view(operations@),
                        used_up(
                            old(self).spec_config(),
                            old(self).spec_stats(),
                            final(self).spec_stats(),
                        ),
                        m,
                    )
                },
            },
            ops_decided(test_fn) ==> {
                let v = operations_view(operations@);
                let (left, tried, n) = shrunk_ops(test_fn, old(self).spec_config(), v);
                let before = old(self).spec_stats();
                if ops_may_fail(test_fn, v) {
                    &&& repro_of(r) is Some
                    &&& repro_of(r)->0.operations == left
                    &&& final(self).spec_stats() == (ShrinkStats {
                        original_ops: operations.len(),
                        final_ops: left.len() as usize,
                        sequences_tried: ups(before.sequences_tried, tried),
                        reductions: ups(before.reductions, n),
                        ..before
                    })
                } else {
                    &&& r is NoFailure
                    &&& final(self).spec_stats() == (ShrinkStats {
                        original_ops: operations.len(),
                        ..before
                    })
                }
            },
    {
        let ghost before = self.stats;
        let ghost mut done: nat = 0;
        self.stats.original_ops = operations.len();
        let ghost whole = operations_view(operations@);
        let ghost c = self.config;
        let ghost tried0 = self.stats.sequences_tried;
        let n = operations.len();
        let s = operations.as_slice();
        let mut current_desc = match test_fn(s) {
            Some(desc) => desc,
            None => {
                assert(ops_pass(test_fn, operations_view(s@)));
                return ShrinkResult::NoFailure;
            },
        };
        assert(ops_fail(test_fn, operations_view(s@), current_desc@));
        assert(ops_may_fail(test_fn, whole));
        let mut current = operations;
        let mut iterations: usize = 0;
        let mut more = true;
        proof {
            lemma_part_whole(whole);
        }
        while more
            invariant
                tests_all_ops(test_fn),
                self.config == c,
                c == old(self).config,
                self.stats.original_ops == n,
                whole.len() == n,
                iterations <= c.max_iterations,
                current.len() <= n,
                is_part_of(operations_view(current@), whole),
                ops_fail(test_fn, operations_view(current@), current_desc@),
                self.stats == (ShrinkStats {
                    original_ops: n,
                    sequences_tried: ups(before.sequences_tried, iterations as nat),
                    reductions: ups(before.reductions, done),
                    ..before
                }),
                tried0 == before.sequences_tried,
                !more ==> iterations == c.max_iterations || all_needed(
                    test_fn,
                    operations_view(current@),
                ),
                ops_decided(test_fn) ==> {
                    let v = operations_view(current@);
                    let all = ops_left(test_fn, whole, c.max_iterations as nat);
                    let next = ops_left(test_fn, v, (c.max_iterations - iterations) as nat);
                    if more {
                        all == (next.0, iterations as nat + next.1, done + next.2)
                    } else {
                        all == (v, iterations as nat, done)
                    }
                },
            decreases
                current.len(),
                (if more {
                    1int
                } else {
                    0int
                }),
        {
            if iterations >= self.config.max_iterations {
                more = false;
            } else {
                let (found, used) = self.remove_one(&current, &test_fn, iterations);
                iterations = used;
                match found {
                    Some((candidate, desc)) => {
                        proof {
                            let i = choose|i: int|
                                0 <= i < current.len() && operations_view(candidate@)
                                    == #[trigger] operations_view(current@).remove(i);
                            lemma_part_step(operations_view(current@), whole, i);
                            assert(operations_view(candidate@).len() == candidate.len());
                            assert(operations_view(current@).len() == current.len());
                        }
                        current = candidate;
                        current_desc = desc;
                        self.stats.reductions = bump(self.stats.reductions);
                        proof {
                            done = done + 1;
                        }
                    },
                    None => {
                        more = false;
                    },
                }
            }
        }
        let ghost left = operations_view(current@);
        let ghost used = iterations == c.max_iterations;
        assert(used || all_needed(test_fn, left));
        assert(left.len() == current.len());
        if self.config.binary_search_enabled && current.len() > 2 {
            let (front, desc) = self.binary_shrink(current, &test_fn, current_desc);
            proof {
                lemma_part_front(left, whole, operations_view(front@).len() as int);
                assert(operations_view(front@).len() == front.len());
            }
            current = front;
            current_desc = desc;
        }
        self.stats.final_ops = current.len();
        assert(operations_view(current@).len() == current.len());
        let repro = MinimalRepro::new(
            0,
            current.len() as u64,
            current_desc.as_str(),
        ).with_operations(current);
        proof {
            let tired = used_up(c, old(self).stats, self.stats);
            assert(used ==> tired);
            lemma_ops_shrunk(test_fn, c, whole, tired, left, repro@);
        }
        if self.stats.final_ops < self.stats.original_ops {
            ShrinkResult::Shrunk(repro)
        } else {
            ShrinkResult::Minimal(repro)
        }
    }
}

/// Tells whether a test of seeds may be asked of any.
pub open spec fn tests_all_seeds<F: Fn(u64) -> Option<MinimalRepro>>(test: F) -> bool {
    forall|s: u64| #[trigger] call_requires(test, (s,))
}

/// A reproduction that may be missing as a mathematical value.
pub open spec fn opt_repro(m: Option<MinimalRepro>) -> Option<ReproView> {
    match m {
        Some(r) => Some(r@),
        None => None,
    }
}

/// Tells whether a test may answer for a seed.
pub open spec fn seed_answers<F: Fn(u64) -> Option<MinimalRepro>>(
    test: F,
    seed: u64,
    answer: Option<ReproView>,
) -> bool {
    exists|m: Option<MinimalRepro>|
        opt_repro(m) == answer && #[trigger] call_ensures(test, (seed,), m)
}

/// The seed and its neighbors up to a distance, nearest first, the lower one first.
pub open spec fn neighbors(seed: u64, n: nat) -> Seq<u64>
    decreases n,
{
    if n == 0 {
        seq![seed]
    } else {
        let rest = neighbors(seed, (n - 1) as nat);
        let up = (seed + n) as u64;
        if seed >= n {
            rest.push((seed - n) as u64).push(up)
        } else {
            rest.push(up)
        }
    }
}

/// Tells whether answers are what a test may answer for seeds, one for each.
pub open spec fn seeds_answered<F: Fn(u64) -> Option<MinimalRepro>>(
    test: F,
    seeds: Seq<u64>,
    answers: Seq<Option<ReproView>>,
) -> bool {
    &&& answers.len() == seeds.len()
    &&& forall|i: int|
        0 <= i < seeds.len() ==> seed_answers(test, seeds[i], #[trigger] answers[i])
}

/// The first of the shortest reproductions.
pub open spec fn shortest(answers: Seq<Option<ReproView>>) -> Option<ReproView>
    decreases answers.len(),
{
    if answers.len() == 0 {
        None
    } else {
        let best = shortest(answers.drop_last());
        match (best, answers.last()) {
            (None, a) => a,
            (Some(b), None) => Some(b),
            (Some(b), Some(a)) => if a.operations.len() < b.operations.len() {
                Some(a)
            } else {
                Some(b)
            },
        }
    }
}

/// How many times a later reproduction was shorter than those before it.
pub open spec fn improvements(answers: Seq<Option<ReproView>>) -> nat
    decreases answers.len(),
{
    if answers.len() <= 1 {
        0
    } else {
        let before = answers.drop_last();
        improvements(before) + match (shortest(before), answers.last()) {
            (Some(b), Some(a)) => if a.operations.len() < b.operations.len() {
                1nat
            } else {
                0
            },
            _ => 0,
        }
    }
}

/// The statistics after seeds were tried.
pub open spec fn seeds_counted(s: ShrinkStats, answers: Seq<Option<ReproView>>) -> ShrinkStats {
    ShrinkStats {
        seeds_tried: ups(s.seeds_tried, answers.len()),
        reductions: ups(s.reductions, improvements(answers)),
        ..s
    }
}

impl Shrinker {
    fn try_seed<F: Fn(u64) -> Option<MinimalRepro>>(
        &mut self,
        seed: u64,
        test_fn: &F,
        best: MinimalRepro,
    ) -> (r: (MinimalRepro, Ghost<Option<ReproView>>))
        requires
            tests_all_seeds(*test_fn),
        ensures
            final(self).config == old(self).config,
            final(self).stats == (ShrinkStats {
                seeds_tried: one_up(old(self).stats.seeds_tried),
                reductions: match (r.1)@ {
                    Some(a) => if a.operations.len() < best@.operations.len() {
                        one_up(old(self).stats.reductions)
                    } else {
                        old(self).stats.reductions
                    },
                    None => old(self).stats.reductions,
                },
                ..old(self).stats
            }),
            seed_answers(*test_fn, seed, (r.1)@),
            (r.0)@ == match (r.1)@ {
                Some(a) => if a.operations.len() < best@.operations.len() {
                    a
                } else {
                    best@
                },
                None => best@,
            },
    {
        self.stats.seeds_tried = bump(self.stats.seeds_tried);
        let answer = test_fn(seed);
        let ghost a = opt_repro(answer);
        assert(seed_answers(*test_fn, seed, a));
        match answer {
            Some(repro) => {
                assert(repro@.operations.len() == repro.operations.len());
                assert(best@.operations.len() == best.operations.len());
                if repro.operations.len() < best.operations.len() {
                    self.stats.reductions = bump(self.stats.reductions);
                    (repro, Ghost(a))
                } else {
                    (best, Ghost(a))
                }
            },
            None => (best, Ghost(a)),
        }
    }

    /// Attempts to shrink by finding a simpler seed. The test gives a reproduction where the
    /// seed fails.
    pub fn shrink_seed<F: Fn(u64) -> Option<MinimalRepro>>(&mut self, seed: u64, test_fn: F) -> (r:
        ShrinkResult)
        requires
            tests_all_seeds(test_fn),
            seed + old(self).spec_config().max_seed_neighborhood <= u64::MAX,
        ensures
            final(self).spec_config() == old(self).spec_config(),
            match repro_of(r) {
                None => r is NoFailure && seed_answers(test_fn, seed, None)
                    && final(self).spec_stats() == old(self).spec_stats(),
                Some(m) => {
                    &&& exists|answers: Seq<Option<ReproView>>|
                        seeds_answered(
                            test_fn,
                            neighbors(
                                seed,
                                old(self).spec_config().max_seed_neighborhood as nat,
                            ),
                            answers,
                        ) && answers[0] is Some && #[trigger] shortest(answers) == Some(m)
                            && final(self).spec_stats() == seeds_counted(
                            old(self).spec_stats(),
                            answers,
                        )
                    &&& r is Shrunk || r is Minimal
                    &&& (r is Shrunk) == (m.seed != seed || m.operations.len() < old(
                        self,
                    ).spec_stats().original_ops)
                },
            },
    {
        let mut best = match test_fn(seed) {
            Some(r) => {
                assert(seed_answers(test_fn, seed, Some(r@)));
                r
            },
            None => {
                assert(seed_answers(test_fn, seed, None));
                return ShrinkResult::NoFailure;
            },
        };
        self.stats.seeds_tried = bump(self.stats.seeds_tried);
        let ghost mut answers: Seq<Option<ReproView>> = seq![Some(best@)];
        proof {
            assert(answers.drop_last() =~= Seq::<Option<ReproView>>::empty());
            assert(shortest(Seq::<Option<ReproView>>::empty()) is None);
        }
        let max = self.config.max_seed_neighborhood;
        let mut offset: u64 = 0;
        while offset < max
            invariant
                offset <= max,
                max == old(self).config.max_seed_neighborhood,
                seed + max <= u64::MAX,
                tests_all_seeds(test_fn),
                self.config == old(self).config,
                self.stats == seeds_counted(old(self).stats, answers),
                seeds_answered(test_fn, neighbors(seed, offset as nat), answers),
                answers.len() > 0,
                answers[0] is Some,
                shortest(answers) == Some(best@),
            decreases max - offset,
        {
            offset += 1;
            let ghost seeds0 = neighbors(seed, (offset - 1) as nat);
            let ghost answers0 = answers;
            if seed >= offset {
                let (b, Ghost(a)) = self.try_seed(seed - offset, &test_fn, best);
                best = b;
                proof {
                    answers = answers.push(a);
                    assert(answers.drop_last() =~= answers0);
                    lemma_answered_push(
                        test_fn,
                        seeds0,
                        answers0,
                        (seed - offset) as u64,
                        a,
                    );
                }
            }
            let ghost answers1 = answers;
            assert(shortest(answers1) == Some(best@));
            assert(self.stats == seeds_counted(old(self).stats, answers1));
            let (b, Ghost(a)) = self.try_seed(seed + offset, &test_fn, best);
            best = b;
            proof {
                answers = answers.push(a);
                assert(answers.drop_last() =~= answers1);
                let seeds1 = if seed >= offset {
                    seeds0.push((seed - offset) as u64)
                } else {
                    seeds0
                };
                lemma_answered_push(test_fn, seeds1, answers1, (seed + offset) as u64, a);
                assert(neighbors(seed, offset as nat) == seeds1.push((seed + offset) as u64));
            }
        }
        assert(best@.operations.len() == best.operations.len());
        if best.seed != seed || best.operations.len() < self.stats.original_ops {
            ShrinkResult::Shrunk(best)
        } else {
            ShrinkResult::Minimal(best)
        }
    }
}

proof fn lemma_answered_push<F: Fn(u64) -> Option<MinimalRepro>>(
    test: F,
    seeds: Seq<u64>,
    answers: Seq<Option<ReproView>>,
    seed: u64,
    answer: Option<ReproView>,
)
    requires
        seeds_answered(test, seeds, answers),
        seed_answers(test, seed, answer),
    ensures
        seeds_answered(test, seeds.push(seed), answers.push(answer)),
{
    let s = seeds.push(seed);
    let a = answers.push(answer);
    assert forall|i: int| 0 <= i < s.len() implies seed_answers(test, s[i], #[trigger] a[i]) by {
        if i < seeds.len() {
            assert(s[i] == seeds[i] && a[i] == answers[i]);
        }
    }
}

/// Tells whether a test of faults may be asked of any.
pub open spec fn tests_all_faults<F: Fn(&[(u64, Fault)]) -> Option<String>>(test: F) -> bool {
    forall|s: &[(u64, Fault)]| #[trigger] call_requires(test, (s,))
}

/// Tells whether a test may say of faults that they cause a failure.
pub open spec fn faults_fail<F: Fn(&[(u64, Fault)]) -> Option<String>>(
    test: F,
    faults: Seq<(u64, Fault)>,
) -> bool {
    exists|s: &[(u64, Fault)], d: String|
        s@ == faults && #[trigger] call_ensures(test, (s,), Some(d))
}

/// Tells whether a test may say of faults that they cause none.
pub open spec fn faults_pass<F: Fn(&[(u64, Fault)]) -> Option<String>>(
    test: F,
    faults: Seq<(u64, Fault)>,
) -> bool {
    exists|s: &[(u64, Fault)]| s@ == faults && #[trigger] call_ensures(test, (s,), None)
}

/// Tells whether a test says of faults, whenever it is asked, that they cause a failure, or that
/// they cause none.
pub open spec fn faults_decided<F: Fn(&[(u64, Fault)]) -> Option<String>>(test: F) -> bool {
    forall|fs: Seq<(u64, Fault)>| !(#[trigger] faults_fail(test, fs) && faults_pass(test, fs))
}

/// The last of the first `n` faults that can be left out.
pub open spec fn last_needless<F: Fn(&[(u64, Fault)]) -> Option<String>>(
    test: F,
    faults: Seq<(u64, Fault)>,
    n: nat,
) -> Option<nat>
    decreases n,
{
    if n == 0 {
        None
    } else if faults_fail(test, faults.remove(n - 1)) {
        Some((n - 1) as nat)
    } else {
        last_needless(test, faults, (n - 1) as nat)
    }
}

/// What is left of faults when, time and again, the last that can be left out is left out, and how
/// many were.
pub open spec fn faults_left<F: Fn(&[(u64, Fault)]) -> Option<String>>(
    test: F,
    faults: Seq<(u64, Fault)>,
) -> (Seq<(u64, Fault)>, nat)
    decreases faults.len(),
{
    match last_needless(test, faults, faults.len()) {
        Some(i) => if i < faults.len() {
            let (left, n) = faults_left(test, faults.remove(i as int));
            (left, n + 1)
        } else {
            (faults, 0)
        },
        None => (faults, 0),
    }
}

fn without_fault(faults: &Vec<(u64, Fault)>, skip: usize) -> (r: Vec<(u64, Fault)>)
    requires
        skip < faults.len(),
    ensures
        r@ == faults@.remove(skip as int),
{
    let ghost v = faults@;
    let mut r: Vec<(u64, Fault)> = Vec::new();
    let mut i: usize = 0;
    assert(r@ =~= v.remove(skip as int).take(0));
    while i < faults.len()
        invariant
            skip < faults.len(),
            i <= faults.len(),
            v == faults@,
            r.len() == if i <= skip {
                i as int
            } else {
                i - 1
            },
            r@ == v.remove(skip as int).take(r.len() as int),
        decreases faults.len() - i,
    {
        if i != skip {
            let ghost before = r@;
            r.push(faults[i]);
            assert(v.remove(skip as int).take(r.len() as int) =~= v.remove(skip as int).take(
                before.len() as int,
            ).push(v[i as int]));
        }
        i += 1;
    }
    assert(v.remove(skip as int).take(r.len() as int) =~= v.remove(skip as int));
    r
}

fn remove_fault<F: Fn(&[(u64, Fault)]) -> Option<String>>(
    current: &Vec<(u64, Fault)>,
    test_fn: &F,
) -> (r: Option<Vec<(u64, Fault)>>)
    requires
        tests_all_faults(*test_fn),
    ensures
        match r {
            Some(faults) => faults_fail(*test_fn, faults@) && exists|i: int|
                0 <= i < current.len() && faults@ == #[trigger] current@.remove(i),
            None => forall|i: int|
                0 <= i < current.len() ==> faults_pass(*test_fn, #[trigger] current@.remove(i)),
        },
        faults_decided(*test_fn) ==> match last_needless(*test_fn, current@, current@.len()) {
            Some(i) => i < current@.len() && r is Some && r->0@ == current@.remove(i as int),
            None => r is None,
        },
{
    let mut i: usize = current.len();
    while i > 0
        invariant
            i <= current.len(),
            tests_all_faults(*test_fn),
            forall|k: int|
                i <= k < current.len() ==> faults_pass(*test_fn, #[trigger] current@.remove(k)),
            faults_decided(*test_fn) ==> last_needless(*test_fn, current@, current@.len())
                == last_needless(*test_fn, current@, i as nat),
        decreases i,
    {
        i -= 1;
        let candidate = without_fault(current, i);
        let s = candidate.as_slice();
        let answer = test_fn(s);
        match answer {
            Some(d) => {
                assert(call_ensures(*test_fn, (s,), Some(d)));
                assert(faults_fail(*test_fn, s@));
                return Some(candidate);
            },
            None => {
                assert(call_ensures(*test_fn, (s,), None));
                assert(faults_pass(*test_fn, s@));
            },
        }
    }
    None
}

impl Shrinker {
    /// Attempts to shrink a fault schedule. The test gives a description where the faults cause
    /// a failure. Where the faults cause none they come back as they are; else what comes back
    /// still fails, and no single fault can be left out.
    pub fn shrink_faults<F: Fn(&[(u64, Fault)]) -> Option<String>>(
        &mut self,
        faults: Vec<(u64, Fault)>,
        test_fn: F,
    ) -> (r: Vec<(u64, Fault)>)
        requires
            tests_all_faults(test_fn),
        ensures
            final(self).spec_config() == old(self).spec_config(),
            final(self).spec_stats().original_faults == faults.len(),
            ({
                ||| r@ == faults@ && faults_pass(test_fn, faults@)
                ||| {
                    &&& is_part_of(r@, faults@)
                    &&& faults_fail(test_fn, r@)
                    &&& forall|i: int|
                        0 <= i < r.len() ==> faults_pass(test_fn, #[trigger] r@.remove(i))
                    &&& final(self).spec_stats().final_faults == r.len()
                }
            }),
            faults_decided(test_fn) ==> {
                let (left, n) = faults_left(test_fn, faults@);
                let before = old(self).spec_stats();
                if faults_fail(test_fn, faults@) {
                    &&& r@ == left
                    &&& final(self).spec_stats() == (ShrinkStats {
                        original_faults: faults.len(),
                        final_faults: r.len(),
                        reductions: ups(before.reductions, n),
                        ..before
                    })
                } else {
                    &&& r@ == faults@
                    &&& final(self).spec_stats() == (ShrinkStats {
                        original_faults: faults.len(),
                        ..before
                    })
                }
            },
    {
        let ghost before = self.stats;
        self.stats.original_faults = faults.len();
        let ghost whole = faults@;
        let s = faults.as_slice();
        let first = test_fn(s);
        match first {
            None => {
                assert(call_ensures(test_fn, (s,), None));
                assert(faults_pass(test_fn, s@));
                return faults;
            },
            Some(d) => {
                assert(call_ensures(test_fn, (s,), Some(d)));
                assert(faults_fail(test_fn, s@));
            },
        }
        proof {
            lemma_part_whole(whole);
        }
        let n = faults.len();
        let mut current = faults;
        let mut more = true;
        let ghost mut done: nat = 0;
        while more
            invariant
                tests_all_faults(test_fn),
                self.config == old(self).config,
                self.stats.original_faults == n,
                faults_decided(test_fn) ==> {
                    &&& self.stats == (ShrinkStats {
                        original_faults: n,
                        reductions: ups(before.reductions, done),
                        ..before
                    })
                    &&& faults_left(test_fn, whole).0 == faults_left(test_fn, current@).0
                    &&& faults_left(test_fn, whole).1 == done + faults_left(test_fn, current@).1
                    &&& !more ==> faults_left(test_fn, current@) == (current@, 0nat)
                },
                is_part_of(current@, whole),
                faults_fail(test_fn, current@),
                !more ==> forall|i: int|
                    0 <= i < current.len() ==> faults_pass(
                        test_fn,
                        #[trigger] current@.remove(i),
                    ),
            decreases
                current.len(),
                (if more {
                    1int
                } else {
                    0int
                }),
        {
            match remove_fault(&current, &test_fn) {
                Some(candidate) => {
                    proof {
                        let i = choose|i: int|
                            0 <= i < current.len() && candidate@ == #[trigger] current@.remove(i);
                        lemma_part_step(current@, whole, i);
                    }
                    current = candidate;
                    self.stats.reductions = bump(self.stats.reductions);
                    proof {
                        done = done + 1;
                    }
                },
                None => {
                    more = false;
                },
            }
        }
        self.stats.final_faults = current.len();
        current
    }
}

/// The candidates at one distance from a seed.
pub open spec fn candidates_at(seed: u64, offset: u64) -> Seq<u64> {
    let up = ((seed + offset) % 0x1_0000_0000_0000_0000) as u64;
    if offset == 0 {
        seq![seed]
    } else if seed >= offset {
        seq![(seed - offset) as u64, up]
    } else {
        seq![up]
    }
}

/// The candidates at all distances below a limit.
pub open spec fn candidates_below(seed: u64, n: nat) -> Seq<u64>
    decreases n,
{
    if n == 0 {
        Seq::empty()
    } else {
        candidates_below(seed, (n - 1) as nat) + candidates_at(seed, (n - 1) as u64)
    }
}

/// Generates a deterministic sequence of seeds to try for shrinking.
pub fn seed_candidates(original_seed: u64, max_candidates: u64) -> (r: Vec<u64>)
    ensures
        r@ == candidates_below(original_seed, max_candidates as nat),
{
    let mut r: Vec<u64> = Vec::new();
    let mut offset: u64 = 0;
    assert(r@ =~= candidates_below(original_seed, 0));
    while offset < max_candidates
        invariant
            offset <= max_candidates,
            r@ == candidates_below(original_seed, offset as nat),
        decreases max_candidates - offset,
    {
        let ghost before = r@;
        if offset == 0 {
            r.push(original_seed);
        } else {
            if original_seed >= offset {
                r.push(original_seed - offset);
            }
            r.push(original_seed.wrapping_add(offset));
        }
        assert(r@ =~= before + candidates_at(original_seed, offset));
        offset += 1;
    }
    r
}

/// The operations up to `n` without those at some places.
pub open spec fn kept_ops(ops: Seq<OperationView>, places: Seq<usize>, n: nat) -> Seq<OperationView>
    decreases n,
{
    if n == 0 {
        Seq::empty()
    } else {
        let rest = kept_ops(ops, places, (n - 1) as nat);
        if exists|k: int| 0 <= k < places.len() && #[trigger] places[k] == n - 1 {
            rest
        } else {
            rest.push(ops[n - 1])
        }
    }
}

fn lists_place(places: &[usize], i: usize) -> (r: bool)
    ensures
        r == exists|k: int| 0 <= k < places.len() && #[trigger] places@[k] == i,
{
    let mut j: usize = 0;
    while j < places.len()
        invariant
            j <= places.len(),
            forall|k: int| 0 <= k < j ==> #[trigger] places@[k] != i,
        decreases places.len() - j,
    {
        if places[j] == i {
            return true;
        }
        j += 1;
    }
    false
}

/// Removes operations by indices, returning the reduced sequence.
pub fn remove_operations(ops: &[Operation], indices_to_remove: &[usize]) -> (r: Vec<Operation>)
    ensures
        operations_view(r@) == kept_ops(
            operations_view(ops@),
            indices_to_remove@,
            ops@.len(),
        ),
{
    let ghost v = operations_view(ops@);
    let mut r: Vec<Operation> = Vec::new();
    let mut i: usize = 0;
    assert(operations_view(r@) =~= Seq::<OperationView>::empty());
    while i < ops.len()
        invariant
            i <= ops.len(),
            v == operations_view(ops@),
            operations_view(r@) == kept_ops(v, indices_to_remove@, i as nat),
        decreases ops.len() - i,
    {
        let ghost before = r@;
        if !lists_place(indices_to_remove, i) {
            r.push(ops[i].copy());
            assert(operations_view(r@) =~= operations_view(before).push(v[i as int]));
        }
        i += 1;
    }
    r
}

/// Tells whether a yes-no test of operations may be asked of any.
pub open spec fn asks_all_ops<F: Fn(&[Operation]) -> bool>(test: F) -> bool {
    forall|s: &[Operation]| #[trigger] call_requires(test, (s,))
}

/// Tells whether a yes-no test may answer for operations.
pub open spec fn ops_answer<F: Fn(&[Operation]) -> bool>(
    test: F,
    ops: Seq<OperationView>,
    answer: bool,
) -> bool {
    exists|s: &[Operation]|
        operations_view(s@) == ops && #[trigger] call_ensures(test, (s,), answer)
}

/// Tells whether a yes-no test gives the same answer whenever it is asked.
pub open spec fn answers_decided<F: Fn(&[Operation]) -> bool>(test: F) -> bool {
    forall|ops: Seq<OperationView>|
        !(#[trigger] ops_answer(test, ops, true) && ops_answer(test, ops, false))
}

/// Where halving between a front that passes and one that fails stops.
pub open spec fn prefix_found<F: Fn(&[Operation]) -> bool>(
    test: F,
    ops: Seq<OperationView>,
    lo: nat,
    hi: nat,
) -> nat
    decreases hi - lo,
{
    if lo >= hi {
        lo
    } else {
        let mid = (lo + (hi - lo) / 2) as nat;
        if ops_answer(test, ops.take(mid as int), true) {
            prefix_found(test, ops, lo, mid)
        } else {
            prefix_found(test, ops, mid + 1, hi)
        }
    }
}

/// Tells whether a length is what the search for the shortest front that fails comes to: nothing
/// where nothing fails already; else one operation less passes, or one is the least there is; and
/// the front itself fails, or it is all of the operations.
pub open spec fn minimum_prefix<F: Fn(&[Operation]) -> bool>(
    test: F,
    ops: Seq<OperationView>,
    r: nat,
) -> bool {
    &&& r == 0 ==> ops_answer(test, Seq::empty(), true)
    &&& r > 0 ==> {
        &&& ops_answer(test, Seq::empty(), false)
        &&& r <= ops.len() || r == 1
        &&& r == 1 || ops_answer(test, ops.take(r - 1), false)
        &&& r >= ops.len() || ops_answer(test, ops.take(r as int), true)
    }
    &&& answers_decided(test) ==> r == if ops_answer(test, Seq::empty(), true) {
        0
    } else {
        prefix_found(test, ops, 1, ops.len())
    }
}

/// Finds the minimum length of a front of operations that still fails.
pub fn find_minimum_prefix<F: Fn(&[Operation]) -> bool>(ops: &[Operation], test_fn: F) -> (r: usize)
    requires
        asks_all_ops(test_fn),
    ensures
        minimum_prefix(test_fn, operations_view(ops@), r as nat),
{
    let ghost v = operations_view(ops@);
    let none = slice_subrange(ops, 0, 0);
    assert(operations_view(none@) =~= Seq::<OperationView>::empty());
    let first = test_fn(none);
    assert(ops_answer(test_fn, operations_view(none@), first));
    if first {
        return 0;
    }
    let mut lo: usize = 1;
    let mut hi: usize = ops.len();
    while lo < hi
        invariant
            1 <= lo,
            hi <= ops.len(),
            lo <= hi || (lo == 1 && ops@.len() == 0),
            v == operations_view(ops@),
            asks_all_ops(test_fn),
            lo == 1 || ops_answer(test_fn, v.take(lo - 1), false),
            hi == ops.len() || ops_answer(test_fn, v.take(hi as int), true),
            answers_decided(test_fn) ==> prefix_found(test_fn, v, 1, v.len()) == prefix_found(
                test_fn,
                v,
                lo as nat,
                hi as nat,
            ),
        decreases hi - lo,
    {
        let mid: usize = lo + (hi - lo) / 2;
        let front = slice_subrange(ops, 0, mid);
        assert(operations_view(front@) =~= v.take(mid as int));
        let answer = test_fn(front);
        assert(ops_answer(test_fn, operations_view(front@), answer));
        if answer {
            hi = mid;
        } else {
            lo = mid + 1;
        }
    }
    lo
}

/// Tells whether a front that fails goes on failing when it grows, and all operations fail.
pub open spec fn fails_from_some_length<F: Fn(&[Operation]) -> bool>(
    test: F,
    ops: Seq<OperationView>,
) -> bool {
    &&& ops_answer(test, ops, true)
    &&& forall|m: int, n: int|
        0 <= m <= n <= ops.len() && ops_answer(test, #[trigger] ops.take(m), true) ==> ops_answer(
            test,
            #[trigger] ops.take(n),
            true,
        )
}

/// The minimum length is the least: where a front that fails goes on failing when it grows, the
/// fronts that fail are exactly those of at least that length.
pub proof fn law_prefix_is_minimum<F: Fn(&[Operation]) -> bool>(
    test: F,
    ops: Seq<OperationView>,
    r: nat,
    n: int,
)
    requires
        answers_decided(test),
        fails_from_some_length(test, ops),
        minimum_prefix(test, ops, r),
        0 <= n <= ops.len(),
    ensures
        ops_answer(test, ops.take(n), true) == (n >= r),
{
    assert(ops.take(0) =~= Seq::<OperationView>::empty());
    assert(ops.take(ops.len() as int) =~= ops);
    if r == 0 {
        assert(ops_answer(test, ops.take(0), true));
    } else {
        assert(ops.len() > 0) by {
            if ops.len() == 0 {
                assert(ops =~= Seq::<OperationView>::empty());
            }
        }
        if n >= r {
            assert(ops_answer(test, ops.take(r as int), true));
        } else {
            assert(ops_answer(test, ops.take(r - 1), false));
            if ops_answer(test, ops.take(n), true) {
                assert(ops_answer(test, ops.take(r - 1), true));
            }
        }
    }
}

/// The shortest of the reproductions that seeds gave is one of them, none of the others is shorter,
/// and there is one exactly where some seed gave one.
pub proof fn law_shortest(answers: Seq<Option<ReproView>>)
    ensures
        match shortest(answers) {
            Some(m) => {
                &&& answers.contains(Some(m))
                &&& forall|i: int|
                    0 <= i < answers.len() && (#[trigger] answers[i]) is Some ==> m.operations.len()
                        <= answers[i]->0.operations.len()
            },
            None => forall|i: int| 0 <= i < answers.len() ==> (#[trigger] answers[i]) is None,
        },
    decreases answers.len(),
{
    if answers.len() > 0 {
        let t = answers.drop_last();
        law_shortest(t);
        let n = answers.len() - 1;
        assert(answers[n] == answers.last());
        assert forall|i: int| 0 <= i < n implies #[trigger] answers[i] == t[i] by {}
        if shortest(t) is Some {
            let k = choose|k: int| 0 <= k < t.len() && t[k] == shortest(t);
            assert(answers[k] == shortest(t));
        }
        if shortest(answers) is Some {
            if shortest(answers) == answers[n] {
                assert(answers.contains(shortest(answers)));
            } else {
                assert(answers.contains(shortest(t)));
            }
        }
    }
}

/// Of reproductions that are equally short the one of the seed that was tried first is taken.
pub proof fn law_first_shortest(answers: Seq<Option<ReproView>>, a: ReproView)
    requires
        shortest(answers) is Some,
        a.operations.len() >= shortest(answers)->0.operations.len(),
    ensures
        shortest(answers.push(Some(a))) == shortest(answers),
        shortest(answers.push(None)) == shortest(answers),
{
    assert(answers.push(Some(a)).drop_last() =~= answers);
    assert(answers.push(None).drop_last() =~= answers);
}

/// The seeds that are tried are those no further than the given distance from the first, which
/// comes first.
pub proof fn law_neighbors(seed: u64, n: nat, x: u64)
    requires
        seed + n <= u64::MAX,
    ensures
        neighbors(seed, n).contains(x) <==> seed - n <= x <= seed + n,
        neighbors(seed, n).len() > 0,
        neighbors(seed, n)[0] == seed,
    decreases n,
{
    if n == 0 {
        assert(neighbors(seed, n)[0] == seed);
    } else {
        let rest = neighbors(seed, (n - 1) as nat);
        law_neighbors(seed, (n - 1) as nat, x);
        let all = neighbors(seed, n);
        if rest.contains(x) {
            let i = choose|i: int| 0 <= i < rest.len() && rest[i] == x;
            assert(all[i] == x);
        }
        if x == seed + n {
            assert(all[all.len() - 1] == x);
        }
        if seed >= n && x == seed - n {
            assert(all[rest.len() as int] == x);
        }
        if all.contains(x) {
            let i = choose|i: int| 0 <= i < all.len() && all[i] == x;
            if i < rest.len() {
                assert(rest[i] == x);
            }
        }
    }
}

/// A quotient that is rounded is off by half at most, and where it is off by half it is even.
pub proof fn law_nearest(a: nat, b: nat)
    requires
        b > 0,
    ensures
        2 * (nearest(a, b) * b) <= 2 * a + b,
        2 * a <= 2 * (nearest(a, b) * b) + b,
        2 * (nearest(a, b) * b) == 2 * a + b ==> nearest(a, b) % 2 == 0,
        2 * a == 2 * (nearest(a, b) * b) + b ==> nearest(a, b) % 2 == 0,
{
    let q = a / b;
    let r = a % b;
    assert(a == q * b + r && r < b) by (nonlinear_arith)
        requires
            b > 0,
            q == a / b,
            r == a % b,
    ;
    assert((q + 1) * b == q * b + b) by (nonlinear_arith);
}

/// What shrinking gives still fails, and is the operations it began with but for some that were left
/// out, in order. Where it did not run out of attempts and no front was searched for, no single
/// operation can be left out any more.
pub proof fn law_shrunk_still_fails<F: Fn(&[Operation]) -> Option<String>>(
    test: F,
    c: ShrinkConfig,
    ops: Seq<OperationView>,
    tired: bool,
    m: ReproView,
    i: int,
)
    requires
        ops_shrunk(test, c, ops, tired, m),
    ensures
        exists|s: &[Operation], d: String|
            operations_view(s@) == m.operations && d@ == m.failure_description
                && #[trigger] call_ensures(test, (s,), Some(d)),
        exists|places: Seq<int>| #[trigger] picks(places, m.operations, ops),
        m.operations.len() <= ops.len(),
        m.failure_op == m.operations.len(),
        !tired && !c.binary_search_enabled && 0 <= i < m.operations.len() ==> exists|
            s: &[Operation],
        |
            operations_view(s@) == m.operations.remove(i) && #[trigger] call_ensures(
                test,
                (s,),
                None,
            ),
{
    let places = choose|places: Seq<int>| picks(places, m.operations, ops);
    assert(picks(places, m.operations, ops));
    lemma_picks_len(places, m.operations, ops);
    if !tired && !c.binary_search_enabled && 0 <= i < m.operations.len() {
        let left = choose|left: Seq<OperationView>| #[trigger]
            ends_with(test, c, tired, left, m.operations);
        assert(ops_pass(test, left.remove(i)));
    }
}

proof fn lemma_picks_len<A>(places: Seq<int>, part: Seq<A>, whole: Seq<A>)
    requires
        picks(places, part, whole),
    ensures
        part.len() <= whole.len(),
{
    if part.len() > 0 {
        lemma_picks_place(places, part, whole, part.len() - 1);
    }
}

proof fn lemma_picks_place<A>(places: Seq<int>, part: Seq<A>, whole: Seq<A>, i: int)
    requires
        picks(places, part, whole),
        0 <= i < part.len(),
    ensures
        i <= places[i] < whole.len(),
    decreases i,
{
    if i > 0 {
        lemma_picks_place(places, part, whole, i - 1);
        assert(places[i - 1] < places[i]);
    }
}

/// A front that was searched for is one, and without its last operation it passes, unless it is the
/// first operation alone.
pub proof fn law_front_is_shortest<F: Fn(&[Operation]) -> Option<String>>(
    test: F,
    all: Seq<OperationView>,
    front: Seq<OperationView>,
)
    requires
        shortest_front(test, all, front),
    ensures
        front.len() <= all.len(),
        forall|i: int| 0 <= i < front.len() ==> #[trigger] front[i] == all[i],
        front.len() > 1 ==> exists|s: &[Operation]|
            operations_view(s@) == all.take(front.len() - 1) && #[trigger] call_ensures(
                test,
                (s,),
                None,
            ),
{
    assert forall|i: int| 0 <= i < front.len() implies #[trigger] front[i] == all[i] by {
        assert(all.take(front.len() as int)[i] == all[i]);
    }
}

} // verus!
