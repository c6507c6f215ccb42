//! Deterministic fault injection: which faults strike, and when, follows from the seed.
//!
//! Probabilities are whole parts per million.

use crate::order::{greater_at_end, in_order, lemma_greater_at_end, lemma_sorted_fixed};
use crate::order::{law_sorted_in_order, put_in_order, stable_sorted};
use crate::rng::{after_draw, drawn, Draws, DrawsView};
use crate::text::{decimal, push_count, push_decimal, text_of};
use vstd::prelude::*;

verus! {

/// The parts of which a certain event has all.
pub const CERTAIN: u32 = 1_000_000;

/// A slow-disk factor of one, in hundredths.
pub const NORMAL_SPEED: u64 = 100;

/// Configuration for fault injection.
#[derive(Clone, Copy, Debug, PartialEq, Eq)]
pub struct FaultConfig {
    /// Probability of a crash after an operation.
    pub crash_probability: u32,
    /// Probability of a partial write.
    pub partial_write_probability: u32,
    /// Simulate a full disk after this many bytes written.
    pub disk_full_after_bytes: Option<u64>,
    /// Slow-disk factor in hundredths.
    pub slow_disk_factor: u64,
    /// Probability of a bit flip.
    pub bit_flip_probability: u32,
    /// Minimum operations between crashes.
    pub min_ops_between_crashes: u64,
    /// Maximum depth of nested crash recovery.
    pub max_crash_depth: u32,
}

/// The configuration without faults.
pub open spec fn no_faults() -> FaultConfig {
    FaultConfig {
        crash_probability: 0,
        partial_write_probability: 0,
        disk_full_after_bytes: None,
        slow_disk_factor: NORMAL_SPEED,
        bit_flip_probability: 0,
        min_ops_between_crashes: 10,
        max_crash_depth: 5,
    }
}

/// A probability that is at most certain.
pub open spec fn clamped(p: u32) -> u32 {
    if p > CERTAIN {
        CERTAIN
    } else {
        p
    }
}

fn clamp(p: u32) -> (r: u32)
    ensures
        r == clamped(p),
{
    if p > CERTAIN {
        CERTAIN
    } else {
        p
    }
}

impl Default for FaultConfig {
    fn default() -> (r: Self)
        ensures
            r == no_faults(),
    {
        FaultConfig {
            crash_probability: 0,
            partial_write_probability: 0,
            disk_full_after_bytes: None,
            slow_disk_factor: NORMAL_SPEED,
            bit_flip_probability: 0,
            min_ops_between_crashes: 10,
            max_crash_depth: 5,
        }
    }
}

impl FaultConfig {
    /// Creates a config for stress testing with moderate fault rates.
    pub fn stress() -> (r: Self)
        ensures
            r == (FaultConfig {
                crash_probability: 50_000,
                partial_write_probability: 10_000,
                min_ops_between_crashes: 5,
                max_crash_depth: 3,
                ..no_faults()
            }),
    {
        FaultConfig {
            crash_probability: 50_000,
            partial_write_probability: 10_000,
            disk_full_after_bytes: None,
            slow_disk_factor: NORMAL_SPEED,
            bit_flip_probability: 0,
            min_ops_between_crashes: 5,
            max_crash_depth: 3,
        }
    }

    /// Creates a config for aggressive crash testing.
    pub fn crash_heavy() -> (r: Self)
        ensures
            r == (FaultConfig {
                crash_probability: 150_000,
                partial_write_probability: 20_000,
                min_ops_between_crashes: 3,
                max_crash_depth: 5,
                ..no_faults()
            }),
    {
        FaultConfig {
            crash_probability: 150_000,
            partial_write_probability: 20_000,
            disk_full_after_bytes: None,
            slow_disk_factor: NORMAL_SPEED,
            bit_flip_probability: 0,
            min_ops_between_crashes: 3,
            max_crash_depth: 5,
        }
    }

    /// Creates a config with no faults.
    pub fn none() -> (r: Self)
        ensures
            r == no_faults(),
    {
        FaultConfig::default()
    }

    /// Builder: sets the crash probability.
    pub fn with_crash_probability(self, p: u32) -> (r: Self)
        ensures
            r == (FaultConfig { crash_probability: clamped(p), ..self }),
    {
        FaultConfig { crash_probability: clamp(p), ..self }
    }

    /// Builder: sets the partial write probability.
    pub fn with_partial_write_probability(self, p: u32) -> (r: Self)
        ensures
            r == (FaultConfig { partial_write_probability: clamped(p), ..self }),
    {
        FaultConfig { partial_write_probability: clamp(p), ..self }
    }

    /// Builder: sets the disk full threshold.
    pub fn with_disk_full_after(self, bytes: u64) -> (r: Self)
        ensures
            r == (FaultConfig { disk_full_after_bytes: Some(bytes), ..self }),
    {
        FaultConfig { disk_full_after_bytes: Some(bytes), ..self }
    }

    /// Builder: sets the slow-disk factor, which is at least one.
    pub fn with_slow_disk(self, factor: u64) -> (r: Self)
        ensures
            r == (FaultConfig {
                slow_disk_factor: if factor > NORMAL_SPEED {
                    factor
                } else {
                    NORMAL_SPEED
                },
                ..self
            }),
    {
        let factor = if factor > NORMAL_SPEED {
            factor
        } else {
            NORMAL_SPEED
        };
        FaultConfig { slow_disk_factor: factor, ..self }
    }

    /// Builder: sets the bit flip probability.
    pub fn with_bit_flip_probability(self, p: u32) -> (r: Self)
        ensures
            r == (FaultConfig { bit_flip_probability: clamped(p), ..self }),
    {
        FaultConfig { bit_flip_probability: clamp(p), ..self }
    }
}

/// A fault that was injected.
#[derive(Clone, Copy, Debug, PartialEq, Eq, Structural)]
pub enum Fault {
    /// System crash: what was not synced is lost.
    Crash,
    /// Partial write: the last bytes are cut off.
    PartialWrite { truncated_bytes: usize },
    /// Disk full: the write failed.
    DiskFull,
    /// Bit flip: data is corrupted.
    BitFlip { byte_offset: usize, bit: u8 },
}

/// The text of a fault.
pub open spec fn fault_text(f: Fault) -> Seq<char> {
    match f {
        Fault::Crash => "CRASH"@,
        Fault::PartialWrite { truncated_bytes } => "PARTIAL_WRITE(truncated "@ + decimal(
            truncated_bytes as nat,
        ) + " bytes)"@,
        Fault::DiskFull => "DISK_FULL"@,
        Fault::BitFlip { byte_offset, bit } => "BIT_FLIP(offset="@ + decimal(byte_offset as nat)
            + ", bit="@ + decimal(bit as nat) + ")"@,
    }
}

impl Fault {
    /// Returns a description of the fault.
    pub fn describe(&self) -> (r: String)
        ensures
            r@ == fault_text(*self),
    {
        match self {
            Fault::Crash => text_of("CRASH"),
            Fault::PartialWrite { truncated_bytes } => {
                let mut r = text_of("PARTIAL_WRITE(truncated ");
                push_count(&mut r, *truncated_bytes);
                r.push_str(" bytes)");
                r
            },
            Fault::DiskFull => text_of("DISK_FULL"),
            Fault::BitFlip { byte_offset, bit } => {
                let mut r = text_of("BIT_FLIP(offset=");
                push_count(&mut r, *byte_offset);
                r.push_str(", bit=");
                push_decimal(&mut r, *bit as u64);
                r.push_str(")");
                r
            },
        }
    }
}

/// Statistics about injected faults.
#[derive(Clone, Copy, Debug, PartialEq, Eq, Structural)]
pub struct FaultStats {
    /// Total crashes injected.
    pub crashes: u64,
    /// Total partial writes.
    pub partial_writes: u64,
    /// Total disk full errors.
    pub disk_full_errors: u64,
    /// Total bit flips.
    pub bit_flips: u64,
    /// Total operations checked for faults.
    pub operations_checked: u64,
}

impl Default for FaultStats {
    fn default() -> (r: Self)
        ensures
            r == (FaultStats {
                crashes: 0,
                partial_writes: 0,
                disk_full_errors: 0,
                bit_flips: 0,
                operations_checked: 0,
            }),
    {
        FaultStats {
            crashes: 0,
            partial_writes: 0,
            disk_full_errors: 0,
            bit_flips: 0,
            operations_checked: 0,
        }
    }
}

impl FaultStats {
    /// Returns the total number of faults injected.
    pub fn total_faults(&self) -> (r: u64)
        requires
            self.crashes + self.partial_writes + self.disk_full_errors + self.bit_flips
                <= u64::MAX,
        ensures
            r == self.crashes + self.partial_writes + self.disk_full_errors + self.bit_flips,
    {
        self.crashes + self.partial_writes + self.disk_full_errors + self.bit_flips
    }
}

/// Tells whether a number that was drawn makes an event of a probability happen.
pub open spec fn strikes(x: u64, p: u32) -> bool {
    x % 1_000_000 < p
}

fn roll(rng: &mut Draws, p: u32) -> (r: bool)
    ensures
        r == strikes(drawn(old(rng).spec_state()), p),
        final(rng).spec_state() == after_draw(old(rng).spec_state()),
{
    rng.next_below(1_000_000) < p as u64
}

/// Deterministic fault injector.
pub struct FaultInjector {
    config: FaultConfig,
    stats: FaultStats,
    ops_since_last_crash: u64,
    total_bytes_written: u64,
    current_crash_depth: u32,
    fault_history: Vec<(u64, Fault)>,
}

/// A fault injector as a mathematical value.
pub struct InjectorView {
    pub config: FaultConfig,
    pub stats: FaultStats,
    /// Operations checked since the last crash.
    pub ops_since_last_crash: u64,
    /// Bytes written so far.
    pub total_bytes_written: u64,
    /// Depth of nested crash recovery.
    pub current_crash_depth: u32,
    /// Each fault, after the number of operations checked until then.
    pub fault_history: Seq<(u64, Fault)>,
}

impl View for FaultInjector {
    type V = InjectorView;

    closed spec fn view(&self) -> InjectorView {
        InjectorView {
            config: self.config,
            stats: self.stats,
            ops_since_last_crash: self.ops_since_last_crash,
            total_bytes_written: self.total_bytes_written,
            current_crash_depth: self.current_crash_depth,
            fault_history: self.fault_history@,
        }
    }
}

/// The injector that has seen nothing.
pub open spec fn fresh_injector(config: FaultConfig) -> InjectorView {
    InjectorView {
        config,
        stats: FaultStats {
            crashes: 0,
            partial_writes: 0,
            disk_full_errors: 0,
            bit_flips: 0,
            operations_checked: 0,
        },
        ops_since_last_crash: 0,
        total_bytes_written: 0,
        current_crash_depth: 0,
        fault_history: Seq::empty(),
    }
}

/// Tells whether the counters of operations and crashes agree.
pub open spec fn counters_agree(v: InjectorView) -> bool {
    &&& v.ops_since_last_crash <= v.stats.operations_checked
    &&& v.stats.crashes <= v.stats.operations_checked
}

/// The injector after it counted one operation more.
pub open spec fn counted(v: InjectorView) -> InjectorView {
    InjectorView {
        stats: FaultStats {
            operations_checked: (v.stats.operations_checked + 1) as u64,
            ..v.stats
        },
        ops_since_last_crash: (v.ops_since_last_crash + 1) as u64,
        ..v
    }
}

/// Tells whether a crash may strike now: recovery is not too deep, enough operations went by
/// since the last one, and crashes are enabled.
pub open spec fn may_crash(v: InjectorView) -> bool {
    &&& v.current_crash_depth < v.config.max_crash_depth
    &&& v.ops_since_last_crash > v.config.min_ops_between_crashes
    &&& v.config.crash_probability > 0
}

/// The injector after a crash struck.
pub open spec fn crashed(v: InjectorView) -> InjectorView {
    InjectorView {
        stats: FaultStats { crashes: (v.stats.crashes + 1) as u64, ..v.stats },
        ops_since_last_crash: 0,
        fault_history: v.fault_history.push((v.stats.operations_checked, Fault::Crash)),
        ..v
    }
}

/// What checking for a crash gives: the injector after, the state of the generator after, and
/// whether a crash struck.
pub open spec fn crash_check(v: InjectorView, s: DrawsView) -> (InjectorView, DrawsView, bool) {
    let c = counted(v);
    if may_crash(c) {
        if strikes(drawn(s), c.config.crash_probability) {
            (crashed(c), after_draw(s), true)
        } else {
            (c, after_draw(s), false)
        }
    } else {
        (c, s, false)
    }
}

/// What checking for a partial write gives: the injector after, the state of the generator
/// after, and the number of bytes cut off.
pub open spec fn partial_write_check(v: InjectorView, s: DrawsView, size: usize) -> (
    InjectorView,
    DrawsView,
    usize,
) {
    if v.config.partial_write_probability > 0 && size > 0 {
        let t = after_draw(s);
        if strikes(drawn(s), v.config.partial_write_probability) {
            let cut = (1 + drawn(t) % (size as u64)) as usize;
            (
                InjectorView {
                    stats: FaultStats {
                        partial_writes: (v.stats.partial_writes + 1) as u64,
                        ..v.stats
                    },
                    fault_history: v.fault_history.push(
                        (
                            v.stats.operations_checked,
                            Fault::PartialWrite { truncated_bytes: cut },
                        ),
                    ),
                    ..v
                },
                after_draw(t),
                cut,
            )
        } else {
            (v, t, 0)
        }
    } else {
        (v, s, 0)
    }
}

/// Tells whether a write would go over the threshold.
pub open spec fn overfills(v: InjectorView, size: u64) -> bool {
    match v.config.disk_full_after_bytes {
        Some(threshold) => v.total_bytes_written + size > threshold,
        None => false,
    }
}

/// What checking for a full disk does.
pub open spec fn disk_full_check(v: InjectorView, size: u64) -> (InjectorView, bool) {
    if overfills(v, size) {
        (
            InjectorView {
                stats: FaultStats {
                    disk_full_errors: (v.stats.disk_full_errors + 1) as u64,
                    ..v.stats
                },
                fault_history: v.fault_history.push((v.stats.operations_checked, Fault::DiskFull)),
                ..v
            },
            true,
        )
    } else {
        (v, false)
    }
}

/// A byte with one bit the other way round.
pub open spec fn flip_bit(b: u8, bit: u8) -> u8 {
    b ^ (1u8 << bit)
}

/// What checking for a bit flip gives: the injector after, the state of the generator after,
/// the data after, and the fault.
pub open spec fn bit_flip_check(v: InjectorView, s: DrawsView, data: Seq<u8>) -> (
    InjectorView,
    DrawsView,
    Seq<u8>,
    Option<Fault>,
) {
    if v.config.bit_flip_probability > 0 && data.len() > 0 {
        let t = after_draw(s);
        if strikes(drawn(s), v.config.bit_flip_probability) {
            let offset = drawn(t) as int % data.len() as int;
            let u = after_draw(t);
            let bit = (drawn(u) % 8) as u8;
            let fault = Fault::BitFlip { byte_offset: offset as usize, bit };
            (
                InjectorView {
                    stats: FaultStats { bit_flips: (v.stats.bit_flips + 1) as u64, ..v.stats },
                    fault_history: v.fault_history.push((v.stats.operations_checked, fault)),
                    ..v
                },
                after_draw(u),
                data.update(offset, flip_bit(data[offset], bit)),
                Some(fault),
            )
        } else {
            (v, t, data, None)
        }
    } else {
        (v, s, data, None)
    }
}

/// The time that a slow disk adds to an operation, as far as it fits.
pub open spec fn slowdown(factor: u64, base_nanos: u64) -> u64 {
    if factor > NORMAL_SPEED {
        let extra = base_nanos * (factor - NORMAL_SPEED) / 100;
        if extra > u64::MAX {
            u64::MAX
        } else {
            extra as u64
        }
    } else {
        0
    }
}

impl FaultInjector {
    /// Tells whether the counters of operations and crashes agree.
    pub open spec fn wf(&self) -> bool {
        counters_agree(self@)
    }

    /// Creates a new fault injector with the given configuration.
    pub fn new(config: FaultConfig) -> (r: Self)
        ensures
            r.wf(),
            r@ == fresh_injector(config),
    {
        FaultInjector {
            config,
            stats: FaultStats::default(),
            ops_since_last_crash: 0,
            total_bytes_written: 0,
            current_crash_depth: 0,
            fault_history: Vec::new(),
        }
    }

    /// Returns the current configuration.
    pub fn config(&self) -> (r: &FaultConfig)
        ensures
            *r == self@.config,
    {
        &self.config
    }

    /// Returns current statistics.
    pub fn stats(&self) -> (r: &FaultStats)
        ensures
            *r == self@.stats,
    {
        &self.stats
    }

    /// Returns the fault history.
    pub fn fault_history(&self) -> (r: &[(u64, Fault)])
        ensures
            r@ == self@.fault_history,
    {
        self.fault_history.as_slice()
    }

    /// Checks if a crash should be injected after an operation.
    pub fn maybe_crash(&mut self, rng: &mut Draws) -> (r: Option<Fault>)
        requires
            old(self).wf(),
            old(self)@.stats.operations_checked < u64::MAX,
        ensures
            final(self).wf(),
            ({
                let (v, s, hit) = crash_check(old(self)@, old(rng).spec_state());
                &&& final(self)@ == v
                &&& final(rng).spec_state() == s
                &&& r == if hit {
                    Some(Fault::Crash)
                } else {
                    None
                }
            }),
    {
        self.stats.operations_checked += 1;
        self.ops_since_last_crash += 1;
        if self.current_crash_depth >= self.config.max_crash_depth {
            return None;
        }
        if self.ops_since_last_crash <= self.config.min_ops_between_crashes {
            return None;
        }
        if self.config.crash_probability > 0 {
            if roll(rng, self.config.crash_probability) {
                self.stats.crashes += 1;
                self.ops_since_last_crash = 0;
                self.fault_history.push((self.stats.operations_checked, Fault::Crash));
                return Some(Fault::Crash);
            }
        }
        None
    }

    /// Checks if a partial write should occur, and gives the number of bytes to cut off.
    pub fn maybe_partial_write(&mut self, rng: &mut Draws, write_size: usize) -> (r: usize)
        requires
            old(self).wf(),
            old(self)@.stats.partial_writes < u64::MAX,
        ensures
            final(self).wf(),
            (final(self)@, final(rng).spec_state(), r) == partial_write_check(
                old(self)@,
                old(rng).spec_state(),
                write_size,
            ),
            r <= write_size,
    {
        if self.config.partial_write_probability > 0 && write_size > 0 {
            if roll(rng, self.config.partial_write_probability) {
                let extra = rng.next_below(write_size as u64);
                let truncate = 1 + (extra as usize);
                self.stats.partial_writes += 1;
                self.fault_history.push(
                    (
                        self.stats.operations_checked,
                        Fault::PartialWrite { truncated_bytes: truncate },
                    ),
                );
                return truncate;
            }
        }
        0
    }

    /// Checks if disk full should be simulated before a write.
    pub fn check_disk_full(&mut self, write_size: u64) -> (r: bool)
        requires
            old(self).wf(),
            old(self)@.stats.disk_full_errors < u64::MAX,
            old(self)@.total_bytes_written + write_size <= u64::MAX,
        ensures
            final(self).wf(),
            (final(self)@, r) == disk_full_check(old(self)@, write_size),
    {
        if let Some(threshold) = self.config.disk_full_after_bytes {
            if self.total_bytes_written + write_size > threshold {
                self.stats.disk_full_errors += 1;
                self.fault_history.push((self.stats.operations_checked, Fault::DiskFull));
                return true;
            }
        }
        false
    }

    /// Records bytes written.
    pub fn record_write(&mut self, bytes: u64)
        requires
            old(self)@.total_bytes_written + bytes <= u64::MAX,
        ensures
            final(self)@ == (InjectorView {
                total_bytes_written: (old(self)@.total_bytes_written + bytes) as u64,
                ..old(self)@
            }),
    {
        self.total_bytes_written += bytes;
    }

    /// Applies a random bit flip to data.
    pub fn maybe_bit_flip(&mut self, rng: &mut Draws, data: &mut Vec<u8>) -> (r: Option<Fault>)
        requires
            old(self).wf(),
            old(self)@.stats.bit_flips < u64::MAX,
        ensures
            final(self).wf(),
            (final(self)@, final(rng).spec_state(), final(data)@, r) == bit_flip_check(
                old(self)@,
                old(rng).spec_state(),
                old(data)@,
            ),
    {
        if self.config.bit_flip_probability > 0 && data.len() > 0 {
            if roll(rng, self.config.bit_flip_probability) {
                let byte_offset = rng.next_below(data.len() as u64) as usize;
                let bit = rng.next_below(8) as u8;
                let b = data[byte_offset];
                data.set(byte_offset, b ^ (1u8 << bit));
                self.stats.bit_flips += 1;
                let fault = Fault::BitFlip { byte_offset, bit };
                self.fault_history.push((self.stats.operations_checked, fault));
                return Some(fault);
            }
        }
        None
    }

    /// Gives the nanoseconds that a slow disk adds to an operation.
    pub fn maybe_slow_disk(&self, base_nanos: u64) -> (r: u64)
        ensures
            r == slowdown(self@.config.slow_disk_factor, base_nanos),
    {
        if self.config.slow_disk_factor > NORMAL_SPEED {
            let over = self.config.slow_disk_factor - NORMAL_SPEED;
            assert(base_nanos * over <= u64::MAX * u64::MAX) by (nonlinear_arith)
                requires
                    base_nanos <= u64::MAX,
                    over <= u64::MAX,
            ;
            let extra: u128 = (base_nanos as u128) * (over as u128) / 100;
            if extra > u64::MAX as u128 {
                u64::MAX
            } else {
                extra as u64
            }
        } else {
            0
        }
    }

    /// Called when entering crash recovery.
    pub fn enter_recovery(&mut self)
        requires
            old(self)@.current_crash_depth < u32::MAX,
        ensures
            final(self)@ == (InjectorView {
                current_crash_depth: (old(self)@.current_crash_depth + 1) as u32,
                ..old(self)@
            }),
    {
        self.current_crash_depth += 1;
    }

    /// Called when exiting crash recovery.
    pub fn exit_recovery(&mut self)
        ensures
            final(self)@ == (InjectorView {
                current_crash_depth: if old(self)@.current_crash_depth > 0 {
                    (old(self)@.current_crash_depth - 1) as u32
                } else {
                    0
                },
                ..old(self)@
            }),
    {
        if self.current_crash_depth > 0 {
            self.current_crash_depth -= 1;
        }
    }

    /// Resets the disk full counter.
    pub fn reset_disk_full(&mut self)
        ensures
            final(self)@ == (InjectorView { total_bytes_written: 0, ..old(self)@ }),
    {
        self.total_bytes_written = 0;
    }

    /// Clears fault history.
    pub fn clear_history(&mut self)
        ensures
            final(self)@ == (InjectorView { fault_history: Seq::empty(), ..old(self)@ }),
    {
        self.fault_history = Vec::new();
        assert(self.fault_history@ =~= Seq::<(u64, Fault)>::empty());
    }
}

/// No crash strikes where crashes are disabled, where recovery is as deep as allowed, or before
/// more than the minimum of operations went by since the last one.
pub proof fn law_no_early_crash(v: InjectorView, s: DrawsView)
    requires
        v.ops_since_last_crash < u64::MAX,
        v.config.crash_probability == 0 || v.current_crash_depth >= v.config.max_crash_depth
            || v.ops_since_last_crash < v.config.min_ops_between_crashes,
    ensures
        !crash_check(v, s).2,
        crash_check(v, s).1 == s,
{
}

/// A crash that is certain strikes as soon as it may.
pub proof fn law_certain_crash(v: InjectorView, s: DrawsView)
    requires
        v.ops_since_last_crash < u64::MAX,
        v.current_crash_depth < v.config.max_crash_depth,
        v.ops_since_last_crash >= v.config.min_ops_between_crashes,
        v.config.crash_probability >= CERTAIN,
    ensures
        crash_check(v, s).2,
{
}

/// A bit flip changes exactly one byte, and flipping the same bit again restores it.
pub proof fn law_flip_undone(b: u8, bit: u8)
    requires
        bit < 8,
    ensures
        flip_bit(b, bit) != b,
        flip_bit(flip_bit(b, bit), bit) == b,
{
    assert(bit < 8 ==> (b ^ (1u8 << bit)) != b) by (bit_vector);
    assert(((b ^ (1u8 << bit)) ^ (1u8 << bit)) == b) by (bit_vector);
}

/// The operation number of a scheduled fault.
pub open spec fn op_of() -> spec_fn((u64, Fault)) -> u64 {
    |p: (u64, Fault)| p.0
}

/// A schedule of predetermined faults for replay.
#[derive(Clone, Debug)]
pub struct FaultSchedule {
    faults: Vec<(u64, Fault)>,
    position: usize,
}

impl Default for FaultSchedule {
    fn default() -> (r: Self)
        ensures
            r.wf(),
            r.spec_faults() == Seq::<(u64, Fault)>::empty(),
            r.spec_position() == 0,
    {
        FaultSchedule::new()
    }
}

/// What checking a schedule from a position on gives for an operation number: the position
/// after and the fault that is due. Faults due earlier are passed over.
pub open spec fn schedule_check(faults: Seq<(u64, Fault)>, position: nat, op: u64) -> (
    nat,
    Option<Fault>,
)
    decreases faults.len() - position,
{
    if position >= faults.len() {
        (position, None)
    } else {
        let (n, f) = faults[position as int];
        if n < op {
            schedule_check(faults, position + 1, op)
        } else if n == op {
            (position + 1, Some(f))
        } else {
            (position, None)
        }
    }
}

impl FaultSchedule {
    /// The faults of the schedule.
    pub closed spec fn spec_faults(&self) -> Seq<(u64, Fault)> {
        self.faults@
    }

    /// The number of faults passed over or handed out.
    pub closed spec fn spec_position(&self) -> nat {
        self.position as nat
    }

    /// Tells whether the position is in the schedule.
    pub closed spec fn wf(&self) -> bool {
        self.position <= self.faults.len()
    }

    /// Creates a new empty schedule.
    pub fn new() -> (r: Self)
        ensures
            r.wf(),
            r.spec_faults() == Seq::<(u64, Fault)>::empty(),
            r.spec_position() == 0,
    {
        FaultSchedule { faults: Vec::new(), position: 0 }
    }

    /// Creates a schedule from pairs of operation number and fault.
    pub fn from_faults(faults: Vec<(u64, Fault)>) -> (r: Self)
        ensures
            r.wf(),
            r.spec_faults() == faults@,
            r.spec_position() == 0,
    {
        FaultSchedule { faults, position: 0 }
    }

    /// Adds a fault to the schedule, which is then sorted by operation number.
    pub fn add(&mut self, op_num: u64, fault: Fault)
        requires
            old(self).wf(),
        ensures
            final(self).wf(),
            final(self).spec_faults() == stable_sorted(
                old(self).spec_faults().push((op_num, fault)),
                op_of(),
            ),
            final(self).spec_position() == old(self).spec_position(),
    {
        self.faults.push((op_num, fault));
        let ghost all = self.faults@;
        let n = self.faults.len();
        let mut sorted: Vec<(u64, Fault)> = Vec::new();
        let mut i: usize = 0;
        assert(all.take(0) =~= Seq::<(u64, Fault)>::empty());
        while i < n
            invariant
                n == self.faults.len(),
                i <= n,
                all == self.faults@,
                sorted@ == stable_sorted(all.take(i as int), op_of()),
                sorted@.len() == i,
            decreases n - i,
        {
            let item = self.faults[i];
            insert_fault(&mut sorted, item);
            assert(all.take(i + 1).drop_last() =~= all.take(i as int));
            assert(all.take(i + 1).last() == item);
            i += 1;
        }
        assert(all.take(i as int) =~= all);
        self.faults = sorted;
    }

    /// Checks if a fault should be injected at the given operation number.
    pub fn check(&mut self, op_num: u64) -> (r: Option<Fault>)
        requires
            old(self).wf(),
        ensures
            final(self).wf(),
            final(self).spec_faults() == old(self).spec_faults(),
            (final(self).spec_position(), r) == schedule_check(
                old(self).spec_faults(),
                old(self).spec_position(),
                op_num,
            ),
    {
        let ghost want = schedule_check(self.faults@, self.position as nat, op_num);
        while self.position < self.faults.len()
            invariant
                self.position <= self.faults.len(),
                self.faults@ == old(self).faults@,
                want == schedule_check(self.faults@, self.position as nat, op_num),
                want == schedule_check(
                    old(self).faults@,
                    old(self).position as nat,
                    op_num,
                ),
            decreases self.faults.len() - self.position,
        {
            let (target_op, fault) = self.faults[self.position];
            if target_op < op_num {
                self.position += 1;
            } else if target_op == op_num {
                self.position += 1;
                return Some(fault);
            } else {
                return None;
            }
        }
        None
    }

    /// Resets the schedule to the beginning.
    pub fn reset(&mut self)
        requires
            old(self).wf(),
        ensures
            final(self).wf(),
            final(self).spec_faults() == old(self).spec_faults(),
            final(self).spec_position() == 0,
    {
        self.position = 0;
    }

    /// Returns all faults in the schedule.
    pub fn faults(&self) -> (r: &[(u64, Fault)])
        ensures
            r@ == self.spec_faults(),
    {
        self.faults.as_slice()
    }
}

fn insert_fault(v: &mut Vec<(u64, Fault)>, item: (u64, Fault))
    ensures
        final(v)@ == put_in_order(old(v)@, op_of(), item),
        final(v)@.len() == old(v)@.len() + 1,
{
    let ghost s = v@;
    let mut p: usize = v.len();
    assert(s.take(p as int) =~= s);
    while p > 0 && v[p - 1].0 > item.0
        invariant
            p <= v.len(),
            v@ == s,
            greater_at_end(s, op_of(), item.0) == s.len() - p + greater_at_end(
                s.take(p as int),
                op_of(),
                item.0,
            ),
        decreases p,
    {
        assert(s.take(p as int).drop_last() =~= s.take(p - 1));
        assert(s.take(p as int).last() == s[p - 1]);
        p -= 1;
    }
    proof {
        lemma_greater_at_end(s, op_of(), item.0);
        if p > 0 {
            assert(s.take(p as int).last() == s[p - 1]);
        }
    }
    v.insert(p, item);
}

/// What is added to a schedule is there, and a schedule to which something was added is sorted
/// by operation number.
pub proof fn law_schedule_sorted(faults: Seq<(u64, Fault)>, op: u64, fault: Fault)
    ensures
        in_order(stable_sorted(faults.push((op, fault)), op_of()), op_of()),
        stable_sorted(faults.push((op, fault)), op_of()).len() == faults.len() + 1,
{
    law_sorted_in_order(faults.push((op, fault)), op_of());
}

/// On a sorted schedule a check hands out the first fault that is due at the operation, and
/// nothing where none is due.
pub proof fn law_schedule_check(faults: Seq<(u64, Fault)>, position: nat, op: u64)
    requires
        in_order(faults, op_of()),
        position <= faults.len(),
    ensures
        match schedule_check(faults, position, op) {
            (p, Some(f)) => position < p <= faults.len() && faults[p - 1] == (op, f) && forall|
                i: int,
            |
                position <= i < p - 1 ==> (#[trigger] faults[i]).0 < op,
            (p, None) => {
                &&& position <= p <= faults.len()
                &&& forall|i: int|
                    position <= i < faults.len() ==> (#[trigger] faults[i]).0 != op
                &&& forall|i: int| position <= i < p ==> (#[trigger] faults[i]).0 < op
            },
        },
    decreases faults.len() - position,
{
    if position < faults.len() {
        let (n, f) = faults[position as int];
        if n < op {
            law_schedule_check(faults, position + 1, op);
        } else if n > op {
            assert forall|i: int| position <= i < faults.len() implies (#[trigger] faults[i]).0
                != op by {
                assert(op_of()(faults[position as int]) <= op_of()(faults[i]));
            }
        }
    }
}

/// A schedule that is sorted stays as it is when a fault is added behind all others.
pub proof fn law_schedule_appends(faults: Seq<(u64, Fault)>, op: u64, fault: Fault)
    requires
        in_order(faults, op_of()),
        forall|i: int| 0 <= i < faults.len() ==> (#[trigger] faults[i]).0 <= op,
    ensures
        stable_sorted(faults.push((op, fault)), op_of()) == faults.push((op, fault)),
{
    let s = faults.push((op, fault));
    assert forall|i: int, j: int| 0 <= i <= j < s.len() implies op_of()(#[trigger] s[i])
        <= op_of()(#[trigger] s[j]) by {
        if j < faults.len() {
            assert(s[i] == faults[i] && s[j] == faults[j]);
        } else if i < faults.len() {
            assert(s[i] == faults[i]);
        }
    }
    lemma_sorted_fixed(s, op_of());
}

/// What a check at an operation does: a fault that is scheduled comes first, and only without one
/// may a crash strike by chance.
pub open spec fn fault_check(
    v: InjectorView,
    faults: Seq<(u64, Fault)>,
    position: nat,
    op: u64,
    s: DrawsView,
) -> (InjectorView, nat, DrawsView, Option<Fault>) {
    let (next, due) = schedule_check(faults, position, op);
    if due is Some {
        (v, next, s, due)
    } else {
        let (w, t, hit) = crash_check(v, s);
        (
            w,
            next,
            t,
            if hit {
                Some(Fault::Crash)
            } else {
                None
            },
        )
    }
}

/// A fault that is scheduled for an operation is given there, whatever chance has it, and nothing
/// is drawn for it; where none is, only a crash can come.
pub proof fn law_scheduled_first(
    v: InjectorView,
    faults: Seq<(u64, Fault)>,
    position: nat,
    op: u64,
    s: DrawsView,
    i: int,
)
    requires
        in_order(faults, op_of()),
        position <= faults.len(),
    ensures
        ({
            let (w, next, t, r) = fault_check(v, faults, position, op, s);
            &&& position <= i < faults.len() && faults[i].0 == op ==> r is Some && w == v && t == s
                && next > position && faults[next - 1] == (op, r->0)
            &&& (forall|j: int| position <= j < faults.len() ==> (#[trigger] faults[j]).0 != op)
                ==> r is None || r == Some(Fault::Crash)
            &&& position <= next <= faults.len()
        }),
{
    law_schedule_check(faults, position, op);
}

/// Combines probabilistic and scheduled fault injection.
pub struct CombinedFaultInjector {
    /// Random fault injector.
    pub random: FaultInjector,
    /// Scheduled faults.
    pub schedule: FaultSchedule,
    /// Number of operations checked.
    pub op_num: u64,
}

impl CombinedFaultInjector {
    /// Tells whether both parts are well-formed.
    pub open spec fn wf(&self) -> bool {
        self.random.wf() && self.schedule.wf()
    }

    /// Creates a combined injector.
    pub fn new(config: FaultConfig, schedule: FaultSchedule) -> (r: Self)
        requires
            schedule.wf(),
        ensures
            r.wf(),
            r.random@ == fresh_injector(config),
            r.schedule == schedule,
            r.op_num == 0,
    {
        CombinedFaultInjector { random: FaultInjector::new(config), schedule, op_num: 0 }
    }

    /// Checks for any fault; a scheduled one takes priority.
    pub fn check_fault(&mut self, rng: &mut Draws) -> (r: Option<Fault>)
        requires
            old(self).wf(),
            old(self).op_num < u64::MAX,
            old(self).random@.stats.operations_checked < u64::MAX,
        ensures
            final(self).wf(),
            final(self).op_num == old(self).op_num + 1,
            final(self).schedule.spec_faults() == old(self).schedule.spec_faults(),
            (
                final(self).random@,
                final(self).schedule.spec_position(),
                final(rng).spec_state(),
                r,
            ) == fault_check(
                old(self).random@,
                old(self).schedule.spec_faults(),
                old(self).schedule.spec_position(),
                final(self).op_num,
                old(rng).spec_state(),
            ),
    {
        self.op_num += 1;
        let due = self.schedule.check(self.op_num);
        if due.is_some() {
            return due;
        }
        self.random.maybe_crash(rng)
    }

    /// Returns the current operation number.
    pub fn op_num(&self) -> (r: u64)
        ensures
            r == self.op_num,
    {
        self.op_num
    }

    /// Resets for a new run.
    pub fn reset(&mut self)
        requires
            old(self).wf(),
        ensures
            final(self).wf(),
            final(self).op_num == 0,
            final(self).random == old(self).random,
            final(self).schedule.spec_faults() == old(self).schedule.spec_faults(),
            final(self).schedule.spec_position() == 0,
    {
        self.op_num = 0;
        self.schedule.reset();
    }
}

/// The number of faults of a history that pass a test.
pub open spec fn faults_in(h: Seq<(u64, Fault)>, p: spec_fn(Fault) -> bool) -> nat
    decreases h.len(),
{
    if h.len() == 0 {
        0
    } else if p(h.last().1) {
        faults_in(h.drop_last(), p) + 1
    } else {
        faults_in(h.drop_last(), p)
    }
}

/// Tells whether the counts of an injector are those of the faults in its history.
pub open spec fn history_counted(v: InjectorView) -> bool {
    &&& v.stats.crashes == faults_in(v.fault_history, |f: Fault| f is Crash)
    &&& v.stats.partial_writes == faults_in(v.fault_history, |f: Fault| f is PartialWrite)
    &&& v.stats.disk_full_errors == faults_in(v.fault_history, |f: Fault| f is DiskFull)
    &&& v.stats.bit_flips == faults_in(v.fault_history, |f: Fault| f is BitFlip)
}

/// Tells whether an injector took note of a fault: its history has the fault more, at the number
/// of operations checked, and its counts are those of its history. Nothing else that decides on
/// faults changed, but for what a crash starts anew.
pub open spec fn noted(v: InjectorView, w: InjectorView, f: Fault) -> bool {
    &&& w.fault_history.len() == v.fault_history.len() + 1
    &&& w.fault_history.drop_last() == v.fault_history
    &&& w.fault_history.last() == (w.stats.operations_checked, f)
    &&& w.config == v.config
    &&& w.total_bytes_written == v.total_bytes_written
    &&& w.current_crash_depth == v.current_crash_depth
    &&& history_counted(w)
}

/// Each crash check counts an operation. A crash is noted and starts the wait for the next one
/// anew; without one the wait goes on and the history stays.
pub proof fn law_crash_noted(v: InjectorView, s: DrawsView)
    requires
        history_counted(v),
        v.stats.operations_checked < u64::MAX,
        v.ops_since_last_crash < u64::MAX,
        v.stats.crashes < u64::MAX,
    ensures
        ({
            let (w, _, hit) = crash_check(v, s);
            &&& w.stats.operations_checked == v.stats.operations_checked + 1
            &&& hit ==> noted(v, w, Fault::Crash) && w.ops_since_last_crash == 0
            &&& !hit ==> w.fault_history == v.fault_history && w.ops_since_last_crash
                == v.ops_since_last_crash + 1 && history_counted(w)
        }),
{
    let w = crash_check(v, s).0;
    if crash_check(v, s).2 {
        assert(w.fault_history.drop_last() =~= v.fault_history);
    }
}

/// A partial write cuts off at least a byte and no more than there is, and is noted. Without one
/// nothing is cut off and the injector stays as it was. None comes where they are disabled or
/// nothing is written, and one that is certain comes wherever something is.
pub proof fn law_partial_write_noted(v: InjectorView, s: DrawsView, size: usize)
    requires
        history_counted(v),
        v.stats.partial_writes < u64::MAX,
    ensures
        ({
            let (w, _, cut) = partial_write_check(v, s, size);
            &&& cut <= size
            &&& cut > 0 ==> noted(v, w, Fault::PartialWrite { truncated_bytes: cut })
            &&& cut == 0 ==> w == v
            &&& v.config.partial_write_probability == 0 || size == 0 ==> cut == 0
                && partial_write_check(v, s, size).1 == s
            &&& v.config.partial_write_probability >= CERTAIN && size > 0 ==> cut > 0
            &&& w.stats.operations_checked == v.stats.operations_checked
            &&& w.ops_since_last_crash == v.ops_since_last_crash
        }),
{
    let (w, _, cut) = partial_write_check(v, s, size);
    if cut > 0 {
        assert(w.fault_history.drop_last() =~= v.fault_history);
    }
}

/// A write fails for a full disk exactly where it would take what was written past the limit, and
/// the failure is noted.
pub proof fn law_disk_full_noted(v: InjectorView, size: u64)
    requires
        history_counted(v),
        v.stats.disk_full_errors < u64::MAX,
    ensures
        ({
            let (w, full) = disk_full_check(v, size);
            &&& full <==> v.config.disk_full_after_bytes is Some && v.total_bytes_written + size
                > v.config.disk_full_after_bytes->0
            &&& full ==> noted(v, w, Fault::DiskFull)
            &&& !full ==> w == v
            &&& w.stats.operations_checked == v.stats.operations_checked
        }),
{
    let (w, full) = disk_full_check(v, size);
    if full {
        assert(w.fault_history.drop_last() =~= v.fault_history);
    }
}

/// A bit flip changes the one byte that it names, by the one bit that it names, and is noted.
/// Without one the bytes and the injector stay as they were. None comes where they are disabled or
/// there are no bytes, and one that is certain comes wherever there are.
pub proof fn law_bit_flip_noted(v: InjectorView, s: DrawsView, data: Seq<u8>)
    requires
        history_counted(v),
        v.stats.bit_flips < u64::MAX,
        data.len() <= usize::MAX,
    ensures
        ({
            let (w, _, d, fault) = bit_flip_check(v, s, data);
            &&& d.len() == data.len()
            &&& match fault {
                None => d == data && w == v,
                Some(Fault::BitFlip { byte_offset, bit }) => {
                    &&& byte_offset < data.len()
                    &&& bit < 8
                    &&& forall|i: int|
                        0 <= i < data.len() && i != byte_offset ==> #[trigger] d[i] == data[i]
                    &&& d[byte_offset as int] == data[byte_offset as int] ^ (1u8 << bit)
                    &&& d[byte_offset as int] != data[byte_offset as int]
                    &&& noted(v, w, fault->0)
                },
                Some(_) => false,
            }
            &&& v.config.bit_flip_probability == 0 || data.len() == 0 ==> fault is None
            &&& v.config.bit_flip_probability >= CERTAIN && data.len() > 0 ==> fault is Some
            &&& w.stats.operations_checked == v.stats.operations_checked
        }),
{
    let (w, _, d, fault) = bit_flip_check(v, s, data);
    if fault is Some {
        assert(w.fault_history.drop_last() =~= v.fault_history);
        let u = after_draw(after_draw(s));
        let bit = (drawn(u) % 8) as u8;
        let offset = drawn(after_draw(s)) as int % data.len() as int;
        law_flip_undone(data[offset], bit);
    }
}

/// A disk at normal speed adds no delay; one that is twice as slow adds the time of the
/// operation once more, and so on, up to the largest number.
pub proof fn law_slow_disk(base_nanos: u64, times: u64)
    requires
        NORMAL_SPEED * (times + 1) <= u64::MAX,
    ensures
        slowdown((NORMAL_SPEED * (times + 1)) as u64, base_nanos) == (if base_nanos * times
            > u64::MAX {
            u64::MAX as int
        } else {
            base_nanos * times
        }),
{
    assert(base_nanos * (100 * (times + 1) - 100) / 100 == base_nanos * times) by (nonlinear_arith);
}

/// A schedule holds what it held and what was added.
pub proof fn law_schedule_has(
    faults: Seq<(u64, Fault)>,
    op: u64,
    fault: Fault,
    x: (u64, Fault),
)
    ensures
        stable_sorted(faults.push((op, fault)), op_of()).contains(x) <==> faults.contains(x) || x
            == (op, fault),
{
    let all = faults.push((op, fault));
    crate::order::law_sorted_has(all, op_of(), x);
    assert(all[faults.len() as int] == (op, fault));
    if faults.contains(x) {
        let i = choose|i: int| 0 <= i < faults.len() && faults[i] == x;
        assert(all[i] == x);
    }
    if all.contains(x) && x != (op, fault) {
        let i = choose|i: int| 0 <= i < all.len() && all[i] == x;
        assert(faults[i] == x);
    }
}

/// A crash strikes exactly where recovery is not as deep as allowed, more than the least number of
/// operations went by since the last one, this one counted, and the number drawn falls below the
/// probability, in parts of a million.
pub proof fn law_crash_by_draw(v: InjectorView, s: DrawsView)
    requires
        v.ops_since_last_crash < u64::MAX,
    ensures
        crash_check(v, s).2 <==> {
            &&& v.current_crash_depth < v.config.max_crash_depth
            &&& v.ops_since_last_crash + 1 > v.config.min_ops_between_crashes
            &&& drawn(s) % 1_000_000 < v.config.crash_probability
        },
        partial_write_check(v, s, 1).2 > 0 <==> drawn(s) % 1_000_000
            < v.config.partial_write_probability,
{
    assert(drawn(s) % 1_000_000 >= 0);
}

/// A probability that is set is kept where it is one, and is certainty where it is more than that.
pub proof fn law_probability_kept(p: u32)
    ensures
        clamped(p) <= CERTAIN,
        p <= CERTAIN ==> clamped(p) == p,
        p > CERTAIN ==> clamped(p) == CERTAIN,
{
}

} // verus!
