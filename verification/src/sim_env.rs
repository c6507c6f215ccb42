//! The world of a simulation: a seed, the numbers drawn from it, a disk in memory, and the machine
//! under it with its faults.
//!
//! What the machine draws is handed to it: a list of numbers, of which each write takes the next,
//! and the first again after the last. A fault strikes a write where the number drawn for it is
//! below its probability. A write that is cut short is gone on with where it stopped, so that it
//! reaches the disk whole. A slow write, a pause and a jump of the clock take time. A write for which
//! the disk has no room is refused, and the database is left as it was.

use crate::disk::{Disk, FileId};
use crate::rng::{first_state, from_seed, rng_after, Draws, DrawsView, SimpleRng};
use vstd::prelude::*;

verus! {

/// Faults of the simulated machine. Probabilities are parts per million, durations are
/// milliseconds, and zero disables a fault.
#[derive(Clone, Copy, Debug, PartialEq, Eq, Structural)]
pub struct RuntimeFaultConfig {
    /// Probability that a write is cut short.
    pub partial_write_prob: u32,
    /// Bytes that the disk takes before it is full; zero where it takes any number.
    pub disk_full_threshold: u64,
    /// Probability that a write is slow.
    pub slow_write_prob: u32,
    /// How long a slow write takes.
    pub slow_write_duration: u64,
    /// Probability that the clock jumps.
    pub clock_skew_prob: u32,
    /// How far the clock jumps at most.
    pub clock_skew_max: u64,
    /// Probability that the process pauses.
    pub process_pause_prob: u32,
    /// How long the process pauses.
    pub process_pause_duration: u64,
}

/// The configuration without faults.
pub open spec fn no_runtime_faults() -> RuntimeFaultConfig {
    RuntimeFaultConfig {
        partial_write_prob: 0,
        disk_full_threshold: 0,
        slow_write_prob: 0,
        slow_write_duration: 0,
        clock_skew_prob: 0,
        clock_skew_max: 0,
        process_pause_prob: 0,
        process_pause_duration: 0,
    }
}

/// Tells whether no fault is enabled.
pub open spec fn is_quiet(c: RuntimeFaultConfig) -> bool {
    &&& c.partial_write_prob == 0
    &&& c.disk_full_threshold == 0
    &&& c.slow_write_prob == 0
    &&& c.clock_skew_prob == 0
    &&& c.process_pause_prob == 0
}

impl Default for RuntimeFaultConfig {
    fn default() -> (r: Self)
        ensures
            r == no_runtime_faults(),
    {
        RuntimeFaultConfig {
            partial_write_prob: 0,
            disk_full_threshold: 0,
            slow_write_prob: 0,
            slow_write_duration: 0,
            clock_skew_prob: 0,
            clock_skew_max: 0,
            process_pause_prob: 0,
            process_pause_duration: 0,
        }
    }
}

impl RuntimeFaultConfig {
    /// Returns true if no fault is enabled.
    pub fn all_disabled(&self) -> (r: bool)
        ensures
            r == is_quiet(*self),
    {
        self.partial_write_prob == 0 && self.disk_full_threshold == 0 && self.slow_write_prob == 0
            && self.clock_skew_prob == 0 && self.process_pause_prob == 0
    }
}

/// A fault of the simulated machine that happened.
#[derive(Clone, Copy, Debug, PartialEq, Eq, Structural)]
pub enum FaultEvent {
    /// A write was cut short, and then gone on with.
    PartialWrite {
        /// Bytes to be written.
        wanted: u64,
        /// Bytes written before it was cut.
        done: u64,
    },
    /// The disk was full, and a write was refused.
    DiskFull {
        /// Bytes to be written.
        wanted: u64,
    },
    /// A write was slow.
    SlowWrite {
        /// How long it took.
        duration: u64,
    },
    /// The clock jumped.
    ClockSkew {
        /// How far it jumped.
        by: u64,
    },
    /// The process paused.
    ProcessPause {
        /// How long it paused.
        duration: u64,
    },
}

/// What the machine draws for one write. A fault strikes where its number is below its
/// probability.
#[derive(Clone, Copy, Debug, PartialEq, Eq, Structural)]
pub struct MachineDraw {
    /// For a write that is cut short.
    pub partial: u32,
    /// For a slow write.
    pub slow: u32,
    /// For a jump of the clock.
    pub skew: u32,
    /// For a pause.
    pub pause: u32,
    /// In parts per million, how much of a write is done before it is cut, and how far the clock
    /// jumps.
    pub amount: u32,
}

/// The machine under a simulation.
pub struct Machine {
    /// Its faults.
    pub faults: RuntimeFaultConfig,
    /// What it draws, write by write, over and over.
    pub draws: Vec<MachineDraw>,
    /// Writes so far.
    pub writes: u64,
    /// Bytes written so far.
    pub written: u64,
    /// Time lost so far.
    pub clock: u64,
    /// Faults so far.
    pub events: Vec<FaultEvent>,
}

/// A machine as a mathematical value.
#[verifier::ext_equal]
pub struct MachineView {
    pub faults: RuntimeFaultConfig,
    pub draws: Seq<MachineDraw>,
    pub writes: u64,
    pub written: u64,
    pub clock: u64,
    pub events: Seq<FaultEvent>,
}

impl View for Machine {
    type V = MachineView;

    open spec fn view(&self) -> MachineView {
        MachineView {
            faults: self.faults,
            draws: self.draws@,
            writes: self.writes,
            written: self.written,
            clock: self.clock,
            events: self.events@,
        }
    }
}

/// A sum that stays at the largest number.
pub open spec fn sum_up(a: u64, b: u64) -> u64 {
    if a + b <= u64::MAX {
        (a + b) as u64
    } else {
        u64::MAX
    }
}

/// Adds, and stays at the largest number.
pub fn add_up(a: u64, b: u64) -> (r: u64)
    ensures
        r == sum_up(a, b),
{
    if a <= u64::MAX - b {
        a + b
    } else {
        u64::MAX
    }
}

/// Some parts of a million of a number, and all of it for more.
pub open spec fn share_of(n: u64, amount: u32) -> u64 {
    if amount >= 1_000_000 {
        n
    } else {
        (n * amount / 1_000_000) as u64
    }
}

fn share(n: u64, amount: u32) -> (r: u64)
    ensures
        r == share_of(n, amount),
{
    if amount >= 1_000_000 {
        n
    } else {
        proof {
            assert(n * amount <= n * 1_000_000 && n * amount <= u128::MAX) by (nonlinear_arith)
                requires
                    0 <= n <= u64::MAX,
                    0 <= amount < 1_000_000,
            ;
        }
        (n as u128 * amount as u128 / 1_000_000) as u64
    }
}

/// The faults that strike a write for which there is room.
pub open spec fn struck_by(f: RuntimeFaultConfig, d: MachineDraw, n: u64) -> Seq<FaultEvent> {
    (if d.partial < f.partial_write_prob {
        seq![FaultEvent::PartialWrite { wanted: n, done: share_of(n, d.amount) }]
    } else {
        Seq::empty()
    }) + (if d.slow < f.slow_write_prob {
        seq![FaultEvent::SlowWrite { duration: f.slow_write_duration }]
    } else {
        Seq::empty()
    }) + (if d.skew < f.clock_skew_prob {
        seq![FaultEvent::ClockSkew { by: share_of(f.clock_skew_max, d.amount) }]
    } else {
        Seq::empty()
    }) + (if d.pause < f.process_pause_prob {
        seq![FaultEvent::ProcessPause { duration: f.process_pause_duration }]
    } else {
        Seq::empty()
    })
}

/// The time that a fault takes.
pub open spec fn time_of(e: FaultEvent) -> u64 {
    match e {
        FaultEvent::SlowWrite { duration } => duration,
        FaultEvent::ClockSkew { by } => by,
        FaultEvent::ProcessPause { duration } => duration,
        _ => 0,
    }
}

/// The time after faults.
pub open spec fn clock_after(clock: u64, events: Seq<FaultEvent>) -> u64
    decreases events.len(),
{
    if events.len() == 0 {
        clock
    } else {
        sum_up(clock_after(clock, events.drop_last()), time_of(events.last()))
    }
}

/// Tells whether a disk has no room for a write.
pub open spec fn no_room(m: MachineView, n: u64) -> bool {
    m.faults.disk_full_threshold > 0 && m.written + n > m.faults.disk_full_threshold
}

/// The faults that strike the next write.
pub open spec fn next_events(m: MachineView, n: u64) -> Seq<FaultEvent> {
    if no_room(m, n) {
        seq![FaultEvent::DiskFull { wanted: n }]
    } else if m.draws.len() == 0 {
        Seq::empty()
    } else {
        struck_by(m.faults, m.draws[m.writes as int % m.draws.len() as int], n)
    }
}

/// The machine after a write.
pub open spec fn machine_after(m: MachineView, n: u64) -> MachineView {
    MachineView {
        writes: sum_up(m.writes, 1),
        written: if no_room(m, n) {
            m.written
        } else {
            sum_up(m.written, n)
        },
        clock: clock_after(m.clock, next_events(m, n)),
        events: m.events + next_events(m, n),
        ..m
    }
}

/// A machine that has written nothing yet.
pub open spec fn fresh_machine(faults: RuntimeFaultConfig, draws: Seq<MachineDraw>) -> MachineView {
    MachineView { faults, draws, writes: 0, written: 0, clock: 0, events: Seq::empty() }
}

impl Machine {
    /// Creates a machine from its faults and what it draws.
    pub fn new(faults: RuntimeFaultConfig, draws: Vec<MachineDraw>) -> (r: Self)
        ensures
            r@ == fresh_machine(faults, draws@),
    {
        let events: Vec<FaultEvent> = Vec::new();
        assert(events@ =~= Seq::<FaultEvent>::empty());
        Machine { faults, draws, writes: 0, written: 0, clock: 0, events }
    }

    fn strike(&mut self, e: FaultEvent, time: u64)
        requires
            time == time_of(e),
        ensures
            final(self)@ == (MachineView {
                clock: sum_up(old(self).clock, time_of(e)),
                events: old(self).events@.push(e),
                ..old(self)@
            }),
    {
        self.clock = add_up(self.clock, time);
        self.events.push(e);
    }

    /// Takes a write of a number of bytes, or refuses it where the disk is full.
    pub fn write(&mut self, n: u64) -> (r: bool)
        ensures
            final(self)@ == machine_after(old(self)@, n),
            r == !no_room(old(self)@, n),
    {
        let ghost m = self@;
        let ghost want = next_events(m, n);
        let f = self.faults;
        let at = self.writes;
        self.writes = add_up(self.writes, 1);
        if f.disk_full_threshold > 0 && (self.written > f.disk_full_threshold || n
            > f.disk_full_threshold - self.written) {
            self.strike(FaultEvent::DiskFull { wanted: n }, 0);
            proof {
                reveal_with_fuel(clock_after, 2);
                assert(want.drop_last() =~= Seq::<FaultEvent>::empty());
                assert(self@ =~= machine_after(m, n));
            }
            return false;
        }
        self.written = add_up(self.written, n);
        if self.draws.len() > 0 {
            let k = (at % (self.draws.len() as u64)) as usize;
            let d = self.draws[k];
            assert(d == m.draws[m.writes as int % m.draws.len() as int]);
            let ghost mut done = Seq::<FaultEvent>::empty();
            if d.partial < f.partial_write_prob {
                let e = FaultEvent::PartialWrite { wanted: n, done: share(n, d.amount) };
                self.strike(e, 0);
                proof {
                    lemma_clock_push(m.clock, done, e);
                    done = done.push(e);
                }
            }
            let ghost one = done;
            if d.slow < f.slow_write_prob {
                let e = FaultEvent::SlowWrite { duration: f.slow_write_duration };
                self.strike(e, f.slow_write_duration);
                proof {
                    lemma_clock_push(m.clock, done, e);
                    done = done.push(e);
                }
            }
            let ghost two = done;
            if d.skew < f.clock_skew_prob {
                let by = share(f.clock_skew_max, d.amount);
                let e = FaultEvent::ClockSkew { by };
                self.strike(e, by);
                proof {
                    lemma_clock_push(m.clock, done, e);
                    done = done.push(e);
                }
            }
            let ghost three = done;
            if d.pause < f.process_pause_prob {
                let e = FaultEvent::ProcessPause { duration: f.process_pause_duration };
                self.strike(e, f.process_pause_duration);
                proof {
                    lemma_clock_push(m.clock, done, e);
                    done = done.push(e);
                }
            }
            proof {
                assert(done =~= want);
            }
        }
        assert(self@ =~= machine_after(m, n));
        true
    }
}

proof fn lemma_clock_push(clock: u64, events: Seq<FaultEvent>, e: FaultEvent)
    ensures
        clock_after(clock, events.push(e)) == sum_up(clock_after(clock, events), time_of(e)),
{
    assert(events.push(e).drop_last() =~= events);
}

/// A machine whose faults are all disabled is struck by none, whatever it draws.
pub proof fn law_quiet_machine(m: MachineView, n: u64)
    requires
        is_quiet(m.faults),
    ensures
        !no_room(m, n),
        next_events(m, n) == Seq::<FaultEvent>::empty(),
{
    assert(next_events(m, n) =~= Seq::<FaultEvent>::empty());
}

/// A fault whose probability is a whole strikes every write for which there is room, whatever is
/// drawn below a million; and a write for which there is none is refused.
pub proof fn law_certain_fault(m: MachineView, n: u64)
    requires
        m.draws.len() > 0,
        m.faults.partial_write_prob >= 1_000_000,
        forall|i: int| 0 <= i < m.draws.len() ==> (#[trigger] m.draws[i]).partial < 1_000_000,
    ensures
        next_events(m, n).len() > 0,
        no_room(m, n) ==> next_events(m, n)[0] == (FaultEvent::DiskFull { wanted: n }),
        !no_room(m, n) ==> next_events(m, n)[0] is PartialWrite,
{
    let k = m.writes as int % m.draws.len() as int;
    assert(0 <= k < m.draws.len());
    assert(m.draws[k].partial < 1_000_000);
}

/// How many draws a machine takes from a seed.
pub const SEED_DRAWS: usize = 256;

/// The numbers that are drawn for one write from a state on.
pub open spec fn draw_from(s: u64, i: int) -> MachineDraw {
    MachineDraw {
        partial: (rng_after(s, (5 * i + 1) as nat) % 1_000_000) as u32,
        slow: (rng_after(s, (5 * i + 2) as nat) % 1_000_000) as u32,
        skew: (rng_after(s, (5 * i + 3) as nat) % 1_000_000) as u32,
        pause: (rng_after(s, (5 * i + 4) as nat) % 1_000_000) as u32,
        amount: (rng_after(s, (5 * i + 5) as nat) % 1_000_000) as u32,
    }
}

/// The state from which a machine draws.
pub open spec fn machine_state(seed: u64) -> u64 {
    first_state(seed ^ 0x6d61_6368_696e_6521)
}

/// What a machine draws from a seed.
pub open spec fn seed_draws(seed: u64) -> Seq<MachineDraw> {
    Seq::new(256, |i: int| draw_from(machine_state(seed), i))
}

/// Draws for a machine from a seed.
pub fn draws_from_seed(seed: u64) -> (r: Vec<MachineDraw>)
    ensures
        r@ == seed_draws(seed),
{
    let ghost s = machine_state(seed);
    let mut rng = SimpleRng::seeded(seed ^ 0x6d61_6368_696e_6521);
    let mut r: Vec<MachineDraw> = Vec::new();
    let mut i: usize = 0;
    while i < SEED_DRAWS
        invariant
            i <= 256,
            rng.spec_state() == rng_after(s, (5 * i) as nat),
            r@ == Seq::new(i as nat, |k: int| draw_from(s, k)),
        decreases 256 - i,
    {
        proof {
            reveal_with_fuel(rng_after, 2);
        }
        let partial = rng.next_below(1_000_000) as u32;
        assert(rng.spec_state() == rng_after(s, (5 * i + 1) as nat));
        let slow = rng.next_below(1_000_000) as u32;
        assert(rng.spec_state() == rng_after(s, (5 * i + 2) as nat));
        let skew = rng.next_below(1_000_000) as u32;
        assert(rng.spec_state() == rng_after(s, (5 * i + 3) as nat));
        let pause = rng.next_below(1_000_000) as u32;
        assert(rng.spec_state() == rng_after(s, (5 * i + 4) as nat));
        let amount = rng.next_below(1_000_000) as u32;
        assert(rng.spec_state() == rng_after(s, (5 * i + 5) as nat));
        let d = MachineDraw { partial, slow, skew, pause, amount };
        assert(d == draw_from(s, i as int));
        r.push(d);
        i += 1;
        assert(r@ =~= Seq::new(i as nat, |k: int| draw_from(s, k)));
    }
    r
}

/// The world of a simulation.
pub struct SimEnv {
    /// The seed.
    pub seed: u64,
    /// What the simulation draws from.
    pub rng: Draws,
    /// The disk.
    pub disk: Disk,
    /// The machine.
    pub machine: Machine,
}

impl SimEnv {
    /// Tells whether the disk is well-formed.
    pub open spec fn wf(&self) -> bool {
        self.disk.wf()
    }

    /// Tells whether nothing has happened yet, in a world that draws from its seed.
    pub open spec fn fresh(&self, seed: u64, machine: MachineView) -> bool {
        self.fresh_from(seed, from_seed(seed), machine)
    }

    /// Tells whether nothing has happened yet.
    pub open spec fn fresh_from(&self, seed: u64, draws: DrawsView, machine: MachineView) -> bool {
        &&& self.wf()
        &&& self.seed == seed
        &&& self.rng.spec_state() == draws
        &&& self.disk.live() == Map::<FileId, Seq<u8>>::empty()
        &&& self.disk.durable() == Map::<FileId, Seq<u8>>::empty()
        &&& self.disk.taken() == self.disk.image()
        &&& self.machine@ == machine
    }

    /// Creates a world without machine faults from a seed.
    pub fn new(seed: u64) -> (r: Self)
        ensures
            r.fresh(seed, quiet_machine()),
    {
        let none: Vec<MachineDraw> = Vec::new();
        assert(none@ =~= Seq::<MachineDraw>::empty());
        SimEnv::with_draws(seed, RuntimeFaultConfig::default(), none)
    }

    /// Creates a world from a seed and a configuration of machine faults. The machine draws from
    /// the seed too.
    pub fn new_with_faults(seed: u64, faults: RuntimeFaultConfig) -> (r: Self)
        ensures
            r.fresh(seed, seeded_machine(seed, faults)),
    {
        SimEnv::with_draws(seed, faults, draws_from_seed(seed))
    }

    /// Creates a world from a seed, a configuration of machine faults and what the machine draws.
    pub fn with_draws(seed: u64, faults: RuntimeFaultConfig, draws: Vec<MachineDraw>) -> (r: Self)
        ensures
            r.fresh(seed, fresh_machine(faults, draws@)),
    {
        SimEnv {
            seed,
            rng: Draws::seeded(seed),
            disk: Disk::new(),
            machine: Machine::new(faults, draws),
        }
    }

    /// Creates a world from a seed, the numbers that the simulation draws, a configuration of
    /// machine faults and what the machine draws.
    pub fn drawing(
        seed: u64,
        numbers: Vec<u64>,
        faults: RuntimeFaultConfig,
        draws: Vec<MachineDraw>,
    ) -> (r: Self)
        ensures
            r.fresh_from(seed, DrawsView::List(numbers@, 0), fresh_machine(faults, draws@)),
    {
        SimEnv {
            seed,
            rng: Draws::listed(numbers),
            disk: Disk::new(),
            machine: Machine::new(faults, draws),
        }
    }

    /// Returns the configuration of machine faults.
    pub fn fault_config(&self) -> (r: RuntimeFaultConfig)
        ensures
            r == self.machine@.faults,
    {
        self.machine.faults
    }

    /// Returns the machine faults so far.
    pub fn fault_events(&self) -> (r: Vec<FaultEvent>)
        ensures
            r@ == self.machine@.events,
    {
        copy_events(&self.machine.events)
    }
}

/// The machine without faults.
pub open spec fn quiet_machine() -> MachineView {
    fresh_machine(no_runtime_faults(), Seq::empty())
}

/// The machine with faults that draws from a seed.
pub open spec fn seeded_machine(seed: u64, faults: RuntimeFaultConfig) -> MachineView {
    fresh_machine(faults, seed_draws(seed))
}

/// Copies machine faults.
pub fn copy_events(events: &Vec<FaultEvent>) -> (r: Vec<FaultEvent>)
    ensures
        r@ == events@,
{
    let mut r: Vec<FaultEvent> = Vec::new();
    let mut i: usize = 0;
    while i < events.len()
        invariant
            i <= events.len(),
            r@ == events@.take(i as int),
        decreases events.len() - i,
    {
        r.push(events[i]);
        i += 1;
        assert(r@ =~= events@.take(i as int));
    }
    assert(events@.take(i as int) =~= events@);
    r
}

/// A write that finds room is counted in full, one that does not takes nothing. A disk that has a
/// limit never holds more than that, the faults so far stay, and the clock never goes back.
pub proof fn law_machine_write(m: MachineView, n: u64)
    requires
        m.written + n <= u64::MAX,
        m.writes < u64::MAX,
    ensures
        ({
            let w = machine_after(m, n);
            let limit = m.faults.disk_full_threshold;
            &&& limit == 0 || m.written + n <= limit ==> w.written == m.written + n
            &&& limit > 0 && m.written + n > limit ==> w.written == m.written
            &&& limit > 0 && m.written <= limit ==> w.written <= limit
            &&& w.writes == m.writes + 1
            &&& w.events.len() >= m.events.len()
            &&& w.events.take(m.events.len() as int) == m.events
            &&& w.clock >= m.clock
            &&& w.faults == m.faults
            &&& w.draws == m.draws
        }),
{
    let w = machine_after(m, n);
    assert(w.events.take(m.events.len() as int) =~= m.events);
    lemma_clock_forward(m.clock, next_events(m, n));
}

proof fn lemma_clock_forward(clock: u64, events: Seq<FaultEvent>)
    ensures
        clock_after(clock, events) >= clock,
    decreases events.len(),
{
    if events.len() > 0 {
        lemma_clock_forward(clock, events.drop_last());
    }
}

/// Each fault strikes a write that finds room exactly where what is drawn for it is below its
/// probability, whatever the others do; a write that is cut short does no more than was wanted,
/// and the clock jumps no further than allowed.
pub proof fn law_each_fault_strikes(m: MachineView, n: u64)
    requires
        m.draws.len() > 0,
        !no_room(m, n),
    ensures
        ({
            let d = m.draws[m.writes as int % m.draws.len() as int];
            let es = next_events(m, n);
            &&& (exists|i: int| 0 <= i < es.len() && (#[trigger] es[i]) is PartialWrite)
                <==> d.partial < m.faults.partial_write_prob
            &&& (exists|i: int| 0 <= i < es.len() && (#[trigger] es[i]) is SlowWrite)
                <==> d.slow < m.faults.slow_write_prob
            &&& (exists|i: int| 0 <= i < es.len() && (#[trigger] es[i]) is ClockSkew)
                <==> d.skew < m.faults.clock_skew_prob
            &&& (exists|i: int| 0 <= i < es.len() && (#[trigger] es[i]) is ProcessPause)
                <==> d.pause < m.faults.process_pause_prob
            &&& forall|i: int|
                0 <= i < es.len() ==> match #[trigger] es[i] {
                    FaultEvent::PartialWrite { wanted, done } => wanted == n && done <= n,
                    FaultEvent::SlowWrite { duration } => duration == m.faults.slow_write_duration,
                    FaultEvent::ClockSkew { by } => by <= m.faults.clock_skew_max,
                    FaultEvent::ProcessPause { duration } => duration
                        == m.faults.process_pause_duration,
                    FaultEvent::DiskFull { .. } => false,
                }
        }),
{
    let f = m.faults;
    let d = m.draws[m.writes as int % m.draws.len() as int];
    lemma_share(n, d.amount);
    lemma_share(f.clock_skew_max, d.amount);
    let none = Seq::<FaultEvent>::empty();
    let a = if d.partial < f.partial_write_prob {
        seq![FaultEvent::PartialWrite { wanted: n, done: share_of(n, d.amount) }]
    } else {
        none
    };
    let b = if d.slow < f.slow_write_prob {
        seq![FaultEvent::SlowWrite { duration: f.slow_write_duration }]
    } else {
        none
    };
    let c = if d.skew < f.clock_skew_prob {
        seq![FaultEvent::ClockSkew { by: share_of(f.clock_skew_max, d.amount) }]
    } else {
        none
    };
    let p = if d.pause < f.process_pause_prob {
        seq![FaultEvent::ProcessPause { duration: f.process_pause_duration }]
    } else {
        none
    };
    let es = a + b + c + p;
    assert(es == next_events(m, n));
    if a.len() > 0 {
        assert(es[0] is PartialWrite);
    }
    if b.len() > 0 {
        assert(es[a.len() as int] is SlowWrite);
    }
    if c.len() > 0 {
        assert(es[a.len() + b.len() as int] is ClockSkew);
    }
    if p.len() > 0 {
        assert(es[a.len() + b.len() + c.len() as int] is ProcessPause);
    }
}

proof fn lemma_share(n: u64, amount: u32)
    ensures
        share_of(n, amount) <= n,
{
    if amount < 1_000_000 {
        assert(n * amount / 1_000_000 <= n) by (nonlinear_arith)
            requires
                amount < 1_000_000,
        ;
    }
}

} // verus!
