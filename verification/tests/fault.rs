use crackeddb::fault::{
    CombinedFaultInjector, Fault, FaultConfig, FaultInjector, FaultSchedule,
};
use crackeddb::rng::Draws;

#[test]
fn fault_injector_deterministic() {
    let config = FaultConfig {
        crash_probability: 500_000,
        min_ops_between_crashes: 0,
        ..Default::default()
    };

    let mut rng1 = Draws::seeded(42);
    let mut rng2 = Draws::seeded(42);

    let mut inj1 = FaultInjector::new(config);
    let mut inj2 = FaultInjector::new(config);

    let crashes1: Vec<_> = (0..100).map(|_| inj1.maybe_crash(&mut rng1).is_some()).collect();
    let crashes2: Vec<_> = (0..100).map(|_| inj2.maybe_crash(&mut rng2).is_some()).collect();

    assert_eq!(crashes1, crashes2, "Same seed must produce identical faults");
}

#[test]
fn fault_schedule() {
    let mut schedule = FaultSchedule::new();
    schedule.add(5, Fault::Crash);
    schedule.add(10, Fault::DiskFull);

    assert!(schedule.check(1).is_none());
    assert!(schedule.check(4).is_none());
    assert_eq!(schedule.check(5), Some(Fault::Crash));
    assert!(schedule.check(6).is_none());
    assert!(schedule.check(9).is_none());
    assert_eq!(schedule.check(10), Some(Fault::DiskFull));
    assert!(schedule.check(11).is_none());
}

#[test]
fn min_ops_between_crashes() {
    let config = FaultConfig {
        crash_probability: 1_000_000,
        min_ops_between_crashes: 5,
        ..Default::default()
    };

    let mut rng = Draws::seeded(42);
    let mut inj = FaultInjector::new(config);

    for _ in 0..5 {
        assert!(inj.maybe_crash(&mut rng).is_none());
    }

    assert!(inj.maybe_crash(&mut rng).is_some());

    for _ in 0..5 {
        assert!(inj.maybe_crash(&mut rng).is_none());
    }
}

#[test]
fn bit_flip() {
    let config = FaultConfig { bit_flip_probability: 1_000_000, ..Default::default() };

    let mut rng = Draws::seeded(42);
    let mut inj = FaultInjector::new(config);

    let mut data = vec![0u8; 100];
    let original = data.clone();

    let fault = inj.maybe_bit_flip(&mut rng, &mut data);
    assert!(fault.is_some());
    assert_ne!(data, original, "Bit flip should modify data");

    let diff_bits: u32 =
        data.iter().zip(original.iter()).map(|(a, b)| (a ^ b).count_ones()).sum();
    assert_eq!(diff_bits, 1, "Exactly one bit should be flipped");
}

#[test]
fn disk_full_tracking() {
    let config = FaultConfig { disk_full_after_bytes: Some(1000), ..Default::default() };

    let mut inj = FaultInjector::new(config);

    assert!(!inj.check_disk_full(500));
    inj.record_write(500);

    assert!(!inj.check_disk_full(400));
    inj.record_write(400);

    assert!(inj.check_disk_full(200));
}

#[test]
fn crash_depth_limit() {
    let config = FaultConfig {
        crash_probability: 1_000_000,
        min_ops_between_crashes: 0,
        max_crash_depth: 2,
        ..Default::default()
    };

    let mut rng = Draws::seeded(42);
    let mut inj = FaultInjector::new(config);

    assert!(inj.maybe_crash(&mut rng).is_some());
    inj.enter_recovery();

    assert!(inj.maybe_crash(&mut rng).is_some());
    inj.enter_recovery();

    assert!(inj.maybe_crash(&mut rng).is_none());

    inj.exit_recovery();

    assert!(inj.maybe_crash(&mut rng).is_some());
}

#[test]
fn no_probability_means_no_fault() {
    let mut rng = Draws::seeded(9);
    let mut inj = FaultInjector::new(FaultConfig::none());
    for _ in 0..200 {
        assert!(inj.maybe_crash(&mut rng).is_none());
        assert_eq!(inj.maybe_partial_write(&mut rng, 77), 0);
        assert!(!inj.check_disk_full(1));
    }
    let mut data = vec![1u8, 2, 3];
    assert!(inj.maybe_bit_flip(&mut rng, &mut data).is_none());
    assert_eq!(data, vec![1, 2, 3]);
    assert_eq!(inj.stats().total_faults(), 0);
    assert_eq!(inj.stats().operations_checked, 200);
    assert!(inj.fault_history().is_empty());
}

#[test]
fn a_flipped_bit_flips_back() {
    let config = FaultConfig::none().with_bit_flip_probability(1_000_000);
    let mut inj = FaultInjector::new(config);
    let mut rng = Draws::seeded(77);
    let mut data: Vec<u8> = (0..50).collect();
    let original = data.clone();
    match inj.maybe_bit_flip(&mut rng, &mut data) {
        Some(Fault::BitFlip { byte_offset, bit }) => {
            data[byte_offset] ^= 1 << bit;
            assert_eq!(data, original);
        }
        other => panic!("expected a bit flip, got {:?}", other),
    }
    assert_eq!(inj.stats().bit_flips, 1);
}

#[test]
fn partial_writes_are_cut_short() {
    let config = FaultConfig::none().with_partial_write_probability(1_000_000);
    let mut inj = FaultInjector::new(config);
    let mut rng = Draws::seeded(5);
    for size in [1usize, 2, 10, 1000] {
        let cut = inj.maybe_partial_write(&mut rng, size);
        assert!(cut >= 1 && cut <= size);
    }
    assert_eq!(inj.maybe_partial_write(&mut rng, 0), 0);
}

#[test]
fn slow_disks_take_longer() {
    assert_eq!(FaultInjector::new(FaultConfig::none()).maybe_slow_disk(500), 0);
    let slow = FaultInjector::new(FaultConfig::none().with_slow_disk(250));
    assert_eq!(slow.maybe_slow_disk(1000), 1500);
    assert_eq!(slow.config().slow_disk_factor, 250);
}

#[test]
fn schedules_sort_what_is_added() {
    let given = vec![(9, Fault::DiskFull), (2, Fault::Crash)];
    let mut s = FaultSchedule::from_faults(given.clone());
    assert_eq!(s.faults().to_vec(), given);
    s.add(9, Fault::Crash);
    assert_eq!(
        s.faults().to_vec(),
        vec![(2, Fault::Crash), (9, Fault::DiskFull), (9, Fault::Crash)]
    );
    assert_eq!(s.check(9), Some(Fault::DiskFull));
    s.reset();
    assert_eq!(s.check(2), Some(Fault::Crash));
}

#[test]
fn scheduled_faults_come_before_random_ones() {
    let mut schedule = FaultSchedule::new();
    schedule.add(2, Fault::DiskFull);
    let mut combined = CombinedFaultInjector::new(FaultConfig::none(), schedule);
    let mut rng = Draws::seeded(1);
    assert_eq!(combined.check_fault(&mut rng), None);
    assert_eq!(combined.op_num(), 1);
    assert_eq!(combined.check_fault(&mut rng), Some(Fault::DiskFull));
    assert_eq!(combined.check_fault(&mut rng), None);
    combined.reset();
    assert_eq!(combined.op_num(), 0);
    combined.check_fault(&mut rng);
    assert_eq!(combined.check_fault(&mut rng), Some(Fault::DiskFull));
}

#[test]
fn faults_describe_themselves() {
    for (fault, word) in [
        (Fault::Crash, "crash"),
        (Fault::PartialWrite { truncated_bytes: 17 }, "17"),
        (Fault::DiskFull, "disk"),
        (Fault::BitFlip { byte_offset: 12, bit: 3 }, "12"),
    ] {
        assert!(fault.describe().to_lowercase().contains(word), "{}", fault.describe());
    }
    assert_eq!(FaultConfig::none().with_crash_probability(7).crash_probability, 7);
    assert_eq!(FaultConfig::none().with_disk_full_after(8).disk_full_after_bytes, Some(8));
    assert!(FaultConfig::stress().crash_probability > 0);
    assert!(
        FaultConfig::crash_heavy().crash_probability > FaultConfig::stress().crash_probability
    );
}
