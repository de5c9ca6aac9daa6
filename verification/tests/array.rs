use raidsim::sim::{RaidError, RaidMode, RaidSim, RaidState};

const NUM_DRIVES: usize = 16;
const DRIVE_SIZE: usize = 1024;

fn init(mode: RaidMode) -> RaidSim {
    let mut sim = RaidSim::new(mode, NUM_DRIVES, DRIVE_SIZE);
    sim.init().unwrap();
    sim
}

fn assert_all_zero(sim: &RaidSim) {
    for i in 0..sim.size() {
        assert_eq!(sim.read(i).unwrap(), 0);
    }
}

#[test]
fn raid5_fresh_array_reads_zero() {
    let sim = init(RaidMode::Raid5);
    assert_eq!(sim.state(), RaidState::Okay);
    assert_eq!(sim.size(), (NUM_DRIVES - 1) * DRIVE_SIZE);
    assert_all_zero(&sim);
}

#[test]
fn raid6_fresh_array_reads_zero() {
    let sim = init(RaidMode::Raid6);
    assert_eq!(sim.state(), RaidState::Okay);
    assert_eq!(sim.size(), (NUM_DRIVES - 2) * DRIVE_SIZE);
    assert_all_zero(&sim);
}

#[test]
fn raid5_one_data_failure_reads_through_p() {
    let mut sim = init(RaidMode::Raid5);
    sim.fail_random_data();
    assert_eq!(sim.state(), RaidState::Degraded);
    assert_all_zero(&sim);
}

#[test]
fn raid5_p_failure_degraded() {
    let mut sim = init(RaidMode::Raid5);
    sim.fail_p_parity();
    assert_eq!(sim.state(), RaidState::Degraded);
    assert_all_zero(&sim);
}

#[test]
fn raid5_two_failures_fail_the_array() {
    let mut sim = init(RaidMode::Raid5);
    sim.fail_random_data();
    sim.fail_random_data();
    assert_eq!(sim.state(), RaidState::Failed);
    assert_eq!(sim.read(0), Err(RaidError::Failed));
}

#[test]
fn raid6_p_and_data_failure_reads_through_q() {
    let mut sim = init(RaidMode::Raid6);
    sim.fail_p_parity();
    sim.fail_random_data();
    assert_eq!(sim.state(), RaidState::Degraded);
    assert_all_zero(&sim);
}

#[test]
fn raid6_two_data_failures_read_through_both_parities() {
    let mut sim = init(RaidMode::Raid6);
    sim.fail_random_data();
    sim.fail_random_data();
    assert_eq!(sim.state(), RaidState::Degraded);
    assert_eq!(sim.failed().len(), 2);
    assert_all_zero(&sim);
}

#[test]
fn raid6_q_and_data_failure_reads_through_p() {
    let mut sim = init(RaidMode::Raid6);
    sim.fail_q_parity();
    sim.fail_random_data();
    assert_eq!(sim.state(), RaidState::Degraded);
    assert_all_zero(&sim);
}

#[test]
fn raid6_three_failures_fail_the_array() {
    let mut sim = init(RaidMode::Raid6);
    sim.fail_p_parity();
    sim.fail_q_parity();
    sim.fail_random_data();
    assert_eq!(sim.state(), RaidState::Failed);
    assert_eq!(sim.read(0), Err(RaidError::Failed));
}

#[test]
fn replaced_drives_leave_the_array_degraded() {
    let mut sim = init(RaidMode::Raid5);
    assert_eq!(sim.state(), RaidState::Okay);
    sim.fail_random();
    assert_eq!(sim.state(), RaidState::Degraded);
    sim.replace_failed_drives();
    assert_eq!(sim.unformatted().len(), 1);
    assert_eq!(sim.failed().len(), 0);
    assert_eq!(sim.state(), RaidState::Degraded);
}

#[test]
fn out_of_range_offsets_are_rejected() {
    let sim = init(RaidMode::Raid5);
    let cap = sim.size();
    assert_eq!(sim.read(cap), Err(RaidError::OffsetTooLarge(cap)));
}

#[test]
fn uninitialized_array_reports_uninit() {
    let sim = RaidSim::new(RaidMode::Raid6, 4, 8);
    assert_eq!(sim.state(), RaidState::Uninit);
    assert_eq!(sim.size(), 16);
}

#[test]
fn parity_drives_are_blank_after_init() {
    let sim = init(RaidMode::Raid6);
    assert!(sim.p_parity().is_formatted());
    assert!(sim.q_parity().is_formatted());
    for i in 0..DRIVE_SIZE {
        assert_eq!(sim.p_parity().byte_at(i), 0);
        assert_eq!(sim.q_parity().byte_at(i), 0);
    }
    assert_eq!(sim.data_drives().len(), NUM_DRIVES - 2);
}
