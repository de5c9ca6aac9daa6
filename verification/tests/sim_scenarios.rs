use rand::Rng;
use raidsim::sim::{RaidMode, RaidSim, RaidState};

const NUM_DRIVES: usize = 16;
const DRIVE_SIZE: usize = 1024;

fn init_random(mode: RaidMode) -> (RaidSim, Vec<u8>) {
    let mut sim = RaidSim::new(mode, NUM_DRIVES, DRIVE_SIZE);
    sim.init().unwrap();
    let data = write_random(&mut sim);
    (sim, data)
}

fn write_random(sim: &mut RaidSim) -> Vec<u8> {
    let mut data = vec![0u8; sim.size()];
    rand::rng().fill(data.as_mut_slice());
    for i in 0..sim.size() {
        sim.write(i, data[i]).unwrap();
    }
    data
}

fn assert_sim_equal(sim: &RaidSim, data: &Vec<u8>) {
    for i in 0..sim.size() {
        if sim.read(i).unwrap() != data[i] {
            panic!(
                "sim.read(i) != data[i], i={}, {} != {}",
                i,
                sim.read(i).unwrap(),
                data[i]
            );
        }
    }
}

#[test]
fn raid5_test_init() {
    let (sim, data) = init_random(RaidMode::Raid5);
    assert_sim_equal(&sim, &data);
    assert_eq!(sim.state(), RaidState::Okay);
}

#[test]
fn raid5_one_data_drive_failure() {
    let (mut sim, data) = init_random(RaidMode::Raid5);
    sim.fail_random_data();
    assert_eq!(sim.state(), RaidState::Degraded);
    assert_sim_equal(&sim, &data);
    let data = write_random(&mut sim);
    assert_sim_equal(&sim, &data);
}

#[test]
fn raid5_p_parity_failure() {
    let (mut sim, data) = init_random(RaidMode::Raid5);
    sim.fail_p_parity();
    assert_eq!(sim.state(), RaidState::Degraded);
    assert_sim_equal(&sim, &data);
    let data = write_random(&mut sim);
    assert_sim_equal(&sim, &data);
}

#[test]
fn raid5_one_data_drive_and_p_parity_failure() {
    let (mut sim, _) = init_random(RaidMode::Raid5);
    sim.fail_random_data();
    sim.fail_p_parity();
    assert_eq!(sim.state(), RaidState::Failed);
    assert!(sim.write(0, 0).is_err());
    assert!(sim.read(0).is_err());
}

#[test]
fn raid5_two_data_drive_failure() {
    let (mut sim, _) = init_random(RaidMode::Raid5);
    sim.fail_random_data();
    sim.fail_random_data();
    assert_eq!(sim.state(), RaidState::Failed);
    assert!(sim.write(0, 0).is_err());
    assert!(sim.read(0).is_err());
}

#[test]
fn raid5_unformatted_still_degraded() {
    let (mut sim, _) = init_random(RaidMode::Raid5);
    assert_eq!(sim.state(), RaidState::Okay);
    sim.fail_random();
    assert_eq!(sim.state(), RaidState::Degraded);
    sim.replace_failed_drives();
    assert_eq!(sim.unformatted().len(), 1);
    assert_eq!(sim.state(), RaidState::Degraded);
}

#[test]
fn raid6_test_init() {
    let (sim, data) = init_random(RaidMode::Raid6);
    assert_sim_equal(&sim, &data);
    assert_eq!(sim.state(), RaidState::Okay);
}

#[test]
fn raid6_one_data_drive_failure() {
    let (mut sim, data) = init_random(RaidMode::Raid6);
    sim.fail_random_data();
    assert_eq!(sim.state(), RaidState::Degraded);
    assert_sim_equal(&sim, &data);
    let data = write_random(&mut sim);
    assert_sim_equal(&sim, &data);
}

#[test]
fn raid6_p_parity_failure() {
    let (mut sim, data) = init_random(RaidMode::Raid5);
    sim.fail_p_parity();
    assert_eq!(sim.state(), RaidState::Degraded);
    assert_sim_equal(&sim, &data);
    let data = write_random(&mut sim);
    assert_sim_equal(&sim, &data);
}

#[test]
fn raid6_q_parity_failure() {
    let (mut sim, data) = init_random(RaidMode::Raid5);
    sim.fail_q_parity();
    assert_eq!(sim.state(), RaidState::Degraded);
    assert_sim_equal(&sim, &data);
    let data = write_random(&mut sim);
    assert_sim_equal(&sim, &data);
}

#[test]
fn raid6_one_data_drive_and_p_parity_failure() {
    let (mut sim, data) = init_random(RaidMode::Raid6);
    sim.fail_random_data();
    sim.fail_p_parity();
    assert_eq!(sim.state(), RaidState::Degraded);
    assert_sim_equal(&sim, &data);
    let data = write_random(&mut sim);
    assert_sim_equal(&sim, &data);
}

#[test]
fn raid6_one_data_drive_and_q_parity_failure() {
    let (mut sim, data) = init_random(RaidMode::Raid6);
    sim.fail_random_data();
    sim.fail_q_parity();
    assert_eq!(sim.state(), RaidState::Degraded);
    assert_sim_equal(&sim, &data);
    let data = write_random(&mut sim);
    assert_sim_equal(&sim, &data);
}

#[test]
fn raid6_p_parity_and_q_parity_failure() {
    let (mut sim, data) = init_random(RaidMode::Raid6);
    sim.fail_p_parity();
    sim.fail_q_parity();
    assert_eq!(sim.state(), RaidState::Degraded);
    assert_sim_equal(&sim, &data);
    let data = write_random(&mut sim);
    assert_sim_equal(&sim, &data);
}

#[test]
fn raid6_two_data_drive_failure() {
    let (mut sim, data) = init_random(RaidMode::Raid6);
    sim.fail_random_data();
    sim.fail_random_data();
    assert_eq!(sim.state(), RaidState::Degraded);
    assert_eq!(sim.failed().len(), 2);
    assert_sim_equal(&sim, &data);
    let data = write_random(&mut sim);
    assert_sim_equal(&sim, &data);
}

#[test]
fn raid6_unformatted_still_degraded() {
    let (mut sim, _) = init_random(RaidMode::Raid6);
    assert_eq!(sim.state(), RaidState::Okay);
    sim.fail_random();
    sim.fail_random();
    assert_eq!(sim.state(), RaidState::Degraded);
    sim.replace_failed_drives();
    assert_eq!(sim.unformatted().len(), 2);
    assert_eq!(sim.state(), RaidState::Degraded);
}

#[test]
fn raid6_field_sanity_single_writes() {
    let mut sim = RaidSim::new(RaidMode::Raid6, NUM_DRIVES, DRIVE_SIZE);
    sim.init().unwrap();
    for i in 0..DRIVE_SIZE {
        assert_eq!(sim.p_parity().byte_at(i), 0);
        assert_eq!(sim.q_parity().byte_at(i), 0);
    }
    // byte 0x01 on data drive 0: P[0] = 0x01, Q[0] = g^0 * 0x01 = 0x01
    sim.write(0, 0x01).unwrap();
    assert_eq!(sim.p_parity().byte_at(0), 0x01);
    assert_eq!(sim.q_parity().byte_at(0), 0x01);
    // byte 0x02 on data drive 1: Q[0] gains g^1 * 0x02 = 0x04
    sim.write(DRIVE_SIZE, 0x02).unwrap();
    assert_eq!(sim.p_parity().byte_at(0), 0x01 ^ 0x02);
    assert_eq!(sim.q_parity().byte_at(0), 0x01 ^ 0x04);
    assert_eq!(sim.read(0).unwrap(), 0x01);
    assert_eq!(sim.read(DRIVE_SIZE).unwrap(), 0x02);
}
