use raidsim::drive::{Drive, DriveError};

#[test]
fn drive_read_write() {
    let mut d = Drive::empty(4);
    assert_eq!(d.size(), 4);
    assert!(!d.has_failed());
    assert!(!d.is_formatted());
    d.write(1, 7).unwrap();
    assert_eq!(d.read(1).unwrap(), 7);
    assert_eq!(d.byte_at(1), 7);
    assert_eq!(d.compute_cksum(), 7);
    d.fail();
    assert_eq!(d.read(0), Err(DriveError::Failed));
    assert_eq!(d.write(0, 1), Err(DriveError::Failed));
}

#[test]
fn drive_cksum_tracks_data() {
    let mut d = Drive::from_data(vec![1, 2, 3]);
    assert_eq!(d.cksum(), 1 ^ 2 ^ 3);
    let before = d.cksum();
    d.corrupt();
    assert_eq!(d.byte_at(0), 2);
    assert_eq!(d.byte_at(1), 3);
    assert_eq!(d.byte_at(2), 4);
    assert_eq!(d.cksum(), before);
    assert_ne!(d.compute_cksum(), before);
}

#[test]
fn drive_random_has_requested_size() {
    let d = Drive::random(5);
    assert_eq!(d.size(), 5);
    assert_eq!(d.cksum(), d.compute_cksum());
}

#[test]
fn drive_xor_and_erase() {
    let a = Drive::from_data(vec![0xf0, 0x0f]);
    let b = Drive::from_data(vec![0xff, 0xff]);
    let c = a.xor_drive(&b);
    assert_eq!(c.byte_at(0), 0x0f);
    assert_eq!(c.byte_at(1), 0xf0);
    let mut e = Drive::from_data(vec![9, 9]);
    e.erase();
    assert_eq!(e.byte_at(0), 0);
    assert_eq!(e.byte_at(1), 0);
}

#[test]
fn drive_slices_and_set_data() {
    let mut d = Drive::empty(6);
    d.write_slice(2, &vec![5, 6, 7]).unwrap();
    assert_eq!(d.read_slice(2, 3).unwrap(), vec![5, 6, 7]);
    assert_eq!(d.read_slice(0, 2).unwrap(), vec![0, 0]);
    d.set_data(vec![1, 1, 1, 1, 1, 1]).unwrap();
    assert_eq!(d.byte_at(5), 1);
}
