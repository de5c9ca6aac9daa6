use raidsim::generator::table::MTable;
use raidsim::generator::{FromPower, Gen};

#[test]
fn test_1d() {
    // {02}^8 = {1d}
    let table = raidsim::table::MTable::new();
    let should_be_1d = table.applyn(1, 8);
    assert_eq!(should_be_1d, 29);
    raidsim::generator::test_1d();
    assert_eq!(Gen::from_power(8i32).value(), 29);
}

#[test]
fn mtable_apply_doubles_small_bytes() {
    let table = raidsim::table::MTable::new();
    assert_eq!(table.apply(1), 2);
    assert_eq!(table.apply(0x53), 0xa6);
    assert_eq!(table.apply(0x80), 0x1d);
    assert_eq!(table.applyn(7, 0), 7);
}

#[test]
fn raid6_two_normal_corrupt() {}

#[test]
fn field_zero_annihilates() {
    raidsim::generator::test_zero();
    assert_eq!(Gen::zero().mul(Gen::from(17)), Gen::zero());
}

#[test]
fn field_one_is_g0() {
    raidsim::generator::test_one();
    assert_eq!(Gen::from(1).power(), 0);
    assert_eq!(Gen::from(2).power(), 1);
}

#[test]
fn field_inverses() {
    raidsim::generator::test_inverses();
    for i in 0..255i32 {
        assert_eq!(Gen::from_power(i).mul(Gen::from_power(-i)), Gen::from_power(0i32));
    }
}

#[test]
fn field_byte_round_trip() {
    for v in 1..=255u8 {
        assert_eq!(Gen::from(v).value(), v);
    }
    assert_eq!(Gen::from(0), Gen::zero());
}

#[test]
fn field_division_inverts_multiplication() {
    let a = Gen::from(0x53);
    let b = Gen::from(0xca);
    let prod = a.mul(b);
    assert_eq!(prod.div(b), a);
    assert_eq!(prod.div(a), b);
}

#[test]
fn field_addition_is_xor() {
    let a = Gen::from(0x53);
    assert_eq!(a.add_byte(0xca).value(), 0x53 ^ 0xca);
    assert_eq!(a.xor_byte(0xca), 0x53 ^ 0xca);
}

#[test]
fn mtable_tables_invert_each_other() {
    let t = MTable::new();
    assert_eq!(t.n_to_gn.len(), 255);
    assert_eq!(t.gn_to_n.len(), 256);
    assert_eq!(t.n_to_gn[0], 1);
    assert_eq!(t.n_to_gn[8], 0x1d);
    for n in 0..255usize {
        assert_eq!(t.gn_to_n[t.n_to_gn[n] as usize] as usize, n);
    }
    for v in 1..=255usize {
        assert_eq!(t.n_to_gn[t.gn_to_n[v] as usize] as usize, v);
    }
}

#[test]
fn nth_bit_picks_bits() {
    assert_eq!(raidsim::generator::table::nth_bit(0b1000_0001, 7), 1);
    assert_eq!(raidsim::generator::table::nth_bit(0b1000_0001, 0), 1);
    assert_eq!(raidsim::generator::table::nth_bit(0b1000_0001, 3), 0);
}
