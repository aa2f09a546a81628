use beaver_mpc::codec::FL;
use beaver_mpc::engine::{split_m, split_with, ShareError, PS};

fn ring_sum(v: &[u64]) -> u64 {
    v.iter().fold(0u64, |a, b| a.wrapping_add(*b))
}

#[test]
fn test_split_m() {
    assert_eq!(ring_sum(&split_m(8, 3)), 8);
}

#[test]
fn test_self_computation() {
    let mut ps = PS::init();
    ps.let_value("x".to_string(), 2);
    ps.let_value("x".to_string(), 2);
    assert_eq!(ps.mul("x".to_string(), &"x".to_string(), &"x".to_string()), Ok(()));
    assert_eq!(ps.decode(&"x".to_string()), Ok(4));
}

#[test]
fn split_with_three_parties_sums_to_value() {
    let shares = split_with(8, &vec![3, 10]);
    assert_eq!(shares, vec![3, 10, 8u64.wrapping_sub(13)]);
    assert_eq!(ring_sum(&shares), 8);
}

#[test]
fn split_with_one_party_is_the_value() {
    assert_eq!(split_with(42, &vec![]), vec![42]);
    assert_eq!(split_m(42, 1), vec![42]);
    assert_eq!(split_m(42, 0), Vec::<u64>::new());
}

#[test]
fn let_value_then_decode_three_parties() {
    let mut ps = PS::new(3).unwrap();
    ps.let_value_with_blinds("x".to_string(), 8, &vec![5, 7]);
    assert_eq!(ps.decode(&"x".to_string()), Ok(8));
    ps.let_value("y".to_string(), 123456789);
    assert_eq!(ps.decode(&"y".to_string()), Ok(123456789));
}

#[test]
fn one_party_reconstructs_unchanged() {
    let mut ps = PS::new(1).unwrap();
    ps.let_value("v".to_string(), 77);
    assert_eq!(ps.decode(&"v".to_string()), Ok(77));
}

#[test]
fn add_is_homomorphic() {
    let mut ps = PS::new(4).unwrap();
    ps.let_value("x".to_string(), 30);
    ps.let_value("y".to_string(), 12);
    assert_eq!(ps.add("z".to_string(), &"x".to_string(), &"y".to_string()), Ok(()));
    assert_eq!(ps.decode(&"z".to_string()), Ok(42));
}

#[test]
fn subtraction_wraps_in_the_ring() {
    let mut ps = PS::new(2).unwrap();
    ps.let_value("x".to_string(), 3);
    ps.let_value("y".to_string(), 5);
    assert_eq!(ps.self_subtraction("d".to_string(), &"x".to_string(), &"y".to_string()), Ok(()));
    assert_eq!(ps.decode(&"d".to_string()), Ok(u64::MAX - 1));
}

#[test]
fn beaver_triple_nine_six_gives_product() {
    let mut ps = PS::new(3).unwrap();
    ps.set_triple(9, 6);
    assert_eq!(ps.decode(&"c".to_string()), Ok(54));
    ps.let_value("x".to_string(), 3);
    ps.let_value("y".to_string(), 2);
    assert_eq!(ps.mul("z".to_string(), &"x".to_string(), &"y".to_string()), Ok(()));
    assert_eq!(ps.decode(&"z".to_string()), Ok(6));
    assert_eq!(ps.decode(&"sigma".to_string()), Ok(3u64.wrapping_sub(9)));
    assert_eq!(ps.decode(&"rho".to_string()), Ok(2u64.wrapping_sub(6)));
}

#[test]
fn mul_with_many_parties() {
    let mut ps = PS::init();
    ps.let_value("x".to_string(), 1000);
    ps.let_value("t".to_string(), 2);
    assert_eq!(ps.mul("z".to_string(), &"x".to_string(), &"t".to_string()), Ok(()));
    assert_eq!(ps.decode(&"z".to_string()), Ok(2000));
}

#[test]
fn mul_without_triple_is_missing_share() {
    let mut ps = PS::new(2).unwrap();
    ps.let_value("x".to_string(), 3);
    ps.let_value("y".to_string(), 4);
    assert_eq!(
        ps.mul("z".to_string(), &"x".to_string(), &"y".to_string()),
        Err(ShareError::MissingShare)
    );
}

#[test]
fn zero_parties_is_rejected() {
    assert!(matches!(PS::new(0), Err(ShareError::NoParties)));
}

#[test]
fn decode_and_add_of_missing_name_fail() {
    let mut ps = PS::new(2).unwrap();
    assert_eq!(ps.decode(&"nope".to_string()), Err(ShareError::MissingShare));
    ps.let_value("x".to_string(), 1);
    assert_eq!(
        ps.add("z".to_string(), &"x".to_string(), &"nope".to_string()),
        Err(ShareError::MissingShare)
    );
}

#[test]
fn remove_value_drops_every_share() {
    let mut ps = PS::new(3).unwrap();
    ps.let_value("x".to_string(), 9);
    ps.let_value("y".to_string(), 1);
    ps.remove_value(&"x".to_string());
    assert!(!ps.holds_all(&"x".to_string()));
    assert_eq!(ps.decode(&"x".to_string()), Err(ShareError::MissingShare));
    assert_eq!(ps.decode(&"y".to_string()), Ok(1));
}

#[test]
fn encoded_share_from_float_parts() {
    let f = FL::from_integer_decode(12582912, -20, -1);
    assert_eq!((f.v, f.p, f.z, f.s), (12582912, -20, 0, 1));
    let g = FL::from_integer_decode(8388608, 3, 1);
    assert_eq!((g.v, g.p, g.z, g.s), (8388608, 3, 0, 0));
    let h = FL::new(1, 2, 0, 1);
    assert_eq!(h.get_fl().p, 2);
}

#[test]
fn bit_helpers() {
    assert_eq!(FL::trunc(1000, 3), 125);
    assert_eq!(FL::trunc(7, 0), 7);
    assert_eq!(FL::lt(1, 2), 1);
    assert_eq!(FL::lt(2, 2), 0);
    assert_eq!(FL::or(0, 1), 1);
    assert_eq!(FL::xor(1, 1), 0);
}

#[test]
fn fl_mul_on_encoded_values() {
    let one = FL::new(8388608, 0, 0, 0);
    let minus_one = FL::new(8388608, 0, 0, 1);
    let r = FL::fl_mul(one, minus_one);
    assert_eq!((r.v, r.p, r.z, r.s), (8388608, 23, 0, 1));
    let zero = FL::new(0, 5, 1, 0);
    let q = FL::fl_mul(one, zero);
    assert_eq!((q.v, q.p, q.z, q.s), (0, 0, 1, 0));
}
