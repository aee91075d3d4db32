use minesweeper::base::bignat::BigNat;
use minesweeper::base::binomial::choose_count;

fn text(n: &BigNat) -> String {
    n.to_decimal().into_iter().collect()
}

#[test]
fn bignat_small_values() {
    assert_eq!(BigNat::zero().to_u64(), Some(0));
    assert!(BigNat::zero().is_zero());
    assert!(!BigNat::from_u64(1).is_zero());
    assert_eq!(BigNat::from_u64(42).to_u64(), Some(42));
    assert_eq!(BigNat::from_usize(7).to_u64(), Some(7));
    assert_eq!(text(&BigNat::zero()), "0");
    assert_eq!(text(&BigNat::from_u64(1205)), "1205");
}

#[test]
fn bignat_grows_past_the_machine_word() {
    let top = BigNat::from_u64(u64::MAX);
    let next = top.add(&BigNat::from_u64(1));
    assert_eq!(next.to_u64(), None);
    assert_eq!(text(&next), "18446744073709551616");
    assert_eq!(next.sub(&BigNat::from_u64(1)).to_u64(), Some(u64::MAX));
    let square = next.mul(&next);
    assert_eq!(text(&square), "340282366920938463463374607431768211456");
    assert_eq!(text(&top.mul_small(u64::MAX)), "340282366920938463426481119284349108225");
    let (q, r) = square.div_small(10);
    assert_eq!(text(&q), "34028236692093846346337460743176821145");
    assert_eq!(r, 6);
}

#[test]
fn bignat_compares_by_value() {
    let a = BigNat::from_u64(5);
    let b = BigNat::from_u64(u64::MAX).add(&BigNat::from_u64(5));
    let c = b.sub(&BigNat::from_u64(u64::MAX));
    assert!(a.lt(&b));
    assert!(!b.lt(&a));
    assert!(a.le(&c));
    assert!(a.same(&c));
    assert!(!a.same(&b));
    assert!(!a.lt(&c));
    assert!(a.clone().same(&a));
}

#[test]
fn binomial_coefficients() {
    assert_eq!(choose_count(0, 0).to_u64(), Some(1));
    assert_eq!(choose_count(5, 0).to_u64(), Some(1));
    assert_eq!(choose_count(5, 5).to_u64(), Some(1));
    assert_eq!(choose_count(5, 6).to_u64(), Some(0));
    assert_eq!(choose_count(5, 2).to_u64(), Some(10));
    assert_eq!(choose_count(8, 4).to_u64(), Some(70));
    assert_eq!(choose_count(25, 5).to_u64(), Some(53130));
    assert_eq!(choose_count(60, 30).to_u64(), Some(118264581564861424));
    assert_eq!(text(&choose_count(100, 50)), "100891344545564193334812497256");
}
