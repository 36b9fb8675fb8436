use blobber::math::angle::{cos_milli, sin_milli};

#[test]
fn test_cos_exact_points() {
    // exact at zero, the quarter turns and the half turn
    assert_eq!(cos_milli(0), 1000);
    assert_eq!(cos_milli(1570), 0);
    assert_eq!(cos_milli(-1570), 0);
    assert_eq!(cos_milli(3141), -1000);
    assert_eq!(cos_milli(-3141), -1000);
}

#[test]
fn test_sin_exact_points() {
    assert_eq!(sin_milli(0), 0);
    assert_eq!(sin_milli(1570), 1000);
    // the negative quarter turn folds to one milliradian short of the half
    // turn, so the approximation lands one thousandth under the exact value
    assert_eq!(sin_milli(-1570), -999);
}

#[test]
fn test_periodic_and_bounded() {
    // one full turn is 6282 milliradians here (twice the stored half turn)
    assert_eq!(cos_milli(6282), cos_milli(0));
    assert_eq!(cos_milli(6282 * 1000 + 123), cos_milli(123));
    for theta in [-5000i64, -1234, -1, 0, 1, 777, 3141, 9999] {
        let c = cos_milli(theta);
        let s = sin_milli(theta);
        assert!(-1000 <= c && c <= 1000);
        assert!(-1000 <= s && s <= 1000);
    }
}
