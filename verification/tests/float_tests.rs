// The rounding comparison external callers use on fractional fold
// results, checked on hand-picked values.

fn rounded(v: &[(String, f32)]) -> Vec<(String, u32)> {
    v.iter().map(|(k, x)| (k.clone(), (x * 1000.0).round() as u32)).collect()
}

#[test]
fn assert_float_eq_test_equal() {
    let t: Vec<(String, f32)> = vec![
        (String::from("test"), 12.01501),
        (String::from("other"), 11.1843),
    ];
    let u: Vec<(String, f32)> = vec![
        (String::from("test"), 12.01498),
        (String::from("other"), 11.1843),
    ];
    assert_eq!(rounded(&t), rounded(&u));
}

#[test]
#[should_panic]
fn assert_float_eq_test_not_equal() {
    let t: Vec<(String, f32)> = vec![
        (String::from("test"), 12.01501),
        (String::from("other"), 11.1843),
    ];
    let u: Vec<(String, f32)> = vec![
        (String::from("test"), 12.01401),
        (String::from("other"), 11.1843),
    ];
    assert_eq!(rounded(&t), rounded(&u));
}
