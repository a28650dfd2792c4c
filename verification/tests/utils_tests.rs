use ad_ess::utils;

#[test]
fn cumsum_static() {
    let a = utils::cumsum(&[1, 1, 2, 3]);
    println!("{:?}", a);
    assert_eq!(a, vec![0, 1, 2, 4, 7]);
}

#[test]
fn differentiate_static() {
    let a = utils::differeniate(&[1, 1, 2, 3]);
    println!("{:?}", a);
    assert_eq!(a, vec![0, 1, 1]);
}
