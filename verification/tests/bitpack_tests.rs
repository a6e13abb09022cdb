use bitpack::{fitss, fitsu, gets, getu, news, newu};

#[test]
fn it_works() {
    let result = 2 + 2;
    assert_eq!(result, 4);
}

#[test]
fn fitu_zero() {
    assert_eq!(fitsu(17, 0), false);
}

#[test]
fn fitu_23() {
    assert_eq!(fitsu(23, 5), true);
    assert_eq!(fitsu(23, 4), false);
}

#[test]
fn fitss_23() {
    assert_eq!(fitss(23, 6), true);
    assert_eq!(fitss(23, 5), false);
}

#[test]
fn getu_23() {
    assert_eq!(getu(23, 3, 2), 5 as u64);
    assert_eq!(getu(23, 3, 3), 2 as u64);
}

#[test]
fn gets_23() {
    assert_eq!(gets(23, 3, 2), -3 as i64);
    assert_eq!(gets(23, 3, 3), 2 as i64);
}

#[test]
fn newu_23() {
    assert_eq!(newu(23, 3, 3, 7).unwrap(), 63 as u64);
    assert_eq!(newu(23, 3, 3, 6).unwrap(), 55 as u64);
}

#[test]
fn news_23() {
    assert_eq!(news(23, 3, 3, 0).unwrap(), 7 as u64);
    assert_eq!(news(23, 3, 2, 3).unwrap(), 15 as u64);
}

#[test]
fn news_neg3() {
    assert_eq!(news(23, 4, 2, -3).unwrap(), 55 as u64);
}
