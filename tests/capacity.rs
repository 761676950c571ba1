use capsize::{Bytes, Capacity};

#[test]
fn test_bytes() {
    assert_eq!(1.bytes(), 1);
}

#[test]
fn test_kilobytes() {
    assert_eq!(1.kilobytes(), 1024)
}

#[test]
fn test_megabytes() {
    assert_eq!(1.megabytes(), 1048576)
}

#[test]
fn test_gigabytes() {
    assert_eq!(1.gigabytes(), 1073741824)
}

#[test]
fn test_terabytes() {
    assert_eq!(1.terabytes(), 1099511627776)
}

#[test]
fn test_petabytes() {
    assert_eq!(1.petabytes(), 1125899906842624)
}

#[test]
fn test_exabytes() {
    assert_eq!(1.exabytes(), 1152921504606846976)
}

#[test]
fn test_kilobytes_capactity() {
    let half = 1.kilobytes() / 2;
    assert_eq!((1.kilobytes() + half).capacity(), "1.5K".to_owned())
}

#[test]
fn test_megabytes_capactity() {
    let half = 1.megabytes() / 2;
    assert_eq!((1.megabytes() + half).capacity(), "1.5M".to_owned())
}

#[test]
fn test_gigabytes_capactity() {
    let half = 1.gigabytes() / 2;
    assert_eq!((1.gigabytes() + half).capacity(), "1.5G".to_owned())
}

#[test]
fn test_terabytes_capactity() {
    let half = 1.terabytes() / 2;
    assert_eq!((1.terabytes() + half).capacity(), "1.5T".to_owned())
}

#[test]
fn test_petabytes_capactity() {
    let half = 1.petabytes() / 2;
    assert_eq!((1.petabytes() + half).capacity(), "1.5P".to_owned())
}

#[test]
fn test_exabytes_capactity() {
    let half = 1.exabytes() / 2;
    assert_eq!((1.exabytes() + half).capacity(), "1.5E".to_owned())
}

#[test]
fn test_kilobytes_parse() {
    let cap: String = 1.kilobytes().capacity();
    let bytes = cap.parse::<Bytes>().ok().unwrap();
    assert_eq!(bytes.capacity(), cap)
}
