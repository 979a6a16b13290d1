use bale::format::crc::Crc;

#[test]
fn none_is_zero() {
    assert_eq!(Crc::none().to_u32(), 0);
    assert_eq!(Crc::none().get(), None);
}

#[test]
fn non_zero_get() {
    let crc = Crc::new(0xDEAD_BEEF);
    assert_eq!(crc.get(), Some(0xDEAD_BEEF));
    assert_eq!(crc.to_u32(), 0xDEAD_BEEF);
}

#[test]
fn compute_empty() {
    assert_eq!(Crc::compute(b""), Crc::none());
}

#[test]
fn compute_non_empty() {
    let crc = Crc::compute(b"Hello, World!");
    assert!(crc.get().is_some());
    assert_eq!(crc.to_u32(), crc32c::crc32c(b"Hello, World!"));
}

#[test]
fn append_matches_concatenated() {
    let a = b"Hello, ";
    let b = b"World!";
    let combined = [a.as_slice(), b.as_slice()].concat();

    let incremental = Crc::compute(a).append(b);
    let single_pass = Crc::compute(&combined);
    assert_eq!(incremental, single_pass);
}

#[test]
fn append_empty_is_noop() {
    let crc = Crc::compute(b"data");
    assert_eq!(crc.append(b""), crc);
}

#[test]
fn equality() {
    assert_eq!(Crc::new(42), Crc::new(42));
    assert_ne!(Crc::new(42), Crc::new(43));
    assert_eq!(Crc::none(), Crc::new(0));
}

#[test]
fn append_multi_segment_matches_single_pass() {
    let a = b"Hello, ";
    let b = b"beautiful ";
    let c = b"World!";
    let combined = [a.as_slice(), b.as_slice(), c.as_slice()].concat();

    let incremental = Crc::compute(a).append(b).append(c);
    let single_pass = Crc::compute(&combined);
    assert_eq!(incremental, single_pass);
}

#[test]
fn append_from_none_matches_compute() {
    let data = b"some input data";
    let from_none = Crc::none().append(data);
    let computed = Crc::compute(data);
    assert_eq!(from_none, computed);
}

#[test]
fn compute_deterministic() {
    let data = b"deterministic check";
    let first = Crc::compute(data);
    let second = Crc::compute(data);
    assert_eq!(first, second);
}

#[test]
fn compute_known_value() {
    // CRC-32C check value of "123456789".
    assert_eq!(Crc::compute(b"123456789").to_u32(), 0xE306_9283);
}
