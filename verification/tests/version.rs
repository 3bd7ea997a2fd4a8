use lsm_tree::version::Version;

#[test]
fn version_serialize() {
    let mut bytes = vec![];
    Version::V0.write_file_header(&mut bytes);
    assert_eq!(bytes, &[b'L', b'S', b'M', 0, 0]);
}

#[test]
fn version_deserialize_success() {
    let version = Version::parse_file_header(&[b'L', b'S', b'M', 0, 0]);
    assert_eq!(version, Some(Version::V0));
}

#[test]
fn version_deserialize_fail() {
    let version = Version::parse_file_header(&[b'L', b'S', b'X', 0, 0]);
    assert!(version.is_none());
}

#[test]
fn version_serde_round_trip() {
    let mut buf = vec![];
    Version::V0.write_file_header(&mut buf);

    let version = Version::parse_file_header(&buf);
    assert_eq!(version, Some(Version::V0));
}

#[test]
fn version_len() {
    let mut buf = vec![];
    let size = Version::V0.write_file_header(&mut buf);
    assert_eq!(Version::len() as usize, size);
}
