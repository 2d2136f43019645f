use badlock::single::{build_header, parse_header, BadLockImpl};

#[test]
fn impl_lock() {
    let encrypted = BadLockImpl::lock(b"hello world\nthis is line2", b"password", b"txt");
    println!("{:?}", encrypted);
    assert_eq!(encrypted.len(), 64);
    assert_eq!(&encrypted[..16], b"BadLock(v0.0.1)\n");
    assert_eq!(&encrypted[16..32], b"txt             ");
}

#[test]
fn impl_unlock() {
    let bytes = [66, 97, 100, 76, 111, 99, 107, 40, 118, 48, 46, 48, 46, 49, 41, 10, 116, 120, 116, 32, 32, 32, 32, 32, 32, 32, 32, 32, 32, 32, 32, 32, 223, 56, 252, 85, 169, 5, 1, 161, 64, 150, 20, 114, 64, 51, 1, 179, 216, 157, 245, 248, 114, 58, 41, 110, 125, 77, 219, 126, 201, 25, 113, 96];
    let decrypted = BadLockImpl::unlock(&bytes, b"password");
    println!("{:?}", decrypted);
    let r = decrypted.unwrap();
    assert_eq!(r.locker, "BadLock(v0.0.1)");
    assert_eq!(r.extension, "txt");
    assert_eq!(r.content, b"hello world\nthis is line2".to_vec());
}

#[test]
fn single_round_trip_and_errors() {
    let locked = BadLockImpl::lock(b"data", b"pw", b"bin");
    let r = BadLockImpl::unlock(&locked, b"pw").unwrap();
    assert_eq!(r.extension, "bin");
    assert_eq!(r.content, b"data".to_vec());
    assert_eq!(BadLockImpl::unlock(&locked[..31], b"pw").unwrap_err(), "Invalid BadLock file");
    let mut bad = locked.clone();
    bad[0] = b'X';
    assert_eq!(BadLockImpl::unlock(&bad, b"pw").unwrap_err(), "Invalid BadLock file");
}

#[test]
fn header_layout() {
    let h = build_header(b"jpeg");
    assert_eq!(h.len(), 32);
    assert_eq!(&h[16..], b"jpeg            ");
    let parsed = parse_header(&h).unwrap();
    assert_eq!(parsed.locker, "BadLock(v0.0.1)");
    assert_eq!(parsed.extension, "jpeg");
    assert!(parse_header(&[b'x'; 32]).is_none());
}
