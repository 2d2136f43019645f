use badlock::runner::{BadLockRunner, LockError};

fn pw(list: &[&str]) -> Vec<Vec<u8>> {
    list.iter().map(|p| p.as_bytes().to_vec()).collect()
}

fn sample() -> Vec<u8> {
    BadLockRunner::lock(b"a.txt", b"1234", pw(&["1", "2", "3", "4"]), b"hello world")
}

const RAW: [u8; 111] = [
    66, 97, 100, 76, 111, 99, 107, 0, 48, 48, 49, 49, 10, 97, 46, 116, 120, 116, 10, 49, 54, 10,
    49, 54, 10, 49, 54, 10, 49, 54, 10, 8, 183, 56, 21, 225, 185, 248, 95, 232, 245, 107, 31, 59,
    71, 51, 52, 199, 136, 140, 23, 62, 83, 130, 240, 93, 37, 51, 39, 28, 86, 11, 67, 59, 110, 221,
    18, 99, 239, 216, 55, 23, 70, 79, 117, 4, 95, 196, 21, 248, 128, 250, 93, 241, 65, 149, 157,
    247, 177, 24, 49, 24, 67, 87, 131, 175, 0, 34, 166, 71, 158, 233, 95, 57, 205, 154, 224, 203,
    163, 195, 152,
];

#[test]
fn runner_lock() {
    let content = b"hello world";
    let passwords = pw(&["1", "2", "3", "4"]);
    let bytes = BadLockRunner::lock(b"a.txt", b"1234", passwords, content);
    println!("{:?}", bytes);
    assert_eq!(bytes, RAW.to_vec());
}

#[test]
fn runner_unlock() {
    let raw = RAW.to_vec();
    for password in ["1", "2", "3", "4"] {
        let result = BadLockRunner::unlock(&raw, password.as_bytes());
        println!("Result of {}: {:?}", password, result);
        let (meta, content) = result.unwrap();
        assert_eq!(meta.filename, "a.txt");
        assert_eq!(meta.password_count, 4);
        assert_eq!(content, b"hello world".to_vec());
    }
}

#[test]
fn scenario_right_and_wrong_password() {
    let c = sample();
    let (meta, content) = BadLockRunner::unlock(&c, b"3").unwrap();
    assert_eq!(meta.filename, "a.txt");
    assert_eq!(content, b"hello world".to_vec());
    assert_eq!(BadLockRunner::unlock(&c, b"9").unwrap_err(), LockError::InvalidPassword);
}

#[test]
fn round_trip_every_position() {
    let list = ["alpha", "beta", "gamma", "delta", "epsilon"];
    let content: Vec<u8> = (0..200u32).map(|i| (i * 7 % 256) as u8).collect();
    let c = BadLockRunner::lock(b"notes.md", b"shared", pw(&list), &content);
    for p in list {
        let (meta, got) = BadLockRunner::unlock(&c, p.as_bytes()).unwrap();
        assert_eq!(meta.filename, "notes.md");
        assert_eq!(meta.password_count, 5);
        assert_eq!(got, content);
    }
}

#[test]
fn round_trip_empty_filename_and_content() {
    let c = BadLockRunner::lock(b"", b"s", pw(&["only"]), b"");
    let (meta, got) = BadLockRunner::unlock(&c, b"only").unwrap();
    assert_eq!(meta.filename, "");
    assert_eq!(meta.password_count, 1);
    assert!(got.is_empty());
    assert_eq!(&c[..13], b"BadLock\x000000\n");
}

#[test]
fn seventeen_passwords_rejected() {
    let list: Vec<String> = (0..17).map(|i| format!("p{}", i)).collect();
    let refs: Vec<&str> = list.iter().map(|s| s.as_str()).collect();
    assert!(BadLockRunner::lock(b"f", b"s", pw(&refs), b"x").is_empty());
}

#[test]
fn sixteen_passwords_round_trip() {
    let list: Vec<String> = (0..16).map(|i| format!("p{}", i)).collect();
    let refs: Vec<&str> = list.iter().map(|s| s.as_str()).collect();
    let c = BadLockRunner::lock(b"f.bin", b"s", pw(&refs), b"payload");
    assert_eq!(&c[..13], b"BadLock\x001111\n");
    for p in &refs {
        let (meta, got) = BadLockRunner::unlock(&c, p.as_bytes()).unwrap();
        assert_eq!(meta.password_count, 16);
        assert_eq!(got, b"payload".to_vec());
    }
}

#[test]
fn no_password_no_container() {
    let c = BadLockRunner::lock(b"f", b"s", Vec::new(), b"x");
    assert!(c.is_empty());
    assert_eq!(BadLockRunner::unlock(&c, b"x").unwrap_err(), LockError::InvalidHeader);
}

#[test]
fn flipped_magic_byte_is_invalid_header() {
    let c = sample();
    for i in 0..8 {
        let mut bad = c.clone();
        bad[i] ^= 0x5a;
        assert_eq!(BadLockRunner::unlock(&bad, b"1").unwrap_err(), LockError::InvalidHeader);
    }
}

#[test]
fn truncated_header() {
    let c = sample();
    for k in 0..12 {
        assert_eq!(BadLockRunner::unlock(&c[..k], b"1").unwrap_err(), LockError::InvalidHeader);
    }
    for k in 12..14 {
        assert_eq!(BadLockRunner::unlock(&c[..k], b"1").unwrap_err(), LockError::LostFilename);
    }
}

#[test]
fn invalid_count_digits() {
    let c = b"BadLock\x0001x1\na\n16\n".to_vec();
    assert_eq!(BadLockRunner::unlock(&c, b"1").unwrap_err(), LockError::InvalidCount);
}

#[test]
fn filename_not_utf8_is_lost() {
    let c = b"BadLock\x000000\n\xff\xfe\n16\n".to_vec();
    assert_eq!(BadLockRunner::unlock(&c, b"1").unwrap_err(), LockError::LostFilename);
}

#[test]
fn missing_length_line() {
    let c = b"BadLock\x000001\na.txt\n16\n".to_vec();
    assert_eq!(BadLockRunner::unlock(&c, b"1").unwrap_err(), LockError::PasswordCountMismatch);
}

#[test]
fn bad_length_line() {
    let c = b"BadLock\x000000\na.txt\n1x\n".to_vec();
    assert_eq!(BadLockRunner::unlock(&c, b"1").unwrap_err(), LockError::PasswordLengthParseError);
    let big = b"BadLock\x000000\na.txt\n99999999999999999999999\n".to_vec();
    assert_eq!(BadLockRunner::unlock(&big, b"1").unwrap_err(), LockError::PasswordLengthParseError);
}

#[test]
fn entry_past_end_is_broken() {
    let c = b"BadLock\x000000\na.txt\n64\nshort".to_vec();
    assert_eq!(BadLockRunner::unlock(&c, b"1").unwrap_err(), LockError::Broken);
}

#[test]
fn corrupted_content_is_broken() {
    let mut c = sample();
    c.truncate(c.len() - 3);
    assert_eq!(BadLockRunner::unlock(&c, b"2").unwrap_err(), LockError::Broken);
}

#[test]
fn messages_are_distinct() {
    let all = [
        LockError::InvalidHeader,
        LockError::InvalidCount,
        LockError::LostFilename,
        LockError::PasswordCountMismatch,
        LockError::PasswordLengthParseError,
        LockError::Broken,
        LockError::InvalidPassword,
    ];
    for (i, a) in all.iter().enumerate() {
        for b in &all[i + 1..] {
            assert_ne!(a.message(), b.message());
        }
    }
    assert_eq!(LockError::InvalidPassword.message(), "Invalid password");
}
