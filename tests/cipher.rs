use badlock::cipher::ImageLockCore;

#[test]
fn encrypt() {
    let source = "hello world".as_bytes();
    let code = "1234567890123456".as_bytes();
    let encrypted = ImageLockCore::encrypt(source, code);
    println!("{:02x?}", encrypted);
    assert_eq!(
        encrypted,
        vec![0x0e, 0xe6, 0xa2, 0x36, 0x0d, 0x77, 0xd8, 0x46, 0x18, 0x15, 0xa3, 0xbf, 0x07, 0x12, 0x74, 0xb2]
    );
}

#[test]
fn decrypt() {
    let source = "hello world".as_bytes();
    let code = "1234567890123456".as_bytes();
    let encrypted = ImageLockCore::encrypt(source, code);
    let decrypted = ImageLockCore::decrypt(&encrypted, code);
    println!("{:02x?}", decrypted);
    assert_eq!(decrypted, Some(source.to_vec()));
}

#[test]
fn padding_adds_a_full_block_on_boundaries() {
    assert_eq!(ImageLockCore::encrypt(&[7u8; 16], b"k").len(), 32);
    assert_eq!(ImageLockCore::encrypt(b"", b"k").len(), 16);
}

#[test]
fn partial_block_does_not_decrypt() {
    assert_eq!(ImageLockCore::decrypt(&[1u8, 2, 3], b"k"), None);
    assert_eq!(ImageLockCore::decrypt(&[], b"k"), None);
}

#[test]
fn key_depends_on_password() {
    let a = ImageLockCore::encrypt(b"same text", b"one");
    let b = ImageLockCore::encrypt(b"same text", b"two");
    assert_ne!(a, b);
    assert_ne!(a, b"same text".to_vec());
}
