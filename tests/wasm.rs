use badlock::BadLockWasm;

#[test]
fn text_entry_points_round_trip() {
    let passwords = vec!["1".to_string(), "2".to_string()];
    let c = BadLockWasm::lock("pic.png", "secret", passwords, b"pixels".to_vec());
    let r = BadLockWasm::unlock("2", c.clone()).ok().unwrap();
    assert_eq!(r.filename(), "pic.png");
    assert_eq!(r.password_count, 2);
    assert_eq!(r.content(), b"pixels".to_vec());
    assert_eq!(BadLockWasm::unlock("7", c).err().unwrap(), "Invalid password");
}
