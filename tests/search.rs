use badlock::runner::{recover_secret, BadLockRunner};

fn container() -> Vec<u8> {
    let passwords = vec![b"1".to_vec(), b"2".to_vec(), b"3".to_vec(), b"4".to_vec()];
    BadLockRunner::lock(b"a.txt", b"1234", passwords, b"hello world")
}

// Header (13) + "a.txt\n" (6) + four "16\n" lines (12): entries start at 31.
const ENTRIES: usize = 31;

#[test]
fn attempts_stop_at_the_match() {
    let c = container();
    let lens = vec![16usize, 16, 16, 16];
    for (k, p) in ["1", "2", "3", "4"].iter().enumerate() {
        let s = recover_secret(&c, ENTRIES, &lens, p.as_bytes()).unwrap();
        assert_eq!(s.secret, Some(b"1234".to_vec()));
        assert_eq!(s.attempts, k + 1);
        assert_eq!(s.end, ENTRIES + 64);
    }
}

#[test]
fn attempts_cover_every_entry_when_none_opens() {
    let c = container();
    let lens = vec![16usize, 16, 16, 16];
    let s = recover_secret(&c, ENTRIES, &lens, b"9").unwrap();
    assert_eq!(s.secret, None);
    assert_eq!(s.attempts, 4);
}
