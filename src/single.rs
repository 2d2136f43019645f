//! The single-password format: a fixed 32-byte header (an agent line and the
//! original file's extension, padded with spaces) followed by the content
//! encrypted under the password.

use crate::cipher::{seal, unseal, ImageLockCore};
use crate::format::append;
use vstd::prelude::*;
use vstd::slice::slice_subrange;

verus! {

/// Length of the fixed header.
pub const HEADER_LEN: usize = 32;

/// Length of the agent line, and room left for the extension.
pub const AGENT_LEN: usize = 16;

/// The text of `bytes` with every invalid UTF-8 sequence replaced by U+FFFD.
pub uninterp spec fn lossy_text_of(bytes: Seq<u8>) -> Seq<char>;

/// `s` without its leading and trailing white space.
pub uninterp spec fn trimmed_of(s: Seq<char>) -> Seq<char>;

/// Relies on `String::from_utf8_lossy`: the text depends on the bytes alone.
#[verifier::external_body]
fn lossy_text(bytes: &[u8]) -> (r: String)
    ensures
        r@ == lossy_text_of(bytes@),
{
    String::from_utf8_lossy(bytes).into_owned()
}

/// Relies on `str::trim`: the result depends on the characters alone.
#[verifier::external_body]
fn trimmed(s: &str) -> (r: String)
    ensures
        r@ == trimmed_of(s@),
{
    s.trim().to_string()
}

/// The agent line, `BadLock(v0.0.1)` and a newline.
pub open spec fn agent() -> Seq<u8> {
    seq![66u8, 97u8, 100u8, 76u8, 111u8, 99u8, 107u8, 40u8, 118u8, 48u8, 46u8, 48u8, 46u8, 49u8, 41u8, 10u8]
}

/// `n` spaces.
pub open spec fn spaces(n: nat) -> Seq<u8> {
    Seq::new(n, |i: int| 32u8)
}

/// The header for a file of extension `ext`.
pub open spec fn header_of(ext: Seq<u8>) -> Seq<u8> {
    agent() + ext + spaces((AGENT_LEN - ext.len()) as nat)
}

/// Whether the first header half starts with the program name `BadLock`.
pub open spec fn has_tag(executor: Seq<u8>) -> bool {
    executor.len() >= 7 && executor.subrange(0, 7) == agent().subrange(0, 7)
}

/// A locked file's header, read back.
#[derive(Debug)]
pub struct UnlockResult {
    pub locker: String,
    pub extension: String,
    pub content: Vec<u8>,
}

/// Builds the 32-byte header: the agent line, then the extension padded with
/// spaces.
pub fn build_header(extension: &[u8]) -> (r: Vec<u8>)
    requires
        extension@.len() <= AGENT_LEN,
    ensures
        r@ == header_of(extension@),
        r@.len() == HEADER_LEN,
{
    let mut header: Vec<u8> = Vec::new();
    let line: [u8; 16] = [66, 97, 100, 76, 111, 99, 107, 40, 118, 48, 46, 48, 46, 49, 41, 10];
    append(&mut header, &line);
    assert(line@ =~= agent());
    append(&mut header, extension);
    let mut i: usize = extension.len();
    while i < AGENT_LEN
        invariant
            extension@.len() <= i <= AGENT_LEN,
            header@ == agent() + extension@ + spaces((i - extension@.len()) as nat),
        decreases AGENT_LEN - i,
    {
        header.push(32);
        i = i + 1;
        assert(header@ =~= agent() + extension@ + spaces((i - extension@.len()) as nat));
    }
    header
}

/// Reads a header: `None` unless it starts with `BadLock`; otherwise the agent
/// (the first 16 bytes) and the extension (the rest), as trimmed text.
pub fn parse_header(header: &[u8]) -> (r: Option<UnlockResult>)
    requires
        header@.len() >= AGENT_LEN,
    ensures
        match r {
            None => !has_tag(header@.subrange(0, 16)),
            Some(u) => has_tag(header@.subrange(0, 16)) && u.locker@ == trimmed_of(
                lossy_text_of(header@.subrange(0, 16)),
            ) && u.extension@ == trimmed_of(lossy_text_of(header@.subrange(16, header@.len() as int)))
                && u.content@.len() == 0,
        },
{
    let executor = slice_subrange(header, 0, AGENT_LEN);
    let extension = slice_subrange(header, AGENT_LEN, header.len());
    let tagged = executor[0] == 66 && executor[1] == 97 && executor[2] == 100 && executor[3] == 76
        && executor[4] == 111 && executor[5] == 99 && executor[6] == 107;
    proof {
        let t = executor@.subrange(0, 7);
        let a = agent().subrange(0, 7);
        if tagged {
            assert(t =~= a);
        } else if t == a {
            assert(t[0] == a[0] && t[1] == a[1] && t[2] == a[2] && t[3] == a[3]);
            assert(t[4] == a[4] && t[5] == a[5] && t[6] == a[6]);
        }
    }
    if tagged {
        let locker_text = lossy_text(executor);
        let extension_text = lossy_text(extension);
        Some(
            UnlockResult {
                locker: trimmed(locker_text.as_str()),
                extension: trimmed(extension_text.as_str()),
                content: Vec::new(),
            },
        )
    } else {
        None
    }
}

/// The single-password format's encoder and decoder.
pub struct BadLockImpl;

impl BadLockImpl {
    /// - `bytes` raw data to be locked
    /// - `password` password to lock the data
    /// - `extension` extension of original file (at most 16 bytes)
    pub fn lock(bytes: &[u8], password: &[u8], extension: &[u8]) -> (r: Vec<u8>)
        requires
            extension@.len() <= AGENT_LEN,
        ensures
            r@ == header_of(extension@) + seal(password@, bytes@),
    {
        let mut header = build_header(extension);
        let sealed = ImageLockCore::encrypt(bytes, password);
        append(&mut header, sealed.as_slice());
        header
    }

    /// - `bytes` raw data to be unlocked
    /// - `password` password to unlock the data
    pub fn unlock(bytes: &[u8], password: &[u8]) -> (r: Result<UnlockResult, String>)
        ensures
            bytes@.len() < HEADER_LEN || !has_tag(bytes@.subrange(0, 16)) ==> (r matches Err(m)
                && m@ == "Invalid BadLock file"@),
            bytes@.len() >= HEADER_LEN && has_tag(bytes@.subrange(0, 16)) ==> match unseal(
                password@,
                bytes@.subrange(32, bytes@.len() as int),
            ) {
                None => (r matches Err(m) && m@ == "Invalid password"@),
                Some(c) => (r matches Ok(u) && u.locker@ == trimmed_of(
                    lossy_text_of(bytes@.subrange(0, 16)),
                ) && u.extension@ == trimmed_of(lossy_text_of(bytes@.subrange(16, 32)))
                    && u.content@ == c),
            },
    {
        if bytes.len() < HEADER_LEN {
            return Err("Invalid BadLock file".to_owned());
        }
        let header = slice_subrange(bytes, 0, HEADER_LEN);
        let encrypted = slice_subrange(bytes, HEADER_LEN, bytes.len());
        assert(header@.subrange(0, 16) =~= bytes@.subrange(0, 16));
        assert(header@.subrange(16, header@.len() as int) =~= bytes@.subrange(16, 32));
        match parse_header(header) {
            Some(mut result) => match ImageLockCore::decrypt(encrypted, password) {
                Some(decrypted) => {
                    result.content = decrypted;
                    Ok(result)
                },
                None => Err("Invalid password".to_owned()),
            },
            None => Err("Invalid BadLock file".to_owned()),
        }
    }
}

} // verus!
