//! Multi-password file locking: a self-describing container that holds one
//! payload encrypted under a shared secret, plus one wrapped copy of that secret
//! per password, so that any single password reopens the payload.

pub mod cipher;
pub mod format;
pub mod laws;
pub mod runner;
pub mod single;

use crate::runner::{error_message, lock_output, unlock_spec, BadLockRunner};
use vstd::prelude::*;
use vstd::slice::slice_to_vec;
use vstd::string::StringSliceAdditionalSpecFns;
use vstd::utf8::{decode_utf8, encode_utf8};

verus! {

/// What opening a container yields, as handed to a host runtime.
pub struct UnlockResult {
    filename: String,
    pub password_count: u8,
    content: Vec<u8>,
}

impl UnlockResult {
    /// The recovered filename, as text.
    pub closed spec fn filename_view(&self) -> Seq<char> {
        self.filename@
    }

    /// The number of passwords the container was locked with.
    pub closed spec fn count_view(&self) -> u8 {
        self.password_count
    }

    /// The recovered content.
    pub closed spec fn content_view(&self) -> Seq<u8> {
        self.content@
    }

    pub fn filename(&self) -> (r: String)
        ensures
            r@ == self.filename_view(),
    {
        self.filename.clone()
    }

    pub fn content(&self) -> (r: Vec<u8>)
        ensures
            r@ == self.content_view(),
    {
        slice_to_vec(self.content.as_slice())
    }
}

/// The UTF-8 bytes of each string.
pub open spec fn utf8_views(v: Seq<String>) -> Seq<Seq<u8>> {
    v.map_values(|s: String| encode_utf8(s@))
}

/// The text-facing entry points: strings in, bytes out.
pub struct BadLockWasm;

impl BadLockWasm {
    /// Locks `content` under each of `passwords`; see `BadLockRunner::lock`.
    pub fn lock(filename: &str, secret: &str, passwords: Vec<String>, content: Vec<u8>) -> (r:
        Vec<u8>)
        ensures
            lock_output(
                r@,
                filename.spec_bytes(),
                secret.spec_bytes(),
                utf8_views(passwords@),
                content@,
            ),
    {
        let mut keys: Vec<Vec<u8>> = Vec::new();
        let mut i: usize = 0;
        while i < passwords.len()
            invariant
                i <= passwords@.len(),
                crate::runner::views(keys@) =~= utf8_views(passwords@).take(i as int),
            decreases passwords@.len() - i,
        {
            let text = passwords[i].as_str();
            let k = slice_to_vec(text.as_bytes());
            keys.push(k);
            proof {
                assert(utf8_views(passwords@)[i as int] == encode_utf8(passwords@[i as int]@));
                assert(utf8_views(passwords@).take(i + 1) =~= utf8_views(passwords@).take(
                    i as int,
                ).push(k@));
            }
            i = i + 1;
        }
        assert(utf8_views(passwords@).take(i as int) =~= utf8_views(passwords@));
        BadLockRunner::lock(filename.as_bytes(), secret.as_bytes(), keys, content.as_slice())
    }

    /// Opens `content` with `password`; a failure comes back as its message.
    pub fn unlock(password: &str, content: Vec<u8>) -> (r: Result<UnlockResult, String>)
        ensures
            match r {
                Ok(u) => unlock_spec(content@, password.spec_bytes()) matches Ok((name, n, c))
                    && u.filename_view() == decode_utf8(name) && u.count_view() as nat == n
                    && u.content_view() == c,
                Err(m) => unlock_spec(content@, password.spec_bytes()) matches Err(e) && m@
                    == error_message(e),
            },
    {
        match BadLockRunner::unlock(content.as_slice(), password.as_bytes()) {
            Ok((meta, bytes)) => Ok(
                UnlockResult {
                    filename: meta.filename,
                    password_count: meta.password_count,
                    content: bytes,
                },
            ),
            Err(err) => Err(err.message().to_owned()),
        }
    }
}

} // verus!
