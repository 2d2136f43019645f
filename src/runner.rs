//! The multi-password container: the encoder, the decoder, and the spec
//! functions that say byte for byte what each of them produces or accepts.

use crate::cipher::{seal, unseal, ImageLockCore};
use crate::format::{
    append, bits_value, concat, header_line, is_bits, is_digits, digits_value,
    length_line, length_lines, line_pieces, magic, next_line, parse_decimal, push_decimal, read_line, MAX_PASSWORDS, NEWLINE,
};
use vstd::prelude::*;
use vstd::slice::slice_subrange;
use vstd::string::StringSliceAdditionalSpecFns;
use vstd::utf8::{decode_utf8, encode_utf8_decode_utf8, valid_utf8};

verus! {

/// Why a container could not be opened.
#[derive(Debug, Clone, Copy, PartialEq, Eq)]
pub enum LockError {
    /// The first line is missing, is not 12 bytes long, or does not start with the tag.
    InvalidHeader,
    /// The four count characters are not binary digits.
    InvalidCount,
    /// The filename line is missing or is not UTF-8.
    LostFilename,
    /// Fewer length lines than the header announces.
    PasswordCountMismatch,
    /// A length line is not a decimal number that fits in `usize`.
    PasswordLengthParseError,
    /// The entries run past the end, or the recovered secret does not open the content.
    Broken,
    /// No entry opens under the given password.
    InvalidPassword,
}

impl LockError {
    /// A distinct, stable message for each kind.
    pub fn message(&self) -> (r: &'static str)
        ensures
            r@ == error_message(*self),
    {
        match self {
            LockError::InvalidHeader => "Invalid Magic Number",
            LockError::InvalidCount => "Invalid Password Count",
            LockError::LostFilename => "Original Filename Lost",
            LockError::PasswordCountMismatch => "Password Count Mismatch",
            LockError::PasswordLengthParseError => "Password Length Parse Error",
            LockError::Broken => "Broken BadLock file",
            LockError::InvalidPassword => "Invalid password",
        }
    }
}

/// The message of each error kind.
pub open spec fn error_message(e: LockError) -> Seq<char> {
    match e {
        LockError::InvalidHeader => "Invalid Magic Number"@,
        LockError::InvalidCount => "Invalid Password Count"@,
        LockError::LostFilename => "Original Filename Lost"@,
        LockError::PasswordCountMismatch => "Password Count Mismatch"@,
        LockError::PasswordLengthParseError => "Password Length Parse Error"@,
        LockError::Broken => "Broken BadLock file"@,
        LockError::InvalidPassword => "Invalid password"@,
    }
}

/// What the decoder learns from the container besides the content.
#[derive(Debug)]
pub struct BadLockMeta {
    /// original filename
    pub filename: String,
    /// number of passwords used to lock the file (1-16)
    pub password_count: u8,
}

/// Where the search for the secret ended.
#[derive(Debug)]
pub struct SecretSearch {
    /// The secret, if some entry opened under the password.
    pub secret: Option<Vec<u8>>,
    /// Where the entries end and the encrypted content begins.
    pub end: usize,
    /// How many entries were passed to the decryption primitive.
    pub attempts: usize,
}

/// The byte strings held by a list of byte vectors.
pub open spec fn views(v: Seq<Vec<u8>>) -> Seq<Seq<u8>> {
    v.map_values(|x: Vec<u8>| x@)
}

/// The entries of a container: the secret sealed under each password in turn.
pub open spec fn wrapped(passwords: Seq<Seq<u8>>, secret: Seq<u8>) -> Seq<Seq<u8>> {
    passwords.map_values(|p: Seq<u8>| seal(p, secret))
}

/// The length of each blob, as the length lines record it.
pub open spec fn lengths_of(blobs: Seq<Seq<u8>>) -> Seq<usize> {
    blobs.map_values(|b: Seq<u8>| b.len() as usize)
}

/// Whether a container can hold `n` passwords.
pub open spec fn count_ok(n: nat) -> bool {
    1 <= n <= MAX_PASSWORDS
}

/// The container that locks `content` named `filename` under `passwords`; empty
/// when there is no password or more than sixteen.
pub open spec fn lock_spec(
    filename: Seq<u8>,
    secret: Seq<u8>,
    passwords: Seq<Seq<u8>>,
    content: Seq<u8>,
) -> Seq<u8> {
    if !count_ok(passwords.len()) {
        seq![]
    } else {
        let w = wrapped(passwords, secret);
        header_line(passwords.len()) + filename + seq![NEWLINE] + length_lines(w) + concat(w)
            + seal(secret, content)
    }
}

/// Each entry opens under its own password to the secret, and the content
/// opens under the secret.
pub open spec fn reopens(
    secret: Seq<u8>,
    passwords: Seq<Seq<u8>>,
    content: Seq<u8>,
) -> bool {
    &&& forall|j: int|
        0 <= j < passwords.len() ==> #[trigger] unseal(passwords[j], seal(passwords[j], secret))
            == Some(secret)
    &&& unseal(secret, seal(secret, content)) == Some(content)
}

/// `bytes` is what `BadLockRunner::lock` returns for these inputs.
pub open spec fn lock_output(
    bytes: Seq<u8>,
    filename: Seq<u8>,
    secret: Seq<u8>,
    passwords: Seq<Seq<u8>>,
    content: Seq<u8>,
) -> bool {
    &&& bytes == lock_spec(filename, secret, passwords, content)
    &&& bytes.len() <= usize::MAX
    &&& count_ok(passwords.len()) ==> reopens(secret, passwords, content)
}

/// Header stage: the password count and where the filename line starts.
pub open spec fn header_spec(b: Seq<u8>) -> Result<(nat, int), LockError> {
    match next_line(b, 0) {
        None => Err(LockError::InvalidHeader),
        Some((l, next)) => if l.len() != 12 || l.subrange(0, 8) != magic() {
            Err(LockError::InvalidHeader)
        } else if !is_bits(l.subrange(8, 12)) {
            Err(LockError::InvalidCount)
        } else {
            Ok((bits_value(l.subrange(8, 12)) + 1, next))
        },
    }
}

/// Filename stage: the filename's bytes and where the length lines start.
pub open spec fn filename_spec(b: Seq<u8>, pos: int) -> Result<(Seq<u8>, int), LockError> {
    match next_line(b, pos) {
        None => Err(LockError::LostFilename),
        Some((l, next)) => if valid_utf8(l) {
            Ok((l, next))
        } else {
            Err(LockError::LostFilename)
        },
    }
}

/// Length-table stage: `n` more length lines, appended to `acc`, and where the
/// entries start.
pub open spec fn lengths_spec(b: Seq<u8>, pos: int, n: nat, acc: Seq<usize>) -> Result<
    (Seq<usize>, int),
    LockError,
>
    decreases n,
{
    if n == 0 {
        Ok((acc, pos))
    } else {
        match next_line(b, pos) {
            None => Err(LockError::PasswordCountMismatch),
            Some((l, next)) => if is_digits(l) && digits_value(l) <= usize::MAX {
                lengths_spec(b, next, (n - 1) as nat, acc.push(digits_value(l) as usize))
            } else {
                Err(LockError::PasswordLengthParseError)
            },
        }
    }
}

/// Secret-recovery stage over the entries of lengths `lens` from `pos`: once a
/// secret is found the remaining entries are only skipped; `tries` counts the
/// entries handed to the decryption primitive.
pub open spec fn search_spec(
    b: Seq<u8>,
    pos: int,
    lens: Seq<usize>,
    found: Option<Seq<u8>>,
    tries: nat,
    password: Seq<u8>,
) -> Result<(Option<Seq<u8>>, int, nat), LockError>
    decreases lens.len(),
{
    if lens.len() == 0 {
        Ok((found, pos, tries))
    } else if pos + lens[0] > b.len() {
        Err(LockError::Broken)
    } else if found is Some {
        search_spec(b, pos + lens[0], lens.drop_first(), found, tries, password)
    } else {
        search_spec(
            b,
            pos + lens[0],
            lens.drop_first(),
            unseal(password, b.subrange(pos, pos + lens[0])),
            tries + 1,
            password,
        )
    }
}

/// What decoding `b` with `password` yields: the filename's bytes, the password
/// count and the content, or the first error met.
pub open spec fn unlock_spec(b: Seq<u8>, password: Seq<u8>) -> Result<
    (Seq<u8>, nat, Seq<u8>),
    LockError,
> {
    match header_spec(b) {
        Err(e) => Err(e),
        Ok((count, pos1)) => match filename_spec(b, pos1) {
            Err(e) => Err(e),
            Ok((name, pos2)) => match lengths_spec(b, pos2, count, seq![]) {
                Err(e) => Err(e),
                Ok((lens, pos3)) => match search_spec(b, pos3, lens, None, 0, password) {
                    Err(e) => Err(e),
                    Ok((found, pos4, _)) => match found {
                        None => Err(LockError::InvalidPassword),
                        Some(s) => match unseal(s, b.subrange(pos4, b.len() as int)) {
                            None => Err(LockError::Broken),
                            Some(c) => Ok((name, count, c)),
                        },
                    },
                },
            },
        },
    }
}

/// Relies on `std::str::from_utf8`: it succeeds exactly on valid UTF-8, and the
/// string then holds the same bytes.
#[verifier::external_body]
fn utf8_str(v: &[u8]) -> (r: Option<&str>)
    ensures
        r is Some <==> valid_utf8(v@),
        r matches Some(s) ==> s.spec_bytes() == v@,
{
    std::str::from_utf8(v).ok()
}

/// Header stage, run on `b`.
fn read_header(b: &[u8]) -> (r: Result<(u8, usize), LockError>)
    ensures
        match r {
            Ok((n, next)) => header_spec(b@) == Ok::<(nat, int), LockError>((n as nat, next as int))
                && next <= b@.len(),
            Err(e) => header_spec(b@) == Err::<(nat, int), LockError>(e),
        },
{
    let (e, next) = match read_line(b, 0) {
        None => return Err(LockError::InvalidHeader),
        Some(x) => x,
    };
    if e != 12 {
        return Err(LockError::InvalidHeader);
    }
    let ok_magic = b[0] == 66 && b[1] == 97 && b[2] == 100 && b[3] == 76 && b[4] == 111 && b[5]
        == 99 && b[6] == 107 && b[7] == 0;
    proof {
        let l = b@.subrange(0, 8);
        if ok_magic {
            assert(l =~= magic());
        } else if l == magic() {
            assert(l[0] == magic()[0] && l[1] == magic()[1] && l[2] == magic()[2] && l[3]
                == magic()[3]);
            assert(l[4] == magic()[4] && l[5] == magic()[5] && l[6] == magic()[6] && l[7]
                == magic()[7]);
        }
        assert(b@.subrange(0, 12).subrange(0, 8) =~= l);
    }
    if !ok_magic {
        return Err(LockError::InvalidHeader);
    }
    let (c0, c1, c2, c3) = (b[8], b[9], b[10], b[11]);
    let ok_bits = (c0 == 48 || c0 == 49) && (c1 == 48 || c1 == 49) && (c2 == 48 || c2 == 49) && (
    c3 == 48 || c3 == 49);
    proof {
        let l = b@.subrange(0, 12).subrange(8, 12);
        assert(l[0] == c0 && l[1] == c1 && l[2] == c2 && l[3] == c3);
        if ok_bits {
            assert forall|i: int| 0 <= i < 4 implies #[trigger] l[i] == 48u8 || l[i] == 49u8 by {
                if i == 0 {
                } else if i == 1 {
                } else if i == 2 {
                } else {
                }
            }
        }
    }
    if !ok_bits {
        return Err(LockError::InvalidCount);
    }
    let v: u8 = (c0 - 48) * 8 + (c1 - 48) * 4 + (c2 - 48) * 2 + (c3 - 48);
    Ok((v + 1, next))
}

/// Filename stage, run from `pos`.
fn read_filename(b: &[u8], pos: usize) -> (r: Result<(String, usize), LockError>)
    ensures
        match r {
            Ok((name, next)) => filename_spec(b@, pos as int) matches Ok((l, q)) && q == next as int
                && name@ == decode_utf8(l) && next <= b@.len(),
            Err(e) => filename_spec(b@, pos as int) == Err::<(Seq<u8>, int), LockError>(e),
        },
{
    let (e, next) = match read_line(b, pos) {
        None => return Err(LockError::LostFilename),
        Some(x) => x,
    };
    let line = slice_subrange(b, pos, e);
    match utf8_str(line) {
        None => Err(LockError::LostFilename),
        Some(s) => {
            proof {
                encode_utf8_decode_utf8(s@);
            }
            Ok((s.to_owned(), next))
        },
    }
}

/// Length-table stage: `n` length lines from `pos`.
fn read_lengths(b: &[u8], pos: usize, n: u8) -> (r: Result<(Vec<usize>, usize), LockError>)
    requires
        pos <= b@.len(),
    ensures
        r matches Ok((_, next)) ==> next <= b@.len(),
        match r {
            Ok((lens, next)) => lengths_spec(b@, pos as int, n as nat, seq![]) == Ok::<
                (Seq<usize>, int),
                LockError,
            >((lens@, next as int)),
            Err(e) => lengths_spec(b@, pos as int, n as nat, seq![]) == Err::<
                (Seq<usize>, int),
                LockError,
            >(e),
        },
{
    let mut lens: Vec<usize> = Vec::new();
    let mut cur: usize = pos;
    let mut i: u8 = 0;
    while i < n
        invariant
            i <= n,
            cur <= b@.len(),
            lengths_spec(b@, pos as int, n as nat, seq![]) == lengths_spec(
                b@,
                cur as int,
                (n - i) as nat,
                lens@,
            ),
        decreases n - i,
    {
        let (e, next) = match read_line(b, cur) {
            None => return Err(LockError::PasswordCountMismatch),
            Some(x) => x,
        };
        match parse_decimal(slice_subrange(b, cur, e)) {
            None => return Err(LockError::PasswordLengthParseError),
            Some(v) => {
                lens.push(v);
            },
        }
        cur = next;
        i = i + 1;
    }
    Ok((lens, cur))
}

/// Walks the entries from `pos`, whose lengths are `lens`, trying each under
/// `password` until one opens; every entry after that is skipped without being
/// decrypted.
pub fn recover_secret(b: &[u8], pos: usize, lens: &Vec<usize>, password: &[u8]) -> (r: Result<
    SecretSearch,
    LockError,
>)
    ensures
        pos <= b@.len() ==> (r matches Ok(s) ==> s.end <= b@.len()),
        match r {
            Ok(s) => search_spec(b@, pos as int, lens@, None, 0, password@) == Ok::<
                (Option<Seq<u8>>, int, nat),
                LockError,
            >((
                match s.secret {
                    Some(v) => Some(v@),
                    None => None,
                },
                s.end as int,
                s.attempts as nat,
            )),
            Err(e) => search_spec(b@, pos as int, lens@, None, 0, password@) == Err::<
                (Option<Seq<u8>>, int, nat),
                LockError,
            >(e),
        },
{
    let mut secret: Option<Vec<u8>> = None;
    let mut cur: usize = pos;
    let mut attempts: usize = 0;
    let mut i: usize = 0;
    assert(lens@.subrange(0, lens@.len() as int) =~= lens@);
    while i < lens.len()
        invariant
            i <= lens@.len(),
            attempts <= i,
            pos <= b@.len() ==> cur <= b@.len(),
            search_spec(b@, pos as int, lens@, None, 0, password@) == search_spec(
                b@,
                cur as int,
                lens@.subrange(i as int, lens@.len() as int),
                match secret {
                    Some(v) => Some(v@),
                    None => None,
                },
                attempts as nat,
                password@,
            ),
        decreases lens@.len() - i,
    {
        let len = lens[i];
        assert(lens@.subrange(i as int, lens@.len() as int).drop_first() =~= lens@.subrange(
            i + 1,
            lens@.len() as int,
        ));
        if cur > b.len() || len > b.len() - cur {
            return Err(LockError::Broken);
        }
        if secret.is_none() {
            let entry = slice_subrange(b, cur, cur + len);
            secret = ImageLockCore::decrypt(entry, password);
            attempts = attempts + 1;
        }
        cur = cur + len;
        i = i + 1;
    }
    assert(lens@.subrange(i as int, lens@.len() as int) =~= Seq::<usize>::empty());
    Ok(SecretSearch { secret, end: cur, attempts })
}

/// The container's encoder and decoder.
pub struct BadLockRunner;

impl BadLockRunner {
    /// Locks `content`, named `filename`, so that any one of `passwords` opens
    /// it: each password wraps `secret`, and `secret` encrypts the content.
    /// With no password, or more than sixteen, nothing is locked and the
    /// result is empty.
    pub fn lock(filename: &[u8], secret: &[u8], passwords: Vec<Vec<u8>>, content: &[u8]) -> (r:
        Vec<u8>)
        ensures
            lock_output(r@, filename@, secret@, views(passwords@), content@),
            r@.len() == 0 <==> !count_ok(passwords@.len()),
    {
        let n = passwords.len();
        if n == 0 || n > MAX_PASSWORDS {
            let empty: Vec<u8> = Vec::new();
            assert(empty@ =~= lock_spec(filename@, secret@, views(passwords@), content@));
            return empty;
        }
        let ghost pws = views(passwords@);
        let ghost w = wrapped(pws, secret@);
        let ghost lp = line_pieces(w);
        let mut buffer: Vec<u8> = Vec::new();
        // line 1: magic number with number of passwords
        let k = n - 1;
        buffer.push(66);
        buffer.push(97);
        buffer.push(100);
        buffer.push(76);
        buffer.push(111);
        buffer.push(99);
        buffer.push(107);
        buffer.push(0);
        buffer.push(if k / 8 == 0 { 48 } else { 49 });
        buffer.push(if (k / 4) % 2 == 0 { 48 } else { 49 });
        buffer.push(if (k / 2) % 2 == 0 { 48 } else { 49 });
        buffer.push(if k % 2 == 0 { 48 } else { 49 });
        buffer.push(NEWLINE);
        assert(buffer@ =~= header_line(n as nat));
        // line 2: original filename
        append(&mut buffer, filename);
        buffer.push(NEWLINE);
        let ghost pre = buffer@;
        assert(pre =~= header_line(n as nat) + filename@ + seq![NEWLINE]);
        // one line per password: the length of the secret sealed under it
        let mut blobs: Vec<Vec<u8>> = Vec::new();
        let mut i: usize = 0;
        while i < n
            invariant
                n == passwords@.len(),
                pws == views(passwords@),
                w == wrapped(pws, secret@),
                lp == line_pieces(w),
                i <= n,
                views(blobs@) =~= w.take(i as int),
                buffer@ == pre + concat(lp.take(i as int)),
                forall|j: int|
                    0 <= j < i ==> #[trigger] unseal(pws[j], seal(pws[j], secret@)) == Some(
                        secret@,
                    ),
            decreases n - i,
        {
            let sp = ImageLockCore::encrypt(secret, passwords[i].as_slice());
            push_decimal(&mut buffer, sp.len());
            buffer.push(NEWLINE);
            blobs.push(sp);
            proof {
                assert(w.take(i + 1).drop_last() =~= w.take(i as int));
                assert(lp.take(i + 1).drop_last() =~= lp.take(i as int));
                assert(lp[i as int] == length_line(w[i as int]));
                assert(buffer@ =~= pre + concat(lp.take(i + 1)));
                assert(views(blobs@) =~= w.take(i + 1));
            }
            i = i + 1;
        }
        assert(w.take(n as int) =~= w);
        assert(lp.take(n as int) =~= lp);
        let ghost mid = buffer@;
        // the sealed secrets, back to back
        let mut j: usize = 0;
        while j < n
            invariant
                n == blobs@.len(),
                views(blobs@) == w,
                j <= n,
                buffer@ == mid + concat(w.take(j as int)),
            decreases n - j,
        {
            append(&mut buffer, blobs[j].as_slice());
            proof {
                assert(w.take(j + 1).drop_last() =~= w.take(j as int));
                assert(views(blobs@)[j as int] == blobs@[j as int]@);
                assert(buffer@ =~= mid + concat(w.take(j + 1)));
            }
            j = j + 1;
        }
        // the content, sealed under the secret
        let ct = ImageLockCore::encrypt(content, secret);
        append(&mut buffer, ct.as_slice());
        assert(buffer@ =~= lock_spec(filename@, secret@, pws, content@));
        assert(reopens(secret@, pws, content@));
        assert(buffer@.len() > 0);
        assert(buffer@.len() == buffer.len());
        buffer
    }

    /// Opens a container with one password: the filename and password count
    /// from its head, and the content.
    pub fn unlock(bytes: &[u8], password: &[u8]) -> (r: Result<(BadLockMeta, Vec<u8>), LockError>)
        ensures
            match r {
                Ok((meta, content)) => unlock_spec(bytes@, password@) matches Ok((name, n, c))
                    && meta.filename@ == decode_utf8(name) && meta.password_count as nat == n
                    && content@ == c,
                Err(e) => unlock_spec(bytes@, password@) == Err::<(Seq<u8>, nat, Seq<u8>), LockError>(
                    e,
                ),
            },
    {
        let (count, pos1) = read_header(bytes)?;
        let (filename, pos2) = read_filename(bytes, pos1)?;
        let (lens, pos3) = read_lengths(bytes, pos2, count)?;
        let found = recover_secret(bytes, pos3, &lens, password)?;
        match found.secret {
            None => Err(LockError::InvalidPassword),
            Some(s) => {
                let rest = slice_subrange(bytes, found.end, bytes.len());
                match ImageLockCore::decrypt(rest, s.as_slice()) {
                    None => Err(LockError::Broken),
                    Some(c) => Ok((BadLockMeta { filename, password_count: count }, c)),
                }
            },
        }
    }
}

} // verus!
