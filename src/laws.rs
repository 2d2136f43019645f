//! What holds of the encoder and decoder together, stated over their spec
//! functions and proved.

use crate::cipher::{seal, unseal};
use crate::format::{
    bits_value, concat, count_bits, decimal, header_line, is_bits, length_line, length_lines,
    lemma_decimal_digits, line_end, line_pieces, magic, next_line, no_newline, NEWLINE,
};
use crate::runner::{
    count_ok, filename_spec, header_spec, lengths_of, lengths_spec, lock_output, lock_spec,
    search_spec, unlock_spec, wrapped, LockError,
};
use vstd::prelude::*;
use vstd::utf8::valid_utf8;

verus! {

/// The secret that the entries `w` yield under `password` when tried in turn,
/// starting with `found`: the first that opens, or `found` if already set.
pub open spec fn first_open(password: Seq<u8>, w: Seq<Seq<u8>>, found: Option<Seq<u8>>) -> Option<
    Seq<u8>,
>
    decreases w.len(),
{
    if found is Some || w.len() == 0 {
        found
    } else {
        first_open(password, w.drop_first(), unseal(password, w[0]))
    }
}

proof fn lemma_line_end_at(b: Seq<u8>, pos: int, e: int)
    requires
        0 <= pos <= e < b.len(),
        b[e] == NEWLINE,
        forall|i: int| pos <= i < e ==> #[trigger] b[i] != NEWLINE,
    ensures
        line_end(b, pos) == e,
    decreases e - pos,
{
    if pos < e {
        lemma_line_end_at(b, pos + 1, e);
    }
}

proof fn lemma_next_line(b: Seq<u8>, pos: int, line: Seq<u8>)
    requires
        0 <= pos,
        pos + line.len() < b.len(),
        b.subrange(pos, pos + line.len()) == line,
        no_newline(line),
        b[pos + line.len()] == NEWLINE,
    ensures
        next_line(b, pos) == Some((line, pos + line.len() + 1)),
{
    assert forall|i: int| pos <= i < pos + line.len() implies #[trigger] b[i] != NEWLINE by {
        assert(b.subrange(pos, pos + line.len())[i - pos] == b[i]);
        assert(line[i - pos] != NEWLINE);
    }
    lemma_line_end_at(b, pos, pos + line.len());
}

/// `inner` sits at `o` in `outer`, which sits at `base` in `b`.
proof fn lemma_nested(b: Seq<u8>, base: int, outer: Seq<u8>, o: int, inner: Seq<u8>)
    requires
        0 <= base,
        base + outer.len() <= b.len(),
        b.subrange(base, base + outer.len()) == outer,
        0 <= o,
        o + inner.len() <= outer.len(),
        outer.subrange(o, o + inner.len()) == inner,
    ensures
        b.subrange(base + o, base + o + inner.len()) == inner,
{
    assert forall|x: int| 0 <= x < inner.len() implies #[trigger] b.subrange(
        base + o,
        base + o + inner.len(),
    )[x] == inner[x] by {
        assert(b.subrange(base, base + outer.len())[o + x] == b[base + o + x]);
        assert(outer.subrange(o, o + inner.len())[x] == outer[o + x]);
    }
    assert(b.subrange(base + o, base + o + inner.len()) =~= inner);
}

proof fn lemma_concat_step(bs: Seq<Seq<u8>>, j: int)
    requires
        0 <= j < bs.len(),
    ensures
        concat(bs.take(j + 1)) == concat(bs.take(j)) + bs[j],
{
    assert(bs.take(j + 1).drop_last() =~= bs.take(j));
}

/// Blob `j` stands in the concatenation of the first `k` blobs right after the
/// first `j` of them.
proof fn lemma_concat_piece(bs: Seq<Seq<u8>>, j: int, k: int)
    requires
        0 <= j < k <= bs.len(),
    ensures
        concat(bs.take(k)).len() >= concat(bs.take(j)).len() + bs[j].len(),
        concat(bs.take(k)).subrange(
            concat(bs.take(j)).len() as int,
            (concat(bs.take(j)).len() + bs[j].len()) as int,
        ) == bs[j],
    decreases k,
{
    lemma_concat_step(bs, k - 1);
    let o = concat(bs.take(j)).len() as int;
    if k == j + 1 {
        assert((concat(bs.take(j)) + bs[j]).subrange(o, o + bs[j].len()) =~= bs[j]);
    } else {
        lemma_concat_piece(bs, j, k - 1);
        let a = concat(bs.take(k - 1));
        assert((a + bs[k - 1]).subrange(o, o + bs[j].len()) =~= a.subrange(o, o + bs[j].len()));
    }
}

proof fn lemma_count_bits(k: nat)
    requires
        k < 16,
    ensures
        is_bits(count_bits(k)),
        bits_value(count_bits(k)) == k,
        no_newline(count_bits(k)),
{
}

/// The length lines of `w`, standing at `base` in `b`, parse back to the
/// lengths of the blobs.
proof fn lemma_lengths(b: Seq<u8>, base: int, w: Seq<Seq<u8>>, i: int)
    requires
        0 <= i <= w.len(),
        0 <= base,
        base + length_lines(w).len() <= b.len(),
        b.subrange(base, base + length_lines(w).len()) == length_lines(w),
        forall|j: int| 0 <= j < w.len() ==> (#[trigger] w[j]).len() <= usize::MAX,
    ensures
        lengths_spec(
            b,
            base + concat(line_pieces(w).take(i)).len(),
            (w.len() - i) as nat,
            lengths_of(w).take(i),
        ) == Ok::<(Seq<usize>, int), LockError>((lengths_of(w), base + length_lines(w).len())),
    decreases w.len() - i,
{
    let lp = line_pieces(w);
    assert(lp.take(w.len() as int) =~= lp);
    if i == w.len() {
        assert(lengths_of(w).take(i) =~= lengths_of(w));
    } else {
        let o = concat(lp.take(i)).len() as int;
        let pos = base + o;
        let d = decimal(w[i].len());
        lemma_concat_piece(lp, i, w.len() as int);
        assert(lp[i] == length_line(w[i]));
        lemma_nested(b, base, length_lines(w), o, lp[i]);
        lemma_decimal_digits(w[i].len());
        assert(b.subrange(pos, pos + d.len()) =~= d) by {
            assert forall|x: int| 0 <= x < d.len() implies b.subrange(pos, pos + d.len())[x]
                == d[x] by {
                assert(b.subrange(pos, pos + lp[i].len())[x] == b[pos + x]);
                assert(lp[i][x] == d[x]);
            }
        }
        assert(b[pos + d.len()] == NEWLINE) by {
            assert(b.subrange(pos, pos + lp[i].len())[d.len() as int] == b[pos + d.len()]);
        }
        lemma_next_line(b, pos, d);
        lemma_concat_step(lp, i);
        assert(lengths_of(w).take(i).push(w[i].len() as usize) =~= lengths_of(w).take(i + 1));
        lemma_lengths(b, base, w, i + 1);
    }
}

/// Walking the entries `w`, standing at `base` in `b`, from entry `i` on ends
/// after the last entry with the secret that `first_open` names.
proof fn lemma_search(
    b: Seq<u8>,
    base: int,
    w: Seq<Seq<u8>>,
    i: int,
    found: Option<Seq<u8>>,
    tries: nat,
    password: Seq<u8>,
)
    requires
        0 <= i <= w.len(),
        0 <= base,
        base + concat(w).len() <= b.len(),
        b.subrange(base, base + concat(w).len()) == concat(w),
        forall|j: int| 0 <= j < w.len() ==> (#[trigger] w[j]).len() <= usize::MAX,
    ensures
        search_spec(
            b,
            base + concat(w.take(i)).len(),
            lengths_of(w).skip(i),
            found,
            tries,
            password,
        ) matches Ok((f, e, _)) && f == first_open(password, w.skip(i), found) && e == base
            + concat(w).len(),
    decreases w.len() - i,
{
    assert(w.take(w.len() as int) =~= w);
    if i == w.len() {
        assert(lengths_of(w).skip(i) =~= Seq::<usize>::empty());
        assert(w.skip(i) =~= Seq::<Seq<u8>>::empty());
    } else {
        let o = concat(w.take(i)).len() as int;
        let pos = base + o;
        lemma_concat_piece(w, i, w.len() as int);
        lemma_nested(b, base, concat(w), o, w[i]);
        lemma_concat_step(w, i);
        let lens = lengths_of(w).skip(i);
        assert(lens[0] == w[i].len());
        assert(lens.drop_first() =~= lengths_of(w).skip(i + 1));
        assert(w.skip(i).drop_first() =~= w.skip(i + 1));
        assert(w.skip(i)[0] == w[i]);
        if found is Some {
            lemma_search(b, base, w, i + 1, found, tries, password);
        } else {
            lemma_search(b, base, w, i + 1, unseal(password, w[i]), tries + 1, password);
        }
    }
}

proof fn lemma_first_open_secret(
    password: Seq<u8>,
    w: Seq<Seq<u8>>,
    found: Option<Seq<u8>>,
    secret: Seq<u8>,
    m: int,
)
    requires
        found is None || found == Some(secret),
        forall|j: int|
            0 <= j < w.len() ==> #[trigger] unseal(password, w[j]) is None || unseal(password, w[j])
                == Some(secret),
        found == Some(secret) || (0 <= m < w.len() && unseal(password, w[m]) == Some(secret)),
    ensures
        first_open(password, w, found) == Some(secret),
    decreases w.len(),
{
    if found is None {
        let rest = w.drop_first();
        assert forall|j: int| 0 <= j < rest.len() implies #[trigger] unseal(password, rest[j]) is None
            || unseal(password, rest[j]) == Some(secret) by {
            assert(rest[j] == w[j + 1]);
        }
        if m > 0 {
            assert(rest[m - 1] == w[m]);
        }
        lemma_first_open_secret(password, rest, unseal(password, w[0]), secret, m - 1);
    }
}

proof fn lemma_first_open_none(password: Seq<u8>, w: Seq<Seq<u8>>)
    requires
        forall|j: int| 0 <= j < w.len() ==> (#[trigger] unseal(password, w[j])) is None,
    ensures
        first_open(password, w, None) is None,
    decreases w.len(),
{
    if w.len() > 0 {
        let rest = w.drop_first();
        assert forall|j: int| 0 <= j < rest.len() implies (#[trigger] unseal(password, rest[j])) is None by {
            assert(rest[j] == w[j + 1]);
        }
        lemma_first_open_none(password, rest);
    }
}

/// The stages before the entries: a container from the encoder parses back to
/// its password count, its filename and the lengths of its entries.
proof fn lemma_container_head(
    container: Seq<u8>,
    filename: Seq<u8>,
    secret: Seq<u8>,
    passwords: Seq<Seq<u8>>,
    content: Seq<u8>,
)
    requires
        lock_output(container, filename, secret, passwords, content),
        count_ok(passwords.len()),
        no_newline(filename),
        valid_utf8(filename),
    ensures
        ({
            let w = wrapped(passwords, secret);
            let a2: int = 13 + filename.len() as int + 1;
            let a3: int = a2 + length_lines(w).len();
            let a4: int = a3 + concat(w).len();
            &&& header_spec(container) == Ok::<(nat, int), LockError>((passwords.len(), 13))
            &&& filename_spec(container, 13) == Ok::<(Seq<u8>, int), LockError>((filename, a2))
            &&& lengths_spec(container, a2, passwords.len(), seq![]) == Ok::<
                (Seq<usize>, int),
                LockError,
            >((lengths_of(w), a3))
            &&& a4 <= container.len()
            &&& container.subrange(a3, a4) == concat(w)
            &&& container.subrange(a4, container.len() as int) == seal(secret, content)
            &&& forall|j: int| 0 <= j < w.len() ==> (#[trigger] w[j]).len() <= usize::MAX
        }),
{
    let n = passwords.len();
    let w = wrapped(passwords, secret);
    let h = header_line(n);
    let ll = length_lines(w);
    let cc = concat(w);
    let t = seal(secret, content);
    let b = container;
    assert(b == h + filename + seq![NEWLINE] + ll + cc + t);
    let a2: int = 13 + filename.len() as int + 1;
    let a3: int = a2 + ll.len();
    let a4: int = a3 + cc.len();
    // header
    let h12 = magic() + count_bits((n - 1) as nat);
    lemma_count_bits((n - 1) as nat);
    assert(no_newline(h12)) by {
        assert forall|i: int| 0 <= i < h12.len() implies #[trigger] h12[i] != NEWLINE by {
            if i >= 8 {
                assert(h12[i] == count_bits((n - 1) as nat)[i - 8]);
            }
        }
    }
    assert(b.subrange(0, 12) =~= h12);
    assert(b[12] == NEWLINE);
    lemma_next_line(b, 0, h12);
    assert(h12.subrange(0, 8) =~= magic());
    assert(h12.subrange(8, 12) =~= count_bits((n - 1) as nat));
    // filename
    assert(b.subrange(13, 13 + filename.len() as int) =~= filename);
    assert(b[13 + filename.len() as int] == NEWLINE);
    lemma_next_line(b, 13, filename);
    // length lines
    assert(b.subrange(a2, a3) =~= ll);
    assert(forall|j: int| 0 <= j < w.len() ==> (#[trigger] w[j]).len() <= usize::MAX) by {
        assert forall|j: int| 0 <= j < w.len() implies (#[trigger] w[j]).len() <= usize::MAX by {
            lemma_concat_piece(w, j, w.len() as int);
            assert(w.take(w.len() as int) =~= w);
        }
    }
    lemma_lengths(b, a2, w, 0);
    assert(line_pieces(w).take(0) =~= Seq::<Seq<u8>>::empty());
    assert(lengths_of(w).take(0) =~= Seq::<usize>::empty());
    assert(b.subrange(a3, a4) =~= cc);
    assert(b.subrange(a4, b.len() as int) =~= t);
}

/// Round trip: a container that `lock` made from a valid password list opens
/// under each of those passwords to the original filename and content.
///
/// Excluded are filenames that hold a newline or are not UTF-8 (they cannot
/// stand on one text line), and the chance case in which an earlier entry,
/// sealed under a different password, still decrypts with valid padding under
/// this one to something other than the secret.
pub proof fn lemma_round_trip(
    container: Seq<u8>,
    filename: Seq<u8>,
    secret: Seq<u8>,
    passwords: Seq<Seq<u8>>,
    content: Seq<u8>,
    password: Seq<u8>,
)
    requires
        lock_output(container, filename, secret, passwords, content),
        count_ok(passwords.len()),
        passwords.contains(password),
        no_newline(filename),
        valid_utf8(filename),
        forall|j: int|
            0 <= j < passwords.len() ==> #[trigger] unseal(password, seal(passwords[j], secret))
                is None || unseal(password, seal(passwords[j], secret)) == Some(secret),
    ensures
        unlock_spec(container, password) == Ok::<(Seq<u8>, nat, Seq<u8>), LockError>(
            (filename, passwords.len(), content),
        ),
{
    let w = wrapped(passwords, secret);
    let a2: int = 13 + filename.len() as int + 1;
    let a3: int = a2 + length_lines(w).len();
    lemma_container_head(container, filename, secret, passwords, content);
    lemma_search(container, a3, w, 0, None, 0, password);
    assert(w.take(0) =~= Seq::<Seq<u8>>::empty());
    assert(lengths_of(w).skip(0) =~= lengths_of(w));
    assert(w.skip(0) =~= w);
    let m = choose|m: int| 0 <= m < passwords.len() && passwords[m] == password;
    assert(forall|j: int|
        0 <= j < w.len() ==> #[trigger] unseal(password, w[j]) is None || unseal(password, w[j])
            == Some(secret)) by {
        assert forall|j: int| 0 <= j < w.len() implies #[trigger] unseal(password, w[j]) is None
            || unseal(password, w[j]) == Some(secret) by {
            assert(w[j] == seal(passwords[j], secret));
        }
    }
    assert(w[m] == seal(passwords[m], secret));
    assert(unseal(passwords[m], seal(passwords[m], secret)) == Some(secret));
    lemma_first_open_secret(password, w, None, secret, m);
}

/// Password independence: whichever position a password holds in the list,
/// it opens the container on its own.
pub proof fn lemma_any_position_opens(
    container: Seq<u8>,
    filename: Seq<u8>,
    secret: Seq<u8>,
    passwords: Seq<Seq<u8>>,
    content: Seq<u8>,
    i: int,
)
    requires
        lock_output(container, filename, secret, passwords, content),
        count_ok(passwords.len()),
        0 <= i < passwords.len(),
        no_newline(filename),
        valid_utf8(filename),
        forall|j: int|
            0 <= j < passwords.len() ==> #[trigger] unseal(passwords[i], seal(passwords[j], secret))
                is None || unseal(passwords[i], seal(passwords[j], secret)) == Some(secret),
    ensures
        unlock_spec(container, passwords[i]) == Ok::<(Seq<u8>, nat, Seq<u8>), LockError>(
            (filename, passwords.len(), content),
        ),
{
    assert(passwords.contains(passwords[i]));
    lemma_round_trip(container, filename, secret, passwords, content, passwords[i]);
}

/// Wrong password: a password that opens none of the entries is refused with
/// `InvalidPassword`.
///
/// A password outside the list can still, by chance, meet valid padding on some
/// entry; those inputs are left out by the last condition.
pub proof fn lemma_wrong_password(
    container: Seq<u8>,
    filename: Seq<u8>,
    secret: Seq<u8>,
    passwords: Seq<Seq<u8>>,
    content: Seq<u8>,
    password: Seq<u8>,
)
    requires
        lock_output(container, filename, secret, passwords, content),
        count_ok(passwords.len()),
        !passwords.contains(password),
        no_newline(filename),
        valid_utf8(filename),
        forall|j: int|
            0 <= j < passwords.len() ==> (#[trigger] unseal(password, seal(passwords[j], secret)))
                is None,
    ensures
        unlock_spec(container, password) == Err::<(Seq<u8>, nat, Seq<u8>), LockError>(
            LockError::InvalidPassword,
        ),
{
    let w = wrapped(passwords, secret);
    let a2: int = 13 + filename.len() as int + 1;
    let a3: int = a2 + length_lines(w).len();
    lemma_container_head(container, filename, secret, passwords, content);
    lemma_search(container, a3, w, 0, None, 0, password);
    assert(w.take(0) =~= Seq::<Seq<u8>>::empty());
    assert(lengths_of(w).skip(0) =~= lengths_of(w));
    assert(w.skip(0) =~= w);
    assert forall|j: int| 0 <= j < w.len() implies (#[trigger] unseal(password, w[j])) is None by {
        assert(w[j] == seal(passwords[j], secret));
    }
    lemma_first_open_none(password, w);
}

/// The total length of the entries whose lengths are `lens`.
pub open spec fn total(lens: Seq<usize>) -> int
    decreases lens.len(),
{
    if lens.len() == 0 {
        0
    } else {
        lens[0] + total(lens.drop_first())
    }
}

/// Once a secret is held, the remaining entries are only skipped: the secret
/// and the count of decryption attempts stay as they are.
proof fn lemma_found_keeps(
    b: Seq<u8>,
    pos: int,
    lens: Seq<usize>,
    found: Option<Seq<u8>>,
    tries: nat,
    password: Seq<u8>,
)
    requires
        found is Some,
        search_spec(b, pos, lens, found, tries, password) is Ok,
    ensures
        search_spec(b, pos, lens, found, tries, password) matches Ok((f, _, t)) && f == found && t
            == tries,
    decreases lens.len(),
{
    if lens.len() > 0 {
        lemma_found_keeps(b, pos + lens[0], lens.drop_first(), found, tries, password);
    }
}

proof fn lemma_skip_from(b: Seq<u8>, pos: int, lens: Seq<usize>, tries: nat, password: Seq<u8>, k: int)
    requires
        0 <= k < lens.len(),
        search_spec(b, pos, lens, None, tries, password) is Ok,
        unseal(
            password,
            b.subrange(pos + total(lens.take(k)), pos + total(lens.take(k)) + lens[k]),
        ) is Some,
    ensures
        search_spec(b, pos, lens, None, tries, password) matches Ok((f, _, t)) && f is Some && t
            <= tries + k + 1,
    decreases k,
{
    let first = unseal(password, b.subrange(pos, pos + lens[0]));
    if k == 0 {
        assert(lens.take(0) =~= Seq::<usize>::empty());
        assert(total(Seq::<usize>::empty()) == 0);
        lemma_found_keeps(b, pos + lens[0], lens.drop_first(), first, tries + 1, password);
    } else if first is Some {
        lemma_found_keeps(b, pos + lens[0], lens.drop_first(), first, tries + 1, password);
    } else {
        let rest = lens.drop_first();
        assert(lens.take(k).drop_first() =~= rest.take(k - 1));
        assert(total(lens.take(k)) == lens[0] + total(rest.take(k - 1)));
        assert(rest[k - 1] == lens[k]);
        lemma_skip_from(b, pos + lens[0], rest, tries + 1, password, k - 1);
    }
}

/// Skip cost: if entry `k` opens under the password, the search ends with a
/// secret after at most `k + 1` decryption attempts; the entries after the
/// one that opened are never decrypted.
pub proof fn lemma_skip_cost(b: Seq<u8>, pos: int, lens: Seq<usize>, password: Seq<u8>, k: int)
    requires
        0 <= k < lens.len(),
        search_spec(b, pos, lens, None, 0, password) is Ok,
        unseal(
            password,
            b.subrange(pos + total(lens.take(k)), pos + total(lens.take(k)) + lens[k]),
        ) is Some,
    ensures
        search_spec(b, pos, lens, None, 0, password) matches Ok((f, _, t)) && f is Some && t <= k
            + 1,
{
    lemma_skip_from(b, pos, lens, 0, password, k);
}

/// Count limits: with no password, or more than sixteen, `lock` produces an
/// empty buffer, and an empty buffer opens under no password.
pub proof fn lemma_count_limits(
    filename: Seq<u8>,
    secret: Seq<u8>,
    passwords: Seq<Seq<u8>>,
    content: Seq<u8>,
    password: Seq<u8>,
)
    requires
        passwords.len() == 0 || passwords.len() > 16,
    ensures
        lock_spec(filename, secret, passwords, content).len() == 0,
        unlock_spec(lock_spec(filename, secret, passwords, content), password) == Err::<
            (Seq<u8>, nat, Seq<u8>),
            LockError,
        >(LockError::InvalidHeader),
{
}

proof fn lemma_line_end_bounds(b: Seq<u8>, pos: int)
    requires
        0 <= pos <= b.len(),
    ensures
        pos <= line_end(b, pos) <= b.len(),
        line_end(b, pos) < b.len() ==> b[line_end(b, pos)] == NEWLINE,
        forall|i: int| pos <= i < line_end(b, pos) ==> #[trigger] b[i] != NEWLINE,
    decreases b.len() - pos,
{
    if pos < b.len() && b[pos] != NEWLINE {
        lemma_line_end_bounds(b, pos + 1);
    }
}

/// A corrupted tag: changing any byte of the 8-byte tag makes the container
/// fail with `InvalidHeader`.
pub proof fn lemma_flipped_magic(b: Seq<u8>, i: int, v: u8, password: Seq<u8>)
    requires
        b.len() >= 8,
        b.subrange(0, 8) == magic(),
        0 <= i < 8,
        v != b[i],
    ensures
        unlock_spec(b.update(i, v), password) == Err::<(Seq<u8>, nat, Seq<u8>), LockError>(
            LockError::InvalidHeader,
        ),
{
    let c = b.update(i, v);
    assert(b.subrange(0, 8)[i] == b[i]);
    lemma_line_end_bounds(c, 0);
    if c.len() > 0 && line_end(c, 0) == 12 {
        let l = c.subrange(0, 12);
        assert(l.subrange(0, 8)[i] == c[i]);
        assert(magic()[i] == b[i]);
    }
}

/// A truncated header: cut within the first line, the buffer fails with
/// `InvalidHeader`; cut after the twelve header characters (with or without
/// the newline), it fails with `LostFilename`.
pub proof fn lemma_truncated_header(b: Seq<u8>, n: nat, k: int, password: Seq<u8>)
    requires
        count_ok(n),
        b.len() >= 13,
        b.subrange(0, 13) == header_line(n),
        0 <= k <= 13,
    ensures
        unlock_spec(b.take(k), password) == Err::<(Seq<u8>, nat, Seq<u8>), LockError>(
            if k < 12 {
                LockError::InvalidHeader
            } else {
                LockError::LostFilename
            },
        ),
{
    let c = b.take(k);
    let h12 = magic() + count_bits((n - 1) as nat);
    lemma_count_bits((n - 1) as nat);
    assert forall|i: int| 0 <= i < 12 implies #[trigger] b[i] == h12[i] by {
        assert(b.subrange(0, 13)[i] == b[i]);
        assert(header_line(n)[i] == h12[i]);
    }
    assert(no_newline(h12)) by {
        assert forall|i: int| 0 <= i < h12.len() implies #[trigger] h12[i] != NEWLINE by {
            if i >= 8 {
                assert(h12[i] == count_bits((n - 1) as nat)[i - 8]);
            }
        }
    }
    lemma_line_end_bounds(c, 0);
    if k >= 12 {
        let e = line_end(c, 0);
        if e < 12 {
            assert(c[e] == b[e]);
            assert(h12[e] != NEWLINE);
        }
        if k == 13 {
            assert(c[12] == b[12]);
            assert(b.subrange(0, 13)[12] == b[12]);
            assert(header_line(n)[12] == NEWLINE);
        }
        assert(c.subrange(0, 12) =~= h12);
        assert(h12.subrange(0, 8) =~= magic());
        assert(h12.subrange(8, 12) =~= count_bits((n - 1) as nat));
    }
}

} // verus!
