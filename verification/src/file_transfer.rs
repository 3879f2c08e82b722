//! The protocol of the file-transfer server: one request per line
//! (`get <path>`, `put <path> <size>`, `dir`, `exit`) and the replies.
use vstd::prelude::*;
use vstd::string::{StrSliceExecFns, StringSliceAdditionalSpecFns};
use crate::error::Error;
use crate::fs::minix_manager::MinixFs;
use crate::fs::minix::{spec_create_file, spec_write};
use crate::path::{spec_split_path, split_path_and_filename};
use crate::text::{decimal, next_word, parse_unsigned, parse_unsigned_str, push_decimal, words, words_from};

verus! {

/// A request of a client.
pub enum Request<'a> {
    /// The line is exactly `exit`: the session ends.
    Exit,
    /// `get <path>`: send the file at `path`.
    Get(&'a str),
    /// `get` without a path.
    GetWithoutPath,
    /// `put <path> <size>`: `size` bytes of file content follow the line.
    Put(&'a str, usize),
    /// `put` without a path or without a size.
    PutWithoutArgs,
    /// `dir`: list the root directory.
    Dir,
    /// Anything else.
    Invalid,
}

/// The word `exit`.
pub open spec fn exit_word() -> Seq<char> {
    seq!['e', 'x', 'i', 't']
}

/// The word `get`.
pub open spec fn get_word() -> Seq<char> {
    seq!['g', 'e', 't']
}

/// The word `put`.
pub open spec fn put_word() -> Seq<char> {
    seq!['p', 'u', 't']
}

/// The word `dir`.
pub open spec fn dir_word() -> Seq<char> {
    seq!['d', 'i', 'r']
}

/// Whether the characters `st..e` of `s` are `k0 k1 k2`.
fn word_is(s: &str, st: usize, e: usize, k0: char, k1: char, k2: char) -> (r: bool)
    requires
        st <= e <= s@.len(),
    ensures
        r == (s@.subrange(st as int, e as int) == seq![k0, k1, k2]),
{
    if e - st != 3 {
        assert(s@.subrange(st as int, e as int).len() != seq![k0, k1, k2].len());
        return false;
    }
    let r = s.get_char(st) == k0 && s.get_char(st + 1) == k1 && s.get_char(st + 2) == k2;
    if r {
        assert(s@.subrange(st as int, e as int) =~= seq![k0, k1, k2]);
    } else {
        assert(s@.subrange(st as int, e as int)[0] != k0 || s@.subrange(st as int, e as int)[1] != k1
            || s@.subrange(st as int, e as int)[2] != k2);
    }
    r
}

/// Reads a request line.  A line that is exactly `exit` ends the session;
/// otherwise its first word selects the request: `get` takes the next
/// word as the path, `put` the next two words as the path and the size
/// (`InvalidFileSize` when the size is not a number that fits a `usize`),
/// `dir` takes nothing; missing words give the `...Without...` requests
/// and any other first word (or none) gives `Invalid`.  Further words are
/// ignored.
pub fn parse_request<'a>(line: &'a str) -> (r: Result<Request<'a>, Error>)
    ensures
        line@ == exit_word() ==> r is Ok && r->Ok_0 is Exit,
        line@ != exit_word() ==> {
            let w = words(line@);
            &&& (w.len() == 0 || (w[0] != get_word() && w[0] != put_word() && w[0] != dir_word()))
                ==> r is Ok && r->Ok_0 is Invalid
            &&& (w.len() > 0 && w[0] == dir_word()) ==> r is Ok && r->Ok_0 is Dir
            &&& (w.len() > 0 && w[0] == get_word()) ==> if w.len() >= 2 {
                r is Ok && r->Ok_0 is Get && r->Ok_0->Get_0@ == w[1]
            } else {
                r is Ok && r->Ok_0 is GetWithoutPath
            }
            &&& (w.len() > 0 && w[0] == put_word()) ==> if w.len() >= 3 {
                match parse_unsigned(w[2], usize::MAX as nat) {
                    Some(n) => r is Ok && r->Ok_0 is Put && r->Ok_0->Put_0@ == w[1]
                        && r->Ok_0->Put_1 == n,
                    None => r is Err && r->Err_0 == Error::InvalidFileSize,
                }
            } else {
                r is Ok && r->Ok_0 is PutWithoutArgs
            }
        },
{
    let n = line.unicode_len();
    if n == 4 && line.get_char(0) == 'e' && line.get_char(1) == 'x' && line.get_char(2) == 'i'
        && line.get_char(3) == 't' {
        assert(line@ =~= exit_word());
        return Ok(Request::Exit);
    }
    proof {
        if line@ == exit_word() {
            assert(line@[0] == 'e' && line@[1] == 'x' && line@[2] == 'i' && line@[3] == 't');
        }
    }
    let ghost w = words(line@);
    let (s0, e0) = match next_word(line, n, 0) {
        None => {
            return Ok(Request::Invalid);
        },
        Some(p) => p,
    };
    assert(w[0] == line@.subrange(s0 as int, e0 as int));
    if word_is(line, s0, e0, 'd', 'i', 'r') {
        return Ok(Request::Dir);
    }
    let is_get = word_is(line, s0, e0, 'g', 'e', 't');
    let is_put = word_is(line, s0, e0, 'p', 'u', 't');
    if !is_get && !is_put {
        return Ok(Request::Invalid);
    }
    let (s1, e1) = match next_word(line, n, e0) {
        None => {
            if is_get {
                return Ok(Request::GetWithoutPath);
            } else {
                return Ok(Request::PutWithoutArgs);
            }
        },
        Some(p) => p,
    };
    assert(w.drop_first() =~= words_from(line@, e0 as int));
    assert(w[1] == line@.subrange(s1 as int, e1 as int));
    let path = line.substring_char(s1, e1);
    if is_get {
        return Ok(Request::Get(path));
    }
    let (s2, e2) = match next_word(line, n, e1) {
        None => {
            return Ok(Request::PutWithoutArgs);
        },
        Some(p) => p,
    };
    assert(w[2] == line@.subrange(s2 as int, e2 as int));
    let size_word = line.substring_char(s2, e2);
    match parse_unsigned_str(size_word, usize::MAX) {
        Some(size) => Ok(Request::Put(path, size)),
        None => Err(Error::InvalidFileSize),
    }
}

/// Whether a `get` request asks for the file-system image itself: the
/// path `/proc/fs.img`.
pub open spec fn is_image_path(path: Seq<char>) -> bool {
    path == image_path()
}

/// The path `/proc/fs.img`.
pub open spec fn image_path() -> Seq<char> {
    seq!['/', 'p', 'r', 'o', 'c', '/', 'f', 's', '.', 'i', 'm', 'g']
}

/// Whether `path` names the file-system image (see `is_image_path`).
pub fn wants_image(path: &str) -> (r: bool)
    ensures
        r == is_image_path(path@),
{
    let expected: [char; 12] = ['/', 'p', 'r', 'o', 'c', '/', 'f', 's', '.', 'i', 'm', 'g'];
    let ghost ex = image_path();
    assert(expected@ =~= ex);
    if path.unicode_len() != 12 {
        assert(ex.len() == 12);
        assert(path@ != ex);
        return false;
    }
    let mut i: usize = 0;
    while i < 12
        invariant
            i <= 12,
            path@.len() == 12,
            ex == image_path(),
            expected@ == ex,
            forall|j: int| 0 <= j < i ==> path@[j] == ex[j],
        decreases 12 - i,
    {
        if path.get_char(i) != expected[i] {
            assert(path@[i as int] != ex[i as int]);
            return false;
        }
        i = i + 1;
    }
    assert(path@ =~= ex);
    true
}

/// The reply that carries `data`: its length in decimal, a newline, then
/// the data.
pub open spec fn sized_reply(data: Seq<u8>) -> Seq<u8> {
    decimal(data.len()) + seq![10u8] + data
}

/// The value of a string of ASCII decimal digit bytes (0 for the empty
/// string).
pub open spec fn digit_bytes_value(ds: Seq<u8>) -> nat
    decreases ds.len(),
{
    if ds.len() == 0 {
        0
    } else {
        digit_bytes_value(ds.drop_last()) * 10 + (ds.last() - 48) as nat
    }
}

/// The decimal digits of `n` are ASCII digits, at least one, and spell `n`.
pub proof fn lemma_decimal_spells(n: nat)
    ensures
        decimal(n).len() >= 1,
        forall|j: int| 0 <= j < decimal(n).len() ==> 48 <= #[trigger] decimal(n)[j] <= 57,
        digit_bytes_value(decimal(n)) == n,
    decreases n,
{
    if n >= 10 {
        lemma_decimal_spells(n / 10);
        let d = decimal(n / 10);
        assert(decimal(n).drop_last() =~= d);
        assert forall|j: int| 0 <= j < decimal(n).len() implies 48 <= #[trigger] decimal(n)[j] <= 57 by {
            if j < d.len() {
                assert(decimal(n)[j] == d[j]);
            }
        }
        let last = decimal(n).last();
        assert(last == (48 + n % 10) as u8);
        assert((last - 48) as nat == n % 10);
        assert((n / 10) * 10 + n % 10 == n) by (nonlinear_arith);
        assert(digit_bytes_value(decimal(n)) == digit_bytes_value(d) * 10 + (last - 48) as nat);
        assert(digit_bytes_value(decimal(n)) == n);
    } else {
        assert(decimal(n).drop_last() =~= Seq::<u8>::empty());
        assert(decimal(n).last() == (48 + n) as u8);
        assert(digit_bytes_value(decimal(n)) == digit_bytes_value(Seq::<u8>::empty()) * 10 + (
        decimal(n).last() - 48) as nat);
        assert(digit_bytes_value(decimal(n)) == n);
    }
}

/// A reply that carries `data` reads back as `data`: it begins with one or
/// more decimal digits, ended by the first newline (at `k`), that spell
/// the data's length, and the bytes after that newline are exactly `data`.
pub proof fn lemma_sized_reply_reads_back(data: Seq<u8>) -> (k: int)
    ensures
        0 < k < sized_reply(data).len(),
        forall|j: int| 0 <= j < k ==> 48 <= #[trigger] sized_reply(data)[j] <= 57,
        sized_reply(data)[k] == 10,
        digit_bytes_value(sized_reply(data).subrange(0, k)) == data.len(),
        sized_reply(data).subrange(k + 1, sized_reply(data).len() as int) == data,
        sized_reply(data).len() == k + 1 + data.len(),
{
    let r = sized_reply(data);
    let d = decimal(data.len());
    lemma_decimal_spells(data.len());
    let k = d.len() as int;
    assert(r.subrange(0, k) =~= d);
    assert(r.subrange(k + 1, r.len() as int) =~= data);
    assert forall|j: int| 0 <= j < k implies 48 <= #[trigger] r[j] <= 57 by {
        assert(r[j] == d[j]);
    }
    k
}

/// The reply to a `get` that could not be served: `-1` and a newline.
pub open spec fn failure_reply() -> Seq<u8> {
    seq![45u8, 49u8, 10u8]
}

/// The reply that carries `data` (see `sized_reply`).
pub fn sized_reply_bytes(data: &[u8]) -> (r: Vec<u8>)
    ensures
        r@ == sized_reply(data@),
{
    let mut r: Vec<u8> = Vec::new();
    push_decimal(&mut r, data.len());
    r.push(10u8);
    let ghost head = r@;
    let mut k: usize = 0;
    while k < data.len()
        invariant
            k <= data@.len(),
            r@ == head + data@.subrange(0, k as int),
        decreases data@.len() - k,
    {
        r.push(data[k]);
        k = k + 1;
        assert(r@ =~= head + data@.subrange(0, k as int));
    }
    assert(data@.subrange(0, data@.len() as int) =~= data@);
    r
}

/// The reply to a `get` of the image: the image when it could be copied
/// (see `sized_reply`), else `-1`.
pub fn image_reply(image: Option<&[u8]>) -> (r: Vec<u8>)
    ensures
        r@ == match image {
            Some(d) => sized_reply(d@),
            None => failure_reply(),
        },
{
    match image {
        Some(d) => sized_reply_bytes(d),
        None => {
            let r: Vec<u8> = vec![45u8, 49u8, 10u8];
            assert(r@ =~= failure_reply());
            r
        },
    }
}

/// The reply to a `get` of a file: its content when it could be read and
/// is not empty (see `sized_reply`), else `-1`.
pub fn file_reply(content: Option<&[u8]>) -> (r: Vec<u8>)
    ensures
        r@ == match content {
            Some(d) => if d@.len() > 0 {
                sized_reply(d@)
            } else {
                failure_reply()
            },
            None => failure_reply(),
        },
{
    match content {
        Some(d) => {
            if d.len() > 0 {
                return sized_reply_bytes(d);
            }
        },
        None => {},
    }
    let r: Vec<u8> = vec![45u8, 49u8, 10u8];
    assert(r@ =~= failure_reply());
    r
}

/// The reply to `dir` that carries a listing: `OK `, its length in
/// decimal, a newline, then the listing.
pub open spec fn listing_reply(listing: Seq<u8>) -> Seq<u8> {
    seq![79u8, 75u8, 32u8] + sized_reply(listing)
}

/// The reply to `dir` when the listing failed: `Err dir failed` and a
/// newline.
pub open spec fn listing_failure_reply() -> Seq<u8> {
    seq![69u8, 114u8, 114u8, 32u8, 100u8, 105u8, 114u8, 32u8, 102u8, 97u8, 105u8, 108u8, 101u8, 100u8, 10u8]
}

/// The reply to `dir` (see `listing_reply`).
pub fn dir_reply(listing: Option<&[u8]>) -> (r: Vec<u8>)
    ensures
        r@ == match listing {
            Some(d) => listing_reply(d@),
            None => listing_failure_reply(),
        },
{
    match listing {
        Some(d) => {
            let mut r: Vec<u8> = vec![79u8, 75u8, 32u8];
            let body = sized_reply_bytes(d);
            let ghost head = r@;
            let mut k: usize = 0;
            while k < body.len()
                invariant
                    k <= body@.len(),
                    r@ == head + body@.subrange(0, k as int),
                decreases body@.len() - k,
            {
                r.push(body[k]);
                k = k + 1;
                assert(r@ =~= head + body@.subrange(0, k as int));
            }
            assert(body@.subrange(0, body@.len() as int) =~= body@);
            assert(r@ =~= listing_reply(d@));
            r
        },
        None => {
            let r: Vec<u8> = vec![
                69u8,
                114u8,
                114u8,
                32u8,
                100u8,
                105u8,
                114u8,
                32u8,
                102u8,
                97u8,
                105u8,
                108u8,
                101u8,
                100u8,
                10u8,
            ];
            assert(r@ =~= listing_failure_reply());
            r
        },
    }
}

/// The reply to `put`: `ok` or `failed`, and a newline.
pub open spec fn put_reply(succeeded: bool) -> Seq<u8> {
    if succeeded {
        seq![111u8, 107u8, 10u8]
    } else {
        seq![102u8, 97u8, 105u8, 108u8, 101u8, 100u8, 10u8]
    }
}

/// The reply to `put` (see `put_reply`).
pub fn put_reply_bytes(succeeded: bool) -> (r: Vec<u8>)
    ensures
        r@ == put_reply(succeeded),
{
    let r: Vec<u8> = if succeeded {
        vec![111u8, 107u8, 10u8]
    } else {
        vec![102u8, 97u8, 105u8, 108u8, 101u8, 100u8, 10u8]
    };
    assert(r@ =~= put_reply(succeeded));
    r
}

/// Storing an upload: the file is created under the last component of
/// `path` (so in the root directory) and `data` is written to it.  Gives
/// whether both succeeded and the image after; when the creation fails,
/// nothing is written.
pub open spec fn spec_put(s: Seq<u8>, bs: usize, path: Seq<u8>, data: Seq<u8>) -> (bool, Seq<u8>) {
    let name = spec_split_path(path).1;
    let (cr, s1) = spec_create_file(s, bs, name);
    if cr is Err {
        (false, s1)
    } else {
        let (wr, s2) = spec_write(s1, bs, name, data);
        (wr is Ok, s2)
    }
}

/// Stores an upload of `data` for `path` in `fs` (see `spec_put`) and
/// gives whether it succeeded.
pub fn put_file(fs: &mut MinixFs, path: &str, data: &[u8]) -> (r: bool)
    ensures
        final(fs).block_size() == old(fs).block_size(),
        (r, final(fs).image()) == spec_put(old(fs).image(), old(fs).block_size(), path.spec_bytes(), data@),
{
    let (_, name) = split_path_and_filename(path.as_bytes());
    if fs.create_file(name).is_err() {
        return false;
    }
    fs.write(name, data).is_ok()
}

} // verus!
