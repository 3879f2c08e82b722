//! Text: reading an unsigned number the way `str::parse` does, writing
//! one, splitting a line at white space, and telling UTF-8 apart.
use vstd::prelude::*;
use vstd::string::StrSliceExecFns;

verus! {

/// Whether `c` is an ASCII decimal digit.
pub open spec fn is_digit(c: char) -> bool {
    48 <= (c as u32) && (c as u32) <= 57
}

/// The value of a string of decimal digits (0 for the empty string).
pub open spec fn digits_value(ds: Seq<char>) -> nat
    decreases ds.len(),
{
    if ds.len() == 0 {
        0
    } else {
        digits_value(ds.drop_last()) * 10 + ((ds.last() as u32) - 48) as nat
    }
}

/// The digits of an unsigned number: the text without a leading `+`.
pub open spec fn unsigned_digits(s: Seq<char>) -> Seq<char> {
    if s.len() > 0 && s[0] == '+' {
        s.drop_first()
    } else {
        s
    }
}

/// The unsigned number that `s` spells, as `str::parse` reads one: an
/// optional `+` and then one or more decimal digits, with a value of at
/// most `max`; nothing otherwise.
pub open spec fn parse_unsigned(s: Seq<char>, max: nat) -> Option<nat> {
    let ds = unsigned_digits(s);
    if ds.len() > 0 && (forall|i: int| 0 <= i < ds.len() ==> is_digit(#[trigger] ds[i]))
        && digits_value(ds) <= max {
        Some(digits_value(ds))
    } else {
        None
    }
}

/// Reads the unsigned number that `s` spells (see `parse_unsigned`).
pub fn parse_unsigned_str(s: &str, max: usize) -> (r: Option<usize>)
    ensures
        match parse_unsigned(s@, max as nat) {
            Some(v) => r == Some(v as usize),
            None => r is None,
        },
{
    let n = s.unicode_len();
    let mut start: usize = 0;
    if n > 0 && s.get_char(0) == '+' {
        start = 1;
    }
    let ghost ds = s@.subrange(start as int, n as int);
    assert(ds =~= unsigned_digits(s@));
    if start >= n {
        return None;
    }
    let mut value: usize = 0;
    let mut over = false;
    let mut i: usize = start;
    assert(s@.subrange(start as int, start as int) =~= Seq::<char>::empty());
    while i < n
        invariant
            start <= i <= n,
            n == s@.len(),
            ds == s@.subrange(start as int, n as int),
            ds == unsigned_digits(s@),
            forall|k: int| start <= k < i ==> is_digit(#[trigger] s@[k]),
            !over ==> value == digits_value(s@.subrange(start as int, i as int)) && value <= max,
            over ==> digits_value(s@.subrange(start as int, i as int)) > max,
        decreases n - i,
    {
        let c = s.get_char(i);
        let code = c as u32;
        if code < 48 || code > 57 {
            assert(!is_digit(ds[i - start]));
            return None;
        }
        let d = (code - 48) as usize;
        proof {
            assert(s@.subrange(start as int, i + 1).drop_last() =~= s@.subrange(start as int, i as int));
        }
        if !over {
            match value.checked_mul(10) {
                Some(v10) => match v10.checked_add(d) {
                    Some(v) => {
                        if v <= max {
                            value = v;
                        } else {
                            over = true;
                        }
                    },
                    None => {
                        over = true;
                    },
                },
                None => {
                    over = true;
                },
            }
        }
        i = i + 1;
    }
    assert forall|k: int| 0 <= k < ds.len() implies is_digit(#[trigger] ds[k]) by {
        assert(ds[k] == s@[start + k]);
    }
    if over {
        None
    } else {
        Some(value)
    }
}

/// The decimal digits of `n`, as bytes.
pub open spec fn decimal(n: nat) -> Seq<u8>
    decreases n,
{
    if n < 10 {
        seq![(48 + n) as u8]
    } else {
        decimal(n / 10).push((48 + n % 10) as u8)
    }
}

/// Appends the decimal digits of `n` to `out`.
pub fn push_decimal(out: &mut Vec<u8>, n: usize)
    ensures
        final(out)@ == old(out)@ + decimal(n as nat),
    decreases n,
{
    if n >= 10 {
        push_decimal(out, n / 10);
    }
    let ghost mid = out@;
    out.push((48 + n % 10) as u8);
    if n >= 10 {
        assert(out@ =~= old(out)@ + decimal(n as nat));
    } else {
        assert(out@ =~= old(out)@ + decimal(n as nat));
    }
}

/// Whether `c` is white space as `char::is_whitespace` has it (the
/// Unicode `White_Space` property).
pub open spec fn is_white_space(c: char) -> bool {
    let u = c as u32;
    (9 <= u && u <= 13) || u == 32 || u == 0x85 || u == 0xA0 || u == 0x1680 || (0x2000 <= u && u
        <= 0x200A) || u == 0x2028 || u == 0x2029 || u == 0x202F || u == 0x205F || u == 0x3000
}

/// Whether `c` is white space (see `is_white_space`).
pub fn white_space(c: char) -> (r: bool)
    ensures
        r == is_white_space(c),
{
    let u = c as u32;
    (9 <= u && u <= 13) || u == 32 || u == 0x85 || u == 0xA0 || u == 0x1680 || (0x2000 <= u && u
        <= 0x200A) || u == 0x2028 || u == 0x2029 || u == 0x202F || u == 0x205F || u == 0x3000
}

/// The end of the word that starts at `i`: the first white space at or
/// after `i`, or the end of `s`.
pub open spec fn word_end(s: Seq<char>, i: int) -> int
    decreases s.len() - i,
{
    if i >= s.len() || i < 0 {
        s.len() as int
    } else if is_white_space(s[i]) {
        i
    } else {
        word_end(s, i + 1)
    }
}

/// The words of `s` from index `i` on: the maximal runs of characters
/// that are not white space, in order (as `str::split_whitespace` gives
/// them).
pub open spec fn words_from(s: Seq<char>, i: int) -> Seq<Seq<char>>
    decreases s.len() - i,
{
    if i >= s.len() || i < 0 {
        Seq::empty()
    } else if is_white_space(s[i]) {
        words_from(s, i + 1)
    } else {
        let e = word_end(s, i);
        if e <= i || e > s.len() {
            Seq::empty()
        } else {
            seq![s.subrange(i, e)] + words_from(s, e)
        }
    }
}

/// The words of `s`.
pub open spec fn words(s: Seq<char>) -> Seq<Seq<char>> {
    words_from(s, 0)
}

pub proof fn lemma_word_end_bounds(s: Seq<char>, i: int)
    requires
        0 <= i <= s.len(),
    ensures
        i <= word_end(s, i) <= s.len(),
        word_end(s, i) < s.len() ==> is_white_space(s[word_end(s, i)]),
        forall|j: int| i <= j < word_end(s, i) ==> !is_white_space(s[j]),
    decreases s.len() - i,
{
    if i < s.len() && !is_white_space(s[i]) {
        lemma_word_end_bounds(s, i + 1);
    }
}

/// The next word at or after index `i` of `s`, which has `n` characters:
/// its start and end, or `None` when only white space remains.
pub fn next_word(s: &str, n: usize, i: usize) -> (r: Option<(usize, usize)>)
    requires
        n == s@.len(),
        i <= n,
    ensures
        match r {
            None => words_from(s@, i as int) == Seq::<Seq<char>>::empty(),
            Some((st, e)) => {
                &&& i <= st < e <= n
                &&& words_from(s@, i as int) == seq![s@.subrange(st as int, e as int)] + words_from(
                    s@,
                    e as int,
                )
            },
        },
{
    let mut st = i;
    while st < n && white_space(s.get_char(st))
        invariant
            i <= st <= n,
            n == s@.len(),
            words_from(s@, i as int) == words_from(s@, st as int),
        decreases n - st,
    {
        st = st + 1;
    }
    if st >= n {
        return None;
    }
    let mut e = st;
    while e < n && !white_space(s.get_char(e))
        invariant
            st <= e <= n,
            n == s@.len(),
            st < n,
            !is_white_space(s@[st as int]),
            word_end(s@, st as int) == word_end(s@, e as int),
        decreases n - e,
    {
        e = e + 1;
    }
    proof {
        lemma_word_end_bounds(s@, st as int);
    }
    Some((st, e))
}

/// Whether `b` lies in `lo..=hi`.
pub open spec fn byte_in(b: u8, lo: u8, hi: u8) -> bool {
    lo <= b && b <= hi
}

/// Whether `s` has a continuation byte (`0x80..=0xBF`) at `j`.
pub open spec fn is_cont(s: Seq<u8>, j: int) -> bool {
    0 <= j < s.len() && byte_in(s[j], 0x80, 0xBF)
}

/// The length of the well-formed UTF-8 encoding of one character that
/// starts at `i` (RFC 3629: no overlong forms, no surrogates, nothing
/// above U+10FFFF), or 0 when none starts there.
pub open spec fn utf8_char_len(s: Seq<u8>, i: int) -> int {
    if i < 0 || i >= s.len() {
        0
    } else {
        let b = s[i];
        if b <= 0x7F {
            1
        } else if byte_in(b, 0xC2, 0xDF) {
            if is_cont(s, i + 1) {
                2
            } else {
                0
            }
        } else if b == 0xE0 {
            if i + 1 < s.len() && byte_in(s[i + 1], 0xA0, 0xBF) && is_cont(s, i + 2) {
                3
            } else {
                0
            }
        } else if byte_in(b, 0xE1, 0xEC) || byte_in(b, 0xEE, 0xEF) {
            if is_cont(s, i + 1) && is_cont(s, i + 2) {
                3
            } else {
                0
            }
        } else if b == 0xED {
            if i + 1 < s.len() && byte_in(s[i + 1], 0x80, 0x9F) && is_cont(s, i + 2) {
                3
            } else {
                0
            }
        } else if b == 0xF0 {
            if i + 1 < s.len() && byte_in(s[i + 1], 0x90, 0xBF) && is_cont(s, i + 2) && is_cont(
                s,
                i + 3,
            ) {
                4
            } else {
                0
            }
        } else if byte_in(b, 0xF1, 0xF3) {
            if is_cont(s, i + 1) && is_cont(s, i + 2) && is_cont(s, i + 3) {
                4
            } else {
                0
            }
        } else if b == 0xF4 {
            if i + 1 < s.len() && byte_in(s[i + 1], 0x80, 0x8F) && is_cont(s, i + 2) && is_cont(
                s,
                i + 3,
            ) {
                4
            } else {
                0
            }
        } else {
            0
        }
    }
}

/// Whether the bytes of `s` from `i` on are well-formed UTF-8.
pub open spec fn utf8_from(s: Seq<u8>, i: int) -> bool
    decreases s.len() - i,
{
    if i >= s.len() || i < 0 {
        true
    } else {
        let n = utf8_char_len(s, i);
        n > 0 && utf8_from(s, i + n)
    }
}

/// Whether `s` is well-formed UTF-8, as `str::from_utf8` accepts it.
pub open spec fn is_utf8(s: Seq<u8>) -> bool {
    utf8_from(s, 0)
}

/// The text `<invalid utf8>`.
pub open spec fn invalid_utf8_text() -> Seq<u8> {
    seq![60u8, 105u8, 110u8, 118u8, 97u8, 108u8, 105u8, 100u8, 32u8, 117u8, 116u8, 102u8, 56u8, 62u8]
}

/// The text `s` stands for: itself where it is UTF-8, else
/// `<invalid utf8>`.
pub open spec fn utf8_or_invalid(s: Seq<u8>) -> Seq<u8> {
    if is_utf8(s) {
        s
    } else {
        invalid_utf8_text()
    }
}

fn is_cont_at(s: &[u8], j: usize) -> (r: bool)
    ensures
        r == is_cont(s@, j as int),
{
    j < s.len() && 0x80 <= s[j] && s[j] <= 0xBF
}

/// The length of the character encoding that starts at `i` (see
/// `utf8_char_len`).
fn utf8_char_len_at(s: &[u8], i: usize) -> (r: usize)
    requires
        i < s.len(),
    ensures
        r == utf8_char_len(s@, i as int),
{
    let b = s[i];
    let n = s.len();
    if b <= 0x7F {
        1
    } else if 0xC2 <= b && b <= 0xDF {
        if is_cont_at(s, i + 1) {
            2
        } else {
            0
        }
    } else if b == 0xE0 {
        if i + 1 < n && 0xA0 <= s[i + 1] && s[i + 1] <= 0xBF && is_cont_at(s, i + 2) {
            3
        } else {
            0
        }
    } else if (0xE1 <= b && b <= 0xEC) || (0xEE <= b && b <= 0xEF) {
        if is_cont_at(s, i + 1) && is_cont_at(s, i + 2) {
            3
        } else {
            0
        }
    } else if b == 0xED {
        if i + 1 < n && 0x80 <= s[i + 1] && s[i + 1] <= 0x9F && is_cont_at(s, i + 2) {
            3
        } else {
            0
        }
    } else if b == 0xF0 {
        if i + 1 < n && 0x90 <= s[i + 1] && s[i + 1] <= 0xBF && is_cont_at(s, i + 2) && is_cont_at(
            s,
            i + 3,
        ) {
            4
        } else {
            0
        }
    } else if 0xF1 <= b && b <= 0xF3 {
        if is_cont_at(s, i + 1) && is_cont_at(s, i + 2) && is_cont_at(s, i + 3) {
            4
        } else {
            0
        }
    } else if b == 0xF4 {
        if i + 1 < n && 0x80 <= s[i + 1] && s[i + 1] <= 0x8F && is_cont_at(s, i + 2) && is_cont_at(
            s,
            i + 3,
        ) {
            4
        } else {
            0
        }
    } else {
        0
    }
}

/// Whether `s` is well-formed UTF-8 (see `is_utf8`).
pub fn valid_utf8(s: &[u8]) -> (r: bool)
    ensures
        r == is_utf8(s@),
{
    let mut i: usize = 0;
    while i < s.len()
        invariant
            i <= s@.len(),
            is_utf8(s@) == utf8_from(s@, i as int),
        decreases s@.len() - i,
    {
        let n = utf8_char_len_at(s, i);
        if n == 0 {
            return false;
        }
        assert(i + n <= s@.len()) by {
            assert(utf8_char_len(s@, i as int) <= 1 || is_cont(s@, i + utf8_char_len(s@, i as int)
                - 1));
        }
        i = i + n;
    }
    true
}

/// Appends the text `s` stands for to `out` (see `utf8_or_invalid`).
pub fn push_utf8_or_invalid(out: &mut Vec<u8>, s: &[u8])
    ensures
        final(out)@ == old(out)@ + utf8_or_invalid(s@),
{
    if valid_utf8(s) {
        let mut k: usize = 0;
        while k < s.len()
            invariant
                k <= s@.len(),
                is_utf8(s@),
                out@ == old(out)@ + s@.subrange(0, k as int),
            decreases s@.len() - k,
        {
            out.push(s[k]);
            k = k + 1;
            assert(out@ =~= old(out)@ + s@.subrange(0, k as int));
        }
        assert(s@.subrange(0, s@.len() as int) =~= s@);
    } else {
        let t: [u8; 14] = [60u8, 105u8, 110u8, 118u8, 97u8, 108u8, 105u8, 100u8, 32u8, 117u8, 116u8, 102u8, 56u8, 62u8];
        let mut k: usize = 0;
        while k < 14
            invariant
                k <= 14,
                t@ == invalid_utf8_text(),
                !is_utf8(s@),
                out@ == old(out)@ + invalid_utf8_text().subrange(0, k as int),
            decreases 14 - k,
        {
            out.push(t[k]);
            k = k + 1;
            assert(out@ =~= old(out)@ + invalid_utf8_text().subrange(0, k as int));
        }
        assert(invalid_utf8_text().subrange(0, 14) =~= invalid_utf8_text());
    }
}

} // verus!
