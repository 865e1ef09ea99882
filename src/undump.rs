//! Reading dump lines back into bytes.
use vstd::prelude::*;
use crate::text::{chars_of, digit_value, hex_value, is_white_space, white_space};

verus! {

/// Why a dump could not be read back.
#[derive(Debug, Clone, Copy, PartialEq, Eq, Structural)]
pub enum HexError {
    /// A line holds no `:` after its offset.
    MissingOffsetDelimiter,
    /// No two consecutive spaces end the hexadecimal section of a line.
    MissingPanelSeparator,
    /// The hexadecimal section would start past the end of the line.
    LineTooShort,
    /// The hexadecimal section holds an odd number of digits.
    OddDigitCount,
    /// The hexadecimal section holds a character that is not a hexadecimal digit.
    InvalidHexDigit,
    /// The input of a reverse dump is not UTF-8 text.
    InvalidUtf8,
}

impl HexError {
    /// A short description of the error.
    pub fn message(&self) -> &'static str {
        match self {
            HexError::MissingOffsetDelimiter => "malformed line: missing ':'",
            HexError::MissingPanelSeparator => "malformed line: missing double space separator",
            HexError::LineTooShort => "malformed line: line too short",
            HexError::OddDigitCount => "malformed hex: odd number of hex digits",
            HexError::InvalidHexDigit => "malformed line: invalid hex char",
            HexError::InvalidUtf8 => "failed to read from input: stream did not contain valid UTF-8",
        }
    }
}

/// Whitespace as `char::is_whitespace` decides it: within ASCII, space, tab,
/// line feed, vertical tab, form feed and carriage return.
pub open spec fn is_space(c: char) -> bool {
    if (c as u32) < 128 {
        c == ' ' || ('\t' <= c && c <= '\r')
    } else {
        white_space(c)
    }
}

pub(crate) fn space_char(c: char) -> (r: bool)
    ensures
        r == is_space(c),
{
    if (c as u32) < 128 {
        c == ' ' || ('\t' <= c && c <= '\r')
    } else {
        is_white_space(c)
    }
}

/// The first index at or after `i` where `c` stands.
pub open spec fn find_char_from(s: Seq<char>, c: char, i: nat) -> Option<nat>
    decreases s.len() - i,
{
    if i >= s.len() {
        None
    } else if s[i as int] == c {
        Some(i)
    } else {
        find_char_from(s, c, i + 1)
    }
}

/// The first index at or after `i` where two spaces begin.
pub open spec fn find_gap_from(s: Seq<char>, i: nat) -> Option<nat>
    decreases s.len() - i,
{
    if i + 1 >= s.len() {
        None
    } else if s[i as int] == ' ' && s[(i + 1) as int] == ' ' {
        Some(i)
    } else {
        find_gap_from(s, i + 1)
    }
}

/// The characters of `s` that are not whitespace.
pub open spec fn strip_spaces(s: Seq<char>) -> Seq<char>
    decreases s.len(),
{
    if s.len() == 0 {
        Seq::empty()
    } else {
        strip_spaces(s.drop_last()) + if is_space(s.last()) {
            Seq::empty()
        } else {
            seq![s.last()]
        }
    }
}

/// `r` with `prefix` put in front of its bytes.
pub open spec fn prepend(prefix: Seq<u8>, r: Result<Seq<u8>, HexError>) -> Result<Seq<u8>, HexError> {
    match r {
        Ok(b) => Ok(prefix + b),
        Err(e) => Err(e),
    }
}

/// The bytes that a run of hexadecimal digits spells, two digits each, the high
/// nibble first.
pub open spec fn decode_pairs(d: Seq<char>) -> Result<Seq<u8>, HexError>
    decreases d.len(),
{
    if d.len() == 0 {
        Ok(Seq::empty())
    } else if d.len() == 1 {
        Err(HexError::OddDigitCount)
    } else {
        match (hex_value(d[0]), hex_value(d[1])) {
            (Some(h), Some(l)) => prepend(seq![(h * 16 + l) as u8], decode_pairs(d.skip(2))),
            _ => Err(HexError::InvalidHexDigit),
        }
    }
}

/// The bytes of one dump line: those of its hexadecimal section, which starts two
/// characters after the first `:` and ends where two spaces first follow.
pub open spec fn decode_line(s: Seq<char>) -> Result<Seq<u8>, HexError> {
    match find_char_from(s, ':', 0) {
        None => Err(HexError::MissingOffsetDelimiter),
        Some(colon) => {
            let start = colon + 2;
            if start > s.len() {
                Err(HexError::LineTooShort)
            } else {
                match find_gap_from(s, start) {
                    None => Err(HexError::MissingPanelSeparator),
                    Some(end) => decode_pairs(strip_spaces(s.subrange(start as int, end as int))),
                }
            }
        },
    }
}

pub open spec fn bytes_result(r: Result<Vec<u8>, HexError>) -> Result<Seq<u8>, HexError> {
    match r {
        Ok(v) => Ok(v@),
        Err(e) => Err(e),
    }
}

proof fn lemma_find_char_bounds(s: Seq<char>, c: char, i: nat)
    ensures
        find_char_from(s, c, i) matches Some(k) ==> i <= k < s.len() && s[k as int] == c,
    decreases s.len() - i,
{
    if i < s.len() && s[i as int] != c {
        lemma_find_char_bounds(s, c, i + 1);
    }
}

/// Decodes the bytes of one dump line.
fn decode_line_chars(s: &Vec<char>) -> (r: Result<Vec<u8>, HexError>)
    ensures
        bytes_result(r) == decode_line(s@),
{
    let len = s.len();
    let mut i: usize = 0;
    while i < len && s[i] != ':'
        invariant
            i <= len == s@.len(),
            find_char_from(s@, ':', 0) == find_char_from(s@, ':', i as nat),
        decreases len - i,
    {
        i = i + 1;
    }
    if i == len {
        return Err(HexError::MissingOffsetDelimiter);
    }
    if len - i < 2 {
        return Err(HexError::LineTooShort);
    }
    let start: usize = i + 2;
    let mut k: usize = start;
    while k < len - 1 && !(s[k] == ' ' && s[k + 1] == ' ')
        invariant
            2 <= start <= k <= len == s@.len(),
            find_gap_from(s@, start as nat) == find_gap_from(s@, k as nat),
        decreases len - k,
    {
        k = k + 1;
    }
    if k >= len - 1 {
        return Err(HexError::MissingPanelSeparator);
    }
    let end = k;
    assert(find_char_from(s@, ':', 0) == Some(i as nat));
    assert(find_gap_from(s@, start as nat) == Some(end as nat));
    let ghost section = s@.subrange(start as int, end as int);
    let mut dense: Vec<char> = Vec::new();
    let mut j: usize = start;
    while j < end
        invariant
            start <= j <= end < len == s@.len(),
            section == s@.subrange(start as int, end as int),
            dense@ == strip_spaces(section.take(j - start)),
        decreases end - j,
    {
        let c = s[j];
        if !space_char(c) {
            dense.push(c);
        }
        proof {
            let t = section.take(j + 1 - start);
            assert(t.drop_last() =~= section.take(j - start));
            assert(t.last() == c);
        }
        j = j + 1;
    }
    assert(section.take(end - start) =~= section);
    assert(decode_line(s@) == decode_pairs(dense@));
    let dl = dense.len();
    let mut out: Vec<u8> = Vec::new();
    let mut p: usize = 0;
    assert(dense@.skip(0) =~= dense@);
    assert(prepend(out@, decode_pairs(dense@)) == decode_pairs(dense@)) by {
        assert(Seq::<u8>::empty() + Seq::<u8>::empty() =~= Seq::<u8>::empty());
        if let Ok(b) = decode_pairs(dense@) {
            assert(out@ + b =~= b);
        }
    }
    while p < dl
        invariant
            p <= dl == dense@.len(),
            decode_line(s@) == decode_pairs(dense@),
            decode_pairs(dense@) == prepend(out@, decode_pairs(dense@.skip(p as int))),
        decreases dl - p,
    {
        let ghost rest = dense@.skip(p as int);
        if dl - p < 2 {
            return Err(HexError::OddDigitCount);
        }
        let high = digit_value(dense[p]);
        let low = digit_value(dense[p + 1]);
        match (high, low) {
            (Some(h), Some(l)) => {
                let ghost before = out@;
                out.push(h * 16 + l);
                proof {
                    assert(rest.skip(2) =~= dense@.skip(p + 2));
                    let b = (h * 16 + l) as u8;
                    assert(before + seq![b] =~= out@);
                    match decode_pairs(rest.skip(2)) {
                        Ok(x) => {
                            assert(before + (seq![b] + x) =~= out@ + x);
                        },
                        Err(e) => {},
                    }
                }
            },
            _ => {
                return Err(HexError::InvalidHexDigit);
            },
        }
        p = p + 2;
    }
    assert(dense@.skip(dl as int) =~= Seq::<char>::empty());
    assert(out@ + Seq::<u8>::empty() =~= out@);
    Ok(out)
}

/// Appends to `line` the bytes of the dump line `buffer`; on an error `line` is
/// left as it was.
pub fn format_reverse_hex_dump_line(line: &mut Vec<u8>, buffer: &str) -> (r: Result<(), HexError>)
    ensures
        match decode_line(buffer@) {
            Ok(b) => r is Ok && final(line)@ == old(line)@ + b,
            Err(e) => r == Err::<(), HexError>(e) && final(line)@ == old(line)@,
        },
{
    let chars = chars_of(buffer);
    match decode_line_chars(&chars) {
        Ok(bytes) => {
            let mut bytes = bytes;
            line.append(&mut bytes);
            Ok(())
        },
        Err(e) => Err(e),
    }
}

/// Length of the first line of `s`, its line feed included.
pub open spec fn line_len(s: Seq<char>) -> nat {
    match find_char_from(s, '\n', 0) {
        Some(k) => k + 1,
        None => s.len(),
    }
}

/// The bytes of a whole dump: those of each line in turn; the first line that
/// cannot be read gives the error.
pub open spec fn undump(s: Seq<char>) -> Result<Seq<u8>, HexError>
    decreases s.len(),
    via undump_decreases
{
    if s.len() == 0 {
        Ok(Seq::empty())
    } else {
        let n = line_len(s);
        match decode_line(s.take(n as int)) {
            Ok(b) => prepend(b, undump(s.skip(n as int))),
            Err(e) => Err(e),
        }
    }
}

#[via_fn]
proof fn undump_decreases(s: Seq<char>) {
    lemma_find_char_bounds(s, '\n', 0);
}

/// Reads a whole dump back into the bytes it shows.
pub fn reverse_hex_dump(text: &str) -> (r: Result<Vec<u8>, HexError>)
    ensures
        bytes_result(r) == undump(text@),
{
    let s = chars_of(text);
    let len = s.len();
    let mut out: Vec<u8> = Vec::new();
    let mut pos: usize = 0;
    assert(s@.skip(0) =~= s@);
    assert(prepend(out@, undump(s@)) == undump(s@)) by {
        if let Ok(b) = undump(s@) {
            assert(out@ + b =~= b);
        }
    }
    while pos < len
        invariant
            pos <= len == s@.len(),
            s@ == text@,
            undump(s@) == prepend(out@, undump(s@.skip(pos as int))),
        decreases len - pos,
    {
        let ghost rest = s@.skip(pos as int);
        let mut e: usize = pos;
        while e < len && s[e] != '\n'
            invariant
                pos <= e <= len == s@.len(),
                rest == s@.skip(pos as int),
                find_char_from(rest, '\n', 0) == find_char_from(rest, '\n', (e - pos) as nat),
            decreases len - e,
        {
            e = e + 1;
        }
        let next: usize = if e < len { e + 1 } else { len };
        assert(line_len(rest) == next - pos);
        let mut line: Vec<char> = Vec::new();
        let mut j: usize = pos;
        while j < next
            invariant
                pos <= j <= next <= len == s@.len(),
                line@ == s@.subrange(pos as int, j as int),
            decreases next - j,
        {
            line.push(s[j]);
            assert(line@ =~= s@.subrange(pos as int, j + 1));
            j = j + 1;
        }
        assert(line@ =~= rest.take(next - pos));
        let ghost before = out@;
        match decode_line_chars(&line) {
            Ok(bytes) => {
                let mut bytes = bytes;
                let ghost b = bytes@;
                out.append(&mut bytes);
                proof {
                    assert(rest.skip(next - pos) =~= s@.skip(next as int));
                    if let Ok(x) = undump(s@.skip(next as int)) {
                        assert(before + (b + x) =~= out@ + x);
                    }
                }
            },
            Err(e) => {
                return Err(e);
            },
        }
        pos = next;
    }
    assert(s@.skip(len as int) =~= Seq::<char>::empty());
    assert(out@ + Seq::<u8>::empty() =~= out@);
    Ok(out)
}

} // verus!
