//! Rendering bytes as dump lines.
use vstd::prelude::*;
use crate::text::{hex_char, nibble_char, push_char};

verus! {

/// Lowercase hexadecimal digits of `n`, zero-padded on the left to at least `width` digits.
pub open spec fn hex_text(n: nat, width: nat) -> Seq<char>
    decreases n + width,
{
    if n < 16 && width <= 1 {
        seq![hex_char(n)]
    } else {
        hex_text(n / 16, if width > 0 { (width - 1) as nat } else { 0 }) + seq![hex_char(n % 16)]
    }
}

/// The two hexadecimal digits of a byte.
pub open spec fn byte_text(b: u8) -> Seq<char> {
    seq![hex_char(b as nat / 16), hex_char(b as nat % 16)]
}

/// The space written before the byte at index `i` when a new group starts there.
pub open spec fn group_gap(i: nat, byte_groups: nat) -> Seq<char> {
    if i > 0 && i % byte_groups == 0 {
        seq![' ']
    } else {
        Seq::empty()
    }
}

/// The hexadecimal digits of a chunk, a space between consecutive groups.
pub open spec fn hex_body(chunk: Seq<u8>, byte_groups: nat) -> Seq<char>
    decreases chunk.len(),
{
    if chunk.len() == 0 {
        Seq::empty()
    } else {
        hex_body(chunk.drop_last(), byte_groups) + group_gap((chunk.len() - 1) as nat, byte_groups)
            + byte_text(chunk.last())
    }
}

/// Number of spaces that stand in for the bytes missing from a chunk of `read` bytes.
pub open spec fn padding_len(read: nat, cols: nat, byte_groups: nat) -> nat {
    if read < cols {
        ((cols - read) * 2 + (cols - read) / byte_groups as int) as nat
    } else {
        0
    }
}

pub open spec fn spaces(n: nat) -> Seq<char> {
    Seq::new(n, |i: int| ' ')
}

/// The hexadecimal section of a line: digits, then padding for a short chunk.
pub open spec fn hex_section(chunk: Seq<u8>, cols: nat, byte_groups: nat) -> Seq<char> {
    hex_body(chunk, byte_groups) + spaces(padding_len(chunk.len(), cols, byte_groups))
}

/// A printable ASCII byte stands for itself, any other byte for `.`.
pub open spec fn panel_char(b: u8) -> char {
    if 0x20 <= b && b <= 0x7e {
        b as char
    } else {
        '.'
    }
}

pub open spec fn panel(chunk: Seq<u8>) -> Seq<char> {
    chunk.map_values(|b: u8| panel_char(b))
}

/// One dump line, without its line terminator.
pub open spec fn dump_line(chunk: Seq<u8>, offset: nat, cols: nat, byte_groups: nat) -> Seq<char> {
    hex_text(offset, 8) + seq![':', ' '] + hex_section(chunk, cols, byte_groups) + seq![' ', ' ']
        + panel(chunk)
}

/// The dump of `data` whose first line has offset `offset`: one terminated line
/// per chunk of `cols` bytes, the last chunk possibly shorter.
pub open spec fn dump_from(data: Seq<u8>, cols: nat, byte_groups: nat, offset: nat) -> Seq<char>
    decreases data.len(),
{
    if cols == 0 || data.len() == 0 {
        Seq::empty()
    } else {
        let n = if data.len() < cols { data.len() } else { cols };
        dump_line(data.take(n as int), offset, cols, byte_groups) + seq!['\n'] + dump_from(
            data.skip(n as int),
            cols,
            byte_groups,
            offset + n,
        )
    }
}

/// The whole dump of `data`.
pub open spec fn dump_text(data: Seq<u8>, cols: nat, byte_groups: nat) -> Seq<char> {
    dump_from(data, cols, byte_groups, 0)
}

/// Appends the hexadecimal digits of `n`, zero-padded to at least `width` digits.
fn push_hex(s: &mut String, n: usize, width: usize)
    ensures
        final(s)@ == old(s)@ + hex_text(n as nat, width as nat),
    decreases n + width,
{
    if n < 16 && width <= 1 {
        let c = nibble_char(n as u8);
        push_char(s, c);
    } else {
        let w: usize = if width > 0 { width - 1 } else { 0 };
        push_hex(s, n / 16, w);
        let c = nibble_char((n % 16) as u8);
        push_char(s, c);
        assert(final(s)@ =~= old(s)@ + hex_text(n as nat, width as nat));
    }
}

/// Appends the dump line of `data[lo..hi]`.
fn push_dump_line(
    s: &mut String,
    data: &[u8],
    lo: usize,
    hi: usize,
    offset: usize,
    cols: usize,
    byte_groups: usize,
)
    requires
        lo <= hi <= data@.len(),
        cols <= 256,
        byte_groups >= 1,
    ensures
        final(s)@ == old(s)@ + dump_line(
            data@.subrange(lo as int, hi as int),
            offset as nat,
            cols as nat,
            byte_groups as nat,
        ),
{
    let ghost chunk = data@.subrange(lo as int, hi as int);
    let ghost start = s@;
    push_hex(s, offset, 8);
    push_char(s, ':');
    push_char(s, ' ');
    let ghost head = s@;
    let mut i: usize = lo;
    while i < hi
        invariant
            lo <= i <= hi <= data@.len(),
            byte_groups >= 1,
            chunk == data@.subrange(lo as int, hi as int),
            s@ == head + hex_body(chunk.take(i - lo), byte_groups as nat),
        decreases hi - i,
    {
        let k: usize = i - lo;
        if k != 0 && k % byte_groups == 0 {
            push_char(s, ' ');
        }
        let b = data[i];
        push_char(s, nibble_char(b / 16));
        push_char(s, nibble_char(b % 16));
        proof {
            let t = chunk.take(k + 1);
            assert(t.drop_last() =~= chunk.take(k as int));
            assert(t.last() == b);
        }
        assert(s@ =~= head + hex_body(chunk.take(i + 1 - lo), byte_groups as nat));
        i = i + 1;
    }
    assert(chunk.take(hi - lo) =~= chunk);
    let read: usize = hi - lo;
    let ghost body = s@;
    if read < cols {
        let padding: usize = (cols - read) * 2 + (cols - read) / byte_groups;
        let mut j: usize = 0;
        while j < padding
            invariant
                j <= padding,
                s@ == body + spaces(j as nat),
            decreases padding - j,
        {
            push_char(s, ' ');
            assert(s@ =~= body + spaces(j as nat + 1));
            j = j + 1;
        }
    } else {
        assert(s@ =~= body + spaces(0));
    }
    push_char(s, ' ');
    push_char(s, ' ');
    let ghost sep = s@;
    let mut i: usize = lo;
    while i < hi
        invariant
            lo <= i <= hi <= data@.len(),
            chunk == data@.subrange(lo as int, hi as int),
            s@ == sep + panel(chunk.take(i - lo)),
        decreases hi - i,
    {
        let b = data[i];
        let c = if 0x20 <= b && b <= 0x7e {
            b as char
        } else {
            '.'
        };
        push_char(s, c);
        assert(chunk.take(i + 1 - lo) =~= chunk.take(i - lo).push(b));
        assert(s@ =~= sep + panel(chunk.take(i + 1 - lo)));
        i = i + 1;
    }
    assert(s@ =~= old(s)@ + dump_line(chunk, offset as nat, cols as nat, byte_groups as nat));
}

/// Appends to `line` the dump line of `buffer`, a chunk read at `offset`, without
/// a line terminator.
pub fn format_hex_dump_line(
    line: &mut String,
    buffer: &[u8],
    offset: usize,
    cols: usize,
    byte_groups: usize,
)
    requires
        cols <= 256,
        byte_groups >= 1,
    ensures
        final(line)@ == old(line)@ + dump_line(
            buffer@,
            offset as nat,
            cols as nat,
            byte_groups as nat,
        ),
{
    push_dump_line(line, buffer, 0, buffer.len(), offset, cols, byte_groups);
    assert(buffer@.subrange(0, buffer@.len() as int) =~= buffer@);
}

/// The dump of `data`: a line for each chunk of `cols` bytes, the last one
/// possibly shorter, each line ending in a line feed.
pub fn hex_dump(data: &[u8], cols: usize, byte_groups: usize) -> (r: String)
    requires
        cols <= 256,
        byte_groups >= 1,
    ensures
        r@ == dump_text(data@, cols as nat, byte_groups as nat),
{
    let mut out = String::new();
    if cols == 0 {
        return out;
    }
    let len = data.len();
    let mut pos: usize = 0;
    assert(data@.skip(0) =~= data@);
    assert(out@ + dump_text(data@, cols as nat, byte_groups as nat) =~= dump_text(
        data@,
        cols as nat,
        byte_groups as nat,
    ));
    while pos < len
        invariant
            pos <= len == data@.len(),
            1 <= cols <= 256,
            byte_groups >= 1,
            dump_text(data@, cols as nat, byte_groups as nat) == out@ + dump_from(
                data@.skip(pos as int),
                cols as nat,
                byte_groups as nat,
                pos as nat,
            ),
        decreases len - pos,
    {
        let n: usize = if len - pos < cols { len - pos } else { cols };
        let ghost rest = data@.skip(pos as int);
        let ghost before = out@;
        push_dump_line(&mut out, data, pos, pos + n, pos, cols, byte_groups);
        push_char(&mut out, '\n');
        proof {
            assert(rest.take(n as int) =~= data@.subrange(pos as int, pos + n));
            assert(rest.skip(n as int) =~= data@.skip(pos + n));
            let tail = dump_from(data@.skip(pos + n), cols as nat, byte_groups as nat, (pos + n) as nat);
            assert(before + dump_from(rest, cols as nat, byte_groups as nat, pos as nat) =~= out@ + tail);
        }
        pos = pos + n;
    }
    assert(data@.skip(len as int) =~= Seq::<u8>::empty());
    assert(out@ =~= out@ + Seq::<char>::empty());
    out
}

} // verus!
