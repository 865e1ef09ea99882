//! Properties that relate writing a dump and reading it back.
use vstd::prelude::*;
use vstd::arithmetic::div_mod::{lemma_fundamental_div_mod, lemma_fundamental_div_mod_converse};
use vstd::utf8::{encode_utf8_decode_utf8, encode_utf8_valid_utf8};
use crate::hex::run_result;
use crate::dump::{byte_text, dump_from, dump_line, dump_text, group_gap, hex_body, hex_section, hex_text, padding_len, panel, spaces};
use crate::text::{hex_char, hex_value};
use crate::undump::{HexError, decode_line, decode_pairs, find_char_from, find_gap_from, is_space, line_len, prepend, strip_spaces, undump};

verus! {

/// The hexadecimal digits of the bytes of `chunk`, with nothing between them.
pub open spec fn digits(chunk: Seq<u8>) -> Seq<char>
    decreases chunk.len(),
{
    if chunk.len() == 0 {
        Seq::empty()
    } else {
        digits(chunk.drop_last()) + byte_text(chunk.last())
    }
}

proof fn lemma_hex_char(n: nat)
    requires
        n < 16,
    ensures
        hex_value(hex_char(n)) == Some(n),
{
}

proof fn lemma_digit_char(c: char)
    requires
        hex_value(c) is Some,
    ensures
        !is_space(c),
        c != ' ',
        c != ':',
        c != '\n',
{
}

proof fn lemma_hex_text_digits(n: nat, width: nat)
    ensures
        forall|i: int|
            0 <= i < hex_text(n, width).len() ==> hex_value(#[trigger] hex_text(n, width)[i]) is Some,
    decreases n + width,
{
    if n < 16 && width <= 1 {
        lemma_hex_char(n);
    } else {
        let w: nat = if width > 0 {
            (width - 1) as nat
        } else {
            0
        };
        lemma_hex_text_digits(n / 16, w);
        lemma_hex_char(n % 16);
        let t = hex_text(n, width);
        let p = hex_text(n / 16, w);
        assert forall|i: int| 0 <= i < t.len() implies hex_value(#[trigger] t[i]) is Some by {
            if i < p.len() {
                assert(t[i] == p[i]);
            }
        }
    }
}

proof fn lemma_find_char_at(s: Seq<char>, c: char, i: nat, k: nat)
    requires
        i <= k < s.len(),
        s[k as int] == c,
        forall|j: int| i <= j < k ==> s[j] != c,
    ensures
        find_char_from(s, c, i) == Some(k),
    decreases k - i,
{
    if i < k {
        lemma_find_char_at(s, c, i + 1, k);
    }
}

proof fn lemma_find_gap_at(s: Seq<char>, i: nat, k: nat)
    requires
        i <= k,
        k + 1 < s.len(),
        s[k as int] == ' ' && s[(k + 1) as int] == ' ',
        forall|j: int| i <= j < k ==> !(#[trigger] s[j] == ' ' && s[j + 1] == ' '),
    ensures
        find_gap_from(s, i) == Some(k),
    decreases k - i,
{
    if i < k {
        lemma_find_gap_at(s, i + 1, k);
    }
}

proof fn lemma_strip_append(a: Seq<char>, b: Seq<char>)
    ensures
        strip_spaces(a + b) == strip_spaces(a) + strip_spaces(b),
    decreases b.len(),
{
    if b.len() == 0 {
        assert(a + b =~= a);
        assert(strip_spaces(a) + strip_spaces(b) =~= strip_spaces(a));
    } else {
        lemma_strip_append(a, b.drop_last());
        assert((a + b).drop_last() =~= a + b.drop_last());
        assert((a + b).last() == b.last());
        let tail = if is_space(b.last()) {
            Seq::<char>::empty()
        } else {
            seq![b.last()]
        };
        assert(strip_spaces(a) + strip_spaces(b.drop_last()) + tail =~= strip_spaces(a) + (
        strip_spaces(b.drop_last()) + tail));
    }
}

proof fn lemma_strip_byte(b: u8)
    ensures
        strip_spaces(byte_text(b)) == byte_text(b),
{
    let t = byte_text(b);
    lemma_hex_char(b as nat / 16);
    lemma_hex_char(b as nat % 16);
    lemma_digit_char(t[0]);
    lemma_digit_char(t[1]);
    assert(strip_spaces(Seq::<char>::empty()) == Seq::<char>::empty());
    assert(t.drop_last().drop_last() =~= Seq::<char>::empty());
    assert(t.drop_last().last() == t[0]);
    assert(strip_spaces(t.drop_last()) =~= seq![t[0]]);
    assert(strip_spaces(t) =~= t);
}

proof fn lemma_strip_gap(i: nat, g: nat)
    ensures
        strip_spaces(group_gap(i, g)) == Seq::<char>::empty(),
{
    let s = group_gap(i, g);
    assert(strip_spaces(Seq::<char>::empty()) == Seq::<char>::empty());
    if s.len() > 0 {
        assert(s.drop_last() =~= Seq::<char>::empty());
    }
}

proof fn lemma_body_shape(chunk: Seq<u8>, g: nat)
    requires
        g >= 1,
    ensures
        forall|i: int|
            0 <= i < hex_body(chunk, g).len() ==> #[trigger] hex_body(chunk, g)[i] == ' ' || hex_value(
                hex_body(chunk, g)[i],
            ) is Some,
        forall|i: int|
            0 <= i < hex_body(chunk, g).len() - 1 ==> !(#[trigger] hex_body(chunk, g)[i] == ' '
                && hex_body(chunk, g)[i + 1] == ' '),
        chunk.len() > 0 ==> hex_body(chunk, g).len() > 0 && hex_value(hex_body(chunk, g).last()) is Some,
        strip_spaces(hex_body(chunk, g)) == digits(chunk),
    decreases chunk.len(),
{
    let b = hex_body(chunk, g);
    if chunk.len() > 0 {
        let p = hex_body(chunk.drop_last(), g);
        let gap = group_gap((chunk.len() - 1) as nat, g);
        let t = byte_text(chunk.last());
        lemma_body_shape(chunk.drop_last(), g);
        lemma_hex_char(chunk.last() as nat / 16);
        lemma_hex_char(chunk.last() as nat % 16);
        assert(b == p + gap + t);
        assert(gap.len() > 0 ==> p.len() > 0);
        assert forall|i: int| 0 <= i < b.len() implies #[trigger] b[i] == ' ' || hex_value(b[i]) is Some by {
            if i < p.len() {
                assert(b[i] == p[i]);
            } else if i < p.len() + gap.len() {
                assert(b[i] == gap[i - p.len()]);
            } else {
                assert(b[i] == t[i - p.len() - gap.len()]);
            }
        }
        assert forall|i: int| 0 <= i < b.len() - 1 implies !(#[trigger] b[i] == ' ' && b[i + 1] == ' ') by {
            if i + 1 < p.len() {
                assert(b[i] == p[i] && b[i + 1] == p[i + 1]);
            } else if i + 1 == p.len() {
                assert(b[i] == p.last());
                lemma_digit_char(p.last());
            } else {
                assert(b[i + 1] == t[i + 1 - p.len() - gap.len()]);
                lemma_digit_char(t[i + 1 - p.len() - gap.len()]);
            }
        }
        assert(b.last() == t[1]);
        lemma_strip_append(p + gap, t);
        lemma_strip_append(p, gap);
        lemma_strip_gap((chunk.len() - 1) as nat, g);
        lemma_strip_byte(chunk.last());
        assert(strip_spaces(p) + Seq::<char>::empty() =~= strip_spaces(p));
    }
}

proof fn lemma_decode_append(x: Seq<char>, y: Seq<char>, a: Seq<u8>)
    requires
        x.len() % 2 == 0,
        decode_pairs(x) == Ok::<Seq<u8>, HexError>(a),
    ensures
        decode_pairs(x + y) == prepend(a, decode_pairs(y)),
    decreases x.len(),
{
    if x.len() == 0 {
        assert(x + y =~= y);
        if let Ok(r) = decode_pairs(y) {
            assert(a + r =~= r);
        }
    } else {
        let h = hex_value(x[0])->Some_0;
        let l = hex_value(x[1])->Some_0;
        let b = (h * 16 + l) as u8;
        let a2 = decode_pairs(x.skip(2))->Ok_0;
        assert(a == seq![b] + a2);
        lemma_decode_append(x.skip(2), y, a2);
        assert((x + y).skip(2) =~= x.skip(2) + y);
        assert((x + y)[0] == x[0] && (x + y)[1] == x[1]);
        if let Ok(r) = decode_pairs(y) {
            assert(seq![b] + (a2 + r) =~= a + r);
        }
    }
}

proof fn lemma_decode_digits(chunk: Seq<u8>)
    ensures
        digits(chunk).len() == 2 * chunk.len(),
        decode_pairs(digits(chunk)) == Ok::<Seq<u8>, HexError>(chunk),
    decreases chunk.len(),
{
    if chunk.len() > 0 {
        let b = chunk.last();
        let t = byte_text(b);
        lemma_decode_digits(chunk.drop_last());
        lemma_hex_char(b as nat / 16);
        lemma_hex_char(b as nat % 16);
        assert(t.skip(2) =~= Seq::<char>::empty());
        assert(decode_pairs(Seq::<char>::empty()) == Ok::<Seq<u8>, HexError>(
            Seq::empty(),
        ));
        assert(((b as nat / 16) * 16 + b as nat % 16) as u8 == b);
        assert(seq![b] + Seq::<u8>::empty() =~= seq![b]);
        assert(decode_pairs(t) == Ok::<Seq<u8>, HexError>(seq![b]));
        assert(digits(chunk) == digits(chunk.drop_last()) + t);
        lemma_decode_append(digits(chunk.drop_last()), t, chunk.drop_last());
        assert(chunk.drop_last() + seq![b] =~= chunk);
    } else {
        assert(chunk =~= Seq::<u8>::empty());
    }
}

/// A dump line of a non-empty chunk holds no line feed, and reading it back, with
/// its line feed, gives the chunk.
proof fn lemma_decode_dump_line(chunk: Seq<u8>, offset: nat, cols: nat, g: nat)
    requires
        g >= 1,
        chunk.len() >= 1,
    ensures
        forall|i: int|
            0 <= i < dump_line(chunk, offset, cols, g).len() ==> #[trigger] dump_line(
                chunk,
                offset,
                cols,
                g,
            )[i] != '\n',
        decode_line(dump_line(chunk, offset, cols, g) + seq!['\n']) == Ok::<
            Seq<u8>,
            HexError,
        >(chunk),
{
    let h = hex_text(offset, 8);
    let body = hex_body(chunk, g);
    let pad = spaces(padding_len(chunk.len(), cols, g));
    let p = panel(chunk);
    let l = dump_line(chunk, offset, cols, g);
    let line = l + seq!['\n'];
    lemma_hex_text_digits(offset, 8);
    lemma_body_shape(chunk, g);
    assert(l == h + seq![':', ' '] + (body + pad) + seq![' ', ' '] + p);
    let start: int = h.len() + 2int;
    let k: int = start + body.len();
    assert forall|i: int| 0 <= i < l.len() implies #[trigger] l[i] != '\n' by {
        if i < h.len() {
            assert(l[i] == h[i]);
            lemma_digit_char(h[i]);
        } else if i < start {
        } else if i < k {
            assert(l[i] == body[i - start]);
            if body[i - start] != ' ' {
                lemma_digit_char(body[i - start]);
            }
        } else if i < k + pad.len() + 2 {
        } else {
            assert(l[i] == p[i - k - pad.len() - 2]);
        }
    }
    assert forall|j: int| 0 <= j < h.len() implies line[j] != ':' by {
        assert(line[j] == h[j]);
        lemma_digit_char(h[j]);
    }
    lemma_find_char_at(line, ':', 0, h.len());
    assert(line[k] == ' ' && line[k + 1] == ' ') by {
        if pad.len() >= 2 {
            assert(line[k] == pad[0] && line[k + 1] == pad[1]);
        } else if pad.len() == 1 {
            assert(line[k] == pad[0]);
        }
    }
    assert forall|j: int| start <= j < k implies !(#[trigger] line[j] == ' ' && line[j + 1] == ' ') by {
        assert(line[j] == body[j - start]);
        if j + 1 < k {
            assert(line[j + 1] == body[j + 1 - start]);
        } else {
            lemma_digit_char(body.last());
        }
    }
    lemma_find_gap_at(line, start as nat, k as nat);
    assert(line.subrange(start, k) =~= body);
    lemma_decode_digits(chunk);
}

proof fn lemma_undump_dump_from(data: Seq<u8>, cols: nat, g: nat, offset: nat)
    requires
        cols >= 1,
        g >= 1,
    ensures
        undump(dump_from(data, cols, g, offset)) == Ok::<Seq<u8>, HexError>(data),
    decreases data.len(),
{
    let text = dump_from(data, cols, g, offset);
    if data.len() == 0 {
        assert(data =~= Seq::<u8>::empty());
    } else {
        let n: nat = if data.len() < cols {
            data.len()
        } else {
            cols
        };
        let chunk = data.take(n as int);
        let l = dump_line(chunk, offset, cols, g);
        let rest = dump_from(data.skip(n as int), cols, g, offset + n);
        lemma_decode_dump_line(chunk, offset, cols, g);
        lemma_undump_dump_from(data.skip(n as int), cols, g, offset + n);
        assert(text == l + seq!['\n'] + rest);
        assert forall|j: int| 0 <= j < l.len() implies text[j] != '\n' by {
            assert(text[j] == l[j]);
        }
        lemma_find_char_at(text, '\n', 0, l.len());
        assert(line_len(text) == l.len() + 1);
        assert(text.take(l.len() + 1int) =~= l + seq!['\n']);
        assert(text.skip(l.len() + 1int) =~= rest);
        assert(chunk + data.skip(n as int) =~= data);
    }
}

/// Reading back the dump of any bytes, with at least one byte to a line and to a
/// group, gives those bytes.
pub proof fn lemma_round_trip(data: Seq<u8>, cols: nat, byte_groups: nat)
    requires
        cols >= 1 || data.len() == 0,
        byte_groups >= 1,
    ensures
        undump(dump_text(data, cols, byte_groups)) == Ok::<Seq<u8>, HexError>(data),
{
    if cols >= 1 {
        lemma_undump_dump_from(data, cols, byte_groups, 0);
    } else {
        assert(data =~= Seq::<u8>::empty());
    }
}

/// Reading back, with `run`, what `run` made of any bytes gives those bytes.
pub proof fn lemma_run_round_trip(
    data: Seq<u8>,
    cols: nat,
    byte_groups: nat,
    other_cols: nat,
    other_byte_groups: nat,
)
    requires
        cols >= 1 || data.len() == 0,
        byte_groups >= 1,
    ensures
        run_result(false, cols, byte_groups, data) matches Ok(text) && run_result(
            true,
            other_cols,
            other_byte_groups,
            text,
        ) == Ok::<Seq<u8>, HexError>(data),
{
    let t = dump_text(data, cols, byte_groups);
    lemma_round_trip(data, cols, byte_groups);
    encode_utf8_valid_utf8(t);
    encode_utf8_decode_utf8(t);
}

/// Dumping is deterministic: equal bytes and options give equal text.
pub proof fn lemma_dump_deterministic(a: Seq<u8>, b: Seq<u8>, cols: nat, byte_groups: nat)
    requires
        a == b,
    ensures
        dump_text(a, cols, byte_groups) == dump_text(b, cols, byte_groups),
{
}

/// The chunks of `data` that a dump shows, one to a line: `cols` bytes each, the
/// last one possibly fewer.
pub open spec fn chunks(data: Seq<u8>, cols: nat) -> Seq<Seq<u8>>
    decreases data.len(),
{
    if cols == 0 || data.len() == 0 {
        Seq::empty()
    } else {
        let n = if data.len() < cols {
            data.len()
        } else {
            cols
        };
        seq![data.take(n as int)] + chunks(data.skip(n as int), cols)
    }
}

/// The total length of the chunks `cs`.
pub open spec fn total_len(cs: Seq<Seq<u8>>) -> nat
    decreases cs.len(),
{
    if cs.len() == 0 {
        0
    } else {
        total_len(cs.drop_last()) + cs.last().len()
    }
}

/// The terminated lines of the chunks `cs`, the line of `cs[k]` at offset `base`
/// plus the total length of the chunks before it.
pub open spec fn lines_at(cs: Seq<Seq<u8>>, cols: nat, byte_groups: nat, base: nat) -> Seq<char>
    decreases cs.len(),
{
    if cs.len() == 0 {
        Seq::empty()
    } else {
        lines_at(cs.drop_last(), cols, byte_groups, base) + dump_line(
            cs.last(),
            base + total_len(cs.drop_last()),
            cols,
            byte_groups,
        ) + seq!['\n']
    }
}

proof fn lemma_total_len_cons(c: Seq<u8>, cs: Seq<Seq<u8>>)
    ensures
        total_len(seq![c] + cs) == c.len() + total_len(cs),
    decreases cs.len(),
{
    let s = seq![c] + cs;
    if cs.len() == 0 {
        assert(s.drop_last() =~= Seq::<Seq<u8>>::empty());
        assert(total_len(s.drop_last()) == 0);
        assert(s.last() == c);
    } else {
        assert(s.drop_last() =~= seq![c] + cs.drop_last());
        assert(s.last() == cs.last());
        lemma_total_len_cons(c, cs.drop_last());
    }
}

proof fn lemma_lines_cons(c: Seq<u8>, cs: Seq<Seq<u8>>, cols: nat, g: nat, base: nat)
    ensures
        lines_at(seq![c] + cs, cols, g, base) == dump_line(c, base, cols, g) + seq!['\n'] + lines_at(
            cs,
            cols,
            g,
            base + c.len(),
        ),
    decreases cs.len(),
{
    let s = seq![c] + cs;
    let head = dump_line(c, base, cols, g) + seq!['\n'];
    if cs.len() == 0 {
        assert(s.drop_last() =~= Seq::<Seq<u8>>::empty());
        assert(lines_at(s.drop_last(), cols, g, base) =~= Seq::<char>::empty());
        assert(lines_at(s, cols, g, base) =~= head + Seq::<char>::empty());
    } else {
        assert(s.drop_last() =~= seq![c] + cs.drop_last());
        lemma_lines_cons(c, cs.drop_last(), cols, g, base);
        lemma_total_len_cons(c, cs.drop_last());
        let mid = lines_at(cs.drop_last(), cols, g, base + c.len());
        let last = dump_line(cs.last(), base + c.len() + total_len(cs.drop_last()), cols, g)
            + seq!['\n'];
        assert(lines_at(s, cols, g, base) =~= head + mid + last);
        assert(lines_at(cs, cols, g, base + c.len()) =~= mid + last);
    }
}

proof fn lemma_dump_from_lines(data: Seq<u8>, cols: nat, g: nat, offset: nat)
    ensures
        dump_from(data, cols, g, offset) == lines_at(chunks(data, cols), cols, g, offset),
    decreases data.len(),
{
    if cols > 0 && data.len() > 0 {
        let n: nat = if data.len() < cols {
            data.len()
        } else {
            cols
        };
        lemma_dump_from_lines(data.skip(n as int), cols, g, offset + n);
        lemma_lines_cons(data.take(n as int), chunks(data.skip(n as int), cols), cols, g, offset);
    }
}

/// Each line of a dump carries as its offset the total length of the chunks on the
/// lines before it.
pub proof fn lemma_offsets(data: Seq<u8>, cols: nat, byte_groups: nat)
    ensures
        dump_text(data, cols, byte_groups) == lines_at(chunks(data, cols), cols, byte_groups, 0),
{
    lemma_dump_from_lines(data, cols, byte_groups, 0);
}

proof fn lemma_div_step(x: int, g: int)
    requires
        x >= 0,
        g >= 1,
    ensures
        (x + 1) / g == x / g + if (x + 1) % g == 0 {
            1int
        } else {
            0int
        },
{
    lemma_fundamental_div_mod(x, g);
    let q = x / g;
    let s = x % g;
    if s + 1 < g {
        assert(x + 1 == q * g + (s + 1)) by (nonlinear_arith)
            requires
                x == g * q + s,
        ;
        lemma_fundamental_div_mod_converse(x + 1, g, q, s + 1);
    } else {
        assert(x + 1 == (q + 1) * g + 0) by (nonlinear_arith)
            requires
                x == g * q + s,
                s + 1 == g,
        ;
        lemma_fundamental_div_mod_converse(x + 1, g, q + 1, 0);
    }
}

proof fn lemma_body_len(chunk: Seq<u8>, g: nat)
    requires
        g >= 1,
        chunk.len() >= 1,
    ensures
        hex_body(chunk, g).len() == 2 * chunk.len() + (chunk.len() - 1) / (g as int),
    decreases chunk.len(),
{
    let gap = group_gap((chunk.len() - 1) as nat, g);
    assert(hex_body(chunk, g).len() == hex_body(chunk.drop_last(), g).len() + gap.len() + 2);
    if chunk.len() == 1 {
        assert(hex_body(chunk.drop_last(), g).len() == 0);
        lemma_fundamental_div_mod_converse(0, g as int, 0, 0);
    } else {
        lemma_body_len(chunk.drop_last(), g);
        lemma_div_step(chunk.len() - 2, g as int);
        assert(gap.len() == if (chunk.len() - 1) % (g as int) == 0 {
            1int
        } else {
            0int
        });
    }
}

/// When `byte_groups` divides `cols`, or is at least `cols`, the hexadecimal
/// section of every line has the same width, padding included, so that the ASCII
/// panels line up.
pub proof fn lemma_panel_aligned(a: Seq<u8>, b: Seq<u8>, cols: nat, byte_groups: nat)
    requires
        1 <= a.len() <= cols,
        1 <= b.len() <= cols,
        byte_groups >= 1,
        cols % byte_groups == 0 || byte_groups >= cols,
    ensures
        hex_section(a, cols, byte_groups).len() == hex_section(b, cols, byte_groups).len(),
        hex_section(a, cols, byte_groups).len() == 2 * cols + (cols - 1) / (byte_groups as int),
{
    lemma_section_width(a, cols, byte_groups);
    lemma_section_width(b, cols, byte_groups);
}

proof fn lemma_section_width(c: Seq<u8>, cols: nat, g: nat)
    requires
        1 <= c.len() <= cols,
        g >= 1,
        cols % g == 0 || g >= cols,
    ensures
        hex_section(c, cols, g).len() == 2 * cols + (cols - 1) / (g as int),
{
    let r = c.len() as int;
    let gi = g as int;
    lemma_body_len(c, g);
    if r < cols {
        let x = r - 1;
        let y = cols - r;
        let z = cols - 1;
        if g >= cols {
            lemma_fundamental_div_mod_converse(x, gi, 0, x);
            lemma_fundamental_div_mod_converse(y, gi, 0, y);
            lemma_fundamental_div_mod_converse(z, gi, 0, z);
        } else {
            lemma_fundamental_div_mod(x, gi);
            lemma_fundamental_div_mod(cols as int, gi);
            let q = x / gi;
            let s = x % gi;
            let m = cols as int / gi;
            assert(y == (m - q - 1) * gi + (gi - s - 1)) by (nonlinear_arith)
                requires
                    x == gi * q + s,
                    cols == gi * m,
                    y == cols - r,
                    x == r - 1,
            ;
            assert(z == (m - 1) * gi + (gi - 1)) by (nonlinear_arith)
                requires
                    cols == gi * m,
                    z == cols - 1,
            ;
            lemma_fundamental_div_mod_converse(y, gi, m - q - 1, gi - s - 1);
            lemma_fundamental_div_mod_converse(z, gi, m - 1, gi - 1);
        }
    }
}

} // verus!
