//! Properties of the library that span its functions.
use vstd::prelude::*;

use vstd::utf8::*;

use crate::request::{
    find_newline, header_lines, lemma_find_newline_skip, line_bytes, parse_request, read_line,
    find_sep, is_word, lemma_find_sep_step, lemma_skip_white_step, lemma_skip_word_step,
    request_line_parts, sep_at, skip_white, skip_word, split_header, values_of,
};
use crate::request::{method_named, Method};
use crate::response::{message_text, response_head, response_text, status_text_with};
use crate::text::{all_digits, decimal, digit_char, digits_value, is_white};

verus! {

/// Routing reads back what was mounted: after `handler(p, h)` the path `p`
/// leads to `h`, and every other path leads where it led before.
pub proof fn law_route_after_handler<H>(table: Map<Seq<char>, H>, p: Seq<char>, h: H, q: Seq<char>)
    ensures
        table.insert(p, h).contains_key(p),
        table.insert(p, h)[p] == h,
        q != p ==> (table.insert(p, h).contains_key(q) == table.contains_key(q)),
        q != p && table.contains_key(q) ==> table.insert(p, h)[q] == table[q],
{
}

/// Headers keep every value in arrival order: recording a value for `name`
/// appends it to that name's values and leaves every other name's values as
/// they were.
pub proof fn law_header_values_accumulate(
    es: Seq<(Seq<char>, Seq<char>)>,
    name: Seq<char>,
    value: Seq<char>,
    other: Seq<char>,
)
    ensures
        values_of(es.push((name, value)), name) == values_of(es, name).push(value),
        other != name ==> values_of(es.push((name, value)), other) == values_of(es, other),
{
    assert(es.push((name, value)).drop_last() =~= es);
}

/// A request line of three words separated by single spaces reads back as
/// those three words.
pub proof fn law_request_line_roundtrip(m: Seq<char>, p: Seq<char>, v: Seq<char>)
    requires
        is_word(m),
        is_word(p),
        is_word(v),
    ensures
        request_line_parts(m + " "@ + p + " "@ + v) == Ok::<_, Seq<char>>((m, p, v)),
{
    reveal_strlit(" ");
    let sp = " "@;
    assert(sp =~= seq![' ']);
    let s = m + sp + p + sp + v;
    let lm = m.len() as int;
    let lp = p.len() as int;
    let lv = v.len() as int;
    let a1 = lm + 1;
    let a2 = lm + 1 + lp + 1;
    assert(s.len() == a2 + lv);
    assert forall|j: int| 0 <= j < lm implies #[trigger] s[j] == m[j] by {}
    assert forall|j: int| a1 <= j < a1 + lp implies #[trigger] s[j] == p[j - a1] by {}
    assert forall|j: int| a2 <= j < a2 + lv implies #[trigger] s[j] == v[j - a2] by {}
    assert(s[lm] == ' ');
    assert(s[a1 + lp] == ' ');
    // the method
    assert(!is_white(s[0]));
    assert(skip_white(s, 0) == 0);
    assert forall|j: int| 0 <= j < lm implies !is_white(#[trigger] s[j]) by {
        assert(s[j] == m[j]);
    }
    lemma_skip_word_step(s, 0, lm);
    assert(skip_word(s, 0) == lm);
    // the path
    lemma_skip_white_step(s, lm, a1);
    assert(!is_white(s[a1]));
    assert(skip_white(s, lm) == a1);
    assert forall|j: int| a1 <= j < a1 + lp implies !is_white(#[trigger] s[j]) by {
        assert(s[j] == p[j - a1]);
    }
    lemma_skip_word_step(s, a1, a1 + lp);
    assert(skip_word(s, a1) == a1 + lp);
    // the version
    lemma_skip_white_step(s, a1 + lp, a2);
    assert(!is_white(s[a2]));
    assert(skip_white(s, a1 + lp) == a2);
    assert forall|j: int| a2 <= j < a2 + lv implies !is_white(#[trigger] s[j]) by {
        assert(s[j] == v[j - a2]);
    }
    lemma_skip_word_step(s, a2, a2 + lv);
    assert(skip_word(s, a2) == a2 + lv);
    assert(s.subrange(0, lm) =~= m);
    assert(s.subrange(a1, a1 + lp) =~= p);
    assert(s.subrange(a2, a2 + lv) =~= v);
}

/// No `':'` in `s` is directly followed by `' '`.
pub open spec fn no_colon_space(s: Seq<char>) -> bool {
    forall|j: int| 0 <= j && j + 1 < s.len() ==> !(#[trigger] s[j] == ':' && s[j + 1] == ' ')
}

/// A header line written as `name: value` reads back as that name and value,
/// when neither holds `": "` itself: only a `':'` directly followed by a
/// space separates, so a value such as `localhost:3000` reads back whole.
pub proof fn law_header_line_roundtrip(n: Seq<char>, v: Seq<char>)
    requires
        no_colon_space(n),
        no_colon_space(v),
    ensures
        split_header(n + ": "@ + v) == Some((n, v)),
{
    assert forall|j: int| !#[trigger] sep_at(n, j) by {
        if 0 <= j && j + 1 < n.len() {
            assert(!(n[j] == ':' && n[j + 1] == ' '));
        }
    }
    assert forall|j: int| !#[trigger] sep_at(v, j) by {
        if 0 <= j && j + 1 < v.len() {
            assert(!(v[j] == ':' && v[j + 1] == ' '));
        }
    }
    reveal_strlit(": ");
    let sep = ": "@;
    assert(sep =~= seq![':', ' ']);
    let s = n + sep + v;
    let ln = n.len() as int;
    let lv = v.len() as int;
    assert(s.len() == ln + 2 + lv);
    assert forall|j: int| 0 <= j < ln implies #[trigger] s[j] == n[j] by {}
    assert forall|j: int| ln + 2 <= j < ln + 2 + lv implies #[trigger] s[j] == v[j - ln - 2] by {}
    assert(s[ln] == ':' && s[ln + 1] == ' ');
    assert forall|j: int| 0 <= j < ln implies !#[trigger] sep_at(s, j) by {
        if j + 1 < ln {
            assert(!sep_at(n, j));
        } else {
            assert(s[j + 1] == ':');
        }
    }
    lemma_find_sep_step(s, 0, ln);
    assert(sep_at(s, ln));
    assert(find_sep(s, 0) == Some(ln));
    assert forall|j: int| ln + 2 <= j < ln + 2 + lv implies !#[trigger] sep_at(s, j) by {
        if j + 1 < ln + 2 + lv {
            assert(!sep_at(v, j - ln - 2));
        }
    }
    lemma_find_sep_step(s, ln + 2, ln + 2 + lv);
    assert(find_sep(s, ln + 2) is None);
    assert(s.subrange(0, ln) =~= n);
    assert(s.subrange(ln + 2, ln + 2 + lv) =~= v);
}


/// The bytes of a line break: `\r\n`.
pub open spec fn crlf() -> Seq<u8> {
    seq![13u8, 10u8]
}

/// The bytes of a bare line break: `\n`.
pub open spec fn lf() -> Seq<u8> {
    seq![10u8]
}

/// No character of `s` is a line feed.
pub open spec fn no_line_feed(s: Seq<char>) -> bool {
    forall|j: int| 0 <= j < s.len() ==> #[trigger] s[j] != '\n'
}

/// `s` does not end with a carriage return.
pub open spec fn no_trailing_cr(s: Seq<char>) -> bool {
    s.len() == 0 || s.last() != '\r'
}

/// A line written with the line break `eol` that reads back as written: it
/// holds no line feed, and before a bare `\n` it does not end with `\r`.
pub open spec fn line_fits(line: Seq<char>, eol: Seq<u8>) -> bool {
    &&& no_line_feed(line)
    &&& (eol == crlf() || (eol == lf() && no_trailing_cr(line)))
}

/// A header name and value that read back as written: neither holds `": "`
/// nor a line feed.
pub open spec fn plain_header(h: (Seq<char>, Seq<char>)) -> bool {
    &&& no_colon_space(h.0)
    &&& no_colon_space(h.1)
    &&& no_line_feed(h.0)
    &&& no_line_feed(h.1)
}

/// Header lines written out: `name: value` and the line break `eol` for
/// each, in order.
pub open spec fn header_block_with(hs: Seq<(Seq<char>, Seq<char>)>, eol: Seq<u8>) -> Seq<u8>
    decreases hs.len(),
{
    if hs.len() == 0 {
        seq![]
    } else {
        encode_utf8(hs[0].0 + ": "@ + hs[0].1) + eol + header_block_with(hs.drop_first(), eol)
    }
}

/// A request written out with the line break `eol`: the request line, the
/// header lines and the empty line that ends them, in UTF-8.
pub open spec fn request_bytes_with(
    m: Seq<char>,
    p: Seq<char>,
    v: Seq<char>,
    hs: Seq<(Seq<char>, Seq<char>)>,
    eol: Seq<u8>,
) -> Seq<u8> {
    encode_utf8(m + " "@ + p + " "@ + v) + eol + header_block_with(hs, eol) + eol
}

/// A request written out with `\r\n` line breaks.
pub open spec fn request_bytes(
    m: Seq<char>,
    p: Seq<char>,
    v: Seq<char>,
    hs: Seq<(Seq<char>, Seq<char>)>,
) -> Seq<u8> {
    request_bytes_with(m, p, v, hs, crlf())
}

/// UTF-8 encodes a concatenation piece by piece.
pub proof fn lemma_encode_concat(a: Seq<char>, b: Seq<char>)
    ensures
        encode_utf8(a + b) == encode_utf8(a) + encode_utf8(b),
    decreases a.len(),
{
    if a.len() == 0 {
        assert(a + b =~= b);
        assert(encode_utf8(a) =~= Seq::<u8>::empty());
        assert(encode_utf8(a) + encode_utf8(b) =~= encode_utf8(b));
    } else {
        assert((a + b).drop_first() =~= a.drop_first() + b);
        lemma_encode_concat(a.drop_first(), b);
        assert((a + b)[0] == a[0]);
        assert(encode_utf8(a + b) =~= encode_scalar(a[0] as u32) + (encode_utf8(a.drop_first())
            + encode_utf8(b)));
    }
}

/// The UTF-8 encoding of a scalar holds no ASCII byte but its own.
proof fn lemma_encode_scalar_avoids(x: u32, t: u8)
    requires
        is_scalar(x),
        t < 0x80,
        x != t as u32,
    ensures
        forall|k: int| 0 <= k < encode_scalar(x).len() ==> #[trigger] encode_scalar(x)[k] != t,
{
    if has_width_1_encoding(x) {
        assert((x & 0x7F) as u8 == x as u8) by (bit_vector)
            requires
                x <= 0x7F,
        ;
    } else {
        assert(0xC0u8 | ((x >> 6) & 0x1F) as u8 >= 0x80u8) by (bit_vector);
        assert(0xE0u8 | ((x >> 12) & 0x0F) as u8 >= 0x80u8) by (bit_vector);
        assert(0xF0u8 | ((x >> 18) & 0x7) as u8 >= 0x80u8) by (bit_vector);
        assert(0x80u8 | (x & 0x3F) as u8 >= 0x80u8) by (bit_vector);
        assert(0x80u8 | ((x >> 6) & 0x3F) as u8 >= 0x80u8) by (bit_vector);
        assert(0x80u8 | ((x >> 12) & 0x3F) as u8 >= 0x80u8) by (bit_vector);
    }
}

/// Text without line feeds encodes to bytes without 10.
proof fn lemma_encode_no_line_feed(c: Seq<char>)
    requires
        no_line_feed(c),
    ensures
        forall|k: int| 0 <= k < encode_utf8(c).len() ==> #[trigger] encode_utf8(c)[k] != 10u8,
    decreases c.len(),
{
    if c.len() > 0 {
        let rest = c.drop_first();
        assert(no_line_feed(rest)) by {
            assert forall|j: int| 0 <= j < rest.len() implies #[trigger] rest[j] != '\n' by {
                assert(rest[j] == c[j + 1]);
            }
        }
        lemma_encode_no_line_feed(rest);
        char_is_scalar(c[0]);
        assert(c[0] as u32 != 10) by {
            assert(c[0] != '\n');
            if c[0] as u32 == 10 {
                char_u32_cast(c[0], 10u32);
                assert((10u32 as char) == '\n');
            }
        }
        lemma_encode_scalar_avoids(c[0] as u32, 10u8);
        let e = encode_scalar(c[0] as u32);
        assert(encode_utf8(c) == e + encode_utf8(rest));
        assert forall|k: int| 0 <= k < encode_utf8(c).len() implies #[trigger] encode_utf8(c)[k]
            != 10u8 by {
            if k < e.len() {
                assert(encode_utf8(c)[k] == e[k]);
            } else {
                assert(encode_utf8(c)[k] == encode_utf8(rest)[k - e.len()]);
            }
        }
    }
}

/// Text that does not end with `\r` encodes to bytes that do not end with 13.
proof fn lemma_encode_no_trailing_cr(c: Seq<char>)
    requires
        c.len() > 0,
        c.last() != '\r',
    ensures
        encode_utf8(c).len() > 0,
        encode_utf8(c).last() != 13u8,
{
    let x = c.last();
    let init = c.drop_last();
    assert(c =~= init + seq![x]);
    lemma_encode_concat(init, seq![x]);
    assert(seq![x].drop_first() =~= Seq::<char>::empty());
    assert(encode_utf8(seq![x]) =~= encode_scalar(x as u32) + encode_utf8(Seq::<char>::empty()));
    assert(encode_utf8(Seq::<char>::empty()) =~= Seq::<u8>::empty());
    char_is_scalar(x);
    assert(x as u32 != 13) by {
        if x as u32 == 13 {
            char_u32_cast(x, 13u32);
            assert((13u32 as char) == '\r');
        }
    }
    lemma_encode_scalar_avoids(x as u32, 13u8);
    let e = encode_scalar(x as u32);
    assert(e.len() > 0);
    assert(encode_utf8(c) == encode_utf8(init) + e);
    assert(encode_utf8(c).last() == e[e.len() - 1]);
}

/// A line written as its UTF-8 bytes and a line break reads back as that line.
proof fn lemma_read_written_line(b: Seq<u8>, pos: int, line: Seq<char>, eol: Seq<u8>)
    requires
        0 <= pos,
        line_fits(line, eol),
        pos + encode_utf8(line).len() + eol.len() <= b.len(),
        b.subrange(pos, pos + encode_utf8(line).len() + eol.len()) == encode_utf8(line) + eol,
    ensures
        read_line(b, pos) == Ok::<(Seq<char>, int), crate::request::LineFailure>(
            (line, pos + encode_utf8(line).len() + eol.len()),
        ),
{
    let e = encode_utf8(line);
    let el = e.len() as int;
    let k = eol.len() as int;
    let sub = b.subrange(pos, pos + el + k);
    let nl = pos + el + k - 1;
    lemma_encode_no_line_feed(line);
    assert forall|j: int| pos <= j < nl implies b[j] != 10u8 by {
        assert(b[j] == sub[j - pos]);
        if j < pos + el {
            assert(sub[j - pos] == e[j - pos]);
        } else {
            assert(sub[j - pos] == 13u8);
        }
    }
    lemma_find_newline_skip(b, pos, nl);
    assert(b[nl] == sub[el + k - 1]);
    assert(find_newline(b, pos) == Some(nl));
    assert(b.subrange(pos, pos + el) =~= e) by {
        assert forall|j: int| 0 <= j < el implies b.subrange(pos, pos + el)[j] == e[j] by {
            assert(b[pos + j] == sub[j]);
        }
    }
    if eol == crlf() {
        assert(b[nl - 1] == sub[el]);
    } else if el > 0 {
        lemma_encode_no_trailing_cr(line);
        assert(b[nl - 1] == sub[el - 1]);
    }
    assert(line_bytes(b, pos, nl) == e);
    encode_utf8_valid_utf8(line);
    encode_utf8_decode_utf8(line);
}

/// Header lines written as `header_block_with` read back as those headers.
proof fn lemma_header_lines_roundtrip(
    b: Seq<u8>,
    pos: int,
    hs: Seq<(Seq<char>, Seq<char>)>,
    acc: Seq<(Seq<char>, Seq<char>)>,
    eol: Seq<u8>,
)
    requires
        0 <= pos,
        eol == crlf() || eol == lf(),
        forall|i: int| 0 <= i < hs.len() ==> plain_header(#[trigger] hs[i]),
        eol == lf() ==> forall|i: int| 0 <= i < hs.len() ==> no_trailing_cr(#[trigger] hs[i].1),
        pos + header_block_with(hs, eol).len() + eol.len() <= b.len(),
        b.subrange(pos, pos + header_block_with(hs, eol).len() + eol.len()) == header_block_with(
            hs,
            eol,
        ) + eol,
    ensures
        header_lines(b, pos, acc) == Ok::<_, Seq<char>>(acc + hs),
    decreases hs.len(),
{
    let k = eol.len() as int;
    if hs.len() == 0 {
        assert(header_block_with(hs, eol) =~= Seq::<u8>::empty());
        let sub = b.subrange(pos, pos + k);
        assert(b[pos] == sub[0]);
        assert(b[pos + k - 1] == sub[k - 1]);
        if eol == crlf() {
            assert(find_newline(b, pos + 1) == Some(pos + 1));
        }
        assert(find_newline(b, pos) == Some(pos + k - 1));
        assert(line_bytes(b, pos, pos + k - 1) =~= Seq::<u8>::empty());
        assert(acc + hs =~= acc);
    } else {
        let h = hs[0];
        let rest = hs.drop_first();
        assert(plain_header(h));
        reveal_strlit(": ");
        let line = h.0 + ": "@ + h.1;
        assert(no_line_feed(line)) by {
            assert forall|j: int| 0 <= j < line.len() implies #[trigger] line[j] != '\n' by {
                if j < h.0.len() {
                    assert(line[j] == h.0[j]);
                } else if j < h.0.len() + 2 {
                } else {
                    assert(line[j] == h.1[j - h.0.len() - 2]);
                }
            }
        }
        if eol == lf() {
            assert(no_trailing_cr(h.1));
            assert(no_trailing_cr(line)) by {
                if h.1.len() > 0 {
                    assert(line.last() == h.1.last());
                } else {
                    assert(line.last() == ' ');
                }
            }
        }
        let e = encode_utf8(line);
        let el = e.len() as int;
        let blk = header_block_with(hs, eol);
        assert(blk == e + eol + header_block_with(rest, eol));
        let whole = b.subrange(pos, pos + blk.len() + k);
        assert(b.subrange(pos, pos + el + k) =~= e + eol) by {
            assert forall|j: int| 0 <= j < el + k implies b.subrange(pos, pos + el + k)[j] == (e
                + eol)[j] by {
                assert(b[pos + j] == whole[j]);
            }
        }
        lemma_read_written_line(b, pos, line, eol);
        assert(line.len() > 0);
        assert(e.len() > 0) by {
            assert(e == encode_scalar(line[0] as u32) + encode_utf8(line.drop_first()));
            char_is_scalar(line[0]);
        }
        crate::laws::law_header_line_roundtrip(h.0, h.1);
        encode_utf8_decode_utf8(line);
        let next = pos + el + k;
        let rb = header_block_with(rest, eol);
        assert(b.subrange(next, next + rb.len() + k) =~= rb + eol) by {
            assert forall|j: int| 0 <= j < rb.len() + k implies b.subrange(next, next + rb.len() + k)[j]
                == (rb + eol)[j] by {
                assert(b[next + j] == whole[el + k + j]);
            }
        }
        assert forall|i: int| 0 <= i < rest.len() implies plain_header(#[trigger] rest[i]) by {
            assert(rest[i] == hs[i + 1]);
        }
        if eol == lf() {
            assert forall|i: int| 0 <= i < rest.len() implies no_trailing_cr(#[trigger] rest[i].1) by {
                assert(rest[i] == hs[i + 1]);
            }
        }
        lemma_header_lines_roundtrip(b, next, rest, acc.push(h), eol);
        assert(acc.push(h) + rest =~= acc + hs);
    }
}

/// A written request, with either line break, reads back as written.
proof fn lemma_request_roundtrip_with(
    m: Seq<char>,
    p: Seq<char>,
    v: Seq<char>,
    hs: Seq<(Seq<char>, Seq<char>)>,
    eol: Seq<u8>,
)
    requires
        is_word(m),
        is_word(p),
        is_word(v),
        eol == crlf() || eol == lf(),
        forall|i: int| 0 <= i < hs.len() ==> plain_header(#[trigger] hs[i]),
        eol == lf() ==> forall|i: int| 0 <= i < hs.len() ==> no_trailing_cr(#[trigger] hs[i].1),
    ensures
        parse_request(request_bytes_with(m, p, v, hs, eol)) == Ok::<_, Seq<char>>((m, p, v, hs)),
{
    reveal_strlit(" ");
    let line = m + " "@ + p + " "@ + v;
    let a1 = m.len() as int + 1;
    let a2 = a1 + p.len() + 1;
    assert(no_line_feed(line)) by {
        assert forall|j: int| 0 <= j < line.len() implies #[trigger] line[j] != '\n' by {
            if j < m.len() {
                assert(line[j] == m[j]);
                assert(!is_white(m[j]));
            } else if j == m.len() {
            } else if j < a1 + p.len() {
                assert(line[j] == p[j - a1]);
                assert(!is_white(p[j - a1]));
            } else if j == a1 + p.len() {
            } else {
                assert(line[j] == v[j - a2]);
                assert(!is_white(v[j - a2]));
            }
        }
    }
    assert(no_trailing_cr(line)) by {
        assert(line.last() == v.last());
        assert(!is_white(v[v.len() - 1]));
    }
    let b = request_bytes_with(m, p, v, hs, eol);
    let e = encode_utf8(line);
    let el = e.len() as int;
    let k = eol.len() as int;
    let blk = header_block_with(hs, eol);
    assert(b.len() == el + k + blk.len() + k);
    assert(b.subrange(0, el + k) =~= e + eol);
    lemma_read_written_line(b, 0, line, eol);
    law_request_line_roundtrip(m, p, v);
    assert(b.subrange(el + k, el + k + blk.len() + k) =~= blk + eol);
    lemma_header_lines_roundtrip(b, el + k, hs, seq![], eol);
    assert(Seq::<(Seq<char>, Seq<char>)>::empty() + hs =~= hs);
}

/// Parsing reads back a written request: the bytes of a request line of
/// three words and of header lines that hold neither `": "` nor line feeds
/// parse to those words and those headers, in order.
pub proof fn law_parse_request_roundtrip(
    m: Seq<char>,
    p: Seq<char>,
    v: Seq<char>,
    hs: Seq<(Seq<char>, Seq<char>)>,
)
    requires
        is_word(m),
        is_word(p),
        is_word(v),
        forall|i: int| 0 <= i < hs.len() ==> plain_header(#[trigger] hs[i]),
    ensures
        parse_request(request_bytes(m, p, v, hs)) == Ok::<_, Seq<char>>((m, p, v, hs)),
{
    lemma_request_roundtrip_with(m, p, v, hs, crlf());
}

/// Lines may end with a bare `\n`: a request written that way parses as the
/// same request written with `\r\n`, when no header value ends with `\r`.
pub proof fn law_bare_line_feeds(
    m: Seq<char>,
    p: Seq<char>,
    v: Seq<char>,
    hs: Seq<(Seq<char>, Seq<char>)>,
)
    requires
        is_word(m),
        is_word(p),
        is_word(v),
        forall|i: int| 0 <= i < hs.len() ==> plain_header(#[trigger] hs[i]),
        forall|i: int| 0 <= i < hs.len() ==> no_trailing_cr(#[trigger] hs[i].1),
    ensures
        parse_request(request_bytes_with(m, p, v, hs, lf())) == parse_request(
            request_bytes(m, p, v, hs),
        ),
{
    lemma_request_roundtrip_with(m, p, v, hs, crlf());
    lemma_request_roundtrip_with(m, p, v, hs, lf());
}

/// Decimal text reads back as its number: `decimal(n)` is a non-empty run of
/// digits whose value is `n`.
pub proof fn law_decimal_roundtrip(n: nat)
    ensures
        decimal(n).len() > 0,
        all_digits(decimal(n)),
        digits_value(decimal(n)) == n,
    decreases n,
{
    let d = n % 10;
    assert(digit_char(d) as int == 48 + d);
    vstd::arithmetic::div_mod::lemma_fundamental_div_mod(n as int, 10);
    if n < 10 {
        assert(decimal(n).drop_last() =~= Seq::<char>::empty());
        assert(digits_value(decimal(n)) == digits_value(Seq::<char>::empty()) * 10 + d);
    } else {
        law_decimal_roundtrip(n / 10);
        let s = decimal(n);
        assert(s == decimal(n / 10).push(digit_char(d)));
        assert(s.drop_last() =~= decimal(n / 10));
        assert(digits_value(s) == digits_value(decimal(n / 10)) * 10 + d);
        assert(all_digits(s)) by {
            assert forall|j: int| 0 <= j < s.len() implies '0' <= #[trigger] s[j] <= '9' by {
                if j < s.len() - 1 {
                    assert(s[j] == decimal(n / 10)[j]);
                }
            }
        }
    }
}

/// The message frames its body: its UTF-8 bytes are the head's bytes, whose
/// `Content-Length` is the body's byte count, followed by exactly the body's
/// bytes.
pub proof fn law_response_frames_body(code: u16, date: Seq<char>, body: Seq<char>)
    ensures
        encode_utf8(response_text(code, date, body)) == encode_utf8(
            response_head(code, date, encode_utf8(body).len()),
        ) + encode_utf8(body),
{
    lemma_encode_concat(response_head(code, date, encode_utf8(body).len()), body);
}


/// A character that is plainly not white space: visible ASCII, and the
/// ranges of Unicode that hold no `White_Space` character.
pub open spec fn visible(c: char) -> bool {
    ||| 0x21 <= c as u32 <= 0x7E
    ||| 0xA1 <= c as u32 <= 0x167F
    ||| 0x1681 <= c as u32 <= 0x1FFF
    ||| 0x3001 <= c as u32
}

/// A non-empty run of visible characters.
pub open spec fn visible_word(s: Seq<char>) -> bool {
    s.len() > 0 && forall|j: int| 0 <= j < s.len() ==> visible(#[trigger] s[j])
}

/// Only white space separates the words of a request line: three runs of
/// visible characters (such as `GET`, `/my-page_1.html` and `HTTP/1.1`)
/// joined by single spaces read back whole, as the method, the path and the
/// version, and so does a request sent with that line.
pub proof fn law_visible_words(m: Seq<char>, p: Seq<char>, v: Seq<char>)
    requires
        visible_word(m),
        visible_word(p),
        visible_word(v),
    ensures
        request_line_parts(m + " "@ + p + " "@ + v) == Ok::<_, Seq<char>>((m, p, v)),
        parse_request(request_bytes(m, p, v, seq![])) == Ok::<_, Seq<char>>(
            (m, p, v, Seq::<(Seq<char>, Seq<char>)>::empty()),
        ),
{
    assert forall|s: Seq<char>| visible_word(s) implies is_word(s) by {
        assert forall|j: int| 0 <= j < s.len() implies !is_white(#[trigger] s[j]) by {
            assert(visible(s[j]));
        }
    }
    law_request_line_roundtrip(m, p, v);
    law_parse_request_roundtrip(m, p, v, seq![]);
}

/// The name of each method.
pub open spec fn method_name(m: Method) -> Seq<char> {
    match m {
        Method::Get => "GET"@,
        Method::Post => "POST"@,
        Method::Put => "PUT"@,
        Method::Delete => "DELETE"@,
    }
}

/// A name is recognised as a method exactly when it is that method's own
/// name: `GET`, `POST`, `PUT` or `DELETE`, each to its own variant; every
/// other string is refused.
pub proof fn law_method_names(s: Seq<char>, m: Method)
    ensures
        method_named(s) == Some(m) <==> s == method_name(m),
        method_named(s) is None <==> (s != "GET"@ && s != "POST"@ && s != "PUT"@ && s != "DELETE"@),
{
    reveal_strlit("GET");
    reveal_strlit("POST");
    reveal_strlit("PUT");
    reveal_strlit("DELETE");
    assert("GET"@ != "PUT"@) by {
        assert("GET"@[0] != "PUT"@[0]);
    }
    assert("GET"@ != "POST"@) by {
        assert("GET"@.len() != "POST"@.len());
    }
    assert("GET"@ != "DELETE"@) by {
        assert("GET"@.len() != "DELETE"@.len());
    }
    assert("POST"@ != "PUT"@) by {
        assert("POST"@.len() != "PUT"@.len());
    }
    assert("POST"@ != "DELETE"@) by {
        assert("POST"@.len() != "DELETE"@.len());
    }
    assert("PUT"@ != "DELETE"@) by {
        assert("PUT"@.len() != "DELETE"@.len());
    }
}

/// A status is shown as the code's decimal digits, one space and the whole
/// reason phrase (`<unknown status code>` when there is none), however long
/// the phrase is.
pub proof fn law_status_text_shape(code: u16, reason: Option<Seq<char>>)
    ensures
        ({
            let t = status_text_with(code, reason);
            let r = match reason {
                Some(r) => r,
                None => "<unknown status code>"@,
            };
            exists|k: int|
                #![trigger t.subrange(0, k)]
                0 < k && k + 1 + r.len() == t.len() && all_digits(t.subrange(0, k))
                    && digits_value(t.subrange(0, k)) == code as nat && t[k] == ' '
                    && t.subrange(k + 1, t.len() as int) == r
        }),
{
    reveal_strlit(" ");
    let t = status_text_with(code, reason);
    let r = match reason {
        Some(r) => r,
        None => "<unknown status code>"@,
    };
    let d = decimal(code as nat);
    law_decimal_roundtrip(code as nat);
    let k = d.len() as int;
    assert(t == d + " "@ + r);
    assert(t.subrange(0, k) =~= d);
    assert(t[k] == ' ');
    assert(t.subrange(k + 1, t.len() as int) =~= r);
}

/// The `Content-Length` of a rendered message states the body's whole size:
/// right after the status line, the `Date` and the `Server` lines, the text
/// between `\r\nContent-Length: ` and the next `\r\n` is a run of digits whose
/// value is the number of bytes of the body in UTF-8.
pub proof fn law_content_length_states_body_size(status: Seq<char>, date: Seq<char>, body: Seq<char>)
    ensures
        ({
            let t = message_text(status, date, body);
            let k: int = (9 + status.len() + 8 + date.len() + 10 + 9 + 18) as int;
            &&& t.subrange(k - 18, k) == "\r\nContent-Length: "@
            &&& exists|n: int|
                #![trigger t.subrange(k, k + n)]
                0 < n && k + n + 2 <= t.len() && all_digits(t.subrange(k, k + n))
                    && digits_value(t.subrange(k, k + n)) == encode_utf8(body).len() && t.subrange(
                    k + n,
                    k + n + 2,
                ) == "\r\n"@
        }),
{
    reveal_strlit("HTTP/1.1 ");
    reveal_strlit("\r\nDate: ");
    reveal_strlit("\r\nServer: ");
    reveal_strlit("ServerEdu");
    reveal_strlit("\r\nContent-Length: ");
    reveal_strlit("\r\nContent-Type : ");
    reveal_strlit("\r\n");
    let len = encode_utf8(body).len();
    let d = decimal(len);
    law_decimal_roundtrip(len);
    let pre = "HTTP/1.1 "@ + status + "\r\nDate: "@ + date + "\r\nServer: "@ + "ServerEdu"@
        + "\r\nContent-Length: "@;
    let post = "\r\nContent-Type : "@ + "text/plain"@ + "\r\n\r\n"@ + body;
    let t = message_text(status, date, body);
    let k: int = (9 + status.len() + 8 + date.len() + 10 + 9 + 18) as int;
    assert(pre.len() == k);
    assert(t =~= pre + d + post);
    let n = d.len() as int;
    assert(t.subrange(k - 18, k) =~= "\r\nContent-Length: "@) by {
        assert forall|j: int| 0 <= j < 18 implies t.subrange(k - 18, k)[j]
            == "\r\nContent-Length: "@[j] by {
            assert(t[k - 18 + j] == pre[k - 18 + j]);
        }
    }
    assert(t.subrange(k, k + n) =~= d);
    assert(t.subrange(k + n, k + n + 2) =~= "\r\n"@) by {
        assert(t[k + n] == post[0]);
        assert(t[k + n + 1] == post[1]);
    }
}

} // verus!
