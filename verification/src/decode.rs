//! Incremental UTF-8 decoding of the input: bytes arrive in pieces of any size, a
//! character split between pieces is held back until it is complete, and each
//! ill-formed sequence becomes one U+FFFD (the longest start of a well-formed
//! sequence, or else a single byte, counts as one).

use vstd::prelude::*;
use crate::text::push_char;

verus! {

/// How many bytes a sequence starting with `b0` takes; 0 when no sequence starts so.
pub open spec fn spec_need(b0: u8) -> int {
    if b0 < 0x80 {
        1
    } else if 0xC2 <= b0 && b0 <= 0xDF {
        2
    } else if 0xE0 <= b0 && b0 <= 0xEF {
        3
    } else if 0xF0 <= b0 && b0 <= 0xF4 {
        4
    } else {
        0
    }
}

/// A continuation byte, 0x80..=0xBF.
pub open spec fn is_cont(b: u8) -> bool {
    0x80 <= b && b <= 0xBF
}

/// The second bytes allowed after `b0`: the ranges that rule out overlong forms,
/// surrogates and values past U+10FFFF.
pub open spec fn spec_second_ok(b0: u8, b1: u8) -> bool {
    if b0 == 0xE0 {
        0xA0 <= b1 && b1 <= 0xBF
    } else if b0 == 0xED {
        0x80 <= b1 && b1 <= 0x9F
    } else if b0 == 0xF0 {
        0x90 <= b1 && b1 <= 0xBF
    } else if b0 == 0xF4 {
        0x80 <= b1 && b1 <= 0x8F
    } else {
        is_cont(b1)
    }
}

/// How many leading bytes of `b` are a well-formed start of one character
/// (the first byte always counts).
pub open spec fn good_len(b: Seq<u8>) -> int {
    let n = spec_need(b[0]);
    if n >= 2 && b.len() >= 2 && spec_second_ok(b[0], b[1]) {
        if n >= 3 && b.len() >= 3 && is_cont(b[2]) {
            if n >= 4 && b.len() >= 4 && is_cont(b[3]) {
                4
            } else {
                3
            }
        } else {
            2
        }
    } else {
        1
    }
}

/// The code point that a complete sequence of `n` bytes encodes.
pub open spec fn code_point(b: Seq<u8>, n: int) -> u32 {
    if n == 1 {
        b[0] as u32
    } else if n == 2 {
        ((b[0] - 0xC0) * 64 + (b[1] - 0x80)) as u32
    } else if n == 3 {
        ((b[0] - 0xE0) * 4096 + (b[1] - 0x80) * 64 + (b[2] - 0x80)) as u32
    } else {
        ((b[0] - 0xF0) * 262144 + (b[1] - 0x80) * 4096 + (b[2] - 0x80) * 64 + (b[3] - 0x80)) as u32
    }
}

/// What the front of a nonempty byte sequence holds.
pub enum Utf8Step {
    /// A character and the number of bytes that encode it.
    Scalar(char, int),
    /// An ill-formed sequence of this many bytes.
    Bad(int),
    /// The start of a character that the bytes so far do not complete.
    Partial,
}

/// The front of a nonempty byte sequence.
pub open spec fn step(b: Seq<u8>) -> Utf8Step {
    let n = spec_need(b[0]);
    if n == 0 {
        Utf8Step::Bad(1)
    } else {
        let g = good_len(b);
        if g == n {
            Utf8Step::Scalar(code_point(b, n) as char, n)
        } else if g == b.len() {
            Utf8Step::Partial
        } else {
            Utf8Step::Bad(g)
        }
    }
}

/// A step takes at least one byte and no more than there are.
pub proof fn lemma_step_bounds(b: Seq<u8>)
    requires
        b.len() > 0,
    ensures
        step(b) matches Utf8Step::Scalar(_, n) ==> 1 <= n <= b.len(),
        step(b) matches Utf8Step::Bad(g) ==> 1 <= g <= b.len(),
{
}

/// The characters that the bytes decode to, and the bytes held back at the end
/// (the unfinished start of a character, or nothing).
pub open spec fn decode_bytes(b: Seq<u8>) -> (Seq<char>, Seq<u8>)
    decreases b.len(),
{
    if b.len() == 0 {
        (Seq::empty(), Seq::empty())
    } else {
        proof {
            lemma_step_bounds(b);
        }
        match step(b) {
            Utf8Step::Scalar(c, n) => {
                let r = decode_bytes(b.skip(n));
                (seq![c] + r.0, r.1)
            },
            Utf8Step::Bad(g) => {
                let r = decode_bytes(b.skip(g));
                (seq!['\u{FFFD}'] + r.0, r.1)
            },
            Utf8Step::Partial => (Seq::empty(), b),
        }
    }
}

/// The text of bytes that end the input: decoded, with one U+FFFD for an
/// unfinished character at the end.
pub open spec fn lossy(b: Seq<u8>) -> Seq<char> {
    let r = decode_bytes(b);
    r.0 + (if r.1.len() > 0 { seq!['\u{FFFD}'] } else { Seq::empty() })
}

/// `char::from_u32`: the character whose code point is `v`, when `v` is one
/// (at most U+10FFFF and not a surrogate), as the std documentation states.
#[verifier::external_body]
fn char_from_u32(v: u32) -> (r: Option<char>)
    ensures
        r is Some <==> (v <= 0x10FFFF && !(0xD800 <= v && v <= 0xDFFF)),
        r matches Some(c) ==> c as u32 == v,
{
    char::from_u32(v)
}

fn need(b0: u8) -> (n: usize)
    ensures
        n == spec_need(b0),
{
    if b0 < 0x80 {
        1
    } else if 0xC2 <= b0 && b0 <= 0xDF {
        2
    } else if 0xE0 <= b0 && b0 <= 0xEF {
        3
    } else if 0xF0 <= b0 && b0 <= 0xF4 {
        4
    } else {
        0
    }
}

fn cont(b: u8) -> (r: bool)
    ensures
        r == is_cont(b),
{
    0x80 <= b && b <= 0xBF
}

fn second_ok(b0: u8, b1: u8) -> (r: bool)
    ensures
        r == spec_second_ok(b0, b1),
{
    if b0 == 0xE0 {
        0xA0 <= b1 && b1 <= 0xBF
    } else if b0 == 0xED {
        0x80 <= b1 && b1 <= 0x9F
    } else if b0 == 0xF0 {
        0x90 <= b1 && b1 <= 0xBF
    } else if b0 == 0xF4 {
        0x80 <= b1 && b1 <= 0x8F
    } else {
        cont(b1)
    }
}

/// The front of `data` from index `i`: kind 0 is a character (its length and the
/// character), kind 1 an ill-formed sequence (its length), kind 2 an unfinished
/// character.
fn step_at(data: &Vec<u8>, i: usize) -> (r: (u8, usize, char))
    requires
        i < data.len(),
    ensures
        match step(data@.skip(i as int)) {
            Utf8Step::Scalar(c, n) => r.0 == 0 && r.1 == n && r.2 == c,
            Utf8Step::Bad(g) => r.0 == 1 && r.1 == g,
            Utf8Step::Partial => r.0 == 2,
        },
{
    let ghost b = data@.skip(i as int);
    let avail = data.len() - i;
    let b0 = data[i];
    assert(b[0] == b0);
    let n = need(b0);
    if n == 0 {
        return (1, 1, '\u{FFFD}');
    }
    let mut g: usize = 1;
    if n >= 2 && avail >= 2 && second_ok(b0, data[i + 1]) {
        assert(b[1] == data@[i + 1]);
        g = 2;
        if n >= 3 && avail >= 3 && cont(data[i + 2]) {
            assert(b[2] == data@[i + 2]);
            g = 3;
            if n >= 4 && avail >= 4 && cont(data[i + 3]) {
                assert(b[3] == data@[i + 3]);
                g = 4;
            }
        }
    }
    proof {
        if avail >= 2 {
            assert(b[1] == data@[i + 1]);
        }
        if avail >= 3 {
            assert(b[2] == data@[i + 2]);
        }
        if avail >= 4 {
            assert(b[3] == data@[i + 3]);
        }
    }
    assert(g == good_len(b));
    if g == n {
        let cp: u32 = if n == 1 {
            b0 as u32
        } else if n == 2 {
            let b1 = data[i + 1];
            ((b0 - 0xC0) as u32) * 64 + ((b1 - 0x80) as u32)
        } else if n == 3 {
            let b1 = data[i + 1];
            let b2 = data[i + 2];
            ((b0 - 0xE0) as u32) * 4096 + ((b1 - 0x80) as u32) * 64 + ((b2 - 0x80) as u32)
        } else {
            let b1 = data[i + 1];
            let b2 = data[i + 2];
            let b3 = data[i + 3];
            ((b0 - 0xF0) as u32) * 262144 + ((b1 - 0x80) as u32) * 4096 + ((b2 - 0x80) as u32) * 64
                + ((b3 - 0x80) as u32)
        };
        assert(cp == code_point(b, n as int));
        match char_from_u32(cp) {
            Some(c) => {
                proof {
                    vstd::utf8::char_u32_cast(c, cp);
                }
                (0, n, c)
            },
            None => (0, n, '\u{FFFD}'),
        }
    } else if g == avail {
        (2, 0, '\u{FFFD}')
    } else {
        (1, g, '\u{FFFD}')
    }
}

/// Appends what `data` decodes to, and returns where the held-back bytes begin.
fn decode_into(data: &Vec<u8>, out: &mut String) -> (start: usize)
    ensures
        start <= data.len(),
        final(out)@ == old(out)@ + decode_bytes(data@).0,
        decode_bytes(data@).1 == data@.skip(start as int),
{
    let ghost o0 = out@;
    let mut i: usize = 0;
    assert(data@.skip(0) == data@);
    loop
        invariant_except_break
            i <= data.len(),
            out@ + decode_bytes(data@.skip(i as int)).0 == o0 + decode_bytes(data@).0,
            decode_bytes(data@.skip(i as int)).1 == decode_bytes(data@).1,
        ensures
            i <= data.len(),
            out@ == o0 + decode_bytes(data@).0,
            decode_bytes(data@).1 == data@.skip(i as int),
        decreases data.len() - i,
    {
        if i == data.len() {
            assert(data@.skip(i as int).len() == 0);
            assert(out@ == o0 + decode_bytes(data@).0);
            break;
        }
        let ghost b = data@.skip(i as int);
        let r = step_at(data, i);
        if r.0 == 2 {
            assert(decode_bytes(b) == (Seq::<char>::empty(), b));
            assert(out@ == o0 + decode_bytes(data@).0) by {
                assert(out@ + Seq::<char>::empty() == out@);
            }
            break;
        }
        proof {
            lemma_step_bounds(b);
        }
        let ghost rest = decode_bytes(b.skip(r.1 as int));
        assert(b.skip(r.1 as int) == data@.skip(i + r.1));
        if r.0 == 0 {
            push_char(out, r.2);
            assert(out@ + rest.0 == o0 + decode_bytes(data@).0) by {
                assert(decode_bytes(b).0 == seq![r.2] + rest.0);
                assert(out@ + rest.0 == (out@.drop_last() + seq![r.2]) + rest.0);
                assert(out@.drop_last() + (seq![r.2] + rest.0) == o0 + decode_bytes(data@).0);
                assert((out@.drop_last() + seq![r.2]) + rest.0 == out@.drop_last() + (seq![r.2] + rest.0));
                assert(out@.drop_last() + seq![r.2] == out@);
            }
        } else {
            push_char(out, '\u{FFFD}');
            assert(out@ + rest.0 == o0 + decode_bytes(data@).0) by {
                assert(decode_bytes(b).0 == seq!['\u{FFFD}'] + rest.0);
                assert(out@.drop_last() + (seq!['\u{FFFD}'] + rest.0) == o0 + decode_bytes(data@).0);
                assert((out@.drop_last() + seq!['\u{FFFD}']) + rest.0 == out@.drop_last() + (seq!['\u{FFFD}'] + rest.0));
                assert(out@.drop_last() + seq!['\u{FFFD}'] == out@);
            }
        }
        i = i + r.1;
    }
    i
}

/// Holds the bytes of a character that a piece of input left unfinished.
pub struct Utf8Decoder {
    buf: Vec<u8>,
}

impl Utf8Decoder {
    /// The bytes held back.
    pub closed spec fn pending(&self) -> Seq<u8> {
        self.buf@
    }

    /// A decoder that holds nothing.
    pub fn new() -> (d: Self)
        ensures
            d.pending() == Seq::<u8>::empty(),
    {
        Utf8Decoder { buf: Vec::new() }
    }

    /// Decodes the held bytes followed by `bytes`: returns the text of every
    /// finished character (an ill-formed sequence becomes U+FFFD) and holds back
    /// the unfinished start of a character at the end.
    pub fn push(&mut self, bytes: &[u8]) -> (out: String)
        ensures
            out@ == decode_bytes(old(self).pending() + bytes@).0,
            final(self).pending() == decode_bytes(old(self).pending() + bytes@).1,
    {
        let ghost p0 = self.buf@;
        let mut k: usize = 0;
        while k < bytes.len()
            invariant
                k <= bytes.len(),
                self.buf@ == p0 + bytes@.take(k as int),
            decreases bytes.len() - k,
        {
            self.buf.push(bytes[k]);
            k += 1;
            assert(self.buf@ == p0 + bytes@.take(k as int));
        }
        assert(bytes@.take(bytes.len() as int) == bytes@);
        let mut out = String::new();
        let start = decode_into(&self.buf, &mut out);
        assert(out@ == decode_bytes(p0 + bytes@).0) by {
            assert(Seq::<char>::empty() + decode_bytes(self.buf@).0 == decode_bytes(self.buf@).0);
        }
        let ghost full = self.buf@;
        let tail = self.buf.split_off(start);
        assert(tail@ == full.skip(start as int));
        self.buf = tail;
        out
    }

    /// The end of the input: the held bytes decoded, with one U+FFFD for an
    /// unfinished character.
    pub fn finish(self) -> (out: String)
        ensures
            out@ == lossy(self.pending()),
    {
        let mut out = String::new();
        let start = decode_into(&self.buf, &mut out);
        assert(out@ == decode_bytes(self.buf@).0) by {
            assert(Seq::<char>::empty() + decode_bytes(self.buf@).0 == decode_bytes(self.buf@).0);
        }
        if start < self.buf.len() {
            push_char(&mut out, '\u{FFFD}');
        } else {
            assert(out@ + Seq::<char>::empty() == out@);
        }
        out
    }
}

/// The pieces joined in order.
pub open spec fn join_pieces(pieces: Seq<Seq<u8>>) -> Seq<u8>
    decreases pieces.len(),
{
    if pieces.len() == 0 {
        Seq::empty()
    } else {
        join_pieces(pieces.drop_last()) + pieces.last()
    }
}

/// What a decoder gives out for the pieces pushed in order, and what it holds
/// back after the last.
pub open spec fn feed(pieces: Seq<Seq<u8>>) -> (Seq<char>, Seq<u8>)
    decreases pieces.len(),
{
    if pieces.len() == 0 {
        (Seq::empty(), Seq::empty())
    } else {
        let r = feed(pieces.drop_last());
        let d = decode_bytes(r.1 + pieces.last());
        (r.0 + d.0, d.1)
    }
}

proof fn lemma_step_prefix(x: Seq<u8>, c: Seq<u8>)
    requires
        x.len() > 0,
        !(step(x) is Partial),
    ensures
        step(x + c) == step(x),
{
    let y = x + c;
    assert(y[0] == x[0]);
    if x.len() >= 2 {
        assert(y[1] == x[1]);
    }
    if x.len() >= 3 {
        assert(y[2] == x[2]);
    }
    if x.len() >= 4 {
        assert(y[3] == x[3]);
    }
    let n = spec_need(x[0]);
    if n != 0 {
        assert(good_len(y) == good_len(x));
        if good_len(x) == n {
            assert(code_point(y, n) == code_point(x, n));
        }
    }
}

proof fn lemma_decode_append(x: Seq<u8>, c: Seq<u8>)
    ensures
        decode_bytes(x + c).0 == decode_bytes(x).0 + decode_bytes(decode_bytes(x).1 + c).0,
        decode_bytes(x + c).1 == decode_bytes(decode_bytes(x).1 + c).1,
    decreases x.len(),
{
    if x.len() == 0 {
        assert(x + c == c);
        assert(decode_bytes(x).1 + c == c);
        assert(Seq::<char>::empty() + decode_bytes(c).0 == decode_bytes(c).0);
    } else {
        lemma_step_bounds(x);
        match step(x) {
            Utf8Step::Partial => {
                assert(Seq::<char>::empty() + decode_bytes(x + c).0 == decode_bytes(x + c).0);
            },
            Utf8Step::Scalar(ch, n) => {
                lemma_step_prefix(x, c);
                assert((x + c).skip(n) == x.skip(n) + c);
                lemma_decode_append(x.skip(n), c);
                let r = decode_bytes(x.skip(n));
                let d = decode_bytes(r.1 + c);
                assert(seq![ch] + (r.0 + d.0) == (seq![ch] + r.0) + d.0);
            },
            Utf8Step::Bad(g) => {
                lemma_step_prefix(x, c);
                assert((x + c).skip(g) == x.skip(g) + c);
                lemma_decode_append(x.skip(g), c);
                let r = decode_bytes(x.skip(g));
                let d = decode_bytes(r.1 + c);
                assert(seq!['\u{FFFD}'] + (r.0 + d.0) == (seq!['\u{FFFD}'] + r.0) + d.0);
            },
        }
    }
}

proof fn lemma_held_back_stays(b: Seq<u8>)
    ensures
        decode_bytes(decode_bytes(b).1) == (Seq::<char>::empty(), decode_bytes(b).1),
    decreases b.len(),
{
    if b.len() > 0 {
        lemma_step_bounds(b);
        match step(b) {
            Utf8Step::Scalar(_, n) => { lemma_held_back_stays(b.skip(n)); },
            Utf8Step::Bad(g) => { lemma_held_back_stays(b.skip(g)); },
            Utf8Step::Partial => {},
        }
    }
}

proof fn lemma_feed_is_decode(pieces: Seq<Seq<u8>>)
    ensures
        feed(pieces) == decode_bytes(join_pieces(pieces)),
    decreases pieces.len(),
{
    if pieces.len() > 0 {
        lemma_feed_is_decode(pieces.drop_last());
        lemma_decode_append(join_pieces(pieces.drop_last()), pieces.last());
    }
}

/// However the input is cut into pieces, pushing them in order into a new
/// decoder and then finishing gives the same text as decoding all the bytes at once.
pub proof fn lemma_pieces_decode_as_whole(pieces: Seq<Seq<u8>>)
    ensures
        feed(pieces).0 + lossy(feed(pieces).1) == lossy(join_pieces(pieces)),
{
    let all = join_pieces(pieces);
    lemma_feed_is_decode(pieces);
    lemma_held_back_stays(all);
    let h = decode_bytes(all).1;
    let tail: Seq<char> = if h.len() > 0 { seq!['\u{FFFD}'] } else { Seq::empty() };
    assert(lossy(h) == Seq::<char>::empty() + tail);
    assert(Seq::<char>::empty() + tail == tail);
}

proof fn lemma_bv_width_2(c: u32, b0: u8, b1: u8)
    by (bit_vector)
    requires
        0x80 <= c <= 0x7FF,
        b0 == 0xC0u8 | ((c >> 6u32) & 0x1Fu32) as u8,
        b1 == 0x80u8 | (c & 0x3Fu32) as u8,
    ensures
        0xC2 <= b0 <= 0xDF,
        0x80 <= b1 <= 0xBF,
        ((b0 - 0xC0u8) as u32) * 64u32 + ((b1 - 0x80u8) as u32) == c,
{
}

proof fn lemma_bv_width_3(c: u32, b0: u8, b1: u8, b2: u8)
    by (bit_vector)
    requires
        0x800 <= c <= 0xFFFF,
        !(0xD800 <= c <= 0xDFFF),
        b0 == 0xE0u8 | ((c >> 12u32) & 0x0Fu32) as u8,
        b1 == 0x80u8 | ((c >> 6u32) & 0x3Fu32) as u8,
        b2 == 0x80u8 | (c & 0x3Fu32) as u8,
    ensures
        0xE0 <= b0 <= 0xEF,
        0x80 <= b1 <= 0xBF,
        0x80 <= b2 <= 0xBF,
        b0 == 0xE0 ==> 0xA0 <= b1,
        b0 == 0xED ==> b1 <= 0x9F,
        ((b0 - 0xE0u8) as u32) * 4096u32 + ((b1 - 0x80u8) as u32) * 64u32 + ((b2 - 0x80u8) as u32) == c,
{
}

proof fn lemma_bv_width_4(c: u32, b0: u8, b1: u8, b2: u8, b3: u8)
    by (bit_vector)
    requires
        0x10000 <= c <= 0x10FFFF,
        b0 == 0xF0u8 | ((c >> 18u32) & 0x07u32) as u8,
        b1 == 0x80u8 | ((c >> 12u32) & 0x3Fu32) as u8,
        b2 == 0x80u8 | ((c >> 6u32) & 0x3Fu32) as u8,
        b3 == 0x80u8 | (c & 0x3Fu32) as u8,
    ensures
        0xF0 <= b0 <= 0xF4,
        0x80 <= b1 <= 0xBF,
        0x80 <= b2 <= 0xBF,
        0x80 <= b3 <= 0xBF,
        b0 == 0xF0 ==> 0x90 <= b1,
        b0 == 0xF4 ==> b1 <= 0x8F,
        ((b0 - 0xF0u8) as u32) * 262144u32 + ((b1 - 0x80u8) as u32) * 4096u32 + ((b2 - 0x80u8) as u32) * 64u32
            + ((b3 - 0x80u8) as u32) == c,
{
}

proof fn lemma_step_encode_scalar(ch: char)
    ensures
        step(vstd::utf8::encode_scalar(ch as u32)) == Utf8Step::Scalar(ch, vstd::utf8::encode_scalar(ch as u32).len() as int),
{
    let c = ch as u32;
    let e = vstd::utf8::encode_scalar(c);
    vstd::utf8::char_is_scalar(ch);
    vstd::utf8::char_u32_cast(ch, c);
    if vstd::utf8::has_width_1_encoding(c) {
        assert(e[0] == (c & 0x7F) as u8);
        assert((c & 0x7Fu32) as u8 == c as u8) by (bit_vector)
            requires c <= 0x7F;
        assert(code_point(e, 1) == c);
    } else if vstd::utf8::has_width_2_encoding(c) {
        lemma_bv_width_2(c, e[0], e[1]);
        assert(code_point(e, 2) == c);
    } else if vstd::utf8::has_width_3_encoding(c) {
        lemma_bv_width_3(c, e[0], e[1], e[2]);
        assert(code_point(e, 3) == c);
    } else {
        lemma_bv_width_4(c, e[0], e[1], e[2], e[3]);
        assert(code_point(e, 4) == c);
    }
}

/// Decoding gives back every text: the standard UTF-8 encoding of any characters
/// decodes to exactly those characters, with nothing held back.  So a pushed
/// piece of well-formed UTF-8 comes out as the text it encodes.
pub proof fn lemma_decodes_utf8_encoding(s: Seq<char>)
    ensures
        decode_bytes(vstd::utf8::encode_utf8(s)) == (s, Seq::<u8>::empty()),
    decreases s.len(),
{
    if s.len() > 0 {
        let ch = s[0];
        let e = vstd::utf8::encode_scalar(ch as u32);
        let rest = vstd::utf8::encode_utf8(s.drop_first());
        let b = vstd::utf8::encode_utf8(s);
        assert(b == e + rest);
        lemma_step_encode_scalar(ch);
        lemma_step_prefix(e, rest);
        let n = e.len() as int;
        assert(b.skip(n) == rest);
        lemma_decodes_utf8_encoding(s.drop_first());
        assert(seq![ch] + s.drop_first() == s);
    }
}

/// A byte that starts no UTF-8 sequence (a continuation byte, 0xC0, 0xC1, or
/// 0xF5 and above) where a character should begin becomes one U+FFFD, and the
/// bytes after it decode as they would alone.
pub proof fn lemma_stray_byte_is_one_replacement(b: u8, rest: Seq<u8>)
    requires
        (0x80 <= b && b <= 0xC1) || 0xF5 <= b,
    ensures
        decode_bytes(seq![b] + rest) == (seq!['\u{FFFD}'] + decode_bytes(rest).0, decode_bytes(rest).1),
{
    let x = seq![b] + rest;
    assert(x[0] == b);
    assert(x.skip(1) == rest);
}

} // verus!
