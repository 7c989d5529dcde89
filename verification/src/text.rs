//! Byte-level facts about UTF-8 text that the parsers rely on: the bytes
//! they look for, Unicode white space, character boundaries, and the
//! correspondence between a `String` and the bytes it was cut from.

use vstd::prelude::*;
use vstd::utf8::{
    encode_utf8, decode_utf8, valid_utf8, is_char_boundary, is_continuation_byte,
    encode_utf8_decode_utf8, encode_utf8_valid_utf8, valid_utf8_split,
    is_char_boundary_start_end_of_seq, is_char_boundary_iff_not_is_continuation_byte,
    valid_first_scalar, length_of_first_scalar, pop_first_scalar,
};
use vstd::string::StringSliceAdditionalSpecFns;

verus! {

/// `\t`
pub const TAB: u8 = 9;

/// `\n`
pub const NEWLINE: u8 = 10;

/// ` `
pub const SPACE: u8 = 32;

/// `"`
pub const QUOTE: u8 = 34;

/// `,`
pub const COMMA: u8 = 44;

/// `-`
pub const DASH: u8 = 45;

/// `:`
pub const COLON: u8 = 58;

/// `\`
pub const BACKSLASH: u8 = 92;

/// `{`
pub const LBRACE: u8 = 123;

/// `}`
pub const RBRACE: u8 = 125;

/// Number of newline bytes in `s`.
pub open spec fn newline_count(s: Seq<u8>) -> nat
    decreases s.len(),
{
    if s.len() == 0 {
        0
    } else {
        newline_count(s.drop_last()) + if s.last() == NEWLINE {
            1nat
        } else {
            0nat
        }
    }
}

/// Index just past the last newline byte of `s`, or 0 when `s` has none.
pub open spec fn line_start(s: Seq<u8>) -> int
    decreases s.len(),
{
    if s.len() == 0 {
        0
    } else if s.last() == NEWLINE {
        s.len() as int
    } else {
        line_start(s.drop_last())
    }
}

pub proof fn lemma_newline_count_le(s: Seq<u8>)
    ensures
        newline_count(s) <= s.len(),
        0 <= line_start(s) <= s.len(),
    decreases s.len(),
{
    if s.len() > 0 {
        lemma_newline_count_le(s.drop_last());
    }
}

/// `i` is where a character starts in `b`, or the end of `b`.
pub open spec fn at_char(b: Seq<u8>, i: int) -> bool {
    0 <= i <= b.len() && (i == b.len() || !is_continuation_byte(b[i]))
}

/// Number of bytes of the UTF-8 encoding that starts with the byte `x`.
pub open spec fn lead_width(x: u8) -> int {
    if x < 0x80 {
        1
    } else if x < 0xe0 {
        2
    } else if x < 0xf0 {
        3
    } else {
        4
    }
}

/// A three-byte encoding of one of the Unicode `White_Space` characters
/// U+1680, U+2000..=U+200A, U+2028, U+2029, U+202F, U+205F and U+3000.
pub open spec fn is_ws3(x: u8, y: u8, z: u8) -> bool {
    ||| (x == 0xe1 && y == 0x9a && z == 0x80)
    ||| (x == 0xe2 && y == 0x80 && ((0x80 <= z && z <= 0x8a) || z == 0xa8 || z == 0xa9 || z == 0xaf))
    ||| (x == 0xe2 && y == 0x81 && z == 0x9f)
    ||| (x == 0xe3 && y == 0x80 && z == 0x80)
}

/// A one-byte Unicode `White_Space` character: U+0009..=U+000D and U+0020.
pub open spec fn is_ws1(x: u8) -> bool {
    x == SPACE || (TAB <= x && x <= 13)
}

/// A two-byte Unicode `White_Space` character: U+0085 and U+00A0.
pub open spec fn is_ws2(x: u8, y: u8) -> bool {
    x == 0xc2 && (y == 0x85 || y == 0xa0)
}

/// Width of the Unicode `White_Space` character encoded at `b[i..]`, when
/// that encoding lies before `e`; 0 when there is none.
pub open spec fn ws_width(b: Seq<u8>, i: int, e: int) -> int {
    if 0 <= i && i < e && e <= b.len() && is_ws1(b[i]) {
        1
    } else if 0 <= i && i + 1 < e && e <= b.len() && is_ws2(b[i], b[i + 1]) {
        2
    } else if 0 <= i && i + 2 < e && e <= b.len() && is_ws3(b[i], b[i + 1], b[i + 2]) {
        3
    } else {
        0
    }
}

/// Width of the Unicode `White_Space` character whose encoding ends at `j`
/// and starts at or after `s`; 0 when there is none.
pub open spec fn ws_width_before(b: Seq<u8>, s: int, j: int) -> int {
    if 0 <= s && s < j && j <= b.len() && is_ws1(b[j - 1]) {
        1
    } else if 0 <= s && s + 1 < j && j <= b.len() && is_ws2(b[j - 2], b[j - 1]) {
        2
    } else if 0 <= s && s + 2 < j && j <= b.len() && is_ws3(b[j - 3], b[j - 2], b[j - 1]) {
        3
    } else {
        0
    }
}

/// Where `str::trim_start` would put the start of `b[i..e]`: past every
/// leading white space character.
pub open spec fn trim_start_from(b: Seq<u8>, i: int, e: int) -> int
    decreases e - i,
{
    if ws_width(b, i, e) > 0 {
        trim_start_from(b, i + ws_width(b, i, e), e)
    } else {
        i
    }
}

/// Where `str::trim_end` would put the end of `b[s..j]`: before every
/// trailing white space character.
pub open spec fn trim_end_to(b: Seq<u8>, s: int, j: int) -> int
    decreases j - s,
{
    if ws_width_before(b, s, j) > 0 {
        trim_end_to(b, s, j - ws_width_before(b, s, j))
    } else {
        j
    }
}

/// Width of the Unicode white space character at `b[i..e]`, or 0.
pub fn ws_width_exec(b: &[u8], i: usize, e: usize) -> (w: usize)
    requires
        i <= e <= b@.len(),
    ensures
        w == ws_width(b@, i as int, e as int),
{
    if i < e && (b[i] == SPACE || (TAB <= b[i] && b[i] <= 13)) {
        1
    } else if e - i > 1 && b[i] == 0xc2 && (b[i + 1] == 0x85 || b[i + 1] == 0xa0) {
        2
    } else if e - i > 2 && ((b[i] == 0xe1 && b[i + 1] == 0x9a && b[i + 2] == 0x80) || (b[i]
        == 0xe2 && b[i + 1] == 0x80 && ((0x80 <= b[i + 2] && b[i + 2] <= 0x8a) || b[i + 2] == 0xa8
        || b[i + 2] == 0xa9 || b[i + 2] == 0xaf)) || (b[i] == 0xe2 && b[i + 1] == 0x81 && b[i + 2]
        == 0x9f) || (b[i] == 0xe3 && b[i + 1] == 0x80 && b[i + 2] == 0x80)) {
        3
    } else {
        0
    }
}

/// Width of the Unicode white space character that ends at `j` and starts
/// at or after `s`, or 0.
pub fn ws_width_before_exec(b: &[u8], s: usize, j: usize) -> (w: usize)
    requires
        s <= j <= b@.len(),
    ensures
        w == ws_width_before(b@, s as int, j as int),
{
    if s < j && (b[j - 1] == SPACE || (TAB <= b[j - 1] && b[j - 1] <= 13)) {
        1
    } else if j - s > 1 && b[j - 2] == 0xc2 && (b[j - 1] == 0x85 || b[j - 1] == 0xa0) {
        2
    } else if j - s > 2 && ((b[j - 3] == 0xe1 && b[j - 2] == 0x9a && b[j - 1] == 0x80) || (b[j
        - 3] == 0xe2 && b[j - 2] == 0x80 && ((0x80 <= b[j - 1] && b[j - 1] <= 0x8a) || b[j - 1]
        == 0xa8 || b[j - 1] == 0xa9 || b[j - 1] == 0xaf)) || (b[j - 3] == 0xe2 && b[j - 2] == 0x81
        && b[j - 1] == 0x9f) || (b[j - 3] == 0xe3 && b[j - 2] == 0x80 && b[j - 1] == 0x80)) {
        3
    } else {
        0
    }
}

/// In valid UTF-8, a position where a character starts is a character
/// boundary in the sense of `str::is_char_boundary`.
pub proof fn lemma_at_char_boundary(b: Seq<u8>, i: int)
    requires
        valid_utf8(b),
        at_char(b, i),
    ensures
        is_char_boundary(b, i),
{
    if i == b.len() {
        is_char_boundary_start_end_of_seq(b);
    } else {
        is_char_boundary_iff_not_is_continuation_byte(b, i);
    }
}

/// In valid UTF-8, the character that starts at `i` occupies exactly
/// `lead_width(b[i])` bytes, all but the first of them continuation bytes.
pub proof fn lemma_char_extent(b: Seq<u8>, i: int)
    requires
        valid_utf8(b),
        0 <= i < b.len(),
        !is_continuation_byte(b[i]),
    ensures
        i + lead_width(b[i]) <= b.len(),
        forall|k: int| i < k < i + lead_width(b[i]) ==> is_continuation_byte(#[trigger] b[k]),
        at_char(b, i + lead_width(b[i])),
{
    is_char_boundary_iff_not_is_continuation_byte(b, i);
    valid_utf8_split(b, i);
    let t = b.subrange(i, b.len() as int);
    assert(valid_utf8(t));
    assert(valid_first_scalar(t));
    let w = length_of_first_scalar(t);
    assert(w == lead_width(b[i]));
    let rest = pop_first_scalar(t);
    assert(rest == b.subrange(i + w, b.len() as int));
    if i + w < b.len() {
        assert(valid_utf8(rest));
        assert(valid_first_scalar(rest));
        assert(rest[0] == b[i + w]);
    }
}

/// Encoding distributes over concatenation.
pub proof fn lemma_encode_concat(x: Seq<char>, y: Seq<char>)
    ensures
        encode_utf8(x + y) == encode_utf8(x) + encode_utf8(y),
    decreases x.len(),
{
    if x.len() == 0 {
        assert(x + y =~= y);
        assert(encode_utf8(x) + encode_utf8(y) =~= encode_utf8(y));
    } else {
        lemma_encode_concat(x.drop_first(), y);
        assert((x + y).drop_first() =~= x.drop_first() + y);
        assert((x + y)[0] == x[0]);
    }
}

/// Two character sequences with the same encoding are equal.
pub proof fn lemma_encode_injective(x: Seq<char>, y: Seq<char>)
    requires
        encode_utf8(x) == encode_utf8(y),
    ensures
        x == y,
{
    encode_utf8_decode_utf8(x);
    encode_utf8_decode_utf8(y);
}

/// A character sequence is the decoding of its encoding.
pub proof fn lemma_decode_of_encode(x: Seq<char>, bytes: Seq<u8>)
    requires
        encode_utf8(x) == bytes,
    ensures
        decode_utf8(bytes) == x,
        valid_utf8(bytes),
{
    encode_utf8_decode_utf8(x);
    encode_utf8_valid_utf8(x);
}

/// The piece of `s` between the byte positions `a` and `c`.
pub fn substr(s: &str, a: usize, c: usize) -> (r: &str)
    requires
        a <= c <= s.spec_bytes().len(),
        at_char(s.spec_bytes(), a as int),
        at_char(s.spec_bytes(), c as int),
    ensures
        r.spec_bytes() == s.spec_bytes().subrange(a as int, c as int),
{
    proof {
        encode_utf8_valid_utf8(s@);
        lemma_at_char_boundary(s.spec_bytes(), a as int);
    }
    let (_, tail) = s.split_at(a);
    proof {
        let tb = tail.spec_bytes();
        encode_utf8_valid_utf8(tail@);
        assert(tb =~= s.spec_bytes().subrange(a as int, s.spec_bytes().len() as int));
        if c < s.spec_bytes().len() {
            assert(tb[c - a] == s.spec_bytes()[c as int]);
        }
        assert(at_char(tb, c - a));
        lemma_at_char_boundary(tb, c - a);
    }
    let (mid, _) = tail.split_at(c - a);
    assert(mid.spec_bytes() =~= s.spec_bytes().subrange(a as int, c as int));
    mid
}

/// Appends `piece` to `out`; the bytes of `out` grow by the bytes of `piece`.
pub fn append_piece(out: &mut String, piece: &str)
    ensures
        encode_utf8(final(out)@) == encode_utf8(old(out)@) + piece.spec_bytes(),
{
    out.append(piece);
    proof {
        lemma_encode_concat(old(out)@, piece@);
    }
}

/// Whether two byte slices hold the same bytes.
pub fn bytes_eq(x: &[u8], y: &[u8]) -> (r: bool)
    ensures
        r == (x@ == y@),
{
    if x.len() != y.len() {
        return false;
    }
    let mut i: usize = 0;
    while i < x.len()
        invariant
            x@.len() == y@.len(),
            i <= x@.len(),
            forall|k: int| 0 <= k < i ==> x@[k] == y@[k],
        decreases x@.len() - i,
    {
        if x[i] != y[i] {
            return false;
        }
        i = i + 1;
    }
    assert(x@ =~= y@);
    true
}

} // verus!
