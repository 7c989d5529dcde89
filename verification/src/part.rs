//! Parsing of a single line of a tree document.
//!
//! A line reads `<spaces>- <text> { key: "value", ... }`: its indentation,
//! a dash, free text, and an optional metadata block at the last `{`.
//! Every parser here works on the bytes of its [`Input`] and is specified by
//! a spec function over those bytes that gives either `Ok((value, end))`,
//! the value and where the input stands afterwards, or `Err(pos)`, where the
//! input stands after the failure.

use vstd::prelude::*;
use vstd::string::StringSliceAdditionalSpecFns;
use vstd::utf8::{encode_utf8, decode_utf8, valid_utf8, encode_utf8_valid_utf8, is_continuation_byte,
    is_char_boundary_iff_not_is_continuation_byte};
use crate::text::{newline_count, line_start, at_char, lemma_char_extent, substr, append_piece,
    bytes_eq, lemma_decode_of_encode, trim_start_from, trim_end_to, NEWLINE, QUOTE, BACKSLASH,
    COLON, COMMA, LBRACE, RBRACE, DASH, SPACE, TAB};
use crate::scan::{skip_blanks, skip_byte_run, find_byte, last_index_of, skip_chars,
    skip_blanks_exec, skip_byte_run_exec, find_byte_exec, last_index_exec, skip_chars_exec,
    trim_start_exec, trim_end_exec, lemma_skip_blanks, lemma_skip_blanks_ge, lemma_skip_byte_run,
    lemma_find_byte, lemma_skip_chars, lemma_trim_start_at_char, lemma_trim_end_at_char};

verus! {

/// A position in a document: 1-based line and 1-based byte column.
#[derive(Debug, Clone, Copy, PartialEq, Eq)]
pub struct Span {
    pub line: usize,
    pub column: usize,
}

impl Span {
    /// The line and column of the byte at `byte_offset` in `input`.
    pub fn from_offset(input: &str, byte_offset: usize) -> (r: Self)
        requires
            byte_offset <= input.spec_bytes().len(),
            byte_offset < usize::MAX,
            vstd::utf8::is_char_boundary(input.spec_bytes(), byte_offset as int),
        ensures
            r.line == newline_count(input.spec_bytes().take(byte_offset as int)) + 1,
            r.column == byte_offset - line_start(input.spec_bytes().take(byte_offset as int)) + 1,
    {
        let b = input.as_bytes();
        let ghost s = b@.take(byte_offset as int);
        let mut count: usize = 0;
        let mut start: usize = 0;
        let mut i: usize = 0;
        while i < byte_offset
            invariant
                b@ == input.spec_bytes(),
                s == b@.take(byte_offset as int),
                i <= byte_offset <= b@.len(),
                count == newline_count(s.take(i as int)),
                start == line_start(s.take(i as int)),
                count <= i,
                start <= i,
            decreases byte_offset - i,
        {
            assert(s.take(i + 1).drop_last() == s.take(i as int));
            if b[i] == NEWLINE {
                count = count + 1;
                start = i + 1;
            }
            i = i + 1;
        }
        assert(s.take(i as int) == s);
        Span { line: count + 1, column: byte_offset - start + 1 }
    }
}

/// The text a parser reads, and how far it has read.
pub struct Input<'i> {
    text: &'i str,
    pos: usize,
}

impl<'i> Input<'i> {
    #[verifier::type_invariant]
    spec fn inv(&self) -> bool {
        at_char(self.text.spec_bytes(), self.pos as int)
    }

    /// The bytes of the whole text.
    pub closed spec fn bytes(&self) -> Seq<u8> {
        self.text.spec_bytes()
    }

    /// How many bytes have been read.
    pub closed spec fn pos(&self) -> int {
        self.pos as int
    }

    /// An input that starts at the beginning of `text`.
    pub fn new(text: &'i str) -> (r: Input<'i>)
        ensures
            r.bytes() == text.spec_bytes(),
            r.pos() == 0,
    {
        proof {
            encode_utf8_valid_utf8(text@);
            if text.spec_bytes().len() > 0 {
                is_char_boundary_iff_not_is_continuation_byte(text.spec_bytes(), 0);
            }
        }
        Input { text, pos: 0 }
    }

    /// How many bytes have been read.
    pub fn current_token_start(&self) -> (r: usize)
        ensures
            r == self.pos(),
            at_char(self.bytes(), r as int),
    {
        proof {
            use_type_invariant(self);
        }
        self.pos
    }

    /// What is left to read.
    pub fn rest(&self) -> (r: &'i str)
        ensures
            r.spec_bytes() == self.bytes().subrange(self.pos(), self.bytes().len() as int),
    {
        proof {
            use_type_invariant(self);
        }
        let n = self.text.as_bytes().len();
        substr(self.text, self.pos, n)
    }
}

/// The body of a quoted string from `p` on, with `acc` read so far: a `"`
/// ends it, `\"` stands for `"`, a `\` before any other character stands
/// for itself and that character, and running out of input fails at the
/// end of the input.
pub open spec fn quoted_body(b: Seq<u8>, p: int, acc: Seq<u8>) -> Result<(Seq<u8>, int), int>
    decreases b.len() - p,
{
    if p < 0 || p >= b.len() {
        Err(b.len() as int)
    } else if b[p] == QUOTE {
        Ok((acc, p + 1))
    } else if b[p] == BACKSLASH {
        if p + 1 >= b.len() {
            Err(b.len() as int)
        } else if b[p + 1] == QUOTE {
            quoted_body(b, p + 2, acc.push(QUOTE))
        } else {
            quoted_body(b, p + 2, acc.push(BACKSLASH).push(b[p + 1]))
        }
    } else {
        quoted_body(b, p + 1, acc.push(b[p]))
    }
}

/// A string in double quotes at `p`: its content bytes and the position
/// after the closing quote.
pub open spec fn quoted(b: Seq<u8>, p: int) -> Result<(Seq<u8>, int), int> {
    if 0 <= p < b.len() && b[p] == QUOTE {
        quoted_body(b, p + 1, seq![])
    } else {
        Err(p)
    }
}

pub proof fn lemma_quoted_body_bounds(b: Seq<u8>, p: int, acc: Seq<u8>)
    requires
        0 <= p,
    ensures
        quoted_body(b, p, acc) matches Ok((_, q)) ==> p < q <= b.len(),
    decreases b.len() - p,
{
    if 0 <= p < b.len() && b[p] != QUOTE {
        if b[p] == BACKSLASH {
            if p + 1 < b.len() {
                if b[p + 1] == QUOTE {
                    lemma_quoted_body_bounds(b, p + 2, acc.push(QUOTE));
                } else {
                    lemma_quoted_body_bounds(b, p + 2, acc.push(BACKSLASH).push(b[p + 1]));
                }
            }
        } else {
            lemma_quoted_body_bounds(b, p + 1, acc.push(b[p]));
        }
    }
}

/// The quoted string at `p` of `text`, as the parser result described by
/// `quoted`.
fn quoted_at(text: &str, p: usize) -> (r: Result<(String, usize), usize>)
    requires
        p <= text.spec_bytes().len(),
        at_char(text.spec_bytes(), p as int),
    ensures
        match quoted(text.spec_bytes(), p as int) {
            Ok((v, q)) => r matches Ok((s, q2)) && encode_utf8(s@) == v && q2 == q,
            Err(e) => r matches Err(e2) && e2 == e,
        },
        r matches Ok((_, q)) ==> at_char(text.spec_bytes(), q as int) && p < q,
        r matches Err(e) ==> at_char(text.spec_bytes(), e as int),
{
    let b = text.as_bytes();
    let ghost bs = b@;
    proof {
        encode_utf8_valid_utf8(text@);
    }
    if !(p < b.len() && b[p] == QUOTE) {
        return Err(p);
    }
    proof {
        lemma_char_extent(bs, p as int);
    }
    let mut out = String::new();
    let mut seg: usize = p + 1;
    let mut i: usize = p + 1;
    let ghost mut acc: Seq<u8> = seq![];
    proof {
        assert(encode_utf8(out@) == Seq::<u8>::empty());
        assert(acc =~= encode_utf8(out@) + bs.subrange(seg as int, i as int));
    }
    loop
        invariant
            bs == b@,
            bs == text.spec_bytes(),
            valid_utf8(bs),
            p < seg <= i <= bs.len(),
            at_char(bs, seg as int),
            acc == encode_utf8(out@) + bs.subrange(seg as int, i as int),
            quoted(bs, p as int) == quoted_body(bs, i as int, acc),
        decreases bs.len() - i,
    {
        if i >= b.len() {
            return Err(b.len());
        }
        if b[i] == QUOTE {
            proof {
                lemma_char_extent(bs, i as int);
            }
            let piece = substr(text, seg, i);
            append_piece(&mut out, piece);
            proof {
                assert(encode_utf8(out@) =~= acc);
            }
            return Ok((out, i + 1));
        } else if b[i] == BACKSLASH {
            if i + 1 >= b.len() {
                return Err(b.len());
            }
            if b[i + 1] == QUOTE {
                proof {
                    lemma_char_extent(bs, i as int);
                    lemma_char_extent(bs, i + 1);
                }
                let piece = substr(text, seg, i);
                append_piece(&mut out, piece);
                let q = substr(text, i + 1, i + 2);
                append_piece(&mut out, q);
                proof {
                    acc = acc.push(QUOTE);
                }
                i = i + 2;
                seg = i;
                proof {
                    assert(acc =~= encode_utf8(out@) + bs.subrange(seg as int, i as int));
                }
            } else {
                proof {
                    acc = acc.push(BACKSLASH).push(bs[i + 1]);
                }
                i = i + 2;
                proof {
                    assert(acc =~= encode_utf8(out@) + bs.subrange(seg as int, i as int));
                }
            }
        } else {
            proof {
                acc = acc.push(bs[i as int]);
            }
            i = i + 1;
            proof {
                assert(acc =~= encode_utf8(out@) + bs.subrange(seg as int, i as int));
            }
        }
    }
}


proof fn lemma_quoted_plain_from(b: Seq<u8>, x: Seq<u8>, rest: Seq<u8>, k: int)
    requires
        b == seq![QUOTE] + x + seq![QUOTE] + rest,
        0 <= k <= x.len(),
        forall|j: int| 0 <= j < x.len() ==> #[trigger] x[j] != QUOTE && x[j] != BACKSLASH,
    ensures
        quoted_body(b, k + 1, x.take(k)) == Ok::<(Seq<u8>, int), int>((x, x.len() + 2int)),
    decreases x.len() - k,
{
    if k == x.len() {
        assert(b[k + 1] == QUOTE);
        assert(x.take(k) =~= x);
    } else {
        assert(b[k + 1] == x[k]);
        assert(x.take(k).push(x[k]) =~= x.take(k + 1));
        lemma_quoted_plain_from(b, x, rest, k + 1);
    }
}

/// A quoted string with neither a quote nor a backslash inside reads back
/// as what stands between its quotes, and reading stops right after the
/// closing quote, whatever follows.
pub proof fn law_quoted_plain(x: Seq<u8>, rest: Seq<u8>)
    requires
        forall|j: int| 0 <= j < x.len() ==> #[trigger] x[j] != QUOTE && x[j] != BACKSLASH,
    ensures
        quoted(seq![QUOTE] + x + seq![QUOTE] + rest, 0) == Ok::<(Seq<u8>, int), int>((x, x.len() + 2int)),
{
    let b = seq![QUOTE] + x + seq![QUOTE] + rest;
    assert(b[0] == QUOTE);
    assert(x.take(0) =~= Seq::<u8>::empty());
    lemma_quoted_plain_from(b, x, rest, 0);
}

/// `x` written inside quotes: each `"` preceded by a `\`.
pub open spec fn escape_quotes(x: Seq<u8>) -> Seq<u8>
    decreases x.len(),
{
    if x.len() == 0 {
        seq![]
    } else {
        (if x[0] == QUOTE {
            seq![BACKSLASH, QUOTE]
        } else {
            seq![x[0]]
        }) + escape_quotes(x.skip(1))
    }
}

proof fn lemma_quoted_escaped_from(b: Seq<u8>, p: int, x: Seq<u8>, acc: Seq<u8>)
    requires
        0 <= p,
        p + escape_quotes(x).len() < b.len(),
        b.subrange(p, p + escape_quotes(x).len()) == escape_quotes(x),
        b[p + escape_quotes(x).len()] == QUOTE,
        forall|j: int| 0 <= j < x.len() ==> #[trigger] x[j] != BACKSLASH,
    ensures
        quoted_body(b, p, acc) == Ok::<(Seq<u8>, int), int>((acc + x, p + escape_quotes(x).len() + 1)),
    decreases x.len(),
{
    let e = escape_quotes(x);
    if x.len() == 0 {
        assert(acc + x =~= acc);
    } else {
        let t = x.skip(1);
        let et = escape_quotes(t);
        assert forall|j: int| 0 <= j < t.len() implies #[trigger] t[j] != BACKSLASH by {
            assert(t[j] == x[j + 1]);
        }
        if x[0] == QUOTE {
            assert(e == seq![BACKSLASH, QUOTE] + et);
            assert(b[p] == e[0]);
            assert(b[p + 1] == e[1]);
            assert(b.subrange(p + 2, p + 2 + et.len()) =~= et) by {
                assert forall|j: int| 0 <= j < et.len() implies b.subrange(p + 2, p + 2 + et.len())[j] == et[j] by {
                    assert(b.subrange(p, p + e.len())[j + 2] == e[j + 2]);
                }
            }
            lemma_quoted_escaped_from(b, p + 2, t, acc.push(QUOTE));
            assert(acc.push(QUOTE) + t =~= acc + x);
        } else {
            assert(e == seq![x[0]] + et);
            assert(b[p] == e[0]);
            assert(b.subrange(p + 1, p + 1 + et.len()) =~= et) by {
                assert forall|j: int| 0 <= j < et.len() implies b.subrange(p + 1, p + 1 + et.len())[j] == et[j] by {
                    assert(b.subrange(p, p + e.len())[j + 1] == e[j + 1]);
                }
            }
            lemma_quoted_escaped_from(b, p + 1, t, acc.push(x[0]));
            assert(acc.push(x[0]) + t =~= acc + x);
        }
    }
}

/// Quoting bytes without a backslash, by writing each `"` as `\"`, and
/// reading them back gives the same bytes; reading stops right after the
/// closing quote, whatever follows.
pub proof fn law_quoted_escaped(x: Seq<u8>, rest: Seq<u8>)
    requires
        forall|j: int| 0 <= j < x.len() ==> #[trigger] x[j] != BACKSLASH,
    ensures
        quoted(seq![QUOTE] + escape_quotes(x) + seq![QUOTE] + rest, 0) == Ok::<(Seq<u8>, int), int>(
            (x, escape_quotes(x).len() + 2int),
        ),
{
    let e = escape_quotes(x);
    let b = seq![QUOTE] + e + seq![QUOTE] + rest;
    assert(b[0] == QUOTE);
    assert(b.subrange(1, 1 + e.len() as int) =~= e);
    assert(b[1 + e.len() as int] == QUOTE);
    lemma_quoted_escaped_from(b, 1, x, seq![]);
    assert(Seq::<u8>::empty() + x =~= x);
}

/// Whether a metadata block opens at `p` and its pairs are followed, after
/// blanks, by the closing `}`.
pub open spec fn block_closes(b: Seq<u8>, p: int) -> bool {
    let (_, q) = kv_list(b, p + 1);
    let r = skip_blanks(b, q);
    &&& 0 <= p < b.len() && b[p] == LBRACE
    &&& 0 <= r < b.len() && b[r] == RBRACE
}

/// Of the pairs of a closed metadata block, only the first `type` value and
/// the first `name` value count: two such blocks that agree on those read
/// alike, whatever else they hold and in whatever order.
pub proof fn law_meta_block_first_values(b1: Seq<u8>, p1: int, b2: Seq<u8>, p2: int)
    requires
        block_closes(b1, p1),
        block_closes(b2, p2),
        first_value(kv_list(b1, p1 + 1).0, "type".spec_bytes(), 0) == first_value(
            kv_list(b2, p2 + 1).0,
            "type".spec_bytes(),
            0,
        ),
        first_value(kv_list(b1, p1 + 1).0, "name".spec_bytes(), 0) == first_value(
            kv_list(b2, p2 + 1).0,
            "name".spec_bytes(),
            0,
        ),
    ensures
        meta_block(b1, p1) is Ok <==> meta_block(b2, p2) is Ok,
        meta_block(b1, p1) is Ok ==> meta_block(b1, p1)->Ok_0.0 == meta_block(b2, p2)->Ok_0.0,
{
}

/// From one offset to a later one, the line that `Span::from_offset` gives
/// grows by the number of newlines between them; when there are none, the
/// column grows by their distance.
pub proof fn law_from_offset_monotone(s: Seq<u8>, o1: int, o2: int)
    requires
        0 <= o1 <= o2 <= s.len(),
    ensures
        newline_count(s.take(o2)) + 1 == newline_count(s.take(o1)) + 1 + newline_count(s.subrange(o1, o2)),
        newline_count(s.subrange(o1, o2)) == 0 ==> o2 - line_start(s.take(o2)) + 1 == (o1 - line_start(
            s.take(o1),
        ) + 1) + (o2 - o1),
    decreases o2 - o1,
{
    if o2 == o1 {
        assert(s.subrange(o1, o2) =~= Seq::<u8>::empty());
    } else {
        law_from_offset_monotone(s, o1, o2 - 1);
        assert(s.take(o2).drop_last() =~= s.take(o2 - 1));
        assert(s.subrange(o1, o2).drop_last() =~= s.subrange(o1, o2 - 1));
        assert(s.take(o2).last() == s[o2 - 1]);
        assert(s.subrange(o1, o2).last() == s[o2 - 1]);
    }
}

/// `Span::from_offset` reads only the text before the offset: two texts
/// that agree there give the same line and column.
pub proof fn law_from_offset_reads_prefix(s: Seq<u8>, t: Seq<u8>, o: int)
    requires
        0 <= o <= s.len(),
        o <= t.len(),
        s.take(o) == t.take(o),
    ensures
        newline_count(s.take(o)) == newline_count(t.take(o)),
        o - line_start(s.take(o)) + 1 == o - line_start(t.take(o)) + 1,
{
}

/// Every byte of `b` is ASCII.
pub open spec fn is_ascii_bytes(b: Seq<u8>) -> bool {
    forall|i: int| 0 <= i < b.len() ==> #[trigger] b[i] < 0x80
}

/// Where the metadata block of a line is looked for, when its text starts
/// at `p2`: at the last `{` after `p2`, or else at the end of the line.
pub open spec fn block_start(b: Seq<u8>, p2: int) -> int {
    match last_index_of(b, p2, b.len() as int, LBRACE) {
        Some(q) => q,
        None => b.len() as int,
    }
}

proof fn lemma_skip_chars_ascii(b: Seq<u8>, p: int, n: nat)
    requires
        is_ascii_bytes(b),
        0 <= p,
        p + n <= b.len(),
    ensures
        skip_chars(b, p, n) == Some(p + n),
    decreases n,
{
    if n > 0 {
        if p + 1 < b.len() {
            assert(b[p + 1] < 0x80);
            assert(!is_continuation_byte(b[p + 1]));
        }
        lemma_skip_chars_ascii(b, p + 1, (n - 1) as nat);
    }
}

proof fn lemma_skip_spaces(b: Seq<u8>, p: int, k: int)
    requires
        0 <= p <= k < b.len(),
        forall|i: int| 0 <= i < k ==> #[trigger] b[i] == SPACE,
        b[k] == DASH,
    ensures
        skip_byte_run(b, p, SPACE) == k,
    decreases k - p,
{
    if p < k {
        lemma_skip_spaces(b, p + 1, k);
    }
}

proof fn lemma_last_index_of(b: Seq<u8>, p: int, j: int, x: u8)
    ensures
        last_index_of(b, p, j, x) matches Some(q) ==> p <= q < j,
    decreases j - p,
{
    if p < j && b[j - 1] != x {
        lemma_last_index_of(b, p, j - 1, x);
    }
}

/// On a line of ASCII text, `k` spaces and a `-`: the indent is `k`, and
/// the metadata block is read at the last `{` of the text after the dash
/// (or at the end of the line, where none can be read). A line whose block
/// reads is described, and reading ends after the blanks that follow the
/// block; otherwise the line is bare and nothing of it is read.
pub proof fn law_line_parse_ascii(b: Seq<u8>, k: int)
    requires
        is_ascii_bytes(b),
        0 <= k < b.len(),
        forall|i: int| 0 <= i < k ==> #[trigger] b[i] == SPACE,
        b[k] == DASH,
    ensures
        ({
            let q = block_start(b, skip_blanks(b, k + 1));
            match meta_block(b, q) {
                Err(_) => line_parse(b, 0) == Ok::<((int, Option<(Kind, Option<Seq<u8>>)>), int), int>(
                    ((k, None), 0),
                ),
                Ok((m, r)) => line_parse(b, 0) == Ok::<((int, Option<(Kind, Option<Seq<u8>>)>), int), int>(
                    ((k, Some(m)), skip_blanks(b, r)),
                ),
            }
        }),
{
    lemma_skip_spaces(b, 0, k);
    let p2 = skip_blanks(b, k + 1);
    lemma_skip_blanks_ge(b, k + 1);
    lemma_last_index_of(b, p2, b.len() as int, LBRACE);
    let q = block_start(b, p2);
    lemma_skip_chars_ascii(b, p2, (q - p2) as nat);
}

proof fn lemma_quoted_body_end(b: Seq<u8>, p: int, acc: Seq<u8>)
    requires
        0 <= p,
    ensures
        quoted_body(b, p, acc) matches Ok((_, q)) ==> p < q <= b.len() && b[q - 1] == QUOTE,
    decreases b.len() - p,
{
    if 0 <= p < b.len() && b[p] != QUOTE {
        if b[p] == BACKSLASH {
            if p + 1 < b.len() {
                if b[p + 1] == QUOTE {
                    lemma_quoted_body_end(b, p + 2, acc.push(QUOTE));
                } else {
                    lemma_quoted_body_end(b, p + 2, acc.push(BACKSLASH).push(b[p + 1]));
                }
            }
        } else {
            lemma_quoted_body_end(b, p + 1, acc.push(b[p]));
        }
    }
}

proof fn lemma_kv_pair_end(b: Seq<u8>, p: int)
    requires
        0 <= p <= b.len(),
    ensures
        kv_pair(b, p) matches Ok((_, r)) ==> p < r <= b.len() && b[r - 1] == QUOTE,
{
    lemma_kv_pair_advances(b, p);
    let p1 = skip_blanks(b, p);
    lemma_skip_blanks_ge(b, p);
    let q = find_byte(b, p1, COLON);
    lemma_find_byte(b, p1, COLON);
    if q != p1 && q < b.len() {
        lemma_skip_blanks_ge(b, q + 1);
        let p2 = skip_blanks(b, q + 1);
        if 0 <= p2 < b.len() && b[p2] == QUOTE {
            lemma_quoted_body_end(b, p2 + 1, seq![]);
        }
    }
}

proof fn lemma_kv_more_end(b: Seq<u8>, p: int, acc: Seq<KvBytes>)
    requires
        0 <= p <= b.len(),
    ensures
        kv_more(b, p, acc).1 == p || (p < kv_more(b, p, acc).1 <= b.len() && b[kv_more(b, p, acc).1 - 1] == QUOTE),
    decreases b.len() - p,
{
    if 0 <= p < b.len() && b[p] == COMMA {
        lemma_kv_pair_end(b, p + 1);
        if let Ok((kv, r)) = kv_pair(b, p + 1) {
            lemma_kv_more_end(b, r, acc.push(kv));
        }
    }
}

proof fn lemma_skip_blanks_all(b: Seq<u8>, p: int)
    requires
        0 <= p <= b.len(),
    ensures
        forall|k: int| p <= k < skip_blanks(b, p) ==> #[trigger] b[k] == SPACE || b[k] == TAB,
    decreases b.len() - p,
{
    if 0 <= p < b.len() && (b[p] == SPACE || b[p] == TAB) {
        lemma_skip_blanks_all(b, p + 1);
    }
}

/// The pairs of a block at `p` end at `q`, and its `}` ends at `r`: `q` is
/// right after the opening `{` or right after the closing quote of the last
/// value, and only spaces and tabs stand between `q` and the `}`.
pub open spec fn closes_after(b: Seq<u8>, p: int, q: int, r: int) -> bool {
    &&& p < q < r <= b.len()
    &&& (q == p + 1 || b[q - 1] == QUOTE)
    &&& forall|k: int| q <= k < r - 1 ==> #[trigger] b[k] == SPACE || b[k] == TAB
}

/// A metadata block that reads ends at a `}` that follows, apart from
/// spaces and tabs, the closing quote of its last value, or its opening `{`
/// when it holds no pair: a `,` with no pair after it is never read, so a
/// block with a dangling `,` before its `}` fails.
pub proof fn law_meta_block_closes_after_last_value(b: Seq<u8>, p: int)
    ensures
        meta_block(b, p) matches Ok((_, r)) ==> b[r - 1] == RBRACE && exists|q: int| #[trigger] closes_after(b, p, q, r),
{
    if 0 <= p < b.len() && b[p] == LBRACE {
        let (pairs, q) = kv_list(b, p + 1);
        lemma_kv_pair_end(b, p + 1);
        match kv_pair(b, p + 1) {
            Ok((kv, r)) => {
                lemma_kv_more_end(b, r, seq![kv]);
            },
            Err(_) => {},
        }
        lemma_kv_pair_advances(b, p + 1);
        assert(q == p + 1 || (p + 1 < q <= b.len() && b[q - 1] == QUOTE));
        lemma_skip_blanks_all(b, q);
        lemma_skip_blanks_ge(b, q);
        if let Ok((_, r)) = meta_block(b, p) {
            assert(closes_after(b, p, q, r));
        }
    }
}

/// `Span::from_offset` gives column 1 exactly at the start of the text and
/// right after a newline.
pub proof fn law_column_one_at_line_start(s: Seq<u8>, off: int)
    requires
        0 <= off <= s.len(),
    ensures
        (off - line_start(s.take(off)) + 1 == 1) <==> (off == 0 || s[off - 1] == NEWLINE),
{
    let t = s.take(off);
    if off > 0 {
        assert(t.last() == s[off - 1]);
        if s[off - 1] != NEWLINE {
            crate::text::lemma_newline_count_le(t.drop_last());
        }
    }
}

/// A key and the content of its quoted value, as bytes.
pub type KvBytes = (Seq<u8>, Seq<u8>);

/// `key: "value"` at `p`, with blanks allowed before the key and after the
/// colon. The key is everything up to the first `:`, at least one byte,
/// with white space trimmed from both of its ends.
pub open spec fn kv_pair(b: Seq<u8>, p: int) -> Result<(KvBytes, int), int> {
    let p1 = skip_blanks(b, p);
    let q = find_byte(b, p1, COLON);
    if q == p1 {
        Err(p1)
    } else if q >= b.len() {
        Err(q)
    } else {
        match quoted(b, skip_blanks(b, q + 1)) {
            Err(e) => Err(e),
            Ok((v, r)) => {
                let ks = trim_start_from(b, p1, q);
                Ok(((b.subrange(ks, trim_end_to(b, ks, q)), v), r))
            },
        }
    }
}

pub proof fn lemma_kv_pair_advances(b: Seq<u8>, p: int)
    requires
        0 <= p <= b.len(),
    ensures
        kv_pair(b, p) matches Ok((_, r)) ==> p < r <= b.len(),
{
    let p1 = skip_blanks(b, p);
    lemma_skip_blanks_ge(b, p);
    lemma_find_byte(b, p1, COLON);
    let q = find_byte(b, p1, COLON);
    if q != p1 && q < b.len() {
        lemma_skip_blanks_ge(b, q + 1);
        let p2 = skip_blanks(b, q + 1);
        if 0 <= p2 < b.len() && b[p2] == QUOTE {
            lemma_quoted_body_bounds(b, p2 + 1, seq![]);
        }
    }
}

/// More pairs after the first: each after a `,`. A `,` that is not
/// followed by a pair is left unread.
pub open spec fn kv_more(b: Seq<u8>, p: int, acc: Seq<KvBytes>) -> (Seq<KvBytes>, int)
    decreases b.len() - p,
{
    if 0 <= p < b.len() && b[p] == COMMA {
        match kv_pair(b, p + 1) {
            Ok((kv, r)) => {
                proof {
                    lemma_kv_pair_advances(b, p + 1);
                }
                kv_more(b, r, acc.push(kv))
            },
            Err(_) => (acc, p),
        }
    } else {
        (acc, p)
    }
}

/// Zero or more pairs separated by `,`.
pub open spec fn kv_list(b: Seq<u8>, p: int) -> (Seq<KvBytes>, int) {
    match kv_pair(b, p) {
        Ok((kv, r)) => kv_more(b, r, seq![kv]),
        Err(_) => (seq![], p),
    }
}

/// The value of the first pair whose key is `key`, looking from index `i`.
pub open spec fn first_value(pairs: Seq<KvBytes>, key: Seq<u8>, i: int) -> Option<Seq<u8>>
    decreases pairs.len() - i,
{
    if 0 <= i < pairs.len() {
        if pairs[i].0 == key {
            Some(pairs[i].1)
        } else {
            first_value(pairs, key, i + 1)
        }
    } else {
        None
    }
}

/// Which kind a `type` value names, if any.
pub open spec fn kind_named(v: Seq<u8>) -> Option<Kind> {
    if v == "array".spec_bytes() {
        Some(Kind::Complex(ComplexKind::Array))
    } else if v == "map".spec_bytes() {
        Some(Kind::Complex(ComplexKind::Mapping))
    } else if v == "struct".spec_bytes() {
        Some(Kind::Complex(ComplexKind::Struct))
    } else {
        None
    }
}

/// `{ key: "value", ... }` at `p`: the kind that its `type` names (a leaf
/// when it has none) and the bytes of its `name`, if it has one. A `type`
/// other than `array`, `map` and `struct` fails after the block.
pub open spec fn meta_block(b: Seq<u8>, p: int) -> Result<((Kind, Option<Seq<u8>>), int), int> {
    if !(0 <= p < b.len() && b[p] == LBRACE) {
        Err(p)
    } else {
        let (pairs, q) = kv_list(b, p + 1);
        let r = skip_blanks(b, q);
        if !(0 <= r < b.len() && b[r] == RBRACE) {
            Err(r)
        } else {
            let name = first_value(pairs, "name".spec_bytes(), 0);
            match first_value(pairs, "type".spec_bytes(), 0) {
                None => Ok(((Kind::Leaf, name), r + 1)),
                Some(v) => match kind_named(v) {
                    Some(k) => Ok(((k, name), r + 1)),
                    None => Err(r + 1),
                },
            }
        }
    }
}

/// A line at `p`: spaces (their number is the indent), a `-`, blanks, free
/// text, and a metadata block. The free text is as many characters as the
/// block's last `{` lies bytes after the text's start (or as the text has
/// bytes, without a `{`); with too few characters left the line fails after
/// the blanks. A line whose block does not parse is a bare line, and reading
/// it leaves the input where it was.
pub open spec fn line_parse(b: Seq<u8>, p: int) -> Result<((int, Option<(Kind, Option<Seq<u8>>)>), int), int> {
    let p1 = skip_byte_run(b, p, SPACE);
    if !(0 <= p1 < b.len() && b[p1] == DASH) {
        Err(p1)
    } else {
        let p2 = skip_blanks(b, p1 + 1);
        let n = match last_index_of(b, p2, b.len() as int, LBRACE) {
            Some(q) => q - p2,
            None => b.len() - p2,
        };
        match skip_chars(b, p2, n as nat) {
            None => Err(p2),
            Some(p3) => match meta_block(b, p3) {
                Err(_) => Ok(((p1 - p, None), p)),
                Ok((m, r)) => Ok(((p1 - p, Some(m)), skip_blanks(b, r))),
            },
        }
    }
}

/// The name of a node, when its metadata gives one.
#[derive(Debug, Clone, PartialEq)]
pub enum NodeName {
    AsField(String),
    Anonymous,
}

impl View for NodeName {
    type V = Option<Seq<char>>;

    open spec fn view(&self) -> Option<Seq<char>> {
        match self {
            NodeName::AsField(s) => Some(s@),
            NodeName::Anonymous => None,
        }
    }
}

/// The name read from the given bytes of a `name` value.
pub open spec fn name_of(nb: Option<Seq<u8>>) -> Option<Seq<char>> {
    match nb {
        Some(x) => Some(decode_utf8(x)),
        None => None,
    }
}

/// The kinds of complex node.
#[derive(Debug, Clone, Copy, PartialEq)]
pub enum ComplexKind {
    Struct,
    Array,
    Mapping,
}

/// A leaf, or a complex node of some kind.
#[derive(Debug, Clone, Copy, PartialEq)]
pub enum Kind {
    Leaf,
    Complex(ComplexKind),
}

/// What the metadata block of a line says.
#[derive(Debug, Clone, PartialEq)]
pub struct NodeInfo {
    pub name: NodeName,
    pub kind: Kind,
}

/// The view of a `NodeInfo`.
pub struct NodeInfoV {
    pub name: Option<Seq<char>>,
    pub kind: Kind,
}

impl View for NodeInfo {
    type V = NodeInfoV;

    open spec fn view(&self) -> NodeInfoV {
        NodeInfoV { name: self.name@, kind: self.kind }
    }
}

/// The view of a node's metadata read as `(kind, name bytes)`.
pub open spec fn info_of(m: (Kind, Option<Seq<u8>>)) -> NodeInfoV {
    NodeInfoV { name: name_of(m.1), kind: m.0 }
}

/// A line: its indent, and its metadata when it has a block.
pub struct ParsedLine {
    pub indent: usize,
    pub info: Option<NodeInfo>,
}

/// The view of a `ParsedLine`.
pub open spec fn parsed_line_view(l: ParsedLine) -> (int, Option<NodeInfoV>) {
    (
        l.indent as int,
        match l.info {
            Some(i) => Some(i@),
            None => None,
        },
    )
}

/// The view of a line as `line_parse` reads it.
pub open spec fn line_view(l: (int, Option<(Kind, Option<Seq<u8>>)>)) -> (int, Option<NodeInfoV>) {
    (
        l.0,
        match l.1 {
            Some(m) => Some(info_of(m)),
            None => None,
        },
    )
}

/// A parser found no match where it stood.
#[derive(Debug, Clone, Copy, PartialEq, Eq)]
pub struct ParseFailure;

/// What a parser returns.
pub type ModalResult<T> = Result<T, ParseFailure>;

/// Pairs of strings that read as the given pairs of bytes.
pub open spec fn pairs_are(v: Seq<(String, String)>, s: Seq<KvBytes>) -> bool {
    &&& v.len() == s.len()
    &&& forall|i: int| 0 <= i < v.len() ==> encode_utf8(#[trigger] v[i].0@) == s[i].0 && encode_utf8(
        v[i].1@,
    ) == s[i].1
}

/// `kv_pair` at `p` of `text`.
fn kv_at(text: &str, p: usize) -> (r: Result<(String, String, usize), usize>)
    requires
        p <= text.spec_bytes().len(),
        at_char(text.spec_bytes(), p as int),
    ensures
        match kv_pair(text.spec_bytes(), p as int) {
            Ok((kv, q)) => r matches Ok((k, v, q2)) && encode_utf8(k@) == kv.0 && encode_utf8(v@)
                == kv.1 && q2 == q,
            Err(e) => r matches Err(e2) && e2 == e,
        },
        r matches Ok((_, _, q)) ==> at_char(text.spec_bytes(), q as int) && p < q,
        r matches Err(e) ==> at_char(text.spec_bytes(), e as int),
{
    let b = text.as_bytes();
    let ghost bs = b@;
    proof {
        encode_utf8_valid_utf8(text@);
        lemma_skip_blanks(bs, p as int);
    }
    let p1 = skip_blanks_exec(b, p);
    let q = find_byte_exec(b, p1, COLON);
    proof {
        lemma_find_byte(bs, p1 as int, COLON);
    }
    if q == p1 {
        return Err(p1);
    }
    if q >= b.len() {
        return Err(q);
    }
    proof {
        lemma_char_extent(bs, q as int);
        lemma_skip_blanks(bs, q + 1);
    }
    let p2 = skip_blanks_exec(b, q + 1);
    match quoted_at(text, p2) {
        Err(e) => Err(e),
        Ok((v, r)) => {
            let ks = trim_start_exec(b, p1, q);
            proof {
                lemma_trim_start_at_char(bs, p1 as int, q as int);
            }
            let ke = trim_end_exec(b, ks, q);
            proof {
                lemma_trim_end_at_char(bs, ks as int, q as int);
            }
            let key = substr(text, ks, ke).to_owned();
            Ok((key, v, r))
        },
    }
}

/// Whether the string `s` has the bytes of `word`.
fn is_word(s: &String, word: &str) -> (r: bool)
    ensures
        r == (encode_utf8(s@) == word.spec_bytes()),
{
    bytes_eq(s.as_str().as_bytes(), word.as_bytes())
}

/// Index of the first pair from `i` on whose key is `key`.
fn find_key(pairs: &Vec<(String, String)>, key: &str) -> (r: Option<usize>)
    ensures
        r matches Some(i) ==> i < pairs@.len(),
        forall|s: Seq<KvBytes>|
            #![trigger pairs_are(pairs@, s)]
            pairs_are(pairs@, s) ==> match first_value(s, key.spec_bytes(), 0) {
                Some(v) => r matches Some(i) && i < pairs@.len() && encode_utf8(pairs@[i as int].1@)
                    == v,
                None => r is None,
            },
{
    let mut i: usize = 0;
    while i < pairs.len()
        invariant
            i <= pairs@.len(),
            forall|s: Seq<KvBytes>|
                #![trigger pairs_are(pairs@, s)]
                pairs_are(pairs@, s) ==> first_value(s, key.spec_bytes(), 0) == first_value(
                    s,
                    key.spec_bytes(),
                    i as int,
                ),
        decreases pairs@.len() - i,
    {
        if is_word(&pairs[i].0, key) {
            return Some(i);
        }
        i = i + 1;
    }
    None
}

/// `meta_block` at `p` of `text`.
fn meta_at(text: &str, p: usize) -> (r: Result<(Kind, NodeName, usize), usize>)
    requires
        p <= text.spec_bytes().len(),
        at_char(text.spec_bytes(), p as int),
    ensures
        match meta_block(text.spec_bytes(), p as int) {
            Ok(((k, nb), q)) => r matches Ok((k2, n2, q2)) && k2 == k && n2@ == name_of(nb) && q2
                == q,
            Err(e) => r matches Err(e2) && e2 == e,
        },
        r matches Ok((_, _, q)) ==> at_char(text.spec_bytes(), q as int) && p < q,
        r matches Err(e) ==> at_char(text.spec_bytes(), e as int),
{
    let b = text.as_bytes();
    let ghost bs = b@;
    proof {
        encode_utf8_valid_utf8(text@);
    }
    if !(p < b.len() && b[p] == LBRACE) {
        return Err(p);
    }
    proof {
        lemma_char_extent(bs, p as int);
    }
    let mut pairs: Vec<(String, String)> = Vec::new();
    let ghost mut sp: Seq<KvBytes> = seq![];
    let mut q: usize = p + 1;
    match kv_at(text, q) {
        Err(_) => {},
        Ok((k, v, r)) => {
            pairs.push((k, v));
            proof {
                let kv = kv_pair(bs, (p + 1) as int)->Ok_0.0;
                sp = seq![kv];
                assert(pairs_are(pairs@, sp));
            }
            q = r;
            loop
                invariant
                    b@ == bs,
                    bs == text.spec_bytes(),
                    valid_utf8(bs),
                    p < q <= bs.len(),
                    at_char(bs, q as int),
                    pairs_are(pairs@, sp),
                    kv_list(bs, p + 1) == kv_more(bs, q as int, sp),
                ensures
                    p < q <= bs.len(),
                    at_char(bs, q as int),
                    pairs_are(pairs@, sp),
                    kv_list(bs, p + 1) == (sp, q as int),
                decreases bs.len() - q,
            {
                if !(q < b.len() && b[q] == COMMA) {
                    break;
                }
                proof {
                    lemma_char_extent(bs, q as int);
                }
                match kv_at(text, q + 1) {
                    Err(_) => {
                        break;
                    },
                    Ok((k, v, r)) => {
                        pairs.push((k, v));
                        proof {
                            let kv = kv_pair(bs, q + 1)->Ok_0.0;
                            sp = sp.push(kv);
                            assert(pairs_are(pairs@, sp));
                        }
                        q = r;
                    },
                }
            }
        },
    }
    assert(kv_list(bs, p + 1) == (sp, q as int));
    proof {
        lemma_skip_blanks(bs, q as int);
    }
    let r = skip_blanks_exec(b, q);
    if !(r < b.len() && b[r] == RBRACE) {
        return Err(r);
    }
    proof {
        lemma_char_extent(bs, r as int);
    }
    let name_at = find_key(&pairs, "name");
    let name = match name_at {
        Some(i) => {
            proof {
                lemma_decode_of_encode(pairs@[i as int].1@, encode_utf8(pairs@[i as int].1@));
            }
            NodeName::AsField(pairs[i].1.clone())
        },
        None => NodeName::Anonymous,
    };
    let type_at = find_key(&pairs, "type");
    match type_at {
        None => Ok((Kind::Leaf, name, r + 1)),
        Some(i) => {
            let v = &pairs[i].1;
            if is_word(v, "array") {
                Ok((Kind::Complex(ComplexKind::Array), name, r + 1))
            } else if is_word(v, "map") {
                Ok((Kind::Complex(ComplexKind::Mapping), name, r + 1))
            } else if is_word(v, "struct") {
                Ok((Kind::Complex(ComplexKind::Struct), name, r + 1))
            } else {
                Err(r + 1)
            }
        },
    }
}

/// `line_parse` at `p` of `text`.
fn line_at(text: &str, p: usize) -> (r: Result<(ParsedLine, usize), usize>)
    requires
        p <= text.spec_bytes().len(),
        at_char(text.spec_bytes(), p as int),
    ensures
        match line_parse(text.spec_bytes(), p as int) {
            Ok((l, q)) => r matches Ok((pl, q2)) && parsed_line_view(pl) == line_view(l) && q2 == q,
            Err(e) => r matches Err(e2) && e2 == e,
        },
        r matches Ok((_, q)) ==> at_char(text.spec_bytes(), q as int),
        r matches Err(e) ==> at_char(text.spec_bytes(), e as int),
{
    let b = text.as_bytes();
    let ghost bs = b@;
    proof {
        encode_utf8_valid_utf8(text@);
        lemma_skip_byte_run(bs, p as int, SPACE);
    }
    let p1 = skip_byte_run_exec(b, p, SPACE);
    if !(p1 < b.len() && b[p1] == DASH) {
        return Err(p1);
    }
    proof {
        lemma_char_extent(bs, p1 as int);
        lemma_skip_blanks(bs, p1 + 1);
    }
    let p2 = skip_blanks_exec(b, p1 + 1);
    let n = match last_index_exec(b, p2, LBRACE) {
        Some(q) => q - p2,
        None => b.len() - p2,
    };
    proof {
        lemma_skip_chars(bs, p2 as int, n as nat);
    }
    match skip_chars_exec(b, p2, n) {
        None => Err(p2),
        Some(p3) => match meta_at(text, p3) {
            Err(_) => Ok((ParsedLine { indent: p1 - p, info: None }, p)),
            Ok((kind, name, r)) => {
                proof {
                    lemma_skip_blanks(bs, r as int);
                }
                let e = skip_blanks_exec(b, r);
                Ok((ParsedLine { indent: p1 - p, info: Some(NodeInfo { name, kind }) }, e))
            },
        },
    }
}

/// Reads one line: see `line_parse`.
pub fn parse_line(input: &mut Input) -> (r: ModalResult<ParsedLine>)
    ensures
        final(input).bytes() == old(input).bytes(),
        match line_parse(old(input).bytes(), old(input).pos()) {
            Ok((l, q)) => r matches Ok(pl) && parsed_line_view(pl) == line_view(l) && final(input).pos() == q,
            Err(e) => r is Err && final(input).pos() == e,
        },
{
    proof {
        use_type_invariant(&*input);
    }
    match line_at(input.text, input.pos) {
        Ok((line, q)) => {
            input.pos = q;
            Ok(line)
        },
        Err(e) => {
            input.pos = e;
            Err(ParseFailure)
        },
    }
}

/// Reads a metadata block: see `meta_block`.
pub fn parse_meta_block(input: &mut Input) -> (r: ModalResult<(Kind, NodeName)>)
    ensures
        final(input).bytes() == old(input).bytes(),
        match meta_block(old(input).bytes(), old(input).pos()) {
            Ok(((k, nb), q)) => r matches Ok((k2, n2)) && k2 == k && n2@ == name_of(nb) && final(input).pos() == q,
            Err(e) => r is Err && final(input).pos() == e,
        },
{
    proof {
        use_type_invariant(&*input);
    }
    match meta_at(input.text, input.pos) {
        Ok((kind, name, q)) => {
            input.pos = q;
            Ok((kind, name))
        },
        Err(e) => {
            input.pos = e;
            Err(ParseFailure)
        },
    }
}

/// Reads `key: "value"`: see `kv_pair`. Both come back as strings whose
/// UTF-8 bytes are those that `kv_pair` gives.
pub fn parse_kv_pair(input: &mut Input) -> (r: ModalResult<(String, String)>)
    ensures
        final(input).bytes() == old(input).bytes(),
        match kv_pair(old(input).bytes(), old(input).pos()) {
            Ok((kv, q)) => r matches Ok((k, v)) && encode_utf8(k@) == kv.0 && encode_utf8(v@)
                == kv.1 && final(input).pos() == q,
            Err(e) => r is Err && final(input).pos() == e,
        },
{
    proof {
        use_type_invariant(&*input);
    }
    match kv_at(input.text, input.pos) {
        Ok((k, v, q)) => {
            input.pos = q;
            Ok((k, v))
        },
        Err(e) => {
            input.pos = e;
            Err(ParseFailure)
        },
    }
}

/// Reads a quoted string: see `quoted`. The string comes back with the
/// UTF-8 bytes that `quoted` gives.
pub fn parse_quoted_string(input: &mut Input) -> (r: ModalResult<String>)
    ensures
        final(input).bytes() == old(input).bytes(),
        match quoted(old(input).bytes(), old(input).pos()) {
            Ok((v, q)) => r matches Ok(s) && encode_utf8(s@) == v && final(input).pos() == q,
            Err(e) => r is Err && final(input).pos() == e,
        },
{
    proof {
        use_type_invariant(&*input);
    }
    match quoted_at(input.text, input.pos) {
        Ok((s, q)) => {
            input.pos = q;
            Ok(s)
        },
        Err(e) => {
            input.pos = e;
            Err(ParseFailure)
        },
    }
}

} // verus!
