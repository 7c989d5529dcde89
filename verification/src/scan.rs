//! Scanning a byte string: runs of a byte, searches, character steps.

use vstd::prelude::*;
use vstd::utf8::{valid_utf8, is_continuation_byte};
use crate::text::{at_char, lead_width, lemma_char_extent, SPACE, TAB, ws_width, ws_width_before,
    trim_start_from, trim_end_to};

verus! {

/// First position at or after `p` whose byte is not `x`.
pub open spec fn skip_byte_run(b: Seq<u8>, p: int, x: u8) -> int
    decreases b.len() - p,
{
    if 0 <= p < b.len() && b[p] == x {
        skip_byte_run(b, p + 1, x)
    } else {
        p
    }
}

/// First position at or after `p` whose byte is neither a space nor a tab.
pub open spec fn skip_blanks(b: Seq<u8>, p: int) -> int
    decreases b.len() - p,
{
    if 0 <= p < b.len() && (b[p] == SPACE || b[p] == TAB) {
        skip_blanks(b, p + 1)
    } else {
        p
    }
}

/// First position at or after `p` that holds `x`, or the end of `b`.
pub open spec fn find_byte(b: Seq<u8>, p: int, x: u8) -> int
    decreases b.len() - p,
{
    if 0 <= p < b.len() {
        if b[p] == x {
            p
        } else {
            find_byte(b, p + 1, x)
        }
    } else {
        p
    }
}

/// Last position in `p..j` that holds `x`.
pub open spec fn last_index_of(b: Seq<u8>, p: int, j: int, x: u8) -> Option<int>
    decreases j - p,
{
    if p < j {
        if b[j - 1] == x {
            Some(j - 1)
        } else {
            last_index_of(b, p, j - 1, x)
        }
    } else {
        None
    }
}

/// First position at or after `q` that is not a UTF-8 continuation byte.
pub open spec fn char_after(b: Seq<u8>, q: int) -> int
    decreases b.len() - q,
{
    if 0 <= q < b.len() && is_continuation_byte(b[q]) {
        char_after(b, q + 1)
    } else {
        q
    }
}

/// Where `n` characters after `p` end, or `None` when fewer than `n`
/// characters follow `p`.
pub open spec fn skip_chars(b: Seq<u8>, p: int, n: nat) -> Option<int>
    decreases n,
{
    if n == 0 {
        Some(p)
    } else if p >= b.len() {
        None
    } else {
        skip_chars(b, char_after(b, p + 1), (n - 1) as nat)
    }
}

pub proof fn lemma_skip_byte_run(b: Seq<u8>, p: int, x: u8)
    requires
        valid_utf8(b),
        at_char(b, p),
        x < 0x80,
    ensures
        p <= skip_byte_run(b, p, x) <= b.len(),
        at_char(b, skip_byte_run(b, p, x)),
    decreases b.len() - p,
{
    if 0 <= p < b.len() && b[p] == x {
        lemma_char_extent(b, p);
        lemma_skip_byte_run(b, p + 1, x);
    }
}

pub proof fn lemma_skip_blanks(b: Seq<u8>, p: int)
    requires
        valid_utf8(b),
        at_char(b, p),
    ensures
        p <= skip_blanks(b, p) <= b.len(),
        at_char(b, skip_blanks(b, p)),
    decreases b.len() - p,
{
    if 0 <= p < b.len() && (b[p] == SPACE || b[p] == TAB) {
        lemma_char_extent(b, p);
        lemma_skip_blanks(b, p + 1);
    }
}

pub proof fn lemma_find_byte(b: Seq<u8>, p: int, x: u8)
    requires
        0 <= p <= b.len(),
    ensures
        p <= find_byte(b, p, x) <= b.len(),
        find_byte(b, p, x) < b.len() ==> b[find_byte(b, p, x)] == x,
        forall|k: int| p <= k < find_byte(b, p, x) ==> b[k] != x,
    decreases b.len() - p,
{
    if p < b.len() && b[p] != x {
        lemma_find_byte(b, p + 1, x);
    }
}

pub proof fn lemma_char_after(b: Seq<u8>, q: int)
    requires
        0 <= q <= b.len(),
    ensures
        q <= char_after(b, q) <= b.len(),
        at_char(b, char_after(b, q)),
    decreases b.len() - q,
{
    if q < b.len() && is_continuation_byte(b[q]) {
        lemma_char_after(b, q + 1);
    }
}

pub proof fn lemma_skip_chars(b: Seq<u8>, p: int, n: nat)
    requires
        0 <= p <= b.len(),
        at_char(b, p),
    ensures
        skip_chars(b, p, n) matches Some(q) ==> p <= q <= b.len() && at_char(b, q),
    decreases n,
{
    if n > 0 && p < b.len() {
        lemma_char_after(b, p + 1);
        lemma_skip_chars(b, char_after(b, p + 1), (n - 1) as nat);
    }
}

pub proof fn lemma_trim_start_at_char(b: Seq<u8>, i: int, e: int)
    requires
        valid_utf8(b),
        at_char(b, i),
        i <= e <= b.len(),
    ensures
        at_char(b, trim_start_from(b, i, e)),
        i <= trim_start_from(b, i, e) <= e,
    decreases e - i,
{
    let w = ws_width(b, i, e);
    if w > 0 {
        lemma_char_extent(b, i);
        assert(lead_width(b[i]) == w);
        lemma_trim_start_at_char(b, i + w, e);
    }
}

pub proof fn lemma_trim_end_at_char(b: Seq<u8>, s: int, j: int)
    requires
        at_char(b, j),
        0 <= s <= j,
    ensures
        at_char(b, trim_end_to(b, s, j)),
        s <= trim_end_to(b, s, j) <= j,
    decreases j - s,
{
    let w = ws_width_before(b, s, j);
    if w > 0 {
        assert(at_char(b, j - w));
        lemma_trim_end_at_char(b, s, j - w);
    }
}

/// `skip_byte_run` on a slice.
pub fn skip_byte_run_exec(b: &[u8], p: usize, x: u8) -> (r: usize)
    requires
        p <= b@.len(),
    ensures
        r == skip_byte_run(b@, p as int, x),
        p <= r <= b@.len(),
{
    let mut q = p;
    while q < b.len() && b[q] == x
        invariant
            p <= q <= b@.len(),
            skip_byte_run(b@, p as int, x) == skip_byte_run(b@, q as int, x),
        decreases b@.len() - q,
    {
        q = q + 1;
    }
    q
}

/// `skip_blanks` on a slice.
pub fn skip_blanks_exec(b: &[u8], p: usize) -> (r: usize)
    requires
        p <= b@.len(),
    ensures
        r == skip_blanks(b@, p as int),
        p <= r <= b@.len(),
{
    let mut q = p;
    while q < b.len() && (b[q] == SPACE || b[q] == TAB)
        invariant
            p <= q <= b@.len(),
            skip_blanks(b@, p as int) == skip_blanks(b@, q as int),
        decreases b@.len() - q,
    {
        q = q + 1;
    }
    q
}

/// `find_byte` on a slice.
pub fn find_byte_exec(b: &[u8], p: usize, x: u8) -> (r: usize)
    requires
        p <= b@.len(),
    ensures
        r == find_byte(b@, p as int, x),
        p <= r <= b@.len(),
{
    let mut q = p;
    while q < b.len() && b[q] != x
        invariant
            p <= q <= b@.len(),
            find_byte(b@, p as int, x) == find_byte(b@, q as int, x),
        decreases b@.len() - q,
    {
        q = q + 1;
    }
    q
}

/// `last_index_of` over `p..b.len()` on a slice.
pub fn last_index_exec(b: &[u8], p: usize, x: u8) -> (r: Option<usize>)
    requires
        p <= b@.len(),
    ensures
        match last_index_of(b@, p as int, b@.len() as int, x) {
            Some(q) => r == Some(q as usize) && p <= q < b@.len(),
            None => r is None,
        },
{
    let mut j = b.len();
    while j > p
        invariant
            p <= j <= b@.len(),
            last_index_of(b@, p as int, b@.len() as int, x) == last_index_of(
                b@,
                p as int,
                j as int,
                x,
            ),
        decreases j,
    {
        if b[j - 1] == x {
            return Some(j - 1);
        }
        j = j - 1;
    }
    None
}

/// `skip_chars` on a slice.
pub fn skip_chars_exec(b: &[u8], p: usize, n: usize) -> (r: Option<usize>)
    requires
        p <= b@.len(),
    ensures
        match skip_chars(b@, p as int, n as nat) {
            Some(q) => r == Some(q as usize) && p <= q <= b@.len(),
            None => r is None,
        },
{
    let mut q = p;
    let mut k = n;
    while k > 0
        invariant
            p <= q <= b@.len(),
            skip_chars(b@, p as int, n as nat) == skip_chars(b@, q as int, k as nat),
        decreases k,
    {
        if q >= b.len() {
            return None;
        }
        let mut c = q + 1;
        while c < b.len() && 0x80 <= b[c] && b[c] <= 0xbf
            invariant
                q < c <= b@.len(),
                char_after(b@, q + 1) == char_after(b@, c as int),
            decreases b@.len() - c,
        {
            c = c + 1;
        }
        q = c;
        k = k - 1;
    }
    Some(q)
}


pub proof fn lemma_skip_blanks_ge(b: Seq<u8>, p: int)
    requires
        0 <= p <= b.len(),
    ensures
        p <= skip_blanks(b, p) <= b.len(),
    decreases b.len() - p,
{
    if 0 <= p < b.len() && (b[p] == SPACE || b[p] == TAB) {
        lemma_skip_blanks_ge(b, p + 1);
    }
}

/// `trim_start_from` on a slice.
pub fn trim_start_exec(b: &[u8], i: usize, e: usize) -> (r: usize)
    requires
        i <= e <= b@.len(),
    ensures
        r == trim_start_from(b@, i as int, e as int),
        i <= r <= e,
{
    let mut k = i;
    loop
        invariant
            i <= k <= e <= b@.len(),
            trim_start_from(b@, i as int, e as int) == trim_start_from(b@, k as int, e as int),
        decreases e - k,
    {
        let w = crate::text::ws_width_exec(b, k, e);
        if w == 0 {
            return k;
        }
        k = k + w;
    }
}

/// `trim_end_to` on a slice.
pub fn trim_end_exec(b: &[u8], s: usize, j: usize) -> (r: usize)
    requires
        s <= j <= b@.len(),
    ensures
        r == trim_end_to(b@, s as int, j as int),
        s <= r <= j,
{
    let mut k = j;
    loop
        invariant
            s <= k <= j <= b@.len(),
            trim_end_to(b@, s as int, j as int) == trim_end_to(b@, s as int, k as int),
        decreases k - s,
    {
        let w = crate::text::ws_width_before_exec(b, s, k);
        if w == 0 {
            return k;
        }
        k = k - w;
    }
}

} // verus!
