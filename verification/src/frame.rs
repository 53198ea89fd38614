//! The wire framing: a message is a header block, a four-byte separator
//! (`\r\n\r\n`), and a body of exactly the length the header declares.
//! These spec functions give the mathematical meaning of the stream: where
//! the first separator lies, what length a header block declares, and which
//! complete message bodies a byte sequence contains.

use vstd::prelude::*;

verus! {

/// The four separator bytes: carriage return, line feed, carriage return,
/// line feed.
pub open spec fn sep_bytes() -> Seq<u8> {
    seq![13u8, 10u8, 13u8, 10u8]
}

/// The separator stands at position `i` of `b`.
pub open spec fn sep_at(b: Seq<u8>, i: int) -> bool {
    &&& 0 <= i
    &&& i + 4 <= b.len()
    &&& b[i] == 13u8
    &&& b[i + 1] == 10u8
    &&& b[i + 2] == 13u8
    &&& b[i + 3] == 10u8
}

/// The least position `k >= i` where the separator stands, or `b.len()` when
/// there is none.
pub open spec fn find_sep_from(b: Seq<u8>, i: int) -> int
    decreases b.len() - i,
{
    if i < 0 || i + 4 > b.len() {
        b.len() as int
    } else if sep_at(b, i) {
        i
    } else {
        find_sep_from(b, i + 1)
    }
}

pub proof fn lemma_find_sep(b: Seq<u8>, i: int)
    requires
        0 <= i <= b.len(),
    ensures
        i <= find_sep_from(b, i) <= b.len(),
        find_sep_from(b, i) + 4 <= b.len() ==> sep_at(b, find_sep_from(b, i)),
        forall|j: int| i <= j < find_sep_from(b, i) ==> !sep_at(b, j),
        find_sep_from(b, i) + 4 > b.len() ==> find_sep_from(b, i) == b.len(),
    decreases b.len() - i,
{
    if i + 4 > b.len() {
        assert(forall|j: int| i <= j ==> j + 4 > b.len() ==> !sep_at(b, j));
    } else if sep_at(b, i) {
    } else {
        lemma_find_sep(b, i + 1);
    }
}

pub proof fn lemma_find_sep_is(b: Seq<u8>, i: int, k: int)
    requires
        0 <= i <= k <= b.len(),
        k + 4 <= b.len() ==> sep_at(b, k),
        k + 4 > b.len() ==> k == b.len(),
        forall|j: int| i <= j < k ==> !sep_at(b, j),
    ensures
        find_sep_from(b, i) == k,
    decreases k - i,
{
    if i < k {
        assert(!sep_at(b, i));
        lemma_find_sep_is(b, i + 1, k);
    }
}

/// The least position `j >= i` holding byte `c`, or `b.len()` when there is
/// none.
pub open spec fn find_byte_from(b: Seq<u8>, i: int, c: u8) -> int
    decreases b.len() - i,
{
    if i < 0 || i >= b.len() {
        b.len() as int
    } else if b[i] == c {
        i
    } else {
        find_byte_from(b, i + 1, c)
    }
}

pub proof fn lemma_find_byte(b: Seq<u8>, i: int, c: u8)
    requires
        0 <= i <= b.len(),
    ensures
        i <= find_byte_from(b, i, c) <= b.len(),
        find_byte_from(b, i, c) < b.len() ==> b[find_byte_from(b, i, c)] == c,
        forall|j: int| i <= j < find_byte_from(b, i, c) ==> b[j] != c,
    decreases b.len() - i,
{
    if i < b.len() && b[i] != c {
        lemma_find_byte(b, i + 1, c);
    }
}

pub proof fn lemma_find_byte_is(b: Seq<u8>, i: int, c: u8, k: int)
    requires
        0 <= i <= k <= b.len(),
        k < b.len() ==> b[k] == c,
        forall|j: int| i <= j < k ==> b[j] != c,
    ensures
        find_byte_from(b, i, c) == k,
    decreases k - i,
{
    if i < k {
        lemma_find_byte_is(b, i + 1, c, k);
    }
}

/// ASCII upper case folded to lower case; other bytes unchanged.
pub open spec fn lower_byte_spec(c: u8) -> u8 {
    if 65 <= c <= 90 {
        (c + 32) as u8
    } else {
        c
    }
}

/// The bytes of `content-length:`.
pub open spec fn cl_prefix() -> Seq<u8> {
    seq![99u8, 111u8, 110u8, 116u8, 101u8, 110u8, 116u8, 45u8, 108u8, 101u8, 110u8, 103u8, 116u8, 104u8, 58u8]
}

/// The line names the body-length field, matched case-insensitively.
pub open spec fn has_cl_prefix(line: Seq<u8>) -> bool {
    &&& line.len() >= 15
    &&& forall|i: int| 0 <= i < 15 ==> lower_byte_spec(line[i]) == cl_prefix()[i]
}

/// The raw value of the first header line that names the body-length field:
/// the header block is read as newline-delimited lines, and the first line
/// whose start case-insensitively matches `content-length:` gives its rest.
/// `None` when no line matches.
pub open spec fn header_value(h: Seq<u8>) -> Option<Seq<u8>>
    decreases h.len(),
{
    let j = find_byte_from(h, 0, 10u8);
    if !(0 <= j <= h.len()) {
        None
    } else {
        let line = h.subrange(0, j);
        if has_cl_prefix(line) {
            Some(line.subrange(15, line.len() as int))
        } else if j < h.len() {
            header_value(h.subrange(j + 1, h.len() as int))
        } else {
            None
        }
    }
}

/// ASCII whitespace, as trimmed from a header value.
pub open spec fn is_ws(c: u8) -> bool {
    c == 9u8 || c == 10u8 || c == 11u8 || c == 12u8 || c == 13u8 || c == 32u8
}

pub open spec fn trim_front(s: Seq<u8>) -> Seq<u8>
    decreases s.len(),
{
    if s.len() > 0 && is_ws(s[0]) {
        trim_front(s.subrange(1, s.len() as int))
    } else {
        s
    }
}

pub open spec fn trim_back(s: Seq<u8>) -> Seq<u8>
    decreases s.len(),
{
    if s.len() > 0 && is_ws(s[s.len() - 1]) {
        trim_back(s.subrange(0, s.len() - 1))
    } else {
        s
    }
}

/// The value with leading and trailing ASCII whitespace removed.
pub open spec fn trim_ws(s: Seq<u8>) -> Seq<u8> {
    trim_back(trim_front(s))
}

pub open spec fn is_digit(c: u8) -> bool {
    48 <= c <= 57
}

pub open spec fn all_digits(s: Seq<u8>) -> bool {
    forall|i: int| 0 <= i < s.len() ==> is_digit(#[trigger] s[i])
}

/// The decimal value of a digit string.
pub open spec fn digits_val(s: Seq<u8>) -> nat
    decreases s.len(),
{
    if s.len() == 0 {
        0
    } else {
        digits_val(s.subrange(0, s.len() - 1)) * 10 + (s[s.len() - 1] - 48) as nat
    }
}

/// A trimmed header value parsed as a non-negative decimal integer: an
/// optional leading plus sign, then one or more digits. `None` when the text
/// is not a number.
pub open spec fn parse_len(s: Seq<u8>) -> Option<nat> {
    let d = if s.len() > 0 && s[0] == 43u8 {
        s.subrange(1, s.len() as int)
    } else {
        s
    };
    if d.len() > 0 && all_digits(d) {
        Some(digits_val(d))
    } else {
        None
    }
}

/// `parse_len`, with values too large for a machine length rejected.
pub open spec fn bounded_parse(s: Seq<u8>) -> Option<nat> {
    match parse_len(s) {
        None => None,
        Some(n) => if n <= usize::MAX as nat {
            Some(n)
        } else {
            None
        },
    }
}

/// The body length a header block declares: the value of its first
/// body-length line, trimmed and parsed. `None` when the block is malformed —
/// no such line, a non-numeric value, or a value too large to hold.
pub open spec fn content_length_of(h: Seq<u8>) -> Option<nat> {
    match header_value(h) {
        None => None,
        Some(v) => bounded_parse(trim_ws(v)),
    }
}

pub proof fn lemma_trim_front_is(s: Seq<u8>, a: int)
    requires
        0 <= a <= s.len(),
        forall|j: int| 0 <= j < a ==> is_ws(#[trigger] s[j]),
        a < s.len() ==> !is_ws(s[a]),
    ensures
        trim_front(s) == s.subrange(a, s.len() as int),
    decreases a,
{
    if a == 0 {
        assert(s.subrange(0, s.len() as int) =~= s);
    } else {
        let s1 = s.subrange(1, s.len() as int);
        lemma_trim_front_is(s1, a - 1);
        assert(s1.subrange(a - 1, s1.len() as int) =~= s.subrange(a, s.len() as int));
    }
}

pub proof fn lemma_trim_back_is(s: Seq<u8>, b: int)
    requires
        0 <= b <= s.len(),
        forall|j: int| b <= j < s.len() ==> is_ws(#[trigger] s[j]),
        b > 0 ==> !is_ws(s[b - 1]),
    ensures
        trim_back(s) == s.subrange(0, b),
    decreases s.len(),
{
    if b == s.len() {
        assert(s.subrange(0, b) =~= s);
    } else {
        let s1 = s.subrange(0, s.len() - 1);
        lemma_trim_back_is(s1, b);
        assert(s1.subrange(0, b) =~= s.subrange(0, b));
    }
}

/// A digit string's value never falls when more digits follow.
pub proof fn lemma_digits_val_extend(t: Seq<u8>, m: int)
    requires
        0 <= m <= t.len(),
    ensures
        digits_val(t) >= digits_val(t.subrange(0, m)),
    decreases t.len() - m,
{
    if m == t.len() {
        assert(t.subrange(0, m) =~= t);
    } else {
        let p = t.subrange(0, m + 1);
        assert(p.subrange(0, p.len() - 1) =~= t.subrange(0, m));
        assert(digits_val(p) == digits_val(t.subrange(0, m)) * 10 + (p[p.len() - 1] - 48) as nat);
        lemma_digits_val_extend(t, m + 1);
    }
}

/// Every complete message body in `b`, in order, and the bytes left after
/// the last one. One round: find the first separator (none: wait); read the
/// header block before it (malformed: skip block and separator, scan on);
/// with a declared length, either the full body is present — yield it and
/// continue on the rest — or wait, keeping the buffer exactly as it is.
pub open spec fn drain(b: Seq<u8>) -> (Seq<Seq<u8>>, Seq<u8>)
    decreases b.len(),
{
    let k = find_sep_from(b, 0);
    if !(0 <= k && k + 4 <= b.len()) {
        (Seq::empty(), b)
    } else {
        match content_length_of(b.subrange(0, k)) {
            None => drain(b.subrange(k + 4, b.len() as int)),
            Some(n) => if k + 4 + n <= b.len() {
                let body = b.subrange(k + 4, k + 4 + n as int);
                let rest = drain(b.subrange(k + 4 + n as int, b.len() as int));
                (seq![body] + rest.0, rest.1)
            } else {
                (Seq::empty(), b)
            },
        }
    }
}

/// No further message can be taken from `b`: either no separator is present,
/// or the one message under way still lacks body bytes. The decoder's buffer
/// is always in this state between chunks.
pub open spec fn quiescent(b: Seq<u8>) -> bool {
    let k = find_sep_from(b, 0);
    if k + 4 <= b.len() {
        match content_length_of(b.subrange(0, k)) {
            None => false,
            Some(n) => b.len() < k + 4 + n,
        }
    } else {
        true
    }
}

pub proof fn lemma_quiescent_drain(b: Seq<u8>)
    requires
        quiescent(b),
    ensures
        drain(b).0 =~= Seq::<Seq<u8>>::empty(),
        drain(b).1 == b,
{
    lemma_find_sep(b, 0);
}

} // verus!
