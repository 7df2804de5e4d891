//! Wire framing for `Content-Length`-delimited JSON messages.
//!
//! A frame is a block of header lines followed by a body: each header line is
//! either `Content-Length: <decimal>` (the last one seen gives the body
//! length), `Content-Type: ...` (ignored), or the blank line `\r\n` that ends
//! the block; any other line is a framing error. The body is exactly
//! `Content-Length` bytes.
use vstd::prelude::*;

verus! {

/// True when `b` is the ASCII code of a decimal digit.
pub open spec fn is_digit_byte(b: u8) -> bool {
    48 <= b <= 57
}

/// True when `b` is ASCII whitespace as trimmed around a header value.
pub open spec fn is_space_byte(b: u8) -> bool {
    b == 32 || b == 9 || b == 13 || b == 10
}

/// Every byte of `s` is a decimal digit.
pub open spec fn all_digit_bytes(s: Seq<u8>) -> bool {
    forall|i: int| 0 <= i < s.len() ==> is_digit_byte(#[trigger] s[i])
}

/// Value of the decimal numeral `s`, most significant digit first.
pub open spec fn dec_value(s: Seq<u8>) -> nat
    decreases s.len(),
{
    if s.len() == 0 {
        0
    } else {
        dec_value(s.drop_last()) * 10 + (s.last() - 48) as nat
    }
}

/// The canonical decimal numeral of `n`: no sign, no leading zero except for 0 itself.
pub open spec fn dec_repr(n: nat) -> Seq<u8>
    decreases n,
{
    if n < 10 {
        seq![(48 + n) as u8]
    } else {
        dec_repr(n / 10).push((48 + n % 10) as u8)
    }
}

/// `s` without leading whitespace.
pub open spec fn trim_front(s: Seq<u8>) -> Seq<u8>
    decreases s.len(),
{
    if s.len() > 0 && is_space_byte(s[0]) {
        trim_front(s.skip(1))
    } else {
        s
    }
}

/// `s` without trailing whitespace.
pub open spec fn trim_back(s: Seq<u8>) -> Seq<u8>
    decreases s.len(),
{
    if s.len() > 0 && is_space_byte(s.last()) {
        trim_back(s.drop_last())
    } else {
        s
    }
}

/// `s` without leading or trailing whitespace.
pub open spec fn trim_bytes(s: Seq<u8>) -> Seq<u8> {
    trim_back(trim_front(s))
}

/// The bytes of `"Content-Length: "`.
pub open spec fn content_length_prefix() -> Seq<u8> {
    seq![67u8, 111u8, 110u8, 116u8, 101u8, 110u8, 116u8, 45u8, 76u8, 101u8, 110u8, 103u8, 116u8, 104u8, 58u8, 32u8]
}

/// The bytes of `"Content-Type: "`.
pub open spec fn content_type_prefix() -> Seq<u8> {
    seq![67u8, 111u8, 110u8, 116u8, 101u8, 110u8, 116u8, 45u8, 84u8, 121u8, 112u8, 101u8, 58u8, 32u8]
}

/// `s` starts with `p`.
pub open spec fn has_prefix(s: Seq<u8>, p: Seq<u8>) -> bool {
    s.len() >= p.len() && s.take(p.len() as int) == p
}

/// `s` is exactly the blank line `\r\n` that ends a header block.
pub open spec fn is_blank_line(s: Seq<u8>) -> bool {
    s =~= seq![13u8, 10u8]
}

/// Length of the first line of `s`: everything up to and including the first
/// newline byte, or all of `s` when it holds none.
pub open spec fn line_len(s: Seq<u8>) -> nat
    decreases s.len(),
{
    if s.len() == 0 {
        0
    } else if s[0] == 10 {
        1
    } else {
        1 + line_len(s.skip(1))
    }
}

/// The body length announced by a `Content-Length` header value: its trimmed
/// bytes must form a nonempty numeral whose value fits in `usize`.
pub open spec fn spec_parse_length(s: Seq<u8>) -> Option<nat> {
    let t = trim_bytes(s);
    if t.len() > 0 && all_digit_bytes(t) && dec_value(t) <= usize::MAX {
        Some(dec_value(t))
    } else {
        None
    }
}

/// Result of reading a header block from the front of `s`, starting with a
/// recorded length of `acc` (zero at the top of a frame: a block without any
/// `Content-Length` line announces an empty body). `Some((len, consumed))`
/// means the block ends after `consumed` bytes and announces a `len`-byte
/// body, taking the last `Content-Length` seen; `None` is a framing error.
pub open spec fn parse_headers(s: Seq<u8>, acc: nat) -> Option<(nat, nat)>
    decreases s.len(),
    via parse_headers_decreases
{
    if s.len() == 0 {
        None
    } else {
        let n = line_len(s);
        let line = s.take(n as int);
        if is_blank_line(line) {
            Some((acc, n))
        } else if has_prefix(line, content_length_prefix()) {
            match spec_parse_length(line.skip(16)) {
                Some(v) => match parse_headers(s.skip(n as int), v) {
                    Some((l, c)) => Some((l, n + c)),
                    None => None,
                },
                None => None,
            }
        } else if has_prefix(line, content_type_prefix()) {
            match parse_headers(s.skip(n as int), acc) {
                Some((l, c)) => Some((l, n + c)),
                None => None,
            }
        } else {
            None
        }
    }
}

#[via_fn]
proof fn parse_headers_decreases(s: Seq<u8>, acc: nat) {
    lemma_line_len_bounds(s);
}

/// The first line of a nonempty input is nonempty and lies within it.
pub proof fn lemma_line_len_bounds(s: Seq<u8>)
    ensures
        s.len() > 0 ==> 1 <= line_len(s) <= s.len(),
    decreases s.len(),
{
    if s.len() > 0 {
        if s[0] == 10 {
            assert(line_len(s) == 1);
        } else {
            lemma_line_len_bounds(s.skip(1));
            assert(s.skip(1).len() == s.len() - 1);
            assert(line_len(s) == 1 + line_len(s.skip(1)));
        }
    }
}

/// Result of decoding one frame from the front of `s`: the body bytes and the
/// total number of bytes consumed, or `None` when the header block is
/// malformed or the body runs past the end of `s`.
pub open spec fn spec_decode(s: Seq<u8>) -> Option<(Seq<u8>, nat)> {
    match parse_headers(s, 0) {
        Some((len, h)) => if h + len <= s.len() {
            Some((s.subrange(h as int, (h + len) as int), h + len))
        } else {
            None
        },
        None => None,
    }
}

/// The encoded frame for a body: `Content-Length: <len>\r\n\r\n<body>`.
pub open spec fn frame_bytes(body: Seq<u8>) -> Seq<u8> {
    content_length_prefix() + dec_repr(body.len()) + seq![13u8, 10u8, 13u8, 10u8] + body
}

/// How one header line is classified while reading a header block.
#[derive(Debug, PartialEq, Eq, Structural)]
pub enum LineKind {
    /// A `Content-Length` line announcing this body length.
    ContentLength(usize),
    /// A `Content-Type` line; it is ignored.
    ContentType,
    /// The blank `\r\n` line ending the header block.
    Blank,
    /// Any other line: a framing error.
    Invalid,
}

/// Why a frame failed to decode.
#[derive(Debug, Clone, Copy, PartialEq, Eq, Structural)]
pub enum FrameError {
    /// A header line was neither `Content-Length`, `Content-Type`, nor blank,
    /// or a `Content-Length` value was not a usable numeral, or the input
    /// ended inside the header block.
    MalformedHeader,
    /// The header block announced more body bytes than the input holds.
    TruncatedBody,
}

fn content_length_prefix_vec() -> (r: Vec<u8>)
    ensures
        r@ == content_length_prefix(),
{
    let mut r: Vec<u8> = Vec::new();
    r.push(67);
    r.push(111);
    r.push(110);
    r.push(116);
    r.push(101);
    r.push(110);
    r.push(116);
    r.push(45);
    r.push(76);
    r.push(101);
    r.push(110);
    r.push(103);
    r.push(116);
    r.push(104);
    r.push(58);
    r.push(32);
    assert(r@ =~= content_length_prefix());
    r
}

fn content_type_prefix_vec() -> (r: Vec<u8>)
    ensures
        r@ == content_type_prefix(),
{
    let mut r: Vec<u8> = Vec::new();
    r.push(67);
    r.push(111);
    r.push(110);
    r.push(116);
    r.push(101);
    r.push(110);
    r.push(116);
    r.push(45);
    r.push(84);
    r.push(121);
    r.push(112);
    r.push(101);
    r.push(58);
    r.push(32);
    assert(r@ =~= content_type_prefix());
    r
}

fn has_prefix_exec(s: &Vec<u8>, p: &Vec<u8>) -> (r: bool)
    ensures
        r == has_prefix(s@, p@),
{
    if s.len() < p.len() {
        assert(!has_prefix(s@, p@));
        return false;
    }
    let mut i: usize = 0;
    while i < p.len()
        invariant
            i <= p.len() <= s.len(),
            forall|j: int| 0 <= j < i ==> s@[j] == p@[j],
        decreases p.len() - i,
    {
        if s[i] != p[i] {
            assert(s@.take(p@.len() as int)[i as int] != p@[i as int]);
            return false;
        }
        i = i + 1;
    }
    assert(s@.take(p@.len() as int) =~= p@);
    true
}

/// Copies `v[from..to]` into a fresh vector.
fn copy_range(v: &Vec<u8>, from: usize, to: usize) -> (r: Vec<u8>)
    requires
        from <= to <= v.len(),
    ensures
        r@ == v@.subrange(from as int, to as int),
{
    let mut r: Vec<u8> = Vec::new();
    let mut i: usize = from;
    while i < to
        invariant
            from <= i <= to <= v.len(),
            r@ =~= v@.subrange(from as int, i as int),
        decreases to - i,
    {
        r.push(v[i]);
        assert(r@ =~= v@.subrange(from as int, i + 1 as int));
        i = i + 1;
    }
    r
}

/// A canonical numeral is made of digits and is never empty.
pub proof fn lemma_dec_repr_digits(n: nat)
    ensures
        all_digit_bytes(dec_repr(n)),
        dec_repr(n).len() >= 1,
    decreases n,
{
    if n < 10 {
        assert(dec_repr(n) =~= seq![(48 + n) as u8]);
    } else {
        lemma_dec_repr_digits(n / 10);
        assert(dec_repr(n) == dec_repr(n / 10).push((48 + n % 10) as u8));
        assert forall|i: int| 0 <= i < dec_repr(n).len() implies is_digit_byte(
            #[trigger] dec_repr(n)[i],
        ) by {
            if i < dec_repr(n / 10).len() {
                assert(dec_repr(n)[i] == dec_repr(n / 10)[i]);
            }
        }
    }
}

/// Reading back the canonical numeral of `n` gives `n`.
pub proof fn lemma_dec_repr_value(n: nat)
    ensures
        dec_value(dec_repr(n)) == n,
    decreases n,
{
    if n < 10 {
        assert(dec_repr(n) =~= seq![(48 + n) as u8]);
        assert(dec_repr(n).drop_last() =~= Seq::<u8>::empty());
        assert(((48 + n) as u8) as nat == 48 + n);
        assert(dec_value(dec_repr(n)) == dec_value(dec_repr(n).drop_last()) * 10 + (dec_repr(
            n,
        ).last() - 48) as nat);
        assert(dec_value(Seq::<u8>::empty()) == 0);
    } else {
        lemma_dec_repr_value(n / 10);
        assert(dec_repr(n).drop_last() =~= dec_repr(n / 10));
        assert(dec_repr(n).last() == (48 + n % 10) as u8);
        assert(((48 + n % 10) as u8) as nat == 48 + n % 10);
        assert(n == (n / 10) * 10 + n % 10);
        assert(dec_value(dec_repr(n)) == dec_value(dec_repr(n).drop_last()) * 10 + (dec_repr(
            n,
        ).last() - 48) as nat);
    }
}

/// The value of a numeral is at least the value of any of its prefixes.
pub proof fn lemma_dec_value_prefix_le(s: Seq<u8>, j: int)
    requires
        all_digit_bytes(s),
        0 <= j <= s.len(),
    ensures
        dec_value(s.take(j)) <= dec_value(s),
    decreases s.len() - j,
{
    if j < s.len() {
        assert(s.take(j + 1).drop_last() =~= s.take(j));
        assert(s.take(j + 1).last() == s[j]);
        assert(dec_value(s.take(j + 1)) == dec_value(s.take(j)) * 10 + (s[j] - 48) as nat);
        lemma_dec_value_prefix_le(s, j + 1);
    } else {
        assert(s.take(j) =~= s);
    }
}

/// Where the leading whitespace of `s` ends, `trim_front` cuts.
proof fn lemma_trim_front_at(s: Seq<u8>, k: int)
    requires
        0 <= k <= s.len(),
        forall|j: int| 0 <= j < k ==> is_space_byte(#[trigger] s[j]),
        k == s.len() || !is_space_byte(s[k]),
    ensures
        trim_front(s) == s.skip(k),
    decreases k,
{
    if k == 0 {
        assert(s.skip(0) =~= s);
    } else {
        lemma_trim_front_at(s.skip(1), k - 1);
        assert(s.skip(1).skip(k - 1) =~= s.skip(k));
    }
}

/// Where the trailing whitespace of `s` begins, `trim_back` cuts.
proof fn lemma_trim_back_at(s: Seq<u8>, m: int)
    requires
        0 <= m <= s.len(),
        forall|j: int| m <= j < s.len() ==> is_space_byte(#[trigger] s[j]),
        m == 0 || !is_space_byte(s[m - 1]),
    ensures
        trim_back(s) == s.take(m),
    decreases s.len() - m,
{
    if m == s.len() {
        assert(s.take(m) =~= s);
    } else {
        lemma_trim_back_at(s.drop_last(), m);
        assert(s.drop_last().take(m) =~= s.take(m));
    }
}

/// Parses a `Content-Length` header value: whitespace-trimmed decimal digits
/// whose value fits in `usize`.
fn parse_length(v: &Vec<u8>) -> (r: Option<usize>)
    ensures
        match spec_parse_length(v@) {
            Some(n) => r == Some(n as usize),
            None => r is None,
        },
{
    let n = v.len();
    let mut lo: usize = 0;
    while lo < n && is_space_exec(v[lo])
        invariant
            lo <= n == v@.len(),
            forall|j: int| 0 <= j < lo ==> is_space_byte(#[trigger] v@[j]),
        decreases n - lo,
    {
        lo = lo + 1;
    }
    proof {
        lemma_trim_front_at(v@, lo as int);
    }
    let ghost f = v@.skip(lo as int);
    let mut hi: usize = n;
    while hi > lo && is_space_exec(v[hi - 1])
        invariant
            lo <= hi <= n == v@.len(),
            forall|j: int| hi <= j < n ==> is_space_byte(#[trigger] v@[j]),
        decreases hi,
    {
        hi = hi - 1;
    }
    proof {
        assert forall|j: int| (hi - lo) <= j < f.len() implies is_space_byte(#[trigger] f[j]) by {
            assert(f[j] == v@[j + lo]);
        }
        if hi > lo {
            assert(f[hi - lo - 1] == v@[hi - 1]);
        }
        lemma_trim_back_at(f, hi - lo);
        assert(trim_bytes(v@) == f.take(hi - lo));
        assert(f.take(hi - lo) =~= v@.subrange(lo as int, hi as int));
    }
    let ghost t = trim_bytes(v@);
    if lo == hi {
        assert(t.len() == 0);
        return None;
    }
    let mut acc: usize = 0;
    let mut i: usize = lo;
    while i < hi
        invariant
            lo <= i <= hi <= n == v@.len(),
            lo < hi,
            t == trim_bytes(v@),
            t == v@.subrange(lo as int, hi as int),
            forall|j: int| lo <= j < i ==> is_digit_byte(#[trigger] v@[j]),
            acc as nat == dec_value(t.take(i - lo)),
        decreases hi - i,
    {
        let b = v[i];
        if !(48 <= b && b <= 57) {
            assert(!is_digit_byte(t[i - lo]));
            return None;
        }
        let d = (b - 48) as usize;
        proof {
            assert(t.take(i - lo + 1).drop_last() =~= t.take(i - lo));
            assert(t.take(i - lo + 1).last() == v@[i as int]);
        }
        if acc > usize::MAX / 10 || (acc == usize::MAX / 10 && d > usize::MAX % 10) {
            proof {
                assert(usize::MAX == (usize::MAX / 10) * 10 + usize::MAX % 10);
                assert(dec_value(t.take(i - lo + 1)) == acc * 10 + d);
                assert(acc * 10 + d > usize::MAX) by (nonlinear_arith)
                    requires
                        acc > usize::MAX / 10 || (acc == usize::MAX / 10 && d > usize::MAX % 10),
                        usize::MAX == (usize::MAX / 10) * 10 + usize::MAX % 10,
                        0 <= d,
                ;
                if all_digit_bytes(t) {
                    lemma_dec_value_prefix_le(t, i - lo + 1);
                }
            }
            return None;
        }
        proof {
            assert(usize::MAX == (usize::MAX / 10) * 10 + usize::MAX % 10);
            assert(acc * 10 + d <= usize::MAX) by (nonlinear_arith)
                requires
                    acc < usize::MAX / 10 || (acc == usize::MAX / 10 && d <= usize::MAX % 10),
                    usize::MAX == (usize::MAX / 10) * 10 + usize::MAX % 10,
                    0 <= d <= 9,
            ;
        }
        acc = acc * 10 + d;
        i = i + 1;
    }
    proof {
        assert(t.take(hi - lo) =~= t);
        assert forall|j: int| 0 <= j < t.len() implies is_digit_byte(#[trigger] t[j]) by {
            assert(t[j] == v@[j + lo]);
        }
    }
    Some(acc)
}

fn is_space_exec(b: u8) -> (r: bool)
    ensures
        r == is_space_byte(b),
{
    b == 32 || b == 9 || b == 13 || b == 10
}

/// The canonical decimal numeral of `n`, as bytes.
fn usize_to_dec(n: usize) -> (r: Vec<u8>)
    ensures
        r@ == dec_repr(n as nat),
    decreases n,
{
    if n < 10 {
        let mut r: Vec<u8> = Vec::new();
        r.push(48 + n as u8);
        assert(r@ =~= dec_repr(n as nat));
        r
    } else {
        let mut r = usize_to_dec(n / 10);
        r.push(48 + (n % 10) as u8);
        assert(r@ =~= dec_repr(n as nat));
        r
    }
}

/// Encodes one message body as a frame: `Content-Length: <len>\r\n\r\n<body>`.
pub fn encode_frame(body: &Vec<u8>) -> (r: Vec<u8>)
    ensures
        r@ == frame_bytes(body@),
{
    let mut r = content_length_prefix_vec();
    let mut digits = usize_to_dec(body.len());
    r.append(&mut digits);
    r.push(13);
    r.push(10);
    r.push(13);
    r.push(10);
    let mut i: usize = 0;
    while i < body.len()
        invariant
            i <= body@.len(),
            r@ =~= content_length_prefix() + dec_repr(body@.len()) + seq![13u8, 10u8, 13u8, 10u8]
                + body@.take(i as int),
        decreases body.len() - i,
    {
        r.push(body[i]);
        assert(r@ =~= content_length_prefix() + dec_repr(body@.len())
            + seq![13u8, 10u8, 13u8, 10u8] + body@.take(i + 1 as int));
        i = i + 1;
    }
    assert(body@.take(body@.len() as int) =~= body@);
    r
}

/// Framing round-trip law: a frame encoded for any body decodes back to
/// exactly that body, consuming exactly the frame, whatever bytes follow it.
pub proof fn lemma_frame_round_trip(body: Seq<u8>, rest: Seq<u8>)
    requires
        body.len() <= usize::MAX,
    ensures
        spec_decode(frame_bytes(body) + rest) == Some(
            (body, frame_bytes(body).len() as nat),
        ),
{
    lemma_dec_repr_digits(body.len());
    lemma_dec_repr_value(body.len());
    let digits = dec_repr(body.len());
    let d = digits.len() as int;
    let s = frame_bytes(body) + rest;
    let head = content_length_prefix() + digits + seq![13u8, 10u8];
    let k = 16 + d + 1;
    assert(forall|j: int| 0 <= j < 16 ==> content_length_prefix()[j] != 10);
    assert forall|j: int| 0 <= j < k implies s[j] != 10 by {
        if j < 16 {
            assert(s[j] == content_length_prefix()[j]);
        } else if j < 16 + d {
            assert(s[j] == digits[j - 16]);
            assert(is_digit_byte(digits[j - 16]));
        } else {
            assert(s[j] == 13);
        }
    }
    assert(s[k] == 10);
    lemma_line_len_at(s, k);
    let nl = 16 + d + 2;
    assert(line_len(s) == nl);
    let line = s.take(nl);
    assert(line =~= head);
    assert(!is_blank_line(line));
    assert(line.take(16) =~= content_length_prefix());
    assert(has_prefix(line, content_length_prefix()));
    let val = line.skip(16);
    assert(val =~= digits + seq![13u8, 10u8]);
    assert(!is_space_byte(val[0]));
    lemma_trim_front_at(val, 0);
    assert(val.skip(0) =~= val);
    assert forall|j: int| d <= j < val.len() implies is_space_byte(#[trigger] val[j]) by {
        if j == d {
            assert(val[j] == 13);
        } else {
            assert(val[j] == 10);
        }
    }
    assert(!is_space_byte(val[d - 1]));
    lemma_trim_back_at(val, d);
    assert(val.take(d) =~= digits);
    assert(trim_bytes(val) == digits);
    assert(spec_parse_length(val) == Some(body.len()));
    let s2 = s.skip(nl);
    assert(s2 =~= seq![13u8, 10u8] + body + rest);
    assert(s2[0] == 13 && s2[1] == 10);
    lemma_line_len_at(s2, 1);
    assert(line_len(s2) == 2);
    assert(s2.take(2) =~= seq![13u8, 10u8]);
    assert(is_blank_line(s2.take(2)));
    assert(parse_headers(s2, body.len()) == Some((body.len(), 2nat)));
    assert(parse_headers(s, 0) == Some((body.len(), (nl + 2) as nat)));
    assert(nl + 2 + body.len() <= s.len());
    assert(s.subrange(nl + 2, nl + 2 + body.len() as int) =~= body);
    assert(frame_bytes(body).len() == nl + 2 + body.len());
}

/// Classifies one header line, newline terminator included: a
/// `Content-Length` line yields the announced body length, a `Content-Type`
/// line is ignored, the blank `\r\n` line ends the header block, and any
/// other line is a framing error.
pub fn classify_header_line(line: &Vec<u8>) -> (r: LineKind)
    ensures
        ({
            if has_prefix(line@, content_length_prefix()) {
                match spec_parse_length(line@.skip(16)) {
                    Some(v) => r == LineKind::ContentLength(v as usize),
                    None => r == LineKind::Invalid,
                }
            } else if has_prefix(line@, content_type_prefix()) {
                r == LineKind::ContentType
            } else if is_blank_line(line@) {
                r == LineKind::Blank
            } else {
                r == LineKind::Invalid
            }
        }),
{
    let cl = content_length_prefix_vec();
    let ct = content_type_prefix_vec();
    if has_prefix_exec(line, &cl) {
        let value = copy_range(line, 16, line.len());
        assert(value@ == line@.skip(16));
        match parse_length(&value) {
            Some(v) => LineKind::ContentLength(v),
            None => LineKind::Invalid,
        }
    } else if has_prefix_exec(line, &ct) {
        LineKind::ContentType
    } else if line.len() == 2 && line[0] == 13 && line[1] == 10 {
        assert(line@ =~= seq![13u8, 10u8]);
        LineKind::Blank
    } else {
        assert(!is_blank_line(line@));
        LineKind::Invalid
    }
}

/// `line_len(s)` is pinned by the position of the first newline byte.
proof fn lemma_line_len_at(s: Seq<u8>, k: int)
    requires
        0 <= k <= s.len(),
        forall|j: int| 0 <= j < k ==> s[j] != 10,
        k == s.len() || s[k] == 10,
    ensures
        line_len(s) == if k < s.len() {
            (k + 1) as nat
        } else {
            k as nat
        },
    decreases k,
{
    if k == 0 {
    } else {
        lemma_line_len_at(s.skip(1), k - 1);
        assert(s[0] != 10);
        assert(line_len(s) == 1 + line_len(s.skip(1)));
    }
}

/// Decodes one frame from the front of `input`: returns the body bytes and
/// how many bytes of `input` the frame occupied. Exactly the inputs whose
/// header block conforms and whose announced body is fully present decode;
/// a conforming header block with too little body left is `TruncatedBody`,
/// anything else is `MalformedHeader`.
pub fn decode_frame(input: &Vec<u8>) -> (r: Result<(Vec<u8>, usize), FrameError>)
    ensures
        match r {
            Ok((body, consumed)) => spec_decode(input@) == Some((body@, consumed as nat)),
            Err(e) => spec_decode(input@) is None && (e == FrameError::TruncatedBody
                <==> parse_headers(input@, 0) is Some),
        },
{
    let ghost s0 = input@;
    let n = input.len();
    let mut pos: usize = 0;
    let mut length: usize = 0;
    proof {
        assert(s0.skip(0) =~= s0);
    }
    loop
        invariant
            pos <= n == s0.len(),
            s0 == input@,
            match parse_headers(s0.skip(pos as int), length as nat) {
                Some((l, c)) => parse_headers(s0, 0) == Some((l, (pos + c) as nat)),
                None => parse_headers(s0, 0) is None,
            },
        decreases n - pos,
    {
        if pos == n {
            assert(s0.skip(pos as int).len() == 0);
            assert(parse_headers(s0, 0) is None);
            return Err(FrameError::MalformedHeader);
        }
        let ghost srest = s0.skip(pos as int);
        let mut end: usize = pos;
        while end < n && input[end] != 10
            invariant
                pos <= end <= n == input@.len(),
                forall|j: int| pos <= j < end ==> input@[j] != 10,
            decreases n - end,
        {
            end = end + 1;
        }
        let line_end = if end < n {
            end + 1
        } else {
            end
        };
        proof {
            assert forall|j: int| 0 <= j < end - pos implies srest[j] != 10 by {
                assert(srest[j] == s0[j + pos]);
            }
            if end < n {
                assert(srest[end - pos] == s0[end as int]);
            }
            lemma_line_len_at(srest, end - pos);
            assert(line_len(srest) == line_end - pos);
        }
        let line = copy_range(input, pos, line_end);
        proof {
            assert(line@ =~= srest.take(line_end - pos));
            assert(s0.skip(line_end as int) =~= srest.skip(line_end - pos));
        }
        match classify_header_line(&line) {
            LineKind::Blank => {
                pos = line_end;
                proof {
                    assert(parse_headers(srest, length as nat) == Some::<(nat, nat)>((
                        length as nat,
                        2nat,
                    )));
                }
                if length <= n - pos {
                    let body = copy_range(input, pos, pos + length);
                    assert(spec_decode(s0) == Some((body@, (pos + length) as nat)));
                    return Ok((body, pos + length));
                } else {
                    assert(spec_decode(s0) is None);
                    return Err(FrameError::TruncatedBody);
                }
            },
            LineKind::ContentLength(v) => {
                proof {
                    assert(!is_blank_line(line@));
                }
                length = v;
                pos = line_end;
            },
            LineKind::ContentType => {
                proof {
                    assert(!is_blank_line(line@));
                    assert(!has_prefix(line@, content_length_prefix()));
                }
                pos = line_end;
            },
            LineKind::Invalid => {
                assert(parse_headers(srest, length as nat) is None);
                assert(parse_headers(s0, 0) is None);
                return Err(FrameError::MalformedHeader);
            },
        }
    }
}

/// Whether a byte sequence parses as one JSON document.
pub uninterp spec fn json_ok(s: Seq<u8>) -> bool;

/// The re-serialization of the JSON document held by a byte sequence;
/// meaningful only when `json_ok` holds of it.
pub uninterp spec fn json_canon(s: Seq<u8>) -> Seq<u8>;

/// Relies on serde_json::from_slice::<Value>, which accepts exactly the byte
/// sequences holding one JSON document, and serde_json::to_vec, whose output
/// on a Value is a function of that value; both depend on the input bytes
/// alone. to_vec cannot fail on a Value, whose maps have string keys.
#[verifier::external_body]
fn reserialize_json(b: &Vec<u8>) -> (r: Option<Vec<u8>>)
    ensures
        r is Some <==> json_ok(b@),
        r matches Some(c) ==> c@ == json_canon(b@),
{
    match serde_json::from_slice::<serde_json::Value>(b.as_slice()) {
        Ok(v) => serde_json::to_vec(&v).ok(),
        Err(_) => None,
    }
}

/// Why a message failed to decode.
#[derive(Debug, Clone, Copy, PartialEq, Eq, Structural)]
pub enum CodecError {
    /// The frame's header block is malformed.
    MalformedHeader,
    /// The frame announced more body bytes than were present.
    TruncatedBody,
    /// The body is not one JSON document.
    InvalidJson,
}

/// Validates and re-serializes one JSON message body, as every engine-side
/// read does — on the client path and on each backend path alike — before
/// the message travels onward.
pub fn canonical_message(body: &Vec<u8>) -> (r: Result<Vec<u8>, CodecError>)
    ensures
        r is Ok <==> json_ok(body@),
        r matches Ok(c) ==> c@ == json_canon(body@),
        r matches Err(e) ==> e == CodecError::InvalidJson,
{
    match reserialize_json(body) {
        Some(c) => Ok(c),
        None => Err(CodecError::InvalidJson),
    }
}

/// Decodes one frame and canonicalizes its JSON body: exactly the inputs
/// that frame a valid JSON document yield a message, and the message is
/// that document's re-serialization.
pub fn decode_message(input: &Vec<u8>) -> (r: Result<(Vec<u8>, usize), CodecError>)
    ensures
        match r {
            Ok((msg, consumed)) => ({
                &&& spec_decode(input@) matches Some((body, c)) && consumed as nat == c
                    && json_ok(body) && msg@ == json_canon(body)
            }),
            Err(e) => match e {
                CodecError::MalformedHeader => parse_headers(input@, 0) is None,
                CodecError::TruncatedBody => parse_headers(input@, 0) is Some && spec_decode(
                    input@,
                ) is None,
                CodecError::InvalidJson => spec_decode(input@) matches Some((body, _))
                    && !json_ok(body),
            },
        },
{
    match decode_frame(input) {
        Ok((body, consumed)) => match canonical_message(&body) {
            Ok(msg) => Ok((msg, consumed)),
            Err(_) => Err(CodecError::InvalidJson),
        },
        Err(FrameError::MalformedHeader) => Err(CodecError::MalformedHeader),
        Err(FrameError::TruncatedBody) => Err(CodecError::TruncatedBody),
    }
}

} // verus!
