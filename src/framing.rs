//! Length-prefixed framing: `Content-Length: <n>\r\n\r\n` followed by `n`
//! payload bytes.
use vstd::prelude::*;
use crate::message::{json_fields, kind_of};

verus! {

/// The bytes `Content-Length: `.
pub open spec fn header_prefix() -> Seq<u8> {
    seq![67u8, 111u8, 110u8, 116u8, 101u8, 110u8, 116u8, 45u8,
         76u8, 101u8, 110u8, 103u8, 116u8, 104u8, 58u8, 32u8]
}

/// The bytes `\r\n\r\n` that end the header.
pub open spec fn header_end() -> Seq<u8> {
    seq![13u8, 10u8, 13u8, 10u8]
}

pub open spec fn is_digit(b: u8) -> bool {
    48 <= b <= 57
}

/// Decimal digits of `n`, most significant first, without leading zeros.
pub open spec fn decimal(n: nat) -> Seq<u8>
    decreases n,
{
    if n < 10 {
        seq![(48 + n) as u8]
    } else {
        decimal(n / 10).push((48 + n % 10) as u8)
    }
}

/// Value of a run of decimal digits.
pub open spec fn digits_value(s: Seq<u8>) -> nat
    decreases s.len(),
{
    if s.len() == 0 {
        0
    } else {
        digits_value(s.drop_last()) * 10 + (s.last() - 48) as nat
    }
}

/// Index of the first byte at or after `i` that is not a decimal digit.
pub open spec fn digit_run(s: Seq<u8>, i: int) -> int
    decreases s.len() - i,
{
    if 0 <= i < s.len() && is_digit(s[i]) {
        digit_run(s, i + 1)
    } else {
        i
    }
}

/// The framed form of one payload.
pub open spec fn frame_of(p: Seq<u8>) -> Seq<u8> {
    header_prefix() + decimal(p.len()) + header_end() + p
}

/// What the start of a buffer holds.
pub enum Scan {
    /// A frame may still complete once more bytes arrive.
    Incomplete,
    /// The header can never become valid.
    Malformed,
    /// A whole frame whose payload is `buf[start..end]`.
    Complete { start: usize, end: usize },
}

/// How a buffer reads as the start of a framed stream.
pub open spec fn scan_of(b: Seq<u8>) -> Scan {
    let h = header_prefix();
    if b.len() < h.len() {
        if b == h.take(b.len() as int) { Scan::Incomplete } else { Scan::Malformed }
    } else if b.take(h.len() as int) != h {
        Scan::Malformed
    } else {
        let e = digit_run(b, h.len() as int);
        if e == b.len() {
            Scan::Incomplete
        } else if e == h.len() {
            Scan::Malformed
        } else {
            let n = digits_value(b.subrange(h.len() as int, e));
            let t = b.subrange(e, b.len() as int);
            if n > usize::MAX {
                Scan::Malformed
            } else if t.len() < 4 {
                if t == header_end().take(t.len() as int) { Scan::Incomplete } else { Scan::Malformed }
            } else if t.take(4) != header_end() {
                Scan::Malformed
            } else if b.len() - (e + 4) < n {
                Scan::Incomplete
            } else {
                Scan::Complete { start: (e + 4) as usize, end: (e + 4 + n) as usize }
            }
        }
    }
}

/// Errors of the framing layer.
#[derive(Debug, PartialEq, Eq, Structural, Clone, Copy)]
pub enum FramingError {
    /// The header is not a valid length header.
    Malformed,
    /// The stream ended inside a frame.
    Truncated,
}

proof fn lemma_decimal_digits(n: nat)
    ensures
        decimal(n).len() >= 1,
        forall|i: int| 0 <= i < decimal(n).len() ==> is_digit(#[trigger] decimal(n)[i]),
    decreases n,
{
    if n >= 10 {
        lemma_decimal_digits(n / 10);
    }
}

proof fn lemma_decimal_value(n: nat)
    ensures
        digits_value(decimal(n)) == n,
    decreases n,
{
    if n >= 10 {
        lemma_decimal_value(n / 10);
        assert(decimal(n).drop_last() =~= decimal(n / 10));
        assert(decimal(n).last() - 48 == n % 10);
    } else {
        assert(decimal(n).drop_last() =~= Seq::<u8>::empty());
        assert(digits_value(Seq::<u8>::empty()) == 0);
        assert(decimal(n).last() - 48 == n);
    }
}

proof fn lemma_digit_run(s: Seq<u8>, i: int, m: int)
    requires
        0 <= i <= m <= s.len(),
        forall|j: int| i <= j < m ==> is_digit(#[trigger] s[j]),
        m == s.len() || !is_digit(s[m]),
    ensures
        digit_run(s, i) == m,
    decreases m - i,
{
    if i < m {
        lemma_digit_run(s, i + 1, m);
    }
}

/// A framed payload, followed by anything, scans as exactly that frame:
/// decoding what encoding produced gives back the same payload, and so the
/// same classification.
pub proof fn lemma_frame_round_trip(p: Seq<u8>, rest: Seq<u8>)
    requires
        frame_of(p).len() + rest.len() <= usize::MAX,
    ensures
        ({
            let b = frame_of(p) + rest;
            match scan_of(b) {
                Scan::Complete { start, end } => b.subrange(start as int, end as int) == p
                    && end == frame_of(p).len()
                    && kind_of(json_fields(b.subrange(start as int, end as int))) == kind_of(json_fields(p)),
                _ => false,
            }
        }),
{
    let h = header_prefix();
    let d = decimal(p.len());
    let c = header_end();
    let b = frame_of(p) + rest;
    lemma_decimal_digits(p.len());
    lemma_decimal_value(p.len());
    assert(b =~= h + (d + (c + (p + rest))));
    assert(b.take(16) =~= h);
    let e: int = 16 + d.len() as int;
    assert forall|j: int| 16 <= j < e implies is_digit(#[trigger] b[j]) by {
        assert(b[j] == d[j - 16]);
    }
    assert(b[e] == 13u8);
    lemma_digit_run(b, 16, e);
    assert(b.subrange(16, e) =~= d);
    let t = b.subrange(e, b.len() as int);
    assert(t.take(4) =~= c);
    assert(b.len() == e + 4 + p.len() + rest.len());
    assert(b.subrange(e + 4, e + 4 + p.len()) =~= p);
    assert(scan_of(b) == Scan::Complete { start: (e + 4) as usize, end: (e + 4 + p.len()) as usize });
}

/// Appends the decimal digits of `n` to `out`.
fn push_decimal(out: &mut Vec<u8>, n: usize)
    ensures
        final(out)@ == old(out)@ + decimal(n as nat),
    decreases n,
{
    if n >= 10 {
        push_decimal(out, n / 10);
    }
    let d: u8 = (n % 10) as u8;
    out.push(48u8 + d);
    proof {
        assert(decimal(n as nat) == if n < 10 {
            seq![(48 + n) as u8]
        } else {
            decimal((n / 10) as nat).push((48 + n % 10) as u8)
        });
    }
}

/// Appends all of `src` to `out`.
pub fn push_all(out: &mut Vec<u8>, src: &[u8])
    ensures
        final(out)@ == old(out)@ + src@,
{
    let ghost start = out@;
    let mut i: usize = 0;
    while i < src.len()
        invariant
            i <= src@.len(),
            out@ == start + src@.take(i as int),
        decreases src@.len() - i,
    {
        out.push(src[i]);
        i = i + 1;
        proof {
            assert(src@.take(i as int) =~= src@.take(i - 1).push(src@[i - 1]));
        }
    }
    proof {
        assert(src@.take(i as int) =~= src@);
    }
}

/// Frames one payload for the wire.
pub fn encode_frame(payload: &[u8]) -> (r: Vec<u8>)
    ensures
        r@ == frame_of(payload@),
{
    let mut out: Vec<u8> = vec![67u8, 111u8, 110u8, 116u8, 101u8, 110u8, 116u8, 45u8,
        76u8, 101u8, 110u8, 103u8, 116u8, 104u8, 58u8, 32u8];
    proof {
        assert(out@ =~= header_prefix());
    }
    push_decimal(&mut out, payload.len());
    out.push(13u8);
    out.push(10u8);
    out.push(13u8);
    out.push(10u8);
    proof {
        assert(out@ =~= header_prefix() + decimal(payload@.len()) + header_end());
    }
    push_all(&mut out, payload);
    out
}

proof fn lemma_digits_prefix(s: Seq<u8>, k: int)
    requires
        0 <= k <= s.len(),
    ensures
        digits_value(s.take(k)) <= digits_value(s),
    decreases s.len(),
{
    if k < s.len() {
        assert(s.take(k) =~= s.drop_last().take(k));
        lemma_digits_prefix(s.drop_last(), k);
    } else {
        assert(s.take(k) =~= s);
    }
}

proof fn lemma_digit_run_props(s: Seq<u8>, i: int)
    requires
        0 <= i <= s.len(),
    ensures
        i <= digit_run(s, i) <= s.len(),
        forall|j: int| i <= j < digit_run(s, i) ==> is_digit(#[trigger] s[j]),
        digit_run(s, i) < s.len() ==> !is_digit(s[digit_run(s, i)]),
    decreases s.len() - i,
{
    if i < s.len() && is_digit(s[i]) {
        lemma_digit_run_props(s, i + 1);
    }
}

/// Whether `b[at..]` agrees with `pat` on the bytes that both have.
fn agrees_at(b: &Vec<u8>, at: usize, pat: &Vec<u8>) -> (r: bool)
    requires
        at <= b@.len(),
    ensures
        ({
            let m = if pat@.len() < b@.len() - at { pat@.len() as int } else { b@.len() - at };
            r == (b@.subrange(at as int, at + m) == pat@.take(m))
        }),
{
    let m: usize = if pat.len() < b.len() - at { pat.len() } else { b.len() - at };
    let mut j: usize = 0;
    while j < m
        invariant
            j <= m,
            m <= pat@.len(),
            at + m <= b.len(),
            forall|i: int| 0 <= i < j ==> b@[at + i] == pat@[i],
        decreases m - j,
    {
        if b[at + j] != pat[j] {
            proof {
                assert(b@.subrange(at as int, at + m)[j as int] != pat@.take(m as int)[j as int]);
            }
            return false;
        }
        j = j + 1;
    }
    proof {
        assert(b@.subrange(at as int, at + m) =~= pat@.take(m as int));
    }
    true
}

/// Reads the start of a buffer as a frame.
pub fn scan(b: &Vec<u8>) -> (r: Scan)
    ensures
        r == scan_of(b@),
        r matches Scan::Complete { start, end } ==> start <= end <= b@.len(),
{
    let h: Vec<u8> = vec![67u8, 111u8, 110u8, 116u8, 101u8, 110u8, 116u8, 45u8,
        76u8, 101u8, 110u8, 103u8, 116u8, 104u8, 58u8, 32u8];
    let c: Vec<u8> = vec![13u8, 10u8, 13u8, 10u8];
    proof {
        assert(h@ =~= header_prefix());
        assert(c@ =~= header_end());
    }
    let len = b.len();
    if !agrees_at(b, 0, &h) {
        proof {
            if len >= 16 {
                assert(b@.subrange(0, 16) =~= b@.take(16));
                assert(h@.take(16) =~= h@);
            } else {
                assert(b@.subrange(0, len as int) =~= b@);
            }
        }
        return Scan::Malformed;
    }
    if len < 16 {
        proof {
            assert(b@.subrange(0, len as int) =~= b@);
        }
        return Scan::Incomplete;
    }
    proof {
        assert(b@.subrange(0, 16) =~= b@.take(16));
        assert(h@.take(16) =~= h@);
    }
    let mut e: usize = 16;
    while e < len && 48u8 <= b[e] && b[e] <= 57u8
        invariant
            16 <= e <= len,
            len == b@.len(),
            digit_run(b@, 16) == digit_run(b@, e as int),
        decreases len - e,
    {
        e = e + 1;
    }
    proof {
        assert(digit_run(b@, e as int) == e);
        lemma_digit_run_props(b@, 16);
    }
    if e == len {
        return Scan::Incomplete;
    }
    if e == 16 {
        return Scan::Malformed;
    }
    let ghost digits = b@.subrange(16, e as int);
    let mut n: usize = 0;
    let mut k: usize = 16;
    while k < e
        invariant
            16 <= k <= e,
            e < len,
            len == b@.len(),
            digits == b@.subrange(16, e as int),
            digit_run(b@, 16) == e,
            b@.take(16) == header_prefix(),
            n == digits_value(b@.subrange(16, k as int)),
            forall|j: int| 16 <= j < e ==> is_digit(#[trigger] b@[j]),
        decreases e - k,
    {
        let d: usize = (b[k] - 48u8) as usize;
        proof {
            assert(b@.subrange(16, k + 1).drop_last() =~= b@.subrange(16, k as int));
            assert(b@.subrange(16, k + 1).take(k + 1 - 16) =~= b@.subrange(16, k + 1));
            assert(digits.take(k + 1 - 16) =~= b@.subrange(16, k + 1));
            lemma_digits_prefix(digits, k + 1 - 16);
        }
        match n.checked_mul(10) {
            None => {
                proof {
                    assert(digits_value(digits) > usize::MAX);
                }
                return Scan::Malformed;
            },
            Some(t) => match t.checked_add(d) {
                None => {
                    proof {
                        assert(digits_value(digits) > usize::MAX);
                    }
                    return Scan::Malformed;
                },
                Some(v) => {
                    n = v;
                },
            },
        }
        k = k + 1;
    }
    if !agrees_at(b, e, &c) {
        proof {
            let t = b@.subrange(e as int, len as int);
            if len - e >= 4 {
                assert(b@.subrange(e as int, e + 4) =~= t.take(4));
                assert(c@.take(4) =~= c@);
            } else {
                assert(b@.subrange(e as int, len as int) =~= t);
            }
        }
        return Scan::Malformed;
    }
    if len - e < 4 {
        proof {
            assert(b@.subrange(e as int, len as int) =~= b@.subrange(e as int, b@.len() as int));
        }
        return Scan::Incomplete;
    }
    proof {
        assert(b@.subrange(e as int, e + 4) =~= b@.subrange(e as int, len as int).take(4));
        assert(c@.take(4) =~= c@);
    }
    if len - (e + 4) < n {
        return Scan::Incomplete;
    }
    Scan::Complete { start: e + 4, end: e + 4 + n }
}

/// Copies `b[lo..hi]` into a new vector.
pub fn copy_range(b: &Vec<u8>, lo: usize, hi: usize) -> (r: Vec<u8>)
    requires
        lo <= hi <= b@.len(),
    ensures
        r@ == b@.subrange(lo as int, hi as int),
{
    let mut out: Vec<u8> = Vec::new();
    let mut i: usize = lo;
    while i < hi
        invariant
            lo <= i <= hi,
            hi <= b@.len(),
            out@ == b@.subrange(lo as int, i as int),
        decreases hi - i,
    {
        out.push(b[i]);
        i = i + 1;
        proof {
            assert(out@ =~= b@.subrange(lo as int, i as int));
        }
    }
    out
}

/// Splits a byte stream that arrives in arbitrary chunks into payloads,
/// keeping a partial trailing frame until the rest of it arrives.
pub struct Decoder {
    buf: Vec<u8>,
}

impl View for Decoder {
    type V = Seq<u8>;

    /// The bytes received and not yet handed out as a payload.
    closed spec fn view(&self) -> Seq<u8> {
        self.buf@
    }
}

impl Decoder {
    pub fn new() -> (r: Decoder)
        ensures
            r@ == Seq::<u8>::empty(),
    {
        Decoder { buf: Vec::new() }
    }

    /// Appends bytes read from the stream.
    pub fn feed(&mut self, chunk: &[u8])
        ensures
            final(self)@ == old(self)@ + chunk@,
    {
        push_all(&mut self.buf, chunk);
    }

    /// Takes the next whole payload out of the buffer, if one is there.
    pub fn next_payload(&mut self) -> (r: Result<Option<Vec<u8>>, FramingError>)
        ensures
            match scan_of(old(self)@) {
                Scan::Incomplete => r == Ok::<Option<Vec<u8>>, FramingError>(None)
                    && final(self)@ == old(self)@,
                Scan::Malformed => r == Err::<Option<Vec<u8>>, FramingError>(FramingError::Malformed)
                    && final(self)@ == old(self)@,
                Scan::Complete { start, end } => match r {
                    Ok(Some(p)) => p@ == old(self)@.subrange(start as int, end as int)
                        && final(self)@ == old(self)@.subrange(end as int, old(self)@.len() as int),
                    _ => false,
                },
            },
    {
        match scan(&self.buf) {
            Scan::Incomplete => Ok(None),
            Scan::Malformed => Err(FramingError::Malformed),
            Scan::Complete { start, end } => {
                let p = copy_range(&self.buf, start, end);
                let rest = copy_range(&self.buf, end, self.buf.len());
                self.buf = rest;
                Ok(Some(p))
            },
        }
    }

    /// Called at end of stream: an unfinished frame is a truncation.
    pub fn finish(&self) -> (r: Result<(), FramingError>)
        ensures
            r == (if self@.len() == 0 {
                Ok::<(), FramingError>(())
            } else {
                Err(FramingError::Truncated)
            }),
    {
        if self.buf.len() == 0 {
            Ok(())
        } else {
            Err(FramingError::Truncated)
        }
    }
}

} // verus!
