//! Wire codec: serializer and incremental parser of protocol values.
//!
//! The wire form of each variant is
//! `+text\r\n`, `-text\r\n`, `:decimal\r\n`,
//! `$len\r\n payload \r\n` (or `$-1\r\n` for the null bulk string), and
//! `*count\r\n` followed by `count` encoded elements.
//! [`spec_encode`] is the single definition of that form; the serializer
//! produces exactly it and the parser's contract is stated against
//! [`spec_parse`], its inverse.

use vstd::prelude::*;

use crate::decimal::{all_digits, dec_value, is_digit, lemma_dec_digits_len_u64, lemma_dec_digits_value, push_dec_u64, spec_dec_digits, spec_parse_u64};
use crate::value::{depth_of, depth_of_seq, RespData, RespValue};

verus! {

/// Carriage return, the first byte of a line terminator.
pub const CR: u8 = 13;

/// Line feed, the last byte of a line terminator.
pub const LF: u8 = 10;

/// The two-byte line terminator.
pub open spec fn crlf() -> Seq<u8> {
    seq![CR, LF]
}

/// Decimal text of a signed 64-bit integer: a minus sign and the digits of
/// the magnitude.
pub open spec fn spec_dec_i64(i: i64) -> Seq<u8> {
    if i < 0 {
        seq![45u8] + spec_dec_digits((-(i as int)) as nat)
    } else {
        spec_dec_digits(i as nat)
    }
}

/// The exact byte string a value is sent as.
pub open spec fn spec_encode(d: RespData) -> Seq<u8>
    decreases d,
{
    match d {
        RespData::SimpleString(s) => seq![43u8] + s + crlf(),
        RespData::Error(s) => seq![45u8] + s + crlf(),
        RespData::Integer(i) => seq![58u8] + spec_dec_i64(i) + crlf(),
        RespData::BulkString(s) => match s {
            None => seq![36u8, 45u8, 49u8] + crlf(),
            Some(b) => seq![36u8] + spec_dec_digits(b.len()) + crlf() + b + crlf(),
        },
        RespData::Array(elems) => seq![42u8] + spec_dec_digits(elems.len()) + crlf()
            + spec_encode_seq(elems),
    }
}

/// The encodings of a run of values, one after the other.
pub open spec fn spec_encode_seq(elems: Seq<RespData>) -> Seq<u8>
    decreases elems,
{
    if elems.len() == 0 {
        Seq::empty()
    } else {
        spec_encode(elems[0]) + spec_encode_seq(elems.drop_first())
    }
}

/// Encoding a run of values and then one more appends that one's encoding.
pub proof fn lemma_encode_seq_push(elems: Seq<RespData>, x: RespData)
    ensures
        spec_encode_seq(elems.push(x)) == spec_encode_seq(elems) + spec_encode(x),
    decreases elems.len(),
{
    if elems.len() == 0 {
        assert(elems.push(x)[0] == x);
        assert(elems.push(x).drop_first() =~= Seq::<RespData>::empty());
        assert(spec_encode_seq(Seq::<RespData>::empty()) =~= Seq::<u8>::empty());
        assert(spec_encode_seq(elems.push(x)) =~= spec_encode(x) + Seq::<u8>::empty());
        assert(spec_encode(x) + Seq::<u8>::empty() =~= spec_encode(x));
        assert(spec_encode_seq(elems) + spec_encode(x) =~= spec_encode(x));
    } else {
        lemma_encode_seq_push(elems.drop_first(), x);
        assert(elems.push(x).drop_first() =~= elems.drop_first().push(x));
        assert(elems.push(x)[0] == elems[0]);
        assert(spec_encode_seq(elems.push(x)) == spec_encode(elems[0]) + (spec_encode_seq(
            elems.drop_first(),
        ) + spec_encode(x)));
        assert(spec_encode(elems[0]) + (spec_encode_seq(elems.drop_first()) + spec_encode(x))
            =~= (spec_encode(elems[0]) + spec_encode_seq(elems.drop_first())) + spec_encode(x));
    }
}

/// Worst-case encoded size of a value, the serializer's capacity
/// estimate: payload length plus a per-variant allowance that covers the
/// marker, the longest possible decimal field (twenty digits, plus a
/// sign for integers) and both terminators.
/// [`lemma_expected_len_bounds_encode`] proves it an upper bound on the
/// encoding, so a buffer of this capacity never reallocates.
pub open spec fn spec_expected_len(d: RespData) -> int
    decreases d,
{
    match d {
        RespData::SimpleString(s) => s.len() as int + 3,
        RespData::Error(s) => s.len() as int + 3,
        RespData::Integer(_) => 32,
        RespData::BulkString(s) => match s {
            None => 16,
            Some(b) => b.len() as int + 25,
        },
        RespData::Array(elems) => 23 + spec_expected_len_seq(elems),
    }
}

/// Summed capacity estimate of a run of values.
pub open spec fn spec_expected_len_seq(elems: Seq<RespData>) -> int
    decreases elems,
{
    if elems.len() == 0 {
        0
    } else {
        spec_expected_len(elems[0]) + spec_expected_len_seq(elems.drop_first())
    }
}

/// `x` clamped from above to what fits in a `usize`.
pub open spec fn clamp_usize(x: int) -> int {
    if x > usize::MAX {
        usize::MAX as int
    } else {
        x
    }
}

/// Adds with saturation at `usize::MAX`.
fn sat_add(a: usize, b: usize) -> (r: usize)
    ensures
        r == clamp_usize(a + b),
{
    if a > usize::MAX - b {
        usize::MAX
    } else {
        a + b
    }
}

/// The capacity estimates of a run grow as the run does.
proof fn lemma_expected_len_seq_push(elems: Seq<RespData>, x: RespData)
    ensures
        spec_expected_len_seq(elems.push(x)) == spec_expected_len_seq(elems)
            + spec_expected_len(x),
    decreases elems.len(),
{
    if elems.len() == 0 {
        assert(elems.push(x)[0] == x);
        assert(elems.push(x).drop_first() =~= Seq::<RespData>::empty());
        assert(spec_expected_len_seq(Seq::<RespData>::empty()) == 0);
    } else {
        lemma_expected_len_seq_push(elems.drop_first(), x);
        assert(elems.push(x).drop_first() =~= elems.drop_first().push(x));
        assert(elems.push(x)[0] == elems[0]);
    }
}

/// Every capacity estimate is positive.
proof fn lemma_expected_len_nonneg(d: RespData)
    ensures
        spec_expected_len(d) >= 3,
    decreases d,
{
    if let RespData::Array(elems) = d {
        lemma_expected_len_seq_nonneg(elems);
    }
}

/// Summed capacity estimates are not negative.
proof fn lemma_expected_len_seq_nonneg(elems: Seq<RespData>)
    ensures
        spec_expected_len_seq(elems) >= 0,
    decreases elems,
{
    if elems.len() > 0 {
        lemma_expected_len_nonneg(elems[0]);
        lemma_expected_len_seq_nonneg(elems.drop_first());
    }
}

/// The capacity estimate bounds the encoded size from above, for any
/// value that executable code can hold: the sizes of its vectors fit a
/// `usize`, so every decimal field stays within twenty digits.
pub proof fn lemma_expected_len_bounds_encode(v: RespValue)
    ensures
        spec_encode(v@).len() <= spec_expected_len(v@),
    decreases v,
{
    match v {
        RespValue::SimpleString(s) => {},
        RespValue::Error(s) => {},
        RespValue::Integer(i) => {
            if i >= 0 {
                lemma_dec_digits_len_u64(i as nat);
            } else {
                lemma_dec_digits_len_u64((-(i as int)) as nat);
            }
        },
        RespValue::BulkString(s) => match s {
            None => {},
            Some(b) => {
                assert(b.len() == b@.len());
                lemma_dec_digits_len_u64(b@.len());
            },
        },
        RespValue::Array(elems) => {
            assert(elems.len() == elems@.len());
            lemma_dec_digits_len_u64(elems@.len());
            crate::value::lemma_array_view(v);
            lemma_expected_len_bounds_encode_seq(elems@);
        },
    }
}

/// The summed capacity estimate of a run bounds the run's encoded size.
pub proof fn lemma_expected_len_bounds_encode_seq(elems: Seq<RespValue>)
    ensures
        spec_encode_seq(crate::value::seq_views(elems)).len() <= spec_expected_len_seq(
            crate::value::seq_views(elems),
        ),
    decreases elems,
{
    let sv = crate::value::seq_views(elems);
    if elems.len() == 0 {
        assert(sv.len() == 0);
    } else {
        lemma_expected_len_bounds_encode(elems[0]);
        lemma_expected_len_bounds_encode_seq(elems.drop_first());
        assert(sv[0] == elems[0]@);
        assert(sv.drop_first() =~= crate::value::seq_views(elems.drop_first()));
    }
}

impl RespValue {
    /// Capacity estimate of this value's encoding, saturating at what a
    /// `usize` can hold.
    fn get_expected_len(&self) -> (r: usize)
        ensures
            r == clamp_usize(spec_expected_len(self@)),
            spec_encode(self@).len() <= spec_expected_len(self@),
        decreases self,
    {
        proof {
            lemma_expected_len_bounds_encode(*self);
        }
        match self {
            RespValue::SimpleString(s) => sat_add(s.len(), 3),
            RespValue::Error(s) => sat_add(s.len(), 3),
            RespValue::Integer(_) => 32,
            RespValue::BulkString(s) => match s {
                None => 16,
                Some(b) => sat_add(b.len(), 25),
            },
            RespValue::Array(elems) => {
                proof {
                    crate::value::lemma_array_view(*self);
                }
                let ghost dv = crate::value::seq_views(elems@);
                let mut acc: usize = 23;
                let mut i: usize = 0;
                proof {
                    assert(dv.take(0) =~= Seq::<RespData>::empty());
                }
                while i < elems.len()
                    invariant
                        0 <= i <= elems.len(),
                        dv == crate::value::seq_views(elems@),
                        *self matches RespValue::Array(e0) && e0 == *elems,
                        acc == clamp_usize(23 + spec_expected_len_seq(dv.take(i as int))),
                    decreases elems.len() - i,
                {
                    proof {
                        assert(dv[i as int] == elems@[i as int]@);
                        assert(decreases_to!(*elems => (*elems)@));
                        assert(decreases_to!((*elems)@ => (*elems)@[i as int]));
                        assert(decreases_to!(*self => (*elems)@[i as int]));
                    }
                    let e = elems[i].get_expected_len();
                    proof {
                        lemma_expected_len_seq_push(dv.take(i as int), dv[i as int]);
                        assert(dv.take(i as int + 1) =~= dv.take(i as int).push(dv[i as int]));
                        lemma_expected_len_nonneg(dv[i as int]);
                        lemma_expected_len_seq_nonneg(dv.take(i as int));
                    }
                    acc = sat_add(acc, e);
                    i = i + 1;
                }
                proof {
                    assert(dv.take(dv.len() as int) =~= dv);
                    crate::value::lemma_array_view(*self);
                }
                acc
            },
        }
    }

    /// Appends `+text\r\n` to `out`.
    fn write_simple_string(s: &Vec<u8>, out: &mut Vec<u8>)
        ensures
            final(out)@ == old(out)@ + spec_encode(RespData::SimpleString(s@)),
    {
        out.push(43);
        crate::bytes::push_all(out, s);
        out.push(CR);
        out.push(LF);
        assert(out@ =~= old(out)@ + spec_encode(RespData::SimpleString(s@)));
    }

    /// Appends `-text\r\n` to `out`.
    fn write_error(s: &Vec<u8>, out: &mut Vec<u8>)
        ensures
            final(out)@ == old(out)@ + spec_encode(RespData::Error(s@)),
    {
        out.push(45);
        crate::bytes::push_all(out, s);
        out.push(CR);
        out.push(LF);
        assert(out@ =~= old(out)@ + spec_encode(RespData::Error(s@)));
    }

    /// Appends `:decimal\r\n` to `out`.
    fn write_integer(iv: i64, out: &mut Vec<u8>)
        ensures
            final(out)@ == old(out)@ + spec_encode(RespData::Integer(iv)),
    {
        out.push(58);
        if iv < 0 {
            out.push(45);
            let m: u64 = if iv == i64::MIN {
                9223372036854775808u64
            } else {
                (-iv) as u64
            };
            assert(m == -(iv as int));
            push_dec_u64(out, m);
        } else {
            push_dec_u64(out, iv as u64);
        }
        out.push(CR);
        out.push(LF);
        assert(out@ =~= old(out)@ + spec_encode(RespData::Integer(iv)));
    }

    /// Appends `$len\r\n payload \r\n`, or `$-1\r\n` for the null bulk
    /// string, to `out`.
    fn write_bulk_string(s: &Option<Vec<u8>>, out: &mut Vec<u8>)
        ensures
            s matches Some(b) ==> final(out)@ == old(out)@ + spec_encode(
                RespData::BulkString(Some(b@)),
            ),
            s is None ==> final(out)@ == old(out)@ + spec_encode(RespData::BulkString(None)),
    {
        match s {
            Some(b) => {
                out.push(36);
                push_dec_u64(out, b.len() as u64);
                out.push(CR);
                out.push(LF);
                crate::bytes::push_all(out, b);
                out.push(CR);
                out.push(LF);
                assert(out@ =~= old(out)@ + spec_encode(RespData::BulkString(Some(b@))));
            },
            None => {
                out.push(36);
                out.push(45);
                out.push(49);
                out.push(CR);
                out.push(LF);
                assert(out@ =~= old(out)@ + spec_encode(RespData::BulkString(None)));
            },
        }
    }

    /// Appends `*count\r\n` and then each element's wire form to `out`.
    fn write_array(elems: &Vec<RespValue>, out: &mut Vec<u8>)
        ensures
            final(out)@ == old(out)@ + seq![42u8] + spec_dec_digits(elems@.len())
                + crlf() + spec_encode_seq(crate::value::seq_views(elems@)),
        decreases elems,
    {
        let ghost dv = crate::value::seq_views(elems@);
        let ghost start = out@;
        out.push(42);
        push_dec_u64(out, elems.len() as u64);
        out.push(CR);
        out.push(LF);
        let ghost header_done = out@;
        let mut i: usize = 0;
        proof {
            assert(header_done =~= start + seq![42u8] + spec_dec_digits(elems@.len()) + crlf());
            assert(dv.take(0) =~= Seq::<RespData>::empty());
            assert(out@ =~= header_done + spec_encode_seq(dv.take(0)));
        }
        while i < elems.len()
            invariant
                0 <= i <= elems.len(),
                dv == crate::value::seq_views(elems@),
                header_done == start + seq![42u8] + spec_dec_digits(elems@.len()) + crlf(),
                start == old(out)@,
                out@ == header_done + spec_encode_seq(dv.take(i as int)),
            decreases elems.len() - i,
        {
            proof {
                assert(dv[i as int] == elems@[i as int]@);
                assert(decreases_to!((*elems)@ => (*elems)@[i as int]));
                assert(decreases_to!(*elems => (*elems)@[i as int]));
            }
            elems[i].write_dispatch(out);
            proof {
                lemma_encode_seq_push(dv.take(i as int), dv[i as int]);
                assert(dv.take(i as int + 1) =~= dv.take(i as int).push(dv[i as int]));
                assert(out@ =~= header_done + spec_encode_seq(dv.take(i as int + 1)));
            }
            i = i + 1;
        }
        proof {
            assert(dv.take(dv.len() as int) =~= dv);
        }
    }

    /// Appends this value's exact wire form to `out`.
    fn write_dispatch(&self, out: &mut Vec<u8>)
        ensures
            final(out)@ == old(out)@ + spec_encode(self@),
        decreases self,
    {
        match self {
            RespValue::SimpleString(s) => Self::write_simple_string(s, out),
            RespValue::Error(s) => Self::write_error(s, out),
            RespValue::Integer(i) => Self::write_integer(*i, out),
            RespValue::BulkString(s) => Self::write_bulk_string(s, out),
            RespValue::Array(elems) => {
                proof {
                    crate::value::lemma_array_view(*self);
                    assert(decreases_to!(*self => *elems));
                }
                Self::write_array(elems, out);
            },
        }
    }

    /// Serializes this value into a fresh buffer sized by the capacity
    /// estimate, so a single top-level call does not reallocate.
    pub fn write(&self) -> (out: Vec<u8>)
        ensures
            out@ == spec_encode(self@),
    {
        let cap = self.get_expected_len();
        let mut out: Vec<u8> = Vec::with_capacity(cap);
        self.write_dispatch(&mut out);
        assert(out@ =~= spec_encode(self@));
        out
    }
}

/// A failure of the wire codec.  Any of these ends the connection: after a
/// malformed or truncated value the stream is desynchronized and cannot be
/// re-entered mid-parse.
#[derive(Debug, Clone, Copy, PartialEq, Eq, Structural)]
pub enum ParseError {
    /// The buffer ends before one whole value does; the caller should read
    /// more bytes and parse again (or close, if the peer is done sending).
    Incomplete,
    /// A header line is shorter than three bytes or lacks its `\r\n`.
    InvalidLine,
    /// A value starts with a byte that names no variant.
    InvalidChar(u8),
    /// A numeric field is empty, holds a non-digit, or overflows 64 bits.
    InvalidInteger,
    /// Arrays nest deeper than [`MAX_DEPTH`].
    NestingTooDeep,
    /// A request's first element is missing or is not a bulk string.
    InvalidCommand,
    /// A request is not an array at the top level.
    InvalidRequest,
}

/// How deep arrays may nest.  The parser works through recursion, so
/// unbounded nesting in adversarial input would exhaust the stack; past
/// this bound it fails with [`ParseError::NestingTooDeep`] instead.
pub const MAX_DEPTH: u64 = 64;

/// The signed 64-bit integer whose two's-complement bits are `v`; integer
/// fields travel unsigned on the wire, so values past `i64::MAX` reappear
/// negative.
pub open spec fn wrap_u64_to_i64(v: u64) -> i64 {
    v as i64
}

/// Position of the first line feed in `s`, if any.
pub open spec fn find_lf(s: Seq<u8>) -> Option<int>
    decreases s.len(),
{
    if s.len() == 0 {
        None
    } else if s[0] == LF {
        Some(0)
    } else {
        match find_lf(s.drop_first()) {
            Some(i) => Some(i + 1),
            None => None,
        }
    }
}

/// `find_lf` returns the first line feed: the witness found by a scan.
pub proof fn lemma_find_lf_at(s: Seq<u8>, i: int)
    requires
        0 <= i < s.len(),
        s[i] == LF,
        forall|j: int| 0 <= j < i ==> s[j] != LF,
    ensures
        find_lf(s) == Some(i),
    decreases i,
{
    if i > 0 {
        assert(s[0] != LF);
        let t = s.drop_first();
        assert(t[i - 1] == s[i]);
        assert forall|j: int| 0 <= j < i - 1 implies t[j] != LF by {
            assert(t[j] == s[j + 1]);
        }
        lemma_find_lf_at(t, i - 1);
    }
}

/// A scan that saw no line feed means `find_lf` finds none.
pub proof fn lemma_find_lf_none(s: Seq<u8>)
    requires
        forall|j: int| 0 <= j < s.len() ==> s[j] != LF,
    ensures
        find_lf(s) is None,
    decreases s.len(),
{
    if s.len() > 0 {
        let t = s.drop_first();
        assert forall|j: int| 0 <= j < t.len() implies t[j] != LF by {
            assert(t[j] == s[j + 1]);
        }
        lemma_find_lf_none(t);
    }
}

/// What parsing one value from the front of `s` yields, with `depth`
/// levels of array nesting still allowed: the value's model and how many
/// bytes it occupied, or the exact failure.
///
/// One header line is read up to its line feed and must close with
/// `\r\n`; its first byte selects the variant.  Numeric fields are plain
/// digit runs (the sole exception is the null bulk string's `-1`), so a
/// stray sign or space is a failure rather than silently accepted.  A
/// zero-length bulk string consumes nothing beyond its header line, per
/// the wire contract; see [`encodable`] for what that means for round
/// trips.
pub open spec fn spec_parse(s: Seq<u8>, depth: nat) -> Result<(RespData, int), ParseError>
    decreases depth, 0nat,
{
    match find_lf(s) {
        None => Err(ParseError::Incomplete),
        Some(ix) => {
            let n = ix + 1;
            if n < 3 || s[n - 2] != CR {
                Err(ParseError::InvalidLine)
            } else {
                let content = s.subrange(1, n - 2);
                let b = s[0];
                if b == 43 {
                    Ok((RespData::SimpleString(content), n))
                } else if b == 45 {
                    Ok((RespData::Error(content), n))
                } else if b == 58 {
                    match spec_parse_u64(content) {
                        Some(v) => Ok((RespData::Integer(wrap_u64_to_i64(v)), n)),
                        None => Err(ParseError::InvalidInteger),
                    }
                } else if b == 36 {
                    if content == seq![45u8, 49u8] {
                        Ok((RespData::BulkString(None), n))
                    } else {
                        match spec_parse_u64(content) {
                            None => Err(ParseError::InvalidInteger),
                            Some(cnt) => {
                                if cnt == 0 {
                                    Ok((RespData::BulkString(Some(Seq::empty())), n))
                                } else if s.len() < n + cnt + 2 {
                                    Err(ParseError::Incomplete)
                                } else if s[n + cnt] != CR || s[n + cnt + 1] != LF {
                                    Err(ParseError::InvalidLine)
                                } else {
                                    Ok(
                                        (
                                            RespData::BulkString(Some(s.subrange(n, n + cnt))),
                                            n + cnt + 2,
                                        ),
                                    )
                                }
                            },
                        }
                    }
                } else if b == 42 {
                    match spec_parse_u64(content) {
                        None => Err(ParseError::InvalidInteger),
                        Some(cnt) => {
                            if depth == 0 {
                                Err(ParseError::NestingTooDeep)
                            } else {
                                match spec_parse_elems(
                                    s.skip(n),
                                    cnt as nat,
                                    (depth - 1) as nat,
                                ) {
                                    Ok((elems, m)) => Ok((RespData::Array(elems), n + m)),
                                    Err(e) => Err(e),
                                }
                            }
                        },
                    }
                } else {
                    Err(ParseError::InvalidChar(b))
                }
            }
        },
    }
}

/// What parsing `n` values one after the other from the front of `s`
/// yields: their models and the total bytes occupied, or the first
/// failure.
pub open spec fn spec_parse_elems(s: Seq<u8>, n: nat, depth: nat) -> Result<
    (Seq<RespData>, int),
    ParseError,
>
    decreases depth, n + 1,
{
    if n == 0 {
        Ok((Seq::empty(), 0))
    } else {
        match spec_parse(s, depth) {
            Err(e) => Err(e),
            Ok((v, c)) => match spec_parse_elems(s.skip(c), (n - 1) as nat, depth) {
                Err(e) => Err(e),
                Ok((vs, m)) => Ok((seq![v] + vs, c + m)),
            },
        }
    }
}

/// `find_lf`'s answer is a position in `s` holding a line feed.
pub proof fn lemma_find_lf_props(s: Seq<u8>)
    ensures
        match find_lf(s) {
            Some(i) => 0 <= i < s.len() && s[i] == LF,
            None => true,
        },
    decreases s.len(),
{
    if s.len() > 0 && s[0] != LF {
        lemma_find_lf_props(s.drop_first());
        if let Some(i) = find_lf(s.drop_first()) {
            assert(s.drop_first()[i] == s[i + 1]);
        }
    }
}

/// A parsed value occupies at least one line and never more bytes than
/// the buffer holds.
pub proof fn lemma_parse_bounds(s: Seq<u8>, depth: nat)
    ensures
        spec_parse(s, depth) matches Ok((v, c)) ==> 3 <= c <= s.len(),
    decreases depth, 0nat,
{
    lemma_find_lf_props(s);
    if let Some(ix) = find_lf(s) {
        let n = ix + 1;
        if n >= 3 && s[n - 2] == CR {
            let content = s.subrange(1, n - 2);
            if s[0] == 42 {
                if let Some(cnt) = spec_parse_u64(content) {
                    if depth > 0 {
                        lemma_parse_elems_bounds(s.skip(n), cnt as nat, (depth - 1) as nat);
                    }
                }
            }
        }
    }
}

/// A parsed run of `n` values is `n` long and never occupies more bytes
/// than the buffer holds.
pub proof fn lemma_parse_elems_bounds(s: Seq<u8>, n: nat, depth: nat)
    ensures
        spec_parse_elems(s, n, depth) matches Ok((vs, m)) ==> 0 <= m <= s.len() && vs.len() == n,
    decreases depth, n + 1,
{
    if n > 0 {
        lemma_parse_bounds(s, depth);
        if let Ok((v, c)) = spec_parse(s, depth) {
            lemma_parse_elems_bounds(s.skip(c), (n - 1) as nat, depth);
        }
    }
}

/// Parsing `n` values splits into parsing the first `k` and then the rest
/// from where they stopped.
pub proof fn lemma_parse_elems_split(s: Seq<u8>, k: nat, n: nat, depth: nat)
    requires
        k <= n,
    ensures
        spec_parse_elems(s, n, depth) == (match spec_parse_elems(s, k, depth) {
            Err(e) => Err::<(Seq<RespData>, int), ParseError>(e),
            Ok((vs1, c1)) => match spec_parse_elems(s.skip(c1), (n - k) as nat, depth) {
                Err(e) => Err(e),
                Ok((vs2, c2)) => Ok((vs1 + vs2, c1 + c2)),
            },
        }),
    decreases k,
{
    if k == 0 {
        assert(spec_parse_elems(s, 0, depth) == Ok::<(Seq<RespData>, int), ParseError>((
            Seq::empty(),
            0,
        )));
        assert(s.skip(0) =~= s);
        if let Ok((vs2, c2)) = spec_parse_elems(s, (n - 0) as nat, depth) {
            assert(Seq::<RespData>::empty() + vs2 =~= vs2);
        }
    } else {
        match spec_parse(s, depth) {
            Err(e) => {},
            Ok((v, c)) => {
                lemma_parse_bounds(s, depth);
                lemma_parse_elems_bounds(s.skip(c), (k - 1) as nat, depth);
                lemma_parse_elems_split(s.skip(c), (k - 1) as nat, (n - 1) as nat, depth);
                match spec_parse_elems(s.skip(c), (k - 1) as nat, depth) {
                    Err(e) => {},
                    Ok((vs1, c1)) => {
                        assert(s.skip(c).skip(c1) =~= s.skip(c + c1));
                        match spec_parse_elems(s.skip(c + c1), (n - k) as nat, depth) {
                            Err(e) => {},
                            Ok((vs2, c2)) => {
                                assert(seq![v] + (vs1 + vs2) =~= (seq![v] + vs1) + vs2);
                            },
                        }
                    },
                }
            },
        }
    }
}

/// Finds the first line feed in `v` at or after `from`.
fn scan_lf(v: &Vec<u8>, from: usize) -> (r: Option<usize>)
    requires
        from <= v@.len(),
    ensures
        match r {
            Some(i) => from <= i < v@.len() && v@[i as int] == LF && forall|j: int|
                from <= j < i ==> v@[j] != LF,
            None => forall|j: int| from <= j < v@.len() ==> v@[j] != LF,
        },
{
    let len = v.len();
    let mut i = from;
    while i < len
        invariant
            from <= i <= len == v@.len(),
            forall|j: int| from <= j < i ==> v@[j] != LF,
        decreases len - i,
    {
        if v[i] == LF {
            return Some(i);
        }
        i = i + 1;
    }
    None
}

/// One parsed request: the command name and its arguments, pulled out of a
/// top-level array whose first element names the command.
#[derive(Debug, PartialEq, Eq)]
pub struct RespRequest {
    /// The command name, as it arrived on the wire.
    pub command: Vec<u8>,
    /// The remaining elements of the request array, in their original
    /// order.
    pub args: Vec<RespValue>,
}

/// Ghost model of a request.
pub struct RespRequestData {
    /// The command name bytes.
    pub command: Seq<u8>,
    /// The argument values.
    pub args: Seq<RespData>,
}

impl View for RespRequest {
    type V = RespRequestData;

    open spec fn view(&self) -> RespRequestData {
        RespRequestData { command: self.command@, args: crate::value::seq_views(self.args@) }
    }
}

/// What extracting a request from a parsed value yields: the top-level
/// value must be an array whose first element is a non-null bulk string,
/// the command name; the rest become the arguments.
pub open spec fn spec_extract_request(v: RespData) -> Result<RespRequestData, ParseError> {
    match v {
        RespData::Array(elems) => {
            if elems.len() == 0 {
                Err(ParseError::InvalidCommand)
            } else {
                match elems[0] {
                    RespData::BulkString(cmd) => match cmd {
                        Some(name) => Ok(
                            RespRequestData { command: name, args: elems.drop_first() },
                        ),
                        None => Err(ParseError::InvalidCommand),
                    },
                    _ => Err(ParseError::InvalidCommand),
                }
            }
        },
        _ => Err(ParseError::InvalidRequest),
    }
}

/// Incremental parser over a byte buffer.
///
/// The connection layer accumulates bytes from its transport and hands
/// them here; [`RespParser::parse`] consumes exactly one value from the
/// front.  On [`ParseError::Incomplete`] the caller reads more bytes,
/// rebuilds a parser over the grown buffer, and tries again; an empty
/// buffer whose transport has closed is a clean end of the connection.
/// Any other failure desynchronizes the stream, and the caller must close.
pub struct RespParser {
    input: Vec<u8>,
    pos: usize,
}

impl RespParser {
    /// The bytes not yet consumed.
    pub closed spec fn remaining(&self) -> Seq<u8> {
        self.input@.skip(self.pos as int)
    }

    /// How many bytes have been consumed.
    pub closed spec fn spec_pos(&self) -> int {
        self.pos as int
    }

    /// The whole buffer the parser was built over.
    pub closed spec fn spec_input(&self) -> Seq<u8> {
        self.input@
    }

    /// The consumed prefix never runs past the buffer.
    pub closed spec fn wf(&self) -> bool {
        self.pos <= self.input@.len()
    }

    /// Makes a parser over `input` with nothing consumed yet.
    pub fn new(input: Vec<u8>) -> (r: RespParser)
        ensures
            r.wf(),
            r.spec_pos() == 0,
            r.spec_input() == input@,
            r.remaining() == input@,
    {
        let r = RespParser { input, pos: 0 };
        proof {
            assert(r.remaining() =~= r.input@);
        }
        r
    }

    /// How many bytes of the buffer have been consumed so far.
    pub fn position(&self) -> (r: usize)
        ensures
            r as int == self.spec_pos(),
    {
        self.pos
    }

    /// Consumes exactly one value from the front of the buffer, with
    /// `depth` levels of array nesting still allowed.
    #[verifier::rlimit(60)]
    fn parse_value(&mut self, depth: u64) -> (r: Result<RespValue, ParseError>)
        requires
            old(self).wf(),
        ensures
            final(self).wf(),
            final(self).spec_input() == old(self).spec_input(),
            old(self).spec_pos() <= final(self).spec_pos(),
            final(self).remaining() == old(self).remaining().skip(
                final(self).spec_pos() - old(self).spec_pos(),
            ),
            match r {
                Ok(v) => spec_parse(old(self).remaining(), depth as nat) == Ok::<
                    (RespData, int),
                    ParseError,
                >((v@, final(self).spec_pos() - old(self).spec_pos())),
                Err(e) => spec_parse(old(self).remaining(), depth as nat) == Err::<
                    (RespData, int),
                    ParseError,
                >(e),
            },
        decreases depth, 0nat,
    {
        let ghost s0 = self.remaining();
        let ghost p0 = self.pos as int;
        let len = self.input.len();
        let i = match scan_lf(&self.input, self.pos) {
            None => {
                proof {
                    assert forall|j: int| 0 <= j < s0.len() implies s0[j] != LF by {
                        assert(s0[j] == self.input@[p0 + j]);
                    }
                    lemma_find_lf_none(s0);
                    assert(self.remaining() =~= s0.skip(0));
                }
                return Err(ParseError::Incomplete);
            },
            Some(i) => i,
        };
        proof {
            assert(s0[i - p0] == self.input@[i as int]);
            assert forall|j: int| 0 <= j < i - p0 implies s0[j] != LF by {
                assert(s0[j] == self.input@[p0 + j]);
            }
            lemma_find_lf_at(s0, i - p0);
        }
        let ghost n = i + 1 - p0;
        let line_len = i + 1 - self.pos;
        if line_len < 3 {
            proof {
                assert(self.remaining() =~= s0.skip(0));
            }
            return Err(ParseError::InvalidLine);
        }
        if self.input[i - 1] != CR {
            proof {
                assert(s0[n - 2] == self.input@[i - 1]);
                assert(self.remaining() =~= s0.skip(0));
            }
            return Err(ParseError::InvalidLine);
        }
        proof {
            assert(s0[n - 2] == self.input@[i - 1]);
        }
        let b = self.input[self.pos];
        proof {
            assert(b == s0[0]);
        }
        let ghost content = s0.subrange(1, n - 2);
        if b == 43 {
            let body = vstd::slice::slice_to_vec(
                vstd::slice::slice_subrange(self.input.as_slice(), self.pos + 1, i - 1),
            );
            proof {
                assert(body@ =~= content);
            }
            self.pos = i + 1;
            proof {
                assert(self.remaining() =~= s0.skip(n));
            }
            Ok(RespValue::SimpleString(body))
        } else if b == 45 {
            let body = vstd::slice::slice_to_vec(
                vstd::slice::slice_subrange(self.input.as_slice(), self.pos + 1, i - 1),
            );
            proof {
                assert(body@ =~= content);
            }
            self.pos = i + 1;
            proof {
                assert(self.remaining() =~= s0.skip(n));
            }
            Ok(RespValue::Error(body))
        } else if b == 58 {
            let digits = vstd::slice::slice_subrange(self.input.as_slice(), self.pos + 1, i - 1);
            proof {
                assert(digits@ =~= content);
            }
            match crate::decimal::parse_u64_bytes(digits) {
                None => {
                    proof {
                        assert(self.remaining() =~= s0.skip(0));
                    }
                    Err(ParseError::InvalidInteger)
                },
                Some(v) => {
                    let iv: i64 = #[verifier::truncate] (v as i64);
                    self.pos = i + 1;
                    proof {
                        assert(self.remaining() =~= s0.skip(n));
                    }
                    Ok(RespValue::Integer(iv))
                },
            }
        } else if b == 36 {
            if line_len == 5 && self.input[self.pos + 1] == 45 && self.input[self.pos + 2] == 49 {
                proof {
                    assert(content =~= seq![45u8, 49u8]);
                }
                self.pos = i + 1;
                proof {
                    assert(self.remaining() =~= s0.skip(n));
                }
                return Ok(RespValue::BulkString(None));
            }
            proof {
                assert(content != seq![45u8, 49u8]) by {
                    if content == seq![45u8, 49u8] {
                        assert(content.len() == 2);
                        assert(content[0] == self.input@[p0 + 1]);
                        assert(content[1] == self.input@[p0 + 2]);
                    }
                }
            }
            let digits = vstd::slice::slice_subrange(self.input.as_slice(), self.pos + 1, i - 1);
            proof {
                assert(digits@ =~= content);
            }
            match crate::decimal::parse_u64_bytes(digits) {
                None => {
                    proof {
                        assert(self.remaining() =~= s0.skip(0));
                    }
                    Err(ParseError::InvalidInteger)
                },
                Some(cnt) => {
                    if cnt == 0 {
                        self.pos = i + 1;
                        let empty_body: Vec<u8> = Vec::new();
                        proof {
                            assert(self.remaining() =~= s0.skip(n));
                            assert(empty_body@ =~= Seq::<u8>::empty());
                        }
                        return Ok(RespValue::BulkString(Some(empty_body)));
                    }
                    let rem_after = len - (i + 1);
                    if rem_after < 2 || cnt > (rem_after as u64) - 2 {
                        proof {
                            assert(s0.len() == len - p0);
                            assert(s0.len() < n + cnt + 2);
                            assert(self.remaining() =~= s0.skip(0));
                        }
                        return Err(ParseError::Incomplete);
                    }
                    assert(cnt + 2 <= rem_after);
                    let cnt_us = cnt as usize;
                    let pay_start = i + 1;
                    let pay_end = pay_start + cnt_us;
                    proof {
                        assert(s0[n + cnt] == self.input@[pay_end as int]);
                        assert(s0[n + cnt + 1] == self.input@[pay_end + 1]);
                    }
                    if self.input[pay_end] != CR {
                        proof {
                            assert(self.remaining() =~= s0.skip(0));
                        }
                        return Err(ParseError::InvalidLine);
                    }
                    if self.input[pay_end + 1] != LF {
                        proof {
                            assert(self.remaining() =~= s0.skip(0));
                        }
                        return Err(ParseError::InvalidLine);
                    }
                    let payload = vstd::slice::slice_to_vec(
                        vstd::slice::slice_subrange(self.input.as_slice(), pay_start, pay_end),
                    );
                    proof {
                        assert(payload@ =~= s0.subrange(n, n + cnt));
                    }
                    self.pos = pay_end + 2;
                    proof {
                        assert(self.remaining() =~= s0.skip(n + cnt + 2));
                    }
                    Ok(RespValue::BulkString(Some(payload)))
                },
            }
        } else if b == 42 {
            let digits = vstd::slice::slice_subrange(self.input.as_slice(), self.pos + 1, i - 1);
            proof {
                assert(digits@ =~= content);
            }
            match crate::decimal::parse_u64_bytes(digits) {
                None => {
                    proof {
                        assert(self.remaining() =~= s0.skip(0));
                    }
                    Err(ParseError::InvalidInteger)
                },
                Some(cnt) => {
                    if depth == 0 {
                        proof {
                            assert(self.remaining() =~= s0.skip(0));
                        }
                        return Err(ParseError::NestingTooDeep);
                    }
                    self.pos = i + 1;
                    proof {
                        assert(self.remaining() =~= s0.skip(n));
                    }
                    match self.parse_elems(cnt, depth - 1) {
                        Err(e) => {
                            proof {
                                assert(self.remaining() =~= s0.skip(
                                    self.spec_pos() - p0,
                                ));
                            }
                            Err(e)
                        },
                        Ok(vs) => {
                            proof {
                                assert(self.remaining() =~= s0.skip(
                                    self.spec_pos() - p0,
                                ));
                            }
                            Ok(RespValue::Array(vs))
                        },
                    }
                },
            }
        } else {
            proof {
                assert(self.remaining() =~= s0.skip(0));
            }
            Err(ParseError::InvalidChar(b))
        }
    }

    /// Consumes `cnt` values one after the other.
    fn parse_elems(&mut self, cnt: u64, depth: u64) -> (r: Result<Vec<RespValue>, ParseError>)
        requires
            old(self).wf(),
        ensures
            final(self).wf(),
            final(self).spec_input() == old(self).spec_input(),
            old(self).spec_pos() <= final(self).spec_pos(),
            final(self).remaining() == old(self).remaining().skip(
                final(self).spec_pos() - old(self).spec_pos(),
            ),
            match r {
                Ok(vs) => spec_parse_elems(old(self).remaining(), cnt as nat, depth as nat)
                    == Ok::<(Seq<RespData>, int), ParseError>((
                    crate::value::seq_views(vs@),
                    final(self).spec_pos() - old(self).spec_pos(),
                )),
                Err(e) => spec_parse_elems(old(self).remaining(), cnt as nat, depth as nat)
                    == Err::<(Seq<RespData>, int), ParseError>(e),
            },
        decreases depth, 1nat,
    {
        let ghost s0 = self.remaining();
        let ghost p0 = self.spec_pos();
        let mut vs: Vec<RespValue> = Vec::new();
        let mut k: u64 = 0;
        proof {
            assert(crate::value::seq_views(vs@) =~= Seq::<RespData>::empty());
            assert(self.remaining() =~= s0.skip(0));
        }
        while k < cnt
            invariant
                self.wf(),
                k <= cnt,
                self.spec_input() == old(self).spec_input(),
                s0 == old(self).remaining(),
                p0 == old(self).spec_pos(),
                p0 <= self.spec_pos(),
                self.remaining() == s0.skip(self.spec_pos() - p0),
                spec_parse_elems(s0, k as nat, depth as nat) == Ok::<
                    (Seq<RespData>, int),
                    ParseError,
                >((crate::value::seq_views(vs@), self.spec_pos() - p0)),
            decreases cnt - k,
        {
            let ghost rem_pre = self.remaining();
            let ghost c1 = self.spec_pos() - p0;
            let ghost old_views = crate::value::seq_views(vs@);
            match self.parse_value(depth) {
                Err(e) => {
                    proof {
                        lemma_parse_elems_split(s0, k as nat, cnt as nat, depth as nat);
                        assert(spec_parse_elems(rem_pre, (cnt - k) as nat, depth as nat)
                            == Err::<(Seq<RespData>, int), ParseError>(e));
                        assert(self.remaining() =~= s0.skip(self.spec_pos() - p0));
                    }
                    return Err(e);
                },
                Ok(v) => {
                    let ghost c = self.spec_pos() - p0 - c1;
                    proof {
                        // one more element: parsing k + 1 values succeeds
                        lemma_parse_elems_split(s0, k as nat, (k + 1) as nat, depth as nat);
                        assert(rem_pre.skip(c) =~= s0.skip(c1 + c));
                        assert(spec_parse_elems(rem_pre.skip(c), 0, depth as nat) == Ok::<
                            (Seq<RespData>, int),
                            ParseError,
                        >((Seq::empty(), 0)));
                        assert(seq![v@] + Seq::<RespData>::empty() =~= seq![v@]);
                        assert(spec_parse_elems(rem_pre, 1, depth as nat) == Ok::<
                            (Seq<RespData>, int),
                            ParseError,
                        >((seq![v@], c)));
                    }
                    vs.push(v);
                    proof {
                        assert(crate::value::seq_views(vs@) =~= old_views + seq![v@]);
                        assert(spec_parse_elems(s0, (k + 1) as nat, depth as nat) == Ok::<
                            (Seq<RespData>, int),
                            ParseError,
                        >((crate::value::seq_views(vs@), self.spec_pos() - p0)));
                    }
                    k = k + 1;
                },
            }
        }
        Ok(vs)
    }

    /// Consumes exactly one value from the front of the buffer, allowing
    /// arrays to nest up to [`MAX_DEPTH`] levels.
    pub fn parse(&mut self) -> (r: Result<RespValue, ParseError>)
        requires
            old(self).wf(),
        ensures
            final(self).wf(),
            final(self).spec_input() == old(self).spec_input(),
            old(self).spec_pos() <= final(self).spec_pos(),
            final(self).remaining() == old(self).remaining().skip(
                final(self).spec_pos() - old(self).spec_pos(),
            ),
            match r {
                Ok(v) => spec_parse(old(self).remaining(), MAX_DEPTH as nat) == Ok::<
                    (RespData, int),
                    ParseError,
                >((v@, final(self).spec_pos() - old(self).spec_pos())),
                Err(e) => spec_parse(old(self).remaining(), MAX_DEPTH as nat) == Err::<
                    (RespData, int),
                    ParseError,
                >(e),
            },
    {
        self.parse_value(MAX_DEPTH)
    }

    /// Consumes one value and requires it to be a well-shaped request: a
    /// top-level array whose first element, a non-null bulk string, names
    /// the command.
    pub fn parse_request(&mut self) -> (r: Result<RespRequest, ParseError>)
        requires
            old(self).wf(),
        ensures
            final(self).wf(),
            final(self).spec_input() == old(self).spec_input(),
            old(self).spec_pos() <= final(self).spec_pos(),
            final(self).remaining() == old(self).remaining().skip(
                final(self).spec_pos() - old(self).spec_pos(),
            ),
            match r {
                Ok(req) => spec_parse(old(self).remaining(), MAX_DEPTH as nat) matches Ok(p)
                    && p.1 == final(self).spec_pos() - old(self).spec_pos()
                    && spec_extract_request(p.0) == Ok::<RespRequestData, ParseError>(req@),
                Err(e) => (spec_parse(old(self).remaining(), MAX_DEPTH as nat) matches Err(pe)
                    && pe == e) || (spec_parse(old(self).remaining(), MAX_DEPTH as nat)
                    matches Ok(p) && spec_extract_request(p.0) == Err::<
                    RespRequestData,
                    ParseError,
                >(e)),
            },
    {
        let v = match self.parse() {
            Ok(v) => v,
            Err(e) => {
                return Err(e);
            },
        };
        match v {
            RespValue::Array(mut elems) => {
                proof {
                    crate::value::lemma_array_view(RespValue::Array(elems));
                }
                if elems.len() == 0 {
                    proof {
                        assert(crate::value::seq_views(elems@).len() == 0);
                    }
                    return Err(ParseError::InvalidCommand);
                }
                let ghost elems0 = elems@;
                let first = elems.remove(0);
                proof {
                    assert(first == elems0[0]);
                    assert(crate::value::seq_views(elems0)[0] == first@);
                }
                match first {
                    RespValue::BulkString(cmd) => match cmd {
                        Some(name) => {
                            proof {
                                assert(crate::value::seq_views(elems@)
                                    =~= crate::value::seq_views(elems0).drop_first());
                            }
                            Ok(RespRequest { command: name, args: elems })
                        },
                        None => Err(ParseError::InvalidCommand),
                    },
                    _ => Err(ParseError::InvalidCommand),
                }
            },
            _ => Err(ParseError::InvalidRequest),
        }
    }
}

/// Whether a value survives the wire unchanged.  Three wire limitations
/// shape this:
/// status and error text must not hold CR or LF (the header line would end
/// early); integer fields travel unsigned, so only non-negative integers
/// read back as themselves; and an empty bulk string is written with a
/// trailing terminator that the parser, per the wire contract, does not
/// consume.  Lengths and counts must fit the wire's 64-bit decimal fields.
pub open spec fn encodable(d: RespData) -> bool
    decreases d,
{
    match d {
        RespData::SimpleString(s) => forall|i: int|
            0 <= i < s.len() ==> #[trigger] s[i] != CR && s[i] != LF,
        RespData::Error(s) => forall|i: int|
            0 <= i < s.len() ==> #[trigger] s[i] != CR && s[i] != LF,
        RespData::Integer(i) => i >= 0,
        RespData::BulkString(s) => match s {
            None => true,
            Some(b) => 1 <= b.len() <= u64::MAX,
        },
        RespData::Array(elems) => elems.len() <= u64::MAX && encodable_seq(elems),
    }
}

/// Whether every value of a run survives the wire unchanged.
pub open spec fn encodable_seq(elems: Seq<RespData>) -> bool
    decreases elems,
{
    elems.len() == 0 || (encodable(elems[0]) && encodable_seq(elems.drop_first()))
}

/// A header line `b mid \r\n` followed by anything parses up to its line
/// feed, whatever follows: the first line feed sits right after the
/// carriage return, and the content between marker and terminator is
/// exactly `mid`.
proof fn lemma_header_line(b: u8, mid: Seq<u8>, tail: Seq<u8>)
    requires
        b != LF,
        forall|i: int| 0 <= i < mid.len() ==> #[trigger] mid[i] != CR && mid[i] != LF,
    ensures
        ({
            let t = seq![b] + mid + crlf() + tail;
            let n = mid.len() + 3;
            &&& find_lf(t) == Some(n - 1)
            &&& t.len() >= n >= 3
            &&& t[0] == b
            &&& t[n - 2] == CR
            &&& t.subrange(1, n - 2) == mid
        }),
{
    let t = seq![b] + mid + crlf() + tail;
    let n = mid.len() + 3;
    assert(t[n - 1] == LF);
    assert forall|j: int| 0 <= j < n - 1 implies t[j] != LF by {
        if j == 0 {
        } else if j <= mid.len() {
            assert(t[j] == mid[j - 1]);
        } else {
            assert(t[j] == CR);
        }
    }
    lemma_find_lf_at(t, n - 1);
    assert(t.subrange(1, n - 2) =~= mid);
}

/// Digit text holds neither CR nor LF.
proof fn lemma_digits_no_crlf(s: Seq<u8>)
    requires
        all_digits(s),
    ensures
        forall|i: int| 0 <= i < s.len() ==> #[trigger] s[i] != CR && s[i] != LF,
{
    assert forall|i: int| 0 <= i < s.len() implies s[i] != CR && s[i] != LF by {
        assert(is_digit(s[i]));
    }
}

/// Round trip: any encodable value, serialized and then parsed back from
/// a stream that may continue with arbitrary further bytes, yields the
/// same value and consumes exactly its own encoding, as long as the
/// parser's depth budget covers the value's nesting.
pub proof fn lemma_round_trip(d: RespData, rest: Seq<u8>, depth: nat)
    requires
        encodable(d),
        depth_of(d) <= depth,
    ensures
        spec_parse(spec_encode(d) + rest, depth) == Ok::<(RespData, int), ParseError>((
            d,
            spec_encode(d).len() as int,
        )),
    decreases d,
{
    let e = spec_encode(d);
    let t = e + rest;
    match d {
        RespData::SimpleString(s) => {
            assert(t =~= seq![43u8] + s + crlf() + rest);
            lemma_header_line(43, s, rest);
            let n = s.len() + 3;
            assert(t.subrange(1, n - 2) == s);
            assert(e.len() == n);
        },
        RespData::Error(s) => {
            assert(t =~= seq![45u8] + s + crlf() + rest);
            lemma_header_line(45, s, rest);
            let n = s.len() + 3;
            assert(e.len() == n);
        },
        RespData::Integer(i) => {
            let digits = spec_dec_digits(i as nat);
            lemma_dec_digits_value(i as nat);
            lemma_digits_no_crlf(digits);
            assert(t =~= seq![58u8] + digits + crlf() + rest);
            lemma_header_line(58, digits, rest);
            let n = digits.len() + 3;
            assert(spec_parse_u64(digits) == Some((i as nat) as u64));
            assert(wrap_u64_to_i64((i as nat) as u64) == i);
            assert(e.len() == n);
        },
        RespData::BulkString(s) => match s {
            None => {
                let mid = seq![45u8, 49u8];
                assert(t =~= seq![36u8] + mid + crlf() + rest);
                assert(forall|i: int| 0 <= i < mid.len() ==> #[trigger] mid[i] != CR
                    && mid[i] != LF);
                lemma_header_line(36, mid, rest);
                let n = mid.len() + 3;
                assert(t.subrange(1, n - 2) == seq![45u8, 49u8]);
                assert(e.len() == n);
            },
            Some(b) => {
                let digits = spec_dec_digits(b.len());
                lemma_dec_digits_value(b.len());
                lemma_digits_no_crlf(digits);
                let tail = b + crlf() + rest;
                assert(t =~= seq![36u8] + digits + crlf() + tail);
                lemma_header_line(36, digits, tail);
                let n = digits.len() + 3;
                let content = t.subrange(1, n - 2);
                assert(content == digits);
                assert(content != seq![45u8, 49u8]) by {
                    if content == seq![45u8, 49u8] {
                        assert(is_digit(digits[0]));
                    }
                }
                assert(spec_parse_u64(digits) == Some(b.len() as u64));
                let cnt = b.len() as int;
                assert(cnt >= 1);
                assert(t.len() == n + cnt + 2 + rest.len());
                assert(t[n + cnt] == tail[cnt]);
                assert(tail[cnt] == crlf()[0]);
                assert(t[n + cnt + 1] == tail[cnt + 1]);
                assert(tail[cnt + 1] == crlf()[1]);
                assert(t.subrange(n as int, n + cnt) =~= b);
                assert(e.len() == n + cnt + 2);
            },
        },
        RespData::Array(elems) => {
            let digits = spec_dec_digits(elems.len());
            lemma_dec_digits_value(elems.len());
            lemma_digits_no_crlf(digits);
            let tail = spec_encode_seq(elems) + rest;
            assert(t =~= seq![42u8] + digits + crlf() + tail);
            lemma_header_line(42, digits, tail);
            let n = digits.len() + 3;
            assert(t.subrange(1, n - 2) == digits);
            assert(spec_parse_u64(digits) == Some(elems.len() as u64));
            assert(depth >= 1);
            assert(t.skip(n as int) =~= tail);
            lemma_round_trip_seq(elems, rest, (depth - 1) as nat);
            assert(spec_parse_elems(tail, elems.len(), (depth - 1) as nat) == Ok::<
                (Seq<RespData>, int),
                ParseError,
            >((elems, spec_encode_seq(elems).len() as int)));
            assert(e.len() == n + spec_encode_seq(elems).len());
        },
    }
}

/// Round trip of a run of values: serialized one after the other and
/// parsed back, they come out unchanged, element by element.
pub proof fn lemma_round_trip_seq(elems: Seq<RespData>, rest: Seq<u8>, depth: nat)
    requires
        encodable_seq(elems),
        elems.len() <= u64::MAX,
        depth_of_seq(elems) <= depth,
    ensures
        spec_parse_elems(spec_encode_seq(elems) + rest, elems.len(), depth) == Ok::<
            (Seq<RespData>, int),
            ParseError,
        >((elems, spec_encode_seq(elems).len() as int)),
    decreases elems,
{
    if elems.len() == 0 {
        assert(spec_encode_seq(elems) =~= Seq::<u8>::empty());
        assert(elems =~= Seq::<RespData>::empty());
    } else {
        let head = elems[0];
        let tail_elems = elems.drop_first();
        let e0 = spec_encode(head);
        let etail = spec_encode_seq(tail_elems);
        let t = spec_encode_seq(elems) + rest;
        assert(t =~= e0 + (etail + rest));
        assert(depth_of(head) <= depth_of_seq(elems));
        assert(depth_of_seq(tail_elems) <= depth_of_seq(elems));
        lemma_round_trip(head, etail + rest, depth);
        assert(spec_parse(t, depth) == Ok::<(RespData, int), ParseError>((
            head,
            e0.len() as int,
        )));
        assert(t.skip(e0.len() as int) =~= etail + rest);
        lemma_round_trip_seq(tail_elems, rest, depth);
        assert(seq![head] + tail_elems =~= elems);
        assert(spec_encode_seq(elems).len() == e0.len() + etail.len());
    }
}

} // verus!
