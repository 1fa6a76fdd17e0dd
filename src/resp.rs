use vstd::prelude::*;
use vstd::slice::{slice_subrange, slice_to_vec};
use vstd::utf8::*;

use crate::codec::text_from_utf8;
use crate::error::{Error, ErrorKind, Result};

verus! {

/// A value of the RESP framing protocol.
#[derive(Debug, PartialEq)]
pub enum Resp {
    /// A bulk string of length -1.
    NullBulk,
    /// An array of length -1.
    NullArray,
    /// A one-line string without CR or LF.
    Simple(String),
    /// An error message.
    Error(String),
    /// A signed integer.
    Integer(i64),
    /// A bulk string, which may hold any bytes.
    Bulk(Vec<u8>),
    /// An array of values.
    Array(Vec<Resp>),
}

/// The ASCII decimal digits of `n`, most significant first.
pub open spec fn digits(n: nat) -> Seq<u8>
    decreases n,
{
    if n < 10 {
        seq![(n + 48) as u8]
    } else {
        digits(n / 10).push(((n % 10) + 48) as u8)
    }
}

/// The decimal text of an integer, with a minus sign when it is negative.
pub open spec fn int_text(i: int) -> Seq<u8> {
    if i < 0 {
        seq![45u8] + digits((-i) as nat)
    } else {
        digits(i as nat)
    }
}

/// Carriage return and line feed.
pub open spec fn crlf() -> Seq<u8> {
    seq![13u8, 10u8]
}

/// The encoding of a value.
pub open spec fn resp_bytes(r: Resp) -> Seq<u8>
    decreases r,
{
    match r {
        Resp::NullBulk => seq![36u8] + int_text(-1) + crlf(),
        Resp::NullArray => seq![42u8] + int_text(-1) + crlf(),
        Resp::Simple(s) => seq![43u8] + encode_utf8(s@) + crlf(),
        Resp::Error(s) => seq![45u8] + encode_utf8(s@) + crlf(),
        Resp::Integer(i) => seq![58u8] + int_text(i as int) + crlf(),
        Resp::Bulk(b) => seq![36u8] + int_text(b@.len() as int) + crlf() + b@ + crlf(),
        Resp::Array(a) => seq![42u8] + int_text(a@.len() as int) + crlf() + resps_bytes(a@),
    }
}

/// The encodings of a sequence of values, one after another.
pub open spec fn resps_bytes(s: Seq<Resp>) -> Seq<u8>
    decreases s,
{
    if s.len() == 0 {
        seq![]
    } else {
        resps_bytes(s.drop_last()) + resp_bytes(s.last())
    }
}


/// Whether no byte is a carriage return.
pub open spec fn no_cr(b: Seq<u8>) -> bool {
    forall|i: int| 0 <= i < b.len() ==> #[trigger] b[i] != 13
}

/// A value that its encoding carries faithfully: one-line strings hold no carriage
/// return, and lengths fit an i64.
pub open spec fn well_formed(r: Resp) -> bool
    decreases r,
{
    match r {
        Resp::Simple(s) => no_cr(encode_utf8(s@)),
        Resp::Error(s) => no_cr(encode_utf8(s@)),
        Resp::Bulk(b) => b@.len() <= i64::MAX,
        Resp::Array(a) => a@.len() <= i64::MAX && all_well_formed(a@),
        _ => true,
    }
}

/// Every value of the sequence is well formed.
pub open spec fn all_well_formed(s: Seq<Resp>) -> bool
    decreases s,
{
    if s.len() == 0 {
        true
    } else {
        all_well_formed(s.drop_last()) && well_formed(s.last())
    }
}

/// The well-formed value `v` is encoded in `buf` from `pos` on.
pub open spec fn frame_at(buf: Seq<u8>, pos: int, v: Resp) -> bool {
    &&& well_formed(v)
    &&& 0 <= pos
    &&& pos + resp_bytes(v).len() <= buf.len()
    &&& buf.subrange(pos, pos + resp_bytes(v).len()) == resp_bytes(v)
}

/// The first byte of the encoding of a value.
pub open spec fn tag_of(v: Resp) -> u8 {
    match v {
        Resp::NullBulk => 36,
        Resp::NullArray => 42,
        Resp::Simple(_) => 43,
        Resp::Error(_) => 45,
        Resp::Integer(_) => 58,
        Resp::Bulk(_) => 36,
        Resp::Array(_) => 42,
    }
}

/// The bytes of the first line of the encoding of a value, between its tag and the
/// line's end.
pub open spec fn line_of(v: Resp) -> Seq<u8> {
    match v {
        Resp::NullBulk => int_text(-1),
        Resp::NullArray => int_text(-1),
        Resp::Simple(s) => encode_utf8(s@),
        Resp::Error(s) => encode_utf8(s@),
        Resp::Integer(i) => int_text(i as int),
        Resp::Bulk(b) => int_text(b@.len() as int),
        Resp::Array(a) => int_text(a@.len() as int),
    }
}

/// What follows the first line of the encoding of a value.
pub open spec fn body_of(v: Resp) -> Seq<u8> {
    match v {
        Resp::Bulk(b) => b@ + crlf(),
        Resp::Array(a) => resps_bytes(a@),
        _ => seq![],
    }
}

proof fn lemma_int_text_no_cr(i: int)
    ensures
        no_cr(int_text(i)),
        int_text(i).len() >= 1,
{
    if i < 0 {
        lemma_digits((-i) as nat);
        let d = digits((-i) as nat);
        assert forall|j: int| 0 <= j < int_text(i).len() implies #[trigger] int_text(i)[j] != 13 by {
            if j > 0 {
                assert(int_text(i)[j] == d[j - 1]);
            }
        }
    } else {
        lemma_digits(i as nat);
    }
}

proof fn lemma_frame_shape(v: Resp)
    ensures
        resp_bytes(v) == seq![tag_of(v)] + line_of(v) + crlf() + body_of(v),
        well_formed(v) ==> no_cr(line_of(v)),
{
    assert(resp_bytes(v) =~= seq![tag_of(v)] + line_of(v) + crlf() + body_of(v));
    lemma_int_text_no_cr(-1);
    match v {
        Resp::Integer(i) => lemma_int_text_no_cr(i as int),
        Resp::Bulk(b) => lemma_int_text_no_cr(b@.len() as int),
        Resp::Array(a) => lemma_int_text_no_cr(a@.len() as int),
        _ => {},
    }
}

proof fn lemma_all_well_formed(s: Seq<Resp>, k: int)
    requires
        all_well_formed(s),
        0 <= k < s.len(),
    ensures
        well_formed(s[k]),
    decreases s.len(),
{
    if k < s.len() - 1 {
        lemma_all_well_formed(s.drop_last(), k);
    }
}

proof fn lemma_resps_prefix(s: Seq<Resp>, k: int)
    requires
        0 <= k < s.len(),
    ensures
        resps_bytes(s.subrange(0, k + 1)) == resps_bytes(s.subrange(0, k)) + resp_bytes(s[k]),
        resps_bytes(s.subrange(0, k + 1)).len() <= resps_bytes(s).len(),
        resps_bytes(s) == resps_bytes(s.subrange(0, k + 1)) + resps_bytes(s).subrange(
            resps_bytes(s.subrange(0, k + 1)).len() as int,
            resps_bytes(s).len() as int,
        ),
    decreases s.len(),
{
    let p = s.subrange(0, k + 1);
    assert(p.drop_last() =~= s.subrange(0, k));
    if k + 1 == s.len() {
        assert(p =~= s);
        assert(resps_bytes(s).subrange(resps_bytes(s).len() as int, resps_bytes(s).len() as int)
            =~= Seq::<u8>::empty());
        assert(resps_bytes(s) =~= resps_bytes(s) + Seq::<u8>::empty());
    } else {
        let t = s.drop_last();
        lemma_resps_prefix(t, k);
        assert(t.subrange(0, k + 1) =~= p);
        let a = resps_bytes(p);
        let whole = resps_bytes(s);
        assert(whole == resps_bytes(t) + resp_bytes(s.last()));
        assert(whole =~= a + whole.subrange(a.len() as int, whole.len() as int));
    }
}


proof fn lemma_frame_header(buf: Seq<u8>, pos: int, v: Resp)
    requires
        frame_at(buf, pos, v),
    ensures
        pos + 1 + line_of(v).len() + 2 <= buf.len(),
        buf[pos] == tag_of(v),
        buf.subrange(pos + 1, pos + 1 + line_of(v).len()) == line_of(v),
        buf[pos + 1 + line_of(v).len()] == 13,
        buf[pos + 2 + line_of(v).len()] == 10,
        forall|j: int| pos + 1 <= j < pos + 1 + line_of(v).len() ==> buf[j] != 13,
        buf.subrange(pos + 3 + line_of(v).len(), pos + resp_bytes(v).len()) == body_of(v),
{
    lemma_frame_shape(v);
    let rb = resp_bytes(v);
    let l = line_of(v);
    let sub = buf.subrange(pos, pos + rb.len());
    assert(buf[pos] == sub[0]);
    assert(buf.subrange(pos + 1, pos + 1 + l.len()) =~= rb.subrange(1, 1 + l.len() as int));
    assert(buf[pos + 1 + l.len()] == sub[1 + l.len() as int]);
    assert(buf[pos + 2 + l.len()] == sub[2 + l.len() as int]);
    assert forall|j: int| pos + 1 <= j < pos + 1 + l.len() implies buf[j] != 13 by {
        assert(buf[j] == sub[j - pos]);
        assert(sub[j - pos] == l[j - pos - 1]);
    }
    assert(buf.subrange(pos + 3 + l.len(), pos + rb.len()) =~= rb.subrange(3 + l.len() as int, rb.len() as int));
}


/// The first line of a frame starts at `pos` and ends with the carriage return at
/// `end`, and any well-formed value encoded there has that first line.
pub open spec fn header_ok(buf: Seq<u8>, pos: int, end: int) -> bool {
    &&& 0 <= pos < end
    &&& end + 2 <= buf.len()
    &&& buf[end] == 13
    &&& buf[end + 1] == 10
    &&& forall|v: Resp|
        frame_at(buf, pos, v) ==> tag_of(v) == buf[pos] && end == pos + 1 + line_of(v).len()
            && buf.subrange(pos + 1, end) == line_of(v)
}

/// What decoding at `pos` promises: a success is the encoding of the value it gives, a
/// failure is a protocol error, and a well-formed value encoded there is decoded to its end.
pub open spec fn decoded(buf: Seq<u8>, pos: int, r: Result<(usize, Resp)>) -> bool {
    &&& r matches Ok((end, v)) ==> pos < end <= buf.len() && buf.subrange(pos, end as int) == resp_bytes(v)
    &&& r matches Err(e) ==> e.kind == ErrorKind::InvalidResp
    &&& forall|v: Resp| frame_at(buf, pos, v) ==> (r matches Ok((end, _)) && end == pos + resp_bytes(v).len())
}

fn push_digits(buf: &mut Vec<u8>, n: u64)
    ensures
        final(buf)@ == old(buf)@ + digits(n as nat),
    decreases n,
{
    if n >= 10 {
        push_digits(buf, n / 10);
    }
    buf.push((n % 10) as u8 + 48);
    assert(final(buf)@ =~= old(buf)@ + digits(n as nat));
}

fn push_int(buf: &mut Vec<u8>, i: i64)
    ensures
        final(buf)@ == old(buf)@ + int_text(i as int),
{
    if i < 0 {
        buf.push(45);
        let n: u64 = ((-(i + 1)) as u64) + 1;
        push_digits(buf, n);
        assert(final(buf)@ =~= old(buf)@ + int_text(i as int));
    } else {
        push_digits(buf, i as u64);
    }
}

fn push_all(buf: &mut Vec<u8>, b: &[u8])
    ensures
        final(buf)@ == old(buf)@ + b@,
{
    buf.extend_from_slice(b);
}

fn push_crlf(buf: &mut Vec<u8>)
    ensures
        final(buf)@ == old(buf)@ + crlf(),
{
    buf.push(13);
    buf.push(10);
    assert(final(buf)@ =~= old(buf)@ + crlf());
}


proof fn lemma_digits_step(acc: nat, d: nat)
    requires
        acc >= 1,
        d < 10,
    ensures
        digits(acc * 10 + d) == digits(acc).push((d + 48) as u8),
{
    assert((acc * 10 + d) / 10 == acc && (acc * 10 + d) % 10 == d && acc * 10 + d >= 10) by (nonlinear_arith)
        requires
            acc >= 1,
            d < 10,
    ;
}


/// The number that ASCII decimal digits spell.
pub open spec fn digits_value(b: Seq<u8>) -> nat
    decreases b.len(),
{
    if b.len() == 0 {
        0
    } else {
        digits_value(b.drop_last()) * 10 + ((b.last() - 48) as nat)
    }
}

/// Whether every byte is an ASCII decimal digit.
pub open spec fn all_digits(b: Seq<u8>) -> bool {
    forall|i: int| 0 <= i < b.len() ==> 48 <= #[trigger] b[i] <= 57
}

proof fn lemma_digits(n: nat)
    ensures
        digits(n).len() >= 1,
        all_digits(digits(n)),
        digits_value(digits(n)) == n,
        digits(n)[0] == 48 ==> n == 0,
        n == 0 ==> digits(n).len() == 1,
    decreases n,
{
    if n >= 10 {
        lemma_digits(n / 10);
        let d = digits(n / 10);
        let e = d.push(((n % 10) + 48) as u8);
        assert(e.drop_last() =~= d);
        assert(e[0] == d[0]);
        assert forall|i: int| 0 <= i < e.len() implies 48 <= #[trigger] e[i] <= 57 by {
            if i < d.len() {
                assert(e[i] == d[i]);
            }
        }
        assert(n / 10 * 10 + n % 10 == n);
        assert(e.last() == ((n % 10) + 48) as u8);
        assert(digits_value(e) == digits_value(d) * 10 + n % 10);
    } else {
        let e = digits(n);
        assert(e.drop_last() =~= Seq::<u8>::empty());
        assert(digits_value(Seq::<u8>::empty()) == 0);
    }
}

proof fn lemma_digits_value_prefix(b: Seq<u8>, k: int)
    requires
        0 <= k <= b.len(),
        all_digits(b),
    ensures
        digits_value(b.subrange(0, k)) <= digits_value(b),
    decreases b.len() - k,
{
    if k < b.len() {
        lemma_digits_value_prefix(b, k + 1);
        let p = b.subrange(0, k + 1);
        assert(p.drop_last() =~= b.subrange(0, k));
        assert(48 <= b[k]);
    } else {
        assert(b.subrange(0, k) =~= b);
    }
}

proof fn lemma_int_text_injective(i: int, j: int)
    requires
        int_text(i) == int_text(j),
    ensures
        i == j,
{
    if i < 0 {
        lemma_digits((-i) as nat);
    } else {
        lemma_digits(i as nat);
    }
    if j < 0 {
        lemma_digits((-j) as nat);
    } else {
        lemma_digits(j as nat);
    }
    if i < 0 && j < 0 {
        assert(digits((-i) as nat) =~= int_text(i).subrange(1, int_text(i).len() as int));
        assert(digits((-j) as nat) =~= int_text(j).subrange(1, int_text(j).len() as int));
    } else if i < 0 {
        assert(int_text(i)[0] == 45);
        assert(int_text(j)[0] == digits(j as nat)[0]);
    } else if j < 0 {
        assert(int_text(j)[0] == 45);
        assert(int_text(i)[0] == digits(i as nat)[0]);
    }
}

/// Reads the decimal text of an i64 that fills `buf[start..end]` exactly, in the form
/// `int_text` writes.
fn parse_int(buf: &[u8], start: usize, end: usize) -> (r: Option<i64>)
    requires
        start <= end <= buf@.len(),
    ensures
        r matches Some(i) ==> buf@.subrange(start as int, end as int) == int_text(i as int),
        forall|i: i64| buf@.subrange(start as int, end as int) == int_text(i as int) ==> r == Some(i),
{
    let ghost line = buf@.subrange(start as int, end as int);
    let ghost has = exists|i: i64| line == int_text(i as int);
    let ghost w: i64 = if has {
        choose|i: i64| line == int_text(i as int)
    } else {
        0
    };
    let ghost t: nat = if w < 0 {
        (-w) as nat
    } else {
        w as nat
    };
    proof {
        if has {
            lemma_digits(t);
            assert forall|i: i64| line == int_text(i as int) implies i == w by {
                lemma_int_text_injective(i as int, w as int);
            }
        }
    }
    if start == end {
        return None;
    }
    let neg = buf[start] == 45;
    let ds: usize = if neg {
        start + 1
    } else {
        start
    };
    proof {
        if has {
            if w < 0 {
                assert(line[0] == 45);
            } else {
                assert(line[0] == digits(t)[0]);
            }
            assert(neg == (w < 0));
            if neg {
                assert(buf@.subrange(ds as int, end as int) =~= line.subrange(1, line.len() as int));
                assert(line.subrange(1, line.len() as int) =~= digits(t));
            } else {
                assert(buf@.subrange(ds as int, end as int) =~= line);
            }
        }
    }
    let ghost whole = buf@.subrange(ds as int, end as int);
    if ds == end {
        return None;
    }
    let d0 = buf[ds];
    proof {
        if has {
            assert(d0 == whole[0]);
        }
    }
    if d0 < 48 || d0 > 57 {
        return None;
    }
    if d0 == 48 && (end - ds > 1 || neg) {
        proof {
            if has {
                assert(whole[0] == 48);
                assert(t == 0);
                assert(whole.len() == 1);
            }
        }
        return None;
    }
    let limit: u64 = if neg {
        9223372036854775808
    } else {
        9223372036854775807
    };
    let mut acc: u64 = (d0 - 48) as u64;
    let mut k: usize = ds + 1;
    assert(buf@.subrange(ds as int, k as int) =~= digits(acc as nat));
    proof {
        let p = buf@.subrange(ds as int, k as int);
        assert(p.drop_last() =~= Seq::<u8>::empty());
        assert(digits_value(Seq::<u8>::empty()) == 0);
        assert(p.last() == d0);
        assert(digits_value(p) == acc);
    }
    while k < end
        invariant
            ds < k <= end <= buf@.len(),
            acc >= 1 || k == ds + 1,
            acc <= limit,
            neg ==> acc >= 1 && limit == 9223372036854775808,
            !neg ==> limit == 9223372036854775807,
            ds == if neg { start + 1 } else { start as int },
            start < end,
            whole == buf@.subrange(ds as int, end as int),
            buf@.subrange(ds as int, k as int) == digits(acc as nat),
            digits_value(buf@.subrange(ds as int, k as int)) == acc,
            has ==> whole == digits(t) && t <= limit && all_digits(whole) && digits_value(whole) == t,
            acc == 0 ==> end == ds + 1,
            line == buf@.subrange(start as int, end as int),
            has == exists|i: i64| line == int_text(i as int),
        decreases end - k,
    {
        let d = buf[k];
        proof {
            if has {
                assert(d == whole[k - ds]);
            }
        }
        if d < 48 || d > 57 {
            proof {
                if has {
                    assert(48 <= whole[k - ds] <= 57);
                }
            }
            return None;
        }
        let dv = (d - 48) as u64;
        let ghost p1 = buf@.subrange(ds as int, k + 1);
        proof {
            assert(p1.drop_last() =~= buf@.subrange(ds as int, k as int));
            assert(digits_value(p1) == acc * 10 + dv);
            if has {
                assert(p1 =~= whole.subrange(0, k + 1 - ds));
                lemma_digits_value_prefix(whole, k + 1 - ds);
            }
        }
        if acc > (limit - dv) / 10 {
            proof {
                if has {
                    assert(acc * 10 + dv > limit) by (nonlinear_arith)
                        requires
                            acc > (limit - dv) / 10,
                            dv <= 9,
                            limit >= 9,
                    ;
                }
            }
            return None;
        }
        proof {
            lemma_digits_step(acc as nat, dv as nat);
            assert(p1 =~= buf@.subrange(ds as int, k as int).push(d));
            assert(acc * 10 + dv <= limit) by (nonlinear_arith)
                requires
                    acc <= (limit - dv) / 10,
                    dv <= 9,
                    limit >= 9,
            ;
        }
        acc = acc * 10 + dv;
        k = k + 1;
    }
    proof {
        assert(buf@.subrange(ds as int, k as int) =~= whole);
    }
    if neg {
        let i: i64 = if acc == 9223372036854775808 {
            -9223372036854775808i64
        } else {
            -(acc as i64)
        };
        assert(buf@.subrange(start as int, end as int) =~= seq![45u8] + buf@.subrange(
            ds as int,
            end as int,
        ));
        proof {
            if has {
                lemma_int_text_injective(i as int, w as int);
            }
        }
        Some(i)
    } else {
        proof {
            if has {
                lemma_int_text_injective(acc as int, w as int);
            }
        }
        Some(acc as i64)
    }
}

/// The first index at or after `start` that holds a carriage return, or the length.
fn find_cr(buf: &[u8], start: usize) -> (r: usize)
    requires
        start <= buf@.len(),
    ensures
        start <= r <= buf@.len(),
        r < buf@.len() ==> buf@[r as int] == 13,
        forall|j: int| start <= j < r ==> buf@[j] != 13,
{
    let mut i = start;
    while i < buf.len()
        invariant
            start <= i <= buf@.len(),
            forall|j: int| start <= j < i ==> buf@[j] != 13,
        decreases buf@.len() - i,
    {
        if buf[i] == 13 {
            return i;
        }
        i = i + 1;
    }
    i
}

impl Resp {
    /// The encoding of this value.
    pub fn ser(&self) -> (r: Result<Vec<u8>>)
        ensures
            r matches Ok(b) && b@ == resp_bytes(*self),
    {
        let mut buf = Vec::new();
        match self.ser_impl(&mut buf) {
            Ok(_) => {},
            Err(e) => {
                return Err(e);
            },
        }
        assert(buf@ =~= resp_bytes(*self));
        Ok(buf)
    }

    /// Appends the encoding of this value to `buf`.
    fn ser_impl(&self, buf: &mut Vec<u8>) -> (r: Result<()>)
        ensures
            r is Ok,
            final(buf)@ == old(buf)@ + resp_bytes(*self),
        decreases self,
    {
        let ghost b0 = buf@;
        match self {
            Resp::NullBulk => {
                buf.push(36);
                push_int(buf, -1);
                push_crlf(buf);
            },
            Resp::NullArray => {
                buf.push(42);
                push_int(buf, -1);
                push_crlf(buf);
            },
            Resp::Simple(s) => {
                buf.push(43);
                push_all(buf, s.as_str().as_bytes());
                push_crlf(buf);
            },
            Resp::Error(s) => {
                buf.push(45);
                push_all(buf, s.as_str().as_bytes());
                push_crlf(buf);
            },
            Resp::Integer(i) => {
                buf.push(58);
                push_int(buf, *i);
                push_crlf(buf);
            },
            Resp::Bulk(b) => {
                buf.push(36);
                push_digits(buf, b.len() as u64);
                push_crlf(buf);
                push_all(buf, b.as_slice());
                push_crlf(buf);
            },
            Resp::Array(arr) => {
                buf.push(42);
                push_digits(buf, arr.len() as u64);
                push_crlf(buf);
                let ghost head = buf@;
                let ghost me = *self;
                assert(me == Resp::Array(*arr));
                let mut i: usize = 0;
                while i < arr.len()
                    invariant
                        i <= arr@.len(),
                        me == *self,
                        me == Resp::Array(*arr),
                        buf@ == head + resps_bytes(arr@.subrange(0, i as int)),
                    decreases arr@.len() - i,
                {
                    proof {
                        vstd::std_specs::vec::axiom_vec_index_decreases(*arr, i as int);
                        assert(decreases_to!(me => me->Array_0));
                        assert(decreases_to!(me => arr[i as int]));
                    }
                    match arr[i].ser_impl(buf) {
                        Ok(_) => {},
                        Err(e) => {
                            return Err(e);
                        },
                    }
                    proof {
                        let s = arr@.subrange(0, i + 1);
                        assert(s.drop_last() =~= arr@.subrange(0, i as int));
                        assert(s.last() == arr@[i as int]);
                    }
                    i = i + 1;
                }
                assert(arr@.subrange(0, i as int) =~= arr@);
            },
        }
        assert(buf@ =~= b0 + resp_bytes(*self));
        Ok(())
    }

    /// Decodes the value at the front of `buf`; what follows it is ignored. A
    /// well-formed value at the front always decodes.
    pub fn de(buf: &[u8]) -> (r: Result<Resp>)
        ensures
            r matches Ok(v) ==> exists|n: int| 0 < n <= buf@.len() && buf@.subrange(0, n) == resp_bytes(v),
            r matches Err(e) ==> e.kind == ErrorKind::InvalidResp,
            (exists|v: Resp| frame_at(buf@, 0, v)) ==> r is Ok,
    {
        match Self::de_impl(buf, 0) {
            Ok((n, v)) => Ok(v),
            Err(e) => Err(e),
        }
    }

    /// Decodes the value that starts at `pos`, and returns where it ends.
    fn de_impl(buf: &[u8], pos: usize) -> (r: Result<(usize, Resp)>)
        requires
            pos <= buf@.len(),
        ensures
            decoded(buf@, pos as int, r),
        decreases buf@.len() - pos, 1nat,
    {
        let bad = Error { kind: ErrorKind::InvalidResp };
        if pos >= buf.len() {
            proof {
                assert forall|v: Resp| !frame_at(buf@, pos as int, v) by {
                    if frame_at(buf@, pos as int, v) {
                        lemma_frame_header(buf@, pos as int, v);
                    }
                }
            }
            return Err(bad);
        }
        let tag = buf[pos];
        let end = find_cr(buf, pos + 1);
        if end >= buf.len() - 1 || buf[end + 1] != 10 {
            proof {
                assert forall|v: Resp| !frame_at(buf@, pos as int, v) by {
                    if frame_at(buf@, pos as int, v) {
                        lemma_frame_header(buf@, pos as int, v);
                    }
                }
            }
            return Err(bad);
        }
        proof {
            assert forall|v: Resp| frame_at(buf@, pos as int, v) implies tag_of(v) == buf@[pos as int] && end
                == pos + 1 + line_of(v).len() && buf@.subrange(pos + 1, end as int) == line_of(v) by {
                lemma_frame_header(buf@, pos as int, v);
            }
        }
        if tag == 43 || tag == 45 {
            Self::de_text(buf, pos, end)
        } else if tag == 58 {
            Self::de_integer(buf, pos, end)
        } else if tag == 36 {
            Self::de_bulk(buf, pos, end)
        } else if tag == 42 {
            Self::de_array(buf, pos, end)
        } else {
            proof {
                assert forall|v: Resp| !frame_at(buf@, pos as int, v) by {
                    if frame_at(buf@, pos as int, v) {
                        assert(tag_of(v) == buf@[pos as int]);
                    }
                }
            }
            Err(bad)
        }
    }

    fn de_text(buf: &[u8], pos: usize, end: usize) -> (r: Result<(usize, Resp)>)
        requires
            header_ok(buf@, pos as int, end as int),
            buf@[pos as int] == 43 || buf@[pos as int] == 45,
        ensures
            decoded(buf@, pos as int, r),
    {
        let bad = Error { kind: ErrorKind::InvalidResp };
        let tag = buf[pos];
        let next = end + 2;
        let line = slice_subrange(buf, pos + 1, end);
        assert(buf@.subrange(pos as int, next as int) =~= seq![tag] + line@ + crlf());
        match text_from_utf8(line) {
            None => {
                proof {
                    assert forall|v: Resp| !frame_at(buf@, pos as int, v) by {
                        if frame_at(buf@, pos as int, v) {
                            assert(tag_of(v) == buf@[pos as int]);
                            assert(v is Simple || v is Error);
                            assert(line@ == line_of(v));
                            encode_utf8_valid_utf8(v->Simple_0@);
                            encode_utf8_valid_utf8(v->Error_0@);
                        }
                    }
                }
                Err(bad)
            },
            Some(s) => {
                proof {
                    assert forall|v: Resp| frame_at(buf@, pos as int, v) implies next == pos + resp_bytes(
                        v,
                    ).len() by {
                        lemma_frame_shape(v);
                    }
                }
                if tag == 43 {
                    Ok((next, Resp::Simple(s)))
                } else {
                    Ok((next, Resp::Error(s)))
                }
            },
        }
    }

    fn de_integer(buf: &[u8], pos: usize, end: usize) -> (r: Result<(usize, Resp)>)
        requires
            header_ok(buf@, pos as int, end as int),
            buf@[pos as int] == 58,
        ensures
            decoded(buf@, pos as int, r),
    {
        let bad = Error { kind: ErrorKind::InvalidResp };
        let _len = buf.len();
        let next = end + 2;
        let ghost line = buf@.subrange(pos + 1, end as int);
        assert(buf@.subrange(pos as int, next as int) =~= seq![58u8] + line + crlf());
        match parse_int(buf, pos + 1, end) {
            None => {
                proof {
                    assert forall|v: Resp| !frame_at(buf@, pos as int, v) by {
                        if frame_at(buf@, pos as int, v) {
                            assert(tag_of(v) == buf@[pos as int]);
                            assert(v is Integer);
                            assert(line == line_of(v));
                            assert(line == int_text(v->Integer_0 as int));
                        }
                    }
                }
                Err(bad)
            },
            Some(i) => {
                proof {
                    assert forall|v: Resp| frame_at(buf@, pos as int, v) implies next == pos + resp_bytes(
                        v,
                    ).len() by {
                        lemma_frame_shape(v);
                    }
                }
                Ok((next, Resp::Integer(i)))
            },
        }
    }

    fn de_bulk(buf: &[u8], pos: usize, end: usize) -> (r: Result<(usize, Resp)>)
        requires
            header_ok(buf@, pos as int, end as int),
            buf@[pos as int] == 36,
        ensures
            decoded(buf@, pos as int, r),
    {
        let bad = Error { kind: ErrorKind::InvalidResp };
        let _len = buf.len();
        let next = end + 2;
        let ghost line = buf@.subrange(pos + 1, end as int);
        let ghost head = buf@.subrange(pos as int, next as int);
        assert(head =~= seq![36u8] + line + crlf());
        let n = match parse_int(buf, pos + 1, end) {
            None => {
                proof {
                    assert forall|v: Resp| !frame_at(buf@, pos as int, v) by {
                        if frame_at(buf@, pos as int, v) {
                            assert(tag_of(v) == buf@[pos as int]);
                            assert(v is NullBulk || v is Bulk);
                            assert(line == line_of(v));
                            if v is NullBulk {
                                assert(line == int_text((-1i64) as int));
                            } else {
                                assert(line == int_text((v->Bulk_0@.len() as i64) as int));
                            }
                        }
                    }
                }
                return Err(bad);
            },
            Some(n) => n,
        };
        if n == -1 {
            proof {
                assert forall|v: Resp| frame_at(buf@, pos as int, v) implies next == pos + resp_bytes(
                    v,
                ).len() by {
                    lemma_frame_shape(v);
                    assert(tag_of(v) == buf@[pos as int]);
                    assert(line == line_of(v));
                    if v is Bulk {
                        assert(line == int_text((v->Bulk_0@.len() as i64) as int));
                    }
                }
            }
            return Ok((next, Resp::NullBulk));
        }
        proof {
            assert forall|v: Resp| frame_at(buf@, pos as int, v) implies v is Bulk && v->Bulk_0@.len() == n
                && pos + resp_bytes(v).len() == next + n + 2 && buf@.subrange(next as int, next + n + 2)
                == v->Bulk_0@ + crlf() by {
                lemma_frame_header(buf@, pos as int, v);
                lemma_frame_shape(v);
                assert(tag_of(v) == buf@[pos as int]);
                assert(line == line_of(v));
                if v is NullBulk {
                    assert(line == int_text((-1i64) as int));
                } else {
                    assert(line == int_text((v->Bulk_0@.len() as i64) as int));
                }
            }
        }
        if n < 0 || (n as u64) > ((buf.len() - next) as u64) || buf.len() - next - (n as usize) < 2 {
            return Err(bad);
        }
        let stop = next + n as usize;
        if buf[stop] != 13 || buf[stop + 1] != 10 {
            proof {
                assert forall|v: Resp| !frame_at(buf@, pos as int, v) by {
                    if frame_at(buf@, pos as int, v) {
                        let t = buf@.subrange(next as int, next + n + 2);
                        assert(buf@[stop as int] == t[n as int]);
                        assert(buf@[stop + 1] == t[n + 1]);
                    }
                }
            }
            return Err(bad);
        }
        let body = slice_to_vec(slice_subrange(buf, next, stop));
        proof {
            assert(buf@.subrange(pos as int, stop + 2) =~= head + body@ + crlf());
        }
        Ok((stop + 2, Resp::Bulk(body)))
    }

    fn de_array(buf: &[u8], pos: usize, end: usize) -> (r: Result<(usize, Resp)>)
        requires
            header_ok(buf@, pos as int, end as int),
            buf@[pos as int] == 42,
        ensures
            decoded(buf@, pos as int, r),
        decreases buf@.len() - pos, 0nat,
    {
        let bad = Error { kind: ErrorKind::InvalidResp };
        let _len = buf.len();
        let next = end + 2;
        let ghost line = buf@.subrange(pos + 1, end as int);
        let ghost head = buf@.subrange(pos as int, next as int);
        assert(head =~= seq![42u8] + line + crlf());
        let n = match parse_int(buf, pos + 1, end) {
            None => {
                proof {
                    assert forall|v: Resp| !frame_at(buf@, pos as int, v) by {
                        if frame_at(buf@, pos as int, v) {
                            assert(tag_of(v) == buf@[pos as int]);
                            assert(v is NullArray || v is Array);
                            assert(line == line_of(v));
                            if v is NullArray {
                                assert(line == int_text((-1i64) as int));
                            } else {
                                assert(line == int_text((v->Array_0@.len() as i64) as int));
                            }
                        }
                    }
                }
                return Err(bad);
            },
            Some(n) => n,
        };
        if n == -1 {
            proof {
                assert forall|v: Resp| frame_at(buf@, pos as int, v) implies next == pos + resp_bytes(
                    v,
                ).len() by {
                    lemma_frame_shape(v);
                    assert(tag_of(v) == buf@[pos as int]);
                    assert(line == line_of(v));
                    if v is Array {
                        assert(line == int_text((v->Array_0@.len() as i64) as int));
                    }
                }
            }
            return Ok((next, Resp::NullArray));
        }
        proof {
            assert forall|v: Resp| frame_at(buf@, pos as int, v) implies v is Array && v->Array_0@.len() == n
                && pos + resp_bytes(v).len() == next + resps_bytes(v->Array_0@).len() && buf@.subrange(
                next as int,
                next + resps_bytes(v->Array_0@).len(),
            ) == resps_bytes(v->Array_0@) by {
                lemma_frame_header(buf@, pos as int, v);
                lemma_frame_shape(v);
                assert(tag_of(v) == buf@[pos as int]);
                assert(line == line_of(v));
                if v is NullArray {
                    assert(line == int_text((-1i64) as int));
                } else {
                    assert(line == int_text((v->Array_0@.len() as i64) as int));
                }
            }
        }
        if n < 0 {
            return Err(bad);
        }
        let count = n as u64;
        let mut items: Vec<Resp> = Vec::new();
        let mut p = next;
        let mut k: u64 = 0;
        proof {
            assert forall|v: Resp| frame_at(buf@, pos as int, v) implies p == next + resps_bytes(
                v->Array_0@.subrange(0, k as int),
            ).len() by {
                assert(v->Array_0@.subrange(0, 0) =~= Seq::<Resp>::empty());
            }
            assert(buf@.subrange(next as int, p as int) =~= resps_bytes(items@));
        }
        while k < count
            invariant
                next <= p <= buf@.len(),
                pos < next,
                k <= count,
                count == n,
                items@.len() == k,
                buf@.subrange(next as int, p as int) == resps_bytes(items@),
                forall|v: Resp|
                    frame_at(buf@, pos as int, v) ==> v is Array && v->Array_0@.len() == n && pos
                        + resp_bytes(v).len() == next + resps_bytes(v->Array_0@).len() && buf@.subrange(
                        next as int,
                        next + resps_bytes(v->Array_0@).len(),
                    ) == resps_bytes(v->Array_0@),
                forall|v: Resp|
                    frame_at(buf@, pos as int, v) ==> p == next + resps_bytes(
                        v->Array_0@.subrange(0, k as int),
                    ).len(),
            decreases count - k,
        {
            proof {
                assert forall|v: Resp| frame_at(buf@, pos as int, v) implies frame_at(
                    buf@,
                    p as int,
                    v->Array_0@[k as int],
                ) by {
                    let a = v->Array_0@;
                    lemma_resps_prefix(a, k as int);
                    lemma_all_well_formed(a, k as int);
                    let whole = resps_bytes(a);
                    let pre = resps_bytes(a.subrange(0, k as int));
                    let item = resp_bytes(a[k as int]);
                    assert(whole.subrange(pre.len() as int, pre.len() + item.len() as int) =~= item);
                    assert(buf@.subrange(p as int, p + item.len() as int) =~= whole.subrange(
                        pre.len() as int,
                        pre.len() + item.len() as int,
                    ));
                }
            }
            match Self::de_impl(buf, p) {
                Err(e) => {
                    return Err(e);
                },
                Ok((q, v)) => {
                    proof {
                        assert(items@.push(v).drop_last() =~= items@);
                        assert(buf@.subrange(next as int, q as int) =~= buf@.subrange(next as int, p as int)
                            + buf@.subrange(p as int, q as int));
                        assert forall|w: Resp| frame_at(buf@, pos as int, w) implies q == next + resps_bytes(
                            w->Array_0@.subrange(0, k + 1),
                        ).len() by {
                            lemma_resps_prefix(w->Array_0@, k as int);
                        }
                    }
                    items.push(v);
                    p = q;
                },
            }
            k = k + 1;
        }
        proof {
            assert(buf@.subrange(pos as int, p as int) =~= head + buf@.subrange(next as int, p as int));
            assert forall|v: Resp| frame_at(buf@, pos as int, v) implies p == pos + resp_bytes(v).len() by {
                assert(v->Array_0@.subrange(0, k as int) =~= v->Array_0@);
            }
        }
        Ok((p, Resp::Array(items)))
    }
}

} // verus!
