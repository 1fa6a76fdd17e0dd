use vstd::bytes::*;
use vstd::prelude::*;
use vstd::slice::slice_subrange;
use vstd::utf8::*;

use crate::error::{Error, ErrorKind};

verus! {

/// A mutation as a log records it, over abstract text.
pub enum Mutation {
    Write(Seq<char>, Seq<char>),
    Erase(Seq<char>),
}

/// One entry of a segment log: a write of a value, or a tombstone.
#[derive(Debug)]
pub enum Entry {
    Put(String, String),
    Rm(String),
}

impl View for Entry {
    type V = Mutation;

    open spec fn view(&self) -> Mutation {
        match self {
            Entry::Put(k, v) => Mutation::Write(k@, v@),
            Entry::Rm(k) => Mutation::Erase(k@),
        }
    }
}

/// Tag that opens an encoded write.
pub const SET_TAG: u32 = 0;

/// Tag that opens an encoded tombstone.
pub const RM_TAG: u32 = 1;

/// A text field: its UTF-8 length as eight little-endian bytes, then its UTF-8 bytes.
pub open spec fn text_bytes(s: Seq<char>) -> Seq<u8> {
    spec_u64_to_le_bytes(encode_utf8(s).len() as u64) + encode_utf8(s)
}

/// The encoding of one mutation: a four-byte little-endian tag, then its text fields.
pub open spec fn entry_bytes(m: Mutation) -> Seq<u8> {
    match m {
        Mutation::Write(k, v) => spec_u32_to_le_bytes(SET_TAG) + text_bytes(k) + text_bytes(v),
        Mutation::Erase(k) => spec_u32_to_le_bytes(RM_TAG) + text_bytes(k),
    }
}

/// Whether each text of the mutation has a UTF-8 length that a u64 holds.
pub open spec fn encodable(m: Mutation) -> bool {
    match m {
        Mutation::Write(k, v) => encode_utf8(k).len() <= u64::MAX && encode_utf8(v).len()
            <= u64::MAX,
        Mutation::Erase(k) => encode_utf8(k).len() <= u64::MAX,
    }
}

/// The concatenated encodings of a sequence of mutations.
pub open spec fn log_bytes(ms: Seq<Mutation>) -> Seq<u8>
    decreases ms.len(),
{
    if ms.len() == 0 {
        seq![]
    } else {
        entry_bytes(ms[0]) + log_bytes(ms.drop_first())
    }
}

/// Reads one text field from the front of `b`: the text and the bytes it took.
pub open spec fn parse_text(b: Seq<u8>) -> Option<(Seq<char>, int)> {
    if b.len() < 8 {
        None
    } else {
        let n = spec_u64_from_le_bytes(b.subrange(0, 8)) as int;
        if b.len() - 8 < n {
            None
        } else if valid_utf8(b.subrange(8, 8 + n)) {
            Some((decode_utf8(b.subrange(8, 8 + n)), 8 + n))
        } else {
            None
        }
    }
}

/// Reads one entry from the front of `b`: the mutation and the bytes it took.
pub open spec fn parse_entry(b: Seq<u8>) -> Option<(Mutation, int)> {
    if b.len() < 4 {
        None
    } else {
        let tag = spec_u32_from_le_bytes(b.subrange(0, 4));
        let rest = b.subrange(4, b.len() as int);
        if tag == SET_TAG {
            match parse_text(rest) {
                None => None,
                Some((k, n1)) => match parse_text(rest.subrange(n1, rest.len() as int)) {
                    None => None,
                    Some((v, n2)) => Some((Mutation::Write(k, v), 4 + n1 + n2)),
                },
            }
        } else if tag == RM_TAG {
            match parse_text(rest) {
                None => None,
                Some((k, n1)) => Some((Mutation::Erase(k), 4 + n1)),
            }
        } else {
            None
        }
    }
}

/// Reads a whole log: the mutations, if the bytes are exactly a sequence of entries.
pub open spec fn parse_log(b: Seq<u8>) -> Option<Seq<Mutation>>
    decreases b.len(),
{
    if b.len() == 0 {
        Some(seq![])
    } else {
        match parse_entry(b) {
            None => None,
            Some((m, n)) => if 0 < n <= b.len() {
                match parse_log(b.subrange(n, b.len() as int)) {
                    None => None,
                    Some(ms) => Some(seq![m] + ms),
                }
            } else {
                None
            },
        }
    }
}

proof fn lemma_parse_text(s: Seq<char>, rest: Seq<u8>)
    requires
        encode_utf8(s).len() <= u64::MAX,
    ensures
        parse_text(text_bytes(s) + rest) == Some((s, text_bytes(s).len() as int)),
        text_bytes(s).len() == 8 + encode_utf8(s).len(),
{
    lemma_auto_spec_u64_to_from_le_bytes();
    encode_utf8_valid_utf8(s);
    encode_utf8_decode_utf8(s);
    let e = encode_utf8(s);
    let l = spec_u64_to_le_bytes(e.len() as u64);
    let b = text_bytes(s) + rest;
    assert(b.subrange(0, 8) =~= l);
    assert(b.subrange(8, 8 + e.len() as int) =~= e);
}

/// Decoding the encoding of a mutation, followed by anything, gives back the mutation
/// and the exact length of its encoding.
pub proof fn lemma_parse_entry(m: Mutation, rest: Seq<u8>)
    requires
        encodable(m),
    ensures
        parse_entry(entry_bytes(m) + rest) == Some((m, entry_bytes(m).len() as int)),
        entry_bytes(m).len() >= 12,
{
    lemma_auto_spec_u32_to_from_le_bytes();
    let b = entry_bytes(m) + rest;
    match m {
        Mutation::Write(k, v) => {
            lemma_parse_text(k, text_bytes(v) + rest);
            lemma_parse_text(v, rest);
            let t = spec_u32_to_le_bytes(SET_TAG);
            assert(b.subrange(0, 4) =~= t);
            let r = b.subrange(4, b.len() as int);
            assert(r =~= text_bytes(k) + (text_bytes(v) + rest));
            assert(r.subrange(text_bytes(k).len() as int, r.len() as int) =~= text_bytes(v)
                + rest);
        },
        Mutation::Erase(k) => {
            lemma_parse_text(k, rest);
            let t = spec_u32_to_le_bytes(RM_TAG);
            assert(b.subrange(0, 4) =~= t);
            let r = b.subrange(4, b.len() as int);
            assert(r =~= text_bytes(k) + rest);
        },
    }
}

/// Round trip of the entry codec: decoding the encoding of a mutation gives it back.
pub proof fn law_entry_round_trip(m: Mutation)
    requires
        encodable(m),
    ensures
        parse_entry(entry_bytes(m)) == Some((m, entry_bytes(m).len() as int)),
{
    lemma_parse_entry(m, seq![]);
    assert(entry_bytes(m) + seq![] =~= entry_bytes(m));
}

/// The log of a concatenation is the concatenation of the logs.
pub proof fn lemma_log_bytes_concat(a: Seq<Mutation>, b: Seq<Mutation>)
    ensures
        log_bytes(a + b) == log_bytes(a) + log_bytes(b),
    decreases a.len(),
{
    if a.len() == 0 {
        assert(a + b =~= b);
        assert(log_bytes(a) + log_bytes(b) =~= log_bytes(b));
    } else {
        lemma_log_bytes_concat(a.drop_first(), b);
        assert((a + b).drop_first() =~= a.drop_first() + b);
        assert(log_bytes(a + b) =~= log_bytes(a) + log_bytes(b));
    }
}

/// Appending one mutation appends its encoding.
pub proof fn lemma_log_bytes_push(a: Seq<Mutation>, m: Mutation)
    ensures
        log_bytes(a.push(m)) == log_bytes(a) + entry_bytes(m),
{
    lemma_log_bytes_concat(a, seq![m]);
    assert(a.push(m) =~= a + seq![m]);
    assert(seq![m].drop_first() =~= Seq::<Mutation>::empty());
    assert(log_bytes(Seq::<Mutation>::empty()) =~= Seq::<u8>::empty());
    assert(seq![m][0] == m);
    assert(log_bytes(seq![m]) =~= entry_bytes(m));
}

/// Every mutation of the sequence is encodable.
pub open spec fn all_encodable(ms: Seq<Mutation>) -> bool {
    forall|i: int| 0 <= i < ms.len() ==> encodable(#[trigger] ms[i])
}

/// A log written as a sequence of entries reads back as exactly that sequence.
pub proof fn lemma_log_round_trip(ms: Seq<Mutation>)
    requires
        all_encodable(ms),
    ensures
        parse_log(log_bytes(ms)) == Some(ms),
    decreases ms.len(),
{
    if ms.len() > 0 {
        let b = log_bytes(ms);
        let rest = log_bytes(ms.drop_first());
        lemma_parse_entry(ms[0], rest);
        assert(all_encodable(ms.drop_first())) by {
            assert forall|i: int| 0 <= i < ms.drop_first().len() implies encodable(
                #[trigger] ms.drop_first()[i],
            ) by {
                assert(ms.drop_first()[i] == ms[i + 1]);
            }
        }
        lemma_log_round_trip(ms.drop_first());
        let n = entry_bytes(ms[0]).len() as int;
        assert(b.subrange(n, b.len() as int) =~= rest);
        assert(seq![ms[0]] + ms.drop_first() =~= ms);
    } else {
        assert(log_bytes(ms) =~= Seq::<u8>::empty());
    }
}

/// Relies on std::str::from_utf8: it succeeds exactly on well-formed UTF-8, and the
/// text it gives back has those bytes as its UTF-8 encoding.
#[verifier::external_body]
fn utf8_text(b: &[u8]) -> (r: Option<String>)
    ensures
        r is Some <==> valid_utf8(b@),
        r matches Some(s) ==> encode_utf8(s@) == b@,
{
    std::str::from_utf8(b).ok().map(|s| s.to_owned())
}

/// Decodes UTF-8 bytes to text.
pub fn text_from_utf8(b: &[u8]) -> (r: Option<String>)
    ensures
        r is Some <==> valid_utf8(b@),
        r matches Some(s) ==> s@ == decode_utf8(b@) && encode_utf8(s@) == b@,
{
    let r = utf8_text(b);
    proof {
        if r is Some {
            encode_utf8_decode_utf8(r->0@);
        }
    }
    r
}

/// Appends a text field: its UTF-8 length, then its UTF-8 bytes.
pub(crate) fn push_text(buf: &mut Vec<u8>, s: &String)
    ensures
        final(buf)@ == old(buf)@ + text_bytes(s@),
{
    let b = s.as_str().as_bytes();
    let len = u64_to_le_bytes(b.len() as u64);
    buf.extend_from_slice(len.as_slice());
    buf.extend_from_slice(b);
    assert(final(buf)@ =~= old(buf)@ + text_bytes(s@));
}

impl Entry {
    /// Whether this entry can be encoded.
    pub open spec fn encodable(&self) -> bool {
        encodable(self@)
    }

    /// Appends the encoding of this entry to `buf`.
    pub fn encode_into(&self, buf: &mut Vec<u8>)
        requires
            self.encodable(),
        ensures
            final(buf)@ == old(buf)@ + entry_bytes(self@),
    {
        match self {
            Entry::Put(k, v) => {
                let t = u32_to_le_bytes(SET_TAG);
                buf.extend_from_slice(t.as_slice());
                push_text(buf, k);
                push_text(buf, v);
            },
            Entry::Rm(k) => {
                let t = u32_to_le_bytes(RM_TAG);
                buf.extend_from_slice(t.as_slice());
                push_text(buf, k);
            },
        }
        assert(final(buf)@ =~= old(buf)@ + entry_bytes(self@));
    }

    /// The encoding of this entry.
    pub fn encode(&self) -> (r: Vec<u8>)
        requires
            self.encodable(),
        ensures
            r@ == entry_bytes(self@),
    {
        let mut buf = Vec::new();
        self.encode_into(&mut buf);
        assert(buf@ =~= entry_bytes(self@));
        buf
    }
}

pub(crate) fn decode_text(buf: &[u8], pos: usize) -> (r: Option<(String, usize)>)
    requires
        pos <= buf@.len(),
    ensures
        match parse_text(buf@.subrange(pos as int, buf@.len() as int)) {
            None => r is None,
            Some((s, n)) => r matches Some((t, m)) && t@ == s && m == n,
        },
{
    let ghost b = buf@.subrange(pos as int, buf@.len() as int);
    if buf.len() - pos < 8 {
        return None;
    }
    let lb = slice_subrange(buf, pos, pos + 8);
    assert(lb@ =~= b.subrange(0, 8));
    let n = u64_from_le_bytes(lb);
    if ((buf.len() - pos - 8) as u64) < n {
        return None;
    }
    let start = pos + 8;
    let end = start + n as usize;
    let body = slice_subrange(buf, start, end);
    assert(body@ =~= b.subrange(8, 8 + n));
    match text_from_utf8(body) {
        None => None,
        Some(s) => Some((s, 8 + n as usize)),
    }
}

/// Decodes the entry that starts at `pos` in `buf`, with the number of bytes it takes.
pub fn decode_from(buf: &[u8], pos: usize) -> (r: Result<(Entry, usize), Error>)
    requires
        pos <= buf@.len(),
    ensures
        match parse_entry(buf@.subrange(pos as int, buf@.len() as int)) {
            None => r == Err::<(Entry, usize), Error>(Error { kind: ErrorKind::InvalidLogEntry }),
            Some((m, n)) => r matches Ok((e, k)) && e@ == m && k == n,
        },
{
    let ghost b = buf@.subrange(pos as int, buf@.len() as int);
    let bad = Error { kind: ErrorKind::InvalidLogEntry };
    if buf.len() - pos < 4 {
        return Err(bad);
    }
    let tb = slice_subrange(buf, pos, pos + 4);
    assert(tb@ =~= b.subrange(0, 4));
    let tag = u32_from_le_bytes(tb);
    let ghost rest = b.subrange(4, b.len() as int);
    assert(buf@.subrange(pos + 4, buf@.len() as int) =~= rest);
    if tag == SET_TAG {
        match decode_text(buf, pos + 4) {
            None => Err(bad),
            Some((k, n1)) => {
                assert(buf@.subrange(pos + 4 + n1, buf@.len() as int) =~= rest.subrange(
                    n1 as int,
                    rest.len() as int,
                ));
                match decode_text(buf, pos + 4 + n1) {
                    None => Err(bad),
                    Some((v, n2)) => Ok((Entry::Put(k, v), 4 + n1 + n2)),
                }
            },
        }
    } else if tag == RM_TAG {
        match decode_text(buf, pos + 4) {
            None => Err(bad),
            Some((k, n1)) => Ok((Entry::Rm(k), 4 + n1)),
        }
    } else {
        Err(bad)
    }
}

pub(crate) proof fn lemma_parse_text_bytes(b: Seq<u8>)
    requires
        parse_text(b) is Some,
    ensures
        ({
            let (s, n) = parse_text(b)->0;
            &&& 8 <= n <= b.len()
            &&& b.subrange(0, n) == text_bytes(s)
            &&& encode_utf8(s).len() <= u64::MAX
        }),
{
    lemma_auto_spec_u64_to_from_le_bytes();
    let n = spec_u64_from_le_bytes(b.subrange(0, 8)) as int;
    let body = b.subrange(8, 8 + n);
    decode_utf8_encode_utf8(body);
    let s = decode_utf8(body);
    assert(encode_utf8(s) == body);
    assert(spec_u64_to_le_bytes(encode_utf8(s).len() as u64) == b.subrange(0, 8));
    assert(b.subrange(0, 8 + n) =~= b.subrange(0, 8) + body);
}

/// Whatever decodes as an entry is exactly the encoding of the mutation it gives.
pub proof fn lemma_parse_entry_bytes(b: Seq<u8>)
    requires
        parse_entry(b) is Some,
    ensures
        ({
            let (m, n) = parse_entry(b)->0;
            &&& 12 <= n <= b.len()
            &&& b.subrange(0, n) == entry_bytes(m)
            &&& encodable(m)
        }),
{
    lemma_auto_spec_u32_to_from_le_bytes();
    let tag = spec_u32_from_le_bytes(b.subrange(0, 4));
    let rest = b.subrange(4, b.len() as int);
    assert(spec_u32_to_le_bytes(tag) == b.subrange(0, 4));
    lemma_parse_text_bytes(rest);
    let (k, n1) = parse_text(rest)->0;
    if tag == SET_TAG {
        let rest2 = rest.subrange(n1, rest.len() as int);
        lemma_parse_text_bytes(rest2);
        let (v, n2) = parse_text(rest2)->0;
        assert(rest2.subrange(0, n2) =~= b.subrange(4 + n1, 4 + n1 + n2));
        assert(rest.subrange(0, n1) =~= b.subrange(4, 4 + n1));
        assert(b.subrange(0, 4 + n1 + n2) =~= b.subrange(0, 4) + b.subrange(4, 4 + n1)
            + b.subrange(4 + n1, 4 + n1 + n2));
    } else {
        assert(rest.subrange(0, n1) =~= b.subrange(4, 4 + n1));
        assert(b.subrange(0, 4 + n1) =~= b.subrange(0, 4) + b.subrange(4, 4 + n1));
    }
}

/// The key that a mutation is about.
pub open spec fn key_of(m: Mutation) -> Seq<char> {
    match m {
        Mutation::Write(k, _) => k,
        Mutation::Erase(k) => k,
    }
}

/// The effect of one mutation on a key-value mapping.
pub open spec fn apply(kv: Map<Seq<char>, Seq<char>>, m: Mutation) -> Map<Seq<char>, Seq<char>> {
    match m {
        Mutation::Write(k, v) => kv.insert(k, v),
        Mutation::Erase(k) => kv.remove(k),
    }
}

/// The key-value mapping that a sequence of mutations leaves, applied oldest first.
pub open spec fn replay(ms: Seq<Mutation>) -> Map<Seq<char>, Seq<char>>
    decreases ms.len(),
{
    if ms.len() == 0 {
        Map::empty()
    } else {
        apply(replay(ms.drop_last()), ms.last())
    }
}

/// Whether some mutation of the sequence is about key `k`.
pub open spec fn touches(ms: Seq<Mutation>, k: Seq<char>) -> bool {
    exists|i: int| 0 <= i < ms.len() && key_of(#[trigger] ms[i]) == k
}

/// Replaying one more mutation applies it.
pub proof fn lemma_replay_push(ms: Seq<Mutation>, m: Mutation)
    ensures
        replay(ms.push(m)) == apply(replay(ms), m),
{
    assert(ms.push(m).drop_last() =~= ms);
}

/// Replaying two histories in turn: the second one decides every key that it touches.
pub proof fn lemma_replay_concat(h: Seq<Mutation>, e: Seq<Mutation>)
    ensures
        forall|k: Seq<char>|
            #![trigger replay(h + e).contains_key(k)]
            {
                &&& touches(e, k) ==> (replay(h + e).contains_key(k) <==> replay(e).contains_key(k))
                &&& touches(e, k) && replay(e).contains_key(k) ==> replay(h + e)[k] == replay(e)[k]
                &&& !touches(e, k) ==> (replay(h + e).contains_key(k) <==> replay(h).contains_key(k))
                &&& !touches(e, k) && replay(h).contains_key(k) ==> replay(h + e)[k] == replay(h)[k]
            },
    decreases e.len(),
{
    if e.len() == 0 {
        assert(h + e =~= h);
    } else {
        let e0 = e.drop_last();
        let last = e.last();
        lemma_replay_concat(h, e0);
        assert((h + e).drop_last() =~= h + e0);
        assert((h + e).last() == last);
        assert(replay(h + e) == apply(replay(h + e0), last));
        assert(replay(e) == apply(replay(e0), last));
        assert forall|k: Seq<char>| #[trigger] touches(e, k) implies touches(e0, k) || key_of(last)
            == k by {
            let i = choose|i: int| 0 <= i < e.len() && key_of(#[trigger] e[i]) == k;
            if i < e.len() - 1 {
                assert(e0[i] == e[i]);
            }
        }
        assert forall|k: Seq<char>| #[trigger] touches(e0, k) implies touches(e, k) by {
            let i = choose|i: int| 0 <= i < e0.len() && key_of(#[trigger] e0[i]) == k;
            assert(e[i] == e0[i]);
        }
        assert(touches(e, key_of(last))) by {
            assert(key_of(e[e.len() - 1]) == key_of(last));
        }
        assert forall|k: Seq<char>| #![trigger replay(h + e).contains_key(k)] {
                &&& touches(e, k) ==> (replay(h + e).contains_key(k) <==> replay(e).contains_key(k))
                &&& touches(e, k) && replay(e).contains_key(k) ==> replay(h + e)[k] == replay(e)[k]
                &&& !touches(e, k) ==> (replay(h + e).contains_key(k) <==> replay(h).contains_key(k))
                &&& !touches(e, k) && replay(h).contains_key(k) ==> replay(h + e)[k] == replay(h)[k]
            } by {
            assert(replay(h + e0).contains_key(k) == replay(h + e0).contains_key(k));
            if key_of(last) != k {
                assert(touches(e, k) == touches(e0, k));
            }
        }
    }
}

} // verus!
