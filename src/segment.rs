use vstd::prelude::*;
use vstd::utf8::*;

use crate::codec::{
    all_encodable, decode_from, encodable, entry_bytes, key_of, lemma_log_bytes_push,
    lemma_parse_entry, lemma_parse_entry_bytes, lemma_replay_push, log_bytes, parse_entry,
    parse_log, replay, touches, Entry, Mutation,
};
use crate::error::{Error, ErrorKind, Result};
use crate::hint::{bump, hint_file, Hint};
use crate::index::lookup;

verus! {

/// The segment and the byte offset of a live write.
#[derive(Debug)]
pub struct Pointer {
    filename: String,
    offset: u64,
}

impl Pointer {
    /// The name of the segment.
    pub closed spec fn file(&self) -> Seq<char> {
        self.filename@
    }

    /// The offset of the write in the segment's log.
    pub closed spec fn at(&self) -> u64 {
        self.offset
    }

    /// A pointer to `offset` in the segment named `filename`.
    pub fn new(filename: String, offset: u64) -> (r: Pointer)
        ensures
            r.file() == filename@,
            r.at() == offset,
    {
        Pointer { filename, offset }
    }

    /// The name of the segment.
    pub fn path(&self) -> (r: &String)
        ensures
            r@ == self.file(),
    {
        &self.filename
    }

    /// The offset of the write in the segment's log.
    pub fn offset(&self) -> (r: u64)
        ensures
            r == self.at(),
    {
        self.offset
    }
}

/// The log holds, at `off`, the encoding of a write of `v` under `k`.
pub open spec fn holds_write(log: Seq<u8>, off: int, k: Seq<char>, v: Seq<char>) -> bool {
    let e = entry_bytes(Mutation::Write(k, v));
    &&& encodable(Mutation::Write(k, v))
    &&& 0 <= off
    &&& off + e.len() <= log.len()
    &&& log.subrange(off, off + e.len()) == e
}

/// What a hint must say of the mutations `es` logged in `log`: which keys they touch,
/// and where the write that each live key keeps was logged.
pub open spec fn summarizes(
    offsets: Map<Seq<char>, u64>,
    counts: Map<Seq<char>, u64>,
    es: Seq<Mutation>,
    log: Seq<u8>,
) -> bool {
    &&& forall|k: Seq<char>| #[trigger] counts.contains_key(k) <==> touches(es, k)
    &&& forall|k: Seq<char>| #[trigger] offsets.contains_key(k) <==> replay(es).contains_key(k)
    &&& forall|k: Seq<char>|
        #[trigger] offsets.contains_key(k) ==> holds_write(log, offsets[k] as int, k, replay(es)[k])
    &&& forall|k: Seq<char>| #[trigger] counts.contains_key(k) ==> counts[k] == touch_count(es, k)
    &&& forall|k: Seq<char>|
        #[trigger] offsets.contains_key(k) ==> offsets[k] == last_touch_offset(es, k)
}

/// How many mutations touch `k`, staying at the largest u64 once there.
pub open spec fn touch_count(es: Seq<Mutation>, k: Seq<char>) -> u64
    decreases es.len(),
{
    if es.len() == 0 {
        0
    } else {
        let c = touch_count(es.drop_last(), k);
        if key_of(es.last()) == k {
            if c == u64::MAX {
                c
            } else {
                (c + 1) as u64
            }
        } else {
            c
        }
    }
}

/// The offset in the log at which the last mutation that touches `k` starts.
pub open spec fn last_touch_offset(es: Seq<Mutation>, k: Seq<char>) -> int
    decreases es.len(),
{
    if es.len() == 0 {
        0
    } else if key_of(es.last()) == k {
        log_bytes(es.drop_last()).len() as int
    } else {
        last_touch_offset(es.drop_last(), k)
    }
}

proof fn lemma_touch_count_zero(es: Seq<Mutation>, k: Seq<char>)
    requires
        !touches(es, k),
    ensures
        touch_count(es, k) == 0,
    decreases es.len(),
{
    if es.len() > 0 {
        assert(es[es.len() - 1] == es.last());
        assert forall|i: int| 0 <= i < es.drop_last().len() implies key_of(#[trigger] es.drop_last()[i]) != k by {
            assert(es.drop_last()[i] == es[i]);
        }
        lemma_touch_count_zero(es.drop_last(), k);
    }
}

/// A write stays where it was when the log grows at its end.
pub proof fn lemma_holds_write_extend(log: Seq<u8>, log2: Seq<u8>, off: int, k: Seq<char>, v: Seq<char>)
    requires
        holds_write(log, off, k, v),
        log.len() <= log2.len(),
        log2.subrange(0, log.len() as int) == log,
    ensures
        holds_write(log2, off, k, v),
{
    let e = entry_bytes(Mutation::Write(k, v));
    let a = log2.subrange(off, off + e.len());
    let b = log.subrange(off, off + e.len());
    assert forall|i: int| 0 <= i < e.len() implies #[trigger] a[i] == b[i] by {
        assert(log2[off + i] == log2.subrange(0, log.len() as int)[off + i]);
    }
    assert(a =~= b);
}

/// The write at `off` decodes as that write.
pub proof fn lemma_holds_write_parse(log: Seq<u8>, off: int, k: Seq<char>, v: Seq<char>)
    requires
        holds_write(log, off, k, v),
    ensures
        parse_entry(log.subrange(off, log.len() as int)) == Some(
            (Mutation::Write(k, v), entry_bytes(Mutation::Write(k, v)).len() as int),
        ),
{
    let m = Mutation::Write(k, v);
    let e = entry_bytes(m);
    let tail = log.subrange(off + e.len(), log.len() as int);
    assert(log.subrange(off, log.len() as int) =~= e + tail);
    lemma_parse_entry(m, tail);
}

proof fn lemma_touches_push(es: Seq<Mutation>, m: Mutation)
    ensures
        forall|k: Seq<char>|
            #[trigger] touches(es.push(m), k) <==> (touches(es, k) || key_of(m) == k),
{
    assert forall|k: Seq<char>| #[trigger]
        touches(es.push(m), k) <==> (touches(es, k) || key_of(m) == k) by {
        if touches(es, k) {
            let i = choose|i: int| 0 <= i < es.len() && key_of(#[trigger] es[i]) == k;
            assert(es.push(m)[i] == es[i]);
        }
        if key_of(m) == k {
            assert(es.push(m)[es.len() as int] == m);
        }
        if touches(es.push(m), k) && key_of(m) != k {
            let i = choose|i: int| 0 <= i < es.push(m).len() && key_of(#[trigger] es.push(m)[i]) == k;
            assert(es[i] == es.push(m)[i]);
        }
    }
}

/// A hint stays a summary when a write is logged and recorded in it.
pub proof fn lemma_summarizes_write(
    offsets: Map<Seq<char>, u64>,
    counts: Map<Seq<char>, u64>,
    es: Seq<Mutation>,
    log: Seq<u8>,
    log2: Seq<u8>,
    off: u64,
    k: Seq<char>,
    v: Seq<char>,
    c: u64,
)
    requires
        summarizes(offsets, counts, es, log),
        log.len() <= log2.len(),
        log2.subrange(0, log.len() as int) == log,
        holds_write(log2, off as int, k, v),
        c == bump(lookup(counts, k)),
        off == log_bytes(es).len(),
    ensures
        summarizes(offsets.insert(k, off), counts.insert(k, c), es.push(Mutation::Write(k, v)), log2),
{
    let m = Mutation::Write(k, v);
    lemma_touches_push(es, m);
    lemma_replay_push(es, m);
    assert(es.push(m).drop_last() =~= es);
    if !touches(es, k) {
        lemma_touch_count_zero(es, k);
    }
    assert forall|k2: Seq<char>| #[trigger] offsets.insert(k, off).contains_key(k2) implies holds_write(
        log2,
        offsets.insert(k, off)[k2] as int,
        k2,
        replay(es.push(m))[k2],
    ) by {
        if k2 != k {
            lemma_holds_write_extend(log, log2, offsets[k2] as int, k2, replay(es)[k2]);
        }
    }
}

/// A hint stays a summary when a removal is logged and recorded in it.
pub proof fn lemma_summarizes_erase(
    offsets: Map<Seq<char>, u64>,
    counts: Map<Seq<char>, u64>,
    es: Seq<Mutation>,
    log: Seq<u8>,
    log2: Seq<u8>,
    k: Seq<char>,
    c: u64,
)
    requires
        summarizes(offsets, counts, es, log),
        log.len() <= log2.len(),
        log2.subrange(0, log.len() as int) == log,
        c == bump(lookup(counts, k)),
    ensures
        summarizes(offsets.remove(k), counts.insert(k, c), es.push(Mutation::Erase(k)), log2),
{
    let m = Mutation::Erase(k);
    lemma_touches_push(es, m);
    lemma_replay_push(es, m);
    assert(es.push(m).drop_last() =~= es);
    if !touches(es, k) {
        lemma_touch_count_zero(es, k);
    }
    assert forall|k2: Seq<char>| #[trigger] offsets.remove(k).contains_key(k2) implies holds_write(
        log2,
        offsets.remove(k)[k2] as int,
        k2,
        replay(es.push(m))[k2],
    ) by {
        lemma_holds_write_extend(log, log2, offsets[k2] as int, k2, replay(es)[k2]);
    }
}

/// Text whose UTF-8 length a u64 holds.
fn text_fits(s: &String)
    ensures
        encode_utf8(s@).len() <= u64::MAX,
{
    let b = s.as_str().as_bytes();
    let _n = b.len();
}

/// A segment: a log of entries in append order under a unique name, with the hint
/// that summarizes it.
pub struct Segment {
    name: String,
    log: Vec<u8>,
    hint: Hint,
    entries: Ghost<Seq<Mutation>>,
}

impl Segment {
    /// The segment's name.
    pub closed spec fn name_view(&self) -> Seq<char> {
        self.name@
    }

    /// The bytes of the segment's log.
    pub closed spec fn log_view(&self) -> Seq<u8> {
        self.log@
    }

    /// The mutations that the log holds, oldest first.
    pub closed spec fn history(&self) -> Seq<Mutation> {
        self.entries@
    }

    /// The key-value mapping that the segment's own log leaves.
    pub open spec fn contents(&self) -> Map<Seq<char>, Seq<char>> {
        replay(self.history())
    }

    /// The log is exactly the encoding of its mutations, and the hint summarizes them.
    pub closed spec fn wf(&self) -> bool {
        &&& self.hint.wf()
        &&& self.log@.len() <= usize::MAX
        &&& self.log@ == log_bytes(self.entries@)
        &&& all_encodable(self.entries@)
        &&& summarizes(self.hint.offsets(), self.hint.counts(), self.entries@, self.log@)
    }

    /// The segment's hint, as a summary of its log.
    pub proof fn lemma_hint(&self)
        requires
            self.wf(),
        ensures
            self.hint_view().wf(),
            summarizes(
                self.hint_view().offsets(),
                self.hint_view().counts(),
                self.history(),
                self.log_view(),
            ),
            self.log_view() == log_bytes(self.history()),
            all_encodable(self.history()),
            self.log_view().len() <= usize::MAX,
    {
    }

    /// The offset of each live key, as the segment's hint records it.
    pub open spec fn offsets(&self) -> Map<Seq<char>, u64> {
        self.hint_view().offsets()
    }

    /// The segment's hint.
    pub closed spec fn hint_view(&self) -> Hint {
        self.hint
    }

    /// An empty segment under `name`.
    pub fn new(name: String) -> (r: Segment)
        ensures
            r.wf(),
            r.name_view() == name@,
            r.log_view() == Seq::<u8>::empty(),
            r.history() == Seq::<Mutation>::empty(),
    {
        let r = Segment { name, log: Vec::new(), hint: Hint::new(), entries: Ghost(Seq::empty()) };
        assert(log_bytes(Seq::<Mutation>::empty()) =~= Seq::<u8>::empty());
        assert forall|k: Seq<char>| !touches(Seq::<Mutation>::empty(), k) by {}
        assert(replay(Seq::<Mutation>::empty()) == Map::<Seq<char>, Seq<char>>::empty());
        r
    }

    /// Opens the segment `name` whose log holds `log`, and rebuilds its hint by scanning
    /// the log. Fails if the log is not exactly a sequence of entries.
    pub fn open(name: String, log: Vec<u8>) -> (r: Result<Segment>)
        ensures
            match parse_log(log@) {
                None => r == Err::<Segment, Error>(Error { kind: ErrorKind::InvalidLogEntry }),
                Some(ms) => r matches Ok(s) && s.wf() && s.name_view() == name@ && s.log_view()
                    == log@ && s.history() == ms && summarizes(
                    s.offsets(),
                    s.hint_view().counts(),
                    ms,
                    log@,
                ),
            },
    {
        let mut hint = Hint::new();
        let mut pos: usize = 0;
        let ghost mut es: Seq<Mutation> = seq![];
        assert(log@.subrange(0, 0) =~= log_bytes(es));
        assert(log@.subrange(0, log@.len() as int) =~= log@);
        assert forall|k: Seq<char>| !touches(es, k) by {}
        while pos < log.len()
            invariant
                pos <= log@.len(),
                log@.subrange(0, pos as int) == log_bytes(es),
                all_encodable(es),
                parse_log(log@) == match parse_log(log@.subrange(pos as int, log@.len() as int)) {
                    None => None,
                    Some(rest) => Some(es + rest),
                },
                hint.wf(),
                summarizes(hint.offsets(), hint.counts(), es, log@),
            decreases log@.len() - pos,
        {
            let ghost b = log@.subrange(pos as int, log@.len() as int);
            match decode_from(log.as_slice(), pos) {
                Err(e) => {
                    return Err(e);
                },
                Ok((entry, n)) => {
                    proof {
                        assert(log@.subrange(0, log@.len() as int) =~= log@);
                        lemma_parse_entry_bytes(b);
                        assert(b.subrange(n as int, b.len() as int) =~= log@.subrange(
                            pos + n,
                            log@.len() as int,
                        ));
                        let m = entry@;
                        assert(log@.subrange(0, pos + n) =~= log@.subrange(0, pos as int)
                            + b.subrange(0, n as int));
                        lemma_log_bytes_push(es, m);
                        assert forall|i: int| 0 <= i < es.push(m).len() implies encodable(
                            #[trigger] es.push(m)[i],
                        ) by {
                            if i < es.len() {
                                assert(es.push(m)[i] == es[i]);
                            }
                        }
                        assert(es + (seq![m] + parse_log(log@.subrange(pos + n, log@.len() as int))->0)
                            =~= es.push(m) + parse_log(log@.subrange(pos + n, log@.len() as int))->0);
                    }
                    let ghost m = entry@;
                    match entry {
                        Entry::Put(k, v) => {
                            proof {
                                assert(log@.subrange(pos as int, pos + n) =~= b.subrange(0, n as int));
                                lemma_summarizes_write(
                                    hint.offsets(),
                                    hint.counts(),
                                    es,
                                    log@,
                                    log@,
                                    pos as u64,
                                    k@,
                                    v@,
                                    bump(lookup(hint.counts(), k@)),
                                );
                            }
                            hint.set(k, pos as u64);
                        },
                        Entry::Rm(k) => {
                            proof {
                                lemma_summarizes_erase(
                                    hint.offsets(),
                                    hint.counts(),
                                    es,
                                    log@,
                                    log@,
                                    k@,
                                    bump(lookup(hint.counts(), k@)),
                                );
                            }
                            hint.remove(&k);
                        },
                    }
                    proof {
                        es = es.push(m);
                    }
                    pos = pos + n;
                },
            }
        }
        proof {
            assert(log@.subrange(pos as int, log@.len() as int) =~= Seq::<u8>::empty());
            assert(es + Seq::<Mutation>::empty() =~= es);
            assert(log@.subrange(0, pos as int) =~= log@);
        }
        let _len = log.len();
        Ok(Segment { name, log, hint, entries: Ghost(es) })
    }

    /// Appends a write of `value` under `key`, and returns where it starts. Fails,
    /// changing nothing, when the log would outgrow the address space.
    pub fn set(&mut self, key: String, value: String) -> (r: Result<Pointer>)
        requires
            old(self).wf(),
        ensures
            final(self).wf(),
            final(self).name_view() == old(self).name_view(),
            r is Ok <==> old(self).log_view().len() + entry_bytes(Mutation::Write(key@, value@)).len()
                <= usize::MAX,
            match r {
                Ok(p) => {
                    &&& p.file() == old(self).name_view()
                    &&& p.at() == old(self).log_view().len()
                    &&& final(self).log_view() == old(self).log_view() + entry_bytes(
                        Mutation::Write(key@, value@),
                    )
                    &&& final(self).history() == old(self).history().push(
                        Mutation::Write(key@, value@),
                    )
                    &&& final(self).offsets() == old(self).offsets().insert(key@, p.at())
                    &&& final(self).hint_view().counts() == old(self).hint_view().counts().insert(
                        key@,
                        bump(lookup(old(self).hint_view().counts(), key@)),
                    )
                },
                Err(e) => {
                    &&& e.kind == ErrorKind::Io
                    &&& *final(self) == *old(self)
                },
            },
    {
        text_fits(&key);
        text_fits(&value);
        let k = key.clone();
        let entry = Entry::Put(key, value);
        let ghost m = entry@;
        let buf = entry.encode();
        if buf.len() > usize::MAX - self.log.len() {
            return Err(Error { kind: ErrorKind::Io });
        }
        let off = self.log.len() as u64;
        let ghost old_log = self.log@;
        self.log.extend_from_slice(buf.as_slice());
        let _len = self.log.len();
        proof {
            assert(self.log@.subrange(0, old_log.len() as int) =~= old_log);
            assert(self.log@.subrange(off as int, off + buf@.len()) =~= buf@);
            lemma_summarizes_write(
                self.hint.offsets(),
                self.hint.counts(),
                self.entries@,
                old_log,
                self.log@,
                off,
                k@,
                m->Write_1,
                bump(lookup(self.hint.counts(), k@)),
            );
            lemma_log_bytes_push(self.entries@, m);
            assert forall|i: int| 0 <= i < self.entries@.push(m).len() implies encodable(
                #[trigger] self.entries@.push(m)[i],
            ) by {
                if i < self.entries@.len() {
                    assert(self.entries@.push(m)[i] == self.entries@[i]);
                }
            }
        }
        self.hint.set(k, off);
        self.entries = Ghost(self.entries@.push(m));
        assert(self.hint.wf());
        assert(self.log@ == log_bytes(self.entries@));
        assert(all_encodable(self.entries@));
        assert(summarizes(self.hint.offsets(), self.hint.counts(), self.entries@, self.log@));
        Ok(Pointer::new(self.name.clone(), off))
    }

    /// Appends a tombstone for `key`. Fails, changing nothing, when the log would
    /// outgrow the address space.
    pub fn remove(&mut self, key: &String) -> (r: Result<()>)
        requires
            old(self).wf(),
        ensures
            final(self).wf(),
            final(self).name_view() == old(self).name_view(),
            r is Ok <==> old(self).log_view().len() + entry_bytes(Mutation::Erase(key@)).len()
                <= usize::MAX,
            match r {
                Ok(_) => {
                    &&& final(self).log_view() == old(self).log_view() + entry_bytes(
                        Mutation::Erase(key@),
                    )
                    &&& final(self).history() == old(self).history().push(Mutation::Erase(key@))
                    &&& final(self).offsets() == old(self).offsets().remove(key@)
                    &&& final(self).hint_view().counts() == old(self).hint_view().counts().insert(
                        key@,
                        bump(lookup(old(self).hint_view().counts(), key@)),
                    )
                },
                Err(e) => {
                    &&& e.kind == ErrorKind::Io
                    &&& *final(self) == *old(self)
                },
            },
    {
        text_fits(key);
        let entry = Entry::Rm(key.clone());
        let ghost m = entry@;
        let buf = entry.encode();
        if buf.len() > usize::MAX - self.log.len() {
            return Err(Error { kind: ErrorKind::Io });
        }
        let ghost old_log = self.log@;
        self.log.extend_from_slice(buf.as_slice());
        let _len = self.log.len();
        proof {
            assert(self.log@.subrange(0, old_log.len() as int) =~= old_log);
            lemma_summarizes_erase(
                self.hint.offsets(),
                self.hint.counts(),
                self.entries@,
                old_log,
                self.log@,
                key@,
                bump(lookup(self.hint.counts(), key@)),
            );
            lemma_log_bytes_push(self.entries@, m);
            assert forall|i: int| 0 <= i < self.entries@.push(m).len() implies encodable(
                #[trigger] self.entries@.push(m)[i],
            ) by {
                if i < self.entries@.len() {
                    assert(self.entries@.push(m)[i] == self.entries@[i]);
                }
            }
        }
        self.hint.remove(key);
        self.entries = Ghost(self.entries@.push(m));
        assert(self.hint.wf());
        assert(self.log@ == log_bytes(self.entries@));
        assert(all_encodable(self.entries@));
        assert(summarizes(self.hint.offsets(), self.hint.counts(), self.entries@, self.log@));
        Ok(())
    }

    /// The value of the write that starts at `offset`. Fails when the offset lies past
    /// the log, or the bytes there are not a write.
    pub fn value_at(&self, offset: u64) -> (r: Result<String>)
        ensures
            offset > self.log_view().len() ==> r == Err::<String, Error>(
                Error { kind: ErrorKind::InvalidLogPointer },
            ),
            offset <= self.log_view().len() ==> match parse_entry(
                self.log_view().subrange(offset as int, self.log_view().len() as int),
            ) {
                Some((Mutation::Write(_, v), _)) => r matches Ok(s) && s@ == v,
                _ => r == Err::<String, Error>(Error { kind: ErrorKind::InvalidLogEntry }),
            },
    {
        if offset > self.log.len() as u64 {
            return Err(Error { kind: ErrorKind::InvalidLogPointer });
        }
        match decode_from(self.log.as_slice(), offset as usize) {
            Ok((Entry::Put(_, v), _)) => Ok(v),
            _ => Err(Error { kind: ErrorKind::InvalidLogEntry }),
        }
    }

    /// The value that the segment's own log leaves under `key`, found through the hint.
    pub fn get(&self, key: &str) -> (r: Result<Option<String>>)
        requires
            self.wf(),
        ensures
            r matches Ok(o) && (o is Some <==> self.contents().contains_key(key@)) && (o matches Some(
                v,
            ) ==> v@ == self.contents()[key@]),
    {
        match self.hint.get(key) {
            None => Ok(None),
            Some(off) => {
                proof {
                    assert(self.hint.offsets().contains_key(key@));
                    lemma_holds_write_parse(self.log@, off as int, key@, replay(self.entries@)[key@]);
                }
                match self.value_at(off) {
                    Ok(v) => Ok(Some(v)),
                    Err(e) => Err(e),
                }
            },
        }
    }

    /// The size of the log in bytes.
    pub fn size(&self) -> (r: u64)
        ensures
            r == self.log_view().len(),
    {
        self.log.len() as u64
    }

    /// The segment's name.
    pub fn path(&self) -> (r: &String)
        ensures
            r@ == self.name_view(),
    {
        &self.name
    }

    /// The bytes of the segment's log.
    pub fn log(&self) -> (r: &Vec<u8>)
        ensures
            r@ == self.log_view(),
    {
        &self.log
    }

    /// The segment's hint.
    pub fn hint(&self) -> (r: &Hint)
        ensures
            *r == self.hint_view(),
    {
        &self.hint
    }

    /// The bytes of the segment's hint file: written in full, replacing what was there.
    pub fn flush(&self) -> (r: Vec<u8>)
        ensures
            r@ == hint_file(
                self.hint_view().key_list(),
                self.hint_view().counts(),
                self.hint_view().offsets(),
            ),
    {
        self.hint.encode()
    }

}

} // verus!
