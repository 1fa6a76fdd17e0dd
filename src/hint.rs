use vstd::bytes::*;
use vstd::prelude::*;
use vstd::utf8::*;

use vstd::slice::slice_subrange;

use crate::codec::{decode_text, lemma_parse_text_bytes, text_bytes};
use crate::error::{Error, ErrorKind, Result};
use crate::index::{lookup, Index};

verus! {

/// The per-segment summary of a log: where each live key was last written, and how
/// often each key was written or removed.
pub struct Hint {
    keys: Vec<String>,
    offset: Index,
    count: Index,
}

/// Adds one to a count, staying at the largest value once there.
pub open spec fn bump(c: Option<u64>) -> u64 {
    match c {
        None => 1,
        Some(n) => if n == u64::MAX {
            n
        } else {
            (n + 1) as u64
        },
    }
}


/// One record of a hint file: the key, its count, and its offset when it is live.
pub open spec fn hint_record(k: Seq<char>, count: Option<u64>, offset: Option<u64>) -> Seq<u8> {
    text_bytes(k) + spec_u64_to_le_bytes(
        match count {
            Some(c) => c,
            None => 0,
        },
    ) + match offset {
        Some(o) => seq![1u8] + spec_u64_to_le_bytes(o),
        None => seq![0u8],
    }
}

/// The records of a hint file for `keys`, in order.
pub open spec fn hint_records(
    keys: Seq<Seq<char>>,
    counts: Map<Seq<char>, u64>,
    offsets: Map<Seq<char>, u64>,
) -> Seq<u8>
    decreases keys.len(),
{
    if keys.len() == 0 {
        seq![]
    } else {
        hint_records(keys.drop_last(), counts, offsets) + hint_record(
            keys.last(),
            lookup(counts, keys.last()),
            lookup(offsets, keys.last()),
        )
    }
}

/// A hint file: the number of records as eight little-endian bytes, then the records.
pub open spec fn hint_file(
    keys: Seq<Seq<char>>,
    counts: Map<Seq<char>, u64>,
    offsets: Map<Seq<char>, u64>,
) -> Seq<u8> {
    spec_u64_to_le_bytes(keys.len() as u64) + hint_records(keys, counts, offsets)
}


proof fn lemma_records_frame(
    keys: Seq<Seq<char>>,
    counts: Map<Seq<char>, u64>,
    offsets: Map<Seq<char>, u64>,
    counts2: Map<Seq<char>, u64>,
    offsets2: Map<Seq<char>, u64>,
)
    requires
        forall|i: int| 0 <= i < keys.len() ==> lookup(counts2, #[trigger] keys[i]) == lookup(counts, keys[i])
            && lookup(offsets2, keys[i]) == lookup(offsets, keys[i]),
    ensures
        hint_records(keys, counts2, offsets2) == hint_records(keys, counts, offsets),
    decreases keys.len(),
{
    if keys.len() > 0 {
        let k2 = keys.drop_last();
        assert forall|i: int| 0 <= i < k2.len() implies lookup(counts2, #[trigger] k2[i]) == lookup(counts, k2[i])
            && lookup(offsets2, k2[i]) == lookup(offsets, k2[i]) by {
            assert(k2[i] == keys[i]);
        }
        lemma_records_frame(k2, counts, offsets, counts2, offsets2);
        assert(keys[keys.len() - 1] == keys.last());
    }
}

fn read_u64(buf: &[u8], pos: usize) -> (r: Option<u64>)
    requires
        pos <= buf@.len(),
    ensures
        match r {
            Some(n) => pos + 8 <= buf@.len() && buf@.subrange(pos as int, pos + 8) == spec_u64_to_le_bytes(n),
            None => pos + 8 > buf@.len(),
        },
{
    if buf.len() - pos < 8 {
        return None;
    }
    let b = slice_subrange(buf, pos, pos + 8);
    let n = u64_from_le_bytes(b);
    proof {
        lemma_auto_spec_u64_to_from_le_bytes();
    }
    Some(n)
}

impl Hint {
    /// The most recent live position of each key.
    pub closed spec fn offsets(&self) -> Map<Seq<char>, u64> {
        self.offset@
    }

    /// How often each key was written or removed.
    pub closed spec fn counts(&self) -> Map<Seq<char>, u64> {
        self.count@
    }

    /// The keys with a count, in the order they first appeared.
    pub closed spec fn key_list(&self) -> Seq<Seq<char>> {
        self.keys@.map_values(|s: String| s@)
    }

    /// The keys are distinct and are exactly those with a count; every key with an
    /// offset has a count.
    pub closed spec fn wf(&self) -> bool {
        &&& forall|i: int, j: int|
            0 <= i < j < self.keys@.len() ==> self.keys@[i]@ != self.keys@[j]@
        &&& forall|k: Seq<char>|
            #![trigger self.count@.contains_key(k)]
            self.count@.contains_key(k) <==> exists|i: int|
                0 <= i < self.keys@.len() && self.keys@[i]@ == k
        &&& forall|k: Seq<char>|
            self.offset@.contains_key(k) ==> #[trigger] self.count@.contains_key(k)
    }

    /// The well-formedness facts, in terms of the spec views.
    pub proof fn lemma_wf(&self)
        requires
            self.wf(),
        ensures
            forall|i: int, j: int|
                0 <= i < j < self.key_list().len() ==> self.key_list()[i]
                    != self.key_list()[j],
            forall|k: Seq<char>|
                #![trigger self.counts().contains_key(k)]
                self.counts().contains_key(k) <==> self.key_list().contains(k),
            forall|k: Seq<char>|
                self.offsets().contains_key(k) ==> #[trigger] self.counts().contains_key(k),
    {
        assert forall|k: Seq<char>| #![trigger self.counts().contains_key(k)]
            self.counts().contains_key(k) <==> self.key_list().contains(k) by {
            if self.counts().contains_key(k) {
                let i = choose|i: int| 0 <= i < self.keys@.len() && self.keys@[i]@ == k;
                assert(self.key_list()[i] == k);
            }
            if self.key_list().contains(k) {
                let i = choose|i: int| 0 <= i < self.key_list().len() && self.key_list()[i] == k;
                assert(self.keys@[i]@ == k);
            }
        }
    }

    /// An empty hint.
    pub fn new() -> (r: Hint)
        ensures
            r.wf(),
            r.offsets() == Map::<Seq<char>, u64>::empty(),
            r.counts() == Map::<Seq<char>, u64>::empty(),
            r.key_list() == Seq::<Seq<char>>::empty(),
    {
        let r = Hint { keys: Vec::new(), offset: Index::new(), count: Index::new() };
        assert(r.key_list() =~= Seq::<Seq<char>>::empty());
        r
    }

    fn note(&mut self, key: &String)
        requires
            old(self).wf(),
        ensures
            final(self).wf(),
            final(self).offsets() == old(self).offsets(),
            final(self).counts() == old(self).counts().insert(
                key@,
                bump(lookup(old(self).counts(), key@)),
            ),
            final(self).key_list() == if old(self).counts().contains_key(key@) {
                old(self).key_list()
            } else {
                old(self).key_list().push(key@)
            },
    {
        let c = self.count.get(key.as_str());
        let n: u64 = match c {
            None => 1,
            Some(n) => if n == u64::MAX {
                n
            } else {
                n + 1
            },
        };
        if c.is_none() {
            self.keys.push(key.clone());
        }
        self.count.set(key.clone(), n);
        proof {
            assert(final(self).key_list() =~= if old(self).counts().contains_key(key@) {
                old(self).key_list()
            } else {
                old(self).key_list().push(key@)
            });
            assert forall|k: Seq<char>| #![trigger self.count@.contains_key(k)]
                self.count@.contains_key(k) <==> exists|i: int|
                    0 <= i < self.keys@.len() && self.keys@[i]@ == k by {
                if k != key@ && self.count@.contains_key(k) {
                    let i = choose|i: int|
                        0 <= i < old(self).keys@.len() && old(self).keys@[i]@ == k;
                    assert(self.keys@[i]@ == k);
                }
                if k == key@ && c.is_none() {
                    assert(self.keys@[self.keys@.len() - 1]@ == k);
                }
                if exists|i: int| 0 <= i < self.keys@.len() && self.keys@[i]@ == k {
                    let i = choose|i: int| 0 <= i < self.keys@.len() && self.keys@[i]@ == k;
                    if i < old(self).keys@.len() {
                        assert(old(self).keys@[i]@ == k);
                    }
                }
            }
        }
    }

    /// Records a write of `key` at `offset`.
    pub fn set(&mut self, key: String, offset: u64)
        requires
            old(self).wf(),
        ensures
            final(self).wf(),
            final(self).offsets() == old(self).offsets().insert(key@, offset),
            final(self).counts() == old(self).counts().insert(
                key@,
                bump(lookup(old(self).counts(), key@)),
            ),
            final(self).key_list() == if old(self).counts().contains_key(key@) {
                old(self).key_list()
            } else {
                old(self).key_list().push(key@)
            },
    {
        self.note(&key);
        let ghost k0 = key@;
        let ghost pre = *self;
        self.offset.set(key, offset);
        proof {
            assert(self.keys@ == pre.keys@ && self.count@ == pre.count@);
            assert forall|k: Seq<char>| #![trigger self.count@.contains_key(k)]
                self.count@.contains_key(k) <==> exists|i: int|
                    0 <= i < self.keys@.len() && self.keys@[i]@ == k by {
                assert(pre.count@.contains_key(k) <==> exists|i: int|
                    0 <= i < pre.keys@.len() && pre.keys@[i]@ == k);
            }
        }
    }

    /// Records a removal of `key`.
    pub fn remove(&mut self, key: &String)
        requires
            old(self).wf(),
        ensures
            final(self).wf(),
            final(self).offsets() == old(self).offsets().remove(key@),
            final(self).counts() == old(self).counts().insert(
                key@,
                bump(lookup(old(self).counts(), key@)),
            ),
            final(self).key_list() == if old(self).counts().contains_key(key@) {
                old(self).key_list()
            } else {
                old(self).key_list().push(key@)
            },
    {
        self.note(key);
        let ghost pre = *self;
        self.offset.remove(key.as_str());
        proof {
            assert(self.keys@ == pre.keys@ && self.count@ == pre.count@);
            assert forall|k: Seq<char>| #![trigger self.count@.contains_key(k)]
                self.count@.contains_key(k) <==> exists|i: int|
                    0 <= i < self.keys@.len() && self.keys@[i]@ == k by {
                assert(pre.count@.contains_key(k) <==> exists|i: int|
                    0 <= i < pre.keys@.len() && pre.keys@[i]@ == k);
            }
        }
    }

    /// The most recent live position of `key`.
    pub fn get(&self, key: &str) -> (r: Option<u64>)
        ensures
            r == lookup(self.offsets(), key@),
    {
        self.offset.get(key)
    }

    /// The positions, by key.
    pub fn offset(&self) -> (r: &Index)
        ensures
            r@ == self.offsets(),
    {
        &self.offset
    }

    /// The counts, by key.
    pub fn count(&self) -> (r: &Index)
        ensures
            r@ == self.counts(),
    {
        &self.count
    }

    /// The keys with a count, in the order they first appeared.
    pub fn keys(&self) -> (r: &Vec<String>)
        ensures
            r@.map_values(|s: String| s@) == self.key_list(),
    {
        &self.keys
    }

    /// The bytes of the hint file that records this hint.
    pub fn encode(&self) -> (r: Vec<u8>)
        ensures
            r@ == hint_file(self.key_list(), self.counts(), self.offsets()),
    {
        let mut buf = u64_to_le_bytes(self.keys.len() as u64);
        let ghost head = buf@;
        let mut i: usize = 0;
        while i < self.keys.len()
            invariant
                i <= self.keys@.len(),
                head == spec_u64_to_le_bytes(self.keys@.len() as u64),
                buf@ == head + hint_records(
                    self.key_list().subrange(0, i as int),
                    self.count@,
                    self.offset@,
                ),
            decreases self.keys@.len() - i,
        {
            let k = &self.keys[i];
            crate::codec::push_text(&mut buf, k);
            let c = match self.count.get(k.as_str()) {
                Some(c) => c,
                None => 0,
            };
            let cb = u64_to_le_bytes(c);
            buf.extend_from_slice(cb.as_slice());
            match self.offset.get(k.as_str()) {
                Some(o) => {
                    buf.push(1);
                    let ob = u64_to_le_bytes(o);
                    buf.extend_from_slice(ob.as_slice());
                },
                None => {
                    buf.push(0);
                },
            }
            proof {
                let ks = self.key_list().subrange(0, i + 1);
                assert(ks.drop_last() =~= self.key_list().subrange(0, i as int));
                assert(ks.last() == k@);
                assert(buf@ =~= head + hint_records(ks, self.count@, self.offset@));
            }
            i = i + 1;
        }
        proof {
            assert(self.key_list().subrange(0, i as int) =~= self.key_list());
        }
        buf
    }


    /// Reads a hint file. Fails with `InvalidHintFile` unless the bytes are records of
    /// distinct keys, each with a count and an optional offset, in the form `encode`
    /// writes.
    pub fn open(bytes: &[u8]) -> (r: Result<Hint>)
        ensures
            r matches Ok(h) ==> h.wf() && hint_file(h.key_list(), h.counts(), h.offsets()) == bytes@,
            r matches Err(e) ==> e.kind == ErrorKind::InvalidHintFile,
    {
        let bad = Error { kind: ErrorKind::InvalidHintFile };
        let n = match read_u64(bytes, 0) {
            Some(n) => n,
            None => {
                return Err(bad);
            },
        };
        let _len = bytes.len();
        let mut h = Hint::new();
        let mut pos: usize = 8;
        let mut k: u64 = 0;
        proof {
            assert(h.key_list() =~= Seq::<Seq<char>>::empty());
            assert(bytes@.subrange(0, 8) + hint_records(h.key_list(), h.count@, h.offset@)
                =~= bytes@.subrange(0, 8));
        }
        while k < n
            invariant
                8 <= pos <= bytes@.len(),
                bytes@.len() <= usize::MAX,
                bad.kind == ErrorKind::InvalidHintFile,
                k <= n,
                h.wf(),
                h.keys@.len() == k,
                bytes@.subrange(0, 8) == spec_u64_to_le_bytes(n),
                bytes@.subrange(0, pos as int) == bytes@.subrange(0, 8) + hint_records(
                    h.key_list(),
                    h.count@,
                    h.offset@,
                ),
                forall|key: Seq<char>| #[trigger] h.offset@.contains_key(key) ==> h.count@.contains_key(key),
            decreases n - k,
        {
            let (key, tn) = match decode_text(bytes, pos) {
                Some(x) => x,
                None => {
                    return Err(bad);
                },
            };
            proof {
                lemma_parse_text_bytes(bytes@.subrange(pos as int, bytes@.len() as int));
                assert(bytes@.subrange(pos as int, pos + tn) =~= bytes@.subrange(pos as int, bytes@.len() as int).subrange(0, tn as int));
            }
            let p1 = pos + tn;
            let c = match read_u64(bytes, p1) {
                Some(c) => c,
                None => {
                    return Err(bad);
                },
            };
            let p2 = p1 + 8;
            if p2 >= bytes.len() {
                return Err(bad);
            }
            let flag = bytes[p2];
            let (off, p3) = if flag == 0 {
                (None, p2 + 1)
            } else if flag == 1 {
                match read_u64(bytes, p2 + 1) {
                    Some(o) => (Some(o), p2 + 9),
                    None => {
                        return Err(bad);
                    },
                }
            } else {
                return Err(bad);
            };
            if h.count.contains(key.as_str()) {
                return Err(bad);
            }
            let ghost old_h = h;
            h.keys.push(key.clone());
            h.count.set(key.clone(), c);
            match off {
                Some(o) => {
                    h.offset.set(key.clone(), o);
                },
                None => {},
            }
            proof {
                let ks = old_h.key_list();
                assert(h.key_list() =~= ks.push(key@));
                assert forall|i: int| 0 <= i < ks.len() implies lookup(h.count@, #[trigger] ks[i]) == lookup(
                    old_h.count@,
                    ks[i],
                ) && lookup(h.offset@, ks[i]) == lookup(old_h.offset@, ks[i]) by {
                    assert(old_h.keys@[i]@ == ks[i]);
                    assert(old_h.count@.contains_key(ks[i]));
                }
                lemma_records_frame(ks, old_h.count@, old_h.offset@, h.count@, h.offset@);
                assert(ks.push(key@).drop_last() =~= ks);
                let rec = hint_record(key@, lookup(h.count@, key@), lookup(h.offset@, key@));
                assert(hint_records(h.key_list(), h.count@, h.offset@) == hint_records(ks, old_h.count@, old_h.offset@) + rec);
                if flag == 1 {
                    assert(bytes@.subrange(p2 as int, p3 as int) =~= seq![1u8] + bytes@.subrange(p2 + 1, p3 as int));
                } else {
                    assert(bytes@.subrange(p2 as int, p3 as int) =~= seq![0u8]);
                }
                assert(bytes@.subrange(pos as int, p3 as int) =~= bytes@.subrange(pos as int, p1 as int)
                    + bytes@.subrange(p1 as int, p2 as int) + bytes@.subrange(p2 as int, p3 as int));
                assert(bytes@.subrange(pos as int, p3 as int) =~= rec);
                assert(bytes@.subrange(0, p3 as int) =~= bytes@.subrange(0, pos as int) + bytes@.subrange(pos as int, p3 as int));
                // well-formedness
                assert forall|i: int, j: int| 0 <= i < j < h.keys@.len() implies h.keys@[i]@ != h.keys@[j]@ by {
                    if j == h.keys@.len() - 1 {
                        assert(h.keys@[i] == old_h.keys@[i]);
                        assert(old_h.count@.contains_key(old_h.keys@[i]@));
                    } else {
                        assert(h.keys@[i] == old_h.keys@[i] && h.keys@[j] == old_h.keys@[j]);
                    }
                }
                assert forall|key2: Seq<char>| #![trigger h.count@.contains_key(key2)]
                    h.count@.contains_key(key2) <==> exists|i: int| 0 <= i < h.keys@.len() && h.keys@[i]@ == key2 by {
                    if key2 == key@ {
                        assert(h.keys@[h.keys@.len() - 1]@ == key2);
                    } else {
                        if old_h.count@.contains_key(key2) {
                            let i = choose|i: int| 0 <= i < old_h.keys@.len() && old_h.keys@[i]@ == key2;
                            assert(h.keys@[i] == old_h.keys@[i]);
                        }
                        if exists|i: int| 0 <= i < h.keys@.len() && h.keys@[i]@ == key2 {
                            let i = choose|i: int| 0 <= i < h.keys@.len() && h.keys@[i]@ == key2;
                            assert(h.keys@[i] == old_h.keys@[i]);
                        }
                    }
                }
            }
            pos = p3;
            k = k + 1;
        }
        if pos != bytes.len() {
            return Err(bad);
        }
        proof {
            assert(bytes@.subrange(0, pos as int) =~= bytes@);
            assert(h.key_list().len() == n);
        }
        Ok(h)
    }

}

} // verus!
