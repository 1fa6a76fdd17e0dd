use vstd::hash_map::StringHashMap;
use vstd::prelude::*;
use vstd::slice::{slice_subrange, slice_to_vec};

use crate::codec::{
    encodable, entry_bytes, lemma_log_round_trip, lemma_replay_concat, lemma_replay_push,
    parse_log, replay, touches, Mutation,
};
use crate::error::{Error, ErrorKind, Result};
use crate::naming::{lemma_name_lt_total, name_less, name_lt, NameGen};
use crate::segment::{
    holds_write, lemma_holds_write_extend, lemma_holds_write_parse, summarizes, Pointer, Segment,
};

verus! {

/// Number of mutations after which the store compacts its logs.
pub const COMPACTION_THRESHOLD: u64 = 8192;

/// Size in bytes past which compaction starts a new segment.
pub const SEGMENT_SIZE_THRESHOLD: u64 = 4096;

/// A file action that keeps the data directory in step with the store.
#[derive(Debug)]
pub enum FileOp {
    /// Create the empty log of a new segment.
    Create(String),
    /// Append bytes to the log of a segment.
    Append(String, Vec<u8>),
    /// Replace the hint file of a segment with these bytes.
    WriteHint(String, Vec<u8>),
    /// Delete the log and the hint file of a segment.
    Delete(String),
}

/// A file action over abstract names and bytes.
pub enum FileAction {
    Create(Seq<char>),
    Append(Seq<char>, Seq<u8>),
    WriteHint(Seq<char>, Seq<u8>),
    Delete(Seq<char>),
}

impl View for FileOp {
    type V = FileAction;

    open spec fn view(&self) -> FileAction {
        match self {
            FileOp::Create(n) => FileAction::Create(n@),
            FileOp::Append(n, b) => FileAction::Append(n@, b@),
            FileOp::WriteHint(n, b) => FileAction::WriteHint(n@, b@),
            FileOp::Delete(n) => FileAction::Delete(n@),
        }
    }
}

/// The in-memory index: for each live key, a pointer to its latest write.
pub struct MemTable {
    map: StringHashMap<Pointer>,
    keys: Vec<String>,
}

impl MemTable {
    /// The pointers, by key.
    pub closed spec fn view_map(&self) -> Map<Seq<char>, Pointer> {
        self.map@
    }

    /// Every key with a pointer is listed.
    pub closed spec fn wf(&self) -> bool {
        forall|k: Seq<char>|
            #[trigger] self.map@.contains_key(k) ==> exists|i: int|
                0 <= i < self.keys@.len() && self.keys@[i]@ == k
    }

    /// An empty table.
    pub fn new() -> (r: MemTable)
        ensures
            r.wf(),
            r.view_map() == Map::<Seq<char>, Pointer>::empty(),
    {
        MemTable { map: StringHashMap::new(), keys: Vec::new() }
    }

    /// Points `key` at `p`.
    pub fn insert(&mut self, key: String, p: Pointer)
        requires
            old(self).wf(),
        ensures
            final(self).wf(),
            final(self).view_map() == old(self).view_map().insert(key@, p),
    {
        if !self.map.contains_key(key.as_str()) {
            self.keys.push(key.clone());
        }
        let ghost k0 = key@;
        self.map.insert(key, p);
        proof {
            assert forall|k: Seq<char>| #[trigger] self.map@.contains_key(k) implies exists|i: int|
                0 <= i < self.keys@.len() && self.keys@[i]@ == k by {
                if k == k0 && !old(self).map@.contains_key(k) {
                    assert(self.keys@[self.keys@.len() - 1]@ == k);
                } else {
                    assert(old(self).map@.contains_key(k));
                    let i = choose|i: int|
                        0 <= i < old(self).keys@.len() && old(self).keys@[i]@ == k;
                    assert(self.keys@[i]@ == k);
                }
            }
        }
    }

    /// The pointer of `key`.
    pub fn get(&self, key: &str) -> (r: Option<&Pointer>)
        ensures
            match r {
                Some(p) => self.view_map().contains_key(key@) && *p == self.view_map()[key@],
                None => !self.view_map().contains_key(key@),
            },
    {
        self.map.get(key)
    }

    /// Whether `key` has a pointer.
    pub fn contains(&self, key: &str) -> (r: bool)
        ensures
            r == self.view_map().contains_key(key@),
    {
        self.map.contains_key(key)
    }

    /// Drops the pointer of `key`.
    pub fn remove(&mut self, key: &str)
        requires
            old(self).wf(),
        ensures
            final(self).wf(),
            final(self).view_map() == old(self).view_map().remove(key@),
    {
        self.map.remove(key);
        proof {
            assert forall|k: Seq<char>| #[trigger] self.map@.contains_key(k) implies exists|i: int|
                0 <= i < self.keys@.len() && self.keys@[i]@ == k by {
                assert(old(self).map@.contains_key(k));
                let i = choose|i: int| 0 <= i < old(self).keys@.len() && old(self).keys@[i]@ == k;
                assert(self.keys@[i]@ == k);
            }
        }
    }
}

/// The mutations of a list of segments, oldest segment first.
pub open spec fn flatten(segs: Seq<Segment>) -> Seq<Mutation>
    decreases segs.len(),
{
    if segs.len() == 0 {
        seq![]
    } else {
        flatten(segs.drop_last()) + segs.last().history()
    }
}

/// The names of a list of segments are in increasing order.
pub open spec fn names_increasing(segs: Seq<Segment>) -> bool {
    forall|i: int, j: int|
        0 <= i < j < segs.len() ==> name_lt(#[trigger] segs[i].name_view(), #[trigger] segs[j].name_view())
}

/// Some segment of the list is named `file` and holds, at `off`, a write of `v` under `k`.
pub open spec fn located(segs: Seq<Segment>, file: Seq<char>, off: u64, k: Seq<char>, v: Seq<char>) -> bool {
    exists|j: int|
        0 <= j < segs.len() && (#[trigger] segs[j]).name_view() == file && holds_write(
            segs[j].log_view(),
            off as int,
            k,
            v,
        )
}

/// The index is exact for `kv` over the segments `segs`: it has the same keys, and
/// each pointer locates the write of the key's value.
pub open spec fn indexes(mem: Map<Seq<char>, Pointer>, kv: Map<Seq<char>, Seq<char>>, segs: Seq<Segment>) -> bool {
    &&& forall|k: Seq<char>| #[trigger] mem.contains_key(k) <==> kv.contains_key(k)
    &&& forall|k: Seq<char>|
        #[trigger] mem.contains_key(k) ==> located(segs, mem[k].file(), mem[k].at(), k, kv[k])
}


/// Appending a segment appends its mutations.
pub proof fn lemma_flatten_push(segs: Seq<Segment>, s: Segment)
    ensures
        flatten(segs.push(s)) == flatten(segs) + s.history(),
{
    assert(segs.push(s).drop_last() =~= segs);
}

/// A write stays located when the last segment grows at its end under the same name.
pub proof fn lemma_located_grow_last(
    segs: Seq<Segment>,
    s2: Segment,
    file: Seq<char>,
    off: u64,
    k: Seq<char>,
    v: Seq<char>,
)
    requires
        segs.len() > 0,
        located(segs, file, off, k, v),
        s2.name_view() == segs.last().name_view(),
        segs.last().log_view().len() <= s2.log_view().len(),
        s2.log_view().subrange(0, segs.last().log_view().len() as int) == segs.last().log_view(),
    ensures
        located(segs.drop_last().push(s2), file, off, k, v),
{
    let segs2 = segs.drop_last().push(s2);
    let j = choose|j: int|
        0 <= j < segs.len() && (#[trigger] segs[j]).name_view() == file && holds_write(
            segs[j].log_view(),
            off as int,
            k,
            v,
        );
    if j == segs.len() - 1 {
        lemma_holds_write_extend(segs[j].log_view(), s2.log_view(), off as int, k, v);
        assert(segs2[j] == s2);
    } else {
        assert(segs2[j] == segs[j]);
    }
}

/// A write stays located when a segment is added at the end.
pub proof fn lemma_located_push(
    segs: Seq<Segment>,
    s2: Segment,
    file: Seq<char>,
    off: u64,
    k: Seq<char>,
    v: Seq<char>,
)
    requires
        located(segs, file, off, k, v),
    ensures
        located(segs.push(s2), file, off, k, v),
{
    let j = choose|j: int|
        0 <= j < segs.len() && (#[trigger] segs[j]).name_view() == file && holds_write(
            segs[j].log_view(),
            off as int,
            k,
            v,
        );
    assert(segs.push(s2)[j] == segs[j]);
}


/// Names stay increasing when a segment named after the last one is added.
pub proof fn lemma_names_push(segs: Seq<Segment>, s: Segment)
    requires
        names_increasing(segs),
        segs.len() > 0 ==> name_lt(segs.last().name_view(), s.name_view()),
    ensures
        names_increasing(segs.push(s)),
{
    let s2 = segs.push(s);
    assert forall|i: int, j: int| 0 <= i < j < s2.len() implies name_lt(
        #[trigger] s2[i].name_view(),
        #[trigger] s2[j].name_view(),
    ) by {
        if j == segs.len() {
            if i < segs.len() - 1 {
                assert(name_lt(segs[i].name_view(), segs[segs.len() - 1].name_view()));
                crate::naming::lemma_bytes_lt_trans(
                    vstd::utf8::encode_utf8(segs[i].name_view()),
                    vstd::utf8::encode_utf8(segs.last().name_view()),
                    vstd::utf8::encode_utf8(s.name_view()),
                );
            }
        } else {
            assert(s2[i] == segs[i] && s2[j] == segs[j]);
        }
    }
}


/// The segments are well formed and named in increasing order, `kv` is what replaying
/// them leaves, and `mem` indexes it.
pub open spec fn consistent(segs: Seq<Segment>, mem: Map<Seq<char>, Pointer>, kv: Map<Seq<char>, Seq<char>>) -> bool {
    &&& segs.len() > 0
    &&& forall|i: int| 0 <= i < segs.len() ==> (#[trigger] segs[i]).wf()
    &&& names_increasing(segs)
    &&& kv == replay(flatten(segs))
    &&& indexes(mem, kv, segs)
}

/// Adding an empty segment named after the others keeps everything consistent.
pub proof fn lemma_consistent_rotate(
    segs: Seq<Segment>,
    s: Segment,
    mem: Map<Seq<char>, Pointer>,
    kv: Map<Seq<char>, Seq<char>>,
)
    requires
        consistent(segs, mem, kv),
        s.wf(),
        s.history() == Seq::<Mutation>::empty(),
        name_lt(segs.last().name_view(), s.name_view()),
    ensures
        consistent(segs.push(s), mem, kv),
{
    lemma_names_push(segs, s);
    lemma_flatten_push(segs, s);
    assert(flatten(segs.push(s)) =~= flatten(segs));
    assert forall|i: int| 0 <= i < segs.push(s).len() implies (#[trigger] segs.push(s)[i]).wf() by {
        if i < segs.len() {
            assert(segs.push(s)[i] == segs[i]);
        }
    }
    assert forall|k: Seq<char>| #[trigger] mem.contains_key(k) implies located(
        segs.push(s),
        mem[k].file(),
        mem[k].at(),
        k,
        kv[k],
    ) by {
        lemma_located_push(segs, s, mem[k].file(), mem[k].at(), k, kv[k]);
    }
}

/// Logging a write in the last segment and pointing the index at it keeps everything
/// consistent.
pub proof fn lemma_consistent_write(
    segs: Seq<Segment>,
    s2: Segment,
    mem: Map<Seq<char>, Pointer>,
    kv: Map<Seq<char>, Seq<char>>,
    k: Seq<char>,
    v: Seq<char>,
    p: Pointer,
)
    requires
        consistent(segs, mem, kv),
        s2.wf(),
        s2.name_view() == segs.last().name_view(),
        s2.log_view() == segs.last().log_view() + entry_bytes(Mutation::Write(k, v)),
        s2.history() == segs.last().history().push(Mutation::Write(k, v)),
        p.file() == s2.name_view(),
        p.at() == segs.last().log_view().len(),
    ensures
        consistent(segs.drop_last().push(s2), mem.insert(k, p), kv.insert(k, v)),
{
    let m = Mutation::Write(k, v);
    let segs2 = segs.drop_last().push(s2);
    let last = segs.last();
    assert(segs =~= segs.drop_last().push(last));
    lemma_flatten_push(segs.drop_last(), last);
    lemma_flatten_push(segs.drop_last(), s2);
    lemma_replay_push(flatten(segs), m);
    assert(flatten(segs2) =~= flatten(segs).push(m));
    assert forall|i: int| 0 <= i < segs2.len() implies (#[trigger] segs2[i]).wf() by {
        if i < segs2.len() - 1 {
            assert(segs2[i] == segs[i]);
        }
    }
    assert forall|i: int, j: int| 0 <= i < j < segs2.len() implies name_lt(
        #[trigger] segs2[i].name_view(),
        #[trigger] segs2[j].name_view(),
    ) by {
        assert(segs2[i].name_view() == segs[i].name_view());
        assert(segs2[j].name_view() == segs[j].name_view());
    }
    assert(s2.log_view().subrange(0, last.log_view().len() as int) =~= last.log_view());
    let mem2 = mem.insert(k, p);
    let kv2 = kv.insert(k, v);
    assert forall|k2: Seq<char>| #[trigger] mem2.contains_key(k2) implies located(
        segs2,
        mem2[k2].file(),
        mem2[k2].at(),
        k2,
        kv2[k2],
    ) by {
        if k2 == k {
            s2.lemma_hint();
            assert(s2.history()[s2.history().len() - 1] == m);
            assert(encodable(m));
            assert(segs2[segs2.len() - 1] == s2);
            assert(s2.log_view().subrange(p.at() as int, p.at() + entry_bytes(m).len())
                =~= entry_bytes(m));
            assert(holds_write(s2.log_view(), p.at() as int, k, v));
        } else {
            assert(mem.contains_key(k2));
            lemma_located_grow_last(segs, s2, mem[k2].file(), mem[k2].at(), k2, kv[k2]);
        }
    }
}

/// The encoded length of a write.
pub proof fn lemma_write_len(k: Seq<char>, v: Seq<char>)
    ensures
        entry_bytes(Mutation::Write(k, v)).len() == 20 + vstd::utf8::encode_utf8(k).len()
            + vstd::utf8::encode_utf8(v).len(),
{
    vstd::bytes::lemma_auto_spec_u32_to_from_le_bytes();
    vstd::bytes::lemma_auto_spec_u64_to_from_le_bytes();
}


/// The names and log bytes of segment files, as plain values.
pub open spec fn file_views(files: Seq<(String, Vec<u8>)>) -> Seq<(Seq<char>, Seq<u8>)> {
    files.map_values(|f: (String, Vec<u8>)| (f.0@, f.1@))
}

/// The files are named in increasing order, as a sorted directory listing gives them.
pub open spec fn files_sorted(fs: Seq<(Seq<char>, Seq<u8>)>) -> bool {
    forall|i: int, j: int| 0 <= i < j < fs.len() ==> name_lt(#[trigger] fs[i].0, #[trigger] fs[j].0)
}

/// The mutations that a list of segment files holds, oldest file first, if every log
/// is exactly a sequence of entries.
pub open spec fn image_history(fs: Seq<(Seq<char>, Seq<u8>)>) -> Option<Seq<Mutation>>
    decreases fs.len(),
{
    if fs.len() == 0 {
        Some(seq![])
    } else {
        match image_history(fs.drop_last()) {
            None => None,
            Some(h) => match parse_log(fs.last().1) {
                None => None,
                Some(ms) => Some(h + ms),
            },
        }
    }
}

/// The mapping that opening a list of segment files gives, if every log reads back.
pub open spec fn image_view(fs: Seq<(Seq<char>, Seq<u8>)>) -> Option<Map<Seq<char>, Seq<char>>> {
    match image_history(fs) {
        None => None,
        Some(h) => Some(replay(h)),
    }
}

proof fn lemma_image_prefix(fs: Seq<(Seq<char>, Seq<u8>)>, n: int)
    requires
        0 <= n <= fs.len(),
        image_history(fs.subrange(0, n)) is None,
    ensures
        image_history(fs) is None,
    decreases fs.len() - n,
{
    if n < fs.len() {
        assert(fs.subrange(0, n + 1).drop_last() =~= fs.subrange(0, n));
        lemma_image_prefix(fs, n + 1);
    } else {
        assert(fs.subrange(0, n) =~= fs);
    }
}


/// Applies the hint of `seg`, the newest of the segments `segs.push(seg)`, to the index:
/// every key the segment touches takes the segment's verdict, the others keep theirs.
fn apply_hint(
    mem: &mut MemTable,
    kv: Ghost<Map<Seq<char>, Seq<char>>>,
    segs: Ghost<Seq<Segment>>,
    seg: &Segment,
) -> (kv2: Ghost<Map<Seq<char>, Seq<char>>>)
    requires
        old(mem).wf(),
        seg.wf(),
        indexes(old(mem).view_map(), kv@, segs@.push(*seg)),
    ensures
        final(mem).wf(),
        indexes(final(mem).view_map(), kv2@, segs@.push(*seg)),
        forall|k: Seq<char>|
            #![trigger kv2@.contains_key(k)]
            touches(seg.history(), k) ==> (kv2@.contains_key(k) <==> seg.contents().contains_key(k))
                && (kv2@.contains_key(k) ==> kv2@[k] == seg.contents()[k]),
        forall|k: Seq<char>|
            #![trigger kv2@.contains_key(k)]
            !touches(seg.history(), k) ==> (kv2@.contains_key(k) <==> kv@.contains_key(k))
                && (kv2@.contains_key(k) ==> kv2@[k] == kv@[k]),
{
    let ghost segs2 = segs@.push(*seg);
    let ghost es = seg.history();
    let ghost mut cur = kv@;
    proof {
        seg.lemma_hint();
        seg.hint_view().lemma_wf();
        assert(segs2[segs2.len() - 1] == *seg);
    }
    let name = seg.path();
    let keys = seg.hint().keys();
    let mut j: usize = 0;
    while j < keys.len()
        invariant
            keys@.map_values(|s: String| s@) == seg.hint_view().key_list(),
            j <= keys@.len(),
            seg.wf(),
            name@ == seg.name_view(),
            segs2 == segs@.push(*seg),
            segs2[segs2.len() - 1] == *seg,
            summarizes(seg.offsets(), seg.hint_view().counts(), es, seg.log_view()),
            forall|k: Seq<char>|
                #![trigger seg.hint_view().counts().contains_key(k)]
                seg.hint_view().counts().contains_key(k) <==> seg.hint_view().key_list().contains(k),
            es == seg.history(),
            mem.wf(),
            indexes(mem.view_map(), cur, segs2),
            forall|k: Seq<char>|
                #![trigger cur.contains_key(k)]
                (exists|t: int| 0 <= t < j && keys@[t]@ == k) ==> (cur.contains_key(k) <==> replay(es).contains_key(k))
                    && (cur.contains_key(k) ==> cur[k] == replay(es)[k]),
            forall|k: Seq<char>|
                #![trigger cur.contains_key(k)]
                !(exists|t: int| 0 <= t < j && keys@[t]@ == k) ==> (cur.contains_key(k) <==> kv@.contains_key(k))
                    && (cur.contains_key(k) ==> cur[k] == kv@[k]),
        decreases keys@.len() - j,
    {
        let key = &keys[j];
        let ghost k = key@;
        proof {
            assert(seg.hint_view().key_list()[j as int] == k);
            assert(seg.hint_view().key_list().contains(k));
            assert(seg.hint_view().counts().contains_key(k));
        }
        let ghost prev = cur;
        match seg.hint().get(key.as_str()) {
            Some(off) => {
                proof {
                    assert(seg.offsets().contains_key(k));
                    assert(holds_write(seg.log_view(), off as int, k, replay(es)[k]));
                }
                mem.insert(key.clone(), Pointer::new(name.clone(), off));
                proof {
                    cur = cur.insert(k, replay(es)[k]);
                    let mm = mem.view_map();
                    assert forall|k2: Seq<char>| #[trigger] mm.contains_key(k2) implies located(
                        segs2,
                        mm[k2].file(),
                        mm[k2].at(),
                        k2,
                        cur[k2],
                    ) by {
                        if k2 == k {
                            assert(segs2[segs2.len() - 1].name_view() == mm[k2].file());
                        }
                    }
                }
            },
            None => {
                mem.remove(key.as_str());
                proof {
                    cur = cur.remove(k);
                }
            },
        }
        proof {
            assert forall|k2: Seq<char>|
                #![trigger cur.contains_key(k2)]
                (exists|t: int| 0 <= t < j + 1 && keys@[t]@ == k2) implies (cur.contains_key(k2) <==> replay(es).contains_key(k2))
                    && (cur.contains_key(k2) ==> cur[k2] == replay(es)[k2]) by {
                if k2 != k {
                    let t = choose|t: int| 0 <= t < j + 1 && keys@[t]@ == k2;
                    assert(t < j);
                    assert(prev.contains_key(k2) == cur.contains_key(k2));
                }
            }
            assert forall|k2: Seq<char>|
                #![trigger cur.contains_key(k2)]
                !(exists|t: int| 0 <= t < j + 1 && keys@[t]@ == k2) implies (cur.contains_key(k2) <==> kv@.contains_key(k2))
                    && (cur.contains_key(k2) ==> cur[k2] == kv@[k2]) by {
                assert(keys@[j as int]@ == k);
                assert(!(exists|t: int| 0 <= t < j && keys@[t]@ == k2));
                assert(prev.contains_key(k2) == cur.contains_key(k2));
            }
        }
        j = j + 1;
    }
    proof {
        assert forall|k: Seq<char>| #[trigger] touches(es, k) implies exists|t: int| 0 <= t < keys@.len() && keys@[t]@ == k by {
            assert(seg.hint_view().counts().contains_key(k));
            let t = choose|t: int| 0 <= t < seg.hint_view().key_list().len() && seg.hint_view().key_list()[t] == k;
            assert(keys@[t]@ == k);
        }
        assert forall|k: Seq<char>| (exists|t: int| 0 <= t < keys@.len() && keys@[t]@ == k) implies #[trigger] touches(es, k) by {
            let t = choose|t: int| 0 <= t < keys@.len() && keys@[t]@ == k;
            assert(seg.hint_view().key_list()[t] == k);
            assert(seg.hint_view().key_list().contains(k));
            assert(seg.hint_view().counts().contains_key(k));
        }
    }
    Ghost(cur)
}


/// The names and logs of a list of segments, as segment files.
pub open spec fn segment_files(segs: Seq<Segment>) -> Seq<(Seq<char>, Seq<u8>)> {
    segs.map_values(|s: Segment| (s.name_view(), s.log_view()))
}

/// Well-formed segments read back, as files, to exactly their mutations.
pub proof fn lemma_segment_files(segs: Seq<Segment>)
    requires
        forall|i: int| 0 <= i < segs.len() ==> (#[trigger] segs[i]).wf(),
    ensures
        image_history(segment_files(segs)) == Some(flatten(segs)),
    decreases segs.len(),
{
    if segs.len() > 0 {
        let init = segs.drop_last();
        assert forall|i: int| 0 <= i < init.len() implies (#[trigger] init[i]).wf() by {
            assert(init[i] == segs[i]);
        }
        lemma_segment_files(init);
        assert(segment_files(segs).drop_last() =~= segment_files(init));
        let last = segs.last();
        assert(segs[segs.len() - 1] == last);
        last.lemma_hint();
        lemma_log_round_trip(last.history());
    } else {
        assert(segment_files(segs) =~= Seq::<(Seq<char>, Seq<u8>)>::empty());
    }
}


/// The history holds exactly one write for each key of `kv`, with its value, and nothing
/// else: its size depends on the live mapping alone.
pub open spec fn one_write_per_key(h: Seq<Mutation>, kv: Map<Seq<char>, Seq<char>>) -> bool {
    &&& forall|i: int|
        #![trigger h[i]]
        0 <= i < h.len() ==> (h[i] matches Mutation::Write(k, v) && kv.contains_key(k) && kv[k] == v)
    &&& forall|i: int, j: int|
        0 <= i < j < h.len() ==> crate::codec::key_of(#[trigger] h[i]) != crate::codec::key_of(#[trigger] h[j])
}

proof fn lemma_one_write_push(h: Seq<Mutation>, kv: Map<Seq<char>, Seq<char>>, k: Seq<char>, v: Seq<char>)
    requires
        one_write_per_key(h, kv),
        !kv.contains_key(k),
    ensures
        one_write_per_key(h.push(Mutation::Write(k, v)), kv.insert(k, v)),
{
    let h2 = h.push(Mutation::Write(k, v));
    let kv2 = kv.insert(k, v);
    assert forall|i: int| #![trigger h2[i]] 0 <= i < h2.len() implies (h2[i] matches Mutation::Write(
        k1,
        v1,
    ) && kv2.contains_key(k1) && kv2[k1] == v1) by {
        if i < h.len() {
            assert(h2[i] == h[i]);
            assert(h[i] matches Mutation::Write(k1, v1) && kv.contains_key(k1) && kv[k1] == v1);
        }
    }
    assert forall|i: int, j: int| 0 <= i < j < h2.len() implies crate::codec::key_of(#[trigger] h2[i])
        != crate::codec::key_of(#[trigger] h2[j]) by {
        assert(h2[i] == h[i]);
        assert(h[i] matches Mutation::Write(k1, v1) && kv.contains_key(k1));
        if j < h.len() {
            assert(h2[j] == h[j]);
        }
    }
}


/// The effect of a file action on the logs of a directory, by segment name. Hint files
/// do not hold logs, so writing one leaves the logs as they are.
pub open spec fn act(dir: Map<Seq<char>, Seq<u8>>, a: FileAction) -> Map<Seq<char>, Seq<u8>> {
    match a {
        FileAction::Create(n) => dir.insert(n, seq![]),
        FileAction::Append(n, b) => dir.insert(
            n,
            (if dir.contains_key(n) {
                dir[n]
            } else {
                seq![]
            }) + b,
        ),
        FileAction::WriteHint(_, _) => dir,
        FileAction::Delete(n) => dir.remove(n),
    }
}

/// The logs of a directory after a sequence of file actions, done oldest first.
pub open spec fn perform(dir: Map<Seq<char>, Seq<u8>>, acts: Seq<FileAction>) -> Map<Seq<char>, Seq<u8>>
    decreases acts.len(),
{
    if acts.len() == 0 {
        dir
    } else {
        act(perform(dir, acts.drop_last()), acts.last())
    }
}

/// The logs of a directory that holds the segment files `fs`, by name.
pub open spec fn dir_of(fs: Seq<(Seq<char>, Seq<u8>)>) -> Map<Seq<char>, Seq<u8>>
    decreases fs.len(),
{
    if fs.len() == 0 {
        Map::empty()
    } else {
        dir_of(fs.drop_last()).insert(fs.last().0, fs.last().1)
    }
}

/// Doing one more action applies it.
pub proof fn lemma_perform_push(dir: Map<Seq<char>, Seq<u8>>, acts: Seq<FileAction>, a: FileAction)
    ensures
        perform(dir, acts.push(a)) == act(perform(dir, acts), a),
{
    assert(acts.push(a).drop_last() =~= acts);
}

/// Doing two lists of actions in turn.
pub proof fn lemma_perform_concat(dir: Map<Seq<char>, Seq<u8>>, a: Seq<FileAction>, b: Seq<FileAction>)
    ensures
        perform(dir, a + b) == perform(perform(dir, a), b),
    decreases b.len(),
{
    if b.len() == 0 {
        assert(a + b =~= a);
    } else {
        lemma_perform_concat(dir, a, b.drop_last());
        assert((a + b).drop_last() =~= a + b.drop_last());
    }
}

/// The directory of segments whose last one takes another log under the same name.
pub proof fn lemma_dir_replace_last(segs: Seq<Segment>, s: Segment, s2: Segment)
    requires
        s2.name_view() == s.name_view(),
    ensures
        dir_of(segment_files(segs.push(s))).contains_key(s.name_view()),
        dir_of(segment_files(segs.push(s)))[s.name_view()] == s.log_view(),
        dir_of(segment_files(segs.push(s2))) == dir_of(segment_files(segs.push(s))).insert(
            s.name_view(),
            s2.log_view(),
        ),
{
    let f1 = segment_files(segs.push(s));
    let f2 = segment_files(segs.push(s2));
    assert(f1.drop_last() =~= segment_files(segs));
    assert(f2.drop_last() =~= segment_files(segs));
    assert(dir_of(f2) =~= dir_of(f1).insert(s.name_view(), s2.log_view()));
}

/// Adding a segment to the list adds its file to the directory.
pub proof fn lemma_dir_push(segs: Seq<Segment>, s: Segment)
    ensures
        dir_of(segment_files(segs.push(s))) == dir_of(segment_files(segs)).insert(
            s.name_view(),
            s.log_view(),
        ),
{
    assert(segment_files(segs.push(s)).drop_last() =~= segment_files(segs));
}

/// A directory holds exactly the names of its files.
pub proof fn lemma_dir_names(fs: Seq<(Seq<char>, Seq<u8>)>, n: Seq<char>)
    ensures
        dir_of(fs).contains_key(n) <==> exists|i: int| 0 <= i < fs.len() && fs[i].0 == n,
    decreases fs.len(),
{
    if fs.len() > 0 {
        lemma_dir_names(fs.drop_last(), n);
        if exists|i: int| 0 <= i < fs.drop_last().len() && fs.drop_last()[i].0 == n {
            let i = choose|i: int| 0 <= i < fs.drop_last().len() && fs.drop_last()[i].0 == n;
            assert(fs[i] == fs.drop_last()[i]);
        }
        if exists|i: int| 0 <= i < fs.len() && fs[i].0 == n {
            let i = choose|i: int| 0 <= i < fs.len() && fs[i].0 == n;
            if i < fs.len() - 1 {
                assert(fs.drop_last()[i] == fs[i]);
            }
        }
    }
}


/// Writing hint files leaves the logs as they are.
pub proof fn lemma_perform_hints(dir: Map<Seq<char>, Seq<u8>>, acts: Seq<FileAction>)
    requires
        forall|i: int| 0 <= i < acts.len() ==> (#[trigger] acts[i]) is WriteHint,
    ensures
        perform(dir, acts) == dir,
    decreases acts.len(),
{
    if acts.len() > 0 {
        assert(acts[acts.len() - 1] is WriteHint);
        lemma_perform_hints(dir, acts.drop_last());
    }
}


/// The order of names is transitive.
pub proof fn lemma_name_lt_trans(a: Seq<char>, b: Seq<char>, c: Seq<char>)
    requires
        name_lt(a, b),
        name_lt(b, c),
    ensures
        name_lt(a, c),
{
    crate::naming::lemma_bytes_lt_trans(
        vstd::utf8::encode_utf8(a),
        vstd::utf8::encode_utf8(b),
        vstd::utf8::encode_utf8(c),
    );
}


proof fn lemma_rotate_names(fresh: Seq<Segment>, prev: Segment, next: Segment, first: Seq<char>)
    requires
        forall|j: int| 0 <= j < fresh.push(prev).len() ==> name_lt(first, #[trigger] fresh.push(prev)[j].name_view()),
        name_lt(prev.name_view(), next.name_view()),
    ensures
        forall|j: int|
            0 <= j < fresh.push(prev).push(next).len() ==> name_lt(
                first,
                #[trigger] fresh.push(prev).push(next)[j].name_view(),
            ),
{
    let s2 = fresh.push(prev).push(next);
    assert forall|j: int| 0 <= j < s2.len() implies name_lt(first, #[trigger] s2[j].name_view()) by {
        if j < s2.len() - 1 {
            assert(s2[j] == fresh.push(prev)[j]);
        } else {
            assert(fresh.push(prev)[fresh.len() as int] == prev);
            lemma_name_lt_trans(first, prev.name_view(), next.name_view());
        }
    }
}


proof fn lemma_sorted_drop_last(a: Seq<(Seq<char>, Seq<u8>)>)
    requires
        files_sorted(a),
        a.len() > 0,
    ensures
        files_sorted(a.drop_last()),
        dir_of(a.drop_last()) == dir_of(a).remove(a.last().0),
        dir_of(a).contains_key(a.last().0),
        dir_of(a)[a.last().0] == a.last().1,
{
    let a2 = a.drop_last();
    let x = a.last().0;
    assert forall|i: int, j: int| 0 <= i < j < a2.len() implies name_lt(#[trigger] a2[i].0, #[trigger] a2[j].0) by {
        assert(a2[i] == a[i] && a2[j] == a[j]);
    }
    lemma_dir_names(a2, x);
    if dir_of(a2).contains_key(x) {
        let i = choose|i: int| 0 <= i < a2.len() && a2[i].0 == x;
        assert(name_lt(a[i].0, a[a.len() - 1].0));
        crate::naming::lemma_name_lt_ne(a[i].0, x);
    }
    assert(dir_of(a2) =~= dir_of(a).remove(x));
}

/// A directory has one listing sorted by name: two sorted listings of the same logs are
/// the same listing.
pub proof fn lemma_listing_unique(a: Seq<(Seq<char>, Seq<u8>)>, b: Seq<(Seq<char>, Seq<u8>)>)
    requires
        files_sorted(a),
        files_sorted(b),
        dir_of(a) == dir_of(b),
    ensures
        a == b,
    decreases a.len(),
{
    if a.len() == 0 {
        if b.len() > 0 {
            lemma_sorted_drop_last(b);
        }
        assert(a =~= b);
    } else {
        if b.len() == 0 {
            lemma_sorted_drop_last(a);
        }
        lemma_sorted_drop_last(a);
        lemma_sorted_drop_last(b);
        let x = a.last().0;
        let y = b.last().0;
        lemma_dir_names(a, y);
        lemma_dir_names(b, x);
        if x != y {
            let j = choose|j: int| 0 <= j < b.len() && b[j].0 == x;
            let i = choose|i: int| 0 <= i < a.len() && a[i].0 == y;
            assert(j != b.len() - 1);
            assert(i != a.len() - 1);
            assert(name_lt(b[j].0, b[b.len() - 1].0));
            assert(name_lt(a[i].0, a[a.len() - 1].0));
            lemma_name_lt_trans(x, y, x);
            crate::naming::lemma_name_lt_ne(x, x);
        }
        lemma_listing_unique(a.drop_last(), b.drop_last());
        assert(a.last() == b.last());
        assert(a =~= a.drop_last().push(a.last()));
        assert(b =~= b.drop_last().push(b.last()));
    }
}


/// No two files share a name, as in a directory.
pub open spec fn names_distinct(fs: Seq<(Seq<char>, Seq<u8>)>) -> bool {
    forall|i: int, j: int| 0 <= i < j < fs.len() ==> (#[trigger] fs[i]).0 != (#[trigger] fs[j]).0
}

proof fn lemma_dir_insert(fs: Seq<(Seq<char>, Seq<u8>)>, p: int, x: (Seq<char>, Seq<u8>))
    requires
        0 <= p <= fs.len(),
        forall|i: int| 0 <= i < fs.len() ==> (#[trigger] fs[i]).0 != x.0,
    ensures
        dir_of(fs.insert(p, x)) == dir_of(fs).insert(x.0, x.1),
    decreases fs.len(),
{
    if p == fs.len() {
        assert(fs.insert(p, x) =~= fs.push(x));
        assert(fs.push(x).drop_last() =~= fs);
    } else {
        let f2 = fs.drop_last();
        assert forall|i: int| 0 <= i < f2.len() implies (#[trigger] f2[i]).0 != x.0 by {
            assert(f2[i] == fs[i]);
        }
        lemma_dir_insert(f2, p, x);
        assert(fs.insert(p, x).drop_last() =~= f2.insert(p, x));
        assert(fs.insert(p, x).last() == fs.last());
        assert(fs[fs.len() - 1].0 != x.0);
        assert(dir_of(fs.insert(p, x)) =~= dir_of(fs).insert(x.0, x.1));
    }
}

/// Sorts segment files by name.
fn sort_by_name(files: &Vec<(String, Vec<u8>)>) -> (r: Vec<(String, Vec<u8>)>)
    requires
        names_distinct(file_views(files@)),
    ensures
        files_sorted(file_views(r@)),
        dir_of(file_views(r@)) == dir_of(file_views(files@)),
        r@.len() == files@.len(),
{
    let ghost fv = file_views(files@);
    let mut sorted: Vec<(String, Vec<u8>)> = Vec::new();
    let mut i: usize = 0;
    proof {
        assert(fv.subrange(0, 0) =~= Seq::<(Seq<char>, Seq<u8>)>::empty());
        assert(file_views(sorted@) =~= Seq::<(Seq<char>, Seq<u8>)>::empty());
    }
    while i < files.len()
        invariant
            fv == file_views(files@),
            names_distinct(fv),
            i <= files@.len(),
            sorted@.len() == i,
            files_sorted(file_views(sorted@)),
            dir_of(file_views(sorted@)) == dir_of(fv.subrange(0, i as int)),
        decreases files@.len() - i,
    {
        let name = files[i].0.clone();
        let log = slice_to_vec(files[i].1.as_slice());
        let ghost x = (name@, log@);
        let ghost sv = file_views(sorted@);
        proof {
            assert(x == fv[i as int]);
            assert forall|j: int| 0 <= j < sv.len() implies (#[trigger] sv[j]).0 != x.0 by {
                lemma_dir_names(sv, sv[j].0);
                lemma_dir_names(fv.subrange(0, i as int), sv[j].0);
                let t = choose|t: int| 0 <= t < i && fv.subrange(0, i as int)[t].0 == sv[j].0;
                assert(fv[t] == fv.subrange(0, i as int)[t]);
            }
        }
        let mut p: usize = 0;
        while p < sorted.len() && name_less(&sorted[p].0, &name)
            invariant
                p <= sorted@.len(),
                sv == file_views(sorted@),
                x.0 == name@,
                forall|j: int| 0 <= j < p ==> name_lt(#[trigger] sv[j].0, x.0),
            decreases sorted@.len() - p,
        {
            assert(sv[p as int].0 == sorted@[p as int].0@);
            p = p + 1;
        }
        proof {
            if p < sorted@.len() {
                assert(sv[p as int].0 != x.0);
                lemma_name_lt_total(sv[p as int].0, x.0);
            }
        }
        sorted.insert(p, (name, log));
        proof {
            let sv2 = file_views(sorted@);
            assert(sv2 =~= sv.insert(p as int, x));
            assert forall|a: int, b: int| 0 <= a < b < sv2.len() implies name_lt(#[trigger] sv2[a].0, #[trigger] sv2[b].0) by {
                if b < p {
                    assert(sv2[a] == sv[a] && sv2[b] == sv[b]);
                } else if b == p {
                    assert(sv2[a] == sv[a]);
                } else if a == p {
                    assert(sv2[b] == sv[b - 1]);
                    if b - 1 > p {
                        assert(name_lt(sv[p as int].0, sv[b - 1].0));
                        lemma_name_lt_trans(x.0, sv[p as int].0, sv[b - 1].0);
                    }
                } else if a < p {
                    assert(sv2[a] == sv[a] && sv2[b] == sv[b - 1]);
                    if a < b - 1 {
                    } else {
                    }
                } else {
                    assert(sv2[a] == sv[a - 1] && sv2[b] == sv[b - 1]);
                }
            }
            lemma_dir_insert(sv, p as int, x);
            assert(fv.subrange(0, i + 1).drop_last() =~= fv.subrange(0, i as int));
        }
        i = i + 1;
    }
    proof {
        assert(fv.subrange(0, i as int) =~= fv);
    }
    sorted
}

/// The log-structured store: sealed segments oldest first, the active segment that takes
/// every write, and the in-memory index over them.
pub struct KvStore {
    segments: Vec<Segment>,
    active: Segment,
    memtbl: MemTable,
    set_count: u64,
    names: NameGen,
    ops: Vec<FileOp>,
    kv: Ghost<Map<Seq<char>, Seq<char>>>,
    disk: Ghost<Map<Seq<char>, Seq<u8>>>,
}

impl KvStore {
    /// Every segment, oldest first; the active one last.
    pub closed spec fn all_segments(&self) -> Seq<Segment> {
        self.segments@.push(self.active)
    }

    /// The mutations that the store's logs hold, oldest first.
    pub closed spec fn history(&self) -> Seq<Mutation> {
        flatten(self.all_segments())
    }

    /// The key-value mapping that the store holds.
    pub closed spec fn view_map(&self) -> Map<Seq<char>, Seq<char>> {
        self.kv@
    }

    /// The logs in the data directory, by segment name, when the file actions handed out
    /// so far are done.
    pub closed spec fn disk(&self) -> Map<Seq<char>, Seq<u8>> {
        self.disk@
    }

    /// The file actions not yet handed out.
    pub closed spec fn pending(&self) -> Seq<FileAction> {
        self.ops@.map_values(|o: FileOp| o@)
    }

    /// The name of the active segment.
    pub closed spec fn active_name(&self) -> Seq<char> {
        self.active.name_view()
    }

    /// Mutations since the last compaction.
    pub closed spec fn mutations(&self) -> u64 {
        self.set_count
    }

    /// Every segment is well formed and named in increasing order; the mapping is what
    /// replaying all logs in order leaves; the index locates the write of every live key.
    pub closed spec fn wf_core(&self) -> bool {
        &&& forall|i: int| 0 <= i < self.all_segments().len() ==> (#[trigger] self.all_segments()[i]).wf()
        &&& names_increasing(self.all_segments())
        &&& self.names.last_view() == Some(self.active.name_view())
        &&& self.kv@ == replay(flatten(self.all_segments()))
        &&& self.memtbl.wf()
        &&& indexes(self.memtbl.view_map(), self.kv@, self.all_segments())
        &&& self.set_count <= COMPACTION_THRESHOLD
    }

    /// The well-formedness of the store, and the directory that the file actions handed
    /// out so far leave, once the pending ones are done, holds exactly its segment logs.
    pub closed spec fn wf(&self) -> bool {
        &&& self.wf_core()
        &&& perform(self.disk@, self.pending()) == dir_of(segment_files(self.all_segments()))
    }

    fn find_segment(&self, file: &String) -> (r: Option<&Segment>)
        requires
            self.wf(),
        ensures
            match r {
                Some(s) => exists|j: int|
                    0 <= j < self.all_segments().len() && self.all_segments()[j] == *s
                        && s.name_view() == file@,
                None => forall|j: int|
                    0 <= j < self.all_segments().len() ==> (#[trigger] self.all_segments()[j]).name_view()
                        != file@,
            },
    {
        if self.active.path().eq(file) {
            assert(self.all_segments()[self.segments@.len() as int] == self.active);
            return Some(&self.active);
        }
        let mut j: usize = 0;
        while j < self.segments.len()
            invariant
                j <= self.segments@.len(),
                self.active.name_view() != file@,
                forall|i: int| 0 <= i < j ==> (#[trigger] self.segments@[i]).name_view() != file@,
            decreases self.segments@.len() - j,
        {
            if self.segments[j].path().eq(file) {
                assert(self.all_segments()[j as int] == self.segments@[j as int]);
                return Some(&self.segments[j]);
            }
            j = j + 1;
        }
        proof {
            assert forall|i: int| 0 <= i < self.all_segments().len() implies (
            #[trigger] self.all_segments()[i]).name_view() != file@ by {
                if i < self.segments@.len() {
                    assert(self.all_segments()[i] == self.segments@[i]);
                }
            }
        }
        None
    }

    /// The value of `key`, or `None` when the key is not in the store.
    pub fn get(&self, key: &str) -> (r: Result<Option<String>>)
        requires
            self.wf(),
        ensures
            r matches Ok(o) && (o is Some <==> self.view_map().contains_key(key@)) && (o matches Some(
                v,
            ) ==> v@ == self.view_map()[key@]),
    {
        match self.memtbl.get(key) {
            None => Ok(None),
            Some(p) => {
                let ghost k = key@;
                let ghost v = self.kv@[k];
                assert(self.memtbl.view_map().contains_key(k));
                let ghost j = choose|j: int|
                    0 <= j < self.all_segments().len() && (#[trigger] self.all_segments()[j]).name_view()
                        == p.file() && holds_write(self.all_segments()[j].log_view(), p.at() as int, k, v);
                match self.find_segment(p.path()) {
                    None => Err(Error { kind: ErrorKind::InvalidLogPointer }),
                    Some(seg) => {
                        proof {
                            let j2 = choose|j2: int|
                                0 <= j2 < self.all_segments().len() && self.all_segments()[j2]
                                    == *seg && seg.name_view() == p.file();
                            if j2 != j {
                                if j2 < j {
                                    crate::naming::lemma_name_lt_ne(
                                        self.all_segments()[j2].name_view(),
                                        self.all_segments()[j].name_view(),
                                    );
                                } else {
                                    crate::naming::lemma_name_lt_ne(
                                        self.all_segments()[j].name_view(),
                                        self.all_segments()[j2].name_view(),
                                    );
                                }
                            }
                            lemma_holds_write_parse(seg.log_view(), p.at() as int, k, v);
                        }
                        match seg.value_at(p.offset()) {
                            Ok(v) => Ok(Some(v)),
                            Err(e) => Err(e),
                        }
                    },
                }
            },
        }
    }

    /// An empty store with a fresh active segment.
    pub fn new() -> (r: KvStore)
        ensures
            r.wf(),
            r.view_map() == Map::<Seq<char>, Seq<char>>::empty(),
            r.pending() == seq![FileAction::Create(r.active_name())],
            r.mutations() == 0,
            r.active_log_len() == 0,
    {
        let mut names = NameGen::new(None);
        let name = names.gen_name();
        let active = Segment::new(name.clone());
        let mut ops: Vec<FileOp> = Vec::new();
        ops.push(FileOp::Create(name));
        let r = KvStore {
            segments: Vec::new(),
            active,
            memtbl: MemTable::new(),
            set_count: 0,
            names,
            ops,
            kv: Ghost(Map::empty()),
            disk: Ghost(Map::empty()),
        };
        proof {
            let all = r.all_segments();
            assert(all.len() == 1);
            assert(all[0] == r.active);
            assert(all =~= Seq::<Segment>::empty().push(r.active));
            lemma_flatten_push(Seq::<Segment>::empty(), r.active);
            assert(flatten(all) =~= Seq::<Mutation>::empty());
            assert(r.pending() =~= seq![FileAction::Create(r.active_name())]);
            lemma_perform_push(Map::empty(), Seq::empty(), FileAction::Create(r.active_name()));
            assert(seq![FileAction::Create(r.active_name())] =~= Seq::<FileAction>::empty().push(
                FileAction::Create(r.active_name()),
            ));
            lemma_dir_push(Seq::<Segment>::empty(), r.active);
            assert(segment_files(Seq::<Segment>::empty()) =~= Seq::<(Seq<char>, Seq<u8>)>::empty());
            assert(Seq::<Segment>::empty().push(r.active) =~= all);
            assert(perform(r.disk@, r.pending()) =~= dir_of(segment_files(all)));
        }
        r
    }

    /// Writes `value` under `key` in the active segment and points the index at it,
    /// without counting towards compaction.
    fn set_no_compact(&mut self, key: String, value: String) -> (r: Result<()>)
        requires
            old(self).wf(),
        ensures
            final(self).wf(),
            final(self).files().len() == old(self).files().len(),
            forall|i: int| 0 <= i < old(self).files().len() ==> (#[trigger] final(self).files()[i]).0 == old(
                self,
            ).files()[i].0,
            final(self).mutations() == old(self).mutations(),
            final(self).active_name() == old(self).active_name(),
            r is Ok <==> old(self).active_log_len() + entry_bytes(Mutation::Write(key@, value@)).len()
                <= usize::MAX,
            match r {
                Ok(_) => {
                    &&& final(self).view_map() == old(self).view_map().insert(key@, value@)
                    &&& final(self).pending() == old(self).pending().push(
                        FileAction::Append(old(self).active_name(), entry_bytes(Mutation::Write(key@, value@))),
                    )
                },
                Err(e) => {
                    &&& e.kind == ErrorKind::Io
                    &&& final(self).view_map() == old(self).view_map()
                    &&& final(self).pending() == old(self).pending()
                },
            },
    {
        let ghost old_all = self.all_segments();
        let ghost m = Mutation::Write(key@, value@);
        let start = self.active.log().len();
        let k = key.clone();
        let p = match self.active.set(key, value) {
            Ok(p) => p,
            Err(e) => {
                proof {
                    assert(self.all_segments() == old_all);
                }
                return Err(e);
            },
        };
        let end = self.active.log().len();
        let bytes = slice_to_vec(slice_subrange(self.active.log().as_slice(), start, end));
        proof {
            assert(bytes@ =~= entry_bytes(m));
            assert(self.active.log_view().subrange(start as int, end as int) =~= entry_bytes(m));
        }
        let ghost pend0 = self.pending();
        self.ops.push(FileOp::Append(self.active.path().clone(), bytes));
        let ghost kv0 = self.kv@;
        proof {
            assert(self.pending() =~= pend0.push(FileAction::Append(self.active.name_view(), entry_bytes(m))));
            lemma_perform_push(self.disk@, pend0, FileAction::Append(self.active.name_view(), entry_bytes(m)));
            lemma_dir_replace_last(self.segments@, old(self).active, self.active);
            assert(self.active.log_view() =~= old(self).active.log_view() + entry_bytes(m));
            assert(perform(self.disk@, self.pending()) =~= dir_of(segment_files(self.all_segments())));
        }
        proof {
            let all = self.all_segments();
            assert(all =~= old_all.drop_last().push(self.active));
            assert(old_all.drop_last() =~= self.segments@);
            lemma_flatten_push(self.segments@, old(self).active);
            lemma_flatten_push(self.segments@, self.active);
            lemma_replay_push(flatten(old_all), m);
            assert(flatten(all) =~= flatten(old_all).push(m));
            assert forall|i: int| 0 <= i < all.len() implies (#[trigger] all[i]).wf() by {
                if i < all.len() - 1 {
                    assert(all[i] == old_all[i]);
                }
            }
            assert forall|i: int, j: int| 0 <= i < j < all.len() implies name_lt(
                #[trigger] all[i].name_view(),
                #[trigger] all[j].name_view(),
            ) by {
                assert(all[i].name_view() == old_all[i].name_view());
                assert(all[j].name_view() == old_all[j].name_view());
            }
            assert(self.active.log_view().subrange(0, old(self).active.log_view().len() as int)
                =~= old(self).active.log_view());
        }
        self.memtbl.insert(k, p);
        self.kv = Ghost(self.kv@.insert(key@, value@));
        proof {
            let all = self.all_segments();
            let mem = self.memtbl.view_map();
            assert forall|k2: Seq<char>| #[trigger] mem.contains_key(k2) implies located(
                all,
                mem[k2].file(),
                mem[k2].at(),
                k2,
                self.kv@[k2],
            ) by {
                if k2 == key@ {
                    assert(all[all.len() - 1] == self.active);
                    assert(self.active.log_view().subrange(p.at() as int, p.at() + entry_bytes(m).len())
                        =~= entry_bytes(m));
                } else {
                    let om = old(self).memtbl.view_map();
                    assert(om.contains_key(k2));
                    lemma_located_grow_last(old_all, self.active, om[k2].file(), om[k2].at(), k2, kv0[k2]);
                }
            }
            assert(self.pending() =~= old(self).pending().push(
                FileAction::Append(old(self).active_name(), entry_bytes(m)),
            ));
        }
        Ok(())
    }


    /// Removes `key`: appends a tombstone to the active segment and drops the key from
    /// the index. Fails with `KeyNotExist` when the key is not in the store.
    pub fn remove(&mut self, key: String) -> (r: Result<()>)
        requires
            old(self).wf(),
        ensures
            final(self).wf(),
            final(self).mutations() == old(self).mutations(),
            final(self).active_name() == old(self).active_name(),
            !old(self).view_map().contains_key(key@) ==> r == Err::<(), Error>(
                Error { kind: ErrorKind::KeyNotExist },
            ),
            r is Ok <==> old(self).view_map().contains_key(key@) && old(self).active_log_len()
                + entry_bytes(Mutation::Erase(key@)).len() <= usize::MAX,
            old(self).view_map().contains_key(key@) && r is Err ==> r == Err::<(), Error>(
                Error { kind: ErrorKind::Io },
            ),
            match r {
                Ok(_) => {
                    &&& final(self).view_map() == old(self).view_map().remove(key@)
                    &&& final(self).pending() == old(self).pending().push(
                        FileAction::Append(old(self).active_name(), entry_bytes(Mutation::Erase(key@))),
                    )
                },
                Err(_) => {
                    &&& final(self).view_map() == old(self).view_map()
                    &&& final(self).pending() == old(self).pending()
                },
            },
    {
        if !self.memtbl.contains(key.as_str()) {
            return Err(Error { kind: ErrorKind::KeyNotExist });
        }
        let ghost old_all = self.all_segments();
        let ghost m = Mutation::Erase(key@);
        let start = self.active.log().len();
        match self.active.remove(&key) {
            Ok(_) => {},
            Err(e) => {
                proof {
                    assert(self.all_segments() == old_all);
                }
                return Err(e);
            },
        }
        let end = self.active.log().len();
        let bytes = slice_to_vec(slice_subrange(self.active.log().as_slice(), start, end));
        proof {
            assert(bytes@ =~= entry_bytes(m));
        }
        let ghost pend0 = self.pending();
        self.ops.push(FileOp::Append(self.active.path().clone(), bytes));
        let ghost kv0 = self.kv@;
        proof {
            assert(self.pending() =~= pend0.push(FileAction::Append(self.active.name_view(), entry_bytes(m))));
            lemma_perform_push(self.disk@, pend0, FileAction::Append(self.active.name_view(), entry_bytes(m)));
            lemma_dir_replace_last(self.segments@, old(self).active, self.active);
            assert(self.active.log_view() =~= old(self).active.log_view() + entry_bytes(m));
            assert(perform(self.disk@, self.pending()) =~= dir_of(segment_files(self.all_segments())));
        }
        proof {
            let all = self.all_segments();
            assert(all =~= old_all.drop_last().push(self.active));
            assert(old_all.drop_last() =~= self.segments@);
            lemma_flatten_push(self.segments@, old(self).active);
            lemma_flatten_push(self.segments@, self.active);
            lemma_replay_push(flatten(old_all), m);
            assert(flatten(all) =~= flatten(old_all).push(m));
            assert forall|i: int| 0 <= i < all.len() implies (#[trigger] all[i]).wf() by {
                if i < all.len() - 1 {
                    assert(all[i] == old_all[i]);
                }
            }
            assert forall|i: int, j: int| 0 <= i < j < all.len() implies name_lt(
                #[trigger] all[i].name_view(),
                #[trigger] all[j].name_view(),
            ) by {
                assert(all[i].name_view() == old_all[i].name_view());
                assert(all[j].name_view() == old_all[j].name_view());
            }
            assert(self.active.log_view().subrange(0, old(self).active.log_view().len() as int)
                =~= old(self).active.log_view());
        }
        self.memtbl.remove(key.as_str());
        self.kv = Ghost(self.kv@.remove(key@));
        proof {
            let all = self.all_segments();
            let mem = self.memtbl.view_map();
            assert forall|k2: Seq<char>| #[trigger] mem.contains_key(k2) implies located(
                all,
                mem[k2].file(),
                mem[k2].at(),
                k2,
                self.kv@[k2],
            ) by {
                let om = old(self).memtbl.view_map();
                assert(om.contains_key(k2));
                lemma_located_grow_last(old_all, self.active, om[k2].file(), om[k2].at(), k2, kv0[k2]);
            }
            assert(self.pending() =~= old(self).pending().push(
                FileAction::Append(old(self).active_name(), entry_bytes(m)),
            ));
        }
        Ok(())
    }


    /// Rewrites every live key into fresh segments, oldest first, starts a new active
    /// segment, and drops every older segment. The mapping is unchanged.
    pub fn compact(&mut self)
        requires
            old(self).wf(),
        ensures
            final(self).wf(),
            final(self).view_map() == old(self).view_map(),
            final(self).mutations() == 0,
            one_write_per_key(final(self).history(), final(self).view_map()),
            final(self).disk() == old(self).disk(),
            forall|i: int, j: int|
                0 <= i < old(self).files().len() && 0 <= j < final(self).files().len() ==> name_lt(
                    #[trigger] old(self).files()[i].0,
                    #[trigger] final(self).files()[j].0,
                ),
            forall|i: int, j: int|
                old(self).pending().len() <= i < j < final(self).pending().len() && (
                #[trigger] final(self).pending()[i]) is Delete ==> (
                #[trigger] final(self).pending()[j]) is Delete,
            final(self).pending().len() >= old(self).pending().len(),
            final(self).pending().subrange(0, old(self).pending().len() as int) == old(self).pending(),
    {
        let ghost last_old = self.active.name_view();
        let ghost old_all = self.all_segments();
        let mut names = NameGen::new(Some(self.active.path().clone()));
        let mut fresh: Vec<Segment> = Vec::new();
        let mut cur = Segment::new(names.gen_name());
        proof {
            assert(fresh@.push(cur)[0] == cur);
        }
        let mut mem2 = MemTable::new();
        let ghost mut kv2: Map<Seq<char>, Seq<char>> = Map::empty();
        let ghost kv = self.kv@;
        proof {
            let segs2 = fresh@.push(cur);
            assert(segs2 =~= Seq::<Segment>::empty().push(cur));
            lemma_flatten_push(Seq::<Segment>::empty(), cur);
            assert(flatten(segs2) =~= Seq::<Mutation>::empty());
            assert(segs2[0] == cur);
        }
        let mut i: usize = 0;
        while i < self.memtbl.keys.len()
            invariant
                self.wf(),
                self.kv@ == kv,
                i <= self.memtbl.keys@.len(),
                consistent(fresh@.push(cur), mem2.view_map(), kv2),
                one_write_per_key(flatten(fresh@.push(cur)), kv2),
                names.last_view() == Some(cur.name_view()),
                forall|j: int|
                    0 <= j < fresh@.push(cur).len() ==> name_lt(
                        last_old,
                        #[trigger] fresh@.push(cur)[j].name_view(),
                    ),
                mem2.wf(),
                forall|k: Seq<char>| #[trigger] kv2.contains_key(k) ==> kv.contains_key(k) && kv2[k] == kv[k],
                forall|t: int|
                    0 <= t < i && kv.contains_key(#[trigger] self.memtbl.keys@[t]@) ==> kv2.contains_key(
                        self.memtbl.keys@[t]@,
                    ),
            decreases self.memtbl.keys@.len() - i,
        {
            let k = &self.memtbl.keys[i];
            if self.memtbl.contains(k.as_str()) && !mem2.contains(k.as_str()) {
                let v = match self.get(k.as_str()) {
                    Ok(Some(v)) => v,
                    _ => {
                        proof {
                            assert(false);
                        }
                        return;
                    },
                };
                proof {
                    let om = self.memtbl.view_map();
                    assert(om.contains_key(k@));
                    let all = self.all_segments();
                    let j = choose|j: int|
                        0 <= j < all.len() && (#[trigger] all[j]).name_view() == om[k@].file()
                            && holds_write(all[j].log_view(), om[k@].at() as int, k@, kv[k@]);
                    assert(all[j].wf());
                    all[j].lemma_hint();
                    lemma_write_len(k@, v@);
                }
                let need = 20 + k.as_str().len() + v.as_str().len();
                if cur.log().len() > usize::MAX - need {
                    let ghost prev = cur.name_view();
                    let mut next = Segment::new(names.gen_name());
                    std::mem::swap(&mut cur, &mut next);
                    proof {
                        lemma_rotate_names(fresh@, next, cur, last_old);
                        lemma_consistent_rotate(fresh@.push(next), cur, mem2.view_map(), kv2);
                        lemma_flatten_push(fresh@.push(next), cur);
                        assert(flatten(fresh@.push(next).push(cur)) =~= flatten(fresh@.push(next)));
                    }
                    fresh.push(next);
                }
                let ghost segs2 = fresh@.push(cur);
                let p = match cur.set(k.clone(), v.clone()) {
                    Ok(p) => p,
                    Err(_) => {
                        proof {
                            assert(false);
                        }
                        return;
                    },
                };
                proof {
                    lemma_consistent_write(segs2, cur, mem2.view_map(), kv2, k@, v@, p);
                    assert(segs2.drop_last().push(cur) =~= fresh@.push(cur));
                    lemma_flatten_push(segs2.drop_last(), cur);
                    lemma_flatten_push(segs2.drop_last(), segs2.last());
                    assert(segs2 =~= segs2.drop_last().push(segs2.last()));
                    assert(flatten(fresh@.push(cur)) =~= flatten(segs2).push(Mutation::Write(k@, v@)));
                    assert(!kv2.contains_key(k@));
                    lemma_one_write_push(flatten(segs2), kv2, k@, v@);
                }
                mem2.insert(k.clone(), p);
                proof {
                    kv2 = kv2.insert(k@, v@);
                }
                if cur.size() > SEGMENT_SIZE_THRESHOLD {
                    let ghost prev = cur.name_view();
                    let mut next = Segment::new(names.gen_name());
                    std::mem::swap(&mut cur, &mut next);
                    proof {
                        lemma_rotate_names(fresh@, next, cur, last_old);
                        lemma_consistent_rotate(fresh@.push(next), cur, mem2.view_map(), kv2);
                        lemma_flatten_push(fresh@.push(next), cur);
                        assert(flatten(fresh@.push(next).push(cur)) =~= flatten(fresh@.push(next)));
                    }
                    fresh.push(next);
                }
            }
            i = i + 1;
        }
        proof {
            assert forall|k: Seq<char>| kv.contains_key(k) implies #[trigger] kv2.contains_key(k) by {
                assert(self.memtbl.view_map().contains_key(k));
                let t = choose|t: int|
                    0 <= t < self.memtbl.keys@.len() && self.memtbl.keys@[t]@ == k;
                assert(kv.contains_key(self.memtbl.keys@[t]@));
            }
            assert(kv2 =~= kv);
        }
        let ghost prev = cur.name_view();
        let mut active = Segment::new(names.gen_name());
        proof {
            lemma_rotate_names(fresh@, cur, active, last_old);
            lemma_consistent_rotate(fresh@.push(cur), active, mem2.view_map(), kv2);
            lemma_flatten_push(fresh@.push(cur), active);
            assert(flatten(fresh@.push(cur).push(active)) =~= flatten(fresh@.push(cur)));
        }
        fresh.push(cur);
        let ghost fresh_all = fresh@.push(active);
        std::mem::swap(&mut self.segments, &mut fresh);
        std::mem::swap(&mut self.active, &mut active);
        self.memtbl = mem2;
        self.names = names;
        self.set_count = 0;
        let ghost d0 = dir_of(segment_files(old_all));
        let ghost n0 = self.ops@.len() as int;
        proof {
            assert(self.all_segments() == fresh_all);
            assert(fresh@.push(active) == old_all);
            assert(self.pending().subrange(n0, n0) =~= Seq::<FileAction>::empty());
            assert(self.segments@.subrange(0, 0) =~= Seq::<Segment>::empty());
            assert(segment_files(Seq::<Segment>::empty()) =~= Seq::<(Seq<char>, Seq<u8>)>::empty());
            assert(d0.union_prefer_right(Map::<Seq<char>, Seq<u8>>::empty()) =~= d0);
            // every old name sorts before every new one
            assert forall|i: int, j: int|
                0 <= i < old_all.len() && 0 <= j < fresh_all.len() implies name_lt(
                #[trigger] old_all[i].name_view(),
                #[trigger] fresh_all[j].name_view(),
            ) by {
                assert(old_all[old_all.len() - 1].name_view() == last_old);
                if i < old_all.len() - 1 {
                    lemma_name_lt_trans(old_all[i].name_view(), last_old, fresh_all[j].name_view());
                }
            }
        }
        let mut t: usize = 0;
        while t < self.segments.len()
            invariant
                self.wf_core(),
                self.kv@ == kv,
                self.set_count == 0,
                one_write_per_key(self.history(), kv),
                t <= self.segments@.len(),
                n0 == old(self).ops@.len(),
                self.ops@.len() >= n0,
                self.ops@.subrange(0, n0) == old(self).ops@,
                self.all_segments() == fresh_all,
                self.disk@ == old(self).disk@,
                perform(d0, self.pending().subrange(n0, self.pending().len() as int)) == d0.union_prefer_right(
                    dir_of(segment_files(self.segments@.subrange(0, t as int))),
                ),
                forall|i: int| n0 <= i < self.pending().len() ==> !(#[trigger] self.pending()[i] is Delete),
            decreases self.segments@.len() - t,
        {
            let name = self.segments[t].path().clone();
            let bytes = slice_to_vec(self.segments[t].log().as_slice());
            let hint = self.segments[t].flush();
            let ghost p0 = self.pending();
            let ghost seg = self.segments@[t as int];
            self.ops.push(FileOp::Create(name.clone()));
            self.ops.push(FileOp::Append(name.clone(), bytes));
            self.ops.push(FileOp::WriteHint(name, hint));
            proof {
                assert(self.ops@.subrange(0, n0) =~= old(self).ops@);
                let c = FileAction::Create(seg.name_view());
                let ap = FileAction::Append(seg.name_view(), seg.log_view());
                let w = FileAction::WriteHint(seg.name_view(), self.ops@[self.ops@.len() - 1]->WriteHint_1@);
                let q0 = p0.subrange(n0, p0.len() as int);
                assert(self.pending() =~= p0.push(c).push(ap).push(w));
                assert(self.pending().subrange(n0, self.pending().len() as int) =~= q0.push(c).push(ap).push(w));
                lemma_perform_push(d0, q0, c);
                lemma_perform_push(d0, q0.push(c), ap);
                lemma_perform_push(d0, q0.push(c).push(ap), w);
                assert(self.segments@.subrange(0, t + 1) =~= self.segments@.subrange(0, t as int).push(seg));
                lemma_dir_push(self.segments@.subrange(0, t as int), seg);
                assert(perform(d0, self.pending().subrange(n0, self.pending().len() as int)) =~= d0.union_prefer_right(
                    dir_of(segment_files(self.segments@.subrange(0, t + 1))),
                ));
            }
            t = t + 1;
        }
        let ghost p1 = self.pending();
        self.ops.push(FileOp::Create(self.active.path().clone()));
        let ghost nn = dir_of(segment_files(fresh_all));
        let ghost mid = self.pending().len() as int;
        proof {
            assert(self.segments@.subrange(0, t as int) =~= self.segments@);
            let c = FileAction::Create(self.active.name_view());
            assert(self.pending() =~= p1.push(c));
            assert(self.pending().subrange(n0, mid) =~= p1.subrange(n0, p1.len() as int).push(c));
            lemma_perform_push(d0, p1.subrange(n0, p1.len() as int), c);
            lemma_dir_push(self.segments@, self.active);
            assert(self.active.log_view() =~= Seq::<u8>::empty());
            assert(perform(d0, self.pending().subrange(n0, mid)) =~= d0.union_prefer_right(nn));
            assert(self.ops@.subrange(0, n0) =~= old(self).ops@);
            assert(Set::<Seq<char>>::empty() =~= Set::new(|n: Seq<char>| exists|j: int| 0 <= j < 0 && fresh@[j].name_view() == n));
            assert(d0.remove_keys(Set::empty()) =~= d0);
        }
        let mut t: usize = 0;
        while t < fresh.len()
            invariant
                self.wf_core(),
                self.kv@ == kv,
                self.set_count == 0,
                one_write_per_key(self.history(), kv),
                t <= fresh@.len(),
                n0 <= mid <= self.pending().len(),
                n0 == old(self).ops@.len(),
                self.ops@.subrange(0, n0) == old(self).ops@,
                self.all_segments() == fresh_all,
                self.disk@ == old(self).disk@,
                fresh@.push(active) == old_all,
                nn == dir_of(segment_files(fresh_all)),
                forall|i: int, j: int|
                    0 <= i < old_all.len() && 0 <= j < fresh_all.len() ==> name_lt(
                        #[trigger] old_all[i].name_view(),
                        #[trigger] fresh_all[j].name_view(),
                    ),
                perform(d0, self.pending().subrange(n0, self.pending().len() as int)) == d0.remove_keys(
                    Set::new(|n: Seq<char>| exists|j: int| 0 <= j < t && fresh@[j].name_view() == n),
                ).union_prefer_right(nn),
                forall|i: int| n0 <= i < mid ==> !(#[trigger] self.pending()[i] is Delete),
                forall|i: int| mid <= i < self.pending().len() ==> #[trigger] self.pending()[i] is Delete,
            decreases fresh@.len() - t,
        {
            let ghost p0 = self.pending();
            let ghost nm = fresh@[t as int].name_view();
            self.ops.push(FileOp::Delete(fresh[t].path().clone()));
            proof {
                assert(self.ops@.subrange(0, n0) =~= old(self).ops@);
                let q0 = p0.subrange(n0, p0.len() as int);
                assert(self.pending() =~= p0.push(FileAction::Delete(nm)));
                assert(self.pending().subrange(n0, self.pending().len() as int) =~= q0.push(FileAction::Delete(nm)));
                lemma_perform_push(d0, q0, FileAction::Delete(nm));
                assert(old_all[t as int] == fresh@[t as int]);
                assert forall|j: int| 0 <= j < fresh_all.len() implies fresh_all[j].name_view() != nm by {
                    crate::naming::lemma_name_lt_ne(old_all[t as int].name_view(), fresh_all[j].name_view());
                }
                lemma_dir_names(segment_files(fresh_all), nm);
                assert forall|j: int| 0 <= j < segment_files(fresh_all).len() implies segment_files(fresh_all)[j].0 != nm by {
                    assert(segment_files(fresh_all)[j].0 == fresh_all[j].name_view());
                }
                let s0 = Set::new(|n: Seq<char>| exists|j: int| 0 <= j < t && fresh@[j].name_view() == n);
                let s1 = Set::new(|n: Seq<char>| exists|j: int| 0 <= j < t + 1 && fresh@[j].name_view() == n);
                assert(s1 =~= s0.insert(nm));
                assert(d0.remove_keys(s0).union_prefer_right(nn).remove(nm) =~= d0.remove_keys(s1).union_prefer_right(nn));
            }
            t = t + 1;
        }
        let ghost p2 = self.pending();
        self.ops.push(FileOp::Delete(active.path().clone()));
        proof {
            let nm = active.name_view();
            let q0 = p2.subrange(n0, p2.len() as int);
            assert(self.pending() =~= p2.push(FileAction::Delete(nm)));
            assert(self.pending().subrange(n0, self.pending().len() as int) =~= q0.push(FileAction::Delete(nm)));
            lemma_perform_push(d0, q0, FileAction::Delete(nm));
            assert(old_all[old_all.len() - 1] == active);
            assert forall|j: int| 0 <= j < fresh_all.len() implies fresh_all[j].name_view() != nm by {
                crate::naming::lemma_name_lt_ne(old_all[old_all.len() - 1].name_view(), fresh_all[j].name_view());
            }
            lemma_dir_names(segment_files(fresh_all), nm);
            assert forall|j: int| 0 <= j < segment_files(fresh_all).len() implies segment_files(fresh_all)[j].0 != nm by {
                assert(segment_files(fresh_all)[j].0 == fresh_all[j].name_view());
            }
            let s0 = Set::new(|n: Seq<char>| exists|j: int| 0 <= j < t && fresh@[j].name_view() == n);
            let all_old = Set::new(|n: Seq<char>| exists|j: int| 0 <= j < old_all.len() && old_all[j].name_view() == n);
            assert forall|n: Seq<char>| d0.contains_key(n) implies #[trigger] all_old.contains(n) by {
                lemma_dir_names(segment_files(old_all), n);
                let j = choose|j: int| 0 <= j < segment_files(old_all).len() && segment_files(old_all)[j].0 == n;
                assert(old_all[j].name_view() == n);
            }
            assert forall|n: Seq<char>| #[trigger] all_old.contains(n) implies s0.insert(nm).contains(n) by {
                let j = choose|j: int| 0 <= j < old_all.len() && old_all[j].name_view() == n;
                if j < old_all.len() - 1 {
                    assert(fresh@[j] == old_all[j]);
                }
            }
            assert(!nn.contains_key(nm));
            assert forall|n: Seq<char>| #[trigger] d0.remove_keys(s0).contains_key(n) implies n == nm by {
                assert(d0.contains_key(n));
                assert(all_old.contains(n));
                assert(s0.insert(nm).contains(n));
            }
            assert(d0.remove_keys(s0).union_prefer_right(nn).remove(nm) =~= nn);
            lemma_perform_concat(self.disk@, old(self).pending(), self.pending().subrange(n0, self.pending().len() as int));
            assert(old(self).pending() + self.pending().subrange(n0, self.pending().len() as int) =~= self.pending()) by {
                assert(self.pending().subrange(0, n0) =~= old(self).pending());
            }
            assert(self.ops@.subrange(0, n0) =~= old(self).ops@);
            assert(self.pending().subrange(0, old(self).pending().len() as int) =~= old(self).pending());
            assert(self.disk@ == old(self).disk@);
        }
    }

    /// Writes `value` under `key`. Every mutation past the compaction threshold
    /// compacts the logs. Fails, changing nothing, only when the active log would
    /// outgrow the address space.
    pub fn set(&mut self, key: String, value: String) -> (r: Result<()>)
        requires
            old(self).wf(),
        ensures
            final(self).wf(),
            r is Ok <==> old(self).active_log_len() + entry_bytes(Mutation::Write(key@, value@)).len()
                <= usize::MAX,
            match r {
                Ok(_) => {
                    &&& final(self).view_map() == old(self).view_map().insert(key@, value@)
                    &&& old(self).mutations() + 1 > COMPACTION_THRESHOLD ==> final(self).mutations() == 0
                        && one_write_per_key(final(self).history(), final(self).view_map())
                        && (forall|i: int, j: int|
                        0 <= i < old(self).files().len() && 0 <= j < final(self).files().len() ==> name_lt(
                            #[trigger] old(self).files()[i].0,
                            #[trigger] final(self).files()[j].0,
                        ))
                    &&& old(self).mutations() + 1 <= COMPACTION_THRESHOLD ==> final(self).mutations()
                        == old(self).mutations() + 1 && final(self).pending() == old(self).pending().push(
                        FileAction::Append(old(self).active_name(), entry_bytes(Mutation::Write(key@, value@))),
                    )
                    &&& final(self).pending().len() > old(self).pending().len()
                    &&& final(self).pending().subrange(0, old(self).pending().len() + 1 as int)
                        == old(self).pending().push(
                        FileAction::Append(old(self).active_name(), entry_bytes(Mutation::Write(key@, value@))),
                    )
                },
                Err(e) => {
                    &&& e.kind == ErrorKind::Io
                    &&& final(self).view_map() == old(self).view_map()
                    &&& final(self).pending() == old(self).pending()
                },
            },
    {
        proof {
            assert(self.all_segments()[self.segments@.len() as int] == self.active);
        }
        match self.set_no_compact(key, value) {
            Ok(_) => {},
            Err(e) => {
                return Err(e);
            },
        }
        self.set_count = self.set_count + 1;
        if self.set_count > COMPACTION_THRESHOLD {
            let ghost mid = self.pending();
            self.set_count = 0;
            let ghost mid_files = self.files();
            self.compact();
            proof {
                assert forall|i: int, j: int|
                    0 <= i < old(self).files().len() && 0 <= j < self.files().len() implies name_lt(
                    #[trigger] old(self).files()[i].0,
                    #[trigger] self.files()[j].0,
                ) by {
                    assert(mid_files[i].0 == old(self).files()[i].0);
                    assert(i < mid_files.len());
                    assert(name_lt(mid_files[i].0, self.files()[j].0));
                }
            }
            proof {
                assert(self.pending().subrange(0, mid.len() as int) == mid);
                assert(self.pending().subrange(0, mid.len() as int) =~= mid);
            }
        }
        Ok(())
    }

    /// The length of the active segment's log.
    pub closed spec fn active_log_len(&self) -> int {
        self.active.log_view().len() as int
    }


    /// Opens a store over the segment files of a directory, in any order: sorts them by
    /// name, oldest first, reads every log back, rebuilds each hint, applies the hints to
    /// the index in order, and starts a new active segment named after every file. The
    /// rebuilt hints are written back, then the new active log is created. Fails with
    /// `InvalidLogEntry` when some log is not exactly a sequence of entries.
    pub fn open(listing: Vec<(String, Vec<u8>)>) -> (r: Result<KvStore>)
        requires
            names_distinct(file_views(listing@)),
        ensures
            exists|fs: Seq<(Seq<char>, Seq<u8>)>|
                files_sorted(fs) && #[trigger] dir_of(fs) == dir_of(file_views(listing@)),
            forall|fs: Seq<(Seq<char>, Seq<u8>)>|
                files_sorted(fs) && #[trigger] dir_of(fs) == dir_of(file_views(listing@)) ==> match image_view(fs) {
                    None => r == Err::<KvStore, Error>(Error { kind: ErrorKind::InvalidLogEntry }),
                    Some(kv) => r matches Ok(s) && s.wf() && s.view_map() == kv && s.mutations() == 0
                        && s.active_log_len() == 0 && s.disk() == dir_of(file_views(listing@))
                        && s.files() == fs.push((s.active_name(), Seq::<u8>::empty()))
                        && s.pending().len() == fs.len() + 1
                        && s.pending().last() == FileAction::Create(s.active_name())
                        && (forall|i: int| 0 <= i < s.pending().len() - 1 ==> (#[trigger] s.pending()[i]) is WriteHint),
                },
            r matches Ok(s) ==> forall|i: int| 0 <= i < listing@.len() ==> name_lt(#[trigger] listing@[i].0@, s.active_name()),
    {
        let files = sort_by_name(&listing);
        let ghost fv = file_views(files@);
        let r = Self::open_sorted(files);
        proof {
            assert forall|fs: Seq<(Seq<char>, Seq<u8>)>|
                files_sorted(fs) && #[trigger] dir_of(fs) == dir_of(file_views(listing@)) implies fs == fv by {
                lemma_listing_unique(fs, fv);
            }
            assert(dir_of(fv) == dir_of(file_views(listing@)));
            if r is Ok {
                let s = r->Ok_0;
                assert forall|i: int| 0 <= i < listing@.len() implies name_lt(#[trigger] listing@[i].0@, s.active_name()) by {
                    let n = listing@[i].0@;
                    assert(file_views(listing@)[i].0 == n);
                    lemma_dir_names(file_views(listing@), n);
                    lemma_dir_names(fv, n);
                    let j = choose|j: int| 0 <= j < fv.len() && fv[j].0 == n;
                    assert(fv[j].0 == files@[j].0@);
                }
            }
        }
        r
    }

    /// Opens a store over segment files, given oldest first: reads every log back,
    /// rebuilds each hint, applies the hints to the index in order, and starts a new
    /// active segment named after every file. The rebuilt hints are written back, then
    /// the new active log is created. Fails with `InvalidLogEntry` when some log is not
    /// exactly a sequence of entries.
    fn open_sorted(files: Vec<(String, Vec<u8>)>) -> (r: Result<KvStore>)
        requires
            files_sorted(file_views(files@)),
        ensures
            match image_view(file_views(files@)) {
                None => r == Err::<KvStore, Error>(Error { kind: ErrorKind::InvalidLogEntry }),
                Some(kv) => r matches Ok(s) && s.wf() && s.view_map() == kv && s.mutations() == 0
                    && s.pending().len() == files@.len() + 1
                    && s.pending().last() == FileAction::Create(s.active_name()) && s.active_log_len() == 0
                    && s.disk() == dir_of(file_views(files@))
                    && s.files() == file_views(files@).push((s.active_name(), Seq::<u8>::empty()))
                    && (forall|i: int| 0 <= i < s.pending().len() - 1 ==> (#[trigger] s.pending()[i]) is WriteHint)
                    && (forall|i: int| 0 <= i < files@.len() ==> name_lt(#[trigger] files@[i].0@, s.active_name())),
            },
    {
        let ghost fv = file_views(files@);
        let mut segments: Vec<Segment> = Vec::new();
        let mut mem = MemTable::new();
        let ghost mut kv: Map<Seq<char>, Seq<char>> = Map::empty();
        let mut i: usize = 0;
        proof {
            assert(fv.subrange(0, 0) =~= Seq::<(Seq<char>, Seq<u8>)>::empty());
            assert(flatten(Seq::<Segment>::empty()) =~= Seq::<Mutation>::empty());
        }
        while i < files.len()
            invariant
                fv == file_views(files@),
                files_sorted(fv),
                i <= files@.len(),
                segments@.len() == i,
                forall|t: int| 0 <= t < i ==> (#[trigger] segments@[t]).wf() && segments@[t].name_view() == fv[t].0
                    && segments@[t].log_view() == fv[t].1,
                names_increasing(segments@),
                image_history(fv.subrange(0, i as int)) == Some(flatten(segments@)),
                kv == replay(flatten(segments@)),
                mem.wf(),
                indexes(mem.view_map(), kv, segments@),
            decreases files@.len() - i,
        {
            let name = files[i].0.clone();
            let log = slice_to_vec(files[i].1.as_slice());
            proof {
                assert(fv[i as int] == (files@[i as int].0@, files@[i as int].1@));
            }
            let seg = match Segment::open(name.clone(), log) {
                Ok(seg) => seg,
                Err(e) => {
                    proof {
                        assert(fv.subrange(0, i + 1).drop_last() =~= fv.subrange(0, i as int));
                        lemma_image_prefix(fv, i + 1);
                    }
                    return Err(e);
                },
            };
            let ghost h = flatten(segments@);
            let ghost es = seg.history();
            let ghost kv0 = kv;
            let ghost segs2 = segments@.push(seg);
            proof {
                seg.lemma_hint();
                seg.hint_view().lemma_wf();
                lemma_replay_concat(h, es);
                assert forall|k: Seq<char>| #[trigger] mem.view_map().contains_key(k) implies located(
                    segs2,
                    mem.view_map()[k].file(),
                    mem.view_map()[k].at(),
                    k,
                    kv[k],
                ) by {
                    lemma_located_push(segments@, seg, mem.view_map()[k].file(), mem.view_map()[k].at(), k, kv[k]);
                }
            }
            let kv1 = apply_hint(&mut mem, Ghost(kv), Ghost(segments@), &seg);
            proof {
                kv = kv1@;
                assert forall|k: Seq<char>| #[trigger] kv.contains_key(k) == replay(h + es).contains_key(k)
                    && (kv.contains_key(k) ==> kv[k] == replay(h + es)[k]) by {
                }
                assert(kv =~= replay(h + es));
                lemma_flatten_push(segments@, seg);
                assert(fv.subrange(0, i + 1).drop_last() =~= fv.subrange(0, i as int));
                assert(fv.subrange(0, i + 1).last() == fv[i as int]);
                if i > 0 {
                    assert(segments@.last().name_view() == fv[i - 1].0);
                    assert(name_lt(fv[i - 1].0, fv[i as int].0));
                }
                lemma_names_push(segments@, seg);
            }
            segments.push(seg);
            i = i + 1;
        }
        let last = if segments.len() > 0 {
            Some(segments[segments.len() - 1].path().clone())
        } else {
            None
        };
        let mut names = NameGen::new(last);
        let name = names.gen_name();
        let active = Segment::new(name.clone());
        let mut ops: Vec<FileOp> = Vec::new();
        let mut t: usize = 0;
        while t < segments.len()
            invariant
                t <= segments@.len(),
                ops@.len() == t,
                forall|j: int| 0 <= j < t ==> (#[trigger] ops@[j])@ is WriteHint,
            decreases segments@.len() - t,
        {
            ops.push(FileOp::WriteHint(segments[t].path().clone(), segments[t].flush()));
            t = t + 1;
        }
        let ghost hints = ops@.map_values(|o: FileOp| o@);
        ops.push(FileOp::Create(name));
        let r = KvStore {
            segments,
            active,
            memtbl: mem,
            set_count: 0,
            names,
            ops,
            kv: Ghost(kv),
            disk: Ghost(dir_of(fv)),
        };
        proof {
            assert(fv.subrange(0, fv.len() as int) =~= fv);
            assert(segment_files(r.segments@) =~= fv);
            assert(segment_files(r.all_segments()) =~= fv.push((r.active.name_view(), Seq::<u8>::empty())));
            assert forall|j: int| 0 <= j < hints.len() implies (#[trigger] hints[j]) is WriteHint by {
                assert(hints[j] == r.ops@[j]@);
            }
            lemma_perform_hints(dir_of(fv), hints);
            assert(r.pending() =~= hints.push(FileAction::Create(r.active.name_view())));
            lemma_perform_push(dir_of(fv), hints, FileAction::Create(r.active.name_view()));
            lemma_dir_push(r.segments@, r.active);
            assert(perform(r.disk@, r.pending()) =~= dir_of(segment_files(r.all_segments())));
            lemma_names_push(r.segments@, r.active);
            lemma_flatten_push(r.segments@, r.active);
            assert(flatten(r.all_segments()) =~= flatten(r.segments@));
            let all = r.all_segments();
            assert forall|t: int| 0 <= t < all.len() implies (#[trigger] all[t]).wf() by {
                if t < r.segments@.len() {
                    assert(all[t] == r.segments@[t]);
                }
            }
            assert forall|k: Seq<char>| #[trigger] r.memtbl.view_map().contains_key(k) implies located(
                all,
                r.memtbl.view_map()[k].file(),
                r.memtbl.view_map()[k].at(),
                k,
                kv[k],
            ) by {
                lemma_located_push(r.segments@, r.active, r.memtbl.view_map()[k].file(), r.memtbl.view_map()[k].at(), k, kv[k]);
            }
            assert forall|t: int| 0 <= t < files@.len() implies name_lt(#[trigger] files@[t].0@, r.active_name()) by {
                assert(fv[t].0 == files@[t].0@);
                let n = r.segments@.len() as int;
                if t < n - 1 {
                    assert(name_lt(r.segments@[t].name_view(), r.segments@[n - 1].name_view()));
                    crate::naming::lemma_bytes_lt_trans(
                        vstd::utf8::encode_utf8(r.segments@[t].name_view()),
                        vstd::utf8::encode_utf8(r.segments@[n - 1].name_view()),
                        vstd::utf8::encode_utf8(r.active_name()),
                    );
                }
            }
        }
        Ok(r)
    }


    /// The segment files that the data directory holds once every pending action is
    /// done, oldest first.
    pub closed spec fn files(&self) -> Seq<(Seq<char>, Seq<u8>)> {
        segment_files(self.all_segments())
    }

    /// The segment files of the store, oldest first: each name with its log.
    pub fn image(&self) -> (r: Vec<(String, Vec<u8>)>)
        requires
            self.wf(),
        ensures
            file_views(r@) == self.files(),
    {
        let mut r: Vec<(String, Vec<u8>)> = Vec::new();
        let mut i: usize = 0;
        while i < self.segments.len()
            invariant
                i <= self.segments@.len(),
                file_views(r@) == segment_files(self.segments@.subrange(0, i as int)),
            decreases self.segments@.len() - i,
        {
            let ghost r0 = r@;
            let name = self.segments[i].path().clone();
            let log = slice_to_vec(self.segments[i].log().as_slice());
            let ghost pair = (name@, log@);
            r.push((name, log));
            proof {
                let seg = self.segments@[i as int];
                assert(pair == (seg.name_view(), seg.log_view()));
                assert(self.segments@.subrange(0, i + 1) =~= self.segments@.subrange(0, i as int).push(seg));
                assert(file_views(r@) =~= file_views(r0).push(pair));
                assert(segment_files(self.segments@.subrange(0, i + 1)) =~= segment_files(
                    self.segments@.subrange(0, i as int),
                ).push(pair));
            }
            i = i + 1;
        }
        let ghost r0 = r@;
        let name = self.active.path().clone();
        let log = slice_to_vec(self.active.log().as_slice());
        let ghost pair = (name@, log@);
        r.push((name, log));
        proof {
            assert(self.segments@.subrange(0, i as int) =~= self.segments@);
            assert(file_views(r@) =~= file_views(r0).push(pair));
            assert(segment_files(self.all_segments()) =~= segment_files(self.segments@).push(pair));
        }
        r
    }

    /// Writes back the hint file of every segment, as when the store is put away.
    pub fn close(&mut self)
        requires
            old(self).wf(),
        ensures
            final(self).wf(),
            final(self).view_map() == old(self).view_map(),
            final(self).files() == old(self).files(),
            final(self).disk() == old(self).disk(),
            final(self).pending().len() == old(self).pending().len() + old(self).files().len(),
            final(self).pending().subrange(0, old(self).pending().len() as int) == old(self).pending(),
            forall|i: int|
                old(self).pending().len() <= i < final(self).pending().len() ==> (
                #[trigger] final(self).pending()[i]) is WriteHint,
    {
        let ghost n0 = self.ops@.len();
        let mut t: usize = 0;
        while t < self.segments.len()
            invariant
                self.wf(),
                self.kv@ == old(self).kv@,
                self.disk@ == old(self).disk@,
                self.segments == old(self).segments,
                self.active == old(self).active,
                t <= self.segments@.len(),
                n0 == old(self).ops@.len(),
                self.ops@.len() == n0 + t,
                self.ops@.subrange(0, n0 as int) == old(self).ops@,
                forall|i: int| n0 <= i < self.pending().len() ==> (#[trigger] self.pending()[i]) is WriteHint,
            decreases self.segments@.len() - t,
        {
            let hint = self.segments[t].flush();
            let ghost p0 = self.pending();
            self.ops.push(FileOp::WriteHint(self.segments[t].path().clone(), hint));
            proof {
                let w = self.ops@[self.ops@.len() - 1]@;
                assert(self.pending() =~= p0.push(w));
                lemma_perform_push(self.disk@, p0, w);
                assert(self.ops@.subrange(0, n0 as int) =~= old(self).ops@);
            }
            t = t + 1;
        }
        let hint = self.active.flush();
        let ghost p0 = self.pending();
        self.ops.push(FileOp::WriteHint(self.active.path().clone(), hint));
        proof {
            let w = self.ops@[self.ops@.len() - 1]@;
            assert(self.pending() =~= p0.push(w));
            lemma_perform_push(self.disk@, p0, w);
            assert(self.ops@.subrange(0, n0 as int) =~= old(self).ops@);
            assert(self.pending().subrange(0, old(self).pending().len() as int) =~= old(self).pending());
            assert(self.files() == old(self).files());
        }
    }

    /// Hands out the pending file actions, oldest first, and forgets them.
    pub fn take_ops(&mut self) -> (r: Vec<FileOp>)
        ensures
            r@.map_values(|o: FileOp| o@) == old(self).pending(),
            final(self).pending() == Seq::<FileAction>::empty(),
            final(self).view_map() == old(self).view_map(),
            final(self).files() == old(self).files(),
            final(self).mutations() == old(self).mutations(),
            final(self).disk() == perform(old(self).disk(), old(self).pending()),
            old(self).wf() ==> final(self).wf(),
    {
        let mut r: Vec<FileOp> = Vec::new();
        std::mem::swap(&mut self.ops, &mut r);
        self.disk = Ghost(perform(self.disk@, old(self).pending()));
        proof {
            assert(self.pending() =~= Seq::<FileAction>::empty());
        }
        r
    }
}

/// Reopening the store gives back exactly the mapping it holds: once the pending file
/// actions are done, the directory holds the store's segment files, and any listing of
/// it sorted by name reads back to the store's mapping.
pub proof fn lemma_reopen(s: &KvStore)
    requires
        s.wf(),
    ensures
        files_sorted(s.files()),
        perform(s.disk(), s.pending()) == dir_of(s.files()),
        image_view(s.files()) == Some(s.view_map()),
        forall|fs: Seq<(Seq<char>, Seq<u8>)>|
            files_sorted(fs) && #[trigger] dir_of(fs) == perform(s.disk(), s.pending()) ==> image_view(fs)
                == Some(s.view_map()),
{
    lemma_segment_files(s.all_segments());
    let fs = s.files();
    assert forall|i: int, j: int| 0 <= i < j < fs.len() implies name_lt(#[trigger] fs[i].0, #[trigger] fs[j].0) by {
        assert(fs[i].0 == s.all_segments()[i].name_view());
        assert(fs[j].0 == s.all_segments()[j].name_view());
    }
    assert forall|fs2: Seq<(Seq<char>, Seq<u8>)>|
        files_sorted(fs2) && #[trigger] dir_of(fs2) == perform(s.disk(), s.pending()) implies image_view(fs2)
            == Some(s.view_map()) by {
        lemma_listing_unique(fs2, fs);
    }
}

/// Durability: once a write of `v` under `k` has taken effect, the store reads `v`
/// under `k`, and so does a store reopened from its directory once the pending file
/// actions are done.
pub proof fn law_durability(before: &KvStore, after: &KvStore, k: Seq<char>, v: Seq<char>)
    requires
        before.wf(),
        after.wf(),
        after.view_map() == before.view_map().insert(k, v),
    ensures
        after.view_map().contains_key(k) && after.view_map()[k] == v,
        forall|fs: Seq<(Seq<char>, Seq<u8>)>|
            files_sorted(fs) && #[trigger] dir_of(fs) == perform(after.disk(), after.pending()) ==> (
            image_view(fs) matches Some(m) && m.contains_key(k) && m[k] == v),
{
    lemma_reopen(after);
}

/// Last write wins: after writing `v1` and then `v2` under `k`, the store reads `v2`,
/// in the process and after reopening its directory.
pub proof fn law_last_write_wins(
    s0: &KvStore,
    s1: &KvStore,
    s2: &KvStore,
    k: Seq<char>,
    v1: Seq<char>,
    v2: Seq<char>,
)
    requires
        s0.wf(),
        s1.wf(),
        s2.wf(),
        s1.view_map() == s0.view_map().insert(k, v1),
        s2.view_map() == s1.view_map().insert(k, v2),
    ensures
        s2.view_map().contains_key(k) && s2.view_map()[k] == v2,
        forall|fs: Seq<(Seq<char>, Seq<u8>)>|
            files_sorted(fs) && #[trigger] dir_of(fs) == perform(s2.disk(), s2.pending()) ==> (
            image_view(fs) matches Some(m) && m.contains_key(k) && m[k] == v2),
{
    lemma_reopen(s2);
}

/// A tombstone hides the key: after writing and then removing `k`, the store has no
/// value under `k`, in the process and after reopening its directory.
pub proof fn law_tombstone(s0: &KvStore, s1: &KvStore, s2: &KvStore, k: Seq<char>, v: Seq<char>)
    requires
        s0.wf(),
        s1.wf(),
        s2.wf(),
        s1.view_map() == s0.view_map().insert(k, v),
        s2.view_map() == s1.view_map().remove(k),
    ensures
        !s2.view_map().contains_key(k),
        forall|fs: Seq<(Seq<char>, Seq<u8>)>|
            files_sorted(fs) && #[trigger] dir_of(fs) == perform(s2.disk(), s2.pending()) ==> (
            image_view(fs) matches Some(m) && !m.contains_key(k)),
{
    lemma_reopen(s2);
}

/// Every key in the index points at a write, in a segment of the store, that decodes to
/// the key and the value that `get` returns.
pub proof fn law_index_points_at_value(s: &KvStore, k: Seq<char>)
    requires
        s.wf(),
        s.view_map().contains_key(k),
    ensures
        exists|j: int, off: int|
            0 <= j < s.files().len() && 0 <= off <= s.files()[j].1.len() && (#[trigger] crate::codec::parse_entry(
                s.files()[j].1.subrange(off, s.files()[j].1.len() as int),
            ) matches Some((m, _)) && m == Mutation::Write(k, s.view_map()[k])),
{
    let p = s.memtbl.view_map()[k];
    assert(s.memtbl.view_map().contains_key(k));
    let segs = s.all_segments();
    let j = choose|j: int|
        0 <= j < segs.len() && (#[trigger] segs[j]).name_view() == p.file() && holds_write(
            segs[j].log_view(),
            p.at() as int,
            k,
            s.view_map()[k],
        );
    lemma_holds_write_parse(segs[j].log_view(), p.at() as int, k, s.view_map()[k]);
    assert(s.files()[j].1 == segs[j].log_view());
}

} // verus!
