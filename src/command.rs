use vstd::prelude::*;
use vstd::slice::slice_to_vec;
use vstd::utf8::*;

use crate::codec::text_from_utf8;
use crate::codec::{entry_bytes, Mutation};
use crate::error::{description, Error, ErrorKind, Result};
use crate::resp::Resp;
use crate::store::KvStore;

verus! {

/// A request to the store.
#[derive(Debug, Clone, PartialEq, Eq)]
pub enum KvsCmd {
    /// Set the value of a key.
    Put { key: String, value: String },
    /// Get the value of a key.
    Get { key: String },
    /// Remove a key.
    Rm { key: String },
}

/// A request over abstract text.
pub enum Request {
    Put(Seq<char>, Seq<char>),
    Get(Seq<char>),
    Rm(Seq<char>),
}

impl View for KvsCmd {
    type V = Request;

    open spec fn view(&self) -> Request {
        match self {
            KvsCmd::Put { key, value } => Request::Put(key@, value@),
            KvsCmd::Get { key } => Request::Get(key@),
            KvsCmd::Rm { key } => Request::Rm(key@),
        }
    }
}

/// The verb `get`.
pub open spec fn get_verb() -> Seq<u8> {
    seq![103u8, 101u8, 116u8]
}

/// The verb `set`.
pub open spec fn set_verb() -> Seq<u8> {
    seq![115u8, 101u8, 116u8]
}

/// The verb `rm`.
pub open spec fn rm_verb() -> Seq<u8> {
    seq![114u8, 109u8]
}

/// The text that a bulk string holds, if it is one and holds UTF-8.
pub open spec fn bulk_text(r: Resp) -> Option<Seq<char>> {
    match r {
        Resp::Bulk(b) => if valid_utf8(b@) {
            Some(decode_utf8(b@))
        } else {
            None
        },
        _ => None,
    }
}

/// The request that a frame carries: an array of bulk strings, a verb and its arguments.
pub open spec fn request_of(r: Resp) -> Option<Request> {
    match r {
        Resp::Array(items) => {
            let s = items@;
            if s.len() == 0 {
                None
            } else {
                match s[0] {
                    Resp::Bulk(v) => if v@ == get_verb() && s.len() == 2 && bulk_text(s[1]) is Some {
                        Some(Request::Get(bulk_text(s[1])->0))
                    } else if v@ == rm_verb() && s.len() == 2 && bulk_text(s[1]) is Some {
                        Some(Request::Rm(bulk_text(s[1])->0))
                    } else if v@ == set_verb() && s.len() == 3 && bulk_text(s[1]) is Some && bulk_text(
                        s[2],
                    ) is Some {
                        Some(Request::Put(bulk_text(s[1])->0, bulk_text(s[2])->0))
                    } else {
                        None
                    },
                    _ => None,
                }
            }
        },
        _ => None,
    }
}

fn bytes_eq(a: &Vec<u8>, b: &Vec<u8>) -> (r: bool)
    ensures
        r == (a@ == b@),
{
    if a.len() != b.len() {
        return false;
    }
    let mut i: usize = 0;
    while i < a.len()
        invariant
            a@.len() == b@.len(),
            i <= a@.len(),
            forall|j: int| 0 <= j < i ==> a@[j] == b@[j],
        decreases a@.len() - i,
    {
        if a[i] != b[i] {
            return false;
        }
        i = i + 1;
    }
    assert(a@ =~= b@);
    true
}

fn text_of(r: &Resp) -> (t: Option<String>)
    ensures
        match bulk_text(*r) {
            Some(s) => t matches Some(x) && x@ == s,
            None => t is None,
        },
{
    match r {
        Resp::Bulk(b) => text_from_utf8(b.as_slice()),
        _ => None,
    }
}

fn bulk_of(s: &String) -> (r: Resp)
    ensures
        bulk_text(r) == Some(s@),
{
    let b = slice_to_vec(s.as_str().as_bytes());
    proof {
        encode_utf8_valid_utf8(s@);
        encode_utf8_decode_utf8(s@);
    }
    Resp::Bulk(b)
}

impl KvsCmd {
    /// Reads the request that a frame carries. Fails with `InvalidCommand` when the
    /// frame is not an array of a known verb and its text arguments.
    pub fn from_resp(r: &Resp) -> (c: Result<KvsCmd>)
        ensures
            match request_of(*r) {
                Some(q) => c matches Ok(cmd) && cmd@ == q,
                None => c == Err::<KvsCmd, Error>(Error { kind: ErrorKind::InvalidCommand }),
            },
    {
        let bad = Error { kind: ErrorKind::InvalidCommand };
        let items = match r {
            Resp::Array(items) => items,
            _ => {
                return Err(bad);
            },
        };
        if items.len() == 0 {
            return Err(bad);
        }
        let verb = match &items[0] {
            Resp::Bulk(v) => v,
            _ => {
                return Err(bad);
            },
        };
        let get = vec![103u8, 101u8, 116u8];
        let set = vec![115u8, 101u8, 116u8];
        let rm = vec![114u8, 109u8];
        assert(get@ =~= get_verb());
        assert(set@ =~= set_verb());
        assert(rm@ =~= rm_verb());
        if bytes_eq(verb, &get) && items.len() == 2 {
            match text_of(&items[1]) {
                Some(key) => Ok(KvsCmd::Get { key }),
                None => Err(bad),
            }
        } else if bytes_eq(verb, &rm) && items.len() == 2 {
            match text_of(&items[1]) {
                Some(key) => Ok(KvsCmd::Rm { key }),
                None => Err(bad),
            }
        } else if bytes_eq(verb, &set) && items.len() == 3 {
            match (text_of(&items[1]), text_of(&items[2])) {
                (Some(key), Some(value)) => Ok(KvsCmd::Put { key, value }),
                _ => Err(bad),
            }
        } else {
            Err(bad)
        }
    }

    /// The frame that carries this request.
    pub fn to_resp(&self) -> (r: Resp)
        ensures
            request_of(r) == Some(self@),
    {
        let r = match self {
            KvsCmd::Put { key, value } => Resp::Array(
                vec![Resp::Bulk(vec![115u8, 101u8, 116u8]), bulk_of(key), bulk_of(value)],
            ),
            KvsCmd::Get { key } => Resp::Array(vec![Resp::Bulk(vec![103u8, 101u8, 116u8]), bulk_of(key)]),
            KvsCmd::Rm { key } => Resp::Array(vec![Resp::Bulk(vec![114u8, 109u8]), bulk_of(key)]),
        };
        proof {
            let items = r->Array_0@;
            let v = items[0]->Bulk_0@;
            assert(v =~= get_verb() || v =~= set_verb() || v =~= rm_verb());
        }
        r
    }
}

/// Carries out a request on the store and gives the response frame: the value as a
/// bulk string for a read, a null bulk string for a missing key, an empty simple string
/// for a write or a removal, and an error string on failure.
pub fn execute(store: &mut KvStore, cmd: KvsCmd) -> (r: Resp)
    requires
        old(store).wf(),
    ensures
        final(store).wf(),
        match cmd@ {
            Request::Get(k) => {
                &&& final(store).view_map() == old(store).view_map()
                &&& if old(store).view_map().contains_key(k) {
                    bulk_text(r) == Some(old(store).view_map()[k])
                } else {
                    r == Resp::NullBulk
                }
            },
            Request::Put(k, v) => if old(store).active_log_len() + entry_bytes(Mutation::Write(k, v)).len()
                <= usize::MAX {
                r matches Resp::Simple(s) && s@.len() == 0 && final(store).view_map()
                    == old(store).view_map().insert(k, v)
            } else {
                r matches Resp::Error(s) && s@ == description(ErrorKind::Io) && final(store).view_map()
                    == old(store).view_map()
            },
            Request::Rm(k) => if !old(store).view_map().contains_key(k) {
                r matches Resp::Error(s) && s@ == description(ErrorKind::KeyNotExist)
                    && final(store).view_map() == old(store).view_map()
            } else if old(store).active_log_len() + entry_bytes(Mutation::Erase(k)).len() <= usize::MAX {
                r matches Resp::Simple(s) && s@.len() == 0 && final(store).view_map()
                    == old(store).view_map().remove(k)
            } else {
                r matches Resp::Error(s) && s@ == description(ErrorKind::Io) && final(store).view_map()
                    == old(store).view_map()
            },
        },
{
    match cmd {
        KvsCmd::Get { key } => match store.get(key.as_str()) {
            Ok(Some(v)) => bulk_of(&v),
            Ok(None) => Resp::NullBulk,
            Err(e) => Resp::Error(e.to_string()),
        },
        KvsCmd::Put { key, value } => match store.set(key, value) {
            Ok(_) => Resp::Simple(String::new()),
            Err(e) => Resp::Error(e.to_string()),
        },
        KvsCmd::Rm { key } => match store.remove(key) {
            Ok(_) => Resp::Simple(String::new()),
            Err(e) => Resp::Error(e.to_string()),
        },
    }
}

} // verus!
