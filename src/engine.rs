use vstd::prelude::*;

use crate::error::{Error, ErrorKind, Result};
use crate::store::KvStore;

verus! {

/// A pluggable storage backend: a mapping from text keys to text values.
pub trait KvsEngine: Sized {
    /// Whether the engine is in a usable state.
    spec fn ready(&self) -> bool;

    /// The mapping that the engine holds.
    spec fn contents(&self) -> Map<Seq<char>, Seq<char>>;

    /// Sets the value of a key. On failure the mapping is unchanged.
    fn set(&mut self, key: String, value: String) -> (r: Result<()>)
        requires
            old(self).ready(),
        ensures
            final(self).ready(),
            r is Ok ==> final(self).contents() == old(self).contents().insert(key@, value@),
            r is Err ==> final(self).contents() == old(self).contents(),
    ;

    /// The value of a key, or `None` when the key is absent.
    fn get(&mut self, key: String) -> (r: Result<Option<String>>)
        requires
            old(self).ready(),
        ensures
            final(self).ready(),
            final(self).contents() == old(self).contents(),
            r matches Ok(o) ==> (o is Some <==> old(self).contents().contains_key(key@)) && (o matches Some(
                v,
            ) ==> v@ == old(self).contents()[key@]),
    ;

    /// Removes a key; fails with `KeyNotExist` when it is absent. On failure the
    /// mapping is unchanged.
    fn remove(&mut self, key: String) -> (r: Result<()>)
        requires
            old(self).ready(),
        ensures
            final(self).ready(),
            !old(self).contents().contains_key(key@) ==> r == Err::<(), Error>(
                Error { kind: ErrorKind::KeyNotExist },
            ),
            r is Ok ==> final(self).contents() == old(self).contents().remove(key@),
            r is Err ==> final(self).contents() == old(self).contents(),
    ;
}

impl KvsEngine for KvStore {
    open spec fn ready(&self) -> bool {
        self.wf()
    }

    open spec fn contents(&self) -> Map<Seq<char>, Seq<char>> {
        self.view_map()
    }

    fn set(&mut self, key: String, value: String) -> (r: Result<()>) {
        KvStore::set(self, key, value)
    }

    fn get(&mut self, key: String) -> (r: Result<Option<String>>) {
        KvStore::get(self, key.as_str())
    }

    fn remove(&mut self, key: String) -> (r: Result<()>) {
        KvStore::remove(self, key)
    }
}

/// Checks the engine name recorded in a data directory, if any, against the engine that
/// opens it: they must agree, so that two engines never mix their files.
pub fn check(recorded: Option<String>, engine: &String) -> (r: Result<()>)
    ensures
        r is Ok <==> (recorded matches Some(s) ==> s@ == engine@),
        r is Err ==> r == Err::<(), Error>(Error { kind: ErrorKind::InvalidEngine }),
{
    match recorded {
        Some(s) => {
            if s.eq(engine) {
                Ok(())
            } else {
                Err(Error { kind: ErrorKind::InvalidEngine })
            }
        },
        None => Ok(()),
    }
}

} // verus!
