//! The pluggable engine contract.
use crate::error::{text, KvsError};
use vstd::prelude::*;

verus! {

/// A key-value engine: cheaply cloneable, shareable between threads.
pub trait KvsEngine: Clone + Send + 'static {
    /// Sets the value of a key.
    fn set(&self, key: String, value: String) -> Result<(), KvsError>;

    /// Gets the value of a key, `None` if the key is absent.
    fn get(&self, key: String) -> Result<Option<String>, KvsError>;

    /// Removes a key; fails with `KeyNotFound` if it is absent.
    fn remove(&self, key: String) -> Result<(), KvsError>;
}

/// The engines a server can run.
#[derive(Clone, Copy, Debug, PartialEq, Eq, Structural)]
pub enum EngineKind {
    /// The log-structured store.
    Kvs,
    /// The sled database.
    Sled,
}

/// The name under which an engine is persisted in a store's directory.
pub open spec fn engine_tag(e: EngineKind) -> Seq<char> {
    match e {
        EngineKind::Kvs => "kvs"@,
        EngineKind::Sled => "sled"@,
    }
}

/// The name of an engine, as persisted.
pub fn engine_name(e: EngineKind) -> (r: String)
    ensures
        r@ == engine_tag(e),
{
    match e {
        EngineKind::Kvs => text("kvs"),
        EngineKind::Sled => text("sled"),
    }
}

/// Whether two texts are equal.
fn same_text(t: &str, u: &str) -> (r: bool)
    ensures
        r == (t@ == u@),
{
    let n = t.unicode_len();
    if n != u.unicode_len() {
        return false;
    }
    let mut i: usize = 0;
    while i < n
        invariant
            n == t@.len() == u@.len(),
            0 <= i <= n,
            forall|j: int| 0 <= j < i ==> t@[j] == u@[j],
        decreases n - i,
    {
        if t.get_char(i) != u.get_char(i) {
            return false;
        }
        i = i + 1;
    }
    assert(t@ =~= u@);
    true
}

/// The engine to run, given the name persisted in the directory (if any)
/// and the engine requested: the requested one where nothing is persisted
/// or the persisted name is its name; else `UnmatchedEngine`. Where nothing
/// is persisted, the caller persists `engine_name(requested)`.
pub fn select_engine(persisted: Option<&str>, requested: EngineKind) -> (r: Result<EngineKind, KvsError>)
    ensures
        persisted is None ==> r == Ok::<EngineKind, KvsError>(requested),
        persisted matches Some(t) ==> (r is Ok <==> t@ == engine_tag(requested)),
        r matches Ok(e) ==> e == requested,
        r matches Err(e) ==> e is UnmatchedEngine,
{
    match persisted {
        None => Ok(requested),
        Some(t) => {
            let name = engine_name(requested);
            if same_text(t, name.as_str()) {
                Ok(requested)
            } else {
                Err(KvsError::UnmatchedEngine)
            }
        },
    }
}

} // verus!
