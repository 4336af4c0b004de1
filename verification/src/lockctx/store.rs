//! The lock-context index as it is stored, gzipped or plain.

use crate::dex::ctx::index::{Index, IndexV};
use crate::dex::ctx::persist;
use crate::dex::ctx::persist::ReadError;
use crate::gzip;
use vstd::prelude::*;

verus! {

/// Why no index was loaded.
#[derive(Clone, Copy, Debug, PartialEq, Eq, Structural)]
pub enum LoadError {
    /// The gzip data is damaged before the index ends.
    Gzip,
    /// The data is no index.
    Index(ReadError),
}

impl LoadError {
    /// What the error says.
    pub fn message(&self) -> (r: &'static str)
        ensures
            r@ == match *self {
                LoadError::Gzip => "invalid gzip data"@,
                LoadError::Index(e) => e.says(),
            },
    {
        match self {
            LoadError::Gzip => "invalid gzip data",
            LoadError::Index(e) => e.message(),
        }
    }
}

/// The index in what came out of stored bytes. It is read up to its end, so what is damaged
/// behind it does not matter.
pub open spec fn taken_from(b: Seq<u8>, whole: bool) -> Result<IndexV, LoadError> {
    match persist::read_back(b) {
        Ok(v) => Ok(v),
        Err(e) => if !whole && (e == ReadError::Short || e == ReadError::Header) {
            Err(LoadError::Gzip)
        } else {
            Err(LoadError::Index(e))
        },
    }
}

/// The result is the index, or why there is none.
pub open spec fn same_load(r: Result<Index, LoadError>, want: Result<IndexV, LoadError>) -> bool {
    match r {
        Ok(x) => want == Ok::<IndexV, LoadError>(x.deep_view()),
        Err(e) => want == Err::<IndexV, LoadError>(e),
    }
}

/// Take the index out of what came out of stored bytes.
pub fn take_from(b: &[u8], whole: bool) -> (r: Result<Index, LoadError>)
    ensures
        same_load(r, taken_from(b@, whole)),
{
    match Index::read(b) {
        Ok(x) => Ok(x),
        Err(e) => if !whole && (e == ReadError::Short || e == ReadError::Header) {
            Err(LoadError::Gzip)
        } else {
            Err(LoadError::Index(e))
        },
    }
}

/// The index as it is stored (gzipped when `gz` says so).
pub fn save(idx: &Index, gz: bool) -> (r: Option<Vec<u8>>)
    ensures
        match r {
            Some(z) => gzip::stores(z@, persist::written(idx.deep_view()), gz),
            None => gz && gzip::gzip_of(persist::written(idx.deep_view())) is None,
        },
{
    gzip::pack(idx.write(), gz)
}

/// Load an index that [`save`] stored. Of damaged gzip data as much counts as came out of
/// it.
pub fn load(z: Vec<u8>, gz: bool) -> (r: Result<Index, LoadError>)
    ensures
        match gzip::held(z@, gz) {
            Some(b) => same_load(r, taken_from(b, true)),
            None => exists|b: Seq<u8>| same_load(r, #[trigger] taken_from(b, false)),
        },
{
    let u = gzip::unpack(z, gz);
    let r = take_from(u.bytes.as_slice(), u.whole);
    proof {
        assert(same_load(r, taken_from(u.bytes@, u.whole)));
    }
    r
}

/// Loading what was saved gives the index back, gzipped or not.
pub proof fn law_load_returns_saved(v: IndexV, z: Seq<u8>, gz: bool)
    requires
        persist::storable(v),
        gzip::stores(z, persist::written(v), gz),
    ensures
        gzip::held(z, gz) == Some(persist::written(v)),
        taken_from(persist::written(v), true) == Ok::<IndexV, LoadError>(v),
{
    persist::law_read_returns_written(v);
}

/// What is damaged behind the index does not matter: it is there as soon as all of it came
/// out.
pub proof fn law_damage_behind_the_index_is_ignored(v: IndexV)
    requires
        persist::storable(v),
    ensures
        taken_from(persist::written(v), false) == Ok::<IndexV, LoadError>(v),
{
    persist::law_read_returns_written(v);
}

} // verus!
