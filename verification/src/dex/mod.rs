//! DEX lock analysis: decode the bytecode of a set of artifacts and name every
//! lock acquisition by its canonical lock.
//!
//! Containers ([`archive`], [`apex`]) give DEX images, [`native`] decodes them into the
//! [`model`], and [`input`] merges what it decoded. [`extract`] and [`inject`] solve what
//! each lock operand stands for, [`acquire`] names every acquisition, and [`resolve`]
//! answers source lines from the result. Over the same model, [`flow`] solves which locks
//! are held where, for [`binder`], [`race`] and the lock-context index in [`ctx`].

pub mod acquire;
pub mod alias;
pub mod apex;
pub mod archive;
pub mod binder;
pub mod bound;
pub mod ctx;
pub mod extract;
pub mod flow;
pub mod guard;
pub mod held;
pub mod hierarchy;
pub mod inject;
pub mod input;
pub mod juc;
pub mod model;
pub mod named;
pub mod native;
pub mod paths;
pub mod race;
pub mod regs;
pub mod remote;
pub mod resolve;
pub mod rounds;
pub mod settle;
pub mod steps;
pub mod zipped;

pub use acquire::{acquisitions, Acquisition};

use model::Dex;
use native::code;
use native::image;
use native::reader::DexError;
use vstd::prelude::*;

verus! {

/// Parse the bytes of one DEX section.
pub fn parse_dex_blob(data: &[u8]) -> (r: Result<Dex, DexError>)
    ensures
        code::same_result(r, image::image(data@)),
        r matches Ok(d) ==> d.wf(),
{
    native::parse_dex_bytes(data)
}

} // verus!
