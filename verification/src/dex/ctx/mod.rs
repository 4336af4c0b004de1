//! Lock-context index: for any method, source line, or lock, which locks *may* be
//! held there, how many call frames away each was taken and by what path, and the
//! lock-order graph.
//!
//! The index is one interned call graph. Every method records its lock *spans*
//! (each acquisition with the line range it is held over) and its call sites, each
//! tagged with the locks held intra-procedurally at that point. Call sites link to
//! their static target (resolved up the class hierarchy) and, for virtual /
//! interface dispatch with a small implementation set, to each override (a
//! bounded class-hierarchy analysis — a broad interface such as `Runnable.run`
//! is deliberately not linked, since "every lock any caller holds" is noise). Where the
//! receiver's class is known from the bytecode, the call links to that class's method
//! instead, and a call on a formal parameter links to the methods of the classes that
//! callers pass in ([`types`]).
//!
//! Over that graph, the distance of a lock `l` to a method `m` is the fewest call
//! frames between a frame holding `l` and entry to `m`, cut off at
//! [`Options::max_depth`]. A lock is "may-held" on entry to `m` iff it has a distance.
//! Every member is backed by a concrete call path, which [`Index::witness`] recovers by
//! walking the distances back to the acquiring frame. Lock names are the canonical
//! identities of the acquisitions, so a lock reached through an alias or a getter is one
//! lock here too.
//!
//! The lock-order graph (`Y -> X`: X acquired while Y is held) falls out of the
//! same data; its non-trivial strongly connected components are the deadlock
//! candidates. The index persists as a compact little-endian binary
//! ([`Index::write`] / [`Index::read`]) so a query loads in well under a second.

pub mod answers;
pub mod assemble;
pub mod counted;
pub mod cycles;
pub mod index;
pub mod laws;
pub mod link;
pub mod order;
pub mod ordered;
pub mod persist;
pub mod query;
pub mod reach;
pub mod recorded;
pub mod scan;
pub mod scanned;
pub mod sound;
pub mod typed;
pub mod types;
pub mod whole;

pub use index::{Call, Hop, Index, MethodRec, Options, OrderEdge, Span};
pub use whole::build;
