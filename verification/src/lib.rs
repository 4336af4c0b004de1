//! Lock-contention resolution over DEX bytecode: decode the bytecode of a build,
//! name every lock acquisition by its canonical lock, and answer which lock a
//! source site takes, which locks may be held there, and how locks order.

pub mod artifact;
pub mod bytes;
pub mod csv_io;
pub mod dex;
pub mod dict;
pub mod dump;
pub mod graph;
pub mod graphs;
pub mod gzip;
pub mod lockctx;
pub mod model;
pub mod names;
pub mod pipeline;
pub mod pprof;
pub mod proto;
pub mod resolver;
pub mod site;
pub mod sort;
pub mod tables;
pub mod tally;
pub mod text;
pub mod traces;
pub mod values;
