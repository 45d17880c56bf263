//! A structural editor core for a small concatenative stack language,
//! together with a tracing interpreter: programs are edited through a
//! typed zipper (never as raw text), and every edit triggers a full
//! re-evaluation that records each stack state observed at each
//! structural position.

pub mod syntax;
pub mod editor;
pub mod text;
pub mod order;
pub mod polyset;
pub mod value;
pub mod shape;
pub mod valueorder;
pub mod eval;
pub mod shell;
