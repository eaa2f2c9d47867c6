//! Advice on running language models on a local machine.
//!
//! The library judges model files for a machine, ranks them, and holds the steps by which a
//! file is downloaded and a local model server is launched, watched and asked. Input and
//! output are left to its callers: they report what happened, and are told what to do next.
//!
//! Scores are binary64 numbers. They are held as bit patterns, see [`double::Double`], and
//! every operation on them rounds as the format prescribes, to the last bit.

pub mod accuracy;
pub mod advice_laws;
pub mod call_laws;
pub mod catalog;
pub mod catalog_laws;
pub mod chat;
pub mod course_laws;
pub mod decimal;
pub mod double;
pub mod download;
pub mod download_laws;
pub mod hardware;
pub mod judgement_laws;
pub mod launch;
pub mod machine_laws;
pub mod natural;
pub mod number_laws;
pub mod order;
pub mod path_laws;
pub mod place;
pub mod ranking;
pub mod rounding;
pub mod runtime;
pub mod scoring;
pub mod scoring_laws;
pub mod scoring_values;
pub mod search_laws;
pub mod server_laws;
pub mod text;
