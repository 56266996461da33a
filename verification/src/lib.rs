//! FRI transcript replay and Merkle openings for a constrained stack machine.
//!
//! The native side is a SHA-256 hash chain (`channel`) that absorbs the
//! commitments and last-layer values of a FRI proof and from which the
//! folding challenges and the query indices are drawn (`extract`).
//!
//! The constrained side is a machine with two stacks, no memory and no
//! branches (`machine`, with an interpreter in `execute`). The emitters
//! (`channel_gadget`, `fri`, `openings`) build the programs (`script`) that
//! re-derive every challenge from the seed and check every Merkle opening
//! on that machine, taking hints and paths as witness but trusting none of
//! them.
//!
//! What the programs do when they run is proved against the machine's
//! definition: `channel_replay` and `replay` for the transcript,
//! `openings_checked` for the openings, and `laws` for a proof as the
//! emitters take it.
//!
//! What a changed input does to a run is in `tamper`.
//!
//! An emitter that takes a proof (`fri_proof`) refuses one that does not
//! have the shape that the emitter can check: `push_fiat_shamir_input`,
//! which is given the domain size, checks the whole shape; the emitters
//! of the openings check the number of queries and of openings. A proof
//! has a binary layout (`wire`) that is read back without loss
//! (`wire_laws`).

pub mod hash;
pub mod fields;
pub mod extract;
pub mod channel;
pub mod merkle;
pub mod fri_proof;
pub mod wire;
pub mod wire_laws;
pub mod script;
pub mod machine;
pub mod execute;
pub mod rules;
pub mod channel_gadget;
pub mod fri;
pub mod openings;
pub mod channel_replay;
pub mod replay;
pub mod openings_checked;
pub mod laws;
pub mod tamper;
