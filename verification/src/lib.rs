//! Text-repair and semantic-match engine for a voice-dictation assistant.
//!
//! Speech-to-text output often splits one word into several fragments
//! ("au jour d hui" for "aujourd'hui").  This library repairs such output:
//! it normalizes the raw transcript, tokenizes it into letter runs,
//! and greedily re-merges adjacent fragments whenever a dictionary
//! automaton, a fuzzy-distance check and an embedding-derived
//! plausibility score agree that the merged word is the intended one.
//! A small phrase matcher picks the best trigger phrase for an
//! utterance from precomputed similarity scores.
//!
//! Audio capture, speech-model inference, the grammar-correction
//! service and keystroke injection are external collaborators: the
//! driving application talks to them and hands this library plain
//! values (text, similarity scores in thousandths, parsed correction
//! spans).

use vstd::prelude::*;

pub mod clean;
pub mod config;
pub mod correction;
pub mod dictionary;
pub mod matcher;
pub mod merge;
pub mod score;
pub mod text;
pub mod tokenizer;

verus! {

/// Logging sink initialization.  The library itself never logs; an
/// embedding application configures its own logger, so this is a no-op
/// kept for callers that expect to invoke it.
pub fn init_logger() {
}

} // verus!
