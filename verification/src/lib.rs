//! Incremental syllable matcher.
//!
//! A character-keyed ordered prefix tree maps syllables (short character
//! sequences) to opaque audio-resource references.  A keystroke accumulator
//! feeds typed characters into the tree one at a time, tracks whether the
//! buffer currently forms a complete syllable, and restarts the buffer on a
//! miss.  A debounce gate rate-limits how often new key events are accepted.

mod accumulator;
mod debounce;
mod session;
mod trie;

pub use accumulator::character_step;
pub use accumulator::Accumulator;
pub use debounce::DebounceGate;
pub use debounce::DEBOUNCE_THRESHOLD_MS;
pub use session::Session;
pub use trie::extendable;
pub use trie::lex_leq;
pub use trie::lemma_lex_leq_antisymmetric;
pub use trie::lemma_lookup_fallback;
pub use trie::lemma_lookup_hit;
pub use trie::lemma_lookup_miss;
pub use trie::lemma_round_trip;
pub use trie::reaches_key;
pub use trie::ResourceRef;
pub use trie::Trie;
