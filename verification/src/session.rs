use vstd::prelude::*;

use crate::accumulator::character_step;
use crate::accumulator::Accumulator;
use crate::debounce::DebounceGate;
use crate::debounce::DEBOUNCE_THRESHOLD_MS;
use crate::trie::ResourceRef;
use crate::trie::Trie;

verus! {

/// One interactive session: the debounce gate and the syllable buffer,
/// driven by one key event at a time against a fixed tree.
pub struct Session {
    gate: DebounceGate,
    accumulator: Accumulator,
}

impl Session {
    /// Timestamp (in milliseconds) of the last accepted key press.
    pub closed spec fn last_accepted(self) -> u64 {
        self.gate.last_accepted()
    }

    /// The current syllable buffer.
    pub closed spec fn text_spec(self) -> Seq<char> {
        self.accumulator.text_spec()
    }

    /// Whether the buffer currently forms a complete syllable.
    pub closed spec fn complete_spec(self) -> bool {
        self.accumulator.complete_spec()
    }

    /// Creates a session as of time `now_ms`, with an empty buffer.
    pub fn new(now_ms: u64) -> (s: Session)
        ensures
            s.last_accepted() == now_ms,
            s.text_spec() == Seq::<char>::empty(),
            !s.complete_spec(),
    {
        Session { gate: DebounceGate::new(now_ms), accumulator: Accumulator::new() }
    }

    /// The current buffer contents, for display.
    pub fn text(&self) -> (t: &Vec<char>)
        ensures
            t@ == self.text_spec(),
    {
        self.accumulator.text()
    }

    /// Whether the buffer currently forms a complete syllable, for display.
    pub fn is_complete(&self) -> (b: bool)
        ensures
            b == self.complete_spec(),
    {
        self.accumulator.is_complete()
    }

    /// Timestamp of the last accepted key press, for display and logging.
    pub fn last_accepted_ms(&self) -> (t: u64)
        ensures
            t == self.last_accepted(),
    {
        self.gate.last_accepted_ms()
    }

    /// Handles one key-press event at time `now_ms`, already classified by
    /// the host's key-to-character mapper (`None` for a key with no textual
    /// mapping).  An event arriving before the debounce threshold has
    /// elapsed — also when the clock moved backward — is dropped whole:
    /// buffer, flag and timestamp are unchanged and nothing plays.  An
    /// accepted event moves the timestamp forward whether or not the lookup
    /// hits; an unmapped key then clears the buffer, a character steps the
    /// buffer as `character_step` says.  Returns the resource to play.
    pub fn handle_key_press(&mut self, trie: &Trie, now_ms: u64, key: Option<char>) -> (played:
        Option<ResourceRef>)
        requires
            trie.wf(),
        ensures
            now_ms < old(self).last_accepted() + DEBOUNCE_THRESHOLD_MS ==> *final(self) == *old(
                self,
            ) && played == None::<ResourceRef>,
            now_ms >= old(self).last_accepted() + DEBOUNCE_THRESHOLD_MS
                ==> final(self).last_accepted() == now_ms && (match key {
                None => final(self).text_spec() == Seq::<char>::empty()
                    && !final(self).complete_spec() && played == None::<ResourceRef>,
                Some(c) => character_step(
                    *trie,
                    old(self).text_spec(),
                    c,
                    final(self).text_spec(),
                    final(self).complete_spec(),
                    played,
                ),
            }),
    {
        if !self.gate.accept(now_ms) {
            return None;
        }
        match key {
            Some(c) => self.accumulator.handle_character(trie, c),
            None => {
                self.accumulator.handle_unmapped_key();
                None
            },
        }
    }
}

} // verus!
