use vstd::prelude::*;

use crate::trie::ResourceRef;
use crate::trie::Trie;

verus! {

/// What one classified character does to the syllable buffer: the extended
/// buffer is looked up first; on a hit it is kept and its resource is
/// played.  On a miss the buffer restarts from the character alone and is
/// looked up again; a second miss empties the buffer and plays nothing.
pub open spec fn character_step(
    trie: Trie,
    text0: Seq<char>,
    c: char,
    text1: Seq<char>,
    complete1: bool,
    played: Option<ResourceRef>,
) -> bool {
    match trie.lookup_spec(text0.push(c)) {
        Some((r, leaf)) => text1 == text0.push(c) && complete1 == leaf && played == Some(r),
        None => match trie.lookup_spec(seq![c]) {
            Some((r, leaf)) => text1 == seq![c] && complete1 == leaf && played == Some(r),
            None => text1 == Seq::<char>::empty() && !complete1 && played == None::<ResourceRef>,
        },
    }
}

/// Keystroke accumulator: the characters typed since the last reset and
/// whether they currently form a complete (non-extendable) syllable.
pub struct Accumulator {
    text: Vec<char>,
    is_complete: bool,
}

impl Accumulator {
    /// The characters typed since the last reset.
    pub closed spec fn text_spec(self) -> Seq<char> {
        self.text@
    }

    /// Whether the buffer currently forms a complete syllable: its text
    /// resolved to a node that carries a resource and has no children.
    pub closed spec fn complete_spec(self) -> bool {
        self.is_complete
    }

    /// Creates an empty buffer.
    pub fn new() -> (a: Accumulator)
        ensures
            a.text_spec() == Seq::<char>::empty(),
            !a.complete_spec(),
    {
        Accumulator { text: Vec::new(), is_complete: false }
    }

    /// The current buffer contents, for display.
    pub fn text(&self) -> (t: &Vec<char>)
        ensures
            t@ == self.text_spec(),
    {
        &self.text
    }

    /// Whether the buffer currently forms a complete syllable, for display.
    pub fn is_complete(&self) -> (b: bool)
        ensures
            b == self.complete_spec(),
    {
        self.is_complete
    }

    /// Feeds one classified character: extend and look up; on a miss
    /// restart from this character alone; on a second miss reset.  Returns
    /// the resource to play, if any.
    pub fn handle_character(&mut self, trie: &Trie, c: char) -> (played: Option<ResourceRef>)
        requires
            trie.wf(),
        ensures
            character_step(
                *trie,
                old(self).text_spec(),
                c,
                final(self).text_spec(),
                final(self).complete_spec(),
                played,
            ),
    {
        self.text.push(c);
        self.is_complete = false;
        match trie.lookup_chars(&self.text) {
            Some((r, leaf)) => {
                self.is_complete = leaf;
                Some(r)
            },
            None => {
                self.text.clear();
                self.text.push(c);
                proof {
                    assert(self.text@ =~= seq![c]);
                }
                match trie.lookup_chars(&self.text) {
                    Some((r, leaf)) => {
                        self.is_complete = leaf;
                        Some(r)
                    },
                    None => {
                        self.text.clear();
                        None
                    },
                }
            },
        }
    }

    /// A key with no character mapping clears the buffer unconditionally:
    /// no lookup, no audio.
    pub fn handle_unmapped_key(&mut self)
        ensures
            final(self).text_spec() == Seq::<char>::empty(),
            !final(self).complete_spec(),
    {
        self.text.clear();
        self.is_complete = false;
    }
}

} // verus!
