use syllabs::Accumulator;
use syllabs::DebounceGate;
use syllabs::ResourceRef;
use syllabs::Session;
use syllabs::Trie;
use syllabs::DEBOUNCE_THRESHOLD_MS;

fn r(id: u64) -> ResourceRef {
    ResourceRef { id }
}

#[test]
fn threshold_is_150ms() {
    assert_eq!(DEBOUNCE_THRESHOLD_MS, 150);
}

#[test]
fn accumulator_extends_through_syllable() {
    let mut t = Trie::new();
    t.insert("ka", r(1));
    let mut a = Accumulator::new();
    // "k" is a prefix: fallback plays ka's resource, not yet complete.
    assert_eq!(a.handle_character(&t, 'k'), Some(r(1)));
    assert_eq!(a.text(), &vec!['k']);
    assert!(!a.is_complete());
    assert_eq!(a.handle_character(&t, 'a'), Some(r(1)));
    assert_eq!(a.text(), &vec!['k', 'a']);
    assert!(a.is_complete());
}

#[test]
fn miss_and_restart() {
    // Trie containing "ab" only: 'a' leaves a pending buffer; 'z' misses,
    // the restart with "z" alone also misses, buffer empties, nothing plays.
    let mut t = Trie::new();
    t.insert("ab", r(5));
    let mut a = Accumulator::new();
    let first = a.handle_character(&t, 'a');
    assert_eq!(a.text(), &vec!['a']);
    assert!(!a.is_complete());
    assert_eq!(first, Some(r(5)));
    let second = a.handle_character(&t, 'z');
    assert_eq!(second, None);
    assert_eq!(a.text(), &Vec::<char>::new());
    assert!(!a.is_complete());
}

#[test]
fn miss_then_restart_hits() {
    // Buffer "ba" complete; typing 'k' misses on "bak" but restarts on "k",
    // which is a prefix of "ka".
    let mut t = Trie::new();
    t.insert("ba", r(1));
    t.insert("ka", r(2));
    let mut a = Accumulator::new();
    a.handle_character(&t, 'b');
    a.handle_character(&t, 'a');
    assert!(a.is_complete());
    let played = a.handle_character(&t, 'k');
    assert_eq!(played, Some(r(2)));
    assert_eq!(a.text(), &vec!['k']);
    assert!(!a.is_complete());
}

#[test]
fn unmapped_key_clears_buffer() {
    let mut t = Trie::new();
    t.insert("ka", r(1));
    let mut a = Accumulator::new();
    a.handle_character(&t, 'k');
    a.handle_character(&t, 'a');
    assert_eq!(a.text(), &vec!['k', 'a']);
    a.handle_unmapped_key();
    assert_eq!(a.text(), &Vec::<char>::new());
    assert!(!a.is_complete());
}

#[test]
fn debounce_gate_drops_fast_events() {
    let mut g = DebounceGate::new(1000);
    assert!(!g.accept(1050));
    assert_eq!(g.last_accepted_ms(), 1000);
    assert!(g.accept(1150));
    assert_eq!(g.last_accepted_ms(), 1150);
    assert!(!g.accept(1299));
    assert_eq!(g.last_accepted_ms(), 1150);
}

#[test]
fn debounce_tolerates_clock_moving_backward() {
    let mut g = DebounceGate::new(1000);
    assert!(!g.accept(500));
    assert_eq!(g.last_accepted_ms(), 1000);
}

#[test]
fn session_drops_second_event_50ms_later() {
    // Two key presses 50ms apart: the second is dropped whole, buffer and
    // timestamp unchanged.
    let mut t = Trie::new();
    t.insert("ka", r(1));
    let mut s = Session::new(0);
    let first = s.handle_key_press(&t, 1000, Some('k'));
    assert_eq!(first, Some(r(1)));
    assert_eq!(s.text(), &vec!['k']);
    assert_eq!(s.last_accepted_ms(), 1000);
    let second = s.handle_key_press(&t, 1050, Some('a'));
    assert_eq!(second, None);
    assert_eq!(s.text(), &vec!['k']);
    assert!(!s.is_complete());
    assert_eq!(s.last_accepted_ms(), 1000);
}

#[test]
fn session_unmapped_key_resets() {
    // A buffer of "ka" followed by an unmapped key leaves an empty buffer.
    let mut t = Trie::new();
    t.insert("ka", r(1));
    t.insert("kab", r(2));
    let mut s = Session::new(0);
    s.handle_key_press(&t, 1000, Some('k'));
    s.handle_key_press(&t, 2000, Some('a'));
    assert_eq!(s.text(), &vec!['k', 'a']);
    let played = s.handle_key_press(&t, 3000, None);
    assert_eq!(played, None);
    assert_eq!(s.text(), &Vec::<char>::new());
    assert!(!s.is_complete());
    assert_eq!(s.last_accepted_ms(), 3000);
}

#[test]
fn session_timestamp_advances_on_miss_too() {
    let mut t = Trie::new();
    t.insert("ka", r(1));
    let mut s = Session::new(0);
    let played = s.handle_key_press(&t, 1000, Some('z'));
    assert_eq!(played, None);
    assert_eq!(s.last_accepted_ms(), 1000);
}
