//! Classification of 32-bit event words from the binary part of an LST file.

use vstd::prelude::*;

verus! {

/// One decoded event word. `Adc(d)` is a detector hit whose payload follows in
/// the stream; `d` tells whether a 16-bit dummy alignment word was inserted
/// between the event word and its payload.
#[derive(Clone, Copy, Debug, PartialEq, Eq, Structural)]
pub enum LstEvent {
    Timer,
    Synchron,
    Adc(bool),
}

/// What `LstEvent::inspect` returns for a word: the four classes are tested in
/// a fixed order so that `0xFFFFFFFF` is never misread as a hit.
pub open spec fn spec_inspect(w: u32) -> Option<LstEvent> {
    if (w >> 16) & 0xFFFF == 0x4000 {
        Some(LstEvent::Timer)
    } else if w == 0xFFFFFFFF {
        Some(LstEvent::Synchron)
    } else if (w >> 30) & 1 == 1 {
        None
    } else {
        Some(LstEvent::Adc((w >> 31) & 1 == 1))
    }
}

impl LstEvent {
    /// Classify a 32-bit event word. The result depends on the word alone.
    pub fn inspect(binary_value: u32) -> (r: Option<LstEvent>)
        ensures
            r == spec_inspect(binary_value),
    {
        if binary_value >> 16 & 0xFFFF == 0x4000 {
            return Some(LstEvent::Timer);
        } else if binary_value == 0xFFFFFFFF {
            return Some(LstEvent::Synchron);
        } else if ((binary_value >> 30) & 1) == 1 {
            // Not an event
            return None;
        }
        let has_dummy_word = binary_value >> 31 & 1 == 1;
        Some(LstEvent::Adc(has_dummy_word))
    }
}

} // verus!
