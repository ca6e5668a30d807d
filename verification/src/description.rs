//! The diagnostic description of each waveform, composed from the texts of
//! its parameters.
use vstd::prelude::*;
use vstd::string::*;

verus! {

/// Whether `part` occurs in `text` as a run of consecutive characters.
#[verifier::opaque]
pub open spec fn contains(text: Seq<char>, part: Seq<char>) -> bool {
    exists|i: int|
        0 <= i && i + part.len() <= text.len() && #[trigger] text.subrange(
            i,
            i + part.len(),
        ) == part
}

/// A part that stands at a known place in a text occurs in it.
pub proof fn lemma_contains_at(text: Seq<char>, part: Seq<char>, at: int)
    requires
        0 <= at,
        at + part.len() <= text.len(),
        text.subrange(at, at + part.len()) =~= part,
    ensures
        contains(text, part),
{
    reveal(contains);
}

/// The description of a sine wave with the given parameter texts.
pub open spec fn sine_text(frequency: Seq<char>, phase: Seq<char>) -> Seq<char> {
    "[Sine] Freq: "@ + frequency + ", Phase: "@ + phase
}

/// Describes a sine wave: its name, then its frequency and its phase as the
/// caller rendered them.
pub fn sine(frequency: &str, phase: &str) -> (text: String)
    ensures
        text@ == sine_text(frequency@, phase@),
        contains(text@, "Sine"@),
        contains(text@, frequency@),
        contains(text@, phase@),
{
    let mut text = String::from_str("[Sine] Freq: ");
    text.append(frequency);
    text.append(", Phase: ");
    text.append(phase);
    proof {
        reveal_strlit("[Sine] Freq: ");
        reveal_strlit("Sine");
        lemma_contains_at(text@, "Sine"@, 1);
        lemma_contains_at(text@, frequency@, "[Sine] Freq: "@.len() as int);
        lemma_contains_at(text@, phase@, text@.len() - phase@.len());
    }
    text
}

/// The description of a rectangular wave with the given parameter texts.
pub open spec fn rectangular_text(
    frequency: Seq<char>,
    phase: Seq<char>,
    duty_cycle: Seq<char>,
) -> Seq<char> {
    "[Rectangular] Freq: "@ + frequency + ", Phase: "@ + phase + ", DutyCycle: "@ + duty_cycle
}

/// Describes a rectangular wave: its name, then its frequency, its phase and
/// its duty cycle as the caller rendered them.
pub fn rectangular(frequency: &str, phase: &str, duty_cycle: &str) -> (text: String)
    ensures
        text@ == rectangular_text(frequency@, phase@, duty_cycle@),
        contains(text@, "Rectangular"@),
        contains(text@, frequency@),
        contains(text@, phase@),
        contains(text@, duty_cycle@),
{
    let mut text = String::from_str("[Rectangular] Freq: ");
    text.append(frequency);
    text.append(", Phase: ");
    text.append(phase);
    text.append(", DutyCycle: ");
    text.append(duty_cycle);
    proof {
        reveal_strlit("[Rectangular] Freq: ");
        reveal_strlit("Rectangular");
        let head = "[Rectangular] Freq: "@.len() as int;
        lemma_contains_at(text@, "Rectangular"@, 1);
        lemma_contains_at(text@, frequency@, head);
        lemma_contains_at(text@, phase@, head + frequency@.len() + ", Phase: "@.len());
        lemma_contains_at(text@, duty_cycle@, text@.len() - duty_cycle@.len());
    }
    text
}

/// The description of a triangle wave with the given parameter text.
pub open spec fn triangle_text(frequency: Seq<char>) -> Seq<char> {
    "[Triangle] Freq: "@ + frequency
}

/// Describes a triangle wave: its name, then its frequency as the caller
/// rendered it.
pub fn triangle(frequency: &str) -> (text: String)
    ensures
        text@ == triangle_text(frequency@),
        contains(text@, "Triangle"@),
        contains(text@, frequency@),
{
    let mut text = String::from_str("[Triangle] Freq: ");
    text.append(frequency);
    proof {
        reveal_strlit("[Triangle] Freq: ");
        reveal_strlit("Triangle");
        lemma_contains_at(text@, "Triangle"@, 1);
        lemma_contains_at(text@, frequency@, "[Triangle] Freq: "@.len() as int);
    }
    text
}

} // verus!
