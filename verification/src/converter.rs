//! The state of a converter and the decisions that change it: drawing a
//! number from a described set, and choosing what is shown of it.

use vstd::prelude::*;
use rand::Rng;
use crate::base::NumberBase;
use crate::format::{format_value, formatted};
use crate::parse::{message_of, outcome, parse_range_set, parsed, ParseError, ParseErrorView};

verus! {

/// What a user has set and what was last drawn.
#[derive(Debug, Clone)]
pub struct NumberConverterApp {
    /// The description of the set to draw from.
    pub range_input: String,
    /// The encoding in which the drawn number is shown first.
    pub input_base: NumberBase,
    /// The encoding in which it is shown on request.
    pub output_base: NumberBase,
    /// Whether the first rendering is padded.
    pub pad_input: bool,
    /// Whether the second rendering is padded.
    pub pad_output: bool,
    /// The width, in characters, that the first rendering is padded to.
    pub input_length: u32,
    /// The width, in characters, that the second rendering is padded to.
    pub output_length: u32,
    /// The number that was last drawn, if any.
    pub generated_number: Option<u64>,
    /// Whether the second rendering is shown.
    pub show_converted: bool,
    /// What went wrong at the last draw; empty if nothing did.
    pub error_message: String,
}

/// A `NumberConverterApp` with its texts as sequences of characters.
pub struct ConverterView {
    pub range_input: Seq<char>,
    pub input_base: NumberBase,
    pub output_base: NumberBase,
    pub pad_input: bool,
    pub pad_output: bool,
    pub input_length: u32,
    pub output_length: u32,
    pub generated_number: Option<u64>,
    pub show_converted: bool,
    pub error_message: Seq<char>,
}

impl View for NumberConverterApp {
    type V = ConverterView;

    open spec fn view(&self) -> ConverterView {
        ConverterView {
            range_input: self.range_input@,
            input_base: self.input_base,
            output_base: self.output_base,
            pad_input: self.pad_input,
            pad_output: self.pad_output,
            input_length: self.input_length,
            output_length: self.output_length,
            generated_number: self.generated_number,
            show_converted: self.show_converted,
            error_message: self.error_message@,
        }
    }
}

/// What a user can ask for.
#[derive(Debug, Clone, Copy, PartialEq, Eq, Structural)]
pub enum Request {
    /// Draw a new number from the described set.
    Generate,
    /// Show the drawn number in the second encoding too.
    Check,
}

/// The state a converter starts in: nothing described, nothing drawn,
/// decimal first and binary second, no padding, widths of 8.
pub open spec fn initial() -> ConverterView {
    ConverterView {
        range_input: Seq::empty(),
        input_base: NumberBase::Decimal,
        output_base: NumberBase::Binary,
        pad_input: false,
        pad_output: false,
        input_length: 8,
        output_length: 8,
        generated_number: None,
        show_converted: false,
        error_message: Seq::empty(),
    }
}

/// The message for a description that is right but names no number.
pub open spec fn empty_set_message() -> Seq<char> {
    "No valid numbers provided"@
}

/// The state after a draw from `numbers`, what reading the description
/// gave, with the candidate at `index` as the one drawn.
///
/// A number is drawn only from a set that has one: then it replaces the
/// number drawn before and the message is cleared. Otherwise the number
/// drawn before stays, and the message says what was wrong.
pub open spec fn drawn(
    before: ConverterView,
    numbers: Result<Seq<u64>, ParseErrorView>,
    index: int,
) -> ConverterView {
    match numbers {
        Ok(candidates) => if candidates.len() > 0 {
            ConverterView {
                generated_number: Some(candidates[index]),
                error_message: Seq::empty(),
                ..before
            }
        } else {
            ConverterView { error_message: empty_set_message(), ..before }
        },
        Err(e) => ConverterView { error_message: message_of(e), ..before },
    }
}

/// Whether `after` is what a draw from the set described in `before` can
/// leave: the state after drawing one of the candidates, whichever.
pub open spec fn drawn_from_description(before: ConverterView, after: ConverterView) -> bool {
    let numbers = parsed(before.range_input);
    match numbers {
        Ok(candidates) => if candidates.len() > 0 {
            exists|index: int|
                0 <= index < candidates.len() && after == #[trigger] drawn(before, numbers, index)
        } else {
            after == drawn(before, numbers, 0)
        },
        Err(_) => after == drawn(before, numbers, 0),
    }
}

/// The first rendering: the drawn number in the first encoding.
pub open spec fn input_rendering(state: ConverterView) -> Option<Seq<char>> {
    match state.generated_number {
        Some(n) => Some(formatted(n, state.input_base, state.pad_input, state.input_length)),
        None => None,
    }
}

/// The second rendering: the drawn number in the second encoding, once it
/// was asked for.
pub open spec fn output_rendering(state: ConverterView) -> Option<Seq<char>> {
    match state.generated_number {
        Some(n) => if state.show_converted {
            Some(formatted(n, state.output_base, state.pad_output, state.output_length))
        } else {
            None
        },
        None => None,
    }
}

/// What an `Option` of a string holds, as characters.
pub open spec fn text_of(rendering: Option<String>) -> Option<Seq<char>> {
    match rendering {
        Some(text) => Some(text@),
        None => None,
    }
}

/// Calls `Rng::gen_range` of the `rand` crate on the generator of
/// `rand::thread_rng` with the range from 0 up to, not including, `len`.
/// Which index comes back is a matter of chance; that it lies in the range
/// is all that is known of it. `gen_range` panics on an empty range, which
/// the precondition rules out.
#[verifier::external_body]
fn random_index(len: usize) -> (index: usize)
    requires
        len > 0,
    ensures
        index < len,
{
    rand::thread_rng().gen_range(0..len)
}

impl Default for NumberConverterApp {
    fn default() -> (state: Self)
        ensures
            state@ == initial(),
    {
        NumberConverterApp {
            range_input: String::new(),
            input_base: NumberBase::Decimal,
            output_base: NumberBase::Binary,
            pad_input: false,
            pad_output: false,
            input_length: 8,
            output_length: 8,
            generated_number: None,
            show_converted: false,
            error_message: String::new(),
        }
    }
}

impl NumberConverterApp {
    /// Takes the candidate at `index` of `numbers` as the number drawn, or
    /// records why none can be.
    pub fn draw_at(&mut self, numbers: Result<Vec<u64>, ParseError>, index: usize)
        requires
            numbers matches Ok(candidates) ==> candidates@.len() == 0 || index < candidates@.len(),
        ensures
            final(self)@ == drawn(old(self)@, outcome(numbers), index as int),
    {
        match numbers {
            Ok(candidates) => {
                if candidates.len() > 0 {
                    self.generated_number = Some(candidates[index]);
                    self.error_message = String::new();
                } else {
                    self.error_message = String::from_str("No valid numbers provided");
                }
            },
            Err(e) => {
                self.error_message = e.message();
            },
        }
    }

    /// Reads the description and draws one of its numbers at random.
    pub fn generate_random(&mut self)
        ensures
            drawn_from_description(old(self)@, final(self)@),
    {
        let numbers = parse_range_set(self.range_input.as_str());
        let index: usize = match &numbers {
            Ok(candidates) => if candidates.len() > 0 {
                random_index(candidates.len())
            } else {
                0
            },
            Err(_) => 0,
        };
        self.draw_at(numbers, index);
    }

    /// Does what the user asked for. A new draw hides the second rendering
    /// until it is asked for again.
    pub fn handle(&mut self, request: Request)
        ensures
            match request {
                Request::Generate => exists|mid: ConverterView|
                    #[trigger] drawn_from_description(old(self)@, mid) && final(self)@ == (
                    ConverterView { show_converted: false, ..mid }),
                Request::Check => final(self)@ == (ConverterView {
                    show_converted: true,
                    ..old(self)@
                }),
            },
    {
        match request {
            Request::Generate => {
                self.generate_random();
                assert(drawn_from_description(old(self)@, self@));
                self.show_converted = false;
            },
            Request::Check => {
                self.show_converted = true;
            },
        }
    }

    /// The text of the first rendering, if a number was drawn.
    pub fn input_text(&self) -> (text: Option<String>)
        ensures
            text_of(text) == input_rendering(self@),
    {
        match self.generated_number {
            Some(n) => Some(format_value(n, self.input_base, self.pad_input, self.input_length)),
            None => None,
        }
    }

    /// The text of the second rendering, if a number was drawn and the
    /// rendering was asked for.
    pub fn output_text(&self) -> (text: Option<String>)
        ensures
            text_of(text) == output_rendering(self@),
    {
        match self.generated_number {
            Some(n) => if self.show_converted {
                Some(format_value(n, self.output_base, self.pad_output, self.output_length))
            } else {
                None
            },
            None => None,
        }
    }

    /// Whether there is a message to show.
    pub fn has_error(&self) -> (shown: bool)
        ensures
            shown == (self@.error_message.len() > 0),
    {
        !self.error_message.as_str().is_empty()
    }
}

} // verus!
