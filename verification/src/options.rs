//! The solver's options as the words by which a host names them.

use vstd::prelude::*;
use vstd::string::is_ascii_spec_bytes;
use crate::solver::{Constraint, ConvMode};

verus! {

/// A word that names no option.
#[derive(Clone, Copy, PartialEq, Eq, Structural, Debug)]
pub enum OptionError {
    /// The word names no forward operator.
    ConvMode,
    /// The word names no constraint.
    Constraint,
}

impl OptionError {
    /// What to tell the host.
    pub fn message(&self) -> (text: String)
        ensures
            text@ == (match *self {
                OptionError::ConvMode => "conv_mode must be 'fft' or 'banded'"@,
                OptionError::Constraint => "constraint must be 'nonneg' or 'box01'"@,
            }),
    {
        match self {
            OptionError::ConvMode => "conv_mode must be 'fft' or 'banded'".to_owned(),
            OptionError::Constraint => "constraint must be 'nonneg' or 'box01'".to_owned(),
        }
    }
}

/// Whether `text` reads exactly as `word`.
fn reads_as(text: &str, word: &str) -> (same: bool)
    requires
        word.is_ascii(),
    ensures
        same == (text@ == word@),
{
    if !text.is_ascii() {
        return false;
    }
    let a = text.as_bytes();
    let b = word.as_bytes();
    proof {
        is_ascii_spec_bytes(text);
        is_ascii_spec_bytes(word);
    }
    if a.len() != b.len() {
        return false;
    }
    let mut i: usize = 0;
    while i < a.len()
        invariant
            i <= a.len(),
            a.len() == b.len(),
            a@.len() == text@.len(),
            b@.len() == word@.len(),
            text.is_ascii(),
            word.is_ascii(),
            forall|j: int| 0 <= j < a.len() ==> #[trigger] a[j] == text@[j] as u8,
            forall|j: int| 0 <= j < b.len() ==> #[trigger] b[j] == word@[j] as u8,
            forall|j: int| 0 <= j < i ==> text@[j] == word@[j],
        decreases a.len() - i,
    {
        if a[i] != b[i] {
            return false;
        }
        proof {
            assert(a[i as int] == text@[i as int] as u8);
            assert(b[i as int] == word@[i as int] as u8);
            assert(text@[i as int] as u32 <= 0x7f);
            assert(word@[i as int] as u32 <= 0x7f);
        }
        i = i + 1;
    }
    proof {
        assert(text@ =~= word@);
    }
    true
}

/// The forward operator that a word names: `fft` or `banded`.
pub fn parse_conv_mode(s: &str) -> (mode: Result<ConvMode, OptionError>)
    ensures
        mode == (if s@ == "fft"@ {
            Ok::<ConvMode, OptionError>(ConvMode::Fft)
        } else if s@ == "banded"@ {
            Ok(ConvMode::BandedAR2)
        } else {
            Err(OptionError::ConvMode)
        }),
{
    proof {
        reveal_strlit("fft");
        reveal_strlit("banded");
    }
    if reads_as(s, "fft") {
        Ok(ConvMode::Fft)
    } else if reads_as(s, "banded") {
        Ok(ConvMode::BandedAR2)
    } else {
        Err(OptionError::ConvMode)
    }
}

/// The constraint that a word names: `nonneg` or `box01`.
pub fn parse_constraint(s: &str) -> (constraint: Result<Constraint, OptionError>)
    ensures
        constraint == (if s@ == "nonneg"@ {
            Ok::<Constraint, OptionError>(Constraint::NonNegative)
        } else if s@ == "box01"@ {
            Ok(Constraint::Box01)
        } else {
            Err(OptionError::Constraint)
        }),
{
    proof {
        reveal_strlit("nonneg");
        reveal_strlit("box01");
    }
    if reads_as(s, "nonneg") {
        Ok(Constraint::NonNegative)
    } else if reads_as(s, "box01") {
        Ok(Constraint::Box01)
    } else {
        Err(OptionError::Constraint)
    }
}

} // verus!
