//! The rules that the settings of an analysis have to meet.

use crate::database::Fraction;
use crate::lexing::TokenizingStrategy;
use crate::output::{views, Warning, WarningType, WarningView};
use vstd::prelude::*;
use vstd::string::StringExecFns;

verus! {

/// A setting that rules out an analysis.
#[derive(Debug, Clone, Copy, PartialEq, Eq, Structural)]
pub enum ArgumentError {
    /// The noise threshold is 0.
    ZeroNoiseThreshold,
    /// A largest token offset was given for a strategy other than the
    /// relative one.
    OffsetWithoutRelativeTokens,
    /// The guarantee threshold is smaller than the noise threshold and the
    /// largest token offset together.
    GuaranteeBelowNoise,
    /// The common hash threshold is not above zero.
    ThresholdNotPositive,
    /// The common hash threshold is above one.
    ThresholdAboveOne,
    /// Whitespace cannot be ignored where every byte is a token.
    WhitespaceInBytes,
}

/// The largest token offset that is used: where the relative strategy is
/// given 0, one less than the noise threshold.
pub open spec fn effective_offset(
    noise: int,
    max_token_offset: int,
    tokenizing_strategy: TokenizingStrategy,
) -> int {
    if tokenizing_strategy == TokenizingStrategy::Relative && max_token_offset == 0 {
        noise - 1
    } else {
        max_token_offset
    }
}

/// The first rule that the settings break, if they break one.
pub open spec fn first_error(
    noise: int,
    guarantee: int,
    max_token_offset: int,
    tokenizing_strategy: TokenizingStrategy,
    ignore_whitespace: bool,
    common_hash_threshold: Option<Fraction>,
) -> Option<ArgumentError> {
    if noise == 0 {
        Some(ArgumentError::ZeroNoiseThreshold)
    } else if tokenizing_strategy != TokenizingStrategy::Relative && max_token_offset != 0 {
        Some(ArgumentError::OffsetWithoutRelativeTokens)
    } else if guarantee < noise + effective_offset(noise, max_token_offset, tokenizing_strategy) {
        Some(ArgumentError::GuaranteeBelowNoise)
    } else if common_hash_threshold is Some && (common_hash_threshold->0.numerator == 0
        || common_hash_threshold->0.denominator == 0) {
        Some(ArgumentError::ThresholdNotPositive)
    } else if common_hash_threshold is Some && common_hash_threshold->0.numerator
        > common_hash_threshold->0.denominator {
        Some(ArgumentError::ThresholdAboveOne)
    } else if ignore_whitespace && tokenizing_strategy == TokenizingStrategy::Bytes {
        Some(ArgumentError::WhitespaceInBytes)
    } else {
        None
    }
}

/// Whether the settings deserve the warning that the largest token offset is
/// very small.
pub open spec fn offset_is_small(
    noise: int,
    max_token_offset: int,
    tokenizing_strategy: TokenizingStrategy,
) -> bool {
    tokenizing_strategy == TokenizingStrategy::Relative && 0 < max_token_offset < noise - 1
}

/// The warning about a very small largest token offset.
pub open spec fn small_offset_warning() -> WarningView {
    WarningView {
        file: None,
        message: "The selected max token offset is very small. This may lead to excessive false positives."@,
        warn_type: WarningType::Args,
    }
}

/// The warnings that legal settings get.
pub open spec fn argument_warnings(
    noise: int,
    max_token_offset: int,
    tokenizing_strategy: TokenizingStrategy,
) -> Seq<WarningView> {
    if offset_is_small(noise, max_token_offset, tokenizing_strategy) {
        seq![small_offset_warning()]
    } else {
        Seq::empty()
    }
}

/// An error in words.
pub open spec fn error_text(error: ArgumentError) -> Seq<char> {
    match error {
        ArgumentError::ZeroNoiseThreshold => "Noise threshold must be greater than 0."@,
        ArgumentError::OffsetWithoutRelativeTokens => "Max token offset must be zero for non-relative tokenizing strategies."@,
        ArgumentError::GuaranteeBelowNoise => "Guarantee threshold must be greater than or equal to noise threshold."@,
        ArgumentError::ThresholdNotPositive => "Common hash threshold must be strictly positive."@,
        ArgumentError::ThresholdAboveOne => "Common hash threshold must be less than or equal to one."@,
        ArgumentError::WhitespaceInBytes => "Ignoring whitespace is not supported for the 'bytes' tokenizing strategy."@,
    }
}

impl ArgumentError {
    /// The error in words.
    pub fn message(&self) -> (text: &'static str)
        ensures
            text@ == error_text(*self),
    {
        match self {
            ArgumentError::ZeroNoiseThreshold => "Noise threshold must be greater than 0.",
            ArgumentError::OffsetWithoutRelativeTokens => {
                "Max token offset must be zero for non-relative tokenizing strategies."
            },
            ArgumentError::GuaranteeBelowNoise => {
                "Guarantee threshold must be greater than or equal to noise threshold."
            },
            ArgumentError::ThresholdNotPositive => {
                "Common hash threshold must be strictly positive."
            },
            ArgumentError::ThresholdAboveOne => {
                "Common hash threshold must be less than or equal to one."
            },
            ArgumentError::WhitespaceInBytes => {
                "Ignoring whitespace is not supported for the 'bytes' tokenizing strategy."
            },
        }
    }
}

/// Checks the settings of an analysis before anything is analysed.
///
/// Gives the largest token offset to use and the warnings that the settings
/// deserve, or the first rule that they break. Settings that pass can be
/// handed to the analysis: the noise threshold is not 0, and the guarantee
/// threshold is at least the noise threshold and the largest token offset
/// together.
pub fn check_arguments(
    noise: usize,
    guarantee: usize,
    max_token_offset: usize,
    tokenizing_strategy: TokenizingStrategy,
    ignore_whitespace: bool,
    common_hash_threshold: Option<Fraction>,
) -> (result: Result<(usize, Vec<Warning>), ArgumentError>)
    ensures
        match result {
            Ok((offset, warnings)) => {
                &&& first_error(
                    noise as int,
                    guarantee as int,
                    max_token_offset as int,
                    tokenizing_strategy,
                    ignore_whitespace,
                    common_hash_threshold,
                ) is None
                &&& offset == effective_offset(
                    noise as int,
                    max_token_offset as int,
                    tokenizing_strategy,
                )
                &&& views(warnings@) == argument_warnings(
                    noise as int,
                    max_token_offset as int,
                    tokenizing_strategy,
                )
                &&& noise != 0
                &&& guarantee >= noise + offset
            },
            Err(e) => first_error(
                noise as int,
                guarantee as int,
                max_token_offset as int,
                tokenizing_strategy,
                ignore_whitespace,
                common_hash_threshold,
            ) == Some(e),
        },
{
    let mut warnings: Vec<Warning> = Vec::new();
    if noise == 0 {
        return Err(ArgumentError::ZeroNoiseThreshold);
    }
    let relative: bool = match tokenizing_strategy {
        TokenizingStrategy::Relative => true,
        _ => false,
    };
    let mut offset: usize = max_token_offset;
    if relative {
        if max_token_offset == 0 {
            // Default value
            offset = noise - 1;
        } else if max_token_offset < noise - 1 {
            warnings.push(
                Warning {
                    file: None,
                    message: String::from_str(
                        "The selected max token offset is very small. This may lead to excessive false positives.",
                    ),
                    warn_type: WarningType::Args,
                },
            );
        }
    } else if max_token_offset != 0 {
        return Err(ArgumentError::OffsetWithoutRelativeTokens);
    }
    if guarantee < noise || guarantee - noise < offset {
        return Err(ArgumentError::GuaranteeBelowNoise);
    }
    match common_hash_threshold {
        Some(c) => {
            if c.numerator == 0 || c.denominator == 0 {
                return Err(ArgumentError::ThresholdNotPositive);
            }
            if c.numerator > c.denominator {
                return Err(ArgumentError::ThresholdAboveOne);
            }
        },
        None => {},
    }
    let bytes: bool = match tokenizing_strategy {
        TokenizingStrategy::Bytes => true,
        _ => false,
    };
    if ignore_whitespace && bytes {
        return Err(ArgumentError::WhitespaceInBytes);
    }
    proof {
        assert(views(warnings@) =~= argument_warnings(
            noise as int,
            max_token_offset as int,
            tokenizing_strategy,
        ));
    }
    Ok((offset, warnings))
}

} // verus!
