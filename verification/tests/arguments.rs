use fungus::arguments::{check_arguments, ArgumentError};
use fungus::database::Fraction;
use fungus::lexing::TokenizingStrategy;
use fungus::output::{Warning, WarningType};

#[test]
fn legal_settings_pass() {
    assert_eq!(
        check_arguments(5, 10, 0, TokenizingStrategy::Bytes, false, None),
        Ok((0, vec![]))
    );
    assert_eq!(
        check_arguments(
            3,
            3,
            0,
            TokenizingStrategy::Naive,
            true,
            Some(Fraction {
                numerator: 1,
                denominator: 1
            })
        ),
        Ok((0, vec![]))
    );
}

#[test]
fn relative_strategy_defaults_to_one_less_than_the_noise_threshold() {
    assert_eq!(
        check_arguments(8, 15, 0, TokenizingStrategy::Relative, true, None),
        Ok((7, vec![]))
    );
    assert_eq!(
        check_arguments(8, 14, 0, TokenizingStrategy::Relative, true, None),
        Err(ArgumentError::GuaranteeBelowNoise)
    );
}

#[test]
fn small_offset_is_warned_of() {
    assert_eq!(
        check_arguments(8, 12, 4, TokenizingStrategy::Relative, true, None),
        Ok((
            4,
            vec![Warning {
                file: None,
                message: "The selected max token offset is very small. This may lead to excessive false positives.".to_owned(),
                warn_type: WarningType::Args,
            }]
        ))
    );
    assert_eq!(
        check_arguments(8, 15, 7, TokenizingStrategy::Relative, true, None),
        Ok((7, vec![]))
    );
}

#[test]
fn every_rule_has_its_error() {
    assert_eq!(
        check_arguments(0, 10, 0, TokenizingStrategy::Bytes, false, None),
        Err(ArgumentError::ZeroNoiseThreshold)
    );
    assert_eq!(
        check_arguments(5, 10, 1, TokenizingStrategy::Bytes, false, None),
        Err(ArgumentError::OffsetWithoutRelativeTokens)
    );
    assert_eq!(
        check_arguments(5, 10, 1, TokenizingStrategy::Naive, false, None),
        Err(ArgumentError::OffsetWithoutRelativeTokens)
    );
    assert_eq!(
        check_arguments(5, 4, 0, TokenizingStrategy::Bytes, false, None),
        Err(ArgumentError::GuaranteeBelowNoise)
    );
    assert_eq!(
        check_arguments(
            5,
            10,
            0,
            TokenizingStrategy::Bytes,
            false,
            Some(Fraction {
                numerator: 0,
                denominator: 4
            })
        ),
        Err(ArgumentError::ThresholdNotPositive)
    );
    assert_eq!(
        check_arguments(
            5,
            10,
            0,
            TokenizingStrategy::Bytes,
            false,
            Some(Fraction {
                numerator: 5,
                denominator: 4
            })
        ),
        Err(ArgumentError::ThresholdAboveOne)
    );
    assert_eq!(
        check_arguments(5, 10, 0, TokenizingStrategy::Bytes, true, None),
        Err(ArgumentError::WhitespaceInBytes)
    );
}

#[test]
fn the_first_broken_rule_is_reported() {
    assert_eq!(
        check_arguments(0, 0, 3, TokenizingStrategy::Bytes, true, None),
        Err(ArgumentError::ZeroNoiseThreshold)
    );
    assert_eq!(
        check_arguments(
            usize::MAX,
            usize::MAX,
            2,
            TokenizingStrategy::Relative,
            false,
            None
        ),
        Err(ArgumentError::GuaranteeBelowNoise)
    );
}

#[test]
fn errors_are_told_in_words() {
    assert_eq!(
        ArgumentError::ZeroNoiseThreshold.message(),
        "Noise threshold must be greater than 0."
    );
    assert_eq!(
        ArgumentError::WhitespaceInBytes.message(),
        "Ignoring whitespace is not supported for the 'bytes' tokenizing strategy."
    );
}
