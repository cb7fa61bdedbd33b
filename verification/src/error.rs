//! Why a random string could not be drawn.
use vstd::prelude::*;

verus! {

/// The reasons for which generation stops without a string.
#[derive(Debug)]
pub enum GenerateError {
    /// `\pX` with a letter that names no general category (the letter as written).
    InvalidCategoryLetter(char),
    /// `\p{name=value}` whose `name` (lowercased) names no category.
    UnknownCategory(String),
    /// `\p{name=value}` whose `value` (lowercased) is not a value of the
    /// category `name` (as written).
    UnknownPropertyValue(String, String),
    /// `\p{}`: an empty property name.
    EmptyPropertyName,
    /// `\p{name}` whose `name` (lowercased) names no binary property, general
    /// category or script.
    UnknownProperty(String),
    /// A draw from ranges handed in directly landed on a surrogate code point
    /// (the classes of a pattern are cut at the surrogates before drawing).
    SurrogateInClass,
    /// A class to draw from holds no character.
    EmptyClass,
    /// A class to draw from holds more than `u32::MAX` code points.
    ClassTooLarge,
    /// A repetition whose least count exceeds its greatest count.
    RepetitionOutOfRange,
    /// An alternation without branches.
    EmptyAlternation,
}

/// `GenerateError` with its strings seen as sequences of chars.
pub enum ErrorModel {
    InvalidCategoryLetter(char),
    UnknownCategory(Seq<char>),
    UnknownPropertyValue(Seq<char>, Seq<char>),
    EmptyPropertyName,
    UnknownProperty(Seq<char>),
    SurrogateInClass,
    EmptyClass,
    ClassTooLarge,
    RepetitionOutOfRange,
    EmptyAlternation,
}

impl View for GenerateError {
    type V = ErrorModel;

    open spec fn view(&self) -> ErrorModel {
        match self {
            GenerateError::InvalidCategoryLetter(c) => ErrorModel::InvalidCategoryLetter(*c),
            GenerateError::UnknownCategory(n) => ErrorModel::UnknownCategory(n@),
            GenerateError::UnknownPropertyValue(p, v) => ErrorModel::UnknownPropertyValue(p@, v@),
            GenerateError::EmptyPropertyName => ErrorModel::EmptyPropertyName,
            GenerateError::UnknownProperty(n) => ErrorModel::UnknownProperty(n@),
            GenerateError::SurrogateInClass => ErrorModel::SurrogateInClass,
            GenerateError::EmptyClass => ErrorModel::EmptyClass,
            GenerateError::ClassTooLarge => ErrorModel::ClassTooLarge,
            GenerateError::RepetitionOutOfRange => ErrorModel::RepetitionOutOfRange,
            GenerateError::EmptyAlternation => ErrorModel::EmptyAlternation,
        }
    }
}

} // verus!
