use vstd::prelude::*;

verus! {

/// The kinds of host value that an engine value can be asked for.
#[derive(Debug, Clone, Copy, PartialEq, Eq, Structural)]
pub enum ValueKind {
    Integer,
    Float,
    String,
    Symbol,
    Boolean,
    InstanceName,
    /// Any value that the host can hold.
    Value,
}

/// Why an engine value could not be turned into the requested host value.
#[derive(Debug, Clone, Copy, PartialEq, Eq, Structural)]
pub enum UDFConversionError {
    /// The value has another type than the one requested, which is named.
    InvalidType(ValueKind),
    /// The text of the value is not valid UTF-8.
    ValueNotUnicode,
    /// The value is a symbol other than the two boolean symbols.
    ValueNotBoolean,
}

/// The errors of the library.
#[derive(Debug, Clone, Copy, PartialEq, Eq, Structural)]
pub enum CLIPSError {
    EnvironmentNotCreated,
    PathNotUnicode,
    ParsingError,
    ProcessingError,
    LoadFromString,
    BatchStar,
    MinArgumentsExceedsMax,
    ArgumentNotRetrieved,
    NameInUse,
    AddRouter,
    ChDir,
    ThreadExited,
    TaskExitedUnexpectedly,
    IO,
    UDFDataConversion(UDFConversionError),
    UnableToAssertFact,
    UnableToMakeInstance,
    RuleNetwork,
    FactOrInstanceRemoved,
    SlotNotFound,
    SlotTypeViolated,
    SlotRangeViolated,
    SlotAllowedValuesViolated,
    SlotCardinalityViolated,
    SlotAllowedClassesViolated,
    UnableToSaveFacts,
    UnableToLoadFacts,
    UnableToSaveInstances,
    UnableToLoadInstances,
    UnexpectedConstructType(u32),
    DefglobalNotFound,
    Unknown,
}

/// The result type of the library's operations.
pub type CLIPSResult<T> = Result<T, CLIPSError>;

} // verus!
