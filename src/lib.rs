//! Host-side bridging layer for an embeddable rule engine: value marshalling,
//! text interchange, callback tables, slot builders, globals snapshots and the
//! command discipline of the environment worker.
use vstd::prelude::*;

pub mod error;
pub mod value;
pub mod text;
pub mod codec;
pub mod marshal;
pub mod udf;
pub mod builder;
pub mod router;
pub mod globals;
pub mod worker;
pub mod environment;
pub mod handlers;

pub use builder::{
    translate_put_slot_error, BuilderCache, FactBuilderData, FactBuilderError,
    InstanceBuilderData, InstanceBuilderError, PutSlotError,
};
pub use codec::{decode, encode};
pub use environment::{
    persistence_count, run_limit_argument, CLIPSEnvironment, ConflictResolutionStrategy,
    UDFCodes, UDFData,
};
pub use error::{CLIPSError, CLIPSResult, UDFConversionError, ValueKind};
pub use handlers::{find_handler, HandlerTable};
pub use globals::{CLIPSGlobalsHierarchy, DefglobalTable, GlobalEntry, ModuleGlobals};
pub use marshal::{extract_clipsvalue, to_raw, CLIPSInstanceName, CLIPSSymbol, RawValue};
pub use router::{character_or_none, router_slots, CLIPSSignal, RouterSlots, RouterSupport};
pub use udf::{argument_type_codes, UDFDeclaration, UDFRegistry, UDFType};
pub use value::CLIPSValue;
pub use worker::{CommandQueue, Request, Step};

