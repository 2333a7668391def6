//! Handling of ProGuard and R8 mapping files.
//!
//! The library parses mapping files line by line, re-maps obfuscated class
//! names, methods and whole Java stack traces, and parses stack traces. A
//! mapping can also be written to, and read from, a binary cache.

mod builder;
mod cache;
mod java;
mod json;
mod mapper;
mod mapping;
mod param_mapping;
mod properties;
mod remap_laws;
mod stacktrace;
mod text;
mod utils;

pub use cache::{
    CacheError, CacheErrorKind, ClassDebug, MemberDebug, ProguardCache, PRGCACHE_VERSION,
};
pub use java::{
    byte_code_type_to_java_type, deobfuscate_bytecode_signature,
    deobfuscate_bytecode_signature_cache, DeobfuscatedSignature,
};
pub use mapper::{ProguardMapper, RemappedFrameIter};
pub use mapping::{
    LineMapping, MappingSummary, ParseError, ParseErrorKind, ProguardMapping, ProguardRecord,
    ProguardRecordIter, R8Header,
};
pub use stacktrace::{StackFrame, StackTrace, Throwable};
pub use utils::{class_name_to_descriptor, synthesize_source_file};
