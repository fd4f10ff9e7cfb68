pub mod diagnostic;
pub mod limits;
pub mod span;
pub mod strings;
pub mod split_laws;
pub mod regexp;
pub mod cancellation;
pub mod accounting;
pub mod ir;
pub mod ir_clone;
pub mod bytecode;
pub mod compile_faults;
pub mod compiler;
pub mod emitted;
pub mod bindings;
pub mod scope;
pub mod host;
pub mod combinator;
pub mod operators;
pub mod function_order;
pub mod source;
pub mod lowering_spec;
pub mod lowering;
pub mod lowering_laws;
pub mod token_registry;
pub mod sidecar;
pub mod serial_format;
