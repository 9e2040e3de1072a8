//! Gas metering for WebAssembly modules: each function body is divided into
//! metered blocks and a call to an imported `env.gas` function is inserted at
//! the start of each block, charging its static cost in advance.
pub mod instruction;
pub mod rules;
pub mod metering;
pub mod inject;
pub mod module;
pub mod gas;
pub mod lemmas;
