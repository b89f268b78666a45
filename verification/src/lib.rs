//! Relocation of pre-built thunk templates and the layout of the adapters that are
//! materialized from them in executable memory.

pub mod arch;
pub mod jit_alloc;
pub mod safe_jit;
