//! The capability of producing code.

use crate::error::ThrillerResult;
use vstd::prelude::*;

verus! {

/// Something that can produce its code as text.
///
/// Operations implement this trait. The core asks nothing of an
/// implementation: it may fail, and the core reads neither its code nor its
/// failure.
pub trait Task {
    /// Emits the task into SIMT code.
    fn emit(&self) -> ThrillerResult<String>;
}

} // verus!
