//! Named memory resources.

use vstd::prelude::*;

verus! {

/// A logical memory resource, known by its name. The name is fixed when the
/// buffer is made and identifies the buffer in emitted code.
pub struct Buffer {
    name: String,
}

impl View for Buffer {
    type V = Seq<char>;

    /// The name of the buffer.
    closed spec fn view(&self) -> Seq<char> {
        self.name@
    }
}

impl Buffer {
    /// A buffer with the given name.
    pub fn new(name: String) -> (buffer: Buffer)
        ensures
            buffer@ == name@,
    {
        Buffer { name }
    }

    /// The name of the buffer.
    pub fn get_name(&self) -> (name: &String)
        ensures
            name@ == self@,
    {
        &self.name
    }
}

} // verus!
