//! Stand-ins for the handles through which callers pass models around.
use vstd::prelude::*;

verus! {

/// A token that operations which hand out shared models take.
#[derive(Clone, Copy)]
pub struct Python;

/// Marks types that can be wrapped as a shared handle without conversion.
pub trait PyWrapable {}

/// A bytes object: an owned copy of some bytes.
pub struct PyBytes(pub Vec<u8>);

impl View for PyBytes {
    type V = Seq<u8>;

    open spec fn view(&self) -> Seq<u8> {
        self.0@
    }
}

impl PyWrapable for PyBytes {}

impl PyBytes {
    /// A copy of `from`.
    pub fn new(py: Python, from: &[u8]) -> (r: Self)
        ensures
            r@ == from@,
    {
        let v = crate::bytes::copy_range(from, 0, from.len());
        assert(from@.subrange(0, from@.len() as int) == from@);
        PyBytes(v)
    }
}

/// A handle to a model; reading it hands out a copy.
pub struct Py<T>(pub T);

impl<T: Clone> Py<T> {
    /// A handle holding `obj`.
    pub fn new(py: Python, obj: T) -> (r: crate::python::PyResult<Self>)
        ensures
            r matches Ok(p) && p.0 == obj,
    {
        Ok(Py(obj))
    }

    /// A copy of the model.
    pub fn extract(&self, py: Python) -> (r: crate::python::PyResult<T>)
        ensures
            r matches Ok(v) && cloned(self.0, v),
    {
        Ok(self.0.clone())
    }

    /// Another handle, holding a copy of the model.
    pub fn clone_ref(&self, py: Python) -> (r: Self)
        ensures
            cloned(self.0, r.0),
    {
        Py(self.0.clone())
    }
}

impl<T: PyWrapable + Clone> Py<T> {
    /// A handle holding `obj`.
    pub fn from(obj: T) -> (r: Self)
        ensures
            r.0 == obj,
    {
        Py(obj)
    }
}

} // verus!
