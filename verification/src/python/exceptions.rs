//! Constructors for the error categories.
use vstd::prelude::*;

use crate::python::{ErrorKind, PyErr};

verus! {

pub struct PyValueError {}

pub struct PyRuntimeError {}

pub struct PyIndexError {}

pub struct PyAssertionError {}

impl PyValueError {
    pub fn new_err(value: &str) -> (r: PyErr)
        ensures
            r.kind == ErrorKind::ValueError,
            r.value@ == value@,
    {
        PyErr::new(ErrorKind::ValueError, value)
    }
}

impl PyRuntimeError {
    pub fn new_err(value: &str) -> (r: PyErr)
        ensures
            r.kind == ErrorKind::RuntimeError,
            r.value@ == value@,
    {
        PyErr::new(ErrorKind::RuntimeError, value)
    }
}

impl PyIndexError {
    pub fn new_err(value: &str) -> (r: PyErr)
        ensures
            r.kind == ErrorKind::IndexError,
            r.value@ == value@,
    {
        PyErr::new(ErrorKind::IndexError, value)
    }
}

impl PyAssertionError {
    pub fn new_err(value: &str) -> (r: PyErr)
        ensures
            r.kind == ErrorKind::AssertionError,
            r.value@ == value@,
    {
        PyErr::new(ErrorKind::AssertionError, value)
    }
}

} // verus!
