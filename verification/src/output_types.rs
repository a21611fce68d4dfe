//! The fields that every result writer takes.

use vstd::prelude::*;

use crate::mesh::Vec3;
use crate::scalar::Scalar;

verus! {

/// The values of a field, one per cell.
#[derive(Debug, Clone, Copy)]
pub enum FieldValues<'a> {
    Scalar(&'a [Scalar]),
    Vector(&'a [Vec3]),
}

/// A named field.
#[derive(Debug, Clone, Copy)]
pub struct OutputField<'a> {
    pub name: &'a str,
    pub values: FieldValues<'a>,
}

impl<'a> OutputField<'a> {
    /// The number of values.
    pub open spec fn count(self) -> nat {
        match self.values {
            FieldValues::Scalar(s) => s@.len(),
            FieldValues::Vector(v) => v@.len(),
        }
    }

    /// The components of a value.
    pub open spec fn components(self) -> nat {
        match self.values {
            FieldValues::Scalar(_) => 1,
            FieldValues::Vector(_) => 3,
        }
    }

    /// A field of numbers.
    pub fn scalar(name: &'a str, v: &'a [Scalar]) -> (r: OutputField<'a>)
        ensures
            r.name == name,
            r.values == FieldValues::Scalar(v),
    {
        OutputField { name, values: FieldValues::Scalar(v) }
    }

    /// A field of vectors.
    pub fn vector(name: &'a str, v: &'a [Vec3]) -> (r: OutputField<'a>)
        ensures
            r.name == name,
            r.values == FieldValues::Vector(v),
    {
        OutputField { name, values: FieldValues::Vector(v) }
    }

    /// The number of values.
    pub fn len(&self) -> (r: usize)
        ensures
            r as nat == self.count(),
    {
        match self.values {
            FieldValues::Scalar(s) => s.len(),
            FieldValues::Vector(v) => v.len(),
        }
    }

    pub fn is_empty(&self) -> (r: bool)
        ensures
            r == (self.count() == 0),
    {
        self.len() == 0
    }
}

} // verus!
