//! Error type shared by every fallible operation of the slicer.

use vstd::prelude::*;

verus! {

/// Everything that can go wrong between reading a model and handing its
/// layers on. Each variant carries a human-readable explanation.
#[derive(Debug)]
pub enum SlicerError {
    /// The model file could not be read or parsed.
    StlReadError(String),
    /// The mesh handed in is malformed.
    InvalidGeometry(String),
    /// A print profile holds a value outside its allowed range.
    ConfigError(String),
    /// The mesh cannot be cut into layers.
    SlicingError(String),
    /// Machine instructions could not be produced.
    GCodeError(String),
    /// Reading or writing a file failed.
    IoError(String),
    /// A slicing parameter is outside its allowed range.
    InvalidParameter(String),
}

impl SlicerError {
    /// The explanation carried by the error, whatever its variant.
    pub open spec fn message(self) -> Seq<char> {
        match self {
            SlicerError::StlReadError(m) => m@,
            SlicerError::InvalidGeometry(m) => m@,
            SlicerError::ConfigError(m) => m@,
            SlicerError::SlicingError(m) => m@,
            SlicerError::GCodeError(m) => m@,
            SlicerError::IoError(m) => m@,
            SlicerError::InvalidParameter(m) => m@,
        }
    }

    /// A model file that could not be read.
    pub fn stl_read(msg: String) -> (e: SlicerError)
        ensures
            e == SlicerError::StlReadError(msg),
    {
        SlicerError::StlReadError(msg)
    }

    /// A malformed mesh.
    pub fn invalid_mesh(msg: String) -> (e: SlicerError)
        ensures
            e == SlicerError::InvalidGeometry(msg),
    {
        SlicerError::InvalidGeometry(msg)
    }

    /// A print profile with a value out of range.
    pub fn config(msg: String) -> (e: SlicerError)
        ensures
            e == SlicerError::ConfigError(msg),
    {
        SlicerError::ConfigError(msg)
    }

    /// A mesh that cannot be cut into layers.
    pub fn slicing(msg: String) -> (e: SlicerError)
        ensures
            e == SlicerError::SlicingError(msg),
    {
        SlicerError::SlicingError(msg)
    }

    /// A failure while producing machine instructions.
    pub fn gcode(msg: String) -> (e: SlicerError)
        ensures
            e == SlicerError::GCodeError(msg),
    {
        SlicerError::GCodeError(msg)
    }

    /// The explanation carried by the error.
    pub fn text(&self) -> (m: &String)
        ensures
            m@ == self.message(),
    {
        match self {
            SlicerError::StlReadError(m) => m,
            SlicerError::InvalidGeometry(m) => m,
            SlicerError::ConfigError(m) => m,
            SlicerError::SlicingError(m) => m,
            SlicerError::GCodeError(m) => m,
            SlicerError::IoError(m) => m,
            SlicerError::InvalidParameter(m) => m,
        }
    }
}

} // verus!
