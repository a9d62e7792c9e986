//! The error type of the crate.

use vstd::prelude::*;

use crate::io;

verus! {

/// Central error type of the crate.
#[derive(Debug, Clone, Copy)]
#[allow(inconsistent_fields)]
#[non_exhaustive]
pub enum ApfsError {
    /// A container or volume superblock had an unexpected magic value.
    InvalidMagic {
        /// The structure being parsed (e.g. `nx_superblock_t`).
        structure: &'static str,
        /// The magic value the structure should have carried.
        expected: u32,
        /// The magic value found on disk.
        actual: u32,
    },
    /// An object's stored Fletcher-64 checksum did not match its contents.
    ChecksumMismatch {
        /// The physical block address of the object.
        block: u64,
    },
    /// The image uses an APFS feature this parser does not implement.
    Unsupported(&'static str),
    /// A buffer was too short to contain a fixed-size on-disk structure.
    Truncated {
        /// The structure being parsed (e.g. `obj_phys_t`).
        structure: &'static str,
        /// The number of bytes the structure requires.
        expected: usize,
        /// The number of bytes actually available.
        actual: usize,
    },
    /// An on-disk structure was internally inconsistent.
    Malformed {
        /// The structure being parsed (e.g. `btree_node_phys_t`).
        structure: &'static str,
        /// What was wrong with it.
        reason: &'static str,
    },
    /// A lookup did not find the requested item.
    NotFound {
        /// What was being looked up (e.g. `object id`).
        what: &'static str,
    },
    /// An I/O error surfaced from the underlying reader.
    Io(io::Error),
}

impl vstd::std_specs::convert::FromSpecImpl<io::Error> for ApfsError {
    open spec fn obeys_from_spec() -> bool {
        true
    }

    open spec fn from_spec(error: io::Error) -> ApfsError {
        ApfsError::Io(error)
    }
}

impl From<io::Error> for ApfsError {
    fn from(error: io::Error) -> (converted: ApfsError) {
        ApfsError::Io(error)
    }
}

impl vstd::std_specs::convert::FromSpecImpl<ApfsError> for io::Error {
    open spec fn obeys_from_spec() -> bool {
        true
    }

    open spec fn from_spec(error: ApfsError) -> io::Error {
        match error {
            ApfsError::Io(inner) => inner,
            _ => io::error_of(io::ErrorKind::Other),
        }
    }
}

impl From<ApfsError> for io::Error {
    fn from(error: ApfsError) -> (converted: io::Error) {
        match error {
            ApfsError::Io(inner) => inner,
            _ => io::Error::new(io::ErrorKind::Other),
        }
    }
}

impl ApfsError {
    /// The kind of the underlying I/O error, for an error that has one.
    pub fn io_kind(&self) -> (kind: Option<io::ErrorKind>)
        ensures
            kind == match *self {
                ApfsError::Io(error) => Some(error.kind),
                _ => None,
            },
    {
        match self {
            ApfsError::Io(error) => Some(error.kind()),
            _ => None,
        }
    }

    /// The byte position of the error: no error of this crate carries one.
    pub fn byte_offset(&self) -> (offset: Option<u64>)
        ensures
            offset is None,
    {
        None
    }
}

/// The error of a buffer of `actual` bytes that needs `expected` of them.
pub open spec fn truncated<T>(structure: &'static str, expected: int, actual: nat) -> Result<
    T,
    ApfsError,
> {
    Err(ApfsError::Truncated { structure, expected: expected as usize, actual: actual as usize })
}

/// The error of an inconsistent structure.
pub open spec fn malformed<T>(structure: &'static str, reason: &'static str) -> Result<
    T,
    ApfsError,
> {
    Err(ApfsError::Malformed { structure, reason })
}

/// A result with its value seen through its view.
pub open spec fn viewed<T: View>(outcome: Result<T, ApfsError>) -> Result<T::V, ApfsError> {
    match outcome {
        Ok(value) => Ok(value@),
        Err(error) => Err(error),
    }
}

/// A result of an optional value, with the value seen through its view.
pub open spec fn viewed_option<T: View>(outcome: Result<Option<T>, ApfsError>) -> Result<
    Option<T::V>,
    ApfsError,
> {
    match outcome {
        Ok(Some(value)) => Ok(Some(value@)),
        Ok(None) => Ok(None),
        Err(error) => Err(error),
    }
}

/// An optional value seen through its view.
pub open spec fn some_view<T: View>(value: Option<T>) -> Option<T::V> {
    match value {
        Some(inner) => Some(inner@),
        None => None,
    }
}

/// The views of the elements of a sequence.
pub open spec fn views<T: View>(items: Seq<T>) -> Seq<T::V> {
    items.map_values(|item: T| item@)
}

/// A result of a vector, with the elements seen through their views.
pub open spec fn viewed_all<T: View>(outcome: Result<Vec<T>, ApfsError>) -> Result<
    Seq<T::V>,
    ApfsError,
> {
    match outcome {
        Ok(items) => Ok(views(items@)),
        Err(error) => Err(error),
    }
}

} // verus!
