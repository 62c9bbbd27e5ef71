//! Errors of one layer as errors of the layers above it.

use vstd::prelude::*;
use vstd::std_specs::convert::FromSpecImpl;

use crate::compaction::CompactionError;
use crate::db::DbError;
use crate::manifest::ManifestError;
use crate::sstable::SsTableError;
use crate::storage::StorageError;

verus! {

impl From<StorageError> for SsTableError {
    fn from(e: StorageError) -> (r: Self) {
        SsTableError::Storage(e)
    }
}

impl FromSpecImpl<StorageError> for SsTableError {
    open spec fn obeys_from_spec() -> bool {
        true
    }

    open spec fn from_spec(e: StorageError) -> Self {
        SsTableError::Storage(e)
    }
}

impl From<StorageError> for ManifestError {
    fn from(e: StorageError) -> (r: Self) {
        ManifestError::Storage(e)
    }
}

impl FromSpecImpl<StorageError> for ManifestError {
    open spec fn obeys_from_spec() -> bool {
        true
    }

    open spec fn from_spec(e: StorageError) -> Self {
        ManifestError::Storage(e)
    }
}

impl From<StorageError> for CompactionError {
    fn from(e: StorageError) -> (r: Self) {
        CompactionError::Storage(e)
    }
}

impl FromSpecImpl<StorageError> for CompactionError {
    open spec fn obeys_from_spec() -> bool {
        true
    }

    open spec fn from_spec(e: StorageError) -> Self {
        CompactionError::Storage(e)
    }
}

impl From<SsTableError> for CompactionError {
    fn from(e: SsTableError) -> (r: Self) {
        CompactionError::SsTable(e)
    }
}

impl FromSpecImpl<SsTableError> for CompactionError {
    open spec fn obeys_from_spec() -> bool {
        true
    }

    open spec fn from_spec(e: SsTableError) -> Self {
        CompactionError::SsTable(e)
    }
}

impl From<ManifestError> for CompactionError {
    fn from(e: ManifestError) -> (r: Self) {
        CompactionError::Manifest(e)
    }
}

impl FromSpecImpl<ManifestError> for CompactionError {
    open spec fn obeys_from_spec() -> bool {
        true
    }

    open spec fn from_spec(e: ManifestError) -> Self {
        CompactionError::Manifest(e)
    }
}

impl From<StorageError> for DbError {
    fn from(e: StorageError) -> (r: Self) {
        DbError::Storage(e)
    }
}

impl FromSpecImpl<StorageError> for DbError {
    open spec fn obeys_from_spec() -> bool {
        true
    }

    open spec fn from_spec(e: StorageError) -> Self {
        DbError::Storage(e)
    }
}

impl From<SsTableError> for DbError {
    fn from(e: SsTableError) -> (r: Self) {
        DbError::SsTable(e)
    }
}

impl FromSpecImpl<SsTableError> for DbError {
    open spec fn obeys_from_spec() -> bool {
        true
    }

    open spec fn from_spec(e: SsTableError) -> Self {
        DbError::SsTable(e)
    }
}

impl From<ManifestError> for DbError {
    fn from(e: ManifestError) -> (r: Self) {
        DbError::Manifest(e)
    }
}

impl FromSpecImpl<ManifestError> for DbError {
    open spec fn obeys_from_spec() -> bool {
        true
    }

    open spec fn from_spec(e: ManifestError) -> Self {
        DbError::Manifest(e)
    }
}

impl From<CompactionError> for DbError {
    fn from(e: CompactionError) -> (r: Self) {
        DbError::Compaction(e)
    }
}

impl FromSpecImpl<CompactionError> for DbError {
    open spec fn obeys_from_spec() -> bool {
        true
    }

    open spec fn from_spec(e: CompactionError) -> Self {
        DbError::Compaction(e)
    }
}

} // verus!
