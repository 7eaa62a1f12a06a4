//! Reader resource limits for untrusted containers.

use vstd::prelude::*;
use crate::cbor::CborLimits;
use crate::chunk_table::CHUNK_ENTRY_LEN;
use crate::error::{QztError, Result};

verus! {

/// Reader resource limits for untrusted QZT containers and successful Writer output.
#[derive(Debug, Clone, Copy, PartialEq, Eq)]
pub struct ResourceLimits {
    /// Maximum compressed bytes read into memory for one chunk decode.
    pub max_compressed_chunk_size: u64,
    /// Maximum decoded bytes accepted for one chunk.
    pub max_uncompressed_chunk_size: u64,
    /// Maximum bytes accepted for one embedded zstd dictionary.
    pub max_dictionary_size: u64,
    /// Maximum bytes accepted for one index block.
    pub max_index_block_size: u64,
    /// Maximum cumulative bytes requested for decoded Dense Line Index entry
    /// and offset vectors. Stored index block bytes have a separate limit.
    pub max_dense_line_index_allocation: u64,
    /// Maximum bytes exposed by preview-oriented operations.
    pub max_preview_bytes: u64,
    /// Maximum aggregate bytes allocated while decoding one CBOR value.
    pub max_cbor_allocation: u64,
    /// Maximum aggregate CBOR values decoded from one CBOR item.
    pub max_cbor_items: u64,
}

/// The default limits.
pub open spec fn spec_default_resource_limits() -> ResourceLimits {
    ResourceLimits {
        max_compressed_chunk_size: 75497472,
        max_uncompressed_chunk_size: 67108864,
        max_dictionary_size: 16777216,
        max_index_block_size: 67108864,
        max_dense_line_index_allocation: 268435456,
        max_preview_bytes: 1048576,
        max_cbor_allocation: 16777216,
        max_cbor_items: 1000000,
    }
}

impl Default for ResourceLimits {
    /// 72 MiB compressed and 64 MiB decoded per chunk (room for zstd framing of
    /// incompressible data), 16 MiB per dictionary, 64 MiB per index block,
    /// 256 MiB of decoded dense offsets, 1 MiB previews, and per CBOR item
    /// 16 MiB of payload and one million values.
    fn default() -> (r: Self)
        ensures
            r == spec_default_resource_limits(),
    {
        ResourceLimits {
            max_compressed_chunk_size: 75497472,
            max_uncompressed_chunk_size: 67108864,
            max_dictionary_size: 16777216,
            max_index_block_size: 67108864,
            max_dense_line_index_allocation: 268435456,
            max_preview_bytes: 1048576,
            max_cbor_allocation: 16777216,
            max_cbor_items: 1000000,
        }
    }
}

impl ResourceLimits {
    /// Refuses an index block larger than the limit.
    pub fn enforce_index_block_size(self, size: u64) -> (r: Result<()>)
        ensures
            r is Ok <==> size <= self.max_index_block_size,
            r matches Err(e) ==> e == QztError::ResourceLimitExceeded,
    {
        if size > self.max_index_block_size {
            return Err(QztError::ResourceLimitExceeded);
        }
        Ok(())
    }

    /// Refuses a chunk table whose fixed records exceed the index block limit.
    pub fn enforce_chunk_table_entries(self, count: usize) -> (r: Result<()>)
        ensures
            r is Ok <==> count * 128 <= usize::MAX && count * 128 <= self.max_index_block_size,
            r matches Err(e) ==> e == QztError::ResourceLimitExceeded,
    {
        let bytes = match count.checked_mul(CHUNK_ENTRY_LEN) {
            Some(b) => b,
            None => {
                return Err(QztError::ResourceLimitExceeded);
            },
        };
        if bytes as u128 > u64::MAX as u128 {
            return Err(QztError::ResourceLimitExceeded);
        }
        self.enforce_index_block_size(bytes as u64)
    }

    /// Refuses a chunk whose compressed or decoded size exceeds its limit.
    pub fn enforce_chunk_sizes(self, compressed: u64, uncompressed: u64) -> (r: Result<()>)
        ensures
            r is Ok <==> compressed <= self.max_compressed_chunk_size && uncompressed
                <= self.max_uncompressed_chunk_size,
            r matches Err(e) ==> e == QztError::ResourceLimitExceeded,
    {
        if compressed > self.max_compressed_chunk_size || uncompressed
            > self.max_uncompressed_chunk_size {
            return Err(QztError::ResourceLimitExceeded);
        }
        Ok(())
    }

    /// Refuses a dense index allocation above its limit.
    pub fn enforce_dense_allocation(self, bytes: u64) -> (r: Result<()>)
        ensures
            r is Ok <==> bytes <= self.max_dense_line_index_allocation,
            r matches Err(e) ==> e == QztError::ResourceLimitExceeded,
    {
        if bytes > self.max_dense_line_index_allocation {
            return Err(QztError::ResourceLimitExceeded);
        }
        Ok(())
    }

    /// The CBOR decode budgets these limits allow.
    pub fn cbor_limits(self) -> (r: CborLimits)
        ensures
            r.max_allocation == self.max_cbor_allocation,
            r.max_items == self.max_cbor_items,
    {
        CborLimits { max_allocation: self.max_cbor_allocation, max_items: self.max_cbor_items }
    }
}

} // verus!
