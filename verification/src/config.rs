//! On-disk graph configuration for the MIRAGE index.
//!
//! The index makes a graph of the shape of an HNSW graph; only layer 0 is made
//! differently. Its configuration is kept next to the graph, so that a later
//! change of the parameters is noticed.

use vstd::prelude::*;
use crate::arithmetic::saturating_mul;

verus! {

/// File name for the persisted [`MirageGraphConfig`].
pub const MIRAGE_INDEX_CONFIG_FILE: &'static str = "mirage_config.json";

/// Persisted graph configuration for the MIRAGE index.
#[derive(Clone, Copy, Debug, PartialEq, Eq)]
pub struct MirageGraphConfig {
    /// `M` for upper layers.
    pub m: usize,
    /// `M` for layer 0.
    pub m0: usize,
    /// Number of neighbors to consider while the upper layers are built.
    pub ef_construct: usize,
    /// Number of neighbors to consider during search.
    pub ef: usize,
    /// Number of vectors below which a plain scan is preferred.
    pub full_scan_threshold: usize,
    /// Initial out-degree of the random graph at layer 0.
    pub s: usize,
    /// Number of refinement rounds at layer 0.
    pub r: usize,
    /// Number of update passes within each round.
    pub iter: usize,
    /// Number of candidates that a point keeps when reverse edges are added.
    pub num_reverse_edges: usize,
    /// Number of threads that build the index; 0 lets the number of CPUs decide.
    pub max_indexing_threads: usize,
    /// `M` for payload subgraphs.
    pub payload_m: Option<usize>,
    /// `M` for layer 0 of payload subgraphs.
    pub payload_m0: Option<usize>,
    /// Number of vectors that the last build indexed.
    pub indexed_vector_count: Option<usize>,
}

/// Persisted configuration of an HNSW graph.
#[derive(Clone, Copy, Debug, PartialEq, Eq)]
pub struct HnswGraphConfig {
    pub m: usize,
    pub m0: usize,
    pub ef_construct: usize,
    pub ef: usize,
    pub full_scan_threshold: usize,
    pub max_indexing_threads: usize,
    pub payload_m: Option<usize>,
    pub payload_m0: Option<usize>,
    pub indexed_vector_count: Option<usize>,
}

/// Twice `m`, or the largest number where that does not fit.
pub open spec fn doubled(m: usize) -> usize {
    crate::arithmetic::saturating_product(m, 2) as usize
}

/// The path of `file` in the directory at `dir`, both as text.
pub open spec fn path_within(dir: Seq<char>, file: Seq<char>) -> Seq<char> {
    if dir.len() == 0 || dir.last() == '/' {
        dir + file
    } else {
        dir.push('/') + file
    }
}

/// The path of `file` in the directory at `dir`.
pub fn file_path(dir: &str, file: &str) -> (path: String)
    ensures
        path@ == path_within(dir@, file@),
{
    let mut path: String = dir.to_owned();
    let count: usize = dir.unicode_len();
    if count > 0 && dir.get_char(count - 1) != '/' {
        path.append("/");
        proof {
            reveal_strlit("/");
            assert("/"@ =~= seq!['/']);
        }
        assert(path@ =~= dir@.push('/'));
    }
    path.append(file);
    path
}

impl MirageGraphConfig {
    /// Builds a fresh config from user-provided parameters.
    pub fn new(
        m: usize,
        ef_construct: usize,
        full_scan_threshold: usize,
        s: usize,
        r: usize,
        iter: usize,
        num_reverse_edges: usize,
        max_indexing_threads: usize,
        payload_m: Option<usize>,
        indexed_vector_count: usize,
    ) -> (config: Self)
        ensures
            config == (MirageGraphConfig {
                m,
                m0: doubled(m),
                ef_construct,
                ef: ef_construct,
                full_scan_threshold,
                s,
                r,
                iter,
                num_reverse_edges,
                max_indexing_threads,
                payload_m,
                payload_m0: match payload_m {
                    Some(value) => Some(doubled(value)),
                    None => None,
                },
                indexed_vector_count: Some(indexed_vector_count),
            }),
    {
        let m0: usize = saturating_mul(m, 2);
        let payload_m0: Option<usize> = match payload_m {
            Some(value) => Some(saturating_mul(value, 2)),
            None => None,
        };
        MirageGraphConfig {
            m,
            m0,
            ef_construct,
            ef: ef_construct,
            full_scan_threshold,
            s,
            r,
            iter,
            num_reverse_edges,
            max_indexing_threads,
            payload_m,
            payload_m0,
            indexed_vector_count: Some(indexed_vector_count),
        }
    }

    /// The path of the config of the index in the directory at `path`.
    pub fn get_config_path(path: &str) -> (config_path: String)
        ensures
            config_path@ == path_within(path@, MIRAGE_INDEX_CONFIG_FILE@),
    {
        file_path(path, MIRAGE_INDEX_CONFIG_FILE)
    }

    /// The HNSW-compatible view of this config: the fields that the two have in
    /// common, taken straight.
    pub open spec fn hnsw_view(self) -> HnswGraphConfig {
        HnswGraphConfig {
            m: self.m,
            m0: self.m0,
            ef_construct: self.ef_construct,
            ef: self.ef,
            full_scan_threshold: self.full_scan_threshold,
            max_indexing_threads: self.max_indexing_threads,
            payload_m: self.payload_m,
            payload_m0: self.payload_m0,
            indexed_vector_count: self.indexed_vector_count,
        }
    }

    /// Builds an HNSW-compatible view of this config.
    pub fn to_hnsw_compat(&self) -> (config: HnswGraphConfig)
        ensures
            config == self.hnsw_view(),
    {
        HnswGraphConfig {
            m: self.m,
            m0: self.m0,
            ef_construct: self.ef_construct,
            ef: self.ef,
            full_scan_threshold: self.full_scan_threshold,
            max_indexing_threads: self.max_indexing_threads,
            payload_m: self.payload_m,
            payload_m0: self.payload_m0,
            indexed_vector_count: self.indexed_vector_count,
        }
    }
}

} // verus!
