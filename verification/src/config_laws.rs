//! What configurations come to.

use vstd::prelude::*;
use crate::config::MirageGraphConfig;
use crate::mirage::{
    BuildAction, BuildState, MirageConfig, MirageIndex, VectorStorageDatatype, VectorStorageInfo,
    VectorStorageKind,
};
use crate::refinement_builder::RefinementParams;

verus! {

/// Saturating multiplication gives the product where it fits, and the greatest number
/// otherwise. It takes the factors in any order, and more of a factor gives no less.
pub proof fn law_products_saturate(a: usize, b: usize, more: usize)
    ensures
        a * b <= usize::MAX ==> crate::arithmetic::saturating_product(a, b) == a * b,
        a * b > usize::MAX ==> crate::arithmetic::saturating_product(a, b) == usize::MAX,
        crate::arithmetic::saturating_product(a, b) == crate::arithmetic::saturating_product(b, a),
        a <= more ==> crate::arithmetic::saturating_product(a, b)
            <= crate::arithmetic::saturating_product(more, b),
{
    assert(a * b == b * a) by (nonlinear_arith);
    if a <= more {
        assert(a * b <= more * b) by (nonlinear_arith)
            requires
                a <= more,
                b >= 0,
        ;
    }
}

/// Twice a number is the double, unless that does not fit.
pub proof fn law_doubled(m: usize)
    ensures
        2 * m <= usize::MAX ==> crate::config::doubled(m) == 2 * m,
        2 * m > usize::MAX ==> crate::config::doubled(m) == usize::MAX,
{
}

/// The configured size, in bytes.
pub open spec fn size_in_bytes(kilobytes: usize) -> int {
    if kilobytes * 1024 > usize::MAX {
        usize::MAX as int
    } else {
        kilobytes * 1024
    }
}

/// The full scan threshold in vectors is the number of average vectors that fit into the
/// configured size. The average is that of the vectors there are, rounded down; a single
/// byte counts where it is less, and the whole size where there are no vectors.
pub proof fn law_threshold_is_what_fits(
    threshold_kb: usize,
    size: usize,
    count: usize,
) -> (average: int)
    ensures
        count > 0 ==> average * count <= size < (average + 1) * count,
        count == 0 ==> average == size,
        average >= 1 ==> ({
            let threshold = crate::mirage::threshold_in_vectors(threshold_kb, size, count);
            threshold * average <= size_in_bytes(threshold_kb) < (threshold + 1) * average
        }),
        average < 1 ==> crate::mirage::threshold_in_vectors(threshold_kb, size, count)
            == size_in_bytes(threshold_kb),
        0 <= crate::mirage::threshold_in_vectors(threshold_kb, size, count) <= usize::MAX,
{
    let average = size as int / if count == 0 {
        1
    } else {
        count as int
    };
    if count > 0 {
        vstd::arithmetic::div_mod::lemma_fundamental_div_mod(size as int, count as int);
        assert(count * average == average * count) by (nonlinear_arith);
        assert((average + 1) * count == average * count + count) by (nonlinear_arith);
    }
    let bytes = size_in_bytes(threshold_kb);
    vstd::arithmetic::div_mod::lemma_div_pos_is_pos(
        size as int,
        if count == 0 {
            1
        } else {
            count as int
        },
    );
    if average >= 1 {
        let threshold = crate::mirage::threshold_in_vectors(threshold_kb, size, count);
        vstd::arithmetic::div_mod::lemma_fundamental_div_mod(bytes, average);
        assert(average * threshold == threshold * average) by (nonlinear_arith);
        assert((threshold + 1) * average == threshold * average + average) by (nonlinear_arith);
        vstd::arithmetic::div_mod::lemma_div_pos_is_pos(bytes, average);
        vstd::arithmetic::div_mod::lemma_div_is_ordered_by_denominator(bytes, 1, average);
    }
    average
}

/// Whether `config` is what `user` asks for, over `count` vectors: twice the links at
/// layer 0, at least a thousand and twenty-four neighbors considered, and all else as it
/// is asked for.
pub open spec fn follows(config: MirageGraphConfig, user: MirageConfig, count: usize) -> bool {
    &&& config.m == user.m
    &&& config.m0 == if 2 * user.m > usize::MAX {
        usize::MAX as int
    } else {
        2 * user.m
    }
    &&& config.ef_construct >= 1024
    &&& config.ef_construct >= user.ef_construct
    &&& config.ef_construct == 1024 || config.ef_construct == user.ef_construct
    &&& config.ef == config.ef_construct
    &&& config.s == user.s
    &&& config.r == user.r
    &&& config.iter == user.iter
    &&& config.num_reverse_edges == user.num_reverse_edges
    &&& config.max_indexing_threads == user.max_indexing_threads
    &&& config.payload_m == user.payload_m
    &&& (config.payload_m0 is Some) == (user.payload_m is Some)
    &&& user.payload_m matches Some(links) ==> config.payload_m0 == Some(
        crate::config::doubled(links),
    )
    &&& config.indexed_vector_count == Some(count)
}

/// Whether `threshold` is the number of vectors, `count` of which take `size` bytes, that
/// fit into `threshold_kb` kilobytes.
pub open spec fn fits(threshold: int, threshold_kb: usize, size: usize, count: usize) -> bool {
    let average = size as int / count as int;
    &&& average >= 1 ==> threshold * average <= size_in_bytes(threshold_kb) < (threshold + 1)
        * average
    &&& average == 0 ==> threshold == size_in_bytes(threshold_kb)
}

/// The config of a graph follows what is asked for, and its threshold is what fits.
pub proof fn law_graph_config_follows_the_user(user: MirageConfig, size: usize, count: usize)
    ensures
        follows(crate::mirage::graph_config_of(user, size, count), user, count),
        count > 0 ==> fits(
            crate::mirage::graph_config_of(user, size, count).full_scan_threshold as int,
            user.full_scan_threshold,
            size,
            count,
        ),
{
    let average = law_threshold_is_what_fits(user.full_scan_threshold, size, count);
    if count > 0 {
        assert(average * count == count * average) by (nonlinear_arith);
        assert((average + 1) * count == average * count + count) by (nonlinear_arith);
        vstd::arithmetic::div_mod::lemma_fundamental_div_mod_converse(
            size as int,
            count as int,
            average,
            size - average * count,
        );
    }
}

/// A derived config follows what is asked for, over the vectors that are available.
pub proof fn law_derived_config_follows_the_user(
    storage: &VectorStorageInfo,
    user: &MirageConfig,
    config: MirageGraphConfig,
)
    requires
        call_ensures(MirageIndex::derive_graph_config, (storage, user), config),
    ensures
        follows(config, *user, storage.available_vector_count),
        storage.available_vector_count > 0 ==> fits(
            config.full_scan_threshold as int,
            user.full_scan_threshold,
            storage.size_of_available_vectors_in_bytes,
            storage.available_vector_count,
        ),
{
    law_graph_config_follows_the_user(
        *user,
        storage.size_of_available_vectors_in_bytes,
        storage.available_vector_count,
    );
}

/// More kilobytes are no fewer vectors.
pub proof fn law_thresholds_grow(one: usize, two: usize, size: usize, count: usize)
    requires
        one <= two,
    ensures
        crate::mirage::threshold_in_vectors(one, size, count)
            <= crate::mirage::threshold_in_vectors(two, size, count),
{
    law_products_saturate(one, 1024, two);
    let average = size as int / if count == 0 {
        1
    } else {
        count as int
    };
    vstd::arithmetic::div_mod::lemma_div_pos_is_pos(
        size as int,
        if count == 0 {
            1
        } else {
            count as int
        },
    );
    let divisor = if average == 0 {
        1
    } else {
        average
    };
    vstd::arithmetic::div_mod::lemma_div_is_ordered(
        crate::arithmetic::saturating_product(one, 1024),
        crate::arithmetic::saturating_product(two, 1024),
        divisor,
    );
}

/// The view of a persisted config as that of an HNSW graph has the same fields.
pub proof fn law_graph_config_is_viewed_straight(config: MirageGraphConfig)
    ensures
        config.hnsw_view().m == config.m,
        config.hnsw_view().m0 == config.m0,
        config.hnsw_view().ef_construct == config.ef_construct,
        config.hnsw_view().ef == config.ef,
        config.hnsw_view().full_scan_threshold == config.full_scan_threshold,
        config.hnsw_view().max_indexing_threads == config.max_indexing_threads,
        config.hnsw_view().payload_m == config.payload_m,
        config.hnsw_view().payload_m0 == config.payload_m0,
        config.hnsw_view().indexed_vector_count == config.indexed_vector_count,
{
}

/// The view of a user config as that of an HNSW index has the same fields, but considers
/// at least a thousand and twenty-four neighbors, and says nothing of inline storage.
pub proof fn law_user_config_is_viewed_straight(config: MirageConfig)
    ensures
        config.hnsw_view().m == config.m,
        config.ef_construct >= 1024 ==> config.hnsw_view().ef_construct == config.ef_construct,
        config.ef_construct < 1024 ==> config.hnsw_view().ef_construct == 1024,
        config.hnsw_view().full_scan_threshold == config.full_scan_threshold,
        config.hnsw_view().max_indexing_threads == config.max_indexing_threads,
        config.hnsw_view().on_disk == config.on_disk,
        config.hnsw_view().payload_m == config.payload_m,
        config.hnsw_view().inline_storage is None,
{
}

/// Everything that is supported is accepted, and nothing else: an index that is not on
/// disk, without payload subgraphs and quantization, over a dense storage in memory of
/// single vectors of single-precision numbers.
pub proof fn law_exactly_the_supported_is_accepted(
    config: MirageConfig,
    storage: VectorStorageInfo,
    quantized: bool,
)
    ensures
        crate::mirage::runtime_refusal(config, storage, quantized) is None <==> {
            &&& config.on_disk != Some(true)
            &&& config.payload_m is None
            &&& !quantized
            &&& !storage.multi_vector
            &&& !storage.on_disk
            &&& storage.datatype is Float32
            &&& storage.kind is DenseSimple || storage.kind is DenseVolatile
                || storage.kind is DenseAppendableMemmap
        },
        crate::mirage::config_refusal(config) is None <==> config.on_disk != Some(true)
            && config.payload_m is None,
        crate::mirage::config_refusal(config) is Some ==> crate::mirage::runtime_refusal(
            config,
            storage,
            quantized,
        ) == crate::mirage::config_refusal(config),
{
}

/// Of several reasons to refuse, the first is named: those of the config come first, then
/// quantization, several vectors for a point, a storage on disk, the type of the numbers,
/// and the kind of the storage.
pub proof fn law_first_reason_is_named(
    config: MirageConfig,
    storage: VectorStorageInfo,
    quantized: bool,
)
    ensures
        config.on_disk == Some(true) ==> crate::mirage::config_refusal(config) == Some(
            "Mirage P0 does not support on-disk Mirage index"@,
        ),
        config.on_disk != Some(true) && config.payload_m is Some ==> crate::mirage::config_refusal(
            config,
        ) == Some("Mirage P0 does not support payload-aware subgraphs"@),
        config.on_disk != Some(true) && config.payload_m is None ==> {
            let refusal = crate::mirage::runtime_refusal(config, storage, quantized);
            &&& quantized ==> refusal == Some("Mirage P0 does not support quantization"@)
            &&& !quantized && storage.multi_vector ==> refusal == Some(
                "Mirage P0 does not support multi-vector storage"@,
            )
            &&& !quantized && !storage.multi_vector && storage.on_disk ==> refusal == Some(
                "Mirage P0 does not support on-disk vector storage"@,
            )
            &&& !quantized && !storage.multi_vector && !storage.on_disk
                && !(storage.datatype is Float32) ==> refusal == Some(
                "Mirage P0 supports Float32 vector storage only"@,
            )
            &&& !quantized && !storage.multi_vector && !storage.on_disk
                && storage.datatype is Float32 && storage.kind is Other ==> refusal == Some(
                "Mirage P0 supports dense Float32 vector storage only"@,
            )
        },
{
}

/// A layer 0 can be asked for of any points that have ids, with at least one neighbor,
/// one round and one pass. Without points, anything can be asked for.
pub proof fn law_exactly_the_possible_is_refined(num_points: usize, params: RefinementParams)
    ensures
        crate::refinement_builder::layer0_refusal(num_points, params) is None <==> num_points == 0
            || num_points <= 0xFFFF_FFFF && params.s > 0 && params.r > 0 && params.iter > 0,
{
}

/// A file in a directory is named by the directory, a slash unless there is one, and the
/// file. In no directory it is named by itself.
pub proof fn law_path_joins_directory_and_file(dir: Seq<char>, file: Seq<char>)
    ensures
        dir.is_prefix_of(crate::config::path_within(dir, file)),
        crate::config::path_within(dir, file).skip(
            crate::config::path_within(dir, file).len() - file.len(),
        ) == file,
        dir.len() == 0 ==> crate::config::path_within(dir, file) == file,
        dir.len() > 0 && dir.last() == '/' ==> crate::config::path_within(dir, file).len()
            == dir.len() + file.len(),
        dir.len() > 0 && dir.last() != '/' ==> {
            &&& crate::config::path_within(dir, file).len() == dir.len() + 1 + file.len()
            &&& crate::config::path_within(dir, file)[dir.len() as int] == '/'
        },
{
    let path = crate::config::path_within(dir, file);
    assert(path.skip(path.len() - file.len()) =~= file);
    if dir.len() == 0 {
        assert(path =~= file);
    }
}

/// What a report says of a build: a random graph where there are more vectors than initial
/// neighbors, and a recall that counts from ten times as many on.
pub proof fn law_report_tells_the_size(config: MirageGraphConfig)
    ensures
        ({
            let report = crate::mirage::report_of(config);
            &&& report.s == config.s
            &&& config.indexed_vector_count matches Some(count) ==> report.indexed_vectors == count
            &&& config.indexed_vector_count is None ==> report.indexed_vectors == 0
            &&& report.cpp_parity_eligible <==> report.indexed_vectors > config.s
            &&& report.recall_acceptance_eligible <==> config.s > 0 && report.indexed_vectors >= 10
                * config.s
            &&& report.recall_acceptance_eligible ==> report.cpp_parity_eligible
            &&& report.boundary_behavior == if report.indexed_vectors > config.s {
                "mirage_cpp_random_graph"@
            } else {
                "qdrant_complete_graph"@
            }
            &&& report.metric_scope == if report.recall_acceptance_eligible {
                "recall_build"@
            } else {
                "correctness_only"@
            }
        }),
{
}

/// A build without links makes a graph of all vectors without links, with one entry point
/// and the thoroughness of the config. It indexes nothing.
pub proof fn law_build_without_links(state: BuildState, indexed: usize)
    requires
        state.action == BuildAction::CreateDirectory,
        state.config.m == 0,
    ensures
        ({
            let next = crate::mirage::build_step(state, indexed);
            &&& next.action matches BuildAction::MakeEmptyGraph { builder } && {
                &&& builder.num_vectors == state.total_vector_count
                &&& builder.hnsw_m.m == 0
                &&& builder.hnsw_m.m0 == 0
                &&& builder.ef_construct == state.config.ef_construct
                &&& builder.entry_points_num == 1
                &&& builder.use_heuristic
            }
            &&& crate::mirage::build_step(next, indexed).config.indexed_vector_count == Some(
                0usize,
            )
            &&& crate::mirage::build_step(next, indexed).config == (MirageGraphConfig {
                indexed_vector_count: Some(0),
                ..state.config
            })
        }),
{
}

/// A build starts from what is asked for, over all vectors of the storage.
pub proof fn law_build_starts_from_the_user(
    user: MirageConfig,
    storage: VectorStorageInfo,
    path: Seq<char>,
    existing: crate::mirage::ExistingFiles,
)
    ensures
        ({
            let start = crate::mirage::build_start(user, storage, path, existing);
            &&& start.mirage_config == user
            &&& start.total_vector_count == storage.total_vector_count
            &&& start.path == path
            &&& follows(start.config, user, storage.total_vector_count)
            &&& storage.total_vector_count > 0 ==> fits(
                start.config.full_scan_threshold as int,
                user.full_scan_threshold,
                storage.size_of_available_vectors_in_bytes,
                storage.total_vector_count,
            )
            &&& start.action is CreateDirectory <==> !existing.mirage_config
                && !existing.hnsw_config && !existing.graph
            &&& start.action is CreateDirectory || start.action is OpenExisting
        }),
{
    law_graph_config_follows_the_user(
        user,
        storage.size_of_available_vectors_in_bytes,
        storage.total_vector_count,
    );
}

} // verus!
