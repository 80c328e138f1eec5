//! Looks for segments having a mismatch between configured and actual parameters.
//!
//! For example, the parameters of an index may be changed for a collection. A
//! segment that was indexed with other parameters is then to be optimized again.

use vstd::prelude::*;
use crate::arithmetic::saturating_mul;
use itertools::Itertools;
use crate::mirage::{HnswConfig, MirageConfig, BYTES_IN_KB};
use crate::named_map::NamedMap;
use crate::operation_error::OperationResult;

verus! {

/// The index of the dense vectors of a segment.
#[derive(Clone, Copy, Debug, PartialEq, Eq)]
pub enum Indexes {
    /// No index: vectors are scanned.
    Plain {},
    Hnsw(HnswConfig),
    Mirage(MirageConfig),
}

impl Indexes {
    /// Whether there is an index.
    pub open spec fn spec_is_indexed(self) -> bool {
        !(self is Plain)
    }

    /// Whether there is an index.
    pub fn is_indexed(&self) -> (indexed: bool)
        ensures
            indexed == self.spec_is_indexed(),
    {
        match self {
            Indexes::Plain {  } => false,
            _ => true,
        }
    }
}

/// The name of a kind of index.
pub fn dense_index_kind(index: &Indexes) -> (kind: &'static str)
    ensures
        kind@ == match *index {
            Indexes::Plain {  } => "plain"@,
            Indexes::Hnsw(_) => "hnsw"@,
            Indexes::Mirage(_) => "mirage"@,
        },
{
    match index {
        Indexes::Plain {  } => "plain",
        Indexes::Hnsw(_) => "hnsw",
        Indexes::Mirage(_) => "mirage",
    }
}

/// How the vectors of a segment under one name are stored and indexed. `Quant` is
/// a quantization config, and `Details` is what else there is to know.
#[derive(Debug)]
pub struct VectorDataConfig<Quant, Details> {
    pub index: Indexes,
    pub quantization_config: Option<Quant>,
    /// Whether the storage is on disk.
    pub storage_on_disk: bool,
    pub details: Details,
}

impl<Quant: Copy, Details: Copy> Clone for VectorDataConfig<Quant, Details> {
    fn clone(&self) -> (copy: Self)
        ensures
            copy == *self,
    {
        *self
    }
}

impl<Quant: Copy, Details: Copy> Copy for VectorDataConfig<Quant, Details> {

}

/// What is asked of the dense vectors under one name.
#[derive(Debug)]
pub struct DenseVectorOptimizerConfig<Quant> {
    pub on_disk: Option<bool>,
    pub hnsw_config: HnswConfig,
    pub mirage_config: Option<MirageConfig>,
    pub quantization_config: Option<Quant>,
}

impl<Quant: Copy> Clone for DenseVectorOptimizerConfig<Quant> {
    fn clone(&self) -> (copy: Self)
        ensures
            copy == *self,
    {
        *self
    }
}

impl<Quant: Copy> Copy for DenseVectorOptimizerConfig<Quant> {

}

/// What is asked of the sparse vectors under one name.
#[derive(Clone, Copy, Debug)]
pub struct SparseVectorOptimizerConfig {
    pub on_disk: Option<bool>,
}

/// What is asked of a segment.
pub struct SegmentOptimizerConfig<Quant, Details> {
    /// Whether payloads are to be on disk.
    pub payload_on_disk: bool,
    /// The config of dense vectors without an index, by name.
    pub plain_dense_vector_config: NamedMap<VectorDataConfig<Quant, Details>>,
    pub dense_vector: NamedMap<DenseVectorOptimizerConfig<Quant>>,
    pub sparse_vector: NamedMap<SparseVectorOptimizerConfig>,
}

/// Where the index of sparse vectors is.
#[derive(Clone, Copy, Debug, PartialEq, Eq)]
pub enum SparseIndexType {
    MutableRam,
    ImmutableRam,
    Mmap,
}

/// The dense vectors of a segment under one name.
pub struct DenseVectors<Quant, Details> {
    pub name: String,
    pub config: VectorDataConfig<Quant, Details>,
}

/// The sparse vectors of a segment under one name.
pub struct SparseVectors {
    pub name: String,
    pub index_type: SparseIndexType,
}

/// What the optimizer needs to know of a segment.
pub struct SegmentInfo<Quant, Details> {
    /// Whether payloads are on disk.
    pub payload_on_disk: bool,
    pub vector_data: Vec<DenseVectors<Quant, Details>>,
    pub sparse_vector_data: Vec<SparseVectors>,
    /// The size of the largest vector storage in bytes, as far as it is known.
    pub max_available_vectors_size_in_bytes: OperationResult<usize>,
}

/// Sizes in kilobytes from which segments are treated differently.
#[derive(Clone, Copy, Debug, PartialEq, Eq)]
pub struct OptimizerThresholds {
    /// From this size on, a segment is indexed.
    pub indexing_threshold_kb: usize,
    /// From this size on, vectors are kept on disk.
    pub memmap_threshold_kb: usize,
}

/// What decides on single configs.
pub struct RebuildRules<Policy, Resolve, HnswDiff, MirageDiff, QuantDiff, Appendable> {
    /// Places dense vectors, given what is asked of them, whether the segment is
    /// large enough for an index, and whether it is large enough for the disk.
    pub apply_storage_policy: Policy,
    /// Picks the index for placed dense vectors, given what is asked of them,
    /// whether the segment is large enough for an index, and whether a MIRAGE
    /// index may be picked without being asked for.
    pub resolve_index: Resolve,
    /// Whether an HNSW index under the first config has to be rebuilt under the
    /// second.
    pub hnsw_mismatch: HnswDiff,
    /// The same of a MIRAGE index.
    pub mirage_mismatch: MirageDiff,
    /// The same of quantized vectors.
    pub quantization_mismatch: QuantDiff,
    /// Whether a quantization applies to segments without an index.
    pub supports_appendable: Appendable,
    /// Whether a MIRAGE index may be picked without being asked for.
    pub use_mirage: bool,
    /// Whether segments without an index are quantized at all.
    pub appendable_quantization: bool,
}

/// Whether the rules can be applied to everything.
pub open spec fn rules_apply<
    Quant,
    Details,
    Policy,
    Resolve,
    HnswDiff,
    MirageDiff,
    QuantDiff,
    Appendable,
>(rules: RebuildRules<Policy, Resolve, HnswDiff, MirageDiff, QuantDiff, Appendable>) -> bool where
    Policy: Fn(
        VectorDataConfig<Quant, Details>,
        DenseVectorOptimizerConfig<Quant>,
        bool,
        bool,
    ) -> VectorDataConfig<Quant, Details>,
    Resolve: Fn(
        VectorDataConfig<Quant, Details>,
        DenseVectorOptimizerConfig<Quant>,
        bool,
        bool,
    ) -> Indexes,
    HnswDiff: Fn(HnswConfig, HnswConfig) -> bool,
    MirageDiff: Fn(MirageConfig, MirageConfig) -> bool,
    QuantDiff: Fn(Quant, Quant) -> bool,
    Appendable: Fn(Quant) -> bool,
 {
    &&& forall|
        data: VectorDataConfig<Quant, Details>,
        wanted: DenseVectorOptimizerConfig<Quant>,
        a: bool,
        b: bool,
    | #[trigger]
        call_requires(rules.apply_storage_policy, (data, wanted, a, b))
    &&& forall|
        data: VectorDataConfig<Quant, Details>,
        wanted: DenseVectorOptimizerConfig<Quant>,
        a: bool,
        b: bool,
    | #[trigger]
        call_requires(rules.resolve_index, (data, wanted, a, b))
    &&& forall|one: HnswConfig, two: HnswConfig| #[trigger]
        call_requires(rules.hnsw_mismatch, (one, two))
    &&& forall|one: MirageConfig, two: MirageConfig| #[trigger]
        call_requires(rules.mirage_mismatch, (one, two))
    &&& forall|one: Quant, two: Quant| #[trigger]
        call_requires(rules.quantization_mismatch, (one, two))
    &&& forall|one: Quant| #[trigger] call_requires(rules.supports_appendable, (one,))
}

/// Whether `rebuild` may be the answer to whether the index `current` has to be
/// rebuilt as `target`: an index of another kind always, one of the same kind if
/// the kind's own rule says so.
pub open spec fn index_verdict<HnswDiff, MirageDiff>(
    hnsw_mismatch: HnswDiff,
    mirage_mismatch: MirageDiff,
    current: Indexes,
    target: Indexes,
    rebuild: bool,
) -> bool where
    HnswDiff: Fn(HnswConfig, HnswConfig) -> bool,
    MirageDiff: Fn(MirageConfig, MirageConfig) -> bool,
 {
    match (current, target) {
        (Indexes::Plain {  }, Indexes::Plain {  }) => !rebuild,
        (Indexes::Hnsw(one), Indexes::Hnsw(two)) => call_ensures(
            hnsw_mismatch,
            (one, two),
            rebuild,
        ),
        (Indexes::Mirage(one), Indexes::Mirage(two)) => call_ensures(
            mirage_mismatch,
            (one, two),
            rebuild,
        ),
        _ => rebuild,
    }
}

/// Whether the index `current` has to be rebuilt as `target`.
pub fn dense_index_mismatch_requires_rebuild<HnswDiff, MirageDiff>(
    current: &Indexes,
    target: &Indexes,
    hnsw_mismatch: &HnswDiff,
    mirage_mismatch: &MirageDiff,
) -> (rebuild: bool) where
    HnswDiff: Fn(HnswConfig, HnswConfig) -> bool,
    MirageDiff: Fn(MirageConfig, MirageConfig) -> bool,

    requires
        forall|one: HnswConfig, two: HnswConfig| #[trigger]
            call_requires(*hnsw_mismatch, (one, two)),
        forall|one: MirageConfig, two: MirageConfig| #[trigger]
            call_requires(*mirage_mismatch, (one, two)),
    ensures
        index_verdict(*hnsw_mismatch, *mirage_mismatch, *current, *target, rebuild),
{
    match (*current, *target) {
        (Indexes::Plain {  }, Indexes::Plain {  }) => false,
        (Indexes::Hnsw(one), Indexes::Hnsw(two)) => hnsw_mismatch(one, two),
        (Indexes::Mirage(one), Indexes::Mirage(two)) => mirage_mismatch(one, two),
        _ => true,
    }
}

/// Looks for segments having a mismatch between configured and actual parameters.
/// `Global` is what the optimizer holds for whoever rebuilds segments.
pub struct ConfigMismatchOptimizer<Quant, Details, Global> {
    thresholds_config: OptimizerThresholds,
    segments_path: String,
    temp_path: String,
    segment_optimizer_config: SegmentOptimizerConfig<Quant, Details>,
    global_hnsw_config: HnswConfig,
    hnsw_global_config: Global,
}

/// What an optimizer was made with.
pub struct OptimizerSettings<Quant, Details, Global> {
    pub thresholds_config: OptimizerThresholds,
    pub segments_path: Seq<char>,
    pub temp_path: Seq<char>,
    pub segment_optimizer_config: SegmentOptimizerConfig<Quant, Details>,
    pub global_hnsw_config: HnswConfig,
    pub hnsw_global_config: Global,
}

impl<Quant, Details, Global> View for ConfigMismatchOptimizer<Quant, Details, Global> {
    type V = OptimizerSettings<Quant, Details, Global>;

    closed spec fn view(&self) -> OptimizerSettings<Quant, Details, Global> {
        OptimizerSettings {
            thresholds_config: self.thresholds_config,
            segments_path: self.segments_path@,
            temp_path: self.temp_path@,
            segment_optimizer_config: self.segment_optimizer_config,
            global_hnsw_config: self.global_hnsw_config,
            hnsw_global_config: self.hnsw_global_config,
        }
    }
}

/// What is asked of the dense vectors under `name`; by default an HNSW index.
pub open spec fn wanted_for<Quant, Details, Global>(
    settings: OptimizerSettings<Quant, Details, Global>,
    name: Seq<char>,
) -> DenseVectorOptimizerConfig<Quant> {
    let wanted = settings.segment_optimizer_config.dense_vector@;
    if wanted.contains_key(name) {
        wanted[name]
    } else {
        DenseVectorOptimizerConfig {
            on_disk: None,
            hnsw_config: settings.global_hnsw_config,
            mirage_config: None,
            quantization_config: None,
        }
    }
}

/// The config of the dense vectors under `name` before they are placed: the one
/// without an index, or by default the current one stripped of its index.
pub open spec fn plain_target<Quant, Details, Global>(
    settings: OptimizerSettings<Quant, Details, Global>,
    name: Seq<char>,
    current: VectorDataConfig<Quant, Details>,
) -> VectorDataConfig<Quant, Details> {
    let plain = settings.segment_optimizer_config.plain_dense_vector_config@;
    if plain.contains_key(name) {
        plain[name]
    } else {
        VectorDataConfig { index: Indexes::Plain {  }, quantization_config: None, ..current }
    }
}

/// Whether dense vectors under `name` have to be on disk, if that is asked.
pub open spec fn dense_on_disk<Quant, Details, Global>(
    settings: OptimizerSettings<Quant, Details, Global>,
    name: Seq<char>,
) -> Option<bool> {
    let wanted = settings.segment_optimizer_config.dense_vector@;
    if wanted.contains_key(name) {
        wanted[name].on_disk
    } else {
        None
    }
}

/// Whether the index of sparse vectors under `name` has to be on disk, if that is
/// asked.
pub open spec fn sparse_on_disk<Quant, Details, Global>(
    settings: OptimizerSettings<Quant, Details, Global>,
    name: Seq<char>,
) -> Option<bool> {
    let wanted = settings.segment_optimizer_config.sparse_vector@;
    if wanted.contains_key(name) {
        wanted[name].on_disk
    } else {
        None
    }
}

/// Whether sparse vectors have to be rebuilt: their index is not where it is asked
/// to be. A mutable index may be anywhere.
pub open spec fn sparse_mismatch(required: Option<bool>, index_type: SparseIndexType) -> bool {
    match required {
        None => false,
        Some(on_disk) => match index_type {
            SparseIndexType::MutableRam => false,
            SparseIndexType::ImmutableRam => on_disk,
            SparseIndexType::Mmap => !on_disk,
        },
    }
}

/// Whether `size` reaches a threshold.
pub open spec fn reaches(size: usize, threshold_kb: usize) -> bool {
    size >= crate::arithmetic::saturating_product(threshold_kb, BYTES_IN_KB)
}

/// Whether `appendable` may be said of an optional quantization; there is none to
/// append to where there is none at all.
pub open spec fn may_append<Quant, Appendable: Fn(Quant) -> bool>(
    supports_appendable: Appendable,
    quantization: Option<Quant>,
    appendable: bool,
) -> bool {
    match quantization {
        Some(config) => call_ensures(supports_appendable, (config,), appendable),
        None => !appendable,
    }
}

/// Whether `rebuild` may be the answer to whether vectors quantized as `current`
/// have to be rebuilt as `target`. Two quantizations are compared. Turning
/// quantization on or off matters to indexed vectors, and to others if
/// quantization applies to them.
pub open spec fn quantization_verdict<
    Quant,
    QuantDiff: Fn(Quant, Quant) -> bool,
    Appendable: Fn(Quant) -> bool,
>(
    quantization_mismatch: QuantDiff,
    supports_appendable: Appendable,
    appendable_quantization: bool,
    indexed: bool,
    current: Option<Quant>,
    target: Option<Quant>,
    rebuild: bool,
) -> bool {
    match (current, target) {
        (Some(one), Some(two)) => call_ensures(quantization_mismatch, (one, two), rebuild),
        _ => exists|one: bool, two: bool|
            {
                &&& #[trigger] may_append(supports_appendable, current, one)
                &&& #[trigger] may_append(supports_appendable, target, two)
                &&& rebuild == ((current is Some) != (target is Some) && (indexed || (
                appendable_quantization && (one || two))))
            },
    }
}

/// Asks whether a quantization applies to segments without an index.
fn appends<Quant: Copy, Appendable: Fn(Quant) -> bool>(
    supports_appendable: &Appendable,
    quantization: &Option<Quant>,
) -> (appendable: bool)
    requires
        forall|one: Quant| #[trigger] call_requires(*supports_appendable, (one,)),
    ensures
        may_append(*supports_appendable, *quantization, appendable),
{
    match quantization {
        Some(config) => supports_appendable(*config),
        None => false,
    }
}

/// Whether vectors quantized as `current` have to be rebuilt as `target`.
fn quantization_requires_rebuild<
    Quant: Copy,
    QuantDiff: Fn(Quant, Quant) -> bool,
    Appendable: Fn(Quant) -> bool,
>(
    quantization_mismatch: &QuantDiff,
    supports_appendable: &Appendable,
    appendable_quantization: bool,
    indexed: bool,
    current: &Option<Quant>,
    target: &Option<Quant>,
) -> (rebuild: bool)
    requires
        forall|one: Quant, two: Quant| #[trigger]
            call_requires(*quantization_mismatch, (one, two)),
        forall|one: Quant| #[trigger] call_requires(*supports_appendable, (one,)),
    ensures
        quantization_verdict(
            *quantization_mismatch,
            *supports_appendable,
            appendable_quantization,
            indexed,
            *current,
            *target,
            rebuild,
        ),
{
    if let Some(one) = current {
        if let Some(two) = target {
            return quantization_mismatch(*one, *two);
        }
    }
    let current_appends: bool = appends(supports_appendable, current);
    let target_appends: bool = appends(supports_appendable, target);
    let unindexed_changed: bool = appendable_quantization && (current_appends || target_appends);
    (current.is_some() != target.is_some()) && (indexed || unindexed_changed)
}

/// A placed config with the quantization that is asked for, where the segment is
/// large enough for an index.
pub open spec fn quantized_as_wanted<Quant, Details>(
    placed: VectorDataConfig<Quant, Details>,
    wanted: DenseVectorOptimizerConfig<Quant>,
    indexed: bool,
) -> VectorDataConfig<Quant, Details> {
    if indexed {
        VectorDataConfig { quantization_config: wanted.quantization_config, ..placed }
    } else {
        placed
    }
}

/// Whether `rebuild` may be the answer to whether dense vectors have to be rebuilt:
/// their index is not the one that the rules pick, they are not where they are
/// asked to be, or their quantization does not match.
pub open spec fn dense_verdict<
    Quant,
    Details,
    Global,
    Policy,
    Resolve,
    HnswDiff,
    MirageDiff,
    QuantDiff,
    Appendable,
>(
    rules: RebuildRules<Policy, Resolve, HnswDiff, MirageDiff, QuantDiff, Appendable>,
    settings: OptimizerSettings<Quant, Details, Global>,
    vectors: DenseVectors<Quant, Details>,
    indexed: bool,
    on_disk: bool,
    rebuild: bool,
) -> bool where
    Policy: Fn(
        VectorDataConfig<Quant, Details>,
        DenseVectorOptimizerConfig<Quant>,
        bool,
        bool,
    ) -> VectorDataConfig<Quant, Details>,
    Resolve: Fn(
        VectorDataConfig<Quant, Details>,
        DenseVectorOptimizerConfig<Quant>,
        bool,
        bool,
    ) -> Indexes,
    HnswDiff: Fn(HnswConfig, HnswConfig) -> bool,
    MirageDiff: Fn(MirageConfig, MirageConfig) -> bool,
    QuantDiff: Fn(Quant, Quant) -> bool,
    Appendable: Fn(Quant) -> bool,
 {
    let wanted = wanted_for(settings, vectors.name@);
    let start = plain_target(settings, vectors.name@, vectors.config);
    let required = dense_on_disk(settings, vectors.name@);
    exists|placed: VectorDataConfig<Quant, Details>, index: Indexes, index_differs: bool|
        {
            let target = quantized_as_wanted(placed, wanted, indexed);
            &&& #[trigger] call_ensures(
                rules.apply_storage_policy,
                (start, wanted, indexed, on_disk),
                placed,
            )
            &&& call_ensures(
                rules.resolve_index,
                (target, wanted, indexed, rules.use_mirage),
                index,
            )
            &&& #[trigger] index_verdict(
                rules.hnsw_mismatch,
                rules.mirage_mismatch,
                vectors.config.index,
                index,
                index_differs,
            )
            &&& if index_differs || (required is Some && required
                != Some(vectors.config.storage_on_disk)) {
                rebuild
            } else {
                quantization_verdict(
                    rules.quantization_mismatch,
                    rules.supports_appendable,
                    rules.appendable_quantization,
                    vectors.config.index.spec_is_indexed(),
                    vectors.config.quantization_config,
                    target.quantization_config,
                    rebuild,
                )
            }
        }
}

/// Whether some sparse vectors of a segment have to be rebuilt.
pub open spec fn some_sparse_mismatch<Quant, Details, Global>(
    settings: OptimizerSettings<Quant, Details, Global>,
    sparse_vector_data: Seq<SparseVectors>,
) -> bool {
    exists|i: int|
        0 <= i < sparse_vector_data.len() && sparse_mismatch(
            sparse_on_disk(settings, (#[trigger] sparse_vector_data[i]).name@),
            sparse_vector_data[i].index_type,
        )
}

/// Whether `rebuild` may be the answer to whether a segment has to be rebuilt: its
/// payloads are not where they are asked to be, its size is not known, or some of
/// its vectors have to be rebuilt.
pub open spec fn segment_verdict<
    Quant,
    Details,
    Global,
    Policy,
    Resolve,
    HnswDiff,
    MirageDiff,
    QuantDiff,
    Appendable,
>(
    rules: RebuildRules<Policy, Resolve, HnswDiff, MirageDiff, QuantDiff, Appendable>,
    settings: OptimizerSettings<Quant, Details, Global>,
    segment: SegmentInfo<Quant, Details>,
    rebuild: bool,
) -> bool where
    Policy: Fn(
        VectorDataConfig<Quant, Details>,
        DenseVectorOptimizerConfig<Quant>,
        bool,
        bool,
    ) -> VectorDataConfig<Quant, Details>,
    Resolve: Fn(
        VectorDataConfig<Quant, Details>,
        DenseVectorOptimizerConfig<Quant>,
        bool,
        bool,
    ) -> Indexes,
    HnswDiff: Fn(HnswConfig, HnswConfig) -> bool,
    MirageDiff: Fn(MirageConfig, MirageConfig) -> bool,
    QuantDiff: Fn(Quant, Quant) -> bool,
    Appendable: Fn(Quant) -> bool,
 {
    if settings.segment_optimizer_config.payload_on_disk != segment.payload_on_disk {
        rebuild
    } else {
        match segment.max_available_vectors_size_in_bytes {
            Err(_) => rebuild,
            Ok(size) => {
                let indexed = reaches(size, settings.thresholds_config.indexing_threshold_kb);
                let on_disk = reaches(size, settings.thresholds_config.memmap_threshold_kb);
                let dense = segment.vector_data@;
                let sparse = some_sparse_mismatch(settings, segment.sparse_vector_data@);
                if rebuild {
                    sparse || exists|i: int|
                        0 <= i < dense.len() && dense_verdict(
                            rules,
                            settings,
                            #[trigger] dense[i],
                            indexed,
                            on_disk,
                            true,
                        )
                } else {
                    !sparse && forall|i: int|
                        0 <= i < dense.len() ==> dense_verdict(
                            rules,
                            settings,
                            #[trigger] dense[i],
                            indexed,
                            on_disk,
                            false,
                        )
                }
            },
        }
    }
}

impl<Quant: Copy, Details: Copy, Global> ConfigMismatchOptimizer<Quant, Details, Global> {
    /// An optimizer with the given settings.
    pub fn new(
        thresholds_config: OptimizerThresholds,
        segments_path: String,
        temp_path: String,
        segment_config: SegmentOptimizerConfig<Quant, Details>,
        global_hnsw_config: HnswConfig,
        hnsw_global_config: Global,
    ) -> (optimizer: Self)
        ensures
            optimizer@ == (OptimizerSettings {
                thresholds_config,
                segments_path: segments_path@,
                temp_path: temp_path@,
                segment_optimizer_config: segment_config,
                global_hnsw_config,
                hnsw_global_config,
            }),
    {
        ConfigMismatchOptimizer {
            thresholds_config,
            segments_path,
            temp_path,
            segment_optimizer_config: segment_config,
            global_hnsw_config,
            hnsw_global_config,
        }
    }

    /// Whether the current configuration requires vectors to be stored on disk.
    pub fn check_if_vectors_on_disk(&self, vector_name: &str) -> (required: Option<bool>)
        ensures
            required == dense_on_disk(self@, vector_name@),
    {
        match self.segment_optimizer_config.dense_vector.get(vector_name) {
            Some(cfg) => cfg.on_disk,
            None => None,
        }
    }

    /// Whether the current configuration requires the index of sparse vectors to be
    /// stored on disk.
    pub fn check_if_sparse_vectors_index_on_disk(&self, vector_name: &str) -> (required: Option<
        bool,
    >)
        ensures
            required == sparse_on_disk(self@, vector_name@),
    {
        match self.segment_optimizer_config.sparse_vector.get(vector_name) {
            Some(cfg) => cfg.on_disk,
            None => None,
        }
    }

    /// What is asked of the dense vectors under a name.
    fn wanted_config(&self, vector_name: &str) -> (wanted: DenseVectorOptimizerConfig<Quant>)
        ensures
            wanted == wanted_for(self@, vector_name@),
    {
        match self.segment_optimizer_config.dense_vector.get(vector_name) {
            Some(cfg) => *cfg,
            None => DenseVectorOptimizerConfig {
                on_disk: None,
                hnsw_config: self.global_hnsw_config,
                mirage_config: None,
                quantization_config: None,
            },
        }
    }

    /// The config of the dense vectors under a name before they are placed.
    fn plain_config(
        &self,
        vector_name: &str,
        current: &VectorDataConfig<Quant, Details>,
    ) -> (plain: VectorDataConfig<Quant, Details>)
        ensures
            plain == plain_target(self@, vector_name@, *current),
    {
        match self.segment_optimizer_config.plain_dense_vector_config.get(vector_name) {
            Some(cfg) => *cfg,
            None => VectorDataConfig {
                index: Indexes::Plain {  },
                quantization_config: None,
                storage_on_disk: current.storage_on_disk,
                details: current.details,
            },
        }
    }

    /// Whether dense vectors of a segment have to be rebuilt.
    fn dense_has_mismatch<Policy, Resolve, HnswDiff, MirageDiff, QuantDiff, Appendable>(
        &self,
        rules: &RebuildRules<Policy, Resolve, HnswDiff, MirageDiff, QuantDiff, Appendable>,
        vectors: &DenseVectors<Quant, Details>,
        threshold_is_indexed: bool,
        threshold_is_on_disk: bool,
    ) -> (rebuild: bool) where
        Policy: Fn(
            VectorDataConfig<Quant, Details>,
            DenseVectorOptimizerConfig<Quant>,
            bool,
            bool,
        ) -> VectorDataConfig<Quant, Details>,
        Resolve: Fn(
            VectorDataConfig<Quant, Details>,
            DenseVectorOptimizerConfig<Quant>,
            bool,
            bool,
        ) -> Indexes,
        HnswDiff: Fn(HnswConfig, HnswConfig) -> bool,
        MirageDiff: Fn(MirageConfig, MirageConfig) -> bool,
        QuantDiff: Fn(Quant, Quant) -> bool,
        Appendable: Fn(Quant) -> bool,

        requires
            rules_apply(*rules),
        ensures
            dense_verdict(
                *rules,
                self@,
                *vectors,
                threshold_is_indexed,
                threshold_is_on_disk,
                rebuild,
            ),
    {
        let name: &str = vectors.name.as_str();
        let wanted: DenseVectorOptimizerConfig<Quant> = self.wanted_config(name);
        let start: VectorDataConfig<Quant, Details> = self.plain_config(name, &vectors.config);
        let placed: VectorDataConfig<Quant, Details> = (rules.apply_storage_policy)(
            start,
            wanted,
            threshold_is_indexed,
            threshold_is_on_disk,
        );
        let target: VectorDataConfig<Quant, Details> = if threshold_is_indexed {
            VectorDataConfig {
                index: placed.index,
                quantization_config: wanted.quantization_config,
                storage_on_disk: placed.storage_on_disk,
                details: placed.details,
            }
        } else {
            placed
        };
        let index: Indexes = (rules.resolve_index)(
            target,
            wanted,
            threshold_is_indexed,
            rules.use_mirage,
        );
        assert(target == quantized_as_wanted(placed, wanted, threshold_is_indexed));
        let index_differs: bool = dense_index_mismatch_requires_rebuild(
            &vectors.config.index,
            &index,
            &rules.hnsw_mismatch,
            &rules.mirage_mismatch,
        );
        if index_differs {
            return true;
        }
        if let Some(is_required_on_disk) = self.check_if_vectors_on_disk(name) {
            if is_required_on_disk != vectors.config.storage_on_disk {
                return true;
            }
        }
        quantization_requires_rebuild(
            &rules.quantization_mismatch,
            &rules.supports_appendable,
            rules.appendable_quantization,
            vectors.config.index.is_indexed(),
            &vectors.config.quantization_config,
            &target.quantization_config,
        )
    }

    /// Whether some sparse vectors of a segment have to be rebuilt.
    fn sparse_has_mismatch(&self, sparse_vector_data: &Vec<SparseVectors>) -> (mismatch: bool)
        ensures
            mismatch == some_sparse_mismatch(self@, sparse_vector_data@),
    {
        let mut i: usize = 0;
        while i < sparse_vector_data.len()
            invariant
                i <= sparse_vector_data@.len(),
                forall|j: int|
                    0 <= j < i ==> !sparse_mismatch(
                        sparse_on_disk(self@, (#[trigger] sparse_vector_data@[j]).name@),
                        sparse_vector_data@[j].index_type,
                    ),
            decreases sparse_vector_data@.len() - i,
        {
            let required: Option<bool> = self.check_if_sparse_vectors_index_on_disk(
                sparse_vector_data[i].name.as_str(),
            );
            if let Some(is_required_on_disk) = required {
                let mismatch: bool = match sparse_vector_data[i].index_type {
                    SparseIndexType::MutableRam => false,
                    SparseIndexType::ImmutableRam => is_required_on_disk,
                    SparseIndexType::Mmap => !is_required_on_disk,
                };
                if mismatch {
                    assert(sparse_mismatch(
                        sparse_on_disk(self@, sparse_vector_data@[i as int].name@),
                        sparse_vector_data@[i as int].index_type,
                    ));
                    return true;
                }
            }
            i = i + 1;
        }
        false
    }

    /// Whether a segment has a mismatch that requires a rebuild.
    pub fn has_config_mismatch<Policy, Resolve, HnswDiff, MirageDiff, QuantDiff, Appendable>(
        &self,
        segment: &SegmentInfo<Quant, Details>,
        rules: &RebuildRules<Policy, Resolve, HnswDiff, MirageDiff, QuantDiff, Appendable>,
    ) -> (rebuild: bool) where
        Policy: Fn(
            VectorDataConfig<Quant, Details>,
            DenseVectorOptimizerConfig<Quant>,
            bool,
            bool,
        ) -> VectorDataConfig<Quant, Details>,
        Resolve: Fn(
            VectorDataConfig<Quant, Details>,
            DenseVectorOptimizerConfig<Quant>,
            bool,
            bool,
        ) -> Indexes,
        HnswDiff: Fn(HnswConfig, HnswConfig) -> bool,
        MirageDiff: Fn(MirageConfig, MirageConfig) -> bool,
        QuantDiff: Fn(Quant, Quant) -> bool,
        Appendable: Fn(Quant) -> bool,

        requires
            rules_apply(*rules),
        ensures
            segment_verdict(*rules, self@, *segment, rebuild),
    {
        if self.segment_optimizer_config.payload_on_disk != segment.payload_on_disk {
            return true;
        }
        let segment_vector_size: usize = match segment.max_available_vectors_size_in_bytes {
            Ok(size) => size,
            Err(_) => return true,
        };
        let threshold_is_indexed: bool = segment_vector_size
            >= saturating_mul(self.thresholds_config.indexing_threshold_kb, BYTES_IN_KB);
        let threshold_is_on_disk: bool = segment_vector_size
            >= saturating_mul(self.thresholds_config.memmap_threshold_kb, BYTES_IN_KB);
        let mut i: usize = 0;
        while i < segment.vector_data.len()
            invariant
                i <= segment.vector_data@.len(),
                rules_apply(*rules),
                self@.segment_optimizer_config.payload_on_disk == segment.payload_on_disk,
                segment.max_available_vectors_size_in_bytes == Ok::<
                    usize,
                    crate::operation_error::OperationError,
                >(segment_vector_size),
                threshold_is_indexed == reaches(
                    segment_vector_size,
                    self@.thresholds_config.indexing_threshold_kb,
                ),
                threshold_is_on_disk == reaches(
                    segment_vector_size,
                    self@.thresholds_config.memmap_threshold_kb,
                ),
                forall|j: int|
                    0 <= j < i ==> dense_verdict(
                        *rules,
                        self@,
                        #[trigger] segment.vector_data@[j],
                        threshold_is_indexed,
                        threshold_is_on_disk,
                        false,
                    ),
            decreases segment.vector_data@.len() - i,
        {
            let mismatch: bool = self.dense_has_mismatch(
                rules,
                &segment.vector_data[i],
                threshold_is_indexed,
                threshold_is_on_disk,
            );
            if mismatch {
                return true;
            }
            i = i + 1;
        }
        self.sparse_has_mismatch(&segment.sparse_vector_data)
    }
}

// ---------------------------------------------------------------------------
// Planning
// ---------------------------------------------------------------------------

/// Identifies a segment.
pub type SegmentId = usize;

/// A segment that may be optimized.
pub struct RemainingSegment<Quant, Details> {
    pub id: SegmentId,
    pub info: SegmentInfo<Quant, Details>,
}

/// A segment to be optimized, with the size of its vectors.
#[derive(Clone, Copy, Debug, PartialEq, Eq)]
pub struct SizedSegment {
    pub id: SegmentId,
    pub size: usize,
}

/// The size that a segment is sorted by; one that is not known counts as none.
pub open spec fn sorting_size<Quant, Details>(segment: SegmentInfo<Quant, Details>) -> usize {
    match segment.max_available_vectors_size_in_bytes {
        Ok(size) => size,
        Err(_) => 0,
    }
}

/// The segments that `verdicts` mark for a rebuild, with their sizes.
pub open spec fn marked<Quant, Details>(
    segments: Seq<RemainingSegment<Quant, Details>>,
    verdicts: Seq<bool>,
) -> Seq<SizedSegment>
    decreases segments.len(),
{
    if segments.len() == 0 {
        Seq::empty()
    } else {
        let before = marked(segments.drop_last(), verdicts.drop_last());
        if verdicts.last() {
            before.push(
                SizedSegment {
                    id: segments.last().id,
                    size: sorting_size(segments.last().info),
                },
            )
        } else {
            before
        }
    }
}

/// The segments of one size, in order.
pub open spec fn of_size(segments: Seq<SizedSegment>, size: usize) -> Seq<SizedSegment> {
    segments.filter(|segment: SizedSegment| segment.size == size)
}

/// Whether `sorted` are `segments` with larger ones first, those of one size in the
/// order that they had.
pub open spec fn sorts_by_size(segments: Seq<SizedSegment>, sorted: Seq<SizedSegment>) -> bool {
    &&& forall|i: int, j: int| 0 <= i < j < sorted.len() ==> sorted[i].size >= sorted[j].size
    &&& forall|size: usize| #[trigger] of_size(sorted, size) == of_size(segments, size)
}

/// Sorts by `Itertools::sorted_by_key` with the reversed size as key, of which it
/// claims that the items are kept, that keys ascend, and that items with one key
/// keep their order.
#[verifier::external_body]
fn sort_largest_first(segments: Vec<SizedSegment>) -> (sorted: Vec<SizedSegment>)
    ensures
        sorts_by_size(segments@, sorted@),
{
    segments.into_iter().sorted_by_key(|segment| std::cmp::Reverse(segment.size)).collect()
}

/// Whether `verdicts` may be the answers to whether `segments` have to be rebuilt.
pub open spec fn verdicts_on<
    Quant,
    Details,
    Global,
    Policy,
    Resolve,
    HnswDiff,
    MirageDiff,
    QuantDiff,
    Appendable,
>(
    rules: RebuildRules<Policy, Resolve, HnswDiff, MirageDiff, QuantDiff, Appendable>,
    settings: OptimizerSettings<Quant, Details, Global>,
    segments: Seq<RemainingSegment<Quant, Details>>,
    verdicts: Seq<bool>,
) -> bool where
    Policy: Fn(
        VectorDataConfig<Quant, Details>,
        DenseVectorOptimizerConfig<Quant>,
        bool,
        bool,
    ) -> VectorDataConfig<Quant, Details>,
    Resolve: Fn(
        VectorDataConfig<Quant, Details>,
        DenseVectorOptimizerConfig<Quant>,
        bool,
        bool,
    ) -> Indexes,
    HnswDiff: Fn(HnswConfig, HnswConfig) -> bool,
    MirageDiff: Fn(MirageConfig, MirageConfig) -> bool,
    QuantDiff: Fn(Quant, Quant) -> bool,
    Appendable: Fn(Quant) -> bool,
 {
    &&& verdicts.len() == segments.len()
    &&& forall|i: int|
        0 <= i < segments.len() ==> segment_verdict(
            rules,
            settings,
            (#[trigger] segments[i]).info,
            verdicts[i],
        )
}

/// Whether `plan` optimizes the segments of `sorted`, each by itself, in order.
pub open spec fn plans_each(sorted: Seq<SizedSegment>, plan: Seq<Vec<SegmentId>>) -> bool {
    &&& plan.len() == sorted.len()
    &&& forall|i: int| 0 <= i < plan.len() ==> (#[trigger] plan[i])@ == seq![sorted[i].id]
}

/// Whether `plan` may be the plan for segments of which `verdicts` mark those to be
/// rebuilt: each of them by itself, larger ones first.
pub open spec fn plan_for<Quant, Details>(
    segments: Seq<RemainingSegment<Quant, Details>>,
    verdicts: Seq<bool>,
    plan: Seq<Vec<SegmentId>>,
) -> bool {
    exists|sorted: Seq<SizedSegment>|
        {
            &&& #[trigger] sorts_by_size(marked(segments, verdicts), sorted)
            &&& plans_each(sorted, plan)
        }
}

impl<Quant: Copy, Details: Copy, Global> ConfigMismatchOptimizer<Quant, Details, Global> {
    /// Plans the optimization of the segments that have a mismatch. Those with the
    /// largest vectors come first, and each is optimized by itself.
    pub fn plan_optimizations<Policy, Resolve, HnswDiff, MirageDiff, QuantDiff, Appendable>(
        &self,
        remaining: &Vec<RemainingSegment<Quant, Details>>,
        rules: &RebuildRules<Policy, Resolve, HnswDiff, MirageDiff, QuantDiff, Appendable>,
    ) -> (plan: Vec<Vec<SegmentId>>) where
        Policy: Fn(
            VectorDataConfig<Quant, Details>,
            DenseVectorOptimizerConfig<Quant>,
            bool,
            bool,
        ) -> VectorDataConfig<Quant, Details>,
        Resolve: Fn(
            VectorDataConfig<Quant, Details>,
            DenseVectorOptimizerConfig<Quant>,
            bool,
            bool,
        ) -> Indexes,
        HnswDiff: Fn(HnswConfig, HnswConfig) -> bool,
        MirageDiff: Fn(MirageConfig, MirageConfig) -> bool,
        QuantDiff: Fn(Quant, Quant) -> bool,
        Appendable: Fn(Quant) -> bool,

        requires
            rules_apply(*rules),
        ensures
            exists|verdicts: Seq<bool>|
                {
                    &&& #[trigger] verdicts_on(*rules, self@, remaining@, verdicts)
                    &&& plan_for(remaining@, verdicts, plan@)
                },
    {
        let mut to_optimize: Vec<SizedSegment> = Vec::new();
        let ghost mut verdicts: Seq<bool> = Seq::empty();
        let mut i: usize = 0;
        assert(remaining@.take(0) =~= Seq::<RemainingSegment<Quant, Details>>::empty());
        while i < remaining.len()
            invariant
                i <= remaining@.len(),
                rules_apply(*rules),
                verdicts.len() == i,
                forall|j: int|
                    0 <= j < i ==> segment_verdict(
                        *rules,
                        self@,
                        (#[trigger] remaining@[j]).info,
                        verdicts[j],
                    ),
                to_optimize@ == marked(remaining@.take(i as int), verdicts),
            decreases remaining@.len() - i,
        {
            let segment: &RemainingSegment<Quant, Details> = &remaining[i];
            let mismatch: bool = self.has_config_mismatch(&segment.info, rules);
            let ghost before = verdicts;
            proof {
                verdicts = verdicts.push(mismatch);
                assert(verdicts.drop_last() =~= before);
                assert(remaining@.take(i + 1).drop_last() =~= remaining@.take(i as int));
                assert(remaining@.take(i + 1).last() == *segment);
            }
            if mismatch {
                let size: usize = match segment.info.max_available_vectors_size_in_bytes {
                    Ok(size) => size,
                    Err(_) => 0,
                };
                to_optimize.push(SizedSegment { id: segment.id, size });
            }
            i = i + 1;
        }
        assert(remaining@.take(i as int) =~= remaining@);
        let sorted: Vec<SizedSegment> = sort_largest_first(to_optimize);
        let mut plan: Vec<Vec<SegmentId>> = Vec::new();
        while plan.len() < sorted.len()
            invariant
                plan@.len() <= sorted@.len(),
                forall|j: int|
                    0 <= j < plan@.len() ==> (#[trigger] plan@[j])@ == seq![sorted@[j].id],
            decreases sorted@.len() - plan@.len(),
        {
            let mut alone: Vec<SegmentId> = Vec::new();
            alone.push(sorted[plan.len()].id);
            assert(alone@ =~= seq![sorted@[plan@.len() as int].id]);
            plan.push(alone);
        }
        proof {
            assert(verdicts_on(*rules, self@, remaining@, verdicts));
            assert(sorts_by_size(marked(remaining@, verdicts), sorted@));
        }
        plan
    }

    /// The name of the optimizer.
    pub fn name(&self) -> (name: &'static str)
        ensures
            name@ == "config mismatch"@,
    {
        "config mismatch"
    }

    /// Where segments are.
    pub fn segments_path(&self) -> (path: &str)
        ensures
            path@ == self@.segments_path,
    {
        self.segments_path.as_str()
    }

    /// Where segments are built.
    pub fn temp_path(&self) -> (path: &str)
        ensures
            path@ == self@.temp_path,
    {
        self.temp_path.as_str()
    }

    /// What is asked of segments.
    pub fn segment_optimizer_config(&self) -> (config: &SegmentOptimizerConfig<Quant, Details>)
        ensures
            *config == self@.segment_optimizer_config,
    {
        &self.segment_optimizer_config
    }

    /// What the optimizer holds for whoever rebuilds segments.
    pub fn hnsw_global_config(&self) -> (config: &Global)
        ensures
            *config == self@.hnsw_global_config,
    {
        &self.hnsw_global_config
    }

    /// From which sizes on segments are treated differently.
    pub fn threshold_config(&self) -> (config: &OptimizerThresholds)
        ensures
            *config == self@.thresholds_config,
    {
        &self.thresholds_config
    }
}

/// An index of another kind than the one that is asked for is always rebuilt, and
/// vectors without an index that are to have none never are.
pub proof fn law_other_kind_is_rebuilt<HnswDiff, MirageDiff>(
    hnsw_mismatch: HnswDiff,
    mirage_mismatch: MirageDiff,
    current: Indexes,
    target: Indexes,
    rebuild: bool,
) where
    HnswDiff: Fn(HnswConfig, HnswConfig) -> bool,
    MirageDiff: Fn(MirageConfig, MirageConfig) -> bool,

    requires
        index_verdict(hnsw_mismatch, mirage_mismatch, current, target, rebuild),
    ensures
        (current is Plain) != (target is Plain) ==> rebuild,
        (current is Hnsw) != (target is Hnsw) ==> rebuild,
        (current is Mirage) != (target is Mirage) ==> rebuild,
        current is Plain && target is Plain ==> !rebuild,
{
}

/// Dense vectors that are as they are asked to be are not rebuilt again: where the
/// rules pick the index and the quantization that the vectors have, the vectors are
/// where they are asked to be, and no rule holds a config to mismatch itself, the
/// answer is no.
pub proof fn law_settled_vectors_are_kept<
    Quant,
    Details,
    Global,
    Policy,
    Resolve,
    HnswDiff,
    MirageDiff,
    QuantDiff,
    Appendable,
>(
    rules: RebuildRules<Policy, Resolve, HnswDiff, MirageDiff, QuantDiff, Appendable>,
    settings: OptimizerSettings<Quant, Details, Global>,
    vectors: DenseVectors<Quant, Details>,
    indexed: bool,
    on_disk: bool,
    rebuild: bool,
) where
    Policy: Fn(
        VectorDataConfig<Quant, Details>,
        DenseVectorOptimizerConfig<Quant>,
        bool,
        bool,
    ) -> VectorDataConfig<Quant, Details>,
    Resolve: Fn(
        VectorDataConfig<Quant, Details>,
        DenseVectorOptimizerConfig<Quant>,
        bool,
        bool,
    ) -> Indexes,
    HnswDiff: Fn(HnswConfig, HnswConfig) -> bool,
    MirageDiff: Fn(MirageConfig, MirageConfig) -> bool,
    QuantDiff: Fn(Quant, Quant) -> bool,
    Appendable: Fn(Quant) -> bool,

    requires
        dense_verdict(rules, settings, vectors, indexed, on_disk, rebuild),
        ({
            let wanted = wanted_for(settings, vectors.name@);
            let start = plain_target(settings, vectors.name@, vectors.config);
            let required = dense_on_disk(settings, vectors.name@);
            &&& required is None || required == Some(vectors.config.storage_on_disk)
            &&& forall|placed: VectorDataConfig<Quant, Details>, index: Indexes|
                #[trigger] call_ensures(
                    rules.apply_storage_policy,
                    (start, wanted, indexed, on_disk),
                    placed,
                ) && #[trigger] call_ensures(
                    rules.resolve_index,
                    (quantized_as_wanted(placed, wanted, indexed), wanted, indexed, rules.use_mirage),
                    index,
                ) ==> {
                    &&& index == vectors.config.index
                    &&& quantized_as_wanted(placed, wanted, indexed).quantization_config
                        == vectors.config.quantization_config
                }
        }),
        forall|config: HnswConfig, differs: bool|
            #[trigger] call_ensures(rules.hnsw_mismatch, (config, config), differs) ==> !differs,
        forall|config: MirageConfig, differs: bool|
            #[trigger] call_ensures(rules.mirage_mismatch, (config, config), differs) ==> !differs,
        forall|config: Quant, differs: bool|
            #[trigger] call_ensures(rules.quantization_mismatch, (config, config), differs)
                ==> !differs,
    ensures
        !rebuild,
{
}

} // verus!
