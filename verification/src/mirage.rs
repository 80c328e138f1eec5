//! MIRAGE vector index.
//!
//! The index is an HNSW graph whose layer 0 is made by refinement instead of
//! insertion. It keeps its configuration next to the graph files, and leaves
//! search to an HNSW runtime that is opened over them. What the runtime, the
//! storage and the file system do is up to the caller; this module decides what
//! is accepted, what is built, and in which order.

use vstd::prelude::*;
use crate::arithmetic::saturating_mul;
use crate::config::{HnswGraphConfig, MirageGraphConfig};
use crate::operation_error::{OperationError, OperationResult};

verus! {

/// Bytes in a kilobyte, the unit of the configured full scan threshold.
pub const BYTES_IN_KB: usize = 1024;

/// The least number of neighbors to consider while upper layers are built.
pub const MIN_EF_CONSTRUCT: usize = 1024;

/// User-facing configuration of a MIRAGE index.
#[derive(Clone, Copy, Debug, PartialEq, Eq)]
pub struct MirageConfig {
    pub m: usize,
    pub ef_construct: usize,
    /// Size in kilobytes below which a plain scan is preferred.
    pub full_scan_threshold: usize,
    pub max_indexing_threads: usize,
    pub on_disk: Option<bool>,
    pub payload_m: Option<usize>,
    pub s: usize,
    pub r: usize,
    pub iter: usize,
    pub num_reverse_edges: usize,
}

/// User-facing configuration of an HNSW index.
#[derive(Clone, Copy, Debug, PartialEq, Eq)]
pub struct HnswConfig {
    pub m: usize,
    pub ef_construct: usize,
    pub full_scan_threshold: usize,
    pub max_indexing_threads: usize,
    pub on_disk: Option<bool>,
    pub payload_m: Option<usize>,
    pub inline_storage: Option<bool>,
}

/// `ef`, but no less than upper layers are always built with.
pub open spec fn raised_ef(ef: usize) -> usize {
    if ef < MIN_EF_CONSTRUCT {
        MIN_EF_CONSTRUCT
    } else {
        ef
    }
}

/// `ef`, but no less than upper layers are always built with.
fn raise_ef(ef: usize) -> (raised: usize)
    ensures
        raised == raised_ef(ef),
{
    if ef < MIN_EF_CONSTRUCT {
        MIN_EF_CONSTRUCT
    } else {
        ef
    }
}

impl MirageConfig {
    /// The HNSW-compatible view of this config.
    pub open spec fn hnsw_view(self) -> HnswConfig {
        HnswConfig {
            m: self.m,
            ef_construct: raised_ef(self.ef_construct),
            full_scan_threshold: self.full_scan_threshold,
            max_indexing_threads: self.max_indexing_threads,
            on_disk: self.on_disk,
            payload_m: self.payload_m,
            inline_storage: None,
        }
    }

    /// Builds an HNSW-compatible view of this config.
    pub fn to_hnsw_compat(&self) -> (config: HnswConfig)
        ensures
            config == self.hnsw_view(),
    {
        HnswConfig {
            m: self.m,
            ef_construct: raise_ef(self.ef_construct),
            full_scan_threshold: self.full_scan_threshold,
            max_indexing_threads: self.max_indexing_threads,
            on_disk: self.on_disk,
            payload_m: self.payload_m,
            inline_storage: None,
        }
    }
}

/// How a vector storage holds its vectors.
#[derive(Clone, Copy, Debug, PartialEq, Eq, Structural)]
pub enum VectorStorageKind {
    DenseSimple,
    DenseVolatile,
    DenseAppendableMemmap,
    /// Any other way.
    Other,
}

/// The type of the numbers of a vector.
#[derive(Clone, Copy, Debug, PartialEq, Eq, Structural)]
pub enum VectorStorageDatatype {
    Float32,
    Float16,
    Uint8,
}

/// What the index needs to know of a vector storage.
#[derive(Clone, Copy, Debug, PartialEq, Eq)]
pub struct VectorStorageInfo {
    pub kind: VectorStorageKind,
    pub datatype: VectorStorageDatatype,
    pub on_disk: bool,
    /// Whether a point may have several vectors.
    pub multi_vector: bool,
    pub total_vector_count: usize,
    pub available_vector_count: usize,
    pub size_of_available_vectors_in_bytes: usize,
}

/// Arguments for [`MirageIndex::open`] and [`MirageIndex::build`]. `Quantized` is
/// what the caller has in place of quantized vectors.
pub struct MirageIndexOpenArgs<'a, Quantized> {
    pub path: &'a str,
    pub vector_storage: VectorStorageInfo,
    pub quantized_vectors: Option<Quantized>,
    pub mirage_config: MirageConfig,
}

/// What keeps a config from being supported.
pub open spec fn config_refusal(config: MirageConfig) -> Option<Seq<char>> {
    if config.on_disk == Some(true) {
        Some("Mirage P0 does not support on-disk Mirage index"@)
    } else if config.payload_m is Some {
        Some("Mirage P0 does not support payload-aware subgraphs"@)
    } else {
        None
    }
}

/// What keeps a config from being supported over a vector storage.
pub open spec fn runtime_refusal(
    config: MirageConfig,
    storage: VectorStorageInfo,
    quantized: bool,
) -> Option<Seq<char>> {
    if config_refusal(config) is Some {
        config_refusal(config)
    } else if quantized {
        Some("Mirage P0 does not support quantization"@)
    } else if storage.multi_vector {
        Some("Mirage P0 does not support multi-vector storage"@)
    } else if storage.on_disk {
        Some("Mirage P0 does not support on-disk vector storage"@)
    } else if storage.datatype != VectorStorageDatatype::Float32 {
        Some("Mirage P0 supports Float32 vector storage only"@)
    } else if storage.kind == VectorStorageKind::Other {
        Some("Mirage P0 supports dense Float32 vector storage only"@)
    } else {
        None
    }
}

/// Whether `result` fails with a validation error exactly if something is refused.
pub open spec fn answers(result: OperationResult<()>, refusal: Option<Seq<char>>) -> bool {
    match refusal {
        None => result is Ok,
        Some(text) => result matches Err(error) && error.is_validation(text),
    }
}

/// The full scan threshold as a number of vectors, for vectors of which `count`
/// take `size` bytes.
pub open spec fn threshold_in_vectors(threshold_kb: usize, size: usize, count: usize) -> int {
    let average = size as int / if count == 0 {
        1
    } else {
        count as int
    };
    crate::arithmetic::saturating_product(threshold_kb, BYTES_IN_KB) / if average == 0 {
        1
    } else {
        average
    }
}

/// The full scan threshold as a number of vectors.
fn convert_threshold(threshold_kb: usize, size: usize, count: usize) -> (threshold: usize)
    ensures
        threshold == threshold_in_vectors(threshold_kb, size, count),
{
    let average: usize = size / if count == 0 {
        1
    } else {
        count
    };
    let bytes: usize = saturating_mul(threshold_kb, BYTES_IN_KB);
    bytes / if average == 0 {
        1
    } else {
        average
    }
}

/// The graph config that `user` asks for, over `count` vectors of `size` bytes.
pub open spec fn graph_config_of(
    user: MirageConfig,
    size: usize,
    count: usize,
) -> MirageGraphConfig {
    MirageGraphConfig {
        m: user.m,
        m0: crate::config::doubled(user.m),
        ef_construct: raised_ef(user.ef_construct),
        ef: raised_ef(user.ef_construct),
        full_scan_threshold: threshold_in_vectors(user.full_scan_threshold, size, count) as usize,
        s: user.s,
        r: user.r,
        iter: user.iter,
        num_reverse_edges: user.num_reverse_edges,
        max_indexing_threads: user.max_indexing_threads,
        payload_m: user.payload_m,
        payload_m0: match user.payload_m {
            Some(value) => Some(crate::config::doubled(value)),
            None => None,
        },
        indexed_vector_count: Some(count),
    }
}

/// The graph config that `user` asks for.
fn make_graph_config(user: &MirageConfig, size: usize, count: usize) -> (config: MirageGraphConfig)
    ensures
        config == graph_config_of(*user, size, count),
{
    MirageGraphConfig::new(
        user.m,
        raise_ef(user.ef_construct),
        convert_threshold(user.full_scan_threshold, size, count),
        user.s,
        user.r,
        user.iter,
        user.num_reverse_edges,
        user.max_indexing_threads,
        user.payload_m,
        count,
    )
}

/// The graph config of an index that has none on disk.
pub open spec fn derived_config(
    storage: VectorStorageInfo,
    user: MirageConfig,
) -> MirageGraphConfig {
    graph_config_of(
        user,
        storage.size_of_available_vectors_in_bytes,
        storage.available_vector_count,
    )
}

/// MIRAGE-flavored vector index: what it adds to the HNSW runtime over its graph.
pub struct MirageIndex {
    config: MirageGraphConfig,
    path: String,
}

/// What is to be done to open an index.
pub struct OpenPlan {
    /// The index.
    pub index: MirageIndex,
    /// The config of the HNSW runtime to open over the same directory.
    pub hnsw_config: HnswConfig,
}

impl MirageIndex {
    /// The persisted config of the index.
    pub closed spec fn spec_config(self) -> MirageGraphConfig {
        self.config
    }

    /// The path of the directory of the index.
    pub closed spec fn spec_path(self) -> Seq<char> {
        self.path@
    }

    /// Refuses a config that is not supported.
    pub fn validate_p0_config(mirage_config: &MirageConfig) -> (result: OperationResult<()>)
        ensures
            answers(result, config_refusal(*mirage_config)),
    {
        if let Some(on_disk) = mirage_config.on_disk {
            if on_disk {
                return Err(
                    OperationError::validation_error(
                        "Mirage P0 does not support on-disk Mirage index",
                    ),
                );
            }
        }
        if mirage_config.payload_m.is_some() {
            return Err(
                OperationError::validation_error(
                    "Mirage P0 does not support payload-aware subgraphs",
                ),
            );
        }
        Ok(())
    }

    /// Refuses a config, a vector storage or a quantization that is not supported.
    pub fn validate_p0_runtime<Quantized>(
        mirage_config: &MirageConfig,
        vector_storage: &VectorStorageInfo,
        quantized_vectors: &Option<Quantized>,
    ) -> (result: OperationResult<()>)
        ensures
            answers(
                result,
                runtime_refusal(*mirage_config, *vector_storage, *quantized_vectors is Some),
            ),
    {
        Self::validate_p0_config(mirage_config)?;
        if quantized_vectors.is_some() {
            return Err(OperationError::validation_error("Mirage P0 does not support quantization"));
        }
        if vector_storage.multi_vector {
            return Err(
                OperationError::validation_error("Mirage P0 does not support multi-vector storage"),
            );
        }
        if vector_storage.on_disk {
            return Err(
                OperationError::validation_error(
                    "Mirage P0 does not support on-disk vector storage",
                ),
            );
        }
        if vector_storage.datatype != VectorStorageDatatype::Float32 {
            return Err(
                OperationError::validation_error("Mirage P0 supports Float32 vector storage only"),
            );
        }
        match vector_storage.kind {
            VectorStorageKind::DenseSimple => Ok(()),
            VectorStorageKind::DenseVolatile => Ok(()),
            VectorStorageKind::DenseAppendableMemmap => Ok(()),
            VectorStorageKind::Other => Err(
                OperationError::validation_error(
                    "Mirage P0 supports dense Float32 vector storage only",
                ),
            ),
        }
    }

    /// Refuses arguments that are not supported.
    pub fn validate_p0_open_args<Quantized>(args: &MirageIndexOpenArgs<'_, Quantized>) -> (result:
        OperationResult<()>)
        ensures
            answers(
                result,
                runtime_refusal(
                    args.mirage_config,
                    args.vector_storage,
                    args.quantized_vectors is Some,
                ),
            ),
    {
        Self::validate_p0_runtime(
            &args.mirage_config,
            &args.vector_storage,
            &args.quantized_vectors,
        )
    }

    /// Refuses a search with a filter, whatever the filter is.
    pub fn validate_p0_search<Filter>(filter: Option<&Filter>) -> (result: OperationResult<()>)
        ensures
            answers(
                result,
                if filter is Some {
                    Some("Mirage P0 supports no-filter search only"@)
                } else {
                    None
                },
            ),
    {
        if filter.is_some() {
            return Err(
                OperationError::validation_error("Mirage P0 supports no-filter search only"),
            );
        }
        Ok(())
    }

    /// The graph config of an index that has none on disk, from the user-facing
    /// parameters and the size of the storage.
    pub fn derive_graph_config(
        vector_storage: &VectorStorageInfo,
        user_cfg: &MirageConfig,
    ) -> (config: MirageGraphConfig)
        ensures
            config == derived_config(*vector_storage, *user_cfg),
    {
        make_graph_config(
            user_cfg,
            vector_storage.size_of_available_vectors_in_bytes,
            vector_storage.available_vector_count,
        )
    }

    /// Opens an existing index.
    ///
    /// `persisted` is what reading the config next to the graph gave, or `None`
    /// where there is no such file, for example because the segment was built
    /// as an HNSW index. A config is then derived from `args`.
    pub fn open<Quantized>(
        args: MirageIndexOpenArgs<'_, Quantized>,
        persisted: Option<OperationResult<MirageGraphConfig>>,
    ) -> (result: OperationResult<OpenPlan>)
        ensures
            match runtime_refusal(
                args.mirage_config,
                args.vector_storage,
                args.quantized_vectors is Some,
            ) {
                Some(text) => result matches Err(error) && error.is_validation(text),
                None => match persisted {
                    Some(Err(failure)) => result matches Err(error) && error == failure,
                    Some(Ok(config)) => result matches Ok(plan) && plan.index.spec_config()
                        == config,
                    None => result matches Ok(plan) && plan.index.spec_config() == derived_config(
                        args.vector_storage,
                        args.mirage_config,
                    ),
                },
            },
            result matches Ok(plan) ==> {
                &&& plan.index.spec_path() == args.path@
                &&& plan.hnsw_config == args.mirage_config.hnsw_view()
            },
    {
        Self::validate_p0_open_args(&args)?;
        let config: MirageGraphConfig = match persisted {
            Some(Ok(config)) => config,
            Some(Err(error)) => return Err(error),
            None => Self::derive_graph_config(&args.vector_storage, &args.mirage_config),
        };
        Ok(
            OpenPlan {
                index: MirageIndex { config, path: args.path.to_owned() },
                hnsw_config: args.mirage_config.to_hnsw_compat(),
            },
        )
    }

    /// The persisted config of the index.
    pub fn config(&self) -> (config: &MirageGraphConfig)
        ensures
            *config == self.spec_config(),
    {
        &self.config
    }

    /// How many vectors are indexed: the recorded number, or else `inner_count`,
    /// that of the HNSW runtime.
    pub fn indexed_vector_count(&self, inner_count: usize) -> (count: usize)
        ensures
            count == match self.spec_config().indexed_vector_count {
                Some(recorded) => recorded,
                None => inner_count,
            },
    {
        match self.config.indexed_vector_count {
            Some(recorded) => recorded,
            None => inner_count,
        }
    }

    /// The path of the config of the index.
    pub fn config_path(&self) -> (path: String)
        ensures
            path@ == crate::config::path_within(
                self.spec_path(),
                crate::config::MIRAGE_INDEX_CONFIG_FILE@,
            ),
    {
        MirageGraphConfig::get_config_path(self.path.as_str())
    }

    /// The files of the index: those of the HNSW runtime, and the config of the
    /// index where it is there.
    pub fn files(&self, inner_files: Vec<String>, config_exists: bool) -> (files: Vec<String>)
        ensures
            files@.len() == inner_files@.len() + if config_exists {
                1int
            } else {
                0
            },
            files@.take(inner_files@.len() as int) == inner_files@,
            config_exists ==> files@.last()@ == crate::config::path_within(
                self.spec_path(),
                crate::config::MIRAGE_INDEX_CONFIG_FILE@,
            ),
    {
        let mut files: Vec<String> = inner_files;
        if config_exists {
            files.push(self.config_path());
        }
        files
    }

    /// The files that do not change after the build, which are all.
    pub fn immutable_files(&self, inner_files: Vec<String>, config_exists: bool) -> (files: Vec<
        String,
    >)
        ensures
            files@.len() == inner_files@.len() + if config_exists {
                1int
            } else {
                0
            },
            files@.take(inner_files@.len() as int) == inner_files@,
            config_exists ==> files@.last()@ == crate::config::path_within(
                self.spec_path(),
                crate::config::MIRAGE_INDEX_CONFIG_FILE@,
            ),
    {
        self.files(inner_files, config_exists)
    }

    /// The name under which the index appears in telemetry.
    pub fn telemetry_name() -> (name: String)
        ensures
            name@ == "mirage"@,
    {
        "mirage".to_owned()
    }
}

// ---------------------------------------------------------------------------
// Build
// ---------------------------------------------------------------------------

/// Links of a point at the upper layers and at layer 0.
#[derive(Clone, Copy, Debug, PartialEq, Eq)]
pub struct HnswM {
    pub m: usize,
    pub m0: usize,
}

/// Arguments of a new graph builder.
#[derive(Clone, Copy, Debug, PartialEq, Eq)]
pub struct GraphBuilderArgs {
    pub num_vectors: usize,
    pub hnsw_m: HnswM,
    pub ef_construct: usize,
    pub entry_points_num: usize,
    /// Whether neighbors are selected by the heuristic of HNSW.
    pub use_heuristic: bool,
}

/// Which files of an index are there already.
#[derive(Clone, Copy, Debug, PartialEq, Eq)]
pub struct ExistingFiles {
    pub mirage_config: bool,
    pub hnsw_config: bool,
    pub graph: bool,
}

/// The next thing to do for a build.
#[derive(Clone, Copy, Debug, PartialEq, Eq)]
pub enum BuildAction {
    /// There is an index already: open it instead.
    OpenExisting,
    /// Create the directory of the index.
    CreateDirectory,
    /// Build the graph under this config.
    BuildMainGraph { config: MirageGraphConfig },
    /// Make a graph without links.
    MakeEmptyGraph { builder: GraphBuilderArgs },
    /// Write the graph files.
    PersistGraph,
    /// Write the config of the HNSW runtime.
    SaveHnswConfig { graph_config: HnswGraphConfig },
    /// Write the config of the index.
    SaveMirageConfig { config: MirageGraphConfig },
    /// Open the HNSW runtime over the files.
    OpenRuntime { hnsw_config: HnswConfig },
    /// Nothing: the index is built.
    Finished,
}

/// A build under way.
pub struct MirageBuild {
    mirage_config: MirageConfig,
    total_vector_count: usize,
    config: MirageGraphConfig,
    path: String,
    action: BuildAction,
}

/// What a build is about, and where it stands.
pub struct BuildState {
    pub mirage_config: MirageConfig,
    pub total_vector_count: usize,
    pub config: MirageGraphConfig,
    pub path: Seq<char>,
    pub action: BuildAction,
}

/// The builder of a graph without links.
pub open spec fn empty_builder(total_vector_count: usize, ef_construct: usize) -> GraphBuilderArgs {
    GraphBuilderArgs {
        num_vectors: total_vector_count,
        hnsw_m: HnswM { m: 0, m0: 0 },
        ef_construct,
        entry_points_num: 1,
        use_heuristic: true,
    }
}

/// Where a build starts.
pub open spec fn build_start(
    mirage_config: MirageConfig,
    storage: VectorStorageInfo,
    path: Seq<char>,
    existing: ExistingFiles,
) -> BuildState {
    BuildState {
        mirage_config,
        total_vector_count: storage.total_vector_count,
        config: graph_config_of(
            mirage_config,
            storage.size_of_available_vectors_in_bytes,
            storage.total_vector_count,
        ),
        path,
        action: if existing.mirage_config || existing.hnsw_config || existing.graph {
            BuildAction::OpenExisting
        } else {
            BuildAction::CreateDirectory
        },
    }
}

/// Where a build stands after its action succeeded; `indexed` is how many vectors
/// the graph indexes, where the action was to build it.
pub open spec fn build_step(state: BuildState, indexed: usize) -> BuildState {
    match state.action {
        BuildAction::OpenExisting => BuildState { action: BuildAction::Finished, ..state },
        BuildAction::CreateDirectory => BuildState {
            action: if state.config.m > 0 {
                BuildAction::BuildMainGraph { config: state.config }
            } else {
                BuildAction::MakeEmptyGraph {
                    builder: empty_builder(state.total_vector_count, state.config.ef_construct),
                }
            },
            ..state
        },
        BuildAction::BuildMainGraph { .. } => BuildState {
            config: MirageGraphConfig { indexed_vector_count: Some(indexed), ..state.config },
            action: BuildAction::PersistGraph,
            ..state
        },
        BuildAction::MakeEmptyGraph { .. } => BuildState {
            config: MirageGraphConfig { indexed_vector_count: Some(0), ..state.config },
            action: BuildAction::PersistGraph,
            ..state
        },
        BuildAction::PersistGraph => BuildState {
            action: BuildAction::SaveHnswConfig { graph_config: state.config.hnsw_view() },
            ..state
        },
        BuildAction::SaveHnswConfig { .. } => BuildState {
            action: BuildAction::SaveMirageConfig { config: state.config },
            ..state
        },
        BuildAction::SaveMirageConfig { .. } => BuildState {
            action: BuildAction::OpenRuntime { hnsw_config: state.mirage_config.hnsw_view() },
            ..state
        },
        BuildAction::OpenRuntime { .. } => BuildState { action: BuildAction::Finished, ..state },
        BuildAction::Finished => state,
    }
}

impl MirageIndex {
    /// Starts to build an index.
    ///
    /// A directory that holds an index already, or a part of one, is not built
    /// over.
    pub fn build<Quantized>(
        open_args: &MirageIndexOpenArgs<'_, Quantized>,
        existing: ExistingFiles,
    ) -> (result: OperationResult<MirageBuild>)
        ensures
            match runtime_refusal(
                open_args.mirage_config,
                open_args.vector_storage,
                open_args.quantized_vectors is Some,
            ) {
                Some(text) => result matches Err(error) && error.is_validation(text),
                None => result matches Ok(build) && build@ == build_start(
                    open_args.mirage_config,
                    open_args.vector_storage,
                    open_args.path@,
                    existing,
                ),
            },
    {
        Self::validate_p0_open_args(open_args)?;
        let total_vector_count: usize = open_args.vector_storage.total_vector_count;
        let config: MirageGraphConfig = make_graph_config(
            &open_args.mirage_config,
            open_args.vector_storage.size_of_available_vectors_in_bytes,
            total_vector_count,
        );
        let action: BuildAction = if existing.mirage_config || existing.hnsw_config
            || existing.graph {
            BuildAction::OpenExisting
        } else {
            BuildAction::CreateDirectory
        };
        Ok(
            MirageBuild {
                mirage_config: open_args.mirage_config,
                total_vector_count,
                config,
                path: open_args.path.to_owned(),
                action,
            },
        )
    }
}

impl View for MirageBuild {
    type V = BuildState;

    closed spec fn view(&self) -> BuildState {
        BuildState {
            mirage_config: self.mirage_config,
            total_vector_count: self.total_vector_count,
            config: self.config,
            path: self.path@,
            action: self.action,
        }
    }
}

impl MirageBuild {
    /// The next thing to do.
    pub fn action(&self) -> (action: BuildAction)
        ensures
            action == self@.action,
    {
        self.action
    }

    /// Takes note of how the action went: how many vectors it indexed, which
    /// matters only of the main graph, or why it failed. A failed action remains
    /// the next.
    pub fn proceed(&mut self, outcome: OperationResult<usize>) -> (result: OperationResult<()>)
        ensures
            match outcome {
                Ok(indexed) => {
                    &&& result is Ok
                    &&& final(self)@ == build_step(old(self)@, indexed)
                },
                Err(failure) => {
                    &&& result matches Err(error) && error == failure
                    &&& final(self)@ == old(self)@
                },
            },
    {
        let indexed: usize = match outcome {
            Ok(indexed) => indexed,
            Err(error) => return Err(error),
        };
        let next: BuildAction = match self.action {
            BuildAction::OpenExisting => BuildAction::Finished,
            BuildAction::CreateDirectory => if self.config.m > 0 {
                BuildAction::BuildMainGraph { config: self.config }
            } else {
                BuildAction::MakeEmptyGraph {
                    builder: GraphBuilderArgs {
                        num_vectors: self.total_vector_count,
                        hnsw_m: HnswM { m: 0, m0: 0 },
                        ef_construct: self.config.ef_construct,
                        entry_points_num: 1,
                        use_heuristic: true,
                    },
                }
            },
            BuildAction::BuildMainGraph { .. } => {
                self.config.indexed_vector_count = Some(indexed);
                BuildAction::PersistGraph
            },
            BuildAction::MakeEmptyGraph { .. } => {
                self.config.indexed_vector_count = Some(0);
                BuildAction::PersistGraph
            },
            BuildAction::PersistGraph => BuildAction::SaveHnswConfig {
                graph_config: self.config.to_hnsw_compat(),
            },
            BuildAction::SaveHnswConfig { .. } => BuildAction::SaveMirageConfig {
                config: self.config,
            },
            BuildAction::SaveMirageConfig { .. } => BuildAction::OpenRuntime {
                hnsw_config: self.mirage_config.to_hnsw_compat(),
            },
            BuildAction::OpenRuntime { .. } => BuildAction::Finished,
            BuildAction::Finished => BuildAction::Finished,
        };
        self.action = next;
        Ok(())
    }

    /// The index that was built.
    pub fn finish(self) -> (index: MirageIndex)
        ensures
            index.spec_config() == self@.config,
            index.spec_path() == self@.path,
    {
        MirageIndex { config: self.config, path: self.path }
    }

    /// What is reported of the build.
    pub fn report(&self) -> (report: BuildReport)
        ensures
            report@ == report_of(self@.config),
    {
        let indexed_vectors: usize = match self.config.indexed_vector_count {
            Some(count) => count,
            None => 0,
        };
        let parity: bool = crate::refinement_builder::cpp_parity_eligible(
            indexed_vectors,
            self.config.s,
        );
        let recall: bool = crate::refinement_builder::recall_acceptance_eligible(
            indexed_vectors,
            self.config.s,
        );
        BuildReport {
            indexed_vectors,
            s: self.config.s,
            cpp_parity_eligible: parity,
            recall_acceptance_eligible: recall,
            boundary_behavior: if parity {
                "mirage_cpp_random_graph".to_owned()
            } else {
                "qdrant_complete_graph".to_owned()
            },
            metric_scope: if recall {
                "recall_build".to_owned()
            } else {
                "correctness_only".to_owned()
            },
        }
    }
}

/// What is reported of a build.
#[derive(Debug, PartialEq, Eq)]
pub struct BuildReport {
    pub indexed_vectors: usize,
    pub s: usize,
    /// Whether the graph started as a random one.
    pub cpp_parity_eligible: bool,
    /// Whether the graph is large enough for its recall to count.
    pub recall_acceptance_eligible: bool,
    pub boundary_behavior: String,
    pub metric_scope: String,
}

/// What a report says.
pub struct ReportText {
    pub indexed_vectors: usize,
    pub s: usize,
    pub cpp_parity_eligible: bool,
    pub recall_acceptance_eligible: bool,
    pub boundary_behavior: Seq<char>,
    pub metric_scope: Seq<char>,
}

impl View for BuildReport {
    type V = ReportText;

    open spec fn view(&self) -> ReportText {
        ReportText {
            indexed_vectors: self.indexed_vectors,
            s: self.s,
            cpp_parity_eligible: self.cpp_parity_eligible,
            recall_acceptance_eligible: self.recall_acceptance_eligible,
            boundary_behavior: self.boundary_behavior@,
            metric_scope: self.metric_scope@,
        }
    }
}

/// What is reported of a build under `config`.
pub open spec fn report_of(config: MirageGraphConfig) -> ReportText {
    let indexed_vectors = match config.indexed_vector_count {
        Some(count) => count,
        None => 0,
    };
    let parity = indexed_vectors > config.s;
    let recall = config.s > 0 && parity && indexed_vectors >= 10 * config.s;
    ReportText {
        indexed_vectors,
        s: config.s,
        cpp_parity_eligible: parity,
        recall_acceptance_eligible: recall,
        boundary_behavior: if parity {
            "mirage_cpp_random_graph"@
        } else {
            "qdrant_complete_graph"@
        },
        metric_scope: if recall {
            "recall_build"@
        } else {
            "correctness_only"@
        },
    }
}

/// A build of which every action succeeds creates the directory, makes the graph
/// and writes it, then the config of the runtime, then that of the index, and
/// opens the runtime last. Both configs record how many vectors were indexed.
pub proof fn law_build_order(
    mirage_config: MirageConfig,
    storage: VectorStorageInfo,
    path: Seq<char>,
    indexed: usize,
)
    ensures
        ({
            let existing = ExistingFiles { mirage_config: false, hnsw_config: false, graph: false };
            let start = build_start(mirage_config, storage, path, existing);
            let created = build_step(start, indexed);
            let graph = build_step(created, indexed);
            let persisted = build_step(graph, indexed);
            let hnsw_saved = build_step(persisted, indexed);
            let saved = build_step(hnsw_saved, indexed);
            let opened = build_step(saved, indexed);
            let config = MirageGraphConfig {
                indexed_vector_count: Some(
                    if mirage_config.m > 0 {
                        indexed
                    } else {
                        0
                    },
                ),
                ..start.config
            };
            &&& start.action == BuildAction::CreateDirectory
            &&& created.action == if mirage_config.m > 0 {
                BuildAction::BuildMainGraph { config: start.config }
            } else {
                BuildAction::MakeEmptyGraph {
                    builder: empty_builder(storage.total_vector_count, start.config.ef_construct),
                }
            }
            &&& graph.action == BuildAction::PersistGraph
            &&& persisted.action == BuildAction::SaveHnswConfig { graph_config: config.hnsw_view() }
            &&& hnsw_saved.action == BuildAction::SaveMirageConfig { config }
            &&& saved.action == BuildAction::OpenRuntime { hnsw_config: mirage_config.hnsw_view() }
            &&& opened.action == BuildAction::Finished
            &&& opened.config == config
            &&& opened.path == path
        }),
{
}

/// Nothing is built over an index that is there, even in part.
pub proof fn law_existing_index_is_kept(
    mirage_config: MirageConfig,
    storage: VectorStorageInfo,
    path: Seq<char>,
    existing: ExistingFiles,
    indexed: usize,
)
    requires
        existing.mirage_config || existing.hnsw_config || existing.graph,
    ensures
        build_start(mirage_config, storage, path, existing).action == BuildAction::OpenExisting,
        build_step(
            build_start(mirage_config, storage, path, existing),
            indexed,
        ).action == BuildAction::Finished,
{
}

/// The config that a build writes for the HNSW runtime and the one that the runtime
/// is opened with agree on the links of a point and on how thoroughly the upper
/// layers are built, which is never less than the least.
pub proof fn law_runtime_configs_agree(user: MirageConfig, size: usize, count: usize)
    ensures
        graph_config_of(user, size, count).hnsw_view().m == user.hnsw_view().m,
        graph_config_of(user, size, count).hnsw_view().ef_construct
            == user.hnsw_view().ef_construct,
        graph_config_of(user, size, count).hnsw_view().max_indexing_threads
            == user.hnsw_view().max_indexing_threads,
        graph_config_of(user, size, count).hnsw_view().payload_m == user.hnsw_view().payload_m,
        user.hnsw_view().ef_construct >= MIN_EF_CONSTRUCT,
        user.m == 0 ==> graph_config_of(user, size, count).hnsw_view().m0 == 0,
{
}

/// Nanoseconds that the steps of a build took.
#[derive(Clone, Copy, Debug, PartialEq, Eq)]
pub struct MirageBuildTimings {
    pub refine_layer0: u128,
    pub build_upper_layers: u128,
    pub inject_layer0: u128,
    pub materialize_graph: u128,
    pub persist_graph: u128,
    pub persist_config: u128,
    pub open_runtime: u128,
    pub total: u128,
}

impl Default for MirageBuildTimings {
    fn default() -> (timings: Self)
        ensures
            timings == (MirageBuildTimings {
                refine_layer0: 0,
                build_upper_layers: 0,
                inject_layer0: 0,
                materialize_graph: 0,
                persist_graph: 0,
                persist_config: 0,
                open_runtime: 0,
                total: 0,
            }),
    {
        MirageBuildTimings {
            refine_layer0: 0,
            build_upper_layers: 0,
            inject_layer0: 0,
            materialize_graph: 0,
            persist_graph: 0,
            persist_config: 0,
            open_runtime: 0,
            total: 0,
        }
    }
}

impl MirageBuildTimings {
    /// The time that the algorithm took.
    pub fn algorithm_build(&self) -> (time: u128)
        requires
            self.refine_layer0 + self.build_upper_layers + self.inject_layer0 <= u128::MAX,
        ensures
            time == self.refine_layer0 + self.build_upper_layers + self.inject_layer0,
    {
        self.refine_layer0 + self.build_upper_layers + self.inject_layer0
    }

    /// The time until the graph was there.
    pub fn runtime_build(&self) -> (time: u128)
        requires
            self.refine_layer0 + self.build_upper_layers + self.inject_layer0
                + self.materialize_graph <= u128::MAX,
        ensures
            time == self.refine_layer0 + self.build_upper_layers + self.inject_layer0
                + self.materialize_graph,
    {
        self.algorithm_build() + self.materialize_graph
    }
}

} // verus!
