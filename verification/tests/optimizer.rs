use mirage_index::config_mismatch_optimizer::{
    dense_index_kind, dense_index_mismatch_requires_rebuild, ConfigMismatchOptimizer,
    DenseVectorOptimizerConfig, DenseVectors, Indexes, OptimizerThresholds, RebuildRules,
    RemainingSegment, SegmentInfo, SegmentOptimizerConfig, SparseIndexType, SparseVectorOptimizerConfig,
    SparseVectors, VectorDataConfig,
};
use mirage_index::mirage::{HnswConfig, MirageConfig};
use mirage_index::named_map::NamedMap;
use mirage_index::operation_error::{OperationError, OperationResult};

#[derive(Clone, Copy, Debug, PartialEq)]
struct Quant {
    bits: u8,
    appendable: bool,
}

type Data = VectorDataConfig<Quant, u64>;
type Wanted = DenseVectorOptimizerConfig<Quant>;
type Optimizer = ConfigMismatchOptimizer<Quant, u64, &'static str>;

fn hnsw(m: usize) -> HnswConfig {
    HnswConfig {
        m,
        ef_construct: 100,
        full_scan_threshold: 10,
        max_indexing_threads: 0,
        on_disk: None,
        payload_m: None,
        inline_storage: None,
    }
}

fn mirage(s: usize) -> MirageConfig {
    MirageConfig {
        m: 16,
        ef_construct: 1024,
        full_scan_threshold: 10,
        max_indexing_threads: 0,
        on_disk: None,
        payload_m: None,
        s,
        r: 4,
        iter: 15,
        num_reverse_edges: 96,
    }
}

fn apply_policy(data: Data, wanted: Wanted, _indexed: bool, on_disk: bool) -> Data {
    VectorDataConfig {
        storage_on_disk: wanted.on_disk.unwrap_or(on_disk),
        ..data
    }
}

fn resolve(_data: Data, wanted: Wanted, indexed: bool, use_mirage: bool) -> Indexes {
    if !indexed {
        return Indexes::Plain {};
    }
    match wanted.mirage_config {
        Some(config) => Indexes::Mirage(config),
        None if use_mirage => Indexes::Mirage(mirage(16)),
        None => Indexes::Hnsw(wanted.hnsw_config),
    }
}

type Rules = RebuildRules<
    fn(Data, Wanted, bool, bool) -> Data,
    fn(Data, Wanted, bool, bool) -> Indexes,
    fn(HnswConfig, HnswConfig) -> bool,
    fn(MirageConfig, MirageConfig) -> bool,
    fn(Quant, Quant) -> bool,
    fn(Quant) -> bool,
>;

fn rules() -> Rules {
    RebuildRules {
        apply_storage_policy: apply_policy,
        resolve_index: resolve,
        hnsw_mismatch: |one, two| one != two,
        mirage_mismatch: |one, two| one != two,
        quantization_mismatch: |one, two| one != two,
        supports_appendable: |quant| quant.appendable,
        use_mirage: false,
        appendable_quantization: false,
    }
}

fn wanted() -> Wanted {
    DenseVectorOptimizerConfig {
        on_disk: None,
        hnsw_config: hnsw(16),
        mirage_config: None,
        quantization_config: None,
    }
}

/// Indexes from 1 KB on, and puts vectors on disk from 2 KB on.
fn optimizer(dense: &[(&str, Wanted)], sparse: &[(&str, Option<bool>)]) -> Optimizer {
    let mut dense_vector = NamedMap::new();
    for (name, wanted) in dense {
        dense_vector.insert(name, *wanted);
    }
    let mut sparse_vector = NamedMap::new();
    for (name, on_disk) in sparse {
        sparse_vector.insert(name, SparseVectorOptimizerConfig { on_disk: *on_disk });
    }
    ConfigMismatchOptimizer::new(
        OptimizerThresholds { indexing_threshold_kb: 1, memmap_threshold_kb: 2 },
        "segments".to_string(),
        "temp".to_string(),
        SegmentOptimizerConfig {
            payload_on_disk: false,
            plain_dense_vector_config: NamedMap::new(),
            dense_vector,
            sparse_vector,
        },
        hnsw(8),
        "global",
    )
}

fn data(index: Indexes) -> Data {
    VectorDataConfig { index, quantization_config: None, storage_on_disk: false, details: 7 }
}

fn segment(name: &str, config: Data, size: OperationResult<usize>) -> SegmentInfo<Quant, u64> {
    SegmentInfo {
        payload_on_disk: false,
        vector_data: vec![DenseVectors { name: name.to_string(), config }],
        sparse_vector_data: Vec::new(),
        max_available_vectors_size_in_bytes: size,
    }
}

#[test]
fn kinds_have_names() {
    assert_eq!(dense_index_kind(&Indexes::Plain {}), "plain");
    assert_eq!(dense_index_kind(&Indexes::Hnsw(hnsw(1))), "hnsw");
    assert_eq!(dense_index_kind(&Indexes::Mirage(mirage(1))), "mirage");
    assert!(!Indexes::Plain {}.is_indexed());
    assert!(Indexes::Hnsw(hnsw(1)).is_indexed());
    assert!(Indexes::Mirage(mirage(1)).is_indexed());
}

#[test]
fn other_kinds_require_a_rebuild() {
    let rules = rules();
    let check = |current: Indexes, target: Indexes| {
        dense_index_mismatch_requires_rebuild(
            &current,
            &target,
            &rules.hnsw_mismatch,
            &rules.mirage_mismatch,
        )
    };
    let plain = Indexes::Plain {};
    assert!(!check(plain, plain));
    assert!(check(plain, Indexes::Hnsw(hnsw(1))));
    assert!(check(Indexes::Hnsw(hnsw(1)), plain));
    assert!(check(Indexes::Hnsw(hnsw(1)), Indexes::Mirage(mirage(1))));
    assert!(check(Indexes::Mirage(mirage(1)), Indexes::Hnsw(hnsw(1))));
    assert!(!check(Indexes::Hnsw(hnsw(1)), Indexes::Hnsw(hnsw(1))));
    assert!(check(Indexes::Hnsw(hnsw(1)), Indexes::Hnsw(hnsw(2))));
    assert!(!check(Indexes::Mirage(mirage(1)), Indexes::Mirage(mirage(1))));
    assert!(check(Indexes::Mirage(mirage(1)), Indexes::Mirage(mirage(2))));
}

#[test]
fn payloads_have_to_be_where_they_are_asked_to_be() {
    let optimizer = optimizer(&[], &[]);
    let mut info = segment("", data(Indexes::Plain {}), Ok(0));
    assert!(!optimizer.has_config_mismatch(&info, &rules()));
    info.payload_on_disk = true;
    assert!(optimizer.has_config_mismatch(&info, &rules()));
}

#[test]
fn an_unknown_size_requires_a_rebuild() {
    let optimizer = optimizer(&[], &[]);
    let failure = Err(OperationError::service_error("no size"));
    let info = segment("", data(Indexes::Plain {}), failure);
    assert!(optimizer.has_config_mismatch(&info, &rules()));
}

#[test]
fn the_indexing_threshold_decides() {
    let optimizer = optimizer(&[("a", wanted())], &[]);
    let check = |index: Indexes, size: usize| {
        optimizer.has_config_mismatch(&segment("a", data(index), Ok(size)), &rules())
    };
    assert!(!check(Indexes::Plain {}, 1023));
    assert!(check(Indexes::Plain {}, 1024));
    assert!(check(Indexes::Hnsw(hnsw(16)), 1023));
    assert!(!check(Indexes::Hnsw(hnsw(16)), 1024));
    assert!(check(Indexes::Hnsw(hnsw(17)), 1024));
}

#[test]
fn an_explicit_mirage_index_does_not_depend_on_the_flag() {
    let explicit = DenseVectorOptimizerConfig { mirage_config: Some(mirage(32)), ..wanted() };
    let optimizer = optimizer(&[("a", explicit), ("b", wanted())], &[]);
    let check = |name: &str, index: Indexes, use_mirage: bool| {
        let rules = Rules { use_mirage, ..rules() };
        optimizer.has_config_mismatch(&segment(name, data(index), Ok(1024)), &rules)
    };
    assert!(!check("a", Indexes::Mirage(mirage(32)), false));
    assert!(check("a", Indexes::Hnsw(hnsw(16)), false));
    assert!(!check("b", Indexes::Mirage(mirage(16)), true));
    assert!(check("b", Indexes::Mirage(mirage(16)), false));
}

#[test]
fn vectors_without_a_config_get_the_global_index() {
    let optimizer = optimizer(&[("a", wanted())], &[]);
    let check = |index: Indexes| {
        optimizer.has_config_mismatch(&segment("other", data(index), Ok(1024)), &rules())
    };
    assert!(!check(Indexes::Hnsw(hnsw(8))));
    assert!(check(Indexes::Hnsw(hnsw(16))));
}

#[test]
fn vectors_have_to_be_where_they_are_asked_to_be() {
    for required in [true, false] {
        let wanted = DenseVectorOptimizerConfig { on_disk: Some(required), ..wanted() };
        let optimizer = optimizer(&[("a", wanted)], &[]);
        assert_eq!(optimizer.check_if_vectors_on_disk("a"), Some(required));
        assert_eq!(optimizer.check_if_vectors_on_disk("b"), None);
        for storage_on_disk in [true, false] {
            let config = VectorDataConfig { storage_on_disk, ..data(Indexes::Plain {}) };
            assert_eq!(
                optimizer.has_config_mismatch(&segment("a", config, Ok(0)), &rules()),
                required != storage_on_disk
            );
        }
    }
}

#[test]
fn quantizations_are_compared() {
    let four = Quant { bits: 4, appendable: false };
    let eight = Quant { bits: 8, appendable: false };
    let wanted = DenseVectorOptimizerConfig { quantization_config: Some(four), ..wanted() };
    let optimizer = optimizer(&[("a", wanted)], &[]);
    let check = |quantization_config: Option<Quant>| {
        let config = VectorDataConfig { quantization_config, ..data(Indexes::Hnsw(hnsw(16))) };
        optimizer.has_config_mismatch(&segment("a", config, Ok(1024)), &rules())
    };
    assert!(!check(Some(four)));
    assert!(check(Some(eight)));
    // Turning quantization on matters to an indexed segment.
    assert!(check(None));
}

#[test]
fn appendable_quantization_matters_without_an_index() {
    let check = |appendable: bool, appendable_quantization: bool| {
        let optimizer = optimizer(&[("a", wanted())], &[]);
        let quant = Quant { bits: 1, appendable };
        let config = VectorDataConfig {
            quantization_config: Some(quant),
            ..data(Indexes::Plain {})
        };
        let rules = Rules { appendable_quantization, ..rules() };
        optimizer.has_config_mismatch(&segment("a", config, Ok(0)), &rules)
    };
    assert!(check(true, true));
    assert!(!check(true, false));
    assert!(!check(false, true));
}

#[test]
fn a_plain_config_is_the_start_where_there_is_one() {
    let mut plain = NamedMap::new();
    let quant = Quant { bits: 2, appendable: true };
    plain.insert(
        "a",
        VectorDataConfig { quantization_config: Some(quant), ..data(Indexes::Plain {}) },
    );
    let optimizer: Optimizer = ConfigMismatchOptimizer::new(
        OptimizerThresholds { indexing_threshold_kb: 1, memmap_threshold_kb: 2 },
        String::new(),
        String::new(),
        SegmentOptimizerConfig {
            payload_on_disk: false,
            plain_dense_vector_config: plain,
            dense_vector: NamedMap::new(),
            sparse_vector: NamedMap::new(),
        },
        hnsw(8),
        "global",
    );
    let rules = Rules { appendable_quantization: true, ..rules() };
    let bare = segment("a", data(Indexes::Plain {}), Ok(0));
    assert!(optimizer.has_config_mismatch(&bare, &rules));
    let settled = VectorDataConfig { quantization_config: Some(quant), ..data(Indexes::Plain {}) };
    assert!(!optimizer.has_config_mismatch(&segment("a", settled, Ok(0)), &rules));
}

#[test]
fn sparse_indexes_have_to_be_where_they_are_asked_to_be() {
    let optimizer = optimizer(&[], &[("ram", Some(false)), ("disk", Some(true)), ("any", None)]);
    assert_eq!(optimizer.check_if_sparse_vectors_index_on_disk("disk"), Some(true));
    assert_eq!(optimizer.check_if_sparse_vectors_index_on_disk("any"), None);
    assert_eq!(optimizer.check_if_sparse_vectors_index_on_disk("other"), None);
    let check = |name: &str, index_type: SparseIndexType| {
        let info = SegmentInfo {
            payload_on_disk: false,
            vector_data: Vec::new(),
            sparse_vector_data: vec![SparseVectors { name: name.to_string(), index_type }],
            max_available_vectors_size_in_bytes: Ok(0),
        };
        optimizer.has_config_mismatch(&info, &rules())
    };
    assert!(!check("ram", SparseIndexType::MutableRam));
    assert!(!check("ram", SparseIndexType::ImmutableRam));
    assert!(check("ram", SparseIndexType::Mmap));
    assert!(!check("disk", SparseIndexType::MutableRam));
    assert!(check("disk", SparseIndexType::ImmutableRam));
    assert!(!check("disk", SparseIndexType::Mmap));
    assert!(!check("any", SparseIndexType::Mmap));
    assert!(!check("other", SparseIndexType::ImmutableRam));
}

#[test]
fn largest_segments_come_first_and_alone() {
    let optimizer = optimizer(&[("a", wanted())], &[]);
    let bad = |id: usize, size: OperationResult<usize>| RemainingSegment {
        id,
        info: segment("a", data(Indexes::Hnsw(hnsw(99))), size),
    };
    let remaining = vec![
        bad(1, Ok(1500)),
        bad(2, Err(OperationError::Cancelled)),
        RemainingSegment {
            id: 3,
            info: segment("a", data(Indexes::Hnsw(hnsw(16))), Ok(5000)),
        },
        bad(4, Ok(3000)),
        bad(5, Ok(1500)),
        bad(6, Ok(0)),
    ];
    assert_eq!(
        optimizer.plan_optimizations(&remaining, &rules()),
        [[4], [1], [5], [2], [6]]
    );
    assert!(optimizer.plan_optimizations(&Vec::new(), &rules()).is_empty());
}

#[test]
fn settings_are_kept() {
    let optimizer = optimizer(&[], &[]);
    assert_eq!(optimizer.name(), "config mismatch");
    assert_eq!(optimizer.segments_path(), "segments");
    assert_eq!(optimizer.temp_path(), "temp");
    assert_eq!(*optimizer.hnsw_global_config(), "global");
    assert_eq!(optimizer.threshold_config().memmap_threshold_kb, 2);
    assert!(!optimizer.segment_optimizer_config().payload_on_disk);
}

#[test]
fn a_named_map_keeps_one_value_per_name() {
    let mut map = NamedMap::new();
    assert_eq!(map.get("a"), None);
    map.insert("a", 1);
    map.insert("b", 2);
    map.insert("a", 3);
    assert_eq!(map.get("a"), Some(&3));
    assert_eq!(map.get("b"), Some(&2));
    assert_eq!(map.get("c"), None);
}
