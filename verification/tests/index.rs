use mirage_index::config::{HnswGraphConfig, MirageGraphConfig, MIRAGE_INDEX_CONFIG_FILE};
use mirage_index::mirage::{
    BuildAction, ExistingFiles, HnswM, MirageBuildTimings, MirageConfig, MirageIndex,
    MirageIndexOpenArgs, VectorStorageDatatype, VectorStorageInfo, VectorStorageKind,
};
use mirage_index::operation_error::{OperationError, OperationResult};

fn config() -> MirageConfig {
    MirageConfig {
        m: 16,
        ef_construct: 1024,
        full_scan_threshold: 10,
        max_indexing_threads: 0,
        on_disk: None,
        payload_m: None,
        s: 16,
        r: 4,
        iter: 15,
        num_reverse_edges: 96,
    }
}

fn storage() -> VectorStorageInfo {
    VectorStorageInfo {
        kind: VectorStorageKind::DenseVolatile,
        datatype: VectorStorageDatatype::Float32,
        on_disk: false,
        multi_vector: false,
        total_vector_count: 200,
        available_vector_count: 100,
        size_of_available_vectors_in_bytes: 6400,
    }
}

fn expect_validation_error(result: OperationResult<()>, expected: &str) {
    let err = result.unwrap_err();
    assert!(matches!(
        err,
        OperationError::ValidationError { description } if description == expected
    ));
}

#[test]
fn test_validate_p0_config_rejects_on_disk_index() {
    let config = MirageConfig {
        on_disk: Some(true),
        ..config()
    };

    expect_validation_error(
        MirageIndex::validate_p0_config(&config),
        "Mirage P0 does not support on-disk Mirage index",
    );
}

#[test]
fn test_validate_p0_config_rejects_payload_subgraph() {
    let config = MirageConfig {
        payload_m: Some(16),
        ..config()
    };

    expect_validation_error(
        MirageIndex::validate_p0_config(&config),
        "Mirage P0 does not support payload-aware subgraphs",
    );
}

#[test]
fn test_validate_p0_search_rejects_filter() {
    #[derive(Default)]
    struct Filter;

    let filter = Filter::default();

    MirageIndex::validate_p0_search::<Filter>(None).unwrap();
    expect_validation_error(
        MirageIndex::validate_p0_search(Some(&filter)),
        "Mirage P0 supports no-filter search only",
    );
}

#[test]
fn supported_runtime_is_accepted() {
    for kind in [
        VectorStorageKind::DenseSimple,
        VectorStorageKind::DenseVolatile,
        VectorStorageKind::DenseAppendableMemmap,
    ] {
        let storage = VectorStorageInfo { kind, ..storage() };
        assert_eq!(
            MirageIndex::validate_p0_runtime::<u8>(&config(), &storage, &None),
            Ok(())
        );
    }
    let explicit = MirageConfig { on_disk: Some(false), ..config() };
    assert_eq!(MirageIndex::validate_p0_config(&explicit), Ok(()));
}

#[test]
fn unsupported_runtime_is_refused_in_order() {
    // Everything is wrong at first, and then one thing after the other is mended.
    let mut config = MirageConfig { on_disk: Some(true), payload_m: Some(8), ..config() };
    let mut storage = VectorStorageInfo {
        kind: VectorStorageKind::Other,
        datatype: VectorStorageDatatype::Float16,
        on_disk: true,
        multi_vector: true,
        ..storage()
    };
    let mut quantized = Some(1_u8);
    let check = |config: &MirageConfig, storage: &VectorStorageInfo, quantized: &Option<u8>| {
        MirageIndex::validate_p0_runtime(config, storage, quantized)
    };
    expect_validation_error(
        check(&config, &storage, &quantized),
        "Mirage P0 does not support on-disk Mirage index",
    );
    config.on_disk = None;
    expect_validation_error(
        check(&config, &storage, &quantized),
        "Mirage P0 does not support payload-aware subgraphs",
    );
    config.payload_m = None;
    expect_validation_error(
        check(&config, &storage, &quantized),
        "Mirage P0 does not support quantization",
    );
    quantized = None;
    expect_validation_error(
        check(&config, &storage, &quantized),
        "Mirage P0 does not support multi-vector storage",
    );
    storage.multi_vector = false;
    expect_validation_error(
        check(&config, &storage, &quantized),
        "Mirage P0 does not support on-disk vector storage",
    );
    storage.on_disk = false;
    expect_validation_error(
        check(&config, &storage, &quantized),
        "Mirage P0 supports Float32 vector storage only",
    );
    storage.datatype = VectorStorageDatatype::Float32;
    expect_validation_error(
        check(&config, &storage, &quantized),
        "Mirage P0 supports dense Float32 vector storage only",
    );
}

#[test]
fn graph_config_doubles_links_at_layer_0() {
    let config = MirageGraphConfig::new(16, 1024, 7, 32, 4, 15, 96, 2, Some(5), 1000);
    assert_eq!(
        config,
        MirageGraphConfig {
            m: 16,
            m0: 32,
            ef_construct: 1024,
            ef: 1024,
            full_scan_threshold: 7,
            s: 32,
            r: 4,
            iter: 15,
            num_reverse_edges: 96,
            max_indexing_threads: 2,
            payload_m: Some(5),
            payload_m0: Some(10),
            indexed_vector_count: Some(1000),
        }
    );
    let largest = MirageGraphConfig::new(usize::MAX, 1, 1, 1, 1, 1, 1, 1, Some(usize::MAX), 1);
    assert_eq!(largest.m0, usize::MAX);
    assert_eq!(largest.payload_m0, Some(usize::MAX));
    assert_eq!(
        MirageGraphConfig::new(3, 1, 1, 1, 1, 1, 1, 1, None, 1).payload_m0,
        None
    );
}

#[test]
fn hnsw_view_of_a_graph_config() {
    let config = MirageGraphConfig::new(16, 1024, 7, 32, 4, 15, 96, 2, Some(5), 1000);
    assert_eq!(
        config.to_hnsw_compat(),
        HnswGraphConfig {
            m: 16,
            m0: 32,
            ef_construct: 1024,
            ef: 1024,
            full_scan_threshold: 7,
            max_indexing_threads: 2,
            payload_m: Some(5),
            payload_m0: Some(10),
            indexed_vector_count: Some(1000),
        }
    );
    let disabled = MirageGraphConfig { m: 0, ..config };
    assert_eq!(disabled.to_hnsw_compat().m, 0);
    assert_eq!(disabled.to_hnsw_compat().m0, 32);
    let without_links = MirageGraphConfig::new(0, 1024, 7, 32, 4, 15, 96, 2, None, 0);
    assert_eq!(without_links.to_hnsw_compat().m0, 0);
}

#[test]
fn the_layer_0_links_of_a_config_are_kept() {
    let config = MirageGraphConfig {
        m: 0,
        m0: 32,
        ..MirageGraphConfig::new(16, 100, 10, 16, 4, 15, 96, 0, None, 5)
    };
    assert_eq!(
        config.to_hnsw_compat(),
        HnswGraphConfig {
            m: 0,
            m0: 32,
            ef_construct: 100,
            ef: 100,
            full_scan_threshold: 10,
            max_indexing_threads: 0,
            payload_m: None,
            payload_m0: None,
            indexed_vector_count: Some(5),
        }
    );
}

#[test]
fn config_paths() {
    assert_eq!(MIRAGE_INDEX_CONFIG_FILE, "mirage_config.json");
    assert_eq!(
        MirageGraphConfig::get_config_path("/data/segment"),
        "/data/segment/mirage_config.json"
    );
    for dir in ["", "/", "a", "a/", "/data/vector index", "./x/y/", "é"] {
        assert_eq!(
            MirageGraphConfig::get_config_path(dir),
            std::path::Path::new(dir)
                .join(MIRAGE_INDEX_CONFIG_FILE)
                .to_str()
                .unwrap()
        );
    }
}

#[test]
fn hnsw_view_of_a_user_config() {
    let low = MirageConfig { ef_construct: 100, on_disk: Some(false), ..config() };
    let view = low.to_hnsw_compat();
    assert_eq!(view.m, 16);
    assert_eq!(view.ef_construct, 1024);
    assert_eq!(view.full_scan_threshold, 10);
    assert_eq!(view.on_disk, Some(false));
    assert_eq!(view.inline_storage, None);
    let high = MirageConfig { ef_construct: 2000, ..config() };
    assert_eq!(high.to_hnsw_compat().ef_construct, 2000);
}

#[test]
fn thresholds_are_converted_to_vectors() {
    // 10 KB over vectors of 64 bytes each.
    let derived = MirageIndex::derive_graph_config(&storage(), &config());
    assert_eq!(derived.full_scan_threshold, 160);
    assert_eq!(derived.indexed_vector_count, Some(100));
    let empty = VectorStorageInfo {
        available_vector_count: 0,
        size_of_available_vectors_in_bytes: 0,
        ..storage()
    };
    let derived = MirageIndex::derive_graph_config(&empty, &config());
    assert_eq!(derived.full_scan_threshold, 10 * 1024);
    assert_eq!(derived.indexed_vector_count, Some(0));
    let huge = MirageConfig { full_scan_threshold: usize::MAX, ..config() };
    let derived = MirageIndex::derive_graph_config(&storage(), &huge);
    assert_eq!(derived.full_scan_threshold, usize::MAX / 64);
}

fn args(mirage_config: MirageConfig) -> MirageIndexOpenArgs<'static, ()> {
    MirageIndexOpenArgs {
        path: "/data/segment",
        vector_storage: storage(),
        quantized_vectors: None,
        mirage_config,
    }
}

#[test]
fn open_prefers_the_persisted_config() {
    let persisted = MirageGraphConfig::new(3, 4, 5, 6, 7, 8, 9, 10, None, 11);
    let plan = MirageIndex::open(args(config()), Some(Ok(persisted))).ok().unwrap();
    assert_eq!(*plan.index.config(), persisted);
    assert_eq!(plan.index.indexed_vector_count(500), 11);
    assert_eq!(plan.hnsw_config, config().to_hnsw_compat());

    let plan = MirageIndex::open(args(config()), None).ok().unwrap();
    assert_eq!(
        *plan.index.config(),
        MirageIndex::derive_graph_config(&storage(), &config())
    );

    let unknown = MirageGraphConfig { indexed_vector_count: None, ..persisted };
    let plan = MirageIndex::open(args(config()), Some(Ok(unknown))).ok().unwrap();
    assert_eq!(plan.index.indexed_vector_count(500), 500);
}

#[test]
fn open_fails_as_reading_the_config_did() {
    let failure = OperationError::service_error("broken file");
    let error = MirageIndex::open(args(config()), Some(Err(failure))).err().unwrap();
    assert_eq!(error, OperationError::service_error("broken file"));
    let refused = MirageConfig { on_disk: Some(true), ..config() };
    let error = MirageIndex::open(args(refused), None).err().unwrap();
    assert_eq!(
        error,
        OperationError::validation_error("Mirage P0 does not support on-disk Mirage index")
    );
}

#[test]
fn files_end_with_the_config_where_it_is_there() {
    let plan = MirageIndex::open(args(config()), None).ok().unwrap();
    let inner = || vec!["graph.bin".to_string(), "links.bin".to_string()];
    assert_eq!(plan.index.files(inner(), false), inner());
    assert_eq!(
        plan.index.files(inner(), true),
        ["graph.bin", "links.bin", "/data/segment/mirage_config.json"]
    );
    assert_eq!(
        plan.index.immutable_files(inner(), true),
        plan.index.files(inner(), true)
    );
    assert_eq!(plan.index.config_path(), "/data/segment/mirage_config.json");
    assert_eq!(MirageIndex::telemetry_name(), "mirage");
}

const NOTHING: ExistingFiles = ExistingFiles { mirage_config: false, hnsw_config: false, graph: false };

#[test]
fn a_build_runs_in_order() {
    let mut build = MirageIndex::build(&args(config()), NOTHING).ok().unwrap();
    let start = MirageGraphConfig::new(16, 1024, 10 * 1024 / 32, 16, 4, 15, 96, 0, None, 200);
    let finished = MirageGraphConfig { indexed_vector_count: Some(123), ..start };
    assert_eq!(build.action(), BuildAction::CreateDirectory);
    build.proceed(Ok(0)).unwrap();
    assert_eq!(build.action(), BuildAction::BuildMainGraph { config: start });
    build.proceed(Ok(123)).unwrap();
    assert_eq!(build.action(), BuildAction::PersistGraph);
    build.proceed(Ok(0)).unwrap();
    assert_eq!(
        build.action(),
        BuildAction::SaveHnswConfig { graph_config: finished.to_hnsw_compat() }
    );
    build.proceed(Ok(0)).unwrap();
    assert_eq!(build.action(), BuildAction::SaveMirageConfig { config: finished });
    build.proceed(Ok(0)).unwrap();
    assert_eq!(
        build.action(),
        BuildAction::OpenRuntime { hnsw_config: config().to_hnsw_compat() }
    );
    build.proceed(Ok(0)).unwrap();
    assert_eq!(build.action(), BuildAction::Finished);
    let index = build.finish();
    assert_eq!(*index.config(), finished);
    assert_eq!(index.indexed_vector_count(7), 123);
}

#[test]
fn a_build_without_links_makes_an_empty_graph() {
    let disabled = MirageConfig { m: 0, ..config() };
    let mut build = MirageIndex::build(&args(disabled), NOTHING).ok().unwrap();
    build.proceed(Ok(0)).unwrap();
    match build.action() {
        BuildAction::MakeEmptyGraph { builder } => {
            assert_eq!(builder.num_vectors, 200);
            assert_eq!(builder.hnsw_m, HnswM { m: 0, m0: 0 });
            assert_eq!(builder.ef_construct, 1024);
            assert_eq!(builder.entry_points_num, 1);
            assert!(builder.use_heuristic);
        }
        other => panic!("expected an empty graph, got {other:?}"),
    }
    build.proceed(Ok(99)).unwrap();
    assert_eq!(build.finish().config().indexed_vector_count, Some(0));
}

#[test]
fn a_failed_action_remains_the_next() {
    let mut build = MirageIndex::build(&args(config()), NOTHING).ok().unwrap();
    let failure = OperationError::service_error("disk full");
    assert_eq!(build.proceed(Err(failure)), Err(OperationError::service_error("disk full")));
    assert_eq!(build.action(), BuildAction::CreateDirectory);
}

#[test]
fn an_existing_index_is_opened() {
    for existing in [
        ExistingFiles { mirage_config: true, ..NOTHING },
        ExistingFiles { hnsw_config: true, ..NOTHING },
        ExistingFiles { graph: true, ..NOTHING },
    ] {
        let mut build = MirageIndex::build(&args(config()), existing).ok().unwrap();
        assert_eq!(build.action(), BuildAction::OpenExisting);
        build.proceed(Ok(0)).unwrap();
        assert_eq!(build.action(), BuildAction::Finished);
    }
    let refused = MirageConfig { payload_m: Some(1), ..config() };
    assert!(MirageIndex::build(&args(refused), NOTHING).is_err());
}

fn report_after(indexed: usize) -> (bool, bool, String, String) {
    let mut build = MirageIndex::build(&args(config()), NOTHING).ok().unwrap();
    build.proceed(Ok(0)).unwrap();
    build.proceed(Ok(indexed)).unwrap();
    let report = build.report();
    assert_eq!(report.indexed_vectors, indexed);
    assert_eq!(report.s, 16);
    (
        report.cpp_parity_eligible,
        report.recall_acceptance_eligible,
        report.boundary_behavior,
        report.metric_scope,
    )
}

#[test]
fn reports_tell_small_graphs_apart() {
    let complete = "qdrant_complete_graph".to_string();
    let random = "mirage_cpp_random_graph".to_string();
    let correctness = "correctness_only".to_string();
    let recall = "recall_build".to_string();
    assert_eq!(report_after(16), (false, false, complete, correctness.clone()));
    assert_eq!(report_after(17), (true, false, random.clone(), correctness));
    assert_eq!(report_after(160), (true, true, random, recall));
}

#[test]
fn timings_add_up() {
    let timings = MirageBuildTimings {
        refine_layer0: 1,
        build_upper_layers: 20,
        inject_layer0: 300,
        materialize_graph: 4000,
        ..MirageBuildTimings::default()
    };
    assert_eq!(timings.algorithm_build(), 321);
    assert_eq!(timings.runtime_build(), 4321);
    assert_eq!(MirageBuildTimings::default().runtime_build(), 0);
}
