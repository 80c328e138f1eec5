//! What makes a segment be rebuilt, and what does not.

use vstd::prelude::*;
use crate::config_mismatch_optimizer::{
    DenseVectorOptimizerConfig, DenseVectors, Indexes, OptimizerSettings, RebuildRules,
    RemainingSegment, SegmentId, SegmentInfo, SizedSegment, SparseIndexType, SparseVectors,
    VectorDataConfig,
};
use crate::mirage::{HnswConfig, MirageConfig};

verus! {

/// Whether a size in bytes reaches a threshold in kilobytes.
pub open spec fn is_as_large(size: usize, threshold_kb: usize) -> bool {
    size >= threshold_kb * 1024 || size == usize::MAX
}

/// A size reaches a threshold if it has that many times 1024 bytes. A threshold that no
/// size has is reached by the greatest.
pub proof fn law_thresholds_are_in_kilobytes(size: usize, threshold_kb: usize)
    ensures
        crate::config_mismatch_optimizer::reaches(size, threshold_kb) <==> is_as_large(
            size,
            threshold_kb,
        ),
{
}

/// Two indexes of one kind are compared by the rule of the kind, and by nothing else.
pub proof fn law_same_kind_is_compared<HnswDiff, MirageDiff>(
    hnsw_mismatch: HnswDiff,
    mirage_mismatch: MirageDiff,
    current: Indexes,
    target: Indexes,
    rebuild: bool,
) where
    HnswDiff: Fn(HnswConfig, HnswConfig) -> bool,
    MirageDiff: Fn(MirageConfig, MirageConfig) -> bool,

    requires
        crate::config_mismatch_optimizer::index_verdict(
            hnsw_mismatch,
            mirage_mismatch,
            current,
            target,
            rebuild,
        ),
    ensures
        forall|one: HnswConfig, two: HnswConfig|
            current == Indexes::Hnsw(one) && target == Indexes::Hnsw(two)
                ==> #[trigger] call_ensures(hnsw_mismatch, (one, two), rebuild),
        forall|one: MirageConfig, two: MirageConfig|
            current == Indexes::Mirage(one) && target == Indexes::Mirage(two)
                ==> #[trigger] call_ensures(mirage_mismatch, (one, two), rebuild),
{
}

/// What is asked of vectors is what was set under their name, or by default an HNSW index
/// without quantization, anywhere. They start from the config without an index under
/// their name, or by default from their own, without index and quantization.
pub proof fn law_names_tell_what_is_asked<Quant, Details, Global>(
    settings: OptimizerSettings<Quant, Details, Global>,
    name: Seq<char>,
    current: VectorDataConfig<Quant, Details>,
)
    ensures
        ({
            let wanted = crate::config_mismatch_optimizer::wanted_for(settings, name);
            let asked = settings.segment_optimizer_config.dense_vector@;
            let required = crate::config_mismatch_optimizer::dense_on_disk(settings, name);
            &&& asked.contains_key(name) ==> wanted == asked[name] && required
                == asked[name].on_disk
            &&& !asked.contains_key(name) ==> {
                &&& wanted.hnsw_config == settings.global_hnsw_config
                &&& wanted.mirage_config is None
                &&& wanted.quantization_config is None
                &&& wanted.on_disk is None
                &&& required is None
            }
        }),
        ({
            let start = crate::config_mismatch_optimizer::plain_target(settings, name, current);
            let plain = settings.segment_optimizer_config.plain_dense_vector_config@;
            &&& plain.contains_key(name) ==> start == plain[name]
            &&& !plain.contains_key(name) ==> {
                &&& start.index is Plain
                &&& start.quantization_config is None
                &&& start.storage_on_disk == current.storage_on_disk
                &&& start.details == current.details
            }
        }),
        ({
            let asked = settings.segment_optimizer_config.sparse_vector@;
            let required = crate::config_mismatch_optimizer::sparse_on_disk(settings, name);
            &&& asked.contains_key(name) ==> required == asked[name].on_disk
            &&& !asked.contains_key(name) ==> required is None
        }),
{
}

/// The quantization that vectors are to have: where the segment is large enough for an
/// index the one that is asked for, and otherwise the one that they were placed with.
pub open spec fn wanted_quantization<Quant, Details>(
    placed: VectorDataConfig<Quant, Details>,
    wanted: DenseVectorOptimizerConfig<Quant>,
    indexed: bool,
) -> Option<Quant> {
    if indexed {
        wanted.quantization_config
    } else {
        placed.quantization_config
    }
}

/// Whether a quantization that is turned on or off, as `changed`, matters to vectors
/// without an index.
pub open spec fn may_matter_unindexed<Quant, Appendable: Fn(Quant) -> bool>(
    supports_appendable: Appendable,
    appendable_quantization: bool,
    changed: Quant,
    matters: bool,
) -> bool {
    if appendable_quantization {
        call_ensures(supports_appendable, (changed,), matters)
    } else {
        !matters
    }
}

/// Whether `rebuild` may be the answer on quantization. Two quantizations are compared;
/// without any there is nothing to do. One that is turned on or off is a reason for
/// indexed vectors, and for others if it applies to them.
pub open spec fn quantization_answer<
    Quant,
    QuantDiff: Fn(Quant, Quant) -> bool,
    Appendable: Fn(Quant) -> bool,
>(
    quantization_mismatch: QuantDiff,
    supports_appendable: Appendable,
    appendable_quantization: bool,
    has_index: bool,
    current: Option<Quant>,
    target: Option<Quant>,
    rebuild: bool,
) -> bool {
    match current {
        None => match target {
            None => !rebuild,
            Some(on) => if has_index {
                rebuild
            } else {
                may_matter_unindexed(supports_appendable, appendable_quantization, on, rebuild)
            },
        },
        Some(one) => match target {
            None => if has_index {
                rebuild
            } else {
                may_matter_unindexed(supports_appendable, appendable_quantization, one, rebuild)
            },
            Some(two) => call_ensures(quantization_mismatch, (one, two), rebuild),
        },
    }
}

/// Turning quantization on is answered as turning it off is, and an indexed segment is
/// rebuilt in both cases.
pub proof fn law_quantization_is_compared_or_switched<
    Quant,
    QuantDiff: Fn(Quant, Quant) -> bool,
    Appendable: Fn(Quant) -> bool,
>(
    quantization_mismatch: QuantDiff,
    supports_appendable: Appendable,
    appendable_quantization: bool,
    has_index: bool,
    current: Option<Quant>,
    target: Option<Quant>,
    rebuild: bool,
)
    requires
        crate::config_mismatch_optimizer::quantization_verdict(
            quantization_mismatch,
            supports_appendable,
            appendable_quantization,
            has_index,
            current,
            target,
            rebuild,
        ),
    ensures
        quantization_answer(
            quantization_mismatch,
            supports_appendable,
            appendable_quantization,
            has_index,
            current,
            target,
            rebuild,
        ),
        has_index && (current is Some) != (target is Some) ==> rebuild,
        current is None && target is None ==> !rebuild,
        !has_index && !appendable_quantization && (current is Some) != (target is Some)
            ==> !rebuild,
{
}

/// Indexed vectors whose quantization is turned on or off are always rebuilt, whatever
/// the rules say.
pub proof fn law_switched_quantization_is_rebuilt<
    Quant,
    Details,
    Global,
    Policy,
    Resolve,
    HnswDiff,
    MirageDiff,
    QuantDiff,
    Appendable,
>(
    rules: RebuildRules<Policy, Resolve, HnswDiff, MirageDiff, QuantDiff, Appendable>,
    settings: OptimizerSettings<Quant, Details, Global>,
    vectors: DenseVectors<Quant, Details>,
    indexed: bool,
    on_disk: bool,
    rebuild: bool,
) where
    Policy: Fn(
        VectorDataConfig<Quant, Details>,
        DenseVectorOptimizerConfig<Quant>,
        bool,
        bool,
    ) -> VectorDataConfig<Quant, Details>,
    Resolve: Fn(
        VectorDataConfig<Quant, Details>,
        DenseVectorOptimizerConfig<Quant>,
        bool,
        bool,
    ) -> Indexes,
    HnswDiff: Fn(HnswConfig, HnswConfig) -> bool,
    MirageDiff: Fn(MirageConfig, MirageConfig) -> bool,
    QuantDiff: Fn(Quant, Quant) -> bool,
    Appendable: Fn(Quant) -> bool,

    requires
        crate::config_mismatch_optimizer::dense_verdict(
            rules,
            settings,
            vectors,
            indexed,
            on_disk,
            rebuild,
        ),
        !(vectors.config.index is Plain),
        ({
            let wanted = crate::config_mismatch_optimizer::wanted_for(settings, vectors.name@);
            let start = crate::config_mismatch_optimizer::plain_target(
                settings,
                vectors.name@,
                vectors.config,
            );
            forall|placed: VectorDataConfig<Quant, Details>|
                #[trigger] call_ensures(
                    rules.apply_storage_policy,
                    (start, wanted, indexed, on_disk),
                    placed,
                ) ==> (wanted_quantization(placed, wanted, indexed) is Some) != (
                vectors.config.quantization_config is Some)
        }),
    ensures
        rebuild,
{
}

/// What tells of dense vectors whether they are rebuilt. Whatever the answer, the rules
/// have placed the vectors from where they start, for what is asked of them and the size
/// of the segment, and have picked an index for them. The vectors are rebuilt if that
/// index has to replace theirs or they are not where they are required to be, and
/// otherwise as their quantization says.
pub proof fn law_dense_vectors_are_held_to_what_is_asked<
    Quant,
    Details,
    Global,
    Policy,
    Resolve,
    HnswDiff,
    MirageDiff,
    QuantDiff,
    Appendable,
>(
    rules: RebuildRules<Policy, Resolve, HnswDiff, MirageDiff, QuantDiff, Appendable>,
    settings: OptimizerSettings<Quant, Details, Global>,
    vectors: DenseVectors<Quant, Details>,
    indexed: bool,
    on_disk: bool,
    rebuild: bool,
) -> (found: (VectorDataConfig<Quant, Details>, Indexes, bool)) where
    Policy: Fn(
        VectorDataConfig<Quant, Details>,
        DenseVectorOptimizerConfig<Quant>,
        bool,
        bool,
    ) -> VectorDataConfig<Quant, Details>,
    Resolve: Fn(
        VectorDataConfig<Quant, Details>,
        DenseVectorOptimizerConfig<Quant>,
        bool,
        bool,
    ) -> Indexes,
    HnswDiff: Fn(HnswConfig, HnswConfig) -> bool,
    MirageDiff: Fn(MirageConfig, MirageConfig) -> bool,
    QuantDiff: Fn(Quant, Quant) -> bool,
    Appendable: Fn(Quant) -> bool,

    requires
        crate::config_mismatch_optimizer::dense_verdict(
            rules,
            settings,
            vectors,
            indexed,
            on_disk,
            rebuild,
        ),
    ensures
        ({
            let (placed, index, index_differs) = found;
            let wanted = crate::config_mismatch_optimizer::wanted_for(settings, vectors.name@);
            let start = crate::config_mismatch_optimizer::plain_target(
                settings,
                vectors.name@,
                vectors.config,
            );
            let required = crate::config_mismatch_optimizer::dense_on_disk(settings, vectors.name@);
            let quantization = wanted_quantization(placed, wanted, indexed);
            &&& call_ensures(
                rules.apply_storage_policy,
                (start, wanted, indexed, on_disk),
                placed,
            )
            &&& call_ensures(
                rules.resolve_index,
                (
                    VectorDataConfig { quantization_config: quantization, ..placed },
                    wanted,
                    indexed,
                    rules.use_mirage,
                ),
                index,
            )
            &&& crate::config_mismatch_optimizer::index_verdict(
                rules.hnsw_mismatch,
                rules.mirage_mismatch,
                vectors.config.index,
                index,
                index_differs,
            )
            &&& index_differs ==> rebuild
            &&& required == Some(!vectors.config.storage_on_disk) ==> rebuild
            &&& rebuild && !index_differs && required != Some(
                !vectors.config.storage_on_disk,
            ) ==> quantization_answer(
                rules.quantization_mismatch,
                rules.supports_appendable,
                rules.appendable_quantization,
                !(vectors.config.index is Plain),
                vectors.config.quantization_config,
                quantization,
                true,
            )
            &&& !rebuild ==> quantization_answer(
                rules.quantization_mismatch,
                rules.supports_appendable,
                rules.appendable_quantization,
                !(vectors.config.index is Plain),
                vectors.config.quantization_config,
                quantization,
                false,
            )
        }),
{
    let wanted = crate::config_mismatch_optimizer::wanted_for(settings, vectors.name@);
    let start = crate::config_mismatch_optimizer::plain_target(
        settings,
        vectors.name@,
        vectors.config,
    );
    let required = crate::config_mismatch_optimizer::dense_on_disk(settings, vectors.name@);
    let found = choose|
        placed: VectorDataConfig<Quant, Details>,
        index: Indexes,
        index_differs: bool,
    |
        {
            let target = crate::config_mismatch_optimizer::quantized_as_wanted(
                placed,
                wanted,
                indexed,
            );
            &&& #[trigger] call_ensures(
                rules.apply_storage_policy,
                (start, wanted, indexed, on_disk),
                placed,
            )
            &&& call_ensures(
                rules.resolve_index,
                (target, wanted, indexed, rules.use_mirage),
                index,
            )
            &&& #[trigger] crate::config_mismatch_optimizer::index_verdict(
                rules.hnsw_mismatch,
                rules.mirage_mismatch,
                vectors.config.index,
                index,
                index_differs,
            )
            &&& if index_differs || (required is Some && required != Some(
                vectors.config.storage_on_disk,
            )) {
                rebuild
            } else {
                crate::config_mismatch_optimizer::quantization_verdict(
                    rules.quantization_mismatch,
                    rules.supports_appendable,
                    rules.appendable_quantization,
                    vectors.config.index.spec_is_indexed(),
                    vectors.config.quantization_config,
                    target.quantization_config,
                    rebuild,
                )
            }
        };
    let target = crate::config_mismatch_optimizer::quantized_as_wanted(found.0, wanted, indexed);
    let quantization = wanted_quantization(found.0, wanted, indexed);
    assert(target == VectorDataConfig { quantization_config: quantization, ..found.0 });
    let settled = !found.2 && required != Some(!vectors.config.storage_on_disk);
    if settled {
        if let Some(place) = required {
            assert(place == vectors.config.storage_on_disk);
        }
        law_quantization_is_compared_or_switched(
            rules.quantization_mismatch,
            rules.supports_appendable,
            rules.appendable_quantization,
            !(vectors.config.index is Plain),
            vectors.config.quantization_config,
            quantization,
            rebuild,
        );
    }
    found
}

/// The index of sparse vectors is rebuilt exactly if it cannot be moved: it is on disk
/// and required not to be, or it is an immutable one in memory and required to be on disk.
pub proof fn law_sparse_index_has_its_place(required: Option<bool>, index_type: SparseIndexType)
    ensures
        crate::config_mismatch_optimizer::sparse_mismatch(required, index_type) <==> {
            ||| required == Some(true) && index_type is ImmutableRam
            ||| required == Some(false) && index_type is Mmap
        },
{
}

/// Whether some sparse vectors are not where they are asked to be.
pub open spec fn sparse_is_misplaced<Quant, Details, Global>(
    settings: OptimizerSettings<Quant, Details, Global>,
    vectors: SparseVectors,
) -> bool {
    let asked = settings.segment_optimizer_config.sparse_vector@;
    &&& asked.contains_key(vectors.name@)
    &&& {
        ||| asked[vectors.name@].on_disk == Some(true) && vectors.index_type is ImmutableRam
        ||| asked[vectors.name@].on_disk == Some(false) && vectors.index_type is Mmap
    }
}

/// What makes a segment be rebuilt: payloads that are not where they are asked to be, a
/// size that is not known, or vectors, dense or sparse, that are not as they are asked to
/// be. A segment is kept only if there is none of these; dense vectors are held to what is
/// asked of a segment of its size.
pub proof fn law_segment_is_rebuilt_for_a_reason<
    Quant,
    Details,
    Global,
    Policy,
    Resolve,
    HnswDiff,
    MirageDiff,
    QuantDiff,
    Appendable,
>(
    rules: RebuildRules<Policy, Resolve, HnswDiff, MirageDiff, QuantDiff, Appendable>,
    settings: OptimizerSettings<Quant, Details, Global>,
    segment: SegmentInfo<Quant, Details>,
    rebuild: bool,
) where
    Policy: Fn(
        VectorDataConfig<Quant, Details>,
        DenseVectorOptimizerConfig<Quant>,
        bool,
        bool,
    ) -> VectorDataConfig<Quant, Details>,
    Resolve: Fn(
        VectorDataConfig<Quant, Details>,
        DenseVectorOptimizerConfig<Quant>,
        bool,
        bool,
    ) -> Indexes,
    HnswDiff: Fn(HnswConfig, HnswConfig) -> bool,
    MirageDiff: Fn(MirageConfig, MirageConfig) -> bool,
    QuantDiff: Fn(Quant, Quant) -> bool,
    Appendable: Fn(Quant) -> bool,

    requires
        crate::config_mismatch_optimizer::segment_verdict(rules, settings, segment, rebuild),
    ensures
        settings.segment_optimizer_config.payload_on_disk != segment.payload_on_disk ==> rebuild,
        segment.max_available_vectors_size_in_bytes is Err ==> rebuild,
        (exists|i: int|
            0 <= i < segment.sparse_vector_data@.len() && sparse_is_misplaced(
                settings,
                #[trigger] segment.sparse_vector_data@[i],
            )) ==> rebuild,
        segment.max_available_vectors_size_in_bytes matches Ok(size) ==> {
            let indexed = is_as_large(size, settings.thresholds_config.indexing_threshold_kb);
            let on_disk = is_as_large(size, settings.thresholds_config.memmap_threshold_kb);
            &&& !rebuild ==> forall|i: int|
                0 <= i < segment.vector_data@.len()
                    ==> crate::config_mismatch_optimizer::dense_verdict(
                    rules,
                    settings,
                    #[trigger] segment.vector_data@[i],
                    indexed,
                    on_disk,
                    false,
                )
            &&& rebuild && settings.segment_optimizer_config.payload_on_disk
                == segment.payload_on_disk ==> {
                ||| exists|i: int|
                    0 <= i < segment.sparse_vector_data@.len() && sparse_is_misplaced(
                        settings,
                        #[trigger] segment.sparse_vector_data@[i],
                    )
                ||| exists|i: int|
                    0 <= i < segment.vector_data@.len()
                        && crate::config_mismatch_optimizer::dense_verdict(
                        rules,
                        settings,
                        #[trigger] segment.vector_data@[i],
                        indexed,
                        on_disk,
                        true,
                    )
            }
        },
{
    let sparse = segment.sparse_vector_data@;
    assert forall|i: int| 0 <= i < sparse.len() implies (sparse_is_misplaced(
        settings,
        #[trigger] sparse[i],
    ) <==> crate::config_mismatch_optimizer::sparse_mismatch(
        crate::config_mismatch_optimizer::sparse_on_disk(settings, sparse[i].name@),
        sparse[i].index_type,
    )) by {}
    if let Ok(size) = segment.max_available_vectors_size_in_bytes {
        law_thresholds_are_in_kilobytes(size, settings.thresholds_config.indexing_threshold_kb);
        law_thresholds_are_in_kilobytes(size, settings.thresholds_config.memmap_threshold_kb);
        if rebuild && settings.segment_optimizer_config.payload_on_disk == segment.payload_on_disk
            && crate::config_mismatch_optimizer::some_sparse_mismatch(settings, sparse) {
            let i = choose|i: int|
                0 <= i < sparse.len() && crate::config_mismatch_optimizer::sparse_mismatch(
                    crate::config_mismatch_optimizer::sparse_on_disk(
                        settings,
                        (#[trigger] sparse[i]).name@,
                    ),
                    sparse[i].index_type,
                );
            assert(sparse_is_misplaced(settings, sparse[i]));
        }
    }
}

/// A segment that is large enough for an index is rebuilt if some of its indexed vectors
/// have a quantization that is no longer asked for, or are asked to have one and do not.
pub proof fn law_segment_follows_the_switch_of_quantization<
    Quant,
    Details,
    Global,
    Policy,
    Resolve,
    HnswDiff,
    MirageDiff,
    QuantDiff,
    Appendable,
>(
    rules: RebuildRules<Policy, Resolve, HnswDiff, MirageDiff, QuantDiff, Appendable>,
    settings: OptimizerSettings<Quant, Details, Global>,
    segment: SegmentInfo<Quant, Details>,
    rebuild: bool,
    i: int,
) where
    Policy: Fn(
        VectorDataConfig<Quant, Details>,
        DenseVectorOptimizerConfig<Quant>,
        bool,
        bool,
    ) -> VectorDataConfig<Quant, Details>,
    Resolve: Fn(
        VectorDataConfig<Quant, Details>,
        DenseVectorOptimizerConfig<Quant>,
        bool,
        bool,
    ) -> Indexes,
    HnswDiff: Fn(HnswConfig, HnswConfig) -> bool,
    MirageDiff: Fn(MirageConfig, MirageConfig) -> bool,
    QuantDiff: Fn(Quant, Quant) -> bool,
    Appendable: Fn(Quant) -> bool,

    requires
        crate::config_mismatch_optimizer::segment_verdict(rules, settings, segment, rebuild),
        segment.max_available_vectors_size_in_bytes matches Ok(size) && is_as_large(
            size,
            settings.thresholds_config.indexing_threshold_kb,
        ),
        0 <= i < segment.vector_data@.len(),
        !(segment.vector_data@[i].config.index is Plain),
        ({
            let asked = settings.segment_optimizer_config.dense_vector@;
            let name = segment.vector_data@[i].name@;
            let has = segment.vector_data@[i].config.quantization_config is Some;
            let wants = asked.contains_key(name) && asked[name].quantization_config is Some;
            has != wants
        }),
    ensures
        rebuild,
{
    let vectors = segment.vector_data@[i];
    law_segment_is_rebuilt_for_a_reason(rules, settings, segment, rebuild);
    law_names_tell_what_is_asked(settings, vectors.name@, vectors.config);
    if !rebuild {
        if let Ok(size) = segment.max_available_vectors_size_in_bytes {
            let on_disk = is_as_large(size, settings.thresholds_config.memmap_threshold_kb);
            law_switched_quantization_is_rebuilt(rules, settings, vectors, true, on_disk, false);
        }
    }
}

// ---------------------------------------------------------------------------
// Planning
// ---------------------------------------------------------------------------

/// The size that a segment is planned by: none where it is not known.
pub open spec fn planned_size<Quant, Details>(info: SegmentInfo<Quant, Details>) -> usize {
    match info.max_available_vectors_size_in_bytes {
        Ok(size) => size,
        Err(_) => 0,
    }
}

/// The segments with a verdict to be rebuilt, with their sizes, in order.
pub open spec fn to_rebuild<Quant, Details>(
    segments: Seq<RemainingSegment<Quant, Details>>,
    verdicts: Seq<bool>,
) -> Seq<SizedSegment> {
    crate::graph_plan_laws::places(segments.len()).filter(|k: int| verdicts[k]).map_values(
        |k: int| SizedSegment { id: segments[k].id, size: planned_size(segments[k].info) },
    )
}

/// The segments of one size, in order.
pub open spec fn ones_of_size(segments: Seq<SizedSegment>, size: usize) -> Seq<SizedSegment> {
    segments.filter(|segment: SizedSegment| segment.size == size)
}

proof fn lemma_marked<Quant, Details>(
    segments: Seq<RemainingSegment<Quant, Details>>,
    verdicts: Seq<bool>,
)
    requires
        segments.len() == verdicts.len(),
    ensures
        crate::config_mismatch_optimizer::marked(segments, verdicts) == to_rebuild(
            segments,
            verdicts,
        ),
    decreases segments.len(),
{
    reveal(Seq::filter);
    let is_marked = |k: int| verdicts[k];
    let sized = |k: int|
        SizedSegment { id: segments[k].id, size: planned_size(segments[k].info) };
    let all = crate::graph_plan_laws::places(segments.len());
    if segments.len() == 0 {
        assert(all.filter(is_marked).map_values(sized) =~= Seq::<SizedSegment>::empty());
    } else {
        let fewer = segments.drop_last();
        let lower = verdicts.drop_last();
        let earlier = crate::graph_plan_laws::places(fewer.len());
        lemma_marked(fewer, lower);
        assert(all.drop_last() =~= earlier);
        crate::graph_plan_laws::lemma_filter_alike(earlier, |k: int| lower[k], is_marked);
        let picked = earlier.filter(is_marked);
        assert forall|i: int| 0 <= i < picked.len() implies 0 <= #[trigger] picked[i]
            < fewer.len() by {
            assert(picked.contains(picked[i]));
            earlier.lemma_filter_contains_rev(is_marked, picked[i]);
        }
        assert(picked.map_values(
            |k: int| SizedSegment { id: fewer[k].id, size: planned_size(fewer[k].info) },
        ) =~= picked.map_values(sized));
        if verdicts.last() {
            assert(all.filter(is_marked) == picked.push(segments.len() - 1));
            assert(all.filter(is_marked).map_values(sized) =~= picked.map_values(sized).push(
                sized(segments.len() - 1),
            ));
        }
    }
}

/// A plan has exactly the segments with a verdict to be rebuilt, each by itself. Larger
/// ones come first, and those of one size in the order in which they were given.
pub proof fn law_plan_has_the_largest_first<Quant, Details>(
    segments: Seq<RemainingSegment<Quant, Details>>,
    verdicts: Seq<bool>,
    plan: Seq<Vec<SegmentId>>,
) -> (order: Seq<SizedSegment>)
    requires
        segments.len() == verdicts.len(),
        crate::config_mismatch_optimizer::plan_for(segments, verdicts, plan),
    ensures
        plan.len() == order.len(),
        forall|i: int| 0 <= i < plan.len() ==> (#[trigger] plan[i])@ == seq![order[i].id],
        forall|i: int, j: int| 0 <= i < j < order.len() ==> order[i].size >= order[j].size,
        forall|size: usize| #[trigger]
            ones_of_size(order, size) == ones_of_size(to_rebuild(segments, verdicts), size),
        order.to_multiset() == to_rebuild(segments, verdicts).to_multiset(),
{
    let order = choose|sorted: Seq<SizedSegment>|
        {
            &&& #[trigger] crate::config_mismatch_optimizer::sorts_by_size(
                crate::config_mismatch_optimizer::marked(segments, verdicts),
                sorted,
            )
            &&& crate::config_mismatch_optimizer::plans_each(sorted, plan)
        };
    lemma_marked(segments, verdicts);
    let all = to_rebuild(segments, verdicts);
    assert forall|size: usize| #[trigger] ones_of_size(order, size) == ones_of_size(
        all,
        size,
    ) by {
        assert(crate::config_mismatch_optimizer::of_size(order, size)
            == crate::config_mismatch_optimizer::of_size(all, size));
    }
    assert forall|x: SizedSegment| order.to_multiset().count(x) == all.to_multiset().count(x) by {
        lemma_count_of_size(order, x);
        lemma_count_of_size(all, x);
        assert(crate::config_mismatch_optimizer::of_size(order, x.size)
            == crate::config_mismatch_optimizer::of_size(all, x.size));
    }
    assert(order.to_multiset() =~= all.to_multiset());
    order
}

/// A segment occurs as often among those of its size as among all.
proof fn lemma_count_of_size(segments: Seq<SizedSegment>, x: SizedSegment)
    ensures
        segments.filter(|segment: SizedSegment| segment.size == x.size).to_multiset().count(x)
            == segments.to_multiset().count(x),
    decreases segments.len(),
{
    broadcast use vstd::seq_lib::group_to_multiset_ensures;

    reveal(Seq::filter);
    let same = |segment: SizedSegment| segment.size == x.size;
    if segments.len() == 0 {
        assert(segments.filter(same) =~= segments);
    } else {
        let shorter = segments.drop_last();
        let last = segments.last();
        lemma_count_of_size(shorter, x);
        assert(segments =~= shorter.push(last));
        if last.size == x.size {
            assert(segments.filter(same) =~= shorter.filter(same).push(last));
        } else {
            assert(segments.filter(same) =~= shorter.filter(same));
        }
    }
}

} // verus!
