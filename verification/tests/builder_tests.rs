use merge_pipeline::builder::DistributionMode;
use merge_pipeline::builder::MergePlan;
use merge_pipeline::builder::MergeVariant;
use merge_pipeline::builder::PipelineBuilder;
use merge_pipeline::pipeline::BuildError;
use merge_pipeline::pipeline::Pipe;
use merge_pipeline::pipeline::Pipeline;
use merge_pipeline::pipeline::PortTag;
use merge_pipeline::pipeline::StageKind;

fn build(variant: MergeVariant, mode: DistributionMode, lanes: usize, differs: bool) -> PipelineBuilder {
    let pipeline = Pipeline::create(vec![PortTag::Data; lanes]);
    let mut b = PipelineBuilder::create(pipeline);
    b.build_merge_into_source(variant).unwrap();
    let plan = MergePlan { variant, mode, row_id_idx: 0, computed_schema_differs: differs };
    b.build_merge_into(&plan).unwrap();
    b
}

fn stage_kinds(b: &PipelineBuilder) -> Vec<StageKind> {
    let mut kinds = Vec::new();
    for p in &b.main_pipeline.pipes {
        if let Pipe::Stages(items) = p {
            for k in items {
                kinds.push(*k);
            }
        }
    }
    kinds
}

#[test]
fn local_full_operation_ends_in_one_log_port() {
    let b = build(MergeVariant::FullOperation, DistributionMode::Local, 2, true);
    assert_eq!(b.main_pipeline.layout, vec![PortTag::Log]);
}

#[test]
fn local_insert_only_ends_in_one_log_port() {
    let b = build(MergeVariant::InsertOnly, DistributionMode::Local, 3, false);
    assert_eq!(b.main_pipeline.layout, vec![PortTag::Log]);
}

#[test]
fn local_matched_only_ends_in_one_log_port() {
    let b = build(MergeVariant::MatchedOnly, DistributionMode::Local, 2, true);
    assert_eq!(b.main_pipeline.layout, vec![PortTag::Log]);
}

#[test]
fn distributed_full_operation_ends_in_log_and_row_number_ports() {
    let b = build(MergeVariant::FullOperation, DistributionMode::Distributed, 4, true);
    assert_eq!(b.main_pipeline.layout, vec![PortTag::Log, PortTag::RowNumber]);
}

#[test]
fn distributed_matched_only_ends_in_one_log_port() {
    let b = build(MergeVariant::MatchedOnly, DistributionMode::Distributed, 2, false);
    assert_eq!(b.main_pipeline.layout, vec![PortTag::Log]);
}

#[test]
fn distributed_insert_only_ends_in_one_row_number_port() {
    let b = build(MergeVariant::InsertOnly, DistributionMode::Distributed, 4, true);
    assert_eq!(b.main_pipeline.layout, vec![PortTag::RowNumber]);
}

#[test]
fn matched_only_builds_no_unmatched_path_stage() {
    // scenario: local matched-only — the insert path is never instantiated,
    // judged by the built pipe structure
    let b = build(MergeVariant::MatchedOnly, DistributionMode::Local, 3, true);
    for k in stage_kinds(&b) {
        assert!(!matches!(
            k,
            StageKind::NotMatchedCompute
                | StageKind::ProjectRowNumber
                | StageKind::RowNumberAndLogSplit
                | StageKind::DeduplicateRowNumber
                | StageKind::ExtractHashTable
                | StageKind::AccumulateRowNumber
        ));
    }
}

#[test]
fn computed_fill_is_skipped_when_schemas_agree() {
    let b = build(MergeVariant::FullOperation, DistributionMode::Local, 2, false);
    assert!(!stage_kinds(&b).contains(&StageKind::FillComputed));
    let b2 = build(MergeVariant::FullOperation, DistributionMode::Local, 2, true);
    assert!(stage_kinds(&b2).contains(&StageKind::FillComputed));
}

#[test]
fn empty_upstream_is_a_port_count_error() {
    let pipeline = Pipeline::create(Vec::new());
    let mut b = PipelineBuilder::create(pipeline);
    let plan = MergePlan {
        variant: MergeVariant::MatchedOnly,
        mode: DistributionMode::Local,
        row_id_idx: 0,
        computed_schema_differs: false,
    };
    assert_eq!(b.build_merge_into(&plan), Err(BuildError::PortCountMismatch));
}

#[test]
fn non_data_upstream_is_a_port_tag_error() {
    let pipeline = Pipeline::create(vec![PortTag::Data, PortTag::Log]);
    let mut b = PipelineBuilder::create(pipeline);
    let plan = MergePlan {
        variant: MergeVariant::InsertOnly,
        mode: DistributionMode::Local,
        row_id_idx: 0,
        computed_schema_differs: false,
    };
    assert_eq!(b.build_merge_into(&plan), Err(BuildError::PortTagMismatch));
}

#[test]
fn odd_lanes_under_full_operation_is_a_port_count_error() {
    let pipeline = Pipeline::create(vec![PortTag::Data; 3]);
    let mut b = PipelineBuilder::create(pipeline);
    let plan = MergePlan {
        variant: MergeVariant::FullOperation,
        mode: DistributionMode::Local,
        row_id_idx: 0,
        computed_schema_differs: false,
    };
    assert_eq!(b.build_merge_into(&plan), Err(BuildError::PortCountMismatch));
}

#[test]
fn add_row_number_resolves_the_local_node() {
    let pipeline = Pipeline::create(vec![PortTag::Data; 2]);
    let mut b = PipelineBuilder::create(pipeline);
    let cluster = vec![11, 22, 33];
    b.build_add_row_number(&cluster, 22).unwrap();
    assert_eq!(b.main_pipeline.layout, vec![PortTag::Data, PortTag::Data]);
    let kinds = stage_kinds(&b);
    assert_eq!(kinds, vec![StageKind::AddRowNumber(1), StageKind::AddRowNumber(1)]);
}

#[test]
fn add_row_number_names_the_missing_node() {
    let pipeline = Pipeline::create(vec![PortTag::Data; 2]);
    let mut b = PipelineBuilder::create(pipeline);
    let cluster = vec![11, 22];
    assert_eq!(
        b.build_add_row_number(&cluster, 99),
        Err(BuildError::NotFoundClusterNode(99))
    );
}

#[test]
fn append_not_matched_ends_in_one_log_port() {
    let pipeline = Pipeline::create(vec![PortTag::Mixed; 3]);
    let mut b = PipelineBuilder::create(pipeline);
    b.build_merge_into_append_not_matched(MergeVariant::FullOperation, true).unwrap();
    assert_eq!(b.main_pipeline.layout, vec![PortTag::Log]);
}

#[test]
fn append_not_matched_under_matched_only_takes_logs_only() {
    let pipeline = Pipeline::create(vec![PortTag::Log; 2]);
    let mut b = PipelineBuilder::create(pipeline);
    b.build_merge_into_append_not_matched(MergeVariant::MatchedOnly, false).unwrap();
    assert_eq!(b.main_pipeline.layout, vec![PortTag::Log]);
    // and no unmatched-path stage was built
    for k in stage_kinds(&b) {
        assert!(!matches!(k, StageKind::RowNumberAndLogSplit | StageKind::DeduplicateRowNumber));
    }
}

#[test]
fn reorder_requires_a_permutation() {
    let mut p = Pipeline::create(vec![PortTag::Data; 3]);
    assert_eq!(p.reorder_inputs(vec![0, 0, 2]), Err(BuildError::BadReorderPermutation));
    assert!(p.reorder_inputs(vec![2, 0, 1]).is_ok());
    assert_eq!(p.layout, vec![PortTag::Data, PortTag::Data, PortTag::Data]);
}

#[test]
fn resize_refuses_a_grouping_that_drops_a_port() {
    let mut p = Pipeline::create(vec![PortTag::Data; 3]);
    assert_eq!(
        p.resize_partial_one(vec![vec![0], vec![1]]),
        Err(BuildError::BadResizeGrouping)
    );
    assert_eq!(
        p.resize_partial_one(vec![vec![0], vec![1], vec![1], vec![2]]),
        Err(BuildError::BadResizeGrouping)
    );
}

#[test]
fn resize_refuses_mixed_tags_in_one_group() {
    let mut p = Pipeline::create(vec![PortTag::RowId, PortTag::Data]);
    assert_eq!(p.resize_partial_one(vec![vec![0, 1]]), Err(BuildError::PortTagMismatch));
}

#[test]
fn resize_merges_ports_of_one_tag() {
    let mut p = Pipeline::create(vec![PortTag::Log, PortTag::Log, PortTag::RowNumber]);
    p.resize_partial_one(vec![vec![0, 1], vec![2]]).unwrap();
    assert_eq!(p.layout, vec![PortTag::Log, PortTag::RowNumber]);
}

#[test]
fn try_resize_merges_everything_into_one_port() {
    let mut p = Pipeline::create(vec![PortTag::Log; 4]);
    p.try_resize(1).unwrap();
    assert_eq!(p.layout, vec![PortTag::Log]);
    let mut q = Pipeline::create(vec![PortTag::Log; 2]);
    assert_eq!(q.try_resize(0), Err(BuildError::PortCountMismatch));
    assert_eq!(q.try_resize(3), Err(BuildError::PortCountMismatch));
}
