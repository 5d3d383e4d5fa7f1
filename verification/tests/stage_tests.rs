use merge_pipeline::builder::DistributionMode;
use merge_pipeline::builder::MergePlan;
use merge_pipeline::builder::MergeVariant;
use merge_pipeline::builder::PipelineBuilder;
use merge_pipeline::chunk::Chunk;
use merge_pipeline::chunk::Column;
use merge_pipeline::chunk::DataType;
use merge_pipeline::clusters::ClusterNode;
use merge_pipeline::clusters::ClustersTable;
use merge_pipeline::flow::resize_exec;
use merge_pipeline::pipeline::Pipeline;
use merge_pipeline::pipeline::PortTag;
use merge_pipeline::sources::ExampleAsyncSource;
use merge_pipeline::stages::RowNumberEntry;
use merge_pipeline::sources::ExampleSyncSource;
use merge_pipeline::stages::accumulate_row_numbers;
use merge_pipeline::stages::add_row_number_column;
use merge_pipeline::stages::deduplicate_row_numbers;
use merge_pipeline::stages::dummy_forward;
use merge_pipeline::stages::extract_by_row_number;
use merge_pipeline::stages::fill_columns;
use merge_pipeline::stages::merge_into_split;
use merge_pipeline::stages::project_row_number;

/// A two-column chunk: a row-id column and a payload column.
fn chunk2(row_ids: &[u64], payload: &[u64]) -> Chunk {
    assert_eq!(row_ids.len(), payload.len());
    Chunk {
        columns: vec![
            Column { data_type: DataType::UInt64, values: row_ids.to_vec() },
            Column { data_type: DataType::UInt64, values: payload.to_vec() },
        ],
        num_rows: row_ids.len(),
    }
}

fn total_rows(lane: &[Chunk]) -> usize {
    lane.iter().map(|c| c.num_rows).sum()
}

#[test]
fn splitter_routes_rows_by_row_id() {
    // row id 0 marks an unresolved row: an insert candidate
    let c = chunk2(&[7, 0, 9, 0], &[100, 200, 300, 400]);
    let (matched, unmatched) = merge_into_split(&c, 0);
    assert_eq!(matched.num_rows, 2);
    assert_eq!(unmatched.num_rows, 2);
    assert_eq!(matched.columns[0].values, vec![7, 9]);
    assert_eq!(matched.columns[1].values, vec![100, 300]);
    assert_eq!(unmatched.columns[0].values, vec![0, 0]);
    assert_eq!(unmatched.columns[1].values, vec![200, 400]);
}

#[test]
fn dummy_stage_is_pass_through() {
    // scenario: three chunks through a dummy lane come out unchanged, in order
    let input = vec![
        chunk2(&[1], &[10]),
        chunk2(&[2, 3], &[20, 30]),
        chunk2(&[], &[]),
    ];
    let out = dummy_forward(&input);
    assert_eq!(out.len(), 3);
    for (a, b) in out.iter().zip(input.iter()) {
        assert_eq!(a.num_rows, b.num_rows);
        assert_eq!(a.columns.len(), b.columns.len());
        for (ca, cb) in a.columns.iter().zip(b.columns.iter()) {
            assert_eq!(ca.values, cb.values);
            assert_eq!(ca.data_type, cb.data_type);
        }
    }
}

#[test]
fn fill_adds_missing_columns_with_defaults() {
    let c = chunk2(&[1, 2], &[10, 20]);
    let target = vec![DataType::UInt64, DataType::UInt64, DataType::Text];
    let filled = fill_columns(&c, &target);
    assert_eq!(filled.columns.len(), 3);
    assert_eq!(filled.columns[0].values, vec![1, 2]);
    assert_eq!(filled.columns[1].values, vec![10, 20]);
    assert_eq!(filled.columns[2].values, vec![0, 0]);
}

#[test]
fn fill_on_a_complete_schema_is_a_no_op_and_idempotent() {
    let c = chunk2(&[1, 2], &[10, 20]);
    let target = vec![DataType::UInt64, DataType::UInt64, DataType::Text];
    let once = fill_columns(&c, &target);
    // re-running fill on the already-complete chunk changes nothing
    let twice = fill_columns(&once, &target);
    assert_eq!(once.columns.len(), twice.columns.len());
    for (a, b) in once.columns.iter().zip(twice.columns.iter()) {
        assert_eq!(a.values, b.values);
        assert_eq!(a.data_type, b.data_type);
    }
}

#[test]
fn dedup_keeps_the_first_of_each_row_number() {
    let out = deduplicate_row_numbers(&vec![5, 3, 5, 9, 3, 5]);
    assert_eq!(out, vec![5, 3, 9]);
}

#[test]
fn dedup_of_distinct_input_is_identity() {
    let out = deduplicate_row_numbers(&vec![4, 1, 2]);
    assert_eq!(out, vec![4, 1, 2]);
}

#[test]
fn accumulator_concatenates_lanes_in_order() {
    let out = accumulate_row_numbers(&vec![vec![1, 2], vec![], vec![3]]);
    assert_eq!(out, vec![1, 2, 3]);
}

#[test]
fn distributed_insert_only_dedups_across_worker_lanes() {
    // scenario: four worker lanes of row-number-tagged candidates with
    // cross-lane duplication; the surviving set has one entry per
    // distinct row number, not one per candidate
    let lanes = vec![
        vec![1, 2, 3, 4, 5, 6, 7],
        vec![2, 3, 8, 9, 10, 11, 12],
        vec![5, 9, 13, 14, 15, 16, 17],
        vec![1, 12, 18, 19, 20, 21, 17],
    ];
    let raw_count: usize = lanes.iter().map(|l| l.len()).sum();
    let merged = accumulate_row_numbers(&lanes);
    let surviving = deduplicate_row_numbers(&merged);
    assert_eq!(raw_count, 28);
    assert_eq!(surviving.len(), 21);
    let mut sorted = surviving.clone();
    sorted.sort();
    sorted.dedup();
    assert_eq!(sorted.len(), surviving.len());
}

#[test]
fn resize_exec_conserves_rows_per_lane_merge() {
    let inputs = vec![
        vec![chunk2(&[1, 2], &[10, 20])],
        vec![chunk2(&[3], &[30]), chunk2(&[4], &[40])],
        vec![chunk2(&[5, 6, 7], &[50, 60, 70])],
    ];
    let total_in: usize = inputs.iter().map(|l| total_rows(l)).sum();
    let outs = resize_exec(&inputs, &vec![vec![0, 2], vec![1]]).unwrap();
    assert_eq!(outs.len(), 2);
    let total_out: usize = outs.iter().map(|l| total_rows(l)).sum();
    assert_eq!(total_in, total_out);
    // the merged lane holds lane 0's chunks, then lane 2's, in order
    assert_eq!(outs[0].len(), 2);
    assert_eq!(outs[0][0].columns[0].values, vec![1, 2]);
    assert_eq!(outs[0][1].columns[0].values, vec![5, 6, 7]);
    assert_eq!(outs[1].len(), 2);
}

#[test]
fn resize_exec_refuses_a_non_partition() {
    let inputs = vec![vec![chunk2(&[1], &[10])], vec![chunk2(&[2], &[20])]];
    assert!(resize_exec(&inputs, &vec![vec![0]]).is_err());
    assert!(resize_exec(&inputs, &vec![vec![0, 0], vec![1]]).is_err());
}

#[test]
fn local_full_operation_conserves_rows_end_to_end() {
    // scenario: two join lanes of three chunks each, mixed resolvable and
    // unresolvable row ids; the built pipeline has exactly one output
    // lane of mutation logs, and splitting loses no row
    let lanes = vec![
        vec![
            chunk2(&[1, 0, 2], &[1, 2, 3]),
            chunk2(&[0, 0], &[4, 5]),
            chunk2(&[3], &[6]),
        ],
        vec![
            chunk2(&[0, 4], &[7, 8]),
            chunk2(&[5, 6, 0], &[9, 10, 11]),
            chunk2(&[], &[]),
        ],
    ];
    let total_in: usize = lanes.iter().map(|l| total_rows(l)).sum();
    // the built graph: one output lane, tagged as mutation logs
    let pipeline = Pipeline::create(vec![PortTag::Data; 2]);
    let mut b = PipelineBuilder::create(pipeline);
    b.build_merge_into_source(MergeVariant::FullOperation).unwrap();
    let plan = MergePlan {
        variant: MergeVariant::FullOperation,
        mode: DistributionMode::Local,
        row_id_idx: 0,
        computed_schema_differs: false,
    };
    b.build_merge_into(&plan).unwrap();
    assert_eq!(b.main_pipeline.layout, vec![PortTag::Log]);
    // the splitter level routes every row to exactly one side; the
    // aggregation and serialization levels emit one log entry per row
    let mut matched_total: usize = 0;
    let mut unmatched_total: usize = 0;
    for lane in &lanes {
        for c in lane {
            let (m, u) = merge_into_split(c, 0);
            matched_total += m.num_rows;
            unmatched_total += u.num_rows;
        }
    }
    assert_eq!(matched_total + unmatched_total, total_in);
    assert_eq!(matched_total, 6);
    assert_eq!(unmatched_total, 5);
}

#[test]
fn row_number_tagging_is_node_owned_and_sequential() {
    let c = chunk2(&[1, 2, 3], &[10, 20, 30]);
    let mut counter: u64 = 5;
    let tagged = add_row_number_column(&c, 2, &mut counter);
    assert_eq!(counter, 8);
    assert_eq!(tagged.columns.len(), 3);
    let base = 2u64 * 0x1000000000000;
    assert_eq!(tagged.columns[2].values, vec![base + 5, base + 6, base + 7]);
    // the earlier columns are untouched
    assert_eq!(tagged.columns[0].values, vec![1, 2, 3]);
}

#[test]
fn row_number_projection_keeps_the_last_column() {
    let c = chunk2(&[1, 2], &[10, 20]);
    let p = project_row_number(&c);
    assert_eq!(p.columns.len(), 1);
    assert_eq!(p.columns[0].values, vec![10, 20]);
    assert_eq!(p.num_rows, 2);
}

#[test]
fn extractor_recovers_rows_for_surviving_row_numbers() {
    let table = vec![
        RowNumberEntry { row_number: 3, row: vec![30, 31] },
        RowNumberEntry { row_number: 1, row: vec![10, 11] },
        RowNumberEntry { row_number: 3, row: vec![99, 99] },
    ];
    let out = extract_by_row_number(&vec![1, 3, 7], &table);
    // first resolved entry wins; an unknown row number is skipped
    assert_eq!(out, vec![vec![10, 11], vec![30, 31]]);
}

#[test]
fn clusters_table_schema_and_data() {
    let t = ClustersTable::create(42);
    let info = t.get_table_info();
    assert_eq!(info.ident.table_id, 42);
    assert_eq!(info.name, "clusters");
    assert_eq!(info.engine, "SystemClusters");
    assert_eq!(info.schema.len(), 4);
    assert_eq!(info.schema[0].name, "name");
    assert_eq!(info.schema[2].name, "port");
    assert_eq!(info.schema[2].data_type, DataType::UInt16);
    let nodes = vec![
        ClusterNode { id: 1, host: 100, port: 9001, version: 7 },
        ClusterNode { id: 2, host: 101, port: 9002, version: 7 },
    ];
    let c = t.get_full_data(&nodes);
    assert_eq!(c.num_rows, 2);
    assert_eq!(c.columns.len(), 4);
    assert_eq!(c.columns[0].values, vec![1, 2]);
    assert_eq!(c.columns[1].values, vec![100, 101]);
    assert_eq!(c.columns[2].values, vec![9001, 9002]);
    assert_eq!(c.columns[3].values, vec![7, 7]);
}

#[test]
fn sync_source_yields_each_chunk_then_none() {
    let chunks = vec![chunk2(&[1], &[10]), chunk2(&[2], &[20])];
    let mut s = ExampleSyncSource::create(chunks);
    let a = s.generate().unwrap();
    assert_eq!(a.columns[0].values, vec![1]);
    let b = s.generate().unwrap();
    assert_eq!(b.columns[0].values, vec![2]);
    assert!(s.generate().is_none());
}

#[test]
fn async_source_yields_each_chunk_then_none() {
    let chunks = vec![chunk2(&[3], &[30])];
    let mut s = ExampleAsyncSource::create(chunks);
    let a = s.generate().unwrap();
    assert_eq!(a.columns[1].values, vec![30]);
    assert!(s.generate().is_none());
    assert!(s.generate().is_none());
}
