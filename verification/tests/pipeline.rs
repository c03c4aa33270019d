use scatterframe::aggregation::{Aggregate, SumAggregate};
use scatterframe::create_data_frame;
use scatterframe::data_frame::{DataError, DataFrame, Row};
use scatterframe::scatter::{ScatterLayout, NORM_HALF, NORM_ONE};
use scatterframe::split_on;
use scatterframe::tree::create_tree;
use scatterframe::value::{AnyValue, DataType, NUMBER_SCALE};

fn grid(cells: &[&[&str]]) -> Vec<Vec<String>> {
    cells
        .iter()
        .map(|row| row.iter().map(|c| c.to_string()).collect())
        .collect()
}

#[test]
fn split_keeps_empty_parts() {
    let parts = split_on("a,,b", ',');
    assert_eq!(parts, vec!["a".to_string(), "".to_string(), "b".to_string()]);
    assert_eq!(split_on("", ','), vec!["".to_string()]);
    assert_eq!(split_on("xy", ','), vec!["xy".to_string()]);
    assert_eq!(split_on("a,", ','), vec!["a".to_string(), "".to_string()]);
}

#[test]
fn frame_schema_matches_row_width() {
    let data = grid(&[&["k", "v"], &["a", "1"], &["b", "2.5"]]);
    let frame = DataFrame::new(&data, true).unwrap();
    let width = frame.schema().fields().len();
    assert_eq!(width, 2);
    for row in frame.rows() {
        assert_eq!(row.values.len(), width);
    }
    assert_eq!(frame.rows().len(), 2);
}

#[test]
fn frame_infers_names_and_types() {
    let data = grid(&[&["k", "v"], &["a", "1"]]);
    let frame = DataFrame::new(&data, true).unwrap();
    let schema = frame.schema();
    assert_eq!(schema.fields()[0].name().as_str(), "k");
    assert_eq!(schema.fields()[1].name().as_str(), "v");
    assert_eq!(*schema.fields()[0].data_type(), DataType::Utf8);
    assert_eq!(*schema.fields()[1].data_type(), DataType::Number);
}

#[test]
fn frame_rejects_small_and_ragged_grids() {
    let one = grid(&[&["k", "v"]]);
    assert_eq!(DataFrame::new(&one, true).unwrap_err(), DataError::TooFewRows);
    let ragged = grid(&[&["k", "v"], &["a", "1", "extra"]]);
    assert_eq!(DataFrame::new(&ragged, true).unwrap_err(), DataError::RaggedGrid);
}

#[test]
fn read_back_reproduces_inferred_values() {
    let data = grid(&[&["k", "v"], &["a", "1"], &["2.5", "xyz"]]);
    let frame = DataFrame::new(&data, true).unwrap();
    for (i, row) in frame.rows().iter().enumerate() {
        for (j, field) in frame.schema().fields().iter().enumerate() {
            let expected = AnyValue::from(data[i + 1][j].as_str());
            let got = field.read(row);
            // Null never equals Null, but inference never yields Null
            assert_eq!(*got, expected);
        }
    }
}

#[test]
fn read_is_positionally_stable() {
    let data = grid(&[&["k", "v"], &["a", "1"]]);
    let frame = DataFrame::new(&data, true).unwrap();
    let field = frame.schema().get_field(1).unwrap();
    let row = &frame.rows()[0];
    assert_eq!(field.read(row), field.read(row));
    assert_eq!(*field.read(row), AnyValue::Number(NUMBER_SCALE));
}

#[test]
fn field_lookup_first_match_wins() {
    let data = grid(&[&["k", "k"], &["a", "1"]]);
    let frame = DataFrame::new(&data, true).unwrap();
    let f = frame
        .schema()
        .get_field_by_name(&"k".to_string())
        .unwrap();
    assert_eq!(f.index, 0);
    assert!(frame
        .schema()
        .get_field_by_name(&"missing".to_string())
        .is_none());
}

#[test]
fn grouping_partitions_rows() {
    let data = grid(&[&["k", "v"], &["a", "1"], &["a", "2"], &["b", "3"]]);
    let frame = DataFrame::new(&data, true).unwrap();
    let key = frame
        .schema()
        .get_field_by_name(&"k".to_string())
        .unwrap()
        .clone();
    let levels = vec![key];
    let tree = create_tree(frame.row_pointers(), &levels, frame.rows());
    assert_eq!(tree.rows().len(), 3);
    assert_eq!(tree.children().len(), 2);
    let mut sizes: Vec<usize> = tree.children().iter().map(|c| c.rows().len()).collect();
    sizes.sort();
    assert_eq!(sizes, vec![1, 2]);
    let total: usize = tree.children().iter().map(|c| c.rows().len()).sum();
    assert_eq!(total, tree.rows().len());
    for child in tree.children() {
        assert!(child.children().is_empty());
    }
}

#[test]
fn null_rows_never_share_a_group() {
    let rows = vec![
        Row::new(vec![AnyValue::Null]),
        Row::new(vec![AnyValue::Null]),
    ];
    let field = scatterframe::data_frame::Field::new("n", DataType::Null, 0);
    let levels = vec![field];
    let tree = create_tree(vec![0, 1], &levels, &rows);
    assert_eq!(tree.children().len(), 2);
    for child in tree.children() {
        assert_eq!(child.rows().len(), 1);
        assert!(matches!(child.id, AnyValue::Null));
    }
}

#[test]
fn sum_skips_text_and_null() {
    let rows = vec![
        Row::new(vec![AnyValue::Number(2 * NUMBER_SCALE)]),
        Row::new(vec![AnyValue::Utf8("skip".to_string())]),
        Row::new(vec![AnyValue::Null]),
        Row::new(vec![AnyValue::Number(5 * NUMBER_SCALE)]),
    ];
    let field = scatterframe::data_frame::Field::new("v", DataType::Number, 0);
    let levels: Vec<scatterframe::data_frame::Field> = vec![];
    let tree = create_tree(vec![0, 1, 2, 3], &levels, &rows);
    let agg = SumAggregate::new(&field);
    assert_eq!(agg.aggregate(&tree, &rows), 7 * NUMBER_SCALE as i128);
    let wrapped = Aggregate::Sum(agg);
    assert_eq!(wrapped.get_value(&tree, &rows), 7 * NUMBER_SCALE as i128);
}

#[test]
fn sum_of_empty_group_is_zero() {
    let rows: Vec<Row> = vec![];
    let field = scatterframe::data_frame::Field::new("v", DataType::Number, 0);
    let levels: Vec<scatterframe::data_frame::Field> = vec![];
    let tree = create_tree(vec![], &levels, &rows);
    let agg = SumAggregate::new(&field);
    assert_eq!(agg.aggregate(&tree, &rows), 0);
}

#[test]
fn degenerate_axis_maps_to_midpoint() {
    // group "a": 1+2=3, group "b": 3 -- equal sums, so min == max on both axes
    let frame = create_data_frame("k,v\na,1\na,2\nb,3", true).unwrap();
    let layout =
        ScatterLayout::from_frame(&frame, "k", &"v".to_string(), &"v".to_string()).unwrap();
    assert_eq!(layout.items.len(), 2);
    for item in &layout.items {
        assert_eq!(item.x, NORM_HALF);
        assert_eq!(item.y, NORM_HALF);
        assert_eq!(item.size, NORM_ONE);
    }
}

#[test]
fn non_degenerate_axis_hits_both_endpoints() {
    let frame = create_data_frame("k,v\na,1\nb,3", true).unwrap();
    let layout =
        ScatterLayout::from_frame(&frame, "k", &"v".to_string(), &"v".to_string()).unwrap();
    assert_eq!(layout.items.len(), 2);
    let mut xs: Vec<u64> = layout.items.iter().map(|i| i.x).collect();
    xs.sort();
    assert_eq!(xs, vec![0, NORM_ONE]);
    for item in &layout.items {
        assert!(item.x <= NORM_ONE);
        assert!(item.y <= NORM_ONE);
        assert_eq!(item.x, item.y);
    }
}

#[test]
fn interior_value_interpolates() {
    // sums 1, 2, 4 over column v grouped by k: min 1, max 4, middle (2-1)/(4-1)
    let frame = create_data_frame("k,v\na,1\nb,2\nc,4", true).unwrap();
    let layout =
        ScatterLayout::from_frame(&frame, "k", &"v".to_string(), &"v".to_string()).unwrap();
    assert_eq!(layout.items.len(), 3);
    let mut xs: Vec<u64> = layout.items.iter().map(|i| i.x).collect();
    xs.sort();
    assert_eq!(xs, vec![0, NORM_ONE / 3, NORM_ONE]);
}

#[test]
fn unknown_column_is_reported() {
    let frame = create_data_frame("k,v\na,1\nb,3", true).unwrap();
    let r = ScatterLayout::from_frame(&frame, "zz", &"v".to_string(), &"v".to_string());
    assert_eq!(r.unwrap_err(), DataError::UnknownField);
    let r = ScatterLayout::from_frame(&frame, "k", &"zz".to_string(), &"v".to_string());
    assert_eq!(r.unwrap_err(), DataError::UnknownField);
    let r = ScatterLayout::from_frame(&frame, "k", &"v".to_string(), &"zz".to_string());
    assert_eq!(r.unwrap_err(), DataError::UnknownField);
}

#[test]
fn two_level_grouping_leaves_sit_two_down() {
    let frame =
        create_data_frame("k,m,v\na,x,1\na,y,2\nb,x,3\nb,x,4", true).unwrap();
    let k = frame
        .schema()
        .get_field_by_name(&"k".to_string())
        .unwrap()
        .clone();
    let m = frame
        .schema()
        .get_field_by_name(&"m".to_string())
        .unwrap()
        .clone();
    let levels = vec![k, m];
    let tree = create_tree(frame.row_pointers(), &levels, frame.rows());
    // two level-one groups; "a" splits into x and y, "b" keeps one group
    assert_eq!(tree.children().len(), 2);
    let mut leaf_rows = 0;
    for child in tree.children() {
        assert!(!child.children().is_empty());
        for leaf in child.children() {
            assert!(leaf.children().is_empty());
            leaf_rows += leaf.rows().len();
        }
    }
    assert_eq!(leaf_rows, 4);
}

#[test]
fn create_data_frame_splits_and_checks() {
    assert_eq!(
        create_data_frame("k,v", true).unwrap_err(),
        DataError::TooFewRows
    );
    assert_eq!(
        create_data_frame("k,v\na,1,9", true).unwrap_err(),
        DataError::RaggedGrid
    );
    let frame = create_data_frame("k,v\na,1", false).unwrap();
    // without a header the first physical row is data too
    assert_eq!(frame.rows().len(), 2);
    assert_eq!(frame.schema().fields().len(), 2);
}
