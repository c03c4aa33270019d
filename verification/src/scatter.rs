//! The layout engine: walks the leaf groups of a grouping hierarchy in one
//! fixed depth-first order, evaluates an aggregate per axis, and min-max
//! normalizes each axis onto the unit interval.
//!
//! Coordinates are fixed point: `NORM_ONE` stands for 1.0, so every emitted
//! coordinate lies in `[0, NORM_ONE]`. A degenerate axis, where every leaf
//! aggregates to the same value, maps every point to the midpoint rather
//! than dividing by zero. An axis range too wide for exact interpolation --
//! beyond `RANGE_CAP`, which no practical row set reaches -- keeps only the
//! endpoints exact and maps interior points to the midpoint.
use vstd::prelude::*;

use vstd::arithmetic::div_mod::{lemma_div_is_ordered, lemma_div_multiples_vanish};
use vstd::arithmetic::mul::lemma_mul_inequality;

use crate::aggregation::{aggregate_field, aggregate_spec, Aggregate, SumAggregate};
use crate::data_frame::{
    has_field_named, is_first_field_named, table_wf, DataError, DataFrame, Field, Row,
};
use crate::text::split_chars;
use crate::tree::{
    create_tree, handles_ok, lemma_forest_handles_index, lemma_tree_ok_handles, levels_ok,
    tree_handles_ok, tree_ok, Node,
};
use crate::value::AnyValue;

verus! {

/// One unit on a normalized axis: the fixed-point stand-in for 1.0.
pub const NORM_ONE: u64 = 1_000_000;

/// The midpoint of a normalized axis, used where interpolation is undefined.
pub const NORM_HALF: u64 = 500_000;

/// Axis ranges at least this wide fall back to endpoint-only normalization.
pub const RANGE_CAP: u128 = 0x10_0000_0000_0000_0000_0000_0000;

/// Every field position is readable in every table row.
pub open spec fn field_ok(table: Seq<Row>, field: Field) -> bool {
    forall|r: int| 0 <= r < table.len() ==> field.index < (#[trigger] table[r]).values@.len()
}

/// The aggregate's value on each leaf below `node`, in depth-first order,
/// children in stored order.
pub open spec fn leaf_values(node: Node, table: Seq<Row>, agg: Aggregate) -> Seq<int>
    decreases node,
{
    if node.children@.len() == 0 {
        seq![aggregate_spec(agg, table, node)]
    } else {
        leaf_values_of(node.children@, table, agg)
    }
}

/// `leaf_values` over a forest, in sibling order.
pub open spec fn leaf_values_of(nodes: Seq<Node>, table: Seq<Row>, agg: Aggregate) -> Seq<int>
    decreases nodes,
{
    if nodes.len() == 0 {
        Seq::empty()
    } else {
        leaf_values(nodes.first(), table, agg) + leaf_values_of(nodes.drop_first(), table, agg)
    }
}

/// Appending one tree to a forest appends its leaf values.
proof fn lemma_leaf_values_of_push(nodes: Seq<Node>, x: Node, table: Seq<Row>, agg: Aggregate)
    ensures
        leaf_values_of(nodes.push(x), table, agg) == leaf_values_of(nodes, table, agg)
            + leaf_values(x, table, agg),
    decreases nodes,
{
    if nodes.len() == 0 {
        reveal_with_fuel(leaf_values_of, 3);
        assert(nodes.push(x).drop_first() =~= Seq::<Node>::empty());
        assert(nodes.push(x).first() == x);
        assert(leaf_values(x, table, agg) + Seq::<int>::empty() =~= leaf_values(x, table, agg));
        assert(leaf_values_of(nodes.push(x), table, agg) =~= leaf_values(x, table, agg));
        assert(leaf_values_of(nodes, table, agg) + leaf_values(x, table, agg) =~= leaf_values(
            x,
            table,
            agg,
        ));
    } else {
        assert(nodes.push(x).drop_first() =~= nodes.drop_first().push(x));
        assert(nodes.push(x).first() == nodes.first());
        lemma_leaf_values_of_push(nodes.drop_first(), x, table, agg);
        assert(leaf_values_of(nodes.push(x), table, agg) =~= leaf_values_of(nodes, table, agg)
            + leaf_values(x, table, agg));
    }
}

/// A tree has at least one leaf value; a forest has one per tree at least.
proof fn lemma_leaf_values_pos(node: Node, table: Seq<Row>, agg: Aggregate)
    ensures
        leaf_values(node, table, agg).len() >= 1,
    decreases node,
{
    if node.children@.len() > 0 {
        lemma_leaf_values_of_first_pos(node.children@, table, agg);
    }
}

/// A nonempty forest has at least one leaf value.
proof fn lemma_leaf_values_of_first_pos(nodes: Seq<Node>, table: Seq<Row>, agg: Aggregate)
    requires
        nodes.len() > 0,
    ensures
        leaf_values_of(nodes, table, agg).len() >= 1,
    decreases nodes,
{
    lemma_leaf_values_pos(nodes.first(), table, agg);
}

/// Two aggregates see the same leaves: their leaf value sequences over one
/// tree have one length.
pub proof fn lemma_leaf_values_same_len(node: Node, table: Seq<Row>, a: Aggregate, b: Aggregate)
    ensures
        leaf_values(node, table, a).len() == leaf_values(node, table, b).len(),
    decreases node,
{
    if node.children@.len() > 0 {
        lemma_leaf_values_of_same_len(node.children@, table, a, b);
    }
}

/// `lemma_leaf_values_same_len` over a forest.
proof fn lemma_leaf_values_of_same_len(
    nodes: Seq<Node>,
    table: Seq<Row>,
    a: Aggregate,
    b: Aggregate,
)
    ensures
        leaf_values_of(nodes, table, a).len() == leaf_values_of(nodes, table, b).len(),
    decreases nodes,
{
    if nodes.len() > 0 {
        lemma_leaf_values_same_len(nodes.first(), table, a, b);
        lemma_leaf_values_of_same_len(nodes.drop_first(), table, a, b);
    }
}

/// The views of a vector of wide integers, as mathematical integers.
pub open spec fn vals_int(s: Seq<i128>) -> Seq<int> {
    s.map_values(|x: i128| x as int)
}

/// The difference of two wide signed integers, exact in an unsigned word.
fn diff_u128(a: i128, b: i128) -> (r: u128)
    requires
        b <= a,
    ensures
        r as int == a - b,
{
    if b >= 0 {
        (a - b) as u128
    } else {
        let nb: u128 = ((-(b + 1)) as u128) + 1;
        if a >= 0 {
            (a as u128) + nb
        } else {
            let na: u128 = ((-(a + 1)) as u128) + 1;
            nb - na
        }
    }
}

/// Min-max normalization of `v` onto `[0, NORM_ONE]` within `[lo, hi]`: the
/// midpoint where the axis is degenerate, linear interpolation for any range
/// below `RANGE_CAP`, endpoint-only beyond it.
pub open spec fn norm_spec(v: int, lo: int, hi: int) -> int {
    if hi <= lo {
        NORM_HALF as int
    } else if hi - lo < RANGE_CAP as int {
        (v - lo) * (NORM_ONE as int) / (hi - lo)
    } else if v == lo {
        0
    } else if v == hi {
        NORM_ONE as int
    } else {
        NORM_HALF as int
    }
}

/// Appends the aggregate's value on every leaf below `node`, depth first,
/// children in stored order.
fn collect_leaf_values(node: &Node, table: &Vec<Row>, agg: &Aggregate, out: &mut Vec<i128>)
    requires
        tree_handles_ok(table@, *node),
        field_ok(table@, aggregate_field(*agg)),
    ensures
        vals_int(final(out)@) == vals_int(old(out)@) + leaf_values(*node, table@, *agg),
    decreases *node,
{
    let ghost out0 = out@;
    if node.children.len() == 0 {
        proof {
            assert forall|i: int| 0 <= i < node.rows@.len() implies {
                &&& (#[trigger] node.rows@[i] as int) < table@.len()
                &&& aggregate_field(*agg).index < table@[node.rows@[i] as int].values@.len()
            } by {
                assert((node.rows@[i] as int) < table@.len());
                assert(aggregate_field(*agg).index < table@[node.rows@[i] as int].values@.len());
            }
        }
        let v = agg.get_value(node, table);
        out.push(v);
        proof {
            assert(vals_int(out@) =~= vals_int(out0) + leaf_values(*node, table@, *agg));
        }
        return ;
    }
    let mut c: usize = 0;
    proof {
        assert(node.children@.take(0) =~= Seq::<Node>::empty());
        assert(vals_int(out@) =~= vals_int(out0) + leaf_values_of(
            node.children@.take(0),
            table@,
            *agg,
        ));
    }
    while c < node.children.len()
        invariant
            c <= node.children@.len(),
            tree_handles_ok(table@, *node),
            field_ok(table@, aggregate_field(*agg)),
            vals_int(out@) == vals_int(out0) + leaf_values_of(
                node.children@.take(c as int),
                table@,
                *agg,
            ),
        decreases node.children@.len() - c,
    {
        proof {
            lemma_forest_handles_index(table@, node.children@, c as int);
        }
        collect_leaf_values(&node.children[c], table, agg, out);
        proof {
            assert(node.children@.take(c + 1) =~= node.children@.take(c as int).push(
                node.children@[c as int],
            ));
            lemma_leaf_values_of_push(
                node.children@.take(c as int),
                node.children@[c as int],
                table@,
                *agg,
            );
            assert(vals_int(out@) =~= vals_int(out0) + leaf_values_of(
                node.children@.take(c + 1),
                table@,
                *agg,
            ));
        }
        c = c + 1;
    }
    proof {
        assert(node.children@.take(node.children@.len() as int) =~= node.children@);
    }
}

/// The least and the greatest value of a nonempty vector.
fn vec_min_max(vals: &Vec<i128>) -> (r: (i128, i128))
    requires
        vals@.len() > 0,
    ensures
        r.0 as int == vals_int(vals@).min(),
        r.1 as int == vals_int(vals@).max(),
        r.0 <= r.1,
{
    let mut mn = vals[0];
    let mut mx = vals[0];
    let mut i: usize = 1;
    while i < vals.len()
        invariant
            1 <= i <= vals@.len(),
            exists|j: int| 0 <= j < i && mn == #[trigger] vals@[j],
            forall|j: int| 0 <= j < i ==> mn <= #[trigger] vals@[j],
            exists|j: int| 0 <= j < i && mx == #[trigger] vals@[j],
            forall|j: int| 0 <= j < i ==> mx >= #[trigger] vals@[j],
        decreases vals@.len() - i,
    {
        if vals[i] < mn {
            mn = vals[i];
        }
        if vals[i] > mx {
            mx = vals[i];
        }
        i = i + 1;
    }
    proof {
        let s = vals_int(vals@);
        s.min_ensures();
        s.max_ensures();
        let jn = choose|j: int| 0 <= j < vals@.len() && mn == #[trigger] vals@[j];
        assert(s[jn] == mn as int);
        assert(s.contains(mn as int));
        let jm = choose|j: int| 0 <= j < vals@.len() && mx == #[trigger] vals@[j];
        assert(s[jm] == mx as int);
        assert(s.contains(mx as int));
        assert(forall|j: int| 0 <= j < s.len() ==> mn as int <= #[trigger] s[j]);
        assert(forall|j: int| 0 <= j < s.len() ==> mx as int >= #[trigger] s[j]);
        let kn = choose|k: int| 0 <= k < s.len() && s[k] == s.min();
        let km = choose|k: int| 0 <= k < s.len() && s[k] == s.max();
        assert(s.contains(s.min()));
        assert(s.contains(s.max()));
    }
    (mn, mx)
}

/// Normalizes one coordinate.
fn normalize(v: i128, lo: i128, hi: i128) -> (r: u64)
    requires
        lo <= v <= hi,
    ensures
        r as int == norm_spec(v as int, lo as int, hi as int),
        r <= NORM_ONE,
{
    if hi <= lo {
        return NORM_HALF;
    }
    let range = diff_u128(hi, lo);
    let d = diff_u128(v, lo);
    if range < RANGE_CAP {
        proof {
            lemma_mul_inequality(d as int, range as int, NORM_ONE as int);
            lemma_div_is_ordered(
                (d as int) * (NORM_ONE as int),
                (range as int) * (NORM_ONE as int),
                range as int,
            );
            lemma_div_multiples_vanish(NORM_ONE as int, range as int);
            assert((range as int) * (NORM_ONE as int) == (NORM_ONE as int) * (range as int));
            vstd::arithmetic::div_mod::lemma_div_pos_is_pos(
                (d as int) * (NORM_ONE as int),
                range as int,
            );
            assert((d as int) * (NORM_ONE as int) >= 0) by (nonlinear_arith)
                requires
                    d >= 0,
            ;
        }
        let q = (d * (NORM_ONE as u128)) / range;
        q as u64
    } else if v == lo {
        0
    } else if v == hi {
        NORM_ONE
    } else {
        NORM_HALF
    }
}

/// One plotted point: normalized coordinates and a size weight, fixed point
/// with `NORM_ONE` standing for 1.0.
#[derive(Clone, Copy, Debug, PartialEq, Eq, Structural)]
pub struct ScatterItem {
    pub x: u64,
    pub y: u64,
    pub size: u64,
}

impl ScatterItem {
    pub fn new(x: u64, y: u64, size: u64) -> (r: Self)
        ensures
            r.x == x,
            r.y == y,
            r.size == size,
    {
        ScatterItem { x, y, size }
    }
}

/// The computed layout: one point per leaf group, in depth-first leaf order.
#[derive(Debug)]
pub struct ScatterLayout {
    pub items: Vec<ScatterItem>,
}

/// True when `l` lays out the tree's leaves: one item per leaf in depth-first
/// order, each axis min-max normalized over that axis's own leaf values, with
/// unit size.
pub open spec fn layout_matches(
    l: ScatterLayout,
    root: Node,
    table: Seq<Row>,
    xa: Aggregate,
    ya: Aggregate,
) -> bool {
    let xs = leaf_values(root, table, xa);
    let ys = leaf_values(root, table, ya);
    &&& l.items@.len() == xs.len()
    &&& l.items@.len() == ys.len()
    &&& forall|i: int|
        0 <= i < l.items@.len() ==> {
            &&& (#[trigger] l.items@[i]).x as int == norm_spec(xs[i], xs.min(), xs.max())
            &&& l.items@[i].y as int == norm_spec(ys[i], ys.min(), ys.max())
            &&& l.items@[i].size == NORM_ONE
        }
}

impl ScatterLayout {
    /// Lays out one point per leaf of the hierarchy: x from `x_agg`, y from
    /// `y_agg`, both axes normalized over their own leaf values, visiting
    /// leaves in one depth-first order for both range discovery and emission.
    pub fn new(root: &Node, x_agg: &Aggregate, y_agg: &Aggregate, table: &Vec<Row>) -> (r: Self)
        requires
            tree_handles_ok(table@, *root),
            field_ok(table@, aggregate_field(*x_agg)),
            field_ok(table@, aggregate_field(*y_agg)),
        ensures
            layout_matches(r, *root, table@, *x_agg, *y_agg),
    {
        let ghost gxs = leaf_values(*root, table@, *x_agg);
        let ghost gys = leaf_values(*root, table@, *y_agg);
        let mut xs: Vec<i128> = Vec::new();
        let mut ys: Vec<i128> = Vec::new();
        collect_leaf_values(root, table, x_agg, &mut xs);
        collect_leaf_values(root, table, y_agg, &mut ys);
        proof {
            assert(vals_int(xs@) =~= gxs);
            assert(vals_int(ys@) =~= gys);
            lemma_leaf_values_pos(*root, table@, *x_agg);
            lemma_leaf_values_same_len(*root, table@, *x_agg, *y_agg);
        }
        let (min_x, max_x) = vec_min_max(&xs);
        let (min_y, max_y) = vec_min_max(&ys);
        let mut items: Vec<ScatterItem> = Vec::new();
        let mut i: usize = 0;
        while i < xs.len()
            invariant
                i <= xs@.len(),
                xs@.len() == ys@.len(),
                vals_int(xs@) == gxs,
                vals_int(ys@) == gys,
                min_x as int == gxs.min(),
                max_x as int == gxs.max(),
                min_y as int == gys.min(),
                max_y as int == gys.max(),
                items@.len() == i,
                forall|j: int|
                    0 <= j < i ==> {
                        &&& (#[trigger] items@[j]).x as int == norm_spec(
                            gxs[j],
                            gxs.min(),
                            gxs.max(),
                        )
                        &&& items@[j].y as int == norm_spec(gys[j], gys.min(), gys.max())
                        &&& items@[j].size == NORM_ONE
                    },
            decreases xs@.len() - i,
        {
            proof {
                gxs.min_ensures();
                gxs.max_ensures();
                gys.min_ensures();
                gys.max_ensures();
                assert(gxs[i as int] == xs@[i as int] as int);
                assert(gys[i as int] == ys@[i as int] as int);
            }
            let xn = normalize(xs[i], min_x, max_x);
            let yn = normalize(ys[i], min_y, max_y);
            items.push(ScatterItem::new(xn, yn, NORM_ONE));
            i = i + 1;
        }
        ScatterLayout { items }
    }
}

/// True when the layout was computed over some grouping hierarchy of all the
/// frame's rows, grouped by the first fields carrying the requested level
/// names, with x and y the sums of the first fields carrying the two axis
/// names.
pub open spec fn layout_from_frame(
    layout: ScatterLayout,
    frame: DataFrame,
    names: Seq<Seq<char>>,
    x_name: Seq<char>,
    y_name: Seq<char>,
) -> bool {
    exists|levels: Seq<Field>, xf: Field, yf: Field, tree: Node|
        #[trigger] pipeline_witness(layout, frame, names, x_name, y_name, levels, xf, yf, tree)
}

/// The pieces `layout_from_frame` asserts exist: the grouping fields, the
/// two axis fields, and the hierarchy the layout was computed over.
pub open spec fn pipeline_witness(
    layout: ScatterLayout,
    frame: DataFrame,
    names: Seq<Seq<char>>,
    x_name: Seq<char>,
    y_name: Seq<char>,
    levels: Seq<Field>,
    xf: Field,
    yf: Field,
    tree: Node,
) -> bool {
    &&& levels.len() == names.len()
    &&& forall|l: int|
        0 <= l < names.len() ==> is_first_field_named(
            frame.schema.fields@,
            #[trigger] levels[l],
            names[l],
        )
    &&& is_first_field_named(frame.schema.fields@, xf, x_name)
    &&& is_first_field_named(frame.schema.fields@, yf, y_name)
    &&& tree.id == AnyValue::Null
    &&& tree.rows@.len() == frame.rows@.len()
    &&& forall|i: int| 0 <= i < tree.rows@.len() ==> #[trigger] tree.rows@[i] == i
    &&& tree_ok(frame.rows@, tree, levels, 0)
    &&& layout_matches(
        layout,
        tree,
        frame.rows@,
        Aggregate::Sum(SumAggregate { field: xf }),
        Aggregate::Sum(SumAggregate { field: yf }),
    )
}

/// Every requested column name -- grouping levels, x axis, y axis -- names
/// some field of the frame.
pub open spec fn all_names_found(
    frame: DataFrame,
    names: Seq<Seq<char>>,
    x_name: Seq<char>,
    y_name: Seq<char>,
) -> bool {
    &&& forall|l: int|
        0 <= l < names.len() ==> has_field_named(frame.schema.fields@, #[trigger] names[l])
    &&& has_field_named(frame.schema.fields@, x_name)
    &&& has_field_named(frame.schema.fields@, y_name)
}

impl ScatterLayout {
    /// The whole pipeline over a frame: looks up the grouping columns named
    /// in the comma-separated `level_names` and the two axis columns, groups
    /// every row level by level, and lays out one point per leaf group. A
    /// name matching no column is reported rather than aborting.
    pub fn from_frame(
        frame: &DataFrame,
        level_names: &str,
        x_name: &String,
        y_name: &String,
    ) -> (r: Result<ScatterLayout, DataError>)
        requires
            table_wf(*frame),
        ensures
            r is Ok <==> all_names_found(
                *frame,
                split_chars(level_names@, ','),
                x_name@,
                y_name@,
            ),
            match r {
                Ok(layout) => layout_from_frame(
                    layout,
                    *frame,
                    split_chars(level_names@, ','),
                    x_name@,
                    y_name@,
                ),
                Err(e) => e == DataError::UnknownField,
            },
    {
        let ghost names = split_chars(level_names@, ',');
        let level_col_names = crate::split_on(level_names, ',');
        let mut levels: Vec<Field> = Vec::new();
        let mut l: usize = 0;
        while l < level_col_names.len()
            invariant
                l <= level_col_names@.len(),
                names == split_chars(level_names@, ','),
                crate::strings_view(level_col_names@) == names,
                levels@.len() == l,
                forall|k: int|
                    0 <= k < l ==> is_first_field_named(
                        frame.schema.fields@,
                        #[trigger] levels@[k],
                        names[k],
                    ),
            decreases level_col_names@.len() - l,
        {
            proof {
                assert(names[l as int] == crate::strings_view(level_col_names@)[l as int]);
            }
            match frame.schema.get_field_by_name(&level_col_names[l]) {
                Some(field) => {
                    levels.push(field.clone());
                },
                None => {
                    proof {
                        assert(names.len() == level_col_names@.len());
                        assert(!has_field_named(frame.schema.fields@, names[l as int]));
                        assert(!all_names_found(*frame, names, x_name@, y_name@));
                    }
                    return Err(DataError::UnknownField);
                },
            }
            l = l + 1;
        }
        let x_field = match frame.schema.get_field_by_name(x_name) {
            Some(f) => f.clone(),
            None => {
                return Err(DataError::UnknownField);
            },
        };
        let y_field = match frame.schema.get_field_by_name(y_name) {
            Some(f) => f.clone(),
            None => {
                return Err(DataError::UnknownField);
            },
        };
        proof {
            assert(has_field_named(frame.schema.fields@, x_name@));
            assert forall|k: int| 0 <= k < names.len() implies has_field_named(
                frame.schema.fields@,
                #[trigger] names[k],
            ) by {
                assert(is_first_field_named(frame.schema.fields@, levels@[k], names[k]));
            }
        }
        let x_agg = Aggregate::Sum(SumAggregate::new(&x_field));
        let y_agg = Aggregate::Sum(SumAggregate::new(&y_field));
        let row_pointers = frame.row_pointers();
        proof {
            assert(handles_ok(frame.rows@, row_pointers@));
            assert(levels_ok(frame.rows@, levels@)) by {
                assert forall|l2: int, r2: int|
                    0 <= l2 < levels@.len() && 0 <= r2 < frame.rows@.len() implies (
                #[trigger] levels@[l2]).index < (#[trigger] frame.rows@[r2]).values@.len() by {
                    assert(is_first_field_named(frame.schema.fields@, levels@[l2], names[l2]));
                    let j = choose|j: int|
                        {
                            &&& 0 <= j < frame.schema.fields@.len()
                            &&& #[trigger] frame.schema.fields@[j] == levels@[l2]
                            &&& frame.schema.fields@[j].name@ == names[l2]
                            &&& forall|k: int|
                                0 <= k < j ==> frame.schema.fields@[k].name@ != names[l2]
                        };
                    assert(frame.schema.fields@[j].index == j);
                }
            }
        }
        let tree = create_tree(row_pointers, &levels, &frame.rows);
        proof {
            lemma_tree_ok_handles(frame.rows@, tree, levels@, 0);
            assert(field_ok(frame.rows@, aggregate_field(x_agg))) by {
                let j = choose|j: int|
                    {
                        &&& 0 <= j < frame.schema.fields@.len()
                        &&& #[trigger] frame.schema.fields@[j] == x_field
                        &&& frame.schema.fields@[j].name@ == x_name@
                        &&& forall|k: int| 0 <= k < j ==> frame.schema.fields@[k].name@ != x_name@
                    };
                assert(frame.schema.fields@[j].index == j);
            }
            assert(field_ok(frame.rows@, aggregate_field(y_agg))) by {
                let j = choose|j: int|
                    {
                        &&& 0 <= j < frame.schema.fields@.len()
                        &&& #[trigger] frame.schema.fields@[j] == y_field
                        &&& frame.schema.fields@[j].name@ == y_name@
                        &&& forall|k: int| 0 <= k < j ==> frame.schema.fields@[k].name@ != y_name@
                    };
                assert(frame.schema.fields@[j].index == j);
            }
        }
        let layout = ScatterLayout::new(&tree, &x_agg, &y_agg, &frame.rows);
        proof {
            assert(x_agg == Aggregate::Sum(SumAggregate { field: x_field }));
            assert(y_agg == Aggregate::Sum(SumAggregate { field: y_field }));
            assert(pipeline_witness(
                layout,
                *frame,
                names,
                x_name@,
                y_name@,
                levels@,
                x_field,
                y_field,
                tree,
            ));
        }
        Ok(layout)
    }
}

/// On a non-degenerate axis, a normalized coordinate lies in
/// `[0, NORM_ONE]`, the minimum maps to 0, and the maximum maps to
/// `NORM_ONE`.
pub proof fn lemma_normalize_bounds(v: int, lo: int, hi: int)
    requires
        lo <= v <= hi,
        lo < hi,
    ensures
        0 <= norm_spec(v, lo, hi) <= NORM_ONE as int,
        v == lo ==> norm_spec(v, lo, hi) == 0,
        v == hi ==> norm_spec(v, lo, hi) == NORM_ONE as int,
{
    if hi - lo < RANGE_CAP as int {
        lemma_mul_inequality(v - lo, hi - lo, NORM_ONE as int);
        lemma_div_is_ordered((v - lo) * (NORM_ONE as int), (hi - lo) * (NORM_ONE as int), hi - lo);
        lemma_div_multiples_vanish(NORM_ONE as int, hi - lo);
        assert((hi - lo) * (NORM_ONE as int) == (NORM_ONE as int) * (hi - lo));
        vstd::arithmetic::div_mod::lemma_div_pos_is_pos((v - lo) * (NORM_ONE as int), hi - lo);
        assert((v - lo) * (NORM_ONE as int) >= 0) by (nonlinear_arith)
            requires
                v >= lo,
        ;
        if v == lo {
            lemma_div_multiples_vanish(0, hi - lo);
            assert((v - lo) * (NORM_ONE as int) == (hi - lo) * 0);
        }
    }
}

/// The normalization law over a whole layout: every coordinate lies in
/// `[0, NORM_ONE]`, and on a non-degenerate axis the leaf with the least
/// aggregate maps to 0 and the leaf with the greatest to `NORM_ONE`.
pub proof fn lemma_layout_normalized(
    l: ScatterLayout,
    root: Node,
    table: Seq<Row>,
    xa: Aggregate,
    ya: Aggregate,
    i: int,
)
    requires
        layout_matches(l, root, table, xa, ya),
        0 <= i < l.items@.len(),
    ensures
        0 <= l.items@[i].x <= NORM_ONE,
        0 <= l.items@[i].y <= NORM_ONE,
        ({
            let xs = leaf_values(root, table, xa);
            xs.min() < xs.max() ==> {
                &&& (xs[i] == xs.min() ==> l.items@[i].x == 0)
                &&& (xs[i] == xs.max() ==> l.items@[i].x == NORM_ONE)
            }
        }),
        ({
            let ys = leaf_values(root, table, ya);
            ys.min() < ys.max() ==> {
                &&& (ys[i] == ys.min() ==> l.items@[i].y == 0)
                &&& (ys[i] == ys.max() ==> l.items@[i].y == NORM_ONE)
            }
        }),
{
    let xs = leaf_values(root, table, xa);
    let ys = leaf_values(root, table, ya);
    xs.min_ensures();
    xs.max_ensures();
    ys.min_ensures();
    ys.max_ensures();
    if xs.min() < xs.max() {
        lemma_normalize_bounds(xs[i], xs.min(), xs.max());
    }
    if ys.min() < ys.max() {
        lemma_normalize_bounds(ys[i], ys.min(), ys.max());
    }
}

} // verus!
