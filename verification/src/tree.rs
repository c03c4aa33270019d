//! The grouping engine: recursively partitions a set of row handles by the
//! value a grouping field reads from each row, one hierarchy level per field.
//!
//! Rows are held by handle: indices into the row arena of the frame that owns
//! them, so the tree copies no cell data. Rows are partitioned in first-seen
//! order of their grouping value; the order of the finished siblings is no
//! part of the contract. Because `Null` equals nothing, a `Null`-valued row
//! never joins an existing partition: each such row forms its own singleton
//! partition.
use vstd::prelude::*;

use vstd::multiset::Multiset;
use vstd::seq_lib::group_to_multiset_ensures;
use vstd::seq_lib::lemma_flatten_concat;
use vstd::seq_lib::lemma_multiset_commutative;

use crate::data_frame::{Field, Row};
use crate::value::{value_eq, AnyValue};

verus! {

/// One partition of rows sharing a value at one grouping level: the value
/// that produced the partition, the handles of the rows in it, and one
/// child per distinct value observed at the next level.
#[derive(Debug)]
pub struct Node {
    pub id: AnyValue,
    pub rows: Vec<usize>,
    pub children: Vec<Node>,
}

/// The row handles collected over all leaves below `node`, leftmost leaf
/// first.
pub open spec fn leaf_handles(node: Node) -> Seq<usize>
    decreases node,
{
    if node.children@.len() == 0 {
        node.rows@
    } else {
        leaf_handles_of(node.children@)
    }
}

/// The row handles collected over all leaves of a forest, in order.
pub open spec fn leaf_handles_of(nodes: Seq<Node>) -> Seq<usize>
    decreases nodes,
{
    if nodes.len() == 0 {
        Seq::empty()
    } else {
        leaf_handles(nodes.first()) + leaf_handles_of(nodes.drop_first())
    }
}

/// The value `field` reads from the table row with handle `h`.
pub open spec fn read_at(table: Seq<Row>, field: Field, h: usize) -> AnyValue {
    table[h as int].values@[field.index as int]
}

/// Every handle points into the table.
pub open spec fn handles_ok(table: Seq<Row>, hs: Seq<usize>) -> bool {
    forall|i: int| 0 <= i < hs.len() ==> (#[trigger] hs[i] as int) < table.len()
}

/// Every listed field can be read from every table row.
pub open spec fn levels_ok(table: Seq<Row>, fields: Seq<Field>) -> bool {
    forall|l: int, r: int|
        0 <= l < fields.len() && 0 <= r < table.len() ==> (#[trigger] fields[l]).index < (
        #[trigger] table[r]).values@.len()
}

/// The row-handle lists of a forest, in sibling order.
pub open spec fn child_rows(kids: Seq<Node>) -> Seq<Seq<usize>> {
    kids.map_values(|k: Node| k.rows@)
}

/// One partition is coherent: it is nonempty, keyed by the value its first
/// row carries, and every further row's value equals that key.
pub open spec fn group_coherent(table: Seq<Row>, k: Node, field: Field) -> bool {
    &&& k.rows@.len() > 0
    &&& k.id == read_at(table, field, k.rows@[0])
    &&& forall|i: int|
        0 < i < k.rows@.len() ==> value_eq(k.id, read_at(table, field, #[trigger] k.rows@[i]))
}

/// A forest partitions a row-handle set by the value `field` reads: the
/// partitions' handles together are exactly the set, each partition is
/// coherent, and no two partition keys are equal.
pub open spec fn children_partition(
    table: Seq<Row>,
    rows: Seq<usize>,
    kids: Seq<Node>,
    field: Field,
) -> bool {
    &&& child_rows(kids).flatten().to_multiset() == rows.to_multiset()
    &&& forall|c: int| 0 <= c < kids.len() ==> group_coherent(table, #[trigger] kids[c], field)
    &&& forall|c1: int, c2: int|
        0 <= c1 < c2 < kids.len() ==> !value_eq(kids[c1].id, kids[c2].id)
}

/// The grouping invariant below `node`, with `node` at depth `d`: its rows
/// point into the table; where a grouping field remains, the children
/// partition the rows by that field and carry the invariant one level down;
/// where none remains, the node is a leaf.
pub open spec fn tree_ok(table: Seq<Row>, node: Node, fields: Seq<Field>, d: int) -> bool
    decreases node,
{
    &&& handles_ok(table, node.rows@)
    &&& if d >= fields.len() {
        node.children@.len() == 0
    } else {
        &&& children_partition(table, node.rows@, node.children@, fields[d])
        &&& forest_ok(table, node.children@, fields, d + 1)
    }
}

/// `tree_ok` over every tree of a forest.
pub open spec fn forest_ok(table: Seq<Row>, nodes: Seq<Node>, fields: Seq<Field>, d: int) -> bool
    decreases nodes,
{
    nodes.len() == 0 || (tree_ok(table, nodes.first(), fields, d) && forest_ok(
        table,
        nodes.drop_first(),
        fields,
        d,
    ))
}

/// Every leaf below `node` lies exactly `k` levels down.
pub open spec fn leaves_at_depth(node: Node, k: int) -> bool
    decreases node,
{
    if node.children@.len() == 0 {
        k == 0
    } else {
        forest_leaves_at_depth(node.children@, k - 1)
    }
}

/// `leaves_at_depth` over every tree of a forest.
pub open spec fn forest_leaves_at_depth(nodes: Seq<Node>, k: int) -> bool
    decreases nodes,
{
    nodes.len() == 0 || (leaves_at_depth(nodes.first(), k) && forest_leaves_at_depth(
        nodes.drop_first(),
        k,
    ))
}

/// Every node's row handles point into the table, through the whole tree.
pub open spec fn tree_handles_ok(table: Seq<Row>, node: Node) -> bool
    decreases node,
{
    &&& handles_ok(table, node.rows@)
    &&& forest_handles_ok(table, node.children@)
}

/// `tree_handles_ok` over every tree of a forest.
pub open spec fn forest_handles_ok(table: Seq<Row>, nodes: Seq<Node>) -> bool
    decreases nodes,
{
    nodes.len() == 0 || (tree_handles_ok(table, nodes.first()) && forest_handles_ok(
        table,
        nodes.drop_first(),
    ))
}

/// The grouping invariant keeps every handle in the table, at every level.
pub proof fn lemma_tree_ok_handles(table: Seq<Row>, node: Node, fields: Seq<Field>, d: int)
    requires
        tree_ok(table, node, fields, d),
    ensures
        tree_handles_ok(table, node),
    decreases node,
{
    if node.children@.len() > 0 {
        lemma_forest_ok_handles(table, node.children@, fields, d + 1);
    }
}

/// `lemma_tree_ok_handles` over a forest.
proof fn lemma_forest_ok_handles(table: Seq<Row>, nodes: Seq<Node>, fields: Seq<Field>, d: int)
    requires
        forest_ok(table, nodes, fields, d),
    ensures
        forest_handles_ok(table, nodes),
    decreases nodes,
{
    if nodes.len() > 0 {
        lemma_tree_ok_handles(table, nodes.first(), fields, d);
        lemma_forest_ok_handles(table, nodes.drop_first(), fields, d);
    }
}

/// Each tree of a forest with valid handles has valid handles.
pub proof fn lemma_forest_handles_index(table: Seq<Row>, nodes: Seq<Node>, c: int)
    requires
        forest_handles_ok(table, nodes),
        0 <= c < nodes.len(),
    ensures
        tree_handles_ok(table, nodes[c]),
    decreases nodes,
{
    if c > 0 {
        lemma_forest_handles_index(table, nodes.drop_first(), c - 1);
    }
}

impl Node {
    pub fn new(rows: Vec<usize>, children: Vec<Node>, id: AnyValue) -> (r: Self)
        ensures
            r.rows == rows,
            r.children == children,
            r.id == id,
    {
        Node { rows, children, id }
    }

    pub fn rows(&self) -> (r: &Vec<usize>)
        ensures
            *r == self.rows,
    {
        &self.rows
    }

    pub fn children(&self) -> (r: &Vec<Node>)
        ensures
            *r == self.children,
    {
        &self.children
    }
}

/// The index of the first group whose key equals `v`, if any. A `Null` value
/// equals no key, so it never finds a group.
fn find_group(groups: &Vec<(AnyValue, Vec<usize>)>, v: &AnyValue) -> (r: Option<usize>)
    ensures
        match r {
            Some(g) => {
                &&& 0 <= g < groups@.len()
                &&& value_eq(groups@[g as int].0, *v)
                &&& forall|k: int| 0 <= k < g ==> !value_eq((#[trigger] groups@[k]).0, *v)
            },
            None => forall|k: int|
                0 <= k < groups@.len() ==> !value_eq((#[trigger] groups@[k]).0, *v),
        },
{
    let mut g: usize = 0;
    while g < groups.len()
        invariant
            g <= groups@.len(),
            forall|k: int| 0 <= k < g ==> !value_eq((#[trigger] groups@[k]).0, *v),
        decreases groups@.len() - g,
    {
        if groups[g].0.eq(v) {
            return Some(g);
        }
        g = g + 1;
    }
    None
}

/// Replacing one inner sequence by itself with one more element inserts that
/// element into the multiset of the flattened whole.
proof fn lemma_flatten_update_push(gss: Seq<Seq<usize>>, g: int, h: usize)
    requires
        0 <= g < gss.len(),
    ensures
        gss.update(g, gss[g].push(h)).flatten().to_multiset() == gss.flatten().to_multiset()
            .insert(h),
{
    broadcast use group_to_multiset_ensures;

    let upd = gss.update(g, gss[g].push(h));
    let pre = gss.take(g);
    let mid = seq![gss[g]];
    let mid2 = seq![gss[g].push(h)];
    let post = gss.skip(g + 1);
    assert(gss =~= pre + mid + post);
    assert(upd =~= pre + mid2 + post);
    lemma_flatten_concat(pre + mid, post);
    lemma_flatten_concat(pre, mid);
    lemma_flatten_concat(pre + mid2, post);
    lemma_flatten_concat(pre, mid2);
    mid.lemma_flatten_one_element();
    mid2.lemma_flatten_one_element();
    lemma_multiset_commutative(pre.flatten() + mid.flatten(), post.flatten());
    lemma_multiset_commutative(pre.flatten(), mid.flatten());
    lemma_multiset_commutative(pre.flatten() + mid2.flatten(), post.flatten());
    lemma_multiset_commutative(pre.flatten(), mid2.flatten());
    assert(mid2.flatten().to_multiset() == mid.flatten().to_multiset().insert(h));
    assert(upd.flatten().to_multiset() =~= gss.flatten().to_multiset().insert(h));
}

/// Partitions row handles by the value `field` reads from each row, in
/// first-seen key order: a handle joins the first group whose key its value
/// equals, and one whose value equals no key -- every `Null`-valued row
/// included -- starts a new group keyed by its own value.
fn rows_with_values(table: &Vec<Row>, rows: &Vec<usize>, field: &Field) -> (groups: Vec<
    (AnyValue, Vec<usize>),
>)
    requires
        handles_ok(table@, rows@),
        forall|i: int|
            0 <= i < rows@.len() ==> field.index < table@[#[trigger] rows@[i] as int].values@.len(),
    ensures
        group_rows(groups@).flatten().to_multiset() == rows@.to_multiset(),
        forall|c: int|
            0 <= c < groups@.len() ==> pair_coherent(table@, #[trigger] groups@[c], *field),
        forall|c1: int, c2: int|
            0 <= c1 < c2 < groups@.len() ==> !value_eq(groups@[c1].0, groups@[c2].0),
        forall|c: int, i: int|
            0 <= c < groups@.len() && 0 <= i < groups@[c].1@.len() ==> rows@.contains(
                #[trigger] groups@[c].1@[i],
            ),
{
    let mut groups: Vec<(AnyValue, Vec<usize>)> = Vec::new();
    let mut i: usize = 0;
    proof {
        broadcast use group_to_multiset_ensures;

        assert(rows@.take(0) =~= Seq::<usize>::empty());
        assert(group_rows(groups@).flatten() =~= Seq::<usize>::empty());
    }
    while i < rows.len()
        invariant
            i <= rows@.len(),
            handles_ok(table@, rows@),
            forall|k: int|
                0 <= k < rows@.len() ==> field.index < table@[#[trigger] rows@[k] as int]
                    .values@.len(),
            group_rows(groups@).flatten().to_multiset() == rows@.take(i as int).to_multiset(),
            forall|c: int|
                0 <= c < groups@.len() ==> pair_coherent(table@, #[trigger] groups@[c], *field),
            forall|c1: int, c2: int|
                0 <= c1 < c2 < groups@.len() ==> !value_eq(groups@[c1].0, groups@[c2].0),
            forall|c: int, k: int|
                0 <= c < groups@.len() && 0 <= k < groups@[c].1@.len() ==> rows@.contains(
                    #[trigger] groups@[c].1@[k],
                ),
        decreases rows@.len() - i,
    {
        let h = rows[i];
        let v = field.read(&table[h]);
        let ghost pre_groups = groups@;
        match find_group(&groups, v) {
            Some(g) => {
                groups[g].1.push(h);
                proof {
                    broadcast use group_to_multiset_ensures;

                    assert(groups@ =~= pre_groups.update(
                        g as int,
                        (pre_groups[g as int].0, groups@[g as int].1),
                    ));
                    assert(group_rows(groups@) =~= group_rows(pre_groups).update(
                        g as int,
                        group_rows(pre_groups)[g as int].push(h),
                    ));
                    lemma_flatten_update_push(group_rows(pre_groups), g as int, h);
                    assert(rows@.take(i + 1) =~= rows@.take(i as int).push(h));
                    assert(pair_coherent(table@, groups@[g as int], *field)) by {
                        assert(groups@[g as int].1@ == pre_groups[g as int].1@.push(h));
                        assert(value_eq(groups@[g as int].0, read_at(table@, *field, h)));
                    }
                    assert(rows@.contains(h)) by {
                        assert(rows@[i as int] == h);
                    }
                }
            },
            None => {
                let key = v.clone();
                let mut single: Vec<usize> = Vec::new();
                single.push(h);
                groups.push((key, single));
                proof {
                    broadcast use group_to_multiset_ensures;

                    assert(group_rows(groups@) =~= group_rows(pre_groups).push(
                        groups@[groups@.len() - 1].1@,
                    ));
                    group_rows(pre_groups).lemma_flatten_push(groups@[groups@.len() - 1].1@);
                    assert(groups@[groups@.len() - 1].1@ =~= Seq::<usize>::empty().push(h));
                    lemma_multiset_commutative(
                        group_rows(pre_groups).flatten(),
                        groups@[groups@.len() - 1].1@,
                    );
                    assert(groups@[groups@.len() - 1].1@.to_multiset() == Multiset::<
                        usize,
                    >::empty().insert(h));
                    assert(group_rows(groups@).flatten().to_multiset() =~= group_rows(
                        pre_groups,
                    ).flatten().to_multiset().insert(h));
                    assert(rows@.take(i + 1) =~= rows@.take(i as int).push(h));
                    assert(rows@.contains(h)) by {
                        assert(rows@[i as int] == h);
                    }
                }
            },
        }
        i = i + 1;
    }
    proof {
        assert(rows@.take(rows@.len() as int) =~= rows@);
    }
    groups
}

/// The row-handle lists of a group list, in order.
pub open spec fn group_rows(groups: Seq<(AnyValue, Vec<usize>)>) -> Seq<Seq<usize>> {
    groups.map_values(|g: (AnyValue, Vec<usize>)| g.1@)
}

/// `group_coherent`, stated on a key/handle pair.
pub open spec fn pair_coherent(table: Seq<Row>, g: (AnyValue, Vec<usize>), field: Field) -> bool {
    &&& g.1@.len() > 0
    &&& g.0 == read_at(table, field, g.1@[0])
    &&& forall|i: int|
        0 < i < g.1@.len() ==> value_eq(g.0, read_at(table, field, #[trigger] g.1@[i]))
}

/// Value equality does not depend on the order of its arguments.
proof fn lemma_value_eq_sym(a: AnyValue, b: AnyValue)
    ensures
        value_eq(a, b) == value_eq(b, a),
{
}

/// A forest each of whose trees carries the grouping invariant carries it as
/// a whole.
proof fn lemma_forest_ok_from_all(table: Seq<Row>, nodes: Seq<Node>, fields: Seq<Field>, d: int)
    requires
        forall|j: int| 0 <= j < nodes.len() ==> tree_ok(table, #[trigger] nodes[j], fields, d),
    ensures
        forest_ok(table, nodes, fields, d),
    decreases nodes.len(),
{
    if nodes.len() > 0 {
        assert(forall|j: int|
            0 <= j < nodes.drop_first().len() ==> #[trigger] nodes.drop_first()[j] == nodes[j
                + 1]);
        lemma_forest_ok_from_all(table, nodes.drop_first(), fields, d);
    }
}

/// Builds the partitions of `rows` at `depth` and, below each partition, the
/// sub-hierarchy for the remaining grouping fields.
fn create_tree_rec(table: &Vec<Row>, rows: &Vec<usize>, levels: &Vec<Field>, depth: usize) -> (kids:
    Vec<Node>)
    requires
        depth <= levels@.len(),
        handles_ok(table@, rows@),
        levels_ok(table@, levels@),
    ensures
        depth == levels@.len() ==> kids@.len() == 0,
        depth < levels@.len() ==> children_partition(table@, rows@, kids@, levels@[depth as int])
            && forest_ok(table@, kids@, levels@, depth as int + 1),
    decreases levels@.len() - depth,
{
    if depth == levels.len() {
        return Vec::new();
    }
    let level = &levels[depth];
    let mut groups = rows_with_values(table, rows, level);
    let ghost all_groups = groups@;
    let mut kids: Vec<Node> = Vec::new();
    let nlevels = levels.len();
    proof {
        broadcast use vstd::multiset::group_multiset_axioms;
        broadcast use group_to_multiset_ensures;
        broadcast use vstd::multiset::lemma_multiset_empty_len;

        assert(child_rows(kids@) =~= Seq::<Seq<usize>>::empty());
        assert(child_rows(kids@).flatten() =~= Seq::<usize>::empty());
        assert(child_rows(kids@).flatten().to_multiset().len() == 0);
        assert(group_rows(groups@).flatten().to_multiset().add(
            child_rows(kids@).flatten().to_multiset(),
        ) =~= rows@.to_multiset());
    }
    while groups.len() > 0
        invariant
            depth < nlevels,
            nlevels == levels@.len(),
            handles_ok(table@, rows@),
            levels_ok(table@, levels@),
            group_rows(groups@).flatten().to_multiset().add(
                child_rows(kids@).flatten().to_multiset(),
            ) == rows@.to_multiset(),
            forall|c: int|
                0 <= c < groups@.len() ==> pair_coherent(
                    table@,
                    #[trigger] groups@[c],
                    levels@[depth as int],
                ),
            forall|c1: int, c2: int|
                0 <= c1 < c2 < groups@.len() ==> !value_eq(groups@[c1].0, groups@[c2].0),
            forall|c: int, k: int|
                0 <= c < groups@.len() && 0 <= k < groups@[c].1@.len() ==> rows@.contains(
                    #[trigger] groups@[c].1@[k],
                ),
            forall|j: int|
                0 <= j < kids@.len() ==> group_coherent(
                    table@,
                    #[trigger] kids@[j],
                    levels@[depth as int],
                ),
            forall|j: int|
                0 <= j < kids@.len() ==> tree_ok(
                    table@,
                    #[trigger] kids@[j],
                    levels@,
                    depth as int + 1,
                ),
            forall|j1: int, j2: int|
                0 <= j1 < j2 < kids@.len() ==> !value_eq(kids@[j1].id, kids@[j2].id),
            forall|c: int, j: int|
                0 <= c < groups@.len() && 0 <= j < kids@.len() ==> !value_eq(
                    (#[trigger] groups@[c]).0,
                    (#[trigger] kids@[j]).id,
                ),
        decreases groups@.len(),
    {
        let ghost pre_groups = groups@;
        let ghost pre_kids = kids@;
        let pair = groups.pop().unwrap();
        let (val, grows) = pair;
        let ghost last = pre_groups.len() - 1;
        proof {
            assert(handles_ok(table@, grows@)) by {
                assert forall|k: int| 0 <= k < grows@.len() implies (#[trigger] grows@[k] as int)
                    < table@.len() by {
                    assert(rows@.contains(pre_groups[last].1@[k]));
                    let idx = choose|idx: int|
                        0 <= idx < rows@.len() && rows@[idx] == pre_groups[last].1@[k];
                    assert((rows@[idx] as int) < table@.len());
                }
            }
        }
        let children = create_tree_rec(table, &grows, levels, depth + 1);
        kids.push(Node::new(grows, children, val));
        proof {
            broadcast use vstd::multiset::group_multiset_axioms;

            let g_old = group_rows(pre_groups);
            let g_new = group_rows(groups@);
            let k_old = child_rows(pre_kids);
            let k_new = child_rows(kids@);
            let grows_seq = kids@[kids@.len() - 1].rows@;
            assert(g_old =~= g_new.push(grows_seq));
            g_new.lemma_flatten_push(grows_seq);
            lemma_multiset_commutative(g_new.flatten(), grows_seq);
            assert(k_new =~= k_old.push(grows_seq));
            k_old.lemma_flatten_push(grows_seq);
            lemma_multiset_commutative(k_old.flatten(), grows_seq);
            assert(g_new.flatten().to_multiset().add(k_new.flatten().to_multiset())
                =~= g_old.flatten().to_multiset().add(k_old.flatten().to_multiset()));
            // the new child's key differs from every older child's key
            assert forall|j: int| 0 <= j < pre_kids.len() implies !value_eq(
                kids@[kids@.len() - 1].id,
                (#[trigger] kids@[j]).id,
            ) by {
                lemma_value_eq_sym(kids@[j].id, kids@[kids@.len() - 1].id);
                assert(!value_eq(pre_groups[last].0, pre_kids[j].id));
            }
            // and from every remaining group's key
            assert forall|c: int| 0 <= c < groups@.len() implies !value_eq(
                groups@[c].0,
                kids@[kids@.len() - 1].id,
            ) by {
                assert(!value_eq(pre_groups[c].0, pre_groups[last].0));
            }
        }
    }
    proof {
        broadcast use vstd::multiset::group_multiset_axioms;
        broadcast use group_to_multiset_ensures;
        broadcast use vstd::multiset::lemma_multiset_empty_len;

        assert(group_rows(groups@) =~= Seq::<Seq<usize>>::empty());
        assert(group_rows(groups@).flatten() =~= Seq::<usize>::empty());
        assert(group_rows(groups@).flatten().to_multiset().len() == 0);
        assert(child_rows(kids@).flatten().to_multiset() =~= rows@.to_multiset());
        lemma_forest_ok_from_all(table@, kids@, levels@, depth as int + 1);
    }
    kids
}

/// Builds the grouping hierarchy over the given row handles: the root holds
/// them all under the sentinel `Null`, and each level partitions its rows by
/// the next grouping field.
pub fn create_tree(row_pointers: Vec<usize>, levels: &Vec<Field>, table: &Vec<Row>) -> (r: Node)
    requires
        handles_ok(table@, row_pointers@),
        levels_ok(table@, levels@),
    ensures
        r.id == AnyValue::Null,
        r.rows@ == row_pointers@,
        tree_ok(table@, r, levels@, 0),
{
    let root_children = create_tree_rec(table, &row_pointers, levels, 0);
    Node::new(row_pointers, root_children, AnyValue::Null)
}

/// Over a tree with the grouping invariant, the leaves' row sets together
/// are exactly the node's own row set: no row is lost or duplicated.
pub proof fn lemma_leaves_cover_node(table: Seq<Row>, node: Node, fields: Seq<Field>, d: int)
    requires
        tree_ok(table, node, fields, d),
    ensures
        leaf_handles(node).to_multiset() == node.rows@.to_multiset(),
    decreases node,
{
    if node.children@.len() == 0 {
    } else {
        assert(d < fields.len());
        lemma_forest_leaves_cover(table, node.children@, fields, d + 1);
    }
}

/// `lemma_leaves_cover_node` over a forest: leaf handles and own row handles
/// agree as multisets.
proof fn lemma_forest_leaves_cover(table: Seq<Row>, nodes: Seq<Node>, fields: Seq<Field>, d: int)
    requires
        forest_ok(table, nodes, fields, d),
    ensures
        leaf_handles_of(nodes).to_multiset() == child_rows(nodes).flatten().to_multiset(),
    decreases nodes,
{
    broadcast use vstd::multiset::group_multiset_axioms;

    if nodes.len() == 0 {
        assert(child_rows(nodes) =~= Seq::<Seq<usize>>::empty());
    } else {
        lemma_leaves_cover_node(table, nodes.first(), fields, d);
        lemma_forest_leaves_cover(table, nodes.drop_first(), fields, d);
        assert(child_rows(nodes) =~= seq![nodes.first().rows@] + child_rows(nodes.drop_first()));
        lemma_flatten_concat(seq![nodes.first().rows@], child_rows(nodes.drop_first()));
        seq![nodes.first().rows@].lemma_flatten_one_element();
        lemma_multiset_commutative(
            nodes.first().rows@,
            child_rows(nodes.drop_first()).flatten(),
        );
        lemma_multiset_commutative(
            leaf_handles(nodes.first()),
            leaf_handles_of(nodes.drop_first()),
        );
    }
}

/// Below a node with the grouping invariant and a nonempty row set, every
/// leaf lies exactly one level per remaining grouping field down.
pub proof fn lemma_leaf_depth(table: Seq<Row>, node: Node, fields: Seq<Field>, d: int)
    requires
        tree_ok(table, node, fields, d),
        node.rows@.len() > 0,
        0 <= d <= fields.len(),
    ensures
        leaves_at_depth(node, fields.len() - d),
    decreases node,
{
    broadcast use vstd::seq_lib::group_to_multiset_ensures;

    if d == fields.len() {
        assert(node.children@.len() == 0);
    } else {
        if node.children@.len() == 0 {
            assert(child_rows(node.children@) =~= Seq::<Seq<usize>>::empty());
            assert(node.rows@.to_multiset().len() == node.rows@.len());
            assert(false);
        }
        lemma_forest_leaf_depth(table, node.children@, fields, d + 1);
    }
}

/// `lemma_leaf_depth` over a forest of coherent (hence nonempty) partitions.
proof fn lemma_forest_leaf_depth(table: Seq<Row>, nodes: Seq<Node>, fields: Seq<Field>, d: int)
    requires
        forest_ok(table, nodes, fields, d),
        forall|j: int| 0 <= j < nodes.len() ==> (#[trigger] nodes[j]).rows@.len() > 0,
        0 <= d <= fields.len(),
    ensures
        forest_leaves_at_depth(nodes, fields.len() - d),
    decreases nodes,
{
    if nodes.len() > 0 {
        lemma_leaf_depth(table, nodes.first(), fields, d);
        assert(forall|j: int|
            0 <= j < nodes.drop_first().len() ==> #[trigger] nodes.drop_first()[j] == nodes[j
                + 1]);
        lemma_forest_leaf_depth(table, nodes.drop_first(), fields, d);
    }
}

} // verus!
