//! The aggregation engine: reduces a group's rows to one numeric value.
//!
//! The one built-in kind sums the bound field over a group's rows, counting
//! each `Number`'s fixed-point mantissa and silently skipping text and null
//! cells. Sums are carried in a wide accumulator, so they are exact for any
//! row count a vector can hold.
use vstd::prelude::*;

use crate::data_frame::{Field, Row};
use crate::tree::{read_at, Node};
use crate::value::AnyValue;

verus! {

/// Every handle points into the table and `field` can be read from its row.
pub open spec fn reads_ok(table: Seq<Row>, hs: Seq<usize>, field: Field) -> bool {
    forall|i: int|
        0 <= i < hs.len() ==> {
            &&& (#[trigger] hs[i] as int) < table.len()
            &&& field.index < table[hs[i] as int].values@.len()
        }
}

/// The numeric contribution of the value `field` reads from the row with
/// handle `h`: its mantissa for a number, zero for text and null.
pub open spec fn num_at(table: Seq<Row>, field: Field, h: usize) -> int {
    match read_at(table, field, h) {
        AnyValue::Number(m) => m as int,
        _ => 0,
    }
}

/// The sum of the numeric contributions of `field` over the handles `hs`.
pub open spec fn sum_at(table: Seq<Row>, field: Field, hs: Seq<usize>) -> int
    decreases hs.len(),
{
    if hs.len() == 0 {
        0
    } else {
        sum_at(table, field, hs.drop_last()) + num_at(table, field, hs.last())
    }
}

/// Sums one field over a group's rows.
pub struct SumAggregate {
    pub field: Field,
}

/// A reduction strategy bound to one field: a closed set of kinds, matched
/// exhaustively, with `Sum` the one built-in.
pub enum Aggregate {
    Sum(SumAggregate),
}

/// The field an aggregate is bound to.
pub open spec fn aggregate_field(agg: Aggregate) -> Field {
    match agg {
        Aggregate::Sum(s) => s.field,
    }
}

/// The value an aggregate computes over a node's rows.
pub open spec fn aggregate_spec(agg: Aggregate, table: Seq<Row>, node: Node) -> int {
    match agg {
        Aggregate::Sum(s) => sum_at(table, s.field, node.rows@),
    }
}

impl SumAggregate {
    pub fn new(field: &Field) -> (r: Self)
        ensures
            r.field == *field,
    {
        SumAggregate { field: field.clone() }
    }

    /// The sum of the bound field over the node's rows: exactly the
    /// arithmetic sum of the `Number` values in that field's column across
    /// those rows, text and null cells contributing nothing.
    pub fn aggregate(&self, root: &Node, table: &Vec<Row>) -> (r: i128)
        requires
            reads_ok(table@, root.rows@, self.field),
        ensures
            r as int == sum_at(table@, self.field, root.rows@),
    {
        let hs = &root.rows;
        let mut sum: i128 = 0;
        let mut i: usize = 0;
        proof {
            assert(hs@.take(0) =~= Seq::<usize>::empty());
        }
        while i < hs.len()
            invariant
                i <= hs@.len(),
                reads_ok(table@, hs@, self.field),
                sum as int == sum_at(table@, self.field, hs@.take(i as int)),
                -(i as int) * 0x8000_0000_0000_0000 <= sum as int,
                sum as int <= (i as int) * 0x7fff_ffff_ffff_ffff,
            decreases hs@.len() - i,
        {
            let h = hs[i];
            let v = self.field.read(&table[h]);
            proof {
                assert((i + 1) as int * 0x8000_0000_0000_0000 <= 0x1_0000_0000_0000_0000int
                    * 0x8000_0000_0000_0000) by (nonlinear_arith)
                    requires
                        i + 1 <= 0x1_0000_0000_0000_0000,
                ;
                assert((i + 1) as int * 0x7fff_ffff_ffff_ffff <= 0x1_0000_0000_0000_0000int
                    * 0x7fff_ffff_ffff_ffff) by (nonlinear_arith)
                    requires
                        i + 1 <= 0x1_0000_0000_0000_0000,
                ;
                assert((i + 1) as int * 0x8000_0000_0000_0000 == (i as int) * 0x8000_0000_0000_0000
                    + 0x8000_0000_0000_0000) by (nonlinear_arith);
                assert((i + 1) as int * 0x7fff_ffff_ffff_ffff == (i as int) * 0x7fff_ffff_ffff_ffff
                    + 0x7fff_ffff_ffff_ffff) by (nonlinear_arith);
            }
            match v {
                AnyValue::Number(m) => {
                    sum = sum + (*m as i128);
                },
                _ => (),
            }
            proof {
                assert(hs@.take(i + 1) =~= hs@.take(i as int).push(hs@[i as int]));
                assert(hs@.take(i + 1).drop_last() =~= hs@.take(i as int));
            }
            i = i + 1;
        }
        proof {
            assert(hs@.take(hs@.len() as int) =~= hs@);
        }
        sum
    }
}

impl Aggregate {
    /// Dispatches to the bound reducer and evaluates it over the node's rows.
    pub fn get_value(&self, node: &Node, table: &Vec<Row>) -> (r: i128)
        requires
            reads_ok(table@, node.rows@, aggregate_field(*self)),
        ensures
            r as int == aggregate_spec(*self, table@, *node),
    {
        match self {
            Aggregate::Sum(sum_agg) => sum_agg.aggregate(node, table),
        }
    }
}

} // verus!
