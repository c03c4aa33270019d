//! The tabular store: rows of typed cell values under an inferred schema.
//!
//! A frame is built from a rectangular grid of raw text cells. Column names
//! come from the first physical row, column types are inferred from the
//! second physical row, and every cell becomes the value its own text infers
//! to, so a mixed column can hold values off its declared type.
use vstd::prelude::*;

use crate::value::{data_type_of_text, is_value_of_text, AnyValue, DataType};

verus! {

/// Caller misuse surfaced as an explicit error.
#[derive(Clone, Copy, Debug, PartialEq, Eq, Structural)]
pub enum DataError {
    /// The grid has fewer than the two rows inference needs.
    TooFewRows,
    /// Some row differs in width from the first.
    RaggedGrid,
    /// A requested column name matches no field.
    UnknownField,
}

/// A fixed-width ordered sequence of typed cell values.
#[derive(Debug)]
pub struct Row {
    pub values: Vec<AnyValue>,
}

/// True when `row` holds exactly the values inferred from `cells`.
pub open spec fn row_matches_cells(row: Row, cells: Vec<String>) -> bool {
    &&& row.values@.len() == cells@.len()
    &&& forall|j: int|
        0 <= j < cells@.len() ==> is_value_of_text(#[trigger] row.values@[j], cells@[j]@)
}

impl Row {
    pub fn new(values: Vec<AnyValue>) -> (r: Self)
        ensures
            r.values == values,
    {
        Row { values }
    }

    /// The value at column `i`. Reading past the row width is caller misuse
    /// and ruled out up front.
    pub fn value(&self, i: usize) -> (r: &AnyValue)
        requires
            i < self.values@.len(),
        ensures
            *r == self.values@[i as int],
    {
        &self.values[i]
    }

    /// Builds a row by inferring one value per raw cell.
    pub fn from_cells(cells: &Vec<String>) -> (r: Row)
        ensures
            row_matches_cells(r, *cells),
    {
        let mut values: Vec<AnyValue> = Vec::new();
        let mut j: usize = 0;
        while j < cells.len()
            invariant
                j <= cells@.len(),
                values@.len() == j,
                forall|k: int|
                    0 <= k < j ==> is_value_of_text(#[trigger] values@[k], cells@[k]@),
            decreases cells@.len() - j,
        {
            values.push(AnyValue::from(cells[j].as_str()));
            j = j + 1;
        }
        Row { values }
    }
}

/// Column metadata: name, inferred type, and position in each row.
#[derive(Debug)]
pub struct Field {
    pub name: String,
    pub data_type: DataType,
    pub index: usize,
}

impl Clone for Field {
    fn clone(&self) -> (r: Self)
        ensures
            r == *self,
    {
        Field { name: self.name.clone(), data_type: self.data_type, index: self.index }
    }
}

impl Field {
    pub fn new(name: &str, data_type: DataType, index: usize) -> (r: Self)
        ensures
            r.name@ == name@,
            r.data_type == data_type,
            r.index == index,
    {
        Field { name: name.to_owned(), data_type, index }
    }

    pub fn name(&self) -> (r: &String)
        ensures
            *r == self.name,
    {
        &self.name
    }

    pub fn data_type(&self) -> (r: &DataType)
        ensures
            *r == self.data_type,
    {
        &self.data_type
    }

    /// The single sanctioned accessor coupling a field's position to a row's
    /// storage: reading the same field from the same row always yields the
    /// same value, `row.values[self.index]`.
    pub fn read<'s>(&self, row: &'s Row) -> (r: &'s AnyValue)
        requires
            self.index < row.values@.len(),
        ensures
            *r == row.values@[self.index as int],
    {
        row.value(self.index)
    }
}

/// Some field of the list carries this name.
pub open spec fn has_field_named(fields: Seq<Field>, name: Seq<char>) -> bool {
    exists|j: int| 0 <= j < fields.len() && (#[trigger] fields[j]).name@ == name
}

/// `f` is the first field of the list carrying this name.
pub open spec fn is_first_field_named(fields: Seq<Field>, f: Field, name: Seq<char>) -> bool {
    exists|j: int|
        {
            &&& 0 <= j < fields.len()
            &&& #[trigger] fields[j] == f
            &&& fields[j].name@ == name
            &&& forall|k: int| 0 <= k < j ==> fields[k].name@ != name
        }
}

/// An ordered sequence of fields describing a frame's columns.
#[derive(Debug)]
pub struct Schema {
    pub fields: Vec<Field>,
}

impl Schema {
    pub fn new(fields: Vec<Field>) -> (r: Self)
        ensures
            r.fields == fields,
    {
        Schema { fields }
    }

    pub fn fields(&self) -> (r: &Vec<Field>)
        ensures
            *r == self.fields,
    {
        &self.fields
    }

    pub fn get_field(&self, i: usize) -> (r: Option<&Field>)
        ensures
            match r {
                Some(f) => i < self.fields@.len() && *f == self.fields@[i as int],
                None => i >= self.fields@.len(),
            },
    {
        if i < self.fields.len() {
            Some(&self.fields[i])
        } else {
            None
        }
    }

    /// The first field whose name matches, or none. Names carry no
    /// uniqueness guarantee, so the first match wins.
    pub fn get_field_by_name(&self, name: &String) -> (r: Option<&Field>)
        ensures
            match r {
                Some(f) => is_first_field_named(self.fields@, *f, name@),
                None => !has_field_named(self.fields@, name@),
            },
    {
        let mut j: usize = 0;
        while j < self.fields.len()
            invariant
                j <= self.fields@.len(),
                forall|k: int|
                    0 <= k < j ==> (#[trigger] self.fields@[k]).name@ != name@,
            decreases self.fields@.len() - j,
        {
            if self.fields[j].name.eq(name) {
                return Some(&self.fields[j]);
            }
            j = j + 1;
        }
        None
    }

    /// Infers a schema from a raw grid: names from the first physical row,
    /// types from the second. The second row must not be wider than the
    /// first, or there would be no name to pair with a column.
    pub fn from_grid(data: &Vec<Vec<String>>) -> (r: Schema)
        requires
            data@.len() >= 2,
            data@[1]@.len() <= data@[0]@.len(),
        ensures
            r.fields@.len() == data@[1]@.len(),
            forall|j: int|
                0 <= j < r.fields@.len() ==> {
                    &&& (#[trigger] r.fields@[j]).name@ == data@[0]@[j]@
                    &&& r.fields@[j].data_type == data_type_of_text(data@[1]@[j]@)
                    &&& r.fields@[j].index == j
                },
    {
        let width = data[1].len();
        let mut fields: Vec<Field> = Vec::new();
        let mut j: usize = 0;
        while j < width
            invariant
                j <= width,
                width == data@[1]@.len(),
                data@.len() >= 2,
                width <= data@[0]@.len(),
                fields@.len() == j,
                forall|k: int|
                    0 <= k < j ==> {
                        &&& (#[trigger] fields@[k]).name@ == data@[0]@[k]@
                        &&& fields@[k].data_type == data_type_of_text(data@[1]@[k]@)
                        &&& fields@[k].index == k
                    },
            decreases width - j,
        {
            let name = &data[0][j];
            let dt = DataType::from(data[1][j].as_str());
            fields.push(Field::new(name.as_str(), dt, j));
            j = j + 1;
        }
        Schema { fields }
    }
}

/// The tabular store: a schema and the rows it describes.
#[derive(Debug)]
pub struct DataFrame {
    pub schema: Schema,
    pub rows: Vec<Row>,
}

/// True when the raw grid is rectangular and has the two rows that
/// inference needs.
pub open spec fn grid_ok(data: Seq<Vec<String>>) -> bool {
    &&& data.len() >= 2
    &&& forall|i: int| 0 <= i < data.len() ==> (#[trigger] data[i])@.len() == data[0]@.len()
}

/// Every row is exactly as wide as the schema, and each field sits at its
/// own column position.
pub open spec fn table_wf(df: DataFrame) -> bool {
    &&& forall|i: int|
        0 <= i < df.rows@.len() ==> (#[trigger] df.rows@[i]).values@.len()
            == df.schema.fields@.len()
    &&& forall|j: int|
        0 <= j < df.schema.fields@.len() ==> (#[trigger] df.schema.fields@[j]).index == j
}

/// True when `df` is the frame inferred from the raw grid `data`.
pub open spec fn frame_matches_grid(
    df: DataFrame,
    data: Seq<Vec<String>>,
    first_row_header: bool,
) -> bool {
    let skip: int = if first_row_header {
        1
    } else {
        0
    };
    &&& df.schema.fields@.len() == data[1]@.len()
    &&& forall|j: int|
        0 <= j < df.schema.fields@.len() ==> {
            &&& (#[trigger] df.schema.fields@[j]).name@ == data[0]@[j]@
            &&& df.schema.fields@[j].data_type == data_type_of_text(data[1]@[j]@)
            &&& df.schema.fields@[j].index == j
        }
    &&& df.rows@.len() == data.len() - skip
    &&& forall|i: int|
        0 <= i < df.rows@.len() ==> row_matches_cells(#[trigger] df.rows@[i], data[i + skip])
}

impl DataFrame {
    /// Builds a frame from a raw grid of text cells, inferring the schema
    /// and every cell value. A grid that is too small or ragged is rejected.
    pub fn new(data: &Vec<Vec<String>>, first_row_header: bool) -> (r: Result<
        DataFrame,
        DataError,
    >)
        ensures
            r is Ok <==> grid_ok(data@),
            match r {
                Ok(df) => {
                    &&& frame_matches_grid(df, data@, first_row_header)
                    &&& table_wf(df)
                },
                Err(e) => {
                    &&& (e == DataError::TooFewRows <==> data@.len() < 2)
                    &&& (e == DataError::RaggedGrid <==> data@.len() >= 2)
                },
            },
    {
        if data.len() < 2 {
            return Err(DataError::TooFewRows);
        }
        let width = data[0].len();
        let mut i: usize = 0;
        while i < data.len()
            invariant
                i <= data@.len(),
                data@.len() >= 2,
                width == data@[0]@.len(),
                forall|k: int| 0 <= k < i ==> (#[trigger] data@[k])@.len() == width,
            decreases data@.len() - i,
        {
            if data[i].len() != width {
                return Err(DataError::RaggedGrid);
            }
            i = i + 1;
        }
        let schema = Schema::from_grid(data);
        let skip: usize = if first_row_header {
            1
        } else {
            0
        };
        let mut rows: Vec<Row> = Vec::new();
        let mut i: usize = skip;
        while i < data.len()
            invariant
                skip <= i <= data@.len(),
                skip == if first_row_header {
                    1int
                } else {
                    0int
                },
                data@.len() >= 2,
                rows@.len() == i - skip,
                forall|k: int|
                    0 <= k < rows@.len() ==> row_matches_cells(
                        #[trigger] rows@[k],
                        data@[k + skip],
                    ),
            decreases data@.len() - i,
        {
            rows.push(Row::from_cells(&data[i]));
            i = i + 1;
        }
        Ok(DataFrame { schema, rows })
    }

    pub fn schema(&self) -> (r: &Schema)
        ensures
            *r == self.schema,
    {
        &self.schema
    }

    /// The rows, in order.
    pub fn rows(&self) -> (r: &Vec<Row>)
        ensures
            *r == self.rows,
    {
        &self.rows
    }

    /// Handles to every row, in order: indices into this frame's row arena.
    pub fn row_pointers(&self) -> (r: Vec<usize>)
        ensures
            r@.len() == self.rows@.len(),
            forall|i: int| 0 <= i < r@.len() ==> #[trigger] r@[i] == i,
    {
        let mut out: Vec<usize> = Vec::new();
        let mut i: usize = 0;
        while i < self.rows.len()
            invariant
                i <= self.rows@.len(),
                out@.len() == i,
                forall|k: int| 0 <= k < i ==> #[trigger] out@[k] == k,
            decreases self.rows@.len() - i,
        {
            out.push(i);
            i = i + 1;
        }
        out
    }
}

/// Round-trip: in a frame built from a grid, the value at any field's
/// position in any row is exactly the value inferred from the original
/// cell's text, so reading it back reproduces the inferred cell value.
pub proof fn lemma_frame_round_trip(
    df: DataFrame,
    data: Seq<Vec<String>>,
    first_row_header: bool,
    i: int,
    j: int,
)
    requires
        frame_matches_grid(df, data, first_row_header),
        table_wf(df),
        0 <= i < df.rows@.len(),
        0 <= j < df.schema.fields@.len(),
    ensures
        ({
            let skip: int = if first_row_header {
                1
            } else {
                0
            };
            is_value_of_text(
                df.rows@[i].values@[df.schema.fields@[j].index as int],
                data[i + skip]@[j]@,
            )
        }),
{
    let skip: int = if first_row_header {
        1
    } else {
        0
    };
    assert(row_matches_cells(df.rows@[i], data[i + skip]));
    assert(df.schema.fields@[j].index == j);
}

} // verus!
