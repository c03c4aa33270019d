//! A small tabular analytics core: typed cell values with schema inference,
//! a column-ordered data frame, hierarchical grouping of rows by successive
//! column values, sum aggregation over groups, and a min-max-normalized
//! scatter layout computed from the leaf groups.
use vstd::prelude::*;

pub mod aggregation;
pub mod data_frame;
pub mod scatter;
pub mod text;
pub mod tree;
pub mod value;

use crate::data_frame::{DataError, DataFrame};
use crate::text::{lemma_first_index_of_at, split_chars};

verus! {

/// The views of a list of owned strings.
pub open spec fn strings_view(parts: Seq<String>) -> Seq<Seq<char>> {
    parts.map_values(|p: String| p@)
}

/// The cell grid a raw text denotes: rows on line separators, cells on
/// commas.
pub open spec fn grid_of_text(s: Seq<char>) -> Seq<Seq<Seq<char>>> {
    split_chars(s, '\n').map_values(|line: Seq<char>| split_chars(line, ','))
}

/// The views of a grid of owned strings.
pub open spec fn grid_view(grid: Seq<Vec<String>>) -> Seq<Seq<Seq<char>>> {
    grid.map_values(|row: Vec<String>| strings_view(row@))
}

/// Splits `s` on every occurrence of `sep`, keeping empty parts: one part
/// when no separator occurs, one more part per separator.
pub fn split_on(s: &str, sep: char) -> (parts: Vec<String>)
    ensures
        strings_view(parts@) == split_chars(s@, sep),
{
    let n = s.unicode_len();
    let mut parts: Vec<String> = Vec::new();
    let mut start: usize = 0;
    let mut i: usize = 0;
    proof {
        assert(s@.skip(0) =~= s@);
        assert(strings_view(parts@) =~= Seq::<Seq<char>>::empty());
    }
    while i < n
        invariant
            start <= i <= n,
            n == s@.len(),
            forall|j: int| start <= j < i ==> s@[j] != sep,
            strings_view(parts@) + split_chars(s@.skip(start as int), sep) == split_chars(s@, sep),
        decreases n - i,
    {
        let c = s.get_char(i);
        if c == sep {
            let piece = s.substring_char(start, i).to_owned();
            parts.push(piece);
            proof {
                let tail = s@.skip(start as int);
                assert(forall|j: int|
                    0 <= j < tail.len() ==> #[trigger] tail[j] == s@[j + start]);
                lemma_first_index_of_at(tail, sep, i - start);
                assert(tail.take(i - start) =~= s@.subrange(start as int, i as int));
                assert(tail.skip(i - start + 1) =~= s@.skip(i + 1));
                assert(strings_view(parts@) =~= strings_view(parts@.drop_last()).push(
                    s@.subrange(start as int, i as int),
                ));
                assert(strings_view(parts@) + split_chars(s@.skip(i + 1), sep) =~= strings_view(
                    parts@.drop_last(),
                ) + split_chars(tail, sep));
            }
            start = i + 1;
        }
        i = i + 1;
    }
    let piece = s.substring_char(start, n).to_owned();
    parts.push(piece);
    proof {
        let tail = s@.skip(start as int);
        assert(forall|j: int| 0 <= j < tail.len() ==> #[trigger] tail[j] == s@[j + start]);
        lemma_first_index_of_at(tail, sep, tail.len() as int);
        assert(tail =~= s@.subrange(start as int, n as int));
        assert(split_chars(tail, sep) == seq![tail]);
        assert(strings_view(parts@) =~= strings_view(parts@.drop_last()).push(tail));
        assert(strings_view(parts@) =~= split_chars(s@, sep));
    }
    parts
}

/// Splits raw text into a grid -- rows on line separators, cells on commas --
/// and builds the fully typed frame from it.
pub fn create_data_frame(raw_data: &str, first_row_header: bool) -> (r: Result<
    DataFrame,
    DataError,
>)
    ensures
        exists|grid: Seq<Vec<String>>|
            {
                &&& #[trigger] grid_view(grid) == grid_of_text(raw_data@)
                &&& (r is Ok <==> crate::data_frame::grid_ok(grid))
                &&& match r {
                    Ok(df) => {
                        &&& crate::data_frame::frame_matches_grid(df, grid, first_row_header)
                        &&& crate::data_frame::table_wf(df)
                    },
                    Err(e) => {
                        &&& (e == DataError::TooFewRows <==> grid.len() < 2)
                        &&& (e == DataError::RaggedGrid <==> grid.len() >= 2)
                    },
                }
            },
{
    let lines = split_on(raw_data, '\n');
    let mut grid: Vec<Vec<String>> = Vec::new();
    let mut i: usize = 0;
    while i < lines.len()
        invariant
            i <= lines@.len(),
            strings_view(lines@) == split_chars(raw_data@, '\n'),
            grid@.len() == i,
            forall|k: int|
                0 <= k < i ==> strings_view((#[trigger] grid@[k])@) == split_chars(lines@[k]@, ','),
        decreases lines@.len() - i,
    {
        let cells = split_on(lines[i].as_str(), ',');
        grid.push(cells);
        i = i + 1;
    }
    proof {
        assert(grid_view(grid@) =~= grid_of_text(raw_data@));
    }
    DataFrame::new(&grid, first_row_header)
}

} // verus!
