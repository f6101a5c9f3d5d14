//! Build-time lookup-table generation, modelled as a verified pipeline.
//!
//! A small domain-specific language describes one or more named integer
//! parameters, each restricted to a bounded range, together with an opaque
//! return-type fragment and an opaque body fragment:
//!
//! ```text
//! |x @ 0..8, y @ 0..=16| -> u32 { x + y }
//! ```
//!
//! The library parses and validates that description, enumerates the full
//! Cartesian product of the parameter ranges in row-major order (first
//! parameter outermost, varying slowest), fills a densely packed table with
//! one body result per combination, and answers lookups in constant time
//! with indexing that follows the declared parameter order exactly.
//!
//! The body fragment is never interpreted here: the caller supplies it as a
//! callback from the tuple of parameter values to the table's element type,
//! and the captured fragment text is carried along unchanged.
#![allow(unused_imports)]

use vstd::prelude::*;

pub mod param;
pub mod parse;
pub mod table;

use crate::parse::{parse, sp_parse, LutError};
use crate::table::{
    build_table, checked_size, flat_index, indices_in_range, may_produce, table_size,
    values_in_range, values_of, LutTable,
};

verus! {

/// The whole generation pipeline: parse and validate the source form,
/// then enumerate the full Cartesian product of the parameter ranges and
/// fill the table, one body evaluation per combination, in row-major
/// order with the first declared parameter outermost.
///
/// The body callback stands for the request's body fragment: it receives
/// the tuple of parameter values, in declared order. On success, the cell
/// for every in-range index tuple `idx` holds a result the body may
/// return for the values `lo_k + idx_k`; lookups follow through
/// [`LutTable::get`]. Parse and validation failures return the parser's
/// exact error; a table whose cell count exceeds the machine's index
/// type is refused rather than truncated.
pub fn lut<T, F: Fn(Vec<usize>) -> T>(source: &[u8], body: &F) -> (r: Result<
    LutTable<T>,
    LutError,
>)
    requires
        match sp_parse(source@) {
            Ok(m) => forall|vals: Vec<usize>|
                values_in_range(m.params, vals@) ==> call_requires(*body, (vals,)),
            Err(_) => true,
        },
    ensures
        match r {
            Ok(t) => match sp_parse(source@) {
                Ok(m) => {
                    &&& t.wf()
                    &&& t.models() == m.params
                    &&& table_size(m.params) <= usize::MAX
                    &&& forall|idx: Seq<usize>|
                        indices_in_range(m.params, idx) ==> may_produce(
                            *body,
                            values_of(m.params, idx),
                            #[trigger] t.entries@[flat_index(m.params, idx)],
                        )
                },
                Err(_) => false,
            },
            Err(e) => match sp_parse(source@) {
                Ok(m) => table_size(m.params) > usize::MAX && e == LutError::TableTooLarge,
                Err(pe) => e == pe,
            },
        },
{
    match parse(source) {
        Err(e) => Err(e),
        Ok(ls) => {
            match checked_size(&ls.params) {
                None => Err(LutError::TableTooLarge),
                Some(_) => {
                    let entries = build_table(&ls.params, body);
                    Ok(LutTable { params: ls.params, entries: entries })
                },
            }
        },
    }
}

} // verus!
