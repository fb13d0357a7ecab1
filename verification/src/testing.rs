//! Small vectors and records for tests and examples.

use vstd::prelude::*;

use crate::bits::{ONE, ZERO};
use crate::text::{decimal, push_decimal};
use crate::types::{ChunkRecord, EMBEDDING_DIM};

verus! {

/// The vector of the default width that is one at a single axis and zero elsewhere.
pub fn unit_vector(active: usize) -> (r: Vec<u32>)
    ensures
        r@ == Seq::new(
            EMBEDDING_DIM as nat,
            |i: int|
                if i == active % EMBEDDING_DIM {
                    ONE
                } else {
                    ZERO
                },
        ),
{
    let axis: usize = active % EMBEDDING_DIM;
    let mut vector: Vec<u32> = Vec::new();
    let mut i: usize = 0;
    while i < EMBEDDING_DIM
        invariant
            i <= EMBEDDING_DIM,
            axis == active % EMBEDDING_DIM,
            vector@ == Seq::new(
                i as nat,
                |j: int|
                    if j == active % EMBEDDING_DIM {
                        ONE
                    } else {
                        ZERO
                    },
            ),
        decreases EMBEDDING_DIM - i,
    {
        vector.push(
            if i == axis {
                ONE
            } else {
                ZERO
            },
        );
        i = i + 1;
        assert(vector@ =~= Seq::new(
            i as nat,
            |j: int|
                if j == active % EMBEDDING_DIM {
                    ONE
                } else {
                    ZERO
                },
        ));
    }
    vector
}

fn chunk_text(line: u64) -> (r: String)
    ensures
        r@ == "chunk at "@ + decimal(line as nat),
{
    let mut text = "chunk at ".to_owned();
    push_decimal(&mut text, line);
    text
}

/// The record of a function named `demo` that takes one line of a file.
pub fn chunk_record(file_path: &str, line: u64) -> (r: ChunkRecord)
    ensures
        r.text@ == "chunk at "@ + decimal(line as nat),
        r.kind@ == "Function"@,
        r.name matches Some(name) && name@ == "demo"@,
        r.file_path@ == file_path@,
        r.start_line == line,
        r.end_line == line,
{
    ChunkRecord {
        text: chunk_text(line),
        kind: "Function".to_owned(),
        name: Some("demo".to_owned()),
        file_path: file_path.to_owned(),
        start_line: line,
        end_line: line,
    }
}

/// The record of an unnamed item of the given kind that takes one line of a file.
pub fn chunk_record_with_kind(file_path: &str, kind: &str, line: u64) -> (r: ChunkRecord)
    ensures
        r.text@ == "chunk at "@ + decimal(line as nat),
        r.kind@ == kind@,
        r.name is None,
        r.file_path@ == file_path@,
        r.start_line == line,
        r.end_line == line,
{
    ChunkRecord {
        text: chunk_text(line),
        kind: kind.to_owned(),
        name: None,
        file_path: file_path.to_owned(),
        start_line: line,
        end_line: line,
    }
}

} // verus!
