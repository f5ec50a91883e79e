//! The split plan: one output file per batch.
//!
//! A plan lists, for every batch, the file's name and its exact byte
//! content. The chunked plan built here is what the parallel strategy
//! writes, one worker per file; the sequential strategy emits the same
//! files one at a time through `SequentialSplitter`.

use crate::batch::make_batches;
use crate::batch::spec_batch;
use crate::batch::spec_num_batches;
use crate::filename::get_basename;
use crate::filename::get_filename;
use crate::filename::spec_basename;
use crate::filename::spec_filename;
use crate::render::render_file;
use crate::render::spec_content;
use vstd::prelude::*;

verus! {

/// One planned output file: where it goes and exactly what it holds.
pub struct OutputFile {
    /// The file's name: `{dir}/{base}-{batch}.csv`, batch indices starting
    /// at 1.
    pub name: Vec<u8>,
    /// The file's full byte content: header line, then the batch's
    /// records, each line-feed terminated.
    pub content: Vec<u8>,
}

/// The name of the output file for 0-based batch `i`: batch indices in
/// names are 1-based.
pub open spec fn spec_output_name(dir: Seq<u8>, base: Seq<u8>, i: int) -> Seq<u8> {
    spec_filename(dir, base, (i + 1) as nat)
}

/// The content of the output file for 0-based batch `i`.
pub open spec fn spec_output_content(header: Seq<u8>, rs: Seq<Seq<u8>>, m: int, i: int) -> Seq<
    u8,
> {
    spec_content(header, spec_batch(rs, m, i))
}

/// Plans the whole split: batch `i` of `records` becomes one file named
/// `{output_dir}/{basename(path)}-{i+1}.csv` holding the header line and
/// that batch's records. Zero records give an empty plan.
pub fn split_plan(
    path: &Vec<u8>,
    output_dir: &Vec<u8>,
    header: &Vec<u8>,
    records: &Vec<Vec<u8>>,
    max_rows: usize,
) -> (plan: Vec<OutputFile>)
    requires
        max_rows >= 1,
    ensures
        plan@.len() == spec_num_batches(records.deep_view().len() as int, max_rows as int),
        forall|i: int|
            0 <= i < plan@.len() ==> (#[trigger] plan@[i]).name@ == spec_output_name(
                output_dir@,
                spec_basename(path@),
                i,
            ),
        forall|i: int|
            0 <= i < plan@.len() ==> (#[trigger] plan@[i]).content@ == spec_output_content(
                header@,
                records.deep_view(),
                max_rows as int,
                i,
            ),
{
    let ghost rs = records.deep_view();
    let ghost m = max_rows as int;
    let base: Vec<u8> = get_basename(path);
    let batches: Vec<Vec<Vec<u8>>> = make_batches(records, max_rows);
    let mut plan: Vec<OutputFile> = Vec::new();
    let mut i: usize = 0;
    proof {
        crate::batch::lemma_num_batches(rs.len() as int, m);
        assert(batches.deep_view().len() == batches@.len());
    }
    while i < batches.len()
        invariant
            i <= batches@.len(),
            base@ == spec_basename(path@),
            batches.deep_view() == crate::batch::spec_batches(rs, m),
            batches@.len() == spec_num_batches(rs.len() as int, m),
            plan@.len() == i,
            forall|k: int|
                0 <= k < i as int ==> (#[trigger] plan@[k]).name@ == spec_output_name(
                    output_dir@,
                    spec_basename(path@),
                    k,
                ),
            forall|k: int|
                0 <= k < i as int ==> (#[trigger] plan@[k]).content@ == spec_output_content(
                    header@,
                    rs,
                    m,
                    k,
                ),
        decreases batches.len() - i,
    {
        let name: Vec<u8> = get_filename(output_dir, &base, i + 1);
        let content: Vec<u8> = render_file(header, &batches[i]);
        proof {
            assert(batches@[i as int].deep_view() == batches.deep_view()[i as int]);
        }
        plan.push(OutputFile { name, content });
        i = i + 1;
    }
    plan
}

} // verus!
