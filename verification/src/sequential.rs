//! The sequential splitting strategy.
//!
//! `SequentialSplitter` is the streaming state machine: records are fed in
//! one at a time, a full output file is handed back the moment a batch
//! reaches `max_rows` records, and `finish` flushes a final short batch.
//! Only the current batch is held in memory. The surrounding program reads
//! records from the input and writes each emitted file.

use crate::batch::lemma_num_batches_converse;
use crate::batch::spec_batch;
use crate::batch::spec_num_batches;
use crate::filename::get_basename;
use crate::filename::get_filename;
use crate::filename::spec_basename;
use crate::render::render_file;
use crate::render::spec_content;
use crate::split::spec_output_content;
use crate::split::spec_output_name;
use crate::split::OutputFile;
use vstd::prelude::*;

verus! {

/// The state of a sequential split: the batches already emitted, the
/// records of the batch being accumulated, and the naming parameters.
pub struct SequentialSplitter {
    /// Directory the output files are named into.
    pub output_dir: Vec<u8>,
    /// Basename of the input, as derived from its path.
    pub base: Vec<u8>,
    /// The input's header row, replicated into every output file.
    pub header: Vec<u8>,
    /// Upper bound on records per output file.
    pub max_rows: usize,
    /// The records accumulated for the batch in progress.
    pub current: Vec<Vec<u8>>,
    /// How many full batches have been emitted.
    pub batches_done: usize,
    /// All records pushed so far, in order.
    pub pushed: Ghost<Seq<Seq<u8>>>,
}

impl SequentialSplitter {
    /// Internal consistency: the records pushed so far are exactly the
    /// emitted full batches followed by the batch in progress, which is
    /// never full.
    pub open spec fn wf(self) -> bool {
        let m = self.max_rows as int;
        let done = self.batches_done as int;
        &&& self.max_rows >= 1
        &&& self.current@.len() < self.max_rows
        &&& self.pushed@.len() == done * m + self.current@.len()
        &&& self.current.deep_view() == self.pushed@.skip(done * m)
    }

    /// The naming and sizing parameters, which a split never changes.
    pub open spec fn config(self) -> (Seq<u8>, Seq<u8>, Seq<u8>, usize) {
        (self.output_dir@, self.base@, self.header@, self.max_rows)
    }

    /// Starts a sequential split of the input at `path` into `output_dir`.
    pub fn new(path: &Vec<u8>, output_dir: Vec<u8>, header: Vec<u8>, max_rows: usize) -> (s:
        SequentialSplitter)
        requires
            max_rows >= 1,
        ensures
            s.wf(),
            s.pushed@ == Seq::<Seq<u8>>::empty(),
            s.batches_done == 0,
            s.output_dir@ == output_dir@,
            s.base@ == spec_basename(path@),
            s.header@ == header@,
            s.max_rows == max_rows,
    {
        let base: Vec<u8> = get_basename(path);
        let s = SequentialSplitter {
            output_dir,
            base,
            header,
            max_rows,
            current: Vec::new(),
            batches_done: 0,
            pushed: Ghost(Seq::<Seq<u8>>::empty()),
        };
        proof {
            assert(0 * (max_rows as int) == 0) by (nonlinear_arith);
            assert(s.current.deep_view() =~= s.pushed@.skip(0));
        }
        s
    }

    /// Accepts the next record. When it completes a batch of `max_rows`
    /// records, the finished output file is returned and a new batch
    /// begins; otherwise the record is only accumulated.
    pub fn push(&mut self, record: Vec<u8>) -> (emitted: Option<OutputFile>)
        requires
            old(self).wf(),
            old(self).pushed@.len() < usize::MAX,
        ensures
            final(self).wf(),
            final(self).config() == old(self).config(),
            final(self).pushed@ == old(self).pushed@.push(record@),
            (emitted is Some) <==> old(self).current@.len() + 1 == old(self).max_rows,
            emitted is Some ==> final(self).batches_done == old(self).batches_done + 1,
            emitted is None ==> final(self).batches_done == old(self).batches_done,
            emitted is Some ==> {
                let i = old(self).batches_done as int;
                let m = old(self).max_rows as int;
                &&& emitted.unwrap().name@ == spec_output_name(old(self).output_dir@, old(self).base@, i)
                &&& emitted.unwrap().content@ == spec_content(
                    old(self).header@,
                    final(self).pushed@.skip(i * m),
                )
                &&& final(self).pushed@.len() == (i + 1) * m
            },
    {
        let ghost rv = record@;
        let ghost rdv = record.deep_view();
        let ghost m = self.max_rows as int;
        let ghost done = self.batches_done as int;
        let ghost old_pushed = self.pushed@;
        let ghost old_cur = self.current.deep_view();
        proof {
            assert(rdv =~= rv);
            assert(done * m >= 0) by (nonlinear_arith)
                requires
                    done >= 0,
                    m >= 1,
            ;
        }
        self.current.push(record);
        proof {
            self.pushed@ = old_pushed.push(rv);
            assert(self.current.deep_view() =~= old_cur.push(rv));
            assert(self.current.deep_view() =~= self.pushed@.skip(done * m));
        }
        if self.current.len() == self.max_rows {
            proof {
                assert(done <= done * m) by (nonlinear_arith)
                    requires
                        done >= 0,
                        m >= 1,
                ;
                assert(done < usize::MAX);
            }
            let name: Vec<u8> = get_filename(&self.output_dir, &self.base, self.batches_done + 1);
            let content: Vec<u8> = render_file(&self.header, &self.current);
            self.current = Vec::new();
            self.batches_done = self.batches_done + 1;
            proof {
                assert((done + 1) * m == done * m + m) by (nonlinear_arith);
                assert(self.current.deep_view() =~= self.pushed@.skip((done + 1) * m));
            }
            Some(OutputFile { name, content })
        } else {
            None
        }
    }

    /// Ends the split. A final short batch, if one is in progress, is
    /// returned as the last output file; on a batch boundary (or an input
    /// with no body records at all) nothing is written, so no empty
    /// trailing file ever exists. Either way, the files emitted over the
    /// whole run number exactly `ceil(R / max_rows)`.
    pub fn finish(self) -> (emitted: Option<OutputFile>)
        requires
            self.wf(),
            self.pushed@.len() <= usize::MAX,
        ensures
            (emitted is Some) <==> self.current@.len() > 0,
            emitted is Some ==> {
                let i = self.batches_done as int;
                let m = self.max_rows as int;
                &&& emitted.unwrap().name@ == spec_output_name(self.output_dir@, self.base@, i)
                &&& emitted.unwrap().content@ == spec_content(
                    self.header@,
                    self.pushed@.skip(i * m),
                )
                &&& self.batches_done + 1 == spec_num_batches(self.pushed@.len() as int, self.max_rows as int)
            },
            emitted is None ==> self.batches_done as int == spec_num_batches(
                self.pushed@.len() as int,
                self.max_rows as int,
            ),
    {
        let ghost m = self.max_rows as int;
        let ghost done = self.batches_done as int;
        let ghost r = self.pushed@.len() as int;
        if self.current.len() > 0 {
            proof {
                assert((done + 1) * m == done * m + m) by (nonlinear_arith);
                assert(done * m < r);
                lemma_num_batches_converse(r, m, done + 1);
                assert(done <= done * m) by (nonlinear_arith)
                    requires
                        done >= 0,
                        m >= 1,
                ;
            }
            let name: Vec<u8> = get_filename(&self.output_dir, &self.base, self.batches_done + 1);
            let content: Vec<u8> = render_file(&self.header, &self.current);
            Some(OutputFile { name, content })
        } else {
            proof {
                assert(self.pushed@.len() == done * m);
                if r == 0 {
                    assert(done == 0) by (nonlinear_arith)
                        requires
                            done * m == 0,
                            done >= 0,
                            m >= 1,
                    ;
                } else {
                    assert((done - 1) * m == done * m - m) by (nonlinear_arith);
                    assert(done >= 1) by (nonlinear_arith)
                        requires
                            done * m >= 1,
                            m >= 1,
                            done >= 0,
                    ;
                }
                lemma_num_batches_converse(r, m, done);
            }
            None
        }
    }
}

/// Runs a whole sequential split over already collected records: the
/// records are pushed one at a time and every emitted file is gathered.
/// The result is exactly the plan that the chunked strategy builds from
/// the same input — the two strategies are equivalent.
pub fn split_sequential(
    path: &Vec<u8>,
    output_dir: &Vec<u8>,
    header: &Vec<u8>,
    records: &Vec<Vec<u8>>,
    max_rows: usize,
) -> (plan: Vec<OutputFile>)
    requires
        max_rows >= 1,
    ensures
        plan@.len() == spec_num_batches(records.deep_view().len() as int, max_rows as int),
        forall|i: int|
            0 <= i < plan@.len() ==> (#[trigger] plan@[i]).name@ == spec_output_name(
                output_dir@,
                spec_basename(path@),
                i,
            ),
        forall|i: int|
            0 <= i < plan@.len() ==> (#[trigger] plan@[i]).content@ == spec_output_content(
                header@,
                records.deep_view(),
                max_rows as int,
                i,
            ),
{
    let ghost rs = records.deep_view();
    let ghost m = max_rows as int;
    let dir: Vec<u8> = clone_bytes(output_dir);
    let hdr: Vec<u8> = clone_bytes(header);
    let mut splitter: SequentialSplitter = SequentialSplitter::new(path, dir, hdr, max_rows);
    let mut plan: Vec<OutputFile> = Vec::new();
    let mut j: usize = 0;
    proof {
        assert(rs.take(0) =~= Seq::<Seq<u8>>::empty());
    }
    while j < records.len()
        invariant
            max_rows >= 1,
            m == max_rows as int,
            j <= records@.len(),
            rs == records.deep_view(),
            rs.len() == records@.len(),
            splitter.wf(),
            splitter.output_dir@ == output_dir@,
            splitter.base@ == spec_basename(path@),
            splitter.header@ == header@,
            splitter.max_rows == max_rows,
            splitter.pushed@ == rs.take(j as int),
            plan@.len() == splitter.batches_done,
            forall|k: int|
                0 <= k < plan@.len() ==> (#[trigger] plan@[k]).name@ == spec_output_name(
                    output_dir@,
                    spec_basename(path@),
                    k,
                ),
            forall|k: int|
                0 <= k < plan@.len() ==> (#[trigger] plan@[k]).content@ == spec_output_content(
                    header@,
                    rs,
                    m,
                    k,
                ),
        decreases records.len() - j,
    {
        let row: Vec<u8> = records[j].clone();
        proof {
            assert(row@ =~= records@[j as int]@);
            assert(rs.take(j as int).len() < usize::MAX);
            assert(rs.take(j + 1) =~= rs.take(j as int).push(rs[j as int]));
        }
        let ghost done = splitter.batches_done as int;
        let emitted: Option<OutputFile> = splitter.push(row);
        proof {
            assert(rs[j as int] == records@[j as int].deep_view());
            assert(records@[j as int].deep_view() =~= records@[j as int]@);
            assert(splitter.pushed@ == rs.take(j + 1));
        }
        match emitted {
            Option::Some(file) => {
                proof {
                    assert(done * m >= 0) by (nonlinear_arith)
                        requires
                            done >= 0,
                            m >= 1,
                    ;
                    assert(splitter.pushed@.len() == (done + 1) * m);
                    assert((done + 1) * m == done * m + m) by (nonlinear_arith);
                    assert((done + 1) * m <= rs.len());
                    assert(splitter.pushed@.skip(done * m) =~= rs.subrange(
                        done * m,
                        (done + 1) * m,
                    ));
                    assert(spec_batch(rs, m, done) =~= rs.subrange(done * m, (done + 1) * m));
                }
                plan.push(file);
            },
            Option::None => {},
        }
        j = j + 1;
    }
    proof {
        assert(splitter.pushed@ =~= rs);
    }
    let ghost done = splitter.batches_done as int;
    let ghost cur_len = splitter.current@.len() as int;
    let last: Option<OutputFile> = splitter.finish();
    match last {
        Option::Some(file) => {
            proof {
                assert(done * m >= 0) by (nonlinear_arith)
                    requires
                        done >= 0,
                        m >= 1,
                ;
                assert(rs.len() == done * m + cur_len);
                assert((done + 1) * m == done * m + m) by (nonlinear_arith);
                assert(rs.len() < (done + 1) * m);
                assert(spec_batch(rs, m, done) =~= rs.skip(done * m));
            }
            plan.push(file);
        },
        Option::None => {},
    }
    plan
}

/// Copies a byte vector.
fn clone_bytes(v: &Vec<u8>) -> (r: Vec<u8>)
    ensures
        r@ == v@,
{
    let c: Vec<u8> = v.clone();
    proof {
        assert(c@ =~= v@);
    }
    c
}

} // verus!
