//! An external sort: stage sorted chunks of a large input on disk, then
//! merge them lazily into one globally sorted stream.
//!
//! Implement [`Sortable`] for the record type, then hand an [`ExtSorter`]
//! the records.  The sorter buffers up to a configured count of records in
//! memory, sorts each buffer and writes it out as one chunk file in a
//! scoped temporary directory, and [`ExtSorter::sort`] returns an
//! [`ExtSortedIterator`] that streams the globally sorted output by
//! repeatedly taking the smallest pending record across all chunks.
//!
//! The sort is unstable: nothing is promised of the order of records with
//! equal keys.  Every chunk file is deleted when its handles are dropped,
//! however far the output was consumed; and each call to `sort` stages into
//! chunk files of its own, so an iterator from an earlier call may still be
//! drained while a later call stages.

use vstd::prelude::*;

pub mod files;
pub mod model;
pub mod records;
pub mod sorting;
mod iter;

pub use iter::{ExtSortedIterator, Sortable};

use crate::files::{
    file_data, file_pos, chunk_file_at, new_chunk_file, new_scoped_dir, new_scoped_dir_in,
    rewind_file,
};
use crate::model::{
    all_from, all_wf, enc_seq, ms_all, self_decoding, count_all, lemma_enc_seq_push,
    lemma_count_all_push, lemma_count_all_nonneg, lemma_ms_all_push, staging_of,
};
use crate::sorting::sort_records;

verus! {

/// The external sorter: owns the scoped staging directory and the buffer
/// capacity, and turns an input sequence into a lazily merged sorted one.
pub struct ExtSorter<T> {
    buffer_n_items: usize,
    tmp_dir: tempfile::TempDir,
    phantom: core::marker::PhantomData<T>,
}

impl<T> ExtSorter<T> where T: Sortable, T::Error: From<std::io::Error> {
    /// The configured buffer capacity.
    pub closed spec fn capacity(&self) -> int {
        self.buffer_n_items as int
    }

    /// Create an `ExtSorter` that buffers up to `buffer_n_items` records in
    /// memory at a time, staging its chunks under the system default
    /// temporary location.  Fails if the staging directory cannot be made.
    pub fn new(buffer_n_items: usize) -> (r: Result<Self, std::io::Error>)
        ensures
            r matches Ok(s) ==> s.capacity() == buffer_n_items as int,
    {
        match new_scoped_dir() {
            Ok(d) => Ok(ExtSorter {
                buffer_n_items,
                tmp_dir: d,
                phantom: core::marker::PhantomData,
            }),
            Err(e) => Err(e),
        }
    }

    /// As [`new`](Self::new), but the staging directory is created under
    /// the given parent directory instead of the system default.
    pub fn new_in(buffer_n_items: usize, tmp_dir: &str) -> (r: Result<Self, std::io::Error>)
        ensures
            r matches Ok(s) ==> s.capacity() == buffer_n_items as int,
    {
        match new_scoped_dir_in(tmp_dir) {
            Ok(d) => Ok(ExtSorter {
                buffer_n_items,
                tmp_dir: d,
                phantom: core::marker::PhantomData,
            }),
            Err(e) => Err(e),
        }
    }

    /// Sort the records: stage them as sorted chunk files, then return an
    /// iterator that merges the chunks lazily.  The sort is unstable.
    ///
    /// Staging cuts the input into consecutive buffers of `capacity`
    /// records (one per record when the capacity is zero), the last
    /// possibly smaller, and each chunk is its buffer in key order; the
    /// iterator's `staged_chunks` carry that decomposition.
    /// On success the iterator pends exactly `unsorted.len()` records, and
    /// when every input record is well formed it owes a sorted and complete
    /// output.  An empty input always succeeds, with an iterator at its
    /// end.  Any error while staging aborts the sort; the chunk files
    /// written so far go away with the staging directory.
    #[verifier::loop_isolation(false)]
    pub fn sort(&self, unsorted: Vec<T>) -> (r: Result<ExtSortedIterator<T>, T::Error>)
        ensures
            r matches Ok(it) ==> {
                &&& it.inv()
                &&& it.emitted_keys() == Seq::<int>::empty()
                &&& !it.is_failed()
                &&& it.total_count() == unsorted@.len()
                &&& it.source() == unsorted@
                &&& staging_of(it.staged_chunks(), unsorted@, self.capacity())
                &&& (all_wf(unsorted@) ==> it.faithful())
                &&& (all_wf(unsorted@) && unsorted@.len() == 0 ==> it.at_end())
            },
            unsorted@.len() == 0 ==> r is Ok,
    {
        let ghost orig = unsorted@;
        let ghost faithful = all_wf(orig);
        let ghost m: int = if self.buffer_n_items == 0 { 1int } else {
            self.buffer_n_items as int
        };
        let mut input = unsorted;
        let mut files: Vec<tempfile::SpooledTempFile> = Vec::new();
        let ghost mut chunks: Seq<Seq<T>> = Seq::empty();
        let mut buf: Vec<T> = Vec::new();
        let ghost mut done: int = 0;
        proof {
            broadcast use vstd::multiset::group_multiset_axioms;
            broadcast use vstd::seq_lib::group_to_multiset_ensures;

            assert(buf@.to_multiset().len() == 0);
            assert(ms_all(chunks).add(buf@.to_multiset()).add(input@.to_multiset())
                =~= orig.to_multiset());
        }

        while input.len() > 0
            invariant
                0 <= done <= orig.len(),
                input@ == orig.subrange(done, orig.len() as int),
                buf@ == orig.subrange(done - buf@.len(), done),
                buf@.len() <= done,
                chunks.len() == files@.len(),
                forall|c: int| 0 <= c < chunks.len()
                    ==> file_data(#[trigger] files@[c]) == enc_seq(chunks[c])
                        && file_pos(files@[c]) == file_data(files@[c]).len()
                        && crate::model::records_sorted(chunks[c]),
                faithful ==> forall|c: int| 0 <= c < chunks.len()
                    ==> crate::model::all_self_decoding(#[trigger] chunks[c])
                        && all_from(chunks[c], orig),
                forall|c: int| 0 <= c < chunks.len() ==> (#[trigger] chunks[c]).len() > 0,
                count_all(chunks) + buf@.len() + input@.len() == orig.len(),
                ms_all(chunks).add(buf@.to_multiset()).add(input@.to_multiset())
                    == orig.to_multiset(),
                buf@.len() < m,
                done == m * chunks.len() + buf@.len(),
                forall|c: int| 0 <= c < chunks.len() ==> (#[trigger] chunks[c]).len() == m
                    && chunks[c].to_multiset()
                        == orig.subrange(m * c, m * c + m).to_multiset(),
                faithful == all_wf(orig),
            decreases input@.len(),
        {
            let ghost input0 = input@;
            let ghost buf0 = buf@;
            let rec = input.remove(0);
            buf.push(rec);
            proof {
                done = done + 1;
                assert(input@ =~= orig.subrange(done, orig.len() as int));
                assert(buf@ =~= orig.subrange(done - buf@.len(), done));
                broadcast use vstd::multiset::group_multiset_axioms;
                broadcast use vstd::seq_lib::group_to_multiset_ensures;

                assert(input@.to_multiset() == input0.to_multiset().remove(input0[0]));
                assert(input0.to_multiset().contains(input0[0]));
                assert(buf@.to_multiset() =~= buf0.to_multiset().insert(rec));
                assert(ms_all(chunks).add(buf@.to_multiset()).add(input@.to_multiset())
                    =~= ms_all(chunks).add(buf0.to_multiset()).add(input0.to_multiset()));
            }
            if buf.len() >= self.buffer_n_items {
                proof {
                    assert(buf@.len() == m);
                }
                match Self::flush_chunk(&self.tmp_dir, &mut buf, Ghost(orig), Ghost(faithful)) {
                    Ok(f) => {
                        proof {
                            let ghost k = chunks.len() as int;
                            lemma_count_all_push(chunks, buf@);
                            lemma_ms_all_push(chunks, buf@);
                            chunks = chunks.push(buf@);
                            assert(m * (k + 1) == m * k + m) by (nonlinear_arith);
                            assert(chunks[k].to_multiset()
                                == orig.subrange(m * k, m * k + m).to_multiset());
                        }
                        files.push(f);
                    }
                    Err(e) => {
                        return Err(e);
                    }
                }
                buf.clear();
                proof {
                    broadcast use vstd::multiset::group_multiset_axioms;
                    broadcast use vstd::seq_lib::group_to_multiset_ensures;

                    assert(buf@ =~= orig.subrange(done - buf@.len(), done));
                    assert(buf@.to_multiset().len() == 0);
                    assert(ms_all(chunks).add(buf@.to_multiset()).add(input@.to_multiset())
                        =~= ms_all(chunks).add(input@.to_multiset()));
                }
            }
        }
        let ghost whole = chunks.len() as int;
        if buf.len() > 0 {
            match Self::flush_chunk(&self.tmp_dir, &mut buf, Ghost(orig), Ghost(faithful)) {
                Ok(f) => {
                    proof {
                        let ghost k = chunks.len() as int;
                        lemma_count_all_push(chunks, buf@);
                        lemma_ms_all_push(chunks, buf@);
                        chunks = chunks.push(buf@);
                        assert(chunks[k].to_multiset()
                            == orig.subrange(m * k, m * k + chunks[k].len()).to_multiset());
                    }
                    files.push(f);
                }
                Err(e) => {
                    return Err(e);
                }
            }
        }
        proof {
            broadcast use vstd::multiset::group_multiset_axioms;
            broadcast use vstd::seq_lib::group_to_multiset_ensures;

            assert(input@.to_multiset().len() == 0);
            assert(ms_all(chunks) =~= orig.to_multiset());
            // the staged decomposition: full chunks of m records up to the
            // last, which holds what was left over
            assert forall|c: int| 0 <= c < chunks.len()
                implies 0 < (#[trigger] chunks[c]).len() <= m
                    && crate::model::records_sorted(chunks[c])
                    && chunks[c].to_multiset()
                        == orig.subrange(m * c, m * c + chunks[c].len()).to_multiset() by {
                assert(file_data(files@[c]) == enc_seq(chunks[c])
                    && crate::model::records_sorted(chunks[c]));
                if c < whole {
                    assert(chunks[c].len() == m);
                }
            }
            assert forall|c: int| 0 <= c < chunks.len() - 1
                implies (#[trigger] chunks[c]).len() == m by {
                assert(c < whole);
            }
            assert(staging_of(chunks, orig, self.capacity()));
        }

        proof {
            if chunks.len() > 0 {
                lemma_count_all_nonneg(chunks.drop_first());
                assert(count_all(chunks) >= chunks[0].len());
            }
            assert(files@.len() > 0 ==> orig.len() > 0);
        }

        // bring every chunk reader back to the start before the merge
        let mut ri: usize = 0;
        while ri < files.len()
            invariant
                ri <= files@.len(),
                chunks.len() == files@.len(),
                forall|c: int| 0 <= c < chunks.len()
                    ==> file_data(#[trigger] files@[c]) == enc_seq(chunks[c])
                        && crate::model::records_sorted(chunks[c]),
                forall|c: int| 0 <= c < ri ==> file_pos(#[trigger] files@[c]) == 0,
                faithful ==> forall|c: int| 0 <= c < chunks.len()
                    ==> crate::model::all_self_decoding(#[trigger] chunks[c])
                        && all_from(chunks[c], orig),
                count_all(chunks) == orig.len(),
                ms_all(chunks) == orig.to_multiset(),
                staging_of(chunks, orig, self.capacity()),
                faithful == all_wf(orig),
            decreases files@.len() - ri,
        {
            match rewind_file(chunk_file_at(&mut files, ri)) {
                Ok(()) => {}
                Err(e) => {
                    return Err(<T::Error as From<std::io::Error>>::from(e));
                }
            }
            ri = ri + 1;
        }

        proof {
            if faithful {
                assert forall|c: int| 0 <= c < files@.len()
                    implies file_data(#[trigger] files@[c]) == enc_seq(chunks[c])
                        && crate::model::all_self_decoding(chunks[c])
                        && crate::model::records_sorted(chunks[c])
                        && all_from(chunks[c], orig) by {
                    assert(crate::model::all_self_decoding(chunks[c]));
                    assert(file_data(files@[c]) == enc_seq(chunks[c]));
                    assert(all_from(chunks[c], orig));
                }
            }
        }
        let it = match ExtSortedIterator::<T>::new(files, Ghost(chunks), Ghost(faithful), Ghost(orig)) {
            Ok(it) => it,
            Err(e) => {
                return Err(e);
            }
        };
        proof {
            if faithful && orig.len() == 0 {
                it.lemma_no_records_at_end();
            }
        }
        Ok(it)
    }

    /// Sort one full buffer and write it out as a chunk file, whose bytes
    /// are then the encodings of the buffer's records in key order.
    #[verifier::loop_isolation(false)]
    fn flush_chunk(
        dir: &tempfile::TempDir,
        buf: &mut Vec<T>,
        orig: Ghost<Seq<T>>,
        faithful: Ghost<bool>,
    ) -> (r: Result<tempfile::SpooledTempFile, T::Error>)
        requires
            faithful@ ==> forall|m: int| 0 <= m < old(buf)@.len()
                ==> orig@.contains(#[trigger] old(buf)@[m]),
            faithful@ ==> all_wf(orig@),
        ensures
            final(buf)@.len() == old(buf)@.len(),
            final(buf)@.to_multiset() == old(buf)@.to_multiset(),
            crate::model::records_sorted(final(buf)@),
            r matches Ok(f) ==> {
                &&& file_data(f) == enc_seq(final(buf)@)
                &&& file_pos(f) == file_data(f).len()
                &&& (faithful@ ==> crate::model::all_self_decoding(final(buf)@))
            },
            faithful@ ==> all_from(final(buf)@, orig@),
    {
        sort_records(buf);
        proof {
            if faithful@ {
                assert forall|m: int| 0 <= m < buf@.len()
                    implies (#[trigger] buf@[m]).wf() && orig@.contains(buf@[m]) by {
                    assert(buf@.contains(buf@[m]));
                    let v = choose|v: int| 0 <= v < old(buf)@.len() && old(buf)@[v] == buf@[m];
                    assert(orig@.contains(old(buf)@[v]));
                    let w = choose|w: int| 0 <= w < orig@.len() && orig@[w] == buf@[m];
                    assert(orig@[w].wf());
                }
            }
        }
        let mut f = new_chunk_file(dir);
        let mut i: usize = 0;
        while i < buf.len()
            invariant
                i <= buf@.len(),
                file_data(f) == enc_seq(buf@.take(i as int)),
                file_pos(f) == file_data(f).len(),
                forall|m: int| 0 <= m < i && (#[trigger] buf@[m]).wf()
                    ==> self_decoding(buf@[m]),
            decreases buf@.len() - i,
        {
            match buf[i].serialize(&mut f) {
                Ok(()) => {}
                Err(e) => {
                    return Err(e);
                }
            }
            proof {
                lemma_enc_seq_push(buf@.take(i as int), buf@[i as int]);
                assert(buf@.take(i + 1 as int) =~= buf@.take(i as int).push(buf@[i as int]));
            }
            i = i + 1;
        }
        proof {
            assert(buf@.take(buf@.len() as int) =~= buf@);
        }
        Ok(f)
    }
}

} // verus!
