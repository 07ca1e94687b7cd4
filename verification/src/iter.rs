//! The record contract and the merge phase: a lazy iterator over the
//! globally sorted output of a set of sorted chunk files.

use vstd::prelude::*;

use crate::files::{file_data, file_pos, chunk_file_at};
use crate::model::{
    all_from, all_le, keys_sorted, records_sorted, all_self_decoding, enc_seq, count_all,
    keys_of, ms_all, lemma_enc_seq_head, lemma_enc_seq_empty, lemma_count_all_update,
    lemma_count_all_empty, lemma_count_all_nonneg, lemma_keys_of_push, lemma_ms_all_empty,
    lemma_ms_all_pull_first, lemma_pull_out_ms,
};

verus! {

/// What a value type must offer to be sorted by this engine: a total order
/// through an integer key, and round-trip serialization to and from a chunk
/// file, with a clean end-of-data signal distinct from an error.
///
/// The spec side pins the meaning of the exec methods down: `key` orders the
/// records, `encoding` is the serialized form, and `decoded` says what one
/// read yields on given bytes.  A record is well formed (`wf`) when its
/// encoding decodes back to it; the engine's output is guaranteed sorted and
/// complete exactly when every staged record was well formed.
pub trait Sortable: Sized {
    /// Errors raised while serializing or deserializing.
    type Error;

    /// The sort key.  Records are ordered by this value alone; how records
    /// with equal keys are ordered among each other is unspecified.
    spec fn key(&self) -> int;

    /// True for records whose serialized form deserializes back to an
    /// equal record.  Staging accepts any record; the engine's guarantees
    /// hold of runs whose records all satisfy this.
    spec fn wf(&self) -> bool;

    /// The serialized form of the record.
    spec fn encoding(&self) -> Seq<u8>;

    /// What one deserialization step yields on the given bytes: the record
    /// it reads and the number of bytes its encoding took, or `None` when
    /// the bytes do not start with the encoding of any record.
    spec fn decoded(bytes: Seq<u8>) -> Option<(Self, int)>;

    /// Compare two records: `true` when `self` sorts no later than `other`.
    fn le(&self, other: &Self) -> (r: bool)
        ensures
            r == (self.key() <= other.key()),
    ;

    /// Serialize `self` at the end of the chunk file `w`.
    fn serialize(&self, w: &mut tempfile::SpooledTempFile) -> (r: Result<(), Self::Error>)
        requires
            file_pos(*old(w)) == file_data(*old(w)).len(),
        ensures
            self.wf() ==> self.encoding().len() > 0,
            self.wf() ==> forall|rest: Seq<u8>|
                #[trigger] Self::decoded(self.encoding() + rest)
                    == Some((*self, self.encoding().len() as int)),
            r is Ok ==> file_data(*final(w)) == file_data(*old(w)) + self.encoding()
                && file_pos(*final(w)) == file_data(*final(w)).len(),
    ;

    /// Read one record from the chunk file `r`, or signal a clean end of
    /// data with `None`, or an error.  A record is only ever handed back
    /// when the bytes under the cursor decode to it.
    fn deserialize(r: &mut tempfile::SpooledTempFile) -> (res: Option<Result<Self, Self::Error>>)
        requires
            file_pos(*old(r)) <= file_data(*old(r)).len(),
        ensures
            res is None ==> *final(r) == *old(r)
                && file_pos(*old(r)) == file_data(*old(r)).len(),
            res matches Some(Ok(rec)) ==> {
                &&& file_data(*final(r)) == file_data(*old(r))
                &&& file_pos(*old(r)) < file_pos(*final(r)) <= file_data(*old(r)).len()
                &&& Self::decoded(file_data(*old(r)).skip(file_pos(*old(r))))
                    == Some((rec, file_pos(*final(r)) - file_pos(*old(r))))
            },
    ;
}

/// The iterator over the merged, sorted output.
///
/// Each call to [`next`](Self::next) hands back the smallest record still
/// pending across all chunks, an error if one chunk's reader failed, or
/// `None` once everything was emitted.  The first error poisons the
/// iterator: afterwards it emits nothing and reads nothing.
pub struct ExtSortedIterator<T: Sortable> {
    tips: Vec<(T, usize)>,
    readers: Vec<tempfile::SpooledTempFile>,
    failed: bool,
    emitted: Ghost<Seq<int>>,
    rem: Ghost<Seq<Seq<T>>>,
    total: Ghost<int>,
    faithful: Ghost<bool>,
    source: Ghost<Seq<T>>,
    out: Ghost<Seq<T>>,
    staged: Ghost<Seq<Seq<T>>>,
}

impl<T: Sortable> ExtSortedIterator<T> {
    /// The keys of the records emitted so far, in order of emission.
    pub closed spec fn emitted_keys(&self) -> Seq<int> {
        self.emitted@
    }

    /// How many records were staged in all.
    pub closed spec fn total_count(&self) -> int {
        self.total@
    }

    /// The records the merge was staged from.
    pub closed spec fn source(&self) -> Seq<T> {
        self.source@
    }

    /// The records emitted so far, in order of emission.
    pub closed spec fn output(&self) -> Seq<T> {
        self.out@
    }

    /// The chunk decomposition the merge was opened over: chunk by chunk,
    /// the records each reader held at the start.
    pub closed spec fn staged_chunks(&self) -> Seq<Seq<T>> {
        self.staged@
    }

    /// True once an error was emitted.
    pub closed spec fn is_failed(&self) -> bool {
        self.failed
    }

    /// True when the staged records were all well formed, so the engine
    /// owes a sorted and complete output.
    pub closed spec fn faithful(&self) -> bool {
        self.faithful@
    }

    /// True when the iterator has run out of head entries without failing,
    /// and so signals the end of the sequence on every later pull.
    pub closed spec fn at_end(&self) -> bool {
        !self.failed && self.tips@.len() == 0
    }

    /// The well-formedness of the merge state.  Under `faithful`, each chunk
    /// reader holds the image of its pending records, every pending record
    /// sorts no earlier than anything emitted, and no record is lost.
    pub closed spec fn inv(&self) -> bool {
        &&& self.rem@.len() == self.readers@.len()
        &&& (forall|k: int| 0 <= k < self.tips@.len()
                ==> (#[trigger] self.tips@[k]).1 < self.readers@.len())
        &&& (forall|k1: int, k2: int| 0 <= k1 < k2 < self.tips@.len()
                ==> self.tips@[k1].1 != self.tips@[k2].1)
        &&& self.emitted@ == keys_of(self.out@)
        &&& (self.faithful@ ==> keys_sorted(self.emitted@))
        &&& (!self.failed ==> forall|i: int| 0 <= i < self.readers@.len()
                ==> 0 <= file_pos(#[trigger] self.readers@[i])
                    <= file_data(self.readers@[i]).len())
        &&& (!self.failed && self.faithful@ ==> {
            &&& (forall|k: int| 0 <= k < self.tips@.len()
                    ==> all_le(self.emitted@, (#[trigger] self.tips@[k]).0.key()))
            &&& (forall|k: int| 0 <= k < self.tips@.len()
                    ==> self.reader_ok((#[trigger] self.tips@[k]).1 as int, self.tips@[k].0))
            &&& (forall|i: int| 0 <= i < self.readers@.len()
                    && !self.has_tip(i)
                    ==> (#[trigger] self.rem@[i]).len() == 0)
            &&& (forall|k: int| 0 <= k < self.tips@.len()
                    ==> self.source@.contains((#[trigger] self.tips@[k]).0))
            &&& (forall|i: int| 0 <= i < self.rem@.len()
                    ==> all_from(#[trigger] self.rem@[i], self.source@))
            &&& self.out@.to_multiset().add(tip_records(self.tips@).to_multiset()).add(
                    ms_all(self.rem@)) == self.source@.to_multiset()
            &&& self.total@ == self.emitted@.len() + self.tips@.len() + count_all(self.rem@)
        })
    }

    /// True when some head entry stands for reader `i`.
    pub closed spec fn has_tip(&self, i: int) -> bool {
        tip_for(self.tips@, i)
    }

    /// Reader `i` holds the image of its pending records, which are sorted,
    /// self-decoding, and sort no earlier than the head record `head`.
    pub closed spec fn reader_ok(&self, i: int, head: T) -> bool {
        entry_ok(self.readers@, self.rem@, i, head)
    }

    /// Open the merge over the given chunk readers, each rewound to the
    /// start: pull one head record from every chunk, and build the
    /// min-priority structure of head entries.  A chunk that is empty
    /// contributes nothing; a read error abandons the merge and is returned.
    ///
    /// `chunks` names the records each reader pends, and `faithful` says
    /// that every one of them is well formed and every chunk is sorted;
    /// under it the iterator owes a sorted and complete output.
    #[verifier::loop_isolation(false)]
    pub fn new(
        mut readers: Vec<tempfile::SpooledTempFile>,
        chunks: Ghost<Seq<Seq<T>>>,
        faithful: Ghost<bool>,
        source: Ghost<Seq<T>>,
    ) -> (r: Result<Self, T::Error>)
        requires
            chunks@.len() == readers@.len(),
            forall|i: int| 0 <= i < readers@.len()
                ==> file_pos(#[trigger] readers@[i]) == 0,
            faithful@ ==> forall|i: int| 0 <= i < readers@.len()
                ==> file_data(#[trigger] readers@[i]) == enc_seq(chunks@[i])
                    && all_self_decoding(chunks@[i])
                    && records_sorted(chunks@[i])
                    && all_from(chunks@[i], source@),
            faithful@ ==> ms_all(chunks@) == source@.to_multiset(),
        ensures
            r matches Ok(it) ==> {
                &&& it.inv()
                &&& it.emitted_keys() == Seq::<int>::empty()
                &&& !it.is_failed()
                &&& it.faithful() == faithful@
                &&& it.total_count() == count_all(chunks@)
                &&& it.source() == source@
                &&& it.output() == Seq::<T>::empty()
                &&& it.staged_chunks() == chunks@
            },
            readers@.len() == 0 ==> r is Ok,
    {
        let ghost n = readers@.len() as int;
        let ghost readers0 = readers@;
        let mut tips: Vec<(T, usize)> = Vec::new();
        let ghost mut rem: Seq<Seq<T>> = chunks@;
        proof {
            if faithful@ {
                broadcast use vstd::multiset::group_multiset_axioms;
                broadcast use vstd::seq_lib::group_to_multiset_ensures;

                assert forall|i: int| 0 <= i < n
                    implies all_from(#[trigger] rem[i], source@) by {
                    assert(file_data(readers@[i]) == enc_seq(chunks@[i]));
                    assert(all_from(chunks@[i], source@));
                }
                assert(tip_records(tips@) =~= Seq::<T>::empty());
                assert(Seq::<T>::empty().to_multiset().len() == 0);
                assert(tip_records(tips@).to_multiset().add(ms_all(rem)) =~= ms_all(chunks@));
            }
        }
        let mut idx: usize = 0;
        while idx < readers.len()
            invariant
                idx <= readers@.len(),
                readers@.len() == n,
                chunks@.len() == n,
                rem.len() == n,
                forall|i: int| idx <= i < n ==> #[trigger] readers@[i] == readers0[i],
                faithful@ ==> forall|i: int| 0 <= i < n
                    ==> file_data(#[trigger] readers0[i]) == enc_seq(chunks@[i])
                        && file_pos(readers0[i]) == 0
                        && all_self_decoding(chunks@[i])
                        && records_sorted(chunks@[i])
                        && all_from(chunks@[i], source@),
                forall|i: int| idx <= i < n ==> #[trigger] rem[i] == chunks@[i],
                forall|i: int| 0 <= i < n
                    ==> 0 <= file_pos(#[trigger] readers@[i])
                        <= file_data(readers@[i]).len(),
                forall|k: int| 0 <= k < tips@.len()
                    ==> (#[trigger] tips@[k]).1 < idx,
                forall|k1: int, k2: int| 0 <= k1 < k2 < tips@.len()
                    ==> tips@[k1].1 < tips@[k2].1,
                faithful@ ==> {
                    &&& (forall|k: int| 0 <= k < tips@.len()
                            ==> entry_ok(readers@, rem, (#[trigger] tips@[k]).1 as int,
                                tips@[k].0))
                    &&& (forall|k: int| 0 <= k < tips@.len()
                            ==> source@.contains((#[trigger] tips@[k]).0))
                    &&& (forall|i: int| 0 <= i < n
                            ==> all_from(#[trigger] rem[i], source@))
                    &&& (forall|i: int| 0 <= i < idx && !tip_for(tips@, i)
                            ==> (#[trigger] rem[i]).len() == 0)
                    &&& tip_records(tips@).to_multiset().add(ms_all(rem)) == ms_all(chunks@)
                    &&& count_all(rem) == count_all(chunks@) - tips@.len()
                },
            decreases readers@.len() - idx,
        {
            let ghost rs = rem[idx as int];
            let ghost pre_readers = readers@;
            let res = T::deserialize(chunk_file_at(&mut readers, idx));
            proof {
                if faithful@ {
                    assert(file_data(pre_readers[idx as int]) == enc_seq(chunks@[idx as int]));
                    assert(file_data(pre_readers[idx as int]).skip(0)
                        =~= file_data(pre_readers[idx as int]));
                    if rs.len() > 0 {
                        lemma_enc_seq_head(rs);
                    }
                    lemma_enc_seq_empty(rs);
                }
            }
            match res {
                Some(Ok(item)) => {
                    let ghost rem_old = rem;
                    proof {
                        if faithful@ {
                            assert(rs.len() > 0);
                            assert(item == rs[0]);
                            let e0 = rs[0].encoding().len() as int;
                            let f0 = pre_readers[idx as int];
                            let f1 = readers@[idx as int];
                            assert(file_data(f0).skip(0 + e0)
                                =~= file_data(f0).skip(0).skip(e0));
                            assert(file_data(f1).skip(file_pos(f1))
                                == enc_seq(rs.drop_first()));
                            rem = rem.update(idx as int, rs.drop_first());
                            lemma_count_all_update(rem_old, idx as int, rs.drop_first());
                            lemma_ms_all_pull_first(rem_old, idx as int);
                            assert(source@.contains(rs[0]));
                            assert forall|m: int| 0 <= m < rs.drop_first().len()
                                implies source@.contains(#[trigger] rs.drop_first()[m]) by {
                                assert(rs.drop_first()[m] == rs[m + 1]);
                            }
                        }
                    }
                    let ghost pre_tips = tips@;
                    tips.push((item, idx));
                    proof {
                        if faithful@ {
                            broadcast use vstd::multiset::group_multiset_axioms;
                            broadcast use vstd::seq_lib::group_to_multiset_ensures;

                            assert(tip_records(tips@) =~= tip_records(pre_tips).push(item));
                            let t0 = tip_records(pre_tips).to_multiset();
                            let t1 = tip_records(tips@).to_multiset();
                            assert(t1 =~= t0.insert(item));
                            let a0 = ms_all(rem_old);
                            let a1 = ms_all(rem);
                            assert(a1.insert(rs[0]) == a0);
                            assert(t0.add(a0) == ms_all(chunks@));
                            assert(t1.add(a1) =~= ms_all(chunks@));
                            assert forall|k: int| 0 <= k < tips@.len()
                                implies entry_ok(readers@, rem,
                                    (#[trigger] tips@[k]).1 as int, tips@[k].0) by {
                                if k < pre_tips.len() {
                                    let i = pre_tips[k].1 as int;
                                    assert(entry_ok(pre_readers, rem_old, i, pre_tips[k].0));
                                    assert(readers@[i] == pre_readers[i]);
                                    assert(rem[i] == rem_old[i]);
                                } else {
                                    assert(tips@[k] == (item, idx));
                                }
                            }
                            assert forall|i: int| 0 <= i < idx + 1 && !tip_for(tips@, i)
                                implies (#[trigger] rem[i]).len() == 0 by {
                                if i == idx as int {
                                    assert(tips@[tips@.len() - 1].1 == idx);
                                    assert(tip_for(tips@, i));
                                } else {
                                    if tip_for(pre_tips, i) {
                                        let m = choose|m: int| 0 <= m < pre_tips.len()
                                            && (#[trigger] pre_tips[m]).1 == i;
                                        assert(tips@[m].1 == i);
                                        assert(tip_for(tips@, i));
                                    } else {
                                        assert(rem[i] == rem_old[i]);
                                    }
                                }
                            }
                        }
                    }
                }
                Some(Err(e)) => {
                    return Err(e);
                }
                None => {
                    proof {
                        if faithful@ {
                            assert(enc_seq(rs).len() == 0);
                            assert(rs.len() == 0);
                        }
                    }
                }
            }
            idx = idx + 1;
        }
        let it = ExtSortedIterator {
            tips,
            readers,
            failed: false,
            emitted: Ghost(Seq::<int>::empty()),
            rem: Ghost(rem),
            total: Ghost(count_all(chunks@)),
            faithful,
            source,
            out: Ghost(Seq::<T>::empty()),
            staged: chunks,
        };
        proof {
            assert(keys_of(it.out@) =~= Seq::<int>::empty());
            if faithful@ {
                broadcast use vstd::multiset::group_multiset_axioms;
                broadcast use vstd::seq_lib::group_to_multiset_ensures;

                lemma_count_all_nonneg(rem);
                assert(Seq::<T>::empty().to_multiset().len() == 0);
                assert(it.out@.to_multiset().add(tip_records(it.tips@).to_multiset()).add(
                    ms_all(it.rem@)) =~= it.source@.to_multiset());
                assert forall|k: int| 0 <= k < it.tips@.len()
                    implies it.reader_ok((#[trigger] it.tips@[k]).1 as int, it.tips@[k].0) by {
                    assert(entry_ok(it.readers@, it.rem@, it.tips@[k].1 as int, it.tips@[k].0));
                }
            }
        }
        Ok(it)
    }

    /// Produce the next item of the sorted output: the smallest pending
    /// record, an error that poisons the iterator, or `None` at the end.
    ///
    /// On a run whose staged records were all well formed, everything
    /// emitted before this record sorts no later than it, and once `None`
    /// comes on an error-free run, every staged record was emitted.
    pub fn next(&mut self) -> (r: Option<Result<T, T::Error>>)
        requires
            old(self).inv(),
        ensures
            final(self).inv(),
            final(self).total_count() == old(self).total_count(),
            final(self).faithful() == old(self).faithful(),
            old(self).is_failed() ==> r is None && *final(self) == *old(self),
            !old(self).is_failed() && old(self).at_end() ==> r is None
                && *final(self) == *old(self),
            r is None ==> final(self).emitted_keys() == old(self).emitted_keys(),
            r is None && !old(self).is_failed() ==> *final(self) == *old(self)
                && old(self).at_end(),
            r matches Some(Err(_)) ==> final(self).is_failed()
                && final(self).emitted_keys() == old(self).emitted_keys(),
            final(self).source() == old(self).source(),
            final(self).staged_chunks() == old(self).staged_chunks(),
            r is None ==> final(self).output() == old(self).output(),
            r matches Some(Err(_)) ==> final(self).output() == old(self).output(),
            r matches Some(Ok(rec)) ==> {
                &&& !final(self).is_failed()
                &&& final(self).emitted_keys() == old(self).emitted_keys().push(rec.key())
                &&& final(self).output() == old(self).output().push(rec)
                &&& (old(self).faithful() ==> all_le(old(self).emitted_keys(), rec.key()))
                &&& (old(self).faithful() ==> old(self).source().contains(rec))
            },
            old(self).faithful() && !old(self).is_failed() && r is None
                ==> final(self).emitted_keys().len() == final(self).total_count(),
    {
        if self.failed {
            return None;
        }
        if self.tips.len() == 0 {
            proof {
                if self.faithful@ {
                    assert forall|i: int| 0 <= i < self.rem@.len()
                        implies (#[trigger] self.rem@[i]).len() == 0 by {
                        assert(!self.has_tip(i));
                    }
                    lemma_count_all_empty(self.rem@);
                }
            }
            return None;
        }
        let ghost pre = *self;
        let entry = pop_min(&mut self.tips);
        let (rec, idx) = entry;
        let ghost j = choose|j: int|
            0 <= j < pre.tips@.len() && (rec, idx) == pre.tips@[j]
                && self.tips@ == pre.tips@.update(j, pre.tips@.last()).drop_last();
        proof {
            // every surviving head entry was already a head entry before
            assert forall|k: int| 0 <= k < self.tips@.len()
                implies exists|m: int|
                    0 <= m < pre.tips@.len() && m != j
                        && #[trigger] self.tips@[k] == pre.tips@[m] by {
                if k == j {
                    assert(self.tips@[k] == pre.tips@[pre.tips@.len() - 1]);
                    assert(pre.tips@.len() - 1 != j);
                } else {
                    assert(self.tips@[k] == pre.tips@[k]);
                    assert(k != j);
                }
            }
        }
        assert(idx < self.readers.len());
        let res = T::deserialize(chunk_file_at(&mut self.readers, idx));
        let ghost mid = *self;
        proof {
            if pre.faithful@ {
                assert(pre.reader_ok(idx as int, rec));
                if mid.rem@[idx as int].len() > 0 {
                    lemma_enc_seq_head(mid.rem@[idx as int]);
                }
            }
        }
        match res {
            Some(Ok(n)) => {
                proof {
                    if pre.faithful@ {
                        // the bytes under the cursor decode to the first
                        // pending record, so that is what was read
                        let rs = pre.rem@[idx as int];
                        lemma_enc_seq_empty(rs);
                        assert(rs.len() > 0);
                        assert(n == rs[0]);
                        let e0 = rs[0].encoding().len() as int;
                        let f0 = pre.readers@[idx as int];
                        let f1 = self.readers@[idx as int];
                        assert(file_data(f0).skip(file_pos(f0) + e0)
                            =~= file_data(f0).skip(file_pos(f0)).skip(e0));
                        assert(file_data(f1).skip(file_pos(f1)) == enc_seq(rs.drop_first()));
                        self.rem@ = self.rem@.update(idx as int, rs.drop_first());
                        lemma_count_all_update(pre.rem@, idx as int, rs.drop_first());
                    }
                    self.emitted@ = self.emitted@.push(rec.key());
                    self.out@ = self.out@.push(rec);
                }
                self.tips.push((n, idx));
                proof {
                    self.establish_after_pull(pre, mid, j, rec, idx, Some(n));
                }
                Some(Ok(rec))
            }
            Some(Err(e)) => {
                self.failed = true;
                proof {
                    assert forall|k1: int, k2: int| 0 <= k1 < k2 < self.tips@.len()
                        implies self.tips@[k1].1 != self.tips@[k2].1 by {
                        let last = pre.tips@.len() - 1;
                        if k1 == j {
                            assert(self.tips@[k1] == pre.tips@[last]);
                            assert(self.tips@[k2] == pre.tips@[k2]);
                        } else if k2 == j {
                            assert(self.tips@[k2] == pre.tips@[last]);
                            assert(self.tips@[k1] == pre.tips@[k1]);
                        } else {
                            assert(self.tips@[k1] == pre.tips@[k1]);
                            assert(self.tips@[k2] == pre.tips@[k2]);
                        }
                    }
                }
                Some(Err(e))
            }
            None => {
                proof {
                    if pre.faithful@ {
                        let rs = pre.rem@[idx as int];
                        lemma_enc_seq_empty(rs);
                        assert(rs.len() == 0);
                    }
                    self.emitted@ = self.emitted@.push(rec.key());
                    self.out@ = self.out@.push(rec);
                    self.establish_after_pull(pre, mid, j, rec, idx, None);
                }
                Some(Ok(rec))
            }
        }
    }

    /// After the minimum head entry `(rec, idx)` was removed (it stood at
    /// index `j`), its reader was pulled from once, and the bookkeeping was
    /// brought up to date, the merge state is well formed again.
    proof fn establish_after_pull(
        &self,
        pre: Self,
        mid: Self,
        j: int,
        rec: T,
        idx: usize,
        pulled: Option<T>,
    )
        requires
            pre.inv(),
            !pre.failed,
            pre.tips@.len() > 0,
            0 <= j < pre.tips@.len(),
            pre.tips@[j] == (rec, idx),
            forall|m: int| 0 <= m < pre.tips@.len()
                ==> rec.key() <= (#[trigger] pre.tips@[m]).0.key(),
            mid.tips@ == pre.tips@.update(j, pre.tips@.last()).drop_last(),
            // the pull touched reader `idx` alone
            mid.readers@.len() == pre.readers@.len(),
            idx < pre.readers@.len(),
            forall|i: int| 0 <= i < pre.readers@.len() && i != idx
                ==> #[trigger] mid.readers@[i] == pre.readers@[i],
            self.failed == pre.failed,
            self.total@ == pre.total@,
            self.faithful@ == pre.faithful@,
            self.source@ == pre.source@,
            self.readers@ == mid.readers@,
            self.emitted@ == pre.emitted@.push(rec.key()),
            self.out@ == pre.out@.push(rec),
            match pulled {
                Some(n) => self.tips@ == mid.tips@.push((n, idx)),
                None => self.tips@ == mid.tips@,
            },
            pre.faithful@ ==> match pulled {
                Some(n) => {
                    let rs = pre.rem@[idx as int];
                    &&& rs.len() > 0
                    &&& n == rs[0]
                    &&& self.rem@ == pre.rem@.update(idx as int, rs.drop_first())
                    &&& entry_ok(self.readers@, self.rem@, idx as int, n)
                    &&& count_all(self.rem@) == count_all(pre.rem@) - 1
                },
                None => {
                    &&& self.rem@ == pre.rem@
                    &&& pre.rem@[idx as int].len() == 0
                    &&& self.readers@[idx as int] == pre.readers@[idx as int]
                },
            },
            !pre.faithful@ ==> self.rem@ == pre.rem@,
            forall|i: int| 0 <= i < mid.readers@.len()
                ==> 0 <= file_pos(#[trigger] mid.readers@[i])
                    <= file_data(mid.readers@[i]).len(),
        ensures
            self.inv(),
    {
        let ghost tips0 = pre.tips@;
        let ghost tips1 = self.tips@;
        lemma_keys_of_push(pre.out@, rec);
        // each surviving entry is an old entry other than the popped one
        assert forall|k: int| 0 <= k < mid.tips@.len()
            implies exists|m: int|
                0 <= m < tips0.len() && m != j && #[trigger] mid.tips@[k] == tips0[m] by {
            if k == j {
                assert(mid.tips@[k] == tips0[tips0.len() - 1]);
            } else {
                assert(mid.tips@[k] == tips0[k]);
            }
        }
        // distinct reader indices survive
        let ghost last = tips0.len() - 1;
        assert forall|k1: int, k2: int| 0 <= k1 < k2 < tips1.len()
            implies tips1[k1].1 != tips1[k2].1 by {
            if k2 < mid.tips@.len() {
                if k1 == j {
                    assert(tips1[k1] == tips0[last]);
                    assert(tips1[k2] == tips0[k2]);
                } else if k2 == j {
                    assert(tips1[k2] == tips0[last]);
                    assert(tips1[k1] == tips0[k1]);
                } else {
                    assert(tips1[k1] == tips0[k1]);
                    assert(tips1[k2] == tips0[k2]);
                }
            } else {
                // k2 names the freshly pushed entry for reader idx; the
                // surviving entry tips1[k1] came from an old entry other
                // than the popped one, whose reader index differs from idx
                assert(tips1[k2].1 == idx);
                let m = if k1 == j { last } else { k1 };
                assert(tips1[k1] == tips0[m]);
                assert(m != j);
                if m < j {
                    assert(tips0[m].1 != tips0[j].1);
                } else {
                    assert(tips0[j].1 != tips0[m].1);
                }
            }
        }
        if pre.faithful@ && !self.failed {
            assert forall|k: int| 0 <= k < tips1.len()
                implies all_le(self.emitted@, (#[trigger] tips1[k]).0.key()) by {
                if k < mid.tips@.len() {
                    let m = choose|m: int|
                        0 <= m < tips0.len() && m != j && mid.tips@[k] == tips0[m];
                    assert(all_le(pre.emitted@, tips0[m].0.key()));
                    assert(rec.key() <= tips0[m].0.key());
                } else {
                    assert(pulled is Some);
                    assert(pre.reader_ok(idx as int, rec));
                    assert(rec.key() <= pre.rem@[idx as int][0].key());
                    assert(all_le(pre.emitted@, rec.key()));
                }
            }
            assert forall|k: int| 0 <= k < tips1.len()
                implies self.reader_ok((#[trigger] tips1[k]).1 as int, tips1[k].0) by {
                if k < mid.tips@.len() {
                    let m = choose|m: int|
                        0 <= m < tips0.len() && m != j && mid.tips@[k] == tips0[m];
                    let i = tips0[m].1 as int;
                    assert(pre.reader_ok(i, tips0[m].0));
                    assert(i != idx);
                    assert(self.readers@[i] == pre.readers@[i]);
                    assert(self.rem@[i] == pre.rem@[i]);
                } else {
                    assert(self.reader_ok(idx as int, tips1[k].0));
                }
            }
            assert forall|i: int| 0 <= i < self.readers@.len() && !self.has_tip(i)
                implies (#[trigger] self.rem@[i]).len() == 0 by {
                if i == idx {
                    match pulled {
                        Some(n) => {
                            assert(tips1[tips1.len() - 1].1 == idx);
                            assert(self.has_tip(i));
                        }
                        None => {}
                    }
                } else {
                    if pre.has_tip(i) {
                        let m = choose|m: int|
                            0 <= m < tips0.len() && (#[trigger] tips0[m]).1 == i;
                        assert(m != j);
                        // that entry survives: it stands at m, or moved
                        // from the end to j
                        if m == tips0.len() - 1 && j < tips0.len() - 1 {
                            assert(mid.tips@[j] == tips0[m]);
                            assert(tips1[j].1 == i);
                        } else {
                            assert(mid.tips@[m] == tips0[m]);
                            assert(tips1[m].1 == i);
                        }
                        assert(self.has_tip(i));
                    } else {
                        assert(pre.rem@[i].len() == 0);
                        assert(self.rem@[i] == pre.rem@[i]);
                    }
                }
            }
            assert(keys_sorted(self.emitted@)) by {
                assert(all_le(pre.emitted@, rec.key()));
            }
            assert forall|k: int| 0 <= k < tips1.len()
                implies self.source@.contains((#[trigger] tips1[k]).0) by {
                if k < mid.tips@.len() {
                    let m = choose|m: int|
                        0 <= m < tips0.len() && m != j && mid.tips@[k] == tips0[m];
                    assert(self.source@.contains(tips0[m].0));
                } else {
                    let rs = pre.rem@[idx as int];
                    assert(all_from(rs, pre.source@));
                    assert(pre.source@.contains(rs[0]));
                }
            }
            assert forall|i: int| 0 <= i < self.rem@.len()
                implies all_from(#[trigger] self.rem@[i], self.source@) by {
                if i == idx && pulled is Some {
                    let rs = pre.rem@[idx as int];
                    assert(all_from(rs, pre.source@));
                    assert forall|m: int| 0 <= m < rs.drop_first().len()
                        implies pre.source@.contains(#[trigger] rs.drop_first()[m]) by {
                        assert(rs.drop_first()[m] == rs[m + 1]);
                    }
                } else {
                    assert(self.rem@[i] == pre.rem@[i]);
                    assert(all_from(pre.rem@[i], pre.source@));
                }
            }
            assert(self.out@.to_multiset().add(tip_records(tips1).to_multiset()).add(
                ms_all(self.rem@)) == self.source@.to_multiset()) by {
                broadcast use vstd::multiset::group_multiset_axioms;
                broadcast use vstd::seq_lib::group_to_multiset_ensures;

                let pre_recs = tip_records(tips0);
                assert(tip_records(mid.tips@)
                    =~= pre_recs.update(j, pre_recs.last()).drop_last());
                lemma_pull_out_ms(pre_recs, j);
                assert(pre_recs[j] == rec);
                assert(tip_records(mid.tips@).to_multiset().insert(rec)
                    == pre_recs.to_multiset());
                assert(self.out@.to_multiset() =~= pre.out@.to_multiset().insert(rec));
                let t0 = pre_recs.to_multiset();
                let tm = tip_records(mid.tips@).to_multiset();
                let o0 = pre.out@.to_multiset();
                let o1 = self.out@.to_multiset();
                assert(o0.add(t0).add(ms_all(pre.rem@)) == pre.source@.to_multiset());
                match pulled {
                    Some(n) => {
                        let rs = pre.rem@[idx as int];
                        assert(tip_records(tips1) =~= tip_records(mid.tips@).push(n));
                        let t1 = tip_records(tips1).to_multiset();
                        assert(t1 =~= tm.insert(n));
                        lemma_ms_all_pull_first(pre.rem@, idx as int);
                        let a0 = ms_all(pre.rem@);
                        let a1 = ms_all(self.rem@);
                        assert(a1.insert(rs[0]) == a0);
                        assert(o1.add(t1).add(a1) =~= o0.add(t0).add(a0));
                    }
                    None => {
                        assert(tips1 == mid.tips@);
                        assert(self.rem@ == pre.rem@);
                        assert(o1.add(tm).add(ms_all(self.rem@))
                            =~= o0.add(t0).add(ms_all(pre.rem@)));
                    }
                }
            }
            assert(self.total@ == self.emitted@.len() + tips1.len() + count_all(self.rem@));
        }
        if pre.faithful@ && self.failed {
            assert(keys_sorted(self.emitted@)) by {
                assert(all_le(pre.emitted@, rec.key()));
            }
        }
    }

    /// Law: on a run whose staged records were all well formed, the keys of
    /// the records emitted so far are in non-decreasing order, whether or
    /// not the run has since failed or ended; and the emitted keys are
    /// exactly the keys of the emitted records, in emission order.
    pub proof fn lemma_output_sorted(&self)
        requires
            self.inv(),
            self.faithful(),
        ensures
            keys_sorted(self.emitted_keys()),
            self.emitted_keys() == keys_of(self.output()),
    {
    }

    /// Law: a faithful merge that has not failed never emits more records
    /// than were staged, and once it has emitted them all it stands at its
    /// end, where every pull signals the end of the sequence.
    pub proof fn lemma_emission_bounded(&self)
        requires
            self.inv(),
            self.faithful(),
            !self.is_failed(),
        ensures
            self.emitted_keys().len() <= self.total_count(),
            self.emitted_keys().len() == self.total_count() ==> self.at_end(),
    {
        lemma_count_all_nonneg(self.rem@);
    }

    /// Law: on a faithful, error-free run that has reached its end, the
    /// emitted records are exactly the staged records, rearranged: the
    /// output is a permutation of the input.
    pub proof fn lemma_output_permutes_source(&self)
        requires
            self.inv(),
            self.faithful(),
            self.at_end(),
        ensures
            self.output().to_multiset() == self.source().to_multiset(),
            self.output().len() == self.source().len(),
    {
        broadcast use vstd::multiset::group_multiset_axioms;
        broadcast use vstd::seq_lib::group_to_multiset_ensures;

        assert forall|i: int| 0 <= i < self.rem@.len()
            implies (#[trigger] self.rem@[i]).len() == 0 by {
            assert(!self.has_tip(i));
        }
        lemma_ms_all_empty(self.rem@);
        assert(tip_records(self.tips@) =~= Seq::<T>::empty());
        assert(Seq::<T>::empty().to_multiset().len() == 0);
        assert(self.out@.to_multiset() =~= self.source@.to_multiset());
        assert(self.out@.to_multiset().len() == self.out@.len());
        assert(self.source@.to_multiset().len() == self.source@.len());
    }

    /// Law: on an error-free run whose staged records were all well formed,
    /// once the iterator is at its end it has emitted exactly as many
    /// records as were staged.
    pub proof fn lemma_output_complete(&self)
        requires
            self.inv(),
            self.faithful(),
            self.at_end(),
        ensures
            self.emitted_keys().len() == self.total_count(),
    {
        assert forall|i: int| 0 <= i < self.rem@.len()
            implies (#[trigger] self.rem@[i]).len() == 0 by {
            assert(!self.has_tip(i));
        }
        lemma_count_all_empty(self.rem@);
    }

    /// Law: a merge staged from no records at all stands at its end from
    /// the start: the first pull already signals the end of the sequence.
    pub proof fn lemma_no_records_at_end(&self)
        requires
            self.inv(),
            self.faithful(),
            !self.is_failed(),
            self.total_count() == 0,
            self.emitted_keys().len() == 0,
        ensures
            self.at_end(),
    {
        lemma_count_all_nonneg(self.rem@);
    }
}

/// The head records of the entries of `tips`, in entry order.
pub open spec fn tip_records<T>(tips: Seq<(T, usize)>) -> Seq<T> {
    tips.map_values(|e: (T, usize)| e.0)
}

/// True when some head entry of `tips` stands for reader `i`.
pub open spec fn tip_for<T>(tips: Seq<(T, usize)>, i: int) -> bool {
    exists|k: int| 0 <= k < tips.len() && (#[trigger] tips[k]).1 == i
}

/// Reader `i` of `readers` holds the image of its pending records `rem[i]`,
/// which are sorted, self-decoding, and sort no earlier than `head`.
pub open spec fn entry_ok<T: Sortable>(
    readers: Seq<tempfile::SpooledTempFile>,
    rem: Seq<Seq<T>>,
    i: int,
    head: T,
) -> bool {
    let f = readers[i];
    let rs = rem[i];
    &&& 0 <= file_pos(f) <= file_data(f).len()
    &&& file_data(f).skip(file_pos(f)) == enc_seq(rs)
    &&& all_self_decoding(rs)
    &&& records_sorted(rs)
    &&& forall|j: int| 0 <= j < rs.len() ==> head.key() <= (#[trigger] rs[j]).key()
}

/// Remove and return a head entry with the least key.
fn pop_min<T: Sortable>(tips: &mut Vec<(T, usize)>) -> (e: (T, usize))
    requires
        old(tips)@.len() > 0,
    ensures
        exists|j: int|
            0 <= j < old(tips)@.len() && e == old(tips)@[j]
                && final(tips)@ == old(tips)@.update(j, old(tips)@.last()).drop_last(),
        forall|j: int| 0 <= j < old(tips)@.len()
            ==> e.0.key() <= (#[trigger] old(tips)@[j]).0.key(),
{
    let mut min_idx: usize = 0;
    let mut k: usize = 1;
    while k < tips.len()
        invariant
            tips@ == old(tips)@,
            1 <= k <= tips@.len(),
            min_idx < k,
            forall|j: int| 0 <= j < k
                ==> tips@[min_idx as int].0.key() <= (#[trigger] tips@[j]).0.key(),
        decreases tips@.len() - k,
    {
        if tips[k].0.le(&tips[min_idx].0) {
            min_idx = k;
        }
        k = k + 1;
    }
    let ghost j = min_idx as int;
    let e = tips.swap_remove(min_idx);
    proof {
        assert(e == old(tips)@[j]
            && tips@ == old(tips)@.update(j, old(tips)@.last()).drop_last());
    }
    e
}

} // verus!
