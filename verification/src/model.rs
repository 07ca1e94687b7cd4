//! The mathematical model of a sort run: key sequences, serialized chunk
//! images, and the facts about them the staging and merge proofs share.

use vstd::prelude::*;

use vstd::multiset::Multiset;

use crate::iter::Sortable;

verus! {

/// True when every key of `s` is at most `bound`.
pub open spec fn all_le(s: Seq<int>, bound: int) -> bool {
    forall|i: int| 0 <= i < s.len() ==> s[i] <= bound
}

/// True when the key sequence `s` is in non-decreasing order.
pub open spec fn keys_sorted(s: Seq<int>) -> bool {
    forall|i: int, j: int| 0 <= i <= j < s.len() ==> s[i] <= s[j]
}

/// True when the records of `rs` stand in non-decreasing key order.
pub open spec fn records_sorted<T: Sortable>(rs: Seq<T>) -> bool {
    forall|i: int, j: int| 0 <= i <= j < rs.len() ==> rs[i].key() <= rs[j].key()
}

/// True when every record of `rs` is one of the records of `src`.
pub open spec fn all_from<T>(rs: Seq<T>, src: Seq<T>) -> bool {
    forall|m: int| 0 <= m < rs.len() ==> src.contains(#[trigger] rs[m])
}

/// True when every record of `rs` is well formed.
pub open spec fn all_wf<T: Sortable>(rs: Seq<T>) -> bool {
    forall|i: int| 0 <= i < rs.len() ==> (#[trigger] rs[i]).wf()
}

/// A record whose encoding is non-empty and decodes back to the record
/// itself, whatever bytes follow it.  Serializing a well-formed record
/// guarantees this; it is what makes a staged chunk readable.
pub open spec fn self_decoding<T: Sortable>(r: T) -> bool {
    &&& r.encoding().len() > 0
    &&& forall|rest: Seq<u8>|
        #[trigger] T::decoded(r.encoding() + rest) == Some((r, r.encoding().len() as int))
}

/// True when every record of `rs` is self-decoding.
pub open spec fn all_self_decoding<T: Sortable>(rs: Seq<T>) -> bool {
    forall|i: int| 0 <= i < rs.len() ==> self_decoding(#[trigger] rs[i])
}

/// The image of a chunk on disk: the encodings of its records, back to back.
pub open spec fn enc_seq<T: Sortable>(rs: Seq<T>) -> Seq<u8>
    decreases rs.len(),
{
    if rs.len() == 0 {
        Seq::<u8>::empty()
    } else {
        rs[0].encoding() + enc_seq(rs.drop_first())
    }
}

/// How many records the chunks of `rss` hold in all.
pub open spec fn count_all<T>(rss: Seq<Seq<T>>) -> int
    decreases rss.len(),
{
    if rss.len() == 0 {
        0
    } else {
        rss[0].len() + count_all(rss.drop_first())
    }
}

/// Reading the image of a non-empty chunk yields its first record.
pub proof fn lemma_enc_seq_head<T: Sortable>(rs: Seq<T>)
    requires
        rs.len() > 0,
        self_decoding(rs[0]),
    ensures
        T::decoded(enc_seq(rs)) == Some((rs[0], rs[0].encoding().len() as int)),
        enc_seq(rs).skip(rs[0].encoding().len() as int) == enc_seq(rs.drop_first()),
        enc_seq(rs).len() >= rs[0].encoding().len() > 0,
{
    let e = rs[0].encoding();
    let rest = enc_seq(rs.drop_first());
    assert(enc_seq(rs) == e + rest);
    assert(T::decoded(e + rest) == Some((rs[0], e.len() as int)));
    assert((e + rest).skip(e.len() as int) =~= rest);
}

/// The image of a chunk is empty exactly when the chunk is, as long as its
/// records are self-decoding.
pub proof fn lemma_enc_seq_empty<T: Sortable>(rs: Seq<T>)
    requires
        all_self_decoding(rs),
    ensures
        enc_seq(rs).len() == 0 <==> rs.len() == 0,
{
    if rs.len() > 0 {
        assert(self_decoding(rs[0]));
        assert(enc_seq(rs).len() >= rs[0].encoding().len());
    }
}

/// Appending a record to a chunk appends its encoding to the image.
pub proof fn lemma_enc_seq_push<T: Sortable>(rs: Seq<T>, r: T)
    ensures
        enc_seq(rs.push(r)) == enc_seq(rs) + r.encoding(),
    decreases rs.len(),
{
    if rs.len() == 0 {
        assert(rs.push(r).drop_first() =~= Seq::<T>::empty());
        assert(enc_seq(rs.push(r)) == r.encoding() + enc_seq(Seq::<T>::empty()));
        assert(r.encoding() + Seq::<u8>::empty() =~= r.encoding());
        assert(enc_seq(rs) + r.encoding() =~= r.encoding());
    } else {
        assert(rs.push(r).drop_first() =~= rs.drop_first().push(r));
        lemma_enc_seq_push(rs.drop_first(), r);
        assert(enc_seq(rs.push(r)) == rs[0].encoding() + (enc_seq(rs.drop_first()) + r.encoding()));
        assert(rs[0].encoding() + (enc_seq(rs.drop_first()) + r.encoding())
            =~= (rs[0].encoding() + enc_seq(rs.drop_first())) + r.encoding());
    }
}

/// Replacing one chunk changes the total record count by the difference of
/// the two chunk lengths.
pub proof fn lemma_count_all_update<T>(rss: Seq<Seq<T>>, i: int, s: Seq<T>)
    requires
        0 <= i < rss.len(),
    ensures
        count_all(rss.update(i, s)) == count_all(rss) - rss[i].len() + s.len(),
    decreases rss.len(),
{
    if i == 0 {
        assert(rss.update(0, s).drop_first() =~= rss.drop_first());
    } else {
        assert(rss.update(i, s).drop_first() =~= rss.drop_first().update(i - 1, s));
        lemma_count_all_update(rss.drop_first(), i - 1, s);
    }
}

/// Adding a chunk adds its length to the total record count.
pub proof fn lemma_count_all_push<T>(rss: Seq<Seq<T>>, s: Seq<T>)
    ensures
        count_all(rss.push(s)) == count_all(rss) + s.len(),
    decreases rss.len(),
{
    if rss.len() == 0 {
        assert(rss.push(s).drop_first() =~= Seq::<Seq<T>>::empty());
        assert(count_all(rss.push(s)) == s.len() + count_all(Seq::<Seq<T>>::empty()));
    } else {
        assert(rss.push(s).drop_first() =~= rss.drop_first().push(s));
        lemma_count_all_push(rss.drop_first(), s);
    }
}

/// When every chunk is empty, the total record count is zero.
pub proof fn lemma_count_all_empty<T>(rss: Seq<Seq<T>>)
    requires
        forall|i: int| 0 <= i < rss.len() ==> (#[trigger] rss[i]).len() == 0,
    ensures
        count_all(rss) == 0,
    decreases rss.len(),
{
    if rss.len() > 0 {
        assert(rss[0].len() == 0);
        assert(forall|i: int| 0 <= i < rss.drop_first().len()
            ==> (#[trigger] rss.drop_first()[i]).len() == 0);
        lemma_count_all_empty(rss.drop_first());
    }
}

/// The keys of a record sequence, in order.
pub open spec fn keys_of<T: Sortable>(rs: Seq<T>) -> Seq<int> {
    rs.map_values(|r: T| r.key())
}

/// Appending a record appends its key.
pub proof fn lemma_keys_of_push<T: Sortable>(rs: Seq<T>, r: T)
    ensures
        keys_of(rs.push(r)) == keys_of(rs).push(r.key()),
{
    assert(keys_of(rs.push(r)) =~= keys_of(rs).push(r.key()));
}

/// How staging cuts an input into chunks, with buffer capacity `cap`: the
/// input is consumed in consecutive buffers of `cap` records (one record
/// per buffer when `cap` is zero), the last buffer possibly smaller, and
/// each chunk is its buffer rearranged into non-decreasing key order.
/// Together the chunks hold exactly the input's records.
pub open spec fn staging_of<T: Sortable>(chunks: Seq<Seq<T>>, input: Seq<T>, cap: int) -> bool {
    let m = if cap == 0 { 1int } else { cap };
    &&& count_all(chunks) == input.len()
    &&& ms_all(chunks) == input.to_multiset()
    &&& (forall|c: int| 0 <= c < chunks.len() ==> records_sorted(#[trigger] chunks[c]))
    &&& (forall|c: int| 0 <= c < chunks.len() ==> 0 < (#[trigger] chunks[c]).len() <= m)
    &&& (forall|c: int| 0 <= c < chunks.len() - 1 ==> (#[trigger] chunks[c]).len() == m)
    &&& (forall|c: int| 0 <= c < chunks.len() ==> (#[trigger] chunks[c]).to_multiset()
            == input.subrange(m * c, m * c + chunks[c].len()).to_multiset())
}

/// The records of all chunks of `rss`, as one multiset.
pub open spec fn ms_all<T>(rss: Seq<Seq<T>>) -> Multiset<T>
    decreases rss.len(),
{
    if rss.len() == 0 {
        Multiset::<T>::empty()
    } else {
        rss[0].to_multiset().add(ms_all(rss.drop_first()))
    }
}

/// Replacing one chunk trades its records for the new chunk's records.
pub proof fn lemma_ms_all_update<T>(rss: Seq<Seq<T>>, i: int, s: Seq<T>)
    requires
        0 <= i < rss.len(),
    ensures
        ms_all(rss.update(i, s)).add(rss[i].to_multiset())
            == ms_all(rss).add(s.to_multiset()),
    decreases rss.len(),
{
    broadcast use vstd::multiset::group_multiset_axioms;

    if i == 0 {
        assert(rss.update(0, s).drop_first() =~= rss.drop_first());
        assert(ms_all(rss.update(0, s)).add(rss[0].to_multiset())
            =~= ms_all(rss).add(s.to_multiset()));
    } else {
        assert(rss.update(i, s).drop_first() =~= rss.drop_first().update(i - 1, s));
        lemma_ms_all_update(rss.drop_first(), i - 1, s);
        assert(ms_all(rss.update(i, s))
            == rss[0].to_multiset().add(ms_all(rss.drop_first().update(i - 1, s))));
        assert(ms_all(rss.update(i, s)).add(rss[i].to_multiset())
            =~= rss[0].to_multiset().add(
                ms_all(rss.drop_first().update(i - 1, s)).add(rss.drop_first()[i - 1].to_multiset())));
        assert(ms_all(rss).add(s.to_multiset())
            =~= rss[0].to_multiset().add(ms_all(rss.drop_first()).add(s.to_multiset())));
    }
}

/// Adding a chunk adds its records to the multiset.
pub proof fn lemma_ms_all_push<T>(rss: Seq<Seq<T>>, s: Seq<T>)
    ensures
        ms_all(rss.push(s)) == ms_all(rss).add(s.to_multiset()),
    decreases rss.len(),
{
    broadcast use vstd::multiset::group_multiset_axioms;

    if rss.len() == 0 {
        assert(rss.push(s).drop_first() =~= Seq::<Seq<T>>::empty());
        assert(ms_all(Seq::<Seq<T>>::empty()) == Multiset::<T>::empty());
        assert(rss.push(s)[0] == s);
        assert(rss.push(s).len() == 1);
        assert(ms_all(rss.push(s))
            == rss.push(s)[0].to_multiset().add(ms_all(rss.push(s).drop_first())));
        assert(ms_all(rss.push(s)) == s.to_multiset().add(Multiset::<T>::empty()));
        assert(s.to_multiset().add(Multiset::<T>::empty())
            =~= Multiset::<T>::empty().add(s.to_multiset()));
    } else {
        assert(rss.push(s).drop_first() =~= rss.drop_first().push(s));
        lemma_ms_all_push(rss.drop_first(), s);
        assert(ms_all(rss.push(s))
            == rss[0].to_multiset().add(ms_all(rss.drop_first().push(s))));
        assert(rss[0].to_multiset().add(ms_all(rss.drop_first()).add(s.to_multiset()))
            =~= (rss[0].to_multiset().add(ms_all(rss.drop_first()))).add(s.to_multiset()));
    }
}

/// When every chunk is empty, the multiset of their records is empty.
pub proof fn lemma_ms_all_empty<T>(rss: Seq<Seq<T>>)
    requires
        forall|i: int| 0 <= i < rss.len() ==> (#[trigger] rss[i]).len() == 0,
    ensures
        ms_all(rss) == Multiset::<T>::empty(),
    decreases rss.len(),
{
    broadcast use vstd::multiset::group_multiset_axioms;
    broadcast use vstd::seq_lib::group_to_multiset_ensures;

    if rss.len() > 0 {
        assert(rss[0].len() == 0);
        assert(rss[0].to_multiset().len() == 0);
        assert(forall|i: int| 0 <= i < rss.drop_first().len()
            ==> (#[trigger] rss.drop_first()[i]).len() == 0);
        lemma_ms_all_empty(rss.drop_first());
        assert(ms_all(rss) =~= Multiset::<T>::empty());
    }
}

/// Taking the first record out of one non-empty chunk takes exactly that
/// record out of the multiset of all chunk records.
pub proof fn lemma_ms_all_pull_first<T>(rss: Seq<Seq<T>>, i: int)
    requires
        0 <= i < rss.len(),
        rss[i].len() > 0,
    ensures
        ms_all(rss.update(i, rss[i].drop_first())).insert(rss[i][0]) == ms_all(rss),
{
    broadcast use vstd::multiset::group_multiset_axioms;
    broadcast use vstd::seq_lib::group_to_multiset_ensures;

    let rs = rss[i];
    lemma_ms_all_update(rss, i, rs.drop_first());
    assert(rs.drop_first() =~= rs.remove(0));
    assert(rs.drop_first().to_multiset() == rs.to_multiset().remove(rs[0]));
    assert(rs.to_multiset().contains(rs[0]));
    let a0 = ms_all(rss);
    let a1 = ms_all(rss.update(i, rs.drop_first()));
    assert forall|x: T| a1.insert(rs[0]).count(x) == a0.count(x) by {
        assert(a1.add(rs.to_multiset()).count(x)
            == a0.add(rs.drop_first().to_multiset()).count(x));
        assert(rs.drop_first().to_multiset().count(x)
            == rs.to_multiset().remove(rs[0]).count(x));
        if x == rs[0] {
            assert(rs.to_multiset().count(x) >= 1);
        }
    }
    assert(a1.insert(rs[0]) =~= a0);
}

/// Moving the last element of a sequence over the one at `j`, and cutting
/// the tail, removes exactly one occurrence of the element at `j`.
pub proof fn lemma_pull_out_ms<T>(s: Seq<T>, j: int)
    requires
        0 <= j < s.len(),
    ensures
        s.update(j, s.last()).drop_last().to_multiset().insert(s[j]) == s.to_multiset(),
{
    broadcast use vstd::multiset::group_multiset_axioms;
    broadcast use vstd::seq_lib::group_to_multiset_ensures;

    let t = s.update(j, s.last()).drop_last();
    if j == s.len() - 1 {
        assert(t =~= s.drop_last());
        assert(s.drop_last().push(s[j]) =~= s);
        assert(s.drop_last().push(s[j]).to_multiset()
            =~= s.drop_last().to_multiset().insert(s[j]));
    } else {
        let a = s.take(j);
        let mid = s.subrange(j + 1, s.len() - 1);
        assert(s =~= a + (seq![s[j]] + (mid + seq![s.last()])));
        assert(t =~= a + (seq![s.last()] + mid));
        vstd::seq_lib::lemma_multiset_commutative(a, seq![s[j]] + (mid + seq![s.last()]));
        vstd::seq_lib::lemma_multiset_commutative(seq![s[j]], mid + seq![s.last()]);
        vstd::seq_lib::lemma_multiset_commutative(mid, seq![s.last()]);
        vstd::seq_lib::lemma_multiset_commutative(a, seq![s.last()] + mid);
        vstd::seq_lib::lemma_multiset_commutative(seq![s.last()], mid);
        assert(seq![s[j]].to_multiset() =~= Multiset::<T>::empty().insert(s[j]));
        assert(seq![s.last()].to_multiset() =~= Multiset::<T>::empty().insert(s.last()));
        assert(t.to_multiset().insert(s[j]) =~= s.to_multiset());
    }
}

/// The total record count is never negative.
pub proof fn lemma_count_all_nonneg<T>(rss: Seq<Seq<T>>)
    ensures
        count_all(rss) >= 0,
    decreases rss.len(),
{
    if rss.len() > 0 {
        lemma_count_all_nonneg(rss.drop_first());
    }
}

} // verus!
