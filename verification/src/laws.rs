//! Global properties of the scan, stated and proved over the listing
//! models of `scanner`.

use vstd::prelude::*;
use vstd::multiset::Multiset;
use vstd::seq_lib::lemma_multiset_commutative;
use crate::meta::MetaModel;
use crate::scanner::EntryModel;
use crate::scanner::drained_metas;
use crate::scanner::entry_metas;
use crate::scanner::metas_of;

verus! {

/// For a listing made only of regular files, the scan owes one record
/// per entry: the result has exactly the listing's length, and the
/// record at each position is the one derived from the entry there (so
/// each file's name and size appear once, at its own position).
pub proof fn lemma_files_only_listing(es: Seq<EntryModel>)
    requires
        forall|i: int| 0 <= i < es.len() ==> es[i] is File,
    ensures
        entry_metas(es).len() == es.len(),
        forall|i: int| 0 <= i < es.len() ==> entry_metas(es)[i] == metas_of(#[trigger] es[i])[0],
    decreases es.len(),
{
    if es.len() > 0 {
        let dl = es.drop_last();
        assert(forall|i: int| 0 <= i < dl.len() ==> dl[i] == es[i]);
        lemma_files_only_listing(dl);
        assert(es.last() is File);
        assert(metas_of(es.last()).len() == 1);
        assert forall|i: int| 0 <= i < es.len() implies entry_metas(es)[i] == metas_of(
            #[trigger] es[i],
        )[0] by {
            if i < es.len() - 1 {
                assert(entry_metas(es)[i] == entry_metas(dl)[i]);
            } else {
                assert(entry_metas(es)[i] == metas_of(es.last())[0]);
            }
        }
    }
}

/// Taking one entry out of a listing takes exactly that entry's records
/// out of the result, as multisets.
pub proof fn lemma_entry_metas_remove(es: Seq<EntryModel>, j: int)
    requires
        0 <= j < es.len(),
    ensures
        entry_metas(es).to_multiset() == entry_metas(es.remove(j)).to_multiset().add(
            metas_of(es[j]).to_multiset(),
        ),
    decreases es.len(),
{
    broadcast use vstd::multiset::group_multiset_axioms;

    if j == es.len() - 1 {
        assert(es.remove(j) =~= es.drop_last());
        lemma_multiset_commutative(entry_metas(es.drop_last()), metas_of(es.last()));
    } else {
        let dl = es.drop_last();
        lemma_entry_metas_remove(dl, j);
        assert(es.remove(j).drop_last() =~= dl.remove(j));
        assert(es.remove(j).last() == es.last());
        lemma_multiset_commutative(entry_metas(dl.remove(j)), metas_of(es.last()));
        lemma_multiset_commutative(entry_metas(dl), metas_of(es.last()));
        assert(entry_metas(es).to_multiset() =~= entry_metas(es.remove(j)).to_multiset().add(
            metas_of(es[j]).to_multiset(),
        ));
    }
}

/// The multiset of records owed for a listing depends only on the
/// multiset of its entries: two listings of the same directory that
/// differ only in enumeration order owe the same records.
pub proof fn lemma_listing_content_determined(es1: Seq<EntryModel>, es2: Seq<EntryModel>)
    requires
        es1.to_multiset() == es2.to_multiset(),
    ensures
        entry_metas(es1).to_multiset() == entry_metas(es2).to_multiset(),
    decreases es1.len(),
{
    broadcast use vstd::multiset::group_multiset_axioms;

    es1.to_multiset_ensures();
    es2.to_multiset_ensures();
    if es1.len() == 0 {
        assert(es2.len() == 0);
    } else {
        let e = es1.last();
        let j1 = es1.len() - 1;
        assert(es1[j1] == e);
        assert(es1.contains(e));
        assert(es2.to_multiset().count(e) > 0);
        assert(es2.contains(e));
        let j2 = choose|j: int| 0 <= j < es2.len() && es2[j] == e;
        assert(es1.remove(j1).to_multiset() == es1.to_multiset().remove(e));
        assert(es2.remove(j2).to_multiset() == es2.to_multiset().remove(e));
        lemma_listing_content_determined(es1.remove(j1), es2.remove(j2));
        lemma_entry_metas_remove(es1, j1);
        lemma_entry_metas_remove(es2, j2);
    }
}

/// The records produced by a whole scan: the concatenation, in visit
/// order, of the records owed for each visited directory's listing.
pub open spec fn run_metas(batches: Seq<Seq<EntryModel>>) -> Seq<MetaModel>
    decreases batches.len(),
{
    if batches.len() == 0 {
        Seq::empty()
    } else {
        run_metas(batches.drop_last()) + entry_metas(batches.last())
    }
}

/// The per-listing content a run saw: each visited directory's listing
/// reduced to its multiset of entries.
pub open spec fn listing_multisets(batches: Seq<Seq<EntryModel>>) -> Seq<Multiset<EntryModel>> {
    batches.map_values(|b: Seq<EntryModel>| b.to_multiset())
}

/// Taking one visited directory out of a run takes exactly that
/// listing's records out of the result, as multisets.
pub proof fn lemma_run_metas_remove(batches: Seq<Seq<EntryModel>>, j: int)
    requires
        0 <= j < batches.len(),
    ensures
        run_metas(batches).to_multiset() == run_metas(batches.remove(j)).to_multiset().add(
            entry_metas(batches[j]).to_multiset(),
        ),
    decreases batches.len(),
{
    broadcast use vstd::multiset::group_multiset_axioms;

    if j == batches.len() - 1 {
        assert(batches.remove(j) =~= batches.drop_last());
        lemma_multiset_commutative(run_metas(batches.drop_last()), entry_metas(batches.last()));
    } else {
        let dl = batches.drop_last();
        lemma_run_metas_remove(dl, j);
        assert(batches.remove(j).drop_last() =~= dl.remove(j));
        assert(batches.remove(j).last() == batches.last());
        lemma_multiset_commutative(run_metas(dl.remove(j)), entry_metas(batches.last()));
        lemma_multiset_commutative(run_metas(dl), entry_metas(batches.last()));
        assert(run_metas(batches).to_multiset() =~= run_metas(batches.remove(j)).to_multiset().add(
            entry_metas(batches[j]).to_multiset(),
        ));
    }
}

/// Scanning the same unchanged tree twice yields the same content: if
/// two runs see the same directory listings — visited in possibly
/// different order, each listing enumerated in possibly different order
/// — the two result sequences have identical multiset content.
pub proof fn lemma_scan_idempotent(batches1: Seq<Seq<EntryModel>>, batches2: Seq<Seq<EntryModel>>)
    requires
        listing_multisets(batches1).to_multiset() == listing_multisets(batches2).to_multiset(),
    ensures
        run_metas(batches1).to_multiset() == run_metas(batches2).to_multiset(),
    decreases batches1.len(),
{
    broadcast use vstd::multiset::group_multiset_axioms;

    let l1 = listing_multisets(batches1);
    let l2 = listing_multisets(batches2);
    l1.to_multiset_ensures();
    l2.to_multiset_ensures();
    if batches1.len() == 0 {
        assert(l1.len() == 0);
        assert(l2.len() == 0);
        assert(batches2.len() == 0);
    } else {
        let j1 = batches1.len() - 1;
        let m = batches1[j1].to_multiset();
        assert(l1[j1] == m);
        assert(l1.contains(m));
        assert(l2.to_multiset().count(m) > 0);
        assert(l2.contains(m));
        let j2 = choose|j: int| 0 <= j < l2.len() && l2[j] == m;
        assert(batches2[j2].to_multiset() == m);
        assert(listing_multisets(batches1.remove(j1)) =~= l1.remove(j1));
        assert(listing_multisets(batches2.remove(j2)) =~= l2.remove(j2));
        assert(l1.remove(j1).to_multiset() == l1.to_multiset().remove(m));
        assert(l2.remove(j2).to_multiset() == l2.to_multiset().remove(m));
        lemma_scan_idempotent(batches1.remove(j1), batches2.remove(j2));
        lemma_listing_content_determined(batches1[j1], batches2[j2]);
        lemma_run_metas_remove(batches1, j1);
        lemma_run_metas_remove(batches2, j2);
        assert(run_metas(batches1).to_multiset() =~= run_metas(batches2).to_multiset());
    }
}

/// `entry_metas` decomposed at the listing's head.
proof fn lemma_entry_metas_first(es: Seq<EntryModel>)
    requires
        es.len() > 0,
    ensures
        entry_metas(es) == metas_of(es[0]) + entry_metas(es.drop_first()),
    decreases es.len(),
{
    if es.len() == 1 {
        assert(es.drop_last() =~= Seq::<EntryModel>::empty());
        assert(es.drop_first() =~= Seq::<EntryModel>::empty());
        assert(Seq::<MetaModel>::empty() + metas_of(es[0]) =~= metas_of(es[0]));
        assert(metas_of(es[0]) + Seq::<MetaModel>::empty() =~= metas_of(es[0]));
    } else {
        let dl = es.drop_last();
        lemma_entry_metas_first(dl);
        assert(dl[0] == es[0]);
        assert(dl.drop_first() =~= es.drop_first().drop_last());
        assert(es.drop_first().last() == es.last());
        assert((metas_of(es[0]) + entry_metas(dl.drop_first())) + metas_of(es.last())
            =~= metas_of(es[0]) + (entry_metas(dl.drop_first()) + metas_of(es.last())));
        assert(entry_metas(es.drop_first()) == entry_metas(es.drop_first().drop_last()) + metas_of(
            es.drop_first().last(),
        ));
        assert(entry_metas(es) =~= metas_of(es[0]) + entry_metas(es.drop_first()));
    }
}

/// A listing stacked in reverse on the work list and then drained in
/// full emits exactly the listing's records, in listing order: the
/// work-list machine pays each listing what `entry_metas` owes it.
pub proof fn lemma_drained_reversed(es: Seq<EntryModel>)
    ensures
        drained_metas(es.reverse(), es.len()) == entry_metas(es),
    decreases es.len(),
{
    if es.len() > 0 {
        let rev = es.reverse();
        assert(rev.last() == es[0]);
        assert(rev.drop_last() =~= es.drop_first().reverse());
        lemma_drained_reversed(es.drop_first());
        lemma_entry_metas_first(es);
    }
}

} // verus!
