//! Anchor-greedy similarity clustering.
//!
//! Items are scanned in their given order. Each still-unclaimed item
//! becomes the anchor of a new group and absorbs every later
//! still-unclaimed item within the threshold distance of it; a group
//! is kept only with two or more members. This is deliberately not a
//! transitive closure: an item close to an absorbed member but not to
//! the anchor stays outside the group. The output order is a function
//! of the input order alone; the parallel distance evaluation is a
//! filter over a fixed sequence, never a race that reorders results.

use vstd::prelude::*;

use crate::cache::{
    load_groups_spec, phash_for, store_groups_spec, FileRowV, HashCache, HashRowV, StoreModel,
};
use crate::encoding::{decode_hash, decoded_bits, distance, hamming, is_valid_encoding, HashBits};
use crate::errors::CoreError;

verus! {

/// One clustering item: a file path with its decoded perceptual hash.
pub struct HashedFile {
    pub path: String,
    pub bits: HashBits,
}

/// The mathematical view of an item.
pub struct HashedFileV {
    pub path: Seq<char>,
    pub bits: Seq<bool>,
}

impl View for HashedFile {
    type V = HashedFileV;

    open spec fn view(&self) -> HashedFileV {
        HashedFileV { path: self.path@, bits: self.bits@ }
    }
}

impl DeepView for HashedFile {
    type V = HashedFileV;

    open spec fn deep_view(&self) -> HashedFileV {
        self@
    }
}

/// The indices after `j` (itself included) that the anchor absorbs:
/// those not claimed when the anchor's scan started and within the
/// threshold distance of the anchor.
pub open spec fn matches_from(
    items: Seq<HashedFileV>,
    t: u32,
    anchor: int,
    j: int,
    claimed: Set<int>,
) -> Seq<int>
    decreases items.len() - j,
{
    if j < 0 || j >= items.len() {
        Seq::empty()
    } else {
        let rest = matches_from(items, t, anchor, j + 1, claimed);
        if !claimed.contains(j) && hamming(items[anchor].bits, items[j].bits) <= t {
            seq![j] + rest
        } else {
            rest
        }
    }
}

/// The groups (as index lists) produced by the scan from position
/// `i` on, given the set of already claimed indices. Each group is
/// the anchor followed by its matches, and only groups with at least
/// one match are kept.
pub open spec fn greedy_from(items: Seq<HashedFileV>, t: u32, i: int, claimed: Set<int>) -> Seq<
    Seq<int>,
>
    decreases items.len() - i,
{
    if i < 0 || i >= items.len() {
        Seq::empty()
    } else if claimed.contains(i) {
        greedy_from(items, t, i + 1, claimed)
    } else {
        let ms = matches_from(items, t, i, i + 1, claimed);
        let claimed2 = claimed.insert(i).union(ms.to_set());
        let rest = greedy_from(items, t, i + 1, claimed2);
        if ms.len() >= 1 {
            seq![seq![i] + ms] + rest
        } else {
            rest
        }
    }
}

/// The paths of the items of one group.
pub open spec fn paths_of_group(items: Seq<HashedFileV>, g: Seq<int>) -> Seq<Seq<char>> {
    g.map_values(|j: int| items[j].path)
}

/// The paths of every group.
pub open spec fn paths_of_groups(items: Seq<HashedFileV>, gs: Seq<Seq<int>>) -> Seq<
    Seq<Seq<char>>,
> {
    gs.map_values(|g: Seq<int>| paths_of_group(items, g))
}

/// The duplicate groups of an item list under a threshold: the
/// anchor-greedy scan from the start with nothing claimed.
pub open spec fn cluster_groups(items: Seq<HashedFileV>, t: u32) -> Seq<Seq<Seq<char>>> {
    paths_of_groups(items, greedy_from(items, t, 0, Set::empty()))
}

/// Relies on rayon's `par_iter().map().collect()`: applies the
/// verified distance function to every item from `start` on, in
/// parallel, collecting the results in input order.
#[verifier::external_body]
fn par_distances(anchor: &HashBits, items: &Vec<HashedFile>, start: usize) -> (r: Vec<u32>)
    requires
        anchor.wf(),
        start <= items@.len(),
        forall|i: int| 0 <= i < items@.len() ==> (#[trigger] items@[i]).bits.wf(),
    ensures
        r@.len() == items@.len() - start,
        forall|k: int|
            0 <= k < r@.len() ==> (#[trigger] r@[k]) == hamming(
                anchor@,
                items@[start + k].bits@,
            ),
{
    rayon::iter::ParallelIterator::collect(
        rayon::iter::ParallelIterator::map(
            rayon::iter::IntoParallelRefIterator::par_iter(&items[start..]),
            |it: &HashedFile| distance(anchor, &it.bits),
        ),
    )
}

/// Partitions the items into duplicate groups: every group's members
/// are within `threshold` of the group's anchor (its first member),
/// claimed in scan order exactly as [`cluster_groups`] spells out.
pub fn find_duplicates(hashes: &Vec<HashedFile>, threshold: u32) -> (r: Vec<Vec<String>>)
    requires
        forall|i: int| 0 <= i < hashes@.len() ==> (#[trigger] hashes@[i]).bits.wf(),
    ensures
        r.deep_view() == cluster_groups(hashes.deep_view(), threshold),
{
    let ghost items = hashes.deep_view();
    let n = hashes.len();
    let mut processed: Vec<bool> = Vec::new();
    let mut k: usize = 0;
    while k < n
        invariant
            k <= n,
            processed@.len() == k,
            forall|j: int| 0 <= j < k ==> !(#[trigger] processed@[j]),
        decreases n - k,
    {
        processed.push(false);
        k = k + 1;
    }
    let mut groups_out: Vec<Vec<String>> = Vec::new();
    let ghost mut claimed: Set<int> = Set::empty();
    let ghost mut out_idx: Seq<Seq<int>> = Seq::empty();
    proof {
        assert(groups_out.deep_view() =~= paths_of_groups(items, out_idx));
    }
    let mut i: usize = 0;
    while i < n
        invariant
            n == hashes@.len(),
            items == hashes.deep_view(),
            forall|q: int| 0 <= q < hashes@.len() ==> (#[trigger] hashes@[q]).bits.wf(),
            i <= n,
            processed@.len() == n,
            forall|q: int| 0 <= q < n ==> (#[trigger] processed@[q]) == claimed.contains(q),
            forall|q: int| claimed.contains(q) ==> 0 <= q < n,
            greedy_from(items, threshold, 0, Set::empty()) == out_idx + greedy_from(
                items,
                threshold,
                i as int,
                claimed,
            ),
            groups_out.deep_view() == paths_of_groups(items, out_idx),
        decreases n - i,
    {
        if processed[i] {
            proof {
                assert(greedy_from(items, threshold, i as int, claimed) == greedy_from(
                    items,
                    threshold,
                    i as int + 1,
                    claimed,
                ));
            }
            i = i + 1;
            continue ;
        }
        let ghost claimed0 = claimed;
        let dists = par_distances(&hashes[i].bits, hashes, i + 1);
        let mut group: Vec<String> = Vec::new();
        group.push(hashes[i].path.clone());
        processed.set(i, true);
        let ghost mut collected: Seq<int> = Seq::empty();
        proof {
            claimed = claimed0.insert(i as int).union(collected.to_set());
            assert(claimed =~= claimed0.insert(i as int));
            assert(group.deep_view() =~= seq![items[i as int].path] + paths_of_group(
                items,
                collected,
            ));
        }
        let mut j: usize = i + 1;
        while j < n
            invariant
                n == hashes@.len(),
                items == hashes.deep_view(),
                forall|q: int| 0 <= q < hashes@.len() ==> (#[trigger] hashes@[q]).bits.wf(),
                i < n,
                i + 1 <= j <= n,
                dists@.len() == n - (i + 1),
                forall|q: int|
                    0 <= q < dists@.len() ==> (#[trigger] dists@[q]) == hamming(
                        items[i as int].bits,
                        items[i + 1 + q].bits,
                    ),
                processed@.len() == n,
                forall|q: int| 0 <= q < n ==> (#[trigger] processed@[q]) == claimed.contains(q),
                forall|q: int| claimed.contains(q) ==> 0 <= q < n,
                forall|q: int| claimed0.contains(q) ==> 0 <= q < n,
                !claimed0.contains(i as int),
                claimed == claimed0.insert(i as int).union(collected.to_set()),
                forall|q: int| collected.contains(q) ==> i < q < j,
                matches_from(items, threshold, i as int, i as int + 1, claimed0) == collected
                    + matches_from(items, threshold, i as int, j as int, claimed0),
                group.deep_view() == seq![items[i as int].path] + paths_of_group(
                    items,
                    collected,
                ),
            decreases n - j,
        {
            let was = processed[j];
            let within_t = dists[j - (i + 1)] <= threshold;
            proof {
                assert(dists@[j - (i + 1)] == hamming(items[i as int].bits, items[j as int].bits));
                assert(claimed.contains(j as int) == claimed0.contains(j as int)) by {
                    if collected.contains(j as int) {
                        assert(false);
                    }
                }
            }
            if !was && within_t {
                let ghost old_group = group.deep_view();
                group.push(hashes[j].path.clone());
                processed.set(j, true);
                proof {
                    let old_collected = collected;
                    collected = collected.push(j as int);
                    assert forall|q: int|
                        collected.contains(q) <==> old_collected.contains(q) || q
                        == j as int by {
                        if collected.contains(q) {
                            let idx = choose|idx: int|
                                0 <= idx < collected.len() && collected[idx] == q;
                            if idx < old_collected.len() {
                                assert(old_collected[idx] == q);
                            }
                        }
                        if old_collected.contains(q) {
                            let idx = choose|idx: int|
                                0 <= idx < old_collected.len() && old_collected[idx] == q;
                            assert(collected[idx] == q);
                        }
                        if q == j as int {
                            assert(collected[collected.len() - 1] == q);
                        }
                    }
                    assert(collected.to_set() =~= old_collected.to_set().insert(j as int));
                    claimed = claimed.insert(j as int);
                    assert(claimed =~= claimed0.insert(i as int).union(collected.to_set()));
                    assert(forall|q: int| collected.contains(q) ==> i < q < j + 1);
                    assert(paths_of_group(items, collected) =~= paths_of_group(
                        items,
                        old_collected,
                    ).push(items[j as int].path));
                    assert(group.deep_view() =~= old_group.push(items[j as int].path));
                    assert(group.deep_view() =~= seq![items[i as int].path] + paths_of_group(
                        items,
                        collected,
                    ));
                    // One absorbing step of the match scan.
                    assert(matches_from(items, threshold, i as int, j as int, claimed0)
                        == seq![j as int] + matches_from(
                        items,
                        threshold,
                        i as int,
                        j as int + 1,
                        claimed0,
                    ));
                    assert(old_collected + (seq![j as int] + matches_from(
                        items,
                        threshold,
                        i as int,
                        j as int + 1,
                        claimed0,
                    )) =~= collected + matches_from(
                        items,
                        threshold,
                        i as int,
                        j as int + 1,
                        claimed0,
                    ));
                }
            } else {
                proof {
                    assert(matches_from(items, threshold, i as int, j as int, claimed0)
                        == matches_from(items, threshold, i as int, j as int + 1, claimed0));
                }
            }
            j = j + 1;
        }
        proof {
            assert(matches_from(items, threshold, i as int, n as int, claimed0)
                =~= Seq::<int>::empty());
            assert(collected + Seq::<int>::empty() =~= collected);
            assert(matches_from(items, threshold, i as int, i as int + 1, claimed0) == collected);
        }
        let ghost ms = matches_from(items, threshold, i as int, i as int + 1, claimed0);
        if group.len() > 1 {
            proof {
                assert(group.deep_view().len() == 1 + collected.len());
                assert(ms.len() >= 1);
                let gidx = seq![i as int] + ms;
                assert(greedy_from(items, threshold, i as int, claimed0) == seq![gidx]
                    + greedy_from(items, threshold, i as int + 1, claimed));
                assert(paths_of_group(items, gidx) =~= seq![items[i as int].path]
                    + paths_of_group(items, collected));
                assert(group.deep_view() == paths_of_group(items, gidx));
            }
            groups_out.push(group);
            proof {
                let gidx = seq![i as int] + ms;
                let old_out = out_idx;
                out_idx = out_idx.push(gidx);
                assert(groups_out.deep_view() =~= paths_of_groups(items, old_out).push(
                    paths_of_group(items, gidx),
                ));
                assert(paths_of_groups(items, out_idx) =~= paths_of_groups(items, old_out).push(
                    paths_of_group(items, gidx),
                ));
                assert(out_idx + greedy_from(items, threshold, i as int + 1, claimed) =~= old_out
                    + (seq![gidx] + greedy_from(items, threshold, i as int + 1, claimed)));
            }
        } else {
            proof {
                assert(collected.len() == 0);
                assert(ms.len() == 0);
                assert(greedy_from(items, threshold, i as int, claimed0) == greedy_from(
                    items,
                    threshold,
                    i as int + 1,
                    claimed,
                ));
            }
        }
        i = i + 1;
    }
    proof {
        assert(greedy_from(items, threshold, n as int, claimed) =~= Seq::<Seq<int>>::empty());
        assert(out_idx + Seq::<Seq<int>>::empty() =~= out_idx);
        assert(groups_out.deep_view() == cluster_groups(items, threshold));
    }
    groups_out
}

/// Every group the scan keeps has at least two members: the anchor
/// and at least one absorbed match. Size-one groups carry no
/// duplicate information and are dropped.
proof fn lemma_greedy_min_size(items: Seq<HashedFileV>, t: u32, i: int, claimed: Set<int>)
    ensures
        forall|g: int|
            0 <= g < greedy_from(items, t, i, claimed).len() ==> (#[trigger] greedy_from(
                items,
                t,
                i,
                claimed,
            )[g]).len() >= 2,
    decreases items.len() - i,
{
    if i < 0 || i >= items.len() {
    } else if claimed.contains(i) {
        lemma_greedy_min_size(items, t, i + 1, claimed);
        let out = greedy_from(items, t, i, claimed);
        let rest = greedy_from(items, t, i + 1, claimed);
        assert forall|g: int| 0 <= g < out.len() implies (#[trigger] out[g]).len() >= 2 by {
            assert(out[g] == rest[g]);
        }
    } else {
        let ms = matches_from(items, t, i, i + 1, claimed);
        let claimed2 = claimed.insert(i).union(ms.to_set());
        lemma_greedy_min_size(items, t, i + 1, claimed2);
        let out = greedy_from(items, t, i, claimed);
        let rest = greedy_from(items, t, i + 1, claimed2);
        if ms.len() >= 1 {
            assert forall|g: int| 0 <= g < out.len() implies (#[trigger] out[g]).len() >= 2 by {
                if g == 0 {
                    assert(out[0] == seq![i] + ms);
                } else {
                    assert(out[g] == rest[g - 1]);
                }
            }
        } else {
            assert forall|g: int| 0 <= g < out.len() implies (#[trigger] out[g]).len() >= 2 by {
                assert(out[g] == rest[g]);
            }
        }
    }
}

/// Every duplicate group has two or more member paths.
pub proof fn lemma_cluster_groups_min_size(items: Seq<HashedFileV>, t: u32)
    ensures
        forall|g: int|
            0 <= g < cluster_groups(items, t).len() ==> (#[trigger] cluster_groups(items, t)[g]).len()
                >= 2,
{
    lemma_greedy_min_size(items, t, 0, Set::empty());
    let gs = greedy_from(items, t, 0, Set::empty());
    assert forall|g: int|
        0 <= g < cluster_groups(items, t).len() implies (#[trigger] cluster_groups(items, t)[g]).len()
        >= 2 by {
        assert(cluster_groups(items, t)[g] == paths_of_group(items, gs[g]));
        assert(paths_of_group(items, gs[g]).len() == gs[g].len());
    }
}

/// Threshold boundary: two items are grouped exactly when the
/// distance of their hashes is within the threshold. In particular,
/// at distance equal to the threshold they are grouped, and at
/// distance threshold + 1 they are not.
pub proof fn lemma_threshold_boundary(items: Seq<HashedFileV>, t: u32)
    requires
        items.len() == 2,
    ensures
        hamming(items[0].bits, items[1].bits) <= t ==> cluster_groups(items, t) == seq![
            seq![items[0].path, items[1].path],
        ],
        hamming(items[0].bits, items[1].bits) > t ==> cluster_groups(items, t) == Seq::<
            Seq<Seq<char>>,
        >::empty(),
{
    let none: Set<int> = Set::empty();
    let ms0 = matches_from(items, t, 0, 1, none);
    assert(matches_from(items, t, 0, 2, none) =~= Seq::<int>::empty());
    assert(matches_from(items, t, 1, 2, none) =~= Seq::<int>::empty());
    if hamming(items[0].bits, items[1].bits) <= t {
        assert(ms0 =~= seq![1int]);
        let claimed2 = none.insert(0).union(ms0.to_set());
        assert(claimed2.contains(1int)) by {
            assert(ms0.contains(1int)) by {
                assert(ms0[0] == 1int);
            }
        }
        assert(greedy_from(items, t, 2, claimed2) =~= Seq::<Seq<int>>::empty());
        assert(greedy_from(items, t, 1, claimed2) =~= Seq::<Seq<int>>::empty());
        assert(greedy_from(items, t, 0, none) =~= seq![seq![0int] + ms0]);
        assert(seq![0int] + ms0 =~= seq![0int, 1int]);
        assert(paths_of_group(items, seq![0int, 1int]) =~= seq![items[0].path, items[1].path]);
        assert(cluster_groups(items, t) =~~= seq![seq![items[0].path, items[1].path]]);
    } else {
        assert(ms0 =~= Seq::<int>::empty());
        let claimed2 = none.insert(0).union(ms0.to_set());
        assert(!claimed2.contains(1int));
        let ms1 = matches_from(items, t, 1, 2, claimed2);
        assert(ms1 =~= Seq::<int>::empty());
        let claimed3 = claimed2.insert(1).union(ms1.to_set());
        assert(greedy_from(items, t, 2, claimed3) =~= Seq::<Seq<int>>::empty());
        assert(greedy_from(items, t, 1, claimed2) =~= Seq::<Seq<int>>::empty());
        assert(greedy_from(items, t, 0, none) =~= Seq::<Seq<int>>::empty());
        assert(cluster_groups(items, t) =~~= Seq::<Seq<Seq<char>>>::empty());
    }
}

// ---------------------------------------------------------------------------
// The cache-backed path
// ---------------------------------------------------------------------------
/// The file rows whose stored hash is a well-formed encoding.
pub open spec fn decodable_files(files: Seq<FileRowV>, hashes: Seq<HashRowV>) -> Seq<FileRowV> {
    files.filter(|f: FileRowV| is_valid_encoding(phash_for(hashes, f.sha256)->0))
}

/// The clustering items a store yields: each decodable file row with
/// its decoded hash bits; rows whose hash fails to decode are
/// skipped.
pub open spec fn decoded_of(files: Seq<FileRowV>, hashes: Seq<HashRowV>) -> Seq<HashedFileV> {
    decodable_files(files, hashes).map_values(
        |f: FileRowV| HashedFileV { path: f.path, bits: decoded_bits(phash_for(hashes, f.sha256)->0) },
    )
}

/// The clustering items of a store.
pub open spec fn decoded_items(m: StoreModel) -> Seq<HashedFileV> {
    decoded_of(m.files, m.hashes)
}

/// Rebuilds duplicate groups purely from the store, with no
/// filesystem scanning or rehashing. Cached groups are used when
/// their fingerprint still matches; otherwise every stored hash is
/// decoded (skipping the undecodable), the groups are recomputed by
/// the anchor-greedy scan, and the result is persisted so the next
/// call with an unchanged store can shortcut.
pub fn get_duplicates_from_cache(cache: &mut HashCache, threshold: u32) -> (r: Result<
    Vec<Vec<String>>,
    CoreError,
>)
    requires
        old(cache).wf(),
    ensures
        final(cache).wf(),
        r is Ok ==> (if load_groups_spec(old(cache)@, threshold) is Some {
            &&& r->Ok_0.deep_view() == load_groups_spec(old(cache)@, threshold)->0
            &&& final(cache)@ == old(cache)@
        } else {
            &&& r->Ok_0.deep_view() == cluster_groups(decoded_items(old(cache)@), threshold)
            &&& final(cache)@ == store_groups_spec(
                old(cache)@,
                threshold,
                cluster_groups(decoded_items(old(cache)@), threshold),
            )
        }),
        r is Err ==> final(cache)@ == old(cache)@ && r->Err_0 is Store,
        load_groups_spec(old(cache)@, threshold) is Some ==> r is Ok,
{
    match cache.get_cached_duplicate_groups(threshold) {
        Some(groups) => {
            return Ok(groups);
        },
        None => {},
    }
    let ghost m = cache@;
    let entries = cache.get_all_cached_hashes();
    let mut items: Vec<HashedFile> = Vec::new();
    let mut i: usize = 0;
    proof {
        reveal(Seq::filter);
        assert(items.deep_view() =~= decoded_of(m.files.subrange(0, 0), m.hashes));
    }
    while i < entries.len()
        invariant
            cache.wf(),
            cache@ == m,
            entries@.len() == m.files.len(),
            forall|q: int|
                0 <= q < entries@.len() ==> (#[trigger] entries@[q].0@) == m.files[q].path
                    && entries@[q].1@ == phash_for(m.hashes, m.files[q].sha256)->0,
            i <= entries@.len(),
            items.deep_view() == decoded_of(m.files.subrange(0, i as int), m.hashes),
            forall|q: int| 0 <= q < items@.len() ==> (#[trigger] items@[q]).bits.wf(),
        decreases entries@.len() - i,
    {
        let ghost pre = m.files.subrange(0, i as int);
        let ghost cur = m.files.subrange(0, i as int + 1);
        proof {
            reveal(Seq::filter);
            assert(cur.drop_last() =~= pre);
            assert(cur.last() == m.files[i as int]);
        }
        match decode_hash(entries[i].1.as_str()) {
            Some(bits) => {
                let ghost before = items.deep_view();
                items.push(HashedFile { path: entries[i].0.clone(), bits });
                proof {
                    reveal(Seq::filter);
                    assert(entries@[i as int].0@ == m.files[i as int].path);
                    assert(entries@[i as int].1@ == phash_for(m.hashes, m.files[i as int].sha256)->0);
                    assert(is_valid_encoding(phash_for(m.hashes, m.files[i as int].sha256)->0));
                    assert(items.deep_view() =~= before.push(
                        HashedFileV {
                            path: m.files[i as int].path,
                            bits: decoded_bits(phash_for(m.hashes, m.files[i as int].sha256)->0),
                        },
                    ));
                    assert(decodable_files(cur, m.hashes) =~= decodable_files(pre, m.hashes).push(
                        m.files[i as int],
                    ));
                    assert(items.deep_view() =~= decoded_of(cur, m.hashes));
                }
            },
            None => {
                proof {
                    reveal(Seq::filter);
                    assert(entries@[i as int].0@ == m.files[i as int].path);
                    assert(entries@[i as int].1@ == phash_for(m.hashes, m.files[i as int].sha256)->0);
                    assert(!is_valid_encoding(phash_for(m.hashes, m.files[i as int].sha256)->0));
                    assert(decodable_files(cur, m.hashes) =~= decodable_files(pre, m.hashes));
                    assert(items.deep_view() =~= decoded_of(cur, m.hashes));
                }
            },
        }
        i = i + 1;
    }
    proof {
        assert(m.files.subrange(0, m.files.len() as int) =~= m.files);
        assert(items.deep_view() == decoded_items(m));
    }
    let groups = find_duplicates(&items, threshold);
    match cache.store_duplicate_groups(threshold, &groups) {
        Ok(()) => Ok(groups),
        Err(e) => Err(e),
    }
}

// ---------------------------------------------------------------------------
// Pagination
// ---------------------------------------------------------------------------
/// The page of a group list: skip `offset` groups (all of them when
/// the offset lies beyond the end), then keep at most `limit`.
pub open spec fn page_of(groups: Seq<Seq<Seq<char>>>, offset: int, limit: Option<usize>) -> Seq<
    Seq<Seq<char>>,
> {
    let rest = if offset >= groups.len() {
        Seq::empty()
    } else {
        groups.skip(offset)
    };
    match limit {
        Some(l) => if (l as int) < rest.len() {
            rest.take(l as int)
        } else {
            rest
        },
        None => rest,
    }
}

/// A copy of one group.
fn clone_group(v: &Vec<String>) -> (r: Vec<String>)
    ensures
        r.deep_view() == v.deep_view(),
{
    let mut out: Vec<String> = Vec::new();
    let mut i: usize = 0;
    while i < v.len()
        invariant
            i <= v@.len(),
            out@.len() == i,
            forall|j: int| 0 <= j < i ==> (#[trigger] out@[j]@) == v@[j]@,
        decreases v@.len() - i,
    {
        out.push(v[i].clone());
        i = i + 1;
    }
    proof {
        assert(out.deep_view() =~= v.deep_view());
    }
    out
}

/// Applies pagination to a computed group list; used by callers that
/// page through results after full clustering.
pub fn paginate_groups(groups: &Vec<Vec<String>>, offset: usize, limit: Option<usize>) -> (r: Vec<
    Vec<String>,
>)
    ensures
        r.deep_view() == page_of(groups.deep_view(), offset as int, limit),
{
    let start = if offset > groups.len() {
        groups.len()
    } else {
        offset
    };
    let end = match limit {
        Some(l) => {
            if l < groups.len() - start {
                start + l
            } else {
                groups.len()
            }
        },
        None => groups.len(),
    };
    let mut out: Vec<Vec<String>> = Vec::new();
    let mut i: usize = start;
    proof {
        assert(out.deep_view() =~= groups.deep_view().subrange(start as int, start as int));
    }
    while i < end
        invariant
            start <= i <= end,
            end <= groups@.len(),
            out.deep_view() == groups.deep_view().subrange(start as int, i as int),
        decreases end - i,
    {
        let ghost before = out.deep_view();
        out.push(clone_group(&groups[i]));
        proof {
            assert(out.deep_view() =~= before.push(groups.deep_view()[i as int]));
            assert(out.deep_view() =~= groups.deep_view().subrange(start as int, i as int + 1));
        }
        i = i + 1;
    }
    proof {
        let gv = groups.deep_view();
        let page = page_of(gv, offset as int, limit);
        assert(gv.subrange(start as int, end as int) =~= page);
    }
    out
}

} // verus!

