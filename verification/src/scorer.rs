use crate::winnow::Fingerprint;
use vstd::prelude::*;

verus! {

/// One posting of the fingerprint index: a fingerprint and the submission
/// it came from.
#[derive(Clone, Copy, Debug, PartialEq, Eq, Structural)]
pub struct IndexEntry {
    pub fp: Fingerprint,
    pub submission: usize,
}

/// One hash's posting list.
#[derive(Debug)]
pub struct Bucket {
    pub hash: u64,
    pub entries: Vec<IndexEntry>,
}

/// The fingerprint index of one file: every hash that any submission's
/// fingerprints contain, with the list of who has it and where.
#[derive(Debug)]
pub struct FingerprintIndex {
    pub buckets: Vec<Bucket>,
}

/// Each hash owns at most one bucket.
pub open spec fn index_wf(buckets: Seq<Bucket>) -> bool {
    forall|i: int, j: int|
        0 <= i < j < buckets.len() ==> (#[trigger] buckets[i]).hash != (#[trigger] buckets[j]).hash
}

/// The postings one submission's fingerprint list contributes for hash `h`,
/// in list order.
pub open spec fn sub_entries(fps: Seq<Fingerprint>, s: usize, h: u64) -> Seq<IndexEntry>
    decreases fps.len(),
{
    if fps.len() == 0 {
        Seq::empty()
    } else {
        sub_entries(fps.drop_last(), s, h) + if fps.last().hash == h {
            seq![IndexEntry { fp: fps.last(), submission: s }]
        } else {
            Seq::empty()
        }
    }
}

/// All postings for hash `h` over every submission, submissions in order.
pub open spec fn entries_of(all: Seq<Seq<Fingerprint>>, h: u64) -> Seq<IndexEntry>
    decreases all.len(),
{
    if all.len() == 0 {
        Seq::empty()
    } else {
        entries_of(all.drop_last(), h) + sub_entries(
            all.last(),
            (all.len() - 1) as usize,
            h,
        )
    }
}

/// What the index holds for hash `h`: the entries of its bucket, or nothing.
pub open spec fn index_entries(buckets: Seq<Bucket>, h: u64) -> Seq<IndexEntry>
    decreases buckets.len(),
{
    if buckets.len() == 0 {
        Seq::empty()
    } else if buckets[0].hash == h {
        buckets[0].entries@
    } else {
        index_entries(buckets.drop_first(), h)
    }
}

pub open spec fn fp_views(vs: Seq<Vec<Fingerprint>>) -> Seq<Seq<Fingerprint>> {
    vs.map(|_i: int, v: Vec<Fingerprint>| v@)
}

/// Some fingerprint of the list carries hash `h`.
pub open spec fn hash_in(fps: Seq<Fingerprint>, h: u64) -> bool {
    exists|i: int| 0 <= i < fps.len() && (#[trigger] fps[i]).hash == h
}

proof fn lemma_index_entries_at(buckets: Seq<Bucket>, k: int)
    requires
        index_wf(buckets),
        0 <= k < buckets.len(),
    ensures
        index_entries(buckets, buckets[k].hash) == buckets[k].entries@,
    decreases buckets.len(),
{
    if k == 0 {
    } else {
        assert(buckets[0].hash != buckets[k].hash);
        assert(index_wf(buckets.drop_first())) by {
            assert forall|i: int, j: int| 0 <= i < j < buckets.drop_first().len() implies (
            #[trigger] buckets.drop_first()[i]).hash != (#[trigger] buckets.drop_first()[j]).hash by {
                assert(buckets.drop_first()[i] == buckets[i + 1]);
                assert(buckets.drop_first()[j] == buckets[j + 1]);
            }
        }
        lemma_index_entries_at(buckets.drop_first(), k - 1);
        assert(buckets.drop_first()[k - 1] == buckets[k]);
    }
}

proof fn lemma_index_entries_absent(buckets: Seq<Bucket>, h: u64)
    requires
        forall|k: int| 0 <= k < buckets.len() ==> (#[trigger] buckets[k]).hash != h,
    ensures
        index_entries(buckets, h) == Seq::<IndexEntry>::empty(),
    decreases buckets.len(),
{
    if buckets.len() > 0 {
        assert forall|k: int| 0 <= k < buckets.drop_first().len() implies (
        #[trigger] buckets.drop_first()[k]).hash != h by {
            assert(buckets.drop_first()[k] == buckets[k + 1]);
        }
        lemma_index_entries_absent(buckets.drop_first(), h);
    }
}

proof fn lemma_index_entries_update(buckets: Seq<Bucket>, k: int, b2: Bucket)
    requires
        index_wf(buckets),
        0 <= k < buckets.len(),
        b2.hash == buckets[k].hash,
    ensures
        index_wf(buckets.update(k, b2)),
        index_entries(buckets.update(k, b2), b2.hash) == b2.entries@,
        forall|h: u64|
            h != b2.hash ==> index_entries(buckets.update(k, b2), h) == index_entries(buckets, h),
    decreases buckets.len(),
{
    let u = buckets.update(k, b2);
    assert(index_wf(u)) by {
        assert forall|i: int, j: int| 0 <= i < j < u.len() implies (#[trigger] u[i]).hash != (
        #[trigger] u[j]).hash by {
            assert(u[i].hash == buckets[i].hash);
            assert(u[j].hash == buckets[j].hash);
        }
    }
    lemma_index_entries_at(u, k);
    assert forall|h: u64| h != b2.hash implies index_entries(u, h) == index_entries(
        buckets,
        h,
    ) by {
        lemma_index_entries_other(buckets, k, b2, h);
    }
}

proof fn lemma_index_entries_other(buckets: Seq<Bucket>, k: int, b2: Bucket, h: u64)
    requires
        0 <= k < buckets.len(),
        b2.hash == buckets[k].hash,
        h != b2.hash,
    ensures
        index_entries(buckets.update(k, b2), h) == index_entries(buckets, h),
    decreases buckets.len(),
{
    let u = buckets.update(k, b2);
    if k == 0 {
        assert(u.drop_first() =~= buckets.drop_first());
    } else {
        assert(u[0] == buckets[0]);
        if buckets[0].hash == h {
        } else {
            assert(u.drop_first() =~= buckets.drop_first().update(k - 1, b2));
            lemma_index_entries_other(buckets.drop_first(), k - 1, b2, h);
        }
    }
}

proof fn lemma_index_entries_push(buckets: Seq<Bucket>, b: Bucket)
    requires
        forall|k: int| 0 <= k < buckets.len() ==> (#[trigger] buckets[k]).hash != b.hash,
    ensures
        index_entries(buckets.push(b), b.hash) == b.entries@,
        forall|h: u64|
            h != b.hash ==> index_entries(buckets.push(b), h) == index_entries(buckets, h),
    decreases buckets.len(),
{
    let u = buckets.push(b);
    if buckets.len() == 0 {
        assert(u[0] == b);
        assert forall|h: u64| h != b.hash implies index_entries(u, h) == index_entries(
            buckets,
            h,
        ) by {
            assert(u.drop_first() =~= Seq::<Bucket>::empty());
            assert(index_entries(u, h) == index_entries(u.drop_first(), h));
            assert(index_entries(u.drop_first(), h) == Seq::<IndexEntry>::empty());
            assert(index_entries(buckets, h) == Seq::<IndexEntry>::empty());
        }
    } else {
        assert(u[0] == buckets[0]);
        assert(u[0].hash != b.hash);
        assert(u.drop_first() =~= buckets.drop_first().push(b));
        assert forall|k: int| 0 <= k < buckets.drop_first().len() implies (
        #[trigger] buckets.drop_first()[k]).hash != b.hash by {
            assert(buckets.drop_first()[k] == buckets[k + 1]);
        }
        lemma_index_entries_push(buckets.drop_first(), b);
        assert forall|h: u64| h != b.hash implies index_entries(u, h) == index_entries(
            buckets,
            h,
        ) by {
            if buckets[0].hash == h {
                assert(index_entries(u, h) == u[0].entries@);
                assert(index_entries(buckets, h) == buckets[0].entries@);
            } else {
                assert(index_entries(u, h) == index_entries(u.drop_first(), h));
                assert(index_entries(buckets.drop_first().push(b), h) == index_entries(
                    buckets.drop_first(),
                    h,
                ));
                assert(index_entries(buckets, h) == index_entries(buckets.drop_first(), h));
            }
        }
    }
}

proof fn lemma_sub_entries_step(fps: Seq<Fingerprint>, s: usize, n: int, h: u64)
    requires
        0 <= n < fps.len(),
    ensures
        sub_entries(fps.take(n + 1), s, h) == sub_entries(fps.take(n), s, h) + (if fps[n].hash == h {
            seq![IndexEntry { fp: fps[n], submission: s }]
        } else {
            Seq::<IndexEntry>::empty()
        }),
{
    assert(fps.take(n + 1).drop_last() =~= fps.take(n));
    assert(fps.take(n + 1).last() == fps[n]);
    assert(fps.take(n + 1).len() == n + 1);
}

proof fn lemma_entries_of_step(all: Seq<Seq<Fingerprint>>, s: int, h: u64)
    requires
        0 <= s < all.len(),
    ensures
        entries_of(all.take(s + 1), h) == entries_of(all.take(s), h) + sub_entries(
            all[s],
            s as usize,
            h,
        ),
{
    assert(all.take(s + 1).drop_last() =~= all.take(s));
    assert(all.take(s + 1).last() == all[s]);
    assert(all.take(s + 1).len() == s + 1);
}

fn find_bucket(buckets: &Vec<Bucket>, h: u64) -> (r: Option<usize>)
    ensures
        match r {
            Some(k) => k < buckets@.len() && buckets@[k as int].hash == h,
            None => forall|k: int| 0 <= k < buckets@.len() ==> (#[trigger] buckets@[k]).hash != h,
        },
{
    let mut k: usize = 0;
    while k < buckets.len()
        invariant
            k <= buckets@.len(),
            forall|i: int| 0 <= i < k ==> (#[trigger] buckets@[i]).hash != h,
        decreases buckets@.len() - k,
    {
        if buckets[k].hash == h {
            return Some(k);
        }
        k += 1;
    }
    None
}

/// Add one submission's fingerprints to the index: each fingerprint joins
/// the posting list of its hash, in order.
fn insert_fingerprints(index: &mut FingerprintIndex, fps: &Vec<Fingerprint>, s: usize)
    requires
        index_wf(old(index).buckets@),
    ensures
        index_wf(final(index).buckets@),
        forall|h: u64|
            #[trigger] index_entries(final(index).buckets@, h) == index_entries(
                old(index).buckets@,
                h,
            ) + sub_entries(fps@, s, h),
{
    let mut n: usize = 0;
    proof {
        assert forall|h: u64| #[trigger] index_entries(index.buckets@, h) == index_entries(
            old(index).buckets@,
            h,
        ) + sub_entries(fps@.take(0), s, h) by {
            assert(sub_entries(fps@.take(0), s, h) =~= Seq::<IndexEntry>::empty());
            assert(index_entries(index.buckets@, h) + Seq::<IndexEntry>::empty() =~= index_entries(
                index.buckets@,
                h,
            ));
        }
    }
    while n < fps.len()
        invariant
            n <= fps@.len(),
            index_wf(index.buckets@),
            forall|h: u64|
                #[trigger] index_entries(index.buckets@, h) == index_entries(
                    old(index).buckets@,
                    h,
                ) + sub_entries(fps@.take(n as int), s, h),
        decreases fps@.len() - n,
    {
        let f = fps[n];
        let e = IndexEntry { fp: f, submission: s };
        let ghost pre = index.buckets@;
        match find_bucket(&index.buckets, f.hash) {
            Some(k) => {
                let mut b = index.buckets.remove(k);
                b.entries.push(e);
                let ghost b2 = b;
                index.buckets.insert(k, b);
                proof {
                    assert(b2.hash == pre[k as int].hash);
                    assert(b2.entries@ == pre[k as int].entries@.push(e));
                    assert(index.buckets@ =~= pre.update(k as int, b2));
                    lemma_index_entries_update(pre, k as int, b2);
                    lemma_index_entries_at(pre, k as int);
                    assert forall|h: u64| #[trigger] index_entries(index.buckets@, h)
                        == index_entries(pre, h) + (if h == f.hash {
                        seq![e]
                    } else {
                        Seq::<IndexEntry>::empty()
                    }) by {
                        if h == f.hash {
                            assert(index_entries(index.buckets@, h) == b2.entries@);
                            assert(pre[k as int].entries@.push(e) =~= pre[k as int].entries@
                                + seq![e]);
                        } else {
                            assert(index_entries(index.buckets@, h) + Seq::<IndexEntry>::empty()
                                =~= index_entries(index.buckets@, h));
                        }
                    }
                }
            },
            None => {
                let mut entries: Vec<IndexEntry> = Vec::new();
                entries.push(e);
                let b = Bucket { hash: f.hash, entries };
                let ghost b2 = b;
                index.buckets.push(b);
                proof {
                    assert(index.buckets@ == pre.push(b2));
                    lemma_index_entries_push(pre, b2);
                    lemma_index_entries_absent(pre, f.hash);
                    assert forall|h: u64| #[trigger] index_entries(index.buckets@, h)
                        == index_entries(pre, h) + (if h == f.hash {
                        seq![e]
                    } else {
                        Seq::<IndexEntry>::empty()
                    }) by {
                        if h == f.hash {
                            assert(index_entries(index.buckets@, h) == b2.entries@);
                            assert(b2.entries@ =~= Seq::<IndexEntry>::empty() + seq![e]);
                        } else {
                            assert(index_entries(index.buckets@, h) + Seq::<IndexEntry>::empty()
                                =~= index_entries(index.buckets@, h));
                        }
                    }
                    assert(index_wf(index.buckets@)) by {
                        assert forall|i: int, j: int| 0 <= i < j < index.buckets@.len() implies (
                        #[trigger] index.buckets@[i]).hash != (
                        #[trigger] index.buckets@[j]).hash by {
                            if j < pre.len() {
                                assert(index.buckets@[i] == pre[i]);
                                assert(index.buckets@[j] == pre[j]);
                            } else {
                                assert(index.buckets@[i] == pre[i]);
                                assert(index.buckets@[j] == b2);
                            }
                        }
                    }
                }
            },
        }
        n += 1;
        proof {
            assert forall|h: u64| #[trigger] index_entries(index.buckets@, h) == index_entries(
                old(index).buckets@,
                h,
            ) + sub_entries(fps@.take(n as int), s, h) by {
                lemma_sub_entries_step(fps@, s, n - 1, h);
                if h == f.hash {
                    assert(index_entries(index.buckets@, h) == index_entries(pre, h) + seq![e]);
                    assert((index_entries(old(index).buckets@, h) + sub_entries(
                        fps@.take(n - 1),
                        s,
                        h,
                    )) + seq![e] =~= index_entries(old(index).buckets@, h) + (sub_entries(
                        fps@.take(n - 1),
                        s,
                        h,
                    ) + seq![e]));
                } else {
                    assert(index_entries(index.buckets@, h) == index_entries(pre, h)
                        + Seq::<IndexEntry>::empty());
                    assert(index_entries(pre, h) + Seq::<IndexEntry>::empty() =~= index_entries(
                        pre,
                        h,
                    ));
                    assert(sub_entries(fps@.take(n as int), s, h) =~= sub_entries(
                        fps@.take(n - 1),
                        s,
                        h,
                    ));
                }
            }
        }
    }
    proof {
        assert(fps@.take(fps@.len() as int) =~= fps@);
    }
}

/// Build the index of every submission's fingerprints for one file.
pub fn build_index(all_fps: &Vec<Vec<Fingerprint>>) -> (r: FingerprintIndex)
    ensures
        index_wf(r.buckets@),
        forall|h: u64|
            #[trigger] index_entries(r.buckets@, h) == entries_of(fp_views(all_fps@), h),
{
    let mut index = FingerprintIndex { buckets: Vec::new() };
    let mut s: usize = 0;
    let ghost views = fp_views(all_fps@);
    proof {
        assert forall|h: u64| #[trigger] index_entries(index.buckets@, h) == entries_of(
            views.take(0),
            h,
        ) by {
            assert(views.take(0) =~= Seq::<Seq<Fingerprint>>::empty());
        }
    }
    while s < all_fps.len()
        invariant
            s <= all_fps@.len(),
            views == fp_views(all_fps@),
            index_wf(index.buckets@),
            forall|h: u64|
                #[trigger] index_entries(index.buckets@, h) == entries_of(views.take(s as int), h),
        decreases all_fps@.len() - s,
    {
        let ghost pre = index.buckets@;
        insert_fingerprints(&mut index, &all_fps[s], s);
        s += 1;
        proof {
            assert forall|h: u64| #[trigger] index_entries(index.buckets@, h) == entries_of(
                views.take(s as int),
                h,
            ) by {
                lemma_entries_of_step(views, s - 1, h);
                assert(views[s - 1] == all_fps@[s - 1]@);
            }
        }
    }
    proof {
        assert(views.take(all_fps@.len() as int) =~= views);
    }
    index
}

fn contains_hash(fps: &Vec<Fingerprint>, h: u64) -> (r: bool)
    ensures
        r == hash_in(fps@, h),
{
    let mut i: usize = 0;
    while i < fps.len()
        invariant
            i <= fps@.len(),
            forall|k: int| 0 <= k < i ==> (#[trigger] fps@[k]).hash != h,
        decreases fps@.len() - i,
    {
        if fps[i].hash == h {
            return true;
        }
        i += 1;
    }
    false
}

/// Template suppression: drop every bucket whose hash occurs anywhere in the
/// template's full fingerprint list; all other buckets survive unchanged.
pub fn remove_template_hashes(index: FingerprintIndex, template: &Vec<Fingerprint>) -> (r:
    FingerprintIndex)
    requires
        index_wf(index.buckets@),
    ensures
        index_wf(r.buckets@),
        forall|k: int|
            0 <= k < r.buckets@.len() ==> !hash_in(template@, (#[trigger] r.buckets@[k]).hash)
                && r.buckets@[k].entries@ == index_entries(index.buckets@, r.buckets@[k].hash),
        forall|h: u64|
            !hash_in(template@, h) ==> #[trigger] index_entries(r.buckets@, h) == index_entries(
                index.buckets@,
                h,
            ),
{
    let mut rest = index.buckets;
    let ghost orig = rest@;
    let mut kept: Vec<Bucket> = Vec::new();
    let ghost mut k: int = 0;
    while rest.len() > 0
        invariant
            0 <= k <= orig.len(),
            rest@ == orig.skip(k),
            index_wf(orig),
            index_wf(kept@),
            forall|i: int|
                0 <= i < kept@.len() ==> exists|c: int|
                    0 <= c < k && (#[trigger] kept@[i]).hash == orig[c].hash,
            forall|i: int|
                0 <= i < kept@.len() ==> !hash_in(template@, (#[trigger] kept@[i]).hash)
                    && kept@[i].entries@ == index_entries(orig, kept@[i].hash),
            forall|h: u64|
                !hash_in(template@, h) ==> #[trigger] index_entries(kept@, h) == index_entries(
                    orig.take(k),
                    h,
                ),
        decreases rest@.len(),
    {
        let ghost pre = kept@;
        let b = rest.remove(0);
        let ghost bk = orig[k];
        proof {
            assert(orig.skip(k)[0] == orig[k]);
            assert(b == bk);
            assert(rest@ =~= orig.skip(k + 1));
        }
        let keep = !contains_hash(template, b.hash);
        if keep {
            kept.push(b);
            proof {
                assert(kept@ == pre.push(bk));
                // the new hash is fresh among the kept buckets
                assert forall|i: int| 0 <= i < pre.len() implies (#[trigger] pre[i]).hash
                    != bk.hash by {
                    let c = choose|c: int|
                        0 <= c < k && (#[trigger] pre[i]).hash == orig[c].hash;
                    assert(orig[c].hash != orig[k].hash);
                }
                lemma_index_entries_push(pre, bk);
                lemma_index_entries_at(orig, k);
                assert(index_wf(kept@)) by {
                    assert forall|i: int, j: int| 0 <= i < j < kept@.len() implies (
                    #[trigger] kept@[i]).hash != (#[trigger] kept@[j]).hash by {
                        if j < pre.len() {
                            assert(kept@[i] == pre[i]);
                            assert(kept@[j] == pre[j]);
                        } else {
                            assert(kept@[i] == pre[i]);
                            assert(kept@[j] == bk);
                        }
                    }
                }
                assert forall|i: int| 0 <= i < kept@.len() implies exists|c: int|
                    0 <= c < k + 1 && (#[trigger] kept@[i]).hash == orig[c].hash by {
                    if i < pre.len() {
                        assert(kept@[i] == pre[i]);
                        let c = choose|c: int|
                            0 <= c < k && (#[trigger] pre[i]).hash == orig[c].hash;
                        assert(kept@[i].hash == orig[c].hash);
                    } else {
                        assert(kept@[i].hash == orig[k].hash);
                    }
                }
                assert forall|i: int| 0 <= i < kept@.len() implies !hash_in(
                    template@,
                    (#[trigger] kept@[i]).hash,
                ) && kept@[i].entries@ == index_entries(orig, kept@[i].hash) by {
                    if i < pre.len() {
                        assert(kept@[i] == pre[i]);
                    } else {
                        assert(kept@[i] == bk);
                    }
                }
            }
        }
        proof {
            assert forall|h: u64| !hash_in(template@, h) implies #[trigger] index_entries(kept@, h)
                == index_entries(orig.take(k + 1), h) by {
                lemma_index_entries_take_step(orig, k, h);
                if keep {
                    assert forall|i: int| 0 <= i < pre.len() implies (#[trigger] pre[i]).hash
                        != bk.hash by {
                        let c = choose|c: int|
                            0 <= c < k && (#[trigger] pre[i]).hash == orig[c].hash;
                        assert(orig[c].hash != orig[k].hash);
                    }
                    lemma_index_entries_push(pre, bk);
                    assert(kept@ == pre.push(bk));
                    if h == bk.hash {
                        assert(index_entries(pre.push(bk), h) == bk.entries@);
                        assert(index_entries(orig.take(k + 1), h) == orig[k].entries@);
                    } else {
                        assert(index_entries(pre.push(bk), h) == index_entries(pre, h));
                        assert(index_entries(pre, h) == index_entries(orig.take(k), h));
                        assert(index_entries(orig.take(k + 1), h) == index_entries(
                            orig.take(k),
                            h,
                        ));
                    }
                } else {
                    assert(kept@ == pre);
                    assert(h != bk.hash);
                    assert(index_entries(pre, h) == index_entries(orig.take(k), h));
                }
            }
            k = k + 1;
        }
    }
    proof {
        assert(k == orig.len());
        assert(orig.take(k) =~= orig);
    }
    FingerprintIndex { buckets: kept }
}

/// Extending the prefix by one bucket adds exactly that bucket's postings.
proof fn lemma_index_entries_take_step(buckets: Seq<Bucket>, k: int, h: u64)
    requires
        index_wf(buckets),
        0 <= k < buckets.len(),
    ensures
        index_entries(buckets.take(k + 1), h) == if buckets[k].hash == h {
            buckets[k].entries@
        } else {
            index_entries(buckets.take(k), h)
        },
    decreases k,
{
    let u = buckets.take(k + 1);
    if k == 0 {
        assert(u[0] == buckets[0]);
        assert(u.drop_first() =~= Seq::<Bucket>::empty());
        assert(buckets.take(0) =~= Seq::<Bucket>::empty());
    } else {
        assert(u[0] == buckets[0]);
        if buckets[0].hash == h {
            assert(buckets[k].hash != h);
            assert(buckets.take(k)[0] == buckets[0]);
        } else {
            let d = buckets.drop_first();
            assert(index_wf(d)) by {
                assert forall|i: int, j: int| 0 <= i < j < d.len() implies (
                #[trigger] d[i]).hash != (#[trigger] d[j]).hash by {
                    assert(d[i] == buckets[i + 1]);
                    assert(d[j] == buckets[j + 1]);
                }
            }
            assert(d[k - 1] == buckets[k]);
            lemma_index_entries_take_step(d, k - 1, h);
            assert(u.drop_first() =~= d.take(k));
            assert(buckets.take(k).drop_first() =~= d.take(k - 1));
            assert(buckets.take(k)[0] == buckets[0]);
        }
    }
}


/// Some posting of the list belongs to submission `s`.
pub open spec fn has_sub(es: Seq<IndexEntry>, s: int) -> bool {
    exists|i: int| 0 <= i < es.len() && (#[trigger] es[i]).submission == s
}

/// A bucket counts for a pair when it is not too common and both
/// submissions appear in it; several offsets of one submission still count
/// once.
pub open spec fn contributes(b: Bucket, i: int, j: int, cutoff: int) -> bool {
    b.entries@.len() <= cutoff && has_sub(b.entries@, i) && has_sub(b.entries@, j)
}

/// The score of an unordered pair: how many buckets contribute to it.
pub open spec fn pair_score(buckets: Seq<Bucket>, i: int, j: int, cutoff: int) -> int
    decreases buckets.len(),
{
    if buckets.len() == 0 {
        0
    } else {
        pair_score(buckets.drop_last(), i, j, cutoff) + if i != j && contributes(
            buckets.last(),
            i,
            j,
            cutoff,
        ) {
            1int
        } else {
            0int
        }
    }
}

pub proof fn lemma_pair_score_bounds(buckets: Seq<Bucket>, i: int, j: int, cutoff: int)
    ensures
        0 <= pair_score(buckets, i, j, cutoff) <= buckets.len(),
    decreases buckets.len(),
{
    if buckets.len() > 0 {
        lemma_pair_score_bounds(buckets.drop_last(), i, j, cutoff);
    }
}

proof fn lemma_pair_score_step(buckets: Seq<Bucket>, bi: int, i: int, j: int, cutoff: int)
    requires
        0 <= bi < buckets.len(),
    ensures
        pair_score(buckets.take(bi + 1), i, j, cutoff) == pair_score(buckets.take(bi), i, j, cutoff)
            + if i != j && contributes(buckets[bi], i, j, cutoff) {
            1int
        } else {
            0int
        },
{
    assert(buckets.take(bi + 1).drop_last() =~= buckets.take(bi));
    assert(buckets.take(bi + 1).last() == buckets[bi]);
    assert(buckets.take(bi + 1).len() == bi + 1);
}

proof fn lemma_cell_injective(x: int, y: int, i: int, j: int, k: int)
    requires
        0 <= x < k,
        0 <= y < k,
        0 <= i < k,
        0 <= j < k,
        x * k + y == i * k + j,
    ensures
        x == i && y == j,
{
    assert(x == i && y == j) by (nonlinear_arith)
        requires
            0 <= x < k,
            0 <= y < k,
            0 <= i < k,
            0 <= j < k,
            x * k + y == i * k + j,
    ;
}

proof fn lemma_cell_bound(x: int, y: int, k: int)
    requires
        0 <= x < k,
        0 <= y < k,
    ensures
        0 <= x * k + y < k * k,
{
    assert(0 <= x * k + y < k * k) by (nonlinear_arith)
        requires
            0 <= x < k,
            0 <= y < k,
    ;
}

fn has_sub_at(buckets: &Vec<Bucket>, bi: usize, s: usize) -> (r: bool)
    requires
        bi < buckets@.len(),
    ensures
        r == has_sub(buckets@[bi as int].entries@, s as int),
{
    let mut i: usize = 0;
    let n = buckets[bi].entries.len();
    while i < n
        invariant
            bi < buckets@.len(),
            n == buckets@[bi as int].entries@.len(),
            i <= n,
            forall|e: int|
                0 <= e < i ==> (#[trigger] buckets@[bi as int].entries@[e]).submission != s,
        decreases n - i,
    {
        if buckets[bi].entries[i].submission == s {
            return true;
        }
        i += 1;
    }
    false
}

fn make_zero_vec(n: usize) -> (r: Vec<u64>)
    ensures
        r@.len() == n,
        forall|x: int| 0 <= x < n ==> (#[trigger] r@[x]) == 0,
{
    let mut r: Vec<u64> = Vec::new();
    let mut i: usize = 0;
    while i < n
        invariant
            i <= n,
            r@.len() == i,
            forall|x: int| 0 <= x < i ==> (#[trigger] r@[x]) == 0,
        decreases n - i,
    {
        r.push(0);
        i += 1;
    }
    r
}

/// The score of what bucket `bi` has added for cells `(x, y)` while the
/// pair loops stand at `(i, j)`.
pub open spec fn bump(b: Bucket, cutoff: int, x: int, y: int, i: int, j: int) -> int {
    if x < y {
        if contributes(b, x, y, cutoff) && (x < i || (x == i && y < j)) {
            1int
        } else {
            0int
        }
    } else if y < x {
        if contributes(b, y, x, cutoff) && (y < i || (y == i && x < j)) {
            1int
        } else {
            0int
        }
    } else {
        0int
    }
}

/// The `k * k` score matrix of all pairs of `k` submissions: cell
/// `i * k + j` counts the buckets that contribute to the unordered pair
/// `(i, j)`; the diagonal stays zero.
pub fn score_matrix(index: &FingerprintIndex, k: usize, cutoff: usize) -> (m: Vec<u64>)
    requires
        k * k <= usize::MAX,
    ensures
        m@.len() == k * k,
        forall|x: int, y: int|
            0 <= x < k && 0 <= y < k ==> m@[x * k + y] == pair_score(
                index.buckets@,
                x,
                y,
                cutoff as int,
            ),
{
    let kk = k * k;
    let mut m = make_zero_vec(kk);
    let nb = index.buckets.len();
    let mut bi: usize = 0;
    proof {
        assert forall|x: int, y: int| 0 <= x < k && 0 <= y < k implies m@[x * k + y] == pair_score(
            index.buckets@.take(0),
            x,
            y,
            cutoff as int,
        ) by {
            lemma_cell_bound(x, y, k as int);
            assert(index.buckets@.take(0) =~= Seq::<Bucket>::empty());
        }
    }
    while bi < nb
        invariant
            nb == index.buckets@.len(),
            bi <= nb,
            kk == k * k,
            m@.len() == kk,
            forall|x: int, y: int|
                0 <= x < k && 0 <= y < k ==> m@[x * k + y] == pair_score(
                    index.buckets@.take(bi as int),
                    x,
                    y,
                    cutoff as int,
                ),
        decreases nb - bi,
    {
        let ghost b = index.buckets@[bi as int];
        let ghost base = index.buckets@.take(bi as int);
        let blen = index.buckets[bi].entries.len();
        if blen <= cutoff {
            let mut i: usize = 0;
            while i < k
                invariant
                    nb == index.buckets@.len(),
                    bi < nb,
                    b == index.buckets@[bi as int],
                    base == index.buckets@.take(bi as int),
                    b.entries@.len() <= cutoff,
                    i <= k,
                    kk == k * k,
                    m@.len() == kk,
                    forall|x: int, y: int|
                        0 <= x < k && 0 <= y < k ==> m@[x * k + y] == pair_score(
                            base,
                            x,
                            y,
                            cutoff as int,
                        ) + bump(b, cutoff as int, x, y, i as int, i as int + 1),
                decreases k - i,
            {
                let mut j: usize = i + 1;
                while j < k
                    invariant
                        nb == index.buckets@.len(),
                        bi < nb,
                        b == index.buckets@[bi as int],
                        base == index.buckets@.take(bi as int),
                        b.entries@.len() <= cutoff,
                        i < k,
                        i + 1 <= j <= k,
                        kk == k * k,
                        m@.len() == kk,
                        forall|x: int, y: int|
                            0 <= x < k && 0 <= y < k ==> m@[x * k + y] == pair_score(
                                base,
                                x,
                                y,
                                cutoff as int,
                            ) + bump(b, cutoff as int, x, y, i as int, j as int),
                    decreases k - j,
                {
                    let ci = has_sub_at(&index.buckets, bi, i);
                    let cj = has_sub_at(&index.buckets, bi, j);
                    let ghost mpre = m@;
                    if ci && cj {
                        proof {
                            lemma_cell_bound(i as int, j as int, k as int);
                            lemma_cell_bound(j as int, i as int, k as int);
                            lemma_pair_score_bounds(base, i as int, j as int, cutoff as int);
                            lemma_pair_score_bounds(base, j as int, i as int, cutoff as int);
                        }
                        let idx1 = i * k + j;
                        let idx2 = j * k + i;
                        proof {
                            assert(i != j);
                            if idx1 == idx2 {
                                lemma_cell_injective(i as int, j as int, j as int, i as int, k as int);
                            }
                            assert(idx1 != idx2);
                        }
                        let v1 = m[idx1];
                        m.set(idx1, v1 + 1);
                        let v2 = m[idx2];
                        m.set(idx2, v2 + 1);
                    }
                    j += 1;
                    proof {
                        assert forall|x: int, y: int| 0 <= x < k && 0 <= y < k implies m@[x * k + y]
                            == pair_score(base, x, y, cutoff as int) + bump(
                            b,
                            cutoff as int,
                            x,
                            y,
                            i as int,
                            j as int,
                        ) by {
                            lemma_cell_bound(x, y, k as int);
                            if x * k + y == i as int * k + j - 1 {
                                lemma_cell_injective(x, y, i as int, j - 1, k as int);
                            }
                            if x * k + y == (j - 1) * k + i as int {
                                lemma_cell_injective(x, y, j - 1, i as int, k as int);
                            }
                        }
                    }
                }
                i += 1;
                proof {
                    assert forall|x: int, y: int| 0 <= x < k && 0 <= y < k implies m@[x * k + y]
                        == pair_score(base, x, y, cutoff as int) + bump(
                        b,
                        cutoff as int,
                        x,
                        y,
                        i as int,
                        i as int + 1,
                    ) by {
                        lemma_cell_bound(x, y, k as int);
                    }
                }
            }
        }
        bi += 1;
        proof {
            assert forall|x: int, y: int| 0 <= x < k && 0 <= y < k implies m@[x * k + y]
                == pair_score(index.buckets@.take(bi as int), x, y, cutoff as int) by {
                lemma_cell_bound(x, y, k as int);
                lemma_pair_score_step(index.buckets@, bi - 1, x, y, cutoff as int);
            }
        }
    }
    proof {
        assert(index.buckets@.take(nb as int) =~= index.buckets@);
    }
    m
}


/// A bucket with more entries than the cutoff allows adds nothing to any
/// pair, however many submissions share its hash.
pub proof fn lemma_common_cutoff(buckets: Seq<Bucket>, bi: int, i: int, j: int, cutoff: int)
    requires
        0 <= bi < buckets.len(),
        buckets[bi].entries@.len() > cutoff,
    ensures
        pair_score(buckets, i, j, cutoff) == pair_score(buckets.remove(bi), i, j, cutoff),
    decreases buckets.len(),
{
    if bi == buckets.len() - 1 {
        assert(buckets.remove(bi) =~= buckets.drop_last());
        assert(!contributes(buckets.last(), i, j, cutoff));
    } else {
        lemma_common_cutoff(buckets.drop_last(), bi, i, j, cutoff);
        assert(buckets.remove(bi).drop_last() =~= buckets.drop_last().remove(bi));
        assert(buckets.remove(bi).last() == buckets.last());
    }
}

proof fn lemma_sub_entries_origin(fps: Seq<Fingerprint>, s: usize, h: u64)
    ensures
        forall|e: int|
            0 <= e < sub_entries(fps, s, h).len() ==> {
                let en = #[trigger] sub_entries(fps, s, h)[e];
                en.submission == s && en.fp.hash == h && fps.contains(en.fp)
            },
    decreases fps.len(),
{
    if fps.len() > 0 {
        lemma_sub_entries_origin(fps.drop_last(), s, h);
        let cur = sub_entries(fps, s, h);
        let prev = sub_entries(fps.drop_last(), s, h);
        assert forall|e: int| 0 <= e < cur.len() implies {
            let en = #[trigger] cur[e];
            en.submission == s && en.fp.hash == h && fps.contains(en.fp)
        } by {
            if e < prev.len() {
                assert(cur[e] == prev[e]);
                let i = choose|i: int|
                    0 <= i < fps.drop_last().len() && fps.drop_last()[i] == prev[e].fp;
                assert(fps[i] == prev[e].fp);
            } else {
                assert(cur[e] == IndexEntry { fp: fps.last(), submission: s });
                assert(fps[fps.len() - 1] == fps.last());
            }
        }
    }
}

proof fn lemma_entries_of_origin(all: Seq<Seq<Fingerprint>>, h: u64)
    requires
        all.len() <= usize::MAX,
    ensures
        forall|e: int|
            0 <= e < entries_of(all, h).len() ==> {
                let en = #[trigger] entries_of(all, h)[e];
                en.fp.hash == h && en.submission < all.len() && all[en.submission as int].contains(
                    en.fp,
                )
            },
    decreases all.len(),
{
    if all.len() > 0 {
        lemma_entries_of_origin(all.drop_last(), h);
        lemma_sub_entries_origin(all.last(), (all.len() - 1) as usize, h);
        let cur = entries_of(all, h);
        let prev = entries_of(all.drop_last(), h);
        let tail = sub_entries(all.last(), (all.len() - 1) as usize, h);
        assert forall|e: int| 0 <= e < cur.len() implies {
            let en = #[trigger] cur[e];
            en.fp.hash == h && en.submission < all.len() && all[en.submission as int].contains(
                en.fp,
            )
        } by {
            if e < prev.len() {
                assert(cur[e] == prev[e]);
                assert(all.drop_last()[prev[e].submission as int] == all[prev[e].submission as int]);
            } else {
                assert(cur[e] == tail[e - prev.len()]);
                assert(all[all.len() - 1] == all.last());
            }
        }
    }
}

/// A submission that sits in no bucket scores zero against everybody.
proof fn lemma_no_sub_zero(buckets: Seq<Bucket>, a: int, j: int, cutoff: int)
    requires
        forall|k: int| 0 <= k < buckets.len() ==> !has_sub((#[trigger] buckets[k]).entries@, a),
    ensures
        pair_score(buckets, a, j, cutoff) == 0,
        pair_score(buckets, j, a, cutoff) == 0,
    decreases buckets.len(),
{
    if buckets.len() > 0 {
        assert forall|k: int| 0 <= k < buckets.drop_last().len() implies !has_sub(
            (#[trigger] buckets.drop_last()[k]).entries@,
            a,
        ) by {
            assert(buckets.drop_last()[k] == buckets[k]);
        }
        lemma_no_sub_zero(buckets.drop_last(), a, j, cutoff);
        assert(buckets[buckets.len() - 1] == buckets.last());
        assert(!contributes(buckets.last(), a, j, cutoff));
        assert(!contributes(buckets.last(), j, a, cutoff));
    }
}

/// Template suppression: a submission whose winnowed fingerprints come from
/// the very stream the template's full fingerprint list was taken of loses
/// every bucket to the removal pass, so its score with every other
/// submission is zero.
pub proof fn lemma_template_suppression(
    buckets: Seq<Bucket>,
    all: Seq<Seq<Fingerprint>>,
    template: Seq<Fingerprint>,
    stream: Seq<u8>,
    noise: int,
    guarantee: int,
    a: int,
    j: int,
    cutoff: int,
)
    requires
        1 <= noise <= guarantee,
        stream.len() <= usize::MAX,
        all.len() <= usize::MAX,
        0 <= a < all.len(),
        all[a] == crate::winnow::fingerprints_of(stream, noise, guarantee),
        template == crate::winnow::all_fingerprints_of(stream, noise),
        forall|k: int|
            0 <= k < buckets.len() ==> !hash_in(template, (#[trigger] buckets[k]).hash)
                && buckets[k].entries@ == entries_of(all, buckets[k].hash),
    ensures
        pair_score(buckets, a, j, cutoff) == 0,
        pair_score(buckets, j, a, cutoff) == 0,
{
    crate::winnow::lemma_winnow_subset_of_all(stream, noise, guarantee);
    let win = crate::winnow::fingerprints_of(stream, noise, guarantee);
    let full = crate::winnow::all_fingerprints_of(stream, noise);
    assert forall|k: int| 0 <= k < buckets.len() implies !has_sub(
        (#[trigger] buckets[k]).entries@,
        a,
    ) by {
        let h = buckets[k].hash;
        lemma_entries_of_origin(all, h);
        if has_sub(buckets[k].entries@, a) {
            let e = choose|e: int|
                0 <= e < buckets[k].entries@.len() && (#[trigger] buckets[k].entries@[e]).submission
                    == a;
            let en = buckets[k].entries@[e];
            assert(entries_of(all, h)[e] == en);
            assert(win.contains(en.fp));
            let w = choose|w: int| 0 <= w < win.len() && win[w] == en.fp;
            assert(win[w] == full[win[w].offset as int]);
            assert(full[win[w].offset as int].hash == en.fp.hash);
            assert(hash_in(template, h));
        }
    }
    lemma_no_sub_zero(buckets, a, j, cutoff);
}


/// One reported pair: two submissions and their score.
#[derive(Clone, Copy, Debug, PartialEq, Eq, Structural)]
pub struct PairScore {
    pub left: usize,
    pub right: usize,
    pub score: u64,
}

/// A pair is reported at most when not both of its submissions come from
/// the known-legitimate reference set.
pub open spec fn eligible_pair(l: int, r: int, k: int, refs: Seq<bool>) -> bool {
    0 <= l < r < k && !(refs[l] && refs[r])
}

/// Order the scored pairs, highest score first. Selection by repeated
/// maximum keeps exactly the same multiset of pairs.
fn sort_pairs(ps: Vec<PairScore>) -> (r: Vec<PairScore>)
    ensures
        r@.len() == ps@.len(),
        r@.to_multiset() == ps@.to_multiset(),
        forall|a: int, b: int|
            0 <= a < b < r@.len() ==> (#[trigger] r@[a]).score >= (#[trigger] r@[b]).score,
{
    broadcast use vstd::seq_lib::group_to_multiset_ensures;
    broadcast use vstd::multiset::group_multiset_axioms;

    let mut work = ps;
    let mut r: Vec<PairScore> = Vec::new();
    let ghost orig = work@;
    proof {
        assert(r@.to_multiset().add(work@.to_multiset()) =~= orig.to_multiset());
    }
    while work.len() > 0
        invariant
            r@.to_multiset().add(work@.to_multiset()) == orig.to_multiset(),
            r@.len() + work@.len() == orig.len(),
            forall|a: int, b: int|
                0 <= a < b < r@.len() ==> (#[trigger] r@[a]).score >= (#[trigger] r@[b]).score,
            forall|a: int, b: int|
                0 <= a < r@.len() && 0 <= b < work@.len() ==> (#[trigger] r@[a]).score >= (
                #[trigger] work@[b]).score,
        decreases work@.len(),
    {
        let mut mi: usize = 0;
        let mut c: usize = 1;
        while c < work.len()
            invariant
                work@.len() > 0,
                mi < c <= work@.len(),
                forall|b: int|
                    0 <= b < c ==> (#[trigger] work@[b]).score <= work@[mi as int].score,
            decreases work@.len() - c,
        {
            if work[c].score > work[mi].score {
                mi = c;
            }
            c += 1;
        }
        let ghost pre = work@;
        let ghost r_pre = r@;
        let v = work.remove(mi);
        r.push(v);
        proof {
            vstd::seq_lib::to_multiset_remove(pre, mi as int);
            vstd::seq_lib::to_multiset_build(r_pre, v);
            assert(pre[mi as int] == v);
            assert(pre.contains(v));
            vstd::seq_lib::to_multiset_contains(pre, v);
            assert(r@.to_multiset().add(work@.to_multiset()) =~= orig.to_multiset());
            assert forall|b: int| 0 <= b < work@.len() implies v.score >= (
            #[trigger] work@[b]).score by {
                if b < mi {
                    assert(work@[b] == pre[b]);
                } else {
                    assert(work@[b] == pre[b + 1]);
                }
            }
        }
    }
    r
}

/// The highest-scoring pairs: every eligible pair of submissions with its
/// score from the matrix, ordered by score, cut to the report size. Every
/// eligible pair is either reported or scores no more than the last
/// reported one.
pub fn top_pairs(m: &Vec<u64>, k: usize, refs: &Vec<bool>, n: usize) -> (r: Vec<PairScore>)
    requires
        k * k <= usize::MAX,
        m@.len() == k * k,
        refs@.len() == k,
    ensures
        r@.len() <= n,
        forall|x: int|
            0 <= x < r@.len() ==> {
                let p = #[trigger] r@[x];
                eligible_pair(p.left as int, p.right as int, k as int, refs@) && p.score == m@[
                    p.left * k + p.right]
            },
        forall|x: int, y: int|
            0 <= x < y < r@.len() ==> (#[trigger] r@[x]).score >= (#[trigger] r@[y]).score,
        forall|l: int, rt: int|
            #[trigger] eligible_pair(l, rt, k as int, refs@) ==> (exists|x: int|
                0 <= x < r@.len() && (#[trigger] r@[x]).left == l && r@[x].right == rt) || (
            r@.len() == n && (n == 0 || m@[l * (k as int) + rt] <= r@[r@.len() - 1].score)),
{
    broadcast use vstd::seq_lib::group_to_multiset_ensures;

    let mut all: Vec<PairScore> = Vec::new();
    let mut l: usize = 0;
    while l < k
        invariant
            k * k <= usize::MAX,
            m@.len() == k * k,
            refs@.len() == k,
            l <= k,
            forall|x: int|
                0 <= x < all@.len() ==> {
                    let p = #[trigger] all@[x];
                    eligible_pair(p.left as int, p.right as int, k as int, refs@) && p.score
                        == m@[p.left * k + p.right]
                },
            forall|a: int, b: int|
                #[trigger] eligible_pair(a, b, k as int, refs@) && a < l ==> exists|x: int|
                    0 <= x < all@.len() && (#[trigger] all@[x]).left == a && all@[x].right == b,
        decreases k - l,
    {
        let mut rt: usize = l + 1;
        while rt < k
            invariant
                k * k <= usize::MAX,
                m@.len() == k * k,
                refs@.len() == k,
                l < k,
                l + 1 <= rt <= k,
                forall|x: int|
                    0 <= x < all@.len() ==> {
                        let p = #[trigger] all@[x];
                        eligible_pair(p.left as int, p.right as int, k as int, refs@) && p.score
                            == m@[p.left * k + p.right]
                    },
                forall|a: int, b: int|
                    #[trigger] eligible_pair(a, b, k as int, refs@) && (a < l || (a == l && b < rt))
                        ==> exists|x: int|
                        0 <= x < all@.len() && (#[trigger] all@[x]).left == a && all@[x].right == b,
            decreases k - rt,
        {
            if !(refs[l] && refs[rt]) {
                proof {
                    lemma_cell_bound(l as int, rt as int, k as int);
                }
                let p = PairScore { left: l, right: rt, score: m[l * k + rt] };
                let ghost pre = all@;
                all.push(p);
                proof {
                    assert forall|a: int, b: int|
                        #[trigger] eligible_pair(a, b, k as int, refs@) && (a < l || (a == l && b
                            < rt + 1)) implies exists|x: int|
                        0 <= x < all@.len() && (#[trigger] all@[x]).left == a && all@[x].right
                            == b by {
                        if a == l as int && b == rt as int {
                            assert(all@[all@.len() - 1] == p);
                        } else {
                            let x = choose|x: int|
                                0 <= x < pre.len() && (#[trigger] pre[x]).left == a && pre[x].right
                                    == b;
                            assert(all@[x] == pre[x]);
                        }
                    }
                }
            }
            rt += 1;
        }
        l += 1;
    }
    let ghost all_seq = all@;
    let sorted = sort_pairs(all);
    let ghost sorted_seq = sorted@;
    proof {
        // each ordered pair is one of the collected ones
        assert forall|x: int| 0 <= x < sorted_seq.len() implies {
            let p = #[trigger] sorted_seq[x];
            eligible_pair(p.left as int, p.right as int, k as int, refs@) && p.score == m@[
                p.left * k + p.right]
        } by {
            assert(sorted_seq.contains(sorted_seq[x]));
            assert(sorted_seq.to_multiset().count(sorted_seq[x]) > 0);
            assert(all_seq.to_multiset().count(sorted_seq[x]) > 0);
            assert(all_seq.contains(sorted_seq[x]));
            let x0 = choose|x0: int| 0 <= x0 < all_seq.len() && all_seq[x0] == sorted_seq[x];
            assert(all_seq[x0] == sorted_seq[x]);
        }
        assert forall|a: int, b: int| #[trigger] eligible_pair(a, b, k as int, refs@)
            implies exists|x: int|
            0 <= x < sorted_seq.len() && (#[trigger] sorted_seq[x]).left == a
                && sorted_seq[x].right == b by {
            let x0 = choose|x: int|
                0 <= x < all_seq.len() && (#[trigger] all_seq[x]).left == a && all_seq[x].right
                    == b;
            assert(all_seq.to_multiset().count(all_seq[x0]) > 0) by {
                assert(all_seq.contains(all_seq[x0]));
            }
            assert(sorted_seq.to_multiset().count(all_seq[x0]) > 0);
            assert(sorted_seq.contains(all_seq[x0]));
            let x = choose|x: int| 0 <= x < sorted_seq.len() && sorted_seq[x] == all_seq[x0];
            assert(sorted_seq[x].left == a);
        }
    }
    let mut r: Vec<PairScore> = Vec::new();
    let mut idx: usize = 0;
    while idx < n && idx < sorted.len()
        invariant
            sorted@ == sorted_seq,
            idx <= n,
            idx <= sorted_seq.len(),
            r@ == sorted_seq.take(idx as int),
        decreases n - idx,
    {
        r.push(sorted[idx]);
        idx += 1;
        proof {
            assert(r@ =~= sorted_seq.take(idx as int));
        }
    }
    proof {
        assert forall|l2: int, rt2: int| #[trigger] eligible_pair(l2, rt2, k as int, refs@)
            implies (exists|x: int|
            0 <= x < r@.len() && (#[trigger] r@[x]).left == l2 && r@[x].right == rt2) || (r@.len()
            == n && (n == 0 || m@[l2 * (k as int) + rt2] <= r@[r@.len() - 1].score)) by {
            let x = choose|x: int|
                0 <= x < sorted_seq.len() && (#[trigger] sorted_seq[x]).left == l2
                    && sorted_seq[x].right == rt2;
            if x < r@.len() {
                assert(r@[x] == sorted_seq[x]);
            } else {
                assert(r@.len() < sorted_seq.len());
                assert(r@.len() == n);
                if n > 0 {
                    assert(sorted_seq[x].score <= sorted_seq[r@.len() - 1].score);
                    assert(r@[r@.len() - 1] == sorted_seq[r@.len() - 1]);
                    assert(sorted_seq[x].score == m@[sorted_seq[x].left * k + sorted_seq[x].right]);
                    assert(sorted_seq[x].left == l2 && sorted_seq[x].right == rt2);
                }
            }
        }
    }
    r
}

} // verus!