use vstd::prelude::*;

verus! {

/// One fingerprint of a byte stream: the 64-bit hash of one `noise`-gram and
/// the offset of that gram's first byte in the stream.
#[derive(Clone, Copy, Debug, PartialEq, Eq, Structural)]
pub struct Fingerprint {
    pub hash: u64,
    pub offset: usize,
}

/// The Adler-32 checksum of a byte sequence, as the `adler32` crate computes
/// it. The result is a function of the bytes alone.
pub uninterp spec fn adler32_of(s: Seq<u8>) -> u32;

/// The 64-bit value that the standard library's `DefaultHasher` produces for
/// a 32-bit input. `DefaultHasher::new` always uses the same fixed keys, so
/// the result is a function of the input alone.
pub uninterp spec fn rehash_of(h: u32) -> u64;

/// Relies on `adler32::RollingAdler32::from_buffer` and
/// `adler32::RollingAdler32::hash`: together they return the Adler-32
/// checksum of the buffer, a pure function of the bytes.
#[verifier::external_body]
fn adler32_hash(buf: &[u8]) -> (r: u32)
    ensures
        r == adler32_of(buf@),
{
    adler32::RollingAdler32::from_buffer(buf).hash()
}

/// Relies on `std::collections::hash_map::DefaultHasher`, whose `new` is
/// documented to produce the same hasher in every instance: feeding it one
/// `u32` and finishing yields a value that depends on that `u32` alone.
#[verifier::external_body]
fn rehash(h: u32) -> (r: u64)
    ensures
        r == rehash_of(h),
{
    let mut hasher = std::collections::hash_map::DefaultHasher::new();
    std::hash::Hash::hash(&h, &mut hasher);
    std::hash::Hasher::finish(&hasher)
}

/// The fingerprint hash of one gram: Adler-32 is too regular in its low
/// bits, so each checksum is passed through the 64-bit rehash.
pub open spec fn gram_hash(s: Seq<u8>) -> u64 {
    rehash_of(adler32_of(s))
}

/// The hashes of all `noise`-grams of `s`, in stream order; empty when the
/// stream is shorter than `noise`.
pub open spec fn gram_hashes(s: Seq<u8>, noise: int) -> Seq<u64> {
    if 1 <= noise <= s.len() {
        Seq::new((s.len() - noise + 1) as nat, |i: int| gram_hash(s.subrange(i, i + noise)))
    } else {
        Seq::empty()
    }
}

/// The full fingerprint list: every gram's hash with its offset.
pub open spec fn all_fingerprints_of(s: Seq<u8>, noise: int) -> Seq<Fingerprint> {
    Seq::new(gram_hashes(s, noise).len(), |i: int| Fingerprint {
        hash: gram_hashes(s, noise)[i],
        offset: i as usize,
    })
}

/// Compute the rolling hash of every `noise`-gram of `bytes`.
fn hash_grams(bytes: &[u8], noise: usize) -> (r: Vec<u64>)
    requires
        1 <= noise,
    ensures
        r@ == gram_hashes(bytes@, noise as int),
{
    let mut r: Vec<u64> = Vec::new();
    if bytes.len() < noise {
        assert(gram_hashes(bytes@, noise as int) =~= Seq::<u64>::empty());
        return r;
    }
    let count = bytes.len() - noise + 1;
    let mut i: usize = 0;
    while i < count
        invariant
            1 <= noise <= bytes@.len(),
            bytes@.len() <= usize::MAX,
            count == bytes@.len() - noise + 1,
            i <= count,
            r@ == gram_hashes(bytes@, noise as int).subrange(0, i as int),
        decreases count - i,
    {
        let gram = vstd::slice::slice_subrange(bytes, i, i + noise);
        let a = adler32_hash(gram);
        let h = rehash(a);
        r.push(h);
        i += 1;
        proof {
            assert(r@ =~= gram_hashes(bytes@, noise as int).subrange(0, i as int));
        }
    }
    proof {
        assert(r@ =~= gram_hashes(bytes@, noise as int));
    }
    r
}

/// Every `noise`-gram hash of the stream with its offset, with no selection.
/// This enumerates what a template contributes, so that every hash the
/// template contains anywhere can be discounted.
pub fn all_fingerprint(bytes: &[u8], noise: usize) -> (r: Vec<Fingerprint>)
    requires
        1 <= noise,
    ensures
        r@ == all_fingerprints_of(bytes@, noise as int),
{
    let hashes = hash_grams(bytes, noise);
    let mut r: Vec<Fingerprint> = Vec::new();
    let mut i: usize = 0;
    while i < hashes.len()
        invariant
            hashes@ == gram_hashes(bytes@, noise as int),
            i <= hashes@.len(),
            r@ == all_fingerprints_of(bytes@, noise as int).subrange(0, i as int),
        decreases hashes@.len() - i,
    {
        r.push(Fingerprint { hash: hashes[i], offset: i });
        i += 1;
        proof {
            assert(r@ =~= all_fingerprints_of(bytes@, noise as int).subrange(0, i as int));
        }
    }
    proof {
        assert(r@ =~= all_fingerprints_of(bytes@, noise as int));
    }
    r
}

/// The index of the rightmost minimum of `h` in `[lo, hi)`; `lo` when the
/// range is empty or a single element.
pub open spec fn rightmost_min(h: Seq<u64>, lo: int, hi: int) -> int
    decreases hi - lo,
{
    if hi - lo <= 1 {
        lo
    } else {
        let r = rightmost_min(h, lo, hi - 1);
        if h[hi - 1] <= h[r] {
            hi - 1
        } else {
            r
        }
    }
}

/// The left edge of the window that ends at gram `t`: the window covers the
/// last `w` grams, fewer while the stream is still warming up.
pub open spec fn win_lo(w: int, t: int) -> int {
    if t - w + 1 > 0 {
        t - w + 1
    } else {
        0
    }
}

/// The gram the window ending at `t` selects: the rightmost minimum, ties
/// broken in favour of the later position.
pub open spec fn selected(h: Seq<u64>, w: int, t: int) -> int {
    rightmost_min(h, win_lo(w, t), t + 1)
}

/// The winnowed fingerprints of the first `t + 1` windows: each window
/// selects its rightmost minimum, and a fingerprint is recorded whenever the
/// selection moves (recording it again would duplicate the prior record).
pub open spec fn winnow_upto(h: Seq<u64>, w: int, t: int) -> Seq<Fingerprint>
    decreases t + 1,
{
    if t < 0 {
        Seq::empty()
    } else {
        let prev = winnow_upto(h, w, t - 1);
        if t == 0 || selected(h, w, t) != selected(h, w, t - 1) {
            prev.push(Fingerprint {
                hash: h[selected(h, w, t)],
                offset: selected(h, w, t) as usize,
            })
        } else {
            prev
        }
    }
}

/// The winnowed fingerprints of a whole hash sequence.
pub open spec fn winnow_of(h: Seq<u64>, w: int) -> Seq<Fingerprint> {
    winnow_upto(h, w, h.len() - 1)
}

/// The sparse fingerprint set of a byte stream: window size
/// `w = guarantee - noise + 1` over the gram hashes.
pub open spec fn fingerprints_of(s: Seq<u8>, noise: int, guarantee: int) -> Seq<Fingerprint> {
    winnow_of(gram_hashes(s, noise), guarantee - noise + 1)
}

/// Winnow a byte stream: emit the rightmost minimal gram hash of each
/// sliding window of `guarantee - noise + 1` gram hashes, once per
/// selection.
pub fn fingerprint(bytes: &[u8], noise: usize, guarantee: usize) -> (r: Vec<Fingerprint>)
    requires
        1 <= noise <= guarantee,
    ensures
        r@ == fingerprints_of(bytes@, noise as int, guarantee as int),
{
    let w = guarantee - noise + 1;
    let hashes = hash_grams(bytes, noise);
    let n = hashes.len();
    let mut r: Vec<Fingerprint> = Vec::new();
    let mut last_sel: usize = 0;
    let mut t: usize = 0;
    while t < n
        invariant
            hashes@ == gram_hashes(bytes@, noise as int),
            n == hashes@.len(),
            w == guarantee - noise + 1,
            1 <= w,
            t <= n,
            r@ == winnow_upto(hashes@, w as int, t - 1),
            t > 0 ==> last_sel == selected(hashes@, w as int, t - 1),
        decreases n - t,
    {
        // rightmost minimum of the window ending at t
        let lo: usize = if t + 1 >= w {
            t + 1 - w
        } else {
            0
        };
        assert(lo == win_lo(w as int, t as int));
        let mut m: usize = lo;
        let mut i: usize = lo + 1;
        while i <= t
            invariant
                lo <= m < i <= t + 1,
                t < n == hashes@.len(),
                m == rightmost_min(hashes@, lo as int, i as int),
            decreases t + 1 - i,
        {
            if hashes[i] <= hashes[m] {
                m = i;
            }
            i += 1;
        }
        assert(m == selected(hashes@, w as int, t as int));
        if t == 0 || m != last_sel {
            r.push(Fingerprint { hash: hashes[m], offset: m });
        }
        last_sel = m;
        t += 1;
        proof {
            assert(r@ =~= winnow_upto(hashes@, w as int, t - 1));
        }
    }
    proof {
        assert(r@ =~= fingerprints_of(bytes@, noise as int, guarantee as int));
    }
    r
}

pub proof fn lemma_rightmost_min_props(h: Seq<u64>, lo: int, hi: int)
    requires
        0 <= lo < hi <= h.len(),
    ensures
        lo <= rightmost_min(h, lo, hi) < hi,
        forall|i: int| lo <= i < hi ==> h[rightmost_min(h, lo, hi)] <= #[trigger] h[i],
        forall|i: int| rightmost_min(h, lo, hi) < i < hi ==> #[trigger] h[i] > h[rightmost_min(h, lo, hi)],
    decreases hi - lo,
{
    if hi - lo <= 1 {
    } else {
        lemma_rightmost_min_props(h, lo, hi - 1);
    }
}

/// Dropping elements to the left of the selected position does not change
/// the rightmost minimum.
pub proof fn lemma_rightmost_min_shrink(h: Seq<u64>, lo: int, lo2: int, hi: int)
    requires
        0 <= lo <= lo2 <= rightmost_min(h, lo, hi),
        lo < hi <= h.len(),
        lo2 < hi,
    ensures
        rightmost_min(h, lo2, hi) == rightmost_min(h, lo, hi),
{
    lemma_rightmost_min_props(h, lo, hi);
    lemma_rightmost_min_props(h, lo2, hi);
    let r = rightmost_min(h, lo, hi);
    let r2 = rightmost_min(h, lo2, hi);
    if r2 < r {
        assert(h[r] > h[r2]);
        assert(h[r] <= h[r2]);
    } else if r2 > r {
        assert(h[r2] > h[r]);
        assert(h[r2] <= h[r]);
    }
}

/// As the window slides one gram to the right, the selected position never
/// moves left.
pub proof fn lemma_selected_monotone(h: Seq<u64>, w: int, t: int)
    requires
        1 <= w,
        1 <= t,
        t < h.len(),
    ensures
        selected(h, w, t - 1) <= selected(h, w, t),
{
    let lo1 = win_lo(w, t - 1);
    let lo2 = win_lo(w, t);
    lemma_rightmost_min_props(h, lo1, t);
    lemma_rightmost_min_props(h, lo2, t + 1);
    let s1 = selected(h, w, t - 1);
    if t + 1 - lo2 <= 1 {
        assert(selected(h, w, t) == t);
    } else {
        lemma_rightmost_min_props(h, lo2, t);
        if lo2 == lo1 {
        } else {
            assert(lo2 == lo1 + 1);
            if s1 >= lo2 {
                lemma_rightmost_min_shrink(h, lo1, lo2, t);
            }
        }
    }
}

/// Shape of the winnowed list: each entry carries the hash of the gram at
/// its own offset, offsets strictly increase, and the last entry records the
/// current selection.
pub proof fn lemma_winnow_upto_elems(h: Seq<u64>, w: int, t: int)
    requires
        1 <= w,
        t < h.len(),
        h.len() <= usize::MAX,
    ensures
        forall|k: int| 0 <= k < winnow_upto(h, w, t).len() ==> {
            let fp = #[trigger] winnow_upto(h, w, t)[k];
            0 <= fp.offset <= t && fp.offset < h.len() && fp.hash == h[fp.offset as int]
        },
        forall|k: int| 0 <= k && k + 1 < winnow_upto(h, w, t).len() ==>
            (#[trigger] winnow_upto(h, w, t)[k]).offset < winnow_upto(h, w, t)[k + 1].offset,
        t >= 0 ==> winnow_upto(h, w, t).len() >= 1
            && winnow_upto(h, w, t).last().offset == selected(h, w, t),
    decreases t + 1,
{
    if t < 0 {
    } else if t == 0 {
        lemma_rightmost_min_props(h, win_lo(w, 0), 1);
        assert(winnow_upto(h, w, -1) == Seq::<Fingerprint>::empty());
        assert(winnow_upto(h, w, 0).len() == 1);
    } else {
        lemma_winnow_upto_elems(h, w, t - 1);
        lemma_rightmost_min_props(h, win_lo(w, t), t + 1);
        lemma_selected_monotone(h, w, t);
        let prev = winnow_upto(h, w, t - 1);
        let cur = winnow_upto(h, w, t);
        if selected(h, w, t) != selected(h, w, t - 1) {
            let fp = Fingerprint { hash: h[selected(h, w, t)], offset: selected(h, w, t) as usize };
            assert(cur == prev.push(fp));
            assert(prev.last().offset < fp.offset);
            assert forall|k: int| 0 <= k < cur.len() implies {
                let e = #[trigger] cur[k];
                0 <= e.offset <= t && e.offset < h.len() && e.hash == h[e.offset as int]
            } by {
                if k < prev.len() {
                    assert(cur[k] == prev[k]);
                } else {
                    assert(cur[k] == fp);
                }
            }
            assert forall|k: int| 0 <= k && k + 1 < cur.len() implies
                (#[trigger] cur[k]).offset < cur[k + 1].offset
            by {
                if k + 1 < prev.len() {
                    assert(cur[k] == prev[k]);
                    assert(cur[k + 1] == prev[k + 1]);
                } else {
                    assert(k + 1 == prev.len());
                    assert(cur[k] == prev[k]);
                    assert(prev[k] == prev.last());
                    assert(cur[k + 1] == fp);
                }
            }
        } else {
            assert(cur == prev);
            assert forall|k: int| 0 <= k < cur.len() implies {
                let e = #[trigger] cur[k];
                0 <= e.offset <= t && e.offset < h.len() && e.hash == h[e.offset as int]
            } by {
                assert(cur[k] == prev[k]);
            }
            assert forall|k: int| 0 <= k && k + 1 < cur.len() implies
                (#[trigger] cur[k]).offset < cur[k + 1].offset
            by {
                assert(cur[k] == prev[k]);
                assert(cur[k + 1] == prev[k + 1]);
            }
        }
    }
}

/// Winnowing selects and never invents: every winnowed fingerprint of a
/// stream is one of the entries of the full fingerprint list, at its own
/// offset, and offsets strictly increase, so no entry is taken twice. The
/// winnowed hashes are therefore a sub-multiset of the full gram hashes.
pub proof fn lemma_winnow_subset_of_all(s: Seq<u8>, noise: int, guarantee: int)
    requires
        1 <= noise <= guarantee,
        s.len() <= usize::MAX,
    ensures
        forall|k: int| 0 <= k < fingerprints_of(s, noise, guarantee).len() ==> {
            let fp = #[trigger] fingerprints_of(s, noise, guarantee)[k];
            fp.offset < all_fingerprints_of(s, noise).len()
                && fp == all_fingerprints_of(s, noise)[fp.offset as int]
        },
        forall|k: int| 0 <= k && k + 1 < fingerprints_of(s, noise, guarantee).len() ==>
            (#[trigger] fingerprints_of(s, noise, guarantee)[k]).offset
                < fingerprints_of(s, noise, guarantee)[k + 1].offset,
{
    let h = gram_hashes(s, noise);
    let w = guarantee - noise + 1;
    lemma_winnow_upto_elems(h, w, h.len() - 1);
}


/// Every selection that was ever made stays recorded: for each window, the
/// fingerprint of its selected gram is in the winnowed list.
proof fn lemma_winnow_contains_sel(h: Seq<u64>, w: int, t: int)
    requires
        1 <= w,
        0 <= t < h.len(),
        h.len() <= usize::MAX,
    ensures
        forall|j: int|
            0 <= j <= t ==> exists|x: int|
                0 <= x < winnow_upto(h, w, t).len() && #[trigger] winnow_upto(h, w, t)[x] == (
                Fingerprint {
                    hash: h[#[trigger] selected(h, w, j)],
                    offset: selected(h, w, j) as usize,
                }),
    decreases t,
{
    lemma_rightmost_min_props(h, win_lo(w, t), t + 1);
    if t == 0 {
        assert(winnow_upto(h, w, -1) == Seq::<Fingerprint>::empty());
        let cur = winnow_upto(h, w, 0);
        assert(cur.len() == 1);
        assert(cur[0] == (Fingerprint {
            hash: h[selected(h, w, 0)],
            offset: selected(h, w, 0) as usize,
        }));
    } else {
        lemma_winnow_contains_sel(h, w, t - 1);
        let prev = winnow_upto(h, w, t - 1);
        let cur = winnow_upto(h, w, t);
        if selected(h, w, t) != selected(h, w, t - 1) {
            let fp = Fingerprint { hash: h[selected(h, w, t)], offset: selected(h, w, t) as usize };
            assert(cur == prev.push(fp));
            assert forall|j: int| 0 <= j <= t implies exists|x: int|
                0 <= x < cur.len() && #[trigger] cur[x] == (Fingerprint {
                    hash: h[#[trigger] selected(h, w, j)],
                    offset: selected(h, w, j) as usize,
                }) by {
                if j < t {
                    let x = choose|x: int|
                        0 <= x < prev.len() && #[trigger] prev[x] == (Fingerprint {
                            hash: h[selected(h, w, j)],
                            offset: selected(h, w, j) as usize,
                        });
                    assert(cur[x] == prev[x]);
                } else {
                    assert(cur[cur.len() - 1] == fp);
                }
            }
        } else {
            assert(cur == prev);
            assert forall|j: int| 0 <= j <= t implies exists|x: int|
                0 <= x < cur.len() && #[trigger] cur[x] == (Fingerprint {
                    hash: h[#[trigger] selected(h, w, j)],
                    offset: selected(h, w, j) as usize,
                }) by {
                if j < t {
                } else {
                    let x = choose|x: int|
                        0 <= x < prev.len() && #[trigger] prev[x] == (Fingerprint {
                            hash: h[selected(h, w, t - 1)],
                            offset: selected(h, w, t - 1) as usize,
                        });
                    assert(cur[x] == prev[x]);
                }
            }
        }
    }
}

/// One index of two equal subranges.
proof fn lemma_eq_subrange_index<T>(a: Seq<T>, la: int, b: Seq<T>, lb: int, n: int, i: int)
    requires
        0 <= la,
        la + n <= a.len(),
        0 <= lb,
        lb + n <= b.len(),
        a.subrange(la, la + n) == b.subrange(lb, lb + n),
        0 <= i < n,
    ensures
        a[la + i] == b[lb + i],
{
    assert(a.subrange(la, la + n)[i] == a[la + i]);
    assert(b.subrange(lb, lb + n)[i] == b[lb + i]);
    assert(a.subrange(la, la + n)[i] == b.subrange(lb, lb + n)[i]);
}

/// The rightmost minimum looks only at the window's content: equal windows
/// select the same relative position.
proof fn lemma_rightmost_min_relative(a: Seq<u64>, la: int, b: Seq<u64>, lb: int, n: int)
    requires
        1 <= n,
        0 <= la,
        la + n <= a.len(),
        0 <= lb,
        lb + n <= b.len(),
        a.subrange(la, la + n) == b.subrange(lb, lb + n),
    ensures
        rightmost_min(a, la, la + n) - la == rightmost_min(b, lb, lb + n) - lb,
        a[rightmost_min(a, la, la + n)] == b[rightmost_min(b, lb, lb + n)],
    decreases n,
{
    if n == 1 {
        lemma_eq_subrange_index(a, la, b, lb, n, 0);
    } else {
        assert(a.subrange(la, la + n - 1) =~= b.subrange(lb, lb + n - 1)) by {
            assert forall|i: int| 0 <= i < n - 1 implies #[trigger] a.subrange(la, la + n - 1)[i]
                == b.subrange(lb, lb + n - 1)[i] by {
                lemma_eq_subrange_index(a, la, b, lb, n, i);
            }
        }
        lemma_rightmost_min_relative(a, la, b, lb, n - 1);
        lemma_rightmost_min_props(a, la, la + n - 1);
        lemma_rightmost_min_props(b, lb, lb + n - 1);
        lemma_eq_subrange_index(a, la, b, lb, n, n - 1);
        let ra = rightmost_min(a, la, la + n - 1);
        let rb = rightmost_min(b, lb, lb + n - 1);
        lemma_eq_subrange_index(a, la, b, lb, n, ra - la);
    }
}

/// Aligned equal windows leave a common mark: both streams keep a
/// fingerprint of the same hash at the same place within the window.
proof fn lemma_winnow_window_match(ha: Seq<u64>, hb: Seq<u64>, w: int, ta: int, tb: int)
    requires
        1 <= w,
        w - 1 <= ta < ha.len(),
        w - 1 <= tb < hb.len(),
        ha.len() <= usize::MAX,
        hb.len() <= usize::MAX,
        ha.subrange(ta - w + 1, ta + 1) == hb.subrange(tb - w + 1, tb + 1),
    ensures
        exists|x: int, y: int|
            0 <= x < winnow_of(ha, w).len() && 0 <= y < winnow_of(hb, w).len()
                && (#[trigger] winnow_of(ha, w)[x]).hash == (#[trigger] winnow_of(hb, w)[y]).hash
                && ta - w + 1 <= winnow_of(ha, w)[x].offset <= ta
                && tb - w + 1 <= winnow_of(hb, w)[y].offset <= tb
                && winnow_of(ha, w)[x].offset - (ta - w + 1) == winnow_of(hb, w)[y].offset - (tb - w
                + 1),
{
    let la = ta - w + 1;
    let lb = tb - w + 1;
    lemma_rightmost_min_relative(ha, la, hb, lb, w);
    lemma_rightmost_min_props(ha, la, ta + 1);
    lemma_rightmost_min_props(hb, lb, tb + 1);
    let sa = selected(ha, w, ta);
    let sb = selected(hb, w, tb);
    assert(win_lo(w, ta) == la);
    assert(win_lo(w, tb) == lb);
    assert(sa - la == sb - lb);
    assert(ha[sa] == hb[sb]);
    lemma_winnow_contains_sel(ha, w, ha.len() - 1);
    lemma_winnow_contains_sel(hb, w, hb.len() - 1);
    let fa = winnow_of(ha, w);
    let fb = winnow_of(hb, w);
    let x = choose|x: int|
        0 <= x < fa.len() && fa[x] == (Fingerprint { hash: ha[selected(ha, w, ta)], offset: selected(
            ha,
            w,
            ta,
        ) as usize });
    let y = choose|y: int|
        0 <= y < fb.len() && fb[y] == (Fingerprint { hash: hb[selected(hb, w, tb)], offset: selected(
            hb,
            w,
            tb,
        ) as usize });
    assert(fa[x].hash == fb[y].hash);
    assert(fa[x].offset == sa);
    assert(fb[y].offset == sb);
}

/// The coverage guarantee: two streams that share a substring at least
/// `guarantee` long share a winnowed fingerprint hash inside it, at the
/// same distance from its start in both streams.
pub proof fn lemma_coverage(
    a: Seq<u8>,
    b: Seq<u8>,
    noise: int,
    guarantee: int,
    ia: int,
    ib: int,
    len: int,
)
    requires
        1 <= noise <= guarantee,
        a.len() <= usize::MAX,
        b.len() <= usize::MAX,
        guarantee <= len,
        0 <= ia,
        ia + len <= a.len(),
        0 <= ib,
        ib + len <= b.len(),
        a.subrange(ia, ia + len) == b.subrange(ib, ib + len),
    ensures
        exists|x: int, y: int|
            #![trigger fingerprints_of(a, noise, guarantee)[x], fingerprints_of(b, noise, guarantee)[y]]
            {
                &&& 0 <= x < fingerprints_of(a, noise, guarantee).len()
                &&& 0 <= y < fingerprints_of(b, noise, guarantee).len()
                &&& fingerprints_of(a, noise, guarantee)[x].hash == fingerprints_of(
                    b,
                    noise,
                    guarantee,
                )[y].hash
                &&& ia <= fingerprints_of(a, noise, guarantee)[x].offset
                &&& fingerprints_of(a, noise, guarantee)[x].offset + noise <= ia + len
                &&& fingerprints_of(a, noise, guarantee)[x].offset - ia == fingerprints_of(
                    b,
                    noise,
                    guarantee,
                )[y].offset - ib
            },
{
    let w = guarantee - noise + 1;
    let ga = gram_hashes(a, noise);
    let gb = gram_hashes(b, noise);
    let gl = len - noise + 1;
    // grams inside the shared substring hash alike
    assert(ga.subrange(ia, ia + gl) =~= gb.subrange(ib, ib + gl)) by {
        assert forall|i: int| 0 <= i < gl implies #[trigger] ga.subrange(ia, ia + gl)[i]
            == gb.subrange(ib, ib + gl)[i] by {
            assert(a.subrange(ia + i, ia + i + noise) =~= b.subrange(ib + i, ib + i + noise)) by {
                assert forall|d: int| 0 <= d < noise implies #[trigger] a.subrange(
                    ia + i,
                    ia + i + noise,
                )[d] == b.subrange(ib + i, ib + i + noise)[d] by {
                    lemma_eq_subrange_index(a, ia, b, ib, len, i + d);
                }
            }
            assert(ga[ia + i] == gram_hash(a.subrange(ia + i, ia + i + noise)));
            assert(gb[ib + i] == gram_hash(b.subrange(ib + i, ib + i + noise)));
        }
    }
    let ta = ia + w - 1;
    let tb = ib + w - 1;
    assert(ga.subrange(ta - w + 1, ta + 1) =~= gb.subrange(tb - w + 1, tb + 1)) by {
        assert forall|i: int| 0 <= i < w implies #[trigger] ga.subrange(ia, ta + 1)[i]
            == gb.subrange(ib, tb + 1)[i] by {
            lemma_eq_subrange_index(ga, ia, gb, ib, gl, i);
        }
    }
    lemma_winnow_window_match(ga, gb, w, ta, tb);
    let fa = fingerprints_of(a, noise, guarantee);
    let fb = fingerprints_of(b, noise, guarantee);
    let (x, y) = choose|x: int, y: int|
        0 <= x < winnow_of(ga, w).len() && 0 <= y < winnow_of(gb, w).len()
            && (#[trigger] winnow_of(ga, w)[x]).hash == (#[trigger] winnow_of(gb, w)[y]).hash && ta
            - w + 1 <= winnow_of(ga, w)[x].offset <= ta && tb - w + 1 <= winnow_of(
            gb,
            w,
        )[y].offset <= tb && winnow_of(ga, w)[x].offset - (ta - w + 1) == winnow_of(
            gb,
            w,
        )[y].offset - (tb - w + 1);
    assert(fa[x].hash == fb[y].hash);
    assert(ia <= fa[x].offset);
    assert(fa[x].offset + noise <= ia + len);
    assert(fa[x].offset - ia == fb[y].offset - ib);
}

} // verus!