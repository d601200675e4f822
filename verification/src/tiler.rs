use vstd::prelude::*;

verus! {

/// A common region of the two kind sequences: `length` bytes starting at
/// `pattern_index` in the pattern equal the bytes starting at `text_index`
/// in the text.
#[derive(Clone, Copy, Debug, PartialEq, Eq, Structural)]
pub struct Match {
    pub pattern_index: usize,
    pub text_index: usize,
    pub length: usize,
}

pub open spec fn match_in_bounds(m: Match, plen: int, tlen: int) -> bool {
    &&& m.pattern_index + m.length <= plen
    &&& m.text_index + m.length <= tlen
}

pub open spec fn match_agrees(m: Match, p: Seq<u8>, t: Seq<u8>) -> bool {
    forall|d: int|
        0 <= d < m.length ==> p[m.pattern_index + d] == #[trigger] t[m.text_index + d]
}

/// The half-open ranges `[a, a + la)` and `[b, b + lb)` have no common
/// position.
pub open spec fn ranges_disjoint(a: int, la: int, b: int, lb: int) -> bool {
    a + la <= b || b + lb <= a
}

/// No two matches share a position, neither in the pattern nor in the text.
pub open spec fn matches_disjoint(ms: Seq<Match>) -> bool {
    forall|i: int, j: int|
        0 <= i < j < ms.len() ==> {
            &&& ranges_disjoint(
                (#[trigger] ms[i]).pattern_index as int,
                ms[i].length as int,
                (#[trigger] ms[j]).pattern_index as int,
                ms[j].length as int,
            )
            &&& ranges_disjoint(
                ms[i].text_index as int,
                ms[i].length as int,
                ms[j].text_index as int,
                ms[j].length as int,
            )
        }
}

/// Pattern position `x` lies inside one of the matches.
pub open spec fn covers_pattern(ms: Seq<Match>, x: int) -> bool {
    exists|k: int|
        0 <= k < ms.len() && (#[trigger] ms[k]).pattern_index <= x < ms[k].pattern_index
            + ms[k].length
}

/// Text position `x` lies inside one of the matches.
pub open spec fn covers_text(ms: Seq<Match>, x: int) -> bool {
    exists|k: int|
        0 <= k < ms.len() && (#[trigger] ms[k]).text_index <= x < ms[k].text_index + ms[k].length
}

/// The match cannot grow: one more position on either side would run off an
/// end, mismatch, or overlap a match of the set.
pub open spec fn match_maximal(ms: Seq<Match>, m: Match, p: Seq<u8>, t: Seq<u8>) -> bool {
    &&& (m.pattern_index == 0 || m.text_index == 0
        || p[m.pattern_index - 1] != t[m.text_index - 1]
        || covers_pattern(ms, m.pattern_index - 1)
        || covers_text(ms, m.text_index - 1))
    &&& (m.pattern_index + m.length == p.len() || m.text_index + m.length == t.len()
        || p[m.pattern_index + m.length] != t[m.text_index + m.length]
        || covers_pattern(ms, m.pattern_index + m.length)
        || covers_text(ms, m.text_index + m.length))
}

/// A common, entirely untiled region: `len` positions from `i` in the
/// pattern and from `j` in the text agree and none of them is marked.
pub open spec fn is_candidate(
    p: Seq<u8>,
    t: Seq<u8>,
    mp: Seq<bool>,
    mt: Seq<bool>,
    i: int,
    j: int,
    len: int,
) -> bool {
    &&& 0 <= i && i + len <= p.len()
    &&& 0 <= j && j + len <= t.len()
    &&& 0 <= len
    &&& forall|d: int|
        0 <= d < len ==> p[i + d] == #[trigger] t[j + d] && !mp[i + d] && !mt[j + d]
}

/// A common run that the returned tiling leaves entirely uncovered: the
/// completeness of the tiler is that no such run of reportable length
/// remains.
pub open spec fn untiled_candidate(
    p: Seq<u8>,
    t: Seq<u8>,
    ms: Seq<Match>,
    i: int,
    j: int,
    len: int,
) -> bool {
    &&& 0 <= i && i + len <= p.len()
    &&& 0 <= j && j + len <= t.len()
    &&& 0 <= len
    &&& forall|d: int|
        0 <= d < len ==> p[i + d] == #[trigger] t[j + d] && !covers_pattern(ms, i + d)
            && !covers_text(ms, j + d)
}

/// One position of an uncovered common run, spelled out.
pub proof fn lemma_untiled_cell(
    p: Seq<u8>,
    t: Seq<u8>,
    ms: Seq<Match>,
    i: int,
    j: int,
    len: int,
    d: int,
)
    requires
        untiled_candidate(p, t, ms, i, j, len),
        0 <= d < len,
    ensures
        p[i + d] == t[j + d],
        !covers_pattern(ms, i + d),
        !covers_text(ms, j + d),
{
    assert(p[i + d] == t[j + d] && !covers_pattern(ms, i + d) && !covers_text(ms, j + d));
}

/// A candidate one position longer is still a candidate when the next
/// position agrees and is untiled.
proof fn lemma_candidate_extend(
    p: Seq<u8>,
    t: Seq<u8>,
    mp: Seq<bool>,
    mt: Seq<bool>,
    i: int,
    j: int,
    len: int,
)
    requires
        is_candidate(p, t, mp, mt, i, j, len),
        i + len < p.len(),
        j + len < t.len(),
        p[i + len] == t[j + len],
        !mp[i + len],
        !mt[j + len],
    ensures
        is_candidate(p, t, mp, mt, i, j, len + 1),
{
    assert forall|d: int| 0 <= d < len + 1 implies p[i + d] == #[trigger] t[j + d] && !mp[i + d]
        && !mt[j + d] by {
        if d < len {
            lemma_candidate_cell(p, t, mp, mt, i, j, len, d);
        } else {
            assert(d == len);
        }
    }
}

/// One position of a candidate region, spelled out.
proof fn lemma_candidate_cell(
    p: Seq<u8>,
    t: Seq<u8>,
    mp: Seq<bool>,
    mt: Seq<bool>,
    i: int,
    j: int,
    len: int,
    d: int,
)
    requires
        is_candidate(p, t, mp, mt, i, j, len),
        0 <= d < len,
    ensures
        p[i + d] == t[j + d],
        !mp[i + d],
        !mt[j + d],
{
    assert(p[i + d] == t[j + d] && !mp[i + d] && !mt[j + d]);
}

fn make_bool_vec(n: usize) -> (r: Vec<bool>)
    ensures
        r@.len() == n,
        forall|x: int| 0 <= x < n ==> !(#[trigger] r@[x]),
{
    let mut r: Vec<bool> = Vec::new();
    let mut i: usize = 0;
    while i < n
        invariant
            i <= n,
            r@.len() == i,
            forall|x: int| 0 <= x < i ==> !(#[trigger] r@[x]),
        decreases n - i,
    {
        r.push(false);
        i += 1;
    }
    r
}

fn mark_range(v: &mut Vec<bool>, start: usize, len: usize)
    requires
        start + len <= old(v)@.len(),
    ensures
        final(v)@.len() == old(v)@.len(),
        forall|x: int|
            0 <= x < old(v)@.len() ==> (#[trigger] final(v)@[x]) == (old(v)@[x] || (start <= x
                < start + len)),
{
    let vlen = v.len();
    let mut d: usize = 0;
    while d < len
        invariant
            vlen == v@.len(),
            start + len <= v@.len(),
            v@.len() == old(v)@.len(),
            d <= len,
            forall|x: int|
                0 <= x < old(v)@.len() ==> (#[trigger] v@[x]) == (old(v)@[x] || (start <= x < start
                    + d)),
        decreases len - d,
    {
        v.set(start + d, true);
        d += 1;
    }
}

/// The longest untiled common region of the two sequences; a zero-length
/// match when every common region is tiled. Ties go to the smallest pattern
/// position, then the smallest text position.
#[verifier::rlimit(50)]
fn find_longest(p: &[u8], t: &[u8], mp: &Vec<bool>, mt: &Vec<bool>) -> (r: Match)
    requires
        mp@.len() == p@.len(),
        mt@.len() == t@.len(),
    ensures
        is_candidate(p@, t@, mp@, mt@, r.pattern_index as int, r.text_index as int, r.length as int),
        forall|i: int, j: int, l: int| is_candidate(p@, t@, mp@, mt@, i, j, l) ==> l <= r.length,
{
    let plen = p.len();
    let tlen = t.len();
    let mut best = Match { pattern_index: 0, text_index: 0, length: 0 };
    let mut i: usize = 0;
    while i < plen
        invariant
            mp@.len() == p@.len(),
            mt@.len() == t@.len(),
            plen == p@.len(),
            tlen == t@.len(),
            i <= p@.len(),
            is_candidate(
                p@,
                t@,
                mp@,
                mt@,
                best.pattern_index as int,
                best.text_index as int,
                best.length as int,
            ),
            forall|i2: int, j2: int, l2: int|
                is_candidate(p@, t@, mp@, mt@, i2, j2, l2) && i2 < i ==> l2 <= best.length,
        decreases p@.len() - i,
    {
        let mut j: usize = 0;
        while j < tlen
            invariant
                mp@.len() == p@.len(),
                mt@.len() == t@.len(),
                plen == p@.len(),
                tlen == t@.len(),
                i < p@.len(),
                j <= t@.len(),
                is_candidate(
                    p@,
                    t@,
                    mp@,
                    mt@,
                    best.pattern_index as int,
                    best.text_index as int,
                    best.length as int,
                ),
                forall|i2: int, j2: int, l2: int|
                    is_candidate(p@, t@, mp@, mt@, i2, j2, l2) && (i2 < i || (i2 == i && j2 < j))
                        ==> l2 <= best.length,
            decreases t@.len() - j,
        {
            let mut len: usize = 0;
            let mut stop = false;
            while !stop
                invariant
                    mp@.len() == p@.len(),
                    mt@.len() == t@.len(),
                    plen == p@.len(),
                    tlen == t@.len(),
                    i < p@.len(),
                    j < t@.len(),
                    i + len <= p@.len(),
                    j + len <= t@.len(),
                    is_candidate(p@, t@, mp@, mt@, i as int, j as int, len as int),
                    stop ==> (i + len == p@.len() || j + len == t@.len() || p@[i + len] != t@[j
                        + len] || mp@[i + len] || mt@[j + len]),
                decreases p@.len() - i - len, (if stop { 0int } else { 1int }),
            {
                let ghost len0 = len as int;
                if i + len < plen && j + len < tlen {
                    if p[i + len] == t[j + len] && !mp[i + len] && !mt[j + len] {
                        proof {
                            lemma_candidate_extend(p@, t@, mp@, mt@, i as int, j as int, len0);
                        }
                        len += 1;
                        proof {
                            assert(is_candidate(p@, t@, mp@, mt@, i as int, j as int, len as int));
                        }
                    } else {
                        stop = true;
                    }
                } else {
                    stop = true;
                }
            }
            proof {
                assert forall|l2: int| is_candidate(p@, t@, mp@, mt@, i as int, j as int, l2)
                    implies l2 <= len as int by {
                    if l2 > len {
                        assert(p@[i + len] == t@[j + len] && !mp@[i + len] && !mt@[j + len]);
                    }
                }
            }
            if len > best.length {
                best = Match { pattern_index: i, text_index: j, length: len };
            }
            proof {
                assert forall|i2: int, j2: int, l2: int|
                    is_candidate(p@, t@, mp@, mt@, i2, j2, l2) && (i2 < i || (i2 == i && j2 < j
                        + 1)) implies l2 <= best.length by {
                    if i2 == i && j2 == j {
                        assert(l2 <= len as int);
                    }
                }
            }
            j += 1;
        }
        proof {
            assert forall|i2: int, j2: int, l2: int|
                is_candidate(p@, t@, mp@, mt@, i2, j2, l2) && i2 < i + 1 implies l2
                <= best.length by {
                if i2 == i && l2 >= 1 {
                    assert(j2 + l2 <= t@.len());
                }
            }
        }
        i += 1;
    }
    proof {
        assert forall|i2: int, j2: int, l2: int| is_candidate(p@, t@, mp@, mt@, i2, j2, l2)
            implies l2 <= best.length by {
            if l2 >= 1 {
                assert(i2 + l2 <= p@.len());
            }
        }
    }
    best
}

/// How many positions are already tiled.
pub open spec fn count_marked(s: Seq<bool>) -> int
    decreases s.len(),
{
    if s.len() == 0 {
        0
    } else {
        count_marked(s.drop_last()) + if s.last() {
            1int
        } else {
            0int
        }
    }
}

proof fn lemma_count_marked_bounds(s: Seq<bool>)
    ensures
        0 <= count_marked(s) <= s.len(),
    decreases s.len(),
{
    if s.len() > 0 {
        lemma_count_marked_bounds(s.drop_last());
    }
}

/// Marking strictly more positions strictly raises the count.
proof fn lemma_count_marked_grows(a: Seq<bool>, b: Seq<bool>, witness: int)
    requires
        a.len() == b.len(),
        forall|x: int| 0 <= x < a.len() ==> (a[x] ==> #[trigger] b[x]),
        0 <= witness < a.len(),
        !a[witness],
        b[witness],
    ensures
        count_marked(a) < count_marked(b),
    decreases a.len(),
{
    lemma_count_marked_mono(a.drop_last(), b.drop_last());
    if witness == a.len() - 1 {
    } else {
        lemma_count_marked_grows(a.drop_last(), b.drop_last(), witness);
    }
}

proof fn lemma_count_marked_mono(a: Seq<bool>, b: Seq<bool>)
    requires
        a.len() == b.len(),
        forall|x: int| 0 <= x < a.len() ==> (a[x] ==> #[trigger] b[x]),
    ensures
        count_marked(a) <= count_marked(b),
    decreases a.len(),
{
    if a.len() > 0 {
        lemma_count_marked_mono(a.drop_last(), b.drop_last());
    }
}

proof fn lemma_covers_push(ms: Seq<Match>, m: Match)
    ensures
        forall|x: int| covers_pattern(ms, x) ==> #[trigger] covers_pattern(ms.push(m), x),
        forall|x: int| covers_text(ms, x) ==> #[trigger] covers_text(ms.push(m), x),
        forall|x: int| m.pattern_index <= x < m.pattern_index + m.length ==> #[trigger] covers_pattern(
            ms.push(m),
            x,
        ),
        forall|x: int| m.text_index <= x < m.text_index + m.length ==> #[trigger] covers_text(
            ms.push(m),
            x,
        ),
{
    assert forall|x: int| covers_pattern(ms, x) implies #[trigger] covers_pattern(
        ms.push(m),
        x,
    ) by {
        let k = choose|k: int|
            0 <= k < ms.len() && (#[trigger] ms[k]).pattern_index <= x < ms[k].pattern_index
                + ms[k].length;
        assert(ms.push(m)[k] == ms[k]);
    }
    assert forall|x: int| covers_text(ms, x) implies #[trigger] covers_text(ms.push(m), x) by {
        let k = choose|k: int|
            0 <= k < ms.len() && (#[trigger] ms[k]).text_index <= x < ms[k].text_index
                + ms[k].length;
        assert(ms.push(m)[k] == ms[k]);
    }
    assert forall|x: int| m.pattern_index <= x < m.pattern_index + m.length
        implies #[trigger] covers_pattern(ms.push(m), x) by {
        assert(ms.push(m)[ms.len() as int] == m);
    }
    assert forall|x: int| m.text_index <= x < m.text_index + m.length
        implies #[trigger] covers_text(ms.push(m), x) by {
        assert(ms.push(m)[ms.len() as int] == m);
    }
}

/// Greedy string tiling over two kind sequences. Repeatedly take the longest
/// remaining common untiled region and tile it, while one of at least
/// `minimum_match` positions remains. `initial_search_length` tunes the
/// search schedule of the reference procedure; this implementation searches
/// longest-first directly and does not consult it.
pub fn run(
    pattern: &[u8],
    text: &[u8],
    minimum_match: usize,
    initial_search_length: usize,
) -> (r: Vec<Match>)
    requires
        1 <= minimum_match,
    ensures
        forall|k: int|
            0 <= k < r@.len() ==> {
                &&& minimum_match <= (#[trigger] r@[k]).length
                &&& match_in_bounds(r@[k], pattern@.len() as int, text@.len() as int)
                &&& match_agrees(r@[k], pattern@, text@)
                &&& match_maximal(r@, r@[k], pattern@, text@)
            },
        matches_disjoint(r@),
        forall|i: int, j: int, l: int|
            untiled_candidate(pattern@, text@, r@, i, j, l) ==> l < minimum_match,
{
    let plen = pattern.len();
    let tlen = text.len();
    let mut marked_p = make_bool_vec(plen);
    let mut marked_t = make_bool_vec(tlen);
    let mut result: Vec<Match> = Vec::new();
    let _ = initial_search_length;
    loop
        invariant
            marked_p@.len() == plen == pattern@.len(),
            marked_t@.len() == tlen == text@.len(),
            1 <= minimum_match,
            forall|k: int|
                0 <= k < result@.len() ==> {
                    &&& minimum_match <= (#[trigger] result@[k]).length
                    &&& match_in_bounds(result@[k], plen as int, tlen as int)
                    &&& match_agrees(result@[k], pattern@, text@)
                    &&& match_maximal(result@, result@[k], pattern@, text@)
                },
            matches_disjoint(result@),
            forall|x: int| 0 <= x < plen ==> (#[trigger] marked_p@[x] <==> covers_pattern(result@, x)),
            forall|x: int| 0 <= x < tlen ==> (#[trigger] marked_t@[x] <==> covers_text(result@, x)),
        ensures
            forall|i: int, j: int, l: int|
                is_candidate(pattern@, text@, marked_p@, marked_t@, i, j, l) ==> l < minimum_match,
        decreases plen + 1 - count_marked(marked_p@),
    {
        proof {
            lemma_count_marked_bounds(marked_p@);
        }
        let m = find_longest(pattern, text, &marked_p, &marked_t);
        if m.length < minimum_match {
            break;
        }
        let ghost old_result = result@;
        let ghost old_mp = marked_p@;
        let ghost old_mt = marked_t@;
        let ghost pi = m.pattern_index as int;
        let ghost ti = m.text_index as int;
        let ghost ml = m.length as int;
        proof {
            assert(is_candidate(pattern@, text@, old_mp, old_mt, pi, ti, ml));
            // the new match is disjoint from everything tiled so far
            assert forall|k: int| 0 <= k < old_result.len() implies ranges_disjoint(
                (old_result[k]).pattern_index as int,
                old_result[k].length as int,
                pi,
                ml,
            ) && ranges_disjoint(
                old_result[k].text_index as int,
                old_result[k].length as int,
                ti,
                ml,
            ) by {
                let a = old_result[k];
                if !(a.pattern_index + a.length <= pi || pi + ml <= a.pattern_index) {
                    let x = if a.pattern_index as int >= pi {
                        a.pattern_index as int
                    } else {
                        pi
                    };
                    assert(a.pattern_index <= x < a.pattern_index + a.length);
                    assert(covers_pattern(old_result, x));
                    assert(pi <= x < pi + ml);
                    lemma_candidate_cell(pattern@, text@, old_mp, old_mt, pi, ti, ml, x - pi);
                    assert(!old_mp[x]);
                }
                if !(a.text_index + a.length <= ti || ti + ml <= a.text_index) {
                    let x = if a.text_index as int >= ti {
                        a.text_index as int
                    } else {
                        ti
                    };
                    assert(a.text_index <= x < a.text_index + a.length);
                    assert(covers_text(old_result, x));
                    assert(ti <= x < ti + ml);
                    lemma_candidate_cell(pattern@, text@, old_mp, old_mt, pi, ti, ml, x - ti);
                    assert(!old_mt[x]);
                }
            }
            // the new match cannot grow: a longer candidate would have won
            if pi > 0 && ti > 0 && pattern@[pi - 1] == text@[ti - 1] && !old_mp[pi - 1]
                && !old_mt[ti - 1] {
                assert(is_candidate(pattern@, text@, old_mp, old_mt, pi - 1, ti - 1, ml + 1)) by {
                    assert forall|d: int| 0 <= d < ml + 1 implies pattern@[pi - 1 + d]
                        == #[trigger] text@[ti - 1 + d] && !old_mp[pi - 1 + d] && !old_mt[ti - 1
                        + d] by {
                        if d > 0 {
                            lemma_candidate_cell(pattern@, text@, old_mp, old_mt, pi, ti, ml, d - 1);
                        }
                    }
                }
            }
            if pi + ml < plen && ti + ml < tlen && pattern@[pi + ml] == text@[ti + ml]
                && !old_mp[pi + ml] && !old_mt[ti + ml] {
                assert(is_candidate(pattern@, text@, old_mp, old_mt, pi, ti, ml + 1)) by {
                    assert forall|d: int| 0 <= d < ml + 1 implies pattern@[pi + d]
                        == #[trigger] text@[ti + d] && !old_mp[pi + d] && !old_mt[ti + d] by {
                        if d < ml {
                            lemma_candidate_cell(pattern@, text@, old_mp, old_mt, pi, ti, ml, d);
                        }
                    }
                }
            }
        }
        result.push(m);
        mark_range(&mut marked_p, m.pattern_index, m.length);
        mark_range(&mut marked_t, m.text_index, m.length);
        proof {
            lemma_covers_push(old_result, m);
            assert(result@ == old_result.push(m));
            // tiled positions and covered positions stay in step
            assert forall|x: int| 0 <= x < plen implies (#[trigger] marked_p@[x] <==> covers_pattern(
                result@,
                x,
            )) by {
                if marked_p@[x] {
                    if old_mp[x] {
                        assert(covers_pattern(old_result, x));
                    } else {
                        assert(pi <= x < pi + ml);
                    }
                } else {
                    if covers_pattern(result@, x) {
                        let k = choose|k: int|
                            0 <= k < result@.len() && (#[trigger] result@[k]).pattern_index <= x
                                < result@[k].pattern_index + result@[k].length;
                        if k < old_result.len() {
                            assert(result@[k] == old_result[k]);
                            assert(covers_pattern(old_result, x));
                        } else {
                            assert(result@[k] == m);
                        }
                    }
                }
            }
            assert forall|x: int| 0 <= x < tlen implies (#[trigger] marked_t@[x] <==> covers_text(
                result@,
                x,
            )) by {
                if marked_t@[x] {
                    if old_mt[x] {
                        assert(covers_text(old_result, x));
                    } else {
                        assert(ti <= x < ti + ml);
                    }
                } else {
                    if covers_text(result@, x) {
                        let k = choose|k: int|
                            0 <= k < result@.len() && (#[trigger] result@[k]).text_index <= x
                                < result@[k].text_index + result@[k].length;
                        if k < old_result.len() {
                            assert(result@[k] == old_result[k]);
                            assert(covers_text(old_result, x));
                        } else {
                            assert(result@[k] == m);
                        }
                    }
                }
            }
            // every invariant clause for the grown result
            assert forall|k: int| 0 <= k < result@.len() implies {
                &&& minimum_match <= (#[trigger] result@[k]).length
                &&& match_in_bounds(result@[k], plen as int, tlen as int)
                &&& match_agrees(result@[k], pattern@, text@)
                &&& match_maximal(result@, result@[k], pattern@, text@)
            } by {
                if k < old_result.len() {
                    assert(result@[k] == old_result[k]);
                    assert(match_maximal(old_result, old_result[k], pattern@, text@));
                } else {
                    assert(result@[k] == m);
                }
            }
            assert forall|i: int, j: int| 0 <= i < j < result@.len() implies {
                &&& ranges_disjoint(
                    (#[trigger] result@[i]).pattern_index as int,
                    result@[i].length as int,
                    (#[trigger] result@[j]).pattern_index as int,
                    result@[j].length as int,
                )
                &&& ranges_disjoint(
                    result@[i].text_index as int,
                    result@[i].length as int,
                    result@[j].text_index as int,
                    result@[j].length as int,
                )
            } by {
                if j < old_result.len() {
                    assert(result@[i] == old_result[i]);
                    assert(result@[j] == old_result[j]);
                } else {
                    assert(result@[i] == old_result[i]);
                    assert(result@[j] == m);
                }
            }
            // the tiled area grew, so the loop makes progress
            lemma_candidate_cell(pattern@, text@, old_mp, old_mt, pi, ti, ml, 0);
            lemma_count_marked_grows(old_mp, marked_p@, pi);
            lemma_count_marked_bounds(marked_p@);
        }
    }
    proof {
        // a run the tiling leaves uncovered is an untiled candidate of the
        // final marks, and the loop only stops once those are all short
        assert forall|i: int, j: int, l: int|
            untiled_candidate(pattern@, text@, result@, i, j, l) implies l < minimum_match by {
            assert(is_candidate(pattern@, text@, marked_p@, marked_t@, i, j, l)) by {
                assert forall|d: int| 0 <= d < l implies pattern@[i + d] == #[trigger] text@[j + d]
                    && !marked_p@[i + d] && !marked_t@[j + d] by {
                    lemma_untiled_cell(pattern@, text@, result@, i, j, l, d);
                }
            }
        }
    }
    result
}

} // verus!
