use crate::tiler;
use crate::tiler::Match;
use crate::token;
use crate::token::Token;
use vstd::prelude::*;
use vstd::seq_lib::*;

verus! {

/// A pair of matched inclusive 1-based line ranges: `left_from..=left_to` in
/// the left source corresponds to `right_from..=right_to` in the right one.
#[derive(Clone, Copy, Debug, PartialEq, Eq, Structural)]
pub struct LineMatch {
    pub left_from: u32,
    pub left_to: u32,
    pub right_from: u32,
    pub right_to: u32,
}

/// Two adjacent line matches can be merged when the left range of the second
/// begins on the line where the first ends, and likewise on the right.
pub open spec fn can_merge(a: LineMatch, b: LineMatch) -> bool {
    a.left_to == b.left_from && a.right_to == b.right_from
}

pub open spec fn merged(a: LineMatch, b: LineMatch) -> LineMatch {
    LineMatch {
        left_from: a.left_from,
        left_to: b.left_to,
        right_from: a.right_from,
        right_to: b.right_to,
    }
}

/// The merge pass: walk the list and join every adjacent pair that lines up,
/// repeatedly, until nothing lines up any more.
pub open spec fn merge_spec(s: Seq<LineMatch>) -> Seq<LineMatch>
    decreases s.len(),
{
    if s.len() <= 1 {
        s
    } else if can_merge(s[0], s[1]) {
        merge_spec(seq![merged(s[0], s[1])] + s.skip(2))
    } else {
        seq![s[0]] + merge_spec(s.skip(1))
    }
}

/// No two neighbours of the list can still be merged.
pub open spec fn fully_merged(s: Seq<LineMatch>) -> bool {
    forall|i: int| 0 <= i && i + 1 < s.len() ==> !can_merge(#[trigger] s[i], s[i + 1])
}

pub open spec fn line_match_valid(m: LineMatch) -> bool {
    m.left_from <= m.left_to && m.right_from <= m.right_to
}

/// Valid ranges in left order: each entry ends no later than the next one
/// begins on the left side.
pub open spec fn chained(s: Seq<LineMatch>) -> bool {
    &&& forall|i: int| 0 <= i < s.len() ==> line_match_valid(#[trigger] s[i])
    &&& forall|i: int| 0 <= i && i + 1 < s.len() ==> (#[trigger] s[i]).left_to <= s[i + 1].left_from
}

/// The merge pass keeps the starting lines of the first entry.
proof fn lemma_merge_first(s: Seq<LineMatch>)
    requires
        s.len() >= 1,
    ensures
        merge_spec(s).len() >= 1,
        merge_spec(s)[0].left_from == s[0].left_from,
        merge_spec(s)[0].right_from == s[0].right_from,
    decreases s.len(),
{
    if s.len() <= 1 {
    } else if can_merge(s[0], s[1]) {
        let s2 = seq![merged(s[0], s[1])] + s.skip(2);
        lemma_merge_first(s2);
        assert(s2[0] == merged(s[0], s[1]));
    } else {
        lemma_merge_first(s.skip(1));
        assert(merge_spec(s)[0] == s[0]);
    }
}

/// After one merge pass nothing adjacent can still be merged.
proof fn lemma_merge_fully(s: Seq<LineMatch>)
    ensures
        fully_merged(merge_spec(s)),
    decreases s.len(),
{
    if s.len() <= 1 {
    } else if can_merge(s[0], s[1]) {
        lemma_merge_fully(seq![merged(s[0], s[1])] + s.skip(2));
    } else {
        let tail = s.skip(1);
        lemma_merge_fully(tail);
        let m = merge_spec(s);
        let mt = merge_spec(tail);
        assert(tail.len() >= 1);
        lemma_merge_first(tail);
        assert(tail[0] == s[1]);
        assert forall|i: int| 0 <= i && i + 1 < m.len() implies !can_merge(#[trigger] m[i], m[i + 1]) by {
            if i == 0 {
                assert(m[0] == s[0]);
                assert(m[1] == mt[0]);
            } else {
                assert(m[i] == mt[i - 1]);
                assert(m[i + 1] == mt[i]);
            }
        }
    }
}

/// A list where nothing lines up is left exactly as it is.
proof fn lemma_merge_fixed(s: Seq<LineMatch>)
    requires
        fully_merged(s),
    ensures
        merge_spec(s) == s,
    decreases s.len(),
{
    if s.len() <= 1 {
    } else {
        assert(!can_merge(s[0], s[1]));
        let tail = s.skip(1);
        assert(fully_merged(tail)) by {
            assert forall|i: int| 0 <= i && i + 1 < tail.len() implies !can_merge(
                #[trigger] tail[i],
                tail[i + 1],
            ) by {
                assert(tail[i] == s[i + 1]);
                assert(tail[i + 1] == s[i + 2]);
            }
        }
        lemma_merge_fixed(tail);
        assert(merge_spec(s) =~= s);
    }
}

/// Merging a second time changes nothing: the pass is idempotent.
pub proof fn lemma_merge_idempotent(s: Seq<LineMatch>)
    ensures
        merge_spec(merge_spec(s)) == merge_spec(s),
{
    lemma_merge_fully(s);
    lemma_merge_fixed(merge_spec(s));
}

/// The merge pass keeps ranges valid and in left order.
proof fn lemma_merge_chained(s: Seq<LineMatch>)
    requires
        chained(s),
    ensures
        chained(merge_spec(s)),
    decreases s.len(),
{
    if s.len() <= 1 {
    } else if can_merge(s[0], s[1]) {
        let s2 = seq![merged(s[0], s[1])] + s.skip(2);
        assert(chained(s2)) by {
            assert(line_match_valid(merged(s[0], s[1])));
            assert forall|i: int| 0 <= i < s2.len() implies line_match_valid(#[trigger] s2[i]) by {
                if i > 0 {
                    assert(s2[i] == s[i + 1]);
                }
            }
            assert forall|i: int| 0 <= i && i + 1 < s2.len() implies (#[trigger] s2[i]).left_to
                <= s2[i + 1].left_from by {
                if i == 0 {
                    assert(s2[1] == s[2]);
                } else {
                    assert(s2[i] == s[i + 1]);
                    assert(s2[i + 1] == s[i + 2]);
                }
            }
        }
        lemma_merge_chained(s2);
    } else {
        let tail = s.skip(1);
        assert(chained(tail)) by {
            assert forall|i: int| 0 <= i < tail.len() implies line_match_valid(
                #[trigger] tail[i],
            ) by {
                assert(tail[i] == s[i + 1]);
            }
            assert forall|i: int| 0 <= i && i + 1 < tail.len() implies (#[trigger] tail[i]).left_to
                <= tail[i + 1].left_from by {
                assert(tail[i] == s[i + 1]);
                assert(tail[i + 1] == s[i + 2]);
            }
        }
        lemma_merge_chained(tail);
        lemma_merge_first(tail);
        let m = merge_spec(s);
        let mt = merge_spec(tail);
        assert(tail[0] == s[1]);
        assert forall|i: int| 0 <= i < m.len() implies line_match_valid(#[trigger] m[i]) by {
            if i > 0 {
                assert(m[i] == mt[i - 1]);
            }
        }
        assert forall|i: int| 0 <= i && i + 1 < m.len() implies (#[trigger] m[i]).left_to <= m[i
            + 1].left_from by {
            if i == 0 {
                assert(m[0] == s[0]);
                assert(m[1] == mt[0]);
            } else {
                assert(m[i] == mt[i - 1]);
                assert(m[i + 1] == mt[i]);
            }
        }
    }
}

/// In a chained list every later entry begins no earlier than any earlier
/// entry ends.
proof fn lemma_chained_order(s: Seq<LineMatch>, i: int, j: int)
    requires
        chained(s),
        0 <= i < j < s.len(),
    ensures
        s[i].left_to <= s[j].left_from,
        s[i].left_from <= s[j].left_from,
    decreases j - i,
{
    if j == i + 1 {
    } else {
        lemma_chained_order(s, i, j - 1);
    }
}

/// Apply the merge pass to a list of line matches.
pub fn merge_line_matches(v: Vec<LineMatch>) -> (r: Vec<LineMatch>)
    ensures
        r@ == merge_spec(v@),
{
    let ghost orig = v@;
    let mut v = v;
    let n0 = v.len();
    proof {
        assert(v@.skip(0) =~= v@);
        assert(v@.take(0) + merge_spec(v@.skip(0)) =~= merge_spec(orig));
    }
    let mut i: usize = 0;
    while i + 1 < v.len()
        invariant
            v@.len() <= n0,
            i < v@.len() || (i == 0 && v@.len() == 0),
            merge_spec(orig) == v@.take(i as int) + merge_spec(v@.skip(i as int)),
        decreases v@.len() - i,
    {
        let ghost pre = v@;
        let a = v[i];
        let b = v[i + 1];
        if a.left_to == b.left_from && a.right_to == b.right_from {
            let m = LineMatch {
                left_from: a.left_from,
                left_to: b.left_to,
                right_from: a.right_from,
                right_to: b.right_to,
            };
            v.set(i, m);
            v.remove(i + 1);
            proof {
                assert(m == merged(pre[i as int], pre[i as int + 1]));
                let s = pre.skip(i as int);
                assert(s[0] == pre[i as int]);
                assert(s[1] == pre[i as int + 1]);
                assert(can_merge(s[0], s[1]));
                assert(merge_spec(s) == merge_spec(seq![merged(s[0], s[1])] + s.skip(2)));
                assert(v@.take(i as int) =~= pre.take(i as int));
                assert(v@.skip(i as int) =~= seq![merged(s[0], s[1])] + s.skip(2));
            }
        } else {
            i += 1;
            proof {
                let s = pre.skip(i as int - 1);
                assert(s[0] == pre[i as int - 1]);
                assert(s[1] == pre[i as int]);
                assert(!can_merge(s[0], s[1]));
                assert(merge_spec(s) == seq![s[0]] + merge_spec(s.skip(1)));
                assert(s.skip(1) =~= pre.skip(i as int));
                assert(pre.take(i as int) =~= pre.take(i as int - 1) + seq![s[0]]);
                assert(pre.take(i as int - 1) + (seq![s[0]] + merge_spec(pre.skip(i as int)))
                    =~= pre.take(i as int) + merge_spec(pre.skip(i as int)));
            }
        }
    }
    proof {
        assert(merge_spec(v@.skip(i as int)) == v@.skip(i as int));
        assert(v@.take(i as int) + v@.skip(i as int) =~= v@);
    }
    v
}

/// What the tiler hands to the line mapper: disjoint agreeing in-bounds
/// matches of at least the minimum length, in pattern order.
pub open spec fn token_matches_ok(
    ms: Seq<Match>,
    left: Seq<Token>,
    right: Seq<Token>,
    min: int,
) -> bool {
    &&& tiler::matches_disjoint(ms)
    &&& forall|k: int|
        0 <= k < ms.len() ==> {
            &&& min <= (#[trigger] ms[k]).length
            &&& tiler::match_in_bounds(ms[k], left.len() as int, right.len() as int)
            &&& tiler::match_agrees(ms[k], token::kinds_of(left), token::kinds_of(right))
        }
    &&& forall|a: int, b: int|
        0 <= a < b < ms.len() ==> (#[trigger] ms[a]).pattern_index <= (#[trigger] ms[b]).pattern_index
    &&& forall|i: int, j: int, l: int|
        tiler::untiled_candidate(token::kinds_of(left), token::kinds_of(right), ms, i, j, l)
            ==> l < min
}

/// The line ranges that one token match covers.
pub open spec fn line_match_of(m: Match, left: Seq<Token>, right: Seq<Token>) -> LineMatch {
    LineMatch {
        left_from: left[m.pattern_index as int].line,
        left_to: left[m.pattern_index + m.length - 1].line,
        right_from: right[m.text_index as int].line,
        right_to: right[m.text_index + m.length - 1].line,
    }
}

pub open spec fn lines_of(ms: Seq<Match>, left: Seq<Token>, right: Seq<Token>) -> Seq<LineMatch> {
    ms.map(|_k: int, m: Match| line_match_of(m, left, right))
}

/// Order the tiler's matches by pattern position. Selection by repeated
/// minimum keeps exactly the same multiset of matches.
fn sort_matches(ms: Vec<Match>) -> (r: Vec<Match>)
    ensures
        r@.len() == ms@.len(),
        r@.to_multiset() == ms@.to_multiset(),
        forall|a: int, b: int|
            0 <= a < b < r@.len() ==> (#[trigger] r@[a]).pattern_index <= (
            #[trigger] r@[b]).pattern_index,
{
    broadcast use vstd::seq_lib::group_to_multiset_ensures;
    broadcast use vstd::multiset::group_multiset_axioms;

    let mut work = ms;
    let mut r: Vec<Match> = Vec::new();
    let ghost orig = work@;
    proof {
        assert(r@.to_multiset().add(work@.to_multiset()) =~= orig.to_multiset());
    }
    while work.len() > 0
        invariant
            r@.to_multiset().add(work@.to_multiset()) == orig.to_multiset(),
            r@.len() + work@.len() == orig.len(),
            forall|a: int, b: int|
                0 <= a < b < r@.len() ==> (#[trigger] r@[a]).pattern_index <= (
                #[trigger] r@[b]).pattern_index,
            forall|a: int, b: int|
                0 <= a < r@.len() && 0 <= b < work@.len() ==> (#[trigger] r@[a]).pattern_index <= (
                #[trigger] work@[b]).pattern_index,
        decreases work@.len(),
    {
        let mut mi: usize = 0;
        let mut c: usize = 1;
        while c < work.len()
            invariant
                work@.len() > 0,
                mi < c <= work@.len(),
                forall|b: int|
                    0 <= b < c ==> (#[trigger] work@[b]).pattern_index
                        >= work@[mi as int].pattern_index,
            decreases work@.len() - c,
        {
            if work[c].pattern_index < work[mi].pattern_index {
                mi = c;
            }
            c += 1;
        }
        let ghost pre = work@;
        let ghost r_pre = r@;
        let v = work.remove(mi);
        r.push(v);
        proof {
            vstd::seq_lib::to_multiset_remove(pre, mi as int);
            assert(work@.to_multiset() == pre.to_multiset().remove(v));
            assert(r@ == r_pre.push(v));
            vstd::seq_lib::to_multiset_build(r_pre, v);
            assert(pre[mi as int] == v);
            assert(pre.contains(v));
            vstd::seq_lib::to_multiset_contains(pre, v);
            assert(pre.to_multiset().count(v) > 0);
            assert(r@.to_multiset().add(work@.to_multiset()) =~= orig.to_multiset());
            assert forall|b: int| 0 <= b < work@.len() implies v.pattern_index <= (
            #[trigger] work@[b]).pattern_index by {
                if b < mi {
                    assert(work@[b] == pre[b]);
                } else {
                    assert(work@[b] == pre[b + 1]);
                }
            }
        }
    }
    r
}

/// A permutation of a match set covers the same positions.
proof fn lemma_covers_permutation(a: Seq<Match>, b: Seq<Match>)
    requires
        a.to_multiset() == b.to_multiset(),
    ensures
        forall|x: int| #[trigger] tiler::covers_pattern(a, x) ==> tiler::covers_pattern(b, x),
        forall|x: int| #[trigger] tiler::covers_text(a, x) ==> tiler::covers_text(b, x),
{
    broadcast use vstd::seq_lib::group_to_multiset_ensures;

    assert forall|x: int| #[trigger] tiler::covers_pattern(a, x) implies tiler::covers_pattern(
        b,
        x,
    ) by {
        let k = choose|k: int|
            0 <= k < a.len() && (#[trigger] a[k]).pattern_index <= x < a[k].pattern_index
                + a[k].length;
        assert(a.contains(a[k]));
        assert(a.to_multiset().count(a[k]) > 0);
        assert(b.to_multiset().count(a[k]) > 0);
        assert(b.contains(a[k]));
        let k2 = choose|k2: int| 0 <= k2 < b.len() && b[k2] == a[k];
        assert(b[k2].pattern_index <= x < b[k2].pattern_index + b[k2].length);
    }
    assert forall|x: int| #[trigger] tiler::covers_text(a, x) implies tiler::covers_text(
        b,
        x,
    ) by {
        let k = choose|k: int|
            0 <= k < a.len() && (#[trigger] a[k]).text_index <= x < a[k].text_index + a[k].length;
        assert(a.contains(a[k]));
        assert(a.to_multiset().count(a[k]) > 0);
        assert(b.to_multiset().count(a[k]) > 0);
        assert(b.contains(a[k]));
        let k2 = choose|k2: int| 0 <= k2 < b.len() && b[k2] == a[k];
        assert(b[k2].text_index <= x < b[k2].text_index + b[k2].length);
    }
}

/// Matches that are disjoint and of positive length never repeat a value.
proof fn lemma_disjoint_no_duplicates(ms: Seq<Match>)
    requires
        tiler::matches_disjoint(ms),
        forall|k: int| 0 <= k < ms.len() ==> (#[trigger] ms[k]).length >= 1,
    ensures
        ms.no_duplicates(),
{
    assert forall|a: int, b: int| 0 <= a < ms.len() && 0 <= b < ms.len() && a != b implies ms[a]
        != ms[b] by {
        if a < b {
            assert(tiler::ranges_disjoint(
                ms[a].pattern_index as int,
                ms[a].length as int,
                ms[b].pattern_index as int,
                ms[b].length as int,
            ));
        } else {
            assert(tiler::ranges_disjoint(
                ms[b].pattern_index as int,
                ms[b].length as int,
                ms[a].pattern_index as int,
                ms[a].length as int,
            ));
        }
    }
}

/// Convert the tiler's matches on two well-formed token streams into merged
/// line matches. The result is what the merge pass leaves of the matches'
/// line ranges taken in pattern order; ranges are valid, ordered by their
/// left side, touching at most at a boundary line, and nothing adjacent can
/// be merged further.
#[verifier::rlimit(60)]
pub fn find_matches(left: &[Token], right: &[Token]) -> (r: Vec<LineMatch>)
    requires
        token::wf_tokens(left@),
        token::wf_tokens(right@),
    ensures
        exists|ms: Seq<Match>|
            #[trigger] token_matches_ok(ms, left@, right@, 40) && r@ == merge_spec(
                lines_of(ms, left@, right@),
            ),
        forall|i: int| 0 <= i < r@.len() ==> line_match_valid(#[trigger] r@[i]),
        forall|i: int, j: int|
            0 <= i < j < r@.len() ==> (#[trigger] r@[i]).left_to <= (#[trigger] r@[j]).left_from
                && r@[i].left_from <= r@[j].left_from,
        fully_merged(r@),
{
    broadcast use vstd::seq_lib::group_to_multiset_ensures;

    let llen = left.len();
    let rlen = right.len();
    let left_kind = token::kinds(left);
    let right_kind = token::kinds(right);
    let raw = tiler::run(left_kind.as_slice(), right_kind.as_slice(), 40, 20);
    let ghost raw_seq = raw@;
    let sorted = sort_matches(raw);
    let ghost ms = sorted@;
    proof {
        lemma_disjoint_no_duplicates(raw_seq);
        raw_seq.lemma_multiset_has_no_duplicates();
        ms.lemma_multiset_has_no_duplicates_conv();
        // each sorted match is one of the tiler's matches
        assert forall|k: int| 0 <= k < ms.len() implies exists|k0: int|
            0 <= k0 < raw_seq.len() && raw_seq[k0] == #[trigger] ms[k] by {
            assert(ms.to_multiset().count(ms[k]) > 0);
            assert(raw_seq.to_multiset().count(ms[k]) > 0);
            assert(raw_seq.contains(ms[k]));
        }
        assert forall|a: int, b: int| 0 <= a < b < ms.len() implies tiler::ranges_disjoint(
            (#[trigger] ms[a]).pattern_index as int,
            ms[a].length as int,
            (#[trigger] ms[b]).pattern_index as int,
            ms[b].length as int,
        ) && tiler::ranges_disjoint(
            ms[a].text_index as int,
            ms[a].length as int,
            ms[b].text_index as int,
            ms[b].length as int,
        ) by {
            let ka = choose|k0: int| 0 <= k0 < raw_seq.len() && raw_seq[k0] == ms[a];
            let kb = choose|k0: int| 0 <= k0 < raw_seq.len() && raw_seq[k0] == ms[b];
            assert(ms[a] != ms[b]);
            assert(ka != kb);
        }
        // what the ordered matches leave uncovered, the tiler's matches left
        // uncovered too, and the tiler left nothing reportable
        lemma_covers_permutation(raw_seq, ms);
        assert forall|i: int, j: int, l: int|
            tiler::untiled_candidate(
                token::kinds_of(left@),
                token::kinds_of(right@),
                ms,
                i,
                j,
                l,
            ) implies l < 40 by {
            let kl = token::kinds_of(left@);
            let kr = token::kinds_of(right@);
            assert(tiler::untiled_candidate(kl, kr, raw_seq, i, j, l)) by {
                assert forall|d: int| 0 <= d < l implies kl[i + d] == #[trigger] kr[j + d]
                    && !tiler::covers_pattern(raw_seq, i + d) && !tiler::covers_text(
                    raw_seq,
                    j + d,
                ) by {
                    tiler::lemma_untiled_cell(kl, kr, ms, i, j, l, d);
                }
            }
        }
        assert(token_matches_ok(ms, left@, right@, 40));
    }
    // map each token match to the line ranges it covers
    let mut lms: Vec<LineMatch> = Vec::new();
    let mut k: usize = 0;
    while k < sorted.len()
        invariant
            sorted@ == ms,
            token_matches_ok(ms, left@, right@, 40),
            llen == left@.len(),
            rlen == right@.len(),
            k <= ms.len(),
            lms@ == lines_of(ms, left@, right@).take(k as int),
        decreases sorted@.len() - k,
    {
        let m = sorted[k];
        let lm = LineMatch {
            left_from: left[m.pattern_index].line,
            left_to: left[m.pattern_index + m.length - 1].line,
            right_from: right[m.text_index].line,
            right_to: right[m.text_index + m.length - 1].line,
        };
        lms.push(lm);
        k += 1;
        proof {
            assert(lm == line_match_of(ms[k - 1], left@, right@));
            assert(lms@ =~= lines_of(ms, left@, right@).take(k as int));
        }
    }
    proof {
        assert(lms@ =~= lines_of(ms, left@, right@));
        // line ranges inherit order and validity from the token streams
        let ls = lines_of(ms, left@, right@);
        assert forall|i: int| 0 <= i < ls.len() implies line_match_valid(#[trigger] ls[i]) by {
            assert(ls[i] == line_match_of(ms[i], left@, right@));
            assert(left@[ms[i].pattern_index as int].line <= left@[ms[i].pattern_index
                + ms[i].length - 1].line);
            assert(right@[ms[i].text_index as int].line <= right@[ms[i].text_index + ms[i].length
                - 1].line);
        }
        assert forall|i: int| 0 <= i && i + 1 < ls.len() implies (#[trigger] ls[i]).left_to <= ls[i
            + 1].left_from by {
            assert(ls[i] == line_match_of(ms[i], left@, right@));
            assert(ls[i + 1] == line_match_of(ms[i + 1], left@, right@));
            assert(tiler::ranges_disjoint(
                ms[i].pattern_index as int,
                ms[i].length as int,
                ms[i + 1].pattern_index as int,
                ms[i + 1].length as int,
            ));
            assert(ms[i].pattern_index + ms[i].length <= ms[i + 1].pattern_index);
            assert(left@[ms[i].pattern_index + ms[i].length - 1].line <= left@[ms[i
                + 1].pattern_index as int].line);
        }
        assert(chained(ls));
        lemma_merge_chained(ls);
        lemma_merge_fully(ls);
    }
    let r = merge_line_matches(lms);
    proof {
        let ls = lines_of(ms, left@, right@);
        assert(r@ == merge_spec(ls));
        assert forall|i: int, j: int| 0 <= i < j < r@.len() implies (#[trigger] r@[i]).left_to <= (
        #[trigger] r@[j]).left_from && r@[i].left_from <= r@[j].left_from by {
            lemma_chained_order(merge_spec(ls), i, j);
        }
    }
    r
}


/// The tokens that survive template removal: everything outside the covered
/// pattern ranges, in order.
pub open spec fn uncovered_prefix(tokens: Seq<Token>, ms: Seq<Match>, i: int) -> Seq<Token>
    decreases i,
{
    if i <= 0 {
        Seq::empty()
    } else {
        uncovered_prefix(tokens, ms, i - 1) + if tiler::covers_pattern(ms, i - 1) {
            Seq::empty()
        } else {
            seq![tokens[i - 1]]
        }
    }
}

pub open spec fn remove_spans_spec(tokens: Seq<Token>, ms: Seq<Match>) -> Seq<Token> {
    uncovered_prefix(tokens, ms, tokens.len() as int)
}

fn is_covered(ms: &Vec<Match>, i: usize) -> (r: bool)
    ensures
        r == tiler::covers_pattern(ms@, i as int),
{
    let mut k: usize = 0;
    while k < ms.len()
        invariant
            k <= ms@.len(),
            forall|c: int|
                0 <= c < k ==> !((#[trigger] ms@[c]).pattern_index <= i < ms@[c].pattern_index
                    + ms@[c].length),
        decreases ms@.len() - k,
    {
        if ms[k].pattern_index <= i && i - ms[k].pattern_index < ms[k].length {
            return true;
        }
        k += 1;
    }
    false
}

/// What survives a well-ordered stream is still well ordered, and never
/// runs past the last line seen.
proof fn lemma_uncovered_prefix_wf(tokens: Seq<Token>, ms: Seq<Match>, i: int)
    requires
        token::wf_tokens(tokens),
        0 <= i <= tokens.len(),
    ensures
        token::wf_tokens(uncovered_prefix(tokens, ms, i)),
        i > 0 ==> forall|x: int|
            0 <= x < uncovered_prefix(tokens, ms, i).len() ==> (#[trigger] uncovered_prefix(
                tokens,
                ms,
                i,
            )[x]).line <= tokens[i - 1].line,
    decreases i,
{
    if i > 0 {
        lemma_uncovered_prefix_wf(tokens, ms, i - 1);
        let prev = uncovered_prefix(tokens, ms, i - 1);
        let cur = uncovered_prefix(tokens, ms, i);
        assert forall|x: int| 0 <= x < cur.len() implies (#[trigger] cur[x]).line <= tokens[i
            - 1].line by {
            if x < prev.len() {
                assert(cur[x] == prev[x]);
                if i - 1 > 0 {
                    assert(prev[x].line <= tokens[i - 2].line);
                    assert(tokens[i - 2].line <= tokens[i - 1].line);
                }
            } else {
                assert(cur[x] == tokens[i - 1]);
            }
        }
        assert forall|a: int, b: int| 0 <= a <= b < cur.len() implies (#[trigger] cur[a]).line <= (
        #[trigger] cur[b]).line by {
            if b < prev.len() {
                assert(cur[a] == prev[a]);
                assert(cur[b] == prev[b]);
            } else if a < prev.len() {
                assert(cur[a] == prev[a]);
                assert(cur[b] == tokens[i - 1]);
                if i - 1 > 0 {
                    assert(prev[a].line <= tokens[i - 2].line);
                    assert(tokens[i - 2].line <= tokens[i - 1].line);
                }
            }
        }
    }
}

/// Drop every token that one of the matches against the template covers:
/// what remains is the submission's own text, in original order.
pub fn remove_template_spans(tokens: Vec<Token>, ms: &Vec<Match>) -> (r: Vec<Token>)
    ensures
        r@ == remove_spans_spec(tokens@, ms@),
        token::wf_tokens(tokens@) ==> token::wf_tokens(r@),
{
    proof {
        if token::wf_tokens(tokens@) {
            lemma_uncovered_prefix_wf(tokens@, ms@, tokens@.len() as int);
        }
    }
    let ghost orig = tokens@;
    let mut rest = tokens;
    let total = rest.len();
    let mut out: Vec<Token> = Vec::new();
    let mut i: usize = 0;
    while rest.len() > 0
        invariant
            orig.len() == total,
            i <= orig.len(),
            rest@ == orig.skip(i as int),
            out@ == uncovered_prefix(orig, ms@, i as int),
        decreases rest@.len(),
    {
        let t = rest.remove(0);
        proof {
            assert(orig.skip(i as int)[0] == orig[i as int]);
            assert(rest@ =~= orig.skip(i as int + 1));
        }
        if !is_covered(ms, i) {
            out.push(t);
        }
        i += 1;
        proof {
            assert(out@ =~= uncovered_prefix(orig, ms@, i as int));
        }
    }
    proof {
        assert(i == orig.len());
    }
    out
}

/// Whether matched tokens exceed the similarity threshold
/// `numerator / denominator` of the whole stream.
pub fn exceeds_threshold(match_count: usize, total: usize, numerator: u64, denominator: u64) -> (r:
    bool)
    requires
        match_count <= u32::MAX,
        total <= u32::MAX,
        numerator <= u32::MAX,
        denominator <= u32::MAX,
    ensures
        r == (match_count * denominator > total * numerator),
{
    proof {
        assert((match_count as u64) * denominator <= u64::MAX && (total as u64) * numerator
            <= u64::MAX) by (nonlinear_arith)
            requires
                match_count <= u32::MAX,
                total <= u32::MAX,
                numerator <= u32::MAX,
                denominator <= u32::MAX,
        ;
    }
    (match_count as u64) * denominator > (total as u64) * numerator
}

} // verus!
