//! The fuzzy match-and-rank engine: query tokenization, maximum-scoring
//! subsequence placement of each token, candidate scoring with frequency and
//! exact/prefix bonuses, and the deterministic sort of the results.

use vstd::prelude::*;

use crate::text::{is_space_char, is_space, is_upper_char, is_ascii_upper, lower_seq, to_lower, chars_of};

verus! {

/// Longest token the backtracking placement search accepts; queries holding a
/// longer token match no candidate, which bounds the search on adversarial
/// input.
pub const MAX_TOKEN_LEN: usize = 64;

/// The views of a vector of character vectors.
pub open spec fn views_of(ts: Seq<Vec<char>>) -> Seq<Seq<char>> {
    ts.map_values(|t: Vec<char>| t@)
}

// ---------------------------------------------------------------------------
// Query tokenization
// ---------------------------------------------------------------------------

/// The whitespace-split tokens of `q[i..]`, with `cur` the partial token read
/// so far: the accumulator form mirrors a single left-to-right scan.
pub open spec fn split_ws_acc(q: Seq<char>, i: int, cur: Seq<char>) -> Seq<Seq<char>>
    decreases q.len() - i,
{
    if i < 0 || i >= q.len() {
        if cur.len() == 0 {
            seq![]
        } else {
            seq![cur]
        }
    } else if is_space_char(q[i]) {
        if cur.len() == 0 {
            split_ws_acc(q, i + 1, seq![])
        } else {
            seq![cur] + split_ws_acc(q, i + 1, seq![])
        }
    } else {
        split_ws_acc(q, i + 1, cur.push(q[i]))
    }
}

/// The whitespace-split tokens of a query.
pub open spec fn query_tokens(q: Seq<char>) -> Seq<Seq<char>> {
    split_ws_acc(q, 0, seq![])
}

/// Splits a query into its whitespace-separated tokens.
pub fn split_whitespace(q: &Vec<char>) -> (r: Vec<Vec<char>>)
    ensures
        views_of(r@) == query_tokens(q@),
{
    let mut r: Vec<Vec<char>> = Vec::new();
    let mut cur: Vec<char> = Vec::new();
    let mut i: usize = 0;
    proof {
        assert(views_of(r@) =~= Seq::<Seq<char>>::empty());
        assert(Seq::<Seq<char>>::empty() + split_ws_acc(q@, 0, cur@) =~= split_ws_acc(
            q@,
            0,
            cur@,
        ));
        assert(cur@ =~= Seq::<char>::empty());
    }
    while i < q.len()
        invariant
            i <= q@.len(),
            views_of(r@) + split_ws_acc(q@, i as int, cur@) == query_tokens(q@),
        decreases q@.len() - i,
    {
        let c = q[i];
        if is_space(c) {
            if cur.len() > 0 {
                proof {
                    let e = Seq::<char>::empty();
                    assert(split_ws_acc(q@, i as int, cur@) == seq![cur@] + split_ws_acc(
                        q@,
                        i + 1,
                        e,
                    ));
                    assert(views_of(r@.push(cur)) =~= views_of(r@).push(cur@));
                    assert(views_of(r@).push(cur@) + split_ws_acc(q@, i + 1, e) =~= views_of(r@)
                        + (seq![cur@] + split_ws_acc(q@, i + 1, e)));
                }
                r.push(cur);
                cur = Vec::new();
            } else {
                proof {
                    assert(cur@ =~= Seq::<char>::empty());
                    assert(split_ws_acc(q@, i as int, cur@) == split_ws_acc(
                        q@,
                        i + 1,
                        Seq::<char>::empty(),
                    ));
                }
            }
        } else {
            proof {
                assert(split_ws_acc(q@, i as int, cur@) == split_ws_acc(
                    q@,
                    i + 1,
                    cur@.push(q@[i as int]),
                ));
            }
            cur.push(c);
        }
        i = i + 1;
    }
    if cur.len() > 0 {
        proof {
            assert(split_ws_acc(q@, i as int, cur@) == seq![cur@]);
            assert(views_of(r@.push(cur)) =~= views_of(r@).push(cur@));
            assert(views_of(r@).push(cur@) =~= views_of(r@) + seq![cur@]);
        }
        r.push(cur);
    } else {
        proof {
            assert(cur@ =~= Seq::<char>::empty());
            assert(split_ws_acc(q@, i as int, cur@) =~= Seq::<Seq<char>>::empty());
            assert(views_of(r@) + Seq::<Seq<char>>::empty() =~= views_of(r@));
        }
    }
    r
}

/// The first `k` tokens rejoined with single spaces.
pub open spec fn join_upto(ts: Seq<Seq<char>>, k: int) -> Seq<char>
    decreases k,
{
    if k <= 0 || k > ts.len() {
        seq![]
    } else if k == 1 {
        ts[0]
    } else {
        join_upto(ts, k - 1) + seq![' '] + ts[k - 1]
    }
}

/// Tokens rejoined with single spaces: the whitespace-normalized query.
pub open spec fn join_tokens(ts: Seq<Seq<char>>) -> Seq<char> {
    join_upto(ts, ts.len() as int)
}

/// Rejoins tokens with single spaces.
pub fn join_with_spaces(ts: &Vec<Vec<char>>) -> (r: Vec<char>)
    ensures
        r@ == join_tokens(views_of(ts@)),
{
    let ghost tss = views_of(ts@);
    let mut r: Vec<char> = Vec::new();
    let mut k: usize = 0;
    proof {
        assert(r@ =~= join_upto(tss, 0));
    }
    while k < ts.len()
        invariant
            k <= ts@.len(),
            tss == views_of(ts@),
            r@ == join_upto(tss, k as int),
        decreases ts@.len() - k,
    {
        if k > 0 {
            r.push(' ');
        }
        let t = &ts[k];
        let mut j: usize = 0;
        while j < t.len()
            invariant
                j <= t@.len(),
                t@ == tss[k as int],
                0 <= k < tss.len(),
                k > 0 ==> r@ == join_upto(tss, k as int) + seq![' '] + t@.subrange(0, j as int),
                k == 0 ==> r@ == t@.subrange(0, j as int),
            decreases t@.len() - j,
        {
            r.push(t[j]);
            j = j + 1;
            proof {
                if k > 0 {
                    assert(r@ =~= join_upto(tss, k as int) + seq![' '] + t@.subrange(0, j as int));
                } else {
                    assert(r@ =~= t@.subrange(0, j as int));
                }
            }
        }
        proof {
            assert(t@.subrange(0, t@.len() as int) =~= t@);
            if k > 0 {
                assert(join_upto(tss, k as int) + seq![' '] + tss[k as int] == join_upto(
                    tss,
                    k as int + 1,
                ));
            } else {
                assert(join_upto(tss, 1) == tss[0]);
            }
        }
        k = k + 1;
    }
    r
}

// ---------------------------------------------------------------------------
// Token placement search
// ---------------------------------------------------------------------------

/// Score of matching one token character at position `pos` of `text`: 1 base,
/// +10 on a word boundary (segment start, or after a space/hyphen/underscore),
/// +5 when contiguous with the previously matched character of the same token.
pub open spec fn char_score(text: Seq<char>, start: int, pos: int, prev: Option<usize>) -> int {
    1 + (if pos == start || (pos > 0 && (text[pos - 1] == ' ' || text[pos - 1] == '-' || text[
        pos - 1] == '_')) {
        10int
    } else {
        0int
    }) + (if prev matches Some(p) && pos == p + 1 {
        5int
    } else {
        0int
    })
}

/// `idx` places `token` as a strictly increasing subsequence of `text`, all
/// positions at or beyond `lo`.
pub open spec fn is_placement(text: Seq<char>, token: Seq<char>, idx: Seq<usize>, lo: int) -> bool {
    &&& idx.len() == token.len()
    &&& forall|i: int| 0 <= i < idx.len() ==> lo <= #[trigger] idx[i] < text.len()
    &&& forall|i: int| 0 < i < idx.len() ==> idx[i - 1] < #[trigger] idx[i]
    &&& forall|i: int| 0 <= i < idx.len() ==> text[#[trigger] idx[i] as int] == token[i]
}

/// Total score of a placement, with `prev` the position matched just before
/// its first element (`None` at a token start).
pub open spec fn placement_score(
    text: Seq<char>,
    start: int,
    idx: Seq<usize>,
    prev: Option<usize>,
) -> int
    decreases idx.len(),
{
    if idx.len() == 0 {
        0
    } else {
        char_score(text, start, idx[0] as int, prev) + placement_score(
            text,
            start,
            idx.drop_first(),
            Some(idx[0]),
        )
    }
}

/// The best placement of `token` in `text[lo..]`: maximum score, and among
/// equal scores the leftmost placement found by depth-first search in position
/// order. `start` is the segment start (for the boundary bonus); `prev` is the
/// position matched just before this token fragment.
pub open spec fn best_match(
    text: Seq<char>,
    token: Seq<char>,
    start: int,
    lo: int,
    prev: Option<usize>,
) -> Option<(int, Seq<usize>)>
    decreases text.len() - lo,
{
    if token.len() == 0 {
        Some((0, Seq::empty()))
    } else if lo < 0 || lo + token.len() > text.len() {
        None
    } else {
        let skip = best_match(text, token, start, lo + 1, prev);
        if text[lo] == token[0] {
            match best_match(text, token.drop_first(), start, lo + 1, Some(lo as usize)) {
                None => skip,
                Some((s, idx)) => {
                    let cand_score = s + char_score(text, start, lo, prev);
                    let cand = Some((cand_score, seq![lo as usize] + idx));
                    match skip {
                        None => cand,
                        Some((s2, idx2)) => if s2 > cand_score {
                            skip
                        } else {
                            cand
                        },
                    }
                },
            }
        } else {
            skip
        }
    }
}

/// What `best_match` returns, when it returns anything, is a placement whose
/// score it reports, and every character contributes between 1 and 16.
#[verifier::rlimit(100)]
pub proof fn lemma_best_match_props(
    text: Seq<char>,
    token: Seq<char>,
    start: int,
    lo: int,
    prev: Option<usize>,
)
    requires
        text.len() <= usize::MAX,
        best_match(text, token, start, lo, prev) is Some,
    ensures
        ({
            let (s, idx) = best_match(text, token, start, lo, prev)->0;
            &&& is_placement(text, token, idx, lo)
            &&& s == placement_score(text, start, idx, prev)
            &&& token.len() <= s <= 16 * token.len()
        }),
    decreases text.len() - lo,
{
    let (s, idx) = best_match(text, token, start, lo, prev)->0;
    if token.len() == 0 {
        assert(idx =~= Seq::<usize>::empty());
    } else {
        assert(0 <= lo && lo + token.len() <= text.len());
        let skip = best_match(text, token, start, lo + 1, prev);
        if skip is Some {
            lemma_best_match_props(text, token, start, lo + 1, prev);
        }
        if text[lo] == token[0] {
            let deeper = best_match(text, token.drop_first(), start, lo + 1, Some(lo as usize));
            if deeper is Some {
                let (ds, didx) = deeper->0;
                lemma_best_match_props(text, token.drop_first(), start, lo + 1, Some(lo as usize));
                let cand_idx = seq![lo as usize] + didx;
                assert(cand_idx.drop_first() =~= didx);
                assert forall|i: int| 0 <= i < cand_idx.len() implies lo <= #[trigger] cand_idx[i]
                    < text.len() by {
                    if i > 0 {
                        assert(cand_idx[i] == didx[i - 1]);
                        assert(lo + 1 <= didx[i - 1] < text.len());
                    }
                }
                assert forall|i: int| 0 < i < cand_idx.len() implies #[trigger] cand_idx[i - 1]
                    < cand_idx[i] by {
                    if i == 1 {
                        assert(cand_idx[0] == lo as usize);
                        assert(cand_idx[1] == didx[0]);
                        assert(lo + 1 <= didx[0]);
                    } else {
                        assert(cand_idx[i - 1] == didx[i - 2]);
                        assert(cand_idx[i] == didx[i - 1]);
                        assert(didx[i - 2] < didx[i - 1]);
                    }
                }
                assert forall|i: int| 0 <= i < cand_idx.len() implies text[(
                #[trigger] cand_idx[i]) as int] == token[i] by {
                    if i > 0 {
                        assert(cand_idx[i] == didx[i - 1]);
                        assert(text[didx[i - 1] as int] == token.drop_first()[i - 1]);
                        assert(token.drop_first()[i - 1] == token[i]);
                    }
                }
                assert(is_placement(text, token, cand_idx, lo));
                assert(1 <= char_score(text, start, lo, prev) <= 16);
            }
        }
    }
}

/// Executable form of `best_match`, searching for `token[token_idx..]` in
/// `text[lo..]`.
fn best_match_at(
    text: &Vec<char>,
    token: &Vec<char>,
    start: usize,
    lo: usize,
    token_idx: usize,
    prev: Option<usize>,
) -> (r: Option<(i64, Vec<usize>)>)
    requires
        token_idx <= token@.len(),
        token@.len() <= MAX_TOKEN_LEN,
        lo <= text@.len(),
    ensures
        ({
            let m = best_match(text@, token@.skip(token_idx as int), start as int, lo as int, prev);
            match r {
                Some((s, idx)) => m matches Some((ms, midx)) && s as int == ms && idx@ == midx,
                None => m is None,
            }
        }),
    decreases token@.len() - token_idx, text@.len() - lo,
{
    let ghost tok = token@.skip(token_idx as int);
    if token_idx == token.len() {
        proof {
            assert(tok.len() == 0);
        }
        return Some((0, Vec::new()));
    }
    if token.len() - token_idx > text.len() - lo {
        return None;
    }
    proof {
        assert(tok.len() == token@.len() - token_idx);
        assert(tok[0] == token@[token_idx as int]);
        assert(tok.drop_first() =~= token@.skip(token_idx as int + 1));
    }
    let skip = best_match_at(text, token, start, lo + 1, token_idx, prev);
    if text[lo] == token[token_idx] {
        match best_match_at(text, token, start, lo + 1, token_idx + 1, Some(lo)) {
            None => skip,
            Some((s, idx)) => {
                proof {
                    lemma_best_match_props(
                        text@,
                        tok.drop_first(),
                        start as int,
                        lo as int + 1,
                        Some(lo),
                    );
                }
                let mut cs: i64 = 1;
                if lo == start || (lo > 0 && {
                    let p = text[lo - 1];
                    p == ' ' || p == '-' || p == '_'
                }) {
                    cs = cs + 10;
                }
                if let Some(p) = prev {
                    if p < usize::MAX && lo == p + 1 {
                        cs = cs + 5;
                    }
                }
                proof {
                    assert(cs as int == char_score(text@, start as int, lo as int, prev));
                }
                let cand_score = s + cs;
                let better = match &skip {
                    None => true,
                    Some((s2, _)) => !(*s2 > cand_score),
                };
                if better {
                    let mut v: Vec<usize> = Vec::new();
                    v.push(lo);
                    let mut idx = idx;
                    let ghost didx = idx@;
                    let mut t: usize = 0;
                    while t < idx.len()
                        invariant
                            t <= didx.len(),
                            idx@ == didx,
                            v@ == seq![lo].add(didx.subrange(0, t as int)),
                        decreases didx.len() - t,
                    {
                        v.push(idx[t]);
                        t = t + 1;
                        proof {
                            assert(v@ =~= seq![lo].add(didx.subrange(0, t as int)));
                        }
                    }
                    proof {
                        assert(didx.subrange(0, didx.len() as int) =~= didx);
                    }
                    Some((cand_score, v))
                } else {
                    skip
                }
            },
        }
    } else {
        skip
    }
}


/// Positions of a placement grow at least one per step.
proof fn lemma_placement_spread(text: Seq<char>, token: Seq<char>, idx: Seq<usize>, lo: int, j: int)
    requires
        is_placement(text, token, idx, lo),
        0 <= j < idx.len(),
    ensures
        idx[0] + j <= idx[j],
    decreases j,
{
    if j > 0 {
        lemma_placement_spread(text, token, idx, lo, j - 1);
        assert(idx[j - 1] < idx[j]);
    }
}

/// The search is complete and optimal: wherever a placement exists it returns
/// one, and no placement scores more than the one it returns.
pub proof fn lemma_best_match_maximal(
    text: Seq<char>,
    token: Seq<char>,
    start: int,
    lo: int,
    prev: Option<usize>,
    idx: Seq<usize>,
)
    requires
        text.len() <= usize::MAX,
        0 <= lo,
        is_placement(text, token, idx, lo),
    ensures
        best_match(text, token, start, lo, prev) is Some,
        best_match(text, token, start, lo, prev) matches Some((bs, _bidx))
            && placement_score(text, start, idx, prev) <= bs,
    decreases token.len(), text.len() - lo,
{
    if token.len() == 0 {
        assert(idx.len() == 0);
    } else {
        assert(idx.len() == token.len() >= 1);
        lemma_placement_spread(text, token, idx, lo, idx.len() - 1);
        assert(idx[0] + token.len() - 1 <= idx[idx.len() - 1] < text.len());
        assert(lo + token.len() <= text.len());
        let r = best_match(text, token, start, lo, prev);
        let skip = best_match(text, token, start, lo + 1, prev);
        if lo < idx[0] {
            assert forall|a: int| 0 <= a < idx.len() implies lo + 1 <= #[trigger] idx[a]
                < text.len() by {
                lemma_placement_spread(text, token, idx, lo, a);
            }
            assert(is_placement(text, token, idx, lo + 1));
            lemma_best_match_maximal(text, token, start, lo + 1, prev, idx);
            let (ss, _sidx) = skip->0;
            assert(placement_score(text, start, idx, prev) <= ss);
            // whatever branch is taken, the result is at least the skip score
            if text[lo] == token[0] {
                let deeper = best_match(text, token.drop_first(), start, lo + 1, Some(lo as usize));
                if deeper is Some {
                    let (rs, _ridx) = r->0;
                    assert(r is Some && ss <= rs);
                } else {
                    assert(r == skip);
                }
            } else {
                assert(r == skip);
            }
        } else {
            assert(idx[0] == lo);
            assert(text[lo] == token[0]);
            let didx = idx.drop_first();
            assert forall|a: int| 0 <= a < didx.len() implies lo + 1 <= #[trigger] didx[a]
                < text.len() by {
                assert(didx[a] == idx[a + 1]);
                lemma_placement_spread(text, token, idx, lo, a + 1);
            }
            assert forall|a: int| 0 < a < didx.len() implies #[trigger] didx[a - 1] < didx[a] by {
                assert(didx[a - 1] == idx[a] && didx[a] == idx[a + 1]);
                assert(idx[a] < idx[a + 1]);
            }
            assert forall|a: int| 0 <= a < didx.len() implies text[(#[trigger] didx[a]) as int]
                == token.drop_first()[a] by {
                assert(didx[a] == idx[a + 1]);
                assert(text[idx[a + 1] as int] == token[a + 1]);
            }
            assert(is_placement(text, token.drop_first(), didx, lo + 1));
            lemma_best_match_maximal(
                text,
                token.drop_first(),
                start,
                lo + 1,
                Some(lo as usize),
                didx,
            );
            let deeper = best_match(text, token.drop_first(), start, lo + 1, Some(lo as usize));
            let (ds, _didx2) = deeper->0;
            assert(placement_score(text, start, didx, Some(lo as usize)) <= ds);
            assert(placement_score(text, start, idx, prev) == char_score(text, start, lo, prev)
                + placement_score(text, start, didx, Some(idx[0])));
            let cand_score = ds + char_score(text, start, lo, prev);
            let (rs, _ridx) = r->0;
            match skip {
                None => {
                    assert(rs == cand_score);
                },
                Some((s2, _)) => {
                    assert(rs == if s2 > cand_score {
                        s2
                    } else {
                        cand_score
                    });
                },
            }
        }
    }
}

// ---------------------------------------------------------------------------
// Fragmented (multi-token) matching
// ---------------------------------------------------------------------------

/// Total character count of a list of tokens.
pub open spec fn total_len(ts: Seq<Seq<char>>) -> nat
    decreases ts.len(),
{
    if ts.len() == 0 {
        0
    } else {
        ts[0].len() + total_len(ts.drop_first())
    }
}

proof fn lemma_total_len_skip(ts: Seq<Seq<char>>, k: int)
    requires
        0 <= k < ts.len(),
    ensures
        total_len(ts.skip(k)) == ts[k].len() + total_len(ts.skip(k + 1)),
{
    assert(ts.skip(k)[0] == ts[k]);
    assert(ts.skip(k).drop_first() =~= ts.skip(k + 1));
}

/// The split of a query never holds more characters than the query itself.
proof fn lemma_split_total_len(q: Seq<char>, i: int, cur: Seq<char>)
    requires
        0 <= i <= q.len(),
    ensures
        total_len(split_ws_acc(q, i, cur)) <= cur.len() + q.len() - i,
    decreases q.len() - i,
{
    if i >= q.len() {
        if cur.len() != 0 {
            assert(split_ws_acc(q, i, cur) =~= seq![cur]);
            assert(seq![cur].drop_first() =~= Seq::<Seq<char>>::empty());
            assert(total_len(seq![cur]) == cur.len() + total_len(Seq::<Seq<char>>::empty()));
        }
    } else if is_space_char(q[i]) {
        lemma_split_total_len(q, i + 1, seq![]);
        if cur.len() != 0 {
            let rest = split_ws_acc(q, i + 1, seq![]);
            assert((seq![cur] + rest).drop_first() =~= rest);
            assert((seq![cur] + rest)[0] == cur);
            assert(total_len(seq![cur] + rest) == cur.len() + total_len(rest));
            assert(total_len(rest) <= q.len() - (i + 1));
        } else {
            assert(total_len(split_ws_acc(q, i + 1, seq![])) <= q.len() - (i + 1));
        }
    } else {
        lemma_split_total_len(q, i + 1, cur.push(q[i]));
        assert(total_len(split_ws_acc(q, i + 1, cur.push(q[i]))) <= cur.push(q[i]).len() + q.len()
            - (i + 1));
        assert(cur.push(q[i]).len() == cur.len() + 1);
    }
}

/// All tokens of a query together are no longer than the query.
pub proof fn lemma_query_tokens_len(q: Seq<char>)
    ensures
        total_len(query_tokens(q)) <= q.len(),
{
    lemma_split_total_len(q, 0, seq![]);
}

/// Best non-overlapping, order-preserving placement of each token in turn:
/// token `i`'s placement begins after the end of token `i-1`'s. `None` when
/// some token has no placement.
pub open spec fn frag_match(text: Seq<char>, tokens: Seq<Seq<char>>, start: int) -> Option<
    (int, Seq<usize>),
>
    decreases tokens.len(),
{
    if tokens.len() == 0 {
        Some((0, Seq::empty()))
    } else {
        match best_match(text, tokens[0], start, start, None) {
            None => None,
            Some((s, idx)) => {
                let next = if idx.len() == 0 {
                    start
                } else {
                    idx.last() + 1
                };
                match frag_match(text, tokens.drop_first(), next) {
                    None => None,
                    Some((s2, idx2)) => Some((s + s2, idx + idx2)),
                }
            },
        }
    }
}

/// A successful fragmented match places exactly as many characters as the
/// tokens hold, scores between one and sixteen points for each, and its
/// indices are strictly increasing positions within the text.
pub proof fn lemma_frag_match_props(text: Seq<char>, tokens: Seq<Seq<char>>, start: int)
    requires
        text.len() <= usize::MAX,
        frag_match(text, tokens, start) is Some,
    ensures
        ({
            let (s, idx) = frag_match(text, tokens, start)->0;
            &&& idx.len() == total_len(tokens)
            &&& total_len(tokens) <= s <= 16 * total_len(tokens)
            &&& forall|i: int| 0 <= i < idx.len() ==> start <= #[trigger] idx[i] < text.len()
            &&& forall|i: int| 0 < i < idx.len() ==> idx[i - 1] < #[trigger] idx[i]
        }),
    decreases tokens.len(),
{
    if tokens.len() == 0 {
    } else {
        let (s, idx) = best_match(text, tokens[0], start, start, None)->0;
        lemma_best_match_props(text, tokens[0], start, start, None);
        let next = if idx.len() == 0 {
            start
        } else {
            idx.last() + 1
        };
        lemma_frag_match_props(text, tokens.drop_first(), next);
        let (s2, idx2) = frag_match(text, tokens.drop_first(), next)->0;
        let all = idx + idx2;
        assert(total_len(tokens) == tokens[0].len() + total_len(tokens.drop_first()));
        assert forall|i: int| 0 <= i < all.len() implies start <= #[trigger] all[i]
            < text.len() by {
            if i < idx.len() {
                assert(all[i] == idx[i]);
            } else {
                assert(all[i] == idx2[i - idx.len()]);
                assert(next <= idx2[i - idx.len()]);
            }
        }
        assert forall|i: int| 0 < i < all.len() implies #[trigger] all[i - 1] < all[i] by {
            if i < idx.len() {
                assert(all[i - 1] == idx[i - 1] && all[i] == idx[i]);
            } else if i == idx.len() {
                if idx.len() > 0 {
                    assert(all[i - 1] == idx[idx.len() - 1]);
                    assert(idx.last() == idx[idx.len() - 1]);
                    assert(all[i] == idx2[0]);
                    assert(next <= idx2[0]);
                }
            } else {
                let j = i - idx.len();
                assert(all[i - 1] == idx2[j - 1] && all[i] == idx2[j]);
                assert(idx2[j - 1] < idx2[j]);
            }
        }
    }
}

/// Matches every token of `tokens`, in order, as non-overlapping subsequences
/// of `text`; returns the summed score and all match positions.
pub fn match_fragmented(text: &Vec<char>, tokens: &Vec<Vec<char>>) -> (r: Option<(i64, Vec<usize>)>)
    requires
        forall|k: int| 0 <= k < tokens@.len() ==> (#[trigger] tokens@[k])@.len() <= MAX_TOKEN_LEN,
        16 * total_len(views_of(tokens@)) <= i64::MAX,
    ensures
        ({
            let m = frag_match(text@, views_of(tokens@), 0);
            match r {
                Some((s, idx)) => m matches Some((ms, midx)) && s as int == ms && idx@ == midx,
                None => m is None,
            }
        }),
{
    let ghost tv = views_of(tokens@);
    let mut total: i64 = 0;
    let mut all: Vec<usize> = Vec::new();
    let mut search_start: usize = 0;
    let mut k: usize = 0;
    let n = text.len();
    proof {
        assert(tv.skip(0) =~= tv);
        let fm = frag_match(text@, tv, 0);
        if fm is Some {
            let (s2, idx2) = fm->0;
            assert(Seq::<usize>::empty() + idx2 =~= idx2);
        }
    }
    while k < tokens.len()
        invariant
            k <= tokens@.len(),
            tv == views_of(tokens@),
            n == text@.len(),
            search_start <= n,
            forall|kk: int| 0 <= kk < tokens@.len() ==> (#[trigger] tokens@[kk])@.len()
                <= MAX_TOKEN_LEN,
            16 * total_len(tv) <= i64::MAX,
            0 <= total <= 16 * (total_len(tv) - total_len(tv.skip(k as int))),
            frag_match(text@, tv, 0) == (match frag_match(text@, tv.skip(k as int), search_start as int) {
                None => None::<(int, Seq<usize>)>,
                Some((s2, idx2)) => Some((total + s2, all@ + idx2)),
            }),
        decreases tokens@.len() - k,
    {
        proof {
            assert(tv.skip(k as int)[0] == tv[k as int]);
            assert(tv.skip(k as int).drop_first() =~= tv.skip(k as int + 1));
            lemma_total_len_skip(tv, k as int);
            lemma_total_len_nonneg(tv.skip(k as int + 1));
        }
        let t = &tokens[k];
        match best_match_at(text, t, search_start, search_start, 0, None) {
            None => {
                proof {
                    assert(t@.skip(0) =~= t@);
                }
                return None;
            },
            Some((s, mut idx)) => {
                let ghost old_start = search_start as int;
                proof {
                    assert(t@.skip(0) =~= t@);
                    lemma_best_match_props(text@, t@, old_start, old_start, None);
                }
                if idx.len() > 0 {
                    let last = idx[idx.len() - 1];
                    proof {
                        assert(idx@.last() == idx@[idx@.len() - 1]);
                    }
                    search_start = last + 1;
                }
                total = total + s;
                let ghost old_all = all@;
                all.append(&mut idx);
                k = k + 1;
                proof {
                    let (ms, midx) = best_match(text@, tv[k - 1], old_start, old_start, None)->0;
                    assert(search_start as int == (if midx.len() == 0 {
                        old_start
                    } else {
                        midx.last() + 1
                    }));
                    let fm = frag_match(text@, tv.skip(k as int), search_start as int);
                    if fm is Some {
                        let (s2, idx2) = fm->0;
                        assert((old_all + midx) + idx2 =~= old_all + (midx + idx2));
                    }
                }
            },
        }
    }
    proof {
        assert(tv.skip(k as int) =~= Seq::<Seq<char>>::empty());
        assert(all@ + Seq::<usize>::empty() =~= all@);
    }
    Some((total, all))
}

/// Token lengths sum to a non-negative count.
proof fn lemma_total_len_nonneg(ts: Seq<Seq<char>>)
    ensures
        total_len(ts) >= 0,
{
}

// ---------------------------------------------------------------------------
// Candidate scoring
// ---------------------------------------------------------------------------

/// Smart case: matching is case-sensitive exactly when the raw query holds an
/// ASCII uppercase letter.
pub open spec fn spec_has_upper(q: Seq<char>) -> bool {
    exists|i: int| 0 <= i < q.len() && is_upper_char(q[i])
}

/// Tests whether the query holds an ASCII uppercase letter.
pub fn has_upper(q: &Vec<char>) -> (r: bool)
    ensures
        r == spec_has_upper(q@),
{
    let mut i: usize = 0;
    while i < q.len()
        invariant
            i <= q@.len(),
            forall|j: int| 0 <= j < i ==> !is_upper_char(q@[j]),
        decreases q@.len() - i,
    {
        if is_ascii_upper(q[i]) {
            return true;
        }
        i = i + 1;
    }
    false
}

/// The sequence as the active case mode sees it: unchanged when
/// case-sensitive, ASCII-lowercased otherwise.
pub open spec fn fold_case(s: Seq<char>, cs: bool) -> Seq<char> {
    if cs {
        s
    } else {
        lower_seq(s)
    }
}

/// Folds a character vector for the active case mode.
pub fn fold_chars(v: &Vec<char>, cs: bool) -> (r: Vec<char>)
    ensures
        r@ == fold_case(v@, cs),
{
    let mut r: Vec<char> = Vec::new();
    let mut i: usize = 0;
    while i < v.len()
        invariant
            i <= v@.len(),
            r@ == fold_case(v@, cs).subrange(0, i as int),
        decreases v@.len() - i,
    {
        if cs {
            r.push(v[i]);
        } else {
            r.push(to_lower(v[i]));
        }
        i = i + 1;
        proof {
            assert(r@ =~= fold_case(v@, cs).subrange(0, i as int));
        }
    }
    proof {
        assert(fold_case(v@, cs).subrange(0, v@.len() as int) =~= fold_case(v@, cs));
    }
    r
}

/// Character-for-character equality.
pub fn chars_eq(a: &Vec<char>, b: &Vec<char>) -> (r: bool)
    ensures
        r == (a@ == b@),
{
    if a.len() != b.len() {
        proof {
            assert(a@ != b@);
        }
        return false;
    }
    let mut i: usize = 0;
    while i < a.len()
        invariant
            a@.len() == b@.len(),
            i <= a@.len(),
            forall|j: int| 0 <= j < i ==> a@[j] == b@[j],
        decreases a@.len() - i,
    {
        if a[i] != b[i] {
            return false;
        }
        i = i + 1;
    }
    proof {
        assert(a@ =~= b@);
    }
    true
}

/// Tests whether `p` is a prefix of `s`.
pub fn chars_prefix(s: &Vec<char>, p: &Vec<char>) -> (r: bool)
    ensures
        r == p@.is_prefix_of(s@),
{
    if p.len() > s.len() {
        return false;
    }
    let mut i: usize = 0;
    while i < p.len()
        invariant
            p@.len() <= s@.len(),
            i <= p@.len(),
            forall|j: int| 0 <= j < i ==> p@[j] == s@[j],
        decreases p@.len() - i,
    {
        if p[i] != s[i] {
            return false;
        }
        i = i + 1;
    }
    proof {
        assert(p@ =~= s@.subrange(0, p@.len() as int));
    }
    true
}

/// All tokens are within the accepted length bound.
pub open spec fn tokens_ok(tokens: Seq<Seq<char>>) -> bool {
    forall|k: int| 0 <= k < tokens.len() ==> (#[trigger] tokens[k]).len() <= MAX_TOKEN_LEN
}

/// The exact-match bonus.
pub open spec fn exact_bonus(name: Seq<char>, nq: Seq<char>, cs: bool) -> int {
    if fold_case(name, cs) == fold_case(nq, cs) {
        1_000_000
    } else {
        0
    }
}

/// The prefix bonus.
pub open spec fn prefix_bonus(name: Seq<char>, nq: Seq<char>, cs: bool) -> int {
    if fold_case(nq, cs).is_prefix_of(fold_case(name, cs)) {
        100_000
    } else {
        0
    }
}

/// How one candidate fares against a query: `None` when it is excluded,
/// otherwise its final score (token scores, plus 100 for each recorded use,
/// plus the exact and prefix bonuses against the whitespace-normalized query
/// under the active case mode) and its highlight positions. A query with no
/// tokens keeps every candidate, scored by frequency alone.
pub open spec fn candidate_eval(name: Seq<char>, q: Seq<char>, freq: u32) -> Option<
    (int, Seq<usize>),
> {
    let tokens = query_tokens(q);
    let cs = spec_has_upper(q);
    let nq = join_tokens(tokens);
    if tokens.len() == 0 {
        Some((freq * 100, Seq::empty()))
    } else if !tokens_ok(tokens) {
        None
    } else {
        match frag_match(fold_case(name, cs), tokens.map_values(|t: Seq<char>| fold_case(t, cs)), 0) {
            None => None,
            Some((s, idx)) => Some(
                (s + freq * 100 + exact_bonus(name, nq, cs) + prefix_bonus(name, nq, cs), idx),
            ),
        }
    }
}

/// One row of the ranked output.
pub struct FilteredApp {
    pub name: String,
    pub score: i64,
    pub match_indices: Vec<usize>,
}

/// The mathematical content of one result row.
pub struct ResultView {
    pub name: Seq<char>,
    pub score: int,
    pub idx: Seq<usize>,
}

/// The view of one result row.
pub open spec fn view_of_fa(f: FilteredApp) -> ResultView {
    ResultView { name: f.name@, score: f.score as int, idx: f.match_indices@ }
}

/// The views of a whole result list.
pub open spec fn fa_views(s: Seq<FilteredApp>) -> Seq<ResultView> {
    s.map_values(|f: FilteredApp| view_of_fa(f))
}

/// The views of a catalog of names.
pub open spec fn names_of(apps: Seq<String>) -> Seq<Seq<char>> {
    apps.map_values(|s: String| s@)
}

/// The rows the engine owes for a catalog, in catalog order, before sorting.
pub open spec fn eval_views(apps: Seq<Seq<char>>, q: Seq<char>, fm: Map<Seq<char>, u32>) -> Seq<
    ResultView,
>
    decreases apps.len(),
{
    if apps.len() == 0 {
        Seq::empty()
    } else {
        let rest = eval_views(apps.drop_first(), q, fm);
        match candidate_eval(apps[0], q, crate::frequency::freq_get(fm, apps[0])) {
            None => rest,
            Some((s, idx)) => seq![ResultView { name: apps[0], score: s, idx }] + rest,
        }
    }
}

// ---------------------------------------------------------------------------
// Result ordering
// ---------------------------------------------------------------------------

/// The tie-break class of a byte: digits before lowercase before uppercase
/// before anything else.
pub open spec fn sort_class(b: u8) -> int {
    if 48 <= b <= 57 {
        0
    } else if 97 <= b <= 122 {
        1
    } else if 65 <= b <= 90 {
        2
    } else {
        3
    }
}

/// The class-then-value order on the bytes of result names.
pub open spec fn byte_lt(x: u8, y: u8) -> bool {
    sort_class(x) < sort_class(y) || (sort_class(x) == sort_class(y) && x < y)
}

/// Byte-class order of one byte: its class paired with its value.
pub fn sort_byte(b: u8) -> (r: (u8, u8))
    ensures
        r.0 as int == sort_class(b),
        r.1 == b,
{
    if 48 <= b && b <= 57 {
        (0, b)
    } else if 97 <= b && b <= 122 {
        (1, b)
    } else if 65 <= b && b <= 90 {
        (2, b)
    } else {
        (3, b)
    }
}

/// Lexicographic order over byte sequences under the class-then-value order.
pub open spec fn key_le(a: Seq<u8>, b: Seq<u8>) -> bool
    decreases a.len(),
{
    if a.len() == 0 {
        true
    } else if b.len() == 0 {
        false
    } else if a[0] == b[0] {
        key_le(a.drop_first(), b.drop_first())
    } else {
        byte_lt(a[0], b[0])
    }
}

/// The output order: descending score, ties broken by the byte-class order of
/// the names.
pub open spec fn result_le(a: ResultView, b: ResultView) -> bool {
    a.score > b.score || (a.score == b.score && key_le(
        vstd::utf8::encode_utf8(a.name),
        vstd::utf8::encode_utf8(b.name),
    ))
}

proof fn lemma_key_le_total(a: Seq<u8>, b: Seq<u8>)
    ensures
        key_le(a, b) || key_le(b, a),
    decreases a.len(),
{
    if a.len() == 0 || b.len() == 0 {
    } else if a[0] == b[0] {
        lemma_key_le_total(a.drop_first(), b.drop_first());
    }
}

proof fn lemma_key_le_trans(a: Seq<u8>, b: Seq<u8>, c: Seq<u8>)
    requires
        key_le(a, b),
        key_le(b, c),
    ensures
        key_le(a, c),
    decreases a.len(),
{
    if a.len() == 0 {
    } else if b.len() == 0 {
    } else if c.len() == 0 {
    } else {
        if a[0] == b[0] && b[0] == c[0] {
            lemma_key_le_trans(a.drop_first(), b.drop_first(), c.drop_first());
        }
    }
}

proof fn lemma_key_le_antisym(a: Seq<u8>, b: Seq<u8>)
    requires
        key_le(a, b),
        key_le(b, a),
    ensures
        a == b,
    decreases a.len(),
{
    if a.len() == 0 {
        assert(b.len() == 0);
        assert(a =~= b);
    } else {
        assert(b.len() > 0);
        assert(a[0] == b[0]);
        lemma_key_le_antisym(a.drop_first(), b.drop_first());
        assert(a =~= seq![a[0]] + a.drop_first());
        assert(b =~= seq![b[0]] + b.drop_first());
    }
}

/// The output order is a total order on result views.
pub proof fn lemma_result_le_total_ordering()
    ensures
        forall|a: ResultView, b: ResultView| #[trigger] result_le(a, b) || result_le(b, a),
        forall|a: ResultView, b: ResultView, c: ResultView|
            result_le(a, b) && #[trigger] result_le(b, c) ==> #[trigger] result_le(a, c),
{
    assert forall|a: ResultView, b: ResultView| #[trigger] result_le(a, b) || result_le(
        b,
        a,
    ) by {
        if a.score == b.score {
            lemma_key_le_total(
                vstd::utf8::encode_utf8(a.name),
                vstd::utf8::encode_utf8(b.name),
            );
        }
    }
    assert forall|a: ResultView, b: ResultView, c: ResultView|
        result_le(a, b) && #[trigger] result_le(b, c) implies #[trigger] result_le(a, c) by {
        if a.score == b.score && b.score == c.score {
            lemma_key_le_trans(
                vstd::utf8::encode_utf8(a.name),
                vstd::utf8::encode_utf8(b.name),
                vstd::utf8::encode_utf8(c.name),
            );
        }
    }
}

/// Compares two result rows in output order.
fn result_le_exec(a: &FilteredApp, b: &FilteredApp) -> (r: bool)
    ensures
        r == result_le(view_of_fa(*a), view_of_fa(*b)),
{
    if a.score > b.score {
        return true;
    }
    if a.score < b.score {
        return false;
    }
    let ab = a.name.as_str().as_bytes();
    let bb = b.name.as_str().as_bytes();
    let ghost av = vstd::utf8::encode_utf8(a.name@);
    let ghost bv = vstd::utf8::encode_utf8(b.name@);
    let mut i: usize = 0;
    proof {
        assert(av.skip(0) =~= av);
        assert(bv.skip(0) =~= bv);
    }
    loop
        invariant
            av == vstd::utf8::encode_utf8(a.name@),
            bv == vstd::utf8::encode_utf8(b.name@),
            ab@ == av,
            bb@ == bv,
            i <= av.len(),
            i <= bv.len(),
            forall|j: int| 0 <= j < i ==> av[j] == bv[j],
            key_le(av, bv) == key_le(av.skip(i as int), bv.skip(i as int)),
            view_of_fa(*a).score == view_of_fa(*b).score,
        decreases av.len() - i,
    {
        proof {
            if i < av.len() {
                assert(av.skip(i as int)[0] == av[i as int]);
                assert(av.skip(i as int).drop_first() =~= av.skip(i as int + 1));
            }
            if i < bv.len() {
                assert(bv.skip(i as int)[0] == bv[i as int]);
                assert(bv.skip(i as int).drop_first() =~= bv.skip(i as int + 1));
            }
        }
        if i == ab.len() {
            proof {
                assert(av.skip(i as int).len() == 0);
            }
            return true;
        }
        if i == bb.len() {
            proof {
                assert(bv.skip(i as int).len() == 0);
                assert(av.skip(i as int).len() > 0);
            }
            return false;
        }
        let x = ab[i];
        let y = bb[i];
        if x == y {
            i = i + 1;
        } else {
            let (cx, vx) = sort_byte(x);
            let (cy, vy) = sort_byte(y);
            let lt = cx < cy || (cx == cy && vx < vy);
            proof {
                assert(lt == byte_lt(x, y));
                assert(key_le(av.skip(i as int), bv.skip(i as int)) == byte_lt(x, y));
            }
            return lt;
        }
    }
}

proof fn lemma_to_multiset_seq_insert<A>(s: Seq<A>, i: int, x: A)
    requires
        0 <= i <= s.len(),
    ensures
        s.insert(i, x).to_multiset() =~= s.to_multiset().insert(x),
{
    broadcast use vstd::seq_lib::group_to_multiset_ensures;

    let si = s.insert(i, x);
    assert(si[i] == x);
    assert(si.remove(i) =~= s);
    assert(si.remove(i).to_multiset() =~= si.to_multiset().remove(x));
    assert(si.contains(x));
    assert(si.to_multiset().count(x) > 0);
    assert(si.to_multiset() =~= si.to_multiset().remove(x).insert(x));
}

/// Sorts result rows into the output order: same rows, sorted.
fn sort_results(v: Vec<FilteredApp>) -> (r: Vec<FilteredApp>)
    ensures
        fa_views(r@).to_multiset() == fa_views(v@).to_multiset(),
        vstd::relations::sorted_by(fa_views(r@), |x: ResultView, y: ResultView| result_le(x, y)),
{
    broadcast use vstd::seq_lib::group_to_multiset_ensures;

    let ghost rle = |x: ResultView, y: ResultView| result_le(x, y);
    let ghost v0 = fa_views(v@);
    let mut v = v;
    let mut out: Vec<FilteredApp> = Vec::new();
    proof {
        lemma_result_le_total_ordering();
        assert(fa_views(out@) =~= Seq::<ResultView>::empty());
        assert(fa_views(out@).to_multiset().add(fa_views(v@).to_multiset()) =~= fa_views(
            v@,
        ).to_multiset());
    }
    while v.len() > 0
        invariant
            fa_views(out@).to_multiset().add(fa_views(v@).to_multiset()) == v0.to_multiset(),
            vstd::relations::sorted_by(fa_views(out@), rle),
            rle == (|x: ResultView, y: ResultView| result_le(x, y)),
        decreases v@.len(),
    {
        let ghost vpre = v@;
        let x = match v.pop() {
            Some(x) => x,
            None => {
                proof {
                    assert(false);
                }
                unreached()
            },
        };
        proof {
            assert(vpre.drop_last() =~= vpre.remove(vpre.len() - 1));
            assert(fa_views(vpre.remove(vpre.len() - 1)) =~= fa_views(vpre).remove(
                vpre.len() - 1,
            ));
            assert(fa_views(vpre)[vpre.len() - 1] == view_of_fa(x));
            fa_views(vpre).to_multiset_ensures();
            assert(fa_views(vpre).remove(vpre.len() - 1).to_multiset() =~= fa_views(
                vpre,
            ).to_multiset().remove(fa_views(vpre)[vpre.len() - 1]));
            assert(fa_views(vpre).contains(view_of_fa(x)));
            assert(fa_views(vpre).to_multiset().count(view_of_fa(x)) > 0);
        }
        let mut p: usize = 0;
        loop
            invariant_except_break
                p <= out@.len(),
                forall|j: int| 0 <= j < p ==> result_le(#[trigger] fa_views(out@)[j], view_of_fa(x)),
            ensures
                p <= out@.len(),
                forall|j: int| 0 <= j < p ==> result_le(#[trigger] fa_views(out@)[j], view_of_fa(x)),
                p < out@.len() ==> !result_le(fa_views(out@)[p as int], view_of_fa(x)),
            decreases out@.len() - p,
        {
            if p == out.len() {
                break;
            }
            if !result_le_exec(&out[p], &x) {
                break;
            }
            p = p + 1;
        }
        proof {
            lemma_result_le_total_ordering();
            if p < out@.len() {
                assert(!result_le(fa_views(out@)[p as int], view_of_fa(x)));
                assert(result_le(view_of_fa(x), fa_views(out@)[p as int]));
            }
        }
        let ghost outpre = out@;
        out.insert(p, x);
        proof {
            assert(fa_views(out@) =~= fa_views(outpre).insert(p as int, view_of_fa(x)));
            lemma_to_multiset_seq_insert(fa_views(outpre), p as int, view_of_fa(x));
            let ov = fa_views(out@);
            let opre = fa_views(outpre);
            assert forall|i: int, j: int| 0 <= i < j < ov.len() implies rle(ov[i], ov[j]) by {
                let xi = if i < p { opre[i] } else if i == p { view_of_fa(x) } else { opre[i - 1] };
                let xj = if j < p { opre[j] } else if j == p { view_of_fa(x) } else { opre[j - 1] };
                assert(ov[i] == xi);
                assert(ov[j] == xj);
                if i < p && j == p {
                    assert(result_le(opre[i], view_of_fa(x)));
                } else if i == p && j > p {
                    assert(!result_le(opre[p as int], view_of_fa(x)));
                    assert(result_le(view_of_fa(x), opre[p as int]));
                    assert(rle(opre[p as int], opre[j - 1]) || p == j - 1);
                    if p < j - 1 {
                        assert(result_le(opre[p as int], opre[j - 1]));
                    }
                } else if i < p && j > p {
                    assert(i < j - 1 < opre.len());
                    assert(rle(opre[i], opre[j - 1]));
                    assert(result_le(opre[i], opre[j - 1]));
                }
            }
            // multiset bookkeeping for the outer invariant
            assert(fa_views(v@) =~= fa_views(vpre).drop_last());
        }
    }
    proof {
        fa_views(v@).to_multiset_ensures();
        assert(fa_views(v@).to_multiset().len() == 0);
        assert(fa_views(out@).to_multiset().add(fa_views(v@).to_multiset()) =~= fa_views(
            out@,
        ).to_multiset());
    }
    out
}

// ---------------------------------------------------------------------------
// The engine entry point
// ---------------------------------------------------------------------------

proof fn lemma_total_len_fold(ts: Seq<Seq<char>>, cs: bool)
    ensures
        total_len(ts.map_values(|t: Seq<char>| fold_case(t, cs))) == total_len(ts),
    decreases ts.len(),
{
    let f = |t: Seq<char>| fold_case(t, cs);
    if ts.len() > 0 {
        lemma_total_len_fold(ts.drop_first(), cs);
        assert(ts.map_values(f).drop_first() =~= ts.drop_first().map_values(f));
        assert(ts.map_values(f)[0] == f(ts[0]));
    }
}

/// Filters and ranks the catalog against a query: a candidate is kept exactly
/// when `candidate_eval` accepts it, carries the score and highlight positions
/// `candidate_eval` gives it, and the rows come back sorted by descending
/// score with the byte-class tie-break. An empty catalog yields an empty list.
/// The query-length bound is the machine limit alone: beyond it a token-score
/// sum could no longer fit the signed 64-bit score.
pub fn filter_apps(apps: &Vec<String>, query: &String, frequency: &crate::frequency::Frequency) -> (r: Vec<
    FilteredApp,
>)
    requires
        frequency.wf(),
        query@.len() <= 0x400_0000_0000_0000,
    ensures
        fa_views(r@).to_multiset() == eval_views(names_of(apps@), query@, frequency@).to_multiset(),
        vstd::relations::sorted_by(fa_views(r@), |x: ResultView, y: ResultView| result_le(x, y)),
        apps@.len() == 0 ==> r@.len() == 0,
{
    let ghost q = query@;
    let ghost nv = names_of(apps@);
    let ghost fm = frequency@;
    let qchars = chars_of(query.as_str());
    let tokens = split_whitespace(&qchars);
    let ghost tv = views_of(tokens@);
    let cs = has_upper(&qchars);
    let nq = join_with_spaces(&tokens);
    let folded_nq = fold_chars(&nq, cs);

    let mut ftokens: Vec<Vec<char>> = Vec::new();
    let mut too_long = false;
    let mut k: usize = 0;
    proof {
        assert(views_of(ftokens@) =~= tv.map_values(|t: Seq<char>| fold_case(t, cs)).subrange(
            0,
            0,
        ));
    }
    while k < tokens.len()
        invariant
            k <= tokens@.len(),
            tv == views_of(tokens@),
            views_of(ftokens@) == tv.map_values(|t: Seq<char>| fold_case(t, cs)).subrange(
                0,
                k as int,
            ),
            too_long == exists|j: int|
                0 <= j < k && (#[trigger] tv[j]).len() > MAX_TOKEN_LEN,
        decreases tokens@.len() - k,
    {
        let t = &tokens[k];
        if t.len() > MAX_TOKEN_LEN {
            too_long = true;
            proof {
                assert(tv[k as int].len() > MAX_TOKEN_LEN);
            }
        }
        let ft = fold_chars(t, cs);
        proof {
            assert(views_of(ftokens@.push(ft)) =~= views_of(ftokens@).push(ft@));
            assert(views_of(ftokens@).push(ft@) =~= tv.map_values(
                |t_: Seq<char>| fold_case(t_, cs),
            ).subrange(0, k as int + 1));
        }
        ftokens.push(ft);
        k = k + 1;
    }
    proof {
        assert(views_of(ftokens@) =~= tv.map_values(|t: Seq<char>| fold_case(t, cs)));
        if !too_long {
            assert(tokens_ok(tv));
        }
        lemma_query_tokens_len(q);
        lemma_total_len_fold(tv, cs);
    }

    let mut results: Vec<FilteredApp> = Vec::new();
    let mut i: usize = 0;
    proof {
        fa_views(results@).to_multiset_ensures();
        assert(nv.skip(0) =~= nv);
        assert(fa_views(results@) =~= Seq::<ResultView>::empty());
        assert(fa_views(results@).to_multiset().add(eval_views(nv, q, fm).to_multiset()) =~=
            eval_views(nv, q, fm).to_multiset());
    }
    while i < apps.len()
        invariant
            i <= apps@.len(),
            nv == names_of(apps@),
            q == query@,
            q.len() <= 0x400_0000_0000_0000,
            fm == frequency@,
            frequency.wf(),
            tv == query_tokens(q),
            tv == views_of(tokens@),
            cs == spec_has_upper(q),
            nq@ == join_tokens(tv),
            folded_nq@ == fold_case(nq@, cs),
            views_of(ftokens@) == tv.map_values(|t: Seq<char>| fold_case(t, cs)),
            too_long == !tokens_ok(tv),
            total_len(tv) <= q.len(),
            total_len(views_of(ftokens@)) == total_len(tv),
            fa_views(results@).to_multiset().add(
                eval_views(nv.skip(i as int), q, fm).to_multiset(),
            ) == eval_views(nv, q, fm).to_multiset(),
        decreases apps@.len() - i,
    {
        proof {
            assert(nv.skip(i as int)[0] == nv[i as int]);
            assert(nv.skip(i as int).drop_first() =~= nv.skip(i as int + 1));
        }
        let name = &apps[i];
        let f = frequency.get(name);
        let ghost ce = candidate_eval(nv[i as int], q, crate::frequency::freq_get(fm, nv[i as int]));
        let mut produced: Option<FilteredApp> = None;
        if tokens.len() == 0 {
            let score: i64 = (f as i64) * 100;
            proof {
                assert(ce matches Some((es, eidx)) && es == score as int && eidx
                    == Seq::<usize>::empty());
            }
            produced = Some(FilteredApp { name: name.clone(), score, match_indices: Vec::new() });
        } else if too_long {
            // a token exceeds the search bound: no candidate qualifies
        } else {
            let nchars = chars_of(name.as_str());
            let folded_name = fold_chars(&nchars, cs);
            let nlen = folded_name.len();
            proof {
                assert(nchars@ == nv[i as int]);
                assert(folded_name@ == fold_case(nv[i as int], cs));
                assert(fold_case(nv[i as int], cs).len() <= usize::MAX);
                assert forall|kk: int| 0 <= kk < ftokens@.len() implies (
                #[trigger] ftokens@[kk])@.len() <= MAX_TOKEN_LEN by {
                    assert(views_of(ftokens@)[kk] == ftokens@[kk]@);
                    assert(views_of(ftokens@)[kk] == fold_case(tv[kk], cs));
                    assert(tv[kk].len() <= MAX_TOKEN_LEN);
                }
            }
            match match_fragmented(&folded_name, &ftokens) {
                None => {},
                Some((s, idx)) => {
                    proof {
                        lemma_frag_match_props(
                            fold_case(nv[i as int], cs),
                            views_of(ftokens@),
                            0,
                        );
                        let fr = frag_match(
                            fold_case(nv[i as int], cs),
                            tv.map_values(|t: Seq<char>| fold_case(t, cs)),
                            0,
                        );
                        let (frs, fridx) = fr->0;
                        assert(fr is Some && s as int == frs && idx@ == fridx);
                        assert(s as int <= 16 * total_len(tv));
                    }
                    let mut score: i64 = s + (f as i64) * 100;
                    if chars_eq(&folded_name, &folded_nq) {
                        score = score + 1_000_000;
                    }
                    if chars_prefix(&folded_name, &folded_nq) {
                        score = score + 100_000;
                    }
                    proof {
                        assert(ce matches Some((es, eidx)) && es == score as int && eidx == idx@);
                    }
                    produced = Some(
                        FilteredApp { name: name.clone(), score, match_indices: idx },
                    );
                },
            }
        }
        let ghost respre = results@;
        match produced {
            Some(fa) => {
                proof {
                    assert(ce matches Some((es, eidx)) && view_of_fa(fa) == (ResultView {
                        name: nv[i as int],
                        score: es,
                        idx: eidx,
                    }));
                }
                results.push(fa);
            },
            None => {
                proof {
                    assert(ce is None);
                }
            },
        }
        i = i + 1;
        proof {
            let rest = eval_views(nv.skip(i as int), q, fm);
            fa_views(respre).to_multiset_ensures();
            fa_views(results@).to_multiset_ensures();
            rest.to_multiset_ensures();
            if ce is Some {
                let (es, eidx) = ce->0;
                let rv = ResultView { name: nv[i - 1], score: es, idx: eidx };
                assert(eval_views(nv.skip(i - 1), q, fm) =~= seq![rv] + rest);
                assert(seq![rv] + rest =~= rest.insert(0, rv));
                lemma_to_multiset_seq_insert(rest, 0, rv);
                assert(fa_views(results@) =~= fa_views(respre).push(rv));
                assert(fa_views(results@).to_multiset() =~= fa_views(respre).to_multiset().insert(
                    rv,
                ));
                assert(fa_views(results@).to_multiset().add(rest.to_multiset()) =~= fa_views(
                    respre,
                ).to_multiset().add(rest.to_multiset().insert(rv)));
            } else {
                assert(eval_views(nv.skip(i - 1), q, fm) == rest);
                assert(results@ == respre);
            }
        }
    }
    proof {
        assert(nv.skip(i as int) =~= Seq::<Seq<char>>::empty());
        assert(eval_views(nv.skip(i as int), q, fm) =~= Seq::<ResultView>::empty());
        eval_views(nv.skip(i as int), q, fm).to_multiset_ensures();
        assert(fa_views(results@).to_multiset().add(
            eval_views(nv.skip(i as int), q, fm).to_multiset(),
        ) =~= fa_views(results@).to_multiset());
    }
    let r = sort_results(results);
    proof {
        if apps@.len() == 0 {
            assert(eval_views(nv, q, fm) =~= Seq::<ResultView>::empty());
            eval_views(nv, q, fm).to_multiset_ensures();
            fa_views(r@).to_multiset_ensures();
            assert(fa_views(r@).to_multiset().len() == 0);
            assert(fa_views(r@).len() == 0);
        }
    }
    r
}

// ---------------------------------------------------------------------------
// Laws of the engine
// ---------------------------------------------------------------------------

/// The characters of all tokens, concatenated in order.
pub open spec fn concat_tokens(ts: Seq<Seq<char>>) -> Seq<char>
    decreases ts.len(),
{
    if ts.len() == 0 {
        Seq::empty()
    } else {
        ts[0] + concat_tokens(ts.drop_first())
    }
}

/// Every match position of a fragmented match references the text character
/// equal to the corresponding concatenated token character.
pub proof fn lemma_frag_match_chars(text: Seq<char>, tokens: Seq<Seq<char>>, start: int)
    requires
        text.len() <= usize::MAX,
        frag_match(text, tokens, start) is Some,
    ensures
        ({
            let (s, idx) = frag_match(text, tokens, start)->0;
            &&& idx.len() == concat_tokens(tokens).len()
            &&& forall|a: int|
                0 <= a < idx.len() ==> text[#[trigger] idx[a] as int] == concat_tokens(tokens)[a]
        }),
    decreases tokens.len(),
{
    lemma_frag_match_props(text, tokens, start);
    if tokens.len() == 0 {
    } else {
        let (s, idx) = best_match(text, tokens[0], start, start, None)->0;
        lemma_best_match_props(text, tokens[0], start, start, None);
        let next = if idx.len() == 0 {
            start
        } else {
            idx.last() + 1
        };
        lemma_frag_match_chars(text, tokens.drop_first(), next);
        lemma_frag_match_props(text, tokens.drop_first(), next);
        let (s2, idx2) = frag_match(text, tokens.drop_first(), next)->0;
        let all = idx + idx2;
        let ct = concat_tokens(tokens);
        assert(ct.len() == tokens[0].len() + concat_tokens(tokens.drop_first()).len()) by {
            lemma_concat_tokens_len(tokens);
        }
        assert forall|a: int| 0 <= a < all.len() implies text[#[trigger] all[a] as int] == ct[a] by {
            if a < idx.len() {
                assert(all[a] == idx[a]);
                assert(text[idx[a] as int] == tokens[0][a]);
                assert(ct[a] == tokens[0][a]);
            } else {
                let b = a - idx.len();
                assert(all[a] == idx2[b]);
                assert(text[idx2[b] as int] == concat_tokens(tokens.drop_first())[b]);
                assert(ct[a] == concat_tokens(tokens.drop_first())[b]);
            }
        }
    }
}

proof fn lemma_concat_tokens_len(ts: Seq<Seq<char>>)
    ensures
        concat_tokens(ts).len() == total_len(ts),
    decreases ts.len(),
{
    if ts.len() > 0 {
        lemma_concat_tokens_len(ts.drop_first());
    }
}

/// Every row the engine owes is fully determined by its name: it carries
/// exactly the score and highlight positions `candidate_eval` gives that name.
pub proof fn lemma_eval_views_elements(
    apps: Seq<Seq<char>>,
    q: Seq<char>,
    fm: Map<Seq<char>, u32>,
)
    ensures
        forall|rv: ResultView|
            #[trigger] eval_views(apps, q, fm).contains(rv) ==> candidate_eval(
                rv.name,
                q,
                crate::frequency::freq_get(fm, rv.name),
            ) == Some((rv.score, rv.idx)),
    decreases apps.len(),
{
    if apps.len() > 0 {
        lemma_eval_views_elements(apps.drop_first(), q, fm);
        let rest = eval_views(apps.drop_first(), q, fm);
        assert forall|rv: ResultView| #[trigger] eval_views(apps, q, fm).contains(rv) implies
            candidate_eval(rv.name, q, crate::frequency::freq_get(fm, rv.name)) == Some(
            (rv.score, rv.idx),
        ) by {
            let ev = eval_views(apps, q, fm);
            let w = choose|w: int| 0 <= w < ev.len() && ev[w] == rv;
            match candidate_eval(apps[0], q, crate::frequency::freq_get(fm, apps[0])) {
                None => {
                    assert(rest.contains(rv));
                },
                Some((sc, ix)) => {
                    if w == 0 {
                        assert(rv == ResultView { name: apps[0], score: sc, idx: ix });
                    } else {
                        assert(rest[w - 1] == rv);
                        assert(rest.contains(rv));
                    }
                },
            }
        }
    }
}

proof fn lemma_key_le_refl(a: Seq<u8>)
    ensures
        key_le(a, a),
    decreases a.len(),
{
    if a.len() > 0 {
        lemma_key_le_refl(a.drop_first());
    }
}

/// Two result rows that compare equal in both directions and are both owed by
/// the engine are the same row.
proof fn lemma_result_le_antisym_within(
    x: ResultView,
    y: ResultView,
    apps: Seq<Seq<char>>,
    q: Seq<char>,
    fm: Map<Seq<char>, u32>,
)
    requires
        eval_views(apps, q, fm).contains(x),
        eval_views(apps, q, fm).contains(y),
        result_le(x, y),
        result_le(y, x),
    ensures
        x == y,
{
    lemma_eval_views_elements(apps, q, fm);
    assert(x.score == y.score);
    lemma_key_le_antisym(vstd::utf8::encode_utf8(x.name), vstd::utf8::encode_utf8(y.name));
    vstd::utf8::encode_utf8_decode_utf8(x.name);
    vstd::utf8::encode_utf8_decode_utf8(y.name);
    assert(x.name == y.name);
}

/// Determinism of the engine: any two result lists that satisfy the contract
/// of `filter_apps` for the same catalog, query and frequencies are equal,
/// row for row.
pub proof fn lemma_filter_deterministic(
    a: Seq<ResultView>,
    b: Seq<ResultView>,
    apps: Seq<Seq<char>>,
    q: Seq<char>,
    fm: Map<Seq<char>, u32>,
)
    requires
        a.to_multiset() == eval_views(apps, q, fm).to_multiset(),
        b.to_multiset() == eval_views(apps, q, fm).to_multiset(),
        vstd::relations::sorted_by(a, |x: ResultView, y: ResultView| result_le(x, y)),
        vstd::relations::sorted_by(b, |x: ResultView, y: ResultView| result_le(x, y)),
    ensures
        a == b,
    decreases a.len(),
{
    broadcast use vstd::seq_lib::group_to_multiset_ensures;

    let ev = eval_views(apps, q, fm);
    let rle = |x: ResultView, y: ResultView| result_le(x, y);
    if a.len() == 0 {
        assert(b.to_multiset().len() == 0);
        assert(a =~= b);
    } else {
        a.to_multiset_ensures();
        b.to_multiset_ensures();
        assert(a.to_multiset().len() == b.to_multiset().len());
        assert(b.len() == a.len());
        // each first element occurs in the other sequence
        assert(a.contains(a[0]));
        assert(a.to_multiset().count(a[0]) > 0);
        assert(b.to_multiset().contains(a[0]));
        assert(b.contains(a[0]));
        let ja = choose|j: int| 0 <= j < b.len() && b[j] == a[0];
        assert(a.to_multiset().contains(b[0]));
        assert(a.contains(b[0]));
        let jb = choose|j: int| 0 <= j < a.len() && a[j] == b[0];
        lemma_result_le_total_ordering();
        assert(result_le(a[0], b[0])) by {
            if jb > 0 {
                assert(rle(a[0], a[jb]));
            } else {
                lemma_key_le_refl(vstd::utf8::encode_utf8(a[0].name));
            }
        }
        assert(result_le(b[0], a[0])) by {
            if ja > 0 {
                assert(rle(b[0], b[ja]));
            } else {
                lemma_key_le_refl(vstd::utf8::encode_utf8(b[0].name));
            }
        }
        assert(ev.to_multiset().contains(a[0]));
        assert(ev.contains(a[0]));
        assert(ev.to_multiset().contains(b[0]));
        assert(ev.contains(b[0]));
        lemma_result_le_antisym_within(a[0], b[0], apps, q, fm);
        assert(a[0] == b[0]);
        let a1 = a.drop_first();
        let b1 = b.drop_first();
        assert(a1 =~= a.remove(0));
        assert(b1 =~= b.remove(0));
        assert(a1.to_multiset() =~= a.to_multiset().remove(a[0]));
        assert(b1.to_multiset() =~= b.to_multiset().remove(b[0]));
        assert(a1.to_multiset() == b1.to_multiset());
        // the tail is still owed by the engine: shrink the claim to what the
        // recursion needs by reusing the multiset equality directly
        assert(vstd::relations::sorted_by(a1, rle)) by {
            assert forall|i: int, j: int| 0 <= i < j < a1.len() implies rle(a1[i], a1[j]) by {
                assert(a1[i] == a[i + 1]);
                assert(a1[j] == a[j + 1]);
                assert(rle(a[i + 1], a[j + 1]));
            }
        }
        assert(vstd::relations::sorted_by(b1, rle)) by {
            assert forall|i: int, j: int| 0 <= i < j < b1.len() implies rle(b1[i], b1[j]) by {
                assert(b1[i] == b[i + 1]);
                assert(b1[j] == b[j + 1]);
                assert(rle(b[i + 1], b[j + 1]));
            }
        }
        lemma_sorted_unique_tail(a1, b1, apps, q, fm, ev.to_multiset().remove(a[0]));
        assert(a =~= b) by {
            assert(a1 =~= b1);
            assert forall|i: int| 0 <= i < a.len() implies a[i] == b[i] by {
                if i > 0 {
                    assert(a1[i - 1] == b1[i - 1]);
                }
            }
        }
    }
}

/// Tail step of the determinism proof: sorted sequences with equal multisets
/// drawn from the engine's rows are equal.
proof fn lemma_sorted_unique_tail(
    a: Seq<ResultView>,
    b: Seq<ResultView>,
    apps: Seq<Seq<char>>,
    q: Seq<char>,
    fm: Map<Seq<char>, u32>,
    m: vstd::multiset::Multiset<ResultView>,
)
    requires
        a.to_multiset() == m,
        b.to_multiset() == m,
        forall|rv: ResultView| #[trigger] m.count(rv) > 0 ==> eval_views(apps, q, fm).contains(rv),
        vstd::relations::sorted_by(a, |x: ResultView, y: ResultView| result_le(x, y)),
        vstd::relations::sorted_by(b, |x: ResultView, y: ResultView| result_le(x, y)),
    ensures
        a == b,
    decreases a.len(),
{
    broadcast use vstd::seq_lib::group_to_multiset_ensures;

    let rle = |x: ResultView, y: ResultView| result_le(x, y);
    if a.len() == 0 {
        assert(b.to_multiset().len() == 0);
        assert(a =~= b);
    } else {
        a.to_multiset_ensures();
        b.to_multiset_ensures();
        assert(b.len() == a.len());
        assert(a.contains(a[0]));
        assert(a.to_multiset().count(a[0]) > 0);
        assert(b.to_multiset().contains(a[0]));
        assert(b.contains(a[0]));
        let ja = choose|j: int| 0 <= j < b.len() && b[j] == a[0];
        assert(a.to_multiset().contains(b[0]));
        assert(a.contains(b[0]));
        let jb = choose|j: int| 0 <= j < a.len() && a[j] == b[0];
        lemma_result_le_total_ordering();
        assert(result_le(a[0], b[0])) by {
            if jb > 0 {
                assert(rle(a[0], a[jb]));
            } else {
                lemma_key_le_refl(vstd::utf8::encode_utf8(a[0].name));
            }
        }
        assert(result_le(b[0], a[0])) by {
            if ja > 0 {
                assert(rle(b[0], b[ja]));
            } else {
                lemma_key_le_refl(vstd::utf8::encode_utf8(b[0].name));
            }
        }
        assert(m.count(a[0]) > 0);
        assert(m.count(b[0]) > 0);
        lemma_result_le_antisym_within(a[0], b[0], apps, q, fm);
        let a1 = a.drop_first();
        let b1 = b.drop_first();
        assert(a1 =~= a.remove(0));
        assert(b1 =~= b.remove(0));
        assert(a1.to_multiset() =~= a.to_multiset().remove(a[0]));
        assert(b1.to_multiset() =~= b.to_multiset().remove(b[0]));
        assert(vstd::relations::sorted_by(a1, rle)) by {
            assert forall|i: int, j: int| 0 <= i < j < a1.len() implies rle(a1[i], a1[j]) by {
                assert(a1[i] == a[i + 1]);
                assert(a1[j] == a[j + 1]);
                assert(rle(a[i + 1], a[j + 1]));
            }
        }
        assert(vstd::relations::sorted_by(b1, rle)) by {
            assert forall|i: int, j: int| 0 <= i < j < b1.len() implies rle(b1[i], b1[j]) by {
                assert(b1[i] == b[i + 1]);
                assert(b1[j] == b[j + 1]);
                assert(rle(b[i + 1], b[j + 1]));
            }
        }
        assert forall|rv: ResultView| #[trigger] m.remove(a[0]).count(rv) > 0 implies eval_views(
            apps,
            q,
            fm,
        ).contains(rv) by {
            assert(m.count(rv) > 0);
        }
        lemma_sorted_unique_tail(a1, b1, apps, q, fm, m.remove(a[0]));
        assert(a =~= b) by {
            assert forall|i: int| 0 <= i < a.len() implies a[i] == b[i] by {
                if i > 0 {
                    assert(a1[i - 1] == b1[i - 1]);
                }
            }
        }
    }
}


/// A one-token query whose normalized form equals a candidate under the
/// active case mode always matches it: the identity placement carries every
/// token character, so the candidate is owed a row, and its score carries
/// both the exact-match and the prefix bonus on top of its frequency.
pub proof fn lemma_exact_single_token_qualifies(name: Seq<char>, q: Seq<char>, freq: u32)
    requires
        name.len() <= usize::MAX,
        query_tokens(q).len() == 1,
        query_tokens(q)[0].len() <= MAX_TOKEN_LEN,
        fold_case(name, spec_has_upper(q)) == fold_case(
            join_tokens(query_tokens(q)),
            spec_has_upper(q),
        ),
    ensures
        candidate_eval(name, q, freq) matches Some((s, idx)) && s >= freq * 100 + 1_100_000,
{
    let tokens = query_tokens(q);
    let cs = spec_has_upper(q);
    let nq = join_tokens(tokens);
    assert(nq == tokens[0]);
    let text = fold_case(name, cs);
    let ftok = fold_case(tokens[0], cs);
    assert(text == ftok);
    let folded = tokens.map_values(|t: Seq<char>| fold_case(t, cs));
    assert(folded.len() == 1 && folded[0] == ftok);
    assert(tokens_ok(tokens)) by {
        assert forall|k: int| 0 <= k < tokens.len() implies (#[trigger] tokens[k]).len()
            <= MAX_TOKEN_LEN by {
            assert(k == 0);
        }
    }
    // the identity placement puts every token character on itself
    let idx = Seq::<usize>::new(text.len(), |j: int| j as usize);
    assert(text.len() == name.len());
    assert forall|j: int| 0 <= j < idx.len() implies 0 <= #[trigger] idx[j] < text.len()
        && text[idx[j] as int] == ftok[j] by {
        assert(idx[j] == j as usize);
    }
    assert forall|j: int| 0 < j < idx.len() implies idx[j - 1] < #[trigger] idx[j] by {
        assert(idx[j - 1] == (j - 1) as usize && idx[j] == j as usize);
    }
    assert(is_placement(text, ftok, idx, 0));
    lemma_best_match_maximal(text, ftok, 0, 0, None, idx);
    let bm = best_match(text, ftok, 0, 0, None);
    assert(bm is Some);
    lemma_best_match_props(text, ftok, 0, 0, None);
    let (bs, bidx) = bm->0;
    // the single token makes the whole fragmented match
    assert(folded.drop_first() =~= Seq::<Seq<char>>::empty());
    let fm = frag_match(text, folded, 0);
    assert(fm matches Some((fs, fidx)) && fs == bs) by {
        assert(frag_match(text, folded.drop_first(), if bidx.len() == 0 {
            0int
        } else {
            bidx.last() + 1
        }) == Some((0int, Seq::<usize>::empty())));
    }
    assert(exact_bonus(name, nq, cs) == 1_000_000);
    assert(prefix_bonus(name, nq, cs) == 100_000) by {
        assert(fold_case(nq, cs).is_prefix_of(fold_case(name, cs))) by {
            assert(fold_case(nq, cs) =~= fold_case(name, cs).take(
                fold_case(nq, cs).len() as int,
            ));
        }
    }
    assert(bs >= 0);
}

/// Subsequence validity: each result row's match positions are strictly
/// increasing positions within its name, and reference, under the active case
/// mode, exactly the query's token characters in order.
pub proof fn lemma_match_indices_valid(
    r: Seq<ResultView>,
    apps: Seq<Seq<char>>,
    q: Seq<char>,
    fm: Map<Seq<char>, u32>,
    k: int,
)
    requires
        r.to_multiset() == eval_views(apps, q, fm).to_multiset(),
        0 <= k < r.len(),
        r[k].name.len() <= usize::MAX,
    ensures
        forall|a: int| 0 < a < r[k].idx.len() ==> #[trigger] r[k].idx[a - 1] < r[k].idx[a],
        forall|a: int| 0 <= a < r[k].idx.len() ==> #[trigger] r[k].idx[a] < r[k].name.len(),
        query_tokens(q).len() > 0 ==> {
            let folded = query_tokens(q).map_values(
                |t: Seq<char>| fold_case(t, spec_has_upper(q)),
            );
            &&& r[k].idx.len() == concat_tokens(folded).len()
            &&& forall|a: int|
                0 <= a < r[k].idx.len() ==> fold_case(r[k].name, spec_has_upper(q))[(
                #[trigger] r[k].idx[a]) as int] == concat_tokens(folded)[a]
        },
{
    broadcast use vstd::seq_lib::group_to_multiset_ensures;

    let ev = eval_views(apps, q, fm);
    r.to_multiset_ensures();
    ev.to_multiset_ensures();
    assert(r.contains(r[k]));
    assert(r.to_multiset().count(r[k]) > 0);
    assert(ev.contains(r[k]));
    lemma_eval_views_elements(apps, q, fm);
    let rv = r[k];
    let ce = candidate_eval(rv.name, q, crate::frequency::freq_get(fm, rv.name));
    assert(ce == Some((rv.score, rv.idx)));
    let tokens = query_tokens(q);
    let cs = spec_has_upper(q);
    if tokens.len() == 0 {
        assert(rv.idx =~= Seq::<usize>::empty());
    } else {
        let folded = tokens.map_values(|t: Seq<char>| fold_case(t, cs));
        let text = fold_case(rv.name, cs);
        assert(text.len() == rv.name.len());
        assert(frag_match(text, folded, 0) is Some);
        lemma_frag_match_props(text, folded, 0);
        lemma_frag_match_chars(text, folded, 0);
    }
}

/// Exact-match dominance: with modest queries and usage counts, a candidate
/// whose name equals the whitespace-normalized query under the active case
/// mode scores at least the exact-match bonus and sorts strictly before every
/// result lacking that bonus.
pub proof fn lemma_exact_match_outranks(
    r: Seq<ResultView>,
    apps: Seq<Seq<char>>,
    q: Seq<char>,
    fm: Map<Seq<char>, u32>,
    i: int,
    j: int,
)
    requires
        r.to_multiset() == eval_views(apps, q, fm).to_multiset(),
        vstd::relations::sorted_by(r, |x: ResultView, y: ResultView| result_le(x, y)),
        q.len() <= 1000,
        forall|n: Seq<char>| crate::frequency::freq_get(fm, n) <= 8000,
        query_tokens(q).len() > 0,
        0 <= i < r.len(),
        0 <= j < r.len(),
        r[i].name.len() <= usize::MAX,
        r[j].name.len() <= usize::MAX,
        fold_case(r[i].name, spec_has_upper(q)) == fold_case(
            join_tokens(query_tokens(q)),
            spec_has_upper(q),
        ),
        fold_case(r[j].name, spec_has_upper(q)) != fold_case(
            join_tokens(query_tokens(q)),
            spec_has_upper(q),
        ),
    ensures
        r[i].score >= 1_100_000,
        r[j].score < 1_000_000,
        i < j,
{
    broadcast use vstd::seq_lib::group_to_multiset_ensures;

    let ev = eval_views(apps, q, fm);
    r.to_multiset_ensures();
    ev.to_multiset_ensures();
    assert(r.contains(r[i]));
    assert(r.to_multiset().count(r[i]) > 0);
    assert(ev.contains(r[i]));
    assert(r.contains(r[j]));
    assert(r.to_multiset().count(r[j]) > 0);
    assert(ev.contains(r[j]));
    lemma_eval_views_elements(apps, q, fm);
    let tokens = query_tokens(q);
    let cs = spec_has_upper(q);
    let folded = tokens.map_values(|t: Seq<char>| fold_case(t, cs));
    lemma_query_tokens_len(q);
    lemma_total_len_fold(tokens, cs);
    // the exact row
    {
        let rv = r[i];
        let ce = candidate_eval(rv.name, q, crate::frequency::freq_get(fm, rv.name));
        assert(ce == Some((rv.score, rv.idx)));
        let text = fold_case(rv.name, cs);
        assert(frag_match(text, folded, 0) is Some);
        lemma_frag_match_props(text, folded, 0);
        assert(exact_bonus(rv.name, join_tokens(tokens), cs) == 1_000_000);
        assert(prefix_bonus(rv.name, join_tokens(tokens), cs) == 100_000) by {
            let fn_ = fold_case(rv.name, cs);
            let fq = fold_case(join_tokens(tokens), cs);
            assert(fq.is_prefix_of(fn_)) by {
                assert(fq =~= fn_.take(fq.len() as int));
            }
        }
        assert(rv.score >= 1_100_000);
    }
    // a row without the bonus
    {
        let rv = r[j];
        let ce = candidate_eval(rv.name, q, crate::frequency::freq_get(fm, rv.name));
        assert(ce == Some((rv.score, rv.idx)));
        let text = fold_case(rv.name, cs);
        assert(frag_match(text, folded, 0) is Some);
        lemma_frag_match_props(text, folded, 0);
        let (s2, _idx2) = frag_match(text, folded, 0)->0;
        assert(s2 <= 16 * total_len(tokens));
        assert(exact_bonus(rv.name, join_tokens(tokens), cs) == 0);
        assert(prefix_bonus(rv.name, join_tokens(tokens), cs) <= 100_000);
        assert(crate::frequency::freq_get(fm, rv.name) * 100 <= 800_000);
        assert(rv.score <= 16 * 1000 + 800_000 + 100_000);
        assert(rv.score < 1_000_000);
    }
    // ranking
    if j < i {
        let rle = |x: ResultView, y: ResultView| result_le(x, y);
        assert(rle(r[j], r[i]));
        assert(false);
    }
}

} // verus!
