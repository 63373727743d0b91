//! The fuzzy filtering strategy: a candidate is retained when every
//! query character can be matched, case-insensitively and in order, to
//! a strictly later character of the candidate. Retained candidates are
//! scored (rewarding contiguous runs and prefix matches) and sorted by
//! descending score, ties keeping their original order.

use vstd::prelude::*;
use crate::text::chars_of;
use crate::text::lower_char;
use crate::text::to_lower_char;
use crate::text::to_lower_chars;

verus! {

/// A retained candidate together with the character offsets that
/// matched the query, for highlighting.
pub struct MatchResult {
    pub text: String,
    pub matched_indices: Vec<usize>,
}

impl View for MatchResult {
    type V = (Seq<char>, Seq<int>);

    open spec fn view(&self) -> (Seq<char>, Seq<int>) {
        (self.text@, self.matched_indices@.map_values(|u: usize| u as int))
    }
}

/// The smallest offset at or after `from` whose character equals `c`
/// case-insensitively, or `t.len()` when there is none.
pub open spec fn first_from(t: Seq<char>, c: char, from: int) -> int
    decreases t.len() - from,
{
    if from < 0 || from >= t.len() {
        t.len() as int
    } else if lower_char(t[from]) == lower_char(c) {
        from
    } else {
        first_from(t, c, from + 1)
    }
}

/// The offsets chosen by the greedy first-available-position scan: each
/// query character is matched to the first candidate position at or
/// after the previous match, or `None` when some character cannot be.
pub open spec fn greedy_idxs(t: Seq<char>, p: Seq<char>, from: int) -> Option<Seq<int>>
    decreases p.len(),
{
    if p.len() == 0 {
        Some(Seq::empty())
    } else {
        let j = first_from(t, p[0], from);
        if j == t.len() {
            None
        } else {
            match greedy_idxs(t, p.drop_first(), j + 1) {
                Some(rest) => Some(seq![j] + rest),
                None => None,
            }
        }
    }
}

/// The summed per-step rewards of a match: 5 for a position exactly one
/// past the previous one, 1 for any later position.
pub open spec fn pair_sum(idxs: Seq<int>) -> int
    decreases idxs.len(),
{
    if idxs.len() <= 1 {
        0
    } else {
        pair_sum(idxs.drop_last()) + (if idxs.last() == idxs[idxs.len() - 2] + 1 {
            5int
        } else {
            1int
        })
    }
}

/// The score of a non-empty match: 10 for the first query character
/// matching anywhere, 2 more when the match starts at the candidate's
/// first character, plus the per-step rewards.
pub open spec fn score_of(idxs: Seq<int>) -> int {
    if idxs.len() == 0 {
        0
    } else {
        10 + (if idxs[0] == 0 {
            2int
        } else {
            0int
        }) + pair_sum(idxs)
    }
}

/// `idxs` aligns every character of `p` with a distinct character of
/// `t`, case-insensitively, at strictly increasing offsets.
pub open spec fn is_fuzzy_witness(t: Seq<char>, p: Seq<char>, idxs: Seq<int>) -> bool {
    &&& idxs.len() == p.len()
    &&& forall|k: int| 0 <= k < idxs.len() ==> 0 <= #[trigger] idxs[k] < t.len()
    &&& forall|k: int| 0 < k < idxs.len() ==> idxs[k - 1] < #[trigger] idxs[k]
    &&& forall|k: int| 0 <= k < idxs.len() ==> lower_char(t[#[trigger] idxs[k]]) == lower_char(p[k])
}

/// `first_from` returns the first case-insensitive occurrence at or
/// after `from`, and `t.len()` exactly when there is none.
pub proof fn lemma_first_from(t: Seq<char>, c: char, from: int)
    requires
        0 <= from <= t.len(),
    ensures
        from <= first_from(t, c, from) <= t.len(),
        first_from(t, c, from) < t.len() ==> lower_char(t[first_from(t, c, from)]) == lower_char(c),
        forall|m: int|
            from <= m < first_from(t, c, from) ==> lower_char(t[m]) != lower_char(c),
    decreases t.len() - from,
{
    if from < t.len() && lower_char(t[from]) != lower_char(c) {
        lemma_first_from(t, c, from + 1);
    }
}

/// When no offset in `[from, j)` matches `c` and `j` does (or `j` is
/// the end), the scan from `from` stops exactly at `j`.
proof fn lemma_first_from_is(t: Seq<char>, c: char, from: int, j: int)
    requires
        0 <= from <= j <= t.len(),
        forall|m: int| from <= m < j ==> lower_char(t[m]) != lower_char(c),
        j < t.len() ==> lower_char(t[j]) == lower_char(c),
    ensures
        first_from(t, c, from) == j,
    decreases j - from,
{
    if from < j {
        lemma_first_from_is(t, c, from + 1, j);
    }
}

/// Appending one more matched offset extends the score by the reward of
/// that step.
proof fn lemma_score_push(idxs: Seq<int>, j: int)
    ensures
        score_of(idxs.push(j)) == if idxs.len() == 0 {
            10 + (if j == 0 {
                2int
            } else {
                0int
            })
        } else {
            score_of(idxs) + (if j == idxs.last() + 1 {
                5int
            } else {
                1int
            })
        },
{
    let e = idxs.push(j);
    assert(e.drop_last() =~= idxs);
    if idxs.len() == 0 {
        assert(e.len() == 1);
        assert(pair_sum(e) == 0);
    } else {
        assert(e[0] == idxs[0]);
        assert(e.last() == j);
        assert(e[e.len() - 2] == idxs.last());
    }
}

/// Prepending a sequence to an optional tail, the shape `greedy_idxs`
/// results take while a scan is under way.
pub open spec fn with_prefix(a: Seq<int>, rest: Option<Seq<int>>) -> Option<Seq<int>> {
    match rest {
        Some(r) => Some(a + r),
        None => None,
    }
}

/// In a strictly increasing offset sequence, earlier entries are
/// smaller.
proof fn lemma_witness_increasing(w: Seq<int>, a: int, b: int)
    requires
        forall|k: int| 0 < k < w.len() ==> w[k - 1] < #[trigger] w[k],
        0 <= a < b < w.len(),
    ensures
        w[a] < w[b],
    decreases b - a,
{
    if a + 1 < b {
        lemma_witness_increasing(w, a, b - 1);
    }
}

/// What the greedy scan returns is itself a valid alignment, and never
/// reaches back before `from`.
pub proof fn lemma_greedy_sound(t: Seq<char>, p: Seq<char>, from: int)
    requires
        0 <= from,
        greedy_idxs(t, p, from) is Some,
    ensures
        is_fuzzy_witness(t, p, greedy_idxs(t, p, from)->0),
        forall|k: int|
            0 <= k < greedy_idxs(t, p, from)->0.len() ==> #[trigger] greedy_idxs(
                t,
                p,
                from,
            )->0[k] >= from,
    decreases p.len(),
{
    if p.len() > 0 {
        let j = first_from(t, p[0], from);
        lemma_first_from(t, p[0], from);
        lemma_greedy_sound(t, p.drop_first(), j + 1);
        let rest = greedy_idxs(t, p.drop_first(), j + 1)->0;
        let idxs = greedy_idxs(t, p, from)->0;
        assert(idxs == seq![j] + rest);
        assert(idxs[0] == j);
        assert forall|k: int| 0 < k < idxs.len() implies idxs[k - 1] < #[trigger] idxs[k] by {
            assert(idxs[k] == rest[k - 1]);
            if k > 1 {
                assert(idxs[k - 1] == rest[k - 2]);
            }
        }
        assert forall|k: int| 0 <= k < idxs.len() implies 0 <= idxs[k] < t.len()
            && lower_char(t[idxs[k]]) == lower_char(p[k]) && idxs[k] >= from by {
            if k > 0 {
                assert(idxs[k] == rest[k - 1]);
                assert(p.drop_first()[k - 1] == p[k]);
            }
        }
    }
}

/// Whenever any valid alignment at or after `from` exists, the greedy
/// scan finds one.
pub proof fn lemma_greedy_complete(t: Seq<char>, p: Seq<char>, from: int, w: Seq<int>)
    requires
        0 <= from,
        is_fuzzy_witness(t, p, w),
        forall|k: int| 0 <= k < w.len() ==> #[trigger] w[k] >= from,
    ensures
        greedy_idxs(t, p, from) is Some,
    decreases p.len(),
{
    if p.len() > 0 {
        assert(from <= w[0] < t.len());
        let j = first_from(t, p[0], from);
        lemma_first_from(t, p[0], from);
        assert(lower_char(t[w[0]]) == lower_char(p[0]));
        assert(j <= w[0]);
        let w2 = w.drop_first();
        assert forall|k: int| 0 <= k < w2.len() implies #[trigger] w2[k] >= j + 1 by {
            assert(w2[k] == w[k + 1]);
            if k + 1 > 0 {
                lemma_witness_increasing(w, 0, k + 1);
            }
        }
        assert forall|k: int| 0 < k < w2.len() implies w2[k - 1] < #[trigger] w2[k] by {
            assert(w2[k] == w[k + 1]);
            assert(w2[k - 1] == w[k]);
        }
        assert forall|k: int| 0 <= k < w2.len() implies lower_char(t[#[trigger] w2[k]])
            == lower_char(p.drop_first()[k]) by {
            assert(w2[k] == w[k + 1]);
            assert(p.drop_first()[k] == p[k + 1]);
        }
        lemma_greedy_complete(t, p.drop_first(), j + 1, w2);
    }
}

/// A candidate is retained by the fuzzy match exactly when some
/// strictly increasing case-insensitive alignment of the query with its
/// characters exists, and the trace returned is such an alignment.
pub proof fn lemma_fuzzy_match_characterization(t: Seq<char>, q: Seq<char>)
    ensures
        greedy_idxs(t, q, 0) matches Some(idxs) ==> is_fuzzy_witness(t, q, idxs),
        greedy_idxs(t, q, 0) is None ==> forall|w: Seq<int>| !is_fuzzy_witness(t, q, w),
{
    if greedy_idxs(t, q, 0) is Some {
        lemma_greedy_sound(t, q, 0);
    } else {
        assert forall|w: Seq<int>| !is_fuzzy_witness(t, q, w) by {
            if is_fuzzy_witness(t, q, w) {
                lemma_greedy_complete(t, q, 0, w);
            }
        }
    }
}

/// The fuzzy filter retains exactly the candidates admitting a strictly
/// increasing case-insensitive alignment with the query: every row of
/// the sorted output comes from the candidate set and carries such an
/// alignment as its trace, and every candidate admitting one appears.
pub proof fn lemma_fuzzy_filter_characterization(opts: Seq<Seq<char>>, q: Seq<char>)
    ensures
        forall|x: (Seq<char>, int, Seq<int>)|
            #[trigger] sort_rows_desc(fuzzy_rows(opts, q)).contains(x) ==> opts.contains(x.0)
                && is_fuzzy_witness(x.0, q, x.2),
        forall|i: int|
            0 <= i < opts.len() && (exists|w: Seq<int>| is_fuzzy_witness(#[trigger] opts[i], q, w))
                ==> exists|x: (Seq<char>, int, Seq<int>)|
                #[trigger] sort_rows_desc(fuzzy_rows(opts, q)).contains(x) && x.0 == opts[i],
{
    lemma_sort_rows_membership(fuzzy_rows(opts, q));
    lemma_fuzzy_rows_sound(opts, q);
    assert forall|x: (Seq<char>, int, Seq<int>)|
        #[trigger] sort_rows_desc(fuzzy_rows(opts, q)).contains(x) implies opts.contains(x.0)
        && is_fuzzy_witness(x.0, q, x.2) by {
        assert(fuzzy_rows(opts, q).contains(x));
        assert(greedy_idxs(x.0, q, 0) == Some(x.2));
        lemma_greedy_sound(x.0, q, 0);
    }
    assert forall|i: int|
        0 <= i < opts.len() && (exists|w: Seq<int>|
            is_fuzzy_witness(#[trigger] opts[i], q, w)) implies exists|
        x: (Seq<char>, int, Seq<int>),
    |
        #[trigger] sort_rows_desc(fuzzy_rows(opts, q)).contains(x) && x.0 == opts[i] by {
        let w = choose|w: Seq<int>| is_fuzzy_witness(opts[i], q, w);
        assert(forall|k: int| 0 <= k < w.len() ==> #[trigger] w[k] >= 0);
        lemma_greedy_complete(opts[i], q, 0, w);
        lemma_fuzzy_rows_complete(opts, q, i);
        let x = (opts[i], score_of(greedy_idxs(opts[i], q, 0)->0), greedy_idxs(opts[i], q, 0)->0);
        assert(sort_rows_desc(fuzzy_rows(opts, q)).contains(x) && x.0 == opts[i]);
    }
}

/// The per-step rewards of an everywhere-contiguous alignment.
proof fn lemma_pair_sum_contiguous(idxs: Seq<int>)
    requires
        forall|k: int| 0 < k < idxs.len() ==> #[trigger] idxs[k] == idxs[k - 1] + 1,
    ensures
        idxs.len() >= 1 ==> pair_sum(idxs) == 5 * (idxs.len() - 1),
    decreases idxs.len(),
{
    if idxs.len() > 1 {
        let d = idxs.drop_last();
        assert(forall|k: int| 0 < k < d.len() ==> #[trigger] d[k] == d[k - 1] + 1);
        lemma_pair_sum_contiguous(d);
    }
}

/// The per-step rewards of a nowhere-contiguous alignment.
proof fn lemma_pair_sum_scattered(idxs: Seq<int>)
    requires
        forall|k: int| 0 < k < idxs.len() ==> #[trigger] idxs[k] != idxs[k - 1] + 1,
    ensures
        idxs.len() >= 1 ==> pair_sum(idxs) == idxs.len() - 1,
    decreases idxs.len(),
{
    if idxs.len() > 1 {
        let d = idxs.drop_last();
        assert(forall|k: int| 0 < k < d.len() ==> #[trigger] d[k] != d[k - 1] + 1);
        lemma_pair_sum_scattered(d);
    }
}

/// An exact contiguous prefix alignment of the query scores strictly
/// higher than an alignment of the same length that is nowhere
/// contiguous and does not start at the candidate's first character.
pub proof fn lemma_prefix_match_beats_scattered(a: Seq<int>, b: Seq<int>)
    requires
        a.len() == b.len(),
        a.len() >= 1,
        forall|k: int| 0 <= k < a.len() ==> #[trigger] a[k] == k,
        b[0] != 0,
        forall|k: int| 0 < k < b.len() ==> #[trigger] b[k] != b[k - 1] + 1,
    ensures
        score_of(a) > score_of(b),
{
    assert(forall|k: int| 0 < k < a.len() ==> #[trigger] a[k] == a[k - 1] + 1);
    lemma_pair_sum_contiguous(a);
    lemma_pair_sum_scattered(b);
    assert(score_of(a) == 12 + 5 * (a.len() - 1));
    assert(score_of(b) == 10 + (b.len() - 1));
}

/// The rows the fuzzy strategy retains, in candidate order: each
/// matching candidate with its score and matched offsets.
pub open spec fn fuzzy_rows(opts: Seq<Seq<char>>, q: Seq<char>) -> Seq<(Seq<char>, int, Seq<int>)>
    decreases opts.len(),
{
    if opts.len() == 0 {
        Seq::empty()
    } else {
        let rest = fuzzy_rows(opts.drop_last(), q);
        match greedy_idxs(opts.last(), q, 0) {
            Some(idxs) => rest.push((opts.last(), score_of(idxs), idxs)),
            None => rest,
        }
    }
}

/// Stable insertion of a row into a list already sorted by descending
/// score: the row goes in front of the first strictly lower-scored row.
pub open spec fn insert_row_desc(
    row: (Seq<char>, int, Seq<int>),
    rows: Seq<(Seq<char>, int, Seq<int>)>,
) -> Seq<(Seq<char>, int, Seq<int>)>
    decreases rows.len(),
{
    if rows.len() == 0 {
        seq![row]
    } else if row.1 >= rows[0].1 {
        seq![row] + rows
    } else {
        seq![rows[0]] + insert_row_desc(row, rows.drop_first())
    }
}

/// The rows sorted by descending score; rows of equal score keep their
/// original relative order (a stable sort).
pub open spec fn sort_rows_desc(rows: Seq<(Seq<char>, int, Seq<int>)>) -> Seq<
    (Seq<char>, int, Seq<int>),
>
    decreases rows.len(),
{
    if rows.len() == 0 {
        Seq::empty()
    } else {
        insert_row_desc(rows[0], sort_rows_desc(rows.drop_first()))
    }
}

/// The abstract row a scored match stands for: candidate text, score,
/// matched offsets.
pub open spec fn row_model(p: (MatchResult, u128)) -> (Seq<char>, int, Seq<int>) {
    (p.0.text@, p.1 as int, p.0@.1)
}

/// Inserting adds the new row and keeps the others.
pub proof fn lemma_insert_row_membership(
    row: (Seq<char>, int, Seq<int>),
    rows: Seq<(Seq<char>, int, Seq<int>)>,
)
    ensures
        forall|x: (Seq<char>, int, Seq<int>)|
            #[trigger] insert_row_desc(row, rows).contains(x) <==> (x == row || rows.contains(x)),
    decreases rows.len(),
{
    if rows.len() == 0 {
        assert(insert_row_desc(row, rows)[0] == row);
        assert(insert_row_desc(row, rows).contains(row));
    } else if row.1 >= rows[0].1 {
        assert forall|x: (Seq<char>, int, Seq<int>)|
            #[trigger] insert_row_desc(row, rows).contains(x) <==> (x == row || rows.contains(
            x,
        )) by {
            let s = seq![row] + rows;
            if s.contains(x) {
                let k = choose|k: int| 0 <= k < s.len() && s[k] == x;
                if k > 0 {
                    assert(rows[k - 1] == x);
                }
            }
            if x == row {
                assert(s[0] == x);
            }
            if rows.contains(x) {
                let k = choose|k: int| 0 <= k < rows.len() && rows[k] == x;
                assert(s[k + 1] == x);
            }
        }
    } else {
        lemma_insert_row_membership(row, rows.drop_first());
        let rec = insert_row_desc(row, rows.drop_first());
        let s = seq![rows[0]] + rec;
        assert forall|x: (Seq<char>, int, Seq<int>)|
            #[trigger] insert_row_desc(row, rows).contains(x) <==> (x == row || rows.contains(
            x,
        )) by {
            if s.contains(x) {
                let k = choose|k: int| 0 <= k < s.len() && s[k] == x;
                if k == 0 {
                    assert(rows[0] == x);
                } else {
                    assert(rec[k - 1] == x);
                    assert(rec.contains(x));
                    if x != row {
                        assert(rows.drop_first().contains(x));
                        let m = choose|m: int|
                            0 <= m < rows.drop_first().len() && rows.drop_first()[m] == x;
                        assert(rows[m + 1] == x);
                    }
                }
            }
            if x == row {
                assert(rec.contains(x));
                let k = choose|k: int| 0 <= k < rec.len() && rec[k] == x;
                assert(s[k + 1] == x);
            }
            if rows.contains(x) {
                let k = choose|k: int| 0 <= k < rows.len() && rows[k] == x;
                if k == 0 {
                    assert(s[0] == x);
                } else {
                    assert(rows.drop_first()[k - 1] == x);
                    assert(rows.drop_first().contains(x));
                    assert(rec.contains(x));
                    let m = choose|m: int| 0 <= m < rec.len() && rec[m] == x;
                    assert(s[m + 1] == x);
                }
            }
        }
    }
}

/// Sorting permutes: the sorted rows hold exactly the original rows.
pub proof fn lemma_sort_rows_membership(rows: Seq<(Seq<char>, int, Seq<int>)>)
    ensures
        forall|x: (Seq<char>, int, Seq<int>)|
            #[trigger] sort_rows_desc(rows).contains(x) <==> rows.contains(x),
    decreases rows.len(),
{
    if rows.len() > 0 {
        lemma_sort_rows_membership(rows.drop_first());
        lemma_insert_row_membership(rows[0], sort_rows_desc(rows.drop_first()));
        assert forall|x: (Seq<char>, int, Seq<int>)|
            #[trigger] sort_rows_desc(rows).contains(x) <==> rows.contains(x) by {
            if sort_rows_desc(rows).contains(x) {
                if x == rows[0] {
                    assert(rows.contains(x));
                } else {
                    assert(rows.drop_first().contains(x));
                    let m = choose|m: int|
                        0 <= m < rows.drop_first().len() && rows.drop_first()[m] == x;
                    assert(rows[m + 1] == x);
                }
            }
            if rows.contains(x) {
                let k = choose|k: int| 0 <= k < rows.len() && rows[k] == x;
                if k > 0 {
                    assert(rows.drop_first()[k - 1] == x);
                    assert(rows.drop_first().contains(x));
                }
            }
        }
    }
}

/// The rows are ordered by non-increasing score.
pub open spec fn sorted_desc(rows: Seq<(Seq<char>, int, Seq<int>)>) -> bool {
    forall|a: int, b: int| 0 <= a < b < rows.len() ==> (#[trigger] rows[a]).1 >= (#[trigger] rows[b]).1
}

/// Stable insertion keeps the rows ordered by non-increasing score.
proof fn lemma_insert_row_sorted(
    row: (Seq<char>, int, Seq<int>),
    rows: Seq<(Seq<char>, int, Seq<int>)>,
)
    requires
        sorted_desc(rows),
    ensures
        sorted_desc(insert_row_desc(row, rows)),
    decreases rows.len(),
{
    lemma_insert_row_membership(row, rows);
    let s = insert_row_desc(row, rows);
    if rows.len() == 0 {
    } else if row.1 >= rows[0].1 {
        assert forall|a: int, b: int| 0 <= a < b < s.len() implies (#[trigger] s[a]).1
            >= (#[trigger] s[b]).1 by {
            if a > 0 {
                assert(s[a] == rows[a - 1]);
            }
            assert(s[b] == rows[b - 1]);
            if a > 0 && a - 1 < b - 1 {
                assert(rows[a - 1].1 >= rows[b - 1].1);
            }
        }
    } else {
        let d = rows.drop_first();
        assert(sorted_desc(d)) by {
            assert forall|a: int, b: int| 0 <= a < b < d.len() implies (#[trigger] d[a]).1
                >= (#[trigger] d[b]).1 by {
                assert(d[a] == rows[a + 1]);
                assert(d[b] == rows[b + 1]);
            }
        }
        lemma_insert_row_sorted(row, d);
        lemma_insert_row_membership(row, d);
        let rec = insert_row_desc(row, d);
        assert forall|a: int, b: int| 0 <= a < b < s.len() implies (#[trigger] s[a]).1
            >= (#[trigger] s[b]).1 by {
            assert(s[b] == rec[b - 1]);
            assert(rec.contains(rec[b - 1]));
            if a == 0 {
                assert(s[a] == rows[0]);
                if rec[b - 1] == row {
                } else {
                    assert(d.contains(rec[b - 1]));
                    let m = choose|m: int| 0 <= m < d.len() && d[m] == rec[b - 1];
                    assert(rows[m + 1] == rec[b - 1]);
                }
            } else {
                assert(s[a] == rec[a - 1]);
            }
        }
    }
}

/// The fuzzy output order: scores never increase along the sorted rows.
pub proof fn lemma_sort_rows_sorted(rows: Seq<(Seq<char>, int, Seq<int>)>)
    ensures
        sorted_desc(sort_rows_desc(rows)),
    decreases rows.len(),
{
    if rows.len() > 0 {
        lemma_sort_rows_sorted(rows.drop_first());
        lemma_insert_row_sorted(rows[0], sort_rows_desc(rows.drop_first()));
    }
}

/// Every retained row's candidate comes from the candidate set, its
/// offsets are what the greedy scan chose, and its score is theirs.
pub proof fn lemma_fuzzy_rows_sound(opts: Seq<Seq<char>>, q: Seq<char>)
    ensures
        forall|x: (Seq<char>, int, Seq<int>)|
            #[trigger] fuzzy_rows(opts, q).contains(x) ==> opts.contains(x.0) && greedy_idxs(
                x.0,
                q,
                0,
            ) == Some(x.2) && x.1 == score_of(x.2),
    decreases opts.len(),
{
    if opts.len() > 0 {
        lemma_fuzzy_rows_sound(opts.drop_last(), q);
        let rest = fuzzy_rows(opts.drop_last(), q);
        assert forall|x: (Seq<char>, int, Seq<int>)|
            #[trigger] fuzzy_rows(opts, q).contains(x) implies opts.contains(x.0) && greedy_idxs(
            x.0,
            q,
            0,
        ) == Some(x.2) && x.1 == score_of(x.2) by {
            let s = fuzzy_rows(opts, q);
            let k = choose|k: int| 0 <= k < s.len() && s[k] == x;
            if k < rest.len() {
                assert(rest[k] == x);
                assert(rest.contains(x));
                assert(opts.drop_last().contains(x.0));
                let m = choose|m: int|
                    0 <= m < opts.drop_last().len() && opts.drop_last()[m] == x.0;
                assert(opts[m] == x.0);
            } else {
                assert(opts.contains(opts.last()));
            }
        }
    }
}

/// Every candidate the greedy scan accepts contributes a row.
pub proof fn lemma_fuzzy_rows_complete(opts: Seq<Seq<char>>, q: Seq<char>, i: int)
    requires
        0 <= i < opts.len(),
        greedy_idxs(opts[i], q, 0) is Some,
    ensures
        fuzzy_rows(opts, q).contains(
            (opts[i], score_of(greedy_idxs(opts[i], q, 0)->0), greedy_idxs(opts[i], q, 0)->0),
        ),
    decreases opts.len(),
{
    let rest = fuzzy_rows(opts.drop_last(), q);
    let s = fuzzy_rows(opts, q);
    if i == opts.len() - 1 {
        assert(opts.last() == opts[i]);
        assert(s[s.len() - 1] == (
            opts[i],
            score_of(greedy_idxs(opts[i], q, 0)->0),
            greedy_idxs(opts[i], q, 0)->0,
        ));
    } else {
        assert(opts.drop_last()[i] == opts[i]);
        lemma_fuzzy_rows_complete(opts.drop_last(), q, i);
        let x = (opts[i], score_of(greedy_idxs(opts[i], q, 0)->0), greedy_idxs(opts[i], q, 0)->0);
        let k = choose|k: int| 0 <= k < rest.len() && rest[k] == x;
        assert(s[k] == x);
    }
}

/// Splicing a row in at the first position whose score does not exceed
/// the row's own is exactly the stable descending insertion.
proof fn lemma_insert_row_at(
    row: (Seq<char>, int, Seq<int>),
    rows: Seq<(Seq<char>, int, Seq<int>)>,
    pos: int,
)
    requires
        0 <= pos <= rows.len(),
        forall|m: int| 0 <= m < pos ==> (#[trigger] rows[m]).1 > row.1,
        pos < rows.len() ==> row.1 >= rows[pos].1,
    ensures
        insert_row_desc(row, rows) == rows.subrange(0, pos) + seq![row] + rows.subrange(
            pos,
            rows.len() as int,
        ),
    decreases pos,
{
    if rows.len() == 0 {
        assert(rows.subrange(0, 0) + seq![row] + rows.subrange(0, 0) =~= seq![row]);
    } else if pos == 0 {
        assert(rows.subrange(0, 0) + seq![row] + rows.subrange(0, rows.len() as int) =~= seq![row]
            + rows);
    } else {
        let d = rows.drop_first();
        lemma_insert_row_at(row, d, pos - 1);
        assert(seq![rows[0]] + (d.subrange(0, pos - 1) + seq![row] + d.subrange(
            pos - 1,
            d.len() as int,
        )) =~= rows.subrange(0, pos) + seq![row] + rows.subrange(pos, rows.len() as int));
    }
}

/// Inserts a scored match into a vector kept sorted by descending
/// score, after any earlier row scoring at least as much.
fn insert_row(v: &mut Vec<(MatchResult, u128)>, row: (MatchResult, u128))
    ensures
        final(v)@.map_values(|p: (MatchResult, u128)| row_model(p)) == insert_row_desc(
            row_model(row),
            old(v)@.map_values(|p: (MatchResult, u128)| row_model(p)),
        ),
{
    let ghost rows0 = v@.map_values(|p: (MatchResult, u128)| row_model(p));
    let mut pos: usize = 0;
    while pos < v.len() && v[pos].1 > row.1
        invariant
            v@ == old(v)@,
            rows0 == v@.map_values(|p: (MatchResult, u128)| row_model(p)),
            pos <= v@.len(),
            forall|m: int| 0 <= m < pos ==> (#[trigger] rows0[m]).1 > row_model(row).1,
        decreases v@.len() - pos,
    {
        pos = pos + 1;
    }
    proof {
        lemma_insert_row_at(row_model(row), rows0, pos as int);
    }
    v.insert(pos, row);
    proof {
        assert(v@.map_values(|p: (MatchResult, u128)| row_model(p)) =~= rows0.subrange(
            0,
            pos as int,
        ) + seq![row_model(row)] + rows0.subrange(pos as int, rows0.len() as int));
    }
}

/// The fuzzy filterer over a fixed candidate set.
pub struct FuzzyFilterer {
    options: Vec<String>,
}

impl FuzzyFilterer {
    /// The candidate set, as character sequences in original order.
    pub closed spec fn opts(&self) -> Seq<Seq<char>> {
        self.options@.map_values(|s: String| s@)
    }

    /// A fuzzy filterer over the given candidates.
    pub fn new(options: Vec<String>) -> (r: Self)
        ensures
            r.opts() == options@.map_values(|s: String| s@),
    {
        FuzzyFilterer { options }
    }

    /// The greedy case-insensitive subsequence match of `pattern`
    /// against `text`: the score and matched offsets, or `None` when
    /// some pattern character cannot be matched in order.
    pub fn fuzzy_match(&self, text: &str, pattern: &str) -> (r: Option<(u128, Vec<usize>)>)
        ensures
            match r {
                Some(m) => greedy_idxs(text@, pattern@, 0) == Some(
                    m.1@.map_values(|u: usize| u as int),
                ) && m.0 as int == score_of(m.1@.map_values(|u: usize| u as int)),
                None => greedy_idxs(text@, pattern@, 0) is None,
            },
    {
        let tc = chars_of(text);
        let pc = chars_of(pattern);
        let lt = to_lower_chars(&tc);
        let tl = tc.len();
        let pl = pc.len();
        let mut idxs: Vec<usize> = Vec::new();
        let mut score: u128 = 0;
        let mut from: usize = 0;
        let mut k: usize = 0;
        proof {
            assert(pattern@.subrange(0, pl as int) =~= pattern@);
            let g = greedy_idxs(text@, pattern@, 0);
            let e = Seq::<int>::empty();
            if g is Some {
                assert(e + g->0 =~= g->0);
            }
            assert(idxs@.map_values(|u: usize| u as int) =~= e);
        }
        while k < pl
            invariant
                tc@ == text@,
                pc@ == pattern@,
                lt@ == crate::text::lower(text@),
                tl == tc@.len(),
                pl == pc@.len(),
                k <= pl,
                idxs@.len() == k as int,
                from <= tl,
                k == 0 ==> from == 0,
                k > 0 ==> from == idxs@.map_values(|u: usize| u as int).last() + 1,
                score as int == score_of(idxs@.map_values(|u: usize| u as int)),
                score as int <= 12 * (k as int),
                greedy_idxs(text@, pattern@, 0) == with_prefix(
                    idxs@.map_values(|u: usize| u as int),
                    greedy_idxs(text@, pattern@.subrange(k as int, pl as int), from as int),
                ),
            decreases pl - k,
        {
            let c = pc[k];
            let lc = to_lower_char(c);
            let mut j = from;
            while j < tl && lt[j] != lc
                invariant
                    lt@ == crate::text::lower(text@),
                    tl == text@.len(),
                    lc == lower_char(c),
                    from <= j <= tl,
                    forall|m: int| from <= m < j ==> lower_char(text@[m]) != lower_char(c),
                decreases tl - j,
            {
                j = j + 1;
            }
            proof {
                lemma_first_from_is(text@, c, from as int, j as int);
                let sub = pattern@.subrange(k as int, pl as int);
                assert(sub[0] == pattern@[k as int]);
                assert(sub.drop_first() =~= pattern@.subrange(k + 1, pl as int));
            }
            if j == tl {
                return None;
            }
            let ghost old_mapped = idxs@.map_values(|u: usize| u as int);
            let add: u128 = if k == 0 {
                if j == 0 {
                    12
                } else {
                    10
                }
            } else {
                if j == from {
                    5
                } else {
                    1
                }
            };
            idxs.push(j);
            proof {
                let new_mapped = idxs@.map_values(|u: usize| u as int);
                assert(new_mapped =~= old_mapped.push(j as int));
                lemma_score_push(old_mapped, j as int);
                let rest = greedy_idxs(
                    text@,
                    pattern@.subrange(k + 1, pl as int),
                    j + 1,
                );
                if rest is Some {
                    assert(old_mapped + (seq![j as int] + rest->0) =~= new_mapped + rest->0);
                }
            }
            score = score + add;
            from = j + 1;
            k = k + 1;
        }
        proof {
            let mapped = idxs@.map_values(|u: usize| u as int);
            assert(pattern@.subrange(pl as int, pl as int) =~= Seq::<char>::empty());
            assert(mapped + Seq::<int>::empty() =~= mapped);
        }
        Some((score, idxs))
    }

    /// The candidates matching `query`, sorted by descending score with
    /// ties in original order, each with the offsets that matched.
    pub fn filter_with_matches(&self, query: &str) -> (r: Vec<MatchResult>)
        ensures
            r@.map_values(|m: MatchResult| m@) == sort_rows_desc(
                fuzzy_rows(self.opts(), query@),
            ).map_values(|row: (Seq<char>, int, Seq<int>)| (row.0, row.2)),
    {
        let n = self.options.len();
        let mut rows: Vec<(MatchResult, u128)> = Vec::new();
        let mut i: usize = 0;
        proof {
            assert(rows@.map_values(|p: (MatchResult, u128)| row_model(p)) =~= fuzzy_rows(
                self.opts().subrange(0, 0),
                query@,
            ));
        }
        while i < n
            invariant
                n == self.options@.len(),
                i <= n,
                rows@.map_values(|p: (MatchResult, u128)| row_model(p)) == fuzzy_rows(
                    self.opts().subrange(0, i as int),
                    query@,
                ),
            decreases n - i,
        {
            let ghost pre = self.opts().subrange(0, i as int);
            let ghost post = self.opts().subrange(0, i + 1);
            proof {
                assert(post.drop_last() =~= pre);
                assert(post.last() == self.opts()[i as int]);
            }
            match self.fuzzy_match(self.options[i].as_str(), query) {
                Some(m) => {
                    let ghost mapped_old = rows@.map_values(
                        |p: (MatchResult, u128)| row_model(p),
                    );
                    let score = m.0;
                    let mr = MatchResult { text: self.options[i].clone(), matched_indices: m.1 };
                    rows.push((mr, score));
                    proof {
                        assert(rows@.map_values(|p: (MatchResult, u128)| row_model(p))
                            =~= mapped_old.push(row_model(rows@.last())));
                    }
                },
                None => {},
            }
            i = i + 1;
        }
        proof {
            assert(self.opts().subrange(0, n as int) =~= self.opts());
        }
        let ghost all = fuzzy_rows(self.opts(), query@);
        let mut sorted: Vec<(MatchResult, u128)> = Vec::new();
        proof {
            assert(rows@.map_values(|p: (MatchResult, u128)| row_model(p)).subrange(
                0,
                rows@.len() as int,
            ) =~= all);
            assert(all.subrange(all.len() as int, all.len() as int) =~= Seq::<
                (Seq<char>, int, Seq<int>),
            >::empty());
        }
        while rows.len() > 0
            invariant
                rows@.len() <= all.len(),
                rows@.map_values(|p: (MatchResult, u128)| row_model(p)) == all.subrange(
                    0,
                    rows@.len() as int,
                ),
                sorted@.map_values(|p: (MatchResult, u128)| row_model(p)) == sort_rows_desc(
                    all.subrange(rows@.len() as int, all.len() as int),
                ),
            decreases rows@.len(),
        {
            let ghost l = rows@.len() as int;
            let ghost pre_mapped = rows@.map_values(|p: (MatchResult, u128)| row_model(p));
            let row = match rows.pop() {
                Some(row) => row,
                None => {
                    proof {
                        assert(false);
                    }
                    unreached()
                },
            };
            proof {
                assert(rows@.map_values(|p: (MatchResult, u128)| row_model(p)) =~= all.subrange(
                    0,
                    l - 1,
                ));
                let tail = all.subrange(l - 1, all.len() as int);
                assert(tail[0] == all[l - 1]);
                assert(pre_mapped[l - 1] == row_model(row));
                assert(all.subrange(0, l)[l - 1] == all[l - 1]);
                assert(all[l - 1] == row_model(row));
                assert(tail.drop_first() =~= all.subrange(l, all.len() as int));
            }
            insert_row(&mut sorted, row);
        }
        proof {
            assert(all.subrange(0, all.len() as int) =~= all);
        }
        let mut r: Vec<MatchResult> = Vec::new();
        let ghost target = sort_rows_desc(all);
        proof {
            assert(r@.map_values(|m: MatchResult| m@) =~= target.map_values(
                |row: (Seq<char>, int, Seq<int>)| (row.0, row.2),
            ).subrange(0, 0));
            assert(sorted@.map_values(|p: (MatchResult, u128)| row_model(p)) == target.subrange(
                0,
                target.len() as int,
            ));
        }
        while sorted.len() > 0
            invariant
                r@.len() + sorted@.len() == target.len(),
                sorted@.map_values(|p: (MatchResult, u128)| row_model(p)) == target.subrange(
                    r@.len() as int,
                    target.len() as int,
                ),
                r@.map_values(|m: MatchResult| m@) == target.map_values(
                    |row: (Seq<char>, int, Seq<int>)| (row.0, row.2),
                ).subrange(0, r@.len() as int),
            decreases sorted@.len(),
        {
            let ghost k = r@.len() as int;
            let ghost mapped_r = r@.map_values(|m: MatchResult| m@);
            let ghost pre_sorted = sorted@;
            let p = sorted.remove(0);
            proof {
                let tail = target.subrange(k, target.len() as int);
                assert(tail[0] == target[k]);
                assert(pre_sorted.map_values(|pp: (MatchResult, u128)| row_model(pp))[0]
                    == row_model(pre_sorted[0]));
                assert(row_model(p) == target[k]);
                assert(p.0@ == (target[k].0, target[k].2));
                assert(sorted@ =~= pre_sorted.subrange(1, pre_sorted.len() as int));
                assert forall|m: int|
                    0 <= m < sorted@.len() implies row_model(#[trigger] sorted@[m]) == target[k + 1
                    + m] by {
                    assert(sorted@[m] == pre_sorted[m + 1]);
                    assert(pre_sorted.map_values(|pp: (MatchResult, u128)| row_model(pp))[m + 1]
                        == row_model(pre_sorted[m + 1]));
                    assert(tail[m + 1] == target[k + 1 + m]);
                }
                assert(sorted@.map_values(|pp: (MatchResult, u128)| row_model(pp)) =~= target
                    .subrange(k + 1, target.len() as int));
            }
            r.push(p.0);
            proof {
                assert(r@.map_values(|m: MatchResult| m@) =~= mapped_r.push(
                    (target[k].0, target[k].2),
                ));
                assert(target.map_values(|row: (Seq<char>, int, Seq<int>)| (row.0, row.2))
                    .subrange(0, k + 1) =~= mapped_r.push((target[k].0, target[k].2)));
            }
        }
        proof {
            assert(target.map_values(|row: (Seq<char>, int, Seq<int>)| (row.0, row.2)).subrange(
                0,
                target.len() as int,
            ) =~= target.map_values(|row: (Seq<char>, int, Seq<int>)| (row.0, row.2)));
        }
        r
    }
}

impl crate::filterer::Filterer for FuzzyFilterer {
    closed spec fn options(&self) -> Seq<Seq<char>> {
        self.opts()
    }

    /// The matching candidates in descending score order, without their
    /// traces.
    fn filter(&self, query: &str) -> (r: Vec<String>)
        ensures
            r@.map_values(|s: String| s@) == sort_rows_desc(
                fuzzy_rows(self.opts(), query@),
            ).map_values(|row: (Seq<char>, int, Seq<int>)| row.0),
    {
        let ghost target = sort_rows_desc(fuzzy_rows(self.opts(), query@));
        let mut results = self.filter_with_matches(query);
        let mut r: Vec<String> = Vec::new();
        proof {
            assert(r@.map_values(|s: String| s@) =~= target.map_values(
                |row: (Seq<char>, int, Seq<int>)| row.0,
            ).subrange(0, 0));
            let pairs = target.map_values(|row: (Seq<char>, int, Seq<int>)| (row.0, row.2));
            assert(pairs.subrange(0, target.len() as int) =~= pairs);
        }
        while results.len() > 0
            invariant
                r@.len() + results@.len() == target.len(),
                results@.map_values(|m: MatchResult| m@) == target.map_values(
                    |row: (Seq<char>, int, Seq<int>)| (row.0, row.2),
                ).subrange(r@.len() as int, target.len() as int),
                r@.map_values(|s: String| s@) == target.map_values(
                    |row: (Seq<char>, int, Seq<int>)| row.0,
                ).subrange(0, r@.len() as int),
            decreases results@.len(),
        {
            let ghost k = r@.len() as int;
            let ghost mapped_r = r@.map_values(|s: String| s@);
            let ghost pre = results@;
            let ghost pairs = target.map_values(|row: (Seq<char>, int, Seq<int>)| (row.0, row.2));
            let m = results.remove(0);
            proof {
                assert(pre.map_values(|mm: MatchResult| mm@)[0] == pre[0]@);
                assert(pairs.subrange(k, target.len() as int)[0] == pairs[k]);
                assert(m@ == (target[k].0, target[k].2));
                assert(results@ =~= pre.subrange(1, pre.len() as int));
                assert forall|i: int|
                    0 <= i < results@.len() implies (#[trigger] results@[i])@ == pairs[k + 1
                    + i] by {
                    assert(results@[i] == pre[i + 1]);
                    assert(pre.map_values(|mm: MatchResult| mm@)[i + 1] == pre[i + 1]@);
                    assert(pairs.subrange(k, target.len() as int)[i + 1] == pairs[k + 1 + i]);
                }
                assert(results@.map_values(|mm: MatchResult| mm@) =~= pairs.subrange(
                    k + 1,
                    target.len() as int,
                ));
            }
            r.push(m.text);
            proof {
                assert(r@.map_values(|s: String| s@) =~= mapped_r.push(target[k].0));
                assert(target.map_values(|row: (Seq<char>, int, Seq<int>)| row.0).subrange(
                    0,
                    k + 1,
                ) =~= mapped_r.push(target[k].0));
            }
        }
        proof {
            let texts = target.map_values(|row: (Seq<char>, int, Seq<int>)| row.0);
            assert(texts.subrange(0, target.len() as int) =~= texts);
            lemma_sort_rows_membership(fuzzy_rows(self.opts(), query@));
            lemma_fuzzy_rows_sound(self.opts(), query@);
            assert forall|i: int| 0 <= i < r@.len() implies self.options().contains(
                #[trigger] r@[i]@,
            ) by {
                assert(r@.map_values(|s: String| s@)[i] == r@[i]@);
                assert(r@[i]@ == texts[i]);
                assert(texts[i] == target[i].0);
                assert(target.contains(target[i]));
                assert(fuzzy_rows(self.opts(), query@).contains(target[i]));
            }
        }
        r
    }
}

} // verus!
