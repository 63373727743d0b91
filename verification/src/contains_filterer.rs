//! The substring filtering strategy: a candidate is retained when its
//! lower-cased form contains the lower-cased query as a contiguous
//! substring. Ordering is stable: the original candidate order is kept.
//! The trace marks exactly the span of the first such occurrence.

use vstd::prelude::*;
use crate::fuzzy_filterer::MatchResult;
use crate::text::chars_of;
use crate::text::contains_seq;
use crate::text::find_sub;
use crate::text::first_match_from;
use crate::text::is_match_at;
use crate::text::lower;
use crate::text::to_lower_chars;

verus! {

/// The candidates retained by the substring test, in original order.
pub open spec fn contains_matches(opts: Seq<Seq<char>>, q: Seq<char>) -> Seq<Seq<char>> {
    opts.filter(|o: Seq<char>| contains_seq(lower(o), lower(q)))
}

/// The highlight trace of a retained candidate: the offsets of the
/// first occurrence of the lower-cased query in its lower-cased form.
pub open spec fn contains_trace(o: Seq<char>, q: Seq<char>) -> Seq<int> {
    Seq::new(q.len(), |k: int| first_match_from(lower(o), lower(q), 0) + k)
}

/// Every candidate the substring filter retains comes from the
/// candidate set, and its lower-cased form contains the lower-cased
/// query as a contiguous substring.
pub proof fn lemma_contains_filter_sound(opts: Seq<Seq<char>>, q: Seq<char>)
    ensures
        forall|x: Seq<char>|
            #[trigger] contains_matches(opts, q).contains(x) ==> opts.contains(x) && contains_seq(
                lower(x),
                lower(q),
            ),
    decreases opts.len(),
{
    if opts.len() > 0 {
        reveal_with_fuel(Seq::<_>::filter, 2);
        let pre = opts.drop_last();
        lemma_contains_filter_sound(pre, q);
        let fpre = contains_matches(pre, q);
        let fall = contains_matches(opts, q);
        assert forall|x: Seq<char>|
            #[trigger] fall.contains(x) implies opts.contains(x) && contains_seq(
            lower(x),
            lower(q),
        ) by {
            let k = choose|k: int| 0 <= k < fall.len() && fall[k] == x;
            if k < fpre.len() {
                assert(fpre[k] == x);
                assert(fpre.contains(x));
                let m = choose|m: int| 0 <= m < pre.len() && pre[m] == x;
                assert(opts[m] == x);
            } else {
                assert(x == opts.last());
                assert(opts.contains(opts.last()));
            }
        }
    }
}

/// The substring filterer over a fixed candidate set.
pub struct ContainsFilterer {
    options: Vec<String>,
}

impl ContainsFilterer {
    /// The candidate set, as character sequences in original order.
    pub closed spec fn opts(&self) -> Seq<Seq<char>> {
        self.options@.map_values(|s: String| s@)
    }

    /// A substring filterer over the given candidates.
    pub fn new(options: Vec<String>) -> (r: Self)
        ensures
            r.opts() == options@.map_values(|s: String| s@),
    {
        ContainsFilterer { options }
    }

    /// The candidates retained by the substring test, in original
    /// order, each with the span of the first occurrence as its trace.
    pub fn filter_with_matches(&self, query: &str) -> (r: Vec<MatchResult>)
        ensures
            r@.map_values(|m: MatchResult| m@) == contains_matches(self.opts(), query@)
                .map_values(|o: Seq<char>| (o, contains_trace(o, query@))),
    {
        let qc = chars_of(query);
        let lq = to_lower_chars(&qc);
        let ql = qc.len();
        let n = self.options.len();
        let mut r: Vec<MatchResult> = Vec::new();
        let mut i: usize = 0;
        proof {
            assert(self.opts().subrange(0, 0) =~= Seq::<Seq<char>>::empty());
            assert(r@.map_values(|m: MatchResult| m@) =~= contains_matches(
                self.opts().subrange(0, 0),
                query@,
            ).map_values(|o: Seq<char>| (o, contains_trace(o, query@))));
        }
        while i < n
            invariant
                n == self.options@.len(),
                i <= n,
                qc@ == query@,
                lq@ == lower(query@),
                ql == query@.len(),
                r@.map_values(|m: MatchResult| m@) == contains_matches(
                    self.opts().subrange(0, i as int),
                    query@,
                ).map_values(|o: Seq<char>| (o, contains_trace(o, query@))),
            decreases n - i,
        {
            let ghost pre = self.opts().subrange(0, i as int);
            let ghost post = self.opts().subrange(0, i + 1);
            let ghost o = self.opts()[i as int];
            proof {
                assert(post.drop_last() =~= pre);
                assert(post.last() == o);
            }
            let tc = chars_of(self.options[i].as_str());
            let lt = to_lower_chars(&tc);
            match find_sub(&lt, &lq) {
                Some(pos) => {
                    proof {
                        reveal_with_fuel(Seq::<_>::filter, 2);
                        crate::text::lemma_first_match_from(lt@, lq@, 0);
                        assert(is_match_at(lower(o), lower(query@), pos as int));
                        assert(contains_seq(lower(o), lower(query@)));
                        assert(contains_matches(post, query@) == contains_matches(
                            pre,
                            query@,
                        ).push(o));
                    }
                    let tln = lt.len();
                    let mut trace: Vec<usize> = Vec::new();
                    let mut k: usize = 0;
                    proof {
                        assert(lower(o).len() == o.len());
                        assert(pos + ql <= tln);
                    }
                    while k < ql
                        invariant
                            k <= ql,
                            pos + ql <= tln,
                            trace@.len() == k as int,
                            forall|m: int| 0 <= m < k ==> #[trigger] trace@[m] == pos + m,
                        decreases ql - k,
                    {
                        trace.push(pos + k);
                        k = k + 1;
                    }
                    let ghost mapped_old = r@.map_values(|m: MatchResult| m@);
                    let mr = MatchResult {
                        text: self.options[i].clone(),
                        matched_indices: trace,
                    };
                    proof {
                        assert(mr@.1 =~= contains_trace(o, query@));
                        assert(mr@ == (o, contains_trace(o, query@)));
                    }
                    r.push(mr);
                    proof {
                        assert(r@.map_values(|m: MatchResult| m@) =~= mapped_old.push(
                            (o, contains_trace(o, query@)),
                        ));
                        assert(contains_matches(post, query@).map_values(
                            |x: Seq<char>| (x, contains_trace(x, query@)),
                        ) =~= contains_matches(pre, query@).map_values(
                            |x: Seq<char>| (x, contains_trace(x, query@)),
                        ).push((o, contains_trace(o, query@))));
                    }
                },
                None => {
                    proof {
                        reveal_with_fuel(Seq::<_>::filter, 2);
                        assert(!contains_seq(lower(o), lower(query@)));
                        assert(contains_matches(post, query@) == contains_matches(pre, query@));
                    }
                },
            }
            i = i + 1;
        }
        proof {
            assert(self.opts().subrange(0, n as int) =~= self.opts());
        }
        r
    }
}

impl crate::filterer::Filterer for ContainsFilterer {
    closed spec fn options(&self) -> Seq<Seq<char>> {
        self.opts()
    }

    /// The retained candidates in original order, without their traces.
    fn filter(&self, query: &str) -> (r: Vec<String>)
        ensures
            r@.map_values(|s: String| s@) == contains_matches(self.opts(), query@),
    {
        let ghost target = contains_matches(self.opts(), query@);
        let ghost pairs = target.map_values(|o: Seq<char>| (o, contains_trace(o, query@)));
        let mut results = self.filter_with_matches(query);
        let mut r: Vec<String> = Vec::new();
        proof {
            assert(r@.map_values(|s: String| s@) =~= target.subrange(0, 0));
            assert(pairs.subrange(0, target.len() as int) =~= pairs);
        }
        while results.len() > 0
            invariant
                r@.len() + results@.len() == target.len(),
                results@.map_values(|m: MatchResult| m@) == pairs.subrange(
                    r@.len() as int,
                    target.len() as int,
                ),
                r@.map_values(|s: String| s@) == target.subrange(0, r@.len() as int),
                pairs == target.map_values(|o: Seq<char>| (o, contains_trace(o, query@))),
            decreases results@.len(),
        {
            let ghost k = r@.len() as int;
            let ghost mapped_r = r@.map_values(|s: String| s@);
            let ghost preres = results@;
            let m = results.remove(0);
            proof {
                assert(preres.map_values(|mm: MatchResult| mm@)[0] == preres[0]@);
                assert(pairs.subrange(k, target.len() as int)[0] == pairs[k]);
                assert(m@ == (target[k], contains_trace(target[k], query@)));
                assert(results@ =~= preres.subrange(1, preres.len() as int));
                assert forall|x: int|
                    0 <= x < results@.len() implies (#[trigger] results@[x])@ == pairs[k + 1
                    + x] by {
                    assert(results@[x] == preres[x + 1]);
                    assert(preres.map_values(|mm: MatchResult| mm@)[x + 1] == preres[x + 1]@);
                    assert(pairs.subrange(k, target.len() as int)[x + 1] == pairs[k + 1 + x]);
                }
                assert(results@.map_values(|mm: MatchResult| mm@) =~= pairs.subrange(
                    k + 1,
                    target.len() as int,
                ));
            }
            r.push(m.text);
            proof {
                assert(r@.map_values(|s: String| s@) =~= mapped_r.push(target[k]));
                assert(target.subrange(0, k + 1) =~= mapped_r.push(target[k]));
            }
        }
        proof {
            assert(target.subrange(0, target.len() as int) =~= target);
            lemma_contains_filter_sound(self.opts(), query@);
            assert forall|i: int| 0 <= i < r@.len() implies self.options().contains(
                #[trigger] r@[i]@,
            ) by {
                assert(r@.map_values(|s: String| s@)[i] == r@[i]@);
                assert(r@[i]@ == target[i]);
                assert(target.contains(target[i]));
            }
        }
        r
    }
}

} // verus!
