//! What holds of every run: the diagnostics are capped, ordered by where they
//! start, and are exactly those the lexer and the parser produced.
use vstd::prelude::*;
use vstd::multiset::Multiset;
use crate::diag::{DiagModel, MAX_DIAGNOSTICS};
use crate::parse_spec::{cap, insert_by_start, sort_by_start, spec_diagnostics, spec_parse_state, ParseOptions};

verus! {

/// The diagnostics are ordered by start offset.
pub open spec fn sorted_by_start(s: Seq<DiagModel>) -> bool {
    forall|i: int, j: int| 0 <= i < j < s.len() ==> s[i].span.start <= s[j].span.start
}

/// Every diagnostic of `s` starts no later than `b`.
pub open spec fn starts_at_most(s: Seq<DiagModel>, b: usize) -> bool {
    forall|i: int| 0 <= i < s.len() ==> s[i].span.start <= b
}

proof fn lemma_insert_bound(s: Seq<DiagModel>, d: DiagModel, b: usize)
    requires
        starts_at_most(s, b),
        d.span.start <= b,
    ensures
        starts_at_most(insert_by_start(s, d), b),
    decreases s.len(),
{
    if s.len() == 0 || s.last().span.start <= d.span.start {
    } else {
        lemma_insert_bound(s.drop_last(), d, b);
    }
}

proof fn lemma_insert_sorted(s: Seq<DiagModel>, d: DiagModel)
    requires
        sorted_by_start(s),
    ensures
        sorted_by_start(insert_by_start(s, d)),
        insert_by_start(s, d).to_multiset() =~= s.to_multiset().insert(d),
    decreases s.len(),
{
    broadcast use vstd::seq_lib::group_to_multiset_ensures;
    if s.len() == 0 || s.last().span.start <= d.span.start {
    } else {
        let t = s.drop_last();
        lemma_insert_sorted(t, d);
        lemma_insert_bound(t, d, s.last().span.start);
        assert(s =~= t.push(s.last()));
    }
}

proof fn lemma_sort(s: Seq<DiagModel>)
    ensures
        sorted_by_start(sort_by_start(s)),
        sort_by_start(s).to_multiset() =~= s.to_multiset(),
    decreases s.len(),
{
    broadcast use vstd::seq_lib::group_to_multiset_ensures;
    if s.len() > 0 {
        lemma_sort(s.drop_last());
        lemma_insert_sorted(sort_by_start(s.drop_last()), s.last());
        assert(s =~= s.drop_last().push(s.last()));
    }
}

/// The diagnostics of a run are at most `MAX_DIAGNOSTICS`, ordered by start
/// offset; they are the first of all the diagnostics the lexer and the parser
/// made, and when those number no more than the cap, they are all of them.
pub proof fn law_diagnostics_sorted_and_complete(src: Seq<u8>, o: ParseOptions, keep: bool)
    ensures
        ({
            let p = spec_parse_state(src, o, keep);
            let all = p.lex.diags + p.extra;
            let d = spec_diagnostics(src, o, keep);
            &&& d.len() <= MAX_DIAGNOSTICS
            &&& sorted_by_start(d)
            &&& d == cap(sort_by_start(all))
            &&& sort_by_start(all).to_multiset() == all.to_multiset()
            &&& all.len() <= MAX_DIAGNOSTICS ==> d.to_multiset() == all.to_multiset()
        }),
{
    let p = spec_parse_state(src, o, keep);
    let all = p.lex.diags + p.extra;
    lemma_sort(all);
    let s = sort_by_start(all);
    broadcast use vstd::seq_lib::group_to_multiset_ensures;
    assert(s.to_multiset().len() == all.to_multiset().len());
}

} // verus!
