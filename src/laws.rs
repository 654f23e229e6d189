//! Properties of the library that relate several of its functions, each
//! proved from the contracts that those functions state.
use vstd::prelude::*;
use crate::ranking::{insert_ranked, matches_of, rank_le, ranked, results_of, score_of, search_payload, Match};
use crate::storage::{decode_spec, parse_entries, u64_at};
use crate::table::{Entry, FilterTable};
use crate::text::{lemma_lex_total, lemma_lex_trans};

verus! {

broadcast use vstd::seq_lib::group_seq_properties, vstd::seq_lib::group_to_multiset_ensures;

/// Every pair of matches, the earlier one ranks no lower than the later one.
pub open spec fn in_rank_order(s: Seq<Match>) -> bool {
    forall|i: int, j: int| 0 <= i < j < s.len() ==> rank_le(#[trigger] s[i], #[trigger] s[j])
}

proof fn lemma_rank_le_total(a: Match, b: Match)
    ensures
        rank_le(a, b) || rank_le(b, a),
{
    lemma_lex_total(a.0, b.0);
}

proof fn lemma_rank_le_trans(a: Match, b: Match, c: Match)
    requires
        rank_le(a, b),
        rank_le(b, c),
    ensures
        rank_le(a, c),
{
    if a.1 == b.1 && b.1 == c.1 {
        lemma_lex_trans(a.0, b.0, c.0);
    }
}

/// Inserting adds exactly the inserted match.
proof fn lemma_insert_ranked_multiset(x: Match, s: Seq<Match>)
    ensures
        insert_ranked(x, s).to_multiset() == s.to_multiset().insert(x),
    decreases s.len(),
{
    if s.len() == 0 {
        assert(seq![x] =~= Seq::<Match>::empty().push(x));
    } else if rank_le(x, s[0]) {
        vstd::seq_lib::lemma_multiset_commutative(seq![x], s);
        assert(seq![x] =~= Seq::<Match>::empty().push(x));
    } else {
        lemma_insert_ranked_multiset(x, s.drop_first());
        vstd::seq_lib::lemma_multiset_commutative(seq![s[0]], insert_ranked(x, s.drop_first()));
        vstd::seq_lib::lemma_multiset_commutative(seq![s[0]], s.drop_first());
        assert(seq![s[0]] + s.drop_first() =~= s);
    }
}

/// Inserting into a list in rank order keeps it in rank order.
proof fn lemma_insert_ranked_ordered(x: Match, s: Seq<Match>)
    requires
        in_rank_order(s),
    ensures
        in_rank_order(insert_ranked(x, s)),
    decreases s.len(),
{
    let r = insert_ranked(x, s);
    if s.len() == 0 {
    } else if rank_le(x, s[0]) {
        assert forall|i: int, j: int| 0 <= i < j < r.len() implies rank_le(#[trigger] r[i], #[trigger] r[j]) by {
            if i == 0 {
                if j > 1 {
                    lemma_rank_le_trans(x, s[0], s[j - 1]);
                }
            } else {
                assert(r[i] == s[i - 1] && r[j] == s[j - 1]);
            }
        }
    } else {
        let t = s.drop_first();
        lemma_insert_ranked_ordered(x, t);
        lemma_insert_ranked_multiset(x, t);
        let u = insert_ranked(x, t);
        lemma_rank_le_total(x, s[0]);
        assert forall|i: int, j: int| 0 <= i < j < r.len() implies rank_le(#[trigger] r[i], #[trigger] r[j]) by {
            if i == 0 {
                let y = u[j - 1];
                assert(u.to_multiset().count(y) > 0);
                assert(t.to_multiset().insert(x).count(y) > 0);
                if y != x {
                    assert(t.contains(y));
                    let k = choose|k: int| 0 <= k < t.len() && t[k] == y;
                    assert(s[k + 1] == y);
                }
            } else {
                assert(r[i] == u[i - 1] && r[j] == u[j - 1]);
            }
        }
    }
}

/// Ranking reorders the matches, and puts them in rank order.
pub proof fn lemma_ranked(s: Seq<Match>)
    ensures
        ranked(s).to_multiset() == s.to_multiset(),
        in_rank_order(ranked(s)),
    decreases s.len(),
{
    if s.len() > 0 {
        lemma_ranked(s.drop_last());
        lemma_insert_ranked_multiset(s.last(), ranked(s.drop_last()));
        lemma_insert_ranked_ordered(s.last(), ranked(s.drop_last()));
        assert(s.drop_last().push(s.last()) =~= s);
    }
}

proof fn lemma_matches_positive(es: Seq<Entry>, terms: Set<Seq<char>>)
    ensures
        forall|i: int| 0 <= i < matches_of(es, terms).len() ==> #[trigger] matches_of(es, terms)[i].1 > 0,
    decreases es.len(),
{
    if es.len() > 0 {
        let rest = matches_of(es.drop_last(), terms);
        lemma_matches_positive(es.drop_last(), terms);
        assert forall|i: int| 0 <= i < matches_of(es, terms).len() implies #[trigger] matches_of(
            es,
            terms,
        )[i].1 > 0 by {
            if i < rest.len() {
                assert(matches_of(es, terms)[i] == rest[i]);
            }
        }
    }
}

/// No returned match has a score of zero.
pub proof fn results_have_positive_scores(es: Seq<Entry>, q: Seq<char>)
    ensures
        forall|i: int| 0 <= i < results_of(es, q).len() ==> #[trigger] results_of(es, q)[i].1 > 0,
{
    let m = matches_of(es, crate::text::query_terms(q));
    lemma_ranked(m);
    lemma_matches_positive(es, crate::text::query_terms(q));
    assert forall|i: int| 0 <= i < results_of(es, q).len() implies #[trigger] results_of(es, q)[i].1 > 0 by {
        let y = ranked(m)[i];
        assert(ranked(m).to_multiset().count(y) > 0);
        assert(m.contains(y));
    }
}

/// Of two returned matches, the earlier has the higher score, or the same
/// score and an identifier no later in lexical order.
pub proof fn results_are_in_rank_order(es: Seq<Entry>, q: Seq<char>)
    ensures
        forall|i: int, j: int|
            0 <= i < j < results_of(es, q).len() ==> {
                let a = #[trigger] results_of(es, q)[i];
                let b = #[trigger] results_of(es, q)[j];
                a.1 > b.1 || (a.1 == b.1 && crate::text::lex_le(a.0, b.0))
            },
{
    lemma_ranked(matches_of(es, crate::text::query_terms(q)));
}

/// The payload is a function of the table's contents and the query: tables
/// with the same documents answer a query with the same bytes.
pub proof fn search_is_deterministic(t1: FilterTable, t2: FilterTable, q: Seq<char>)
    requires
        t1@ == t2@,
    ensures
        search_payload(t1@, q) == search_payload(t2@, q),
{
}

/// Reading a blob back gives every document the score that its filter earned
/// before: a document scores positively on any non-empty set of terms that
/// its filter accepts.
pub proof fn round_trip_keeps_scores(t: FilterTable, blob: Seq<u8>, i: int, terms: Set<Seq<char>>)
    requires
        decode_spec(blob) == Some(t@),
        0 <= i < t@.len(),
        terms.finite(),
        terms.len() > 0,
        terms.subset_of(t@[i].1),
    ensures
        decode_spec(blob) matches Some(es) && score_of(es[i].1, terms) > 0,
{
    assert(terms.intersect(t@[i].1) =~= terms);
}

/// A proper prefix of a blob that parses does not parse.
proof fn lemma_prefix_does_not_parse(b: Seq<u8>, c: Seq<u8>, pos: int, k: nat)
    requires
        c.len() < b.len(),
        c == b.take(c.len() as int),
        parse_entries(b, pos, k) is Some,
    ensures
        parse_entries(c, pos, k) is None,
    decreases k,
{
    if k > 0 && pos + 8 <= c.len() {
        assert(c.subrange(pos, pos + 8) =~= b.subrange(pos, pos + 8));
        let ide = pos + 8 + u64_at(b, pos);
        if ide + 8 <= c.len() {
            assert(c.subrange(ide, ide + 8) =~= b.subrange(ide, ide + 8));
            let fe = ide + 8 + u64_at(b, ide);
            if fe <= c.len() {
                assert(c.subrange(pos + 8, ide) =~= b.subrange(pos + 8, ide));
                assert(c.subrange(ide + 8, fe) =~= b.subrange(ide + 8, fe));
                lemma_prefix_does_not_parse(b, c, fe, (k - 1) as nat);
            }
        }
    }
}

/// A truncated blob is refused: where a blob decodes, none of its proper
/// prefixes does.
pub proof fn truncated_blob_is_refused(b: Seq<u8>, n: int)
    requires
        decode_spec(b) is Some,
        0 <= n < b.len(),
    ensures
        decode_spec(b.take(n)) is None,
{
    let c = b.take(n);
    if n >= 8 {
        assert(c.subrange(0, 8) =~= b.subrange(0, 8));
        assert(c == b.take(c.len() as int));
        lemma_prefix_does_not_parse(b, c, 8, u64_at(b, 0));
    }
}

} // verus!
