//! The query engine: scoring every document against the query's terms,
//! keeping the positive scores, ranking them and encoding the result.
use vstd::prelude::*;
use bloomfilter::Bloom;
use crate::filter::{accepted_terms, filter_bits, filter_check};
use crate::table::{Entry, FilterTable};
use crate::text::{id_le, lex_le, normalize_query, query_terms, strs};

verus! {

broadcast use vstd::seq_lib::group_seq_properties;

/// A scored document: its identifier and the number of query terms it matched.
pub type Match = (Seq<char>, nat);

/// Count semantics: the number of query terms that the filter accepts.
pub open spec fn score_of(accepted: Set<Seq<char>>, terms: Set<Seq<char>>) -> nat {
    terms.intersect(accepted).len()
}

/// The entries with a positive score, in table order.
pub open spec fn matches_of(es: Seq<Entry>, terms: Set<Seq<char>>) -> Seq<Match>
    decreases es.len(),
{
    if es.len() == 0 {
        Seq::empty()
    } else {
        let rest = matches_of(es.drop_last(), terms);
        let s = score_of(es.last().1, terms);
        if s > 0 {
            rest.push((es.last().0, s))
        } else {
            rest
        }
    }
}

/// `a` ranks no lower than `b`: a higher score, or the same score and an
/// identifier no later in lexical order.
pub open spec fn rank_le(a: Match, b: Match) -> bool {
    a.1 > b.1 || (a.1 == b.1 && lex_le(a.0, b.0))
}

/// Inserts `x` before the first element that it ranks no lower than.
pub open spec fn insert_ranked(x: Match, s: Seq<Match>) -> Seq<Match>
    decreases s.len(),
{
    if s.len() == 0 {
        seq![x]
    } else if rank_le(x, s[0]) {
        seq![x] + s
    } else {
        seq![s[0]] + insert_ranked(x, s.drop_first())
    }
}

/// The matches in rank order: best score first, ties by identifier.
pub open spec fn ranked(s: Seq<Match>) -> Seq<Match>
    decreases s.len(),
{
    if s.len() == 0 {
        Seq::empty()
    } else {
        insert_ranked(s.last(), ranked(s.drop_last()))
    }
}

/// The ranked matches of a query against a table.
pub open spec fn results_of(es: Seq<Entry>, q: Seq<char>) -> Seq<Match> {
    ranked(matches_of(es, query_terms(q)))
}

/// The JSON text of a list of (identifier, score) pairs, if it can be encoded.
pub uninterp spec fn json_of(ms: Seq<Match>) -> Option<Seq<char>>;

/// The payload of an empty result.
pub open spec fn empty_payload() -> Seq<char> {
    seq!['[', ']']
}

/// The encoded result, or the empty result where encoding failed.
pub open spec fn payload_of(encoded: Option<Seq<char>>) -> Seq<char> {
    match encoded {
        Some(s) => s,
        None => empty_payload(),
    }
}

/// What `search` returns for a query against a table.
pub open spec fn search_payload(es: Seq<Entry>, q: Seq<char>) -> Seq<char> {
    payload_of(json_of(results_of(es, q)))
}

/// The scored matches that a list of executable pairs stands for.
pub open spec fn match_views(ms: Seq<(String, u64)>) -> Seq<Match> {
    ms.map_values(|m: (String, u64)| (m.0@, m.1 as nat))
}

/// Relies on `serde_json::to_string`: the JSON array of `[identifier, score]`
/// pairs, which depends on the pairs alone; an empty list is `[]`.
#[verifier::external_body]
fn encode_json(ms: &Vec<(String, u64)>) -> (r: Option<String>)
    ensures
        r is Some <==> json_of(match_views(ms@)) is Some,
        r matches Some(s) ==> json_of(match_views(ms@)) == Some(s@),
        ms@.len() == 0 ==> r is Some,
        r matches Some(s) ==> (ms@.len() == 0 ==> s@ == empty_payload()),
{
    serde_json::to_string(ms).ok()
}

/// The number of distinct `terms` that `filter` accepts.
pub fn score(filter: &Bloom<String>, terms: &Vec<String>) -> (r: u64)
    requires
        filter_bits(*filter) > 0,
        strs(terms@).no_duplicates(),
    ensures
        r as nat == score_of(accepted_terms(*filter), strs(terms@).to_set()),
{
    let ghost acc = accepted_terms(*filter);
    let ghost ts = strs(terms@);
    let mut count: u64 = 0;
    let mut i: usize = 0;
    assert(ts.take(0).to_set().intersect(acc) =~= Set::<Seq<char>>::empty());
    while i < terms.len()
        invariant
            i <= terms.len(),
            ts == strs(terms@),
            ts.no_duplicates(),
            acc == accepted_terms(*filter),
            filter_bits(*filter) > 0,
            count <= i,
            count as nat == ts.take(i as int).to_set().intersect(acc).len(),
        decreases terms.len() - i,
    {
        let hit = filter_check(filter, &terms[i]);
        proof {
            let t = ts[i as int];
            let before = ts.take(i as int).to_set();
            assert(ts.take(i + 1) =~= ts.take(i as int).push(t));
            ts.take(i as int).lemma_push_to_set_commute(t);
            assert(!before.contains(t)) by {
                if before.contains(t) {
                    let k = choose|k: int| 0 <= k < i && ts.take(i as int)[k] == t;
                    assert(ts[k] == ts[i as int]);
                }
            }
            vstd::seq_lib::seq_to_set_is_finite(ts.take(i as int));
            vstd::set_lib::lemma_len_intersect(before, acc);
            if acc.contains(t) {
                assert(before.insert(t).intersect(acc) =~= before.intersect(acc).insert(t));
            } else {
                assert(before.insert(t).intersect(acc) =~= before.intersect(acc));
            }
        }
        if hit {
            count = count + 1;
        }
        i = i + 1;
    }
    assert(ts.take(terms.len() as int) =~= ts);
    count
}

/// Scores every document of the table and keeps those with a positive score,
/// in table order.
pub fn find_matches(table: &FilterTable, terms: &Vec<String>) -> (r: Vec<(String, u64)>)
    requires
        table.wf(),
        strs(terms@).no_duplicates(),
    ensures
        match_views(r@) == matches_of(table@, strs(terms@).to_set()),
{
    let ghost ts = strs(terms@).to_set();
    let mut out: Vec<(String, u64)> = Vec::new();
    let mut i: usize = 0;
    while i < table.len()
        invariant
            i <= table@.len(),
            table.wf(),
            strs(terms@).no_duplicates(),
            ts == strs(terms@).to_set(),
            match_views(out@) == matches_of(table@.take(i as int), ts),
        decreases table@.len() - i,
    {
        let d = table.doc(i);
        let s = score(&d.filter, terms);
        assert(table@.take(i + 1).drop_last() =~= table@.take(i as int));
        if s > 0 {
            let ghost before = out@;
            out.push((d.id.clone(), s));
            assert(match_views(out@) =~= match_views(before).push((d.id@, s as nat)));
        }
        i = i + 1;
    }
    assert(table@.take(table@.len() as int) =~= table@);
    out
}

/// Whether `a` ranks no lower than `b`.
fn ranks_before(a: &(String, u64), b: &(String, u64)) -> (r: bool)
    ensures
        r == rank_le((a.0@, a.1 as nat), (b.0@, b.1 as nat)),
{
    a.1 > b.1 || (a.1 == b.1 && id_le(&a.0, &b.0))
}

/// Inserting before the first element that `x` ranks no lower than is a
/// split of the sequence at that place.
proof fn lemma_insert_ranked_at(x: Match, s: Seq<Match>, j: int)
    requires
        0 <= j <= s.len(),
        forall|k: int| 0 <= k < j ==> !rank_le(x, #[trigger] s[k]),
        j == s.len() || rank_le(x, s[j]),
    ensures
        insert_ranked(x, s) == s.take(j).push(x) + s.skip(j),
    decreases s.len(),
{
    if s.len() == 0 {
        assert(s.take(j).push(x) + s.skip(j) =~= seq![x]);
    } else if j == 0 {
        assert(s.take(j).push(x) + s.skip(j) =~= seq![x] + s);
    } else {
        let t = s.drop_first();
        assert forall|k: int| 0 <= k < j - 1 implies !rank_le(x, #[trigger] t[k]) by {
            assert(t[k] == s[k + 1]);
        }
        assert(!rank_le(x, s[0]));
        lemma_insert_ranked_at(x, t, j - 1);
        assert(s.take(j).push(x) + s.skip(j) =~= seq![s[0]] + (t.take(j - 1).push(x) + t.skip(
            j - 1,
        )));
    }
}

/// Inserts `x` into `out` at its place in rank order.
fn insert_match(out: &mut Vec<(String, u64)>, x: (String, u64))
    ensures
        match_views(final(out)@) == insert_ranked((x.0@, x.1 as nat), match_views(old(out)@)),
{
    let ghost s = match_views(out@);
    let ghost xv = (x.0@, x.1 as nat);
    let mut j: usize = 0;
    while j < out.len()
        invariant
            j <= out.len(),
            out@ == old(out)@,
            s == match_views(out@),
            xv == (x.0@, x.1 as nat),
            forall|k: int| 0 <= k < j ==> !rank_le(xv, #[trigger] s[k]),
        ensures
            j <= out.len(),
            forall|k: int| 0 <= k < j ==> !rank_le(xv, #[trigger] s[k]),
            j == out.len() || rank_le(xv, s[j as int]),
        decreases out.len() - j,
    {
        assert(s[j as int] == (out[j as int].0@, out[j as int].1 as nat));
        if ranks_before(&x, &out[j]) {
            break;
        }
        j = j + 1;
    }
    proof {
        lemma_insert_ranked_at(xv, s, j as int);
    }
    out.insert(j, x);
    assert(match_views(out@) =~= s.take(j as int).push(xv) + s.skip(j as int));
}

/// Orders matches by rank: best score first, ties by identifier.
pub fn rank(ms: Vec<(String, u64)>) -> (r: Vec<(String, u64)>)
    ensures
        match_views(r@) == ranked(match_views(ms@)),
{
    let ghost mv = match_views(ms@);
    let mut out: Vec<(String, u64)> = Vec::new();
    let mut rest = ms;
    let mut i: usize = 0;
    let n = rest.len();
    while i < n
        invariant
            n == mv.len(),
            i <= n,
            rest@.len() == n,
            match_views(rest@) == mv,
            match_views(out@) == ranked(mv.take(i as int)),
        decreases n - i,
    {
        let x = (rest[i].0.clone(), rest[i].1);
        assert(mv.take(i + 1).drop_last() =~= mv.take(i as int));
        insert_match(&mut out, x);
        i = i + 1;
    }
    assert(mv.take(n as int) =~= mv);
    out
}

/// The ranked matches of `query` against `table`.
pub fn results(table: &FilterTable, query: &str) -> (r: Vec<(String, u64)>)
    requires
        table.wf(),
    ensures
        match_views(r@) == results_of(table@, query@),
        query@.len() == 0 ==> r@.len() == 0,
{
    let terms = normalize_query(query);
    proof {
        if query@.len() == 0 {
            assert(strs(terms@).to_set() =~= Set::<Seq<char>>::empty());
            lemma_no_terms_no_matches(table@);
        }
    }
    let ms = find_matches(table, &terms);
    rank(ms)
}

/// The payload for an encoding outcome: the encoded text, or the empty
/// result where encoding failed.
pub fn payload(encoded: Option<String>) -> (r: String)
    ensures
        r@ == payload_of(
            match encoded {
                Some(s) => Some(s@),
                None => None,
            },
        ),
{
    match encoded {
        Some(s) => s,
        None => {
            let e = "[]".to_owned();
            proof {
                reveal_strlit("[]");
            }
            assert(e@ =~= empty_payload());
            e
        },
    }
}

/// No document matches an empty set of terms.
pub proof fn lemma_no_terms_no_matches(es: Seq<Entry>)
    ensures
        matches_of(es, Set::<Seq<char>>::empty()) == Seq::<Match>::empty(),
    decreases es.len(),
{
    if es.len() > 0 {
        lemma_no_terms_no_matches(es.drop_last());
        assert(Set::<Seq<char>>::empty().intersect(es.last().1) =~= Set::<Seq<char>>::empty());
    }
}

/// Answers a query: the documents whose filters accept at least one query
/// term, best score first, as a JSON array of `[identifier, score]` pairs;
/// `[]` where encoding fails.
pub fn search(table: &FilterTable, query: &str) -> (r: String)
    requires
        table.wf(),
    ensures
        r@ == search_payload(table@, query@),
        query@.len() == 0 ==> r@ == empty_payload(),
{
    let ms = results(table, query);

    let encoded = encode_json(&ms);
    payload(encoded)
}

} // verus!
