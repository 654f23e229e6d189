//! Text handling: splitting and lowercasing queries, decoding identifiers,
//! and the lexical order of identifiers.
use vstd::prelude::*;
use vstd::string::*;

verus! {

broadcast use vstd::seq_lib::group_seq_properties;

/// The whitespace-separated words of a text, in order.
pub uninterp spec fn words_of(s: Seq<char>) -> Seq<Seq<char>>;

/// The lowercase form of a text.
pub uninterp spec fn lower_of(s: Seq<char>) -> Seq<char>;

/// The text that the bytes encode as UTF-8, if they are valid UTF-8.
pub uninterp spec fn utf8_text(b: Seq<u8>) -> Option<Seq<char>>;

/// The character sequences of a list of strings.
pub open spec fn strs(v: Seq<String>) -> Seq<Seq<char>> {
    v.map_values(|s: String| s@)
}

/// Each word lowercased, in order.
pub open spec fn lowered(ws: Seq<Seq<char>>) -> Seq<Seq<char>> {
    ws.map_values(|w: Seq<char>| lower_of(w))
}

/// The query term set: the distinct lowercased words of the query.
pub open spec fn query_terms(q: Seq<char>) -> Set<Seq<char>> {
    lowered(words_of(q)).to_set()
}

/// Relies on `str::split_whitespace`: the words between runs of Unicode
/// whitespace; an empty text has none.
#[verifier::external_body]
fn split_words(s: &str) -> (r: Vec<String>)
    ensures
        strs(r@) == words_of(s@),
        s@.len() == 0 ==> r@.len() == 0,
{
    s.split_whitespace().map(|w| w.to_string()).collect()
}

/// Relies on `str::to_lowercase`: the result depends on the characters alone.
#[verifier::external_body]
fn lowercase(s: &str) -> (r: String)
    ensures
        r@ == lower_of(s@),
{
    s.to_lowercase()
}

/// Relies on `String::from_utf8`: it succeeds exactly on valid UTF-8 and then
/// holds the decoded text.
#[verifier::external_body]
pub(crate) fn decode_utf8(b: Vec<u8>) -> (r: Option<String>)
    ensures
        r is Some <==> utf8_text(b@) is Some,
        r matches Some(s) ==> utf8_text(b@) == Some(s@),
{
    String::from_utf8(b).ok()
}

/// Relies on `str::as_bytes`: the UTF-8 encoding of the string, which
/// `String::from_utf8` decodes back to the same string.
#[verifier::external_body]
pub(crate) fn utf8_bytes(s: &String) -> (r: Vec<u8>)
    ensures
        utf8_text(r@) == Some(s@),
{
    s.as_bytes().to_vec()
}

/// Whether `x` occurs in `v`.
fn contains_str(v: &Vec<String>, x: &String) -> (r: bool)
    ensures
        r == strs(v@).contains(x@),
{
    let mut i: usize = 0;
    while i < v.len()
        invariant
            i <= v.len(),
            forall|j: int| 0 <= j < i ==> v[j]@ != x@,
        decreases v.len() - i,
    {
        if v[i] == *x {
            assert(strs(v@)[i as int] == x@);
            return true;
        }
        i = i + 1;
    }
    assert forall|j: int| 0 <= j < strs(v@).len() implies strs(v@)[j] != x@ by {
        assert(strs(v@)[j] == v[j]@);
    }
    false
}

/// Splits a query on whitespace, lowercases each word and drops repeated
/// terms: the result lists each term of `query_terms` once.
pub fn normalize_query(query: &str) -> (r: Vec<String>)
    ensures
        strs(r@).no_duplicates(),
        strs(r@).to_set() == query_terms(query@),
        query@.len() == 0 ==> r@.len() == 0,
{
    let words = split_words(query);
    let ghost ws = strs(words@);
    let mut out: Vec<String> = Vec::new();
    let mut i: usize = 0;
    while i < words.len()
        invariant
            i <= words.len(),
            ws == strs(words@),
            strs(out@).no_duplicates(),
            out@.len() <= i,
            strs(out@).to_set() == lowered(ws.take(i as int)).to_set(),
            query@.len() == 0 ==> words@.len() == 0,
        decreases words.len() - i,
    {
        let t = lowercase(words[i].as_str());
        assert(lowered(ws.take(i + 1)) =~= lowered(ws.take(i as int)).push(t@));
        proof {
            lowered(ws.take(i as int)).lemma_push_to_set_commute(t@);
        }
        if !contains_str(&out, &t) {
            let ghost before = out@;
            out.push(t);
            assert(strs(out@) =~= strs(before).push(t@));
            proof {
                strs(before).lemma_push_to_set_commute(t@);
            }
        }
        i = i + 1;
    }
    assert(ws.take(words.len() as int) =~= ws);
    out
}

/// `a` comes no later than `b` in lexical order of characters.
pub open spec fn lex_le(a: Seq<char>, b: Seq<char>) -> bool
    decreases a.len(),
{
    if a.len() == 0 {
        true
    } else if b.len() == 0 {
        false
    } else if a[0] != b[0] {
        a[0] < b[0]
    } else {
        lex_le(a.drop_first(), b.drop_first())
    }
}

/// Compares two identifiers in lexical order of characters.
pub fn id_le(a: &String, b: &String) -> (r: bool)
    ensures
        r == lex_le(a@, b@),
{
    let sa = a.as_str();
    let sb = b.as_str();
    let la = sa.unicode_len();
    let lb = sb.unicode_len();
    let mut i: usize = 0;
    while i < la && i < lb
        invariant
            i <= la == a@.len(),
            lb == b@.len(),
            i <= lb,
            sa@ == a@,
            sb@ == b@,
            lex_le(a@, b@) == lex_le(a@.skip(i as int), b@.skip(i as int)),
        decreases la - i,
    {
        let ca = sa.get_char(i);
        let cb = sb.get_char(i);
        if ca != cb {
            return ca < cb;
        }
        assert(a@.skip(i as int).drop_first() =~= a@.skip(i + 1));
        assert(b@.skip(i as int).drop_first() =~= b@.skip(i + 1));
        i = i + 1;
    }
    i == la
}

/// Lexical order is total.
pub proof fn lemma_lex_total(a: Seq<char>, b: Seq<char>)
    ensures
        lex_le(a, b) || lex_le(b, a),
    decreases a.len(),
{
    if a.len() > 0 && b.len() > 0 && a[0] == b[0] {
        lemma_lex_total(a.drop_first(), b.drop_first());
    }
}

/// Lexical order is transitive.
pub proof fn lemma_lex_trans(a: Seq<char>, b: Seq<char>, c: Seq<char>)
    requires
        lex_le(a, b),
        lex_le(b, c),
    ensures
        lex_le(a, c),
    decreases a.len(),
{
    if a.len() > 0 && b.len() > 0 && c.len() > 0 && a[0] == b[0] && b[0] == c[0] {
        lemma_lex_trans(a.drop_first(), b.drop_first(), c.drop_first());
    }
}

} // verus!
