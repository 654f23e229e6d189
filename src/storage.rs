//! The index blob: the byte layout from which a Filter Table is loaded.
//!
//! A blob is the number of documents as a little-endian `u64`, then for each
//! document the length of its identifier as a `u64`, the identifier in UTF-8,
//! the length of its filter's encoding as a `u64`, and that encoding.
use vstd::prelude::*;
use vstd::bytes::{
    lemma_auto_spec_u64_to_from_le_bytes,
    spec_u64_from_le_bytes,
    spec_u64_to_le_bytes,
    u64_from_le_bytes,
    u64_to_le_bytes,
};
use vstd::slice::{slice_subrange, slice_to_vec};
use crate::filter::{
    accepted_of_bytes,
    filter_bits,
    filter_encoding_valid,
    filter_from_bytes,
    filter_to_bytes,
    FILTER_HEADER_LEN,
};
use crate::table::{ids_distinct, Entry, FilterTable, TableError};
use crate::text::{decode_utf8, utf8_bytes, utf8_text};

verus! {

/// The blob is truncated, has bytes left over, or holds an identifier that is
/// not UTF-8, a filter that cannot be read or has no bits, or an identifier twice.
#[derive(Debug, Clone, Copy, PartialEq, Eq, Structural)]
pub struct DeserializationError;

/// The little-endian `u64` at `b[pos..pos + 8]`.
pub open spec fn u64_at(b: Seq<u8>, pos: int) -> nat {
    spec_u64_from_le_bytes(b.subrange(pos, pos + 8)) as nat
}

/// `p` followed by the entries of `r`, if there are any.
pub open spec fn prepend(p: Seq<Entry>, r: Option<Seq<Entry>>) -> Option<Seq<Entry>> {
    match r {
        Some(es) => Some(p + es),
        None => None,
    }
}

/// Reads `k` entries starting at `pos`, which must end exactly at the end of `b`.
pub open spec fn parse_entries(b: Seq<u8>, pos: int, k: nat) -> Option<Seq<Entry>>
    decreases k,
{
    if k == 0 {
        if pos == b.len() {
            Some(Seq::empty())
        } else {
            None
        }
    } else if pos < 0 || pos + 8 > b.len() {
        None
    } else {
        let ids = pos + 8;
        let ide = ids + u64_at(b, pos);
        if ide + 8 > b.len() {
            None
        } else {
            let fs = ide + 8;
            let fe = fs + u64_at(b, ide);
            if fe > b.len() {
                None
            } else {
                let fb = b.subrange(fs, fe);
                match utf8_text(b.subrange(ids, ide)) {
                    None => None,
                    Some(id) => if !filter_encoding_valid(fb) || fb.len() <= FILTER_HEADER_LEN {
                        None
                    } else {
                        prepend(seq![(id, accepted_of_bytes(fb))], parse_entries(b, fe, (k - 1) as nat))
                    },
                }
            }
        }
    }
}

/// The table that a blob holds, if it is well formed.
pub open spec fn decode_spec(b: Seq<u8>) -> Option<Seq<Entry>> {
    if b.len() < 8 {
        None
    } else {
        match parse_entries(b, 8, u64_at(b, 0)) {
            Some(es) => if ids_distinct(es) {
                Some(es)
            } else {
                None
            },
            None => None,
        }
    }
}

/// Loads a Filter Table from a blob, validating its whole structure first.
pub fn decode(bytes: &[u8]) -> (r: Result<FilterTable, DeserializationError>)
    ensures
        r is Ok <==> decode_spec(bytes@) is Some,
        r matches Ok(t) ==> t.wf() && decode_spec(bytes@) == Some(t@),
{
    let ghost b = bytes@;
    let n = bytes.len();
    if n < 8 {
        return Err(DeserializationError);
    }
    let count = u64_from_le_bytes(slice_subrange(bytes, 0, 8));
    let mut table = FilterTable::new();
    let mut pos: usize = 8;
    let mut k: u64 = count;
    proof {
        if let Some(es) = parse_entries(b, 8, count as nat) {
            assert(table@ + es =~= es);
        }
    }
    while k > 0
        invariant
            n == b.len(),
            b == bytes@,
            8 <= pos <= n,
            count as nat == u64_at(b, 0),
            table.wf(),
            parse_entries(b, 8, count as nat) == prepend(table@, parse_entries(b, pos as int, k as nat)),
        decreases k,
    {
        if n - pos < 8 {
            return Err(DeserializationError);
        }
        let il = u64_from_le_bytes(slice_subrange(bytes, pos, pos + 8));
        let ids = pos + 8;
        if il > (n - ids) as u64 || ((n - ids) as u64) - il < 8 {
            return Err(DeserializationError);
        }
        let ide = ids + il as usize;
        let fl = u64_from_le_bytes(slice_subrange(bytes, ide, ide + 8));
        let fs = ide + 8;
        if fl > (n - fs) as u64 {
            return Err(DeserializationError);
        }
        let fe = fs + fl as usize;
        let id = match decode_utf8(slice_to_vec(slice_subrange(bytes, ids, ide))) {
            Some(id) => id,
            None => {
                return Err(DeserializationError);
            },
        };
        if fe - fs <= FILTER_HEADER_LEN {
            return Err(DeserializationError);
        }
        let ghost fb = b.subrange(fs as int, fe as int);
        let filter = match filter_from_bytes(slice_to_vec(slice_subrange(bytes, fs, fe))) {
            Some(f) => f,
            None => {
                return Err(DeserializationError);
            },
        };
        let ghost e: Entry = (id@, accepted_of_bytes(fb));
        let ghost before = table@;
        let ghost rest = parse_entries(b, fe as int, (k - 1) as nat);
        assert(parse_entries(b, pos as int, k as nat) == prepend(seq![e], rest));
        assert(filter_bits(filter) > 0) by (nonlinear_arith)
            requires
                filter_bits(filter) == (fb.len() - FILTER_HEADER_LEN) * 8,
                fb.len() > FILTER_HEADER_LEN,
        ;
        let added = table.add(id, filter);
        // The filter has bits, so the only refusal left is a repeated identifier.
        assert(added != Err::<(), TableError>(TableError::EmptyFilter));
        match added {
            Ok(()) => {},
            Err(TableError::EmptyFilter) => {
                return Err(DeserializationError);
            },
            Err(TableError::DuplicateId) => {
                proof {
                    if rest is Some {
                        let all = before + (seq![e] + rest.unwrap());
                        let i = choose|i: int| 0 <= i < before.len() && before[i].0 == e.0;
                        assert(all[i].0 == all[before.len() as int].0);
                        assert(!ids_distinct(all));
                    }
                }
                return Err(DeserializationError);
            },
        }
        proof {
            if rest is Some {
                assert(before + (seq![e] + rest.unwrap()) =~= before.push(e) + rest.unwrap());
            }
        }
        pos = fe;
        k = k - 1;
    }
    if pos != n {
        return Err(DeserializationError);
    }
    proof {
        assert(table@ + Seq::<Entry>::empty() =~= table@);
        table.lemma_wf_ids_distinct();
    }
    Ok(table)
}

/// The bytes `b[pos..end]` encode the entry `e`.
pub open spec fn entry_at(b: Seq<u8>, pos: int, e: Entry, end: int) -> bool {
    let ide = pos + 8 + u64_at(b, pos);
    let fs = ide + 8;
    &&& 0 <= pos
    &&& ide + 8 <= end <= b.len()
    &&& fs + u64_at(b, ide) == end
    &&& utf8_text(b.subrange(pos + 8, ide)) == Some(e.0)
    &&& filter_encoding_valid(b.subrange(fs, end))
    &&& b.subrange(fs, end).len() > FILTER_HEADER_LEN
    &&& accepted_of_bytes(b.subrange(fs, end)) == e.1
}

/// An encoded entry stays encoded when bytes are appended.
proof fn lemma_entry_at_extend(b: Seq<u8>, t: Seq<u8>, pos: int, e: Entry, end: int)
    requires
        entry_at(b, pos, e, end),
    ensures
        entry_at(b + t, pos, e, end),
{
    let c = b + t;
    let ide = pos + 8 + u64_at(b, pos);
    assert(c.subrange(pos, pos + 8) =~= b.subrange(pos, pos + 8));
    assert(c.subrange(ide, ide + 8) =~= b.subrange(ide, ide + 8));
    assert(c.subrange(pos + 8, ide) =~= b.subrange(pos + 8, ide));
    assert(c.subrange(ide + 8, end) =~= b.subrange(ide + 8, end));
}

/// Entries encoded back to back up to the end of the blob parse as those entries.
proof fn lemma_parse_chain(b: Seq<u8>, ps: Seq<int>, es: Seq<Entry>, j: int)
    requires
        ps.len() == es.len() + 1,
        ps.last() == b.len(),
        0 <= j <= es.len(),
        forall|i: int| 0 <= i < es.len() ==> entry_at(b, ps[i], #[trigger] es[i], ps[i + 1]),
    ensures
        parse_entries(b, ps[j], (es.len() - j) as nat) == Some(es.skip(j)),
    decreases es.len() - j,
{
    if j < es.len() {
        lemma_parse_chain(b, ps, es, j + 1);
        assert(entry_at(b, ps[j], es[j], ps[j + 1]));
        assert(seq![es[j]] + es.skip(j + 1) =~= es.skip(j));
    } else {
        assert(es.skip(j) =~= Seq::<Entry>::empty());
    }
}

/// Appends the bytes of `src` to `out`.
fn push_all(out: &mut Vec<u8>, src: &Vec<u8>)
    ensures
        final(out)@ == old(out)@ + src@,
{
    let mut i: usize = 0;
    while i < src.len()
        invariant
            i <= src.len(),
            out@ == old(out)@ + src@.take(i as int),
        decreases src.len() - i,
    {
        out.push(src[i]);
        assert(src@.take(i + 1) =~= src@.take(i as int).push(src[i as int]));
        i = i + 1;
    }
    assert(src@.take(src.len() as int) =~= src@);
}

/// Writes a Filter Table as a blob that `decode` reads back into the same table.
pub fn encode(table: &FilterTable) -> (r: Vec<u8>)
    requires
        table.wf(),
    ensures
        decode_spec(r@) == Some(table@),
{
    proof {
        lemma_auto_spec_u64_to_from_le_bytes();
    }
    let n = table.len();
    let mut out = u64_to_le_bytes(n as u64);
    assert(out@.subrange(0, 8) =~= out@);
    let ghost mut ps: Seq<int> = seq![8];
    let mut i: usize = 0;
    while i < n
        invariant
            n == table@.len(),
            table.wf(),
            i <= n,
            out@.len() >= 8,
            u64_at(out@, 0) == n,
            ps.len() == i + 1,
            ps[0] == 8,
            ps.last() == out@.len(),
            forall|j: int| 0 <= j < i ==> entry_at(out@, ps[j], #[trigger] table@[j], ps[j + 1]),
            forall|u: u64| #![trigger spec_u64_to_le_bytes(u)] spec_u64_from_le_bytes(spec_u64_to_le_bytes(u)) == u
                && spec_u64_to_le_bytes(u).len() == 8,
        decreases n - i,
    {
        let d = table.doc(i);
        let idb = utf8_bytes(&d.id);
        let fb = filter_to_bytes(&d.filter);
        assert(fb@.len() > FILTER_HEADER_LEN) by (nonlinear_arith)
            requires
                fb@.len() * 8 == FILTER_HEADER_LEN * 8 + filter_bits(d.filter),
                filter_bits(d.filter) > 0,
        ;
        let ghost old_out = out@;
        let ghost pos = old_out.len() as int;
        let il = u64_to_le_bytes(idb.len() as u64);
        let fl = u64_to_le_bytes(fb.len() as u64);
        push_all(&mut out, &il);
        push_all(&mut out, &idb);
        push_all(&mut out, &fl);
        push_all(&mut out, &fb);
        proof {
            let b = out@;
            let t = il@ + idb@ + fl@ + fb@;
            assert(b =~= old_out + t);
            let ide = pos + 8 + idb@.len();
            assert(b.subrange(pos, pos + 8) =~= il@);
            assert(b.subrange(pos + 8, ide) =~= idb@);
            assert(b.subrange(ide, ide + 8) =~= fl@);
            assert(b.subrange(ide + 8, b.len() as int) =~= fb@);
            assert(b.subrange(0, 8) =~= old_out.subrange(0, 8));
            assert forall|j: int| 0 <= j < i implies entry_at(b, ps[j], #[trigger] table@[j], ps[j + 1]) by {
                lemma_entry_at_extend(old_out, t, ps[j], table@[j], ps[j + 1]);
            }
            assert(entry_at(b, pos, table@[i as int], b.len() as int));
            ps = ps.push(b.len() as int);
        }
        i = i + 1;
    }
    proof {
        lemma_parse_chain(out@, ps, table@, 0);
        assert(table@.skip(0) =~= table@);
        table.lemma_wf_ids_distinct();
    }
    out
}

} // verus!
