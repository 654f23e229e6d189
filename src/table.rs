//! The Filter Table: document identifiers, each with its Bloom filter.
use vstd::prelude::*;
use bloomfilter::Bloom;
use crate::filter::{accepted_terms, filter_bits, filter_len};

verus! {

/// One indexed document: its identifier and the filter of its terms.
pub struct Document {
    pub id: String,
    pub filter: Bloom<String>,
}

/// What a table entry stands for: the identifier, and the terms its filter accepts.
pub type Entry = (Seq<char>, Set<Seq<char>>);

/// The identifiers of the entries are pairwise distinct.
pub open spec fn ids_distinct(es: Seq<Entry>) -> bool {
    forall|i: int, j: int| 0 <= i < j < es.len() ==> #[trigger] es[i].0 != #[trigger] es[j].0
}

/// Why a document could not be added to a table.
#[derive(Debug, Clone, Copy, PartialEq, Eq, Structural)]
pub enum TableError {
    /// The table already holds a document of that identifier.
    DuplicateId,
    /// The filter has no bits, so it can answer no query.
    EmptyFilter,
}

/// The documents of an index, in the order in which they were added.
pub struct FilterTable {
    docs: Vec<Document>,
}

impl View for FilterTable {
    type V = Seq<Entry>;

    closed spec fn view(&self) -> Seq<Entry> {
        self.docs@.map_values(|d: Document| (d.id@, accepted_terms(d.filter)))
    }
}

impl FilterTable {
    /// Identifiers are distinct and every filter has bits.
    pub closed spec fn wf(&self) -> bool {
        &&& ids_distinct(self@)
        &&& forall|i: int| 0 <= i < self.docs.len() ==> filter_bits(#[trigger] self.docs[i].filter) > 0
    }

    /// A well-formed table has distinct identifiers.
    pub proof fn lemma_wf_ids_distinct(&self)
        requires
            self.wf(),
        ensures
            ids_distinct(self@),
    {
    }

    /// An empty table.
    pub fn new() -> (r: FilterTable)
        ensures
            r.wf(),
            r@ == Seq::<Entry>::empty(),
    {
        let r = FilterTable { docs: Vec::new() };
        assert(r@ =~= Seq::<Entry>::empty());
        r
    }

    /// The number of documents.
    pub fn len(&self) -> (r: usize)
        ensures
            r == self@.len(),
    {
        self.docs.len()
    }

    /// Whether a document of identifier `id` is in the table.
    pub fn contains_id(&self, id: &String) -> (r: bool)
        ensures
            r == exists|i: int| 0 <= i < self@.len() && self@[i].0 == id@,
    {
        let mut i: usize = 0;
        while i < self.docs.len()
            invariant
                i <= self.docs.len(),
                forall|j: int| 0 <= j < i ==> self@[j].0 != id@,
            decreases self.docs.len() - i,
        {
            if self.docs[i].id == *id {
                assert(self@[i as int].0 == id@);
                return true;
            }
            i = i + 1;
        }
        false
    }

    /// The `i`-th document.
    pub fn doc(&self, i: usize) -> (r: &Document)
        requires
            self.wf(),
            i < self@.len(),
        ensures
            r.id@ == self@[i as int].0,
            accepted_terms(r.filter) == self@[i as int].1,
            filter_bits(r.filter) > 0,
    {
        &self.docs[i]
    }

    /// Appends a document. It is refused where its identifier is already in
    /// the table, or else where its filter has no bits; the table is then unchanged.
    pub fn add(&mut self, id: String, filter: Bloom<String>) -> (r: Result<(), TableError>)
        requires
            old(self).wf(),
        ensures
            final(self).wf(),
            r == Err::<(), TableError>(TableError::DuplicateId) <==> exists|i: int|
                0 <= i < old(self)@.len() && old(self)@[i].0 == id@,
            r == Err::<(), TableError>(TableError::EmptyFilter) <==> (!(exists|i: int|
                0 <= i < old(self)@.len() && old(self)@[i].0 == id@) && filter_bits(filter) == 0),
            r is Ok ==> final(self)@ == old(self)@.push((id@, accepted_terms(filter))),
            r is Err ==> final(self)@ == old(self)@,
    {
        if self.contains_id(&id) {
            return Err(TableError::DuplicateId);
        }
        if filter_len(&filter) == 0 {
            return Err(TableError::EmptyFilter);
        }
        let ghost before = self@;
        self.docs.push(Document { id, filter });
        assert(self@ =~= before.push((id@, accepted_terms(filter))));
        assert forall|i: int| 0 <= i < self.docs.len() implies filter_bits(
            #[trigger] self.docs[i].filter,
        ) > 0 by {
            if i < before.len() {
                assert(self.docs[i] == old(self).docs[i]);
            }
        }
        Ok(())
    }
}

} // verus!
