//! Per-query bookkeeping: term interning, and the query terms and matched
//! fields of each result.
use vstd::prelude::*;

use crate::maps::TermIds;
use crate::options::Combine;
use crate::vecmap::{
    Positions,
    assoc_get,
    assoc_set,
    has_key,
    index_of,
    lemma_assoc_set_unique,
    new_positions,
    position_of,
    set_position,
    unique_keys,
};

verus! {

/// Interns the terms touched by one query, so that per-document
/// bookkeeping works with small integer IDs. A term's ID is its position.
pub struct Interner {
    table: TermIds,
}

impl Interner {
    /// The interned terms, in order of first use.
    pub closed spec fn terms(&self) -> Seq<Seq<char>> {
        self.table@.map_values(|entry: (Seq<char>, u16)| entry.0)
    }

    pub closed spec fn wf(&self) -> bool {
        &&& unique_keys(self.table@)
        &&& forall|i: int| 0 <= i < self.table@.len() ==> (#[trigger] self.table@[i]).1 == i as u16
    }

    pub fn new() -> (interner: Interner)
        ensures
            interner.wf(),
            interner.terms() == Seq::<Seq<char>>::empty(),
    {
        let interner = Interner { table: TermIds::new() };
        proof {
            assert(interner.terms() =~= Seq::<Seq<char>>::empty());
        }
        interner
    }

    /// The ID of `term`, interning it if it is new: the number of terms
    /// interned before it, truncated to 16 bits.
    pub fn intern(&mut self, term: &str) -> (id: u16)
        requires
            old(self).wf(),
        ensures
            final(self).wf(),
            old(self).terms().contains(term@) ==> final(self).terms() == old(self).terms() && (
            id as int) == old(self).terms().index_of(term@) as u16,
            !old(self).terms().contains(term@) ==> final(self).terms() == old(self).terms().push(
                term@,
            ) && id == old(self).terms().len() as u16,
    {
        let ghost old_table = self.table@;
        proof {
            lemma_terms_index(old_table, term@);
        }
        match self.table.get(term) {
            Some(id) => {
                return id;
            },
            None => {},
        }
        let id = self.table.len() as u16;
        proof {
            lemma_assoc_set_unique(old_table, term@, id);
        }
        self.table.insert(term.to_string(), id);
        proof {
            assert(self.table@ == old_table.push((term@, id)));
            assert(self.terms() =~= old_table.map_values(|entry: (Seq<char>, u16)| entry.0).push(term@));
        }
        id
    }

    /// The number of interned terms.
    pub fn term_count(&self) -> (count: usize)
        requires
            self.wf(),
        ensures
            count == self.terms().len(),
    {
        self.table.len()
    }

    /// The term with ID `id`.
    pub fn resolve(&self, id: u16) -> (term: &str)
        requires
            self.wf(),
            (id as int) < self.terms().len(),
        ensures
            term@ == self.terms()[id as int],
    {
        let (term, _) = self.table.get_index(id as usize).unwrap();
        term.as_str()
    }
}

proof fn lemma_terms_index(table: Seq<(Seq<char>, u16)>, term: Seq<char>)
    requires
        unique_keys(table),
        forall|i: int| 0 <= i < table.len() ==> (#[trigger] table[i]).1 == i as u16,
    ensures
        has_key(table, term) == table.map_values(|entry: (Seq<char>, u16)| entry.0).contains(term),
        has_key(table, term) ==> table[index_of(table, term)].1 == table.map_values(
            |entry: (Seq<char>, u16)| entry.0,
        ).index_of(term) as u16,
{
    let names = table.map_values(|entry: (Seq<char>, u16)| entry.0);
    if has_key(table, term) {
        let i = index_of(table, term);
        assert(names[i] == term);
        let j = names.index_of(term);
        assert(table[j].0 == term);
        assert(i == j);
    }
    if names.contains(term) {
        let j = names.index_of(term);
        assert(table[j].0 == term);
    }
}

/// A list of one field ID.
fn single(field_id: u32) -> (fields: Vec<u32>)
    ensures
        fields@ == seq![field_id],
{
    let mut fields: Vec<u32> = Vec::new();
    fields.push(field_id);
    proof {
        assert(fields@ =~= seq![field_id]);
    }
    fields
}

/// The query terms and the matched document terms of one result: the
/// query terms that matched, each once, and for each matched document term
/// the fields it was found in, in order of first match.
pub struct MatchSet {
    terms: Vec<u16>,
    matches: Vec<(u16, Vec<u32>)>,
}

/// The view of a list of matches.
pub open spec fn matches_view(matches: Seq<(u16, Vec<u32>)>) -> Seq<(u16, Seq<u32>)> {
    matches.map_values(|entry: (u16, Vec<u32>)| (entry.0, entry.1@))
}

impl MatchSet {
    /// The matched query terms.
    pub closed spec fn query_terms(&self) -> Seq<u16> {
        self.terms@
    }

    /// The matched document terms with their fields.
    pub closed spec fn field_matches(&self) -> Seq<(u16, Seq<u32>)> {
        matches_view(self.matches@)
    }

    pub closed spec fn wf(&self) -> bool {
        &&& self.terms@.no_duplicates()
        &&& unique_keys(matches_view(self.matches@))
    }

    /// No match at all, as for a result that every document gets.
    pub fn empty() -> (set: MatchSet)
        ensures
            set.wf(),
            set.query_terms() == Seq::<u16>::empty(),
            set.field_matches() == Seq::<(u16, Seq<u32>)>::empty(),
    {
        let set = MatchSet { terms: Vec::new(), matches: Vec::new() };
        proof {
            assert(set.field_matches() =~= Seq::<(u16, Seq<u32>)>::empty());
        }
        set
    }

    /// One match: query term `term` matched document term `derived` in
    /// field `field_id`.
    pub fn new(term: u16, derived: u16, field_id: u32) -> (set: MatchSet)
        ensures
            set.wf(),
            set.query_terms() == seq![term],
            set.field_matches() == seq![(derived, seq![field_id])],
    {
        let mut terms: Vec<u16> = Vec::new();
        terms.push(term);
        let mut matches: Vec<(u16, Vec<u32>)> = Vec::new();
        matches.push((derived, single(field_id)));
        let set = MatchSet { terms, matches };
        proof {
            assert(set.field_matches() =~= seq![(derived, seq![field_id])]);
        }
        set
    }

    /// The matched query terms, each once, in order of first match.
    pub fn terms(&self) -> (terms: &Vec<u16>)
        ensures
            terms@ == self.query_terms(),
    {
        &self.terms
    }

    /// The matched document terms with their fields.
    pub fn matches(&self) -> (matches: &Vec<(u16, Vec<u32>)>)
        ensures
            matches_view(matches@) == self.field_matches(),
    {
        &self.matches
    }

    /// Records that query term `term` matched, unless it already did.
    pub fn add_term(&mut self, term: u16)
        requires
            old(self).wf(),
        ensures
            final(self).wf(),
            final(self).field_matches() == old(self).field_matches(),
            old(self).query_terms().contains(term) ==> final(self).query_terms() == old(
                self,
            ).query_terms(),
            !old(self).query_terms().contains(term) ==> final(self).query_terms() == old(
                self,
            ).query_terms().push(term),
    {
        let mut i: usize = 0;
        while i < self.terms.len()
            invariant
                self.wf(),
                i <= self.terms@.len(),
                forall|j: int| 0 <= j < i ==> self.terms@[j] != term,
            decreases self.terms@.len() - i,
        {
            if self.terms[i] == term {
                return;
            }
            i = i + 1;
        }
        let ghost before = self.terms@;
        self.terms.push(term);
        proof {
            assert forall|a: int, b: int|
                0 <= a < self.terms@.len() && 0 <= b < self.terms@.len() && a != b implies self.terms@[a]
                != self.terms@[b] by {
                if a < before.len() && b < before.len() {
                    assert(before[a] != before[b]);
                }
            }
        }
    }

    /// The position of the matches of document term `derived`, if any.
    fn match_position(&self, derived: u16) -> (position: Option<usize>)
        requires
            self.wf(),
        ensures
            match position {
                Some(i) => i < self.matches@.len() && has_key(self.field_matches(), derived)
                    && index_of(self.field_matches(), derived) == i,
                None => !has_key(self.field_matches(), derived),
            },
    {
        let ghost view = self.field_matches();
        let mut i: usize = 0;
        while i < self.matches.len()
            invariant
                view == matches_view(self.matches@),
                unique_keys(view),
                i <= self.matches@.len(),
                forall|j: int| 0 <= j < i ==> (#[trigger] view[j]).0 != derived,
            decreases self.matches@.len() - i,
        {
            if self.matches[i].0 == derived {
                proof {
                    assert(view[i as int].0 == derived);
                    assert(has_key(view, derived));
                    let k = index_of(view, derived);
                    assert(view[k].0 == derived);
                }
                return Some(i);
            }
            i = i + 1;
        }
        None
    }

    /// Records that document term `derived` matched in field `field_id`.
    pub fn add_match(&mut self, derived: u16, field_id: u32)
        requires
            old(self).wf(),
        ensures
            final(self).wf(),
            final(self).query_terms() == old(self).query_terms(),
            final(self).field_matches() == assoc_set(
                old(self).field_matches(),
                derived,
                match assoc_get(old(self).field_matches(), derived) {
                    Some(fields) => fields.push(field_id),
                    None => seq![field_id],
                },
            ),
    {
        let ghost old_view = self.field_matches();
        proof {
            lemma_assoc_set_unique(
                old_view,
                derived,
                match assoc_get(old_view, derived) {
                    Some(fields) => fields.push(field_id),
                    None => seq![field_id],
                },
            );
        }
        match self.match_position(derived) {
            Some(i) => {
                let mut fields = self.matches[i].1.clone();
                fields.push(field_id);
                let ghost fv = fields@;
                self.matches.set(i, (derived, fields));
                proof {
                    assert(fv =~= old_view[i as int].1.push(field_id));
                    assert(self.field_matches() =~= old_view.update(i as int, (derived, fv)));
                }
            },
            None => {
                self.matches.push((derived, single(field_id)));
                proof {
                    assert(self.field_matches() =~= old_view.push((derived, seq![field_id])));
                }
            },
        }
    }

    /// Sets the fields of document term `derived` to `fields`, as a shallow
    /// object assignment does.
    pub fn assign_match(&mut self, derived: u16, fields: Vec<u32>)
        requires
            old(self).wf(),
        ensures
            final(self).wf(),
            final(self).query_terms() == old(self).query_terms(),
            final(self).field_matches() == assoc_set(old(self).field_matches(), derived, fields@),
    {
        let ghost old_view = self.field_matches();
        let ghost fv = fields@;
        proof {
            lemma_assoc_set_unique(old_view, derived, fv);
        }
        match self.match_position(derived) {
            Some(i) => {
                self.matches.set(i, (derived, fields));
                proof {
                    assert(self.field_matches() =~= old_view.update(i as int, (derived, fv)));
                }
            },
            None => {
                self.matches.push((derived, fields));
                proof {
                    assert(self.field_matches() =~= old_view.push((derived, fv)));
                }
            },
        }
    }

    /// Merges in the terms and matches of `other`: each of its query terms
    /// is added unless already there, then each of its document terms takes
    /// its fields from `other`.
    pub fn merge(&mut self, other: &MatchSet)
        requires
            old(self).wf(),
        ensures
            final(self).wf(),
            final(self).query_terms() == terms_added(old(self).query_terms(), other.query_terms()),
            final(self).field_matches() == matches_assigned(
                old(self).field_matches(),
                other.field_matches(),
            ),
    {
        let ghost start = *self;
        let terms = other.terms();
        let mut i: usize = 0;
        while i < terms.len()
            invariant
                self.wf(),
                i <= terms@.len(),
                terms@ == other.query_terms(),
                self.field_matches() == start.field_matches(),
                self.query_terms() == terms_added(start.query_terms(), terms@.take(i as int)),
            decreases terms@.len() - i,
        {
            proof {
                assert(terms@.take(i + 1).drop_last() =~= terms@.take(i as int));
            }
            self.add_term(terms[i]);
            i = i + 1;
        }
        proof {
            assert(terms@.take(terms@.len() as int) =~= terms@);
        }
        let ghost middle = *self;
        let matches = other.matches();
        let mut j: usize = 0;
        while j < matches.len()
            invariant
                self.wf(),
                j <= matches@.len(),
                matches_view(matches@) == other.field_matches(),
                self.query_terms() == middle.query_terms(),
                self.field_matches() == matches_assigned(
                    start.field_matches(),
                    matches_view(matches@).take(j as int),
                ),
            decreases matches@.len() - j,
        {
            let fields = matches[j].1.clone();
            proof {
                assert(matches_view(matches@).take(j + 1).drop_last() =~= matches_view(
                    matches@,
                ).take(j as int));
                assert(fields@ == matches@[j as int].1@);
            }
            self.assign_match(matches[j].0, fields);
            j = j + 1;
        }
        proof {
            assert(matches_view(matches@).take(matches@.len() as int) =~= matches_view(matches@));
        }
    }
}

/// The query terms after those of `more` are added in order, each unless
/// already there.
pub open spec fn terms_added(terms: Seq<u16>, more: Seq<u16>) -> Seq<u16>
    decreases more.len(),
{
    if more.len() == 0 {
        terms
    } else {
        let before = terms_added(terms, more.drop_last());
        if before.contains(more.last()) {
            before
        } else {
            before.push(more.last())
        }
    }
}

/// The matched document terms after each of `more` takes its fields from
/// there, in order.
pub open spec fn matches_assigned(
    matches: Seq<(u16, Seq<u32>)>,
    more: Seq<(u16, Seq<u32>)>,
) -> Seq<(u16, Seq<u32>)>
    decreases more.len(),
{
    if more.len() == 0 {
        matches
    } else {
        assoc_set(matches_assigned(matches, more.drop_last()), more.last().0, more.last().1)
    }
}

/// Where an entry of a combined result comes from: the document, its
/// position among the first results, if it is there, and its position among
/// the second, if it is there. An entry found in both merges the second
/// into the first.
pub type Pick = (u32, Option<usize>, Option<usize>);

/// The position of `doc` in `docs`, if it is there.
pub open spec fn position_in(docs: Seq<u32>, doc: u32) -> Option<usize> {
    if docs.contains(doc) {
        Some((choose|i: int| 0 <= i < docs.len() && #[trigger] docs[i] == doc) as usize)
    } else {
        None
    }
}

/// The documents of `docs` that are (`present`) or are not in `other`,
/// each with its position, in order.
pub open spec fn picked(docs: Seq<u32>, other: Seq<u32>, present: bool) -> Seq<(u32, usize)>
    decreases docs.len(),
{
    if docs.len() == 0 {
        Seq::empty()
    } else {
        let before = picked(docs.drop_last(), other, present);
        if other.contains(docs.last()) == present {
            before.push((docs.last(), (docs.len() - 1) as usize))
        } else {
            before
        }
    }
}

/// The entries of two results combined: for `Or`, every document of the
/// first in its order, then those only in the second in theirs; for `And`,
/// the documents of the second that are in the first, in the second's
/// order; for `AndNot`, the documents of the first that are not in the
/// second, in the first's order.
pub open spec fn combined(first: Seq<u32>, second: Seq<u32>, combine: Combine) -> Seq<Pick> {
    match combine {
        Combine::Or => Seq::new(
            first.len(),
            |i: int| (first[i], Some(i as usize), position_in(second, first[i])),
        ) + picked(second, first, false).map_values(
            |entry: (u32, usize)| (entry.0, None::<usize>, Some(entry.1)),
        ),
        Combine::And => picked(second, first, true).map_values(
            |entry: (u32, usize)| (entry.0, position_in(first, entry.0), Some(entry.1)),
        ),
        Combine::AndNot => picked(first, second, false).map_values(
            |entry: (u32, usize)| (entry.0, Some(entry.1), None::<usize>),
        ),
    }
}

/// The positions of the documents of a result.
fn positions_of(docs: &Vec<u32>) -> (positions: Positions)
    requires
        docs@.no_duplicates(),
    ensures
        forall|doc: u32| #[trigger] positions@.contains_key(doc) == docs@.contains(doc),
        forall|doc: u32|
            #[trigger] positions@.contains_key(doc) ==> Some(positions@[doc]) == position_in(
                docs@,
                doc,
            ),
{
    let mut positions = new_positions();
    let mut i: usize = 0;
    while i < docs.len()
        invariant
            i <= docs@.len(),
            docs@.no_duplicates(),
            forall|doc: u32| #[trigger]
                positions@.contains_key(doc) == docs@.take(i as int).contains(doc),
            forall|doc: u32| #[trigger]
                positions@.contains_key(doc) ==> (positions@[doc] as int) < i && docs@[positions@[doc] as int] == doc,
        decreases docs@.len() - i,
    {
        let ghost before = positions@;
        set_position(&mut positions, docs[i], i);
        proof {
            assert forall|doc: u32| #[trigger]
                positions@.contains_key(doc) == docs@.take(i + 1).contains(doc) by {
                if docs@.take(i + 1).contains(doc) {
                    let k = choose|k: int| 0 <= k < i + 1 && #[trigger] docs@.take(i + 1)[k] == doc;
                    if k < i {
                        assert(docs@.take(i as int)[k] == doc);
                        assert(before.contains_key(doc));
                    }
                }
                if before.contains_key(doc) {
                    assert(docs@.take(i as int).contains(doc));
                    let k = choose|k: int| 0 <= k < i && #[trigger] docs@.take(i as int)[k] == doc;
                    assert(docs@.take(i + 1)[k] == doc);
                }
                if doc == docs@[i as int] {
                    assert(docs@.take(i + 1)[i as int] == doc);
                }
            }
        }
        i = i + 1;
    }
    proof {
        assert(docs@.take(docs@.len() as int) =~= docs@);
        assert forall|doc: u32| #[trigger] positions@.contains_key(doc) implies Some(positions@[doc])
            == position_in(docs@, doc) by {
            let p = positions@[doc] as int;
            assert(docs@.contains(doc));
            let c = choose|c: int| 0 <= c < docs@.len() && #[trigger] docs@[c] == doc;
            assert(c == p);
        }
    }
    positions
}

/// Where each entry of two combined results comes from: the first results
/// have the documents `first`, the second `second`, each without repeats.
pub fn combine_plan(first: &Vec<u32>, second: &Vec<u32>, combine: Combine) -> (plan: Vec<Pick>)
    requires
        first@.no_duplicates(),
        second@.no_duplicates(),
    ensures
        plan@ == combined(first@, second@, combine),
{
    let in_first = positions_of(first);
    let in_second = positions_of(second);
    let mut plan: Vec<Pick> = Vec::new();
    match combine {
        Combine::Or => {
            let mut i: usize = 0;
            while i < first.len()
                invariant
                    i <= first@.len(),
                    forall|doc: u32| #[trigger]
                        in_second@.contains_key(doc) == second@.contains(doc),
                    forall|doc: u32| #[trigger]
                        in_second@.contains_key(doc) ==> Some(in_second@[doc]) == position_in(
                            second@,
                            doc,
                        ),
                    plan@ == Seq::new(
                        i as nat,
                        |k: int| (first@[k], Some(k as usize), position_in(second@, first@[k])),
                    ),
                decreases first@.len() - i,
            {
                let doc = first[i];
                let found = position_of(&in_second, doc);
                plan.push((doc, Some(i), found));
                proof {
                    assert(plan@ =~= Seq::new(
                        (i + 1) as nat,
                        |k: int| (first@[k], Some(k as usize), position_in(second@, first@[k])),
                    ));
                }
                i = i + 1;
            }
            let ghost head = plan@;
            let mut j: usize = 0;
            while j < second.len()
                invariant
                    j <= second@.len(),
                    forall|doc: u32| #[trigger] in_first@.contains_key(doc) == first@.contains(doc),
                    head == Seq::new(
                        first@.len(),
                        |k: int| (first@[k], Some(k as usize), position_in(second@, first@[k])),
                    ),
                    plan@ == head + picked(second@.take(j as int), first@, false).map_values(
                        |entry: (u32, usize)| (entry.0, None::<usize>, Some(entry.1)),
                    ),
                decreases second@.len() - j,
            {
                let doc = second[j];
                proof {
                    assert(second@.take(j + 1).drop_last() =~= second@.take(j as int));
                    assert(second@.take(j + 1).last() == doc);
                }
                if position_of(&in_first, doc).is_none() {
                    plan.push((doc, None, Some(j)));
                    proof {
                        let tail = picked(second@.take(j as int), first@, false);
                        let f = |entry: (u32, usize)| (entry.0, None::<usize>, Some(entry.1));
                        assert(tail.push((doc, j)).map_values(f) =~= tail.map_values(f).push(
                            (doc, None::<usize>, Some(j)),
                        ));
                        assert(plan@ =~= head + tail.push((doc, j)).map_values(f));
                    }
                }
                j = j + 1;
            }
            proof {
                assert(second@.take(second@.len() as int) =~= second@);
            }
        },
        Combine::And => {
            let mut j: usize = 0;
            while j < second.len()
                invariant
                    j <= second@.len(),
                    forall|doc: u32| #[trigger] in_first@.contains_key(doc) == first@.contains(doc),
                    forall|doc: u32| #[trigger]
                        in_first@.contains_key(doc) ==> Some(in_first@[doc]) == position_in(
                            first@,
                            doc,
                        ),
                    plan@ == picked(second@.take(j as int), first@, true).map_values(
                        |entry: (u32, usize)| (entry.0, position_in(first@, entry.0), Some(entry.1)),
                    ),
                decreases second@.len() - j,
            {
                let doc = second[j];
                proof {
                    assert(second@.take(j + 1).drop_last() =~= second@.take(j as int));
                    assert(second@.take(j + 1).last() == doc);
                }
                match position_of(&in_first, doc) {
                    Some(i) => {
                        plan.push((doc, Some(i), Some(j)));
                        proof {
                            let tail = picked(second@.take(j as int), first@, true);
                            let f = |entry: (u32, usize)|
                                (entry.0, position_in(first@, entry.0), Some(entry.1));
                            assert(tail.push((doc, j)).map_values(f) =~= tail.map_values(f).push(
                                (doc, Some(i), Some(j)),
                            ));
                        }
                    },
                    None => {},
                }
                j = j + 1;
            }
            proof {
                assert(second@.take(second@.len() as int) =~= second@);
            }
        },
        Combine::AndNot => {
            let mut i: usize = 0;
            while i < first.len()
                invariant
                    i <= first@.len(),
                    forall|doc: u32| #[trigger]
                        in_second@.contains_key(doc) == second@.contains(doc),
                    plan@ == picked(first@.take(i as int), second@, false).map_values(
                        |entry: (u32, usize)| (entry.0, Some(entry.1), None::<usize>),
                    ),
                decreases first@.len() - i,
            {
                let doc = first[i];
                proof {
                    assert(first@.take(i + 1).drop_last() =~= first@.take(i as int));
                    assert(first@.take(i + 1).last() == doc);
                }
                if position_of(&in_second, doc).is_none() {
                    plan.push((doc, Some(i), None));
                    proof {
                        let tail = picked(first@.take(i as int), second@, false);
                        let f = |entry: (u32, usize)| (entry.0, Some(entry.1), None::<usize>);
                        assert(tail.push((doc, i)).map_values(f) =~= tail.map_values(f).push(
                            (doc, Some(i), None::<usize>),
                        ));
                    }
                }
                i = i + 1;
            }
            proof {
                assert(first@.take(first@.len() as int) =~= first@);
            }
        },
    }
    plan
}

/// The documents of the entries of a combined result.
pub open spec fn pick_docs(plan: Seq<Pick>) -> Seq<u32> {
    plan.map_values(|pick: Pick| pick.0)
}

/// The position found for a document is where it is.
proof fn lemma_position_in(docs: Seq<u32>, doc: u32)
    requires
        docs.len() <= usize::MAX,
    ensures
        position_in(docs, doc) is Some == docs.contains(doc),
        position_in(docs, doc) matches Some(p) ==> (p as int) < docs.len() && docs[p as int] == doc,
{
    if docs.contains(doc) {
        let c = choose|i: int| 0 <= i < docs.len() && #[trigger] docs[i] == doc;
        assert(0 <= c < docs.len() && docs[c] == doc);
    }
}

/// The picked documents are those of `docs` that are, or are not, in
/// `other`, each at its position.
proof fn lemma_picked(docs: Seq<u32>, other: Seq<u32>, present: bool)
    requires
        docs.len() <= usize::MAX,
    ensures
        forall|k: int|
            0 <= k < picked(docs, other, present).len() ==> {
                &&& ((#[trigger] picked(docs, other, present)[k]).1 as int) < docs.len()
                &&& docs[picked(docs, other, present)[k].1 as int] == picked(docs, other, present)[k].0
                &&& other.contains(picked(docs, other, present)[k].0) == present
            },
        forall|j: int|
            0 <= j < docs.len() && other.contains(#[trigger] docs[j]) == present ==> exists|k: int|
                0 <= k < picked(docs, other, present).len() && #[trigger] picked(
                    docs,
                    other,
                    present,
                )[k].0 == docs[j],
    decreases docs.len(),
{
    if docs.len() > 0 {
        let before = docs.drop_last();
        lemma_picked(before, other, present);
        let now = picked(docs, other, present);
        let old_picks = picked(before, other, present);
        assert forall|k: int| 0 <= k < now.len() implies {
            &&& ((#[trigger] now[k]).1 as int) < docs.len()
            &&& docs[now[k].1 as int] == now[k].0
            &&& other.contains(now[k].0) == present
        } by {
            if k < old_picks.len() {
                assert(now[k] == old_picks[k]);
                assert(docs[old_picks[k].1 as int] == before[old_picks[k].1 as int]);
            }
        }
        assert forall|j: int|
            0 <= j < docs.len() && other.contains(#[trigger] docs[j]) == present implies exists|k: int|
            0 <= k < now.len() && #[trigger] now[k].0 == docs[j] by {
            if j < before.len() {
                assert(before[j] == docs[j]);
                let k = choose|k: int| 0 <= k < old_picks.len() && #[trigger] old_picks[k].0 == before[j];
                assert(now[k] == old_picks[k]);
            } else {
                assert(now[old_picks.len() as int].0 == docs[j]);
            }
        }
    }
}

/// Combining takes the union (`Or`), the intersection (`And`) or the
/// difference (`AndNot`) of the documents of two results; an entry has a
/// position in each result that has its document, and that position holds
/// the document.
pub proof fn lemma_combined_documents(first: Seq<u32>, second: Seq<u32>, combine: Combine)
    requires
        first.len() <= usize::MAX,
        second.len() <= usize::MAX,
    ensures
        forall|doc: u32|
            #[trigger] pick_docs(combined(first, second, combine)).contains(doc)
                == match combine {
                Combine::Or => first.contains(doc) || second.contains(doc),
                Combine::And => first.contains(doc) && second.contains(doc),
                Combine::AndNot => first.contains(doc) && !second.contains(doc),
            },
        forall|k: int|
            0 <= k < combined(first, second, combine).len() ==> {
                let (doc, in_first, in_second) = #[trigger] combined(first, second, combine)[k];
                &&& in_first is Some == first.contains(doc)
                &&& in_second is Some == second.contains(doc)
                &&& in_first matches Some(i) ==> (i as int) < first.len() && first[i as int] == doc
                &&& in_second matches Some(j) ==> (j as int) < second.len() && second[j as int] == doc
            },
{
    let plan = combined(first, second, combine);
    let docs = pick_docs(plan);
    lemma_picked(second, first, false);
    lemma_picked(second, first, true);
    lemma_picked(first, second, false);
    assert forall|k: int| 0 <= k < plan.len() implies {
        let (doc, in_first, in_second) = #[trigger] plan[k];
        &&& in_first is Some == first.contains(doc)
        &&& in_second is Some == second.contains(doc)
        &&& in_first matches Some(i) ==> (i as int) < first.len() && first[i as int] == doc
        &&& in_second matches Some(j) ==> (j as int) < second.len() && second[j as int] == doc
    } by {
        let (doc, in_first, in_second) = plan[k];
        lemma_position_in(first, doc);
        lemma_position_in(second, doc);
        match combine {
            Combine::Or => {
                if k < first.len() {
                    assert(first[k] == doc);
                    assert(first.contains(doc));
                } else {
                    let e = picked(second, first, false)[k - first.len()];
                    assert(second[e.1 as int] == e.0);
                }
            },
            Combine::And => {
                let e = picked(second, first, true)[k];
                assert(second[e.1 as int] == e.0);
            },
            Combine::AndNot => {
                let e = picked(first, second, false)[k];
                assert(first[e.1 as int] == e.0);
            },
        }
    }
    assert forall|doc: u32| #[trigger] docs.contains(doc) == match combine {
        Combine::Or => first.contains(doc) || second.contains(doc),
        Combine::And => first.contains(doc) && second.contains(doc),
        Combine::AndNot => first.contains(doc) && !second.contains(doc),
    } by {
        if docs.contains(doc) {
            let k = choose|k: int| 0 <= k < docs.len() && docs[k] == doc;
            assert(plan[k].0 == doc);
        }
        match combine {
            Combine::Or => {
                if first.contains(doc) {
                    let i = choose|i: int| 0 <= i < first.len() && first[i] == doc;
                    assert(docs[i] == doc);
                } else if second.contains(doc) {
                    let j = choose|j: int| 0 <= j < second.len() && second[j] == doc;
                    let tail = picked(second, first, false);
                    let k = choose|k: int| 0 <= k < tail.len() && #[trigger] tail[k].0 == second[j];
                    assert(docs[first.len() + k] == doc);
                }
            },
            Combine::And => {
                if first.contains(doc) && second.contains(doc) {
                    let j = choose|j: int| 0 <= j < second.len() && second[j] == doc;
                    let tail = picked(second, first, true);
                    let k = choose|k: int| 0 <= k < tail.len() && #[trigger] tail[k].0 == second[j];
                    assert(docs[k] == doc);
                }
            },
            Combine::AndNot => {
                if first.contains(doc) && !second.contains(doc) {
                    let i = choose|i: int| 0 <= i < first.len() && first[i] == doc;
                    let tail = picked(first, second, false);
                    let k = choose|k: int| 0 <= k < tail.len() && #[trigger] tail[k].0 == first[i];
                    assert(docs[k] == doc);
                }
            },
        }
    }
}

} // verus!
