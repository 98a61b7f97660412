//! The index: what every document holds, and how common every token is.

use crate::lexer::{tokenize, tokens_of};
use vstd::hash_map::StringHashMap;
use vstd::multiset::Multiset;
use vstd::prelude::*;

verus! {

broadcast use {vstd::multiset::group_multiset_axioms, vstd::seq_lib::group_to_multiset_ensures};

/// The statistics of one ingested text: its tokens as a bag.
///
/// How often a token occurs in the document is its count in the bag; the
/// number of tokens of the document is the size of the bag, which is the sum
/// of the counts.
pub struct Document {
    term_frequency: StringHashMap<usize>,
    count: usize,
    tokens: Ghost<Multiset<Seq<char>>>,
}

impl View for Document {
    type V = Multiset<Seq<char>>;

    closed spec fn view(&self) -> Multiset<Seq<char>> {
        self.tokens@
    }
}

impl Document {
    /// The stored counts are those of the bag: a token has an entry exactly
    /// when it occurs, the entry is its count, and the total is the size of
    /// the bag.
    pub closed spec fn wf(&self) -> bool {
        &&& self.count == self@.len()
        &&& forall|token: Seq<char>|
            #![trigger self.term_frequency@.contains_key(token)]
            #![trigger self@.count(token)]
            self.term_frequency@.contains_key(token) <==> self@.count(token) > 0
        &&& forall|token: Seq<char>| #[trigger]
            self.term_frequency@.contains_key(token) ==> self.term_frequency@[token]
                == self@.count(token)
    }

    /// Counts `tokens`.  Beside the document it returns each token that
    /// occurs, once, in the order of first occurrence.
    fn count_tokens(tokens: &Vec<String>) -> (counted: (Document, Vec<String>))
        ensures
            counted.0.wf(),
            counted.0@ == tokens.deep_view().to_multiset(),
            counted.1.deep_view().no_duplicates(),
            forall|token: Seq<char>|
                counted.1.deep_view().contains(token) <==> tokens.deep_view().contains(token),
    {
        let mut term_frequency: StringHashMap<usize> = StringHashMap::new();
        let mut distinct: Vec<String> = Vec::new();
        let n = tokens.len();
        let mut i: usize = 0;
        assert(tokens.deep_view().take(0) =~= Seq::<Seq<char>>::empty());
        while i < n
            invariant
                n == tokens.len(),
                i <= n,
                forall|token: Seq<char>|
                    #![trigger term_frequency@.contains_key(token)]
                    term_frequency@.contains_key(token) <==> tokens.deep_view().take(
                        i as int,
                    ).to_multiset().count(token) > 0,
                forall|token: Seq<char>| #[trigger]
                    term_frequency@.contains_key(token) ==> term_frequency@[token]
                        == tokens.deep_view().take(i as int).to_multiset().count(token),
                distinct.deep_view().no_duplicates(),
                forall|token: Seq<char>|
                    distinct.deep_view().contains(token) <==> term_frequency@.contains_key(token),
            decreases n - i,
        {
            let token = &tokens[i];
            let ghost seen = tokens.deep_view().take(i as int);
            let ghost listed = distinct.deep_view();
            proof {
                assert(tokens.deep_view()[i as int] == token@);
                assert(tokens.deep_view().take(i + 1) =~= seen.push(token@));
                assert(seen.to_multiset().count(token@) <= seen.to_multiset().len() == seen.len());
            }
            let known = match term_frequency.get(token.as_str()) {
                Some(times) => Some(*times),
                None => None,
            };
            match known {
                Some(times) => {
                    term_frequency.insert(token.clone(), times + 1);
                },
                None => {
                    term_frequency.insert(token.clone(), 1);
                    distinct.push(token.clone());
                    proof {
                        assert(distinct.deep_view() =~= listed.push(token@));
                        assert(!listed.contains(token@));
                        assert forall|t: Seq<char>|
                            distinct.deep_view().contains(t) <==> term_frequency@.contains_key(
                                t,
                            ) by {
                            if t == token@ {
                                assert(distinct.deep_view()[listed.len() as int] == t);
                            } else if listed.contains(t) {
                                let k = choose|k: int| 0 <= k < listed.len() && listed[k] == t;
                                assert(distinct.deep_view()[k] == t);
                            }
                        }
                    }
                },
            }
            i += 1;
        }
        assert(tokens.deep_view().take(n as int) =~= tokens.deep_view());
        let document = Document {
            term_frequency,
            count: n,
            tokens: Ghost(tokens.deep_view().to_multiset()),
        };
        (document, distinct)
    }

    /// The document that holds `tokens`.
    pub fn from_tokens(tokens: &Vec<String>) -> (document: Document)
        ensures
            document.wf(),
            document@ == tokens.deep_view().to_multiset(),
    {
        Document::count_tokens(tokens).0
    }

    /// The number of tokens of the document.
    pub fn token_count(&self) -> (count: usize)
        requires
            self.wf(),
        ensures
            count == self@.len(),
    {
        self.count
    }

    /// How often `token` occurs in the document.
    pub fn occurrences(&self, token: &str) -> (times: usize)
        requires
            self.wf(),
        ensures
            times == self@.count(token@),
    {
        match self.term_frequency.get(token) {
            Some(times) => *times,
            None => 0,
        }
    }
}

/// What the index knows of one query token in one document that holds it.
///
/// The token adds `occurrences / length * log10(corpus / containing)` to the
/// score of the document: the first quotient is its term frequency, the
/// logarithm its inverse document frequency.
#[derive(Clone, Copy, Debug, PartialEq, Eq)]
pub struct Term {
    /// How often the token occurs in the document.
    pub occurrences: usize,
    /// The number of tokens of the document.
    pub length: usize,
    /// The number of ingestions that contained the token.
    pub containing: usize,
    /// The number of documents in the index.
    pub corpus: usize,
}

/// A `Term` as a mathematical value.
pub struct TermView {
    pub occurrences: nat,
    pub length: nat,
    pub containing: nat,
    pub corpus: nat,
}

impl View for Term {
    type V = TermView;

    open spec fn view(&self) -> TermView {
        TermView {
            occurrences: self.occurrences as nat,
            length: self.length as nat,
            containing: self.containing as nat,
            corpus: self.corpus as nat,
        }
    }
}

impl DeepView for Term {
    type V = TermView;

    open spec fn deep_view(&self) -> TermView {
        self@
    }
}

/// The test that a token occurs in `document`.
pub open spec fn occurs_in(document: Multiset<Seq<char>>) -> spec_fn(Seq<char>) -> bool {
    |token: Seq<char>| document.count(token) > 0
}

/// The index as a mathematical value.
pub struct IndexView {
    /// The documents, each with its name and its bag of tokens, in the order
    /// in which their names were first ingested.
    pub entries: Seq<(Seq<char>, Multiset<Seq<char>>)>,
    /// For each token that was ever ingested, the number of ingestions whose
    /// text contained it.
    pub document_frequency: Map<Seq<char>, nat>,
}

impl IndexView {
    /// The index before anything is ingested.
    pub open spec fn empty() -> IndexView {
        IndexView { entries: Seq::empty(), document_frequency: Map::empty() }
    }

    /// Whether a document is stored under `name`.
    pub open spec fn contains(self, name: Seq<char>) -> bool {
        exists|i: int| 0 <= i < self.entries.len() && (#[trigger] self.entries[i]).0 == name
    }

    /// Where the document named `name` is stored, if one is.
    pub open spec fn position(self, name: Seq<char>) -> int {
        choose|i: int| 0 <= i < self.entries.len() && (#[trigger] self.entries[i]).0 == name
    }

    /// The documents as a mapping from name to bag of tokens.
    pub open spec fn documents(self) -> Map<Seq<char>, Multiset<Seq<char>>> {
        Map::new(
            |name: Seq<char>| self.contains(name),
            |name: Seq<char>| self.entries[self.position(name)].1,
        )
    }

    /// The number of ingestions that contained `token`; 0 for a token that
    /// was never ingested.
    pub open spec fn frequency(self, token: Seq<char>) -> nat {
        if self.document_frequency.contains_key(token) {
            self.document_frequency[token]
        } else {
            0
        }
    }

    /// No name is stored twice.
    pub open spec fn distinct_names(self) -> bool {
        forall|i: int, j: int|
            0 <= i < j < self.entries.len() ==> (#[trigger] self.entries[i]).0 != (
            #[trigger] self.entries[j]).0
    }

    /// No name is stored twice; no token is listed with a count of 0; every
    /// token of a stored document is counted.
    pub open spec fn wf(self) -> bool {
        &&& self.distinct_names()
        &&& forall|token: Seq<char>| #[trigger]
            self.document_frequency.contains_key(token) ==> 1 <= self.document_frequency[token]
        &&& forall|i: int, token: Seq<char>|
            0 <= i < self.entries.len() && (#[trigger] self.entries[i]).1.count(token) > 0
                ==> #[trigger] self.document_frequency.contains_key(token)
    }

    /// The index after a text with the tokens `tokens` is ingested under
    /// `name`.
    ///
    /// The document takes the place of the one stored under that name, or
    /// comes last where there is none.  Every token that occurs in `tokens`
    /// is counted once more, however often it occurs; the counts that an
    /// earlier text under the same name added stay.
    pub open spec fn ingest(self, name: Seq<char>, tokens: Seq<Seq<char>>) -> IndexView {
        let document = (name, tokens.to_multiset());
        IndexView {
            entries: if self.contains(name) {
                self.entries.update(self.position(name), document)
            } else {
                self.entries.push(document)
            },
            document_frequency: Map::new(
                |token: Seq<char>|
                    self.document_frequency.contains_key(token) || tokens.contains(token),
                |token: Seq<char>|
                    if tokens.contains(token) {
                        self.frequency(token) + 1
                    } else {
                        self.frequency(token)
                    },
            ),
        }
    }

    /// Whether each of `tokens` can be counted once more: its count is below
    /// the greatest number that a `usize` holds.
    pub open spec fn can_count(self, tokens: Seq<Seq<char>>) -> bool {
        forall|token: Seq<char>| #[trigger]
            tokens.contains(token) ==> self.frequency(token) < usize::MAX
    }

    /// Whether every token can be counted once more.
    pub open spec fn can_count_all(self) -> bool {
        forall|token: Seq<char>| #[trigger] self.frequency(token) < usize::MAX
    }

    /// The number of ingestions by which the rarity of `token` is measured:
    /// those that contained it, or 1 for a token that was never ingested.
    pub open spec fn containing(self, token: Seq<char>) -> nat {
        if self.document_frequency.contains_key(token) {
            self.document_frequency[token]
        } else {
            1
        }
    }

    /// What the index knows of `token` in `document`.
    pub open spec fn term(self, document: Multiset<Seq<char>>, token: Seq<char>) -> TermView {
        TermView {
            occurrences: document.count(token),
            length: document.len(),
            containing: self.containing(token),
            corpus: self.entries.len(),
        }
    }

    /// `term` for a fixed document.
    pub open spec fn term_in(self, document: Multiset<Seq<char>>) -> spec_fn(
        Seq<char>,
    ) -> TermView {
        |token: Seq<char>| self.term(document, token)
    }

    /// The terms of a query in `document`: one for each token of the query
    /// that occurs in the document, in the order of the query.  A token that
    /// the query repeats gives a term each time.
    pub open spec fn terms(self, document: Multiset<Seq<char>>, query: Seq<Seq<char>>) -> Seq<
        TermView,
    > {
        query.filter(occurs_in(document)).map_values(self.term_in(document))
    }

    /// The test that a document holds `token`.
    pub open spec fn holds(token: Seq<char>) -> spec_fn(
        (Seq<char>, Multiset<Seq<char>>),
    ) -> bool {
        |entry: (Seq<char>, Multiset<Seq<char>>)| entry.1.count(token) > 0
    }

    /// The number of documents that hold `token`.
    pub open spec fn holders(self, token: Seq<char>) -> nat {
        self.entries.filter(Self::holds(token)).len()
    }

    /// Every token is counted as often as there are documents that hold it.
    pub open spec fn counts_documents(self) -> bool {
        forall|token: Seq<char>| #[trigger] self.frequency(token) == self.holders(token)
    }

    /// The answer to a query: every document, in the order of the index,
    /// with its name and the terms of the query in it.
    pub open spec fn search(self, query: Seq<Seq<char>>) -> Seq<(Seq<char>, Seq<TermView>)> {
        self.entries.map_values(
            |entry: (Seq<char>, Multiset<Seq<char>>)| (entry.0, self.terms(entry.1, query)),
        )
    }
}

/// Ingestion keeps the index well-formed.
pub proof fn lemma_ingest_wf(index: IndexView, name: Seq<char>, tokens: Seq<Seq<char>>)
    requires
        index.wf(),
    ensures
        index.ingest(name, tokens).wf(),
{
    let after = index.ingest(name, tokens);
    assert forall|i: int, token: Seq<char>|
        0 <= i < after.entries.len() && (#[trigger] after.entries[i]).1.count(token) > 0 implies (
    #[trigger] after.document_frequency.contains_key(token)) by {
        if after.entries[i].1 == tokens.to_multiset() {
            assert(tokens.contains(token));
        } else {
            assert(after.entries[i] == index.entries[i]);
        }
    }
    if index.contains(name) {
        let at = index.position(name);
        assert forall|i: int, j: int| 0 <= i < j < after.entries.len() implies (
        #[trigger] after.entries[i]).0 != (#[trigger] after.entries[j]).0 by {
            assert(after.entries[i].0 == index.entries[i].0);
            assert(after.entries[j].0 == index.entries[j].0);
        }
    } else {
        assert forall|i: int, j: int| 0 <= i < j < after.entries.len() implies (
        #[trigger] after.entries[i]).0 != (#[trigger] after.entries[j]).0 by {
            if j < index.entries.len() {
                assert(after.entries[i] == index.entries[i]);
                assert(after.entries[j] == index.entries[j]);
            } else {
                assert(after.entries[i] == index.entries[i]);
            }
        }
    }
}

/// A token that occurs in the ingested text is counted once more, however
/// often it occurs there; the count of every other token stays.
pub proof fn lemma_ingest_counts_once(
    index: IndexView,
    name: Seq<char>,
    tokens: Seq<Seq<char>>,
    token: Seq<char>,
)
    ensures
        index.ingest(name, tokens).frequency(token) == index.frequency(token) + (if tokens.contains(
            token,
        ) {
            1nat
        } else {
            0nat
        }),
        tokens.contains(token) <==> tokens.to_multiset().count(token) > 0,
{
}

/// Ingestion stores the document under its name, in place of the one that
/// was stored there, and leaves the other documents as they are.
pub proof fn lemma_ingest_documents(index: IndexView, name: Seq<char>, tokens: Seq<Seq<char>>)
    requires
        index.wf(),
    ensures
        index.ingest(name, tokens).documents() == index.documents().insert(
            name,
            tokens.to_multiset(),
        ),
{
    let after = index.ingest(name, tokens);
    lemma_ingest_wf(index, name, tokens);
    let at = if index.contains(name) {
        index.position(name)
    } else {
        index.entries.len() as int
    };
    assert(after.entries[at] == (name, tokens.to_multiset()));
    assert forall|other: Seq<char>| after.contains(other) <==> other == name || index.contains(
        other,
    ) by {
        if after.contains(other) {
            let i = after.position(other);
            if i != at {
                assert(index.entries[i].0 == other);
            }
        }
        if index.contains(other) {
            let i = index.position(other);
            assert(after.entries[i].0 == other);
        }
    }
    assert forall|other: Seq<char>| after.contains(other) implies #[trigger] after.documents()[other]
        == index.documents().insert(name, tokens.to_multiset())[other] by {
        let i = after.position(other);
        if other == name {
            assert(i == at);
        } else {
            assert(index.entries[i].0 == other);
            let j = index.position(other);
            assert(i == j);
        }
    }
    assert(after.documents() =~= index.documents().insert(name, tokens.to_multiset()));
}

/// In an index without documents no token is counted, which is as many as
/// there are documents that hold it.
pub proof fn lemma_empty_counts_documents()
    ensures
        IndexView::empty().wf(),
        IndexView::empty().counts_documents(),
{
    assert forall|token: Seq<char>| #[trigger]
        IndexView::empty().frequency(token) == IndexView::empty().holders(token) by {
        IndexView::empty().entries.lemma_filter_len(IndexView::holds(token));
    }
}

/// Where every token is counted as often as there are documents that hold
/// it, it stays so when a text is ingested under a name that is not in use.
pub proof fn lemma_fresh_ingest_counts_documents(
    index: IndexView,
    name: Seq<char>,
    tokens: Seq<Seq<char>>,
)
    requires
        index.counts_documents(),
        !index.contains(name),
    ensures
        index.ingest(name, tokens).counts_documents(),
{
    let after = index.ingest(name, tokens);
    assert forall|token: Seq<char>| #[trigger]
        after.frequency(token) == after.holders(token) by {
        assert(index.frequency(token) == index.holders(token));
        index.entries.lemma_filter_push(
            (name, tokens.to_multiset()),
            IndexView::holds(token),
        );
    }
}

/// Where every token is counted as often as there are documents that hold
/// it, no count exceeds the number of documents.
pub proof fn lemma_frequency_bounded(index: IndexView, token: Seq<char>)
    requires
        index.counts_documents(),
    ensures
        index.frequency(token) <= index.entries.len(),
{
    assert(index.frequency(token) == index.holders(token));
    index.entries.lemma_filter_len(IndexView::holds(token));
}

/// The answer to a query names every document once, in the order of the
/// index, whether or not the document holds a token of the query.
pub proof fn lemma_search_names(index: IndexView, query: Seq<Seq<char>>)
    ensures
        index.search(query).len() == index.entries.len(),
        forall|i: int|
            0 <= i < index.entries.len() ==> (#[trigger] index.search(query)[i]).0
                == index.entries[i].0,
{
}

/// Over an index without documents the answer to every query is empty.
pub proof fn lemma_search_of_empty_index(query: Seq<Seq<char>>)
    ensures
        IndexView::empty().search(query) == Seq::<(Seq<char>, Seq<TermView>)>::empty(),
{
    assert(IndexView::empty().search(query) =~= Seq::<(Seq<char>, Seq<TermView>)>::empty());
}

/// Where no token is counted more often than there are documents, it stays
/// so when a text is ingested under a name that is not in use.
pub proof fn lemma_fresh_ingest_keeps_bound(
    index: IndexView,
    name: Seq<char>,
    tokens: Seq<Seq<char>>,
)
    requires
        forall|token: Seq<char>| #[trigger] index.frequency(token) <= index.entries.len(),
        !index.contains(name),
    ensures
        forall|token: Seq<char>| #[trigger]
            index.ingest(name, tokens).frequency(token) <= index.ingest(
                name,
                tokens,
            ).entries.len(),
{
    assert forall|token: Seq<char>| #[trigger]
        index.ingest(name, tokens).frequency(token) <= index.ingest(
            name,
            tokens,
        ).entries.len() by {
        assert(index.frequency(token) <= index.entries.len());
    }
}

/// A query token that no document holds adds no term to any document: the
/// answer is the same as without it.
pub proof fn lemma_absent_token_adds_nothing(
    index: IndexView,
    before: Seq<Seq<char>>,
    token: Seq<char>,
    after: Seq<Seq<char>>,
)
    requires
        forall|i: int|
            0 <= i < index.entries.len() ==> (#[trigger] index.entries[i]).1.count(token) == 0,
    ensures
        index.search(before.push(token) + after) == index.search(before + after),
{
    assert forall|i: int| 0 <= i < index.entries.len() implies index.terms(
        (#[trigger] index.entries[i]).1,
        before.push(token) + after,
    ) == index.terms(index.entries[i].1, before + after) by {
        let test = occurs_in(index.entries[i].1);
        Seq::filter_distributes_over_add(before.push(token), after, test);
        Seq::filter_distributes_over_add(before, after, test);
        before.lemma_filter_push(token, test);
    }
    assert(index.search(before.push(token) + after) =~= index.search(before + after));
}

/// Every term of an answer can be scored: the token occurs in the document,
/// so the document is not empty and the token has been counted, and the
/// index holds a document.  Neither quotient of the score divides by 0, and
/// the logarithm is taken of a positive number.
pub proof fn lemma_terms_are_defined(index: IndexView, query: Seq<Seq<char>>, i: int, k: int)
    requires
        index.wf(),
        0 <= i < index.entries.len(),
        0 <= k < index.search(query)[i].1.len(),
    ensures
        ({
            let term = index.search(query)[i].1[k];
            &&& 1 <= term.occurrences <= term.length
            &&& 1 <= term.containing
            &&& 1 <= term.corpus
        }),
{
    let document = index.entries[i].1;
    let asked = query.filter(occurs_in(document));
    query.lemma_filter_pred(occurs_in(document), k);
    let token = asked[k];
    assert(index.search(query)[i].1[k] == index.term(document, token));
    assert(document.count(token) <= document.len());
    assert(index.document_frequency.contains_key(token));
}

/// Where every token is counted as often as there are documents that hold
/// it, no term of an answer counts more documents for its token than the
/// index holds: the logarithm of its score is not negative.
pub proof fn lemma_counted_terms_are_bounded(
    index: IndexView,
    query: Seq<Seq<char>>,
    i: int,
    k: int,
)
    requires
        index.wf(),
        index.counts_documents(),
        0 <= i < index.entries.len(),
        0 <= k < index.search(query)[i].1.len(),
    ensures
        index.search(query)[i].1[k].containing <= index.search(query)[i].1[k].corpus,
{
    let document = index.entries[i].1;
    let asked = query.filter(occurs_in(document));
    query.lemma_filter_pred(occurs_in(document), k);
    let token = asked[k];
    assert(index.search(query)[i].1[k] == index.term(document, token));
    assert(index.document_frequency.contains_key(token));
    lemma_frequency_bounded(index, token);
}

/// The corpus: the documents that were ingested, and for every token the
/// number of ingestions that contained it.
///
/// The documents stand in the order in which their names were first
/// ingested, so that an answer lists them in an order that is the same from
/// run to run.
pub struct Index {
    documents: Vec<(String, Document)>,
    document_frequency: StringHashMap<usize>,
}

impl Default for Index {
    /// An index without documents.
    fn default() -> (index: Index)
        ensures
            index.wf(),
            index@ == IndexView::empty(),
    {
        Index::new()
    }
}

impl View for Index {
    type V = IndexView;

    closed spec fn view(&self) -> IndexView {
        IndexView {
            entries: Seq::new(
                self.documents@.len(),
                |i: int| (self.documents@[i].0@, self.documents@[i].1@),
            ),
            document_frequency: Map::new(
                |token: Seq<char>| self.document_frequency@.contains_key(token),
                |token: Seq<char>| self.document_frequency@[token] as nat,
            ),
        }
    }
}

impl Index {
    /// Each stored document is well-formed.
    pub closed spec fn stored(&self) -> bool {
        forall|i: int| 0 <= i < self.documents@.len() ==> (#[trigger] self.documents@[i]).1.wf()
    }

    /// The index is well-formed as a value, and so is each stored document.
    pub open spec fn wf(&self) -> bool {
        &&& self@.wf()
        &&& self.stored()
    }

    /// An index without documents.
    pub fn new() -> (index: Index)
        ensures
            index.wf(),
            index@ == IndexView::empty(),
    {
        let index = Index {
            documents: Vec::new(),
            document_frequency: StringHashMap::new(),
        };
        assert(index@.entries =~= IndexView::empty().entries);
        assert(index@.document_frequency =~= IndexView::empty().document_frequency);
        index
    }

    /// The number of documents.
    pub fn len(&self) -> (count: usize)
        ensures
            count == self@.entries.len(),
    {
        self.documents.len()
    }

    /// The number of ingestions that contained `token`; 0 for a token that
    /// was never ingested.
    pub fn document_frequency(&self, token: &str) -> (times: usize)
        ensures
            times == self@.frequency(token@),
    {
        match self.document_frequency.get(token) {
            Some(times) => *times,
            None => 0,
        }
    }

    /// The document that is stored under `name`, if one is.
    pub fn document(&self, name: &str) -> (found: Option<&Document>)
        requires
            self.wf(),
        ensures
            match found {
                Some(document) => {
                    &&& self@.contains(name@)
                    &&& document.wf()
                    &&& document@ == self@.documents()[name@]
                },
                None => !self@.contains(name@),
            },
    {
        let key = name.to_owned();
        let at = self.locate(&key);
        if at < self.documents.len() {
            Some(&self.documents[at].1)
        } else {
            None
        }
    }

    /// Where the document named `name` is stored, or the number of
    /// documents where none is.
    fn locate(&self, name: &String) -> (at: usize)
        requires
            self@.distinct_names(),
        ensures
            at <= self@.entries.len(),
            at < self@.entries.len() <==> self@.contains(name@),
            at < self@.entries.len() ==> at == self@.position(name@),
    {
        let n = self.documents.len();
        let mut at: usize = 0;
        while at < n && !(self.documents[at].0 == *name)
            invariant
                n == self.documents@.len(),
                at <= n,
                forall|k: int| 0 <= k < at ==> (#[trigger] self@.entries[k]).0 != name@,
            decreases n - at,
        {
            at += 1;
        }
        proof {
            if at < n {
                assert(self@.entries[at as int].0 == name@);
                let chosen = self@.position(name@);
                assert(self@.entries[chosen].0 == name@);
                assert(chosen == at);
            }
        }
        at
    }

    /// Stores `document`, which holds `tokens`, under `name`, and counts each
    /// token of `distinct` once more.
    fn store(
        &mut self,
        name: &str,
        document: Document,
        distinct: &Vec<String>,
        Ghost(tokens): Ghost<Seq<Seq<char>>>,
    )
        requires
            old(self).wf(),
            old(self)@.can_count(tokens),
            document.wf(),
            document@ == tokens.to_multiset(),
            distinct.deep_view().no_duplicates(),
            forall|token: Seq<char>|
                distinct.deep_view().contains(token) <==> tokens.contains(token),
        ensures
            final(self).wf(),
            final(self)@ == old(self)@.ingest(name@, tokens),
    {
        let ghost listed = distinct.deep_view();
        let m = distinct.len();
        let mut j: usize = 0;
        while j < m
            invariant
                m == distinct.len(),
                j <= m,
                distinct.deep_view() == listed,
                listed.no_duplicates(),
                forall|token: Seq<char>| listed.contains(token) <==> tokens.contains(token),
                self.documents == old(self).documents,
                old(self)@.can_count(tokens),
                forall|token: Seq<char>|
                    #![trigger self.document_frequency@.contains_key(token)]
                    self.document_frequency@.contains_key(token) <==> old(
                        self,
                    ).document_frequency@.contains_key(token) || listed.take(j as int).contains(
                        token,
                    ),
                forall|token: Seq<char>| #[trigger]
                    self.document_frequency@.contains_key(token)
                        ==> self.document_frequency@[token] == old(self)@.frequency(token) + (
                    if listed.take(j as int).contains(token) {
                        1nat
                    } else {
                        0nat
                    }),
            decreases m - j,
        {
            let token = &distinct[j];
            let ghost counted = listed.take(j as int);
            proof {
                assert(listed[j as int] == token@);
                assert(listed.take(j + 1) =~= counted.push(token@));
                assert(!counted.contains(token@));
                assert(tokens.contains(token@));
                assert(old(self)@.frequency(token@) < usize::MAX);
            }
            let known = match self.document_frequency.get(token.as_str()) {
                Some(times) => *times,
                None => 0,
            };
            self.document_frequency.insert(token.clone(), known + 1);
            j += 1;
            proof {
                assert forall|t: Seq<char>|
                    listed.take(j as int).contains(t) <==> counted.contains(t) || t
                        == token@ by {
                    if counted.contains(t) {
                        let k = choose|k: int| 0 <= k < counted.len() && counted[k] == t;
                        assert(listed.take(j as int)[k] == t);
                    }
                    if t == token@ {
                        assert(listed.take(j as int)[j - 1] == t);
                    }
                }
            }
        }
        let key = name.to_owned();
        assert(self@.entries =~= old(self)@.entries);
        let at = self.locate(&key);
        if at < self.documents.len() {
            self.documents.set(at, (key, document));
        } else {
            self.documents.push((key, document));
        }
        proof {
            let before = old(self)@;
            let after = before.ingest(name@, tokens);
            assert(listed.take(m as int) =~= listed);
            assert(self@.entries =~= after.entries);
            assert(self@.document_frequency =~= after.document_frequency);
            lemma_ingest_wf(before, name@, tokens);
        }
    }

    /// Whether each token of `distinct` can be counted once more.
    fn countable(&self, distinct: &Vec<String>) -> (fits: bool)
        ensures
            fits == self@.can_count(distinct.deep_view()),
    {
        let n = distinct.len();
        let mut j: usize = 0;
        while j < n
            invariant
                n == distinct.len(),
                j <= n,
                forall|k: int|
                    0 <= k < j ==> self@.frequency(#[trigger] distinct.deep_view()[k])
                        < usize::MAX,
            decreases n - j,
        {
            let token = distinct[j].as_str();
            assert(distinct.deep_view()[j as int] == token@);
            if self.document_frequency(token) == usize::MAX {
                assert(distinct.deep_view().contains(token@));
                return false;
            }
            j += 1;
        }
        true
    }

    /// Ingests a text that has been cut into `tokens` under `name`, and
    /// returns the number of its tokens.
    ///
    /// The document takes the place of the one stored under `name`, if
    /// there is one.  Each token is counted once more however often it
    /// occurs in `tokens`, and no other count changes.  A text without
    /// tokens is stored as an empty document.
    pub fn add_tokens(&mut self, name: &str, tokens: &Vec<String>) -> (count: usize)
        requires
            old(self).wf(),
            old(self)@.can_count(tokens.deep_view()),
        ensures
            final(self).wf(),
            final(self)@ == old(self)@.ingest(name@, tokens.deep_view()),
            forall|token: Seq<char>| #[trigger]
                final(self)@.frequency(token) == old(self)@.frequency(token) + (
                if tokens.deep_view().contains(token) {
                    1nat
                } else {
                    0nat
                }),
            count == tokens.deep_view().len(),
    {
        let (document, distinct) = Document::count_tokens(tokens);
        self.store(name, document, &distinct, Ghost(tokens.deep_view()));
        tokens.len()
    }

    /// Ingests a text that has been cut into `tokens` under `name`, if each of
    /// its tokens can be counted once more, and returns the number of its
    /// tokens.  Where a count has reached the greatest number that a `usize`
    /// holds, nothing is ingested and the index stays as it is.
    pub fn try_add_tokens(&mut self, name: &str, tokens: &Vec<String>) -> (added: Option<usize>)
        requires
            old(self).wf(),
        ensures
            final(self).wf(),
            match added {
                Some(count) => {
                    &&& old(self)@.can_count(tokens.deep_view())
                    &&& final(self)@ == old(self)@.ingest(name@, tokens.deep_view())
                    &&& count == tokens.deep_view().len()
                },
                None => {
                    &&& !old(self)@.can_count(tokens.deep_view())
                    &&& final(self)@ == old(self)@
                },
            },
    {
        let (document, distinct) = Document::count_tokens(tokens);
        proof {
            let listed = distinct.deep_view();
            let given = tokens.deep_view();
            assert(self@.can_count(listed) == self@.can_count(given)) by {
                assert forall|token: Seq<char>| #[trigger]
                    listed.contains(token) == given.contains(token) by {}
                if self@.can_count(listed) {
                    assert forall|token: Seq<char>| #[trigger]
                        given.contains(token) implies self@.frequency(token) < usize::MAX by {
                        assert(listed.contains(token));
                    }
                }
                if self@.can_count(given) {
                    assert forall|token: Seq<char>| #[trigger]
                        listed.contains(token) implies self@.frequency(token) < usize::MAX by {
                        assert(given.contains(token));
                    }
                }
            }
        }
        if self.countable(&distinct) {
            self.store(name, document, &distinct, Ghost(tokens.deep_view()));
            Some(tokens.len())
        } else {
            None
        }
    }

    /// Ingests `content` under `document_name`, and returns the number of its
    /// tokens.
    ///
    /// The document takes the place of the one stored under
    /// `document_name`, if there is one.  Each token of `content` is
    /// counted once more however often it occurs there, and no other count
    /// changes.  A text without tokens is stored as an empty document; the
    /// caller may tell from the result that it was one.
    pub fn add_document(&mut self, document_name: &str, content: &[char]) -> (count: usize)
        requires
            old(self).wf(),
            old(self)@.can_count_all(),
        ensures
            final(self).wf(),
            final(self)@ == old(self)@.ingest(document_name@, tokens_of(content@)),
            forall|token: Seq<char>| #[trigger]
                final(self)@.frequency(token) == old(self)@.frequency(token) + (
                if tokens_of(content@).contains(token) {
                    1nat
                } else {
                    0nat
                }),
            count == tokens_of(content@).len(),
    {
        let tokens = tokenize(content);
        self.add_tokens(document_name, &tokens)
    }

    /// Ingests `content` under `document_name`, if each of its tokens can be
    /// counted once more, and returns the number of its tokens.  Where a
    /// count has reached the greatest number that a `usize` holds, nothing is
    /// ingested and the index stays as it is.
    pub fn try_add_document(&mut self, document_name: &str, content: &[char]) -> (added: Option<
        usize,
    >)
        requires
            old(self).wf(),
        ensures
            final(self).wf(),
            match added {
                Some(count) => {
                    &&& old(self)@.can_count(tokens_of(content@))
                    &&& final(self)@ == old(self)@.ingest(document_name@, tokens_of(content@))
                    &&& count == tokens_of(content@).len()
                },
                None => {
                    &&& !old(self)@.can_count(tokens_of(content@))
                    &&& final(self)@ == old(self)@
                },
            },
    {
        let tokens = tokenize(content);
        self.try_add_tokens(document_name, &tokens)
    }

    /// The terms of `query` in `document`.
    fn terms_in(&self, document: &Document, query: &Vec<String>) -> (terms: Vec<Term>)
        requires
            document.wf(),
        ensures
            terms.deep_view() == self@.terms(document@, query.deep_view()),
    {
        let corpus = self.documents.len();
        let length = document.token_count();
        let n = query.len();
        let mut terms: Vec<Term> = Vec::new();
        let mut j: usize = 0;
        proof {
            assert(query.deep_view().take(0) =~= Seq::<Seq<char>>::empty());
            reveal(Seq::filter);
            assert(terms.deep_view() =~= self@.terms(document@, query.deep_view().take(0)));
        }
        while j < n
            invariant
                n == query.len(),
                j <= n,
                document.wf(),
                corpus == self@.entries.len(),
                length == document@.len(),
                terms.deep_view() == self@.terms(document@, query.deep_view().take(j as int)),
            decreases n - j,
        {
            let token = query[j].as_str();
            let ghost asked = query.deep_view().take(j as int);
            let ghost listed = terms.deep_view();
            proof {
                assert(query.deep_view()[j as int] == token@);
                assert(query.deep_view().take(j + 1) =~= asked.push(token@));
                asked.lemma_filter_push(token@, occurs_in(document@));
            }
            let occurrences = document.occurrences(token);
            if occurrences > 0 {
                let containing = match self.document_frequency.get(token) {
                    Some(times) => *times,
                    None => 1,
                };
                let term = Term { occurrences, length, containing, corpus };
                terms.push(term);
                proof {
                    assert(term@ == self@.term(document@, token@));
                    assert(terms.deep_view() =~= listed.push(term@));
                    assert(asked.filter(occurs_in(document@)).push(token@).map_values(
                        self@.term_in(document@),
                    ) =~= listed.push(term@));
                }
            }
            j += 1;
        }
        assert(query.deep_view().take(n as int) =~= query.deep_view());
        terms
    }

    /// Answers a query that has been cut into tokens: every document of the
    /// index, in the order of the index, with its name and the terms of the
    /// query in it.
    pub fn search_tokens(&self, query: &Vec<String>) -> (found: Vec<(String, Vec<Term>)>)
        requires
            self.wf(),
        ensures
            found.deep_view() == self@.search(query.deep_view()),
            found.len() == self@.entries.len(),
    {
        let n = self.documents.len();
        let mut found: Vec<(String, Vec<Term>)> = Vec::new();
        let mut i: usize = 0;
        assert(found.deep_view() =~= self@.search(query.deep_view()).take(0));
        while i < n
            invariant
                n == self.documents@.len(),
                i <= n,
                self.wf(),
                found.deep_view() == self@.search(query.deep_view()).take(i as int),
            decreases n - i,
        {
            let ghost listed = found.deep_view();
            let terms = self.terms_in(&self.documents[i].1, query);
            let name = self.documents[i].0.clone();
            let ghost entry = (name@, terms.deep_view());
            found.push((name, terms));
            proof {
                assert(found.deep_view() =~= listed.push(entry));
                assert(self@.search(query.deep_view()).take(i + 1) =~= listed.push(entry));
            }
            i += 1;
        }
        assert(self@.search(query.deep_view()).take(n as int) =~= self@.search(
            query.deep_view(),
        ));
        found
    }

    /// Answers `query`: every document of the index, in the order of the
    /// index, with its name and the terms of the query in it.
    ///
    /// The score of a document is the sum of what its terms add to it (see
    /// [`Term`]); a document that holds no token of the query has no terms,
    /// and the score 0.  [`crate::ranking::rank`] puts the scored documents
    /// in order.
    pub fn search_query(&self, query: &[char]) -> (found: Vec<(String, Vec<Term>)>)
        requires
            self.wf(),
        ensures
            found.deep_view() == self@.search(tokens_of(query@)),
            found.len() == self@.entries.len(),
    {
        let tokens = tokenize(query);
        self.search_tokens(&tokens)
    }
}

} // verus!
