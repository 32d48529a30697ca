//! The stage that brings what is published of a document's tokens up to date.

use std::sync::Arc;

use vstd::prelude::*;

use crate::framework::lex::derive::{derivation, LexDocument};
use crate::framework::lex::laws::{
    facts_out, lemma_closed_documents_have_no_facts, lemma_facts_are_the_tokens, with_changes,
};
use crate::framework::lex::lexed::{
    parse_tokens, LayoutRevisionId, LexicalDocument, LexicalView, SemanticRevisionId,
    StableDocumentId, TokenFact, TokenFactId, TokenFactKey, TokenOccurrenceId, TokenPatch,
    TokenStructureRevisionId,
};
use crate::framework::lex::lexer::{
    document_before, place_of, with_entry, without_entry, EntryView, Lexer,
};
use crate::framework::lex::mode::State;
use crate::framework::lex::publish::{
    all_facts, fact_key, facts_for, listed_errors, listed_tokens, publish_token_facts,
    retract_token_facts, FactChanges, FactWrite,
};
use crate::framework::lex::relex::Scanner;
use crate::framework::lex::token::{
    no_lexer_work, LexErrorInfo, LexInterrupt, LexToken, LexerRoot, LexerWork,
};
use crate::framework::parse::data::ast::AstToken;
use crate::framework::revision::SourceRevision;
use crate::sort::distinct_sorted;

verus! {

/// The tokens of a document as editors see them.
pub struct TokenVec<R> {
    pub document: StableDocumentId,
    pub layout_revision: LayoutRevisionId,
    pub tokens: Vec<LexToken<R>>,
    pub errors: Vec<LexErrorInfo>,
}

impl<R: LexerRoot> TokenVec<R> {
    /// The tokens that the parser sees, and the errors, with their places.
    pub fn new(document: &LexicalDocument<R>) -> (r: Self)
        requires
            document.wf(),
        ensures
            r.document == document@.document,
            r.layout_revision == document@.layout_revision,
            r.tokens@ == listed_tokens(document@.lexical, document@.lexical.len() as int),
            r.errors@ == listed_errors(document@.lexical, document@.lexical.len() as int),
    {
        TokenVec {
            document: document.document,
            layout_revision: document.layout_revision,
            tokens: document.token_list(),
            errors: document.error_list(),
        }
    }

    /// The token that a handle stands for.
    pub fn token<T>(&self, token: AstToken<T>) -> (r: Option<&LexToken<R>>)
        ensures
            match r {
                Some(found) => found.id == token.id && self.tokens@.contains(*found),
                None => forall|i: int|
                    0 <= i < self.tokens@.len() ==> (#[trigger] self.tokens@[i]).id != token.id,
            },
    {
        let mut at: usize = 0;
        while at < self.tokens.len()
            invariant
                at <= self.tokens@.len(),
                forall|i: int| 0 <= i < at ==> (#[trigger] self.tokens@[i]).id != token.id,
            decreases self.tokens@.len() - at,
        {
            if self.tokens[at].id == token.id {
                assert(self.tokens@[at as int] == self.tokens@[at as int]);
                return Some(&self.tokens[at]);
            }
            at += 1;
        }
        None
    }

    /// Whether two lists are of one document at one layout.
    pub fn same(&self, other: &Self) -> (r: bool)
        ensures
            r == (self.document == other.document && self.layout_revision
                == other.layout_revision),
    {
        self.document == other.document && self.layout_revision == other.layout_revision
    }
}

/// The layout of a document's tokens. It changes with every place.
pub struct TokenLayoutDocument {
    pub document_uri: String,
    pub document_id: u64,
    pub layout_revision: LayoutRevisionId,
}

impl TokenLayoutDocument {
    pub fn same(&self, other: &Self) -> (r: bool)
        ensures
            r == (self.document_id == other.document_id && self.layout_revision
                == other.layout_revision),
    {
        self.document_id == other.document_id && self.layout_revision == other.layout_revision
    }
}

/// A document's tokens as the parser sees them. Where no token comes or goes, it
/// stays the same.
pub struct SemanticTokenDocument {
    pub document_uri: String,
    pub document_id: u64,
    pub revision: SemanticRevisionId,
    pub structure_revision: TokenStructureRevisionId,
}

impl SemanticTokenDocument {
    pub fn same(&self, other: &Self) -> (r: bool)
        ensures
            r == (self.document_id == other.document_id && self.revision == other.revision),
    {
        self.document_id == other.document_id && self.revision == other.revision
    }
}

/// The value of the token that a handle stands for, among the facts that are
/// out. Where a fact was written again, the last one counts.
pub fn observe_token<R: LexerRoot, T>(facts: &Vec<FactWrite<R>>, token: AstToken<T>) -> (r: Option<
    Arc<R>,
>)
    ensures
        match r {
            Some(value) => exists|i: int| #[trigger]
                is_last_fact(facts@, token.document, token.occurrence as u64, i)
                    && *facts@[i].fact.value == *value,
            None => forall|i: int|
                0 <= i < facts@.len() ==> (#[trigger] facts@[i]).key != source_key(
                    token.document,
                    token.occurrence as u64,
                ),
        },
{
    let ghost key = source_key(token.document, token.occurrence as u64);
    let mut left: usize = facts.len();
    while left > 0
        invariant
            left <= facts@.len(),
            key == source_key(token.document, token.occurrence as u64),
            forall|i: int| left <= i < facts@.len() ==> (#[trigger] facts@[i]).key != key,
        decreases left,
    {
        left -= 1;
        let found = &facts[left];
        let same = match found.key.token {
            TokenFactId::Source(id) => id.0 == token.occurrence as u64,
            TokenFactId::Synthetic(_) => false,
        };
        if same && found.key.document_id == token.document {
            assert(is_last_fact(
                facts@,
                token.document,
                token.occurrence as u64,
                left as int,
            ));
            return Some(Arc::clone(&found.fact.value));
        }
    }
    None
}

/// The key of the fact of a token that stands in the text.
pub open spec fn source_key(document: u64, occurrence: u64) -> TokenFactKey {
    TokenFactKey {
        document_id: document,
        token: TokenFactId::Source(TokenOccurrenceId(occurrence)),
    }
}

/// The last fact of a token.
pub open spec fn is_last_fact<R>(
    facts: Seq<FactWrite<R>>,
    document: u64,
    occurrence: u64,
    i: int,
) -> bool {
    let key = source_key(document, occurrence);
    &&& 0 <= i < facts.len()
    &&& facts[i].key == key
    &&& forall|j: int| i < j < facts.len() ==> (#[trigger] facts[j]).key != key
}

/// What is published of an open document.
pub struct LexPublication<R> {
    pub facts: FactChanges<R>,
    pub layout: TokenLayoutDocument,
    pub semantic: SemanticTokenDocument,
    pub derived: LexDocument<R>,
}

/// What becomes of the tokens of a document.
pub enum LexStep<R> {
    /// The document is closed: these facts are taken back.
    Closed(FactChanges<R>),
    Published(LexPublication<R>),
}

/// The facts that go with a document that is closed.
pub open spec fn closing_facts<R: LexerRoot>(
    published: Option<LexicalView<R>>,
    facts: FactChanges<R>,
) -> bool {
    &&& facts.written@.len() == 0
    &&& match published {
        Some(v) => {
            let all = parse_tokens(v.lexical);
            facts.removed@ == Seq::new(
                all.len(),
                |i: int| fact_key(v.document, all[i].occurrence),
            )
        },
        None => facts.removed@.len() == 0,
    }
}

/// The facts that follow a change of tokens. Where the facts of a document were
/// taken back while its tokens were held, all of them come again.
pub open spec fn opening_facts<R: LexerRoot>(
    v: LexicalView<R>,
    patch: TokenPatch,
    had: bool,
    was_published: bool,
    facts: FactChanges<R>,
) -> bool {
    if had && !was_published {
        &&& facts.removed@.len() == 0
        &&& facts.written@ == all_facts(v, v.lexical.len() as int)
    } else {
        &&& facts.removed@ == Seq::new(
            patch.removed@.len(),
            |i: int| fact_key(v.document, patch.removed@[i]),
        )
        &&& facts.written@ == facts_for(
            v,
            distinct_sorted((patch.inserted@ + patch.updated@).to_set()),
        )
    }
}

/// What is published of a document that was lexed.
pub open spec fn publishes_tokens<R: LexerRoot>(
    uri: Seq<char>,
    had: bool,
    was_published: bool,
    publication: LexPublication<R>,
) -> bool {
    let v = publication.derived.document@;
    &&& opening_facts(v, publication.derived.patch, had, was_published, publication.facts)
    &&& publication.layout.document_uri@ == uri
    &&& publication.layout.document_id == v.document.0
    &&& publication.layout.layout_revision == v.layout_revision
    &&& publication.semantic.document_uri@ == uri
    &&& publication.semantic.document_id == v.document.0
    &&& publication.semantic.revision == v.semantic_revision
    &&& publication.semantic.structure_revision == v.structure_revision
}

/// Brings the tokens of a document up to date with its text and says what is
/// published of them. `published` are the tokens whose facts are out. Where
/// they are those of the document as it is held, the facts that are out
/// afterwards are one for each token that the parser sees, and no others. A
/// document without a text is closed and forgotten, and no fact of it stays out.
pub fn lex_document<R: LexerRoot, S: Scanner<R>>(
    lexer: &mut Lexer<R>,
    scanner: &S,
    root: State,
    uri: &String,
    revision: Option<&SourceRevision>,
    published: Option<&LexicalDocument<R>>,
) -> (r: Result<LexStep<R>, LexInterrupt>)
    requires
        old(lexer).wf(),
        published is Some ==> published->Some_0.wf(),
    ensures
        final(lexer).wf(),
        match revision {
            None => {
                &&& r matches Ok(LexStep::Closed(facts)) && closing_facts(
                    match published {
                        Some(document) => Some(document@),
                        None => None,
                    },
                    facts,
                )
                &&& published is Some ==> with_changes(
                    facts_out(published->Some_0@),
                    r->Ok_0->Closed_0,
                ) == Map::<TokenFactKey, TokenFact<R>>::empty()
                &&& final(lexer).held() == without_entry(old(lexer).held(), uri@)
            },
            Some(revision) => {
                let held = old(lexer).held();
                let had = place_of(held, uri@) < held.len();
                match r {
                    Ok(LexStep::Closed(_)) => false,
                    Ok(LexStep::Published(publication)) => {
                        &&& derivation(
                            *scanner,
                            document_before(held, uri@, root),
                            !had,
                            revision.text,
                            revision.delta,
                            Ok(publication.derived),
                        )
                        &&& publication.derived.document.wf()
                        &&& publishes_tokens(uri@, had, published is Some, publication)
                        &&& match published {
                            Some(document) => had && document@ == document_before(
                                held,
                                uri@,
                                root,
                            ),
                            None => true,
                        } ==> with_changes(
                            match published {
                                Some(document) => facts_out(document@),
                                None => Map::empty(),
                            },
                            publication.facts,
                        ) == facts_out(publication.derived.document@)
                        &&& final(lexer).held() == match publication.derived.stats {
                            Some(stats) => with_entry(
                                held,
                                EntryView {
                                    uri: uri@,
                                    document: publication.derived.document@,
                                    stats,
                                },
                            ),
                            None => held,
                        }
                    },
                    Err(error) => {
                        &&& derivation(
                            *scanner,
                            document_before(held, uri@, root),
                            !had,
                            revision.text,
                            revision.delta,
                            Err::<LexDocument<R>, LexInterrupt>(error),
                        )
                        &&& final(lexer).held() == held
                    },
                }
            },
        },
{
    let revision = match revision {
        Some(revision) => revision,
        None => {
            let facts = match published {
                Some(document) => retract_token_facts(document),
                None => FactChanges { removed: Vec::new(), written: Vec::new() },
            };
            lexer.forget_document(uri);
            proof {
                if let Some(document) = published {
                    lemma_closed_documents_have_no_facts(document@, facts);
                }
            }
            return Ok(LexStep::Closed(facts));
        },
    };
    let ghost before = document_before(lexer.held(), uri@, root);
    let had = lexer.document(uri).is_some();
    proof {
        lexer.lemma_identities_before(uri@, root);
        crate::framework::lex::lexer::lemma_place_found(lexer.held(), uri@);
    }
    let derived = match lexer.derive_document(
        scanner,
        root,
        uri,
        &revision.text,
        &revision.delta,
    ) {
        Ok(derived) => derived,
        Err(error) => {
            return Err(error);
        },
    };
    let facts = publish_token_facts(
        &derived.document,
        &derived.patch,
        had,
        published.is_some(),
    );
    let layout = TokenLayoutDocument {
        document_uri: uri.clone(),
        document_id: derived.document.document.0,
        layout_revision: derived.document.layout_revision,
    };
    let semantic = SemanticTokenDocument {
        document_uri: uri.clone(),
        document_id: derived.document.document.0,
        revision: derived.document.semantic_revision,
        structure_revision: derived.document.structure_revision,
    };
    proof {
        if published is None || (had && published->Some_0@ == before) {
            lemma_facts_are_the_tokens(
                *scanner,
                before,
                had,
                published is Some,
                revision.text,
                revision.delta,
                derived,
                facts,
            );
        }
    }
    Ok(LexStep::Published(LexPublication { facts, layout, semantic, derived }))
}

// ---------------------------------------------------------------------------
// Work

/// What is counted of a run of the lexer over a document, with the work on each
/// splice; none where a count runs over.
pub open spec fn run_work(parts: Seq<LexerWork>) -> Option<LexerWork>
    decreases parts.len(),
{
    if parts.len() == 0 {
        Some(LexerWork { component_runs: 1, ..no_lexer_work() })
    } else {
        match run_work(parts.drop_last()) {
            Some(before) => if before.sums_fit(parts.last()) {
                Some(before.sum(parts.last()))
            } else {
                None
            },
            None => None,
        }
    }
}

/// What is counted of a run of the lexer over a document.
pub fn lexer_run_work<R: LexerRoot>(step: &LexStep<R>) -> (r: Option<LexerWork>)
    ensures
        r == run_work(
            match *step {
                LexStep::Closed(_) => Seq::empty(),
                LexStep::Published(publication) => publication.derived.work@,
            },
        ),
{
    let mut total = LexerWork::default();
    total.component_runs = 1;
    match step {
        LexStep::Closed(_) => Some(total),
        LexStep::Published(publication) => {
            let parts = &publication.derived.work;
            let mut at: usize = 0;
            assert(parts@.take(0) =~= Seq::empty());
            while at < parts.len()
                invariant
                    at <= parts@.len(),
                    step is Published,
                    step->Published_0.derived.work@ == parts@,
                    run_work(parts@.take(at as int)) == Some(total),
                decreases parts@.len() - at,
            {
                proof {
                    assert(parts@.take(at + 1).drop_last() =~= parts@.take(at as int));
                }
                if !total.fits(&parts[at]) {
                    proof {
                        lemma_run_work_over(parts@, at + 1);
                    }
                    return None;
                }
                total.merge(&parts[at]);
                at += 1;
            }
            assert(parts@.take(at as int) =~= parts@);
            Some(total)
        },
    }
}

proof fn lemma_run_work_over(parts: Seq<LexerWork>, n: int)
    requires
        0 <= n <= parts.len(),
        run_work(parts.take(n)) is None,
    ensures
        run_work(parts) is None,
    decreases parts.len() - n,
{
    if n < parts.len() {
        assert(parts.take(n + 1).drop_last() =~= parts.take(n));
        lemma_run_work_over(parts, n + 1);
    } else {
        assert(parts.take(n) =~= parts);
    }
}

} // verus!
