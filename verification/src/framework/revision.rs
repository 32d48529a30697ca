//! Committed revisions: commands, the fold of one command into the next
//! revision, and read access to a revision's text.

use std::ops::Range;
use vstd::prelude::*;
use vstd::utf8::*;

use crate::framework::coordinates::{leads, SourceCoordinateMap, UnchangedIsland};
use crate::framework::source::{SourceDelta, SourceError, SourceWork};
use crate::text::{
    is_rope_char_boundary, rope_byte_slice, rope_bytes, rope_chars, rope_clone, rope_len_bytes,
    rope_to_string,
};
use crate::utils::{fnv1a, fnv64};

verus! {

/// The stable identity of one document lineage.
#[derive(Clone, Copy, Debug, PartialEq, Eq, Structural, Hash)]
pub struct DocumentId(pub u64);

/// Per-document monotonic revision counter. Advances only for effective text
/// changes.
#[derive(Clone, Copy, Debug, PartialEq, Eq, Structural, Hash)]
pub struct SourceRevisionId(pub u64);

/// Global monotonic command counter; equal-looking edits stay distinct.
#[derive(Clone, Copy, Debug, PartialEq, Eq, Structural, Hash)]
pub struct SourceCommandId(pub u64);

/// The identity of one open document.
#[derive(Debug)]
pub struct DocumentIdentity {
    pub id: DocumentId,
    pub uri: String,
}

/// An immutable committed revision: text, exact delta, and the coordinate map
/// derived once at construction.
pub struct SourceRevision {
    pub document: DocumentIdentity,
    pub id: SourceRevisionId,
    pub previous: Option<SourceRevisionId>,
    pub text: ropey::Rope,
    pub delta: SourceDelta,
    pub coordinates: SourceCoordinateMap,
}

/// One exact per-document source command: base revision check plus the
/// pre-built next text.
pub struct SourceCommand {
    pub id: SourceCommandId,
    pub fresh_document_id: Option<DocumentId>,
    pub base: Option<(DocumentId, SourceRevisionId)>,
    pub delta: SourceDelta,
    pub next_text: ropey::Rope,
}

/// Equality is the command id.
impl PartialEq for SourceCommand {
    fn eq(&self, other: &Self) -> (r: bool) {
        self.id.0 == other.id.0
    }
}

impl vstd::std_specs::cmp::PartialEqSpecImpl for SourceCommand {
    open spec fn obeys_eq_spec() -> bool {
        true
    }

    open spec fn eq_spec(&self, other: &Self) -> bool {
        self.id.0 == other.id.0
    }
}

/// Equality is the document and the revision; it never compares text.
impl PartialEq for SourceRevision {
    fn eq(&self, other: &Self) -> (r: bool) {
        self.document.id.0 == other.document.id.0 && self.id.0 == other.id.0
    }
}

impl vstd::std_specs::cmp::PartialEqSpecImpl for SourceRevision {
    open spec fn obeys_eq_spec() -> bool {
        true
    }

    open spec fn eq_spec(&self, other: &Self) -> bool {
        self.document.id.0 == other.document.id.0 && self.id.0 == other.id.0
    }
}

impl SourceRevision {
    /// The authoritative text.
    pub fn text(&self) -> (r: &ropey::Rope)
        ensures
            *r == self.text,
    {
        &self.text
    }
}

/// The text parses as a URI.
pub uninterp spec fn uri_parses(text: Seq<char>) -> bool;

/// `fluent_uri::Uri::parse`: whether the text is a URI. Parsing reads nothing
/// but the text.
#[verifier::external_body]
fn parse_uri(text: &str) -> (r: bool)
    ensures
        r == uri_parses(text@),
{
    fluent_uri::Uri::parse(text).is_ok()
}

/// FNV-1a over the URI bytes: the stable identity of a document's first
/// lineage.
pub fn fnv1a_uri(uri: &str) -> (r: u64)
    ensures
        r == fnv1a(encode_utf8(uri@)),
{
    fnv64(uri.as_bytes())
}

/// The base that a command must name: the revision before, if there is one.
pub open spec fn expected_base(previous: Option<&SourceRevision>) -> Option<
    (DocumentId, SourceRevisionId),
> {
    match previous {
        Some(revision) => Some((revision.document.id, revision.id)),
        None => None,
    }
}

/// The bytes of the revision before; none where the document was not open.
pub open spec fn previous_len(previous: Option<&SourceRevision>) -> int {
    match previous {
        Some(revision) => rope_bytes(revision.text).len() as int,
        None => 0,
    }
}

/// The splices of an edit command lead from the text before to the next text.
pub open spec fn command_leads(command: SourceCommand, previous: Option<&SourceRevision>) -> bool {
    command.delta is Edit ==> leads(
        command.delta.splices(),
        previous_len(previous),
        rope_bytes(command.next_text).len() as int,
    )
}

/// `revision` is what `command` makes of the revision before.
pub open spec fn folded(
    uri: Seq<char>,
    command: SourceCommand,
    previous: Option<&SourceRevision>,
    revision: SourceRevision,
) -> bool {
    &&& revision.document.id == (match previous {
        Some(before) => before.document.id,
        None => match command.fresh_document_id {
            Some(id) => id,
            None => DocumentId(fnv1a(encode_utf8(uri))),
        },
    })
    &&& revision.document.uri@ == (match previous {
        Some(before) => before.document.uri@,
        None => uri,
    })
    &&& revision.id.0 == (match previous {
        Some(before) => before.id.0 + 1,
        None => 1,
    })
    &&& revision.previous == (match previous {
        Some(before) => Some(before.id),
        None => None,
    })
    &&& rope_chars(revision.text) == rope_chars(command.next_text)
    &&& revision.delta.same(command.delta)
    &&& revision.coordinates.wf()
    &&& revision.coordinates.islands@ == (match command.delta {
        SourceDelta::Load { .. } => Seq::<UnchangedIsland>::empty(),
        SourceDelta::Edit { splices } => crate::framework::coordinates::islands_of(
            splices@,
            previous_len(previous),
        ),
    })
}

/// Folds one command into the document's next revision. A command made against
/// another revision is refused.
pub fn fold_command(
    uri: &String,
    command: &SourceCommand,
    previous: Option<&SourceRevision>,
) -> (r: Result<SourceRevision, SourceError>)
    requires
        previous is None && command.base is None ==> uri_parses(uri@),
        previous is Some ==> previous->Some_0.id.0 < u64::MAX,
        command.base == expected_base(previous) ==> command_leads(*command, previous),
    ensures
        match r {
            Ok(revision) => command.base == expected_base(previous) && folded(
                uri@,
                *command,
                previous,
                revision,
            ),
            Err(error) => command.base != expected_base(previous) && error
                == SourceError::StaleRevision,
        },
{
    let fresh = match (&command.base, previous) {
        (None, None) => true,
        (Some((document, id)), Some(before)) => document.0 == before.document.id.0 && id.0
            == before.id.0,
        _ => false,
    };
    if !fresh {
        return Err(SourceError::StaleRevision);
    }
    let document = match previous {
        Some(before) => DocumentIdentity {
            id: before.document.id,
            uri: before.document.uri.clone(),
        },
        None => DocumentIdentity {
            id: match command.fresh_document_id {
                Some(id) => id,
                None => DocumentId(fnv1a_uri(uri.as_str())),
            },
            uri: uri.clone(),
        },
    };
    let id = match previous {
        Some(before) => SourceRevisionId(before.id.0 + 1),
        None => SourceRevisionId(1),
    };
    let parent = match previous {
        Some(before) => Some(before.id),
        None => None,
    };
    let coordinates = match &command.delta {
        SourceDelta::Load { .. } => SourceCoordinateMap::empty(),
        SourceDelta::Edit { splices } => {
            let old_len: usize = match previous {
                Some(before) => rope_len_bytes(&before.text),
                None => 0,
            };
            SourceCoordinateMap::build(old_len, rope_len_bytes(&command.next_text), splices)
        },
    };
    Ok(
        SourceRevision {
            document,
            id,
            previous: parent,
            text: rope_clone(&command.next_text),
            delta: command.delta.clone(),
            coordinates,
        },
    )
}

/// What the source pass does with one document.
pub enum SourceStep {
    /// The document has no command: its revision is retracted.
    Retract,
    /// The document's next revision is published.
    Publish(SourceRevision),
}

/// The source pass over one document: without a command the revision is
/// retracted, otherwise the command is folded into the next revision. A command
/// made against another revision is refused first, and then a URI that does not
/// parse where the document is new.
pub fn source_document(
    uri: &String,
    command: Option<&SourceCommand>,
    previous: Option<&SourceRevision>,
) -> (r: Result<SourceStep, SourceError>)
    requires
        previous is Some ==> previous->Some_0.id.0 < u64::MAX,
        command is Some && command->Some_0.base == expected_base(previous) ==> command_leads(
            *command->Some_0,
            previous,
        ),
    ensures
        match command {
            None => r is Ok && r->Ok_0 is Retract,
            Some(command) => if command.base != expected_base(previous) {
                r is Err && r->Err_0 == SourceError::StaleRevision
            } else if previous is None && !uri_parses(uri@) {
                r is Err && r->Err_0 == SourceError::InvalidUri
            } else {
                r is Ok && r->Ok_0 is Publish && folded(
                    uri@,
                    *command,
                    previous,
                    r->Ok_0->Publish_0,
                )
            },
        },
{
    let command = match command {
        Some(command) => command,
        None => {
            return Ok(SourceStep::Retract);
        },
    };
    if previous.is_none() && command.base.is_none() && !parse_uri(uri.as_str()) {
        return Err(SourceError::InvalidUri);
    }
    match fold_command(uri, command, previous) {
        Ok(revision) => Ok(SourceStep::Publish(revision)),
        Err(error) => Err(error),
    }
}

/// The work that the fold of one command counts.
pub fn record_fold_work(revision: &SourceRevision, work: &mut SourceWork)
    requires
        old(work).coordinate_islands_built + revision.coordinates.islands@.len() <= u64::MAX,
        old(work).rope_edit_operations + revision.delta.splices().len() + 1 <= u64::MAX,
    ensures
        *final(work) == (SourceWork {
            coordinate_islands_built: (old(work).coordinate_islands_built
                + revision.coordinates.islands@.len()) as u64,
            rope_edit_operations: (old(work).rope_edit_operations + (match revision.delta {
                SourceDelta::Load { .. } => 1,
                SourceDelta::Edit { splices } => splices@.len() as int,
            })) as u64,
            ..*old(work)
        }),
{
    work.coordinate_islands_built = work.coordinate_islands_built
        + revision.coordinates.islands.len() as u64;
    let operations: u64 = match &revision.delta {
        SourceDelta::Load { .. } => 1,
        SourceDelta::Edit { splices } => splices.len() as u64,
    };
    work.rope_edit_operations = work.rope_edit_operations + operations;
}

/// Hands out command ids, each one higher than the last.
pub struct CommandIds {
    pub next: u64,
}

impl CommandIds {
    /// Ids start at one.
    pub fn new() -> (r: Self)
        ensures
            r.next == 1,
    {
        CommandIds { next: 1 }
    }

    /// The next command id; after the last one the count starts over.
    pub fn next_command_id(&mut self) -> (r: u64)
        ensures
            r == old(self).next,
            final(self).next == old(self).next.wrapping_add(1),
    {
        let id: u64 = self.next;
        self.next = id.wrapping_add(1);
        id
    }
}

/// Read access to one committed revision.
pub struct SourceSnapshot(pub SourceRevision);

impl SourceSnapshot {
    /// The revision this snapshot captured.
    pub fn revision_id(&self) -> (r: u64)
        ensures
            r == self.0.id.0,
    {
        self.0.id.0
    }

    /// Authoritative byte length.
    pub fn len_bytes(&self) -> (r: usize)
        ensures
            r == rope_bytes(self.0.text).len(),
    {
        rope_len_bytes(&self.0.text)
    }

    /// True when the document is empty.
    pub fn is_empty(&self) -> (r: bool)
        ensures
            r == (rope_bytes(self.0.text).len() == 0),
    {
        rope_len_bytes(&self.0.text) == 0
    }

    /// The rope backing this revision.
    pub fn rope(&self) -> (r: &ropey::Rope)
        ensures
            *r == self.0.text,
    {
        &self.0.text
    }

    /// Checked byte slice; UTF-8 boundaries required.
    pub fn byte_slice(&self, range: Range<usize>) -> (r: Result<String, SourceError>)
        requires
            is_char_boundary(rope_bytes(self.0.text), range.start as int) && is_char_boundary(
                rope_bytes(self.0.text),
                range.end as int,
            ) ==> range.start <= range.end,
        ensures
            match r {
                Ok(text) => {
                    &&& is_char_boundary(rope_bytes(self.0.text), range.start as int)
                    &&& is_char_boundary(rope_bytes(self.0.text), range.end as int)
                    &&& encode_utf8(text@) == rope_bytes(self.0.text).subrange(
                        range.start as int,
                        range.end as int,
                    )
                },
                Err(error) => {
                    &&& error == SourceError::OffBoundary
                    &&& !(is_char_boundary(rope_bytes(self.0.text), range.start as int)
                        && is_char_boundary(rope_bytes(self.0.text), range.end as int))
                },
            },
    {
        if !is_rope_char_boundary(&self.0.text, range.start) || !is_rope_char_boundary(
            &self.0.text,
            range.end,
        ) {
            return Err(SourceError::OffBoundary);
        }
        Ok(rope_byte_slice(&self.0.text, range.start, range.end))
    }

    /// The complete text.
    pub fn to_string(&self) -> (r: String)
        ensures
            r@ == rope_chars(self.0.text),
    {
        rope_to_string(&self.0.text)
    }
}

/// Each revision of a document follows the one before it: same lineage, next
/// number, and the parent it names.
pub proof fn lemma_revisions_chain(
    uri: Seq<char>,
    command: SourceCommand,
    previous: &SourceRevision,
    revision: SourceRevision,
)
    requires
        folded(uri, command, Some(previous), revision),
    ensures
        revision.document.id == previous.document.id,
        revision.document.uri@ == previous.document.uri@,
        revision.id.0 == previous.id.0 + 1,
        revision.previous == Some(previous.id),
        expected_base(Some(&revision)) != expected_base(Some(previous)),
{
}

} // verus!
