//! Tasks, diagnostics, and the traversal of syntax.

use vstd::prelude::*;

use crate::framework::scope::graph::{Scope, ScopeDomain};
use crate::framework::scope::path::Datum;

verus! {

/// The identity of a node of a parsed document.
#[derive(Clone, Copy, Debug, PartialEq, Eq, Hash, Structural)]
pub struct AstKey {
    pub document: u64,
    pub id: u64,
}

impl Datum for AstKey {
    fn same(&self, other: &Self) -> (r: bool) {
        self.document == other.document && self.id == other.id
    }

    fn copied(&self) -> (r: Self) {
        *self
    }
}

/// What a role may do to scopes.
#[derive(Clone, Copy, Debug, PartialEq, Eq, Hash, Structural)]
pub enum ScopeAccess {
    Build,
    Extend,
    Query,
}

/// The types that one elaborator is about.
pub trait ElaboratorRole {
    type Domain: ScopeDomain;

    type Ast;

    type Input: Datum;

    type Output;

    type Diagnostic: Datum;
}

/// What an elaborator has come to.
#[derive(Debug)]
pub enum Elaboration<T> {
    Complete(T),
    Awaiting,
}

impl<T> Elaboration<T> {
    pub fn complete(value: T) -> (r: Self)
        ensures
            r == Elaboration::Complete(value),
    {
        Elaboration::Complete(value)
    }

    pub fn awaiting() -> (r: Self)
        ensures
            r == Elaboration::<T>::Awaiting,
    {
        Elaboration::Awaiting
    }
}

/// The diagnostic of a role that has none.
#[derive(Clone, Copy, Debug, PartialEq, Eq, Hash, Structural)]
pub struct NoDiagnostic;

impl Datum for NoDiagnostic {
    fn same(&self, other: &Self) -> (r: bool) {
        true
    }

    fn copied(&self) -> (r: Self) {
        NoDiagnostic
    }
}

/// What a rule did with scopes that its role or its task does not allow.
#[derive(Clone, Copy, Debug, PartialEq, Eq, Hash, Structural)]
pub enum ScopeMisuse {
    CannotDeclare,
    DeclaredTwice,
    RootAttachedTwice,
    CannotLink,
    SelfReferential,
    NotDeclaredHere,
    ClosedTwice,
    NoIdentity,
}

impl ScopeMisuse {
    /// The words for the misuse.
    pub open spec fn words(self) -> Seq<char> {
        match self {
            ScopeMisuse::CannotDeclare => "this elaborator role cannot declare semantic scopes"@,
            ScopeMisuse::DeclaredTwice => "one task declared one semantic scope twice"@,
            ScopeMisuse::RootAttachedTwice => "root semantic scope was attached twice"@,
            ScopeMisuse::CannotLink => "this elaborator role cannot construct binding edges"@,
            ScopeMisuse::SelfReferential => "an acyclic scope edge cannot be self-referential"@,
            ScopeMisuse::NotDeclaredHere => "a task cannot close a scope it did not declare"@,
            ScopeMisuse::ClosedTwice => "scope completeness was closed twice"@,
            ScopeMisuse::NoIdentity => "scope catalog did not publish an identity"@,
        }
    }

    /// The words for the misuse.
    pub fn message(&self) -> (r: &'static str)
        ensures
            r@ == self.words(),
    {
        match self {
            ScopeMisuse::CannotDeclare => "this elaborator role cannot declare semantic scopes",
            ScopeMisuse::DeclaredTwice => "one task declared one semantic scope twice",
            ScopeMisuse::RootAttachedTwice => "root semantic scope was attached twice",
            ScopeMisuse::CannotLink => "this elaborator role cannot construct binding edges",
            ScopeMisuse::SelfReferential => "an acyclic scope edge cannot be self-referential",
            ScopeMisuse::NotDeclaredHere => "a task cannot close a scope it did not declare",
            ScopeMisuse::ClosedTwice => "scope completeness was closed twice",
            ScopeMisuse::NoIdentity => "scope catalog did not publish an identity",
        }
    }
}

/// A diagnostic of the framework itself.
#[derive(Clone, Debug, PartialEq, Eq, Hash)]
pub enum FrameworkDiagnostic {
    /// The parser produced no interpretation.
    MissingInterpretation,
    /// The parser produced several; the role must choose one.
    AmbiguousInterpretation(usize),
    /// The role chose a product that is not an accepted interpretation.
    UnknownInterpretation(usize),
    /// The task already chose a different interpretation.
    InterpretationAlreadyChosen,
    MissingAst(AstKey),
    MissingToken(usize),
    MissingScope(AstKey),
    /// The elaborator completed without selecting an interpretation.
    InterpretationNotSelected,
    /// Anything else, in words.
    Message(String),
}

impl FrameworkDiagnostic {
    /// The same diagnostic again.
    pub fn copied(&self) -> (r: Self)
        ensures
            r == *self,
    {
        match self {
            FrameworkDiagnostic::MissingInterpretation => FrameworkDiagnostic::MissingInterpretation,
            FrameworkDiagnostic::AmbiguousInterpretation(count) => {
                FrameworkDiagnostic::AmbiguousInterpretation(*count)
            },
            FrameworkDiagnostic::UnknownInterpretation(product) => {
                FrameworkDiagnostic::UnknownInterpretation(*product)
            },
            FrameworkDiagnostic::InterpretationAlreadyChosen => {
                FrameworkDiagnostic::InterpretationAlreadyChosen
            },
            FrameworkDiagnostic::MissingAst(key) => FrameworkDiagnostic::MissingAst(*key),
            FrameworkDiagnostic::MissingToken(token) => FrameworkDiagnostic::MissingToken(*token),
            FrameworkDiagnostic::MissingScope(key) => FrameworkDiagnostic::MissingScope(*key),
            FrameworkDiagnostic::InterpretationNotSelected => {
                FrameworkDiagnostic::InterpretationNotSelected
            },
            FrameworkDiagnostic::Message(text) => FrameworkDiagnostic::Message(text.clone()),
        }
    }
}

/// Why a rule stopped.
#[derive(Debug)]
pub enum ElaboratorError<D> {
    Framework(FrameworkDiagnostic),
    Rule(D),
}

/// A diagnostic of the framework or of a rule.
#[derive(Debug)]
pub enum ElaboratorDiagnostic<D> {
    Framework(FrameworkDiagnostic),
    Rule(D),
}

impl<D: Datum> ElaboratorDiagnostic<D> {
    /// The same diagnostic again.
    pub fn copied(&self) -> (r: Self)
        ensures
            r == *self,
    {
        match self {
            ElaboratorDiagnostic::Framework(a) => ElaboratorDiagnostic::Framework(a.copied()),
            ElaboratorDiagnostic::Rule(a) => ElaboratorDiagnostic::Rule(a.copied()),
        }
    }
}

/// The same diagnostics again.
pub fn copy_diagnostics<D: Datum>(list: &Vec<ElaboratorDiagnostic<D>>) -> (r: Vec<
    ElaboratorDiagnostic<D>,
>)
    ensures
        r@ == list@,
{
    let mut r: Vec<ElaboratorDiagnostic<D>> = Vec::new();
    let mut i: usize = 0;
    while i < list.len()
        invariant
            i <= list@.len(),
            r@ == list@.take(i as int),
        decreases list@.len() - i,
    {
        r.push(list[i].copied());
        assert(list@.take(i + 1) =~= list@.take(i as int).push(list@[i as int]));
        i += 1;
    }
    assert(list@.take(i as int) =~= list@);
    r
}

/// What was refused is refused in the words for a misuse.
pub open spec fn misused<T, D>(r: Result<T, ElaboratorError<D>>, misuse: ScopeMisuse) -> bool {
    r matches Err(ElaboratorError::Framework(FrameworkDiagnostic::Message(text))) && text@
        == misuse.words()
}

/// A refusal for a misuse.
pub fn refuse<T, D>(misuse: ScopeMisuse) -> (r: Result<T, ElaboratorError<D>>)
    ensures
        misused(r, misuse),
{
    let text = misuse.message().to_owned();
    Err(ElaboratorError::Framework(FrameworkDiagnostic::Message(text)))
}

// ---------------------------------------------------------------------------
// Rejected interpretations
// ---------------------------------------------------------------------------

/// The digits of a number.
pub open spec fn digits(n: nat) -> Seq<char>
    decreases n,
{
    if n < 10 {
        seq![digit(n)]
    } else {
        digits(n / 10).push(digit(n % 10))
    }
}

/// The digit of a number below ten.
pub open spec fn digit(n: nat) -> char {
    if n == 0 {
        '0'
    } else if n == 1 {
        '1'
    } else if n == 2 {
        '2'
    } else if n == 3 {
        '3'
    } else if n == 4 {
        '4'
    } else if n == 5 {
        '5'
    } else if n == 6 {
        '6'
    } else if n == 7 {
        '7'
    } else if n == 8 {
        '8'
    } else {
        '9'
    }
}

/// The words for a digit.
fn digit_word(n: usize) -> (r: &'static str)
    requires
        n < 10,
    ensures
        r@ == seq![digit(n as nat)],
{
    proof {
        reveal_strlit("0");
        reveal_strlit("1");
        reveal_strlit("2");
        reveal_strlit("3");
        reveal_strlit("4");
        reveal_strlit("5");
        reveal_strlit("6");
        reveal_strlit("7");
        reveal_strlit("8");
        reveal_strlit("9");
    }
    if n == 0 {
        assert("0"@ =~= seq!['0']);
        "0"
    } else if n == 1 {
        assert("1"@ =~= seq!['1']);
        "1"
    } else if n == 2 {
        assert("2"@ =~= seq!['2']);
        "2"
    } else if n == 3 {
        assert("3"@ =~= seq!['3']);
        "3"
    } else if n == 4 {
        assert("4"@ =~= seq!['4']);
        "4"
    } else if n == 5 {
        assert("5"@ =~= seq!['5']);
        "5"
    } else if n == 6 {
        assert("6"@ =~= seq!['6']);
        "6"
    } else if n == 7 {
        assert("7"@ =~= seq!['7']);
        "7"
    } else if n == 8 {
        assert("8"@ =~= seq!['8']);
        "8"
    } else {
        assert("9"@ =~= seq!['9']);
        "9"
    }
}

fn append_digits(out: &mut String, n: usize)
    ensures
        final(out)@ == old(out)@ + digits(n as nat),
    decreases n,
{
    let ghost before = out@;
    if n >= 10 {
        append_digits(out, n / 10);
    }
    out.append(digit_word(n % 10));
    assert(out@ =~= before + digits(n as nat));
}

/// Why a product was rejected, in words.
pub open spec fn rejection(product: usize, reason: Seq<char>) -> Seq<char> {
    "product "@ + digits(product as nat) + ": "@ + reason
}

/// Why products were rejected, one after the other.
pub open spec fn rejections(products: Seq<usize>, reasons: Seq<Seq<char>>) -> Seq<char>
    decreases reasons.len(),
{
    if reasons.len() == 0 {
        Seq::empty()
    } else {
        let last = rejection(products[reasons.len() - 1], reasons.last());
        if reasons.len() == 1 {
            last
        } else {
            rejections(products, reasons.drop_last()) + "; "@ + last
        }
    }
}

/// The message for products that were all rejected.
pub open spec fn all_rejected(products: Seq<usize>, reasons: Seq<Seq<char>>) -> Seq<char> {
    "every requested interpretation was rejected: "@ + rejections(products, reasons)
}

/// Adds why a product was rejected to a list.
pub(crate) fn append_rejection(
    out: &mut String,
    products: &Vec<usize>,
    at: usize,
    reason: &String,
    reasons: Ghost<Seq<Seq<char>>>,
)
    requires
        at < products@.len(),
        reasons@.len() == at,
        old(out)@ == rejections(products@, reasons@),
    ensures
        final(out)@ == rejections(products@, reasons@.push(reason@)),
{
    let ghost before = out@;
    if at > 0 {
        out.append("; ");
    }
    let ghost apart = out@;
    out.append("product ");
    append_digits(out, products[at]);
    out.append(": ");
    out.append(reason.as_str());
    proof {
        assert(reasons@.push(reason@).drop_last() =~= reasons@);
        assert(out@ =~= apart + rejection(products@[at as int], reason@));
        if at == 0 {
            assert(out@ =~= rejection(products@[at as int], reason@));
        } else {
            assert(out@ =~= before + "; "@ + rejection(products@[at as int], reason@));
        }
    }
}

/// One node to elaborate, in a scope, with an input.
pub struct ElaboratorTask<R: ElaboratorRole> {
    pub ast: AstKey,
    pub incoming: Scope,
    pub input: R::Input,
}

impl<R: ElaboratorRole> ElaboratorTask<R> {
    pub fn new(ast: AstKey, incoming: Scope, input: R::Input) -> (r: Self)
        ensures
            r.ast == ast,
            r.incoming == incoming,
            r.input == input,
    {
        ElaboratorTask { ast, incoming, input }
    }
}

impl<R: ElaboratorRole> Datum for ElaboratorTask<R> {
    fn same(&self, other: &Self) -> (r: bool) {
        self.ast.same(&other.ast) && self.incoming.same(&other.incoming) && self.input.same(
            &other.input,
        )
    }

    fn copied(&self) -> (r: Self) {
        ElaboratorTask {
            ast: self.ast,
            incoming: self.incoming,
            input: self.input.copied(),
        }
    }
}

/// A task that was scheduled.
pub struct Child<R: ElaboratorRole> {
    pub task: ElaboratorTask<R>,
}

impl<R: ElaboratorRole> Child<R> {
    /// The task.
    pub fn task(&self) -> (r: &ElaboratorTask<R>)
        ensures
            *r == self.task,
    {
        &self.task
    }
}

// ---------------------------------------------------------------------------
// Traversal
// ---------------------------------------------------------------------------

/// Syntax nodes that can be walked.
pub trait AstWalk: Sized {
    /// The nodes directly below, from left to right.
    open spec fn below(&self) -> Seq<AstKey> {
        Seq::empty()
    }

    /// Adds the nodes directly below, from left to right.
    fn direct_children(&self, visited: &mut Vec<AstKey>)
        ensures
            final(visited)@ == old(visited)@ + self.below(),
    ;
}

/// A part of a syntax node is walked as a node that holds only that part.
impl<T: AstWalkField> AstWalk for T {
    open spec fn below(&self) -> Seq<AstKey> {
        self.nodes()
    }

    fn direct_children(&self, visited: &mut Vec<AstKey>) {
        self.ast_children(visited);
    }
}

/// Parts of a syntax node that hold nodes.
pub trait AstWalkField: Sized {
    /// The nodes, from left to right.
    spec fn nodes(&self) -> Seq<AstKey>;

    /// Adds the nodes, from left to right.
    fn ast_children(&self, visited: &mut Vec<AstKey>)
        ensures
            final(visited)@ == old(visited)@ + self.nodes(),
    ;
}

impl AstWalkField for AstKey {
    open spec fn nodes(&self) -> Seq<AstKey> {
        seq![*self]
    }

    fn ast_children(&self, visited: &mut Vec<AstKey>) {
        visited.push(*self);
        assert(visited@ =~= old(visited)@ + seq![*self]);
    }
}

impl<T: AstWalkField> AstWalkField for Option<T> {
    open spec fn nodes(&self) -> Seq<AstKey> {
        match self {
            Some(field) => field.nodes(),
            None => Seq::empty(),
        }
    }

    fn ast_children(&self, visited: &mut Vec<AstKey>) {
        match self {
            Some(field) => {
                field.ast_children(visited);
            },
            None => {
                assert(visited@ =~= old(visited)@ + Seq::<AstKey>::empty());
            },
        }
    }
}

/// The nodes of several fields, one after the other.
pub open spec fn nodes_of_all<T: AstWalkField>(fields: Seq<T>) -> Seq<AstKey>
    decreases fields.len(),
{
    if fields.len() == 0 {
        Seq::empty()
    } else {
        nodes_of_all(fields.drop_last()) + fields.last().nodes()
    }
}

impl<T: AstWalkField> AstWalkField for Vec<T> {
    open spec fn nodes(&self) -> Seq<AstKey> {
        nodes_of_all(self@)
    }

    fn ast_children(&self, visited: &mut Vec<AstKey>) {
        let mut i: usize = 0;
        assert(visited@ =~= old(visited)@ + nodes_of_all(self@.take(0)));
        while i < self.len()
            invariant
                i <= self@.len(),
                visited@ == old(visited)@ + nodes_of_all(self@.take(i as int)),
            decreases self@.len() - i,
        {
            self[i].ast_children(visited);
            proof {
                assert(self@.take(i + 1).drop_last() =~= self@.take(i as int));
                assert(old(visited)@ + nodes_of_all(self@.take(i as int)) + self@[i as int].nodes()
                    =~= old(visited)@ + (nodes_of_all(self@.take(i as int))
                    + self@[i as int].nodes()));
            }
            i += 1;
        }
        assert(self@.take(i as int) =~= self@);
    }
}

impl<T: AstWalkField> AstWalkField for Box<T> {
    open spec fn nodes(&self) -> Seq<AstKey> {
        (**self).nodes()
    }

    fn ast_children(&self, visited: &mut Vec<AstKey>) {
        (**self).ast_children(visited);
    }
}

} // verus!
