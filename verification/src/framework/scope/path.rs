//! Regular paths over edge labels.

use vstd::prelude::*;

verus! {

/// Values that verified code can compare and copy.
pub trait Datum: Sized {
    fn same(&self, other: &Self) -> (r: bool)
        ensures
            r == (*self == *other),
    ;

    fn copied(&self) -> (r: Self)
        ensures
            r == *self,
    ;
}

impl Datum for u64 {
    fn same(&self, other: &Self) -> (r: bool) {
        *self == *other
    }

    fn copied(&self) -> (r: Self) {
        *self
    }
}

impl Datum for char {
    fn same(&self, other: &Self) -> (r: bool) {
        *self == *other
    }

    fn copied(&self) -> (r: Self) {
        *self
    }
}

/// A regular path language used by the resolution of names.
pub enum PathExpr<Label> {
    /// A dead path: no continuation is possible.
    Empty,
    /// Accept at the current scope without traversing an edge.
    Epsilon,
    Label(Label),
    Or(Box<PathExpr<Label>>, Box<PathExpr<Label>>),
    Then(Box<PathExpr<Label>>, Box<PathExpr<Label>>),
    Star(Box<PathExpr<Label>>),
}

/// The word of labels is in the language of the expression.
pub open spec fn accepts_word<L>(e: PathExpr<L>, word: Seq<L>) -> bool
    decreases e, word.len(),
{
    match e {
        PathExpr::Empty => false,
        PathExpr::Epsilon => word.len() == 0,
        PathExpr::Label(l) => word.len() == 1 && word[0] == l,
        PathExpr::Or(a, b) => accepts_word(*a, word) || accepts_word(*b, word),
        PathExpr::Then(a, b) => exists|k: int|
            0 <= k <= word.len() && accepts_word(*a, #[trigger] word.take(k)) && accepts_word(
                *b,
                word.skip(k),
            ),
        PathExpr::Star(inner) => word.len() == 0 || exists|k: int|
            0 < k <= word.len() && accepts_word(*inner, #[trigger] word.take(k)) && accepts_word(
                e,
                word.skip(k),
            ),
    }
}

/// The alternative of two expressions: a dead one drops out, and so does a
/// repetition.
pub open spec fn or_of<L>(a: PathExpr<L>, b: PathExpr<L>) -> PathExpr<L> {
    if a is Empty {
        b
    } else if b is Empty || a == b {
        a
    } else {
        PathExpr::Or(Box::new(a), Box::new(b))
    }
}

/// The sequence of two expressions: a dead one makes all of it dead, and one
/// that traverses nothing drops out.
pub open spec fn sequence_of<L>(a: PathExpr<L>, b: PathExpr<L>) -> PathExpr<L> {
    if a is Empty || b is Empty {
        PathExpr::Empty
    } else if a is Epsilon {
        b
    } else if b is Epsilon {
        a
    } else {
        PathExpr::Then(Box::new(a), Box::new(b))
    }
}

/// The repetition of an expression: one that traverses nothing, and one that
/// is a repetition already, are not wrapped again.
pub open spec fn star_of<L>(a: PathExpr<L>) -> PathExpr<L> {
    match a {
        PathExpr::Empty | PathExpr::Epsilon => PathExpr::Epsilon,
        PathExpr::Star(_) => a,
        _ => PathExpr::Star(Box::new(a)),
    }
}

/// The expression accepts without traversing an edge.
pub open spec fn nullable_of<L>(e: PathExpr<L>) -> bool
    decreases e,
{
    match e {
        PathExpr::Empty | PathExpr::Label(_) => false,
        PathExpr::Epsilon | PathExpr::Star(_) => true,
        PathExpr::Or(a, b) => nullable_of(*a) || nullable_of(*b),
        PathExpr::Then(a, b) => nullable_of(*a) && nullable_of(*b),
    }
}

/// What is left of the expression once one edge was traversed.
pub open spec fn derivative_of<L>(e: PathExpr<L>, label: L) -> PathExpr<L>
    decreases e,
{
    match e {
        PathExpr::Empty | PathExpr::Epsilon => PathExpr::Empty,
        PathExpr::Label(expected) => if expected == label {
            PathExpr::Epsilon
        } else {
            PathExpr::Empty
        },
        PathExpr::Or(a, b) => or_of(derivative_of(*a, label), derivative_of(*b, label)),
        PathExpr::Then(a, b) => {
            let first = sequence_of(derivative_of(*a, label), *b);
            if nullable_of(*a) {
                or_of(first, derivative_of(*b, label))
            } else {
                first
            }
        },
        PathExpr::Star(inner) => sequence_of(derivative_of(*inner, label), e),
    }
}

/// The labels that the expression names, from left to right.
pub open spec fn occurrences<L>(e: PathExpr<L>) -> Seq<L>
    decreases e,
{
    match e {
        PathExpr::Empty | PathExpr::Epsilon => Seq::empty(),
        PathExpr::Label(l) => seq![l],
        PathExpr::Or(a, b) => occurrences(*a) + occurrences(*b),
        PathExpr::Then(a, b) => occurrences(*a) + occurrences(*b),
        PathExpr::Star(inner) => occurrences(*inner),
    }
}

/// `base` with each of the `added` values that was not there yet, in the
/// order in which they first appear.
pub open spec fn gathered<L>(base: Seq<L>, added: Seq<L>) -> Seq<L>
    decreases added.len(),
{
    if added.len() == 0 {
        base
    } else {
        let before = gathered(base, added.drop_last());
        if before.contains(added.last()) {
            before
        } else {
            before.push(added.last())
        }
    }
}

/// The distinct labels of an expression, in the order of first appearance.
pub open spec fn labels_of<L>(e: PathExpr<L>) -> Seq<L> {
    gathered(Seq::empty(), occurrences(e))
}

proof fn lemma_gathered_join<L>(base: Seq<L>, a: Seq<L>, b: Seq<L>)
    ensures
        gathered(base, a + b) == gathered(gathered(base, a), b),
    decreases b.len(),
{
    if b.len() == 0 {
        assert(a + b =~= a);
    } else {
        lemma_gathered_join(base, a, b.drop_last());
        assert((a + b).drop_last() =~= a + b.drop_last());
        assert((a + b).last() == b.last());
    }
}

/// Gathering loses and invents no value, and repeats none.
pub proof fn lemma_gathered<L>(base: Seq<L>, added: Seq<L>)
    ensures
        forall|x: L| #[trigger]
            gathered(base, added).contains(x) <==> base.contains(x) || added.contains(x),
        base.no_duplicates() ==> gathered(base, added).no_duplicates(),
    decreases added.len(),
{
    if added.len() > 0 {
        let before = gathered(base, added.drop_last());
        let all = gathered(base, added);
        lemma_gathered(base, added.drop_last());
        assert forall|x: L| all.contains(x) <==> base.contains(x) || added.contains(x) by {
            if all.contains(x) {
                if !before.contains(x) {
                    assert(x == added.last());
                    assert(added[added.len() - 1] == x);
                } else if added.drop_last().contains(x) {
                    let i = added.drop_last().index_of(x);
                    assert(added[i] == x);
                }
            }
            if before.contains(x) && !before.contains(added.last()) {
                let i = before.index_of(x);
                assert(all[i] == x);
            }
            if added.contains(x) {
                let i = added.index_of(x);
                if i == added.len() - 1 {
                    if !before.contains(x) {
                        assert(all[all.len() - 1] == x);
                    }
                } else {
                    assert(added.drop_last()[i] == x);
                }
            }
            if base.contains(x) {
                assert(before.contains(x));
            }
        }
    }
}

// ---------------------------------------------------------------------------
// Laws
// ---------------------------------------------------------------------------

/// An alternative accepts what either side accepts.
pub proof fn lemma_or_accepts<L>(a: PathExpr<L>, b: PathExpr<L>, word: Seq<L>)
    ensures
        accepts_word(or_of(a, b), word) == (accepts_word(a, word) || accepts_word(b, word)),
{
}

/// A sequence accepts a word exactly where the word can be cut into one that
/// the first side accepts and one that the second accepts.
pub proof fn lemma_sequence_accepts<L>(a: PathExpr<L>, b: PathExpr<L>, word: Seq<L>)
    ensures
        accepts_word(sequence_of(a, b), word) <==> exists|k: int|
            0 <= k <= word.len() && accepts_word(a, #[trigger] word.take(k)) && accepts_word(
                b,
                word.skip(k),
            ),
{
    assert(word.take(word.len() as int) =~= word);
    assert(word.skip(0) =~= word);
    if !(a is Empty || b is Empty) {
        if a is Epsilon {
            assert(word.take(0).len() == 0);
        } else if b is Epsilon {
            assert(word.skip(word.len() as int).len() == 0);
        }
    }
}

proof fn lemma_star_join<L>(inner: Box<PathExpr<L>>, u: Seq<L>, v: Seq<L>)
    requires
        accepts_word(PathExpr::Star(inner), u),
        accepts_word(PathExpr::Star(inner), v),
    ensures
        accepts_word(PathExpr::Star(inner), u + v),
    decreases u.len(),
{
    let e = PathExpr::Star(inner);
    if u.len() == 0 {
        assert(u + v =~= v);
    } else {
        let k = choose|k: int|
            0 < k <= u.len() && accepts_word(*inner, #[trigger] u.take(k)) && accepts_word(
                e,
                u.skip(k),
            );
        lemma_star_join(inner, u.skip(k), v);
        assert((u + v).take(k) =~= u.take(k));
        assert((u + v).skip(k) =~= u.skip(k) + v);
    }
}

proof fn lemma_star_of_star<L>(inner: Box<PathExpr<L>>, word: Seq<L>)
    ensures
        accepts_word(PathExpr::Star(Box::new(PathExpr::Star(inner))), word) == accepts_word(
            PathExpr::Star(inner),
            word,
        ),
    decreases word.len(),
{
    let once = PathExpr::Star(inner);
    let twice = PathExpr::Star(Box::new(once));
    if word.len() > 0 {
        if accepts_word(once, word) {
            let k = word.len() as int;
            assert(word.take(k) =~= word);
            assert(accepts_word(twice, word.skip(k)));
        }
        if accepts_word(twice, word) {
            let k = choose|k: int|
                0 < k <= word.len() && accepts_word(once, #[trigger] word.take(k)) && accepts_word(
                    twice,
                    word.skip(k),
                );
            lemma_star_of_star(inner, word.skip(k));
            lemma_star_join(inner, word.take(k), word.skip(k));
            assert(word.take(k) + word.skip(k) =~= word);
        }
    }
}

/// A repetition accepts the empty word, and every word that starts with a
/// part that is accepted once and goes on with one that the repetition
/// accepts; no others.
pub proof fn lemma_star_accepts<L>(a: PathExpr<L>, word: Seq<L>)
    ensures
        accepts_word(star_of(a), word) <==> word.len() == 0 || exists|k: int|
            0 < k <= word.len() && accepts_word(a, #[trigger] word.take(k)) && accepts_word(
                star_of(a),
                word.skip(k),
            ),
{
    match a {
        PathExpr::Star(inner) => {
            let twice = PathExpr::Star(Box::new(a));
            lemma_star_of_star(inner, word);
            assert forall|k: int| 0 <= k <= word.len() implies accepts_word(
                twice,
                #[trigger] word.skip(k),
            ) == accepts_word(a, word.skip(k)) by {
                lemma_star_of_star(inner, word.skip(k));
            }
            assert(accepts_word(twice, word) <==> word.len() == 0 || exists|k: int|
                0 < k <= word.len() && accepts_word(a, #[trigger] word.take(k)) && accepts_word(
                    twice,
                    word.skip(k),
                ));
            if word.len() > 0 && accepts_word(a, word) {
                let k = choose|k: int|
                    0 < k <= word.len() && accepts_word(a, #[trigger] word.take(k))
                        && accepts_word(twice, word.skip(k));
                assert(accepts_word(a, word.skip(k)));
            }
            if word.len() > 0 && exists|k: int|
                0 < k <= word.len() && accepts_word(a, #[trigger] word.take(k)) && accepts_word(
                    a,
                    word.skip(k),
                ) {
                let k = choose|k: int|
                    0 < k <= word.len() && accepts_word(a, #[trigger] word.take(k))
                        && accepts_word(a, word.skip(k));
                assert(accepts_word(twice, word.skip(k)));
            }
        },
        PathExpr::Empty | PathExpr::Epsilon => {},
        _ => {},
    }
}

/// An expression is nullable exactly where it accepts the empty word.
pub proof fn lemma_nullable_accepts<L>(e: PathExpr<L>)
    ensures
        nullable_of(e) == accepts_word(e, Seq::empty()),
    decreases e,
{
    let none = Seq::<L>::empty();
    match e {
        PathExpr::Or(a, b) => {
            lemma_nullable_accepts(*a);
            lemma_nullable_accepts(*b);
        },
        PathExpr::Then(a, b) => {
            lemma_nullable_accepts(*a);
            lemma_nullable_accepts(*b);
            assert(none.take(0) =~= none);
            assert(none.skip(0) =~= none);
        },
        _ => {},
    }
}

/// The derivative by a label accepts exactly the words that the expression
/// accepts behind that label.
pub proof fn lemma_derivative_accepts<L>(e: PathExpr<L>, label: L, word: Seq<L>)
    ensures
        accepts_word(derivative_of(e, label), word) == accepts_word(e, seq![label] + word),
    decreases e,
{
    let all = seq![label] + word;
    match e {
        PathExpr::Or(a, b) => {
            lemma_derivative_accepts(*a, label, word);
            lemma_derivative_accepts(*b, label, word);
        },
        PathExpr::Then(a, b) => {
            let da = derivative_of(*a, label);
            let db = derivative_of(*b, label);
            lemma_sequence_accepts(da, *b, word);
            lemma_nullable_accepts(*a);
            lemma_derivative_accepts(*b, label, word);
            assert(all.take(0) =~= Seq::empty());
            assert(all.skip(0) =~= all);
            assert forall|k: int| 0 <= k <= word.len() implies accepts_word(
                da,
                #[trigger] word.take(k),
            ) == accepts_word(*a, all.take(k + 1)) && word.skip(k) == all.skip(k + 1) by {
                lemma_derivative_accepts(*a, label, word.take(k));
                assert(seq![label] + word.take(k) =~= all.take(k + 1));
                assert(word.skip(k) =~= all.skip(k + 1));
            }
            if accepts_word(e, all) {
                let k = choose|k: int|
                    0 <= k <= all.len() && accepts_word(*a, #[trigger] all.take(k))
                        && accepts_word(*b, all.skip(k));
                if k > 0 {
                    assert(accepts_word(da, word.take(k - 1)));
                }
            }
        },
        PathExpr::Star(inner) => {
            let di = derivative_of(*inner, label);
            lemma_sequence_accepts(di, e, word);
            assert forall|k: int| 0 <= k <= word.len() implies accepts_word(
                di,
                #[trigger] word.take(k),
            ) == accepts_word(*inner, all.take(k + 1)) && word.skip(k) == all.skip(k + 1) by {
                lemma_derivative_accepts(*inner, label, word.take(k));
                assert(seq![label] + word.take(k) =~= all.take(k + 1));
                assert(word.skip(k) =~= all.skip(k + 1));
            }
            if accepts_word(e, all) {
                let k = choose|k: int|
                    0 < k <= all.len() && accepts_word(*inner, #[trigger] all.take(k))
                        && accepts_word(e, all.skip(k));
                assert(accepts_word(di, word.take(k - 1)));
            }
        },
        PathExpr::Label(expected) => {
            assert(all[0] == label);
        },
        _ => {},
    }
}

/// An accepted word uses only labels that the expression names.
pub proof fn lemma_words_use_labels<L>(e: PathExpr<L>, word: Seq<L>, i: int)
    requires
        accepts_word(e, word),
        0 <= i < word.len(),
    ensures
        labels_of(e).contains(word[i]),
{
    lemma_words_use_occurrences(e, word, i);
    lemma_gathered(Seq::empty(), occurrences(e));
}

proof fn lemma_words_use_occurrences<L>(e: PathExpr<L>, word: Seq<L>, i: int)
    requires
        accepts_word(e, word),
        0 <= i < word.len(),
    ensures
        occurrences(e).contains(word[i]),
    decreases e, word.len(),
{
    let all = occurrences(e);
    match e {
        PathExpr::Label(l) => {
            assert(all[0] == l);
        },
        PathExpr::Or(a, b) => {
            let left = occurrences(*a);
            let right = occurrences(*b);
            if accepts_word(*a, word) {
                lemma_words_use_occurrences(*a, word, i);
                let j = left.index_of(word[i]);
                assert(all[j] == word[i]);
            } else {
                lemma_words_use_occurrences(*b, word, i);
                let j = right.index_of(word[i]);
                assert(all[left.len() + j] == word[i]);
            }
        },
        PathExpr::Then(a, b) => {
            let left = occurrences(*a);
            let right = occurrences(*b);
            let k = choose|k: int|
                0 <= k <= word.len() && accepts_word(*a, #[trigger] word.take(k)) && accepts_word(
                    *b,
                    word.skip(k),
                );
            if i < k {
                lemma_words_use_occurrences(*a, word.take(k), i);
                let j = left.index_of(word[i]);
                assert(all[j] == word[i]);
            } else {
                lemma_words_use_occurrences(*b, word.skip(k), i - k);
                let j = right.index_of(word[i]);
                assert(all[left.len() + j] == word[i]);
            }
        },
        PathExpr::Star(inner) => {
            let k = choose|k: int|
                0 < k <= word.len() && accepts_word(*inner, #[trigger] word.take(k))
                    && accepts_word(e, word.skip(k));
            if i < k {
                lemma_words_use_occurrences(*inner, word.take(k), i);
            } else {
                lemma_words_use_occurrences(e, word.skip(k), i - k);
            }
        },
        _ => {},
    }
}

// ---------------------------------------------------------------------------
// Operations
// ---------------------------------------------------------------------------

impl<Label: Datum> PathExpr<Label> {
    /// Whether two expressions are the same, part for part.
    pub fn same(&self, other: &Self) -> (r: bool)
        ensures
            r == (*self == *other),
        decreases *self,
    {
        match (self, other) {
            (PathExpr::Empty, PathExpr::Empty) => true,
            (PathExpr::Epsilon, PathExpr::Epsilon) => true,
            (PathExpr::Label(a), PathExpr::Label(b)) => a.same(b),
            (PathExpr::Or(a, b), PathExpr::Or(c, d)) => a.same(c) && b.same(d),
            (PathExpr::Then(a, b), PathExpr::Then(c, d)) => a.same(c) && b.same(d),
            (PathExpr::Star(a), PathExpr::Star(b)) => a.same(b),
            _ => false,
        }
    }

    /// A copy of the expression.
    pub fn copied(&self) -> (r: Self)
        ensures
            r == *self,
        decreases *self,
    {
        match self {
            PathExpr::Empty => PathExpr::Empty,
            PathExpr::Epsilon => PathExpr::Epsilon,
            PathExpr::Label(l) => PathExpr::Label(l.copied()),
            PathExpr::Or(a, b) => PathExpr::Or(Box::new(a.copied()), Box::new(b.copied())),
            PathExpr::Then(a, b) => PathExpr::Then(Box::new(a.copied()), Box::new(b.copied())),
            PathExpr::Star(a) => PathExpr::Star(Box::new(a.copied())),
        }
    }

    /// One edge under `label`.
    pub fn label(label: Label) -> (r: Self)
        ensures
            r == PathExpr::Label(label),
    {
        PathExpr::Label(label)
    }

    /// Either expression.
    pub fn or(self, other: Self) -> (r: Self)
        ensures
            r == or_of(self, other),
    {
        match self {
            PathExpr::Empty => other,
            left => match other {
                PathExpr::Empty => left,
                right => if left.same(&right) {
                    left
                } else {
                    PathExpr::Or(Box::new(left), Box::new(right))
                },
            },
        }
    }

    /// One expression behind the other.
    pub fn followed_by(self, other: Self) -> (r: Self)
        ensures
            r == sequence_of(self, other),
    {
        match (self, other) {
            (PathExpr::Empty, _) => PathExpr::Empty,
            (_, PathExpr::Empty) => PathExpr::Empty,
            (PathExpr::Epsilon, right) => right,
            (left, PathExpr::Epsilon) => left,
            (left, right) => PathExpr::Then(Box::new(left), Box::new(right)),
        }
    }

    /// Any number of the expression, one behind the other.
    pub fn star(self) -> (r: Self)
        ensures
            r == star_of(self),
    {
        match self {
            PathExpr::Empty => PathExpr::Epsilon,
            PathExpr::Epsilon => PathExpr::Epsilon,
            PathExpr::Star(inner) => PathExpr::Star(inner),
            expression => PathExpr::Star(Box::new(expression)),
        }
    }

    /// Any number of edges under `label`.
    pub fn zero_or_more(label: Label) -> (r: Self)
        ensures
            r == PathExpr::Star(Box::new(PathExpr::Label(label))),
    {
        Self::label(label).star()
    }

    /// Whether the expression accepts at the current scope.
    pub fn nullable(&self) -> (r: bool)
        ensures
            r == nullable_of(*self),
            r == accepts_word(*self, Seq::empty()),
        decreases *self,
    {
        proof {
            lemma_nullable_accepts(*self);
        }
        match self {
            PathExpr::Empty => false,
            PathExpr::Label(_) => false,
            PathExpr::Epsilon => true,
            PathExpr::Star(_) => true,
            PathExpr::Or(left, right) => left.nullable() || right.nullable(),
            PathExpr::Then(left, right) => left.nullable() && right.nullable(),
        }
    }

    /// What is left of the expression behind an edge under `label`.
    pub fn derivative(&self, label: &Label) -> (r: Self)
        ensures
            r == derivative_of(*self, *label),
        decreases *self,
    {
        match self {
            PathExpr::Empty => PathExpr::Empty,
            PathExpr::Epsilon => PathExpr::Empty,
            PathExpr::Label(expected) => if expected.same(label) {
                PathExpr::Epsilon
            } else {
                PathExpr::Empty
            },
            PathExpr::Or(left, right) => left.derivative(label).or(right.derivative(label)),
            PathExpr::Then(left, right) => {
                let first = left.derivative(label).followed_by(right.copied());
                if left.nullable() {
                    first.or(right.derivative(label))
                } else {
                    first
                }
            },
            PathExpr::Star(inner) => inner.derivative(label).followed_by(self.copied()),
        }
    }

    /// The distinct labels that the expression names, in the order in which
    /// they first appear.
    pub fn labels(&self) -> (r: Vec<Label>)
        ensures
            r@ == labels_of(*self),
    {
        let mut out: Vec<Label> = Vec::new();
        self.collect_labels(&mut out);
        out
    }

    fn collect_labels(&self, out: &mut Vec<Label>)
        ensures
            final(out)@ == gathered(old(out)@, occurrences(*self)),
        decreases *self,
    {
        match self {
            PathExpr::Empty => {},
            PathExpr::Epsilon => {},
            PathExpr::Label(label) => {
                proof {
                    let one = seq![*label];
                    assert(one.drop_last() =~= Seq::empty());
                    assert(gathered(old(out)@, one.drop_last()) == old(out)@);
                    assert(one.last() == *label);
                }
                if !holds(out, label) {
                    out.push(label.copied());
                }
            },
            PathExpr::Or(left, right) => {
                left.collect_labels(out);
                right.collect_labels(out);
                proof {
                    lemma_gathered_join(old(out)@, occurrences(**left), occurrences(**right));
                }
            },
            PathExpr::Then(left, right) => {
                left.collect_labels(out);
                right.collect_labels(out);
                proof {
                    lemma_gathered_join(old(out)@, occurrences(**left), occurrences(**right));
                }
            },
            PathExpr::Star(inner) => inner.collect_labels(out),
        }
    }
}

/// Whether the list holds the value.
pub fn holds<T: Datum>(list: &Vec<T>, value: &T) -> (r: bool)
    ensures
        r == list@.contains(*value),
{
    let mut i: usize = 0;
    while i < list.len()
        invariant
            i <= list.len(),
            forall|j: int| 0 <= j < i ==> list@[j] != *value,
        decreases list.len() - i,
    {
        if list[i].same(value) {
            assert(list@[i as int] == *value);
            return true;
        }
        i += 1;
    }
    false
}

/// A path pattern interpreted from an explicit starting scope.
pub struct ScopePath<Label> {
    expression: PathExpr<Label>,
}

impl<Label> View for ScopePath<Label> {
    type V = PathExpr<Label>;

    closed spec fn view(&self) -> PathExpr<Label> {
        self.expression
    }
}

impl<Label: Datum> ScopePath<Label> {
    pub fn new(expression: PathExpr<Label>) -> (r: Self)
        ensures
            r@ == expression,
    {
        ScopePath { expression }
    }

    pub fn nullable(&self) -> (r: bool)
        ensures
            r == nullable_of(self@),
    {
        self.expression.nullable()
    }

    pub fn derivative(&self, label: &Label) -> (r: PathExpr<Label>)
        ensures
            r == derivative_of(self@, *label),
    {
        self.expression.derivative(label)
    }

    pub fn into_path(self) -> (r: PathExpr<Label>)
        ensures
            r == self@,
    {
        self.expression
    }
}

} // verus!
