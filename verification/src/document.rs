//! The document model: a subject, a type tag and predicate-tagged
//! assertions whose objects are documents again.

use crate::merkle_tree::TreeError;
use vstd::prelude::*;

verus! {

/// A single encoded value.
#[derive(Debug, Clone, PartialEq, Eq)]
pub enum Value {
    /// A number from 0 up.
    Unsigned(u64),
    /// The negative number `-1 - n`.
    Negative(u64),
    /// A byte string.
    Bytes(Vec<u8>),
    /// A text.
    Text(String),
    /// The absence of a value.
    Null,
}

/// The mathematical content of a `Value`.
pub ghost enum ValueView {
    Unsigned(u64),
    Negative(u64),
    Bytes(Seq<u8>),
    Text(Seq<char>),
    Null,
}

impl View for Value {
    type V = ValueView;

    open spec fn view(&self) -> ValueView {
        match *self {
            Value::Unsigned(n) => ValueView::Unsigned(n),
            Value::Negative(n) => ValueView::Negative(n),
            Value::Bytes(bytes) => ValueView::Bytes(bytes@),
            Value::Text(text) => ValueView::Text(text@),
            Value::Null => ValueView::Null,
        }
    }
}

/// What stands at a leaf of a document: one value, or a list of values.
#[derive(Debug, Clone, PartialEq, Eq)]
pub enum Leaf {
    One(Value),
    List(Vec<Value>),
}

/// The mathematical content of a `Leaf`.
pub ghost enum LeafView {
    One(ValueView),
    List(Seq<ValueView>),
}

/// The contents of a list of values.
pub open spec fn values_view(values: Seq<Value>) -> Seq<ValueView> {
    values.map_values(|value: Value| value@)
}

impl View for Leaf {
    type V = LeafView;

    open spec fn view(&self) -> LeafView {
        match *self {
            Leaf::One(value) => LeafView::One(value@),
            Leaf::List(values) => LeafView::List(values_view(values@)),
        }
    }
}

/// A document: the encoded form of one entity.
#[derive(Debug, PartialEq, Eq)]
pub struct Document {
    pub subject: Leaf,
    pub type_tag: Option<String>,
    pub assertions: Vec<Assertion>,
}

/// One assertion of a document: a predicate name and the object it leads to.
#[derive(Debug, PartialEq, Eq)]
pub struct Assertion {
    pub predicate: String,
    pub object: Document,
}

/// The mathematical content of a `Document`.
pub ghost struct DocumentView {
    /// The entity's primary value.
    pub subject: LeafView,
    /// The name of the entity's kind.
    pub type_tag: Option<Seq<char>>,
    /// The assertions, each a predicate name and an object.
    pub assertions: Seq<(Seq<char>, DocumentView)>,
}

/// The contents of a list of assertions.
pub open spec fn assertions_view(assertions: Seq<Assertion>) -> Seq<(Seq<char>, DocumentView)>
    decreases assertions,
{
    if assertions.len() == 0 {
        Seq::empty()
    } else {
        assertions_view(assertions.drop_last()).push(
            (assertions.last().predicate@, document_view(assertions.last().object)),
        )
    }
}

/// The contents of a document.
pub open spec fn document_view(document: Document) -> DocumentView
    decreases document,
{
    DocumentView {
        subject: document.subject@,
        type_tag: match document.type_tag {
            Some(tag) => Some(tag@),
            None => None,
        },
        assertions: assertions_view(document.assertions@),
    }
}

impl View for Document {
    type V = DocumentView;

    open spec fn view(&self) -> DocumentView {
        document_view(*self)
    }
}

/// The contents of a list of assertions, one by one.
pub proof fn lemma_assertions_view(assertions: Seq<Assertion>)
    ensures
        assertions_view(assertions).len() == assertions.len(),
        forall|i: int|
            0 <= i < assertions.len() ==> #[trigger] assertions_view(assertions)[i] == (
                assertions[i].predicate@,
                assertions[i].object@,
            ),
    decreases assertions.len(),
{
    if assertions.len() > 0 {
        lemma_assertions_view(assertions.drop_last());
    }
}

/// Why a document could not be decoded.
#[derive(Debug, Clone, Copy, PartialEq, Eq)]
pub enum DecodeFailure {
    /// The document's type tag is not the one of the entity asked for.
    TypeMismatch,
    /// A predicate that must occur does not.
    MissingAssertion,
    /// A predicate that may occur once occurs more often.
    AmbiguousAssertion,
    /// The value is not of the kind that the field is read from.
    SubjectCoercion,
    /// A fixed-width value of `actual` bytes where `expected` are needed.
    LengthMismatch { expected: usize, actual: usize },
    /// A number outside what the field can hold.
    OutOfRange,
    /// A text that names none of the entity's variants.
    UnknownName,
    /// A tree or witness whose parts do not fit together.
    Malformed(TreeError),
}

/// A decode failure together with the names of the fields and predicates
/// that were being decoded, the innermost first: read backwards, the path
/// from the outermost entity to the value that failed.
#[derive(Debug, Clone, PartialEq, Eq)]
pub struct DecodeError {
    pub failure: DecodeFailure,
    pub path: Vec<String>,
}

/// The mathematical content of a `DecodeError`.
pub ghost struct DecodeErrorView {
    pub failure: DecodeFailure,
    pub path: Seq<Seq<char>>,
}

/// A failure at the field `name`.
pub open spec fn failed_at(failure: DecodeFailure, name: Seq<char>) -> DecodeErrorView {
    DecodeErrorView { failure, path: seq![name] }
}

/// The outcome `outcome`, if it is a failure, as met inside the field `name`.
pub open spec fn in_context<T>(outcome: Result<T, DecodeErrorView>, name: Seq<char>) -> Result<
    T,
    DecodeErrorView,
> {
    match outcome {
        Ok(value) => Ok(value),
        Err(e) => Err(DecodeErrorView { failure: e.failure, path: e.path.push(name) }),
    }
}

/// The outcome of decoding a bare value, as met at the field `name`.
pub open spec fn at_field<T>(outcome: Result<T, DecodeFailure>, name: Seq<char>) -> Result<
    T,
    DecodeErrorView,
> {
    match outcome {
        Ok(value) => Ok(value),
        Err(failure) => Err(failed_at(failure, name)),
    }
}

impl View for DecodeError {
    type V = DecodeErrorView;

    open spec fn view(&self) -> DecodeErrorView {
        DecodeErrorView {
            failure: self.failure,
            path: self.path@.map_values(|name: String| name@),
        }
    }
}

impl DecodeError {
    /// A failure at the field `name`.
    pub fn new(failure: DecodeFailure, name: &str) -> (error: Self)
        ensures
            error@ == failed_at(failure, name@),
    {
        let mut path: Vec<String> = Vec::new();
        path.push(name.to_owned());
        assert(path@.map_values(|name: String| name@) =~= seq![name@]);
        DecodeError { failure, path }
    }

    /// The same failure, as met inside the field `name`.
    pub fn context(self, name: &str) -> (error: Self)
        ensures
            error@ == (DecodeErrorView { failure: self@.failure, path: self@.path.push(name@) }),
    {
        let ghost before = self.path@;
        let mut path = self.path;
        path.push(name.to_owned());
        assert(path@.map_values(|name: String| name@) =~= before.map_values(
            |name: String| name@,
        ).push(name@));
        DecodeError { failure: self.failure, path }
    }
}

/// Whether two texts hold the same characters.
pub fn same_text(a: &str, b: &str) -> (same: bool)
    ensures
        same == (a@ == b@),
{
    a.to_owned() == b.to_owned()
}

/// The objects of the assertions in `assertions` whose predicate is
/// `predicate`, in the order in which they stand.
pub open spec fn objects_in(
    assertions: Seq<(Seq<char>, DocumentView)>,
    predicate: Seq<char>,
) -> Seq<DocumentView>
    decreases assertions.len(),
{
    if assertions.len() == 0 {
        Seq::empty()
    } else {
        let before = objects_in(assertions.drop_last(), predicate);
        if assertions.last().0 == predicate {
            before.push(assertions.last().1)
        } else {
            before
        }
    }
}

/// What one more assertion adds to the objects of a predicate.
pub broadcast proof fn lemma_objects_push(
    assertions: Seq<(Seq<char>, DocumentView)>,
    added: (Seq<char>, DocumentView),
    predicate: Seq<char>,
)
    ensures
        #[trigger] objects_in(assertions.push(added), predicate) == if added.0 == predicate {
            objects_in(assertions, predicate).push(added.1)
        } else {
            objects_in(assertions, predicate)
        },
{
    assert(assertions.push(added).drop_last() =~= assertions);
}

impl DocumentView {
    /// The document that holds `subject` and nothing else.
    pub open spec fn leaf(subject: LeafView) -> Self {
        DocumentView { subject, type_tag: None, assertions: Seq::empty() }
    }

    /// The document with the type tag `tag`.
    pub open spec fn with_type(self, tag: Seq<char>) -> Self {
        DocumentView { type_tag: Some(tag), ..self }
    }

    /// The document with one more assertion.
    pub open spec fn with_assertion(self, predicate: Seq<char>, object: DocumentView) -> Self {
        DocumentView { assertions: self.assertions.push((predicate, object)), ..self }
    }

    /// The document with one more assertion if there is an object, and
    /// unchanged if there is none: an absent field leaves no trace.
    pub open spec fn with_optional_assertion(
        self,
        predicate: Seq<char>,
        object: Option<DocumentView>,
    ) -> Self {
        match object {
            Some(object) => self.with_assertion(predicate, object),
            None => self,
        }
    }

    /// The objects of `predicate`, in the order in which they stand.
    pub open spec fn objects(self, predicate: Seq<char>) -> Seq<DocumentView> {
        objects_in(self.assertions, predicate)
    }

    /// The object of a predicate that must occur exactly once.
    pub open spec fn object(self, predicate: Seq<char>) -> Result<DocumentView, DecodeFailure> {
        let found = self.objects(predicate);
        if found.len() == 0 {
            Err(DecodeFailure::MissingAssertion)
        } else if found.len() == 1 {
            Ok(found[0])
        } else {
            Err(DecodeFailure::AmbiguousAssertion)
        }
    }

    /// The object of a predicate that may occur once or not at all.
    pub open spec fn optional_object(self, predicate: Seq<char>) -> Result<
        Option<DocumentView>,
        DecodeFailure,
    > {
        let found = self.objects(predicate);
        if found.len() == 0 {
            Ok(None)
        } else if found.len() == 1 {
            Ok(Some(found[0]))
        } else {
            Err(DecodeFailure::AmbiguousAssertion)
        }
    }

    /// Whether the document is of the kind that `tag` names.
    pub open spec fn check_type(self, tag: Seq<char>) -> Result<(), DecodeFailure> {
        if self.type_tag == Some(tag) {
            Ok(())
        } else {
            Err(DecodeFailure::TypeMismatch)
        }
    }
}

/// An absent optional field leaves no trace, and a predicate that does
/// not occur is read as an absent field: adding no object changes
/// nothing, and a document without the predicate answers with no object,
/// neither with a default nor with a failure.
pub proof fn lemma_optional_absent(document: DocumentView, predicate: Seq<char>)
    ensures
        document.with_optional_assertion(predicate, None) == document,
        document.objects(predicate).len() == 0 ==> document.optional_object(predicate) == Ok::<
            Option<DocumentView>,
            DecodeFailure,
        >(None),
        document.objects(predicate).len() == 0 ==> document.with_optional_assertion(
            predicate,
            None,
        ).objects(predicate).len() == 0,
{
}

/// The contents of the documents that `found` refers to.
pub open spec fn documents_view(found: Seq<&Document>) -> Seq<DocumentView> {
    found.map_values(|document: &Document| document@)
}

impl Document {
    /// The content of a document, part by part.
    pub proof fn lemma_view(&self)
        ensures
            self@.subject == self.subject@,
            self@.type_tag == match self.type_tag {
                Some(tag) => Some(tag@),
                None => None,
            },
            self@.assertions.len() == self.assertions@.len(),
            forall|i: int|
                0 <= i < self.assertions@.len() ==> #[trigger] self@.assertions[i] == (
                    self.assertions@[i].predicate@,
                    self.assertions@[i].object@,
                ),
    {
        lemma_assertions_view(self.assertions@);
    }

    /// The document that holds `subject` and nothing else.
    pub fn new(subject: Leaf) -> (document: Self)
        ensures
            document@ == DocumentView::leaf(subject@),
    {
        let document = Document { subject, type_tag: None, assertions: Vec::new() };
        proof {
            document.lemma_view();
        }
        assert(document@.assertions =~= Seq::empty());
        document
    }

    /// Gives the document the type tag `tag`.
    pub fn add_type(self, tag: &str) -> (document: Self)
        ensures
            document@ == self@.with_type(tag@),
    {
        Document { subject: self.subject, type_tag: Some(tag.to_owned()), assertions: self.assertions }
    }

    /// Adds the assertion that `predicate` leads to `object`.
    pub fn add_assertion(self, predicate: &str, object: Document) -> (document: Self)
        ensures
            document@ == self@.with_assertion(predicate@, object@),
    {
        let ghost before = self;
        let ghost added = object;
        let mut assertions = self.assertions;
        assertions.push(Assertion { predicate: predicate.to_owned(), object });
        let document = Document { subject: self.subject, type_tag: self.type_tag, assertions };
        proof {
            before.lemma_view();
            document.lemma_view();
            assert(document@.assertions =~= before@.assertions.push((predicate@, added@)));
        }
        document
    }

    /// Adds the assertion that `predicate` leads to the object, if there
    /// is one. Without one the document stays as it is.
    pub fn add_optional_assertion(self, predicate: &str, object: Option<Document>) -> (document:
        Self)
        ensures
            document@ == self@.with_optional_assertion(
                predicate@,
                match object {
                    Some(object) => Some(object@),
                    None => None,
                },
            ),
    {
        match object {
            Some(object) => self.add_assertion(predicate, object),
            None => self,
        }
    }

    /// The subject.
    pub fn subject(&self) -> (subject: &Leaf)
        ensures
            subject@ == self@.subject,
    {
        &self.subject
    }

    /// Checks that the document is of the kind that `tag` names.
    pub fn check_type(&self, tag: &str) -> (outcome: Result<(), DecodeFailure>)
        ensures
            outcome == self@.check_type(tag@),
    {
        match &self.type_tag {
            Some(found) => {
                if same_text(found.as_str(), tag) {
                    Ok(())
                } else {
                    Err(DecodeFailure::TypeMismatch)
                }
            },
            None => Err(DecodeFailure::TypeMismatch),
        }
    }

    /// The objects of `predicate`, in the order in which they stand.
    pub fn objects_for_predicate(&self, predicate: &str) -> (found: Vec<&Document>)
        ensures
            documents_view(found@) == self@.objects(predicate@),
    {
        let mut found: Vec<&Document> = Vec::new();
        let n = self.assertions.len();
        let mut i: usize = 0;
        proof {
            self.lemma_view();
        }
        assert(self@.assertions.take(0) =~= Seq::empty());
        assert(documents_view(found@) =~= Seq::empty());
        while i < n
            invariant
                i <= n,
                n == self.assertions@.len(),
                n == self@.assertions.len(),
                forall|j: int|
                    0 <= j < n ==> #[trigger] self@.assertions[j] == (
                        self.assertions@[j].predicate@,
                        self.assertions@[j].object@,
                    ),
                documents_view(found@) == objects_in(self@.assertions.take(i as int), predicate@),
            decreases n - i,
        {
            let ghost before = documents_view(found@);
            let assertion = &self.assertions[i];
            assert(self@.assertions.take(i + 1) =~= self@.assertions.take(i as int).push(
                self@.assertions[i as int],
            ));
            proof {
                lemma_objects_push(
                    self@.assertions.take(i as int),
                    self@.assertions[i as int],
                    predicate@,
                );
            }
            if same_text(assertion.predicate.as_str(), predicate) {
                found.push(&assertion.object);
                assert(documents_view(found@) =~= before.push(assertion.object@));
            }
            i += 1;
        }
        assert(self@.assertions.take(n as int) =~= self@.assertions);
        found
    }

    /// The object of a predicate that must occur exactly once.
    pub fn object_for_predicate(&self, predicate: &str) -> (outcome: Result<
        &Document,
        DecodeFailure,
    >)
        ensures
            match outcome {
                Ok(object) => self@.object(predicate@) == Ok::<DocumentView, DecodeFailure>(object@),
                Err(failure) => self@.object(predicate@) == Err::<DocumentView, DecodeFailure>(
                    failure,
                ),
            },
    {
        let found = self.objects_for_predicate(predicate);
        if found.len() == 0 {
            Err(DecodeFailure::MissingAssertion)
        } else if found.len() == 1 {
            Ok(found[0])
        } else {
            Err(DecodeFailure::AmbiguousAssertion)
        }
    }

    /// The object of a predicate that may occur once or not at all.
    pub fn optional_object_for_predicate(&self, predicate: &str) -> (outcome: Result<
        Option<&Document>,
        DecodeFailure,
    >)
        ensures
            match outcome {
                Ok(Some(object)) => self@.optional_object(predicate@) == Ok::<
                    Option<DocumentView>,
                    DecodeFailure,
                >(Some(object@)),
                Ok(None) => self@.optional_object(predicate@) == Ok::<
                    Option<DocumentView>,
                    DecodeFailure,
                >(None),
                Err(failure) => self@.optional_object(predicate@) == Err::<
                    Option<DocumentView>,
                    DecodeFailure,
                >(failure),
            },
    {
        let found = self.objects_for_predicate(predicate);
        if found.len() == 0 {
            Ok(None)
        } else if found.len() == 1 {
            Ok(Some(found[0]))
        } else {
            Err(DecodeFailure::AmbiguousAssertion)
        }
    }
}

} // verus!
