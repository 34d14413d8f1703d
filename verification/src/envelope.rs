//! Documents as Gordian envelopes of the `bc_envelope` crate, in both
//! directions.

use crate::codec::{encode_checked, DocumentCodec};
use crate::document::{
    DecodeError, DecodeErrorView, Document, DocumentView, Leaf, ValueView,
};
use crate::wire::{cbor_parts, cbor_shape, leaf_cbor, leaf_of_cbor, CborParts, CborShape};
use vstd::prelude::*;

verus! {

/// An envelope of the `bc_envelope` crate: `bc_envelope::Envelope`, of
/// which nothing is known here but what the functions below say.
#[verifier::external_type_specification]
#[verifier::external_body]
pub struct ExEnvelope(bc_envelope::Envelope);

/// The envelope that `bc_envelope` makes of a CBOR value.
pub uninterp spec fn leaf_envelope(cbor: dcbor::CBOR) -> bc_envelope::Envelope;

/// The envelope that `bc_envelope` makes of an envelope by giving it a
/// type.
pub uninterp spec fn typed_envelope(
    envelope: bc_envelope::Envelope,
    tag: Seq<char>,
) -> bc_envelope::Envelope;

/// The envelope that `bc_envelope` makes of an envelope by adding an
/// assertion.
pub uninterp spec fn asserted_envelope(
    envelope: bc_envelope::Envelope,
    predicate: Seq<char>,
    object: bc_envelope::Envelope,
) -> bc_envelope::Envelope;

/// The subject of an envelope.
pub uninterp spec fn subject_of(envelope: bc_envelope::Envelope) -> bc_envelope::Envelope;

/// The assertions of an envelope, in the order in which it keeps them.
pub uninterp spec fn assertions_of(envelope: bc_envelope::Envelope) -> Seq<bc_envelope::Envelope>;

/// The predicate of an envelope that is an assertion.
pub uninterp spec fn predicate_of(assertion: bc_envelope::Envelope) -> Option<
    bc_envelope::Envelope,
>;

/// The object of an envelope that is an assertion.
pub uninterp spec fn object_of(assertion: bc_envelope::Envelope) -> Option<bc_envelope::Envelope>;

/// The CBOR value of an envelope that is a leaf.
pub uninterp spec fn leaf_of(envelope: bc_envelope::Envelope) -> Option<dcbor::CBOR>;

/// The number of the known value that an envelope is, if it is one.
pub uninterp spec fn known_value_of(envelope: bc_envelope::Envelope) -> Option<u64>;

/// The number of the known value `isA`, under which an envelope gives
/// its type.
pub const IS_A: u64 = 1;

/// Whether an envelope is the known value that marks a type.
pub open spec fn is_type_mark(envelope: bc_envelope::Envelope) -> bool {
    known_value_of(envelope) == Some(IS_A)
}

/// Calls `bc_envelope::Envelope::new` on a CBOR value.
///
/// Trusted: the envelope made depends on the value alone.
#[verifier::external_body]
fn new_leaf(cbor: dcbor::CBOR) -> (envelope: bc_envelope::Envelope)
    ensures
        envelope == leaf_envelope(cbor),
{
    bc_envelope::Envelope::new(cbor)
}

/// Calls `bc_envelope::Envelope::add_type` with a text.
///
/// Trusted: the envelope made depends on the envelope and the text alone.
#[verifier::external_body]
fn add_type(envelope: bc_envelope::Envelope, tag: &str) -> (typed: bc_envelope::Envelope)
    ensures
        typed == typed_envelope(envelope, tag@),
{
    envelope.add_type(tag)
}

/// Calls `bc_envelope::Envelope::add_assertion` with a text as predicate
/// and an envelope as object.
///
/// Trusted: the envelope made depends on the three alone.
#[verifier::external_body]
fn add_assertion(
    envelope: bc_envelope::Envelope,
    predicate: &str,
    object: bc_envelope::Envelope,
) -> (asserted: bc_envelope::Envelope)
    ensures
        asserted == asserted_envelope(envelope, predicate@, object),
{
    envelope.add_assertion(predicate, object)
}

/// Calls `bc_envelope::Envelope::subject`.
///
/// Trusted: the subject depends on the envelope alone.
#[verifier::external_body]
fn subject(envelope: &bc_envelope::Envelope) -> (subject: bc_envelope::Envelope)
    ensures
        subject == subject_of(*envelope),
{
    envelope.subject()
}

/// Calls `bc_envelope::Envelope::assertions`.
///
/// Trusted: the assertions, and their order, depend on the envelope
/// alone.
#[verifier::external_body]
fn assertions(envelope: &bc_envelope::Envelope) -> (assertions: Vec<bc_envelope::Envelope>)
    ensures
        assertions@ == assertions_of(*envelope),
{
    envelope.assertions()
}

/// Calls `bc_envelope::Envelope::as_predicate`.
///
/// Trusted: the predicate, or its absence, depends on the envelope alone.
#[verifier::external_body]
fn as_predicate(assertion: &bc_envelope::Envelope) -> (predicate: Option<bc_envelope::Envelope>)
    ensures
        predicate == predicate_of(*assertion),
{
    assertion.as_predicate()
}

/// Calls `bc_envelope::Envelope::as_object`.
///
/// Trusted: the object, or its absence, depends on the envelope alone.
#[verifier::external_body]
fn as_object(assertion: &bc_envelope::Envelope) -> (object: Option<bc_envelope::Envelope>)
    ensures
        object == object_of(*assertion),
{
    assertion.as_object()
}

/// Calls `bc_envelope::Envelope::as_leaf`.
///
/// Trusted: the CBOR value, or its absence, depends on the envelope
/// alone.
#[verifier::external_body]
fn as_leaf(envelope: &bc_envelope::Envelope) -> (cbor: Option<dcbor::CBOR>)
    ensures
        cbor == leaf_of(*envelope),
{
    envelope.as_leaf()
}

/// Calls `bc_envelope::Envelope::as_known_value` and takes the number of
/// the known value.
///
/// Trusted: the number, or its absence, depends on the envelope alone.
#[verifier::external_body]
fn known_value_number(envelope: &bc_envelope::Envelope) -> (number: Option<u64>)
    ensures
        number == known_value_of(*envelope),
{
    match envelope.as_known_value() {
        Some(value) => Some(value.value()),
        None => None,
    }
}

/// Whether an envelope is the known value that marks a type.
fn is_type_predicate(envelope: &bc_envelope::Envelope) -> (marks: bool)
    ensures
        marks == is_type_mark(*envelope),
{
    match known_value_number(envelope) {
        Some(number) => number == IS_A,
        None => false,
    }
}

/// The envelope that is made of `envelope` by adding the assertions of
/// `assertions`, in order.
pub open spec fn with_assertions(
    envelope: bc_envelope::Envelope,
    assertions: Seq<(Seq<char>, DocumentView)>,
) -> bc_envelope::Envelope
    decreases assertions,
{
    if assertions.len() == 0 {
        envelope
    } else {
        asserted_envelope(
            with_assertions(envelope, assertions.drop_last()),
            assertions.last().0,
            envelope_of(assertions.last().1),
        )
    }
}

/// The envelope that is made of a document: a leaf for the subject, the
/// type tag added as a type, and then each assertion added under its
/// predicate name, in the order in which the document holds them.
pub open spec fn envelope_of(document: DocumentView) -> bc_envelope::Envelope
    decreases document,
{
    let base = leaf_envelope(leaf_cbor(document.subject));
    let typed = match document.type_tag {
        Some(tag) => typed_envelope(base, tag),
        None => base,
    };
    with_assertions(typed, document.assertions)
}

/// Why an envelope holds no document.
#[derive(Debug, Clone, Copy, PartialEq, Eq)]
pub enum EnvelopeError {
    /// The envelope is nested more deeply than was allowed for.
    TooDeep,
    /// The subject is no leaf, or a leaf of a kind that documents do not
    /// hold.
    SubjectNotLeaf,
    /// One of the assertions is none.
    NotAssertion,
    /// A predicate is neither a text nor the mark of a type.
    PredicateNotText,
    /// A type is no text.
    TypeNotText,
    /// There is more than one type.
    SeveralTypes,
}

/// The text that an envelope holds, if it is a leaf that holds a text.
pub open spec fn text_of(envelope: bc_envelope::Envelope) -> Option<Seq<char>> {
    match leaf_of(envelope) {
        Some(cbor) => match cbor_shape(cbor) {
            CborShape::One(ValueView::Text(text)) => Some(text),
            _ => None,
        },
        None => None,
    }
}

/// The document with what one assertion of an envelope adds to it, where
/// `object` is what the object of the assertion holds.
pub open spec fn with_read_assertion(
    document: DocumentView,
    assertion: bc_envelope::Envelope,
    object: Result<DocumentView, EnvelopeError>,
) -> Result<DocumentView, EnvelopeError> {
    match (predicate_of(assertion), object_of(assertion)) {
        (Some(predicate), Some(target)) => {
            if is_type_mark(predicate) {
                match text_of(target) {
                    None => Err(EnvelopeError::TypeNotText),
                    Some(tag) => if document.type_tag is Some {
                        Err(EnvelopeError::SeveralTypes)
                    } else {
                        Ok(document.with_type(tag))
                    },
                }
            } else {
                match text_of(predicate) {
                    None => Err(EnvelopeError::PredicateNotText),
                    Some(name) => match object {
                        Ok(object) => Ok(document.with_assertion(name, object)),
                        Err(e) => Err(e),
                    },
                }
            }
        },
        _ => Err(EnvelopeError::NotAssertion),
    }
}

/// The document `start` with what the assertions of an envelope add to
/// it, read in the order in which the envelope keeps them; the first that
/// cannot be read fails the whole.
pub open spec fn with_read_assertions(
    start: DocumentView,
    assertions: Seq<bc_envelope::Envelope>,
    fuel: nat,
) -> Result<DocumentView, EnvelopeError>
    decreases fuel, assertions.len(),
{
    if assertions.len() == 0 {
        Ok(start)
    } else {
        match with_read_assertions(start, assertions.drop_last(), fuel) {
            Err(e) => Err(e),
            Ok(document) => with_read_assertion(
                document,
                assertions.last(),
                match object_of(assertions.last()) {
                    Some(target) => document_of(target, fuel),
                    None => Err(EnvelopeError::NotAssertion),
                },
            ),
        }
    }
}

/// The document that an envelope holds, followed to `fuel` levels of
/// nesting: its subject must be a leaf, and each of its assertions either
/// gives the type or leads, under a text, to an envelope that holds a
/// document again.
pub open spec fn document_of(envelope: bc_envelope::Envelope, fuel: nat) -> Result<
    DocumentView,
    EnvelopeError,
>
    decreases fuel, 0nat,
{
    if fuel == 0 {
        Err(EnvelopeError::TooDeep)
    } else {
        match leaf_of(subject_of(envelope)) {
            None => Err(EnvelopeError::SubjectNotLeaf),
            Some(cbor) => match leaf_of_cbor(cbor) {
                None => Err(EnvelopeError::SubjectNotLeaf),
                Some(subject) => with_read_assertions(
                    DocumentView::leaf(subject),
                    assertions_of(envelope),
                    (fuel - 1) as nat,
                ),
            },
        }
    }
}

/// Once the assertions up to one cannot be read, the whole cannot.
pub proof fn lemma_read_assertions_fail(
    start: DocumentView,
    assertions: Seq<bc_envelope::Envelope>,
    fuel: nat,
    i: int,
)
    requires
        0 <= i < assertions.len(),
        with_read_assertions(start, assertions.take(i + 1), fuel) is Err,
    ensures
        with_read_assertions(start, assertions, fuel) == with_read_assertions(
            start,
            assertions.take(i + 1),
            fuel,
        ),
    decreases assertions.len() - i,
{
    if i + 1 < assertions.len() {
        assert(assertions.take(i + 2).drop_last() =~= assertions.take(i + 1));
        lemma_read_assertions_fail(start, assertions, fuel, i + 1);
    } else {
        assert(assertions.take(i + 1) =~= assertions);
    }
}

/// The text that an envelope holds, if it is a leaf that holds a text.
fn envelope_text(envelope: &bc_envelope::Envelope) -> (text: Option<String>)
    ensures
        match text {
            Some(text) => text_of(*envelope) == Some(text@),
            None => text_of(*envelope) is None,
        },
{
    match as_leaf(envelope) {
        Some(cbor) => match cbor_parts(&cbor) {
            CborParts::One(crate::document::Value::Text(text)) => Some(text),
            _ => None,
        },
        None => None,
    }
}

/// The content of the outcome of reading an envelope.
pub open spec fn read_outcome(outcome: Result<Document, EnvelopeError>) -> Result<
    DocumentView,
    EnvelopeError,
> {
    match outcome {
        Ok(document) => Ok(document@),
        Err(e) => Err(e),
    }
}

/// Makes the envelope of a document: a leaf for the subject, the type
/// tag added as a type, and each assertion added under its predicate
/// name, in the order in which the document holds them.
pub fn document_to_envelope(document: &Document) -> (envelope: bc_envelope::Envelope)
    ensures
        envelope == envelope_of(document@),
    decreases document,
{
    proof {
        document.lemma_view();
    }
    let mut envelope = new_leaf(document.subject.to_cbor());
    match &document.type_tag {
        Some(tag) => {
            envelope = add_type(envelope, tag.as_str());
        },
        None => {},
    }
    let ghost typed = envelope;
    let n = document.assertions.len();
    let mut i: usize = 0;
    assert(document@.assertions.take(0) =~= Seq::empty());
    while i < n
        invariant
            i <= n,
            n == document.assertions@.len(),
            n == document@.assertions.len(),
            forall|j: int|
                0 <= j < n ==> #[trigger] document@.assertions[j] == (
                    document.assertions@[j].predicate@,
                    document.assertions@[j].object@,
                ),
            envelope == with_assertions(typed, document@.assertions.take(i as int)),
        decreases n - i,
    {
        let assertion = &document.assertions[i];
        assert(document@.assertions.take(i + 1).drop_last() =~= document@.assertions.take(
            i as int,
        ));
        let object = document_to_envelope(&assertion.object);
        envelope = add_assertion(envelope, assertion.predicate.as_str(), object);
        i += 1;
    }
    assert(document@.assertions.take(n as int) =~= document@.assertions);
    envelope
}

/// Reads the document that an envelope holds, following nested envelopes
/// to at most `fuel` levels.
pub fn document_from_envelope(envelope: &bc_envelope::Envelope, fuel: usize) -> (outcome: Result<
    Document,
    EnvelopeError,
>)
    ensures
        read_outcome(outcome) == document_of(*envelope, fuel as nat),
    decreases fuel,
{
    if fuel == 0 {
        return Err(EnvelopeError::TooDeep);
    }
    let subject = match as_leaf(&subject(envelope)) {
        None => {
            return Err(EnvelopeError::SubjectNotLeaf);
        },
        Some(cbor) => match Leaf::from_cbor(&cbor) {
            None => {
                return Err(EnvelopeError::SubjectNotLeaf);
            },
            Some(subject) => subject,
        },
    };
    let mut document = Document::new(subject);
    let ghost start = document@;
    let found = assertions(envelope);
    let n = found.len();
    let mut i: usize = 0;
    assert(found@.take(0) =~= Seq::empty());
    while i < n
        invariant
            i <= n,
            n == found@.len(),
            fuel > 0,
            found@ == assertions_of(*envelope),
            document_of(*envelope, fuel as nat) == with_read_assertions(
                start,
                found@,
                (fuel - 1) as nat,
            ),
            with_read_assertions(start, found@.take(i as int), (fuel - 1) as nat) == Ok::<
                DocumentView,
                EnvelopeError,
            >(document@),
        decreases n - i,
    {
        let assertion = &found[i];
        assert(found@.take(i + 1).drop_last() =~= found@.take(i as int));
        assert(found@.take(i + 1).last() == *assertion);
        let ghost step = with_read_assertions(start, found@.take(i + 1), (fuel - 1) as nat);
        let (predicate, target) = match (as_predicate(assertion), as_object(assertion)) {
            (Some(predicate), Some(target)) => (predicate, target),
            _ => {
                proof {
                    lemma_read_assertions_fail(start, found@, (fuel - 1) as nat, i as int);
                }
                return Err(EnvelopeError::NotAssertion);
            },
        };
        if is_type_predicate(&predicate) {
            match envelope_text(&target) {
                None => {
                    proof {
                        lemma_read_assertions_fail(start, found@, (fuel - 1) as nat, i as int);
                    }
                    return Err(EnvelopeError::TypeNotText);
                },
                Some(tag) => {
                    if document.type_tag.is_some() {
                        proof {
                            document.lemma_view();
                            lemma_read_assertions_fail(start, found@, (fuel - 1) as nat, i as int);
                        }
                        return Err(EnvelopeError::SeveralTypes);
                    }
                    proof {
                        document.lemma_view();
                    }
                    document = document.add_type(tag.as_str());
                },
            }
        } else {
            match envelope_text(&predicate) {
                None => {
                    proof {
                        lemma_read_assertions_fail(start, found@, (fuel - 1) as nat, i as int);
                    }
                    return Err(EnvelopeError::PredicateNotText);
                },
                Some(name) => match document_from_envelope(&target, fuel - 1) {
                    Err(e) => {
                        proof {
                            lemma_read_assertions_fail(start, found@, (fuel - 1) as nat, i as int);
                        }
                        return Err(e);
                    },
                    Ok(object) => {
                        document = document.add_assertion(name.as_str(), object);
                    },
                },
            }
        }
        i += 1;
    }
    assert(found@.take(n as int) =~= found@);
    Ok(document)
}

/// How deeply nested an envelope may be to be read as an entity.
pub const MAX_NESTING: usize = 64;

/// Why an envelope could not be read as an entity.
#[derive(Debug, Clone, PartialEq, Eq)]
pub enum EnvelopeDecodeError {
    /// The envelope holds no document.
    Shape(EnvelopeError),
    /// The document that the envelope holds is not one of the entity.
    Decode(DecodeError),
}

/// Writes an entity as an envelope, if the entity is sound, and answers
/// nothing if it is not.
pub fn to_envelope<T: DocumentCodec>(value: &T) -> (outcome: Option<bc_envelope::Envelope>)
    ensures
        match outcome {
            Some(envelope) => value.sound() && envelope == envelope_of(T::encoding(value@)),
            None => !value.sound(),
        },
{
    match encode_checked(value) {
        Some(document) => Some(document_to_envelope(&document)),
        None => None,
    }
}

/// What reading an entity from an envelope gives: the envelope must hold
/// a document, and the document must decode.
pub open spec fn entity_of<T: DocumentCodec>(envelope: bc_envelope::Envelope) -> Result<
    T::V,
    Result<DecodeErrorView, EnvelopeError>,
> {
    match document_of(envelope, MAX_NESTING as nat) {
        Err(e) => Err(Err(e)),
        Ok(document) => match T::decoding(document) {
            Ok(value) => Ok(value),
            Err(e) => Err(Ok(e)),
        },
    }
}

/// Reads an entity from an envelope.
pub fn from_envelope<T: DocumentCodec>(envelope: &bc_envelope::Envelope) -> (outcome: Result<
    T,
    EnvelopeDecodeError,
>)
    ensures
        match outcome {
            Ok(value) => value.sound() && entity_of::<T>(*envelope) == Ok::<
                T::V,
                Result<DecodeErrorView, EnvelopeError>,
            >(value@),
            Err(EnvelopeDecodeError::Shape(e)) => entity_of::<T>(*envelope) == Err::<
                T::V,
                Result<DecodeErrorView, EnvelopeError>,
            >(Err(e)),
            Err(EnvelopeDecodeError::Decode(e)) => entity_of::<T>(*envelope) == Err::<
                T::V,
                Result<DecodeErrorView, EnvelopeError>,
            >(Ok(e@)),
        },
{
    match document_from_envelope(envelope, MAX_NESTING) {
        Err(e) => Err(EnvelopeDecodeError::Shape(e)),
        Ok(document) => match T::decode(&document) {
            Ok(value) => Ok(value),
            Err(e) => Err(EnvelopeDecodeError::Decode(e)),
        },
    }
}

} // verus!
