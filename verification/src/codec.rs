//! The codec contract: how a value becomes a leaf or a document, how it is
//! read back, and the helpers that fetch the fields of an entity.

use crate::blob::Blob;
use crate::document::{
    at_field, failed_at, in_context, lemma_objects_push, DecodeError, DecodeErrorView,
    DecodeFailure, Document, DocumentView, Leaf, LeafView, Value, ValueView,
};
use vstd::prelude::*;

verus! {

/// A value that is written as a single leaf.
pub trait LeafCodec: Sized + View {
    /// The value keeps what its type promises.
    spec fn sound(&self) -> bool;

    /// Whether the value keeps what its type promises.
    fn is_sound(&self) -> (ok: bool)
        ensures
            ok == self.sound(),
    ;

    /// The leaf that writes `value`.
    spec fn leaf_of(value: Self::V) -> LeafView;

    /// The value that `leaf` writes, or why it writes none.
    spec fn of_leaf(leaf: LeafView) -> Result<Self::V, DecodeFailure>;

    /// Writes the value as a leaf.
    fn to_leaf(&self) -> (leaf: Leaf)
        requires
            self.sound(),
        ensures
            leaf@ == Self::leaf_of(self@),
    ;

    /// Reads a value from a leaf.
    fn from_leaf(leaf: &Leaf) -> (outcome: Result<Self, DecodeFailure>)
        ensures
            leaf_outcome(outcome) == Self::of_leaf(leaf@),
            outcome is Ok ==> outcome->Ok_0.sound(),
    ;

    /// Reading the leaf written for a value gives the value.
    proof fn lemma_leaf_round_trip(&self)
        requires
            self.sound(),
        ensures
            Self::of_leaf(Self::leaf_of(self@)) == Ok::<Self::V, DecodeFailure>(self@),
    ;
}

/// The content of the outcome of reading a leaf.
pub open spec fn leaf_outcome<T: View>(outcome: Result<T, DecodeFailure>) -> Result<
    T::V,
    DecodeFailure,
> {
    match outcome {
        Ok(value) => Ok(value@),
        Err(failure) => Err(failure),
    }
}

/// The content of the outcome of decoding a document.
pub open spec fn decode_outcome<T: View>(outcome: Result<T, DecodeError>) -> Result<
    T::V,
    DecodeErrorView,
> {
    match outcome {
        Ok(value) => Ok(value@),
        Err(error) => Err(error@),
    }
}

/// An entity that is written as a document of its own.
pub trait DocumentCodec: Sized + View {
    /// The value keeps what its type promises, so that it can be written
    /// and read back.
    spec fn sound(&self) -> bool;

    /// Whether the value keeps what its type promises.
    fn is_sound(&self) -> (ok: bool)
        ensures
            ok == self.sound(),
    ;

    /// The document that writes `value`.
    spec fn encoding(value: Self::V) -> DocumentView;

    /// The value that `document` writes, or why it writes none.
    spec fn decoding(document: DocumentView) -> Result<Self::V, DecodeErrorView>;

    /// Writes the entity as a document: the subject, the type tag, and
    /// one assertion for each field that is present.
    fn encode(&self) -> (document: Document)
        requires
            self.sound(),
        ensures
            document@ == Self::encoding(self@),
    ;

    /// Reads an entity from a document. The type tag is checked first;
    /// then each field is read, and the first that cannot be read fails
    /// the whole, so that no entity is ever half filled.
    fn decode(document: &Document) -> (outcome: Result<Self, DecodeError>)
        ensures
            decode_outcome(outcome) == Self::decoding(document@),
            outcome is Ok ==> outcome->Ok_0.sound(),
    ;

    /// Decoding the document written for a value gives the value.
    proof fn lemma_round_trip(&self)
        requires
            self.sound(),
        ensures
            Self::decoding(Self::encoding(self@)) == Ok::<Self::V, DecodeErrorView>(self@),
    ;
}

impl LeafCodec for u64 {
    open spec fn sound(&self) -> bool {
        true
    }

    fn is_sound(&self) -> (ok: bool) {
        true
    }

    open spec fn leaf_of(value: u64) -> LeafView {
        LeafView::One(ValueView::Unsigned(value))
    }

    open spec fn of_leaf(leaf: LeafView) -> Result<u64, DecodeFailure> {
        match leaf {
            LeafView::One(ValueView::Unsigned(n)) => Ok(n),
            _ => Err(DecodeFailure::SubjectCoercion),
        }
    }

    fn to_leaf(&self) -> (leaf: Leaf) {
        Leaf::One(Value::Unsigned(*self))
    }

    fn from_leaf(leaf: &Leaf) -> (outcome: Result<Self, DecodeFailure>) {
        match leaf {
            Leaf::One(Value::Unsigned(n)) => Ok(*n),
            _ => Err(DecodeFailure::SubjectCoercion),
        }
    }

    proof fn lemma_leaf_round_trip(&self) {
    }
}

impl LeafCodec for u32 {
    open spec fn sound(&self) -> bool {
        true
    }

    fn is_sound(&self) -> (ok: bool) {
        true
    }

    open spec fn leaf_of(value: u32) -> LeafView {
        LeafView::One(ValueView::Unsigned(value as u64))
    }

    open spec fn of_leaf(leaf: LeafView) -> Result<u32, DecodeFailure> {
        match leaf {
            LeafView::One(ValueView::Unsigned(n)) => if n <= u32::MAX {
                Ok(n as u32)
            } else {
                Err(DecodeFailure::OutOfRange)
            },
            _ => Err(DecodeFailure::SubjectCoercion),
        }
    }

    fn to_leaf(&self) -> (leaf: Leaf) {
        Leaf::One(Value::Unsigned(*self as u64))
    }

    fn from_leaf(leaf: &Leaf) -> (outcome: Result<Self, DecodeFailure>) {
        match leaf {
            Leaf::One(Value::Unsigned(n)) => {
                if *n <= u32::MAX as u64 {
                    Ok(*n as u32)
                } else {
                    Err(DecodeFailure::OutOfRange)
                }
            },
            _ => Err(DecodeFailure::SubjectCoercion),
        }
    }

    proof fn lemma_leaf_round_trip(&self) {
    }
}

impl LeafCodec for usize {
    open spec fn sound(&self) -> bool {
        true
    }

    fn is_sound(&self) -> (ok: bool) {
        true
    }

    open spec fn leaf_of(value: usize) -> LeafView {
        LeafView::One(ValueView::Unsigned(value as u64))
    }

    open spec fn of_leaf(leaf: LeafView) -> Result<usize, DecodeFailure> {
        match leaf {
            LeafView::One(ValueView::Unsigned(n)) => if n <= usize::MAX {
                Ok(n as usize)
            } else {
                Err(DecodeFailure::OutOfRange)
            },
            _ => Err(DecodeFailure::SubjectCoercion),
        }
    }

    fn to_leaf(&self) -> (leaf: Leaf) {
        Leaf::One(Value::Unsigned(*self as u64))
    }

    fn from_leaf(leaf: &Leaf) -> (outcome: Result<Self, DecodeFailure>) {
        match leaf {
            Leaf::One(Value::Unsigned(n)) => {
                if *n <= usize::MAX as u64 {
                    Ok(*n as usize)
                } else {
                    Err(DecodeFailure::OutOfRange)
                }
            },
            _ => Err(DecodeFailure::SubjectCoercion),
        }
    }

    proof fn lemma_leaf_round_trip(&self) {
    }
}

impl LeafCodec for String {
    open spec fn sound(&self) -> bool {
        true
    }

    fn is_sound(&self) -> (ok: bool) {
        true
    }

    open spec fn leaf_of(value: Seq<char>) -> LeafView {
        LeafView::One(ValueView::Text(value))
    }

    open spec fn of_leaf(leaf: LeafView) -> Result<Seq<char>, DecodeFailure> {
        match leaf {
            LeafView::One(ValueView::Text(text)) => Ok(text),
            _ => Err(DecodeFailure::SubjectCoercion),
        }
    }

    fn to_leaf(&self) -> (leaf: Leaf) {
        Leaf::One(Value::Text(self.clone()))
    }

    fn from_leaf(leaf: &Leaf) -> (outcome: Result<Self, DecodeFailure>) {
        match leaf {
            Leaf::One(Value::Text(text)) => Ok(text.clone()),
            _ => Err(DecodeFailure::SubjectCoercion),
        }
    }

    proof fn lemma_leaf_round_trip(&self) {
    }
}

impl LeafCodec for Vec<u8> {
    open spec fn sound(&self) -> bool {
        true
    }

    fn is_sound(&self) -> (ok: bool) {
        true
    }

    /// Bytes are written as a plain byte string.
    open spec fn leaf_of(value: Seq<u8>) -> LeafView {
        LeafView::One(ValueView::Bytes(value))
    }

    open spec fn of_leaf(leaf: LeafView) -> Result<Seq<u8>, DecodeFailure> {
        match leaf {
            LeafView::One(ValueView::Bytes(bytes)) => Ok(bytes),
            _ => Err(DecodeFailure::SubjectCoercion),
        }
    }

    fn to_leaf(&self) -> (leaf: Leaf) {
        Leaf::One(Value::Bytes(self.clone()))
    }

    fn from_leaf(leaf: &Leaf) -> (outcome: Result<Self, DecodeFailure>) {
        match leaf {
            Leaf::One(Value::Bytes(bytes)) => Ok(bytes.clone()),
            _ => Err(DecodeFailure::SubjectCoercion),
        }
    }

    proof fn lemma_leaf_round_trip(&self) {
    }
}

/// What reading `N` bytes from a byte string gives.
pub open spec fn sized_leaf(bytes: Seq<u8>, n: usize) -> Result<Seq<u8>, DecodeFailure> {
    if bytes.len() == n {
        Ok(bytes)
    } else {
        Err(DecodeFailure::LengthMismatch { expected: n, actual: bytes.len() as usize })
    }
}

impl<const N: usize> LeafCodec for Blob<N> {
    open spec fn sound(&self) -> bool {
        true
    }

    fn is_sound(&self) -> (ok: bool) {
        true
    }

    /// A fixed-width value is written as a plain byte string.
    open spec fn leaf_of(value: Seq<u8>) -> LeafView {
        LeafView::One(ValueView::Bytes(value))
    }

    open spec fn of_leaf(leaf: LeafView) -> Result<Seq<u8>, DecodeFailure> {
        match leaf {
            LeafView::One(ValueView::Bytes(bytes)) => sized_leaf(bytes, N),
            _ => Err(DecodeFailure::SubjectCoercion),
        }
    }

    fn to_leaf(&self) -> (leaf: Leaf) {
        Leaf::One(Value::Bytes(self.to_vec()))
    }

    fn from_leaf(leaf: &Leaf) -> (outcome: Result<Self, DecodeFailure>) {
        match leaf {
            Leaf::One(Value::Bytes(bytes)) => {
                let actual = bytes.len();
                match Blob::from_slice(bytes.as_slice()) {
                    Ok(blob) => Ok(blob),
                    Err(_) => Err(DecodeFailure::LengthMismatch { expected: N, actual }),
                }
            },
            _ => Err(DecodeFailure::SubjectCoercion),
        }
    }

    proof fn lemma_leaf_round_trip(&self) {
        self.lemma_len();
    }
}

/// The document that holds the leaf of a value and nothing else.
pub fn leaf_document<T: LeafCodec>(value: &T) -> (document: Document)
    requires
        value.sound(),
    ensures
        document@ == DocumentView::leaf(T::leaf_of(value@)),
{
    Document::new(value.to_leaf())
}

/// The subject of `document` read as a `T`, the field being `name`.
pub open spec fn subject_as<T: LeafCodec>(document: DocumentView, name: Seq<char>) -> Result<
    T::V,
    DecodeErrorView,
> {
    at_field(T::of_leaf(document.subject), name)
}

/// The object of the required predicate `predicate`, read as a `T`.
pub open spec fn leaf_object<T: LeafCodec>(document: DocumentView, predicate: Seq<char>) -> Result<
    T::V,
    DecodeErrorView,
> {
    match document.object(predicate) {
        Ok(object) => at_field(T::of_leaf(object.subject), predicate),
        Err(failure) => Err(failed_at(failure, predicate)),
    }
}

/// The object of the optional predicate `predicate`, read as a `T`.
pub open spec fn optional_leaf_object<T: LeafCodec>(
    document: DocumentView,
    predicate: Seq<char>,
) -> Result<Option<T::V>, DecodeErrorView> {
    match document.optional_object(predicate) {
        Ok(Some(object)) => match T::of_leaf(object.subject) {
            Ok(value) => Ok(Some(value)),
            Err(failure) => Err(failed_at(failure, predicate)),
        },
        Ok(None) => Ok(None),
        Err(failure) => Err(failed_at(failure, predicate)),
    }
}

/// The object of the required predicate `predicate`, decoded as a `T`.
pub open spec fn entity_object<T: DocumentCodec>(
    document: DocumentView,
    predicate: Seq<char>,
) -> Result<T::V, DecodeErrorView> {
    match document.object(predicate) {
        Ok(object) => in_context(T::decoding(object), predicate),
        Err(failure) => Err(failed_at(failure, predicate)),
    }
}

/// The object of the optional predicate `predicate`, decoded as a `T`.
pub open spec fn optional_entity_object<T: DocumentCodec>(
    document: DocumentView,
    predicate: Seq<char>,
) -> Result<Option<T::V>, DecodeErrorView> {
    match document.optional_object(predicate) {
        Ok(Some(object)) => match T::decoding(object) {
            Ok(value) => Ok(Some(value)),
            Err(e) => Err(DecodeErrorView { failure: e.failure, path: e.path.push(predicate) }),
        },
        Ok(None) => Ok(None),
        Err(failure) => Err(failed_at(failure, predicate)),
    }
}

/// The documents of `documents` decoded as `T`s, in order, or the failure
/// of the first that does not decode.
pub open spec fn decode_all<T: DocumentCodec>(documents: Seq<DocumentView>) -> Result<
    Seq<T::V>,
    DecodeErrorView,
>
    decreases documents.len(),
{
    if documents.len() == 0 {
        Ok(Seq::empty())
    } else {
        match decode_all::<T>(documents.drop_last()) {
            Ok(values) => match T::decoding(documents.last()) {
                Ok(value) => Ok(values.push(value)),
                Err(e) => Err(e),
            },
            Err(e) => Err(e),
        }
    }
}

/// All the objects of `predicate`, decoded as `T`s, in the order in which
/// they stand.
pub open spec fn entity_objects<T: DocumentCodec>(
    document: DocumentView,
    predicate: Seq<char>,
) -> Result<Seq<T::V>, DecodeErrorView> {
    in_context(decode_all::<T>(document.objects(predicate)), predicate)
}

/// The contents of a list of values.
pub open spec fn items_view<T: View>(items: Seq<T>) -> Seq<T::V> {
    items.map_values(|item: T| item@)
}

/// Reads the subject of `document` as a `T`; a failure names the field `name`.
pub fn extract_subject<T: LeafCodec>(document: &Document, name: &str) -> (outcome: Result<
    T,
    DecodeError,
>)
    ensures
        decode_outcome(outcome) == subject_as::<T>(document@, name@),
        outcome is Ok ==> outcome->Ok_0.sound(),
{
    match T::from_leaf(document.subject()) {
        Ok(value) => Ok(value),
        Err(failure) => Err(DecodeError::new(failure, name)),
    }
}

/// Reads the object of a predicate that must occur exactly once.
pub fn extract_object_for_predicate<T: LeafCodec>(document: &Document, predicate: &str) -> (outcome:
    Result<T, DecodeError>)
    ensures
        decode_outcome(outcome) == leaf_object::<T>(document@, predicate@),
        outcome is Ok ==> outcome->Ok_0.sound(),
{
    match document.object_for_predicate(predicate) {
        Ok(object) => match T::from_leaf(object.subject()) {
            Ok(value) => Ok(value),
            Err(failure) => Err(DecodeError::new(failure, predicate)),
        },
        Err(failure) => Err(DecodeError::new(failure, predicate)),
    }
}

/// Reads the object of a predicate that may occur once or not at all.
pub fn extract_optional_object_for_predicate<T: LeafCodec>(
    document: &Document,
    predicate: &str,
) -> (outcome: Result<Option<T>, DecodeError>)
    ensures
        match outcome {
            Ok(Some(value)) => value.sound() && optional_leaf_object::<T>(document@, predicate@)
                == Ok::<Option<T::V>, DecodeErrorView>(Some(value@)),
            Ok(None) => optional_leaf_object::<T>(document@, predicate@) == Ok::<
                Option<T::V>,
                DecodeErrorView,
            >(None),
            Err(e) => optional_leaf_object::<T>(document@, predicate@) == Err::<
                Option<T::V>,
                DecodeErrorView,
            >(e@),
        },
{
    match document.optional_object_for_predicate(predicate) {
        Ok(Some(object)) => match T::from_leaf(object.subject()) {
            Ok(value) => Ok(Some(value)),
            Err(failure) => Err(DecodeError::new(failure, predicate)),
        },
        Ok(None) => Ok(None),
        Err(failure) => Err(DecodeError::new(failure, predicate)),
    }
}

/// Decodes the object of a predicate that must occur exactly once.
pub fn try_object_for_predicate<T: DocumentCodec>(document: &Document, predicate: &str) -> (outcome:
    Result<T, DecodeError>)
    ensures
        decode_outcome(outcome) == entity_object::<T>(document@, predicate@),
        outcome is Ok ==> outcome->Ok_0.sound(),
{
    match document.object_for_predicate(predicate) {
        Ok(object) => match T::decode(object) {
            Ok(value) => Ok(value),
            Err(e) => Err(e.context(predicate)),
        },
        Err(failure) => Err(DecodeError::new(failure, predicate)),
    }
}

/// Decodes the object of a predicate that may occur once or not at all.
pub fn try_optional_object_for_predicate<T: DocumentCodec>(
    document: &Document,
    predicate: &str,
) -> (outcome: Result<Option<T>, DecodeError>)
    ensures
        match outcome {
            Ok(Some(value)) => value.sound() && optional_entity_object::<T>(document@, predicate@)
                == Ok::<Option<T::V>, DecodeErrorView>(Some(value@)),
            Ok(None) => optional_entity_object::<T>(document@, predicate@) == Ok::<
                Option<T::V>,
                DecodeErrorView,
            >(None),
            Err(e) => optional_entity_object::<T>(document@, predicate@) == Err::<
                Option<T::V>,
                DecodeErrorView,
            >(e@),
        },
{
    match document.optional_object_for_predicate(predicate) {
        Ok(Some(object)) => match T::decode(object) {
            Ok(value) => Ok(Some(value)),
            Err(e) => Err(e.context(predicate)),
        },
        Ok(None) => Ok(None),
        Err(failure) => Err(DecodeError::new(failure, predicate)),
    }
}

/// Decodes all the objects of a predicate, in the order in which they
/// stand. The first that does not decode fails the whole.
pub fn try_objects_for_predicate<T: DocumentCodec>(document: &Document, predicate: &str) -> (outcome:
    Result<Vec<T>, DecodeError>)
    ensures
        match outcome {
            Ok(items) => {
                &&& entity_objects::<T>(document@, predicate@) == Ok::<Seq<T::V>, DecodeErrorView>(
                    items_view(items@),
                )
                &&& forall|i: int| 0 <= i < items@.len() ==> (#[trigger] items@[i]).sound()
            },
            Err(e) => entity_objects::<T>(document@, predicate@) == Err::<
                Seq<T::V>,
                DecodeErrorView,
            >(e@),
        },
{
    let found = document.objects_for_predicate(predicate);
    let ghost documents = document@.objects(predicate@);
    let mut items: Vec<T> = Vec::new();
    let n = found.len();
    let mut i: usize = 0;
    assert(documents.take(0) =~= Seq::empty());
    assert(items_view(items@) =~= Seq::empty());
    while i < n
        invariant
            i <= n,
            n == found@.len(),
            documents == crate::document::documents_view(found@),
            documents == document@.objects(predicate@),
            decode_all::<T>(documents.take(i as int)) == Ok::<Seq<T::V>, DecodeErrorView>(
                items_view(items@),
            ),
            forall|j: int| 0 <= j < items@.len() ==> (#[trigger] items@[j]).sound(),
        decreases n - i,
    {
        let ghost before = items_view(items@);
        assert(documents.take(i + 1).drop_last() =~= documents.take(i as int));
        match T::decode(found[i]) {
            Ok(value) => {
                items.push(value);
                assert(items_view(items@) =~= before.push(value@));
            },
            Err(e) => {
                proof {
                    assert(documents.take(i + 1).last() == found@[i as int]@);
                    assert(decode_all::<T>(documents.take(i + 1)) == Err::<
                        Seq<T::V>,
                        DecodeErrorView,
                    >(e@));
                    lemma_decode_all_fails_on::<T>(documents, i as int);
                }
                return Err(e.context(predicate));
            },
        }
        i += 1;
    }
    assert(documents.take(n as int) =~= documents);
    Ok(items)
}

/// Once a prefix fails to decode, the whole fails in the same way.
pub proof fn lemma_decode_all_fails_on<T: DocumentCodec>(documents: Seq<DocumentView>, i: int)
    requires
        0 <= i < documents.len(),
        decode_all::<T>(documents.take(i + 1)) is Err,
    ensures
        decode_all::<T>(documents) == decode_all::<T>(documents.take(i + 1)),
    decreases documents.len() - i,
{
    if i + 1 < documents.len() {
        assert(documents.take(i + 2).drop_last() =~= documents.take(i + 1));
        lemma_decode_all_fails_on::<T>(documents, i + 1);
    } else {
        assert(documents.take(i + 1) =~= documents);
    }
}

/// Writes an entity as a document, if the entity is sound, and answers
/// nothing if it is not.
pub fn encode_checked<T: DocumentCodec>(value: &T) -> (outcome: Option<Document>)
    ensures
        match outcome {
            Some(document) => value.sound() && document@ == T::encoding(value@),
            None => !value.sound(),
        },
{
    if value.is_sound() {
        Some(value.encode())
    } else {
        None
    }
}

/// The documents that write `items`, in order.
pub open spec fn encodings<T: DocumentCodec>(items: Seq<T::V>) -> Seq<DocumentView> {
    items.map_values(|item: T::V| T::encoding(item))
}

/// `document` with one more assertion of `predicate` for each entry of
/// `items`, in order.
pub open spec fn with_entities<T: DocumentCodec>(
    document: DocumentView,
    predicate: Seq<char>,
    items: Seq<T::V>,
) -> DocumentView
    decreases items.len(),
{
    if items.len() == 0 {
        document
    } else {
        with_entities::<T>(document, predicate, items.drop_last()).with_assertion(
            predicate,
            T::encoding(items.last()),
        )
    }
}

/// Adding entities under a predicate changes neither subject nor type,
/// adds their documents, in order, to the objects of that predicate, and
/// leaves the objects of every other predicate alone.
pub proof fn lemma_with_entities<T: DocumentCodec>(
    document: DocumentView,
    predicate: Seq<char>,
    items: Seq<T::V>,
    other: Seq<char>,
)
    ensures
        with_entities::<T>(document, predicate, items).subject == document.subject,
        with_entities::<T>(document, predicate, items).type_tag == document.type_tag,
        with_entities::<T>(document, predicate, items).objects(predicate) == document.objects(
            predicate,
        ) + encodings::<T>(items),
        other != predicate ==> with_entities::<T>(document, predicate, items).objects(other)
            == document.objects(other),
    decreases items.len(),
{
    if items.len() == 0 {
        assert(document.objects(predicate) + encodings::<T>(items) =~= document.objects(predicate));
    } else {
        let before = with_entities::<T>(document, predicate, items.drop_last());
        lemma_with_entities::<T>(document, predicate, items.drop_last(), other);
        lemma_objects_push(before.assertions, (predicate, T::encoding(items.last())), predicate);
        lemma_objects_push(before.assertions, (predicate, T::encoding(items.last())), other);
        assert(encodings::<T>(items) =~= encodings::<T>(items.drop_last()).push(
            T::encoding(items.last()),
        ));
        assert((document.objects(predicate) + encodings::<T>(items.drop_last())).push(
            T::encoding(items.last()),
        ) =~= document.objects(predicate) + encodings::<T>(items));
    }
}

/// Decoding the documents written for sound entities gives the entities.
pub proof fn lemma_decode_all_round_trip<T: DocumentCodec>(items: Seq<T>)
    requires
        forall|i: int| 0 <= i < items.len() ==> (#[trigger] items[i]).sound(),
    ensures
        decode_all::<T>(encodings::<T>(items_view(items))) == Ok::<Seq<T::V>, DecodeErrorView>(
            items_view(items),
        ),
    decreases items.len(),
{
    let views = items_view(items);
    if items.len() == 0 {
        assert(views =~= Seq::empty());
    } else {
        assert(items.drop_last()[items.len() - 2] == items[items.len() - 2] || items.len() == 1);
        assert forall|i: int| 0 <= i < items.drop_last().len() implies (
        #[trigger] items.drop_last()[i]).sound() by {
            assert(items[i].sound());
        }
        lemma_decode_all_round_trip::<T>(items.drop_last());
        items.last().lemma_round_trip();
        assert(encodings::<T>(views).drop_last() =~= encodings::<T>(
            items_view(items.drop_last()),
        ));
        assert(views =~= items_view(items.drop_last()).push(items.last()@));
    }
}

/// Adds one assertion of `predicate` for each entity of `items`, in order.
pub fn add_assertions<T: DocumentCodec>(document: Document, predicate: &str, items: &Vec<T>) -> (out:
    Document)
    requires
        forall|i: int| 0 <= i < items@.len() ==> (#[trigger] items@[i]).sound(),
    ensures
        out@ == with_entities::<T>(document@, predicate@, items_view(items@)),
{
    let ghost start = document@;
    let mut out = document;
    let n = items.len();
    let mut i: usize = 0;
    assert(items_view(items@).take(0) =~= Seq::empty());
    while i < n
        invariant
            i <= n,
            n == items@.len(),
            forall|j: int| 0 <= j < items@.len() ==> (#[trigger] items@[j]).sound(),
            out@ == with_entities::<T>(start, predicate@, items_view(items@).take(i as int)),
        decreases n - i,
    {
        assert(items_view(items@).take(i + 1).drop_last() =~= items_view(items@).take(i as int));
        out = out.add_assertion(predicate, items[i].encode());
        i += 1;
    }
    assert(items_view(items@).take(n as int) =~= items_view(items@));
    out
}

} // verus!
