//! The plaintext of a Sapling note that the wallet sent.

use crate::amount::Amount;
use crate::blob::{u256, Blob};
use crate::codec::{
    extract_object_for_predicate, extract_subject, leaf_document, leaf_object,
    subject_as, DocumentCodec, LeafCodec,
};
use crate::document::{
    failed_at, lemma_objects_push, DecodeError, DecodeErrorView, Document,
    DocumentView,
};
use crate::indexed::Indexed;
use vstd::prelude::*;

verus! {

/// What a wallet keeps of a Sapling note it has sent: the parts of the note
/// that cannot be recovered from the chain.
#[derive(Debug, Clone, Copy, PartialEq, Eq)]
pub struct SaplingSentOutput {
    index: usize,
    diversifier: Blob<11>,
    receipient_public_key: u256,
    value: Amount,
    rcm: u256,
}

/// The mathematical content of a `SaplingSentOutput`.
pub ghost struct SaplingSentOutputView {
    /// The position of the output in its transaction.
    pub index: usize,
    /// The 11 bytes that diversify the recipient's address.
    pub diversifier: Seq<u8>,
    /// The 32 bytes of the recipient's public key.
    pub receipient_public_key: Seq<u8>,
    /// The amount sent, in the smallest unit.
    pub value: int,
    /// The 32 bytes of the note's commitment randomness.
    pub rcm: Seq<u8>,
}

impl View for SaplingSentOutput {
    type V = SaplingSentOutputView;

    closed spec fn view(&self) -> SaplingSentOutputView {
        SaplingSentOutputView {
            index: self.index,
            diversifier: self.diversifier@,
            receipient_public_key: self.receipient_public_key@,
            value: self.value@,
            rcm: self.rcm@,
        }
    }
}

impl Indexed for SaplingSentOutput {
    open spec fn index_of(value: SaplingSentOutputView) -> usize {
        value.index
    }

    open spec fn with_index(value: SaplingSentOutputView, index: usize) -> SaplingSentOutputView {
        SaplingSentOutputView { index, ..value }
    }

    fn index(&self) -> (index: usize) {
        self.index
    }

    fn set_index(&mut self, index: usize) {
        self.index = index;
    }

    proof fn lemma_with_index(value: SaplingSentOutputView, index: usize) {
    }
}

/// The document that writes a sent output: the index as subject, the type
/// tag, and one assertion for each of the four parts of the note.
pub open spec fn sent_output_encoding(value: SaplingSentOutputView) -> DocumentView {
    DocumentView::leaf(usize::leaf_of(value.index)).with_type("SaplingSentOutput"@).with_assertion(
        "diversifier"@,
        DocumentView::leaf(Blob::<11>::leaf_of(value.diversifier)),
    ).with_assertion(
        "receipient_public_key"@,
        DocumentView::leaf(Blob::<32>::leaf_of(value.receipient_public_key)),
    ).with_assertion("value"@, DocumentView::leaf(Amount::leaf_of(value.value))).with_assertion(
        "rcm"@,
        DocumentView::leaf(Blob::<32>::leaf_of(value.rcm)),
    )
}

/// The sent output that a document writes: the type tag is checked first,
/// then the subject and the four parts are read in the order in which
/// they are written, and the first that cannot be read fails the whole.
pub open spec fn sent_output_decoding(document: DocumentView) -> Result<
    SaplingSentOutputView,
    DecodeErrorView,
> {
    match document.check_type("SaplingSentOutput"@) {
        Err(failure) => Err(failed_at(failure, "SaplingSentOutput"@)),
        Ok(_) => match subject_as::<usize>(document, "index"@) {
            Err(e) => Err(e),
            Ok(index) => match leaf_object::<Blob<11>>(document, "diversifier"@) {
                Err(e) => Err(e),
                Ok(diversifier) => match leaf_object::<Blob<32>>(
                    document,
                    "receipient_public_key"@,
                ) {
                    Err(e) => Err(e),
                    Ok(receipient_public_key) => match leaf_object::<Amount>(document, "value"@) {
                        Err(e) => Err(e),
                        Ok(value) => match leaf_object::<Blob<32>>(document, "rcm"@) {
                            Err(e) => Err(e),
                            Ok(rcm) => Ok(
                                SaplingSentOutputView {
                                    index,
                                    diversifier,
                                    receipient_public_key,
                                    value,
                                    rcm,
                                },
                            ),
                        },
                    },
                },
            },
        },
    }
}

impl SaplingSentOutput {
    /// A sent output whose parts are all zero.
    pub fn new() -> (output: Self)
        ensures
            output.sound(),
            output@ == (SaplingSentOutputView {
                index: 0,
                diversifier: Seq::new(11, |i: int| 0u8),
                receipient_public_key: Seq::new(32, |i: int| 0u8),
                value: 0,
                rcm: Seq::new(32, |i: int| 0u8),
            }),
    {
        SaplingSentOutput {
            index: 0,
            diversifier: Blob::default(),
            receipient_public_key: Blob::default(),
            value: Amount::zero(),
            rcm: Blob::default(),
        }
    }

    /// The diversifier of the recipient's address.
    pub fn diversifier(&self) -> (diversifier: &Blob<11>)
        ensures
            diversifier@ == self@.diversifier,
    {
        &self.diversifier
    }

    /// Sets the diversifier of the recipient's address.
    pub fn set_diversifier(&mut self, diversifier: Blob<11>)
        ensures
            final(self)@ == (SaplingSentOutputView { diversifier: diversifier@, ..old(self)@ }),
            final(self).sound() == old(self).sound(),
    {
        self.diversifier = diversifier;
    }

    /// The recipient's public key.
    pub fn receipient_public_key(&self) -> (key: &u256)
        ensures
            key@ == self@.receipient_public_key,
    {
        &self.receipient_public_key
    }

    /// Sets the recipient's public key.
    pub fn set_receipient_public_key(&mut self, key: u256)
        ensures
            final(self)@ == (SaplingSentOutputView { receipient_public_key: key@, ..old(self)@ }),
            final(self).sound() == old(self).sound(),
    {
        self.receipient_public_key = key;
    }

    /// The amount sent.
    pub fn value(&self) -> (value: Amount)
        ensures
            value@ == self@.value,
            value.wf() == self.sound(),
    {
        self.value
    }

    /// Sets the amount sent.
    pub fn set_value(&mut self, value: Amount)
        ensures
            final(self)@ == (SaplingSentOutputView { value: value@, ..old(self)@ }),
            final(self).sound() == value.wf(),
    {
        self.value = value;
    }

    /// The commitment randomness of the note.
    pub fn rcm(&self) -> (rcm: &u256)
        ensures
            rcm@ == self@.rcm,
    {
        &self.rcm
    }

    /// Sets the commitment randomness of the note.
    pub fn set_rcm(&mut self, rcm: u256)
        ensures
            final(self)@ == (SaplingSentOutputView { rcm: rcm@, ..old(self)@ }),
            final(self).sound() == old(self).sound(),
    {
        self.rcm = rcm;
    }
}

impl Default for SaplingSentOutput {
    /// The same as `new`.
    fn default() -> (output: Self)
        ensures
            output.sound(),
            output@ == (SaplingSentOutputView {
                index: 0,
                diversifier: Seq::new(11, |i: int| 0u8),
                receipient_public_key: Seq::new(32, |i: int| 0u8),
                value: 0,
                rcm: Seq::new(32, |i: int| 0u8),
            }),
    {
        SaplingSentOutput::new()
    }
}

impl DocumentCodec for SaplingSentOutput {
    /// The amount lies in the range of money.
    closed spec fn sound(&self) -> bool {
        self.value.wf()
    }

    fn is_sound(&self) -> (ok: bool) {
        self.value.is_sound()
    }

    open spec fn encoding(value: SaplingSentOutputView) -> DocumentView {
        sent_output_encoding(value)
    }

    open spec fn decoding(document: DocumentView) -> Result<
        SaplingSentOutputView,
        DecodeErrorView,
    > {
        sent_output_decoding(document)
    }

    fn encode(&self) -> (document: Document) {
        Document::new(self.index.to_leaf()).add_type("SaplingSentOutput").add_assertion(
            "diversifier",
            leaf_document(&self.diversifier),
        ).add_assertion(
            "receipient_public_key",
            leaf_document(&self.receipient_public_key),
        ).add_assertion("value", leaf_document(&self.value)).add_assertion(
            "rcm",
            leaf_document(&self.rcm),
        )
    }

    fn decode(document: &Document) -> (outcome: Result<Self, DecodeError>) {
        match document.check_type("SaplingSentOutput") {
            Err(failure) => {
                return Err(DecodeError::new(failure, "SaplingSentOutput"));
            },
            Ok(_) => {},
        }
        let index = match extract_subject::<usize>(document, "index") {
            Err(e) => {
                return Err(e);
            },
            Ok(index) => index,
        };
        let diversifier = match extract_object_for_predicate::<Blob<11>>(document, "diversifier") {
            Err(e) => {
                return Err(e);
            },
            Ok(diversifier) => diversifier,
        };
        let receipient_public_key = match extract_object_for_predicate::<Blob<32>>(
            document,
            "receipient_public_key",
        ) {
            Err(e) => {
                return Err(e);
            },
            Ok(key) => key,
        };
        let value = match extract_object_for_predicate::<Amount>(document, "value") {
            Err(e) => {
                return Err(e);
            },
            Ok(value) => value,
        };
        let rcm = match extract_object_for_predicate::<Blob<32>>(document, "rcm") {
            Err(e) => {
                return Err(e);
            },
            Ok(rcm) => rcm,
        };
        Ok(SaplingSentOutput { index, diversifier, receipient_public_key, value, rcm })
    }

    proof fn lemma_round_trip(&self) {
        broadcast use lemma_objects_push;

        reveal_strlit("diversifier");
        reveal_strlit("receipient_public_key");
        reveal_strlit("value");
        reveal_strlit("rcm");
        assert("diversifier"@.len() == 11);
        assert("receipient_public_key"@.len() == 21);
        assert("value"@.len() == 5);
        assert("rcm"@.len() == 3);
        self.diversifier.lemma_len();
        self.receipient_public_key.lemma_len();
        self.rcm.lemma_len();
        self.value.lemma_wf();
        let document = sent_output_encoding(self@);
        assert(document.objects("diversifier"@) =~= seq![
            DocumentView::leaf(Blob::<11>::leaf_of(self@.diversifier)),
        ]);
        assert(document.objects("receipient_public_key"@) =~= seq![
            DocumentView::leaf(Blob::<32>::leaf_of(self@.receipient_public_key)),
        ]);
        assert(document.objects("value"@) =~= seq![
            DocumentView::leaf(Amount::leaf_of(self@.value)),
        ]);
        assert(document.objects("rcm"@) =~= seq![DocumentView::leaf(Blob::<32>::leaf_of(self@.rcm))]);
    }
}

} // verus!
