//! The address of one protocol, in its text form.

use crate::codec::{extract_subject, subject_as, DocumentCodec, LeafCodec};
use crate::document::{
    failed_at, DecodeError, DecodeErrorView, DecodeFailure, Document, DocumentView,
};
use vstd::prelude::*;

verus! {

/// An address as one of the protocols writes it.
#[derive(Debug, Clone, PartialEq, Eq)]
pub enum ProtocolAddress {
    /// A transparent address.
    Transparent(String),
    /// A Sapling shielded address.
    Sapling(String),
    /// A unified address, which may hold receivers of several protocols.
    Unified(String),
}

/// The mathematical content of a `ProtocolAddress`.
pub ghost enum ProtocolAddressView {
    Transparent(Seq<char>),
    Sapling(Seq<char>),
    Unified(Seq<char>),
}

impl View for ProtocolAddress {
    type V = ProtocolAddressView;

    open spec fn view(&self) -> ProtocolAddressView {
        match *self {
            ProtocolAddress::Transparent(text) => ProtocolAddressView::Transparent(text@),
            ProtocolAddress::Sapling(text) => ProtocolAddressView::Sapling(text@),
            ProtocolAddress::Unified(text) => ProtocolAddressView::Unified(text@),
        }
    }
}

impl ProtocolAddressView {
    /// The text of the address.
    pub open spec fn text(self) -> Seq<char> {
        match self {
            ProtocolAddressView::Transparent(text) => text,
            ProtocolAddressView::Sapling(text) => text,
            ProtocolAddressView::Unified(text) => text,
        }
    }

    /// The type tag that names the protocol.
    pub open spec fn tag(self) -> Seq<char> {
        match self {
            ProtocolAddressView::Transparent(_) => "TransparentAddress"@,
            ProtocolAddressView::Sapling(_) => "SaplingAddress"@,
            ProtocolAddressView::Unified(_) => "UnifiedAddress"@,
        }
    }
}

/// The three type tags are three different texts.
pub proof fn lemma_address_tags_differ()
    ensures
        "TransparentAddress"@ != "SaplingAddress"@,
        "TransparentAddress"@ != "UnifiedAddress"@,
        "SaplingAddress"@ != "UnifiedAddress"@,
{
    reveal_strlit("TransparentAddress");
    reveal_strlit("SaplingAddress");
    reveal_strlit("UnifiedAddress");
    assert("TransparentAddress"@.len() == 18);
    assert("SaplingAddress"@.len() == 14);
    assert("UnifiedAddress"@.len() == 14);
    assert("SaplingAddress"@[0] != "UnifiedAddress"@[0]);
}

/// The document that writes an address: its text as subject, under the
/// type tag of its protocol.
pub open spec fn address_text_encoding(value: ProtocolAddressView) -> DocumentView {
    DocumentView::leaf(String::leaf_of(value.text())).with_type(value.tag())
}

/// The address that a document writes. The type tag chooses the protocol;
/// a document with another tag, or with none, is refused.
pub open spec fn address_text_decoding(document: DocumentView) -> Result<
    ProtocolAddressView,
    DecodeErrorView,
> {
    if document.type_tag == Some("TransparentAddress"@) {
        match subject_as::<String>(document, "address"@) {
            Ok(text) => Ok(ProtocolAddressView::Transparent(text)),
            Err(e) => Err(e),
        }
    } else if document.type_tag == Some("SaplingAddress"@) {
        match subject_as::<String>(document, "address"@) {
            Ok(text) => Ok(ProtocolAddressView::Sapling(text)),
            Err(e) => Err(e),
        }
    } else if document.type_tag == Some("UnifiedAddress"@) {
        match subject_as::<String>(document, "address"@) {
            Ok(text) => Ok(ProtocolAddressView::Unified(text)),
            Err(e) => Err(e),
        }
    } else {
        Err(failed_at(DecodeFailure::TypeMismatch, "ProtocolAddress"@))
    }
}

impl ProtocolAddress {
    /// The address in its text form.
    pub fn as_string(&self) -> (text: String)
        ensures
            text@ == self@.text(),
    {
        match self {
            ProtocolAddress::Transparent(text) => text.clone(),
            ProtocolAddress::Sapling(text) => text.clone(),
            ProtocolAddress::Unified(text) => text.clone(),
        }
    }

    /// A copy of the address.
    pub fn duplicate(&self) -> (copy: Self)
        ensures
            copy@ == self@,
    {
        match self {
            ProtocolAddress::Transparent(text) => ProtocolAddress::Transparent(text.clone()),
            ProtocolAddress::Sapling(text) => ProtocolAddress::Sapling(text.clone()),
            ProtocolAddress::Unified(text) => ProtocolAddress::Unified(text.clone()),
        }
    }
}

impl DocumentCodec for ProtocolAddress {
    open spec fn sound(&self) -> bool {
        true
    }

    fn is_sound(&self) -> (ok: bool) {
        true
    }

    open spec fn encoding(value: ProtocolAddressView) -> DocumentView {
        address_text_encoding(value)
    }

    open spec fn decoding(document: DocumentView) -> Result<ProtocolAddressView, DecodeErrorView> {
        address_text_decoding(document)
    }

    fn encode(&self) -> (document: Document) {
        match self {
            ProtocolAddress::Transparent(text) => Document::new(text.to_leaf()).add_type(
                "TransparentAddress",
            ),
            ProtocolAddress::Sapling(text) => Document::new(text.to_leaf()).add_type(
                "SaplingAddress",
            ),
            ProtocolAddress::Unified(text) => Document::new(text.to_leaf()).add_type(
                "UnifiedAddress",
            ),
        }
    }

    fn decode(document: &Document) -> (outcome: Result<Self, DecodeError>) {
        if document.check_type("TransparentAddress").is_ok() {
            match extract_subject::<String>(document, "address") {
                Ok(text) => Ok(ProtocolAddress::Transparent(text)),
                Err(e) => Err(e),
            }
        } else if document.check_type("SaplingAddress").is_ok() {
            match extract_subject::<String>(document, "address") {
                Ok(text) => Ok(ProtocolAddress::Sapling(text)),
                Err(e) => Err(e),
            }
        } else if document.check_type("UnifiedAddress").is_ok() {
            match extract_subject::<String>(document, "address") {
                Ok(text) => Ok(ProtocolAddress::Unified(text)),
                Err(e) => Err(e),
            }
        } else {
            Err(DecodeError::new(DecodeFailure::TypeMismatch, "ProtocolAddress"))
        }
    }

    proof fn lemma_round_trip(&self) {
        lemma_address_tags_differ();
    }
}

} // verus!
