//! An address together with what the wallet's user has said about it.

use crate::codec::{
    entity_object, extract_object_for_predicate,
    extract_optional_object_for_predicate, extract_subject, leaf_document, leaf_object,
    optional_leaf_object, subject_as, try_object_for_predicate, DocumentCodec, LeafCodec,
};
use crate::document::{
    failed_at, lemma_objects_push, DecodeError, DecodeErrorView, Document,
    DocumentView,
};
use crate::indexed::Indexed;
use crate::protocol_address::{ProtocolAddress, ProtocolAddressView};
use vstd::prelude::*;

verus! {

/// An address of the wallet with its label and its purpose.
#[derive(Debug, Clone, PartialEq, Eq)]
pub struct Address {
    index: usize,
    address: ProtocolAddress,
    name: String,
    purpose: Option<String>,
}

/// The mathematical content of an `Address`.
pub ghost struct AddressView {
    /// The position of the address among the addresses of its account.
    pub index: usize,
    /// The address itself.
    pub address: ProtocolAddressView,
    /// The label that the user gave it.
    pub name: Seq<char>,
    /// What the user said it is for, if anything.
    pub purpose: Option<Seq<char>>,
}

impl View for Address {
    type V = AddressView;

    closed spec fn view(&self) -> AddressView {
        AddressView {
            index: self.index,
            address: self.address@,
            name: self.name@,
            purpose: match self.purpose {
                Some(purpose) => Some(purpose@),
                None => None,
            },
        }
    }
}

impl Indexed for Address {
    open spec fn index_of(value: AddressView) -> usize {
        value.index
    }

    open spec fn with_index(value: AddressView, index: usize) -> AddressView {
        AddressView { index, ..value }
    }

    fn index(&self) -> (index: usize) {
        self.index
    }

    fn set_index(&mut self, index: usize) {
        self.index = index;
    }

    proof fn lemma_with_index(value: AddressView, index: usize) {
    }
}

/// The document that writes an address: the index as subject, the type
/// tag, the address and the name, and the purpose only if there is one.
pub open spec fn address_encoding(value: AddressView) -> DocumentView {
    DocumentView::leaf(usize::leaf_of(value.index)).with_type("Address"@).with_assertion(
        "address"@,
        ProtocolAddress::encoding(value.address),
    ).with_assertion(
        "name"@,
        DocumentView::leaf(String::leaf_of(value.name)),
    ).with_optional_assertion(
        "purpose"@,
        match value.purpose {
            Some(purpose) => Some(DocumentView::leaf(String::leaf_of(purpose))),
            None => None,
        },
    )
}

/// The address that a document writes: the type tag is checked first, then
/// the subject, the address, the name and the purpose are read in that
/// order, and the first that cannot be read fails the whole. A document
/// without a purpose writes an address without one.
pub open spec fn address_decoding(document: DocumentView) -> Result<AddressView, DecodeErrorView> {
    match document.check_type("Address"@) {
        Err(failure) => Err(failed_at(failure, "Address"@)),
        Ok(_) => match subject_as::<usize>(document, "index"@) {
            Err(e) => Err(e),
            Ok(index) => match entity_object::<ProtocolAddress>(document, "address"@) {
                Err(e) => Err(e),
                Ok(address) => match leaf_object::<String>(document, "name"@) {
                    Err(e) => Err(e),
                    Ok(name) => match optional_leaf_object::<String>(document, "purpose"@) {
                        Err(e) => Err(e),
                        Ok(purpose) => Ok(AddressView { index, address, name, purpose }),
                    },
                },
            },
        },
    }
}

impl Address {
    /// An address without a name and without a purpose, at position 0.
    pub fn new(address: ProtocolAddress) -> (created: Self)
        ensures
            created@ == (AddressView {
                index: 0,
                address: address@,
                name: Seq::empty(),
                purpose: None,
            }),
    {
        Address { index: 0, address, name: String::new(), purpose: None }
    }

    /// The label that the user gave the address.
    pub fn name(&self) -> (name: &str)
        ensures
            name@ == self@.name,
    {
        self.name.as_str()
    }

    /// What the user said the address is for, if anything.
    pub fn purpose(&self) -> (purpose: Option<&str>)
        ensures
            match purpose {
                Some(text) => self@.purpose == Some(text@),
                None => self@.purpose is None,
            },
    {
        match &self.purpose {
            Some(purpose) => Some(purpose.as_str()),
            None => None,
        }
    }

    /// Says what the address is for.
    pub fn set_purpose(&mut self, purpose: String)
        ensures
            final(self)@ == (AddressView { purpose: Some(purpose@), ..old(self)@ }),
    {
        self.purpose = Some(purpose);
    }

    /// The address in its text form.
    pub fn as_string(&self) -> (text: String)
        ensures
            text@ == self@.address.text(),
    {
        self.address.as_string()
    }

    /// The address itself.
    pub fn address(&self) -> (address: &ProtocolAddress)
        ensures
            address@ == self@.address,
    {
        &self.address
    }

    /// The address itself, to be changed in place. Index, label and
    /// purpose stay as they are, whatever is done to the address.
    pub fn address_mut(&mut self) -> (address: &mut ProtocolAddress)
        ensures
            address@ == old(self)@.address,
            final(self)@ == (AddressView { address: final(address)@, ..old(self)@ }),
    {
        &mut self.address
    }

    /// Gives the address a label.
    pub fn set_name(&mut self, name: String)
        ensures
            final(self)@ == (AddressView { name: name@, ..old(self)@ }),
    {
        self.name = name;
    }

    /// Replaces the address itself.
    pub fn set_address(&mut self, address: ProtocolAddress)
        ensures
            final(self)@ == (AddressView { address: address@, ..old(self)@ }),
    {
        self.address = address;
    }
}

impl DocumentCodec for Address {
    open spec fn sound(&self) -> bool {
        true
    }

    fn is_sound(&self) -> (ok: bool) {
        true
    }

    open spec fn encoding(value: AddressView) -> DocumentView {
        address_encoding(value)
    }

    open spec fn decoding(document: DocumentView) -> Result<AddressView, DecodeErrorView> {
        address_decoding(document)
    }

    fn encode(&self) -> (document: Document) {
        let purpose = match &self.purpose {
            Some(purpose) => Some(leaf_document(purpose)),
            None => None,
        };
        Document::new(self.index.to_leaf()).add_type("Address").add_assertion(
            "address",
            self.address.encode(),
        ).add_assertion("name", leaf_document(&self.name)).add_optional_assertion(
            "purpose",
            purpose,
        )
    }

    fn decode(document: &Document) -> (outcome: Result<Self, DecodeError>) {
        match document.check_type("Address") {
            Err(failure) => {
                return Err(DecodeError::new(failure, "Address"));
            },
            Ok(_) => {},
        }
        let index = match extract_subject::<usize>(document, "index") {
            Err(e) => {
                return Err(e);
            },
            Ok(index) => index,
        };
        let address = match try_object_for_predicate::<ProtocolAddress>(document, "address") {
            Err(e) => {
                return Err(e);
            },
            Ok(address) => address,
        };
        let name = match extract_object_for_predicate::<String>(document, "name") {
            Err(e) => {
                return Err(e);
            },
            Ok(name) => name,
        };
        let purpose = match extract_optional_object_for_predicate::<String>(document, "purpose") {
            Err(e) => {
                return Err(e);
            },
            Ok(purpose) => purpose,
        };
        Ok(Address { index, address, name, purpose })
    }

    proof fn lemma_round_trip(&self) {
        broadcast use lemma_objects_push;

        lemma_address_names_differ();
        self.address.lemma_round_trip();
        let document = address_encoding(self@);
        assert(document.objects("address"@) =~= seq![ProtocolAddress::encoding(self@.address)]);
        assert(document.objects("name"@) =~= seq![DocumentView::leaf(String::leaf_of(self@.name))]);
        match self@.purpose {
            Some(purpose) => {
                assert(document.objects("purpose"@) =~= seq![
                    DocumentView::leaf(String::leaf_of(purpose)),
                ]);
            },
            None => {
                assert(document.objects("purpose"@) =~= Seq::empty());
            },
        }
    }
}

/// The three predicate names of an address are three different texts.
pub proof fn lemma_address_names_differ()
    ensures
        "address"@ != "name"@,
        "address"@ != "purpose"@,
        "name"@ != "purpose"@,
{
    reveal_strlit("address");
    reveal_strlit("name");
    reveal_strlit("purpose");
    assert("address"@.len() == 7);
    assert("name"@.len() == 4);
    assert("purpose"@.len() == 7);
    assert("address"@[0] != "purpose"@[0]);
}

/// An address without a purpose is written without the predicate
/// `purpose`, and a document without that predicate is read as an address
/// without a purpose: neither a default nor an error.
pub proof fn lemma_absent_purpose(address: Address, document: DocumentView)
    ensures
        address@.purpose is None ==> address_encoding(address@).objects("purpose"@).len() == 0,
        document.objects("purpose"@).len() == 0 ==> match address_decoding(document) {
            Ok(decoded) => decoded.purpose is None,
            Err(e) => e.path != seq!["purpose"@],
        },
{
    broadcast use lemma_objects_push;

    lemma_address_names_differ();
    if address@.purpose is None {
        assert(address_encoding(address@).objects("purpose"@) =~= Seq::empty());
    }
    reveal_strlit("Address");
    reveal_strlit("index");
    reveal_strlit("address");
    reveal_strlit("name");
    reveal_strlit("purpose");
    assert("Address"@[0] != "purpose"@[0]);
    assert("index"@.len() == 5);
    assert("purpose"@.len() == 7);
    if document.objects("purpose"@).len() == 0 {
        match address_decoding(document) {
            Ok(decoded) => {},
            Err(e) => {
                assert(e.path.last() != "purpose"@);
            },
        }
    }
}

} // verus!
