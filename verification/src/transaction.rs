//! Transactions, as far as the interchange keeps them.

use crate::blob::Blob;
use crate::codec::{
    extract_optional_object_for_predicate, extract_subject, leaf_document,
    optional_leaf_object, subject_as, DocumentCodec, LeafCodec,
};
use crate::document::{
    failed_at, lemma_objects_push, DecodeError, DecodeErrorView, Document,
    DocumentView,
};
use vstd::prelude::*;

verus! {

/// The identifier of a transaction: the 32 bytes of its hash.
pub type TxId = Blob<32>;

/// A transaction of the wallet's history.
#[derive(Debug, Clone, PartialEq, Eq)]
pub struct Transaction {
    txid: TxId,
    raw: Option<Vec<u8>>,
}

/// The mathematical content of a `Transaction`.
pub ghost struct TransactionView {
    /// The 32 bytes of the identifier.
    pub txid: Seq<u8>,
    /// The transaction as it went over the wire, if it was kept.
    pub raw: Option<Seq<u8>>,
}

impl View for Transaction {
    type V = TransactionView;

    closed spec fn view(&self) -> TransactionView {
        TransactionView {
            txid: self.txid@,
            raw: match self.raw {
                Some(raw) => Some(raw@),
                None => None,
            },
        }
    }
}

/// The document that writes a transaction: the identifier as subject, the
/// type tag, and the raw bytes only if they were kept.
pub open spec fn transaction_encoding(value: TransactionView) -> DocumentView {
    DocumentView::leaf(Blob::<32>::leaf_of(value.txid)).with_type(
        "Transaction"@,
    ).with_optional_assertion(
        "raw"@,
        match value.raw {
            Some(raw) => Some(DocumentView::leaf(Vec::<u8>::leaf_of(raw))),
            None => None,
        },
    )
}

/// The transaction that a document writes.
pub open spec fn transaction_decoding(document: DocumentView) -> Result<
    TransactionView,
    DecodeErrorView,
> {
    match document.check_type("Transaction"@) {
        Err(failure) => Err(failed_at(failure, "Transaction"@)),
        Ok(_) => match subject_as::<Blob<32>>(document, "txid"@) {
            Err(e) => Err(e),
            Ok(txid) => match optional_leaf_object::<Vec<u8>>(document, "raw"@) {
                Err(e) => Err(e),
                Ok(raw) => Ok(TransactionView { txid, raw }),
            },
        },
    }
}

impl Transaction {
    /// Every transaction has an identifier of 32 bytes.
    pub proof fn lemma_txid_len(&self)
        ensures
            self@.txid.len() == 32,
    {
        self.txid.lemma_len();
    }

    /// The transaction with the identifier `txid`, without its raw bytes.
    pub fn new(txid: TxId) -> (transaction: Self)
        ensures
            transaction@ == (TransactionView { txid: txid@, raw: None }),
    {
        Transaction { txid, raw: None }
    }

    /// The identifier.
    pub fn txid(&self) -> (txid: TxId)
        ensures
            txid@ == self@.txid,
    {
        self.txid
    }

    /// The transaction as it went over the wire, if it was kept.
    pub fn raw(&self) -> (raw: &Option<Vec<u8>>)
        ensures
            match *raw {
                Some(bytes) => self@.raw == Some(bytes@),
                None => self@.raw is None,
            },
    {
        &self.raw
    }

    /// Keeps the transaction as it went over the wire.
    pub fn set_raw(&mut self, raw: Vec<u8>)
        ensures
            final(self)@ == (TransactionView { raw: Some(raw@), ..old(self)@ }),
    {
        self.raw = Some(raw);
    }

    /// A copy of the transaction.
    pub fn duplicate(&self) -> (copy: Self)
        ensures
            copy@ == self@,
    {
        let raw = match &self.raw {
            Some(raw) => Some(raw.clone()),
            None => None,
        };
        Transaction { txid: self.txid, raw }
    }
}

impl DocumentCodec for Transaction {
    open spec fn sound(&self) -> bool {
        true
    }

    fn is_sound(&self) -> (ok: bool) {
        true
    }

    open spec fn encoding(value: TransactionView) -> DocumentView {
        transaction_encoding(value)
    }

    open spec fn decoding(document: DocumentView) -> Result<TransactionView, DecodeErrorView> {
        transaction_decoding(document)
    }

    fn encode(&self) -> (document: Document) {
        let raw = match &self.raw {
            Some(raw) => Some(leaf_document(raw)),
            None => None,
        };
        Document::new(self.txid.to_leaf()).add_type("Transaction").add_optional_assertion(
            "raw",
            raw,
        )
    }

    fn decode(document: &Document) -> (outcome: Result<Self, DecodeError>) {
        match document.check_type("Transaction") {
            Err(failure) => {
                return Err(DecodeError::new(failure, "Transaction"));
            },
            Ok(_) => {},
        }
        let txid = match extract_subject::<Blob<32>>(document, "txid") {
            Err(e) => {
                return Err(e);
            },
            Ok(txid) => txid,
        };
        let raw = match extract_optional_object_for_predicate::<Vec<u8>>(document, "raw") {
            Err(e) => {
                return Err(e);
            },
            Ok(raw) => raw,
        };
        Ok(Transaction { txid, raw })
    }

    proof fn lemma_round_trip(&self) {
        broadcast use lemma_objects_push;

        self.txid.lemma_len();
        let document = transaction_encoding(self@);
        match self@.raw {
            Some(raw) => {
                assert(document.objects("raw"@) =~= seq![
                    DocumentView::leaf(Vec::<u8>::leaf_of(raw)),
                ]);
            },
            None => {
                assert(document.objects("raw"@) =~= Seq::empty());
            },
        }
    }
}

} // verus!
