//! One wallet of an interchange container.

use crate::codec::{
    extract_object_for_predicate, extract_subject, leaf_document, leaf_object,
    subject_as, DocumentCodec, LeafCodec,
};
use crate::document::{
    failed_at, lemma_objects_push, same_text, DecodeError, DecodeErrorView, DecodeFailure,
    Document, DocumentView, Leaf, LeafView, Value, ValueView,
};
use crate::indexed::Indexed;
use vstd::prelude::*;

verus! {

/// The network that a wallet belongs to.
#[derive(Debug, Clone, Copy, PartialEq, Eq, Hash)]
pub enum Network {
    /// The production network.
    Main,
    /// The public test network.
    Test,
    /// A private network for regression tests.
    Regtest,
}

impl View for Network {
    type V = Network;

    open spec fn view(&self) -> Network {
        *self
    }
}

/// The name of a network.
pub open spec fn network_name(network: Network) -> Seq<char> {
    match network {
        Network::Main => "main"@,
        Network::Test => "test"@,
        Network::Regtest => "regtest"@,
    }
}

/// The network that `name` names, exactly as written, or `UnknownName`.
pub open spec fn network_of_name(name: Seq<char>) -> Result<Network, DecodeFailure> {
    if name == "main"@ {
        Ok(Network::Main)
    } else if name == "test"@ {
        Ok(Network::Test)
    } else if name == "regtest"@ {
        Ok(Network::Regtest)
    } else {
        Err(DecodeFailure::UnknownName)
    }
}

/// The three names are three different texts.
pub proof fn lemma_network_names_differ()
    ensures
        "main"@ != "test"@,
        "main"@ != "regtest"@,
        "test"@ != "regtest"@,
{
    reveal_strlit("main");
    reveal_strlit("test");
    reveal_strlit("regtest");
    assert("main"@.len() == 4);
    assert("test"@.len() == 4);
    assert("regtest"@.len() == 7);
    assert("main"@[0] != "test"@[0]);
}

impl LeafCodec for Network {
    open spec fn sound(&self) -> bool {
        true
    }

    fn is_sound(&self) -> (ok: bool) {
        true
    }

    /// A network is written as its name.
    open spec fn leaf_of(value: Network) -> LeafView {
        LeafView::One(ValueView::Text(network_name(value)))
    }

    open spec fn of_leaf(leaf: LeafView) -> Result<Network, DecodeFailure> {
        match leaf {
            LeafView::One(ValueView::Text(name)) => network_of_name(name),
            _ => Err(DecodeFailure::SubjectCoercion),
        }
    }

    fn to_leaf(&self) -> (leaf: Leaf) {
        let name = match self {
            Network::Main => "main".to_owned(),
            Network::Test => "test".to_owned(),
            Network::Regtest => "regtest".to_owned(),
        };
        Leaf::One(Value::Text(name))
    }

    fn from_leaf(leaf: &Leaf) -> (outcome: Result<Self, DecodeFailure>) {
        match leaf {
            Leaf::One(Value::Text(name)) => {
                if same_text(name.as_str(), "main") {
                    Ok(Network::Main)
                } else if same_text(name.as_str(), "test") {
                    Ok(Network::Test)
                } else if same_text(name.as_str(), "regtest") {
                    Ok(Network::Regtest)
                } else {
                    Err(DecodeFailure::UnknownName)
                }
            },
            _ => Err(DecodeFailure::SubjectCoercion),
        }
    }

    proof fn lemma_leaf_round_trip(&self) {
        lemma_network_names_differ();
    }
}

/// One wallet: its place in the container and its network.
#[derive(Debug, Clone, Copy, PartialEq, Eq)]
pub struct ZewifWallet {
    pub index: usize,
    pub network: Network,
}

impl View for ZewifWallet {
    type V = ZewifWallet;

    open spec fn view(&self) -> ZewifWallet {
        *self
    }
}

impl Indexed for ZewifWallet {
    open spec fn index_of(value: ZewifWallet) -> usize {
        value.index
    }

    open spec fn with_index(value: ZewifWallet, index: usize) -> ZewifWallet {
        ZewifWallet { index, ..value }
    }

    fn index(&self) -> (index: usize) {
        self.index
    }

    fn set_index(&mut self, index: usize) {
        self.index = index;
    }

    proof fn lemma_with_index(value: ZewifWallet, index: usize) {
    }
}

/// The document that writes a wallet: the index as subject, the type tag,
/// and the network.
pub open spec fn wallet_encoding(value: ZewifWallet) -> DocumentView {
    DocumentView::leaf(usize::leaf_of(value.index)).with_type("ZewifWallet"@).with_assertion(
        "network"@,
        DocumentView::leaf(Network::leaf_of(value.network)),
    )
}

/// The wallet that a document writes.
pub open spec fn wallet_decoding(document: DocumentView) -> Result<ZewifWallet, DecodeErrorView> {
    match document.check_type("ZewifWallet"@) {
        Err(failure) => Err(failed_at(failure, "ZewifWallet"@)),
        Ok(_) => match subject_as::<usize>(document, "index"@) {
            Err(e) => Err(e),
            Ok(index) => match leaf_object::<Network>(document, "network"@) {
                Err(e) => Err(e),
                Ok(network) => Ok(ZewifWallet { index, network }),
            },
        },
    }
}

impl ZewifWallet {
    /// A wallet of `network`, at position 0 until a container places it.
    pub fn new(network: Network) -> (wallet: Self)
        ensures
            wallet == (ZewifWallet { index: 0, network }),
    {
        ZewifWallet { index: 0, network }
    }

    /// The network of the wallet.
    pub fn network(&self) -> (network: Network)
        ensures
            network == self.network,
    {
        self.network
    }
}

impl DocumentCodec for ZewifWallet {
    open spec fn sound(&self) -> bool {
        true
    }

    fn is_sound(&self) -> (ok: bool) {
        true
    }

    open spec fn encoding(value: ZewifWallet) -> DocumentView {
        wallet_encoding(value)
    }

    open spec fn decoding(document: DocumentView) -> Result<ZewifWallet, DecodeErrorView> {
        wallet_decoding(document)
    }

    fn encode(&self) -> (document: Document) {
        Document::new(self.index.to_leaf()).add_type("ZewifWallet").add_assertion(
            "network",
            leaf_document(&self.network),
        )
    }

    fn decode(document: &Document) -> (outcome: Result<Self, DecodeError>) {
        match document.check_type("ZewifWallet") {
            Err(failure) => {
                return Err(DecodeError::new(failure, "ZewifWallet"));
            },
            Ok(_) => {},
        }
        let index = match extract_subject::<usize>(document, "index") {
            Err(e) => {
                return Err(e);
            },
            Ok(index) => index,
        };
        let network = match extract_object_for_predicate::<Network>(document, "network") {
            Err(e) => {
                return Err(e);
            },
            Ok(network) => network,
        };
        Ok(ZewifWallet { index, network })
    }

    proof fn lemma_round_trip(&self) {
        broadcast use lemma_objects_push;

        self.network.lemma_leaf_round_trip();
        let document = wallet_encoding(*self);
        assert(document.objects("network"@) =~= seq![
            DocumentView::leaf(Network::leaf_of(self.network)),
        ]);
    }
}

} // verus!
