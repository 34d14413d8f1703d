//! The top-level container: the wallets, in order, and the transactions,
//! each kept once under its identifier.

use crate::any_order::{
    lemma_decode_all_any_order, lemma_indexed_objects_any_order, lemma_leaf_fields_any_order,
    lemma_map_any_order, lemma_queries_any_order, same_content,
};
use crate::blob::Blob;
use crate::block_height::BlockHeight;
use crate::codec::{
    add_assertions, decode_all, encodings, entity_objects, extract_object_for_predicate,
    extract_subject, items_view, leaf_document, leaf_object,
    lemma_decode_all_round_trip, lemma_with_entities, subject_as, try_objects_for_predicate,
    with_entities, DocumentCodec, LeafCodec,
};
use crate::document::{
    failed_at, lemma_objects_push, DecodeError, DecodeErrorView, Document,
    DocumentView,
};
use crate::indexed::{
    indexed_in_place, indexed_objects, indexed_objects_for_predicate, lemma_order_recovered,
    lemma_reindexed_in_place, Indexed,
};
use crate::transaction::{Transaction, TransactionView, TxId};
use crate::zewif_wallet::ZewifWallet;
use vstd::prelude::*;

verus! {

/// The identifier of a container: 32 bytes drawn at random when the
/// container is made.
pub type ARID = Blob<32>;

/// The whole of what is moved from one wallet implementation to another.
#[derive(Debug, Clone, PartialEq, Eq)]
pub struct Zewif {
    id: ARID,
    wallets: Vec<ZewifWallet>,
    transactions: Vec<(TxId, Transaction)>,
    export_height: BlockHeight,
}

/// The mathematical content of a `Zewif`.
pub ghost struct ZewifView {
    /// The identifier of the container.
    pub id: Seq<u8>,
    /// The wallets, in the order in which they were added.
    pub wallets: Seq<ZewifWallet>,
    /// The transactions, each under its identifier.
    pub transactions: Seq<(Seq<u8>, TransactionView)>,
    /// The height of the chain when the container was written.
    pub export_height: BlockHeight,
}

/// The contents of a list of transactions under their identifiers.
pub open spec fn entries_view(entries: Seq<(TxId, Transaction)>) -> Seq<
    (Seq<u8>, TransactionView),
> {
    entries.map_values(|entry: (TxId, Transaction)| (entry.0@, entry.1@))
}

/// The transactions of `entries`, without their identifiers.
pub open spec fn entry_values(entries: Seq<(Seq<u8>, TransactionView)>) -> Seq<TransactionView> {
    entries.map_values(|entry: (Seq<u8>, TransactionView)| entry.1)
}

/// `entries` without those under `key`.
pub open spec fn without_key(entries: Seq<(Seq<u8>, TransactionView)>, key: Seq<u8>) -> Seq<
    (Seq<u8>, TransactionView),
>
    decreases entries.len(),
{
    if entries.len() == 0 {
        Seq::empty()
    } else if entries.last().0 == key {
        without_key(entries.drop_last(), key)
    } else {
        without_key(entries.drop_last(), key).push(entries.last())
    }
}

/// `entries` with `transaction` under `key`: what stood under that key
/// before is gone, and the new entry stands last.
pub open spec fn insert_keyed(
    entries: Seq<(Seq<u8>, TransactionView)>,
    key: Seq<u8>,
    transaction: TransactionView,
) -> Seq<(Seq<u8>, TransactionView)> {
    without_key(entries, key).push((key, transaction))
}

/// The entries that inserting `pairs` one after the other into `entries`
/// leaves.
pub open spec fn insert_all(
    entries: Seq<(Seq<u8>, TransactionView)>,
    pairs: Seq<(Seq<u8>, TransactionView)>,
) -> Seq<(Seq<u8>, TransactionView)>
    decreases pairs.len(),
{
    if pairs.len() == 0 {
        entries
    } else {
        insert_keyed(insert_all(entries, pairs.drop_last()), pairs.last().0, pairs.last().1)
    }
}

/// Each of `transactions` under its own identifier.
pub open spec fn by_txid(transactions: Seq<TransactionView>) -> Seq<(Seq<u8>, TransactionView)> {
    transactions.map_values(|transaction: TransactionView| (transaction.txid, transaction))
}

/// The transaction under `key`, if there is one.
pub open spec fn lookup(entries: Seq<(Seq<u8>, TransactionView)>, key: Seq<u8>) -> Option<
    TransactionView,
>
    decreases entries.len(),
{
    if entries.len() == 0 {
        None
    } else if entries.last().0 == key {
        Some(entries.last().1)
    } else {
        lookup(entries.drop_last(), key)
    }
}

/// No two entries stand under the same key.
pub open spec fn distinct_keys(entries: Seq<(Seq<u8>, TransactionView)>) -> bool {
    forall|i: int, j: int|
        0 <= i < j < entries.len() ==> (#[trigger] entries[i]).0 != (#[trigger] entries[j]).0
}

/// Each entry stands under the identifier of its transaction.
pub open spec fn keyed_by_txid(entries: Seq<(Seq<u8>, TransactionView)>) -> bool {
    forall|i: int| 0 <= i < entries.len() ==> (#[trigger] entries[i]).0 == entries[i].1.txid
}

impl View for Zewif {
    type V = ZewifView;

    closed spec fn view(&self) -> ZewifView {
        ZewifView {
            id: self.id@,
            wallets: self.wallets@,
            transactions: entries_view(self.transactions@),
            export_height: self.export_height,
        }
    }
}

/// The document that writes a container: the identifier as subject, the
/// type tag, one assertion for each wallet and for each transaction, in
/// the order in which they stand, and the export height.
pub open spec fn zewif_encoding(value: ZewifView) -> DocumentView {
    with_entities::<Transaction>(
        with_entities::<ZewifWallet>(
            DocumentView::leaf(Blob::<32>::leaf_of(value.id)).with_type("Zewif"@),
            "wallet"@,
            value.wallets,
        ),
        "transaction"@,
        entry_values(value.transactions),
    ).with_assertion(
        "export_height"@,
        DocumentView::leaf(BlockHeight::leaf_of(value.export_height)),
    )
}

/// The container that a document writes. The wallets are put back into
/// the order of the positions they carry, and each transaction is kept
/// under its own identifier.
pub open spec fn zewif_decoding(document: DocumentView) -> Result<ZewifView, DecodeErrorView> {
    match document.check_type("Zewif"@) {
        Err(failure) => Err(failed_at(failure, "Zewif"@)),
        Ok(_) => match subject_as::<Blob<32>>(document, "id"@) {
            Err(e) => Err(e),
            Ok(id) => match indexed_objects::<ZewifWallet>(document, "wallet"@) {
                Err(e) => Err(e),
                Ok(wallets) => match entity_objects::<Transaction>(document, "transaction"@) {
                    Err(e) => Err(e),
                    Ok(transactions) => match leaf_object::<BlockHeight>(
                        document,
                        "export_height"@,
                    ) {
                        Err(e) => Err(e),
                        Ok(export_height) => Ok(
                            ZewifView {
                                id,
                                wallets,
                                transactions: insert_all(Seq::empty(), by_txid(transactions)),
                                export_height,
                            },
                        ),
                    },
                },
            },
        },
    }
}

/// Draws a fresh identifier: calls `bc_components::ARID::new` and takes
/// the 32 bytes it holds.
///
/// Trusted: nothing is claimed of the bytes, which are random.
#[verifier::external_body]
fn fresh_arid() -> (id: [u8; 32]) {
    *bc_components::ARID::new().data()
}

/// Puts `transaction` under `txid` into `entries`.
fn insert_entry(entries: Vec<(TxId, Transaction)>, txid: TxId, transaction: Transaction) -> (out:
    Vec<(TxId, Transaction)>)
    ensures
        entries_view(out@) == insert_keyed(entries_view(entries@), txid@, transaction@),
{
    let ghost all = entries@;
    let mut rest = entries;
    let mut kept: Vec<(TxId, Transaction)> = Vec::new();
    assert(entries_view(all.take(0)) =~= Seq::empty());
    assert(entries_view(kept@) =~= Seq::empty());
    while rest.len() > 0
        invariant
            rest@.len() <= all.len(),
            rest@ == all.skip(all.len() - rest@.len()),
            entries_view(kept@) == without_key(
                entries_view(all.take(all.len() - rest@.len())),
                txid@,
            ),
        decreases rest@.len(),
    {
        let ghost done = all.len() - rest@.len();
        let ghost before = entries_view(kept@);
        let entry = rest.remove(0);
        assert(entry == all[done]);
        assert(rest@ =~= all.skip(done + 1));
        assert(entries_view(all.take(done + 1)).drop_last() =~= entries_view(all.take(done)));
        assert(entries_view(all.take(done + 1)).last() == (entry.0@, entry.1@));
        if !entry.0.same_bytes(&txid) {
            kept.push(entry);
            assert(entries_view(kept@) =~= before.push((entry.0@, entry.1@)));
        }
    }
    assert(all.take(all.len() as int) =~= all);
    let ghost before = entries_view(kept@);
    kept.push((txid, transaction));
    assert(entries_view(kept@) =~= before.push((txid@, transaction@)));
    kept
}

impl Zewif {
    /// An empty container with a fresh identifier.
    pub fn new(export_height: BlockHeight) -> (created: Self)
        ensures
            created.sound(),
            created@.wallets.len() == 0,
            created@.transactions.len() == 0,
            created@.export_height == export_height,
    {
        Zewif::with_id(Blob::new(fresh_arid()), export_height)
    }

    /// An empty container with the identifier `id`.
    pub fn with_id(id: ARID, export_height: BlockHeight) -> (created: Self)
        ensures
            created.sound(),
            created@ == (ZewifView {
                id: id@,
                wallets: Seq::empty(),
                transactions: Seq::empty(),
                export_height,
            }),
    {
        let created = Zewif { id, wallets: Vec::new(), transactions: Vec::new(), export_height };
        assert(created@.transactions =~= Seq::empty());
        assert(created@.wallets =~= Seq::empty());
        created
    }

    /// The identifier of the container.
    pub fn id(&self) -> (id: ARID)
        ensures
            id@ == self@.id,
    {
        self.id
    }

    /// The wallets, in the order in which they were added.
    pub fn wallets(&self) -> (wallets: &Vec<ZewifWallet>)
        ensures
            wallets@ == self@.wallets,
    {
        &self.wallets
    }

    /// The number of wallets.
    pub fn wallets_len(&self) -> (n: usize)
        ensures
            n == self@.wallets.len(),
    {
        self.wallets.len()
    }

    /// Adds a wallet after those that are there, and gives it the
    /// position at which it then stands.
    pub fn add_wallet(&mut self, wallet: ZewifWallet)
        ensures
            old(self).sound() ==> final(self).sound(),
            final(self)@ == (ZewifView {
                wallets: old(self)@.wallets.push(
                    ZewifWallet::with_index(wallet, old(self)@.wallets.len() as usize),
                ),
                ..old(self)@
            }),
    {
        let mut wallet = wallet;
        wallet.set_index(self.wallets.len());
        self.wallets.push(wallet);
    }

    /// The transactions, each under its identifier.
    pub fn transactions(&self) -> (entries: &Vec<(TxId, Transaction)>)
        ensures
            entries_view(entries@) == self@.transactions,
    {
        &self.transactions
    }

    /// Puts `transaction` under `txid`. What stood under that identifier
    /// before is replaced, so that no transaction is kept twice.
    pub fn add_transaction(&mut self, txid: TxId, transaction: Transaction)
        ensures
            final(self)@ == (ZewifView {
                transactions: insert_keyed(old(self)@.transactions, txid@, transaction@),
                ..old(self)@
            }),
            old(self).sound() && txid@ == transaction@.txid ==> final(self).sound(),
    {
        let ghost before = self@.transactions;
        let mut entries: Vec<(TxId, Transaction)> = Vec::new();
        std::mem::swap(&mut entries, &mut self.transactions);
        self.transactions = insert_entry(entries, txid, transaction);
        proof {
            lemma_insert_keeps_shape(before, txid@, transaction@);
        }
    }

    /// The transaction under `txid`, if there is one.
    pub fn get_transaction(&self, txid: TxId) -> (found: Option<&Transaction>)
        ensures
            match found {
                Some(transaction) => lookup(self@.transactions, txid@) == Some(transaction@),
                None => lookup(self@.transactions, txid@) is None,
            },
    {
        let ghost entries = self@.transactions;
        let mut i: usize = self.transactions.len();
        assert(entries.take(i as int) =~= entries);
        while i > 0
            invariant
                i <= self.transactions@.len(),
                entries == entries_view(self.transactions@),
                lookup(entries, txid@) == lookup(entries.take(i as int), txid@),
            decreases i,
        {
            i -= 1;
            assert(entries.take(i + 1).drop_last() =~= entries.take(i as int));
            if self.transactions[i].0.same_bytes(&txid) {
                return Some(&self.transactions[i].1);
            }
        }
        None
    }

    /// Replaces the transactions by those of `pairs`, put in one after the
    /// other: of two under the same identifier the later one stays.
    pub fn set_transactions(&mut self, pairs: Vec<(TxId, Transaction)>)
        ensures
            final(self)@ == (ZewifView {
                transactions: insert_all(Seq::empty(), entries_view(pairs@)),
                ..old(self)@
            }),
    {
        let ghost all = pairs@;
        let mut rest = pairs;
        let mut entries: Vec<(TxId, Transaction)> = Vec::new();
        assert(entries_view(all.take(0)) =~= Seq::empty());
        assert(entries_view(entries@) =~= Seq::empty());
        while rest.len() > 0
            invariant
                rest@.len() <= all.len(),
                rest@ == all.skip(all.len() - rest@.len()),
                entries_view(entries@) == insert_all(
                    Seq::empty(),
                    entries_view(all.take(all.len() - rest@.len())),
                ),
            decreases rest@.len(),
        {
            let ghost done = all.len() - rest@.len();
            let pair = rest.remove(0);
            assert(pair == all[done]);
            assert(rest@ =~= all.skip(done + 1));
            assert(entries_view(all.take(done + 1)).drop_last() =~= entries_view(all.take(done)));
            assert(entries_view(all.take(done + 1)).last() == (pair.0@, pair.1@));
            entries = insert_entry(entries, pair.0, pair.1);
        }
        assert(all.take(all.len() as int) =~= all);
        self.transactions = entries;
    }

    /// The height of the chain when the container was written.
    pub fn export_height(&self) -> (height: BlockHeight)
        ensures
            height == self@.export_height,
    {
        self.export_height
    }
}

/// The three predicate names of a container are three different texts.
pub proof fn lemma_zewif_names_differ()
    ensures
        "wallet"@ != "transaction"@,
        "wallet"@ != "export_height"@,
        "transaction"@ != "export_height"@,
{
    reveal_strlit("wallet");
    reveal_strlit("transaction");
    reveal_strlit("export_height");
    assert("wallet"@.len() == 6);
    assert("transaction"@.len() == 11);
    assert("export_height"@.len() == 13);
}

/// The transactions of `entries`, without their identifiers.
pub open spec fn transactions_of(entries: Seq<(TxId, Transaction)>) -> Seq<Transaction> {
    entries.map_values(|entry: (TxId, Transaction)| entry.1)
}

impl DocumentCodec for Zewif {
    /// The wallets stand at the positions they carry, and the
    /// transactions stand under their own, different identifiers.
    closed spec fn sound(&self) -> bool {
        &&& indexed_in_place::<ZewifWallet>(self.wallets@)
        &&& distinct_keys(entries_view(self.transactions@))
        &&& keyed_by_txid(entries_view(self.transactions@))
    }

    fn is_sound(&self) -> (ok: bool) {
        let ghost entries = entries_view(self.transactions@);
        let wallets = self.wallets.len();
        let mut w: usize = 0;
        while w < wallets
            invariant
                w <= wallets,
                wallets == self.wallets@.len(),
                forall|k: int| 0 <= k < w ==> ZewifWallet::index_of(#[trigger] self.wallets@[k]) == k,
            decreases wallets - w,
        {
            if self.wallets[w].index() != w {
                return false;
            }
            w += 1;
        }
        let n = self.transactions.len();
        let mut j: usize = 0;
        while j < n
            invariant
                j <= n,
                n == self.transactions@.len(),
                entries == entries_view(self.transactions@),
                indexed_in_place::<ZewifWallet>(self.wallets@),
                forall|a: int, b: int|
                    0 <= a < b < j ==> (#[trigger] entries[a]).0 != (#[trigger] entries[b]).0,
                forall|a: int| 0 <= a < j ==> (#[trigger] entries[a]).0 == entries[a].1.txid,
            decreases n - j,
        {
            let key = self.transactions[j].0;
            if !key.same_bytes(&self.transactions[j].1.txid()) {
                assert(entries[j as int].0 != entries[j as int].1.txid);
                return false;
            }
            let mut i: usize = 0;
            while i < j
                invariant
                    i <= j < n,
                    n == self.transactions@.len(),
                    entries == entries_view(self.transactions@),
                    key == self.transactions@[j as int].0,
                    forall|a: int| 0 <= a < i ==> (#[trigger] entries[a]).0 != entries[j as int].0,
                decreases j - i,
            {
                if self.transactions[i].0.same_bytes(&key) {
                    assert(entries[i as int].0 == entries[j as int].0);
                    return false;
                }
                i += 1;
            }
            j += 1;
        }
        true
    }

    open spec fn encoding(value: ZewifView) -> DocumentView {
        zewif_encoding(value)
    }

    open spec fn decoding(document: DocumentView) -> Result<ZewifView, DecodeErrorView> {
        zewif_decoding(document)
    }

    fn encode(&self) -> (document: Document) {
        let mut document = Document::new(self.id.to_leaf()).add_type("Zewif");
        document = add_assertions(document, "wallet", &self.wallets);
        let ghost start = document@;
        let ghost values = entry_values(self@.transactions);
        let n = self.transactions.len();
        let mut i: usize = 0;
        assert(values.take(0) =~= Seq::empty());
        while i < n
            invariant
                i <= n,
                n == self.transactions@.len(),
                values == entry_values(entries_view(self.transactions@)),
                document@ == with_entities::<Transaction>(
                    start,
                    "transaction"@,
                    values.take(i as int),
                ),
            decreases n - i,
        {
            assert(values.take(i + 1).drop_last() =~= values.take(i as int));
            assert(values.take(i + 1).last() == self.transactions@[i as int].1@);
            document = document.add_assertion("transaction", self.transactions[i].1.encode());
            i += 1;
        }
        assert(values.take(n as int) =~= values);
        assert(items_view(self.wallets@) =~= self.wallets@);
        document.add_assertion("export_height", leaf_document(&self.export_height))
    }

    fn decode(document: &Document) -> (outcome: Result<Self, DecodeError>) {
        match document.check_type("Zewif") {
            Err(failure) => {
                return Err(DecodeError::new(failure, "Zewif"));
            },
            Ok(_) => {},
        }
        let id = match extract_subject::<Blob<32>>(document, "id") {
            Err(e) => {
                return Err(e);
            },
            Ok(id) => id,
        };
        let wallets = match indexed_objects_for_predicate::<ZewifWallet>(document, "wallet") {
            Err(e) => {
                return Err(e);
            },
            Ok(wallets) => wallets,
        };
        let decoded = match try_objects_for_predicate::<Transaction>(document, "transaction") {
            Err(e) => {
                return Err(e);
            },
            Ok(decoded) => decoded,
        };
        let export_height = match extract_object_for_predicate::<BlockHeight>(
            document,
            "export_height",
        ) {
            Err(e) => {
                return Err(e);
            },
            Ok(export_height) => export_height,
        };
        let ghost all = decoded@;
        let ghost pairs = by_txid(items_view(all));
        let mut rest = decoded;
        let mut transactions: Vec<(TxId, Transaction)> = Vec::new();
        assert(pairs.take(0) =~= Seq::empty());
        assert(entries_view(transactions@) =~= Seq::empty());
        while rest.len() > 0
            invariant
                rest@.len() <= all.len(),
                pairs == by_txid(items_view(all)),
                rest@ == all.skip(all.len() - rest@.len()),
                entries_view(transactions@) == insert_all(
                    Seq::empty(),
                    pairs.take(all.len() - rest@.len()),
                ),
                distinct_keys(entries_view(transactions@)),
                keyed_by_txid(entries_view(transactions@)),
            decreases rest@.len(),
        {
            let ghost done = all.len() - rest@.len();
            let ghost before = entries_view(transactions@);
            let transaction = rest.remove(0);
            assert(transaction == all[done]);
            assert(rest@ =~= all.skip(done + 1));
            assert(pairs.take(done + 1).drop_last() =~= pairs.take(done));
            assert(pairs.take(done + 1).last() == (transaction@.txid, transaction@));
            proof {
                lemma_insert_keeps_shape(before, transaction@.txid, transaction@);
            }
            transactions = insert_entry(transactions, transaction.txid(), transaction);
        }
        assert(pairs.take(all.len() as int) =~= pairs);
        assert(items_view(wallets@) =~= wallets@);
        Ok(Zewif { id, wallets, transactions, export_height })
    }

    proof fn lemma_round_trip(&self) {
        self.lemma_encoding_objects();
        self.id.lemma_len();
        self.export_height.lemma_leaf_round_trip();
        lemma_order_recovered::<ZewifWallet>(self@.wallets);
        lemma_reindexed_in_place::<ZewifWallet>(self@.wallets);
        lemma_insert_all_round_trip(self@.transactions);
        let document = zewif_encoding(self@);
        let base = DocumentView::leaf(Blob::<32>::leaf_of(self@.id)).with_type("Zewif"@);
        lemma_with_entities::<ZewifWallet>(base, "wallet"@, self@.wallets, "transaction"@);
        lemma_with_entities::<Transaction>(
            with_entities::<ZewifWallet>(base, "wallet"@, self@.wallets),
            "transaction"@,
            entry_values(self@.transactions),
            "wallet"@,
        );
        assert(document.type_tag == Some("Zewif"@));
        assert(document.subject == Blob::<32>::leaf_of(self@.id));
        assert(indexed_objects::<ZewifWallet>(document, "wallet"@) == Ok::<
            Seq<ZewifWallet>,
            DecodeErrorView,
        >(self@.wallets));
        assert(entity_objects::<Transaction>(document, "transaction"@) == Ok::<
            Seq<TransactionView>,
            DecodeErrorView,
        >(entry_values(self@.transactions)));
        assert(document.objects("export_height"@)[0] == DocumentView::leaf(
            BlockHeight::leaf_of(self@.export_height),
        ));
    }
}

impl Zewif {
    /// What the document of a container holds under each of its
    /// predicates, and what that decodes to.
    pub proof fn lemma_encoding_objects(&self)
        requires
            self.sound(),
        ensures
            zewif_encoding(self@).objects("wallet"@) == encodings::<ZewifWallet>(self@.wallets),
            zewif_encoding(self@).objects("transaction"@) == encodings::<Transaction>(
                entry_values(self@.transactions),
            ),
            zewif_encoding(self@).objects("export_height"@) == seq![
                DocumentView::leaf(BlockHeight::leaf_of(self@.export_height)),
            ],
            decode_all::<ZewifWallet>(zewif_encoding(self@).objects("wallet"@)) == Ok::<
                Seq<ZewifWallet>,
                DecodeErrorView,
            >(self@.wallets),
            decode_all::<Transaction>(zewif_encoding(self@).objects("transaction"@)) == Ok::<
                Seq<TransactionView>,
                DecodeErrorView,
            >(entry_values(self@.transactions)),
            indexed_in_place::<ZewifWallet>(self@.wallets),
            distinct_keys(self@.transactions),
            keyed_by_txid(self@.transactions),
    {
        broadcast use lemma_objects_push;

        lemma_zewif_names_differ();
        let value = self@;
        let base = DocumentView::leaf(Blob::<32>::leaf_of(value.id)).with_type("Zewif"@);
        let with_wallets = with_entities::<ZewifWallet>(base, "wallet"@, value.wallets);
        let document = zewif_encoding(value);
        lemma_with_entities::<ZewifWallet>(base, "wallet"@, value.wallets, "transaction"@);
        lemma_with_entities::<ZewifWallet>(base, "wallet"@, value.wallets, "export_height"@);
        lemma_with_entities::<Transaction>(
            with_wallets,
            "transaction"@,
            entry_values(value.transactions),
            "wallet"@,
        );
        lemma_with_entities::<Transaction>(
            with_wallets,
            "transaction"@,
            entry_values(value.transactions),
            "export_height"@,
        );
        assert(base.objects("wallet"@) =~= Seq::empty());
        assert(base.objects("transaction"@) =~= Seq::empty());
        assert(base.objects("export_height"@) =~= Seq::empty());
        assert(document.objects("wallet"@) =~= encodings::<ZewifWallet>(value.wallets));
        assert(document.objects("transaction"@) =~= encodings::<Transaction>(
            entry_values(value.transactions),
        ));
        assert(document.objects("export_height"@) =~= seq![
            DocumentView::leaf(BlockHeight::leaf_of(value.export_height)),
        ]);
        assert(items_view(self.wallets@) =~= value.wallets);
        lemma_decode_all_round_trip::<ZewifWallet>(self.wallets@);
        let transactions = transactions_of(self.transactions@);
        assert(items_view(transactions) =~= entry_values(value.transactions));
        lemma_decode_all_round_trip::<Transaction>(transactions);
    }

    /// A container is read back from every document that holds the same
    /// as the one written for it, whatever the order of its assertions:
    /// with the same identifier and export height, the wallets in the
    /// order in which they were added, and the same transactions, each
    /// under its identifier.
    pub proof fn lemma_any_order(&self, found: DocumentView)
        requires
            self.sound(),
            same_content(zewif_encoding(self@), found),
        ensures
            zewif_decoding(found) is Ok,
            zewif_decoding(found)->Ok_0.id == self@.id,
            zewif_decoding(found)->Ok_0.wallets == self@.wallets,
            zewif_decoding(found)->Ok_0.export_height == self@.export_height,
            zewif_decoding(found)->Ok_0.transactions.to_multiset()
                == self@.transactions.to_multiset(),
            distinct_keys(zewif_decoding(found)->Ok_0.transactions),
    {
        broadcast use vstd::seq_lib::group_to_multiset_ensures;

        let written = zewif_encoding(self@);
        let entries = self@.transactions;
        self.lemma_round_trip();
        self.lemma_encoding_objects();
        lemma_queries_any_order(written, found, "Zewif"@);
        lemma_leaf_fields_any_order::<Blob<32>>(written, found, "id"@);
        lemma_leaf_fields_any_order::<BlockHeight>(written, found, "export_height"@);
        lemma_indexed_objects_any_order::<ZewifWallet>(written, found, "wallet"@, self@.wallets);
        lemma_queries_any_order(written, found, "transaction"@);
        lemma_decode_all_any_order::<Transaction>(
            written.objects("transaction"@),
            found.objects("transaction"@),
        );
        let first = entry_values(entries);
        let second = decode_all::<Transaction>(found.objects("transaction"@))->Ok_0;
        let pair = |transaction: TransactionView| (transaction.txid, transaction);
        let key = |transaction: TransactionView| transaction.txid;
        lemma_map_any_order(first, second, pair);
        lemma_map_any_order(first, second, key);
        assert(by_txid(first) =~= entries) by {
            assert forall|i: int| 0 <= i < entries.len() implies by_txid(first)[i] == entries[i] by {
                assert(entries[i].0 == entries[i].1.txid);
            }
        }
        let again = by_txid(second);
        assert(first.map_values(key).no_duplicates()) by {
            assert forall|a: int, b: int|
                0 <= a < first.len() && 0 <= b < first.len() && a != b implies first.map_values(
                key,
            )[a] != first.map_values(key)[b] by {
                if a < b {
                    assert(entries[a].0 != entries[b].0);
                } else {
                    assert(entries[b].0 != entries[a].0);
                }
                assert(entries[a].0 == entries[a].1.txid);
                assert(entries[b].0 == entries[b].1.txid);
            }
        }
        first.map_values(key).lemma_multiset_has_no_duplicates();
        second.map_values(key).lemma_multiset_has_no_duplicates_conv();
        assert(distinct_keys(again)) by {
            assert forall|a: int, b: int| 0 <= a < b < again.len() implies (#[trigger] again[a]).0 != (
            #[trigger] again[b]).0 by {
                assert(second.map_values(key)[a] != second.map_values(key)[b]);
            }
        }
        assert(keyed_by_txid(again));
        assert(by_txid(entry_values(again)) =~= again);
        lemma_insert_all_round_trip(again);
        assert(insert_all(Seq::empty(), again) == again);
    }
}

/// Taking out a key that is not there changes nothing.
pub proof fn lemma_without_absent_key(entries: Seq<(Seq<u8>, TransactionView)>, key: Seq<u8>)
    requires
        forall|i: int| 0 <= i < entries.len() ==> (#[trigger] entries[i]).0 != key,
    ensures
        without_key(entries, key) == entries,
    decreases entries.len(),
{
    if entries.len() > 0 {
        assert(entries.last() == entries[entries.len() - 1]);
        assert forall|i: int| 0 <= i < entries.drop_last().len() implies (
        #[trigger] entries.drop_last()[i]).0 != key by {
            assert(entries[i].0 != key);
        }
        lemma_without_absent_key(entries.drop_last(), key);
        assert(entries.drop_last().push(entries.last()) =~= entries);
    }
}

/// What is left after taking out a key are entries that were there, in
/// the order in which they stood, and none of them under that key.
pub proof fn lemma_without_key(entries: Seq<(Seq<u8>, TransactionView)>, key: Seq<u8>)
    ensures
        forall|i: int|
            0 <= i < without_key(entries, key).len() ==> (#[trigger] without_key(
                entries,
                key,
            )[i]).0 != key && entries.contains(without_key(entries, key)[i]),
        distinct_keys(entries) ==> distinct_keys(without_key(entries, key)),
        keyed_by_txid(entries) ==> keyed_by_txid(without_key(entries, key)),
    decreases entries.len(),
{
    if entries.len() > 0 {
        let before = entries.drop_last();
        let left = without_key(before, key);
        lemma_without_key(before, key);
        assert forall|i: int| 0 <= i < left.len() implies entries.contains(#[trigger] left[i]) by {
            assert(before.contains(left[i]));
            let k = choose|k: int| 0 <= k < before.len() && before[k] == left[i];
            assert(entries[k] == left[i]);
        }
        assert(entries.contains(entries.last())) by {
            assert(entries[entries.len() - 1] == entries.last());
        }
        if distinct_keys(entries) {
            assert forall|i: int, j: int| 0 <= i < j < before.len() implies (
            #[trigger] before[i]).0 != (#[trigger] before[j]).0 by {
                assert(entries[i].0 != entries[j].0);
            }
            let out = without_key(entries, key);
            assert forall|i: int, j: int| 0 <= i < j < out.len() implies (#[trigger] out[i]).0 != (
            #[trigger] out[j]).0 by {
                if j == left.len() {
                    assert(before.contains(left[i]));
                    let k = choose|k: int| 0 <= k < before.len() && before[k] == left[i];
                    assert(entries[k].0 != entries[entries.len() - 1].0);
                } else {
                    assert(left[i].0 != left[j].0);
                }
            }
        }
        if keyed_by_txid(entries) {
            assert forall|i: int| 0 <= i < before.len() implies (#[trigger] before[i]).0
                == before[i].1.txid by {
                assert(entries[i].0 == entries[i].1.txid);
            }
            assert(entries[entries.len() - 1].0 == entries[entries.len() - 1].1.txid);
        }
    }
}

/// Putting a transaction under its own identifier into entries that are
/// in shape leaves entries that are in shape.
pub proof fn lemma_insert_keeps_shape(
    entries: Seq<(Seq<u8>, TransactionView)>,
    key: Seq<u8>,
    transaction: TransactionView,
)
    ensures
        distinct_keys(entries) ==> distinct_keys(insert_keyed(entries, key, transaction)),
        keyed_by_txid(entries) && key == transaction.txid ==> keyed_by_txid(
            insert_keyed(entries, key, transaction),
        ),
{
    lemma_without_key(entries, key);
    let left = without_key(entries, key);
    let out = insert_keyed(entries, key, transaction);
    if distinct_keys(entries) {
        assert forall|i: int, j: int| 0 <= i < j < out.len() implies (#[trigger] out[i]).0 != (
        #[trigger] out[j]).0 by {
            if j < left.len() {
                assert(left[i].0 != left[j].0);
            } else {
                assert(left[i].0 != key);
            }
        }
    }
}

/// Putting transactions that stand under their own, different
/// identifiers into an empty map one after the other gives them back as
/// they stood.
pub proof fn lemma_insert_all_round_trip(entries: Seq<(Seq<u8>, TransactionView)>)
    requires
        distinct_keys(entries),
        keyed_by_txid(entries),
    ensures
        insert_all(Seq::empty(), by_txid(entry_values(entries))) == entries,
    decreases entries.len(),
{
    let pairs = by_txid(entry_values(entries));
    assert(pairs =~= entries) by {
        assert forall|i: int| 0 <= i < entries.len() implies pairs[i] == entries[i] by {
            assert(entries[i].0 == entries[i].1.txid);
        }
    }
    if entries.len() > 0 {
        let before = entries.drop_last();
        assert forall|i: int, j: int| 0 <= i < j < before.len() implies (#[trigger] before[i]).0 != (
        #[trigger] before[j]).0 by {
            assert(entries[i].0 != entries[j].0);
        }
        assert forall|i: int| 0 <= i < before.len() implies (#[trigger] before[i]).0
            == before[i].1.txid by {
            assert(entries[i].0 == entries[i].1.txid);
        }
        lemma_insert_all_round_trip(before);
        assert(by_txid(entry_values(before)) =~= before);
        assert forall|i: int| 0 <= i < before.len() implies (#[trigger] before[i]).0
            != entries.last().0 by {
            assert(entries[i].0 != entries[entries.len() - 1].0);
        }
        lemma_without_absent_key(before, entries.last().0);
        assert(before.push(entries.last()) =~= entries);
    }
}

} // verus!
