use rand::rngs::StdRng;
use rand::{Rng, SeedableRng};
use zewif::codec::encode_checked;
use zewif::sapling::SaplingSentOutput;
use zewif::{
    Address, Amount, Assertion, Blob, BlockHeight, DecodeFailure, Document, DocumentCodec,
    IncrementalMerkleTree, Indexed, Leaf, Network, ProtocolAddress, SproutTree, SproutWitness,
    Transaction, TreeError, TxId, Value, Zewif, ZewifWallet,
};

fn text(s: &str) -> Document {
    Document::new(Leaf::One(Value::Text(s.to_string())))
}

fn number(n: u64) -> Document {
    Document::new(Leaf::One(Value::Unsigned(n)))
}

fn bytes(b: Vec<u8>) -> Document {
    Document::new(Leaf::One(Value::Bytes(b)))
}

fn path(names: &[&str]) -> Vec<String> {
    names.iter().map(|name| name.to_string()).collect()
}

fn without(document: Document, predicate: &str) -> Document {
    let assertions = document.assertions.into_iter().filter(|a| a.predicate != predicate).collect();
    Document { subject: document.subject, type_tag: document.type_tag, assertions }
}

fn reversed(document: Document) -> Document {
    let mut assertions = document.assertions;
    assertions.reverse();
    Document { subject: document.subject, type_tag: document.type_tag, assertions }
}

fn sample_address() -> Address {
    let mut address = Address::new(ProtocolAddress::Transparent("t1exampleaddress".to_string()));
    address.set_name("Donation Address".to_string());
    address.set_purpose("Receiving public donations".to_string());
    address.set_index(3);
    address
}

#[test]
fn a_new_address_has_no_metadata() {
    let address = Address::new(ProtocolAddress::Sapling("zs1example".to_string()));
    assert_eq!(address.index(), 0);
    assert_eq!(address.name(), "");
    assert_eq!(address.purpose(), None);
    assert_eq!(address.as_string(), "zs1example");
    assert_eq!(address.address(), &ProtocolAddress::Sapling("zs1example".to_string()));
}

#[test]
fn address_setters() {
    let mut address = sample_address();
    assert_eq!(address.name(), "Donation Address");
    assert_eq!(address.purpose(), Some("Receiving public donations"));
    assert_eq!(address.index(), 3);
    assert!(address.as_string().starts_with("t1"));
    address.set_address(ProtocolAddress::Unified("u1example".to_string()));
    assert_eq!(address.as_string(), "u1example");
    assert_eq!(address.name(), "Donation Address");
}

#[test]
fn an_address_is_changed_in_place() {
    let mut address = sample_address();
    *address.address_mut() = ProtocolAddress::Sapling("zs1example".to_string());
    assert_eq!(address.address(), &ProtocolAddress::Sapling("zs1example".to_string()));
    assert_eq!(address.name(), "Donation Address");
    assert_eq!(address.index(), 3);
}

#[test]
fn only_sound_entities_are_written() {
    let mut zewif = Zewif::with_id(Blob::new([0; 32]), BlockHeight::from_u32(1));
    zewif.add_wallet(ZewifWallet::new(Network::Main));
    assert!(zewif.is_sound());
    assert_eq!(encode_checked(&zewif), Some(zewif.encode()));
    // A transaction kept under another identifier than its own cannot be found again.
    zewif.add_transaction(Blob::new([1; 32]), Transaction::new(Blob::new([2; 32])));
    assert!(!zewif.is_sound());
    assert_eq!(encode_checked(&zewif), None);
    zewif.set_transactions(vec![(Blob::new([2; 32]), Transaction::new(Blob::new([2; 32])))]);
    assert!(zewif.is_sound());
    assert!(sample_address().is_sound());
    assert!(SaplingSentOutput::new().is_sound());
    let mut tree = SproutTree::new();
    assert!(tree.is_sound());
    tree.append(Blob::new([1; 32])).unwrap();
    assert!(tree.is_sound());
    assert!(SproutWitness::from_tree(tree).unwrap().is_sound());
    assert!(!IncrementalMerkleTree::<0, Blob<32>>::new().is_wf());
}

#[test]
fn address_document() {
    let document = sample_address().encode();
    assert_eq!(
        document,
        Document {
            subject: Leaf::One(Value::Unsigned(3)),
            type_tag: Some("Address".to_string()),
            assertions: vec![
                Assertion {
                    predicate: "address".to_string(),
                    object: text("t1exampleaddress").add_type("TransparentAddress"),
                },
                Assertion { predicate: "name".to_string(), object: text("Donation Address") },
                Assertion {
                    predicate: "purpose".to_string(),
                    object: text("Receiving public donations"),
                },
            ],
        }
    );
}

#[test]
fn address_round_trip() {
    let address = sample_address();
    assert_eq!(Address::decode(&address.encode()), Ok(address.clone()));
    assert_eq!(Address::decode(&reversed(address.encode())), Ok(address));
}

#[test]
fn an_address_without_purpose_omits_the_predicate() {
    let mut address = Address::new(ProtocolAddress::Sapling("zs1example".to_string()));
    address.set_name("savings".to_string());
    let document = address.encode();
    assert!(document.assertions.iter().all(|assertion| assertion.predicate != "purpose"));
    assert_eq!(document.assertions.len(), 2);
    let decoded = Address::decode(&document).unwrap();
    assert_eq!(decoded.purpose(), None);
    assert_eq!(decoded, address);
}

#[test]
fn address_decode_failures() {
    let document = sample_address().encode();
    let wrong_type = Document {
        subject: Leaf::One(Value::Unsigned(3)),
        type_tag: Some("Account".to_string()),
        assertions: vec![],
    };
    let error = Address::decode(&wrong_type).unwrap_err();
    assert_eq!((error.failure, error.path), (DecodeFailure::TypeMismatch, path(&["Address"])));

    let error = Address::decode(&without(sample_address().encode(), "name")).unwrap_err();
    assert_eq!((error.failure, error.path), (DecodeFailure::MissingAssertion, path(&["name"])));

    let error = Address::decode(&without(sample_address().encode(), "address")).unwrap_err();
    assert_eq!((error.failure, error.path), (DecodeFailure::MissingAssertion, path(&["address"])));

    let twice = document.add_assertion("purpose", text("again"));
    let error = Address::decode(&twice).unwrap_err();
    assert_eq!((error.failure, error.path), (DecodeFailure::AmbiguousAssertion, path(&["purpose"])));

    let twice = sample_address().encode().add_assertion("name", text("again"));
    let error = Address::decode(&twice).unwrap_err();
    assert_eq!((error.failure, error.path), (DecodeFailure::AmbiguousAssertion, path(&["name"])));

    let mut bad_subject = sample_address().encode();
    bad_subject.subject = Leaf::One(Value::Text("three".to_string()));
    let error = Address::decode(&bad_subject).unwrap_err();
    assert_eq!((error.failure, error.path), (DecodeFailure::SubjectCoercion, path(&["index"])));

    let nested = without(sample_address().encode(), "address")
        .add_assertion("address", number(5).add_type("SaplingAddress"));
    let error = Address::decode(&nested).unwrap_err();
    assert_eq!(
        (error.failure, error.path),
        (DecodeFailure::SubjectCoercion, path(&["address", "address"]))
    );

    let nested = without(sample_address().encode(), "address")
        .add_assertion("address", text("x").add_type("Nothing"));
    let error = Address::decode(&nested).unwrap_err();
    assert_eq!(
        (error.failure, error.path),
        (DecodeFailure::TypeMismatch, path(&["ProtocolAddress", "address"]))
    );
}

fn sample_output(value: u64) -> SaplingSentOutput {
    let mut output = SaplingSentOutput::new();
    output.set_diversifier(Blob::<11>::default());
    output.set_receipient_public_key(Blob::new([7; 32]));
    output.set_value(Amount::from_u64(value).unwrap());
    output.set_rcm(Blob::<32>::default());
    output
}

#[test]
fn a_new_sent_output_is_all_zero() {
    let output = SaplingSentOutput::new();
    assert_eq!(output.index(), 0);
    assert_eq!(output.diversifier(), &Blob::<11>::default());
    assert_eq!(output.receipient_public_key(), &Blob::<32>::default());
    assert_eq!(output.value(), Amount::zero());
    assert_eq!(output.rcm(), &Blob::<32>::default());
    assert_eq!(SaplingSentOutput::default(), output);
}

#[test]
fn sent_output_document() {
    let document = sample_output(5_000_000).encode();
    assert_eq!(
        document,
        Document {
            subject: Leaf::One(Value::Unsigned(0)),
            type_tag: Some("SaplingSentOutput".to_string()),
            assertions: vec![
                Assertion { predicate: "diversifier".to_string(), object: bytes(vec![0; 11]) },
                Assertion {
                    predicate: "receipient_public_key".to_string(),
                    object: bytes(vec![7; 32]),
                },
                Assertion { predicate: "value".to_string(), object: number(5_000_000) },
                Assertion { predicate: "rcm".to_string(), object: bytes(vec![0; 32]) },
            ],
        }
    );
}

#[test]
fn sent_output_round_trip() {
    let output = sample_output(5_000_000);
    assert_eq!(output.value().to_i64(), 5_000_000);
    assert_eq!(SaplingSentOutput::decode(&output.encode()), Ok(output));
    assert_eq!(SaplingSentOutput::decode(&reversed(output.encode())), Ok(output));
    let nothing = sample_output(0);
    assert_eq!(SaplingSentOutput::decode(&nothing.encode()), Ok(nothing));
    let mut placed = sample_output(1);
    placed.set_index(9);
    assert_eq!(SaplingSentOutput::decode(&placed.encode()).unwrap().index(), 9);
}

#[test]
fn sent_output_decode_failures() {
    let error = SaplingSentOutput::decode(&number(0).add_type("Address")).unwrap_err();
    assert_eq!(
        (error.failure, error.path),
        (DecodeFailure::TypeMismatch, path(&["SaplingSentOutput"]))
    );
    for name in ["diversifier", "receipient_public_key", "value", "rcm"] {
        let error =
            SaplingSentOutput::decode(&without(sample_output(1).encode(), name)).unwrap_err();
        assert_eq!((error.failure, error.path), (DecodeFailure::MissingAssertion, path(&[name])));
    }
    let short = without(sample_output(1).encode(), "diversifier")
        .add_assertion("diversifier", bytes(vec![0; 10]));
    let error = SaplingSentOutput::decode(&short).unwrap_err();
    assert_eq!(
        (error.failure, error.path),
        (DecodeFailure::LengthMismatch { expected: 11, actual: 10 }, path(&["diversifier"]))
    );
    let rich = without(sample_output(1).encode(), "value")
        .add_assertion("value", number(2_100_000_000_000_001));
    let error = SaplingSentOutput::decode(&rich).unwrap_err();
    assert_eq!((error.failure, error.path), (DecodeFailure::OutOfRange, path(&["value"])));
}

fn txid(n: u8) -> TxId {
    Blob::new([n; 32])
}

#[test]
fn transaction_round_trip() {
    let mut transaction = Transaction::new(txid(1));
    assert_eq!(transaction.txid(), txid(1));
    assert_eq!(transaction.raw(), &None);
    assert_eq!(transaction.encode(), bytes(vec![1; 32]).add_type("Transaction"));
    assert_eq!(Transaction::decode(&transaction.encode()), Ok(transaction.duplicate()));
    transaction.set_raw(vec![1, 2, 3]);
    assert_eq!(transaction.raw(), &Some(vec![1, 2, 3]));
    assert_eq!(Transaction::decode(&transaction.encode()), Ok(transaction));
    let error = Transaction::decode(&bytes(vec![1; 31]).add_type("Transaction")).unwrap_err();
    assert_eq!(
        (error.failure, error.path),
        (DecodeFailure::LengthMismatch { expected: 32, actual: 31 }, path(&["txid"]))
    );
}

#[test]
fn wallet_round_trip() {
    let mut wallet = ZewifWallet::new(Network::Test);
    wallet.set_index(4);
    assert_eq!(
        wallet.encode(),
        number(4).add_type("ZewifWallet").add_assertion("network", text("test"))
    );
    assert_eq!(ZewifWallet::decode(&wallet.encode()), Ok(wallet));
}

#[test]
fn a_new_container_is_empty_and_has_its_own_identifier() {
    let first = Zewif::new(BlockHeight::from_u32(2_000_000));
    let second = Zewif::new(BlockHeight::from_u32(2_000_000));
    assert_eq!(first.wallets_len(), 0);
    assert!(first.wallets().is_empty());
    assert!(first.transactions().is_empty());
    assert_eq!(first.export_height(), BlockHeight::from_u32(2_000_000));
    assert_ne!(first.id(), second.id());
    assert_ne!(first.id(), Blob::<32>::default());
    let fixed = Zewif::with_id(txid(9), BlockHeight::from_u32(1));
    assert_eq!(fixed.id(), txid(9));
}

#[test]
fn container_with_two_wallets_round_trips() {
    let mut zewif = Zewif::new(BlockHeight::from_u32(2_000_000));
    zewif.add_wallet(ZewifWallet::new(Network::Main));
    zewif.add_wallet(ZewifWallet::new(Network::Test));
    assert_eq!(zewif.wallets_len(), 2);
    assert_eq!(zewif.wallets()[0].index(), 0);
    assert_eq!(zewif.wallets()[1].index(), 1);
    let decoded = Zewif::decode(&zewif.encode()).unwrap();
    assert_eq!(decoded, zewif);
    assert_eq!(decoded.export_height().to_u32(), 2_000_000);
    assert_eq!(decoded.wallets()[0], ZewifWallet { index: 0, network: Network::Main });
    assert_eq!(decoded.wallets()[1], ZewifWallet { index: 1, network: Network::Test });
    // The order of the assertions does not matter.
    assert_eq!(Zewif::decode(&reversed(zewif.encode())).unwrap().wallets(), zewif.wallets());
}

#[test]
fn container_document() {
    let mut zewif = Zewif::with_id(txid(0xaa), BlockHeight::from_u32(77));
    zewif.add_wallet(ZewifWallet::new(Network::Regtest));
    zewif.add_transaction(txid(1), Transaction::new(txid(1)));
    assert_eq!(
        zewif.encode(),
        bytes(vec![0xaa; 32])
            .add_type("Zewif")
            .add_assertion(
                "wallet",
                number(0).add_type("ZewifWallet").add_assertion("network", text("regtest"))
            )
            .add_assertion("transaction", bytes(vec![1; 32]).add_type("Transaction"))
            .add_assertion("export_height", number(77))
    );
}

#[test]
fn a_transaction_is_kept_once() {
    let mut zewif = Zewif::with_id(txid(0), BlockHeight::from_u32(10));
    let mut first = Transaction::new(txid(1));
    first.set_raw(vec![1]);
    let mut again = Transaction::new(txid(1));
    again.set_raw(vec![2]);
    zewif.add_transaction(txid(1), first);
    zewif.add_transaction(txid(2), Transaction::new(txid(2)));
    zewif.add_transaction(txid(1), again.duplicate());
    assert_eq!(zewif.transactions().len(), 2);
    assert_eq!(zewif.get_transaction(txid(1)), Some(&again));
    assert_eq!(zewif.get_transaction(txid(2)), Some(&Transaction::new(txid(2))));
    assert_eq!(zewif.get_transaction(txid(3)), None);
    assert_eq!(Zewif::decode(&zewif.encode()), Ok(zewif));
}

#[test]
fn set_transactions_keeps_the_later_of_two() {
    let mut zewif = Zewif::with_id(txid(0), BlockHeight::from_u32(10));
    zewif.add_transaction(txid(9), Transaction::new(txid(9)));
    let mut later = Transaction::new(txid(1));
    later.set_raw(vec![5]);
    zewif.set_transactions(vec![
        (txid(1), Transaction::new(txid(1))),
        (txid(2), Transaction::new(txid(2))),
        (txid(1), later.duplicate()),
    ]);
    assert_eq!(zewif.transactions().len(), 2);
    assert_eq!(zewif.get_transaction(txid(9)), None);
    assert_eq!(zewif.get_transaction(txid(1)), Some(&later));
}

#[test]
fn container_decode_failures() {
    let error = Zewif::decode(&bytes(vec![0; 32]).add_type("Wallet")).unwrap_err();
    assert_eq!((error.failure, error.path), (DecodeFailure::TypeMismatch, path(&["Zewif"])));
    let error = Zewif::decode(&bytes(vec![0; 32]).add_type("Zewif")).unwrap_err();
    assert_eq!(
        (error.failure, error.path),
        (DecodeFailure::MissingAssertion, path(&["export_height"]))
    );
    let error = Zewif::decode(&bytes(vec![0; 3]).add_type("Zewif")).unwrap_err();
    assert_eq!(
        (error.failure, error.path),
        (DecodeFailure::LengthMismatch { expected: 32, actual: 3 }, path(&["id"]))
    );
    let broken = bytes(vec![0; 32])
        .add_type("Zewif")
        .add_assertion("wallet", number(0).add_type("ZewifWallet"))
        .add_assertion("export_height", number(1));
    let error = Zewif::decode(&broken).unwrap_err();
    assert_eq!(
        (error.failure, error.path),
        (DecodeFailure::MissingAssertion, path(&["network", "wallet"]))
    );
}

fn leaf(n: u8) -> Blob<32> {
    Blob::new([n; 32])
}

#[test]
fn tree_round_trip() {
    let mut tree = SproutTree::new();
    assert_eq!(SproutTree::decode(&tree.encode()), Ok(tree.clone()));
    for n in 1..=13 {
        tree.append(leaf(n)).unwrap();
        assert_eq!(SproutTree::decode(&tree.encode()), Ok(tree.clone()));
        assert_eq!(SproutTree::decode(&reversed(tree.encode())), Ok(tree.clone()));
    }
    let document = tree.encode();
    assert_eq!(document.subject, Leaf::One(Value::Null));
    assert_eq!(document.type_tag, Some("IncrementalMerkleTree".to_string()));
    assert_eq!(document.assertions.len(), 2);
    assert_eq!(document.assertions[0], Assertion { predicate: "left".to_string(), object: bytes(vec![13; 32]) });
    assert_eq!(document.assertions[1].predicate, "parents");
}

#[test]
fn tree_decode_refuses_parts_that_do_not_fit() {
    type Small = IncrementalMerkleTree<2, Blob<32>>;
    let parents = |entries: Vec<Value>| Document::new(Leaf::List(entries));
    let base = || Document::new(Leaf::One(Value::Null)).add_type("IncrementalMerkleTree");
    let too_many = base()
        .add_assertion("left", bytes(vec![1; 32]))
        .add_assertion("parents", parents(vec![Value::Bytes(vec![2; 32]), Value::Bytes(vec![3; 32])]));
    let error = Small::decode(&too_many).unwrap_err();
    assert_eq!(
        (error.failure, error.path),
        (DecodeFailure::Malformed(TreeError::TooManyParents), path(&["IncrementalMerkleTree"]))
    );
    let right_only = base()
        .add_assertion("right", bytes(vec![1; 32]))
        .add_assertion("parents", parents(vec![]));
    let error = Small::decode(&right_only).unwrap_err();
    assert_eq!(error.failure, DecodeFailure::Malformed(TreeError::RightWithoutLeft));
    let no_parents = base().add_assertion("left", bytes(vec![1; 32]));
    let error = Small::decode(&no_parents).unwrap_err();
    assert_eq!((error.failure, error.path), (DecodeFailure::MissingAssertion, path(&["parents"])));
}

#[test]
fn witness_round_trip() {
    let mut tree = SproutTree::new();
    for n in 1..=3 {
        tree.append(leaf(n)).unwrap();
    }
    let mut witness = SproutWitness::from_tree(tree).unwrap();
    assert_eq!(SproutWitness::decode(&witness.encode()), Ok(witness.clone()));
    for n in 4..=40 {
        witness.append(leaf(n)).unwrap();
        let document = witness.encode();
        assert_eq!(document.type_tag, Some("SproutWitness".to_string()));
        let decoded = SproutWitness::decode(&document).unwrap();
        assert_eq!(decoded, witness);
        assert_eq!(decoded.root(), witness.root());
        assert_eq!(decoded.path(), witness.path());
        assert_eq!(SproutWitness::decode(&reversed(witness.encode())), Ok(witness.clone()));
        let has_cursor = document.assertions.iter().any(|a| a.predicate == "cursor");
        assert_eq!(has_cursor, witness.cursor().is_some());
    }
}

#[test]
fn witness_decode_refuses_parts_that_do_not_fit() {
    let empty = SproutTree::new().encode().add_type("SproutWitness").add_assertion(
        "filled",
        Document::new(Leaf::List(vec![])),
    );
    let error = SproutWitness::decode(&empty).unwrap_err();
    assert_eq!(
        (error.failure, error.path),
        (DecodeFailure::Malformed(TreeError::NoLeaf), path(&["SproutWitness"]))
    );
    let mut tree = SproutTree::new();
    tree.append(leaf(1)).unwrap();
    let stray_cursor = tree
        .encode()
        .add_type("SproutWitness")
        .add_assertion("filled", Document::new(Leaf::List(vec![])))
        .add_assertion("cursor", tree.encode());
    let error = SproutWitness::decode(&stray_cursor).unwrap_err();
    assert_eq!(error.failure, DecodeFailure::Malformed(TreeError::CursorMismatch));
    let error = SproutWitness::decode(&tree.encode()).unwrap_err();
    assert_eq!(
        (error.failure, error.path),
        (DecodeFailure::TypeMismatch, path(&["SproutWitness"]))
    );
    let no_parents = without(tree.encode(), "parents").add_type("SproutWitness");
    let error = SproutWitness::decode(&no_parents).unwrap_err();
    assert_eq!(
        (error.failure, error.path),
        (DecodeFailure::MissingAssertion, path(&["parents", "tree"]))
    );
}

fn random_text(rng: &mut StdRng) -> String {
    let len = rng.gen_range(0..12);
    (0..len).map(|_| rng.gen_range('a'..='z')).collect()
}

fn random_blob<const N: usize>(rng: &mut StdRng) -> Blob<N> {
    let mut data = [0u8; N];
    rng.fill(&mut data[..]);
    Blob::new(data)
}

#[test]
fn generated_values_round_trip() {
    let mut rng = StdRng::seed_from_u64(0x5eed);
    for _ in 0..200 {
        let protocol = match rng.gen_range(0..3) {
            0 => ProtocolAddress::Transparent(random_text(&mut rng)),
            1 => ProtocolAddress::Sapling(random_text(&mut rng)),
            _ => ProtocolAddress::Unified(random_text(&mut rng)),
        };
        let mut address = Address::new(protocol);
        address.set_name(random_text(&mut rng));
        if rng.gen_bool(0.5) {
            address.set_purpose(random_text(&mut rng));
        }
        address.set_index(rng.gen_range(0..1000));
        assert_eq!(Address::decode(&address.encode()), Ok(address));

        let mut output = SaplingSentOutput::new();
        output.set_diversifier(random_blob(&mut rng));
        output.set_receipient_public_key(random_blob(&mut rng));
        output.set_rcm(random_blob(&mut rng));
        output.set_value(Amount::from_i64(rng.gen_range(-2_100_000_000_000_000..=2_100_000_000_000_000)).unwrap());
        output.set_index(rng.gen_range(0..1000));
        assert_eq!(SaplingSentOutput::decode(&output.encode()), Ok(output));

        let mut zewif = Zewif::new(BlockHeight::from_u32(rng.gen()));
        for _ in 0..rng.gen_range(0..5) {
            let network = [Network::Main, Network::Test, Network::Regtest][rng.gen_range(0..3)];
            zewif.add_wallet(ZewifWallet::new(network));
        }
        for _ in 0..rng.gen_range(0..5) {
            let id: TxId = random_blob(&mut rng);
            let mut transaction = Transaction::new(id);
            if rng.gen_bool(0.5) {
                transaction.set_raw(random_text(&mut rng).into_bytes());
            }
            zewif.add_transaction(id, transaction);
        }
        assert_eq!(Zewif::decode(&zewif.encode()), Ok(zewif.clone()));
        assert_eq!(Zewif::decode(&reversed(zewif.encode())).unwrap().wallets(), zewif.wallets());

        let mut tree = SproutTree::new();
        let before = rng.gen_range(1..20);
        for _ in 0..before {
            tree.append(random_blob(&mut rng)).unwrap();
        }
        let mut witness = SproutWitness::from_tree(tree.clone()).unwrap();
        for _ in 0..rng.gen_range(0..20) {
            let next = random_blob(&mut rng);
            tree.append(next).unwrap();
            witness.append(next).unwrap();
        }
        assert_eq!(witness.root(), tree.root());
        assert_eq!(SproutTree::decode(&tree.encode()), Ok(tree));
        assert_eq!(SproutWitness::decode(&witness.encode()), Ok(witness));
    }
}
