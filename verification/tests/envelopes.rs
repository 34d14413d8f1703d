use bc_components::DigestProvider;
use bc_envelope::Envelope;
use zewif::envelope::{
    document_from_envelope, document_to_envelope, from_envelope, to_envelope, EnvelopeDecodeError,
    EnvelopeError,
};
use zewif::sapling::SaplingSentOutput;
use zewif::{
    Address, Amount, Blob, BlockHeight, DecodeFailure, Document, DocumentCodec, Indexed, Leaf,
    Network,
    ProtocolAddress, SproutTree, SproutWitness, Transaction, Value, Zewif, ZewifWallet,
};

fn text(s: &str) -> Document {
    Document::new(Leaf::One(Value::Text(s.to_string())))
}

fn number(n: u64) -> Document {
    Document::new(Leaf::One(Value::Unsigned(n)))
}

fn sorted(mut document: Document) -> Document {
    for assertion in document.assertions.iter_mut() {
        let object = std::mem::replace(&mut assertion.object, number(0));
        assertion.object = sorted(object);
    }
    document.assertions.sort_by_key(|assertion| format!("{:?}", assertion));
    document
}

#[test]
fn a_leaf_becomes_a_leaf_envelope() {
    let envelope = document_to_envelope(&number(42));
    assert!(envelope.is_leaf());
    assert_eq!(envelope.extract_subject::<u64>().unwrap(), 42);
    assert_eq!(envelope.digest(), Envelope::new(42u64).digest());
    let envelope = document_to_envelope(&text("hello"));
    assert_eq!(envelope.extract_subject::<String>().unwrap(), "hello");
    let envelope = document_to_envelope(&Document::new(Leaf::One(Value::Bytes(vec![1, 2, 3]))));
    assert_eq!(envelope.try_byte_string().unwrap(), vec![1, 2, 3]);
    let envelope = document_to_envelope(&Document::new(Leaf::One(Value::Negative(2))));
    assert_eq!(envelope.extract_subject::<i64>().unwrap(), -3);
    let envelope = document_to_envelope(&Document::new(Leaf::One(Value::Null)));
    assert!(envelope.is_null());
    let envelope = document_to_envelope(&Document::new(Leaf::List(vec![Value::Unsigned(1), Value::Null])));
    assert_eq!(envelope.as_array().unwrap().len(), 2);
}

#[test]
fn a_document_becomes_an_envelope_with_type_and_assertions() {
    let document = number(3)
        .add_type("Address")
        .add_assertion("name", text("savings"))
        .add_assertion("address", text("zs1").add_type("SaplingAddress"));
    let envelope = document_to_envelope(&document);
    let expected = Envelope::new(3u64)
        .add_type("Address")
        .add_assertion("name", "savings")
        .add_assertion("address", Envelope::new("zs1").add_type("SaplingAddress"));
    assert_eq!(envelope.digest(), expected.digest());
    assert!(envelope.is_identical_to(&expected));
    assert!(envelope.check_type("Address").is_ok());
    assert_eq!(envelope.extract_object_for_predicate::<String>("name").unwrap(), "savings");
}

#[test]
fn an_envelope_is_read_back_as_the_same_document() {
    let document = number(3)
        .add_type("Address")
        .add_assertion("name", text("savings"))
        .add_assertion("list", Document::new(Leaf::List(vec![Value::Bytes(vec![9]), Value::Null])))
        .add_assertion("address", text("zs1").add_type("SaplingAddress").add_assertion("x", number(1)));
    let envelope = document_to_envelope(&document);
    let read = document_from_envelope(&envelope, 8).unwrap();
    assert_eq!(sorted(read), sorted(document));
}

#[test]
fn envelopes_that_hold_no_document() {
    let nested = number(1).add_assertion("a", number(2).add_assertion("b", number(3)));
    let envelope = document_to_envelope(&nested);
    assert!(document_from_envelope(&envelope, 3).is_ok());
    assert_eq!(document_from_envelope(&envelope, 2), Err(EnvelopeError::TooDeep));
    assert_eq!(document_from_envelope(&envelope, 0), Err(EnvelopeError::TooDeep));
    let wrapped = Envelope::new(1u64).wrap().add_assertion("a", 1u64);
    assert_eq!(document_from_envelope(&wrapped, 8), Err(EnvelopeError::SubjectNotLeaf));
    let truth = Envelope::new(true);
    assert_eq!(document_from_envelope(&truth, 8), Err(EnvelopeError::SubjectNotLeaf));
    let numbered = Envelope::new(1u64).add_assertion(7u64, "x");
    assert_eq!(document_from_envelope(&numbered, 8), Err(EnvelopeError::PredicateNotText));
    let twice = Envelope::new(1u64).add_type("A").add_type("B");
    assert_eq!(document_from_envelope(&twice, 8), Err(EnvelopeError::SeveralTypes));
    let odd_type = Envelope::new(1u64).add_type(5u64);
    assert_eq!(document_from_envelope(&odd_type, 8), Err(EnvelopeError::TypeNotText));
}

#[test]
fn an_address_round_trips_through_an_envelope() {
    let mut address = Address::new(ProtocolAddress::Transparent("t1exampleaddress".to_string()));
    address.set_name("Donation Address".to_string());
    address.set_purpose("Receiving public donations".to_string());
    address.set_index(3);
    let envelope = to_envelope(&address).unwrap();
    assert!(envelope.check_type("Address").is_ok());
    assert_eq!(envelope.extract_subject::<usize>().unwrap(), 3);
    assert_eq!(
        envelope.extract_object_for_predicate::<String>("purpose").unwrap(),
        "Receiving public donations"
    );
    assert_eq!(from_envelope::<Address>(&envelope), Ok(address.clone()));
    let mut plain = Address::new(ProtocolAddress::Sapling("zs1example".to_string()));
    plain.set_name("x".to_string());
    let envelope = to_envelope(&plain).unwrap();
    assert!(envelope.optional_object_for_predicate("purpose").unwrap().is_none());
    assert_eq!(from_envelope::<Address>(&envelope), Ok(plain));
}

#[test]
fn a_sent_output_round_trips_through_an_envelope() {
    for value in [0u64, 5_000_000] {
        let mut output = SaplingSentOutput::new();
        output.set_diversifier(Blob::<11>::default());
        output.set_value(Amount::from_u64(value).unwrap());
        output.set_rcm(Blob::<32>::default());
        let envelope = to_envelope(&output).unwrap();
        assert_eq!(envelope.extract_object_for_predicate::<u64>("value").unwrap(), value);
        assert_eq!(
            envelope.object_for_predicate("diversifier").unwrap().try_byte_string().unwrap(),
            vec![0u8; 11]
        );
        assert_eq!(from_envelope::<SaplingSentOutput>(&envelope), Ok(output));
    }
}

#[test]
fn a_container_round_trips_through_an_envelope() {
    let mut zewif = Zewif::new(BlockHeight::from_u32(2_000_000));
    zewif.add_wallet(ZewifWallet::new(Network::Main));
    zewif.add_wallet(ZewifWallet::new(Network::Test));
    zewif.add_wallet(ZewifWallet::new(Network::Regtest));
    for n in 1..=5u8 {
        let mut transaction = Transaction::new(Blob::new([n; 32]));
        transaction.set_raw(vec![n; 3]);
        zewif.add_transaction(Blob::new([n; 32]), transaction);
    }
    let envelope = to_envelope(&zewif).unwrap();
    assert_eq!(envelope.objects_for_predicate("wallet").len(), 3);
    assert_eq!(envelope.objects_for_predicate("transaction").len(), 5);
    let read = from_envelope::<Zewif>(&envelope).unwrap();
    assert_eq!(read.id(), zewif.id());
    assert_eq!(read.export_height().to_u32(), 2_000_000);
    assert_eq!(read.wallets(), zewif.wallets());
    assert_eq!(read.wallets()[0].index(), 0);
    assert_eq!(read.wallets()[1].index(), 1);
    assert_eq!(read.wallets()[2].network(), Network::Regtest);
    assert_eq!(read.transactions().len(), 5);
    for n in 1..=5u8 {
        assert_eq!(read.get_transaction(Blob::new([n; 32])), zewif.get_transaction(Blob::new([n; 32])));
    }
    assert!(read.is_sound());
}

#[test]
fn a_witness_round_trips_through_an_envelope() {
    let mut tree = SproutTree::new();
    for n in 1..=6u8 {
        tree.append(Blob::new([n; 32])).unwrap();
    }
    assert_eq!(from_envelope::<SproutTree>(&to_envelope(&tree).unwrap()), Ok(tree.clone()));
    let mut witness = SproutWitness::from_tree(tree).unwrap();
    for n in 7..=20u8 {
        witness.append(Blob::new([n; 32])).unwrap();
        let envelope = to_envelope(&witness).unwrap();
        assert!(envelope.check_type("SproutWitness").is_ok());
        assert_eq!(from_envelope::<SproutWitness>(&envelope), Ok(witness.clone()));
    }
}

#[test]
fn an_unsound_entity_is_not_written() {
    let mut zewif = Zewif::new(BlockHeight::from_u32(1));
    zewif.add_transaction(Blob::new([1; 32]), Transaction::new(Blob::new([2; 32])));
    assert!(to_envelope(&zewif).is_none());
}

#[test]
fn failures_of_reading_an_entity() {
    let envelope = Envelope::new(1u64).add_type("Account");
    match from_envelope::<Address>(&envelope) {
        Err(EnvelopeDecodeError::Decode(error)) => {
            assert_eq!(error.failure, DecodeFailure::TypeMismatch);
            assert_eq!(error.path, vec!["Address".to_string()]);
        }
        other => panic!("unexpected: {:?}", other),
    }
    let envelope = Envelope::new(1u64).add_assertion(7u64, "x");
    assert_eq!(
        from_envelope::<Address>(&envelope),
        Err(EnvelopeDecodeError::Shape(EnvelopeError::PredicateNotText))
    );
}
