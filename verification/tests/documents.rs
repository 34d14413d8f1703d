use zewif::codec::{
    extract_object_for_predicate, extract_optional_object_for_predicate, extract_subject,
    try_object_for_predicate, try_objects_for_predicate, try_optional_object_for_predicate,
};
use zewif::indexed::{indexed_objects_for_predicate, set_indexes, sort_by_index};
use zewif::{
    Amount, Assertion, Blob, BlockHeight, DecodeFailure, Document, DocumentCodec, Indexed, Leaf,
    LeafCodec, Network, Position, ProtocolAddress, ReceiverType, Value, ZewifWallet,
};

fn text(s: &str) -> Document {
    Document::new(Leaf::One(Value::Text(s.to_string())))
}

fn number(n: u64) -> Document {
    Document::new(Leaf::One(Value::Unsigned(n)))
}

fn path(names: &[&str]) -> Vec<String> {
    names.iter().map(|name| name.to_string()).collect()
}

#[test]
fn building_a_document() {
    let document = number(7).add_type("Thing").add_assertion("a", text("x")).add_assertion("b", number(1));
    assert_eq!(document.subject, Leaf::One(Value::Unsigned(7)));
    assert_eq!(document.type_tag, Some("Thing".to_string()));
    assert_eq!(
        document.assertions,
        vec![
            Assertion { predicate: "a".to_string(), object: text("x") },
            Assertion { predicate: "b".to_string(), object: number(1) },
        ]
    );
    assert_eq!(document.subject(), &Leaf::One(Value::Unsigned(7)));
}

#[test]
fn an_absent_optional_object_leaves_no_trace() {
    let with = number(1).add_optional_assertion("note", Some(text("x")));
    let without = number(1).add_optional_assertion("note", None);
    assert_eq!(with.assertions.len(), 1);
    assert_eq!(without, number(1));
    assert!(without.assertions.is_empty());
    assert!(without.objects_for_predicate("note").is_empty());
    assert_eq!(without.optional_object_for_predicate("note"), Ok(None));
    assert_eq!(with.optional_object_for_predicate("note"), Ok(Some(&text("x"))));
}

#[test]
fn type_tags_are_compared_exactly() {
    let document = number(1).add_type("Address");
    assert_eq!(document.check_type("Address"), Ok(()));
    assert_eq!(document.check_type("address"), Err(DecodeFailure::TypeMismatch));
    assert_eq!(document.check_type("Addres"), Err(DecodeFailure::TypeMismatch));
    assert_eq!(number(1).check_type("Address"), Err(DecodeFailure::TypeMismatch));
}

#[test]
fn required_predicates_occur_exactly_once() {
    let document = number(1)
        .add_assertion("one", text("a"))
        .add_assertion("two", text("b"))
        .add_assertion("two", text("c"));
    assert_eq!(document.object_for_predicate("one"), Ok(&text("a")));
    assert_eq!(document.object_for_predicate("none"), Err(DecodeFailure::MissingAssertion));
    assert_eq!(document.object_for_predicate("two"), Err(DecodeFailure::AmbiguousAssertion));
    assert_eq!(document.optional_object_for_predicate("two"), Err(DecodeFailure::AmbiguousAssertion));
    assert_eq!(document.objects_for_predicate("two"), vec![&text("b"), &text("c")]);
}

#[test]
fn failures_name_the_field() {
    let document = number(1).add_assertion("height", text("tall")).add_assertion("twice", number(1)).add_assertion("twice", number(2));
    let error = extract_object_for_predicate::<u64>(&document, "height").unwrap_err();
    assert_eq!(error.failure, DecodeFailure::SubjectCoercion);
    assert_eq!(error.path, path(&["height"]));
    let error = extract_object_for_predicate::<u64>(&document, "width").unwrap_err();
    assert_eq!(error.failure, DecodeFailure::MissingAssertion);
    assert_eq!(error.path, path(&["width"]));
    let error = extract_optional_object_for_predicate::<u64>(&document, "twice").unwrap_err();
    assert_eq!(error.failure, DecodeFailure::AmbiguousAssertion);
    assert_eq!(error.path, path(&["twice"]));
    let error = extract_subject::<String>(&document, "name").unwrap_err();
    assert_eq!(error.failure, DecodeFailure::SubjectCoercion);
    assert_eq!(error.path, path(&["name"]));
    assert_eq!(extract_subject::<u64>(&document, "index").unwrap(), 1);
    assert_eq!(extract_optional_object_for_predicate::<u64>(&document, "width"), Ok(None));
}

#[test]
fn nested_failures_leave_a_trail() {
    let wallet = number(0).add_type("ZewifWallet").add_assertion("network", text("moon"));
    let document = number(0).add_assertion("wallet", wallet);
    let error = try_object_for_predicate::<ZewifWallet>(&document, "wallet").unwrap_err();
    assert_eq!(error.failure, DecodeFailure::UnknownName);
    assert_eq!(error.path, path(&["network", "wallet"]));
    let error = try_optional_object_for_predicate::<ZewifWallet>(&document, "wallet").unwrap_err();
    assert_eq!(error.path, path(&["network", "wallet"]));
    let error = try_objects_for_predicate::<ZewifWallet>(&document, "wallet").unwrap_err();
    assert_eq!(error.path, path(&["network", "wallet"]));
    let error = indexed_objects_for_predicate::<ZewifWallet>(&document, "wallet").unwrap_err();
    assert_eq!(error.path, path(&["network", "wallet"]));
    assert_eq!(try_optional_object_for_predicate::<ZewifWallet>(&document, "other"), Ok(None));
    assert_eq!(try_objects_for_predicate::<ZewifWallet>(&document, "other"), Ok(vec![]));
}

#[test]
fn numbers_as_leaves() {
    assert_eq!(7u64.to_leaf(), Leaf::One(Value::Unsigned(7)));
    assert_eq!(u64::from_leaf(&Leaf::One(Value::Unsigned(u64::MAX))), Ok(u64::MAX));
    assert_eq!(u32::from_leaf(&Leaf::One(Value::Unsigned(4294967295))), Ok(u32::MAX));
    assert_eq!(u32::from_leaf(&Leaf::One(Value::Unsigned(4294967296))), Err(DecodeFailure::OutOfRange));
    assert_eq!(usize::from_leaf(&9usize.to_leaf()), Ok(9));
    assert_eq!(u64::from_leaf(&Leaf::One(Value::Negative(0))), Err(DecodeFailure::SubjectCoercion));
    assert_eq!(u64::from_leaf(&Leaf::List(vec![])), Err(DecodeFailure::SubjectCoercion));
    assert_eq!(String::from_leaf(&"abc".to_string().to_leaf()), Ok("abc".to_string()));
    assert_eq!(String::from_leaf(&Leaf::One(Value::Null)), Err(DecodeFailure::SubjectCoercion));
    assert_eq!(Vec::<u8>::from_leaf(&vec![1u8, 2].to_leaf()), Ok(vec![1u8, 2]));
}

#[test]
fn fixed_width_values_as_leaves() {
    let blob = Blob::<4>::new([1, 2, 3, 4]);
    assert_eq!(blob.to_leaf(), Leaf::One(Value::Bytes(vec![1, 2, 3, 4])));
    assert_eq!(Blob::<4>::from_leaf(&blob.to_leaf()), Ok(blob));
    assert_eq!(
        Blob::<5>::from_leaf(&blob.to_leaf()),
        Err(DecodeFailure::LengthMismatch { expected: 5, actual: 4 })
    );
    assert_eq!(
        Blob::<4>::from_leaf(&Leaf::One(Value::Text("01020304".to_string()))),
        Err(DecodeFailure::SubjectCoercion)
    );
}

#[test]
fn positions_and_heights_as_leaves() {
    let position = Position::from_u32(123456);
    assert_eq!(position.to_u32(), 123456);
    assert_eq!(position.to_leaf(), Leaf::One(Value::Unsigned(123456)));
    assert_eq!(Position::from_leaf(&position.to_leaf()), Ok(position));
    assert_eq!(Position::from_leaf(&Leaf::One(Value::Unsigned(1 << 32))), Err(DecodeFailure::OutOfRange));
    assert_eq!(Position::from_leaf(&Leaf::One(Value::Text("1".to_string()))), Err(DecodeFailure::SubjectCoercion));
    assert_eq!(Position::default(), Position::from_u32(0));
    assert_eq!(Position::from_usize(70000).to_u32(), 70000);
    assert_eq!(Position::from(7u32), Position::from_u32(7));
    assert_eq!(u32::from(Position::from_u32(7)), 7);
    let height = BlockHeight::from_u32(2_000_000);
    assert_eq!(height.to_u32(), 2_000_000);
    assert_eq!(BlockHeight::from_leaf(&height.to_leaf()), Ok(height));
    assert_eq!(BlockHeight::from_leaf(&Leaf::One(Value::Unsigned(1 << 40))), Err(DecodeFailure::OutOfRange));
}

#[test]
fn amounts_as_leaves() {
    let amount = Amount::from_u64(5_000_000).unwrap();
    assert_eq!(amount.to_i64(), 5_000_000);
    assert_eq!(amount.to_leaf(), Leaf::One(Value::Unsigned(5_000_000)));
    assert_eq!(Amount::from_leaf(&amount.to_leaf()), Ok(amount));
    assert_eq!(Amount::zero().to_leaf(), Leaf::One(Value::Unsigned(0)));
    assert_eq!(Amount::from_leaf(&Amount::zero().to_leaf()), Ok(Amount::zero()));
    let debt = Amount::from_i64(-3).unwrap();
    assert_eq!(debt.to_leaf(), Leaf::One(Value::Negative(2)));
    assert_eq!(Amount::from_leaf(&debt.to_leaf()), Ok(debt));
    let most = Amount::from_u64(2_100_000_000_000_000).unwrap();
    assert_eq!(Amount::from_leaf(&most.to_leaf()), Ok(most));
    let least = Amount::from_i64(-2_100_000_000_000_000).unwrap();
    assert_eq!(least.to_leaf(), Leaf::One(Value::Negative(2_099_999_999_999_999)));
    assert_eq!(Amount::from_leaf(&least.to_leaf()), Ok(least));
    assert_eq!(Amount::from_u64(2_100_000_000_000_001), Err(DecodeFailure::OutOfRange));
    assert_eq!(Amount::from_i64(-2_100_000_000_000_001), Err(DecodeFailure::OutOfRange));
    assert_eq!(
        Amount::from_leaf(&Leaf::One(Value::Unsigned(2_100_000_000_000_001))),
        Err(DecodeFailure::OutOfRange)
    );
    assert_eq!(
        Amount::from_leaf(&Leaf::One(Value::Negative(2_100_000_000_000_000))),
        Err(DecodeFailure::OutOfRange)
    );
    assert_eq!(Amount::from_leaf(&Leaf::One(Value::Null)), Err(DecodeFailure::SubjectCoercion));
}

#[test]
fn receiver_types_as_leaves() {
    let kinds = [ReceiverType::P2PKH, ReceiverType::P2SH, ReceiverType::Sapling, ReceiverType::Orchard];
    let names = ["P2PKH", "P2SH", "Sapling", "Orchard"];
    for (kind, name) in kinds.iter().zip(names) {
        assert_eq!(kind.name(), name);
        assert_eq!(ReceiverType::from_name(name), Ok(*kind));
        assert_eq!(kind.to_leaf(), Leaf::One(Value::Text(name.to_string())));
        assert_eq!(ReceiverType::from_leaf(&kind.to_leaf()), Ok(*kind));
    }
    assert_eq!(ReceiverType::from_name("sapling"), Err(DecodeFailure::UnknownName));
    assert_eq!(ReceiverType::from_name(""), Err(DecodeFailure::UnknownName));
    assert_eq!(ReceiverType::from_leaf(&Leaf::One(Value::Unsigned(2))), Err(DecodeFailure::SubjectCoercion));
}

#[test]
fn networks_as_leaves() {
    for (network, name) in [(Network::Main, "main"), (Network::Test, "test"), (Network::Regtest, "regtest")] {
        assert_eq!(network.to_leaf(), Leaf::One(Value::Text(name.to_string())));
        assert_eq!(Network::from_leaf(&network.to_leaf()), Ok(network));
    }
    assert_eq!(Network::from_leaf(&Leaf::One(Value::Text("Main".to_string()))), Err(DecodeFailure::UnknownName));
}

#[test]
fn lists_of_nodes_as_leaves() {
    let a = Blob::<32>::new([1; 32]);
    let b = Blob::<32>::new([2; 32]);
    let filled = vec![a, b];
    assert_eq!(
        filled.to_leaf(),
        Leaf::List(vec![Value::Bytes(vec![1; 32]), Value::Bytes(vec![2; 32])])
    );
    assert_eq!(Vec::<Blob<32>>::from_leaf(&filled.to_leaf()), Ok(filled));
    let parents = vec![Some(a), None, Some(b)];
    assert_eq!(
        parents.to_leaf(),
        Leaf::List(vec![Value::Bytes(vec![1; 32]), Value::Null, Value::Bytes(vec![2; 32])])
    );
    assert_eq!(Vec::<Option<Blob<32>>>::from_leaf(&parents.to_leaf()), Ok(parents.clone()));
    assert_eq!(Vec::<Blob<32>>::from_leaf(&parents.to_leaf()), Err(DecodeFailure::SubjectCoercion));
    assert_eq!(
        Vec::<Option<Blob<32>>>::from_leaf(&Leaf::List(vec![Value::Null, Value::Bytes(vec![1; 31])])),
        Err(DecodeFailure::LengthMismatch { expected: 32, actual: 31 })
    );
    assert_eq!(
        Vec::<Blob<32>>::from_leaf(&Leaf::List(vec![Value::Unsigned(1), Value::Bytes(vec![1; 3])])),
        Err(DecodeFailure::SubjectCoercion)
    );
    assert_eq!(Vec::<Blob<32>>::from_leaf(&Leaf::One(Value::Null)), Err(DecodeFailure::SubjectCoercion));
    assert_eq!(Vec::<Blob<32>>::from_leaf(&Leaf::List(vec![])), Ok(vec![]));
}

#[test]
fn sorting_by_index_is_stable() {
    let wallet = |index: usize, network: Network| ZewifWallet { index, network };
    let shuffled = vec![
        wallet(2, Network::Main),
        wallet(0, Network::Test),
        wallet(2, Network::Regtest),
        wallet(1, Network::Main),
        wallet(0, Network::Main),
    ];
    assert_eq!(
        sort_by_index(shuffled),
        vec![
            wallet(0, Network::Test),
            wallet(0, Network::Main),
            wallet(1, Network::Main),
            wallet(2, Network::Main),
            wallet(2, Network::Regtest),
        ]
    );
    assert_eq!(sort_by_index(Vec::<ZewifWallet>::new()), vec![]);
    assert_eq!(sort_by_index(vec![wallet(5, Network::Main)]), vec![wallet(5, Network::Main)]);
}

#[test]
fn set_indexes_numbers_the_entries() {
    let wallets = vec![ZewifWallet::new(Network::Main), ZewifWallet::new(Network::Test), ZewifWallet::new(Network::Main)];
    let placed = set_indexes(wallets);
    let indexes: Vec<usize> = placed.iter().map(|wallet| wallet.index()).collect();
    assert_eq!(indexes, vec![0, 1, 2]);
    assert_eq!(placed[1].network(), Network::Test);
}

#[test]
fn children_are_read_back_in_the_order_of_their_positions() {
    for count in 0..6usize {
        let networks = [Network::Main, Network::Test, Network::Regtest];
        let wallets: Vec<ZewifWallet> =
            (0..count).map(|i| ZewifWallet { index: i, network: networks[i % 3] }).collect();
        // The assertions stand in an order that has nothing to do with the positions.
        let mut order: Vec<usize> = (0..count).collect();
        order.reverse();
        order.rotate_left(count / 2);
        let mut document = text("container");
        for i in order {
            document = document.add_assertion("noise", number(i as u64));
            document = document.add_assertion("wallet", wallets[i].encode());
        }
        assert_eq!(indexed_objects_for_predicate::<ZewifWallet>(&document, "wallet"), Ok(wallets));
    }
}

#[test]
fn protocol_addresses_choose_their_type_tag() {
    let cases = [
        (ProtocolAddress::Transparent("t1abc".to_string()), "TransparentAddress"),
        (ProtocolAddress::Sapling("zs1abc".to_string()), "SaplingAddress"),
        (ProtocolAddress::Unified("u1abc".to_string()), "UnifiedAddress"),
    ];
    for (address, tag) in cases {
        let document = address.encode();
        assert_eq!(document.type_tag, Some(tag.to_string()));
        assert_eq!(document.subject, Leaf::One(Value::Text(address.as_string())));
        assert_eq!(ProtocolAddress::decode(&document), Ok(address.duplicate()));
    }
    let error = ProtocolAddress::decode(&text("t1abc").add_type("OrchardAddress")).unwrap_err();
    assert_eq!(error.failure, DecodeFailure::TypeMismatch);
    assert_eq!(error.path, path(&["ProtocolAddress"]));
    let error = ProtocolAddress::decode(&text("t1abc")).unwrap_err();
    assert_eq!(error.failure, DecodeFailure::TypeMismatch);
    let error = ProtocolAddress::decode(&number(1).add_type("SaplingAddress")).unwrap_err();
    assert_eq!(error.failure, DecodeFailure::SubjectCoercion);
    assert_eq!(error.path, path(&["address"]));
}
