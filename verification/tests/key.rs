use construct_core::store::key::{candidates, decode, display_name, encode, encode_exact, qualify, PREFIX};

#[test]
fn qualifies_a_bare_name_with_the_default_namespace() {
    assert_eq!(qualify("house"), "mystructure:house");
}

#[test]
fn leaves_an_explicit_namespace_alone() {
    assert_eq!(qualify("understudy:players"), "understudy:players");
}

#[test]
fn encodes_the_key_measured_from_a_real_world() {
    // Ssu8ww1SFbM= ("construct show") really contains this key.
    assert_eq!(
        encode("copy"),
        b"structuretemplate_mystructure:copy".to_vec()
    );
}

#[test]
fn round_trips() {
    for name in [
        "house",
        "mystructure:house",
        "understudy:players",
        "a.b-c_1",
    ] {
        assert_eq!(decode(&encode(name)).unwrap(), qualify(name));
    }
}

#[test]
fn decodes_a_real_key() {
    assert_eq!(
        decode(b"structuretemplate_mystructure:copy").unwrap(),
        "mystructure:copy"
    );
}

#[test]
fn rejects_keys_without_the_prefix() {
    assert_eq!(decode(b"AutonomousEntities"), None);
    assert_eq!(decode(b""), None);
    assert_eq!(decode(&[0x00, 0x01, 0x02]), None);
}

#[test]
fn rejects_a_prefixed_key_whose_body_is_not_utf8() {
    let mut k = PREFIX.as_bytes().to_vec();
    k.extend_from_slice(&[0xff, 0xfe]);
    assert_eq!(decode(&k), None);
}

#[test]
fn display_name_strips_only_the_default_namespace() {
    assert_eq!(display_name("mystructure:house"), "house");
    assert_eq!(display_name("understudy:players"), "understudy:players");
}

#[test]
fn an_unqualified_key_is_reachable_by_its_own_name() {
    assert_eq!(encode_exact("foo"), b"structuretemplate_foo".to_vec());
    assert_eq!(
        candidates("foo"),
        vec![
            b"structuretemplate_mystructure:foo".to_vec(),
            b"structuretemplate_foo".to_vec(),
        ]
    );
}

#[test]
fn a_qualified_name_has_exactly_one_candidate() {
    assert_eq!(
        candidates("understudy:players"),
        vec![b"structuretemplate_understudy:players".to_vec()]
    );
}
