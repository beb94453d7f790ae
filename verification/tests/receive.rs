use falcon_protocol::receive::{MappingError, ReceiveMappings, ReceiveMatchMappings, ReceivePacketID};

fn claim(id: i32, versions: &[i32]) -> (i32, Vec<(i32, bool)>) {
    (id, versions.iter().map(|&v| (v, false)).collect())
}

fn names(m: &ReceiveMatchMappings, entry: usize) -> Vec<String> {
    m.mappings[entry].1.versions.iter().map(|(n, _)| n.clone()).collect()
}

#[test]
fn disjoint_versions_share_a_packet_id() {
    let mut m = ReceiveMatchMappings::new();
    assert!(m.add_packet("Handshake".to_string(), (None, vec![claim(0x00, &[47, 107])])).is_ok());
    assert!(m.add_packet("Login".to_string(), (None, vec![claim(0x00, &[340]), claim(0x01, &[47])])).is_ok());
    assert_eq!(2, m.mappings.len());
    assert_eq!(0x00, m.mappings[0].0.packet_id);
    assert_eq!(vec!["Handshake".to_string(), "Login".to_string()], names(&m, 0));
    assert_eq!(0x01, m.mappings[1].0.packet_id);
    assert_eq!(vec!["Login".to_string()], names(&m, 1));
}

#[test]
fn same_pair_is_reported_at_both_claims() {
    let mut m = ReceiveMatchMappings::new();
    m.add_packet("A".to_string(), (None, vec![claim(0x10, &[47, 107])])).unwrap();
    let errors = m.add_packet("B".to_string(), (None, vec![claim(0x10, &[107])])).unwrap_err();
    assert_eq!(
        vec![
            MappingError::SamePair { packet_id: 0x10, version: 107, earlier: true },
            MappingError::SamePair { packet_id: 0x10, version: 107, earlier: false },
        ],
        errors
    );
    // The clash is marked on both claims, and the new claim is kept.
    assert_eq!(vec![(47, false), (107, true)], m.mappings[0].1.versions[0].1);
    assert_eq!(vec![(107, true)], m.mappings[0].1.versions[1].1);
    // A third clash on the same version is reported once more at the new
    // claim only.
    let errors = m.add_packet("C".to_string(), (None, vec![claim(0x10, &[107])])).unwrap_err();
    assert_eq!(vec![MappingError::SamePair { packet_id: 0x10, version: 107, earlier: false }], errors);
}

#[test]
fn id_taken_in_all_versions() {
    let mut m = ReceiveMatchMappings::new();
    m.add_packet("Any".to_string(), (Some((0x20, "Any".to_string())), vec![])).unwrap();
    assert_eq!(Some("Any".to_string()), m.mappings[0].0.exclude);
    let errors = m.add_packet("B".to_string(), (None, vec![claim(0x20, &[47])])).unwrap_err();
    assert_eq!(
        vec![
            MappingError::CapturedForAllVersions { packet_id: 0x20 },
            MappingError::VersionsAssignedToCaptured { packet_id: 0x20 },
        ],
        errors
    );
    assert!(m.mappings[0].1.versions.is_empty());
    let errors = m.add_packet("C".to_string(), (Some((0x20, "C".to_string())), vec![])).unwrap_err();
    assert_eq!(
        vec![
            MappingError::MoreThanOneExclude { packet_id: 0x20, earlier: true },
            MappingError::MoreThanOneExclude { packet_id: 0x20, earlier: false },
        ],
        errors
    );
    let errors = m.add_packet("D".to_string(), (Some((0x20 + 1, "D".to_string())), vec![claim(0x21, &[5])])).unwrap_err();
    assert_eq!(vec![MappingError::IdUsedTwice { packet_id: 0x21 }], errors);
    assert_eq!(2, m.mappings.len());
}

#[test]
fn entries_are_built_by_their_constructors() {
    let id = ReceivePacketID::new(3, Some("X".to_string()));
    assert_eq!(3, id.packet_id);
    assert_eq!(Some("X".to_string()), id.exclude);
    let maps = ReceiveMappings::new(vec![("Y".to_string(), vec![(47, false)])]);
    assert_eq!(1, maps.versions.len());
}

#[test]
fn packets_go_to_the_type_that_claimed_them() {
    let mut m = ReceiveMatchMappings::new();
    m.add_packet("Old".to_string(), (None, vec![claim(0x00, &[47, 107])])).unwrap();
    m.add_packet("New".to_string(), (None, vec![claim(0x00, &[340])])).unwrap();
    m.add_packet("Any".to_string(), (Some((0x05, "Any".to_string())), vec![])).unwrap();
    assert_eq!(Some("Old".to_string()), m.packet_type(0x00, 107));
    assert_eq!(Some("New".to_string()), m.packet_type(0x00, 340));
    assert_eq!(None, m.packet_type(0x00, 5));
    assert_eq!(Some("Any".to_string()), m.packet_type(0x05, 1));
    assert_eq!(Some("Any".to_string()), m.packet_type(0x05, 754));
    assert_eq!(None, m.packet_type(0x06, 47));
}

#[test]
fn every_accepted_claim_is_read_as_its_packet() {
    let mut m = ReceiveMatchMappings::new();
    m.add_packet("Handshake".to_string(), (None, vec![claim(0x00, &[47, 107])])).unwrap();
    m.add_packet("Login".to_string(), (Some((0x02, "Login".to_string())), vec![claim(0x00, &[340]), claim(0x01, &[47, 5])]))
        .unwrap();
    for (id, v, name) in [(0x00, 47, "Handshake"), (0x00, 107, "Handshake"), (0x00, 340, "Login"), (0x01, 47, "Login"), (0x01, 5, "Login")] {
        assert_eq!(Some(name.to_string()), m.packet_type(id, v));
    }
    for v in [0, 47, 340, 9999] {
        assert_eq!(Some("Login".to_string()), m.packet_type(0x02, v));
    }
    assert_eq!(None, m.packet_type(0x01, 107));
}
