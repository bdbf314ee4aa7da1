use openmobisim_core::ids::{
    EntityId, EntityKind, ExternalIdTableBuilder, LinkId, MAX_ID, NULL_ID, NodeId,
};

#[test]
fn null_is_the_sentinel_and_nothing_else() {
    assert!(LinkId::null().is_null());
    assert_eq!(LinkId::null().raw(), NULL_ID);
    assert!(!LinkId::new(0).is_null());
    assert!(!LinkId::new(MAX_ID).is_null());
    assert_eq!(LinkId::null().to_option(), None);
    assert_eq!(LinkId::new(7).to_option(), Some(LinkId::new(7)));
}

#[test]
fn from_raw_round_trips_including_null() {
    for raw in [0u32, 1, 12_345, MAX_ID, NULL_ID] {
        assert_eq!(LinkId::from_raw(raw).raw(), raw);
    }
}

#[test]
fn kinds_carry_their_type() {
    assert_eq!(NodeId::kind(), EntityKind::Node);
    assert_eq!(LinkId::kind(), EntityKind::Link);
}

#[test]
fn entity_kind_discriminants_are_stable() {
    let expected = [
        (EntityKind::Node, 0u8, "node"),
        (EntityKind::Link, 1, "link"),
        (EntityKind::Turn, 2, "turn"),
        (EntityKind::Layer, 3, "layer"),
        (EntityKind::AccessPoint, 4, "access_point"),
        (EntityKind::Hub, 5, "hub"),
        (EntityKind::Resource, 6, "resource"),
        (EntityKind::Zone, 7, "zone"),
        (EntityKind::Path, 8, "path"),
        (EntityKind::Traveller, 9, "traveller"),
        (EntityKind::Trip, 10, "trip"),
        (EntityKind::Vehicle, 11, "vehicle"),
        (EntityKind::TransitRun, 12, "transit_run"),
        (EntityKind::UserClass, 13, "user_class"),
    ];
    assert_eq!(expected.len(), EntityKind::all().len());
    for (kind, discriminant, name) in expected {
        assert_eq!(kind as u8, discriminant, "discriminant of {name} changed");
        assert_eq!(kind.discriminant(), discriminant, "number of {name} changed");
        assert_eq!(kind.as_str(), name, "output name of {name} changed");
        assert_eq!(EntityKind::from_u8(discriminant), Some(kind));
    }
    assert_eq!(EntityKind::from_u8(200), None);
}

#[test]
fn iter_space_is_dense_and_ordered() {
    let ids: Vec<u32> = LinkId::iter_space(5).into_iter().map(EntityId::raw).collect();
    assert_eq!(ids, [0, 1, 2, 3, 4]);
}

#[test]
fn external_ids_are_assigned_by_sorted_order() {
    let mut b = ExternalIdTableBuilder::new();
    for name in ["way/9", "way/1", "way/33", "way/1"] {
        b.insert(name);
    }
    let table = b.build();

    assert_eq!(table.len(), 3);
    // Bytewise sort, so "way/1" < "way/33" < "way/9".
    assert_eq!(table.iter(), ["way/1", "way/33", "way/9"]);
    assert_eq!(table.id_of("way/33"), Some(1));
    assert_eq!(table.id_of("way/404"), None);
    assert_eq!(table.typed_id_of::<NodeId>("way/9"), Some(NodeId::new(2)));
    assert_eq!(table.external_of(NodeId::null()), None);
}

#[test]
fn assignment_does_not_depend_on_insertion_order() {
    let names = ["c", "a", "d", "b"];

    let mut forwards = ExternalIdTableBuilder::new();
    forwards.extend(&names);
    let a = forwards.build();

    let mut backwards = ExternalIdTableBuilder::new();
    let reversed: Vec<&str> = names.iter().rev().copied().collect();
    backwards.extend(&reversed);
    let b = backwards.build();

    assert_eq!(a.iter(), b.iter());
}

#[test]
fn the_documented_example_assigns_by_rank() {
    let mut b = ExternalIdTableBuilder::new();
    b.insert("way/77");
    b.insert("way/12");
    b.insert("way/77");
    assert_eq!(b.offered(), 3);
    let table = b.build();
    assert_eq!(table.len(), 2);
    assert_eq!(table.count(), 2);
    assert!(!table.is_empty());
    assert_eq!(table.external(0), "way/12");
    assert_eq!(table.id_of("way/77"), Some(1));
    assert_eq!(table.typed_id_of::<NodeId>("way/77"), Some(NodeId::new(1)));
    assert_eq!(table.external_of(NodeId::new(1)), Some("way/77"));
    assert_eq!(table.external_of(NodeId::new(2)), None);
    assert_eq!(table.id_of("way/99"), None);
}

#[test]
fn every_inserted_name_round_trips_through_the_table() {
    let names: Vec<String> = (0..300u32).map(|i| format!("n/{}", (i * 7919) % 211)).collect();
    let refs: Vec<&str> = names.iter().map(String::as_str).collect();
    let mut builder = ExternalIdTableBuilder::with_capacity(refs.len());
    builder.extend(&refs);
    let table = builder.build();
    let mut sorted = names.clone();
    sorted.sort_unstable();
    sorted.dedup();
    assert_eq!(table.len(), sorted.len());
    for (expected_id, name) in sorted.iter().enumerate() {
        let id = table.id_of(name).expect("inserted name must be found");
        assert_eq!(id as usize, expected_id);
        assert_eq!(table.external(id), name.as_str());
    }
}

#[test]
fn multibyte_names_sort_by_their_bytes() {
    let mut b = ExternalIdTableBuilder::new();
    for name in ["zeta", "Ärger", "apple", "ábc", "Zoo"] {
        b.insert(name);
    }
    let table = b.build();
    let mut expected = vec!["zeta", "Ärger", "apple", "ábc", "Zoo"];
    expected.sort_unstable();
    assert_eq!(table.iter(), expected);
}

#[test]
fn ids_display_null_as_null() {
    assert_eq!(LinkId::null().to_string(), "null");
    assert_eq!(LinkId::new(42).to_string(), "42");
    assert_eq!(format!("{:?}", LinkId::new(3)), "LinkId(3)");
}

#[test]
fn index_and_from_index_are_inverse() {
    for raw in [0u32, 1, 77, MAX_ID] {
        let id = LinkId::new(raw);
        assert_eq!(LinkId::from_index(id.index()), id);
        assert_eq!(id.index(), raw as usize);
    }
}
