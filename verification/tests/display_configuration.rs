use cosmic_comp::display_configuration::{
    cleanup_request, display_configuration, ConnectorProbe, ConnectorUse, CurrentEncoder, PlaneUse,
    PropertyChange, PropertyValue, PLANE_TYPE_PRIMARY,
};
use cosmic_comp::drm_helpers::{ObjectProps, PropEntry, PropError, PropInfo, ValueType};

fn probe(handle: u32, connected: bool, current: CurrentEncoder, candidates: &[&[u32]]) -> ConnectorProbe {
    ConnectorProbe {
        handle,
        connected,
        current,
        candidates: candidates.iter().map(|crtcs| crtcs.to_vec()).collect(),
    }
}

fn object(names: &[(&str, u32)]) -> ObjectProps {
    ObjectProps {
        entries: Some(
            names
                .iter()
                .map(|(name, handle)| PropEntry {
                    handle: *handle,
                    value: 0,
                    info: Some(PropInfo {
                        name: Some(name.to_string()),
                        value_type: ValueType::Other,
                    }),
                })
                .collect(),
        ),
    }
}

fn plane_object(kind: u64, names: &[(&str, u32)]) -> ObjectProps {
    let mut props = object(names);
    props.entries.as_mut().unwrap().push(PropEntry {
        handle: 99,
        value: kind,
        info: Some(PropInfo {
            name: Some("type".to_string()),
            value_type: ValueType::Enum { variants: vec![], current: Some(kind) },
        }),
    });
    props
}

const DRIVEN: fn(u32) -> CurrentEncoder = |crtc| CurrentEncoder::DrivenBy(Some(crtc));

#[test]
fn established_mappings_are_kept() {
    let list = vec![
        probe(1, true, DRIVEN(41), &[&[40, 41]]),
        probe(2, true, CurrentEncoder::Detached, &[&[40, 41]]),
        probe(3, true, CurrentEncoder::DrivenBy(None), &[&[40, 41], &[41, 42]]),
        probe(4, false, CurrentEncoder::Detached, &[&[43]]),
        probe(5, true, CurrentEncoder::Detached, &[&[40]]),
    ];
    let (mapping, cleanup) = display_configuration(&list, &list).unwrap();
    assert_eq!(mapping.get(&1), Some(&Some(41)));
    assert_eq!(mapping.get(&2), Some(&Some(40)));
    assert_eq!(mapping.get(&3), Some(&Some(42)));
    assert_eq!(mapping.get(&4), None);
    // Nothing is left for the last one.
    assert_eq!(mapping.get(&5), Some(&None));
    assert_eq!(mapping.len(), 4);
    assert!(cleanup.is_empty());
}

#[test]
fn crtcs_of_unplugged_connectors_are_cleaned_up() {
    let list = vec![
        probe(1, false, DRIVEN(40), &[&[40]]),
        probe(2, true, CurrentEncoder::Detached, &[&[40]]),
    ];
    let (mapping, cleanup) = display_configuration(&list, &list).unwrap();
    assert_eq!(cleanup, vec![40]);
    assert_eq!(mapping.get(&1), None);
    assert_eq!(mapping.get(&2), Some(&Some(40)));
}

#[test]
fn unreadable_encoders_fail_the_configuration() {
    let list = vec![
        probe(1, true, DRIVEN(40), &[]),
        probe(2, true, CurrentEncoder::Unreadable, &[]),
    ];
    assert!(matches!(display_configuration(&list, &list), Err(PropError::Query)));
}

#[test]
fn no_two_connectors_share_a_crtc() {
    let list: Vec<ConnectorProbe> = (0..6)
        .map(|i| probe(i, true, CurrentEncoder::Detached, &[&[40, 41, 42], &[42, 43]]))
        .collect();
    let (mapping, _) = display_configuration(&list, &list).unwrap();
    let crtcs: Vec<Option<u32>> = (0..6).map(|i| mapping[&i]).collect();
    assert_eq!(crtcs, vec![Some(40), Some(41), Some(42), Some(43), None, None]);
}

#[test]
fn cleanup_detaches_and_switches_off() {
    let cleanup = vec![40];
    let connectors = vec![
        ConnectorUse { handle: 1, crtc: Some(40), props: object(&[("CRTC_ID", 11)]) },
        ConnectorUse { handle: 2, crtc: Some(41), props: object(&[("CRTC_ID", 11)]) },
        ConnectorUse { handle: 3, crtc: None, props: object(&[]) },
    ];
    let names = [("CRTC_ID", 21), ("FB_ID", 22)];
    let planes = vec![
        // The primary plane of a CRTC that is switched off, and of one that is not.
        PlaneUse { handle: 5, crtc: Some(Some(40)), props: plane_object(PLANE_TYPE_PRIMARY, &names) },
        PlaneUse { handle: 6, crtc: Some(Some(41)), props: plane_object(PLANE_TYPE_PRIMARY, &names) },
        // An overlay plane, and an unused one.
        PlaneUse { handle: 7, crtc: Some(Some(41)), props: plane_object(0, &names) },
        PlaneUse { handle: 8, crtc: Some(None), props: object(&[]) },
    ];
    let crtcs = vec![object(&[("MODE_ID", 31), ("ACTIVE", 32)])];
    let request = cleanup_request(&cleanup, &connectors, &planes, &crtcs).unwrap();
    let change = |object, property, value| PropertyChange { object, property, value };
    assert_eq!(
        request,
        vec![
            change(1, 11, PropertyValue::NoCrtc),
            change(5, 21, PropertyValue::NoCrtc),
            change(5, 22, PropertyValue::NoFramebuffer),
            change(7, 21, PropertyValue::NoCrtc),
            change(7, 22, PropertyValue::NoFramebuffer),
            change(40, 32, PropertyValue::False),
            change(40, 31, PropertyValue::Zero),
        ]
    );
}

#[test]
fn cleanup_stops_at_the_first_error() {
    let connectors = vec![ConnectorUse { handle: 1, crtc: Some(40), props: object(&[]) }];
    let planes = vec![PlaneUse { handle: 5, crtc: None, props: object(&[]) }];
    let crtcs = vec![object(&[("MODE_ID", 31)])];
    let cleanup = vec![40];
    assert_eq!(
        cleanup_request(&cleanup, &connectors, &planes, &crtcs),
        Err(PropError::Missing)
    );
    assert_eq!(cleanup_request(&cleanup, &vec![], &planes, &crtcs), Err(PropError::Query));
    assert_eq!(cleanup_request(&cleanup, &vec![], &vec![], &crtcs), Err(PropError::Missing));
    let untyped = vec![PlaneUse { handle: 5, crtc: Some(Some(41)), props: object(&[]) }];
    assert_eq!(
        cleanup_request(&vec![], &vec![], &untyped, &vec![]),
        Err(PropError::Missing)
    );
    let headless = vec![PlaneUse { handle: 5, crtc: Some(Some(41)), props: plane_object(0, &[("CRTC_ID", 21)]) }];
    assert_eq!(
        cleanup_request(&vec![], &vec![], &headless, &vec![]),
        Err(PropError::Missing)
    );
    assert_eq!(cleanup_request(&vec![], &vec![], &vec![], &vec![]), Ok(vec![]));
}
