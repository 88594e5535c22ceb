//! Which CRTC drives which connector, and what to clean up behind the previous
//! user of the device.
use std::collections::HashMap;

use vstd::prelude::*;

use crate::drm_helpers;
use crate::drm_helpers::{get_prop, get_property_val, ObjectProps, PropError, ValueType};

verus! {

broadcast use vstd::std_specs::hash::group_hash_axioms;

/// No connector is mapped to the CRTC.
pub open spec fn is_free(mapping: Map<u32, Option<u32>>, crtc: u32) -> bool {
    forall|k: u32| #[trigger] mapping.dom().contains(k) ==> mapping[k] != Some(crtc)
}

// ---------------------------------------------------------------------------
// Assignment
// ---------------------------------------------------------------------------

/// The encoder that a connector is attached to.
#[derive(Debug, Clone, Copy, PartialEq, Eq, Structural)]
pub enum CurrentEncoder {
    Detached,
    /// The device could not describe it.
    Unreadable,
    /// The CRTC that drives it, if one does.
    DrivenBy(Option<u32>),
}

/// A connector as the device describes it.
#[derive(Debug)]
pub struct ConnectorProbe {
    pub handle: u32,
    pub connected: bool,
    pub current: CurrentEncoder,
    /// For each encoder that could serve it, the CRTCs that could drive that one.
    pub candidates: Vec<Vec<u32>>,
}

/// The mappings that the previous user of the device left on the first `n`
/// connectors, and the CRTCs that drive connectors with nothing attached. There
/// are none where the device could not describe an encoder.
pub open spec fn established(probes: Seq<ConnectorProbe>, n: nat) -> Option<
    (Map<u32, Option<u32>>, Seq<u32>),
>
    decreases n,
{
    if n == 0 {
        Some((Map::empty(), Seq::empty()))
    } else {
        let probe = probes[n - 1];
        match established(probes, (n - 1) as nat) {
            None => None,
            Some((mapping, cleanup)) => match probe.current {
                CurrentEncoder::Unreadable => None,
                CurrentEncoder::DrivenBy(Some(crtc)) => if probe.connected {
                    Some((mapping.insert(probe.handle, Some(crtc)), cleanup))
                } else {
                    Some((mapping, cleanup.push(crtc)))
                },
                _ => Some((mapping, cleanup)),
            },
        }
    }
}

/// The first free CRTC of a list, from index `i` on.
pub open spec fn first_free(mapping: Map<u32, Option<u32>>, crtcs: Seq<u32>, i: int) -> Option<u32>
    decreases crtcs.len() - i,
{
    if i < 0 || i >= crtcs.len() {
        None
    } else if is_free(mapping, crtcs[i]) {
        Some(crtcs[i])
    } else {
        first_free(mapping, crtcs, i + 1)
    }
}

/// The first free CRTC of a list of lists, from list `i` on.
pub open spec fn first_candidate(
    mapping: Map<u32, Option<u32>>,
    candidates: Seq<Vec<u32>>,
    i: int,
) -> Option<u32>
    decreases candidates.len() - i,
{
    if i < 0 || i >= candidates.len() {
        None
    } else {
        match first_free(mapping, candidates[i]@, 0) {
            Some(crtc) => Some(crtc),
            None => first_candidate(mapping, candidates, i + 1),
        }
    }
}

/// A connector with something attached that has no established mapping.
pub open spec fn needs_crtc(kept: Map<u32, Option<u32>>, probe: ConnectorProbe) -> bool {
    probe.connected && !kept.dom().contains(probe.handle)
}

/// The mapping once each of the first `n` connectors that needs a CRTC has got
/// the first free one, if there was one.
pub open spec fn assigned(
    kept: Map<u32, Option<u32>>,
    probes: Seq<ConnectorProbe>,
    n: nat,
) -> Map<u32, Option<u32>>
    decreases n,
{
    if n == 0 {
        kept
    } else {
        let mapping = assigned(kept, probes, (n - 1) as nat);
        let probe = probes[n - 1];
        if !needs_crtc(kept, probe) {
            mapping
        } else {
            match first_candidate(mapping, probe.candidates@, 0) {
                Some(crtc) => mapping.insert(probe.handle, Some(crtc)),
                None => if mapping.dom().contains(probe.handle) {
                    mapping
                } else {
                    mapping.insert(probe.handle, None)
                },
            }
        }
    }
}

/// Whether some connector is mapped to the CRTC.
fn is_taken(mapping: &HashMap<u32, Option<u32>>, crtc: u32) -> (taken: bool)
    ensures
        taken == !is_free(mapping@, crtc),
{
    let mut taken: bool = false;
    for held in values: mapping.values()
        invariant
            values.seq().unref().to_set() == mapping@.values(),
            taken == exists|j: int|
                0 <= j < values.index() && values.seq().unref()[j] == Some(crtc),
            values.index() == values.seq().len() ==> taken == mapping@.values().contains(Some(crtc)),
    {
        match *held {
            Some(other) => {
                if other == crtc {
                    taken = true;
                }
            },
            None => {},
        }
    }
    taken
}

fn find_free(mapping: &HashMap<u32, Option<u32>>, candidates: &Vec<Vec<u32>>) -> (crtc: Option<u32>)
    ensures
        crtc == first_candidate(mapping@, candidates@, 0),
{
    let mut i: usize = 0;
    while i < candidates.len()
        invariant
            i <= candidates@.len(),
            first_candidate(mapping@, candidates@, 0) == first_candidate(
                mapping@,
                candidates@,
                i as int,
            ),
        decreases candidates@.len() - i,
    {
        let crtcs: &Vec<u32> = &candidates[i];
        let mut j: usize = 0;
        while j < crtcs.len()
            invariant
                    i < candidates@.len(),
                crtcs == candidates@[i as int],
                j <= crtcs@.len(),
                first_candidate(mapping@, candidates@, 0) == first_candidate(
                    mapping@,
                    candidates@,
                    i as int,
                ),
                first_free(mapping@, crtcs@, 0) == first_free(mapping@, crtcs@, j as int),
            decreases crtcs@.len() - j,
        {
            if !is_taken(mapping, crtcs[j]) {
                return Some(crtcs[j]);
            }
            j += 1;
        }
        i += 1;
    }
    None
}

/// The CRTC of each connector to start with, and the CRTCs to switch off.
///
/// `probed` lists the connectors after a fresh probe, and `cached` lists them
/// again without one. Established mappings are kept, which avoids flicker; every
/// other connector with something attached gets the first free CRTC of its
/// encoders, or none.
pub fn display_configuration(
    probed: &Vec<ConnectorProbe>,
    cached: &Vec<ConnectorProbe>,
) -> (configuration: Result<(HashMap<u32, Option<u32>>, Vec<u32>), PropError>)
    ensures
        match established(probed@, probed@.len()) {
            Some((kept, cleanup)) => {
                &&& configuration matches Ok((mapping, crtcs))
                &&& mapping@ == assigned(kept, cached@, cached@.len())
                &&& crtcs@ == cleanup
            },
            None => configuration matches Err(error) && error == PropError::Query,
        },
        configuration is Err <==> exists|i: int|
            0 <= i < probed@.len() && (#[trigger] probed@[i]).current is Unreadable,
        // A connector with something attached stays with the CRTC that drives it.
        configuration matches Ok((mapping, crtcs)) ==> forall|i: int|
            0 <= i < probed@.len() && (#[trigger] probed@[i]).connected && (forall|j: int|
                i < j < probed@.len() ==> (#[trigger] probed@[j]).handle != probed@[i].handle)
                ==> match probed@[i].current {
                CurrentEncoder::DrivenBy(Some(crtc)) => mapping@.contains_pair(
                    probed@[i].handle,
                    Some(crtc),
                ),
                _ => true,
            },
{
    proof {
        lemma_unreadable_encoders_fail(probed@, probed@.len());
        if established(probed@, probed@.len()) is Some {
            assert forall|i: int|
                0 <= i < probed@.len() && (#[trigger] probed@[i]).connected && (forall|j: int|
                    i < j < probed@.len() ==> (#[trigger] probed@[j]).handle != probed@[i].handle)
                implies match probed@[i].current {
                CurrentEncoder::DrivenBy(Some(crtc)) => assigned(
                    (established(probed@, probed@.len())->0).0,
                    cached@,
                    cached@.len(),
                ).contains_pair(probed@[i].handle, Some(crtc)),
                _ => true,
            } by {
                if let CurrentEncoder::DrivenBy(Some(crtc)) = probed@[i].current {
                    lemma_driven_connectors_keep_their_crtc(probed@, cached@, i, crtc);
                }
            }
        }
    }
    let mut mapping: HashMap<u32, Option<u32>> = HashMap::new();
    let mut cleanup: Vec<u32> = Vec::new();
    let mut i: usize = 0;
    while i < probed.len()
        invariant
            i <= probed@.len(),
            established(probed@, i as nat) == Some((mapping@, cleanup@)),
        decreases probed@.len() - i,
    {
        let probe: &ConnectorProbe = &probed[i];
        match probe.current {
            CurrentEncoder::Unreadable => {
                proof {
                    lemma_established_fails(probed@, (i + 1) as nat, probed@.len());
                }
                return Err(PropError::Query);
            },
            CurrentEncoder::DrivenBy(Some(crtc)) => {
                if probe.connected {
                    mapping.insert(probe.handle, Some(crtc));
                } else {
                    cleanup.push(crtc);
                }
            },
            _ => {},
        }
        i += 1;
    }
    let ghost kept = mapping@;
    let mut needs: Vec<bool> = Vec::new();
    i = 0;
    while i < cached.len()
        invariant
            i <= cached@.len(),
            mapping@ == kept,
            needs@.len() == i,
            forall|j: int| 0 <= j < i ==> #[trigger] needs@[j] == needs_crtc(kept, cached@[j]),
        decreases cached@.len() - i,
    {
        let probe: &ConnectorProbe = &cached[i];
        needs.push(probe.connected && !mapping.contains_key(&probe.handle));
        i += 1;
    }
    i = 0;
    while i < cached.len()
        invariant
            i <= cached@.len(),
            needs@.len() == cached@.len(),
            forall|j: int|
                0 <= j < needs@.len() ==> #[trigger] needs@[j] == needs_crtc(kept, cached@[j]),
            mapping@ == assigned(kept, cached@, i as nat),
        decreases cached@.len() - i,
    {
        if needs[i] {
            let probe: &ConnectorProbe = &cached[i];
            match find_free(&mapping, &probe.candidates) {
                Some(crtc) => {
                    mapping.insert(probe.handle, Some(crtc));
                },
                None => {
                    if !mapping.contains_key(&probe.handle) {
                        mapping.insert(probe.handle, None);
                    }
                },
            }
        }
        i += 1;
    }
    Ok((mapping, cleanup))
}

proof fn lemma_established_fails(probes: Seq<ConnectorProbe>, m: nat, n: nat)
    requires
        m <= n,
        established(probes, m) is None,
    ensures
        established(probes, n) is None,
    decreases n,
{
    if m < n {
        lemma_established_fails(probes, m, (n - 1) as nat);
    }
}

/// Established mappings are kept.
pub proof fn lemma_established_is_kept(
    kept: Map<u32, Option<u32>>,
    probes: Seq<ConnectorProbe>,
    n: nat,
    connector: u32,
)
    requires
        n <= probes.len(),
        kept.dom().contains(connector),
    ensures
        assigned(kept, probes, n).dom().contains(connector),
        assigned(kept, probes, n)[connector] == kept[connector],
    decreases n,
{
    if n > 0 {
        lemma_established_is_kept(kept, probes, (n - 1) as nat, connector);
    }
}

proof fn lemma_assigned_grows(
    kept: Map<u32, Option<u32>>,
    probes: Seq<ConnectorProbe>,
    m: nat,
    n: nat,
)
    requires
        m <= n <= probes.len(),
    ensures
        assigned(kept, probes, m).dom().subset_of(assigned(kept, probes, n).dom()),
    decreases n,
{
    if m < n {
        lemma_assigned_grows(kept, probes, m, (n - 1) as nat);
    }
}

/// Every connector with something attached is in the mapping.
pub proof fn lemma_connected_are_mapped(
    kept: Map<u32, Option<u32>>,
    probes: Seq<ConnectorProbe>,
    i: int,
)
    requires
        0 <= i < probes.len(),
        probes[i].connected,
    ensures
        assigned(kept, probes, probes.len()).dom().contains(probes[i].handle),
{
    lemma_assigned_grows(kept, probes, (i + 1) as nat, probes.len());
    if kept.dom().contains(probes[i].handle) {
        lemma_established_is_kept(kept, probes, probes.len(), probes[i].handle);
    }
}

/// No CRTC is mapped to twice.
pub open spec fn is_injective(mapping: Map<u32, Option<u32>>) -> bool {
    forall|j: u32, k: u32|
        #![trigger mapping.dom().contains(j), mapping.dom().contains(k)]
        mapping.dom().contains(j) && mapping.dom().contains(k) && j != k && mapping[j] is Some
            ==> mapping[j] != mapping[k]
}

proof fn lemma_first_free(mapping: Map<u32, Option<u32>>, crtcs: Seq<u32>, i: int)
    requires
        0 <= i,
    ensures
        match first_free(mapping, crtcs, i) {
            Some(crtc) => is_free(mapping, crtc) && crtcs.contains(crtc),
            None => forall|j: int| i <= j < crtcs.len() ==> !is_free(mapping, #[trigger] crtcs[j]),
        },
    decreases crtcs.len() - i,
{
    if i < crtcs.len() {
        lemma_first_free(mapping, crtcs, i + 1);
    }
}

proof fn lemma_first_candidate(mapping: Map<u32, Option<u32>>, candidates: Seq<Vec<u32>>, i: int)
    requires
        0 <= i,
    ensures
        match first_candidate(mapping, candidates, i) {
            Some(crtc) => is_free(mapping, crtc),
            None => forall|j: int, k: int|
                i <= j < candidates.len() && 0 <= k < candidates[j]@.len() ==> !is_free(
                    mapping,
                    #[trigger] candidates[j]@[k],
                ),
        },
    decreases candidates.len() - i,
{
    if i < candidates.len() {
        lemma_first_free(mapping, candidates[i]@, 0);
        lemma_first_candidate(mapping, candidates, i + 1);
    }
}

/// Where the established mappings share no CRTC, no two connectors end up with
/// the same one.
pub proof fn lemma_assignment_is_injective(
    kept: Map<u32, Option<u32>>,
    probes: Seq<ConnectorProbe>,
    n: nat,
)
    requires
        n <= probes.len(),
        is_injective(kept),
    ensures
        is_injective(assigned(kept, probes, n)),
    decreases n,
{
    if n > 0 {
        let less = (n - 1) as nat;
        lemma_assignment_is_injective(kept, probes, less);
        lemma_first_candidate(assigned(kept, probes, less), probes[less as int].candidates@, 0);
    }
}

/// A connector that was given no CRTC had no free candidate. (No connector is
/// listed twice.)
pub proof fn lemma_unmapped_had_no_candidate(
    kept: Map<u32, Option<u32>>,
    probes: Seq<ConnectorProbe>,
    i: int,
    j: int,
    k: int,
)
    requires
        forall|a: int, b: int|
            0 <= a < b < probes.len() ==> (#[trigger] probes[a]).handle != (
            #[trigger] probes[b]).handle,
        0 <= i < probes.len(),
        needs_crtc(kept, probes[i]),
        assigned(kept, probes, probes.len())[probes[i].handle] is None,
        0 <= j < probes[i].candidates@.len(),
        0 <= k < probes[i].candidates@[j]@.len(),
    ensures
        !is_free(assigned(kept, probes, probes.len()), probes[i].candidates@[j]@[k]),
{
    let n = probes.len();
    let then = assigned(kept, probes, i as nat);
    lemma_later_keeps(kept, probes, (i + 1) as nat, n, probes[i].handle);
    lemma_first_candidate(then, probes[i].candidates@, 0);
    let crtc = probes[i].candidates@[j]@[k];
    assert(!is_free(then, crtc));
    let holder = choose|c: u32| #[trigger] then.dom().contains(c) && then[c] == Some(crtc);
    lemma_mapped_are_kept_or_earlier(kept, probes, i as nat, holder);
    if kept.dom().contains(holder) {
        lemma_established_is_kept(kept, probes, n, holder);
        lemma_established_is_kept(kept, probes, i as nat, holder);
    } else {
        lemma_later_keeps(kept, probes, i as nat, n, holder);
    }
    assert(assigned(kept, probes, n).dom().contains(holder));
}

proof fn lemma_mapped_are_kept_or_earlier(
    kept: Map<u32, Option<u32>>,
    probes: Seq<ConnectorProbe>,
    n: nat,
    connector: u32,
)
    requires
        n <= probes.len(),
        assigned(kept, probes, n).dom().contains(connector),
    ensures
        kept.dom().contains(connector) || exists|a: int|
            0 <= a < n && (#[trigger] probes[a]).handle == connector,
    decreases n,
{
    if n > 0 {
        let less = (n - 1) as nat;
        if assigned(kept, probes, less).dom().contains(connector) {
            lemma_mapped_are_kept_or_earlier(kept, probes, less, connector);
        } else {
            assert(probes[less as int].handle == connector);
        }
    }
}

proof fn lemma_later_keeps(
    kept: Map<u32, Option<u32>>,
    probes: Seq<ConnectorProbe>,
    m: nat,
    n: nat,
    connector: u32,
)
    requires
        forall|a: int, b: int|
            0 <= a < b < probes.len() ==> (#[trigger] probes[a]).handle != (
            #[trigger] probes[b]).handle,
        m <= n <= probes.len(),
        exists|a: int| 0 <= a < m && (#[trigger] probes[a]).handle == connector,
        assigned(kept, probes, m).dom().contains(connector),
    ensures
        assigned(kept, probes, n).dom().contains(connector),
        assigned(kept, probes, n)[connector] == assigned(kept, probes, m)[connector],
    decreases n,
{
    if m < n {
        lemma_later_keeps(kept, probes, m, (n - 1) as nat, connector);
        let a = choose|a: int| 0 <= a < m && (#[trigger] probes[a]).handle == connector;
        assert(probes[a].handle != probes[n - 1].handle);
    }
}

// ---------------------------------------------------------------------------
// Cleanup
// ---------------------------------------------------------------------------

/// What a property is set to.
#[derive(Debug, Clone, Copy, PartialEq, Eq, Structural)]
pub enum PropertyValue {
    NoCrtc,
    NoFramebuffer,
    False,
    Zero,
}

/// A change of an atomic request.
#[derive(Debug, Clone, Copy, PartialEq, Eq, Structural)]
pub struct PropertyChange {
    pub object: u32,
    pub property: u32,
    pub value: PropertyValue,
}

/// A connector, with the CRTC that drives it where the device says so.
#[derive(Debug)]
pub struct ConnectorUse {
    pub handle: u32,
    pub crtc: Option<u32>,
    pub props: ObjectProps,
}

/// A plane, with the CRTC that it is shown on. The device may have failed to
/// describe it.
#[derive(Debug)]
pub struct PlaneUse {
    pub handle: u32,
    pub crtc: Option<Option<u32>>,
    pub props: ObjectProps,
}

/// The raw value of the primary plane's type.
pub const PLANE_TYPE_PRIMARY: u64 = 1;

/// The handle of a property, or the error of the search for it.
pub open spec fn prop_handle(props: ObjectProps, name: Seq<char>) -> Result<u32, PropError> {
    match props.lookup(name) {
        drm_helpers::Lookup::Found(i) => Ok(props.entry(i).handle),
        lookup => Err(drm_helpers::lookup_error(lookup)),
    }
}

/// A connector that a CRTC to be switched off drives is detached from it.
pub open spec fn connector_changes(cleanup: Seq<u32>, connector: ConnectorUse) -> Result<
    Seq<PropertyChange>,
    PropError,
> {
    if connector.crtc is Some && cleanup.contains(connector.crtc->0) {
        match prop_handle(connector.props, "CRTC_ID"@) {
            Ok(property) => Ok(
                seq![
                    PropertyChange {
                        object: connector.handle,
                        property,
                        value: PropertyValue::NoCrtc,
                    },
                ],
            ),
            Err(error) => Err(error),
        }
    } else {
        Ok(Seq::empty())
    }
}

/// Whether the plane is a primary plane.
pub open spec fn is_primary(plane: PlaneUse) -> Result<bool, PropError> {
    match plane.props.lookup("type"@) {
        drm_helpers::Lookup::Found(i) => match plane.props.value_type(i) {
            ValueType::Enum { variants, current } => Ok(current == Some(PLANE_TYPE_PRIMARY)),
            _ => Ok(false),
        },
        lookup => Err(drm_helpers::lookup_error(lookup)),
    }
}

/// A plane that is in use is taken down, unless it is the primary plane of a CRTC
/// that stays on.
pub open spec fn plane_changes(cleanup: Seq<u32>, plane: PlaneUse) -> Result<
    Seq<PropertyChange>,
    PropError,
> {
    match plane.crtc {
        None => Err(PropError::Query),
        Some(None) => Ok(Seq::empty()),
        Some(Some(crtc)) => match is_primary(plane) {
            Err(error) => Err(error),
            Ok(primary) => if !cleanup.contains(crtc) && primary {
                Ok(Seq::empty())
            } else {
                match (prop_handle(plane.props, "CRTC_ID"@), prop_handle(plane.props, "FB_ID"@)) {
                    (Ok(crtc_id), Ok(fb_id)) => Ok(
                        seq![
                            PropertyChange {
                                object: plane.handle,
                                property: crtc_id,
                                value: PropertyValue::NoCrtc,
                            },
                            PropertyChange {
                                object: plane.handle,
                                property: fb_id,
                                value: PropertyValue::NoFramebuffer,
                            },
                        ],
                    ),
                    (Err(error), _) => Err(error),
                    (Ok(_), Err(error)) => Err(error),
                }
            },
        },
    }
}

/// A CRTC is switched off.
pub open spec fn crtc_changes(crtc: u32, props: ObjectProps) -> Result<
    Seq<PropertyChange>,
    PropError,
> {
    match (prop_handle(props, "MODE_ID"@), prop_handle(props, "ACTIVE"@)) {
        (Ok(mode_id), Ok(active)) => Ok(
            seq![
                PropertyChange { object: crtc, property: active, value: PropertyValue::False },
                PropertyChange { object: crtc, property: mode_id, value: PropertyValue::Zero },
            ],
        ),
        (Err(error), _) => Err(error),
        (Ok(_), Err(error)) => Err(error),
    }
}

/// The changes of the first `n` parts in their order, or the first error.
pub open spec fn gathered(parts: Seq<Result<Seq<PropertyChange>, PropError>>, n: nat) -> Result<
    Seq<PropertyChange>,
    PropError,
>
    decreases n,
{
    if n == 0 {
        Ok(Seq::empty())
    } else {
        match gathered(parts, (n - 1) as nat) {
            Err(error) => Err(error),
            Ok(changes) => match parts[n - 1] {
                Err(error) => Err(error),
                Ok(more) => Ok(changes + more),
            },
        }
    }
}

/// The parts of the cleanup: connectors, planes, and CRTCs.
pub open spec fn cleanup_parts(
    cleanup: Seq<u32>,
    connectors: Seq<ConnectorUse>,
    planes: Seq<PlaneUse>,
    crtcs: Seq<ObjectProps>,
) -> Seq<Result<Seq<PropertyChange>, PropError>> {
    Seq::new(
        connectors.len() + planes.len() + crtcs.len(),
        |i: int|
            if i < connectors.len() {
                connector_changes(cleanup, connectors[i])
            } else if i < connectors.len() + planes.len() {
                plane_changes(cleanup, planes[i - connectors.len()])
            } else {
                let k = i - connectors.len() - planes.len();
                crtc_changes(cleanup[k], crtcs[k])
            },
    )
}

proof fn lemma_gathered_fails(
    parts: Seq<Result<Seq<PropertyChange>, PropError>>,
    m: nat,
    n: nat,
)
    requires
        m <= n,
        gathered(parts, m) is Err,
    ensures
        gathered(parts, n) == gathered(parts, m),
    decreases n,
{
    if m < n {
        lemma_gathered_fails(parts, m, (n - 1) as nat);
    }
}

fn contains(crtcs: &Vec<u32>, crtc: u32) -> (yes: bool)
    ensures
        yes == crtcs@.contains(crtc),
{
    let mut i: usize = 0;
    while i < crtcs.len()
        invariant
            i <= crtcs@.len(),
            forall|j: int| 0 <= j < i ==> crtcs@[j] != crtc,
        decreases crtcs@.len() - i,
    {
        if crtcs[i] == crtc {
            return true;
        }
        i += 1;
    }
    false
}

fn add_connector(
    cleanup: &Vec<u32>,
    connector: &ConnectorUse,
    request: &mut Vec<PropertyChange>,
) -> (result: Result<(), PropError>)
    ensures
        match connector_changes(cleanup@, *connector) {
            Ok(changes) => result is Ok && final(request)@ == old(request)@ + changes,
            Err(error) => result == Err::<(), PropError>(error),
        },
{
    let off: bool = match connector.crtc {
        Some(crtc) => contains(cleanup, crtc),
        None => false,
    };
    if off {
        let property: u32 = match get_prop(&connector.props, "CRTC_ID") {
            Ok(property) => property,
            Err(error) => {
                return Err(error);
            },
        };
        request.push(
            PropertyChange { object: connector.handle, property, value: PropertyValue::NoCrtc },
        );
    }
    proof {
        assert(request@ =~= old(request)@ + connector_changes(cleanup@, *connector)->Ok_0);
    }
    Ok(())
}

fn add_plane(
    cleanup: &Vec<u32>,
    plane: &PlaneUse,
    request: &mut Vec<PropertyChange>,
) -> (result: Result<(), PropError>)
    ensures
        match plane_changes(cleanup@, *plane) {
            Ok(changes) => result is Ok && final(request)@ == old(request)@ + changes,
            Err(error) => result == Err::<(), PropError>(error),
        },
{
    let used: Option<u32> = match plane.crtc {
        Some(used) => used,
        None => {
            return Err(PropError::Query);
        },
    };
    if let Some(crtc) = used {
        let primary: bool = match get_property_val(&plane.props, "type") {
            Ok((value_type, _)) => match value_type {
                ValueType::Enum { current, .. } => match *current {
                    Some(value) => value == PLANE_TYPE_PRIMARY,
                    None => false,
                },
                _ => false,
            },
            Err(error) => {
                return Err(error);
            },
        };
        if contains(cleanup, crtc) || !primary {
            let crtc_id: u32 = match get_prop(&plane.props, "CRTC_ID") {
                Ok(property) => property,
                Err(error) => {
                    return Err(error);
                },
            };
            let fb_id: u32 = match get_prop(&plane.props, "FB_ID") {
                Ok(property) => property,
                Err(error) => {
                    return Err(error);
                },
            };
            request.push(
                PropertyChange {
                    object: plane.handle,
                    property: crtc_id,
                    value: PropertyValue::NoCrtc,
                },
            );
            request.push(
                PropertyChange {
                    object: plane.handle,
                    property: fb_id,
                    value: PropertyValue::NoFramebuffer,
                },
            );
        }
    }
    proof {
        assert(request@ =~= old(request)@ + plane_changes(cleanup@, *plane)->Ok_0);
    }
    Ok(())
}

fn add_crtc(crtc: u32, props: &ObjectProps, request: &mut Vec<PropertyChange>) -> (result: Result<
    (),
    PropError,
>)
    ensures
        match crtc_changes(crtc, *props) {
            Ok(changes) => result is Ok && final(request)@ == old(request)@ + changes,
            Err(error) => result == Err::<(), PropError>(error),
        },
{
    let mode_id: u32 = match get_prop(props, "MODE_ID") {
        Ok(property) => property,
        Err(error) => {
            return Err(error);
        },
    };
    let active: u32 = match get_prop(props, "ACTIVE") {
        Ok(property) => property,
        Err(error) => {
            return Err(error);
        },
    };
    request.push(PropertyChange { object: crtc, property: active, value: PropertyValue::False });
    request.push(PropertyChange { object: crtc, property: mode_id, value: PropertyValue::Zero });
    proof {
        assert(request@ =~= old(request)@ + crtc_changes(crtc, *props)->Ok_0);
    }
    Ok(())
}

/// The atomic request that cleans up. `crtcs` holds the properties of the CRTCs
/// of `cleanup`, in the same order.
pub fn cleanup_request(
    cleanup: &Vec<u32>,
    connectors: &Vec<ConnectorUse>,
    planes: &Vec<PlaneUse>,
    crtcs: &Vec<ObjectProps>,
) -> (request: Result<Vec<PropertyChange>, PropError>)
    requires
        crtcs@.len() == cleanup@.len(),
    ensures
        ({
            let parts = cleanup_parts(cleanup@, connectors@, planes@, crtcs@);
            match gathered(parts, parts.len()) {
                Ok(changes) => request matches Ok(request) && request@ == changes,
                Err(error) => request matches Err(found) && found == error,
            }
        }),
{
    let mut request: Vec<PropertyChange> = Vec::new();
    let ghost parts = cleanup_parts(cleanup@, connectors@, planes@, crtcs@);
    let mut i: usize = 0;
    while i < connectors.len()
        invariant
            i <= connectors@.len(),
            parts == cleanup_parts(cleanup@, connectors@, planes@, crtcs@),
            gathered(parts, i as nat) == Ok::<Seq<PropertyChange>, PropError>(request@),
        decreases connectors@.len() - i,
    {
        match add_connector(cleanup, &connectors[i], &mut request) {
            Ok(()) => {},
            Err(error) => {
                proof {
                    lemma_gathered_fails(parts, (i + 1) as nat, parts.len());
                }
                return Err(error);
            },
        }
        i += 1;
    }
    i = 0;
    while i < planes.len()
        invariant
            i <= planes@.len(),
            parts == cleanup_parts(cleanup@, connectors@, planes@, crtcs@),
            gathered(parts, (connectors@.len() + i) as nat) == Ok::<
                Seq<PropertyChange>,
                PropError,
            >(request@),
        decreases planes@.len() - i,
    {
        proof {
            assert(parts[connectors@.len() + i] == plane_changes(cleanup@, planes@[i as int]));
        }
        match add_plane(cleanup, &planes[i], &mut request) {
            Ok(()) => {},
            Err(error) => {
                proof {
                    lemma_gathered_fails(
                        parts,
                        (connectors@.len() + i + 1) as nat,
                        parts.len(),
                    );
                }
                return Err(error);
            },
        }
        i += 1;
    }
    i = 0;
    while i < cleanup.len()
        invariant
            i <= cleanup@.len(),
            crtcs@.len() == cleanup@.len(),
            parts == cleanup_parts(cleanup@, connectors@, planes@, crtcs@),
            gathered(parts, (connectors@.len() + planes@.len() + i) as nat) == Ok::<
                Seq<PropertyChange>,
                PropError,
            >(request@),
        decreases cleanup@.len() - i,
    {
        proof {
            assert(parts[connectors@.len() + planes@.len() + i] == crtc_changes(
                cleanup@[i as int],
                crtcs@[i as int],
            ));
        }
        match add_crtc(cleanup[i], &crtcs[i], &mut request) {
            Ok(()) => {},
            Err(error) => {
                proof {
                    lemma_gathered_fails(
                        parts,
                        (connectors@.len() + planes@.len() + i + 1) as nat,
                        parts.len(),
                    );
                }
                return Err(error);
            },
        }
        i += 1;
    }
    Ok(request)
}

proof fn lemma_gathered_contains(
    parts: Seq<Result<Seq<PropertyChange>, PropError>>,
    n: nat,
    i: int,
    change: PropertyChange,
)
    requires
        0 <= i < n <= parts.len(),
        gathered(parts, n) is Ok,
        parts[i] matches Ok(changes) && changes.contains(change),
    ensures
        gathered(parts, n)->Ok_0.contains(change),
    decreases n,
{
    let less = gathered(parts, (n - 1) as nat)->Ok_0;
    let more = parts[n - 1]->Ok_0;
    if i < n - 1 {
        lemma_gathered_contains(parts, (n - 1) as nat, i, change);
        let k = choose|k: int| 0 <= k < less.len() && less[k] == change;
        assert((less + more)[k] == change);
    } else {
        let k = choose|k: int| 0 <= k < more.len() && more[k] == change;
        assert((less + more)[less.len() + k] == change);
    }
}

/// A cleanup that can be put together switches off every CRTC that drives a
/// connector with nothing attached.
pub proof fn lemma_cleanup_switches_off(
    cleanup: Seq<u32>,
    connectors: Seq<ConnectorUse>,
    planes: Seq<PlaneUse>,
    crtcs: Seq<ObjectProps>,
    k: int,
)
    requires
        crtcs.len() == cleanup.len(),
        0 <= k < cleanup.len(),
        ({
            let parts = cleanup_parts(cleanup, connectors, planes, crtcs);
            gathered(parts, parts.len()) is Ok
        }),
    ensures
        ({
            let parts = cleanup_parts(cleanup, connectors, planes, crtcs);
            prop_handle(crtcs[k], "ACTIVE"@) matches Ok(active) && gathered(
                parts,
                parts.len(),
            )->Ok_0.contains(
                (PropertyChange {
                    object: cleanup[k],
                    property: active,
                    value: PropertyValue::False,
                }),
            )
        }),
{
    let parts = cleanup_parts(cleanup, connectors, planes, crtcs);
    let at = connectors.len() + planes.len() + k;
    assert(parts[at] == crtc_changes(cleanup[k], crtcs[k]));
    if parts[at] is Err {
        assert(gathered(parts, (at + 1) as nat) is Err);
        lemma_gathered_fails(parts, (at + 1) as nat, parts.len());
    }
    let change = parts[at]->Ok_0[0];
    lemma_gathered_contains(parts, parts.len(), at as int, change);
}

/// The cleanup leaves the primary planes of CRTCs that stay on alone.
pub proof fn lemma_cleanup_spares_primary(cleanup: Seq<u32>, plane: PlaneUse)
    requires
        plane.crtc matches Some(Some(crtc)) && !cleanup.contains(crtc),
        is_primary(plane) == Ok::<bool, PropError>(true),
    ensures
        plane_changes(cleanup, plane) == Ok::<Seq<PropertyChange>, PropError>(Seq::empty()),
{
}

// ---------------------------------------------------------------------------
// Laws of the assignment
// ---------------------------------------------------------------------------

/// The configuration fails exactly where the device could not describe an encoder.
pub proof fn lemma_unreadable_encoders_fail(probed: Seq<ConnectorProbe>, n: nat)
    requires
        n <= probed.len(),
    ensures
        established(probed, n) is None <==> exists|i: int|
            0 <= i < n && (#[trigger] probed[i]).current is Unreadable,
    decreases n,
{
    if n > 0 {
        lemma_unreadable_encoders_fail(probed, (n - 1) as nat);
        assert(probed[n - 1] == probed[n - 1]);
    }
}

proof fn lemma_driven_are_established(probed: Seq<ConnectorProbe>, n: nat, i: int)
    requires
        0 <= i < n <= probed.len(),
        established(probed, n) is Some,
        probed[i].connected,
        probed[i].current matches CurrentEncoder::DrivenBy(Some(_)),
        forall|j: int| i < j < n ==> (#[trigger] probed[j]).handle != probed[i].handle,
    ensures
        ({
            let kept = (established(probed, n)->0).0;
            &&& kept.dom().contains(probed[i].handle)
            &&& probed[i].current == CurrentEncoder::DrivenBy(kept[probed[i].handle])
        }),
    decreases n,
{
    if i < n - 1 {
        lemma_driven_are_established(probed, (n - 1) as nat, i);
        assert(probed[n - 1].handle != probed[i].handle);
    }
}

/// Each connector with something attached that a CRTC drives stays with that CRTC, however
/// many such connectors there are. (Where a connector is listed more than once, the last
/// entry counts.)
pub proof fn lemma_driven_connectors_keep_their_crtc(
    probed: Seq<ConnectorProbe>,
    cached: Seq<ConnectorProbe>,
    i: int,
    crtc: u32,
)
    requires
        forall|j: int| 0 <= j < probed.len() ==> !((#[trigger] probed[j]).current is Unreadable),
        0 <= i < probed.len(),
        forall|j: int|
            i < j < probed.len() ==> (#[trigger] probed[j]).handle != probed[i].handle,
        probed[i].connected,
        probed[i].current == CurrentEncoder::DrivenBy(Some(crtc)),
    ensures
        established(probed, probed.len()) matches Some((kept, cleanup)) && assigned(
            kept,
            cached,
            cached.len(),
        ).contains_pair(probed[i].handle, Some(crtc)),
{
    lemma_unreadable_encoders_fail(probed, probed.len());
    lemma_driven_are_established(probed, probed.len(), i);
    let kept = (established(probed, probed.len())->0).0;
    lemma_established_is_kept(kept, cached, cached.len(), probed[i].handle);
}

/// Nothing else is established: a connector that stays with a CRTC has something attached
/// and was driven by it.
pub proof fn lemma_established_were_driven(probed: Seq<ConnectorProbe>, n: nat, connector: u32)
    requires
        n <= probed.len(),
        established(probed, n) is Some,
        (established(probed, n)->0).0.dom().contains(connector),
    ensures
        exists|i: int|
            0 <= i < n && (#[trigger] probed[i]).handle == connector && probed[i].connected
                && probed[i].current == CurrentEncoder::DrivenBy(
                (established(probed, n)->0).0[connector],
            ),
        (established(probed, n)->0).0[connector] is Some,
    decreases n,
{
    if n > 0 {
        let less = (established(probed, (n - 1) as nat)->0).0;
        let last = probed[n - 1];
        if !(last.connected && last.handle == connector && (last.current matches
            CurrentEncoder::DrivenBy(Some(_)))) {
            lemma_established_were_driven(probed, (n - 1) as nat, connector);
            let i = choose|i: int|
                0 <= i < n - 1 && (#[trigger] probed[i]).handle == connector && probed[i].connected
                    && probed[i].current == CurrentEncoder::DrivenBy(less[connector]);
            assert(0 <= i < n && probed[i].handle == connector);
        }
    }
}

/// The CRTC that drives a connector with nothing attached.
pub open spec fn idle_crtc(probe: ConnectorProbe) -> Option<u32> {
    match probe.current {
        CurrentEncoder::DrivenBy(crtc) => if probe.connected {
            None
        } else {
            crtc
        },
        _ => None,
    }
}

/// The CRTCs to switch off are those that drive connectors with nothing attached, each as
/// often as it does, in the order of the connectors.
pub proof fn lemma_idle_crtcs_are_cleaned_up(probed: Seq<ConnectorProbe>, n: nat)
    requires
        n <= probed.len(),
        established(probed, n) is Some,
    ensures
        (established(probed, n)->0).1 == probed.take(n as int).filter(
            |probe: ConnectorProbe| idle_crtc(probe) is Some,
        ).map_values(|probe: ConnectorProbe| idle_crtc(probe)->0),
        forall|crtc: u32| #[trigger]
            (established(probed, n)->0).1.contains(crtc) <==> exists|i: int|
                0 <= i < n && !(#[trigger] probed[i]).connected && probed[i].current
                    == CurrentEncoder::DrivenBy(Some(crtc)),
    decreases n,
{
    let idle = |probe: ConnectorProbe| idle_crtc(probe) is Some;
    let driver = |probe: ConnectorProbe| idle_crtc(probe)->0;
    let cleanup = (established(probed, n)->0).1;
    reveal(Seq::filter);
    if n > 0 {
        let less = (n - 1) as nat;
        lemma_idle_crtcs_are_cleaned_up(probed, less);
        let before = (established(probed, less)->0).1;
        assert(probed.take(n as int).drop_last() =~= probed.take(less as int));
        assert(cleanup =~= probed.take(n as int).filter(idle).map_values(driver));
        assert forall|crtc: u32| #[trigger] cleanup.contains(crtc) <==> exists|i: int|
            0 <= i < n && !(#[trigger] probed[i]).connected && probed[i].current
                == CurrentEncoder::DrivenBy(Some(crtc)) by {
            let last = probed[n - 1];
            if idle(last) {
                assert(cleanup == before.push(driver(last)));
                assert(cleanup[before.len() as int] == driver(last));
                if before.contains(crtc) {
                    let k = choose|k: int| 0 <= k < before.len() && before[k] == crtc;
                    assert(cleanup[k] == crtc);
                }
                if cleanup.contains(crtc) && crtc != driver(last) {
                    let k = choose|k: int| 0 <= k < cleanup.len() && cleanup[k] == crtc;
                    assert(before[k] == crtc);
                }
            } else {
                assert(cleanup == before);
            }
            if before.contains(crtc) {
                let i = choose|i: int|
                    0 <= i < less && !(#[trigger] probed[i]).connected && probed[i].current
                        == CurrentEncoder::DrivenBy(Some(crtc));
                assert(0 <= i < n && !probed[i].connected);
            }
        }
    } else {
        assert(cleanup =~= probed.take(0).filter(idle).map_values(driver));
    }
}

/// A connector is in the mapping exactly if its mapping was established or it has
/// something attached.
pub proof fn lemma_mapped_connectors(
    kept: Map<u32, Option<u32>>,
    cached: Seq<ConnectorProbe>,
    connector: u32,
)
    ensures
        assigned(kept, cached, cached.len()).dom().contains(connector) <==> kept.dom().contains(
            connector,
        ) || exists|i: int|
            0 <= i < cached.len() && (#[trigger] cached[i]).handle == connector
                && cached[i].connected,
{
    let n = cached.len();
    if kept.dom().contains(connector) {
        lemma_established_is_kept(kept, cached, n, connector);
    }
    if exists|i: int|
        0 <= i < n && (#[trigger] cached[i]).handle == connector && cached[i].connected {
        let i = choose|i: int|
            0 <= i < n && (#[trigger] cached[i]).handle == connector && cached[i].connected;
        lemma_connected_are_mapped(kept, cached, i);
    }
    lemma_mapped_have_a_reason(kept, cached, n, connector);
}

proof fn lemma_mapped_have_a_reason(
    kept: Map<u32, Option<u32>>,
    cached: Seq<ConnectorProbe>,
    n: nat,
    connector: u32,
)
    requires
        n <= cached.len(),
    ensures
        assigned(kept, cached, n).dom().contains(connector) ==> kept.dom().contains(connector)
            || exists|i: int|
            0 <= i < n && (#[trigger] cached[i]).handle == connector && cached[i].connected,
    decreases n,
{
    if n > 0 {
        let less = (n - 1) as nat;
        lemma_mapped_have_a_reason(kept, cached, less, connector);
        if assigned(kept, cached, n).dom().contains(connector) {
            if assigned(kept, cached, less).dom().contains(connector) {
                if !kept.dom().contains(connector) {
                    let i = choose|i: int|
                        0 <= i < less && (#[trigger] cached[i]).handle == connector
                            && cached[i].connected;
                    assert(0 <= i < n && cached[i].handle == connector);
                }
            } else {
                assert(cached[less as int].handle == connector);
            }
        }
    }
}

/// A CRTC is held by another connector, whose mapping was established or which comes
/// before the one at `i`.
pub open spec fn held_before(
    kept: Map<u32, Option<u32>>,
    cached: Seq<ConnectorProbe>,
    i: int,
    crtc: u32,
) -> bool {
    exists|holder: u32|
        {
            &&& #[trigger] assigned(kept, cached, cached.len()).dom().contains(holder)
            &&& assigned(kept, cached, cached.len())[holder] == Some(crtc)
            &&& holder != cached[i].handle
            &&& kept.dom().contains(holder) || exists|a: int|
                0 <= a < i && (#[trigger] cached[a]).handle == holder
        }
}

proof fn lemma_taken_is_held(
    kept: Map<u32, Option<u32>>,
    cached: Seq<ConnectorProbe>,
    i: int,
    crtc: u32,
)
    requires
        forall|a: int, b: int|
            0 <= a < b < cached.len() ==> (#[trigger] cached[a]).handle != (
            #[trigger] cached[b]).handle,
        0 <= i < cached.len(),
        !kept.dom().contains(cached[i].handle),
        !is_free(assigned(kept, cached, i as nat), crtc),
    ensures
        held_before(kept, cached, i, crtc),
{
    let (n, earlier) = (cached.len(), assigned(kept, cached, i as nat));
    let holder = choose|c: u32| #[trigger] earlier.dom().contains(c) && earlier[c] == Some(crtc);
    lemma_mapped_are_kept_or_earlier(kept, cached, i as nat, holder);
    if kept.dom().contains(holder) {
        lemma_established_is_kept(kept, cached, n, holder);
        lemma_established_is_kept(kept, cached, i as nat, holder);
    } else {
        lemma_later_keeps(kept, cached, i as nat, n, holder);
        let a = choose|a: int| 0 <= a < i && (#[trigger] cached[a]).handle == holder;
        assert(cached[a].handle != cached[i].handle);
    }
    assert(assigned(kept, cached, n).dom().contains(holder));
}

proof fn lemma_first_free_place(mapping: Map<u32, Option<u32>>, crtcs: Seq<u32>, i: int) -> (k:
    int)
    requires
        0 <= i,
        first_free(mapping, crtcs, i) is Some,
    ensures
        i <= k < crtcs.len(),
        first_free(mapping, crtcs, i) == Some(crtcs[k]),
        is_free(mapping, crtcs[k]),
        forall|b: int| i <= b < k ==> !is_free(mapping, #[trigger] crtcs[b]),
    decreases crtcs.len() - i,
{
    if is_free(mapping, crtcs[i]) {
        i
    } else {
        lemma_first_free_place(mapping, crtcs, i + 1)
    }
}

proof fn lemma_first_candidate_place(
    mapping: Map<u32, Option<u32>>,
    candidates: Seq<Vec<u32>>,
    i: int,
) -> (place: (int, int))
    requires
        0 <= i,
        first_candidate(mapping, candidates, i) is Some,
    ensures
        i <= place.0 < candidates.len(),
        0 <= place.1 < candidates[place.0]@.len(),
        first_candidate(mapping, candidates, i) == Some(candidates[place.0]@[place.1]),
        is_free(mapping, candidates[place.0]@[place.1]),
        forall|a: int, b: int|
            i <= a < candidates.len() && 0 <= b < candidates[a]@.len() && (a < place.0 || (a
                == place.0 && b < place.1)) ==> !is_free(mapping, #[trigger] candidates[a]@[b]),
    decreases candidates.len() - i,
{
    lemma_first_free(mapping, candidates[i]@, 0);
    if first_free(mapping, candidates[i]@, 0) is Some {
        (i, lemma_first_free_place(mapping, candidates[i]@, 0))
    } else {
        lemma_first_candidate_place(mapping, candidates, i + 1)
    }
}

/// A connector that was given a CRTC got a candidate of one of its encoders, and all the
/// candidates before it are held by connectors that came first. (No connector is listed
/// twice.)
pub proof fn lemma_first_free_candidate_is_given(
    kept: Map<u32, Option<u32>>,
    cached: Seq<ConnectorProbe>,
    i: int,
)
    requires
        forall|a: int, b: int|
            0 <= a < b < cached.len() ==> (#[trigger] cached[a]).handle != (
            #[trigger] cached[b]).handle,
        0 <= i < cached.len(),
        cached[i].connected,
        !kept.dom().contains(cached[i].handle),
    ensures
        ({
            let candidates = cached[i].candidates@;
            match assigned(kept, cached, cached.len())[cached[i].handle] {
                Some(crtc) => exists|j: int, k: int|
                    {
                        &&& 0 <= j < candidates.len() && 0 <= k < candidates[j]@.len()
                        &&& #[trigger] candidates[j]@[k] == crtc
                        &&& forall|a: int, b: int|
                            0 <= a < candidates.len() && 0 <= b < candidates[a]@.len() && (a < j
                                || (a == j && b < k)) ==> held_before(
                                kept,
                                cached,
                                i,
                                #[trigger] candidates[a]@[b],
                            )
                    },
                None => forall|a: int, b: int|
                    0 <= a < candidates.len() && 0 <= b < candidates[a]@.len() ==> held_before(
                        kept,
                        cached,
                        i,
                        #[trigger] candidates[a]@[b],
                    ),
            }
        }),
{
    let candidates = cached[i].candidates@;
    let earlier = assigned(kept, cached, i as nat);
    let handle = cached[i].handle;
    if earlier.dom().contains(handle) {
        lemma_mapped_are_kept_or_earlier(kept, cached, i as nat, handle);
        let a = choose|a: int| 0 <= a < i && (#[trigger] cached[a]).handle == handle;
        assert(cached[a].handle != cached[i].handle);
    }
    assert(cached[i].handle == handle);
    lemma_later_keeps(kept, cached, (i + 1) as nat, cached.len(), handle);
    lemma_first_candidate(earlier, candidates, 0);
    if first_candidate(earlier, candidates, 0) is Some {
        let place = lemma_first_candidate_place(earlier, candidates, 0);
        let (j, k) = place;
        assert forall|a: int, b: int|
            0 <= a < candidates.len() && 0 <= b < candidates[a]@.len() && (a < j || (a == j && b
                < k)) implies held_before(kept, cached, i, #[trigger] candidates[a]@[b]) by {
            lemma_taken_is_held(kept, cached, i, candidates[a]@[b]);
        }
        assert(candidates[j]@[k] == candidates[j]@[k]);
    } else {
        assert forall|a: int, b: int|
            0 <= a < candidates.len() && 0 <= b < candidates[a]@.len() implies held_before(
            kept,
            cached,
            i,
            #[trigger] candidates[a]@[b],
        ) by {
            lemma_taken_is_held(kept, cached, i, candidates[a]@[b]);
        }
    }
}

// ---------------------------------------------------------------------------
// Laws of the cleanup
// ---------------------------------------------------------------------------

proof fn lemma_gathered_is_complete(parts: Seq<Result<Seq<PropertyChange>, PropError>>, n: nat)
    requires
        n <= parts.len(),
    ensures
        gathered(parts, n) is Ok <==> forall|i: int| 0 <= i < n ==> (#[trigger] parts[i]) is Ok,
    decreases n,
{
    if n > 0 {
        lemma_gathered_is_complete(parts, (n - 1) as nat);
        assert(parts[n - 1] == parts[n - 1]);
    }
}

proof fn lemma_gathered_stems_from_a_part(
    parts: Seq<Result<Seq<PropertyChange>, PropError>>,
    n: nat,
    change: PropertyChange,
) -> (i: int)
    requires
        n <= parts.len(),
        gathered(parts, n) is Ok,
        gathered(parts, n)->Ok_0.contains(change),
    ensures
        0 <= i < n,
        parts[i] matches Ok(changes) && changes.contains(change),
    decreases n,
{
    let less = gathered(parts, (n - 1) as nat)->Ok_0;
    let more = parts[n - 1]->Ok_0;
    let k = choose|k: int| 0 <= k < (less + more).len() && (less + more)[k] == change;
    if n == 0 {
        0
    } else if k < less.len() {
        assert(less[k] == change);
        lemma_gathered_stems_from_a_part(parts, (n - 1) as nat, change)
    } else {
        assert(more[k - less.len()] == change);
        n - 1
    }
}

/// The cleanup can be put together exactly if the device describes all that it needs: the
/// `CRTC_ID` of each connector to detach, the CRTC and type of each plane in use with
/// `CRTC_ID` and `FB_ID` of those to take down, and `MODE_ID` and `ACTIVE` of each CRTC to
/// switch off.
pub proof fn lemma_cleanup_succeeds(
    cleanup: Seq<u32>,
    connectors: Seq<ConnectorUse>,
    planes: Seq<PlaneUse>,
    crtcs: Seq<ObjectProps>,
)
    requires
        crtcs.len() == cleanup.len(),
    ensures
        ({
            let parts = cleanup_parts(cleanup, connectors, planes, crtcs);
            gathered(parts, parts.len()) is Ok <==> {
                &&& forall|i: int|
                    0 <= i < connectors.len() && (#[trigger] connectors[i]).crtc is Some
                        && cleanup.contains(connectors[i].crtc->0) ==> prop_handle(
                        connectors[i].props,
                        "CRTC_ID"@,
                    ) is Ok
                &&& forall|i: int| 0 <= i < planes.len() ==> (#[trigger] planes[i]).crtc is Some
                &&& forall|i: int|
                    0 <= i < planes.len() && (#[trigger] planes[i]).crtc->0 is Some ==> {
                        &&& is_primary(planes[i]) is Ok
                        &&& is_primary(planes[i]) == Ok::<bool, PropError>(true)
                            && !cleanup.contains(planes[i].crtc->0->0) || (prop_handle(
                            planes[i].props,
                            "CRTC_ID"@,
                        ) is Ok && prop_handle(planes[i].props, "FB_ID"@) is Ok)
                    }
                &&& forall|k: int|
                    0 <= k < crtcs.len() ==> prop_handle(#[trigger] crtcs[k], "MODE_ID"@) is Ok
                        && prop_handle(crtcs[k], "ACTIVE"@) is Ok
            }
        }),
{
    let parts = cleanup_parts(cleanup, connectors, planes, crtcs);
    let (c, p) = (connectors.len() as int, planes.len() as int);
    lemma_gathered_is_complete(parts, parts.len());
    assert forall|i: int| 0 <= i < c implies parts[i] == connector_changes(
        cleanup,
        #[trigger] connectors[i],
    ) by {}
    assert forall|i: int| 0 <= i < p implies parts[c + i] == plane_changes(
        cleanup,
        #[trigger] planes[i],
    ) by {}
    assert forall|k: int| 0 <= k < crtcs.len() implies parts[c + p + k] == crtc_changes(
        cleanup[k],
        #[trigger] crtcs[k],
    ) by {}
    if gathered(parts, parts.len()) is Ok {
        assert forall|i: int| 0 <= i < c implies connector_changes(
            cleanup,
            #[trigger] connectors[i],
        ) is Ok by {
            assert(parts[i] is Ok);
        }
        assert forall|i: int| 0 <= i < p implies plane_changes(cleanup, #[trigger] planes[i]) is Ok
        by {
            assert(parts[c + i] is Ok);
        }
        assert forall|k: int| 0 <= k < crtcs.len() implies crtc_changes(
            cleanup[k],
            #[trigger] crtcs[k],
        ) is Ok by {
            assert(parts[c + p + k] is Ok);
        }
    } else {
        let i = choose|i: int| 0 <= i < parts.len() && !((#[trigger] parts[i]) is Ok);
        if i < c {
            assert(parts[i] == connector_changes(cleanup, connectors[i]));
        } else if i < c + p {
            assert(parts[i] == plane_changes(cleanup, planes[i - c]));
        } else {
            assert(parts[i] == crtc_changes(cleanup[i - c - p], crtcs[i - c - p]));
        }
    }
}

/// A cleanup that can be put together detaches every connector that a CRTC to be switched
/// off drives.
pub proof fn lemma_cleanup_detaches_connectors(
    cleanup: Seq<u32>,
    connectors: Seq<ConnectorUse>,
    planes: Seq<PlaneUse>,
    crtcs: Seq<ObjectProps>,
    i: int,
)
    requires
        crtcs.len() == cleanup.len(),
        0 <= i < connectors.len(),
        connectors[i].crtc matches Some(crtc) && cleanup.contains(crtc),
        ({
            let parts = cleanup_parts(cleanup, connectors, planes, crtcs);
            gathered(parts, parts.len()) is Ok
        }),
    ensures
        ({
            let parts = cleanup_parts(cleanup, connectors, planes, crtcs);
            prop_handle(connectors[i].props, "CRTC_ID"@) matches Ok(crtc_id) && gathered(
                parts,
                parts.len(),
            )->Ok_0.contains(
                (PropertyChange {
                    object: connectors[i].handle,
                    property: crtc_id,
                    value: PropertyValue::NoCrtc,
                }),
            )
        }),
{
    let parts = cleanup_parts(cleanup, connectors, planes, crtcs);
    lemma_gathered_is_complete(parts, parts.len());
    assert(parts[i] == connector_changes(cleanup, connectors[i]));
    let change = parts[i]->Ok_0[0];
    lemma_gathered_contains(parts, parts.len(), i, change);
}

/// A cleanup that can be put together takes down every plane in use that is no primary
/// plane or is shown on a CRTC to be switched off: its CRTC and its framebuffer.
pub proof fn lemma_cleanup_takes_planes_down(
    cleanup: Seq<u32>,
    connectors: Seq<ConnectorUse>,
    planes: Seq<PlaneUse>,
    crtcs: Seq<ObjectProps>,
    i: int,
)
    requires
        crtcs.len() == cleanup.len(),
        0 <= i < planes.len(),
        planes[i].crtc matches Some(Some(crtc)) && (cleanup.contains(crtc) || is_primary(
            planes[i],
        ) == Ok::<bool, PropError>(false)),
        ({
            let parts = cleanup_parts(cleanup, connectors, planes, crtcs);
            gathered(parts, parts.len()) is Ok
        }),
    ensures
        ({
            let parts = cleanup_parts(cleanup, connectors, planes, crtcs);
            let request = gathered(parts, parts.len())->Ok_0;
            &&& prop_handle(planes[i].props, "CRTC_ID"@) matches Ok(crtc_id) && request.contains(
                (PropertyChange {
                    object: planes[i].handle,
                    property: crtc_id,
                    value: PropertyValue::NoCrtc,
                }),
            )
            &&& prop_handle(planes[i].props, "FB_ID"@) matches Ok(fb_id) && request.contains(
                (PropertyChange {
                    object: planes[i].handle,
                    property: fb_id,
                    value: PropertyValue::NoFramebuffer,
                }),
            )
        }),
{
    let parts = cleanup_parts(cleanup, connectors, planes, crtcs);
    let at = connectors.len() + i;
    lemma_gathered_is_complete(parts, parts.len());
    assert(parts[at] == plane_changes(cleanup, planes[i]));
    let (off, blank) = (parts[at]->Ok_0[0], parts[at]->Ok_0[1]);
    lemma_gathered_contains(parts, parts.len(), at, off);
    lemma_gathered_contains(parts, parts.len(), at, blank);
}

/// A CRTC that is switched off loses its mode, too.
pub proof fn lemma_cleanup_clears_modes(
    cleanup: Seq<u32>,
    connectors: Seq<ConnectorUse>,
    planes: Seq<PlaneUse>,
    crtcs: Seq<ObjectProps>,
    k: int,
)
    requires
        crtcs.len() == cleanup.len(),
        0 <= k < cleanup.len(),
        ({
            let parts = cleanup_parts(cleanup, connectors, planes, crtcs);
            gathered(parts, parts.len()) is Ok
        }),
    ensures
        ({
            let parts = cleanup_parts(cleanup, connectors, planes, crtcs);
            prop_handle(crtcs[k], "MODE_ID"@) matches Ok(mode_id) && gathered(
                parts,
                parts.len(),
            )->Ok_0.contains(
                (PropertyChange {
                    object: cleanup[k],
                    property: mode_id,
                    value: PropertyValue::Zero,
                }),
            )
        }),
{
    let parts = cleanup_parts(cleanup, connectors, planes, crtcs);
    let at = connectors.len() + planes.len() + k;
    lemma_gathered_is_complete(parts, parts.len());
    assert(parts[at] == crtc_changes(cleanup[k], crtcs[k]));
    let change = parts[at]->Ok_0[1];
    lemma_gathered_contains(parts, parts.len(), at, change);
}

/// The cleanup changes nothing else: each change detaches a connector of a CRTC to be
/// switched off, takes down a plane that is no primary plane or is shown on such a CRTC, or
/// switches such a CRTC off.
pub proof fn lemma_cleanup_touches_nothing_else(
    cleanup: Seq<u32>,
    connectors: Seq<ConnectorUse>,
    planes: Seq<PlaneUse>,
    crtcs: Seq<ObjectProps>,
    change: PropertyChange,
)
    requires
        crtcs.len() == cleanup.len(),
        ({
            let parts = cleanup_parts(cleanup, connectors, planes, crtcs);
            gathered(parts, parts.len()) matches Ok(changes) && changes.contains(change)
        }),
    ensures
        ({
            ||| exists|i: int|
                0 <= i < connectors.len() && (#[trigger] connectors[i]).handle == change.object
                    && connectors[i].crtc is Some && cleanup.contains(connectors[i].crtc->0)
                    && change.value is NoCrtc && prop_handle(connectors[i].props, "CRTC_ID"@)
                    == Ok::<u32, PropError>(change.property)
            ||| exists|i: int|
                {
                    &&& 0 <= i < planes.len()
                    &&& (#[trigger] planes[i]).handle == change.object
                    &&& planes[i].crtc matches Some(Some(crtc)) && (cleanup.contains(crtc)
                        || is_primary(planes[i]) == Ok::<bool, PropError>(false))
                    &&& change.value is NoCrtc && prop_handle(planes[i].props, "CRTC_ID"@) == Ok::<
                        u32,
                        PropError,
                    >(change.property) || change.value is NoFramebuffer && prop_handle(
                        planes[i].props,
                        "FB_ID"@,
                    ) == Ok::<u32, PropError>(change.property)
                }
            ||| exists|k: int|
                {
                    &&& 0 <= k < crtcs.len()
                    &&& cleanup[k] == change.object
                    &&& change.value is False && prop_handle(#[trigger] crtcs[k], "ACTIVE"@)
                        == Ok::<u32, PropError>(change.property) || change.value is Zero
                        && prop_handle(crtcs[k], "MODE_ID"@) == Ok::<u32, PropError>(
                        change.property,
                    )
                }
        }),
{
    let parts = cleanup_parts(cleanup, connectors, planes, crtcs);
    let (c, p) = (connectors.len() as int, planes.len() as int);
    let i = lemma_gathered_stems_from_a_part(parts, parts.len(), change);
    if i < c {
        assert(parts[i] == connector_changes(cleanup, connectors[i]));
        assert(connectors[i].handle == change.object);
    } else if i < c + p {
        assert(parts[i] == plane_changes(cleanup, planes[i - c]));
        assert(planes[i - c].handle == change.object);
    } else {
        assert(parts[i] == crtc_changes(cleanup[i - c - p], crtcs[i - c - p]));
        assert(cleanup[i - c - p] == change.object);
        assert(crtcs[i - c - p] == crtcs[i - c - p]);
    }
}

/// A plane is a primary one exactly if its property `type` is an enum that stands at one.
pub proof fn lemma_primary_planes(plane: PlaneUse, i: int)
    requires
        plane.props.lookup("type"@) == drm_helpers::Lookup::Found(i),
    ensures
        is_primary(plane) is Ok,
        is_primary(plane) == Ok::<bool, PropError>(true) <==> (plane.props.value_type(
            i,
        ) matches ValueType::Enum { current, .. } && current == Some(1u64)),
{
}

/// A CRTC to be switched off drives the connector.
pub open spec fn is_detached(cleanup: Seq<u32>, connector: ConnectorUse) -> bool {
    connector.crtc is Some && cleanup.contains(connector.crtc->0)
}

/// The plane is in use, and is no primary plane or is shown on a CRTC to be switched off.
pub open spec fn is_taken_down(cleanup: Seq<u32>, plane: PlaneUse) -> bool {
    plane.crtc matches Some(Some(crtc)) && (cleanup.contains(crtc) || is_primary(plane) == Ok::<
        bool,
        PropError,
    >(false))
}

proof fn lemma_length_of_connector_changes(
    cleanup: Seq<u32>,
    connectors: Seq<ConnectorUse>,
    planes: Seq<PlaneUse>,
    crtcs: Seq<ObjectProps>,
    n: nat,
)
    requires
        n <= connectors.len(),
        gathered(cleanup_parts(cleanup, connectors, planes, crtcs), n) is Ok,
    ensures
        gathered(cleanup_parts(cleanup, connectors, planes, crtcs), n)->Ok_0.len()
            == connectors.take(n as int).filter(
            |connector: ConnectorUse| is_detached(cleanup, connector),
        ).len(),
    decreases n,
{
    reveal(Seq::filter);
    if n > 0 {
        let parts = cleanup_parts(cleanup, connectors, planes, crtcs);
        lemma_length_of_connector_changes(cleanup, connectors, planes, crtcs, (n - 1) as nat);
        assert(parts[n - 1] == connector_changes(cleanup, connectors[n - 1]));
        assert(connectors.take(n as int).drop_last() =~= connectors.take(n - 1));
    }
}

proof fn lemma_length_of_plane_changes(
    cleanup: Seq<u32>,
    connectors: Seq<ConnectorUse>,
    planes: Seq<PlaneUse>,
    crtcs: Seq<ObjectProps>,
    n: nat,
)
    requires
        n <= planes.len(),
        gathered(
            cleanup_parts(cleanup, connectors, planes, crtcs),
            (connectors.len() + n) as nat,
        ) is Ok,
    ensures
        gathered(
            cleanup_parts(cleanup, connectors, planes, crtcs),
            (connectors.len() + n) as nat,
        )->Ok_0.len() == connectors.filter(
            |connector: ConnectorUse| is_detached(cleanup, connector),
        ).len() + 2 * planes.take(n as int).filter(
            |plane: PlaneUse| is_taken_down(cleanup, plane),
        ).len(),
    decreases n,
{
    reveal(Seq::filter);
    let c = connectors.len();
    if n > 0 {
        let parts = cleanup_parts(cleanup, connectors, planes, crtcs);
        lemma_length_of_plane_changes(cleanup, connectors, planes, crtcs, (n - 1) as nat);
        assert(parts[c + n - 1] == plane_changes(cleanup, planes[n - 1]));
        assert(planes.take(n as int).drop_last() =~= planes.take(n - 1));
    } else {
        lemma_length_of_connector_changes(cleanup, connectors, planes, crtcs, c);
        assert(connectors.take(c as int) =~= connectors);
        assert(planes.take(0).len() == 0);
    }
}

proof fn lemma_length_of_crtc_changes(
    cleanup: Seq<u32>,
    connectors: Seq<ConnectorUse>,
    planes: Seq<PlaneUse>,
    crtcs: Seq<ObjectProps>,
    n: nat,
)
    requires
        n <= crtcs.len(),
        gathered(
            cleanup_parts(cleanup, connectors, planes, crtcs),
            (connectors.len() + planes.len() + n) as nat,
        ) is Ok,
    ensures
        gathered(
            cleanup_parts(cleanup, connectors, planes, crtcs),
            (connectors.len() + planes.len() + n) as nat,
        )->Ok_0.len() == connectors.filter(
            |connector: ConnectorUse| is_detached(cleanup, connector),
        ).len() + 2 * planes.filter(|plane: PlaneUse| is_taken_down(cleanup, plane)).len() + 2 * n,
    decreases n,
{
    let (c, p) = (connectors.len(), planes.len());
    if n > 0 {
        let parts = cleanup_parts(cleanup, connectors, planes, crtcs);
        lemma_length_of_crtc_changes(cleanup, connectors, planes, crtcs, (n - 1) as nat);
        assert(parts[c + p + n - 1] == crtc_changes(cleanup[n - 1], crtcs[n - 1]));
    } else {
        lemma_length_of_plane_changes(cleanup, connectors, planes, crtcs, p);
        assert(planes.take(p as int) =~= planes);
    }
}

/// Nothing is changed twice over: a cleanup takes one change for each connector to detach,
/// and two for each plane to take down and each CRTC to switch off.
pub proof fn lemma_cleanup_is_minimal(
    cleanup: Seq<u32>,
    connectors: Seq<ConnectorUse>,
    planes: Seq<PlaneUse>,
    crtcs: Seq<ObjectProps>,
)
    requires
        crtcs.len() == cleanup.len(),
        ({
            let parts = cleanup_parts(cleanup, connectors, planes, crtcs);
            gathered(parts, parts.len()) is Ok
        }),
    ensures
        ({
            let parts = cleanup_parts(cleanup, connectors, planes, crtcs);
            gathered(parts, parts.len())->Ok_0.len() == connectors.filter(
                |connector: ConnectorUse| is_detached(cleanup, connector),
            ).len() + 2 * planes.filter(
                |plane: PlaneUse| is_taken_down(cleanup, plane),
            ).len() + 2 * cleanup.len()
        }),
{
    lemma_length_of_crtc_changes(cleanup, connectors, planes, crtcs, crtcs.len());
}

} // verus!
