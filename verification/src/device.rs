//! hidraw access: which nodes belong to the panel, and the reports written
//! to them.

use vstd::prelude::*;

use std::path::PathBuf;
use std::time::Duration;

use crate::protocol::{FRAME_PACKET_SIZE, PRODUCT_ID, VENDOR_ID};
use crate::text::{chars_of, hex_u32, parse_hex_u32};

verus! {

#[verifier::external_type_specification]
#[verifier::external_body]
pub struct ExPathBuf(std::path::PathBuf);

#[verifier::external_type_specification]
#[verifier::external_body]
pub struct ExIoError(std::io::Error);

/// `PathBuf::clone`: the copy names the same path.
pub assume_specification[ <std::path::PathBuf as Clone>::clone ](path: &PathBuf) -> (copy: PathBuf)
    ensures
        copy == *path,
;

/// The largest report the panel takes, plus the report-ID byte hidraw expects.
pub const MAX_REPORT_SIZE: usize = FRAME_PACKET_SIZE + 1;

/// What can go wrong with the panel's hidraw nodes.
#[derive(Debug)]
pub enum DeviceError {
    /// The panel, or this interface of it, is not there.
    NotFound(u8),
    /// The node exists but cannot be opened, usually for want of the udev rule.
    Open { path: PathBuf, source: std::io::Error },
    /// The panel did not answer within this time.
    Timeout(Duration),
    /// A read or write failed.
    Io(std::io::Error),
}

/// One hidraw node belonging to the panel.
#[derive(Debug)]
pub struct HidrawNode {
    pub path: PathBuf,
    pub interface: u8,
}

/// A hidraw node as listed under /sys/class/hidraw, with the identity of the
/// USB interface it belongs to.
pub struct HidrawCandidate {
    pub path: PathBuf,
    pub vendor: u32,
    pub product: u32,
    pub interface: u8,
}

/// The vendor and product ids, and the interface number (its low byte), of
/// a USB interface whose `idVendor`, `idProduct` and `bInterfaceNumber`
/// files read as given (trimmed), each in hexadecimal.
pub open spec fn usb_identity_of(vendor: Seq<char>, product: Seq<char>, interface: Seq<char>) -> Option<
    (u32, u32, u8),
> {
    match (parse_hex_u32(vendor), parse_hex_u32(product), parse_hex_u32(interface)) {
        (Some(v), Some(p), Some(i)) => Some((v, p, (i % 256) as u8)),
        _ => None,
    }
}

/// Reads the identity of a USB interface from the trimmed contents of its
/// `idVendor`, `idProduct` and `bInterfaceNumber` files.
pub fn usb_identity(vendor: &str, product: &str, interface: &str) -> (identity: Option<(u32, u32, u8)>)
    ensures
        identity == usb_identity_of(vendor@, product@, interface@),
{
    let vendor_chars = chars_of(vendor);
    let v = hex_u32(vendor_chars.as_slice())?;
    let product_chars = chars_of(product);
    let p = hex_u32(product_chars.as_slice())?;
    let interface_chars = chars_of(interface);
    let i = hex_u32(interface_chars.as_slice())?;
    Some((v, p, (i % 256) as u8))
}

/// A node of the panel: its USB device is the panel's.
pub open spec fn is_panel(candidate: HidrawCandidate) -> bool {
    candidate.vendor == VENDOR_ID as u32 && candidate.product == PRODUCT_ID as u32
}

/// The panel's nodes among `candidates` whose interface is `interface`, in order.
pub open spec fn panel_nodes_at(candidates: Seq<HidrawCandidate>, interface: int) -> Seq<HidrawNode>
    decreases candidates.len(),
{
    if candidates.len() == 0 {
        Seq::empty()
    } else {
        let last = candidates.last();
        panel_nodes_at(candidates.drop_last(), interface) + if is_panel(last) && last.interface
            == interface {
            seq![HidrawNode { path: last.path, interface: last.interface }]
        } else {
            Seq::empty()
        }
    }
}

/// The panel's nodes with an interface below `limit`, interface after
/// interface, in listing order within one interface.
pub open spec fn panel_nodes_below(candidates: Seq<HidrawCandidate>, limit: int) -> Seq<HidrawNode>
    decreases limit,
{
    if limit <= 0 {
        Seq::empty()
    } else {
        panel_nodes_below(candidates, limit - 1) + panel_nodes_at(candidates, limit - 1)
    }
}

/// The panel's nodes among `candidates`, sorted by interface, those of one
/// interface in the order they were listed.
pub open spec fn panel_nodes(candidates: Seq<HidrawCandidate>) -> Seq<HidrawNode> {
    panel_nodes_below(candidates, 256)
}

proof fn lemma_nodes_at(candidates: Seq<HidrawCandidate>, interface: int)
    ensures
        forall|i: int|
            0 <= i < panel_nodes_at(candidates, interface).len() ==> (#[trigger] panel_nodes_at(
                candidates,
                interface,
            )[i]).interface == interface,
    decreases candidates.len(),
{
    if candidates.len() > 0 {
        lemma_nodes_at(candidates.drop_last(), interface);
        let before = panel_nodes_at(candidates.drop_last(), interface);
        let all = panel_nodes_at(candidates, interface);
        assert forall|i: int| 0 <= i < all.len() implies (#[trigger] all[i]).interface
            == interface by {
            if i < before.len() {
                assert(all[i] == before[i]);
            }
        }
    }
}

proof fn lemma_nodes_below(candidates: Seq<HidrawCandidate>, limit: int)
    ensures
        forall|i: int|
            0 <= i < panel_nodes_below(candidates, limit).len() ==> (#[trigger] panel_nodes_below(
                candidates,
                limit,
            )[i]).interface < limit,
        forall|i: int, j: int|
            0 <= i < j < panel_nodes_below(candidates, limit).len() ==> (#[trigger] panel_nodes_below(
                candidates,
                limit,
            )[i]).interface <= (#[trigger] panel_nodes_below(candidates, limit)[j]).interface,
    decreases limit,
{
    if limit > 0 {
        lemma_nodes_below(candidates, limit - 1);
        lemma_nodes_at(candidates, limit - 1);
        let before = panel_nodes_below(candidates, limit - 1);
        let added = panel_nodes_at(candidates, limit - 1);
        let all = before + added;
        assert forall|i: int| 0 <= i < all.len() implies (#[trigger] all[i]).interface < limit by {
            if i >= before.len() {
                assert(all[i] == added[i - before.len()]);
            } else {
                assert(all[i] == before[i]);
            }
        }
        assert forall|i: int, j: int| 0 <= i < j < all.len() implies (#[trigger] all[i]).interface
            <= (#[trigger] all[j]).interface by {
            if j < before.len() {
                assert(all[i] == before[i] && all[j] == before[j]);
            } else if i >= before.len() {
                assert(all[i] == added[i - before.len()] && all[j] == added[j - before.len()]);
            } else {
                assert(all[i] == before[i] && all[j] == added[j - before.len()]);
            }
        }
    }
}

/// The panel's nodes come sorted by interface: interface 0 (commands)
/// before interface 1 (frames).
pub proof fn lemma_panel_nodes_sorted(candidates: Seq<HidrawCandidate>)
    ensures
        forall|i: int, j: int|
            0 <= i < j < panel_nodes(candidates).len() ==> (#[trigger] panel_nodes(
                candidates,
            )[i]).interface <= (#[trigger] panel_nodes(candidates)[j]).interface,
{
    lemma_nodes_below(candidates, 256);
}

/// The panel's nodes among the hidraw nodes listed, sorted by interface.
pub fn select_panel_nodes(candidates: &[HidrawCandidate]) -> (nodes: Vec<HidrawNode>)
    ensures
        nodes@ == panel_nodes(candidates@),
{
    let mut nodes: Vec<HidrawNode> = Vec::new();
    let mut interface: u32 = 0;
    while interface < 256
        invariant
            interface <= 256,
            nodes@ == panel_nodes_below(candidates@, interface as int),
        decreases 256 - interface,
    {
        let ghost before = nodes@;
        let mut i: usize = 0;
        while i < candidates.len()
            invariant
                interface < 256,
                i <= candidates@.len(),
                nodes@ == before + panel_nodes_at(candidates@.take(i as int), interface as int),
            decreases candidates@.len() - i,
        {
            assert(candidates@.take(i + 1).drop_last() =~= candidates@.take(i as int));
            let candidate = &candidates[i];
            let ghost prior = nodes@;
            if candidate.vendor == VENDOR_ID as u32 && candidate.product == PRODUCT_ID as u32
                && candidate.interface as u32 == interface {
                let node = HidrawNode { path: candidate.path.clone(), interface: candidate.interface };
                nodes.push(node);
                assert(nodes@ =~= prior.push(node));
            }
            assert(nodes@ =~= before + panel_nodes_at(candidates@.take(i + 1), interface as int));
            i = i + 1;
        }
        assert(candidates@.take(candidates@.len() as int) =~= candidates@);
        interface = interface + 1;
    }
    nodes
}

/// The first node at or after `from` whose interface is `interface`.
pub open spec fn node_with(nodes: Seq<HidrawNode>, interface: u8, from: int) -> Option<int>
    decreases nodes.len() - from,
{
    if from < 0 || from >= nodes.len() {
        None
    } else if nodes[from].interface == interface {
        Some(from)
    } else {
        node_with(nodes, interface, from + 1)
    }
}

/// The node of `interface` among `nodes`; `NotFound` when it is missing.
pub fn find_node(nodes: &[HidrawNode], interface: u8) -> (node: Result<&HidrawNode, DeviceError>)
    ensures
        match node {
            Ok(n) => exists|i: int|
                node_with(nodes@, interface, 0) == Some(i) && 0 <= i < nodes@.len() && *n
                    == nodes@[i],
            Err(e) => node_with(nodes@, interface, 0) is None && e == DeviceError::NotFound(
                interface,
            ),
        },
{
    let mut i: usize = 0;
    while i < nodes.len()
        invariant
            i <= nodes@.len(),
            node_with(nodes@, interface, i as int) == node_with(nodes@, interface, 0),
        decreases nodes@.len() - i,
    {
        if nodes[i].interface == interface {
            return Ok(&nodes[i]);
        }
        i = i + 1;
    }
    Err(DeviceError::NotFound(interface))
}

/// The error a payload too large for one report gives: `io::ErrorKind::InvalidInput`.
#[verifier::external_body]
fn invalid_input() -> std::io::Error {
    std::io::Error::from(std::io::ErrorKind::InvalidInput)
}

/// The report hidraw is given for `payload`: the panel uses no report IDs,
/// so a leading zero byte goes in front of the payload.
pub fn output_report(payload: &[u8]) -> (report: Result<Vec<u8>, DeviceError>)
    ensures
        report matches Ok(r) ==> payload@.len() < MAX_REPORT_SIZE && r@ == seq![0u8] + payload@,
        report matches Err(e) ==> payload@.len() >= MAX_REPORT_SIZE && e is Io,
{
    if payload.len() >= MAX_REPORT_SIZE {
        return Err(DeviceError::Io(invalid_input()));
    }
    let mut report: Vec<u8> = Vec::new();
    report.push(0);
    let mut i: usize = 0;
    while i < payload.len()
        invariant
            i <= payload@.len(),
            report@ == seq![0u8] + payload@.take(i as int),
        decreases payload@.len() - i,
    {
        report.push(payload[i]);
        assert(payload@.take(i + 1) =~= payload@.take(i as int).push(payload@[i as int]));
        assert(report@ =~= seq![0u8] + payload@.take(i + 1));
        i = i + 1;
    }
    assert(payload@.take(payload@.len() as int) =~= payload@);
    Ok(report)
}

} // verus!
