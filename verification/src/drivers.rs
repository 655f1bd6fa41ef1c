//! Boot-time device discovery over the AHCI host bus adapter's register
//! layout.
//!
//! The register block is modelled by plain values; reading it out of
//! memory-mapped hardware with volatile loads is the embedding's business.

use vstd::prelude::*;

verus! {

/// Device signature of a plain SATA drive.
pub const SIG_SATA: u32 = 0x00000101;

/// Device signature of a SATAPI (packet interface) drive.
pub const SIG_SATAPI: u32 = 0xEB140101;

/// Device signature of an enclosure management bridge.
pub const SIG_SEMB: u32 = 0xC33C0101;

/// Device signature of a port multiplier.
pub const SIG_PMP: u32 = 0x96690101;

/// Possible device types on an AHCI port.
#[derive(Clone, Copy, Debug, PartialEq, Eq, Structural)]
pub enum PortType {
    /// No recognised device.
    Unknown,
    /// A plain SATA drive.
    SATA,
    /// A SATAPI (packet interface) drive.
    SATAPI,
    /// An enclosure management bridge.
    SEMB,
    /// A port multiplier.
    PMP,
}

/// Only the Signature register is needed to identify the device.
#[derive(Clone, Copy, Debug)]
pub struct HbaPort {
    /// Registers before the signature, not read by the scan.
    pub _clb: u32,
    pub _clbu: u32,
    pub _fb: u32,
    pub _fbu: u32,
    pub _is: u32,
    pub _ie: u32,
    pub _cmd: u32,
    pub _r: u32,
    pub _tfd: u32,
    /// Device signature (identifies SATA, SATAPI and the rest).
    pub sig: u32,
}

impl HbaPort {
    /// A port register block showing the given device signature.
    pub fn new(sig: u32) -> (r: Self)
        ensures
            r.sig == sig,
    {
        HbaPort { _clb: 0, _clbu: 0, _fb: 0, _fbu: 0, _is: 0, _ie: 0, _cmd: 0, _r: 0, _tfd: 0, sig }
    }
}

/// AHCI HBA memory layout (only the fields the scan needs).
pub struct HbaMem {
    /// Registers before the bitmask, not read by the scan.
    pub _cap: u32,
    pub _ghc: u32,
    pub _is: u32,
    /// Port Implemented bitmask: bit N set means port N exists.
    pub pi: u32,
    /// Register space between the bitmask and the ports, not read by the
    /// scan.
    pub _r: [u32; 9],
    /// Array of 32 port registers.
    pub ports: [HbaPort; 32],
}

impl HbaMem {
    /// A register block with the given implemented-ports mask and port
    /// registers.
    pub fn new(pi: u32, ports: [HbaPort; 32]) -> (r: Self)
        ensures
            r.pi == pi,
            r.ports == ports,
    {
        HbaMem { _cap: 0, _ghc: 0, _is: 0, pi, _r: [0; 9], ports }
    }
}

/// Port `idx` is implemented according to the Port Implemented bitmask.
pub open spec fn port_implemented(pi: u32, idx: u32) -> bool {
    pi & (1u32 << idx) != 0
}

/// The device type a port signature identifies.
pub open spec fn classify_sig(sig: u32) -> PortType {
    if sig == SIG_SATA {
        PortType::SATA
    } else if sig == SIG_SATAPI {
        PortType::SATAPI
    } else if sig == SIG_SEMB {
        PortType::SEMB
    } else if sig == SIG_PMP {
        PortType::PMP
    } else {
        PortType::Unknown
    }
}

/// Scans the implemented ports in ascending order and classifies the device
/// behind each by its signature: one result entry for exactly every bit set
/// in the Port Implemented mask.
#[verifier::loop_isolation(false)]
pub fn scan_ports(hba: &HbaMem) -> (found: Vec<(usize, PortType)>)
    ensures
        forall|k: int|
            0 <= k < found@.len() ==> (#[trigger] found@[k]).0 < 32 && port_implemented(
                hba.pi,
                found@[k].0 as u32,
            ) && found@[k].1 == classify_sig(hba.ports[found@[k].0 as int].sig),
        forall|k1: int, k2: int|
            0 <= k1 < k2 < found@.len() ==> (#[trigger] found@[k1]).0 < (#[trigger] found@[k2]).0,
        forall|idx: u32|
            idx < 32 ==> (port_implemented(hba.pi, idx) <==> exists|k: int|
                0 <= k < found@.len() && (#[trigger] found@[k]).0 == idx as usize),
{
    let mut found: Vec<(usize, PortType)> = Vec::new();
    let pi = hba.pi;

    let mut port_idx: usize = 0;
    while port_idx < 32
        invariant
            port_idx <= 32,
            pi == hba.pi,
            forall|k: int|
                0 <= k < found@.len() ==> (#[trigger] found@[k]).0 < port_idx && port_implemented(
                    hba.pi,
                    found@[k].0 as u32,
                ) && found@[k].1 == classify_sig(hba.ports[found@[k].0 as int].sig),
            forall|k1: int, k2: int|
                0 <= k1 < k2 < found@.len() ==> (#[trigger] found@[k1]).0 < (
                #[trigger] found@[k2]).0,
            forall|idx: u32|
                idx < port_idx ==> (port_implemented(hba.pi, idx) <==> exists|k: int|
                    0 <= k < found@.len() && (#[trigger] found@[k]).0 == idx as usize),
        decreases 32 - port_idx,
    {
        if (pi & (1u32 << (port_idx as u32))) != 0 {
            let sig = hba.ports[port_idx].sig;
            let ptype = if sig == SIG_SATA {
                PortType::SATA
            } else if sig == SIG_SATAPI {
                PortType::SATAPI
            } else if sig == SIG_SEMB {
                PortType::SEMB
            } else if sig == SIG_PMP {
                PortType::PMP
            } else {
                PortType::Unknown
            };
            let ghost prev = found@;
            found.push((port_idx, ptype));
            proof {
                assert forall|idx: u32| idx < port_idx + 1 implies (port_implemented(hba.pi, idx)
                    <==> exists|k: int|
                    0 <= k < found@.len() && (#[trigger] found@[k]).0 == idx as usize) by {
                    if idx < port_idx {
                        if port_implemented(hba.pi, idx) {
                            let k = choose|k: int|
                                0 <= k < prev.len() && (#[trigger] prev[k]).0 == idx as usize;
                            assert(found@[k].0 == idx as usize);
                        } else {
                            if exists|k: int|
                                0 <= k < found@.len() && (#[trigger] found@[k]).0 == idx as usize {
                                let k = choose|k: int|
                                    0 <= k < found@.len() && (#[trigger] found@[k]).0
                                        == idx as usize;
                                assert(k < prev.len());
                                assert(prev[k].0 == idx as usize);
                            }
                        }
                    } else {
                        assert(found@[found@.len() - 1].0 == idx as usize);
                    }
                }
            }
        } else {
            proof {
                assert forall|idx: u32| idx < port_idx + 1 implies (port_implemented(hba.pi, idx)
                    <==> exists|k: int|
                    0 <= k < found@.len() && (#[trigger] found@[k]).0 == idx as usize) by {
                    if idx == port_idx {
                        assert(!port_implemented(hba.pi, idx));
                        if exists|k: int|
                            0 <= k < found@.len() && (#[trigger] found@[k]).0 == idx as usize {
                            let k = choose|k: int|
                                0 <= k < found@.len() && (#[trigger] found@[k]).0 == idx as usize;
                            assert(found@[k].0 < port_idx);
                            assert(false);
                        }
                    }
                }
            }
        }
        port_idx += 1;
    }
    found
}

} // verus!
