//! Reading the device tree that firmware hands over.
use vstd::prelude::*;
use vstd::utf8::valid_utf8;

use fdt_raw::Fdt;

verus! {

/// How many bytes the header of a tree has.
pub const HEADER_SIZE: u64 = 40;

/// A tree has at most this many bytes.
pub const MAX_DTB_SIZE: u64 = 0x100_0000;

pub const FDT_MAGIC: u32 = 0xd00d_feed;

/// How many levels of a tree are kept track of.
pub const MAX_CONTEXTS: u64 = 16;

/// The number that four bytes stand for, the first being the most significant.
pub open spec fn be32(s: Seq<u8>, pos: int) -> int {
    s[pos] * 0x100_0000 + s[pos + 1] * 0x1_0000 + s[pos + 2] * 0x100 + s[pos + 3]
}

fn read_be32(s: &[u8], pos: usize) -> (r: u32)
    requires
        pos + 4 <= s@.len(),
    ensures
        r == be32(s@, pos as int),
{
    let a: u32 = s[pos] as u32;
    let b: u32 = s[pos + 1] as u32;
    let c: u32 = s[pos + 2] as u32;
    let d: u32 = s[pos + 3] as u32;
    a * 0x100_0000 + b * 0x1_0000 + c * 0x100 + d
}

/// The next multiple of four.
pub open spec fn align4(n: int) -> int {
    ((n + 3) / 4) * 4
}

/// Where the first zero byte from `pos` on stands; the length where there is none.
pub open spec fn end_of_text(s: Seq<u8>, pos: int) -> int
    decreases s.len() - pos,
{
    if pos >= s.len() {
        s.len() as int
    } else if s[pos] == 0 {
        pos
    } else {
        end_of_text(s, pos + 1)
    }
}

fn find_end_of_text(s: &[u8], pos: usize) -> (r: usize)
    requires
        pos <= s@.len(),
    ensures
        r == end_of_text(s@, pos as int),
        pos <= r <= s@.len(),
{
    let mut i: usize = pos;
    while i < s.len()
        invariant_except_break
            pos <= i <= s@.len(),
            end_of_text(s@, pos as int) == end_of_text(s@, i as int),
        ensures
            pos <= i <= s@.len(),
            i == end_of_text(s@, pos as int),
        decreases s@.len() - i,
    {
        if s[i] == 0 {
            break;
        }
        i = i + 1;
    }
    i
}

/// How far a visit to the nodes of a tree has come.
pub ghost struct Spot {
    pub pos: int,
    /// Whether the properties of a node are being read.
    pub in_node: bool,
    /// How many levels are kept track of.
    pub contexts: nat,
    /// How many levels there are.
    pub level: nat,
    /// The level of `/cpus`, where its children are visited and it was found.
    pub found: Option<nat>,
    /// Whether the node at hand is one that was asked for.
    pub wanted: bool,
    /// Whether the visit ends with the node at hand.
    pub last: bool,
}

/// `cpus`
pub open spec fn cpus_text() -> Seq<u8> {
    seq![0x63u8, 0x70, 0x75, 0x73]
}

/// A node with a name is reached. All nodes are visited, or the children of the
/// first node that is named `cpus`: these until a node follows that is on no
/// deeper level than that one.
pub open spec fn reached(cpus: bool, at: Spot, pos: int, name: Seq<u8>) -> Spot {
    let inside = Spot { pos, in_node: true, ..at };
    if !cpus {
        Spot { wanted: true, last: false, ..inside }
    } else {
        match at.found {
            None => Spot {
                found: if name == cpus_text() {
                    Some(at.level)
                } else {
                    None
                },
                wanted: false,
                last: false,
                ..inside
            },
            Some(l) => Spot { wanted: at.level == l + 1, last: at.level <= l, ..inside },
        }
    }
}

/// How many of the nodes that are asked for can be visited before trouble comes:
/// a property without its name in the strings, or a node that is opened after
/// more levels were closed than are kept track of. None where no trouble comes:
/// what cannot be read otherwise ends the visit.
pub open spec fn reach(s: Seq<u8>, strings: int, cpus: bool, at: Spot) -> Option<nat>
    decreases s.len() + 4 - at.pos, (if at.in_node { 1int } else { 0int }),
{
    let pos = at.pos;
    if pos < 0 || pos + 4 > s.len() {
        None
    } else {
        let token = be32(s, pos);
        if at.in_node {
            if token == 1 || token == 2 || token == 9 {
                let rest = if at.last {
                    None
                } else if token == 1 {
                    reach(
                        s,
                        strings,
                        cpus,
                        Spot {
                            in_node: false,
                            contexts: if at.contexts < MAX_CONTEXTS {
                                at.contexts + 1
                            } else {
                                at.contexts
                            },
                            level: at.level + 1,
                            ..at
                        },
                    )
                } else {
                    reach(s, strings, cpus, Spot { pos: pos + 4, in_node: false, ..at })
                };
                match rest {
                    Some(n) if at.wanted => Some(n + 1),
                    _ => rest,
                }
            } else if token == 3 {
                if pos + 12 > s.len() || pos + 12 + be32(s, pos + 4) > s.len() {
                    None
                } else if be32(s, pos + 8) > strings {
                    Some(0)
                } else {
                    reach(
                        s,
                        strings,
                        cpus,
                        Spot { pos: align4(pos + 12 + be32(s, pos + 4)), ..at },
                    )
                }
            } else if token == 4 {
                reach(s, strings, cpus, Spot { pos: pos + 4, ..at })
            } else {
                None
            }
        } else {
            if token == 1 {
                if at.contexts == 0 {
                    Some(0)
                } else {
                    let end = end_of_text(s, pos + 4);
                    if end < pos + 4 || end >= s.len() || !valid_utf8(s.subrange(pos + 4, end)) {
                        None
                    } else {
                        reach(
                            s,
                            strings,
                            cpus,
                            reached(cpus, at, align4(end + 1), s.subrange(pos + 4, end)),
                        )
                    }
                }
            } else if token == 2 {
                reach(
                    s,
                    strings,
                    cpus,
                    Spot {
                        pos: pos + 4,
                        contexts: if at.level > 0 && at.contexts > 0 {
                            (at.contexts - 1) as nat
                        } else {
                            at.contexts
                        },
                        level: if at.level > 0 {
                            (at.level - 1) as nat
                        } else {
                            0
                        },
                        ..at
                    },
                )
            } else if token == 4 {
                reach(s, strings, cpus, Spot { pos: pos + 4, ..at })
            } else {
                None
            }
        }
    }
}

/// Where a visit starts.
pub open spec fn start_at(pos: int) -> Spot {
    Spot {
        pos,
        in_node: false,
        contexts: 1,
        level: 0,
        found: None,
        wanted: false,
        last: false,
    }
}

/// Whether bytes have a header that can be read.
pub open spec fn has_header(s: Seq<u8>) -> bool {
    &&& HEADER_SIZE <= s.len() <= MAX_DTB_SIZE
    &&& be32(s, 0) == FDT_MAGIC
    &&& be32(s, 4) <= s.len()
    &&& be32(s, 8) < s.len()
    &&& be32(s, 12) + be32(s, 32) <= s.len()
}

/// How many nodes of a tree can be visited before trouble comes: all nodes, or
/// the children of `/cpus`.
pub open spec fn visitable(s: Seq<u8>, cpus: bool) -> Option<nat> {
    reach(s, be32(s, 32), cpus, start_at(be32(s, 8)))
}

/// How many nodes are asked for: those before trouble, or as many as there may
/// be.
pub open spec fn asked_for(s: Seq<u8>, cpus: bool) -> nat {
    match visitable(s, cpus) {
        Some(n) => n,
        None => s.len(),
    }
}

/// Whether bytes hold a tree that can be read to its end.
pub open spec fn is_sound(s: Seq<u8>) -> bool {
    has_header(s) && visitable(s, false) is None
}

/// `core::str::from_utf8`: succeeds exactly on valid UTF-8.
#[verifier::external_body]
fn is_utf8(text: &[u8]) -> (r: bool)
    ensures
        r == valid_utf8(text@),
{
    core::str::from_utf8(text).is_ok()
}

fn is_cpus(s: &[u8], from: usize, to: usize) -> (r: bool)
    requires
        from <= to <= s@.len(),
    ensures
        r == (s@.subrange(from as int, to as int) == cpus_text()),
{
    let r: bool = to - from == 4 && s[from] == 0x63 && s[from + 1] == 0x70 && s[from + 2] == 0x75
        && s[from + 3] == 0x73;
    proof {
        let name = s@.subrange(from as int, to as int);
        if r {
            assert(name =~= cpus_text());
        } else if name == cpus_text() {
            assert(name.len() == 4);
            assert(name[0] == 0x63 && name[1] == 0x70 && name[2] == 0x75 && name[3] == 0x73);
        }
    }
    r
}

/// A number of nodes and those that follow.
spec fn and_then(count: nat, rest: Option<nat>) -> Option<nat> {
    match rest {
        Some(n) => Some(count + n),
        None => None,
    }
}

fn count_nodes(s: &[u8], strings: u32, cpus: bool, start: usize) -> (r: Option<usize>)
    requires
        s@.len() <= MAX_DTB_SIZE,
        start < s@.len(),
    ensures
        match r {
            Some(n) => reach(s@, strings as int, cpus, start_at(start as int)) == Some(n as nat),
            None => reach(s@, strings as int, cpus, start_at(start as int)) is None,
        },
{
    let len: usize = s.len();
    let mut pos: usize = start;
    let mut in_node: bool = false;
    let mut contexts: u64 = 1;
    let mut level: u64 = 0;
    let mut found: Option<u64> = None;
    let mut wanted: bool = false;
    let mut last: bool = false;
    let mut count: usize = 0;
    while pos + 4 <= len
        invariant
            len == s@.len(),
            len <= MAX_DTB_SIZE,
            contexts <= MAX_CONTEXTS,
            pos <= s@.len() + 4,
            level <= pos,
            in_node ==> level + 4 <= pos,
            count <= pos,
            in_node ==> count + 4 <= pos,
            found matches Some(l) ==> l <= MAX_DTB_SIZE + 4,
            reach(s@, strings as int, cpus, start_at(start as int)) == and_then(
                count as nat,
                reach(
                    s@,
                    strings as int,
                    cpus,
                    Spot {
                        pos: pos as int,
                        in_node,
                        contexts: contexts as nat,
                        level: level as nat,
                        found: match found {
                            Some(l) => Some(l as nat),
                            None => None,
                        },
                        wanted,
                        last,
                    },
                ),
            ),
        decreases s@.len() + 4 - pos, (if in_node { 1int } else { 0int }),
    {
        let token: u32 = read_be32(s, pos);
        if in_node {
            if token == 1 || token == 2 || token == 9 {
                if last {
                    return None;
                }
                if wanted {
                    count = count + 1;
                }
                in_node = false;
                if token == 1 {
                    if contexts < MAX_CONTEXTS {
                        contexts = contexts + 1;
                    }
                    level = level + 1;
                } else {
                    pos = pos + 4;
                }
            } else if token == 3 {
                if pos + 12 > len {
                    return None;
                }
                let size: u32 = read_be32(s, pos + 4);
                if size as u64 > (len - (pos + 12)) as u64 {
                    return None;
                }
                if read_be32(s, pos + 8) > strings {
                    return Some(count);
                }
                let end: usize = pos + 12 + size as usize;
                pos = ((end + 3) / 4) * 4;
            } else if token == 4 {
                pos = pos + 4;
            } else {
                return None;
            }
        } else {
            if token == 1 {
                if contexts == 0 {
                    return Some(count);
                }
                let end: usize = find_end_of_text(s, pos + 4);
                if end >= len {
                    return None;
                }
                if !is_utf8(vstd::slice::slice_subrange(s, pos + 4, end)) {
                    return None;
                }
                if !cpus {
                    wanted = true;
                    last = false;
                } else {
                    match found {
                        None => {
                            if is_cpus(s, pos + 4, end) {
                                found = Some(level);
                            }
                            wanted = false;
                            last = false;
                        },
                        Some(l) => {
                            wanted = level == l + 1;
                            last = level <= l;
                        },
                    }
                }
                pos = ((end + 1 + 3) / 4) * 4;
                in_node = true;
            } else if token == 2 {
                pos = pos + 4;
                if level > 0 {
                    level = level - 1;
                    if contexts > 0 {
                        contexts = contexts - 1;
                    }
                }
            } else if token == 4 {
                pos = pos + 4;
            } else {
                return None;
            }
        }
    }
    None
}

fn check_header(s: &[u8]) -> (r: bool)
    ensures
        r == has_header(s@),
{
    let len: u64 = s.len() as u64;
    if len < HEADER_SIZE || len > MAX_DTB_SIZE {
        return false;
    }
    if read_be32(s, 0) != FDT_MAGIC {
        return false;
    }
    if read_be32(s, 4) as u64 > len || read_be32(s, 8) as u64 >= len {
        return false;
    }
    read_be32(s, 12) as u64 + read_be32(s, 32) as u64 <= len
}

fn count_visitable(s: &[u8], cpus: bool) -> (r: Option<usize>)
    requires
        has_header(s@),
    ensures
        match r {
            Some(n) => visitable(s@, cpus) == Some(n as nat),
            None => visitable(s@, cpus) is None,
        },
{
    count_nodes(s, read_be32(s, 32), cpus, read_be32(s, 8) as usize)
}

/// Tells whether bytes hold a tree that can be read to its end.
pub fn check_tree(s: &[u8]) -> (r: bool)
    ensures
        r == is_sound(s@),
{
    check_header(s) && count_visitable(s, false).is_none()
}

/// What a tree says of a CPU.
pub struct CpuNode {
    pub name: Vec<u8>,
    pub status: Option<Vec<u8>>,
    pub device_type: Option<Vec<u8>>,
    /// Where its registers are.
    pub reg: Option<Vec<u64>>,
}

pub ghost struct CpuNodeView {
    pub name: Seq<u8>,
    pub status: Option<Seq<u8>>,
    pub device_type: Option<Seq<u8>>,
    pub reg: Option<Seq<u64>>,
}

pub open spec fn text_view(t: Option<Vec<u8>>) -> Option<Seq<u8>> {
    match t {
        Some(v) => Some(v@),
        None => None,
    }
}

impl CpuNode {
    pub open spec fn view(&self) -> CpuNodeView {
        CpuNodeView {
            name: self.name@,
            status: text_view(self.status),
            device_type: text_view(self.device_type),
            reg: match self.reg {
                Some(v) => Some(v@),
                None => None,
            },
        }
    }
}

pub open spec fn cpu_views(s: Seq<CpuNode>) -> Seq<CpuNodeView> {
    s.map_values(|n: CpuNode| n@)
}

/// What a tree says of a device.
pub struct DeviceNode {
    pub status: Option<Vec<u8>>,
    pub compatibles: Vec<Vec<u8>>,
    /// Where its registers are and how many bytes they take.
    pub reg: Option<Vec<(u64, Option<u64>)>>,
    pub interrupts: Option<Vec<u32>>,
}

pub ghost struct DeviceNodeView {
    pub status: Option<Seq<u8>>,
    pub compatibles: Seq<Seq<u8>>,
    pub reg: Option<Seq<(u64, Option<u64>)>>,
    pub interrupts: Option<Seq<u32>>,
}

impl DeviceNode {
    pub open spec fn view(&self) -> DeviceNodeView {
        DeviceNodeView {
            status: text_view(self.status),
            compatibles: self.compatibles@.map_values(|c: Vec<u8>| c@),
            reg: match self.reg {
                Some(v) => Some(v@),
                None => None,
            },
            interrupts: match self.interrupts {
                Some(v) => Some(v@),
                None => None,
            },
        }
    }
}

pub open spec fn device_views(s: Seq<DeviceNode>) -> Seq<DeviceNodeView> {
    s.map_values(|n: DeviceNode| n@)
}

/// The first `n` children of `/cpus`.
pub uninterp spec fn dtb_cpus(dtb: Seq<u8>, n: nat) -> Seq<CpuNodeView>;

/// The first `n` nodes of a tree.
pub uninterp spec fn dtb_devices(dtb: Seq<u8>, n: nat) -> Seq<DeviceNodeView>;

/// The regions of all memory nodes.
pub uninterp spec fn dtb_memory(dtb: Seq<u8>) -> Seq<(u64, u64)>;

/// The number that eight bytes stand for, the first being the most significant.
pub open spec fn be64(s: Seq<u8>, pos: int) -> u64 {
    (be32(s, pos) * 0x1_0000_0000 + be32(s, pos + 4)) as u64
}

/// The entries of the block of reservations from `pos` on, an address and a size
/// each. An entry of two zeroes ends them, or the end of the bytes.
pub open spec fn reservations_from(s: Seq<u8>, pos: int) -> Seq<(u64, u64)>
    decreases s.len() - pos,
{
    if pos < 0 || pos + 16 > s.len() || (be64(s, pos) == 0 && be64(s, pos + 8) == 0) {
        Seq::empty()
    } else {
        seq![(be64(s, pos), be64(s, pos + 8))] + reservations_from(s, pos + 16)
    }
}

/// The entries of the block of reservations, which the header points to.
pub open spec fn dtb_reservations(dtb: Seq<u8>) -> Seq<(u64, u64)> {
    reservations_from(dtb, be32(dtb, 16))
}

/// The registers of the nodes under `/reserved-memory`.
pub uninterp spec fn dtb_reserved_memory(dtb: Seq<u8>) -> Seq<(u64, Option<u64>)>;

/// `fdt_raw::Fdt::find_children_by_path` for `/cpus`, with the name, the
/// `status`, the `device_type` and the register addresses of each of the first
/// `n` children. The bytes and `n` alone decide what comes back.
#[verifier::external_body]
fn cpu_nodes(dtb: &[u8], n: usize) -> (r: Vec<CpuNode>)
    requires
        has_header(dtb@),
        visitable(dtb@, true) is None || 0 < n <= visitable(dtb@, true)->0,
    ensures
        cpu_views(r@) == dtb_cpus(dtb@, n as nat),
{
    let fdt = Fdt::from_bytes(dtb).unwrap();
    fdt.find_children_by_path("/cpus").take(n).map(|n| CpuNode {
        name: n.name().as_bytes().to_vec(),
        status: n.find_property_str("status").map(|s| s.as_bytes().to_vec()),
        device_type: n.find_property_str("device_type").map(|s| s.as_bytes().to_vec()),
        reg: n.reg().map(|r| r.map(|i| i.address).collect()),
    }).collect()
}

/// `fdt_raw::Fdt::all_nodes`, with the `status`, the `compatible` strings, the
/// registers and the `interrupts` cells of each of the first `n` nodes. The
/// bytes and `n` alone decide what comes back.
#[verifier::external_body]
fn device_nodes(dtb: &[u8], n: usize) -> (r: Vec<DeviceNode>)
    requires
        has_header(dtb@),
        visitable(dtb@, false) is None || n <= visitable(dtb@, false)->0,
    ensures
        device_views(r@) == dtb_devices(dtb@, n as nat),
{
    let fdt = Fdt::from_bytes(dtb).unwrap();
    fdt.all_nodes().take(n).map(|n| DeviceNode {
        status: n.find_property_str("status").map(|s| s.as_bytes().to_vec()),
        compatibles: n.compatibles().map(|s| s.as_bytes().to_vec()).collect(),
        reg: n.reg().map(|r| r.map(|i| (i.address, i.size)).collect()),
        interrupts: n.find_property("interrupts").map(|p| p.as_u32_iter().collect()),
    }).collect()
}

/// `fdt_raw::Fdt::memory` and the regions of each node. The bytes alone decide
/// what comes back.
#[verifier::external_body]
fn memory_regions(dtb: &[u8]) -> (r: Vec<(u64, u64)>)
    requires
        is_sound(dtb@),
    ensures
        r@ == dtb_memory(dtb@),
{
    let fdt = Fdt::from_bytes(dtb).unwrap();
    fdt.memory().flat_map(|m| m.regions().map(|r| (r.address, r.size)).collect::<Vec<_>>()).collect()
}

/// `fdt_raw::Fdt::memory_reservations`: the entries from where the header says
/// they start up to the first of two zeroes.
#[verifier::external_body]
fn reservations(dtb: &[u8]) -> (r: Vec<(u64, u64)>)
    requires
        is_sound(dtb@),
    ensures
        r@ == dtb_reservations(dtb@),
{
    let fdt = Fdt::from_bytes(dtb).unwrap();
    fdt.memory_reservations().map(|r| (r.address, r.size)).collect()
}

/// `fdt_raw::Fdt::reserved_memory` and the registers of each node. The bytes
/// alone decide what comes back.
#[verifier::external_body]
fn reserved_regions(dtb: &[u8]) -> (r: Vec<(u64, Option<u64>)>)
    requires
        is_sound(dtb@),
    ensures
        r@ == dtb_reserved_memory(dtb@),
{
    let fdt = Fdt::from_bytes(dtb).unwrap();
    fdt.reserved_memory().flat_map(|n| n.reg()).flatten().map(|i| (i.address, i.size)).collect()
}

/// The children of `/cpus`, up to one that cannot be visited.
pub open spec fn listed_cpus(s: Seq<u8>) -> Seq<CpuNodeView> {
    if visitable(s, true) == Some(0nat) {
        Seq::empty()
    } else {
        dtb_cpus(s, asked_for(s, true))
    }
}

/// The nodes of a tree, up to one that cannot be visited.
pub open spec fn listed_devices(s: Seq<u8>) -> Seq<DeviceNodeView> {
    dtb_devices(s, asked_for(s, false))
}

/// The CPUs that a tree describes, up to one that cannot be visited, and whether
/// that is all of them; none where the tree has no header.
pub fn read_cpus(dtb: &[u8]) -> (r: Option<(Vec<CpuNode>, bool)>)
    ensures
        match r {
            Some((v, all)) => {
                &&& has_header(dtb@)
                &&& cpu_views(v@) == listed_cpus(dtb@)
                &&& all == (visitable(dtb@, true) is None)
            },
            None => !has_header(dtb@),
        },
{
    if !check_header(dtb) {
        return None;
    }
    match count_visitable(dtb, true) {
        Some(0) => {
            let none: Vec<CpuNode> = Vec::new();
            assert(cpu_views(none@) =~= listed_cpus(dtb@));
            Some((none, false))
        },
        Some(n) => Some((cpu_nodes(dtb, n), false)),
        None => Some((cpu_nodes(dtb, dtb.len()), true)),
    }
}

/// The devices that a tree describes, up to one that cannot be visited, and
/// whether that is all of them; none where the tree has no header.
pub fn read_devices(dtb: &[u8]) -> (r: Option<(Vec<DeviceNode>, bool)>)
    ensures
        match r {
            Some((v, all)) => {
                &&& has_header(dtb@)
                &&& device_views(v@) == listed_devices(dtb@)
                &&& all == (visitable(dtb@, false) is None)
            },
            None => !has_header(dtb@),
        },
{
    if !check_header(dtb) {
        return None;
    }
    match count_visitable(dtb, false) {
        Some(n) => Some((device_nodes(dtb, n), false)),
        None => Some((device_nodes(dtb, dtb.len()), true)),
    }
}

/// The reserved ranges with a size, from the `i`-th on.
pub open spec fn sized(regions: Seq<(u64, Option<u64>)>, i: int) -> Seq<(u64, u64)>
    decreases regions.len() - i,
{
    if i < 0 || i >= regions.len() {
        Seq::empty()
    } else {
        match regions[i].1 {
            Some(size) => seq![(regions[i].0, size)] + sized(regions, i + 1),
            None => sized(regions, i + 1),
        }
    }
}

/// What is reserved: the entries of the block, then the nodes.
pub open spec fn dtb_reserved(dtb: Seq<u8>) -> Seq<(u64, u64)> {
    dtb_reservations(dtb) + sized(dtb_reserved_memory(dtb), 0)
}

/// What a tree says of memory; none where it cannot be read.
pub fn read_memory(dtb: &[u8]) -> (r: Option<(Vec<(u64, u64)>, Vec<(u64, u64)>, u64)>)
    ensures
        match r {
            Some((regions, reserved, size)) => {
                &&& is_sound(dtb@)
                &&& regions@ == dtb_memory(dtb@)
                &&& reserved@ == dtb_reserved(dtb@)
                &&& size == be32(dtb@, 4)
            },
            None => !is_sound(dtb@),
        },
{
    if !check_tree(dtb) {
        return None;
    }
    let regions: Vec<(u64, u64)> = memory_regions(dtb);
    let mut reserved: Vec<(u64, u64)> = reservations(dtb);
    let nodes: Vec<(u64, Option<u64>)> = reserved_regions(dtb);
    let ghost first = reserved@;
    let mut i: usize = 0;
    while i < nodes.len()
        invariant
            i <= nodes@.len(),
            reserved@ + sized(nodes@, i as int) == first + sized(nodes@, 0),
        decreases nodes@.len() - i,
    {
        let ghost before = reserved@;
        match nodes[i].1 {
            Some(size) => {
                reserved.push((nodes[i].0, size));
                assert(reserved@ + sized(nodes@, i + 1) =~= before + (seq![
                    (nodes@[i as int].0, size),
                ] + sized(nodes@, i + 1)));
            },
            None => {},
        }
        i = i + 1;
    }
    assert(reserved@ + sized(nodes@, nodes@.len() as int) =~= reserved@);
    Some((regions, reserved, read_be32(dtb, 4) as u64))
}

} // verus!
