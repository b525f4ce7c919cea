//! What the board consists of, as firmware describes it.
use vstd::prelude::*;

use super::cpu_topology::{CpuTopology, INVALID_CPU_ID};
use super::dtb::{
    CpuNode,
    CpuNodeView,
    DeviceNode,
    DeviceNodeView,
    HEADER_SIZE,
    MAX_DTB_SIZE,
    cpu_views,
    device_views,
    has_header,
    listed_cpus,
    listed_devices,
    read_cpus,
    read_devices,
    text_view,
    visitable,
};
use super::irq::{parent_index_from_cpu_irq, spec_parent_index};
use super::mp_common::{
    DMW_PHYS_MASK,
    DMW_CACHED_BASE,
    DMW_UNCACHED_BASE,
    firmware_to_phys,
    in_window,
    phys_to_cached_dmw,
    phys_to_uncached_dmw,
    spec_firmware_to_phys,
};

verus! {

/// U-Boot hands over at most this many arguments.
pub const MAX_UBOOT_GO_ARGS: u64 = 16;

/// An argument with an address has fewer bytes than this.
pub const MAX_UBOOT_GO_ARG_LEN: usize = 32;

/// The first argument where the second is the address of a tree.
pub const UHI_FDT_ARG0: u64 = 0xffff_ffff_ffff_fffe;

pub const LIOINTC_REG_MIN_SIZE: u64 = 0x38;

pub const LIOINTC_ISR_MIN_SIZE: u64 = 4;

/// The physical address, where it is not zero.
pub open spec fn spec_canonical_phys(address: u64) -> Option<u64> {
    match spec_firmware_to_phys(address) {
        Some(p) => if p != 0 {
            Some(p)
        } else {
            None
        },
        None => None,
    }
}

pub fn canonical_phys(address: u64) -> (r: Option<u64>)
    ensures
        r == spec_canonical_phys(address),
{
    match firmware_to_phys(address) {
        Some(p) => if p != 0 {
            Some(p)
        } else {
            None
        },
        None => None,
    }
}

/// Where the kernel reads what firmware calls `address`.
pub open spec fn spec_cached_view(address: u64) -> Option<u64> {
    match spec_canonical_phys(address) {
        Some(p) => in_window(p, DMW_CACHED_BASE),
        None => None,
    }
}

/// Where the list of U-Boot's arguments is read; none where there is no such list.
pub fn uboot_go_args_address(argc: u64, argv: u64) -> (r: Option<u64>)
    ensures
        r == if 1 <= argc <= MAX_UBOOT_GO_ARGS && argv != 0 {
            spec_cached_view(argv)
        } else {
            None
        },
{
    if argc < 1 || argc > MAX_UBOOT_GO_ARGS || argv == 0 {
        return None;
    }
    match canonical_phys(argv) {
        Some(p) => phys_to_cached_dmw(p),
        None => None,
    }
}

/// Where the text of an argument is read.
pub fn uboot_go_arg_address(arg: u64) -> (r: Option<u64>)
    ensures
        r == if arg != 0 {
            spec_cached_view(arg)
        } else {
            None
        },
{
    if arg == 0 {
        return None;
    }
    match canonical_phys(arg) {
        Some(p) => phys_to_cached_dmw(p),
        None => None,
    }
}

pub open spec fn is_hex_digit(b: u8) -> bool {
    0x30 <= b <= 0x39 || 0x61 <= b <= 0x66 || 0x41 <= b <= 0x46
}

pub open spec fn hex_digit(b: u8) -> int {
    if 0x30 <= b <= 0x39 {
        b - 0x30
    } else if 0x61 <= b <= 0x66 {
        b - 0x61 + 10
    } else {
        b - 0x41 + 10
    }
}

/// The number that hexadecimal digits stand for.
pub open spec fn hex_number(digits: Seq<u8>) -> int
    decreases digits.len(),
{
    if digits.len() == 0 {
        0
    } else {
        hex_number(digits.drop_last()) * 16 + hex_digit(digits.last())
    }
}

/// Where the digits of an argument begin: after `0x` or `0X`, if that is there.
pub open spec fn digits_start(text: Seq<u8>) -> int {
    if text.len() >= 2 && text[0] == 0x30 && (text[1] == 0x78 || text[1] == 0x58) {
        2
    } else {
        0
    }
}

/// Whether the digits of an argument end at `n`, with a zero byte.
pub open spec fn digits_end_at(text: Seq<u8>, n: int) -> bool {
    &&& digits_start(text) < n < MAX_UBOOT_GO_ARG_LEN
    &&& n < text.len()
    &&& text[n] == 0
    &&& forall|k: int| digits_start(text) <= k < n ==> is_hex_digit(#[trigger] text[k])
}

/// Whether an argument is an address: digits, then a zero byte.
pub open spec fn is_address(text: Seq<u8>, value: u64) -> bool {
    exists|n: int| #[trigger]
        digits_end_at(text, n) && hex_number(text.subrange(digits_start(text), n)) == value
}

proof fn lemma_hex_number_grows(digits: Seq<u8>, n: int)
    requires
        0 <= n <= digits.len(),
        forall|k: int| 0 <= k < digits.len() ==> is_hex_digit(#[trigger] digits[k]),
    ensures
        0 <= hex_number(digits.take(n)) <= hex_number(digits),
    decreases digits.len(),
{
    if n == digits.len() {
        assert(digits.take(n) =~= digits);
        if digits.len() > 0 {
            lemma_hex_number_grows(digits.drop_last(), n - 1);
            assert(digits.drop_last().take(n - 1) =~= digits.drop_last());
            assert(is_hex_digit(digits[n - 1]));
        }
    } else {
        lemma_hex_number_grows(digits.drop_last(), n);
        assert(digits.drop_last().take(n) =~= digits.take(n));
        assert(is_hex_digit(digits[digits.len() - 1]));
        assert(is_hex_digit(digits.last()));
    }
}

/// The address that an argument names. `text` holds its bytes up to the zero
/// byte, or as many as an argument may have.
pub fn parse_uboot_go_addr_arg(text: &[u8]) -> (r: Option<u64>)
    ensures
        match r {
            Some(value) => is_address(text@, value),
            None => forall|value: u64| !is_address(text@, value),
        },
{
    let mut index: usize = 0;
    if text.len() >= 2 && text[0] == 0x30 && (text[1] == 0x78 || text[1] == 0x58) {
        index = 2;
    }
    let ghost start = index as int;
    let mut value: u64 = 0;
    let mut has_digit: bool = false;
    assert(text@.subrange(start, start) =~= Seq::empty());
    while index < MAX_UBOOT_GO_ARG_LEN && index < text.len()
        invariant
            start == digits_start(text@),
            start <= index <= text@.len(),
            index <= MAX_UBOOT_GO_ARG_LEN,
            has_digit == (index > start),
            forall|k: int| start <= k < index ==> is_hex_digit(#[trigger] text@[k]),
            value == hex_number(text@.subrange(start, index as int)),
        decreases MAX_UBOOT_GO_ARG_LEN - index,
    {
        let byte: u8 = text[index];
        if byte == 0 {
            proof {
                assert forall|n: int| #[trigger] digits_end_at(text@, n) implies n == index by {
                    if n > index {
                        assert(is_hex_digit(text@[index as int]));
                    } else if n < index {
                        assert(is_hex_digit(text@[n]));
                    }
                }
                if index > start {
                    assert(digits_end_at(text@, index as int));
                }
            }
            return if has_digit {
                Some(value)
            } else {
                None
            };
        }
        let digit: u64 = if 0x30 <= byte && byte <= 0x39 {
            (byte - 0x30) as u64
        } else if 0x61 <= byte && byte <= 0x66 {
            (byte - 0x61 + 10) as u64
        } else if 0x41 <= byte && byte <= 0x46 {
            (byte - 0x41 + 10) as u64
        } else {
            proof {
                assert forall|n: int| !(#[trigger] digits_end_at(text@, n)) by {
                    if digits_end_at(text@, n) {
                        if n > index {
                            assert(is_hex_digit(text@[index as int]));
                        } else if n < index {
                            assert(is_hex_digit(text@[n]));
                        }
                    }
                }
            }
            return None;
        };
        let ghost longer = text@.subrange(start, index + 1);
        assert(longer.drop_last() =~= text@.subrange(start, index as int));
        let scaled: Option<u64> = value.checked_mul(16);
        let next: Option<u64> = match scaled {
            Some(v) => v.checked_add(digit),
            None => None,
        };
        match next {
            Some(v) => {
                value = v;
            },
            None => {
                proof {
                    assert forall|n: int, v: u64|
                        #![trigger digits_end_at(text@, n), is_address(text@, v)]
                        digits_end_at(text@, n) implies hex_number(
                        text@.subrange(start, n),
                    ) > u64::MAX by {
                        if n <= index {
                            assert(is_hex_digit(byte));
                            if n < index {
                                assert(is_hex_digit(text@[n]));
                            }
                        } else {
                            let all = text@.subrange(start, n);
                            assert forall|k: int| 0 <= k < all.len() implies is_hex_digit(
                                #[trigger] all[k],
                            ) by {
                                assert(is_hex_digit(text@[start + k]));
                            }
                            lemma_hex_number_grows(all, index + 1 - start);
                            assert(all.take(index + 1 - start) =~= longer);
                        }
                    }
                }
                return None;
            },
        }
        has_digit = true;
        index = index + 1;
    }
    proof {
        assert forall|n: int| !(#[trigger] digits_end_at(text@, n)) by {
            if digits_end_at(text@, n) {
                assert(is_hex_digit(text@[n]));
            }
        }
    }
    None
}

/// The first of the arguments from the `i`-th on that is an address.
pub open spec fn first_address(args: Seq<Option<u64>>, i: int) -> Option<u64>
    decreases args.len() - i,
{
    if i < 0 || i >= args.len() {
        None
    } else if args[i] is Some {
        args[i]
    } else {
        first_address(args, i + 1)
    }
}

/// Where the tree is that U-Boot's arguments name. Each argument is given by the
/// address that it names, if any. The first is the entry and has to name one.
pub open spec fn spec_uboot_go_fdt_arg(args: Seq<Option<u64>>) -> Option<u64> {
    if args.len() == 0 || args[0] is None {
        None
    } else {
        match first_address(args, 1) {
            Some(a) => spec_canonical_phys(a),
            None => None,
        }
    }
}

pub fn uboot_go_fdt_arg(args: &[Option<u64>]) -> (r: Option<u64>)
    ensures
        r == spec_uboot_go_fdt_arg(args@),
{
    if args.len() == 0 || args[0].is_none() {
        return None;
    }
    let mut i: usize = 1;
    while i < args.len()
        invariant
            1 <= i <= args@.len(),
            args@[0] is Some,
            first_address(args@, 1) == first_address(args@, i as int),
        decreases args@.len() - i,
    {
        if let Some(address) = args[i] {
            return canonical_phys(address);
        }
        i = i + 1;
    }
    None
}

/// Where the tree is, from the two arguments that the kernel was entered with;
/// `args` are the arguments of U-Boot's `go`, as far as there are any.
pub fn boot_fdt_paddr(arg0: u64, arg1: u64, args: &[Option<u64>]) -> (r: Option<u64>)
    ensures
        r == if arg0 == UHI_FDT_ARG0 {
            spec_canonical_phys(arg1)
        } else {
            spec_uboot_go_fdt_arg(args@)
        },
{
    if arg0 == UHI_FDT_ARG0 {
        canonical_phys(arg1)
    } else {
        uboot_go_fdt_arg(args)
    }
}

/// Where the header of a tree is looked for: through the cached window first,
/// then through the other one.
pub open spec fn spec_fdt_headers(dtb_paddr: u64) -> Option<(u64, u64)> {
    match spec_canonical_phys(dtb_paddr) {
        None => None,
        Some(p) => if p + HEADER_SIZE > DMW_PHYS_MASK {
            None
        } else {
            Some(((DMW_CACHED_BASE + p) as u64, (DMW_UNCACHED_BASE + p) as u64))
        },
    }
}

pub fn fdt_headers(dtb_paddr: u64) -> (r: Option<(u64, u64)>)
    ensures
        r == spec_fdt_headers(dtb_paddr),
{
    let p: u64 = match canonical_phys(dtb_paddr) {
        Some(p) => p,
        None => {
            return None;
        },
    };
    let header_end: u64 = match p.checked_add(HEADER_SIZE) {
        Some(e) => e,
        None => {
            return None;
        },
    };
    if header_end > DMW_PHYS_MASK {
        return None;
    }
    match (phys_to_cached_dmw(p), phys_to_uncached_dmw(p)) {
        (Some(cached), Some(uncached)) => Some((cached, uncached)),
        _ => None,
    }
}

/// Where a tree is read and how many bytes it has, from the sizes that its
/// header gives through the two windows; none where there is no header.
pub open spec fn spec_fdt_from_phys(
    dtb_paddr: u64,
    cached: Option<u32>,
    uncached: Option<u32>,
) -> Option<(u64, u64)> {
    match spec_fdt_headers(dtb_paddr) {
        None => None,
        Some((c, u)) => {
            let found = match cached {
                Some(size) => Some((c, size)),
                None => match uncached {
                    Some(size) => Some((u, size)),
                    None => None,
                },
            };
            match found {
                None => None,
                Some((vaddr, size)) => if HEADER_SIZE <= size <= MAX_DTB_SIZE
                    && spec_canonical_phys(dtb_paddr)->0 + size <= DMW_PHYS_MASK {
                    Some((vaddr, size as u64))
                } else {
                    None
                },
            }
        },
    }
}

pub fn fdt_from_phys(dtb_paddr: u64, cached: Option<u32>, uncached: Option<u32>) -> (r: Option<
    (u64, u64),
>)
    ensures
        r == spec_fdt_from_phys(dtb_paddr, cached, uncached),
{
    let (c, u): (u64, u64) = match fdt_headers(dtb_paddr) {
        Some(x) => x,
        None => {
            return None;
        },
    };
    let p: u64 = match canonical_phys(dtb_paddr) {
        Some(p) => p,
        None => {
            return None;
        },
    };
    let (vaddr, size): (u64, u32) = match cached {
        Some(size) => (c, size),
        None => match uncached {
            Some(size) => (u, size),
            None => {
                return None;
            },
        },
    };
    let total_size: u64 = size as u64;
    let dtb_end: u64 = match p.checked_add(total_size) {
        Some(e) => e,
        None => {
            return None;
        },
    };
    if total_size < HEADER_SIZE || total_size > MAX_DTB_SIZE || dtb_end > DMW_PHYS_MASK {
        return None;
    }
    Some((vaddr, total_size))
}

pub open spec fn okay_text() -> Seq<u8> {
    seq![0x6fu8, 0x6b, 0x61, 0x79]
}

pub open spec fn ok_text() -> Seq<u8> {
    seq![0x6fu8, 0x6b]
}

pub open spec fn cpu_text() -> Seq<u8> {
    seq![0x63u8, 0x70, 0x75]
}

/// A node is in use where its status is missing, `okay` or `ok`.
pub open spec fn spec_is_available(status: Option<Seq<u8>>) -> bool {
    match status {
        None => true,
        Some(s) => s == okay_text() || s == ok_text(),
    }
}

fn same_text(a: &[u8], b: &[u8]) -> (r: bool)
    ensures
        r == (a@ == b@),
{
    if a.len() != b.len() {
        return false;
    }
    let mut i: usize = 0;
    while i < a.len()
        invariant
            i <= a@.len(),
            a@.len() == b@.len(),
            forall|k: int| 0 <= k < i ==> a@[k] == b@[k],
        decreases a@.len() - i,
    {
        if a[i] != b[i] {
            return false;
        }
        i = i + 1;
    }
    assert(a@ =~= b@);
    true
}

pub fn is_available(status: &Option<Vec<u8>>) -> (r: bool)
    ensures
        r == spec_is_available(text_view(*status)),
{
    let okay: [u8; 4] = [0x6f, 0x6b, 0x61, 0x79];
    let ok: [u8; 2] = [0x6f, 0x6b];
    assert(okay@ =~= okay_text());
    assert(ok@ =~= ok_text());
    match status {
        None => true,
        Some(s) => same_text(s.as_slice(), &okay) || same_text(s.as_slice(), &ok),
    }
}

/// A CPU has a name that starts with `cpu@`, is of the type `cpu` where it has
/// one, and is in use.
pub open spec fn spec_is_available_cpu(n: CpuNodeView) -> bool {
    &&& n.name.len() >= 4
    &&& n.name[0] == 0x63 && n.name[1] == 0x70 && n.name[2] == 0x75 && n.name[3] == 0x40
    &&& (n.device_type is None || n.device_type == Some(cpu_text()))
    &&& spec_is_available(n.status)
}

pub fn is_available_cpu(node: &CpuNode) -> (r: bool)
    ensures
        r == spec_is_available_cpu(node@),
{
    if node.name.len() < 4 || node.name[0] != 0x63 || node.name[1] != 0x70 || node.name[2] != 0x75
        || node.name[3] != 0x40 {
        return false;
    }
    let cpu: [u8; 3] = [0x63, 0x70, 0x75];
    assert(cpu@ =~= cpu_text());
    let typed: bool = match &node.device_type {
        None => true,
        Some(t) => same_text(t.as_slice(), &cpu),
    };
    typed && is_available(&node.status)
}

/// The identifier of a CPU: its first register address.
pub open spec fn spec_cpu_hardware_id(n: CpuNodeView) -> Option<usize> {
    match n.reg {
        None => None,
        Some(regs) => if regs.len() > 0 && regs[0] <= usize::MAX {
            Some(regs[0] as usize)
        } else {
            None
        },
    }
}

pub fn cpu_hardware_id(node: &CpuNode) -> (r: Option<usize>)
    ensures
        r == spec_cpu_hardware_id(node@),
{
    match &node.reg {
        None => None,
        Some(regs) => {
            if regs.len() > 0 && regs[0] <= usize::MAX as u64 {
                Some(regs[0] as usize)
            } else {
                None
            }
        },
    }
}

/// The identifiers of the CPUs in use, from the `i`-th node on.
pub open spec fn cpu_ids(nodes: Seq<CpuNodeView>, i: int) -> Seq<usize>
    decreases nodes.len() - i,
{
    if i < 0 || i >= nodes.len() {
        Seq::empty()
    } else if spec_is_available_cpu(nodes[i]) && spec_cpu_hardware_id(nodes[i]) is Some {
        seq![spec_cpu_hardware_id(nodes[i])->0] + cpu_ids(nodes, i + 1)
    } else {
        cpu_ids(nodes, i + 1)
    }
}

fn list_cpu_ids(nodes: &Vec<CpuNode>) -> (r: Vec<usize>)
    ensures
        r@ == cpu_ids(cpu_views(nodes@), 0),
{
    let mut ids: Vec<usize> = Vec::new();
    let ghost views = cpu_views(nodes@);
    let mut i: usize = 0;
    assert(ids@ + cpu_ids(views, 0) =~= cpu_ids(views, 0));
    while i < nodes.len()
        invariant
            i <= nodes@.len(),
            views == cpu_views(nodes@),
            ids@ + cpu_ids(views, i as int) == cpu_ids(views, 0),
        decreases nodes@.len() - i,
    {
        let ghost before = ids@;
        assert(views[i as int] == nodes@[i as int]@);
        if is_available_cpu(&nodes[i]) {
            if let Some(id) = cpu_hardware_id(&nodes[i]) {
                ids.push(id);
                assert(ids@ + cpu_ids(views, i + 1) =~= before + (seq![id] + cpu_ids(
                    views,
                    i + 1,
                )));
            }
        }
        i = i + 1;
    }
    assert(ids@ + cpu_ids(views, nodes@.len() as int) =~= ids@);
    ids
}

/// The identifiers in the order of their numbers: each of `ids` from the `i`-th
/// on that is new gets the next number, while there is room.
pub open spec fn numbered(ids: Seq<usize>, i: int, taken: Seq<usize>, capacity: nat) -> Seq<usize>
    decreases ids.len() - i,
{
    if i < 0 || i >= ids.len() {
        taken
    } else {
        numbered(
            ids,
            i + 1,
            if ids[i] != INVALID_CPU_ID && taken.len() < capacity && !taken.contains(ids[i]) {
                taken.push(ids[i])
            } else {
                taken
            },
            capacity,
        )
    }
}

/// Whether the CPU that boots is listed and can have a number.
pub open spec fn can_boot(ids: Seq<usize>, boot: usize, capacity: nat) -> bool {
    ids.contains(boot) && boot != INVALID_CPU_ID && capacity > 0
}

/// The numbers of the CPUs: the one that boots comes first.
pub fn number_cpus<const CAPACITY: usize>(ids: &Vec<usize>, boot_cpu_id: usize) -> (r: Option<
    CpuTopology<CAPACITY>,
>)
    ensures
        match r {
            Some(t) => t.wf() && can_boot(ids@, boot_cpu_id, CAPACITY as nat) && t@ == numbered(
                ids@,
                0,
                seq![boot_cpu_id],
                CAPACITY as nat,
            ),
            None => !can_boot(ids@, boot_cpu_id, CAPACITY as nat),
        },
{
    let mut topology: CpuTopology<CAPACITY> = CpuTopology::empty();
    let mut i: usize = 0;
    let mut listed: bool = false;
    while i < ids.len()
        invariant
            i <= ids@.len(),
            listed ==> ids@.contains(boot_cpu_id),
            !listed ==> forall|k: int| 0 <= k < i ==> ids@[k] != boot_cpu_id,
        decreases ids@.len() - i,
    {
        if ids[i] == boot_cpu_id {
            listed = true;
        }
        i = i + 1;
    }
    if !listed || !topology.add_hardware_id(boot_cpu_id) {
        return None;
    }
    assert(topology@ =~= seq![boot_cpu_id]);
    i = 0;
    while i < ids.len()
        invariant
            i <= ids@.len(),
            topology.wf(),
            topology@.len() > 0 && topology@[0] == boot_cpu_id,
            numbered(ids@, 0, seq![boot_cpu_id], CAPACITY as nat) == numbered(
                ids@,
                i as int,
                topology@,
                CAPACITY as nat,
            ),
        decreases ids@.len() - i,
    {
        assert(topology@.contains(topology@[0]));
        if ids[i] != boot_cpu_id {
            let _ = topology.add_hardware_id(ids[i]);
        }
        i = i + 1;
    }
    Some(topology)
}

/// Whether a CPU other than the one that boots is listed once there is no room
/// for it: those behind it are not looked at.
pub open spec fn fills_up(
    ids: Seq<usize>,
    i: int,
    taken: Seq<usize>,
    boot: usize,
    capacity: nat,
) -> bool
    decreases ids.len() - i,
{
    if i < 0 || i >= ids.len() {
        false
    } else if ids[i] != boot && taken.len() >= capacity {
        true
    } else {
        fills_up(
            ids,
            i + 1,
            if ids[i] != INVALID_CPU_ID && taken.len() < capacity && !taken.contains(ids[i]) {
                taken.push(ids[i])
            } else {
                taken
            },
            boot,
            capacity,
        )
    }
}

/// Tells whether the CPUs behind some in a list are not looked at.
pub fn list_fills_up<const CAPACITY: usize>(ids: &Vec<usize>, boot_cpu_id: usize) -> (r: bool)
    requires
        boot_cpu_id != INVALID_CPU_ID,
        CAPACITY > 0,
    ensures
        r == fills_up(ids@, 0, seq![boot_cpu_id], boot_cpu_id, CAPACITY as nat),
{
    let mut topology: CpuTopology<CAPACITY> = single_cpu_topology(boot_cpu_id);
    let mut i: usize = 0;
    while i < ids.len()
        invariant
            i <= ids@.len(),
            topology.wf(),
            fills_up(ids@, 0, seq![boot_cpu_id], boot_cpu_id, CAPACITY as nat) == fills_up(
                ids@,
                i as int,
                topology@,
                boot_cpu_id,
                CAPACITY as nat,
            ),
        decreases ids@.len() - i,
    {
        if ids[i] != boot_cpu_id && topology.cpu_count() >= CAPACITY {
            return true;
        }
        let _ = topology.add_hardware_id(ids[i]);
        i = i + 1;
    }
    false
}

/// The numbers of the CPUs that a tree lists. None where the CPU that boots is
/// not listed, or where the list cannot be read as far as it is looked at.
pub fn parse_cpu_topology<const CAPACITY: usize>(boot_cpu_id: usize, dtb: &[u8]) -> (r: Option<
    CpuTopology<CAPACITY>,
>)
    ensures
        ({
            let ids = cpu_ids(listed_cpus(dtb@), 0);
            let known = has_header(dtb@) && can_boot(ids, boot_cpu_id, CAPACITY as nat) && (
            visitable(dtb@, true) is None || fills_up(
                ids,
                0,
                seq![boot_cpu_id],
                boot_cpu_id,
                CAPACITY as nat,
            ));
            match r {
                Some(t) => known && t.wf() && t@ == numbered(
                    ids,
                    0,
                    seq![boot_cpu_id],
                    CAPACITY as nat,
                ),
                None => !known,
            }
        }),
{
    match read_cpus(dtb) {
        None => None,
        Some((nodes, all)) => {
            let ids: Vec<usize> = list_cpu_ids(&nodes);
            match number_cpus(&ids, boot_cpu_id) {
                None => None,
                Some(topology) => {
                    if all || list_fills_up::<CAPACITY>(&ids, boot_cpu_id) {
                        Some(topology)
                    } else {
                        None
                    }
                },
            }
        },
    }
}

/// The number of the CPU that boots, where there is only that one.
pub fn single_cpu_topology<const CAPACITY: usize>(boot_cpu_id: usize) -> (r: CpuTopology<CAPACITY>)
    requires
        boot_cpu_id != INVALID_CPU_ID,
        CAPACITY > 0,
    ensures
        r.wf(),
        r@ == seq![boot_cpu_id],
{
    let mut topology: CpuTopology<CAPACITY> = CpuTopology::empty();
    let _ = topology.add_hardware_id(boot_cpu_id);
    assert(topology@ =~= seq![boot_cpu_id]);
    topology
}

/// The CPU that boots has the number zero, and the others follow in the order
/// in which they are listed: what has a number is listed or boots.
pub proof fn lemma_boot_cpu_comes_first(ids: Seq<usize>, i: int, taken: Seq<usize>, capacity: nat)
    requires
        taken.len() > 0,
        0 <= i,
    ensures
        numbered(ids, i, taken, capacity).len() >= taken.len(),
        numbered(ids, i, taken, capacity)[0] == taken[0],
        forall|k: int|
            0 <= k < numbered(ids, i, taken, capacity).len() ==> taken.contains(
                #[trigger] numbered(ids, i, taken, capacity)[k],
            ) || ids.contains(numbered(ids, i, taken, capacity)[k]),
    decreases ids.len() - i,
{
    let all = numbered(ids, i, taken, capacity);
    if i < ids.len() {
        let next = if ids[i] != INVALID_CPU_ID && taken.len() < capacity && !taken.contains(ids[i]) {
            taken.push(ids[i])
        } else {
            taken
        };
        lemma_boot_cpu_comes_first(ids, i + 1, next, capacity);
        assert(all == numbered(ids, i + 1, next, capacity));
        assert forall|k: int| 0 <= k < all.len() implies taken.contains(#[trigger] all[k])
            || ids.contains(all[k]) by {
            if next.contains(all[k]) && !taken.contains(all[k]) {
                let j = choose|j: int| 0 <= j < next.len() && next[j] == all[k];
                if j < taken.len() {
                    assert(taken[j] == all[k]);
                }
                assert(ids[i] == all[k]);
            }
        }
    } else {
        assert forall|k: int| 0 <= k < all.len() implies taken.contains(#[trigger] all[k]) by {
            assert(taken[k] == all[k]);
        }
    }
}

/// Where the interrupt controller is and how it is wired.
#[derive(Clone, Copy, Debug, PartialEq, Eq, Structural)]
pub struct LioIntcTopology {
    pub reg_paddr: u64,
    pub isr_paddr: u64,
    pub cascade_irq: u64,
}

/// `loongson,2k1000-icu`
pub open spec fn icu_text() -> Seq<u8> {
    seq![
        0x6cu8, 0x6f, 0x6f, 0x6e, 0x67, 0x73, 0x6f, 0x6e, 0x2c, 0x32, 0x6b, 0x31, 0x30, 0x30, 0x30,
        0x2d, 0x69, 0x63, 0x75,
    ]
}

/// `loongson,ls2k1000-icu`
pub open spec fn ls_icu_text() -> Seq<u8> {
    seq![
        0x6cu8, 0x6f, 0x6f, 0x6e, 0x67, 0x73, 0x6f, 0x6e, 0x2c, 0x6c, 0x73, 0x32, 0x6b, 0x31, 0x30,
        0x30, 0x30, 0x2d, 0x69, 0x63, 0x75,
    ]
}

/// `loongson,liointc`
pub open spec fn liointc_text() -> Seq<u8> {
    seq![
        0x6cu8, 0x6f, 0x6f, 0x6e, 0x67, 0x73, 0x6f, 0x6e, 0x2c, 0x6c, 0x69, 0x6f, 0x69, 0x6e, 0x74,
        0x63,
    ]
}

pub open spec fn is_liointc_name(c: Seq<u8>) -> bool {
    c == icu_text() || c == ls_icu_text() || c == liointc_text()
}

fn names_liointc(c: &[u8]) -> (r: bool)
    ensures
        r == is_liointc_name(c@),
{
    let icu: [u8; 19] = [
        0x6c, 0x6f, 0x6f, 0x6e, 0x67, 0x73, 0x6f, 0x6e, 0x2c, 0x32, 0x6b, 0x31, 0x30, 0x30, 0x30,
        0x2d, 0x69, 0x63, 0x75,
    ];
    let ls_icu: [u8; 21] = [
        0x6c, 0x6f, 0x6f, 0x6e, 0x67, 0x73, 0x6f, 0x6e, 0x2c, 0x6c, 0x73, 0x32, 0x6b, 0x31, 0x30,
        0x30, 0x30, 0x2d, 0x69, 0x63, 0x75,
    ];
    let liointc: [u8; 16] = [
        0x6c, 0x6f, 0x6f, 0x6e, 0x67, 0x73, 0x6f, 0x6e, 0x2c, 0x6c, 0x69, 0x6f, 0x69, 0x6e, 0x74,
        0x63,
    ];
    assert(icu@ =~= icu_text());
    assert(ls_icu@ =~= ls_icu_text());
    assert(liointc@ =~= liointc_text());
    same_text(c, &icu) || same_text(c, &ls_icu) || same_text(c, &liointc)
}

/// Whether a node is the interrupt controller.
pub open spec fn is_liointc(n: DeviceNodeView) -> bool {
    spec_is_available(n.status) && exists|i: int|
        0 <= i < n.compatibles.len() && is_liointc_name(#[trigger] n.compatibles[i])
}

/// The first node from the `i`-th on that is the interrupt controller.
pub open spec fn first_liointc(nodes: Seq<DeviceNodeView>, i: int) -> Option<DeviceNodeView>
    decreases nodes.len() - i,
{
    if i < 0 || i >= nodes.len() {
        None
    } else if is_liointc(nodes[i]) {
        Some(nodes[i])
    } else {
        first_liointc(nodes, i + 1)
    }
}

/// What the node of the interrupt controller says; none where that is not
/// complete.
pub open spec fn spec_liointc(n: DeviceNodeView) -> Option<LioIntcTopology> {
    if n.reg is None || n.interrupts is None || n.reg->0.len() < 2 || n.interrupts->0.len() < 1 {
        None
    } else {
        let reg = n.reg->0[0];
        let isr = n.reg->0[1];
        let irq = n.interrupts->0[0] as u64;
        if spec_firmware_to_phys(reg.0) is None || spec_firmware_to_phys(isr.0) is None || reg.1
            is None || isr.1 is None || reg.1->0 < LIOINTC_REG_MIN_SIZE || isr.1->0
            < LIOINTC_ISR_MIN_SIZE || spec_parent_index(irq) is None {
            None
        } else {
            Some(
                LioIntcTopology {
                    reg_paddr: spec_firmware_to_phys(reg.0)->0,
                    isr_paddr: spec_firmware_to_phys(isr.0)->0,
                    cascade_irq: irq,
                },
            )
        }
    }
}

fn node_is_liointc(node: &DeviceNode) -> (r: bool)
    ensures
        r == is_liointc(node@),
{
    if !is_available(&node.status) {
        return false;
    }
    let mut i: usize = 0;
    while i < node.compatibles.len()
        invariant
            i <= node.compatibles@.len(),
            spec_is_available(node@.status),
            forall|k: int| 0 <= k < i ==> !is_liointc_name(#[trigger] node@.compatibles[k]),
        decreases node.compatibles@.len() - i,
    {
        assert(node@.compatibles[i as int] == node.compatibles@[i as int]@);
        if names_liointc(node.compatibles[i].as_slice()) {
            return true;
        }
        i = i + 1;
    }
    false
}

/// What the node of the interrupt controller says.
pub fn read_liointc(node: &DeviceNode) -> (r: Option<LioIntcTopology>)
    ensures
        r == spec_liointc(node@),
{
    match (&node.reg, &node.interrupts) {
        (Some(regs), Some(cells)) => {
            if regs.len() < 2 || cells.len() < 1 {
                return None;
            }
            let irq: u64 = cells[0] as u64;
            match (
                firmware_to_phys(regs[0].0),
                regs[0].1,
                firmware_to_phys(regs[1].0),
                regs[1].1,
            ) {
                (Some(reg_paddr), Some(reg_size), Some(isr_paddr), Some(isr_size)) => {
                    if reg_size < LIOINTC_REG_MIN_SIZE || isr_size < LIOINTC_ISR_MIN_SIZE
                        || parent_index_from_cpu_irq(irq).is_none() {
                        return None;
                    }
                    Some(LioIntcTopology { reg_paddr, isr_paddr, cascade_irq: irq })
                },
                _ => None,
            }
        },
        _ => None,
    }
}

/// Where the interrupt controller is, by the nodes of a tree.
pub fn find_liointc(nodes: &Vec<DeviceNode>) -> (r: Option<LioIntcTopology>)
    ensures
        r == match first_liointc(device_views(nodes@), 0) {
            Some(n) => spec_liointc(n),
            None => None,
        },
{
    let ghost views = device_views(nodes@);
    let mut i: usize = 0;
    while i < nodes.len()
        invariant
            i <= nodes@.len(),
            views == device_views(nodes@),
            first_liointc(views, 0) == first_liointc(views, i as int),
        decreases nodes@.len() - i,
    {
        assert(views[i as int] == nodes@[i as int]@);
        if node_is_liointc(&nodes[i]) {
            return read_liointc(&nodes[i]);
        }
        i = i + 1;
    }
    None
}

/// Where the interrupt controller is, by a tree. None where it cannot be read as
/// far as the node of the controller, or does not say it completely.
pub fn parse_liointc_topology(dtb: &[u8]) -> (r: Option<LioIntcTopology>)
    ensures
        r == if has_header(dtb@) {
            match first_liointc(listed_devices(dtb@), 0) {
                Some(n) => spec_liointc(n),
                None => None,
            }
        } else {
            None
        },
{
    match read_devices(dtb) {
        None => None,
        Some((nodes, _)) => find_liointc(&nodes),
    }
}

/// Each CPU gets one number, and every CPU with a valid identifier gets one as
/// long as there are numbers.
pub proof fn lemma_every_cpu_is_numbered(
    ids: Seq<usize>,
    i: int,
    taken: Seq<usize>,
    capacity: nat,
    k: int,
)
    requires
        0 <= i <= ids.len(),
        taken.no_duplicates(),
    ensures
        ({
            let all = numbered(ids, i, taken, capacity);
            &&& all.no_duplicates()
            &&& all.len() >= taken.len()
            &&& all.len() <= capacity || all.len() == taken.len()
            &&& forall|x: usize| #[trigger] taken.contains(x) ==> all.contains(x)
            &&& i <= k < ids.len() && ids[k] != INVALID_CPU_ID && all.len() < capacity
                ==> all.contains(ids[k])
        }),
    decreases ids.len() - i,
{
    if i < ids.len() {
        let next = if ids[i] != INVALID_CPU_ID && taken.len() < capacity && !taken.contains(ids[i]) {
            taken.push(ids[i])
        } else {
            taken
        };
        assert(next.no_duplicates()) by {
            assert forall|m: int, n: int|
                0 <= m < next.len() && 0 <= n < next.len() && m != n implies next[m] != next[n] by {
                if m == taken.len() {
                    assert(taken.contains(taken[n]));
                } else if n == taken.len() {
                    assert(taken.contains(taken[m]));
                }
            }
        }
        assert forall|x: usize| #[trigger] taken.contains(x) implies next.contains(x) by {
            let j = choose|j: int| 0 <= j < taken.len() && taken[j] == x;
            assert(next[j] == x);
        }
        lemma_every_cpu_is_numbered(ids, i + 1, next, capacity, k);
        if ids[i] != INVALID_CPU_ID && taken.len() < capacity && !taken.contains(ids[i]) {
            assert(next[taken.len() as int] == ids[i]);
            assert(next.contains(ids[i]));
        }
    }
}

/// A node counts as a CPU if its name begins with `cpu@`, its type, if it has one,
/// is that of a CPU, and it is in use. Each such node with an identifier is listed.
pub proof fn lemma_listed_cpus(nodes: Seq<CpuNodeView>, i: int, k: int)
    requires
        0 <= i <= k < nodes.len(),
        nodes[k].name.len() >= 4,
        nodes[k].name[0] == 0x63,
        nodes[k].name[1] == 0x70,
        nodes[k].name[2] == 0x75,
        nodes[k].name[3] == 0x40,
        nodes[k].device_type is None || nodes[k].device_type == Some(seq![0x63u8, 0x70, 0x75]),
        nodes[k].status is None || nodes[k].status == Some(seq![0x6fu8, 0x6b]) || nodes[k].status
            == Some(seq![0x6fu8, 0x6b, 0x61, 0x79]),
        nodes[k].reg is Some,
        (nodes[k].reg->0).len() > 0,
        (nodes[k].reg->0)[0] <= usize::MAX,
    ensures
        cpu_ids(nodes, i).contains((nodes[k].reg->0)[0] as usize),
    decreases k - i,
{
    let all = cpu_ids(nodes, i);
    let rest = cpu_ids(nodes, i + 1);
    if i == k {
        assert(spec_is_available_cpu(nodes[k]));
        assert(all[0] == (nodes[k].reg->0)[0] as usize);
    } else {
        lemma_listed_cpus(nodes, i + 1, k);
        let x = (nodes[k].reg->0)[0] as usize;
        let j = choose|j: int| 0 <= j < rest.len() && rest[j] == x;
        if all != rest {
            assert(all == seq![spec_cpu_hardware_id(nodes[i])->0] + rest);
            assert(all[j + 1] == x);
        }
    }
}

/// The tree is where the first argument after the entry says that names an address.
pub proof fn lemma_first_address_counts(args: Seq<Option<u64>>, i: int)
    requires
        0 <= i <= args.len(),
    ensures
        match first_address(args, i) {
            Some(a) => exists|k: int|
                i <= k < args.len() && (#[trigger] args[k]) == Some(a) && forall|j: int|
                    i <= j < k ==> (#[trigger] args[j]) is None,
            None => forall|j: int| i <= j < args.len() ==> (#[trigger] args[j]) is None,
        },
    decreases args.len() - i,
{
    if i < args.len() {
        if args[i] is Some {
            assert(args[i] == first_address(args, i));
        } else {
            lemma_first_address_counts(args, i + 1);
            if let Some(a) = first_address(args, i + 1) {
                let k = choose|k: int|
                    i + 1 <= k < args.len() && (#[trigger] args[k]) == Some(a) && forall|j: int|
                        i + 1 <= j < k ==> (#[trigger] args[j]) is None;
                assert(args[k] == Some(a));
            }
        }
    }
}

} // verus!
