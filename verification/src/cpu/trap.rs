//! What a trap leads to.
use vstd::prelude::*;

use crate::mm::flags::MappingFlags;

verus! {

/// Why a trap was taken.
#[derive(Clone, Copy, Debug, PartialEq, Eq, Structural)]
pub enum TrapCause {
    Syscall,
    LoadPageFault,
    StorePageFault,
    FetchPageFault,
    PageModifyFault,
    PageNonReadableFault,
    PageNonExecutableFault,
    PagePrivilegeIllegal,
    FetchInstructionAddressError,
    MemoryAccessAddressError,
    AddressNotAligned,
    Breakpoint,
    InstructionNotExist,
    InstructionPrivilegeIllegal,
    /// Anything else that is not an interrupt.
    Other,
    /// An interrupt; the lines that are raised are the bits of `lines`.
    Interrupt { lines: u32 },
}

/// What the processor said of a trap.
#[derive(Clone, Copy, Debug, PartialEq, Eq, Structural)]
pub struct TrapInfo {
    pub cause: TrapCause,
    pub from_user: bool,
    /// The address of the instruction.
    pub era: u64,
    /// The address that was refused.
    pub badv: u64,
    /// The instruction word.
    pub badi: u32,
}

/// What the kernel was built with.
#[derive(Clone, Copy, Debug, PartialEq, Eq, Structural)]
pub struct TrapConfig {
    pub user_space: bool,
    pub ls2k1000: bool,
}

#[derive(Clone, Copy, Debug, PartialEq, Eq, Structural)]
pub enum AddressErrorKind {
    BadAddress,
    Misaligned,
}

/// What a trap leads to.
#[derive(Clone, Copy, Debug, PartialEq, Eq, Structural)]
pub enum TrapAction {
    /// The instruction pointer moves to `era`, then the call is made.
    Syscall { era: u64 },
    /// The translation of `flush` is dropped first, if there is one.
    PageFault { vaddr: u64, access: MappingFlags, user: bool, flush: Option<u64> },
    IllegalInstruction { era: u64 },
    AddressError { vaddr: u64, kind: AddressErrorKind },
    EmulateUnaligned { vaddr: u64 },
    Resume { era: u64 },
    Interrupt { line: u32 },
    /// The kernel cannot go on.
    Panic,
}

pub open spec fn read_access() -> MappingFlags {
    MappingFlags { read: true, ..MappingFlags::spec_empty() }
}

pub open spec fn write_access() -> MappingFlags {
    MappingFlags { write: true, ..MappingFlags::spec_empty() }
}

pub open spec fn execute_access() -> MappingFlags {
    MappingFlags { execute: true, ..MappingFlags::spec_empty() }
}

/// The access of a page fault, as the user's if it came from there.
pub open spec fn fault_access(access: MappingFlags, from_user: bool) -> MappingFlags {
    MappingFlags { user: access.user || from_user, ..access }
}

/// Whether an instruction that was refused for its page's privilege is one
/// that touches no memory, so that it was its own fetch that was refused.
pub open spec fn spec_ppi_is_instruction_fetch(badi: u32) -> bool {
    badi >> 22 == 0x0a || badi >> 22 == 0x0b
}

pub fn ppi_is_instruction_fetch(badi: u32) -> (r: bool)
    ensures
        r == spec_ppi_is_instruction_fetch(badi),
{
    badi >> 22 == 0x0a || badi >> 22 == 0x0b
}

/// The number of the lowest line from the `i`-th on that is raised, 32 if none
/// is.
pub open spec fn lowest_line(lines: u32, i: nat) -> nat
    decreases 32 - i,
{
    if i >= 32 {
        32
    } else if (lines >> (i as u32)) & 1 == 1 {
        i
    } else {
        lowest_line(lines, i + 1)
    }
}

proof fn lemma_lowest_line(lines: u32, i: nat)
    requires
        i <= 32,
    ensures
        i <= lowest_line(lines, i) <= 32,
        lowest_line(lines, i) < 32 ==> (lines >> (lowest_line(lines, i) as u32)) & 1 == 1,
        forall|j: u32| i <= j < lowest_line(lines, i) ==> #[trigger] (lines >> j) & 1 != 1,
    decreases 32 - i,
{
    if i < 32 && (lines >> (i as u32)) & 1 != 1 {
        lemma_lowest_line(lines, i + 1);
    }
}

fn pick_line(lines: u32) -> (r: u32)
    ensures
        r == lowest_line(lines, 0),
{
    let mut i: u32 = 0;
    while i < 32
        invariant
            i <= 32,
            lowest_line(lines, 0) == lowest_line(lines, i as nat),
        decreases 32 - i,
    {
        if (lines >> i) & 1 == 1 {
            return i;
        }
        i = i + 1;
    }
    32
}

/// What an access that the page's privilege forbids leads to. One board leaves
/// the refused address at zero when it was the fetch that was refused.
pub open spec fn privilege_action(t: TrapInfo, c: TrapConfig) -> TrapAction {
    if c.ls2k1000 && t.badv == 0 && spec_ppi_is_instruction_fetch(t.badi) {
        TrapAction::PageFault {
            vaddr: t.era,
            access: fault_access(execute_access(), true),
            user: true,
            flush: Some(t.era),
        }
    } else {
        TrapAction::PageFault {
            vaddr: t.badv,
            access: fault_access(MappingFlags::spec_empty(), true),
            user: true,
            flush: Some(t.badv),
        }
    }
}

pub open spec fn page_fault_action(t: TrapInfo, access: MappingFlags) -> TrapAction {
    TrapAction::PageFault {
        vaddr: t.badv,
        access: fault_access(access, t.from_user),
        user: t.from_user,
        flush: None,
    }
}

/// What a trap leads to.
pub open spec fn trap_action(t: TrapInfo, c: TrapConfig) -> TrapAction {
    let unknown = if t.from_user {
        TrapAction::IllegalInstruction { era: t.era }
    } else {
        TrapAction::Panic
    };
    match t.cause {
        TrapCause::Syscall => if c.user_space {
            TrapAction::Syscall { era: (t.era + 4) as u64 }
        } else {
            unknown
        },
        TrapCause::LoadPageFault | TrapCause::PageNonReadableFault => page_fault_action(
            t,
            read_access(),
        ),
        TrapCause::StorePageFault | TrapCause::PageModifyFault => page_fault_action(
            t,
            write_access(),
        ),
        TrapCause::FetchPageFault | TrapCause::PageNonExecutableFault => page_fault_action(
            t,
            execute_access(),
        ),
        TrapCause::PagePrivilegeIllegal => if t.from_user {
            privilege_action(t, c)
        } else {
            TrapAction::Panic
        },
        TrapCause::FetchInstructionAddressError | TrapCause::MemoryAccessAddressError => {
            if t.from_user {
                TrapAction::AddressError { vaddr: t.badv, kind: AddressErrorKind::BadAddress }
            } else {
                TrapAction::Panic
            }
        },
        TrapCause::AddressNotAligned => if t.from_user {
            TrapAction::AddressError { vaddr: t.badv, kind: AddressErrorKind::Misaligned }
        } else if c.ls2k1000 {
            TrapAction::EmulateUnaligned { vaddr: t.badv }
        } else {
            TrapAction::Panic
        },
        TrapCause::Breakpoint => TrapAction::Resume { era: (t.era + 4) as u64 },
        TrapCause::InstructionNotExist | TrapCause::InstructionPrivilegeIllegal
        | TrapCause::Other => unknown,
        TrapCause::Interrupt { lines } => TrapAction::Interrupt {
            line: lowest_line(lines, 0) as u32,
        },
    }
}

fn page_fault(t: &TrapInfo, read: bool, write: bool, execute: bool) -> (r: TrapAction)
    ensures
        r == page_fault_action(
            *t,
            MappingFlags { read, write, execute, ..MappingFlags::spec_empty() },
        ),
{
    let mut access: MappingFlags = MappingFlags::empty();
    access.read = read;
    access.write = write;
    access.execute = execute;
    access.user = t.from_user;
    TrapAction::PageFault { vaddr: t.badv, access, user: t.from_user, flush: None }
}

/// Decides what an access that the page's privilege forbids leads to.
pub fn handle_user_page_privilege_illegal(t: &TrapInfo, c: &TrapConfig) -> (r: TrapAction)
    ensures
        r == privilege_action(*t, *c),
{
    let mut access: MappingFlags = MappingFlags::empty();
    access.user = true;
    if c.ls2k1000 && t.badv == 0 && ppi_is_instruction_fetch(t.badi) {
        access.execute = true;
        TrapAction::PageFault { vaddr: t.era, access, user: true, flush: Some(t.era) }
    } else {
        TrapAction::PageFault { vaddr: t.badv, access, user: true, flush: Some(t.badv) }
    }
}

/// Decides what a trap leads to.
pub fn loongarch64_trap_handler(t: &TrapInfo, c: &TrapConfig) -> (r: TrapAction)
    requires
        (t.cause is Syscall && c.user_space) || t.cause is Breakpoint ==> t.era + 4 <= u64::MAX,
    ensures
        r == trap_action(*t, *c),
        t.cause is LoadPageFault || t.cause is PageNonReadableFault ==> (r matches TrapAction::PageFault {
            vaddr,
            access,
            user,
            flush,
        } && vaddr == t.badv && access.read && !access.write && !access.execute && access.user
            == t.from_user && user == t.from_user && flush is None),
        t.cause is StorePageFault || t.cause is PageModifyFault ==> (r matches TrapAction::PageFault {
            vaddr,
            access,
            user,
            flush,
        } && vaddr == t.badv && !access.read && access.write && !access.execute && access.user
            == t.from_user && user == t.from_user && flush is None),
        t.cause is FetchPageFault || t.cause is PageNonExecutableFault ==> (r matches TrapAction::PageFault {
            vaddr,
            access,
            user,
            flush,
        } && vaddr == t.badv && !access.read && !access.write && access.execute && access.user
            == t.from_user && user == t.from_user && flush is None),
        t.cause is PagePrivilegeIllegal && t.from_user ==> (r matches TrapAction::PageFault {
            vaddr,
            access,
            user,
            flush,
        } && access.user && user && flush == Some(vaddr) && !access.read && !access.write && {
            let fetch = c.ls2k1000 && t.badv == 0 && (t.badi >> 22 == 0x0a || t.badi >> 22 == 0x0b);
            access.execute == fetch && vaddr == (if fetch {
                t.era
            } else {
                t.badv
            })
        }),
        t.cause is Syscall && c.user_space ==> r == (TrapAction::Syscall {
            era: (t.era + 4) as u64,
        }),
        t.cause is Breakpoint ==> r == (TrapAction::Resume { era: (t.era + 4) as u64 }),
        t.cause is AddressNotAligned && t.from_user ==> r == (TrapAction::AddressError {
            vaddr: t.badv,
            kind: AddressErrorKind::Misaligned,
        }),
        t.cause is AddressNotAligned && !t.from_user ==> r == (if c.ls2k1000 {
            TrapAction::EmulateUnaligned { vaddr: t.badv }
        } else {
            TrapAction::Panic
        }),
        (t.cause is FetchInstructionAddressError || t.cause is MemoryAccessAddressError)
            && t.from_user ==> r == (TrapAction::AddressError {
            vaddr: t.badv,
            kind: AddressErrorKind::BadAddress,
        }),
        (t.cause is InstructionNotExist || t.cause is InstructionPrivilegeIllegal || t.cause is Other
            || (t.cause is Syscall && !c.user_space)) && t.from_user ==> r == (
        TrapAction::IllegalInstruction { era: t.era }),
        !t.from_user && (t.cause is InstructionNotExist || t.cause is InstructionPrivilegeIllegal
            || t.cause is Other || (t.cause is Syscall && !c.user_space)
            || t.cause is PagePrivilegeIllegal || t.cause is FetchInstructionAddressError
            || t.cause is MemoryAccessAddressError) ==> r == TrapAction::Panic,
        t.cause matches TrapCause::Interrupt { lines } ==> (r matches TrapAction::Interrupt { line }
            && line <= 32 && (line < 32 ==> (lines >> line) & 1 == 1) && forall|j: u32|
            j < line ==> #[trigger] (lines >> j) & 1 != 1),
{
    proof {
        if let TrapCause::Interrupt { lines } = t.cause {
            lemma_lowest_line(lines, 0);
        }
    }
    match t.cause {
        TrapCause::Syscall => {
            if c.user_space {
                TrapAction::Syscall { era: t.era + 4 }
            } else if t.from_user {
                TrapAction::IllegalInstruction { era: t.era }
            } else {
                TrapAction::Panic
            }
        },
        TrapCause::LoadPageFault | TrapCause::PageNonReadableFault => page_fault(
            t,
            true,
            false,
            false,
        ),
        TrapCause::StorePageFault | TrapCause::PageModifyFault => page_fault(t, false, true, false),
        TrapCause::FetchPageFault | TrapCause::PageNonExecutableFault => page_fault(
            t,
            false,
            false,
            true,
        ),
        TrapCause::PagePrivilegeIllegal => {
            if t.from_user {
                handle_user_page_privilege_illegal(t, c)
            } else {
                TrapAction::Panic
            }
        },
        TrapCause::FetchInstructionAddressError | TrapCause::MemoryAccessAddressError => {
            if t.from_user {
                TrapAction::AddressError { vaddr: t.badv, kind: AddressErrorKind::BadAddress }
            } else {
                TrapAction::Panic
            }
        },
        TrapCause::AddressNotAligned => {
            if t.from_user {
                TrapAction::AddressError { vaddr: t.badv, kind: AddressErrorKind::Misaligned }
            } else if c.ls2k1000 {
                TrapAction::EmulateUnaligned { vaddr: t.badv }
            } else {
                TrapAction::Panic
            }
        },
        TrapCause::Breakpoint => TrapAction::Resume { era: t.era + 4 },
        TrapCause::InstructionNotExist | TrapCause::InstructionPrivilegeIllegal
        | TrapCause::Other => {
            if t.from_user {
                TrapAction::IllegalInstruction { era: t.era }
            } else {
                TrapAction::Panic
            }
        },
        TrapCause::Interrupt { lines } => TrapAction::Interrupt { line: pick_line(lines) },
    }
}

/// Whether the kernel can go on after an action, where `handled` is what the
/// handler of it said. System calls, breakpoints and interrupts ask no handler
/// for leave.
pub fn can_go_on(action: &TrapAction, handled: bool) -> (r: bool)
    ensures
        r == match *action {
            TrapAction::Syscall { .. } | TrapAction::Resume { .. } | TrapAction::Interrupt { .. } => true,
            TrapAction::Panic => false,
            _ => handled,
        },
{
    match action {
        TrapAction::Syscall { .. } | TrapAction::Resume { .. } | TrapAction::Interrupt { .. } => true,
        TrapAction::Panic => false,
        _ => handled,
    }
}

/// A trap from the user never stops the kernel by itself: there is always a
/// handler to ask.
pub proof fn lemma_user_trap_does_not_panic(t: TrapInfo, c: TrapConfig)
    requires
        t.from_user,
    ensures
        trap_action(t, c) != TrapAction::Panic,
{
}

/// A page fault from the user is handled as the user's.
pub proof fn lemma_user_fault_is_the_users(t: TrapInfo, c: TrapConfig)
    ensures
        trap_action(t, c) matches TrapAction::PageFault { access, user, .. } ==> user == t.from_user
            && access.user == t.from_user,
{
}

/// What the handlers registered for a trap answer: the first is asked, and
/// where there is none the trap is not handled.
pub fn first_handler(registered: usize) -> (r: (Option<usize>, bool))
    ensures
        r.0 == if registered > 0 {
            Some(0usize)
        } else {
            None
        },
        r.1 == (registered > 1),
{
    if registered > 0 {
        (Some(0), registered > 1)
    } else {
        (None, false)
    }
}

} // verus!
