//! Memory instructions whose address the processor refuses as not aligned.
use vstd::prelude::*;

verus! {

/// Whether an instruction loads or stores.
#[derive(Copy, Clone, Debug, PartialEq, Eq, Structural)]
pub enum UnalignedAccessType {
    Read,
    Write,
}

/// The registers that an instruction works on.
#[derive(Copy, Clone, Debug, PartialEq, Eq, Structural)]
pub enum RegisterFile {
    General,
    FloatingPoint,
}

/// A decoded memory instruction.
#[derive(Copy, Clone, Debug, PartialEq, Eq, Structural)]
pub struct UnalignedAccess {
    pub address: u64,
    pub size: u8,
    pub access_type: UnalignedAccessType,
    pub register: usize,
    pub register_file: RegisterFile,
    pub signed: bool,
}

impl UnalignedAccess {
    /// The address of the first byte.
    pub fn address(&self) -> (r: u64)
        ensures
            r == self.address,
    {
        self.address
    }

    /// How many bytes are moved.
    pub fn size(&self) -> (r: usize)
        ensures
            r == self.size,
    {
        self.size as usize
    }

    pub fn access_type(&self) -> (r: UnalignedAccessType)
        ensures
            r == self.access_type,
    {
        self.access_type
    }

    /// The error that a fault at `fault_address` is.
    pub open spec fn spec_page_fault(self, fault_address: u64) -> UnalignedError {
        UnalignedError::PageFault(
            UnalignedPageFault {
                fault_address,
                access_address: self.address,
                size: self.size,
                access_type: self.access_type,
            },
        )
    }

    pub fn page_fault(&self, fault_address: u64) -> (r: UnalignedError)
        ensures
            r == self.spec_page_fault(fault_address),
    {
        UnalignedError::PageFault(
            UnalignedPageFault {
                fault_address,
                access_address: self.address,
                size: self.size,
                access_type: self.access_type,
            },
        )
    }
}

/// A fault on one byte of an access.
#[derive(Copy, Clone, Debug, PartialEq, Eq, Structural)]
pub struct UnalignedPageFault {
    pub fault_address: u64,
    pub access_address: u64,
    pub size: u8,
    pub access_type: UnalignedAccessType,
}

impl UnalignedPageFault {
    /// The address of the byte.
    pub fn fault_address(&self) -> (r: u64)
        ensures
            r == self.fault_address,
    {
        self.fault_address
    }

    /// The address of the first byte of the access.
    pub fn access_address(&self) -> (r: u64)
        ensures
            r == self.access_address,
    {
        self.access_address
    }

    /// How many bytes the access moves.
    pub fn size(&self) -> (r: usize)
        ensures
            r == self.size,
    {
        self.size as usize
    }

    pub fn access_type(&self) -> (r: UnalignedAccessType)
        ensures
            r == self.access_type,
    {
        self.access_type
    }
}

/// Why an access could not be made.
#[derive(Copy, Clone, Debug, PartialEq, Eq, Structural)]
pub enum UnalignedError {
    PageFault(UnalignedPageFault),
    UnsupportedInstruction { address: u64, instruction: u32 },
}

pub const LDH_OP: u32 = 0xa1;

pub const LDHU_OP: u32 = 0xa9;

pub const LDW_OP: u32 = 0xa2;

pub const LDWU_OP: u32 = 0xaa;

pub const LDD_OP: u32 = 0xa3;

pub const STH_OP: u32 = 0xa5;

pub const STW_OP: u32 = 0xa6;

pub const STD_OP: u32 = 0xa7;

pub const LDPTRW_OP: u32 = 0x24;

pub const LDPTRD_OP: u32 = 0x26;

pub const STPTRW_OP: u32 = 0x25;

pub const STPTRD_OP: u32 = 0x27;

pub const LDXH_OP: u32 = 0x7048;

pub const LDXHU_OP: u32 = 0x7008;

pub const LDXW_OP: u32 = 0x7010;

pub const LDXWU_OP: u32 = 0x7050;

pub const LDXD_OP: u32 = 0x7018;

pub const STXH_OP: u32 = 0x7028;

pub const STXW_OP: u32 = 0x7030;

pub const STXD_OP: u32 = 0x7038;

pub const FLDS_OP: u32 = 0xac;

pub const FLDD_OP: u32 = 0xae;

pub const FSTS_OP: u32 = 0xad;

pub const FSTD_OP: u32 = 0xaf;

pub const FSTXS_OP: u32 = 0x7070;

pub const FSTXD_OP: u32 = 0x7078;

pub const FLDXS_OP: u32 = 0x7060;

pub const FLDXD_OP: u32 = 0x7068;

/// What an instruction does: whether it loads, how many bytes, with which
/// registers, and whether a load extends the sign.
#[derive(Copy, Clone, Debug, PartialEq, Eq, Structural)]
pub struct AccessForm {
    pub access_type: UnalignedAccessType,
    pub size: u8,
    pub register_file: RegisterFile,
    pub signed: bool,
}

pub open spec fn form(
    access_type: UnalignedAccessType,
    size: u8,
    register_file: RegisterFile,
    signed: bool,
) -> Option<AccessForm> {
    Some(AccessForm { access_type, size, register_file, signed })
}

/// The form of an instruction with an opcode of ten bits and an offset.
pub open spec fn offset_form(op: u32) -> Option<AccessForm> {
    let (read, write) = (UnalignedAccessType::Read, UnalignedAccessType::Write);
    let (general, float) = (RegisterFile::General, RegisterFile::FloatingPoint);
    if op == LDD_OP {
        form(read, 8, general, true)
    } else if op == LDW_OP {
        form(read, 4, general, true)
    } else if op == LDWU_OP {
        form(read, 4, general, false)
    } else if op == LDH_OP {
        form(read, 2, general, true)
    } else if op == LDHU_OP {
        form(read, 2, general, false)
    } else if op == STD_OP {
        form(write, 8, general, false)
    } else if op == STW_OP {
        form(write, 4, general, false)
    } else if op == STH_OP {
        form(write, 2, general, false)
    } else if op == FLDD_OP {
        form(read, 8, float, true)
    } else if op == FLDS_OP {
        form(read, 4, float, true)
    } else if op == FSTD_OP {
        form(write, 8, float, false)
    } else if op == FSTS_OP {
        form(write, 4, float, false)
    } else {
        None
    }
}

/// The form of an instruction with an opcode of eight bits and a long offset.
pub open spec fn pointer_form(op: u32) -> Option<AccessForm> {
    let (read, write) = (UnalignedAccessType::Read, UnalignedAccessType::Write);
    let general = RegisterFile::General;
    if op == LDPTRD_OP {
        form(read, 8, general, true)
    } else if op == LDPTRW_OP {
        form(read, 4, general, true)
    } else if op == STPTRD_OP {
        form(write, 8, general, false)
    } else if op == STPTRW_OP {
        form(write, 4, general, false)
    } else {
        None
    }
}

/// The form of an instruction with an opcode of seventeen bits and an index.
pub open spec fn indexed_form(op: u32) -> Option<AccessForm> {
    let (read, write) = (UnalignedAccessType::Read, UnalignedAccessType::Write);
    let (general, float) = (RegisterFile::General, RegisterFile::FloatingPoint);
    if op == LDXD_OP {
        form(read, 8, general, true)
    } else if op == LDXW_OP {
        form(read, 4, general, true)
    } else if op == LDXWU_OP {
        form(read, 4, general, false)
    } else if op == LDXH_OP {
        form(read, 2, general, true)
    } else if op == LDXHU_OP {
        form(read, 2, general, false)
    } else if op == STXD_OP {
        form(write, 8, general, false)
    } else if op == STXW_OP {
        form(write, 4, general, false)
    } else if op == STXH_OP {
        form(write, 2, general, false)
    } else if op == FLDXD_OP {
        form(read, 8, float, true)
    } else if op == FLDXS_OP {
        form(read, 4, float, true)
    } else if op == FSTXD_OP {
        form(write, 8, float, false)
    } else if op == FSTXS_OP {
        form(write, 4, float, false)
    } else {
        None
    }
}

/// The form of an instruction: no opcode of one length is the beginning of an
/// opcode of another, so at most one of the three gives it.
pub open spec fn form_of(instruction: u32) -> Option<AccessForm> {
    match (
        offset_form(instruction >> 22),
        pointer_form(instruction >> 24),
        indexed_form(instruction >> 15),
    ) {
        (Some(f), _, _) => Some(f),
        (None, Some(f), _) => Some(f),
        (None, None, f) => f,
    }
}

/// What an instruction at fault at `address` decodes to.
pub open spec fn decoded(instruction: u32, address: u64) -> Result<UnalignedAccess, UnalignedError> {
    match form_of(instruction) {
        Some(f) => Ok(
            UnalignedAccess {
                address,
                size: f.size,
                access_type: f.access_type,
                register: (instruction & 0x1f) as usize,
                register_file: f.register_file,
                signed: f.signed,
            },
        ),
        None => Err(UnalignedError::UnsupportedInstruction { address, instruction }),
    }
}

/// Instructions of different lengths of opcode do not overlap.
pub proof fn lemma_forms_do_not_overlap(instruction: u32)
    ensures
        offset_form(instruction >> 22) is Some ==> pointer_form(instruction >> 24) is None
            && indexed_form(instruction >> 15) is None,
        pointer_form(instruction >> 24) is Some ==> indexed_form(instruction >> 15) is None,
{
    let i = instruction;
    assert((i >> 24) == (i >> 22) / 4 && (i >> 24) == (i >> 15) / 512 && (i >> 22) == (i >> 15)
        / 128) by (bit_vector);
}

/// What an opcode says: in an opcode of ten bits the lowest two give the size of
/// an access to a general register, the next whether it stores, the one after
/// that whether a load leaves the sign; accesses to floating-point registers,
/// and those with a long offset, alternate between load and store. An index
/// moves those bits up by three. Nothing else is decoded.
pub proof fn lemma_opcode_gives_the_access(instruction: u32, address: u64)
    ensures
        ({
            let o = instruction >> 22;
            let p = instruction >> 24;
            let x = instruction >> 15;
            let loads = UnalignedAccessType::Read;
            let stores = UnalignedAccessType::Write;
            let known = (0xa1 <= o <= 0xa7 && o != 0xa4) || o == 0xa9 || o == 0xaa || 0xac <= o
                <= 0xaf || 0x24 <= p <= 0x27 || x == 0x7008 || x == 0x7010 || x == 0x7018 || x
                == 0x7028 || x == 0x7030 || x == 0x7038 || x == 0x7048 || x == 0x7050 || x == 0x7060
                || x == 0x7068 || x == 0x7070 || x == 0x7078;
            match decoded(instruction, address) {
                Err(e) => !known && e == (UnalignedError::UnsupportedInstruction {
                    address,
                    instruction,
                }),
                Ok(a) => {
                    &&& known
                    &&& a.address == address
                    &&& a.register == instruction & 0x1f
                    &&& a.access_type == stores ==> !a.signed
                    &&& 0xa1 <= o <= 0xaa ==> {
                        &&& a.register_file == RegisterFile::General
                        &&& a.size == (if o % 4 == 1 {
                            2int
                        } else if o % 4 == 2 {
                            4
                        } else {
                            8
                        })
                        &&& a.access_type == (if (o / 4) % 2 == 1 {
                            stores
                        } else {
                            loads
                        })
                        &&& a.access_type == loads ==> a.signed == (o < 0xa8)
                    }
                    &&& 0xac <= o <= 0xaf ==> {
                        &&& a.register_file == RegisterFile::FloatingPoint
                        &&& a.size == (if o < 0xae {
                            4int
                        } else {
                            8
                        })
                        &&& a.access_type == (if o % 2 == 1 {
                            stores
                        } else {
                            loads
                        })
                    }
                    &&& 0x24 <= p <= 0x27 ==> {
                        &&& a.register_file == RegisterFile::General
                        &&& a.size == (if p < 0x26 {
                            4int
                        } else {
                            8
                        })
                        &&& a.access_type == (if p % 2 == 1 {
                            stores
                        } else {
                            loads
                        })
                        &&& a.access_type == loads ==> a.signed
                    }
                    &&& 0x7008 <= x <= 0x7050 ==> {
                        &&& a.register_file == RegisterFile::General
                        &&& a.size == (if (x / 8) % 4 == 1 {
                            2int
                        } else if (x / 8) % 4 == 2 {
                            4
                        } else {
                            8
                        })
                        &&& a.access_type == (if (x / 32) % 2 == 1 {
                            stores
                        } else {
                            loads
                        })
                        &&& a.access_type == loads ==> a.signed == (x != 0x7008 && x != 0x7050)
                    }
                    &&& 0x7060 <= x <= 0x7078 ==> {
                        &&& a.register_file == RegisterFile::FloatingPoint
                        &&& a.size == (if (x / 8) % 2 == 0 {
                            4int
                        } else {
                            8
                        })
                        &&& a.access_type == (if x >= 0x7070 {
                            stores
                        } else {
                            loads
                        })
                    }
                },
            }
        }),
{
    lemma_forms_do_not_overlap(instruction);
    let i = instruction;
    assert((i >> 24) == (i >> 22) / 4 && (i >> 24) == (i >> 15) / 512 && (i >> 22) == (i >> 15)
        / 128) by (bit_vector);
}

/// Decodes an instruction that was refused at `address`.
pub fn decode_unaligned_access(instruction: u32, address: u64) -> (r: Result<
    UnalignedAccess,
    UnalignedError,
>)
    ensures
        r == decoded(instruction, address),
        r matches Ok(access) ==> access.register < 32 && (access.size == 2 || access.size == 4
            || access.size == 8),
{
    assert((instruction & 0x1f) < 32) by (bit_vector);
    proof {
        lemma_forms_do_not_overlap(instruction);
    }
    let register: usize = (instruction & 0x1f) as usize;
    let op22: u32 = instruction >> 22;
    let op24: u32 = instruction >> 24;
    let op15: u32 = instruction >> 15;
    let (access_type, size, register_file, signed): (
        UnalignedAccessType,
        u8,
        RegisterFile,
        bool,
    ) = if op22 == LDD_OP || op24 == LDPTRD_OP || op15 == LDXD_OP {
        (UnalignedAccessType::Read, 8, RegisterFile::General, true)
    } else if op22 == LDW_OP || op24 == LDPTRW_OP || op15 == LDXW_OP {
        (UnalignedAccessType::Read, 4, RegisterFile::General, true)
    } else if op22 == LDWU_OP || op15 == LDXWU_OP {
        (UnalignedAccessType::Read, 4, RegisterFile::General, false)
    } else if op22 == LDH_OP || op15 == LDXH_OP {
        (UnalignedAccessType::Read, 2, RegisterFile::General, true)
    } else if op22 == LDHU_OP || op15 == LDXHU_OP {
        (UnalignedAccessType::Read, 2, RegisterFile::General, false)
    } else if op22 == STD_OP || op24 == STPTRD_OP || op15 == STXD_OP {
        (UnalignedAccessType::Write, 8, RegisterFile::General, false)
    } else if op22 == STW_OP || op24 == STPTRW_OP || op15 == STXW_OP {
        (UnalignedAccessType::Write, 4, RegisterFile::General, false)
    } else if op22 == STH_OP || op15 == STXH_OP {
        (UnalignedAccessType::Write, 2, RegisterFile::General, false)
    } else if op22 == FLDD_OP || op15 == FLDXD_OP {
        (UnalignedAccessType::Read, 8, RegisterFile::FloatingPoint, true)
    } else if op22 == FLDS_OP || op15 == FLDXS_OP {
        (UnalignedAccessType::Read, 4, RegisterFile::FloatingPoint, true)
    } else if op22 == FSTD_OP || op15 == FSTXD_OP {
        (UnalignedAccessType::Write, 8, RegisterFile::FloatingPoint, false)
    } else if op22 == FSTS_OP || op15 == FSTXS_OP {
        (UnalignedAccessType::Write, 4, RegisterFile::FloatingPoint, false)
    } else {
        return Err(UnalignedError::UnsupportedInstruction { address, instruction });
    };
    Ok(UnalignedAccess { address, size, access_type, register, register_file, signed })
}

/// The state that a trap interrupted.
pub struct TrapFrame {
    pub regs: [u64; 32],
    /// The address of the instruction.
    pub era: u64,
}

/// A write to a floating-point register.
#[derive(Copy, Clone, Debug, PartialEq, Eq, Structural)]
pub struct FprWrite {
    pub index: usize,
    pub value: u64,
}

impl TrapFrame {
    /// Decodes the instruction word at the saved address.
    pub fn decode_unaligned_access_at(&self, instruction: u32, fault_address: u64) -> (r: Result<
        UnalignedAccess,
        UnalignedError,
    >)
        ensures
            r == decoded(instruction, fault_address),
    {
        decode_unaligned_access(instruction, fault_address)
    }

    /// What a store writes, where `fpr` is what the floating-point register of
    /// the access holds.
    pub fn store_value(&self, access: &UnalignedAccess, fpr: u64) -> (r: u64)
        requires
            access.register < 32,
        ensures
            r == match access.register_file {
                RegisterFile::General => self.regs@[access.register as int],
                RegisterFile::FloatingPoint => fpr,
            },
    {
        match access.register_file {
            RegisterFile::General => self.regs[access.register],
            RegisterFile::FloatingPoint => fpr,
        }
    }

    /// Takes in how the bytes of an access went: the value that was read, or the
    /// address of the byte that faulted. A register and the address of the next
    /// instruction are set only where all bytes went well. A load of a
    /// floating-point register leaves that register to be written.
    pub fn emulate_unaligned_access(
        &mut self,
        access: &UnalignedAccess,
        outcome: Result<u64, u64>,
    ) -> (r: Result<Option<FprWrite>, UnalignedError>)
        requires
            access.register < 32,
            outcome is Ok ==> old(self).era + 4 <= u64::MAX,
        ensures
            match outcome {
                Err(fault_address) => r == Err::<Option<FprWrite>, UnalignedError>(
                    access.spec_page_fault(fault_address),
                ) && *final(self) == *old(self),
                Ok(value) => {
                    let loads = access.access_type == UnalignedAccessType::Read;
                    &&& r == Ok::<Option<FprWrite>, UnalignedError>(
                        if loads && access.register_file == RegisterFile::FloatingPoint {
                            Some(FprWrite { index: access.register, value })
                        } else {
                            None
                        },
                    )
                    &&& final(self).era == old(self).era + 4
                    &&& final(self).regs@ == if loads && access.register_file
                        == RegisterFile::General {
                        old(self).regs@.update(access.register as int, value)
                    } else {
                        old(self).regs@
                    }
                },
            },
    {
        match outcome {
            Err(fault_address) => Err(access.page_fault(fault_address)),
            Ok(value) => {
                let mut fpr: Option<FprWrite> = None;
                if access.access_type == UnalignedAccessType::Read {
                    match access.register_file {
                        RegisterFile::General => {
                            self.regs[access.register] = value;
                        },
                        RegisterFile::FloatingPoint => {
                            fpr = Some(FprWrite { index: access.register, value });
                        },
                    }
                }
                self.era = self.era + 4;
                Ok(fpr)
            },
        }
    }
}

} // verus!
