//! Registers of the DWMAC 5.20.
use vstd::prelude::*;

verus! {

pub const GMAC_CONFIG: usize = 0x0000;

pub const GMAC_PACKET_FILTER: usize = 0x0008;

pub const GMAC_RXQ_CTRL0: usize = 0x00a0;

pub const GMAC_RXQ_CTRL1: usize = 0x00a4;

pub const GMAC_INT_STATUS: usize = 0x00b0;

pub const GMAC_INT_ENABLE: usize = 0x00b4;

pub const GMAC_DEBUG: usize = 0x0114;

pub const GMAC_HW_FEATURE1: usize = 0x0120;

pub const GMAC_MDIO_ADDR: usize = 0x0200;

pub const GMAC_MDIO_DATA: usize = 0x0204;

pub const GMAC_ADDR_HIGH0: usize = 0x0300;

pub const GMAC_ADDR_LOW0: usize = 0x0304;

pub const MMC_TX_FRAME_COUNT_GOOD_BAD: usize = 0x0718;

pub const MMC_TX_UNDERFLOW_ERROR: usize = 0x0748;

pub const MMC_TX_SINGLE_COLLISION_GOOD: usize = 0x074c;

pub const MMC_TX_MULTI_COLLISION_GOOD: usize = 0x0750;

pub const MMC_TX_DEFERRED: usize = 0x0754;

pub const MMC_TX_LATE_COLLISION: usize = 0x0758;

pub const MMC_TX_EXCESSIVE_COLLISION: usize = 0x075c;

pub const MMC_TX_CARRIER_ERROR: usize = 0x0760;

pub const MMC_TX_FRAME_COUNT_GOOD: usize = 0x0768;

pub const MMC_TX_EXCESSIVE_DEFERRAL: usize = 0x076c;

pub const MTL_TXQ0_OPERATION_MODE: usize = 0x0d00;

pub const MTL_TXQ0_DEBUG: usize = 0x0d08;

pub const MTL_RXQ0_OPERATION_MODE: usize = 0x0d30;

pub const DMA_MODE: usize = 0x1000;

pub const DMA_SYS_BUS_MODE: usize = 0x1004;

pub const DMA_CH0_CONTROL: usize = 0x1100;

pub const DMA_CH0_TX_CONTROL: usize = 0x1104;

pub const DMA_CH0_RX_CONTROL: usize = 0x1108;

pub const DMA_CH0_TX_BASE_HIGH: usize = 0x1110;

pub const DMA_CH0_TX_BASE_LOW: usize = 0x1114;

pub const DMA_CH0_RX_BASE_HIGH: usize = 0x1118;

pub const DMA_CH0_RX_BASE_LOW: usize = 0x111c;

pub const DMA_CH0_TX_TAIL: usize = 0x1120;

pub const DMA_CH0_RX_TAIL: usize = 0x1128;

pub const DMA_CH0_TX_RING_LEN: usize = 0x112c;

pub const DMA_CH0_RX_RING_LEN: usize = 0x1130;

pub const DMA_CH0_INT_ENABLE: usize = 0x1134;

pub const DMA_CH0_CURRENT_TX_DESC: usize = 0x1144;

pub const DMA_CH0_CURRENT_RX_DESC: usize = 0x114c;

pub const DMA_CH0_CURRENT_TX_BUFFER_HIGH: usize = 0x1150;

pub const DMA_CH0_CURRENT_TX_BUFFER_LOW: usize = 0x1154;

pub const DMA_CH0_STATUS: usize = 0x1160;

pub const GMAC_CONFIG_RE: u32 = 0x0000_0001;

pub const GMAC_CONFIG_TE: u32 = 0x0000_0002;

pub const GMAC_CONFIG_DCRS: u32 = 0x0000_0200;

pub const GMAC_CONFIG_DM: u32 = 0x0000_2000;

pub const GMAC_CONFIG_FES: u32 = 0x0000_4000;

pub const GMAC_CONFIG_PS: u32 = 0x0000_8000;

pub const GMAC_CONFIG_JE: u32 = 0x0001_0000;

pub const GMAC_CONFIG_JD: u32 = 0x0002_0000;

pub const GMAC_CONFIG_BE: u32 = 0x0004_0000;

pub const GMAC_CONFIG_ACS: u32 = 0x0010_0000;

pub const GMAC_CONFIG_IPC: u32 = 0x0800_0000;

pub const GMAC_PACKET_FILTER_PROMISCUOUS: u32 = 0x0000_0001;

pub const GMAC_PACKET_FILTER_PASS_CONTROL: u32 = 0x0000_0080;

pub const GMAC_PACKET_FILTER_HASH_OR_PERFECT: u32 = 0x0000_0400;

pub const GMAC_RX_DCB_QUEUE0_ENABLE: u32 = 0x0000_0002;

pub const GMAC_RX_MCBC_QUEUE_MASK: u32 = 0x0007_0000;

pub const GMAC_RX_MCBC_QUEUE_ENABLE: u32 = 0x0010_0000;

pub const GMAC_ADDR_HIGH_ENABLE: u32 = 0x8000_0000;

pub const MDIO_BUSY: u32 = 0x0000_0001;

pub const MDIO_WRITE: u32 = 0x0000_0004;

pub const MDIO_READ: u32 = 0x0000_000c;

pub const MTL_TX_STORE_FORWARD: u32 = 0x0000_0002;

pub const MTL_TXQ_ENABLE: u32 = 0x0000_0008;

pub const MTL_TX_THRESHOLD_MASK: u32 = 0x0000_0070;

pub const MTL_TX_THRESHOLD_64: u32 = 0x0000_0010;

pub const MTL_TX_QUEUE_SIZE_MASK: u32 = 0x01ff_0000;

pub const MTL_TX_QUEUE_SIZE_2K: u32 = 0x0007_0000;

pub const MTL_RX_THRESHOLD_MASK: u32 = 0x0000_0018;

pub const MTL_RX_THRESHOLD_64: u32 = 0x0000_0000;

pub const MTL_RX_STORE_FORWARD: u32 = 0x0000_0020;

pub const MTL_RX_DISABLE_TCP_ERROR_FORWARD: u32 = 0x0000_0040;

pub const MTL_RX_QUEUE_SIZE_MASK: u32 = 0x3ff0_0000;

pub const MTL_RX_QUEUE_SIZE_2K: u32 = 0x0070_0000;

pub const DMA_MODE_SOFT_RESET: u32 = 0x0000_0001;

pub const DMA_MODE_DESCRIPTOR_CACHE_ENABLE: u32 = 0x0008_0000;

pub const DMA_SYS_BUS_FIXED_BURST: u32 = 0x0000_0001;

pub const DMA_SYS_BUS_AXI_BURST_MASK: u32 = 0x0000_00fe;

pub const DMA_SYS_BUS_ENHANCED_ADDR: u32 = 0x0000_0800;

pub const DMA_SYS_BUS_AXI_READ_LIMIT_MASK: u32 = 0x000f_0000;

pub const DMA_SYS_BUS_AXI_WRITE_LIMIT_MASK: u32 = 0x0f00_0000;

pub const DMA_SYS_BUS_AXI_EXIT_FRAME: u32 = 0x4000_0000;

pub const DMA_SYS_BUS_AXI_LPI_ENABLE: u32 = 0x8000_0000;

pub const DMA_TX_START: u32 = 0x0000_0001;

pub const DMA_TX_OPERATE_SECOND_PACKET: u32 = 0x0000_0010;

pub const DMA_TX_PBL_16: u32 = 0x0010_0000;

pub const DMA_RX_START: u32 = 0x0000_0001;

pub const DMA_RX_PBL_16: u32 = 0x0010_0000;

pub const DMA_STATUS_TX_INTERRUPT: u32 = 0x0000_0001;

pub const DMA_STATUS_RX_INTERRUPT: u32 = 0x0000_0040;

/// Errors and completions of sending.
pub const DMA_STATUS_TX: u32 = 0x0007_0407;

/// Errors and completions of receiving.
pub const DMA_STATUS_RX: u32 = 0x0038_0bc0;

/// Summaries, and errors of both.
pub const DMA_STATUS_COMMON: u32 = 0x0000_f000;

pub const DMA_INT_NORMAL: u32 = 0x0000_8041;

pub const DMA_INT_ABNORMAL: u32 = 0x0000_5000;

/// What is done to a register.
#[derive(Clone, Copy, Debug, PartialEq, Eq, Structural)]
pub enum RegOp {
    Write { offset: usize, value: u32 },
    /// Bits are cleared, then others set; the rest stays.
    Modify { offset: usize, clear: u32, set: u32 },
}

impl RegOp {
    pub open spec fn spec_offset(self) -> usize {
        match self {
            RegOp::Write { offset, .. } => offset,
            RegOp::Modify { offset, .. } => offset,
        }
    }

    /// What the register holds then.
    pub open spec fn spec_apply(self, old_value: u32) -> u32 {
        match self {
            RegOp::Write { value, .. } => value,
            RegOp::Modify { clear, set, .. } => (old_value & !clear) | set,
        }
    }

    pub fn offset(&self) -> (r: usize)
        ensures
            r == self.spec_offset(),
    {
        match *self {
            RegOp::Write { offset, .. } => offset,
            RegOp::Modify { offset, .. } => offset,
        }
    }

    pub fn apply(&self, old_value: u32) -> (r: u32)
        ensures
            r == self.spec_apply(old_value),
    {
        match *self {
            RegOp::Write { value, .. } => value,
            RegOp::Modify { clear, set, .. } => (old_value & !clear) | set,
        }
    }
}

/// The bits that a change sets are set, and those that it does not touch stay.
pub proof fn lemma_modify(old_value: u32, offset: usize, clear: u32, set: u32)
    ensures
        (RegOp::Modify { offset, clear, set }).spec_apply(old_value) & set == set,
        (RegOp::Modify { offset, clear, set }).spec_apply(old_value) & !(clear | set) == old_value
            & !(clear | set),
{
    assert(((old_value & !clear) | set) & set == set && ((old_value & !clear) | set) & !(clear
        | set) == old_value & !(clear | set)) by (bit_vector);
}

} // verus!
