//! The DWMAC of the StarFive JH7110: one ring to receive, one to send.
//!
//! Only one descriptor of each ring belongs to the device at a time, so that
//! flushing the cache line of one cannot undo what the device writes to another.
use vstd::prelude::*;

use crate::error::{DevError, DevResult};
use super::desc::{DESC_SIZE, DmaDesc, frame_len, is_owned};
use super::dwmac_config::{
    Jh7110AxiConfig,
    Jh7110Config,
    Jh7110InterruptStatus,
    dma_sys_bus_mode,
    initial_clock_range,
    is_unicast,
    mac_link_config,
    primary_mac_register_writes,
    select_mac_address,
    spec_mac_link_config,
    sys_bus_mode,
    valid_phy_id, Jh7110PhyExtendedStatus,
    YT8531_PHY_ID,
};
use super::regs::{
    RegOp,
    DMA_CH0_CONTROL,
    DMA_CH0_CURRENT_RX_DESC,
    DMA_CH0_CURRENT_TX_BUFFER_HIGH,
    DMA_CH0_CURRENT_TX_BUFFER_LOW,
    DMA_CH0_CURRENT_TX_DESC,
    DMA_CH0_INT_ENABLE,
    DMA_CH0_RX_BASE_HIGH,
    DMA_CH0_RX_BASE_LOW,
    DMA_CH0_RX_CONTROL,
    DMA_CH0_RX_RING_LEN,
    DMA_CH0_RX_TAIL,
    DMA_CH0_STATUS,
    DMA_CH0_TX_BASE_HIGH,
    DMA_CH0_TX_BASE_LOW,
    DMA_CH0_TX_CONTROL,
    DMA_CH0_TX_RING_LEN,
    DMA_CH0_TX_TAIL,
    DMA_INT_ABNORMAL,
    DMA_INT_NORMAL,
    DMA_MODE,
    DMA_MODE_DESCRIPTOR_CACHE_ENABLE,
    DMA_MODE_SOFT_RESET,
    DMA_RX_PBL_16,
    DMA_RX_START,
    DMA_STATUS_COMMON,
    DMA_STATUS_RX,
    DMA_STATUS_RX_INTERRUPT,
    DMA_STATUS_TX,
    DMA_STATUS_TX_INTERRUPT,
    DMA_SYS_BUS_MODE,
    DMA_TX_OPERATE_SECOND_PACKET,
    DMA_TX_PBL_16,
    DMA_TX_START,
    GMAC_ADDR_HIGH0,
    GMAC_ADDR_HIGH_ENABLE,
    GMAC_ADDR_LOW0,
    GMAC_CONFIG,
    GMAC_CONFIG_ACS,
    GMAC_CONFIG_BE,
    GMAC_CONFIG_DCRS,
    GMAC_CONFIG_DM,
    GMAC_CONFIG_FES,
    GMAC_CONFIG_IPC,
    GMAC_CONFIG_JD,
    GMAC_CONFIG_JE,
    GMAC_CONFIG_PS,
    GMAC_CONFIG_RE,
    GMAC_CONFIG_TE,
    GMAC_DEBUG,
    GMAC_INT_ENABLE,
    GMAC_PACKET_FILTER,
    GMAC_PACKET_FILTER_HASH_OR_PERFECT,
    GMAC_PACKET_FILTER_PASS_CONTROL,
    GMAC_PACKET_FILTER_PROMISCUOUS,
    GMAC_RXQ_CTRL0,
    GMAC_RXQ_CTRL1,
    GMAC_RX_DCB_QUEUE0_ENABLE,
    GMAC_RX_MCBC_QUEUE_ENABLE,
    GMAC_RX_MCBC_QUEUE_MASK,
    MMC_TX_CARRIER_ERROR,
    MMC_TX_DEFERRED,
    MMC_TX_EXCESSIVE_COLLISION,
    MMC_TX_EXCESSIVE_DEFERRAL,
    MMC_TX_FRAME_COUNT_GOOD,
    MMC_TX_FRAME_COUNT_GOOD_BAD,
    MMC_TX_LATE_COLLISION,
    MMC_TX_MULTI_COLLISION_GOOD,
    MMC_TX_SINGLE_COLLISION_GOOD,
    MMC_TX_UNDERFLOW_ERROR,
    MTL_RXQ0_OPERATION_MODE,
    MTL_RX_DISABLE_TCP_ERROR_FORWARD,
    MTL_RX_QUEUE_SIZE_2K,
    MTL_RX_QUEUE_SIZE_MASK,
    MTL_RX_STORE_FORWARD,
    MTL_RX_THRESHOLD_64,
    MTL_RX_THRESHOLD_MASK,
    MTL_TXQ0_DEBUG,
    MTL_TXQ0_OPERATION_MODE,
    MTL_TXQ_ENABLE,
    MTL_TX_QUEUE_SIZE_2K,
    MTL_TX_QUEUE_SIZE_MASK,
    MTL_TX_STORE_FORWARD,
    MTL_TX_THRESHOLD_64,
    MTL_TX_THRESHOLD_MASK,
};

verus! {

pub const RX_DESC_COUNT: usize = 4;

pub const TX_DESC_COUNT: usize = 4;

pub const CACHE_LINE_SIZE: usize = 64;

pub const DMA_BUFFER_SIZE: usize = 2048;

pub const PAGE_SIZE: usize = 4096;

/// The device reaches the memory below this.
pub const DMA_ADDR_LIMIT: u64 = 0x100_0000_0000;

pub const RX_RING_OFFSET: usize = 0;

pub const TX_RING_OFFSET: usize = 64;

pub const RX_BUFFER_OFFSET: usize = 128;

pub const TX_BUFFER_OFFSET: usize = 8320;

pub const DMA_REGION_SIZE: usize = 16512;

pub const DMA_REGION_PAGES: usize = 5;

/// How often to look at the device where it does not interrupt.
pub const FALLBACK_POLL_INTERVAL_MILLIS: u64 = 10;

/// The next multiple of `align`.
pub fn align_up(value: usize, align: usize) -> (r: usize)
    requires
        align > 0,
        value + align - 1 <= usize::MAX,
    ensures
        value <= r < value + align,
        r % align == 0,
{
    let n: usize = value + (align - 1);
    assert(n - n % align == (n / align) * align && ((n / align) * align) % (align as int) == 0)
        by (nonlinear_arith)
        requires
            align > 0,
            n >= 0,
    ;
    n - n % align
}

/// The rings and buffers follow each other without overlap: the descriptors on
/// their boundaries, the rings on cache lines of their own, the buffers on cache
/// lines, all within the pages.
pub proof fn lemma_layout()
    ensures
        RX_RING_OFFSET % 16 == 0,
        TX_RING_OFFSET % 16 == 0,
        RX_RING_OFFSET + RX_DESC_COUNT * DESC_SIZE <= TX_RING_OFFSET,
        TX_RING_OFFSET % CACHE_LINE_SIZE == 0,
        TX_RING_OFFSET + TX_DESC_COUNT * DESC_SIZE <= RX_BUFFER_OFFSET,
        RX_BUFFER_OFFSET % CACHE_LINE_SIZE == 0,
        RX_BUFFER_OFFSET + RX_DESC_COUNT * DMA_BUFFER_SIZE == TX_BUFFER_OFFSET,
        TX_BUFFER_OFFSET % CACHE_LINE_SIZE == 0,
        TX_BUFFER_OFFSET + TX_DESC_COUNT * DMA_BUFFER_SIZE == DMA_REGION_SIZE,
        (DMA_REGION_PAGES - 1) * PAGE_SIZE < DMA_REGION_SIZE <= DMA_REGION_PAGES * PAGE_SIZE,
{
}

/// Whether memory for the rings and buffers is where the device reaches it.
pub fn check_region(paddr: u64) -> (r: DevResult<()>)
    ensures
        r == if paddr + DMA_REGION_SIZE > u64::MAX {
            Err::<(), DevError>(DevError::InvalidParam)
        } else if paddr + DMA_REGION_SIZE > DMA_ADDR_LIMIT {
            Err(DevError::Unsupported)
        } else {
            Ok(())
        },
{
    match paddr.checked_add(DMA_REGION_SIZE as u64) {
        None => Err(DevError::InvalidParam),
        Some(end) => {
            if end > DMA_ADDR_LIMIT {
                Err(DevError::Unsupported)
            } else {
                Ok(())
            }
        },
    }
}

/// The device and where its rings stand.
pub struct Jh7110Dwmac {
    /// Where the memory for the rings and buffers is.
    pub paddr: u64,
    pub mac_address: [u8; 6],
    pub phy_addr: u8,
    pub mdio_clock_range: u8,
    pub phy_id: u32,
    pub axi: Jh7110AxiConfig,
    pub force_threshold_dma_mode: bool,
    pub descriptor_cache_enable: bool,
    pub promiscuous_mode: bool,
    /// The descriptor that the next frame comes to.
    pub rx_index: usize,
    /// The descriptor that the next frame goes from.
    pub tx_index: usize,
    pub rx_ready: bool,
    pub tx_busy: bool,
}

/// What is done to receive a frame.
#[derive(Clone, Copy, Debug)]
pub struct RxStep {
    /// The length of the frame, or why there is none.
    pub result: DevResult<usize>,
    /// The descriptor that the frame came to.
    pub index: usize,
    /// The next one, and what is written to it.
    pub next_index: usize,
    pub next_desc: DmaDesc,
    /// What is written to make the device go on.
    pub tail: u32,
}

/// What is done to send a frame.
#[derive(Clone, Copy, Debug)]
pub struct TxStep {
    /// The descriptor that the frame goes from, and where its buffer is.
    pub index: usize,
    pub buffer_paddr: u64,
    pub desc: DmaDesc,
    /// What is written to make the device go on.
    pub tail: u32,
}

/// Where in the memory of the device the buffer of a descriptor starts.
pub open spec fn buffer_at(buffers: usize, index: usize) -> int {
    buffers + index * DMA_BUFFER_SIZE
}

impl RxStep {
    /// The frame that came, out of the memory of the device, or why there is
    /// none.
    pub fn packet(&self, memory: &[u8]) -> (r: DevResult<Vec<u8>>)
        requires
            self.index < RX_DESC_COUNT,
            self.result matches Ok(len) ==> len <= DMA_BUFFER_SIZE,
            memory@.len() == DMA_REGION_SIZE,
        ensures
            match self.result {
                Ok(len) => {
                    let at = buffer_at(RX_BUFFER_OFFSET, self.index);
                    r matches Ok(v) && v@ == memory@.subrange(at, at + len)
                },
                Err(e) => r matches Err(f) && f == e,
            },
    {
        match self.result {
            Ok(len) => {
                let at: usize = RX_BUFFER_OFFSET + self.index * DMA_BUFFER_SIZE;
                let mut packet: Vec<u8> = Vec::new();
                while packet.len() < len
                    invariant
                        packet@.len() <= len <= DMA_BUFFER_SIZE,
                        memory@.len() == DMA_REGION_SIZE,
                        at + DMA_BUFFER_SIZE <= memory@.len(),
                        packet@ == memory@.subrange(at as int, at + packet@.len()),
                    decreases len - packet@.len(),
                {
                    let ghost n = packet@.len();
                    packet.push(memory[at + packet.len()]);
                    assert(packet@ =~= memory@.subrange(at as int, at + n + 1));
                }
                Ok(packet)
            },
            Err(e) => Err(e),
        }
    }
}

impl TxStep {
    /// Puts the frame that goes out into the memory of the device.
    pub fn place(&self, packet: &[u8], memory: &mut [u8])
        requires
            self.index < TX_DESC_COUNT,
            packet@.len() <= DMA_BUFFER_SIZE,
            old(memory)@.len() == DMA_REGION_SIZE,
        ensures
            ({
                let at = buffer_at(TX_BUFFER_OFFSET, self.index);
                let m = old(memory)@;
                final(memory)@ == m.take(at) + packet@ + m.skip(at + packet@.len())
            }),
    {
        let at: usize = TX_BUFFER_OFFSET + self.index * DMA_BUFFER_SIZE;
        let ghost before = memory@;
        let mut i: usize = 0;
        while i < packet.len()
            invariant
                i <= packet@.len() <= DMA_BUFFER_SIZE,
                memory@.len() == before.len(),
                memory@.len() == DMA_REGION_SIZE,
                at + DMA_BUFFER_SIZE <= memory@.len(),
                forall|k: int| 0 <= k < i ==> memory@[at + k] == packet@[k],
                forall|k: int|
                    0 <= k < memory@.len() && !(at <= k < at + i) ==> memory@[k] == before[k],
            decreases packet@.len() - i,
        {
            memory[at + i] = packet[i];
            i = i + 1;
        }
        assert(memory@ =~= before.take(at as int) + packet@ + before.skip(at + packet@.len())) by {
            assert forall|k: int| at <= k < at + packet@.len() implies memory@[k] == packet@[k
                - at] by {
                assert(memory@[at + (k - at)] == packet@[k - at]);
            }
        }
    }
}

/// The next descriptor of a ring.
pub open spec fn next_of(index: usize) -> usize {
    ((index + 1) % 4) as usize
}

/// The descriptor before.
pub open spec fn prev_of(index: usize) -> usize {
    ((index + 3) % 4) as usize
}

pub open spec fn low_word(addr: u64) -> u32 {
    (addr % 0x1_0000_0000) as u32
}

pub open spec fn high_word(addr: u64) -> u32 {
    (addr / 0x1_0000_0000) as u32
}

/// The words of a descriptor that waits for a frame.
pub open spec fn rx_words(addr: u64) -> Seq<u32> {
    seq![low_word(addr), high_word(addr), 0u32, 0xc100_0000u32]
}

/// The words of a descriptor with a frame to send.
pub open spec fn tx_words(addr: u64, len: usize) -> Seq<u32> {
    seq![
        low_word(addr),
        high_word(addr),
        (0x8000_0000u32 + len) as u32,
        (0xb000_0000u32 + len) as u32,
    ]
}

/// The changes of the bits of the two queues.
pub open spec fn queue_ops(threshold: bool) -> Seq<RegOp> {
    if threshold {
        seq![
            RegOp::Modify {
                offset: MTL_TXQ0_OPERATION_MODE,
                clear: MTL_TX_QUEUE_SIZE_MASK | MTL_TX_STORE_FORWARD | MTL_TX_THRESHOLD_MASK,
                set: MTL_TXQ_ENABLE | MTL_TX_QUEUE_SIZE_2K | MTL_TX_THRESHOLD_64,
            },
            RegOp::Modify {
                offset: MTL_RXQ0_OPERATION_MODE,
                clear: MTL_RX_QUEUE_SIZE_MASK | MTL_RX_STORE_FORWARD | MTL_RX_THRESHOLD_MASK,
                set: MTL_RX_QUEUE_SIZE_2K | MTL_RX_DISABLE_TCP_ERROR_FORWARD | MTL_RX_THRESHOLD_64,
            },
        ]
    } else {
        seq![
            RegOp::Modify {
                offset: MTL_TXQ0_OPERATION_MODE,
                clear: MTL_TX_QUEUE_SIZE_MASK | MTL_TX_THRESHOLD_MASK,
                set: MTL_TX_STORE_FORWARD | MTL_TXQ_ENABLE | MTL_TX_QUEUE_SIZE_2K,
            },
            RegOp::Modify {
                offset: MTL_RXQ0_OPERATION_MODE,
                clear: MTL_RX_QUEUE_SIZE_MASK | MTL_RX_THRESHOLD_MASK,
                set: MTL_RX_STORE_FORWARD | MTL_RX_QUEUE_SIZE_2K | MTL_RX_DISABLE_TCP_ERROR_FORWARD,
            },
        ]
    }
}

impl Jh7110Dwmac {
    pub open spec fn wf(&self) -> bool {
        &&& self.rx_index < RX_DESC_COUNT
        &&& self.tx_index < TX_DESC_COUNT
        &&& self.paddr + DMA_REGION_SIZE <= DMA_ADDR_LIMIT
        &&& self.mdio_clock_range <= 7
    }

    pub open spec fn rx_desc_at(&self, index: usize) -> u64 {
        (self.paddr + RX_RING_OFFSET + index * DESC_SIZE) as u64
    }

    pub open spec fn tx_desc_at(&self, index: usize) -> u64 {
        (self.paddr + TX_RING_OFFSET + index * DESC_SIZE) as u64
    }

    pub open spec fn rx_buffer_at(&self, index: usize) -> u64 {
        (self.paddr + RX_BUFFER_OFFSET + index * DMA_BUFFER_SIZE) as u64
    }

    pub open spec fn tx_buffer_at(&self, index: usize) -> u64 {
        (self.paddr + TX_BUFFER_OFFSET + index * DMA_BUFFER_SIZE) as u64
    }

    /// A device whose rings are not in use. It needs an address: that of the
    /// board or that of the controller.
    pub fn try_new(
        paddr: u64,
        config: &Jh7110Config,
        controller_mac: [u8; 6],
        mdio_addr: u32,
    ) -> (r: DevResult<Self>)
        requires
            paddr + DMA_REGION_SIZE <= DMA_ADDR_LIMIT,
        ensures
            ({
                let mac = match config.mac_address {
                    Some(a) if is_unicast(a@) => Some(a),
                    _ => if is_unicast(controller_mac@) {
                        Some(controller_mac)
                    } else {
                        None
                    },
                };
                match r {
                    Ok(d) => {
                        &&& d.wf()
                        &&& mac == Some(d.mac_address)
                        &&& d.paddr == paddr
                        &&& d.phy_addr == config.phy_addr
                        &&& d.mdio_clock_range == if config.mdio_clock_range <= 7 {
                            config.mdio_clock_range as int
                        } else if (mdio_addr as int / 0x100) % 16 < 7 {
                            (mdio_addr as int / 0x100) % 16
                        } else {
                            7
                        }
                        &&& d.phy_id == 0
                        &&& d.axi == config.axi
                        &&& d.force_threshold_dma_mode == config.force_threshold_dma_mode
                        &&& d.descriptor_cache_enable == config.descriptor_cache_enable
                        &&& d.promiscuous_mode == config.promiscuous_mode
                        &&& d.rx_index == 0
                        &&& d.tx_index == 0
                        &&& !d.rx_ready
                        &&& !d.tx_busy
                    },
                    Err(e) => mac is None && e == DevError::BadState,
                }
            }),
    {
        let mac_address: [u8; 6] = match select_mac_address(config.mac_address, controller_mac) {
            Some(a) => a,
            None => {
                return Err(DevError::BadState);
            },
        };
        Ok(
            Jh7110Dwmac {
                paddr,
                mac_address,
                phy_addr: config.phy_addr,
                mdio_clock_range: initial_clock_range(config.mdio_clock_range, mdio_addr),
                phy_id: 0,
                axi: config.axi,
                force_threshold_dma_mode: config.force_threshold_dma_mode,
                descriptor_cache_enable: config.descriptor_cache_enable,
                promiscuous_mode: config.promiscuous_mode,
                rx_index: 0,
                tx_index: 0,
                rx_ready: false,
                tx_busy: false,
            },
        )
    }

    /// Whether the device reaches its rings and buffers with addresses of a
    /// width; zero is an unknown width.
    pub fn check_dma_width(&self, width: u8) -> (r: DevResult<()>)
        requires
            self.wf(),
            width == 0 || width == 32 || width == 40 || width == 48,
        ensures
            r == if width == 0 || (width == 32 && self.paddr + DMA_REGION_SIZE > 0x1_0000_0000) {
                Err::<(), DevError>(DevError::Unsupported)
            } else {
                Ok(())
            },
    {
        let end: u64 = self.paddr + DMA_REGION_SIZE as u64;
        if width == 0 || (width == 32 && end > 0x1_0000_0000) {
            Err(DevError::Unsupported)
        } else {
            Ok(())
        }
    }

    /// What starts a reset.
    pub fn reset_op() -> (r: RegOp)
        ensures
            r == (RegOp::Modify { offset: DMA_MODE, clear: 0, set: DMA_MODE_SOFT_RESET }),
    {
        RegOp::Modify { offset: DMA_MODE, clear: 0, set: DMA_MODE_SOFT_RESET }
    }

    /// Whether a reset is over.
    pub fn reset_done(dma_mode: u32) -> (r: bool)
        ensures
            r == (dma_mode & DMA_MODE_SOFT_RESET == 0),
    {
        dma_mode & DMA_MODE_SOFT_RESET == 0
    }

    pub fn rx_desc_paddr(&self, index: usize) -> (r: u64)
        requires
            self.wf(),
            index < RX_DESC_COUNT,
        ensures
            r == self.rx_desc_at(index),
    {
        self.paddr + (RX_RING_OFFSET + index * DESC_SIZE) as u64
    }

    pub fn tx_desc_paddr(&self, index: usize) -> (r: u64)
        requires
            self.wf(),
            index < TX_DESC_COUNT,
        ensures
            r == self.tx_desc_at(index),
    {
        self.paddr + (TX_RING_OFFSET + index * DESC_SIZE) as u64
    }

    pub fn rx_buffer_paddr(&self, index: usize) -> (r: u64)
        requires
            self.wf(),
            index < RX_DESC_COUNT,
        ensures
            r == self.rx_buffer_at(index),
    {
        self.paddr + (RX_BUFFER_OFFSET + index * DMA_BUFFER_SIZE) as u64
    }

    pub fn tx_buffer_paddr(&self, index: usize) -> (r: u64)
        requires
            self.wf(),
            index < TX_DESC_COUNT,
        ensures
            r == self.tx_buffer_at(index),
    {
        self.paddr + (TX_BUFFER_OFFSET + index * DMA_BUFFER_SIZE) as u64
    }

    /// What is written to the rings at the start: the first descriptor to
    /// receive belongs to the device, the others are empty.
    pub fn initialize_rings(&self) -> (r: (Vec<DmaDesc>, Vec<DmaDesc>))
        requires
            self.wf(),
        ensures
            r.0@.len() == RX_DESC_COUNT,
            r.1@.len() == TX_DESC_COUNT,
            r.0@[0].words@ == rx_words(self.rx_buffer_at(0)),
            forall|i: int| 1 <= i < RX_DESC_COUNT ==> (#[trigger] r.0@[i]).words@ == seq![0u32, 0, 0, 0],
            forall|i: int| 0 <= i < TX_DESC_COUNT ==> (#[trigger] r.1@[i]).words@ == seq![0u32, 0, 0, 0],
    {
        let mut rx: Vec<DmaDesc> = Vec::new();
        rx.push(DmaDesc::rx(self.rx_buffer_paddr(0)));
        while rx.len() < RX_DESC_COUNT
            invariant
                1 <= rx@.len() <= RX_DESC_COUNT,
                rx@[0].words@ == rx_words(self.rx_buffer_at(0)),
                forall|i: int| 1 <= i < rx@.len() ==> (#[trigger] rx@[i]).words@ == seq![0u32, 0, 0, 0],
            decreases RX_DESC_COUNT - rx@.len(),
        {
            rx.push(DmaDesc::empty());
        }
        let mut tx: Vec<DmaDesc> = Vec::new();
        while tx.len() < TX_DESC_COUNT
            invariant
                tx@.len() <= TX_DESC_COUNT,
                forall|i: int| 0 <= i < tx@.len() ==> (#[trigger] tx@[i]).words@ == seq![0u32, 0, 0, 0],
            decreases TX_DESC_COUNT - tx@.len(),
        {
            tx.push(DmaDesc::empty());
        }
        (rx, tx)
    }

    /// What sets the channel up.
    pub open spec fn dma_ops(&self, wide: bool) -> Seq<RegOp> {
        seq![
            RegOp::Modify {
                offset: DMA_MODE,
                clear: DMA_MODE_DESCRIPTOR_CACHE_ENABLE,
                set: if self.descriptor_cache_enable {
                    DMA_MODE_DESCRIPTOR_CACHE_ENABLE
                } else {
                    0
                },
            },
            RegOp::Write { offset: DMA_SYS_BUS_MODE, value: sys_bus_mode(wide, self.axi) as u32 },
            RegOp::Write { offset: DMA_CH0_CONTROL, value: 0 },
            RegOp::Write { offset: DMA_CH0_TX_BASE_HIGH, value: high_word(self.tx_desc_at(0)) },
            RegOp::Write { offset: DMA_CH0_TX_BASE_LOW, value: low_word(self.tx_desc_at(0)) },
            RegOp::Write { offset: DMA_CH0_RX_BASE_HIGH, value: high_word(self.rx_desc_at(0)) },
            RegOp::Write { offset: DMA_CH0_RX_BASE_LOW, value: low_word(self.rx_desc_at(0)) },
            RegOp::Write { offset: DMA_CH0_TX_RING_LEN, value: 3 },
            RegOp::Write { offset: DMA_CH0_RX_RING_LEN, value: 3 },
            RegOp::Write {
                offset: DMA_CH0_TX_CONTROL,
                value: DMA_TX_PBL_16 | DMA_TX_OPERATE_SECOND_PACKET,
            },
            RegOp::Write { offset: DMA_CH0_RX_CONTROL, value: DMA_RX_PBL_16 | 0x1000 },
            RegOp::Write { offset: DMA_CH0_INT_ENABLE, value: 0 },
            RegOp::Write { offset: DMA_CH0_TX_TAIL, value: low_word(self.tx_desc_at(0)) },
            RegOp::Write { offset: DMA_CH0_RX_TAIL, value: low_word(self.rx_desc_at(1)) },
        ]
    }

    /// What sets the channel up; `wide` is whether addresses have more than 32
    /// bits.
    pub fn configure_dma(&self, wide: bool) -> (r: Vec<RegOp>)
        requires
            self.wf(),
        ensures
            r@ == self.dma_ops(wide),
    {
        let tx0: u64 = self.tx_desc_paddr(0);
        let rx0: u64 = self.rx_desc_paddr(0);
        let rx1: u64 = self.rx_desc_paddr(1);
        let mut ops: Vec<RegOp> = Vec::new();
        ops.push(
            RegOp::Modify {
                offset: DMA_MODE,
                clear: DMA_MODE_DESCRIPTOR_CACHE_ENABLE,
                set: if self.descriptor_cache_enable {
                    DMA_MODE_DESCRIPTOR_CACHE_ENABLE
                } else {
                    0
                },
            },
        );
        ops.push(
            RegOp::Write { offset: DMA_SYS_BUS_MODE, value: dma_sys_bus_mode(wide, self.axi) },
        );
        ops.push(RegOp::Write { offset: DMA_CH0_CONTROL, value: 0 });
        ops.push(
            RegOp::Write { offset: DMA_CH0_TX_BASE_HIGH, value: (tx0 / 0x1_0000_0000) as u32 },
        );
        ops.push(RegOp::Write { offset: DMA_CH0_TX_BASE_LOW, value: (tx0 % 0x1_0000_0000) as u32 });
        ops.push(
            RegOp::Write { offset: DMA_CH0_RX_BASE_HIGH, value: (rx0 / 0x1_0000_0000) as u32 },
        );
        ops.push(RegOp::Write { offset: DMA_CH0_RX_BASE_LOW, value: (rx0 % 0x1_0000_0000) as u32 });
        ops.push(RegOp::Write { offset: DMA_CH0_TX_RING_LEN, value: 3 });
        ops.push(RegOp::Write { offset: DMA_CH0_RX_RING_LEN, value: 3 });
        ops.push(
            RegOp::Write {
                offset: DMA_CH0_TX_CONTROL,
                value: DMA_TX_PBL_16 | DMA_TX_OPERATE_SECOND_PACKET,
            },
        );
        ops.push(RegOp::Write { offset: DMA_CH0_RX_CONTROL, value: DMA_RX_PBL_16 | 0x1000 });
        ops.push(RegOp::Write { offset: DMA_CH0_INT_ENABLE, value: 0 });
        ops.push(RegOp::Write { offset: DMA_CH0_TX_TAIL, value: (tx0 % 0x1_0000_0000) as u32 });
        ops.push(RegOp::Write { offset: DMA_CH0_RX_TAIL, value: (rx1 % 0x1_0000_0000) as u32 });
        assert(ops@ =~= self.dma_ops(wide));
        ops
    }

    /// What sets the controller up.
    pub open spec fn mac_ops(&self) -> Seq<RegOp> {
        let a = self.mac_address@;
        seq![
            RegOp::Write {
                offset: GMAC_ADDR_HIGH0,
                value: (GMAC_ADDR_HIGH_ENABLE + a[4] + a[5] * 0x100) as u32,
            },
            RegOp::Write {
                offset: GMAC_ADDR_LOW0,
                value: (a[0] + a[1] * 0x100 + a[2] * 0x1_0000 + a[3] * 0x100_0000) as u32,
            },
            RegOp::Write {
                offset: GMAC_PACKET_FILTER,
                value: if self.promiscuous_mode {
                    GMAC_PACKET_FILTER_HASH_OR_PERFECT | (GMAC_PACKET_FILTER_PROMISCUOUS
                        | GMAC_PACKET_FILTER_PASS_CONTROL)
                } else {
                    GMAC_PACKET_FILTER_HASH_OR_PERFECT
                },
            },
            RegOp::Modify { offset: GMAC_RXQ_CTRL0, clear: 0x3, set: GMAC_RX_DCB_QUEUE0_ENABLE },
            RegOp::Modify {
                offset: GMAC_RXQ_CTRL1,
                clear: GMAC_RX_MCBC_QUEUE_MASK,
                set: GMAC_RX_MCBC_QUEUE_ENABLE,
            },
        ] + queue_ops(self.force_threshold_dma_mode) + seq![
            RegOp::Write { offset: GMAC_INT_ENABLE, value: 0 },
            RegOp::Modify {
                offset: GMAC_CONFIG,
                clear: GMAC_CONFIG_PS | GMAC_CONFIG_FES,
                set: GMAC_CONFIG_DM | GMAC_CONFIG_ACS | GMAC_CONFIG_IPC | GMAC_CONFIG_BE
                    | GMAC_CONFIG_JD | GMAC_CONFIG_JE | GMAC_CONFIG_DCRS,
            },
        ]
    }

    /// What sets the controller up: its address, which frames it lets in, its
    /// queues and its mode.
    pub fn configure_mac(&self) -> (r: Vec<RegOp>)
        ensures
            r@ == self.mac_ops(),
    {
        let writes: [(usize, u32); 2] = primary_mac_register_writes(self.mac_address);
        let mut ops: Vec<RegOp> = Vec::new();
        ops.push(RegOp::Write { offset: writes[0].0, value: writes[0].1 });
        ops.push(RegOp::Write { offset: writes[1].0, value: writes[1].1 });
        ops.push(
            RegOp::Write {
                offset: GMAC_PACKET_FILTER,
                value: if self.promiscuous_mode {
                    GMAC_PACKET_FILTER_HASH_OR_PERFECT | (GMAC_PACKET_FILTER_PROMISCUOUS
                        | GMAC_PACKET_FILTER_PASS_CONTROL)
                } else {
                    GMAC_PACKET_FILTER_HASH_OR_PERFECT
                },
            },
        );
        ops.push(
            RegOp::Modify { offset: GMAC_RXQ_CTRL0, clear: 0x3, set: GMAC_RX_DCB_QUEUE0_ENABLE },
        );
        ops.push(
            RegOp::Modify {
                offset: GMAC_RXQ_CTRL1,
                clear: GMAC_RX_MCBC_QUEUE_MASK,
                set: GMAC_RX_MCBC_QUEUE_ENABLE,
            },
        );
        if self.force_threshold_dma_mode {
            ops.push(
                RegOp::Modify {
                    offset: MTL_TXQ0_OPERATION_MODE,
                    clear: MTL_TX_QUEUE_SIZE_MASK | MTL_TX_STORE_FORWARD | MTL_TX_THRESHOLD_MASK,
                    set: MTL_TXQ_ENABLE | MTL_TX_QUEUE_SIZE_2K | MTL_TX_THRESHOLD_64,
                },
            );
            ops.push(
                RegOp::Modify {
                    offset: MTL_RXQ0_OPERATION_MODE,
                    clear: MTL_RX_QUEUE_SIZE_MASK | MTL_RX_STORE_FORWARD | MTL_RX_THRESHOLD_MASK,
                    set: MTL_RX_QUEUE_SIZE_2K | MTL_RX_DISABLE_TCP_ERROR_FORWARD
                        | MTL_RX_THRESHOLD_64,
                },
            );
        } else {
            ops.push(
                RegOp::Modify {
                    offset: MTL_TXQ0_OPERATION_MODE,
                    clear: MTL_TX_QUEUE_SIZE_MASK | MTL_TX_THRESHOLD_MASK,
                    set: MTL_TX_STORE_FORWARD | MTL_TXQ_ENABLE | MTL_TX_QUEUE_SIZE_2K,
                },
            );
            ops.push(
                RegOp::Modify {
                    offset: MTL_RXQ0_OPERATION_MODE,
                    clear: MTL_RX_QUEUE_SIZE_MASK | MTL_RX_THRESHOLD_MASK,
                    set: MTL_RX_STORE_FORWARD | MTL_RX_QUEUE_SIZE_2K
                        | MTL_RX_DISABLE_TCP_ERROR_FORWARD,
                },
            );
        }
        ops.push(RegOp::Write { offset: GMAC_INT_ENABLE, value: 0 });
        ops.push(
            RegOp::Modify {
                offset: GMAC_CONFIG,
                clear: GMAC_CONFIG_PS | GMAC_CONFIG_FES,
                set: GMAC_CONFIG_DM | GMAC_CONFIG_ACS | GMAC_CONFIG_IPC | GMAC_CONFIG_BE
                    | GMAC_CONFIG_JD | GMAC_CONFIG_JE | GMAC_CONFIG_DCRS,
            },
        );
        assert(ops@ =~= self.mac_ops());
        ops
    }

    /// What starts the rings, then the controller.
    pub fn start_ops() -> (r: Vec<RegOp>)
        ensures
            r@ == seq![
                RegOp::Modify { offset: DMA_CH0_TX_CONTROL, clear: 0, set: DMA_TX_START },
                RegOp::Modify { offset: DMA_CH0_RX_CONTROL, clear: 0, set: DMA_RX_START },
                RegOp::Modify {
                    offset: GMAC_CONFIG,
                    clear: 0,
                    set: GMAC_CONFIG_TE | GMAC_CONFIG_RE,
                },
            ],
    {
        let mut ops: Vec<RegOp> = Vec::new();
        ops.push(RegOp::Modify { offset: DMA_CH0_TX_CONTROL, clear: 0, set: DMA_TX_START });
        ops.push(RegOp::Modify { offset: DMA_CH0_RX_CONTROL, clear: 0, set: DMA_RX_START });
        ops.push(
            RegOp::Modify { offset: GMAC_CONFIG, clear: 0, set: GMAC_CONFIG_TE | GMAC_CONFIG_RE },
        );
        ops
    }

    /// The command that reads a register of the PHY.
    pub fn mdio_read_command(&self, register: u8) -> (r: u32)
        requires
            self.wf(),
            register < 32,
        ensures
            r == self.phy_addr * 0x20_0000 + register * 0x1_0000 + self.mdio_clock_range * 0x100
                + 0xd,
    {
        self.phy_addr as u32 * 0x20_0000 + register as u32 * 0x1_0000 + self.mdio_clock_range as u32
            * 0x100 + 0xd
    }

    /// The command that writes a register of the PHY.
    pub fn mdio_write_command(&self, register: u8) -> (r: u32)
        requires
            self.wf(),
            register < 32,
        ensures
            r == self.phy_addr * 0x20_0000 + register * 0x1_0000 + self.mdio_clock_range * 0x100
                + 0x5,
    {
        self.phy_addr as u32 * 0x20_0000 + register as u32 * 0x1_0000 + self.mdio_clock_range as u32
            * 0x100 + 0x5
    }

    /// Sets the clock to look for the PHY with after `tried` others, and tells
    /// it. After all eight the preferred clock is back, and there is none left.
    pub fn next_phy_range(&mut self, preferred: u8, tried: u8) -> (r: Option<u8>)
        requires
            old(self).wf(),
            preferred <= 7,
        ensures
            final(self).wf(),
            ({
                let next: u8 = if tried < 8 {
                    ((preferred + tried) % 8) as u8
                } else {
                    preferred
                };
                &&& r == if tried < 8 {
                    Some(next)
                } else {
                    None
                }
                &&& *final(self) == (Jh7110Dwmac { mdio_clock_range: next, ..*old(self) })
            }),
    {
        if tried < 8 {
            let range: u8 = (preferred + tried) % 8;
            self.mdio_clock_range = range;
            Some(range)
        } else {
            self.mdio_clock_range = preferred;
            None
        }
    }

    /// Looks for the PHY with the clock that is set, by the two words of its
    /// identifier as far as they could be read. Tells whether it is there.
    pub fn detect_phy(&mut self, id_high: Option<u16>, id_low: Option<u16>) -> (found: bool)
        requires
            old(self).wf(),
        ensures
            final(self).wf(),
            ({
                let id = match (id_high, id_low) {
                    (Some(h), Some(l)) => Some((h * 0x1_0000 + l) as u32),
                    _ => None,
                };
                &&& found == (id matches Some(x) && x / 16 == YT8531_PHY_ID / 16)
                &&& *final(self) == (Jh7110Dwmac {
                    phy_id: if found {
                        id->0
                    } else {
                        old(self).phy_id
                    },
                    ..*old(self)
                })
            }),
    {
        match (id_high, id_low) {
            (Some(h), Some(l)) => {
                let id: u32 = h as u32 * 0x1_0000 + l as u32;
                if valid_phy_id(id) {
                    self.phy_id = id;
                    true
                } else {
                    false
                }
            },
            _ => false,
        }
    }

    /// What the controller is told of the link, by the status of the PHY; nothing
    /// while the link is not resolved.
    pub fn refresh_link(status: u16) -> (r: Option<RegOp>)
        ensures
            r == match spec_mac_link_config(status) {
                Some(set) => Some(
                    RegOp::Modify {
                        offset: GMAC_CONFIG,
                        clear: GMAC_CONFIG_DM | GMAC_CONFIG_PS | GMAC_CONFIG_FES,
                        set,
                    },
                ),
                None => None,
            },
    {
        match mac_link_config(status) {
            Some(set) => Some(
                RegOp::Modify {
                    offset: GMAC_CONFIG,
                    clear: GMAC_CONFIG_DM | GMAC_CONFIG_PS | GMAC_CONFIG_FES,
                    set,
                },
            ),
            None => None,
        }
    }

    /// Whether the PHY has the registers that tell how the wires are driven.
    pub fn has_extended_status(&self) -> (r: bool)
        ensures
            r == (self.phy_id / 16 == YT8531_PHY_ID / 16),
    {
        valid_phy_id(self.phy_id)
    }

    /// How the wires are driven, by the registers that tell it as far as they
    /// could be read.
    pub fn phy_extended_status(
        &self,
        chip_config: Option<u16>,
        rgmii_config1: Option<u16>,
        pad_drive_strength: Option<u16>,
        synce_config: Option<u16>,
    ) -> (r: Option<Jh7110PhyExtendedStatus>)
        ensures
            r == if self.phy_id / 16 == YT8531_PHY_ID / 16 && chip_config is Some
                && rgmii_config1 is Some && pad_drive_strength is Some && synce_config is Some {
                Some(
                    Jh7110PhyExtendedStatus {
                        chip_config: chip_config->0,
                        rgmii_config1: rgmii_config1->0,
                        pad_drive_strength: pad_drive_strength->0,
                        synce_config: synce_config->0,
                    },
                )
            } else {
                None
            },
    {
        if !self.has_extended_status() {
            return None;
        }
        Some(
            Jh7110PhyExtendedStatus {
                chip_config: chip_config?,
                rgmii_config1: rgmii_config1?,
                pad_drive_strength: pad_drive_strength?,
                synce_config: synce_config?,
            },
        )
    }

    /// How many milliseconds may pass before the device is asked for frames that
    /// no interrupt told of.
    pub fn poll_interval(&self) -> (r: Option<u64>)
        ensures
            r == Some(FALLBACK_POLL_INTERVAL_MILLIS),
    {
        Some(FALLBACK_POLL_INTERVAL_MILLIS)
    }

    /// Takes in the state of the device. Tells what is written to acknowledge it.
    pub fn handle_interrupt(&mut self, status: u32, mac: u32) -> (r: (
        Jh7110InterruptStatus,
        Option<u32>,
    ))
        ensures
            r.0 == (Jh7110InterruptStatus { dma: status, mac }),
            ({
                let handled = status & (DMA_STATUS_RX | DMA_STATUS_TX | DMA_STATUS_COMMON);
                r.1 == if handled != 0 {
                    Some(handled)
                } else {
                    None
                }
            }),
            *final(self) == (Jh7110Dwmac {
                rx_ready: old(self).rx_ready || status & DMA_STATUS_RX_INTERRUPT != 0,
                tx_busy: old(self).tx_busy && status & DMA_STATUS_TX_INTERRUPT == 0,
                ..*old(self)
            }),
    {
        let handled: u32 = status & (DMA_STATUS_RX | DMA_STATUS_TX | DMA_STATUS_COMMON);
        if status & DMA_STATUS_RX_INTERRUPT != 0 {
            self.rx_ready = true;
        }
        if status & DMA_STATUS_TX_INTERRUPT != 0 {
            self.tx_busy = false;
        }
        (
            Jh7110InterruptStatus { dma: status, mac },
            if handled != 0 {
                Some(handled)
            } else {
                None
            },
        )
    }

    /// What switches interrupts on or off.
    pub fn interrupt_op(on: bool) -> (r: RegOp)
        ensures
            r == (RegOp::Write {
                offset: DMA_CH0_INT_ENABLE,
                value: if on {
                    DMA_INT_NORMAL | DMA_INT_ABNORMAL
                } else {
                    0
                },
            }),
    {
        RegOp::Write {
            offset: DMA_CH0_INT_ENABLE,
            value: if on {
                DMA_INT_NORMAL | DMA_INT_ABNORMAL
            } else {
                0
            },
        }
    }

    /// The descriptor that the last frame went from.
    pub fn completed_index(&self) -> (r: usize)
        requires
            self.wf(),
        ensures
            r == prev_of(self.tx_index),
            r < TX_DESC_COUNT,
    {
        (self.tx_index + 3) % 4
    }

    /// Whether a frame can be sent; `completed` is the descriptor that the last
    /// one went from. The device may have sent it without an interrupt.
    pub fn can_transmit(&mut self, completed: &DmaDesc) -> (r: bool)
        ensures
            r == (!old(self).tx_busy || !is_owned(completed.words@[3])),
            *final(self) == (Jh7110Dwmac { tx_busy: !r, ..*old(self) }),
    {
        if !self.tx_busy {
            return true;
        }
        if completed.owned_by_dma() {
            false
        } else {
            self.tx_busy = false;
            true
        }
    }

    /// Whether a frame has come; `desc` is the descriptor that it comes to. The
    /// device may have written it without an interrupt.
    pub fn can_receive(&mut self, desc: &DmaDesc) -> (r: bool)
        ensures
            r == (old(self).rx_ready || !is_owned(desc.words@[3])),
            *final(self) == (Jh7110Dwmac { rx_ready: r, ..*old(self) }),
    {
        if self.rx_ready {
            return true;
        }
        if desc.owned_by_dma() {
            false
        } else {
            self.rx_ready = true;
            true
        }
    }

    /// Sends a frame, if it fits a buffer and the device is not busy.
    pub fn transmit(&mut self, packet_len: usize, completed: &DmaDesc) -> (r: DevResult<TxStep>)
        requires
            old(self).wf(),
        ensures
            final(self).wf(),
            ({
                let d = *old(self);
                let free = !d.tx_busy || !is_owned(completed.words@[3]);
                if packet_len == 0 || packet_len > DMA_BUFFER_SIZE {
                    r == Err::<TxStep, DevError>(DevError::InvalidParam) && *final(self) == d
                } else if !free {
                    r == Err::<TxStep, DevError>(DevError::Again) && *final(self) == d
                } else {
                    &&& r matches Ok(s) && s.index == d.tx_index && s.buffer_paddr
                        == d.tx_buffer_at(d.tx_index) && s.desc.words@ == tx_words(
                        d.tx_buffer_at(d.tx_index),
                        packet_len,
                    ) && s.tail == low_word(d.tx_desc_at(next_of(d.tx_index)))
                    &&& *final(self) == (Jh7110Dwmac {
                        tx_busy: true,
                        tx_index: next_of(d.tx_index),
                        ..d
                    })
                }
            }),
    {
        if packet_len == 0 || packet_len > DMA_BUFFER_SIZE {
            return Err(DevError::InvalidParam);
        }
        if !self.can_transmit(completed) {
            return Err(DevError::Again);
        }
        let index: usize = self.tx_index;
        let buffer_paddr: u64 = self.tx_buffer_paddr(index);
        let desc: DmaDesc = DmaDesc::tx(buffer_paddr, packet_len as u32);
        self.tx_busy = true;
        self.tx_index = (index + 1) % 4;
        let tail: u64 = self.tx_desc_paddr(self.tx_index);
        Ok(TxStep { index, buffer_paddr, desc, tail: (tail % 0x1_0000_0000) as u32 })
    }

    /// Receives a frame. `polled` is the descriptor as it was when the driver
    /// looked whether a frame has come, `desc` as it is now; `has_buffer` is
    /// whether there is memory to copy the frame to. A frame that is damaged,
    /// too long or without memory is dropped, and the ring goes on.
    pub fn receive(&mut self, polled: &DmaDesc, desc: &DmaDesc, has_buffer: bool) -> (r: DevResult<
        RxStep,
    >)
        requires
            old(self).wf(),
        ensures
            final(self).wf(),
            ({
                let d = *old(self);
                let came = d.rx_ready || !is_owned(polled.words@[3]);
                if !came || is_owned(desc.words@[3]) {
                    &&& r == Err::<RxStep, DevError>(DevError::Again)
                    &&& *final(self) == (Jh7110Dwmac { rx_ready: false, ..d })
                } else {
                    let len = frame_len(desc.words@[3]);
                    let next = next_of(d.rx_index);
                    &&& r matches Ok(s) && s.index == d.rx_index && s.next_index == next
                        && s.next_desc.words@ == rx_words(d.rx_buffer_at(next)) && s.tail
                        == low_word(d.rx_desc_at(next_of(next))) && s.result == (if len is None
                        || len->0 > DMA_BUFFER_SIZE {
                        Err::<usize, DevError>(DevError::Io)
                    } else if !has_buffer {
                        Err(DevError::NoMemory)
                    } else {
                        Ok(len->0 as usize)
                    })
                    &&& *final(self) == (Jh7110Dwmac { rx_ready: false, rx_index: next, ..d })
                }
            }),
    {
        if !self.can_receive(polled) {
            return Err(DevError::Again);
        }
        if desc.owned_by_dma() {
            self.rx_ready = false;
            return Err(DevError::Again);
        }
        let index: usize = self.rx_index;
        let result: DevResult<usize> = match desc.received_len() {
            Some(len) => {
                if len as usize > DMA_BUFFER_SIZE {
                    Err(DevError::Io)
                } else if has_buffer {
                    Ok(len as usize)
                } else {
                    Err(DevError::NoMemory)
                }
            },
            None => Err(DevError::Io),
        };
        let next_index: usize = (index + 1) % 4;
        let next_desc: DmaDesc = DmaDesc::rx(self.rx_buffer_paddr(next_index));
        self.rx_index = next_index;
        self.rx_ready = false;
        let tail: u64 = self.rx_desc_paddr((next_index + 1) % 4);
        Ok(RxStep { result, index, next_index, next_desc, tail: (tail % 0x1_0000_0000) as u32 })
    }

    /// Whether a frame of a size can be given a buffer, where there is one.
    pub fn alloc_tx_buffer(size: usize, has_buffer: bool) -> (r: DevResult<usize>)
        ensures
            r == if size == 0 || size > DMA_BUFFER_SIZE {
                Err::<usize, DevError>(DevError::InvalidParam)
            } else if has_buffer {
                Ok(size)
            } else {
                Err(DevError::NoMemory)
            },
    {
        if size == 0 || size > DMA_BUFFER_SIZE {
            return Err(DevError::InvalidParam);
        }
        if has_buffer {
            Ok(size)
        } else {
            Err(DevError::NoMemory)
        }
    }

    /// The state of the device, read register by register, and of the
    /// descriptors that come next and went last.
    pub fn diagnostics<F: Fn(usize) -> u32>(
        &self,
        read: F,
        rx_desc: &DmaDesc,
        tx_desc: &DmaDesc,
        last_tx_desc: &DmaDesc,
    ) -> (r: Jh7110Diagnostics)
        requires
            forall|offset: usize| call_requires(read, (offset,)),
        ensures
            call_ensures(read, (DMA_MODE,), r.dma_mode),
            call_ensures(read, (DMA_SYS_BUS_MODE,), r.dma_sys_bus_mode),
            call_ensures(read, (DMA_CH0_TX_CONTROL,), r.dma_tx_control),
            call_ensures(read, (DMA_CH0_RX_CONTROL,), r.dma_rx_control),
            call_ensures(read, (DMA_CH0_STATUS,), r.dma_status),
            call_ensures(read, (DMA_CH0_CURRENT_TX_DESC,), r.dma_current_tx_descriptor),
            call_ensures(read, (DMA_CH0_CURRENT_RX_DESC,), r.dma_current_rx_descriptor),
            call_ensures(read, (DMA_CH0_CURRENT_TX_BUFFER_HIGH,), r.dma_current_tx_buffer_high),
            call_ensures(read, (DMA_CH0_CURRENT_TX_BUFFER_LOW,), r.dma_current_tx_buffer_low),
            call_ensures(read, (DMA_CH0_TX_TAIL,), r.dma_tx_tail),
            call_ensures(read, (DMA_CH0_RX_TAIL,), r.dma_rx_tail),
            call_ensures(read, (GMAC_CONFIG,), r.mac_config),
            call_ensures(read, (GMAC_PACKET_FILTER,), r.mac_packet_filter),
            call_ensures(read, (GMAC_DEBUG,), r.mac_debug),
            call_ensures(read, (GMAC_RXQ_CTRL1,), r.mac_rx_queue_control1),
            call_ensures(read, (GMAC_ADDR_HIGH0,), r.mac_address_high),
            call_ensures(read, (GMAC_ADDR_LOW0,), r.mac_address_low),
            call_ensures(read, (MTL_TXQ0_OPERATION_MODE,), r.mtl_tx_operation_mode),
            call_ensures(read, (MTL_TXQ0_DEBUG,), r.mtl_tx_debug),
            call_ensures(read, (MMC_TX_FRAME_COUNT_GOOD_BAD,), r.mmc_tx_frame_count_good_bad),
            call_ensures(read, (MMC_TX_FRAME_COUNT_GOOD,), r.mmc_tx_frame_count_good),
            call_ensures(read, (MMC_TX_UNDERFLOW_ERROR,), r.mmc_tx_underflow_error),
            call_ensures(read, (MMC_TX_SINGLE_COLLISION_GOOD,), r.mmc_tx_single_collision_good),
            call_ensures(read, (MMC_TX_MULTI_COLLISION_GOOD,), r.mmc_tx_multi_collision_good),
            call_ensures(read, (MMC_TX_DEFERRED,), r.mmc_tx_deferred),
            call_ensures(read, (MMC_TX_LATE_COLLISION,), r.mmc_tx_late_collision),
            call_ensures(read, (MMC_TX_EXCESSIVE_COLLISION,), r.mmc_tx_excessive_collision),
            call_ensures(read, (MMC_TX_CARRIER_ERROR,), r.mmc_tx_carrier_error),
            call_ensures(read, (MMC_TX_EXCESSIVE_DEFERRAL,), r.mmc_tx_excessive_deferral),
            call_ensures(read, (MTL_RXQ0_OPERATION_MODE,), r.mtl_rx_operation_mode),
            r.rx_descriptor_status == rx_desc.words@[3],
            r.tx_descriptor_status == tx_desc.words@[3],
            r.tx_descriptor_control == tx_desc.words@[2],
            r.last_tx_descriptor_status == last_tx_desc.words@[3],
            r.last_tx_descriptor_control == last_tx_desc.words@[2],
            r.tx_index == self.tx_index,
    {
        Jh7110Diagnostics {
            dma_mode: read(DMA_MODE),
            dma_sys_bus_mode: read(DMA_SYS_BUS_MODE),
            dma_tx_control: read(DMA_CH0_TX_CONTROL),
            dma_rx_control: read(DMA_CH0_RX_CONTROL),
            dma_status: read(DMA_CH0_STATUS),
            dma_current_tx_descriptor: read(DMA_CH0_CURRENT_TX_DESC),
            dma_current_rx_descriptor: read(DMA_CH0_CURRENT_RX_DESC),
            dma_current_tx_buffer_high: read(DMA_CH0_CURRENT_TX_BUFFER_HIGH),
            dma_current_tx_buffer_low: read(DMA_CH0_CURRENT_TX_BUFFER_LOW),
            dma_tx_tail: read(DMA_CH0_TX_TAIL),
            dma_rx_tail: read(DMA_CH0_RX_TAIL),
            mac_config: read(GMAC_CONFIG),
            mac_packet_filter: read(GMAC_PACKET_FILTER),
            mac_debug: read(GMAC_DEBUG),
            mac_rx_queue_control1: read(GMAC_RXQ_CTRL1),
            mac_address_high: read(GMAC_ADDR_HIGH0),
            mac_address_low: read(GMAC_ADDR_LOW0),
            mtl_tx_operation_mode: read(MTL_TXQ0_OPERATION_MODE),
            mtl_tx_debug: read(MTL_TXQ0_DEBUG),
            mmc_tx_frame_count_good_bad: read(MMC_TX_FRAME_COUNT_GOOD_BAD),
            mmc_tx_frame_count_good: read(MMC_TX_FRAME_COUNT_GOOD),
            mmc_tx_underflow_error: read(MMC_TX_UNDERFLOW_ERROR),
            mmc_tx_single_collision_good: read(MMC_TX_SINGLE_COLLISION_GOOD),
            mmc_tx_multi_collision_good: read(MMC_TX_MULTI_COLLISION_GOOD),
            mmc_tx_deferred: read(MMC_TX_DEFERRED),
            mmc_tx_late_collision: read(MMC_TX_LATE_COLLISION),
            mmc_tx_excessive_collision: read(MMC_TX_EXCESSIVE_COLLISION),
            mmc_tx_carrier_error: read(MMC_TX_CARRIER_ERROR),
            mmc_tx_excessive_deferral: read(MMC_TX_EXCESSIVE_DEFERRAL),
            mtl_rx_operation_mode: read(MTL_RXQ0_OPERATION_MODE),
            rx_descriptor_status: rx_desc.status_word(),
            tx_descriptor_status: tx_desc.status_word(),
            tx_descriptor_control: tx_desc.control_word(),
            last_tx_descriptor_status: last_tx_desc.status_word(),
            last_tx_descriptor_control: last_tx_desc.control_word(),
            tx_index: self.tx_index,
        }
    }
}

/// The state of the device, for whoever looks for a fault.
#[derive(Clone, Copy, Debug, PartialEq, Eq, Structural)]
pub struct Jh7110Diagnostics {
    pub dma_mode: u32,
    pub dma_sys_bus_mode: u32,
    pub dma_tx_control: u32,
    pub dma_rx_control: u32,
    pub dma_status: u32,
    pub dma_current_tx_descriptor: u32,
    pub dma_current_rx_descriptor: u32,
    pub dma_current_tx_buffer_high: u32,
    pub dma_current_tx_buffer_low: u32,
    pub dma_tx_tail: u32,
    pub dma_rx_tail: u32,
    pub mac_config: u32,
    pub mac_packet_filter: u32,
    pub mac_debug: u32,
    pub mac_rx_queue_control1: u32,
    pub mac_address_high: u32,
    pub mac_address_low: u32,
    pub mtl_tx_operation_mode: u32,
    pub mtl_tx_debug: u32,
    pub mmc_tx_frame_count_good_bad: u32,
    pub mmc_tx_frame_count_good: u32,
    pub mmc_tx_underflow_error: u32,
    pub mmc_tx_single_collision_good: u32,
    pub mmc_tx_multi_collision_good: u32,
    pub mmc_tx_deferred: u32,
    pub mmc_tx_late_collision: u32,
    pub mmc_tx_excessive_collision: u32,
    pub mmc_tx_carrier_error: u32,
    pub mmc_tx_excessive_deferral: u32,
    pub mtl_rx_operation_mode: u32,
    pub rx_descriptor_status: u32,
    pub tx_descriptor_status: u32,
    pub tx_descriptor_control: u32,
    pub last_tx_descriptor_status: u32,
    pub last_tx_descriptor_control: u32,
    pub tx_index: usize,
}

/// The descriptors of a ring come round: after the last the first, and the one
/// before the next is the one itself.
pub proof fn lemma_ring_comes_round(index: usize)
    requires
        index < 4,
    ensures
        next_of(3) == 0,
        next_of(index) < 4,
        next_of(index) != index,
        prev_of(next_of(index)) == index,
{
}

/// No part of the memory is used twice: descriptors and buffers of different
/// numbers do not overlap.
pub proof fn lemma_buffers_do_not_overlap(d: &Jh7110Dwmac, i: usize, j: usize)
    requires
        d.wf(),
        i < 4,
        j < 4,
        i < j,
    ensures
        d.rx_desc_at(i) + DESC_SIZE <= d.rx_desc_at(j),
        d.tx_desc_at(i) + DESC_SIZE <= d.tx_desc_at(j),
        d.rx_buffer_at(i) + DMA_BUFFER_SIZE <= d.rx_buffer_at(j),
        d.tx_buffer_at(i) + DMA_BUFFER_SIZE <= d.tx_buffer_at(j),
        d.rx_desc_at(3) + DESC_SIZE <= d.tx_desc_at(0),
        d.tx_desc_at(3) + DESC_SIZE <= d.rx_buffer_at(0),
        d.rx_buffer_at(3) + DMA_BUFFER_SIZE <= d.tx_buffer_at(0),
        d.tx_buffer_at(3) + DMA_BUFFER_SIZE <= d.paddr + DMA_REGION_SIZE,
{
}

/// The words of a descriptor name its buffer and hand it to the device; those of a
/// frame to send hold its length.
pub proof fn lemma_descriptor_words(addr: u64, len: usize)
    requires
        len < 0x4000,
    ensures
        rx_words(addr).len() == 4,
        rx_words(addr)[0] + rx_words(addr)[1] * 0x1_0000_0000 == addr,
        rx_words(addr)[3] >= 0x8000_0000,
        tx_words(addr, len).len() == 4,
        tx_words(addr, len)[0] + tx_words(addr, len)[1] * 0x1_0000_0000 == addr,
        tx_words(addr, len)[2] as int % 0x4000 == len,
        tx_words(addr, len)[3] as int % 0x8000 == len,
        tx_words(addr, len)[3] >= 0x8000_0000,
{
    assert(rx_words(addr)[0] == low_word(addr) && rx_words(addr)[1] == high_word(addr));
    assert(tx_words(addr, len)[0] == low_word(addr) && tx_words(addr, len)[1] == high_word(addr));
}

} // verus!
