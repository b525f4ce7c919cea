//! How a DWMAC is set up, and what it reports.
use vstd::prelude::*;

use super::regs::{
    DMA_INT_ABNORMAL,
    DMA_STATUS_COMMON,
    DMA_STATUS_RX,
    DMA_STATUS_RX_INTERRUPT,
    DMA_STATUS_TX,
    DMA_STATUS_TX_INTERRUPT,
    DMA_SYS_BUS_AXI_BURST_MASK,
    DMA_SYS_BUS_AXI_EXIT_FRAME,
    DMA_SYS_BUS_AXI_LPI_ENABLE,
    DMA_SYS_BUS_AXI_READ_LIMIT_MASK,
    DMA_SYS_BUS_AXI_WRITE_LIMIT_MASK,
    DMA_SYS_BUS_ENHANCED_ADDR,
    DMA_SYS_BUS_FIXED_BURST,
    GMAC_ADDR_HIGH0,
    GMAC_ADDR_HIGH_ENABLE,
    GMAC_ADDR_LOW0,
    GMAC_CONFIG_DM,
    GMAC_CONFIG_FES,
    GMAC_CONFIG_PS,
};

verus! {

/// Settings of the bus.
#[derive(Clone, Copy, Debug, PartialEq, Eq, Structural)]
pub struct Jh7110AxiConfig {
    pub write_outstanding_limit: u8,
    pub read_outstanding_limit: u8,
    /// The lengths of bursts that may be used, by bits.
    pub burst_length_mask: u8,
    pub low_power_idle: bool,
    pub exit_on_frame: bool,
}

impl Default for Jh7110AxiConfig {
    fn default() -> (r: Self)
        ensures
            r == (Jh7110AxiConfig {
                write_outstanding_limit: 1,
                read_outstanding_limit: 1,
                burst_length_mask: 0xfe,
                low_power_idle: false,
                exit_on_frame: false,
            }),
    {
        Jh7110AxiConfig {
            write_outstanding_limit: 1,
            read_outstanding_limit: 1,
            burst_length_mask: 0xfe,
            low_power_idle: false,
            exit_on_frame: false,
        }
    }
}

/// What the board says of the device.
#[derive(Clone, Copy, Debug)]
pub struct Jh7110Config {
    pub mac_address: Option<[u8; 6]>,
    pub phy_addr: u8,
    /// The clock of the management bus; above seven the one that is set is kept.
    pub mdio_clock_range: u8,
    pub axi: Jh7110AxiConfig,
    pub force_threshold_dma_mode: bool,
    pub descriptor_cache_enable: bool,
    /// Lets all frames in; the network stack filters them.
    pub promiscuous_mode: bool,
}

impl Default for Jh7110Config {
    fn default() -> (r: Self)
        ensures
            r.mac_address is None,
            r.phy_addr == 0,
            r.mdio_clock_range == 0xf,
            r.axi == (Jh7110AxiConfig {
                write_outstanding_limit: 1,
                read_outstanding_limit: 1,
                burst_length_mask: 0xfe,
                low_power_idle: false,
                exit_on_frame: false,
            }),
            !r.force_threshold_dma_mode,
            r.descriptor_cache_enable,
            !r.promiscuous_mode,
    {
        Jh7110Config {
            mac_address: None,
            phy_addr: 0,
            mdio_clock_range: 0xf,
            axi: Jh7110AxiConfig::default(),
            force_threshold_dma_mode: false,
            descriptor_cache_enable: true,
            promiscuous_mode: false,
        }
    }
}

/// The state of the device when it interrupted.
#[derive(Clone, Copy, Debug, PartialEq, Eq, Structural)]
pub struct Jh7110InterruptStatus {
    pub dma: u32,
    pub mac: u32,
}

impl Jh7110InterruptStatus {
    /// Whether there is anything that the driver acts on.
    pub fn has_work(self) -> (r: bool)
        ensures
            r == (self.dma & (DMA_STATUS_RX | DMA_STATUS_TX | DMA_STATUS_COMMON) != 0),
    {
        self.dma & (DMA_STATUS_RX | DMA_STATUS_TX | DMA_STATUS_COMMON) != 0
    }

    /// Whether a frame came in or went out.
    pub fn has_completion(self) -> (r: bool)
        ensures
            r == (self.dma & (DMA_STATUS_RX_INTERRUPT | DMA_STATUS_TX_INTERRUPT) != 0),
    {
        self.dma & (DMA_STATUS_RX_INTERRUPT | DMA_STATUS_TX_INTERRUPT) != 0
    }

    /// Whether something went wrong.
    pub fn has_abnormal(self) -> (r: bool)
        ensures
            r == (self.dma & DMA_INT_ABNORMAL != 0),
    {
        self.dma & DMA_INT_ABNORMAL != 0
    }
}

/// What went wrong or was completed is something that the driver acts on.
pub proof fn lemma_events_are_work(dma: u32)
    ensures
        dma & (DMA_STATUS_RX_INTERRUPT | DMA_STATUS_TX_INTERRUPT) != 0 ==> dma & (DMA_STATUS_RX
            | DMA_STATUS_TX | DMA_STATUS_COMMON) != 0,
        dma & DMA_INT_ABNORMAL != 0 ==> dma & (DMA_STATUS_RX | DMA_STATUS_TX | DMA_STATUS_COMMON)
            != 0,
{
    assert((dma & (0x40u32 | 0x1u32) != 0 ==> dma & (0x0038_0bc0u32 | 0x0007_0407u32 | 0xf000u32)
        != 0) && (dma & 0x5000u32 != 0 ==> dma & (0x0038_0bc0u32 | 0x0007_0407u32 | 0xf000u32)
        != 0)) by (bit_vector);
}

/// Registers of the PHY that tell how the wires are driven.
#[derive(Clone, Copy, Debug, PartialEq, Eq, Structural)]
pub struct Jh7110PhyExtendedStatus {
    pub chip_config: u16,
    pub rgmii_config1: u16,
    pub pad_drive_strength: u16,
    pub synce_config: u16,
}

/// Registers of the PHY that tell whether the link is up.
#[derive(Clone, Copy, Debug, PartialEq, Eq, Structural)]
pub struct Jh7110PhyBasicStatus {
    pub control: u16,
    pub status: u16,
}

/// The smaller of a limit and the largest that the register takes.
pub open spec fn clamp_limit(limit: u8) -> int {
    if limit > 0xf {
        0xf
    } else {
        limit as int
    }
}

pub open spec fn flag(b: bool, value: int) -> int {
    if b {
        value
    } else {
        0
    }
}

/// The register for the bus: each setting has bits of its own. The lowest bit of
/// the mask of bursts is reserved and stands for fixed bursts, which are on.
pub open spec fn sys_bus_mode(extended_addressing: bool, axi: Jh7110AxiConfig) -> int {
    1 + (axi.burst_length_mask / 2) * 2 + flag(extended_addressing, 0x800) + clamp_limit(
        axi.read_outstanding_limit,
    ) * 0x1_0000 + clamp_limit(axi.write_outstanding_limit) * 0x100_0000 + flag(
        axi.exit_on_frame,
        0x4000_0000,
    ) + flag(axi.low_power_idle, 0x8000_0000)
}

pub fn dma_sys_bus_mode(extended_addressing: bool, axi: Jh7110AxiConfig) -> (r: u32)
    ensures
        r == sys_bus_mode(extended_addressing, axi),
{
    let write_limit: u8 = if axi.write_outstanding_limit > 0xf {
        0xf
    } else {
        axi.write_outstanding_limit
    };
    let read_limit: u8 = if axi.read_outstanding_limit > 0xf {
        0xf
    } else {
        axi.read_outstanding_limit
    };
    let burst: u8 = axi.burst_length_mask;
    let base: u32 = DMA_SYS_BUS_FIXED_BURST | (((write_limit as u32) << 24)
        & DMA_SYS_BUS_AXI_WRITE_LIMIT_MASK) | (((read_limit as u32) << 16)
        & DMA_SYS_BUS_AXI_READ_LIMIT_MASK) | ((burst as u32) & DMA_SYS_BUS_AXI_BURST_MASK);
    assert(base == 1 + (burst / 2) * 2 + read_limit * 0x1_0000 + write_limit * 0x100_0000)
        by (bit_vector)
        requires
            write_limit <= 0xf,
            read_limit <= 0xf,
            base == 1u32 | (((write_limit as u32) << 24) & 0x0f00_0000u32) | (((read_limit as u32)
                << 16) & 0x000f_0000u32) | ((burst as u32) & 0xfeu32),
    ;
    let mut value: u32 = base;
    if extended_addressing {
        assert(base | 0x800u32 == base + 0x800 && base + 0x800 < 0x1000_0000) by (bit_vector)
            requires
                write_limit <= 0xf,
                read_limit <= 0xf,
                base == 1u32 | (((write_limit as u32) << 24) & 0x0f00_0000u32) | (((
                read_limit as u32) << 16) & 0x000f_0000u32) | ((burst as u32) & 0xfeu32),
        ;
        value = value | DMA_SYS_BUS_ENHANCED_ADDR;
    }
    let v1: u32 = value;
    assert(v1 < 0x1000_0000);
    if axi.low_power_idle {
        assert(v1 | 0x8000_0000u32 == v1 + 0x8000_0000) by (bit_vector)
            requires
                v1 < 0x1000_0000,
        ;
        value = value | DMA_SYS_BUS_AXI_LPI_ENABLE;
    }
    if axi.exit_on_frame {
        assert(value | 0x4000_0000u32 == value + 0x4000_0000) by (bit_vector)
            requires
                value < 0x1000_0000 || 0x8000_0000 <= value < 0x9000_0000,
        ;
        value = value | DMA_SYS_BUS_AXI_EXIT_FRAME;
    }
    value
}

pub fn all_equal(address: &[u8; 6], value: u8) -> (r: bool)
    ensures
        r == forall|i: int| 0 <= i < 6 ==> #[trigger] address@[i] == value,
{
    address[0] == value && address[1] == value && address[2] == value && address[3] == value
        && address[4] == value && address[5] == value
}

/// Whether an address names one device: not a group, not nothing.
pub open spec fn is_unicast(address: Seq<u8>) -> bool {
    &&& address[0] % 2 == 0
    &&& exists|i: int| 0 <= i < 6 && #[trigger] address[i] != 0
}

pub fn valid_unicast_mac(address: &[u8; 6]) -> (r: bool)
    ensures
        r == is_unicast(address@),
{
    let first: u8 = address[0];
    assert((first & 1 == 0) == (first % 2 == 0)) by (bit_vector);
    first & 1 == 0 && !all_equal(address, 0) && !all_equal(address, 0xff)
}

/// The address of the device: that of the board, else that of the controller, as
/// far as they are valid.
pub fn select_mac_address(configured: Option<[u8; 6]>, controller: [u8; 6]) -> (r: Option<[u8; 6]>)
    ensures
        r == match configured {
            Some(a) if is_unicast(a@) => Some(a),
            _ => if is_unicast(controller@) {
                Some(controller)
            } else {
                None
            },
        },
{
    if let Some(a) = configured {
        if valid_unicast_mac(&a) {
            return Some(a);
        }
    }
    if valid_unicast_mac(&controller) {
        Some(controller)
    } else {
        None
    }
}

/// The writes that give the controller its address: the high word first, since
/// the low one makes both count.
pub fn primary_mac_register_writes(address: [u8; 6]) -> (r: [(usize, u32); 2])
    ensures
        r@ == seq![
            (
                GMAC_ADDR_HIGH0,
                (GMAC_ADDR_HIGH_ENABLE + address@[4] + address@[5] * 0x100) as u32,
            ),
            (
                GMAC_ADDR_LOW0,
                (address@[0] + address@[1] * 0x100 + address@[2] * 0x1_0000 + address@[3]
                    * 0x100_0000) as u32,
            ),
        ],
{
    let low: u32 = address[0] as u32 + address[1] as u32 * 0x100 + address[2] as u32 * 0x1_0000
        + address[3] as u32 * 0x100_0000;
    let high: u32 = address[4] as u32 + address[5] as u32 * 0x100;
    assert(high | 0x8000_0000u32 == high + 0x8000_0000) by (bit_vector)
        requires
            high < 0x1_0000,
    ;
    let r: [(usize, u32); 2] = [
        (GMAC_ADDR_HIGH0, high | GMAC_ADDR_HIGH_ENABLE),
        (GMAC_ADDR_LOW0, low),
    ];
    assert(r@ =~= seq![
        (GMAC_ADDR_HIGH0, (GMAC_ADDR_HIGH_ENABLE + address@[4] + address@[5] * 0x100) as u32),
        (
            GMAC_ADDR_LOW0,
            (address@[0] + address@[1] * 0x100 + address@[2] * 0x1_0000 + address@[3]
                * 0x100_0000) as u32,
        ),
    ]);
    r
}

/// The address in the registers of the controller.
pub fn read_mac_address(low: u32, high: u32) -> (r: [u8; 6])
    ensures
        r@ == seq![
            (low % 0x100) as u8,
            ((low / 0x100) % 0x100) as u8,
            ((low / 0x1_0000) % 0x100) as u8,
            (low / 0x100_0000) as u8,
            (high % 0x100) as u8,
            ((high / 0x100) % 0x100) as u8,
        ],
{
    let r: [u8; 6] = [
        (low % 0x100) as u8,
        ((low / 0x100) % 0x100) as u8,
        ((low / 0x1_0000) % 0x100) as u8,
        (low / 0x100_0000) as u8,
        (high % 0x100) as u8,
        ((high / 0x100) % 0x100) as u8,
    ];
    assert(r@ =~= seq![
        (low % 0x100) as u8,
        ((low / 0x100) % 0x100) as u8,
        ((low / 0x1_0000) % 0x100) as u8,
        (low / 0x100_0000) as u8,
        (high % 0x100) as u8,
        ((high / 0x100) % 0x100) as u8,
    ]);
    r
}

proof fn lemma_byte(x: int, y: int)
    requires
        0 <= x < 0x100,
    ensures
        (x + 0x100 * y) % 0x100 == x,
        (x + 0x100 * y) / 0x100 == y,
{
}

proof fn lemma_four_bytes(a: int, b: int, c: int, d: int)
    requires
        0 <= a < 0x100,
        0 <= b < 0x100,
        0 <= c < 0x100,
        0 <= d < 0x100,
    ensures
        ({
            let n = a + b * 0x100 + c * 0x1_0000 + d * 0x100_0000;
            &&& n % 0x100 == a
            &&& (n / 0x100) % 0x100 == b
            &&& (n / 0x1_0000) % 0x100 == c
            &&& n / 0x100_0000 == d
        }),
{
    let n = a + b * 0x100 + c * 0x1_0000 + d * 0x100_0000;
    lemma_byte(a, b + 0x100 * (c + 0x100 * d));
    lemma_byte(b, c + 0x100 * d);
    lemma_byte(c, d);
    assert(n == a + 0x100 * (b + 0x100 * (c + 0x100 * d)));
    assert(n / 0x1_0000 == c + 0x100 * d);
}

/// The address that was written to the controller is the one that is read.
pub proof fn lemma_mac_address_comes_back(a: Seq<u8>)
    requires
        a.len() == 6,
    ensures
        ({
            let low = (a[0] + a[1] * 0x100 + a[2] * 0x1_0000 + a[3] * 0x100_0000) as u32;
            let high = (GMAC_ADDR_HIGH_ENABLE + a[4] + a[5] * 0x100) as u32;
            seq![
                (low % 0x100) as u8,
                ((low / 0x100) % 0x100) as u8,
                ((low / 0x1_0000) % 0x100) as u8,
                (low / 0x100_0000) as u8,
                (high % 0x100) as u8,
                ((high / 0x100) % 0x100) as u8,
            ] == a
        }),
{
    let low = (a[0] + a[1] * 0x100 + a[2] * 0x1_0000 + a[3] * 0x100_0000) as u32;
    let high = (GMAC_ADDR_HIGH_ENABLE + a[4] + a[5] * 0x100) as u32;
    lemma_four_bytes(a[0] as int, a[1] as int, a[2] as int, a[3] as int);
    lemma_four_bytes(a[4] as int, a[5] as int, 0, 0x80);
    assert(seq![
        (low % 0x100) as u8,
        ((low / 0x100) % 0x100) as u8,
        ((low / 0x1_0000) % 0x100) as u8,
        (low / 0x100_0000) as u8,
        (high % 0x100) as u8,
        ((high / 0x100) % 0x100) as u8,
    ] =~= a);
}

pub const YT8531_PHY_ID: u32 = 0x4f51_e91b;

/// The register that takes the number of an extended register.
pub const YT8531_EXT_PAGE_SELECT: u8 = 0x1e;

/// The register that then shows it.
pub const YT8531_EXT_PAGE_DATA: u8 = 0x1f;

pub const YT8531_EXT_CHIP_CONFIG: u16 = 0xa001;

pub const YT8531_EXT_RGMII_CONFIG1: u16 = 0xa003;

pub const YT8531_EXT_PAD_DRIVE_STRENGTH: u16 = 0xa010;

pub const YT8531_EXT_SYNCE_CONFIG: u16 = 0xa012;

/// Whether an identifier is that of the PHY, whatever its revision.
pub fn valid_phy_id(phy_id: u32) -> (r: bool)
    ensures
        r == (phy_id / 16 == YT8531_PHY_ID / 16),
{
    assert((phy_id & !0xfu32 == 0x4f51_e91bu32 & !0xfu32) == (phy_id / 16 == 0x4f51_e91bu32 / 16))
        by (bit_vector);
    phy_id & !0xf == YT8531_PHY_ID & !0xf
}

/// What the PHY says of the link: it is up and its speed known, full duplex, and
/// its speed.
pub open spec fn spec_mac_link_config(status: u16) -> Option<u32> {
    let up = (status / 0x400) % 4 == 3;
    let duplex = if (status / 0x2000) % 2 == 1 {
        GMAC_CONFIG_DM
    } else {
        0u32
    };
    let speed = status / 0x4000;
    if !up || speed == 3 {
        None
    } else if speed == 0 {
        Some((duplex + GMAC_CONFIG_PS) as u32)
    } else if speed == 1 {
        Some((duplex + GMAC_CONFIG_PS + GMAC_CONFIG_FES) as u32)
    } else {
        Some(duplex)
    }
}

/// The settings of the controller for the link; none while the link is down or
/// not resolved.
pub fn mac_link_config(status: u16) -> (r: Option<u32>)
    ensures
        r == spec_mac_link_config(status),
{
    assert((status & 0x0c00u16 == 0x0c00u16) == ((status / 0x400) % 4 == 3) && (status & 0x2000u16
        != 0) == ((status / 0x2000) % 2 == 1) && (status >> 14) & 0x3 == status / 0x4000)
        by (bit_vector);
    assert((0x2000u32 | 0x8000u32) == 0xa000u32 && (0x8000u32 | 0x4000u32) == 0xc000u32 && (
    0x2000u32 | 0xc000u32) == 0xe000u32 && (0u32 | 0x8000u32) == 0x8000u32 && (0u32 | 0xc000u32)
        == 0xc000u32) by (bit_vector);
    if status & 0x0c00 != 0x0c00 {
        return None;
    }
    let duplex: u32 = if status & 0x2000 != 0 {
        GMAC_CONFIG_DM
    } else {
        0
    };
    let speed: u16 = (status >> 14) & 0x3;
    if speed == 0 {
        Some(duplex | GMAC_CONFIG_PS)
    } else if speed == 1 {
        Some(duplex | (GMAC_CONFIG_PS | GMAC_CONFIG_FES))
    } else if speed == 2 {
        Some(duplex)
    } else {
        None
    }
}

/// How wide the addresses are that the device can use; zero where that is not
/// known.
pub fn dma_address_width(hw_feature1: u32) -> (r: u8)
    ensures
        r == {
            let w = (hw_feature1 / 0x4000) % 4;
            if w == 0 {
                32int
            } else if w == 1 {
                40
            } else if w == 2 {
                48
            } else {
                0
            }
        },
{
    let w: u32 = (hw_feature1 / 0x4000) % 4;
    if w == 0 {
        32
    } else if w == 1 {
        40
    } else if w == 2 {
        48
    } else {
        0
    }
}

/// The clock of the management bus to start with: that of the board, or the one
/// that is set, at most seven.
pub fn initial_clock_range(configured: u8, mdio_addr: u32) -> (r: u8)
    ensures
        r <= 7,
        r == if configured <= 7 {
            configured as int
        } else {
            let set = (mdio_addr as int / 0x100) % 16;
            if set < 7 {
                set
            } else {
                7
            }
        },
{
    if configured <= 7 {
        return configured;
    }
    let set: u8 = ((mdio_addr / 0x100) % 16) as u8;
    if set < 7 {
        set
    } else {
        7
    }
}

} // verus!
