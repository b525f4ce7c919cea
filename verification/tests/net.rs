use pulseos::error::{AxError, DevError};
use pulseos::net::checksum::{
    copy_raw_ipv4_packet, internet_checksum, DEFAULT_TTL, IPPROTO_ICMP, IPV4_HEADER_LEN,
};
use pulseos::net::desc::{
    DmaDesc, DESC_SIZE, OWN, RX_BUFFER1_VALID, RX_ERROR, RX_FIRST, RX_IOC, RX_LAST, TX_FIRST,
    TX_LAST,
};
use pulseos::net::dwmac::{
    align_up, check_region, Jh7110Dwmac, CACHE_LINE_SIZE, DMA_REGION_PAGES, DMA_REGION_SIZE,
    FALLBACK_POLL_INTERVAL_MILLIS, PAGE_SIZE, RX_BUFFER_OFFSET, RX_DESC_COUNT, RX_RING_OFFSET,
    TX_BUFFER_OFFSET, TX_DESC_COUNT, TX_RING_OFFSET,
};
use pulseos::net::dwmac_config::{
    dma_address_width, dma_sys_bus_mode, initial_clock_range, mac_link_config,
    primary_mac_register_writes, read_mac_address, select_mac_address, valid_phy_id,
    valid_unicast_mac, Jh7110AxiConfig, Jh7110Config, Jh7110InterruptStatus, YT8531_PHY_ID,
};
use pulseos::net::icmp::{
    before_attempt, check_send, deadline_from_ticks, deliver, io_first, io_second, message_source,
    octets, recv_error, recv_result, send_result, socket_deadline, BindError, IcmpSocket, IoStep, RecvError,
    SendError, SendState,
};
use pulseos::net::listen_table::{Accepted, Connection, Incoming, ListenTable, LISTEN_QUEUE_SIZE};
use pulseos::net::regs::{
    RegOp, DMA_CH0_RX_TAIL, DMA_CH0_TX_TAIL, DMA_MODE, DMA_MODE_DESCRIPTOR_CACHE_ENABLE,
    DMA_STATUS_RX_INTERRUPT, DMA_SYS_BUS_MODE, GMAC_ADDR_HIGH0, GMAC_ADDR_HIGH_ENABLE,
    GMAC_ADDR_LOW0, GMAC_CONFIG_BE, GMAC_CONFIG_DCRS, GMAC_CONFIG_DM, GMAC_CONFIG_FES,
    GMAC_CONFIG_JD, GMAC_CONFIG_JE, GMAC_CONFIG_PS, GMAC_PACKET_FILTER,
    GMAC_PACKET_FILTER_HASH_OR_PERFECT, GMAC_PACKET_FILTER_PASS_CONTROL,
    GMAC_PACKET_FILTER_PROMISCUOUS, GMAC_RXQ_CTRL1, GMAC_RX_MCBC_QUEUE_ENABLE,
    GMAC_RX_MCBC_QUEUE_MASK, MMC_TX_CARRIER_ERROR, MMC_TX_DEFERRED, MMC_TX_EXCESSIVE_COLLISION,
    MMC_TX_EXCESSIVE_DEFERRAL, MMC_TX_LATE_COLLISION, MMC_TX_MULTI_COLLISION_GOOD,
    MMC_TX_SINGLE_COLLISION_GOOD, MMC_TX_UNDERFLOW_ERROR,
};
use pulseos::net::sockets::{
    bind_check, is_local_ip, poll_delay, Endpoint, IoEvents, IpAddress, ListenEndpoint,
    SocketInfo, SocketWaitMap, SocketWaitQueues, TcpState,
};
use pulseos::net::wire::{snoop_tcp_packet, Snoop};
use pulseos::task::time::TimeValue;

const LOCALHOST: [u8; 4] = [127, 0, 0, 1];

#[test]
fn raw_ipv4_packet_has_valid_header_and_payload() {
    let payload = [8, 0, 0xf7, 0xff, 0x12, 0x34, 0, 1];
    let mut packet = [0u8; 28];
    assert_eq!(
        copy_raw_ipv4_packet(&mut packet, &payload, LOCALHOST, LOCALHOST),
        packet.len()
    );
    assert_eq!(packet[0], 0x45);
    assert_eq!(u16::from_be_bytes([packet[2], packet[3]]), 28);
    assert_eq!(packet[8], DEFAULT_TTL);
    assert_eq!(packet[9], IPPROTO_ICMP);
    assert_eq!(internet_checksum(&packet[..IPV4_HEADER_LEN]), 0);
    assert_eq!(&packet[IPV4_HEADER_LEN..], payload);
}

#[test]
fn raw_ipv4_packet_respects_short_user_buffer() {
    let mut packet = [0u8; 24];
    assert_eq!(
        copy_raw_ipv4_packet(&mut packet, &[0xaa; 16], LOCALHOST, LOCALHOST),
        packet.len()
    );
    assert_eq!(&packet[IPV4_HEADER_LEN..], &[0xaa; 4]);
}

#[test]
fn bytes_with_their_checksum_check() {
    for len in [2, 8, 20, 21, 0x2_0000, 0x2_0002] {
        let mut bytes: Vec<u8> = (0..len).map(|i| (i * 37 + 200) as u8).collect();
        let at = (len / 4) * 2;
        bytes[at] = 0;
        bytes[at + 1] = 0;
        let c = internet_checksum(&bytes);
        bytes[at..at + 2].copy_from_slice(&c.to_be_bytes());
        assert_eq!(internet_checksum(&bytes), 0);
    }
    assert_eq!(internet_checksum(&vec![0xff; 0x2_0002]), 0);
}

#[test]
fn checksum_of_known_bytes() {
    assert_eq!(internet_checksum(&[]), 0xffff);
    assert_eq!(internet_checksum(&[0x00, 0x01, 0xf2, 0x03, 0xf4, 0xf5, 0xf6, 0xf7]), 0x220d);
    assert_eq!(internet_checksum(&[1]), 0xfeff);
}

#[test]
fn descriptor_layout_matches_dwmac5_enhanced_format() {
    assert_eq!(DESC_SIZE, 16);
    assert_eq!(core::mem::size_of::<DmaDesc>(), DESC_SIZE);
}

#[test]
fn rx_descriptor_preserves_40_bit_buffer_address() {
    let desc = DmaDesc::rx(0x12_3456_7890);
    assert_eq!(desc.words[0], 0x3456_7890);
    assert_eq!(desc.words[1], 0x12);
    assert!(desc.owned_by_dma());
    assert_eq!(
        desc.words[3] & (RX_IOC | RX_BUFFER1_VALID),
        RX_IOC | RX_BUFFER1_VALID
    );
}

#[test]
fn tx_descriptor_is_one_complete_frame() {
    let desc = DmaDesc::tx(0x01_2345_6780, 1514);
    assert_eq!(desc.words[0], 0x2345_6780);
    assert_eq!(desc.words[1], 1);
    assert_eq!(desc.words[2] & 0x3fff, 1514);
    assert_eq!(desc.words[3] & 0x7fff, 1514);
    assert_eq!(
        desc.words[3] & (TX_FIRST | TX_LAST | OWN),
        TX_FIRST | TX_LAST | OWN
    );
}

#[test]
fn rx_writeback_rejects_partial_and_error_frames() {
    let mut desc = DmaDesc::empty();
    desc.words[3] = RX_FIRST | RX_LAST | 128;
    assert_eq!(desc.received_len(), Some(128));
    desc.words[3] |= RX_ERROR;
    assert_eq!(desc.received_len(), None);
    desc.words[3] = RX_FIRST | 128;
    assert_eq!(desc.received_len(), None);
}

#[test]
fn interrupt_status_classifies_completions_and_errors() {
    let completion = Jh7110InterruptStatus {
        dma: DMA_STATUS_RX_INTERRUPT | (1 << 15),
        mac: 0,
    };
    assert!(completion.has_work());
    assert!(completion.has_completion());
    assert!(!completion.has_abnormal());

    let abnormal = Jh7110InterruptStatus {
        dma: (1 << 14) | (1 << 7),
        mac: 0,
    };
    assert!(abnormal.has_work());
    assert!(!abnormal.has_completion());
    assert!(abnormal.has_abnormal());
}

fn vf2_axi() -> Jh7110AxiConfig {
    Jh7110AxiConfig {
        write_outstanding_limit: 15,
        read_outstanding_limit: 15,
        burst_length_mask: 0xf0,
        low_power_idle: false,
        exit_on_frame: false,
    }
}

#[test]
fn vf2_axi_settings_encode_into_dma_system_bus_mode() {
    let axi = vf2_axi();
    assert_eq!(dma_sys_bus_mode(false, axi), 0x0f0f_00f1);
    assert_eq!(dma_sys_bus_mode(true, axi), 0x0f0f_08f1);
}

#[test]
fn axi_settings_clamp_limits_and_mask_reserved_burst_bits() {
    let axi = Jh7110AxiConfig {
        write_outstanding_limit: u8::MAX,
        read_outstanding_limit: u8::MAX,
        burst_length_mask: u8::MAX,
        low_power_idle: true,
        exit_on_frame: true,
    };
    assert_eq!(dma_sys_bus_mode(false, axi), 0xcf0f_00ff);
}

struct Registers(Vec<u32>);

impl Registers {
    fn new() -> Self {
        Registers(vec![0; 0x800])
    }

    fn read(&self, offset: usize) -> u32 {
        self.0[offset / 4]
    }

    fn write(&mut self, offset: usize, value: u32) {
        self.0[offset / 4] = value;
    }

    fn apply(&mut self, ops: &[RegOp]) {
        for op in ops {
            let old = self.read(op.offset());
            self.write(op.offset(), op.apply(old));
        }
    }
}

fn test_device() -> Jh7110Dwmac {
    let config = Jh7110Config {
        mac_address: Some([0x02, 1, 2, 3, 4, 5]),
        mdio_clock_range: 0,
        ..Jh7110Config::default()
    };
    match Jh7110Dwmac::try_new(0x1000_0000, &config, [0; 6], 0) {
        Ok(device) => device,
        Err(_) => panic!("no device"),
    }
}

#[test]
fn dma_configuration_enables_starfive_descriptor_cache() {
    let mut device = test_device();
    let mut regs = Registers::new();
    device.axi = vf2_axi();
    regs.apply(&device.configure_dma(dma_address_width(0) > 32));
    assert_eq!(
        regs.read(DMA_MODE) & DMA_MODE_DESCRIPTOR_CACHE_ENABLE,
        DMA_MODE_DESCRIPTOR_CACHE_ENABLE
    );
    assert_eq!(regs.read(DMA_SYS_BUS_MODE), 0x0f0f_00f1);
    assert_eq!(regs.read(DMA_CH0_TX_TAIL), device.tx_desc_paddr(0) as u32);

    let empty = DmaDesc::empty();
    let diagnostics = device.diagnostics(|offset| regs.read(offset), &empty, &empty, &empty);
    assert_eq!(
        diagnostics.dma_mode & DMA_MODE_DESCRIPTOR_CACHE_ENABLE,
        DMA_MODE_DESCRIPTOR_CACHE_ENABLE
    );
    assert_eq!(diagnostics.dma_sys_bus_mode, 0x0f0f_00f1);
    assert_eq!(diagnostics.dma_rx_tail, device.rx_desc_paddr(1) as u32);
}

#[test]
fn diagnostics_reads_tx_mmc_error_counters() {
    let device = test_device();
    let mut regs = Registers::new();
    regs.write(MMC_TX_UNDERFLOW_ERROR, 1);
    regs.write(MMC_TX_SINGLE_COLLISION_GOOD, 2);
    regs.write(MMC_TX_MULTI_COLLISION_GOOD, 3);
    regs.write(MMC_TX_DEFERRED, 4);
    regs.write(MMC_TX_LATE_COLLISION, 5);
    regs.write(MMC_TX_EXCESSIVE_COLLISION, 6);
    regs.write(MMC_TX_CARRIER_ERROR, 7);
    regs.write(MMC_TX_EXCESSIVE_DEFERRAL, 8);

    let empty = DmaDesc::empty();
    let diagnostics = device.diagnostics(|offset| regs.read(offset), &empty, &empty, &empty);
    assert_eq!(diagnostics.mmc_tx_underflow_error, 1);
    assert_eq!(diagnostics.mmc_tx_single_collision_good, 2);
    assert_eq!(diagnostics.mmc_tx_multi_collision_good, 3);
    assert_eq!(diagnostics.mmc_tx_deferred, 4);
    assert_eq!(diagnostics.mmc_tx_late_collision, 5);
    assert_eq!(diagnostics.mmc_tx_excessive_collision, 6);
    assert_eq!(diagnostics.mmc_tx_carrier_error, 7);
    assert_eq!(diagnostics.mmc_tx_excessive_deferral, 8);
}

#[test]
fn mac_configuration_enables_primary_perfect_address_filter() {
    let device = test_device();
    let mut regs = Registers::new();
    regs.apply(&device.configure_mac());
    assert_eq!(regs.read(GMAC_ADDR_LOW0), 0x0302_0102);
    assert_eq!(regs.read(GMAC_ADDR_HIGH0), GMAC_ADDR_HIGH_ENABLE | 0x0504);
    assert_eq!(
        regs.read(GMAC_PACKET_FILTER),
        GMAC_PACKET_FILTER_HASH_OR_PERFECT
    );
    let empty = DmaDesc::empty();
    let diagnostics = device.diagnostics(|offset| regs.read(offset), &empty, &empty, &empty);
    assert_eq!(diagnostics.mac_address_high, GMAC_ADDR_HIGH_ENABLE | 0x0504);
    assert_eq!(diagnostics.mac_address_low, 0x0302_0102);
    assert_eq!(
        diagnostics.mac_config
            & (GMAC_CONFIG_BE | GMAC_CONFIG_JD | GMAC_CONFIG_JE | GMAC_CONFIG_DCRS),
        GMAC_CONFIG_BE | GMAC_CONFIG_JD | GMAC_CONFIG_JE | GMAC_CONFIG_DCRS
    );
    assert_eq!(
        regs.read(GMAC_RXQ_CTRL1) & (GMAC_RX_MCBC_QUEUE_MASK | GMAC_RX_MCBC_QUEUE_ENABLE),
        GMAC_RX_MCBC_QUEUE_ENABLE
    );
}

#[test]
fn primary_mac_address_is_committed_high_word_first() {
    let writes = primary_mac_register_writes([0x02, 1, 2, 3, 4, 5]);

    assert_eq!(
        writes,
        [
            (GMAC_ADDR_HIGH0, GMAC_ADDR_HIGH_ENABLE | 0x0504),
            (GMAC_ADDR_LOW0, 0x0302_0102),
        ]
    );
}

#[test]
fn mac_configuration_can_delegate_destination_filtering_to_stack() {
    let mut device = test_device();
    let mut regs = Registers::new();
    device.promiscuous_mode = true;
    regs.apply(&device.configure_mac());

    assert_eq!(
        regs.read(GMAC_PACKET_FILTER),
        GMAC_PACKET_FILTER_HASH_OR_PERFECT
            | GMAC_PACKET_FILTER_PROMISCUOUS
            | GMAC_PACKET_FILTER_PASS_CONTROL
    );
}

#[test]
fn dma_layout_is_aligned_and_fits_allocated_pages() {
    assert_eq!(RX_RING_OFFSET % 16, 0);
    assert_eq!(TX_RING_OFFSET % 16, 0);
    assert_ne!(
        RX_RING_OFFSET / CACHE_LINE_SIZE,
        TX_RING_OFFSET / CACHE_LINE_SIZE
    );
    assert_eq!(RX_BUFFER_OFFSET % 64, 0);
    assert_eq!(TX_BUFFER_OFFSET % 64, 0);
    assert!(DMA_REGION_SIZE <= DMA_REGION_PAGES * PAGE_SIZE);
}

#[test]
fn mac_validation_accepts_only_unicast_addresses() {
    assert!(valid_unicast_mac(&[0x02, 1, 2, 3, 4, 5]));
    assert!(!valid_unicast_mac(&[0x01, 1, 2, 3, 4, 5]));
    assert!(!valid_unicast_mac(&[0; 6]));
    assert!(!valid_unicast_mac(&[0xff; 6]));
}

#[test]
fn mac_selection_requires_a_valid_firmware_or_controller_address() {
    let configured = [0x02, 1, 2, 3, 4, 5];
    let controller = [0x02, 6, 7, 8, 9, 10];
    assert_eq!(
        select_mac_address(Some(configured), controller),
        Some(configured)
    );
    assert_eq!(
        select_mac_address(Some([0; 6]), controller),
        Some(controller)
    );
    assert_eq!(select_mac_address(Some([0; 6]), [0xff; 6]), None);
}

#[test]
fn ring_indices_wrap_at_queue_size() {
    assert_eq!((RX_DESC_COUNT - 1 + 1) % RX_DESC_COUNT, 0);
    assert_eq!((TX_DESC_COUNT - 1 + 1) % TX_DESC_COUNT, 0);
}

#[test]
fn polling_detects_rx_writeback_without_interrupt() {
    let mut device = test_device();
    assert!(!device.can_receive(&DmaDesc::rx(device.rx_buffer_paddr(0))));

    assert!(device.can_receive(&DmaDesc::empty()));
    assert!(device.rx_ready);
    assert_eq!(device.poll_interval(), Some(FALLBACK_POLL_INTERVAL_MILLIS));
    assert_eq!(device.poll_interval(), Some(10));
}

#[test]
fn polling_reclaims_tx_without_interrupt() {
    let mut device = test_device();
    device.tx_index = 1;
    device.tx_busy = true;
    assert_eq!(device.completed_index(), 0);
    assert!(!device.can_transmit(&DmaDesc::tx(device.tx_buffer_paddr(0), 64)));

    assert!(device.can_transmit(&DmaDesc::empty()));
    assert!(!device.tx_busy);
}

#[test]
fn receive_delivers_dma_payload_and_advances_exclusive_tail() {
    let mut device = test_device();
    let (rx, tx) = device.initialize_rings();
    assert!(rx[0].owned_by_dma());
    assert!(!rx[1].owned_by_dma());
    assert!(!tx[0].owned_by_dma());
    let mut written = DmaDesc::empty();
    written.words[3] = RX_FIRST | RX_LAST | 64;
    let payload = [0xa5; 64];
    let mut memory = vec![0; DMA_REGION_SIZE];
    memory[RX_BUFFER_OFFSET..RX_BUFFER_OFFSET + payload.len()].copy_from_slice(&payload);

    let step = device.receive(&written, &written, true).unwrap();
    assert_eq!(step.result, Ok(64));
    assert_eq!(step.packet(&memory).unwrap(), payload);
    assert_eq!(step.index, 0);
    assert_eq!(device.rx_index, 1);
    assert!(!device.rx_ready);
    assert_eq!(step.next_index, 1);
    assert!(step.next_desc.owned_by_dma());
    assert_eq!(step.tail, device.rx_desc_paddr(2) as u32);
    assert_eq!(DMA_CH0_RX_TAIL, 0x1128);
}

#[test]
fn transmit_copies_payload_and_advances_exclusive_tail() {
    let mut device = test_device();
    let payload = [0x5a; 64];
    assert_eq!(Jh7110Dwmac::alloc_tx_buffer(payload.len(), true), Ok(64));

    let step = device.transmit(payload.len(), &DmaDesc::empty()).unwrap();
    let mut memory = vec![0; DMA_REGION_SIZE];
    step.place(&payload, &mut memory);

    assert_eq!(&memory[TX_BUFFER_OFFSET..TX_BUFFER_OFFSET + payload.len()], &payload);
    assert_eq!(memory.iter().filter(|b| **b != 0).count(), payload.len());
    assert_eq!(step.index, 0);
    assert_eq!(step.buffer_paddr, device.tx_buffer_paddr(0));
    assert!(step.desc.owned_by_dma());
    assert_eq!(step.desc.words[2] & 0x3fff, 64);
    assert_eq!(step.desc.words[3] & 0x7fff, 64);
    assert!(device.tx_busy);
    assert_eq!(device.tx_index, 1);
    assert_eq!(step.tail, device.tx_desc_paddr(1) as u32);
}

#[test]
fn phy_id_validation_rejects_empty_mdio_reads() {
    assert!(valid_phy_id(YT8531_PHY_ID));
    assert!(!valid_phy_id(0));
    assert!(!valid_phy_id(u32::MAX));
}

#[test]
fn phy_status_maps_resolved_link_to_mac_speed_and_duplex() {
    const LINK_RESOLVED: u16 = (1 << 11) | (1 << 10);
    assert_eq!(mac_link_config(0), None);
    assert_eq!(
        mac_link_config(LINK_RESOLVED | (1 << 13)),
        Some(GMAC_CONFIG_DM | GMAC_CONFIG_PS)
    );
    assert_eq!(
        mac_link_config(LINK_RESOLVED | (1 << 13) | (1 << 14)),
        Some(GMAC_CONFIG_DM | GMAC_CONFIG_PS | GMAC_CONFIG_FES)
    );
    assert_eq!(
        mac_link_config(LINK_RESOLVED | (1 << 13) | (2 << 14)),
        Some(GMAC_CONFIG_DM)
    );
    assert_eq!(mac_link_config(LINK_RESOLVED | (3 << 14)), None);
}

#[test]
fn frames_that_cannot_be_used_are_refused() {
    let mut device = test_device();
    assert!(matches!(device.transmit(0, &DmaDesc::empty()), Err(DevError::InvalidParam)));
    assert!(matches!(device.transmit(2049, &DmaDesc::empty()), Err(DevError::InvalidParam)));
    device.tx_busy = true;
    let busy = DmaDesc::tx(0, 64);
    assert!(matches!(device.transmit(64, &busy), Err(DevError::Again)));
    let waiting = DmaDesc::rx(0);
    assert!(matches!(device.receive(&waiting, &waiting, true), Err(DevError::Again)));
    let mut damaged = DmaDesc::empty();
    damaged.words[3] = RX_FIRST | RX_LAST | RX_ERROR | 64;
    assert_eq!(device.receive(&damaged, &damaged, true).unwrap().result, Err(DevError::Io));
    let mut long = DmaDesc::empty();
    long.words[3] = RX_FIRST | RX_LAST | 4000;
    assert_eq!(device.receive(&long, &long, true).unwrap().result, Err(DevError::Io));
    let mut good = DmaDesc::empty();
    good.words[3] = RX_FIRST | RX_LAST | 64;
    assert_eq!(device.receive(&good, &good, false).unwrap().result, Err(DevError::NoMemory));
    assert_eq!(device.rx_index, 3);
    assert_eq!(Jh7110Dwmac::alloc_tx_buffer(0, true), Err(DevError::InvalidParam));
    assert_eq!(Jh7110Dwmac::alloc_tx_buffer(64, false), Err(DevError::NoMemory));
}

#[test]
fn device_needs_memory_and_an_address() {
    assert_eq!(check_region(0x1000_0000), Ok(()));
    assert_eq!(check_region(1 << 40), Err(DevError::Unsupported));
    assert_eq!(check_region(u64::MAX), Err(DevError::InvalidParam));
    assert!(matches!(
        Jh7110Dwmac::try_new(0, &Jh7110Config::default(), [0; 6], 0),
        Err(DevError::BadState)
    ));
    let device = test_device();
    assert_eq!(device.check_dma_width(0), Err(DevError::Unsupported));
    assert_eq!(device.check_dma_width(32), Ok(()));
    assert_eq!(dma_address_width(1 << 14), 40);
    assert_eq!(dma_address_width(2 << 14), 48);
    assert_eq!(dma_address_width(3 << 14), 0);
    assert_eq!(initial_clock_range(3, 0), 3);
    assert_eq!(initial_clock_range(0xf, 0x500), 5);
    assert_eq!(initial_clock_range(0xf, 0xf00), 7);
    assert_eq!(align_up(65, 64), 128);
    assert_eq!(align_up(64, 64), 64);
}

#[test]
fn mac_address_comes_back_from_its_registers() {
    let writes = primary_mac_register_writes([0x02, 1, 2, 3, 4, 5]);
    assert_eq!(read_mac_address(writes[1].1, writes[0].1), [0x02, 1, 2, 3, 4, 5]);
}

#[test]
fn phy_is_looked_for_with_each_clock() {
    let mut device = test_device();
    let ranges: Vec<Option<u8>> = (0..9).map(|tried| device.next_phy_range(6, tried)).collect();
    assert_eq!(ranges[..3], [Some(6), Some(7), Some(0)]);
    assert_eq!(ranges[3..], [Some(1), Some(2), Some(3), Some(4), Some(5), None]);
    assert_eq!(device.mdio_clock_range, 6);
    assert!(!device.detect_phy(Some(0), Some(0)));
    assert!(!device.detect_phy(None, Some(0)));
    assert!(!device.has_extended_status());
    assert_eq!(device.phy_extended_status(Some(1), Some(2), Some(3), Some(4)), None);
    assert_eq!(device.next_phy_range(6, 2), Some(0));
    assert!(device.detect_phy(Some(0x4f51), Some(0xe91b)));
    let status = device.phy_extended_status(Some(1), Some(2), Some(3), Some(4)).unwrap();
    assert_eq!((status.chip_config, status.synce_config), (1, 4));
    assert_eq!(device.phy_extended_status(Some(1), Some(2), None, Some(4)), None);
    assert_eq!(device.phy_id, YT8531_PHY_ID);
    assert!(device.has_extended_status());
    assert_eq!(device.mdio_read_command(2), (2 << 16) | 0xd);
    assert_eq!(device.mdio_write_command(0x1e), (0x1e << 16) | 0x5);
    assert!(Jh7110Dwmac::refresh_link(0).is_none());
    assert!(Jh7110Dwmac::refresh_link(0x8c00).is_some());
}

#[test]
fn interrupts_are_acknowledged() {
    let mut device = test_device();
    device.tx_busy = true;
    let (status, ack) = device.handle_interrupt(0x8041, 5);
    assert_eq!(status, Jh7110InterruptStatus { dma: 0x8041, mac: 5 });
    assert_eq!(ack, Some(0x8041));
    assert!(device.rx_ready);
    assert!(!device.tx_busy);
    assert_eq!(device.handle_interrupt(0, 0).1, None);
    assert_eq!(Jh7110Dwmac::interrupt_op(false).apply(7), 0);
    assert_eq!(Jh7110Dwmac::interrupt_op(true).apply(0), 0xd041);
    assert_eq!(Jh7110Dwmac::reset_op().apply(0), 1);
    assert!(!Jh7110Dwmac::reset_done(1));
    assert!(Jh7110Dwmac::reset_done(2));
    assert_eq!(Jh7110Dwmac::start_ops().len(), 3);
}

fn frame(protocol: u8, flags: u8) -> Vec<u8> {
    let mut f = vec![0; 14];
    let mut ip = vec![0x45, 0, 0, 40, 0, 0, 0, 0, 64, protocol, 0, 0, 10, 0, 2, 2, 10, 0, 2, 15];
    let mut tcp = vec![0; 20];
    tcp[0] = 0x12;
    tcp[1] = 0x34;
    tcp[3] = 80;
    tcp[12] = 0x50;
    tcp[13] = flags;
    f.append(&mut ip);
    f.append(&mut tcp);
    f
}

#[test]
fn first_packets_are_told_from_others() {
    match snoop_tcp_packet(&frame(6, 0x02)) {
        Snoop::First { packet } => {
            assert_eq!(packet.src, [10, 0, 2, 2]);
            assert_eq!(packet.src_port, 0x1234);
            assert_eq!(packet.dst, [10, 0, 2, 15]);
            assert_eq!(packet.dst_port, 80);
        }
        _ => panic!("not the first packet"),
    }
    assert!(matches!(snoop_tcp_packet(&frame(6, 0x12)), Snoop::Other));
    assert!(matches!(snoop_tcp_packet(&frame(17, 0x02)), Snoop::Other));
    assert!(matches!(snoop_tcp_packet(&frame(6, 0x02)[..13]), Snoop::Malformed));
    assert!(matches!(snoop_tcp_packet(&frame(6, 0x02)[..50]), Snoop::Malformed));
    let mut short = frame(6, 0x02);
    short[14 + 20 + 12] = 0x40;
    assert!(matches!(snoop_tcp_packet(&short), Snoop::Malformed));
}

fn at(addr: u32, port: u16) -> ListenEndpoint {
    ListenEndpoint {
        addr: if addr == 0 { None } else { Some(IpAddress::V4(addr)) },
        port,
    }
}

fn tcp(bound: ListenEndpoint, state: TcpState) -> SocketInfo {
    SocketInfo::Tcp {
        bound,
        state,
        can_recv: false,
        may_recv: true,
        can_send: false,
        may_send: true,
    }
}

#[test]
fn ports_are_bound_once() {
    let udp = SocketInfo::Udp { endpoint: at(0, 53), can_recv: false, can_send: false };
    let sockets = vec![(1, tcp(at(5, 80), TcpState::Listen)), (2, udp), (3, SocketInfo::Other)];
    assert_eq!(bind_check(&sockets, IpAddress::V4(5), 80, None), Err(AxError::AddrInUse));
    assert_eq!(bind_check(&sockets, IpAddress::V4(5), 80, Some(1)), Ok(()));
    assert_eq!(bind_check(&sockets, IpAddress::V4(6), 80, None), Ok(()));
    assert_eq!(bind_check(&sockets, IpAddress::V6(0), 80, None), Err(AxError::AddrInUse));
    assert_eq!(bind_check(&sockets, IpAddress::V4(9), 53, None), Err(AxError::AddrInUse));
    assert_eq!(bind_check(&sockets, IpAddress::V4(5), 81, None), Ok(()));
}

#[test]
fn ready_sockets_wake_their_waiters() {
    let q = |n| SocketWaitQueues { read: n, write: n + 1, any: n + 2 };
    let mut map = SocketWaitMap::new();
    map.register_wait_queue(1, q(10));
    map.register_wait_queue(2, q(20));
    map.register_listener_wait_queue(3, q(30));
    map.register_wait_queue(4, q(40));
    map.unregister_wait_queue(4);
    let closing = SocketInfo::Tcp {
        bound: at(0, 1),
        state: TcpState::CloseWait,
        can_recv: false,
        may_recv: false,
        can_send: true,
        may_send: true,
    };
    let udp = SocketInfo::Udp { endpoint: at(0, 2), can_recv: false, can_send: false };
    let sockets = vec![
        (1, closing),
        (2, udp),
        (3, tcp(at(0, 3), TcpState::Established)),
        (4, closing),
    ];
    let ready = map.poll_interfaces(&sockets);
    assert_eq!(ready.len(), 2);
    assert_eq!(ready[0].0, q(10));
    assert!(ready[0].1.readable && ready[0].1.writable);
    assert_eq!(ready[1].0, q(30));
    assert!(ready[1].1.readable && !ready[1].1.writable);
    assert_eq!(ready[0].0.notify(ready[0].1), vec![10, 11, 12]);
    assert_eq!(ready[1].0.notify(ready[1].1), vec![30, 32]);
    let rdhup = IoEvents { readable: false, writable: false, read_closed: true };
    assert_eq!(q(10).queue(rdhup), 10);
    assert_eq!(q(10).register(rdhup), vec![10]);
    let out = IoEvents { readable: false, writable: true, read_closed: false };
    assert_eq!(q(10).queue(out), 11);
    let waiting = vec![(3, tcp(at(0, 3), TcpState::SynReceived))];
    assert!(map.poll_interfaces(&waiting).is_empty());
}

#[test]
fn local_addresses_and_delays() {
    let interfaces = vec![IpAddress::V4(0x0a00_020f)];
    assert!(is_local_ip(&IpAddress::V4(0), &interfaces));
    assert!(is_local_ip(&IpAddress::V4(0x7f00_0001), &interfaces));
    assert!(is_local_ip(&IpAddress::V4(0x0a00_020f), &interfaces));
    assert!(is_local_ip(&IpAddress::V6(1), &interfaces));
    assert!(!is_local_ip(&IpAddress::V4(0x0808_0808), &interfaces));
    assert_eq!(poll_delay(Some(5), Some(3)), Some(3));
    assert_eq!(poll_delay(Some(5), None), Some(5));
    assert_eq!(poll_delay(None, Some(3)), Some(3));
    assert_eq!(poll_delay(None, None), None);
}

fn connection(handle: u64, state: TcpState) -> Connection {
    Connection {
        handle,
        state,
        local: Endpoint { addr: IpAddress::V4(1), port: 80 },
        remote: Endpoint { addr: IpAddress::V4(2), port: 1000 },
    }
}

#[test]
fn connections_are_accepted_once_they_stand() {
    let mut table = ListenTable::new();
    assert!(table.can_listen(80));
    assert_eq!(table.listen(at(0, 80)), Ok(()));
    assert_eq!(table.listen(at(5, 80)), Err(AxError::AddrInUse));
    assert!(!table.can_listen(80));
    table.enqueue(80, 1);
    table.enqueue(80, 2);
    table.enqueue(80, 3);
    let sockets = vec![
        connection(1, TcpState::SynReceived),
        connection(2, TcpState::Established),
        connection(3, TcpState::Closed),
    ];
    assert_eq!(table.can_accept(80, &sockets), Ok(true));
    assert_eq!(table.next_connected(80, &sockets), Ok(2));
    match table.accept(80, &sockets) {
        Ok(Accepted::Connection { connection }) => {
            assert_eq!(connection.handle, 2);
            assert_eq!(connection.remote.port, 1000);
        }
        _ => panic!("no connection"),
    }
    assert_eq!(table.take(80, 2), Ok(false));
    assert_eq!(table.accept(80, &sockets), Ok(Accepted::Reset { handle: 3 }));
    assert_eq!(table.accept(80, &sockets), Err(AxError::WouldBlock));
    assert_eq!(table.can_accept(80, &sockets), Ok(false));
    assert_eq!(table.unlisten(80), vec![1]);
    assert_eq!(table.accept(80, &sockets), Err(AxError::InvalidInput));
    assert_eq!(table.can_accept(80, &sockets), Err(AxError::InvalidInput));
    assert_eq!(table.take(80, 1), Err(AxError::InvalidInput));
}

#[test]
fn packets_for_listeners_are_queued() {
    let mut table = ListenTable::new();
    let dst = Endpoint { addr: IpAddress::V4(5), port: 80 };
    assert_eq!(table.incoming_tcp_packet(dst), Incoming::NotListening);
    assert_eq!(table.listen(at(5, 80)), Ok(()));
    assert_eq!(table.incoming_tcp_packet(dst), Incoming::Listen { endpoint: at(5, 80) });
    let other = Endpoint { addr: IpAddress::V4(6), port: 80 };
    assert_eq!(table.incoming_tcp_packet(other), Incoming::WrongAddress);
    for handle in 0..LISTEN_QUEUE_SIZE {
        table.enqueue(80, handle as u64);
    }
    assert_eq!(table.incoming_tcp_packet(dst), Incoming::Overflow);
}

#[test]
fn echo_messages_are_sent_with_one_identifier() {
    let message = [8, 0, 0, 0, 0x12, 0x34, 0, 1];
    assert_eq!(check_send(&message, IpAddress::V4(5)), Ok(0x1234));
    assert_eq!(check_send(&message, IpAddress::V4(0)), Err(AxError::InvalidInput));
    assert_eq!(check_send(&message, IpAddress::V6(5)), Err(AxError::InvalidInput));
    assert_eq!(check_send(&message[..7], IpAddress::V4(5)), Err(AxError::Unsupported));
    assert_eq!(check_send(&[3; 8], IpAddress::V4(5)), Err(AxError::Unsupported));
    let mut socket = IcmpSocket::new();
    assert_eq!(socket.needs_bind(7), Ok(true));
    assert_eq!(
        socket.bind_identifier(7, Err(BindError::InvalidState)),
        Err(AxError::AlreadyExists)
    );
    assert_eq!(
        socket.bind_identifier(7, Err(BindError::Unaddressable)),
        Err(AxError::InvalidInput)
    );
    assert_eq!(socket.bind_identifier(7, Ok(())), Ok(()));
    assert_eq!(socket.needs_bind(7), Ok(false));
    assert_eq!(socket.needs_bind(8), Err(AxError::InvalidInput));
    socket.set_nonblocking(true);
    assert!(socket.is_nonblocking());
    socket.set_rcv_timeout(3);
    socket.set_snd_timeout(4);
    assert_eq!((socket.rcv_timeout(), socket.snd_timeout()), (3, 4));
}

#[test]
fn attempts_at_messages_end_in_results() {
    assert_eq!(send_result(SendState::Closed, 8), Err(AxError::NotConnected));
    assert_eq!(send_result(SendState::Full, 8), Err(AxError::WouldBlock));
    assert_eq!(send_result(SendState::Sent { result: Ok(()) }, 8), Ok(8));
    assert_eq!(
        send_result(SendState::Sent { result: Err(SendError::BufferFull) }, 8),
        Err(AxError::WouldBlock)
    );
    assert_eq!(
        send_result(SendState::Sent { result: Err(SendError::Unaddressable) }, 8),
        Err(AxError::InvalidInput)
    );
    assert_eq!(message_source(IpAddress::V4(9)), Ok(9));
    assert_eq!(message_source(IpAddress::V6(9)), Err(AxError::Unsupported));
    assert_eq!(recv_result(false, true), Err(AxError::NotConnected));
    assert_eq!(recv_result(true, false), Err(AxError::WouldBlock));
    assert_eq!(recv_result(true, true), Ok(()));
    assert_eq!(recv_error(RecvError::Exhausted), AxError::WouldBlock);
    assert_eq!(recv_error(RecvError::Truncated), AxError::BadState);
    assert_eq!(octets(0x7f00_0001), LOCALHOST);
    let mut out = [0; 20];
    assert_eq!(deliver(&mut out, &[8; 8], 0x7f00_0002, 0x0a00_020f), 20);
    assert_eq!(&out[16..], &LOCALHOST);
    assert_eq!(deliver(&mut out, &[8; 8], 0x0808_0808, 0x0a00_020f), 20);
    assert_eq!(&out[16..], &[10, 0, 2, 15]);
    assert!(IcmpSocket::poll(true, false, true).writable);
    assert!(!IcmpSocket::poll(false, false, true).writable);
    assert_eq!(IcmpSocket::recv_queue(true), 20);
    assert_eq!(IcmpSocket::recv_queue(false), 0);
}

#[test]
fn waiting_for_a_socket_goes_by_rounds() {
    assert!(matches!(io_first(Ok(5), false), IoStep::Done(Ok(5))));
    assert!(matches!(io_first::<u8>(Err(AxError::WouldBlock), false), IoStep::Register));
    assert!(matches!(
        io_first::<u8>(Err(AxError::WouldBlock), true),
        IoStep::Done(Err(AxError::WouldBlock))
    ));
    assert!(matches!(io_second::<u8>(Err(AxError::WouldBlock), true), IoStep::StartAnew));
    assert!(matches!(io_second::<u8>(Err(AxError::WouldBlock), false), IoStep::Wait));
    assert!(matches!(io_second::<u8>(Err(AxError::Io), false), IoStep::Done(Err(AxError::Io))));
    assert_eq!(before_attempt(true), Err(AxError::Interrupted));
    assert_eq!(before_attempt(false), Ok(()));
    let now = TimeValue { secs: 1, subsec: 0 };
    assert_eq!(deadline_from_ticks(now, 5), TimeValue { secs: 1, subsec: 5 });
    let end = TimeValue { secs: u64::MAX, subsec: 999_999_999 };
    assert_eq!(deadline_from_ticks(end, 5), end);
    assert_eq!(socket_deadline(now, 0, 5), None);
    assert_eq!(socket_deadline(now, 1, 5), Some(TimeValue { secs: 1, subsec: 5 }));
}
