use pulseos::block::ahci::{current_ms, Ls2k1000Ahci};
use pulseos::block::buffers::{
    claim_owned_read_buffer, claim_owned_write_buffer, register_owned_read_buffer,
    register_owned_write_buffer, OwnedBuffers, OwnedReadBufferLease, OwnedWriteBufferLease,
};
use pulseos::block::mmc::{
    card_step, clock_divider, fifo_threshold, jh7110_fifoth, map_error, nth_block, try_new,
    validate_request, CardError, CardPoll, CardSetup, CardStep, JH7110_PIO_TRANSFER_CLOCK_HZ,
};
use pulseos::error::DevError;
use starfive_jh7110_dwmmc::JH7110_STABLE_REFERENCE_CLOCK_HZ;

#[test]
fn jh7110_fifo_threshold_matches_32_word_slot() {
    assert_eq!(jh7110_fifoth(), 0x200f_0010);
}

#[test]
fn conservative_pio_clock_uses_divider_four() {
    assert_eq!(
        clock_divider(JH7110_STABLE_REFERENCE_CLOCK_HZ, JH7110_PIO_TRANSFER_CLOCK_HZ),
        4
    );
}

#[test]
fn request_must_fit_card_capacity() {
    assert!(validate_request(7, 512, 8).is_ok());
    assert!(validate_request(7, 1024, 8).is_err());
    assert!(validate_request(0, 0, 8).is_err());
}

#[test]
fn registered_subrange_keeps_owner_alive_after_guard_drop() {
    assert_eq!(
        core::mem::size_of::<OwnedReadBufferLease>(),
        core::mem::size_of::<usize>()
    );
    let mut buffers = OwnedBuffers::new();
    let registration = register_owned_read_buffer(&mut buffers, 0x1000, 128, 7)
        .expect("registration failed");
    let lease = claim_owned_read_buffer(&mut buffers, 0x1020, 64)
        .expect("registered subrange not claimed");
    assert!(claim_owned_read_buffer(&mut buffers, 0x1020, 64).is_none());
    assert_eq!(lease.len(), 64);
    assert!(!lease.is_empty());
    assert_eq!(lease.start(), 0x1020);

    assert_eq!(buffers.unregister_read(registration), None);
    assert_eq!(buffers.release_read(lease), Some(7));
    assert!(claim_owned_read_buffer(&mut buffers, 0x1020, 64).is_none());
}

#[test]
fn registered_write_subrange_keeps_owner_alive_after_guard_drop() {
    assert_eq!(
        core::mem::size_of::<OwnedWriteBufferLease>(),
        core::mem::size_of::<usize>()
    );
    let mut buffers = OwnedBuffers::new();
    let registration = register_owned_write_buffer(&mut buffers, 0x1000, 128, 7)
        .expect("registration failed");
    let lease = claim_owned_write_buffer(&mut buffers, 0x1020, 64)
        .expect("registered subrange not claimed");
    assert!(claim_owned_write_buffer(&mut buffers, 0x1020, 64).is_none());
    assert_eq!(lease.len(), 64);
    assert!(!lease.is_empty());
    assert_eq!(lease.start(), 0x1020);

    assert_eq!(buffers.unregister_write(registration), None);
    assert_eq!(buffers.release_write(lease), Some(7));
    assert!(claim_owned_write_buffer(&mut buffers, 0x1020, 64).is_none());
}

#[test]
fn overlapping_registration_is_rejected() {
    let mut buffers = OwnedBuffers::new();
    let registration = register_owned_read_buffer(&mut buffers, 0x1000, 64, 1)
        .expect("registration failed");
    assert!(matches!(
        register_owned_read_buffer(&mut buffers, 0x1010, 16, 1),
        Err(DevError::ResourceBusy)
    ));
    assert_eq!(buffers.unregister_read(registration), Some(1));
}

#[test]
fn read_and_write_registrations_cannot_overlap() {
    let mut buffers = OwnedBuffers::new();
    let registration = register_owned_read_buffer(&mut buffers, 0x1000, 64, 1)
        .expect("registration failed");
    assert!(matches!(
        register_owned_write_buffer(&mut buffers, 0x1000, 64, 1),
        Err(DevError::ResourceBusy)
    ));
    assert_eq!(buffers.unregister_read(registration), Some(1));
}

#[test]
fn ordered_registry_checks_successors_and_allows_adjacent_ranges() {
    let mut buffers = OwnedBuffers::new();
    let upper = register_owned_read_buffer(&mut buffers, 0x1000 + 128, 64, 1)
        .expect("registration failed");
    assert!(matches!(
        register_owned_read_buffer(&mut buffers, 0x1000 + 96, 64, 1),
        Err(DevError::ResourceBusy)
    ));

    let lower = register_owned_read_buffer(&mut buffers, 0x1000, 128, 2)
        .expect("adjacent registration failed");
    assert_eq!(buffers.unregister_read(lower), Some(2));
    assert_eq!(buffers.unregister_read(upper), Some(1));
}

#[test]
fn unregistered_and_empty_ranges_are_not_claimed() {
    let mut buffers = OwnedBuffers::new();
    assert!(claim_owned_read_buffer(&mut buffers, 0x1000, 0).is_none());
    assert!(claim_owned_read_buffer(&mut buffers, 0x1000, 32).is_none());
    assert!(matches!(
        register_owned_read_buffer(&mut buffers, 0x1000, 0, 1),
        Err(DevError::InvalidParam)
    ));
}

#[test]
fn buffers_are_claimed_for_their_direction_only() {
    let mut buffers = OwnedBuffers::new();
    assert!(matches!(
        register_owned_write_buffer(&mut buffers, usize::MAX, 2, 1),
        Err(DevError::InvalidParam)
    ));
    let registration = register_owned_write_buffer(&mut buffers, 0x1000, 64, 1).unwrap();
    assert!(claim_owned_read_buffer(&mut buffers, 0x1000, 64).is_none());
    assert!(claim_owned_write_buffer(&mut buffers, 0x1001, 64).is_none());
    let lease = claim_owned_write_buffer(&mut buffers, 0x1000, 64).unwrap();
    assert_eq!(buffers.release_write(lease), None);
    assert!(claim_owned_write_buffer(&mut buffers, 0x1030, 16).is_some());
    assert_eq!(buffers.unregister_write(registration), None);
}

#[test]
fn card_requests_end_in_time() {
    assert_eq!(fifo_threshold(64), 0x201f_0020);
    assert_eq!(
        card_step(true, CardPoll::Complete, false),
        CardStep::Error { error: CardError::Timeout }
    );
    assert_eq!(card_step(false, CardPoll::Complete, false), CardStep::Done);
    assert_eq!(card_step(false, CardPoll::Pending, true), CardStep::PollAgain { pause: true });
    assert_eq!(
        card_step(false, CardPoll::Unexpected, false),
        CardStep::Error { error: CardError::UnsupportedCommand }
    );
    assert_eq!(
        card_step(false, CardPoll::Failed { error: CardError::Busy }, false),
        CardStep::Error { error: CardError::Busy }
    );
}

#[test]
fn card_errors_map_to_device_errors() {
    assert_eq!(map_error(CardError::Busy), DevError::ResourceBusy);
    assert_eq!(map_error(CardError::InvalidArgument), DevError::InvalidParam);
    assert_eq!(map_error(CardError::Misaligned), DevError::InvalidParam);
    assert_eq!(map_error(CardError::UnsupportedCommand), DevError::Unsupported);
    assert_eq!(map_error(CardError::Timeout), DevError::Io);
    assert_eq!(map_error(CardError::Other), DevError::Io);
}

fn setup(base: usize, init: Result<Option<u64>, CardError>) -> CardSetup {
    CardSetup { base, reset: Ok(()), init, clock: Ok(()) }
}

#[test]
fn card_is_set_up_with_its_capacity() {
    assert_eq!(try_new(setup(0x1000, Ok(Some(99)))), Ok(99));
    assert_eq!(try_new(setup(0, Ok(Some(99)))), Err(DevError::InvalidParam));
    assert_eq!(try_new(setup(0x1000, Ok(None))), Err(DevError::Unsupported));
    assert_eq!(try_new(setup(0x1000, Ok(Some(0)))), Err(DevError::Io));
    assert_eq!(try_new(setup(0x1000, Err(CardError::Busy))), Err(DevError::ResourceBusy));
    let clock = CardSetup { clock: Err(CardError::Misaligned), ..setup(0x1000, Ok(Some(1))) };
    assert_eq!(try_new(clock), Err(DevError::InvalidParam));
    let reset = CardSetup { reset: Err(CardError::Other), ..setup(0x1000, Ok(Some(1))) };
    assert_eq!(try_new(reset), Err(DevError::Io));
    assert_eq!(nth_block(u32::MAX, 0), Ok(u32::MAX));
    assert_eq!(nth_block(u32::MAX, 1), Err(DevError::InvalidParam));
    assert_eq!(validate_request(1 << 32, 512, u64::MAX), Err(DevError::InvalidParam));
}

#[test]
fn disk_requests_stay_on_the_disk() {
    assert_eq!(Ls2k1000Ahci::try_new(0, Some((8, 512))), Err(DevError::InvalidParam));
    assert_eq!(Ls2k1000Ahci::try_new(0x1000, None), Err(DevError::Io));
    assert_eq!(Ls2k1000Ahci::try_new(0x1000, Some((0, 512))), Err(DevError::Io));
    let disk = Ls2k1000Ahci::try_new(0x1000, Some((8, 512))).unwrap();
    assert_eq!(disk.validate_request(7, 512), Ok(()));
    assert_eq!(disk.validate_request(7, 1024), Err(DevError::Io));
    assert_eq!(disk.validate_request(7, 100), Err(DevError::InvalidParam));
    assert_eq!(disk.validate_request(u64::MAX, 512), Err(DevError::InvalidParam));
    assert_eq!(Ls2k1000Ahci::completed(true), Ok(()));
    assert_eq!(Ls2k1000Ahci::completed(false), Err(DevError::Io));
    assert_eq!(current_ms(2_999_999), 2);
}
