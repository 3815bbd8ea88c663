use kosmos::drivers::ata::{scan_step, ScanStep, drive_present, is_busy, is_fat_boot_sector, lba_bytes, ready_state, sector_word, store_word, AtaBus, AtaDrive, AtaUnit, ReadyState};

#[test]
fn register_layout() {
    let d = AtaDrive::new_with(AtaBus::Primary, AtaUnit::Master);
    assert_eq!(d.data, 0x1F0);
    assert_eq!(d.status, 0x1F7);
    assert_eq!(d.command, 0x1F7);
    assert_eq!(d.drive, 0x1F6);
    assert_eq!(d.sector_count, 0x1F2);
    assert_eq!(d.lba_lo, 0x1F3);
    assert_eq!(d.lba_mid, 0x1F4);
    assert_eq!(d.lba_hi, 0x1F5);
    assert_eq!(d.alt_status, 0x3F6);
    assert_eq!(d.drive_select, 0xE0);
    let d = AtaDrive::new_with(AtaBus::Secondary, AtaUnit::Slave);
    assert_eq!(d.data, 0x170);
    assert_eq!(d.status, 0x177);
    assert_eq!(d.alt_status, 0x376);
    assert_eq!(d.drive_select, 0xF0);
}

#[test]
fn scan_order() {
    let l = AtaDrive::scan_locations();
    assert_eq!(l.len(), 4);
    assert!(matches!(l[0], (AtaBus::Primary, AtaUnit::Master)));
    assert!(matches!(l[3], (AtaBus::Secondary, AtaUnit::Slave)));
}

#[test]
fn addressing_a_sector() {
    let d = AtaDrive::new_with(AtaBus::Primary, AtaUnit::Slave);
    assert_eq!(d.head_select(0x0ABC_DEF1), 0xF0 | 0x0A);
    assert_eq!(d.head_select(0xF123_4567), 0xF0 | 0x01);
    assert_eq!(lba_bytes(0x0ABC_DEF1), (0xF1, 0xDE, 0xBC));
}

#[test]
fn status_register() {
    assert!(!drive_present(0xFF));
    assert!(!drive_present(0));
    assert!(drive_present(0x50));
    assert!(is_busy(0x80));
    assert!(!is_busy(0x58));
    assert_eq!(ready_state(0x88), ReadyState::Busy);
    assert_eq!(ready_state(0x09), ReadyState::Failed);
    assert_eq!(ready_state(0x58), ReadyState::Ready);
    assert_eq!(ready_state(0x50), ReadyState::Pending);
}

#[test]
fn fat_boot_sector() {
    let mut b = [0u8; 512];
    b[510] = 0x55;
    b[511] = 0xAA;
    b[11] = 0x00;
    b[12] = 0x02;
    b[66] = 0x29;
    assert!(is_fat_boot_sector(&b));
    b[66] = 0x28;
    assert!(is_fat_boot_sector(&b));
    b[66] = 0x27;
    assert!(!is_fat_boot_sector(&b));
    b[66] = 0x29;
    b[12] = 0x04;
    assert!(!is_fat_boot_sector(&b));
    b[12] = 0x02;
    b[511] = 0;
    assert!(!is_fat_boot_sector(&b));
}

#[test]
fn words_and_bytes() {
    let mut b = [0u8; 512];
    store_word(&mut b, 3, 0xBEEF);
    assert_eq!(b[6], 0xEF);
    assert_eq!(b[7], 0xBE);
    assert_eq!(sector_word(&b, 3), 0xBEEF);
    assert_eq!(sector_word(&b, 0), 0);
}

#[test]
fn address_registers_hold_the_sector_number() {
    let d = AtaDrive::new_with(AtaBus::Primary, AtaUnit::Master);
    for lba in [0u32, 1, 255, 256, 0x00FF_FFFF, 0x0ABC_DEF1, 0x0FFF_FFFF] {
        let (lo, mid, hi) = lba_bytes(lba);
        let head = d.head_select(lba);
        let back = lo as u32 | (mid as u32) << 8 | (hi as u32) << 16 | ((head & 0x0F) as u32) << 24;
        assert_eq!(back, lba);
        assert_eq!(head & 0xF0, 0xE0);
    }
}

#[test]
fn scan_stops_at_the_first_fat_volume() {
    assert_eq!(scan_step(0, false), ScanStep::Probe(AtaBus::Primary, AtaUnit::Master));
    assert_eq!(scan_step(1, false), ScanStep::Probe(AtaBus::Primary, AtaUnit::Slave));
    assert_eq!(scan_step(2, true), ScanStep::Found(AtaBus::Primary, AtaUnit::Slave));
    assert_eq!(scan_step(3, false), ScanStep::Probe(AtaBus::Secondary, AtaUnit::Slave));
    assert_eq!(scan_step(4, true), ScanStep::Found(AtaBus::Secondary, AtaUnit::Slave));
    assert_eq!(scan_step(4, false), ScanStep::NoVolume);
    assert_eq!(scan_step(0, true), ScanStep::Probe(AtaBus::Primary, AtaUnit::Master));
}
