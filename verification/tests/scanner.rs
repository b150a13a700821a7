use dvcdbg::compat::err_compat::HalI2cErrorKind;
use dvcdbg::compat::I2cCompat;
use dvcdbg::compat::i2c_compat::LoggedBus;
use dvcdbg::error::{BufferError, ErrorKind, I2cError};
use dvcdbg::scanner::{
    missing_commands, scan_i2c, scan_init_sequence, I2C_MAX_DEVICES, I2C_SCAN_ADDR_END,
    I2C_SCAN_ADDR_START,
};

/// A bus on which the devices at `present` acknowledge every write of fewer
/// than two bytes and every write whose command byte (the second byte) is
/// among `accepted` (any write when `accepted` is empty); other writes to them
/// are not acknowledged, and writes to absent devices fail with `other_error`.
struct MockBus {
    present: Vec<u8>,
    accepted: Vec<u8>,
    other_error: HalI2cErrorKind,
    writes: Vec<(u8, Vec<u8>)>,
}

impl MockBus {
    fn new(present: &[u8]) -> Self {
        MockBus {
            present: present.to_vec(),
            accepted: Vec::new(),
            other_error: HalI2cErrorKind::NoAcknowledge,
            writes: Vec::new(),
        }
    }
}

impl I2cCompat for MockBus {
    type Error = HalI2cErrorKind;

    fn write(&mut self, addr: u8, bytes: &[u8]) -> Result<(), Self::Error> {
        self.writes.push((addr, bytes.to_vec()));
        let cmd_ok =
            self.accepted.is_empty() || bytes.len() < 2 || self.accepted.contains(&bytes[1]);
        if self.present.contains(&addr) && cmd_ok {
            Ok(())
        } else if self.present.contains(&addr) {
            Err(HalI2cErrorKind::NoAcknowledge)
        } else {
            Err(self.other_error)
        }
    }

    fn read(&mut self, _addr: u8, buffer: &mut [u8]) -> Result<(), Self::Error> {
        for b in buffer.iter_mut() {
            *b = 0;
        }
        Ok(())
    }

    fn write_read(&mut self, _addr: u8, _bytes: &[u8], buffer: &mut [u8]) -> Result<(), Self::Error> {
        for b in buffer.iter_mut() {
            *b = 0;
        }
        Ok(())
    }
}

#[test]
fn scan_constants() {
    assert_eq!(I2C_SCAN_ADDR_START, 0x03);
    assert_eq!(I2C_SCAN_ADDR_END, 0x77);
    assert_eq!(I2C_MAX_DEVICES, 128);
}

#[test]
fn scan_finds_devices_in_increasing_order() {
    let mut bus = LoggedBus::new(MockBus::new(&[0x3C, 0x10, 0x77]));
    let found = scan_i2c(&mut bus, &mut String::new(), 0x00).unwrap();
    assert_eq!(found.as_slice(), &[0x10, 0x3C, 0x77]);
    // one write per address 0x03..=0x77, each carrying the control byte
    assert_eq!(bus.bus.writes.len(), 117);
    assert_eq!(bus.bus.writes[0], (0x03, vec![0x00]));
    assert_eq!(bus.bus.writes[116], (0x77, vec![0x00]));
}

#[test]
fn scan_ignores_addresses_outside_range() {
    let mut bus = LoggedBus::new(MockBus::new(&[0x01, 0x02, 0x78, 0x7F, 0x50]));
    let found = scan_i2c(&mut bus, &mut String::new(), 0x80).unwrap();
    assert_eq!(found.as_slice(), &[0x50]);
}

#[test]
fn scan_without_devices_reports_nack() {
    let mut bus = LoggedBus::new(MockBus::new(&[]));
    assert_eq!(scan_i2c(&mut bus, &mut String::new(), 0x00), Err(ErrorKind::I2c(I2cError::Nack)));
}

#[test]
fn scan_without_devices_reports_last_hard_error() {
    let mut bus = LoggedBus::new(MockBus::new(&[]));
    bus.bus.other_error = HalI2cErrorKind::Bus;
    assert_eq!(scan_i2c(&mut bus, &mut String::new(), 0x00), Err(ErrorKind::I2c(I2cError::Bus)));
    let mut bus = LoggedBus::new(MockBus::new(&[]));
    bus.bus.other_error = HalI2cErrorKind::Overrun;
    assert_eq!(scan_i2c(&mut bus, &mut String::new(), 0x00), Err(ErrorKind::Unknown));
    let mut bus = LoggedBus::new(MockBus::new(&[]));
    bus.bus.other_error = HalI2cErrorKind::ArbitrationLoss;
    assert_eq!(
        scan_i2c(&mut bus, &mut String::new(), 0x00),
        Err(ErrorKind::I2c(I2cError::ArbitrationLost))
    );
}

#[test]
fn scan_success_wins_over_errors() {
    let mut bus = LoggedBus::new(MockBus::new(&[0x20]));
    bus.bus.other_error = HalI2cErrorKind::Bus;
    assert_eq!(scan_i2c(&mut bus, &mut String::new(), 0x00).unwrap().as_slice(), &[0x20]);
}

#[test]
fn init_sequence_reports_acknowledged_commands_once() {
    let mut bus = LoggedBus::new(MockBus::new(&[0x3C, 0x3D]));
    bus.bus.accepted = vec![0xAE, 0xAF];
    let init = [0xAE, 0xD5, 0xAF, 0xAE];
    let detected = scan_init_sequence(&mut bus, &mut String::new(), 0x00, &init).unwrap();
    assert_eq!(detected, vec![0xAE, 0xAF]);
    // after the 117 scan writes, each found address gets every command after the control byte
    let probes = &bus.bus.writes[117..];
    assert_eq!(probes.len(), 2 * init.len());
    assert_eq!(probes[0], (0x3C, vec![0x00, 0xAE]));
    assert_eq!(probes[1], (0x3C, vec![0x00, 0xD5]));
    assert_eq!(probes[4], (0x3D, vec![0x00, 0xAE]));
}

#[test]
fn init_sequence_fails_when_scan_fails() {
    let mut bus = LoggedBus::new(MockBus::new(&[]));
    bus.bus.other_error = HalI2cErrorKind::Bus;
    assert_eq!(
        scan_init_sequence(&mut bus, &mut String::new(), 0x00, &[0xAE]),
        Err(ErrorKind::I2c(I2cError::Bus))
    );
    // only the scan's writes of the control byte, one per address
    assert_eq!(bus.bus.writes.len(), 117);
    assert!(bus.bus.writes.iter().all(|(_, bytes)| bytes == &vec![0x00]));
}

#[test]
fn init_sequence_without_response_reports_nack() {
    let mut bus = LoggedBus::new(MockBus::new(&[0x3C]));
    bus.bus.accepted = vec![0x01];
    assert_eq!(
        scan_init_sequence(&mut bus, &mut String::new(), 0x00, &[0xAE, 0xAF]),
        Err(ErrorKind::I2c(I2cError::Nack))
    );
}

#[test]
fn missing_commands_keeps_sequence_order() {
    assert_eq!(missing_commands(&[0xAE, 0xD5, 0xAF, 0x8D], &[0xAF, 0xAE]), vec![0xD5, 0x8D]);
    assert_eq!(missing_commands(&[1, 2, 2, 3], &[]), vec![1, 2, 2, 3]);
    assert_eq!(missing_commands(&[], &[1]), Vec::<u8>::new());
}

#[test]
fn buffer_overflow_kind_is_distinct() {
    assert_ne!(ErrorKind::Buffer(BufferError::Overflow), ErrorKind::I2c(I2cError::Nack));
}

#[test]
fn init_sequence_reports_each_probe() {
    let mut bus = LoggedBus::new(MockBus::new(&[0x3C]));
    bus.bus.accepted = vec![0xAE];
    let mut report = String::new();
    let detected = scan_init_sequence(&mut bus, &mut report, 0x00, &[0xAE, 0xAF]).unwrap();
    assert_eq!(detected, vec![0xAE]);
    assert!(report.starts_with("Start I2C scan with INIT_SEQ...\n"));
    assert!(report.contains("Initializing scan with ctrl byte 00\n"));
    assert!(report.contains("Found device @ 3C\n"));
    assert!(report.contains("Testing init SEQ on 3C...\n"));
    assert!(report.contains("  Sending command AE to 3C...\n"));
    assert!(report.contains("  Command AE responded.\n"));
    assert!(report.contains("  Command AF no response (NACK).\n"));
    assert!(report.ends_with(
        "Expected sequence:\n AE\n AF\n\nCommands with response:\n AE\n\nCommands with no response:\n AF\n\n"
    ));
}

#[test]
fn init_sequence_summarizes_even_without_response() {
    let mut bus = LoggedBus::new(MockBus::new(&[0x3C]));
    bus.bus.accepted = vec![0x01];
    let mut report = String::new();
    assert_eq!(
        scan_init_sequence(&mut bus, &mut report, 0x00, &[0xAE]),
        Err(ErrorKind::I2c(I2cError::Nack))
    );
    assert!(report.ends_with(
        "Expected sequence:\n AE\n\nCommands with response:\n\nCommands with no response:\n AE\n\n"
    ));
}

#[test]
fn scan_reports_its_start_and_first_device() {
    let mut bus = LoggedBus::new(MockBus::new(&[0x3C, 0x3D]));
    let mut report = String::new();
    scan_i2c(&mut bus, &mut report, 0x00).unwrap();
    assert_eq!(report, "Scanning I2C bus with a 00 ...\nFound device @ 3C\n");
    let mut bus = LoggedBus::new(MockBus::new(&[]));
    let mut report = String::new();
    assert!(scan_i2c(&mut bus, &mut report, 0x00).is_err());
    assert_eq!(report, "Scanning I2C bus with a 00 ...\n");
}
