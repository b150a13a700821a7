use dvcdbg::cmd_debug::Command;
use dvcdbg::compat::err_compat::{compat_kind_of, HalI2cErrorKind};
use dvcdbg::compat::HalErrorExt;
use dvcdbg::error::{
    AdcError, BitFlagsError, BufferError, ErrorKind, ExecutorError, ExplorerError, GpioError,
    HardwareError, I2cError, SpiError, UartError,
};
use dvcdbg::logger::{LogLevel, Logger, NullLogger};

#[test]
fn error_texts() {
    assert_eq!(ErrorKind::I2c(I2cError::Nack).to_text(), "I2c: Nack");
    assert_eq!(ErrorKind::Uart(UartError::Timeout).to_text(), "Uart: Timeout");
    assert_eq!(ErrorKind::Spi(SpiError::ModeFault).to_text(), "Spi: ModeFault");
    assert_eq!(ErrorKind::Gpio(GpioError::InvalidState).to_text(), "Gpio: InvalidState");
    assert_eq!(ErrorKind::Adc(AdcError::OutOfRange).to_text(), "Adc: OutOfRange");
    assert_eq!(ErrorKind::Hardware(HardwareError::ShortCircuit).to_text(), "Hardware: ShortCircuit");
    assert_eq!(ErrorKind::Buffer(BufferError::Underflow).to_text(), "Buffer: Underflow");
    assert_eq!(ErrorKind::InvalidConfig.to_text(), "InvalidConfig");
    assert_eq!(ErrorKind::Unknown.to_text(), "Unknown");
    assert_eq!(ErrorKind::Other.to_text(), "Other");
    assert_eq!(
        BitFlagsError::IndexOutOfBounds { idx: 130, max: 127 }.to_text(),
        "Index out of bounds: index 130 is out of range 0..127"
    );
    assert_eq!(ExplorerError::DependencyCycle.to_text(), "DependencyCycle");
    assert_eq!(
        ExplorerError::ExecutionFailed(ErrorKind::I2c(I2cError::Bus)).to_text(),
        "ExecutionFailed: I2c: Bus"
    );
    assert_eq!(
        ExplorerError::BitFlags(BitFlagsError::IndexOutOfBounds { idx: 200, max: 127 }).to_text(),
        "BitFlagsError: Index out of bounds: index 200 is out of range 0..127"
    );
    assert_eq!(ExecutorError::ExecFailed.to_text(), "ExecFailed");
    assert_eq!(
        ExecutorError::Explorer(ExplorerError::TooManyCommands).to_text(),
        "ExplorerError: TooManyCommands"
    );
    assert_eq!(
        ExecutorError::I2cError(ErrorKind::I2c(I2cError::ArbitrationLost)).to_text(),
        "I2cError: I2c: ArbitrationLost"
    );
}

#[test]
fn executor_errors_become_explorer_errors() {
    assert_eq!(
        ExplorerError::from(ExecutorError::I2cError(ErrorKind::I2c(I2cError::Nack))),
        ExplorerError::ExecutionFailed(ErrorKind::I2c(I2cError::Nack))
    );
    assert_eq!(
        ExplorerError::from(ExecutorError::ExecFailed),
        ExplorerError::ExecutionFailed(ErrorKind::Unknown)
    );
    assert_eq!(ExplorerError::from(ExecutorError::BufferOverflow), ExplorerError::BufferOverflow);
    let bf = BitFlagsError::IndexOutOfBounds { idx: 128, max: 127 };
    assert_eq!(ExplorerError::from(ExecutorError::BitFlags(bf)), ExplorerError::BitFlags(bf));
    assert_eq!(
        ExplorerError::from(ExecutorError::Explorer(ExplorerError::DependencyCycle)),
        ExplorerError::DependencyCycle
    );
    assert_eq!(
        ExplorerError::from(ErrorKind::Other),
        ExplorerError::DeviceNotFound(ErrorKind::Other)
    );
}

#[test]
fn hal_error_kinds_map_to_unified_kinds() {
    assert_eq!(compat_kind_of(HalI2cErrorKind::Bus), ErrorKind::I2c(I2cError::Bus));
    assert_eq!(compat_kind_of(HalI2cErrorKind::NoAcknowledge), ErrorKind::I2c(I2cError::Nack));
    assert_eq!(
        compat_kind_of(HalI2cErrorKind::ArbitrationLoss),
        ErrorKind::I2c(I2cError::ArbitrationLost)
    );
    assert_eq!(compat_kind_of(HalI2cErrorKind::Overrun), ErrorKind::Unknown);
    assert_eq!(HalI2cErrorKind::Other.to_compat(Some(0x3C)), ErrorKind::Unknown);
}

struct Capture {
    lines: Vec<String>,
}

impl Logger<32> for Capture {
    fn log_info(&mut self, msg: &str) {
        self.lines.push(format!("I {msg}"));
    }
    fn log_warning(&mut self, msg: &str) {
        self.lines.push(format!("W {msg}"));
    }
    fn log_error(&mut self, msg: &str) {
        self.lines.push(format!("E {msg}"));
    }
}

#[test]
fn command_decoding() {
    assert_eq!(Command::from_byte(0xAF), Command::DisplayOn);
    assert_eq!(Command::from_byte(0xAE), Command::DisplayOff);
    assert_eq!(Command::from_byte(0x40), Command::SetStartLine(0));
    assert_eq!(Command::from_byte(0x7F), Command::SetStartLine(0x3F));
    assert_eq!(Command::from_byte(0x80), Command::Unknown(0x80));
    assert_eq!(Command::from_byte(0x3F), Command::Unknown(0x3F));
}

#[test]
fn command_log_messages() {
    let mut log = Capture { lines: Vec::new() };
    Command::from_byte(0xAF).log::<32, _>(&mut log);
    Command::from_byte(0xAE).log::<32, _>(&mut log);
    Command::from_byte(0x45).log::<32, _>(&mut log);
    Command::from_byte(0x0B).log::<32, _>(&mut log);
    assert_eq!(
        log.lines,
        vec![
            "I Display ON".to_string(),
            "I Display OFF".to_string(),
            "I Set Start Line: 5\n".to_string(),
            "I Unknown Command: 0x0B\n".to_string(),
        ]
    );
    let mut null = NullLogger;
    Command::DisplayOn.log::<8, _>(&mut null);
    assert_ne!(LogLevel::Quiet, LogLevel::Verbose);
}
