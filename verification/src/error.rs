//! Error categories shared by the scanner, the explorer and the HAL layer.

use vstd::prelude::*;
use vstd::string::*;
use crate::compat::text::{decimal_text, push_decimal};

verus! {

/// Defines the category of an error.
#[derive(Clone, Copy, Debug, PartialEq, Eq, Structural)]
pub enum ErrorKind {
    /// Errors related to the UART peripheral.
    Uart(UartError),
    /// Errors related to the I2C peripheral.
    I2c(I2cError),
    /// Errors related to the SPI peripheral.
    Spi(SpiError),
    /// Errors related to the GPIO peripheral.
    Gpio(GpioError),
    /// Errors related to the ADC peripheral.
    Adc(AdcError),
    /// Hardware-level faults such as power, short circuits, etc.
    Hardware(HardwareError),
    /// Errors related to buffers or data structures.
    Buffer(BufferError),
    /// An invalid configuration or an unsupported setup.
    InvalidConfig,
    /// An unknown error that cannot be categorized.
    Unknown,
    /// Other external or custom errors.
    Other,
}

#[derive(Clone, Copy, Debug, PartialEq, Eq, Structural)]
pub enum UartError {
    /// A framing error occurred.
    Framing,
    /// A parity error occurred.
    Parity,
    /// An overrun error occurred.
    Overrun,
    /// An underrun error occurred.
    Underrun,
    /// A timeout occurred during an operation.
    Timeout,
}

#[derive(Clone, Copy, Debug, PartialEq, Eq, Structural)]
pub enum I2cError {
    /// A NACK (No Acknowledgment) was received from a device.
    Nack,
    /// Arbitration was lost during an I2C transaction.
    ArbitrationLost,
    /// A general bus error occurred.
    Bus,
}

#[derive(Clone, Copy, Debug, PartialEq, Eq, Structural)]
pub enum SpiError {
    /// A mode fault occurred on the SPI bus.
    ModeFault,
}

#[derive(Clone, Copy, Debug, PartialEq, Eq, Structural)]
pub enum GpioError {
    /// An invalid state was detected for a GPIO pin.
    InvalidState,
}

#[derive(Clone, Copy, Debug, PartialEq, Eq, Structural)]
pub enum AdcError {
    /// The ADC reading is out of its valid range.
    OutOfRange,
}

#[derive(Clone, Copy, Debug, PartialEq, Eq, Structural)]
pub enum HardwareError {
    /// A power fault was detected.
    Power,
    /// A peripheral-related fault occurred.
    Peripheral,
    /// A short circuit was detected.
    ShortCircuit,
    /// An open circuit was detected.
    OpenCircuit,
}

#[derive(Clone, Copy, Debug, PartialEq, Eq, Structural)]
pub enum BufferError {
    /// A buffer overflow occurred.
    Overflow,
    /// A buffer underflow occurred.
    Underflow,
}

/// Errors that can occur within the BitFlags utility.
#[derive(Clone, Copy, Debug, PartialEq, Eq, Structural)]
pub enum BitFlagsError {
    /// An index is out of bounds for the bit flags.
    IndexOutOfBounds { idx: usize, max: usize },
}

/// Errors that can occur during the exploration of command sequences.
#[derive(Clone, Copy, Debug, PartialEq, Eq, Structural)]
pub enum ExplorerError {
    /// The provided sequence contained more commands than supported by the capacity.
    TooManyCommands,
    /// The command dependency graph contains a cycle.
    DependencyCycle,
    /// No valid I2C addresses were found for any command sequence.
    NoValidAddressesFound,
    /// An I2C command execution failed.
    ExecutionFailed(ErrorKind),
    /// An internal buffer overflowed during the exploration process.
    BufferOverflow,
    /// A dependency index is out of bounds.
    InvalidDependencyIndex,
    /// An I2C device was not found during a scan operation.
    DeviceNotFound(ErrorKind),
    /// An error occurred in the BitFlags utility.
    BitFlags(BitFlagsError),
}

/// Errors that can occur during command execution.
#[derive(Clone, Copy, Debug, PartialEq, Eq, Structural)]
pub enum ExecutorError {
    /// A command failed to execute due to an I2C error.
    I2cError(ErrorKind),
    /// The command failed to execute (e.g., NACK, I/O error).
    ExecFailed,
    /// An internal buffer overflowed during command preparation.
    BufferOverflow,
    /// An error occurred in the BitFlags utility.
    BitFlags(BitFlagsError),
    /// An error occurred in the explorer module.
    Explorer(ExplorerError),
}

/// The error an executor failure becomes when it ends an exploration.
pub open spec fn explorer_error_of(error: ExecutorError) -> ExplorerError {
    match error {
        ExecutorError::I2cError(kind) => ExplorerError::ExecutionFailed(kind),
        ExecutorError::ExecFailed => ExplorerError::ExecutionFailed(ErrorKind::Unknown),
        ExecutorError::BufferOverflow => ExplorerError::BufferOverflow,
        ExecutorError::BitFlags(e) => ExplorerError::BitFlags(e),
        ExecutorError::Explorer(e) => e,
    }
}

impl vstd::std_specs::convert::FromSpecImpl<ExecutorError> for ExplorerError {
    open spec fn obeys_from_spec() -> bool {
        true
    }

    open spec fn from_spec(v: ExecutorError) -> ExplorerError {
        explorer_error_of(v)
    }
}

/// Converts an `ExecutorError` into an `ExplorerError`.
impl From<ExecutorError> for ExplorerError {
    fn from(error: ExecutorError) -> (r: ExplorerError) {
        match error {
            ExecutorError::I2cError(kind) => ExplorerError::ExecutionFailed(kind),
            ExecutorError::ExecFailed => ExplorerError::ExecutionFailed(ErrorKind::Unknown),
            ExecutorError::BufferOverflow => ExplorerError::BufferOverflow,
            ExecutorError::BitFlags(e) => ExplorerError::BitFlags(e),
            ExecutorError::Explorer(e) => e,
        }
    }
}

impl vstd::std_specs::convert::FromSpecImpl<ErrorKind> for ExplorerError {
    open spec fn obeys_from_spec() -> bool {
        true
    }

    open spec fn from_spec(v: ErrorKind) -> ExplorerError {
        ExplorerError::DeviceNotFound(v)
    }
}

/// Converts an `ErrorKind` into an `ExplorerError`.
impl From<ErrorKind> for ExplorerError {
    fn from(error: ErrorKind) -> (r: ExplorerError) {
        ExplorerError::DeviceNotFound(error)
    }
}

// ---------------------------------------------------------------------------
// Human-readable text of each error.
// ---------------------------------------------------------------------------

impl UartError {
    pub open spec fn text(self) -> Seq<char> {
        match self {
            UartError::Framing => "Framing"@,
            UartError::Parity => "Parity"@,
            UartError::Overrun => "Overrun"@,
            UartError::Underrun => "Underrun"@,
            UartError::Timeout => "Timeout"@,
        }
    }

    /// The text the error displays as.
    pub fn to_text(&self) -> (s: String)
        ensures
            s@ == self.text(),
    {
        match self {
            UartError::Framing => String::from_str("Framing"),
            UartError::Parity => String::from_str("Parity"),
            UartError::Overrun => String::from_str("Overrun"),
            UartError::Underrun => String::from_str("Underrun"),
            UartError::Timeout => String::from_str("Timeout"),
        }
    }
}

impl I2cError {
    pub open spec fn text(self) -> Seq<char> {
        match self {
            I2cError::Nack => "Nack"@,
            I2cError::ArbitrationLost => "ArbitrationLost"@,
            I2cError::Bus => "Bus"@,
        }
    }

    /// The text the error displays as.
    pub fn to_text(&self) -> (s: String)
        ensures
            s@ == self.text(),
    {
        match self {
            I2cError::Nack => String::from_str("Nack"),
            I2cError::ArbitrationLost => String::from_str("ArbitrationLost"),
            I2cError::Bus => String::from_str("Bus"),
        }
    }
}

impl SpiError {
    pub open spec fn text(self) -> Seq<char> {
        "ModeFault"@
    }

    /// The text the error displays as.
    pub fn to_text(&self) -> (s: String)
        ensures
            s@ == self.text(),
    {
        String::from_str("ModeFault")
    }
}

impl GpioError {
    pub open spec fn text(self) -> Seq<char> {
        "InvalidState"@
    }

    /// The text the error displays as.
    pub fn to_text(&self) -> (s: String)
        ensures
            s@ == self.text(),
    {
        String::from_str("InvalidState")
    }
}

impl AdcError {
    pub open spec fn text(self) -> Seq<char> {
        "OutOfRange"@
    }

    /// The text the error displays as.
    pub fn to_text(&self) -> (s: String)
        ensures
            s@ == self.text(),
    {
        String::from_str("OutOfRange")
    }
}

impl HardwareError {
    pub open spec fn text(self) -> Seq<char> {
        match self {
            HardwareError::Power => "PowerFault"@,
            HardwareError::Peripheral => "PeripheralFault"@,
            HardwareError::ShortCircuit => "ShortCircuit"@,
            HardwareError::OpenCircuit => "OpenCircuit"@,
        }
    }

    /// The text the error displays as.
    pub fn to_text(&self) -> (s: String)
        ensures
            s@ == self.text(),
    {
        match self {
            HardwareError::Power => String::from_str("PowerFault"),
            HardwareError::Peripheral => String::from_str("PeripheralFault"),
            HardwareError::ShortCircuit => String::from_str("ShortCircuit"),
            HardwareError::OpenCircuit => String::from_str("OpenCircuit"),
        }
    }
}

impl BufferError {
    pub open spec fn text(self) -> Seq<char> {
        match self {
            BufferError::Overflow => "Overflow"@,
            BufferError::Underflow => "Underflow"@,
        }
    }

    /// The text the error displays as.
    pub fn to_text(&self) -> (s: String)
        ensures
            s@ == self.text(),
    {
        match self {
            BufferError::Overflow => String::from_str("Overflow"),
            BufferError::Underflow => String::from_str("Underflow"),
        }
    }
}

impl HardwareError {
    /// The name of the variant.
    pub open spec fn name(self) -> Seq<char> {
        match self {
            HardwareError::Power => "Power"@,
            HardwareError::Peripheral => "Peripheral"@,
            HardwareError::ShortCircuit => "ShortCircuit"@,
            HardwareError::OpenCircuit => "OpenCircuit"@,
        }
    }

    /// The name of the variant.
    pub fn to_name(&self) -> (s: String)
        ensures
            s@ == self.name(),
    {
        match self {
            HardwareError::Power => String::from_str("Power"),
            HardwareError::Peripheral => String::from_str("Peripheral"),
            HardwareError::ShortCircuit => String::from_str("ShortCircuit"),
            HardwareError::OpenCircuit => String::from_str("OpenCircuit"),
        }
    }
}

impl ErrorKind {
    /// The text the error's debug form shows: the variant, with the inner
    /// variant in brackets.
    pub open spec fn debug_text(self) -> Seq<char> {
        match self {
            ErrorKind::Uart(e) => "Uart("@ + e.text() + ")"@,
            ErrorKind::I2c(e) => "I2c("@ + e.text() + ")"@,
            ErrorKind::Spi(e) => "Spi("@ + e.text() + ")"@,
            ErrorKind::Gpio(e) => "Gpio("@ + e.text() + ")"@,
            ErrorKind::Adc(e) => "Adc("@ + e.text() + ")"@,
            ErrorKind::Hardware(e) => "Hardware("@ + e.name() + ")"@,
            ErrorKind::Buffer(e) => "Buffer("@ + e.text() + ")"@,
            ErrorKind::InvalidConfig => "InvalidConfig"@,
            ErrorKind::Unknown => "Unknown"@,
            ErrorKind::Other => "Other"@,
        }
    }

    /// The text the error's debug form shows.
    pub fn to_debug_text(&self) -> (s: String)
        ensures
            s@ == self.debug_text(),
    {
        let (mut s, inner) = match self {
            ErrorKind::Uart(e) => (String::from_str("Uart("), e.to_text()),
            ErrorKind::I2c(e) => (String::from_str("I2c("), e.to_text()),
            ErrorKind::Spi(e) => (String::from_str("Spi("), e.to_text()),
            ErrorKind::Gpio(e) => (String::from_str("Gpio("), e.to_text()),
            ErrorKind::Adc(e) => (String::from_str("Adc("), e.to_text()),
            ErrorKind::Hardware(e) => (String::from_str("Hardware("), e.to_name()),
            ErrorKind::Buffer(e) => (String::from_str("Buffer("), e.to_text()),
            ErrorKind::InvalidConfig => {
                return String::from_str("InvalidConfig");
            },
            ErrorKind::Unknown => {
                return String::from_str("Unknown");
            },
            ErrorKind::Other => {
                return String::from_str("Other");
            },
        };
        s.append(inner.as_str());
        s.append(")");
        s
    }
}

impl ErrorKind {
    pub open spec fn text(self) -> Seq<char> {
        match self {
            ErrorKind::Uart(e) => "Uart: "@ + e.text(),
            ErrorKind::I2c(e) => "I2c: "@ + e.text(),
            ErrorKind::Spi(e) => "Spi: "@ + e.text(),
            ErrorKind::Gpio(e) => "Gpio: "@ + e.text(),
            ErrorKind::Adc(e) => "Adc: "@ + e.text(),
            ErrorKind::Hardware(e) => "Hardware: "@ + e.text(),
            ErrorKind::Buffer(e) => "Buffer: "@ + e.text(),
            ErrorKind::InvalidConfig => "InvalidConfig"@,
            ErrorKind::Unknown => "Unknown"@,
            ErrorKind::Other => "Other"@,
        }
    }

    /// The text the error displays as.
    pub fn to_text(&self) -> (s: String)
        ensures
            s@ == self.text(),
    {
        match self {
            ErrorKind::Uart(e) => {
                let mut s = String::from_str("Uart: ");
                s.append(e.to_text().as_str());
                s
            },
            ErrorKind::I2c(e) => {
                let mut s = String::from_str("I2c: ");
                s.append(e.to_text().as_str());
                s
            },
            ErrorKind::Spi(e) => {
                let mut s = String::from_str("Spi: ");
                s.append(e.to_text().as_str());
                s
            },
            ErrorKind::Gpio(e) => {
                let mut s = String::from_str("Gpio: ");
                s.append(e.to_text().as_str());
                s
            },
            ErrorKind::Adc(e) => {
                let mut s = String::from_str("Adc: ");
                s.append(e.to_text().as_str());
                s
            },
            ErrorKind::Hardware(e) => {
                let mut s = String::from_str("Hardware: ");
                s.append(e.to_text().as_str());
                s
            },
            ErrorKind::Buffer(e) => {
                let mut s = String::from_str("Buffer: ");
                s.append(e.to_text().as_str());
                s
            },
            ErrorKind::InvalidConfig => String::from_str("InvalidConfig"),
            ErrorKind::Unknown => String::from_str("Unknown"),
            ErrorKind::Other => String::from_str("Other"),
        }
    }
}

impl BitFlagsError {
    pub open spec fn text(self) -> Seq<char> {
        match self {
            BitFlagsError::IndexOutOfBounds { idx, max } =>
                "Index out of bounds: index "@ + decimal_text(idx as nat) + " is out of range 0.."@
                    + decimal_text(max as nat),
        }
    }

    /// The text the error displays as.
    pub fn to_text(&self) -> (s: String)
        ensures
            s@ == self.text(),
    {
        match self {
            BitFlagsError::IndexOutOfBounds { idx, max } => {
                let mut s = String::from_str("Index out of bounds: index ");
                push_decimal(&mut s, *idx);
                s.append(" is out of range 0..");
                push_decimal(&mut s, *max);
                s
            },
        }
    }
}

impl ExplorerError {
    pub open spec fn text(self) -> Seq<char> {
        match self {
            ExplorerError::TooManyCommands => "TooManyCommands"@,
            ExplorerError::DependencyCycle => "DependencyCycle"@,
            ExplorerError::NoValidAddressesFound => "NoValidAddressesFound"@,
            ExplorerError::ExecutionFailed(kind) => "ExecutionFailed: "@ + kind.text(),
            ExplorerError::BufferOverflow => "BufferOverflow"@,
            ExplorerError::InvalidDependencyIndex => "InvalidDependencyIndex"@,
            ExplorerError::DeviceNotFound(kind) => "DeviceNotFound: "@ + kind.text(),
            ExplorerError::BitFlags(e) => "BitFlagsError: "@ + e.text(),
        }
    }

    /// The text the error displays as.
    pub fn to_text(&self) -> (s: String)
        ensures
            s@ == self.text(),
    {
        match self {
            ExplorerError::TooManyCommands => String::from_str("TooManyCommands"),
            ExplorerError::DependencyCycle => String::from_str("DependencyCycle"),
            ExplorerError::NoValidAddressesFound => String::from_str("NoValidAddressesFound"),
            ExplorerError::ExecutionFailed(kind) => {
                let mut s = String::from_str("ExecutionFailed: ");
                s.append(kind.to_text().as_str());
                s
            },
            ExplorerError::BufferOverflow => String::from_str("BufferOverflow"),
            ExplorerError::InvalidDependencyIndex => String::from_str("InvalidDependencyIndex"),
            ExplorerError::DeviceNotFound(kind) => {
                let mut s = String::from_str("DeviceNotFound: ");
                s.append(kind.to_text().as_str());
                s
            },
            ExplorerError::BitFlags(e) => {
                let mut s = String::from_str("BitFlagsError: ");
                s.append(e.to_text().as_str());
                s
            },
        }
    }
}

impl ExecutorError {
    pub open spec fn text(self) -> Seq<char> {
        match self {
            ExecutorError::I2cError(kind) => "I2cError: "@ + kind.text(),
            ExecutorError::ExecFailed => "ExecFailed"@,
            ExecutorError::BufferOverflow => "BufferOverflow"@,
            ExecutorError::BitFlags(e) => "BitFlagsError: "@ + e.text(),
            ExecutorError::Explorer(e) => "ExplorerError: "@ + e.text(),
        }
    }

    /// The text the error displays as.
    pub fn to_text(&self) -> (s: String)
        ensures
            s@ == self.text(),
    {
        match self {
            ExecutorError::I2cError(kind) => {
                let mut s = String::from_str("I2cError: ");
                s.append(kind.to_text().as_str());
                s
            },
            ExecutorError::ExecFailed => String::from_str("ExecFailed"),
            ExecutorError::BufferOverflow => String::from_str("BufferOverflow"),
            ExecutorError::BitFlags(e) => {
                let mut s = String::from_str("BitFlagsError: ");
                s.append(e.to_text().as_str());
                s
            },
            ExecutorError::Explorer(e) => {
                let mut s = String::from_str("ExplorerError: ");
                s.append(e.to_text().as_str());
                s
            },
        }
    }
}

} // verus!
