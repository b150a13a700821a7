//! The I2C bus interface the scanner and the explorer drive.

use vstd::prelude::*;

verus! {

/// One write on the bus: the address, the bytes and the answer.
pub type WriteEntry<E> = (u8, Seq<u8>, Result<(), E>);

/// Common I2C trait.
///
/// A bus keeps, as its specification, the log of the writes made through it.
/// An implementation that does not define the log keeps an empty one, which
/// its `write` cannot honour: the contracts of this library then say nothing
/// about it. `LoggedBus` wraps any bus into one that keeps the log.
pub trait I2cCompat {
    type Error;

    /// The writes made through this bus so far, oldest first, each with the
    /// answer it got.
    open spec fn write_log(&self) -> Seq<WriteEntry<Self::Error>> {
        Seq::empty()
    }

    /// Writes `bytes` to the device at `addr`; the write and its answer are
    /// added to the log.
    fn write(&mut self, addr: u8, bytes: &[u8]) -> (r: Result<(), Self::Error>)
        ensures
            final(self).write_log() == old(self).write_log().push((addr, bytes@, r)),
    ;

    fn read(&mut self, addr: u8, buffer: &mut [u8]) -> Result<(), Self::Error>;

    fn write_read(&mut self, addr: u8, bytes: &[u8], buffer: &mut [u8]) -> Result<(), Self::Error>;
}

/// A bus that passes every call to `bus` and keeps the log of the writes
/// made through it, with the answers `bus` gave.
pub struct LoggedBus<B: I2cCompat> {
    pub bus: B,
    log: Ghost<Seq<WriteEntry<B::Error>>>,
}

impl<B: I2cCompat> LoggedBus<B> {
    /// The wrapped bus.
    pub closed spec fn inner(&self) -> B {
        self.bus
    }

    /// Wraps `bus`, with an empty log.
    pub fn new(bus: B) -> (r: Self)
        ensures
            r.inner() == bus,
            r.write_log() == Seq::<WriteEntry<B::Error>>::empty(),
    {
        LoggedBus { bus, log: Ghost(Seq::empty()) }
    }
}

impl<B: I2cCompat> I2cCompat for LoggedBus<B> {
    type Error = B::Error;

    closed spec fn write_log(&self) -> Seq<WriteEntry<B::Error>> {
        self.log@
    }

    fn write(&mut self, addr: u8, bytes: &[u8]) -> (r: Result<(), Self::Error>) {
        let r = self.bus.write(addr, bytes);
        proof {
            self.log@ = self.log@.push((addr, bytes@, r));
        }
        r
    }

    fn read(&mut self, addr: u8, buffer: &mut [u8]) -> Result<(), Self::Error> {
        self.bus.read(addr, buffer)
    }

    fn write_read(&mut self, addr: u8, bytes: &[u8], buffer: &mut [u8]) -> Result<(), Self::Error> {
        self.bus.write_read(addr, bytes, buffer)
    }
}

} // verus!
