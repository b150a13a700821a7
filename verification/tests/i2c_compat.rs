use embedded_hal::i2c::{ErrorType, I2c, Operation};

#[derive(Debug)]
struct DummyI2c;

impl ErrorType for DummyI2c {
    type Error = core::convert::Infallible;
}

impl I2c for DummyI2c {
    fn write(&mut self, _addr: u8, _bytes: &[u8]) -> Result<(), Self::Error> {
        Ok(())
    }
    fn read(&mut self, _addr: u8, buffer: &mut [u8]) -> Result<(), Self::Error> {
        for b in buffer.iter_mut() {
            *b = 0xAA;
        }
        Ok(())
    }
    fn write_read(&mut self, _addr: u8, _bytes: &[u8], buffer: &mut [u8]) -> Result<(), Self::Error> {
        for b in buffer.iter_mut() {
            *b = 0x55;
        }
        Ok(())
    }
    fn transaction(&mut self, _addr: u8, _ops: &mut [Operation<'_>]) -> Result<(), Self::Error> {
        Ok(())
    }
}

#[test]
fn test_dummy_i2c() {
    let mut i2c = DummyI2c;
    let mut buf = [0u8; 4];

    assert!(I2c::write(&mut i2c, 0x42, &[1, 2, 3]).is_ok());
    assert!(I2c::read(&mut i2c, 0x42, &mut buf).is_ok());
    assert_eq!(buf, [0xAA; 4]);

    assert!(I2c::write_read(&mut i2c, 0x42, &[9], &mut buf).is_ok());
    assert_eq!(buf, [0x55; 4]);

    let mut ops = [];
    assert!(i2c.transaction(0x42, &mut ops).is_ok());
}
