use dvcdbg::compat::I2cCompat;
use dvcdbg::compat::i2c_compat::LoggedBus;
use dvcdbg::scanner::scan_i2c;

struct DummyI2c;
impl I2cCompat for DummyI2c {
    type Error = dvcdbg::compat::err_compat::HalI2cErrorKind;

    fn write(&mut self, _addr: u8, _bytes: &[u8]) -> Result<(), Self::Error> {
        Ok(())
    }
    fn read(&mut self, _addr: u8, _buffer: &mut [u8]) -> Result<(), Self::Error> {
        Ok(())
    }
    fn write_read(
        &mut self,
        _addr: u8,
        _bytes: &[u8],
        _buffer: &mut [u8],
    ) -> Result<(), Self::Error> {
        Ok(())
    }
}

#[test]
fn test_full_stack() {
    // I2C test
    let mut i2c = DummyI2c;
    assert!(i2c.write(0x42, &[1, 2, 3]).is_ok());
    let mut buf = [0u8; 3];
    assert!(i2c.read(0x42, &mut buf).is_ok());
    assert!(i2c.write_read(0x42, &[1, 2], &mut buf).is_ok());

    let mut logged = LoggedBus::new(i2c);
    assert!(scan_i2c(&mut logged, &mut String::new(), 0x00).is_ok());
}
