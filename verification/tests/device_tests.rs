use blueos_core::device::{DeviceClass, DeviceId, ErrorKind, Zero};

#[test]
fn test_zero_device_read() {
    let zero = Zero;
    let mut buffer = [1u8; 10];

    // Read should fill buffer with zeros
    let result = zero.read(0, &mut buffer, true);
    assert!(result.is_ok());
    assert_eq!(result.unwrap(), buffer.len());
    assert!(buffer.iter().all(|&x| x == 0));
}

#[test]
fn test_zero_device_write() {
    let zero = Zero;
    let buffer = [1u8, 2, 3, 4, 5];

    // Write should always succeed and return the buffer length
    let result = zero.write(0, &buffer, true);
    assert!(result.is_ok());
    assert_eq!(result.unwrap(), buffer.len());
}

#[test]
fn test_zero_device_open_close() {
    let zero = Zero;

    // Test opening with valid flags
    let result = zero.open();
    assert!(result.is_ok());

    // Test closing
    let result = zero.close();
    assert!(result.is_ok());
}

#[test]
fn test_zero_device_id() {
    let zero = Zero;
    let id = zero.id();

    assert_eq!(id.major(), 1);
    assert_eq!(id.minor(), 5);
}

#[test]
fn zero_device_name_and_class() {
    let zero = Zero;
    assert_eq!(zero.name(), "zero");
    assert_eq!(zero.class(), DeviceClass::Char);
    let mut empty: [u8; 0] = [];
    assert_eq!(zero.read(7, &mut empty, false), Ok::<usize, ErrorKind>(0));
    assert_eq!(zero.write(7, &empty, false), Ok::<usize, ErrorKind>(0));
    assert_eq!(DeviceId::new(4, 64), DeviceId::new(4, 64));
}
