use tiny_linux_usb::descriptor::Error as DescriptorError;
use tiny_linux_usb::{
    request_type, BulkSetup, ClaimStep, ControlSetup, Direction, Error, Recipient, RequestType,
    UsbDevice,
};

fn buffer() -> Vec<u8> {
    let mut data = vec![18, 1, 0, 2, 0, 0, 0, 64, 0x34, 0x12, 0x78, 0x56, 0, 1, 0, 0, 0, 2];
    data.extend([9, 2, 0x27, 0, 2, 1, 0, 0x80, 50]);
    data.extend([9, 4, 0, 0, 1, 0xff, 0, 0, 0]);
    data.extend([7, 5, 0x81, 3, 8, 0, 10]);
    data.extend([9, 4, 3, 0, 2, 0xff, 0, 0, 0]);
    data.extend([7, 5, 0x02, 2, 0, 2, 0]);
    data.extend([7, 5, 0x82, 2, 0, 2, 0]);
    data.extend([9, 2, 0x19, 0, 1, 2, 0, 0x80, 50]);
    data.extend([9, 4, 7, 0, 1, 0xff, 0, 0, 0]);
    data.extend([7, 5, 0x84, 2, 0, 2, 0]);
    data
}

#[test]
fn request_type_values() {
    assert_eq!(request_type(Direction::In, RequestType::Vendor, Recipient::Device), 0xc0);
    assert_eq!(request_type(Direction::Out, RequestType::Class, Recipient::Interface), 0x21);
    assert_eq!(request_type(Direction::In, RequestType::Reserved, Recipient::Other), 0xe3);
    assert_eq!(request_type(Direction::Out, RequestType::Standard, Recipient::Endpoint), 0x02);
}

#[test]
fn claim_needs_descriptors_first() {
    let device = UsbDevice::new(5);
    assert_eq!(device.fd(), 5);
    assert!(device.descriptors().is_none());
    assert_eq!(device.claim_endpoint(0x81).unwrap(), ClaimStep::ReadDescriptors);
}

#[test]
fn claim_finds_owning_interface() {
    let mut device = UsbDevice::new(5);
    device.load_descriptors(&buffer()).unwrap();
    assert_eq!(device.claim_endpoint(0x81).unwrap(), ClaimStep::ClaimInterface(0));
    assert_eq!(device.claim_endpoint(0x82).unwrap(), ClaimStep::ClaimInterface(3));
    assert_eq!(device.claim_endpoint(0x02).unwrap(), ClaimStep::ClaimInterface(3));
    // Only the first configuration is searched.
    assert!(matches!(device.claim_endpoint(0x84), Err(Error::InvalidEndpoint)));
    assert!(matches!(device.claim_endpoint(0x01), Err(Error::InvalidEndpoint)));
}

#[test]
fn claim_without_configurations_fails() {
    let mut device = UsbDevice::new(5);
    device.load_descriptors(&buffer()[..18]).unwrap();
    assert!(matches!(device.claim_endpoint(0x81), Err(Error::InvalidEndpoint)));
}

#[test]
fn descriptors_are_parsed_once() {
    let mut device = UsbDevice::new(5);
    assert_eq!(device.load_descriptors(&[1, 1]).unwrap_err(), DescriptorError::InvalidSize);
    assert!(device.descriptors().is_none());
    device.load_descriptors(&buffer()).unwrap();
    assert_eq!(device.descriptors().unwrap().configurations.len(), 2);
    device.load_descriptors(&buffer()[..18]).unwrap();
    assert_eq!(device.descriptors().unwrap().configurations.len(), 2);
}

#[test]
fn transfer_direction_is_checked() {
    let device = UsbDevice::new(5);
    assert!(matches!(device.read_bulk(0x01, 64, 1000), Err(Error::InvalidEndpoint)));
    assert!(matches!(device.write_bulk(0x81, 64, 1000), Err(Error::InvalidEndpoint)));
    assert!(matches!(device.read_interrupt(0x02, 64, 1000), Err(Error::InvalidEndpoint)));
    assert!(matches!(device.write_interrupt(0x82, 64, 1000), Err(Error::InvalidEndpoint)));
    assert_eq!(
        device.read_interrupt(0x81, 64, 1000).unwrap(),
        BulkSetup { ep: 0x81, len: 64, timeout: 1000 }
    );
    assert_eq!(
        device.write_bulk(0x02, 512, (1u128 << 32) + 7).unwrap(),
        BulkSetup { ep: 0x02, len: 512, timeout: 7 }
    );
}

#[test]
fn control_direction_is_checked() {
    let device = UsbDevice::new(5);
    assert!(matches!(device.read_control(0x40, 1, 2, 3, 4, 100), Err(Error::InvalidEndpoint)));
    assert!(matches!(device.write_control(0xc0, 1, 2, 3, 4, 100), Err(Error::InvalidEndpoint)));
    assert_eq!(
        device.read_control(0xc0, 6, 0x0100, 0, 18, 100).unwrap(),
        ControlSetup { request_type: 0xc0, request: 6, value: 0x0100, index: 0, length: 18, timeout: 100 }
    );
    assert_eq!(
        device.write_control(0x40, 9, 1, 2, 0, 100).unwrap(),
        ControlSetup { request_type: 0x40, request: 9, value: 1, index: 2, length: 0, timeout: 100 }
    );
}
