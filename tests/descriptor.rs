use tiny_linux_usb::descriptor::{
    byte_array_to_descriptors, parse_descriptor, split_by_parent_desc, DescriptorKind, Error,
};
use tiny_linux_usb::{AnyDescriptor, DeviceTree};

fn device(num_configurations: u8) -> Vec<u8> {
    vec![
        18, 1, 0x00, 0x02, 0xff, 0x01, 0x02, 64, 0x34, 0x12, 0x78, 0x56, 0x01, 0x01, 1, 2, 3,
        num_configurations,
    ]
}

fn configuration(value: u8, num_interfaces: u8) -> Vec<u8> {
    vec![9, 2, 0x20, 0x00, num_interfaces, value, 0, 0x80, 50]
}

fn interface(number: u8, num_endpoints: u8) -> Vec<u8> {
    vec![9, 4, number, 0, num_endpoints, 0xff, 0, 0, 0]
}

fn endpoint(address: u8) -> Vec<u8> {
    vec![7, 5, address, 0x02, 0x00, 0x02, 0]
}

fn concat(parts: &[Vec<u8>]) -> Vec<u8> {
    parts.iter().flat_map(|p| p.iter().copied()).collect()
}

#[test]
fn single_endpoint_tree() {
    let data = concat(&[device(1), configuration(1, 1), interface(0, 1), endpoint(0x81)]);
    let tree = DeviceTree::from_byte_array(&data).unwrap();
    assert_eq!(tree.desc.bNumConfigurations, 1);
    assert_eq!(tree.configurations.len(), 1);
    assert_eq!(tree.configurations[0].interfaces.len(), 1);
    assert_eq!(tree.configurations[0].interfaces[0].endpoints.len(), 1);
    assert_eq!(tree.configurations[0].interfaces[0].endpoints[0].bEndpointAddress, 0x81);
}

#[test]
fn endpoint_counts_follow_markers() {
    let data = concat(&[
        device(2),
        configuration(1, 2),
        interface(0, 3),
        endpoint(0x81),
        endpoint(0x02),
        endpoint(0x83),
        interface(1, 1),
        endpoint(0x04),
        configuration(2, 1),
        interface(0, 2),
        endpoint(0x85),
        endpoint(0x06),
    ]);
    let tree = DeviceTree::from_byte_array(&data).unwrap();
    assert_eq!(tree.configurations.len(), 2);
    let first = &tree.configurations[0];
    assert_eq!(first.desc.bConfigurationValue, 1);
    assert_eq!(first.interfaces.len(), 2);
    let addresses: Vec<u8> = first.interfaces[0].endpoints.iter().map(|e| e.bEndpointAddress).collect();
    assert_eq!(addresses, vec![0x81, 0x02, 0x83]);
    assert_eq!(first.interfaces[1].desc.bInterfaceNumber, 1);
    assert_eq!(first.interfaces[1].endpoints.len(), 1);
    assert_eq!(first.interfaces[1].endpoints[0].bEndpointAddress, 0x04);
    let second = &tree.configurations[1];
    assert_eq!(second.desc.bConfigurationValue, 2);
    assert_eq!(second.interfaces.len(), 1);
    let addresses: Vec<u8> = second.interfaces[0].endpoints.iter().map(|e| e.bEndpointAddress).collect();
    assert_eq!(addresses, vec![0x85, 0x06]);
}

#[test]
fn fields_are_little_endian() {
    let data = concat(&[device(0)]);
    let tree = DeviceTree::from_byte_array(&data).unwrap();
    assert_eq!(tree.desc.bLength, 18);
    assert_eq!(tree.desc.bcdUSB, 0x0200);
    assert_eq!(tree.desc.idVendor, 0x1234);
    assert_eq!(tree.desc.idProduct, 0x5678);
    assert_eq!(tree.desc.bcdDevice, 0x0101);
    assert_eq!(tree.desc.bMaxPacketSize0, 64);
    assert_eq!(tree.desc.iSerialNumber, 3);
    assert!(tree.configurations.is_empty());
    let ep = endpoint(0x81);
    match parse_descriptor(&ep) {
        Ok(AnyDescriptor::EndpointDescriptor(e)) => assert_eq!(e.wMaxPacketSize, 0x0200),
        other => panic!("unexpected {:?}", other),
    }
}

#[test]
fn empty_and_one_byte_buffers_are_invalid() {
    assert_eq!(DeviceTree::from_byte_array(&[]).unwrap_err(), Error::InvalidSize);
    assert_eq!(DeviceTree::from_byte_array(&[18]).unwrap_err(), Error::InvalidSize);
}

#[test]
fn length_below_header_is_invalid() {
    assert_eq!(DeviceTree::from_byte_array(&[1, 1]).unwrap_err(), Error::InvalidSize);
    let data = concat(&[device(1), vec![1, 2, 0, 0]]);
    assert_eq!(DeviceTree::from_byte_array(&data).unwrap_err(), Error::InvalidSize);
}

#[test]
fn length_past_end_is_invalid() {
    let data = concat(&[device(1), vec![9, 2, 0, 0, 1]]);
    assert_eq!(DeviceTree::from_byte_array(&data).unwrap_err(), Error::InvalidSize);
    assert_eq!(byte_array_to_descriptors(&data).unwrap_err(), Error::InvalidSize);
}

#[test]
fn configuration_first_is_rejected() {
    let data = concat(&[configuration(1, 1), device(1), interface(0, 0)]);
    assert_eq!(DeviceTree::from_byte_array(&data).unwrap_err(), Error::DeviceWasNotFirst);
    let data = concat(&[configuration(1, 1), interface(0, 0)]);
    assert_eq!(DeviceTree::from_byte_array(&data).unwrap_err(), Error::DeviceWasNotFirst);
}

#[test]
fn two_devices_are_rejected() {
    let data = concat(&[device(1), configuration(1, 0), device(1)]);
    assert_eq!(DeviceTree::from_byte_array(&data).unwrap_err(), Error::TooManyDevices);
    let data = concat(&[configuration(1, 0), device(1), device(1)]);
    assert_eq!(DeviceTree::from_byte_array(&data).unwrap_err(), Error::TooManyDevices);
}

#[test]
fn short_configuration_is_invalid() {
    let data = concat(&[device(1), vec![5, 2, 0, 0, 1]]);
    assert_eq!(DeviceTree::from_byte_array(&data).unwrap_err(), Error::InvalidSize);
    let data = concat(&[device(1), vec![2, 2]]);
    assert_eq!(DeviceTree::from_byte_array(&data).unwrap_err(), Error::InvalidSize);
}

#[test]
fn short_device_and_endpoint_are_invalid() {
    assert_eq!(parse_descriptor(&[17, 1, 0, 0]).unwrap_err(), Error::InvalidSize);
    assert_eq!(parse_descriptor(&[6, 5, 0x81, 2, 0, 2]).unwrap_err(), Error::InvalidSize);
    assert_eq!(parse_descriptor(&[8, 4, 0, 0, 0, 0, 0, 0]).unwrap_err(), Error::InvalidSize);
}

#[test]
fn unknown_records_are_dropped() {
    let hid = vec![9, 0x21, 0x11, 0x01, 0, 1, 0x22, 0x3f, 0];
    let data = concat(&[
        device(1),
        vec![4, 0x0b, 0, 0],
        configuration(1, 2),
        interface(0, 2),
        hid.clone(),
        endpoint(0x81),
        vec![2, 0x30],
        endpoint(0x02),
        interface(1, 1),
        hid,
        endpoint(0x83),
    ]);
    let tree = DeviceTree::from_byte_array(&data).unwrap();
    assert_eq!(tree.configurations.len(), 1);
    let interfaces = &tree.configurations[0].interfaces;
    assert_eq!(interfaces.len(), 2);
    let addresses: Vec<u8> = interfaces[0].endpoints.iter().map(|e| e.bEndpointAddress).collect();
    assert_eq!(addresses, vec![0x81, 0x02]);
    assert_eq!(interfaces[1].endpoints.len(), 1);
    assert_eq!(interfaces[1].endpoints[0].bEndpointAddress, 0x83);
}

#[test]
fn long_endpoint_records_are_accepted() {
    let audio = vec![9, 5, 0x81, 0x05, 0xc0, 0x00, 1, 0, 0];
    let data = concat(&[device(1), configuration(1, 1), interface(0, 1), audio]);
    let tree = DeviceTree::from_byte_array(&data).unwrap();
    let e = &tree.configurations[0].interfaces[0].endpoints[0];
    assert_eq!(e.bLength, 9);
    assert_eq!(e.bEndpointAddress, 0x81);
    assert_eq!(e.wMaxPacketSize, 0xc0);
}

#[test]
fn records_before_first_interface_are_not_grouped() {
    let data = concat(&[device(1), configuration(1, 1), endpoint(0x01), interface(0, 1), endpoint(0x82)]);
    let tree = DeviceTree::from_byte_array(&data).unwrap();
    let interfaces = &tree.configurations[0].interfaces;
    assert_eq!(interfaces.len(), 1);
    assert_eq!(interfaces[0].endpoints.len(), 1);
    assert_eq!(interfaces[0].endpoints[0].bEndpointAddress, 0x82);
}

#[test]
fn split_ranges_follow_markers() {
    let data = concat(&[
        device(2),
        configuration(1, 1),
        interface(0, 0),
        vec![2, 0x30],
        configuration(2, 0),
    ]);
    let ds = byte_array_to_descriptors(&data).unwrap();
    assert_eq!(ds.len(), 5);
    assert!(matches!(ds[3], AnyDescriptor::Other(0x30)));
    assert_eq!(split_by_parent_desc(&ds, DescriptorKind::Configuration), vec![(1, 4), (4, 5)]);
    assert_eq!(split_by_parent_desc(&ds, DescriptorKind::Interface), vec![(2, 5)]);
    assert_eq!(split_by_parent_desc(&ds, DescriptorKind::Endpoint), vec![]);
}

#[test]
fn trailing_byte_is_ignored() {
    let data = concat(&[device(0), vec![7]]);
    assert!(DeviceTree::from_byte_array(&data).is_ok());
}

#[test]
fn error_messages() {
    assert_eq!(Error::InvalidSize.message(), "Invalid size field");
    assert_eq!(Error::DeviceWasNotFirst.message(), "The first descriptor was not of type Device");
    assert_eq!(Error::TooManyDevices.message(), "Too many device descriptors found");
    assert_eq!(Error::InvalidType.message(), "Invalid type");
}
