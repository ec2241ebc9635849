//! Parsing of USB descriptor buffers into a device tree, and the decisions of
//! a small usbdevfs device layer built on it.

pub mod descriptor;
pub mod device;
pub mod layout;

pub use descriptor::{
    AnyDescriptor, ConfigurationDescriptor, ConfigurationTree, DeviceDescriptor, DeviceTree,
    EndpointDescriptor, InterfaceDescriptor, InterfaceTree,
};
pub use device::{
    request_type, BulkSetup, ClaimStep, ControlSetup, Direction, Error, Recipient, RequestType,
    Result, UsbDevice,
};
