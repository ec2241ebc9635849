use vstd::prelude::*;

use crate::descriptor;
use crate::descriptor::{DeviceTree, DeviceTreeView, InterfaceTreeView};

verus! {

/// nix's `Errno`, carried opaquely in `Error::IoctlError`.
#[verifier::external_type_specification]
#[verifier::external_body]
pub struct ExErrno(nix::errno::Errno);

/// std's `io::Error`, carried opaquely in `Error::IoError`.
#[verifier::external_type_specification]
#[verifier::external_body]
pub struct ExIoError(std::io::Error);

/// What can go wrong when talking to a device.
#[derive(Debug)]
pub enum Error {
    DescriptorError(descriptor::Error),
    IoError(std::io::Error),
    IoctlError(nix::errno::Errno),
    InvalidEndpoint,
    DeviceDisconnected,
    NotFound,
}

pub type Result<T> = std::result::Result<T, Error>;

/// The direction bit of an endpoint address or a control request type.
#[derive(Debug, PartialEq, Eq, Clone, Copy, Structural)]
pub enum Direction {
    Out,
    In,
}

#[derive(Debug, PartialEq, Eq, Clone, Copy, Structural)]
pub enum RequestType {
    Standard,
    Class,
    Vendor,
    Reserved,
}

/// Recipients of control transfers.
#[derive(Debug, PartialEq, Eq, Clone, Copy, Hash, Structural)]
pub enum Recipient {
    Device,
    Interface,
    Endpoint,
    Other,
}

/// The bit that marks a device-to-host transfer.
pub const DIRECTION_IN: u8 = 0x80;

pub open spec fn direction_bits(d: Direction) -> u8 {
    match d {
        Direction::Out => 0x00,
        Direction::In => 0x80,
    }
}

pub open spec fn request_type_bits(t: RequestType) -> u8 {
    match t {
        RequestType::Standard => 0x00,
        RequestType::Class => 0x20,
        RequestType::Vendor => 0x40,
        RequestType::Reserved => 0x60,
    }
}

pub open spec fn recipient_bits(r: Recipient) -> u8 {
    match r {
        Recipient::Device => 0,
        Recipient::Interface => 1,
        Recipient::Endpoint => 2,
        Recipient::Other => 3,
    }
}

impl Direction {
    pub fn bits(self) -> (r: u8)
        ensures
            r == direction_bits(self),
    {
        match self {
            Direction::Out => 0x00,
            Direction::In => 0x80,
        }
    }
}

impl RequestType {
    pub fn bits(self) -> (r: u8)
        ensures
            r == request_type_bits(self),
    {
        match self {
            RequestType::Standard => 0x00,
            RequestType::Class => 0x20,
            RequestType::Vendor => 0x40,
            RequestType::Reserved => 0x60,
        }
    }
}

impl Recipient {
    pub fn bits(self) -> (r: u8)
        ensures
            r == recipient_bits(self),
    {
        match self {
            Recipient::Device => 0,
            Recipient::Interface => 1,
            Recipient::Endpoint => 2,
            Recipient::Other => 3,
        }
    }
}

/// The `bmRequestType` byte of a control transfer.
pub fn request_type(direction: Direction, req_type: RequestType, recipient: Recipient) -> (r:
    u8)
    ensures
        r == direction_bits(direction) | request_type_bits(req_type) | recipient_bits(
            recipient,
        ),
{
    direction.bits() | req_type.bits() | recipient.bits()
}

/// The number of the first interface, in order, that has an endpoint at
/// `address` among `interfaces`.
pub open spec fn interface_with_endpoint(interfaces: Seq<InterfaceTreeView>, address: u8) -> Option<
    u8,
>
    decreases interfaces.len(),
{
    if interfaces.len() == 0 {
        None
    } else if exists|j: int|
        0 <= j < interfaces[0].endpoints.len() && #[trigger] interfaces[0].endpoints[j].bEndpointAddress
            == address {
        Some(interfaces[0].desc.bInterfaceNumber)
    } else {
        interface_with_endpoint(interfaces.drop_first(), address)
    }
}

/// The interface of the first configuration of `tree` that owns the endpoint
/// at `address`.
pub open spec fn owning_interface(tree: DeviceTreeView, address: u8) -> Option<u8> {
    if tree.configurations.len() == 0 {
        None
    } else {
        interface_with_endpoint(tree.configurations[0].interfaces, address)
    }
}

/// What the device layer must do next to claim an endpoint.
#[derive(Debug, PartialEq, Eq, Clone, Copy, Structural)]
pub enum ClaimStep {
    /// The descriptors have not been read yet: read them and load them.
    ReadDescriptors,
    /// Claim the interface of this number.
    ClaimInterface(u8),
}

/// The fields of a bulk or interrupt transfer request.
#[derive(Debug, PartialEq, Eq, Clone, Copy, Structural)]
pub struct BulkSetup {
    pub ep: u32,
    pub len: u32,
    pub timeout: u32,
}

/// The fields of a control transfer request.
#[derive(Debug, PartialEq, Eq, Clone, Copy, Structural)]
pub struct ControlSetup {
    pub request_type: u8,
    pub request: u8,
    pub value: u16,
    pub index: u16,
    pub length: u16,
    pub timeout: u32,
}

/// An open usbdevfs device: its file descriptor and, once read, its
/// descriptor tree.
#[derive(Debug, Clone)]
pub struct UsbDevice {
    fd: i32,
    descriptor_cache: Option<DeviceTree>,
}

impl UsbDevice {
    pub closed spec fn spec_fd(&self) -> i32 {
        self.fd
    }

    pub closed spec fn spec_cache(&self) -> Option<DeviceTreeView> {
        match self.descriptor_cache {
            Some(t) => Some(t@),
            None => None,
        }
    }

    pub fn new(fd: i32) -> (r: Self)
        ensures
            r.spec_fd() == fd,
            r.spec_cache() is None,
    {
        UsbDevice { fd, descriptor_cache: None }
    }

    pub fn fd(&self) -> (r: i32)
        ensures
            r == self.spec_fd(),
    {
        self.fd
    }

    /// The descriptor tree, if it has been loaded.
    pub fn descriptors(&self) -> (r: Option<&DeviceTree>)
        ensures
            match r {
                Some(t) => self.spec_cache() == Some(t@),
                None => self.spec_cache() is None,
            },
    {
        match &self.descriptor_cache {
            Some(t) => Some(t),
            None => None,
        }
    }

    /// Parses the device's descriptor buffer once and keeps the tree. A
    /// device whose tree is already loaded keeps it and ignores `data`.
    pub fn load_descriptors(&mut self, data: &[u8]) -> (r: std::result::Result<(), descriptor::Error>)
        ensures
            final(self).spec_fd() == old(self).spec_fd(),
            old(self).spec_cache() is Some ==> r is Ok && final(self).spec_cache() == old(
                self,
            ).spec_cache(),
            old(self).spec_cache() is None ==> match descriptor::tree_of(data@) {
                Ok(t) => r is Ok && final(self).spec_cache() == Some(t),
                Err(e) => r == Err::<(), descriptor::Error>(e) && final(self).spec_cache() is None,
            },
    {
        if self.descriptor_cache.is_some() {
            return Ok(());
        }
        match DeviceTree::from_byte_array(data) {
            Ok(t) => {
                self.descriptor_cache = Some(t);
                Ok(())
            },
            Err(e) => Err(e),
        }
    }

    /// Decides how to claim the endpoint at `endpoint_address`: read the
    /// descriptors first if they are not loaded, else claim the interface of
    /// the first configuration that owns the endpoint.
    pub fn claim_endpoint(&self, endpoint_address: u8) -> (r: Result<ClaimStep>)
        ensures
            match self.spec_cache() {
                None => r matches Ok(ClaimStep::ReadDescriptors),
                Some(t) => match owning_interface(t, endpoint_address) {
                    Some(i) => (r matches Ok(s) && s == ClaimStep::ClaimInterface(i)),
                    None => r matches Err(Error::InvalidEndpoint),
                },
            },
    {
        let tree = match &self.descriptor_cache {
            Some(t) => t,
            None => {
                return Ok(ClaimStep::ReadDescriptors);
            },
        };
        if tree.configurations.len() == 0 {
            return Err(Error::InvalidEndpoint);
        }
        let interfaces = &tree.configurations[0].interfaces;
        let ghost ifs = tree@.configurations[0].interfaces;
        proof {
            assert(self.spec_cache() == Some(tree@));
            assert(tree@.configurations[0] == tree.configurations@[0]@);
        }
        let n = interfaces.len();
        let mut i: usize = 0;
        proof {
            assert(ifs.subrange(0, n as int) =~= ifs);
        }
        while i < n
            invariant
                n == interfaces@.len(),
                ifs == interfaces@.map_values(|t: descriptor::InterfaceTree| t@),
                self.spec_cache() == Some(tree@),
                owning_interface(tree@, endpoint_address) == interface_with_endpoint(ifs, endpoint_address),
                i <= n,
                interface_with_endpoint(ifs, endpoint_address) == interface_with_endpoint(
                    ifs.subrange(i as int, n as int),
                    endpoint_address,
                ),
            decreases n - i,
        {
            let endpoints = &interfaces[i].endpoints;
            let ghost rest = ifs.subrange(i as int, n as int);
            let mut j: usize = 0;
            while j < endpoints.len()
                invariant
                    i < n,
                    self.spec_cache() == Some(tree@),
                    owning_interface(tree@, endpoint_address) == interface_with_endpoint(ifs, endpoint_address),
                    n == interfaces@.len(),
                    ifs == interfaces@.map_values(|t: descriptor::InterfaceTree| t@),
                    rest == ifs.subrange(i as int, n as int),
                    endpoints == &interfaces@[i as int].endpoints,
                    interface_with_endpoint(ifs, endpoint_address) == interface_with_endpoint(
                        rest,
                        endpoint_address,
                    ),
                    j <= endpoints@.len(),
                    rest[0].endpoints == endpoints@,
                    forall|k: int| 0 <= k < j ==> (#[trigger] endpoints@[k]).bEndpointAddress != endpoint_address,
                decreases endpoints@.len() - j,
            {
                if endpoints[j].bEndpointAddress == endpoint_address {
                    proof {
                        assert(rest[0].endpoints[j as int].bEndpointAddress == endpoint_address);
                        assert(rest[0] == interfaces@[i as int]@);
                        assert(interface_with_endpoint(rest, endpoint_address) == Some(
                            rest[0].desc.bInterfaceNumber,
                        ));
                    }
                    return Ok(ClaimStep::ClaimInterface(interfaces[i].desc.bInterfaceNumber));
                }
                j = j + 1;
            }
            proof {
                assert(rest.drop_first() =~= ifs.subrange(i + 1, n as int));
            }
            i = i + 1;
        }
        Err(Error::InvalidEndpoint)
    }

    /// Prepares a bulk read from `endpoint`, which must be an IN endpoint.
    pub fn read_bulk(&self, endpoint: u8, len: usize, timeout_ms: u128) -> (r: Result<BulkSetup>)
        ensures
            endpoint & DIRECTION_IN == 0 ==> r matches Err(Error::InvalidEndpoint),
            endpoint & DIRECTION_IN != 0 ==> (r matches Ok(s) && s == (BulkSetup {
                ep: endpoint as u32,
                len: len as u32,
                timeout: timeout_ms as u32,
            })),
    {
        if endpoint & DIRECTION_IN == 0 {
            return Err(Error::InvalidEndpoint);
        }
        Ok(BulkSetup { ep: endpoint as u32, len: len as u32, timeout: timeout_ms as u32 })
    }

    /// Prepares a bulk write to `endpoint`, which must be an OUT endpoint.
    pub fn write_bulk(&self, endpoint: u8, len: usize, timeout_ms: u128) -> (r: Result<BulkSetup>)
        ensures
            endpoint & DIRECTION_IN != 0 ==> r matches Err(Error::InvalidEndpoint),
            endpoint & DIRECTION_IN == 0 ==> (r matches Ok(s) && s == (BulkSetup {
                ep: endpoint as u32,
                len: len as u32,
                timeout: timeout_ms as u32,
            })),
    {
        if endpoint & DIRECTION_IN != 0 {
            return Err(Error::InvalidEndpoint);
        }
        Ok(BulkSetup { ep: endpoint as u32, len: len as u32, timeout: timeout_ms as u32 })
    }

    /// Prepares an interrupt read; usbdevfs runs it as a bulk transfer.
    pub fn read_interrupt(&self, endpoint: u8, len: usize, timeout_ms: u128) -> (r: Result<
        BulkSetup,
    >)
        ensures
            endpoint & DIRECTION_IN == 0 ==> r matches Err(Error::InvalidEndpoint),
            endpoint & DIRECTION_IN != 0 ==> (r matches Ok(s) && s == (BulkSetup {
                ep: endpoint as u32,
                len: len as u32,
                timeout: timeout_ms as u32,
            })),
    {
        self.read_bulk(endpoint, len, timeout_ms)
    }

    /// Prepares an interrupt write; usbdevfs runs it as a bulk transfer.
    pub fn write_interrupt(&self, endpoint: u8, len: usize, timeout_ms: u128) -> (r: Result<
        BulkSetup,
    >)
        ensures
            endpoint & DIRECTION_IN != 0 ==> r matches Err(Error::InvalidEndpoint),
            endpoint & DIRECTION_IN == 0 ==> (r matches Ok(s) && s == (BulkSetup {
                ep: endpoint as u32,
                len: len as u32,
                timeout: timeout_ms as u32,
            })),
    {
        self.write_bulk(endpoint, len, timeout_ms)
    }

    /// Prepares a device-to-host control transfer; `request_type` must have
    /// its direction bit set.
    pub fn read_control(
        &self,
        request_type: u8,
        request: u8,
        value: u16,
        index: u16,
        len: usize,
        timeout_ms: u128,
    ) -> (r: Result<ControlSetup>)
        ensures
            request_type & DIRECTION_IN == 0 ==> r matches Err(Error::InvalidEndpoint),
            request_type & DIRECTION_IN != 0 ==> (r matches Ok(s) && s == (ControlSetup {
                request_type,
                request,
                value,
                index,
                length: len as u16,
                timeout: timeout_ms as u32,
            })),
    {
        if request_type & DIRECTION_IN == 0 {
            return Err(Error::InvalidEndpoint);
        }
        Ok(
            ControlSetup {
                request_type,
                request,
                value,
                index,
                length: len as u16,
                timeout: timeout_ms as u32,
            },
        )
    }

    /// Prepares a host-to-device control transfer; `request_type` must have
    /// its direction bit clear.
    pub fn write_control(
        &self,
        request_type: u8,
        request: u8,
        value: u16,
        index: u16,
        len: usize,
        timeout_ms: u128,
    ) -> (r: Result<ControlSetup>)
        ensures
            request_type & DIRECTION_IN != 0 ==> r matches Err(Error::InvalidEndpoint),
            request_type & DIRECTION_IN == 0 ==> (r matches Ok(s) && s == (ControlSetup {
                request_type,
                request,
                value,
                index,
                length: len as u16,
                timeout: timeout_ms as u32,
            })),
    {
        if request_type & DIRECTION_IN != 0 {
            return Err(Error::InvalidEndpoint);
        }
        Ok(
            ControlSetup {
                request_type,
                request,
                value,
                index,
                length: len as u16,
                timeout: timeout_ms as u32,
            },
        )
    }
}

} // verus!
