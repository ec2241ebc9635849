use vstd::prelude::*;

verus! {

/// Reads a little-endian 16-bit field from two bytes.
pub open spec fn le16(lo: u8, hi: u8) -> u16 {
    (lo as int + 256 * (hi as int)) as u16
}

fn read_le16(lo: u8, hi: u8) -> (r: u16)
    ensures
        r == le16(lo, hi),
{
    lo as u16 + (hi as u16) * 256
}

/// The standard device descriptor (18 bytes).
#[allow(non_snake_case)]
#[derive(Debug, Clone, Copy, PartialEq, Eq, Structural)]
pub struct DeviceDescriptor {
    pub bLength: u8,
    pub bDescriptorType: u8,
    pub bcdUSB: u16,
    pub bDeviceClass: u8,
    pub bDeviceSubClass: u8,
    pub bDeviceProtocol: u8,
    pub bMaxPacketSize0: u8,
    pub idVendor: u16,
    pub idProduct: u16,
    pub bcdDevice: u16,
    pub iManufacturer: u8,
    pub iProduct: u8,
    pub iSerialNumber: u8,
    pub bNumConfigurations: u8,
}

/// The standard configuration descriptor (9 bytes).
#[allow(non_snake_case)]
#[derive(Debug, Clone, Copy, PartialEq, Eq, Structural)]
pub struct ConfigurationDescriptor {
    pub bLength: u8,
    pub bDescriptorType: u8,
    pub wTotalLength: u16,
    pub bNumInterfaces: u8,
    pub bConfigurationValue: u8,
    pub iConfiguration: u8,
    pub bmAttributes: u8,
    pub MaxPower: u8,
}

/// The standard interface descriptor (9 bytes).
#[allow(non_snake_case)]
#[derive(Debug, Clone, Copy, PartialEq, Eq, Structural)]
pub struct InterfaceDescriptor {
    pub bLength: u8,
    pub bDescriptorType: u8,
    pub bInterfaceNumber: u8,
    pub bAlternateSetting: u8,
    pub bNumEndpoints: u8,
    pub bInterfaceClass: u8,
    pub bInterfaceSubClass: u8,
    pub bInterfaceProtocol: u8,
    pub iInterface: u8,
}

/// The standard endpoint descriptor (7 bytes). Longer endpoint records, such
/// as those of audio endpoints, are read through their first seven bytes.
#[allow(non_snake_case)]
#[derive(Debug, Clone, Copy, PartialEq, Eq, Structural)]
pub struct EndpointDescriptor {
    pub bLength: u8,
    pub bDescriptorType: u8,
    pub bEndpointAddress: u8,
    pub bmAttributes: u8,
    pub wMaxPacketSize: u16,
    pub bInterval: u8,
}

pub const DEVICE_DESCRIPTOR_SIZE: usize = 18;
pub const CONFIGURATION_DESCRIPTOR_SIZE: usize = 9;
pub const INTERFACE_DESCRIPTOR_SIZE: usize = 9;
pub const ENDPOINT_DESCRIPTOR_SIZE: usize = 7;

pub const DEVICE_TYPE: u8 = 1;
pub const CONFIGURATION_TYPE: u8 = 2;
pub const INTERFACE_TYPE: u8 = 4;
pub const ENDPOINT_TYPE: u8 = 5;

/// Why a descriptor buffer was rejected.
#[derive(Debug, Clone, Copy, PartialEq, Eq, Structural)]
pub enum Error {
    InvalidSize,
    InvalidType,
    DeviceWasNotFirst,
    TooManyDevices,
}

impl Error {
    /// A short description of the error.
    pub fn message(&self) -> (r: &'static str) {
        match self {
            Error::InvalidSize => "Invalid size field",
            Error::InvalidType => "Invalid type",
            Error::DeviceWasNotFirst => "The first descriptor was not of type Device",
            Error::TooManyDevices => "Too many device descriptors found",
        }
    }
}

/// One record of a descriptor buffer, decoded according to its type tag.
#[derive(Debug, Clone, Copy, PartialEq, Eq, Structural)]
pub enum AnyDescriptor {
    DeviceDescriptor(DeviceDescriptor),
    ConfigurationDescriptor(ConfigurationDescriptor),
    InterfaceDescriptor(InterfaceDescriptor),
    EndpointDescriptor(EndpointDescriptor),
    Other(u8),
}

/// The device descriptor held in the first 18 bytes of `b`.
pub open spec fn device_from_bytes(b: Seq<u8>) -> DeviceDescriptor {
    DeviceDescriptor {
        bLength: b[0],
        bDescriptorType: b[1],
        bcdUSB: le16(b[2], b[3]),
        bDeviceClass: b[4],
        bDeviceSubClass: b[5],
        bDeviceProtocol: b[6],
        bMaxPacketSize0: b[7],
        idVendor: le16(b[8], b[9]),
        idProduct: le16(b[10], b[11]),
        bcdDevice: le16(b[12], b[13]),
        iManufacturer: b[14],
        iProduct: b[15],
        iSerialNumber: b[16],
        bNumConfigurations: b[17],
    }
}

/// The configuration descriptor held in the first 9 bytes of `b`.
pub open spec fn configuration_from_bytes(b: Seq<u8>) -> ConfigurationDescriptor {
    ConfigurationDescriptor {
        bLength: b[0],
        bDescriptorType: b[1],
        wTotalLength: le16(b[2], b[3]),
        bNumInterfaces: b[4],
        bConfigurationValue: b[5],
        iConfiguration: b[6],
        bmAttributes: b[7],
        MaxPower: b[8],
    }
}

/// The interface descriptor held in the first 9 bytes of `b`.
pub open spec fn interface_from_bytes(b: Seq<u8>) -> InterfaceDescriptor {
    InterfaceDescriptor {
        bLength: b[0],
        bDescriptorType: b[1],
        bInterfaceNumber: b[2],
        bAlternateSetting: b[3],
        bNumEndpoints: b[4],
        bInterfaceClass: b[5],
        bInterfaceSubClass: b[6],
        bInterfaceProtocol: b[7],
        iInterface: b[8],
    }
}

/// The endpoint descriptor held in the first 7 bytes of `b`.
pub open spec fn endpoint_from_bytes(b: Seq<u8>) -> EndpointDescriptor {
    EndpointDescriptor {
        bLength: b[0],
        bDescriptorType: b[1],
        bEndpointAddress: b[2],
        bmAttributes: b[3],
        wMaxPacketSize: le16(b[4], b[5]),
        bInterval: b[6],
    }
}

/// Decodes one record (length byte, type tag, payload) by its type tag. A
/// record of a known type that is shorter than that type's layout is rejected.
pub open spec fn decode_record(r: Seq<u8>) -> Result<AnyDescriptor, Error> {
    let tag = r[1];
    if tag == DEVICE_TYPE {
        if r.len() < DEVICE_DESCRIPTOR_SIZE {
            Err(Error::InvalidSize)
        } else {
            Ok(AnyDescriptor::DeviceDescriptor(device_from_bytes(r)))
        }
    } else if tag == CONFIGURATION_TYPE {
        if r.len() < CONFIGURATION_DESCRIPTOR_SIZE {
            Err(Error::InvalidSize)
        } else {
            Ok(AnyDescriptor::ConfigurationDescriptor(configuration_from_bytes(r)))
        }
    } else if tag == INTERFACE_TYPE {
        if r.len() < INTERFACE_DESCRIPTOR_SIZE {
            Err(Error::InvalidSize)
        } else {
            Ok(AnyDescriptor::InterfaceDescriptor(interface_from_bytes(r)))
        }
    } else if tag == ENDPOINT_TYPE {
        if r.len() < ENDPOINT_DESCRIPTOR_SIZE {
            Err(Error::InvalidSize)
        } else {
            Ok(AnyDescriptor::EndpointDescriptor(endpoint_from_bytes(r)))
        }
    } else {
        Ok(AnyDescriptor::Other(tag))
    }
}

/// Splits `data` into records by their length bytes and decodes each, until
/// fewer than two bytes remain. The first record that is malformed fails the
/// whole buffer.
pub open spec fn parse_records(data: Seq<u8>) -> Result<Seq<AnyDescriptor>, Error>
    decreases data.len(),
{
    if data.len() < 2 {
        Ok(seq![])
    } else {
        let l = data[0] as int;
        if l < 2 || l > data.len() {
            Err(Error::InvalidSize)
        } else {
            match decode_record(data.subrange(0, l)) {
                Err(e) => Err(e),
                Ok(d) => match parse_records(data.subrange(l, data.len() as int)) {
                    Err(e) => Err(e),
                    Ok(rest) => Ok(seq![d] + rest),
                },
            }
        }
    }
}

fn parse_device(b: &[u8]) -> (r: DeviceDescriptor)
    requires
        b@.len() >= DEVICE_DESCRIPTOR_SIZE,
    ensures
        r == device_from_bytes(b@),
{
    DeviceDescriptor {
        bLength: b[0],
        bDescriptorType: b[1],
        bcdUSB: read_le16(b[2], b[3]),
        bDeviceClass: b[4],
        bDeviceSubClass: b[5],
        bDeviceProtocol: b[6],
        bMaxPacketSize0: b[7],
        idVendor: read_le16(b[8], b[9]),
        idProduct: read_le16(b[10], b[11]),
        bcdDevice: read_le16(b[12], b[13]),
        iManufacturer: b[14],
        iProduct: b[15],
        iSerialNumber: b[16],
        bNumConfigurations: b[17],
    }
}

fn parse_configuration(b: &[u8]) -> (r: ConfigurationDescriptor)
    requires
        b@.len() >= CONFIGURATION_DESCRIPTOR_SIZE,
    ensures
        r == configuration_from_bytes(b@),
{
    ConfigurationDescriptor {
        bLength: b[0],
        bDescriptorType: b[1],
        wTotalLength: read_le16(b[2], b[3]),
        bNumInterfaces: b[4],
        bConfigurationValue: b[5],
        iConfiguration: b[6],
        bmAttributes: b[7],
        MaxPower: b[8],
    }
}

fn parse_interface(b: &[u8]) -> (r: InterfaceDescriptor)
    requires
        b@.len() >= INTERFACE_DESCRIPTOR_SIZE,
    ensures
        r == interface_from_bytes(b@),
{
    InterfaceDescriptor {
        bLength: b[0],
        bDescriptorType: b[1],
        bInterfaceNumber: b[2],
        bAlternateSetting: b[3],
        bNumEndpoints: b[4],
        bInterfaceClass: b[5],
        bInterfaceSubClass: b[6],
        bInterfaceProtocol: b[7],
        iInterface: b[8],
    }
}

fn parse_endpoint(b: &[u8]) -> (r: EndpointDescriptor)
    requires
        b@.len() >= ENDPOINT_DESCRIPTOR_SIZE,
    ensures
        r == endpoint_from_bytes(b@),
{
    EndpointDescriptor {
        bLength: b[0],
        bDescriptorType: b[1],
        bEndpointAddress: b[2],
        bmAttributes: b[3],
        wMaxPacketSize: read_le16(b[4], b[5]),
        bInterval: b[6],
    }
}

/// Decodes one record by its type tag.
pub fn parse_descriptor(record: &[u8]) -> (r: Result<AnyDescriptor, Error>)
    requires
        record@.len() >= 2,
    ensures
        r == decode_record(record@),
{
    let tag = record[1];
    let len = record.len();
    if tag == DEVICE_TYPE {
        if len < DEVICE_DESCRIPTOR_SIZE {
            Err(Error::InvalidSize)
        } else {
            Ok(AnyDescriptor::DeviceDescriptor(parse_device(record)))
        }
    } else if tag == CONFIGURATION_TYPE {
        if len < CONFIGURATION_DESCRIPTOR_SIZE {
            Err(Error::InvalidSize)
        } else {
            Ok(AnyDescriptor::ConfigurationDescriptor(parse_configuration(record)))
        }
    } else if tag == INTERFACE_TYPE {
        if len < INTERFACE_DESCRIPTOR_SIZE {
            Err(Error::InvalidSize)
        } else {
            Ok(AnyDescriptor::InterfaceDescriptor(parse_interface(record)))
        }
    } else if tag == ENDPOINT_TYPE {
        if len < ENDPOINT_DESCRIPTOR_SIZE {
            Err(Error::InvalidSize)
        } else {
            Ok(AnyDescriptor::EndpointDescriptor(parse_endpoint(record)))
        }
    } else {
        Ok(AnyDescriptor::Other(tag))
    }
}

/// Prepends `front` to the records of a successful parse.
pub open spec fn prepend_records(
    front: Seq<AnyDescriptor>,
    rest: Result<Seq<AnyDescriptor>, Error>,
) -> Result<Seq<AnyDescriptor>, Error> {
    match rest {
        Ok(s) => Ok(front + s),
        Err(e) => Err(e),
    }
}

/// Splits a descriptor buffer into decoded records.
pub fn byte_array_to_descriptors(data: &[u8]) -> (r: Result<Vec<AnyDescriptor>, Error>)
    ensures
        match r {
            Ok(v) => parse_records(data@) == Ok::<Seq<AnyDescriptor>, Error>(v@),
            Err(e) => parse_records(data@) == Err::<Seq<AnyDescriptor>, Error>(e),
        },
{
    let mut result: Vec<AnyDescriptor> = Vec::new();
    let mut pos: usize = 0;
    let n = data.len();
    proof {
        assert(data@.subrange(0, n as int) =~= data@);
    }
    while n - pos >= 2
        invariant
            n == data@.len(),
            pos <= n,
            parse_records(data@) == prepend_records(
                result@,
                parse_records(data@.subrange(pos as int, n as int)),
            ),
        decreases n - pos,
    {
        let rest = Ghost(data@.subrange(pos as int, n as int));
        let l = data[pos] as usize;
        if l < 2 || l > n - pos {
            return Err(Error::InvalidSize);
        }
        let record = &data[pos..pos + l];
        proof {
            assert(record@ =~= rest@.subrange(0, l as int));
            assert(data@.subrange((pos + l) as int, n as int) =~= rest@.subrange(
                l as int,
                rest@.len() as int,
            ));
        }
        let d = parse_descriptor(record);
        match d {
            Err(e) => {
                return Err(e);
            },
            Ok(d) => {
                proof {
                    let tail = parse_records(data@.subrange((pos + l) as int, n as int));
                    match tail {
                        Ok(t) => {
                            assert(result@ + (seq![d] + t) =~= result@.push(d) + t);
                        },
                        Err(_) => {},
                    }
                }
                result.push(d);
                pos = pos + l;
            },
        }
    }
    proof {
        assert(parse_records(data@.subrange(pos as int, n as int)) == Ok::<
            Seq<AnyDescriptor>,
            Error,
        >(seq![]));
        assert(result@ + seq![] =~= result@);
    }
    Ok(result)
}

/// The kinds of record that anchor a group of the tree.
#[derive(Debug, Clone, Copy, PartialEq, Eq, Structural)]
pub enum DescriptorKind {
    Device,
    Configuration,
    Interface,
    Endpoint,
}

/// Whether `d` is a record of kind `k`.
pub open spec fn is_kind(d: AnyDescriptor, k: DescriptorKind) -> bool {
    match k {
        DescriptorKind::Device => d is DeviceDescriptor,
        DescriptorKind::Configuration => d is ConfigurationDescriptor,
        DescriptorKind::Interface => d is InterfaceDescriptor,
        DescriptorKind::Endpoint => d is EndpointDescriptor,
    }
}

fn has_kind(d: &AnyDescriptor, k: DescriptorKind) -> (r: bool)
    ensures
        r == is_kind(*d, k),
{
    match k {
        DescriptorKind::Device => matches!(d, AnyDescriptor::DeviceDescriptor(_)),
        DescriptorKind::Configuration => matches!(d, AnyDescriptor::ConfigurationDescriptor(_)),
        DescriptorKind::Interface => matches!(d, AnyDescriptor::InterfaceDescriptor(_)),
        DescriptorKind::Endpoint => matches!(d, AnyDescriptor::EndpointDescriptor(_)),
    }
}

/// The groups of `ds` anchored at its records of kind `k`, as index ranges
/// `(start, end)`: one per such record, in order, each running from that
/// record up to the next one or to the end. Records before the first anchor
/// belong to no group.
pub open spec fn split_ranges(ds: Seq<AnyDescriptor>, k: DescriptorKind) -> Seq<(int, int)>
    decreases ds.len(),
{
    if ds.len() == 0 {
        seq![]
    } else {
        let n = ds.len() as int;
        let prev = split_ranges(ds.drop_last(), k);
        if is_kind(ds.last(), k) {
            prev.push((n - 1, n))
        } else if prev.len() == 0 {
            prev
        } else {
            prev.update(prev.len() - 1, (prev.last().0, n))
        }
    }
}

/// The ranges of `split_ranges` tile the part of `ds` from its first anchor
/// on: each starts at an anchor, holds no other, and ends where the next
/// starts; the last ends at the end of `ds`; every anchor starts a range.
pub proof fn lemma_split_ranges(ds: Seq<AnyDescriptor>, k: DescriptorKind)
    ensures
        ({
            let r = split_ranges(ds, k);
            &&& forall|i: int| 0 <= i < r.len() ==> 0 <= #[trigger] r[i].0 < r[i].1 <= ds.len()
            &&& forall|i: int| 0 <= i < r.len() ==> is_kind(ds[#[trigger] r[i].0], k)
            &&& forall|i: int, j: int|
                0 <= i < r.len() && #[trigger] r[i].0 < j < r[i].1 ==> !is_kind(#[trigger] ds[j], k)
            &&& forall|i: int| 0 <= i < r.len() - 1 ==> #[trigger] r[i].1 == r[i + 1].0
            &&& r.len() > 0 ==> r.last().1 == ds.len()
            &&& forall|j: int|
                0 <= j < ds.len() && is_kind(#[trigger] ds[j], k) ==> exists|i: int|
                    0 <= i < r.len() && #[trigger] r[i].0 == j
        }),
    decreases ds.len(),
{
    if ds.len() > 0 {
        let p = ds.drop_last();
        lemma_split_ranges(p, k);
        let r = split_ranges(ds, k);
        let q = split_ranges(p, k);
        assert forall|j: int| 0 <= j < ds.len() && is_kind(#[trigger] ds[j], k) implies exists|i: int|
            0 <= i < r.len() && #[trigger] r[i].0 == j by {
            if j < ds.len() - 1 {
                assert(is_kind(p[j], k));
                let i = choose|i: int| 0 <= i < q.len() && #[trigger] q[i].0 == j;
                assert(r[i].0 == j);
            } else {
                assert(r[r.len() - 1].0 == j);
            }
        }
    }
}

/// Finds the groups of `descriptors` anchored at its records of kind `k`.
pub fn split_by_parent_desc(descriptors: &[AnyDescriptor], k: DescriptorKind) -> (r: Vec<
    (usize, usize),
>)
    ensures
        r@.len() == split_ranges(descriptors@, k).len(),
        forall|i: int|
            0 <= i < r@.len() ==> (#[trigger] r@[i]).0 == split_ranges(descriptors@, k)[i].0
                && r@[i].1 == split_ranges(descriptors@, k)[i].1,
        forall|i: int|
            0 <= i < r@.len() ==> (#[trigger] r@[i]).0 < r@[i].1 <= descriptors@.len()
                && is_kind(descriptors@[r@[i].0 as int], k),
        forall|i: int, j: int|
            0 <= i < r@.len() && (#[trigger] r@[i]).0 < j < r@[i].1 ==> !is_kind(
                #[trigger] descriptors@[j],
                k,
            ),
        forall|i: int| 0 <= i < r@.len() - 1 ==> (#[trigger] r@[i]).1 == r@[i + 1].0,
        r@.len() > 0 ==> r@.last().1 == descriptors@.len(),
        forall|j: int|
            0 <= j < descriptors@.len() && is_kind(#[trigger] descriptors@[j], k) ==> exists|i: int|
                0 <= i < r@.len() && #[trigger] r@[i].0 == j,
{
    let mut result: Vec<(usize, usize)> = Vec::new();
    let n = descriptors.len();
    let mut i: usize = 0;
    while i < n
        invariant
            n == descriptors@.len(),
            i <= n,
            result@.len() == split_ranges(descriptors@.subrange(0, i as int), k).len(),
            forall|j: int|
                0 <= j < result@.len() ==> (#[trigger] result@[j]).0 == split_ranges(
                    descriptors@.subrange(0, i as int),
                    k,
                )[j].0 && result@[j].1 == split_ranges(descriptors@.subrange(0, i as int), k)[j].1,
        decreases n - i,
    {
        proof {
            let s = descriptors@.subrange(0, i + 1);
            assert(s.drop_last() =~= descriptors@.subrange(0, i as int));
            assert(s.last() == descriptors@[i as int]);
        }
        if has_kind(&descriptors[i], k) {
            result.push((i, i + 1));
        } else if result.len() > 0 {
            let last = result.len() - 1;
            let start = result[last].0;
            result.set(last, (start, i + 1));
        }
        i = i + 1;
    }
    proof {
        assert(descriptors@.subrange(0, n as int) =~= descriptors@);
        lemma_split_ranges(descriptors@, k);
        let g = split_ranges(descriptors@, k);
        assert forall|j: int|
            0 <= j < descriptors@.len() && is_kind(#[trigger] descriptors@[j], k) implies exists|i: int|
                0 <= i < result@.len() && #[trigger] result@[i].0 == j by {
            let i = choose|i: int| 0 <= i < g.len() && #[trigger] g[i].0 == j;
            assert(result@[i].0 == j);
        }
    }
    result
}

/// A device, its configurations, their interfaces and those interfaces'
/// endpoints, each list in the order of the descriptor buffer.
#[derive(Debug, Clone)]
pub struct DeviceTree {
    pub desc: DeviceDescriptor,
    pub configurations: Vec<ConfigurationTree>,
}

/// A configuration and its interfaces, in buffer order.
#[derive(Debug, Clone)]
pub struct ConfigurationTree {
    pub desc: ConfigurationDescriptor,
    pub interfaces: Vec<InterfaceTree>,
}

/// An interface and its endpoints, in buffer order.
#[derive(Debug, Clone)]
pub struct InterfaceTree {
    pub desc: InterfaceDescriptor,
    pub endpoints: Vec<EndpointDescriptor>,
}

/// What a `DeviceTree` holds, as mathematical sequences.
pub struct DeviceTreeView {
    pub desc: DeviceDescriptor,
    pub configurations: Seq<ConfigurationTreeView>,
}

/// What a `ConfigurationTree` holds, as mathematical sequences.
pub struct ConfigurationTreeView {
    pub desc: ConfigurationDescriptor,
    pub interfaces: Seq<InterfaceTreeView>,
}

/// What an `InterfaceTree` holds, as mathematical sequences.
pub struct InterfaceTreeView {
    pub desc: InterfaceDescriptor,
    pub endpoints: Seq<EndpointDescriptor>,
}

impl View for InterfaceTree {
    type V = InterfaceTreeView;

    open spec fn view(&self) -> InterfaceTreeView {
        InterfaceTreeView { desc: self.desc, endpoints: self.endpoints@ }
    }
}

impl View for ConfigurationTree {
    type V = ConfigurationTreeView;

    open spec fn view(&self) -> ConfigurationTreeView {
        ConfigurationTreeView {
            desc: self.desc,
            interfaces: self.interfaces@.map_values(|t: InterfaceTree| t@),
        }
    }
}

impl View for DeviceTree {
    type V = DeviceTreeView;

    open spec fn view(&self) -> DeviceTreeView {
        DeviceTreeView {
            desc: self.desc,
            configurations: self.configurations@.map_values(|t: ConfigurationTree| t@),
        }
    }
}

/// The endpoint records of `ds`, in order.
pub open spec fn endpoints_of(ds: Seq<AnyDescriptor>) -> Seq<EndpointDescriptor>
    decreases ds.len(),
{
    if ds.len() == 0 {
        seq![]
    } else {
        let prev = endpoints_of(ds.drop_last());
        match ds.last() {
            AnyDescriptor::EndpointDescriptor(e) => prev.push(e),
            _ => prev,
        }
    }
}

/// The interface `desc` with the endpoints among the records `ds` of its group.
pub open spec fn interface_tree_of(desc: InterfaceDescriptor, ds: Seq<AnyDescriptor>) -> InterfaceTreeView {
    InterfaceTreeView { desc, endpoints: endpoints_of(ds) }
}

/// The interfaces among the records `ds`, each with the group it anchors.
pub open spec fn interface_trees_of(ds: Seq<AnyDescriptor>) -> Seq<InterfaceTreeView> {
    split_ranges(ds, DescriptorKind::Interface).map_values(
        |g: (int, int)|
            interface_tree_of(ds[g.0]->InterfaceDescriptor_0, ds.subrange(g.0, g.1)),
    )
}

/// The configuration `desc` with the interfaces among the records `ds` of its group.
pub open spec fn configuration_tree_of(
    desc: ConfigurationDescriptor,
    ds: Seq<AnyDescriptor>,
) -> ConfigurationTreeView {
    ConfigurationTreeView { desc, interfaces: interface_trees_of(ds) }
}

/// The configurations among the records `ds`, each with the group it anchors.
pub open spec fn configuration_trees_of(ds: Seq<AnyDescriptor>) -> Seq<ConfigurationTreeView> {
    split_ranges(ds, DescriptorKind::Configuration).map_values(
        |g: (int, int)|
            configuration_tree_of(ds[g.0]->ConfigurationDescriptor_0, ds.subrange(g.0, g.1)),
    )
}

/// The number of device records in `ds`.
pub open spec fn device_count(ds: Seq<AnyDescriptor>) -> nat
    decreases ds.len(),
{
    if ds.len() == 0 {
        0
    } else {
        device_count(ds.drop_last()) + if ds.last() is DeviceDescriptor {
            1nat
        } else {
            0nat
        }
    }
}

/// The tree that the records `ds` describe: they must be non-empty, hold one
/// device record only, and start with it.
pub open spec fn tree_of_records(ds: Seq<AnyDescriptor>) -> Result<DeviceTreeView, Error> {
    if ds.len() == 0 {
        Err(Error::InvalidSize)
    } else if device_count(ds) > 1 {
        Err(Error::TooManyDevices)
    } else {
        match ds[0] {
            AnyDescriptor::DeviceDescriptor(d) => Ok(
                DeviceTreeView { desc: d, configurations: configuration_trees_of(ds) },
            ),
            _ => Err(Error::DeviceWasNotFirst),
        }
    }
}

/// The tree that the descriptor buffer `data` describes.
pub open spec fn tree_of(data: Seq<u8>) -> Result<DeviceTreeView, Error> {
    match parse_records(data) {
        Err(e) => Err(e),
        Ok(ds) => tree_of_records(ds),
    }
}

impl InterfaceTree {
    /// Builds an interface from its descriptor and the records of its group,
    /// keeping the endpoint records among them.
    pub fn from_descriptors(desc: InterfaceDescriptor, descriptors: &[AnyDescriptor]) -> (r: Result<
        Self,
        Error,
    >)
        ensures
            r is Ok,
            r matches Ok(t) ==> t@ == interface_tree_of(desc, descriptors@),
    {
        let mut endpoints: Vec<EndpointDescriptor> = Vec::new();
        let n = descriptors.len();
        let mut i: usize = 0;
        while i < n
            invariant
                n == descriptors@.len(),
                i <= n,
                endpoints@ == endpoints_of(descriptors@.subrange(0, i as int)),
            decreases n - i,
        {
            proof {
                let s = descriptors@.subrange(0, i + 1);
                assert(s.drop_last() =~= descriptors@.subrange(0, i as int));
                assert(s.last() == descriptors@[i as int]);
            }
            match &descriptors[i] {
                AnyDescriptor::EndpointDescriptor(e) => {
                    endpoints.push(*e);
                },
                _ => {},
            }
            i = i + 1;
        }
        proof {
            assert(descriptors@.subrange(0, n as int) =~= descriptors@);
        }
        Ok(InterfaceTree { desc, endpoints })
    }
}

impl ConfigurationTree {
    /// Builds a configuration from its descriptor and the records of its
    /// group, grouping them by interface.
    pub fn from_descriptors(desc: ConfigurationDescriptor, descriptors: &[AnyDescriptor]) -> (r:
        Result<Self, Error>)
        ensures
            r is Ok,
            r matches Ok(t) ==> t@ == configuration_tree_of(desc, descriptors@),
    {
        let ranges = split_by_parent_desc(descriptors, DescriptorKind::Interface);
        let ghost groups = split_ranges(descriptors@, DescriptorKind::Interface);
        let ghost want = interface_trees_of(descriptors@);
        proof {
            lemma_split_ranges(descriptors@, DescriptorKind::Interface);
        }
        let mut interfaces: Vec<InterfaceTree> = Vec::new();
        let mut i: usize = 0;
        while i < ranges.len()
            invariant
                i <= ranges@.len(),
                ranges@.len() == groups.len(),
                groups == split_ranges(descriptors@, DescriptorKind::Interface),
                want == interface_trees_of(descriptors@),
                forall|j: int|
                    0 <= j < ranges@.len() ==> (#[trigger] ranges@[j]).0 == groups[j].0
                        && ranges@[j].1 == groups[j].1,
                forall|j: int|
                    0 <= j < groups.len() ==> 0 <= #[trigger] groups[j].0 < groups[j].1
                        <= descriptors@.len(),
                forall|j: int|
                    0 <= j < groups.len() ==> is_kind(
                        descriptors@[#[trigger] groups[j].0],
                        DescriptorKind::Interface,
                    ),
                interfaces@.len() == i,
                forall|j: int| 0 <= j < i ==> (#[trigger] interfaces@[j])@ == want[j],
            decreases ranges@.len() - i,
        {
            let (start, end) = ranges[i];
            proof {
                assert(groups[i as int].0 == start);
            }
            match &descriptors[start] {
                AnyDescriptor::InterfaceDescriptor(d) => {
                    let t = InterfaceTree::from_descriptors(*d, &descriptors[start..end]);
                    match t {
                        Ok(t) => {
                            interfaces.push(t);
                        },
                        Err(e) => {
                            return Err(e);
                        },
                    }
                },
                _ => {
                    return Err(Error::InvalidType);
                },
            }
            i = i + 1;
        }
        let r = ConfigurationTree { desc, interfaces };
        proof {
            assert(r@.interfaces =~= want);
        }
        Ok(r)
    }
}

impl DeviceTree {
    /// Parses a descriptor buffer into the tree it describes.
    pub fn from_byte_array(data: &[u8]) -> (r: Result<Self, Error>)
        ensures
            match r {
                Ok(t) => tree_of(data@) == Ok::<DeviceTreeView, Error>(t@),
                Err(e) => tree_of(data@) == Err::<DeviceTreeView, Error>(e),
            },
    {
        let descriptors = match byte_array_to_descriptors(data) {
            Ok(v) => v,
            Err(e) => {
                return Err(e);
            },
        };
        let ghost ds = descriptors@;
        if descriptors.len() == 0 {
            return Err(Error::InvalidSize);
        }
        let n = descriptors.len();
        let mut devices: usize = 0;
        let mut i: usize = 0;
        while i < n
            invariant
                n == ds.len(),
                ds == descriptors@,
                i <= n,
                devices == device_count(ds.subrange(0, i as int)),
                devices <= i,
            decreases n - i,
        {
            proof {
                let s = ds.subrange(0, i + 1);
                assert(s.drop_last() =~= ds.subrange(0, i as int));
                assert(s.last() == ds[i as int]);
            }
            if has_kind(&descriptors[i], DescriptorKind::Device) {
                devices = devices + 1;
            }
            i = i + 1;
        }
        proof {
            assert(ds.subrange(0, n as int) =~= ds);
        }
        if devices > 1 {
            return Err(Error::TooManyDevices);
        }
        let desc = match &descriptors[0] {
            AnyDescriptor::DeviceDescriptor(d) => *d,
            _ => {
                return Err(Error::DeviceWasNotFirst);
            },
        };
        let ranges = split_by_parent_desc(descriptors.as_slice(), DescriptorKind::Configuration);
        let ghost groups = split_ranges(ds, DescriptorKind::Configuration);
        let ghost want = configuration_trees_of(ds);
        proof {
            lemma_split_ranges(ds, DescriptorKind::Configuration);
        }
        let mut configurations: Vec<ConfigurationTree> = Vec::new();
        let mut i: usize = 0;
        while i < ranges.len()
            invariant
                ds == descriptors@,
                i <= ranges@.len(),
                ranges@.len() == groups.len(),
                groups == split_ranges(ds, DescriptorKind::Configuration),
                want == configuration_trees_of(ds),
                forall|j: int|
                    0 <= j < ranges@.len() ==> (#[trigger] ranges@[j]).0 == groups[j].0
                        && ranges@[j].1 == groups[j].1,
                forall|j: int|
                    0 <= j < groups.len() ==> 0 <= #[trigger] groups[j].0 < groups[j].1
                        <= ds.len(),
                forall|j: int|
                    0 <= j < groups.len() ==> is_kind(
                        ds[#[trigger] groups[j].0],
                        DescriptorKind::Configuration,
                    ),
                configurations@.len() == i,
                forall|j: int| 0 <= j < i ==> (#[trigger] configurations@[j])@ == want[j],
            decreases ranges@.len() - i,
        {
            let (start, end) = ranges[i];
            proof {
                assert(groups[i as int].0 == start);
            }
            match &descriptors[start] {
                AnyDescriptor::ConfigurationDescriptor(d) => {
                    let t = ConfigurationTree::from_descriptors(
                        *d,
                        &descriptors.as_slice()[start..end],
                    );
                    match t {
                        Ok(t) => {
                            configurations.push(t);
                        },
                        Err(e) => {
                            return Err(e);
                        },
                    }
                },
                _ => {
                    return Err(Error::InvalidType);
                },
            }
            i = i + 1;
        }
        let r = DeviceTree { desc, configurations };
        proof {
            assert(r@.configurations =~= want);
        }
        Ok(r)
    }
}

} // verus!
