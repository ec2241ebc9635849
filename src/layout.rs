//! How a well-formed descriptor buffer is laid out, and what the parser makes
//! of such buffers and of malformed ones.
use vstd::prelude::*;

use crate::descriptor::{
    configuration_from_bytes, configuration_trees_of, decode_record, device_count,
    device_from_bytes, endpoint_from_bytes, endpoints_of, interface_from_bytes,
    interface_trees_of, is_kind, le16, lemma_split_ranges, parse_records, prepend_records,
    split_ranges, tree_of, tree_of_records, AnyDescriptor, ConfigurationDescriptor,
    ConfigurationTreeView, DescriptorKind, DeviceDescriptor, DeviceTreeView, EndpointDescriptor,
    Error, InterfaceDescriptor, InterfaceTreeView, CONFIGURATION_DESCRIPTOR_SIZE, CONFIGURATION_TYPE,
};

verus! {

pub open spec fn low_byte(v: u16) -> u8 {
    (v % 256) as u8
}

pub open spec fn high_byte(v: u16) -> u8 {
    (v / 256) as u8
}

/// The bytes of a device descriptor.
pub open spec fn device_bytes(d: DeviceDescriptor) -> Seq<u8> {
    seq![
        d.bLength, d.bDescriptorType, low_byte(d.bcdUSB), high_byte(d.bcdUSB),
        d.bDeviceClass, d.bDeviceSubClass, d.bDeviceProtocol, d.bMaxPacketSize0,
        low_byte(d.idVendor), high_byte(d.idVendor), low_byte(d.idProduct),
        high_byte(d.idProduct), low_byte(d.bcdDevice), high_byte(d.bcdDevice),
        d.iManufacturer, d.iProduct, d.iSerialNumber, d.bNumConfigurations,
    ]
}

/// The bytes of a configuration descriptor.
pub open spec fn configuration_bytes(d: ConfigurationDescriptor) -> Seq<u8> {
    seq![
        d.bLength, d.bDescriptorType, low_byte(d.wTotalLength), high_byte(d.wTotalLength),
        d.bNumInterfaces, d.bConfigurationValue, d.iConfiguration, d.bmAttributes, d.MaxPower,
    ]
}

/// The bytes of an interface descriptor.
pub open spec fn interface_bytes(d: InterfaceDescriptor) -> Seq<u8> {
    seq![
        d.bLength, d.bDescriptorType, d.bInterfaceNumber, d.bAlternateSetting,
        d.bNumEndpoints, d.bInterfaceClass, d.bInterfaceSubClass, d.bInterfaceProtocol,
        d.iInterface,
    ]
}

/// The bytes of an endpoint descriptor.
pub open spec fn endpoint_bytes(d: EndpointDescriptor) -> Seq<u8> {
    seq![
        d.bLength, d.bDescriptorType, d.bEndpointAddress, d.bmAttributes,
        low_byte(d.wMaxPacketSize), high_byte(d.wMaxPacketSize), d.bInterval,
    ]
}

/// The bytes of a record; an unrecognized one is written as its bare header.
pub open spec fn record_bytes(d: AnyDescriptor) -> Seq<u8> {
    match d {
        AnyDescriptor::DeviceDescriptor(x) => device_bytes(x),
        AnyDescriptor::ConfigurationDescriptor(x) => configuration_bytes(x),
        AnyDescriptor::InterfaceDescriptor(x) => interface_bytes(x),
        AnyDescriptor::EndpointDescriptor(x) => endpoint_bytes(x),
        AnyDescriptor::Other(tag) => seq![2u8, tag],
    }
}

/// A record whose length and type fields are those of its layout.
pub open spec fn well_formed_record(d: AnyDescriptor) -> bool {
    match d {
        AnyDescriptor::DeviceDescriptor(x) => x.bLength == 18 && x.bDescriptorType == 1,
        AnyDescriptor::ConfigurationDescriptor(x) => x.bLength == 9 && x.bDescriptorType == 2,
        AnyDescriptor::InterfaceDescriptor(x) => x.bLength == 9 && x.bDescriptorType == 4,
        AnyDescriptor::EndpointDescriptor(x) => x.bLength == 7 && x.bDescriptorType == 5,
        AnyDescriptor::Other(tag) => tag != 1 && tag != 2 && tag != 4 && tag != 5,
    }
}

/// The concatenated bytes of a sequence of records.
pub open spec fn records_bytes(rs: Seq<AnyDescriptor>) -> Seq<u8>
    decreases rs.len(),
{
    if rs.len() == 0 {
        seq![]
    } else {
        record_bytes(rs[0]) + records_bytes(rs.drop_first())
    }
}

/// The records of an interface: its descriptor, then its endpoints.
pub open spec fn interface_records(t: InterfaceTreeView) -> Seq<AnyDescriptor> {
    seq![AnyDescriptor::InterfaceDescriptor(t.desc)] + t.endpoints.map_values(
        |e: EndpointDescriptor| AnyDescriptor::EndpointDescriptor(e),
    )
}

pub open spec fn interfaces_records(ts: Seq<InterfaceTreeView>) -> Seq<AnyDescriptor>
    decreases ts.len(),
{
    if ts.len() == 0 {
        seq![]
    } else {
        interfaces_records(ts.drop_last()) + interface_records(ts.last())
    }
}

/// The records of a configuration: its descriptor, then its interfaces.
pub open spec fn configuration_records(t: ConfigurationTreeView) -> Seq<AnyDescriptor> {
    seq![AnyDescriptor::ConfigurationDescriptor(t.desc)] + interfaces_records(t.interfaces)
}

pub open spec fn configurations_records(ts: Seq<ConfigurationTreeView>) -> Seq<AnyDescriptor>
    decreases ts.len(),
{
    if ts.len() == 0 {
        seq![]
    } else {
        configurations_records(ts.drop_last()) + configuration_records(ts.last())
    }
}

/// The records of a device tree: the device, then its configurations.
pub open spec fn tree_records(t: DeviceTreeView) -> Seq<AnyDescriptor> {
    seq![AnyDescriptor::DeviceDescriptor(t.desc)] + configurations_records(t.configurations)
}

/// The descriptor buffer of a device tree.
pub open spec fn tree_bytes(t: DeviceTreeView) -> Seq<u8> {
    records_bytes(tree_records(t))
}

pub open spec fn well_formed_interface(t: InterfaceTreeView) -> bool {
    &&& well_formed_record(AnyDescriptor::InterfaceDescriptor(t.desc))
    &&& forall|i: int|
        0 <= i < t.endpoints.len() ==> well_formed_record(
            AnyDescriptor::EndpointDescriptor(#[trigger] t.endpoints[i]),
        )
}

pub open spec fn well_formed_configuration(t: ConfigurationTreeView) -> bool {
    &&& well_formed_record(AnyDescriptor::ConfigurationDescriptor(t.desc))
    &&& forall|i: int| 0 <= i < t.interfaces.len() ==> well_formed_interface(#[trigger] t.interfaces[i])
}

/// A tree whose every descriptor has the length and type fields of its layout.
pub open spec fn well_formed_tree(t: DeviceTreeView) -> bool {
    &&& well_formed_record(AnyDescriptor::DeviceDescriptor(t.desc))
    &&& forall|i: int|
        0 <= i < t.configurations.len() ==> well_formed_configuration(#[trigger] t.configurations[i])
}

proof fn lemma_le16_bytes(v: u16)
    ensures
        le16(low_byte(v), high_byte(v)) == v,
{
}

/// A well-formed record decodes to itself.
pub proof fn lemma_decode_record_bytes(d: AnyDescriptor)
    requires
        well_formed_record(d),
    ensures
        record_bytes(d).len() >= 2,
        record_bytes(d)[0] as int == record_bytes(d).len(),
        decode_record(record_bytes(d)) == Ok::<AnyDescriptor, Error>(d),
{
    match d {
        AnyDescriptor::DeviceDescriptor(x) => {
            lemma_le16_bytes(x.bcdUSB);
            lemma_le16_bytes(x.idVendor);
            lemma_le16_bytes(x.idProduct);
            lemma_le16_bytes(x.bcdDevice);
            assert(device_from_bytes(record_bytes(d)) == x);
        },
        AnyDescriptor::ConfigurationDescriptor(x) => {
            lemma_le16_bytes(x.wTotalLength);
            assert(configuration_from_bytes(record_bytes(d)) == x);
        },
        AnyDescriptor::InterfaceDescriptor(x) => {
            assert(interface_from_bytes(record_bytes(d)) == x);
        },
        AnyDescriptor::EndpointDescriptor(x) => {
            lemma_le16_bytes(x.wMaxPacketSize);
            assert(endpoint_from_bytes(record_bytes(d)) == x);
        },
        AnyDescriptor::Other(_) => {},
    }
}

/// Scanning the bytes of well-formed records, followed by anything, yields
/// those records and then whatever the rest yields.
pub proof fn lemma_parse_records_prefix(rs: Seq<AnyDescriptor>, rest: Seq<u8>)
    requires
        forall|i: int| 0 <= i < rs.len() ==> well_formed_record(#[trigger] rs[i]),
    ensures
        parse_records(records_bytes(rs) + rest) == prepend_records(rs, parse_records(rest)),
    decreases rs.len(),
{
    if rs.len() == 0 {
        assert(records_bytes(rs) + rest =~= rest);
        match parse_records(rest) {
            Ok(t) => {
                assert(rs + t =~= t);
            },
            Err(_) => {},
        }
    } else {
        let d = rs[0];
        let tail = rs.drop_first();
        assert forall|i: int| 0 <= i < tail.len() implies well_formed_record(#[trigger] tail[i]) by {
            assert(tail[i] == rs[i + 1]);
        }
        lemma_parse_records_prefix(tail, rest);
        lemma_decode_record_bytes(d);
        let data = records_bytes(rs) + rest;
        let rb = record_bytes(d);
        let l = rb.len() as int;
        assert(data =~= rb + (records_bytes(tail) + rest));
        assert(data.subrange(0, l) =~= rb);
        assert(data.subrange(l, data.len() as int) =~= records_bytes(tail) + rest);
        match parse_records(rest) {
            Ok(t) => {
                assert(seq![d] + (tail + t) =~= rs + t);
            },
            Err(_) => {},
        }
    }
}

pub open spec fn shift_ranges(gs: Seq<(int, int)>, by: int) -> Seq<(int, int)> {
    gs.map_values(|g: (int, int)| (g.0 + by, g.1 + by))
}

/// Records with no anchor of kind `k` form no group.
pub proof fn lemma_split_none(ds: Seq<AnyDescriptor>, k: DescriptorKind)
    requires
        forall|i: int| 0 <= i < ds.len() ==> !is_kind(#[trigger] ds[i], k),
    ensures
        split_ranges(ds, k) == Seq::<(int, int)>::empty(),
    decreases ds.len(),
{
    if ds.len() > 0 {
        let p = ds.drop_last();
        assert forall|i: int| 0 <= i < p.len() implies !is_kind(#[trigger] p[i], k) by {
            assert(p[i] == ds[i]);
        }
        lemma_split_none(p, k);
    }
}

/// Records that start with an anchor of kind `k` and hold no other form one group.
pub proof fn lemma_split_single(ds: Seq<AnyDescriptor>, k: DescriptorKind)
    requires
        ds.len() > 0,
        is_kind(ds[0], k),
        forall|i: int| 0 < i < ds.len() ==> !is_kind(#[trigger] ds[i], k),
    ensures
        split_ranges(ds, k) == seq![(0int, ds.len() as int)],
    decreases ds.len(),
{
    let p = ds.drop_last();
    if ds.len() == 1 {
        lemma_split_none(p, k);
        assert(split_ranges(ds, k) =~= seq![(0int, 1int)]);
    } else {
        assert forall|i: int| 0 < i < p.len() implies !is_kind(#[trigger] p[i], k) by {
            assert(p[i] == ds[i]);
        }
        lemma_split_single(p, k);
        assert(split_ranges(ds, k) =~= seq![(0int, ds.len() as int)]);
    }
}

/// The groups of `a + b`, where `b` starts with an anchor, are those of `a`
/// followed by those of `b`.
pub proof fn lemma_split_concat(a: Seq<AnyDescriptor>, b: Seq<AnyDescriptor>, k: DescriptorKind)
    requires
        b.len() > 0,
        is_kind(b[0], k),
    ensures
        split_ranges(a + b, k) == split_ranges(a, k) + shift_ranges(split_ranges(b, k), a.len() as int),
    decreases b.len(),
{
    let n = a.len() as int;
    let ab = a + b;
    let bp = b.drop_last();
    assert(ab.drop_last() =~= a + bp);
    assert(ab.last() == b.last());
    if b.len() == 1 {
        lemma_split_none(bp, k);
        assert(a + bp =~= a);
        assert(split_ranges(b, k) =~= seq![(0int, 1int)]);
        assert(split_ranges(ab, k) =~= split_ranges(a, k) + shift_ranges(split_ranges(b, k), n));
    } else {
        lemma_split_concat(a, bp, k);
        lemma_split_ranges(bp, k);
        let sa = split_ranges(a, k);
        let sb = split_ranges(bp, k);
        assert(sb.len() > 0) by {
            assert(is_kind(bp[0], k));
        }
        assert(split_ranges(ab, k) =~= sa + shift_ranges(split_ranges(b, k), n));
    }
}

/// The endpoints of `a + b` are those of `a` followed by those of `b`.
pub proof fn lemma_endpoints_concat(a: Seq<AnyDescriptor>, b: Seq<AnyDescriptor>)
    ensures
        endpoints_of(a + b) == endpoints_of(a) + endpoints_of(b),
    decreases b.len(),
{
    if b.len() == 0 {
        assert(a + b =~= a);
        assert(endpoints_of(a) + endpoints_of(b) =~= endpoints_of(a));
    } else {
        let bp = b.drop_last();
        assert((a + b).drop_last() =~= a + bp);
        assert((a + b).last() == b.last());
        lemma_endpoints_concat(a, bp);
        match b.last() {
            AnyDescriptor::EndpointDescriptor(e) => {
                assert(endpoints_of(a + b) =~= endpoints_of(a) + endpoints_of(b));
            },
            _ => {},
        }
    }
}

proof fn lemma_endpoints_of_endpoints(es: Seq<EndpointDescriptor>)
    ensures
        endpoints_of(es.map_values(|e: EndpointDescriptor| AnyDescriptor::EndpointDescriptor(e)))
            == es,
    decreases es.len(),
{
    let m = es.map_values(|e: EndpointDescriptor| AnyDescriptor::EndpointDescriptor(e));
    if es.len() == 0 {
        assert(m =~= Seq::<AnyDescriptor>::empty());
    } else {
        let ep = es.drop_last();
        lemma_endpoints_of_endpoints(ep);
        assert(m.drop_last() =~= ep.map_values(
            |e: EndpointDescriptor| AnyDescriptor::EndpointDescriptor(e),
        ));
        assert(es =~= ep.push(es.last()));
    }
}

/// The records of an interface: well-formed, none a device or configuration,
/// only the first an interface.
proof fn lemma_interface_records(t: InterfaceTreeView)
    requires
        well_formed_interface(t),
    ensures
        ({
            let rs = interface_records(t);
            &&& rs.len() > 0
            &&& rs[0] == AnyDescriptor::InterfaceDescriptor(t.desc)
            &&& forall|i: int| 0 <= i < rs.len() ==> well_formed_record(#[trigger] rs[i])
            &&& forall|i: int| 0 < i < rs.len() ==> #[trigger] rs[i] is EndpointDescriptor
        }),
{
    let rs = interface_records(t);
    assert forall|i: int| 0 <= i < rs.len() implies well_formed_record(#[trigger] rs[i]) by {
        if i > 0 {
            assert(rs[i] == AnyDescriptor::EndpointDescriptor(t.endpoints[i - 1]));
        }
    }
}

/// The records of a run of interfaces are well-formed interface and endpoint
/// records, and group into those interfaces behind any prefix of records
/// that holds no interface.
proof fn lemma_interfaces_records(p: Seq<AnyDescriptor>, ts: Seq<InterfaceTreeView>)
    requires
        forall|i: int| 0 <= i < ts.len() ==> well_formed_interface(#[trigger] ts[i]),
        forall|i: int| 0 <= i < p.len() ==> !is_kind(#[trigger] p[i], DescriptorKind::Interface),
    ensures
        ({
            let rs = interfaces_records(ts);
            &&& forall|i: int| 0 <= i < rs.len() ==> well_formed_record(#[trigger] rs[i])
            &&& forall|i: int|
                0 <= i < rs.len() ==> (#[trigger] rs[i] is EndpointDescriptor
                    || rs[i] is InterfaceDescriptor)
            &&& interface_trees_of(p + rs) == ts
        }),
    decreases ts.len(),
{
    let rs = interfaces_records(ts);
    if ts.len() == 0 {
        assert(p + rs =~= p);
        lemma_split_none(p, DescriptorKind::Interface);
        assert(interface_trees_of(p + rs) =~= ts);
    } else {
        let tp = ts.drop_last();
        let t = ts.last();
        assert(well_formed_interface(t));
        assert forall|i: int| 0 <= i < tp.len() implies well_formed_interface(#[trigger] tp[i]) by {
            assert(tp[i] == ts[i]);
        }
        lemma_interfaces_records(p, tp);
        lemma_interface_records(t);
        let a = interfaces_records(tp);
        let b = interface_records(t);
        assert(rs == a + b);
        assert forall|i: int| 0 <= i < rs.len() implies well_formed_record(#[trigger] rs[i])
            && (rs[i] is EndpointDescriptor || rs[i] is InterfaceDescriptor) by {
            if i < a.len() {
                assert(rs[i] == a[i]);
            } else {
                assert(rs[i] == b[i - a.len()]);
            }
        }
        let r = p + a;
        let ds = p + rs;
        assert(ds =~= r + b);
        lemma_split_concat(r, b, DescriptorKind::Interface);
        assert forall|i: int| 0 < i < b.len() implies !is_kind(#[trigger] b[i], DescriptorKind::Interface) by {
        }
        lemma_split_single(b, DescriptorKind::Interface);
        lemma_split_ranges(r, DescriptorKind::Interface);
        let sr = split_ranges(r, DescriptorKind::Interface);
        let sd = split_ranges(ds, DescriptorKind::Interface);
        assert(sd =~= sr.push((r.len() as int, ds.len() as int)));
        let want = interface_trees_of(ds);
        assert forall|i: int| 0 <= i < sr.len() implies #[trigger] want[i] == interface_trees_of(r)[i] by {
            let g = sr[i];
            assert(sd[i] == g);
            assert(ds.subrange(g.0, g.1) =~= r.subrange(g.0, g.1));
            assert(ds[g.0] == r[g.0]);
        }
        assert(ds.subrange(r.len() as int, ds.len() as int) =~= b);
        assert(ds[r.len() as int] == b[0]);
        lemma_endpoints_concat(seq![b[0]], b.drop_first());
        assert(seq![b[0]] + b.drop_first() =~= b);
        assert(b.drop_first() =~= t.endpoints.map_values(
            |e: EndpointDescriptor| AnyDescriptor::EndpointDescriptor(e),
        ));
        lemma_endpoints_of_endpoints(t.endpoints);
        assert(endpoints_of(seq![b[0]]) =~= Seq::<EndpointDescriptor>::empty()) by {
            assert(seq![b[0]].drop_last() =~= Seq::<AnyDescriptor>::empty());
            assert(endpoints_of(Seq::<AnyDescriptor>::empty()) == Seq::<EndpointDescriptor>::empty());
            assert(seq![b[0]].last() == AnyDescriptor::InterfaceDescriptor(t.desc));
        }
        assert(endpoints_of(b) =~= t.endpoints);
        assert(want[sr.len() as int] == t);
        assert(want =~= ts);
    }
}

/// The records of a run of configurations are well-formed and hold no
/// device, and group into those configurations behind any prefix of records
/// that holds no configuration.
proof fn lemma_configurations_records(p: Seq<AnyDescriptor>, cs: Seq<ConfigurationTreeView>)
    requires
        forall|i: int| 0 <= i < cs.len() ==> well_formed_configuration(#[trigger] cs[i]),
        forall|i: int|
            0 <= i < p.len() ==> !is_kind(#[trigger] p[i], DescriptorKind::Configuration),
    ensures
        ({
            let rs = configurations_records(cs);
            &&& forall|i: int| 0 <= i < rs.len() ==> well_formed_record(#[trigger] rs[i])
            &&& forall|i: int| 0 <= i < rs.len() ==> !(#[trigger] rs[i] is DeviceDescriptor)
            &&& configuration_trees_of(p + rs) == cs
        }),
    decreases cs.len(),
{
    let rs = configurations_records(cs);
    if cs.len() == 0 {
        assert(p + rs =~= p);
        lemma_split_none(p, DescriptorKind::Configuration);
        assert(configuration_trees_of(p + rs) =~= cs);
    } else {
        let cp = cs.drop_last();
        let c = cs.last();
        assert(well_formed_configuration(c));
        assert forall|i: int| 0 <= i < cp.len() implies well_formed_configuration(
            #[trigger] cp[i],
        ) by {
            assert(cp[i] == cs[i]);
        }
        lemma_configurations_records(p, cp);
        let head = seq![AnyDescriptor::ConfigurationDescriptor(c.desc)];
        lemma_interfaces_records(head, c.interfaces);
        let ir = interfaces_records(c.interfaces);
        let a = configurations_records(cp);
        let b = configuration_records(c);
        assert(b == head + ir);
        assert(rs == a + b);
        assert forall|i: int| 0 <= i < b.len() implies well_formed_record(#[trigger] b[i]) && !(
        b[i] is DeviceDescriptor) && (i > 0 ==> !is_kind(b[i], DescriptorKind::Configuration)) by {
            if i > 0 {
                assert(b[i] == ir[i - 1]);
            }
        }
        assert forall|i: int| 0 <= i < rs.len() implies well_formed_record(#[trigger] rs[i])
            && !(rs[i] is DeviceDescriptor) by {
            if i < a.len() {
                assert(rs[i] == a[i]);
            } else {
                assert(rs[i] == b[i - a.len()]);
            }
        }
        let r = p + a;
        let ds = p + rs;
        assert(ds =~= r + b);
        lemma_split_concat(r, b, DescriptorKind::Configuration);
        lemma_split_single(b, DescriptorKind::Configuration);
        lemma_split_ranges(r, DescriptorKind::Configuration);
        let sr = split_ranges(r, DescriptorKind::Configuration);
        let sd = split_ranges(ds, DescriptorKind::Configuration);
        assert(sd =~= sr.push((r.len() as int, ds.len() as int)));
        let want = configuration_trees_of(ds);
        assert forall|i: int| 0 <= i < sr.len() implies #[trigger] want[i]
            == configuration_trees_of(r)[i] by {
            let g = sr[i];
            assert(sd[i] == g);
            assert(ds.subrange(g.0, g.1) =~= r.subrange(g.0, g.1));
            assert(ds[g.0] == r[g.0]);
        }
        assert(ds.subrange(r.len() as int, ds.len() as int) =~= b);
        assert(ds[r.len() as int] == b[0]);
        assert(want[sr.len() as int] == c);
        assert(want =~= cs);
    }
}

proof fn lemma_device_count_first(ds: Seq<AnyDescriptor>)
    requires
        ds.len() > 0,
        ds[0] is DeviceDescriptor,
        forall|i: int| 0 < i < ds.len() ==> !(#[trigger] ds[i] is DeviceDescriptor),
    ensures
        device_count(ds) == 1,
    decreases ds.len(),
{
    let p = ds.drop_last();
    if ds.len() == 1 {
        assert(device_count(p) == 0);
    } else {
        assert forall|i: int| 0 < i < p.len() implies !(#[trigger] p[i] is DeviceDescriptor) by {
            assert(p[i] == ds[i]);
        }
        lemma_device_count_first(p);
    }
}

/// Parsing the buffer made of a well-formed tree's descriptors, in order
/// (the device, then each configuration followed by its interfaces, each
/// interface followed by its endpoints), gives back that tree: the same
/// number of configurations, interfaces and endpoints at every level, with
/// the same fields, in the same order.
pub proof fn lemma_tree_round_trip(t: DeviceTreeView)
    requires
        well_formed_tree(t),
    ensures
        tree_of(tree_bytes(t)) == Ok::<DeviceTreeView, Error>(t),
{
    let head = seq![AnyDescriptor::DeviceDescriptor(t.desc)];
    lemma_configurations_records(head, t.configurations);
    let cr = configurations_records(t.configurations);
    let ds = tree_records(t);
    assert(ds == head + cr);
    assert forall|i: int| 0 <= i < ds.len() implies well_formed_record(#[trigger] ds[i]) && (i > 0
        ==> !(ds[i] is DeviceDescriptor)) by {
        if i > 0 {
            assert(ds[i] == cr[i - 1]);
        }
    }
    lemma_device_count_first(ds);
    lemma_parse_records_prefix(ds, seq![]);
    assert(records_bytes(ds) + seq![] =~= records_bytes(ds));
    assert(ds + seq![] =~= ds);
    assert(configuration_trees_of(ds) == t.configurations);
}

/// A buffer of fewer than two bytes holds no record, and is rejected as too
/// short.
pub proof fn lemma_short_buffer(data: Seq<u8>)
    requires
        data.len() < 2,
    ensures
        tree_of(data) == Err::<DeviceTreeView, Error>(Error::InvalidSize),
{
}

/// An error met after well-formed records is the error of the whole buffer.
proof fn lemma_error_after_records(rs: Seq<AnyDescriptor>, rest: Seq<u8>, e: Error)
    requires
        forall|i: int| 0 <= i < rs.len() ==> well_formed_record(#[trigger] rs[i]),
        parse_records(rest) == Err::<Seq<AnyDescriptor>, Error>(e),
    ensures
        tree_of(records_bytes(rs) + rest) == Err::<DeviceTreeView, Error>(e),
{
    lemma_parse_records_prefix(rs, rest);
}

/// A record whose length byte is below two, the size of its own header, makes
/// the buffer invalid, wherever it follows well-formed records.
pub proof fn lemma_record_shorter_than_header(rs: Seq<AnyDescriptor>, rest: Seq<u8>)
    requires
        forall|i: int| 0 <= i < rs.len() ==> well_formed_record(#[trigger] rs[i]),
        rest.len() >= 2,
        rest[0] < 2,
    ensures
        tree_of(records_bytes(rs) + rest) == Err::<DeviceTreeView, Error>(Error::InvalidSize),
{
    lemma_error_after_records(rs, rest, Error::InvalidSize);
}

/// A record whose length byte runs past the end of the buffer makes the
/// buffer invalid, wherever it follows well-formed records.
pub proof fn lemma_record_past_end(rs: Seq<AnyDescriptor>, rest: Seq<u8>)
    requires
        forall|i: int| 0 <= i < rs.len() ==> well_formed_record(#[trigger] rs[i]),
        rest.len() >= 2,
        rest[0] > rest.len(),
    ensures
        tree_of(records_bytes(rs) + rest) == Err::<DeviceTreeView, Error>(Error::InvalidSize),
{
    lemma_error_after_records(rs, rest, Error::InvalidSize);
}

/// A configuration record too short for the nine bytes of its layout makes
/// the buffer invalid, wherever it follows well-formed records.
pub proof fn lemma_short_configuration(rs: Seq<AnyDescriptor>, rest: Seq<u8>)
    requires
        forall|i: int| 0 <= i < rs.len() ==> well_formed_record(#[trigger] rs[i]),
        rest.len() >= 2,
        rest[1] == CONFIGURATION_TYPE,
        2 <= rest[0] < CONFIGURATION_DESCRIPTOR_SIZE,
        rest[0] <= rest.len(),
    ensures
        tree_of(records_bytes(rs) + rest) == Err::<DeviceTreeView, Error>(Error::InvalidSize),
{
    let l = rest[0] as int;
    assert(rest.subrange(0, l)[1] == CONFIGURATION_TYPE);
    lemma_error_after_records(rs, rest, Error::InvalidSize);
}

/// A buffer whose first record is a configuration, and which holds at most
/// one device record, is rejected because the device does not come first.
pub proof fn lemma_configuration_first(data: Seq<u8>, ds: Seq<AnyDescriptor>)
    requires
        parse_records(data) == Ok::<Seq<AnyDescriptor>, Error>(ds),
        ds.len() > 0,
        ds[0] is ConfigurationDescriptor,
        device_count(ds) <= 1,
    ensures
        tree_of(data) == Err::<DeviceTreeView, Error>(Error::DeviceWasNotFirst),
{
}

proof fn lemma_device_count_positive(ds: Seq<AnyDescriptor>, i: int)
    requires
        0 <= i < ds.len(),
        ds[i] is DeviceDescriptor,
    ensures
        device_count(ds) >= 1,
    decreases ds.len(),
{
    if i < ds.len() - 1 {
        assert(ds.drop_last()[i] == ds[i]);
        lemma_device_count_positive(ds.drop_last(), i);
    }
}

proof fn lemma_device_count_two(ds: Seq<AnyDescriptor>, i: int, j: int)
    requires
        0 <= i < j < ds.len(),
        ds[i] is DeviceDescriptor,
        ds[j] is DeviceDescriptor,
    ensures
        device_count(ds) >= 2,
    decreases ds.len(),
{
    let p = ds.drop_last();
    assert(p[i] == ds[i]);
    if j == ds.len() - 1 {
        lemma_device_count_positive(p, i);
    } else {
        assert(p[j] == ds[j]);
        lemma_device_count_two(p, i, j);
    }
}

/// A buffer whose records all scan, and that holds two device records
/// anywhere, is rejected for having too many devices.
pub proof fn lemma_two_devices(data: Seq<u8>, ds: Seq<AnyDescriptor>, i: int, j: int)
    requires
        parse_records(data) == Ok::<Seq<AnyDescriptor>, Error>(ds),
        0 <= i < j < ds.len(),
        ds[i] is DeviceDescriptor,
        ds[j] is DeviceDescriptor,
    ensures
        tree_of(data) == Err::<DeviceTreeView, Error>(Error::TooManyDevices),
{
    lemma_device_count_two(ds, i, j);
}

/// Where index `x` of a sequence moves when an item is inserted at `p`.
pub open spec fn shift_from(x: int, p: int) -> int {
    if x >= p {
        x + 1
    } else {
        x
    }
}

pub open spec fn shift_ranges_from(gs: Seq<(int, int)>, p: int) -> Seq<(int, int)> {
    gs.map_values(|g: (int, int)| (shift_from(g.0, p), shift_from(g.1, p)))
}

/// Inserting a record that anchors nothing moves the groups' bounds past it
/// and widens the group it falls into.
pub proof fn lemma_split_insert(ds: Seq<AnyDescriptor>, p: int, o: AnyDescriptor, k: DescriptorKind)
    requires
        0 <= p <= ds.len(),
        !is_kind(o, k),
    ensures
        split_ranges(ds.insert(p, o), k) == shift_ranges_from(split_ranges(ds, k), p),
    decreases ds.len(),
{
    let n = ds.len() as int;
    let d2 = ds.insert(p, o);
    lemma_split_ranges(ds, k);
    let old_r = split_ranges(ds, k);
    if p == n {
        assert(d2.drop_last() =~= ds);
        assert(d2.last() == o);
        if old_r.len() > 0 {
            assert forall|i: int| 0 <= i < old_r.len() - 1 implies #[trigger] old_r[i].1 < n by {
                assert(old_r[i].1 == old_r[i + 1].0);
            }
        }
        assert(split_ranges(d2, k) =~= shift_ranges_from(old_r, p));
    } else {
        let dl = ds.drop_last();
        assert(d2.drop_last() =~= dl.insert(p, o));
        assert(d2.last() == ds.last());
        lemma_split_insert(dl, p, o, k);
        assert(split_ranges(d2, k) =~= shift_ranges_from(old_r, p));
    }
}

/// Inserting a record that is no endpoint leaves the endpoints as they were.
pub proof fn lemma_endpoints_insert(ds: Seq<AnyDescriptor>, p: int, o: AnyDescriptor)
    requires
        0 <= p <= ds.len(),
        !(o is EndpointDescriptor),
    ensures
        endpoints_of(ds.insert(p, o)) == endpoints_of(ds),
    decreases ds.len(),
{
    let d2 = ds.insert(p, o);
    if p == ds.len() {
        assert(d2.drop_last() =~= ds);
        assert(d2.last() == o);
    } else {
        assert(d2.drop_last() =~= ds.drop_last().insert(p, o));
        assert(d2.last() == ds.last());
        lemma_endpoints_insert(ds.drop_last(), p, o);
    }
}

proof fn lemma_subrange_insert(ds: Seq<AnyDescriptor>, p: int, o: AnyDescriptor, s: int, e: int)
    requires
        0 <= p <= ds.len(),
        0 <= s < e <= ds.len(),
    ensures
        ds.insert(p, o)[shift_from(s, p)] == ds[s],
        s < p <= e ==> ds.insert(p, o).subrange(shift_from(s, p), shift_from(e, p))
            == ds.subrange(s, e).insert(p - s, o),
        !(s < p <= e) ==> ds.insert(p, o).subrange(shift_from(s, p), shift_from(e, p))
            == ds.subrange(s, e),
{
    let d2 = ds.insert(p, o);
    if s < p <= e {
        assert(d2.subrange(s, e + 1) =~= ds.subrange(s, e).insert(p - s, o));
    } else if e < p {
        assert(d2.subrange(s, e) =~= ds.subrange(s, e));
    } else {
        assert(d2.subrange(s + 1, e + 1) =~= ds.subrange(s, e));
    }
}

/// Inserting an unrecognized record leaves the interfaces as they were.
pub proof fn lemma_interface_trees_insert(ds: Seq<AnyDescriptor>, p: int, tag: u8)
    requires
        0 <= p <= ds.len(),
    ensures
        interface_trees_of(ds.insert(p, AnyDescriptor::Other(tag))) == interface_trees_of(ds),
{
    let o = AnyDescriptor::Other(tag);
    let d2 = ds.insert(p, o);
    let k = DescriptorKind::Interface;
    lemma_split_insert(ds, p, o, k);
    lemma_split_ranges(ds, k);
    let r = split_ranges(ds, k);
    let a = interface_trees_of(d2);
    let b = interface_trees_of(ds);
    assert forall|i: int| 0 <= i < r.len() implies #[trigger] a[i] == b[i] by {
        let g = r[i];
        lemma_subrange_insert(ds, p, o, g.0, g.1);
        if g.0 < p <= g.1 {
            lemma_endpoints_insert(ds.subrange(g.0, g.1), p - g.0, o);
        }
    }
    assert(a =~= b);
}

/// Inserting an unrecognized record leaves the configurations as they were.
pub proof fn lemma_configuration_trees_insert(ds: Seq<AnyDescriptor>, p: int, tag: u8)
    requires
        0 <= p <= ds.len(),
    ensures
        configuration_trees_of(ds.insert(p, AnyDescriptor::Other(tag))) == configuration_trees_of(
            ds,
        ),
{
    let o = AnyDescriptor::Other(tag);
    let d2 = ds.insert(p, o);
    let k = DescriptorKind::Configuration;
    lemma_split_insert(ds, p, o, k);
    lemma_split_ranges(ds, k);
    let r = split_ranges(ds, k);
    let a = configuration_trees_of(d2);
    let b = configuration_trees_of(ds);
    assert forall|i: int| 0 <= i < r.len() implies #[trigger] a[i] == b[i] by {
        let g = r[i];
        lemma_subrange_insert(ds, p, o, g.0, g.1);
        if g.0 < p <= g.1 {
            lemma_interface_trees_insert(ds.subrange(g.0, g.1), p - g.0, tag);
        }
    }
    assert(a =~= b);
}

proof fn lemma_device_count_insert(ds: Seq<AnyDescriptor>, p: int, tag: u8)
    requires
        0 <= p <= ds.len(),
    ensures
        device_count(ds.insert(p, AnyDescriptor::Other(tag))) == device_count(ds),
    decreases ds.len(),
{
    let d2 = ds.insert(p, AnyDescriptor::Other(tag));
    if p == ds.len() {
        assert(d2.drop_last() =~= ds);
    } else {
        assert(d2.drop_last() =~= ds.drop_last().insert(p, AnyDescriptor::Other(tag)));
        assert(d2.last() == ds.last());
        lemma_device_count_insert(ds.drop_last(), p, tag);
    }
}

/// An unrecognized record anywhere after the first changes nothing in the
/// tree: it belongs to no group, and the recognized records keep their order
/// and number.
pub proof fn lemma_unknown_record_ignored(ds: Seq<AnyDescriptor>, p: int, tag: u8)
    requires
        0 < p <= ds.len(),
    ensures
        tree_of_records(ds.insert(p, AnyDescriptor::Other(tag))) == tree_of_records(ds),
{
    let d2 = ds.insert(p, AnyDescriptor::Other(tag));
    assert(d2[0] == ds[0]);
    lemma_device_count_insert(ds, p, tag);
    lemma_configuration_trees_insert(ds, p, tag);
}

/// The same for buffers: the bytes of an unrecognized record placed between
/// well-formed records after the first change nothing in the parsed tree.
pub proof fn lemma_unknown_record_bytes_ignored(rs: Seq<AnyDescriptor>, p: int, tag: u8)
    requires
        forall|i: int| 0 <= i < rs.len() ==> well_formed_record(#[trigger] rs[i]),
        well_formed_record(AnyDescriptor::Other(tag)),
        0 < p <= rs.len(),
    ensures
        tree_of(records_bytes(rs.insert(p, AnyDescriptor::Other(tag)))) == tree_of(
            records_bytes(rs),
        ),
{
    let r2 = rs.insert(p, AnyDescriptor::Other(tag));
    assert forall|i: int| 0 <= i < r2.len() implies well_formed_record(#[trigger] r2[i]) by {
        if i < p {
            assert(r2[i] == rs[i]);
        } else if i > p {
            assert(r2[i] == rs[i - 1]);
        }
    }
    lemma_parse_records_prefix(rs, seq![]);
    lemma_parse_records_prefix(r2, seq![]);
    assert(records_bytes(rs) + seq![] =~= records_bytes(rs));
    assert(records_bytes(r2) + seq![] =~= records_bytes(r2));
    assert(rs + seq![] =~= rs);
    assert(r2 + seq![] =~= r2);
    lemma_unknown_record_ignored(rs, p, tag);
}

} // verus!
