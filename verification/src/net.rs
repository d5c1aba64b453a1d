//! Addresses of network services.

use vstd::prelude::*;

verus! {

#[derive(Clone, Copy, Debug, PartialEq, Eq, Structural)]
pub enum IpAddress {
    V4(u32),
    V6(u128),
}

#[derive(Clone, Copy, Debug, PartialEq, Eq, Structural)]
pub struct AddressV4 {
    pub ip: u32,
    pub port: u16,
}

#[derive(Clone, Copy, Debug, PartialEq, Eq, Structural)]
pub struct AddressV6 {
    pub ip: u128,
    pub port: u16,
    pub flowinfo: u32,
    pub scope_id: u32,
}

/// The address of a service.
#[derive(Clone, Copy, Debug, PartialEq, Eq, Structural)]
pub enum Address {
    V4(AddressV4),
    V6(AddressV6),
}

impl Address {
    pub open spec fn spec_new(ip: IpAddress, port: u16) -> Address {
        match ip {
            IpAddress::V4(ip) => Address::V4(AddressV4 { ip, port }),
            IpAddress::V6(ip) => Address::V6(AddressV6 { ip, port, flowinfo: 0, scope_id: 0 }),
        }
    }

    /// The address of a port, with no flow or scope in particular.
    #[verifier::when_used_as_spec(spec_new)]
    pub fn new(ip: IpAddress, port: u16) -> (address: Self)
        ensures
            address == Address::spec_new(ip, port),
    {
        match ip {
            IpAddress::V4(ip) => Address::V4(AddressV4 { ip, port }),
            IpAddress::V6(ip) => Address::V6(AddressV6 { ip, port, flowinfo: 0, scope_id: 0 }),
        }
    }

    pub open spec fn spec_ip(&self) -> IpAddress {
        match *self {
            Address::V4(address) => IpAddress::V4(address.ip),
            Address::V6(address) => IpAddress::V6(address.ip),
        }
    }

    #[verifier::when_used_as_spec(spec_ip)]
    pub fn ip(&self) -> (ip: IpAddress)
        ensures
            ip == self.spec_ip(),
    {
        match *self {
            Address::V4(address) => IpAddress::V4(address.ip),
            Address::V6(address) => IpAddress::V6(address.ip),
        }
    }

    pub open spec fn spec_port(&self) -> u16 {
        match *self {
            Address::V4(address) => address.port,
            Address::V6(address) => address.port,
        }
    }

    #[verifier::when_used_as_spec(spec_port)]
    pub fn port(&self) -> (port: u16)
        ensures
            port == self.spec_port(),
    {
        match *self {
            Address::V4(address) => address.port,
            Address::V6(address) => address.port,
        }
    }

    /// The address that stands for no address in particular.
    pub fn unspecified() -> (address: Self)
        ensures
            address == Address::V4(AddressV4 { ip: 0, port: 0 }),
    {
        Address::V4(AddressV4 { ip: 0, port: 0 })
    }
}

/// An address of an IP address and a port has both, and nothing else in particular.
pub proof fn law_address_has_ip_and_port(ip: IpAddress, port: u16)
    ensures
        Address::new(ip, port).ip() == ip,
        Address::new(ip, port).port() == port,
        Address::new(ip, port) matches Address::V6(address) ==> address.flowinfo == 0
            && address.scope_id == 0,
{
}

} // verus!
