//! Calls into ipnet and std for prefix text: writing a prefix as text and
//! reading an address or a prefix from text.
use vstd::prelude::*;
use crate::prefix::{Prefix, IpPrefix};

verus! {

/// The text that ipnet writes for a prefix (`Display` of `Ipv4Net` or
/// `Ipv6Net`: the address, a slash, the prefix length).
pub uninterp spec fn prefix_text_spec(p: IpPrefix) -> Seq<char>;

/// ipnet's `to_string` of the network `p` stands for (address bits as given).
#[verifier::external_body]
pub(crate) fn prefix_text(p: &IpPrefix) -> (r: String)
    requires
        p.wf(),
    ensures
        r@ == prefix_text_spec(*p),
{
    match p {
        IpPrefix::V4(q) => ipnet::Ipv4Net::new((q.bits as u32).into(), q.len).unwrap().to_string(),
        IpPrefix::V6(q) => ipnet::Ipv6Net::new(q.bits.into(), q.len).unwrap().to_string(),
    }
}

/// What ipnet's `IpNet::from_str` reads from the text: the address as
/// written (host bits kept) and the prefix length, or nothing.
pub uninterp spec fn parse_net_spec(text: Seq<char>) -> Option<IpPrefix>;

/// `IpNet::from_str` of ipnet on the text. A prefix it returns has a length
/// within its family's width.
#[verifier::external_body]
pub(crate) fn parse_net(text: &[char]) -> (r: Option<IpPrefix>)
    ensures
        r == parse_net_spec(text@),
        r matches Some(p) ==> p.wf(),
{
    let s: String = text.iter().collect();
    match s.parse::<ipnet::IpNet>() {
        Ok(ipnet::IpNet::V4(n)) => Some(IpPrefix::V4(Prefix { bits: u32::from(n.addr()) as u128, len: n.prefix_len() })),
        Ok(ipnet::IpNet::V6(n)) => Some(IpPrefix::V6(Prefix { bits: u128::from(n.addr()), len: n.prefix_len() })),
        Err(_) => None,
    }
}

/// What std's `IpAddr::from_str` reads from the text, as a full-length
/// prefix (/32 or /128), or nothing.
pub uninterp spec fn parse_addr_spec(text: Seq<char>) -> Option<IpPrefix>;

/// std's `IpAddr::from_str` on the text (the address type is the one that
/// `IpNet::new` takes). An address becomes a /32 or /128 prefix.
#[verifier::external_body]
pub(crate) fn parse_addr(text: &[char]) -> (r: Option<IpPrefix>)
    ensures
        r == parse_addr_spec(text@),
        r matches Some(p) ==> p.wf() && match p {
            IpPrefix::V4(q) => q.len == 32,
            IpPrefix::V6(q) => q.len == 128,
        },
{
    let s: String = text.iter().collect();
    match s.parse() {
        Ok(addr) => match ipnet::IpNet::new(addr, 0) {
            Ok(ipnet::IpNet::V4(n)) => Some(IpPrefix::V4(Prefix { bits: u32::from(n.addr()) as u128, len: 32 })),
            Ok(ipnet::IpNet::V6(n)) => Some(IpPrefix::V6(Prefix { bits: u128::from(n.addr()), len: 128 })),
            Err(_) => None,
        },
        Err(_) => None,
    }
}

} // verus!
