//! The three kinds of field of a rule, each encoded as a ternary bit string
//! of fixed width: address with prefix length, port range, protocol with
//! mask.
use crate::bits::{
    binary, binary_value, has_no_wildcard, is_all_wildcard, lemma_binary_prefix_value,
    lemma_binary_round_trip, lemma_masked_field, lemma_prefix_field, masked_bits, masked_field,
    prefix_bits, prefix_field, wildcards,
};
use crate::error::FormatError;
use crate::text::{
    capped, chars_of, in_i64, parse_signed, parse_unsigned, pieces, signed_value, split, trim,
    trimmed, unsigned_value, views,
};
use vstd::arithmetic::power2::pow2;
use vstd::prelude::*;

verus! {

/// The width of an address field.
pub const IP_WIDTH: u32 = 32;

/// The width of a port field.
pub const PORT_WIDTH: u32 = 16;

/// The width of a protocol field.
pub const PROTOCOL_WIDTH: u32 = 8;

/// The upper bound of the full port range.
pub const LAST_PORT: i64 = 0xFFFF;

/// What an encoder returns, with the text as a sequence of characters.
pub open spec fn text_result<E>(r: Result<String, E>) -> Result<Seq<char>, E> {
    match r {
        Ok(text) => Ok(text@),
        Err(e) => Err(e),
    }
}

/// The value of an octet: a decimal number from 0 to 255.
pub open spec fn octet_value(s: Seq<char>) -> Option<nat> {
    match in_i64(signed_value(s, 10)) {
        Some(v) => if 0 <= v <= 255 {
            Some(v as nat)
        } else {
            None
        },
        None => None,
    }
}

/// The value of a dotted-quad address, the first octet the most
/// significant; `None` unless there are four octets.
pub open spec fn address_value(s: Seq<char>) -> Option<nat> {
    let octets = pieces(s, '.');
    if octets.len() != 4 {
        None
    } else {
        match (
            octet_value(octets[0]),
            octet_value(octets[1]),
            octet_value(octets[2]),
            octet_value(octets[3]),
        ) {
            (Some(a), Some(b), Some(c), Some(d)) => Some(((a * 256 + b) * 256 + c) * 256 + d),
            _ => None,
        }
    }
}

/// The 32 characters of the IP field `address/prefix length`: the first
/// `prefix length` bits of the address, then wildcards. White space round
/// the address and round the prefix length does not count, and what follows
/// a second `/` is not read.
pub open spec fn encode_ip(s: Seq<char>) -> Result<Seq<char>, FormatError> {
    let parts = pieces(s, '/');
    if parts.len() < 2 {
        Err(FormatError::IpField)
    } else {
        match capped(unsigned_value(trim(parts[1]), 10), IP_WIDTH as u64) {
            None => Err(FormatError::MaskValue),
            Some(keep) => match address_value(trim(parts[0])) {
                None => Err(FormatError::IpValue),
                Some(address) => Ok(prefix_field(address, IP_WIDTH as nat, keep as nat)),
            },
        }
    }
}

/// The 16 characters of the port field `begin:end`: wildcards for the full
/// range from 0 to 65535, else the lower bound in binary, whatever the upper
/// bound is. White space round a bound does not count, and what follows a
/// second `:` is not read.
pub open spec fn encode_port(s: Seq<char>) -> Result<Seq<char>, FormatError> {
    let parts = pieces(s, ':');
    if parts.len() < 2 {
        Err(FormatError::PortField)
    } else {
        match (
            in_i64(signed_value(trim(parts[0]), 10)),
            in_i64(signed_value(trim(parts[1]), 10)),
        ) {
            (Some(begin), Some(end)) => if begin == 0 && end == LAST_PORT {
                Ok(wildcards(PORT_WIDTH as nat))
            } else if 0 <= begin <= LAST_PORT {
                Ok(binary(begin as nat, PORT_WIDTH as nat))
            } else {
                Err(FormatError::PortValue)
            },
            _ => Err(FormatError::PortValue),
        }
    }
}

/// The value of `0x` and a hexadecimal number of at most eight bits, with
/// white space round it.
pub open spec fn hex_value(s: Seq<char>) -> Option<nat> {
    let t = trim(s);
    if t.len() >= 2 && t[0] == '0' && t[1] == 'x' {
        match in_i64(signed_value(t.skip(2), 16)) {
            Some(v) => if 0 <= v <= 0xFF {
                Some(v as nat)
            } else {
                None
            },
            None => None,
        }
    } else {
        None
    }
}

/// The 8 characters of the protocol field `protocol/mask`: the bits of the
/// protocol where the mask has a one, wildcards where it has a zero. What
/// follows a second `/` is not read.
pub open spec fn encode_protocol(s: Seq<char>) -> Result<Seq<char>, FormatError> {
    let parts = pieces(s, '/');
    if parts.len() < 2 {
        Err(FormatError::ProtocolField)
    } else {
        match (hex_value(parts[0]), hex_value(parts[1])) {
            (Some(protocol), Some(mask)) => Ok(masked_field(protocol, mask, PROTOCOL_WIDTH as nat)),
            _ => Err(FormatError::HexValue),
        }
    }
}

/// An IP field that encodes has 32 characters. With prefix length 0 they
/// are all wildcards; with prefix length 32 none is, and they write the
/// address. In between, the characters of the prefix write the leading bits
/// of the address, and wildcards follow.
pub proof fn lemma_ip_field(s: Seq<char>)
    requires
        encode_ip(s) is Ok,
    ensures
        ({
            let parts = pieces(s, '/');
            let keep = unsigned_value(trim(parts[1]), 10)->0;
            let address = address_value(trim(parts[0]))->0;
            let field = encode_ip(s)->Ok_0;
            &&& field.len() == IP_WIDTH
            &&& keep <= IP_WIDTH
            &&& address < pow2(IP_WIDTH as nat)
            &&& keep == 0 ==> field == wildcards(IP_WIDTH as nat)
            &&& keep == IP_WIDTH ==> has_no_wildcard(field) && binary_value(field) == address
            &&& has_no_wildcard(field.take(keep as int))
            &&& binary_value(field.take(keep as int)) == address / pow2((IP_WIDTH - keep) as nat)
            &&& is_all_wildcard(field.skip(keep as int))
        }),
{
    let parts = pieces(s, '/');
    let keep = unsigned_value(trim(parts[1]), 10)->0;
    let address = address_value(trim(parts[0]))->0;
    vstd::arithmetic::power2::lemma2_to64();
    lemma_prefix_field(address, IP_WIDTH as nat, keep);
    lemma_binary_prefix_value(address, IP_WIDTH as nat, keep);
    lemma_binary_round_trip(address, IP_WIDTH as nat);
    assert(has_no_wildcard(binary(address, IP_WIDTH as nat).take(keep as int)));
}

/// A port field that encodes has 16 characters: all wildcards for the range
/// from 0 to 65535; for any other range none is a wildcard, and they write
/// the lower bound.
pub proof fn lemma_port_field(s: Seq<char>)
    requires
        encode_port(s) is Ok,
    ensures
        ({
            let parts = pieces(s, ':');
            let begin = signed_value(trim(parts[0]), 10)->0;
            let end = signed_value(trim(parts[1]), 10)->0;
            let field = encode_port(s)->Ok_0;
            &&& field.len() == PORT_WIDTH
            &&& begin == 0 && end == LAST_PORT ==> field == wildcards(PORT_WIDTH as nat)
            &&& !(begin == 0 && end == LAST_PORT) ==> {
                &&& 0 <= begin <= LAST_PORT
                &&& has_no_wildcard(field)
                &&& binary_value(field) == begin
            }
        }),
{
    let parts = pieces(s, ':');
    let begin = signed_value(trim(parts[0]), 10)->0;
    let end = signed_value(trim(parts[1]), 10)->0;
    vstd::arithmetic::power2::lemma2_to64();
    if !(begin == 0 && end == LAST_PORT) {
        lemma_binary_round_trip(begin as nat, PORT_WIDTH as nat);
    }
}

/// A protocol field that encodes has 8 characters. Under the mask `0xFF`
/// none is a wildcard, and they write the protocol; under the mask `0x00`
/// they are all wildcards.
pub proof fn lemma_protocol_field(s: Seq<char>)
    requires
        encode_protocol(s) is Ok,
    ensures
        ({
            let parts = pieces(s, '/');
            let protocol = hex_value(parts[0])->0;
            let mask = hex_value(parts[1])->0;
            let field = encode_protocol(s)->Ok_0;
            &&& field.len() == PROTOCOL_WIDTH
            &&& mask == 0xFF ==> has_no_wildcard(field) && field == binary(
                protocol,
                PROTOCOL_WIDTH as nat,
            ) && binary_value(field) == protocol
            &&& mask == 0 ==> field == wildcards(PROTOCOL_WIDTH as nat)
        }),
{
    let parts = pieces(s, '/');
    let protocol = hex_value(parts[0])->0;
    let mask = hex_value(parts[1])->0;
    vstd::arithmetic::power2::lemma2_to64();
    lemma_masked_field(protocol, mask, PROTOCOL_WIDTH as nat);
    lemma_binary_round_trip(protocol, PROTOCOL_WIDTH as nat);
}

/// Reads an octet.
fn parse_octet(s: &[char]) -> (r: Option<u32>)
    ensures
        match r {
            Some(v) => octet_value(s@) == Some(v as nat),
            None => octet_value(s@) is None,
        },
{
    match parse_signed(s, 10) {
        Some(v) => if 0 <= v && v <= 255 {
            Some(v as u32)
        } else {
            None
        },
        None => None,
    }
}

/// Reads a dotted-quad address.
fn parse_address(s: &[char]) -> (r: Option<u32>)
    ensures
        match r {
            Some(v) => address_value(s@) == Some(v as nat),
            None => address_value(s@) is None,
        },
{
    let octets = split(s, '.');
    assert(views(octets@).len() == octets@.len());
    if octets.len() != 4 {
        return None;
    }
    assert(forall|k: int| 0 <= k < 4 ==> views(octets@)[k] == octets@[k]@);
    let a = parse_octet(octets[0]);
    let b = parse_octet(octets[1]);
    let c = parse_octet(octets[2]);
    let d = parse_octet(octets[3]);
    match (a, b, c, d) {
        (Some(a), Some(b), Some(c), Some(d)) => Some(((a * 256 + b) * 256 + c) * 256 + d),
        _ => None,
    }
}

/// Encodes the characters of an IP field.
pub(crate) fn ip_field(s: &[char]) -> (r: Result<String, FormatError>)
    ensures
        text_result(r) == encode_ip(s@),
{
    let parts = split(s, '/');
    assert(views(parts@).len() == parts@.len());
    if parts.len() < 2 {
        return Err(FormatError::IpField);
    }
    assert(forall|k: int| 0 <= k < 2 ==> views(parts@)[k] == parts@[k]@);
    let keep = match parse_unsigned(trimmed(parts[1]), 10, IP_WIDTH as u64) {
        Some(keep) => keep as u32,
        None => {
            return Err(FormatError::MaskValue);
        },
    };
    match parse_address(trimmed(parts[0])) {
        Some(address) => Ok(prefix_bits(address, IP_WIDTH, keep)),
        None => Err(FormatError::IpValue),
    }
}

/// The 32 characters of the IP field `ip`, or what is wrong with it.
pub fn ip_to_bitstring(ip: &str) -> (r: Result<String, FormatError>)
    ensures
        text_result(r) == encode_ip(ip@),
{
    let chars = chars_of(ip);
    ip_field(chars.as_slice())
}

/// The 16 characters of the port field `port`, or what is wrong with it.
pub fn port_to_bitstring(port: &str) -> (r: Result<String, FormatError>)
    ensures
        text_result(r) == encode_port(port@),
{
    let chars = chars_of(port);
    let parts = split(chars.as_slice(), ':');
    assert(views(parts@).len() == parts@.len());
    if parts.len() < 2 {
        return Err(FormatError::PortField);
    }
    assert(forall|k: int| 0 <= k < 2 ==> views(parts@)[k] == parts@[k]@);
    let begin = parse_signed(trimmed(parts[0]), 10);
    let end = parse_signed(trimmed(parts[1]), 10);
    match (begin, end) {
        (Some(begin), Some(end)) => {
            if begin == 0 && end == LAST_PORT {
                proof {
                    lemma_prefix_field(0, PORT_WIDTH as nat, 0);
                }
                Ok(prefix_bits(0, PORT_WIDTH, 0))
            } else if 0 <= begin && begin <= LAST_PORT {
                proof {
                    lemma_prefix_field(begin as nat, PORT_WIDTH as nat, PORT_WIDTH as nat);
                }
                Ok(prefix_bits(begin as u32, PORT_WIDTH, PORT_WIDTH))
            } else {
                Err(FormatError::PortValue)
            }
        },
        _ => Err(FormatError::PortValue),
    }
}

/// Reads `0x` and a hexadecimal number of at most eight bits from
/// characters.
fn hex_of(s: &[char]) -> (r: Option<u8>)
    ensures
        match r {
            Some(v) => hex_value(s@) == Some(v as nat),
            None => hex_value(s@) is None,
        },
{
    let t = trimmed(s);
    if t.len() >= 2 && t[0] == '0' && t[1] == 'x' {
        assert(t@.subrange(2, t@.len() as int) =~= t@.skip(2));
        match parse_signed(&t[2..t.len()], 16) {
            Some(v) => if 0 <= v && v <= 0xFF {
                Some(v as u8)
            } else {
                None
            },
            None => None,
        }
    } else {
        None
    }
}

/// Reads `0x` and a hexadecimal number of at most eight bits, with white
/// space round it.
pub fn parse_hex(s: &str) -> (r: Option<u8>)
    ensures
        match r {
            Some(v) => hex_value(s@) == Some(v as nat),
            None => hex_value(s@) is None,
        },
{
    let chars = chars_of(s);
    hex_of(chars.as_slice())
}

/// The 8 characters of the protocol field `proto`, or what is wrong with it.
pub fn proto_to_bitstring(proto: &str) -> (r: Result<String, FormatError>)
    ensures
        text_result(r) == encode_protocol(proto@),
{
    let chars = chars_of(proto);
    let parts = split(chars.as_slice(), '/');
    assert(views(parts@).len() == parts@.len());
    if parts.len() < 2 {
        return Err(FormatError::ProtocolField);
    }
    assert(forall|k: int| 0 <= k < 2 ==> views(parts@)[k] == parts@[k]@);
    let protocol = hex_of(parts[0]);
    let mask = hex_of(parts[1]);
    match (protocol, mask) {
        (Some(protocol), Some(mask)) => Ok(
            masked_bits(protocol as u32, mask as u32, PROTOCOL_WIDTH),
        ),
        _ => Err(FormatError::HexValue),
    }
}

} // verus!
