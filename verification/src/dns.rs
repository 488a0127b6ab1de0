//! The DNS stub resolver: message formats and the answer cache.
use vstd::prelude::*;
use vstd::slice::slice_subrange;

use crate::bytes::{
    self, array4_at, bytes_equal, get_be16, get_be32, push_all, push_be16, push_be32,
};
use crate::net::Ipv4Address;
use crate::network;
use crate::text::{self, find_byte, is_utf8, string_from, to_lowercase};

verus! {

#[derive(Debug, Clone, Copy, PartialEq, Eq, Structural)]
pub enum DnsError {
    InvalidHostname,
    FormatError,
    ServerFailure,
    NxDomain,
    NoRecords,
    Timeout,
    NetworkError,
}

#[derive(Clone, Copy, Debug)]
pub struct DnsCacheEntry {
    pub ip: Ipv4Address,
    pub ttl: u32,
    pub expire_tick: u64,
}

// ---------------------------------------------------------------------------
// Queries
// ---------------------------------------------------------------------------
/// The labels of a name, each after its length; empty labels are left out.
pub open spec fn label_bytes(labels: Seq<Seq<u8>>) -> Seq<u8>
    decreases labels.len(),
{
    if labels.len() == 0 {
        Seq::empty()
    } else if labels[0].len() == 0 {
        label_bytes(labels.skip(1))
    } else {
        seq![labels[0].len() as u8] + labels[0] + label_bytes(labels.skip(1))
    }
}

/// Whether a host name can be asked for: at most 255 bytes, and no label over 63.
pub open spec fn can_ask(name: Seq<u8>) -> bool {
    &&& 0 < name.len() <= 255
    &&& forall|i: int| 0 <= i < text::split(name, 46).len() ==> (#[trigger] text::split(name, 46)[i]).len() <= 63
}

/// The header of a message with no authority or additional records.
pub open spec fn header(tx_id: u16, flags: u16, questions: u16, answers: u16) -> Seq<u8> {
    bytes::be16_bytes(tx_id) + bytes::be16_bytes(flags) + bytes::be16_bytes(questions) + bytes::be16_bytes(answers)
        + bytes::be16_bytes(0) + bytes::be16_bytes(0)
}

/// A question for the address of `name`.
pub open spec fn query(name: Seq<u8>, tx_id: u16) -> Seq<u8> {
    header(tx_id, 0x0100, 1, 0) + label_bytes(text::split(name, 46)) + seq![0u8] + bytes::be16_bytes(1)
        + bytes::be16_bytes(1)
}

fn push_header(v: &mut Vec<u8>, tx_id: u16, flags: u16, questions: u16, answers: u16)
    ensures
        final(v)@ == old(v)@ + header(tx_id, flags, questions, answers),
{
    push_be16(v, tx_id);
    push_be16(v, flags);
    push_be16(v, questions);
    push_be16(v, answers);
    push_be16(v, 0);
    push_be16(v, 0);
    assert(v@ =~= old(v)@ + header(tx_id, flags, questions, answers));
}

/// A question for the address of `hostname`.
pub fn encode_query(hostname: &str, tx_id: u16) -> (r: Result<Vec<u8>, DnsError>)
    ensures
        r is Ok <==> can_ask(text::utf8(hostname@)),
        r matches Ok(packet) ==> packet@ == query(text::utf8(hostname@), tx_id),
        r matches Err(e) ==> e == DnsError::InvalidHostname,
{
    let name = hostname.as_bytes();
    if name.len() == 0 || name.len() > 255 {
        return Err(DnsError::InvalidHostname);
    }
    let mut packet: Vec<u8> = Vec::with_capacity(64 + name.len());
    push_header(&mut packet, tx_id, 0x0100, 1, 0);
    let ghost parts = text::split(name@, 46);
    let ghost start = packet@;
    let ghost mut seen: int = 0;
    let mut rest: &[u8] = name;
    let mut more: bool = true;
    assert(packet@ + label_bytes(parts.skip(0)) =~= start + label_bytes(parts)) by {
        assert(parts.skip(0) =~= parts);
    }
    assert(parts.skip(0) =~= text::split(rest@, 46));
    while more
        invariant
            parts == text::split(name@, 46),
            name@ == text::utf8(hostname@),
            0 <= seen <= parts.len(),
            more ==> seen < parts.len() && parts.skip(seen) == text::split(rest@, 46),
            !more ==> seen == parts.len(),
            packet@ + label_bytes(parts.skip(seen)) == start + label_bytes(parts),
            forall|i: int| 0 <= i < seen ==> (#[trigger] parts[i]).len() <= 63,
        decreases more as int, rest.len(),
    {
        let end: usize = find_byte(rest, 46);
        let label = slice_subrange(rest, 0, end);
        let ghost left = parts.skip(seen);
        proof {
            assert(label@ =~= rest@.take(end as int));
            assert(left[0] =~= label@);
            assert(left[0] == parts[seen]);
            assert(left.skip(1) =~= parts.skip(seen + 1));
        }
        if label.len() > 63 {
            assert(parts[seen].len() > 63);
            return Err(DnsError::InvalidHostname);
        }
        let ghost before = packet@;
        if label.len() > 0 {
            packet.push(label.len() as u8);
            push_all(&mut packet, label);
            assert(packet@ + label_bytes(left.skip(1)) =~= before + label_bytes(left));
        }
        if end < rest.len() {
            let tail = slice_subrange(rest, end + 1, rest.len());
            proof {
                assert(tail@ =~= rest@.skip(end + 1));
                assert(left.skip(1) =~= text::split(tail@, 46));
                crate::text::lemma_split_more(tail@, 46);
            }
            rest = tail;
        } else {
            assert(left =~= seq![rest@]);
            more = false;
        }
        proof {
            seen = seen + 1;
        }
    }
    proof {
        assert(parts.skip(seen) =~= Seq::<Seq<u8>>::empty());
        assert(packet@ + Seq::<u8>::empty() =~= packet@);
    }
    packet.push(0);
    push_be16(&mut packet, 1);
    push_be16(&mut packet, 1);
    assert(packet@ =~= query(name@, tx_id));
    Ok(packet)
}

/// The name at the start of `rest`, read on after `name`: the name in dotted
/// form and the bytes after it. A name may end where the bytes do; compression
/// is an error.
pub open spec fn read_name(rest: Seq<u8>, name: Seq<u8>) -> Result<(Seq<u8>, Seq<u8>), DnsError>
    decreases rest.len(),
{
    if rest.len() == 0 {
        Ok((name, rest))
    } else if rest[0] == 0 {
        Ok((name, rest.skip(1)))
    } else if rest[0] >= 64 || 1 + rest[0] > rest.len() {
        Err(DnsError::FormatError)
    } else if !vstd::utf8::valid_utf8(rest.subrange(1, 1 + rest[0])) {
        Err(DnsError::InvalidHostname)
    } else {
        let label = rest.subrange(1, 1 + rest[0]);
        let longer = if name.len() == 0 {
            label
        } else {
            name.push(46) + label
        };
        read_name(rest.skip(1 + rest[0]), longer)
    }
}

/// The question in a message: transaction, name, type and class.
pub open spec fn question_of(packet: Seq<u8>) -> Result<(u16, Seq<u8>, u16, u16), DnsError> {
    if packet.len() < 12 || bytes::be16_at(packet, 4) < 1 {
        Err(DnsError::FormatError)
    } else {
        match read_name(packet.skip(12), Seq::empty()) {
            Err(e) => Err(e),
            Ok((name, rest)) => if rest.len() < 4 {
                Err(DnsError::FormatError)
            } else {
                Ok(
                    (
                        bytes::be16_at(packet, 0) as u16,
                        name,
                        bytes::be16_at(rest, 0) as u16,
                        bytes::be16_at(rest, 2) as u16,
                    ),
                )
            },
        }
    }
}

fn decode_name_bytes(packet: &[u8]) -> (r: Result<(u16, Vec<u8>, u16, u16), DnsError>)
    ensures
        match r {
            Err(e) => question_of(packet@) == Err::<(u16, Seq<u8>, u16, u16), DnsError>(e),
            Ok((tx_id, name, qtype, qclass)) => question_of(packet@) == Ok::<
                (u16, Seq<u8>, u16, u16),
                DnsError,
            >((tx_id, name@, qtype, qclass)) && vstd::utf8::valid_utf8(name@),
        },
{
    if packet.len() < 12 || get_be16(packet, 4) < 1 {
        return Err(DnsError::FormatError);
    }
    let mut offset: usize = 12;
    let mut name: Vec<u8> = Vec::new();
    let ghost goal = read_name(packet@.skip(12), Seq::empty());
    loop
        invariant_except_break
            12 <= offset <= packet.len(),
            read_name(packet@.skip(offset as int), name@) == goal,
            vstd::utf8::valid_utf8(name@),
        invariant
            packet.len() >= 12,
            bytes::be16_at(packet@, 4) >= 1,
            goal == read_name(packet@.skip(12), Seq::empty()),
        ensures
            12 <= offset <= packet.len(),
            vstd::utf8::valid_utf8(name@),
            goal == Ok::<(Seq<u8>, Seq<u8>), DnsError>((name@, packet@.skip(offset as int))),
        decreases packet.len() - offset,
    {
        let ghost rest = packet@.skip(offset as int);
        if offset == packet.len() {
            assert(rest.len() == 0);
            break ;
        }
        let len: usize = packet[offset] as usize;
        assert(rest[0] == len);
        if len == 0 {
            assert(rest.skip(1) =~= packet@.skip(offset + 1));
            offset += 1;
            break ;
        }
        if len >= 64 || packet.len() - offset < 1 + len {
            return Err(DnsError::FormatError);
        }
        let label = slice_subrange(packet, offset + 1, offset + 1 + len);
        proof {
            assert(label@ =~= rest.subrange(1, 1 + len));
            assert(rest.skip(1 + len) =~= packet@.skip(offset + 1 + len));
        }
        if !is_utf8(label) {
            return Err(DnsError::InvalidHostname);
        }
        let ghost shorter = name@;
        if name.len() > 0 {
            name.push(46);
            proof {
                let dot = seq![46u8];
                assert(vstd::utf8::valid_utf8(dot)) by {
                    assert(vstd::utf8::valid_first_scalar(dot));
                    assert(vstd::utf8::pop_first_scalar(dot) =~= Seq::<u8>::empty());
                    reveal_with_fuel(vstd::utf8::valid_utf8, 2);
                }
                vstd::utf8::valid_utf8_concat(shorter, dot);
                assert(shorter + dot =~= name@);
            }
        }
        proof {
            vstd::utf8::valid_utf8_concat(name@, label@);
            if shorter.len() == 0 {
                assert(name@ + label@ =~= label@);
            }
        }
        push_all(&mut name, label);
        offset = offset + 1 + len;
    }
    if packet.len() - offset < 4 {
        return Err(DnsError::FormatError);
    }
    let qtype: u16 = get_be16(packet, offset);
    let qclass: u16 = get_be16(packet, offset + 2);
    Ok((get_be16(packet, 0), name, qtype, qclass))
}

/// The question in a message: transaction, name, type and class.
pub fn decode_query_name(packet: &[u8]) -> (r: Result<(u16, String, u16, u16), DnsError>)
    ensures
        match r {
            Err(e) => question_of(packet@) == Err::<(u16, Seq<u8>, u16, u16), DnsError>(e),
            Ok((tx_id, name, qtype, qclass)) => question_of(packet@) == Ok::<
                (u16, Seq<u8>, u16, u16),
                DnsError,
            >((tx_id, text::utf8(name@), qtype, qclass)),
        },
{
    match decode_name_bytes(packet) {
        Err(e) => Err(e),
        Ok((tx_id, name, qtype, qclass)) => {
            let ghost bytes = name@;
            match string_from(name) {
                None => Err(DnsError::InvalidHostname),
                Some(text) => {
                    proof {
                        vstd::utf8::decode_utf8_encode_utf8(bytes);
                    }
                    Ok((tx_id, text, qtype, qclass))
                },
            }
        },
    }
}

// ---------------------------------------------------------------------------
// Responses
// ---------------------------------------------------------------------------
/// The place after the name at `offset`. A compression pointer ends the name
/// where it stands; the rest of the name is only followed, for at most 128
/// steps in all. `after` is the place after the first pointer, once one is met.
pub open spec fn skip_name(packet: Seq<u8>, offset: int, after: Option<int>, steps: nat) -> Result<
    int,
    DnsError,
>
    decreases 128 - steps,
{
    if offset >= packet.len() || steps >= 128 {
        match after {
            Some(place) => Ok(place),
            None => Err(DnsError::FormatError),
        }
    } else if packet[offset] == 0 {
        match after {
            Some(place) => Ok(place),
            None => Ok(offset + 1),
        }
    } else if packet[offset] >= 192 {
        if offset + 2 > packet.len() {
            Err(DnsError::FormatError)
        } else {
            let place = match after {
                Some(place) => place,
                None => offset + 2,
            };
            skip_name(
                packet,
                (packet[offset] - 192) * 256 + packet[offset + 1],
                Some(place),
                steps + 1,
            )
        }
    } else {
        skip_name(packet, offset + 1 + packet[offset], after, steps + 1)
    }
}

fn skip_dns_name(packet: &[u8], offset: usize) -> (r: Result<usize, DnsError>)
    requires
        offset <= packet.len(),
    ensures
        match r {
            Err(e) => skip_name(packet@, offset as int, None, 0) == Err::<int, DnsError>(e),
            Ok(place) => place <= packet.len() && skip_name(packet@, offset as int, None, 0) == Ok::<
                int,
                DnsError,
            >(place as int),
        },
{
    let mut place: usize = offset;
    let mut after: Option<usize> = None;
    let mut steps: usize = 0;
    let ghost goal = skip_name(packet@, offset as int, None, 0);
    while place < packet.len() && steps < 128
        invariant
            steps <= 128,
            goal == skip_name(packet@, offset as int, None, 0),
            goal == skip_name(
                packet@,
                place as int,
                match after {
                    Some(a) => Some(a as int),
                    None => None,
                },
                steps as nat,
            ),
            after matches Some(a) ==> a <= packet.len(),
            place <= packet.len() + 255 || place <= 65535,
        decreases 128 - steps,
    {
        let len: u8 = packet[place];
        steps += 1;
        if len == 0 {
            return match after {
                Some(a) => Ok(a),
                None => Ok(place + 1),
            };
        }
        if len >= 192 {
            if packet.len() - place < 2 {
                return Err(DnsError::FormatError);
            }
            if after.is_none() {
                after = Some(place + 2);
            }
            place = (len - 192) as usize * 256 + packet[place + 1] as usize;
        } else {
            if packet.len() - place < 1 + len as usize {
                // The label runs past the end: nothing follows it.
                proof {
                    reveal_with_fuel(skip_name, 3);
                }
                return match after {
                    Some(a) => Ok(a),
                    None => Err(DnsError::FormatError),
                };
            }
            place = place + 1 + len as usize;
        }
    }
    match after {
        Some(a) => Ok(a),
        None => Err(DnsError::FormatError),
    }
}

/// The place after `count` questions that start at `offset`.
pub open spec fn skip_questions(packet: Seq<u8>, offset: int, count: nat) -> Result<int, DnsError>
    decreases count,
{
    if count == 0 {
        Ok(offset)
    } else {
        match skip_name(packet, offset, None, 0) {
            Err(e) => Err(e),
            Ok(place) => if place + 4 > packet.len() {
                Err(DnsError::FormatError)
            } else {
                skip_questions(packet, place + 4, (count - 1) as nat)
            },
        }
    }
}

/// The first Internet address among `count` records that start at `offset`,
/// with its time to live.
pub open spec fn find_address(packet: Seq<u8>, offset: int, count: nat) -> Result<
    (Ipv4Address, u32),
    DnsError,
>
    decreases count,
{
    if count == 0 {
        Err(DnsError::NoRecords)
    } else {
        match skip_name(packet, offset, None, 0) {
            Err(e) => Err(e),
            Ok(place) => {
                let length = bytes::be16_at(packet, place + 8);
                if place + 10 > packet.len() || place + 10 + length > packet.len() {
                    Err(DnsError::FormatError)
                } else if bytes::be16_at(packet, place) == 1 && bytes::be16_at(packet, place + 2) == 1 && length
                    == 4 {
                    Ok(
                        (
                            network::ip_of(packet.subrange(place + 10, place + 14)),
                            bytes::be32_at(packet, place + 4) as u32,
                        ),
                    )
                } else {
                    find_address(packet, place + 10 + length, (count - 1) as nat)
                }
            },
        }
    }
}

/// The address and time to live that a response gives.
pub open spec fn answer_of(packet: Seq<u8>, expected: Option<u16>) -> Result<
    (Ipv4Address, u32),
    DnsError,
> {
    let flags = bytes::be16_at(packet, 2);
    if packet.len() < 12 || (expected matches Some(id) && bytes::be16_at(packet, 0) != id) || flags
        < 0x8000 {
        Err(DnsError::FormatError)
    } else if flags % 16 == 3 {
        Err(DnsError::NxDomain)
    } else if flags % 16 != 0 {
        Err(DnsError::ServerFailure)
    } else if bytes::be16_at(packet, 6) == 0 {
        Err(DnsError::NoRecords)
    } else {
        match skip_questions(packet, 12, bytes::be16_at(packet, 4) as nat) {
            Err(e) => Err(e),
            Ok(offset) => find_address(packet, offset, bytes::be16_at(packet, 6) as nat),
        }
    }
}

/// The address and time to live that a response gives.
pub fn decode_response(packet: &[u8], expected_tx_id: Option<u16>) -> (r: Result<
    (Ipv4Address, u32),
    DnsError,
>)
    ensures
        r == answer_of(packet@, expected_tx_id),
{
    if packet.len() < 12 {
        return Err(DnsError::FormatError);
    }
    if let Some(expected) = expected_tx_id {
        if get_be16(packet, 0) != expected {
            return Err(DnsError::FormatError);
        }
    }
    let flags: u16 = get_be16(packet, 2);
    if flags < 0x8000 {
        return Err(DnsError::FormatError);
    }
    let rcode: u16 = flags % 16;
    if rcode == 3 {
        return Err(DnsError::NxDomain);
    } else if rcode != 0 {
        return Err(DnsError::ServerFailure);
    }
    let questions: u16 = get_be16(packet, 4);
    let answers: u16 = get_be16(packet, 6);
    if answers == 0 {
        return Err(DnsError::NoRecords);
    }
    let mut offset: usize = 12;
    let mut left: u16 = questions;
    while left > 0
        invariant
            offset <= packet.len(),
            skip_questions(packet@, offset as int, left as nat) == skip_questions(
                packet@,
                12,
                questions as nat,
            ),
            questions == bytes::be16_at(packet@, 4),
            answers == bytes::be16_at(packet@, 6),
            flags == bytes::be16_at(packet@, 2),
            flags >= 0x8000,
            flags % 16 == 0,
            answers > 0,
            packet.len() >= 12,
            expected_tx_id matches Some(id) ==> bytes::be16_at(packet@, 0) == id,
        decreases left,
    {
        match skip_dns_name(packet, offset) {
            Err(e) => {
                return Err(e);
            },
            Ok(place) => {
                if packet.len() - place < 4 {
                    return Err(DnsError::FormatError);
                }
                offset = place + 4;
            },
        }
        left -= 1;
    }
    let ghost start = offset as int;
    left = answers;
    while left > 0
        invariant
            offset <= packet.len(),
            find_address(packet@, offset as int, left as nat) == find_address(
                packet@,
                start,
                answers as nat,
            ),
            skip_questions(packet@, 12, questions as nat) == Ok::<int, DnsError>(start),
            questions == bytes::be16_at(packet@, 4),
            answers == bytes::be16_at(packet@, 6),
            flags == bytes::be16_at(packet@, 2),
            flags >= 0x8000,
            flags % 16 == 0,
            answers > 0,
            packet.len() >= 12,
            expected_tx_id matches Some(id) ==> bytes::be16_at(packet@, 0) == id,
        decreases left,
    {
        match skip_dns_name(packet, offset) {
            Err(e) => {
                return Err(e);
            },
            Ok(place) => {
                if packet.len() - place < 10 {
                    return Err(DnsError::FormatError);
                }
                let length: usize = get_be16(packet, place + 8) as usize;
                if packet.len() - place - 10 < length {
                    return Err(DnsError::FormatError);
                }
                if get_be16(packet, place) == 1 && get_be16(packet, place + 2) == 1 && length == 4 {
                    let ip = array4_at(packet, place + 10);
                    proof {
                        network::lemma_ip_of(ip);
                    }
                    return Ok((ip, get_be32(packet, place + 4)));
                }
                offset = place + 10 + length;
            },
        }
        left -= 1;
    }
    Err(DnsError::NoRecords)
}

/// The place after the labels that start at `offset`, with the zero that ends
/// them; past the end if they run past it.
pub open spec fn labels_end(packet: Seq<u8>, offset: int) -> int
    decreases packet.len() + 256 - offset,
{
    if offset < 0 || offset >= packet.len() {
        offset
    } else if packet[offset] == 0 {
        offset + 1
    } else {
        labels_end(packet, offset + 1 + packet[offset])
    }
}

/// The question section of a query, with type and class; empty if it is cut off.
pub open spec fn question_section(query_packet: Seq<u8>) -> Seq<u8> {
    let end = labels_end(query_packet, 12) + 4;
    if end <= query_packet.len() {
        query_packet.subrange(12, end)
    } else {
        Seq::empty()
    }
}

/// An address record for the name at place 12.
pub open spec fn address_record(ip: Seq<u8>, ttl: u32) -> Seq<u8> {
    seq![0xc0u8, 0x0cu8] + bytes::be16_bytes(1) + bytes::be16_bytes(1) + bytes::be32_bytes(ttl) + bytes::be16_bytes(4) + ip
}

/// The response to a query: one question, one address; nothing to a packet
/// without a header.
pub open spec fn response(query_packet: Seq<u8>, ip: Seq<u8>, ttl: u32) -> Seq<u8> {
    if query_packet.len() < 12 {
        Seq::empty()
    } else {
        header(bytes::be16_at(query_packet, 0) as u16, 0x8180, 1, 1) + question_section(query_packet)
            + address_record(ip, ttl)
    }
}

pub fn build_response(query_packet: &[u8], ip: Ipv4Address, ttl: u32) -> (r: Vec<u8>)
    requires
        query_packet.len() + 260 <= usize::MAX,
    ensures
        r@ == response(query_packet@, ip@, ttl),
{
    let mut resp: Vec<u8> = Vec::with_capacity(query_packet.len() + 16);
    if query_packet.len() < 12 {
        return resp;
    }
    push_header(&mut resp, get_be16(query_packet, 0), 0x8180, 1, 1);
    let mut end: usize = 12;
    while end < query_packet.len()
        invariant_except_break
            end <= query_packet.len() + 255,
            labels_end(query_packet@, end as int) == labels_end(query_packet@, 12),
        invariant
            query_packet.len() + 260 <= usize::MAX,
            12 <= end,
        ensures
            end <= query_packet.len() + 255,
            end == labels_end(query_packet@, 12),
        decreases query_packet.len() + 255 - end,
    {
        let len: u8 = query_packet[end];
        end += 1;
        if len == 0 {
            break ;
        }
        end += len as usize;
    }
    end += 4;
    let ghost before = resp@;
    if end <= query_packet.len() {
        push_all(&mut resp, slice_subrange(query_packet, 12, end));
    }
    assert(resp@ =~= before + question_section(query_packet@));
    resp.push(0xc0);
    resp.push(0x0c);
    push_be16(&mut resp, 1);
    push_be16(&mut resp, 1);
    push_be32(&mut resp, ttl);
    push_be16(&mut resp, 4);
    push_all(&mut resp, ip.as_slice());
    assert(resp@ =~= response(query_packet@, ip@, ttl));
    resp
}

// ---------------------------------------------------------------------------
// The resolver
// ---------------------------------------------------------------------------
/// The resolver's state: the next transaction number, the counters and the cache.
pub struct Resolver {
    pub tx_id_counter: u16,
    pub outbound_queries: u64,
    pub cache_hits: u64,
    pub cache: Cache,
}

/// Answers by name, each name at most once.
pub struct Cache {
    pub entries: Vec<(Vec<u8>, DnsCacheEntry)>,
}

impl Cache {
    pub open spec fn wf(&self) -> bool {
        forall|i: int, j: int|
            0 <= i < j < self.entries.len() ==> self.entries@[i].0@ != self.entries@[j].0@
    }

    pub open spec fn holds(&self, name: Seq<u8>) -> bool {
        exists|i: int| 0 <= i < self.entries.len() && #[trigger] self.entries@[i].0@ == name
    }

    pub open spec fn view(&self) -> Map<Seq<u8>, DnsCacheEntry> {
        Map::new(
            |name: Seq<u8>| self.holds(name),
            |name: Seq<u8>|
                self.entries@[choose|i: int|
                    0 <= i < self.entries.len() && #[trigger] self.entries@[i].0@ == name].1,
        )
    }

    pub fn new() -> (r: Self)
        ensures
            r.wf(),
            r@ == Map::<Seq<u8>, DnsCacheEntry>::empty(),
            r.entries.len() == 0,
    {
        let r = Cache { entries: Vec::new() };
        assert(r@ =~= Map::<Seq<u8>, DnsCacheEntry>::empty());
        r
    }

    proof fn lemma_entry(&self, i: int)
        requires
            self.wf(),
            0 <= i < self.entries.len(),
        ensures
            self@.dom().contains(self.entries@[i].0@),
            self@[self.entries@[i].0@] == self.entries@[i].1,
    {
        let name = self.entries@[i].0@;
        let j = choose|j: int|
            0 <= j < self.entries.len() && #[trigger] self.entries@[j].0@ == name;
        assert(self.entries@[j].0@ == self.entries@[i].0@);
        assert(i == j);
    }

    fn find(&self, name: &[u8]) -> (r: Option<usize>)
        requires
            self.wf(),
        ensures
            r is Some <==> self@.dom().contains(name@),
            r matches Some(i) ==> i < self.entries.len() && self.entries@[i as int].0@ == name@,
    {
        let mut i: usize = 0;
        while i < self.entries.len()
            invariant
                i <= self.entries.len(),
                forall|j: int| 0 <= j < i ==> (#[trigger] self.entries@[j]).0@ != name@,
            decreases self.entries.len() - i,
        {
            if bytes_equal(self.entries[i].0.as_slice(), name) {
                assert(self.entries@[i as int].0@ == name@);
                return Some(i);
            }
            i += 1;
        }
        None
    }

    pub fn get(&self, name: &[u8]) -> (r: Option<DnsCacheEntry>)
        requires
            self.wf(),
        ensures
            r is Some <==> self@.dom().contains(name@),
            r matches Some(e) ==> e == self@[name@],
    {
        match self.find(name) {
            Some(i) => {
                proof {
                    self.lemma_entry(i as int);
                }
                Some(self.entries[i].1)
            },
            None => None,
        }
    }

    pub fn insert(&mut self, name: Vec<u8>, entry: DnsCacheEntry)
        requires
            old(self).wf(),
        ensures
            final(self).wf(),
            final(self)@ == old(self)@.insert(name@, entry),
    {
        let found = self.find(name.as_slice());
        let ghost before = *self;
        let ghost key = name@;
        let ghost place = match found {
            Some(i) => i as int,
            None => self.entries@.len() as int,
        };
        match found {
            Some(i) => {
                self.entries[i] = (name, entry);
            },
            None => {
                assert forall|j: int| 0 <= j < self.entries.len() implies (
                #[trigger] self.entries@[j]).0@ != key by {
                    before.lemma_entry(j);
                }
                self.entries.push((name, entry));
            },
        }
        proof {
            assert(self.entries@[place].0@ == key && self.entries@[place].1 == entry);
            assert(self.holds(key));
            assert(self.wf()) by {
                assert forall|i: int, j: int| 0 <= i < j < self.entries.len() implies
                    self.entries@[i].0@ != self.entries@[j].0@ by {
                    if i != place && j != place {
                        assert(before.entries@[i].0@ != before.entries@[j].0@);
                    } else if i == place {
                        if found is Some {
                            assert(before.entries@[i].0@ != before.entries@[j].0@);
                        }
                    } else {
                        if found is Some {
                            assert(before.entries@[i].0@ != before.entries@[j].0@);
                        } else {
                            assert(before.entries@[i].0@ != key);
                        }
                    }
                }
            }
            assert forall|k: Seq<u8>| #[trigger]
                self@.dom().contains(k) == before@.insert(key, entry).dom().contains(k) by {
                if before.holds(k) {
                    let j = choose|j: int|
                        0 <= j < before.entries.len() && #[trigger] before.entries@[j].0@ == k;
                    assert(self.entries@[j].0@ == k);
                }
                if self.holds(k) {
                    let j = choose|j: int|
                        0 <= j < self.entries.len() && #[trigger] self.entries@[j].0@ == k;
                    if j != place {
                        assert(before.entries@[j].0@ == k);
                    }
                }
            }
            assert forall|k: Seq<u8>| #[trigger] self@.dom().contains(k) implies self@[k]
                == before@.insert(key, entry)[k] by {
                let j = choose|j: int|
                    0 <= j < self.entries.len() && #[trigger] self.entries@[j].0@ == k;
                self.lemma_entry(j);
                if j != place {
                    before.lemma_entry(j);
                    assert(self.entries@[j] == before.entries@[j]);
                    assert(self.entries@[j].0@ != self.entries@[place].0@);
                }
            }
            assert(self@ =~= before@.insert(key, entry));
        }
    }
}

impl Resolver {
    pub open spec fn wf(&self) -> bool {
        self.cache.wf()
    }

    pub fn new() -> (r: Self)
        ensures
            r.wf(),
            r.tx_id_counter == 0x2000,
            r.outbound_queries == 0,
            r.cache_hits == 0,
            r.cache@ == Map::<Seq<u8>, DnsCacheEntry>::empty(),
    {
        Resolver { tx_id_counter: 0x2000, outbound_queries: 0, cache_hits: 0, cache: Cache::new() }
    }
}

/// Queries sent on, queries answered from the cache, and names in the cache.
pub fn get_dns_stats(resolver: &Resolver) -> (r: (u64, u64, usize))
    ensures
        r.0 == resolver.outbound_queries,
        r.1 == resolver.cache_hits,
        r.2 == resolver.cache.entries.len(),
{
    (resolver.outbound_queries, resolver.cache_hits, resolver.cache.entries.len())
}

pub fn clear_cache(resolver: &mut Resolver)
    ensures
        final(resolver).wf(),
        final(resolver).cache@ == Map::<Seq<u8>, DnsCacheEntry>::empty(),
        final(resolver).cache.entries.len() == 0,
        final(resolver).tx_id_counter == old(resolver).tx_id_counter,
        final(resolver).outbound_queries == old(resolver).outbound_queries,
        final(resolver).cache_hits == old(resolver).cache_hits,
{
    resolver.cache = Cache::new();
}

pub fn next_tx_id(resolver: &mut Resolver) -> (r: u16)
    ensures
        r == old(resolver).tx_id_counter,
        *final(resolver) == (Resolver {
            tx_id_counter: old(resolver).tx_id_counter.wrapping_add(1),
            ..*old(resolver)
        }),
{
    let id: u16 = resolver.tx_id_counter;
    resolver.tx_id_counter = id.wrapping_add(1);
    id
}

/// The name that an address question asks for, in small letters.
pub open spec fn asked_name(query_packet: Seq<u8>) -> Option<Seq<u8>> {
    match question_of(query_packet) {
        Ok((_, name, qtype, qclass)) => if qtype == 1 && qclass == 1 {
            Some(text::lowercase(name))
        } else {
            None
        },
        Err(_) => None,
    }
}

/// The seconds that are left to an entry, at least one.
pub open spec fn seconds_left(entry: DnsCacheEntry, now: u64) -> u32 {
    let left = ((entry.expire_tick - now) / 1000 % 0x1_0000_0000) as u32;
    if left == 0 {
        1
    } else {
        left
    }
}

pub open spec fn name_localhost() -> Seq<u8> {
    seq![108u8, 111u8, 99u8, 97u8, 108u8, 104u8, 111u8, 115u8, 116u8]
}

pub open spec fn name_vanta() -> Seq<u8> {
    seq![118u8, 97u8, 110u8, 116u8, 97u8]
}

/// The answer that the resolver has itself: fixed names, else a cached address
/// that has not expired.
pub open spec fn local_answer(
    cache: Map<Seq<u8>, DnsCacheEntry>,
    name: Seq<u8>,
    our_ip: Ipv4Address,
    now: u64,
) -> Option<(Seq<u8>, u32)> {
    if name == name_localhost() {
        Some((seq![127u8, 0u8, 0u8, 1u8], 86400))
    } else if name == name_vanta() {
        Some((our_ip@, 86400))
    } else if cache.dom().contains(name) && now < cache[name].expire_tick {
        Some((cache[name].ip@, seconds_left(cache[name], now)))
    } else {
        None
    }
}

/// Whether a name is one of the fixed ones.
pub open spec fn is_fixed(name: Seq<u8>) -> bool {
    name == name_localhost() || name == name_vanta()
}

/// Answers a query without the network, if that is possible; otherwise counts
/// it as sent on.
pub fn handle_dns_datagram(
    resolver: &mut Resolver,
    query_bytes: &[u8],
    our_ip: Ipv4Address,
    current_ticks: u64,
) -> (r: Option<Vec<u8>>)
    requires
        old(resolver).wf(),
        query_bytes.len() + 260 <= usize::MAX,
    ensures
        final(resolver).wf(),
        final(resolver).cache@ == old(resolver).cache@,
        final(resolver).tx_id_counter == old(resolver).tx_id_counter,
        match asked_name(query_bytes@) {
            None => r is None && *final(resolver) == *old(resolver),
            Some(name) => match local_answer(
                old(resolver).cache@,
                name,
                our_ip,
                current_ticks,
            ) {
                Some((ip, ttl)) => {
                    &&& r matches Some(packet) && packet@ == response(query_bytes@, ip, ttl)
                    &&& final(resolver).outbound_queries == old(resolver).outbound_queries
                    &&& final(resolver).cache_hits == (if is_fixed(name) {
                        old(resolver).cache_hits
                    } else {
                        old(resolver).cache_hits.wrapping_add(1)
                    })
                },
                None => {
                    &&& r is None
                    &&& final(resolver).outbound_queries == old(
                        resolver).outbound_queries.wrapping_add(1)
                    &&& final(resolver).cache_hits == old(resolver).cache_hits
                },
            },
        },
{
    let (name, qtype, qclass) = match decode_name_bytes(query_bytes) {
        Err(_) => {
            return None;
        },
        Ok((_, name, qtype, qclass)) => (name, qtype, qclass),
    };
    if qtype != 1 || qclass != 1 {
        return None;
    }
    let lower = to_lowercase(name.as_slice());
    let localhost: [u8; 9] = [108, 111, 99, 97, 108, 104, 111, 115, 116];
    let vanta: [u8; 5] = [118, 97, 110, 116, 97];
    let home: Ipv4Address = [127, 0, 0, 1];
    assert(localhost@ =~= name_localhost());
    assert(vanta@ =~= name_vanta());
    assert(home@ =~= seq![127u8, 0u8, 0u8, 1u8]);
    if bytes_equal(lower.as_slice(), localhost.as_slice()) {
        return Some(build_response(query_bytes, home, 86400));
    }
    if bytes_equal(lower.as_slice(), vanta.as_slice()) {
        return Some(build_response(query_bytes, our_ip, 86400));
    }
    if let Some(entry) = resolver.cache.get(lower.as_slice()) {
        if current_ticks < entry.expire_tick {
            let left: u32 = ((entry.expire_tick - current_ticks) / 1000 % 0x1_0000_0000) as u32;
            let ttl: u32 = if left == 0 {
                1
            } else {
                left
            };
            resolver.cache_hits = resolver.cache_hits.wrapping_add(1);
            return Some(build_response(query_bytes, entry.ip, ttl));
        }
    }
    resolver.outbound_queries = resolver.outbound_queries.wrapping_add(1);
    None
}

/// The tick until which the answer of a response is kept.
pub open spec fn kept_until(packet: Seq<u8>, now: u64) -> int {
    match (question_of(packet), answer_of(packet, None)) {
        (Ok(_), Ok((_, ttl))) => now + (if ttl < 5 {
            5
        } else {
            ttl as int
        }) * 1000,
        _ => now as int,
    }
}

/// The cache after a response has been seen: a positive answer is kept, for at
/// least five seconds.
pub open spec fn recorded(
    cache: Map<Seq<u8>, DnsCacheEntry>,
    packet: Seq<u8>,
    now: u64,
) -> Map<Seq<u8>, DnsCacheEntry> {
    match (question_of(packet), answer_of(packet, None)) {
        (Ok((_, name, _, _)), Ok((ip, ttl))) => cache.insert(
            text::lowercase(name),
            DnsCacheEntry {
                ip,
                ttl,
                expire_tick: kept_until(packet, now) as u64,
            },
        ),
        _ => cache,
    }
}

/// Keeps the answer that a response gives.
pub fn record_dns_response(resolver: &mut Resolver, packet: &[u8], current_ticks: u64)
    requires
        old(resolver).wf(),
        kept_until(packet@, current_ticks) <= u64::MAX,
    ensures
        final(resolver).wf(),
        final(resolver).cache@ == recorded(old(resolver).cache@, packet@, current_ticks),
        final(resolver).tx_id_counter == old(resolver).tx_id_counter,
        final(resolver).outbound_queries == old(resolver).outbound_queries,
        final(resolver).cache_hits == old(resolver).cache_hits,
{
    if packet.len() < 12 {
        return;
    }
    let flags: u16 = get_be16(packet, 2);
    if flags < 0x8000 || flags % 16 != 0 {
        return;
    }
    if let Ok((_, name, _, _)) = decode_name_bytes(packet) {
        if let Ok((ip, ttl)) = decode_response(packet, None) {
            let lower = to_lowercase(name.as_slice());
            let kept: u64 = if ttl < 5 {
                5
            } else {
                ttl as u64
            };
            resolver.cache.insert(
                lower,
                DnsCacheEntry { ip, ttl, expire_tick: current_ticks + kept * 1000 },
            );
        }
    }
}

/// A name that is read to its end lies before the place where its labels end,
/// and reads the same in any packet that has the same bytes there.
proof fn lemma_name_carries(
    q: Seq<u8>,
    r: Seq<u8>,
    o: int,
    name: Seq<u8>,
    steps: nat,
    after: int,
    more: nat,
)
    requires
        0 <= o <= q.len(),
        read_name(q.skip(o), name) matches Ok((_, rest)) && rest.len() >= 4,
        labels_end(q, o) + 4 <= r.len(),
        forall|i: int| o <= i < labels_end(q, o) && i < q.len() ==> r[i] == q[i],
    ensures
        o < labels_end(q, o) <= q.len() - 4,
        read_name(q.skip(o), name)->Ok_0.1 == q.skip(labels_end(q, o)),
        read_name(r.skip(o), name) == Ok::<(Seq<u8>, Seq<u8>), DnsError>(
            (read_name(q.skip(o), name)->Ok_0.0, r.skip(labels_end(q, o))),
        ),
        skip_name(q, o, None, steps) is Ok ==> skip_name(r, o, None, steps) == Ok::<int, DnsError>(
            labels_end(q, o),
        ),
        skip_name(r, o, Some(after), more) == Ok::<int, DnsError>(after),
    decreases q.len() - o,
{
    let rest = q.skip(o);
    assert(rest.len() > 0);
    assert(rest[0] == q[o]);
    let n = q[o] as int;
    if n == 0 {
        assert(rest.skip(1) =~= q.skip(o + 1));
        assert(r.skip(o).skip(1) =~= r.skip(o + 1));
        assert(r.skip(o)[0] == 0);
    } else {
        let label = rest.subrange(1, 1 + n);
        let longer = if name.len() == 0 {
            label
        } else {
            name.push(46) + label
        };
        assert(rest.skip(1 + n) =~= q.skip(o + 1 + n));
        lemma_name_carries(q, r, o + 1 + n, longer, steps + 1, after, more + 1);
        assert(r.skip(o)[0] == n);
        assert(r.skip(o).subrange(1, 1 + n) =~= label);
        assert(r.skip(o).skip(1 + n) =~= r.skip(o + 1 + n));
    }
}

/// A response carries the question of its query, and answers it with the
/// address and the time to live that it was built for. The query is one that
/// can be answered at all: its name has at most 127 labels.
pub proof fn law_response_answers(q: Seq<u8>, ip: Ipv4Address, ttl: u32)
    requires
        question_of(q) is Ok,
        skip_name(q, 12, None, 0) is Ok,
    ensures
        question_of(response(q, ip@, ttl)) == question_of(q),
        answer_of(response(q, ip@, ttl), Some(bytes::be16_at(q, 0) as u16)) == Ok::<
            (Ipv4Address, u32),
            DnsError,
        >((ip, ttl)),
        answer_of(response(q, ip@, ttl), None) == Ok::<(Ipv4Address, u32), DnsError>((ip, ttl)),
{
    let e = labels_end(q, 12);
    let id = bytes::be16_at(q, 0) as u16;
    let h = header(id, 0x8180, 1, 1);
    let body = q.subrange(12, e + 4);
    let rec = address_record(ip@, ttl);
    let p = h + body + rec;
    lemma_question_inside(q, 12, Seq::empty());
    assert(question_section(q) == body);
    assert(response(q, ip@, ttl) == p);
    assert(h.len() == 12 && rec.len() == 16 && p.len() == e + 20);
    assert forall|i: int| 12 <= i < e + 4 implies p[i] == q[i] by {}
    lemma_name_carries(q, p, 12, Seq::empty(), 0, e + 6, 1);
    assert(p[0] == h[0] && p[1] == h[1] && p[2] == h[2] && p[3] == h[3] && p[4] == h[4] && p[5]
        == h[5] && p[6] == h[6] && p[7] == h[7]);
    assert(bytes::be16_at(p, 0) == id);
    assert(bytes::be16_at(p, 2) == 0x8180 && bytes::be16_at(p, 4) == 1 && bytes::be16_at(p, 6) == 1);
    assert(p.skip(e)[0] == q.skip(e)[0] && p.skip(e)[1] == q.skip(e)[1] && p.skip(e)[2]
        == q.skip(e)[2] && p.skip(e)[3] == q.skip(e)[3]);
    assert(forall|i: int| 0 <= i < 16 ==> p[e + 4 + i] == #[trigger] rec[i]);
    assert(rec[0] == 0xc0 && rec[1] == 0x0c);
    assert(p[e + 4] == rec[0] && p[e + 5] == rec[1]);
    reveal_with_fuel(skip_questions, 2);
    assert(skip_questions(p, 12, 1) == Ok::<int, DnsError>(e + 4));
    // The record's name is a pointer to the question's.
    assert(skip_name(p, e + 4, None, 0) == Ok::<int, DnsError>(e + 6));
    let a = p.subrange(e + 16, e + 20);
    assert(a =~= ip@) by {
        assert forall|i: int| 0 <= i < 4 implies a[i] == ip@[i] by {
            assert(p[e + 4 + (12 + i)] == rec[12 + i]);
            assert(rec[12 + i] == ip@[i]);
        }
    }
    network::lemma_ip_of(ip);
    assert(p[e + 4 + 2] == rec[2] && p[e + 4 + 3] == rec[3] && p[e + 4 + 4] == rec[4] && p[e + 4
        + 5] == rec[5] && p[e + 4 + 10] == rec[10] && p[e + 4 + 11] == rec[11]);
    assert(p[e + 4 + 6] == rec[6] && p[e + 4 + 7] == rec[7] && p[e + 4 + 8] == rec[8] && p[e + 4
        + 9] == rec[9]);
    assert(bytes::be16_at(p, e + 6) == 1 && bytes::be16_at(p, e + 8) == 1 && bytes::be16_at(p, e + 14) == 4);
    assert(bytes::be32_at(p, e + 10) == ttl);
    reveal_with_fuel(find_address, 2);
}

proof fn lemma_question_inside(q: Seq<u8>, o: int, name: Seq<u8>)
    requires
        0 <= o <= q.len(),
        read_name(q.skip(o), name) matches Ok((_, rest)) && rest.len() >= 4,
    ensures
        o < labels_end(q, o) <= q.len() - 4,
    decreases q.len() - o,
{
    let rest = q.skip(o);
    assert(rest.len() > 0);
    assert(rest[0] == q[o]);
    let n = q[o] as int;
    if n != 0 {
        let label = rest.subrange(1, 1 + n);
        let longer = if name.len() == 0 {
            label
        } else {
            name.push(46) + label
        };
        assert(rest.skip(1 + n) =~= q.skip(o + 1 + n));
        lemma_question_inside(q, o + 1 + n, longer);
    } else {
        assert(rest.skip(1) =~= q.skip(o + 1));
    }
}

/// Text cut before an ASCII byte is text on both sides.
proof fn lemma_text_cut(s: Seq<u8>, i: int)
    requires
        vstd::utf8::valid_utf8(s),
        0 <= i < s.len(),
        s[i] < 128,
    ensures
        vstd::utf8::valid_utf8(s.take(i)),
        vstd::utf8::valid_utf8(s.skip(i)),
        vstd::utf8::valid_utf8(s.skip(i + 1)),
    decreases s.len(),
{
    if i == 0 {
        assert(s.skip(0) =~= s);
        assert(vstd::utf8::pop_first_scalar(s) =~= s.skip(1));
    } else {
        let n = vstd::utf8::length_of_first_scalar(s);
        let rest = vstd::utf8::pop_first_scalar(s);
        assert(n <= i);
        lemma_text_cut(rest, i - n);
        assert(rest.skip(i - n) =~= s.skip(i));
        assert(rest.skip(i - n + 1) =~= s.skip(i + 1));
        let head = s.take(i);
        assert(vstd::utf8::pop_first_scalar(head) =~= rest.take(i - n));
        assert(vstd::utf8::valid_first_scalar(head));
    }
}

proof fn lemma_read_labels(name: Seq<u8>, acc: Seq<u8>, tail: Seq<u8>)
    requires
        vstd::utf8::valid_utf8(name),
        forall|i: int|
            0 <= i < text::split(name, 46).len() ==> 0 < (#[trigger] text::split(name, 46)[i]).len() <= 63,
    ensures
        read_name(label_bytes(text::split(name, 46)) + seq![0u8] + tail, acc) == Ok::<
            (Seq<u8>, Seq<u8>),
            DnsError,
        >(
            (
                if acc.len() == 0 {
                    name
                } else {
                    acc.push(46) + name
                },
                tail,
            ),
        ),
    decreases name.len(),
{
    crate::text::lemma_first_index_bounds(name, 46);
    let i = text::first_index(name, 46);
    let parts = text::split(name, 46);
    let label = parts[0];
    let rest = parts.skip(1);
    let packet = label_bytes(parts) + seq![0u8] + tail;
    let after = label_bytes(rest) + seq![0u8] + tail;
    assert(0 < label.len() <= 63);
    assert(packet =~= seq![label.len() as u8] + label + after);
    assert(packet.subrange(1, 1int + label.len()) =~= label);
    assert(packet.skip(1int + label.len()) =~= after);
    let longer = if acc.len() == 0 {
        label
    } else {
        acc.push(46) + label
    };
    if i < name.len() {
        let right = name.skip(i + 1);
        lemma_text_cut(name, i);
        assert(rest =~= text::split(right, 46));
        assert forall|k: int| 0 <= k < text::split(right, 46).len() implies 0 < (#[trigger] text::split(
            right,
            46,
        )[k]).len() <= 63 by {
            assert(text::split(right, 46)[k] == parts[k + 1]);
        }
        lemma_read_labels(right, longer, tail);
        if acc.len() == 0 {
            assert(longer.push(46) + right =~= name);
        } else {
            assert(longer.push(46) + right =~= acc.push(46) + name);
        }
    } else {
        assert(parts =~= seq![name]);
        assert(rest =~= Seq::empty());
        assert(after =~= seq![0u8] + tail);
        assert(after.skip(1) =~= tail);
        reveal_with_fuel(read_name, 2);
    }
}

/// The question that is asked for a name is read back as that name, with type
/// and class of an Internet address. A name with an empty label is left out:
/// its labels are sent without the empty ones.
pub proof fn law_question_round_trip(name: Seq<u8>, tx_id: u16)
    requires
        can_ask(name),
        vstd::utf8::valid_utf8(name),
        forall|i: int| 0 <= i < text::split(name, 46).len() ==> (#[trigger] text::split(name, 46)[i]).len() > 0,
    ensures
        question_of(query(name, tx_id)) == Ok::<(u16, Seq<u8>, u16, u16), DnsError>(
            (tx_id, name, 1, 1),
        ),
{
    let p = query(name, tx_id);
    let tail = bytes::be16_bytes(1) + bytes::be16_bytes(1);
    lemma_read_labels(name, Seq::empty(), tail);
    assert(p.skip(12) =~= label_bytes(text::split(name, 46)) + seq![0u8] + tail);
    assert(bytes::be16_at(p, 0) == tx_id);
    assert(bytes::be16_at(p, 4) == 1);
    assert(bytes::be16_at(tail, 0) == 1 && bytes::be16_at(tail, 2) == 1);
}

/// An answer that has been recorded is given to the same question again, until
/// its time has passed, at least five seconds later.
pub proof fn law_recorded_answer_given(
    cache: Map<Seq<u8>, DnsCacheEntry>,
    q: Seq<u8>,
    ip: Ipv4Address,
    ttl: u32,
    our_ip: Ipv4Address,
    seen: u64,
    now: u64,
)
    requires
        asked_name(q) matches Some(name) && !is_fixed(name),
        skip_name(q, 12, None, 0) is Ok,
        seen + (if ttl < 5 {
            5
        } else {
            ttl as int
        }) * 1000 <= u64::MAX,
        now < seen + ttl * 1000 || now < seen + 5000,
    ensures
        local_answer(
            recorded(cache, response(q, ip@, ttl), seen),
            asked_name(q)->0,
            our_ip,
            now,
        ) matches Some((found, _)) && found == ip@,
{
    law_response_answers(q, ip, ttl);
}

/// The labels of a name are read to their end, whatever the bytes after them.
proof fn lemma_labels_read(name: Seq<u8>, acc: Seq<u8>, tail: Seq<u8>)
    requires
        vstd::utf8::valid_utf8(name),
        forall|i: int|
            0 <= i < text::split(name, 46).len() ==> (#[trigger] text::split(name, 46)[i]).len() <= 63,
    ensures
        read_name(label_bytes(text::split(name, 46)) + seq![0u8] + tail, acc) matches Ok((_, rest))
            && rest == tail,
    decreases name.len(),
{
    crate::text::lemma_first_index_bounds(name, 46);
    let i = text::first_index(name, 46);
    let parts = text::split(name, 46);
    let label = parts[0];
    let rest = parts.skip(1);
    let packet = label_bytes(parts) + seq![0u8] + tail;
    let after = label_bytes(rest) + seq![0u8] + tail;
    assert(label.len() <= 63);
    let longer = if label.len() == 0 {
        acc
    } else if acc.len() == 0 {
        label
    } else {
        acc.push(46) + label
    };
    if label.len() > 0 {
        assert(packet =~= seq![label.len() as u8] + label + after);
        assert(packet.subrange(1, 1int + label.len()) =~= label);
        assert(packet.skip(1int + label.len()) =~= after);
    } else {
        assert(packet =~= after);
    }
    if i < name.len() {
        let right = name.skip(i + 1);
        lemma_text_cut(name, i);
        assert(rest =~= text::split(right, 46));
        assert forall|k: int| 0 <= k < text::split(right, 46).len() implies (#[trigger] text::split(
            right,
            46,
        )[k]).len() <= 63 by {
            assert(text::split(right, 46)[k] == parts[k + 1]);
        }
        lemma_labels_read(right, longer, tail);
    } else {
        assert(parts =~= seq![name]);
        assert(rest =~= Seq::empty());
        assert(after =~= seq![0u8] + tail);
        assert(after.skip(1) =~= tail);
        reveal_with_fuel(read_name, 2);
    }
}

/// The labels of a name that is not too long are skipped.
proof fn lemma_labels_skipped(p: Seq<u8>, o: int, name: Seq<u8>, tail: Seq<u8>, steps: nat)
    requires
        0 <= o <= p.len(),
        p.skip(o) == label_bytes(text::split(name, 46)) + seq![0u8] + tail,
        2 * steps + name.len() <= 254,
        forall|i: int|
            0 <= i < text::split(name, 46).len() ==> (#[trigger] text::split(name, 46)[i]).len() <= 63,
    ensures
        skip_name(p, o, None, steps) is Ok,
    decreases name.len(),
{
    crate::text::lemma_first_index_bounds(name, 46);
    let i = text::first_index(name, 46);
    let parts = text::split(name, 46);
    let label = parts[0];
    let rest = parts.skip(1);
    let packet = label_bytes(parts) + seq![0u8] + tail;
    let after = label_bytes(rest) + seq![0u8] + tail;
    assert(label.len() <= 63);
    assert(p.skip(o).len() > 0 && p.skip(o)[0] == p[o]);
    let next = if label.len() > 0 {
        o + 1 + label.len()
    } else {
        o
    };
    let taken: nat = if label.len() > 0 {
        steps + 1
    } else {
        steps
    };
    if label.len() > 0 {
        assert(packet =~= seq![label.len() as u8] + label + after);
        assert(p.skip(next) =~= packet.skip(1int + label.len()));
        assert(packet.skip(1int + label.len()) =~= after);
        assert(p[o] == label.len());
        assert(skip_name(p, o, None, steps) == skip_name(p, next, None, taken));
    } else {
        assert(packet =~= after);
    }
    if i < name.len() {
        let right = name.skip(i + 1);
        assert(rest =~= text::split(right, 46));
        assert forall|k: int| 0 <= k < text::split(right, 46).len() implies (#[trigger] text::split(
            right,
            46,
        )[k]).len() <= 63 by {
            assert(text::split(right, 46)[k] == parts[k + 1]);
        }
        lemma_labels_skipped(p, next, right, tail, taken);
    } else {
        assert(parts =~= seq![name]);
        assert(rest =~= Seq::empty());
        assert(after =~= seq![0u8] + tail);
        assert(p.skip(next)[0] == 0);
        assert(p[next] == 0);
    }
}

proof fn lemma_query_read(name: Seq<u8>, tx_id: u16)
    requires
        can_ask(name),
        vstd::utf8::valid_utf8(name),
        name.len() <= 254,
    ensures
        question_of(query(name, tx_id)) is Ok,
        skip_name(query(name, tx_id), 12, None, 0) is Ok,
        bytes::be16_at(query(name, tx_id), 0) == tx_id,
        bytes::be16_at(query(name, tx_id), 2) == 0x0100,
{
    let p = query(name, tx_id);
    let tail = bytes::be16_bytes(1) + bytes::be16_bytes(1);
    lemma_labels_read(name, Seq::empty(), tail);
    assert(p.skip(12) =~= label_bytes(text::split(name, 46)) + seq![0u8] + tail);
    lemma_labels_skipped(p, 12, name, tail, 0);
    assert(bytes::be16_at(p, 4) == 1);
}

/// The response to the question for a name of at most 254 bytes gives the
/// address and the time to live that it was built for; under another number it
/// is refused, and so is the question itself.
pub proof fn law_query_answered(
    name: Seq<u8>,
    tx_id: u16,
    other: u16,
    ip: Ipv4Address,
    ttl: u32,
)
    requires
        can_ask(name),
        vstd::utf8::valid_utf8(name),
        name.len() <= 254,
        other != tx_id,
    ensures
        ({
            let q = query(name, tx_id);
            let r = response(q, ip@, ttl);
            let answer = Ok::<(Ipv4Address, u32), DnsError>((ip, ttl));
            let refusal = Err::<(Ipv4Address, u32), DnsError>(DnsError::FormatError);
            &&& answer_of(r, Some(tx_id)) == answer
            &&& answer_of(r, None) == answer
            &&& answer_of(r, Some(other)) == refusal
            &&& answer_of(q, Some(tx_id)) == refusal
        }),
{
    let q = query(name, tx_id);
    let r = response(q, ip@, ttl);
    lemma_query_read(name, tx_id);
    law_response_answers(q, ip, ttl);
    assert(bytes::be16_at(r, 0) == tx_id);
}

/// The response to the question for a name without empty labels puts exactly
/// that name, in lower case, into the cache, for its time to live or five
/// seconds.
pub proof fn law_query_recorded(
    cache: Map<Seq<u8>, DnsCacheEntry>,
    name: Seq<u8>,
    tx_id: u16,
    ip: Ipv4Address,
    ttl: u32,
    now: u64,
)
    requires
        can_ask(name),
        vstd::utf8::valid_utf8(name),
        name.len() <= 254,
        forall|i: int| 0 <= i < text::split(name, 46).len() ==> (#[trigger] text::split(name, 46)[i]).len() > 0,
        now + (if ttl < 5 {
            5
        } else {
            ttl as int
        }) * 1000 <= u64::MAX,
    ensures
        recorded(cache, response(query(name, tx_id), ip@, ttl), now) == cache.insert(
            text::lowercase(name),
            (DnsCacheEntry {
                ip,
                ttl,
                expire_tick: (now + (if ttl < 5 {
                    5
                } else {
                    ttl as int
                }) * 1000) as u64,
            }),
        ),
{
    lemma_query_read(name, tx_id);
    law_question_round_trip(name, tx_id);
    law_response_answers(query(name, tx_id), ip, ttl);
}

/// What is too short, no response, or a response with an error leaves the cache
/// as it is.
pub proof fn law_others_not_recorded(
    cache: Map<Seq<u8>, DnsCacheEntry>,
    packet: Seq<u8>,
    now: u64,
)
    requires
        packet.len() < 12 || bytes::be16_at(packet, 2) < 0x8000 || bytes::be16_at(packet, 2) % 16
            != 0,
    ensures
        recorded(cache, packet, now) == cache,
{
}

} // verus!
