//! The stack's configuration file: one `key=value` pair to a line.
use vstd::prelude::*;
use vstd::slice::slice_subrange;

use crate::bytes::{bytes_equal, copy_range};
use crate::net::Ipv4Address;
use crate::network::{NetworkConfig, NetworkError};
use crate::text::{self, find_byte, is_utf8, next_line, parse_decimal};

verus! {

/// What the lines of a configuration say: for each key the value of its last
/// occurrence, if that value is well formed.
#[verifier::ext_equal]
pub struct Settings {
    pub address: Option<Seq<u8>>,
    pub gateway: Option<Seq<u8>>,
    pub dns: Option<Seq<u8>>,
    pub tcp_host: Option<Seq<u8>>,
    pub tcp_port: Option<int>,
}

/// Whether `s` is a decimal numeral of at most `max`.
pub open spec fn is_number(s: Seq<u8>, max: int) -> bool {
    text::is_numeral(s) && text::decimal(s) <= max
}

/// The address that four dotted decimal numerals denote.
pub open spec fn dotted_quad(s: Seq<u8>) -> Option<Seq<u8>> {
    let parts = text::split(s, 46);
    if parts.len() == 4 && is_number(parts[0], 255) && is_number(parts[1], 255) && is_number(
        parts[2],
        255,
    ) && is_number(parts[3], 255) {
        Some(
            seq![
                text::decimal(parts[0]) as u8,
                text::decimal(parts[1]) as u8,
                text::decimal(parts[2]) as u8,
                text::decimal(parts[3]) as u8,
            ],
        )
    } else {
        None
    }
}

/// The port that a decimal numeral denotes.
pub open spec fn port_number(s: Seq<u8>) -> Option<int> {
    if is_number(s, 65535) {
        Some(text::decimal(s))
    } else {
        None
    }
}

/// `settings` after one line; `None` if the line has no equals sign.
pub open spec fn after_line(settings: Settings, line: Seq<u8>) -> Option<Settings> {
    let i = text::first_index(line, 61);
    let key = line.take(i);
    let value = line.skip(i + 1);
    if i >= line.len() {
        None
    } else if key == key_address() {
        Some(Settings { address: dotted_quad(value), ..settings })
    } else if key == key_gateway() {
        Some(Settings { gateway: dotted_quad(value), ..settings })
    } else if key == key_dns() {
        Some(Settings { dns: dotted_quad(value), ..settings })
    } else if key == key_tcp_host() {
        Some(Settings { tcp_host: dotted_quad(value), ..settings })
    } else if key == key_tcp_port() {
        Some(Settings { tcp_port: port_number(value), ..settings })
    } else {
        Some(settings)
    }
}

/// The key `address`.
pub open spec fn key_address() -> Seq<u8> {
    seq![97u8, 100u8, 100u8, 114u8, 101u8, 115u8, 115u8]
}

/// The key `gateway`.
pub open spec fn key_gateway() -> Seq<u8> {
    seq![103u8, 97u8, 116u8, 101u8, 119u8, 97u8, 121u8]
}

/// The key `dns`.
pub open spec fn key_dns() -> Seq<u8> {
    seq![100u8, 110u8, 115u8]
}

/// The key `tcp_host`.
pub open spec fn key_tcp_host() -> Seq<u8> {
    seq![116u8, 99u8, 112u8, 95u8, 104u8, 111u8, 115u8, 116u8]
}

/// The key `tcp_port`.
pub open spec fn key_tcp_port() -> Seq<u8> {
    seq![116u8, 99u8, 112u8, 95u8, 112u8, 111u8, 114u8, 116u8]
}

/// `settings` after all of `ls`; `None` if a line is malformed.
pub open spec fn after_lines(settings: Settings, ls: Seq<Seq<u8>>) -> Option<Settings>
    decreases ls.len(),
{
    if ls.len() == 0 {
        Some(settings)
    } else {
        match after_line(settings, ls[0]) {
            None => None,
            Some(next) => after_lines(next, ls.skip(1)),
        }
    }
}

pub open spec fn no_settings() -> Settings {
    Settings { address: None, gateway: None, dns: None, tcp_host: None, tcp_port: None }
}

/// Whether `settings` make a configuration: every value is there, and the port
/// is not zero.
pub open spec fn complete(settings: Settings) -> bool {
    &&& settings.address is Some
    &&& settings.gateway is Some
    &&& settings.dns is Some
    &&& settings.tcp_host is Some
    &&& settings.tcp_port matches Some(port) && port != 0
}

/// Whether `bytes` is a configuration file.
pub open spec fn is_configuration(bytes: Seq<u8>) -> bool {
    &&& vstd::utf8::valid_utf8(bytes)
    &&& after_lines(no_settings(), text::lines(bytes)) matches Some(settings) && complete(settings)
}

/// Whether `config` is what the configuration file `bytes` says.
pub open spec fn configures(bytes: Seq<u8>, config: NetworkConfig) -> bool {
    let settings = after_lines(no_settings(), text::lines(bytes))->0;
    &&& settings.address == Some(config.address@)
    &&& settings.gateway == Some(config.gateway@)
    &&& settings.dns == Some(config.dns@)
    &&& settings.tcp_host == Some(config.tcp_host@)
    &&& settings.tcp_port == Some(config.tcp_port as int)
}

/// The configuration that a host without a configuration file starts with.
pub open spec fn default_text() -> Seq<u8> {
    crate::text::utf8(
        "address=10.0.2.15\ngateway=10.0.2.2\ndns=10.0.2.3\ntcp_host=10.0.2.2\ntcp_port=18080\n"@,
    )
}

fn parse_part(s: &[u8]) -> (r: Option<u8>)
    ensures
        r is Some <==> is_number(s@, 255),
        r matches Some(v) ==> v == text::decimal(s@),
{
    match parse_decimal(s, 255) {
        Some(v) => Some(v as u8),
        None => None,
    }
}

fn parse_ipv4(value: &[u8]) -> (r: Option<Ipv4Address>)
    ensures
        r is Some <==> dotted_quad(value@) is Some,
        r matches Some(a) ==> dotted_quad(value@) == Some(a@),
{
    let a: usize = find_byte(value, 46);
    if a == value.len() {
        return None;
    }
    let rest1 = slice_subrange(value, a + 1, value.len());
    let part1 = slice_subrange(value, 0, a);
    let b: usize = find_byte(rest1, 46);
    proof {
        assert(rest1@ =~= value@.skip(a + 1));
        assert(part1@ =~= value@.take(a as int));
        assert(text::split(value@, 46) == seq![part1@] + text::split(rest1@, 46));
    }
    if b == rest1.len() {
        assert(text::split(rest1@, 46) =~= seq![rest1@]);
        return None;
    }
    let rest2 = slice_subrange(rest1, b + 1, rest1.len());
    let part2 = slice_subrange(rest1, 0, b);
    let c: usize = find_byte(rest2, 46);
    proof {
        assert(rest2@ =~= rest1@.skip(b + 1));
        assert(part2@ =~= rest1@.take(b as int));
        assert(text::split(rest1@, 46) == seq![part2@] + text::split(rest2@, 46));
    }
    if c == rest2.len() {
        assert(text::split(rest2@, 46) =~= seq![rest2@]);
        return None;
    }
    let part4 = slice_subrange(rest2, c + 1, rest2.len());
    let part3 = slice_subrange(rest2, 0, c);
    let d: usize = find_byte(part4, 46);
    proof {
        assert(part4@ =~= rest2@.skip(c + 1));
        assert(part3@ =~= rest2@.take(c as int));
        assert(text::split(rest2@, 46) == seq![part3@] + text::split(part4@, 46));
        text::lemma_split_more(part4@, 46);
    }
    if d != part4.len() {
        return None;
    }
    proof {
        assert(text::split(part4@, 46) =~= seq![part4@]);
        let parts = text::split(value@, 46);
        assert(parts.len() == 4);
        assert(parts[0] == part1@ && parts[1] == part2@ && parts[2] == part3@ && parts[3]
            == part4@);
    }
    match (parse_part(part1), parse_part(part2), parse_part(part3), parse_part(part4)) {
        (Some(w), Some(x), Some(y), Some(z)) => {
            let address: Ipv4Address = [w, x, y, z];
            assert(address@ =~= dotted_quad(value@)->0);
            Some(address)
        },
        _ => None,
    }
}

fn parse_port(value: &[u8]) -> (r: Option<u16>)
    ensures
        r is Some <==> port_number(value@) is Some,
        r matches Some(p) ==> port_number(value@) == Some(p as int),
{
    match parse_decimal(value, 65535) {
        Some(v) => Some(v as u16),
        None => None,
    }
}

pub open spec fn holds(o: Option<Ipv4Address>, s: Option<Seq<u8>>) -> bool {
    match o {
        Some(a) => s == Some(a@),
        None => s is None,
    }
}

/// Reads a configuration file. A line without an equals sign, a value that is
/// missing or malformed, and port zero make it invalid; unknown keys are skipped.
pub fn parse_configuration(bytes: &[u8]) -> (r: Option<NetworkConfig>)
    ensures
        r is Some <==> is_configuration(bytes@),
        r matches Some(config) ==> configures(bytes@, config),
{
    if !is_utf8(bytes) {
        return None;
    }
    let mut address: Option<Ipv4Address> = None;
    let mut gateway: Option<Ipv4Address> = None;
    let mut dns: Option<Ipv4Address> = None;
    let mut tcp_host: Option<Ipv4Address> = None;
    let mut tcp_port: Option<u16> = None;
    let ghost mut settings = no_settings();
    let key1: [u8; 7] = [97, 100, 100, 114, 101, 115, 115];
    let key2: [u8; 7] = [103, 97, 116, 101, 119, 97, 121];
    let key3: [u8; 3] = [100, 110, 115];
    let key4: [u8; 8] = [116, 99, 112, 95, 104, 111, 115, 116];
    let key5: [u8; 8] = [116, 99, 112, 95, 112, 111, 114, 116];
    assert(key1@ =~= key_address());
    assert(key2@ =~= key_gateway());
    assert(key3@ =~= key_dns());
    assert(key4@ =~= key_tcp_host());
    assert(key5@ =~= key_tcp_port());
    let mut rest: &[u8] = bytes;
    while rest.len() > 0
        invariant
            after_lines(settings, text::lines(rest@)) == after_lines(no_settings(), text::lines(bytes@)),
            holds(address, settings.address),
            holds(gateway, settings.gateway),
            holds(dns, settings.dns),
            holds(tcp_host, settings.tcp_host),
            match tcp_port {
                Some(p) => settings.tcp_port == Some(p as int),
                None => settings.tcp_port is None,
            },
            key1@ == key_address(),
            key2@ == key_gateway(),
            key3@ == key_dns(),
            key4@ == key_tcp_host(),
            key5@ == key_tcp_port(),
        decreases rest.len(),
    {
        let (line, after) = next_line(rest);
        let i: usize = find_byte(line, 61);
        proof {
            let all = text::lines(rest@);
            assert(all[0] == line@);
            assert(all.skip(1) =~= text::lines(after@));
        }
        if i == line.len() {
            return None;
        }
        let key = slice_subrange(line, 0, i);
        let value = slice_subrange(line, i + 1, line.len());
        proof {
            assert(key@ =~= line@.take(i as int));
            assert(value@ =~= line@.skip(i + 1));
            settings = after_line(settings, line@)->0;
        }
        if bytes_equal(key, key1.as_slice()) {
            address = parse_ipv4(value);
        } else if bytes_equal(key, key2.as_slice()) {
            gateway = parse_ipv4(value);
        } else if bytes_equal(key, key3.as_slice()) {
            dns = parse_ipv4(value);
        } else if bytes_equal(key, key4.as_slice()) {
            tcp_host = parse_ipv4(value);
        } else if bytes_equal(key, key5.as_slice()) {
            tcp_port = parse_port(value);
        }
        rest = after;
    }
    proof {
        assert(text::lines(rest@).len() == 0);
    }
    match (address, gateway, dns, tcp_host, tcp_port) {
        (Some(address), Some(gateway), Some(dns), Some(tcp_host), Some(tcp_port)) => {
            if tcp_port == 0 {
                None
            } else {
                Some(NetworkConfig { address, gateway, dns, tcp_host, tcp_port })
            }
        },
        _ => None,
    }
}

/// The text of the default configuration.
pub fn default_configuration() -> (r: Vec<u8>)
    ensures
        r@ == default_text(),
{
    let text = "address=10.0.2.15\ngateway=10.0.2.2\ndns=10.0.2.3\ntcp_host=10.0.2.2\ntcp_port=18080\n";
    let bytes = text.as_bytes();
    let r = copy_range(bytes, 0, bytes.len());
    assert(r@ =~= bytes@);
    r
}

/// The configuration to start with: what the stored file says, or, where there
/// is none, the default, provided that it could be stored.
pub fn load_configuration(stored: Option<Vec<u8>>, default_stored: bool) -> (r: Result<
    NetworkConfig,
    NetworkError,
>)
    ensures
        ({
            let text = match stored {
                Some(bytes) => bytes@,
                None => default_text(),
            };
            let readable = stored is Some || default_stored;
            &&& r is Ok <==> readable && is_configuration(text)
            &&& r matches Ok(config) ==> configures(text, config)
            &&& r matches Err(e) ==> e == NetworkError::Configuration
        }),
{
    let bytes = match stored {
        Some(bytes) => bytes,
        None => {
            if !default_stored {
                return Err(NetworkError::Configuration);
            }
            default_configuration()
        },
    };
    match parse_configuration(bytes.as_slice()) {
        Some(config) => Ok(config),
        None => Err(NetworkError::Configuration),
    }
}

/// An address written as four numbers with dots between them.
#[verifier::opaque]
pub open spec fn quad_text(a: Seq<u8>) -> Seq<u8> {
    text::decimal_text(a[0] as nat).push(46) + (text::decimal_text(a[1] as nat).push(46) + (
    text::decimal_text(a[2] as nat).push(46) + text::decimal_text(a[3] as nat)))
}

/// No byte of a text is the given one.
pub open spec fn is_without(s: Seq<u8>, byte: u8) -> bool {
    forall|i: int| 0 <= i < s.len() ==> #[trigger] s[i] != byte
}

proof fn lemma_split_at(a: Seq<u8>, rest: Seq<u8>, byte: u8)
    requires
        is_without(a, byte),
    ensures
        text::split(a.push(byte) + rest, byte) == seq![a] + text::split(rest, byte),
        text::split(a, byte) == seq![a],
{
    let s = a.push(byte) + rest;
    text::lemma_index_found(s, byte);
    text::lemma_index_found(a, byte);
    let i = text::first_index(s, byte);
    assert(s[a.len() as int] == byte);
    if i < a.len() {
        assert(s[i] == a[i]);
    }
    assert(s.take(i) =~= a);
    assert(s.skip(i + 1) =~= rest);
    let k = text::first_index(a, byte);
    if k < a.len() {
        assert(a[k] != byte);
    }
}

proof fn lemma_numeral(n: nat)
    ensures
        is_without(text::decimal_text(n), 46),
        is_without(text::decimal_text(n), 10),
        text::decimal_text(n).len() > 0,
        text::decimal_text(n).last() != 13,
{
    text::law_decimal_round_trip(n);
    let s = text::decimal_text(n);
    assert(forall|i: int| 0 <= i < s.len() ==> text::is_digit(#[trigger] s[i]));
    assert(text::is_digit(s[s.len() - 1]));
}

/// An address that is written with dots is read as the same address.
#[verifier::spinoff_prover]
#[verifier::rlimit(60)]
pub proof fn law_address_round_trip(a: Seq<u8>)
    requires
        a.len() == 4,
    ensures
        dotted_quad(quad_text(a)) == Some(a),
{
    reveal(quad_text);
    let p0 = text::decimal_text(a[0] as nat);
    let p1 = text::decimal_text(a[1] as nat);
    let p2 = text::decimal_text(a[2] as nat);
    let p3 = text::decimal_text(a[3] as nat);
    lemma_numeral(a[0] as nat);
    lemma_numeral(a[1] as nat);
    lemma_numeral(a[2] as nat);
    lemma_numeral(a[3] as nat);
    text::law_decimal_round_trip(a[0] as nat);
    text::law_decimal_round_trip(a[1] as nat);
    text::law_decimal_round_trip(a[2] as nat);
    text::law_decimal_round_trip(a[3] as nat);
    lemma_split_at(p3, Seq::empty(), 46);
    lemma_split_at(p2, p3, 46);
    lemma_split_at(p1, p2.push(46) + p3, 46);
    lemma_split_at(p0, p1.push(46) + (p2.push(46) + p3), 46);
    let parts = text::split(quad_text(a), 46);
    assert(parts =~= seq![p0, p1, p2, p3]);
    assert(dotted_quad(quad_text(a))->0 =~= a);
}

proof fn lemma_quad_line(a: Seq<u8>)
    requires
        a.len() == 4,
    ensures
        is_without(quad_text(a), 10),
        quad_text(a).len() > 0,
        quad_text(a).last() != 13,
{
    reveal(quad_text);
    lemma_numeral(a[0] as nat);
    lemma_numeral(a[1] as nat);
    lemma_numeral(a[2] as nat);
    lemma_numeral(a[3] as nat);
}

/// A line of a configuration file.
#[verifier::opaque]
pub open spec fn setting(key: Seq<u8>, value: Seq<u8>) -> Seq<u8> {
    key.push(61) + value
}

proof fn lemma_setting(key: Seq<u8>, value: Seq<u8>, rest: Seq<u8>)
    requires
        is_without(key, 61),
        is_without(key, 10),
        is_without(value, 10),
        value.len() > 0,
        value.last() != 13,
    ensures
        text::lines(setting(key, value).push(10) + rest) == seq![setting(key, value)] + text::lines(
            rest,
        ),
        text::first_index(setting(key, value), 61) == key.len(),
        setting(key, value).take(key.len() as int) == key,
        setting(key, value).skip(key.len() as int + 1) == value,
        setting(key, value).len() == key.len() + 1 + value.len(),
{
    reveal(setting);
    let s = setting(key, value);
    text::lemma_index_found(s, 61);
    let i = text::first_index(s, 61);
    assert(s[key.len() as int] == 61);
    if i < key.len() {
        assert(s[i] == key[i]);
    }
    assert(s.take(key.len() as int) =~= key);
    assert(s.skip(key.len() as int + 1) =~= value);
    text::law_line_then_rest(s, rest);
}

/// The configuration file that says what a configuration is.
pub open spec fn file_of(c: NetworkConfig) -> Seq<u8> {
    setting(key_address(), quad_text(c.address@)).push(10) + (setting(
        key_gateway(),
        quad_text(c.gateway@),
    ).push(10) + (setting(key_dns(), quad_text(c.dns@)).push(10) + (setting(
        key_tcp_host(),
        quad_text(c.tcp_host@),
    ).push(10) + (setting(key_tcp_port(), text::decimal_text(c.tcp_port as nat)).push(10)
        + Seq::<u8>::empty()))))
}

proof fn lemma_keys_differ()
    ensures
        key_address() != key_gateway(),
        key_address() != key_dns(),
        key_address() != key_tcp_host(),
        key_address() != key_tcp_port(),
        key_gateway() != key_dns(),
        key_gateway() != key_tcp_host(),
        key_gateway() != key_tcp_port(),
        key_dns() != key_tcp_host(),
        key_dns() != key_tcp_port(),
        key_tcp_host() != key_tcp_port(),
{
    assert(key_address()[0] != key_gateway()[0]);
    assert(key_address().len() == 7 && key_gateway().len() == 7);
    assert(key_dns().len() == 3 && key_tcp_host().len() == 8 && key_tcp_port().len() == 8);
    assert(key_tcp_host()[4] != key_tcp_port()[4]);
}

/// A line gives the setting that its key names, and no other.
#[verifier::spinoff_prover]
#[verifier::rlimit(60)]
pub proof fn law_line_sets(settings: Settings, address: Seq<u8>, port: u16)
    requires
        address.len() == 4,
    ensures
        after_line(settings, setting(key_address(), quad_text(address))) == Some(
            Settings { address: Some(address), ..settings },
        ),
        after_line(settings, setting(key_gateway(), quad_text(address))) == Some(
            Settings { gateway: Some(address), ..settings },
        ),
        after_line(settings, setting(key_dns(), quad_text(address))) == Some(
            Settings { dns: Some(address), ..settings },
        ),
        after_line(settings, setting(key_tcp_host(), quad_text(address))) == Some(
            Settings { tcp_host: Some(address), ..settings },
        ),
        after_line(settings, setting(key_tcp_port(), text::decimal_text(port as nat))) == Some(
            Settings { tcp_port: Some(port as int), ..settings },
        ),
{
    let q = quad_text(address);
    let p = text::decimal_text(port as nat);
    let none = Seq::<u8>::empty();
    lemma_keys_differ();
    lemma_keys_plain();
    lemma_quad_line(address);
    law_address_round_trip(address);
    lemma_numeral(port as nat);
    text::law_decimal_round_trip(port as nat);
    lemma_setting(key_address(), q, none);
    lemma_setting(key_gateway(), q, none);
    lemma_setting(key_dns(), q, none);
    lemma_setting(key_tcp_host(), q, none);
    lemma_setting(key_tcp_port(), p, none);
}

proof fn lemma_keys_plain()
    ensures
        is_without(key_address(), 61) && is_without(key_address(), 10),
        is_without(key_gateway(), 61) && is_without(key_gateway(), 10),
        is_without(key_dns(), 61) && is_without(key_dns(), 10),
        is_without(key_tcp_host(), 61) && is_without(key_tcp_host(), 10),
        is_without(key_tcp_port(), 61) && is_without(key_tcp_port(), 10),
{
}

proof fn lemma_listed(a: Seq<u8>, b: Seq<u8>, c: Seq<u8>, d: Seq<u8>, e: Seq<u8>)
    ensures
        seq![a] + (seq![b] + (seq![c] + (seq![d] + (seq![e] + Seq::<Seq<u8>>::empty())))) == seq![
            a,
            b,
            c,
            d,
            e,
        ],
{
}

#[verifier::spinoff_prover]
#[verifier::rlimit(60)]
proof fn lemma_file_lines(c: NetworkConfig)
    requires
        c.address@.len() == 4,
        c.gateway@.len() == 4,
        c.dns@.len() == 4,
        c.tcp_host@.len() == 4,
    ensures
        text::lines(file_of(c)) == seq![
            setting(key_address(), quad_text(c.address@)),
            setting(key_gateway(), quad_text(c.gateway@)),
            setting(key_dns(), quad_text(c.dns@)),
            setting(key_tcp_host(), quad_text(c.tcp_host@)),
            setting(key_tcp_port(), text::decimal_text(c.tcp_port as nat)),
        ],
{
    let l1 = setting(key_gateway(), quad_text(c.gateway@));
    let l2 = setting(key_dns(), quad_text(c.dns@));
    let l3 = setting(key_tcp_host(), quad_text(c.tcp_host@));
    let port = text::decimal_text(c.tcp_port as nat);
    let l4 = setting(key_tcp_port(), port);
    let none = Seq::<u8>::empty();
    assert(text::lines(none) == Seq::<Seq<u8>>::empty());
    let t4 = l4.push(10) + none;
    let t3 = l3.push(10) + t4;
    let t2 = l2.push(10) + t3;
    let t1 = l1.push(10) + t2;
    lemma_keys_plain();
    lemma_quad_line(c.address@);
    lemma_quad_line(c.gateway@);
    lemma_quad_line(c.dns@);
    lemma_quad_line(c.tcp_host@);
    lemma_numeral(c.tcp_port as nat);
    lemma_setting(key_address(), quad_text(c.address@), t1);
    lemma_setting(key_gateway(), quad_text(c.gateway@), t2);
    lemma_setting(key_dns(), quad_text(c.dns@), t3);
    lemma_setting(key_tcp_host(), quad_text(c.tcp_host@), t4);
    lemma_setting(key_tcp_port(), port, none);
    lemma_listed(setting(key_address(), quad_text(c.address@)), l1, l2, l3, l4);
}

/// A configuration that is written down, each value under its name, is read as
/// the same configuration.
#[verifier::spinoff_prover]
#[verifier::rlimit(60)]
pub proof fn law_configuration_round_trip(c: NetworkConfig)
    requires
        c.tcp_port != 0,
        c.address@.len() == 4,
        c.gateway@.len() == 4,
        c.dns@.len() == 4,
        c.tcp_host@.len() == 4,
    ensures
        after_lines(no_settings(), text::lines(file_of(c))) matches Some(s) && complete(s),
        configures(file_of(c), c),
{
    let all = text::lines(file_of(c));
    lemma_file_lines(c);
    assert forall|s: Settings| #[trigger] after_line(s, all[0]) == Some(
        Settings { address: Some(c.address@), ..s },
    ) by {
        law_line_sets(s, c.address@, 0);
    }
    assert forall|s: Settings| #[trigger] after_line(s, all[1]) == Some(
        Settings { gateway: Some(c.gateway@), ..s },
    ) by {
        law_line_sets(s, c.gateway@, 0);
    }
    assert forall|s: Settings| #[trigger] after_line(s, all[2]) == Some(
        Settings { dns: Some(c.dns@), ..s },
    ) by {
        law_line_sets(s, c.dns@, 0);
    }
    assert forall|s: Settings| #[trigger] after_line(s, all[3]) == Some(
        Settings { tcp_host: Some(c.tcp_host@), ..s },
    ) by {
        law_line_sets(s, c.tcp_host@, 0);
    }
    assert forall|s: Settings| #[trigger] after_line(s, all[4]) == Some(
        Settings { tcp_port: Some(c.tcp_port as int), ..s },
    ) by {
        law_line_sets(s, c.address@, c.tcp_port);
    }
    lemma_five_lines(all, c);
}

proof fn lemma_five_lines(all: Seq<Seq<u8>>, c: NetworkConfig)
    requires
        all.len() == 5,
        forall|s: Settings| #[trigger] after_line(s, all[0]) == Some(
            Settings { address: Some(c.address@), ..s },
        ),
        forall|s: Settings| #[trigger] after_line(s, all[1]) == Some(
            Settings { gateway: Some(c.gateway@), ..s },
        ),
        forall|s: Settings| #[trigger] after_line(s, all[2]) == Some(
            Settings { dns: Some(c.dns@), ..s },
        ),
        forall|s: Settings| #[trigger] after_line(s, all[3]) == Some(
            Settings { tcp_host: Some(c.tcp_host@), ..s },
        ),
        forall|s: Settings| #[trigger] after_line(s, all[4]) == Some(
            Settings { tcp_port: Some(c.tcp_port as int), ..s },
        ),
    ensures
        after_lines(no_settings(), all) == Some(
            Settings {
                address: Some(c.address@),
                gateway: Some(c.gateway@),
                dns: Some(c.dns@),
                tcp_host: Some(c.tcp_host@),
                tcp_port: Some(c.tcp_port as int),
            },
        ),
{
    let a1 = all.skip(1);
    let a2 = a1.skip(1);
    let a3 = a2.skip(1);
    let a4 = a3.skip(1);
    assert(a1[0] == all[1] && a2[0] == all[2] && a3[0] == all[3] && a4[0] == all[4]);
    assert(a4.skip(1).len() == 0);
    reveal_with_fuel(after_lines, 6);
}

} // verus!
