//! Names, archives, programs and tables: each format written and read back.
use vanta::dns::{
    build_response, clear_cache, decode_query_name, decode_response, encode_query, get_dns_stats,
    handle_dns_datagram, next_tx_id, record_dns_response, DnsError, Resolver,
};
use vanta::elf::{make_test_elf, ElfError, ElfImage};
use vanta::fs::{append_entry, make_initramfs, Entries, FileSystem, FsError};
use vanta::pci::{config_address, config_access, configure_ecam, devices, ecam_address};
use vanta::pci::{Access, PciAddress};
use vanta::acpi::{parse_madt, parse_mcfg, AcpiError, PciEcamRegion};

#[test]
fn a_question_is_read_back() {
    let query = encode_query("example.com", 0x1234).unwrap();
    assert_eq!(query[..2], [0x12, 0x34]);
    assert_eq!(&query[12..25], b"\x07example\x03com\0");
    let (id, name, kind, class) = decode_query_name(&query).unwrap();
    assert_eq!((id, name.as_str(), kind, class), (0x1234, "example.com", 1, 1));
}

#[test]
fn an_answer_is_read_back() {
    let query = encode_query("host.example", 7).unwrap();
    let reply = build_response(&query, [10, 1, 2, 3], 600);
    assert_eq!(decode_response(&reply, Some(7)), Ok(([10, 1, 2, 3], 600)));
    assert!(decode_response(&reply, Some(8)).is_err());
}

#[test]
fn bad_names_are_refused() {
    assert_eq!(encode_query("", 1), Err(DnsError::InvalidHostname));
    let long = "a".repeat(64);
    assert_eq!(encode_query(&long, 1), Err(DnsError::InvalidHostname));
    assert_eq!(encode_query("a..b", 1), encode_query("a.b", 1));
}

#[test]
fn reply_codes_become_errors() {
    let query = encode_query("host.example", 7).unwrap();
    let mut reply = build_response(&query, [10, 1, 2, 3], 600);
    reply[3] = (reply[3] & 0xf0) | 3;
    assert_eq!(decode_response(&reply, Some(7)), Err(DnsError::NxDomain));
    reply[3] = (reply[3] & 0xf0) | 2;
    assert_eq!(decode_response(&reply, Some(7)), Err(DnsError::ServerFailure));
    assert_eq!(decode_response(&reply[..5], Some(7)), Err(DnsError::FormatError));
}

#[test]
fn a_recorded_answer_is_given_again_until_it_expires() {
    let mut resolver = Resolver::new();
    let query = encode_query("host.example", 9).unwrap();
    assert!(handle_dns_datagram(&mut resolver, &query, [10, 0, 2, 15], 1_000).is_none());
    let reply = build_response(&query, [10, 9, 8, 7], 60);
    record_dns_response(&mut resolver, &reply, 1_000);
    let answer = handle_dns_datagram(&mut resolver, &query, [10, 0, 2, 15], 1_001).unwrap();
    let (ip, _) = decode_response(&answer, Some(9)).unwrap();
    assert_eq!(ip, [10, 9, 8, 7]);
    let (queries, hits, entries) = get_dns_stats(&resolver);
    assert_eq!((queries, hits, entries), (1, 1, 1));
    clear_cache(&mut resolver);
    assert_eq!(get_dns_stats(&resolver).2, 0);
}

#[test]
fn question_numbers_move_on() {
    let mut resolver = Resolver::new();
    let first = next_tx_id(&mut resolver);
    let second = next_tx_id(&mut resolver);
    assert_ne!(first, second);
}

#[test]
fn an_archive_gives_back_its_files() {
    let mut archive = Vec::new();
    append_entry(&mut archive, b"bin", 0o040755, b"");
    append_entry(&mut archive, b"bin/tool", 0o100755, b"program");
    append_entry(&mut archive, b"note", 0o100644, b"text");
    append_entry(&mut archive, b"TRAILER!!!", 0, b"");
    assert_eq!(archive[..6], *b"070701");
    let fs = FileSystem::new(&archive).unwrap();
    assert_eq!(fs.entry_count(), 3);
    assert_eq!(fs.read("/bin/tool").unwrap(), b"program");
    assert_eq!(fs.read("note").unwrap(), b"text");
    assert!(fs.is_directory("/bin").unwrap());
    assert!(fs.is_executable("/bin/tool").unwrap());
    assert!(!fs.is_executable("/note").unwrap());
    assert_eq!(fs.read("/bin").err(), Some(FsError::NotFile));
    assert_eq!(fs.read("/absent").err(), Some(FsError::NotFound));
}

#[test]
fn the_first_of_two_files_of_one_name_is_read() {
    let mut archive = Vec::new();
    append_entry(&mut archive, b"same", 0o100644, b"first");
    append_entry(&mut archive, b"same", 0o100644, b"second");
    append_entry(&mut archive, b"TRAILER!!!", 0, b"");
    assert_eq!(FileSystem::new(&archive).unwrap().read("same").unwrap(), b"first");
}

#[test]
fn broken_archives_are_refused() {
    let mut archive = Vec::new();
    append_entry(&mut archive, b"note", 0o100644, b"text");
    assert_eq!(FileSystem::new(&archive).err(), Some(FsError::Truncated));
    let mut bad = archive.clone();
    bad[0] = b'9';
    assert_eq!(FileSystem::new(&bad).err(), Some(FsError::InvalidMagic));
    assert_eq!(FileSystem::new(&archive[..50]).err(), Some(FsError::Truncated));
    let mut letters = archive.clone();
    letters[20] = b'x';
    assert_eq!(FileSystem::new(&letters).err(), Some(FsError::InvalidHeader));
}

#[test]
fn entries_come_in_order() {
    let archive = make_initramfs();
    let mut entries = Entries::new(&archive);
    let mut seen = 0;
    while let Some(entry) = entries.next().unwrap() {
        assert!(entry.is_file() || entry.is_directory());
        seen += 1;
    }
    assert_eq!(seen, 4);
    assert_eq!(FileSystem::new(&archive).unwrap().entry_count(), 4);
}

#[test]
fn the_test_program_is_a_program() {
    let bytes = make_test_elf();
    let image = ElfImage::parse(&bytes).unwrap();
    let headers = image.program_headers();
    assert_eq!(headers.len(), image.program_header_count());
    assert!(!image.is_pie());
    assert!(image.interpreter().is_none());
}

#[test]
fn what_is_no_program_is_refused() {
    let bytes = make_test_elf();
    assert_eq!(ElfImage::parse(&bytes[..10]).err(), Some(ElfError::Truncated));
    let mut bad = bytes.clone();
    bad[0] = 0;
    assert_eq!(ElfImage::parse(&bad).err(), Some(ElfError::BadMagic));
    let mut narrow = bytes.clone();
    narrow[4] = 1;
    assert_eq!(ElfImage::parse(&narrow).err(), Some(ElfError::UnsupportedClass));
    let mut big_endian = bytes.clone();
    big_endian[5] = 2;
    assert_eq!(ElfImage::parse(&big_endian).err(), Some(ElfError::UnsupportedEncoding));
    let mut other = bytes.clone();
    other[18] = 3;
    assert_eq!(ElfImage::parse(&other).err(), Some(ElfError::UnsupportedMachine));
}

#[test]
fn configuration_space_is_addressed() {
    let place = PciAddress {
        bus: 1,
        device: 2,
        function: 3,
    };
    assert_eq!(config_address(place, 0x10), 0x8001_1310);
    let region = PciEcamRegion {
        base_address: 0xb000_0000,
        segment_group: 0,
        start_bus: 0,
        end_bus: 255,
    };
    assert_eq!(ecam_address(region, place, 0x10), Some(0xb011_3010));
    let mut current = None;
    assert!(configure_ecam(&mut current, region));
    assert!(matches!(config_access(current, place, 0x10), Access::Memory(0xb011_3010)));
    assert!(matches!(config_access(None, place, 0x10), Access::Port(_)));
    assert!(vanta::pci::self_check());
}

#[test]
fn a_device_that_answers_is_listed() {
    let found = devices(&|address: PciAddress, offset: u8| {
        if address.bus == 0 && address.device == 3 && address.function == 0 {
            match offset {
                0 => 0x1000_1af4,
                8 => 0x0200_0000,
                _ => 0,
            }
        } else {
            0xffff_ffff
        }
    });
    assert_eq!(found.len(), 1);
    assert_eq!((found[0].vendor_id, found[0].device_id), (0x1af4, 0x1000));
    assert_eq!((found[0].class_code, found[0].subclass), (2, 0));
}

fn madt(entries: &[u8]) -> Vec<u8> {
    let mut table = vec![0_u8; 44];
    table[..4].copy_from_slice(b"APIC");
    table[36..40].copy_from_slice(&0xfee0_0000_u32.to_le_bytes());
    table.extend_from_slice(entries);
    table
}

#[test]
fn the_interrupt_table_is_read() {
    let mut entries = vec![0, 8, 0, 0, 1, 0, 0, 0];
    entries.extend_from_slice(&[1, 12, 0, 0, 0, 0, 0xc0, 0xfe, 0, 0, 0, 0]);
    entries.extend_from_slice(&[2, 10, 0, 0, 2, 0, 0, 0, 0, 0]);
    let info = parse_madt(&madt(&entries)).unwrap();
    assert_eq!(info.enabled_processors, 1);
    assert_eq!(info.io_apics, 1);
    assert_eq!(info.timer_gsi, 2);
    assert_eq!(info.keyboard_gsi, 1);
    assert_eq!(info.io_apic.unwrap().physical_address, 0xfec0_0000);
    assert_eq!(parse_madt(&madt(&[0, 1])).err(), Some(AcpiError::InvalidMadt));
    assert!(vanta::acpi::self_check());
}

#[test]
fn the_configuration_regions_are_read() {
    let mut table = vec![0_u8; 60];
    table[44..52].copy_from_slice(&0xe000_0000_u64.to_le_bytes());
    table[55] = 63;
    let info = parse_mcfg(&table).unwrap();
    assert_eq!(info.regions, 1);
    let region = info.first_region.unwrap();
    assert_eq!((region.base_address, region.end_bus), (0xe000_0000, 63));
}

#[test]
fn every_cut_of_the_first_archive_is_refused() {
    let archive = make_initramfs();
    for n in 0..archive.len() {
        assert_eq!(FileSystem::new(&archive[..n]).err(), Some(FsError::Truncated));
    }
    assert!(FileSystem::new(&archive).is_ok());
    assert_eq!(&archive[archive.len() - 124..][110..120], b"TRAILER!!!");
}

#[test]
fn a_long_name_is_answered_and_only_answers_are_kept() {
    let name = vec!["a"; 127].join(".");
    assert_eq!(name.len(), 253);
    let query = encode_query(&name, 5).unwrap();
    let reply = build_response(&query, [1, 2, 3, 4], 2);
    assert_eq!(decode_response(&reply, Some(5)), Ok(([1, 2, 3, 4], 2)));
    assert_eq!(decode_response(&reply, None), Ok(([1, 2, 3, 4], 2)));
    assert_eq!(decode_response(&reply, Some(6)), Err(DnsError::FormatError));
    assert_eq!(decode_response(&query, Some(5)), Err(DnsError::FormatError));

    let mut resolver = Resolver::new();
    let mut asked = reply.clone();
    asked[2] &= 0x7f;
    record_dns_response(&mut resolver, &asked, 10);
    let mut failed = reply.clone();
    failed[3] |= 3;
    record_dns_response(&mut resolver, &failed, 10);
    record_dns_response(&mut resolver, &reply[..11], 10);
    assert_eq!(get_dns_stats(&resolver).2, 0);
    record_dns_response(&mut resolver, &reply, u64::MAX - 5_000);
    assert_eq!(get_dns_stats(&resolver).2, 1);
}
