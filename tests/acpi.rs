use kernel_core::cpu::apic::madt::{EntryHeader, MADT, ANY_ENTRY};
use kernel_core::cpu::apic::rsdp::{text_or_invalid, Error, RSDP};
use kernel_core::cpu::apic::rsdt::RSDT;
use kernel_core::cpu::apic::{checksum, parse_acpi_madt, SDTError, SDTHeader};

fn header(signature: [u8; 4], length: u32) -> SDTHeader {
    SDTHeader {
        signature,
        length,
        revision: 1,
        checksum: 0,
        oem_id: *b"BOCHS ",
        oem_table_id: *b"BXPCAPIC",
        oem_revision: 1,
        creator_id: 0,
        creator_revision: 0,
    }
}

fn rsdp(signature: [u8; 8], revision: u8) -> RSDP {
    RSDP {
        signature,
        checksum: 0,
        oem_id: *b"BOCHS ",
        revision,
        rsdt_address: 0x7FE1_5A0B,
        length: 36,
        xsdt_address: 0,
        extended_checksum: 0,
        reserved: [0; 3],
    }
}

#[test]
fn checksum_sums_modulo_256() {
    assert_eq!(checksum(&[0x80, 0x80, 0x01], 3), 0x01);
    assert_eq!(checksum(&[0x80, 0x80, 0x01], 2), 0x00);
    assert_eq!(checksum(&[], 0), 0);
}

#[test]
fn sdt_header_checks_checksum_over_its_length() {
    let h = header(*b"APIC", 4);
    assert_eq!(h.validate(&[1, 2, 3, 250, 9]), Ok(()));
    assert_eq!(h.validate(&[1, 2, 3, 251, 9]), Err(SDTError::InvalidChecksum));
}

#[test]
fn rsdp_validation() {
    let mut bytes = vec![0u8; 20];
    bytes[0] = 0x10;
    bytes[19] = 0xF0;
    assert_eq!(rsdp(*b"RSD PTR ", 0).validate(&bytes), Ok(()));
    assert_eq!(rsdp(*b"RSD PTX ", 0).validate(&bytes), Err(Error::InvalidSignature));
    bytes[5] = 1;
    assert_eq!(rsdp(*b"RSD PTR ", 0).validate(&bytes), Err(Error::InvalidChecksum));
    let mut long = vec![0u8; 36];
    long[35] = 0;
    assert_eq!(rsdp(*b"RSD PTR ", 2).validate(&long), Ok(()));
    let r = rsdp(*b"RSD PTR ", 0);
    assert_eq!(r.get_signature(), "RSD PTR ");
    assert_eq!(r.get_oem_id(), "BOCHS ");
    let bad = rsdp([0xff, 0xfe, b'D', b' ', b'P', b'T', b'R', b' '], 0);
    assert_eq!(bad.get_signature(), "Invalid UTF-8");
    assert_eq!(bad.get_oem_id(), "BOCHS ");
    assert_eq!(r.get_rsdt(), 0x7FE1_5A0B);
}

#[test]
fn rsdt_entries_and_signature() {
    let t = RSDT { hdr: header(*b"RSDT", 44) };
    let body = [0x00, 0x10, 0xE1, 0x7F, 0x78, 0x56, 0x34, 0x12];
    assert_eq!(t.entries(&body), vec![0x7FE1_1000, 0x1234_5678]);
    let table = vec![0u8; 44];
    assert_eq!(t.validate(&table), Ok(()));
    let wrong = RSDT { hdr: header(*b"XSDT", 44) };
    assert_eq!(wrong.validate(&table), Err(SDTError::InvalidSignature));
}

#[test]
fn madt_walk_filters_by_kind() {
    let m = MADT { hdr: header(*b"APIC", 44), local_address: 0xFEE0_0000, flags: 1 };
    let entries = [
        0, 8, 0, 0, 1, 0, 0, 0, // local APIC
        1, 12, 0, 0, 0, 0, 0xC0, 0xFE, 0, 0, 0, 0, // I/O APIC
        0, 8, 1, 1, 1, 0, 0, 0, // local APIC
    ];
    let mut it = m.iter(&entries, 0);
    assert_eq!(it.next(), Some(EntryHeader { entry_type: 0, length: 8 }));
    assert_eq!(it.next(), Some(EntryHeader { entry_type: 0, length: 8 }));
    assert_eq!(it.next(), None);
    let mut all = m.iter(&entries, ANY_ENTRY);
    let mut kinds = Vec::new();
    while let Some(h) = all.next() {
        kinds.push(h.entry_type);
    }
    assert_eq!(kinds, vec![0, 1, 0]);
    let mut broken = m.iter(&[2, 0, 1, 1], ANY_ENTRY);
    assert_eq!(broken.next(), None);
}

#[test]
fn madt_signature_and_defaults() {
    let m = MADT { hdr: header(*b"APIC", 4), local_address: 0, flags: 0 };
    assert_eq!(m.validate(&[1, 0, 0, 255]), Ok(()));
    assert_eq!(parse_acpi_madt(), Some((0xFEC0_0000, 0)));
}

#[test]
fn text_fallback() {
    assert_eq!(text_or_invalid(Some("APIC")), "APIC");
    assert_eq!(text_or_invalid(None), "Invalid UTF-8");
}
