use closured::btf::{can_patch_btf, inject_kfunc_externs, patch_btf, BtfError, Injection};
use closured::bytes::{push_bytes, push_u32, read_u16, read_u32, read_u64};
use closured::elf::{extract_section, find_section, is_elf, Section};

fn words(list: &[u32]) -> Vec<u8> {
    let mut out = Vec::new();
    for w in list {
        out.extend_from_slice(&w.to_le_bytes());
    }
    out
}

fn btf(types: &[u8], strings: &[u8]) -> Vec<u8> {
    let mut out = vec![0x9f, 0xeb, 1, 0];
    out.extend(words(&[
        24,
        0,
        types.len() as u32,
        types.len() as u32,
        strings.len() as u32,
    ]));
    out.extend_from_slice(types);
    out.extend_from_slice(strings);
    out
}

/// An object with a `.BTF` section and the names of its sections.
fn object(contents: &[u8]) -> Vec<u8> {
    let names = b"\0.shstrtab\0.BTF\0";
    let mut elf = vec![0u8; 0x40];
    elf[..6].copy_from_slice(&[0x7f, b'E', b'L', b'F', 2, 1]);
    let names_at = elf.len() as u64;
    elf.extend_from_slice(names);
    let contents_at = elf.len() as u64;
    elf.extend_from_slice(contents);
    let headers_at = elf.len() as u64;
    for (name, at, size) in [
        (0u32, 0u64, 0u64),
        (1, names_at, names.len() as u64),
        (11, contents_at, contents.len() as u64),
    ] {
        let mut header = vec![0u8; 0x40];
        header[..4].copy_from_slice(&name.to_le_bytes());
        header[0x18..0x20].copy_from_slice(&at.to_le_bytes());
        header[0x20..0x28].copy_from_slice(&size.to_le_bytes());
        elf.extend(header);
    }
    elf[0x28..0x30].copy_from_slice(&headers_at.to_le_bytes());
    elf[0x3a..0x3c].copy_from_slice(&0x40u16.to_le_bytes());
    elf[0x3c..0x3e].copy_from_slice(&3u16.to_le_bytes());
    elf[0x3e..0x40].copy_from_slice(&1u16.to_le_bytes());
    elf
}

fn int_type() -> Vec<u8> {
    words(&[1, 1 << 24, 4, 0x20])
}

#[test]
fn numbers_are_little_endian() {
    let s = [1u8, 2, 3, 4, 5, 6, 7, 8, 9];
    assert_eq!(read_u16(&s, 1), 0x0302);
    assert_eq!(read_u32(&s, 1), 0x0504_0302);
    assert_eq!(read_u64(&s, 1), 0x0908_0706_0504_0302);
    let mut out = vec![0u8];
    push_u32(&mut out, 0x0504_0302);
    push_bytes(&mut out, &[6, 7]);
    assert_eq!(out, vec![0, 2, 3, 4, 5, 6, 7]);
}

#[test]
fn entries_are_appended() {
    let strings = b"\0u32\0";
    let old = btf(&int_type(), strings);
    let new = patch_btf(&old, &["bpf_path_d_path"]).unwrap().unwrap();

    let names = b"int\0char\0unsigned long\0path\0path\0buf\0buf__sz\0bpf_path_d_path\0.ksyms\0";
    let (int, char, long, path) = (5u32, 9u32, 14u32, 28u32);
    let (p_path, p_buf, p_size, func, ksyms) = (33u32, 38u32, 42u32, 50u32, 66u32);
    let mut types = int_type();
    types.extend(words(&[int, 1 << 24, 4, (1 << 24) | 32])); // 2
    types.extend(words(&[char, 1 << 24, 1, (1 << 24) | 8])); // 3
    types.extend(words(&[long, 1 << 24, 8, 64])); // 4
    types.extend(words(&[path, 4 << 24, 0])); // 5
    types.extend(words(&[0, 2 << 24, 5])); // 6
    types.extend(words(&[0, 2 << 24, 3])); // 7
    types.extend(words(&[0, (13 << 24) | 3, 2, p_path, 6, p_buf, 7, p_size, 4])); // 8
    types.extend(words(&[func, (12 << 24) | 2, 8])); // 9
    types.extend(words(&[ksyms, (15 << 24) | 1, 0, 9, 0, 0])); // 10
    let mut all = strings.to_vec();
    all.extend_from_slice(names);
    assert_eq!(new, btf(&types, &all));
}

#[test]
fn entries_are_added_for_each_function() {
    let old = btf(&int_type(), b"\0");
    let new = patch_btf(&old, &["one", "two"]).unwrap().unwrap();
    assert_eq!(new.len(), old.len() + 96 + 60 * 2 + 52 + 8);
    // the entries of the section are the last of the types
    let end = 24 + read_u32(&new, 12) as usize;
    assert_eq!(new[end - 24..end], words(&[9, 0, 0, 11, 0, 0])[..]);
    assert_eq!(read_u32(&new, end - 32), (15 << 24) | 2);
}

#[test]
fn entries_are_added_once() {
    let old = btf(&int_type(), b"\0");
    let new = patch_btf(&old, &["bpf_path_d_path"]).unwrap().unwrap();
    assert_eq!(patch_btf(&new, &["bpf_path_d_path"]).unwrap(), None);
    assert_eq!(patch_btf(&new, &["another"]).unwrap(), None);
}

#[test]
fn a_longer_header_is_kept() {
    let mut old = vec![0x9f, 0xeb, 1, 0];
    old.extend(words(&[28, 0, 16, 16, 1]));
    old.extend_from_slice(&[0xaa, 0xbb, 0xcc, 0xdd]);
    old.extend(int_type());
    old.push(0);
    let new = patch_btf(&old, &[]).unwrap().unwrap();
    assert_eq!(new[..12], old[..12]);
    assert_eq!(new[24..44], old[24..44]);
    assert_eq!(new.len(), old.len() + 96 + 52);
    assert_eq!(read_u32(&new, 12), 16 + 96);
    assert_eq!(read_u32(&new, 16), 16 + 96);
    assert_eq!(read_u32(&new, 20), 1 + 52);
}

#[test]
fn every_kind_of_record_is_walked_over() {
    let mut types = Vec::new();
    for (kind, members, extra) in [
        (1u32, 0u32, 1usize),
        (2, 0, 0),
        (3, 0, 3),
        (4, 2, 6),
        (5, 1, 3),
        (6, 3, 6),
        (7, 0, 0),
        (8, 0, 0),
        (9, 0, 0),
        (10, 0, 0),
        (11, 0, 0),
        (12, 1, 0),
        (13, 2, 4),
        (14, 0, 1),
        (15, 1, 3),
        (16, 0, 0),
        (17, 0, 1),
        (18, 0, 0),
        (19, 1, 3),
    ] {
        types.extend(words(&[0, (kind << 24) | members, 0]));
        types.extend(words(&vec![7; extra]));
    }
    let old = btf(&types, b"\0");
    let new = patch_btf(&old, &["f"]).unwrap().unwrap();
    // nineteen types came before; the prototype returns the first that is added
    let proto = 24 + types.len() + 84;
    assert_eq!(new[proto..proto + 12], words(&[0, (13 << 24) | 3, 20])[..]);
}

#[test]
fn bad_btf_is_refused() {
    assert_eq!(patch_btf(&[0; 23], &[]), Err(BtfError::TooShort));
    assert_eq!(patch_btf(&[0; 24], &[]), Err(BtfError::BadMagic));
    let mut moved = btf(&[], b"\0");
    moved[8] = 1;
    assert_eq!(patch_btf(&moved, &[]), Err(BtfError::UnexpectedLayout));
    let mut gap = btf(&[], b"\0");
    gap[16] = 1;
    assert_eq!(patch_btf(&gap, &[]), Err(BtfError::UnexpectedLayout));
    assert_eq!(patch_btf(&btf(&[0; 11], b"\0"), &[]), Err(BtfError::TruncatedRecord));
    let unknown = btf(&words(&[0, 20 << 24, 0]), b"\0");
    assert_eq!(patch_btf(&unknown, &[]), Err(BtfError::UnknownKind(20)));

    assert_eq!(BtfError::TooShort.message(), "BTF too short");
    assert_eq!(BtfError::BadMagic.message(), "bad BTF magic");
    assert_eq!(BtfError::UnexpectedLayout.message(), "unexpected BTF section layout");
    assert_eq!(BtfError::TruncatedRecord.message(), "truncated BTF type record");
    assert_eq!(BtfError::UnknownKind(20).message(), "unknown BTF kind 20");
}

#[test]
fn incomplete_btf_cannot_be_patched() {
    let whole = btf(&int_type(), b"\0");
    assert!(can_patch_btf(&whole, &["f"]));
    assert!(!can_patch_btf(&whole[..whole.len() - 1], &["f"]));
    assert!(can_patch_btf(&[0; 3], &["f"]));
    let mut short_header = btf(&[], b"\0");
    short_header[4] = 12;
    assert!(!can_patch_btf(&short_header, &["f"]));
}

#[test]
fn sections_are_found_by_name() {
    let elf = object(b"contents");
    assert!(is_elf(&elf));
    assert!(matches!(find_section(&elf, ".BTF"), Section::At(0x50, 8)));
    assert!(matches!(find_section(&elf, ".text"), Section::Missing));
    assert_eq!(extract_section(&elf, ".BTF"), Ok(b"contents".to_vec()));
    assert_eq!(extract_section(&elf, ".shstrtab"), Ok(b"\0.shstrtab\0.BTF\0".to_vec()));
    assert_eq!(extract_section(&elf, ".text"), Err("section .text not found".to_string()));
}

#[test]
fn bad_objects_are_refused() {
    let elf = object(b"contents");
    assert_eq!(
        extract_section(&elf[..0x40], ".BTF"),
        Err("not a 64-bit little-endian ELF".to_string())
    );
    let mut big_endian = elf.clone();
    big_endian[5] = 2;
    assert!(!is_elf(&big_endian));
    assert_eq!(
        extract_section(&big_endian, ".BTF"),
        Err("not a 64-bit little-endian ELF".to_string())
    );

    // a name at the end of the object does not end
    let mut unterminated = elf.clone();
    let headers_at = read_u64(&elf, 0x28) as usize;
    let names_header = headers_at + 0x40;
    unterminated[names_header + 0x18..names_header + 0x20]
        .copy_from_slice(&(elf.len() as u64).to_le_bytes());
    assert!(matches!(find_section(&unterminated, ".BTF"), Section::Unterminated));
    assert_eq!(
        extract_section(&unterminated, ".BTF"),
        Err("unterminated section name".to_string())
    );

    let mut outside = elf.clone();
    outside[0x28..0x30].copy_from_slice(&u64::MAX.to_le_bytes());
    assert!(find_section(&outside, ".BTF").is_out_of_bounds());
}

#[test]
fn objects_are_injected_once() {
    let old = btf(&int_type(), b"\0");
    let Injection::Patched(new) = inject_kfunc_externs(&object(&old), &["bpf_path_d_path"]) else {
        panic!("not patched");
    };
    assert_eq!(Ok(Some(new.clone())), patch_btf(&old, &["bpf_path_d_path"]));
    assert!(matches!(
        inject_kfunc_externs(&object(&new), &["bpf_path_d_path"]),
        Injection::Present
    ));

    let Injection::Refused(m) = inject_kfunc_externs(b"text", &["f"]) else {
        panic!("not refused");
    };
    assert_eq!(m, "not a 64-bit little-endian ELF");
    let Injection::Refused(m) = inject_kfunc_externs(&object(&[0; 24]), &["f"]) else {
        panic!("not refused");
    };
    assert_eq!(m, "bad BTF magic");
    assert!(matches!(
        inject_kfunc_externs(&object(&old[..old.len() - 1]), &["f"]),
        Injection::OutOfBounds
    ));
}
