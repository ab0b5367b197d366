use amiga_rom::{
    checksum_ones_complement, merge_hi_lo, permute_word, seal_checksum, split, split_hi_lo,
    ByteOrder, KickRom, Loader, LoaderError, ModuleSpec, RomEncoding, SplitError, ROM_SIZE_256K,
    ROM_SIZE_512K, RTC_MATCHWORD,
};

const ORDERS: [ByteOrder; 4] = [
    ByteOrder::Normal,
    ByteOrder::Order1032,
    ByteOrder::Order2301,
    ByteOrder::Order3210,
];

fn put_u16(data: &mut [u8], offset: usize, value: u16) {
    data[offset..offset + 2].copy_from_slice(&value.to_be_bytes());
}

fn put_u32(data: &mut [u8], offset: usize, value: u32) {
    data[offset..offset + 4].copy_from_slice(&value.to_be_bytes());
}

fn valid_rom(size: usize, marker: u16, boot_pc: u32) -> Vec<u8> {
    let mut data = vec![0u8; size];
    put_u16(&mut data, 0x00, marker);
    put_u16(&mut data, 0x02, 0x4EF9);
    put_u32(&mut data, 0x04, boot_pc);
    put_u16(&mut data, 0x0C, 40);
    put_u16(&mut data, 0x0E, 68);
    put_u16(&mut data, 0x10, 40);
    put_u16(&mut data, 0x12, 10);
    put_u16(&mut data, 0xD0, 0x4E70);
    let len = data.len();
    put_u32(&mut data, len - 20, len as u32);
    for i in 0..8 {
        put_u16(&mut data, len - 16 + i * 2, 0x0018 + i as u16);
    }
    seal_checksum(&mut data).unwrap();
    data
}

fn reorder(data: &[u8], order: ByteOrder) -> Vec<u8> {
    let mut out = Vec::new();
    for chunk in data.chunks_exact(4) {
        out.extend_from_slice(&permute_word([chunk[0], chunk[1], chunk[2], chunk[3]], order));
    }
    out
}

#[test]
fn sealing_arbitrary_bytes_makes_the_checksum_verify() {
    let mut data: Vec<u8> = (0..64u32).map(|i| (i * 37 + 11) as u8).collect();
    seal_checksum(&mut data).unwrap();
    assert_eq!(checksum_ones_complement(&data), 0xFFFF_FFFF);
    assert!(KickRom::new(&data).verify_check_sum());
}

#[test]
fn sealing_all_zero_image_stores_all_ones() {
    let mut data = vec![0u8; 24];
    seal_checksum(&mut data).unwrap();
    assert_eq!(&data[0..4], &[0xFF, 0xFF, 0xFF, 0xFF]);
    assert!(KickRom::new(&data).verify_check_sum());
    assert_eq!(KickRom::new(&data).read_check_sum(), Some(0xFFFF_FFFF));
}

#[test]
fn sealing_when_the_rest_already_sums_to_all_ones_stores_zero() {
    let mut data = vec![0u8; 32];
    put_u32(&mut data, 24, 0x1234_5678);
    put_u32(&mut data, 28, !0x1234_5678u32);
    put_u32(&mut data, 8, 0xDEAD_BEEF);
    seal_checksum(&mut data).unwrap();
    assert_eq!(KickRom::new(&data).read_check_sum(), Some(0));
    assert!(KickRom::new(&data).verify_check_sum());
}

#[test]
fn sealing_twice_changes_nothing() {
    let mut data: Vec<u8> = (0..48u32).map(|i| (i * 91 + 3) as u8).collect();
    seal_checksum(&mut data).unwrap();
    let once = data.clone();
    seal_checksum(&mut data).unwrap();
    assert_eq!(data, once);
}

#[test]
fn sealing_touches_only_the_checksum_longword() {
    let original: Vec<u8> = (0..40u32).map(|i| (i * 13 + 5) as u8).collect();
    let mut data = original.clone();
    seal_checksum(&mut data).unwrap();
    let off = data.len() - 24;
    assert_eq!(&data[..off], &original[..off]);
    assert_eq!(&data[off + 4..], &original[off + 4..]);
}

#[test]
fn sealing_rejects_leave_the_image_untouched() {
    let mut data = vec![7u8; 26];
    assert!(seal_checksum(&mut data).is_err());
    assert_eq!(data, vec![7u8; 26]);
}

#[test]
fn checksum_sums_longwords_and_ignores_a_trailing_fragment() {
    assert_eq!(checksum_ones_complement(&[0, 0, 0, 1, 0, 0, 0, 2]), 3);
    assert_eq!(checksum_ones_complement(&[0, 0, 0, 1, 0xFF, 0xFF, 0xFF]), 1);
    assert_eq!(checksum_ones_complement(&[]), 0);
    assert_eq!(
        checksum_ones_complement(&[0x80, 0, 0, 0, 0x80, 0, 0, 1]),
        2
    );
}

#[test]
fn normalized_output_is_detected_as_canonical_and_stays_put() {
    let mut canonical = vec![0x11, 0x11, 0x4E, 0xF9, 0x00, 0xFC, 0x00, 0xD2];
    canonical.extend_from_slice(&[1, 2, 3, 4, 5, 6, 7, 8]);
    for &order in ORDERS.iter() {
        let raw = reorder(&canonical, order);
        assert_eq!(Loader::detect(&raw), Some(RomEncoding::Raw(order)));
        let once = Loader::normalize(&raw, None).unwrap();
        assert_eq!(once, canonical);
        assert_eq!(
            Loader::detect(&once),
            Some(RomEncoding::Raw(ByteOrder::Normal))
        );
        assert_eq!(Loader::normalize(&once, Some(b"ignored")).unwrap(), once);
    }
}

#[test]
fn normal_order_with_unaligned_length_is_copied_as_is() {
    let data = [0x11, 0x14, 0x4E, 0xF9, 0x00, 0xF8, 0x00, 0xD2, 0xAB];
    assert_eq!(Loader::normalize(&data, None).unwrap(), data.to_vec());
}

#[test]
fn detect_requires_rom_space_second_longword() {
    assert_eq!(
        Loader::detect(&[0x11, 0x14, 0x4E, 0xF9, 0x00, 0xEF, 0x00, 0xD2]),
        None
    );
    assert_eq!(
        Loader::detect(&[0x11, 0x14, 0x4E, 0xF9, 0x00, 0xFF, 0x00, 0x00]),
        Some(RomEncoding::Raw(ByteOrder::Normal))
    );
}

#[test]
fn cloanto_container_round_trips_with_a_cycling_key() {
    let key = b"k3y!z";
    let plain: Vec<u8> = (0..23u8).map(|i| i.wrapping_mul(29)).collect();
    let mut container = b"AMIROMTYPE1".to_vec();
    for (i, &b) in plain.iter().enumerate() {
        container.push(b ^ key[i % key.len()]);
    }
    assert_eq!(Loader::normalize(&container, Some(key)).unwrap(), plain);
}

#[test]
fn bare_cloanto_magic_decodes_to_empty_image() {
    let container = b"AMIROMTYPE1".to_vec();
    assert_eq!(
        Loader::detect(&container),
        Some(RomEncoding::CloantoEncoded)
    );
    assert_eq!(
        Loader::normalize(&container, Some(b"x")).unwrap(),
        Vec::<u8>::new()
    );
}

#[test]
fn merge_then_split_gives_the_halves_back() {
    let hi = vec![1u8, 2, 3, 4, 5, 6];
    let lo = vec![7u8, 8, 9, 10, 11, 12];
    let merged = merge_hi_lo(&hi, &lo).unwrap();
    assert_eq!(merged, vec![1, 2, 7, 8, 3, 4, 9, 10, 5, 6, 11, 12]);
    assert_eq!(split_hi_lo(&merged).unwrap(), (hi, lo));
}

#[test]
fn hi_lo_of_empty_images() {
    assert_eq!(merge_hi_lo(&[], &[]).unwrap(), Vec::<u8>::new());
    assert_eq!(split_hi_lo(&[]).unwrap(), (Vec::new(), Vec::new()));
}

#[test]
fn swapped_odd_length_split_is_unaligned() {
    assert_eq!(split_hi_lo(&[0u8; 10]), Err(LoaderError::UnalignedLength));
}

#[test]
fn base_addr_clears_low_sixteen_bits_of_boot_pc() {
    let img = valid_rom(ROM_SIZE_512K, 0x1114, 0x00F8_1234);
    let rom = KickRom::new(&img);
    assert_eq!(rom.boot_pc(), Some(0x00F8_1234));
    assert_eq!(rom.base_addr(), Some(0x00F8_0000));
}

#[test]
fn marker_0x1111_is_accepted_at_256_kib() {
    let img = valid_rom(ROM_SIZE_256K, 0x1111, 0x00FC_00D2);
    let rom = KickRom::new(&img);
    assert!(rom.check_header());
    assert!(rom.is_kick_rom());
}

#[test]
fn info_gathers_every_check_and_value() {
    let img = valid_rom(ROM_SIZE_512K, 0x1114, 0x00F8_00D2);
    let rom = KickRom::new(&img);
    let info = rom.info();
    assert!(info.size_ok && info.header_ok && info.footer_ok && info.size_field_ok);
    assert!(info.chk_sum_ok && info.magic_reset_ok && info.is_kick);
    assert!(!info.kickety_split_ok);
    assert_eq!(info.check_sum, rom.read_check_sum());
    assert_eq!(info.base_addr, Some(0x00F8_0000));
    assert_eq!(info.boot_pc, Some(0x00F8_00D2));
    assert_eq!(info.rom_rev, Some((40, 68)));
    assert_eq!(info.exec_rev, Some((40, 10)));
}

#[test]
fn is_kick_needs_a_canonical_size() {
    let mut img = valid_rom(ROM_SIZE_256K, 0x1114, 0x00F8_00D2);
    img.extend_from_slice(&[0u8; 4]);
    let len = img.len();
    img[len - 20..len - 16].copy_from_slice(&(len as u32).to_be_bytes());
    for i in 0..8 {
        put_u16(&mut img, len - 16 + i * 2, 0x0018 + i as u16);
    }
    seal_checksum(&mut img).unwrap();
    let rom = KickRom::new(&img);
    assert!(rom.check_header() && rom.check_footer() && rom.check_size_field());
    assert!(rom.verify_check_sum());
    assert!(!rom.check_size());
    assert!(!rom.is_kick_rom());
}

#[test]
fn kickety_split_needs_even_length() {
    let mut img = vec![0u8; 9];
    img[4..8].copy_from_slice(&[0x11, 0x11, 0x4E, 0xF9]);
    assert!(!KickRom::new(&img).check_kickety_split());
    assert!(KickRom::new(&img[..8]).check_kickety_split());
    assert!(!KickRom::new(&[0x11, 0x11]).check_kickety_split());
}

#[test]
fn scan_skips_odd_offsets_and_follows_wrapping_self_pointers() {
    let mut img = valid_rom(ROM_SIZE_512K, 0x1114, 0xFFFF_00D2);
    let base = 0xFFFF_0000u32;
    // A resident at an odd offset is never inspected.
    let odd = 0x301;
    img[odd..odd + 2].copy_from_slice(&RTC_MATCHWORD.to_be_bytes());
    img[odd + 2..odd + 6].copy_from_slice(&base.wrapping_add(odd as u32).to_be_bytes());
    // A resident whose self-pointer wraps past 2^32.
    let off = 0x2_0000;
    img[off..off + 2].copy_from_slice(&RTC_MATCHWORD.to_be_bytes());
    img[off + 2..off + 6].copy_from_slice(&base.wrapping_add(off as u32).to_be_bytes());
    img[off + 11] = 7;
    img[off + 13] = 0xFF;
    let rom = KickRom::new(&img);
    let hits = rom.scan().collect();
    assert_eq!(hits.len(), 1);
    assert_eq!(hits[0].offset, off);
    assert_eq!(hits[0].version, 7);
    assert_eq!(hits[0].priority, -1);
}

#[test]
fn scan_next_reports_residents_one_at_a_time() {
    let mut img = valid_rom(ROM_SIZE_512K, 0x1114, 0x00F8_00D2);
    let base = 0x00F8_0000u32;
    for &off in [0x400usize, 0x480].iter() {
        img[off..off + 2].copy_from_slice(&RTC_MATCHWORD.to_be_bytes());
        img[off + 2..off + 6].copy_from_slice(&(base + off as u32).to_be_bytes());
    }
    let rom = KickRom::new(&img);
    let mut scan = rom.scan();
    assert_eq!(scan.next().map(|r| r.offset), Some(0x400));
    assert_eq!(scan.next().map(|r| r.offset), Some(0x480));
    assert_eq!(scan.next().map(|r| r.offset), None);
    assert_eq!(scan.next().map(|r| r.offset), None);
}

#[test]
fn resident_string_stops_at_first_nul_within_cap() {
    let mut img = valid_rom(ROM_SIZE_512K, 0x1114, 0x00F8_00D2);
    let base = 0x00F8_0000u32;
    let off = 0x300;
    let name = 0x1000;
    let id = 0x2000;
    for b in img[name..name + 255].iter_mut() {
        *b = b'n';
    }
    img[name + 255] = 0;
    for b in img[id..id + 256].iter_mut() {
        *b = b'i';
    }
    img[id + 256] = 0;
    img[off..off + 2].copy_from_slice(&RTC_MATCHWORD.to_be_bytes());
    img[off + 2..off + 6].copy_from_slice(&(base + off as u32).to_be_bytes());
    img[off + 14..off + 18].copy_from_slice(&(base + name as u32).to_be_bytes());
    img[off + 18..off + 22].copy_from_slice(&(base + id as u32).to_be_bytes());
    let rom = KickRom::new(&img);
    let hits = rom.scan().collect();
    assert_eq!(hits.len(), 1);
    assert_eq!(hits[0].name.len(), 255);
    assert_eq!(hits[0].id_string, &[] as &[u8]);
}

#[test]
fn split_accepts_a_module_ending_at_the_last_byte_only() {
    let rom: Vec<u8> = (0..8u8).collect();
    let fits = [ModuleSpec {
        name: "tail",
        offset: 5,
        length: 3,
    }];
    let modules = split(&rom, &fits).unwrap();
    assert_eq!(modules[0].data, &[5, 6, 7]);
    let overhang = [ModuleSpec {
        name: "tail",
        offset: 5,
        length: 4,
    }];
    assert_eq!(
        split(&rom, &overhang),
        Err(SplitError::ModuleOutOfBounds {
            index: 0,
            offset: 5,
            length: 4,
            rom_len: 8,
        })
    );
}

#[test]
fn checksum_ignores_longword_order() {
    let words: [u32; 6] = [0xFFFF_FFFF, 0x8000_0001, 0x1234_5678, 0xDEAD_BEEF, 7, 0x8000_0000];
    let mut a = Vec::new();
    for w in words.iter() {
        a.extend_from_slice(&w.to_be_bytes());
    }
    let mut b = Vec::new();
    for w in words.iter().rev() {
        b.extend_from_slice(&w.to_be_bytes());
    }
    let mut c = Vec::new();
    for &i in [3usize, 0, 5, 1, 4, 2].iter() {
        c.extend_from_slice(&words[i].to_be_bytes());
    }
    let sum = checksum_ones_complement(&a);
    assert_eq!(checksum_ones_complement(&b), sum);
    assert_eq!(checksum_ones_complement(&c), sum);
}

#[test]
fn rewriting_end_skip_leaves_scan_offsets_alone() {
    let mut img = valid_rom(ROM_SIZE_512K, 0x1114, 0x00F8_00D2);
    let base = 0x00F8_0000u32;
    for &off in [0x400usize, 0x40A, 0x420].iter() {
        img[off..off + 2].copy_from_slice(&RTC_MATCHWORD.to_be_bytes());
        img[off + 2..off + 6].copy_from_slice(&(base + off as u32).to_be_bytes());
        img[off + 6..off + 10].copy_from_slice(&0x0000_0010u32.to_be_bytes());
    }
    let before: Vec<usize> = KickRom::new(&img).scan().collect().iter().map(|r| r.offset).collect();
    let mut changed = img.clone();
    changed[0x406..0x40A].copy_from_slice(&0x0007_FFFEu32.to_be_bytes());
    let hits = KickRom::new(&changed).scan().collect();
    let after: Vec<usize> = hits.iter().map(|r| r.offset).collect();
    assert_eq!(before, vec![0x400, 0x40A, 0x420]);
    assert_eq!(after, before);
    assert_eq!(hits[0].end_skip, 0x0007_FFFE);
    assert_eq!(KickRom::new(&changed).base_addr(), KickRom::new(&img).base_addr());
}

#[test]
fn resident_strings_below_base_or_empty_resolve_to_nothing() {
    let mut img = valid_rom(ROM_SIZE_512K, 0x1114, 0x00F8_00D2);
    let base = 0x00F8_0000u32;
    let off = 0x300;
    img[off..off + 2].copy_from_slice(&RTC_MATCHWORD.to_be_bytes());
    img[off + 2..off + 6].copy_from_slice(&(base + off as u32).to_be_bytes());
    // Name points one byte below the image: wraps far out of bounds.
    img[off + 14..off + 18].copy_from_slice(&(base - 1).to_be_bytes());
    // Id string points straight at a NUL byte.
    img[0x800] = 0;
    img[off + 18..off + 22].copy_from_slice(&(base + 0x800).to_be_bytes());
    let hits = KickRom::new(&img).scan().collect();
    assert_eq!(hits.len(), 1);
    assert_eq!(hits[0].name, &[] as &[u8]);
    assert_eq!(hits[0].id_string, &[] as &[u8]);
}

#[test]
fn error_messages_describe_each_variant() {
    assert_eq!(
        LoaderError::KeyRequired.message(),
        "Cloanto-encoded ROM: a rom.key is required to decode it"
    );
    assert_eq!(
        LoaderError::InvalidKey.message(),
        "Cloanto rom.key must not be empty"
    );
    assert_eq!(
        LoaderError::UnalignedLength.message(),
        "ROM image length must be a multiple of 4 bytes"
    );
    assert_eq!(
        amiga_rom::SealError::TooShort.message(),
        "image is shorter than the 24-byte checksum footer"
    );
    assert_eq!(
        amiga_rom::SealError::NotLongwordAligned.message(),
        "image length is not a multiple of 4"
    );
}
