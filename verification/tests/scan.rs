use amiga_rom::{seal_checksum, KickRom, Resident, ROM_SIZE_256K, ROM_SIZE_512K, RTC_MATCHWORD};

const DEFAULT_BASE_512K: u32 = 0x00F8_0000;

fn put_u16(data: &mut [u8], offset: usize, value: u16) {
    data[offset..offset + 2].copy_from_slice(&value.to_be_bytes());
}

fn put_u32(data: &mut [u8], offset: usize, value: u32) {
    data[offset..offset + 4].copy_from_slice(&value.to_be_bytes());
}

/// A minimal valid canonical image of `size` bytes with the given base
/// address: header, magic reset, footer, sealed checksum.
fn synthetic_rom(size: usize, base_addr: u32) -> Vec<u8> {
    let mut data = vec![0u8; size];
    let marker = if size == ROM_SIZE_512K { 0x1114 } else { 0x1111 };
    let base = base_addr & 0xFFFF_0000;
    put_u16(&mut data, 0x00, marker);
    put_u16(&mut data, 0x02, 0x4EF9);
    put_u32(&mut data, 0x04, base + 0xD2);
    put_u32(&mut data, 0x08, 0x0000_FFFF);
    put_u32(&mut data, 0x14, 0xFFFF_FFFF);
    put_u16(&mut data, 0xD0, 0x4E70);
    let len = data.len();
    put_u32(&mut data, len - 20, len as u32);
    for i in 0..8 {
        put_u16(&mut data, len - 16 + i * 2, 0x0018 + i as u16);
    }
    seal_checksum(&mut data).unwrap();
    data
}

#[allow(clippy::too_many_arguments)]
fn write_resident(
    img: &mut [u8],
    off: usize,
    base_addr: u32,
    flags: u8,
    version: u8,
    node_type: u8,
    priority: i8,
    name_ptr: u32,
    id_ptr: u32,
    init_addr: u32,
    end_skip: u32,
) {
    let match_tag = base_addr.wrapping_add(off as u32);
    img[off..off + 2].copy_from_slice(&RTC_MATCHWORD.to_be_bytes());
    img[off + 2..off + 6].copy_from_slice(&match_tag.to_be_bytes());
    img[off + 6..off + 10].copy_from_slice(&end_skip.to_be_bytes());
    img[off + 10] = flags;
    img[off + 11] = version;
    img[off + 12] = node_type;
    img[off + 13] = priority as u8;
    img[off + 14..off + 18].copy_from_slice(&name_ptr.to_be_bytes());
    img[off + 18..off + 22].copy_from_slice(&id_ptr.to_be_bytes());
    img[off + 22..off + 26].copy_from_slice(&init_addr.to_be_bytes());
}

fn write_cstr(img: &mut [u8], off: usize, s: &[u8]) {
    img[off..off + s.len()].copy_from_slice(s);
    img[off + s.len()] = 0;
}

fn base_image() -> Vec<u8> {
    synthetic_rom(ROM_SIZE_512K, DEFAULT_BASE_512K)
}

#[test]
fn finds_one_valid_resident_with_correct_fields() {
    let mut img = base_image();
    let base = DEFAULT_BASE_512K;
    let name_off = 0x500;
    let id_off = 0x520;
    write_cstr(&mut img, name_off, b"exec.library");
    write_cstr(&mut img, id_off, b"exec 45.10");
    let resident_off = 0x300;
    write_resident(
        &mut img,
        resident_off,
        base,
        0x80,
        45,
        3,
        126,
        base + name_off as u32,
        base + id_off as u32,
        base + 0x600,
        0xDEAD_BEEF,
    );

    let rom = KickRom::new(&img);
    let hits: Vec<Resident> = rom.scan().collect();
    assert_eq!(hits.len(), 1, "expected exactly one resident hit");
    let hit = &hits[0];
    assert_eq!(hit.match_word, RTC_MATCHWORD);
    assert_eq!(hit.offset, resident_off);
    assert_eq!(hit.flags, 0x80);
    assert_eq!(hit.version, 45);
    assert_eq!(hit.node_type, 3);
    assert_eq!(hit.priority, 126);
    assert_eq!(hit.name, b"exec.library");
    assert_eq!(hit.id_string, b"exec 45.10");
    assert_eq!(hit.init_addr, base + 0x600);
    assert_eq!(hit.end_skip, 0xDEAD_BEEF);
}

#[test]
fn wrong_self_pointer_yields_nothing() {
    let mut img = base_image();
    let base = DEFAULT_BASE_512K;
    let off = 0x300;
    write_resident(&mut img, off, base, 0, 0, 0, 0, 0, 0, 0, 0);
    img[off + 2..off + 6].copy_from_slice(&0xFFFF_FFFFu32.to_be_bytes());

    let rom = KickRom::new(&img);
    assert_eq!(rom.scan().collect().len(), 0);
}

#[test]
fn truncated_matchword_at_end_of_image_yields_nothing_no_panic() {
    let base = DEFAULT_BASE_512K;
    let mut img = vec![0u8; 0x18 + 2];
    {
        let full = synthetic_rom(ROM_SIZE_256K, base);
        img[..0x18].copy_from_slice(&full[..0x18]);
    }
    let last = img.len() - 2;
    img[last..].copy_from_slice(&RTC_MATCHWORD.to_be_bytes());

    let rom = KickRom::new(&img);
    assert_eq!(rom.scan().collect().len(), 0);
}

#[test]
fn two_residents_are_both_found() {
    let mut img = base_image();
    let base = DEFAULT_BASE_512K;
    write_cstr(&mut img, 0x500, b"exec.library");
    write_cstr(&mut img, 0x520, b"graphics.library");
    write_resident(&mut img, 0x300, base, 0, 1, 3, 0, base + 0x500, base + 0x500, 0, 0);
    write_resident(&mut img, 0x340, base, 0, 2, 3, 0, base + 0x520, base + 0x520, 0, 0);

    let rom = KickRom::new(&img);
    let hits: Vec<Resident> = rom.scan().collect();
    assert_eq!(hits.len(), 2);
    assert_eq!(hits[0].offset, 0x300);
    assert_eq!(hits[0].version, 1);
    assert_eq!(hits[1].offset, 0x340);
    assert_eq!(hits[1].version, 2);
    assert_eq!(hits[0].name, b"exec.library");
    assert_eq!(hits[1].name, b"graphics.library");
}

#[test]
fn out_of_bounds_name_pointer_yields_empty_slice_not_panic() {
    let mut img = base_image();
    let base = DEFAULT_BASE_512K;
    let off = 0x300;
    write_resident(&mut img, off, base, 0, 0, 0, 0, 0xFFFF_FFFF, base + 0x500, 0, 0);
    write_cstr(&mut img, 0x500, b"id.only");

    let rom = KickRom::new(&img);
    let hits: Vec<Resident> = rom.scan().collect();
    assert_eq!(hits.len(), 1);
    assert_eq!(hits[0].name, &[] as &[u8]);
    assert_eq!(hits[0].id_string, b"id.only");
}

#[test]
fn no_nul_within_cap_yields_empty_slice() {
    let mut img = base_image();
    let base = DEFAULT_BASE_512K;
    let off = 0x300;
    let str_off = 0x500;
    for b in img[str_off..str_off + 1024].iter_mut() {
        *b = b'A';
    }
    write_resident(&mut img, off, base, 0, 0, 0, 0, base + str_off as u32, 0, 0, 0);

    let rom = KickRom::new(&img);
    let hits: Vec<Resident> = rom.scan().collect();
    assert_eq!(hits.len(), 1);
    assert_eq!(hits[0].name, &[] as &[u8]);
}

#[test]
fn zero_length_and_tiny_images_yield_empty_iterator_no_panic() {
    assert_eq!(KickRom::new(&[]).scan().collect().len(), 0);
    assert_eq!(KickRom::new(&[0u8]).scan().collect().len(), 0);
    assert_eq!(KickRom::new(&[0u8; 23]).scan().collect().len(), 0);
    let matchword_only: [u8; 2] = RTC_MATCHWORD.to_be_bytes();
    assert_eq!(KickRom::new(&matchword_only).scan().collect().len(), 0);
}

#[test]
fn garbage_end_skip_does_not_affect_scan_control_flow() {
    let mut img = base_image();
    let base = DEFAULT_BASE_512K;
    write_resident(&mut img, 0x300, base, 0, 1, 3, 0, 0, 0, 0, 0xFFFF_FFFF);
    write_resident(&mut img, 0x330, base, 0, 2, 3, 0, 0, 0, 0, 0);

    let rom = KickRom::new(&img);
    let hits: Vec<Resident> = rom.scan().collect();
    assert_eq!(
        hits.len(),
        2,
        "EndSkip must not be trusted for scan control flow"
    );
    assert_eq!(hits[0].version, 1);
    assert_eq!(hits[0].end_skip, 0xFFFF_FFFF);
    assert_eq!(hits[1].version, 2);
}

#[test]
fn scan_is_empty_when_base_addr_is_unknown() {
    let short = vec![0u8; 10];
    assert_eq!(KickRom::new(&short).scan().collect().len(), 0);
}
