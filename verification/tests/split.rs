use amiga_rom::{split, ModuleSpec, SplitError};

#[test]
fn empty_modules_yields_empty_vec() {
    let rom = vec![0u8; 16];
    assert_eq!(split(&rom, &[]), Ok(Vec::new()));
}

#[test]
fn one_valid_module_in_bounds() {
    let rom: Vec<u8> = (0..16u8).collect();
    let specs = [ModuleSpec {
        name: "mod0",
        offset: 4,
        length: 4,
    }];
    let modules = split(&rom, &specs).unwrap();
    assert_eq!(modules.len(), 1);
    assert_eq!(modules[0].name, "mod0");
    assert_eq!(modules[0].data, &rom[4..8]);
}

#[test]
fn multiple_modules_including_adjacent_and_overlapping() {
    let rom: Vec<u8> = (0..32u8).collect();
    let specs = [
        ModuleSpec {
            name: "a",
            offset: 0,
            length: 8,
        },
        ModuleSpec {
            name: "b",
            offset: 8,
            length: 8,
        },
        ModuleSpec {
            name: "c",
            offset: 12,
            length: 8,
        },
    ];
    let modules = split(&rom, &specs).unwrap();
    assert_eq!(modules.len(), 3);
    assert_eq!(modules[0].name, "a");
    assert_eq!(modules[0].data, &rom[0..8]);
    assert_eq!(modules[1].name, "b");
    assert_eq!(modules[1].data, &rom[8..16]);
    assert_eq!(modules[2].name, "c");
    assert_eq!(modules[2].data, &rom[12..20]);
}

#[test]
fn out_of_bounds_module_fails_fast_with_no_partial_success() {
    let rom = vec![0u8; 16];
    let specs = [
        ModuleSpec {
            name: "ok",
            offset: 0,
            length: 4,
        },
        ModuleSpec {
            name: "too-long",
            offset: 10,
            length: 100,
        },
        ModuleSpec {
            name: "never-reached",
            offset: 0,
            length: 1,
        },
    ];
    assert_eq!(
        split(&rom, &specs),
        Err(SplitError::ModuleOutOfBounds {
            index: 1,
            offset: 10,
            length: 100,
            rom_len: 16,
        })
    );
}

#[test]
fn zero_length_module_succeeds_with_empty_slice() {
    let rom = vec![0u8; 16];
    let specs = [ModuleSpec {
        name: "empty",
        offset: 8,
        length: 0,
    }];
    let modules = split(&rom, &specs).unwrap();
    assert_eq!(modules.len(), 1);
    assert_eq!(modules[0].data, &[] as &[u8]);
}

#[test]
fn offset_length_overflow_errors_instead_of_panicking() {
    let rom = vec![0u8; 16];
    let specs = [ModuleSpec {
        name: "overflow",
        offset: usize::MAX,
        length: 1,
    }];
    assert_eq!(
        split(&rom, &specs),
        Err(SplitError::ModuleOutOfBounds {
            index: 0,
            offset: usize::MAX,
            length: 1,
            rom_len: 16,
        })
    );
}

#[test]
fn zero_length_rom_with_zero_length_specs_succeeds() {
    let rom: Vec<u8> = vec![];
    let specs = [
        ModuleSpec {
            name: "a",
            offset: 0,
            length: 0,
        },
        ModuleSpec {
            name: "b",
            offset: 0,
            length: 0,
        },
    ];
    let modules = split(&rom, &specs).unwrap();
    assert_eq!(modules.len(), 2);
    assert_eq!(modules[0].data, &[] as &[u8]);
    assert_eq!(modules[1].data, &[] as &[u8]);
}
