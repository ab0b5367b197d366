//! Inspection and validation of a canonical Kickstart ROM image, and the
//! checksum sealer that is the inverse of checksum verification.

use vstd::prelude::*;
use crate::bytes::{be16, be32, put_be32, lemma_put_be32, read_be16, read_be32, write_be32};
use crate::checksum::{
    kick_sum, ones_sum, word_sum, ones_modulus, lemma_ones_sum_congruent, lemma_word_sum_update,
    checksum_ones_complement,
};
use crate::scan::{ResidentScan, scan_hits};
use crate::{ROM_SIZE_256K, ROM_SIZE_512K};

verus! {

/// Errors from [`seal_checksum`].
#[derive(Debug, Clone, Copy, PartialEq, Eq, Structural)]
pub enum SealError {
    /// The image is shorter than the 24-byte footer that holds the
    /// checksum word.
    TooShort,
    /// The image length is not a multiple of 4, so it cannot be summed
    /// as consecutive big-endian longwords.
    NotLongwordAligned,
}

/// The human-readable description of each [`SealError`].
pub open spec fn seal_error_text(e: SealError) -> Seq<char> {
    match e {
        SealError::TooShort => "image is shorter than the 24-byte checksum footer"@,
        SealError::NotLongwordAligned => "image length is not a multiple of 4"@,
    }
}

impl SealError {
    /// A human-readable description of the error.
    pub fn message(&self) -> (m: String)
        ensures
            m@ == seal_error_text(*self),
    {
        match self {
            SealError::TooShort => "image is shorter than the 24-byte checksum footer".to_owned(),
            SealError::NotLongwordAligned => "image length is not a multiple of 4".to_owned(),
        }
    }
}

/// Offset of the stored checksum longword: 24 bytes before the end.
pub open spec fn checksum_offset(s: Seq<u8>) -> int {
    s.len() - 24
}

/// The image with its checksum longword zeroed.
pub open spec fn checksum_cleared(s: Seq<u8>) -> Seq<u8> {
    put_be32(s, checksum_offset(s), 0)
}

/// The sealed image: the checksum longword holds the bitwise complement
/// of the sum taken with that longword zeroed.
pub open spec fn sealed(s: Seq<u8>) -> Seq<u8> {
    put_be32(checksum_cleared(s), checksum_offset(s), !kick_sum(checksum_cleared(s)))
}

/// The outcome of [`seal_checksum`] on an image: the error, or the sealed
/// bytes.
pub open spec fn seal_result(s: Seq<u8>) -> Result<Seq<u8>, SealError> {
    if s.len() < 24 {
        Err(SealError::TooShort)
    } else if s.len() % 4 != 0 {
        Err(SealError::NotLongwordAligned)
    } else {
        Ok(sealed(s))
    }
}

/// Sealing makes the whole-image ones'-complement sum fold to all ones:
/// a sealed image always passes checksum verification.
pub proof fn lemma_sealed_sum_is_all_ones(s: Seq<u8>)
    requires
        s.len() >= 24,
        s.len() % 4 == 0,
    ensures
        sealed(s).len() == s.len(),
        kick_sum(sealed(s)) == 0xFFFF_FFFFu32,
        checksum_ok(sealed(s)),
        forall|i: int|
            0 <= i < s.len() && !(checksum_offset(s) <= i < checksum_offset(s) + 4)
                ==> #[trigger] sealed(s)[i] == s[i],
{
    let k = checksum_offset(s);
    let z = checksum_cleared(s);
    let sum = kick_sum(z);
    let c = !sum;
    let t = sealed(s);
    let n = s.len() / 4;
    lemma_put_be32(s, k, 0);
    lemma_put_be32(z, k, c);
    assert(c == 0xFFFF_FFFF - sum) by (bit_vector)
        requires
            c == !sum,
    ;
    assert(k % 4 == 0 && k < 4 * n && 4 * n <= s.len()) by {
        assert(s.len() == 4 * n);
    }
    assert(z.len() / 4 == n);
    assert(t.len() / 4 == n);
    lemma_word_sum_update(z, t, k, n);
    lemma_ones_sum_congruent(z, n);
    lemma_ones_sum_congruent(t, n);
    let m = ones_modulus();
    assert(word_sum(t, n) == word_sum(z, n) + m - sum);
    assert(word_sum(t, n) % m == 0) by {
        vstd::arithmetic::div_mod::lemma_add_mod_noop(word_sum(z, n), m - sum, m);
        vstd::arithmetic::div_mod::lemma_add_mod_noop(sum as int, m - sum, m);
        vstd::arithmetic::div_mod::lemma_mod_self_0(m);
    }
    let r = ones_sum(t, n) as int;
    assert(r % m == 0);
    if r == 0 {
        assert(word_sum(t, n) == 0);
        assert(sum as int == m);
        assert(word_sum(z, n) == 0);
        assert(false);
    }
    assert(r == m) by {
        if r < m {
            vstd::arithmetic::div_mod::lemma_small_mod(r as nat, m as nat);
        }
    }
}

/// Sealing an already sealed image changes nothing.
pub proof fn lemma_seal_idempotent(s: Seq<u8>)
    requires
        s.len() >= 24,
        s.len() % 4 == 0,
    ensures
        sealed(sealed(s)) == sealed(s),
{
    let t = sealed(s);
    let k = checksum_offset(s);
    lemma_sealed_sum_is_all_ones(s);
    lemma_put_be32(s, k, 0);
    lemma_put_be32(t, k, 0);
    assert(checksum_cleared(t) =~= checksum_cleared(s)) by {
        assert forall|i: int| 0 <= i < s.len() implies checksum_cleared(t)[i] == checksum_cleared(
            s,
        )[i] by {
            if !(k <= i < k + 4) {
                assert(t[i] == s[i]);
            }
        }
    }
    let c = checksum_cleared(s);
    lemma_put_be32(c, k, !kick_sum(c));
    assert(sealed(t) =~= t);
}

/// Sealing a full-size image settles its checksum and leaves every other
/// check and value as it was, so the sealed image is a Kickstart ROM
/// exactly when its header, footer and size field are valid.
pub proof fn lemma_seal_keeps_other_checks(s: Seq<u8>)
    requires
        size_ok(s),
    ensures
        checksum_ok(sealed(s)),
        size_ok(sealed(s)),
        header_ok(sealed(s)) == header_ok(s),
        footer_ok(sealed(s)) == footer_ok(s),
        size_field_ok(sealed(s)) == size_field_ok(s),
        kickety_split_ok(sealed(s)) == kickety_split_ok(s),
        magic_reset_ok(sealed(s)) == magic_reset_ok(s),
        boot_pc_of(sealed(s)) == boot_pc_of(s),
        base_addr_of(sealed(s)) == base_addr_of(s),
        rom_rev_of(sealed(s)) == rom_rev_of(s),
        exec_rev_of(sealed(s)) == exec_rev_of(s),
        is_kick(sealed(s)) == (header_ok(s) && footer_ok(s) && size_field_ok(s)),
{
    let t = sealed(s);
    lemma_sealed_sum_is_all_ones(s);
    let len = s.len() as int;
    assert(t.len() == s.len());
    assert forall|i: int| 0 <= i < 7 implies #[trigger] be16(t, t.len() - 14 + 2 * i) == be16(
        s,
        s.len() - 14 + 2 * i,
    ) by {
        assert(t[len - 14 + 2 * i] == s[len - 14 + 2 * i]);
        assert(t[len - 13 + 2 * i] == s[len - 13 + 2 * i]);
    }
    assert(footer_ok(t) == footer_ok(s)) by {
        if footer_ok(s) {
            assert forall|i: int| 0 <= i < 7 implies #[trigger] be16(t, t.len() - 14 + 2 * i)
                == 0x19 + i by {
                assert(be16(s, s.len() - 14 + 2 * i) == 0x19 + i);
            }
        }
        if footer_ok(t) {
            assert forall|i: int| 0 <= i < 7 implies #[trigger] be16(s, s.len() - 14 + 2 * i)
                == 0x19 + i by {
                assert(be16(t, t.len() - 14 + 2 * i) == 0x19 + i);
            }
        }
    }
    assert(be32(t, len - 20) == be32(s, len - 20)) by {
        assert(t[len - 20] == s[len - 20] && t[len - 19] == s[len - 19]);
        assert(t[len - 18] == s[len - 18] && t[len - 17] == s[len - 17]);
    }
    let mid = len / 2;
    assert(be16(t, mid) == be16(s, mid) && be16(t, mid + 2) == be16(s, mid + 2)) by {
        assert(t[mid] == s[mid] && t[mid + 1] == s[mid + 1]);
        assert(t[mid + 2] == s[mid + 2] && t[mid + 3] == s[mid + 3]);
    }
    assert(t.subrange(0, 0xD2) =~= s.subrange(0, 0xD2)) by {
        assert forall|i: int| 0 <= i < 0xD2 implies t[i] == s[i] by {}
    }
    assert(t[0xD0] == t.subrange(0, 0xD2)[0xD0] && t[0xD1] == t.subrange(0, 0xD2)[0xD1]);
    assert(s[0xD0] == s.subrange(0, 0xD2)[0xD0] && s[0xD1] == s.subrange(0, 0xD2)[0xD1]);
    assert(forall|i: int| 0 <= i < 0x18 ==> t[i] == t.subrange(0, 0xD2)[i]);
    assert(forall|i: int| 0 <= i < 0x18 ==> s[i] == s.subrange(0, 0xD2)[i]);
}

/// Seals `rom`'s stored checksum: zeroes the longword at `len - 24`,
/// sums the whole image, and stores the bitwise complement of that sum
/// back at `len - 24`.
pub fn seal_checksum(rom: &mut [u8]) -> (r: Result<(), SealError>)
    ensures
        match seal_result(old(rom)@) {
            Ok(t) => r is Ok && final(rom)@ == t,
            Err(e) => r == Err::<(), SealError>(e) && final(rom)@ == old(rom)@,
        },
{
    let len = rom.len();
    if len < 24 {
        return Err(SealError::TooShort);
    }
    if len % 4 != 0 {
        return Err(SealError::NotLongwordAligned);
    }
    let off = len - 24;
    write_be32(rom, off, 0);
    let sum = checksum_ones_complement(rom);
    write_be32(rom, off, !sum);
    Ok(())
}


/// `true` iff the image is exactly 256 KiB or 512 KiB.
pub open spec fn size_ok(s: Seq<u8>) -> bool {
    s.len() == ROM_SIZE_256K || s.len() == ROM_SIZE_512K
}

/// A Kickstart header at offset 0: marker word `0x1114` (any size) or
/// `0x1111` (only at exactly 256 KiB), followed by the `JMP abs.L`
/// opcode `0x4EF9`.
pub open spec fn header_ok(s: Seq<u8>) -> bool {
    &&& s.len() >= 0x18
    &&& (be16(s, 0) == 0x1114 || (be16(s, 0) == 0x1111 && s.len() == ROM_SIZE_256K))
    &&& be16(s, 2) == 0x4EF9
}

/// A Kickstart footer: the seven trailing words at `len - 14 .. len` are
/// `0x0019 ..= 0x001F` in order (the word at `len - 16` is not checked).
pub open spec fn footer_ok(s: Seq<u8>) -> bool {
    &&& s.len() >= 24
    &&& forall|i: int| 0 <= i < 7 ==> #[trigger] be16(s, s.len() - 14 + 2 * i) == 0x19 + i
}

/// The footer's size field (longword at `len - 20`) equals the image's
/// length.
pub open spec fn size_field_ok(s: Seq<u8>) -> bool {
    s.len() >= 24 && be32(s, s.len() - 20) == s.len()
}

/// The image is at least 24 bytes, a whole number of longwords, and its
/// ones'-complement sum folds to all ones.
pub open spec fn checksum_ok(s: Seq<u8>) -> bool {
    &&& s.len() >= 24
    &&& s.len() % 4 == 0
    &&& kick_sum(s) == 0xFFFF_FFFFu32
}

/// A second copy of marker `0x1111` and opcode `0x4EF9` at the exact
/// midpoint of an even-length image.
pub open spec fn kickety_split_ok(s: Seq<u8>) -> bool {
    &&& s.len() > 0
    &&& s.len() % 2 == 0
    &&& s.len() / 2 + 4 <= s.len()
    &&& be16(s, s.len() as int / 2) == 0x1111
    &&& be16(s, s.len() as int / 2 + 2) == 0x4EF9
}

/// The m68k `RESET` opcode `0x4E70` at absolute offset `0xD0`.
pub open spec fn magic_reset_ok(s: Seq<u8>) -> bool {
    s.len() >= 0xD2 && be16(s, 0xD0) == 0x4E70
}

/// Every check that gates "is a Kickstart ROM": size, header, footer,
/// size field and checksum (kickety split and magic reset are not part
/// of it).
pub open spec fn is_kick(s: Seq<u8>) -> bool {
    size_ok(s) && header_ok(s) && footer_ok(s) && size_field_ok(s) && checksum_ok(s)
}

/// The stored checksum longword at `len - 24`, if the image holds one.
pub open spec fn stored_check_sum(s: Seq<u8>) -> Option<u32> {
    if s.len() >= 24 {
        Some(be32(s, s.len() - 24) as u32)
    } else {
        None
    }
}

/// The boot program counter, the `JMP` target at header offset 0x04.
pub open spec fn boot_pc_of(s: Seq<u8>) -> Option<u32> {
    if s.len() >= 0x18 {
        Some(be32(s, 4) as u32)
    } else {
        None
    }
}

/// The base address: the boot PC with its low 16 bits cleared.
pub open spec fn base_addr_of(s: Seq<u8>) -> Option<u32> {
    match boot_pc_of(s) {
        Some(pc) => Some(pc & 0xFFFF_0000u32),
        None => None,
    }
}

/// The (major, minor) pair of big-endian words at `off`, if the image
/// holds a full header.
pub open spec fn header_rev(s: Seq<u8>, off: int) -> Option<(u16, u16)> {
    if s.len() >= 0x18 {
        Some((be16(s, off) as u16, be16(s, off + 2) as u16))
    } else {
        None
    }
}

/// The ROM revision at header offset 0x0C.
pub open spec fn rom_rev_of(s: Seq<u8>) -> Option<(u16, u16)> {
    header_rev(s, 0x0C)
}

/// The Exec revision at header offset 0x10.
pub open spec fn exec_rev_of(s: Seq<u8>) -> Option<(u16, u16)> {
    header_rev(s, 0x10)
}

/// The aggregate result of every [`KickRom`] check. Value fields are
/// `None` exactly when the image is too short to contain that field.
#[derive(Debug, Clone, Copy, PartialEq, Eq)]
pub struct RomInfo {
    pub size_ok: bool,
    pub header_ok: bool,
    pub footer_ok: bool,
    pub size_field_ok: bool,
    pub chk_sum_ok: bool,
    pub kickety_split_ok: bool,
    pub magic_reset_ok: bool,
    pub is_kick: bool,
    pub check_sum: Option<u32>,
    pub base_addr: Option<u32>,
    pub boot_pc: Option<u32>,
    pub rom_rev: Option<(u16, u16)>,
    pub exec_rev: Option<(u16, u16)>,
}

/// Every check and value of an image, gathered.
pub open spec fn info_of(s: Seq<u8>) -> RomInfo {
    RomInfo {
        size_ok: size_ok(s),
        header_ok: header_ok(s),
        footer_ok: footer_ok(s),
        size_field_ok: size_field_ok(s),
        chk_sum_ok: checksum_ok(s),
        kickety_split_ok: kickety_split_ok(s),
        magic_reset_ok: magic_reset_ok(s),
        is_kick: is_kick(s),
        check_sum: stored_check_sum(s),
        base_addr: base_addr_of(s),
        boot_pc: boot_pc_of(s),
        rom_rev: rom_rev_of(s),
        exec_rev: exec_rev_of(s),
    }
}

/// A canonical Kickstart ROM image, borrowed for inspection.
pub struct KickRom<'a> {
    data: &'a [u8],
}

impl<'a> View for KickRom<'a> {
    type V = Seq<u8>;

    closed spec fn view(&self) -> Seq<u8> {
        self.data@
    }
}

impl<'a> KickRom<'a> {
    /// Wraps a canonical (already-normalized) ROM image for inspection.
    pub fn new(data: &'a [u8]) -> (r: Self)
        ensures
            r@ == data@,
    {
        KickRom { data }
    }

    /// `true` iff the image is exactly 256 KiB or 512 KiB.
    pub fn check_size(&self) -> (b: bool)
        ensures
            b == size_ok(self@),
    {
        let len = self.data.len();
        len == ROM_SIZE_256K || len == ROM_SIZE_512K
    }

    /// `true` iff a valid Kickstart header starts the image.
    pub fn check_header(&self) -> (b: bool)
        ensures
            b == header_ok(self@),
    {
        let len = self.data.len();
        if len < 0x18 {
            return false;
        }
        let marker = read_be16(self.data, 0);
        let opcode = read_be16(self.data, 2);
        let marker_ok = marker == 0x1114 || (marker == 0x1111 && len == ROM_SIZE_256K);
        marker_ok && opcode == 0x4EF9
    }

    /// `true` iff a valid Kickstart footer ends the image.
    pub fn check_footer(&self) -> (b: bool)
        ensures
            b == footer_ok(self@),
    {
        let len = self.data.len();
        if len < 24 {
            return false;
        }
        let mut i: usize = 0;
        while i < 7
            invariant
                len == self@.len(),
                len >= 24,
                i <= 7,
                forall|j: int| 0 <= j < i ==> #[trigger] be16(self@, len - 14 + 2 * j) == 0x19 + j,
            decreases 7 - i,
        {
            let word = read_be16(self.data, len - 14 + i * 2);
            if word != 0x19 + i as u16 {
                assert(be16(self@, self@.len() - 14 + 2 * (i as int)) != 0x19 + i);
                return false;
            }
            i = i + 1;
        }
        true
    }

    /// `true` iff the footer's size field equals the image's length.
    pub fn check_size_field(&self) -> (b: bool)
        ensures
            b == size_field_ok(self@),
    {
        let len = self.data.len();
        if len < 24 {
            return false;
        }
        let field = read_be32(self.data, len - 20);
        field as usize == len
    }

    /// `true` iff the image is a nonzero whole number of longwords, at
    /// least 24 bytes, and its checksum folds to `0xFFFFFFFF`.
    pub fn verify_check_sum(&self) -> (b: bool)
        ensures
            b == checksum_ok(self@),
    {
        let len = self.data.len();
        if len == 0 || len < 24 || len % 4 != 0 {
            return false;
        }
        checksum_ones_complement(self.data) == 0xFFFF_FFFF
    }

    /// `true` iff the "kickety split" signature sits at the midpoint.
    pub fn check_kickety_split(&self) -> (b: bool)
        ensures
            b == kickety_split_ok(self@),
    {
        let len = self.data.len();
        if len == 0 || len % 2 != 0 {
            return false;
        }
        let mid = len / 2;
        if mid + 4 > len {
            return false;
        }
        let marker = read_be16(self.data, mid);
        let opcode = read_be16(self.data, mid + 2);
        marker == 0x1111 && opcode == 0x4EF9
    }

    /// `true` iff the `RESET` opcode sits at offset `0xD0`.
    pub fn check_magic_reset(&self) -> (b: bool)
        ensures
            b == magic_reset_ok(self@),
    {
        if self.data.len() < 0xD2 {
            return false;
        }
        read_be16(self.data, 0xD0) == 0x4E70
    }

    /// `true` iff the image passes every check that gates "is a
    /// Kickstart ROM".
    pub fn is_kick_rom(&self) -> (b: bool)
        ensures
            b == is_kick(self@),
    {
        self.check_size() && self.check_header() && self.check_footer() && self.check_size_field()
            && self.verify_check_sum()
    }

    /// Reads the stored checksum longword at `len - 24`.
    pub fn read_check_sum(&self) -> (r: Option<u32>)
        ensures
            r == stored_check_sum(self@),
    {
        let len = self.data.len();
        if len < 24 {
            return None;
        }
        Some(read_be32(self.data, len - 24))
    }

    /// The ROM's base address: `boot_pc & 0xFFFF0000`.
    pub fn base_addr(&self) -> (r: Option<u32>)
        ensures
            r == base_addr_of(self@),
    {
        match self.boot_pc() {
            Some(pc) => Some(pc & 0xFFFF_0000),
            None => None,
        }
    }

    /// The boot program counter, the longword at header offset 0x04.
    pub fn boot_pc(&self) -> (r: Option<u32>)
        ensures
            r == boot_pc_of(self@),
    {
        if self.data.len() < 0x18 {
            return None;
        }
        Some(read_be32(self.data, 4))
    }

    /// The ROM's (major, minor) revision at header offset 0x0C.
    pub fn rom_rev(&self) -> (r: Option<(u16, u16)>)
        ensures
            r == rom_rev_of(self@),
    {
        if self.data.len() < 0x18 {
            return None;
        }
        Some((read_be16(self.data, 0x0C), read_be16(self.data, 0x0E)))
    }

    /// The embedded Exec's (major, minor) revision at header offset 0x10.
    pub fn exec_rev(&self) -> (r: Option<(u16, u16)>)
        ensures
            r == exec_rev_of(self@),
    {
        if self.data.len() < 0x18 {
            return None;
        }
        Some((read_be16(self.data, 0x10), read_be16(self.data, 0x12)))
    }

    /// Scans the image for `Resident` structures. The self-pointer check
    /// needs the base address; when the image is too short to have one,
    /// the scan reports nothing.
    pub fn scan(&self) -> (r: ResidentScan<'a>)
        ensures
            r.image() == self@,
            r.base() == base_addr_of(self@),
            r.remaining() == scan_hits(self@, base_addr_of(self@)),
    {
        ResidentScan::new(self.data, self.base_addr())
    }

    /// Every check and value, gathered into one [`RomInfo`].
    pub fn info(&self) -> (r: RomInfo)
        ensures
            r == info_of(self@),
    {
        RomInfo {
            size_ok: self.check_size(),
            header_ok: self.check_header(),
            footer_ok: self.check_footer(),
            size_field_ok: self.check_size_field(),
            chk_sum_ok: self.verify_check_sum(),
            kickety_split_ok: self.check_kickety_split(),
            magic_reset_ok: self.check_magic_reset(),
            is_kick: self.is_kick_rom(),
            check_sum: self.read_check_sum(),
            base_addr: self.base_addr(),
            boot_pc: self.boot_pc(),
            rom_rev: self.rom_rev(),
            exec_rev: self.exec_rev(),
        }
    }
}

/// The size check, byte for byte: exactly 262144 or 524288 bytes.
pub proof fn lemma_size_bytes(s: Seq<u8>)
    ensures
        size_ok(s) <==> (s.len() == 262144 || s.len() == 524288),
{
}

/// The header check, byte for byte: at least 0x18 bytes; bytes 0 and 1 are
/// `11 14`, or `11 11` in an image of exactly 262144 bytes; bytes 2 and 3
/// are `4E F9` (`JMP abs.L`), whatever the marker.
pub proof fn lemma_header_bytes(s: Seq<u8>)
    ensures
        header_ok(s) <==> {
            &&& s.len() >= 0x18
            &&& s[0] == 0x11
            &&& (s[1] == 0x14 || (s[1] == 0x11 && s.len() == 262144))
            &&& s[2] == 0x4E
            &&& s[3] == 0xF9
        },
        s.len() >= 0x18 && !(s[2] == 0x4E && s[3] == 0xF9) ==> !header_ok(s),
{
}

/// The footer check, byte for byte: at least 24 bytes, and the seven words
/// ending the image are `00 19`, `00 1A`, ..., `00 1F`.
pub proof fn lemma_footer_bytes(s: Seq<u8>)
    ensures
        footer_ok(s) <==> {
            &&& s.len() >= 24
            &&& forall|i: int|
                0 <= i < 7 ==> #[trigger] s[s.len() - 14 + 2 * i] == 0 && s[s.len() - 13 + 2 * i]
                    == 0x19 + i
        },
{
    if s.len() >= 24 {
        if footer_ok(s) {
            assert forall|i: int| 0 <= i < 7 implies #[trigger] s[s.len() - 14 + 2 * i] == 0 && s[s.len()
                - 13 + 2 * i] == 0x19 + i by {
                assert(be16(s, s.len() - 14 + 2 * i) == 0x19 + i);
            }
        }
        if forall|i: int|
            0 <= i < 7 ==> #[trigger] s[s.len() - 14 + 2 * i] == 0 && s[s.len() - 13 + 2 * i] == 0x19
                + i {
            assert forall|i: int| 0 <= i < 7 implies #[trigger] be16(s, s.len() - 14 + 2 * i) == 0x19
                + i by {
                assert(s[s.len() - 14 + 2 * i] == 0 && s[s.len() - 13 + 2 * i] == 0x19 + i);
            }
        }
    }
}

/// The size-field check, byte for byte: the big-endian longword at
/// `len - 20` equals the length.
pub proof fn lemma_size_field_bytes(s: Seq<u8>)
    ensures
        size_field_ok(s) <==> {
            &&& s.len() >= 24
            &&& s[s.len() - 20] * 16777216 + s[s.len() - 19] * 65536 + s[s.len() - 18] * 256 + s[s.len()
                - 17] == s.len()
        },
{
}

/// The kickety-split check, byte for byte: an even length of at least 8
/// and the bytes `11 11 4E F9` at the midpoint.
pub proof fn lemma_kickety_split_bytes(s: Seq<u8>)
    ensures
        kickety_split_ok(s) <==> {
            &&& s.len() >= 8
            &&& s.len() % 2 == 0
            &&& s[s.len() as int / 2] == 0x11
            &&& s[s.len() as int / 2 + 1] == 0x11
            &&& s[s.len() as int / 2 + 2] == 0x4E
            &&& s[s.len() as int / 2 + 3] == 0xF9
        },
{
}

/// The magic-reset check, byte for byte: `4E 70` at the fixed offset
/// 0xD0, whatever the boot PC says.
pub proof fn lemma_magic_reset_bytes(s: Seq<u8>)
    ensures
        magic_reset_ok(s) <==> (s.len() >= 0xD2 && s[0xD0] == 0x4E && s[0xD1] == 0x70),
{
}

/// Changing the boot PC (bytes 4..8) never changes the magic-reset check.
pub proof fn lemma_magic_reset_ignores_boot_pc(s: Seq<u8>, t: Seq<u8>)
    requires
        s.len() == t.len(),
        forall|i: int| 0 <= i < s.len() && !(4 <= i < 8) ==> s[i] == t[i],
    ensures
        magic_reset_ok(s) == magic_reset_ok(t),
{
    if s.len() >= 0xD2 {
        assert(s[0xD0] == t[0xD0] && s[0xD1] == t[0xD1]);
    }
}

/// The value reads, byte for byte: the stored checksum is the big-endian
/// longword at `len - 24`; the boot PC the longword at 4; the base address
/// bytes 4 and 5 followed by two zero bytes; the revisions the word pairs
/// at 0x0C and 0x10. Each is absent exactly when the image is too short.
pub proof fn lemma_value_bytes(s: Seq<u8>)
    ensures
        s.len() < 24 ==> stored_check_sum(s) is None,
        s.len() >= 24 ==> stored_check_sum(s) == Some(
            (s[s.len() - 24] * 16777216 + s[s.len() - 23] * 65536 + s[s.len() - 22] * 256 + s[s.len()
                - 21]) as u32,
        ),
        s.len() < 0x18 ==> {
            &&& boot_pc_of(s) is None
            &&& base_addr_of(s) is None
            &&& rom_rev_of(s) is None
            &&& exec_rev_of(s) is None
        },
        s.len() >= 0x18 ==> {
            &&& boot_pc_of(s) == Some((s[4] * 16777216 + s[5] * 65536 + s[6] * 256 + s[7]) as u32)
            &&& base_addr_of(s) == Some((s[4] * 16777216 + s[5] * 65536) as u32)
            &&& rom_rev_of(s) == Some(((s[0x0C] * 256 + s[0x0D]) as u16, (s[0x0E] * 256 + s[0x0F]) as u16))
            &&& exec_rev_of(s) == Some(((s[0x10] * 256 + s[0x11]) as u16, (s[0x12] * 256 + s[0x13]) as u16))
        },
{
    if s.len() >= 0x18 {
        let a = s[4];
        let b = s[5];
        let c = s[6];
        let d = s[7];
        let pc = (a * 16777216 + b * 65536 + c * 256 + d) as u32;
        assert(pc & 0xFFFF_0000u32 == (a * 16777216 + b * 65536) as u32) by (bit_vector)
            requires
                pc == (a * 16777216 + b * 65536 + c * 256 + d) as u32,
        ;
    }
}

/// The checksum check is exactly: at least 24 bytes, a whole number of
/// longwords, and an all-ones checksum; and "is a Kickstart ROM" is
/// exactly size, header, footer, size field and checksum together,
/// kickety split and magic reset playing no part.
pub proof fn lemma_checksum_and_is_kick(s: Seq<u8>)
    ensures
        checksum_ok(s) <==> (s.len() >= 24 && s.len() % 4 == 0 && kick_sum(s) == 0xFFFF_FFFFu32),
        is_kick(s) <==> (size_ok(s) && header_ok(s) && footer_ok(s) && size_field_ok(s)
            && checksum_ok(s)),
{
}

/// Each field of the [`RomInfo`] aggregate is the check or value of the
/// same name, with `chk_sum_ok` the checksum check and `check_sum` the
/// stored checksum.
pub proof fn lemma_info_fields(s: Seq<u8>)
    ensures
        info_of(s).size_ok == size_ok(s),
        info_of(s).header_ok == header_ok(s),
        info_of(s).footer_ok == footer_ok(s),
        info_of(s).size_field_ok == size_field_ok(s),
        info_of(s).chk_sum_ok == checksum_ok(s),
        info_of(s).kickety_split_ok == kickety_split_ok(s),
        info_of(s).magic_reset_ok == magic_reset_ok(s),
        info_of(s).is_kick == is_kick(s),
        info_of(s).check_sum == stored_check_sum(s),
        info_of(s).base_addr == base_addr_of(s),
        info_of(s).boot_pc == boot_pc_of(s),
        info_of(s).rom_rev == rom_rev_of(s),
        info_of(s).exec_rev == exec_rev_of(s),
{
}

} // verus!
