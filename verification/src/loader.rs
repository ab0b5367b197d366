//! Turning a raw ROM dump (byte-swapped, Cloanto-encoded, or split into
//! hi/lo EPROM halves) into a canonical big-endian image.

use vstd::prelude::*;
use vstd::slice::slice_to_vec;

verus! {

/// Byte order of a raw ROM dump relative to the canonical big-endian
/// layout.
#[derive(Debug, Clone, Copy, PartialEq, Eq, Structural)]
pub enum ByteOrder {
    /// `0123`: canonical, no reordering needed.
    Normal,
    /// `1032`: adjacent-byte swap within each 16-bit word.
    Order1032,
    /// `2301`: swap the upper/lower 16-bit halves of each 32-bit long.
    Order2301,
    /// `3210`: full byte reversal within each 32-bit long.
    Order3210,
}

/// How a raw ROM file's bytes are encoded, as classified by
/// [`Loader::detect`].
#[derive(Debug, Clone, Copy, PartialEq, Eq, Structural)]
pub enum RomEncoding {
    /// A plain dump in the given [`ByteOrder`].
    Raw(ByteOrder),
    /// Cloanto/Amiga Forever's XOR-encoded container; decoding it needs a
    /// key.
    CloantoEncoded,
}

/// Errors from [`Loader`] and the hi/lo split/merge functions.
#[derive(Debug, Clone, Copy, PartialEq, Eq, Structural)]
pub enum LoaderError {
    /// A Cloanto-encoded image was detected, but no key was supplied.
    KeyRequired,
    /// A key was supplied for a Cloanto-encoded image, but it was empty.
    InvalidKey,
    /// The data matches no known ROM format.
    UnknownFormat,
    /// A byte-reordering operation was given data whose length is not a
    /// multiple of 4 bytes.
    UnalignedLength,
    /// [`merge_hi_lo`] was given two images of different lengths.
    MismatchedHiLoLength,
    /// [`merge_hi_lo`] was given hi/lo images of odd length.
    OddHiLoLength,
}

/// The human-readable description of each [`LoaderError`].
pub open spec fn loader_error_text(e: LoaderError) -> Seq<char> {
    match e {
        LoaderError::KeyRequired => "Cloanto-encoded ROM: a rom.key is required to decode it"@,
        LoaderError::InvalidKey => "Cloanto rom.key must not be empty"@,
        LoaderError::UnknownFormat => "data does not match any known ROM format (byte-order signature or Cloanto magic)"@,
        LoaderError::UnalignedLength => "ROM image length must be a multiple of 4 bytes"@,
        LoaderError::MismatchedHiLoLength => "hi and lo EPROM images must be the same length"@,
        LoaderError::OddHiLoLength => "hi and lo EPROM images must have even length"@,
    }
}

impl LoaderError {
    /// A human-readable description of the error.
    pub fn message(&self) -> (m: String)
        ensures
            m@ == loader_error_text(*self),
    {
        match self {
            LoaderError::KeyRequired => "Cloanto-encoded ROM: a rom.key is required to decode it".to_owned(),
            LoaderError::InvalidKey => "Cloanto rom.key must not be empty".to_owned(),
            LoaderError::UnknownFormat => "data does not match any known ROM format (byte-order signature or Cloanto magic)".to_owned(),
            LoaderError::UnalignedLength => "ROM image length must be a multiple of 4 bytes".to_owned(),
            LoaderError::MismatchedHiLoLength => "hi and lo EPROM images must be the same length".to_owned(),
            LoaderError::OddHiLoLength => "hi and lo EPROM images must have even length".to_owned(),
        }
    }
}

/// Where byte `i` (0..4) of a reordered group comes from in the source
/// group.
pub open spec fn perm_index(order: ByteOrder, i: int) -> int {
    match order {
        ByteOrder::Normal => i,
        ByteOrder::Order1032 => if i % 2 == 0 {
            i + 1
        } else {
            i - 1
        },
        ByteOrder::Order2301 => if i < 2 {
            i + 2
        } else {
            i - 2
        },
        ByteOrder::Order3210 => 3 - i,
    }
}

/// One 4-byte group reordered by `order`.
pub open spec fn permuted(w: Seq<u8>, order: ByteOrder) -> Seq<u8> {
    Seq::new(4, |i: int| w[perm_index(order, i)])
}

/// A whole image reordered group by group.
pub open spec fn permute_all(s: Seq<u8>, order: ByteOrder) -> Seq<u8> {
    Seq::new(s.len(), |i: int| s[4 * (i / 4) + perm_index(order, i % 4)])
}

/// Every byte order is its own inverse: reordering a group twice the
/// same way gives the group back.
pub proof fn lemma_permuted_involution(w: Seq<u8>, order: ByteOrder)
    requires
        w.len() == 4,
    ensures
        permuted(permuted(w, order), order) == w,
{
    assert(permuted(permuted(w, order), order) =~= w);
}

/// Applies `order` to one 4-byte group (`word[0]` is the lowest file
/// offset). Each order is its own inverse, so
/// this serves both directions.
pub fn permute_word(word: [u8; 4], order: ByteOrder) -> (r: [u8; 4])
    ensures
        r@ == permuted(word@, order),
{
    let r = match order {
        ByteOrder::Normal => word,
        ByteOrder::Order1032 => [word[1], word[0], word[3], word[2]],
        ByteOrder::Order2301 => [word[2], word[3], word[0], word[1]],
        ByteOrder::Order3210 => [word[3], word[2], word[1], word[0]],
    };
    assert(r@ =~= permuted(word@, order));
    r
}


/// The Cloanto/Amiga Forever container's 11-byte ASCII magic,
/// `AMIROMTYPE1`; the XOR-encoded payload follows it to end of file.
pub open spec fn cloanto_magic() -> Seq<u8> {
    seq![0x41u8, 0x4D, 0x49, 0x52, 0x4F, 0x4D, 0x54, 0x59, 0x50, 0x45, 0x31]
}

/// `s` begins with the Cloanto magic.
pub open spec fn has_cloanto_magic(s: Seq<u8>) -> bool {
    s.len() >= 11 && s.subrange(0, 11) == cloanto_magic()
}

/// `w` is exactly the 4 bytes `a b c d`.
pub open spec fn bytes_are(w: Seq<u8>, a: u8, b: u8, c: u8, d: u8) -> bool {
    w[0] == a && w[1] == b && w[2] == c && w[3] == d
}

/// `w` (canonical order) is one of the known boot-vector first longwords:
/// `11144EF9` (Kickstart 2.04+, ROM Switcher), `11114EF9` (Kickstart 1.3,
/// Logica-Dialoga, AROS), `612E4447` (DiagROM 2.x beta), `11144447`
/// (DiagROM 2.x).
pub open spec fn is_boot_signature(w: Seq<u8>) -> bool {
    ||| bytes_are(w, 0x11, 0x14, 0x4E, 0xF9)
    ||| bytes_are(w, 0x11, 0x11, 0x4E, 0xF9)
    ||| bytes_are(w, 0x61, 0x2E, 0x44, 0x47)
    ||| bytes_are(w, 0x11, 0x14, 0x44, 0x47)
}

/// `w` (canonical order) looks like a ROM-space address: high byte `0x00`,
/// second byte in `0xF0 ..= 0xFF`.
pub open spec fn plausible_rom_address(w: Seq<u8>) -> bool {
    w[0] == 0 && w[1] >= 0xF0
}

/// Read in `order`, the first longword of `s` is a boot signature and the
/// second a plausible ROM address.
pub open spec fn order_fits(s: Seq<u8>, order: ByteOrder) -> bool {
    &&& is_boot_signature(permuted(s.subrange(0, 4), order))
    &&& plausible_rom_address(permuted(s.subrange(4, 8), order))
}

/// The classification [`Loader::detect`] gives.
pub open spec fn detect_spec(s: Seq<u8>) -> Option<RomEncoding> {
    if has_cloanto_magic(s) {
        Some(RomEncoding::CloantoEncoded)
    } else if s.len() < 8 {
        None
    } else if order_fits(s, ByteOrder::Normal) {
        Some(RomEncoding::Raw(ByteOrder::Normal))
    } else if order_fits(s, ByteOrder::Order1032) {
        Some(RomEncoding::Raw(ByteOrder::Order1032))
    } else if order_fits(s, ByteOrder::Order2301) {
        Some(RomEncoding::Raw(ByteOrder::Order2301))
    } else if order_fits(s, ByteOrder::Order3210) {
        Some(RomEncoding::Raw(ByteOrder::Order3210))
    } else {
        None
    }
}

/// A longword is a boot signature under at most one byte order, so the
/// order [`Loader::detect`] reports is never ambiguous.
pub proof fn lemma_signature_order_unique(w: Seq<u8>, o1: ByteOrder, o2: ByteOrder)
    requires
        w.len() == 4,
        is_boot_signature(permuted(w, o1)),
        is_boot_signature(permuted(w, o2)),
    ensures
        o1 == o2,
{
    let p1 = permuted(w, o1);
    let p2 = permuted(w, o2);
    assert(p1[0] == w[perm_index(o1, 0)] && p1[1] == w[perm_index(o1, 1)]);
    assert(p1[2] == w[perm_index(o1, 2)] && p1[3] == w[perm_index(o1, 3)]);
    assert(p2[0] == w[perm_index(o2, 0)] && p2[1] == w[perm_index(o2, 1)]);
    assert(p2[2] == w[perm_index(o2, 2)] && p2[3] == w[perm_index(o2, 3)]);
}

/// `true` iff `data` begins with the Cloanto magic.
fn starts_with_cloanto_magic(data: &[u8]) -> (b: bool)
    ensures
        b == has_cloanto_magic(data@),
{
    if data.len() < 11 {
        return false;
    }
    let magic: [u8; 11] = [0x41, 0x4D, 0x49, 0x52, 0x4F, 0x4D, 0x54, 0x59, 0x50, 0x45, 0x31];
    assert(magic@ =~= cloanto_magic());
    let mut i: usize = 0;
    while i < 11
        invariant
            i <= 11,
            data@.len() >= 11,
            magic@ == cloanto_magic(),
            forall|j: int| 0 <= j < i ==> data@[j] == cloanto_magic()[j],
        decreases 11 - i,
    {
        if data[i] != magic[i] {
            assert(data@.subrange(0, 11)[i as int] != cloanto_magic()[i as int]);
            return false;
        }
        i = i + 1;
    }
    assert(data@.subrange(0, 11) =~= cloanto_magic());
    true
}

/// `true` iff, read in `order`, `lw0` is a boot signature and `lw1` a
/// plausible ROM address.
fn order_fits_words(lw0: [u8; 4], lw1: [u8; 4], order: ByteOrder) -> (b: bool)
    ensures
        b == (is_boot_signature(permuted(lw0@, order)) && plausible_rom_address(
            permuted(lw1@, order),
        )),
{
    let w = permute_word(lw0, order);
    let sig = (w[0] == 0x11 && w[1] == 0x14 && w[2] == 0x4E && w[3] == 0xF9) || (w[0] == 0x11
        && w[1] == 0x11 && w[2] == 0x4E && w[3] == 0xF9) || (w[0] == 0x61 && w[1] == 0x2E && w[2]
        == 0x44 && w[3] == 0x47) || (w[0] == 0x11 && w[1] == 0x14 && w[2] == 0x44 && w[3] == 0x47);
    let a = permute_word(lw1, order);
    sig && a[0] == 0x00 && a[1] >= 0xF0
}

/// The Cloanto payload (everything after the magic) XORed against `key`,
/// cycling from key index 0.
pub open spec fn xor_cycle(p: Seq<u8>, key: Seq<u8>) -> Seq<u8> {
    Seq::new(p.len(), |i: int| p[i] ^ key[i % (key.len() as int)])
}

/// The outcome of decoding a Cloanto container with `key`.
pub open spec fn cloanto_decode_spec(s: Seq<u8>, key: Seq<u8>) -> Result<Seq<u8>, LoaderError> {
    if key.len() == 0 {
        Err(LoaderError::InvalidKey)
    } else {
        Ok(xor_cycle(s.skip(11), key))
    }
}

/// The bytes a key refers to, if there is a key.
pub open spec fn key_view(key: Option<&[u8]>) -> Option<Seq<u8>> {
    match key {
        Some(k) => Some(k@),
        None => None,
    }
}

/// A loader result with its bytes taken by view.
pub open spec fn bytes_result(r: Result<Vec<u8>, LoaderError>) -> Result<Seq<u8>, LoaderError> {
    match r {
        Ok(v) => Ok(v@),
        Err(e) => Err(e),
    }
}

/// The outcome of [`Loader::normalize`].
pub open spec fn normalize_spec(s: Seq<u8>, key: Option<Seq<u8>>) -> Result<Seq<u8>, LoaderError> {
    match detect_spec(s) {
        Some(RomEncoding::CloantoEncoded) => match key {
            None => Err(LoaderError::KeyRequired),
            Some(k) => cloanto_decode_spec(s, k),
        },
        Some(RomEncoding::Raw(ByteOrder::Normal)) => Ok(s),
        Some(RomEncoding::Raw(order)) => if s.len() % 4 != 0 {
            Err(LoaderError::UnalignedLength)
        } else {
            Ok(permute_all(s, order))
        },
        None => Err(LoaderError::UnknownFormat),
    }
}

/// Decodes a Cloanto/Amiga Forever container: strips the 11-byte magic
/// and XORs the rest against `key`, cycling from key index 0.
fn decode_cloanto(data: &[u8], key: &[u8]) -> (r: Result<Vec<u8>, LoaderError>)
    requires
        data@.len() >= 11,
    ensures
        bytes_result(r) == cloanto_decode_spec(data@, key@),
{
    let klen = key.len();
    if klen == 0 {
        return Err(LoaderError::InvalidKey);
    }
    let len = data.len();
    let mut out: Vec<u8> = Vec::with_capacity(len - 11);
    let mut i: usize = 0;
    while i < len - 11
        invariant
            len == data@.len(),
            len >= 11,
            klen == key@.len(),
            klen > 0,
            i <= len - 11,
            out@ =~= xor_cycle(data@.skip(11), key@).take(i as int),
        decreases len - 11 - i,
    {
        out.push(data[11 + i] ^ key[i % klen]);
        i = i + 1;
    }
    assert(out@ =~= xor_cycle(data@.skip(11), key@));
    Ok(out)
}

/// Reorders a whole image, group by group; `data.len()` must be a whole
/// number of 4-byte groups.
fn reorder(data: &[u8], order: ByteOrder) -> (out: Vec<u8>)
    requires
        data@.len() % 4 == 0,
    ensures
        out@ == permute_all(data@, order),
{
    let len = data.len();
    let n = len / 4;
    let mut out: Vec<u8> = Vec::with_capacity(len);
    let mut c: usize = 0;
    while c < n
        invariant
            len == data@.len(),
            len % 4 == 0,
            n == len / 4,
            c <= n,
            out@.len() == 4 * c,
            forall|j: int|
                0 <= j < 4 * c ==> #[trigger] out@[j] == data@[4 * (j / 4) + perm_index(order, j % 4)],
        decreases n - c,
    {
        let base = 4 * c;
        let word = [data[base], data[base + 1], data[base + 2], data[base + 3]];
        let w = permute_word(word, order);
        let ghost prev = out@;
        out.push(w[0]);
        out.push(w[1]);
        out.push(w[2]);
        out.push(w[3]);
        assert forall|j: int| 0 <= j < 4 * c + 4 implies #[trigger] out@[j] == data@[4 * (j / 4)
            + perm_index(order, j % 4)] by {
            if j >= 4 * c {
                assert(j / 4 == c as int);
                assert(out@[j] == w@[j - 4 * c]);
            } else {
                assert(out@[j] == prev[j]);
            }
        }
        c = c + 1;
    }
    assert(out@ =~= permute_all(data@, order));
    out
}

/// Normalizes a raw ROM file's bytes into a canonical image.
pub struct Loader;

impl Loader {
    /// Classifies `data`: the Cloanto container if it starts with the
    /// `AMIROMTYPE1` magic; otherwise the byte order under which its first
    /// longword is a known boot-vector signature and its second longword
    /// a plausible ROM-space address; otherwise `None` (including any
    /// input shorter than 8 bytes without the magic).
    pub fn detect(data: &[u8]) -> (r: Option<RomEncoding>)
        ensures
            r == detect_spec(data@),
    {
        if starts_with_cloanto_magic(data) {
            return Some(RomEncoding::CloantoEncoded);
        }
        if data.len() < 8 {
            return None;
        }
        let lw0 = [data[0], data[1], data[2], data[3]];
        let lw1 = [data[4], data[5], data[6], data[7]];
        assert(lw0@ =~= data@.subrange(0, 4));
        assert(lw1@ =~= data@.subrange(4, 8));
        if order_fits_words(lw0, lw1, ByteOrder::Normal) {
            Some(RomEncoding::Raw(ByteOrder::Normal))
        } else if order_fits_words(lw0, lw1, ByteOrder::Order1032) {
            Some(RomEncoding::Raw(ByteOrder::Order1032))
        } else if order_fits_words(lw0, lw1, ByteOrder::Order2301) {
            Some(RomEncoding::Raw(ByteOrder::Order2301))
        } else if order_fits_words(lw0, lw1, ByteOrder::Order3210) {
            Some(RomEncoding::Raw(ByteOrder::Order3210))
        } else {
            None
        }
    }

    /// Normalizes `data` into a canonical raw image. A key is required
    /// (and must be nonempty) iff a Cloanto container is detected; a
    /// non-canonical byte order needs a length that is a multiple of 4.
    pub fn normalize(data: &[u8], key: Option<&[u8]>) -> (r: Result<Vec<u8>, LoaderError>)
        ensures
            bytes_result(r) == normalize_spec(data@, key_view(key)),
    {
        match Self::detect(data) {
            Some(RomEncoding::CloantoEncoded) => match key {
                None => Err(LoaderError::KeyRequired),
                Some(k) => decode_cloanto(data, k),
            },
            Some(RomEncoding::Raw(ByteOrder::Normal)) => Ok(slice_to_vec(data)),
            Some(RomEncoding::Raw(order)) => {
                if data.len() % 4 != 0 {
                    return Err(LoaderError::UnalignedLength);
                }
                Ok(reorder(data, order))
            },
            None => Err(LoaderError::UnknownFormat),
        }
    }
}


/// Two EPROM halves merged: each output longword takes its first 16-bit
/// word from `hi` and its second from `lo`.
pub open spec fn interleave(hi: Seq<u8>, lo: Seq<u8>) -> Seq<u8> {
    Seq::new(
        hi.len() + lo.len(),
        |i: int|
            if i % 4 < 2 {
                hi[2 * (i / 4) + i % 4]
            } else {
                lo[2 * (i / 4) + i % 4 - 2]
            },
    )
}

/// The outcome of [`merge_hi_lo`].
pub open spec fn merge_spec(hi: Seq<u8>, lo: Seq<u8>) -> Result<Seq<u8>, LoaderError> {
    if hi.len() != lo.len() {
        Err(LoaderError::MismatchedHiLoLength)
    } else if hi.len() % 2 != 0 {
        Err(LoaderError::OddHiLoLength)
    } else {
        Ok(interleave(hi, lo))
    }
}

/// The hi EPROM half of an image: bytes 0 and 1 of every longword.
pub open spec fn hi_half(r: Seq<u8>) -> Seq<u8> {
    Seq::new(r.len() / 2, |j: int| r[4 * (j / 2) + j % 2])
}

/// The lo EPROM half of an image: bytes 2 and 3 of every longword.
pub open spec fn lo_half(r: Seq<u8>) -> Seq<u8> {
    Seq::new(r.len() / 2, |j: int| r[4 * (j / 2) + 2 + j % 2])
}

/// The outcome of [`split_hi_lo`].
pub open spec fn split_spec(r: Seq<u8>) -> Result<(Seq<u8>, Seq<u8>), LoaderError> {
    if r.len() % 4 != 0 {
        Err(LoaderError::UnalignedLength)
    } else {
        Ok((hi_half(r), lo_half(r)))
    }
}

/// A split result with both halves taken by view.
pub open spec fn halves_result(r: Result<(Vec<u8>, Vec<u8>), LoaderError>) -> Result<
    (Seq<u8>, Seq<u8>),
    LoaderError,
> {
    match r {
        Ok((h, l)) => Ok((h@, l@)),
        Err(e) => Err(e),
    }
}

/// Merges two same-size hi/lo EPROM dumps into one canonical image. Fails
/// if their lengths differ, or if the common length is odd.
pub fn merge_hi_lo(hi: &[u8], lo: &[u8]) -> (r: Result<Vec<u8>, LoaderError>)
    ensures
        bytes_result(r) == merge_spec(hi@, lo@),
{
    let len = hi.len();
    if len != lo.len() {
        return Err(LoaderError::MismatchedHiLoLength);
    }
    if len % 2 != 0 {
        return Err(LoaderError::OddHiLoLength);
    }
    let mut out: Vec<u8> = Vec::new();
    let mut i: usize = 0;
    while i < len
        invariant
            len == hi@.len(),
            len == lo@.len(),
            len % 2 == 0,
            i % 2 == 0,
            i <= len,
            out@.len() == 2 * i,
            forall|j: int| 0 <= j < 2 * i ==> #[trigger] out@[j] == interleave(hi@, lo@)[j],
        decreases len - i,
    {
        let ghost prev = out@;
        out.push(hi[i]);
        out.push(hi[i + 1]);
        out.push(lo[i]);
        out.push(lo[i + 1]);
        assert forall|j: int| 0 <= j < 2 * i + 4 implies #[trigger] out@[j] == interleave(
            hi@,
            lo@,
        )[j] by {
            if j >= 2 * i {
                assert(j / 4 == i as int / 2);
            } else {
                assert(out@[j] == prev[j]);
            }
        }
        i = i + 2;
    }
    assert(out@ =~= interleave(hi@, lo@));
    Ok(out)
}

/// Splits a canonical image into hi/lo EPROM dumps (hi = bytes 0 and 1
/// of each longword, lo = bytes 2 and 3). Fails unless the length is a
/// multiple of 4.
pub fn split_hi_lo(rom: &[u8]) -> (r: Result<(Vec<u8>, Vec<u8>), LoaderError>)
    ensures
        halves_result(r) == split_spec(rom@),
{
    let len = rom.len();
    if len % 4 != 0 {
        return Err(LoaderError::UnalignedLength);
    }
    let mut hi: Vec<u8> = Vec::with_capacity(len / 2);
    let mut lo: Vec<u8> = Vec::with_capacity(len / 2);
    let mut c: usize = 0;
    while c < len / 4
        invariant
            len == rom@.len(),
            len % 4 == 0,
            c <= len / 4,
            hi@.len() == 2 * c,
            lo@.len() == 2 * c,
            forall|j: int| 0 <= j < 2 * c ==> #[trigger] hi@[j] == hi_half(rom@)[j],
            forall|j: int| 0 <= j < 2 * c ==> #[trigger] lo@[j] == lo_half(rom@)[j],
        decreases len / 4 - c,
    {
        let base = 4 * c;
        let ghost ph = hi@;
        let ghost pl = lo@;
        hi.push(rom[base]);
        hi.push(rom[base + 1]);
        lo.push(rom[base + 2]);
        lo.push(rom[base + 3]);
        assert forall|j: int| 0 <= j < 2 * c + 2 implies #[trigger] hi@[j] == hi_half(rom@)[j] by {
            if j >= 2 * c {
                assert(j / 2 == c as int);
            } else {
                assert(hi@[j] == ph[j]);
            }
        }
        assert forall|j: int| 0 <= j < 2 * c + 2 implies #[trigger] lo@[j] == lo_half(rom@)[j] by {
            if j >= 2 * c {
                assert(j / 2 == c as int);
            } else {
                assert(lo@[j] == pl[j]);
            }
        }
        c = c + 1;
    }
    assert(hi@ =~= hi_half(rom@));
    assert(lo@ =~= lo_half(rom@));
    Ok((hi, lo))
}

/// Splitting an image into hi/lo halves and merging them back gives the
/// image back.
pub proof fn lemma_split_then_merge(r: Seq<u8>)
    requires
        r.len() % 4 == 0,
    ensures
        split_spec(r) == Ok::<(Seq<u8>, Seq<u8>), LoaderError>((hi_half(r), lo_half(r))),
        merge_spec(hi_half(r), lo_half(r)) == Ok::<Seq<u8>, LoaderError>(r),
{
    let h = hi_half(r);
    let l = lo_half(r);
    assert forall|i: int| 0 <= i < r.len() implies #[trigger] interleave(h, l)[i] == r[i] by {
        let q = i / 4;
        let t = i % 4;
        assert(i == 4 * q + t);
        if t < 2 {
            let j = 2 * q + t;
            assert(j / 2 == q && j % 2 == t);
        } else {
            let j = 2 * q + t - 2;
            assert(j / 2 == q && j % 2 == t - 2);
        }
    }
    assert(interleave(h, l) =~= r);
}

/// Merging equal-length, even-length hi/lo halves and splitting the result
/// gives the same two halves back.
pub proof fn lemma_merge_then_split(hi: Seq<u8>, lo: Seq<u8>)
    requires
        hi.len() == lo.len(),
        hi.len() % 2 == 0,
    ensures
        merge_spec(hi, lo) == Ok::<Seq<u8>, LoaderError>(interleave(hi, lo)),
        split_spec(interleave(hi, lo)) == Ok::<(Seq<u8>, Seq<u8>), LoaderError>((hi, lo)),
{
    let m = interleave(hi, lo);
    assert(m.len() % 4 == 0);
    assert forall|j: int| 0 <= j < hi.len() implies #[trigger] hi_half(m)[j] == hi[j] by {
        let q = j / 2;
        let t = j % 2;
        let i = 4 * q + t;
        assert(i / 4 == q && i % 4 == t);
    }
    assert forall|j: int| 0 <= j < lo.len() implies #[trigger] lo_half(m)[j] == lo[j] by {
        let q = j / 2;
        let t = j % 2;
        let i = 4 * q + 2 + t;
        assert(i / 4 == q && i % 4 == t + 2);
    }
    assert(hi_half(m) =~= hi);
    assert(lo_half(m) =~= lo);
}


/// Reordering a whole image twice the same way gives the image back.
pub proof fn lemma_permute_all_involution(s: Seq<u8>, order: ByteOrder)
    requires
        s.len() % 4 == 0,
    ensures
        permute_all(permute_all(s, order), order) == s,
{
    let t = permute_all(s, order);
    assert forall|i: int| 0 <= i < s.len() implies #[trigger] permute_all(t, order)[i] == s[i] by {
        let q = i / 4;
        let j = 4 * q + perm_index(order, i % 4);
        assert(j / 4 == q && j % 4 == perm_index(order, i % 4));
    }
    assert(permute_all(t, order) =~= s);
}

/// The leading group of a reordered image is the leading group, reordered.
proof fn lemma_permute_all_group(s: Seq<u8>, order: ByteOrder, g: int)
    requires
        s.len() % 4 == 0,
        0 <= g,
        4 * g + 4 <= s.len(),
    ensures
        permute_all(s, order).subrange(4 * g, 4 * g + 4) == permuted(
            s.subrange(4 * g, 4 * g + 4),
            order,
        ),
{
    let t = permute_all(s, order);
    assert forall|i: int| 0 <= i < 4 implies #[trigger] t.subrange(4 * g, 4 * g + 4)[i] == permuted(
        s.subrange(4 * g, 4 * g + 4),
        order,
    )[i] by {
        assert((4 * g + i) / 4 == g && (4 * g + i) % 4 == i);
    }
    assert(t.subrange(4 * g, 4 * g + 4) =~= permuted(s.subrange(4 * g, 4 * g + 4), order));
}

/// An image whose first longword is a boot signature never carries the
/// Cloanto magic, in any byte order.
proof fn lemma_signature_not_cloanto(s: Seq<u8>)
    requires
        s.len() >= 8,
        exists|o: ByteOrder| is_boot_signature(#[trigger] permuted(s.subrange(0, 4), o)),
    ensures
        !has_cloanto_magic(s),
{
    let o = choose|o: ByteOrder| is_boot_signature(#[trigger] permuted(s.subrange(0, 4), o));
    let w = s.subrange(0, 4);
    let p = permuted(w, o);
    assert(p[0] == w[perm_index(o, 0)] && p[1] == w[perm_index(o, 1)]);
    assert(p[2] == w[perm_index(o, 2)] && p[3] == w[perm_index(o, 3)]);
    if has_cloanto_magic(s) {
        assert(s.subrange(0, 11)[0] == 0x41);
        assert(w[0] == 0x41);
    }
}

/// A canonical image reordered into any byte order is detected as that
/// order, and normalizing it gives the canonical image back.
pub proof fn lemma_normalize_undoes_reorder(s: Seq<u8>, order: ByteOrder, key: Option<Seq<u8>>)
    requires
        s.len() % 4 == 0,
        detect_spec(s) == Some(RomEncoding::Raw(ByteOrder::Normal)),
    ensures
        detect_spec(permute_all(s, order)) == Some(RomEncoding::Raw(order)),
        normalize_spec(permute_all(s, order), key) == Ok::<Seq<u8>, LoaderError>(s),
{
    let t = permute_all(s, order);
    let w0 = s.subrange(0, 4);
    let w1 = s.subrange(4, 8);
    lemma_permute_all_group(s, order, 0);
    lemma_permute_all_group(s, order, 1);
    assert(permuted(w0, ByteOrder::Normal) =~= w0);
    assert(permuted(w1, ByteOrder::Normal) =~= w1);
    lemma_permuted_involution(w0, order);
    lemma_permuted_involution(w1, order);
    let t0 = t.subrange(0, 4);
    assert(t0 == permuted(w0, order));
    assert(is_boot_signature(permuted(t0, order)));
    assert(order_fits(t, order));
    lemma_signature_not_cloanto(t);
    assert forall|o: ByteOrder| o != order implies !(#[trigger] order_fits(t, o)) by {
        if is_boot_signature(permuted(t0, o)) {
            lemma_signature_order_unique(t0, o, order);
        }
    }
    lemma_permute_all_involution(s, order);
    if order == ByteOrder::Normal {
        assert(t =~= s);
    }
}

/// Whatever the raw leg of [`Loader::normalize`] produces is detected as
/// canonical order, so normalizing it again changes nothing.
pub proof fn lemma_normalized_is_canonical(s: Seq<u8>, key: Option<Seq<u8>>, order: ByteOrder)
    requires
        detect_spec(s) == Some(RomEncoding::Raw(order)),
        normalize_spec(s, key) is Ok,
    ensures
        detect_spec(normalize_spec(s, key)->Ok_0) == Some(RomEncoding::Raw(ByteOrder::Normal)),
        normalize_spec(normalize_spec(s, key)->Ok_0, key) == normalize_spec(s, key),
{
    let t = normalize_spec(s, key)->Ok_0;
    if order != ByteOrder::Normal {
        let w0 = s.subrange(0, 4);
        let w1 = s.subrange(4, 8);
        assert(order_fits(s, order));
        lemma_permute_all_group(s, order, 0);
        lemma_permute_all_group(s, order, 1);
        assert(permuted(t.subrange(0, 4), ByteOrder::Normal) =~= t.subrange(0, 4));
        assert(permuted(t.subrange(4, 8), ByteOrder::Normal) =~= t.subrange(4, 8));
        assert(order_fits(t, ByteOrder::Normal));
        lemma_signature_not_cloanto(t);
    }
}

/// Encoding a payload as a Cloanto container with a nonempty key and
/// normalizing it with the same key gives the payload back.
pub proof fn lemma_cloanto_round_trip(p: Seq<u8>, key: Seq<u8>)
    requires
        key.len() > 0,
    ensures
        normalize_spec(cloanto_magic() + xor_cycle(p, key), Some(key)) == Ok::<Seq<u8>, LoaderError>(p),
{
    let s = cloanto_magic() + xor_cycle(p, key);
    assert(s.subrange(0, 11) =~= cloanto_magic());
    assert(s.skip(11) =~= xor_cycle(p, key));
    assert forall|i: int| 0 <= i < p.len() implies #[trigger] xor_cycle(xor_cycle(p, key), key)[i]
        == p[i] by {
        let a = p[i];
        let b = key[i % (key.len() as int)];
        assert((a ^ b) ^ b == a) by (bit_vector);
    }
    assert(xor_cycle(xor_cycle(p, key), key) =~= p);
}

/// `a b c d` is one of the four known boot-vector first longwords, written
/// out: `11 14 4E F9`, `11 11 4E F9`, `61 2E 44 47`, `11 14 44 47`.
pub open spec fn known_first_longword(a: u8, b: u8, c: u8, d: u8) -> bool {
    ||| (a == 0x11 && b == 0x14 && c == 0x4E && d == 0xF9)
    ||| (a == 0x11 && b == 0x11 && c == 0x4E && d == 0xF9)
    ||| (a == 0x61 && b == 0x2E && c == 0x44 && d == 0x47)
    ||| (a == 0x11 && b == 0x14 && c == 0x44 && d == 0x47)
}

/// `s` starts with the ASCII bytes `AMIROMTYPE1`, written out.
pub open spec fn starts_amiromtype1(s: Seq<u8>) -> bool {
    &&& s.len() >= 11
    &&& s[0] == 0x41 && s[1] == 0x4D && s[2] == 0x49 && s[3] == 0x52 && s[4] == 0x4F
    &&& s[5] == 0x4D && s[6] == 0x54 && s[7] == 0x59 && s[8] == 0x50 && s[9] == 0x45
    &&& s[10] == 0x31
}

/// Each byte order, as its literal byte map on one group `w0 w1 w2 w3`:
/// `0123` keeps it, `1032` gives `w1 w0 w3 w2`, `2301` gives `w2 w3 w0 w1`,
/// `3210` gives `w3 w2 w1 w0`.
pub proof fn lemma_permuted_bytes(w: Seq<u8>)
    requires
        w.len() == 4,
    ensures
        permuted(w, ByteOrder::Normal) == w,
        permuted(w, ByteOrder::Order1032) == seq![w[1], w[0], w[3], w[2]],
        permuted(w, ByteOrder::Order2301) == seq![w[2], w[3], w[0], w[1]],
        permuted(w, ByteOrder::Order3210) == seq![w[3], w[2], w[1], w[0]],
{
    assert(permuted(w, ByteOrder::Normal) =~= w);
    assert(permuted(w, ByteOrder::Order1032) =~= seq![w[1], w[0], w[3], w[2]]);
    assert(permuted(w, ByteOrder::Order2301) =~= seq![w[2], w[3], w[0], w[1]]);
    assert(permuted(w, ByteOrder::Order3210) =~= seq![w[3], w[2], w[1], w[0]]);
}

/// Detection, byte for byte. `AMIROMTYPE1` first means a Cloanto
/// container. Otherwise fewer than 8 bytes means nothing recognised.
/// Otherwise the orders are tried as `0123`, `1032`, `2301`, `3210`: an
/// order fits when, read in that order, the first longword is a known
/// signature and the second longword starts with `00` and then a byte in
/// `F0 ..= FF`.
pub proof fn lemma_detect_bytes(s: Seq<u8>)
    ensures
        detect_spec(s) == if starts_amiromtype1(s) {
            Some(RomEncoding::CloantoEncoded)
        } else if s.len() < 8 {
            None
        } else if known_first_longword(s[0], s[1], s[2], s[3]) && s[4] == 0 && s[5] >= 0xF0 {
            Some(RomEncoding::Raw(ByteOrder::Normal))
        } else if known_first_longword(s[1], s[0], s[3], s[2]) && s[5] == 0 && s[4] >= 0xF0 {
            Some(RomEncoding::Raw(ByteOrder::Order1032))
        } else if known_first_longword(s[2], s[3], s[0], s[1]) && s[6] == 0 && s[7] >= 0xF0 {
            Some(RomEncoding::Raw(ByteOrder::Order2301))
        } else if known_first_longword(s[3], s[2], s[1], s[0]) && s[7] == 0 && s[6] >= 0xF0 {
            Some(RomEncoding::Raw(ByteOrder::Order3210))
        } else {
            None
        },
{
    if s.len() >= 11 {
        assert(has_cloanto_magic(s) <==> starts_amiromtype1(s)) by {
            if starts_amiromtype1(s) {
                assert(s.subrange(0, 11) =~= cloanto_magic());
            }
            if has_cloanto_magic(s) {
                assert(s.subrange(0, 11)[0] == s[0]);
                assert(s.subrange(0, 11)[10] == s[10]);
                assert(forall|i: int| 0 <= i < 11 ==> s.subrange(0, 11)[i] == s[i]);
            }
        }
    }
    if s.len() >= 8 {
        let w0 = s.subrange(0, 4);
        let w1 = s.subrange(4, 8);
        lemma_permuted_bytes(w0);
        lemma_permuted_bytes(w1);
        assert(w0[0] == s[0] && w0[1] == s[1] && w0[2] == s[2] && w0[3] == s[3]);
        assert(w1[0] == s[4] && w1[1] == s[5] && w1[2] == s[6] && w1[3] == s[7]);
    }
}

/// A known first longword in canonical order followed by `00` and any
/// byte in `F0 ..= FF` (the `00 F0` of a CDTV/A570 extended ROM among
/// them) is detected, and normalized, as canonical order.
pub proof fn lemma_detect_canonical_header(s: Seq<u8>)
    requires
        s.len() >= 8,
        known_first_longword(s[0], s[1], s[2], s[3]),
        s[4] == 0,
        0xF0 <= s[5] <= 0xFF,
    ensures
        detect_spec(s) == Some(RomEncoding::Raw(ByteOrder::Normal)),
        normalize_spec(s, None) == Ok::<Seq<u8>, LoaderError>(s),
{
    lemma_detect_bytes(s);
}

/// Normalizing a dump whose every longword is written with its bytes in
/// `1032`, `2301` or `3210` order (spelled out byte by byte) gives the
/// canonical image back, and the dump is detected as that order.
pub proof fn lemma_normalize_undoes_byte_swaps(s: Seq<u8>, key: Option<Seq<u8>>)
    requires
        s.len() % 4 == 0,
        detect_spec(s) == Some(RomEncoding::Raw(ByteOrder::Normal)),
    ensures
        ({
            let d = Seq::new(s.len(), |i: int| s[4 * (i / 4) + 3 - i % 4]);
            &&& detect_spec(d) == Some(RomEncoding::Raw(ByteOrder::Order3210))
            &&& normalize_spec(d, key) == Ok::<Seq<u8>, LoaderError>(s)
        }),
        ({
            let d = Seq::new(s.len(), |i: int| if i % 2 == 0 { s[i + 1] } else { s[i - 1] });
            &&& detect_spec(d) == Some(RomEncoding::Raw(ByteOrder::Order1032))
            &&& normalize_spec(d, key) == Ok::<Seq<u8>, LoaderError>(s)
        }),
        ({
            let d = Seq::new(s.len(), |i: int| if i % 4 < 2 { s[i + 2] } else { s[i - 2] });
            &&& detect_spec(d) == Some(RomEncoding::Raw(ByteOrder::Order2301))
            &&& normalize_spec(d, key) == Ok::<Seq<u8>, LoaderError>(s)
        }),
{
    let d3 = Seq::new(s.len(), |i: int| s[4 * (i / 4) + 3 - i % 4]);
    let d1 = Seq::new(s.len(), |i: int| if i % 2 == 0 { s[i + 1] } else { s[i - 1] });
    let d2 = Seq::new(s.len(), |i: int| if i % 4 < 2 { s[i + 2] } else { s[i - 2] });
    assert(d3 =~= permute_all(s, ByteOrder::Order3210));
    assert forall|i: int| 0 <= i < s.len() implies #[trigger] d1[i] == permute_all(
        s,
        ByteOrder::Order1032,
    )[i] by {
        assert(i == 4 * (i / 4) + i % 4);
        assert((i % 2 == 0) == (i % 4 == 0 || i % 4 == 2));
    }
    assert(d1 =~= permute_all(s, ByteOrder::Order1032));
    assert forall|i: int| 0 <= i < s.len() implies #[trigger] d2[i] == permute_all(
        s,
        ByteOrder::Order2301,
    )[i] by {
        assert(i == 4 * (i / 4) + i % 4);
    }
    assert(d2 =~= permute_all(s, ByteOrder::Order2301));
    lemma_normalize_undoes_reorder(s, ByteOrder::Order3210, key);
    lemma_normalize_undoes_reorder(s, ByteOrder::Order1032, key);
    lemma_normalize_undoes_reorder(s, ByteOrder::Order2301, key);
}

/// Normalization, leg by leg: a Cloanto container needs a key (missing:
/// `KeyRequired`; empty: `InvalidKey`) and decodes to the bytes after the
/// 11-byte magic, each XORed with the key byte at its index modulo the key
/// length; canonical order is copied as is; another order with a length
/// not a multiple of 4 is `UnalignedLength`; unrecognised data is
/// `UnknownFormat`.
pub proof fn lemma_normalize_legs(s: Seq<u8>, k: Seq<u8>, key: Option<Seq<u8>>)
    ensures
        starts_amiromtype1(s) ==> normalize_spec(s, None) == Err::<Seq<u8>, LoaderError>(
            LoaderError::KeyRequired,
        ),
        starts_amiromtype1(s) && k.len() == 0 ==> normalize_spec(s, Some(k)) == Err::<
            Seq<u8>,
            LoaderError,
        >(LoaderError::InvalidKey),
        starts_amiromtype1(s) && k.len() > 0 ==> normalize_spec(s, Some(k)) == Ok::<
            Seq<u8>,
            LoaderError,
        >(Seq::new((s.len() - 11) as nat, |i: int| s[11 + i] ^ k[i % (k.len() as int)])),
        detect_spec(s) == Some(RomEncoding::Raw(ByteOrder::Normal)) ==> normalize_spec(s, key)
            == Ok::<Seq<u8>, LoaderError>(s),
        (detect_spec(s) matches Some(RomEncoding::Raw(o)) && o != ByteOrder::Normal) && s.len() % 4
            != 0 ==> normalize_spec(s, key) == Err::<Seq<u8>, LoaderError>(
            LoaderError::UnalignedLength,
        ),
        detect_spec(s) is None ==> normalize_spec(s, key) == Err::<Seq<u8>, LoaderError>(
            LoaderError::UnknownFormat,
        ),
{
    lemma_detect_bytes(s);
    if starts_amiromtype1(s) && k.len() > 0 {
        assert(xor_cycle(s.skip(11), k) =~= Seq::new(
            (s.len() - 11) as nat,
            |i: int| s[11 + i] ^ k[i % (k.len() as int)],
        ));
    }
}

/// Merging, byte for byte: different lengths are `MismatchedHiLoLength`,
/// an odd common length `OddHiLoLength`; otherwise longword `k` of the
/// result is `hi[2k] hi[2k+1] lo[2k] lo[2k+1]`.
pub proof fn lemma_merge_bytes(hi: Seq<u8>, lo: Seq<u8>)
    ensures
        hi.len() != lo.len() ==> merge_spec(hi, lo) == Err::<Seq<u8>, LoaderError>(
            LoaderError::MismatchedHiLoLength,
        ),
        hi.len() == lo.len() && hi.len() % 2 == 1 ==> merge_spec(hi, lo) == Err::<
            Seq<u8>,
            LoaderError,
        >(LoaderError::OddHiLoLength),
        hi.len() == lo.len() && hi.len() % 2 == 0 ==> merge_spec(hi, lo) is Ok && {
            let m = merge_spec(hi, lo)->Ok_0;
            &&& m.len() == 2 * hi.len()
            &&& forall|k: int|
                0 <= k < hi.len() / 2 ==> {
                    &&& #[trigger] m[4 * k] == hi[2 * k]
                    &&& m[4 * k + 1] == hi[2 * k + 1]
                    &&& m[4 * k + 2] == lo[2 * k]
                    &&& m[4 * k + 3] == lo[2 * k + 1]
                }
        },
{
    if hi.len() == lo.len() && hi.len() % 2 == 0 {
        let m = interleave(hi, lo);
        assert forall|k: int| 0 <= k < hi.len() / 2 implies {
            &&& #[trigger] m[4 * k] == hi[2 * k]
            &&& m[4 * k + 1] == hi[2 * k + 1]
            &&& m[4 * k + 2] == lo[2 * k]
            &&& m[4 * k + 3] == lo[2 * k + 1]
        } by {
            assert((4 * k) / 4 == k && (4 * k) % 4 == 0);
            assert((4 * k + 1) / 4 == k && (4 * k + 1) % 4 == 1);
            assert((4 * k + 2) / 4 == k && (4 * k + 2) % 4 == 2);
            assert((4 * k + 3) / 4 == k && (4 * k + 3) % 4 == 3);
        }
    }
}

/// Splitting, byte for byte: a length not a multiple of 4 is
/// `UnalignedLength`; otherwise, for every longword `k` of the image,
/// `hi[2k] hi[2k+1]` are its bytes 0 and 1 and `lo[2k] lo[2k+1]` its bytes
/// 2 and 3, each half being half as long as the image.
pub proof fn lemma_split_bytes(r: Seq<u8>)
    ensures
        r.len() % 4 != 0 ==> split_spec(r) == Err::<(Seq<u8>, Seq<u8>), LoaderError>(
            LoaderError::UnalignedLength,
        ),
        r.len() % 4 == 0 ==> split_spec(r) is Ok && {
            let (h, l) = split_spec(r)->Ok_0;
            &&& h.len() == r.len() / 2
            &&& l.len() == r.len() / 2
            &&& forall|k: int|
                0 <= k < r.len() / 4 ==> {
                    &&& #[trigger] h[2 * k] == r[4 * k]
                    &&& h[2 * k + 1] == r[4 * k + 1]
                    &&& l[2 * k] == r[4 * k + 2]
                    &&& l[2 * k + 1] == r[4 * k + 3]
                }
        },
{
    if r.len() % 4 == 0 {
        let h = hi_half(r);
        let l = lo_half(r);
        assert forall|k: int| 0 <= k < r.len() / 4 implies {
            &&& #[trigger] h[2 * k] == r[4 * k]
            &&& h[2 * k + 1] == r[4 * k + 1]
            &&& l[2 * k] == r[4 * k + 2]
            &&& l[2 * k + 1] == r[4 * k + 3]
        } by {
            assert((2 * k) / 2 == k && (2 * k) % 2 == 0);
            assert((2 * k + 1) / 2 == k && (2 * k + 1) % 2 == 1);
        }
    }
}

} // verus!
