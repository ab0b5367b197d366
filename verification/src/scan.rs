//! Scanning a ROM image for `Resident` (RomTag) structures.

use vstd::prelude::*;
use vstd::slice::slice_subrange;
use crate::bytes::{be16, be32, read_be16, read_be32};
use crate::kickrom::base_addr_of;

verus! {

/// The 68000 `ILLEGAL` instruction word every `Resident` begins with.
pub const RTC_MATCHWORD: u16 = 0x4AFC;

/// Byte length of a `struct Resident` on m68k.
pub const RESIDENT_STRUCT_LEN: usize = 26;

/// Longest run searched for the NUL that ends a resident's name or id
/// string.
pub const RESIDENT_STRING_SEARCH_CAP: usize = 256;

/// A borrowed view over one `Resident` (RomTag) structure found in an
/// image. `name` and `id_string` are the NUL-terminated strings the
/// structure points at (NUL excluded), or empty when a pointer does not
/// resolve to an in-bounds, NUL-terminated run within the search cap.
/// `offset` is where the structure's match word sits in the image;
/// `end_skip` is the raw `rt_EndSkip`, reported but never followed.
#[derive(Debug, Clone, Copy, PartialEq, Eq)]
pub struct Resident<'a> {
    pub match_word: u16,
    pub flags: u8,
    pub version: u8,
    pub node_type: u8,
    pub priority: i8,
    pub name: &'a [u8],
    pub id_string: &'a [u8],
    pub init_addr: u32,
    pub offset: usize,
    pub end_skip: u32,
}

/// The image offset an absolute ROM-space pointer refers to, given the
/// image's base address (32-bit wrapping subtraction).
pub open spec fn string_offset(base: u32, ptr: u32) -> int {
    if ptr >= base {
        ptr - base
    } else {
        ptr - base + 0x1_0000_0000
    }
}

/// `p` is the position of the first NUL byte in `w`.
pub open spec fn first_nul_at(w: Seq<u8>, p: int) -> bool {
    &&& 0 <= p < w.len()
    &&& w[p] == 0
    &&& forall|q: int| 0 <= q < p ==> w[q] != 0
}

/// Up to 256 bytes of `s` from `start` on.
pub open spec fn search_window(s: Seq<u8>, start: int) -> Seq<u8> {
    if s.len() - start < 256 {
        s.subrange(start, s.len() as int)
    } else {
        s.subrange(start, start + 256)
    }
}

/// The bytes of `w` before its first NUL, or nothing if it holds no NUL.
pub open spec fn before_nul(w: Seq<u8>) -> Seq<u8> {
    if exists|p: int| first_nul_at(w, p) {
        w.take(choose|p: int| first_nul_at(w, p))
    } else {
        seq![]
    }
}

/// The string a resident's pointer names: the bytes from the pointed-to
/// offset up to (not including) the first NUL within the next 256 bytes;
/// empty if the offset is out of the image or no NUL is found.
pub open spec fn c_string_at(s: Seq<u8>, base: u32, ptr: u32) -> Seq<u8> {
    if string_offset(base, ptr) >= s.len() {
        seq![]
    } else {
        before_nul(search_window(s, string_offset(base, ptr)))
    }
}

/// What a resident's string pointer resolves to, byte for byte. Let
/// `start` be `ptr - base` wrapped to 32 bits. If `start` is past the
/// image, the string is empty. Otherwise, within the at most 256 bytes
/// from `start`, the string is the bytes before the first zero byte, or
/// empty when there is no zero byte there.
pub proof fn lemma_c_string_at(s: Seq<u8>, base: u32, ptr: u32)
    ensures
        string_offset(base, ptr) == (ptr - base) % 0x1_0000_0000,
        ({
            let start = string_offset(base, ptr);
            let cap = vstd::math::min(s.len() - start, 256);
            let w = s.subrange(start, start + cap);
            &&& start >= s.len() ==> c_string_at(s, base, ptr) == Seq::<u8>::empty()
            &&& start < s.len() ==> forall|p: int|
                0 <= p < cap && #[trigger] w[p] == 0 && (forall|q: int| 0 <= q < p ==> w[q] != 0)
                    ==> c_string_at(s, base, ptr) == s.subrange(start, start + p)
            &&& start < s.len() ==> (forall|p: int| 0 <= p < cap ==> w[p] != 0)
                ==> c_string_at(s, base, ptr) == Seq::<u8>::empty()
        }),
{
    let start = string_offset(base, ptr);
    if start < s.len() {
        let sw = search_window(s, start);
        let cap = vstd::math::min(s.len() - start, 256);
        let w = s.subrange(start, start + cap);
        assert(sw =~= w);
        assert forall|p: int|
            0 <= p < cap && #[trigger] w[p] == 0 && (forall|q: int| 0 <= q < p ==> w[q] != 0)
                implies c_string_at(s, base, ptr) == s.subrange(start, start + p) by {
            assert(first_nul_at(sw, p));
            let q = choose|q: int| first_nul_at(sw, q);
            assert(q == p) by {
                if q < p {
                    assert(w[q] != 0);
                } else if q > p {
                    assert(w[p] != 0);
                }
            }
            assert(sw.take(p) =~= s.subrange(start, start + p));
        }
        if forall|p: int| 0 <= p < cap ==> w[p] != 0 {
            if exists|p: int| first_nul_at(sw, p) {
                let p = choose|p: int| first_nul_at(sw, p);
                assert(w[p] != 0);
            }
        }
    }
}

/// A genuine resident starts at `off`: the match word is there, the whole
/// 26-byte structure fits, and `rt_MatchTag` points at itself
/// (`base + off`, wrapping at 32 bits).
pub open spec fn is_resident_at(s: Seq<u8>, base: u32, off: int) -> bool {
    &&& 0 <= off
    &&& off + 26 <= s.len()
    &&& be16(s, off) == 0x4AFC
    &&& be32(s, off + 2) == (base + off) % 0x1_0000_0000
}

/// The offsets of the residents found scanning from `pos` onwards, one
/// 16-bit word at a time, in order.
pub open spec fn hits_from(s: Seq<u8>, base: u32, pos: int) -> Seq<int>
    decreases s.len() - pos,
{
    if pos < 0 || pos + 2 > s.len() {
        seq![]
    } else if is_resident_at(s, base, pos) {
        seq![pos] + hits_from(s, base, pos + 2)
    } else {
        hits_from(s, base, pos + 2)
    }
}

/// `r` reports the resident whose structure starts at `off`.
pub open spec fn resident_describes(r: Resident, s: Seq<u8>, base: u32, off: int) -> bool {
    &&& r.offset == off
    &&& r.match_word == 0x4AFC
    &&& r.end_skip == be32(s, off + 6)
    &&& r.flags == s[off + 10]
    &&& r.version == s[off + 11]
    &&& r.node_type == s[off + 12]
    &&& r.priority == s[off + 13] as i8
    &&& r.name@ == c_string_at(s, base, be32(s, off + 14) as u32)
    &&& r.id_string@ == c_string_at(s, base, be32(s, off + 18) as u32)
    &&& r.init_addr == be32(s, off + 22)
}

/// Resolves a `rt_Name`/`rt_IdString`-style pointer to the NUL-terminated
/// (NUL excluded) bytes it names.
fn resolve_resident_str<'a>(data: &'a [u8], base_addr: u32, ptr: u32) -> (r: &'a [u8])
    ensures
        r@ == c_string_at(data@, base_addr, ptr),
{
    let start = ptr.wrapping_sub(base_addr) as usize;
    let len = data.len();
    if start >= len {
        return slice_subrange(data, 0, 0);
    }
    let rest = len - start;
    let cap = if rest < RESIDENT_STRING_SEARCH_CAP {
        rest
    } else {
        RESIDENT_STRING_SEARCH_CAP
    };
    let ghost w = data@.subrange(start as int, start + cap);
    assert(string_offset(base_addr, ptr) == start as int);
    assert(w == search_window(data@, start as int));
    let mut i: usize = 0;
    while i < cap
        invariant
            len == data@.len(),
            start < len,
            cap <= len - start,
            w == data@.subrange(start as int, start + cap),
            w == search_window(data@, start as int),
            string_offset(base_addr, ptr) == start as int,
            i <= cap,
            forall|q: int| 0 <= q < i ==> w[q] != 0,
        decreases cap - i,
    {
        if data[start + i] == 0 {
            assert(first_nul_at(w, i as int));
            let r = slice_subrange(data, start, start + i);
            proof {
                let p = choose|p: int| first_nul_at(w, p);
                assert(p == i as int) by {
                    if p < i {
                        assert(w[p] != 0);
                    } else if p > i {
                        assert(w[i as int] != 0);
                    }
                }
                assert(r@ =~= w.take(i as int));
                assert(exists|p: int| first_nul_at(w, p));
            }
            return r;
        }
        i = i + 1;
    }
    assert(!exists|p: int| first_nul_at(w, p));
    slice_subrange(data, 0, 0)
}


/// A scan from `pos` reports exactly the genuine residents at offsets
/// `pos, pos + 2, pos + 4, ...`, in strictly increasing order: nothing
/// in a structure (its `rt_EndSkip` included) can make it skip one.
pub proof fn lemma_hits_are_exactly_the_residents(s: Seq<u8>, base: u32, pos: int)
    requires
        0 <= pos,
    ensures
        forall|off: int|
            #[trigger] hits_from(s, base, pos).contains(off) <==> (pos <= off && (off - pos) % 2 == 0
                && is_resident_at(s, base, off)),
        forall|i: int, j: int|
            0 <= i < j < hits_from(s, base, pos).len() ==> hits_from(s, base, pos)[i] < hits_from(
                s,
                base,
                pos,
            )[j],
    decreases s.len() - pos,
{
    let h = hits_from(s, base, pos);
    if pos + 2 > s.len() {
        assert forall|off: int| pos <= off && (off - pos) % 2 == 0 implies !is_resident_at(
            s,
            base,
            off,
        ) by {}
    } else {
        lemma_hits_are_exactly_the_residents(s, base, pos + 2);
        let rest = hits_from(s, base, pos + 2);
        assert forall|off: int| #[trigger] h.contains(off) <==> (pos <= off && (off - pos) % 2 == 0
            && is_resident_at(s, base, off)) by {
            if is_resident_at(s, base, pos) {
                assert(h == seq![pos] + rest);
                if h.contains(off) && off != pos {
                    let k = choose|k: int| 0 <= k < h.len() && h[k] == off;
                    assert(rest[k - 1] == off);
                    assert(rest.contains(off));
                }
                if off != pos && pos <= off && (off - pos) % 2 == 0 && is_resident_at(s, base, off) {
                    assert(rest.contains(off));
                    let k = choose|k: int| 0 <= k < rest.len() && rest[k] == off;
                    assert(h[k + 1] == off);
                }
                assert(h[0] == pos);
            } else {
                assert(h == rest);
            }
        }
        if is_resident_at(s, base, pos) {
            assert forall|i: int, j: int| 0 <= i < j < h.len() implies h[i] < h[j] by {
                if i == 0 {
                    assert(rest.contains(h[j]));
                } else {
                    assert(h[i] == rest[i - 1] && h[j] == rest[j - 1]);
                }
            }
        }
    }
}

/// The residents a fresh scan of image `s` with base address `base`
/// reports: none when the base address is unknown.
pub open spec fn scan_hits(s: Seq<u8>, base: Option<u32>) -> Seq<int> {
    match base {
        Some(b) => hits_from(s, b, 0),
        None => seq![],
    }
}

/// `r` reports the resident at `off` of image `s` scanned with base
/// address `base`.
pub open spec fn reports_hit(r: Resident, s: Seq<u8>, base: Option<u32>, off: int) -> bool {
    match base {
        Some(b) => resident_describes(r, s, b, off),
        None => false,
    }
}

/// Scans from `pos` agree on two images of equal length whose resident
/// tests agree at every word-aligned offset from `pos` on.
proof fn lemma_hits_from_agree(s: Seq<u8>, t: Seq<u8>, base: u32, pos: int)
    requires
        s.len() == t.len(),
        0 <= pos,
        forall|off: int|
            pos <= off && (off - pos) % 2 == 0 ==> #[trigger] is_resident_at(s, base, off)
                == is_resident_at(t, base, off),
    ensures
        hits_from(s, base, pos) == hits_from(t, base, pos),
    decreases s.len() - pos,
{
    if pos + 2 <= s.len() {
        assert(is_resident_at(s, base, pos) == is_resident_at(t, base, pos));
        assert forall|off: int| pos + 2 <= off && (off - (pos + 2)) % 2 == 0 implies #[trigger] is_resident_at(
            s,
            base,
            off,
        ) == is_resident_at(t, base, off) by {
            assert((off - pos) % 2 == 0);
        }
        lemma_hits_from_agree(s, t, base, pos + 2);
    }
}

/// The base address reads only the top 16 bits of the boot PC, so it is
/// fixed by bytes 4 and 5 of the image.
proof fn lemma_base_addr_from_top_bytes(s: Seq<u8>, t: Seq<u8>)
    requires
        s.len() == t.len(),
        s.len() >= 0x18,
        s[4] == t[4],
        s[5] == t[5],
    ensures
        base_addr_of(s) == base_addr_of(t),
{
    let x = be32(s, 4) as u32;
    let y = be32(t, 4) as u32;
    let hi = s[4] * 256 + s[5];
    vstd::arithmetic::div_mod::lemma_fundamental_div_mod_converse(
        x as int,
        65536,
        hi,
        s[6] * 256 + s[7],
    );
    vstd::arithmetic::div_mod::lemma_fundamental_div_mod_converse(
        y as int,
        65536,
        hi,
        t[6] * 256 + t[7],
    );
    assert(x / 65536 == y / 65536);
    assert(x & 0xFFFF_0000u32 == y & 0xFFFF_0000u32) by (bit_vector)
        requires
            x / 65536 == y / 65536,
    ;
}

/// A resident's `rt_EndSkip` never steers the scan: changing only the four
/// `rt_EndSkip` bytes of a reported resident (without creating or
/// destroying a match word in the words that overlap them) leaves the
/// base address and every reported offset unchanged.
pub proof fn lemma_end_skip_does_not_steer_scan(s: Seq<u8>, t: Seq<u8>, o: int)
    requires
        s.len() == t.len(),
        scan_hits(s, base_addr_of(s)).contains(o),
        forall|i: int| 0 <= i < s.len() && !(o + 6 <= i < o + 10) ==> s[i] == t[i],
        be16(s, o + 2) != 0x4AFC && be16(t, o + 2) != 0x4AFC,
        be16(s, o + 4) != 0x4AFC && be16(t, o + 4) != 0x4AFC,
        be16(s, o + 6) != 0x4AFC && be16(t, o + 6) != 0x4AFC,
        be16(s, o + 8) != 0x4AFC && be16(t, o + 8) != 0x4AFC,
    ensures
        base_addr_of(t) == base_addr_of(s),
        scan_hits(t, base_addr_of(t)) == scan_hits(s, base_addr_of(s)),
{
    let b = base_addr_of(s)->0;
    assert(base_addr_of(s) is Some);
    lemma_hits_are_exactly_the_residents(s, b, 0);
    assert(o % 2 == 0 && is_resident_at(s, b, o));
    assert(s[4] == t[4] && s[5] == t[5]);
    lemma_base_addr_from_top_bytes(s, t);
    assert forall|off: int| 0 <= off && (off - 0) % 2 == 0 implies #[trigger] is_resident_at(
        s,
        b,
        off,
    ) == is_resident_at(t, b, off) by {
        if off + 6 <= o + 6 || off >= o + 10 {
            if off + 26 <= s.len() {
                assert(s[off] == t[off] && s[off + 1] == t[off + 1]);
                assert(s[off + 2] == t[off + 2] && s[off + 3] == t[off + 3]);
                assert(s[off + 4] == t[off + 4] && s[off + 5] == t[off + 5]);
            }
        } else {
            assert(off == o + 2 || off == o + 4 || off == o + 6 || off == o + 8);
        }
    }
    lemma_hits_from_agree(s, t, b, 0);
}

/// Allocation-free scanner over the [`Resident`] structures of an image,
/// returned by `KickRom::scan`. Every 2-byte-aligned offset is inspected
/// for the match word; a candidate counts only if the whole structure
/// fits and its `rt_MatchTag` points at itself. Scanning always resumes
/// at the next word, never by following `rt_EndSkip`. With an unknown
/// base address nothing is reported.
pub struct ResidentScan<'a> {
    data: &'a [u8],
    base_addr: Option<u32>,
    pos: usize,
}

impl<'a> ResidentScan<'a> {
    /// The image being scanned.
    pub closed spec fn image(&self) -> Seq<u8> {
        self.data@
    }

    /// The base address the self-pointer check uses.
    pub closed spec fn base(&self) -> Option<u32> {
        self.base_addr
    }

    /// The offsets of the residents not yet reported, in order.
    pub closed spec fn remaining(&self) -> Seq<int> {
        match self.base_addr {
            Some(b) => hits_from(self.data@, b, self.pos as int),
            None => seq![],
        }
    }

    /// A scan of `data` from its first byte.
    pub(crate) fn new(data: &'a [u8], base_addr: Option<u32>) -> (r: Self)
        ensures
            r.image() == data@,
            r.base() == base_addr,
            r.remaining() == scan_hits(data@, base_addr),
    {
        ResidentScan { data, base_addr, pos: 0 }
    }

    /// Reports the next resident, or `None` once every resident has been
    /// reported.
    pub fn next(&mut self) -> (r: Option<Resident<'a>>)
        ensures
            final(self).image() == old(self).image(),
            final(self).base() == old(self).base(),
            old(self).remaining().len() == 0 ==> r is None && final(self).remaining().len() == 0,
            old(self).remaining().len() > 0 ==> {
                &&& r is Some
                &&& reports_hit(r->0, old(self).image(), old(self).base(), old(self).remaining()[0])
                &&& final(self).remaining() == old(self).remaining().drop_first()
            },
    {
        let base_addr = match self.base_addr {
            Some(b) => b,
            None => return None,
        };
        let len = self.data.len();
        while len >= 2 && self.pos <= len - 2
            invariant
                len == self.data@.len(),
                self.data == old(self).data,
                self.base_addr == old(self).base_addr,
                self.base_addr == Some(base_addr),
                hits_from(self.data@, base_addr, self.pos as int) == hits_from(
                    old(self).data@,
                    base_addr,
                    old(self).pos as int,
                ),
            decreases len - self.pos,
        {
            let offset = self.pos;
            self.pos = self.pos + 2;
            let ghost s = self.data@;
            let word = read_be16(self.data, offset);
            if word != RTC_MATCHWORD {
                continue;
            }
            let struct_end = match offset.checked_add(RESIDENT_STRUCT_LEN) {
                Some(end) if end <= len => end,
                _ => continue,
            };
            let match_tag = read_be32(self.data, offset + 2);
            let low = ((offset as u64) % 0x1_0000_0000) as u32;
            let expected = base_addr.wrapping_add(low);
            assert(expected == (base_addr + offset) % 0x1_0000_0000);
            if match_tag != expected {
                continue;
            }
            let end_skip = read_be32(self.data, offset + 6);
            let flags = self.data[offset + 10];
            let version = self.data[offset + 11];
            let node_type = self.data[offset + 12];
            let priority = self.data[offset + 13] as i8;
            let name_ptr = read_be32(self.data, offset + 14);
            let id_ptr = read_be32(self.data, offset + 18);
            let init_addr = read_be32(self.data, offset + 22);
            let name = resolve_resident_str(self.data, base_addr, name_ptr);
            let id_string = resolve_resident_str(self.data, base_addr, id_ptr);
            assert(is_resident_at(s, base_addr, offset as int));
            assert(struct_end == offset + RESIDENT_STRUCT_LEN);
            return Some(
                Resident {
                    match_word: word,
                    flags,
                    version,
                    node_type,
                    priority,
                    name,
                    id_string,
                    init_addr,
                    offset,
                    end_skip,
                },
            );
        }
        None
    }

    /// Reports every remaining resident, in order.
    pub fn collect(self) -> (v: Vec<Resident<'a>>)
        ensures
            v.len() == self.remaining().len(),
            forall|i: int|
                0 <= i < v.len() ==> reports_hit(
                    #[trigger] v[i],
                    self.image(),
                    self.base(),
                    self.remaining()[i],
                ),
    {
        let ghost all = self.remaining();
        let ghost s = self.image();
        let ghost b = self.base();
        let mut scan = self;
        let mut out: Vec<Resident<'a>> = Vec::new();
        #[verifier::loop_isolation(false)]
        loop
            invariant
                scan.image() == s,
                scan.base() == b,
                out.len() + scan.remaining().len() == all.len(),
                scan.remaining() == all.skip(out.len() as int),
                forall|i: int| 0 <= i < out.len() ==> reports_hit(#[trigger] out[i], s, b, all[i]),
            decreases scan.remaining().len(),
        {
            let ghost before = scan.remaining();
            match scan.next() {
                Some(r) => {
                    assert(before[0] == all[out.len() as int]);
                    out.push(r);
                    assert(scan.remaining() =~= all.skip(out.len() as int));
                },
                None => {
                    return out;
                },
            }
        }
    }
}

/// The scan's hits, byte for byte: scanning image `s` with base address
/// `b`, offset `o` is reported exactly when it is even, the 26-byte
/// structure at `o` lies inside the image (anywhere in it), bytes `o` and
/// `o + 1` are `4A FC`, and the big-endian longword at `o + 2` equals
/// `b + o` wrapped to 32 bits.
pub proof fn lemma_hits_bytes(s: Seq<u8>, b: u32, o: int)
    ensures
        hits_from(s, b, 0).contains(o) <==> {
            &&& 0 <= o
            &&& o % 2 == 0
            &&& o + 26 <= s.len()
            &&& s[o] == 0x4A
            &&& s[o + 1] == 0xFC
            &&& s[o + 2] * 16777216 + s[o + 3] * 65536 + s[o + 4] * 256 + s[o + 5] == (b + o)
                % 0x1_0000_0000
        },
{
    lemma_hits_are_exactly_the_residents(s, b, 0);
    assert(hits_from(s, b, 0).contains(o) <==> (0 <= o && (o - 0) % 2 == 0 && is_resident_at(
        s,
        b,
        o,
    )));
}

/// What a scan of an image reports, byte for byte: nothing when the image
/// is shorter than 0x18 bytes; otherwise the base address is bytes 4 and 5
/// followed by two zero bytes, and the hits are as in
/// [`lemma_hits_bytes`] with that base.
pub proof fn lemma_scan_hits_bytes(s: Seq<u8>, o: int)
    ensures
        s.len() < 0x18 ==> scan_hits(s, base_addr_of(s)) == Seq::<int>::empty(),
        s.len() >= 0x18 ==> (scan_hits(s, base_addr_of(s)).contains(o) <==> {
            &&& 0 <= o
            &&& o % 2 == 0
            &&& o + 26 <= s.len()
            &&& s[o] == 0x4A
            &&& s[o + 1] == 0xFC
            &&& s[o + 2] * 16777216 + s[o + 3] * 65536 + s[o + 4] * 256 + s[o + 5] == (s[4]
                * 16777216 + s[5] * 65536 + o) % 0x1_0000_0000
        }),
{
    crate::kickrom::lemma_value_bytes(s);
    if s.len() >= 0x18 {
        let b = base_addr_of(s)->0;
        assert(b as int == s[4] * 16777216 + s[5] * 65536);
        lemma_hits_bytes(s, b, o);
    }
}

/// A reported resident's fields, byte for byte from its offset `o`:
/// `rt_EndSkip` is the big-endian longword at `o + 6`; flags, version,
/// node type and priority the bytes at `o + 10 .. o + 14` (priority read
/// as signed); the name and id string are what the pointers at `o + 14`
/// and `o + 18` resolve to; the init address the longword at `o + 22`.
pub proof fn lemma_resident_fields(r: Resident, s: Seq<u8>, b: u32, o: int)
    requires
        resident_describes(r, s, b, o),
    ensures
        r.offset == o,
        r.match_word == 0x4AFC,
        r.end_skip == s[o + 6] * 16777216 + s[o + 7] * 65536 + s[o + 8] * 256 + s[o + 9],
        r.flags == s[o + 10],
        r.version == s[o + 11],
        r.node_type == s[o + 12],
        r.priority == s[o + 13] as i8,
        r.name@ == c_string_at(
            s,
            b,
            (s[o + 14] * 16777216 + s[o + 15] * 65536 + s[o + 16] * 256 + s[o + 17]) as u32,
        ),
        r.id_string@ == c_string_at(
            s,
            b,
            (s[o + 18] * 16777216 + s[o + 19] * 65536 + s[o + 20] * 256 + s[o + 21]) as u32,
        ),
        r.init_addr == s[o + 22] * 16777216 + s[o + 23] * 65536 + s[o + 24] * 256 + s[o + 25],
{
}

} // verus!
