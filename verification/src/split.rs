//! Extracting caller-supplied module byte ranges from a ROM image.

use vstd::prelude::*;
use vstd::slice::slice_subrange;

verus! {

/// One caller-supplied module range: a name and the byte range
/// `offset..offset + length` of a ROM image.
#[derive(Debug, Clone, Copy, PartialEq, Eq)]
pub struct ModuleSpec<'a> {
    /// The module's name, as given by the catalog this came from.
    pub name: &'a str,
    /// Byte offset of the module's start within the ROM image.
    pub offset: usize,
    /// Length of the module in bytes.
    pub length: usize,
}

/// One module extracted by [`split`]: a name and a borrowed slice of the
/// source ROM.
#[derive(Debug, Clone, Copy, PartialEq, Eq)]
pub struct Module<'a> {
    /// The module's name, borrowed from the [`ModuleSpec`] it came from.
    pub name: &'a str,
    /// The module's bytes: `rom[offset..offset + length]`.
    pub data: &'a [u8],
}

/// Errors from [`split`].
#[derive(Debug, Clone, Copy, PartialEq, Eq, Structural)]
pub enum SplitError {
    /// A [`ModuleSpec`]'s range does not fit within the ROM (its end
    /// overflows `usize` or exceeds the ROM's length); `index` is its
    /// position in the list given to [`split`].
    ModuleOutOfBounds { index: usize, offset: usize, length: usize, rom_len: usize },
}

/// The module's range lies within an image of `rom_len` bytes.
pub open spec fn fits(m: ModuleSpec, rom_len: int) -> bool {
    m.offset + m.length <= rom_len
}

/// `m` is exactly the module `spec` cut out of `rom`.
pub open spec fn cut_from(m: Module, spec: ModuleSpec, rom: Seq<u8>) -> bool {
    &&& m.name == spec.name
    &&& m.data@ == rom.subrange(spec.offset as int, spec.offset + spec.length)
}

/// `index` is the first module of `mods` that does not fit in `rom_len`
/// bytes.
pub open spec fn first_misfit(mods: Seq<ModuleSpec>, rom_len: int, index: int) -> bool {
    &&& 0 <= index < mods.len()
    &&& !fits(mods[index], rom_len)
    &&& forall|j: int| 0 <= j < index ==> fits(#[trigger] mods[j], rom_len)
}

/// Cuts each module of `modules` out of `rom`, in order, as borrowed
/// slices. Fails fast: the first module (by index) whose range does not
/// fit fails the whole call, and nothing else is returned. Overlapping
/// ranges and zero lengths are fine.
pub fn split<'a>(rom: &'a [u8], modules: &[ModuleSpec<'a>]) -> (r: Result<
    Vec<Module<'a>>,
    SplitError,
>)
    ensures
        match r {
            Ok(v) => {
                &&& forall|i: int| 0 <= i < modules@.len() ==> fits(#[trigger] modules@[i], rom@.len() as int)
                &&& v@.len() == modules@.len()
                &&& forall|i: int|
                    0 <= i < v@.len() ==> cut_from(#[trigger] v@[i], modules@[i], rom@)
            },
            Err(SplitError::ModuleOutOfBounds { index, offset, length, rom_len }) => {
                &&& first_misfit(modules@, rom@.len() as int, index as int)
                &&& offset == modules@[index as int].offset
                &&& length == modules@[index as int].length
                &&& rom_len == rom@.len()
            },
        },
{
    let n = modules.len();
    let mut out: Vec<Module<'a>> = Vec::with_capacity(n);
    let mut index: usize = 0;
    while index < n
        invariant
            n == modules@.len(),
            index <= n,
            out@.len() == index,
            forall|i: int| 0 <= i < index ==> fits(#[trigger] modules@[i], rom@.len() as int),
            forall|i: int| 0 <= i < index ==> cut_from(#[trigger] out@[i], modules@[i], rom@),
        decreases n - index,
    {
        let spec = modules[index];
        let end = match spec.offset.checked_add(spec.length) {
            Some(end) if end <= rom.len() => end,
            _ => {
                return Err(
                    SplitError::ModuleOutOfBounds {
                        index,
                        offset: spec.offset,
                        length: spec.length,
                        rom_len: rom.len(),
                    },
                );
            },
        };
        out.push(Module { name: spec.name, data: slice_subrange(rom, spec.offset, end) });
        index = index + 1;
    }
    Ok(out)
}

/// What [`split`]'s contract means, over the numbers and bytes: a module
/// fits when its offset plus its length (as integers, so no overflow) is at
/// most the ROM's length; a cut module carries the spec's name and exactly
/// the ROM bytes `offset .. offset + length`; and the reported misfit is
/// the lowest index that does not fit.
pub proof fn lemma_split_terms(m: Module, spec: ModuleSpec, mods: Seq<ModuleSpec>, rom: Seq<u8>, index: int)
    ensures
        fits(spec, rom.len() as int) <==> spec.offset + spec.length <= rom.len(),
        spec.offset + spec.length <= rom.len() ==> (cut_from(m, spec, rom) <==> {
            &&& m.name == spec.name
            &&& m.data@.len() == spec.length
            &&& forall|i: int| 0 <= i < spec.length ==> #[trigger] m.data@[i] == rom[spec.offset + i]
        }),
        first_misfit(mods, rom.len() as int, index) <==> {
            &&& 0 <= index < mods.len()
            &&& mods[index].offset + mods[index].length > rom.len()
            &&& forall|j: int|
                0 <= j < index ==> #[trigger] mods[j].offset + mods[j].length <= rom.len()
        },
{
    if spec.offset + spec.length <= rom.len() {
        if m.name == spec.name && m.data@.len() == spec.length && forall|i: int|
            0 <= i < spec.length ==> #[trigger] m.data@[i] == rom[spec.offset + i] {
            assert(m.data@ =~= rom.subrange(spec.offset as int, spec.offset + spec.length));
        }
    }
}

} // verus!
