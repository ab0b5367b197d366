//! Amiga Kickstart ROM images: normalize raw dumps into a canonical image,
//! then inspect and validate that image.
//!
//! Everything operates on borrowed byte slices; the library does no I/O.

use vstd::prelude::*;

pub mod bytes;
pub mod checksum;
pub mod kickrom;
pub mod loader;
pub mod scan;
pub mod split;

verus! {

/// A canonical Kickstart ROM image is either 256 KiB or 512 KiB.
pub const ROM_SIZE_256K: usize = 262144;

/// A canonical Kickstart ROM image is either 256 KiB or 512 KiB.
pub const ROM_SIZE_512K: usize = 524288;

} // verus!

pub use checksum::checksum_ones_complement;
pub use kickrom::{seal_checksum, KickRom, RomInfo, SealError};
pub use loader::{merge_hi_lo, permute_word, split_hi_lo, ByteOrder, Loader, LoaderError, RomEncoding};
pub use scan::{Resident, ResidentScan, RTC_MATCHWORD};
pub use split::{split, Module, ModuleSpec, SplitError};
