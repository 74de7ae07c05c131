//! The pixels of a cached image.
use crate::persistence::grid::{
    grid_i32, grid_u16, samples_i32, samples_u16, shape_fits, shape_i32, shape_u16, GridI32,
    GridU16,
};
use vstd::prelude::*;

verus! {

/// Pixel storage: 16 bits for every camera whose greatest sample fits them,
/// 32 bits for the others.
pub enum CachedPixels {
    U16(GridU16),
    I32(GridI32),
}

/// A sample brought into [0, `max_adu`].
pub open spec fn clamped(sample: i32, max_adu: u32) -> int {
    if sample < 0 {
        0
    } else if sample > max_adu {
        max_adu as int
    } else {
        sample as int
    }
}

/// A product of a count and a size, held to the range of a machine word.
pub open spec fn capped_bytes(n: int) -> int {
    if n > usize::MAX {
        usize::MAX as int
    } else {
        n
    }
}

impl CachedPixels {
    /// The samples in row-major order, as numbers.
    pub open spec fn values(self) -> Seq<int> {
        match self {
            CachedPixels::U16(grid) => samples_u16(grid).map_values(|v: u16| v as int),
            CachedPixels::I32(grid) => samples_i32(grid).map_values(|v: i32| v as int),
        }
    }

    /// The numbers of rows and columns.
    pub open spec fn extents(self) -> (usize, usize) {
        match self {
            CachedPixels::U16(grid) => shape_u16(grid),
            CachedPixels::I32(grid) => shape_i32(grid),
        }
    }

    /// The bytes that one sample takes.
    pub open spec fn sample_bytes(self) -> int {
        match self {
            CachedPixels::U16(_) => 2,
            CachedPixels::I32(_) => 4,
        }
    }

    /// The bytes that all samples take.
    pub open spec fn byte_size(self) -> int {
        capped_bytes(self.values().len() * self.sample_bytes())
    }

    /// The memory that the samples take, in bytes.
    pub fn nbytes(&self) -> (r: usize)
        ensures
            r == self.byte_size(),
    {
        match self {
            CachedPixels::U16(grid) => times(grid.len(), 2),
            CachedPixels::I32(grid) => times(grid.len(), 4),
        }
    }

    /// Pixels from a flat row-major buffer, in the storage that the camera's
    /// greatest sample calls for. Where 16 bits will do, every sample is
    /// clamped into [0, `max_adu`]. `None` where the shape does not fit the
    /// number of samples.
    pub fn from_i32_pixels(pixels: Vec<i32>, shape: (usize, usize), max_adu: u32) -> (r: Option<
        Self,
    >)
        ensures
            r is Some <==> shape_fits(shape, pixels@.len()),
            r matches Some(cached) ==> {
                &&& cached is U16 <==> max_adu <= u16::MAX
                &&& cached.extents() == shape
                &&& cached.values() == if max_adu <= u16::MAX {
                    pixels@.map_values(|p: i32| clamped(p, max_adu))
                } else {
                    pixels@.map_values(|p: i32| p as int)
                }
            },
    {
        if max_adu <= u16::MAX as u32 {
            let mut narrowed: Vec<u16> = Vec::new();
            let mut i: usize = 0;
            while i < pixels.len()
                invariant
                    i <= pixels.len(),
                    max_adu <= u16::MAX,
                    narrowed.len() == i,
                    forall|k: int|
                        0 <= k < i ==> #[trigger] narrowed@[k] == clamped(pixels@[k], max_adu),
                decreases pixels.len() - i,
            {
                let p: i32 = pixels[i];
                let sample: u16 = if p < 0 {
                    0
                } else if p as u32 > max_adu {
                    max_adu as u16
                } else {
                    p as u16
                };
                narrowed.push(sample);
                i = i + 1;
            }
            match grid_u16(shape, narrowed) {
                Some(grid) => {
                    let r = CachedPixels::U16(grid);
                    assert(r.values() =~= pixels@.map_values(|p: i32| clamped(p, max_adu)));
                    Some(r)
                },
                None => None,
            }
        } else {
            match grid_i32(shape, pixels) {
                Some(grid) => Some(CachedPixels::I32(grid)),
                None => None,
            }
        }
    }

    /// 16-bit pixels from a flat row-major buffer. `None` where the shape
    /// does not fit the number of samples.
    pub fn from_u16_pixels(pixels: Vec<u16>, shape: (usize, usize)) -> (r: Option<Self>)
        ensures
            r is Some <==> shape_fits(shape, pixels@.len()),
            r matches Some(cached) ==> cached is U16 && cached.extents() == shape
                && cached.values() == pixels@.map_values(|p: u16| p as int),
    {
        match grid_u16(shape, pixels) {
            Some(grid) => Some(CachedPixels::U16(grid)),
            None => None,
        }
    }

    /// The samples in row-major order, in 32 bits each.
    pub fn samples(&self) -> (r: Vec<i32>)
        ensures
            r@.map_values(|v: i32| v as int) == self.values(),
    {
        match self {
            CachedPixels::U16(grid) => {
                let narrow = grid.samples();
                let mut wide: Vec<i32> = Vec::new();
                let mut i: usize = 0;
                while i < narrow.len()
                    invariant
                        i <= narrow.len(),
                        wide.len() == i,
                        forall|k: int| 0 <= k < i ==> #[trigger] wide@[k] == narrow@[k] as int,
                    decreases narrow.len() - i,
                {
                    wide.push(narrow[i] as i32);
                    i = i + 1;
                }
                assert(wide@.map_values(|v: i32| v as int) =~= self.values());
                wide
            },
            CachedPixels::I32(grid) => grid.samples(),
        }
    }
}

/// A count times a small size, saturating.
fn times(count: usize, size: usize) -> (r: usize)
    requires
        0 < size <= 4,
    ensures
        r == capped_bytes(count * size),
{
    match count.checked_mul(size) {
        Some(n) => n,
        None => usize::MAX,
    }
}

/// Clamped pixels hold no sample outside [0, `max_adu`], and a sample that
/// was in that range is kept as it was.
pub proof fn clamping_is_exact(sample: i32, max_adu: u32)
    ensures
        0 <= clamped(sample, max_adu) <= max_adu,
        0 <= sample <= max_adu ==> clamped(sample, max_adu) == sample,
{
}

/// A sample outside [0, `max_adu`] becomes the end of that range that it is
/// beyond, and clamping never turns the order of two samples round.
pub proof fn clamping_goes_to_the_nearer_end(sample: i32, other: i32, max_adu: u32)
    ensures
        sample < 0 ==> clamped(sample, max_adu) == 0,
        sample > max_adu ==> clamped(sample, max_adu) == max_adu,
        sample <= other ==> clamped(sample, max_adu) <= clamped(other, max_adu),
{
}

/// The samples of a buffer are its samples as numbers, one by one, and its
/// extents are its numbers of rows and columns; a sample takes two bytes in
/// 16-bit storage and four in 32-bit storage, and a number of bytes beyond
/// the range of a machine word counts as the greatest in it.
pub proof fn pixels_are_their_buffer(pixels: CachedPixels, n: int)
    ensures
        pixels matches CachedPixels::U16(grid) ==> {
            &&& pixels.extents() == shape_u16(grid)
            &&& pixels.values().len() == samples_u16(grid).len()
            &&& forall|i: int|
                0 <= i < samples_u16(grid).len() ==> #[trigger] pixels.values()[i]
                    == samples_u16(grid)[i]
            &&& pixels.values().len() * 2 <= usize::MAX ==> pixels.byte_size()
                == pixels.values().len() * 2
        },
        pixels matches CachedPixels::I32(grid) ==> {
            &&& pixels.extents() == shape_i32(grid)
            &&& pixels.values().len() == samples_i32(grid).len()
            &&& forall|i: int|
                0 <= i < samples_i32(grid).len() ==> #[trigger] pixels.values()[i]
                    == samples_i32(grid)[i]
            &&& pixels.values().len() * 4 <= usize::MAX ==> pixels.byte_size()
                == pixels.values().len() * 4
        },
        n <= usize::MAX ==> capped_bytes(n) == n,
        n > usize::MAX ==> capped_bytes(n) == usize::MAX,
{
}

} // verus!
