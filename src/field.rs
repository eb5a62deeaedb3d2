use vstd::prelude::*;

verus! {

/// Why an elevation grid could not be built.
#[derive(Debug, Clone, Copy, PartialEq, Eq, Structural)]
pub enum ConfigurationError {
    /// The grid would have no row or no column.
    EmptyDimension,
    /// The number of samples is not `width * height`.
    SizeMismatch,
}

/// What an elevation grid holds: its dimensions and its samples, row by row.
pub ghost struct GridModel {
    pub width: nat,
    pub height: nat,
    pub samples: Seq<i16>,
}

impl GridModel {
    /// Both dimensions are positive and the samples fill the grid exactly.
    pub open spec fn wf(self) -> bool {
        &&& self.width > 0
        &&& self.height > 0
        &&& self.samples.len() == self.width * self.height
    }

    /// Row index after wrapping around the grid's height.
    pub open spec fn wrap_row(self, row: int) -> int {
        if 0 <= row < self.height {
            row
        } else {
            row % (self.height as int)
        }
    }

    /// Column index after clamping into `[0, width - 1]`.
    pub open spec fn clamp_col(self, col: int) -> int {
        if col < 0 {
            0
        } else if col >= self.width {
            self.width - 1
        } else {
            col
        }
    }

    /// The sample read for grid position `(row, col)`: the row wraps, the column clamps.
    pub open spec fn sample(self, row: int, col: int) -> i16 {
        self.samples[self.wrap_row(row) * self.width + self.clamp_col(col)]
    }
}

/// An immutable equirectangular grid of signed elevation samples.
pub struct HeightMap {
    width: usize,
    height: usize,
    data: Vec<i16>,
}

impl View for HeightMap {
    type V = GridModel;

    closed spec fn view(&self) -> GridModel {
        GridModel { width: self.width as nat, height: self.height as nat, samples: self.data@ }
    }
}

impl HeightMap {
    #[verifier::type_invariant]
    closed spec fn inv(self) -> bool {
        self@.wf()
    }

    /// Builds a grid of `width` columns and `height` rows from row-major samples.
    pub fn new(width: usize, height: usize, data: Vec<i16>) -> (r: Result<
        HeightMap,
        ConfigurationError,
    >)
        ensures
            width == 0 || height == 0 ==> r == Err::<HeightMap, ConfigurationError>(
                ConfigurationError::EmptyDimension,
            ),
            width > 0 && height > 0 && data@.len() != width * height ==> r == Err::<
                HeightMap,
                ConfigurationError,
            >(ConfigurationError::SizeMismatch),
            width > 0 && height > 0 && data@.len() == width * height ==> (r matches Ok(m)
                && m@ == (GridModel { width: width as nat, height: height as nat, samples: data@ })),
    {
        if width == 0 || height == 0 {
            return Err(ConfigurationError::EmptyDimension);
        }
        assert((width as u128) * (height as u128) <= u64::MAX as u128 * u64::MAX as u128)
            by (nonlinear_arith)
            requires
                width <= u64::MAX,
                height <= u64::MAX,
        ;
        if (data.len() as u128) != (width as u128) * (height as u128) {
            return Err(ConfigurationError::SizeMismatch);
        }
        Ok(HeightMap { width, height, data })
    }

    /// Number of columns.
    pub fn width(&self) -> (r: usize)
        ensures
            r == self@.width,
            self@.wf(),
    {
        proof {
            use_type_invariant(self);
        }
        self.width
    }

    /// Number of rows.
    pub fn height(&self) -> (r: usize)
        ensures
            r == self@.height,
            self@.wf(),
    {
        proof {
            use_type_invariant(self);
        }
        self.height
    }

    /// The samples, row by row.
    pub fn samples(&self) -> (r: &Vec<i16>)
        ensures
            r@ == self@.samples,
            self@.wf(),
    {
        proof {
            use_type_invariant(self);
        }
        &self.data
    }

    /// The sample at `(row, col)`: the row wraps modulo the height, the column
    /// is clamped into the grid.
    pub fn height_at(&self, row: usize, col: usize) -> (r: i16)
        ensures
            r == self@.sample(row as int, col as int),
    {
        proof {
            use_type_invariant(self);
            if row < self.height {
                vstd::arithmetic::div_mod::lemma_small_mod(row as nat, self.height as nat);
            }
        }
        let row = row % self.height;
        let col = if col >= self.width {
            self.width - 1
        } else {
            col
        };
        let len = self.data.len();
        proof {
            assert(row * self.width + col < self.width * self.height) by (nonlinear_arith)
                requires
                    row < self.height,
                    col < self.width,
            ;
            assert(row * self.width + col < len);
        }
        self.data[row * self.width + col]
    }
}

/// `r` is the integer square root of `n`, rounded down.
pub open spec fn is_floor_sqrt(r: int, n: int) -> bool {
    0 <= r && r * r <= n < (r + 1) * (r + 1)
}

/// The signed 16-bit integer whose big-endian bytes are `hi`, `lo`.
pub open spec fn be_i16(hi: u8, lo: u8) -> i16 {
    let v = hi as int * 256 + lo as int;
    if v >= 32768 {
        (v - 65536) as i16
    } else {
        v as i16
    }
}

/// The samples of an `.img` elevation file: big-endian 16-bit pairs.
pub open spec fn img_samples(bytes: Seq<u8>) -> Seq<i16> {
    Seq::new((bytes.len() / 2) as nat, |i: int| be_i16(bytes[2 * i], bytes[2 * i + 1]))
}

proof fn lemma_floor_sqrt_unique(r: int, s: int, n: int)
    requires
        is_floor_sqrt(r, n),
        is_floor_sqrt(s, n),
    ensures
        r == s,
{
    if r < s {
        assert((r + 1) * (r + 1) <= s * s) by (nonlinear_arith)
            requires
                0 <= r < s,
        ;
    }
    if s < r {
        assert((s + 1) * (s + 1) <= r * r) by (nonlinear_arith)
            requires
                0 <= s < r,
        ;
    }
}

/// The integer square root of `n`, rounded down.
pub fn floor_sqrt(n: usize) -> (r: usize)
    ensures
        is_floor_sqrt(r as int, n as int),
{
    let mut r: u64 = 0;
    loop
        invariant
            r * r <= n,
            r <= 0xffff_ffff,
        ensures
            r * r <= n < (r + 1) * (r + 1),
        decreases n - r,
    {
        let s: u128 = r as u128 + 1;
        assert(s * s <= 0x1_0000_0000 * 0x1_0000_0000) by (nonlinear_arith)
            requires
                1 <= s <= 0x1_0000_0000,
        ;
        if s * s > n as u128 {
            break;
        }
        assert(r + 1 <= 0xffff_ffff) by (nonlinear_arith)
            requires
                (r + 1) * (r + 1) <= n,
                n <= usize::MAX,
                usize::MAX <= u64::MAX,
        ;
        assert(r < n) by (nonlinear_arith)
            requires
                (r + 1) * (r + 1) <= n,
                0 <= r,
        ;
        r = r + 1;
    }
    r as usize
}

/// The sample decoded from `bytes[2 * i]` and `bytes[2 * i + 1]`.
fn decode_sample(hi: u8, lo: u8) -> (r: i16)
    ensures
        r == be_i16(hi, lo),
{
    let v: i32 = (hi as i32) * 256 + (lo as i32);
    if v >= 32768 {
        (v - 65536) as i16
    } else {
        v as i16
    }
}

impl HeightMap {
    /// Reads an `.img` elevation file: a square number of bytes `n`, holding
    /// big-endian 16-bit samples row by row, for a grid `floor_sqrt(n)`
    /// columns wide and half as many rows high.
    pub fn from_img_bytes(bytes: &[u8]) -> (r: Result<HeightMap, ConfigurationError>)
        ensures
            ({
                let n = bytes@.len() as int;
                forall|w: int|
                    #[trigger] is_floor_sqrt(w, n) ==> {
                        let h = w / 2;
                        &&& h == 0 ==> r == Err::<HeightMap, ConfigurationError>(
                            ConfigurationError::EmptyDimension,
                        )
                        &&& h > 0 && 2 * w * h != n ==> r == Err::<HeightMap, ConfigurationError>(
                            ConfigurationError::SizeMismatch,
                        )
                        &&& h > 0 && 2 * w * h == n ==> (r matches Ok(m) && m@ == (GridModel {
                            width: w as nat,
                            height: h as nat,
                            samples: img_samples(bytes@),
                        }))
                    }
            }),
    {
        let n = bytes.len();
        let width = floor_sqrt(n);
        let height = width / 2;
        proof {
            assert forall|w: int| is_floor_sqrt(w, n as int) implies w == width by {
                lemma_floor_sqrt_unique(w, width as int, n as int);
            }
        }
        if height == 0 {
            return Err(ConfigurationError::EmptyDimension);
        }
        proof {
            assert(width * height <= width * width) by (nonlinear_arith)
                requires
                    height <= width,
            ;
        }
        proof {
            assert(2 * width * height <= 2 * n) by (nonlinear_arith)
                requires
                    width * height <= width * width,
                    width * width <= n,
            ;
        }
        if 2 * (width as u128) * (height as u128) != n as u128 {
            return Err(ConfigurationError::SizeMismatch);
        }
        let count = n / 2;
        let mut data: Vec<i16> = Vec::new();
        let mut i: usize = 0;
        while i < count
            invariant
                count == n / 2,
                n == bytes@.len(),
                i <= count,
                data@ == img_samples(bytes@).subrange(0, i as int),
            decreases count - i,
        {
            let v = decode_sample(bytes[2 * i], bytes[2 * i + 1]);
            data.push(v);
            i = i + 1;
            proof {
                assert(data@ =~= img_samples(bytes@).subrange(0, i as int));
            }
        }
        proof {
            assert(data@ =~= img_samples(bytes@));
            assert(n / 2 == width * height) by (nonlinear_arith)
                requires
                    n == 2 * width * height,
            ;
        }
        HeightMap::new(width, height, data)
    }
}

/// Columns clamp, so a row reads the same past its last column as at it; the
/// reading at `col == width` equals the one at column 0 when the row's first
/// and last samples agree, as they do on a grid that closes around the globe.
pub proof fn lemma_longitude_seam(m: GridModel, row: int)
    requires
        m.wf(),
        m.sample(row, 0) == m.sample(row, m.width - 1),
    ensures
        forall|col: int| col >= m.width - 1 ==> #[trigger] m.sample(row, col) == m.sample(row, m.width - 1),
        m.sample(row, m.width as int) == m.sample(row, 0),
{
}

} // verus!
