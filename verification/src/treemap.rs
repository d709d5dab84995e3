//! The picture of a treemap: an RGB image plus the rectangles drawn into it.
//!
//! Every node gets a rectangle whose area stands for its size; the children of a
//! directory share its rectangle. For each rectangle drawn the treemap keeps the
//! chain of record numbers from its root to the node, so that a point of the
//! picture leads back to its node ([`Treemap::hit_pixel`]) and a node to its
//! rectangle ([`Treemap::bounds_of`]). Files are coloured by their extension
//! ([`file_hue`]).

use vstd::prelude::*;
use vstd::string::StringSliceAdditionalSpecFns;

verus! {

/// Pixel bounds of a drawn rectangle; the ends are exclusive.
#[derive(Debug, Clone, Copy, PartialEq, Eq, Structural)]
pub struct Bounds {
    pub x0: u32,
    pub y0: u32,
    pub x1: u32,
    pub y1: u32,
}

/// A hit of [`Treemap::hit_pixel`].
#[derive(Debug, Clone, PartialEq, Eq)]
pub struct Hit<'a> {
    /// Record numbers from the treemap's root (excluded) down to the node.
    pub chain: &'a [u64],
}

/// A drawn rectangle with the place of its chain in `chains`.
#[derive(Debug, Clone)]
struct HitRect {
    x0: u32,
    y0: u32,
    x1: u32,
    y1: u32,
    /// Depth below the treemap's root (0 = the root itself).
    depth: u16,
    chain_start: usize,
    chain_len: usize,
}

/// A drawn rectangle: its bounds, its depth and the chain to its node.
pub struct DrawnRect {
    pub bounds: Bounds,
    pub depth: nat,
    pub chain: Seq<u64>,
}

/// The value of a treemap.
pub struct TreemapView {
    pub width: nat,
    pub height: nat,
    /// RGB, row by row, three bytes per pixel.
    pub pixels: Seq<u8>,
    /// The rectangles in the order they were drawn.
    pub rects: Seq<DrawnRect>,
}

/// A drawn treemap: pixels and the rectangles drawn.
pub struct Treemap {
    width: u32,
    height: u32,
    pixels: Vec<u8>,
    rects: Vec<HitRect>,
    chains: Vec<u64>,
}

impl View for Treemap {
    type V = TreemapView;

    closed spec fn view(&self) -> TreemapView {
        TreemapView {
            width: self.width as nat,
            height: self.height as nat,
            pixels: self.pixels@,
            rects: Seq::new(
                self.rects@.len(),
                |i: int|
                    DrawnRect {
                        bounds: Bounds {
                            x0: self.rects@[i].x0,
                            y0: self.rects@[i].y0,
                            x1: self.rects@[i].x1,
                            y1: self.rects@[i].y1,
                        },
                        depth: self.rects@[i].depth as nat,
                        chain: self.chains@.subrange(
                            self.rects@[i].chain_start as int,
                            self.rects@[i].chain_start + self.rects@[i].chain_len,
                        ),
                    },
            ),
        }
    }
}

/// The rectangle covers the pixel.
pub open spec fn covers(r: DrawnRect, px: nat, py: nat) -> bool {
    r.bounds.x0 <= px < r.bounds.x1 && r.bounds.y0 <= py < r.bounds.y1
}

/// Rectangle `i` is the one a hit at the pixel finds: it covers the pixel, and
/// every other one that does is less deep or, as deep, drawn before it.
pub open spec fn deepest_at(rects: Seq<DrawnRect>, i: int, px: nat, py: nat) -> bool {
    &&& 0 <= i < rects.len()
    &&& covers(rects[i], px, py)
    &&& forall|j: int|
        0 <= j < rects.len() && covers(#[trigger] rects[j], px, py) ==> rects[j].depth
            < rects[i].depth || (rects[j].depth == rects[i].depth && j <= i)
}

/// Rectangle `i` is the first one drawn for `chain`.
pub open spec fn first_with_chain(rects: Seq<DrawnRect>, i: int, chain: Seq<u64>) -> bool {
    &&& 0 <= i < rects.len()
    &&& rects[i].chain == chain
    &&& forall|j: int| 0 <= j < i ==> (#[trigger] rects[j]).chain != chain
}

/// The pixels after filling the rectangle `[x0, x1) x [y0, y1)` with `color`.
pub open spec fn painted(
    pixels: Seq<u8>,
    width: nat,
    x0: nat,
    y0: nat,
    x1: nat,
    y1: nat,
    color: Seq<u8>,
) -> Seq<u8> {
    Seq::new(
        pixels.len(),
        |k: int|
            {
                let p = k / 3;
                if x0 <= p % (width as int) < x1 && y0 <= p / (width as int) < y1 {
                    color[k % 3]
                } else {
                    pixels[k]
                }
            },
    )
}

/// The place of a byte in the picture: pixel `y * width + x`, channel `c`.
proof fn lemma_pixel_offset(width: int, x: int, y: int, c: int)
    requires
        0 <= x < width,
        0 <= y,
        0 <= c < 3,
    ensures
        ((y * width + x) * 3 + c) / 3 == y * width + x,
        ((y * width + x) * 3 + c) % 3 == c,
        (y * width + x) % width == x,
        (y * width + x) / width == y,
{
    assert(y * width + x >= 0) by (nonlinear_arith)
        requires
            0 <= x,
            0 <= y,
            0 < width,
    ;
    vstd::arithmetic::div_mod::lemma_fundamental_div_mod_converse(
        (y * width + x) * 3 + c,
        3,
        y * width + x,
        c,
    );
    vstd::arithmetic::div_mod::lemma_fundamental_div_mod_converse(y * width + x, width, y, x);
}

impl Treemap {
    /// The pixels fill the picture and every chain lies within the store.
    pub closed spec fn wf(self) -> bool {
        &&& self.pixels@.len() == self.width as nat * self.height as nat * 3
        &&& forall|i: int|
            0 <= i < self.rects@.len() ==> (#[trigger] self.rects@[i]).chain_start
                + self.rects@[i].chain_len <= self.chains@.len()
    }

    /// A black picture of `width` by `height` pixels with no rectangles.
    pub fn new(width: u32, height: u32) -> (r: Self)
        requires
            width as nat * height as nat * 3 <= usize::MAX,
        ensures
            r.wf(),
            r@ == (TreemapView {
                width: width as nat,
                height: height as nat,
                pixels: Seq::new(width as nat * height as nat * 3, |i: int| 0u8),
                rects: Seq::empty(),
            }),
    {
        let len: usize = width as usize * height as usize * 3;
        let mut pixels: Vec<u8> = Vec::new();
        while pixels.len() < len
            invariant
                pixels@.len() <= len,
                forall|i: int| 0 <= i < pixels@.len() ==> pixels@[i] == 0u8,
            decreases len - pixels@.len(),
        {
            pixels.push(0u8);
        }
        let r = Treemap { width, height, pixels, rects: Vec::new(), chains: Vec::new() };
        proof {
            assert(r@.pixels =~= Seq::new(width as nat * height as nat * 3, |i: int| 0u8));
            assert(r@.rects =~= Seq::<DrawnRect>::empty());
        }
        r
    }

    pub fn width(&self) -> (r: u32)
        ensures
            r == self@.width,
    {
        self.width
    }

    pub fn height(&self) -> (r: u32)
        ensures
            r == self@.height,
    {
        self.height
    }

    /// The pixels as RGB bytes, row by row.
    pub fn pixels(&self) -> (r: &[u8])
        ensures
            r@ == self@.pixels,
    {
        self.pixels.as_slice()
    }

    /// Number of rectangles drawn (directories and files).
    pub fn rect_count(&self) -> (r: usize)
        ensures
            r == self@.rects.len(),
    {
        self.rects.len()
    }

    /// The chain of rectangle `i`.
    fn chain_of(&self, i: usize) -> (r: &[u64])
        requires
            self.wf(),
            i < self@.rects.len(),
        ensures
            r@ == self@.rects[i as int].chain,
    {
        let stored: usize = self.chains.len();
        let start: usize = self.rects[i].chain_start;
        proof {
            assert(self.rects@[i as int].chain_start + self.rects@[i as int].chain_len <= stored);
        }
        let end: usize = start + self.rects[i].chain_len;
        &self.chains.as_slice()[start..end]
    }

    /// The deepest rectangle at the pixel `(px, py)`, the last drawn of the
    /// deepest if several are; `None` where nothing is drawn.
    pub fn hit_pixel(&self, px: u32, py: u32) -> (r: Option<Hit<'_>>)
        requires
            self.wf(),
        ensures
            r is None <==> forall|i: int|
                0 <= i < self@.rects.len() ==> !covers(
                    #[trigger] self@.rects[i],
                    px as nat,
                    py as nat,
                ),
            r matches Some(h) ==> exists|i: int|
                deepest_at(self@.rects, i, px as nat, py as nat) && h.chain@
                    == self@.rects[i].chain,
    {
        let ghost rects = self@.rects;
        let mut best: Option<usize> = None;
        let mut best_depth: u16 = 0;
        let mut i: usize = 0;
        while i < self.rects.len()
            invariant
                i <= self.rects@.len(),
                rects == self@.rects,
                rects.len() == self.rects@.len(),
                match best {
                    None => forall|j: int| 0 <= j < i ==> !covers(#[trigger] rects[j], px as nat, py as nat),
                    Some(b) => {
                        &&& b < i
                        &&& covers(rects[b as int], px as nat, py as nat)
                        &&& rects[b as int].depth == best_depth
                        &&& forall|j: int|
                            0 <= j < i && covers(#[trigger] rects[j], px as nat, py as nat)
                                ==> rects[j].depth < best_depth || (rects[j].depth == best_depth
                                && j <= b)
                    },
                },
            decreases self.rects@.len() - i,
        {
            let rect = &self.rects[i];
            if px >= rect.x0 && px < rect.x1 && py >= rect.y0 && py < rect.y1 {
                let better = match best {
                    None => true,
                    Some(_) => rect.depth >= best_depth,
                };
                if better {
                    best = Some(i);
                    best_depth = rect.depth;
                }
            }
            i = i + 1;
        }
        match best {
            None => None,
            Some(b) => {
                let chain = self.chain_of(b);
                proof {
                    assert(deepest_at(rects, b as int, px as nat, py as nat));
                }
                Some(Hit { chain })
            },
        }
    }

    /// The bounds of the first rectangle drawn for exactly this chain (relative
    /// to the treemap's root, as in [`Treemap::hit_pixel`]).
    pub fn bounds_of(&self, chain: &[u64]) -> (r: Option<Bounds>)
        requires
            self.wf(),
        ensures
            r is None <==> forall|i: int|
                0 <= i < self@.rects.len() ==> (#[trigger] self@.rects[i]).chain != chain@,
            r matches Some(b) ==> exists|i: int|
                first_with_chain(self@.rects, i, chain@) && b == self@.rects[i].bounds,
    {
        let ghost rects = self@.rects;
        let mut i: usize = 0;
        while i < self.rects.len()
            invariant
                i <= self.rects@.len(),
                rects == self@.rects,
                rects.len() == self.rects@.len(),
                self.wf(),
                forall|j: int| 0 <= j < i ==> (#[trigger] rects[j]).chain != chain@,
            decreases self.rects@.len() - i,
        {
            let candidate = self.chain_of(i);
            if same_chain(candidate, chain) {
                let rect = &self.rects[i];
                let b = Bounds { x0: rect.x0, y0: rect.y0, x1: rect.x1, y1: rect.y1 };
                proof {
                    assert(first_with_chain(rects, i as int, chain@));
                }
                return Some(b);
            }
            i = i + 1;
        }
        None
    }

    /// Records a drawn rectangle with its depth and the chain to its node.
    pub fn remember(&mut self, x0: u32, y0: u32, x1: u32, y1: u32, depth: u16, chain: &[u64])
        requires
            old(self).wf(),
        ensures
            final(self).wf(),
            final(self)@.width == old(self)@.width,
            final(self)@.height == old(self)@.height,
            final(self)@.pixels == old(self)@.pixels,
            final(self)@.rects == old(self)@.rects.push(
                DrawnRect {
                    bounds: Bounds { x0, y0, x1, y1 },
                    depth: depth as nat,
                    chain: chain@,
                },
            ),
    {
        let ghost old_chains = self.chains@;
        let chain_start: usize = self.chains.len();
        let mut k: usize = 0;
        while k < chain.len()
            invariant
                k <= chain@.len(),
                chain_start == old_chains.len(),
                self.chains@ == old_chains + chain@.subrange(0, k as int),
                self.width == old(self).width,
                self.height == old(self).height,
                self.pixels@ == old(self).pixels@,
                self.rects@ == old(self).rects@,
                self.pixels@.len() == self.width as nat * self.height as nat * 3,
                forall|i: int|
                    0 <= i < self.rects@.len() ==> (#[trigger] self.rects@[i]).chain_start
                        + self.rects@[i].chain_len <= old_chains.len(),
            decreases chain@.len() - k,
        {
            self.chains.push(chain[k]);
            k = k + 1;
            proof {
                assert(self.chains@ =~= old_chains + chain@.subrange(0, k as int));
            }
        }
        self.rects.push(
            HitRect { x0, y0, x1, y1, depth, chain_start, chain_len: chain.len() },
        );
        proof {
            assert(chain@.subrange(0, chain@.len() as int) =~= chain@);
            let v = self@.rects;
            let w = old(self)@.rects.push(
                DrawnRect { bounds: Bounds { x0, y0, x1, y1 }, depth: depth as nat, chain: chain@ },
            );
            assert forall|i: int| 0 <= i < v.len() implies v[i] == w[i] by {
                if i < old(self)@.rects.len() {
                    assert(self.chains@.subrange(
                        self.rects@[i].chain_start as int,
                        self.rects@[i].chain_start + self.rects@[i].chain_len,
                    ) =~= old_chains.subrange(
                        self.rects@[i].chain_start as int,
                        self.rects@[i].chain_start + self.rects@[i].chain_len,
                    ));
                } else {
                    assert(self.chains@.subrange(
                        chain_start as int,
                        chain_start + chain@.len(),
                    ) =~= chain@);
                }
            }
            assert(v =~= w);
        }
    }

    /// Fills the pixels of `[x0, x1) x [y0, y1)` with `color`.
    pub fn fill(&mut self, x0: u32, y0: u32, x1: u32, y1: u32, color: [u8; 3])
        requires
            old(self).wf(),
            x0 <= x1 <= old(self)@.width,
            y0 <= y1 <= old(self)@.height,
        ensures
            final(self).wf(),
            final(self)@.width == old(self)@.width,
            final(self)@.height == old(self)@.height,
            final(self)@.rects == old(self)@.rects,
            final(self)@.pixels == painted(
                old(self)@.pixels,
                old(self)@.width,
                x0 as nat,
                y0 as nat,
                x1 as nat,
                y1 as nat,
                color@,
            ),
    {
        let ghost before = self.pixels@;
        let ghost w = self.width as int;
        let total_len: usize = self.pixels.len();
        let width: usize = self.width as usize;
        let mut y: u32 = y0;
        while y < y1
            invariant
                y0 <= y <= y1,
                y1 <= self.height,
                x0 <= x1 <= self.width,
                width == self.width,
                w == self.width,
                self.width == old(self).width,
                self.height == old(self).height,
                self.rects@ == old(self).rects@,
                self.chains@ == old(self).chains@,
                before == old(self).pixels@,
                before.len() == total_len,
                self.pixels@.len() == before.len(),
                before.len() == self.width as nat * self.height as nat * 3,
                forall|k: int|
                    0 <= k < before.len() ==> #[trigger] self.pixels@[k] == if x0 <= (k / 3) % w
                        < x1 && y0 <= (k / 3) / w < y {
                        color@[k % 3]
                    } else {
                        before[k]
                    },
            decreases y1 - y,
        {
            proof {
                assert(y as int * w + w <= self.height as int * w) by (nonlinear_arith)
                    requires
                        y < self.height,
                        w >= 0,
                ;
                assert(self.height as int * w * 3 == before.len()) by (nonlinear_arith)
                    requires
                        before.len() == w * self.height * 3,
                ;
            }
            let row: usize = y as usize * width;
            let mut x: u32 = x0;
            while x < x1
                invariant
                    y0 <= y < y1,
                    y1 <= self.height,
                    x0 <= x <= x1,
                    x1 <= self.width,
                    width == self.width,
                    w == self.width,
                    row == y * w,
                    y as int * w + w <= self.height as int * w,
                    before.len() == total_len,
                    self.width == old(self).width,
                    self.height == old(self).height,
                    self.rects@ == old(self).rects@,
                    self.chains@ == old(self).chains@,
                    self.pixels@.len() == before.len(),
                    before.len() == self.width as nat * self.height as nat * 3,
                    forall|k: int|
                        0 <= k < before.len() ==> #[trigger] self.pixels@[k] == if x0 <= (k / 3)
                            % w < x1 && (y0 <= (k / 3) / w < y || ((k / 3) / w == y && (k / 3)
                            % w < x)) {
                            color@[k % 3]
                        } else {
                            before[k]
                        },
                decreases x1 - x,
            {
                let offset: usize = (row + x as usize) * 3;
                proof {
                    assert((y * w + x) * 3 + 3 <= before.len()) by (nonlinear_arith)
                        requires
                            x < w,
                            y as int * w + w <= self.height as int * w,
                            before.len() == w * self.height * 3,
                    ;
                    lemma_pixel_offset(w, x as int, y as int, 0);
                    lemma_pixel_offset(w, x as int, y as int, 1);
                    lemma_pixel_offset(w, x as int, y as int, 2);
                }
                let ghost mid = self.pixels@;
                self.pixels.set(offset, color[0]);
                self.pixels.set(offset + 1, color[1]);
                self.pixels.set(offset + 2, color[2]);
                proof {
                    assert forall|k: int| 0 <= k < before.len() implies #[trigger] self.pixels@[k]
                        == if x0 <= (k / 3) % w < x1 && (y0 <= (k / 3) / w < y || ((k / 3) / w
                        == y && (k / 3) % w < x + 1)) {
                        color@[k % 3]
                    } else {
                        before[k]
                    } by {
                        if offset <= k < offset + 3 {
                            lemma_pixel_offset(w, x as int, y as int, k - offset);
                        } else {
                            assert(self.pixels@[k] == mid[k]);
                            if (k / 3) / w == y && (k / 3) % w == x {
                                assert(k / 3 == y * w + x) by {
                                    vstd::arithmetic::div_mod::lemma_fundamental_div_mod(
                                        k / 3,
                                        w,
                                    );
                                    assert(w * y == y * w) by (nonlinear_arith);
                                }
                                assert(offset <= k < offset + 3);
                            }
                        }
                    }
                }
                x = x + 1;
            }
            proof {
                assert forall|k: int| 0 <= k < before.len() implies #[trigger] self.pixels@[k]
                    == if x0 <= (k / 3) % w < x1 && y0 <= (k / 3) / w < y + 1 {
                    color@[k % 3]
                } else {
                    before[k]
                } by {
                }
            }
            y = y + 1;
        }
        proof {
            assert(self@.pixels =~= painted(
                before,
                self.width as nat,
                x0 as nat,
                y0 as nat,
                x1 as nat,
                y1 as nat,
                color@,
            ));
        }
    }
}

/// The two chains are equal.
fn same_chain(a: &[u64], b: &[u64]) -> (r: bool)
    ensures
        r == (a@ == b@),
{
    if a.len() != b.len() {
        return false;
    }
    let mut i: usize = 0;
    while i < a.len()
        invariant
            i <= a@.len(),
            a@.len() == b@.len(),
            forall|j: int| 0 <= j < i ==> a@[j] == b@[j],
        decreases a@.len() - i,
    {
        if a[i] != b[i] {
            return false;
        }
        i = i + 1;
    }
    proof {
        assert(a@ =~= b@);
    }
    true
}

// ---------------------------------------------------------------------------
// Colours by extension
// ---------------------------------------------------------------------------

/// The byte in lower case where it is an ASCII capital letter.
pub open spec fn ascii_lower(b: u8) -> u8 {
    if 0x41 <= b <= 0x5A {
        (b + 32) as u8
    } else {
        b
    }
}

/// FNV-1a (32 bits) over the bytes, each in ASCII lower case.
pub open spec fn fnv1a_lower(bytes: Seq<u8>) -> u32
    decreases bytes.len(),
{
    if bytes.len() == 0 {
        0x811c_9dc5
    } else {
        let h = fnv1a_lower(bytes.drop_last());
        (h ^ (ascii_lower(bytes.last()) as u32)).wrapping_mul(0x0100_0193)
    }
}

/// The index of the last `.` in the bytes.
pub open spec fn last_dot(bytes: Seq<u8>) -> Option<int>
    decreases bytes.len(),
{
    if bytes.len() == 0 {
        None
    } else if bytes.last() == 0x2E {
        Some(bytes.len() - 1)
    } else {
        last_dot(bytes.drop_last())
    }
}

/// The extension of a file name (as UTF-8 bytes): what follows the last `.`,
/// empty where there is no `.` or nothing before it (`.gitignore`).
pub open spec fn extension_of(name: Seq<u8>) -> Seq<u8> {
    match last_dot(name) {
        Some(i) => if i == 0 {
            Seq::empty()
        } else {
            name.subrange(i + 1, name.len() as int)
        },
        None => Seq::empty(),
    }
}

/// The hue of a file's colour, in degrees: from the hash of its extension in
/// lower case; `None` for a name without an extension.
pub open spec fn spec_file_hue(name: Seq<u8>) -> Option<u32> {
    let ext = extension_of(name);
    if ext.len() == 0 {
        None
    } else {
        Some(fnv1a_lower(ext) % 360)
    }
}

fn to_ascii_lower(b: u8) -> (r: u8)
    ensures
        r == ascii_lower(b),
{
    if 0x41 <= b && b <= 0x5A {
        b + 32
    } else {
        b
    }
}

/// The hue of a file's colour (see [`spec_file_hue`]): the same extension, in
/// any case, gives the same hue.
pub fn file_hue(name: &str) -> (r: Option<u32>)
    ensures
        r == spec_file_hue(name.spec_bytes()),
{
    let bytes: &[u8] = name.as_bytes();
    let ghost b = bytes@;
    let mut i: usize = bytes.len();
    proof {
        assert(b.subrange(0, b.len() as int) =~= b);
    }
    while i > 0 && bytes[i - 1] != 0x2E
        invariant
            i <= b.len(),
            b == bytes@,
            last_dot(b) == last_dot(b.subrange(0, i as int)),
        decreases i,
    {
        proof {
            assert(b.subrange(0, i as int).drop_last() =~= b.subrange(0, i - 1));
        }
        i = i - 1;
    }
    if i <= 1 {
        proof {
            if i == 1 {
                assert(last_dot(b.subrange(0, 1)) == Some(0int));
            } else {
                assert(b.subrange(0, 0) =~= Seq::<u8>::empty());
            }
        }
        return None;
    }
    proof {
        assert(last_dot(b.subrange(0, i as int)) == Some(i - 1));
    }
    if i == bytes.len() {
        proof {
            assert(b.subrange(i as int, b.len() as int) =~= Seq::<u8>::empty());
        }
        return None;
    }
    let ghost ext = b.subrange(i as int, b.len() as int);
    let mut hash: u32 = 0x811c_9dc5;
    let mut k: usize = i;
    proof {
        assert(ext.subrange(0, 0) =~= Seq::<u8>::empty());
    }
    while k < bytes.len()
        invariant
            i <= k <= b.len(),
            b == bytes@,
            ext == b.subrange(i as int, b.len() as int),
            hash == fnv1a_lower(ext.subrange(0, k - i)),
        decreases b.len() - k,
    {
        let lower: u8 = to_ascii_lower(bytes[k]);
        hash = (hash ^ lower as u32).wrapping_mul(0x0100_0193);
        proof {
            let t = ext.subrange(0, k + 1 - i);
            assert(t.drop_last() =~= ext.subrange(0, k - i));
            assert(t.last() == b[k as int]);
        }
        k = k + 1;
    }
    proof {
        assert(ext.subrange(0, ext.len() as int) =~= ext);
    }
    Some(hash % 360)
}

/// At most one rectangle is the one a hit finds.
pub proof fn lemma_deepest_unique(rects: Seq<DrawnRect>, i: int, j: int, px: nat, py: nat)
    requires
        deepest_at(rects, i, px, py),
        deepest_at(rects, j, px, py),
    ensures
        i == j,
{
    assert(covers(rects[j], px, py));
    assert(covers(rects[i], px, py));
}

/// At most one rectangle is the first drawn for a chain.
pub proof fn lemma_first_with_chain_unique(rects: Seq<DrawnRect>, i: int, j: int, chain: Seq<u64>)
    requires
        first_with_chain(rects, i, chain),
        first_with_chain(rects, j, chain),
    ensures
        i == j,
{
    if i < j {
        assert(rects[i].chain != chain);
    } else if j < i {
        assert(rects[j].chain != chain);
    }
}

/// A rectangle just drawn is found again at each of its pixels, unless a deeper
/// one drawn before covers the pixel.
pub proof fn lemma_drawn_rect_is_hit(rects: Seq<DrawnRect>, r: DrawnRect, px: nat, py: nat)
    requires
        covers(r, px, py),
        forall|j: int| 0 <= j < rects.len() && covers(#[trigger] rects[j], px, py) ==> rects[j].depth <= r.depth,
    ensures
        deepest_at(rects.push(r), rects.len() as int, px, py),
{
    let all = rects.push(r);
    assert forall|j: int| 0 <= j < all.len() && covers(#[trigger] all[j], px, py) implies all[j].depth
        < all[rects.len() as int].depth || (all[j].depth == all[rects.len() as int].depth && j
        <= rects.len()) by {
        if j < rects.len() {
            assert(all[j] == rects[j]);
        }
    }
}

/// The bounds of a rectangle drawn for a new chain are found by that chain.
pub proof fn lemma_drawn_chain_is_found(rects: Seq<DrawnRect>, r: DrawnRect)
    requires
        forall|j: int| 0 <= j < rects.len() ==> (#[trigger] rects[j]).chain != r.chain,
    ensures
        first_with_chain(rects.push(r), rects.len() as int, r.chain),
{
    let all = rects.push(r);
    assert forall|j: int| 0 <= j < rects.len() implies (#[trigger] all[j]).chain != r.chain by {
        assert(all[j] == rects[j]);
    }
}

/// The hash over bytes that agree but for ASCII case is the same.
pub proof fn lemma_fnv1a_ignores_case(a: Seq<u8>, b: Seq<u8>)
    requires
        a.map_values(|x: u8| ascii_lower(x)) == b.map_values(|x: u8| ascii_lower(x)),
    ensures
        fnv1a_lower(a) == fnv1a_lower(b),
    decreases a.len(),
{
    assert(a.len() == b.map_values(|x: u8| ascii_lower(x)).len());
    if a.len() > 0 {
        let la = a.map_values(|x: u8| ascii_lower(x));
        let lb = b.map_values(|x: u8| ascii_lower(x));
        assert(a.drop_last().map_values(|x: u8| ascii_lower(x)) =~= b.drop_last().map_values(
            |x: u8| ascii_lower(x),
        )) by {
            assert forall|i: int| 0 <= i < a.len() - 1 implies ascii_lower(a[i]) == ascii_lower(
                b[i],
            ) by {
                assert(la[i] == lb[i]);
            }
        }
        assert(la[a.len() - 1] == lb[a.len() - 1]);
        lemma_fnv1a_ignores_case(a.drop_last(), b.drop_last());
    }
}

/// Files whose extensions agree but for ASCII case get the same hue: a colour
/// stands for an extension.
pub proof fn lemma_hue_ignores_case(a: Seq<u8>, b: Seq<u8>)
    requires
        extension_of(a).map_values(|x: u8| ascii_lower(x)) == extension_of(b).map_values(
            |x: u8| ascii_lower(x),
        ),
    ensures
        spec_file_hue(a) == spec_file_hue(b),
{
    let ea = extension_of(a);
    let eb = extension_of(b);
    assert(ea.len() == eb.map_values(|x: u8| ascii_lower(x)).len());
    lemma_fnv1a_ignores_case(ea, eb);
}

} // verus!
