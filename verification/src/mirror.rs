//! The paged texture that mirrors the pool: how big it is, how it grows, and
//! how a range of nodes is cut into the fewest uploads.
//!
//! The texture holds one node per texel, `page_width` nodes to a row,
//! `page_height` rows to a page. Node `n` lies in row `n / page_width` of the
//! whole texture, which is row `(n / page_width) % page_height` of page
//! `(n / page_width) / page_height`.

use crate::dynamic::DynamicOctree;
use crate::segment::{segments_ok, Segment};
use vstd::arithmetic::div_mod::{
    lemma_fundamental_div_mod, lemma_fundamental_div_mod_converse,
    lemma_mod_bound,
};
use vstd::prelude::*;

verus! {

/// The size of the texture: the nodes in a row, the rows in a page, and the
/// number of pages.
#[derive(Clone, Copy, Debug, PartialEq, Eq, Structural)]
pub struct DrawOctree {
    pub page_width: u32,
    pub page_height: u32,
    pub page_count: u32,
}

/// One write to the texture. Offsets and sizes are in bytes of the pool,
/// places in texels, rows and pages of the texture.
#[derive(Clone, Copy, Debug, PartialEq, Eq, Structural)]
pub enum Upload {
    /// `size` bytes from `offset` on go into one row, from texel `x` on.
    Row { x: u32, row: u32, page: u32, offset: u64, size: u64 },
    /// `rows` whole rows from `offset` on go into one page, from `row` on.
    Rows { row: u32, rows: u32, page: u32, offset: u64 },
    /// `pages` whole pages from `offset` on go into the texture, from `page` on.
    Pages { page: u32, pages: u32, offset: u64 },
}

/// Where the cutting of a range stands: the next node, the nodes that are
/// left, and the row and page of the next node.
#[derive(Clone, Copy, Debug, PartialEq, Eq, Structural)]
pub struct Cursor {
    pub node: u64,
    pub left: u64,
    pub row: u64,
    pub page: u64,
}

/// The smaller of two numbers.
pub open spec fn spec_min(a: int, b: int) -> int {
    if a <= b {
        a
    } else {
        b
    }
}

impl Upload {
    /// The byte of the pool that the write begins with.
    pub open spec fn spec_offset(&self) -> int {
        match *self {
            Upload::Row { offset, .. } => offset as int,
            Upload::Rows { offset, .. } => offset as int,
            Upload::Pages { offset, .. } => offset as int,
        }
    }

    /// The number of bytes that the write takes from the pool.
    pub open spec fn spec_size(&self, layout: DrawOctree) -> int {
        match *self {
            Upload::Row { size, .. } => size as int,
            Upload::Rows { rows, .. } => rows * layout.page_width * 8,
            Upload::Pages { pages, .. } => pages * layout.page_width * layout.page_height * 8,
        }
    }

    /// The write begins at the texel of its first node and stays within the
    /// row, the page or whole pages.
    pub open spec fn placed(&self, layout: DrawOctree) -> bool {
        let n = self.spec_offset() / 8;
        let w = layout.page_width as int;
        let h = layout.page_height as int;
        &&& self.spec_offset() % 8 == 0
        &&& match *self {
            Upload::Row { x, row, page, offset, size } => {
                &&& x == n % w
                &&& row == (n / w) % h
                &&& page == (n / w) / h
                &&& size % 8 == 0
                &&& x + size / 8 <= w
            },
            Upload::Rows { row, rows, page, offset } => {
                &&& n % w == 0
                &&& row == (n / w) % h
                &&& page == (n / w) / h
                &&& 1 <= rows
                &&& row + rows <= h
            },
            Upload::Pages { page, pages, offset } => {
                &&& n % w == 0
                &&& (n / w) % h == 0
                &&& page == (n / w) / h
                &&& 1 <= pages
            },
        }
    }
}

/// The writes are placed, begin at byte `from`, follow each other without a
/// gap, and end at byte `to`.
pub open spec fn covers(layout: DrawOctree, uploads: Seq<Upload>, from: int, to: int) -> bool
    decreases uploads.len(),
{
    if uploads.len() == 0 {
        from == to
    } else {
        &&& uploads[0].spec_offset() == from
        &&& uploads[0].placed(layout)
        &&& covers(layout, uploads.drop_first(), from + uploads[0].spec_size(layout), to)
    }
}

impl DrawOctree {
    /// The nodes in a row of the texture, unless another width is asked for.
    pub const PAGE_SIZE: u32 = 4096;

    /// The texture has a size: a row holds between one node and 4096, a page
    /// at least one row, and there is more than one page only once the pages
    /// are as high as they are wide.
    pub open spec fn wf(&self) -> bool {
        &&& 1 <= self.page_width <= 4096
        &&& 1 <= self.page_height < 2 * self.page_width
        &&& 1 <= self.page_count
        &&& self.page_count == 1 || self.page_height >= self.page_width
    }

    /// The number of nodes that the texture holds.
    pub open spec fn spec_size(&self) -> int {
        self.page_width * self.page_height * self.page_count
    }

    /// The row within its page, and the page, of node `n`.
    pub open spec fn spec_row(&self, n: int) -> int {
        (n / self.page_width as int) % self.page_height as int
    }

    /// The page of node `n`.
    pub open spec fn spec_page(&self, n: int) -> int {
        (n / self.page_width as int) / self.page_height as int
    }

    /// The texel within its row of node `n`.
    pub open spec fn spec_x(&self, n: int) -> int {
        n % self.page_width as int
    }

    /// A texture of one row in one page, 4096 nodes wide.
    pub fn new() -> (layout: DrawOctree)
        ensures
            layout == (DrawOctree { page_width: 4096, page_height: 1, page_count: 1 }),
            layout.wf(),
    {
        DrawOctree { page_width: DrawOctree::PAGE_SIZE, page_height: 1, page_count: 1 }
    }

    /// A texture of one row in one page, `page_width` nodes wide.
    pub fn with_page_width(page_width: u32) -> (layout: DrawOctree)
        requires
            1 <= page_width <= 4096,
        ensures
            layout == (DrawOctree { page_width, page_height: 1, page_count: 1 }),
            layout.wf(),
    {
        DrawOctree { page_width, page_height: 1, page_count: 1 }
    }

    /// The number of nodes that the texture holds.
    pub fn size(&self) -> (size: u64)
        requires
            self.wf(),
        ensures
            size == self.spec_size(),
    {
        proof {
            assert(self.page_width * self.page_height <= 4096 * 8192) by (nonlinear_arith)
                requires
                    self.page_width <= 4096,
                    self.page_height <= 8192,
            ;
            assert(self.page_width * self.page_height * self.page_count <= 4096 * 8192 * 0xffff_ffff)
                by (nonlinear_arith)
                requires
                    0 <= self.page_width * self.page_height <= 4096 * 8192,
                    self.page_count <= 0xffff_ffff,
            ;
        }
        self.page_width as u64 * self.page_height as u64 * self.page_count as u64
    }

    /// The size of the texture in bytes.
    pub fn byte_size(&self) -> (size: u64)
        requires
            self.wf(),
        ensures
            size == self.spec_size() * 8,
    {
        proof {
            assert(self.page_width * self.page_height <= 4096 * 8192) by (nonlinear_arith)
                requires
                    self.page_width <= 4096,
                    self.page_height <= 8192,
            ;
            assert(self.page_width * self.page_height * self.page_count <= 4096 * 8192 * 0xffff_ffff)
                by (nonlinear_arith)
                requires
                    0 <= self.page_width * self.page_height <= 4096 * 8192,
                    self.page_count <= 0xffff_ffff,
            ;
        }
        self.size() * 8
    }

    /// The number of nodes in a page.
    pub fn page_size(&self) -> (size: u32)
        requires
            self.wf(),
        ensures
            size == self.page_width * self.page_height,
            size >= 1,
    {
        proof {
            assert(1 <= self.page_width * self.page_height <= 4096 * 8192) by (nonlinear_arith)
                requires
                    1 <= self.page_width <= 4096,
                    1 <= self.page_height <= 8192,
            ;
        }
        self.page_width * self.page_height
    }

    /// The size of a page in bytes.
    pub fn bytes_per_page(&self) -> (size: u64)
        requires
            self.wf(),
        ensures
            size == self.page_width * self.page_height * 8,
    {
        self.page_size() as u64 * 8
    }

    /// The size of a row in bytes.
    pub fn bytes_per_row(&self) -> (size: u32)
        requires
            self.wf(),
        ensures
            size == self.page_width * 8,
    {
        self.page_width * 8
    }
}

/// Going on by `k` within a stretch of `d`: the count of whole stretches
/// stays and the place within the stretch moves on, or, at the end of the
/// stretch, the count goes up and the place is at the start again.
pub proof fn lemma_advance(a: int, d: int, k: int)
    requires
        0 <= a,
        0 < d,
        0 <= k,
        a % d + k <= d,
    ensures
        a % d + k < d ==> (a + k) / d == a / d && (a + k) % d == a % d + k,
        a % d + k == d ==> (a + k) / d == a / d + 1 && (a + k) % d == 0,
{
    lemma_fundamental_div_mod(a, d);
    lemma_mod_bound(a, d);
    if a % d + k < d {
        assert(a + k == (a / d) * d + (a % d + k)) by (nonlinear_arith)
            requires
                a == d * (a / d) + a % d,
        ;
        lemma_fundamental_div_mod_converse(a + k, d, a / d, a % d + k);
    } else {
        assert(a + k == (a / d + 1) * d + 0) by (nonlinear_arith)
            requires
                a == d * (a / d) + a % d,
                a % d + k == d,
        ;
        lemma_fundamental_div_mod_converse(a + k, d, a / d + 1, 0);
    }
}

/// Going on by `j` whole stretches of `d`: the count goes up by `j` and the
/// place within the stretch stays.
pub proof fn lemma_jump(a: int, d: int, j: int)
    requires
        0 <= a,
        0 < d,
        0 <= j,
    ensures
        (a + j * d) / d == a / d + j,
        (a + j * d) % d == a % d,
{
    lemma_fundamental_div_mod(a, d);
    lemma_mod_bound(a, d);
    assert(a + j * d == (a / d + j) * d + a % d) by (nonlinear_arith)
        requires
            a == d * (a / d) + a % d,
    ;
    lemma_fundamental_div_mod_converse(a + j * d, d, a / d + j, a % d);
}

/// What is left after the whole stretches of `d` were taken from `a`.
pub proof fn lemma_rest(a: int, d: int)
    requires
        0 <= a,
        0 < d,
    ensures
        0 <= a / d,
        (a / d) * d <= a,
        a - (a / d) * d == a % d,
        0 <= a % d < d,
        a / d <= a,
        a / d == 0 ==> a < d,
{
    lemma_fundamental_div_mod(a, d);
    lemma_mod_bound(a, d);
    assert((a / d) * d == d * (a / d)) by (nonlinear_arith);
    assert(0 <= a / d <= a) by (nonlinear_arith)
        requires
            a == d * (a / d) + a % d,
            0 <= a % d < d,
            0 <= a,
            0 < d,
    ;
    if a / d == 0 {
        assert((a / d) * d == 0);
    }
}

/// The list with the write, if there is one.
pub open spec fn listed(upload: Option<Upload>) -> Seq<Upload> {
    match upload {
        Some(u) => seq![u],
        None => Seq::empty(),
    }
}

/// One placed write covers the bytes that it takes.
pub proof fn lemma_covers_one(layout: DrawOctree, upload: Upload, from: int, to: int)
    requires
        upload.spec_offset() == from,
        upload.placed(layout),
        from + upload.spec_size(layout) == to,
    ensures
        covers(layout, listed(Some(upload)), from, to),
{
    let one = listed(Some(upload));
    assert(one.drop_first() =~= Seq::<Upload>::empty());
    assert(covers(layout, one.drop_first(), to, to));
}

/// No write covers no bytes.
pub proof fn lemma_covers_none(layout: DrawOctree, at: int)
    ensures
        covers(layout, listed(None), at, at),
{
}

/// Writes that cover one stretch and writes that cover the next cover both.
pub proof fn lemma_covers_add(
    layout: DrawOctree,
    first: Seq<Upload>,
    then: Seq<Upload>,
    from: int,
    mid: int,
    to: int,
)
    requires
        covers(layout, first, from, mid),
        covers(layout, then, mid, to),
    ensures
        covers(layout, first + then, from, to),
    decreases first.len(),
{
    if first.len() == 0 {
        assert(first + then =~= then);
    } else {
        assert((first + then).drop_first() =~= first.drop_first() + then);
        lemma_covers_add(
            layout,
            first.drop_first(),
            then,
            from + first[0].spec_size(layout),
            mid,
            to,
        );
    }
}

impl DrawOctree {
    /// The cursor stands where the row and the page that it names say, the
    /// nodes that are left end at `end`, and the phases that are over have
    /// left what they should.
    pub open spec fn ready(&self, c: Cursor, end: int, phase: int) -> bool {
        let w = self.page_width as int;
        let h = self.page_height as int;
        let here = c.row == self.spec_row(c.node as int) && c.page == self.spec_page(c.node as int);
        &&& c.node + c.left == end
        &&& end <= u32::MAX
        &&& phase == 0 ==> here
        &&& phase >= 1 ==> c.left == 0 || (here && c.node as int % w == 0)
        &&& phase >= 2 ==> c.left == 0 || c.row == 0 || c.left < w
        &&& phase >= 3 ==> c.left < w * h
        &&& phase >= 4 ==> c.left < w
    }

    /// The first phase: from a start inside a row, up to the end of the row.
    pub open spec fn spec_first_row(&self, c: Cursor) -> (Cursor, Option<Upload>) {
        let w = self.page_width as int;
        let x = c.node as int % w;
        if x > 0 {
            let count = spec_min(w - x, c.left as int);
            (
                Cursor {
                    node: (c.node + count) as u64,
                    left: (c.left - count) as u64,
                    row: if c.row < self.page_height - 1 {
                        (c.row + 1) as u64
                    } else {
                        0
                    },
                    page: if c.row < self.page_height - 1 {
                        c.page
                    } else {
                        (c.page + 1) as u64
                    },
                },
                Some(
                    Upload::Row {
                        x: x as u32,
                        row: c.row as u32,
                        page: c.page as u32,
                        offset: (c.node * 8) as u64,
                        size: (count * 8) as u64,
                    },
                ),
            )
        } else {
            (c, None)
        }
    }

    /// The second phase: from a start inside a page, whole rows up to the
    /// end of the page.
    pub open spec fn spec_first_rows(&self, c: Cursor) -> (Cursor, Option<Upload>) {
        let w = self.page_width as int;
        let h = self.page_height as int;
        let in_page = c.row as int % h;
        let rows = spec_min(h - in_page, c.left as int / w);
        if in_page > 0 && rows > 0 {
            (
                Cursor {
                    node: (c.node + rows * w) as u64,
                    left: (c.left - rows * w) as u64,
                    row: if c.row + rows < h {
                        (c.row + rows) as u64
                    } else {
                        0
                    },
                    page: if c.row + rows < h {
                        c.page
                    } else {
                        (c.page + 1) as u64
                    },
                },
                Some(
                    Upload::Rows {
                        row: in_page as u32,
                        rows: rows as u32,
                        page: c.page as u32,
                        offset: (c.node * 8) as u64,
                    },
                ),
            )
        } else {
            (c, None)
        }
    }

    /// The third phase: whole pages.
    pub open spec fn spec_full_pages(&self, c: Cursor) -> (Cursor, Option<Upload>) {
        let per_page = self.page_width as int * self.page_height as int;
        let pages = c.left as int / per_page;
        if pages > 0 {
            (
                Cursor {
                    node: (c.node + pages * per_page) as u64,
                    left: (c.left - pages * per_page) as u64,
                    row: c.row,
                    page: (c.page + pages) as u64,
                },
                Some(
                    Upload::Pages {
                        page: c.page as u32,
                        pages: pages as u32,
                        offset: (c.node * 8) as u64,
                    },
                ),
            )
        } else {
            (c, None)
        }
    }

    /// The fourth phase: whole rows at the top of the last page.
    pub open spec fn spec_last_rows(&self, c: Cursor) -> (Cursor, Option<Upload>) {
        let w = self.page_width as int;
        let rows = c.left as int / w;
        if rows > 0 {
            (
                Cursor {
                    node: (c.node + rows * w) as u64,
                    left: (c.left - rows * w) as u64,
                    row: (c.row + rows) as u64,
                    page: c.page,
                },
                Some(
                    Upload::Rows {
                        row: 0,
                        rows: rows as u32,
                        page: c.page as u32,
                        offset: (c.node * 8) as u64,
                    },
                ),
            )
        } else {
            (c, None)
        }
    }

    /// The fifth phase: what is left, from the start of a row.
    pub open spec fn spec_last_row(&self, c: Cursor) -> Option<Upload> {
        if c.left > 0 {
            Some(
                Upload::Row {
                    x: 0,
                    row: c.row as u32,
                    page: c.page as u32,
                    offset: (c.node * 8) as u64,
                    size: (c.left * 8) as u64,
                },
            )
        } else {
            None
        }
    }

    /// The cursor at the start of a range of nodes.
    pub open spec fn spec_start(&self, segment: Segment) -> Cursor {
        Cursor {
            node: segment.start as u64,
            left: segment.len as u64,
            row: self.spec_row(segment.start as int) as u64,
            page: self.spec_page(segment.start as int) as u64,
        }
    }

    /// The writes that a range of nodes is cut into: at most one of each of
    /// the five phases, in their order.
    pub open spec fn spec_plan(&self, segment: Segment) -> Seq<Upload> {
        let first = self.spec_first_row(self.spec_start(segment));
        let second = self.spec_first_rows(first.0);
        let third = self.spec_full_pages(second.0);
        let fourth = self.spec_last_rows(third.0);
        listed(first.1) + listed(second.1) + listed(third.1) + listed(fourth.1) + listed(
            self.spec_last_row(fourth.0),
        )
    }

    fn write_first_row(&self, c: Cursor, Ghost(end): Ghost<int>) -> (next: (Cursor, Option<Upload>))
        requires
            self.wf(),
            self.ready(c, end, 0),
        ensures
            next == self.spec_first_row(c),
            self.ready(next.0, end, 1),
            covers(*self, listed(next.1), c.node * 8, next.0.node * 8),
    {
        let w = self.page_width as u64;
        let h = self.page_height as u64;
        let x = c.node % w;
        if x > 0 {
            let count = if w - x <= c.left {
                w - x
            } else {
                c.left
            };
            proof {
                lemma_rest(c.node as int, w as int);
                lemma_rest(c.node as int / w as int, h as int);
                lemma_advance(c.node as int, w as int, count as int);
                lemma_advance(c.node as int / w as int, h as int, 1);
                assert((c.node * 8) as int / 8 == c.node);
                assert((count * 8) as int / 8 == count);
            }
            let upload = Upload::Row {
                x: x as u32,
                row: c.row as u32,
                page: c.page as u32,
                offset: c.node * 8,
                size: count * 8,
            };
            let next = if c.row < h - 1 {
                Cursor { node: c.node + count, left: c.left - count, row: c.row + 1, page: c.page }
            } else {
                Cursor { node: c.node + count, left: c.left - count, row: 0, page: c.page + 1 }
            };
            proof {
                assert(upload.placed(*self));
                lemma_covers_one(*self, upload, c.node * 8, next.node * 8);
            }
            (next, Some(upload))
        } else {
            proof {
                lemma_covers_none(*self, c.node * 8);
            }
            (c, None)
        }
    }

    fn write_first_rows(&self, c: Cursor, Ghost(end): Ghost<int>) -> (next: (Cursor, Option<Upload>))
        requires
            self.wf(),
            self.ready(c, end, 1),
        ensures
            next == self.spec_first_rows(c),
            self.ready(next.0, end, 2),
            covers(*self, listed(next.1), c.node * 8, next.0.node * 8),
    {
        let w = self.page_width as u64;
        let h = self.page_height as u64;
        let in_page = c.row % h;
        let whole = c.left / w;
        let rows = if h - in_page <= whole {
            h - in_page
        } else {
            whole
        };
        proof {
            lemma_rest(c.left as int, w as int);
            lemma_rest(c.node as int, w as int);
            lemma_rest(c.node as int / w as int, h as int);
            lemma_rest(c.row as int, h as int);
            if c.left > 0 {
                vstd::arithmetic::div_mod::lemma_small_mod(c.row as nat, h as nat);
            }
        }
        if in_page > 0 && rows > 0 {
            proof {
                assert(c.left > 0);
                assert(in_page == c.row);
                assert(rows * w <= c.left) by (nonlinear_arith)
                    requires
                        rows <= whole,
                        whole * w <= c.left,
                        0 <= w,
                ;
                assert(rows == whole ==> c.left - rows * w < w);
                lemma_jump(c.node as int, w as int, rows as int);
                lemma_advance(c.node as int / w as int, h as int, rows as int);
                assert((c.node * 8) as int / 8 == c.node);
                assert(rows * w * 8 == (rows * w) * 8) by (nonlinear_arith);
            }
            let upload = Upload::Rows {
                row: in_page as u32,
                rows: rows as u32,
                page: c.page as u32,
                offset: c.node * 8,
            };
            let next = if c.row + rows < h {
                Cursor {
                    node: c.node + rows * w,
                    left: c.left - rows * w,
                    row: c.row + rows,
                    page: c.page,
                }
            } else {
                Cursor { node: c.node + rows * w, left: c.left - rows * w, row: 0, page: c.page + 1 }
            };
            proof {
                assert(upload.placed(*self));
                lemma_covers_one(*self, upload, c.node * 8, next.node * 8);
            }
            (next, Some(upload))
        } else {
            proof {
                lemma_covers_none(*self, c.node * 8);
                if c.left > 0 && in_page > 0 {
                    assert(whole == 0);
                }
            }
            (c, None)
        }
    }

    fn write_full_pages(&self, c: Cursor, Ghost(end): Ghost<int>) -> (next: (Cursor, Option<Upload>))
        requires
            self.wf(),
            self.ready(c, end, 2),
        ensures
            next == self.spec_full_pages(c),
            self.ready(next.0, end, 3),
            covers(*self, listed(next.1), c.node * 8, next.0.node * 8),
    {
        let w = self.page_width as u64;
        let h = self.page_height as u64;
        let per_page = self.page_size() as u64;
        let pages = c.left / per_page;
        proof {
            lemma_rest(c.left as int, per_page as int);
            lemma_rest(c.node as int, w as int);
            lemma_rest(c.node as int / w as int, h as int);
            assert(w <= per_page) by (nonlinear_arith)
                requires
                    per_page == w * h,
                    1 <= h,
                    0 <= w,
            ;
        }
        if pages > 0 {
            proof {
                assert(pages * per_page == (pages * h) * w) by (nonlinear_arith)
                    requires
                        per_page == w * h,
                ;
                assert(0 <= pages * h) by (nonlinear_arith)
                    requires
                        0 <= pages,
                        0 <= h,
                ;
                lemma_jump(c.node as int, w as int, pages * h);
                lemma_jump(c.node as int / w as int, h as int, pages as int);
                assert((c.node * 8) as int / 8 == c.node);
                assert(pages * self.page_width * self.page_height * 8 == (pages * per_page) * 8)
                    by (nonlinear_arith)
                    requires
                        per_page == self.page_width * self.page_height,
                ;
                assert(c.left >= per_page) by (nonlinear_arith)
                    requires
                        pages * per_page <= c.left,
                        pages >= 1,
                        per_page >= 0,
                ;
                assert(c.row == 0);
            }
            let upload = Upload::Pages { page: c.page as u32, pages: pages as u32, offset: c.node * 8 };
            let next = Cursor {
                node: c.node + pages * per_page,
                left: c.left - pages * per_page,
                row: c.row,
                page: c.page + pages,
            };
            proof {
                assert(upload.placed(*self));
                lemma_covers_one(*self, upload, c.node * 8, next.node * 8);
            }
            (next, Some(upload))
        } else {
            proof {
                lemma_covers_none(*self, c.node * 8);
            }
            (c, None)
        }
    }

    fn write_last_rows(&self, c: Cursor, Ghost(end): Ghost<int>) -> (next: (Cursor, Option<Upload>))
        requires
            self.wf(),
            self.ready(c, end, 3),
        ensures
            next == self.spec_last_rows(c),
            self.ready(next.0, end, 4),
            covers(*self, listed(next.1), c.node * 8, next.0.node * 8),
    {
        let w = self.page_width as u64;
        let h = self.page_height as u64;
        let rows = c.left / w;
        proof {
            lemma_rest(c.left as int, w as int);
            lemma_rest(c.node as int, w as int);
            lemma_rest(c.node as int / w as int, h as int);
        }
        if rows > 0 {
            proof {
                assert(rows < h) by (nonlinear_arith)
                    requires
                        rows * w <= c.left,
                        c.left < w * h,
                        0 < w,
                ;
                assert(c.left >= w) by (nonlinear_arith)
                    requires
                        rows * w <= c.left,
                        rows >= 1,
                        w >= 0,
                ;
                assert(c.row == 0);
                lemma_jump(c.node as int, w as int, rows as int);
                lemma_advance(c.node as int / w as int, h as int, rows as int);
                assert((c.node * 8) as int / 8 == c.node);
                assert(rows * w * 8 == (rows * w) * 8) by (nonlinear_arith);
            }
            let upload = Upload::Rows { row: 0, rows: rows as u32, page: c.page as u32, offset: c.node * 8 };
            let next = Cursor {
                node: c.node + rows * w,
                left: c.left - rows * w,
                row: c.row + rows,
                page: c.page,
            };
            proof {
                assert(upload.placed(*self));
                lemma_covers_one(*self, upload, c.node * 8, next.node * 8);
            }
            (next, Some(upload))
        } else {
            proof {
                lemma_covers_none(*self, c.node * 8);
            }
            (c, None)
        }
    }

    fn write_last_row(&self, c: Cursor, Ghost(end): Ghost<int>) -> (upload: Option<Upload>)
        requires
            self.wf(),
            self.ready(c, end, 4),
        ensures
            upload == self.spec_last_row(c),
            covers(*self, listed(upload), c.node * 8, end * 8),
    {
        if c.left > 0 {
            proof {
                lemma_rest(c.node as int, self.page_width as int);
                lemma_rest(c.node as int / self.page_width as int, self.page_height as int);
                assert((c.node * 8) as int / 8 == c.node);
                assert((c.left * 8) as int / 8 == c.left);
            }
            let upload = Upload::Row {
                x: 0,
                row: c.row as u32,
                page: c.page as u32,
                offset: c.node * 8,
                size: c.left * 8,
            };
            proof {
                assert(upload.placed(*self));
                lemma_covers_one(*self, upload, c.node * 8, end * 8);
            }
            Some(upload)
        } else {
            proof {
                lemma_covers_none(*self, c.node * 8);
            }
            None
        }
    }

    /// Cuts a range of nodes into writes to the texture: at most one for each
    /// of the five phases, each as large as its phase allows. The writes
    /// follow each other through the bytes of the range without a gap, and
    /// each begins at the texel of its first node.
    pub fn write_segment(&self, segment: Segment) -> (uploads: Vec<Upload>)
        requires
            self.wf(),
            segment.spec_end() <= u32::MAX,
        ensures
            uploads@ == self.spec_plan(segment),
            covers(*self, uploads@, segment.start * 8, segment.spec_end() * 8),
            uploads.len() <= 5,
    {
        let w = self.page_width as u64;
        let h = self.page_height as u64;
        let node = segment.start as u64;
        let global_row = node / w;
        let ghost end = segment.spec_end();
        let start = Cursor { node, left: segment.len as u64, row: global_row % h, page: global_row / h };
        let first = self.write_first_row(start, Ghost(end));
        let second = self.write_first_rows(first.0, Ghost(end));
        let third = self.write_full_pages(second.0, Ghost(end));
        let fourth = self.write_last_rows(third.0, Ghost(end));
        let fifth = self.write_last_row(fourth.0, Ghost(end));
        let mut uploads: Vec<Upload> = Vec::new();
        proof {
            assert(uploads@ =~= Seq::<Upload>::empty());
        }
        push_upload(&mut uploads, first.1);
        push_upload(&mut uploads, second.1);
        push_upload(&mut uploads, third.1);
        push_upload(&mut uploads, fourth.1);
        push_upload(&mut uploads, fifth);
        proof {
            let a = listed(first.1);
            let b = listed(second.1);
            let c = listed(third.1);
            let d = listed(fourth.1);
            let e = listed(fifth);
            lemma_covers_add(*self, a, b, start.node * 8, first.0.node * 8, second.0.node * 8);
            lemma_covers_add(*self, a + b, c, start.node * 8, second.0.node * 8, third.0.node * 8);
            lemma_covers_add(*self, a + b + c, d, start.node * 8, third.0.node * 8, fourth.0.node * 8);
            lemma_covers_add(*self, a + b + c + d, e, start.node * 8, fourth.0.node * 8, end * 8);
            assert(uploads@ =~= a + b + c + d + e);
        }
        uploads
    }
}

/// Adds the write to the list, if there is one.
fn push_upload(uploads: &mut Vec<Upload>, upload: Option<Upload>)
    ensures
        final(uploads)@ == old(uploads)@ + listed(upload),
{
    match upload {
        Some(u) => {
            uploads.push(u);
            assert(uploads@ =~= old(uploads)@ + seq![u]);
        },
        None => {
            assert(uploads@ =~= old(uploads)@ + Seq::<Upload>::empty());
        },
    }
}

impl DrawOctree {
    /// How far the growing can still go, first in height, then in pages.
    pub open spec fn spec_short(&self) -> (int, int) {
        (
            if self.page_height < self.page_width {
                self.page_width - self.page_height
            } else {
                0
            },
            u32::MAX - self.page_count,
        )
    }

    /// The texture grown to hold `size` nodes: while it is too small, its
    /// pages double in height until they are as high as wide, and after that
    /// one page is added at a time.
    pub open spec fn spec_resized(self, size: int) -> DrawOctree
        decreases self.spec_short().0, self.spec_short().1,
    {
        if !self.wf() || self.spec_size() >= size || self.page_count == u32::MAX {
            self
        } else if self.page_height < self.page_width {
            (DrawOctree { page_height: (self.page_height * 2) as u32, ..self }).spec_resized(size)
        } else {
            (DrawOctree { page_count: (self.page_count + 1) as u32, ..self }).spec_resized(size)
        }
    }

    /// A texture that grew is well formed and large enough, as wide as
    /// before and no lower, and every node that it held lies where it lay.
    pub proof fn lemma_resized(self, size: int)
        requires
            self.wf(),
            size <= u32::MAX,
        ensures
            self.spec_resized(size).wf(),
            self.spec_resized(size).spec_size() >= size,
            self.spec_resized(size).spec_size() >= self.spec_size(),
            self.spec_resized(size).page_width == self.page_width,
            self.spec_resized(size).page_height >= self.page_height,
            self.spec_resized(size).page_count >= self.page_count,
            self.spec_resized(size).page_height == self.page_height || self.page_count == 1,
        decreases self.spec_short().0, self.spec_short().1,
    {
        let w = self.page_width as int;
        let h = self.page_height as int;
        let c = self.page_count as int;
        if self.spec_size() >= size {
        } else {
            assert(1 <= w * h) by (nonlinear_arith)
                requires
                    1 <= w,
                    1 <= h,
            ;
            assert(c <= w * h * c) by (nonlinear_arith)
                requires
                    1 <= w * h,
                    1 <= c,
            ;
            let next = if h < w {
                DrawOctree { page_height: (h * 2) as u32, ..self }
            } else {
                DrawOctree { page_count: (c + 1) as u32, ..self }
            };
            if h < w {
                assert(w * (h * 2) * c >= w * h * c) by (nonlinear_arith)
                    requires
                        0 <= w,
                        0 <= h,
                        0 <= c,
                ;
            } else {
                assert(w * h * (c + 1) == w * h * c + w * h) by (nonlinear_arith);
            }
            next.lemma_resized(size);
        }
    }

    /// Every node that the texture held before it grew lies where it lay: in
    /// the same texel of the same row of the same page.
    pub proof fn lemma_resized_keeps(self, size: int, n: int)
        requires
            self.wf(),
            size <= u32::MAX,
            0 <= n < self.spec_size(),
        ensures
            self.spec_resized(size).spec_x(n) == self.spec_x(n),
            self.spec_resized(size).spec_row(n) == self.spec_row(n),
            self.spec_resized(size).spec_page(n) == self.spec_page(n),
    {
        let w = self.page_width as int;
        let h = self.page_height as int;
        let last = self.spec_resized(size);
        let tall = last.page_height as int;
        self.lemma_resized(size);
        if tall != h {
            assert(w * h * self.page_count == w * h) by (nonlinear_arith)
                requires
                    self.page_count == 1,
            ;
            lemma_rest(n, w);
            assert(n / w < h) by (nonlinear_arith)
                requires
                    n < w * h,
                    (n / w) * w <= n,
                    0 < w,
            ;
            vstd::arithmetic::div_mod::lemma_small_mod((n / w) as nat, h as nat);
            vstd::arithmetic::div_mod::lemma_small_mod((n / w) as nat, tall as nat);
            vstd::arithmetic::div_mod::lemma_basic_div(n / w, h);
            vstd::arithmetic::div_mod::lemma_basic_div(n / w, tall);
        }
    }

    /// Grows the texture to hold `size` nodes. Says whether it grew, and if
    /// so how high its pages were and how many: that part of the old texture
    /// is to be copied into the new one, where every node keeps its place.
    pub fn resize(&mut self, size: u64) -> (grown: Option<(u32, u32)>)
        requires
            old(self).wf(),
            size <= u32::MAX,
        ensures
            *final(self) == old(self).spec_resized(size as int),
            final(self).wf(),
            final(self).spec_size() >= size,
            grown == if old(self).spec_size() >= size {
                None
            } else {
                Some((old(self).page_height, old(self).page_count))
            },
    {
        if self.size() >= size {
            return None;
        }
        let old_page_height = self.page_height;
        let old_page_count = self.page_count;
        while self.size() < size
            invariant
                self.wf(),
                size <= u32::MAX,
                self.spec_resized(size as int) == old(self).spec_resized(size as int),
            decreases self.spec_short().0, self.spec_short().1,
        {
            proof {
                let w = self.page_width as int;
                let h = self.page_height as int;
                let c = self.page_count as int;
                assert(1 <= w * h) by (nonlinear_arith)
                    requires
                        1 <= w,
                        1 <= h,
                ;
                assert(c <= w * h * c) by (nonlinear_arith)
                    requires
                        1 <= w * h,
                        1 <= c,
                ;
                assert(w * h * (c + 1) == w * h * c + w * h) by (nonlinear_arith);
            }
            if self.page_height < self.page_width {
                self.page_height *= 2;
            } else {
                self.page_count += 1;
            }
        }
        proof {
            old(self).lemma_resized(size as int);
        }
        Some((old_page_height, old_page_count))
    }

    /// The writes that a list of ranges is cut into, range after range.
    pub open spec fn spec_plans(&self, segments: Seq<Segment>) -> Seq<Upload>
        decreases segments.len(),
    {
        if segments.len() == 0 {
            Seq::empty()
        } else {
            self.spec_plans(segments.drop_last()) + self.spec_plan(segments.last())
        }
    }

    /// Cuts every recorded range of the octree into writes to the texture.
    pub fn write_dynamic(&self, octree: &DynamicOctree) -> (uploads: Vec<Upload>)
        requires
            self.wf(),
            segments_ok(octree.record()),
            octree.in_pool(),
        ensures
            uploads@ == self.spec_plans(octree.record()),
    {
        let segments = octree.segments();
        let mut uploads: Vec<Upload> = Vec::new();
        let mut i: usize = 0;
        proof {
            assert(segments@.take(0) =~= Seq::<Segment>::empty());
        }
        while i < segments.len()
            invariant
                0 <= i <= segments.len(),
                self.wf(),
                segments@ == octree.record(),
                segments_ok(segments@),
                uploads@ == self.spec_plans(segments@.take(i as int)),
            decreases segments.len() - i,
        {
            let mut plan = self.write_segment(segments[i]);
            proof {
                assert(segments@.take(i + 1).drop_last() =~= segments@.take(i as int));
                assert(segments@.take(i + 1).last() == segments@[i as int]);
            }
            uploads.append(&mut plan);
            i += 1;
        }
        proof {
            assert(segments@.take(i as int) =~= segments@);
        }
        uploads
    }
}

impl DrawOctree {
    /// In a texture 4096 nodes wide that is no higher than wide, the texel of
    /// a node is read off the bits of its index: twelve bits for the texel in
    /// the row, twelve for the row, and the rest for the page.
    pub proof fn lemma_texel_bits(self, n: u32)
        requires
            self.wf(),
            self.page_width == 4096,
            self.page_height <= 4096,
            n < self.spec_size(),
        ensures
            self.spec_x(n as int) == n & 0xfff,
            self.spec_row(n as int) == (n >> 12) & 0xfff,
            self.spec_page(n as int) == n >> 24,
    {
        let h = self.page_height as int;
        assert(n & 0xfff == n % 4096 && n >> 12 == n / 4096 && (n >> 12) & 0xfff == (n / 4096) % 4096
            && n >> 24 == (n / 4096) / 4096) by (bit_vector);
        if h < 4096 {
            assert(4096 * h * self.page_count == 4096 * h) by (nonlinear_arith)
                requires
                    self.page_count == 1,
            ;
            let row = n as int / 4096;
            assert(row < h);
            vstd::arithmetic::div_mod::lemma_small_mod(row as nat, h as nat);
            vstd::arithmetic::div_mod::lemma_small_mod(row as nat, 4096);
            vstd::arithmetic::div_mod::lemma_basic_div(row, h);
            vstd::arithmetic::div_mod::lemma_basic_div(row, 4096);
        }
    }
}

} // verus!
