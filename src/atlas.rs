use vstd::prelude::*;
use vstd::utf8::encode_utf8;

use crate::format::{encode_atlas, encode_spec, record_views, AtlasFormatError, AtlasRecord, RecordView};

verus! {

/// Decoded RGBA8 pixels: `height` rows of `4 * width` bytes each.
pub struct Pixels {
    pub width: u32,
    pub height: u32,
    pub rows: Vec<Vec<u8>>,
}

pub struct PixelsView {
    pub width: u32,
    pub height: u32,
    pub rows: Seq<Seq<u8>>,
}

impl View for Pixels {
    type V = PixelsView;

    open spec fn view(&self) -> PixelsView {
        PixelsView { width: self.width, height: self.height, rows: self.rows@.map_values(|r: Vec<u8>| r@) }
    }
}

pub open spec fn pixels_wf(p: PixelsView) -> bool {
    &&& p.rows.len() == p.height
    &&& forall|y: int| 0 <= y < p.rows.len() ==> (#[trigger] p.rows[y]).len() == 4 * p.width
}

/// A fully transparent image.
pub open spec fn blank(width: u32, height: u32) -> PixelsView {
    PixelsView {
        width,
        height,
        rows: Seq::new(height as nat, |y: int| Seq::new((4 * width) as nat, |i: int| 0u8)),
    }
}

/// `row` with the bytes from `at` on replaced by `s`.
pub open spec fn splice(row: Seq<u8>, at: int, s: Seq<u8>) -> Seq<u8> {
    row.take(at) + s + row.skip(at + s.len())
}

/// `dest` with `src` copied over it, pixel for pixel, with its top-left corner at `(x, y)`.
pub open spec fn blit_view(dest: PixelsView, src: PixelsView, x: int, y: int) -> PixelsView {
    PixelsView {
        width: dest.width,
        height: dest.height,
        rows: Seq::new(
            dest.rows.len(),
            |r: int|
                if y <= r < y + src.rows.len() {
                    splice(dest.rows[r], 4 * x, src.rows[r - y])
                } else {
                    dest.rows[r]
                },
        ),
    }
}

fn push_range(out: &mut Vec<u8>, src: &Vec<u8>, from: usize, to: usize)
    requires
        from <= to <= src@.len(),
    ensures
        final(out)@ == old(out)@ + src@.subrange(from as int, to as int),
{
    let mut k: usize = from;
    while k < to
        invariant
            from <= k <= to,
            to <= src@.len(),
            out@ == old(out)@ + src@.subrange(from as int, k as int),
        decreases to - k,
    {
        out.push(src[k]);
        k = k + 1;
        proof {
            assert(out@ =~= old(out)@ + src@.subrange(from as int, k as int));
        }
    }
}

fn copy_bytes(src: &Vec<u8>) -> (r: Vec<u8>)
    ensures
        r@ == src@,
{
    let mut r: Vec<u8> = Vec::new();
    push_range(&mut r, src, 0, src.len());
    assert(r@ =~= src@);
    r
}

impl Pixels {
    /// A transparent image of the given size.
    pub fn new(width: u32, height: u32) -> (r: Pixels)
        requires
            4 * width <= usize::MAX,
        ensures
            r@ == blank(width, height),
    {
        let row_len = 4 * (width as usize);
        let mut rows: Vec<Vec<u8>> = Vec::new();
        let mut y: u32 = 0;
        while y < height
            invariant
                y <= height,
                row_len == 4 * width,
                rows@.map_values(|r: Vec<u8>| r@) == blank(width, height).rows.take(y as int),
            decreases height - y,
        {
            let mut row: Vec<u8> = Vec::new();
            let mut i: usize = 0;
            while i < row_len
                invariant
                    i <= row_len,
                    row@ == Seq::new(i as nat, |k: int| 0u8),
                decreases row_len - i,
            {
                row.push(0u8);
                i = i + 1;
                proof {
                    assert(row@ =~= Seq::new(i as nat, |k: int| 0u8));
                }
            }
            let ghost before = rows@;
            rows.push(row);
            y = y + 1;
            proof {
                assert(rows@.map_values(|r: Vec<u8>| r@) =~= before.map_values(|r: Vec<u8>| r@).push(row@));
                assert(rows@.map_values(|r: Vec<u8>| r@) =~= blank(width, height).rows.take(y as int));
            }
        }
        proof {
            assert(rows@.map_values(|r: Vec<u8>| r@) =~= blank(width, height).rows);
        }
        Pixels { width, height, rows }
    }

    pub fn copy(&self) -> (r: Pixels)
        ensures
            r@ == self@,
    {
        let mut rows: Vec<Vec<u8>> = Vec::new();
        let mut y: usize = 0;
        while y < self.rows.len()
            invariant
                y <= self.rows@.len(),
                rows@.map_values(|r: Vec<u8>| r@) == self@.rows.take(y as int),
            decreases self.rows@.len() - y,
        {
            let ghost before = rows@;
            rows.push(copy_bytes(&self.rows[y]));
            y = y + 1;
            proof {
                assert(rows@.map_values(|r: Vec<u8>| r@) =~= before.map_values(|r: Vec<u8>| r@).push(
                    self@.rows[y as int - 1],
                ));
                assert(rows@.map_values(|r: Vec<u8>| r@) =~= self@.rows.take(y as int));
            }
        }
        proof {
            assert(rows@.map_values(|r: Vec<u8>| r@) =~= self@.rows);
        }
        Pixels { width: self.width, height: self.height, rows }
    }

    /// Whether every row has `4 * width` bytes and there are `height` rows.
    pub fn is_well_formed(&self) -> (r: bool)
        ensures
            r == pixels_wf(self@),
    {
        if self.rows.len() != self.height as usize {
            return false;
        }
        let mut y: usize = 0;
        while y < self.rows.len()
            invariant
                y <= self.rows@.len(),
                self.rows@.len() == self.height,
                forall|k: int| 0 <= k < y ==> (#[trigger] self@.rows[k]).len() == 4 * self.width,
            decreases self.rows@.len() - y,
        {
            if self.rows[y].len() as u64 != 4 * (self.width as u64) {
                proof {
                    assert(self@.rows[y as int] == self.rows@[y as int]@);
                }
                return false;
            }
            proof {
                assert(self@.rows[y as int] == self.rows@[y as int]@);
            }
            y = y + 1;
        }
        true
    }

    /// Copies `src` over this image with its top-left corner at `(x, y)`: no blending,
    /// scaling or rotation.
    pub fn blit(&mut self, src: &Pixels, x: u32, y: u32)
        requires
            pixels_wf(old(self)@),
            pixels_wf(src@),
            x + src@.width <= old(self)@.width,
            y + src@.height <= old(self)@.height,
        ensures
            final(self)@ == blit_view(old(self)@, src@, x as int, y as int),
            pixels_wf(final(self)@),
    {
        let ghost d0 = self@;
        let mut j: usize = 0;
        while j < src.rows.len()
            invariant
                j <= src@.rows.len(),
                pixels_wf(src@),
                pixels_wf(d0),
                x + src@.width <= d0.width,
                y + src@.height <= d0.height,
                self.width == d0.width,
                self.height == d0.height,
                self@.rows.len() == d0.rows.len(),
                forall|r: int|
                    0 <= r < d0.rows.len() ==> #[trigger] self@.rows[r] == if y <= r < y + j {
                        splice(d0.rows[r], 4 * x, src@.rows[r - y])
                    } else {
                        d0.rows[r]
                    },
            decreases src@.rows.len() - j,
        {
            let ty = y as usize + j;
            let srow = &src.rows[j];
            let old_row = &self.rows[ty];
            let row_len = old_row.len();
            proof {
                assert(self@.rows[ty as int] == old_row@);
                assert(old_row@ == d0.rows[ty as int]);
                assert(row_len == 4 * d0.width);
            }
            let at = 4 * (x as usize);
            proof {
                assert(src@.rows[j as int] == srow@);
                assert(self@.rows[ty as int] == old_row@);
                assert(old_row@ == d0.rows[ty as int]);
                assert(old_row@.len() == 4 * d0.width);
            }
            let mut row: Vec<u8> = Vec::new();
            push_range(&mut row, old_row, 0, at);
            push_range(&mut row, srow, 0, srow.len());
            push_range(&mut row, old_row, at + srow.len(), old_row.len());
            proof {
                assert(row@ =~= splice(d0.rows[ty as int], 4 * x, src@.rows[j as int]));
            }
            let ghost before = self.rows@;
            let ghost v0 = self@;
            self.rows[ty] = row;
            j = j + 1;
            proof {
                assert forall|r: int| 0 <= r < d0.rows.len() implies #[trigger] self@.rows[r] == if y <= r < y + j {
                    splice(d0.rows[r], 4 * x, src@.rows[r - y])
                } else {
                    d0.rows[r]
                } by {
                    if r != ty {
                        assert(self.rows@[r] == before[r]);
                        assert(self@.rows[r] == v0.rows[r]);
                    } else {
                        assert(self@.rows[r] == row@);
                    }
                }
            }
        }
        proof {
            assert(self@.rows =~= blit_view(d0, src@, x as int, y as int).rows);
        }
    }
}

/// One source image within an atlas: its file name, pixels, position and size.
pub struct AtlasEntry {
    pub filename: String,
    pub image: Option<Pixels>,
    pub x: u32,
    pub y: u32,
    pub width: u32,
    pub height: u32,
}

pub struct EntryView {
    pub filename: Seq<char>,
    pub image: Option<PixelsView>,
    pub x: u32,
    pub y: u32,
    pub width: u32,
    pub height: u32,
}

impl View for AtlasEntry {
    type V = EntryView;

    open spec fn view(&self) -> EntryView {
        EntryView {
            filename: self.filename@,
            image: match self.image {
                Some(p) => Some(p@),
                None => None,
            },
            x: self.x,
            y: self.y,
            width: self.width,
            height: self.height,
        }
    }
}

/// The same entry moved to `(x, y)`.
pub open spec fn moved_to(e: EntryView, x: u32, y: u32) -> EntryView {
    EntryView { filename: e.filename, image: e.image, x, y, width: e.width, height: e.height }
}

/// The final component of a path, as `std::path::Path::file_name` gives it.
pub uninterp spec fn file_name_of(path: Seq<char>) -> Option<Seq<char>>;

/// The final component of a path without its extension, as `std::path::Path::file_stem` gives it.
pub uninterp spec fn file_stem_of(path: Seq<char>) -> Option<Seq<char>>;

/// Relies on std::path::Path::file_name: the last component of `path`, when there is one.
#[verifier::external_body]
fn path_file_name(path: &str) -> (r: Option<String>)
    ensures
        match r {
            Some(s) => file_name_of(path@) == Some(s@),
            None => file_name_of(path@) is None,
        },
{
    std::path::Path::new(path).file_name().and_then(|s| s.to_str()).map(|s| s.to_string())
}

/// Relies on std::path::Path::file_stem: the last component of `path` without its extension.
#[verifier::external_body]
fn path_file_stem(path: &str) -> (r: Option<String>)
    ensures
        match r {
            Some(s) => file_stem_of(path@) == Some(s@),
            None => file_stem_of(path@) is None,
        },
{
    std::path::Path::new(path).file_stem().and_then(|s| s.to_str()).map(|s| s.to_string())
}

/// The ASCII decimal digits of `n`.
pub open spec fn decimal(n: nat) -> Seq<u8>
    decreases n,
{
    if n < 10 {
        seq![(48 + n) as u8]
    } else {
        decimal(n / 10).push((48 + n % 10) as u8)
    }
}

/// The decimal digits of `n`, as characters.
pub open spec fn decimal_chars(n: nat) -> Seq<char>
    decreases n,
{
    let digit = seq!['0', '1', '2', '3', '4', '5', '6', '7', '8', '9'][(n % 10) as int];
    if n < 10 {
        seq![digit]
    } else {
        decimal_chars(n / 10).push(digit)
    }
}

/// `t` with every `%d`, taken left to right without overlap, replaced by `d`.
pub open spec fn substitute(t: Seq<char>, d: Seq<char>) -> Seq<char>
    decreases t.len(),
{
    if t.len() < 2 {
        t
    } else if t[0] == '%' && t[1] == 'd' {
        d + substitute(t.skip(2), d)
    } else {
        seq![t[0]] + substitute(t.skip(1), d)
    }
}

/// Relies on regex::Regex::replace_all with the literal pattern `%d` and a replacement
/// that is not expanded: each match, leftmost first and without overlap, is replaced
/// by the decimal digits of `n`, which `u32::to_string` gives.
#[verifier::external_body]
fn replace_placeholder(template: &str, n: u32) -> (r: String)
    ensures
        r@ == substitute(template@, decimal_chars(n as nat)),
{
    let re = regex::Regex::new("%d").unwrap();
    re.replace_all(template, regex::NoExpand(&n.to_string())).into_owned()
}

/// The name of output page `n`: `%d` in the template replaced by `n`.
pub fn simple_format_u32(template: &str, n: u32) -> (r: String)
    ensures
        r@ == substitute(template@, decimal_chars(n as nat)),
{
    replace_placeholder(template, n)
}

fn push_decimal(out: &mut Vec<u8>, n: u64)
    ensures
        final(out)@ == old(out)@ + decimal(n as nat),
    decreases n,
{
    if n >= 10 {
        push_decimal(out, n / 10);
    }
    out.push((48 + n % 10) as u8);
    proof {
        if n < 10 {
            assert(decimal(n as nat) == seq![(48 + n) as u8]);
        }
    }
}

/// One line of the map file: `name:x,y-x2,y2` and a newline.
pub open spec fn map_line(name: Seq<u8>, e: EntryView) -> Seq<u8> {
    name + seq![58u8] + decimal(e.x as nat) + seq![44u8] + decimal(e.y as nat) + seq![45u8] + decimal(
        (e.x + e.width) as nat,
    ) + seq![44u8] + decimal((e.y + e.height) as nat) + seq![10u8]
}

/// The map file for `entries`, one line per entry under its base name; `None` when an
/// entry's path has no file name.
pub open spec fn map_text(entries: Seq<EntryView>) -> Option<Seq<u8>>
    decreases entries.len(),
{
    if entries.len() == 0 {
        Some(seq![])
    } else {
        match (map_text(entries.drop_last()), file_name_of(entries.last().filename)) {
            (Some(t), Some(n)) => Some(t + map_line(encode_utf8(n), entries.last())),
            _ => None,
        }
    }
}

/// The directory records for `entries` with the given matrix bytes; `None` when an
/// entry's path has no file name.
pub open spec fn records_for(entries: Seq<EntryView>, matrices: Seq<Seq<u8>>) -> Option<Seq<RecordView>>
    decreases entries.len(),
{
    if entries.len() == 0 {
        Some(seq![])
    } else {
        let k = entries.len() - 1;
        match (records_for(entries.drop_last(), matrices), file_name_of(entries.last().filename)) {
            (Some(rs), Some(n)) => Some(rs.push(RecordView { name: encode_utf8(n), matrix: matrices[k] })),
            _ => None,
        }
    }
}

impl AtlasEntry {
    pub fn new(filename: &str, width: u32, height: u32) -> (r: AtlasEntry)
        ensures
            r@ == (EntryView { filename: filename@, image: None, x: 0, y: 0, width, height }),
    {
        AtlasEntry { filename: filename.to_string(), image: None, x: 0, y: 0, width, height }
    }

    /// Attaches decoded pixels; the entry takes their dimensions.
    pub fn set_image(&mut self, image: Pixels)
        ensures
            final(self)@ == (EntryView {
                filename: old(self)@.filename,
                image: Some(image@),
                x: old(self)@.x,
                y: old(self)@.y,
                width: image@.width,
                height: image@.height,
            }),
    {
        self.width = image.width;
        self.height = image.height;
        self.image = Some(image);
    }

    pub fn set_position(&mut self, x: u32, y: u32)
        ensures
            final(self)@ == moved_to(old(self)@, x, y),
    {
        self.x = x;
        self.y = y;
    }

    /// The file name without its directories, if the path has one.
    pub fn get_basename(&self) -> (r: Option<String>)
        ensures
            match r {
                Some(s) => file_name_of(self@.filename) == Some(s@),
                None => file_name_of(self@.filename) is None,
            },
    {
        path_file_name(self.filename.as_str())
    }

    /// The file name without directories and extension, if the path has one.
    pub fn get_stem(&self) -> (r: Option<String>)
        ensures
            match r {
                Some(s) => file_stem_of(self@.filename) == Some(s@),
                None => file_stem_of(self@.filename) is None,
            },
    {
        path_file_stem(self.filename.as_str())
    }

    pub fn copy(&self) -> (r: AtlasEntry)
        ensures
            r@ == self@,
    {
        let image = match &self.image {
            Some(p) => Some(p.copy()),
            None => None,
        };
        AtlasEntry {
            filename: self.filename.clone(),
            image,
            x: self.x,
            y: self.y,
            width: self.width,
            height: self.height,
        }
    }
}

/// One page of output: its placed entries and, once composited, its canvas.
pub struct Atlas {
    size: u32,
    border: u32,
    pub entries: Vec<AtlasEntry>,
    image: Option<Pixels>,
}

pub struct AtlasModel {
    pub size: u32,
    pub border: u32,
    pub entries: Seq<EntryView>,
    pub image: Option<PixelsView>,
}

impl View for Atlas {
    type V = AtlasModel;

    closed spec fn view(&self) -> AtlasModel {
        AtlasModel {
            size: self.size,
            border: self.border,
            entries: self.entries@.map_values(|e: AtlasEntry| e@),
            image: match self.image {
                Some(p) => Some(p@),
                None => None,
            },
        }
    }
}

/// Whether an entry's pixels can be copied onto canvas `c` at the entry's position.
pub open spec fn entry_fits(e: EntryView, c: PixelsView) -> bool {
    match e.image {
        Some(img) => pixels_wf(img) && e.x + img.width <= c.width && e.y + img.height <= c.height,
        None => false,
    }
}

/// Canvas `c` with the pixels of each entry that fits copied over it, in order.
pub open spec fn composite(c: PixelsView, entries: Seq<EntryView>) -> PixelsView
    decreases entries.len(),
{
    if entries.len() == 0 {
        c
    } else {
        let prev = composite(c, entries.drop_last());
        let e = entries.last();
        if entry_fits(e, prev) {
            blit_view(prev, e.image->Some_0, e.x as int, e.y as int)
        } else {
            prev
        }
    }
}

/// An atlas whose canvas, once there is one, is a well-formed square of its size.
pub open spec fn atlas_wf(a: AtlasModel) -> bool {
    a.image is Some ==> pixels_wf(a.image->Some_0) && a.image->Some_0.width == a.size
        && a.image->Some_0.height == a.size
}

/// The canvas compositing starts from: the current one, or a transparent one.
pub open spec fn start_canvas(a: AtlasModel) -> PixelsView {
    match a.image {
        Some(p) => p,
        None => blank(a.size, a.size),
    }
}

impl Atlas {
    /// An empty atlas for pages of side `size`; the canvas is made when compositing.
    pub fn new(size: u32, border: u32) -> (r: Atlas)
        ensures
            atlas_wf(r@),
            r@ == (AtlasModel { size, border, entries: seq![], image: None }),
    {
        let r = Atlas { size, border, entries: Vec::new(), image: None };
        assert(r@.entries =~= seq![]);
        r
    }

    pub fn size(&self) -> (r: u32)
        ensures
            r == self@.size,
    {
        self.size
    }

    pub fn border(&self) -> (r: u32)
        ensures
            r == self@.border,
    {
        self.border
    }

    pub fn image(&self) -> (r: &Option<Pixels>)
        ensures
            match r {
                Some(p) => self@.image == Some(p@),
                None => self@.image is None,
            },
    {
        &self.image
    }

    /// Whether the canvas, if there is one, is a well-formed square of the atlas's size.
    pub fn canvas_ok(&self) -> (r: bool)
        ensures
            r == atlas_wf(self@),
    {
        match &self.image {
            None => true,
            Some(p) => p.is_well_formed() && p.width == self.size && p.height == self.size,
        }
    }

    /// Copies each entry's pixels onto the canvas at the entry's position, in entry
    /// order; the canvas is made transparent first if there is none yet. Entries
    /// without pixels, or whose pixels would reach past the canvas, are left out.
    pub fn blit_entries(&mut self)
        requires
            atlas_wf(old(self)@),
            4 * old(self)@.size <= usize::MAX,
        ensures
            final(self)@ == (AtlasModel {
                image: Some(composite(start_canvas(old(self)@), old(self)@.entries)),
                ..old(self)@
            }),
            atlas_wf(final(self)@),
    {
        let ghost a0 = self@;
        let mut canvas = match self.image.take() {
            Some(p) => p,
            None => Pixels::new(self.size, self.size),
        };
        proof {
            assert(canvas@ == start_canvas(a0));
        }
        let mut i: usize = 0;
        while i < self.entries.len()
            invariant
                i <= self.entries@.len(),
                self.entries@.map_values(|e: AtlasEntry| e@) == a0.entries,
                self.size == a0.size,
                self.border == a0.border,
                canvas@ == composite(start_canvas(a0), a0.entries.take(i as int)),
                pixels_wf(canvas@),
                canvas@.width == a0.size,
                canvas@.height == a0.size,
            decreases self.entries@.len() - i,
        {
            let e = &self.entries[i];
            proof {
                assert(a0.entries.take(i as int + 1).drop_last() =~= a0.entries.take(i as int));
                assert(a0.entries[i as int] == e@);
            }
            match &e.image {
                Some(img) => {
                    if img.is_well_formed() && e.x as u64 + img.width as u64 <= canvas.width as u64
                        && e.y as u64 + img.height as u64 <= canvas.height as u64 {
                        canvas.blit(img, e.x, e.y);
                    }
                },
                None => {},
            }
            i = i + 1;
        }
        proof {
            assert(a0.entries.take(i as int) =~= a0.entries);
        }
        self.image = Some(canvas);
    }

    /// The map file: one `name:x,y-x2,y2` line per entry, in entry order, with the
    /// directories stripped from each name. `None` when a path has no file name.
    pub fn map_bytes(&self) -> (r: Option<Vec<u8>>)
        ensures
            match r {
                Some(b) => map_text(self@.entries) == Some(b@),
                None => map_text(self@.entries) is None,
            },
    {
        let ghost es = self@.entries;
        let mut out: Vec<u8> = Vec::new();
        let mut i: usize = 0;
        proof {
            assert(es.take(0) =~= seq![]);
        }
        while i < self.entries.len()
            invariant
                i <= self.entries@.len(),
                es == self@.entries,
                es == self.entries@.map_values(|e: AtlasEntry| e@),
                map_text(es.take(i as int)) == Some(out@),
            decreases self.entries@.len() - i,
        {
            let e = &self.entries[i];
            proof {
                assert(es.take(i as int + 1).drop_last() =~= es.take(i as int));
                assert(es[i as int] == e@);
            }
            match e.get_basename() {
                None => {
                    proof {
                        lemma_map_text_none(es, i as int + 1);
                    }
                    return None;
                },
                Some(name) => {
                    let bytes = name.as_str().as_bytes();
                    let mut k: usize = 0;
                    let ghost start = out@;
                    while k < bytes.len()
                        invariant
                            k <= bytes@.len(),
                            out@ == start + bytes@.take(k as int),
                        decreases bytes@.len() - k,
                    {
                        out.push(bytes[k]);
                        k = k + 1;
                        proof {
                            assert(out@ =~= start + bytes@.take(k as int));
                        }
                    }
                    proof {
                        assert(bytes@.take(k as int) =~= bytes@);
                    }
                    out.push(58u8);
                    push_decimal(&mut out, e.x as u64);
                    out.push(44u8);
                    push_decimal(&mut out, e.y as u64);
                    out.push(45u8);
                    push_decimal(&mut out, e.x as u64 + e.width as u64);
                    out.push(44u8);
                    push_decimal(&mut out, e.y as u64 + e.height as u64);
                    out.push(10u8);
                    proof {
                        assert(out@ =~= start + map_line(encode_utf8(name@), e@));
                    }
                },
            }
            i = i + 1;
        }
        proof {
            assert(es.take(i as int) =~= es);
        }
        Some(out)
    }

    /// The directory file for this page: one record per entry, named by the entry's
    /// base name and carrying the matrix bytes given for it (six little-endian `f32`
    /// values each, computed by the caller).
    pub fn directory_bytes(&self, matrices: &Vec<Vec<u8>>) -> (r: Result<Vec<u8>, AtlasFormatError>)
        requires
            matrices@.len() == self@.entries.len(),
        ensures
            match records_for(self@.entries, matrices@.map_values(|m: Vec<u8>| m@)) {
                None => r == Err::<Vec<u8>, AtlasFormatError>(AtlasFormatError::NoFileName),
                Some(rs) => match r {
                    Ok(b) => encode_spec(rs) == Ok::<Seq<u8>, AtlasFormatError>(b@),
                    Err(e) => encode_spec(rs) == Err::<Seq<u8>, AtlasFormatError>(e),
                },
            },
    {
        let ghost es = self@.entries;
        let ghost ms = matrices@.map_values(|m: Vec<u8>| m@);
        let mut records: Vec<AtlasRecord> = Vec::new();
        let mut i: usize = 0;
        proof {
            assert(record_views(records@) =~= seq![]);
        }
        while i < self.entries.len()
            invariant
                i <= self.entries@.len(),
                matrices@.len() == self.entries@.len(),
                es == self@.entries,
                es == self.entries@.map_values(|e: AtlasEntry| e@),
                ms == matrices@.map_values(|m: Vec<u8>| m@),
                records_for(es.take(i as int), ms) == Some(record_views(records@)),
            decreases self.entries@.len() - i,
        {
            let e = &self.entries[i];
            proof {
                assert(es.take(i as int + 1).drop_last() =~= es.take(i as int));
                assert(es[i as int] == e@);
            }
            match e.get_basename() {
                None => {
                    proof {
                        lemma_records_for_none(es, ms, i as int + 1);
                    }
                    return Err(AtlasFormatError::NoFileName);
                },
                Some(name) => {
                    let bytes = name.as_str().as_bytes();
                    let mut nb: Vec<u8> = Vec::new();
                    let mut k: usize = 0;
                    while k < bytes.len()
                        invariant
                            k <= bytes@.len(),
                            nb@ == bytes@.take(k as int),
                        decreases bytes@.len() - k,
                    {
                        nb.push(bytes[k]);
                        k = k + 1;
                        proof {
                            assert(nb@ =~= bytes@.take(k as int));
                        }
                    }
                    proof {
                        assert(bytes@.take(k as int) =~= bytes@);
                    }
                    let m = copy_bytes(&matrices[i]);
                    let ghost before = records@;
                    records.push(AtlasRecord { name: nb, matrix: m });
                    proof {
                        assert(ms[i as int] == m@);
                        assert(record_views(records@) =~= record_views(before).push(
                            RecordView { name: encode_utf8(name@), matrix: ms[i as int] },
                        ));
                    }
                },
            }
            i = i + 1;
        }
        proof {
            assert(es.take(i as int) =~= es);
        }
        encode_atlas(&records)
    }

    /// Appends an entry whose position is already known; nothing is composited.
    pub fn add_entry(&mut self, entry: AtlasEntry)
        ensures
            atlas_wf(old(self)@) ==> atlas_wf(final(self)@),
            final(self)@ == (AtlasModel { entries: old(self)@.entries.push(entry@), ..old(self)@ }),
    {
        let ghost before = self.entries@;
        self.entries.push(entry);
        assert(self.entries@.map_values(|e: AtlasEntry| e@) =~= before.map_values(|e: AtlasEntry| e@).push(
            entry@,
        ));
    }
}

proof fn lemma_map_text_none(es: Seq<EntryView>, n: int)
    requires
        0 < n <= es.len(),
        file_name_of(es[n - 1].filename) is None,
    ensures
        map_text(es) is None,
    decreases es.len(),
{
    if es.len() > n {
        assert(es.drop_last()[n - 1] == es[n - 1]);
        lemma_map_text_none(es.drop_last(), n);
    }
}

proof fn lemma_records_for_none(es: Seq<EntryView>, ms: Seq<Seq<u8>>, n: int)
    requires
        0 < n <= es.len(),
        file_name_of(es[n - 1].filename) is None,
    ensures
        records_for(es, ms) is None,
    decreases es.len(),
{
    if es.len() > n {
        assert(es.drop_last()[n - 1] == es[n - 1]);
        lemma_records_for_none(es.drop_last(), ms, n);
    }
}

} // verus!
