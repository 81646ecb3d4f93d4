use vstd::prelude::*;
use vstd::multiset::Multiset;

verus! {

/// A rectangle to be placed: a caller-chosen id and its dimensions.
#[derive(Debug, Clone, Copy)]
pub struct Entry {
    pub id: usize,
    pub width: u32,
    pub height: u32,
}

impl Entry {
    pub fn new(id: usize, width: u32, height: u32) -> (r: Entry)
        ensures
            r.id == id,
            r.width == width,
            r.height == height,
    {
        Entry { id, width, height }
    }
}

/// A placed rectangle: the request plus its top-left corner on its page.
#[derive(Debug, Clone, Copy)]
pub struct EntryWithPosition {
    pub id: usize,
    pub width: u32,
    pub height: u32,
    pub x: u32,
    pub y: u32,
}

impl EntryWithPosition {
    pub fn new_from_entry(entry: &Entry) -> (r: EntryWithPosition)
        ensures
            r == placed_at(*entry, 0, 0),
    {
        EntryWithPosition { id: entry.id, width: entry.width, height: entry.height, x: 0, y: 0 }
    }

    pub fn set_position(&mut self, x: u32, y: u32)
        ensures
            final(self).x == x,
            final(self).y == y,
            final(self).id == old(self).id,
            final(self).width == old(self).width,
            final(self).height == old(self).height,
    {
        self.x = x;
        self.y = y;
    }
}

/// A shelf: a horizontal strip starting at `y`, `height` tall, filled from the left up to `end_x`.
#[derive(Debug, Clone, Copy)]
pub struct Row {
    pub y: u32,
    pub width: u32,
    pub height: u32,
    pub end_x: u32,
}

impl Row {
    fn new(y: u32, width: u32, height: u32) -> (r: Row)
        ensures
            r == (Row { y, width, height, end_x: 0 }),
    {
        Row { y, width, height, end_x: 0 }
    }

    fn would_fit(&self, w: u32, h: u32) -> (r: bool)
        requires
            self.end_x <= self.width,
        ensures
            r == row_would_fit(*self, w, h),
    {
        if self.height >= h {
            let available_space = self.width - self.end_x;
            available_space >= w
        } else {
            false
        }
    }
}

/// The mathematical state of a page: its size, shelves, placements, and for each
/// placement the index of the shelf that holds it.
pub struct PageModel {
    pub size: u32,
    pub used_height: u32,
    pub rows: Seq<Row>,
    pub placed: Seq<EntryWithPosition>,
    pub row_of: Seq<int>,
}

pub open spec fn placed_at(e: Entry, x: u32, y: u32) -> EntryWithPosition {
    EntryWithPosition { id: e.id, width: e.width, height: e.height, x, y }
}

pub open spec fn row_would_fit(r: Row, w: u32, h: u32) -> bool {
    r.height >= h && r.width - r.end_x >= w
}

/// A shelf may take an entry when it has room and is less than twice the entry's height.
pub open spec fn is_candidate(r: Row, e: Entry) -> bool {
    row_would_fit(r, e.width, e.height) && r.height < 2 * e.height
}

/// Index of the first candidate shelf at or after `i`, or -1 when there is none.
pub open spec fn first_candidate_from(rows: Seq<Row>, e: Entry, i: int) -> int
    decreases rows.len() - i,
{
    if i < 0 || i >= rows.len() {
        -1
    } else if is_candidate(rows[i], e) {
        i
    } else {
        first_candidate_from(rows, e, i + 1)
    }
}

pub open spec fn empty_page(size: u32) -> PageModel {
    PageModel { size, used_height: 0, rows: seq![], placed: seq![], row_of: seq![] }
}

/// Appends `e` at the right end of shelf `k`.
pub open spec fn put_in_row(p: PageModel, e: Entry, k: int) -> PageModel {
    let r = p.rows[k];
    PageModel {
        size: p.size,
        used_height: p.used_height,
        rows: p.rows.update(k, Row { y: r.y, width: r.width, height: r.height, end_x: (r.end_x + e.width) as u32 }),
        placed: p.placed.push(placed_at(e, r.end_x, r.y)),
        row_of: p.row_of.push(k),
    }
}

/// Opens a new shelf `h` tall below the existing ones.
pub open spec fn with_new_row(p: PageModel, h: u32) -> PageModel {
    PageModel {
        size: p.size,
        used_height: (p.used_height + h) as u32,
        rows: p.rows.push(Row { y: p.used_height, width: p.size, height: h, end_x: 0 }),
        placed: p.placed,
        row_of: p.row_of,
    }
}

pub open spec fn oversized(e: Entry, size: u32) -> bool {
    e.width > size || e.height > size
}

/// Placing one entry on one page: first candidate shelf, else a new shelf, else failure.
pub open spec fn place(p: PageModel, e: Entry) -> Option<PageModel> {
    if oversized(e, p.size) {
        None
    } else {
        let k = first_candidate_from(p.rows, e, 0);
        if k >= 0 {
            Some(put_in_row(p, e, k))
        } else if e.height <= p.size - p.used_height {
            Some(put_in_row(with_new_row(p, e.height), e, p.rows.len() as int))
        } else {
            None
        }
    }
}

/// Placing one entry on a list of pages: the first page from `i` on that accepts it,
/// else a new page; an entry that an empty page refuses is dropped.
pub open spec fn place_from(pages: Seq<PageModel>, e: Entry, size: u32, i: int) -> Seq<PageModel>
    decreases pages.len() - i,
{
    if 0 <= i < pages.len() {
        match place(pages[i], e) {
            Some(p) => pages.update(i, p),
            None => place_from(pages, e, size, i + 1),
        }
    } else {
        match place(empty_page(size), e) {
            Some(p) => pages.push(p),
            None => pages,
        }
    }
}

/// The pages that fitting `entries`, in order, onto pages of side `size` produces.
pub open spec fn fit_pages(entries: Seq<Entry>, size: u32) -> Seq<PageModel>
    decreases entries.len(),
{
    if entries.len() == 0 {
        seq![]
    } else {
        place_from(fit_pages(entries.drop_last(), size), entries.last(), size, 0)
    }
}

pub open spec fn disjoint(a: EntryWithPosition, b: EntryWithPosition) -> bool {
    a.x + a.width <= b.x || b.x + b.width <= a.x || a.y + a.height <= b.y || b.y + b.height <= a.y
}

pub open spec fn in_bounds(a: EntryWithPosition, size: u32) -> bool {
    a.x + a.width <= size && a.y + a.height <= size
}

pub open spec fn row_ok(p: PageModel, r: Row) -> bool {
    r.width == p.size && r.end_x <= r.width && r.y + r.height <= p.used_height
}

pub open spec fn in_its_row(p: PageModel, i: int) -> bool {
    let k = p.row_of[i];
    let r = p.rows[k];
    0 <= k < p.rows.len() && p.placed[i].y == r.y && p.placed[i].height <= r.height
        && p.placed[i].x + p.placed[i].width <= r.end_x
}

/// Well-formed page: shelves stacked without overlap inside the page, each placement
/// inside its shelf, placements pairwise disjoint.
pub open spec fn page_wf(p: PageModel) -> bool {
    &&& p.used_height <= p.size
    &&& p.row_of.len() == p.placed.len()
    &&& forall|k: int| 0 <= k < p.rows.len() ==> row_ok(p, #[trigger] p.rows[k])
    &&& forall|k: int, l: int|
        0 <= k < l < p.rows.len() ==> #[trigger] p.rows[k].y + p.rows[k].height <= #[trigger] p.rows[l].y
    &&& forall|i: int| 0 <= i < p.placed.len() ==> #[trigger] in_its_row(p, i)
    &&& forall|i: int, j: int|
        0 <= i < p.placed.len() && 0 <= j < p.placed.len() && i != j ==> disjoint(
            #[trigger] p.placed[i],
            #[trigger] p.placed[j],
        )
}

pub proof fn lemma_first_candidate(rows: Seq<Row>, e: Entry, i: int)
    requires
        0 <= i,
    ensures
        first_candidate_from(rows, e, i) == -1 || (i <= first_candidate_from(rows, e, i) < rows.len()
            && is_candidate(rows[first_candidate_from(rows, e, i)], e)),
    decreases rows.len() - i,
{
    if i < rows.len() && !is_candidate(rows[i], e) {
        lemma_first_candidate(rows, e, i + 1);
    }
}

proof fn lemma_new_row_wf(p: PageModel, h: u32)
    requires
        page_wf(p),
        h <= p.size - p.used_height,
    ensures
        page_wf(with_new_row(p, h)),
{
    let q = with_new_row(p, h);
    assert forall|k: int| 0 <= k < q.rows.len() implies row_ok(q, #[trigger] q.rows[k]) by {
        if k < p.rows.len() {
            assert(row_ok(p, p.rows[k]));
        }
    }
    assert forall|k: int, l: int| 0 <= k < l < q.rows.len() implies #[trigger] q.rows[k].y
        + q.rows[k].height <= #[trigger] q.rows[l].y by {
        assert(row_ok(p, p.rows[k]));
        if l < p.rows.len() {
            assert(p.rows[k].y + p.rows[k].height <= p.rows[l].y);
        }
    }
    assert forall|i: int| 0 <= i < q.placed.len() implies #[trigger] in_its_row(q, i) by {
        assert(in_its_row(p, i));
    }
}

proof fn lemma_put_in_row_wf(p: PageModel, e: Entry, k: int)
    requires
        page_wf(p),
        0 <= k < p.rows.len(),
        row_would_fit(p.rows[k], e.width, e.height),
    ensures
        page_wf(put_in_row(p, e, k)),
{
    let q = put_in_row(p, e, k);
    let r = p.rows[k];
    assert(row_ok(p, r));
    let n = placed_at(e, r.end_x, r.y);
    assert forall|l: int| 0 <= l < q.rows.len() implies row_ok(q, #[trigger] q.rows[l]) by {
        assert(row_ok(p, p.rows[l]));
    }
    assert forall|a: int, b: int| 0 <= a < b < q.rows.len() implies #[trigger] q.rows[a].y
        + q.rows[a].height <= #[trigger] q.rows[b].y by {
        assert(p.rows[a].y + p.rows[a].height <= p.rows[b].y);
    }
    assert forall|i: int| 0 <= i < q.placed.len() implies #[trigger] in_its_row(q, i) by {
        if i < p.placed.len() {
            assert(in_its_row(p, i));
        }
    }
    assert forall|i: int, j: int|
        0 <= i < q.placed.len() && 0 <= j < q.placed.len() && i != j implies disjoint(
        #[trigger] q.placed[i],
        #[trigger] q.placed[j],
    ) by {
        if i < p.placed.len() && j < p.placed.len() {
            assert(disjoint(p.placed[i], p.placed[j]));
        } else {
            let o = if i < p.placed.len() { i } else { j };
            assert(in_its_row(p, o));
            let ko = p.row_of[o];
            if ko < k {
                assert(p.rows[ko].y + p.rows[ko].height <= p.rows[k].y);
            } else if ko > k {
                assert(p.rows[k].y + p.rows[k].height <= p.rows[ko].y);
            }
            assert(disjoint(p.placed[o], n));
        }
    }
}

pub proof fn lemma_place_wf(p: PageModel, e: Entry)
    requires
        page_wf(p),
    ensures
        place(p, e) is Some ==> page_wf(place(p, e)->Some_0) && place(p, e)->Some_0.size == p.size,
        place(p, e) is Some <==> !oversized(e, p.size) && (first_candidate_from(p.rows, e, 0) >= 0
            || e.height <= p.size - p.used_height),
        place(p, e) is Some ==> place(p, e)->Some_0.placed.drop_last() == p.placed
            && place(p, e)->Some_0.placed.len() == p.placed.len() + 1
            && place(p, e)->Some_0.placed.last().id == e.id
            && place(p, e)->Some_0.placed.last().width == e.width
            && place(p, e)->Some_0.placed.last().height == e.height,
{
    if !oversized(e, p.size) {
        let k = first_candidate_from(p.rows, e, 0);
        lemma_first_candidate(p.rows, e, 0);
        if k >= 0 {
            lemma_put_in_row_wf(p, e, k);
        } else if e.height <= p.size - p.used_height {
            lemma_new_row_wf(p, e.height);
            let q = with_new_row(p, e.height);
            lemma_put_in_row_wf(q, e, p.rows.len() as int);
        }
    }
    if place(p, e) is Some {
        assert(place(p, e)->Some_0.placed.drop_last() =~= p.placed);
    }
}

pub proof fn lemma_wf_in_bounds(p: PageModel, i: int)
    requires
        page_wf(p),
        0 <= i < p.placed.len(),
    ensures
        in_bounds(p.placed[i], p.size),
{
    assert(in_its_row(p, i));
    assert(row_ok(p, p.rows[p.row_of[i]]));
}

/// One page being filled: its shelves and what has been placed on it.
pub struct Page {
    size: u32,
    pub entries: Vec<EntryWithPosition>,
    rows: Vec<Row>,
    used_height: u32,
    row_of: Ghost<Seq<int>>,
}

impl View for Page {
    type V = PageModel;

    closed spec fn view(&self) -> PageModel {
        PageModel {
            size: self.size,
            used_height: self.used_height,
            rows: self.rows@,
            placed: self.entries@,
            row_of: self.row_of@,
        }
    }
}

impl Page {
    pub open spec fn wf(&self) -> bool {
        page_wf(self@)
    }

    pub fn new(size: u32, _border: u32) -> (r: Page)
        ensures
            r@ == empty_page(size),
            r.wf(),
    {
        let r = Page { size, entries: Vec::new(), rows: Vec::new(), used_height: 0, row_of: Ghost(Seq::empty()) };
        assert(r@.rows =~= seq![]);
        assert(r@.placed =~= seq![]);
        r
    }

    /// The placements made on this page, in placement order.
    pub fn placed(&self) -> (r: &Vec<EntryWithPosition>)
        ensures
            r@ == self@.placed,
    {
        &self.entries
    }

    pub fn size(&self) -> (r: u32)
        ensures
            r == self@.size,
    {
        self.size
    }

    fn add_row(&mut self, height: u32) -> (r: Option<usize>)
        requires
            old(self).wf(),
        ensures
            height <= old(self)@.size - old(self)@.used_height ==> r is Some && r->Some_0 == old(self)@.rows.len()
                && final(self)@ == with_new_row(old(self)@, height),
            height > old(self)@.size - old(self)@.used_height ==> r is None && final(self)@ == old(self)@,
    {
        if height <= self.size - self.used_height {
            let row = Row::new(self.used_height, self.size, height);
            self.used_height = self.used_height + height;
            let row_index = self.rows.len();
            self.rows.push(row);
            Some(row_index)
        } else {
            None
        }
    }

    fn fit_entry_to_row_with_index(&mut self, entry: &Entry, row_index: usize) -> (r: bool)
        requires
            page_wf(old(self)@),
        ensures
            r == (row_index < old(self)@.rows.len() && row_would_fit(
                old(self)@.rows[row_index as int],
                entry.width,
                entry.height,
            )),
            r ==> final(self)@ == put_in_row(old(self)@, *entry, row_index as int),
            !r ==> final(self)@ == old(self)@,
    {
        if row_index >= self.rows.len() {
            return false;
        }
        let row = self.rows[row_index];
        assert(row_ok(self@, self@.rows[row_index as int]));
        if row.would_fit(entry.width, entry.height) {
            let mut e = EntryWithPosition::new_from_entry(entry);
            let x = row.end_x;
            let y = row.y;
            let new_row = Row { y: row.y, width: row.width, height: row.height, end_x: row.end_x + entry.width };
            self.rows[row_index] = new_row;
            e.set_position(x, y);
            self.entries.push(e);
            self.row_of = Ghost(self.row_of@.push(row_index as int));
            true
        } else {
            false
        }
    }

    /// The shelf chosen for `entry`: the first that is a candidate, in creation order.
    fn first_candidate_row(&self, entry: &Entry) -> (r: Option<usize>)
        requires
            self.wf(),
        ensures
            r is Some ==> r->Some_0 == first_candidate_from(self@.rows, *entry, 0),
            r is None ==> first_candidate_from(self@.rows, *entry, 0) == -1,
    {
        let mut ri: usize = 0;
        while ri < self.rows.len()
            invariant
                self.wf(),
                ri <= self@.rows.len(),
                first_candidate_from(self@.rows, *entry, 0) == first_candidate_from(self@.rows, *entry, ri as int),
            decreases self@.rows.len() - ri,
        {
            let r = self.rows[ri];
            assert(row_ok(self@, self@.rows[ri as int]));
            if r.would_fit(entry.width, entry.height) && (r.height as u64) < 2 * (entry.height as u64) {
                return Some(ri);
            }
            ri = ri + 1;
        }
        None
    }

    /// Places `entry` on this page if it can: on the first candidate shelf, else on a new shelf.
    pub fn fit_entry(&mut self, entry: &Entry) -> (r: bool)
        requires
            old(self).wf(),
        ensures
            r == (place(old(self)@, *entry) is Some),
            r ==> final(self)@ == place(old(self)@, *entry)->Some_0,
            !r ==> final(self)@ == old(self)@,
            final(self).wf(),
    {
        proof {
            lemma_place_wf(self@, *entry);
        }
        if self.size < entry.width || self.size < entry.height {
            false
        } else {
            match self.first_candidate_row(entry) {
                Some(ri) => {
                    proof {
                        lemma_first_candidate(self@.rows, *entry, 0);
                    }
                    self.fit_entry_to_row_with_index(entry, ri)
                },
                None => {
                    proof {
                        if entry.height <= self@.size - self@.used_height {
                            lemma_new_row_wf(self@, entry.height);
                        }
                    }
                    match self.add_row(entry.height) {
                        None => false,
                        Some(ri) => {
                            self.fit_entry_to_row_with_index(entry, ri)
                        },
                    }
                },
            }
        }
    }
}

/// The placements of a page, as page models.
pub open spec fn page_views(pages: Seq<Page>) -> Seq<PageModel> {
    pages.map_values(|p: Page| p@)
}

/// Every page is well formed and has side `size`.
pub open spec fn all_pages_wf(pages: Seq<PageModel>, size: u32) -> bool {
    forall|k: int| 0 <= k < pages.len() ==> page_wf(#[trigger] pages[k]) && pages[k].size == size
}

proof fn lemma_place_from_wf(pages: Seq<PageModel>, e: Entry, size: u32, i: int)
    requires
        all_pages_wf(pages, size),
        0 <= i,
    ensures
        all_pages_wf(place_from(pages, e, size, i), size),
    decreases pages.len() - i,
{
    if i < pages.len() {
        lemma_place_wf(pages[i], e);
        if place(pages[i], e) is None {
            lemma_place_from_wf(pages, e, size, i + 1);
        } else {
            let q = place_from(pages, e, size, i);
            assert forall|k: int| 0 <= k < q.len() implies page_wf(#[trigger] q[k]) && q[k].size == size by {
                if k != i {
                    assert(page_wf(pages[k]));
                }
            }
        }
    } else {
        let z = empty_page(size);
        assert(page_wf(z));
        lemma_place_wf(z, e);
        let q = place_from(pages, e, size, i);
        assert forall|k: int| 0 <= k < q.len() implies page_wf(#[trigger] q[k]) && q[k].size == size by {
            if k < pages.len() {
                assert(page_wf(pages[k]));
            }
        }
    }
}

pub proof fn lemma_fit_pages_wf(entries: Seq<Entry>, size: u32)
    ensures
        all_pages_wf(fit_pages(entries, size), size),
    decreases entries.len(),
{
    if entries.len() > 0 {
        lemma_fit_pages_wf(entries.drop_last(), size);
        lemma_place_from_wf(fit_pages(entries.drop_last(), size), entries.last(), size, 0);
    }
}

/// Every placement carries the id and the dimensions of one of `reqs`, where
/// request `i` has id `i`.
pub open spec fn placed_from_requests(pages: Seq<PageModel>, reqs: Seq<Entry>) -> bool {
    forall|k: int, i: int|
        0 <= k < pages.len() && 0 <= i < pages[k].placed.len() ==> {
            let q = #[trigger] pages[k].placed[i];
            &&& q.id < reqs.len()
            &&& q.width == reqs[q.id as int].width
            &&& q.height == reqs[q.id as int].height
        }
}

pub open spec fn ids_are_indices(reqs: Seq<Entry>) -> bool {
    forall|i: int| 0 <= i < reqs.len() ==> (#[trigger] reqs[i]).id == i
}

proof fn lemma_place_from_requests(pages: Seq<PageModel>, reqs: Seq<Entry>, j: int, size: u32, i: int)
    requires
        all_pages_wf(pages, size),
        placed_from_requests(pages, reqs),
        ids_are_indices(reqs),
        0 <= j < reqs.len(),
        0 <= i,
    ensures
        placed_from_requests(place_from(pages, reqs[j], size, i), reqs),
    decreases pages.len() - i,
{
    let e = reqs[j];
    if i < pages.len() {
        assert(page_wf(pages[i]));
        lemma_place_wf(pages[i], e);
        if place(pages[i], e) is None {
            lemma_place_from_requests(pages, reqs, j, size, i + 1);
        } else {
            let q = place_from(pages, e, size, i);
            let np = place(pages[i], e)->Some_0;
            assert forall|k: int, m: int| 0 <= k < q.len() && 0 <= m < q[k].placed.len() implies {
                let r = #[trigger] q[k].placed[m];
                &&& r.id < reqs.len()
                &&& r.width == reqs[r.id as int].width
                &&& r.height == reqs[r.id as int].height
            } by {
                if k == i && m < pages[i].placed.len() {
                    assert(np.placed[m] == np.placed.drop_last()[m]);
                }
            }
        }
    } else {
        let z = empty_page(size);
        assert(page_wf(z));
        lemma_place_wf(z, e);
        if place(z, e) is Some {
            let q = place_from(pages, e, size, i);
            assert forall|k: int, m: int| 0 <= k < q.len() && 0 <= m < q[k].placed.len() implies {
                let r = #[trigger] q[k].placed[m];
                &&& r.id < reqs.len()
                &&& r.width == reqs[r.id as int].width
                &&& r.height == reqs[r.id as int].height
            } by {
                if k == pages.len() {
                    assert(place(z, e)->Some_0.placed.len() == 1);
                }
            }
        }
    }
}

/// Each placement of a fit over `reqs` carries the dimensions of the request its id names.
pub proof fn lemma_fit_matches_requests(reqs: Seq<Entry>, size: u32, n: int)
    requires
        ids_are_indices(reqs),
        0 <= n <= reqs.len(),
    ensures
        placed_from_requests(fit_pages(reqs.take(n), size), reqs),
    decreases n,
{
    if n > 0 {
        let t = reqs.take(n);
        assert(t.drop_last() =~= reqs.take(n - 1));
        lemma_fit_matches_requests(reqs, size, n - 1);
        lemma_fit_pages_wf(reqs.take(n - 1), size);
        lemma_place_from_requests(fit_pages(reqs.take(n - 1), size), reqs, n - 1, size, 0);
    }
}

/// No two rectangles that fitting puts on one page overlap.
pub proof fn lemma_fit_no_overlap(entries: Seq<Entry>, size: u32)
    ensures
        forall|k: int, i: int, j: int|
            0 <= k < fit_pages(entries, size).len() && 0 <= i < fit_pages(entries, size)[k].placed.len()
                && 0 <= j < fit_pages(entries, size)[k].placed.len() && i != j ==> disjoint(
                #[trigger] fit_pages(entries, size)[k].placed[i],
                #[trigger] fit_pages(entries, size)[k].placed[j],
            ),
{
    lemma_fit_pages_wf(entries, size);
    let pages = fit_pages(entries, size);
    assert forall|k: int, i: int, j: int|
        0 <= k < pages.len() && 0 <= i < pages[k].placed.len() && 0 <= j < pages[k].placed.len() && i
            != j implies disjoint(#[trigger] pages[k].placed[i], #[trigger] pages[k].placed[j]) by {
        assert(page_wf(pages[k]));
    }
}

/// Every rectangle that fitting places lies inside its page.
pub proof fn lemma_fit_in_bounds(entries: Seq<Entry>, size: u32)
    ensures
        forall|k: int, i: int|
            0 <= k < fit_pages(entries, size).len() && 0 <= i < fit_pages(entries, size)[k].placed.len()
                ==> in_bounds(#[trigger] fit_pages(entries, size)[k].placed[i], size),
{
    lemma_fit_pages_wf(entries, size);
    let pages = fit_pages(entries, size);
    assert forall|k: int, i: int| 0 <= k < pages.len() && 0 <= i < pages[k].placed.len() implies in_bounds(
        #[trigger] pages[k].placed[i],
        size,
    ) by {
        assert(page_wf(pages[k]));
        lemma_wf_in_bounds(pages[k], i);
    }
}

/// Fitting is a function of the requests and the page size alone: the same requests
/// at the same size give the same pages, whatever the border.
pub proof fn lemma_fit_deterministic(a: Seq<Entry>, b: Seq<Entry>, size: u32)
    requires
        a == b,
    ensures
        fit_pages(a, size) == fit_pages(b, size),
{
}

/// The ids placed on one page.
pub open spec fn page_ids(p: PageModel) -> Multiset<usize> {
    p.placed.map_values(|q: EntryWithPosition| q.id).to_multiset()
}

/// The ids placed across a list of pages.
pub open spec fn pages_ids(pages: Seq<PageModel>) -> Multiset<usize>
    decreases pages.len(),
{
    if pages.len() == 0 {
        Multiset::empty()
    } else {
        pages_ids(pages.drop_last()).add(page_ids(pages.last()))
    }
}

/// The ids of the requests that are not larger than the page in either dimension.
pub open spec fn kept_ids(entries: Seq<Entry>, size: u32) -> Multiset<usize>
    decreases entries.len(),
{
    if entries.len() == 0 {
        Multiset::empty()
    } else if oversized(entries.last(), size) {
        kept_ids(entries.drop_last(), size)
    } else {
        kept_ids(entries.drop_last(), size).insert(entries.last().id)
    }
}

proof fn lemma_place_ids(p: PageModel, e: Entry)
    requires
        place(p, e) is Some,
    ensures
        page_ids(place(p, e)->Some_0) == page_ids(p).insert(e.id),
{
    broadcast use vstd::seq_lib::group_to_multiset_ensures;

    let q = place(p, e)->Some_0;
    let f = |r: EntryWithPosition| r.id;
    let pl = if first_candidate_from(p.rows, e, 0) >= 0 {
        placed_at(e, p.rows[first_candidate_from(p.rows, e, 0)].end_x, p.rows[first_candidate_from(p.rows, e, 0)].y)
    } else {
        placed_at(e, 0, p.used_height)
    };
    assert(q.placed == p.placed.push(pl));
    assert(q.placed.map_values(f) =~= p.placed.map_values(f).push(e.id));
}

proof fn lemma_pages_ids_update(pages: Seq<PageModel>, i: int, p: PageModel, v: usize)
    requires
        0 <= i < pages.len(),
        page_ids(p) == page_ids(pages[i]).insert(v),
    ensures
        pages_ids(pages.update(i, p)) == pages_ids(pages).insert(v),
    decreases pages.len(),
{
    let u = pages.update(i, p);
    if i == pages.len() - 1 {
        assert(u.drop_last() =~= pages.drop_last());
    } else {
        assert(u.drop_last() =~= pages.drop_last().update(i, p));
        lemma_pages_ids_update(pages.drop_last(), i, p, v);
    }
    assert(pages_ids(u) =~= pages_ids(pages).insert(v));
}

proof fn lemma_place_from_ids(pages: Seq<PageModel>, e: Entry, size: u32, i: int)
    requires
        all_pages_wf(pages, size),
        0 <= i,
    ensures
        !oversized(e, size) ==> pages_ids(place_from(pages, e, size, i)) == pages_ids(pages).insert(e.id),
        oversized(e, size) ==> pages_ids(place_from(pages, e, size, i)) == pages_ids(pages),
    decreases pages.len() - i,
{
    if i < pages.len() {
        assert(page_wf(pages[i]));
        lemma_place_wf(pages[i], e);
        if place(pages[i], e) is None {
            lemma_place_from_ids(pages, e, size, i + 1);
        } else {
            lemma_place_ids(pages[i], e);
            lemma_pages_ids_update(pages, i, place(pages[i], e)->Some_0, e.id);
        }
    } else {
        let z = empty_page(size);
        assert(page_wf(z));
        lemma_place_wf(z, e);
        if !oversized(e, size) {
            lemma_place_ids(z, e);
            let q = place(z, e)->Some_0;
            assert(z.placed.map_values(|q: EntryWithPosition| q.id) =~= Seq::<usize>::empty());
            assert(page_ids(z) =~= Multiset::empty()) by {
                broadcast use vstd::seq_lib::group_to_multiset_ensures;
            }
            assert(pages.push(q).drop_last() =~= pages);
            assert(pages_ids(pages.push(q)) =~= pages_ids(pages).insert(e.id));
        }
    }
}

/// Every request that is not larger than the page is placed exactly once, and no
/// other id appears: the ids on the pages are the submitted ids less the oversized ones.
pub proof fn lemma_fit_conserves_ids(entries: Seq<Entry>, size: u32)
    ensures
        pages_ids(fit_pages(entries, size)) == kept_ids(entries, size),
    decreases entries.len(),
{
    if entries.len() > 0 {
        lemma_fit_conserves_ids(entries.drop_last(), size);
        lemma_fit_pages_wf(entries.drop_last(), size);
        lemma_place_from_ids(fit_pages(entries.drop_last(), size), entries.last(), size, 0);
    }
}

/// The ids of the requests that no page of side `size` can hold, in queue order.
pub open spec fn dropped_ids(entries: Seq<Entry>, size: u32) -> Seq<usize>
    decreases entries.len(),
{
    if entries.len() == 0 {
        seq![]
    } else if oversized(entries.last(), size) {
        dropped_ids(entries.drop_last(), size).push(entries.last().id)
    } else {
        dropped_ids(entries.drop_last(), size)
    }
}

/// The queue of requests waiting to be placed.
pub struct AtlasFitter {
    entries: Vec<Entry>,
}

impl View for AtlasFitter {
    type V = Seq<Entry>;

    closed spec fn view(&self) -> Seq<Entry> {
        self.entries@
    }
}

impl AtlasFitter {
    pub fn new() -> (r: AtlasFitter)
        ensures
            r@ == Seq::<Entry>::empty(),
    {
        AtlasFitter { entries: Vec::new() }
    }

    /// Queues a request; nothing is checked until fitting.
    pub fn add_entry(&mut self, id: usize, width: u32, height: u32)
        ensures
            final(self)@ == old(self)@.push(Entry { id, width, height }),
    {
        let e = Entry::new(id, width, height);
        self.entries.push(e);
    }

    /// The ids of the queued requests that fitting at `size` drops because they are
    /// wider or taller than the page.
    pub fn rejected(&self, size: u32) -> (r: Vec<usize>)
        ensures
            r@ == dropped_ids(self@, size),
    {
        let mut r: Vec<usize> = Vec::new();
        let mut i: usize = 0;
        while i < self.entries.len()
            invariant
                i <= self@.len(),
                r@ == dropped_ids(self@.take(i as int), size),
            decreases self@.len() - i,
        {
            let e = self.entries[i];
            proof {
                assert(self@.take(i as int + 1).drop_last() =~= self@.take(i as int));
            }
            if e.width > size || e.height > size {
                r.push(e.id);
            }
            i = i + 1;
        }
        proof {
            assert(self@.take(i as int) =~= self@);
        }
        r
    }

    /// Places the queued requests, in queue order, on square pages of side `size`.
    /// `border` is not applied here: callers inflate the dimensions they submit.
    pub fn fit(&self, size: u32, border: u32) -> (pages: Vec<Page>)
        ensures
            page_views(pages@) == fit_pages(self@, size),
            forall|k: int| 0 <= k < pages@.len() ==> (#[trigger] pages@[k]).wf(),
    {
        let mut pages: Vec<Page> = Vec::new();
        let mut i: usize = 0;
        proof {
            assert(page_views(pages@) =~= fit_pages(self@.take(0), size));
        }
        while i < self.entries.len()
            invariant
                i <= self@.len(),
                page_views(pages@) == fit_pages(self@.take(i as int), size),
                forall|k: int| 0 <= k < pages@.len() ==> (#[trigger] pages@[k]).wf() && pages@[k]@.size == size,
            decreases self@.len() - i,
        {
            let e = self.entries[i];
            let ghost before = page_views(pages@);
            proof {
                assert(self@.take(i as int + 1).drop_last() =~= self@.take(i as int));
                assert(self@.take(i as int + 1).last() == e);
            }
            let mut did_fit = false;
            let mut j: usize = 0;
            while j < pages.len()
                invariant
                    j <= pages@.len(),
                    pages@.len() == before.len(),
                    did_fit ==> j == pages@.len(),
                    !did_fit ==> page_views(pages@) == before && place_from(before, e, size, 0) == place_from(
                        before,
                        e,
                        size,
                        j as int,
                    ),
                    did_fit ==> page_views(pages@) == place_from(before, e, size, 0),
                    forall|k: int| 0 <= k < pages@.len() ==> (#[trigger] pages@[k]).wf() && pages@[k]@.size == size,
                decreases pages@.len() - j,
            {
                let ghost old_pages = pages@;
                let ok = pages[j].fit_entry(&e);
                proof {
                    assert(page_views(pages@) =~= page_views(old_pages).update(j as int, pages@[j as int]@));
                }
                if ok {
                    proof {
                        assert(before[j as int] == old_pages[j as int]@);
                        assert(place_from(before, e, size, j as int) == before.update(
                            j as int,
                            place(before[j as int], e)->Some_0,
                        ));
                    }
                    did_fit = true;
                    j = pages.len();
                } else {
                    proof {
                        assert(page_views(pages@) =~= page_views(old_pages));
                    }
                    j = j + 1;
                }
            }
            if !did_fit {
                let mut p = Page::new(size, border);
                let ok = p.fit_entry(&e);
                if ok {
                    let ghost old_pages = pages@;
                    pages.push(p);
                    proof {
                        assert(page_views(pages@) =~= page_views(old_pages).push(p@));
                    }
                }
            }
            i = i + 1;
        }
        proof {
            assert(self@.take(i as int) =~= self@);
        }
        pages
    }
}

} // verus!
