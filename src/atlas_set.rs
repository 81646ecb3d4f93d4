use vstd::prelude::*;

use crate::atlas::{atlas_wf, composite, moved_to, start_canvas, Atlas, AtlasEntry, AtlasModel, EntryView};
use crate::fitter::{
    kept_ids, lemma_fit_conserves_ids, oversized, pages_ids,
    fit_pages, lemma_fit_matches_requests, lemma_fit_pages_wf, lemma_wf_in_bounds, page_views, page_wf, AtlasFitter,
    Entry, EntryWithPosition,
};

verus! {

/// The page size that autosizing stops at when no maximum is given.
pub const DEFAULT_MAXIMUM_SIZE: u32 = 65536;

/// Position at which `order` gets the next index of height `h`: before the first
/// index whose height is lower, so that equal heights keep their input order.
pub open spec fn first_lower(order: Seq<usize>, heights: Seq<u32>, h: u32, i: int) -> int
    decreases order.len() - i,
{
    if i < 0 || i >= order.len() {
        order.len() as int
    } else if heights[order[i] as int] < h {
        i
    } else {
        first_lower(order, heights, h, i + 1)
    }
}

/// The indices `0..n` ordered by descending height, ties in input order.
pub open spec fn height_order(heights: Seq<u32>, n: int) -> Seq<usize>
    decreases n,
{
    if n <= 0 {
        seq![]
    } else {
        let o = height_order(heights, n - 1);
        o.insert(first_lower(o, heights, heights[n - 1], 0), (n - 1) as usize)
    }
}

proof fn lemma_first_lower_range(order: Seq<usize>, heights: Seq<u32>, h: u32, i: int)
    requires
        0 <= i <= order.len(),
    ensures
        i <= first_lower(order, heights, h, i) <= order.len(),
    decreases order.len() - i,
{
    if i < order.len() && heights[order[i] as int] >= h {
        lemma_first_lower_range(order, heights, h, i + 1);
    }
}

pub proof fn lemma_height_order_indices(heights: Seq<u32>, n: int)
    requires
        0 <= n,
    ensures
        height_order(heights, n).len() == n,
        forall|k: int| 0 <= k < n ==> (#[trigger] height_order(heights, n)[k]) < n,
    decreases n,
{
    if n > 0 {
        let o = height_order(heights, n - 1);
        lemma_height_order_indices(heights, n - 1);
        lemma_first_lower_range(o, heights, heights[n - 1], 0);
        let p = first_lower(o, heights, heights[n - 1], 0);
        assert forall|k: int| 0 <= k < n implies (#[trigger] height_order(heights, n)[k]) < n by {
            if k < p {
                assert(height_order(heights, n)[k] == o[k]);
            } else if k > p {
                assert(height_order(heights, n)[k] == o[k - 1]);
            }
        }
    }
}

/// `i` appears in `o`.
pub open spec fn has_index(o: Seq<usize>, i: int) -> bool {
    exists|j: int| 0 <= j < o.len() && o[j] as int == i
}

proof fn lemma_insert_keeps(o: Seq<usize>, p: int, v: usize, x: int)
    requires
        0 <= p <= o.len(),
        has_index(o, x),
    ensures
        has_index(o.insert(p, v), x),
{
    let j = choose|j: int| 0 <= j < o.len() && o[j] as int == x;
    if j < p {
        assert(o.insert(p, v)[j] == x);
    } else {
        assert(o.insert(p, v)[j + 1] == x);
    }
}

/// Every index below `n` appears in the height order.
pub proof fn lemma_height_order_is_permutation(heights: Seq<u32>, n: int)
    requires
        0 <= n <= usize::MAX,
    ensures
        forall|i: int| 0 <= i < n ==> #[trigger] has_index(height_order(heights, n), i),
    decreases n,
{
    if n > 0 {
        let o = height_order(heights, n - 1);
        lemma_height_order_is_permutation(heights, n - 1);
        lemma_height_order_indices(heights, n - 1);
        let p = first_lower(o, heights, heights[n - 1], 0);
        lemma_first_lower_range(o, heights, heights[n - 1], 0);
        let r = o.insert(p, (n - 1) as usize);
        assert forall|i: int| 0 <= i < n implies #[trigger] has_index(r, i) by {
            if i == n - 1 {
                assert(r[p] as int == i);
            } else {
                assert(has_index(o, i));
                lemma_insert_keeps(o, p, (n - 1) as usize, i);
            }
        }
    }
}

/// `o` lists indices by descending height, equal heights in increasing index order.
pub open spec fn ordered_by_height(heights: Seq<u32>, o: Seq<usize>) -> bool {
    forall|j: int, k: int|
        0 <= j < k < o.len() ==> heights[#[trigger] o[j] as int] > heights[#[trigger] o[k] as int] || (
        heights[o[j] as int] == heights[o[k] as int] && o[j] < o[k])
}

proof fn lemma_first_lower_split(o: Seq<usize>, heights: Seq<u32>, h: u32, i: int)
    requires
        0 <= i <= o.len(),
    ensures
        forall|m: int| i <= m < first_lower(o, heights, h, i) ==> heights[#[trigger] o[m] as int] >= h,
        first_lower(o, heights, h, i) < o.len() ==> heights[o[first_lower(o, heights, h, i)] as int] < h,
    decreases o.len() - i,
{
    if i < o.len() && heights[o[i] as int] >= h {
        lemma_first_lower_split(o, heights, h, i + 1);
    }
}

/// The height order is sorted: descending by height, ties kept in input order.
pub proof fn lemma_height_order_sorted(heights: Seq<u32>, n: int)
    requires
        0 <= n <= heights.len(),
        n <= usize::MAX,
    ensures
        ordered_by_height(heights, height_order(heights, n)),
    decreases n,
{
    if n > 0 {
        let o = height_order(heights, n - 1);
        let v = (n - 1) as usize;
        let h = heights[n - 1];
        lemma_height_order_sorted(heights, n - 1);
        lemma_height_order_indices(heights, n - 1);
        lemma_first_lower_range(o, heights, h, 0);
        lemma_first_lower_split(o, heights, h, 0);
        let p = first_lower(o, heights, h, 0);
        let r = o.insert(p, v);
        assert forall|j: int, k: int| 0 <= j < k < r.len() implies heights[#[trigger] r[j] as int]
            > heights[#[trigger] r[k] as int] || (heights[r[j] as int] == heights[r[k] as int] && r[j]
            < r[k]) by {
            if k < p {
                assert(r[j] == o[j] && r[k] == o[k]);
            } else if k == p {
                assert(r[j] == o[j]);
                assert(heights[o[j] as int] >= h);
                assert(o[j] < n - 1);
            } else if j > p {
                assert(r[j] == o[j - 1] && r[k] == o[k - 1]);
            } else if j == p {
                assert(r[k] == o[k - 1]);
                assert(heights[o[p] as int] < h);
                if k - 1 > p {
                    assert(heights[o[p] as int] > heights[o[k - 1] as int] || heights[o[p] as int]
                        == heights[o[k - 1] as int]);
                }
            } else {
                assert(r[j] == o[j] && r[k] == o[k - 1]);
            }
        }
    }
}

/// The order in which entries are handed to the fitter: indices sorted stably by
/// descending height.
pub fn sort_by_height(heights: &Vec<u32>) -> (order: Vec<usize>)
    ensures
        order@ == height_order(heights@, heights@.len() as int),
        order@.len() == heights@.len(),
        ordered_by_height(heights@, order@),
        forall|i: int| 0 <= i < heights@.len() ==> #[trigger] has_index(order@, i),
{
    let mut order: Vec<usize> = Vec::new();
    let mut n: usize = 0;
    while n < heights.len()
        invariant
            n <= heights@.len(),
            order@ == height_order(heights@, n as int),
        decreases heights@.len() - n,
    {
        proof {
            lemma_height_order_indices(heights@, n as int);
        }
        let h = heights[n];
        let mut i: usize = 0;
        while i < order.len() && heights[order[i]] >= h
            invariant
                i <= order@.len(),
                order@ == height_order(heights@, n as int),
                order@.len() == n,
                n < heights@.len(),
                forall|k: int| 0 <= k < n ==> (#[trigger] order@[k]) < n,
                first_lower(order@, heights@, h, 0) == first_lower(order@, heights@, h, i as int),
            decreases order@.len() - i,
        {
            i = i + 1;
        }
        order.insert(i, n);
        n = n + 1;
    }
    proof {
        lemma_height_order_indices(heights@, n as int);
        lemma_height_order_sorted(heights@, n as int);
        lemma_height_order_is_permutation(heights@, n as int);
    }
    order
}

/// A dimension grown by the border on both sides, saturating at the largest `u32`.
pub open spec fn inflate(d: u32, border: u32) -> u32 {
    if d + 2 * border > u32::MAX {
        u32::MAX
    } else {
        (d + 2 * border) as u32
    }
}

fn inflate_exec(d: u32, border: u32) -> (r: u32)
    ensures
        r == inflate(d, border),
{
    let v: u64 = d as u64 + 2 * (border as u64);
    if v > u32::MAX as u64 {
        u32::MAX
    } else {
        v as u32
    }
}

pub open spec fn input_heights(inputs: Seq<EntryView>) -> Seq<u32> {
    inputs.map_values(|e: EntryView| e.height)
}

pub open spec fn input_order(inputs: Seq<EntryView>) -> Seq<usize> {
    height_order(input_heights(inputs), inputs.len() as int)
}

/// The requests handed to the fitter: request `i` is the `i`-th input in height order,
/// with both dimensions grown by the border.
pub open spec fn requests_of(inputs: Seq<EntryView>, border: u32) -> Seq<Entry> {
    let order = input_order(inputs);
    Seq::new(
        inputs.len(),
        |i: int|
            Entry {
                id: i as usize,
                width: inflate(inputs[order[i] as int].width, border),
                height: inflate(inputs[order[i] as int].height, border),
            },
    )
}

/// The number of pages that fitting the inputs at `size` gives.
pub open spec fn page_count(inputs: Seq<EntryView>, border: u32, size: u32) -> int {
    fit_pages(requests_of(inputs, border), size).len() as int
}

/// The atlas entry for one placement: its input, moved inside its border.
pub open spec fn entry_for(inputs: Seq<EntryView>, border: u32, q: EntryWithPosition) -> EntryView {
    moved_to(inputs[input_order(inputs)[q.id as int] as int], (q.x + border) as u32, (q.y + border) as u32)
}

/// The atlas entries for a page's placements, in placement order.
pub open spec fn entries_for(inputs: Seq<EntryView>, border: u32, placed: Seq<EntryWithPosition>) -> Seq<EntryView> {
    placed.map_values(|q: EntryWithPosition| entry_for(inputs, border, q))
}

/// The atlas that page `k` of the fit at `size` becomes.
pub open spec fn atlas_for(inputs: Seq<EntryView>, border: u32, size: u32, k: int) -> AtlasModel {
    AtlasModel {
        size,
        border,
        entries: entries_for(inputs, border, fit_pages(requests_of(inputs, border), size)[k].placed),
        image: None,
    }
}

/// The page size autosizing settles on, searching from `s`: the first doubling with
/// one page, else `maximum` once the next doubling would exceed it.
pub open spec fn autosize_from(inputs: Seq<EntryView>, border: u32, maximum: u32, s: u32) -> u32
    decreases maximum - s,
{
    if page_count(inputs, border, s) == 1 {
        s
    } else if 2 * s > maximum {
        maximum
    } else if s == 0 {
        maximum
    } else {
        autosize_from(inputs, border, maximum, (2 * s) as u32)
    }
}

/// Whenever a single page of the maximum size holds the whole fit, autosizing ends
/// with a single page.
pub proof fn lemma_autosize_single_page(inputs: Seq<EntryView>, border: u32, maximum: u32, s: u32)
    requires
        page_count(inputs, border, maximum) == 1,
    ensures
        page_count(inputs, border, autosize_from(inputs, border, maximum, s)) == 1,
    decreases maximum - s,
{
    if page_count(inputs, border, s) != 1 && 2 * s <= maximum && s != 0 {
        lemma_autosize_single_page(inputs, border, maximum, (2 * s) as u32);
    }
}

proof fn lemma_kept_all(entries: Seq<Entry>, size: u32)
    ensures
        kept_ids(entries, size).len() <= entries.len(),
        kept_ids(entries, size).len() == entries.len() ==> forall|i: int|
            0 <= i < entries.len() ==> !oversized(#[trigger] entries[i], size),
    decreases entries.len(),
{
    if entries.len() > 0 {
        let d = entries.drop_last();
        lemma_kept_all(d, size);
        if kept_ids(entries, size).len() == entries.len() {
            assert forall|i: int| 0 <= i < entries.len() implies !oversized(#[trigger] entries[i], size) by {
                if i < d.len() {
                    assert(entries[i] == d[i]);
                }
            }
        }
    }
}

/// Where the pages at the size autosizing settles on hold every input, that size is
/// at least the largest input dimension grown by the border.
pub proof fn lemma_autosize_covers_inputs(inputs: Seq<EntryView>, border: u32, maximum: u32)
    requires
        inputs.len() <= usize::MAX,
        pages_ids(
            fit_pages(requests_of(inputs, border), autosize_from(inputs, border, maximum, 2)),
        ).len() == inputs.len(),
    ensures
        forall|i: int|
            0 <= i < inputs.len() ==> inflate((#[trigger] inputs[i]).width, border) <= autosize_from(
                inputs,
                border,
                maximum,
                2,
            ) && inflate(inputs[i].height, border) <= autosize_from(inputs, border, maximum, 2)
                && inputs[i].width <= autosize_from(inputs, border, maximum, 2) && inputs[i].height
                <= autosize_from(inputs, border, maximum, 2),
{
    let size = autosize_from(inputs, border, maximum, 2);
    let reqs = requests_of(inputs, border);
    let order = input_order(inputs);
    lemma_fit_conserves_ids(reqs, size);
    lemma_kept_all(reqs, size);
    lemma_height_order_indices(input_heights(inputs), inputs.len() as int);
    lemma_height_order_is_permutation(input_heights(inputs), inputs.len() as int);
    assert forall|i: int| 0 <= i < inputs.len() implies inflate((#[trigger] inputs[i]).width, border)
        <= size && inflate(inputs[i].height, border) <= size && inputs[i].width <= size && inputs[i].height
        <= size by {
        assert(has_index(order, i));
        let j = choose|j: int| 0 <= j < order.len() && order[j] as int == i;
        assert(!oversized(reqs[j], size));
        assert(reqs[j].width == inflate(inputs[i].width, border));
        assert(reqs[j].height == inflate(inputs[i].height, border));
    }
}

/// A packing job: the decoded inputs, the layout parameters and the resulting atlases.
pub struct AtlasSet {
    border: u32,
    output: Option<String>,
    target_size: Option<u32>,
    maximum_size: Option<u32>,
    reference_path: Option<String>,
    inputs: Vec<AtlasEntry>,
    pub atlases: Vec<Atlas>,
}

impl Default for AtlasSet {
    fn default() -> (r: AtlasSet)
        ensures
            r.inputs_view() == Seq::<EntryView>::empty(),
            r.border_spec() == 0,
            r.target_spec() is None,
            r.maximum_spec() is None,
            r.atlas_models().len() == 0,
    {
        let r = AtlasSet {
            border: 0,
            output: None,
            target_size: None,
            maximum_size: None,
            reference_path: None,
            inputs: Vec::new(),
            atlases: Vec::new(),
        };
        assert(r.inputs_view() =~= Seq::<EntryView>::empty());
        assert(r.atlas_models() =~= Seq::<AtlasModel>::empty());
        r
    }
}

impl AtlasSet {
    pub closed spec fn inputs_view(&self) -> Seq<EntryView> {
        self.inputs@.map_values(|e: AtlasEntry| e@)
    }

    pub closed spec fn atlas_models(&self) -> Seq<AtlasModel> {
        self.atlases@.map_values(|a: Atlas| a@)
    }

    pub closed spec fn border_spec(&self) -> u32 {
        self.border
    }

    pub closed spec fn target_spec(&self) -> Option<u32> {
        self.target_size
    }

    pub closed spec fn maximum_spec(&self) -> Option<u32> {
        self.maximum_size
    }

    pub closed spec fn output_spec(&self) -> Option<Seq<char>> {
        match self.output {
            Some(s) => Some(s@),
            None => None,
        }
    }

    pub closed spec fn reference_spec(&self) -> Option<Seq<char>> {
        match self.reference_path {
            Some(s) => Some(s@),
            None => None,
        }
    }

    /// Everything but the atlases and the target size is the same in both.
    pub open spec fn same_job(&self, other: &AtlasSet) -> bool {
        &&& self.inputs_view() == other.inputs_view()
        &&& self.border_spec() == other.border_spec()
        &&& self.maximum_spec() == other.maximum_spec()
        &&& self.output_spec() == other.output_spec()
        &&& self.reference_spec() == other.reference_spec()
    }

    /// The atlases are those that fitting the inputs at `size` gives.
    pub open spec fn fitted_at(&self, size: u32) -> bool {
        let n = page_count(self.inputs_view(), self.border_spec(), size);
        &&& self.atlas_models().len() == n
        &&& forall|k: int|
            0 <= k < n ==> #[trigger] self.atlas_models()[k] == atlas_for(
                self.inputs_view(),
                self.border_spec(),
                size,
                k,
            )
    }

    /// Lays the inputs out on pages of the target size: inputs sorted stably by
    /// descending height, grown by the border, fitted, and bound back to their entries.
    /// Returns the number of pages; nothing is composited yet.
    pub fn refit(&mut self) -> (n: usize)
        requires
            old(self).target_spec() is Some,
        ensures
            final(self).same_job(old(self)),
            final(self).target_spec() == old(self).target_spec(),
            final(self).fitted_at(old(self).target_spec()->Some_0),
            n == page_count(old(self).inputs_view(), old(self).border_spec(), old(self).target_spec()->Some_0),
    {
        let size = match self.target_size {
            Some(s) => s,
            None => 0,
        };
        let border = self.border;
        let ghost inputs = self.inputs_view();
        let mut heights: Vec<u32> = Vec::new();
        let mut i: usize = 0;
        while i < self.inputs.len()
            invariant
                i <= self.inputs@.len(),
                inputs == self.inputs_view(),
                heights@ == input_heights(inputs).take(i as int),
            decreases self.inputs@.len() - i,
        {
            heights.push(self.inputs[i].height);
            i = i + 1;
            proof {
                assert(heights@ =~= input_heights(inputs).take(i as int));
            }
        }
        proof {
            assert(heights@ =~= input_heights(inputs));
        }
        let order = sort_by_height(&heights);
        proof {
            lemma_height_order_indices(heights@, heights@.len() as int);
        }
        let ghost reqs = requests_of(inputs, border);
        let mut fitter = AtlasFitter::new();
        let mut idx: usize = 0;
        while idx < order.len()
            invariant
                idx <= order@.len(),
                order@ == input_order(inputs),
                order@.len() == inputs.len(),
                forall|m: int| 0 <= m < order@.len() ==> (#[trigger] order@[m]) < order@.len(),
                inputs == self.inputs_view(),
                border == self.border,
                reqs == requests_of(inputs, border),
                fitter@ == reqs.take(idx as int),
            decreases order@.len() - idx,
        {
            let e = &self.inputs[order[idx]];
            let w = inflate_exec(e.width, border);
            let h = inflate_exec(e.height, border);
            fitter.add_entry(idx, w, h);
            idx = idx + 1;
            proof {
                assert(fitter@ =~= reqs.take(idx as int));
            }
        }
        proof {
            assert(reqs.take(idx as int) =~= reqs);
        }
        let pages = fitter.fit(size, border);
        let ghost model = fit_pages(reqs, size);
        proof {
            lemma_fit_pages_wf(reqs, size);
            assert(reqs.take(reqs.len() as int) =~= reqs);
            lemma_fit_matches_requests(reqs, size, reqs.len() as int);
        }
        let mut atlases: Vec<Atlas> = Vec::new();
        let mut k: usize = 0;
        while k < pages.len()
            invariant
                k <= pages@.len(),
                page_views(pages@) == model,
                model == fit_pages(reqs, size),
                crate::fitter::all_pages_wf(model, size),
                crate::fitter::placed_from_requests(model, reqs),
                order@ == input_order(inputs),
                order@.len() == inputs.len(),
                forall|m: int| 0 <= m < order@.len() ==> (#[trigger] order@[m]) < order@.len(),
                reqs == requests_of(inputs, border),
                inputs == self.inputs_view(),
                border == self.border,
                atlases@.len() == k,
                forall|j: int| 0 <= j < k ==> (#[trigger] atlases@[j])@ == atlas_for(inputs, border, size, j),
            decreases pages@.len() - k,
        {
            let placed = pages[k].placed();
            let ghost pm = model[k as int];
            proof {
                assert(pm == pages@[k as int]@);
                assert(page_wf(pm));
            }
            let mut a = Atlas::new(size, border);
            let mut i: usize = 0;
            proof {
                assert(entries_for(inputs, border, pm.placed.take(0)) =~= seq![]);
            }
            while i < placed.len()
                invariant
                    i <= placed@.len(),
                    placed@ == pm.placed,
                    page_wf(pm),
                    pm.size == size,
                    pm == model[k as int],
                    k < model.len(),
                    crate::fitter::placed_from_requests(model, reqs),
                    order@ == input_order(inputs),
                    order@.len() == inputs.len(),
                    reqs.len() == inputs.len(),
                    forall|m: int| 0 <= m < order@.len() ==> (#[trigger] order@[m]) < order@.len(),
                    inputs == self.inputs_view(),
                    border == self.border,
                    reqs == requests_of(inputs, border),
                    a@ == (AtlasModel {
                        size,
                        border,
                        entries: entries_for(inputs, border, pm.placed.take(i as int)),
                        image: None,
                    }),
                decreases placed@.len() - i,
            {
                let q = placed[i];
                proof {
                    assert(model[k as int].placed[i as int].id < reqs.len());
                    lemma_wf_in_bounds(pm, i as int);
                }
                let src = &self.inputs[order[q.id]];
                let mut c = src.copy();
                c.set_position(q.x + border, q.y + border);
                a.add_entry(c);
                i = i + 1;
                proof {
                    assert(pm.placed.take(i as int) =~= pm.placed.take(i as int - 1).push(q));
                    assert(entries_for(inputs, border, pm.placed.take(i as int)) =~= entries_for(
                        inputs,
                        border,
                        pm.placed.take(i as int - 1),
                    ).push(entry_for(inputs, border, q)));
                }
            }
            proof {
                assert(pm.placed.take(i as int) =~= pm.placed);
            }
            atlases.push(a);
            k = k + 1;
        }
        self.atlases = atlases;
        proof {
            assert(self.inputs_view() == inputs);
        }
        pages.len()
    }

    /// Searches for the smallest page size, doubling from 2, that needs a single page;
    /// when the next doubling would pass the maximum (65536 unless set), settles on the
    /// maximum. The target size is set to the size found and the set is fitted at it.
    pub fn autosize(&mut self) -> (n: usize)
        ensures
            final(self).same_job(old(self)),
            final(self).target_spec() == Some(
                autosize_from(
                    old(self).inputs_view(),
                    old(self).border_spec(),
                    match old(self).maximum_spec() {
                        Some(m) => m,
                        None => DEFAULT_MAXIMUM_SIZE,
                    },
                    2,
                ),
            ),
            final(self).fitted_at(final(self).target_spec()->Some_0),
            n == page_count(old(self).inputs_view(), old(self).border_spec(), final(self).target_spec()->Some_0),
    {
        let maximum = match self.maximum_size {
            Some(m) => m,
            None => DEFAULT_MAXIMUM_SIZE,
        };
        let ghost start = *self;
        let ghost inputs = self.inputs_view();
        let ghost border = self.border_spec();
        let mut size: u32 = 2;
        loop
            invariant
                start == *old(self),
                self.same_job(&start),
                inputs == start.inputs_view(),
                border == start.border_spec(),
                maximum == match start.maximum_spec() {
                    Some(m) => m,
                    None => DEFAULT_MAXIMUM_SIZE,
                },
                size >= 1,
                autosize_from(inputs, border, maximum, 2) == autosize_from(inputs, border, maximum, size),
            decreases maximum - size,
        {
            self.target_size = Some(size);
            let n = self.refit();
            if n == 1 {
                return n;
            }
            if (size as u64) * 2 > maximum as u64 {
                if size == maximum {
                    return n;
                }
                self.target_size = Some(maximum);
                let m = self.refit();
                return m;
            }
            size = size * 2;
        }
    }

    /// Composites every atlas whose canvas can be made: each one with a well-formed
    /// canvas (or none yet) and whose row length fits in memory; others are left as
    /// they are.
    pub fn blit_all(&mut self)
        ensures
            final(self).same_job(old(self)),
            final(self).target_spec() == old(self).target_spec(),
            final(self).atlas_models().len() == old(self).atlas_models().len(),
            forall|k: int|
                0 <= k < old(self).atlas_models().len() ==> #[trigger] final(self).atlas_models()[k] == if atlas_wf(
                    old(self).atlas_models()[k],
                ) && 4 * old(self).atlas_models()[k].size <= usize::MAX {
                    AtlasModel {
                        image: Some(
                            composite(
                                start_canvas(old(self).atlas_models()[k]),
                                old(self).atlas_models()[k].entries,
                            ),
                        ),
                        ..old(self).atlas_models()[k]
                    }
                } else {
                    old(self).atlas_models()[k]
                },
    {
        let ghost m0 = self.atlas_models();
        let mut k: usize = 0;
        while k < self.atlases.len()
            invariant
                k <= self.atlases@.len(),
                self.atlases@.len() == m0.len(),
                self.same_job(old(self)),
                self.target_spec() == old(self).target_spec(),
                m0 == old(self).atlas_models(),
                forall|j: int|
                    0 <= j < m0.len() ==> #[trigger] self.atlas_models()[j] == if j < k && atlas_wf(m0[j]) && 4
                        * m0[j].size <= usize::MAX {
                        AtlasModel { image: Some(composite(start_canvas(m0[j]), m0[j].entries)), ..m0[j] }
                    } else {
                        m0[j]
                    },
            decreases self.atlases@.len() - k,
        {
            let ghost before = self.atlas_models();
            proof {
                assert(before[k as int] == m0[k as int]);
                assert(self.atlases@[k as int]@ == m0[k as int]);
            }
            if self.atlases[k].canvas_ok() && (self.atlases[k].size() as u64) * 4 <= usize::MAX as u64 {
                self.atlases[k].blit_entries();
            }
            k = k + 1;
            proof {
                assert forall|j: int| 0 <= j < m0.len() implies #[trigger] self.atlas_models()[j] == if j < k && atlas_wf(
                    m0[j],
                ) && 4 * m0[j].size <= usize::MAX {
                    AtlasModel { image: Some(composite(start_canvas(m0[j]), m0[j].entries)), ..m0[j] }
                } else {
                    m0[j]
                } by {
                    if j != k - 1 {
                        assert(self.atlas_models()[j] == before[j]);
                    }
                }
            }
        }
    }

    pub fn with_output(self, output: &str) -> (r: AtlasSet)
        ensures
            r.same_job_but_output(&self),
            r.output_spec() == Some(output@),
    {
        AtlasSet { output: Some(output.to_string()), ..self }
    }

    pub fn with_target_size(self, target_size: u32) -> (r: AtlasSet)
        ensures
            r.same_job(&self),
            r.target_spec() == Some(target_size),
    {
        AtlasSet { target_size: Some(target_size), ..self }
    }

    pub fn target_size(&self) -> (r: &Option<u32>)
        ensures
            *r == self.target_spec(),
    {
        &self.target_size
    }

    pub fn with_border(self, border: u32) -> (r: AtlasSet)
        ensures
            r.inputs_view() == self.inputs_view(),
            r.maximum_spec() == self.maximum_spec(),
            r.target_spec() == self.target_spec(),
            r.border_spec() == border,
    {
        AtlasSet { border, ..self }
    }

    pub fn with_reference_path(self, reference_path: &str) -> (r: AtlasSet)
        ensures
            r.inputs_view() == self.inputs_view(),
            r.border_spec() == self.border_spec(),
            r.maximum_spec() == self.maximum_spec(),
            r.target_spec() == self.target_spec(),
            r.reference_spec() == Some(reference_path@),
    {
        AtlasSet { reference_path: Some(reference_path.to_string()), ..self }
    }

    /// Appends decoded inputs, in order.
    pub fn with_inputs(self, inputs: Vec<AtlasEntry>) -> (r: AtlasSet)
        ensures
            r.inputs_view() == self.inputs_view() + inputs@.map_values(|e: AtlasEntry| e@),
            r.border_spec() == self.border_spec(),
            r.maximum_spec() == self.maximum_spec(),
            r.target_spec() == self.target_spec(),
    {
        let mut s = self;
        let mut inputs = inputs;
        let ghost before = s.inputs_view();
        let ghost added = inputs@.map_values(|e: AtlasEntry| e@);
        s.inputs.append(&mut inputs);
        assert(s.inputs_view() =~= before + added);
        s
    }

    pub fn with_maximum_size(self, maximum_size: u32) -> (r: AtlasSet)
        ensures
            r.inputs_view() == self.inputs_view(),
            r.border_spec() == self.border_spec(),
            r.target_spec() == self.target_spec(),
            r.maximum_spec() == Some(maximum_size),
    {
        AtlasSet { maximum_size: Some(maximum_size), ..self }
    }

    pub open spec fn same_job_but_output(&self, other: &AtlasSet) -> bool {
        &&& self.inputs_view() == other.inputs_view()
        &&& self.border_spec() == other.border_spec()
        &&& self.maximum_spec() == other.maximum_spec()
        &&& self.target_spec() == other.target_spec()
    }

    pub fn output(&self) -> (r: &Option<String>)
        ensures
            match r {
                Some(s) => self.output_spec() == Some(s@),
                None => self.output_spec() is None,
            },
    {
        &self.output
    }

    pub fn reference_path(&self) -> (r: &Option<String>)
        ensures
            match r {
                Some(s) => self.reference_spec() == Some(s@),
                None => self.reference_spec() is None,
            },
    {
        &self.reference_path
    }
}

} // verus!
