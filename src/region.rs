use vstd::prelude::*;

verus! {

/// A rectangle that the line-to-box lookup reports for one source line, in scaled
/// points of the typesetting engine: position of the reference point, width,
/// height above and depth below it.
#[derive(Clone, Copy, Debug, PartialEq, Eq, Structural)]
pub struct GlyphBox {
    pub page: u32,
    pub h: i32,
    pub v: i32,
    pub width: i32,
    pub height: i32,
    pub depth: i32,
}

/// Merged geometry of the boxes of one fragment on one page: horizontal and
/// vertical extent, the baseline, and the width of the box that set it.
#[derive(Clone, Copy, Debug, PartialEq, Eq, Structural)]
pub struct Region {
    pub x_min: i64,
    pub x_max: i64,
    pub y_min: i64,
    pub y_max: i64,
    pub baseline: i64,
    pub baseline_width: i64,
}

/// The region of a fragment on one page.
#[derive(Clone, Copy, Debug, PartialEq, Eq, Structural)]
pub struct PageRegion {
    pub page: u32,
    pub region: Region,
}

/// Why the boxes of a fragment do not give its regions.
#[derive(Clone, Copy, Debug, PartialEq, Eq, Structural)]
pub enum RegionError {
    /// No box was found for any line of the fragment.
    NoBoxes,
    /// Inline math whose boxes lie on more than one page.
    SpansPages,
}

/// Area of the box: width times height plus depth.
pub open spec fn area(b: GlyphBox) -> int {
    b.width as int * (b.height as int + b.depth as int)
}

/// The boxes that count, in order: those with an area above `min_area`, seen
/// neither before (in `seen`) nor earlier in `bs`.
pub open spec fn accepted(seen: Seq<GlyphBox>, bs: Seq<GlyphBox>, min_area: int) -> Seq<GlyphBox>
    decreases bs.len(),
{
    if bs.len() == 0 {
        Seq::empty()
    } else {
        let a = accepted(seen, bs.drop_last(), min_area);
        let b = bs.last();
        if area(b) > min_area && !seen.contains(b) && !a.contains(b) {
            a.push(b)
        } else {
            a
        }
    }
}

/// The boxes of `bs` on page `p`, in order.
pub open spec fn on_page(bs: Seq<GlyphBox>, p: u32) -> Seq<GlyphBox>
    decreases bs.len(),
{
    if bs.len() == 0 {
        Seq::empty()
    } else if bs.last().page == p {
        on_page(bs.drop_last(), p).push(bs.last())
    } else {
        on_page(bs.drop_last(), p)
    }
}

/// The region of a single box.
pub open spec fn box_region(b: GlyphBox) -> Region {
    Region {
        x_min: b.h as i64,
        x_max: (b.h + b.width) as i64,
        y_min: (b.v - b.height) as i64,
        y_max: (b.v + b.depth) as i64,
        baseline: b.v as i64,
        baseline_width: b.width as i64,
    }
}

pub open spec fn min_i64(a: i64, b: i64) -> i64 {
    if a <= b { a } else { b }
}

pub open spec fn max_i64(a: i64, b: i64) -> i64 {
    if a >= b { a } else { b }
}

/// The region grown by one more box: the extents cover it, and a box wider than
/// any before sets the baseline.
pub open spec fn grow(r: Region, b: GlyphBox) -> Region {
    let n = box_region(b);
    Region {
        x_min: min_i64(r.x_min, n.x_min),
        x_max: max_i64(r.x_max, n.x_max),
        y_min: min_i64(r.y_min, n.y_min),
        y_max: max_i64(r.y_max, n.y_max),
        baseline: if n.baseline_width > r.baseline_width { n.baseline } else { r.baseline },
        baseline_width: if n.baseline_width > r.baseline_width {
            n.baseline_width
        } else {
            r.baseline_width
        },
    }
}

/// The region of a non-empty sequence of boxes, folded in order.
pub open spec fn fold_region(bs: Seq<GlyphBox>) -> Region
    decreases bs.len(),
{
    if bs.len() <= 1 {
        box_region(bs[0])
    } else {
        grow(fold_region(bs.drop_last()), bs.last())
    }
}

/// Some box of `bs` lies on page `p`.
pub open spec fn touches(bs: Seq<GlyphBox>, p: u32) -> bool {
    on_page(bs, p).len() > 0
}

/// `rs` holds, by increasing page, one region for each page that the boxes `acc`
/// touch: the fold of the boxes on that page.
pub open spec fn regions_of(rs: Seq<PageRegion>, acc: Seq<GlyphBox>) -> bool {
    &&& forall|k: int, l: int| 0 <= k < l < rs.len() ==> (#[trigger] rs[k]).page < (#[trigger] rs[l]).page
    &&& forall|k: int|
        0 <= k < rs.len() ==> touches(acc, (#[trigger] rs[k]).page) && rs[k].region == fold_region(
            on_page(acc, rs[k].page),
        )
    &&& forall|p: u32| touches(acc, p) ==> exists|k: int| 0 <= k < rs.len() && (#[trigger] rs[k]).page == p
}

fn region_of_box(b: GlyphBox) -> (r: Region)
    ensures
        r == box_region(b),
{
    Region {
        x_min: b.h as i64,
        x_max: b.h as i64 + b.width as i64,
        y_min: b.v as i64 - b.height as i64,
        y_max: b.v as i64 + b.depth as i64,
        baseline: b.v as i64,
        baseline_width: b.width as i64,
    }
}

fn grow_region(r: Region, b: GlyphBox) -> (out: Region)
    ensures
        out == grow(r, b),
{
    let n = region_of_box(b);
    let wider = n.baseline_width > r.baseline_width;
    Region {
        x_min: if r.x_min <= n.x_min { r.x_min } else { n.x_min },
        x_max: if r.x_max >= n.x_max { r.x_max } else { n.x_max },
        y_min: if r.y_min <= n.y_min { r.y_min } else { n.y_min },
        y_max: if r.y_max >= n.y_max { r.y_max } else { n.y_max },
        baseline: if wider { n.baseline } else { r.baseline },
        baseline_width: if wider { n.baseline_width } else { r.baseline_width },
    }
}

/// Whether `b` is in `bs`.
fn holds_box(bs: &Vec<GlyphBox>, b: GlyphBox) -> (r: bool)
    ensures
        r == bs@.contains(b),
{
    let mut i: usize = 0;
    while i < bs.len()
        invariant
            i <= bs@.len(),
            forall|j: int| 0 <= j < i ==> bs@[j] != b,
        decreases bs@.len() - i,
    {
        if bs[i] == b {
            assert(bs@[i as int] == b);
            return true;
        }
        i = i + 1;
    }
    false
}

/// Two different pages are touched by the boxes.
pub open spec fn spans_pages(acc: Seq<GlyphBox>) -> bool {
    exists|p: u32, q: u32| p != q && touches(acc, p) && touches(acc, q)
}

proof fn lemma_on_page_push(acc: Seq<GlyphBox>, b: GlyphBox, q: u32)
    ensures
        on_page(acc.push(b), q) == if b.page == q {
            on_page(acc, q).push(b)
        } else {
            on_page(acc, q)
        },
{
    assert(acc.push(b).drop_last() =~= acc);
}

proof fn lemma_fold_push(s: Seq<GlyphBox>, b: GlyphBox)
    ensures
        fold_region(s.push(b)) == if s.len() == 0 {
            box_region(b)
        } else {
            grow(fold_region(s), b)
        },
{
    assert(s.push(b).drop_last() =~= s);
}

proof fn lemma_touches_member(acc: Seq<GlyphBox>, j: int)
    requires
        0 <= j < acc.len(),
    ensures
        touches(acc, acc[j].page),
    decreases acc.len(),
{
    if j < acc.len() - 1 {
        assert(acc.drop_last()[j] == acc[j]);
        lemma_touches_member(acc.drop_last(), j);
    }
}

proof fn lemma_contains_concat(a: Seq<GlyphBox>, b: Seq<GlyphBox>, x: GlyphBox)
    ensures
        (a + b).contains(x) == (a.contains(x) || b.contains(x)),
{
    if (a + b).contains(x) {
        let i = choose|i: int| 0 <= i < (a + b).len() && (a + b)[i] == x;
        if i < a.len() {
            assert(a[i] == x);
        } else {
            assert(b[i - a.len()] == x);
        }
    }
    if a.contains(x) {
        let i = choose|i: int| 0 <= i < a.len() && a[i] == x;
        assert((a + b)[i] == x);
    }
    if b.contains(x) {
        let i = choose|i: int| 0 <= i < b.len() && b[i] == x;
        assert((a + b)[a.len() + i] == x);
    }
}

/// A box that was already offered earlier adds nothing when it comes again (as
/// when the lookup reports one box for two adjacent lines).
pub proof fn lemma_repeated_box_ignored(seen: Seq<GlyphBox>, bs: Seq<GlyphBox>, b: GlyphBox, min_area: int)
    requires
        bs.contains(b),
    ensures
        accepted(seen, bs.push(b), min_area) == accepted(seen, bs, min_area),
{
    lemma_offered_box_settled(seen, bs, b, min_area);
    assert(bs.push(b).drop_last() =~= bs);
}

proof fn lemma_offered_box_settled(seen: Seq<GlyphBox>, bs: Seq<GlyphBox>, b: GlyphBox, min_area: int)
    requires
        bs.contains(b),
    ensures
        area(b) <= min_area || seen.contains(b) || accepted(seen, bs, min_area).contains(b),
    decreases bs.len(),
{
    let a = accepted(seen, bs.drop_last(), min_area);
    if bs.last() == b {
        if area(b) > min_area && !seen.contains(b) && !a.contains(b) {
            assert(a.push(b)[a.len() as int] == b);
        } else if a.contains(b) {
            lemma_accepted_grows(seen, bs, min_area, b);
        }
    } else {
        let i = choose|i: int| 0 <= i < bs.len() && bs[i] == b;
        assert(bs.drop_last()[i] == b);
        lemma_offered_box_settled(seen, bs.drop_last(), b, min_area);
        if a.contains(b) {
            lemma_accepted_grows(seen, bs, min_area, b);
        }
    }
}

proof fn lemma_accepted_grows(seen: Seq<GlyphBox>, bs: Seq<GlyphBox>, min_area: int, b: GlyphBox)
    requires
        bs.len() > 0,
        accepted(seen, bs.drop_last(), min_area).contains(b),
    ensures
        accepted(seen, bs, min_area).contains(b),
{
    let a = accepted(seen, bs.drop_last(), min_area);
    let i = choose|i: int| 0 <= i < a.len() && a[i] == b;
    assert(a.push(bs.last())[i] == b);
}

/// A box offered among the boxes of the lines of a fragment counts for nothing
/// wherever it stands, where it was seen before (by an earlier fragment, in
/// `seen`), or offered earlier (`pre`, as when the lookup reports one box for two
/// adjacent lines), or where its area is at most `min_area`: the boxes that count,
/// and so the regions and the boxes seen after, are those without it.
pub proof fn lemma_ignored_box_anywhere(
    seen: Seq<GlyphBox>,
    pre: Seq<GlyphBox>,
    post: Seq<GlyphBox>,
    b: GlyphBox,
    min_area: int,
)
    requires
        area(b) <= min_area || seen.contains(b) || pre.contains(b),
    ensures
        accepted(seen, pre.push(b) + post, min_area) == accepted(seen, pre + post, min_area),
    decreases post.len(),
{
    if post.len() == 0 {
        assert(pre.push(b) + post =~= pre.push(b));
        assert(pre + post =~= pre);
        if pre.contains(b) {
            lemma_offered_box_settled(seen, pre, b, min_area);
        }
        assert(pre.push(b).drop_last() =~= pre);
    } else {
        lemma_ignored_box_anywhere(seen, pre, post.drop_last(), b, min_area);
        assert((pre.push(b) + post).drop_last() =~= pre.push(b) + post.drop_last());
        assert((pre + post).drop_last() =~= pre + post.drop_last());
    }
}

/// A box whose area is at most `min_area` adds nothing, and no box that counts
/// has such an area.
pub proof fn lemma_small_box_ignored(seen: Seq<GlyphBox>, bs: Seq<GlyphBox>, z: GlyphBox, min_area: int)
    requires
        area(z) <= min_area,
    ensures
        accepted(seen, bs.push(z), min_area) == accepted(seen, bs, min_area),
        forall|i: int|
            0 <= i < accepted(seen, bs, min_area).len() ==> area(
                #[trigger] accepted(seen, bs, min_area)[i],
            ) > min_area,
{
    assert(bs.push(z).drop_last() =~= bs);
    lemma_accepted_areas(seen, bs, min_area);
}

proof fn lemma_accepted_areas(seen: Seq<GlyphBox>, bs: Seq<GlyphBox>, min_area: int)
    ensures
        forall|i: int|
            0 <= i < accepted(seen, bs, min_area).len() ==> area(
                #[trigger] accepted(seen, bs, min_area)[i],
            ) > min_area,
    decreases bs.len(),
{
    if bs.len() > 0 {
        lemma_accepted_areas(seen, bs.drop_last(), min_area);
        let a = accepted(seen, bs.drop_last(), min_area);
        assert forall|i: int| 0 <= i < accepted(seen, bs, min_area).len() implies area(
            #[trigger] accepted(seen, bs, min_area)[i],
        ) > min_area by {
            if i < a.len() {
                assert(accepted(seen, bs, min_area)[i] == a[i]);
            }
        }
    }
}

/// Folds the boxes that the lookup gave for the lines of one fragment, in line
/// order, into one region per page. A box counts only where its area is above
/// `min_area` and it has not been seen before, in `seen` or earlier in `boxes`;
/// each box that counts is added to `seen`. Fails where no box counts, or where
/// the fragment is inline math and its boxes touch two pages.
pub fn collect_regions(
    seen: &mut Vec<GlyphBox>,
    boxes: &Vec<GlyphBox>,
    min_area: i128,
    inline: bool,
) -> (r: Result<Vec<PageRegion>, RegionError>)
    ensures
        final(seen)@ == old(seen)@ + accepted(old(seen)@, boxes@, min_area as int),
        ({
            let acc = accepted(old(seen)@, boxes@, min_area as int);
            match r {
                Ok(rs) => regions_of(rs@, acc) && acc.len() > 0 && !(inline && spans_pages(acc)),
                Err(RegionError::NoBoxes) => acc.len() == 0,
                Err(RegionError::SpansPages) => acc.len() > 0 && inline && spans_pages(acc),
            }
        }),
{
    let ghost seen0 = seen@;
    let mut regions: Vec<PageRegion> = Vec::new();
    let mut i: usize = 0;
    while i < boxes.len()
        invariant
            i <= boxes@.len(),
            seen@ == seen0 + accepted(seen0, boxes@.subrange(0, i as int), min_area as int),
            regions_of(regions@, accepted(seen0, boxes@.subrange(0, i as int), min_area as int)),
        decreases boxes@.len() - i,
    {
        let ghost acc = accepted(seen0, boxes@.subrange(0, i as int), min_area as int);
        let b = boxes[i];
        proof {
            assert(boxes@.subrange(0, i + 1).drop_last() =~= boxes@.subrange(0, i as int));
            assert(boxes@.subrange(0, i + 1).last() == b);
            let w = b.width as int;
            let hd = b.height as int + b.depth as int;
            assert(-0x1_0000_0000_0000_0000 <= w * hd <= 0x1_0000_0000_0000_0000) by (nonlinear_arith)
                requires
                    -0x8000_0000 <= w <= 0x8000_0000,
                    -0x1_0000_0000 <= hd <= 0x1_0000_0000,
            ;
        }
        let a = (b.width as i128) * (b.height as i128 + b.depth as i128);
        let dup = holds_box(seen, b);
        proof {
            lemma_contains_concat(seen0, acc, b);
        }
        if a > min_area && !dup {
            seen.push(b);
            let ghost acc2 = acc.push(b);
            assert(acc2 == accepted(seen0, boxes@.subrange(0, i + 1), min_area as int));
            let mut k: usize = 0;
            while k < regions.len() && regions[k].page < b.page
                invariant
                    k <= regions@.len(),
                    forall|j: int| 0 <= j < k ==> (#[trigger] regions@[j]).page < b.page,
                decreases regions@.len() - k,
            {
                k = k + 1;
            }
            let ghost old_rs = regions@;
            if k < regions.len() && regions[k].page == b.page {
                let g = grow_region(regions[k].region, b);
                regions.set(k, PageRegion { page: b.page, region: g });
                proof {
                    let rs = regions@;
                    assert forall|l: int| 0 <= l < rs.len() implies touches(acc2, (#[trigger] rs[l]).page)
                        && rs[l].region == fold_region(on_page(acc2, rs[l].page)) by {
                        lemma_on_page_push(acc, b, rs[l].page);
                        if l == k {
                            lemma_fold_push(on_page(acc, b.page), b);
                        }
                    }
                    assert forall|p: u32| touches(acc2, p) implies exists|l: int|
                        0 <= l < rs.len() && (#[trigger] rs[l]).page == p by {
                        lemma_on_page_push(acc, b, p);
                        if p != b.page {
                            assert(touches(acc, p));
                            let l = choose|l: int| 0 <= l < old_rs.len() && (#[trigger] old_rs[l]).page == p;
                            assert(rs[l].page == p);
                        } else {
                            assert(rs[k as int].page == p);
                        }
                    }
                }
            } else {
                regions.insert(k, PageRegion { page: b.page, region: region_of_box(b) });
                proof {
                    let rs = regions@;
                    assert(!touches(acc, b.page)) by {
                        if touches(acc, b.page) {
                            let l = choose|l: int| 0 <= l < old_rs.len() && (#[trigger] old_rs[l]).page == b.page;
                            if l < k {
                                assert(old_rs[l].page < b.page);
                            } else if l > k {
                                assert(old_rs[k as int].page < old_rs[l].page);
                            }
                        }
                    }
                    assert forall|l: int, m: int| 0 <= l < m < rs.len() implies (#[trigger] rs[l]).page
                        < (#[trigger] rs[m]).page by {
                        if m < k {
                            assert(rs[l] == old_rs[l] && rs[m] == old_rs[m]);
                        } else if m == k {
                            assert(rs[l] == old_rs[l]);
                        } else if l < k {
                            assert(rs[l] == old_rs[l] && rs[m] == old_rs[m - 1]);
                        } else if l == k {
                            assert(rs[m] == old_rs[m - 1]);
                            assert(old_rs[k as int].page >= b.page);
                            if m - 1 > k {
                                assert(old_rs[k as int].page < old_rs[m - 1].page);
                            }
                        } else {
                            assert(rs[l] == old_rs[l - 1] && rs[m] == old_rs[m - 1]);
                        }
                    }
                    assert forall|l: int| 0 <= l < rs.len() implies touches(acc2, (#[trigger] rs[l]).page)
                        && rs[l].region == fold_region(on_page(acc2, rs[l].page)) by {
                        lemma_on_page_push(acc, b, rs[l].page);
                        if l == k {
                            lemma_fold_push(on_page(acc, b.page), b);
                        } else if l < k {
                            assert(rs[l] == old_rs[l]);
                        } else {
                            assert(rs[l] == old_rs[l - 1]);
                        }
                    }
                    assert forall|p: u32| touches(acc2, p) implies exists|l: int|
                        0 <= l < rs.len() && (#[trigger] rs[l]).page == p by {
                        lemma_on_page_push(acc, b, p);
                        if p != b.page {
                            assert(touches(acc, p));
                            let l = choose|l: int| 0 <= l < old_rs.len() && (#[trigger] old_rs[l]).page == p;
                            if l < k {
                                assert(rs[l].page == p);
                            } else {
                                assert(rs[l + 1].page == p);
                            }
                        } else {
                            assert(rs[k as int].page == p);
                        }
                    }
                }
            }
        } else {
            assert(acc == accepted(seen0, boxes@.subrange(0, i + 1), min_area as int));
        }
        i = i + 1;
    }
    let ghost acc = accepted(seen0, boxes@, min_area as int);
    assert(boxes@.subrange(0, boxes@.len() as int) =~= boxes@);
    if regions.len() == 0 {
        proof {
            if acc.len() > 0 {
                lemma_touches_member(acc, 0);
            }
        }
        return Err(RegionError::NoBoxes);
    }
    proof {
        let l = 0int;
        assert(touches(acc, regions@[l].page));
    }
    if inline && regions.len() > 1 {
        proof {
            assert(regions@[0].page < regions@[1].page);
            assert(touches(acc, regions@[1].page));
        }
        return Err(RegionError::SpansPages);
    }
    proof {
        if inline && spans_pages(acc) {
            let (p, q) = choose|p: u32, q: u32| p != q && touches(acc, p) && touches(acc, q);
            let l = choose|l: int| 0 <= l < regions@.len() && (#[trigger] regions@[l]).page == p;
            let m = choose|m: int| 0 <= m < regions@.len() && (#[trigger] regions@[m]).page == q;
        }
    }
    Ok(regions)
}

} // verus!
