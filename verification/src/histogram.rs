//! Color histograms: per-color occurrence counts over an image.
//!
//! A histogram is a list of distinct colors with positive counts, kept in
//! first-appearance order, so that every operation on it is deterministic
//! and ties can be broken stably.

use vstd::prelude::*;
use crate::color::Color;

verus! {

/// Index of the first entry holding color `c`, or `-1` when absent.
pub open spec fn find_color_spec(s: Seq<(Color, u64)>, c: Color) -> int
    decreases s.len(),
{
    if s.len() == 0 {
        -1
    } else if s[0].0 == c {
        0
    } else {
        let r = find_color_spec(s.skip(1), c);
        if r < 0 {
            -1
        } else {
            r + 1
        }
    }
}

pub proof fn lemma_find_color(s: Seq<(Color, u64)>, c: Color)
    ensures
        find_color_spec(s, c) < 0 ==> forall|k: int|
            0 <= k < s.len() ==> (#[trigger] s[k]).0 != c,
        find_color_spec(s, c) >= 0 ==> {
            &&& 0 <= find_color_spec(s, c) < s.len()
            &&& s[find_color_spec(s, c)].0 == c
            &&& forall|k: int| 0 <= k < find_color_spec(s, c) ==> (#[trigger] s[k]).0 != c
        },
    decreases s.len(),
{
    if s.len() > 0 {
        lemma_find_color(s.skip(1), c);
        assert(forall|k: int| 0 <= k < s.len() - 1 ==> #[trigger] s.skip(1)[k] == s[k + 1]);
        assert(forall|k: int| 1 <= k < s.len() ==> #[trigger] s[k] == s.skip(1)[k - 1]);
    }
}

/// Sum of the counts of all entries.
pub open spec fn sum_counts_spec(s: Seq<(Color, u64)>) -> int
    decreases s.len(),
{
    if s.len() == 0 {
        0
    } else {
        sum_counts_spec(s.drop_last()) + s.last().1
    }
}

/// One more occurrence of `c`: the first entry for `c` is incremented, or a
/// new entry with count one is appended.
pub open spec fn bump_spec(s: Seq<(Color, u64)>, c: Color) -> Seq<(Color, u64)> {
    let i = find_color_spec(s, c);
    if i < 0 {
        s.push((c, 1u64))
    } else {
        s.update(i, (c, (s[i].1 + 1) as u64))
    }
}

/// The histogram entries of a pixel buffer, in first-appearance order.
pub open spec fn build_hist_spec(pixels: Seq<[u8; 4]>) -> Seq<(Color, u64)>
    decreases pixels.len(),
{
    if pixels.len() == 0 {
        Seq::empty()
    } else {
        bump_spec(build_hist_spec(pixels.drop_last()), pixel_color_spec(pixels.last()))
    }
}

/// The color of a pixel; the fourth channel is discarded.
pub open spec fn pixel_color_spec(p: [u8; 4]) -> Color {
    Color { r: p@[0], g: p@[1], b: p@[2] }
}

/// A mapping from distinct colors to positive occurrence counts, in
/// first-appearance order.
#[derive(Clone, Debug)]
pub struct ColorHistogram {
    pub entries: Vec<(Color, u64)>,
}

impl ColorHistogram {
    /// Distinct colors, positive counts.
    pub open spec fn wf(self) -> bool {
        &&& forall|i: int, j: int|
            0 <= i < j < self.entries@.len() ==> (#[trigger] self.entries@[i]).0 != (
            #[trigger] self.entries@[j]).0
        &&& forall|i: int|
            0 <= i < self.entries@.len() ==> (#[trigger] self.entries@[i]).1 >= 1
    }

    /// The count recorded for `c`; zero when absent.
    pub open spec fn count_of_spec(self, c: Color) -> int {
        let i = find_color_spec(self.entries@, c);
        if i < 0 {
            0
        } else {
            self.entries@[i].1 as int
        }
    }

    /// Sum of all counts: the number of pixels recorded.
    pub open spec fn total_spec(self) -> int {
        sum_counts_spec(self.entries@)
    }

    pub fn new() -> (h: ColorHistogram)
        ensures
            h.entries@ == Seq::<(Color, u64)>::empty(),
            h.wf(),
    {
        ColorHistogram { entries: Vec::new() }
    }

    /// Number of distinct colors.
    pub fn len(&self) -> (n: usize)
        ensures
            n == self.entries@.len(),
    {
        self.entries.len()
    }

    /// The `i`-th entry, in first-appearance order.
    pub fn get(&self, i: usize) -> (e: (Color, u64))
        requires
            i < self.entries@.len(),
        ensures
            e == self.entries@[i as int],
    {
        self.entries[i]
    }
}

/// Exact per-color counts over a pixel buffer; the fourth channel of each
/// pixel is discarded.
pub fn u8rgba_to_color_counts(pixels: Vec<[u8; 4]>) -> (h: ColorHistogram)
    requires
        pixels@.len() < 0x1000000000000,
    ensures
        h.entries@ == build_hist_spec(pixels@),
        h.wf(),
        h.total_spec() == pixels@.len(),
        forall|c: Color| #[trigger] h.count_of_spec(c) == occurrences_spec(pixels@, c),
{
    let mut h = ColorHistogram { entries: Vec::new() };
    let n = pixels.len();
    let mut i: usize = 0;
    proof {
        assert(pixels@.take(0) =~= Seq::<[u8; 4]>::empty());
    }
    while i < n
        invariant
            n == pixels@.len() < 0x1000000000000,
            i <= n,
            h.entries@ == build_hist_spec(pixels@.take(i as int)),
            h.wf(),
            h.total_spec() == i,
            forall|k: int| 0 <= k < h.entries@.len() ==> (#[trigger] h.entries@[k]).1 <= i,
        decreases n - i,
    {
        let p = pixels[i];
        let c = Color { r: p[0], g: p[1], b: p[2] };
        proof {
            assert(pixels@.take(i + 1).drop_last() =~= pixels@.take(i as int));
            assert(pixels@.take(i + 1).last() == pixels@[i as int]);
            assert(c == pixel_color_spec(pixels@[i as int]));
            lemma_find_color(h.entries@, c);
        }
        let ghost entries0 = h.entries@;
        let mut j: usize = 0;
        let mut found: bool = false;
        while j < h.entries.len() && !found
            invariant
                h.entries@ == entries0,
                j <= entries0.len(),
                !found ==> forall|k: int| 0 <= k < j ==> (#[trigger] entries0[k]).0 != c,
                found ==> j < entries0.len() && entries0[j as int].0 == c,
            decreases entries0.len() - j + if found {
                0int
            } else {
                1int
            },
        {
            if h.entries[j].0.r == c.r && h.entries[j].0.g == c.g && h.entries[j].0.b == c.b {
                found = true;
            } else {
                j = j + 1;
            }
        }
        if found {
            proof {
                assert(find_color_spec(entries0, c) == j);
            }
            let old_count = h.entries[j].1;
            h.entries.set(j, (c, old_count + 1));
            proof {
                assert(h.entries@[j as int].0 == c);
                lemma_sum_counts_update(entries0, j as int, (c, (old_count + 1) as u64));
            }
        } else {
            proof {
                assert(find_color_spec(entries0, c) < 0);
            }
            h.entries.push((c, 1));
            proof {
                assert(h.entries@.drop_last() =~= entries0);
                assert(sum_counts_spec(h.entries@) == sum_counts_spec(entries0) + 1);
            }
        }
        i = i + 1;
    }
    proof {
        assert(pixels@.take(n as int) =~= pixels@);
        assert forall|c: Color| #[trigger]
            h.count_of_spec(c) == occurrences_spec(pixels@, c) by {
            lemma_build_hist_counts(pixels@, c);
        }
    }
    h
}

/// Number of pixels of the buffer whose color is `c`.
pub open spec fn occurrences_spec(pixels: Seq<[u8; 4]>, c: Color) -> int
    decreases pixels.len(),
{
    if pixels.len() == 0 {
        0
    } else {
        occurrences_spec(pixels.drop_last(), c) + if pixel_color_spec(pixels.last()) == c {
            1int
        } else {
            0int
        }
    }
}

/// The count a sequence of entries records for `c`; zero when absent.
pub open spec fn count_in_spec(s: Seq<(Color, u64)>, c: Color) -> int {
    let i = find_color_spec(s, c);
    if i < 0 {
        0
    } else {
        s[i].1 as int
    }
}

/// Two sequences with the same colors in the same places are searched alike.
proof fn lemma_find_same_colors(s: Seq<(Color, u64)>, t: Seq<(Color, u64)>, c: Color)
    requires
        s.len() == t.len(),
        forall|k: int| 0 <= k < s.len() ==> (#[trigger] s[k]).0 == t[k].0,
    ensures
        find_color_spec(s, c) == find_color_spec(t, c),
    decreases s.len(),
{
    if s.len() > 0 {
        assert(forall|k: int| 0 <= k < s.len() - 1 ==> #[trigger] s.skip(1)[k] == s[k + 1]);
        assert(forall|k: int| 0 <= k < t.len() - 1 ==> #[trigger] t.skip(1)[k] == t[k + 1]);
        lemma_find_same_colors(s.skip(1), t.skip(1), c);
    }
}

/// Appending an entry leaves earlier finds alone; a fresh color is found at
/// the end.
proof fn lemma_find_push(s: Seq<(Color, u64)>, e: (Color, u64), c: Color)
    ensures
        find_color_spec(s.push(e), c) == if find_color_spec(s, c) >= 0 {
            find_color_spec(s, c)
        } else if e.0 == c {
            s.len() as int
        } else {
            -1int
        },
    decreases s.len(),
{
    if s.len() == 0 {
        assert(s.push(e).len() == 1);
        assert(s.push(e)[0] == e);
        assert(find_color_spec(s, c) == -1);
        if e.0 == c {
            assert(find_color_spec(s.push(e), c) == 0);
        } else {
            assert(s.push(e).skip(1) =~= Seq::<(Color, u64)>::empty());
            assert(find_color_spec(s.push(e).skip(1), c) == -1);
            assert(find_color_spec(s.push(e), c) == -1);
        }
    } else {
        assert(s.push(e)[0] == s[0]);
        assert(s.push(e).skip(1) =~= s.skip(1).push(e));
        lemma_find_push(s.skip(1), e, c);
        if s[0].0 == c {
            assert(find_color_spec(s.push(e), c) == 0);
            assert(find_color_spec(s, c) == 0);
        } else {
            let rp = find_color_spec(s.skip(1).push(e), c);
            assert(find_color_spec(s.push(e), c) == if rp < 0 {
                -1int
            } else {
                rp + 1
            });
            let r = find_color_spec(s.skip(1), c);
            assert(find_color_spec(s, c) == if r < 0 {
                -1int
            } else {
                r + 1
            });
            assert(s.skip(1).len() == s.len() - 1);
            if r >= 0 {
                assert(find_color_spec(s.push(e), c) == find_color_spec(s, c));
            } else if e.0 == c {
                assert(rp == s.len() - 1);
                assert(find_color_spec(s.push(e), c) == s.len() as int);
                assert(find_color_spec(s, c) < 0);
            } else {
                assert(find_color_spec(s.push(e), c) == -1);
                assert(find_color_spec(s, c) < 0);
            }
        }
    }
}

/// Recording one more occurrence raises that color's count by one and
/// leaves every other count alone.
proof fn lemma_bump_count(s: Seq<(Color, u64)>, c0: Color, c: Color)
    requires
        forall|k: int| 0 <= k < s.len() ==> (#[trigger] s[k]).1 < u64::MAX,
    ensures
        count_in_spec(bump_spec(s, c0), c) == count_in_spec(s, c) + if c0 == c {
            1int
        } else {
            0int
        },
{
    lemma_find_color(s, c0);
    lemma_find_color(s, c);
    let i = find_color_spec(s, c0);
    let j = find_color_spec(s, c);
    if i < 0 {
        lemma_find_push(s, (c0, 1u64), c);
        let t = s.push((c0, 1u64));
        assert(bump_spec(s, c0) == t);
        if c0 == c {
            assert(find_color_spec(t, c) == s.len());
            assert(t[s.len() as int] == (c0, 1u64));
        } else {
            if j >= 0 {
                assert(t[j] == s[j]);
            }
        }
    } else {
        let t = s.update(i, (c0, (s[i].1 + 1) as u64));
        assert(bump_spec(s, c0) == t);
        assert(forall|k: int| 0 <= k < s.len() ==> (#[trigger] s[k]).0 == t[k].0);
        lemma_find_same_colors(s, t, c);
        assert(find_color_spec(t, c) == j);
        if c0 == c {
            assert(j == i);
            assert(t[i] == (c0, (s[i].1 + 1) as u64));
        } else {
            if j >= 0 {
                assert(s[j].0 == c && s[i].0 == c0);
                assert(j != i);
                assert(t[j] == s[j]);
            }
        }
    }
}

/// Every count of the built histogram is at most the pixel count.
proof fn lemma_build_hist_counts_bounded(pixels: Seq<[u8; 4]>)
    ensures
        forall|k: int|
            0 <= k < build_hist_spec(pixels).len() ==> (#[trigger] build_hist_spec(
                pixels,
            )[k]).1 <= pixels.len(),
    decreases pixels.len(),
{
    if pixels.len() > 0 {
        lemma_build_hist_counts_bounded(pixels.drop_last());
        let s = build_hist_spec(pixels.drop_last());
        let c0 = pixel_color_spec(pixels.last());
        lemma_find_color(s, c0);
        let i = find_color_spec(s, c0);
        assert forall|k: int|
            0 <= k < build_hist_spec(pixels).len() implies (#[trigger] build_hist_spec(
            pixels,
        )[k]).1 <= pixels.len() by {
            if i < 0 {
                if k < s.len() {
                    assert(build_hist_spec(pixels)[k] == s[k]);
                } else {
                    assert(build_hist_spec(pixels)[k] == (c0, 1u64));
                }
            } else {
                if k != i {
                    assert(build_hist_spec(pixels)[k] == s[k]);
                }
            }
        }
    }
}

/// The built histogram records exactly the occurrence count of every color.
proof fn lemma_build_hist_counts(pixels: Seq<[u8; 4]>, c: Color)
    requires
        pixels.len() < 0x1000000000000,
    ensures
        count_in_spec(build_hist_spec(pixels), c) == occurrences_spec(pixels, c),
    decreases pixels.len(),
{
    if pixels.len() > 0 {
        lemma_build_hist_counts(pixels.drop_last(), c);
        lemma_build_hist_counts_bounded(pixels.drop_last());
        lemma_bump_count(
            build_hist_spec(pixels.drop_last()),
            pixel_color_spec(pixels.last()),
            c,
        );
    }
}

/// Some entry holds color `c`.
pub open spec fn contains_color_spec(s: Seq<(Color, u64)>, c: Color) -> bool {
    exists|i: int| 0 <= i < s.len() && (#[trigger] s[i]).0 == c
}

/// No two entries hold the same color.
pub open spec fn distinct_colors_spec(s: Seq<(Color, u64)>) -> bool {
    forall|i: int, j: int|
        0 <= i < j < s.len() ==> (#[trigger] s[i]).0 != (#[trigger] s[j]).0
}

/// Counts never increase along the sequence.
pub open spec fn sorted_desc_spec(s: Seq<(Color, u64)>) -> bool {
    forall|i: int, j: int| 0 <= i < j < s.len() ==> (#[trigger] s[i]).1 >= (#[trigger] s[j]).1
}

/// `e` inserted before the first entry with a strictly smaller count, so
/// entries of equal count keep their existing order.
pub open spec fn insert_desc_spec(s: Seq<(Color, u64)>, e: (Color, u64)) -> Seq<(Color, u64)>
    decreases s.len(),
{
    if s.len() == 0 {
        seq![e]
    } else if e.1 > s[0].1 {
        seq![e] + s
    } else {
        seq![s[0]] + insert_desc_spec(s.skip(1), e)
    }
}

/// The entries ordered by descending count, stably.
pub open spec fn sort_desc_spec(s: Seq<(Color, u64)>) -> Seq<(Color, u64)>
    decreases s.len(),
{
    if s.len() == 0 {
        Seq::empty()
    } else {
        insert_desc_spec(sort_desc_spec(s.drop_last()), s.last())
    }
}

pub proof fn lemma_insert_desc_props(s: Seq<(Color, u64)>, e: (Color, u64))
    ensures
        insert_desc_spec(s, e).len() == s.len() + 1,
        forall|i: int|
            0 <= i < insert_desc_spec(s, e).len() ==> (#[trigger] insert_desc_spec(s, e)[i] == e
                || exists|m: int| 0 <= m < s.len() && insert_desc_spec(s, e)[i] == s[m]),
        forall|c: Color|
            #[trigger] contains_color_spec(insert_desc_spec(s, e), c) <==> (contains_color_spec(
                s,
                c,
            ) || e.0 == c),
        distinct_colors_spec(s) && !contains_color_spec(s, e.0) ==> distinct_colors_spec(
            insert_desc_spec(s, e),
        ),
        sorted_desc_spec(s) ==> sorted_desc_spec(insert_desc_spec(s, e)),
    decreases s.len(),
{
    let r = insert_desc_spec(s, e);
    if s.len() == 0 {
        assert forall|c: Color| #[trigger]
            contains_color_spec(r, c) <==> (contains_color_spec(s, c) || e.0 == c) by {
            if e.0 == c {
                assert(r[0].0 == c);
            }
        }
    } else if e.1 > s[0].1 {
        assert(r[0] == e);
        assert(forall|i: int| 1 <= i < r.len() ==> #[trigger] r[i] == s[i - 1]);
        assert forall|c: Color| #[trigger]
            contains_color_spec(r, c) <==> (contains_color_spec(s, c) || e.0 == c) by {
            if contains_color_spec(s, c) {
                let w = choose|i: int| 0 <= i < s.len() && (#[trigger] s[i]).0 == c;
                assert(r[w + 1].0 == c);
            }
            if e.0 == c {
                assert(r[0].0 == c);
            }
            if contains_color_spec(r, c) {
                let w = choose|i: int| 0 <= i < r.len() && (#[trigger] r[i]).0 == c;
                if w > 0 {
                    assert(s[w - 1].0 == c);
                }
            }
        }
    } else {
        lemma_insert_desc_props(s.skip(1), e);
        let t = insert_desc_spec(s.skip(1), e);
        assert(r[0] == s[0]);
        assert(forall|i: int| 1 <= i < r.len() ==> #[trigger] r[i] == t[i - 1]);
        assert(forall|k: int| 0 <= k < s.len() - 1 ==> #[trigger] s.skip(1)[k] == s[k + 1]);
        assert(forall|k: int| 1 <= k < s.len() ==> #[trigger] s[k] == s.skip(1)[k - 1]);
        assert forall|i: int|
            0 <= i < r.len() implies (#[trigger] r[i] == e || exists|m: int|
            0 <= m < s.len() && r[i] == s[m]) by {
            if i == 0 {
                assert(r[i] == s[0]);
            } else {
                if !(t[i - 1] == e) {
                    let m = choose|m: int|
                        0 <= m < s.skip(1).len() && t[i - 1] == s.skip(1)[m];
                    assert(r[i] == s[m + 1]);
                }
            }
        }
        assert forall|c: Color| #[trigger]
            contains_color_spec(r, c) <==> (contains_color_spec(s, c) || e.0 == c) by {
            if contains_color_spec(r, c) {
                let w = choose|i: int| 0 <= i < r.len() && (#[trigger] r[i]).0 == c;
                if w == 0 {
                    assert(s[0].0 == c);
                } else {
                    assert(t[w - 1].0 == c);
                    assert(contains_color_spec(t, c));
                }
            }
            if contains_color_spec(s, c) {
                let w = choose|i: int| 0 <= i < s.len() && (#[trigger] s[i]).0 == c;
                if w == 0 {
                    assert(r[0].0 == c);
                } else {
                    assert(s.skip(1)[w - 1].0 == c);
                    assert(contains_color_spec(s.skip(1), c));
                    assert(contains_color_spec(t, c));
                    let v = choose|i: int| 0 <= i < t.len() && (#[trigger] t[i]).0 == c;
                    assert(r[v + 1].0 == c);
                }
            }
            if e.0 == c {
                assert(contains_color_spec(t, c));
                let v = choose|i: int| 0 <= i < t.len() && (#[trigger] t[i]).0 == c;
                assert(r[v + 1].0 == c);
            }
        }
        if distinct_colors_spec(s) && !contains_color_spec(s, e.0) {
            assert(distinct_colors_spec(s.skip(1)));
            assert(!contains_color_spec(s.skip(1), e.0)) by {
                if contains_color_spec(s.skip(1), e.0) {
                    let w = choose|i: int|
                        0 <= i < s.skip(1).len() && (#[trigger] s.skip(1)[i]).0 == e.0;
                    assert(s[w + 1].0 == e.0);
                }
            }
            assert forall|i: int, j: int|
                0 <= i < j < r.len() implies (#[trigger] r[i]).0 != (#[trigger] r[j]).0 by {
                if i == 0 {
                    if t[j - 1] == e {
                        assert(r[j].0 == e.0);
                        assert(r[0].0 != e.0);
                    } else {
                        let m = choose|m: int|
                            0 <= m < s.skip(1).len() && t[j - 1] == s.skip(1)[m];
                        assert(r[j] == s[m + 1]);
                    }
                }
            }
        }
        if sorted_desc_spec(s) {
            assert(sorted_desc_spec(s.skip(1)));
            assert forall|i: int, j: int|
                0 <= i < j < r.len() implies (#[trigger] r[i]).1 >= (#[trigger] r[j]).1 by {
                if i == 0 {
                    if t[j - 1] == e {
                        assert(r[j].1 == e.1);
                    } else {
                        let m = choose|m: int|
                            0 <= m < s.skip(1).len() && t[j - 1] == s.skip(1)[m];
                        assert(r[j] == s[m + 1]);
                    }
                }
            }
        }
    }
}

pub proof fn lemma_sort_desc_props(s: Seq<(Color, u64)>)
    ensures
        sort_desc_spec(s).len() == s.len(),
        forall|i: int|
            0 <= i < sort_desc_spec(s).len() ==> exists|m: int|
                0 <= m < s.len() && #[trigger] sort_desc_spec(s)[i] == s[m],
        forall|c: Color|
            #[trigger] contains_color_spec(sort_desc_spec(s), c) <==> contains_color_spec(s, c),
        distinct_colors_spec(s) ==> distinct_colors_spec(sort_desc_spec(s)),
        sorted_desc_spec(sort_desc_spec(s)),
    decreases s.len(),
{
    let r = sort_desc_spec(s);
    if s.len() == 0 {
        assert forall|c: Color| #[trigger]
            contains_color_spec(r, c) <==> contains_color_spec(s, c) by {}
    } else {
        let d = s.drop_last();
        lemma_sort_desc_props(d);
        lemma_insert_desc_props(sort_desc_spec(d), s.last());
        assert(forall|k: int| 0 <= k < d.len() ==> #[trigger] d[k] == s[k]);
        assert forall|i: int|
            0 <= i < r.len() implies exists|m: int| 0 <= m < s.len() && #[trigger] r[i] == s[m] by {
            if r[i] == s.last() {
                assert(r[i] == s[s.len() - 1]);
            } else {
                let m = choose|m: int|
                    0 <= m < sort_desc_spec(d).len() && r[i] == sort_desc_spec(d)[m];
                let n = choose|n: int| 0 <= n < d.len() && sort_desc_spec(d)[m] == d[n];
                assert(r[i] == s[n]);
            }
        }
        assert forall|c: Color| #[trigger]
            contains_color_spec(r, c) <==> contains_color_spec(s, c) by {
            if contains_color_spec(s, c) {
                let w = choose|i: int| 0 <= i < s.len() && (#[trigger] s[i]).0 == c;
                if w == s.len() - 1 {
                    assert(s.last().0 == c);
                } else {
                    assert(d[w].0 == c);
                    assert(contains_color_spec(d, c));
                }
            }
            if contains_color_spec(r, c) {
                if !contains_color_spec(sort_desc_spec(d), c) && s.last().0 != c {
                    assert(false);
                }
                if contains_color_spec(sort_desc_spec(d), c) {
                    let w = choose|i: int| 0 <= i < d.len() && (#[trigger] d[i]).0 == c;
                    assert(s[w].0 == c);
                } else {
                    assert(s[s.len() - 1].0 == c);
                }
            }
        }
        if distinct_colors_spec(s) {
            assert(distinct_colors_spec(d));
            assert(!contains_color_spec(d, s.last().0)) by {
                if contains_color_spec(d, s.last().0) {
                    let w = choose|i: int|
                        0 <= i < d.len() && (#[trigger] d[i]).0 == s.last().0;
                    assert(s[w].0 == s[s.len() - 1].0);
                }
            }
            assert(!contains_color_spec(sort_desc_spec(d), s.last().0));
        }
    }
}

/// `insert_desc_spec` coincides with inserting at the scanned position: the
/// first index whose count is strictly below the new entry's count.
pub proof fn lemma_insert_desc_at(s: Seq<(Color, u64)>, e: (Color, u64), j: int)
    requires
        0 <= j <= s.len(),
        forall|k: int| 0 <= k < j ==> e.1 <= (#[trigger] s[k]).1,
        j < s.len() ==> e.1 > s[j].1,
    ensures
        insert_desc_spec(s, e) == s.insert(j, e),
    decreases s.len(),
{
    if s.len() == 0 {
        assert(insert_desc_spec(s, e) =~= s.insert(0, e));
    } else if e.1 > s[0].1 {
        assert(j == 0);
        assert(seq![e] + s =~= s.insert(0, e));
    } else {
        assert(j >= 1);
        assert(forall|k: int| 0 <= k < s.len() - 1 ==> #[trigger] s.skip(1)[k] == s[k + 1]);
        lemma_insert_desc_at(s.skip(1), e, j - 1);
        assert(seq![s[0]] + s.skip(1).insert(j - 1, e) =~= s.insert(j, e));
    }
}

/// What a truncation of the sorted entries keeps is never lighter than what
/// it drops: every kept entry's count is at least every dropped entry's.
pub proof fn lemma_sort_desc_take_dominates(s: Seq<(Color, u64)>, k: int, i: int, j: int)
    requires
        0 <= i < k <= j < sort_desc_spec(s).len(),
    ensures
        sort_desc_spec(s).take(k)[i].1 >= sort_desc_spec(s)[j].1,
{
    lemma_sort_desc_props(s);
}

/// The `k` highest-count colors of a histogram, ordered by descending count;
/// colors of equal count keep their first-appearance order. With `k` at or
/// above the number of distinct colors the whole histogram is kept.
pub fn select_top_colors(hist: &ColorHistogram, k: usize) -> (r: ColorHistogram)
    requires
        hist.wf(),
    ensures
        r.entries@ == sort_desc_spec(hist.entries@).take(
            if k <= hist.entries@.len() {
                k as int
            } else {
                hist.entries@.len() as int
            },
        ),
        r.wf(),
        sorted_desc_spec(r.entries@),
        r.entries@.len() == if k <= hist.entries@.len() {
            k as int
        } else {
            hist.entries@.len() as int
        },
{
    let mut sorted: Vec<(Color, u64)> = Vec::new();
    let n = hist.entries.len();
    let mut i: usize = 0;
    proof {
        assert(hist.entries@.take(0) =~= Seq::<(Color, u64)>::empty());
    }
    while i < n
        invariant
            n == hist.entries@.len(),
            i <= n,
            sorted@ == sort_desc_spec(hist.entries@.take(i as int)),
        decreases n - i,
    {
        let e = hist.entries[i];
        proof {
            lemma_sort_desc_props(hist.entries@.take(i as int));
        }
        let mut j: usize = 0;
        while j < sorted.len() && e.1 <= sorted[j].1
            invariant
                j <= sorted@.len(),
                forall|m: int| 0 <= m < j ==> e.1 <= (#[trigger] sorted@[m]).1,
                sorted@ == sort_desc_spec(hist.entries@.take(i as int)),
                i < n,
                n == hist.entries@.len(),
                e == hist.entries@[i as int],
            decreases sorted@.len() - j,
        {
            j = j + 1;
        }
        proof {
            lemma_insert_desc_at(sorted@, e, j as int);
            assert(hist.entries@.take(i + 1).drop_last() =~= hist.entries@.take(i as int));
            assert(hist.entries@.take(i + 1).last() == hist.entries@[i as int]);
        }
        sorted.insert(j, e);
        i = i + 1;
    }
    proof {
        assert(hist.entries@.take(n as int) =~= hist.entries@);
        lemma_sort_desc_props(hist.entries@);
    }
    let kk = if k <= sorted.len() {
        k
    } else {
        sorted.len()
    };
    sorted.truncate(kk);
    proof {
        assert forall|a: int, b: int|
            0 <= a < b < sorted@.len() implies (#[trigger] sorted@[a]).0 != (
        #[trigger] sorted@[b]).0 by {
            assert(sorted@[a] == sort_desc_spec(hist.entries@)[a]);
            assert(sorted@[b] == sort_desc_spec(hist.entries@)[b]);
        }
        assert forall|a: int| 0 <= a < sorted@.len() implies (#[trigger] sorted@[a]).1 >= 1 by {
            assert(sorted@[a] == sort_desc_spec(hist.entries@)[a]);
            let m = choose|m: int|
                0 <= m < hist.entries@.len() && sort_desc_spec(hist.entries@)[a]
                    == hist.entries@[m];
        }
    }
    ColorHistogram { entries: sorted }
}

/// Updating one entry changes the sum by the difference of the counts.
proof fn lemma_sum_counts_update(s: Seq<(Color, u64)>, i: int, e: (Color, u64))
    requires
        0 <= i < s.len(),
    ensures
        sum_counts_spec(s.update(i, e)) == sum_counts_spec(s) - s[i].1 + e.1,
    decreases s.len(),
{
    if s.len() > 0 {
        if i == s.len() - 1 {
            assert(s.update(i, e).drop_last() =~= s.drop_last());
            assert(s.update(i, e).last() == e);
        } else {
            lemma_sum_counts_update(s.drop_last(), i, e);
            assert(s.update(i, e).drop_last() =~= s.drop_last().update(i, e));
            assert(s.update(i, e).last() == s.last());
        }
    }
}

} // verus!
