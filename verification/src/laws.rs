//! The general properties of the extractor, stated and proved over the same
//! specification functions that the executable contracts use.

use vstd::prelude::*;

use crate::extract::{
    back_start, fwd_end, region_output, rendered_range, tag_output, within_indices,
    within_indices_from,
};
use crate::line_format::{marked_line, numbered_line};
use crate::rx::regex_matches;

verus! {

/// The backward scan stops at the nearest start-pattern match at or below
/// the anchor, or at the start of the document when there is none.
pub proof fn lemma_back_start_bounds(doc: Seq<Seq<char>>, rin: Seq<char>, i: int)
    requires
        0 <= i < doc.len(),
    ensures
        0 <= back_start(doc, rin, i) <= i,
        regex_matches(rin, doc[back_start(doc, rin, i)]) || back_start(doc, rin, i) == 0,
        forall|j: int| back_start(doc, rin, i) < j <= i ==> !regex_matches(rin, doc[j]),
    decreases i,
{
    if i == 0 {
    } else if regex_matches(rin, doc[i]) {
    } else {
        lemma_back_start_bounds(doc, rin, i - 1);
    }
}

/// The forward scan stops at the nearest end-pattern match at or above the
/// anchor, or at the last line of the document when there is none.
pub proof fn lemma_fwd_end_bounds(doc: Seq<Seq<char>>, rout: Seq<char>, i: int)
    requires
        0 <= i < doc.len(),
    ensures
        i <= fwd_end(doc, rout, i) < doc.len(),
        regex_matches(rout, doc[fwd_end(doc, rout, i)]) || fwd_end(doc, rout, i) == doc.len() - 1,
        forall|j: int| i <= j < fwd_end(doc, rout, i) ==> !regex_matches(rout, doc[j]),
    decreases doc.len() - i,
{
    if i >= doc.len() - 1 {
    } else if regex_matches(rout, doc[i]) {
    } else {
        lemma_fwd_end_bounds(doc, rout, i + 1);
    }
}

/// A rendered run splits at any interior point.
proof fn lemma_rendered_range_split(doc: Seq<Seq<char>>, numbers: bool, lo: int, m: int, hi: int)
    requires
        lo <= m <= hi + 1,
    ensures
        rendered_range(doc, numbers, lo, hi) == rendered_range(doc, numbers, lo, m - 1)
            + rendered_range(doc, numbers, m, hi),
    decreases hi + 1 - m,
{
    if m == hi + 1 {
        assert(rendered_range(doc, numbers, lo, hi) =~= rendered_range(doc, numbers, lo, m - 1)
            + rendered_range(doc, numbers, m, hi));
    } else {
        lemma_rendered_range_split(doc, numbers, lo, m, hi - 1);
        assert(rendered_range(doc, numbers, lo, hi) =~= rendered_range(doc, numbers, lo, m - 1)
            + rendered_range(doc, numbers, m, hi));
    }
}

/// Law (within mode): the region of an anchor at index `i` is one contiguous
/// run of lines from `b` through `e`, where `b` is the nearest start-pattern
/// match at or below `i` (or the start of the document) and `e` the nearest
/// end-pattern match at or above `i` (or the end of the document); the
/// backward part ends just before the anchor, the forward part begins with
/// it, so the anchor line appears exactly once.
pub proof fn lemma_within_region_runs(
    doc: Seq<Seq<char>>,
    rin: Seq<char>,
    rout: Seq<char>,
    numbers: bool,
    i: int,
)
    requires
        0 <= i < doc.len(),
    ensures
        ({
            let b = back_start(doc, rin, i);
            let e = fwd_end(doc, rout, i);
            &&& 0 <= b <= i <= e < doc.len()
            &&& region_output(doc, rin, rout, numbers, i) == rendered_range(doc, numbers, b, i - 1)
                + rendered_range(doc, numbers, i, e)
            &&& region_output(doc, rin, rout, numbers, i) == rendered_range(doc, numbers, b, e)
            &&& regex_matches(rin, doc[b]) || b == 0
            &&& forall|j: int| b < j <= i ==> !regex_matches(rin, doc[j])
            &&& regex_matches(rout, doc[e]) || e == doc.len() - 1
            &&& forall|j: int| i <= j < e ==> !regex_matches(rout, doc[j])
        }),
{
    lemma_back_start_bounds(doc, rin, i);
    lemma_fwd_end_bounds(doc, rout, i);
    lemma_rendered_range_split(doc, numbers, back_start(doc, rin, i), i, fwd_end(doc, rout, i));
}

proof fn lemma_within_indices_from_exact(doc: Seq<Seq<char>>, rw: Seq<char>, i: int)
    requires
        0 <= i,
    ensures
        ({
            let idxs = within_indices_from(doc, rw, i);
            &&& forall|k: int| 0 <= k < idxs.len() ==> i <= #[trigger] idxs[k] < doc.len()
            &&& forall|k: int|
                0 <= k < idxs.len() ==> regex_matches(rw, doc[#[trigger] idxs[k]])
            &&& forall|k1: int, k2: int|
                0 <= k1 < k2 < idxs.len() ==> #[trigger] idxs[k1] < #[trigger] idxs[k2]
            &&& forall|j: int|
                i <= j < doc.len() && regex_matches(rw, doc[j]) ==> idxs.contains(j)
        }),
    decreases doc.len() - i,
{
    if i < 0 || i >= doc.len() {
    } else {
        lemma_within_indices_from_exact(doc, rw, i + 1);
        let rest = within_indices_from(doc, rw, i + 1);
        let idxs = within_indices_from(doc, rw, i);
        if regex_matches(rw, doc[i]) {
            assert forall|k: int| 0 <= k < idxs.len() implies i <= #[trigger] idxs[k] < doc.len()
                && regex_matches(rw, doc[idxs[k]]) by {
                if k > 0 {
                    assert(idxs[k] == rest[k - 1]);
                }
            }
            assert forall|k1: int, k2: int| 0 <= k1 < k2 < idxs.len() implies #[trigger] idxs[k1]
                < #[trigger] idxs[k2] by {
                if k1 > 0 {
                    assert(idxs[k1] == rest[k1 - 1]);
                }
                assert(idxs[k2] == rest[k2 - 1]);
            }
            assert forall|j: int|
                i <= j < doc.len() && regex_matches(rw, doc[j]) implies idxs.contains(j) by {
                if j == i {
                    assert(idxs[0] == j);
                } else {
                    assert(rest.contains(j));
                    let k = choose|k: int| 0 <= k < rest.len() && rest[k] == j;
                    assert(idxs[k + 1] == j);
                }
            }
        } else {
            assert(idxs =~= rest);
            assert forall|k: int| 0 <= k < idxs.len() implies i <= #[trigger] idxs[k]
                < doc.len() by {
                assert(idxs[k] == rest[k]);
            }
            assert forall|j: int|
                i <= j < doc.len() && regex_matches(rw, doc[j]) implies idxs.contains(j) by {
                assert(j != i);
                assert(rest.contains(j));
            }
        }
    }
}

/// Law (within mode): the anchors are exactly the lines the within pattern
/// matches, in ascending order; every matching line contributes its region.
pub proof fn lemma_within_anchors(doc: Seq<Seq<char>>, rw: Seq<char>)
    ensures
        ({
            let idxs = within_indices(doc, rw);
            &&& forall|k: int| 0 <= k < idxs.len() ==> 0 <= #[trigger] idxs[k] < doc.len()
            &&& forall|k: int|
                0 <= k < idxs.len() ==> regex_matches(rw, doc[#[trigger] idxs[k]])
            &&& forall|k1: int, k2: int|
                0 <= k1 < k2 < idxs.len() ==> #[trigger] idxs[k1] < #[trigger] idxs[k2]
            &&& forall|j: int|
                0 <= j < doc.len() && regex_matches(rw, doc[j]) ==> idxs.contains(j)
        }),
{
    lemma_within_indices_from_exact(doc, rw, 0);
}

/// Law (numbering, within mode): with numbering on, a rendered run carries
/// exactly the document index of each of its lines as a prefix; with it off,
/// the run is the bare document lines.
pub proof fn lemma_rendered_range_numbering(doc: Seq<Seq<char>>, lo: int, hi: int)
    requires
        0 <= lo,
    ensures
        ({
            let with_n = rendered_range(doc, true, lo, hi);
            let bare = rendered_range(doc, false, lo, hi);
            &&& with_n.len() == bare.len()
            &&& bare.len() == if lo > hi {
                0int
            } else {
                hi + 1 - lo
            }
            &&& forall|j: int| 0 <= j < bare.len() ==> #[trigger] bare[j] == doc[lo + j]
            &&& forall|j: int|
                0 <= j < bare.len() ==> #[trigger] rendered_range(doc, true, lo, hi)[j]
                    == numbered_line((lo + j) as nat, doc[lo + j])
        }),
    decreases hi + 1 - lo,
{
    if lo > hi {
    } else {
        lemma_rendered_range_numbering(doc, lo, hi - 1);
        let with_n = rendered_range(doc, true, lo, hi);
        let bare = rendered_range(doc, false, lo, hi);
        assert forall|j: int| 0 <= j < bare.len() implies #[trigger] bare[j] == doc[lo + j] by {
            if j < bare.len() - 1 {
                assert(bare[j] == rendered_range(doc, false, lo, hi - 1)[j]);
            }
        }
        assert forall|j: int| 0 <= j < bare.len() implies #[trigger] with_n[j] == numbered_line(
            (lo + j) as nat,
            doc[lo + j],
        ) by {
            if j < with_n.len() - 1 {
                assert(with_n[j] == rendered_range(doc, true, lo, hi - 1)[j]);
            }
        }
    }
}

/// The document index of each line that tag mode emits, mirroring the
/// two-state scan of [`tag_output`].
pub open spec fn tag_indices(
    doc: Seq<Seq<char>>,
    rin: Seq<char>,
    rout: Seq<char>,
    markers: bool,
    i: int,
    inside: bool,
) -> Seq<int>
    decreases doc.len() - i,
{
    if i < 0 || i >= doc.len() {
        Seq::<int>::empty()
    } else if !inside && regex_matches(rin, doc[i]) {
        let shown = if markers {
            marked_line(doc[i])
        } else {
            doc[i]
        };
        seq![i] + tag_indices(doc, rin, rout, markers, i + 1, !regex_matches(rout, shown))
    } else if inside {
        seq![i] + tag_indices(doc, rin, rout, markers, i + 1, !regex_matches(rout, doc[i]))
    } else {
        tag_indices(doc, rin, rout, markers, i + 1, false)
    }
}

/// Law (numbering, tag mode): with numbering on, tag mode emits exactly the
/// lines it emits with numbering off, each prefixed with its own document
/// index; with markers also off, each emitted line is the document line at
/// its recorded index.
pub proof fn lemma_tag_numbering(
    doc: Seq<Seq<char>>,
    rin: Seq<char>,
    rout: Seq<char>,
    markers: bool,
    i: int,
    inside: bool,
)
    requires
        0 <= i,
    ensures
        ({
            let with_n = tag_output(doc, rin, rout, true, markers, i, inside);
            let bare = tag_output(doc, rin, rout, false, markers, i, inside);
            let idxs = tag_indices(doc, rin, rout, markers, i, inside);
            &&& with_n.len() == bare.len()
            &&& bare.len() == idxs.len()
            &&& forall|j: int| 0 <= j < idxs.len() ==> i <= #[trigger] idxs[j] < doc.len()
            &&& forall|j: int|
                0 <= j < idxs.len() ==> #[trigger] with_n[j] == numbered_line(
                    idxs[j] as nat,
                    bare[j],
                )
            &&& !markers ==> forall|j: int|
                0 <= j < idxs.len() ==> #[trigger] bare[j] == doc[idxs[j]]
        }),
    decreases doc.len() - i,
{
    if i >= doc.len() {
    } else if !inside && regex_matches(rin, doc[i]) {
        let shown = if markers {
            marked_line(doc[i])
        } else {
            doc[i]
        };
        let next = !regex_matches(rout, shown);
        lemma_tag_numbering(doc, rin, rout, markers, i + 1, next);
        lemma_tag_step(doc, rin, rout, markers, i, inside, i + 1, next, shown);
    } else if inside {
        let next = !regex_matches(rout, doc[i]);
        lemma_tag_numbering(doc, rin, rout, markers, i + 1, next);
        lemma_tag_step(doc, rin, rout, markers, i, inside, i + 1, next, doc[i]);
    } else {
        lemma_tag_numbering(doc, rin, rout, markers, i + 1, false);
    }
}

/// One emitting step of the numbering law: the three sequences each grow by
/// the head for line `i`, and the tail facts shift by one.
proof fn lemma_tag_step(
    doc: Seq<Seq<char>>,
    rin: Seq<char>,
    rout: Seq<char>,
    markers: bool,
    i: int,
    inside: bool,
    i2: int,
    inside2: bool,
    shown: Seq<char>,
)
    requires
        0 <= i < doc.len(),
        i2 == i + 1,
        if !inside && regex_matches(rin, doc[i]) {
            &&& shown == if markers {
                marked_line(doc[i])
            } else {
                doc[i]
            }
            &&& inside2 == !regex_matches(rout, shown)
        } else {
            &&& inside
            &&& shown == doc[i]
            &&& inside2 == !regex_matches(rout, doc[i])
        },
        ({
            let with_t = tag_output(doc, rin, rout, true, markers, i2, inside2);
            let bare_t = tag_output(doc, rin, rout, false, markers, i2, inside2);
            let idxs_t = tag_indices(doc, rin, rout, markers, i2, inside2);
            &&& with_t.len() == bare_t.len()
            &&& bare_t.len() == idxs_t.len()
            &&& forall|j: int| 0 <= j < idxs_t.len() ==> i2 <= #[trigger] idxs_t[j] < doc.len()
            &&& forall|j: int|
                0 <= j < idxs_t.len() ==> #[trigger] with_t[j] == numbered_line(
                    idxs_t[j] as nat,
                    bare_t[j],
                )
            &&& !markers ==> forall|j: int|
                0 <= j < idxs_t.len() ==> #[trigger] bare_t[j] == doc[idxs_t[j]]
        }),
    ensures
        ({
            let with_n = tag_output(doc, rin, rout, true, markers, i, inside);
            let bare = tag_output(doc, rin, rout, false, markers, i, inside);
            let idxs = tag_indices(doc, rin, rout, markers, i, inside);
            &&& with_n.len() == bare.len()
            &&& bare.len() == idxs.len()
            &&& forall|j: int| 0 <= j < idxs.len() ==> i <= #[trigger] idxs[j] < doc.len()
            &&& forall|j: int|
                0 <= j < idxs.len() ==> #[trigger] with_n[j] == numbered_line(
                    idxs[j] as nat,
                    bare[j],
                )
            &&& !markers ==> forall|j: int|
                0 <= j < idxs.len() ==> #[trigger] bare[j] == doc[idxs[j]]
        }),
{
    let with_t = tag_output(doc, rin, rout, true, markers, i2, inside2);
    let bare_t = tag_output(doc, rin, rout, false, markers, i2, inside2);
    let idxs_t = tag_indices(doc, rin, rout, markers, i2, inside2);
    let with_n = tag_output(doc, rin, rout, true, markers, i, inside);
    let bare = tag_output(doc, rin, rout, false, markers, i, inside);
    let idxs = tag_indices(doc, rin, rout, markers, i, inside);
    assert(with_n =~= seq![numbered_line(i as nat, shown)] + with_t);
    assert(bare =~= seq![shown] + bare_t);
    assert(idxs =~= seq![i] + idxs_t);
    assert forall|j: int| 0 <= j < idxs.len() implies i <= #[trigger] idxs[j] < doc.len() by {
        if j > 0 {
            assert(idxs[j] == idxs_t[j - 1]);
        }
    }
    assert forall|j: int| 0 <= j < idxs.len() implies #[trigger] with_n[j] == numbered_line(
        idxs[j] as nat,
        bare[j],
    ) by {
        if j > 0 {
            assert(idxs[j] == idxs_t[j - 1]);
            assert(with_n[j] == with_t[j - 1]);
            assert(bare[j] == bare_t[j - 1]);
        }
    }
    if !markers {
        assert forall|j: int| 0 <= j < idxs.len() implies #[trigger] bare[j] == doc[idxs[j]] by {
            if j > 0 {
                assert(idxs[j] == idxs_t[j - 1]);
                assert(bare[j] == bare_t[j - 1]);
            }
        }
    }
}

/// The opening line of a region as tag mode shows it: annotated with the
/// marker when markers are on, the raw line otherwise.
pub open spec fn shown_open(doc: Seq<Seq<char>>, markers: bool, s: int) -> Seq<char> {
    if markers {
        marked_line(doc[s])
    } else {
        doc[s]
    }
}

/// Where the region opening at `s` closes: at `s` itself when the opening
/// line as shown matches the end pattern or is the last line, else at the
/// first later line matching the end pattern (or the last line).
pub open spec fn tag_region_end(
    doc: Seq<Seq<char>>,
    rout: Seq<char>,
    markers: bool,
    s: int,
) -> int {
    if regex_matches(rout, shown_open(doc, markers, s)) || s >= doc.len() - 1 {
        s
    } else {
        fwd_end(doc, rout, s + 1)
    }
}

proof fn lemma_tag_region_end_bounds(doc: Seq<Seq<char>>, rout: Seq<char>, markers: bool, s: int)
    requires
        0 <= s < doc.len(),
    ensures
        ({
            let e = tag_region_end(doc, rout, markers, s);
            &&& s <= e < doc.len()
            &&& e == s ==> regex_matches(rout, shown_open(doc, markers, s)) || s == doc.len() - 1
            &&& e > s ==> !regex_matches(rout, shown_open(doc, markers, s)) && (regex_matches(
                rout,
                doc[e],
            ) || e == doc.len() - 1)
            &&& forall|j: int| s < j < e ==> !regex_matches(rout, doc[j])
        }),
{
    if !(regex_matches(rout, shown_open(doc, markers, s)) || s >= doc.len() - 1) {
        lemma_fwd_end_bounds(doc, rout, s + 1);
    }
}

/// The list of tag-mode regions from line `i` on, each as the pair of its
/// opening index (a start-pattern match) and its closing index (where the
/// end pattern first matches the emitted text, or the last line).
pub open spec fn tag_region_list(
    doc: Seq<Seq<char>>,
    rin: Seq<char>,
    rout: Seq<char>,
    markers: bool,
    i: int,
) -> Seq<(int, int)>
    decreases doc.len() - i,
    via tag_region_list_decreases
{
    if i < 0 || i >= doc.len() {
        Seq::<(int, int)>::empty()
    } else if regex_matches(rin, doc[i]) {
        seq![(i, tag_region_end(doc, rout, markers, i))] + tag_region_list(
            doc,
            rin,
            rout,
            markers,
            tag_region_end(doc, rout, markers, i) + 1,
        )
    } else {
        tag_region_list(doc, rin, rout, markers, i + 1)
    }
}

#[via_fn]
proof fn tag_region_list_decreases(
    doc: Seq<Seq<char>>,
    rin: Seq<char>,
    rout: Seq<char>,
    markers: bool,
    i: int,
) {
    if 0 <= i && i < doc.len() && regex_matches(rin, doc[i]) {
        lemma_tag_region_end_bounds(doc, rout, markers, i);
    }
}

/// The lines of each listed region as tag mode shows them, concatenated in
/// order: the opening line as shown, then the raw lines through the close.
pub open spec fn regions_lines(
    doc: Seq<Seq<char>>,
    markers: bool,
    rs: Seq<(int, int)>,
) -> Seq<Seq<char>>
    decreases rs.len(),
{
    if rs.len() == 0 {
        Seq::<Seq<char>>::empty()
    } else {
        seq![shown_open(doc, markers, rs[0].0)] + doc.subrange(rs[0].0 + 1, rs[0].1 + 1)
            + regions_lines(doc, markers, rs.drop_first())
    }
}

/// Inside an open region, tag mode emits every line through the first
/// end-pattern match (or the end of the document) and is then outside again.
proof fn lemma_tag_output_inside(
    doc: Seq<Seq<char>>,
    rin: Seq<char>,
    rout: Seq<char>,
    markers: bool,
    i: int,
)
    requires
        0 <= i < doc.len(),
    ensures
        tag_output(doc, rin, rout, false, markers, i, true) == doc.subrange(
            i,
            fwd_end(doc, rout, i) + 1,
        ) + tag_output(doc, rin, rout, false, markers, fwd_end(doc, rout, i) + 1, false),
    decreases doc.len() - i,
{
    lemma_fwd_end_bounds(doc, rout, i);
    let e = fwd_end(doc, rout, i);
    if regex_matches(rout, doc[i]) || i == doc.len() - 1 {
        assert(e == i);
        if i + 1 >= doc.len() {
            assert(tag_output(doc, rin, rout, false, markers, i + 1, !regex_matches(rout, doc[i]))
                =~= Seq::<Seq<char>>::empty());
            assert(tag_output(doc, rin, rout, false, markers, i + 1, false)
                =~= Seq::<Seq<char>>::empty());
        }
        assert(seq![doc[i]] =~= doc.subrange(i, i + 1));
        assert(doc.subrange(i, i + 1) + tag_output(doc, rin, rout, false, markers, i + 1, false)
            =~= tag_output(doc, rin, rout, false, markers, i, true));
    } else {
        lemma_tag_output_inside(doc, rin, rout, markers, i + 1);
        assert(e == fwd_end(doc, rout, i + 1));
        assert(seq![doc[i]] + (doc.subrange(i + 1, e + 1) + tag_output(
            doc,
            rin,
            rout,
            false,
            markers,
            e + 1,
            false,
        )) =~= doc.subrange(i, e + 1) + tag_output(doc, rin, rout, false, markers, e + 1, false));
    }
}

/// From any outside state, the tag-mode output is exactly the lines of the
/// listed regions as shown, concatenated.
proof fn lemma_tag_output_regions_from(
    doc: Seq<Seq<char>>,
    rin: Seq<char>,
    rout: Seq<char>,
    markers: bool,
    i: int,
)
    requires
        0 <= i,
    ensures
        tag_output(doc, rin, rout, false, markers, i, false) == regions_lines(
            doc,
            markers,
            tag_region_list(doc, rin, rout, markers, i),
        ),
    decreases doc.len() - i,
{
    if i >= doc.len() {
    } else if regex_matches(rin, doc[i]) {
        lemma_tag_region_end_bounds(doc, rout, markers, i);
        let shown = shown_open(doc, markers, i);
        let e = tag_region_end(doc, rout, markers, i);
        let rs = tag_region_list(doc, rin, rout, markers, i);
        lemma_tag_output_regions_from(doc, rin, rout, markers, e + 1);
        if regex_matches(rout, shown) || i == doc.len() - 1 {
            assert(e == i);
            if i + 1 >= doc.len() {
                assert(tag_output(
                    doc,
                    rin,
                    rout,
                    false,
                    markers,
                    i + 1,
                    !regex_matches(rout, shown),
                ) =~= Seq::<Seq<char>>::empty());
                assert(tag_output(doc, rin, rout, false, markers, i + 1, false)
                    =~= Seq::<Seq<char>>::empty());
            }
        } else {
            lemma_tag_output_inside(doc, rin, rout, markers, i + 1);
            assert(e == fwd_end(doc, rout, i + 1));
        }
        assert(rs.drop_first() =~= tag_region_list(doc, rin, rout, markers, e + 1));
        assert(tag_output(doc, rin, rout, false, markers, i, false) =~= seq![shown] + doc.subrange(
            i + 1,
            e + 1,
        ) + regions_lines(doc, markers, tag_region_list(doc, rin, rout, markers, e + 1)));
        assert(regions_lines(doc, markers, rs) =~= seq![shown] + doc.subrange(i + 1, e + 1)
            + regions_lines(doc, markers, tag_region_list(doc, rin, rout, markers, e + 1)));
    } else {
        lemma_tag_output_regions_from(doc, rin, rout, markers, i + 1);
    }
}

/// The listed regions open at start-pattern matches, close where the shown
/// text first matches the end pattern, stand in ascending order without
/// overlap, and cover every start-pattern match at or after `i`.
#[verifier::rlimit(100)]
proof fn lemma_tag_region_list_props(
    doc: Seq<Seq<char>>,
    rin: Seq<char>,
    rout: Seq<char>,
    markers: bool,
    i: int,
)
    requires
        0 <= i,
    ensures
        ({
            let rs = tag_region_list(doc, rin, rout, markers, i);
            &&& forall|k: int|
                0 <= k < rs.len() ==> i <= #[trigger] rs[k].0 <= rs[k].1 < doc.len()
            &&& forall|k: int|
                0 <= k < rs.len() ==> regex_matches(rin, doc[#[trigger] rs[k].0])
            &&& forall|k: int|
                0 <= k < rs.len() ==> #[trigger] rs[k].1 == tag_region_end(
                    doc,
                    rout,
                    markers,
                    rs[k].0,
                )
            &&& forall|k: int| 0 < k < rs.len() ==> #[trigger] rs[k].0 > rs[k - 1].1
            &&& forall|j: int|
                i <= j < doc.len() && regex_matches(rin, doc[j]) ==> exists|k: int|
                    0 <= k < rs.len() && (#[trigger] rs[k]).0 <= j <= rs[k].1
        }),
    decreases doc.len() - i,
{
    let rs = tag_region_list(doc, rin, rout, markers, i);
    if i >= doc.len() {
    } else if regex_matches(rin, doc[i]) {
        lemma_tag_region_end_bounds(doc, rout, markers, i);
        let e = tag_region_end(doc, rout, markers, i);
        lemma_tag_region_list_props(doc, rin, rout, markers, e + 1);
        let rest = tag_region_list(doc, rin, rout, markers, e + 1);
        assert(rs == seq![(i, e)] + rest);
        assert forall|k: int| 0 <= k < rs.len() implies i <= #[trigger] rs[k].0 <= rs[k].1
            < doc.len() && regex_matches(rin, doc[rs[k].0]) && rs[k].1 == tag_region_end(
            doc,
            rout,
            markers,
            rs[k].0,
        ) by {
            if k > 0 {
                assert(rs[k] == rest[k - 1]);
            }
        }
        assert forall|k: int| 0 < k < rs.len() implies #[trigger] rs[k].0 > rs[k - 1].1 by {
            assert(rs[k] == rest[k - 1]);
            if k > 1 {
                assert(rs[k - 1] == rest[k - 2]);
            }
        }
        assert forall|j: int|
            i <= j < doc.len() && regex_matches(rin, doc[j]) implies exists|k: int|
            0 <= k < rs.len() && (#[trigger] rs[k]).0 <= j <= rs[k].1 by {
            if j <= e {
                assert(0 <= 0 < rs.len() && rs[0].0 <= j <= rs[0].1);
            } else {
                let k = choose|k: int|
                    0 <= k < rest.len() && (#[trigger] rest[k]).0 <= j <= rest[k].1;
                assert(rs[k + 1] == rest[k]);
                assert(0 <= k + 1 < rs.len() && rs[k + 1].0 <= j <= rs[k + 1].1);
            }
        }
    } else {
        lemma_tag_region_list_props(doc, rin, rout, markers, i + 1);
        let rest = tag_region_list(doc, rin, rout, markers, i + 1);
        assert(rs == rest);
    }
}

/// Law (tag mode): with numbering off, the output is exactly the
/// concatenation of its regions. Each region opens at a line matching the
/// start pattern, shown with the marker when markers are on, and closes
/// where the end pattern first matches the emitted text — on the opening
/// line that is the line as shown, on later lines the raw line — or at the
/// end of the document when it never does; regions stand in ascending order
/// and do not overlap; every line matching the start pattern lies inside a
/// region, so a region opens at the first start-pattern match after the
/// previous region closes; and no line outside the regions is emitted. The
/// index prefix that numbering adds is covered, for every flag value, by
/// [`lemma_tag_numbering`].
pub proof fn lemma_tag_mode_regions(
    doc: Seq<Seq<char>>,
    rin: Seq<char>,
    rout: Seq<char>,
    markers: bool,
)
    ensures
        ({
            let rs = tag_region_list(doc, rin, rout, markers, 0);
            &&& tag_output(doc, rin, rout, false, markers, 0, false) == regions_lines(
                doc,
                markers,
                rs,
            )
            &&& forall|k: int|
                0 <= k < rs.len() ==> 0 <= #[trigger] rs[k].0 <= rs[k].1 < doc.len()
            &&& forall|k: int|
                0 <= k < rs.len() ==> regex_matches(rin, doc[#[trigger] rs[k].0])
            &&& forall|k: int|
                0 <= k < rs.len() ==> (#[trigger] rs[k].1 == rs[k].0 ==> regex_matches(
                    rout,
                    shown_open(doc, markers, rs[k].0),
                ) || rs[k].0 == doc.len() - 1)
            &&& forall|k: int|
                0 <= k < rs.len() ==> (#[trigger] rs[k].1 > rs[k].0 ==> !regex_matches(
                    rout,
                    shown_open(doc, markers, rs[k].0),
                ) && (regex_matches(rout, doc[rs[k].1]) || rs[k].1 == doc.len() - 1))
            &&& forall|k: int, j: int|
                #![trigger rs[k], doc[j]]
                0 <= k < rs.len() && rs[k].0 < j < rs[k].1 ==> !regex_matches(rout, doc[j])
            &&& forall|k: int| 0 < k < rs.len() ==> #[trigger] rs[k].0 > rs[k - 1].1
            &&& forall|j: int|
                0 <= j < doc.len() && regex_matches(rin, doc[j]) ==> exists|k: int|
                    0 <= k < rs.len() && (#[trigger] rs[k]).0 <= j <= rs[k].1
        }),
{
    lemma_tag_output_regions_from(doc, rin, rout, markers, 0);
    lemma_tag_region_list_props(doc, rin, rout, markers, 0);
    let rs = tag_region_list(doc, rin, rout, markers, 0);
    assert forall|k: int| 0 <= k < rs.len() implies (rs[k].1 == rs[k].0 ==> regex_matches(
        rout,
        shown_open(doc, markers, rs[k].0),
    ) || rs[k].0 == doc.len() - 1) && (rs[k].1 > rs[k].0 ==> !regex_matches(
        rout,
        shown_open(doc, markers, rs[k].0),
    ) && (regex_matches(rout, doc[rs[k].1]) || rs[k].1 == doc.len() - 1)) by {
        lemma_tag_region_end_bounds(doc, rout, markers, rs[k].0);
    }
    assert forall|k: int, j: int|
        #![trigger rs[k], doc[j]]
        0 <= k < rs.len() && rs[k].0 < j < rs[k].1 implies !regex_matches(rout, doc[j]) by {
        lemma_tag_region_end_bounds(doc, rout, markers, rs[k].0);
    }
}

} // verus!
