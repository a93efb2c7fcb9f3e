//! The region extractor: a two-state scan for tag mode, and the
//! anchor-expansion scans for within mode.

use vstd::prelude::*;

use crate::line_format::{
    format_line_with_markers, format_line_with_number, marked_line, rendered_line,
};
use crate::rx::{regex_matches, LineRegex};

verus! {

/// The sequence of character views of a sequence of lines.
pub open spec fn line_views(lines: Seq<String>) -> Seq<Seq<char>> {
    lines.map_values(|s: String| s@)
}

proof fn lemma_line_views_push(lines: Seq<String>, x: String)
    ensures
        line_views(lines.push(x)) == line_views(lines).push(x@),
{
    assert(line_views(lines.push(x)) =~= line_views(lines).push(x@));
}

/// What tag mode emits from line `i` on, in state `inside`: outside a region
/// a line matching the start pattern opens one and is emitted (marked when
/// markers are on); inside a region every line is emitted, and a line
/// matching the end pattern closes the region after being emitted. The end
/// pattern is tested on the line as it will be shown, so a marker can affect
/// the test on the opening line.
pub open spec fn tag_output(
    doc: Seq<Seq<char>>,
    rin: Seq<char>,
    rout: Seq<char>,
    numbers: bool,
    markers: bool,
    i: int,
    inside: bool,
) -> Seq<Seq<char>>
    decreases doc.len() - i,
{
    if i < 0 || i >= doc.len() {
        Seq::<Seq<char>>::empty()
    } else if !inside && regex_matches(rin, doc[i]) {
        let shown = if markers {
            marked_line(doc[i])
        } else {
            doc[i]
        };
        seq![rendered_line(numbers, i as nat, shown)] + tag_output(
            doc,
            rin,
            rout,
            numbers,
            markers,
            i + 1,
            !regex_matches(rout, shown),
        )
    } else if inside {
        seq![rendered_line(numbers, i as nat, doc[i])] + tag_output(
            doc,
            rin,
            rout,
            numbers,
            markers,
            i + 1,
            !regex_matches(rout, doc[i]),
        )
    } else {
        tag_output(doc, rin, rout, numbers, markers, i + 1, false)
    }
}

/// Tag mode: emit every region of `lines` that opens at a line matching
/// `rin` and closes at the first subsequent line matching `rout`, with the
/// requested rendering.
pub fn extract_regions_tag(
    lines: &Vec<String>,
    rin: &LineRegex,
    rout: &LineRegex,
    numbers: bool,
    add_markers: bool,
) -> (out: Vec<String>)
    ensures
        line_views(out@) == tag_output(
            line_views(lines@),
            rin.pattern(),
            rout.pattern(),
            numbers,
            add_markers,
            0,
            false,
        ),
{
    let ghost doc = line_views(lines@);
    let mut out: Vec<String> = Vec::new();
    let mut appending = false;
    let mut idx: usize = 0;
    while idx < lines.len()
        invariant
            idx <= lines.len(),
            doc == line_views(lines@),
            tag_output(doc, rin.pattern(), rout.pattern(), numbers, add_markers, 0, false)
                == line_views(out@) + tag_output(
                doc,
                rin.pattern(),
                rout.pattern(),
                numbers,
                add_markers,
                idx as int,
                appending,
            ),
        decreases lines.len() - idx,
    {
        proof {
            assert(doc[idx as int] == lines@[idx as int]@);
        }
        let line: &String = &lines[idx];
        if !appending && rin.is_match(line.as_str()) {
            appending = true;
            let shown: String = if add_markers {
                format_line_with_markers(line.as_str())
            } else {
                line.clone()
            };
            if rout.is_match(shown.as_str()) {
                appending = false;
            }
            let ghost prev = out@;
            let emitted: String = if numbers {
                format_line_with_number(idx, shown.as_str())
            } else {
                shown
            };
            out.push(emitted);
            proof {
                lemma_line_views_push(prev, emitted);
                assert(line_views(prev) + seq![emitted@] =~= line_views(out@));
                assert(line_views(prev) + (seq![emitted@] + tag_output(
                    doc,
                    rin.pattern(),
                    rout.pattern(),
                    numbers,
                    add_markers,
                    idx + 1,
                    appending,
                )) =~= line_views(out@) + tag_output(
                    doc,
                    rin.pattern(),
                    rout.pattern(),
                    numbers,
                    add_markers,
                    idx + 1,
                    appending,
                ));
            }
        } else if appending {
            if rout.is_match(line.as_str()) {
                appending = false;
            }
            let ghost prev = out@;
            let emitted: String = if numbers {
                format_line_with_number(idx, line.as_str())
            } else {
                line.clone()
            };
            out.push(emitted);
            proof {
                lemma_line_views_push(prev, emitted);
                assert(line_views(prev) + seq![emitted@] =~= line_views(out@));
                assert(line_views(prev) + (seq![emitted@] + tag_output(
                    doc,
                    rin.pattern(),
                    rout.pattern(),
                    numbers,
                    add_markers,
                    idx + 1,
                    appending,
                )) =~= line_views(out@) + tag_output(
                    doc,
                    rin.pattern(),
                    rout.pattern(),
                    numbers,
                    add_markers,
                    idx + 1,
                    appending,
                ));
            }
        }
        idx = idx + 1;
    }
    proof {
        assert(tag_output(
            doc,
            rin.pattern(),
            rout.pattern(),
            numbers,
            add_markers,
            idx as int,
            appending,
        ) =~= Seq::<Seq<char>>::empty());
        assert(line_views(out@) + Seq::<Seq<char>>::empty() =~= line_views(out@));
    }
    out
}

/// The integer value of each recorded index.
pub open spec fn index_views(v: Seq<usize>) -> Seq<int> {
    v.map_values(|u: usize| u as int)
}

/// The document as within mode stores it: when markers are on, each line the
/// within pattern matches carries the visual marker; every other line is
/// kept as read.
pub open spec fn marked_doc(doc: Seq<Seq<char>>, rw: Seq<char>, markers: bool) -> Seq<Seq<char>> {
    doc.map_values(
        |l: Seq<char>|
            if markers && regex_matches(rw, l) {
                marked_line(l)
            } else {
                l
            },
    )
}

/// The indices at or after `i`, in ascending order, of the lines of `doc`
/// that the within pattern matches.
pub open spec fn within_indices_from(doc: Seq<Seq<char>>, rw: Seq<char>, i: int) -> Seq<int>
    decreases doc.len() - i,
{
    if i < 0 || i >= doc.len() {
        Seq::<int>::empty()
    } else if regex_matches(rw, doc[i]) {
        seq![i] + within_indices_from(doc, rw, i + 1)
    } else {
        within_indices_from(doc, rw, i + 1)
    }
}

/// The indices, in ascending order, of the lines of `doc` that the within
/// pattern matches.
pub open spec fn within_indices(doc: Seq<Seq<char>>, rw: Seq<char>) -> Seq<int> {
    within_indices_from(doc, rw, 0)
}

proof fn lemma_within_indices_from_bounds(doc: Seq<Seq<char>>, rw: Seq<char>, i: int)
    ensures
        forall|k: int|
            0 <= k < within_indices_from(doc, rw, i).len() ==> i <= #[trigger] within_indices_from(
                doc,
                rw,
                i,
            )[k] < doc.len(),
    decreases doc.len() - i,
{
    if i < 0 || i >= doc.len() {
    } else {
        lemma_within_indices_from_bounds(doc, rw, i + 1);
        let rest = within_indices_from(doc, rw, i + 1);
        if regex_matches(rw, doc[i]) {
            assert forall|k: int|
                0 <= k < within_indices_from(doc, rw, i).len() implies i
                <= #[trigger] within_indices_from(doc, rw, i)[k] < doc.len() by {
                if k > 0 {
                    assert(within_indices_from(doc, rw, i)[k] == rest[k - 1]);
                }
            }
        } else {
            assert forall|k: int|
                0 <= k < within_indices_from(doc, rw, i).len() implies i
                <= #[trigger] within_indices_from(doc, rw, i)[k] < doc.len() by {
                assert(within_indices_from(doc, rw, i)[k] == rest[k]);
            }
        }
    }
}

/// Where the backward scan from anchor `i` stops: `i` itself when its line
/// matches the start pattern, else the nearest earlier line that does, else
/// the start of the document.
pub open spec fn back_start(doc: Seq<Seq<char>>, rin: Seq<char>, i: int) -> int
    decreases i,
{
    if i <= 0 {
        0
    } else if regex_matches(rin, doc[i]) {
        i
    } else {
        back_start(doc, rin, i - 1)
    }
}

/// Where the forward scan from anchor `i` stops: `i` itself when its line
/// matches the end pattern, else the nearest later line that does, else the
/// last line of the document.
pub open spec fn fwd_end(doc: Seq<Seq<char>>, rout: Seq<char>, i: int) -> int
    decreases doc.len() - i,
{
    if i >= doc.len() - 1 {
        doc.len() - 1
    } else if regex_matches(rout, doc[i]) {
        i
    } else {
        fwd_end(doc, rout, i + 1)
    }
}

/// The lines of `doc` from index `lo` through index `hi`, in order, each
/// rendered with its own document index.
pub open spec fn rendered_range(doc: Seq<Seq<char>>, numbers: bool, lo: int, hi: int) -> Seq<
    Seq<char>,
>
    decreases hi + 1 - lo,
{
    if lo > hi {
        Seq::<Seq<char>>::empty()
    } else {
        rendered_range(doc, numbers, lo, hi - 1) + seq![
            rendered_line(numbers, hi as nat, doc[hi]),
        ]
    }
}

/// The region one anchor produces: the backward run down to the start
/// pattern (or the start of the document), then the forward run up to the
/// end pattern (or the end of the document). The anchor line is the shared
/// boundary of the two runs and appears exactly once, as the head of the
/// forward run; the backward run ends just before it.
pub open spec fn region_output(
    doc: Seq<Seq<char>>,
    rin: Seq<char>,
    rout: Seq<char>,
    numbers: bool,
    i: int,
) -> Seq<Seq<char>> {
    rendered_range(doc, numbers, back_start(doc, rin, i), i - 1) + rendered_range(
        doc,
        numbers,
        i,
        fwd_end(doc, rout, i),
    )
}

/// The regions of all the given anchors, concatenated in order.
pub open spec fn regions_output(
    doc: Seq<Seq<char>>,
    rin: Seq<char>,
    rout: Seq<char>,
    numbers: bool,
    idxs: Seq<int>,
) -> Seq<Seq<char>>
    decreases idxs.len(),
{
    if idxs.len() == 0 {
        Seq::<Seq<char>>::empty()
    } else {
        region_output(doc, rin, rout, numbers, idxs[0]) + regions_output(
            doc,
            rin,
            rout,
            numbers,
            idxs.drop_first(),
        )
    }
}

/// What within mode emits: each line matching the within pattern is an
/// anchor (marked when markers are on, before any scan), and the anchors'
/// regions over the marked document are concatenated in ascending anchor
/// order, with no deduplication.
pub open spec fn within_output(
    doc: Seq<Seq<char>>,
    rin: Seq<char>,
    rout: Seq<char>,
    rw: Seq<char>,
    numbers: bool,
    markers: bool,
) -> Seq<Seq<char>> {
    regions_output(
        marked_doc(doc, rw, markers),
        rin,
        rout,
        numbers,
        within_indices(doc, rw),
    )
}

fn find_back_start(content: &Vec<String>, rin: &LineRegex, i: usize) -> (b: usize)
    requires
        i < content@.len(),
    ensures
        b as int == back_start(line_views(content@), rin.pattern(), i as int),
        b <= i,
{
    let ghost doc = line_views(content@);
    let mut j: usize = i;
    loop
        invariant
            j <= i < content@.len(),
            doc == line_views(content@),
            back_start(doc, rin.pattern(), i as int) == back_start(doc, rin.pattern(), j as int),
        decreases j,
    {
        proof {
            assert(doc[j as int] == content@[j as int]@);
        }
        if j == 0 {
            return 0;
        }
        if rin.is_match(content[j].as_str()) {
            return j;
        }
        j = j - 1;
    }
}

fn find_fwd_end(content: &Vec<String>, rout: &LineRegex, i: usize) -> (e: usize)
    requires
        i < content@.len(),
    ensures
        e as int == fwd_end(line_views(content@), rout.pattern(), i as int),
        i <= e,
        e < content@.len(),
{
    let ghost doc = line_views(content@);
    let mut j: usize = i;
    loop
        invariant
            i <= j < content@.len(),
            doc == line_views(content@),
            fwd_end(doc, rout.pattern(), i as int) == fwd_end(doc, rout.pattern(), j as int),
        decreases content@.len() - j,
    {
        proof {
            assert(doc[j as int] == content@[j as int]@);
        }
        if j == content.len() - 1 {
            return j;
        }
        if rout.is_match(content[j].as_str()) {
            return j;
        }
        j = j + 1;
    }
}

fn append_rendered_range(
    out: &mut Vec<String>,
    content: &Vec<String>,
    numbers: bool,
    lo: usize,
    hi: usize,
)
    requires
        lo <= hi < content@.len(),
    ensures
        line_views(final(out)@) == line_views(old(out)@) + rendered_range(
            line_views(content@),
            numbers,
            lo as int,
            hi as int,
        ),
{
    let ghost doc = line_views(content@);
    let n: usize = content.len();
    let mut j: usize = lo;
    proof {
        assert(line_views(out@) + rendered_range(doc, numbers, lo as int, lo as int - 1)
            =~= line_views(out@));
    }
    while j <= hi
        invariant
            lo <= j <= hi + 1,
            hi < n,
            n == content@.len(),
            doc == line_views(content@),
            line_views(out@) == line_views(old(out)@) + rendered_range(
                doc,
                numbers,
                lo as int,
                j as int - 1,
            ),
        decreases hi + 1 - j,
    {
        proof {
            assert(doc[j as int] == content@[j as int]@);
        }
        let line: &String = &content[j];
        let ghost prev = out@;
        let emitted: String = if numbers {
            format_line_with_number(j, line.as_str())
        } else {
            line.clone()
        };
        out.push(emitted);
        proof {
            lemma_line_views_push(prev, emitted);
            assert(line_views(out@) =~= line_views(old(out)@) + rendered_range(
                doc,
                numbers,
                lo as int,
                j as int,
            ));
        }
        j = j + 1;
    }
}

/// Within mode: record every line the within pattern matches as an anchor
/// (marking it when markers are on), then emit, per anchor in ascending
/// order, the backward run to the start pattern and the forward run to the
/// end pattern over the stored document, the anchor line standing once
/// between them.
pub fn extract_regions_within(
    lines: &Vec<String>,
    rin: &LineRegex,
    rout: &LineRegex,
    rwithin: &LineRegex,
    numbers: bool,
    add_markers: bool,
) -> (out: Vec<String>)
    ensures
        line_views(out@) == within_output(
            line_views(lines@),
            rin.pattern(),
            rout.pattern(),
            rwithin.pattern(),
            numbers,
            add_markers,
        ),
{
    let ghost doc = line_views(lines@);
    let ghost cdoc = marked_doc(doc, rwithin.pattern(), add_markers);
    let ghost idxs = within_indices(doc, rwithin.pattern());
    let mut content: Vec<String> = Vec::new();
    let mut resv: Vec<usize> = Vec::new();
    let mut idx: usize = 0;
    while idx < lines.len()
        invariant
            idx <= lines.len(),
            doc == line_views(lines@),
            cdoc == marked_doc(doc, rwithin.pattern(), add_markers),
            idxs == within_indices(doc, rwithin.pattern()),
            line_views(content@) == cdoc.take(idx as int),
            idxs == index_views(resv@) + within_indices_from(doc, rwithin.pattern(), idx as int),
        decreases lines.len() - idx,
    {
        proof {
            assert(doc[idx as int] == lines@[idx as int]@);
        }
        let line: &String = &lines[idx];
        let anchored = rwithin.is_match(line.as_str());
        if anchored {
            let ghost prev_resv = resv@;
            resv.push(idx);
            proof {
                assert(index_views(resv@) =~= index_views(prev_resv).push(idx as int));
                assert(index_views(prev_resv) + (seq![idx as int] + within_indices_from(
                    doc,
                    rwithin.pattern(),
                    idx as int + 1,
                )) =~= index_views(resv@) + within_indices_from(
                    doc,
                    rwithin.pattern(),
                    idx as int + 1,
                ));
            }
        }
        let stored: String = if anchored && add_markers {
            format_line_with_markers(line.as_str())
        } else {
            line.clone()
        };
        let ghost prev_content = content@;
        content.push(stored);
        proof {
            lemma_line_views_push(prev_content, stored);
            assert(line_views(content@) =~= cdoc.take(idx as int + 1));
        }
        idx = idx + 1;
    }
    proof {
        assert(cdoc.take(idx as int) =~= cdoc);
        assert(index_views(resv@) + within_indices_from(doc, rwithin.pattern(), idx as int)
            =~= index_views(resv@));
        lemma_within_indices_from_bounds(doc, rwithin.pattern(), 0);
    }
    let mut out: Vec<String> = Vec::new();
    proof {
        assert(line_views(out@) =~= Seq::<Seq<char>>::empty());
        assert(idxs.skip(0) =~= idxs);
        assert(Seq::<Seq<char>>::empty() + regions_output(
            cdoc,
            rin.pattern(),
            rout.pattern(),
            numbers,
            idxs.skip(0),
        ) =~= regions_output(cdoc, rin.pattern(), rout.pattern(), numbers, idxs.skip(0)));
    }
    let mut k: usize = 0;
    while k < resv.len()
        invariant
            k <= resv@.len(),
            doc == line_views(lines@),
            cdoc == marked_doc(doc, rwithin.pattern(), add_markers),
            idxs == within_indices(doc, rwithin.pattern()),
            idxs == index_views(resv@),
            line_views(content@) == cdoc,
            forall|t: int| 0 <= t < idxs.len() ==> 0 <= #[trigger] idxs[t] < doc.len(),
            regions_output(cdoc, rin.pattern(), rout.pattern(), numbers, idxs) == line_views(out@)
                + regions_output(
                cdoc,
                rin.pattern(),
                rout.pattern(),
                numbers,
                idxs.skip(k as int),
            ),
        decreases resv@.len() - k,
    {
        let i = resv[k];
        proof {
            assert(idxs[k as int] == i as int);
            assert(cdoc.len() == doc.len());
            assert((i as int) < content@.len());
        }
        let b = find_back_start(&content, rin, i);
        let e = find_fwd_end(&content, rout, i);
        let ghost prev_out = out@;
        if b < i {
            append_rendered_range(&mut out, &content, numbers, b, i - 1);
        } else {
            proof {
                assert(rendered_range(cdoc, numbers, b as int, i as int - 1)
                    =~= Seq::<Seq<char>>::empty());
                assert(line_views(out@) + Seq::<Seq<char>>::empty() =~= line_views(out@));
            }
        }
        append_rendered_range(&mut out, &content, numbers, i, e);
        proof {
            assert(idxs.skip(k as int)[0] == idxs[k as int]);
            assert(idxs.skip(k as int).drop_first() =~= idxs.skip(k as int + 1));
            assert(line_views(out@) =~= line_views(prev_out) + region_output(
                cdoc,
                rin.pattern(),
                rout.pattern(),
                numbers,
                i as int,
            ));
            assert(line_views(prev_out) + (region_output(
                cdoc,
                rin.pattern(),
                rout.pattern(),
                numbers,
                i as int,
            ) + regions_output(
                cdoc,
                rin.pattern(),
                rout.pattern(),
                numbers,
                idxs.skip(k as int + 1),
            )) =~= line_views(out@) + regions_output(
                cdoc,
                rin.pattern(),
                rout.pattern(),
                numbers,
                idxs.skip(k as int + 1),
            ));
        }
        k = k + 1;
    }
    proof {
        assert(idxs.skip(k as int) =~= Seq::<int>::empty());
        assert(regions_output(cdoc, rin.pattern(), rout.pattern(), numbers, idxs.skip(k as int))
            =~= Seq::<Seq<char>>::empty());
        assert(line_views(out@) + Seq::<Seq<char>>::empty() =~= line_views(out@));
    }
    out
}

} // verus!
