//! Specification of the multi-section fixture-format decoder.
//!
//! The format is line oriented: a case runs from a `#data` marker through
//! an `#errors` section, optional `#new-errors`, `#document-fragment` and
//! script-directive sections, to a `#document` section.  A case that does
//! not match this grammar is skipped, and scanning resumes at the point
//! the malformed case ended.

use vstd::prelude::*;

use crate::html5lib::ScriptDirective;
use crate::text::{is_ws, join_lines, split_lines, trim_end_ws, trim_start_ws};

verus! {

/// The mathematical image of one decoded case.
#[verifier::ext_equal]
pub struct TcCase {
    pub data: Seq<char>,
    pub error_count: int,
    pub fragment: Option<(Option<Seq<char>>, Seq<char>)>,
    pub script: ScriptDirective,
    pub expected: Seq<char>,
}

/// A line that is exactly one of the recognized section markers.
pub open spec fn is_header_line_spec(l: Seq<char>) -> bool {
    l == "#data"@ || l == "#errors"@ || l == "#new-errors"@ || l == "#document-fragment"@
        || l == "#script-on"@ || l == "#script-off"@ || l == "#document"@
}

/// The first index at or after `i` whose line equals `m`, or the length.
pub open spec fn find_from(lines: Seq<Seq<char>>, i: int, m: Seq<char>) -> int
    decreases lines.len() - i,
{
    if i >= lines.len() {
        lines.len() as int
    } else if lines[i] == m {
        i
    } else {
        find_from(lines, i + 1, m)
    }
}

pub proof fn lemma_find_from_bounds(lines: Seq<Seq<char>>, i: int, m: Seq<char>)
    requires
        0 <= i <= lines.len(),
    ensures
        i <= find_from(lines, i, m) <= lines.len(),
        find_from(lines, i, m) < lines.len() ==> lines[find_from(lines, i, m)] == m,
    decreases lines.len() - i,
{
    if i < lines.len() && lines[i] != m {
        lemma_find_from_bounds(lines, i + 1, m);
    }
}

/// The first index at or after `i` holding a marker line, or the length.
pub open spec fn find_header(lines: Seq<Seq<char>>, i: int) -> int
    decreases lines.len() - i,
{
    if i >= lines.len() {
        lines.len() as int
    } else if is_header_line_spec(lines[i]) {
        i
    } else {
        find_header(lines, i + 1)
    }
}

pub proof fn lemma_find_header_bounds(lines: Seq<Seq<char>>, i: int)
    requires
        0 <= i <= lines.len(),
    ensures
        i <= find_header(lines, i) <= lines.len(),
        find_header(lines, i) < lines.len() ==> is_header_line_spec(
            lines[find_header(lines, i)],
        ),
    decreases lines.len() - i,
{
    if i < lines.len() && !is_header_line_spec(lines[i]) {
        lemma_find_header_bounds(lines, i + 1);
    }
}

/// A line is blank when it holds only whitespace.
pub open spec fn is_blank(l: Seq<char>) -> bool {
    trim_end_ws(trim_start_ws(l)).len() == 0
}

/// The number of non-blank lines in `lines[i..j]`.
pub open spec fn count_nonblank(lines: Seq<Seq<char>>, i: int, j: int) -> int
    decreases j - i,
{
    if j <= i {
        0
    } else {
        count_nonblank(lines, i, j - 1) + (if is_blank(lines[j - 1]) {
            0int
        } else {
            1int
        })
    }
}

pub proof fn lemma_count_nonblank_bounds(lines: Seq<Seq<char>>, i: int, j: int)
    ensures
        0 <= count_nonblank(lines, i, j) <= (if j >= i {
            j - i
        } else {
            0
        }),
    decreases j - i,
{
    if j > i {
        lemma_count_nonblank_bounds(lines, i, j - 1);
    }
}

/// The lines without their leading blank lines.
pub open spec fn drop_leading_blank(lines: Seq<Seq<char>>) -> Seq<Seq<char>>
    decreases lines.len(),
{
    if lines.len() > 0 && is_blank(lines[0]) {
        drop_leading_blank(lines.drop_first())
    } else {
        lines
    }
}

/// The lines without their trailing blank lines.
pub open spec fn drop_trailing_blank(lines: Seq<Seq<char>>) -> Seq<Seq<char>>
    decreases lines.len(),
{
    if lines.len() > 0 && is_blank(lines.last()) {
        drop_trailing_blank(lines.drop_last())
    } else {
        lines
    }
}

pub proof fn lemma_drop_leading_blank_skip(lines: Seq<Seq<char>>, a: int)
    requires
        0 <= a <= lines.len(),
        forall|j: int| 0 <= j < a ==> is_blank(#[trigger] lines[j]),
        a < lines.len() ==> !is_blank(lines[a]),
    ensures
        drop_leading_blank(lines) == lines.skip(a),
    decreases a,
{
    if a == 0 {
        assert(lines.skip(0) =~= lines);
    } else {
        let d = lines.drop_first();
        assert(forall|j: int| 0 <= j < a - 1 ==> d[j] == lines[j + 1]);
        lemma_drop_leading_blank_skip(d, a - 1);
        assert(d.skip(a - 1) =~= lines.skip(a));
    }
}

pub proof fn lemma_drop_trailing_blank_take(lines: Seq<Seq<char>>, b: int)
    requires
        0 <= b <= lines.len(),
        forall|j: int| b <= j < lines.len() ==> is_blank(#[trigger] lines[j]),
        b > 0 ==> !is_blank(lines[b - 1]),
    ensures
        drop_trailing_blank(lines) == lines.take(b),
    decreases lines.len(),
{
    if b == lines.len() {
        if lines.len() == 0 || !is_blank(lines.last()) {
            assert(lines.take(b) =~= lines);
        } else {
            assert(false);
        }
    } else {
        let d = lines.drop_last();
        assert(forall|j: int| 0 <= j < d.len() ==> d[j] == lines[j]);
        lemma_drop_trailing_blank_take(d, b);
        assert(d.take(b) =~= lines.take(b));
    }
}

/// The expected serialization of a case: its accumulated lines with the
/// leading and trailing blank lines stripped, each retained line stripped
/// of trailing whitespace, joined with newlines.
pub open spec fn expected_text(lines: Seq<Seq<char>>) -> Seq<char> {
    let kept = drop_trailing_blank(drop_leading_blank(lines));
    join_lines(Seq::new(kept.len(), |i: int| trim_end_ws(kept[i])))
}

/// The fragment-context line: an optional `svg ` or `math ` namespace
/// prefix, then the tag name; the line is trimmed first.
pub open spec fn fragment_ctx_of(line: Seq<char>) -> (Option<Seq<char>>, Seq<char>) {
    let t = trim_end_ws(trim_start_ws(line));
    if t.len() >= 4 && t.take(4) == "svg "@ {
        (Some("svg"@), t.skip(4))
    } else if t.len() >= 5 && t.take(5) == "math "@ {
        (Some("math"@), t.skip(5))
    } else {
        (None, t)
    }
}

/// The cases of one `#data` section whose data begins at line `i`,
/// followed by the cases of the rest of the file.
pub open spec fn case_at(lines: Seq<Seq<char>>, i: int) -> Seq<TcCase>
    decreases lines.len() - i, 0int,
{
    let de = find_from(lines, i, "#errors"@);
    if de >= lines.len() {
        // no #errors marker: the scan consumed the rest of the file
        Seq::empty()
    } else {
        let data = join_lines(lines.subrange(i, de));
        let ee = find_header(lines, de + 1);
        let err1 = count_nonblank(lines, de + 1, ee);
        let more = ee < lines.len() && lines[ee] == "#new-errors"@;
        let ee2 = if more {
            find_header(lines, ee + 1)
        } else {
            ee
        };
        let err_total = if more {
            err1 + count_nonblank(lines, ee + 1, ee2)
        } else {
            err1
        };
        let has_frag = ee2 < lines.len() && lines[ee2] == "#document-fragment"@;
        let frag = if has_frag {
            if ee2 + 1 < lines.len() {
                Some(fragment_ctx_of(lines[ee2 + 1]))
            } else {
                Some(fragment_ctx_of(Seq::empty()))
            }
        } else {
            None
        };
        if has_frag && frag->Some_0.1.len() == 0 {
            // a fragment context must carry a tag name: a blank (or
            // missing) context line makes the case malformed, and
            // scanning resumes after the consumed context line
            if ee2 + 1 >= lines.len() || ee2 + 2 <= i {
                Seq::empty()
            } else {
                scan_cases(lines, ee2 + 2)
            }
        } else {
        let after_frag = if has_frag {
            if ee2 + 1 < lines.len() {
                ee2 + 2
            } else {
                lines.len() as int
            }
        } else {
            ee2
        };
        let script_on = after_frag < lines.len() && lines[after_frag] == "#script-on"@;
        let script_off = after_frag < lines.len() && lines[after_frag] == "#script-off"@;
        let script = if script_on {
            ScriptDirective::On
        } else if script_off {
            ScriptDirective::Off
        } else {
            ScriptDirective::Both
        };
        let after_script = if script_on || script_off {
            after_frag + 1
        } else {
            after_frag
        };
        if !(after_script < lines.len() && lines[after_script] == "#document"@) {
            // malformed case: skipped, scanning resumes after the line
            // that failed to be the #document marker
            if after_script >= lines.len() || after_script + 1 <= i {
                Seq::empty()
            } else {
                scan_cases(lines, after_script + 1)
            }
        } else {
            let xe = find_from(lines, after_script + 1, "#data"@);
            let expected = expected_text(lines.subrange(after_script + 1, xe));
            let case = TcCase {
                data,
                error_count: err_total,
                fragment: frag,
                script,
                expected,
            };
            if xe <= i || xe > lines.len() {
                seq![case]
            } else {
                seq![case] + scan_cases(lines, xe)
            }
        }
        }
    }
}

/// The cases of the file from line `i` on: content before the next
/// `#data` marker is skipped.
pub open spec fn scan_cases(lines: Seq<Seq<char>>, i: int) -> Seq<TcCase>
    decreases lines.len() - i, 1int,
{
    if !(0 <= i < lines.len()) {
        Seq::empty()
    } else if lines[i] == "#data"@ {
        case_at(lines, i + 1)
    } else {
        scan_cases(lines, i + 1)
    }
}

/// All cases of a fixture file's text.
pub open spec fn tree_cases(text: Seq<char>) -> Seq<TcCase> {
    scan_cases(split_lines(text), 0)
}


/// A file with no `#errors` marker line yields zero cases, from any scan
/// position: without that marker no span from `#data` on is
/// grammar-conformant, and the malformed case consumes the rest of the
/// file.
pub proof fn lemma_no_errors_marker_no_cases(lines: Seq<Seq<char>>, i: int)
    requires
        0 <= i,
        forall|j: int| 0 <= j < lines.len() ==> #[trigger] lines[j] != "#errors"@,
    ensures
        scan_cases(lines, i) == Seq::<TcCase>::empty(),
    decreases lines.len() - i,
{
    if 0 <= i < lines.len() {
        if lines[i] == "#data"@ {
            lemma_find_from_bounds(lines, i + 1, "#errors"@);
            let de = find_from(lines, i + 1, "#errors"@);
            if de < lines.len() {
                assert(lines[de] == "#errors"@);
                assert(lines[de] != "#errors"@);
            }
            assert(case_at(lines, i + 1) == Seq::<TcCase>::empty());
            assert(scan_cases(lines, i) == Seq::<TcCase>::empty());
        } else {
            lemma_no_errors_marker_no_cases(lines, i + 1);
        }
    }
}


/// The number of lines equal to `m` at or after `i`.
pub open spec fn count_marker(lines: Seq<Seq<char>>, i: int, m: Seq<char>) -> int
    decreases lines.len() - i,
{
    if !(0 <= i < lines.len()) {
        0
    } else {
        (if lines[i] == m {
            1int
        } else {
            0int
        }) + count_marker(lines, i + 1, m)
    }
}

pub proof fn lemma_count_marker_mono(lines: Seq<Seq<char>>, i: int, j: int, m: Seq<char>)
    requires
        0 <= i <= j,
    ensures
        0 <= count_marker(lines, j, m) <= count_marker(lines, i, m),
    decreases j - i,
{
    lemma_count_marker_nonneg(lines, j, m);
    if i < j {
        lemma_count_marker_mono(lines, i + 1, j, m);
    }
}

pub proof fn lemma_count_marker_nonneg(lines: Seq<Seq<char>>, i: int, m: Seq<char>)
    ensures
        count_marker(lines, i, m) >= 0,
    decreases lines.len() - i,
{
    if 0 <= i < lines.len() {
        lemma_count_marker_nonneg(lines, i + 1, m);
    }
}

/// Every emitted case consumes a `#data` marker of its own: from any scan
/// position, the number of cases is bounded by the number of `#data`
/// marker lines ahead.
pub proof fn lemma_cases_bounded_by_data_markers(lines: Seq<Seq<char>>, i: int)
    requires
        0 <= i,
    ensures
        scan_cases(lines, i).len() <= count_marker(lines, i, "#data"@),
    decreases lines.len() - i, 1int,
{
    if 0 <= i < lines.len() {
        if lines[i] == "#data"@ {
            lemma_case_bounded_by_data_markers(lines, i + 1);
        } else {
            lemma_cases_bounded_by_data_markers(lines, i + 1);
        }
    } else {
        lemma_count_marker_nonneg(lines, i, "#data"@);
    }
}

proof fn lemma_case_bounded_by_data_markers(lines: Seq<Seq<char>>, i: int)
    requires
        0 <= i,
    ensures
        case_at(lines, i).len() <= 1 + count_marker(lines, i, "#data"@),
    decreases lines.len() - i, 0int,
{
    lemma_count_marker_nonneg(lines, i, "#data"@);
    let de = find_from(lines, i, "#errors"@);
    if de >= lines.len() {
    } else {
        lemma_find_from_bounds(lines, i, "#errors"@);
        let ee = find_header(lines, de + 1);
        let more = ee < lines.len() && lines[ee] == "#new-errors"@;
        let ee2 = if more {
            find_header(lines, ee + 1)
        } else {
            ee
        };
        let has_frag = ee2 < lines.len() && lines[ee2] == "#document-fragment"@;
        let frag = if has_frag {
            if ee2 + 1 < lines.len() {
                Some(fragment_ctx_of(lines[ee2 + 1]))
            } else {
                Some(fragment_ctx_of(Seq::empty()))
            }
        } else {
            None
        };
        if has_frag && frag->Some_0.1.len() == 0 {
            if ee2 + 1 >= lines.len() || ee2 + 2 <= i {
            } else {
                lemma_cases_bounded_by_data_markers(lines, ee2 + 2);
                lemma_count_marker_mono(lines, i, ee2 + 2, "#data"@);
            }
        } else {
            let after_frag = if has_frag {
                if ee2 + 1 < lines.len() {
                    ee2 + 2
                } else {
                    lines.len() as int
                }
            } else {
                ee2
            };
            let script_on = after_frag < lines.len() && lines[after_frag] == "#script-on"@;
            let script_off = after_frag < lines.len() && lines[after_frag] == "#script-off"@;
            let after_script = if script_on || script_off {
                after_frag + 1
            } else {
                after_frag
            };
            if !(after_script < lines.len() && lines[after_script] == "#document"@) {
                if after_script >= lines.len() || after_script + 1 <= i {
                } else {
                    lemma_cases_bounded_by_data_markers(lines, after_script + 1);
                    lemma_count_marker_mono(lines, i, after_script + 1, "#data"@);
                }
            } else {
                let xe = find_from(lines, after_script + 1, "#data"@);
                if xe <= i || xe > lines.len() {
                } else {
                    lemma_cases_bounded_by_data_markers(lines, xe);
                    lemma_count_marker_mono(lines, i, xe, "#data"@);
                }
            }
        }
    }
}


/// Every emitted case's fragment context, when present, carries a
/// non-empty tag name: a case whose context line is blank or missing is
/// skipped as malformed.
pub proof fn lemma_fragment_tags_nonempty(lines: Seq<Seq<char>>, i: int)
    requires
        0 <= i,
    ensures
        forall|k: int| 0 <= k < scan_cases(lines, i).len() ==> ((#[trigger] scan_cases(
            lines,
            i,
        )[k]).fragment matches Some(f) ==> f.1.len() > 0),
    decreases lines.len() - i, 1int,
{
    if 0 <= i < lines.len() {
        if lines[i] == "#data"@ {
            lemma_case_fragment_tags_nonempty(lines, i + 1);
        } else {
            lemma_fragment_tags_nonempty(lines, i + 1);
        }
    }
}

proof fn lemma_case_fragment_tags_nonempty(lines: Seq<Seq<char>>, i: int)
    requires
        0 <= i,
    ensures
        forall|k: int| 0 <= k < case_at(lines, i).len() ==> ((#[trigger] case_at(lines, i)[k]).fragment
            matches Some(f) ==> f.1.len() > 0),
    decreases lines.len() - i, 0int,
{
    let de = find_from(lines, i, "#errors"@);
    if de >= lines.len() {
    } else {
        let ee = find_header(lines, de + 1);
        let more = ee < lines.len() && lines[ee] == "#new-errors"@;
        let ee2 = if more {
            find_header(lines, ee + 1)
        } else {
            ee
        };
        let has_frag = ee2 < lines.len() && lines[ee2] == "#document-fragment"@;
        let frag = if has_frag {
            if ee2 + 1 < lines.len() {
                Some(fragment_ctx_of(lines[ee2 + 1]))
            } else {
                Some(fragment_ctx_of(Seq::empty()))
            }
        } else {
            None
        };
        if has_frag && frag->Some_0.1.len() == 0 {
            if ee2 + 1 >= lines.len() || ee2 + 2 <= i {
            } else {
                lemma_fragment_tags_nonempty(lines, ee2 + 2);
            }
        } else {
            let after_frag = if has_frag {
                if ee2 + 1 < lines.len() {
                    ee2 + 2
                } else {
                    lines.len() as int
                }
            } else {
                ee2
            };
            let script_on = after_frag < lines.len() && lines[after_frag] == "#script-on"@;
            let script_off = after_frag < lines.len() && lines[after_frag] == "#script-off"@;
            let after_script = if script_on || script_off {
                after_frag + 1
            } else {
                after_frag
            };
            if !(after_script < lines.len() && lines[after_script] == "#document"@) {
                if after_script >= lines.len() || after_script + 1 <= i {
                } else {
                    lemma_fragment_tags_nonempty(lines, after_script + 1);
                }
            } else {
                let xe = find_from(lines, after_script + 1, "#data"@);
                if xe <= i || xe > lines.len() {
                } else {
                    lemma_fragment_tags_nonempty(lines, xe);
                }
            }
        }
    }
}

} // verus!
