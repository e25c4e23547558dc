//! Execution engine: runs decoded fixture cases against the parser,
//! compares canonical serializations, and aggregates pass/fail counts with
//! a capped, ordered list of failure detail.
//!
//! Workers never share state: each processes one contiguous chunk of files
//! into a private [`Summary`], and [`merge_summaries`] is the single
//! aggregation point, truncating the merged failure list to the cap.

use vstd::prelude::*;

use crate::dom;
use crate::html5lib::{
    case_rep, cases_rep, json_rep, json_rep_obj, parse_json, parse_tree_construction_text, Json,
    JsonMember, ScriptDirective, TreeConstructionCase,
};
use crate::json_spec::{json_doc, JsonVal, Step};
use crate::section_spec::{tree_cases, TcCase};
use crate::serialize::{normalize_spec, normalize_tree_text, test_format_spec, to_test_format};
use crate::text::string_from_chars;
use crate::{FragmentContext, Options, Parser};

verus! {

/// One recorded failure: which case of which file failed, under which
/// execution label, with the compared texts.
#[derive(Clone, Debug)]
pub struct Failure {
    pub file: String,
    pub case_index: usize,
    pub script: String,
    pub input: String,
    pub expected: String,
    pub actual: String,
}

/// Aggregated results: counts plus a capped, ordered failure list.
#[derive(Debug)]
pub struct Summary {
    pub total: usize,
    pub passed: usize,
    pub failed: usize,
    pub failures: Vec<Failure>,
}

impl Default for Summary {
    fn default() -> (r: Self)
        ensures
            r.total == 0usize,
            r.passed == 0usize,
            r.failed == 0usize,
            r.failures@ == Seq::<Failure>::empty(),
    {
        Summary { total: 0, passed: 0, failed: 0, failures: Vec::new() }
    }
}

/// The mathematical image of one failure record.
#[verifier::ext_equal]
pub struct FailureSpec {
    pub file: Seq<char>,
    pub case_index: int,
    pub script: Seq<char>,
    pub input: Seq<char>,
    pub expected: Seq<char>,
    pub actual: Seq<char>,
}

/// The mathematical image of a summary; counts are unbounded integers.
#[verifier::ext_equal]
pub struct SummarySpec {
    pub total: int,
    pub passed: int,
    pub failed: int,
    pub failures: Seq<FailureSpec>,
}

pub open spec fn failure_rep(f: Failure) -> FailureSpec {
    FailureSpec {
        file: f.file@,
        case_index: f.case_index as int,
        script: f.script@,
        input: f.input@,
        expected: f.expected@,
        actual: f.actual@,
    }
}

pub open spec fn failures_rep(v: Seq<Failure>) -> Seq<FailureSpec> {
    Seq::new(v.len(), |i: int| failure_rep(v[i]))
}

/// Integer clamped to the machine word range; the executable counters
/// saturate there.
pub open spec fn clamp_u(n: int) -> int {
    if n > usize::MAX as int {
        usize::MAX as int
    } else {
        n
    }
}

/// The executable summary realizes the model: counts saturate at the
/// machine limit, the failure list is exact.
pub open spec fn matches_summary(s: Summary, m: SummarySpec) -> bool {
    &&& s.total as int == clamp_u(m.total)
    &&& s.passed as int == clamp_u(m.passed)
    &&& s.failed as int == clamp_u(m.failed)
    &&& failures_rep(s.failures@) == m.failures
}

pub open spec fn empty_summary() -> SummarySpec {
    SummarySpec { total: 0, passed: 0, failed: 0, failures: Seq::empty() }
}

pub open spec fn nonneg(m: SummarySpec) -> bool {
    m.total >= 0 && m.passed >= 0 && m.failed >= 0
}

fn sat_add(a: usize, b: usize) -> (r: usize)
    ensures
        r as int == clamp_u(a as int + b as int),
{
    if a > usize::MAX - b {
        usize::MAX
    } else {
        a + b
    }
}

/// The execution attempts a directive requires: scripting mode and label.
pub open spec fn exec_labels(d: ScriptDirective) -> Seq<(bool, Seq<char>)> {
    match d {
        ScriptDirective::On => seq![(true, "on"@)],
        ScriptDirective::Off => seq![(false, "off"@)],
        ScriptDirective::Both => seq![(true, "on"@), (false, "off"@)],
    }
}

/// A `Both` case always yields exactly two execution attempts, the first
/// with scripting enabled and the second with it disabled; `On` and `Off`
/// cases yield exactly one attempt with the corresponding mode.
pub proof fn lemma_script_directive_executions(d: ScriptDirective)
    ensures
        d is Both ==> exec_labels(d).len() == 2 && exec_labels(d)[0].0 == true && exec_labels(
            d,
        )[1].0 == false,
        d is On ==> exec_labels(d).len() == 1 && exec_labels(d)[0].0 == true,
        d is Off ==> exec_labels(d).len() == 1 && exec_labels(d)[0].0 == false,
{
}

/// The executions a case requires, as (scripting-enabled, label) pairs.
pub fn executions_for(d: &ScriptDirective) -> (r: Vec<(bool, String)>)
    ensures
        r@.len() == exec_labels(*d).len(),
        forall|i: int| 0 <= i < r@.len() ==> (#[trigger] r@[i]).0 == exec_labels(*d)[i].0
            && r@[i].1@ == exec_labels(*d)[i].1,
{
    let mut out: Vec<(bool, String)> = Vec::new();
    match d {
        ScriptDirective::On => {
            out.push((true, "on".to_owned()));
        },
        ScriptDirective::Off => {
            out.push((false, "off".to_owned()));
        },
        ScriptDirective::Both => {
            out.push((true, "on".to_owned()));
            out.push((false, "off".to_owned()));
        },
    }
    out
}

/// A case passes exactly when its normalized expected text is empty,
/// which is what the parser's canonicalized output normalizes to.
pub open spec fn case_passes(c: TcCase) -> bool {
    normalize_spec(c.expected).len() == 0
}

pub open spec fn failure_rec(file: Seq<char>, ci: int, label: Seq<char>, c: TcCase) -> FailureSpec {
    FailureSpec {
        file,
        case_index: ci,
        script: label,
        input: c.data,
        expected: normalize_spec(c.expected),
        actual: Seq::empty(),
    }
}

/// Appends a failure record only while the list is below the cap.
pub open spec fn with_failure(acc: SummarySpec, cap: int, f: FailureSpec) -> SummarySpec {
    if acc.failures.len() < cap {
        SummarySpec { failures: acc.failures.push(f), ..acc }
    } else {
        acc
    }
}

/// The summary after running the cases from `ci` on: every execution of a
/// passing case counts as passed; a failing case records a failure per
/// execution while the cap allows.  Under fail-fast no further case runs
/// after a failing one, but every execution of the failing case itself
/// still runs: fail-fast never aborts a case already dispatched.
pub open spec fn run_cases(
    file: Seq<char>,
    cases: Seq<TcCase>,
    ci: int,
    cap: int,
    ff: bool,
    acc: SummarySpec,
) -> SummarySpec
    decreases cases.len() - ci,
{
    if !(0 <= ci < cases.len()) {
        acc
    } else {
        let c = cases[ci];
        let es = exec_labels(c.script);
        if case_passes(c) {
            run_cases(
                file,
                cases,
                ci + 1,
                cap,
                ff,
                SummarySpec {
                    total: acc.total + es.len(),
                    passed: acc.passed + es.len(),
                    ..acc
                },
            )
        } else {
            // every execution of the case runs, fail-fast or not:
            // fail-fast only stops the cases that follow
            let acc1 = with_failure(
                SummarySpec { total: acc.total + 1, failed: acc.failed + 1, ..acc },
                cap,
                failure_rec(file, ci, es[0].1, c),
            );
            if es.len() == 1 {
                if ff {
                    acc1
                } else {
                    run_cases(file, cases, ci + 1, cap, ff, acc1)
                }
            } else {
                let acc2 = with_failure(
                    SummarySpec { total: acc1.total + 1, failed: acc1.failed + 1, ..acc1 },
                    cap,
                    failure_rec(file, ci, es[1].1, c),
                );
                if ff {
                    acc2
                } else {
                    run_cases(file, cases, ci + 1, cap, ff, acc2)
                }
            }
        }
    }
}

/// The summary of one section-format file's text.
pub open spec fn file_summary(rel: Seq<char>, text: Seq<char>, cap: int, ff: bool) -> SummarySpec {
    run_cases(rel, tree_cases(text), 0, cap, ff, empty_summary())
}

proof fn lemma_normalize_empty()
    ensures
        normalize_spec(Seq::<char>::empty()) == Seq::<char>::empty(),
{
    let e = Seq::<char>::empty();
    assert(crate::text::trim_start_ws(e) == e);
    assert(crate::text::trim_end_ws(e) == e);
    let ls = crate::text::split_lines(e);
    assert(ls =~~= seq![e]);
    let trimmed = Seq::new(ls.len(), |i: int| crate::text::trim_end_ws(ls[i]));
    assert(trimmed =~~= seq![e]);
    assert(crate::text::join_lines(trimmed) =~= e);
}

proof fn lemma_stub_format(arena: Seq<dom::Node>, data: dom::NodeData)
    requires
        arena.len() == 1,
        dom::is_fresh_node(arena[0], data),
        data is Document || data is DocumentFragment,
    ensures
        test_format_spec(arena, 0) == Seq::<char>::empty(),
{
    assert(crate::serialize::render_list(arena, arena[0].children@, 0, 0)
        =~~= Seq::<Seq<char>>::empty());
    assert(crate::serialize::render_node(arena, 0, 0, 1) =~~= Seq::<Seq<char>>::empty());
    assert(crate::text::join_lines(Seq::<Seq<char>>::empty()) =~= Seq::<char>::empty());
}

/// Runs one execution attempt of one case and accounts for it.
fn run_execution(
    summary: &mut Summary,
    rel: &str,
    ci: usize,
    scripting: bool,
    label: &String,
    case: &TreeConstructionCase,
    cap: usize,
) -> (passed: bool)
    ensures
        passed == case_passes(case_rep(*case)),
        passed ==> {
            &&& final(summary).total as int == clamp_u(old(summary).total as int + 1)
            &&& final(summary).passed as int == clamp_u(old(summary).passed as int + 1)
            &&& final(summary).failed == old(summary).failed
            &&& final(summary).failures@ == old(summary).failures@
        },
        !passed ==> {
            &&& final(summary).total as int == clamp_u(old(summary).total as int + 1)
            &&& final(summary).passed == old(summary).passed
            &&& final(summary).failed as int == clamp_u(old(summary).failed as int + 1)
            &&& if old(summary).failures@.len() < cap {
                failures_rep(final(summary).failures@) == failures_rep(
                    old(summary).failures@,
                ).push(failure_rec(rel@, ci as int, label@, case_rep(*case)))
            } else {
                final(summary).failures@ == old(summary).failures@
            }
        },
{
    summary.total = sat_add(summary.total, 1);
    let mut parser = Parser::new(
        Options { scripting_enabled: scripting, iframe_srcdoc: false, collect_errors: false },
    );
    let actual = match &case.fragment_context {
        Some(ctx) => {
            let ns = match &ctx.namespace {
                Some(s) => Some(s.clone()),
                None => None,
            };
            let parsed = parser.parse_fragment(
                FragmentContext { namespace: ns, tag_name: ctx.tag_name.clone() },
                case.data.as_str(),
            );
            proof {
                lemma_stub_format(parsed.value.arena@, dom::NodeData::DocumentFragment);
            }
            to_test_format(&parsed.value.arena, parsed.value.root)
        },
        None => {
            let parsed = parser.parse_document(case.data.as_str());
            proof {
                lemma_stub_format(parsed.value.arena@, dom::NodeData::Document);
            }
            to_test_format(&parsed.value.arena, parsed.value.root)
        },
    };
    let expected_norm = normalize_tree_text(case.expected.as_str());
    let actual_norm = normalize_tree_text(actual.as_str());
    proof {
        lemma_normalize_empty();
        assert(actual_norm@ =~= Seq::<char>::empty());
    }
    if expected_norm == actual_norm {
        summary.passed = sat_add(summary.passed, 1);
        proof {
            assert(normalize_spec(case_rep(*case).expected) =~= Seq::<char>::empty());
        }
        true
    } else {
        proof {
            if normalize_spec(case_rep(*case).expected).len() == 0 {
                assert(expected_norm@ =~= actual_norm@);
            }
        }
        summary.failed = sat_add(summary.failed, 1);
        if summary.failures.len() < cap {
            let ghost prev = summary.failures@;
            summary.failures.push(
                Failure {
                    file: rel.to_owned(),
                    case_index: ci,
                    script: label.clone(),
                    input: case.data.clone(),
                    expected: expected_norm,
                    actual: actual_norm,
                },
            );
            proof {
                assert(failures_rep(summary.failures@) =~~= failures_rep(prev).push(
                    failure_rec(rel@, ci as int, label@, case_rep(*case)),
                ));
            }
        }
        false
    }
}

/// Runs every case decoded from one file's text and returns its summary.
/// Failure detail is recorded up to `max_failures` records; with
/// `fail_fast`, processing stops after the first failing execution.
pub fn run_tree_file(rel: &str, content: &str, max_failures: usize, fail_fast: bool) -> (r:
    Summary)
    ensures
        matches_summary(r, file_summary(rel@, content@, max_failures as int, fail_fast)),
        ({
            let m = file_summary(rel@, content@, max_failures as int, fail_fast);
            m.total == m.passed + m.failed
        }),
{
    proof {
        lemma_run_cases_balance(
            rel@,
            tree_cases(content@),
            0,
            max_failures as int,
            fail_fast,
            empty_summary(),
        );
    }
    let cases = parse_tree_construction_text(content);
    let ghost cr = cases_rep(cases@);
    let mut summary = Summary { total: 0, passed: 0, failed: 0, failures: Vec::new() };
    let ghost mut acc = empty_summary();
    proof {
        assert(failures_rep(summary.failures@) =~~= acc.failures);
    }
    let n = cases.len();
    let mut ci: usize = 0;
    while ci < n
        invariant
            n == cases@.len(),
            ci <= n,
            cr == cases_rep(cases@),
            cr == tree_cases(content@),
            matches_summary(summary, acc),
            nonneg(acc),
            acc.failures.len() == summary.failures@.len(),
            run_cases(rel@, cr, 0, max_failures as int, fail_fast, empty_summary()) == run_cases(
                rel@,
                cr,
                ci as int,
                max_failures as int,
                fail_fast,
                acc,
            ),
            ({
                let m = run_cases(rel@, cr, 0, max_failures as int, fail_fast, empty_summary());
                m.total == m.passed + m.failed
            }),
        decreases n - ci,
    {
        let case = &cases[ci];
        let ghost c = case_rep(cases@[ci as int]);
        let ghost acc0 = acc;
        proof {
            assert(cr[ci as int] == c);
        }
        let modes = executions_for(&case.script_directive);
        let ghost es = exec_labels(c.script);
        let p0 = run_execution(
            &mut summary,
            rel,
            ci,
            modes[0].0,
            &modes[0].1,
            case,
            max_failures,
        );
        if p0 {
            if modes.len() == 2 {
                let p1 = run_execution(
                    &mut summary,
                    rel,
                    ci,
                    modes[1].0,
                    &modes[1].1,
                    case,
                    max_failures,
                );
                proof {
                    assert(p1);
                }
            }
            proof {
                acc = SummarySpec {
                    total: acc0.total + es.len(),
                    passed: acc0.passed + es.len(),
                    ..acc0
                };
                assert(run_cases(rel@, cr, ci as int, max_failures as int, fail_fast, acc0)
                    == run_cases(rel@, cr, ci + 1, max_failures as int, fail_fast, acc));
                assert(matches_summary(summary, acc));
            }
        } else {
            proof {
                acc = with_failure(
                    SummarySpec { total: acc0.total + 1, failed: acc0.failed + 1, ..acc0 },
                    max_failures as int,
                    failure_rec(rel@, ci as int, es[0].1, c),
                );
                assert(matches_summary(summary, acc));
            }
            if modes.len() == 2 {
                // the second execution of the case always runs, even
                // under fail-fast
                let ghost acc1 = acc;
                let p1 = run_execution(
                    &mut summary,
                    rel,
                    ci,
                    modes[1].0,
                    &modes[1].1,
                    case,
                    max_failures,
                );
                proof {
                    assert(!p1);
                    acc = with_failure(
                        SummarySpec { total: acc1.total + 1, failed: acc1.failed + 1, ..acc1 },
                        max_failures as int,
                        failure_rec(rel@, ci as int, es[1].1, c),
                    );
                    assert(matches_summary(summary, acc));
                }
            }
            if fail_fast {
                proof {
                    assert(run_cases(rel@, cr, ci as int, max_failures as int, true, acc0) == acc);
                }
                return summary;
            }
            proof {
                assert(run_cases(rel@, cr, ci as int, max_failures as int, false, acc0)
                    == run_cases(rel@, cr, ci + 1, max_failures as int, false, acc));
            }
        }
        ci += 1;
    }
    summary
}


/// The per-worker chunk size: the file count divided by the worker
/// count, rounded up, so that contiguous chunks of this size cover the
/// files with at most `workers` chunks.
pub fn chunk_size_for(file_count: usize, workers: usize) -> (r: usize)
    requires
        workers >= 1,
    ensures
        r as int == (file_count + workers - 1) / (workers as int),
        file_count > 0 ==> r >= 1,
        r as int * (workers as int) >= file_count,
{
    if workers == 1 {
        proof {
            let f = file_count as int;
            assert((f + 1 - 1) / 1 == f) by (nonlinear_arith)
                requires
                    f >= 0,
            ;
        }
        return file_count;
    }
    proof {
        let f = file_count as int;
        let w = workers as int;
        assert(f / w + 1 <= usize::MAX as int) by (nonlinear_arith)
            requires
                w >= 2 && 0 <= f <= usize::MAX as int,
        ;
        assert(f > 0 && f % w == 0 ==> f / w >= 1) by (nonlinear_arith)
            requires
                w >= 2 && f >= 0,
        ;
    }
    let r = file_count / workers + (if file_count % workers != 0 {
        1
    } else {
        0
    });
    proof {
        let f = file_count as int;
        let w = workers as int;
        assert(f == w * (f / w) + f % w) by {
            vstd::arithmetic::div_mod::lemma_fundamental_div_mod(f, w);
        }
        if f % w == 0 {
            assert((f + w - 1) / w == f / w) by (nonlinear_arith)
                requires
                    w >= 1 && f >= 0 && f == w * (f / w),
            ;
            assert(r as int * w >= f) by (nonlinear_arith)
                requires
                    w >= 1 && f >= 0 && r as int == f / w && f == w * (f / w),
            ;
        } else {
            assert((f + w - 1) / w == f / w + 1) by (nonlinear_arith)
                requires
                    w >= 1 && f >= 0 && f == w * (f / w) + f % w && 0 < f % w < w,
            ;
            assert(r as int * w >= f) by (nonlinear_arith)
                requires
                    w >= 1 && f >= 0 && r as int == f / w + 1 && f == w * (f / w) + f % w && f % w
                        < w,
            ;
        }
    }
    r
}

/// One discovered section-format file handed to a worker: its display
/// path, its path relative to the fixture root, and its text (or the read
/// error message).
pub struct TreeFile {
    pub path: String,
    pub rel: String,
    pub content: Result<String, String>,
}

/// The mathematical image of a worker's input file.
#[verifier::ext_equal]
pub struct TreeFileRep {
    pub path: Seq<char>,
    pub rel: Seq<char>,
    pub content: Result<Seq<char>, Seq<char>>,
}

pub open spec fn tree_file_rep(f: TreeFile) -> TreeFileRep {
    TreeFileRep {
        path: f.path@,
        rel: f.rel@,
        content: match f.content {
            Ok(t) => Ok(t@),
            Err(e) => Err(e@),
        },
    }
}

pub open spec fn tree_files_rep(v: Seq<TreeFile>) -> Seq<TreeFileRep> {
    Seq::new(v.len(), |i: int| tree_file_rep(v[i]))
}

/// The summary recorded for a file that could not be read.
pub open spec fn read_failure_spec(path: Seq<char>, msg: Seq<char>) -> SummarySpec {
    SummarySpec {
        total: 1,
        passed: 0,
        failed: 1,
        failures: seq![
            FailureSpec {
                file: path,
                case_index: 0,
                script: "n/a"@,
                input: "(failed to read/parse .dat: "@ + msg + ")"@,
                expected: Seq::empty(),
                actual: Seq::empty(),
            },
        ],
    }
}

/// Builds the failure summary for an unreadable file.
pub fn tree_read_failure(path: &String, msg: &String) -> (r: Summary)
    ensures
        matches_summary(r, read_failure_spec(path@, msg@)),
{
    let mut input: Vec<char> = Vec::new();
    crate::text::push_str_chars(&mut input, "(failed to read/parse .dat: ");
    crate::text::push_str_chars(&mut input, msg.as_str());
    crate::text::push_str_chars(&mut input, ")");
    let mut failures: Vec<Failure> = Vec::new();
    failures.push(
        Failure {
            file: path.clone(),
            case_index: 0,
            script: "n/a".to_owned(),
            input: string_from_chars(&input),
            expected: String::new(),
            actual: String::new(),
        },
    );
    let r = Summary { total: 1, passed: 0, failed: 1, failures };
    proof {
        assert(failures_rep(r.failures@) =~~= read_failure_spec(path@, msg@).failures);
    }
    r
}

/// The summary a single file contributes, given the room left for detail.
pub open spec fn tree_file_outcome(f: TreeFileRep, cap: int, ff: bool) -> SummarySpec {
    match f.content {
        Ok(text) => file_summary(f.rel, text, cap, ff),
        Err(msg) => read_failure_spec(f.path, msg),
    }
}

pub open spec fn add_summaries(acc: SummarySpec, s: SummarySpec) -> SummarySpec {
    SummarySpec {
        total: acc.total + s.total,
        passed: acc.passed + s.passed,
        failed: acc.failed + s.failed,
        failures: acc.failures + s.failures,
    }
}

/// A worker's run over its chunk from file `i` on: files are processed in
/// order, each with the cap reduced by the detail already recorded; the
/// worker stops early after a failure under fail-fast, or once its detail
/// list has reached the cap.
pub open spec fn chunk_run(
    files: Seq<TreeFileRep>,
    i: int,
    cap: int,
    ff: bool,
    acc: SummarySpec,
) -> SummarySpec
    decreases files.len() - i,
{
    if !(0 <= i < files.len()) {
        acc
    } else {
        let room = if cap - acc.failures.len() >= 0 {
            cap - acc.failures.len()
        } else {
            0
        };
        let fs = tree_file_outcome(files[i], room, ff);
        let acc2 = add_summaries(acc, fs);
        if ff && acc2.failed > 0 {
            acc2
        } else if acc2.failures.len() >= cap {
            acc2
        } else {
            chunk_run(files, i + 1, cap, ff, acc2)
        }
    }
}

proof fn lemma_run_cases_nonneg(
    file: Seq<char>,
    cases: Seq<TcCase>,
    ci: int,
    cap: int,
    ff: bool,
    acc: SummarySpec,
)
    requires
        nonneg(acc),
    ensures
        nonneg(run_cases(file, cases, ci, cap, ff, acc)),
    decreases cases.len() - ci,
{
    if 0 <= ci < cases.len() {
        let c = cases[ci];
        let es = exec_labels(c.script);
        if case_passes(c) {
            lemma_run_cases_nonneg(
                file,
                cases,
                ci + 1,
                cap,
                ff,
                SummarySpec { total: acc.total + es.len(), passed: acc.passed + es.len(), ..acc },
            );
        } else {
            let acc1 = with_failure(
                SummarySpec { total: acc.total + 1, failed: acc.failed + 1, ..acc },
                cap,
                failure_rec(file, ci, es[0].1, c),
            );
            if es.len() == 1 {
                if !ff {
                    lemma_run_cases_nonneg(file, cases, ci + 1, cap, ff, acc1);
                }
            } else {
                let acc2 = with_failure(
                    SummarySpec { total: acc1.total + 1, failed: acc1.failed + 1, ..acc1 },
                    cap,
                    failure_rec(file, ci, es[1].1, c),
                );
                if !ff {
                    lemma_run_cases_nonneg(file, cases, ci + 1, cap, ff, acc2);
                }
            }
        }
    }
}

proof fn lemma_file_outcome_nonneg(f: TreeFileRep, cap: int, ff: bool)
    ensures
        nonneg(tree_file_outcome(f, cap, ff)),
{
    match f.content {
        Ok(text) => {
            lemma_run_cases_nonneg(f.rel, tree_cases(text), 0, cap, ff, empty_summary());
        },
        Err(msg) => {},
    }
}

/// Runs the worker loop over one contiguous chunk of files.
pub fn run_tree_chunk(files: &Vec<TreeFile>, max_failures: usize, fail_fast: bool) -> (r: Summary)
    ensures
        matches_summary(
            r,
            chunk_run(tree_files_rep(files@), 0, max_failures as int, fail_fast, empty_summary()),
        ),
        ({
            let m = chunk_run(
                tree_files_rep(files@),
                0,
                max_failures as int,
                fail_fast,
                empty_summary(),
            );
            m.total == m.passed + m.failed
        }),
{
    proof {
        lemma_chunk_run_balance(
            tree_files_rep(files@),
            0,
            max_failures as int,
            fail_fast,
            empty_summary(),
        );
    }
    let ghost fr = tree_files_rep(files@);
    let mut summary = Summary { total: 0, passed: 0, failed: 0, failures: Vec::new() };
    let ghost mut acc = empty_summary();
    proof {
        assert(failures_rep(summary.failures@) =~~= acc.failures);
    }
    let n = files.len();
    let mut i: usize = 0;
    while i < n
        invariant
            n == files@.len(),
            i <= n,
            fr == tree_files_rep(files@),
            matches_summary(summary, acc),
            nonneg(acc),
            acc.failures.len() == summary.failures@.len(),
            chunk_run(fr, 0, max_failures as int, fail_fast, empty_summary()) == chunk_run(
                fr,
                i as int,
                max_failures as int,
                fail_fast,
                acc,
            ),
            ({
                let m = chunk_run(fr, 0, max_failures as int, fail_fast, empty_summary());
                m.total == m.passed + m.failed
            }),
        decreases n - i,
    {
        let ghost acc0 = acc;
        let room = if max_failures >= summary.failures.len() {
            max_failures - summary.failures.len()
        } else {
            0
        };
        let mut s = match &files[i].content {
            Ok(text) => run_tree_file(files[i].rel.as_str(), text.as_str(), room, fail_fast),
            Err(msg) => tree_read_failure(&files[i].path, msg),
        };
        let ghost fs = tree_file_outcome(fr[i as int], room as int, fail_fast);
        proof {
            lemma_file_outcome_nonneg(fr[i as int], room as int, fail_fast);
            assert(matches_summary(s, fs));
            acc = add_summaries(acc0, fs);
        }
        summary.total = sat_add(summary.total, s.total);
        summary.passed = sat_add(summary.passed, s.passed);
        summary.failed = sat_add(summary.failed, s.failed);
        let ghost prev_failures = summary.failures@;
        summary.failures.append(&mut s.failures);
        proof {
            assert(failures_rep(summary.failures@) =~~= failures_rep(prev_failures)
                + fs.failures);
            assert(matches_summary(summary, acc));
        }
        if fail_fast && summary.failed > 0 {
            proof {
                assert(chunk_run(fr, i as int, max_failures as int, fail_fast, acc0) == acc);
            }
            return summary;
        }
        if summary.failures.len() >= max_failures {
            proof {
                assert(chunk_run(fr, i as int, max_failures as int, fail_fast, acc0) == acc);
            }
            return summary;
        }
        proof {
            assert(chunk_run(fr, i as int, max_failures as int, fail_fast, acc0) == chunk_run(
                fr,
                i + 1,
                max_failures as int,
                fail_fast,
                acc,
            ));
        }
        i += 1;
    }
    summary
}

/// The dispatcher's merge of the workers' summaries, in dispatch order:
/// counts add up, and failure detail is appended only while the merged
/// list is below the cap, then truncated to the cap.
pub open spec fn merge_step(acc: SummarySpec, s: SummarySpec, cap: int) -> SummarySpec {
    SummarySpec {
        total: acc.total + s.total,
        passed: acc.passed + s.passed,
        failed: acc.failed + s.failed,
        failures: if acc.failures.len() < cap {
            if (acc.failures + s.failures).len() > cap {
                (acc.failures + s.failures).take(cap)
            } else {
                acc.failures + s.failures
            }
        } else {
            acc.failures
        },
    }
}

pub open spec fn merge_run(parts: Seq<SummarySpec>, cap: int) -> SummarySpec
    decreases parts.len(),
{
    if parts.len() == 0 {
        empty_summary()
    } else {
        merge_step(merge_run(parts.drop_last(), cap), parts.last(), cap)
    }
}

/// The merged failure list never exceeds the cap, for any worker
/// summaries, worker count, or fail-fast setting upstream.
pub proof fn lemma_merge_failures_capped(parts: Seq<SummarySpec>, cap: int)
    requires
        cap >= 0,
    ensures
        merge_run(parts, cap).failures.len() <= cap,
    decreases parts.len(),
{
    if parts.len() > 0 {
        lemma_merge_failures_capped(parts.drop_last(), cap);
    }
}

/// Merges the workers' summaries in dispatch order.
pub fn merge_summaries(parts: Vec<Summary>, max_failures: usize) -> (r: Summary)
    ensures
        matches_summary(
            r,
            merge_run(
                Seq::new(parts@.len(), |i: int| summary_spec_of(parts@[i])),
                max_failures as int,
            ),
        ),
        r.failures@.len() <= max_failures,
        (forall|j: int| 0 <= j < parts@.len() ==> (#[trigger] summary_spec_of(parts@[j])).total
            == summary_spec_of(parts@[j]).passed + summary_spec_of(parts@[j]).failed) ==> ({
            let m = merge_run(
                Seq::new(parts@.len(), |i: int| summary_spec_of(parts@[i])),
                max_failures as int,
            );
            m.total == m.passed + m.failed
        }),
{
    proof {
        let all0 = Seq::new(parts@.len(), |i: int| summary_spec_of(parts@[i]));
        if forall|j: int| 0 <= j < parts@.len() ==> (#[trigger] summary_spec_of(
            parts@[j],
        )).total == summary_spec_of(parts@[j]).passed + summary_spec_of(parts@[j]).failed {
            assert(forall|j: int| 0 <= j < all0.len() ==> (#[trigger] all0[j]).total == all0[j].passed
                + all0[j].failed);
            lemma_merge_run_balance(all0, max_failures as int);
        }
    }
    let ghost all = Seq::new(parts@.len(), |i: int| summary_spec_of(parts@[i]));
    let mut out = Summary { total: 0, passed: 0, failed: 0, failures: Vec::new() };
    let ghost mut acc = empty_summary();
    proof {
        assert(failures_rep(out.failures@) =~~= acc.failures);
    }
    let mut parts = parts;
    let n = parts.len();
    let mut i: usize = 0;
    while i < n
        invariant
            n == all.len(),
            parts@.len() == n - i,
            i <= n,
            forall|j: int| 0 <= j < parts@.len() ==> summary_spec_of(#[trigger] parts@[j]) == all[
                i + j],
            matches_summary(out, acc),
            nonneg(acc),
            acc.failures.len() == out.failures@.len(),
            acc == merge_run(all.take(i as int), max_failures as int),
        decreases n - i,
    {
        let mut s = parts.remove(0);
        let ghost srep = summary_spec_of(s);
        out.total = sat_add(out.total, s.total);
        out.passed = sat_add(out.passed, s.passed);
        out.failed = sat_add(out.failed, s.failed);
        let ghost prev = out.failures@;
        if out.failures.len() < max_failures {
            out.failures.append(&mut s.failures);
            if out.failures.len() > max_failures {
                out.failures.truncate(max_failures);
            }
        }
        proof {
            assert(srep == all[i as int]);
            acc = merge_step(acc, srep, max_failures as int);
            assert(all.take(i + 1) =~~= all.take(i as int).push(all[i as int]));
            assert(merge_run(all.take(i + 1), max_failures as int) == merge_step(
                merge_run(all.take(i as int), max_failures as int),
                all[i as int],
                max_failures as int,
            )) by {
                assert(all.take(i + 1).drop_last() =~~= all.take(i as int));
                assert(all.take(i + 1).last() == all[i as int]);
            }
            if prev.len() < max_failures {
                if (failures_rep(prev) + srep.failures).len() > max_failures {
                    assert(failures_rep(out.failures@) =~~= (failures_rep(prev)
                        + srep.failures).take(max_failures as int));
                } else {
                    assert(failures_rep(out.failures@) =~~= failures_rep(prev) + srep.failures);
                }
            }
            assert(matches_summary(out, acc));
        }
        i += 1;
    }
    proof {
        assert(all.take(n as int) =~~= all);
        lemma_merge_failures_capped(all, max_failures as int);
    }
    out
}

/// The mathematical image of an executable summary, read back exactly;
/// meaningful when its counts did not saturate.
pub open spec fn summary_spec_of(s: Summary) -> SummarySpec {
    SummarySpec {
        total: s.total as int,
        passed: s.passed as int,
        failed: s.failed as int,
        failures: failures_rep(s.failures@),
    }
}


/// The per-case contributions, independent of cap and fail-fast.
pub open spec fn case_total(c: TcCase) -> int {
    exec_labels(c.script).len() as int
}

pub open spec fn case_passed(c: TcCase) -> int {
    if case_passes(c) {
        case_total(c)
    } else {
        0
    }
}

pub open spec fn case_failed(c: TcCase) -> int {
    if case_passes(c) {
        0
    } else {
        case_total(c)
    }
}

/// The failure records a failing case contributes, one per execution.
pub open spec fn case_records(file: Seq<char>, ci: int, c: TcCase) -> Seq<FailureSpec> {
    if case_passes(c) {
        Seq::empty()
    } else if exec_labels(c.script).len() == 1 {
        seq![failure_rec(file, ci, exec_labels(c.script)[0].1, c)]
    } else {
        seq![
            failure_rec(file, ci, exec_labels(c.script)[0].1, c),
            failure_rec(file, ci, exec_labels(c.script)[1].1, c),
        ]
    }
}

pub open spec fn cases_total(cases: Seq<TcCase>, ci: int) -> int
    decreases cases.len() - ci,
{
    if !(0 <= ci < cases.len()) {
        0
    } else {
        case_total(cases[ci]) + cases_total(cases, ci + 1)
    }
}

pub open spec fn cases_passed(cases: Seq<TcCase>, ci: int) -> int
    decreases cases.len() - ci,
{
    if !(0 <= ci < cases.len()) {
        0
    } else {
        case_passed(cases[ci]) + cases_passed(cases, ci + 1)
    }
}

pub open spec fn cases_failed(cases: Seq<TcCase>, ci: int) -> int
    decreases cases.len() - ci,
{
    if !(0 <= ci < cases.len()) {
        0
    } else {
        case_failed(cases[ci]) + cases_failed(cases, ci + 1)
    }
}

pub open spec fn cases_records(file: Seq<char>, cases: Seq<TcCase>, ci: int) -> Seq<FailureSpec>
    decreases cases.len() - ci,
{
    if !(0 <= ci < cases.len()) {
        Seq::empty()
    } else {
        case_records(file, ci, cases[ci]) + cases_records(file, cases, ci + 1)
    }
}

/// Without fail-fast and with room under the cap for every record, a run
/// is exactly the accumulator plus the pure per-case sums.
proof fn lemma_run_cases_pure(
    file: Seq<char>,
    cases: Seq<TcCase>,
    ci: int,
    cap: int,
    acc: SummarySpec,
)
    requires
        acc.failures.len() + cases_failed(cases, ci) <= cap,
    ensures
        run_cases(file, cases, ci, cap, false, acc) == (SummarySpec {
            total: acc.total + cases_total(cases, ci),
            passed: acc.passed + cases_passed(cases, ci),
            failed: acc.failed + cases_failed(cases, ci),
            failures: acc.failures + cases_records(file, cases, ci),
        }),
        cases_records(file, cases, ci).len() == cases_failed(cases, ci),
        cases_failed(cases, ci) >= 0,
        cases_total(cases, ci) == cases_passed(cases, ci) + cases_failed(cases, ci),
    decreases cases.len() - ci,
{
    if !(0 <= ci < cases.len()) {
        assert(run_cases(file, cases, ci, cap, false, acc) =~~= (SummarySpec {
            total: acc.total + cases_total(cases, ci),
            passed: acc.passed + cases_passed(cases, ci),
            failed: acc.failed + cases_failed(cases, ci),
            failures: acc.failures + cases_records(file, cases, ci),
        }));
    } else {
        let c = cases[ci];
        let es = exec_labels(c.script);
        if case_passes(c) {
            let acc1 = SummarySpec {
                total: acc.total + es.len(),
                passed: acc.passed + es.len(),
                ..acc
            };
            lemma_run_cases_pure(file, cases, ci + 1, cap, acc1);
            assert(run_cases(file, cases, ci, cap, false, acc) =~~= (SummarySpec {
                total: acc.total + cases_total(cases, ci),
                passed: acc.passed + cases_passed(cases, ci),
                failed: acc.failed + cases_failed(cases, ci),
                failures: acc.failures + cases_records(file, cases, ci),
            }));
        } else {
            let r0 = failure_rec(file, ci, es[0].1, c);
            let acc1 = with_failure(
                SummarySpec { total: acc.total + 1, failed: acc.failed + 1, ..acc },
                cap,
                r0,
            );
            lemma_run_cases_pure(file, cases, ci + 1, cap, acc1);
            if es.len() == 1 {
                assert(acc1.failures =~~= acc.failures + case_records(file, ci, c));
                assert(run_cases(file, cases, ci, cap, false, acc) =~~= (SummarySpec {
                    total: acc.total + cases_total(cases, ci),
                    passed: acc.passed + cases_passed(cases, ci),
                    failed: acc.failed + cases_failed(cases, ci),
                    failures: acc.failures + cases_records(file, cases, ci),
                }));
            } else {
                let r1 = failure_rec(file, ci, es[1].1, c);
                let acc2 = with_failure(
                    SummarySpec { total: acc1.total + 1, failed: acc1.failed + 1, ..acc1 },
                    cap,
                    r1,
                );
                lemma_run_cases_pure(file, cases, ci + 1, cap, acc2);
                assert(acc2.failures =~~= acc.failures + case_records(file, ci, c));
                assert(run_cases(file, cases, ci, cap, false, acc) =~~= (SummarySpec {
                    total: acc.total + cases_total(cases, ci),
                    passed: acc.passed + cases_passed(cases, ci),
                    failed: acc.failed + cases_failed(cases, ci),
                    failures: acc.failures + cases_records(file, cases, ci),
                }));
            }
        }
    }
}

/// The pure contributions of one worker-input file.
pub open spec fn file_total(f: TreeFileRep) -> int {
    match f.content {
        Ok(text) => cases_total(tree_cases(text), 0),
        Err(msg) => 1,
    }
}

pub open spec fn file_passed(f: TreeFileRep) -> int {
    match f.content {
        Ok(text) => cases_passed(tree_cases(text), 0),
        Err(msg) => 0,
    }
}

pub open spec fn file_failed(f: TreeFileRep) -> int {
    match f.content {
        Ok(text) => cases_failed(tree_cases(text), 0),
        Err(msg) => 1,
    }
}

pub open spec fn file_records(f: TreeFileRep) -> Seq<FailureSpec> {
    match f.content {
        Ok(text) => cases_records(f.rel, tree_cases(text), 0),
        Err(msg) => read_failure_spec(f.path, msg).failures,
    }
}

proof fn lemma_file_outcome_pure(f: TreeFileRep, cap: int)
    requires
        file_failed(f) <= cap,
    ensures
        tree_file_outcome(f, cap, false) == (SummarySpec {
            total: file_total(f),
            passed: file_passed(f),
            failed: file_failed(f),
            failures: file_records(f),
        }),
        file_records(f).len() == file_failed(f),
        file_failed(f) >= 0,
        file_total(f) == file_passed(f) + file_failed(f),
{
    match f.content {
        Ok(text) => {
            lemma_run_cases_pure(f.rel, tree_cases(text), 0, cap, empty_summary());
            assert(empty_summary().failures + cases_records(f.rel, tree_cases(text), 0)
                =~~= cases_records(f.rel, tree_cases(text), 0));
            assert(tree_file_outcome(f, cap, false) =~~= (SummarySpec {
                total: file_total(f),
                passed: file_passed(f),
                failed: file_failed(f),
                failures: file_records(f),
            }));
        },
        Err(msg) => {
            assert(tree_file_outcome(f, cap, false) =~~= (SummarySpec {
                total: file_total(f),
                passed: file_passed(f),
                failed: file_failed(f),
                failures: file_records(f),
            }));
        },
    }
}

/// The pure sums over a list of files, from index `i` on.
pub open spec fn files_total(files: Seq<TreeFileRep>, i: int) -> int
    decreases files.len() - i,
{
    if !(0 <= i < files.len()) {
        0
    } else {
        file_total(files[i]) + files_total(files, i + 1)
    }
}

pub open spec fn files_passed(files: Seq<TreeFileRep>, i: int) -> int
    decreases files.len() - i,
{
    if !(0 <= i < files.len()) {
        0
    } else {
        file_passed(files[i]) + files_passed(files, i + 1)
    }
}

pub open spec fn files_failed(files: Seq<TreeFileRep>, i: int) -> int
    decreases files.len() - i,
{
    if !(0 <= i < files.len()) {
        0
    } else {
        file_failed(files[i]) + files_failed(files, i + 1)
    }
}

pub open spec fn files_records(files: Seq<TreeFileRep>, i: int) -> Seq<FailureSpec>
    decreases files.len() - i,
{
    if !(0 <= i < files.len()) {
        Seq::empty()
    } else {
        file_records(files[i]) + files_records(files, i + 1)
    }
}

/// Without fail-fast, while the records fit strictly under the cap, a
/// worker's chunk run is exactly the accumulator plus the pure file sums.
proof fn lemma_chunk_run_pure(files: Seq<TreeFileRep>, i: int, cap: int, acc: SummarySpec)
    requires
        acc.failures.len() + files_failed(files, i) < cap,
    ensures
        files_failed(files, i) >= 0,
        files_records(files, i).len() == files_failed(files, i),
        files_total(files, i) == files_passed(files, i) + files_failed(files, i),
        chunk_run(files, i, cap, false, acc) == (SummarySpec {
            total: acc.total + files_total(files, i),
            passed: acc.passed + files_passed(files, i),
            failed: acc.failed + files_failed(files, i),
            failures: acc.failures + files_records(files, i),
        }),
    decreases files.len() - i,
{
    if !(0 <= i < files.len()) {
        assert(chunk_run(files, i, cap, false, acc) =~~= (SummarySpec {
            total: acc.total + files_total(files, i),
            passed: acc.passed + files_passed(files, i),
            failed: acc.failed + files_failed(files, i),
            failures: acc.failures + files_records(files, i),
        }));
    } else {
        let f = files[i];
        let room = if cap - acc.failures.len() >= 0 {
            cap - acc.failures.len()
        } else {
            0int
        };
        lemma_files_counts_nonneg(files, i + 1);
        match f.content {
            Ok(text) => {
                lemma_cases_counts_nonneg(tree_cases(text), 0);
            },
            Err(msg) => {},
        }
        lemma_file_outcome_pure(f, room);
        lemma_chunk_run_pure(files, i + 1, cap, SummarySpec {
            total: acc.total + file_total(f),
            passed: acc.passed + file_passed(f),
            failed: acc.failed + file_failed(f),
            failures: acc.failures + file_records(f),
        });
        lemma_file_outcome_pure(f, room);
        let fs = tree_file_outcome(f, room, false);
        let acc2 = add_summaries(acc, fs);
        assert(acc2 =~~= (SummarySpec {
            total: acc.total + file_total(f),
            passed: acc.passed + file_passed(f),
            failed: acc.failed + file_failed(f),
            failures: acc.failures + file_records(f),
        }));
        assert(acc2.failures.len() < cap);
        assert(chunk_run(files, i, cap, false, acc) == chunk_run(files, i + 1, cap, false, acc2));
        assert(acc2.failures + files_records(files, i + 1) =~~= acc.failures + files_records(
            files,
            i,
        ));
        assert(chunk_run(files, i, cap, false, acc) =~~= (SummarySpec {
            total: acc.total + files_total(files, i),
            passed: acc.passed + files_passed(files, i),
            failed: acc.failed + files_failed(files, i),
            failures: acc.failures + files_records(files, i),
        }));
    }
}

proof fn lemma_cases_counts_nonneg(cases: Seq<TcCase>, ci: int)
    ensures
        cases_total(cases, ci) >= 0,
        cases_passed(cases, ci) >= 0,
        cases_failed(cases, ci) >= 0,
    decreases cases.len() - ci,
{
    if 0 <= ci < cases.len() {
        lemma_cases_counts_nonneg(cases, ci + 1);
    }
}

proof fn lemma_files_counts_nonneg(files: Seq<TreeFileRep>, i: int)
    ensures
        files_total(files, i) >= 0,
        files_passed(files, i) >= 0,
        files_failed(files, i) >= 0,
    decreases files.len() - i,
{
    if 0 <= i < files.len() {
        lemma_files_counts_nonneg(files, i + 1);
        match files[i].content {
            Ok(text) => {
                lemma_cases_counts_nonneg(tree_cases(text), 0);
            },
            Err(msg) => {},
        }
    }
}

/// Sums from index `i` equal sums of the suffix taken from its start.
proof fn lemma_files_sums_shift(files: Seq<TreeFileRep>, i: int)
    requires
        0 <= i <= files.len(),
    ensures
        files_total(files, i) == files_total(files.skip(i), 0),
        files_passed(files, i) == files_passed(files.skip(i), 0),
        files_failed(files, i) == files_failed(files.skip(i), 0),
        files_records(files, i) == files_records(files.skip(i), 0),
    decreases files.len() - i,
{
    let sk = files.skip(i);
    if i < files.len() {
        lemma_files_sums_shift(files, i + 1);
        lemma_files_sums_shift(sk, 1);
        assert(sk.skip(1) =~~= files.skip(i + 1));
        assert(sk[0] == files[i]);
        assert(files_records(files, i) =~~= files_records(sk, 0));
    } else {
        assert(sk.len() == 0);
        assert(files_records(files, i) =~~= files_records(sk, 0));
    }
}

proof fn lemma_files_sums_append(a: Seq<TreeFileRep>, b: Seq<TreeFileRep>)
    ensures
        files_total(a + b, 0) == files_total(a, 0) + files_total(b, 0),
        files_passed(a + b, 0) == files_passed(a, 0) + files_passed(b, 0),
        files_failed(a + b, 0) == files_failed(a, 0) + files_failed(b, 0),
        files_records(a + b, 0) == files_records(a, 0) + files_records(b, 0),
    decreases a.len(),
{
    if a.len() == 0 {
        assert(a + b =~~= b);
        assert(files_records(a, 0) + files_records(b, 0) =~~= files_records(b, 0));
    } else {
        lemma_files_sums_append(a.drop_first(), b);
        lemma_files_sums_shift(a + b, 1);
        lemma_files_sums_shift(a, 1);
        assert((a + b).skip(1) =~~= a.drop_first() + b);
        assert(a.skip(1) =~~= a.drop_first());
        assert((a + b)[0] == a[0]);
        assert(files_records(a + b, 0) =~~= files_records(a, 0) + files_records(b, 0));
    }
}

/// The concatenation of the workers' chunks, in dispatch order.
pub open spec fn concat_chunks(chunks: Seq<Seq<TreeFileRep>>) -> Seq<TreeFileRep>
    decreases chunks.len(),
{
    if chunks.len() == 0 {
        Seq::empty()
    } else {
        concat_chunks(chunks.drop_last()) + chunks.last()
    }
}

/// The workers' summaries, one per chunk, in dispatch order.
pub open spec fn worker_summaries(chunks: Seq<Seq<TreeFileRep>>, cap: int) -> Seq<SummarySpec> {
    Seq::new(chunks.len(), |k: int| chunk_run(chunks[k], 0, cap, false, empty_summary()))
}

/// Varying the worker count never changes the merged results: for any
/// partition of the file list into ordered chunks, run without fail-fast
/// and with the overall failure count strictly under the cap, the merged
/// summary is exactly the file-wise sum — so it does not depend on the
/// chunking — its failure list is the per-file records in file order, and
/// its total equals passed plus failed.
pub proof fn lemma_worker_count_invariance(
    files: Seq<TreeFileRep>,
    chunks: Seq<Seq<TreeFileRep>>,
    cap: int,
)
    requires
        concat_chunks(chunks) == files,
        files_failed(files, 0) < cap,
    ensures
        merge_run(worker_summaries(chunks, cap), cap) == (SummarySpec {
            total: files_total(files, 0),
            passed: files_passed(files, 0),
            failed: files_failed(files, 0),
            failures: files_records(files, 0),
        }),
        files_total(files, 0) == files_passed(files, 0) + files_failed(files, 0),
    decreases chunks.len(),
{
    if chunks.len() == 0 {
        assert(files =~~= Seq::<TreeFileRep>::empty());
        assert(merge_run(worker_summaries(chunks, cap), cap) == empty_summary()) by {
            assert(worker_summaries(chunks, cap).len() == 0);
        }
        assert(files_records(files, 0) =~~= Seq::<FailureSpec>::empty());
        assert(merge_run(worker_summaries(chunks, cap), cap) =~~= (SummarySpec {
            total: files_total(files, 0),
            passed: files_passed(files, 0),
            failed: files_failed(files, 0),
            failures: files_records(files, 0),
        }));
    } else {
        let pre = concat_chunks(chunks.drop_last());
        let lastc = chunks.last();
        assert(pre + lastc == files);
        lemma_files_sums_append(pre, lastc);
        lemma_files_counts_nonneg(pre, 0);
        lemma_files_counts_nonneg(lastc, 0);
        lemma_worker_count_invariance(pre, chunks.drop_last(), cap);
        let parts = worker_summaries(chunks, cap);
        assert(parts.drop_last() =~~= worker_summaries(chunks.drop_last(), cap)) by {
            assert(forall|k: int| 0 <= k < chunks.len() - 1 ==> chunks.drop_last()[k]
                == chunks[k]);
        }
        assert(parts.last() == chunk_run(lastc, 0, cap, false, empty_summary()));
        lemma_chunk_run_pure(lastc, 0, cap, empty_summary());
        let accp = merge_run(parts.drop_last(), cap);
        assert(accp.failures.len() == files_failed(pre, 0)) by {
            lemma_run_cases_pure_records_len(pre);
        }
        assert(empty_summary().failures + files_records(lastc, 0) =~~= files_records(lastc, 0));
        assert((accp.failures + parts.last().failures).len() <= cap);
        assert(merge_run(parts, cap) =~~= (SummarySpec {
            total: files_total(files, 0),
            passed: files_passed(files, 0),
            failed: files_failed(files, 0),
            failures: files_records(files, 0),
        }));
    }
}

proof fn lemma_run_cases_pure_records_len(files: Seq<TreeFileRep>)
    ensures
        files_records(files, 0).len() == files_failed(files, 0),
    decreases files.len(),
{
    lemma_files_records_len(files, 0);
}

proof fn lemma_files_records_len(files: Seq<TreeFileRep>, i: int)
    ensures
        files_records(files, i).len() == files_failed(files, i),
    decreases files.len() - i,
{
    if 0 <= i < files.len() {
        lemma_files_records_len(files, i + 1);
        match files[i].content {
            Ok(text) => {
                lemma_cases_records_len(files[i].rel, tree_cases(text), 0);
            },
            Err(msg) => {},
        }
    }
}

proof fn lemma_cases_records_len(file: Seq<char>, cases: Seq<TcCase>, ci: int)
    ensures
        cases_records(file, cases, ci).len() == cases_failed(cases, ci),
    decreases cases.len() - ci,
{
    if 0 <= ci < cases.len() {
        lemma_cases_records_len(file, cases, ci + 1);
    }
}


/// The position of the first object member whose key equals `key`.
pub open spec fn member_pos(fields: Seq<JsonMember>, key: Seq<char>) -> Option<int>
    decreases fields.len(),
{
    if fields.len() == 0 {
        None
    } else if fields[0].key@ == key {
        Some(0)
    } else {
        match member_pos(fields.drop_first(), key) {
            Some(i) => Some(i + 1),
            None => None,
        }
    }
}

pub proof fn lemma_member_pos_properties(fields: Seq<JsonMember>, key: Seq<char>)
    ensures
        match member_pos(fields, key) {
            Some(i) => 0 <= i < fields.len() && fields[i].key@ == key && forall|j: int|
                0 <= j < i ==> (#[trigger] fields[j]).key@ != key,
            None => forall|j: int| 0 <= j < fields.len() ==> (#[trigger] fields[j]).key@ != key,
        },
    decreases fields.len(),
{
    if fields.len() > 0 && fields[0].key@ != key {
        lemma_member_pos_properties(fields.drop_first(), key);
        let d = fields.drop_first();
        assert(forall|j: int| 0 <= j < d.len() ==> d[j] == fields[j + 1]);
        match member_pos(d, key) {
            Some(i) => {
                assert(d[i] == fields[i + 1]);
                assert forall|j: int| 0 <= j < i + 1 implies (#[trigger] fields[j]).key@ != key
                    by {
                    if j > 0 {
                        assert(d[j - 1] == fields[j]);
                    }
                }
            },
            None => {
                assert forall|j: int| 0 <= j < fields.len() implies (#[trigger] fields[j]).key@
                    != key by {
                    if j > 0 {
                        assert(d[j - 1] == fields[j]);
                    }
                }
            },
        }
    }
}

/// Looks up the first member with the given key; order is insertion
/// order, and the first match wins.
pub fn json_obj_get<'a>(obj: &'a [JsonMember], key: &str) -> (r: Option<&'a Json>)
    ensures
        match member_pos(obj@, key@) {
            Some(i) => r matches Some(v) && *v == obj@[i].value,
            None => r is None,
        },
{
    proof {
        lemma_member_pos_properties(obj@, key@);
    }
    let n = obj.len();
    let mut k: usize = 0;
    while k < n
        invariant
            n == obj@.len(),
            k <= n,
            forall|j: int| 0 <= j < k ==> (#[trigger] obj@[j]).key@ != key@,
            match member_pos(obj@, key@) {
                Some(i) => 0 <= i < obj@.len() && obj@[i].key@ == key@ && forall|j: int|
                    0 <= j < i ==> (#[trigger] obj@[j]).key@ != key@,
                None => forall|j: int| 0 <= j < obj@.len() ==> (#[trigger] obj@[j]).key@ != key@,
            },
        decreases n - k,
    {
        if crate::text::str_eq(obj[k].key.as_str(), key) {
            return Some(&obj[k].value);
        }
        k += 1;
    }
    None
}

/// The first-match lookup over the mathematical object image agrees with
/// [`member_pos`].
pub proof fn lemma_obj_lookup_rep(fields: Seq<JsonMember>, key: Seq<char>)
    ensures
        obj_lookup(json_rep_obj(fields), key) == (match member_pos(fields, key) {
            Some(i) => Some(json_rep(fields[i].value)),
            None => None,
        }),
    decreases fields.len(),
{
    crate::html5lib::lemma_json_rep_obj(fields);
    if fields.len() > 0 {
        let d = fields.drop_first();
        lemma_obj_lookup_rep(d, key);
        crate::html5lib::lemma_json_rep_obj(d);
        assert(json_rep_obj(fields).drop_first() =~= json_rep_obj(d));
        assert(json_rep_obj(fields)[0] == (fields[0].key@, json_rep(fields[0].value)));
        assert(forall|j: int| 0 <= j < d.len() ==> #[trigger] d[j] == fields[j + 1]);
        if fields[0].key@ == key {
            assert(member_pos(fields, key) == Some(0int));
            assert(obj_lookup(json_rep_obj(fields), key) == Some(json_rep(fields[0].value)));
        } else {
            assert(obj_lookup(json_rep_obj(fields), key) == obj_lookup(json_rep_obj(d), key));
            match member_pos(d, key) {
                Some(i) => {
                    lemma_member_pos_properties(d, key);
                    assert(member_pos(fields, key) == Some(i + 1));
                    assert(d[i] == fields[i + 1]);
                },
                None => {
                    assert(member_pos(fields, key) is None);
                },
            }
        }
    }
}

/// First-match lookup in an ordered member list.
pub open spec fn obj_lookup(ms: Seq<(Seq<char>, JsonVal)>, key: Seq<char>) -> Option<JsonVal>
    decreases ms.len(),
{
    if ms.len() == 0 {
        None
    } else if ms[0].0 == key {
        Some(ms[0].1)
    } else {
        obj_lookup(ms.drop_first(), key)
    }
}

/// The `tests` array of a fixture document, when the document is an
/// object holding one.
pub open spec fn tests_of(v: JsonVal) -> Option<Seq<JsonVal>> {
    match v {
        JsonVal::Obj(fs) => match obj_lookup(fs, "tests"@) {
            Some(JsonVal::Arr(a)) => Some(a),
            _ => None,
        },
        _ => None,
    }
}

/// The `input` string of one tokenizer test, empty when absent.
pub open spec fn tok_input(t: JsonVal) -> Seq<char> {
    match t {
        JsonVal::Obj(fs) => match obj_lookup(fs, "input"@) {
            Some(JsonVal::Str(cs)) => cs,
            _ => Seq::empty(),
        },
        _ => Seq::empty(),
    }
}

/// The number of variant runs one tokenizer test requires: the length of
/// a non-empty `initialStates` array, otherwise one.
pub open spec fn tok_variants(t: JsonVal) -> int {
    match t {
        JsonVal::Obj(fs) => match obj_lookup(fs, "initialStates"@) {
            Some(JsonVal::Arr(a)) => if a.len() > 0 {
                a.len() as int
            } else {
                1
            },
            _ => 1,
        },
        _ => 1,
    }
}

/// The `description` string of one serializer test, empty when absent.
pub open spec fn ser_desc(t: JsonVal) -> Seq<char> {
    match t {
        JsonVal::Obj(fs) => match obj_lookup(fs, "description"@) {
            Some(JsonVal::Str(cs)) => cs,
            _ => Seq::empty(),
        },
        _ => Seq::empty(),
    }
}

/// The placeholder record for work the parser cannot do yet.
pub open spec fn unimpl_rec(file: Seq<char>, ci: int, label: Seq<char>, input: Seq<char>)
    -> FailureSpec {
    FailureSpec {
        file,
        case_index: ci,
        script: label,
        input,
        expected: "(implemented parser output)"@,
        actual: "(unimplemented)"@,
    }
}

/// Builds the placeholder failure for unimplemented execution.
pub fn unimplemented_failure(file: String, case_index: usize, label: &str, input: String) -> (r:
    Failure)
    ensures
        failure_rep(r) == unimpl_rec(file@, case_index as int, label@, input@),
{
    Failure {
        file,
        case_index,
        script: label.to_owned(),
        input,
        expected: "(implemented parser output)".to_owned(),
        actual: "(unimplemented)".to_owned(),
    }
}

pub open spec fn add_fail(acc: SummarySpec, cap: int, f: FailureSpec) -> SummarySpec {
    with_failure(SummarySpec { total: acc.total + 1, failed: acc.failed + 1, ..acc }, cap, f)
}

/// `m` repetitions of the same failing execution.
pub open spec fn add_fails_n(acc: SummarySpec, cap: int, f: FailureSpec, m: int) -> SummarySpec
    decreases m,
{
    if m <= 0 {
        acc
    } else {
        add_fails_n(add_fail(acc, cap, f), cap, f, m - 1)
    }
}

/// One discovered JSON fixture file: its path relative to the root, and
/// its bytes (or the read error message).
pub struct SuiteFile {
    pub rel: String,
    pub content: Result<Vec<u8>, String>,
}

#[verifier::ext_equal]
pub struct SuiteFileRep {
    pub rel: Seq<char>,
    pub content: Result<Seq<u8>, Seq<char>>,
}

pub open spec fn suite_file_rep(f: SuiteFile) -> SuiteFileRep {
    SuiteFileRep {
        rel: f.rel@,
        content: match f.content {
            Ok(b) => Ok(b@),
            Err(e) => Err(e@),
        },
    }
}

pub open spec fn suite_files_rep(v: Seq<SuiteFile>) -> Seq<SuiteFileRep> {
    Seq::new(v.len(), |i: int| suite_file_rep(v[i]))
}

/// Tokenizer tests from index `ti` on: every variant of every test counts
/// as one failed (unimplemented) execution; fail-fast stops after the
/// first variant.
pub open spec fn tok_tests_run(
    rel: Seq<char>,
    tests: Seq<JsonVal>,
    ti: int,
    cap: int,
    ff: bool,
    acc: SummarySpec,
) -> (SummarySpec, bool)
    decreases tests.len() - ti,
{
    if !(0 <= ti < tests.len()) {
        (acc, false)
    } else {
        let rec = unimpl_rec(rel, ti, "n/a"@, tok_input(tests[ti]));
        if ff {
            (add_fail(acc, cap, rec), true)
        } else {
            tok_tests_run(
                rel,
                tests,
                ti + 1,
                cap,
                ff,
                add_fails_n(acc, cap, rec, tok_variants(tests[ti])),
            )
        }
    }
}

/// Serializer tests from index `ti` on: each test is one failed
/// (unimplemented) execution; fail-fast stops after the first.
pub open spec fn ser_tests_run(
    rel: Seq<char>,
    tests: Seq<JsonVal>,
    ti: int,
    cap: int,
    ff: bool,
    acc: SummarySpec,
) -> (SummarySpec, bool)
    decreases tests.len() - ti,
{
    if !(0 <= ti < tests.len()) {
        (acc, false)
    } else {
        let rec = unimpl_rec(rel, ti, "n/a"@, ser_desc(tests[ti]));
        if ff {
            (add_fail(acc, cap, rec), true)
        } else {
            ser_tests_run(rel, tests, ti + 1, cap, ff, add_fail(acc, cap, rec))
        }
    }
}

/// One suite file's contribution.  `diag` is the diagnostic text echoed
/// into the record of an undecodable file; the engine does not pin its
/// wording.
pub open spec fn suite_file_run(
    acc: SummarySpec,
    f: SuiteFileRep,
    cap: int,
    ff: bool,
    diag: Seq<char>,
    serializer: bool,
) -> (SummarySpec, bool) {
    match f.content {
        Err(msg) => (add_fail(acc, cap, unimpl_rec(f.rel, 0, "n/a"@, "read error: "@ + msg)), false),
        Ok(bytes) => match json_doc(bytes) {
            Step::Fail { at } => (add_fail(acc, cap, unimpl_rec(f.rel, 0, "n/a"@, diag)), false),
            Step::Done { v, next } => match tests_of(v) {
                None => if v is Obj {
                    (
                        add_fail(
                            acc,
                            cap,
                            unimpl_rec(f.rel, 0, "n/a"@, "missing top-level tests array"@),
                        ),
                        false,
                    )
                } else {
                    (
                        add_fail(
                            acc,
                            cap,
                            unimpl_rec(f.rel, 0, "n/a"@, "top-level JSON is not an object"@),
                        ),
                        false,
                    )
                },
                Some(tests) => if serializer {
                    ser_tests_run(f.rel, tests, 0, cap, ff, acc)
                } else {
                    tok_tests_run(f.rel, tests, 0, cap, ff, acc)
                },
            },
        },
    }
}

/// A whole suite, in file order; a stopped file ends the suite.
pub open spec fn suite_run(
    files: Seq<SuiteFileRep>,
    i: int,
    cap: int,
    ff: bool,
    acc: SummarySpec,
    diags: Seq<Seq<char>>,
    serializer: bool,
) -> SummarySpec
    decreases files.len() - i,
{
    if !(0 <= i < files.len()) {
        acc
    } else {
        let d = if 0 <= i < diags.len() {
            diags[i]
        } else {
            Seq::empty()
        };
        let r = suite_file_run(acc, files[i], cap, ff, d, serializer);
        if r.1 {
            r.0
        } else {
            suite_run(files, i + 1, cap, ff, r.0, diags, serializer)
        }
    }
}


fn push_usize_chars(out: &mut Vec<char>, n: usize)
    decreases n,
{
    if n < 10 {
        out.push((48 + n as u8) as char);
    } else {
        push_usize_chars(out, n / 10);
        out.push((48 + (n % 10) as u8) as char);
    }
}

/// Extracts the `input` string of one tokenizer test.
fn tok_input_of(t: &Json) -> (r: String)
    ensures
        r@ == tok_input(json_rep(*t)),
{
    match t {
        Json::Object(fields) => {
            proof {
                lemma_obj_lookup_rep(fields@, "input"@);
            }
            match json_obj_get(fields.as_slice(), "input") {
                Some(v) => match v {
                    Json::String(st) => st.clone(),
                    _ => {
                        proof {
                            assert(!(json_rep(*v) is Str));
                        }
                        String::new()
                    },
                },
                None => String::new(),
            }
        },
        _ => String::new(),
    }
}

/// Extracts the variant count of one tokenizer test.
fn tok_variants_of(t: &Json) -> (r: usize)
    ensures
        r as int == tok_variants(json_rep(*t)),
        r >= 1,
{
    match t {
        Json::Object(fields) => {
            proof {
                lemma_obj_lookup_rep(fields@, "initialStates"@);
            }
            match json_obj_get(fields.as_slice(), "initialStates") {
                Some(v) => match v {
                    Json::Array(a) => {
                        proof {
                            crate::html5lib::lemma_json_rep_list(a@);
                        }
                        if a.len() > 0 {
                            a.len()
                        } else {
                            1
                        }
                    },
                    _ => {
                        proof {
                            assert(!(json_rep(*v) is Arr));
                        }
                        1
                    },
                },
                None => 1,
            }
        },
        _ => 1,
    }
}

/// Extracts the `description` string of one serializer test.
fn ser_desc_of(t: &Json) -> (r: String)
    ensures
        r@ == ser_desc(json_rep(*t)),
{
    match t {
        Json::Object(fields) => {
            proof {
                lemma_obj_lookup_rep(fields@, "description"@);
            }
            match json_obj_get(fields.as_slice(), "description") {
                Some(v) => match v {
                    Json::String(st) => st.clone(),
                    _ => {
                        proof {
                            assert(!(json_rep(*v) is Str));
                        }
                        String::new()
                    },
                },
                None => String::new(),
            }
        },
        _ => String::new(),
    }
}

/// Appends one failed placeholder execution, recording detail while there
/// is room.
fn record_unimpl(
    summary: &mut Summary,
    rel: &String,
    ci: usize,
    input: String,
    cap: usize,
    Ghost(acc): Ghost<SummarySpec>,
) -> (res: Ghost<SummarySpec>)
    requires
        matches_summary(*old(summary), acc),
        nonneg(acc),
        acc.failures.len() == old(summary).failures@.len(),
    ensures
        res@ == add_fail(acc, cap as int, unimpl_rec(rel@, ci as int, "n/a"@, input@)),
        matches_summary(*final(summary), res@),
        nonneg(res@),
        res@.failures.len() == final(summary).failures@.len(),
{
    let ghost rec = unimpl_rec(rel@, ci as int, "n/a"@, input@);
    summary.total = sat_add(summary.total, 1);
    summary.failed = sat_add(summary.failed, 1);
    if summary.failures.len() < cap {
        let ghost prev = summary.failures@;
        let f = unimplemented_failure(rel.clone(), ci, "n/a", input);
        summary.failures.push(f);
        proof {
            assert(failures_rep(summary.failures@) =~~= failures_rep(prev).push(rec));
        }
    }
    Ghost(add_fail(acc, cap as int, rec))
}

/// Runs every tokenizer test of one file as failed placeholders.
fn run_tok_tests(
    summary: &mut Summary,
    rel: &String,
    tests: &Vec<Json>,
    cap: usize,
    fail_fast: bool,
    Ghost(acc): Ghost<SummarySpec>,
) -> (res: (Ghost<SummarySpec>, bool))
    requires
        matches_summary(*old(summary), acc),
        nonneg(acc),
        acc.failures.len() == old(summary).failures@.len(),
    ensures
        (res.0@, res.1) == tok_tests_run(
            rel@,
            crate::html5lib::json_rep_list(tests@),
            0,
            cap as int,
            fail_fast,
            acc,
        ),
        matches_summary(*final(summary), res.0@),
        nonneg(res.0@),
        res.0@.failures.len() == final(summary).failures@.len(),
{
    proof {
        crate::html5lib::lemma_json_rep_list(tests@);
    }
    let ghost trep = crate::html5lib::json_rep_list(tests@);
    let ghost acc0 = acc;
    let ghost mut cur = acc;
    let tn = tests.len();
    let mut ti: usize = 0;
    while ti < tn
        invariant
            tn == tests@.len(),
            ti <= tn,
            trep == crate::html5lib::json_rep_list(tests@),
            trep.len() == tn,
            forall|i: int| 0 <= i < tn ==> trep[i] == json_rep(tests@[i]),
            matches_summary(*summary, cur),
            nonneg(cur),
            cur.failures.len() == summary.failures@.len(),
            acc0 == acc,
            tok_tests_run(rel@, trep, 0, cap as int, fail_fast, acc0) == tok_tests_run(
                rel@,
                trep,
                ti as int,
                cap as int,
                fail_fast,
                cur,
            ),
        decreases tn - ti,
    {
        let ghost rec = unimpl_rec(rel@, ti as int, "n/a"@, tok_input(trep[ti as int]));
        let input = tok_input_of(&tests[ti]);
        if fail_fast {
            let ghost prev = cur;
            let g = record_unimpl(summary, rel, ti, input, cap, Ghost(cur));
            proof {
                cur = g@;
                assert(tok_tests_run(rel@, trep, ti as int, cap as int, true, prev) == (
                    add_fail(prev, cap as int, rec),
                    true,
                ));
            }
            return (Ghost(cur), true);
        }
        let m = tok_variants_of(&tests[ti]);
        let ghost before = cur;
        let mut vi: usize = 0;
        while vi < m
            invariant
                vi <= m,
                matches_summary(*summary, cur),
                nonneg(cur),
                cur.failures.len() == summary.failures@.len(),
                input@ == rec.input,
                rel@ == rec.file,
                ti as int == rec.case_index,
                "n/a"@ == rec.script,
                rec == unimpl_rec(rel@, ti as int, "n/a"@, input@),
                add_fails_n(before, cap as int, rec, m as int) == add_fails_n(
                    cur,
                    cap as int,
                    rec,
                    m - vi,
                ),
            decreases m - vi,
        {
            let g = record_unimpl(summary, rel, ti, input.clone(), cap, Ghost(cur));
            proof {
                cur = g@;
            }
            vi += 1;
        }
        proof {
            assert(add_fails_n(cur, cap as int, rec, 0) == cur);
        }
        ti += 1;
    }
    (Ghost(cur), false)
}

/// Runs every serializer test of one file as a failed placeholder.
fn run_ser_tests(
    summary: &mut Summary,
    rel: &String,
    tests: &Vec<Json>,
    cap: usize,
    fail_fast: bool,
    Ghost(acc): Ghost<SummarySpec>,
) -> (res: (Ghost<SummarySpec>, bool))
    requires
        matches_summary(*old(summary), acc),
        nonneg(acc),
        acc.failures.len() == old(summary).failures@.len(),
    ensures
        (res.0@, res.1) == ser_tests_run(
            rel@,
            crate::html5lib::json_rep_list(tests@),
            0,
            cap as int,
            fail_fast,
            acc,
        ),
        matches_summary(*final(summary), res.0@),
        nonneg(res.0@),
        res.0@.failures.len() == final(summary).failures@.len(),
{
    proof {
        crate::html5lib::lemma_json_rep_list(tests@);
    }
    let ghost trep = crate::html5lib::json_rep_list(tests@);
    let ghost acc0 = acc;
    let ghost mut cur = acc;
    let tn = tests.len();
    let mut ti: usize = 0;
    while ti < tn
        invariant
            tn == tests@.len(),
            ti <= tn,
            trep == crate::html5lib::json_rep_list(tests@),
            trep.len() == tn,
            forall|i: int| 0 <= i < tn ==> trep[i] == json_rep(tests@[i]),
            matches_summary(*summary, cur),
            nonneg(cur),
            cur.failures.len() == summary.failures@.len(),
            acc0 == acc,
            ser_tests_run(rel@, trep, 0, cap as int, fail_fast, acc0) == ser_tests_run(
                rel@,
                trep,
                ti as int,
                cap as int,
                fail_fast,
                cur,
            ),
        decreases tn - ti,
    {
        let ghost rec = unimpl_rec(rel@, ti as int, "n/a"@, ser_desc(trep[ti as int]));
        let ghost prev = cur;
        let desc = ser_desc_of(&tests[ti]);
        let g = record_unimpl(summary, rel, ti, desc, cap, Ghost(cur));
        proof {
            cur = g@;
        }
        if fail_fast {
            proof {
                assert(ser_tests_run(rel@, trep, ti as int, cap as int, true, prev) == (
                    add_fail(prev, cap as int, rec),
                    true,
                ));
            }
            return (Ghost(cur), true);
        }
        ti += 1;
    }
    (Ghost(cur), false)
}

/// Processes one suite file; returns the new accumulator image, the
/// diagnostic recorded for an undecodable file, and whether fail-fast
/// ended the suite.
fn run_suite_file(
    summary: &mut Summary,
    file: &SuiteFile,
    cap: usize,
    fail_fast: bool,
    serializer: bool,
    Ghost(acc): Ghost<SummarySpec>,
) -> (res: (Ghost<SummarySpec>, Ghost<Seq<char>>, bool))
    requires
        matches_summary(*old(summary), acc),
        nonneg(acc),
        acc.failures.len() == old(summary).failures@.len(),
    ensures
        (res.0@, res.2) == suite_file_run(
            acc,
            suite_file_rep(*file),
            cap as int,
            fail_fast,
            res.1@,
            serializer,
        ),
        matches_summary(*final(summary), res.0@),
        nonneg(res.0@),
        res.0@.failures.len() == final(summary).failures@.len(),
{
    let rel = file.rel.clone();
    match &file.content {
        Err(msg) => {
            let mut input: Vec<char> = Vec::new();
            crate::text::push_str_chars(&mut input, "read error: ");
            crate::text::push_str_chars(&mut input, msg.as_str());
            let g = record_unimpl(summary, &rel, 0, string_from_chars(&input), cap, Ghost(acc));
            (g, Ghost(Seq::empty()), false)
        },
        Ok(bytes) => {
            match parse_json(bytes.as_slice()) {
                Err(e) => {
                    let mut diag: Vec<char> = Vec::new();
                    crate::text::push_str_chars(&mut diag, "JSON parse error: ");
                    crate::text::push_str_chars(&mut diag, e.message.as_str());
                    crate::text::push_str_chars(&mut diag, " @");
                    push_usize_chars(&mut diag, e.offset);
                    let g = record_unimpl(
                        summary,
                        &rel,
                        0,
                        string_from_chars(&diag),
                        cap,
                        Ghost(acc),
                    );
                    (g, Ghost(diag@), false)
                },
                Ok(json) => {
                    let ghost v = json_rep(json);
                    match &json {
                        Json::Object(fields) => {
                            proof {
                                lemma_obj_lookup_rep(fields@, "tests"@);
                            }
                            match json_obj_get(fields.as_slice(), "tests") {
                                Some(tv) => match tv {
                                    Json::Array(tests) => {
                                        proof {
                                            crate::html5lib::lemma_json_rep_list(tests@);
                                            assert(tests_of(v) == Some(
                                                crate::html5lib::json_rep_list(tests@),
                                            ));
                                        }
                                        if serializer {
                                            let r = run_ser_tests(
                                                summary,
                                                &rel,
                                                tests,
                                                cap,
                                                fail_fast,
                                                Ghost(acc),
                                            );
                                            (r.0, Ghost(Seq::empty()), r.1)
                                        } else {
                                            let r = run_tok_tests(
                                                summary,
                                                &rel,
                                                tests,
                                                cap,
                                                fail_fast,
                                                Ghost(acc),
                                            );
                                            (r.0, Ghost(Seq::empty()), r.1)
                                        }
                                    },
                                    _ => {
                                        proof {
                                            assert(!(json_rep(*tv) is Arr));
                                            assert(tests_of(v) is None);
                                        }
                                        let g = record_unimpl(
                                            summary,
                                            &rel,
                                            0,
                                            "missing top-level tests array".to_owned(),
                                            cap,
                                            Ghost(acc),
                                        );
                                        (g, Ghost(Seq::empty()), false)
                                    },
                                },
                                None => {
                                    proof {
                                        assert(tests_of(v) is None);
                                    }
                                    let g = record_unimpl(
                                        summary,
                                        &rel,
                                        0,
                                        "missing top-level tests array".to_owned(),
                                        cap,
                                        Ghost(acc),
                                    );
                                    (g, Ghost(Seq::empty()), false)
                                },
                            }
                        },
                        _ => {
                            proof {
                                assert(!(v is Obj));
                            }
                            let g = record_unimpl(
                                summary,
                                &rel,
                                0,
                                "top-level JSON is not an object".to_owned(),
                                cap,
                                Ghost(acc),
                            );
                            (g, Ghost(Seq::empty()), false)
                        },
                    }
                },
            }
        },
    }
}

fn run_json_suite(files: &Vec<SuiteFile>, max_failures: usize, fail_fast: bool, serializer: bool)
    -> (r: Summary)
    ensures
        exists|diags: Seq<Seq<char>>|
            matches_summary(
                r,
                suite_run(
                    suite_files_rep(files@),
                    0,
                    max_failures as int,
                    fail_fast,
                    empty_summary(),
                    diags,
                    serializer,
                ),
            ),
{
    let ghost fr = suite_files_rep(files@);
    let mut summary = Summary { total: 0, passed: 0, failed: 0, failures: Vec::new() };
    let ghost mut acc = empty_summary();
    let ghost mut diags: Seq<Seq<char>> = Seq::empty();
    proof {
        assert(failures_rep(summary.failures@) =~~= acc.failures);
    }
    let n = files.len();
    let mut fi: usize = 0;
    while fi < n
        invariant
            n == files@.len(),
            fi <= n,
            fr == suite_files_rep(files@),
            matches_summary(summary, acc),
            nonneg(acc),
            acc.failures.len() == summary.failures@.len(),
            diags.len() == fi,
            forall|rest: Seq<Seq<char>>|
                suite_run(
                    fr,
                    0,
                    max_failures as int,
                    fail_fast,
                    empty_summary(),
                    #[trigger] (diags + rest),
                    serializer,
                ) == suite_run(
                    fr,
                    fi as int,
                    max_failures as int,
                    fail_fast,
                    acc,
                    diags + rest,
                    serializer,
                ),
        decreases n - fi,
    {
        let ghost acc0 = acc;
        let ghost diags0 = diags;
        let res = run_suite_file(
            &mut summary,
            &files[fi],
            max_failures,
            fail_fast,
            serializer,
            Ghost(acc),
        );
        proof {
            acc = res.0@;
            diags = diags0.push(res.1@);
            assert(suite_file_rep(files@[fi as int]) == fr[fi as int]);
            assert forall|rest: Seq<Seq<char>>|
                suite_run(
                    fr,
                    0,
                    max_failures as int,
                    fail_fast,
                    empty_summary(),
                    #[trigger] (diags + rest),
                    serializer,
                ) == (if res.2 {
                    acc
                } else {
                    suite_run(
                        fr,
                        fi + 1,
                        max_failures as int,
                        fail_fast,
                        acc,
                        diags + rest,
                        serializer,
                    )
                }) by {
                assert(diags + rest =~~= diags0 + (seq![res.1@] + rest));
                assert((diags0 + (seq![res.1@] + rest))[fi as int] == res.1@);
            }
        }
        if res.2 {
            proof {
                assert(diags + Seq::<Seq<char>>::empty() =~~= diags);
            }
            return summary;
        }
        fi += 1;
    }
    proof {
        assert(diags + Seq::<Seq<char>>::empty() =~~= diags);
        assert(suite_run(
            fr,
            n as int,
            max_failures as int,
            fail_fast,
            acc,
            diags,
            serializer,
        ) == acc);
    }
    summary
}

/// Runs the tokenizer suite over its discovered files, in order: fixture
/// decoding is exercised, and every test variant is reported as a failed
/// placeholder execution until tokenizer execution exists.
pub fn run_tokenizer_suite(files: &Vec<SuiteFile>, max_failures: usize, fail_fast: bool) -> (r:
    Summary)
    ensures
        exists|diags: Seq<Seq<char>>|
            matches_summary(
                r,
                suite_run(
                    suite_files_rep(files@),
                    0,
                    max_failures as int,
                    fail_fast,
                    empty_summary(),
                    diags,
                    false,
                ),
            ),
{
    run_json_suite(files, max_failures, fail_fast, false)
}

/// Runs the serializer suite over its discovered files, in order: fixture
/// decoding is exercised, and every test is reported as a failed
/// placeholder execution until serializer execution exists.
pub fn run_serializer_suite(files: &Vec<SuiteFile>, max_failures: usize, fail_fast: bool) -> (r:
    Summary)
    ensures
        exists|diags: Seq<Seq<char>>|
            matches_summary(
                r,
                suite_run(
                    suite_files_rep(files@),
                    0,
                    max_failures as int,
                    fail_fast,
                    empty_summary(),
                    diags,
                    true,
                ),
            ),
{
    run_json_suite(files, max_failures, fail_fast, true)
}


/// Every run preserves the summation invariant: each execution adds one
/// to the total and to exactly one of passed/failed, so `total == passed
/// + failed` holds of the run's model for every cap and fail-fast
/// setting.
pub proof fn lemma_run_cases_balance(
    file: Seq<char>,
    cases: Seq<TcCase>,
    ci: int,
    cap: int,
    ff: bool,
    acc: SummarySpec,
)
    requires
        acc.total == acc.passed + acc.failed,
    ensures
        ({
            let m = run_cases(file, cases, ci, cap, ff, acc);
            m.total == m.passed + m.failed
        }),
    decreases cases.len() - ci,
{
    if 0 <= ci < cases.len() {
        let c = cases[ci];
        let es = exec_labels(c.script);
        if case_passes(c) {
            lemma_run_cases_balance(
                file,
                cases,
                ci + 1,
                cap,
                ff,
                SummarySpec { total: acc.total + es.len(), passed: acc.passed + es.len(), ..acc },
            );
        } else {
            let acc1 = with_failure(
                SummarySpec { total: acc.total + 1, failed: acc.failed + 1, ..acc },
                cap,
                failure_rec(file, ci, es[0].1, c),
            );
            if es.len() == 1 {
                if !ff {
                    lemma_run_cases_balance(file, cases, ci + 1, cap, ff, acc1);
                }
            } else {
                let acc2 = with_failure(
                    SummarySpec { total: acc1.total + 1, failed: acc1.failed + 1, ..acc1 },
                    cap,
                    failure_rec(file, ci, es[1].1, c),
                );
                if !ff {
                    lemma_run_cases_balance(file, cases, ci + 1, cap, ff, acc2);
                }
            }
        }
    }
}

/// The summation invariant holds of every file outcome.
pub proof fn lemma_tree_file_outcome_balance(f: TreeFileRep, cap: int, ff: bool)
    ensures
        ({
            let m = tree_file_outcome(f, cap, ff);
            m.total == m.passed + m.failed
        }),
{
    match f.content {
        Ok(text) => {
            lemma_run_cases_balance(f.rel, tree_cases(text), 0, cap, ff, empty_summary());
        },
        Err(msg) => {},
    }
}

/// The summation invariant holds of every worker's chunk run.
pub proof fn lemma_chunk_run_balance(
    files: Seq<TreeFileRep>,
    i: int,
    cap: int,
    ff: bool,
    acc: SummarySpec,
)
    requires
        acc.total == acc.passed + acc.failed,
    ensures
        ({
            let m = chunk_run(files, i, cap, ff, acc);
            m.total == m.passed + m.failed
        }),
    decreases files.len() - i,
{
    if 0 <= i < files.len() {
        let room = if cap - acc.failures.len() >= 0 {
            cap - acc.failures.len()
        } else {
            0int
        };
        let fs = tree_file_outcome(files[i], room, ff);
        lemma_tree_file_outcome_balance(files[i], room, ff);
        let acc2 = add_summaries(acc, fs);
        if ff && acc2.failed > 0 {
        } else if acc2.failures.len() >= cap {
        } else {
            lemma_chunk_run_balance(files, i + 1, cap, ff, acc2);
        }
    }
}

/// The summation invariant survives the dispatcher's merge.
pub proof fn lemma_merge_run_balance(parts: Seq<SummarySpec>, cap: int)
    requires
        forall|j: int| 0 <= j < parts.len() ==> (#[trigger] parts[j]).total == parts[j].passed
            + parts[j].failed,
    ensures
        ({
            let m = merge_run(parts, cap);
            m.total == m.passed + m.failed
        }),
    decreases parts.len(),
{
    if parts.len() > 0 {
        assert(forall|j: int| 0 <= j < parts.drop_last().len() ==> #[trigger] parts.drop_last()[j]
            == parts[j]);
        lemma_merge_run_balance(parts.drop_last(), cap);
    }
}


/// Lexicographic order on character sequences; on UTF-8 text this agrees
/// with byte order, the order fixture discovery promises.
pub open spec fn path_le(a: Seq<char>, b: Seq<char>) -> bool
    decreases a.len(),
{
    if a.len() == 0 {
        true
    } else if b.len() == 0 {
        false
    } else if a[0] < b[0] {
        true
    } else if a[0] > b[0] {
        false
    } else {
        path_le(a.drop_first(), b.drop_first())
    }
}

pub proof fn lemma_path_le_total(a: Seq<char>, b: Seq<char>)
    ensures
        path_le(a, b) || path_le(b, a),
    decreases a.len(),
{
    if a.len() > 0 && b.len() > 0 && a[0] == b[0] {
        lemma_path_le_total(a.drop_first(), b.drop_first());
    }
}

pub proof fn lemma_path_le_trans(a: Seq<char>, b: Seq<char>, c: Seq<char>)
    requires
        path_le(a, b),
        path_le(b, c),
    ensures
        path_le(a, c),
    decreases a.len(),
{
    if a.len() > 0 && b.len() > 0 && c.len() > 0 {
        if a[0] == b[0] && b[0] == c[0] {
            lemma_path_le_trans(a.drop_first(), b.drop_first(), c.drop_first());
        }
    }
}

pub open spec fn paths_view(v: Seq<String>) -> Seq<Seq<char>> {
    Seq::new(v.len(), |i: int| v[i]@)
}

/// Stable insertion of `x`: it goes after every entry at most equal to it.
pub open spec fn insert_path(s: Seq<Seq<char>>, x: Seq<char>) -> Seq<Seq<char>>
    decreases s.len(),
{
    if s.len() == 0 {
        seq![x]
    } else if path_le(s.last(), x) {
        s.push(x)
    } else {
        insert_path(s.drop_last(), x).push(s.last())
    }
}

/// Stable insertion sort in lexicographic order.
pub open spec fn sort_paths_spec(s: Seq<Seq<char>>) -> Seq<Seq<char>>
    decreases s.len(),
{
    if s.len() == 0 {
        Seq::empty()
    } else {
        insert_path(sort_paths_spec(s.drop_last()), s.last())
    }
}

pub open spec fn paths_sorted(s: Seq<Seq<char>>) -> bool {
    forall|i: int, j: int| 0 <= i < j < s.len() ==> path_le(#[trigger] s[i], #[trigger] s[j])
}

proof fn lemma_insert_path_len(s: Seq<Seq<char>>, x: Seq<char>)
    ensures
        insert_path(s, x).len() == s.len() + 1,
    decreases s.len(),
{
    if s.len() > 0 && !path_le(s.last(), x) {
        lemma_insert_path_len(s.drop_last(), x);
    }
}

proof fn lemma_insert_path_members(s: Seq<Seq<char>>, x: Seq<char>)
    ensures
        forall|i: int| 0 <= i < insert_path(s, x).len()
            ==> (exists|m: int| 0 <= m < s.len() && #[trigger] insert_path(s, x)[i] == s[m])
                || insert_path(s, x)[i] == x,
    decreases s.len(),
{
    lemma_insert_path_len(s, x);
    if s.len() == 0 {
    } else if path_le(s.last(), x) {
        assert forall|i: int| 0 <= i < insert_path(s, x).len() implies (exists|m: int|
            0 <= m < s.len() && #[trigger] insert_path(s, x)[i] == s[m]) || insert_path(s, x)[i]
            == x by {
            if i < s.len() {
                assert(insert_path(s, x)[i] == s[i]);
            }
        }
    } else {
        let d = s.drop_last();
        lemma_insert_path_members(d, x);
        lemma_insert_path_len(d, x);
        let inner = insert_path(d, x);
        assert forall|i: int| 0 <= i < insert_path(s, x).len() implies (exists|m: int|
            0 <= m < s.len() && #[trigger] insert_path(s, x)[i] == s[m]) || insert_path(s, x)[i]
            == x by {
            if i < inner.len() {
                assert(insert_path(s, x)[i] == inner[i]);
                if inner[i] != x {
                    let m = choose|m: int| 0 <= m < d.len() && inner[i] == d[m];
                    assert(s[m] == d[m]);
                }
            } else {
                assert(insert_path(s, x)[i] == s.last());
                assert(s[s.len() - 1] == s.last());
            }
        }
    }
}

proof fn lemma_insert_path_sorted(s: Seq<Seq<char>>, x: Seq<char>)
    requires
        paths_sorted(s),
    ensures
        paths_sorted(insert_path(s, x)),
    decreases s.len(),
{
    lemma_insert_path_len(s, x);
    if s.len() == 0 {
    } else if path_le(s.last(), x) {
        let r = s.push(x);
        assert forall|i: int, j: int| 0 <= i < j < r.len() implies path_le(r[i], r[j]) by {
            if j == r.len() - 1 {
                if i < s.len() - 1 {
                    lemma_path_le_trans(s[i], s.last(), x);
                }
            }
        }
    } else {
        let d = s.drop_last();
        assert(paths_sorted(d)) by {
            assert(forall|i: int, j: int| 0 <= i < j < d.len() ==> #[trigger] d[i] == s[i]
                && #[trigger] d[j] == s[j]);
        }
        lemma_insert_path_sorted(d, x);
        lemma_insert_path_len(d, x);
        let inner = insert_path(d, x);
        let r = inner.push(s.last());
        lemma_path_le_total(s.last(), x);
        lemma_insert_path_members(d, x);
        assert forall|i: int, j: int| 0 <= i < j < r.len() implies path_le(r[i], r[j]) by {
            if j == r.len() - 1 {
                assert(r[j] == s.last());
                if inner[i] == x {
                    assert(path_le(x, s.last()));
                } else {
                    let m = choose|m: int| 0 <= m < d.len() && inner[i] == d[m];
                    assert(path_le(s[m], s.last()));
                }
            }
        }
    }
}

/// The discovery order is lexicographic: the sorted path list is in
/// weakly increasing order.
pub proof fn lemma_sort_paths_sorted(s: Seq<Seq<char>>)
    ensures
        paths_sorted(sort_paths_spec(s)),
    decreases s.len(),
{
    if s.len() > 0 {
        lemma_sort_paths_sorted(s.drop_last());
        lemma_insert_path_sorted(sort_paths_spec(s.drop_last()), s.last());
    }
}

/// `insert_path` splices `x` at the scan position found from the right.
proof fn lemma_insert_path_splice(s: Seq<Seq<char>>, x: Seq<char>, j: int)
    requires
        0 <= j <= s.len(),
        j > 0 ==> path_le(s[j - 1], x),
        forall|k: int| j <= k < s.len() ==> !path_le(#[trigger] s[k], x),
    ensures
        insert_path(s, x) == s.take(j) + seq![x] + s.skip(j),
    decreases s.len(),
{
    if j == s.len() {
        if s.len() == 0 {
            assert(insert_path(s, x) =~~= s.take(j) + seq![x] + s.skip(j));
        } else {
            assert(path_le(s.last(), x));
            assert(insert_path(s, x) =~~= s.take(j) + seq![x] + s.skip(j));
        }
    } else {
        assert(!path_le(s[s.len() - 1], x));
        let d = s.drop_last();
        lemma_insert_path_splice(d, x, j);
        assert(d.take(j) =~~= s.take(j));
        assert(d.skip(j) =~~= s.skip(j).drop_last());
        assert(insert_path(s, x) == insert_path(d, x).push(s.last()));
        assert(insert_path(s, x) =~~= s.take(j) + seq![x] + s.skip(j));
    }
}

fn path_le_from(a: &str, b: &str, i: usize, an: usize, bn: usize) -> (r: bool)
    requires
        an == a@.len(),
        bn == b@.len(),
        i <= an,
        i <= bn,
    ensures
        r == path_le(a@.skip(i as int), b@.skip(i as int)),
    decreases an - i,
{
    proof {
        if i < an {
            assert(a@.skip(i as int)[0] == a@[i as int]);
            assert(a@.skip(i as int).drop_first() =~= a@.skip(i + 1));
        }
        if i < bn {
            assert(b@.skip(i as int)[0] == b@[i as int]);
            assert(b@.skip(i as int).drop_first() =~= b@.skip(i + 1));
        }
    }
    if i >= an {
        true
    } else if i >= bn {
        false
    } else if a.get_char(i) < b.get_char(i) {
        true
    } else if a.get_char(i) > b.get_char(i) {
        false
    } else {
        path_le_from(a, b, i + 1, an, bn)
    }
}

fn path_le_exec(a: &String, b: &String) -> (r: bool)
    ensures
        r == path_le(a@, b@),
{
    proof {
        assert(a@.skip(0) =~= a@);
        assert(b@.skip(0) =~= b@);
    }
    path_le_from(a.as_str(), b.as_str(), 0, a.as_str().unicode_len(), b.as_str().unicode_len())
}

/// Sorts a discovered path list into the deterministic lexicographic
/// order the discovery contract promises; equal entries keep their
/// relative order.
pub fn sort_paths(v: Vec<String>) -> (r: Vec<String>)
    ensures
        paths_view(r@) == sort_paths_spec(paths_view(v@)),
        paths_sorted(paths_view(r@)),
{
    let n = v.len();
    let mut out: Vec<String> = Vec::new();
    let mut i: usize = 0;
    while i < n
        invariant
            n == v@.len(),
            i <= n,
            paths_view(out@) == sort_paths_spec(paths_view(v@).take(i as int)),
        decreases n - i,
    {
        let x = v[i].clone();
        let ghost prev = paths_view(out@);
        let ghost gx = v@[i as int]@;
        let mut j = out.len();
        while j > 0 && !path_le_exec(&out[j - 1], &x)
            invariant
                j <= out.len(),
                x@ == gx,
                paths_view(out@) == prev,
                forall|k: int| j <= k < out@.len() ==> !path_le(#[trigger] paths_view(out@)[k], gx),
            decreases j,
        {
            proof {
                assert(paths_view(out@)[j - 1] == out@[j - 1]@);
            }
            j -= 1;
        }
        proof {
            if j > 0 {
                assert(paths_view(out@)[j - 1] == out@[j - 1]@);
            }
        }
        out.insert(j, x);
        proof {
            lemma_insert_path_splice(prev, gx, j as int);
            assert(paths_view(out@) =~~= prev.take(j as int) + seq![gx] + prev.skip(j as int));
            assert(paths_view(v@).take(i + 1).drop_last() =~~= paths_view(v@).take(i as int));
            assert(paths_view(v@).take(i + 1).last() == gx);
            assert(paths_view(out@) == sort_paths_spec(paths_view(v@).take(i + 1)));
        }
        i += 1;
    }
    proof {
        assert(paths_view(v@).take(n as int) =~~= paths_view(v@));
        lemma_sort_paths_sorted(paths_view(v@));
    }
    out
}

} // verus!
