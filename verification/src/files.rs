//! The rules of checking a tree of `.htmlp` files, apart from reading them:
//! which entries a scan visits and what one file's report holds.
use vstd::prelude::*;
use vstd::string::*;

use crate::check::{lint, spec_lint, TokenCounter};
use crate::model::{diags_view, measurements_view, Diagnostic, MeasurementModel, Report, ReportModel};
use crate::parser::{parse, spec_parse, str_is};
use crate::text::chars_of;

verus! {

/// The report of one source: its lint report, or its parse error alone.
pub open spec fn spec_check_source<C: TokenCounter>(src: Seq<char>, c: C) -> ReportModel {
    match spec_parse(src) {
        Ok(d) => spec_lint(d, c),
        Err(e) => ReportModel { diagnostics: seq![e], measurements: Seq::empty() },
    }
}

/// Checks one file's source independently of every other file.
pub fn check_source<C: TokenCounter>(source: &str, counter: &C) -> (r: Report)
    requires
        spec_parse(source@) matches Ok(d) ==> (crate::check::spec_validate(d, *counter).len() == 0
            ==> crate::check::document_countable(d, None, *counter)),
    ensures
        r@ == spec_check_source(source@, *counter),
{
    match parse(source) {
        Ok(doc) => lint(&doc, counter),
        Err(error) => {
            let mut diagnostics: Vec<Diagnostic> = Vec::new();
            diagnostics.push(error);
            let r = Report { diagnostics, measurements: Vec::new() };
            assert(r@.diagnostics =~= seq![error@]);
            assert(r@.measurements =~= Seq::empty());
            r
        },
    }
}

/// Directory names a scan never enters.
pub open spec fn skipped(name: Seq<char>) -> bool {
    name == ".git"@ || name == "node_modules"@ || name == "target"@ || name == "dist"@ || name
        == "vendor"@
}

/// Whether a scan skips the directory entry `name`.
pub fn skipped_directory(name: &str) -> (b: bool)
    ensures
        b == skipped(name@),
{
    str_is(name, ".git") || str_is(name, "node_modules") || str_is(name, "target") || str_is(
        name,
        "dist",
    ) || str_is(name, "vendor")
}

/// A file name with the extension `htmlp`: it ends in `.htmlp` after a
/// nonempty stem.
pub open spec fn htmlp_name(name: Seq<char>) -> bool {
    name.len() > 6 && name.subrange(name.len() - 6, name.len() as int) == ".htmlp"@
}

/// Whether a file named `name` is a source file.
pub fn is_htmlp_file(name: &str) -> (b: bool)
    ensures
        b == htmlp_name(name@),
{
    let c = chars_of(name);
    if c.len() <= 6 {
        return false;
    }
    crate::parser::eq_lit(&c, c.len() - 6, c.len(), ".htmlp")
}


/// A budget that checking leaves to rendering: deferred, with a limit.
pub open spec fn deferred_budget(m: MeasurementModel) -> bool {
    m.deferred && m.limit is Some
}

pub open spec fn deferred_in(ms: Seq<MeasurementModel>) -> int
    decreases ms.len(),
{
    if ms.len() == 0 {
        0
    } else {
        deferred_in(ms.drop_last()) + if deferred_budget(ms.last()) {
            1int
        } else {
            0int
        }
    }
}

/// The deferred budgets of all the reports.
pub open spec fn deferred_over(rs: Seq<ReportModel>) -> int
    decreases rs.len(),
{
    if rs.len() == 0 {
        0
    } else {
        deferred_over(rs.drop_last()) + deferred_in(rs.last().measurements)
    }
}

pub open spec fn any_failed(rs: Seq<ReportModel>) -> bool {
    exists|i: int| 0 <= i < rs.len() && (#[trigger] rs[i]).diagnostics.len() > 0
}

pub open spec fn reports_view(rs: Seq<Report>) -> Seq<ReportModel> {
    rs.map_values(|r: Report| r@)
}

/// The outcome of checking several files.
pub struct CheckSummary {
    /// Some file has a diagnostic.
    pub failed: bool,
    /// The budgets deferred until render, over all files.
    pub deferred: usize,
}

impl CheckSummary {
    /// The command's exit status: 1 when some file failed, else 0.
    pub fn exit_code(&self) -> (c: u8)
        ensures
            c == if self.failed {
                1u8
            } else {
                0u8
            },
    {
        if self.failed {
            1
        } else {
            0
        }
    }
}

proof fn lemma_deferred_in_bounds(ms: Seq<MeasurementModel>)
    ensures
        0 <= deferred_in(ms) <= ms.len(),
    decreases ms.len(),
{
    if ms.len() > 0 {
        lemma_deferred_in_bounds(ms.drop_last());
    }
}

proof fn lemma_deferred_over_nonneg(rs: Seq<ReportModel>)
    ensures
        0 <= deferred_over(rs),
    decreases rs.len(),
{
    if rs.len() > 0 {
        lemma_deferred_over_nonneg(rs.drop_last());
        lemma_deferred_in_bounds(rs.last().measurements);
    }
}

/// What checking several files comes to: whether any failed, and how many
/// budgets are deferred until render (at most `usize::MAX`).
pub fn summarize(reports: &Vec<Report>) -> (s: CheckSummary)
    ensures
        s.failed == any_failed(reports_view(reports@)),
        s.deferred as int == if deferred_over(reports_view(reports@)) <= usize::MAX {
            deferred_over(reports_view(reports@))
        } else {
            usize::MAX as int
        },
{
    let ghost rs = reports_view(reports@);
    let mut failed = false;
    let mut deferred: usize = 0;
    let mut i: usize = 0;
    while i < reports.len()
        invariant
            i <= reports@.len(),
            rs == reports_view(reports@),
            rs.len() == reports@.len(),
            failed == any_failed(rs.take(i as int)),
            deferred as int == if deferred_over(rs.take(i as int)) <= usize::MAX {
                deferred_over(rs.take(i as int))
            } else {
                usize::MAX as int
            },
        decreases reports@.len() - i,
    {
        let r = &reports[i];
        let ghost before = rs.take(i as int);
        let ghost next = rs.take(i + 1);
        proof {
            assert(next.drop_last() =~= before);
            assert(next.last() == rs[i as int]);
            assert(rs[i as int] == r@);
            lemma_deferred_over_nonneg(before);
        }
        if !r.is_ok() {
            failed = true;
            assert(next[i as int].diagnostics.len() > 0);
        } else {
            assert forall|j: int| 0 <= j < next.len() && (#[trigger] next[j]).diagnostics.len() > 0 implies before[j].diagnostics.len() > 0 by {
                if j < i {
                    assert(next[j] == before[j]);
                }
            }
        }
        proof {
            if failed && r@.diagnostics.len() == 0 {
                let k = choose|j: int| 0 <= j < before.len() && (#[trigger] before[j]).diagnostics.len() > 0;
                assert(next[k] == before[k]);
            }
        }
        let ms = &r.measurements;
        let ghost mv = measurements_view(ms@);
        proof {
            assert(mv == r@.measurements);
        }
        let mut j: usize = 0;
        let ghost base = deferred_over(before);
        while j < ms.len()
            invariant
                j <= ms@.len(),
                mv == measurements_view(ms@),
                mv.len() == ms@.len(),
                base == deferred_over(before),
                base >= 0,
                deferred as int == if base + deferred_in(mv.take(j as int)) <= usize::MAX {
                    base + deferred_in(mv.take(j as int))
                } else {
                    usize::MAX as int
                },
            decreases ms@.len() - j,
        {
            proof {
                let t = mv.take(j + 1);
                assert(t.drop_last() =~= mv.take(j as int));
                assert(t.last() == mv[j as int]);
                assert(mv[j as int] == ms@[j as int]@);
                lemma_deferred_in_bounds(mv.take(j as int));
            }
            if ms[j].deferred && ms[j].limit.is_some() {
                if deferred < usize::MAX {
                    deferred = deferred + 1;
                }
            }
            j = j + 1;
        }
        proof {
            assert(mv.take(ms@.len() as int) =~= mv);
        }
        i = i + 1;
    }
    proof {
        assert(rs.take(reports@.len() as int) =~= rs);
    }
    CheckSummary { failed, deferred }
}

/// Scans never enter exactly five directories: `.git`, `node_modules`,
/// `target`, `dist` and `vendor`; every other name is entered.
pub proof fn law_skipped_directories_are_exactly_five(name: Seq<char>)
    ensures
        skipped(".git"@),
        skipped("node_modules"@),
        skipped("target"@),
        skipped("dist"@),
        skipped("vendor"@),
        skipped(name) ==> set![".git"@, "node_modules"@, "target"@, "dist"@, "vendor"@].contains(name),
        Set::new(|n: Seq<char>| skipped(n)) == set![".git"@, "node_modules"@, "target"@, "dist"@, "vendor"@],
        Set::new(|n: Seq<char>| skipped(n)).len() == 5,
{
    reveal_strlit(".git");
    reveal_strlit("node_modules");
    reveal_strlit("target");
    reveal_strlit("dist");
    reveal_strlit("vendor");
    let five = set![".git"@, "node_modules"@, "target"@, "dist"@, "vendor"@];
    assert(Set::new(|n: Seq<char>| skipped(n)) =~= five);
    assert(".git"@.len() == 4 && "node_modules"@.len() == 12 && "target"@.len() == 6);
    assert("dist"@.len() == 4 && "vendor"@.len() == 6);
    assert(".git"@[0] != "dist"@[0]);
    assert("target"@[0] != "vendor"@[0]);
    assert(five.len() == 5);
}
} // verus!
