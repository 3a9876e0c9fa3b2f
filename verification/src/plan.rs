//! Per-file output planning for the report pipeline.
//!
//! For each input file, paired positionally with a name from
//! `optional_paths`, the pipeline writes an intermediate HTML document and
//! a final PDF into the cleaned output directory. This module computes
//! those output paths; reading the inputs and producing the documents is
//! the caller's business.

use crate::paths::{
    add_suffix, add_suffix_model, normalize_path, normalize_spec, replace_path,
    replace_path_model,
};
use vstd::prelude::*;

verus! {

/// The planned work for one input file.
#[derive(Clone, Debug)]
pub struct FileJob {
    /// The input file to read records from.
    pub input: String,
    /// Where the intermediate HTML document goes.
    pub html_output: String,
    /// Where the final PDF goes.
    pub pdf_output: String,
}

/// The mathematical image of a `FileJob`.
pub struct JobModel {
    pub input: Seq<char>,
    pub html_output: Seq<char>,
    pub pdf_output: Seq<char>,
}

impl View for FileJob {
    type V = JobModel;

    open spec fn view(&self) -> JobModel {
        JobModel {
            input: self.input@,
            html_output: self.html_output@,
            pdf_output: self.pdf_output@,
        }
    }
}

impl DeepView for FileJob {
    type V = JobModel;

    open spec fn deep_view(&self) -> JobModel {
        self.view()
    }
}

/// Failure to derive an output path.
#[derive(Clone, Copy, Debug, PartialEq, Eq, Structural)]
pub enum PlanError {
    /// The paired name carries no file name to place in the output
    /// directory.
    MissingFileName,
    /// No HTML output name could be derived.
    MissingHtmlName,
    /// No PDF output name could be derived.
    MissingPdfName,
}

pub open spec fn suffix_html() -> Seq<char> {
    seq!['h', 't', 'm', 'l']
}

pub open spec fn suffix_pdf() -> Seq<char> {
    seq!['p', 'd', 'f']
}

/// The job owed to one input: its paired name moved under the cleaned
/// output directory, once with an `html` extension and once with `pdf`.
pub open spec fn job_model(input: Seq<char>, opt: Seq<char>, out_dir: Seq<char>) -> Result<
    JobModel,
    PlanError,
> {
    match replace_path_model(opt, out_dir) {
        Option::None => Err(PlanError::MissingFileName),
        Option::Some(np) => match add_suffix_model(np, suffix_html()) {
            Option::None => Err(PlanError::MissingHtmlName),
            Option::Some(h) => match add_suffix_model(np, suffix_pdf()) {
                Option::None => Err(PlanError::MissingPdfName),
                Option::Some(p) => Ok(
                    JobModel { input: input, html_output: h, pdf_output: p },
                ),
            },
        },
    }
}

pub open spec fn jobs_prefix(
    paths: Seq<Seq<char>>,
    opts: Seq<Seq<char>>,
    out_dir: Seq<char>,
    n: int,
) -> Result<Seq<JobModel>, PlanError>
    decreases n,
{
    if n <= 0 {
        Ok(Seq::empty())
    } else {
        let prefix = jobs_prefix(paths, opts, out_dir, n - 1);
        if prefix is Err {
            prefix
        } else {
            match job_model(paths[n - 1], opts[n - 1], out_dir) {
                Ok(j) => Ok(prefix->Ok_0.push(j)),
                Err(e) => Err(e),
            }
        }
    }
}

/// The plan owed to a run: inputs paired positionally with names, as many
/// pairs as the shorter list holds, jobs in input order, the first
/// failing pair aborting the plan with its error.
pub open spec fn plan_model(
    paths: Seq<Seq<char>>,
    output_path: Seq<char>,
    opts: Seq<Seq<char>>,
) -> Result<Seq<JobModel>, PlanError> {
    let c = if paths.len() <= opts.len() {
        paths.len() as int
    } else {
        opts.len() as int
    };
    jobs_prefix(paths, opts, normalize_spec(output_path), c)
}

proof fn lemma_jobs_err_persists(
    paths: Seq<Seq<char>>,
    opts: Seq<Seq<char>>,
    out_dir: Seq<char>,
    k: int,
    c: int,
)
    requires
        0 <= k <= c,
        jobs_prefix(paths, opts, out_dir, k) is Err,
    ensures
        jobs_prefix(paths, opts, out_dir, c) == jobs_prefix(paths, opts, out_dir, k),
    decreases c - k,
{
    if k < c {
        lemma_jobs_err_persists(paths, opts, out_dir, k + 1, c);
    }
}

/// Plans the output paths of a run: cleans the output directory path,
/// pairs each input with its name, and derives the HTML and PDF output
/// paths of every pair.
pub fn process_files(
    paths: &Vec<String>,
    output_path: &str,
    optional_paths: &Vec<String>,
) -> (r: Result<Vec<FileJob>, PlanError>)
    ensures
        r is Ok <==> plan_model(paths.deep_view(), output_path@, optional_paths.deep_view())
            is Ok,
        r is Ok ==> r->Ok_0.deep_view() == plan_model(
            paths.deep_view(),
            output_path@,
            optional_paths.deep_view(),
        )->Ok_0,
        r is Err ==> r->Err_0 == plan_model(
            paths.deep_view(),
            output_path@,
            optional_paths.deep_view(),
        )->Err_0,
{
    let ghost ps = paths.deep_view();
    let ghost os = optional_paths.deep_view();
    let cleaned = normalize_path(output_path);
    let ghost out_dir = normalize_spec(output_path@);
    let count = if paths.len() <= optional_paths.len() {
        paths.len()
    } else {
        optional_paths.len()
    };
    let mut jobs: Vec<FileJob> = Vec::new();
    let mut i: usize = 0;
    proof {
        reveal_strlit("html");
        reveal_strlit("pdf");
        assert("html"@ =~= suffix_html());
        assert("pdf"@ =~= suffix_pdf());
    }
    while i < count
        invariant
            i <= count,
            ps == paths.deep_view(),
            os == optional_paths.deep_view(),
            count <= paths.len(),
            count <= optional_paths.len(),
            count as int == (if ps.len() <= os.len() {
                ps.len() as int
            } else {
                os.len() as int
            }),
            cleaned@ == out_dir,
            out_dir == normalize_spec(output_path@),
            "html"@ == suffix_html(),
            "pdf"@ == suffix_pdf(),
            jobs_prefix(ps, os, out_dir, i as int) is Ok,
            jobs.deep_view() == jobs_prefix(ps, os, out_dir, i as int)->Ok_0,
        decreases count - i,
    {
        let opt = &optional_paths[i];
        proof {
            assert(os[i as int] == optional_paths@[i as int]@);
            assert(ps[i as int] == paths@[i as int]@);
        }
        match replace_path(opt.as_str(), cleaned.as_str()) {
            Option::None => {
                proof {
                    lemma_jobs_err_persists(ps, os, out_dir, i as int + 1, count as int);
                }
                return Err(PlanError::MissingFileName);
            },
            Option::Some(np) => {
                let html_output = match add_suffix(np.as_str(), "html") {
                    Option::None => {
                        proof {
                            lemma_jobs_err_persists(ps, os, out_dir, i as int + 1, count as int);
                        }
                        return Err(PlanError::MissingHtmlName);
                    },
                    Option::Some(h) => h,
                };
                let pdf_output = match add_suffix(np.as_str(), "pdf") {
                    Option::None => {
                        proof {
                            lemma_jobs_err_persists(ps, os, out_dir, i as int + 1, count as int);
                        }
                        return Err(PlanError::MissingPdfName);
                    },
                    Option::Some(p) => p,
                };
                let input = paths[i].clone();
                jobs.push(FileJob { input, html_output, pdf_output });
                proof {
                    assert(jobs.deep_view() =~= jobs_prefix(ps, os, out_dir, i as int + 1)->Ok_0);
                }
            },
        }
        i = i + 1;
    }
    Ok(jobs)
}

} // verus!
