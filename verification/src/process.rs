//! Entry point of the planning stage.

use crate::plan::{plan_model, process_files, FileJob, PlanError};
use vstd::prelude::*;

verus! {

/// Plans a whole run: one job per input file, paired positionally with a
/// name from `optional_paths`, outputs placed under the cleaned
/// `output_path`.
pub fn process(paths: &Vec<String>, output_path: &str, optional_paths: &Vec<String>) -> (r: Result<
    Vec<FileJob>,
    PlanError,
>)
    ensures
        r is Ok <==> plan_model(paths.deep_view(), output_path@, optional_paths.deep_view())
            is Ok,
        r is Ok ==> r->Ok_0.deep_view() == plan_model(
            paths.deep_view(),
            output_path@,
            optional_paths.deep_view(),
        )->Ok_0,
        r is Err ==> r->Err_0 == plan_model(
            paths.deep_view(),
            output_path@,
            optional_paths.deep_view(),
        )->Err_0,
{
    process_files(paths, output_path, optional_paths)
}

} // verus!
