//! What a gate says of each way in which it does not hold.
use crate::text::{lemma_mentions, mentions};
use vstd::prelude::*;
use vstd::string::*;

verus! {

/// A workflow that cannot be read.
pub open spec fn unreadable_workflow_text(workflow: Seq<char>, error: Seq<char>) -> Seq<char> {
    "cannot read "@
        + workflow
        + ": "@
        + error
        + ". The"@
        + " gate is this workflow; without it there is nothing requiring anything."@
}

/// A workflow that cannot be read.
pub fn unreadable_workflow(workflow: &str, error: &str) -> (r: String)
    ensures
        r@ == unreadable_workflow_text(workflow@, error@),
{
    let mut out = "cannot read ".to_owned();
    out.append(workflow);
    out.append(": ");
    out.append(error);
    out.append(". The");
    out.append(" gate is this workflow; without it there is nothing requiring anything.");
    out
}

/// A workflow without a document.
pub open spec fn empty_workflow_text(workflow: Seq<char>) -> Seq<char> {
    workflow
        + " is empty"@
}

/// A workflow without a document.
pub fn empty_workflow(workflow: &str) -> (r: String)
    ensures
        r@ == empty_workflow_text(workflow@),
{
    let mut out = workflow.to_owned();
    out.append(" is empty");
    out
}

/// A workflow that is not YAML.
pub open spec fn invalid_workflow_text(workflow: Seq<char>, error: Seq<char>) -> Seq<char> {
    workflow
        + " is not valid YAML: "@
        + error
        + ". This guard reads the workflow rather than scanning its text, so a file it cannot parse is a failure and never a pass."@
}

/// A workflow that is not YAML.
pub fn invalid_workflow(workflow: &str, error: &str) -> (r: String)
    ensures
        r@ == invalid_workflow_text(workflow@, error@),
{
    let mut out = workflow.to_owned();
    out.append(" is not valid YAML: ");
    out.append(error);
    out.append(". This guard reads the workflow rather than scanning its text, so a file it cannot parse is a failure and never a pass.");
    out
}

/// A workflow without triggers.
pub open spec fn no_trigger_text(workflow: Seq<char>) -> Seq<char> {
    workflow
        + " has no `on:` trigger at all, so it runs for nothing and gates nothing"@
}

/// A workflow without triggers.
pub fn no_trigger(workflow: &str) -> (r: String)
    ensures
        r@ == no_trigger_text(workflow@),
{
    let mut out = workflow.to_owned();
    out.append(" has no `on:` trigger at all, so it runs for nothing and gates nothing");
    out
}

/// A workflow that does not run on pull requests.
pub open spec fn wrong_trigger_text(workflow: Seq<char>, triggers: Seq<char>) -> Seq<char> {
    workflow
        + " does not run on `pull_request` (it runs on "@
        + triggers
        + "), so no check it produces ever reports on one. Requiring one would be requiring a check that never arrives, which GitHub reads as permanently pending -- with enforce_admins on that blocks every merge and there is no failure to point at."@
}

/// A workflow that does not run on pull requests.
pub fn wrong_trigger(workflow: &str, triggers: &str) -> (r: String)
    ensures
        r@ == wrong_trigger_text(workflow@, triggers@),
{
    let mut out = workflow.to_owned();
    out.append(" does not run on `pull_request` (it runs on ");
    out.append(triggers);
    out.append("), so no check it produces ever reports on one. Requiring one would be requiring a check that never arrives, which GitHub reads as permanently pending -- with enforce_admins on that blocks every merge and there is no failure to point at.");
    out
}

/// A workflow without the aggregate job.
pub open spec fn no_aggregate_text(workflow: Seq<char>, aggregate: Seq<char>, jobs: Seq<char>) -> Seq<char> {
    workflow
        + " has no `"@
        + aggregate
        + "` job, so protection has to name every job by hand -- and that list drifts the moment one is renamed, split or added. Jobs present: "@
        + jobs
}

/// A workflow without the aggregate job.
pub fn no_aggregate(workflow: &str, aggregate: &str, jobs: &str) -> (r: String)
    ensures
        r@ == no_aggregate_text(workflow@, aggregate@, jobs@),
{
    let mut out = workflow.to_owned();
    out.append(" has no `");
    out.append(aggregate);
    out.append("` job, so protection has to name every job by hand -- and that list drifts the moment one is renamed, split or added. Jobs present: ");
    out.append(jobs);
    out
}

/// An exemption for a job that is not there.
pub open spec fn exempt_stranger_text(declared: Seq<char>, workflow: Seq<char>) -> Seq<char> {
    "`"@
        + declared
        + "` is declared non-gating but is not a job in "@
        + workflow
        + ". An exemption for a job that does not exist is an exemption waiting to silently cover a future job of that name."@
}

/// An exemption for a job that is not there.
pub fn exempt_stranger(declared: &str, workflow: &str) -> (r: String)
    ensures
        r@ == exempt_stranger_text(declared@, workflow@),
{
    let mut out = "`".to_owned();
    out.append(declared);
    out.append("` is declared non-gating but is not a job in ");
    out.append(workflow);
    out.append(". An exemption for a job that does not exist is an exemption waiting to silently cover a future job of that name.");
    out
}

/// An exemption for a job that gates.
pub open spec fn exempt_gating_text(declared: Seq<char>, workflow: Seq<char>, aggregate: Seq<char>) -> Seq<char> {
    "`"@
        + declared
        + "` is declared non-gating but carries none of [\"if\", \"continue-on-error\"] in "@
        + workflow
        + ". It runs unconditionally and its failure is a real failure, so exempting it from `"@
        + aggregate
        + "`'s `needs:` takes a working gate off a working job."@
}

/// An exemption for a job that gates.
pub fn exempt_gating(declared: &str, workflow: &str, aggregate: &str) -> (r: String)
    ensures
        r@ == exempt_gating_text(declared@, workflow@, aggregate@),
{
    let mut out = "`".to_owned();
    out.append(declared);
    out.append("` is declared non-gating but carries none of [\"if\", \"continue-on-error\"] in ");
    out.append(workflow);
    out.append(". It runs unconditionally and its failure is a real failure, so exempting it from `");
    out.append(aggregate);
    out.append("`'s `needs:` takes a working gate off a working job.");
    out
}

/// A gating job that the aggregate does not need.
pub open spec fn not_needed_text(aggregate: Seq<char>, job: Seq<char>, needs: Seq<char>) -> Seq<char> {
    "`"@
        + aggregate
        + "` does not need `"@
        + job
        + "`, so that job gates nothing: it can go red and the merge still goes through. `"@
        + aggregate
        + "` needs "@
        + needs
}

/// A gating job that the aggregate does not need.
pub fn not_needed(aggregate: &str, job: &str, needs: &str) -> (r: String)
    ensures
        r@ == not_needed_text(aggregate@, job@, needs@),
{
    let mut out = "`".to_owned();
    out.append(aggregate);
    out.append("` does not need `");
    out.append(job);
    out.append("`, so that job gates nothing: it can go red and the merge still goes through. `");
    out.append(aggregate);
    out.append("` needs ");
    out.append(needs);
    out
}

/// An exempted job that the aggregate needs.
pub open spec fn needed_exempt_text(aggregate: Seq<char>, job: Seq<char>, keys: Seq<char>) -> Seq<char> {
    "`"@
        + aggregate
        + "` needs `"@
        + job
        + "`, which carries "@
        + keys
        + " and is declared non-gating. `continue-on-error` reports `success` for a failed job, so the aggregate reads green for red; a job-level `if:` that is false leaves it `skipped`, which the aggregate counts as not-success and every pull request fails on a job that was never meant to run. Take it out of `needs:`."@
}

/// An exempted job that the aggregate needs.
pub fn needed_exempt(aggregate: &str, job: &str, keys: &str) -> (r: String)
    ensures
        r@ == needed_exempt_text(aggregate@, job@, keys@),
{
    let mut out = "`".to_owned();
    out.append(aggregate);
    out.append("` needs `");
    out.append(job);
    out.append("`, which carries ");
    out.append(keys);
    out.append(" and is declared non-gating. `continue-on-error` reports `success` for a failed job, so the aggregate reads green for red; a job-level `if:` that is false leaves it `skipped`, which the aggregate counts as not-success and every pull request fails on a job that was never meant to run. Take it out of `needs:`.");
    out
}

/// A conditional job that was never exempted, and that the aggregate needs.
pub open spec fn undeclared_needed_text(aggregate: Seq<char>, job: Seq<char>, keys: Seq<char>) -> Seq<char> {
    "`"@
        + job
        + "` carries "@
        + keys
        + " but is not declared non-gating. It is in `"@
        + aggregate
        + "`'s `needs:`, where that key is a hole: a `continue-on-error` job reports success however it ended, and a job skipped by its `if:` fails the aggregate on every pull request. Declare it with `.non_gating([\""@
        + job
        + "\"])` and take it out of `"@
        + aggregate
        + "`'s `needs:`, or take the key off the job."@
}

/// A conditional job that was never exempted, and that the aggregate needs.
pub fn undeclared_needed(aggregate: &str, job: &str, keys: &str) -> (r: String)
    ensures
        r@ == undeclared_needed_text(aggregate@, job@, keys@),
{
    let mut out = "`".to_owned();
    out.append(job);
    out.append("` carries ");
    out.append(keys);
    out.append(" but is not declared non-gating. It is in `");
    out.append(aggregate);
    out.append("`'s `needs:`, where that key is a hole: a `continue-on-error` job reports success however it ended, and a job skipped by its `if:` fails the aggregate on every pull request. Declare it with `.non_gating([\"");
    out.append(job);
    out.append("\"])` and take it out of `");
    out.append(aggregate);
    out.append("`'s `needs:`, or take the key off the job.");
    out
}

/// A conditional job that was never exempted, and that the aggregate does not need.
pub open spec fn undeclared_left_out_text(aggregate: Seq<char>, job: Seq<char>, keys: Seq<char>) -> Seq<char> {
    "`"@
        + job
        + "` carries "@
        + keys
        + " but is not declared non-gating. It is already out of `needs:`, so it gates nothing -- but nothing in the repository says that was intended. Declare it with `.non_gating([\""@
        + job
        + "\"])` and take it out of `"@
        + aggregate
        + "`'s `needs:`, or take the key off the job."@
}

/// A conditional job that was never exempted, and that the aggregate does not need.
pub fn undeclared_left_out(aggregate: &str, job: &str, keys: &str) -> (r: String)
    ensures
        r@ == undeclared_left_out_text(aggregate@, job@, keys@),
{
    let mut out = "`".to_owned();
    out.append(job);
    out.append("` carries ");
    out.append(keys);
    out.append(" but is not declared non-gating. It is already out of `needs:`, so it gates nothing -- but nothing in the repository says that was intended. Declare it with `.non_gating([\"");
    out.append(job);
    out.append("\"])` and take it out of `");
    out.append(aggregate);
    out.append("`'s `needs:`, or take the key off the job.");
    out
}

/// A needed job that is not there.
pub open spec fn needs_stranger_text(aggregate: Seq<char>, need: Seq<char>, workflow: Seq<char>) -> Seq<char> {
    "`"@
        + aggregate
        + "` needs `"@
        + need
        + "`, which is not a job in "@
        + workflow
        + ". GitHub refuses to run a workflow with an unresolvable `needs:`, so the one required check never reports and nothing merges."@
}

/// A needed job that is not there.
pub fn needs_stranger(aggregate: &str, need: &str, workflow: &str) -> (r: String)
    ensures
        r@ == needs_stranger_text(aggregate@, need@, workflow@),
{
    let mut out = "`".to_owned();
    out.append(aggregate);
    out.append("` needs `");
    out.append(need);
    out.append("`, which is not a job in ");
    out.append(workflow);
    out.append(". GitHub refuses to run a workflow with an unresolvable `needs:`, so the one required check never reports and nothing merges.");
    out
}

/// An aggregate that needs no job.
pub open spec fn needs_nothing_text(aggregate: Seq<char>) -> Seq<char> {
    "`"@
        + aggregate
        + "` needs nothing, so it says every job succeeded while asking none of them"@
}

/// An aggregate that needs no job.
pub fn needs_nothing(aggregate: &str) -> (r: String)
    ensures
        r@ == needs_nothing_text(aggregate@),
{
    let mut out = "`".to_owned();
    out.append(aggregate);
    out.append("` needs nothing, so it says every job succeeded while asking none of them");
    out
}

/// An aggregate that does not run whatever happened.
pub open spec fn no_condition_text(aggregate: Seq<char>) -> Seq<char> {
    "`"@
        + aggregate
        + "` does not carry `if: always()`, so a cancelled or skipped job leaves it skipped too -- and a skipped required check never reports. A job that was skipped is not a job that passed, and an aggregate that only runs on success cannot say so."@
}

/// An aggregate that does not run whatever happened.
pub fn no_condition(aggregate: &str) -> (r: String)
    ensures
        r@ == no_condition_text(aggregate@),
{
    let mut out = "`".to_owned();
    out.append(aggregate);
    out.append("` does not carry `if: always()`, so a cancelled or skipped job leaves it skipped too -- and a skipped required check never reports. A job that was skipped is not a job that passed, and an aggregate that only runs on success cannot say so.");
    out
}

/// An aggregate whose condition can be false.
pub open spec fn other_condition_text(aggregate: Seq<char>, condition: Seq<char>) -> Seq<char> {
    "`"@
        + aggregate
        + "` carries `if: "@
        + condition
        + "` rather than `if: always()`. Any condition that can be false is a condition under which the one required check does not report, and a required check that does not report reads as permanently pending."@
}

/// An aggregate whose condition can be false.
pub fn other_condition(aggregate: &str, condition: &str) -> (r: String)
    ensures
        r@ == other_condition_text(aggregate@, condition@),
{
    let mut out = "`".to_owned();
    out.append(aggregate);
    out.append("` carries `if: ");
    out.append(condition);
    out.append("` rather than `if: always()`. Any condition that can be false is a condition under which the one required check does not report, and a required check that does not report reads as permanently pending.");
    out
}

/// A guard file that cannot be read.
pub open spec fn unreadable_guard_text(guard_file: Seq<char>, error: Seq<char>) -> Seq<char> {
    "cannot read "@
        + guard_file
        + ": "@
        + error
        + ". Without it the required list is whatever was last typed into the settings page, and nothing in the repository knows what it says."@
}

/// A guard file that cannot be read.
pub fn unreadable_guard(guard_file: &str, error: &str) -> (r: String)
    ensures
        r@ == unreadable_guard_text(guard_file@, error@),
{
    let mut out = "cannot read ".to_owned();
    out.append(guard_file);
    out.append(": ");
    out.append(error);
    out.append(". Without it the required list is whatever was last typed into the settings page, and nothing in the repository knows what it says.");
    out
}

/// A guard file that requires something else.
pub open spec fn wrong_requirements_text(guard_file: Seq<char>, required: Seq<char>, aggregate: Seq<char>) -> Seq<char> {
    guard_file
        + " requires "@
        + required
        + "; it should name `"@
        + aggregate
        + "` alone. A job named here as well drifts the moment it is renamed, and one named here but not produced by the"@
        + " gate workflow is a required check that never reports -- permanently pending, blocking every merge with nothing to point at."@
}

/// A guard file that requires something else.
pub fn wrong_requirements(guard_file: &str, required: &str, aggregate: &str) -> (r: String)
    ensures
        r@ == wrong_requirements_text(guard_file@, required@, aggregate@),
{
    let mut out = guard_file.to_owned();
    out.append(" requires ");
    out.append(required);
    out.append("; it should name `");
    out.append(aggregate);
    out.append("` alone. A job named here as well drifts the moment it is renamed, and one named here but not produced by the");
    out.append(" gate workflow is a required check that never reports -- permanently pending, blocking every merge with nothing to point at.");
    out
}

/// Every failure names what it is about: the workflow, the aggregate, the job, the condition, the
/// requirements or the error that it was found in, as they are.
pub proof fn failures_name_what_they_are_about(
    workflow: Seq<char>,
    aggregate: Seq<char>,
    job: Seq<char>,
    listed: Seq<char>,
)
    ensures
        mentions(unreadable_workflow_text(workflow, listed), workflow),
        mentions(unreadable_workflow_text(workflow, listed), listed),
        mentions(empty_workflow_text(workflow), workflow),
        mentions(invalid_workflow_text(workflow, listed), workflow),
        mentions(invalid_workflow_text(workflow, listed), listed),
        mentions(no_trigger_text(workflow), workflow),
        mentions(wrong_trigger_text(workflow, listed), workflow),
        mentions(wrong_trigger_text(workflow, listed), listed),
        mentions(no_aggregate_text(workflow, aggregate, listed), workflow),
        mentions(no_aggregate_text(workflow, aggregate, listed), aggregate),
        mentions(no_aggregate_text(workflow, aggregate, listed), listed),
        mentions(exempt_stranger_text(job, workflow), job),
        mentions(exempt_stranger_text(job, workflow), workflow),
        mentions(exempt_gating_text(job, workflow, aggregate), job),
        mentions(exempt_gating_text(job, workflow, aggregate), workflow),
        mentions(exempt_gating_text(job, workflow, aggregate), aggregate),
        mentions(not_needed_text(aggregate, job, listed), aggregate),
        mentions(not_needed_text(aggregate, job, listed), job),
        mentions(not_needed_text(aggregate, job, listed), listed),
        mentions(needed_exempt_text(aggregate, job, listed), aggregate),
        mentions(needed_exempt_text(aggregate, job, listed), job),
        mentions(needed_exempt_text(aggregate, job, listed), listed),
        mentions(undeclared_needed_text(aggregate, job, listed), aggregate),
        mentions(undeclared_needed_text(aggregate, job, listed), job),
        mentions(undeclared_needed_text(aggregate, job, listed), listed),
        mentions(undeclared_left_out_text(aggregate, job, listed), aggregate),
        mentions(undeclared_left_out_text(aggregate, job, listed), job),
        mentions(undeclared_left_out_text(aggregate, job, listed), listed),
        mentions(needs_stranger_text(aggregate, job, workflow), aggregate),
        mentions(needs_stranger_text(aggregate, job, workflow), job),
        mentions(needs_stranger_text(aggregate, job, workflow), workflow),
        mentions(needs_nothing_text(aggregate), aggregate),
        mentions(no_condition_text(aggregate), aggregate),
        mentions(other_condition_text(aggregate, listed), aggregate),
        mentions(other_condition_text(aggregate, listed), listed),
        mentions(unreadable_guard_text(workflow, listed), workflow),
        mentions(unreadable_guard_text(workflow, listed), listed),
        mentions(wrong_requirements_text(workflow, listed, aggregate), workflow),
        mentions(wrong_requirements_text(workflow, listed, aggregate), listed),
        mentions(wrong_requirements_text(workflow, listed, aggregate), aggregate),
{
    lemma_mentions();
}

} // verus!
