//! One check gates a pull request, and stands for every job.
//!
//! A repository's branch protection requires one check, the aggregate job of the workflow that
//! runs on pull requests. That gate holds if the job needs every job that gates, runs whatever
//! happened to them, and is the only check required. A job that carries a job-level `if:` or
//! `continue-on-error:` does not gate; it has to be declared so, and left out of `needs:`.
use crate::chars::{chars_of, part, same, text_of, texts, trim, trimmed};
use crate::gate_messages::{
    empty_workflow, empty_workflow_text, exempt_gating, exempt_gating_text, exempt_stranger,
    exempt_stranger_text, invalid_workflow, invalid_workflow_text, needed_exempt,
    needed_exempt_text, needs_nothing, needs_nothing_text, needs_stranger, needs_stranger_text,
    no_aggregate, no_aggregate_text, no_condition, no_condition_text, no_trigger,
    no_trigger_text, not_needed, not_needed_text, other_condition, other_condition_text,
    undeclared_left_out, undeclared_left_out_text, undeclared_needed, undeclared_needed_text,
    unreadable_guard, unreadable_guard_text, unreadable_workflow, unreadable_workflow_text,
    wrong_requirements, wrong_requirements_text, wrong_trigger, wrong_trigger_text,
};
use crate::guard_file::{required_checks, required_in};
use crate::yaml::{
    field_of, first_document, list_in, names_in, parse, scalar_of, scalar_text, string_list,
    trigger_names, yaml_documents, Node, Tree,
};
use vstd::prelude::*;
use vstd::string::*;

verus! {

/// Job-level keys by which a job declares that it does not gate.
pub const NON_GATING_KEYS: [&'static str; 2] = ["if", "continue-on-error"];

/// Everything one check of a gate can conclude.
#[derive(Debug, Clone, PartialEq, Eq)]
pub struct Failure {
    /// The check that failed.
    pub check: &'static str,
    /// What is wrong, and what it costs.
    pub detail: String,
}

/// A failure: the check, and what it says.
pub open spec fn failure_view(f: Failure) -> (Seq<char>, Seq<char>) {
    (f.check@, f.detail@)
}

/// The failures, in their order.
pub open spec fn failures_view(v: Seq<Failure>) -> Seq<(Seq<char>, Seq<char>)> {
    v.map_values(|f: Failure| failure_view(f))
}

impl Failure {
    /// The check, a colon, and what it says.
    pub fn message(&self) -> (r: String)
        ensures
            r@ == self.check@ + ": "@ + self.detail@,
    {
        let mut out = self.check.to_owned();
        out.append(": ");
        out.append(self.detail.as_str());
        out
    }
}

/// What `{:?}` writes for a list of strings.
pub uninterp spec fn debug_list(items: Seq<Seq<char>>) -> Seq<char>;

/// `{:?}` of a list of strings: the strings in quotes, with escapes where they need them,
/// between square brackets. That depends on the strings alone.
#[verifier::external_body]
fn debug_strings(items: &Vec<String>) -> (r: String)
    ensures
        r@ == debug_list(texts(items@)),
{
    format!("{:?}", items)
}

/// One job in the workflow, reduced to what a gate asks about.
pub struct JobView {
    pub id: Seq<char>,
    pub needs: Seq<Seq<char>>,
    pub condition: Option<Seq<char>>,
    /// Which of the two keys the job carries by which it declares that it does not gate.
    pub keys: Seq<Seq<char>>,
}

/// The keys of a job that declare that it does not gate.
pub open spec fn keys_in(body: Tree) -> Seq<Seq<char>> {
    (if field_of(body, "if"@) is Some {
        seq!["if"@]
    } else {
        Seq::empty()
    }) + (if field_of(body, "continue-on-error"@) is Some {
        seq!["continue-on-error"@]
    } else {
        Seq::empty()
    })
}

/// The first `n` of those keys that a job carries.
spec fn keys_among(body: Tree, n: nat) -> Seq<Seq<char>>
    decreases n,
{
    if n == 0 {
        Seq::empty()
    } else {
        let head = keys_among(body, (n - 1) as nat);
        let key = NON_GATING_KEYS@[n - 1]@;
        if field_of(body, key) is Some {
            head.push(key)
        } else {
            head
        }
    }
}

/// One job.
pub open spec fn job_in(id: Seq<char>, body: Tree) -> JobView {
    JobView {
        id,
        needs: match field_of(body, "needs"@) {
            Some(n) => list_in(n),
            None => Seq::empty(),
        },
        condition: match field_of(body, "if"@) {
            Some(n) => scalar_of(n),
            None => None,
        },
        keys: keys_in(body),
    }
}

/// The jobs in some rows whose key is a text.
pub open spec fn jobs_in(rows: Seq<(Tree, Tree)>) -> Seq<JobView>
    decreases rows.len(),
{
    if rows.len() == 0 {
        Seq::empty()
    } else {
        let head = jobs_in(rows.drop_last());
        match rows.last().0 {
            Tree::Text(id) => head.push(job_in(id, rows.last().1)),
            _ => head,
        }
    }
}

/// Every job in the workflow.
pub open spec fn jobs_of(doc: Tree) -> Seq<JobView> {
    match field_of(doc, "jobs"@) {
        Some(Tree::Table(rows)) => jobs_in(rows),
        _ => Seq::empty(),
    }
}

/// The first job with this id.
pub open spec fn job_named(jobs: Seq<JobView>, id: Seq<char>) -> Option<JobView>
    decreases jobs.len(),
{
    if jobs.len() == 0 {
        None
    } else if jobs[0].id == id {
        Some(jobs[0])
    } else {
        job_named(jobs.skip(1), id)
    }
}

/// The ids of the jobs, in their order.
pub open spec fn job_ids(jobs: Seq<JobView>) -> Seq<Seq<char>> {
    jobs.map_values(|j: JobView| j.id)
}

/// The rules of a gate, bound to one repository.
pub struct GateView {
    pub repo: Seq<char>,
    pub workflow: Seq<char>,
    pub aggregate: Seq<char>,
    pub guard_file: Seq<char>,
    pub non_gating: Seq<Seq<char>>,
}

/// Only a workflow that runs on pull requests can gate one.
pub open spec fn trigger_failures(g: GateView, doc: Tree) -> Seq<(Seq<char>, Seq<char>)> {
    let check = "the_gate_workflow_runs_on_pull_request"@;
    match field_of(doc, "on"@) {
        None => seq![(check, no_trigger_text(g.workflow))],
        Some(on) => if names_in(on).contains("pull_request"@) {
            Seq::empty()
        } else {
            seq![(check, wrong_trigger_text(g.workflow, debug_list(names_in(on))))]
        },
    }
}

/// The name of the check that the aggregate needs every job.
pub open spec fn needs_check() -> Seq<char> {
    "the_aggregate_job_needs_every_other_job"@
}

/// What is wrong with one declaration that a job does not gate.
pub open spec fn declaration_failure(
    g: GateView,
    jobs: Seq<JobView>,
    declared: Seq<char>,
) -> Seq<(Seq<char>, Seq<char>)> {
    match job_named(jobs, declared) {
        None => seq![(needs_check(), exempt_stranger_text(declared, g.workflow))],
        Some(job) => if job.keys.len() == 0 {
            seq![(needs_check(), exempt_gating_text(declared, g.workflow, g.aggregate))]
        } else {
            Seq::empty()
        },
    }
}

/// What is wrong with the declarations, in their order.
pub open spec fn declaration_failures(
    g: GateView,
    jobs: Seq<JobView>,
    declared: Seq<Seq<char>>,
) -> Seq<(Seq<char>, Seq<char>)>
    decreases declared.len(),
{
    if declared.len() == 0 {
        Seq::empty()
    } else {
        declaration_failures(g, jobs, declared.drop_last()) + declaration_failure(
            g,
            jobs,
            declared.last(),
        )
    }
}

/// What is wrong with one job, given what the aggregate needs. A job without either key gates,
/// and is needed; one with a key is declared, and not needed. A declared job without a key is
/// reported with its declaration.
pub open spec fn job_failure(g: GateView, needs: Seq<Seq<char>>, job: JobView) -> Seq<
    (Seq<char>, Seq<char>),
> {
    let declared = g.non_gating.contains(job.id);
    let needed = needs.contains(job.id);
    if job.id == g.aggregate {
        Seq::empty()
    } else if job.keys.len() == 0 {
        if declared || needed {
            Seq::empty()
        } else {
            seq![(needs_check(), not_needed_text(g.aggregate, job.id, debug_list(needs)))]
        }
    } else if declared {
        if needed {
            seq![(needs_check(), needed_exempt_text(g.aggregate, job.id, debug_list(job.keys)))]
        } else {
            Seq::empty()
        }
    } else if needed {
        seq![(needs_check(), undeclared_needed_text(g.aggregate, job.id, debug_list(job.keys)))]
    } else {
        seq![(needs_check(), undeclared_left_out_text(g.aggregate, job.id, debug_list(job.keys)))]
    }
}

/// What is wrong with the jobs, in their order.
pub open spec fn job_failures(g: GateView, needs: Seq<Seq<char>>, jobs: Seq<JobView>) -> Seq<
    (Seq<char>, Seq<char>),
>
    decreases jobs.len(),
{
    if jobs.len() == 0 {
        Seq::empty()
    } else {
        job_failures(g, needs, jobs.drop_last()) + job_failure(g, needs, jobs.last())
    }
}

/// What is wrong with one need: it names a job that is not there.
pub open spec fn need_failure(g: GateView, jobs: Seq<JobView>, need: Seq<char>) -> Seq<
    (Seq<char>, Seq<char>),
> {
    if job_ids(jobs).contains(need) {
        Seq::empty()
    } else {
        seq![(needs_check(), needs_stranger_text(g.aggregate, need, g.workflow))]
    }
}

/// What is wrong with the needs, in their order.
pub open spec fn need_failures(g: GateView, jobs: Seq<JobView>, needs: Seq<Seq<char>>) -> Seq<
    (Seq<char>, Seq<char>),
>
    decreases needs.len(),
{
    if needs.len() == 0 {
        Seq::empty()
    } else {
        need_failures(g, jobs, needs.drop_last()) + need_failure(g, jobs, needs.last())
    }
}

/// What is wrong with an aggregate that asks no job.
pub open spec fn empty_needs_failure(g: GateView, needs: Seq<Seq<char>>) -> Seq<
    (Seq<char>, Seq<char>),
> {
    if needs.len() == 0 {
        seq![(needs_check(), needs_nothing_text(g.aggregate))]
    } else {
        Seq::empty()
    }
}

/// Every job that gates is in the aggregate's `needs:`, and every job that does not, says so.
pub open spec fn needs_failures(g: GateView, jobs: Seq<JobView>) -> Seq<(Seq<char>, Seq<char>)> {
    match job_named(jobs, g.aggregate) {
        None => seq![
            (needs_check(), no_aggregate_text(g.workflow, g.aggregate, debug_list(job_ids(jobs)))),
        ],
        Some(aggregate) => declaration_failures(g, jobs, g.non_gating) + job_failures(
            g,
            aggregate.needs,
            jobs,
        ) + need_failures(g, jobs, aggregate.needs) + empty_needs_failure(g, aggregate.needs),
    }
}

/// A condition without the braces that an expression may stand in.
pub open spec fn bare_condition(condition: Seq<char>) -> Seq<char> {
    let n = condition.len();
    if n >= 5 && condition.take(3) == "${{"@ && condition.skip(n - 2) == "}}"@ {
        trimmed(condition.subrange(3, n - 2))
    } else {
        trimmed(condition)
    }
}

/// The aggregate has to run even when what it watches did not.
pub open spec fn condition_failures(g: GateView, jobs: Seq<JobView>) -> Seq<
    (Seq<char>, Seq<char>),
> {
    let check = "the_aggregate_runs_whatever_happened"@;
    match job_named(jobs, g.aggregate) {
        None => Seq::empty(),
        Some(job) => {
            let condition = match job.condition {
                Some(c) => trimmed(c),
                None => Seq::empty(),
            };
            if bare_condition(condition) == "always()"@ {
                Seq::empty()
            } else if condition.len() == 0 {
                seq![(check, no_condition_text(g.aggregate))]
            } else {
                seq![(check, other_condition_text(g.aggregate, condition))]
            }
        },
    }
}

/// The guard file requires the aggregate, and nothing else. `guard` is what it holds, or why it
/// cannot be read.
pub open spec fn protection_failures(g: GateView, guard: Result<Seq<char>, Seq<char>>) -> Seq<
    (Seq<char>, Seq<char>),
> {
    let check = "protection_requires_the_aggregate_and_nothing_else"@;
    match guard {
        Err(e) => seq![(check, unreadable_guard_text(g.guard_file, e))],
        Ok(text) => {
            let required = required_in(Seq::empty(), text);
            if required == seq![g.aggregate] {
                Seq::empty()
            } else {
                seq![
                    (
                        check,
                        wrong_requirements_text(g.guard_file, debug_list(required), g.aggregate),
                    ),
                ]
            }
        },
    }
}

/// Everything that is wrong with a workflow that could be read.
pub open spec fn document_failures(
    g: GateView,
    doc: Tree,
    guard: Result<Seq<char>, Seq<char>>,
) -> Seq<(Seq<char>, Seq<char>)> {
    trigger_failures(g, doc) + needs_failures(g, jobs_of(doc)) + condition_failures(
        g,
        jobs_of(doc),
    ) + protection_failures(g, guard)
}

/// Everything that is wrong, given the first document of the workflow or what is wrong with its
/// text. A workflow that cannot be read as a document is a failure of its own, and the only one
/// reported.
pub open spec fn parsed_failures(
    g: GateView,
    parsed: Result<Option<Tree>, Seq<char>>,
    guard: Result<Seq<char>, Seq<char>>,
) -> Seq<(Seq<char>, Seq<char>)> {
    let check = "the_gate_workflow_exists"@;
    match parsed {
        Err(e) => seq![(check, invalid_workflow_text(g.workflow, e))],
        Ok(None) => seq![(check, empty_workflow_text(g.workflow))],
        Ok(Some(doc)) => document_failures(g, doc, guard),
    }
}

/// Everything that is wrong, given what the two files hold or why they cannot be read.
pub open spec fn gate_failures(
    g: GateView,
    workflow: Result<Seq<char>, Seq<char>>,
    guard: Result<Seq<char>, Seq<char>>,
) -> Seq<(Seq<char>, Seq<char>)> {
    match workflow {
        Err(e) => seq![("the_gate_workflow_exists"@, unreadable_workflow_text(g.workflow, e))],
        Ok(text) => parsed_failures(g, first_document(yaml_documents(text)), guard),
    }
}

/// What a file holds, or why it cannot be read.
pub open spec fn file_view(file: Result<&str, &str>) -> Result<Seq<char>, Seq<char>> {
    match file {
        Ok(text) => Ok(text@),
        Err(e) => Err(e@),
    }
}

/// The first document of a text, or what is wrong with it.
pub open spec fn parsed_view(parsed: Result<Option<Node>, String>) -> Result<
    Option<Tree>,
    Seq<char>,
> {
    match parsed {
        Ok(Some(node)) => Ok(Some(node.tree())),
        Ok(None) => Ok(None),
        Err(e) => Err(e@),
    }
}

/// The failures, one to a line.
pub open spec fn listed_text(failures: Seq<(Seq<char>, Seq<char>)>) -> Seq<char>
    decreases failures.len(),
{
    if failures.len() == 0 {
        Seq::empty()
    } else {
        listed_text(failures.drop_last()) + (if failures.len() > 1 {
            "\n"@
        } else {
            Seq::empty()
        }) + "  - "@ + (failures.last().0 + ": "@ + failures.last().1)
    }
}

/// What is said of a gate that does not hold.
pub open spec fn report_text(g: GateView, failures: Seq<(Seq<char>, Seq<char>)>) -> Seq<char> {
    "the CI gate is not holding in "@ + g.repo + ":\n\n"@ + listed_text(failures)
        + "\n\nEach of these is a way for a job to stop gating a merge with nothing failing. See the am-ci-guard crate docs for what each one costs."@
}

/// One job in the workflow.
struct Job {
    id: String,
    needs: Vec<String>,
    condition: Option<String>,
    keys: Vec<String>,
}

impl Job {
    spec fn view(self) -> JobView {
        JobView {
            id: self.id@,
            needs: texts(self.needs@),
            condition: match self.condition {
                Some(c) => Some(c@),
                None => None,
            },
            keys: texts(self.keys@),
        }
    }
}

spec fn jobs_view(jobs: Seq<Job>) -> Seq<JobView> {
    jobs.map_values(|j: Job| j.view())
}

/// The rules of a gate, bound to one repository.
#[derive(Debug, Clone)]
pub struct AggregateGate {
    repo: String,
    workflow: String,
    aggregate: String,
    guard_file: String,
    non_gating: Vec<String>,
}

impl View for AggregateGate {
    type V = GateView;

    closed spec fn view(&self) -> GateView {
        GateView {
            repo: self.repo@,
            workflow: self.workflow@,
            aggregate: self.aggregate@,
            guard_file: self.guard_file@,
            non_gating: texts(self.non_gating@),
        }
    }
}

/// Whether `name` is among `names`.
fn contains(names: &Vec<String>, name: &str) -> (r: bool)
    ensures
        r == texts(names@).contains(name@),
{
    let mut i: usize = 0;
    while i < names.len()
        invariant
            0 <= i <= names@.len(),
            forall|j: int| 0 <= j < i ==> (#[trigger] names@[j])@ != name@,
        decreases names@.len() - i,
    {
        let chars = chars_of(names[i].as_str());
        if same(chars.as_slice(), name) {
            assert(texts(names@)[i as int] == name@);
            return true;
        }
        i = i + 1;
    }
    assert(!texts(names@).contains(name@)) by {
        if texts(names@).contains(name@) {
            let j = choose|j: int| 0 <= j < names@.len() && texts(names@)[j] == name@;
            assert(names@[j]@ != name@);
        }
    }
    false
}

/// A copy of some texts.
fn copies(names: &Vec<String>) -> (r: Vec<String>)
    ensures
        texts(r@) == texts(names@),
{
    let mut out: Vec<String> = Vec::new();
    let mut i: usize = 0;
    while i < names.len()
        invariant
            0 <= i <= names@.len(),
            texts(out@) == texts(names@).take(i as int),
        decreases names@.len() - i,
    {
        let ghost before = texts(out@);
        out.push(names[i].clone());
        assert(texts(out@) =~= before.push(names@[i as int]@));
        i = i + 1;
        assert(texts(out@) =~= texts(names@).take(i as int));
    }
    assert(texts(out@) =~= texts(names@));
    out
}

proof fn lemma_job_named_found(jobs: Seq<JobView>, id: Seq<char>, at: int)
    requires
        0 <= at < jobs.len(),
        forall|i: int| 0 <= i < at ==> (#[trigger] jobs[i]).id != id,
        jobs[at].id == id,
    ensures
        job_named(jobs, id) == Some(jobs[at]),
    decreases jobs.len(),
{
    if at > 0 {
        assert(jobs[0].id != id);
        assert forall|i: int| 0 <= i < at - 1 implies (#[trigger] jobs.skip(1)[i]).id != id by {
            assert(jobs.skip(1)[i] == jobs[i + 1]);
        }
        lemma_job_named_found(jobs.skip(1), id, at - 1);
    }
}

proof fn lemma_job_named_absent(jobs: Seq<JobView>, id: Seq<char>)
    requires
        forall|i: int| 0 <= i < jobs.len() ==> (#[trigger] jobs[i]).id != id,
    ensures
        job_named(jobs, id) is None,
        !job_ids(jobs).contains(id),
    decreases jobs.len(),
{
    if job_ids(jobs).contains(id) {
        let j = choose|j: int| 0 <= j < jobs.len() && job_ids(jobs)[j] == id;
        assert(jobs[j].id != id);
    }
    if jobs.len() > 0 {
        assert(jobs[0].id != id);
        assert forall|i: int| 0 <= i < jobs.skip(1).len() implies (#[trigger] jobs.skip(1)[i]).id
            != id by {
            assert(jobs.skip(1)[i] == jobs[i + 1]);
        }
        lemma_job_named_absent(jobs.skip(1), id);
    }
}

/// Where the first job with this id stands, or the number of jobs.
fn find_job(jobs: &Vec<Job>, id: &str) -> (r: usize)
    ensures
        r <= jobs@.len(),
        r < jobs@.len() ==> job_named(jobs_view(jobs@), id@) == Some(jobs@[r as int].view())
            && job_ids(jobs_view(jobs@)).contains(id@),
        r == jobs@.len() ==> job_named(jobs_view(jobs@), id@) is None && !job_ids(
            jobs_view(jobs@),
        ).contains(id@),
{
    let ghost views = jobs_view(jobs@);
    let mut i: usize = 0;
    while i < jobs.len()
        invariant
            0 <= i <= jobs@.len(),
            views == jobs_view(jobs@),
            forall|j: int| 0 <= j < i ==> (#[trigger] views[j]).id != id@,
        decreases jobs@.len() - i,
    {
        let chars = chars_of(jobs[i].id.as_str());
        assert(views[i as int].id == jobs@[i as int].id@);
        if same(chars.as_slice(), id) {
            proof {
                lemma_job_named_found(views, id@, i as int);
                assert(job_ids(views)[i as int] == id@);
            }
            return i;
        }
        i = i + 1;
    }
    proof {
        lemma_job_named_absent(views, id@);
    }
    i
}

/// One job.
fn read_job(id: &str, body: &Node) -> (r: Job)
    ensures
        r.view() == job_in(id@, body.tree()),
{
    let needs: Vec<String> = match body.field("needs") {
        Some(n) => string_list(n),
        None => Vec::new(),
    };
    let condition: Option<String> = match body.field("if") {
        Some(n) => scalar_text(n),
        None => None,
    };
    let mut keys: Vec<String> = Vec::new();
    let mut k: usize = 0;
    while k < NON_GATING_KEYS.len()
        invariant
            0 <= k <= 2,
            texts(keys@) == keys_among(body.tree(), k as nat),
        decreases 2 - k,
    {
        let key = NON_GATING_KEYS[k];
        let ghost before = texts(keys@);
        if body.field(key).is_some() {
            keys.push(key.to_owned());
            assert(texts(keys@) =~= before.push(key@));
        }
        k = k + 1;
    }
    let job = Job { id: id.to_owned(), needs, condition, keys };
    assert(job.view().needs =~= job_in(id@, body.tree()).needs);
    proof {
        reveal_with_fuel(keys_among, 3);
        assert(NON_GATING_KEYS@[0]@ == "if"@);
        assert(NON_GATING_KEYS@[1]@ == "continue-on-error"@);
        assert(job.view().keys =~= keys_in(body.tree()));
    }
    job
}

/// Every job in the workflow.
fn jobs(doc: &Node) -> (r: Vec<Job>)
    ensures
        jobs_view(r@) == jobs_of(doc.tree()),
{
    let mut out: Vec<Job> = Vec::new();
    assert(jobs_view(out@) =~= Seq::<JobView>::empty());
    let found = match doc.field("jobs") {
        Some(found) => found,
        None => {
            return out;
        },
    };
    match found {
        Node::Table(rows) => {
            let ghost trees = found.tree()->Table_0;
            let mut i: usize = 0;
            assert(jobs_view(out@) =~= jobs_in(trees.take(0)));
            while i < rows.len()
                invariant
                    0 <= i <= rows@.len(),
                    trees.len() == rows@.len(),
                    forall|j: int|
                        0 <= j < rows@.len() ==> #[trigger] trees[j] == (
                            rows@[j].0.tree(),
                            rows@[j].1.tree(),
                        ),
                    jobs_view(out@) == jobs_in(trees.take(i as int)),
                decreases rows@.len() - i,
            {
                let ghost before = jobs_view(out@);
                proof {
                    assert(trees.take(i + 1).drop_last() =~= trees.take(i as int));
                    assert(trees.take(i + 1).last() == trees[i as int]);
                }
                match &rows[i].0 {
                    Node::Text(id) => {
                        let job = read_job(id.as_str(), &rows[i].1);
                        out.push(job);
                        assert(jobs_view(out@) =~= before.push(job.view()));
                    },
                    _ => {},
                }
                i = i + 1;
            }
            assert(trees.take(i as int) =~= trees);
            out
        },
        _ => out,
    }
}

/// The ids of the jobs.
fn ids(jobs: &Vec<Job>) -> (r: Vec<String>)
    ensures
        texts(r@) == job_ids(jobs_view(jobs@)),
{
    let ghost want = job_ids(jobs_view(jobs@));
    let mut out: Vec<String> = Vec::new();
    let mut i: usize = 0;
    while i < jobs.len()
        invariant
            0 <= i <= jobs@.len(),
            want == job_ids(jobs_view(jobs@)),
            texts(out@) == want.take(i as int),
        decreases jobs@.len() - i,
    {
        let ghost before = texts(out@);
        out.push(jobs[i].id.clone());
        assert(texts(out@) =~= before.push(want[i as int]));
        i = i + 1;
        assert(texts(out@) =~= want.take(i as int));
    }
    assert(texts(out@) =~= want);
    out
}

/// Adds one failure.
fn report(out: &mut Vec<Failure>, check: &'static str, detail: String)
    ensures
        failures_view(final(out)@) == failures_view(old(out)@) + seq![(check@, detail@)],
{
    let ghost before = failures_view(out@);
    let ghost said = (check@, detail@);
    out.push(Failure { check, detail });
    assert(failures_view(out@) =~= before + seq![said]);
}

impl AggregateGate {
    /// A gate for the repository rooted at `repo`.
    pub fn new(repo: &str) -> (r: Self)
        ensures
            r@ == (GateView {
                repo: repo@,
                workflow: ".github/workflows/ci.yml"@,
                aggregate: "ci-ok"@,
                guard_file: ".github-guard"@,
                non_gating: Seq::empty(),
            }),
    {
        let r = AggregateGate {
            repo: repo.to_owned(),
            workflow: ".github/workflows/ci.yml".to_owned(),
            aggregate: "ci-ok".to_owned(),
            guard_file: ".github-guard".to_owned(),
            non_gating: Vec::new(),
        };
        assert(r@.non_gating =~= Seq::<Seq<char>>::empty());
        r
    }

    /// The workflow that gates, if it is not `.github/workflows/ci.yml`.
    pub fn workflow(self, path: &str) -> (r: Self)
        ensures
            r@ == (GateView { workflow: path@, ..self@ }),
    {
        AggregateGate { workflow: path.to_owned(), ..self }
    }

    /// The aggregate job's id, if it is not `ci-ok`.
    pub fn aggregate(self, job: &str) -> (r: Self)
        ensures
            r@ == (GateView { aggregate: job@, ..self@ }),
    {
        AggregateGate { aggregate: job.to_owned(), ..self }
    }

    /// Jobs that deliberately do not gate, and so are left out of the aggregate's `needs:`.
    pub fn non_gating(self, jobs: &[&str]) -> (r: Self)
        ensures
            r@ == (GateView {
                non_gating: jobs@.map_values(|j: &str| j@),
                ..self@
            }),
    {
        let mut names: Vec<String> = Vec::new();
        let mut i: usize = 0;
        let ghost want = jobs@.map_values(|j: &str| j@);
        while i < jobs.len()
            invariant
                0 <= i <= jobs@.len(),
                want == jobs@.map_values(|j: &str| j@),
                texts(names@) == want.take(i as int),
            decreases jobs@.len() - i,
        {
            let ghost before = texts(names@);
            names.push(jobs[i].to_owned());
            assert(texts(names@) =~= before.push(want[i as int]));
            i = i + 1;
            assert(texts(names@) =~= want.take(i as int));
        }
        assert(texts(names@) =~= want);
        AggregateGate { non_gating: names, ..self }
    }

    /// Where the workflow stands, below the repository's root.
    pub fn workflow_path(&self) -> (r: &str)
        ensures
            r@ == self@.workflow,
    {
        self.workflow.as_str()
    }

    /// Where the guard file stands, below the repository's root.
    pub fn guard_path(&self) -> (r: &str)
        ensures
            r@ == self@.guard_file,
    {
        self.guard_file.as_str()
    }

    /// The repository's root.
    pub fn repo(&self) -> (r: &str)
        ensures
            r@ == self@.repo,
    {
        self.repo.as_str()
    }

    /// Only a `pull_request` workflow can gate a pull request.
    fn gate_workflow_runs_on_pull_request(&self, doc: &Node, out: &mut Vec<Failure>)
        ensures
            failures_view(final(out)@) == failures_view(old(out)@) + trigger_failures(
                self@,
                doc.tree(),
            ),
    {
        let on = match doc.field("on") {
            Some(on) => on,
            None => {
                report(
                    out,
                    "the_gate_workflow_runs_on_pull_request",
                    no_trigger(self.workflow.as_str()),
                );
                return ;
            },
        };
        let names = trigger_names(on);
        if contains(&names, "pull_request") {
            assert(failures_view(out@) =~= failures_view(out@) + Seq::empty());
            return ;
        }
        let listed = debug_strings(&names);
        report(
            out,
            "the_gate_workflow_runs_on_pull_request",
            wrong_trigger(self.workflow.as_str(), listed.as_str()),
        );
    }

    /// Whether one declaration that a job does not gate is right.
    fn check_declaration(&self, jobs: &Vec<Job>, declared: &str, out: &mut Vec<Failure>)
        ensures
            failures_view(final(out)@) == failures_view(old(out)@) + declaration_failure(
                self@,
                jobs_view(jobs@),
                declared@,
            ),
    {
        let at: usize = find_job(jobs, declared);
        if at == jobs.len() {
            report(
                out,
                "the_aggregate_job_needs_every_other_job",
                exempt_stranger(declared, self.workflow.as_str()),
            );
        } else if jobs[at].keys.len() == 0 {
            report(
                out,
                "the_aggregate_job_needs_every_other_job",
                exempt_gating(declared, self.workflow.as_str(), self.aggregate.as_str()),
            );
        } else {
            assert(failures_view(out@) =~= failures_view(out@) + Seq::empty());
        }
    }

    /// Whether one job is where it belongs.
    fn check_job(&self, needs: &Vec<String>, job: &Job, out: &mut Vec<Failure>)
        ensures
            failures_view(final(out)@) == failures_view(old(out)@) + job_failure(
                self@,
                texts(needs@),
                job.view(),
            ),
    {
        let aggregate = self.aggregate.as_str();
        let id = job.id.as_str();
        let id_chars = chars_of(id);
        if same(id_chars.as_slice(), aggregate) {
            assert(failures_view(out@) =~= failures_view(out@) + Seq::empty());
            return ;
        }
        let declared = contains(&self.non_gating, id);
        let needed = contains(needs, id);
        match (job.keys.len() == 0, declared, needed) {
            (true, false, false) => {
                let listed = debug_strings(needs);
                report(
                    out,
                    "the_aggregate_job_needs_every_other_job",
                    not_needed(aggregate, id, listed.as_str()),
                );
            },
            (false, true, true) => {
                let listed = debug_strings(&job.keys);
                report(
                    out,
                    "the_aggregate_job_needs_every_other_job",
                    needed_exempt(aggregate, id, listed.as_str()),
                );
            },
            (false, false, true) => {
                let listed = debug_strings(&job.keys);
                report(
                    out,
                    "the_aggregate_job_needs_every_other_job",
                    undeclared_needed(aggregate, id, listed.as_str()),
                );
            },
            (false, false, false) => {
                let listed = debug_strings(&job.keys);
                report(
                    out,
                    "the_aggregate_job_needs_every_other_job",
                    undeclared_left_out(aggregate, id, listed.as_str()),
                );
            },
            _ => {
                assert(failures_view(out@) =~= failures_view(out@) + Seq::empty());
            },
        }
    }

    /// Every job that gates is in the aggregate's `needs:`, and every job that does not, says
    /// so.
    fn aggregate_needs_every_gating_job(&self, doc: &Node, out: &mut Vec<Failure>)
        ensures
            failures_view(final(out)@) == failures_view(old(out)@) + needs_failures(
                self@,
                jobs_of(doc.tree()),
            ),
    {
        let jobs = jobs(doc);
        let ghost views = jobs_view(jobs@);
        let ghost before = failures_view(out@);
        let aggregate = self.aggregate.as_str();
        let at: usize = find_job(&jobs, aggregate);
        if at == jobs.len() {
            let names = ids(&jobs);
            let listed = debug_strings(&names);
            report(
                out,
                "the_aggregate_job_needs_every_other_job",
                no_aggregate(self.workflow.as_str(), aggregate, listed.as_str()),
            );
            return ;
        }
        let needs = copies(&jobs[at].needs);
        let ghost wanted = texts(needs@);

        let mut i: usize = 0;
        let ghost declared = self@.non_gating;
        assert(failures_view(out@) =~= before + declaration_failures(
            self@,
            views,
            declared.take(0),
        ));
        while i < self.non_gating.len()
            invariant
                0 <= i <= self.non_gating@.len(),
                declared == self@.non_gating,
                views == jobs_view(jobs@),
                failures_view(out@) == before + declaration_failures(
                    self@,
                    views,
                    declared.take(i as int),
                ),
            decreases self.non_gating@.len() - i,
        {
            self.check_declaration(&jobs, self.non_gating[i].as_str(), out);
            proof {
                assert(declared.take(i + 1).drop_last() =~= declared.take(i as int));
                assert(declared.take(i + 1).last() == self.non_gating@[i as int]@);
                assert(failures_view(out@) =~= before + declaration_failures(
                    self@,
                    views,
                    declared.take(i + 1),
                ));
            }
            i = i + 1;
        }
        assert(declared.take(i as int) =~= declared);
        let ghost first = before + declaration_failures(self@, views, declared);

        let mut k: usize = 0;
        assert(failures_view(out@) =~= first + job_failures(self@, wanted, views.take(0)));
        while k < jobs.len()
            invariant
                0 <= k <= jobs@.len(),
                views == jobs_view(jobs@),
                wanted == texts(needs@),
                failures_view(out@) == first + job_failures(self@, wanted, views.take(k as int)),
            decreases jobs@.len() - k,
        {
            self.check_job(&needs, &jobs[k], out);
            proof {
                assert(views.take(k + 1).drop_last() =~= views.take(k as int));
                assert(views.take(k + 1).last() == jobs@[k as int].view());
                assert(failures_view(out@) =~= first + job_failures(
                    self@,
                    wanted,
                    views.take(k + 1),
                ));
            }
            k = k + 1;
        }
        assert(views.take(k as int) =~= views);
        let ghost second = first + job_failures(self@, wanted, views);

        let mut n: usize = 0;
        assert(failures_view(out@) =~= second + need_failures(self@, views, wanted.take(0)));
        while n < needs.len()
            invariant
                0 <= n <= needs@.len(),
                views == jobs_view(jobs@),
                wanted == texts(needs@),
                aggregate@ == self@.aggregate,
                failures_view(out@) == second + need_failures(
                    self@,
                    views,
                    wanted.take(n as int),
                ),
            decreases needs@.len() - n,
        {
            let ghost so_far = failures_view(out@);
            if find_job(&jobs, needs[n].as_str()) == jobs.len() {
                report(
                    out,
                    "the_aggregate_job_needs_every_other_job",
                    needs_stranger(aggregate, needs[n].as_str(), self.workflow.as_str()),
                );
            }
            proof {
                assert(wanted.take(n + 1).drop_last() =~= wanted.take(n as int));
                assert(wanted.take(n + 1).last() == needs@[n as int]@);
                assert(failures_view(out@) =~= so_far + need_failure(
                    self@,
                    views,
                    needs@[n as int]@,
                ));
                assert(failures_view(out@) =~= second + need_failures(
                    self@,
                    views,
                    wanted.take(n + 1),
                ));
            }
            n = n + 1;
        }
        assert(wanted.take(n as int) =~= wanted);
        let ghost third = second + need_failures(self@, views, wanted);
        if needs.len() == 0 {
            report(
                out,
                "the_aggregate_job_needs_every_other_job",
                needs_nothing(aggregate),
            );
        }
        proof {
            assert(failures_view(out@) =~= third + empty_needs_failure(self@, wanted));
            assert(failures_view(out@) =~= before + needs_failures(self@, views));
        }
    }

    /// The aggregate has to run even when what it watches did not.
    fn aggregate_runs_whatever_happened(&self, doc: &Node, out: &mut Vec<Failure>)
        ensures
            failures_view(final(out)@) == failures_view(old(out)@) + condition_failures(
                self@,
                jobs_of(doc.tree()),
            ),
    {
        let jobs = jobs(doc);
        let aggregate = self.aggregate.as_str();
        let at: usize = find_job(&jobs, aggregate);
        if at == jobs.len() {
            assert(failures_view(out@) =~= failures_view(out@) + Seq::empty());
            return ;
        }
        let condition: Vec<char> = match &jobs[at].condition {
            Some(c) => {
                let chars = chars_of(c.as_str());
                trim(chars.as_slice())
            },
            None => Vec::new(),
        };
        let ghost job = jobs@[at as int].view();
        assert(condition@ =~= match job.condition {
            Some(c) => trimmed(c),
            None => Seq::<char>::empty(),
        });
        let n: usize = condition.len();
        let mut bare: Vec<char> = trim(condition.as_slice());
        if n >= 5 {
            let head = part(condition.as_slice(), 0, 3);
            let tail = part(condition.as_slice(), n - 2, n);
            assert(head@ =~= condition@.take(3));
            assert(tail@ =~= condition@.skip(n - 2));
            if same(head.as_slice(), "${{") && same(tail.as_slice(), "}}") {
                let inside = part(condition.as_slice(), 3, n - 2);
                bare = trim(inside.as_slice());
            }
        }
        assert(bare@ == bare_condition(condition@));
        if same(bare.as_slice(), "always()") {
            assert(failures_view(out@) =~= failures_view(out@) + Seq::empty());
            return ;
        }
        if n == 0 {
            report(out, "the_aggregate_runs_whatever_happened", no_condition(aggregate));
        } else {
            let text = text_of(condition.as_slice());
            report(
                out,
                "the_aggregate_runs_whatever_happened",
                other_condition(aggregate, text.as_str()),
            );
        }
    }

    /// The guard file requires the aggregate, and nothing else.
    fn protection_requires_the_aggregate_and_nothing_else(
        &self,
        guard: Result<&str, &str>,
        out: &mut Vec<Failure>,
    )
        ensures
            failures_view(final(out)@) == failures_view(old(out)@) + protection_failures(
                self@,
                file_view(guard),
            ),
    {
        let text = match guard {
            Ok(text) => text,
            Err(e) => {
                report(
                    out,
                    "protection_requires_the_aggregate_and_nothing_else",
                    unreadable_guard(self.guard_file.as_str(), e),
                );
                return ;
            },
        };
        let required = required_checks(text);
        let aggregate = self.aggregate.as_str();
        if required.len() == 1 {
            let only = chars_of(required[0].as_str());
            if same(only.as_slice(), aggregate) {
                assert(texts(required@) =~= seq![self@.aggregate]);
                assert(failures_view(out@) =~= failures_view(out@) + Seq::empty());
                return ;
            }
            assert(texts(required@)[0] != self@.aggregate);
        }
        assert(texts(required@) != seq![self@.aggregate]) by {
            if texts(required@) == seq![self@.aggregate] {
                assert(texts(required@).len() == 1);
                assert(texts(required@)[0] == self@.aggregate);
            }
        }
        let listed = debug_strings(&required);
        report(
            out,
            "protection_requires_the_aggregate_and_nothing_else",
            wrong_requirements(self.guard_file.as_str(), listed.as_str(), aggregate),
        );
    }

    /// Run every check on a workflow that could be read.
    pub fn check_document(&self, doc: &Node, guard: Result<&str, &str>) -> (r: Vec<Failure>)
        ensures
            failures_view(r@) == document_failures(self@, doc.tree(), file_view(guard)),
    {
        let mut out: Vec<Failure> = Vec::new();
        assert(failures_view(out@) =~= Seq::empty());
        self.gate_workflow_runs_on_pull_request(doc, &mut out);
        self.aggregate_needs_every_gating_job(doc, &mut out);
        self.aggregate_runs_whatever_happened(doc, &mut out);
        self.protection_requires_the_aggregate_and_nothing_else(guard, &mut out);
        assert(failures_view(out@) =~= document_failures(self@, doc.tree(), file_view(guard)));
        out
    }

    /// Run every check, given the first document of the workflow, `None` where there is none, or
    /// what is wrong with its text.
    pub fn check_parsed(
        &self,
        parsed: Result<Option<Node>, String>,
        guard: Result<&str, &str>,
    ) -> (r: Vec<Failure>)
        ensures
            failures_view(r@) == parsed_failures(self@, parsed_view(parsed), file_view(guard)),
    {
        let mut out: Vec<Failure> = Vec::new();
        let ghost none = failures_view(out@);
        match parsed {
            Ok(Some(doc)) => {
                return self.check_document(&doc, guard);
            },
            Ok(None) => {
                report(&mut out, "the_gate_workflow_exists", empty_workflow(self.workflow.as_str()));
            },
            Err(e) => {
                report(
                    &mut out,
                    "the_gate_workflow_exists",
                    invalid_workflow(self.workflow.as_str(), e.as_str()),
                );
            },
        }
        assert(failures_view(out@) =~= parsed_failures(
            self@,
            parsed_view(parsed),
            file_view(guard),
        )) by {
            assert(none =~= Seq::empty());
        }
        out
    }

    /// Run every check and return what failed. `workflow` and `guard` are what the two files
    /// hold, or why they cannot be read.
    pub fn check(&self, workflow: Result<&str, &str>, guard: Result<&str, &str>) -> (r: Vec<
        Failure,
    >)
        ensures
            failures_view(r@) == gate_failures(self@, file_view(workflow), file_view(guard)),
    {
        match workflow {
            Ok(text) => {
                let parsed = parse(text);
                self.check_parsed(parsed, guard)
            },
            Err(e) => {
                let mut out: Vec<Failure> = Vec::new();
                assert(failures_view(out@) =~= Seq::empty());
                report(
                    &mut out,
                    "the_gate_workflow_exists",
                    unreadable_workflow(self.workflow.as_str(), e),
                );
                assert(failures_view(out@) =~= gate_failures(
                    self@,
                    file_view(workflow),
                    file_view(guard),
                ));
                out
            },
        }
    }

    /// Run every check. The error names all of the failures: a repository being brought onto the
    /// gate wants the whole list in one run.
    pub fn verify(&self, workflow: Result<&str, &str>, guard: Result<&str, &str>) -> (r: Result<
        (),
        String,
    >)
        ensures
            gate_failures(self@, file_view(workflow), file_view(guard)).len() == 0 <==> r is Ok,
            r matches Err(report) ==> report@ == report_text(
                self@,
                gate_failures(self@, file_view(workflow), file_view(guard)),
            ),
    {
        let failures = self.check(workflow, guard);
        let ghost views = failures_view(failures@);
        if failures.len() == 0 {
            return Ok(());
        }
        let mut out = "the CI gate is not holding in ".to_owned();
        out.append(self.repo.as_str());
        out.append(":\n\n");
        let ghost head = out@;
        let mut i: usize = 0;
        assert(out@ =~= head + listed_text(views.take(0)));
        while i < failures.len()
            invariant
                0 <= i <= failures@.len(),
                views == failures_view(failures@),
                out@ == head + listed_text(views.take(i as int)),
            decreases failures@.len() - i,
        {
            proof {
                assert(views.take(i + 1).drop_last() =~= views.take(i as int));
                assert(views.take(i + 1).last() == failure_view(failures@[i as int]));
            }
            if i > 0 {
                out.append("\n");
            }
            out.append("  - ");
            let line = failures[i].message();
            out.append(line.as_str());
            assert(out@ =~= head + listed_text(views.take(i + 1)));
            i = i + 1;
        }
        assert(views.take(i as int) =~= views);
        out.append(
            "\n\nEach of these is a way for a job to stop gating a merge with nothing failing. See the am-ci-guard crate docs for what each one costs.",
        );
        Err(out)
    }
}

} // verus!
