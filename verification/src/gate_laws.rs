//! What it means that a gate holds.
use crate::aggregate_gate::{
    bare_condition, condition_failures, declaration_failure, declaration_failures, document_failures, gate_failures,
    job_failure, job_failures, job_ids, job_named, jobs_of, need_failure, need_failures,
    GateView, JobView,
};
use crate::chars::{
    blank_between, first_at, is_white_space, lemma_first_at, lemma_first_at_is, trimmed,
    trimming_finds_what_stands_in_white_space, trimming_takes_off_white_space_alone,
};
use crate::guard_file::{line_view, lowercase_text, required_in, LineView};
use crate::yaml::{field_of, first_document, names_in, yaml_documents, Tree};
use vstd::prelude::*;

verus! {

/// Every declared job is there, and carries a key that says that it does not gate.
pub open spec fn declarations_hold(jobs: Seq<JobView>, declared: Seq<Seq<char>>) -> bool {
    forall|i: int|
        0 <= i < declared.len() ==> job_named(jobs, #[trigger] declared[i]) is Some && job_named(
            jobs,
            declared[i],
        )->0.keys.len() > 0
}

/// A job other than the aggregate gates and is needed, or is declared not to gate and is left
/// out.
pub open spec fn job_is_placed(g: GateView, needs: Seq<Seq<char>>, job: JobView) -> bool {
    ||| job.id == g.aggregate
    ||| job.keys.len() == 0 && (needs.contains(job.id) || g.non_gating.contains(job.id))
    ||| job.keys.len() > 0 && g.non_gating.contains(job.id) && !needs.contains(job.id)
}

/// The condition of a job, without braces and white space around it.
pub open spec fn runs_always(job: JobView) -> bool {
    job.condition matches Some(c) && bare_condition(trimmed(c)) == "always()"@
}

/// A gate holds: its workflow runs on pull requests; the aggregate is there, needs some jobs,
/// all of which are there, and runs whatever happened to them; every other job is placed, every
/// declaration is right; and the aggregate is the one check required.
pub open spec fn gate_holds(g: GateView, doc: Tree, guard: Seq<char>) -> bool {
    let jobs = jobs_of(doc);
    &&& field_of(doc, "on"@) matches Some(on) && names_in(on).contains("pull_request"@)
    &&& job_named(jobs, g.aggregate) matches Some(aggregate) && {
        &&& aggregate.needs.len() > 0
        &&& forall|i: int|
            0 <= i < aggregate.needs.len() ==> job_ids(jobs).contains(
                #[trigger] aggregate.needs[i],
            )
        &&& forall|i: int|
            0 <= i < jobs.len() ==> job_is_placed(g, aggregate.needs, #[trigger] jobs[i])
        &&& runs_always(aggregate)
    }
    &&& declarations_hold(jobs, g.non_gating)
    &&& required_in(Seq::empty(), guard) == seq![g.aggregate]
}

proof fn lemma_declarations(g: GateView, jobs: Seq<JobView>, declared: Seq<Seq<char>>)
    ensures
        declaration_failures(g, jobs, declared).len() == 0 <==> declarations_hold(jobs, declared),
    decreases declared.len(),
{
    if declared.len() > 0 {
        let head = declared.drop_last();
        lemma_declarations(g, jobs, head);
        let last = declared.last();
        assert(declared[declared.len() - 1] == last);
        assert(declaration_failures(g, jobs, declared).len() == declaration_failures(
            g,
            jobs,
            head,
        ).len() + declaration_failure(g, jobs, last).len());
        if declarations_hold(jobs, declared) {
            assert forall|i: int| 0 <= i < head.len() implies job_named(
                jobs,
                #[trigger] head[i],
            ) is Some && job_named(jobs, head[i])->0.keys.len() > 0 by {
                assert(declared[i] == head[i]);
            }
        }
        if declarations_hold(jobs, head) && declaration_failure(g, jobs, last).len() == 0 {
            assert forall|i: int| 0 <= i < declared.len() implies job_named(
                jobs,
                #[trigger] declared[i],
            ) is Some && job_named(jobs, declared[i])->0.keys.len() > 0 by {
                if i < head.len() {
                    assert(head[i] == declared[i]);
                }
            }
        }
    }
}

proof fn lemma_jobs(g: GateView, needs: Seq<Seq<char>>, jobs: Seq<JobView>)
    ensures
        job_failures(g, needs, jobs).len() == 0 <==> forall|i: int|
            0 <= i < jobs.len() ==> job_is_placed(g, needs, #[trigger] jobs[i]),
    decreases jobs.len(),
{
    if jobs.len() > 0 {
        let head = jobs.drop_last();
        lemma_jobs(g, needs, head);
        let last = jobs.last();
        assert(jobs[jobs.len() - 1] == last);
        assert(job_failures(g, needs, jobs).len() == job_failures(g, needs, head).len()
            + job_failure(g, needs, last).len());
        assert(job_failure(g, needs, last).len() == 0 <==> job_is_placed(g, needs, last));
        if forall|i: int| 0 <= i < jobs.len() ==> job_is_placed(g, needs, #[trigger] jobs[i]) {
            assert forall|i: int| 0 <= i < head.len() implies job_is_placed(
                g,
                needs,
                #[trigger] head[i],
            ) by {
                assert(jobs[i] == head[i]);
            }
        }
        if job_failures(g, needs, jobs).len() == 0 {
            assert forall|i: int| 0 <= i < jobs.len() implies job_is_placed(
                g,
                needs,
                #[trigger] jobs[i],
            ) by {
                if i < head.len() {
                    assert(head[i] == jobs[i]);
                }
            }
        }
    }
}

proof fn lemma_needs(g: GateView, jobs: Seq<JobView>, needs: Seq<Seq<char>>)
    ensures
        need_failures(g, jobs, needs).len() == 0 <==> forall|i: int|
            0 <= i < needs.len() ==> job_ids(jobs).contains(#[trigger] needs[i]),
    decreases needs.len(),
{
    if needs.len() > 0 {
        let head = needs.drop_last();
        lemma_needs(g, jobs, head);
        let last = needs.last();
        assert(needs[needs.len() - 1] == last);
        assert(need_failures(g, jobs, needs).len() == need_failures(g, jobs, head).len()
            + need_failure(g, jobs, last).len());
        if forall|i: int| 0 <= i < needs.len() ==> job_ids(jobs).contains(#[trigger] needs[i]) {
            assert forall|i: int| 0 <= i < head.len() implies job_ids(jobs).contains(
                #[trigger] head[i],
            ) by {
                assert(needs[i] == head[i]);
            }
        }
        if need_failures(g, jobs, needs).len() == 0 {
            assert forall|i: int| 0 <= i < needs.len() implies job_ids(jobs).contains(
                #[trigger] needs[i],
            ) by {
                if i < head.len() {
                    assert(head[i] == needs[i]);
                }
            }
        }
    }
}

/// Nothing is reported exactly if a gate holds: a job that stops gating a merge is always
/// reported, and a repository that keeps to the rules never is.
pub proof fn gate_passes_exactly_if_it_holds(g: GateView, doc: Tree, guard: Seq<char>)
    ensures
        document_failures(g, doc, Ok(guard)).len() == 0 <==> gate_holds(g, doc, guard),
{
    let jobs = jobs_of(doc);
    lemma_declarations(g, jobs, g.non_gating);
    reveal_strlit("always()");
    match job_named(jobs, g.aggregate) {
        Some(aggregate) => {
            lemma_jobs(g, aggregate.needs, jobs);
            lemma_needs(g, jobs, aggregate.needs);
            if aggregate.condition is None {
                assert(trimmed(Seq::<char>::empty()) =~= Seq::<char>::empty());
                assert(bare_condition(Seq::empty()).len() == 0);
            }
        },
        None => {},
    }
}

/// The braces `${{` stand at `at` in a condition, with only white space in front of them, and `}}`
/// ends at `end`, with only white space behind.
pub open spec fn braced(c: Seq<char>, at: int, end: int) -> bool {
    &&& 0 <= at && at + 5 <= end <= c.len()
    &&& blank_between(c, 0, at)
    &&& c[at] == '$' && c[at + 1] == '{' && c[at + 2] == '{'
    &&& c[end - 2] == '}' && c[end - 1] == '}'
    &&& blank_between(c, end, c.len() as int)
}

/// The characters `always()` stand at `i` in a condition, and around them only white space: up to
/// its ends, or up to one pair of braces `${{` and `}}` that has only white space around it.
pub open spec fn says_always_at(c: Seq<char>, i: int) -> bool {
    &&& 0 <= i <= i + 8 <= c.len()
    &&& c.subrange(i, i + 8) == seq!['a', 'l', 'w', 'a', 'y', 's', '(', ')']
    &&& {
        ||| blank_between(c, 0, i) && blank_between(c, i + 8, c.len() as int)
        ||| exists|at: int, end: int|
            {
                &&& #[trigger] braced(c, at, end)
                &&& at + 3 <= i && i + 8 <= end - 2
                &&& blank_between(c, at + 3, i)
                &&& blank_between(c, i + 8, end - 2)
            }
    }
}

/// A condition that is `always()` and nothing else.
pub open spec fn says_always(c: Seq<char>) -> bool {
    exists|i: int| #[trigger] says_always_at(c, i)
}

proof fn lemma_always_letters()
    ensures
        "always()"@ == seq!['a', 'l', 'w', 'a', 'y', 's', '(', ')'],
        "${{"@ == seq!['$', '{', '{'],
        "}}"@ == seq!['}', '}'],
{
    reveal_strlit("always()");
    reveal_strlit("${{");
    reveal_strlit("}}");
    assert("always()"@ =~= seq!['a', 'l', 'w', 'a', 'y', 's', '(', ')']);
    assert("${{"@ =~= seq!['$', '{', '{']);
    assert("}}"@ =~= seq!['}', '}']);
}

proof fn lemma_bare_says_always(c: Seq<char>)
    requires
        bare_condition(trimmed(c)) == "always()"@,
    ensures
        says_always(c),
{
    lemma_always_letters();
    let span = trimming_takes_off_white_space_alone(c);
    let t = trimmed(c);
    let n = t.len() as int;
    if n >= 5 && t.take(3) == "${{"@ && t.skip(n - 2) == "}}"@ {
        let inside = t.subrange(3, n - 2);
        let inner = trimming_takes_off_white_space_alone(inside);
        let i = span.0 + 3 + inner.0;
        assert(trimmed(inside).len() == 8);
        assert(c.subrange(i, i + 8) =~= inside.subrange(inner.0, inner.1));
        assert(t.take(3)[0] == c[span.0] && t.take(3)[1] == c[span.0 + 1] && t.take(3)[2]
            == c[span.0 + 2]);
        assert(t.skip(n - 2)[0] == c[span.1 - 2] && t.skip(n - 2)[1] == c[span.1 - 1]);
        assert(braced(c, span.0, span.1));
        assert forall|j: int| span.0 + 3 <= j < i implies is_white_space(#[trigger] c[j]) by {
            assert(inside[j - span.0 - 3] == c[j]);
        }
        assert forall|j: int| i + 8 <= j < span.1 - 2 implies is_white_space(#[trigger] c[j]) by {
            assert(inside[j - span.0 - 3] == c[j]);
        }
        assert(says_always_at(c, i));
    } else {
        let inner = trimming_takes_off_white_space_alone(t);
        let i = span.0 + inner.0;
        assert(trimmed(t).len() == 8);
        assert(c.subrange(i, i + 8) =~= t.subrange(inner.0, inner.1));
        assert forall|j: int| 0 <= j < i implies is_white_space(#[trigger] c[j]) by {
            if j >= span.0 {
                assert(t[j - span.0] == c[j]);
            }
        }
        assert forall|j: int| i + 8 <= j < c.len() implies is_white_space(#[trigger] c[j]) by {
            if j < span.1 {
                assert(t[j - span.0] == c[j]);
            }
        }
        assert(says_always_at(c, i));
    }
}

proof fn lemma_says_always_is_bare(c: Seq<char>)
    requires
        says_always(c),
    ensures
        bare_condition(trimmed(c)) == "always()"@,
{
    lemma_always_letters();
    let always = seq!['a', 'l', 'w', 'a', 'y', 's', '(', ')'];
    let i = choose|i: int| #[trigger] says_always_at(c, i);
    let word = c.subrange(i, i + 8);
    assert(word[0] == 'a' && word[7] == ')');
    assert(c[i] == 'a' && c[i + 7] == ')');
    if blank_between(c, 0, i) && blank_between(c, i + 8, c.len() as int) {
        trimming_finds_what_stands_in_white_space(c, i, i + 8);
        let t = trimmed(c);
        assert(t.take(3)[0] == 'a');
        trimming_finds_what_stands_in_white_space(t, 0, 8);
        assert(t.subrange(0, 8) =~= t);
    } else {
        let (at, end) = choose|at: int, end: int|
            {
                &&& #[trigger] braced(c, at, end)
                &&& at + 3 <= i && i + 8 <= end - 2
                &&& blank_between(c, at + 3, i)
                &&& blank_between(c, i + 8, end - 2)
            };
        trimming_finds_what_stands_in_white_space(c, at, end);
        let t = trimmed(c);
        let n = t.len() as int;
        assert(t.take(3) =~= seq!['$', '{', '{']);
        assert(t.skip(n - 2) =~= seq!['}', '}']);
        let inside = t.subrange(3, n - 2);
        let k = i - at - 3;
        assert forall|j: int| 0 <= j < k implies is_white_space(#[trigger] inside[j]) by {
            assert(c[j + at + 3] == inside[j]);
        }
        assert forall|j: int| k + 8 <= j < inside.len() implies is_white_space(
            #[trigger] inside[j],
        ) by {
            assert(c[j + at + 3] == inside[j]);
        }
        assert(inside[k] == c[i] && inside[k + 7] == c[i + 7]);
        trimming_finds_what_stands_in_white_space(inside, k, k + 8);
        assert(inside.subrange(k, k + 8) =~= word);
    }
}

/// The check of the aggregate's condition passes exactly if the condition is there and reads
/// `always()`, alone or in one pair of braces; any other condition, and none, is one failure of
/// that check.
pub proof fn only_always_runs_whatever_happened(g: GateView, jobs: Seq<JobView>, k: int)
    requires
        0 <= k < jobs.len(),
        jobs[k].id == g.aggregate,
        forall|j: int| 0 <= j < k ==> (#[trigger] jobs[j]).id != g.aggregate,
    ensures
        condition_failures(g, jobs).len() == 0 <==> (jobs[k].condition matches Some(c)
            && says_always(c)),
        condition_failures(g, jobs).len() <= 1,
        condition_failures(g, jobs).len() == 1 ==> condition_failures(g, jobs)[0].0
            == "the_aggregate_runs_whatever_happened"@,
{
    first_job_with_the_id_counts(jobs, g.aggregate, k);
    lemma_always_letters();
    match jobs[k].condition {
        Some(c) => {
            if says_always(c) {
                lemma_says_always_is_bare(c);
            }
            if bare_condition(trimmed(c)) == "always()"@ {
                lemma_bare_says_always(c);
            }
        },
        None => {
            assert(trimmed(Seq::<char>::empty()) =~= Seq::<char>::empty());
            assert(bare_condition(Seq::empty()).len() == 0);
        },
    }
}

/// A job runs whatever happened exactly if its condition reads `always()`.
pub proof fn runs_always_if_it_says_so(job: JobView)
    ensures
        runs_always(job) <==> (job.condition matches Some(c) && says_always(c)),
{
    if let Some(c) = job.condition {
        if says_always(c) {
            lemma_says_always_is_bare(c);
        }
        if runs_always(job) {
            lemma_bare_says_always(c);
        }
    }
}

/// A job is found by its id: the first that has it, and none where none has.
pub proof fn first_job_with_the_id_counts(jobs: Seq<JobView>, id: Seq<char>, k: int)
    requires
        0 <= k <= jobs.len(),
        forall|j: int| 0 <= j < k ==> (#[trigger] jobs[j]).id != id,
    ensures
        k < jobs.len() && jobs[k].id == id ==> job_named(jobs, id) == Some(jobs[k]),
        k == jobs.len() ==> job_named(jobs, id) is None,
    decreases jobs.len(),
{
    if jobs.len() > 0 && k > 0 {
        assert(jobs[0].id != id);
        assert forall|j: int| 0 <= j < k - 1 implies (#[trigger] jobs.skip(1)[j]).id != id by {
            assert(jobs.skip(1)[j] == jobs[j + 1]);
        }
        first_job_with_the_id_counts(jobs.skip(1), id, k - 1);
        if k < jobs.len() {
            assert(jobs.skip(1)[k - 1] == jobs[k]);
        }
    }
}

/// A gate whose files cannot be read, or whose workflow is not a document, never passes.
pub proof fn unread_gate_never_passes(
    g: GateView,
    workflow: Result<Seq<char>, Seq<char>>,
    guard: Result<Seq<char>, Seq<char>>,
)
    requires
        workflow is Err || guard is Err || !(first_document(
            yaml_documents(workflow->Ok_0),
        ) matches Ok(Some(_))),
    ensures
        gate_failures(g, workflow, guard).len() > 0,
{
}

/// A line that is a comment, or blank.
pub open spec fn is_comment_or_blank(line: Seq<char>) -> bool {
    &&& !line.contains('\n')
    &&& trimmed(line).len() == 0 || trimmed(line)[0] == '#' || trimmed(line)[0] == ';'
}

/// Two texts, one line after the other.
pub open spec fn joined(a: Seq<char>, b: Seq<char>) -> Seq<char> {
    a + seq!['\n'] + b
}

/// The first line of `joined(line, rest)` is `line`.
pub proof fn lemma_first_line(line: Seq<char>, rest: Seq<char>)
    requires
        !line.contains('\n'),
    ensures
        first_at(joined(line, rest), '\n') == line.len(),
        joined(line, rest).take(line.len() as int) == line,
        joined(line, rest).skip(line.len() as int + 1) == rest,
{
    let text = joined(line, rest);
    assert forall|i: int| 0 <= i < line.len() implies text[i] != '\n' by {
        assert(line.contains(line[i]));
    }
    assert(text[line.len() as int] == '\n');
    lemma_first_at_is(text, '\n', line.len() as int);
    assert(text.take(line.len() as int) =~= line);
    assert(text.skip(line.len() as int + 1) =~= rest);
}

/// What stands behind the same lines counts only by what it requires in each section.
proof fn lemma_same_behind(section: Seq<char>, before: Seq<char>, a: Seq<char>, b: Seq<char>)
    requires
        forall|s: Seq<char>| #[trigger] required_in(s, a) == required_in(s, b),
    ensures
        required_in(section, joined(before, a)) == required_in(section, joined(before, b)),
    decreases before.len(),
{
    lemma_first_at(before, '\n');
    let end = first_at(before, '\n');
    if end < before.len() {
        let line = before.take(end);
        let rest = before.skip(end + 1);
        assert(!line.contains('\n')) by {
            if line.contains('\n') {
                let i = choose|i: int| 0 <= i < line.len() && line[i] == '\n';
                assert(before[i] == '\n');
            }
        }
        assert(joined(before, a) =~= joined(line, joined(rest, a)));
        assert(joined(before, b) =~= joined(line, joined(rest, b)));
        lemma_first_line(line, joined(rest, a));
        lemma_first_line(line, joined(rest, b));
        let next = match line_view(line) {
            LineView::Section(name) => lowercase_text(name),
            _ => section,
        };
        lemma_same_behind(next, rest, a, b);
    } else {
        assert(!before.contains('\n'));
        lemma_first_line(before, a);
        lemma_first_line(before, b);
        let next = match line_view(before) {
            LineView::Section(name) => lowercase_text(name),
            _ => section,
        };
        assert(required_in(next, a) == required_in(next, b));
    }
}

/// A text that requires nothing in any section adds nothing behind another.
proof fn lemma_nothing_behind(section: Seq<char>, before: Seq<char>, line: Seq<char>)
    requires
        forall|s: Seq<char>| #[trigger] required_in(s, line) == Seq::<Seq<char>>::empty(),
    ensures
        required_in(section, joined(before, line)) == required_in(section, before),
    decreases before.len(),
{
    lemma_first_at(before, '\n');
    let end = first_at(before, '\n');
    if end < before.len() {
        let first = before.take(end);
        let rest = before.skip(end + 1);
        assert(!first.contains('\n')) by {
            if first.contains('\n') {
                let i = choose|i: int| 0 <= i < first.len() && first[i] == '\n';
                assert(before[i] == '\n');
            }
        }
        assert(joined(before, line) =~= joined(first, joined(rest, line)));
        assert(before =~= joined(first, rest));
        lemma_first_line(first, joined(rest, line));
        lemma_first_line(first, rest);
        let next = match line_view(first) {
            LineView::Section(name) => lowercase_text(name),
            _ => section,
        };
        lemma_nothing_behind(next, rest, line);
    } else {
        assert(!before.contains('\n'));
        lemma_first_line(before, line);
        assert(before.take(end) =~= before);
        let next = match line_view(before) {
            LineView::Section(name) => lowercase_text(name),
            _ => section,
        };
        assert(required_in(next, line) == Seq::<Seq<char>>::empty());
        assert(required_in(section, joined(before, line)) =~= required_in(section, before));
    }
}

/// A comment or a blank line requires nothing, wherever it stands: taking it out of the front, the
/// middle or the end of the file, or out of a file that has nothing else, changes nothing.
pub proof fn comment_requires_nothing(
    section: Seq<char>,
    before: Seq<char>,
    line: Seq<char>,
    rest: Seq<char>,
)
    requires
        is_comment_or_blank(line),
    ensures
        required_in(section, joined(line, rest)) == required_in(section, rest),
        required_in(section, joined(before, joined(line, rest))) == required_in(
            section,
            joined(before, rest),
        ),
        required_in(section, joined(before, line)) == required_in(section, before),
        required_in(section, line) == Seq::<Seq<char>>::empty(),
{
    assert(line_view(line) == LineView::Nothing);
    assert forall|s: Seq<char>| #[trigger]
        required_in(s, joined(line, rest)) == required_in(s, rest) by {
        lemma_first_line(line, rest);
        assert(required_in(s, joined(line, rest)) =~= required_in(s, rest));
    }
    assert forall|s: Seq<char>| #[trigger] required_in(s, line) == Seq::<Seq<char>>::empty() by {
        assert forall|i: int| 0 <= i < line.len() implies line[i] != '\n' by {
            assert(line.contains(line[i]));
        }
        lemma_first_at_is(line, '\n', line.len() as int);
        assert(line.take(line.len() as int) =~= line);
    }
    lemma_same_behind(section, before, joined(line, rest), rest);
    lemma_nothing_behind(section, before, line);
}

} // verus!
