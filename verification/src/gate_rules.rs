//! The rules of a merge gate, read off the workflow itself.
//!
//! A gate passes exactly if the rows of its workflow keep the rules here, which speak of nothing
//! but which keys and texts stand where.
use crate::aggregate_gate::{
    condition_failures, debug_list, declaration_failure, declaration_failures, document_failures,
    empty_needs_failure, failures_view, file_view, gate_failures, job_failure, job_failures, job_ids, job_in, job_named,
    jobs_in, jobs_of, keys_in, listed_text, need_failure, need_failures, needs_failures,
    protection_failures, report_text, trigger_failures, Failure, GateView, JobView,
};
use crate::chars::texts;
use crate::gate_laws::{
    gate_holds, gate_passes_exactly_if_it_holds, job_is_placed,
    runs_always, runs_always_if_it_says_so, says_always, says_always_at,
};
use crate::gate_messages::failures_name_what_they_are_about;
use crate::guard_file::required_in;
use crate::text::{decimals_read_back, lemma_mentions, mentions, signed_decimals_read_back};
use crate::yaml::{
    field_of, fields_have_a_row, first_row_with_the_key_counts, list_in, names_in, scalar_of,
    scalars_are_told_as_written, which_names_a_node_has, yaml_documents, Tree,
};
use vstd::prelude::*;

verus! {

/// Row `i` is the first whose key is the text `name`.
pub open spec fn first_row(rows: Seq<(Tree, Tree)>, name: Seq<char>, i: int) -> bool {
    &&& 0 <= i < rows.len()
    &&& rows[i].0 == Tree::Text(name)
    &&& forall|j: int| 0 <= j < i ==> (#[trigger] rows[j]).0 != Tree::Text(name)
}

/// `value` stands under `name` in a mapping.
pub open spec fn stands_under(node: Tree, name: Seq<char>, value: Tree) -> bool {
    node matches Tree::Table(rows) && exists|i: int| #[trigger]
        first_row(rows, name, i) && rows[i].1 == value
}

/// A mapping has the key `name`.
pub open spec fn has_key(node: Tree, name: Seq<char>) -> bool {
    node matches Tree::Table(rows) && exists|i: int|
        0 <= i < rows.len() && (#[trigger] rows[i]).0 == Tree::Text(name)
}

/// A job says that it does not gate: it carries `if` or `continue-on-error`.
pub open spec fn says_it_does_not_gate(body: Tree) -> bool {
    has_key(body, "if"@) || has_key(body, "continue-on-error"@)
}

/// A list of names, or a single one, has `s`.
pub open spec fn lists(node: Tree, s: Seq<char>) -> bool {
    ||| node == Tree::Text(s)
    ||| node matches Tree::List(items) && items.contains(Tree::Text(s))
}

/// Some row is the job `id`.
pub open spec fn has_job(rows: Seq<(Tree, Tree)>, id: Seq<char>) -> bool {
    exists|k: int| 0 <= k < rows.len() && (#[trigger] rows[k]).0 == Tree::Text(id)
}

/// A job other than the aggregate that says it does not gate is declared so and not needed; one
/// that does not say so is needed, or declared, which is wrong elsewhere.
pub open spec fn row_is_placed(g: GateView, needs: Tree, row: (Tree, Tree)) -> bool {
    row.0 matches Tree::Text(id) ==> {
        ||| id == g.aggregate
        ||| !says_it_does_not_gate(row.1) && (lists(needs, id) || g.non_gating.contains(id))
        ||| says_it_does_not_gate(row.1) && g.non_gating.contains(id) && !lists(needs, id)
    }
}

/// The aggregate needs some jobs, all of which are there, and every job is placed.
pub open spec fn needs_are_right(g: GateView, rows: Seq<(Tree, Tree)>, needs: Tree) -> bool {
    &&& exists|s: Seq<char>| #[trigger] lists(needs, s)
    &&& forall|s: Seq<char>| #[trigger] lists(needs, s) ==> has_job(rows, s)
    &&& forall|k: int| 0 <= k < rows.len() ==> row_is_placed(g, needs, #[trigger] rows[k])
}

/// The first job with a declared id says that it does not gate.
pub open spec fn declared_rightly(rows: Seq<(Tree, Tree)>, id: Seq<char>) -> bool {
    exists|k: int| #[trigger] first_row(rows, id, k) && says_it_does_not_gate(rows[k].1)
}

/// The rules on the jobs, where row `a` is the aggregate.
pub open spec fn jobs_keep_the_rules(g: GateView, rows: Seq<(Tree, Tree)>, a: int) -> bool {
    &&& first_row(rows, g.aggregate, a)
    &&& exists|needs: Tree| #[trigger]
        stands_under(rows[a].1, "needs"@, needs) && needs_are_right(g, rows, needs)
    &&& exists|c: Seq<char>| #[trigger] says_always(c) && stands_under(
        rows[a].1,
        "if"@,
        Tree::Text(c),
    )
    &&& forall|i: int|
        0 <= i < g.non_gating.len() ==> declared_rightly(rows, #[trigger] g.non_gating[i])
}

/// The workflow runs on pull requests: they are its trigger, or listed or a key among them.
pub open spec fn runs_on_pull_requests(doc: Tree) -> bool {
    exists|on: Tree| #[trigger]
        stands_under(doc, "on"@, on) && (lists(on, "pull_request"@) || has_key(
            on,
            "pull_request"@,
        ))
}

/// The workflow's jobs are these rows.
pub open spec fn has_jobs(doc: Tree, rows: Seq<(Tree, Tree)>) -> bool {
    stands_under(doc, "jobs"@, Tree::Table(rows))
}

/// The rules of a gate.
pub open spec fn keeps_the_rules(g: GateView, doc: Tree, guard: Seq<char>) -> bool {
    &&& runs_on_pull_requests(doc)
    &&& exists|rows: Seq<(Tree, Tree)>, a: int|
        #![trigger has_jobs(doc, rows), jobs_keep_the_rules(g, rows, a)]
        has_jobs(doc, rows) && jobs_keep_the_rules(g, rows, a)
    &&& required_in(Seq::empty(), guard) == seq![g.aggregate]
}

proof fn lemma_field(node: Tree, name: Seq<char>, value: Tree)
    ensures
        stands_under(node, name, value) <==> field_of(node, name) == Some(value),
        has_key(node, name) <==> field_of(node, name) is Some,
{
    if let Tree::Table(rows) = node {
        let at = fields_have_a_row(rows, name);
        if field_of(node, name) is Some {
            assert(first_row(rows, name, at));
        }
        if stands_under(node, name, value) {
            let i = choose|i: int| #[trigger] first_row(rows, name, i) && rows[i].1 == value;
            first_row_with_the_key_counts(rows, name, i);
        }
        if has_key(node, name) && field_of(node, name) is None {
            let i = choose|i: int| 0 <= i < rows.len() && (#[trigger] rows[i]).0 == Tree::Text(name);
            assert(rows[i].0 != Tree::Text(name));
        }
    }
}

proof fn lemma_keys(body: Tree)
    ensures
        keys_in(body).len() > 0 <==> says_it_does_not_gate(body),
{
    lemma_field(body, "if"@, Tree::Other);
    lemma_field(body, "continue-on-error"@, Tree::Other);
}

proof fn lemma_named_behind(jobs: Seq<JobView>, last: JobView, id: Seq<char>)
    ensures
        job_named(jobs.push(last), id) == match job_named(jobs, id) {
            Some(job) => Some(job),
            None => if last.id == id {
                Some(last)
            } else {
                None
            },
        },
    decreases jobs.len(),
{
    let all = jobs.push(last);
    if jobs.len() > 0 {
        assert(all[0] == jobs[0]);
        if jobs[0].id != id {
            assert(all.skip(1) =~= jobs.skip(1).push(last));
            lemma_named_behind(jobs.skip(1), last, id);
        }
    } else {
        assert(all[0] == last);
        assert(all.skip(1) =~= Seq::<JobView>::empty());
        assert(job_named(Seq::<JobView>::empty(), id) is None);
    }
}

/// The jobs are the rows whose key is a text, each under its id and in their order.
proof fn lemma_job_rows(rows: Seq<(Tree, Tree)>, id: Seq<char>)
    ensures
        forall|k: int| #[trigger]
            first_row(rows, id, k) ==> job_named(jobs_in(rows), id) == Some(job_in(id, rows[k].1)),
        !has_job(rows, id) ==> job_named(jobs_in(rows), id) is None,
        job_named(jobs_in(rows), id) is Some ==> exists|k: int| #[trigger] first_row(rows, id, k),
        job_ids(jobs_in(rows)).contains(id) <==> has_job(rows, id),
    decreases rows.len(),
{
    let jobs = jobs_in(rows);
    if rows.len() > 0 {
        let head = rows.drop_last();
        lemma_job_rows(head, id);
        let last = rows.last();
        let n = head.len() as int;
        assert(rows[n] == last);
        assert forall|k: int| #[trigger] first_row(head, id, k) implies first_row(rows, id, k) by {
            assert(rows[k] == head[k]);
            assert forall|j: int| 0 <= j < k implies (#[trigger] rows[j]).0 != Tree::Text(id) by {
                assert(rows[j] == head[j]);
            }
        }
        assert forall|k: int| #[trigger] first_row(rows, id, k) && k < n implies first_row(
            head,
            id,
            k,
        ) by {
            assert(rows[k] == head[k]);
            assert forall|j: int| 0 <= j < k implies (#[trigger] head[j]).0 != Tree::Text(id) by {
                assert(rows[j] == head[j]);
            }
        }
        if first_row(rows, id, n) {
            assert(!has_job(head, id)) by {
                if has_job(head, id) {
                    let k = choose|k: int|
                        0 <= k < head.len() && (#[trigger] head[k]).0 == Tree::Text(id);
                    assert(rows[k].0 == Tree::Text(id));
                }
            }
        }
        if has_job(head, id) {
            let k = choose|k: int| 0 <= k < head.len() && (#[trigger] head[k]).0 == Tree::Text(id);
            assert(rows[k].0 == Tree::Text(id));
        }
        if has_job(rows, id) && last.0 != Tree::Text(id) {
            let k = choose|k: int| 0 <= k < rows.len() && (#[trigger] rows[k]).0 == Tree::Text(id);
            assert(head[k].0 == Tree::Text(id));
        }
        if let Tree::Text(own) = last.0 {
            let earlier = jobs_in(head);
            let job = job_in(own, last.1);
            assert(jobs == earlier.push(job));
            lemma_named_behind(earlier, job, id);
            let ids = job_ids(jobs);
            assert(ids =~= job_ids(earlier).push(own));
            if job_ids(earlier).contains(id) {
                let i = choose|i: int| 0 <= i < job_ids(earlier).len() && job_ids(earlier)[i] == id;
                assert(ids[i] == id);
            }
            if own == id {
                assert(ids[ids.len() - 1] == id);
                if job_named(earlier, id) is None {
                    assert(first_row(rows, id, n)) by {
                        assert forall|j: int| 0 <= j < n implies (#[trigger] rows[j]).0
                            != Tree::Text(id) by {
                            if rows[j].0 == Tree::Text(id) {
                                assert(head[j].0 == Tree::Text(id));
                                assert(has_job(head, id));
                                lemma_first_exists(head, id);
                            }
                        }
                    }
                }
            }
            if ids.contains(id) && own != id {
                let i = choose|i: int| 0 <= i < ids.len() && ids[i] == id;
                assert(job_ids(earlier)[i] == id);
            }
        }
    } else {
        assert(!has_job(rows, id));
        assert(job_ids(jobs) =~= Seq::<Seq<char>>::empty());
    }
}

proof fn lemma_first_exists(rows: Seq<(Tree, Tree)>, id: Seq<char>)
    ensures
        has_job(rows, id) ==> exists|k: int| #[trigger] first_row(rows, id, k),
{
    let at = fields_have_a_row(rows, id);
    if has_job(rows, id) {
        let k = choose|k: int| 0 <= k < rows.len() && (#[trigger] rows[k]).0 == Tree::Text(id);
        if at == rows.len() {
            assert(rows[k].0 != Tree::Text(id));
        }
        assert(first_row(rows, id, at));
    }
}

/// What holds of every job holds of every row that is one.
proof fn lemma_all_rows(g: GateView, rows: Seq<(Tree, Tree)>, needs: Tree)
    ensures
        (forall|i: int|
            0 <= i < jobs_in(rows).len() ==> job_is_placed(
                g,
                list_in(needs),
                #[trigger] jobs_in(rows)[i],
            )) <==> (forall|k: int|
            0 <= k < rows.len() ==> row_is_placed(g, needs, #[trigger] rows[k])),
    decreases rows.len(),
{
    if rows.len() > 0 {
        let head = rows.drop_last();
        let last = rows.last();
        lemma_all_rows(g, head, needs);
        let jobs = jobs_in(rows);
        let earlier = jobs_in(head);
        assert(rows[rows.len() - 1] == last);
        assert forall|k: int| 0 <= k < head.len() implies #[trigger] head[k] == rows[k] by {}
        if let Tree::Text(id) = last.0 {
            let job = job_in(id, last.1);
            assert(jobs == earlier.push(job));
            assert(jobs[jobs.len() - 1] == job);
            lemma_keys(last.1);
            which_names_a_node_has(needs, id);
            assert(job_is_placed(g, list_in(needs), job) <==> row_is_placed(g, needs, last));
        } else {
            assert(jobs == earlier);
            assert(row_is_placed(g, needs, last));
        }
        if forall|i: int|
            0 <= i < jobs.len() ==> job_is_placed(g, list_in(needs), #[trigger] jobs[i]) {
            assert forall|i: int| 0 <= i < earlier.len() implies job_is_placed(
                g,
                list_in(needs),
                #[trigger] earlier[i],
            ) by {
                assert(jobs[i] == earlier[i]);
            }
            assert forall|k: int| 0 <= k < rows.len() implies row_is_placed(
                g,
                needs,
                #[trigger] rows[k],
            ) by {
                if k < head.len() {
                    assert(head[k] == rows[k]);
                }
            }
        }
        if forall|k: int| 0 <= k < rows.len() ==> row_is_placed(g, needs, #[trigger] rows[k]) {
            assert forall|k: int| 0 <= k < head.len() implies row_is_placed(
                g,
                needs,
                #[trigger] head[k],
            ) by {
                assert(rows[k] == head[k]);
            }
            assert forall|i: int| 0 <= i < jobs.len() implies job_is_placed(
                g,
                list_in(needs),
                #[trigger] jobs[i],
            ) by {
                if i < earlier.len() {
                    assert(earlier[i] == jobs[i]);
                }
            }
        }
    }
}

/// A number or a truth value does not read `always()`.
proof fn lemma_only_texts_say_always(node: Tree, c: Seq<char>)
    requires
        scalar_of(node) == Some(c),
        says_always(c),
    ensures
        node == Tree::Text(c),
{
    scalars_are_told_as_written(node);
    let i = choose|i: int| #[trigger] says_always_at(c, i);
    assert(c.subrange(i, i + 8)[0] == 'a');
    assert(c[i] == 'a');
    if let Tree::Integer(n) = node {
        signed_decimals_read_back(n);
        if n < 0 {
            decimals_read_back((-n) as nat);
            reveal_strlit("-");
            assert(c == "-"@ + crate::text::decimal_text((-n) as nat));
            if i > 0 {
                assert(c[i] == crate::text::decimal_text((-n) as nat)[i - 1]);
            }
        } else {
            decimals_read_back(n as nat);
        }
    }
}

proof fn lemma_needs_node(g: GateView, rows: Seq<(Tree, Tree)>, needs: Tree)
    ensures
        needs_are_right(g, rows, needs) <==> {
            &&& list_in(needs).len() > 0
            &&& forall|i: int|
                0 <= i < list_in(needs).len() ==> job_ids(jobs_in(rows)).contains(
                    #[trigger] list_in(needs)[i],
                )
            &&& forall|i: int|
                0 <= i < jobs_in(rows).len() ==> job_is_placed(
                    g,
                    list_in(needs),
                    #[trigger] jobs_in(rows)[i],
                )
        },
{
    lemma_all_rows(g, rows, needs);
    let names = list_in(needs);
    let ids = job_ids(jobs_in(rows));
    assert forall|s: Seq<char>| #[trigger] lists(needs, s) <==> names.contains(s) by {
        which_names_a_node_has(needs, s);
    }
    if names.len() > 0 {
        assert(names.contains(names[0]));
        assert(lists(needs, names[0]));
    }
    if forall|i: int| 0 <= i < names.len() ==> ids.contains(#[trigger] names[i]) {
        assert forall|s: Seq<char>| #[trigger] lists(needs, s) implies has_job(rows, s) by {
            let i = choose|i: int| 0 <= i < names.len() && names[i] == s;
            assert(ids.contains(names[i]));
            lemma_job_rows(rows, s);
        }
    }
    if forall|s: Seq<char>| #[trigger] lists(needs, s) ==> has_job(rows, s) {
        assert forall|i: int| 0 <= i < names.len() implies ids.contains(#[trigger] names[i]) by {
            assert(names.contains(names[i]));
            assert(lists(needs, names[i]));
            lemma_job_rows(rows, names[i]);
        }
    }
}

proof fn lemma_declared(rows: Seq<(Tree, Tree)>, id: Seq<char>)
    ensures
        declared_rightly(rows, id) <==> job_named(jobs_in(rows), id) is Some && job_named(
            jobs_in(rows),
            id,
        )->0.keys.len() > 0,
{
    lemma_job_rows(rows, id);
    if job_named(jobs_in(rows), id) is Some {
        let k = choose|k: int| #[trigger] first_row(rows, id, k);
        lemma_keys(rows[k].1);
        if declared_rightly(rows, id) {
            let m = choose|m: int| #[trigger]
                first_row(rows, id, m) && says_it_does_not_gate(rows[m].1);
            lemma_keys(rows[m].1);
        }
    }
    if declared_rightly(rows, id) {
        let m = choose|m: int| #[trigger] first_row(rows, id, m) && says_it_does_not_gate(rows[m].1);
        assert(job_named(jobs_in(rows), id) == Some(job_in(id, rows[m].1)));
        lemma_keys(rows[m].1);
    }
}

/// Nothing is reported of a workflow and a guard file exactly if they keep the rules.
pub proof fn gate_passes_exactly_if_the_rules_are_kept(g: GateView, doc: Tree, guard: Seq<char>)
    ensures
        document_failures(g, doc, Ok(guard)).len() == 0 <==> keeps_the_rules(g, doc, guard),
{
    gate_passes_exactly_if_it_holds(g, doc, guard);
    let jobs = jobs_of(doc);
    let pull = "pull_request"@;
    assert(runs_on_pull_requests(doc) <==> (field_of(doc, "on"@) matches Some(on) && names_in(
        on,
    ).contains(pull))) by {
        if let Some(on) = field_of(doc, "on"@) {
            lemma_field(doc, "on"@, on);
            which_names_a_node_has(on, pull);
        }
        if runs_on_pull_requests(doc) {
            let on = choose|on: Tree| #[trigger]
                stands_under(doc, "on"@, on) && (lists(on, pull) || has_key(on, pull));
            lemma_field(doc, "on"@, on);
            which_names_a_node_has(on, pull);
        }
    }
    match field_of(doc, "jobs"@) {
        Some(Tree::Table(rows)) => {
            lemma_field(doc, "jobs"@, Tree::Table(rows));
            lemma_jobs_hold(g, rows);
            if keeps_the_rules(g, doc, guard) {
                let (rows2, a) = choose|rows2: Seq<(Tree, Tree)>, a: int|
                    #![trigger has_jobs(doc, rows2), jobs_keep_the_rules(g, rows2, a)]
                    has_jobs(doc, rows2) && jobs_keep_the_rules(g, rows2, a);
                lemma_field(doc, "jobs"@, Tree::Table(rows2));
                assert(jobs_keep_the_rules(g, rows, a));
            }
            if gate_holds(g, doc, guard) {
                let a = choose|a: int| #[trigger] jobs_keep_the_rules(g, rows, a);
                assert(has_jobs(doc, rows));
            }
        },
        _ => {
            assert(job_named(jobs, g.aggregate) is None);
            if keeps_the_rules(g, doc, guard) {
                let (rows2, a) = choose|rows2: Seq<(Tree, Tree)>, a: int|
                    #![trigger has_jobs(doc, rows2), jobs_keep_the_rules(g, rows2, a)]
                    has_jobs(doc, rows2) && jobs_keep_the_rules(g, rows2, a);
                lemma_field(doc, "jobs"@, Tree::Table(rows2));
            }
        },
    }
}

spec fn jobs_hold(g: GateView, jobs: Seq<JobView>) -> bool {
    &&& job_named(jobs, g.aggregate) matches Some(aggregate) && {
        &&& aggregate.needs.len() > 0
        &&& forall|i: int|
            0 <= i < aggregate.needs.len() ==> job_ids(jobs).contains(
                #[trigger] aggregate.needs[i],
            )
        &&& forall|i: int|
            0 <= i < jobs.len() ==> job_is_placed(g, aggregate.needs, #[trigger] jobs[i])
        &&& runs_always(aggregate)
    }
    &&& forall|i: int|
        0 <= i < g.non_gating.len() ==> job_named(jobs, #[trigger] g.non_gating[i]) is Some
            && job_named(jobs, g.non_gating[i])->0.keys.len() > 0
}

proof fn lemma_jobs_hold(g: GateView, rows: Seq<(Tree, Tree)>)
    ensures
        jobs_hold(g, jobs_in(rows)) <==> exists|a: int| #[trigger] jobs_keep_the_rules(g, rows, a),
{
    let jobs = jobs_in(rows);
    lemma_job_rows(rows, g.aggregate);
    assert forall|i: int| 0 <= i < g.non_gating.len() implies (declared_rightly(
        rows,
        #[trigger] g.non_gating[i],
    ) <==> job_named(jobs, g.non_gating[i]) is Some && job_named(
        jobs,
        g.non_gating[i],
    )->0.keys.len() > 0) by {
        lemma_declared(rows, g.non_gating[i]);
    }
    assert forall|a: int| #[trigger] first_row(rows, g.aggregate, a) implies (jobs_hold(g, jobs)
        <==> jobs_keep_the_rules(g, rows, a)) by {
        let body = rows[a].1;
        let aggregate = job_in(g.aggregate, body);
        assert(job_named(jobs, g.aggregate) == Some(aggregate));
        lemma_aggregate(g, rows, a);
    }
    if jobs_hold(g, jobs) {
        let a = choose|a: int| #[trigger] first_row(rows, g.aggregate, a);
        assert(jobs_keep_the_rules(g, rows, a));
    }
    if exists|a: int| #[trigger] jobs_keep_the_rules(g, rows, a) {
        let a = choose|a: int| #[trigger] jobs_keep_the_rules(g, rows, a);
        assert(first_row(rows, g.aggregate, a));
    }
}

proof fn lemma_aggregate(g: GateView, rows: Seq<(Tree, Tree)>, a: int)
    requires
        first_row(rows, g.aggregate, a),
    ensures
        ({
            let aggregate = job_in(g.aggregate, rows[a].1);
            let jobs = jobs_in(rows);
            &&& (exists|needs: Tree| #[trigger]
                stands_under(rows[a].1, "needs"@, needs) && needs_are_right(g, rows, needs)) <==> {
                &&& aggregate.needs.len() > 0
                &&& forall|i: int|
                    0 <= i < aggregate.needs.len() ==> job_ids(jobs).contains(
                        #[trigger] aggregate.needs[i],
                    )
                &&& forall|i: int|
                    0 <= i < jobs.len() ==> job_is_placed(g, aggregate.needs, #[trigger] jobs[i])
            }
            &&& (exists|c: Seq<char>| #[trigger]
                says_always(c) && stands_under(rows[a].1, "if"@, Tree::Text(c))) <==> runs_always(
                aggregate,
            )
        }),
{
    let body = rows[a].1;
    let aggregate = job_in(g.aggregate, body);
    match field_of(body, "needs"@) {
        Some(needs) => {
            lemma_field(body, "needs"@, needs);
            lemma_needs_node(g, rows, needs);
            if exists|n: Tree| #[trigger] stands_under(body, "needs"@, n) && needs_are_right(
                g,
                rows,
                n,
            ) {
                let n = choose|n: Tree| #[trigger]
                    stands_under(body, "needs"@, n) && needs_are_right(g, rows, n);
                lemma_field(body, "needs"@, n);
            }
        },
        None => {
            assert forall|n: Tree| !(#[trigger] stands_under(body, "needs"@, n)) by {
                lemma_field(body, "needs"@, n);
            }
        },
    }
    runs_always_if_it_says_so(aggregate);
    match field_of(body, "if"@) {
        Some(node) => {
            lemma_field(body, "if"@, node);
            if let Some(c) = scalar_of(node) {
                if says_always(c) {
                    lemma_only_texts_say_always(node, c);
                }
            }
            if exists|c: Seq<char>| #[trigger] says_always(c) && stands_under(
                body,
                "if"@,
                Tree::Text(c),
            ) {
                let c = choose|c: Seq<char>| #[trigger]
                    says_always(c) && stands_under(body, "if"@, Tree::Text(c));
                lemma_field(body, "if"@, Tree::Text(c));
                scalars_are_told_as_written(node);
            }
        },
        None => {
            assert forall|c: Seq<char>| #[trigger] says_always(c) implies !stands_under(
                body,
                "if"@,
                Tree::Text(c),
            ) by {
                lemma_field(body, "if"@, Tree::Text(c));
            }
        },
    }
}

/// In a workflow whose jobs have different ids, a gate that passes leaves no job out: each one but
/// the aggregate is needed by it, or says that it does not gate, is declared so, and is not needed.
pub proof fn a_passing_gate_leaves_no_job_out(
    g: GateView,
    doc: Tree,
    guard: Seq<char>,
    rows: Seq<(Tree, Tree)>,
    k: int,
    id: Seq<char>,
)
    requires
        document_failures(g, doc, Ok(guard)).len() == 0,
        has_jobs(doc, rows),
        0 <= k < rows.len(),
        rows[k].0 == Tree::Text(id),
        id != g.aggregate,
        forall|i: int, j: int|
            0 <= i < j < rows.len() ==> (#[trigger] rows[i]).0 != (#[trigger] rows[j]).0,
    ensures
        exists|a: int, needs: Tree|
            #![trigger first_row(rows, g.aggregate, a), lists(needs, id)]
            {
                &&& first_row(rows, g.aggregate, a)
                &&& stands_under(rows[a].1, "needs"@, needs)
                &&& lists(needs, id) <==> !says_it_does_not_gate(rows[k].1)
                &&& says_it_does_not_gate(rows[k].1) ==> g.non_gating.contains(id)
            },
{
    gate_passes_exactly_if_the_rules_are_kept(g, doc, guard);
    let (rows2, a) = choose|rows2: Seq<(Tree, Tree)>, a: int|
        #![trigger has_jobs(doc, rows2), jobs_keep_the_rules(g, rows2, a)]
        has_jobs(doc, rows2) && jobs_keep_the_rules(g, rows2, a);
    lemma_field(doc, "jobs"@, Tree::Table(rows2));
    lemma_field(doc, "jobs"@, Tree::Table(rows));
    assert(rows2 == rows);
    let needs = choose|needs: Tree| #[trigger]
        stands_under(rows[a].1, "needs"@, needs) && needs_are_right(g, rows, needs);
    assert(row_is_placed(g, needs, rows[k]));
    if !says_it_does_not_gate(rows[k].1) && g.non_gating.contains(id) {
        let i = choose|i: int| 0 <= i < g.non_gating.len() && g.non_gating[i] == id;
        assert(declared_rightly(rows, g.non_gating[i]));
        let m = choose|m: int| #[trigger] first_row(rows, id, m) && says_it_does_not_gate(rows[m].1);
        if m < k {
            assert(rows[m].0 != rows[k].0);
        }
        if k < m {
            assert(rows[k].0 != rows[m].0);
        }
        assert(m == k);
        assert(false);
    }
    assert(first_row(rows, g.aggregate, a));
    assert(lists(needs, id) <==> !says_it_does_not_gate(rows[k].1));
}

/// Some failure of the check on the needs names `name`.
pub open spec fn needs_report(failures: Seq<(Seq<char>, Seq<char>)>, name: Seq<char>) -> bool {
    exists|k: int|
        0 <= k < failures.len() && (#[trigger] failures[k]).0
            == "the_aggregate_job_needs_every_other_job"@ && mentions(failures[k].1, name)
}

proof fn lemma_report_in(
    a: Seq<(Seq<char>, Seq<char>)>,
    b: Seq<(Seq<char>, Seq<char>)>,
    name: Seq<char>,
)
    ensures
        needs_report(a, name) || needs_report(b, name) ==> needs_report(a + b, name),
{
    if needs_report(a, name) {
        let k = choose|k: int|
            0 <= k < a.len() && (#[trigger] a[k]).0 == "the_aggregate_job_needs_every_other_job"@
                && mentions(a[k].1, name);
        assert((a + b)[k] == a[k]);
    }
    if needs_report(b, name) {
        let k = choose|k: int|
            0 <= k < b.len() && (#[trigger] b[k]).0 == "the_aggregate_job_needs_every_other_job"@
                && mentions(b[k].1, name);
        assert((a + b)[a.len() + k] == b[k]);
    }
}

proof fn lemma_job_reported(g: GateView, needs: Seq<Seq<char>>, jobs: Seq<JobView>, i: int)
    requires
        0 <= i < jobs.len(),
        !job_is_placed(g, needs, jobs[i]),
    ensures
        needs_report(job_failures(g, needs, jobs), jobs[i].id),
    decreases jobs.len(),
{
    let head = jobs.drop_last();
    let name = jobs[i].id;
    if i < head.len() {
        assert(head[i] == jobs[i]);
        lemma_job_reported(g, needs, head, i);
    } else {
        let one = job_failure(g, needs, jobs[i]);
        failures_name_what_they_are_about(g.workflow, g.aggregate, name, debug_list(needs));
        failures_name_what_they_are_about(g.workflow, g.aggregate, name, debug_list(jobs[i].keys));
        assert(one.len() == 1);
        assert(one[0].0 == "the_aggregate_job_needs_every_other_job"@);
        assert(mentions(one[0].1, name));
        assert(needs_report(one, name));
    }
    lemma_report_in(job_failures(g, needs, head), job_failure(g, needs, jobs.last()), name);
}

proof fn lemma_declaration_reported(
    g: GateView,
    jobs: Seq<JobView>,
    declared: Seq<Seq<char>>,
    i: int,
)
    requires
        0 <= i < declared.len(),
        job_named(jobs, declared[i]) is None || job_named(jobs, declared[i])->0.keys.len() == 0,
    ensures
        needs_report(declaration_failures(g, jobs, declared), declared[i]),
    decreases declared.len(),
{
    let head = declared.drop_last();
    let name = declared[i];
    if i < head.len() {
        assert(head[i] == declared[i]);
        lemma_declaration_reported(g, jobs, head, i);
    } else {
        let one = declaration_failure(g, jobs, name);
        failures_name_what_they_are_about(g.workflow, g.aggregate, name, name);
        assert(one.len() == 1);
        assert(one[0].0 == "the_aggregate_job_needs_every_other_job"@);
        assert(mentions(one[0].1, name));
        assert(needs_report(one, name));
    }
    lemma_report_in(
        declaration_failures(g, jobs, head),
        declaration_failure(g, jobs, declared.last()),
        name,
    );
}

proof fn lemma_need_reported(g: GateView, jobs: Seq<JobView>, needs: Seq<Seq<char>>, i: int)
    requires
        0 <= i < needs.len(),
        !job_ids(jobs).contains(needs[i]),
    ensures
        needs_report(need_failures(g, jobs, needs), needs[i]),
    decreases needs.len(),
{
    let head = needs.drop_last();
    let name = needs[i];
    if i < head.len() {
        assert(head[i] == needs[i]);
        lemma_need_reported(g, jobs, head, i);
    } else {
        let one = need_failure(g, jobs, name);
        failures_name_what_they_are_about(g.workflow, g.aggregate, name, name);
        assert(one.len() == 1);
        assert(one[0].0 == "the_aggregate_job_needs_every_other_job"@);
        assert(mentions(one[0].1, name));
        assert(needs_report(one, name));
    }
    lemma_report_in(need_failures(g, jobs, head), need_failure(g, jobs, needs.last()), name);
}

/// Nothing that is wrong with the jobs is passed over for something else that is: every job that
/// is not placed is named in a failure of its own, and so is every wrong declaration and every
/// needed job that is not there. A workflow without the aggregate has that one failure.
pub proof fn everything_wrong_with_the_jobs_is_named(
    g: GateView,
    doc: Tree,
    rows: Seq<(Tree, Tree)>,
    a: int,
    needs: Tree,
    name: Seq<char>,
    k: int,
)
    requires
        has_jobs(doc, rows),
        first_row(rows, g.aggregate, a),
        stands_under(rows[a].1, "needs"@, needs),
    ensures
        0 <= k < rows.len() && rows[k].0 == Tree::Text(name) && !row_is_placed(g, needs, rows[k])
            ==> needs_report(needs_failures(g, jobs_of(doc)), name),
        g.non_gating.contains(name) && !declared_rightly(rows, name) ==> needs_report(
            needs_failures(g, jobs_of(doc)),
            name,
        ),
        lists(needs, name) && !has_job(rows, name) ==> needs_report(
            needs_failures(g, jobs_of(doc)),
            name,
        ),
{
    let jobs = jobs_in(rows);
    lemma_field(doc, "jobs"@, Tree::Table(rows));
    assert(jobs_of(doc) == jobs);
    lemma_job_rows(rows, g.aggregate);
    let body = rows[a].1;
    let aggregate = job_in(g.aggregate, body);
    lemma_field(body, "needs"@, needs);
    assert(aggregate.needs == list_in(needs));
    let d = declaration_failures(g, jobs, g.non_gating);
    let j = job_failures(g, aggregate.needs, jobs);
    let n = need_failures(g, jobs, aggregate.needs);
    let e = empty_needs_failure(g, aggregate.needs);
    lemma_report_in(d, j, name);
    lemma_report_in(d + j, n, name);
    lemma_report_in(d + j + n, e, name);
    if 0 <= k < rows.len() && rows[k].0 == Tree::Text(name) && !row_is_placed(g, needs, rows[k]) {
        lemma_row_is_a_job(rows, k, name);
        let i = choose|i: int| 0 <= i < jobs.len() && #[trigger] jobs[i] == job_in(name, rows[k].1);
        lemma_keys(rows[k].1);
        which_names_a_node_has(needs, name);
        assert(!job_is_placed(g, aggregate.needs, jobs[i]));
        lemma_job_reported(g, aggregate.needs, jobs, i);
    }
    if g.non_gating.contains(name) && !declared_rightly(rows, name) {
        let i = choose|i: int| 0 <= i < g.non_gating.len() && g.non_gating[i] == name;
        lemma_declared(rows, name);
        lemma_declaration_reported(g, jobs, g.non_gating, i);
    }
    if lists(needs, name) && !has_job(rows, name) {
        which_names_a_node_has(needs, name);
        let i = choose|i: int| 0 <= i < aggregate.needs.len() && aggregate.needs[i] == name;
        lemma_job_rows(rows, name);
        lemma_need_reported(g, jobs, aggregate.needs, i);
    }
}

proof fn lemma_row_is_a_job(rows: Seq<(Tree, Tree)>, k: int, id: Seq<char>)
    requires
        0 <= k < rows.len(),
        rows[k].0 == Tree::Text(id),
    ensures
        exists|i: int|
            0 <= i < jobs_in(rows).len() && #[trigger] jobs_in(rows)[i] == job_in(id, rows[k].1),
    decreases rows.len(),
{
    let head = rows.drop_last();
    let jobs = jobs_in(rows);
    let earlier = jobs_in(head);
    if k < head.len() {
        assert(head[k] == rows[k]);
        lemma_row_is_a_job(head, k, id);
        let i = choose|i: int|
            0 <= i < earlier.len() && #[trigger] earlier[i] == job_in(id, head[k].1);
        assert(jobs[i] == earlier[i]);
    } else {
        assert(jobs[jobs.len() - 1] == job_in(id, rows[k].1));
    }
}

/// The failures of a workflow that could be read come check by check, and each stands under its
/// check: first the trigger, with at most one, then the jobs, the aggregate's condition, with at
/// most one, and the guard file, with at most one.
pub proof fn failures_stand_under_their_check(
    g: GateView,
    doc: Tree,
    guard: Result<Seq<char>, Seq<char>>,
)
    ensures
        document_failures(g, doc, guard) == trigger_failures(g, doc) + needs_failures(
            g,
            jobs_of(doc),
        ) + condition_failures(g, jobs_of(doc)) + protection_failures(g, guard),
        trigger_failures(g, doc).len() <= 1,
        trigger_failures(g, doc).len() == 1 ==> trigger_failures(g, doc)[0].0
            == "the_gate_workflow_runs_on_pull_request"@,
        trigger_failures(g, doc).len() == 0 <==> runs_on_pull_requests(doc),
        protection_failures(g, guard).len() <= 1,
        protection_failures(g, guard).len() == 1 ==> protection_failures(g, guard)[0].0
            == "protection_requires_the_aggregate_and_nothing_else"@,
        protection_failures(g, guard).len() == 0 <==> (guard matches Ok(text) && required_in(
            Seq::empty(),
            text,
        ) == seq![g.aggregate]),
        job_named(jobs_of(doc), g.aggregate) is None ==> needs_failures(g, jobs_of(doc)).len() == 1
            && needs_report(needs_failures(g, jobs_of(doc)), g.aggregate) && condition_failures(
            g,
            jobs_of(doc),
        ).len() == 0,
{
    let pull = "pull_request"@;
    if let Some(on) = field_of(doc, "on"@) {
        lemma_field(doc, "on"@, on);
        which_names_a_node_has(on, pull);
    }
    if runs_on_pull_requests(doc) {
        let on = choose|on: Tree| #[trigger]
            stands_under(doc, "on"@, on) && (lists(on, pull) || has_key(on, pull));
        lemma_field(doc, "on"@, on);
        which_names_a_node_has(on, pull);
    }
    let jobs = jobs_of(doc);
    if job_named(jobs, g.aggregate) is None {
        failures_name_what_they_are_about(
            g.workflow,
            g.aggregate,
            g.aggregate,
            debug_list(job_ids(jobs)),
        );
        let one = needs_failures(g, jobs);
        assert(one[0].0 == "the_aggregate_job_needs_every_other_job"@);
        assert(mentions(one[0].1, g.aggregate));
    }
}

/// The report of a gate that does not hold names the repository and tells every failure, with its
/// check in front.
pub proof fn reports_tell_every_failure(
    g: GateView,
    failures: Seq<(Seq<char>, Seq<char>)>,
    i: int,
)
    requires
        0 <= i < failures.len(),
    ensures
        mentions(report_text(g, failures), g.repo),
        mentions(report_text(g, failures), failures[i].0 + ": "@ + failures[i].1),
        mentions(listed_text(failures), failures[i].0 + ": "@ + failures[i].1),
    decreases failures.len(),
{
    lemma_mentions();
    let line = failures[i].0 + ": "@ + failures[i].1;
    let head = failures.drop_last();
    if i < head.len() {
        assert(head[i] == failures[i]);
        reports_tell_every_failure(g, head, i);
        assert(mentions(listed_text(head), line));
    }
    assert(mentions(listed_text(failures), line));
    lemma_mentioned_behind("the CI gate is not holding in "@ + g.repo + ":\n\n"@, listed_text(failures), line);
}

proof fn lemma_mentioned_behind(s: Seq<char>, t: Seq<char>, p: Seq<char>)
    requires
        mentions(t, p),
    ensures
        mentions(s + t, p),
{
    let i = choose|i: int| 0 <= i <= t.len() - p.len() && #[trigger] t.subrange(i, i + p.len()) == p;
    let j = s.len() + i;
    assert((s + t).subrange(j, j + p.len()) =~= t.subrange(i, i + p.len()));
}

/// A workflow that is there is judged by its first document; one that cannot be read, or is no
/// document, has one failure, whatever the guard file holds.
pub proof fn the_first_document_is_judged(
    g: GateView,
    text: Seq<char>,
    docs: Seq<Tree>,
    guard: Result<Seq<char>, Seq<char>>,
    error: Seq<char>,
)
    ensures
        yaml_documents(text) == Ok::<Seq<Tree>, Seq<char>>(docs) && docs.len() > 0 ==> gate_failures(
            g,
            Ok(text),
            guard,
        ) == document_failures(g, docs[0], guard),
        yaml_documents(text) == Ok::<Seq<Tree>, Seq<char>>(docs) && docs.len() == 0
            ==> gate_failures(g, Ok(text), guard).len() == 1 && gate_failures(
            g,
            Ok(text),
            guard,
        )[0].0 == "the_gate_workflow_exists"@,
        yaml_documents(text) == Err::<Seq<Tree>, Seq<char>>(error) ==> gate_failures(
            g,
            Ok(text),
            guard,
        ).len() == 1 && gate_failures(g, Ok(text), guard)[0].0 == "the_gate_workflow_exists"@
            && mentions(gate_failures(g, Ok(text), guard)[0].1, error),
        gate_failures(g, Err(error), guard).len() == 1 && gate_failures(g, Err(error), guard)[0].0
            == "the_gate_workflow_exists"@ && mentions(
            gate_failures(g, Err(error), guard)[0].1,
            error,
        ),
{
    failures_name_what_they_are_about(g.workflow, g.aggregate, error, error);
}

/// What is said of failures, names and files is said of them as they are: each failure by its
/// check and its detail, each name by its text, all of them and in their order, and a file by what
/// it holds or why it cannot be read.
pub proof fn results_are_shown_as_they_are(
    failures: Seq<Failure>,
    names: Seq<String>,
    file: Result<&str, &str>,
    i: int,
)
    ensures
        failures_view(failures).len() == failures.len(),
        0 <= i < failures.len() ==> failures_view(failures)[i] == (
            failures[i].check@,
            failures[i].detail@,
        ),
        texts(names).len() == names.len(),
        0 <= i < names.len() ==> texts(names)[i] == names[i]@,
        file matches Ok(text) ==> file_view(file) == Ok::<Seq<char>, Seq<char>>(text@),
        file matches Err(e) ==> file_view(file) == Err::<Seq<char>, Seq<char>>(e@),
{
}

} // verus!
