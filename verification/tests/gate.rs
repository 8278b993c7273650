use fs_core::aggregate_gate::{AggregateGate, Failure};
use fs_core::guard_file::{read_line, read_value, required_checks, setting_requires, Line};
use fs_core::yaml::{parse, string_list, trigger_names, Node};

const XFS_CI: &str = "\
name: ci
on:
  push:
    branches: [main]
  pull_request:
jobs:
  unit:
    runs-on: ubuntu-latest
    steps:
      - run: cargo test --lib
      - if: always()
        run: echo done
  fixtures:
    runs-on: ubuntu-latest
    steps:
      - run: scripts/fixtures.sh
  test:
    needs: [unit, fixtures]
    runs-on: ubuntu-latest
    steps:
      - run: cargo test
  test-arm64:
    needs: fixtures
    runs-on: ubuntu-24.04-arm
    steps:
      - run: cargo test
  test-darwin:
    needs: [fixtures]
    runs-on: macos-latest
    steps:
      - run: cargo test
  suite-in-vm:
    needs:
      - fixtures
    runs-on: ubuntu-latest
    steps:
      - run: scripts/vm.sh
  ci-ok:
    if: always()
    needs: [unit, fixtures, test, test-arm64, test-darwin, suite-in-vm]
    runs-on: ubuntu-latest
    steps:
      - run: scripts/all-succeeded.sh
";

const XFS_GUARD: &str = "\
# One check is required, and it stands for every job.
[branch]
\tprotect = main

[checks]
\trequired = ci-ok
";

const PARTITIONS_CI: &str = "\
name: ci
on: [push, pull_request]
jobs:
  test:
    strategy:
      matrix:
        os: [ubuntu-latest, macos-latest, windows-latest]
    runs-on: ${{ matrix.os }}
    steps:
      - run: cargo test
  test-release:
    runs-on: ubuntu-latest
    steps:
      - run: cargo test --release
  oracle:
    runs-on: ubuntu-latest
    steps:
      - run: scripts/oracle.sh
  fmt:
    runs-on: ubuntu-latest
    steps:
      - run: cargo fmt --check
  ci-ok:
    if: always()
    needs: [test, test-release, oracle, fmt]
    runs-on: ubuntu-latest
    steps:
      - run: scripts/all-succeeded.sh
";

const PARTITIONS_GUARD: &str = "\
# required used to name `test / ubuntu-latest` and four more.
[checks]
\trequired = ci-ok
";

const PARTITIONS_FUZZ: &str = "\
name: fuzz
on:
  workflow_dispatch:
  schedule:
    - cron: '0 3 * * *'
jobs:
  fuzz:
    runs-on: ubuntu-latest
    steps:
      - run: cargo fuzz run slice
";

const NTFS_CI: &str = "\
name: ci
on:
  push:
    tags: ['v*']
  pull_request:
  workflow_dispatch:
jobs:
  changes:
    if: github.event_name == 'pull_request'
    runs-on: ubuntu-latest
    steps:
      - run: scripts/changes.sh
  test:
    runs-on: ubuntu-latest
    steps:
      - run: cargo test
  integration:
    runs-on: ubuntu-latest
    steps:
      - run: scripts/integration.sh
  asan:
    runs-on: ubuntu-latest
    steps:
      - run: scripts/asan.sh
  validate-mkfs-windows:
    if: startsWith(github.ref, 'refs/tags/') || github.event_name == 'workflow_dispatch'
    runs-on: windows-latest
    steps:
      - run: scripts/mkfs.ps1
";

const NTFS_REQUIRED: &str = "\trequired = test-ubuntu-latest\n\
     \trequired = test-ubuntu-24.04-arm\n\
     \trequired = test-macos-latest\n\
     \trequired = full test suite (fixtures + integration)\n\
     \trequired = validate rust-ntfs format (Windows chkdsk)";

/// A repository's two files.
struct Scratch {
    ci: String,
    guard: String,
}

impl Scratch {
    fn xfs() -> Self {
        Scratch {
            ci: XFS_CI.to_string(),
            guard: XFS_GUARD.to_string(),
        }
    }

    fn partitions() -> Self {
        Scratch {
            ci: PARTITIONS_CI.to_string(),
            guard: PARTITIONS_GUARD.to_string(),
        }
    }

    fn ntfs() -> Self {
        Scratch {
            ci: NTFS_CI.to_string(),
            guard: format!("[checks]\n{NTFS_REQUIRED}\n"),
        }
    }

    /// Replace the first occurrence of `from` with `to`, refusing if it is not there.
    fn mutate_ci(mut self, from: &str, to: &str) -> Self {
        assert!(self.ci.contains(from), "the mutation does not apply: {from:?}");
        self.ci = self.ci.replacen(from, to, 1);
        self
    }

    fn mutate_guard(mut self, from: &str, to: &str) -> Self {
        assert!(self.guard.contains(from), "the mutation does not apply: {from:?}");
        self.guard = self.guard.replacen(from, to, 1);
        self
    }

    fn gate(&self) -> AggregateGate {
        AggregateGate::new("/repo")
    }

    fn check(&self) -> Vec<Failure> {
        self.check_with(self.gate())
    }

    fn check_with(&self, gate: AggregateGate) -> Vec<Failure> {
        gate.check(Ok(&self.ci), Ok(&self.guard))
    }
}

/// The named check fired, and its message says what it cost.
fn fires(failures: &[Failure], check: &str, needle: &str) {
    let hit: Vec<_> = failures.iter().filter(|f| f.check == check).collect();
    assert!(
        !hit.is_empty(),
        "expected `{check}` to fire; what fired instead: {failures:#?}"
    );
    assert!(
        hit.iter().any(|f| f.detail.contains(needle)),
        "`{check}` fired but did not explain {needle:?}: {hit:#?}"
    );
}

#[test]
fn the_real_configurations_pass_unmodified() {
    for scratch in [Scratch::xfs(), Scratch::partitions()] {
        let failures = scratch.check();
        assert!(
            failures.is_empty(),
            "the configuration gates correctly and the guard should say so: {failures:#?}"
        );
        assert!(scratch
            .gate()
            .verify(Ok(&scratch.ci), Ok(&scratch.guard))
            .is_ok());
    }
}

#[test]
fn removing_a_job_from_needs_fires() {
    let xfs = Scratch::xfs().mutate_ci(
        "needs: [unit, fixtures, test, test-arm64, test-darwin, suite-in-vm]",
        "needs: [unit, fixtures, test, test-arm64, suite-in-vm]",
    );
    fires(
        &xfs.check(),
        "the_aggregate_job_needs_every_other_job",
        "`ci-ok` does not need `test-darwin`, so that job gates nothing",
    );

    let partitions = Scratch::partitions().mutate_ci(
        "needs: [test, test-release, oracle, fmt]",
        "needs: [test, test-release, fmt]",
    );
    fires(
        &partitions.check(),
        "the_aggregate_job_needs_every_other_job",
        "`ci-ok` does not need `oracle`, so that job gates nothing",
    );
    assert_eq!(
        partitions.check()[0].detail,
        "`ci-ok` does not need `oracle`, so that job gates nothing: it can go red and the merge \
         still goes through. `ci-ok` needs [\"test\", \"test-release\", \"fmt\"]"
    );
}

#[test]
fn an_aggregate_that_needs_nothing_fires() {
    let xfs = Scratch::xfs().mutate_ci(
        "needs: [unit, fixtures, test, test-arm64, test-darwin, suite-in-vm]",
        "needs: []",
    );
    fires(
        &xfs.check(),
        "the_aggregate_job_needs_every_other_job",
        "needs nothing, so it says every job succeeded while asking none of them",
    );
}

#[test]
fn needing_a_job_that_does_not_exist_fires() {
    let partitions = Scratch::partitions().mutate_ci(
        "needs: [test, test-release, oracle, fmt]",
        "needs: [test, test-release, oracle, fmt, clippy]",
    );
    fires(
        &partitions.check(),
        "the_aggregate_job_needs_every_other_job",
        "`ci-ok` needs `clippy`, which is not a job in",
    );
}

#[test]
fn deleting_if_always_fires() {
    let xfs = Scratch::xfs().mutate_ci(
        "    if: always()\n    needs: [unit, fixtures, test, test-arm64, test-darwin, suite-in-vm]",
        "    needs: [unit, fixtures, test, test-arm64, test-darwin, suite-in-vm]",
    );
    fires(
        &xfs.check(),
        "the_aggregate_runs_whatever_happened",
        "a skipped required check never reports",
    );

    let partitions = Scratch::partitions().mutate_ci(
        "    if: always()\n    needs: [test, test-release, oracle, fmt]",
        "    needs: [test, test-release, oracle, fmt]",
    );
    fires(
        &partitions.check(),
        "the_aggregate_runs_whatever_happened",
        "a skipped required check never reports",
    );
}

#[test]
fn narrowing_always_to_a_condition_that_can_be_false_fires() {
    for (scratch, needs) in [
        (
            Scratch::xfs(),
            "needs: [unit, fixtures, test, test-arm64, test-darwin, suite-in-vm]",
        ),
        (
            Scratch::partitions(),
            "needs: [test, test-release, oracle, fmt]",
        ),
    ] {
        let scratch = scratch.mutate_ci(
            &format!("    if: always()\n    {needs}"),
            &format!("    if: always() && github.event_name == 'pull_request'\n    {needs}"),
        );
        fires(
            &scratch.check(),
            "the_aggregate_runs_whatever_happened",
            "Any condition that can be false is a condition under which the one \
             required check does not report",
        );
    }
}

#[test]
fn the_braced_spelling_of_always_passes() {
    for (scratch, needs) in [
        (
            Scratch::xfs(),
            "needs: [unit, fixtures, test, test-arm64, test-darwin, suite-in-vm]",
        ),
        (
            Scratch::partitions(),
            "needs: [test, test-release, oracle, fmt]",
        ),
    ] {
        let scratch = scratch.mutate_ci(
            &format!("    if: always()\n    {needs}"),
            &format!("    if: ${{{{ always() }}}}\n    {needs}"),
        );
        let failures = scratch.check();
        assert!(
            failures.is_empty(),
            "`${{{{ always() }}}}` is `always()`: {failures:#?}"
        );
    }
}

#[test]
fn a_literal_condition_is_read_as_its_text() {
    let partitions = Scratch::partitions().mutate_ci(
        "    if: always()\n    needs: [test, test-release, oracle, fmt]",
        "    if: true\n    needs: [test, test-release, oracle, fmt]",
    );
    fires(
        &partitions.check(),
        "the_aggregate_runs_whatever_happened",
        "`ci-ok` carries `if: true` rather than `if: always()`",
    );
    let partitions = Scratch::partitions().mutate_ci(
        "    if: always()\n    needs: [test, test-release, oracle, fmt]",
        "    if: -12\n    needs: [test, test-release, oracle, fmt]",
    );
    fires(
        &partitions.check(),
        "the_aggregate_runs_whatever_happened",
        "`ci-ok` carries `if: -12` rather than `if: always()`",
    );
}

#[test]
fn a_second_required_check_fires() {
    let xfs = Scratch::xfs().mutate_guard(
        "\trequired = ci-ok",
        "\trequired = ci-ok\n\trequired = test / ubuntu-latest",
    );
    fires(
        &xfs.check(),
        "protection_requires_the_aggregate_and_nothing_else",
        r#"requires ["ci-ok", "test / ubuntu-latest"]"#,
    );

    let partitions = Scratch::partitions().mutate_guard(
        "\trequired = ci-ok",
        "\trequired = ci-ok\n\trequired = fmt",
    );
    fires(
        &partitions.check(),
        "protection_requires_the_aggregate_and_nothing_else",
        r#"requires ["ci-ok", "fmt"]"#,
    );
}

#[test]
fn requiring_something_other_than_the_aggregate_fires() {
    let partitions =
        Scratch::partitions().mutate_guard("\trequired = ci-ok", "\trequired = fmt");
    fires(
        &partitions.check(),
        "protection_requires_the_aggregate_and_nothing_else",
        r#"requires ["fmt"]; it should name `ci-ok` alone"#,
    );
}

#[test]
fn a_required_line_inside_a_comment_is_not_a_requirement() {
    let partitions = Scratch::partitions().mutate_guard(
        "[checks]",
        "# a note about how this used to say `required = test / ubuntu-latest`\n[checks]",
    );
    let failures = partitions.check();
    assert!(
        failures.is_empty(),
        "a comment is not a declaration: {failures:#?}"
    );
}

#[test]
fn a_gate_workflow_that_does_not_run_on_pull_requests_fires() {
    let xfs = Scratch::xfs().mutate_ci("  pull_request:", "  workflow_dispatch:");
    fires(
        &xfs.check(),
        "the_gate_workflow_runs_on_pull_request",
        "which GitHub reads as permanently pending",
    );
    fires(
        &xfs.check(),
        "the_gate_workflow_runs_on_pull_request",
        r#"(it runs on ["push", "workflow_dispatch"])"#,
    );
}

#[test]
fn a_workflow_without_triggers_fires() {
    let xfs = Scratch::xfs().mutate_ci("on:\n", "off:\n");
    fires(
        &xfs.check(),
        "the_gate_workflow_runs_on_pull_request",
        ".github/workflows/ci.yml has no `on:` trigger at all, so it runs for nothing and gates \
         nothing",
    );
}

#[test]
fn pointing_the_gate_at_the_nightly_fuzz_workflow_fires() {
    let scratch = Scratch {
        ci: PARTITIONS_FUZZ.to_string(),
        guard: PARTITIONS_GUARD.to_string(),
    };
    let gate = scratch.gate().workflow(".github/workflows/fuzz.yml");
    assert_eq!(gate.workflow_path(), ".github/workflows/fuzz.yml");
    fires(
        &scratch.check_with(gate),
        "the_gate_workflow_runs_on_pull_request",
        "does not run on `pull_request`",
    );
}

#[test]
fn a_repository_with_no_aggregate_job_fires() {
    let ntfs = Scratch::ntfs();
    fires(
        &ntfs.check(),
        "the_aggregate_job_needs_every_other_job",
        "has no `ci-ok` job, so protection has to name every job by hand",
    );
}

#[test]
fn needing_a_conditional_job_fires() {
    let ntfs = Scratch::ntfs()
        .mutate_ci(
            "jobs:\n",
            "jobs:\n  ci-ok:\n    if: always()\n    needs: [test, integration, asan, changes, \
             validate-mkfs-windows]\n    runs-on: ubuntu-latest\n    steps:\n      - run: true\n",
        )
        .mutate_guard(NTFS_REQUIRED, "\trequired = ci-ok");
    let failures = ntfs.check();
    for job in ["changes", "validate-mkfs-windows"] {
        fires(
            &failures,
            "the_aggregate_job_needs_every_other_job",
            &format!("`{job}` carries [\"if\"] but is not declared non-gating"),
        );
    }
    // Declared, and needed all the same.
    fires(
        &ntfs.check_with(ntfs.gate().non_gating(&["changes", "validate-mkfs-windows"])),
        "the_aggregate_job_needs_every_other_job",
        "`ci-ok` needs `changes`, which carries [\"if\"] and is declared non-gating.",
    );
}

#[test]
fn declaring_the_conditional_jobs_non_gating_passes() {
    let ntfs = Scratch::ntfs()
        .mutate_ci(
            "jobs:\n",
            "jobs:\n  ci-ok:\n    if: always()\n    needs: [test, integration, asan]\n    \
             runs-on: ubuntu-latest\n    steps:\n      - run: true\n",
        )
        .mutate_guard(NTFS_REQUIRED, "\trequired = ci-ok");
    let failures = ntfs.check_with(
        ntfs.gate()
            .non_gating(&["changes", "validate-mkfs-windows"]),
    );
    assert!(
        failures.is_empty(),
        "a declared, genuinely conditional job is the supported shape: {failures:#?}"
    );
    // Left out of `needs:` without a word.
    fires(
        &ntfs.check(),
        "the_aggregate_job_needs_every_other_job",
        "It is already out of `needs:`, so it gates nothing",
    );
}

#[test]
fn exempting_a_job_that_is_not_conditional_fires() {
    let partitions = Scratch::partitions().mutate_ci(
        "needs: [test, test-release, oracle, fmt]",
        "needs: [test, test-release, fmt]",
    );
    fires(
        &partitions.check_with(partitions.gate().non_gating(&["oracle"])),
        "the_aggregate_job_needs_every_other_job",
        "`oracle` is declared non-gating but carries none of",
    );
}

#[test]
fn exempting_a_job_that_is_not_there_fires() {
    let xfs = Scratch::xfs();
    fires(
        &xfs.check_with(xfs.gate().non_gating(&["asan"])),
        "the_aggregate_job_needs_every_other_job",
        "`asan` is declared non-gating but is not a job in",
    );
}

#[test]
fn a_continue_on_error_job_inside_needs_fires() {
    let partitions = Scratch::partitions()
        .mutate_ci("  oracle:\n", "  oracle:\n    continue-on-error: true\n");
    fires(
        &partitions.check(),
        "the_aggregate_job_needs_every_other_job",
        "`oracle` carries [\"continue-on-error\"] but is not declared non-gating",
    );
}

#[test]
fn a_missing_input_fires_rather_than_passing() {
    let xfs = Scratch::xfs();
    fires(
        &xfs.gate().check(Ok(&xfs.ci), Err("No such file or directory")),
        "protection_requires_the_aggregate_and_nothing_else",
        "nothing in the repository knows what it says",
    );

    let partitions = Scratch::partitions();
    fires(
        &partitions
            .gate()
            .check(Err("No such file or directory"), Ok(&partitions.guard)),
        "the_gate_workflow_exists",
        "there is nothing requiring anything",
    );
}

#[test]
fn an_empty_workflow_fires() {
    let xfs = Scratch::xfs();
    let failures = xfs.gate().check(Ok(""), Ok(&xfs.guard));
    assert_eq!(failures.len(), 1);
    assert_eq!(
        failures[0].message(),
        "the_gate_workflow_exists: .github/workflows/ci.yml is empty"
    );
}

#[test]
fn a_workflow_that_does_not_parse_fires() {
    let xfs = Scratch::xfs().mutate_ci("jobs:\n", "jobs:\n  - [unclosed\n");
    fires(
        &xfs.check(),
        "the_gate_workflow_exists",
        "a file it cannot parse is a failure and never a pass",
    );
}

#[test]
#[should_panic(expected = "the CI gate is not holding")]
fn verify_panics_on_a_broken_configuration() {
    let partitions =
        Scratch::partitions().mutate_guard("\trequired = ci-ok", "\trequired = fmt");
    if let Err(report) = partitions
        .gate()
        .verify(Ok(&partitions.ci), Ok(&partitions.guard))
    {
        panic!("{report}");
    }
}

#[test]
fn the_report_lists_one_failure_to_a_line() {
    let gate = AggregateGate::new("/repo").workflow("w.yml").aggregate("all");
    let report = gate
        .verify(Ok("on: pull_request"), Err("gone"))
        .expect_err("nothing holds");
    let lines: Vec<&str> = report.split('\n').collect();
    assert_eq!(lines[0], "the CI gate is not holding in /repo:");
    assert_eq!(
        lines[2],
        "  - the_aggregate_job_needs_every_other_job: w.yml has no `all` job, so protection has \
         to name every job by hand -- and that list drifts the moment one is renamed, split or \
         added. Jobs present: []"
    );
    assert!(lines[3].starts_with("  - protection_requires_the_aggregate_and_nothing_else: cannot"));
    assert!(lines[5].starts_with("Each of these is a way for a job to stop gating a merge"));
}

#[test]
fn every_failure_is_reported_together() {
    let xfs = Scratch::xfs()
        .mutate_ci(
            "    if: always()\n    needs: [unit, fixtures, test, test-arm64, test-darwin, suite-in-vm]",
            "    needs: [unit, fixtures, test, test-arm64, suite-in-vm]",
        )
        .mutate_guard("\trequired = ci-ok", "\trequired = fmt");
    let failures = xfs.check();
    let checks: Vec<_> = failures.iter().map(|f| f.check).collect();
    for expected in [
        "the_aggregate_job_needs_every_other_job",
        "the_aggregate_runs_whatever_happened",
        "protection_requires_the_aggregate_and_nothing_else",
    ] {
        assert!(
            checks.contains(&expected),
            "three separate things are wrong and only {checks:?} was reported"
        );
    }
}

#[test]
fn the_guard_file_is_read_as_git_config() {
    assert_eq!(required_checks(""), Vec::<String>::new());
    assert_eq!(
        required_checks("[Checks]\r\n  Required = ci-ok ; the aggregate\r\n"),
        vec!["ci-ok"]
    );
    assert_eq!(
        required_checks("[checks]\nrequired = \"a # b\" and more\nREQUIRED=c#d\nrequired =\n"),
        vec!["a # b", "c"]
    );
    assert_eq!(
        required_checks("required = before\n[other]\nrequired = x\n[ CHECKS ]\nrequired = y"),
        vec!["y"]
    );
    assert_eq!(
        required_checks("[checks]\n# required = a\n ; required = b\nrequires = c\nrequired d\n"),
        Vec::<String>::new()
    );
    assert_eq!(required_checks("[checks\nrequired = a\n"), Vec::<String>::new());
    assert_eq!(
        required_checks("\u{a0}[checks]\u{2003}\n\u{3000}required\u{85}= x\u{2028}"),
        vec!["x"]
    );
    assert_eq!(required_checks("[chec\u{212a}s]\nrequired = k"), vec!["k"]);
}

#[test]
fn a_line_is_nothing_a_section_or_a_setting() {
    let chars = |s: &str| s.chars().collect::<Vec<char>>();
    assert!(matches!(read_line(&chars("  # note")), Line::Nothing));
    assert!(matches!(read_line(&chars("[")), Line::Nothing));
    match read_line(&chars(" [ Checks ] ")) {
        Line::Section(name) => assert_eq!(name, chars("Checks")),
        _ => panic!("a section"),
    }
    match read_line(&chars("required = a = b")) {
        Line::Setting(key, value) => {
            assert_eq!(key, chars("required"));
            assert_eq!(value, chars("a = b"));
        }
        _ => panic!("a setting"),
    }
    assert_eq!(read_value(&chars("\"unclosed")), "unclosed");
    assert_eq!(read_value(&chars("a;b#c")), "a");
    assert_eq!(
        setting_requires("checks", &chars("ReQuired"), &chars("x")),
        Some("x".to_string())
    );
    assert_eq!(setting_requires("Checks", &chars("required"), &chars("x")), None);
    assert_eq!(setting_requires("checks", &chars("required"), &chars("\"\"")), None);
}

#[test]
fn the_three_spellings_of_triggers_mean_the_same() {
    for text in ["on: a", "on: [a]", "on:\n  - a", "on:\n  a:\n    branches: [b]"] {
        let doc = parse(text).unwrap().unwrap();
        let on = doc.field("on").expect("a trigger");
        assert_eq!(trigger_names(on), vec!["a"], "{text}");
    }
    let doc = parse("needs: [a, 1, b, [c]]\nother: {x: 1}\ntrue: 2").unwrap().unwrap();
    assert_eq!(string_list(doc.field("needs").unwrap()), vec!["a", "b"]);
    assert!(string_list(doc.field("other").unwrap()).is_empty());
    assert!(doc.field("true").is_none(), "a boolean key is not that text");
    assert!(matches!(parse(""), Ok(None)));
    assert!(parse("a: [").is_err());
}

#[test]
fn documents_are_read_node_by_node() {
    let doc = parse("s: text\nb: false\ni: -7\nf: 1.5\nn: ~\nl: [x, 2]\nm: {k: v}\n---\nsecond")
        .unwrap()
        .unwrap();
    assert!(matches!(doc.field("s"), Some(Node::Text(t)) if t == "text"));
    assert!(matches!(doc.field("b"), Some(Node::Bool(false))));
    assert!(matches!(doc.field("i"), Some(Node::Integer(-7))));
    assert!(matches!(doc.field("f"), Some(Node::Other)));
    assert!(matches!(doc.field("n"), Some(Node::Other)));
    match doc.field("l") {
        Some(Node::List(items)) => {
            assert_eq!(items.len(), 2);
            assert!(items[0].is_text("x"));
            assert!(matches!(items[1], Node::Integer(2)));
        }
        _ => panic!("a sequence"),
    }
    match doc.field("m") {
        Some(Node::Table(rows)) => {
            assert_eq!(rows.len(), 1);
            assert!(rows[0].0.is_text("k"));
            assert!(rows[0].1.is_text("v"));
        }
        _ => panic!("a mapping"),
    }
}

#[test]
fn a_new_gate_has_the_shared_names() {
    let gate = AggregateGate::new("/repo");
    assert_eq!(gate.repo(), "/repo");
    assert_eq!(gate.workflow_path(), ".github/workflows/ci.yml");
    assert_eq!(gate.guard_path(), ".github-guard");
}

#[test]
fn a_comment_or_a_blank_line_requires_nothing_wherever_it_stands() {
    let plain = "[checks]\n  required = one\n  required = two";
    assert_eq!(required_checks(plain), vec!["one".to_string(), "two".to_string()]);
    for line in ["# required = three", "  ; required = three", "", "   \t"] {
        assert_eq!(required_checks(line), Vec::<String>::new());
        for text in [
            format!("{line}\n{plain}"),
            format!("{plain}\n{line}"),
            format!("[checks]\n{line}\n  required = one\n  required = two"),
            format!("[checks]\n  required = one\n{line}\n  required = two"),
        ] {
            assert_eq!(required_checks(&text), required_checks(plain), "{text:?}");
        }
    }
}
