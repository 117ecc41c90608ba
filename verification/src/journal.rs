//! The log of a one-candidate campaign, line by line.
use crate::campaign::{
    bool_text, compared_text, decision_text, failure_text, gate_name, header_of,
    is_on_one_line, stopped_text, work_text, Compared, Gate,
};
use crate::config::Settings;
use crate::text::{
    all_decimal, decimal, joined, joined_parts_are_split, lacks, lemma_decimal_lacks,
    lemma_joined_lacks, list_of_numbers, quoted, split_on,
};
use vstd::prelude::*;

verus! {

/// Whether `text` is made of `lines`, each with a line break behind it.
spec fn is_made_of(text: Seq<char>, lines: Seq<Seq<char>>) -> bool {
    &&& text == joined(lines.push(Seq::empty()), seq!['\n'])
    &&& forall|i: int| 0 <= i < lines.len() ==> lacks(#[trigger] lines[i], '\n')
}

proof fn lemma_no_lines()
    ensures
        is_made_of(Seq::empty(), Seq::empty()),
{
    let one = Seq::<Seq<char>>::empty().push(Seq::empty());
    assert(one.len() == 1 && one[0] == Seq::<char>::empty());
}

#[verifier::spinoff_prover]
#[verifier::rlimit(40)]
proof fn lemma_line_more(text: Seq<char>, lines: Seq<Seq<char>>, line: Seq<char>)
    requires
        is_made_of(text, lines),
        lacks(line, '\n'),
    ensures
        is_made_of(text + line + seq!['\n'], lines.push(line)),
{
    let nl = seq!['\n'];
    let none = Seq::<char>::empty();
    let more = lines.push(line);
    let last = more.push(none);
    let before = lines.push(none);
    assert(last.drop_last() =~= more);
    assert(before.drop_last() =~= lines);
    assert(more.drop_last() =~= lines);
    assert(joined(last, nl) == joined(more, nl) + nl + none);
    if lines.len() == 0 {
        assert(joined(before, nl) =~= none);
        assert(joined(more, nl) =~= text + line);
    } else {
        assert(joined(before, nl) =~= joined(lines, nl) + nl);
        assert(joined(more, nl) =~= text + line);
    }
    assert(joined(last, nl) =~= text + line + nl);
    assert forall|i: int| 0 <= i < more.len() implies lacks(#[trigger] more[i], '\n') by {
        if i < lines.len() {
            assert(more[i] == lines[i]);
        }
    }
}

proof fn lemma_lines_split(text: Seq<char>, lines: Seq<Seq<char>>)
    requires
        is_made_of(text, lines),
    ensures
        split_on(text, '\n') == lines.push(Seq::empty()),
{
    let parts = lines.push(Seq::empty());
    assert forall|i: int| 0 <= i < parts.len() implies lacks(#[trigger] parts[i], '\n') by {
        if i < lines.len() {
            assert(parts[i] == lines[i]);
        }
    }
    joined_parts_are_split(parts, '\n');
}

proof fn lemma_lacks_add(a: Seq<char>, b: Seq<char>)
    requires
        lacks(a, '\n'),
        lacks(b, '\n'),
    ensures
        lacks(a + b, '\n'),
{
    assert forall|i: int| 0 <= i < (a + b).len() implies #[trigger] (a + b)[i] != '\n' by {
        if i < a.len() {
            assert((a + b)[i] == a[i]);
        } else {
            assert((a + b)[i] == b[i - a.len()]);
        }
    }
}

/// The gates are logged on one line, what is decided on the next.
#[verifier::spinoff_prover]
#[verifier::rlimit(40)]
pub proof fn gates_are_logged_line_by_line(main: Gate, path: Gate)
    ensures
        ({
            let lines = split_on(stopped_text(main, path), '\n');
            &&& lines.len() == 3
            &&& lines[0] == "gate: main="@ + gate_name(main) + " pathological="@ + gate_name(path)
            &&& lines[1] == (if main is Broken || path is Broken {
                "Decision: none (operational failure of the equivalence gate)"@
            } else {
                "Decision: rejected (equivalence gate)"@
            })
            &&& lines[2] == Seq::<char>::empty()
        }),
{
    let nl = seq!['\n'];
    let none = Seq::<char>::empty();
    reveal_strlit("\n");
    reveal_strlit("PASS");
    reveal_strlit("FAIL");
    reveal_strlit("ERROR");
    reveal_strlit("gate: main=");
    reveal_strlit(" pathological=");
    reveal_strlit("Decision: none (operational failure of the equivalence gate)");
    reveal_strlit("Decision: none (operational failure of the equivalence gate)\n");
    reveal_strlit("Decision: rejected (equivalence gate)");
    reveal_strlit("Decision: rejected (equivalence gate)\n");
    let first = "gate: main="@ + gate_name(main) + " pathological="@ + gate_name(path);
    let second = if main is Broken || path is Broken {
        "Decision: none (operational failure of the equivalence gate)"@
    } else {
        "Decision: rejected (equivalence gate)"@
    };
    lemma_lacks_add("gate: main="@, gate_name(main));
    lemma_lacks_add("gate: main="@ + gate_name(main), " pathological="@);
    lemma_lacks_add("gate: main="@ + gate_name(main) + " pathological="@, gate_name(path));
    assert("\n"@ =~= nl);
    assert("Decision: none (operational failure of the equivalence gate)\n"@
        =~= "Decision: none (operational failure of the equivalence gate)"@ + nl);
    assert("Decision: rejected (equivalence gate)\n"@ =~= "Decision: rejected (equivalence gate)"@
        + nl);
    lemma_no_lines();
    lemma_line_more(none, Seq::empty(), first);
    let one = none + first + nl;
    let lines = Seq::<Seq<char>>::empty().push(first);
    lemma_line_more(one, lines, second);
    assert(stopped_text(main, path) =~= one + second + nl);
    lemma_lines_split(one + second + nl, lines.push(second));
}

proof fn lemma_compared_line(workload: Seq<char>, c: Compared) -> (line: Seq<char>)
    requires
        lacks(workload, '\n'),
        is_on_one_line(Ok(c)),
    ensures
        line == workload + ": lower_95_ratio="@ + c.lower_95_ratio@ + " speedup_percent="@
            + c.speedup_percent@ + " evidence="@ + c.evidence@,
        compared_text(workload, c) == line + seq!['\n'],
        lacks(line, '\n'),
{
    reveal_strlit("\n");
    reveal_strlit(": lower_95_ratio=");
    reveal_strlit(" speedup_percent=");
    reveal_strlit(" evidence=");
    assert("\n"@ =~= seq!['\n']);
    let a = workload + ": lower_95_ratio="@;
    lemma_lacks_add(workload, ": lower_95_ratio="@);
    let b = a + c.lower_95_ratio@;
    lemma_lacks_add(a, c.lower_95_ratio@);
    let d = b + " speedup_percent="@;
    lemma_lacks_add(b, " speedup_percent="@);
    let e = d + c.speedup_percent@;
    lemma_lacks_add(d, c.speedup_percent@);
    let f = e + " evidence="@;
    lemma_lacks_add(e, " evidence="@);
    lemma_lacks_add(f, c.evidence@);
    f + c.evidence@
}

/// Two comparisons are logged each on a line of its own, the main one first, and what is
/// decided on the next, with what came of each.
#[verifier::spinoff_prover]
#[verifier::rlimit(40)]
pub proof fn comparisons_are_logged_line_by_line(m: Compared, p: Compared)
    requires
        is_on_one_line(Ok(m)),
        is_on_one_line(Ok(p)),
    ensures
        ({
            let lines = split_on(decision_text(Ok(m), Ok(p)), '\n');
            &&& lines.len() == 4
            &&& lines[0] == "main"@ + ": lower_95_ratio="@ + m.lower_95_ratio@
                + " speedup_percent="@ + m.speedup_percent@ + " evidence="@ + m.evidence@
            &&& lines[1] == "pathological"@ + ": lower_95_ratio="@ + p.lower_95_ratio@
                + " speedup_percent="@ + p.speedup_percent@ + " evidence="@ + p.evidence@
            &&& lines[2] == "Decision: "@ + (if m.faster && p.faster {
                "promoted"@
            } else {
                "rejected"@
            }) + " (main_95>1="@ + bool_text(m.faster) + " pathological_95>1="@ + bool_text(
                p.faster,
            ) + ")"@
            &&& lines[3] == Seq::<char>::empty()
            &&& bool_text(true) == "true"@
            &&& bool_text(false) == "false"@
        }),
{
    let nl = seq!['\n'];
    let none = Seq::<char>::empty();
    reveal_strlit("main");
    reveal_strlit("pathological");
    reveal_strlit("Decision: ");
    reveal_strlit("promoted");
    reveal_strlit("rejected");
    reveal_strlit(" (main_95>1=");
    reveal_strlit(" pathological_95>1=");
    reveal_strlit("true");
    reveal_strlit("false");
    reveal_strlit(")");
    reveal_strlit(")\n");
    assert(")\n"@ =~= ")"@ + nl);
    let first = lemma_compared_line("main"@, m);
    let second = lemma_compared_line("pathological"@, p);
    let word = if m.faster && p.faster {
        "promoted"@
    } else {
        "rejected"@
    };
    let a = "Decision: "@ + word;
    lemma_lacks_add("Decision: "@, word);
    let b = a + " (main_95>1="@;
    lemma_lacks_add(a, " (main_95>1="@);
    let c = b + bool_text(m.faster);
    lemma_lacks_add(b, bool_text(m.faster));
    let d = c + " pathological_95>1="@;
    lemma_lacks_add(c, " pathological_95>1="@);
    let e = d + bool_text(p.faster);
    lemma_lacks_add(d, bool_text(p.faster));
    let third = e + ")"@;
    lemma_lacks_add(e, ")"@);
    lemma_no_lines();
    lemma_line_more(none, Seq::empty(), first);
    let t1 = none + first + nl;
    let l1 = Seq::<Seq<char>>::empty().push(first);
    lemma_line_more(t1, l1, second);
    let t2 = t1 + second + nl;
    let l2 = l1.push(second);
    lemma_line_more(t2, l2, third);
    let t3 = t2 + third + nl;
    let l3 = l2.push(third);
    assert(t2 =~= compared_text("main"@, m) + compared_text("pathological"@, p));
    assert(t2 + "Decision: "@ + word + " (main_95>1="@ + bool_text(m.faster)
        + " pathological_95>1="@ + bool_text(p.faster) =~= t2 + e);
    assert(t2 + e + ")\n"@ =~= t3);
    assert(decision_text(Ok(m), Ok(p)) == t3);
    lemma_lines_split(t3, l3);
}

/// Comparisons of which one did not work are logged on one line, with what went wrong in each.
pub proof fn failures_are_logged_on_one_line(
    main: Result<Compared, String>,
    path: Result<Compared, String>,
)
    requires
        main is Err || path is Err,
    ensures
        decision_text(main, path) == "Decision: none (paired run failed: main_err="@
            + failure_text(main) + " path_err="@ + failure_text(path) + ")\n"@,
        main is Ok ==> failure_text(main) == "None"@,
        main matches Err(e) ==> failure_text(main) == "Some("@ + quoted(e@) + ")"@,
        path is Ok ==> failure_text(path) == "None"@,
        path matches Err(e) ==> failure_text(path) == "Some("@ + quoted(e@) + ")"@,
{
}

#[verifier::spinoff_prover]
#[verifier::rlimit(40)]
proof fn lemma_plan_line(s: Settings) -> (line: Seq<char>)
    ensures
        line == "PLAN: measure=scan main"@ + work_text(
            s.main_count,
            s.main_sessions,
            s.main_blocks,
        ) + " pathological"@ + work_text(s.path_count, s.path_sessions, s.path_blocks)
            + " order_seed="@ + decimal(s.order_seed as nat) + " seeds="@ + list_of_numbers(
            s.seeds,
        ),
        lacks(line, '\n'),
{
    reveal_strlit("PLAN: measure=scan main");
    reveal_strlit(" pathological");
    reveal_strlit(" order_seed=");
    reveal_strlit(" seeds=");
    let w1 = work_text(s.main_count, s.main_sessions, s.main_blocks);
    let w2 = work_text(s.path_count, s.path_sessions, s.path_blocks);
    lemma_work_line(s.main_count, s.main_sessions, s.main_blocks);
    lemma_work_line(s.path_count, s.path_sessions, s.path_blocks);
    lemma_seeds_line(s.seeds);
    lemma_decimal_lacks(s.order_seed as nat, '\n');
    let a = "PLAN: measure=scan main"@ + w1;
    lemma_lacks_add("PLAN: measure=scan main"@, w1);
    let b = a + " pathological"@;
    lemma_lacks_add(a, " pathological"@);
    let c = b + w2;
    lemma_lacks_add(b, w2);
    let d = c + " order_seed="@;
    lemma_lacks_add(c, " order_seed="@);
    let e = d + decimal(s.order_seed as nat);
    lemma_lacks_add(d, decimal(s.order_seed as nat));
    let f = e + " seeds="@;
    lemma_lacks_add(e, " seeds="@);
    lemma_lacks_add(f, list_of_numbers(s.seeds));
    f + list_of_numbers(s.seeds)
}

proof fn lemma_work_line(count: u64, sessions: u64, blocks: usize)
    ensures
        lacks(work_text(count, sessions, blocks), '\n'),
{
    reveal_strlit("(count=");
    reveal_strlit(" sessions=");
    reveal_strlit(" blocks=");
    reveal_strlit(")");
    lemma_decimal_lacks(count as nat, '\n');
    lemma_decimal_lacks(sessions as nat, '\n');
    lemma_decimal_lacks(blocks as nat, '\n');
    let a = "(count="@ + decimal(count as nat);
    lemma_lacks_add("(count="@, decimal(count as nat));
    let b = a + " sessions="@;
    lemma_lacks_add(a, " sessions="@);
    let c = b + decimal(sessions as nat);
    lemma_lacks_add(b, decimal(sessions as nat));
    let d = c + " blocks="@;
    lemma_lacks_add(c, " blocks="@);
    let e = d + decimal(blocks as nat);
    lemma_lacks_add(d, decimal(blocks as nat));
    lemma_lacks_add(e, ")"@);
}

proof fn lemma_seeds_line(seeds: Seq<u64>)
    ensures
        lacks(list_of_numbers(seeds), '\n'),
{
    reveal_strlit("[");
    reveal_strlit(", ");
    reveal_strlit("]");
    let shown = all_decimal(seeds);
    assert forall|i: int| 0 <= i < shown.len() implies lacks(#[trigger] shown[i], '\n') by {
        lemma_decimal_lacks(seeds[i] as nat, '\n');
    }
    lemma_joined_lacks(shown, ", "@, '\n');
    lemma_lacks_add("["@, joined(shown, ", "@));
    lemma_lacks_add("["@ + joined(shown, ", "@), "]"@);
}

/// The log names the candidate, the scope, the baseline, the hypothesis, the commit and the
/// plan before anything is run, each on a line of its own.
#[verifier::spinoff_prover]
#[verifier::rlimit(40)]
pub proof fn plans_are_logged_line_by_line(s: Settings, commit: Seq<char>, vcpus: Seq<char>)
    requires
        lacks(s.id, '\n'),
        lacks(s.candidate_impl, '\n'),
        lacks(s.baseline_impl, '\n'),
        lacks(s.hypothesis, '\n'),
        lacks(commit, '\n'),
        lacks(vcpus, '\n'),
    ensures
        ({
            let lines = split_on(header_of(s, commit, vcpus), '\n');
            &&& lines.len() == 8
            &&& lines[0] == Seq::<char>::empty()
            &&& lines[1] == "## candidate: "@ + s.id + " ("@ + s.candidate_impl + ")"@
            &&& lines[2] == "scope: "@ + (if s.held_out {
                "held_out_confirmation"@
            } else {
                "exploratory_per_candidate"@
            })
            &&& lines[3] == "baseline_impl: "@ + s.baseline_impl
            &&& lines[4] == "hypothesis: "@ + s.hypothesis
            &&& lines[5] == "commit: "@ + commit + "  vcpus: "@ + vcpus
            &&& lines[6] == "PLAN: measure=scan main"@ + ("(count="@ + decimal(
                s.main_count as nat,
            ) + " sessions="@ + decimal(s.main_sessions as nat) + " blocks="@ + decimal(
                s.main_blocks as nat,
            ) + ")"@) + " pathological"@ + ("(count="@ + decimal(s.path_count as nat)
                + " sessions="@ + decimal(s.path_sessions as nat) + " blocks="@ + decimal(
                s.path_blocks as nat,
            ) + ")"@) + " order_seed="@ + decimal(s.order_seed as nat) + " seeds="@
                + list_of_numbers(s.seeds)
            &&& lines[7] == Seq::<char>::empty()
        }),
{
    let nl = seq!['\n'];
    let none = Seq::<char>::empty();
    let scope = if s.held_out {
        "held_out_confirmation"@
    } else {
        "exploratory_per_candidate"@
    };
    let a = "## candidate: "@ + s.id + " ("@ + s.candidate_impl + ")"@;
    let b = "scope: "@ + scope;
    let c = "baseline_impl: "@ + s.baseline_impl;
    let d = "hypothesis: "@ + s.hypothesis;
    let e = "commit: "@ + commit + "  vcpus: "@ + vcpus;
    let f = lemma_plan_line(s);
    lemma_header_lines(s, commit, vcpus);
    lemma_no_lines();
    lemma_line_more(none, Seq::empty(), none);
    let l0 = Seq::<Seq<char>>::empty().push(none);
    let t0 = none + none + nl;
    lemma_line_more(t0, l0, a);
    let t1 = t0 + a + nl;
    let l1 = l0.push(a);
    lemma_line_more(t1, l1, b);
    let t2 = t1 + b + nl;
    let l2 = l1.push(b);
    lemma_line_more(t2, l2, c);
    let t3 = t2 + c + nl;
    let l3 = l2.push(c);
    lemma_line_more(t3, l3, d);
    let t4 = t3 + d + nl;
    let l4 = l3.push(d);
    lemma_line_more(t4, l4, e);
    let t5 = t4 + e + nl;
    let l5 = l4.push(e);
    lemma_line_more(t5, l5, f);
    let t6 = t5 + f + nl;
    let l6 = l5.push(f);
    lemma_header_parts(s, commit, vcpus, f, t0, t1, t2, t3, t4, t5);
    lemma_lines_split(t6, l6);
}

/// No line of the header has a line break in it.
#[verifier::spinoff_prover]
#[verifier::rlimit(40)]
proof fn lemma_header_lines(s: Settings, commit: Seq<char>, vcpus: Seq<char>)
    requires
        lacks(s.id, '\n'),
        lacks(s.candidate_impl, '\n'),
        lacks(s.baseline_impl, '\n'),
        lacks(s.hypothesis, '\n'),
        lacks(commit, '\n'),
        lacks(vcpus, '\n'),
    ensures
        lacks("## candidate: "@ + s.id + " ("@ + s.candidate_impl + ")"@, '\n'),
        lacks("scope: "@ + "held_out_confirmation"@, '\n'),
        lacks("scope: "@ + "exploratory_per_candidate"@, '\n'),
        lacks("baseline_impl: "@ + s.baseline_impl, '\n'),
        lacks("hypothesis: "@ + s.hypothesis, '\n'),
        lacks("commit: "@ + commit + "  vcpus: "@ + vcpus, '\n'),
{
    reveal_strlit("## candidate: ");
    reveal_strlit(" (");
    reveal_strlit(")");
    reveal_strlit("scope: ");
    reveal_strlit("held_out_confirmation");
    reveal_strlit("exploratory_per_candidate");
    reveal_strlit("baseline_impl: ");
    reveal_strlit("hypothesis: ");
    reveal_strlit("commit: ");
    reveal_strlit("  vcpus: ");
    lemma_lacks_add("## candidate: "@, s.id);
    lemma_lacks_add("## candidate: "@ + s.id, " ("@);
    lemma_lacks_add("## candidate: "@ + s.id + " ("@, s.candidate_impl);
    lemma_lacks_add("## candidate: "@ + s.id + " ("@ + s.candidate_impl, ")"@);
    lemma_lacks_add("scope: "@, "held_out_confirmation"@);
    lemma_lacks_add("scope: "@, "exploratory_per_candidate"@);
    lemma_lacks_add("baseline_impl: "@, s.baseline_impl);
    lemma_lacks_add("hypothesis: "@, s.hypothesis);
    lemma_lacks_add("commit: "@, commit);
    lemma_lacks_add("commit: "@ + commit, "  vcpus: "@);
    lemma_lacks_add("commit: "@ + commit + "  vcpus: "@, vcpus);
}

/// The header is its lines, one behind the other.
#[verifier::spinoff_prover]
#[verifier::rlimit(40)]
proof fn lemma_header_parts(
    s: Settings,
    commit: Seq<char>,
    vcpus: Seq<char>,
    plan: Seq<char>,
    t0: Seq<char>,
    t1: Seq<char>,
    t2: Seq<char>,
    t3: Seq<char>,
    t4: Seq<char>,
    t5: Seq<char>,
)
    requires
        t0 == Seq::<char>::empty() + Seq::<char>::empty() + seq!['\n'],
        t1 == t0 + ("## candidate: "@ + s.id + " ("@ + s.candidate_impl + ")"@) + seq!['\n'],
        t2 == t1 + ("scope: "@ + (if s.held_out {
            "held_out_confirmation"@
        } else {
            "exploratory_per_candidate"@
        })) + seq!['\n'],
        t3 == t2 + ("baseline_impl: "@ + s.baseline_impl) + seq!['\n'],
        t4 == t3 + ("hypothesis: "@ + s.hypothesis) + seq!['\n'],
        t5 == t4 + ("commit: "@ + commit + "  vcpus: "@ + vcpus) + seq!['\n'],
        plan == "PLAN: measure=scan main"@ + work_text(
            s.main_count,
            s.main_sessions,
            s.main_blocks,
        ) + " pathological"@ + work_text(s.path_count, s.path_sessions, s.path_blocks)
            + " order_seed="@ + decimal(s.order_seed as nat) + " seeds="@ + list_of_numbers(
            s.seeds,
        ),
    ensures
        header_of(s, commit, vcpus) == t5 + plan + seq!['\n'],
{
    let scope = if s.held_out {
        "held_out_confirmation"@
    } else {
        "exploratory_per_candidate"@
    };
    lemma_openings_broken();
    assert("\n## candidate: "@ =~= t0 + "## candidate: "@);
    let a = "\n## candidate: "@ + s.id + " ("@ + s.candidate_impl + ")\nscope: "@;
    assert(a =~= t1 + "scope: "@);
    let b = a + scope + "\nbaseline_impl: "@;
    assert(b =~= t2 + "baseline_impl: "@);
    let c = b + s.baseline_impl + "\nhypothesis: "@;
    assert(c =~= t3 + "hypothesis: "@);
    let d = c + s.hypothesis + "\ncommit: "@;
    assert(d =~= t4 + "commit: "@);
    let e = d + commit + "  vcpus: "@ + vcpus + "\nPLAN: measure=scan main"@;
    assert(e =~= t5 + "PLAN: measure=scan main"@);
    let w1 = work_text(s.main_count, s.main_sessions, s.main_blocks);
    let w2 = work_text(s.path_count, s.path_sessions, s.path_blocks);
    let f = e + w1 + " pathological"@ + w2;
    assert(f =~= t5 + ("PLAN: measure=scan main"@ + w1 + " pathological"@ + w2));
    let g = f + " order_seed="@ + decimal(s.order_seed as nat) + " seeds="@ + list_of_numbers(
        s.seeds,
    );
    assert(g =~= t5 + plan);
    assert(header_of(s, commit, vcpus) == g + "\n"@);
}

/// Where the openings of the lines of the header are broken.
#[verifier::spinoff_prover]
#[verifier::rlimit(40)]
proof fn lemma_openings_broken()
    ensures
        "\n"@ == seq!['\n'],
        "\n## candidate: "@ == seq!['\n'] + "## candidate: "@,
        ")\nscope: "@ == ")"@ + seq!['\n'] + "scope: "@,
        "\nbaseline_impl: "@ == seq!['\n'] + "baseline_impl: "@,
        "\nhypothesis: "@ == seq!['\n'] + "hypothesis: "@,
        "\ncommit: "@ == seq!['\n'] + "commit: "@,
        "\nPLAN: measure=scan main"@ == seq!['\n'] + "PLAN: measure=scan main"@,
{
    reveal_strlit("\n");
    reveal_strlit("\n## candidate: ");
    reveal_strlit("## candidate: ");
    reveal_strlit(")\nscope: ");
    reveal_strlit(")");
    reveal_strlit("scope: ");
    reveal_strlit("\nbaseline_impl: ");
    reveal_strlit("baseline_impl: ");
    reveal_strlit("\nhypothesis: ");
    reveal_strlit("hypothesis: ");
    reveal_strlit("\ncommit: ");
    reveal_strlit("commit: ");
    reveal_strlit("\nPLAN: measure=scan main");
    reveal_strlit("PLAN: measure=scan main");
    assert("\n"@ =~= seq!['\n']);
    assert("\n## candidate: "@ =~= seq!['\n'] + "## candidate: "@);
    assert(")\nscope: "@ =~= ")"@ + seq!['\n'] + "scope: "@);
    assert("\nbaseline_impl: "@ =~= seq!['\n'] + "baseline_impl: "@);
    assert("\nhypothesis: "@ =~= seq!['\n'] + "hypothesis: "@);
    assert("\ncommit: "@ =~= seq!['\n'] + "commit: "@);
    assert("\nPLAN: measure=scan main"@ =~= seq!['\n'] + "PLAN: measure=scan main"@);
}

}
