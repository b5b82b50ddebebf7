//! One scan over one text snapshot: normalize, run all five detectors,
//! score.

use vstd::prelude::*;
use crate::normalization::{normalize_input, norm_spec};
use crate::categories::{
    CategoryResult, detect_instruction_override, detect_system_prompt_extraction,
    detect_tool_escalation, detect_privilege_escalation, detect_encoding_evasion,
    instruction_override_matches, prompt_extraction_matches, tool_escalation_matches,
    privilege_escalation_matches, encoding_evasion_triggered,
};
use crate::scoring::{
    ScanResult, compute_score, severity_name_of, band_rank, weights_sum, critical_count,
    total_score_spec, is_critical_name,
};
use crate::min_int;

verus! {

/// The total score of one scan of (already normalized) text, in
/// hundredths: the clamped sum of the triggered categories' weights,
/// forced to the full score when prompt extraction and tool escalation
/// fire together.
pub open spec fn scan_total_spec(n: Seq<char>) -> int {
    if prompt_extraction_matches(n) > 0 && tool_escalation_matches(n) > 0 {
        100
    } else {
        min_int(
            (if instruction_override_matches(n) > 0 {
                30int
            } else {
                0int
            }) + (if prompt_extraction_matches(n) > 0 {
                35int
            } else {
                0int
            }) + (if tool_escalation_matches(n) > 0 {
                40int
            } else {
                0int
            }) + (if privilege_escalation_matches(n) > 0 {
                25int
            } else {
                0int
            }) + (if encoding_evasion_triggered(n) {
                20int
            } else {
                0int
            }),
            100,
        )
    }
}

/// The severity rank a scan of raw text yields, after normalization.
pub open spec fn scan_rank_spec(raw: Seq<char>) -> int {
    band_rank(scan_total_spec(norm_spec(raw)))
}

/// Normalizes the raw text, runs every detector on the normal form, and
/// scores the verdicts.
#[verifier::rlimit(60)]
pub fn scan_input(raw_input: &str) -> (r: ScanResult)
    ensures
        r.total_score == scan_total_spec(norm_spec(raw_input@)),
        0 <= r.total_score <= 100,
        r.severity@ == severity_name_of(scan_total_spec(norm_spec(raw_input@))),
        r.exit_code == scan_rank_spec(raw_input@),
        r.categories@.len() == 5,
        r.categories@[0].name@ == "Instruction Override"@ && r.categories@[0].weight == 30
            && r.categories@[0].triggered == (instruction_override_matches(norm_spec(raw_input@))
            > 0),
        r.categories@[1].name@ == "System Prompt Extraction"@ && r.categories@[1].weight == 35
            && r.categories@[1].triggered == (prompt_extraction_matches(norm_spec(raw_input@))
            > 0),
        r.categories@[2].name@ == "Tool Invocation Escalation"@ && r.categories@[2].weight == 40
            && r.categories@[2].triggered == (tool_escalation_matches(norm_spec(raw_input@)) > 0),
        r.categories@[3].name@ == "Privilege Escalation"@ && r.categories@[3].weight == 25
            && r.categories@[3].triggered == (privilege_escalation_matches(norm_spec(raw_input@))
            > 0),
        r.categories@[4].name@ == "Encoding Evasion Indicators"@ && r.categories@[4].weight == 20
            && r.categories@[4].triggered == encoding_evasion_triggered(norm_spec(raw_input@)),
{
    let normalized = normalize_input(raw_input);
    let ghost n = norm_spec(raw_input@);

    let mut results: Vec<CategoryResult> = Vec::new();

    results.push(detect_instruction_override(normalized.as_str()));
    results.push(detect_system_prompt_extraction(normalized.as_str()));
    results.push(detect_tool_escalation(normalized.as_str()));
    results.push(detect_privilege_escalation(normalized.as_str()));
    results.push(detect_encoding_evasion(normalized.as_str()));

    proof {
        broadcast use vstd::string::group_string_axioms;

        let cats = results@;
        assert(cats.drop_last() =~= cats.subrange(0, 4));
        assert(cats.subrange(0, 4).drop_last() =~= cats.subrange(0, 3));
        assert(cats.subrange(0, 3).drop_last() =~= cats.subrange(0, 2));
        assert(cats.subrange(0, 2).drop_last() =~= cats.subrange(0, 1));
        assert(cats.subrange(0, 1).drop_last() =~= cats.subrange(0, 0));
        reveal_strlit("Instruction Override");
        reveal_strlit("System Prompt Extraction");
        reveal_strlit("Tool Invocation Escalation");
        reveal_strlit("Privilege Escalation");
        reveal_strlit("Encoding Evasion Indicators");
        reveal_with_fuel(weights_sum, 8);
        reveal_with_fuel(critical_count, 8);
        assert(cats.subrange(0, 0).len() == 0);
        assert(weights_sum(cats) == (if instruction_override_matches(n) > 0 {
            30int
        } else {
            0int
        }) + (if prompt_extraction_matches(n) > 0 {
            35int
        } else {
            0int
        }) + (if tool_escalation_matches(n) > 0 {
            40int
        } else {
            0int
        }) + (if privilege_escalation_matches(n) > 0 {
            25int
        } else {
            0int
        }) + (if encoding_evasion_triggered(n) {
            20int
        } else {
            0int
        }));
        assert(normalized@ == n);
        assert(cats[1].triggered == (prompt_extraction_matches(n) > 0));
        assert(cats[2].triggered == (tool_escalation_matches(n) > 0));
        assert("Instruction Override"@.len() == 20);
        assert("System Prompt Extraction"@.len() == 24);
        assert("Tool Invocation Escalation"@.len() == 26);
        assert("Privilege Escalation"@.len() == 20);
        assert("Encoding Evasion Indicators"@.len() == 27);
        assert(!is_critical_name(cats[0].name@));
        assert(is_critical_name(cats[1].name@));
        assert(is_critical_name(cats[2].name@));
        assert(!is_critical_name(cats[3].name@));
        assert(!is_critical_name(cats[4].name@));
        assert(critical_count(cats.subrange(0, 1)) == 0);
        assert(critical_count(cats.subrange(0, 2)) == critical_count(cats.subrange(0, 1)) + (
        if cats[1].triggered {
            1int
        } else {
            0int
        }));
        assert(critical_count(cats.subrange(0, 3)) == critical_count(cats.subrange(0, 2)) + (
        if cats[2].triggered {
            1int
        } else {
            0int
        }));
        assert(critical_count(cats.subrange(0, 4)) == critical_count(cats.subrange(0, 3)));
        assert(critical_count(cats) == critical_count(cats.subrange(0, 4)));
        assert(critical_count(cats) == (if prompt_extraction_matches(n) > 0 {
            1int
        } else {
            0int
        }) + (if tool_escalation_matches(n) > 0 {
            1int
        } else {
            0int
        }));
        assert(total_score_spec(cats) == scan_total_spec(n));
    }
    compute_score(results)
}

} // verus!
