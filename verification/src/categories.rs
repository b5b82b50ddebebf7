//! Five independent category detectors. Each combines regular-expression
//! pattern matches with a keyword-cluster heuristic: two or more keywords
//! of a fixed set anywhere in the text count as one synthetic extra match.

use vstd::prelude::*;
use crate::text::{contains_sub, contains_substr, chars_of};
use crate::entropy::{high_entropy, high_entropy_spec};

verus! {

/// One detector's verdict for one scan.
pub struct CategoryResult {
    pub name: String,
    pub triggered: bool,
    pub match_count: usize,
    /// static weight in hundredths
    pub weight: u32,
}

/// How many successive non-overlapping matches `pat` has in `text` under
/// the `regex` crate's semantics (zero for an unparsable pattern).
pub uninterp spec fn regex_count_of(pat: Seq<char>, text: Seq<char>) -> nat;

/// Relies on `regex::Regex::new` and `Regex::find_iter`: the number of
/// successive non-overlapping matches of the pattern in the text, a
/// function of the two strings alone; a pattern that does not parse
/// counts as zero.
#[verifier::external_body]
fn regex_count(pat: &str, text: &str) -> (r: usize)
    ensures
        r == regex_count_of(pat@, text@),
{
    match regex::Regex::new(pat) {
        Ok(re) => re.find_iter(text).count(),
        Err(_) => 0,
    }
}

/// How many of the keywords occur somewhere in the text.
pub open spec fn cluster_count(t: Seq<char>, kws: Seq<Seq<char>>) -> int
    decreases kws.len(),
{
    if kws.len() == 0 {
        0
    } else {
        cluster_count(t, kws.drop_last()) + if contains_sub(t, kws.last()) {
            1int
        } else {
            0int
        }
    }
}

/// Counts the keywords that occur somewhere in the input.
pub fn keyword_cluster_score(input: &Vec<char>, keywords: &Vec<&str>) -> (r: usize)
    ensures
        r == cluster_count(input@, keywords@.map_values(|k: &str| k@)),
{
    let mut r: usize = 0;
    let mut i: usize = 0;
    while i < keywords.len()
        invariant
            i <= keywords@.len(),
            r == cluster_count(input@, keywords@.subrange(0, i as int).map_values(|k: &str| k@)),
            r <= i,
        decreases keywords@.len() - i,
    {
        proof {
            assert(keywords@.subrange(0, i + 1 as int).map_values(|k: &str| k@).drop_last()
                =~= keywords@.subrange(0, i as int).map_values(|k: &str| k@));
            assert(keywords@.subrange(0, i + 1 as int).map_values(|k: &str| k@).last()
                == keywords@[i as int]@);
        }
        if contains_substr(input, keywords[i]) {
            r = r + 1;
        }
        i = i + 1;
    }
    proof {
        assert(keywords@.subrange(0, keywords@.len() as int) =~= keywords@);
    }
    r
}

/// Sum saturating at the machine limit; the synthetic keyword bonus can
/// never push a zero count above zero or lose a positive one.
pub open spec fn sat_usize(v: int) -> int {
    if v <= usize::MAX as int {
        v
    } else {
        usize::MAX as int
    }
}

fn sat_add(a: usize, b: usize) -> (r: usize)
    ensures
        r == sat_usize(a + b),
{
    if a <= usize::MAX - b {
        a + b
    } else {
        usize::MAX
    }
}

// Pattern tables, one spec name per regular expression.
pub open spec fn pat_ignore_instructions() -> Seq<char> {
    "\\bignore (all )?(previous|earlier) instructions\\b"@
}

pub open spec fn pat_override_instructions() -> Seq<char> {
    "\\boverride (system )?instructions\\b"@
}

pub open spec fn pat_reveal() -> Seq<char> {
    "\\breveal\\b.*\\b(system|internal|hidden)\\b"@
}

pub open spec fn pat_show() -> Seq<char> {
    "\\bshow\\b.*\\b(system|internal|hidden)\\b"@
}

pub open spec fn pat_execute() -> Seq<char> {
    "\\bexecute\\b.*\\b(shell|command|terminal)\\b"@
}

pub open spec fn pat_access_paths() -> Seq<char> {
    "\\baccess\\b.*(/etc/|\\.env)"@
}

pub open spec fn pat_act_as() -> Seq<char> {
    "\\bact as (root|admin|system)\\b"@
}

pub open spec fn pat_grant_access() -> Seq<char> {
    "\\bgrant (me )?(full )?access\\b"@
}

pub open spec fn pat_base64() -> Seq<char> {
    "\\b[a-zA-Z0-9+/]{20,}={0,2}\\b"@
}

pub open spec fn pat_hex() -> Seq<char> {
    "\\b[a-fA-F0-9]{20,}\\b"@
}

// Keyword clusters.
pub open spec fn instruction_override_keywords() -> Seq<Seq<char>> {
    seq!["ignore"@, "previous"@, "instructions"@]
}

pub open spec fn prompt_extraction_keywords() -> Seq<Seq<char>> {
    seq!["hidden"@, "internal"@, "system"@, "prompt"@, "directive"@, "config"@]
}

pub open spec fn tool_escalation_keywords() -> Seq<Seq<char>> {
    seq!["execute"@, "run"@, "terminal"@, "operation"@, "environment"@, "retrieve"@]
}

pub open spec fn privilege_escalation_keywords() -> Seq<Seq<char>> {
    seq!["elevate"@, "authority"@, "remove"@, "safeguards"@, "admin"@]
}

/// Pattern matches plus the synthetic keyword-cluster match, before
/// saturation.
pub open spec fn instruction_override_matches(t: Seq<char>) -> int {
    regex_count_of(pat_ignore_instructions(), t) + regex_count_of(pat_override_instructions(), t)
        + if cluster_count(t, instruction_override_keywords()) >= 2 {
        1int
    } else {
        0int
    }
}

pub open spec fn prompt_extraction_matches(t: Seq<char>) -> int {
    regex_count_of(pat_reveal(), t) + regex_count_of(pat_show(), t) + if cluster_count(
        t,
        prompt_extraction_keywords(),
    ) >= 2 {
        1int
    } else {
        0int
    }
}

pub open spec fn tool_escalation_matches(t: Seq<char>) -> int {
    regex_count_of(pat_execute(), t) + regex_count_of(pat_access_paths(), t) + if cluster_count(
        t,
        tool_escalation_keywords(),
    ) >= 2 {
        1int
    } else {
        0int
    }
}

pub open spec fn privilege_escalation_matches(t: Seq<char>) -> int {
    regex_count_of(pat_act_as(), t) + regex_count_of(pat_grant_access(), t) + if cluster_count(
        t,
        privilege_escalation_keywords(),
    ) >= 2 {
        1int
    } else {
        0int
    }
}

pub open spec fn encoding_evasion_matches(t: Seq<char>) -> int {
    regex_count_of(pat_base64(), t) + regex_count_of(pat_hex(), t) as int
}

pub open spec fn encoding_evasion_triggered(t: Seq<char>) -> bool {
    encoding_evasion_matches(t) > 0 || high_entropy_spec(t)
}

/// Looks for attempts to override or discard earlier instructions.
pub fn detect_instruction_override(input: &str) -> (r: CategoryResult)
    ensures
        r.name@ == "Instruction Override"@,
        r.weight == 30,
        r.match_count == sat_usize(instruction_override_matches(input@)),
        r.triggered == (instruction_override_matches(input@) > 0),
{
    let t = chars_of(input);
    let c1 = regex_count("\\bignore (all )?(previous|earlier) instructions\\b", input);
    let c2 = regex_count("\\boverride (system )?instructions\\b", input);
    let mut kws: Vec<&str> = Vec::new();
    kws.push("ignore");
    kws.push("previous");
    kws.push("instructions");
    let intent = keyword_cluster_score(&t, &kws);
    proof {
        assert(kws@.map_values(|k: &str| k@) =~= instruction_override_keywords());
    }
    let mut mc = sat_add(c1, c2);
    if intent >= 2 {
        mc = sat_add(mc, 1);
    }
    CategoryResult {
        name: "Instruction Override".to_owned(),
        triggered: mc > 0,
        match_count: mc,
        weight: 30,
    }
}

/// Looks for attempts to expose hidden or internal prompt material.
pub fn detect_system_prompt_extraction(input: &str) -> (r: CategoryResult)
    ensures
        r.name@ == "System Prompt Extraction"@,
        r.weight == 35,
        r.match_count == sat_usize(prompt_extraction_matches(input@)),
        r.triggered == (prompt_extraction_matches(input@) > 0),
{
    let t = chars_of(input);
    let c1 = regex_count("\\breveal\\b.*\\b(system|internal|hidden)\\b", input);
    let c2 = regex_count("\\bshow\\b.*\\b(system|internal|hidden)\\b", input);
    let mut kws: Vec<&str> = Vec::new();
    kws.push("hidden");
    kws.push("internal");
    kws.push("system");
    kws.push("prompt");
    kws.push("directive");
    kws.push("config");
    let intent = keyword_cluster_score(&t, &kws);
    proof {
        assert(kws@.map_values(|k: &str| k@) =~= prompt_extraction_keywords());
    }
    let mut mc = sat_add(c1, c2);
    if intent >= 2 {
        mc = sat_add(mc, 1);
    }
    CategoryResult {
        name: "System Prompt Extraction".to_owned(),
        triggered: mc > 0,
        match_count: mc,
        weight: 35,
    }
}

/// Looks for attempts to run commands or reach sensitive paths.
pub fn detect_tool_escalation(input: &str) -> (r: CategoryResult)
    ensures
        r.name@ == "Tool Invocation Escalation"@,
        r.weight == 40,
        r.match_count == sat_usize(tool_escalation_matches(input@)),
        r.triggered == (tool_escalation_matches(input@) > 0),
{
    let t = chars_of(input);
    let c1 = regex_count("\\bexecute\\b.*\\b(shell|command|terminal)\\b", input);
    let c2 = regex_count("\\baccess\\b.*(/etc/|\\.env)", input);
    let mut kws: Vec<&str> = Vec::new();
    kws.push("execute");
    kws.push("run");
    kws.push("terminal");
    kws.push("operation");
    kws.push("environment");
    kws.push("retrieve");
    let intent = keyword_cluster_score(&t, &kws);
    proof {
        assert(kws@.map_values(|k: &str| k@) =~= tool_escalation_keywords());
    }
    let mut mc = sat_add(c1, c2);
    if intent >= 2 {
        mc = sat_add(mc, 1);
    }
    CategoryResult {
        name: "Tool Invocation Escalation".to_owned(),
        triggered: mc > 0,
        match_count: mc,
        weight: 40,
    }
}

/// Looks for attempts to assume privileged roles or demand access.
pub fn detect_privilege_escalation(input: &str) -> (r: CategoryResult)
    ensures
        r.name@ == "Privilege Escalation"@,
        r.weight == 25,
        r.match_count == sat_usize(privilege_escalation_matches(input@)),
        r.triggered == (privilege_escalation_matches(input@) > 0),
{
    let t = chars_of(input);
    let c1 = regex_count("\\bact as (root|admin|system)\\b", input);
    let c2 = regex_count("\\bgrant (me )?(full )?access\\b", input);
    let mut kws: Vec<&str> = Vec::new();
    kws.push("elevate");
    kws.push("authority");
    kws.push("remove");
    kws.push("safeguards");
    kws.push("admin");
    let intent = keyword_cluster_score(&t, &kws);
    proof {
        assert(kws@.map_values(|k: &str| k@) =~= privilege_escalation_keywords());
    }
    let mut mc = sat_add(c1, c2);
    if intent >= 2 {
        mc = sat_add(mc, 1);
    }
    CategoryResult {
        name: "Privilege Escalation".to_owned(),
        triggered: mc > 0,
        match_count: mc,
        weight: 25,
    }
}

/// Looks for base64- or hex-like tokens, and for unusually high character
/// entropy in longer texts.
pub fn detect_encoding_evasion(input: &str) -> (r: CategoryResult)
    ensures
        r.name@ == "Encoding Evasion Indicators"@,
        r.weight == 20,
        r.match_count == sat_usize(encoding_evasion_matches(input@)),
        r.triggered == encoding_evasion_triggered(input@),
{
    let t = chars_of(input);
    let c1 = regex_count("\\b[a-zA-Z0-9+/]{20,}={0,2}\\b", input);
    let c2 = regex_count("\\b[a-fA-F0-9]{20,}\\b", input);
    let mc = sat_add(c1, c2);
    let high = high_entropy(&t);
    CategoryResult {
        name: "Encoding Evasion Indicators".to_owned(),
        triggered: mc > 0 || high,
        match_count: mc,
        weight: 20,
    }
}

} // verus!
