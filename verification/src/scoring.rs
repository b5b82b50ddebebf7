//! Per-scan scoring: the triggered categories' weights are summed, clamped
//! to 1.0, forced to 1.0 when both mutually reinforcing high-severity
//! categories fire, and banded into a severity label. Scores are carried
//! in hundredths, so 100 stands for 1.0.

use vstd::prelude::*;
use crate::categories::CategoryResult;
use crate::text::str_eq;
use crate::min_int;

verus! {

/// Result of one scan over one text snapshot.
pub struct ScanResult {
    /// total score in hundredths, between 0 and 100
    pub total_score: u32,
    pub severity: String,
    pub exit_code: i32,
    pub categories: Vec<CategoryResult>,
}

/// Sum of the weights of the triggered categories.
pub open spec fn weights_sum(cats: Seq<CategoryResult>) -> int
    decreases cats.len(),
{
    if cats.len() == 0 {
        0
    } else {
        weights_sum(cats.drop_last()) + if cats.last().triggered {
            cats.last().weight as int
        } else {
            0int
        }
    }
}

/// Whether a category is one of the two mutually reinforcing high-severity
/// signals.
pub open spec fn is_critical_name(name: Seq<char>) -> bool {
    name == "System Prompt Extraction"@ || name == "Tool Invocation Escalation"@
}

/// How many triggered categories carry a critical name.
pub open spec fn critical_count(cats: Seq<CategoryResult>) -> int
    decreases cats.len(),
{
    if cats.len() == 0 {
        0
    } else {
        critical_count(cats.drop_last()) + if cats.last().triggered && is_critical_name(
            cats.last().name@,
        ) {
            1int
        } else {
            0int
        }
    }
}

/// The total score: the clamped weight sum, or the full score when at
/// least two critical categories fire together.
pub open spec fn total_score_spec(cats: Seq<CategoryResult>) -> int {
    if critical_count(cats) >= 2 {
        100
    } else {
        min_int(weights_sum(cats), 100)
    }
}

/// Severity banding over the total score in hundredths.
pub open spec fn severity_name_of(score: int) -> Seq<char> {
    if score < 20 {
        "Low"@
    } else if score < 50 {
        "Moderate"@
    } else if score < 80 {
        "High"@
    } else {
        "Critical"@
    }
}

/// The rank of the severity band: Low 0, Moderate 1, High 2, Critical 3.
pub open spec fn band_rank(score: int) -> int {
    if score < 20 {
        0
    } else if score < 50 {
        1
    } else if score < 80 {
        2
    } else {
        3
    }
}

proof fn lemma_weights_sum_nonneg(cats: Seq<CategoryResult>)
    ensures
        weights_sum(cats) >= 0,
        critical_count(cats) >= 0,
    decreases cats.len(),
{
    if cats.len() > 0 {
        lemma_weights_sum_nonneg(cats.drop_last());
    }
}

/// Folds the five category verdicts into one scan result.
pub fn compute_score(categories: Vec<CategoryResult>) -> (r: ScanResult)
    ensures
        r.total_score == total_score_spec(categories@),
        0 <= r.total_score <= 100,
        r.severity@ == severity_name_of(r.total_score as int),
        r.exit_code == band_rank(r.total_score as int),
        r.categories == categories,
{
    let mut total: u32 = 0;
    let mut crit: usize = 0;
    let mut i: usize = 0;
    while i < categories.len()
        invariant
            i <= categories@.len(),
            total == min_int(weights_sum(categories@.subrange(0, i as int)), 100),
            crit == critical_count(categories@.subrange(0, i as int)),
            crit <= i,
            total <= 100,
        decreases categories@.len() - i,
    {
        proof {
            assert(categories@.subrange(0, i + 1 as int).drop_last() =~= categories@.subrange(
                0,
                i as int,
            ));
            lemma_weights_sum_nonneg(categories@.subrange(0, i as int));
        }
        let cat = &categories[i];
        if cat.triggered {
            let w = cat.weight;
            if w >= 100 - total {
                total = 100;
            } else {
                total = total + w;
            }
            if str_eq(cat.name.as_str(), "System Prompt Extraction") || str_eq(
                cat.name.as_str(),
                "Tool Invocation Escalation",
            ) {
                crit = crit + 1;
            }
        }
        i = i + 1;
    }
    proof {
        assert(categories@.subrange(0, categories@.len() as int) =~= categories@);
    }
    if crit >= 2 {
        total = 100;
    }
    let severity: String = if total < 20 {
        "Low".to_owned()
    } else if total < 50 {
        "Moderate".to_owned()
    } else if total < 80 {
        "High".to_owned()
    } else {
        "Critical".to_owned()
    };
    let exit_code: i32 = if total < 20 {
        0
    } else if total < 50 {
        1
    } else if total < 80 {
        2
    } else {
        3
    };
    ScanResult { total_score: total, severity, exit_code, categories }
}

} // verus!
