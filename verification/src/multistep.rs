//! Transcript parsing and the multi-turn risk analyzer: every turn extends
//! a cumulative context that is rescanned whole, per-user-turn severity
//! ranks feed drift, oscillation and escalation signals, and the pass ends
//! in one composite risk score.

use vstd::prelude::*;
use crate::text::{
    trim, trim_spec, has_prefix, is_prefix, tail_from, chars_of, string_from_chars, str_eq,
};
use crate::scanner::{scan_input, scan_rank_spec};
use crate::scoring::{severity_name_of, band_rank};
use crate::min_int;

verus! {

/// One message of a transcript.
pub struct Turn {
    pub role: String,
    pub content: String,
}

/// Mathematical image of a turn.
pub ghost struct GTurn {
    pub role: Seq<char>,
    pub content: Seq<char>,
}

impl View for Turn {
    type V = GTurn;

    open spec fn view(&self) -> GTurn {
        GTurn { role: self.role@, content: self.content@ }
    }
}

pub open spec fn turns_view(s: Seq<Turn>) -> Seq<GTurn> {
    s.map_values(|t: Turn| t@)
}

/// The aggregated report of one analysis pass.
pub struct MultiTurnResult {
    pub total_user_turns: usize,
    pub peak_severity: String,
    pub final_severity: String,
    pub first_high_turn: Option<usize>,
    pub drift_detected: bool,
    pub partial_bypass: bool,
    pub oscillation_detected: bool,
    pub late_detection: bool,
    pub threshold_gaming: bool,
    pub composite_risk_score: u32,
    pub risk_level: String,
}

// ---------------------------------------------------------------------
// severity ranks and labels
// ---------------------------------------------------------------------

pub open spec fn severity_rank_spec(s: Seq<char>) -> int {
    if s == "Low"@ {
        0
    } else if s == "Moderate"@ {
        1
    } else if s == "High"@ {
        2
    } else if s == "Critical"@ {
        3
    } else {
        0
    }
}

pub open spec fn rank_name(rank: int) -> Seq<char> {
    if rank == 0 {
        "Low"@
    } else if rank == 1 {
        "Moderate"@
    } else if rank == 2 {
        "High"@
    } else {
        "Critical"@
    }
}

pub open spec fn severity_weight_spec(rank: int) -> int {
    if rank == 0 {
        5
    } else if rank == 1 {
        15
    } else if rank == 2 {
        30
    } else {
        40
    }
}

pub open spec fn risk_label_spec(score: int) -> Seq<char> {
    if score <= 20 {
        "Low"@
    } else if score <= 40 {
        "Moderate"@
    } else if score <= 60 {
        "Elevated"@
    } else if score <= 80 {
        "High"@
    } else {
        "Critical"@
    }
}

/// Rank of a severity label: Low 0, Moderate 1, High 2, Critical 3,
/// anything else 0.
pub fn severity_rank(sev: &str) -> (r: i32)
    ensures
        r == severity_rank_spec(sev@),
        0 <= r <= 3,
{
    if str_eq(sev, "Low") {
        0
    } else if str_eq(sev, "Moderate") {
        1
    } else if str_eq(sev, "High") {
        2
    } else if str_eq(sev, "Critical") {
        3
    } else {
        0
    }
}

/// Label of a severity rank.
pub fn rank_to_severity(rank: i32) -> (r: String)
    ensures
        r@ == rank_name(rank as int),
{
    if rank == 0 {
        "Low".to_owned()
    } else if rank == 1 {
        "Moderate".to_owned()
    } else if rank == 2 {
        "High".to_owned()
    } else {
        "Critical".to_owned()
    }
}

/// Base weight of the peak severity rank in the composite score.
pub fn severity_weight(rank: i32) -> (r: u32)
    ensures
        r == severity_weight_spec(rank as int),
{
    if rank == 0 {
        5
    } else if rank == 1 {
        15
    } else if rank == 2 {
        30
    } else {
        40
    }
}

/// Five-level label of the composite risk score.
pub fn risk_label(score: u32) -> (r: String)
    ensures
        r@ == risk_label_spec(score as int),
{
    if score <= 20 {
        "Low".to_owned()
    } else if score <= 40 {
        "Moderate".to_owned()
    } else if score <= 60 {
        "Elevated".to_owned()
    } else if score <= 80 {
        "High".to_owned()
    } else {
        "Critical".to_owned()
    }
}

/// Ranking the band label of a score recovers the band's rank.
pub proof fn lemma_band_roundtrip(score: int)
    ensures
        severity_rank_spec(severity_name_of(score)) == band_rank(score),
{
    reveal_strlit("Low");
    reveal_strlit("Moderate");
    reveal_strlit("High");
    reveal_strlit("Critical");
    assert("Low"@.len() == 3);
    assert("Moderate"@.len() == 8);
    assert("High"@.len() == 4);
    assert("Critical"@.len() == 8);
    assert("Moderate"@[0] == 'M');
    assert("Critical"@[0] == 'C');
}

// ---------------------------------------------------------------------
// transcript parsing
// ---------------------------------------------------------------------

/// Parser state: the current turn's role and content, and the finished
/// turns.
pub ghost struct ParseState {
    pub role: Seq<char>,
    pub content: Seq<char>,
    pub turns: Seq<GTurn>,
}

pub open spec fn parse_init() -> ParseState {
    ParseState { role: Seq::empty(), content: Seq::empty(), turns: Seq::empty() }
}

/// What one (trimmed) transcript line does to the parser state.
pub open spec fn parse_line_step(st: ParseState, line: Seq<char>) -> ParseState {
    let l = trim_spec(line);
    if is_prefix(l, "role:"@) {
        let pushed = if st.role.len() > 0 {
            ParseState {
                role: st.role,
                content: Seq::empty(),
                turns: st.turns.push(GTurn { role: st.role, content: trim_spec(st.content) }),
            }
        } else {
            st
        };
        ParseState {
            role: trim_spec(l.subrange(5, l.len() as int)),
            content: pushed.content,
            turns: pushed.turns,
        }
    } else if is_prefix(l, "content:"@) {
        ParseState {
            role: st.role,
            content: trim_spec(l.subrange(8, l.len() as int)),
            turns: st.turns,
        }
    } else if !is_prefix(l, "[TURN"@) && !is_prefix(l, "#"@) && l.len() > 0 {
        ParseState { role: st.role, content: st.content.push(' ') + l, turns: st.turns }
    } else {
        st
    }
}

/// The input split at every newline; the pieces keep no `'\n'` and the
/// trailing piece may be empty.
pub open spec fn split_pieces(t: Seq<char>) -> Seq<Seq<char>>
    decreases t.len(),
{
    if t.len() == 0 {
        seq![Seq::<char>::empty()]
    } else if t.last() == '\n' {
        split_pieces(t.drop_last()).push(Seq::<char>::empty())
    } else {
        let p = split_pieces(t.drop_last());
        p.update(p.len() - 1, p.last().push(t.last()))
    }
}

pub open spec fn parse_fold(pieces: Seq<Seq<char>>) -> ParseState
    decreases pieces.len(),
{
    if pieces.len() == 0 {
        parse_init()
    } else {
        parse_line_step(parse_fold(pieces.drop_last()), pieces.last())
    }
}

/// At end of input the last turn is finished if it ever got a role.
pub open spec fn parse_finalize(st: ParseState) -> Seq<GTurn> {
    if st.role.len() > 0 {
        st.turns.push(GTurn { role: st.role, content: trim_spec(st.content) })
    } else {
        st.turns
    }
}

/// The turn sequence of a raw transcript.
pub open spec fn parse_spec(t: Seq<char>) -> Seq<GTurn> {
    parse_finalize(parse_fold(split_pieces(t)))
}

proof fn lemma_split_pieces_nonempty(t: Seq<char>)
    ensures
        split_pieces(t).len() >= 1,
    decreases t.len(),
{
    if t.len() > 0 {
        lemma_split_pieces_nonempty(t.drop_last());
    }
}

/// One parser step in executable form, applied to a completed line.
fn parse_one_line(
    role: &mut Vec<char>,
    content: &mut Vec<char>,
    turns: &mut Vec<Turn>,
    line: &Vec<char>,
)
    ensures
        ({
            let st = parse_line_step(
                ParseState {
                    role: old(role)@,
                    content: old(content)@,
                    turns: turns_view(old(turns)@),
                },
                line@,
            );
            final(role)@ == st.role && final(content)@ == st.content && turns_view(final(turns)@)
                == st.turns
        }),
{
    proof {
        reveal_strlit("role:");
        reveal_strlit("content:");
        reveal_strlit("[TURN");
        reveal_strlit("#");
    }
    let l = trim(line);
    if has_prefix(&l, "role:") {
        if role.len() > 0 {
            let tc = trim(content);
            let t = Turn { role: string_from_chars(role), content: string_from_chars(&tc) };
            let ghost before = turns_view(turns@);
            turns.push(t);
            proof {
                assert(turns_view(turns@) =~= before.push(t@));
            }
            content.clear();
            assert(content@ =~= Seq::<char>::empty());
        }
        let rest = tail_from(&l, 5);
        let nr = trim(&rest);
        role.clear();
        let mut i: usize = 0;
        while i < nr.len()
            invariant
                i <= nr@.len(),
                role@ == nr@.subrange(0, i as int),
            decreases nr@.len() - i,
        {
            role.push(nr[i]);
            assert(role@ =~= nr@.subrange(0, i + 1 as int));
            i = i + 1;
        }
        assert(role@ =~= nr@);
    } else if has_prefix(&l, "content:") {
        let rest = tail_from(&l, 8);
        let nc = trim(&rest);
        content.clear();
        let mut i: usize = 0;
        while i < nc.len()
            invariant
                i <= nc@.len(),
                content@ == nc@.subrange(0, i as int),
            decreases nc@.len() - i,
        {
            content.push(nc[i]);
            assert(content@ =~= nc@.subrange(0, i + 1 as int));
            i = i + 1;
        }
        assert(content@ =~= nc@);
    } else if !has_prefix(&l, "[TURN") && !has_prefix(&l, "#") {
        if l.len() > 0 {
            let ghost before = content@;
            content.push(' ');
            let mut i: usize = 0;
            while i < l.len()
                invariant
                    i <= l@.len(),
                    content@ == before.push(' ') + l@.subrange(0, i as int),
                decreases l@.len() - i,
            {
                content.push(l[i]);
                assert(content@ =~= before.push(' ') + l@.subrange(0, i + 1 as int));
                i = i + 1;
            }
            assert(content@ =~= before.push(' ') + l@);
        }
    }
}

/// Best-effort, line-oriented transcript parser. A `role:` line finishes
/// the previous turn and starts a new one; a `content:` line replaces the
/// current turn's content; `[TURN` and `#` lines are markup; any other
/// non-blank line is folded into the current content. A turn that never
/// got a role is dropped.
pub fn parse_transcript(input: &str) -> (r: Vec<Turn>)
    ensures
        turns_view(r@) == parse_spec(input@),
{
    let t = chars_of(input);
    let mut role: Vec<char> = Vec::new();
    let mut content: Vec<char> = Vec::new();
    let mut turns: Vec<Turn> = Vec::new();
    let mut cur: Vec<char> = Vec::new();
    let mut i: usize = 0;
    proof {
        assert(turns_view(turns@) =~= Seq::<GTurn>::empty());
        assert(split_pieces(t@.subrange(0, 0)) =~= seq![Seq::<char>::empty()]);
    }
    while i < t.len()
        invariant
            i <= t@.len(),
            split_pieces(t@.subrange(0, i as int)).len() >= 1,
            split_pieces(t@.subrange(0, i as int)).last() == cur@,
            ({
                let st = parse_fold(split_pieces(t@.subrange(0, i as int)).drop_last());
                role@ == st.role && content@ == st.content && turns_view(turns@) == st.turns
            }),
        decreases t@.len() - i,
    {
        let ghost pre = t@.subrange(0, i as int);
        let ghost pieces = split_pieces(pre);
        proof {
            assert(t@.subrange(0, i + 1 as int).drop_last() =~= pre);
            lemma_split_pieces_nonempty(pre);
        }
        let c = t[i];
        if c == '\n' {
            parse_one_line(&mut role, &mut content, &mut turns, &cur);
            cur.clear();
            proof {
                assert(split_pieces(t@.subrange(0, i + 1 as int)) == pieces.push(
                    Seq::<char>::empty(),
                ));
                assert(pieces.push(Seq::<char>::empty()).drop_last() =~= pieces);
                assert(parse_fold(pieces) == parse_line_step(
                    parse_fold(pieces.drop_last()),
                    pieces.last(),
                ));
                assert(cur@ =~= Seq::<char>::empty());
            }
        } else {
            cur.push(c);
            proof {
                let np = split_pieces(t@.subrange(0, i + 1 as int));
                assert(np == pieces.update(pieces.len() - 1, pieces.last().push(c)));
                assert(np.drop_last() =~= pieces.drop_last());
                assert(np.last() == cur@);
            }
        }
        i = i + 1;
    }
    proof {
        assert(t@.subrange(0, t@.len() as int) =~= t@);
        lemma_split_pieces_nonempty(t@);
    }
    parse_one_line(&mut role, &mut content, &mut turns, &cur);
    proof {
        assert(parse_fold(split_pieces(t@)) == parse_line_step(
            parse_fold(split_pieces(t@).drop_last()),
            split_pieces(t@).last(),
        ));
    }
    if role.len() > 0 {
        let tc = trim(&content);
        let t2 = Turn { role: string_from_chars(&role), content: string_from_chars(&tc) };
        let ghost before = turns_view(turns@);
        turns.push(t2);
        proof {
            assert(turns_view(turns@) =~= before.push(t2@));
        }
    }
    turns
}

// ---------------------------------------------------------------------
// the analysis pass
// ---------------------------------------------------------------------

/// Running state of the analysis pass.
pub ghost struct RunState {
    pub cum: Seq<char>,
    pub users: int,
    pub peak: int,
    pub fin: int,
    pub prev: int,
    pub first_high: Option<int>,
    pub drift: bool,
    pub max_jump: int,
    pub hist: Seq<int>,
}

pub open spec fn run_init() -> RunState {
    RunState {
        cum: Seq::empty(),
        users: 0,
        peak: 0,
        fin: 0,
        prev: 0,
        first_high: None,
        drift: false,
        max_jump: 0,
        hist: Seq::empty(),
    }
}

/// What one turn does to the running state: it always extends the
/// cumulative context; a user turn is also ranked by a scan of the whole
/// context and folded into the metrics.
pub open spec fn run_step(st: RunState, turn: GTurn) -> RunState {
    let cum = st.cum.push('\n') + turn.content;
    let r = scan_rank_spec(cum);
    if turn.role == "user"@ {
        RunState {
            cum: cum,
            users: st.users + 1,
            peak: if r > st.peak {
                r
            } else {
                st.peak
            },
            fin: r,
            prev: r,
            first_high: if r >= 2 && st.first_high is None {
                Some(st.users + 1)
            } else {
                st.first_high
            },
            drift: st.drift || r > st.prev,
            max_jump: if r > st.prev && r - st.prev > st.max_jump {
                r - st.prev
            } else {
                st.max_jump
            },
            hist: st.hist.push(r),
        }
    } else {
        RunState {
            cum: cum,
            users: st.users,
            peak: st.peak,
            fin: st.fin,
            prev: st.prev,
            first_high: st.first_high,
            drift: st.drift,
            max_jump: st.max_jump,
            hist: st.hist,
        }
    }
}

pub open spec fn run_fold(turns: Seq<GTurn>) -> RunState
    decreases turns.len(),
{
    if turns.len() == 0 {
        run_init()
    } else {
        run_step(run_fold(turns.drop_last()), turns.last())
    }
}

/// Any adjacent pair of the rank history where the later rank is lower.
pub open spec fn oscillation_spec(hist: Seq<int>) -> bool {
    exists|i: int| 1 <= i < hist.len() && (#[trigger] hist[i]) < hist[i - 1]
}

pub open spec fn late_detection_spec(st: RunState) -> bool {
    match st.first_high {
        Some(t) => t == st.users,
        None => false,
    }
}

pub open spec fn threshold_gaming_spec(st: RunState) -> bool {
    st.peak == 1 && st.drift && st.first_high is None
}

/// The detection-delay weight: 0 without user turns, 20 when High was
/// never reached, else how late the first High turn came, scaled to 20.
pub open spec fn delay_weight_spec(st: RunState) -> int {
    if st.users == 0 {
        0
    } else {
        match st.first_high {
            None => 20,
            Some(t) => (t - 1) * 20 / st.users,
        }
    }
}

pub open spec fn velocity_weight_spec(max_jump: int) -> int {
    if max_jump == 0 {
        5
    } else if max_jump == 1 {
        8
    } else if max_jump == 2 {
        12
    } else {
        15
    }
}

/// The composite risk score of a finished pass, clamped to 100.
pub open spec fn composite_spec(st: RunState) -> int {
    min_int(
        severity_weight_spec(st.peak) + delay_weight_spec(st) + velocity_weight_spec(st.max_jump)
            + (if st.drift {
            10int
        } else {
            0int
        }) + (if st.peak > st.fin {
            15int
        } else {
            0int
        }) + (if oscillation_spec(st.hist) {
            10int
        } else {
            0int
        }) + (if late_detection_spec(st) {
            10int
        } else {
            0int
        }) + (if threshold_gaming_spec(st) {
            10int
        } else {
            0int
        }),
        100,
    )
}

/// Structural facts that every reachable running state satisfies.
pub open spec fn run_wf(st: RunState) -> bool {
    0 <= st.peak <= 3 && 0 <= st.fin <= 3 && 0 <= st.prev <= 3 && 0 <= st.max_jump <= 3
        && st.users >= 0 && st.hist.len() == st.users && (match st.first_high {
        Some(t) => 1 <= t <= st.users,
        None => true,
    }) && (forall|i: int| 0 <= i < st.hist.len() ==> 0 <= #[trigger] st.hist[i] <= 3)
}

pub proof fn lemma_run_fold_wf(turns: Seq<GTurn>)
    ensures
        run_wf(run_fold(turns)),
    decreases turns.len(),
{
    if turns.len() > 0 {
        lemma_run_fold_wf(turns.drop_last());
    }
}

/// The finished analysis state of a whole transcript.
pub open spec fn analysis_of(t: Seq<char>) -> RunState {
    run_fold(parse_spec(t))
}

/// Parses the transcript and drives the whole pipeline across its turns:
/// every turn extends the cumulative context, every user turn is ranked
/// by a scan of that whole context, and the per-turn ranks are folded
/// into the behavioral flags and the composite risk score.
#[verifier::rlimit(100)]
pub fn run_multiturn(transcript: &str) -> (r: MultiTurnResult)
    ensures
        r.total_user_turns == analysis_of(transcript@).users,
        r.peak_severity@ == rank_name(analysis_of(transcript@).peak),
        r.final_severity@ == rank_name(analysis_of(transcript@).fin),
        (match analysis_of(transcript@).first_high {
            Some(v) => r.first_high_turn == Some(v as usize),
            None => r.first_high_turn is None,
        }),
        r.drift_detected == analysis_of(transcript@).drift,
        r.partial_bypass == (analysis_of(transcript@).peak > analysis_of(transcript@).fin),
        r.oscillation_detected == oscillation_spec(analysis_of(transcript@).hist),
        r.late_detection == late_detection_spec(analysis_of(transcript@)),
        r.threshold_gaming == threshold_gaming_spec(analysis_of(transcript@)),
        r.composite_risk_score == composite_spec(analysis_of(transcript@)),
        0 <= r.composite_risk_score <= 100,
        r.risk_level@ == risk_label_spec(composite_spec(analysis_of(transcript@))),
{
    let turns = parse_transcript(transcript);
    let ghost tv = turns_view(turns@);

    let mut cumulative: Vec<char> = Vec::new();
    let mut total_user_turns: usize = 0;
    let mut peak_rank: i32 = 0;
    let mut final_rank: i32 = 0;
    let mut first_high: Option<usize> = None;
    let mut previous_rank: i32 = 0;
    let mut drift_detected = false;
    let mut max_jump: i32 = 0;
    let mut history: Vec<i32> = Vec::new();
    let mut user_turn_index: usize = 0;

    proof {
        assert(tv.take(0) =~= Seq::<GTurn>::empty());
        assert(history@.map_values(|x: i32| x as int) =~= Seq::<int>::empty());
    }
    let mut i: usize = 0;
    while i < turns.len()
        invariant
            i <= turns@.len(),
            tv == turns_view(turns@),
            ({
                let st = run_fold(tv.take(i as int));
                cumulative@ == st.cum && total_user_turns == st.users && peak_rank == st.peak
                    && final_rank == st.fin && previous_rank == st.prev && drift_detected
                    == st.drift && max_jump == st.max_jump && history@.map_values(|x: i32| x as int)
                    == st.hist && (match st.first_high {
                    Some(v) => first_high == Some(v as usize),
                    None => first_high is None,
                }) && user_turn_index == st.users
            }),
            0 <= peak_rank <= 3,
            0 <= previous_rank <= 3,
            0 <= final_rank <= 3,
            0 <= max_jump <= 3,
            total_user_turns <= i,
            user_turn_index == total_user_turns,
            history@.len() == total_user_turns,
        decreases turns@.len() - i,
    {
        let ghost st_pre = run_fold(tv.take(i as int));
        proof {
            assert(tv.take(i + 1 as int).drop_last() =~= tv.take(i as int));
            assert(tv.take(i + 1 as int).last() == tv[i as int]);
            lemma_run_fold_wf(tv.take(i as int));
        }
        let turn = &turns[i];
        proof {
            assert(turn@ == tv[i as int]);
        }
        cumulative.push('\n');
        let cc = chars_of(turn.content.as_str());
        let ghost cum0 = cumulative@;
        let mut j: usize = 0;
        while j < cc.len()
            invariant
                j <= cc@.len(),
                cumulative@ == cum0 + cc@.subrange(0, j as int),
            decreases cc@.len() - j,
        {
            cumulative.push(cc[j]);
            assert(cumulative@ =~= cum0 + cc@.subrange(0, j + 1 as int));
            j = j + 1;
        }
        proof {
            assert(cc@.subrange(0, cc@.len() as int) =~= cc@);
            assert(cumulative@ == st_pre.cum.push('\n') + turn@.content);
        }
        let cs = string_from_chars(&cumulative);
        let result = scan_input(cs.as_str());
        let current_rank = severity_rank(result.severity.as_str());
        proof {
            lemma_band_roundtrip(
                crate::scanner::scan_total_spec(crate::normalization::norm_spec(cumulative@)),
            );
            assert(current_rank == scan_rank_spec(cumulative@));
        }

        if str_eq(turn.role.as_str(), "user") {
            total_user_turns = total_user_turns + 1;
            user_turn_index = user_turn_index + 1;

            let ghost hist0 = history@.map_values(|x: i32| x as int);
            history.push(current_rank);
            proof {
                assert(history@.map_values(|x: i32| x as int) =~= hist0.push(
                    current_rank as int,
                ));
            }

            if current_rank > peak_rank {
                peak_rank = current_rank;
            }
            if current_rank >= 2 && first_high.is_none() {
                first_high = Some(user_turn_index);
            }
            if current_rank > previous_rank {
                drift_detected = true;
                let jump = current_rank - previous_rank;
                if jump > max_jump {
                    max_jump = jump;
                }
            }
            previous_rank = current_rank;
            final_rank = current_rank;
        }
        i = i + 1;
    }
    proof {
        assert(tv.take(turns@.len() as int) =~= tv);
        lemma_run_fold_wf(tv);
    }
    let ghost st = run_fold(tv);

    // behavioral anomaly layer
    let partial_bypass = peak_rank > final_rank;

    let late_detection = match first_high {
        Some(t) => t == total_user_turns,
        None => false,
    };

    let mut oscillation_detected = false;
    let mut k: usize = 1;
    while history.len() > 0 && k < history.len()
        invariant
            1 <= k,
            history.len() > 0 ==> k <= history@.len(),
            history@.map_values(|x: i32| x as int) == st.hist,
            oscillation_detected == (exists|j: int|
                1 <= j < k && j < st.hist.len() && (#[trigger] st.hist[j]) < st.hist[j - 1]),
        decreases history@.len() - k,
    {
        if history[k] < history[k - 1] {
            oscillation_detected = true;
            proof {
                assert(st.hist[k as int] < st.hist[k - 1]);
            }
        }
        k = k + 1;
    }
    proof {
        assert(oscillation_detected == oscillation_spec(st.hist));
    }

    let threshold_gaming = peak_rank == 1 && drift_detected && first_high.is_none();

    // composite risk calculation
    let mut composite: u32 = severity_weight(peak_rank);

    let delay_weight: u32 = if total_user_turns == 0 {
        0
    } else {
        match first_high {
            Some(turn) => {
                proof {
                    vstd::arithmetic::div_mod::lemma_div_by_multiple_is_strongly_ordered(
                        (turn - 1) * 20,
                        20 * total_user_turns as int,
                        20,
                        total_user_turns as int,
                    );
                    vstd::arithmetic::div_mod::lemma_div_by_multiple(
                        20,
                        total_user_turns as int,
                    );
                    vstd::arithmetic::div_mod::lemma_div_pos_is_pos(
                        (turn - 1) as int * 20,
                        total_user_turns as int,
                    );
                }
                (((turn - 1) as u128 * 20) / (total_user_turns as u128)) as u32
            },
            None => 20,
        }
    };
    assert(delay_weight == delay_weight_spec(st));
    assert(delay_weight <= 20);
    composite = composite + delay_weight;

    let velocity_weight: u32 = if max_jump == 0 {
        5
    } else if max_jump == 1 {
        8
    } else if max_jump == 2 {
        12
    } else {
        15
    };
    composite = composite + velocity_weight;

    if drift_detected {
        composite = composite + 10;
    }
    if partial_bypass {
        composite = composite + 15;
    }
    if oscillation_detected {
        composite = composite + 10;
    }
    if late_detection {
        composite = composite + 10;
    }
    if threshold_gaming {
        composite = composite + 10;
    }
    if composite > 100 {
        composite = 100;
    }
    assert(composite == composite_spec(st));

    let risk_level = risk_label(composite);

    MultiTurnResult {
        total_user_turns,
        peak_severity: rank_to_severity(peak_rank),
        final_severity: rank_to_severity(final_rank),
        first_high_turn: first_high,
        drift_detected,
        partial_bypass,
        oscillation_detected,
        late_detection,
        threshold_gaming,
        composite_risk_score: composite,
        risk_level,
    }
}

// ---------------------------------------------------------------------
// laws of the analysis pass
// ---------------------------------------------------------------------

/// Appending further turns to a transcript never lowers the peak severity
/// rank the pass reports.
pub proof fn lemma_peak_monotone(turns: Seq<GTurn>, more: Seq<GTurn>)
    ensures
        run_fold(turns).peak <= run_fold(turns + more).peak,
    decreases more.len(),
{
    if more.len() == 0 {
        assert(turns + more =~= turns);
    } else {
        lemma_peak_monotone(turns, more.drop_last());
        assert((turns + more).drop_last() =~= turns + more.drop_last());
        assert((turns + more).len() > 0);
        assert((turns + more).last() == more.last());
    }
}

/// No turn of the sequence carries the user role.
pub open spec fn no_user_turns(turns: Seq<GTurn>) -> bool {
    forall|i: int| 0 <= i < turns.len() ==> (#[trigger] turns[i]).role != "user"@
}

/// A pass over a transcript without user turns reports no behavioral
/// flags and the fixed baseline composite score of 10, labelled Low.
pub proof fn lemma_no_user_turns(turns: Seq<GTurn>)
    requires
        no_user_turns(turns),
    ensures
        ({
            let st = run_fold(turns);
            st.users == 0 && !st.drift && st.peak == 0 && st.fin == 0 && st.first_high is None
                && st.hist.len() == 0 && st.max_jump == 0 && !oscillation_spec(st.hist)
                && !late_detection_spec(st) && !threshold_gaming_spec(st) && st.peak <= st.fin
                && composite_spec(st) == 10 && risk_label_spec(composite_spec(st)) == "Low"@
        }),
    decreases turns.len(),
{
    if turns.len() > 0 {
        assert(forall|i: int|
            0 <= i < turns.drop_last().len() ==> (#[trigger] turns.drop_last()[i]).role
                != "user"@) by {
            assert(forall|i: int|
                0 <= i < turns.drop_last().len() ==> turns.drop_last()[i] == turns[i]);
        }
        lemma_no_user_turns(turns.drop_last());
        assert(turns.last().role != "user"@);
    }
}

} // verus!
