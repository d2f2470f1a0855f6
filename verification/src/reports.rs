//! Collection of lifecycle events into a per-operator schedule.
//!
//! Operator tasks emit timestamped events; a single reporter consumes them
//! one at a time. Creations and requests become milestones at once; a
//! start is held pending until the matching end arrives, and the pair then
//! becomes one task interval. An operator that starts again before it ends,
//! or ends without a pending start, is a protocol violation: it means a
//! policy admitted overlapping activity for one operator, and the run must
//! not continue with corrupted interval data.

use std::collections::HashMap;

use vstd::prelude::*;
use vstd::string::StringExecFns;

use crate::gantt::spec_gantt_md;
use crate::gantt::spec_push_record;
use crate::gantt::Gantt;
use crate::gantt::RecordV;
use crate::gantt::SectionV;
use crate::text::dec_digits;
use crate::text::decimal_string;
use crate::text::digit_char;
use crate::text::push_decimal;
use crate::text::push_digit;

verus! {

broadcast use vstd::std_specs::hash::group_hash_axioms;

/// One step of an operator's lifecycle.
#[derive(Debug, Clone, Copy, PartialEq, Eq, Structural)]
pub enum Action {
    /// The operator's task was created.
    Create,
    /// A reader asked for access.
    RequestRead,
    /// A reader was admitted and begins reading.
    StartRead,
    /// A reader finished reading.
    EndRead,
    /// A writer asked for access.
    RequestWrite,
    /// A writer was admitted and begins writing.
    StartWrite,
    /// A writer finished writing.
    EndWrite,
}

/// A violation of the start/end protocol, fatal to a run.
#[derive(Debug, Clone, Copy, PartialEq, Eq, Structural)]
pub enum ProtocolError {
    /// An operator starts again before it ends.
    StartedTwice,
    /// An operator ends before it starts.
    EndedWithoutStart,
}

/// An event as sent over the run's channel: who, what, and the elapsed
/// time in milliseconds since the run began.
pub type ReportMessage = (u32, Action, u64);

/// Configuration of a reporter.
pub struct ReporterConfig {
    /// Width of the per-operator indentation of the printed event log.
    pub tab: u8,
}

/// The milestone label of an instantaneous event.
pub open spec fn spec_milestone_label(action: Action) -> Seq<char> {
    match action {
        Action::Create => "🚀"@,
        Action::RequestRead => "🔔👀"@,
        _ => "🔔📝"@,
    }
}

/// The task label of a completed interval.
pub open spec fn spec_task_label(action: Action) -> Seq<char> {
    if action == Action::EndRead {
        "👀"@
    } else {
        "📝"@
    }
}

/// Aggregates the events of one run into a per-operator schedule.
pub struct Reporter {
    gantt: Gantt,
    /// Operators that started but are not done yet, with their start times.
    pending_start_at: HashMap<u32, u64>,
    /// Width of the per-operator indentation of the printed event log.
    pub tab: u8,
}

impl Reporter {
    /// The schedule aggregated so far.
    pub closed spec fn spec_gantt(&self) -> Seq<SectionV> {
        self.gantt@
    }

    /// The pending starts: operator id to start time.
    pub closed spec fn spec_pending(&self) -> Map<u32, u64> {
        self.pending_start_at@
    }

    /// Width of the per-operator indentation of the printed event log.
    pub closed spec fn spec_tab(&self) -> u8 {
        self.tab
    }

    /// The schedule's section keys stay in ascending order.
    pub closed spec fn inv(&self) -> bool {
        self.gantt.inv()
    }

    /// A fresh reporter with an empty schedule and no pending starts.
    pub fn new(config: ReporterConfig) -> (r: Reporter)
        ensures
            r.inv(),
            r.spec_gantt() == Seq::<SectionV>::empty(),
            r.spec_pending() == Map::<u32, u64>::empty(),
            r.spec_tab() == config.tab,
    {
        let r = Reporter {
            gantt: Gantt::new(),
            pending_start_at: HashMap::new(),
            tab: config.tab,
        };
        proof {
            assert(r.spec_pending() =~= Map::<u32, u64>::empty());
        }
        r
    }

    /// Consumes one event: milestones are recorded at once; a start is
    /// held pending; an end pairs with its pending start into a task.
    /// Returns the protocol violation if the operator starts twice or
    /// ends without a start, leaving the reporter unchanged.
    pub fn record(&mut self, who: u32, action: Action, at_ms: u64) -> (r: Result<
        (),
        ProtocolError,
    >)
        requires
            old(self).inv(),
        ensures
            final(self).inv(),
            final(self).spec_tab() == old(self).spec_tab(),
            ({
                let g0 = old(self).spec_gantt();
                let p0 = old(self).spec_pending();
                let g1 = final(self).spec_gantt();
                let p1 = final(self).spec_pending();
                let key = dec_digits(who as nat);
                match action {
                    Action::Create | Action::RequestRead | Action::RequestWrite => r is Ok && p1
                        == p0 && g1 == spec_push_record(
                        g0,
                        key,
                        RecordV::Milestone { name: spec_milestone_label(action), at: at_ms },
                    ),
                    Action::StartRead | Action::StartWrite => if p0.dom().contains(who) {
                        r == Err::<(), ProtocolError>(ProtocolError::StartedTwice) && p1 == p0 && g1
                            == g0
                    } else {
                        r is Ok && p1 == p0.insert(who, at_ms) && g1 == g0
                    },
                    Action::EndRead | Action::EndWrite => if !p0.dom().contains(who) {
                        r == Err::<(), ProtocolError>(ProtocolError::EndedWithoutStart) && p1 == p0
                            && g1 == g0
                    } else {
                        r is Ok && p1 == p0.remove(who) && g1 == spec_push_record(
                            g0,
                            key,
                            RecordV::Task {
                                name: spec_task_label(action),
                                start_at: p0[who],
                                end_at: at_ms,
                            },
                        )
                    },
                }
            }),
    {
        let who_str = decimal_string(who as u64);
        match action {
            Action::Create => {
                self.gantt.push_milestone(who_str.as_str(), String::from_str("🚀"), at_ms);
                Ok(())
            },
            Action::RequestRead => {
                self.gantt.push_milestone(who_str.as_str(), String::from_str("🔔👀"), at_ms);
                Ok(())
            },
            Action::RequestWrite => {
                self.gantt.push_milestone(who_str.as_str(), String::from_str("🔔📝"), at_ms);
                Ok(())
            },
            Action::StartRead | Action::StartWrite => {
                if self.pending_start_at.contains_key(&who) {
                    return Err(ProtocolError::StartedTwice);
                }
                self.pending_start_at.insert(who, at_ms);
                Ok(())
            },
            Action::EndRead | Action::EndWrite => {
                let start_at = self.pending_start_at.remove(&who);
                match start_at {
                    None => {
                        proof {
                            assert(final(self).spec_pending() =~= old(self).spec_pending());
                        }
                        Err(ProtocolError::EndedWithoutStart)
                    },
                    Some(start) => {
                        let label = if action == Action::EndRead {
                            String::from_str("👀")
                        } else {
                            String::from_str("📝")
                        };
                        self.gantt.push_task(who_str.as_str(), label, start, at_ms);
                        Ok(())
                    },
                }
            },
        }
    }

    /// Renders the aggregated schedule.
    pub fn draw(&self) -> (rows: Vec<String>)
        requires
            self.inv(),
        ensures
            rows.deep_view() == spec_gantt_md(self.spec_gantt()),
    {
        self.gantt.to_md()
    }
}

/// A run of `n` spaces.
pub open spec fn spec_spaces(n: nat) -> Seq<char>
    decreases n,
{
    if n == 0 {
        Seq::<char>::empty()
    } else {
        spec_spaces((n - 1) as nat) + seq![' ']
    }
}

/// The elapsed time of a log row: seconds with three decimals, padded
/// with a space to at least six characters.
pub open spec fn spec_log_time(at_ms: u64) -> Seq<char> {
    let sec = at_ms as nat / 1000;
    let frac = at_ms as nat % 1000;
    (if sec < 10 {
        seq![' ']
    } else {
        Seq::<char>::empty()
    }) + dec_digits(sec) + seq!['.'] + seq![
        digit_char((frac / 100) as int),
        digit_char(((frac / 10) % 10) as int),
        digit_char((frac % 10) as int),
    ]
}

/// The narration of an action in the printed event log.
pub open spec fn spec_action_text(action: Action) -> Seq<char> {
    match action {
        Action::Create => "🚀创建"@,
        Action::RequestRead => "🔔👀申请读取"@,
        Action::RequestWrite => "🔔📝申请写入"@,
        Action::StartRead => "🏁👀开始读取"@,
        Action::StartWrite => "🏁📝开始写入"@,
        Action::EndRead => "🛑👀结束读取"@,
        Action::EndWrite => "🛑📝结束写入"@,
    }
}

/// One row of the printed event log: the elapsed time, a separator, an
/// indentation keyed to the operator (at least one space), the operator id
/// and the action.
pub open spec fn spec_log_line(who: u32, action: Action, at_ms: u64, tab: u8) -> Seq<char> {
    let indent = (who % 8) as nat * tab as nat;
    spec_log_time(at_ms) + " s |"@ + spec_spaces(if indent < 1 {
        1
    } else {
        indent
    }) + "#"@ + dec_digits(who as nat) + "："@ + spec_action_text(action) + "。"@
}

/// Appends `n` spaces to `s`.
fn push_spaces(s: &mut String, n: usize)
    ensures
        final(s)@ == old(s)@ + spec_spaces(n as nat),
{
    let mut k: usize = 0;
    while k < n
        invariant
            k <= n,
            s@ =~= old(s)@ + spec_spaces(k as nat),
        decreases n - k,
    {
        proof {
            reveal_strlit(" ");
            assert(" "@ =~= seq![' ']);
        }
        s.append(" ");
        proof {
            assert(s@ =~= old(s)@ + spec_spaces((k + 1) as nat));
        }
        k = k + 1;
    }
}

/// Builds the row of the printed event log for one event.
#[verifier::rlimit(100)]
pub fn log_line(who: u32, action: Action, at_ms: u64, tab: u8) -> (r: String)
    ensures
        r@ == spec_log_line(who, action, at_ms, tab),
{
    let sec = at_ms / 1000;
    let frac = at_ms % 1000;
    let mut s = String::new();
    if sec < 10 {
        proof {
            reveal_strlit(" ");
            assert(" "@ =~= seq![' ']);
        }
        s.append(" ");
    }
    push_decimal(&mut s, sec);
    proof {
        reveal_strlit(".");
        assert("."@ =~= seq!['.']);
    }
    s.append(".");
    push_digit(&mut s, (frac / 100) as u8);
    push_digit(&mut s, ((frac / 10) % 10) as u8);
    push_digit(&mut s, (frac % 10) as u8);
    s.append(" s |");
    let low = who % 8;
    proof {
        assert((low as usize) * (tab as usize) <= 7 * 255) by (nonlinear_arith)
            requires
                low < 8,
                tab <= 255,
        ;
    }
    let indent = (low as usize) * (tab as usize);
    let width = if indent < 1 {
        1
    } else {
        indent
    };
    push_spaces(&mut s, width);
    s.append("#");
    push_decimal(&mut s, who as u64);
    s.append("：");
    match action {
        Action::Create => s.append("🚀创建"),
        Action::RequestRead => s.append("🔔👀申请读取"),
        Action::RequestWrite => s.append("🔔📝申请写入"),
        Action::StartRead => s.append("🏁👀开始读取"),
        Action::StartWrite => s.append("🏁📝开始写入"),
        Action::EndRead => s.append("🛑👀结束读取"),
        Action::EndWrite => s.append("🛑📝结束写入"),
    }
    s.append("。");
    proof {
        assert(s@ =~= spec_log_line(who, action, at_ms, tab));
    }
    s
}

} // verus!
