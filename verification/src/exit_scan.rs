//! "Scan for Undefined Exits": the report and the state of the scan window.
//!
//! The scan itself runs on a worker (it walks every level through the
//! emulator); the window's state machine lives here: starting, cancelling,
//! taking the worker's progress and result messages in, and the texts the
//! window shows.
use vstd::prelude::*;
use crate::text::{dec, hex_width, pow16, push_dec, push_hex, push_str};

verus! {

/// Why a screen's exit counts as undefined.
#[derive(Clone, Copy, Debug, PartialEq, Eq)]
pub enum UndefinedExitKind {
    /// Exit-enabled tiles, but no screen exit record.
    NoExitRecord,
    /// The exit leads to a TEST level, maybe through a secondary exit.
    UndefinedDestination { via_secondary: Option<u16>, destination: u16 },
}

/// One screen with an undefined exit.
#[derive(Clone, Copy, Debug, PartialEq, Eq)]
pub struct UndefinedExit {
    pub level: u16,
    pub screen: u8,
    pub kind: UndefinedExitKind,
}

/// The result of a scan.
#[derive(Clone, Debug, PartialEq, Eq)]
pub struct ExitScanReport {
    pub levels_scanned: u32,
    pub levels_skipped: u32,
    pub findings: Vec<UndefinedExit>,
}

/// A message from the scan worker.
#[derive(Debug, PartialEq, Eq)]
pub enum ExitScanMsg {
    /// Number of levels scanned so far.
    Progress(u32),
    /// The scan finished; `Err` carries a message.
    Done(Result<ExitScanReport, String>),
}

/// The scan window's state.
#[derive(Clone, Debug, PartialEq, Eq)]
pub enum ExitScanState {
    Idle,
    Running { scanned: u32 },
    Done(ExitScanReport),
    Failed(String),
}

/// State of the Scan for Undefined Exits window.
pub struct ExitScanUi {
    pub state: ExitScanState,
}

/// The message a worker reports when it was cancelled.
pub open spec fn cancel_message() -> Seq<char> {
    seq!['s', 'c', 'a', 'n', ' ', 'c', 'a', 'n', 'c', 'e', 'l', 'l', 'e', 'd']
}

/// The state after one worker message while running.
pub open spec fn after_msg(s: ExitScanState, msg: ExitScanMsg) -> ExitScanState {
    match s {
        ExitScanState::Running { scanned } => match msg {
            ExitScanMsg::Progress(n) => ExitScanState::Running { scanned: n },
            ExitScanMsg::Done(Ok(report)) => ExitScanState::Done(report),
            ExitScanMsg::Done(Err(e)) => if e@ == cancel_message() {
                ExitScanState::Idle
            } else {
                ExitScanState::Failed(e)
            },
        },
        _ => s,
    }
}

/// The state after the pending worker messages, in order; messages after
/// the scan ended change nothing.
pub open spec fn after_msgs(s: ExitScanState, msgs: Seq<ExitScanMsg>) -> ExitScanState
    decreases msgs.len(),
{
    if msgs.len() == 0 {
        s
    } else {
        after_msg(after_msgs(s, msgs.drop_last()), msgs.last())
    }
}

/// An operation on the scan window: the four ways its state changes.
pub enum ExitScanOp {
    /// `start`.
    Start,
    /// `cancel`.
    Cancel,
    /// `poll` with the worker messages that had arrived.
    Poll(Vec<ExitScanMsg>),
    /// `set_failed` with its message.
    SetFailed(String),
}

/// The state after one operation.
pub open spec fn after_op(s: ExitScanState, op: ExitScanOp) -> ExitScanState {
    match op {
        ExitScanOp::Start => if s is Running {
            s
        } else {
            ExitScanState::Running { scanned: 0 }
        },
        ExitScanOp::Cancel => ExitScanState::Idle,
        ExitScanOp::Poll(msgs) => after_msgs(s, msgs@),
        ExitScanOp::SetFailed(m) => ExitScanState::Failed(m),
    }
}

/// The state after the operations, in order.
pub open spec fn after_ops(s: ExitScanState, ops: Seq<ExitScanOp>) -> ExitScanState
    decreases ops.len(),
{
    if ops.len() == 0 {
        s
    } else {
        after_op(after_ops(s, ops.drop_last()), ops.last())
    }
}

/// Operation `i` of `ops`, applied from `s`, is a poll whose message `j`
/// arrived while the scan was running and is a successful `Done` with `report`.
pub open spec fn poll_delivers(
    s: ExitScanState,
    ops: Seq<ExitScanOp>,
    i: int,
    j: int,
    report: ExitScanReport,
) -> bool {
    &&& 0 <= i < ops.len()
    &&& ops[i] is Poll
    &&& 0 <= j < ops[i]->Poll_0@.len()
    &&& after_msgs(after_ops(s, ops.take(i)), ops[i]->Poll_0@.take(j)) is Running
    &&& ops[i]->Poll_0@[j] == ExitScanMsg::Done(Ok(report))
}

/// Number of hex digits of `n` (at least one).
pub open spec fn hex_len(n: nat) -> nat
    decreases n,
{
    if n < 16 {
        1
    } else {
        1 + hex_len(n / 16)
    }
}

/// Upper-case hex, zero-padded to at least `w` digits (`{:0wX}`).
pub open spec fn hex_min(n: nat, w: nat) -> Seq<char> {
    hex_width(n, if hex_len(n) > w { hex_len(n) } else { w })
}

pub open spec fn plural(n: nat) -> Seq<char> {
    if n == 1 { seq![] } else { seq!['s'] }
}

/// The one-line summary of a report.
pub open spec fn summary_spec(r: ExitScanReport) -> Seq<char> {
    let n = r.findings@.len();
    "Scanned "@ + dec(r.levels_scanned as nat) + " levels \u{2014} "@ + dec(n) + " undefined exit"@ + plural(n)
        + " found."@ + if r.levels_skipped > 0 {
        " ("@ + dec(r.levels_skipped as nat) + " level"@ + plural(r.levels_skipped as nat) + " skipped: unparseable data)"@
    } else {
        seq![]
    }
}

/// The line shown for one finding.
pub open spec fn finding_spec(f: UndefinedExit) -> Seq<char> {
    let head = "Level $"@ + hex_min(f.level as nat, 3) + ", screen "@ + dec(f.screen as nat);
    match f.kind {
        UndefinedExitKind::NoExitRecord => head + " \u{2014} exit-enabled tiles but no screen exit defined"@,
        UndefinedExitKind::UndefinedDestination { via_secondary, destination } => head
            + " \u{2014} exit leads to level $"@ + hex_min(destination as nat, 3) + " (TEST)"@ + match via_secondary {
            Some(i) => " via secondary exit $"@ + hex_min(i as nat, 3),
            None => seq![],
        },
    }
}

proof fn lemma_hex_len_bound(n: nat, k: nat)
    requires
        k >= 1,
        n < pow16(k),
    ensures
        hex_len(n) <= k,
    decreases k,
{
    if n >= 16 {
        if k == 1 {
            assert(pow16(1) == 16 * pow16(0));
        } else {
            assert(n / 16 < pow16((k - 1) as nat)) by (nonlinear_arith)
                requires
                    n < 16 * pow16((k - 1) as nat),
            ;
            lemma_hex_len_bound(n / 16, (k - 1) as nat);
        }
    }
}

fn hex_len_exec(n: u64) -> (d: u32)
    ensures
        d == hex_len(n as nat),
        d <= 16,
    decreases n,
{
    proof {
        reveal_with_fuel(pow16, 17);
        lemma_hex_len_bound(n as nat, 16);
    }
    if n < 16 {
        1
    } else {
        1 + hex_len_exec(n / 16)
    }
}

fn push_hex_min(out: &mut String, n: u64, w: u32)
    ensures
        final(out)@ == old(out)@ + hex_min(n as nat, w as nat),
{
    let d = hex_len_exec(n);
    push_hex(out, n, if d > w { d } else { w });
}

fn push_plural(out: &mut String, n: u64)
    ensures
        final(out)@ == old(out)@ + plural(n as nat),
{
    if n != 1 {
        crate::text::push_char(out, 's');
    } else {
        assert(old(out)@ + plural(n as nat) =~= old(out)@);
    }
}

fn is_cancel_message(e: &String) -> (b: bool)
    ensures
        b == (e@ == cancel_message()),
{
    let c = String::from_str("scan cancelled");
    proof {
        reveal_strlit("scan cancelled");
        assert(c@ =~= cancel_message());
    }
    *e == c
}

impl ExitScanUi {
    /// A window with no scan run yet.
    pub fn new() -> (r: Self)
        ensures
            r.state == ExitScanState::Idle,
    {
        ExitScanUi { state: ExitScanState::Idle }
    }

    pub fn is_running(&self) -> (b: bool)
        ensures
            b == (self.state is Running),
    {
        match self.state {
            ExitScanState::Running { .. } => true,
            _ => false,
        }
    }

    pub fn has_report(&self) -> (b: bool)
        ensures
            b == (self.state is Done),
    {
        match self.state {
            ExitScanState::Done(_) => true,
            _ => false,
        }
    }

    pub fn set_failed(&mut self, msg: String)
        ensures
            final(self).state == ExitScanState::Failed(msg),
            final(self).state == after_op(old(self).state, ExitScanOp::SetFailed(msg)),
    {
        self.state = ExitScanState::Failed(msg);
    }

    /// Starts a scan unless one is running; `true` when the caller is to
    /// launch the worker.
    pub fn start(&mut self) -> (launch: bool)
        ensures
            launch == !(old(self).state is Running),
            launch ==> final(self).state == (ExitScanState::Running { scanned: 0 }),
            !launch ==> final(self).state == old(self).state,
            final(self).state == after_op(old(self).state, ExitScanOp::Start),
    {
        if self.is_running() {
            return false;
        }
        self.state = ExitScanState::Running { scanned: 0 };
        true
    }

    /// Drops a running scan; `true` when a running worker is to be told to
    /// stop. The window is idle afterwards.
    pub fn cancel(&mut self) -> (signal: bool)
        ensures
            signal == (old(self).state is Running),
            final(self).state == ExitScanState::Idle,
            final(self).state == after_op(old(self).state, ExitScanOp::Cancel),
    {
        let signal = self.is_running();
        self.state = ExitScanState::Idle;
        signal
    }

    /// The one-line summary of a report.
    pub fn summary_text(report: &ExitScanReport) -> (s: String)
        ensures
            s@ == summary_spec(*report),
    {
        let n = report.findings.len();
        let mut s = String::new();
        push_str(&mut s, "Scanned ");
        push_dec(&mut s, report.levels_scanned as u64);
        push_str(&mut s, " levels \u{2014} ");
        push_dec(&mut s, n as u64);
        push_str(&mut s, " undefined exit");
        push_plural(&mut s, n as u64);
        push_str(&mut s, " found.");
        let ghost base = s@;
        if report.levels_skipped > 0 {
            push_str(&mut s, " (");
            push_dec(&mut s, report.levels_skipped as u64);
            push_str(&mut s, " level");
            push_plural(&mut s, report.levels_skipped as u64);
            push_str(&mut s, " skipped: unparseable data)");
        }
        assert(s@ =~= summary_spec(*report));
        s
    }

    /// The line shown for one finding.
    pub fn finding_text(f: &UndefinedExit) -> (s: String)
        ensures
            s@ == finding_spec(*f),
    {
        let mut s = String::new();
        push_str(&mut s, "Level $");
        push_hex_min(&mut s, f.level as u64, 3);
        push_str(&mut s, ", screen ");
        push_dec(&mut s, f.screen as u64);
        match f.kind {
            UndefinedExitKind::NoExitRecord => {
                push_str(&mut s, " \u{2014} exit-enabled tiles but no screen exit defined");
            },
            UndefinedExitKind::UndefinedDestination { via_secondary, destination } => {
                push_str(&mut s, " \u{2014} exit leads to level $");
                push_hex_min(&mut s, destination as u64, 3);
                push_str(&mut s, " (TEST)");
                match via_secondary {
                    Some(i) => {
                        push_str(&mut s, " via secondary exit $");
                        push_hex_min(&mut s, i as u64, 3);
                    },
                    None => {},
                }
            },
        }
        assert(s@ =~= finding_spec(*f));
        s
    }

    fn step(&mut self, msg: ExitScanMsg)
        ensures
            final(self).state == after_msg(old(self).state, msg),
    {
        if !self.is_running() {
            return;
        }
        match msg {
            ExitScanMsg::Progress(n) => {
                self.state = ExitScanState::Running { scanned: n };
            },
            ExitScanMsg::Done(Ok(report)) => {
                self.state = ExitScanState::Done(report);
            },
            ExitScanMsg::Done(Err(e)) => {
                if is_cancel_message(&e) {
                    self.state = ExitScanState::Idle;
                } else {
                    self.state = ExitScanState::Failed(e);
                }
            },
        }
    }

    /// Takes in the worker messages that arrived, in order, while a scan
    /// runs: progress updates the count, the result ends the scan (done,
    /// failed, or idle again when it was cancelled); once the scan has
    /// ended the rest is dropped.
    pub fn poll(&mut self, pending: Vec<ExitScanMsg>)
        ensures
            final(self).state == after_msgs(old(self).state, pending@),
            final(self).state == after_op(old(self).state, ExitScanOp::Poll(pending)),
    {
        let ghost all = pending@;
        let ghost s0 = self.state;
        let total = pending.len();
        let mut rest = pending;
        let mut i: usize = 0;
        while rest.len() > 0
            invariant
                total == all.len(),
                i <= all.len(),
                rest@ == all.skip(i as int),
                self.state == after_msgs(s0, all.take(i as int)),
            decreases rest.len(),
        {
            let msg = rest.remove(0);
            proof {
                assert(msg == all[i as int]);
                assert(all.take(i + 1).drop_last() =~= all.take(i as int));
                assert(rest@ =~= all.skip(i + 1));
            }
            self.step(msg);
            i = i + 1;
        }
        assert(all.take(i as int) =~= all);
    }
}

/// A report appears only through a poll: when the window had no report and
/// has one after taking in worker messages, one of them was a successful
/// `Done` carrying that report, received while the scan was running. (No
/// other operation makes a report: `start` leaves a running scan, `cancel`
/// an idle window, `set_failed` a failure.)
pub proof fn lemma_report_only_from_successful_done(s: ExitScanState, msgs: Seq<ExitScanMsg>)
    requires
        !(s is Done),
        after_msgs(s, msgs) is Done,
    ensures
        exists|i: int|
            0 <= i < msgs.len() && (after_msgs(s, msgs.take(i)) is Running) && #[trigger] msgs[i] == ExitScanMsg::Done(
                Ok(after_msgs(s, msgs)->Done_0),
            ),
    decreases msgs.len(),
{
    let n = msgs.len() as int;
    let init = msgs.drop_last();
    let prev = after_msgs(s, init);
    assert(msgs.take(n - 1) =~= init);
    if prev is Done {
        lemma_report_only_from_successful_done(s, init);
        let i = choose|i: int|
            0 <= i < init.len() && (after_msgs(s, init.take(i)) is Running) && #[trigger] init[i] == ExitScanMsg::Done(
                Ok(after_msgs(s, init)->Done_0),
            );
        assert(init.take(i) =~= msgs.take(i));
        assert(msgs[i] == init[i]);
    } else {
        assert(msgs[n - 1] == ExitScanMsg::Done(Ok(after_msgs(s, msgs)->Done_0)));
    }
}

/// Messages taken in after the scan has ended change nothing.
proof fn lemma_msgs_after_end(s: ExitScanState, msgs: Seq<ExitScanMsg>)
    requires
        !(s is Running),
    ensures
        after_msgs(s, msgs) == s,
    decreases msgs.len(),
{
    if msgs.len() > 0 {
        lemma_msgs_after_end(s, msgs.drop_last());
    }
}

proof fn lemma_report_from_poll(s: ExitScanState, ops: Seq<ExitScanOp>)
    requires
        !(s is Done),
        after_ops(s, ops) is Done,
    ensures
        exists|i: int, j: int| #[trigger] poll_delivers(s, ops, i, j, after_ops(s, ops)->Done_0),
    decreases ops.len(),
{
    let n = ops.len() as int;
    let init = ops.drop_last();
    let prev = after_ops(s, init);
    let report = after_ops(s, ops)->Done_0;
    assert(ops.take(n - 1) =~= init);
    match ops.last() {
        ExitScanOp::Poll(m) => {
            if prev is Done {
                lemma_msgs_after_end(prev, m@);
                lemma_report_from_poll(s, init);
                let (i, j) = choose|i: int, j: int| #[trigger] poll_delivers(s, init, i, j, report);
                assert(init.take(i) =~= ops.take(i));
                assert(ops[i] == init[i]);
                assert(poll_delivers(s, ops, i, j, report));
            } else {
                lemma_report_only_from_successful_done(prev, m@);
                let j = choose|j: int|
                    0 <= j < m@.len() && (after_msgs(prev, m@.take(j)) is Running) && #[trigger] m@[j]
                        == ExitScanMsg::Done(Ok(after_msgs(prev, m@)->Done_0));
                assert(poll_delivers(s, ops, n - 1, j, report));
            }
        },
        _ => {},
    }
}

/// The scan window, from a new window through any operations: it is never
/// running and holding a report at once, and when it holds a report, some
/// poll took in, while the scan was running, a successful `Done` carrying
/// exactly that report.
pub proof fn lemma_exit_scan_report_law(ops: Seq<ExitScanOp>)
    ensures
        !(after_ops(ExitScanState::Idle, ops) is Running && after_ops(ExitScanState::Idle, ops) is Done),
        after_ops(ExitScanState::Idle, ops) is Done ==> exists|i: int, j: int|
            #[trigger] poll_delivers(
                ExitScanState::Idle,
                ops,
                i,
                j,
                after_ops(ExitScanState::Idle, ops)->Done_0,
            ),
{
    if after_ops(ExitScanState::Idle, ops) is Done {
        lemma_report_from_poll(ExitScanState::Idle, ops);
    }
}

} // verus!
