//! Reporting and wiring rules for launched child processes.
//!
//! The surrounding binary spawns the processes and waits for them; this
//! module decides, from a child's captured outcome, which streams are
//! printed and whether a failure warning is due, and lays out how the
//! standard streams of a pipeline's stages are connected.

use vstd::prelude::*;

verus! {

/// What one finished child process produced.
#[derive(Debug)]
pub struct ChildOutcome {
    /// The exit code, or `None` when the child was ended by a signal.
    pub code: Option<i32>,
    pub stdout: Vec<u8>,
    pub stderr: Vec<u8>,
}

/// A child succeeded exactly when it exited with code zero.
pub open spec fn spec_success(code: Option<i32>) -> bool {
    code == Some(0i32)
}

/// Which streams to print and whether to warn, for one child.
#[derive(Clone, Copy, Debug, PartialEq, Eq, Structural)]
pub struct StreamReport {
    pub print_stdout: bool,
    pub print_stderr: bool,
    pub warn_failure: bool,
}

/// The report for a plain external invocation: standard output is shown
/// only on success and only when non-empty; standard error is shown only
/// on failure and only when non-empty; every failure earns a warning.
pub fn plain_report(o: &ChildOutcome) -> (r: StreamReport)
    ensures
        r.print_stdout == (spec_success(o.code) && o.stdout@.len() > 0),
        r.print_stderr == (!spec_success(o.code) && o.stderr@.len() > 0),
        r.warn_failure == !spec_success(o.code),
{
    let ok = outcome_success(&o.code);
    StreamReport {
        print_stdout: ok && o.stdout.len() > 0,
        print_stderr: !ok && o.stderr.len() > 0,
        warn_failure: !ok,
    }
}

/// The report for an invocation whose streams were captured for
/// inspection (input redirection): both streams are shown whenever
/// non-empty, and every failure earns a warning.
pub fn captured_report(o: &ChildOutcome) -> (r: StreamReport)
    ensures
        r.print_stdout == (o.stdout@.len() > 0),
        r.print_stderr == (o.stderr@.len() > 0),
        r.warn_failure == !spec_success(o.code),
{
    let ok = outcome_success(&o.code);
    StreamReport {
        print_stdout: o.stdout.len() > 0,
        print_stderr: o.stderr.len() > 0,
        warn_failure: !ok,
    }
}

/// Whether a status-only invocation (output redirection) earns a failure
/// warning.
pub fn status_warns(code: &Option<i32>) -> (r: bool)
    ensures
        r == !spec_success(*code),
{
    !outcome_success(code)
}

fn outcome_success(code: &Option<i32>) -> (r: bool)
    ensures
        r == spec_success(*code),
{
    match code {
        Some(c) => *c == 0,
        None => false,
    }
}

/// One stage of a pipeline: a command and its arguments.
#[derive(Debug)]
pub struct Stage {
    pub command: String,
    pub args: Vec<String>,
}

/// The mathematical shape of a stage.
pub struct StageModel {
    pub command: Seq<char>,
    pub args: Seq<Seq<char>>,
}

impl View for Stage {
    type V = StageModel;

    open spec fn view(&self) -> StageModel {
        StageModel { command: self.command@, args: self.args.deep_view() }
    }
}

impl DeepView for Stage {
    type V = StageModel;

    open spec fn deep_view(&self) -> StageModel {
        self.view()
    }
}

/// Where a stage's standard input comes from.
#[derive(Clone, Copy, Debug, PartialEq, Eq, Structural)]
pub enum StdinWiring {
    Inherited,
    FromPreviousStage,
}

/// Where a stage's standard output goes.
#[derive(Clone, Copy, Debug, PartialEq, Eq, Structural)]
pub enum StdoutWiring {
    Inherited,
    ToNextStage,
}

/// A stage with its standard streams assigned.
#[derive(Debug)]
pub struct WiredStage {
    pub command: String,
    pub args: Vec<String>,
    pub stdin: StdinWiring,
    pub stdout: StdoutWiring,
}

/// The mathematical shape of a wired stage.
pub struct WiredModel {
    pub command: Seq<char>,
    pub args: Seq<Seq<char>>,
    pub stdin: StdinWiring,
    pub stdout: StdoutWiring,
}

impl View for WiredStage {
    type V = WiredModel;

    open spec fn view(&self) -> WiredModel {
        WiredModel {
            command: self.command@,
            args: self.args.deep_view(),
            stdin: self.stdin,
            stdout: self.stdout,
        }
    }
}

impl DeepView for WiredStage {
    type V = WiredModel;

    open spec fn deep_view(&self) -> WiredModel {
        self.view()
    }
}

/// How an ordered sequence of stages is wired: the first stage reads the
/// terminal's input, each later stage reads the previous stage's output,
/// and only the last stage writes to the terminal.
pub open spec fn spec_wire(stages: Seq<StageModel>) -> Seq<WiredModel> {
    Seq::new(
        stages.len(),
        |i: int|
            WiredModel {
                command: stages[i].command,
                args: stages[i].args,
                stdin: if i == 0 {
                    StdinWiring::Inherited
                } else {
                    StdinWiring::FromPreviousStage
                },
                stdout: if i == stages.len() - 1 {
                    StdoutWiring::Inherited
                } else {
                    StdoutWiring::ToNextStage
                },
            },
    )
}

/// In a wired pipeline only the last stage writes to the terminal, and
/// only the first reads from it: every other stage's output feeds the
/// next stage, which is why a run of the whole pipeline shows output
/// from the final command alone.
pub proof fn lemma_wiring_ends(stages: Seq<StageModel>)
    ensures
        forall|i: int| 0 <= i < stages.len() ==> ((#[trigger] spec_wire(stages)[i].stdout)
            == StdoutWiring::Inherited <==> i == stages.len() - 1),
        forall|i: int| 0 <= i < stages.len() ==> ((#[trigger] spec_wire(stages)[i].stdin)
            == StdinWiring::Inherited <==> i == 0),
{
}

/// Assigns stream wiring to an ordered sequence of stages.
pub fn wire_pipeline(stages: Vec<Stage>) -> (r: Vec<WiredStage>)
    ensures
        r.deep_view() == spec_wire(stages.deep_view()),
{
    let ghost orig = stages.deep_view();
    let mut stages = stages;
    let n = stages.len();
    let mut r: Vec<WiredStage> = Vec::new();
    let mut i: usize = 0;
    while i < n
        invariant
            i <= n,
            n == orig.len(),
            stages@.len() == n - i,
            stages.deep_view() =~= orig.subrange(i as int, n as int),
            r.deep_view() =~= spec_wire(orig).subrange(0, i as int),
        decreases n - i,
    {
        let ghost pre = stages.deep_view();
        proof {
            assert(pre[0] == stages@[0].deep_view());
            assert(pre[0] == orig[i as int]);
        }
        let st = stages.remove(0);
        let ghost st_model = st.deep_view();
        proof {
            assert(st_model == orig[i as int]);
        }
        let Stage { command, args } = st;
        let wired = WiredStage {
            command,
            args,
            stdin: if i == 0 {
                StdinWiring::Inherited
            } else {
                StdinWiring::FromPreviousStage
            },
            stdout: if i + 1 == n {
                StdoutWiring::Inherited
            } else {
                StdoutWiring::ToNextStage
            },
        };
        let ghost wm = wired.deep_view();
        proof {
            assert(wm == spec_wire(orig)[i as int]);
        }
        let ghost r_pre = r.deep_view();
        let ghost old_r_vec = r@;
        r.push(wired);
        i = i + 1;
        proof {
            let sv = stages.deep_view();
            let tg = orig.subrange(i as int, n as int);
            assert(sv.len() == stages@.len());
            assert forall|k: int| 0 <= k < sv.len() implies sv[k] == tg[k] by {
                assert(sv[k] == stages@[k].deep_view());
                assert(pre[k + 1] == orig[i - 1 + k + 1]);
            }
            assert(sv =~= tg);
            let rv = r.deep_view();
            let rt = spec_wire(orig).subrange(0, i as int);
            assert(spec_wire(orig).len() == orig.len());
            assert(r_pre.len() == i - 1);
            assert(rv.len() == r@.len());
            assert forall|k: int| 0 <= k < rv.len() implies rv[k] == rt[k] by {
                assert(rv[k] == r@[k].deep_view());
                if k < rv.len() - 1 {
                    assert(r@[k] == old_r_vec[k]);
                    assert(r_pre[k] == old_r_vec[k].deep_view());
                    assert(r_pre[k] == spec_wire(orig).subrange(0, i - 1)[k]);
                } else {
                    assert(r@[k].deep_view() == wm);
                }
            }
            assert(rv =~= rt);
        }
    }
    proof {
        assert(spec_wire(orig).subrange(0, n as int) =~= spec_wire(orig));
    }
    r
}

} // verus!
