//! The local model server: its address, its launch and its state.

use vstd::prelude::*;
use crate::catalog;
use crate::decimal;

verus! {

/// The port on which the local server listens.
pub const LOCAL_PORT: u16 = 39281;

/// The host on which the local server listens.
pub const LOCAL_HOST: &'static str = "127.0.0.1";

/// How many seconds the local server is given to tell its health.
pub const HEALTH_SECONDS: u64 = 2;

/// How many seconds the local server is given to answer a message.
pub const CHAT_SECONDS: u64 = 300;

/// A request to run a model.
#[derive(Clone, Debug)]
pub struct RuntimeLaunchRequest {
    pub model_path: String,
    pub gpu_layers: Option<i32>,
    pub context_size: Option<u32>,
    pub threads: Option<usize>,
}

/// What is known of the local server.
#[derive(Clone, Debug)]
pub struct RuntimeStatus {
    pub state: String,
    pub model_path: Option<String>,
    pub endpoint: String,
    pub detail: String,
    pub pid: Option<u32>,
    pub gpu_layers: Option<i32>,
    pub context_size: Option<u32>,
}

/// What a status says.
#[verifier::ext_equal]
pub struct RuntimeStatusView {
    pub state: Seq<char>,
    pub model_path: Option<Seq<char>>,
    pub endpoint: Seq<char>,
    pub detail: Seq<char>,
    pub pid: Option<u32>,
    pub gpu_layers: Option<i32>,
    pub context_size: Option<u32>,
}

impl View for RuntimeStatus {
    type V = RuntimeStatusView;

    open spec fn view(&self) -> RuntimeStatusView {
        RuntimeStatusView {
            state: self.state@,
            model_path: catalog::optional_view(self.model_path),
            endpoint: self.endpoint@,
            detail: self.detail@,
            pid: self.pid,
            gpu_layers: self.gpu_layers,
            context_size: self.context_size,
        }
    }
}

/// The address of the local server.
pub open spec fn endpoint() -> Seq<char> {
    "http://127.0.0.1:39281"@
}

/// The address of the local server.
pub fn local_endpoint() -> (r: String)
    ensures
        r@ == endpoint(),
{
    let r = "http://".to_owned().concat(LOCAL_HOST).concat(":").concat(
        decimal::number(LOCAL_PORT as u64).as_str(),
    );
    proof {
        reveal_strlit("http://");
        reveal_strlit("127.0.0.1");
        reveal_strlit(":");
        reveal_strlit("http://127.0.0.1:39281");
        reveal_with_fuel(decimal::number_text, 5);
        assert(decimal::number_text(39281) =~= seq!['3', '9', '2', '8', '1']);
        assert(r@ =~= endpoint());
    }
    r
}

/// The status of a server that does not run.
pub open spec fn stopped(detail: Seq<char>) -> RuntimeStatusView {
    RuntimeStatusView {
        state: "stopped"@,
        model_path: None,
        endpoint: endpoint(),
        detail,
        pid: None,
        gpu_layers: None,
        context_size: None,
    }
}

/// The status of a server that does not run.
pub fn stopped_status(detail: &str) -> (r: RuntimeStatus)
    ensures
        r@ == stopped(detail@),
{
    RuntimeStatus {
        state: "stopped".to_owned(),
        model_path: None,
        endpoint: local_endpoint(),
        detail: detail.to_owned(),
        pid: None,
        gpu_layers: None,
        context_size: None,
    }
}

/// The model server that was started last.
#[derive(Clone, Debug)]
pub struct RuntimeProcess {
    pub pid: u32,
    pub model_path: String,
    pub gpu_layers: i32,
    pub context_size: u32,
}

/// What is known of a started server.
#[verifier::ext_equal]
pub struct RuntimeProcessView {
    pub pid: u32,
    pub model_path: Seq<char>,
    pub gpu_layers: i32,
    pub context_size: u32,
}

impl View for RuntimeProcess {
    type V = RuntimeProcessView;

    open spec fn view(&self) -> RuntimeProcessView {
        RuntimeProcessView {
            pid: self.pid,
            model_path: self.model_path@,
            gpu_layers: self.gpu_layers,
            context_size: self.context_size,
        }
    }
}

/// Keeps track of the model server.
#[derive(Debug)]
pub struct RuntimeManager {
    pub process: Option<RuntimeProcess>,
}

pub open spec fn process_view(process: Option<RuntimeProcess>) -> Option<RuntimeProcessView> {
    match process {
        Some(p) => Some(p@),
        None => None,
    }
}

impl View for RuntimeManager {
    type V = Option<RuntimeProcessView>;

    open spec fn view(&self) -> Option<RuntimeProcessView> {
        process_view(self.process)
    }
}

impl Default for RuntimeManager {
    /// No server runs at first.
    fn default() -> (r: RuntimeManager)
        ensures
            r@ == None::<RuntimeProcessView>,
    {
        RuntimeManager { process: None }
    }
}

/// What is said where the lock that guards the server is poisoned: a thread has failed while
/// it held the lock.
pub open spec fn poisoned_message() -> Seq<char> {
    "Runtime lock was poisoned"@
}

/// What to do to a process that is given up. It does not matter what comes of it.
#[derive(Clone, Copy, Debug, PartialEq, Eq, Structural)]
pub enum StopStep {
    /// Kill the process.
    Kill(u32),
    /// Wait for its end.
    Wait(u32),
}

/// What to do to a kept server that is given up.
pub open spec fn stop_steps(process: Option<RuntimeProcessView>) -> Seq<StopStep> {
    match process {
        Some(p) => seq![StopStep::Kill(p.pid), StopStep::Wait(p.pid)],
        None => Seq::empty(),
    }
}

/// What is left of the server when it is stopped, and what to do to its process.
pub open spec fn stop_step(process: Option<RuntimeProcessView>, poisoned: bool) -> (
    Option<RuntimeProcessView>,
    Result<Seq<StopStep>, Seq<char>>,
) {
    if poisoned {
        (process, Err(poisoned_message()))
    } else {
        (None, Ok(stop_steps(process)))
    }
}

/// The view of what to do to a process, or of word why not.
pub open spec fn stop_view(r: Result<Vec<StopStep>, String>) -> Result<Seq<StopStep>, Seq<char>> {
    match r {
        Ok(steps) => Ok(steps@),
        Err(message) => Err(message@),
    }
}

/// What the operating system says of the server process.
#[derive(Clone, Debug)]
pub enum ProcessProbe {
    /// It runs.
    Running,
    /// It ended in the given way.
    Exited(String),
    /// It could not be asked, for the given reason.
    Unknown(String),
}

/// What to do about a request for the status.
#[derive(Clone, Debug)]
pub enum StatusAction {
    /// Report the status.
    Report(RuntimeStatus),
    /// Ask the server for its health, and report by the answer.
    ProbeHealth(RuntimeProcess),
    /// Fail with a message.
    Fail(String),
}

/// What to do about a request for the status.
#[verifier::ext_equal]
pub enum StatusActionView {
    Report(RuntimeStatusView),
    ProbeHealth(RuntimeProcessView),
    Fail(Seq<char>),
}

impl View for StatusAction {
    type V = StatusActionView;

    open spec fn view(&self) -> StatusActionView {
        match self {
            StatusAction::Report(status) => StatusActionView::Report(status@),
            StatusAction::ProbeHealth(process) => StatusActionView::ProbeHealth(process@),
            StatusAction::Fail(message) => StatusActionView::Fail(message@),
        }
    }
}

/// What is left of the server after a look at its process, and what to do.
pub open spec fn status_step(
    process: Option<RuntimeProcessView>,
    poisoned: bool,
    probe: ProcessProbe,
) -> (Option<RuntimeProcessView>, StatusActionView) {
    if poisoned {
        (process, StatusActionView::Fail(poisoned_message()))
    } else {
        status_of(process, probe)
    }
}

/// What is left of the server after a look at its process, and what to do, where the lock
/// is sound.
pub open spec fn status_of(process: Option<RuntimeProcessView>, probe: ProcessProbe) -> (
    Option<RuntimeProcessView>,
    StatusActionView,
) {
    match process {
        None => (None, StatusActionView::Report(stopped("No local model is running."@))),
        Some(p) => match probe {
            ProcessProbe::Running => (process, StatusActionView::ProbeHealth(p)),
            ProcessProbe::Exited(exit) => (
                None,
                StatusActionView::Report(
                    stopped("The local runtime exited unexpectedly with "@ + exit@ + "."@),
                ),
            ),
            ProcessProbe::Unknown(error) => (
                process,
                StatusActionView::Fail("Could not inspect the local runtime: "@ + error@),
            ),
        },
    }
}

/// What a running server is, by whether it answered that it is healthy.
pub open spec fn running(process: RuntimeProcessView, ready: bool) -> RuntimeStatusView {
    RuntimeStatusView {
        state: if ready {
            "ready"@
        } else {
            "loading"@
        },
        model_path: Some(process.model_path),
        endpoint: endpoint(),
        detail: if ready {
            "The local model is ready."@
        } else {
            "The runtime is running and the model is still loading."@
        },
        pid: Some(process.pid),
        gpu_layers: Some(process.gpu_layers),
        context_size: Some(process.context_size),
    }
}

/// What a running server is, by whether it answered that it is healthy.
pub fn running_status(process: &RuntimeProcess, ready: bool) -> (r: RuntimeStatus)
    ensures
        r@ == running(process@, ready),
{
    RuntimeStatus {
        state: if ready { "ready".to_owned() } else { "loading".to_owned() },
        model_path: Some(process.model_path.clone()),
        endpoint: local_endpoint(),
        detail: if ready {
            "The local model is ready.".to_owned()
        } else {
            "The runtime is running and the model is still loading.".to_owned()
        },
        pid: Some(process.pid),
        gpu_layers: Some(process.gpu_layers),
        context_size: Some(process.context_size),
    }
}

/// What the server is asked to be restarted with.
pub open spec fn restart_of(process: RuntimeProcessView, r: RuntimeLaunchRequest) -> bool {
    &&& r.model_path@ == process.model_path
    &&& r.gpu_layers == Some(process.gpu_layers)
    &&& r.context_size == Some(process.context_size)
    &&& r.threads is None
}

/// What is left of the server after a look at its process, and whether it can be asked.
pub open spec fn chat_step(
    process: Option<RuntimeProcessView>,
    poisoned: bool,
    probe: ProcessProbe,
) -> (Option<RuntimeProcessView>, Result<(), Seq<char>>) {
    if poisoned {
        (process, Err(poisoned_message()))
    } else {
        admission(process, probe)
    }
}

/// What is left of the server after a look at its process, and whether it can be asked,
/// where the lock is sound.
pub open spec fn admission(process: Option<RuntimeProcessView>, probe: ProcessProbe) -> (
    Option<RuntimeProcessView>,
    Result<(), Seq<char>>,
) {
    match process {
        None => (None, Err("Start a local model before sending a message."@)),
        Some(_) => match probe {
            ProcessProbe::Running => (process, Ok(())),
            ProcessProbe::Exited(exit) => (
                None,
                Err("The model runtime stopped before the request could be sent: "@ + exit@),
            ),
            ProcessProbe::Unknown(error) => (
                process,
                Err("Could not inspect runtime: "@ + error@),
            ),
        },
    }
}

/// The view of an outcome that is a text where it failed.
pub open spec fn failure_view<T>(r: Result<T, String>) -> Result<T, Seq<char>> {
    match r {
        Ok(t) => Ok(t),
        Err(message) => Err(message@),
    }
}

impl RuntimeManager {
    /// Gives up the server. A poisoned lock leaves it as it is.
    pub fn stop_runtime_internal(&mut self, poisoned: bool) -> (r: Result<Vec<StopStep>, String>)
        ensures
            (final(self)@, stop_view(r)) == stop_step(old(self)@, poisoned),
    {
        if poisoned {
            return Err("Runtime lock was poisoned".to_owned());
        }
        match self.process.take() {
            Some(process) => {
                let steps = vec![StopStep::Kill(process.pid), StopStep::Wait(process.pid)];
                assert(steps@ =~= seq![StopStep::Kill(process.pid), StopStep::Wait(process.pid)]);
                Ok(steps)
            },
            None => Ok(Vec::new()),
        }
    }

    /// Gives up the server, and says so.
    pub fn stop_runtime(&mut self, poisoned: bool) -> (r: Result<
        (Vec<StopStep>, RuntimeStatus),
        String,
    >)
        ensures
            final(self)@ == stop_step(old(self)@, poisoned).0,
            match stop_step(old(self)@, poisoned).1 {
                Ok(steps) => r is Ok && r->Ok_0.0@ == steps && r->Ok_0.1@ == stopped(
                    "The local model runtime was stopped safely."@,
                ),
                Err(message) => r is Err && r->Err_0@ == message,
            },
    {
        match self.stop_runtime_internal(poisoned) {
            Ok(steps) => Ok(
                (steps, stopped_status("The local model runtime was stopped safely.")),
            ),
            Err(message) => Err(message),
        }
    }

    /// What to launch to run the same model again.
    pub fn restart_request(&self, poisoned: bool) -> (r: Result<RuntimeLaunchRequest, String>)
        ensures
            if poisoned {
                r is Err && r->Err_0@ == poisoned_message()
            } else {
                match self@ {
                    Some(process) => r is Ok && restart_of(process, r->Ok_0),
                    None => r is Err && r->Err_0@ == "No model has been started yet."@,
                }
            },
    {
        if poisoned {
            return Err("Runtime lock was poisoned".to_owned());
        }
        match &self.process {
            Some(process) => Ok(
                RuntimeLaunchRequest {
                    model_path: process.model_path.clone(),
                    gpu_layers: Some(process.gpu_layers),
                    context_size: Some(process.context_size),
                    threads: None,
                },
            ),
            None => Err("No model has been started yet.".to_owned()),
        }
    }

    /// What to do about a request for the status, after a look at the process. Without a
    /// process the probe does not count.
    pub fn runtime_status(&mut self, poisoned: bool, probe: ProcessProbe) -> (action: StatusAction)
        ensures
            (final(self)@, action@) == status_step(old(self)@, poisoned, probe),
    {
        if poisoned {
            return StatusAction::Fail("Runtime lock was poisoned".to_owned());
        }
        match &self.process {
            None => StatusAction::Report(stopped_status("No local model is running.")),
            Some(process) => match probe {
                ProcessProbe::Running => StatusAction::ProbeHealth(
                    RuntimeProcess {
                        pid: process.pid,
                        model_path: process.model_path.clone(),
                        gpu_layers: process.gpu_layers,
                        context_size: process.context_size,
                    },
                ),
                ProcessProbe::Exited(exit) => {
                    let detail = "The local runtime exited unexpectedly with ".to_owned().concat(
                        exit.as_str(),
                    ).concat(".");
                    self.process = None;
                    StatusAction::Report(stopped_status(detail.as_str()))
                },
                ProcessProbe::Unknown(error) => StatusAction::Fail(
                    "Could not inspect the local runtime: ".to_owned().concat(error.as_str()),
                ),
            },
        }
    }

    /// Whether the server can be asked, after a look at its process. Without a process the
    /// probe does not count.
    pub fn admit_chat(&mut self, poisoned: bool, probe: ProcessProbe) -> (r: Result<(), String>)
        ensures
            (final(self)@, failure_view(r)) == chat_step(old(self)@, poisoned, probe),
    {
        if poisoned {
            return Err("Runtime lock was poisoned".to_owned());
        }
        if self.process.is_none() {
            return Err("Start a local model before sending a message.".to_owned());
        }
        match probe {
            ProcessProbe::Running => Ok(()),
            ProcessProbe::Exited(exit) => {
                self.process = None;
                Err(
                    "The model runtime stopped before the request could be sent: ".to_owned().concat(
                        exit.as_str(),
                    ),
                )
            },
            ProcessProbe::Unknown(error) => Err(
                "Could not inspect runtime: ".to_owned().concat(error.as_str()),
            ),
        }
    }
}

/// Stopping fails exactly where the lock is poisoned, and then changes nothing. Otherwise no
/// server is kept, and one that was kept is killed and then waited for. With none kept
/// nothing is done, so that stopping twice is stopping once.
pub proof fn lemma_stop(process: Option<RuntimeProcessView>, poisoned: bool)
    ensures
        ({
            let (left, outcome) = stop_step(process, poisoned);
            &&& outcome is Err <==> poisoned
            &&& poisoned ==> left == process && outcome == Err::<Seq<StopStep>, Seq<char>>(
                poisoned_message(),
            )
            &&& !poisoned ==> left is None
            &&& !poisoned ==> (process matches Some(p) ==> outcome == Ok::<
                Seq<StopStep>,
                Seq<char>,
            >(seq![StopStep::Kill(p.pid), StopStep::Wait(p.pid)]))
            &&& !poisoned && process is None ==> outcome == Ok::<Seq<StopStep>, Seq<char>>(
                Seq::empty(),
            )
            &&& !poisoned ==> stop_step(left, false) == (
                left,
                Ok::<Seq<StopStep>, Seq<char>>(Seq::empty()),
            )
        }),
{
}

/// Without a server the status is that none runs, and no message is let through, whatever
/// the operating system says.
pub proof fn lemma_without_server(probe: ProcessProbe)
    ensures
        status_step(None, false, probe) == (
            None::<RuntimeProcessView>,
            StatusActionView::Report(stopped("No local model is running."@)),
        ),
        chat_step(None, false, probe) == (
            None::<RuntimeProcessView>,
            Err::<(), Seq<char>>("Start a local model before sending a message."@),
        ),
{
}

/// A message is let through exactly where a server is kept and runs and the lock is sound.
/// The server is forgotten exactly where it has exited and the lock is sound, and no step
/// makes up another.
pub proof fn lemma_looks_at_server(
    process: RuntimeProcessView,
    poisoned: bool,
    probe: ProcessProbe,
)
    ensures
        chat_step(Some(process), poisoned, probe).1 is Ok <==> probe is Running && !poisoned,
        chat_step(Some(process), poisoned, probe).0 == if probe is Exited && !poisoned {
            None
        } else {
            Some(process)
        },
        status_step(Some(process), poisoned, probe).0 == chat_step(
            Some(process),
            poisoned,
            probe,
        ).0,
{
}

} // verus!
