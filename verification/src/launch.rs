//! The steps by which the local model server is brought up.

use vstd::prelude::*;
use crate::decimal;
use crate::hardware;
use crate::hardware::HardwareProfile;
use crate::runtime;
use crate::runtime::{
    RuntimeLaunchRequest, RuntimeManager, RuntimeProcess, RuntimeProcessView, RuntimeStatus,
    RuntimeStatusView, StopStep, HEALTH_SECONDS, LOCAL_HOST, LOCAL_PORT,
};
use crate::text;

verus! {

/// What the server is launched with.
#[derive(Clone, Copy, Debug)]
pub struct LaunchPlan {
    pub gpu_layers: i32,
    pub context_size: u32,
    pub threads: usize,
}

/// The threads to use on a machine of so many cores: all but one, and one at least.
pub open spec fn threads_for(cpu_cores: usize) -> usize {
    if cpu_cores > 2 {
        (cpu_cores - 1) as usize
    } else {
        1
    }
}

/// What is asked for, and what suits the machine where nothing is.
pub open spec fn plan_of(
    gpu_layers: Option<i32>,
    context_size: Option<u32>,
    threads: Option<usize>,
    hardware: HardwareProfile,
) -> LaunchPlan {
    LaunchPlan {
        gpu_layers: match gpu_layers {
            Some(n) => n,
            None => hardware::gpu_layers_for(hardware::vram_of(hardware.vram_gb)) as i32,
        },
        context_size: match context_size {
            Some(n) => n,
            None => hardware::context_size_for(hardware.total_ram_gb) as u32,
        },
        threads: match threads {
            Some(n) => n,
            None => threads_for(hardware.cpu_cores),
        },
    }
}

/// What is asked for, and what suits the machine where nothing is.
pub fn launch_plan(request: &RuntimeLaunchRequest, hardware: &HardwareProfile) -> (plan: LaunchPlan)
    ensures
        plan == plan_of(request.gpu_layers, request.context_size, request.threads, *hardware),
{
    LaunchPlan {
        gpu_layers: match request.gpu_layers {
            Some(n) => n,
            None => hardware::recommended_gpu_layers(hardware),
        },
        context_size: match request.context_size {
            Some(n) => n,
            None => hardware::recommended_context_size(hardware),
        },
        threads: match request.threads {
            Some(n) => n,
            None => if hardware.cpu_cores > 2 {
                hardware.cpu_cores - 1
            } else {
                1
            },
        },
    }
}

/// The arguments of the server.
pub open spec fn arguments_of(model_path: Seq<char>, plan: LaunchPlan) -> Seq<Seq<char>> {
    seq![
        "--model"@,
        model_path,
        "--host"@,
        LOCAL_HOST@,
        "--port"@,
        decimal::number_text(LOCAL_PORT as nat),
        "--ctx-size"@,
        decimal::number_text(plan.context_size as nat),
        "--threads"@,
        decimal::number_text(plan.threads as nat),
        "--n-gpu-layers"@,
        decimal::integer_text(plan.gpu_layers as int),
        "--jinja"@,
    ]
}

/// The arguments of the server.
pub fn server_arguments(model_path: &str, plan: &LaunchPlan) -> (r: Vec<String>)
    ensures
        text::views(r@) == arguments_of(model_path@, *plan),
{
    let r = vec![
        "--model".to_owned(),
        model_path.to_owned(),
        "--host".to_owned(),
        LOCAL_HOST.to_owned(),
        "--port".to_owned(),
        decimal::number(LOCAL_PORT as u64),
        "--ctx-size".to_owned(),
        decimal::number(plan.context_size as u64),
        "--threads".to_owned(),
        decimal::number(plan.threads as u64),
        "--n-gpu-layers".to_owned(),
        decimal::integer(plan.gpu_layers),
        "--jinja".to_owned(),
    ];
    assert(text::views(r@) =~= arguments_of(model_path@, *plan));
    r
}

/// The folders in which the server may lie.
#[derive(Clone, Copy, Debug, PartialEq, Eq, Structural)]
pub enum BaseFolder {
    Resources,
    AppData,
    Current,
}

/// A place where the server may lie: a folder and the way down from it.
#[derive(Clone, Debug)]
pub struct ServerLocation {
    pub base: BaseFolder,
    pub segments: Vec<String>,
}

impl View for ServerLocation {
    type V = (BaseFolder, Seq<Seq<char>>);

    open spec fn view(&self) -> (BaseFolder, Seq<Seq<char>>) {
        (self.base, text::views(self.segments@))
    }
}

/// The name of the server's file.
pub open spec fn server_name(windows: bool) -> Seq<char> {
    if windows {
        "llama-server.exe"@
    } else {
        "llama-server"@
    }
}

/// The places where the server may lie, the preferred one first. A folder that is not
/// known gives none.
pub open spec fn locations(
    resources: bool,
    app_data: bool,
    current: bool,
    windows: bool,
) -> Seq<(BaseFolder, Seq<Seq<char>>)> {
    let name = server_name(windows);
    let bundled = if resources {
        seq![
            (BaseFolder::Resources, seq!["runtime"@, name]),
            (BaseFolder::Resources, seq![name]),
        ]
    } else {
        Seq::empty()
    };
    let installed = if app_data {
        seq![(BaseFolder::AppData, seq!["runtime"@, name])]
    } else {
        Seq::empty()
    };
    let developed = if current {
        seq![
            (BaseFolder::Current, seq!["src-tauri"@, "resources"@, "runtime"@, name]),
            (BaseFolder::Current, seq!["resources"@, "runtime"@, name]),
        ]
    } else {
        Seq::empty()
    };
    bundled + installed + developed
}

/// The views of a list of places.
pub open spec fn location_views(list: Seq<ServerLocation>) -> Seq<(BaseFolder, Seq<Seq<char>>)> {
    list.map_values(|l: ServerLocation| l@)
}

/// The places where the server may lie, the preferred one first.
pub fn server_locations(resources: bool, app_data: bool, current: bool, windows: bool) -> (r: Vec<
    ServerLocation,
>)
    ensures
        location_views(r@) == locations(resources, app_data, current, windows),
{
    let name: &str = if windows { "llama-server.exe" } else { "llama-server" };
    let mut r: Vec<ServerLocation> = Vec::new();
    if resources {
        let segments = vec!["runtime".to_owned(), name.to_owned()];
        assert(text::views(segments@) =~= seq!["runtime"@, name@]);
        r.push(ServerLocation { base: BaseFolder::Resources, segments });
        let segments = vec![name.to_owned()];
        assert(text::views(segments@) =~= seq![name@]);
        r.push(ServerLocation { base: BaseFolder::Resources, segments });
    }
    if app_data {
        let segments = vec!["runtime".to_owned(), name.to_owned()];
        assert(text::views(segments@) =~= seq!["runtime"@, name@]);
        r.push(ServerLocation { base: BaseFolder::AppData, segments });
    }
    if current {
        let segments = vec![
            "src-tauri".to_owned(),
            "resources".to_owned(),
            "runtime".to_owned(),
            name.to_owned(),
        ];
        assert(text::views(segments@) =~= seq!["src-tauri"@, "resources"@, "runtime"@, name@]);
        r.push(ServerLocation { base: BaseFolder::Current, segments });
        let segments = vec!["resources".to_owned(), "runtime".to_owned(), name.to_owned()];
        assert(text::views(segments@) =~= seq!["resources"@, "runtime"@, name@]);
        r.push(ServerLocation { base: BaseFolder::Current, segments });
    }
    assert(location_views(r@) =~= locations(resources, app_data, current, windows));
    r
}

/// The first place at which the server was found, or word that there is none.
pub fn locate_llama_server(found: &Vec<bool>) -> (r: Result<usize, String>)
    ensures
        r is Ok <==> found@.contains(true),
        r matches Ok(i) ==> i < found.len() && found@[i as int] && forall|j: int|
            0 <= j < i ==> !#[trigger] found@[j],
        r matches Err(message) ==> message@
            == "The llama.cpp runtime is missing from this installation. Reinstall MyAILocalModel or use an official release installer."@,
{
    for i in 0..found.len()
        invariant
            forall|j: int| 0 <= j < i ==> !#[trigger] found@[j],
    {
        if found[i] {
            return Ok(i);
        }
    }
    Err(
        "The llama.cpp runtime is missing from this installation. Reinstall MyAILocalModel or use an official release installer.".to_owned(),
    )
}

/// Where a server is asked for its health.
pub fn health_url(endpoint: &str) -> (r: String)
    ensures
        r@ == endpoint@ + "/health"@,
{
    endpoint.to_owned().concat("/health")
}

/// What happened while waiting for the server.
#[derive(Clone, Copy, Debug)]
pub enum HealthEvent {
    /// So many nanoseconds have gone by.
    Waited(u128),
    /// The server was asked, and did or did not answer that it is healthy.
    Answered(bool),
}

/// What to do while waiting for the server.
#[derive(Clone, Debug)]
pub enum HealthAction {
    /// Ask the server, and give it so many seconds.
    Ask(u64),
    /// Sleep so many milliseconds.
    Sleep(u64),
    /// The server is ready.
    Ready,
    /// Give up with a message.
    GiveUp(String),
}

/// What to do while waiting for the server.
#[verifier::ext_equal]
pub enum HealthActionView {
    Ask(u64),
    Sleep(u64),
    Ready,
    GiveUp(Seq<char>),
}

impl View for HealthAction {
    type V = HealthActionView;

    open spec fn view(&self) -> HealthActionView {
        match self {
            HealthAction::Ask(seconds) => HealthActionView::Ask(*seconds),
            HealthAction::Sleep(millis) => HealthActionView::Sleep(*millis),
            HealthAction::Ready => HealthActionView::Ready,
            HealthAction::GiveUp(message) => HealthActionView::GiveUp(message@),
        }
    }
}

/// What to do while waiting for the server for at most `timeout` seconds.
pub open spec fn health_step(timeout: u64, event: HealthEvent) -> HealthActionView {
    match event {
        HealthEvent::Waited(nanos) => if nanos < timeout * 1_000_000_000 {
            HealthActionView::Ask(HEALTH_SECONDS)
        } else {
            HealthActionView::GiveUp(
                "Timed out after "@ + decimal::number_text(timeout as nat) + " seconds"@,
            )
        },
        HealthEvent::Answered(healthy) => if healthy {
            HealthActionView::Ready
        } else {
            HealthActionView::Sleep(750)
        },
    }
}

/// What to do while waiting for the server for at most `timeout` seconds.
pub fn wait_for_health(timeout: u64, event: HealthEvent) -> (action: HealthAction)
    ensures
        action@ == health_step(timeout, event),
{
    match event {
        HealthEvent::Waited(nanos) => if nanos < timeout as u128 * 1_000_000_000 {
            HealthAction::Ask(HEALTH_SECONDS)
        } else {
            HealthAction::GiveUp(
                "Timed out after ".to_owned().concat(decimal::number(timeout).as_str()).concat(
                    " seconds",
                ),
            )
        },
        HealthEvent::Answered(healthy) => if healthy {
            HealthAction::Ready
        } else {
            HealthAction::Sleep(750)
        },
    }
}

/// How far a launch has come: what was asked for last.
#[derive(Clone, Copy, Debug, PartialEq, Eq, Structural)]
pub enum LaunchStage {
    Model,
    Location,
    LogFolder,
    LogFolderCreation,
    LogFile,
    LogFileCopy,
    Spawn,
    Health,
    Over,
}

/// A launch under way.
#[derive(Clone, Debug)]
pub struct Launch {
    pub stage: LaunchStage,
    pub request: RuntimeLaunchRequest,
    /// What the server is launched with, once the machine is known.
    pub plan: LaunchPlan,
    /// Where the server lies, once it is found.
    pub executable: String,
    /// The server's process, once it is started.
    pub pid: u32,
}

/// What is known of a launch under way.
#[verifier::ext_equal]
pub struct LaunchView {
    pub stage: LaunchStage,
    pub model_path: Seq<char>,
    pub gpu_layers: Option<i32>,
    pub context_size: Option<u32>,
    pub threads: Option<usize>,
    pub plan: LaunchPlan,
    pub executable: Seq<char>,
    pub pid: u32,
}

impl View for Launch {
    type V = LaunchView;

    open spec fn view(&self) -> LaunchView {
        LaunchView {
            stage: self.stage,
            model_path: self.request.model_path@,
            gpu_layers: self.request.gpu_layers,
            context_size: self.request.context_size,
            threads: self.request.threads,
            plan: self.plan,
            executable: self.executable@,
            pid: self.pid,
        }
    }
}

/// What came of what was asked for.
#[derive(Clone, Debug)]
pub enum LaunchEvent {
    /// The model file is there; the machine is as given.
    ModelFound(HardwareProfile),
    /// The model file is not there.
    ModelMissing,
    /// The server lies at the given place.
    Located(String),
    /// The server runs as the given process.
    Spawned(u32),
    /// It was done.
    Done,
    /// It failed for the given reason.
    Failed(String),
}

/// What to do next.
#[derive(Clone, Debug)]
pub enum LaunchAction {
    /// Look for the server.
    Locate,
    /// Find out the folder of the logs.
    ResolveLogFolder,
    /// Create that folder.
    CreateLogFolder,
    /// Create the log file.
    CreateLogFile,
    /// Get a second handle on the log file.
    CopyLogFile,
    /// Start the server with the given arguments.
    Spawn(Vec<String>),
    /// Wait for the server's health, for so many seconds.
    AwaitHealth(u64),
    /// Report that the server runs.
    Report(RuntimeStatus),
    /// Do what is to be done to a process that is given up, and fail with a message.
    Fail(Vec<StopStep>, String),
}

/// What to do next.
#[verifier::ext_equal]
pub enum LaunchActionView {
    Locate,
    ResolveLogFolder,
    CreateLogFolder,
    CreateLogFile,
    CopyLogFile,
    Spawn(Seq<Seq<char>>),
    AwaitHealth(u64),
    Report(RuntimeStatusView),
    Fail(Seq<StopStep>, Seq<char>),
}

impl View for LaunchAction {
    type V = LaunchActionView;

    open spec fn view(&self) -> LaunchActionView {
        match self {
            LaunchAction::Locate => LaunchActionView::Locate,
            LaunchAction::ResolveLogFolder => LaunchActionView::ResolveLogFolder,
            LaunchAction::CreateLogFolder => LaunchActionView::CreateLogFolder,
            LaunchAction::CreateLogFile => LaunchActionView::CreateLogFile,
            LaunchAction::CopyLogFile => LaunchActionView::CopyLogFile,
            LaunchAction::Spawn(arguments) => LaunchActionView::Spawn(text::views(arguments@)),
            LaunchAction::AwaitHealth(seconds) => LaunchActionView::AwaitHealth(*seconds),
            LaunchAction::Report(status) => LaunchActionView::Report(status@),
            LaunchAction::Fail(steps, message) => LaunchActionView::Fail(steps@, message@),
        }
    }
}

/// Whether an event answers what was asked for.
pub open spec fn answers(stage: LaunchStage, event: LaunchEvent) -> bool {
    match event {
        LaunchEvent::ModelFound(_) => stage == LaunchStage::Model,
        LaunchEvent::ModelMissing => stage == LaunchStage::Model,
        LaunchEvent::Located(_) => stage == LaunchStage::Location,
        LaunchEvent::Spawned(_) => stage == LaunchStage::Spawn,
        LaunchEvent::Done => stage == LaunchStage::LogFolder || stage
            == LaunchStage::LogFolderCreation || stage == LaunchStage::LogFile || stage
            == LaunchStage::LogFileCopy || stage == LaunchStage::Health,
        LaunchEvent::Failed(_) => stage != LaunchStage::Model && stage != LaunchStage::Over,
    }
}

/// What a failure at a stage is told as.
pub open spec fn failure_message(launch: LaunchView, error: Seq<char>) -> Seq<char> {
    match launch.stage {
        LaunchStage::LogFolder => "Could not resolve the log folder: "@ + error,
        LaunchStage::LogFolderCreation => "Could not create the log folder: "@ + error,
        LaunchStage::LogFile => "Could not create the runtime log: "@ + error,
        LaunchStage::LogFileCopy => "Could not prepare the runtime log: "@ + error,
        LaunchStage::Spawn => "The bundled llama.cpp runtime could not start. Runtime: "@
            + launch.executable + ". Error: "@ + error,
        LaunchStage::Health => "The model runtime started but did not become ready: "@ + error
            + ". Check the llama-server log in the application log folder."@,
        _ => error,
    }
}

/// The server that a launch has started.
pub open spec fn process_of(launch: LaunchView, pid: u32) -> RuntimeProcessView {
    RuntimeProcessView {
        pid,
        model_path: launch.model_path,
        gpu_layers: launch.plan.gpu_layers,
        context_size: launch.plan.context_size,
    }
}

/// The status of a server that was launched and answered.
pub open spec fn launched(launch: LaunchView) -> RuntimeStatusView {
    RuntimeStatusView {
        state: "ready"@,
        model_path: Some(launch.model_path),
        endpoint: runtime::endpoint(),
        detail: "The local model is loaded and ready. No prompt data leaves this computer."@,
        pid: Some(launch.pid),
        gpu_layers: Some(launch.plan.gpu_layers),
        context_size: Some(launch.plan.context_size),
    }
}

/// The launch at another stage.
pub open spec fn at_stage(launch: LaunchView, stage: LaunchStage) -> LaunchView {
    LaunchView { stage, ..launch }
}

/// The next state of a launch and of the manager, and what to do. The lock counts where the
/// started server is kept, and where a server that does not become ready is given up: a
/// poisoned one makes the launch fail there, and leaves the server as it is here.
pub open spec fn launch_step(
    launch: LaunchView,
    process: Option<RuntimeProcessView>,
    poisoned: bool,
    event: LaunchEvent,
) -> (LaunchView, Option<RuntimeProcessView>, LaunchActionView) {
    match event {
        LaunchEvent::ModelFound(hardware) => (
            LaunchView {
                stage: LaunchStage::Location,
                plan: plan_of(launch.gpu_layers, launch.context_size, launch.threads, hardware),
                ..launch
            },
            process,
            LaunchActionView::Locate,
        ),
        LaunchEvent::ModelMissing => (
            at_stage(launch, LaunchStage::Over),
            process,
            LaunchActionView::Fail(
                Seq::empty(),
                "The selected model file does not exist: "@ + launch.model_path,
            ),
        ),
        LaunchEvent::Located(place) => (
            LaunchView { stage: LaunchStage::LogFolder, executable: place@, ..launch },
            process,
            LaunchActionView::ResolveLogFolder,
        ),
        LaunchEvent::Spawned(pid) => if poisoned {
            (
                at_stage(launch, LaunchStage::Over),
                process,
                LaunchActionView::Fail(Seq::empty(), runtime::poisoned_message()),
            )
        } else {
            (
                LaunchView { stage: LaunchStage::Health, pid, ..launch },
                Some(process_of(launch, pid)),
                LaunchActionView::AwaitHealth(90),
            )
        },
        LaunchEvent::Done => match launch.stage {
            LaunchStage::LogFolder => (
                at_stage(launch, LaunchStage::LogFolderCreation),
                process,
                LaunchActionView::CreateLogFolder,
            ),
            LaunchStage::LogFolderCreation => (
                at_stage(launch, LaunchStage::LogFile),
                process,
                LaunchActionView::CreateLogFile,
            ),
            LaunchStage::LogFile => (
                at_stage(launch, LaunchStage::LogFileCopy),
                process,
                LaunchActionView::CopyLogFile,
            ),
            LaunchStage::LogFileCopy => (
                at_stage(launch, LaunchStage::Spawn),
                process,
                LaunchActionView::Spawn(arguments_of(launch.model_path, launch.plan)),
            ),
            _ => (
                at_stage(launch, LaunchStage::Over),
                process,
                LaunchActionView::Report(launched(launch)),
            ),
        },
        LaunchEvent::Failed(error) => if launch.stage == LaunchStage::Health && !poisoned {
            (
                at_stage(launch, LaunchStage::Over),
                None,
                LaunchActionView::Fail(
                    runtime::stop_steps(process),
                    failure_message(launch, error@),
                ),
            )
        } else {
            (
                at_stage(launch, LaunchStage::Over),
                process,
                LaunchActionView::Fail(Seq::empty(), failure_message(launch, error@)),
            )
        },
    }
}

impl Launch {
    fn describe_failure(&self, error: &str) -> (message: String)
        ensures
            message@ == failure_message(self@, error@),
    {
        match self.stage {
            LaunchStage::LogFolder => "Could not resolve the log folder: ".to_owned().concat(error),
            LaunchStage::LogFolderCreation => "Could not create the log folder: ".to_owned().concat(
                error,
            ),
            LaunchStage::LogFile => "Could not create the runtime log: ".to_owned().concat(error),
            LaunchStage::LogFileCopy => "Could not prepare the runtime log: ".to_owned().concat(
                error,
            ),
            LaunchStage::Spawn => "The bundled llama.cpp runtime could not start. Runtime: ".to_owned().concat(
                self.executable.as_str(),
            ).concat(". Error: ").concat(error),
            LaunchStage::Health => "The model runtime started but did not become ready: ".to_owned().concat(
                error,
            ).concat(". Check the llama-server log in the application log folder."),
            _ => error.to_owned(),
        }
    }

    /// Begins a launch: the server that runs is given up, and the model file is to be
    /// looked for once that is done. A poisoned lock stops it.
    pub fn start_runtime(
        manager: &mut RuntimeManager,
        poisoned: bool,
        request: RuntimeLaunchRequest,
    ) -> (r: Result<(Vec<StopStep>, Launch), String>)
        ensures
            final(manager)@ == runtime::stop_step(old(manager)@, poisoned).0,
            match runtime::stop_step(old(manager)@, poisoned).1 {
                Ok(steps) => {
                    &&& r is Ok
                    &&& r->Ok_0.0@ == steps
                    &&& r->Ok_0.1.stage == LaunchStage::Model
                    &&& r->Ok_0.1.request == request
                    &&& r->Ok_0.1.plan == (LaunchPlan {
                        gpu_layers: 0,
                        context_size: 0,
                        threads: 0,
                    })
                    &&& r->Ok_0.1.executable@ == Seq::<char>::empty()
                    &&& r->Ok_0.1.pid == 0
                    &&& is_consistent(r->Ok_0.1@, final(manager)@)
                },
                Err(message) => r is Err && r->Err_0@ == message,
            },
    {
        match manager.stop_runtime_internal(poisoned) {
            Ok(steps) => Ok(
                (
                    steps,
                    Launch {
                        stage: LaunchStage::Model,
                        request,
                        plan: LaunchPlan { gpu_layers: 0, context_size: 0, threads: 0 },
                        executable: String::new(),
                        pid: 0,
                    },
                ),
            ),
            Err(message) => Err(message),
        }
    }

    /// The next step, after an event that answers the last one.
    pub fn advance(
        &mut self,
        manager: &mut RuntimeManager,
        poisoned: bool,
        event: LaunchEvent,
    ) -> (action: LaunchAction)
        requires
            answers(old(self).stage, event),
        ensures
            (final(self)@, final(manager)@, action@) == launch_step(
                old(self)@,
                old(manager)@,
                poisoned,
                event,
            ),
    {
        match event {
            LaunchEvent::ModelFound(hardware) => {
                self.plan = launch_plan(&self.request, &hardware);
                self.stage = LaunchStage::Location;
                LaunchAction::Locate
            },
            LaunchEvent::ModelMissing => {
                self.stage = LaunchStage::Over;
                LaunchAction::Fail(
                    Vec::new(),
                    "The selected model file does not exist: ".to_owned().concat(
                        self.request.model_path.as_str(),
                    ),
                )
            },
            LaunchEvent::Located(place) => {
                self.executable = place;
                self.stage = LaunchStage::LogFolder;
                LaunchAction::ResolveLogFolder
            },
            LaunchEvent::Spawned(pid) => {
                if poisoned {
                    self.stage = LaunchStage::Over;
                    return LaunchAction::Fail(Vec::new(), "Runtime lock was poisoned".to_owned());
                }
                manager.process = Some(
                    RuntimeProcess {
                        pid,
                        model_path: self.request.model_path.clone(),
                        gpu_layers: self.plan.gpu_layers,
                        context_size: self.plan.context_size,
                    },
                );
                self.pid = pid;
                self.stage = LaunchStage::Health;
                LaunchAction::AwaitHealth(90)
            },
            LaunchEvent::Done => match self.stage {
                LaunchStage::LogFolder => {
                    self.stage = LaunchStage::LogFolderCreation;
                    LaunchAction::CreateLogFolder
                },
                LaunchStage::LogFolderCreation => {
                    self.stage = LaunchStage::LogFile;
                    LaunchAction::CreateLogFile
                },
                LaunchStage::LogFile => {
                    self.stage = LaunchStage::LogFileCopy;
                    LaunchAction::CopyLogFile
                },
                LaunchStage::LogFileCopy => {
                    self.stage = LaunchStage::Spawn;
                    LaunchAction::Spawn(
                        server_arguments(self.request.model_path.as_str(), &self.plan),
                    )
                },
                _ => {
                    self.stage = LaunchStage::Over;
                    LaunchAction::Report(
                        RuntimeStatus {
                            state: "ready".to_owned(),
                            model_path: Some(self.request.model_path.clone()),
                            endpoint: runtime::local_endpoint(),
                            detail: "The local model is loaded and ready. No prompt data leaves this computer.".to_owned(),
                            pid: Some(self.pid),
                            gpu_layers: Some(self.plan.gpu_layers),
                            context_size: Some(self.plan.context_size),
                        },
                    )
                },
            },
            LaunchEvent::Failed(error) => {
                let message = self.describe_failure(error.as_str());
                let steps = match self.stage {
                    LaunchStage::Health => match manager.stop_runtime_internal(poisoned) {
                        Ok(steps) => steps,
                        Err(_) => Vec::new(),
                    },
                    _ => Vec::new(),
                };
                self.stage = LaunchStage::Over;
                LaunchAction::Fail(steps, message)
            },
        }
    }
}

/// What holds of a launch and of the kept server at each stage: none is kept before the
/// server is started, and then it is the one that the launch has started.
pub open spec fn is_consistent(launch: LaunchView, process: Option<RuntimeProcessView>) -> bool {
    match launch.stage {
        LaunchStage::Health => process == Some(process_of(launch, launch.pid)),
        LaunchStage::Over => true,
        _ => process is None,
    }
}

/// Every step keeps that. Where the lock is sound, a launch that fails leaves no server
/// behind, and the one that it has started is killed and waited for. One that succeeds
/// reports the server that is kept. A poisoned lock changes nothing of what is kept.
pub proof fn lemma_launch_step(
    launch: LaunchView,
    process: Option<RuntimeProcessView>,
    poisoned: bool,
    event: LaunchEvent,
)
    requires
        answers(launch.stage, event),
        is_consistent(launch, process),
    ensures
        ({
            let (next, kept, action) = launch_step(launch, process, poisoned, event);
            &&& is_consistent(next, kept)
            &&& action is Fail || action is Report <==> next.stage == LaunchStage::Over
            &&& poisoned ==> kept == process
            &&& action matches LaunchActionView::Fail(steps, _) ==> {
                &&& !poisoned ==> kept is None && steps == runtime::stop_steps(process)
                &&& poisoned ==> steps == Seq::<StopStep>::empty()
            }
            &&& action matches LaunchActionView::Report(status) ==> {
                &&& event is Done && launch.stage == LaunchStage::Health
                &&& kept == process
                &&& kept matches Some(p) && status.pid == Some(p.pid) && status.model_path == Some(
                    p.model_path,
                ) && status.gpu_layers == Some(p.gpu_layers) && status.context_size == Some(
                    p.context_size,
                )
            }
        }),
{
}

/// A step keeps what was asked for, and the plan once it is made.
pub proof fn lemma_launch_keeps_request(
    launch: LaunchView,
    process: Option<RuntimeProcessView>,
    poisoned: bool,
    event: LaunchEvent,
)
    requires
        answers(launch.stage, event),
    ensures
        ({
            let next = launch_step(launch, process, poisoned, event).0;
            &&& next.model_path == launch.model_path
            &&& next.gpu_layers == launch.gpu_layers
            &&& next.context_size == launch.context_size
            &&& next.threads == launch.threads
            &&& !(event is ModelFound) ==> next.plan == launch.plan
        }),
{
}

/// A server that is restarted runs the same model with the same layers and the same context,
/// whatever the machine is now.
pub proof fn lemma_restart_keeps_settings(
    process: RuntimeProcessView,
    request: RuntimeLaunchRequest,
    hardware: HardwareProfile,
    launch: LaunchView,
)
    requires
        runtime::restart_of(process, request),
        launch.model_path == request.model_path@,
        launch.gpu_layers == request.gpu_layers,
        launch.context_size == request.context_size,
        launch.threads == request.threads,
    ensures
        ({
            let next = launch_step(launch, None, false, LaunchEvent::ModelFound(hardware)).0;
            process_of(next, process.pid) == process && next.plan.threads == threads_for(
                hardware.cpu_cores,
            )
        }),
{
}

/// There is always a thread, and never more than the cores but one where there are two.
pub proof fn lemma_threads(cpu_cores: usize)
    ensures
        threads_for(cpu_cores) >= 1,
        cpu_cores >= 2 ==> threads_for(cpu_cores) == cpu_cores - 1,
{
}

} // verus!
