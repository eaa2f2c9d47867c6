//! The local model server: launch, state, questions.

use myailocalmodel::chat::{
    chat, chat_payload, completions_url, ChatMessage, ChatReply, ChatRequest, LlamaChatResponse,
    LlamaChoice, LlamaMessage, LlamaUsage,
};
use myailocalmodel::double::Double;
use myailocalmodel::hardware::HardwareProfile;
use myailocalmodel::launch::{
    health_url, launch_plan, locate_llama_server, server_arguments, server_locations,
    wait_for_health, BaseFolder, HealthAction, HealthEvent, Launch, LaunchAction, LaunchEvent,
    LaunchStage,
};
use myailocalmodel::runtime::{
    local_endpoint, running_status, stopped_status, ProcessProbe, RuntimeLaunchRequest,
    RuntimeManager, RuntimeProcess, StatusAction, StopStep,
};

fn double(x: f64) -> Double {
    Double { bits: x.to_bits() }
}

fn hardware() -> HardwareProfile {
    HardwareProfile {
        os_name: "Windows".into(),
        arch: "x86_64".into(),
        cpu_cores: 12,
        total_ram_gb: double(32.0),
        available_ram_gb: double(20.0),
        disk_free_gb: double(500.0),
        gpu_name: Some("GPU".into()),
        vram_gb: Some(double(6.0)),
        notes: vec![],
    }
}

fn request() -> RuntimeLaunchRequest {
    RuntimeLaunchRequest {
        model_path: "/models/m.gguf".into(),
        gpu_layers: None,
        context_size: None,
        threads: None,
    }
}

fn kept() -> RuntimeManager {
    RuntimeManager {
        process: Some(RuntimeProcess {
            pid: 42,
            model_path: "/models/m.gguf".into(),
            gpu_layers: -1,
            context_size: 2048,
        }),
    }
}

#[test]
fn server_is_local() {
    assert_eq!(local_endpoint(), "http://127.0.0.1:39281");
    assert_eq!(health_url("http://x"), "http://x/health");
    assert_eq!(completions_url(), "http://127.0.0.1:39281/v1/chat/completions");
}

#[test]
fn stopped_server_has_no_model() {
    let status = stopped_status("because");
    assert_eq!(status.state, "stopped");
    assert_eq!(status.endpoint, "http://127.0.0.1:39281");
    assert_eq!(status.detail, "because");
    assert!(status.model_path.is_none() && status.pid.is_none());
    assert!(status.gpu_layers.is_none() && status.context_size.is_none());
}

#[test]
fn running_server_is_ready_or_loading() {
    let process = kept().process.unwrap();
    let ready = running_status(&process, true);
    assert_eq!(ready.state, "ready");
    assert_eq!(ready.detail, "The local model is ready.");
    assert_eq!(ready.pid, Some(42));
    assert_eq!(ready.gpu_layers, Some(-1));
    assert_eq!(ready.context_size, Some(2048));
    assert_eq!(ready.model_path.as_deref(), Some("/models/m.gguf"));
    let loading = running_status(&process, false);
    assert_eq!(loading.state, "loading");
    assert_eq!(loading.detail, "The runtime is running and the model is still loading.");
}

#[test]
fn stopping_forgets_the_server() {
    let mut manager = kept();
    let (steps, status) = manager.stop_runtime(false).unwrap();
    assert_eq!(steps, vec![StopStep::Kill(42), StopStep::Wait(42)]);
    assert_eq!(status.detail, "The local model runtime was stopped safely.");
    assert!(manager.process.is_none());
    assert_eq!(manager.stop_runtime_internal(false), Ok(vec![]));
    assert!(manager.process.is_none());
    assert!(RuntimeManager::default().process.is_none());
}

#[test]
fn restart_asks_for_the_same() {
    let again = kept().restart_request(false).unwrap();
    assert_eq!(again.model_path, "/models/m.gguf");
    assert_eq!(again.gpu_layers, Some(-1));
    assert_eq!(again.context_size, Some(2048));
    assert!(again.threads.is_none());
    assert_eq!(
        RuntimeManager::default().restart_request(false).unwrap_err(),
        "No model has been started yet."
    );
}

#[test]
fn status_follows_the_process() {
    let mut manager = RuntimeManager::default();
    match manager.runtime_status(false, ProcessProbe::Exited("x".into())) {
        StatusAction::Report(status) => assert_eq!(status.detail, "No local model is running."),
        _ => panic!(),
    }
    let mut manager = kept();
    match manager.runtime_status(false, ProcessProbe::Running) {
        StatusAction::ProbeHealth(process) => assert_eq!(process.pid, 42),
        _ => panic!(),
    }
    match manager.runtime_status(false, ProcessProbe::Unknown("denied".into())) {
        StatusAction::Fail(message) => {
            assert_eq!(message, "Could not inspect the local runtime: denied")
        }
        _ => panic!(),
    }
    assert!(manager.process.is_some());
    match manager.runtime_status(false, ProcessProbe::Exited("exit status: 1".into())) {
        StatusAction::Report(status) => {
            assert_eq!(status.state, "stopped");
            assert_eq!(
                status.detail,
                "The local runtime exited unexpectedly with exit status: 1."
            );
        }
        _ => panic!(),
    }
    assert!(manager.process.is_none());
}

#[test]
fn messages_need_a_running_server() {
    let mut manager = RuntimeManager::default();
    assert_eq!(
        manager.admit_chat(false, ProcessProbe::Running).unwrap_err(),
        "Start a local model before sending a message."
    );
    let mut manager = kept();
    assert_eq!(manager.admit_chat(false, ProcessProbe::Running), Ok(()));
    assert_eq!(
        manager.admit_chat(false, ProcessProbe::Unknown("denied".into())).unwrap_err(),
        "Could not inspect runtime: denied"
    );
    assert!(manager.process.is_some());
    assert_eq!(
        manager.admit_chat(false, ProcessProbe::Exited("exit status: 1".into())).unwrap_err(),
        "The model runtime stopped before the request could be sent: exit status: 1"
    );
    assert!(manager.process.is_none());
}

#[test]
fn plan_fills_in_what_is_not_asked_for() {
    let plan = launch_plan(&request(), &hardware());
    assert_eq!((plan.gpu_layers, plan.context_size, plan.threads), (28, 8192, 11));
    let mut asked = request();
    asked.gpu_layers = Some(-3);
    asked.context_size = Some(1);
    asked.threads = Some(0);
    let plan = launch_plan(&asked, &hardware());
    assert_eq!((plan.gpu_layers, plan.context_size, plan.threads), (-3, 1, 0));
    let mut small = hardware();
    for (cores, threads) in [(0, 1), (1, 1), (2, 1), (3, 2)] {
        small.cpu_cores = cores;
        assert_eq!(launch_plan(&request(), &small).threads, threads);
    }
}

#[test]
fn arguments_follow_the_plan() {
    let plan = launch_plan(&request(), &hardware());
    assert_eq!(
        server_arguments("/m", &plan),
        vec![
            "--model", "/m", "--host", "127.0.0.1", "--port", "39281", "--ctx-size", "8192",
            "--threads", "11", "--n-gpu-layers", "28", "--jinja",
        ]
    );
}

#[test]
fn server_is_looked_for_in_order() {
    let all = server_locations(true, true, true, true);
    let places: Vec<(BaseFolder, String)> =
        all.iter().map(|p| (p.base, p.segments.join("/"))).collect();
    assert_eq!(
        places,
        vec![
            (BaseFolder::Resources, "runtime/llama-server.exe".to_string()),
            (BaseFolder::Resources, "llama-server.exe".to_string()),
            (BaseFolder::AppData, "runtime/llama-server.exe".to_string()),
            (BaseFolder::Current, "src-tauri/resources/runtime/llama-server.exe".to_string()),
            (BaseFolder::Current, "resources/runtime/llama-server.exe".to_string()),
        ]
    );
    let some = server_locations(false, true, false, false);
    assert_eq!(some.len(), 1);
    assert_eq!(some[0].segments, vec!["runtime".to_string(), "llama-server".to_string()]);
    assert_eq!(locate_llama_server(&vec![false, true, true]), Ok(1));
    let missing = "The llama.cpp runtime is missing from this installation. Reinstall MyAILocalModel or use an official release installer.";
    assert_eq!(locate_llama_server(&vec![false, false]).unwrap_err(), missing);
    assert_eq!(locate_llama_server(&vec![]).unwrap_err(), missing);
}

#[test]
fn health_is_awaited_until_the_time_is_up() {
    assert!(matches!(wait_for_health(90, HealthEvent::Waited(0)), HealthAction::Ask(2)));
    assert!(matches!(
        wait_for_health(90, HealthEvent::Waited(89_999_999_999)),
        HealthAction::Ask(2)
    ));
    match wait_for_health(90, HealthEvent::Waited(90_000_000_000)) {
        HealthAction::GiveUp(message) => assert_eq!(message, "Timed out after 90 seconds"),
        _ => panic!(),
    }
    assert!(matches!(wait_for_health(90, HealthEvent::Answered(true)), HealthAction::Ready));
    assert!(matches!(wait_for_health(90, HealthEvent::Answered(false)), HealthAction::Sleep(750)));
}

/// A launch that has come to the given stage, with a fresh manager.
fn launched_to(stage: LaunchStage) -> (RuntimeManager, Launch) {
    let mut manager = kept();
    let (steps, mut launch) = Launch::start_runtime(&mut manager, false, request()).unwrap();
    assert_eq!(steps, vec![StopStep::Kill(42), StopStep::Wait(42)]);
    assert!(manager.process.is_none());
    let events = vec![
        LaunchEvent::ModelFound(hardware()),
        LaunchEvent::Located("/bin/llama-server".into()),
        LaunchEvent::Done,
        LaunchEvent::Done,
        LaunchEvent::Done,
        LaunchEvent::Done,
        LaunchEvent::Spawned(7),
    ];
    for event in events {
        if launch.stage == stage {
            break;
        }
        launch.advance(&mut manager, false, event);
    }
    assert_eq!(launch.stage, stage);
    (manager, launch)
}

#[test]
fn launch_takes_its_steps() {
    let (mut manager, mut launch) = launched_to(LaunchStage::Model);
    let m = &mut manager;
    assert!(matches!(launch.advance(m, false, LaunchEvent::ModelFound(hardware())), LaunchAction::Locate));
    assert!(matches!(
        launch.advance(m, false, LaunchEvent::Located("/bin/s".into())),
        LaunchAction::ResolveLogFolder
    ));
    assert!(matches!(launch.advance(m, false, LaunchEvent::Done), LaunchAction::CreateLogFolder));
    assert!(matches!(launch.advance(m, false, LaunchEvent::Done), LaunchAction::CreateLogFile));
    assert!(matches!(launch.advance(m, false, LaunchEvent::Done), LaunchAction::CopyLogFile));
    match launch.advance(m, false, LaunchEvent::Done) {
        LaunchAction::Spawn(arguments) => {
            assert_eq!(arguments[1], "/models/m.gguf");
            assert_eq!(arguments[7], "8192");
        }
        _ => panic!(),
    }
    assert!(m.process.is_none());
    assert!(matches!(launch.advance(m, false, LaunchEvent::Spawned(7)), LaunchAction::AwaitHealth(90)));
    assert_eq!(m.process.as_ref().unwrap().pid, 7);
    match launch.advance(m, false, LaunchEvent::Done) {
        LaunchAction::Report(status) => {
            assert_eq!(status.state, "ready");
            assert_eq!(status.pid, Some(7));
            assert_eq!(status.gpu_layers, Some(28));
            assert_eq!(status.context_size, Some(8192));
            assert_eq!(status.model_path.as_deref(), Some("/models/m.gguf"));
            assert_eq!(
                status.detail,
                "The local model is loaded and ready. No prompt data leaves this computer."
            );
        }
        _ => panic!(),
    }
    assert_eq!(m.process.as_ref().unwrap().gpu_layers, 28);
}

fn failure_at(stage: LaunchStage) -> (Vec<StopStep>, String, bool) {
    let (mut manager, mut launch) = launched_to(stage);
    match launch.advance(&mut manager, false, LaunchEvent::Failed("why".into())) {
        LaunchAction::Fail(steps, message) => {
            assert_eq!(launch.stage, LaunchStage::Over);
            (steps, message, manager.process.is_none())
        }
        _ => panic!(),
    }
}

#[test]
fn failed_launch_is_told_and_leaves_nothing() {
    assert_eq!(failure_at(LaunchStage::Location), (vec![], "why".to_string(), true));
    assert_eq!(
        failure_at(LaunchStage::LogFolder),
        (vec![], "Could not resolve the log folder: why".to_string(), true)
    );
    assert_eq!(
        failure_at(LaunchStage::LogFolderCreation),
        (vec![], "Could not create the log folder: why".to_string(), true)
    );
    assert_eq!(
        failure_at(LaunchStage::LogFile),
        (vec![], "Could not create the runtime log: why".to_string(), true)
    );
    assert_eq!(
        failure_at(LaunchStage::LogFileCopy),
        (vec![], "Could not prepare the runtime log: why".to_string(), true)
    );
    assert_eq!(
        failure_at(LaunchStage::Spawn),
        (
            vec![],
            "The bundled llama.cpp runtime could not start. Runtime: /bin/llama-server. Error: why".to_string(),
            true
        )
    );
    assert_eq!(
        failure_at(LaunchStage::Health),
        (
            vec![StopStep::Kill(7), StopStep::Wait(7)],
            "The model runtime started but did not become ready: why. Check the llama-server log in the application log folder.".to_string(),
            true
        )
    );
}

#[test]
fn missing_model_file_is_told() {
    let (mut manager, mut launch) = launched_to(LaunchStage::Model);
    match launch.advance(&mut manager, false, LaunchEvent::ModelMissing) {
        LaunchAction::Fail(steps, message) => {
            assert!(steps.is_empty());
            assert_eq!(message, "The selected model file does not exist: /models/m.gguf")
        }
        _ => panic!(),
    }
}

#[test]
fn payload_has_defaults() {
    let message = ChatMessage { role: "user".into(), content: "hello".into() };
    let payload = chat_payload(ChatRequest {
        messages: vec![message],
        temperature: None,
        max_tokens: None,
    });
    assert_eq!(payload.messages.len(), 1);
    assert_eq!(payload.messages[0].content, "hello");
    assert_eq!(payload.temperature.bits, 0.7f64.to_bits());
    assert_eq!(payload.max_tokens, 768);
    assert!(!payload.stream);
    let payload = chat_payload(ChatRequest {
        messages: vec![],
        temperature: Some(double(0.1)),
        max_tokens: Some(5),
    });
    assert_eq!(payload.temperature.bits, 0.1f64.to_bits());
    assert_eq!(payload.max_tokens, 5);
}

fn answer(texts: &[&str], usage: Option<LlamaUsage>) -> ChatReply {
    ChatReply::Answered(LlamaChatResponse {
        choices: texts
            .iter()
            .map(|t| LlamaChoice { message: LlamaMessage { content: t.to_string() } })
            .collect(),
        usage,
    })
}

#[test]
fn first_answer_counts() {
    let usage = LlamaUsage { prompt_tokens: Some(3), completion_tokens: None };
    let response = chat(answer(&["one", "two"], Some(usage))).unwrap();
    assert_eq!(response.content, "one");
    assert_eq!(response.prompt_tokens, Some(3));
    assert_eq!(response.completion_tokens, None);
    let response = chat(answer(&["one"], None)).unwrap();
    assert_eq!(response.prompt_tokens, None);
}

#[test]
fn failed_questions_are_told() {
    assert_eq!(
        chat(ChatReply::Unreachable("down".into())).unwrap_err(),
        "The local model could not answer: down"
    );
    assert_eq!(
        chat(ChatReply::Refused { status: "503 Busy".into(), body: "wait".into() }).unwrap_err(),
        "The local model returned 503 Busy: wait"
    );
    assert_eq!(
        chat(ChatReply::Unreadable("eof".into())).unwrap_err(),
        "The local response could not be read: eof"
    );
    assert_eq!(chat(answer(&[], None)).unwrap_err(), "The local model returned no answer.");
}

#[test]
fn poisoned_lock_is_told_and_changes_nothing() {
    let word = "Runtime lock was poisoned";
    let mut manager = kept();
    assert_eq!(manager.stop_runtime_internal(true).unwrap_err(), word);
    assert_eq!(manager.stop_runtime(true).unwrap_err(), word);
    assert_eq!(manager.restart_request(true).unwrap_err(), word);
    assert_eq!(manager.admit_chat(true, ProcessProbe::Exited("x".into())).unwrap_err(), word);
    match manager.runtime_status(true, ProcessProbe::Exited("x".into())) {
        StatusAction::Fail(message) => assert_eq!(message, word),
        _ => panic!(),
    }
    assert_eq!(Launch::start_runtime(&mut manager, true, request()).unwrap_err(), word);
    assert_eq!(manager.process.as_ref().unwrap().pid, 42);
    assert_eq!(RuntimeManager::default().admit_chat(true, ProcessProbe::Running).unwrap_err(), word);
}

#[test]
fn poisoned_lock_keeps_a_launch_from_its_server() {
    let (mut manager, mut launch) = launched_to(LaunchStage::Spawn);
    match launch.advance(&mut manager, true, LaunchEvent::Spawned(7)) {
        LaunchAction::Fail(steps, message) => {
            assert!(steps.is_empty());
            assert_eq!(message, "Runtime lock was poisoned");
        }
        _ => panic!(),
    }
    assert!(manager.process.is_none());
    let (mut manager, mut launch) = launched_to(LaunchStage::Health);
    match launch.advance(&mut manager, true, LaunchEvent::Failed("why".into())) {
        LaunchAction::Fail(steps, message) => {
            assert!(steps.is_empty());
            assert!(message.starts_with("The model runtime started but did not become ready: why."));
        }
        _ => panic!(),
    }
    assert_eq!(manager.process.as_ref().unwrap().pid, 7);
}
