//! What holds of the settings with which the local server is launched, and of what is said of
//! it and by it.

use vstd::prelude::*;
use vstd::arithmetic::div_mod::*;
use crate::accuracy;
use crate::chat;
use crate::chat::{ChatReply, ChatResponse, LlamaChatResponse};
use crate::decimal;
use crate::double::Double;
use crate::hardware;
use crate::hardware::HardwareProfile;
use crate::launch;
use crate::launch::{
    BaseFolder, HealthActionView, HealthEvent, LaunchActionView, LaunchEvent, LaunchPlan,
    LaunchStage, LaunchView,
};
use crate::order;
use crate::runtime;
use crate::runtime::{RuntimeLaunchRequest, RuntimeProcessView};

verus! {

/// The text of a number reads back as the number.
pub proof fn lemma_number_reads_back(n: nat)
    ensures
        decimal::number_text(n).len() > 0,
        decimal::are_digits(decimal::number_text(n)),
        decimal::digits_value(decimal::number_text(n)) == n,
    decreases n,
{
    let t = decimal::number_text(n);
    if n < 10 {
        assert(t.drop_last() =~= Seq::<char>::empty());
        assert(decimal::digits_value(t.drop_last()) == 0);
        assert(t.last() == decimal::digit_text(n));
    } else {
        lemma_number_reads_back(n / 10);
        lemma_fundamental_div_mod(n as int, 10);
        let front = decimal::number_text(n / 10);
        assert(t.drop_last() =~= front);
        assert forall|i: int| 0 <= i < t.len() implies decimal::is_digit(#[trigger] t[i]) by {
            if i < front.len() {
                assert(decimal::is_digit(front[i]));
            }
        }
    }
}

/// Whether a text reads as an integer: its digits, behind a minus sign where it is negative.
pub open spec fn reads_as(source: Seq<char>, n: int) -> bool {
    if n < 0 {
        &&& source.len() > 1
        &&& source[0] == '-'
        &&& decimal::are_digits(source.drop_first())
        &&& decimal::digits_value(source.drop_first()) == -n
    } else {
        &&& source.len() > 0
        &&& decimal::are_digits(source)
        &&& decimal::digits_value(source) == n
    }
}

/// The text of an integer reads back as the integer.
pub proof fn lemma_integer_reads_back(n: int)
    ensures
        reads_as(decimal::integer_text(n), n),
{
    if n < 0 {
        lemma_number_reads_back((-n) as nat);
        assert(decimal::integer_text(n).drop_first() =~= decimal::number_text((-n) as nat));
    } else {
        lemma_number_reads_back(n as nat);
    }
}

/// The arguments of the server say the plan: read as numbers, those behind `--ctx-size`,
/// `--threads` and `--n-gpu-layers` are its context, its threads and its layers. The model is
/// the one that was asked for, and the server listens on this machine only.
pub proof fn lemma_arguments_say_the_plan(model_path: Seq<char>, plan: LaunchPlan)
    ensures
        ({
            let a = launch::arguments_of(model_path, plan);
            &&& a.len() == 13
            &&& a[0] == "--model"@ && a[1] == model_path
            &&& a[2] == "--host"@ && a[3] == "127.0.0.1"@
            &&& a[4] == "--port"@ && reads_as(a[5], 39281)
            &&& a[6] == "--ctx-size"@ && reads_as(a[7], plan.context_size as int)
            &&& a[8] == "--threads"@ && reads_as(a[9], plan.threads as int)
            &&& a[10] == "--n-gpu-layers"@ && reads_as(a[11], plan.gpu_layers as int)
            &&& a[12] == "--jinja"@
        }),
{
    lemma_number_reads_back(39281);
    lemma_number_reads_back(plan.context_size as nat);
    lemma_number_reads_back(plan.threads as nat);
    lemma_integer_reads_back(plan.gpu_layers as int);
}

/// What the server is told, what is kept of it and what is reported of it agree: it is
/// started for the model of the request with the context and the layers of the plan, and
/// these are what is kept and what is reported once it is ready.
pub proof fn lemma_told_kept_and_reported_agree(
    start: LaunchView,
    process: Option<RuntimeProcessView>,
    pid: u32,
)
    requires
        start.stage == LaunchStage::LogFileCopy,
    ensures
        ({
            let (told, before, spawn) = launch::launch_step(
                start,
                process,
                false,
                LaunchEvent::Done,
            );
            let (waiting, kept, wait) = launch::launch_step(
                told,
                before,
                false,
                LaunchEvent::Spawned(pid),
            );
            let (over, left, report) = launch::launch_step(waiting, kept, false, LaunchEvent::Done);
            let a = spawn->Spawn_0;
            let p = kept->0;
            let s = report->Report_0;
            &&& spawn is Spawn && wait is AwaitHealth && report is Report
            &&& kept is Some && left == kept
            &&& a[1] == start.model_path && p.model_path == start.model_path && s.model_path
                == Some(start.model_path)
            &&& reads_as(a[7], p.context_size as int) && p.context_size
                == start.plan.context_size && s.context_size == Some(p.context_size)
            &&& reads_as(a[11], p.gpu_layers as int) && p.gpu_layers == start.plan.gpu_layers
                && s.gpu_layers == Some(p.gpu_layers)
            &&& reads_as(a[9], start.plan.threads as int)
            &&& p.pid == pid && s.pid == Some(pid)
            &&& s.state == "ready"@
        }),
{
    lemma_arguments_say_the_plan(start.model_path, start.plan);
}

/// What the plan of a launch is: what is asked for is taken as it is. Otherwise the layers go
/// by the graphics memory, the context by the memory of the machine, and the threads are all
/// cores but one, and one at least.
pub proof fn lemma_plan_suits(
    launch: LaunchView,
    process: Option<RuntimeProcessView>,
    poisoned: bool,
    machine: HardwareProfile,
)
    requires
        launch.stage == LaunchStage::Model,
    ensures
        ({
            let plan = launch::launch_step(
                launch,
                process,
                poisoned,
                LaunchEvent::ModelFound(machine),
            ).0.plan;
            &&& launch.gpu_layers is Some ==> plan.gpu_layers == launch.gpu_layers->0
            &&& launch.gpu_layers is None ==> plan.gpu_layers == hardware::gpu_layers_for(
                hardware::vram_of(machine.vram_gb),
            )
            &&& launch.context_size is Some ==> plan.context_size == launch.context_size->0
            &&& launch.context_size is None ==> plan.context_size == hardware::context_size_for(
                machine.total_ram_gb,
            )
            &&& launch.threads is Some ==> plan.threads == launch.threads->0
            &&& launch.threads is None && machine.cpu_cores >= 2 ==> plan.threads
                == machine.cpu_cores - 1
            &&& launch.threads is None && machine.cpu_cores < 2 ==> plan.threads == 1
        }),
{
}

/// The layers by the graphics memory in gigabytes: all of a model from 10 on, 28 from 6 on,
/// 16 from 4 on, and none below that or without an adapter.
pub proof fn lemma_layers_by_memory(vram: Double)
    requires
        !vram.is_nan(),
    ensures
        vram.value() >= 10 * accuracy::one() ==> hardware::gpu_layers_for(vram) == 999,
        6 * accuracy::one() <= vram.value() < 10 * accuracy::one() ==> hardware::gpu_layers_for(
            vram,
        ) == 28,
        4 * accuracy::one() <= vram.value() < 6 * accuracy::one() ==> hardware::gpu_layers_for(
            vram,
        ) == 16,
        vram.value() < 4 * accuracy::one() ==> hardware::gpu_layers_for(vram) == 0,
        hardware::vram_of(Some(vram)) == vram,
        hardware::vram_of(None).value() == 0,
{
    order::lemma_whole_exact(10);
    order::lemma_whole_exact(6);
    order::lemma_whole_exact(4);
    order::lemma_whole_exact(0);
    reveal(crate::double::at_most);
}

/// The context by the memory in gigabytes: 16384 tokens from 64 on, 8192 from 32 on, and 4096
/// below that.
pub proof fn lemma_context_by_memory(total: Double)
    requires
        !total.is_nan(),
    ensures
        total.value() >= 64 * accuracy::one() ==> hardware::context_size_for(total) == 16384,
        32 * accuracy::one() <= total.value() < 64 * accuracy::one()
            ==> hardware::context_size_for(total) == 8192,
        total.value() < 32 * accuracy::one() ==> hardware::context_size_for(total) == 4096,
{
    order::lemma_whole_exact(64);
    order::lemma_whole_exact(32);
    reveal(crate::double::at_most);
}

/// The places where the server may lie are those of each known folder, one after the other,
/// and they differ between systems in the name of the file alone.
pub proof fn lemma_places(resources: bool, app_data: bool, current: bool, windows: bool)
    ensures
        ({
            let name = if windows {
                "llama-server.exe"@
            } else {
                "llama-server"@
            };
            let bundled = launch::locations(true, false, false, windows);
            let installed = launch::locations(false, true, false, windows);
            let developed = launch::locations(false, false, true, windows);
            let nowhere = Seq::<(BaseFolder, Seq<Seq<char>>)>::empty();
            &&& bundled == seq![
                (BaseFolder::Resources, seq!["runtime"@, name]),
                (BaseFolder::Resources, seq![name]),
            ]
            &&& installed == seq![(BaseFolder::AppData, seq!["runtime"@, name])]
            &&& developed == seq![
                (BaseFolder::Current, seq!["src-tauri"@, "resources"@, "runtime"@, name]),
                (BaseFolder::Current, seq!["resources"@, "runtime"@, name]),
            ]
            &&& launch::locations(resources, app_data, current, windows) == (if resources {
                bundled
            } else {
                nowhere
            }) + (if app_data {
                installed
            } else {
                nowhere
            }) + (if current {
                developed
            } else {
                nowhere
            })
        }),
{
    let bundled = launch::locations(true, false, false, windows);
    let installed = launch::locations(false, true, false, windows);
    let developed = launch::locations(false, false, true, windows);
    let name = launch::server_name(windows);
    assert(bundled =~= seq![
        (BaseFolder::Resources, seq!["runtime"@, name]),
        (BaseFolder::Resources, seq![name]),
    ]);
    assert(installed =~= seq![(BaseFolder::AppData, seq!["runtime"@, name])]);
    assert(developed =~= seq![
        (BaseFolder::Current, seq!["src-tauri"@, "resources"@, "runtime"@, name]),
        (BaseFolder::Current, seq!["resources"@, "runtime"@, name]),
    ]);
}

/// The server is asked as long as the time is not up, and given up from then on with word of
/// how long that was. It is ready exactly where it says so, and asked again a while later
/// where it does not.
pub proof fn lemma_waiting(timeout: u64, nanos: u128, healthy: bool)
    ensures
        nanos < timeout * 1_000_000_000 <==> launch::health_step(
            timeout,
            HealthEvent::Waited(nanos),
        ) is Ask,
        nanos >= timeout * 1_000_000_000 ==> exists|number: Seq<char>| #[trigger]
            reads_as(number, timeout as int) && launch::health_step(
                timeout,
                HealthEvent::Waited(nanos),
            ) == HealthActionView::GiveUp("Timed out after "@ + number + " seconds"@),
        launch::health_step(timeout, HealthEvent::Answered(healthy)) is Ready <==> healthy,
        !healthy ==> launch::health_step(timeout, HealthEvent::Answered(healthy))
            == HealthActionView::Sleep(750),
{
    lemma_number_reads_back(timeout as nat);
    assert(reads_as(decimal::number_text(timeout as nat), timeout as int));
}

/// The status of a running server says which model it runs, as what process and with what
/// settings, and that it is ready exactly where it says so itself.
pub proof fn lemma_status_tells(process: RuntimeProcessView, ready: bool)
    ensures
        ({
            let s = runtime::running(process, ready);
            &&& s.model_path == Some(process.model_path)
            &&& s.pid == Some(process.pid)
            &&& s.gpu_layers == Some(process.gpu_layers)
            &&& s.context_size == Some(process.context_size)
            &&& s.endpoint == "http://127.0.0.1:39281"@
            &&& s.state == if ready {
                "ready"@
            } else {
                "loading"@
            }
        }),
{
}

/// A server is restarted with its own model, layers and context.
pub proof fn lemma_restart_asks_for_the_same(
    process: RuntimeProcessView,
    request: RuntimeLaunchRequest,
)
    requires
        runtime::restart_of(process, request),
    ensures
        request.model_path@ == process.model_path,
        request.gpu_layers == Some(process.gpu_layers),
        request.context_size == Some(process.context_size),
        request.threads is None,
{
}

/// An answer is passed on as it is: the text of the first one, all of it, and the counts of
/// tokens as far as they are given.
pub proof fn lemma_answer_passed_on(r: ChatResponse, response: LlamaChatResponse)
    requires
        chat::chat_failure(ChatReply::Answered(response)) is None,
        chat::carries(r, response),
    ensures
        response.choices@.len() > 0,
        r.content@ == response.choices@[0].message.content@,
        response.usage is Some ==> r.prompt_tokens == response.usage->0.prompt_tokens
            && r.completion_tokens == response.usage->0.completion_tokens,
        response.usage is None ==> r.prompt_tokens is None && r.completion_tokens is None,
{
}

/// A question fails exactly where the server was not reached, refused, could not be read or
/// had no answer, and the reason is passed on in full.
pub proof fn lemma_question_fails(reply: ChatReply)
    ensures
        match reply {
            ChatReply::Unreachable(error) => chat::chat_failure(reply) == Some(
                "The local model could not answer: "@ + error@,
            ),
            ChatReply::Refused { status, body } => chat::chat_failure(reply) == Some(
                "The local model returned "@ + status@ + ": "@ + body@,
            ),
            ChatReply::Unreadable(error) => chat::chat_failure(reply) == Some(
                "The local response could not be read: "@ + error@,
            ),
            ChatReply::Answered(response) => chat::chat_failure(reply) is None
                <==> response.choices@.len() > 0,
        },
{
}

/// A status says in words what the server does, and where it listens, whether it runs or not.
pub proof fn lemma_status_words(process: RuntimeProcessView, launched: LaunchView, detail: Seq<char>)
    ensures
        runtime::running(process, true).detail == "The local model is ready."@,
        runtime::running(process, false).detail
            == "The runtime is running and the model is still loading."@,
        launch::launched(launched).detail
            == "The local model is loaded and ready. No prompt data leaves this computer."@,
        launch::launched(launched).endpoint == "http://127.0.0.1:39281"@,
        runtime::stopped(detail).detail == detail,
        runtime::stopped(detail).state == "stopped"@,
        runtime::stopped(detail).endpoint == "http://127.0.0.1:39281"@,
        runtime::stopped(detail).model_path is None,
        runtime::stopped(detail).pid is None,
        runtime::stopped(detail).gpu_layers is None,
        runtime::stopped(detail).context_size is None,
{
}

} // verus!
