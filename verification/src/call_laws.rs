//! What holds of the results of calls.

use vstd::prelude::*;
use crate::accuracy;
use crate::catalog;
use crate::catalog::{Candidate, HfModel, SearchReply};
use crate::catalog_laws;
use crate::chat;
use crate::chat::{ChatPayload, ChatReply, ChatRequest, ChatResponse};
use crate::decimal;
use crate::double;
use crate::double::Double;
use crate::download;
use crate::download::{DownloadProgress, DownloadRequest};
use crate::download_laws;
use crate::hardware;
use crate::hardware::{HardwareProfile, SystemReadings, VideoController};
use crate::launch;
use crate::launch::{HealthAction, HealthEvent, LaunchPlan};
use crate::machine_laws;
use crate::order;
use crate::ranking;
use crate::runtime;
use crate::runtime::{RuntimeLaunchRequest, RuntimeManager, RuntimeProcess, RuntimeStatus};
use crate::scoring;
use crate::scoring::{Recommendation, RecommendationRequest};
use crate::scoring_values;
use crate::server_laws;
use crate::text;

verus! {

/// Estimates for two models that have no known file size and the same quantization tell their
/// parameters apart: a billion more takes more memory.
pub proof fn lemma_estimates_compared(few: Candidate, many: Candidate, a: Double, b: Double)
    requires
        call_ensures(scoring::estimate_memory, (&few,), a),
        call_ensures(scoring::estimate_memory, (&many,), b),
        few.size_gb is None,
        many.size_gb is None,
        catalog::optional_view(few.quantization) == catalog::optional_view(many.quantization),
        few.parameter_billions is Some,
        many.parameter_billions is Some,
        few.parameter_billions->0.is_finite(),
        many.parameter_billions->0.is_finite(),
        0 <= few.parameter_billions->0.value(),
        few.parameter_billions->0.value() + accuracy::one() <= many.parameter_billions->0.value(),
        many.parameter_billions->0.value() <= 1_000_000_000 * accuracy::one(),
    ensures
        a.value() < b.value(),
        100 * (b.value() - a.value()) > 30 * (many.parameter_billions->0.value()
            - few.parameter_billions->0.value()),
{
    accuracy::lemma_one();
    scoring_values::lemma_more_parameters_take_more(
        few@,
        few.parameter_billions->0,
        many.parameter_billions->0,
    );
}

/// An estimate for a model with a known file size is one and a quarter times the size and
/// three quarters of a gigabyte.
pub proof fn lemma_estimate_by_file(candidate: Candidate, r: Double)
    requires
        call_ensures(scoring::estimate_memory, (&candidate,), r),
        candidate.size_gb is Some,
        candidate.size_gb->0.is_finite(),
        candidate.size_gb->0.value() >= 0,
        r.is_finite(),
    ensures
        accuracy::is_near(
            100 * r.value(),
            125 * candidate.size_gb->0.value() + 75 * accuracy::one(),
            4,
        ),
{
    scoring_values::lemma_memory_by_file(candidate@, candidate.size_gb->0);
}

/// As many recommendations come back as the limit, from 1 to 30, asks for, or as there are
/// candidates.
pub proof fn lemma_recommendations_counted(
    candidates: Vec<Candidate>,
    download_logs: Vec<Double>,
    machine: HardwareProfile,
    request: RecommendationRequest,
    r: Vec<Recommendation>,
)
    requires
        candidates.len() == download_logs.len(),
        call_ensures(
            ranking::recommend_models,
            (&candidates, &download_logs, &machine, &request),
            r,
        ),
    ensures
        1 <= request.limit <= 30 ==> r@.len() == scoring_values::least(
            request.limit as int,
            candidates@.len() as int,
        ),
        request.limit > 30 ==> r@.len() == scoring_values::least(30, candidates@.len() as int),
        request.limit == 0 ==> r@.len() == scoring_values::least(1, candidates@.len() as int),
{
    let all = ranking::all_scored(
        catalog::candidate_views(candidates@),
        machine,
        request.task@,
        request.speed_quality_preference,
        download_logs@,
    );
    ranking::lemma_number_shown(all, request.limit as nat);
    assert(ranking::recommendation_views(r@).len() == r@.len());
}

/// Every recommendation is about one of the candidates, and judges it by the task and the
/// preference of the request.
pub proof fn lemma_recommendations_are_about_candidates(
    candidates: Vec<Candidate>,
    download_logs: Vec<Double>,
    machine: HardwareProfile,
    request: RecommendationRequest,
    r: Vec<Recommendation>,
    i: int,
) -> (k: int)
    requires
        candidates.len() == download_logs.len(),
        call_ensures(
            ranking::recommend_models,
            (&candidates, &download_logs, &machine, &request),
            r,
        ),
        0 <= i < r@.len(),
    ensures
        0 <= k < candidates@.len(),
        r@[i].repo_id@ == candidates@[k].repo_id@,
        r@[i].filename@ == candidates@[k].filename@,
        r@[i]@ == scoring::answer_to(candidates@[k]@, machine, request, download_logs@[k]),
{
    let all = ranking::all_scored(
        catalog::candidate_views(candidates@),
        machine,
        request.task@,
        request.speed_quality_preference,
        download_logs@,
    );
    ranking::lemma_shown_are_members(all, request.limit as nat, i);
    let shown = ranking::recommendation_views(r@)[i];
    assert(shown == r@[i]@);
    let k = choose|k: int| 0 <= k < all.len() && all[k] == shown;
    assert(catalog::candidate_views(candidates@)[k] == candidates@[k]@);
    k
}

/// A search gives as many candidates as the hub lists model files.
pub proof fn lemma_search_counted(models: Vec<HfModel>, r: Result<Vec<Candidate>, String>)
    requires
        call_ensures(catalog::search_hugging_face, (SearchReply::Listed(models),), r),
    ensures
        r is Ok <==> catalog_laws::wanted_files(models@) > 0,
        r is Ok ==> r->Ok_0@.len() == catalog_laws::wanted_files(models@),
{
    catalog_laws::lemma_candidates_counted(models@);
    if r is Ok {
        assert(catalog::candidate_views(r->Ok_0@).len() == r->Ok_0@.len());
    }
}

/// Every listed model file is among the candidates that a search gives.
pub proof fn lemma_search_finds_all(
    models: Vec<HfModel>,
    r: Result<Vec<Candidate>, String>,
    m: int,
    f: int,
) -> (k: int)
    requires
        call_ensures(catalog::search_hugging_face, (SearchReply::Listed(models),), r),
        0 <= m < models@.len(),
        catalog_laws::name_of(models@[m]) is Some,
        models@[m].siblings is Some,
        0 <= f < models@[m].siblings->0@.len(),
        catalog_laws::is_wanted(models@[m].siblings->0@[f]),
    ensures
        r is Ok,
        0 <= k < r->Ok_0@.len(),
        r->Ok_0@[k].repo_id@ == catalog_laws::name_of(models@[m])->0,
        r->Ok_0@[k].filename@ == models@[m].siblings->0@[f].rfilename->0@,
{
    let k = catalog_laws::lemma_every_file_is_a_candidate(models@, m, f);
    assert(catalog::candidate_views(r->Ok_0@)[k] == r->Ok_0@[k]@);
    k
}

/// The arguments for the server, read as numbers, are the settings of the plan.
pub proof fn lemma_arguments_read_back(model_path: &str, plan: LaunchPlan, r: Vec<String>)
    requires
        call_ensures(launch::server_arguments, (model_path, &plan), r),
    ensures
        r@.len() == 13,
        r@[0]@ == "--model"@ && r@[1]@ == model_path@,
        r@[2]@ == "--host"@ && r@[3]@ == "127.0.0.1"@,
        r@[4]@ == "--port"@ && server_laws::reads_as(r@[5]@, 39281),
        r@[6]@ == "--ctx-size"@ && server_laws::reads_as(r@[7]@, plan.context_size as int),
        r@[8]@ == "--threads"@ && server_laws::reads_as(r@[9]@, plan.threads as int),
        r@[10]@ == "--n-gpu-layers"@ && server_laws::reads_as(r@[11]@, plan.gpu_layers as int),
        r@[12]@ == "--jinja"@,
{
    server_laws::lemma_arguments_say_the_plan(model_path@, plan);
    let views = text::views(r@);
    assert(views.len() == r@.len());
    assert forall|i: int| 0 <= i < views.len() implies #[trigger] views[i] == r@[i]@ by {}
    assert(views[0] == r@[0]@ && views[1] == r@[1]@ && views[2] == r@[2]@ && views[3] == r@[3]@
        && views[4] == r@[4]@ && views[5] == r@[5]@ && views[6] == r@[6]@ && views[7] == r@[7]@
        && views[8] == r@[8]@ && views[9] == r@[9]@ && views[10] == r@[10]@ && views[11]
        == r@[11]@ && views[12] == r@[12]@);
}

/// The plan of a launch takes what is asked for as it is.
pub proof fn lemma_plan_takes_what_is_asked(
    request: RuntimeLaunchRequest,
    machine: HardwareProfile,
    plan: LaunchPlan,
)
    requires
        call_ensures(launch::launch_plan, (&request, &machine), plan),
    ensures
        request.gpu_layers is Some ==> plan.gpu_layers == request.gpu_layers->0,
        request.context_size is Some ==> plan.context_size == request.context_size->0,
        request.threads is Some ==> plan.threads == request.threads->0,
        request.threads is None ==> plan.threads == if machine.cpu_cores < 2 {
            1
        } else {
            machine.cpu_cores - 1
        },
{
}

/// The part that a progress report shows, times the size, is what has come, but for a few
/// roundings.
pub proof fn lemma_progress_reported(
    request: DownloadRequest,
    downloaded: u64,
    total: u64,
    p: DownloadProgress,
)
    requires
        total > 0,
        call_ensures(download::progress, (&request, downloaded, Some(total)), p),
    ensures
        p.repo_id@ == request.repo_id@,
        p.filename@ == request.filename@,
        p.downloaded == downloaded,
        p.total == Some(total),
        p.percent is Some,
        accuracy::is_near(total * p.percent->0.value(), downloaded * accuracy::one(), 8),
{
    download_laws::lemma_part_times_total(downloaded, total);
    assert(p@.percent == p.percent);
}

/// The token is the one of the first variable, and of the second where the first holds none.
pub proof fn lemma_token(first: Option<String>, second: Option<String>, r: Option<String>)
    requires
        call_ensures(download::access_token, (first, second), r),
    ensures
        first is Some ==> r == first,
        first is None ==> r == second,
{
}

/// What is asked of the server is what the user asks for, and what is left open has a
/// default.
pub proof fn lemma_payload(request: ChatRequest, payload: ChatPayload)
    requires
        call_ensures(chat::chat_payload, (request,), payload),
    ensures
        payload.messages == request.messages,
        request.max_tokens is Some ==> payload.max_tokens == request.max_tokens->0,
        request.max_tokens is None ==> payload.max_tokens == 768,
        request.temperature is Some ==> payload.temperature == request.temperature->0,
        request.temperature is None ==> accuracy::is_near(
            10 * payload.temperature.value(),
            7 * accuracy::one(),
            1,
        ),
        !payload.stream,
{
    accuracy::lemma_nearest_near(7, 10);
}

/// An answer is passed on in full, and every failure is told with its reason.
pub proof fn lemma_chat_outcome(reply: ChatReply, r: Result<ChatResponse, String>)
    requires
        call_ensures(chat::chat, (reply,), r),
    ensures
        r is Ok <==> reply is Answered && reply->Answered_0.choices@.len() > 0,
        r is Ok ==> r->Ok_0.content@ == reply->Answered_0.choices@[0].message.content@,
        r is Ok && reply->Answered_0.usage is Some ==> r->Ok_0.prompt_tokens
            == reply->Answered_0.usage->0.prompt_tokens && r->Ok_0.completion_tokens
            == reply->Answered_0.usage->0.completion_tokens,
        r is Ok && reply->Answered_0.usage is None ==> r->Ok_0.prompt_tokens is None
            && r->Ok_0.completion_tokens is None,
        reply is Answered && r is Err ==> r->Err_0@ == "The local model returned no answer."@,
        reply is Unreachable ==> r->Err_0@ == "The local model could not answer: "@
            + reply->Unreachable_0@,
        reply is Unreadable ==> r->Err_0@ == "The local response could not be read: "@
            + reply->Unreadable_0@,
        reply is Refused ==> r->Err_0@ == "The local model returned "@ + reply->status@ + ": "@
            + reply->body@,
{
}

/// Where the server is asked.
pub proof fn lemma_addresses(endpoint: &str, health: String, completions: String, local: String)
    requires
        call_ensures(launch::health_url, (endpoint,), health),
        call_ensures(chat::completions_url, (), completions),
        call_ensures(runtime::local_endpoint, (), local),
    ensures
        health@ == endpoint@ + "/health"@,
        local@ == "http://127.0.0.1:39281"@,
        completions@ == local@ + "/v1/chat/completions"@,
{
}

/// The server is taken from the first place where it was found.
pub proof fn lemma_first_place(found: Vec<bool>, r: Result<usize, String>, i: int)
    requires
        call_ensures(launch::locate_llama_server, (&found,), r),
        0 <= i < found@.len(),
        found@[i],
    ensures
        r is Ok,
        r->Ok_0 <= i,
        found@[r->Ok_0 as int],
{
    assert(found@.contains(true));
}

/// Nothing found is told.
pub proof fn lemma_no_place(found: Vec<bool>, r: Result<usize, String>)
    requires
        call_ensures(launch::locate_llama_server, (&found,), r),
        forall|i: int| 0 <= i < found@.len() ==> !#[trigger] found@[i],
    ensures
        r is Err,
        r->Err_0@
            == "The llama.cpp runtime is missing from this installation. Reinstall MyAILocalModel or use an official release installer."@,
{
}

/// The server is asked, for two seconds at most each time, until the time is up.
pub proof fn lemma_waiting_outcome(timeout: u64, event: HealthEvent, action: HealthAction)
    requires
        call_ensures(launch::wait_for_health, (timeout, event), action),
    ensures
        event is Waited && event->Waited_0 < timeout * 1_000_000_000 ==> action is Ask
            && action->Ask_0 == 2,
        event is Waited && event->Waited_0 >= timeout * 1_000_000_000 ==> action is GiveUp,
        event is Answered && event->Answered_0 ==> action is Ready,
        event is Answered && !event->Answered_0 ==> action is Sleep && action->Sleep_0 == 750,
{
    server_laws::lemma_waiting(
        timeout,
        if event is Waited {
            event->Waited_0
        } else {
            0
        },
        event is Answered && event->Answered_0,
    );
}

/// The downloads that count: all of them, and one at least.
pub proof fn lemma_downloads_counted(candidate: Candidate, n: u64)
    requires
        call_ensures(scoring::counted_downloads, (&candidate,), n),
    ensures
        candidate.downloads >= 1 ==> n == candidate.downloads,
        candidate.downloads == 0 ==> n == 1,
{
}

/// What is known of a machine is what the system reports: its memory and its largest free
/// disk in tenths of gigabytes, and all its cores, of which there is one at least.
pub proof fn lemma_machine_as_reported(
    readings: SystemReadings,
    devices: Vec<VideoController>,
    p: HardwareProfile,
) -> (tenths: (nat, nat, nat))
    requires
        call_ensures(hardware::detect_hardware, (readings, &devices), p),
        readings.disk_spaces@.len() > 0,
    ensures
        readings.cpu_count >= 1 ==> p.cpu_cores == readings.cpu_count,
        readings.cpu_count == 0 ==> p.cpu_cores == 1,
        p.arch@ == readings.arch@,
        readings.system_name is Some ==> p.os_name@ == readings.system_name->0@,
        readings.system_name is None ==> p.os_name@ == readings.platform@,
        p.total_ram_gb == double::nearest(tenths.0, 10),
        1000 * double::absolute(20 * readings.total_memory - 2 * (machine_laws::gigabyte()
            * tenths.0)) <= 1001 * machine_laws::gigabyte(),
        p.available_ram_gb == double::nearest(tenths.1, 10),
        1000 * double::absolute(20 * readings.available_memory - 2 * (machine_laws::gigabyte()
            * tenths.1)) <= 1001 * machine_laws::gigabyte(),
        p.disk_free_gb == double::nearest(tenths.2, 10),
        exists|size: u64|
            readings.disk_spaces@.contains(size) && 1000 * double::absolute(
                20 * size - 2 * (machine_laws::gigabyte() * tenths.2),
            ) <= 1001 * machine_laws::gigabyte() && forall|i: int|
                0 <= i < readings.disk_spaces@.len() ==> #[trigger] readings.disk_spaces@[i]
                    <= size,
{
    let a = machine_laws::lemma_size_in_tenths(readings.total_memory);
    let b = machine_laws::lemma_size_in_tenths(readings.available_memory);
    let size = choose|size: u64| #[trigger]
        hardware::is_largest(readings.disk_spaces@, size) && p.disk_free_gb == hardware::gigabytes(
            size as nat,
        );
    let c = machine_laws::lemma_size_in_tenths(size);
    (a, b, c)
}

/// Without a disk there is no free space.
pub proof fn lemma_machine_without_disk(
    readings: SystemReadings,
    devices: Vec<VideoController>,
    p: HardwareProfile,
)
    requires
        call_ensures(hardware::detect_hardware, (readings, &devices), p),
        readings.disk_spaces@.len() == 0,
    ensures
        p.disk_free_gb.value() == 0,
{
    order::lemma_whole_exact(0);
}

/// The graphics adapter of a machine is a real one with as much memory as any, the last of
/// those, and there is none exactly where no real one is reported. What is not known is noted.
pub proof fn lemma_machine_graphics(
    readings: SystemReadings,
    devices: Vec<VideoController>,
    p: HardwareProfile,
)
    requires
        call_ensures(hardware::detect_hardware, (readings, &devices), p),
    ensures
        p.gpu_name is None <==> forall|j: int|
            0 <= j < devices@.len() ==> !#[trigger] machine_laws::is_real(devices@[j]),
        p.gpu_name is Some ==> exists|i: int|
            0 <= i < devices@.len() && #[trigger] machine_laws::is_real(devices@[i])
                && p.gpu_name->0@ == devices@[i].name->0@ && (p.vram_gb is Some
                <==> devices@[i].adapter_ram is Some) && (p.vram_gb is Some ==> p.vram_gb->0
                == hardware::gigabytes(devices@[i].adapter_ram->0 as nat)) && (forall|j: int|
                i < j < devices@.len() && #[trigger] machine_laws::is_real(devices@[j])
                    ==> machine_laws::bytes_of(devices@[j]) < machine_laws::bytes_of(devices@[i]))
                && (forall|j: int|
                0 <= j < devices@.len() && #[trigger] machine_laws::is_real(devices@[j]) ==> 100
                    * machine_laws::bytes_of(devices@[j]) <= 100 * machine_laws::bytes_of(
                    devices@[i],
                ) + 11 * machine_laws::gigabyte()),
        p.gpu_name is None ==> p.vram_gb is None && text::views(p.notes@)
            == seq![
                "No discrete GPU was detected. The setup wizard will use conservative CPU-friendly settings."@,
            ],
        p.gpu_name is Some && p.vram_gb is None ==> text::views(p.notes@)
            == seq![
                "Windows detected a GPU but did not report VRAM. The wizard will choose RAM-first settings."@,
            ],
        p.gpu_name is Some && p.vram_gb is Some ==> p.notes@.len() == 0,
{
    assert forall|j: int| 0 <= j < devices@.len() implies (#[trigger] machine_laws::is_real(
        devices@[j],
    ) <==> hardware::is_usable(devices@[j])) by {}
    if p.gpu_name is Some {
        let name = p.gpu_name->0;
        let i = choose|i: int|
            #[trigger] hardware::prevails(devices@, devices@.len() as int, i) && name@
                == devices@[i].name->0@ && p.vram_gb == hardware::adapter_vram(devices@[i]);
        machine_laws::lemma_chosen_adapter(devices@, i);
        assert(machine_laws::is_real(devices@[i]));
    }
    assert(text::views(p.notes@).len() == p.notes@.len());
}

/// A status tells what runs.
pub proof fn lemma_status_reported(process: RuntimeProcess, ready: bool, r: RuntimeStatus)
    requires
        call_ensures(runtime::running_status, (&process, ready), r),
    ensures
        r.model_path is Some && r.model_path->0@ == process.model_path@,
        r.pid == Some(process.pid),
        r.gpu_layers == Some(process.gpu_layers),
        r.context_size == Some(process.context_size),
        r.state@ == if ready {
            "ready"@
        } else {
            "loading"@
        },
{
    server_laws::lemma_status_tells(process@, ready);
    assert(r@.pid == r.pid);
}

/// A restart asks for the kept model with its settings.
pub proof fn lemma_restart_requested(
    manager: RuntimeManager,
    r: Result<RuntimeLaunchRequest, String>,
)
    requires
        call_ensures(RuntimeManager::restart_request, (&manager, false), r),
    ensures
        manager@ is None ==> r is Err && r->Err_0@ == "No model has been started yet."@,
        manager@ is Some ==> r is Ok && r->Ok_0.model_path@ == manager@->0.model_path
            && r->Ok_0.gpu_layers == Some(manager@->0.gpu_layers) && r->Ok_0.context_size == Some(
            manager@->0.context_size,
        ) && r->Ok_0.threads is None,
{
}

/// Numbers as text read back as the numbers.
pub proof fn lemma_number_texts(n: u64, m: i32, a: String, b: String)
    requires
        call_ensures(decimal::number, (n,), a),
        call_ensures(decimal::integer, (m,), b),
    ensures
        server_laws::reads_as(a@, n as int),
        server_laws::reads_as(b@, m as int),
{
    server_laws::lemma_number_reads_back(n as nat);
    server_laws::lemma_integer_reads_back(m as int);
}

/// The settings that are recommended go by the memory of the adapter and of the machine.
pub proof fn lemma_settings_recommended(machine: HardwareProfile, layers: i32, size: u32)
    requires
        call_ensures(hardware::recommended_gpu_layers, (&machine,), layers),
        call_ensures(hardware::recommended_context_size, (&machine,), size),
        machine.vram_gb is Some,
        !machine.vram_gb->0.is_nan(),
        !machine.total_ram_gb.is_nan(),
    ensures
        ({
            let v = machine.vram_gb->0.value();
            let t = machine.total_ram_gb.value();
            let one = accuracy::one();
            &&& layers == if v >= 10 * one {
                999int
            } else if v >= 6 * one {
                28
            } else if v >= 4 * one {
                16
            } else {
                0
            }
            &&& size == if t >= 64 * one {
                16384int
            } else if t >= 32 * one {
                8192
            } else {
                4096
            }
        }),
{
    server_laws::lemma_layers_by_memory(machine.vram_gb->0);
    server_laws::lemma_context_by_memory(machine.total_ram_gb);
}

} // verus!
