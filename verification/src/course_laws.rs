//! What holds of the courses that a download, a launch and a look at the server take.

use vstd::prelude::*;
use crate::download;
use crate::download::{DownloadActionView, DownloadEvent, DownloadStage, DownloadView};
use crate::launch;
use crate::launch::{LaunchActionView, LaunchEvent, LaunchStage, LaunchView};
use crate::place;
use crate::runtime;
use crate::runtime::{ProcessProbe, RuntimeProcessView, StatusActionView, StopStep};

verus! {

/// A download that meets no failure, up to the first bytes: the folder of the repository is
/// created, the address that was asked for is contacted, the answer is looked at, and a
/// partial file is created. The size is the one that the server gives.
pub proof fn lemma_download_begins(
    start: DownloadView,
    folder: String,
    total: Option<u64>,
)
    requires
        download::is_new(start),
        place::is_inside(start.repo_id, start.filename, start.windows),
    ensures
        ({
            let (a, create) = download::download_step(start, DownloadEvent::Resolved(folder));
            let (b, contact) = download::download_step(a, DownloadEvent::Done);
            let (c, check) = download::download_step(b, DownloadEvent::Done);
            let (d, open) = download::download_step(c, DownloadEvent::Accepted(total));
            let (e, receive) = download::download_step(d, DownloadEvent::Done);
            let way = seq!["models"@, download::sanitized(start.repo_id)] + place::parts_of(
                start.filename,
                start.windows,
            );
            &&& create == DownloadActionView::CreateFolder(
                seq!["models"@, download::sanitized(start.repo_id)],
            )
            &&& contact == DownloadActionView::Contact(start.url)
            &&& check == DownloadActionView::CheckAnswer
            &&& open == DownloadActionView::CreateFile(place::partial_steps(way))
            &&& receive == DownloadActionView::Receive(None)
            &&& e == (DownloadView {
                stage: DownloadStage::Chunk,
                data_folder: folder@,
                total,
                ..start
            })
        }),
{
}

/// Bytes that come and are written are counted in full, and reported with the name of the
/// file and its size; nothing else of the download changes.
pub proof fn lemma_bytes_are_added(state: DownloadView, length: u64)
    requires
        state.stage == DownloadStage::Chunk,
        state.downloaded + length <= u64::MAX,
    ensures
        ({
            let (a, write) = download::download_step(state, DownloadEvent::Received(length));
            let (b, report) = download::download_step(a, DownloadEvent::Done);
            let p = report->Receive_0->0;
            &&& write == DownloadActionView::Write
            &&& report is Receive && report->Receive_0 is Some
            &&& b == (DownloadView {
                downloaded: (state.downloaded + length) as u64,
                pending: 0,
                ..state
            })
            &&& p.repo_id == state.repo_id
            &&& p.filename == state.filename
            &&& p.downloaded == state.downloaded + length
            &&& p.total == state.total
            &&& p.percent is Some <==> state.total is Some
        }),
{
}

/// The end of a download: the partial file is flushed and moved to the place of the file, and
/// the bytes that were written are reported.
pub proof fn lemma_download_ends(state: DownloadView)
    requires
        state.stage == DownloadStage::Chunk,
    ensures
        ({
            let (a, flush) = download::download_step(state, DownloadEvent::Ended);
            let (b, rename) = download::download_step(a, DownloadEvent::Done);
            let (c, finish) = download::download_step(b, DownloadEvent::Done);
            let way = seq!["models"@, download::sanitized(state.repo_id)] + place::parts_of(
                state.filename,
                state.windows,
            );
            &&& flush == DownloadActionView::Flush
            &&& rename == DownloadActionView::Rename(place::partial_steps(way), way)
            &&& finish == (DownloadActionView::Finish {
                path: place::path_of(
                    state.data_folder,
                    state.repo_id,
                    state.filename,
                    state.windows,
                ),
                bytes: state.downloaded,
            })
            &&& c.stage == DownloadStage::Over
        }),
{
}

/// A failure of a download is told in full, behind words for what was being done.
pub proof fn lemma_download_fails(state: DownloadView, error: String)
    ensures
        ({
            let (over, fail) = download::download_step(state, DownloadEvent::Failed(error));
            let told = fail->Fail_0;
            &&& fail is Fail
            &&& over.stage == DownloadStage::Over
            &&& over.downloaded == state.downloaded
            &&& state.stage == DownloadStage::DataFolder ==> told
                == "Could not resolve application data folder: "@ + error@
            &&& state.stage == DownloadStage::FolderCreation ==> told
                == "Could not create model folder: "@ + error@
            &&& state.stage == DownloadStage::Contact ==> told
                == "Could not contact Hugging Face: "@ + error@
            &&& state.stage == DownloadStage::Answer ==> told
                == "Hugging Face rejected the download: "@ + error@
            &&& state.stage == DownloadStage::FileCreation ==> told
                == "Could not create the model file: "@ + error@
            &&& state.stage == DownloadStage::Chunk ==> told == "Download interrupted: "@ + error@
            &&& state.stage == DownloadStage::Write ==> told
                == "Could not write the downloaded model: "@ + error@
            &&& state.stage == DownloadStage::Flush ==> told
                == "Could not finish the model file: "@ + error@
            &&& state.stage == DownloadStage::Rename ==> told
                == "Could not finalize the model file: "@ + error@
        }),
{
}

/// What is answered at each stage: a failure at every one before the end, and else what was
/// asked for.
pub proof fn lemma_download_answers(state: DownloadView, folder: String, error: String, n: u64)
    ensures
        ({
            let stage = state.stage;
            &&& download::answers(state, DownloadEvent::Resolved(folder)) <==> stage
                == DownloadStage::DataFolder
            &&& download::answers(state, DownloadEvent::Accepted(Some(n))) <==> stage
                == DownloadStage::Answer
            &&& download::answers(state, DownloadEvent::Accepted(None)) <==> stage
                == DownloadStage::Answer
            &&& download::answers(state, DownloadEvent::Received(n)) <==> stage
                == DownloadStage::Chunk
            &&& download::answers(state, DownloadEvent::Ended) <==> stage == DownloadStage::Chunk
            &&& download::answers(state, DownloadEvent::Failed(error)) <==> stage
                != DownloadStage::Over
            &&& stage == DownloadStage::FolderCreation || stage == DownloadStage::Contact || stage
                == DownloadStage::FileCreation || stage == DownloadStage::Flush || stage
                == DownloadStage::Rename ==> download::answers(state, DownloadEvent::Done)
            &&& stage == DownloadStage::Write ==> (download::answers(state, DownloadEvent::Done)
                <==> state.downloaded + state.pending <= u64::MAX)
        }),
{
}

/// A name that begins at the root, or on Windows with a backslash or a drive, is refused; the
/// refusal names it.
pub proof fn lemma_names_that_lead_away(start: DownloadView, folder: String)
    requires
        download::is_new(start),
        start.filename.len() > 0,
        start.filename[0] == '/' || (start.windows && start.filename[0] == '\\') || (
        start.windows && start.filename.len() >= 2 && start.filename[1] == ':' && ('a'
            <= start.filename[0] <= 'z' || 'A' <= start.filename[0] <= 'Z')),
    ensures
        download::download_step(start, DownloadEvent::Resolved(folder)).1
            == DownloadActionView::Fail(
            "The model file would lie outside the application data folder: "@ + start.filename,
        ),
{
}

/// The course of a launch before the server is started: the server is looked for, and then
/// the folder and the file of the log are made ready. No server is kept meanwhile.
pub proof fn lemma_launch_begins(
    start: LaunchView,
    found: String,
    kept: Option<RuntimeProcessView>,
    poisoned: bool,
)
    requires
        start.stage == LaunchStage::Location,
    ensures
        ({
            let (a, ka, first) = launch::launch_step(
                start,
                kept,
                poisoned,
                LaunchEvent::Located(found),
            );
            let (b, kb, second) = launch::launch_step(a, ka, poisoned, LaunchEvent::Done);
            let (c, kc, third) = launch::launch_step(b, kb, poisoned, LaunchEvent::Done);
            let (d, kd, fourth) = launch::launch_step(c, kc, poisoned, LaunchEvent::Done);
            &&& first == LaunchActionView::ResolveLogFolder
            &&& second == LaunchActionView::CreateLogFolder
            &&& third == LaunchActionView::CreateLogFile
            &&& fourth == LaunchActionView::CopyLogFile
            &&& d == (LaunchView { stage: LaunchStage::LogFileCopy, executable: found@, ..start })
            &&& ka == kept && kb == kept && kc == kept && kd == kept
        }),
{
}

/// A server that was started is given 90 seconds to become ready.
pub proof fn lemma_patience(
    state: LaunchView,
    kept: Option<RuntimeProcessView>,
    pid: u32,
)
    ensures
        launch::launch_step(state, kept, false, LaunchEvent::Spawned(pid)).2
            == LaunchActionView::AwaitHealth(90),
        launch::launch_step(state, kept, true, LaunchEvent::Spawned(pid)).2
            == LaunchActionView::Fail(Seq::empty(), "Runtime lock was poisoned"@),
{
}

/// A failure of a launch is told in full, behind words for what was being done.
pub proof fn lemma_launch_fails(
    state: LaunchView,
    kept: Option<RuntimeProcessView>,
    poisoned: bool,
    error: String,
)
    ensures
        ({
            let (over, left, fail) = launch::launch_step(
                state,
                kept,
                poisoned,
                LaunchEvent::Failed(error),
            );
            let told = fail->Fail_1;
            let killed = state.stage == LaunchStage::Health && !poisoned;
            &&& fail is Fail
            &&& over.stage == LaunchStage::Over
            &&& left == if killed {
                None
            } else {
                kept
            }
            &&& killed && kept is Some ==> fail->Fail_0 == seq![
                StopStep::Kill(kept->0.pid),
                StopStep::Wait(kept->0.pid),
            ]
            &&& !killed ==> fail->Fail_0 == Seq::<StopStep>::empty()
            &&& state.stage == LaunchStage::Location ==> told == error@
            &&& state.stage == LaunchStage::LogFolder ==> told
                == "Could not resolve the log folder: "@ + error@
            &&& state.stage == LaunchStage::LogFolderCreation ==> told
                == "Could not create the log folder: "@ + error@
            &&& state.stage == LaunchStage::LogFile ==> told
                == "Could not create the runtime log: "@ + error@
            &&& state.stage == LaunchStage::LogFileCopy ==> told
                == "Could not prepare the runtime log: "@ + error@
            &&& state.stage == LaunchStage::Spawn ==> told
                == "The bundled llama.cpp runtime could not start. Runtime: "@ + state.executable
                + ". Error: "@ + error@
            &&& state.stage == LaunchStage::Health ==> told
                == "The model runtime started but did not become ready: "@ + error@
                + ". Check the llama-server log in the application log folder."@
        }),
{
}

/// A model file that is not there is named, and nothing is started.
pub proof fn lemma_model_missing(
    state: LaunchView,
    kept: Option<RuntimeProcessView>,
    poisoned: bool,
)
    ensures
        ({
            let (over, left, fail) = launch::launch_step(
                state,
                kept,
                poisoned,
                LaunchEvent::ModelMissing,
            );
            &&& over.stage == LaunchStage::Over
            &&& left == kept
            &&& fail == LaunchActionView::Fail(
                Seq::empty(),
                "The selected model file does not exist: "@ + state.model_path,
            )
        }),
{
}

/// What is answered at each stage of a launch.
pub proof fn lemma_launch_answers(stage: LaunchStage, text: String, pid: u32)
    ensures
        launch::answers(stage, LaunchEvent::ModelMissing) <==> stage == LaunchStage::Model,
        launch::answers(stage, LaunchEvent::Located(text)) <==> stage == LaunchStage::Location,
        launch::answers(stage, LaunchEvent::Spawned(pid)) <==> stage == LaunchStage::Spawn,
        launch::answers(stage, LaunchEvent::Failed(text)) <==> stage != LaunchStage::Model && stage
            != LaunchStage::Over,
        launch::answers(stage, LaunchEvent::Done) <==> stage != LaunchStage::Model && stage
            != LaunchStage::Location && stage != LaunchStage::Spawn && stage != LaunchStage::Over,
{
}

/// What a look at a kept server comes to: one that runs is asked for its health, one that has
/// exited is forgotten and its end is told, and a failure to look is told and changes nothing.
pub proof fn lemma_look_at_server(process: RuntimeProcessView, exit: String, error: String)
    ensures
        runtime::status_step(Some(process), false, ProcessProbe::Running) == (
            Some(process),
            StatusActionView::ProbeHealth(process),
        ),
        ({
            let (left, action) = runtime::status_step(
                Some(process),
                false,
                ProcessProbe::Exited(exit),
            );
            let s = action->Report_0;
            &&& left is None
            &&& action is Report
            &&& s.state == "stopped"@
            &&& s.detail == "The local runtime exited unexpectedly with "@ + exit@ + "."@
            &&& s.pid is None && s.model_path is None && s.gpu_layers is None && s.context_size
                is None
        }),
        runtime::status_step(Some(process), false, ProcessProbe::Unknown(error)) == (
            Some(process),
            StatusActionView::Fail("Could not inspect the local runtime: "@ + error@),
        ),
        runtime::chat_step(Some(process), false, ProcessProbe::Running) == (
            Some(process),
            Ok::<(), Seq<char>>(()),
        ),
        runtime::chat_step(Some(process), false, ProcessProbe::Exited(exit)) == (
            None::<RuntimeProcessView>,
            Err::<(), Seq<char>>(
                "The model runtime stopped before the request could be sent: "@ + exit@,
            ),
        ),
        runtime::chat_step(Some(process), false, ProcessProbe::Unknown(error)) == (
            Some(process),
            Err::<(), Seq<char>>("Could not inspect runtime: "@ + error@),
        ),
{
}

/// Where the lock is poisoned nothing is looked at, and everything says so.
pub proof fn lemma_poisoned(process: Option<RuntimeProcessView>, probe: ProcessProbe)
    ensures
        runtime::status_step(process, true, probe) == (
            process,
            StatusActionView::Fail("Runtime lock was poisoned"@),
        ),
        runtime::chat_step(process, true, probe) == (
            process,
            Err::<(), Seq<char>>("Runtime lock was poisoned"@),
        ),
        runtime::stop_step(process, true) == (
            process,
            Err::<Seq<StopStep>, Seq<char>>("Runtime lock was poisoned"@),
        ),
{
}

} // verus!
