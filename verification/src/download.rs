//! The steps by which a model file is downloaded.

use vstd::prelude::*;
use crate::double;
use crate::double::Double;
use crate::order;
use crate::place;
use crate::text;

verus! {

/// A model file to be downloaded.
#[derive(Clone, Debug)]
pub struct DownloadRequest {
    pub repo_id: String,
    pub filename: String,
    pub url: String,
}

/// How far a download has come.
#[derive(Clone, Debug)]
pub struct DownloadProgress {
    pub repo_id: String,
    pub filename: String,
    pub downloaded: u64,
    pub total: Option<u64>,
    pub percent: Option<Double>,
}

/// A finished download.
#[derive(Clone, Debug)]
pub struct DownloadResult {
    pub path: String,
    pub bytes: u64,
}

/// A character as it stands in the name of a folder.
pub open spec fn sanitized_char(c: char) -> char {
    if c == '/' || c == '\\' || c == ':' {
        '_'
    } else {
        c
    }
}

/// A name as that of a single folder: separators become underscores.
pub open spec fn sanitized(value: Seq<char>) -> Seq<char> {
    value.map_values(|c: char| sanitized_char(c))
}

/// A name as that of a single folder: separators become underscores.
pub fn sanitize(value: &str) -> (r: String)
    ensures
        r@ == sanitized(value@),
{
    let chars = text::characters(value);
    let mut r = String::new();
    for i in 0..chars.len()
        invariant
            r@ == sanitized(chars@).take(i as int),
    {
        let c: char = chars[i];
        let kept: char = if c == '/' || c == '\\' || c == ':' { '_' } else { c };
        r.push(kept);
    }
    r
}

/// The way from the application's data folder to that of a model.
pub fn model_folder(repo_id: &str) -> (segments: Vec<String>)
    ensures
        text::views(segments@) == seq!["models"@, sanitized(repo_id@)],
{
    let segments = vec!["models".to_owned(), sanitize(repo_id)];
    assert(text::views(segments@) =~= seq!["models"@, sanitized(repo_id@)]);
    segments
}

/// The token for the hub, from the two variables that may hold it.
pub fn access_token(hf_token: Option<String>, huggingface_token: Option<String>) -> (r: Option<
    String,
>)
    ensures
        r == match hf_token {
            Some(_) => hf_token,
            None => huggingface_token,
        },
{
    match hf_token {
        Some(token) => Some(token),
        None => huggingface_token,
    }
}

/// The part of a download that is done, as far as its size is known.
pub open spec fn part_done(downloaded: u64, total: Option<u64>) -> Option<Double> {
    match total {
        Some(n) => Some(
            double::quotient(double::whole(downloaded as nat), double::whole(n as nat)),
        ),
        None => None,
    }
}

/// What a progress report says.
#[verifier::ext_equal]
pub struct DownloadProgressView {
    pub repo_id: Seq<char>,
    pub filename: Seq<char>,
    pub downloaded: u64,
    pub total: Option<u64>,
    pub percent: Option<Double>,
}

impl View for DownloadProgress {
    type V = DownloadProgressView;

    open spec fn view(&self) -> DownloadProgressView {
        DownloadProgressView {
            repo_id: self.repo_id@,
            filename: self.filename@,
            downloaded: self.downloaded,
            total: self.total,
            percent: self.percent,
        }
    }
}

/// How far a download of a model file has come.
pub open spec fn progress_of(
    repo_id: Seq<char>,
    filename: Seq<char>,
    downloaded: u64,
    total: Option<u64>,
) -> DownloadProgressView {
    DownloadProgressView {
        repo_id,
        filename,
        downloaded,
        total,
        percent: part_done(downloaded, total),
    }
}

/// How far a download of a model file has come.
pub fn progress(request: &DownloadRequest, downloaded: u64, total: Option<u64>) -> (p:
    DownloadProgress)
    ensures
        p@ == progress_of(request.repo_id@, request.filename@, downloaded, total),
{
    DownloadProgress {
        repo_id: request.repo_id.clone(),
        filename: request.filename.clone(),
        downloaded,
        total,
        percent: match total {
            Some(n) => Some(Double::whole(downloaded).over(Double::whole(n))),
            None => None,
        },
    }
}

/// How far a download has come: what was asked for last.
#[derive(Clone, Copy, Debug, PartialEq, Eq, Structural)]
pub enum DownloadStage {
    DataFolder,
    FolderCreation,
    Contact,
    Answer,
    FileCreation,
    Chunk,
    Write,
    Flush,
    Rename,
    Over,
}

/// A download under way.
#[derive(Clone, Debug)]
pub struct Download {
    pub stage: DownloadStage,
    pub request: DownloadRequest,
    /// Whether paths are those of Windows.
    pub windows: bool,
    /// The path of the application's data folder, once it is known.
    pub data_folder: String,
    /// The size of the file, as far as the server gave it.
    pub total: Option<u64>,
    /// How many bytes are written.
    pub downloaded: u64,
    /// How many bytes are being written.
    pub pending: u64,
}

/// What is known of a download under way.
#[verifier::ext_equal]
pub struct DownloadView {
    pub stage: DownloadStage,
    pub repo_id: Seq<char>,
    pub filename: Seq<char>,
    pub url: Seq<char>,
    pub windows: bool,
    pub data_folder: Seq<char>,
    pub total: Option<u64>,
    pub downloaded: u64,
    pub pending: u64,
}

impl View for Download {
    type V = DownloadView;

    open spec fn view(&self) -> DownloadView {
        DownloadView {
            stage: self.stage,
            repo_id: self.request.repo_id@,
            filename: self.request.filename@,
            url: self.request.url@,
            windows: self.windows,
            data_folder: self.data_folder@,
            total: self.total,
            downloaded: self.downloaded,
            pending: self.pending,
        }
    }
}

/// What came of what was asked for.
#[derive(Clone, Debug)]
pub enum DownloadEvent {
    /// The application's data folder has the given path.
    Resolved(String),
    /// It was done.
    Done,
    /// The server accepts, and gives the size of the file or not.
    Accepted(Option<u64>),
    /// So many bytes have come.
    Received(u64),
    /// There are no more bytes.
    Ended,
    /// It failed for the given reason.
    Failed(String),
}

/// What to do next. Places are ways down from the application's data folder.
#[derive(Clone, Debug)]
pub enum DownloadAction {
    /// Create the folder at the given place.
    CreateFolder(Vec<String>),
    /// Send the request to the given address.
    Contact(String),
    /// Look at the status of the answer.
    CheckAnswer,
    /// Create the partial file at the given place.
    CreateFile(Vec<String>),
    /// Tell how far the download has come, if given, and wait for more bytes.
    Receive(Option<DownloadProgress>),
    /// Write the bytes that have come.
    Write,
    /// Flush the partial file.
    Flush,
    /// Move the partial file from the one place to the other.
    Rename(Vec<String>, Vec<String>),
    /// Report the download.
    Finish(DownloadResult),
    /// Fail with a message.
    Fail(String),
}

/// What to do next.
#[verifier::ext_equal]
pub enum DownloadActionView {
    CreateFolder(Seq<Seq<char>>),
    Contact(Seq<char>),
    CheckAnswer,
    CreateFile(Seq<Seq<char>>),
    Receive(Option<DownloadProgressView>),
    Write,
    Flush,
    Rename(Seq<Seq<char>>, Seq<Seq<char>>),
    Finish { path: Seq<char>, bytes: u64 },
    Fail(Seq<char>),
}

impl View for DownloadAction {
    type V = DownloadActionView;

    open spec fn view(&self) -> DownloadActionView {
        match self {
            DownloadAction::CreateFolder(segments) => DownloadActionView::CreateFolder(
                text::views(segments@),
            ),
            DownloadAction::Contact(url) => DownloadActionView::Contact(url@),
            DownloadAction::CheckAnswer => DownloadActionView::CheckAnswer,
            DownloadAction::CreateFile(place) => DownloadActionView::CreateFile(
                text::views(place@),
            ),
            DownloadAction::Receive(progress) => DownloadActionView::Receive(
                match progress {
                    Some(p) => Some(p@),
                    None => None,
                },
            ),
            DownloadAction::Write => DownloadActionView::Write,
            DownloadAction::Flush => DownloadActionView::Flush,
            DownloadAction::Rename(from, to) => DownloadActionView::Rename(
                text::views(from@),
                text::views(to@),
            ),
            DownloadAction::Finish(result) => DownloadActionView::Finish {
                path: result.path@,
                bytes: result.bytes,
            },
            DownloadAction::Fail(message) => DownloadActionView::Fail(message@),
        }
    }
}

/// Whether an event answers what was asked for. The bytes written must stay countable.
pub open spec fn answers(download: DownloadView, event: DownloadEvent) -> bool {
    match event {
        DownloadEvent::Resolved(_) => download.stage == DownloadStage::DataFolder,
        DownloadEvent::Done => match download.stage {
            DownloadStage::FolderCreation => true,
            DownloadStage::Contact => true,
            DownloadStage::FileCreation => true,
            DownloadStage::Write => download.downloaded + download.pending <= u64::MAX,
            DownloadStage::Flush => true,
            DownloadStage::Rename => true,
            _ => false,
        },
        DownloadEvent::Accepted(_) => download.stage == DownloadStage::Answer,
        DownloadEvent::Received(_) => download.stage == DownloadStage::Chunk,
        DownloadEvent::Ended => download.stage == DownloadStage::Chunk,
        DownloadEvent::Failed(_) => download.stage != DownloadStage::Over,
    }
}

/// What a failure at a stage is told as.
pub open spec fn failure_message(stage: DownloadStage, error: Seq<char>) -> Seq<char> {
    match stage {
        DownloadStage::DataFolder => "Could not resolve application data folder: "@ + error,
        DownloadStage::FolderCreation => "Could not create model folder: "@ + error,
        DownloadStage::Contact => "Could not contact Hugging Face: "@ + error,
        DownloadStage::Answer => "Hugging Face rejected the download: "@ + error,
        DownloadStage::FileCreation => "Could not create the model file: "@ + error,
        DownloadStage::Chunk => "Download interrupted: "@ + error,
        DownloadStage::Write => "Could not write the downloaded model: "@ + error,
        DownloadStage::Flush => "Could not finish the model file: "@ + error,
        DownloadStage::Rename => "Could not finalize the model file: "@ + error,
        DownloadStage::Over => error,
    }
}

/// The download at another stage.
pub open spec fn at_stage(download: DownloadView, stage: DownloadStage) -> DownloadView {
    DownloadView { stage, ..download }
}

/// The place of the model file.
pub open spec fn file_place(download: DownloadView) -> Seq<Seq<char>> {
    place::steps_to(download.repo_id, download.filename, download.windows)
}

/// The next state of a download, and what to do.
pub open spec fn download_step(download: DownloadView, event: DownloadEvent) -> (
    DownloadView,
    DownloadActionView,
) {
    match event {
        DownloadEvent::Resolved(folder) => {
            let found = DownloadView { data_folder: folder@, ..download };
            if place::is_inside(download.repo_id, download.filename, download.windows) {
                (
                    at_stage(found, DownloadStage::FolderCreation),
                    DownloadActionView::CreateFolder(
                        seq!["models"@, sanitized(download.repo_id)],
                    ),
                )
            } else {
                (
                    at_stage(found, DownloadStage::Over),
                    DownloadActionView::Fail(place::outside_message(download.filename)),
                )
            }
        },
        DownloadEvent::Done => match download.stage {
            DownloadStage::FolderCreation => (
                at_stage(download, DownloadStage::Contact),
                DownloadActionView::Contact(download.url),
            ),
            DownloadStage::Contact => (
                at_stage(download, DownloadStage::Answer),
                DownloadActionView::CheckAnswer,
            ),
            DownloadStage::FileCreation => (
                at_stage(download, DownloadStage::Chunk),
                DownloadActionView::Receive(None),
            ),
            DownloadStage::Write => {
                let downloaded = (download.downloaded + download.pending) as u64;
                (
                    DownloadView {
                        stage: DownloadStage::Chunk,
                        downloaded,
                        pending: 0,
                        ..download
                    },
                    DownloadActionView::Receive(
                        Some(
                            progress_of(
                                download.repo_id,
                                download.filename,
                                downloaded,
                                download.total,
                            ),
                        ),
                    ),
                )
            },
            DownloadStage::Flush => (
                at_stage(download, DownloadStage::Rename),
                DownloadActionView::Rename(
                    place::partial_steps(file_place(download)),
                    file_place(download),
                ),
            ),
            _ => (
                at_stage(download, DownloadStage::Over),
                DownloadActionView::Finish {
                    path: place::path_of(
                        download.data_folder,
                        download.repo_id,
                        download.filename,
                        download.windows,
                    ),
                    bytes: download.downloaded,
                },
            ),
        },
        DownloadEvent::Accepted(total) => (
            DownloadView { stage: DownloadStage::FileCreation, total, ..download },
            DownloadActionView::CreateFile(place::partial_steps(file_place(download))),
        ),
        DownloadEvent::Received(length) => (
            DownloadView { stage: DownloadStage::Write, pending: length, ..download },
            DownloadActionView::Write,
        ),
        DownloadEvent::Ended => (
            at_stage(download, DownloadStage::Flush),
            DownloadActionView::Flush,
        ),
        DownloadEvent::Failed(error) => (
            at_stage(download, DownloadStage::Over),
            DownloadActionView::Fail(failure_message(download.stage, error@)),
        ),
    }
}

/// What a failure at a stage is told as.
fn describe_failure(stage: DownloadStage, error: &str) -> (message: String)
    ensures
        message@ == failure_message(stage, error@),
{
    let start: &str = match stage {
        DownloadStage::DataFolder => "Could not resolve application data folder: ",
        DownloadStage::FolderCreation => "Could not create model folder: ",
        DownloadStage::Contact => "Could not contact Hugging Face: ",
        DownloadStage::Answer => "Hugging Face rejected the download: ",
        DownloadStage::FileCreation => "Could not create the model file: ",
        DownloadStage::Chunk => "Download interrupted: ",
        DownloadStage::Write => "Could not write the downloaded model: ",
        DownloadStage::Flush => "Could not finish the model file: ",
        DownloadStage::Rename => "Could not finalize the model file: ",
        DownloadStage::Over => {
            return error.to_owned();
        },
    };
    start.to_owned().concat(error)
}

impl Download {
    /// Begins a download: the application's data folder is to be found out. Paths are those
    /// of Windows or not.
    pub fn download_model(request: DownloadRequest, windows: bool) -> (r: Download)
        ensures
            r.stage == DownloadStage::DataFolder,
            r.request == request,
            r.windows == windows,
            r.data_folder@ == Seq::<char>::empty(),
            r.total is None,
            r.downloaded == 0,
            r.pending == 0,
            is_new(r@),
    {
        Download {
            stage: DownloadStage::DataFolder,
            request,
            windows,
            data_folder: String::new(),
            total: None,
            downloaded: 0,
            pending: 0,
        }
    }

    /// The place of the model file.
    fn file_steps(&self) -> (steps: Vec<String>)
        ensures
            text::views(steps@) == file_place(self@),
    {
        place::model_steps(
            self.request.repo_id.as_str(),
            self.request.filename.as_str(),
            self.windows,
        )
    }

    /// The next step, after an event that answers the last one.
    pub fn advance(&mut self, event: DownloadEvent) -> (action: DownloadAction)
        requires
            answers(old(self)@, event),
        ensures
            (final(self)@, action@) == download_step(old(self)@, event),
    {
        match event {
            DownloadEvent::Resolved(folder) => {
                self.data_folder = folder;
                match place::model_file(
                    self.request.repo_id.as_str(),
                    self.request.filename.as_str(),
                    self.windows,
                ) {
                    Ok(_) => {
                        self.stage = DownloadStage::FolderCreation;
                        DownloadAction::CreateFolder(model_folder(self.request.repo_id.as_str()))
                    },
                    Err(message) => {
                        self.stage = DownloadStage::Over;
                        DownloadAction::Fail(message)
                    },
                }
            },
            DownloadEvent::Done => match self.stage {
                DownloadStage::FolderCreation => {
                    self.stage = DownloadStage::Contact;
                    DownloadAction::Contact(self.request.url.clone())
                },
                DownloadStage::Contact => {
                    self.stage = DownloadStage::Answer;
                    DownloadAction::CheckAnswer
                },
                DownloadStage::FileCreation => {
                    self.stage = DownloadStage::Chunk;
                    DownloadAction::Receive(None)
                },
                DownloadStage::Write => {
                    self.downloaded = self.downloaded + self.pending;
                    self.pending = 0;
                    self.stage = DownloadStage::Chunk;
                    DownloadAction::Receive(
                        Some(progress(&self.request, self.downloaded, self.total)),
                    )
                },
                DownloadStage::Flush => {
                    self.stage = DownloadStage::Rename;
                    let to = self.file_steps();
                    let from = place::partial_file(&to);
                    DownloadAction::Rename(from, to)
                },
                _ => {
                    self.stage = DownloadStage::Over;
                    let path = place::model_path(
                        self.data_folder.as_str(),
                        self.request.repo_id.as_str(),
                        self.request.filename.as_str(),
                        self.windows,
                    );
                    DownloadAction::Finish(DownloadResult { path, bytes: self.downloaded })
                },
            },
            DownloadEvent::Accepted(total) => {
                self.total = total;
                self.stage = DownloadStage::FileCreation;
                DownloadAction::CreateFile(place::partial_file(&self.file_steps()))
            },
            DownloadEvent::Received(length) => {
                self.pending = length;
                self.stage = DownloadStage::Write;
                DownloadAction::Write
            },
            DownloadEvent::Ended => {
                self.stage = DownloadStage::Flush;
                DownloadAction::Flush
            },
            DownloadEvent::Failed(error) => {
                let message = describe_failure(self.stage, error.as_str());
                self.stage = DownloadStage::Over;
                DownloadAction::Fail(message)
            },
        }
    }
}

/// The folder of a model has no separator in its name, which is as long as before.
pub proof fn lemma_sanitized(value: Seq<char>)
    ensures
        sanitized(value).len() == value.len(),
        !sanitized(value).contains('/'),
        !sanitized(value).contains('\\'),
        !sanitized(value).contains(':'),
        sanitized(sanitized(value)) == sanitized(value),
        !value.contains('/') && !value.contains('\\') && !value.contains(':') ==> sanitized(value)
            == value,
{
    assert(sanitized(sanitized(value)) =~= sanitized(value));
    if !value.contains('/') && !value.contains('\\') && !value.contains(':') {
        assert forall|i: int| 0 <= i < value.len() implies sanitized(value)[i] == value[i] by {
            assert(value.contains(value[i]));
        }
        assert(sanitized(value) =~= value);
    }
}

/// A part that is not greater than the whole is shown as a number from 0 to 1, and the
/// whole as 1.
pub proof fn lemma_part_done(downloaded: u64, total: u64)
    requires
        0 < total,
        downloaded <= total,
    ensures
        part_done(downloaded, Some(total)) matches Some(part) && double::at_most(
            double::whole(0),
            part,
        ) && double::at_most(part, double::whole(1)),
        part_done(total, Some(total)) == Some(double::whole(1)),
{
    let n = double::whole(total as nat);
    let m = double::whole(downloaded as nat);
    let zero = double::whole(0);
    order::lemma_nearest_positive(total as nat, 1);
    order::lemma_nearest_monotone(0, 1, downloaded as nat, 1);
    order::lemma_nearest_monotone(downloaded as nat, 1, total as nat, 1);
    order::lemma_quotient_monotone(zero, m, n);
    order::lemma_quotient_monotone(m, n, n);
    order::lemma_quotient_self(n);
    order::lemma_quotient_zero(n);
}

/// How many bytes have come in a course of events.
pub open spec fn received(events: Seq<DownloadEvent>) -> int
    decreases events.len(),
{
    if events.len() == 0 {
        0
    } else {
        received(events.drop_last()) + match events.last() {
            DownloadEvent::Received(length) => length as int,
            _ => 0,
        }
    }
}

/// The state of a download after a course of events.
pub open spec fn state_after(start: DownloadView, events: Seq<DownloadEvent>) -> DownloadView
    decreases events.len(),
{
    if events.len() == 0 {
        start
    } else {
        download_step(state_after(start, events.drop_last()), events.last()).0
    }
}

/// Whether each of the events answers what was asked for before it.
pub open spec fn is_course(start: DownloadView, events: Seq<DownloadEvent>) -> bool
    decreases events.len(),
{
    events.len() == 0 || {
        &&& is_course(start, events.drop_last())
        &&& answers(state_after(start, events.drop_last()), events.last())
    }
}

/// Whether a download has just begun.
pub open spec fn is_new(download: DownloadView) -> bool {
    &&& download.stage == DownloadStage::DataFolder
    &&& download.total is None
    &&& download.downloaded == 0
    &&& download.pending == 0
}

/// As long as a download goes on, the bytes written and being written are those that came.
pub proof fn lemma_bytes_counted(start: DownloadView, events: Seq<DownloadEvent>)
    requires
        is_new(start),
        is_course(start, events),
    ensures
        ({
            let state = state_after(start, events);
            state.stage != DownloadStage::Over ==> state.downloaded + state.pending == received(
                events,
            )
        }),
        ({
            let state = state_after(start, events);
            state.stage != DownloadStage::Over && state.stage != DownloadStage::Write
                ==> state.pending == 0
        }),
    decreases events.len(),
{
    if events.len() > 0 {
        lemma_bytes_counted(start, events.drop_last());
    }
}

/// What a course of events leaves of a download that goes on: the request as it was, a place
/// inside the data folder, and the path of that folder as it was told at first.
pub proof fn lemma_place_kept(start: DownloadView, events: Seq<DownloadEvent>)
    requires
        is_new(start),
        is_course(start, events),
    ensures
        ({
            let state = state_after(start, events);
            &&& state.repo_id == start.repo_id
            &&& state.filename == start.filename
            &&& state.windows == start.windows
            &&& state.stage == DownloadStage::DataFolder ==> events.len() == 0
            &&& state.stage != DownloadStage::DataFolder && state.stage != DownloadStage::Over
                ==> {
                &&& place::is_inside(start.repo_id, start.filename, start.windows)
                &&& events.len() > 0
                &&& events[0] matches DownloadEvent::Resolved(folder) && state.data_folder
                    == folder@
            }
        }),
    decreases events.len(),
{
    if events.len() > 0 {
        lemma_place_kept(start, events.drop_last());
        if events.len() > 1 {
            assert(events.drop_last()[0] == events[0]);
        } else {
            assert(events.drop_last().len() == 0);
        }
    }
}

/// A download that finishes reports the bytes that came, all of them, and the path of the
/// model file below the data folder, which it does not leave. It finishes only behind the end
/// of the bytes, the flush of the partial file and its move to the place of the model file.
pub proof fn lemma_finished_download(start: DownloadView, events: Seq<DownloadEvent>)
    requires
        is_new(start),
        is_course(start, events),
        state_after(start, events).stage == DownloadStage::Rename,
    ensures
        answers(state_after(start, events), DownloadEvent::Done),
        events.len() >= 3,
        events[0] is Resolved,
        events[events.len() - 2] is Ended,
        events[events.len() - 1] is Done,
        place::is_inside(start.repo_id, start.filename, start.windows),
        received(events) <= u64::MAX,
        download_step(state_after(start, events.drop_last()), events.last()).1
            == DownloadActionView::Rename(
            place::partial_steps(file_place(start)),
            file_place(start),
        ),
        download_step(state_after(start, events), DownloadEvent::Done).1 == (
        DownloadActionView::Finish {
            path: place::path_of(
                events[0]->Resolved_0@,
                start.repo_id,
                start.filename,
                start.windows,
            ),
            bytes: received(events) as u64,
        }),
{
    lemma_bytes_counted(start, events);
    lemma_place_kept(start, events);
    reveal_with_fuel(state_after, 3);
    reveal_with_fuel(is_course, 3);
    assert(events.len() > 0);
    let before = events.drop_last();
    lemma_place_kept(start, before);
    assert(state_after(start, before).stage == DownloadStage::Flush);
    assert(before.len() > 0);
    assert(before.last() == events[events.len() - 2]);
}

/// A download of a file that would lie outside the data folder fails before anything is
/// created or asked for.
pub proof fn lemma_outside_is_refused(start: DownloadView, folder: String)
    requires
        is_new(start),
        !place::is_inside(start.repo_id, start.filename, start.windows),
    ensures
        download_step(start, DownloadEvent::Resolved(folder)).0.stage == DownloadStage::Over,
        download_step(start, DownloadEvent::Resolved(folder)).1 == DownloadActionView::Fail(
            place::outside_message(start.filename),
        ),
{
}

/// A step never takes back bytes that were written.
pub proof fn lemma_progress_grows(download: DownloadView, event: DownloadEvent)
    requires
        answers(download, event),
    ensures
        download.downloaded <= download_step(download, event).0.downloaded,
        download_step(download, event).1 matches DownloadActionView::Receive(Some(progress))
            ==> progress.downloaded == download_step(download, event).0.downloaded
            && progress.total == download.total,
{
}

/// A download that has failed or finished is over: nothing more is answered.
pub proof fn lemma_over_is_final(download: DownloadView, event: DownloadEvent, next: DownloadEvent)
    requires
        answers(download, event),
        download_step(download, event).1 is Fail || download_step(download, event).1 is Finish,
    ensures
        download_step(download, event).0.stage == DownloadStage::Over,
        !answers(download_step(download, event).0, next),
{
}

} // verus!
