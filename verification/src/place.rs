//! Where the file of a model lies.
//!
//! A place is a way down from the application's data folder, one name after the other. File
//! names come from the hub and may hold separators, so that one name may be several steps.

use vstd::prelude::*;
use crate::download;
use crate::text;

verus! {

/// Whether a character parts the steps of a path. The backslash does so on Windows only.
pub open spec fn is_separator(c: char, windows: bool) -> bool {
    c == '/' || (windows && c == '\\')
}

/// The steps of a name, parted at its separators.
pub open spec fn parts_of(name: Seq<char>, windows: bool) -> Seq<Seq<char>>
    decreases name.len(),
{
    if name.len() == 0 {
        seq![Seq::empty()]
    } else {
        let before = parts_of(name.drop_last(), windows);
        if is_separator(name.last(), windows) {
            before.push(Seq::empty())
        } else {
            before.drop_last().push(before.last().push(name.last()))
        }
    }
}

/// Whether a path begins with a drive, as `C:` does.
pub open spec fn names_drive(part: Seq<char>) -> bool {
    part.len() >= 2 && ('a' <= part[0] <= 'z' || 'A' <= part[0] <= 'Z') && part[1] == ':'
}

/// Whether a name leads away from any folder: it begins at the root, or with a drive of
/// Windows.
pub open spec fn leads_away(name: Seq<char>, windows: bool) -> bool {
    ||| name.len() > 0 && is_separator(name[0], windows)
    ||| windows && names_drive(name)
}

/// Whether a step stays where it is.
pub open spec fn is_idle(part: Seq<char>) -> bool {
    part == Seq::<char>::empty() || part == "."@
}

/// Whether a step goes up.
pub open spec fn goes_up(part: Seq<char>) -> bool {
    part == ".."@
}

/// Where the steps lead from a folder, as names one below the other; `None` where they
/// leave it.
pub open spec fn resolved(steps: Seq<Seq<char>>) -> Option<Seq<Seq<char>>>
    decreases steps.len(),
{
    if steps.len() == 0 {
        Some(Seq::empty())
    } else {
        match resolved(steps.drop_last()) {
            None => None,
            Some(names) => if is_idle(steps.last()) {
                Some(names)
            } else if !goes_up(steps.last()) {
                Some(names.push(steps.last()))
            } else if names.len() > 0 {
                Some(names.drop_last())
            } else {
                None
            },
        }
    }
}

/// The steps from the data folder to the file of a model.
pub open spec fn steps_to(repo_id: Seq<char>, filename: Seq<char>, windows: bool) -> Seq<
    Seq<char>,
> {
    seq!["models"@, download::sanitized(repo_id)] + parts_of(filename, windows)
}

/// Whether the file of a model lies inside the data folder.
pub open spec fn is_inside(repo_id: Seq<char>, filename: Seq<char>, windows: bool) -> bool {
    &&& !leads_away(filename, windows)
    &&& resolved(steps_to(repo_id, filename, windows)) matches Some(names) && names.len() > 0
}

/// What is said of a file that would lie elsewhere.
pub open spec fn outside_message(filename: Seq<char>) -> Seq<char> {
    "The model file would lie outside the application data folder: "@ + filename
}

/// The steps of a name, parted at its separators.
fn parts(name: &str, windows: bool) -> (r: Vec<String>)
    ensures
        text::views(r@) == parts_of(name@, windows),
{
    let chars = text::characters(name);
    let mut r: Vec<String> = Vec::new();
    let mut current = String::new();
    assert(text::views(r@).push(current@) =~= parts_of(chars@.take(0), windows));
    for i in 0..chars.len()
        invariant
            text::views(r@).push(current@) == parts_of(chars@.take(i as int), windows),
    {
        let c: char = chars[i];
        let ghost done = text::views(r@);
        let ghost start = current@;
        assert(chars@.take(i + 1).drop_last() == chars@.take(i as int));
        if c == '/' || (windows && c == '\\') {
            r.push(current);
            current = String::new();
            assert(text::views(r@) =~= done.push(start));
        } else {
            current.push(c);
            assert(done.push(start).drop_last() == done);
        }
    }
    assert(chars@.take(chars.len() as int) == chars@);
    let ghost done = text::views(r@);
    let ghost last = current@;
    r.push(current);
    assert(text::views(r@) =~= done.push(last));
    r
}

fn is_drive(part: &str) -> (r: bool)
    ensures
        r == names_drive(part@),
{
    let chars = text::characters(part);
    chars.len() >= 2 && (('a' <= chars[0] && chars[0] <= 'z') || ('A' <= chars[0] && chars[0]
        <= 'Z')) && chars[1] == ':'
}

/// Whether a name leads away from any folder.
fn is_away(name: &str, windows: bool) -> (r: bool)
    ensures
        r == leads_away(name@, windows),
{
    let chars = text::characters(name);
    (chars.len() > 0 && (chars[0] == '/' || (windows && chars[0] == '\\'))) || (windows
        && is_drive(name))
}

/// Where the steps lead from a folder; `None` where they leave it.
fn resolve(steps: &Vec<String>) -> (r: Option<Vec<String>>)
    ensures
        match r {
            Some(names) => resolved(text::views(steps@)) == Some(text::views(names@)),
            None => resolved(text::views(steps@)) is None,
        },
{
    let ghost all = text::views(steps@);
    let mut names: Vec<String> = Vec::new();
    assert(text::views(names@) =~= Seq::<Seq<char>>::empty());
    for i in 0..steps.len()
        invariant
            all == text::views(steps@),
            resolved(all.take(i as int)) == Some(text::views(names@)),
    {
        let step: &str = steps[i].as_str();
        let ghost before = text::views(names@);
        assert(all.take(i + 1).drop_last() == all.take(i as int));
        assert(all.take(i + 1).last() == step@);
        proof {
            reveal_strlit("");
            assert(""@ =~= Seq::<char>::empty());
        }
        if !text::same(step, "") && !text::same(step, ".") {
            if !text::same(step, "..") {
                names.push(step.to_owned());
                assert(text::views(names@) =~= before.push(step@));
            } else if names.len() > 0 {
                let _ = names.pop();
                assert(text::views(names@) =~= before.drop_last());
            } else {
                proof {
                    lemma_left_for_good(all, i + 1);
                }
                return None;
            }
        }
    }
    assert(all.take(steps.len() as int) == all);
    Some(names)
}

/// Steps that have left a folder do not come back to it.
proof fn lemma_left_for_good(steps: Seq<Seq<char>>, i: int)
    requires
        0 <= i <= steps.len(),
        resolved(steps.take(i)) is None,
    ensures
        resolved(steps) is None,
    decreases steps.len(),
{
    if i < steps.len() {
        assert(steps.drop_last().take(i) == steps.take(i));
        lemma_left_for_good(steps.drop_last(), i);
    } else {
        assert(steps.take(i) == steps);
    }
}

/// The steps from the data folder to the file of a model.
pub fn model_steps(repo_id: &str, filename: &str, windows: bool) -> (steps: Vec<String>)
    ensures
        text::views(steps@) == steps_to(repo_id@, filename@, windows),
{
    let names = parts(filename, windows);
    let mut steps = download::model_folder(repo_id);
    let ghost folder = text::views(steps@);
    for i in 0..names.len()
        invariant
            text::views(steps@) == folder + text::views(names@).take(i as int),
    {
        let ghost before = text::views(steps@);
        steps.push(names[i].clone());
        assert(text::views(steps@) =~= before.push(names@[i as int]@));
        assert(text::views(names@).take(i + 1) =~= text::views(names@).take(i as int).push(
            names@[i as int]@,
        ));
    }
    assert(text::views(names@).take(names.len() as int) =~= text::views(names@));
    steps
}

/// The steps from the data folder to the file of a model, or word that it would lie
/// elsewhere.
pub fn model_file(repo_id: &str, filename: &str, windows: bool) -> (r: Result<Vec<String>, String>)
    ensures
        r is Ok <==> is_inside(repo_id@, filename@, windows),
        r matches Ok(steps) ==> text::views(steps@) == steps_to(repo_id@, filename@, windows),
        r matches Err(message) ==> message@ == outside_message(filename@),
{
    let steps = model_steps(repo_id, filename, windows);
    let inside: bool = match resolve(&steps) {
        Some(names) => names.len() > 0 && !is_away(filename, windows),
        None => false,
    };
    if inside {
        Ok(steps)
    } else {
        Err(
            "The model file would lie outside the application data folder: ".to_owned().concat(
                filename,
            ),
        )
    }
}

/// The position of the last point of a name; -1 where there is none.
pub open spec fn last_point(name: Seq<char>) -> int
    decreases name.len(),
{
    if name.len() == 0 {
        -1
    } else if name.last() == '.' {
        name.len() - 1
    } else {
        last_point(name.drop_last())
    }
}

/// A name without its last extension. A point in front begins no extension.
pub open spec fn stem(name: Seq<char>) -> Seq<char> {
    if last_point(name) > 0 {
        name.take(last_point(name))
    } else {
        name
    }
}

/// The name of a file that is not complete: `partial` takes the place of the last extension.
pub open spec fn partial_of(name: Seq<char>) -> Seq<char> {
    stem(name) + ".partial"@
}

/// The name of a file that is not complete.
pub fn partial_name(name: &str) -> (r: String)
    ensures
        r@ == partial_of(name@),
{
    let chars = text::characters(name);
    let mut end: usize = chars.len();
    assert(chars@.take(end as int) == chars@);
    while end > 0 && chars[end - 1] != '.'
        invariant
            end <= chars.len(),
            last_point(chars@) == last_point(chars@.take(end as int)),
        decreases end,
    {
        assert(chars@.take(end as int).drop_last() == chars@.take(end - 1));
        end = end - 1;
    }
    assert(last_point(chars@) == end - 1);
    let kept: usize = if end > 1 { end - 1 } else { chars.len() };
    let mut r = String::new();
    for i in 0..kept
        invariant
            kept <= chars.len(),
            r@ == chars@.take(i as int),
    {
        r.push(chars[i]);
    }
    assert(chars@.take(kept as int) == stem(chars@));
    r.append(".partial");
    r
}

/// The step that names a file: the last one that does not stay where it is; -1 where that
/// one goes up.
pub open spec fn file_step(steps: Seq<Seq<char>>) -> int
    decreases steps.len(),
{
    if steps.len() == 0 || goes_up(steps.last()) {
        -1
    } else if is_idle(steps.last()) {
        file_step(steps.drop_last())
    } else {
        steps.len() - 1
    }
}

/// The steps to the file that is written while a download goes on, by those to the file
/// itself: they end in the name of an incomplete file. Without a name they are the same.
pub open spec fn partial_steps(steps: Seq<Seq<char>>) -> Seq<Seq<char>> {
    let i = file_step(steps);
    if i < 0 {
        steps
    } else {
        steps.take(i).push(partial_of(steps[i]))
    }
}

/// The steps to the file that is written while a download goes on.
pub fn partial_file(steps: &Vec<String>) -> (r: Vec<String>)
    ensures
        text::views(r@) == partial_steps(text::views(steps@)),
{
    let ghost all = text::views(steps@);
    let mut end: usize = steps.len();
    assert(all.take(end as int) == all);
    proof {
        reveal_strlit("");
        reveal_strlit(".");
        reveal_strlit("..");
        assert(""@ =~= Seq::<char>::empty());
        assert("."@.len() == 1 && ".."@.len() == 2);
    }
    while end > 0 && (text::same(steps[end - 1].as_str(), "") || text::same(
        steps[end - 1].as_str(),
        ".",
    ))
        invariant
            end <= steps.len(),
            all == text::views(steps@),
            ""@ == Seq::<char>::empty(),
            ""@ != ".."@,
            "."@ != ".."@,
            file_step(all) == file_step(all.take(end as int)),
        decreases end,
    {
        assert(all.take(end as int).last() == steps@[end - 1]@);
        assert(all.take(end as int).drop_last() == all.take(end - 1));
        end = end - 1;
    }
    if end > 0 {
        assert(all.take(end as int).last() == steps@[end - 1]@);
    }
    if end == 0 || text::same(steps[end - 1].as_str(), "..") {
        return text::copy(steps);
    }
    assert(file_step(all) == end - 1);
    let mut r: Vec<String> = Vec::new();
    for i in 0..end - 1
        invariant
            0 < end <= steps.len(),
            all == text::views(steps@),
            text::views(r@) == all.take(i as int),
    {
        let ghost before = text::views(r@);
        r.push(steps[i].clone());
        assert(text::views(r@) =~= before.push(steps@[i as int]@));
        assert(all.take(i + 1) =~= all.take(i as int).push(all[i as int]));
    }
    let ghost before = text::views(r@);
    let name = partial_name(steps[end - 1].as_str());
    r.push(name);
    assert(text::views(r@) =~= before.push(name@));
    r
}

/// A path with one more name at its end. There is a separator between the two, unless the
/// path is empty, ends in one or is a bare drive.
pub open spec fn path_below(path: Seq<char>, name: Seq<char>, windows: bool) -> Seq<char> {
    if path.len() == 0 || is_separator(path.last(), windows) || (windows && path.len() == 2
        && names_drive(path)) {
        path + name
    } else if windows {
        path + seq!['\\'] + name
    } else {
        path + seq!['/'] + name
    }
}

/// Whether a path of Windows is verbatim, as `\\?\C:\data` is.
pub open spec fn is_verbatim(path: Seq<char>) -> bool {
    "\\\\?\\"@.is_prefix_of(path)
}

/// What a verbatim path begins with, whatever follows.
pub open spec fn verbatim_head(path: Seq<char>) -> nat {
    if "\\\\?\\UNC\\"@.is_prefix_of(path) {
        8
    } else {
        4
    }
}

/// A text with one backslash for each run of them, and none at its end.
pub open spec fn squeezed(rest: Seq<char>) -> Seq<char>
    decreases rest.len(),
{
    if rest.len() == 0 {
        Seq::empty()
    } else {
        let front = rest.drop_last();
        if rest.last() == '\\' {
            squeezed(front)
        } else if front.len() > 0 && front.last() == '\\' {
            squeezed(front) + seq!['\\', rest.last()]
        } else {
            squeezed(front).push(rest.last())
        }
    }
}

/// A verbatim path without empty steps behind its head.
pub open spec fn tidied(path: Seq<char>) -> Seq<char> {
    path.take(verbatim_head(path) as int) + squeezed(path.skip(verbatim_head(path) as int))
}

/// A path with names at its end, a backslash before each.
pub open spec fn names_below(path: Seq<char>, names: Seq<Seq<char>>) -> Seq<char>
    decreases names.len(),
{
    if names.len() == 0 {
        path
    } else {
        names_below(path, names.drop_last()) + seq!['\\'] + names.last()
    }
}

/// The names that steps lead to; none where they leave the folder.
pub open spec fn names_of(steps: Seq<Seq<char>>) -> Seq<Seq<char>> {
    match resolved(steps) {
        Some(names) => names,
        None => Seq::empty(),
    }
}

/// The path of the file of a model, by that of the data folder. A verbatim path of Windows
/// takes no step that stays or goes up: what is below such a folder is told by the names
/// that the steps lead to. Only an empty file name still puts a separator at the end.
pub open spec fn path_of(
    data_folder: Seq<char>,
    repo_id: Seq<char>,
    filename: Seq<char>,
    windows: bool,
) -> Seq<char> {
    if windows && is_verbatim(data_folder) {
        names_below(tidied(data_folder), names_of(steps_to(repo_id, filename, windows))) + (
        if filename.len() == 0 {
            seq!['\\']
        } else {
            Seq::empty()
        })
    } else {
        path_below(
            path_below(
                path_below(data_folder, "models"@, windows),
                download::sanitized(repo_id),
                windows,
            ),
            filename,
            windows,
        )
    }
}

/// A verbatim path without empty steps behind its head.
fn tidy(path: &str) -> (r: String)
    requires
        is_verbatim(path@),
    ensures
        r@ == tidied(path@),
{
    let chars = text::characters(path);
    let head: usize = if text::starts_with(path, "\\\\?\\UNC\\") { 8 } else { 4 };
    proof {
        reveal_strlit("\\\\?\\");
        reveal_strlit("\\\\?\\UNC\\");
    }
    assert(head <= chars.len());
    let mut r = String::new();
    for i in 0..head
        invariant
            head <= chars.len(),
            r@ == chars@.take(i as int),
    {
        r.push(chars[i]);
    }
    let ghost rest = chars@.skip(head as int);
    assert(rest.take(0) =~= Seq::<char>::empty());
    for i in head..chars.len()
        invariant
            head <= chars.len(),
            rest == chars@.skip(head as int),
            r@ == chars@.take(head as int) + squeezed(rest.take(i - head)),
    {
        let c: char = chars[i];
        assert(rest.take(i + 1 - head).drop_last() == rest.take(i - head));
        assert(rest.take(i + 1 - head).last() == c);
        if c != '\\' {
            if i > head && chars[i - 1] == '\\' {
                assert(rest.take(i - head).last() == chars@[i - 1]);
                r.push('\\');
            } else if i > head {
                assert(rest.take(i - head).last() == chars@[i - 1]);
            }
            r.push(c);
            assert(r@ =~= chars@.take(head as int) + squeezed(rest.take(i + 1 - head)));
        }
    }
    assert(rest.take(chars.len() - head) == rest);
    r
}

fn extended(path: String, name: &str, windows: bool) -> (r: String)
    ensures
        r@ == path_below(path@, name@, windows),
{
    let chars = text::characters(path.as_str());
    let n: usize = chars.len();
    let closed: bool = n == 0 || chars[n - 1] == '/' || (windows && chars[n - 1] == '\\') || (
    windows && n == 2 && is_drive(path.as_str()));
    if closed {
        path.concat(name)
    } else if windows {
        let mut r = path;
        r.push('\\');
        assert(r@ =~= path@ + seq!['\\']);
        r.concat(name)
    } else {
        let mut r = path;
        r.push('/');
        assert(r@ =~= path@ + seq!['/']);
        r.concat(name)
    }
}

/// The path of the file of a model, by that of the data folder.
pub fn model_path(data_folder: &str, repo_id: &str, filename: &str, windows: bool) -> (r: String)
    ensures
        r@ == path_of(data_folder@, repo_id@, filename@, windows),
{
    if windows && text::starts_with(data_folder, "\\\\?\\") {
        let mut path = tidy(data_folder);
        if let Some(names) = resolve(&model_steps(repo_id, filename, windows)) {
            let ghost start = path@;
            let ghost all = text::views(names@);
            for i in 0..names.len()
                invariant
                    all == text::views(names@),
                    path@ == names_below(start, all.take(i as int)),
            {
                assert(all.take(i + 1).drop_last() == all.take(i as int));
                let ghost before = path@;
                path.push('\\');
                path.append(names[i].as_str());
                assert(path@ =~= before + seq!['\\'] + all[i as int]);
            }
            assert(all.take(names.len() as int) == all);
        }
        let ghost before = path@;
        if text::same(filename, "") {
            path.push('\\');
        }
        proof {
            reveal_strlit("");
            assert(filename@ == ""@ <==> filename@.len() == 0) by {
                if filename@.len() == 0 {
                    assert(filename@ =~= ""@);
                }
            }
            assert(before + Seq::<char>::empty() =~= before);
            assert(before + seq!['\\'] =~= before.push('\\'));
        }
        return path;
    }
    let models = extended(data_folder.to_owned(), "models", windows);
    let folder = extended(models, download::sanitize(repo_id).as_str(), windows);
    extended(folder, filename, windows)
}

/// Whether a name is that of one thing in a folder: no separator in it, and no step that
/// stays or goes up.
pub open spec fn is_entry(name: Seq<char>, windows: bool) -> bool {
    &&& !is_idle(name)
    &&& !goes_up(name)
    &&& forall|i: int| 0 <= i < name.len() ==> !is_separator(#[trigger] name[i], windows)
}

pub proof fn lemma_parts_have_no_separator(name: Seq<char>, windows: bool)
    ensures
        parts_of(name, windows).len() > 0,
        forall|i: int, j: int|
            0 <= i < parts_of(name, windows).len() && 0 <= j < parts_of(name, windows)[i].len()
                ==> !is_separator(#[trigger] parts_of(name, windows)[i][j], windows),
    decreases name.len(),
{
    if name.len() > 0 {
        lemma_parts_have_no_separator(name.drop_last(), windows);
        let before = parts_of(name.drop_last(), windows);
        let after = parts_of(name, windows);
        assert forall|i: int, j: int|
            0 <= i < after.len() && 0 <= j < after[i].len() implies !is_separator(
            #[trigger] after[i][j],
            windows,
        ) by {
            if i < before.len() && j < before[i].len() {
                assert(!is_separator(before[i][j], windows));
            }
        }
    }
}

proof fn lemma_resolved_names(steps: Seq<Seq<char>>)
    ensures
        resolved(steps) matches Some(names) ==> forall|i: int|
            0 <= i < names.len() ==> {
                &&& steps.contains(#[trigger] names[i])
                &&& !is_idle(names[i])
                &&& !goes_up(names[i])
            },
    decreases steps.len(),
{
    if steps.len() > 0 {
        let front = steps.drop_last();
        lemma_resolved_names(front);
        if let Some(names) = resolved(steps) {
            let before = resolved(front)->0;
            assert(steps[steps.len() - 1] == steps.last());
            assert forall|i: int| 0 <= i < names.len() implies {
                &&& steps.contains(#[trigger] names[i])
                &&& !is_idle(names[i])
                &&& !goes_up(names[i])
            } by {
                if i < before.len() {
                    assert(names[i] == before[i]);
                    assert(front.contains(before[i]));
                    let k = choose|k: int| 0 <= k < front.len() && front[k] == before[i];
                    assert(steps[k] == names[i]);
                }
            }
        }
    }
}

/// A model file that lies inside the data folder is found below it by names alone: each is
/// an entry of the folder before, and none of them leads up or away.
pub proof fn lemma_stored_inside(repo_id: Seq<char>, filename: Seq<char>, windows: bool)
    requires
        is_inside(repo_id, filename, windows),
    ensures
        resolved(steps_to(repo_id, filename, windows)) matches Some(names) && names.len() > 0
            && forall|i: int| 0 <= i < names.len() ==> is_entry(#[trigger] names[i], windows),
{
    let steps = steps_to(repo_id, filename, windows);
    let names = resolved(steps)->0;
    lemma_resolved_names(steps);
    lemma_parts_have_no_separator(filename, windows);
    download::lemma_sanitized(repo_id);
    reveal_strlit("models");
    assert forall|i: int| 0 <= i < names.len() implies is_entry(#[trigger] names[i], windows) by {
        let k = choose|k: int| 0 <= k < steps.len() && steps[k] == names[i];
        assert forall|j: int| 0 <= j < names[i].len() implies !is_separator(
            #[trigger] names[i][j],
            windows,
        ) by {
            if k == 1 {
                let clean = download::sanitized(repo_id);
                assert(clean.contains(clean[j]));
            } else if k >= 2 {
                assert(steps[k] == parts_of(filename, windows)[k - 2]);
                assert(!is_separator(parts_of(filename, windows)[k - 2][j], windows));
            }
        }
    }
}

pub proof fn lemma_single_part(name: Seq<char>, windows: bool)
    requires
        forall|i: int| 0 <= i < name.len() ==> !is_separator(#[trigger] name[i], windows),
    ensures
        parts_of(name, windows) == seq![name],
    decreases name.len(),
{
    if name.len() > 0 {
        let front = name.drop_last();
        assert forall|i: int| 0 <= i < front.len() implies !is_separator(
            #[trigger] front[i],
            windows,
        ) by {
            assert(front[i] == name[i]);
        }
        lemma_single_part(front, windows);
        assert(name[name.len() - 1] == name.last());
        assert(front.push(name.last()) == name);
        assert(parts_of(name, windows) =~= seq![name]);
    } else {
        assert(name == Seq::<char>::empty());
    }
}

/// A plain file name stays inside the data folder, whatever the repository is called, and
/// the way to it is the folder of the models, that of the repository and the name.
pub proof fn lemma_plain_name(repo_id: Seq<char>, filename: Seq<char>, windows: bool)
    requires
        is_entry(filename, windows),
        windows ==> !names_drive(filename),
    ensures
        is_inside(repo_id, filename, windows),
        steps_to(repo_id, filename, windows) == seq![
            "models"@,
            download::sanitized(repo_id),
            filename,
        ],
        partial_steps(steps_to(repo_id, filename, windows)) == seq![
            "models"@,
            download::sanitized(repo_id),
            partial_of(filename),
        ],
{
    lemma_single_part(filename, windows);
    let folder = seq!["models"@, download::sanitized(repo_id)];
    let steps = steps_to(repo_id, filename, windows);
    assert(steps =~= folder.push(filename));
    assert(steps.drop_last() == folder);
    assert(folder.drop_last() =~= seq!["models"@]);
    assert(seq!["models"@].drop_last() =~= Seq::<Seq<char>>::empty());
    reveal_strlit("models");
    reveal_strlit(".");
    reveal_strlit("..");
    reveal_with_fuel(resolved, 4);
    assert("models"@.len() == 6);
    assert(resolved(seq!["models"@]) == Some(Seq::<Seq<char>>::empty().push("models"@)));
    assert(steps.take(2) =~= folder);
    assert(partial_steps(steps) =~= folder.push(partial_of(filename)));
}

/// A step that stays where it is changes nothing.
proof fn lemma_file_step(steps: Seq<Seq<char>>)
    ensures
        -1 <= file_step(steps) < steps.len(),
        file_step(steps) >= 0 ==> {
            &&& !is_idle(steps[file_step(steps)])
            &&& !goes_up(steps[file_step(steps)])
            &&& resolved(steps) == resolved(steps.take(file_step(steps) + 1))
        },
    decreases steps.len(),
{
    if steps.len() > 0 {
        let front = steps.drop_last();
        lemma_file_step(front);
        let i = file_step(steps);
        if i == steps.len() - 1 {
            assert(steps.take(i + 1) == steps);
        } else if i >= 0 {
            assert(front.take(i + 1) == steps.take(i + 1));
        }
    }
}

/// The incomplete file lies in the folder of the file itself.
pub proof fn lemma_partial_beside(steps: Seq<Seq<char>>)
    requires
        resolved(steps) is Some,
        file_step(steps) >= 0,
    ensures
        resolved(steps)->0.len() > 0,
        resolved(partial_steps(steps)) == Some(
            resolved(steps)->0.drop_last().push(partial_of(resolved(steps)->0.last())),
        ),
{
    lemma_file_step(steps);
    let i = file_step(steps);
    let front = steps.take(i);
    let name = steps[i];
    assert(steps.take(i + 1).drop_last() == front);
    assert(steps.take(i + 1).last() == name);
    let names = resolved(front)->0;
    assert(resolved(steps) == Some(names.push(name)));
    assert(names.push(name).drop_last() == names);
    let partial = partial_of(name);
    reveal_strlit(".partial");
    reveal_strlit(".");
    reveal_strlit("..");
    assert(partial.len() >= 8);
    assert(front.push(partial).drop_last() == front);
}

/// A separator parts what is before it from what is behind it.
pub proof fn lemma_parts_join(a: Seq<char>, separator: char, b: Seq<char>, windows: bool)
    requires
        is_separator(separator, windows),
    ensures
        parts_of(a + seq![separator] + b, windows) == parts_of(a, windows) + parts_of(b, windows),
    decreases b.len(),
{
    let whole = a + seq![separator] + b;
    lemma_parts_have_no_separator(a, windows);
    lemma_parts_have_no_separator(b, windows);
    if b.len() == 0 {
        assert(whole.drop_last() =~= a);
        assert(whole.last() == separator);
        assert(parts_of(whole, windows) =~= parts_of(a, windows) + parts_of(b, windows));
    } else {
        let front = b.drop_last();
        lemma_parts_join(a, separator, front, windows);
        lemma_parts_have_no_separator(front, windows);
        assert(whole.drop_last() =~= a + seq![separator] + front);
        assert(whole.last() == b.last());
        assert(parts_of(whole, windows) =~= parts_of(a, windows) + parts_of(b, windows));
    }
}

/// The path that is reported names the place of the file: its steps are those of the data
/// folder and then those by which the file is reached.
pub proof fn lemma_path_names_the_place(
    folder: Seq<char>,
    repo_id: Seq<char>,
    filename: Seq<char>,
    windows: bool,
)
    requires
        folder.len() > 0,
        !is_separator(folder.last(), windows),
        windows ==> !(folder.len() == 2 && names_drive(folder)) && !is_verbatim(folder),
        repo_id.len() > 0,
    ensures
        parts_of(path_of(folder, repo_id, filename, windows), windows) == parts_of(
            folder,
            windows,
        ) + steps_to(repo_id, filename, windows),
{
    let separator = if windows {
        '\\'
    } else {
        '/'
    };
    let repository = download::sanitized(repo_id);
    let a = folder + seq![separator] + "models"@;
    let b = a + seq![separator] + repository;
    let c = b + seq![separator] + filename;
    reveal_strlit("models");
    download::lemma_sanitized(repo_id);
    assert(a.last() == 's' && a.len() > 2);
    assert(b.last() == repository.last() && b.len() > 2);
    assert(repository.contains(repository[repository.len() - 1]));
    assert(path_of(folder, repo_id, filename, windows) == c);
    assert forall|i: int| 0 <= i < repository.len() implies !is_separator(
        #[trigger] repository[i],
        windows,
    ) by {
        assert(repository.contains(repository[i]));
    }
    lemma_single_part("models"@, windows);
    lemma_single_part(repository, windows);
    lemma_parts_join(folder, separator, "models"@, windows);
    lemma_parts_join(a, separator, repository, windows);
    lemma_parts_join(b, separator, filename, windows);
    assert(parts_of(c, windows) =~= parts_of(folder, windows) + steps_to(
        repo_id,
        filename,
        windows,
    ));
}

proof fn lemma_parts_of_names_below(path: Seq<char>, names: Seq<Seq<char>>)
    requires
        forall|i: int| 0 <= i < names.len() ==> is_entry(#[trigger] names[i], true),
    ensures
        parts_of(names_below(path, names), true) == parts_of(path, true) + names,
    decreases names.len(),
{
    if names.len() > 0 {
        let front = names.drop_last();
        assert forall|i: int| 0 <= i < front.len() implies is_entry(#[trigger] front[i], true) by {
            assert(front[i] == names[i]);
        }
        lemma_parts_of_names_below(path, front);
        assert(is_entry(names[names.len() - 1], true));
        lemma_single_part(names.last(), true);
        lemma_parts_join(names_below(path, front), '\\', names.last(), true);
        assert(parts_of(names_below(path, names), true) =~= parts_of(path, true) + names);
    } else {
        assert(parts_of(path, true) + names =~= parts_of(path, true));
    }
}

/// So it does below a verbatim folder: its steps are those of the folder and then the names
/// that the steps to the file lead to.
pub proof fn lemma_verbatim_path_names_the_place(
    folder: Seq<char>,
    repo_id: Seq<char>,
    filename: Seq<char>,
)
    requires
        is_verbatim(folder),
        is_inside(repo_id, filename, true),
        filename.len() > 0,
    ensures
        parts_of(path_of(folder, repo_id, filename, true), true) == parts_of(tidied(folder), true)
            + names_of(steps_to(repo_id, filename, true)),
{
    let names = names_of(steps_to(repo_id, filename, true));
    lemma_stored_inside(repo_id, filename, true);
    lemma_parts_of_names_below(tidied(folder), names);
    let path = names_below(tidied(folder), names);
    assert(path + Seq::<char>::empty() =~= path);
}

} // verus!
