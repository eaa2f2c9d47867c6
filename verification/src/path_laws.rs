//! What holds of the paths of model files.

use vstd::prelude::*;
use crate::download;
use crate::place;

verus! {

/// Whether a text has no backslash at its end and no two of them in a row.
pub open spec fn is_tidy(source: Seq<char>) -> bool {
    &&& source.len() > 0 ==> source.last() != '\\'
    &&& forall|i: int|
        0 <= i < source.len() - 1 && #[trigger] source[i] == '\\' ==> source[i + 1] != '\\'
}

/// The characters of a text that are no backslashes.
pub open spec fn letters(source: Seq<char>) -> Seq<char>
    decreases source.len(),
{
    if source.len() == 0 {
        Seq::empty()
    } else if source.last() == '\\' {
        letters(source.drop_last())
    } else {
        letters(source.drop_last()).push(source.last())
    }
}

proof fn lemma_letters_of(a: Seq<char>, c: char)
    ensures
        c == '\\' ==> letters(a.push(c)) == letters(a),
        c != '\\' ==> letters(a.push(c)) == letters(a).push(c),
{
    assert(a.push(c).drop_last() =~= a);
}

/// Runs of backslashes become single ones, and none is left at the end; every other character
/// stays, and what is tidy stays as it is.
pub proof fn lemma_squeezed(rest: Seq<char>)
    ensures
        is_tidy(place::squeezed(rest)),
        letters(place::squeezed(rest)) == letters(rest),
        is_tidy(rest) ==> place::squeezed(rest) == rest,
    decreases rest.len(),
{
    if rest.len() > 0 {
        let front = rest.drop_last();
        let last = rest.last();
        let less = place::squeezed(front);
        lemma_squeezed(front);
        assert(front.push(last) =~= rest);
        lemma_letters_of(front, last);
        if last == '\\' {
        } else if front.len() > 0 && front.last() == '\\' {
            let r = place::squeezed(rest);
            lemma_letters_of(less, '\\');
            lemma_letters_of(less.push('\\'), last);
            assert(r =~= less.push('\\').push(last));
            assert forall|i: int| 0 <= i < r.len() - 1 && #[trigger] r[i] == '\\' implies r[i + 1]
                != '\\' by {
                if i < less.len() {
                    assert(less[i] == r[i]);
                    if i == less.len() - 1 {
                        assert(less.last() == '\\');
                    } else {
                        assert(less[i + 1] == r[i + 1]);
                    }
                }
            }
            if is_tidy(rest) {
                lemma_without_last(rest);
                let short = front.drop_last();
                assert(front.len() >= 1);
                lemma_squeezed(short);
                assert(short.push('\\') =~= front);
                assert(less == place::squeezed(short));
                assert(is_tidy(short)) by {
                    assert forall|i: int|
                        0 <= i < short.len() - 1 && #[trigger] short[i] == '\\' implies short[i + 1]
                        != '\\' by {
                        assert(rest[i] == short[i]);
                        assert(rest[i + 1] == short[i + 1]);
                    }
                    if short.len() > 0 {
                        assert(rest[short.len() - 1] == short.last());
                        assert(rest[short.len() as int] == '\\');
                    }
                }
                assert(r =~= rest);
            }
        } else {
            let r = place::squeezed(rest);
            lemma_letters_of(less, last);
            assert(r =~= less.push(last));
            assert forall|i: int| 0 <= i < r.len() - 1 && #[trigger] r[i] == '\\' implies r[i + 1]
                != '\\' by {
                if i < less.len() {
                    assert(less[i] == r[i]);
                    if i < less.len() - 1 {
                        assert(less[i + 1] == r[i + 1]);
                    }
                }
            }
            if is_tidy(rest) {
                lemma_without_last(rest);
                assert(is_tidy(front));
                assert(r =~= rest);
            }
        }
    }
}

proof fn lemma_without_last(rest: Seq<char>)
    requires
        rest.len() > 0,
        is_tidy(rest),
    ensures
        forall|i: int|
            0 <= i < rest.drop_last().len() - 1 && #[trigger] rest.drop_last()[i] == '\\'
                ==> rest.drop_last()[i + 1] != '\\',
{
    let front = rest.drop_last();
    assert forall|i: int| 0 <= i < front.len() - 1 && #[trigger] front[i] == '\\' implies front[i
        + 1] != '\\' by {
        assert(rest[i] == front[i]);
        assert(rest[i + 1] == front[i + 1]);
    }
}

/// A name below a path: the two with one separator between them, unless the path is empty, has
/// one at its end already, or is a bare drive of Windows.
pub proof fn lemma_name_below(path: Seq<char>, name: Seq<char>, windows: bool)
    ensures
        ({
            let r = place::path_below(path, name, windows);
            let drive = windows && path.len() == 2 && path[1] == ':' && ('a' <= path[0] <= 'z'
                || 'A' <= path[0] <= 'Z');
            let closed = path.len() > 0 && (path.last() == '/' || (windows && path.last() == '\\'));
            &&& path.len() == 0 || drive || closed ==> r == path + name
            &&& path.len() > 0 && !drive && !closed && windows ==> r == path + seq!['\\'] + name
            &&& path.len() > 0 && !drive && !closed && !windows ==> r == path + seq!['/'] + name
        }),
{
}

/// The path of a model file, where the data folder is none that is taken to the letter: the
/// folder, that of the models, that of the repository and the name of the file, each below
/// the one before.
pub proof fn lemma_path_in_order(
    folder: Seq<char>,
    repo_id: Seq<char>,
    filename: Seq<char>,
    windows: bool,
)
    requires
        !windows || !"\\\\?\\"@.is_prefix_of(folder),
    ensures
        ({
            let models = place::path_below(folder, "models"@, windows);
            let repository = place::path_below(models, download::sanitized(repo_id), windows);
            place::path_of(folder, repo_id, filename, windows) == place::path_below(
                repository,
                filename,
                windows,
            )
        }),
        folder.is_prefix_of(place::path_of(folder, repo_id, filename, windows)),
        filename.is_suffix_of(place::path_of(folder, repo_id, filename, windows)),
{
    let models = place::path_below(folder, "models"@, windows);
    let repository = place::path_below(models, download::sanitized(repo_id), windows);
    let path = place::path_of(folder, repo_id, filename, windows);
    assert(models.take(folder.len() as int) =~= folder);
    assert(repository.take(folder.len() as int) =~= folder);
    assert(path.subrange(0, folder.len() as int) =~= folder);
    assert(path.subrange(path.len() - filename.len(), path.len() as int) =~= filename);
}

/// A folder that is taken to the letter: what it begins with stays, and the rest is tidied.
pub proof fn lemma_folder_to_the_letter(folder: Seq<char>)
    requires
        "\\\\?\\"@.is_prefix_of(folder),
    ensures
        place::is_verbatim(folder),
        "\\\\?\\UNC\\"@.is_prefix_of(folder) ==> place::tidied(folder) == folder.take(8)
            + place::squeezed(folder.skip(8)),
        !"\\\\?\\UNC\\"@.is_prefix_of(folder) ==> place::tidied(folder) == folder.take(4)
            + place::squeezed(folder.skip(4)),
        is_tidy(folder.skip(4)) && !"\\\\?\\UNC\\"@.is_prefix_of(folder) ==> place::tidied(folder)
            == folder,
{
    lemma_squeezed(folder.skip(4));
    reveal_strlit("\\\\?\\");
    assert(folder.len() >= 4);
    assert(folder.take(4) + folder.skip(4) =~= folder);
}

/// The incomplete file is named by the last step that does not stay where it is, and the steps
/// to it end there.
pub proof fn lemma_incomplete_file(steps: Seq<Seq<char>>)
    ensures
        ({
            let i = place::file_step(steps);
            let r = place::partial_steps(steps);
            &&& i >= 0 ==> {
                &&& i < steps.len()
                &&& steps[i] != ""@ && steps[i] != "."@ && steps[i] != ".."@
                &&& forall|j: int|
                    i < j < steps.len() ==> #[trigger] steps[j] == ""@ || steps[j] == "."@
                &&& r.len() == i + 1
                &&& r.last() == place::partial_of(steps[i])
                &&& forall|j: int| 0 <= j < i ==> #[trigger] r[j] == steps[j]
            }
            &&& i < 0 ==> r == steps
        }),
    decreases steps.len(),
{
    reveal_strlit("");
    reveal_strlit(".");
    reveal_strlit("..");
    assert(""@ =~= Seq::<char>::empty());
    assert("."@.len() == 1 && ".."@.len() == 2);
    if steps.len() > 0 && !place::goes_up(steps.last()) && place::is_idle(steps.last()) {
        let front = steps.drop_last();
        lemma_incomplete_file(front);
        let i = place::file_step(steps);
        if i >= 0 {
            assert(front[i] == steps[i]);
            assert forall|j: int| i < j < steps.len() implies #[trigger] steps[j] == ""@ || steps[j]
                == "."@ by {
                if j < front.len() {
                    assert(front[j] == steps[j]);
                }
            }
        }
    }
}

} // verus!
