//! What holds of the candidates that a search gives.

use vstd::prelude::*;
use crate::catalog;
use crate::catalog::{CandidateView, HfModel, HfSibling};
use crate::decimal;
use crate::double;
use crate::hardware;
use crate::natural;
use crate::scoring;
use crate::text;

verus! {

/// Whether a listed file has a name that in lower case ends in `.gguf` and holds neither
/// `mmproj` nor `tokenizer`.
pub open spec fn is_wanted(file: HfSibling) -> bool {
    &&& file.rfilename is Some
    &&& ".gguf"@.is_suffix_of(text::lowercase(file.rfilename->0@))
    &&& !text::occurs("mmproj"@, text::lowercase(file.rfilename->0@))
    &&& !text::occurs("tokenizer"@, text::lowercase(file.rfilename->0@))
}

/// The name of a listed model: the one field, or else the other.
pub open spec fn name_of(model: HfModel) -> Option<Seq<char>> {
    if model.model_id is Some {
        Some(model.model_id->0@)
    } else if model.id is Some {
        Some(model.id->0@)
    } else {
        None
    }
}

/// How many files of the listed models are wanted. Those of a model without a name are not.
pub open spec fn wanted_files(models: Seq<HfModel>) -> nat
    decreases models.len(),
{
    if models.len() == 0 {
        0
    } else {
        let model = models.last();
        wanted_files(models.drop_last()) + if name_of(model) is Some && model.siblings is Some {
            model.siblings->0@.filter(|file: HfSibling| is_wanted(file)).len()
        } else {
            0
        }
    }
}

/// What two lists of files give is what the one gives and then what the other gives.
pub proof fn lemma_files_add(
    repo_id: Seq<char>,
    model: HfModel,
    first: Seq<HfSibling>,
    second: Seq<HfSibling>,
)
    ensures
        catalog::file_candidates(repo_id, model, first + second) == catalog::file_candidates(
            repo_id,
            model,
            first,
        ) + catalog::file_candidates(repo_id, model, second),
    decreases second.len(),
{
    let all = first + second;
    if second.len() == 0 {
        assert(all =~= first);
        assert(catalog::file_candidates(repo_id, model, second) =~= Seq::empty());
        assert(catalog::file_candidates(repo_id, model, first) + Seq::empty()
            =~= catalog::file_candidates(repo_id, model, first));
    } else {
        lemma_files_add(repo_id, model, first, second.drop_last());
        assert(all.drop_last() =~= first + second.drop_last());
        assert(catalog::file_candidates(repo_id, model, all) =~= catalog::file_candidates(
            repo_id,
            model,
            first,
        ) + catalog::file_candidates(repo_id, model, second));
    }
}

/// What two lists of models give is what the one gives and then what the other gives.
pub proof fn lemma_models_add(first: Seq<HfModel>, second: Seq<HfModel>)
    ensures
        catalog::all_candidates(first + second) == catalog::all_candidates(first)
            + catalog::all_candidates(second),
    decreases second.len(),
{
    let all = first + second;
    if second.len() == 0 {
        assert(all =~= first);
        assert(catalog::all_candidates(second) =~= Seq::empty());
        assert(catalog::all_candidates(first) + Seq::empty() =~= catalog::all_candidates(first));
    } else {
        lemma_models_add(first, second.drop_last());
        assert(all.drop_last() =~= first + second.drop_last());
        assert(catalog::all_candidates(all) =~= catalog::all_candidates(first)
            + catalog::all_candidates(second));
    }
}

/// One model gives what its files give, under its name.
pub proof fn lemma_single_model(model: HfModel)
    ensures
        name_of(model) is None || model.siblings is None ==> catalog::all_candidates(seq![model])
            == Seq::<CandidateView>::empty(),
        name_of(model) is Some && model.siblings is Some ==> catalog::all_candidates(seq![model])
            == catalog::file_candidates(name_of(model)->0, model, model.siblings->0@),
{
    let none = seq![model].drop_last();
    assert(none =~= Seq::<HfModel>::empty());
    assert(catalog::all_candidates(none) =~= Seq::empty());
    assert(catalog::all_candidates(seq![model]) =~= catalog::model_candidates(model));
}

/// One wanted file gives one candidate, which says what is listed of the file and its model;
/// one that is not wanted gives none.
pub proof fn lemma_single_file(repo_id: Seq<char>, model: HfModel, file: HfSibling)
    ensures
        ({
            let given = catalog::file_candidates(repo_id, model, seq![file]);
            let c = given[0];
            &&& given.len() == if is_wanted(file) {
                1nat
            } else {
                0
            }
            &&& is_wanted(file) ==> {
                &&& c.repo_id == repo_id
                &&& c.filename == file.rfilename->0@
                &&& c.size_gb is Some <==> file.size is Some
                &&& file.size is Some ==> c.size_gb->0 == hardware::gigabytes(
                    file.size->0 as nat,
                )
                &&& c.downloads == if model.downloads is Some {
                    model.downloads->0
                } else {
                    0
                }
                &&& c.likes == if model.likes is Some {
                    model.likes->0
                } else {
                    0
                }
                &&& model.tags is Some ==> c.tags == model.tags->0@.map_values(|t: String| t@)
                &&& model.tags is None ==> c.tags == Seq::<Seq<char>>::empty()
                &&& c.quantization == match catalog::quantization_from(c.filename, 0) {
                    Some(group) => Some(text::uppercase(group)),
                    None => None,
                }
                &&& c.parameter_billions is Some <==> catalog::parameter_from(
                    repo_id + "/"@ + c.filename,
                    0,
                ) is Some
                &&& c.parameter_billions is Some ==> c.parameter_billions->0
                    == decimal::decimal_number(
                    catalog::parameter_from(repo_id + "/"@ + c.filename, 0)->0,
                )
            }
        }),
{
    let none = seq![file].drop_last();
    assert(none =~= Seq::<HfSibling>::empty());
    assert(catalog::file_candidates(repo_id, model, none) =~= Seq::empty());
    assert(seq![file].last() == file);
}

/// As many candidates come of a list of files as it holds wanted ones.
pub proof fn lemma_files_counted(repo_id: Seq<char>, model: HfModel, files: Seq<HfSibling>)
    ensures
        catalog::file_candidates(repo_id, model, files).len() == files.filter(
            |file: HfSibling| is_wanted(file),
        ).len(),
    decreases files.len(),
{
    reveal(Seq::filter);
    if files.len() > 0 {
        lemma_files_counted(repo_id, model, files.drop_last());
    }
}

/// As many candidates come of a search as it lists wanted files.
pub proof fn lemma_candidates_counted(models: Seq<HfModel>)
    ensures
        catalog::all_candidates(models).len() == wanted_files(models),
    decreases models.len(),
{
    if models.len() > 0 {
        lemma_candidates_counted(models.drop_last());
        let model = models.last();
        if let Some(repo_id) = name_of(model) {
            lemma_files_counted(repo_id, model, catalog::files_of(model));
            if model.siblings is None {
                reveal(Seq::filter);
                assert(catalog::files_of(model).len() == 0);
            }
        }
    }
}

/// Every wanted file of every model with a name becomes a candidate of that name.
pub proof fn lemma_every_file_is_a_candidate(models: Seq<HfModel>, m: int, f: int) -> (k: int)
    requires
        0 <= m < models.len(),
        name_of(models[m]) is Some,
        models[m].siblings is Some,
        0 <= f < models[m].siblings->0@.len(),
        is_wanted(models[m].siblings->0@[f]),
    ensures
        0 <= k < catalog::all_candidates(models).len(),
        catalog::all_candidates(models)[k].repo_id == name_of(models[m])->0,
        catalog::all_candidates(models)[k].filename
            == models[m].siblings->0@[f].rfilename->0@,
{
    let model = models[m];
    let name = name_of(model)->0;
    let files = model.siblings->0@;
    let before = models.take(m);
    let behind = models.skip(m + 1);
    assert(models =~= before + seq![model] + behind);
    lemma_models_add(before + seq![model], behind);
    lemma_models_add(before, seq![model]);
    lemma_single_model(model);
    let first = files.take(f);
    let second = files.skip(f + 1);
    assert(files =~= first + seq![files[f]] + second);
    lemma_files_add(name, model, first + seq![files[f]], second);
    lemma_files_add(name, model, first, seq![files[f]]);
    lemma_single_file(name, model, files[f]);
    let j = catalog::file_candidates(name, model, first).len();
    let i = catalog::all_candidates(before).len();
    assert(catalog::file_candidates(name, model, files)[j as int] == catalog::file_candidates(
        name,
        model,
        seq![files[f]],
    )[0]);
    let k = (i + j) as int;
    assert(catalog::all_candidates(models)[k] == catalog::file_candidates(name, model, files)[
        j as int
    ]);
    k
}

/// The number of parameters that a text denotes: digits alone denote themselves, and digits
/// behind a point their part.
pub proof fn lemma_parameters_denoted(whole: Seq<char>, fraction: Seq<char>)
    requires
        whole.len() > 0,
        decimal::are_digits(whole),
        decimal::are_digits(fraction),
    ensures
        decimal::decimal_number(whole) == double::whole(decimal::digits_value(whole)),
        fraction.len() > 0 ==> decimal::decimal_number(whole + seq!['.'] + fraction)
            == double::nearest(
            decimal::digits_value(whole + fraction),
            natural::power_of_ten(fraction.len()),
        ),
{
    decimal::lemma_point_of(whole, Seq::empty());
    decimal::lemma_point_of(whole, seq!['.'] + fraction);
    assert(whole + Seq::<char>::empty() =~= whole);
    let text = whole + seq!['.'] + fraction;
    assert(whole + (seq!['.'] + fraction) =~= text);
    assert(decimal::whole_part(whole) =~= whole);
    assert(decimal::fraction_part(whole) =~= Seq::<char>::empty());
    assert(decimal::whole_part(text) =~= whole);
    assert(decimal::fraction_part(text) =~= fraction);
}

/// What is known of a candidate in words holds its repository, its file name and each of its
/// tags.
pub proof fn lemma_description_holds(candidate: CandidateView, i: int)
    requires
        0 <= i < candidate.tags.len(),
    ensures
        text::occurs(candidate.repo_id, scoring::description(candidate)),
        text::occurs(candidate.filename, scoring::description(candidate)),
        text::occurs(candidate.tags[i], scoring::description(candidate)),
{
    let whole = scoring::description(candidate);
    let tags = text::joined(candidate.tags, " "@);
    reveal_strlit(" ");
    assert(whole.subrange(0, candidate.repo_id.len() as int) =~= candidate.repo_id);
    assert(text::occurs_at(candidate.repo_id, whole, 0));
    let j = candidate.repo_id.len() + 1;
    assert(whole.subrange(j as int, (j + candidate.filename.len()) as int)
        =~= candidate.filename);
    assert(text::occurs_at(candidate.filename, whole, j as int));
    let at = lemma_joined_holds(candidate.tags, " "@, i);
    let start = j + candidate.filename.len() + 1;
    let tag = candidate.tags[i];
    assert(whole.subrange(start + at, start + at + tag.len()) =~= tags.subrange(
        at,
        at + tag.len(),
    ));
    assert(text::occurs_at(tag, whole, start + at));
}

/// Each of the texts that are put together is there in the whole.
pub proof fn lemma_joined_holds(parts: Seq<Seq<char>>, gap: Seq<char>, i: int) -> (at: int)
    requires
        0 <= i < parts.len(),
    ensures
        text::occurs_at(parts[i], text::joined(parts, gap), at),
    decreases parts.len(),
{
    let whole = text::joined(parts, gap);
    if parts.len() == 1 {
        assert(whole.subrange(0, whole.len() as int) =~= whole);
        0
    } else if i == parts.len() - 1 {
        let at = whole.len() - parts[i].len();
        assert(whole.subrange(at, at + parts[i].len()) =~= parts[i]);
        at
    } else {
        let front = parts.drop_last();
        let at = lemma_joined_holds(front, gap, i);
        assert(front[i] == parts[i]);
        let less = text::joined(front, gap);
        assert(whole.subrange(at, at + parts[i].len()) =~= less.subrange(
            at,
            at + parts[i].len(),
        ));
        at
    }
}

} // verus!
