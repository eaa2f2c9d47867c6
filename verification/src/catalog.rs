//! Model files as the model hub lists them.

use vstd::prelude::*;
use crate::decimal;
use crate::double::Double;
use crate::hardware;
use crate::natural;
use crate::order;
use crate::text;

verus! {

/// How the program names itself to the hub.
pub const USER_AGENT: &'static str = "MyAILocalModel/0.2";

/// A model as the hub lists it.
#[derive(Clone, Debug)]
pub struct HfModel {
    pub model_id: Option<String>,
    pub id: Option<String>,
    pub downloads: Option<u64>,
    pub likes: Option<u64>,
    pub tags: Option<Vec<String>>,
    pub siblings: Option<Vec<HfSibling>>,
}

/// A file of a model as the hub lists it.
#[derive(Clone, Debug)]
pub struct HfSibling {
    pub rfilename: Option<String>,
    pub size: Option<u64>,
}

/// A model file that may be recommended.
#[derive(Clone, Debug)]
pub struct Candidate {
    pub repo_id: String,
    pub filename: String,
    pub quantization: Option<String>,
    pub parameter_billions: Option<Double>,
    pub size_gb: Option<Double>,
    pub downloads: u64,
    pub likes: u64,
    pub tags: Vec<String>,
}

/// What a candidate says.
#[verifier::ext_equal]
pub struct CandidateView {
    pub repo_id: Seq<char>,
    pub filename: Seq<char>,
    pub quantization: Option<Seq<char>>,
    pub parameter_billions: Option<Double>,
    pub size_gb: Option<Double>,
    pub downloads: u64,
    pub likes: u64,
    pub tags: Seq<Seq<char>>,
}

/// The view of an optional text.
pub open spec fn optional_view(source: Option<String>) -> Option<Seq<char>> {
    match source {
        Some(t) => Some(t@),
        None => None,
    }
}

impl View for Candidate {
    type V = CandidateView;

    open spec fn view(&self) -> CandidateView {
        CandidateView {
            repo_id: self.repo_id@,
            filename: self.filename@,
            quantization: optional_view(self.quantization),
            parameter_billions: self.parameter_billions,
            size_gb: self.size_gb,
            downloads: self.downloads,
            likes: self.likes,
            tags: text::views(self.tags@),
        }
    }
}

/// The pattern whose first group is the quantization in a file name.
pub open spec fn quantization_pattern() -> Seq<char> {
    r"(?i)(Q[2-8](?:_[A-Z0-9]+)?|F16)"@
}

/// The pattern whose first group is the number of parameters, in billions, in a path.
pub open spec fn parameter_pattern() -> Seq<char> {
    r"(?i)(?:^|[-_/.])([0-9]+(?:\.[0-9]+)?)b(?:[-_/.]|$)"@
}

/// Whether a character counts as one of `A` to `Z` or `0` to `9`, whatever its case. The
/// long s and the Kelvin sign are variants of the letters S and K.
pub open spec fn is_variant_char(c: char) -> bool {
    ||| '0' <= c <= '9'
    ||| 'A' <= c <= 'Z'
    ||| 'a' <= c <= 'z'
    ||| c == '\u{17f}'
    ||| c == '\u{212a}'
}

/// The first position from `i` on that holds no such character.
pub open spec fn variant_end(source: Seq<char>, i: int) -> int
    decreases source.len() - i,
{
    if 0 <= i < source.len() && is_variant_char(source[i]) {
        variant_end(source, i + 1)
    } else {
        i
    }
}

/// Where the quantization ends that begins at `i`, if one does: `Q` and a digit from 2 to
/// 8, with an underscore and letters or digits behind it where they are there, or `F16`.
pub open spec fn quantization_end(source: Seq<char>, i: int) -> Option<int> {
    if i + 2 <= source.len() && (source[i] == 'Q' || source[i] == 'q') && '2' <= source[i + 1]
        <= '8' {
        if i + 2 < source.len() && source[i + 2] == '_' && variant_end(source, i + 3) > i + 3 {
            Some(variant_end(source, i + 3))
        } else {
            Some(i + 2)
        }
    } else if i + 3 <= source.len() && (source[i] == 'F' || source[i] == 'f') && source[i + 1]
        == '1' && source[i + 2] == '6' {
        Some(i + 3)
    } else {
        None
    }
}

/// The first quantization that begins at `i` or later.
pub open spec fn quantization_from(source: Seq<char>, i: int) -> Option<Seq<char>>
    decreases source.len() - i,
{
    if i >= source.len() {
        None
    } else {
        match quantization_end(source, i) {
            Some(end) => Some(source.subrange(i, end)),
            None => quantization_from(source, i + 1),
        }
    }
}

/// Whether a character parts the words of a path.
pub open spec fn is_separator(c: char) -> bool {
    c == '-' || c == '_' || c == '/' || c == '.'
}

/// The first position from `i` on that holds no digit.
pub open spec fn digits_end(source: Seq<char>, i: int) -> int
    decreases source.len() - i,
{
    if 0 <= i < source.len() && decimal::is_digit(source[i]) {
        digits_end(source, i + 1)
    } else {
        i
    }
}

/// Whether the letter `b` stands at `i` and ends a word.
pub open spec fn closes_word(source: Seq<char>, i: int) -> bool {
    &&& 0 <= i < source.len()
    &&& source[i] == 'b' || source[i] == 'B'
    &&& i + 1 < source.len() ==> is_separator(source[i + 1])
}

/// Where the number of a word such as `7b` or `1.5B` ends that begins at `i`, if one does.
pub open spec fn parameter_end(source: Seq<char>, i: int) -> Option<int> {
    let end = digits_end(source, i);
    let last = digits_end(source, end + 1);
    if end == i || (i > 0 && !is_separator(source[i - 1])) {
        None
    } else if closes_word(source, end) {
        Some(end)
    } else if end < source.len() && source[end] == '.' && last > end + 1 && closes_word(
        source,
        last,
    ) {
        Some(last)
    } else {
        None
    }
}

/// The number of the first such word that begins at `i` or later.
pub open spec fn parameter_from(source: Seq<char>, i: int) -> Option<Seq<char>>
    decreases source.len() - i,
{
    if i >= source.len() {
        None
    } else {
        match parameter_end(source, i) {
            Some(end) => Some(source.subrange(i, end)),
            None => parameter_from(source, i + 1),
        }
    }
}

/// `regex::Regex::new`, `captures` and `get(1)`: the first group of the leftmost match of
/// one of the two patterns above. A run of characters is taken as long as it goes, and a
/// letter of a pattern stands for its variants in the other case.
#[verifier::external_body]
fn capture_first_group(pattern: &str, source: &str) -> (r: Option<String>)
    requires
        pattern@ == quantization_pattern() || pattern@ == parameter_pattern(),
    ensures
        pattern@ == quantization_pattern() ==> optional_view(r) == quantization_from(source@, 0),
        pattern@ == parameter_pattern() ==> optional_view(r) == parameter_from(source@, 0),
{
    regex::Regex::new(pattern).ok()?.captures(source)?.get(1).map(|m| m.as_str().to_string())
}

/// The quantization that a file name gives, in upper case.
pub open spec fn quantization_in(filename: Seq<char>) -> Option<Seq<char>> {
    match quantization_from(filename, 0) {
        Some(group) => Some(text::uppercase(group)),
        None => None,
    }
}

/// The quantization that a file name gives, in upper case.
pub fn extract_quantization(filename: &str) -> (r: Option<String>)
    ensures
        optional_view(r) == quantization_in(filename@),
        r matches Some(q) ==> text::is_ascii(quantization_from(filename@, 0)->0) ==> q@
            == quantization_from(filename@, 0)->0.map_values(|c: char| text::ascii_uppercase(c)),
{
    match capture_first_group(r"(?i)(Q[2-8](?:_[A-Z0-9]+)?|F16)", filename) {
        Some(group) => Some(group.as_str().to_uppercase()),
        None => None,
    }
}

/// The number of parameters, in billions, that a path gives.
pub open spec fn parameters_in(path: Seq<char>) -> Option<Double> {
    match parameter_from(path, 0) {
        Some(group) => Some(decimal::decimal_number(group)),
        None => None,
    }
}

proof fn lemma_digits_end(source: Seq<char>, i: int)
    requires
        0 <= i <= source.len(),
    ensures
        i <= digits_end(source, i) <= source.len(),
        decimal::are_digits(source.subrange(i, digits_end(source, i))),
    decreases source.len() - i,
{
    if i < source.len() && decimal::is_digit(source[i]) {
        lemma_digits_end(source, i + 1);
        let end = digits_end(source, i + 1);
        assert(source.subrange(i, end) == seq![source[i]] + source.subrange(i + 1, end));
    }
}

/// The number of a word such as `7b` is written in digits.
proof fn lemma_parameter_is_decimal(source: Seq<char>, i: int)
    requires
        0 <= i <= source.len(),
    ensures
        parameter_from(source, i) matches Some(group) ==> decimal::is_decimal(group),
    decreases source.len() - i,
{
    if i < source.len() {
        match parameter_end(source, i) {
            None => {
                lemma_parameter_is_decimal(source, i + 1);
            },
            Some(_) => {
                let end = digits_end(source, i);
                lemma_digits_end(source, i);
                if closes_word(source, end) {
                    decimal::lemma_is_decimal(source.subrange(i, end), Seq::empty());
                } else {
                    let last = digits_end(source, end + 1);
                    lemma_digits_end(source, end + 1);
                    decimal::lemma_is_decimal(
                        source.subrange(i, end),
                        source.subrange(end + 1, last),
                    );
                    assert(source.subrange(i, last) == source.subrange(i, end) + seq!['.']
                        + source.subrange(end + 1, last));
                }
            },
        }
    }
}

/// The number of parameters, in billions, that a path gives.
pub fn extract_params(path: &str) -> (r: Option<Double>)
    ensures
        r == parameters_in(path@),
{
    match capture_first_group(r"(?i)(?:^|[-_/.])([0-9]+(?:\.[0-9]+)?)b(?:[-_/.]|$)", path) {
        Some(group) => {
            proof {
                lemma_parameter_is_decimal(path@, 0);
            }
            decimal::parse(group.as_str())
        },
        None => None,
    }
}

/// The words to search the hub for.
pub open spec fn hint_for(task: Seq<char>, query: Seq<char>) -> Seq<char> {
    if task == "coding"@ {
        "GGUF coder instruct"@
    } else if task == "writing"@ {
        "GGUF instruct llama mistral"@
    } else if task == "research"@ {
        "GGUF reasoning instruct qwen deepseek"@
    } else if task == "small-business"@ {
        "GGUF instruct small"@
    } else {
        query
    }
}

/// The words to search the hub for.
pub fn search_hint(task: &str, query: &str) -> (hint: String)
    ensures
        hint@ == hint_for(task@, query@),
{
    if text::same(task, "coding") {
        "GGUF coder instruct".to_owned()
    } else if text::same(task, "writing") {
        "GGUF instruct llama mistral".to_owned()
    } else if text::same(task, "research") {
        "GGUF reasoning instruct qwen deepseek".to_owned()
    } else if text::same(task, "small-business") {
        "GGUF instruct small".to_owned()
    } else {
        query.to_owned()
    }
}

/// The views of pairs of texts.
pub open spec fn pair_views(pairs: Seq<(&str, &str)>) -> Seq<(Seq<char>, Seq<char>)> {
    pairs.map_values(|p: (&str, &str)| (p.0@, p.1@))
}

/// Where the hub is searched.
pub open spec fn search_base() -> Seq<char> {
    "https://huggingface.co/api/models"@
}

/// Whether a byte stands for itself in a query: a digit, a letter or one of four marks.
pub open spec fn is_plain_byte(b: u8) -> bool {
    ||| 48 <= b <= 57
    ||| 65 <= b <= 90
    ||| 97 <= b <= 122
    ||| b == 42
    ||| b == 45
    ||| b == 46
    ||| b == 95
}

/// The hexadecimal digit for a number below sixteen.
pub open spec fn hex_digit(n: nat) -> char {
    if n < 10 {
        (48 + n) as char
    } else {
        (55 + n) as char
    }
}

/// A byte as it stands in a query: itself, a plus sign for a space, or a percent sign and two
/// hexadecimal digits.
pub open spec fn encoded_byte(b: u8) -> Seq<char> {
    if is_plain_byte(b) {
        seq![b as char]
    } else if b == 32 {
        seq!['+']
    } else {
        seq!['%', hex_digit(b as nat / 16), hex_digit(b as nat % 16)]
    }
}

/// Bytes as they stand in a query.
pub open spec fn encoded(bytes: Seq<u8>) -> Seq<char>
    decreases bytes.len(),
{
    if bytes.len() == 0 {
        Seq::empty()
    } else {
        encoded(bytes.drop_last()) + encoded_byte(bytes.last())
    }
}

/// A parameter as it stands in a query.
pub open spec fn encoded_pair(pair: (Seq<char>, Seq<char>)) -> Seq<char> {
    encoded(vstd::utf8::encode_utf8(pair.0)) + "="@ + encoded(vstd::utf8::encode_utf8(pair.1))
}

/// The query that parameters make.
pub open spec fn query_of(params: Seq<(Seq<char>, Seq<char>)>) -> Seq<char> {
    text::joined(params.map_values(|pair: (Seq<char>, Seq<char>)| encoded_pair(pair)), "&"@)
}

/// `reqwest::Url::parse_with_params`, on where the hub is searched, and the text of the
/// address: the base stays as it is, and a query with the parameters is added to it, each as
/// an HTML form sends it. The base is a well-formed address, so that nothing goes wrong.
#[verifier::external_body]
fn build_url(base: &str, params: &[(&str, &str)]) -> (r: Result<String, String>)
    requires
        base@ == search_base(),
    ensures
        r is Ok,
        r->Ok_0@ == base@ + "?"@ + query_of(pair_views(params@)),
{
    reqwest::Url::parse_with_params(base, params).map(|u| u.to_string()).map_err(|e| e.to_string())
}

/// The parameters of a search for the given words.
pub open spec fn search_params(hint: Seq<char>) -> Seq<(Seq<char>, Seq<char>)> {
    seq![
        ("search"@, hint),
        ("sort"@, "downloads"@),
        ("direction"@, "-1"@),
        ("limit"@, "50"@),
        ("full"@, "true"@),
    ]
}

/// The outcome of building a search address: an error is put into words.
pub fn describe_search(built: Result<String, String>) -> (r: Result<String, String>)
    ensures
        match built {
            Ok(url) => r matches Ok(same) && same@ == url@,
            Err(error) => r matches Err(message) && message@
                == "Could not build the Hugging Face search: "@ + error@,
        },
{
    match built {
        Ok(url) => Ok(url),
        Err(error) => Err(
            "Could not build the Hugging Face search: ".to_owned().concat(error.as_str()),
        ),
    }
}

/// The address of a search for models that suit a task.
pub fn search_url(task: &str, query: &str) -> (r: Result<String, String>)
    ensures
        r matches Ok(url) && url@ == search_base() + "?"@ + query_of(
            search_params(hint_for(task@, query@)),
        ),
{
    let hint = search_hint(task, query);
    let params = vec![
        ("search", hint.as_str()),
        ("sort", "downloads"),
        ("direction", "-1"),
        ("limit", "50"),
        ("full", "true"),
    ];
    assert(pair_views(params@) =~= search_params(hint@));
    describe_search(build_url("https://huggingface.co/api/models", params.as_slice()))
}

/// What is searched for adds no parameter of its own: in a query it holds neither an
/// ampersand nor an equals sign, nor a number sign.
pub proof fn lemma_encoded_stays_in_place(bytes: Seq<u8>)
    ensures
        !encoded(bytes).contains('&'),
        !encoded(bytes).contains('='),
        !encoded(bytes).contains('#'),
    decreases bytes.len(),
{
    if bytes.len() > 0 {
        lemma_encoded_stays_in_place(bytes.drop_last());
    }
}

/// Whether a file name in lower case is that of a model: not a projector's, not a
/// tokenizer's.
pub open spec fn is_model_name(lower: Seq<char>) -> bool {
    &&& ".gguf"@.is_suffix_of(lower)
    &&& !text::occurs("mmproj"@, lower)
    &&& !text::occurs("tokenizer"@, lower)
}

/// Whether a file name in lower case is that of a model.
pub fn names_model(lower: &str) -> (r: bool)
    ensures
        r == is_model_name(lower@),
{
    text::ends_with(lower, ".gguf") && !text::contains(lower, "mmproj") && !text::contains(
        lower,
        "tokenizer",
    )
}

/// The name under which a model is found on the hub.
pub open spec fn repository(model: HfModel) -> Option<Seq<char>> {
    match model.model_id {
        Some(id) => Some(id@),
        None => optional_view(model.id),
    }
}

pub open spec fn count_or_zero(count: Option<u64>) -> u64 {
    match count {
        Some(n) => n,
        None => 0,
    }
}

/// The tags of a model.
pub open spec fn tags_of(model: HfModel) -> Seq<Seq<char>> {
    match model.tags {
        Some(tags) => text::views(tags@),
        None => Seq::empty(),
    }
}

/// The files of a model.
pub open spec fn files_of(model: HfModel) -> Seq<HfSibling> {
    match model.siblings {
        Some(files) => files@,
        None => Seq::empty(),
    }
}

/// Whether a listed file is a model file.
pub open spec fn is_model_file(file: HfSibling) -> bool {
    file.rfilename matches Some(name) && is_model_name(text::lowercase(name@))
}

/// The candidate that a file of a model makes.
pub open spec fn candidate_of(repo_id: Seq<char>, model: HfModel, file: HfSibling) -> CandidateView {
    let filename = file.rfilename->0@;
    CandidateView {
        repo_id,
        filename,
        quantization: quantization_in(filename),
        parameter_billions: parameters_in(repo_id + "/"@ + filename),
        size_gb: match file.size {
            Some(bytes) => Some(hardware::gigabytes(bytes as nat)),
            None => None,
        },
        downloads: count_or_zero(model.downloads),
        likes: count_or_zero(model.likes),
        tags: tags_of(model),
    }
}

/// The candidates that the given files of a model make, in the order of the files.
pub open spec fn file_candidates(
    repo_id: Seq<char>,
    model: HfModel,
    files: Seq<HfSibling>,
) -> Seq<CandidateView>
    decreases files.len(),
{
    if files.len() == 0 {
        Seq::empty()
    } else {
        let before = file_candidates(repo_id, model, files.drop_last());
        if is_model_file(files.last()) {
            before.push(candidate_of(repo_id, model, files.last()))
        } else {
            before
        }
    }
}

/// The candidates that a model makes: none where it has no name.
pub open spec fn model_candidates(model: HfModel) -> Seq<CandidateView> {
    match repository(model) {
        Some(repo_id) => file_candidates(repo_id, model, files_of(model)),
        None => Seq::empty(),
    }
}

/// The candidates that the models make, in the order of the models.
pub open spec fn all_candidates(models: Seq<HfModel>) -> Seq<CandidateView>
    decreases models.len(),
{
    if models.len() == 0 {
        Seq::empty()
    } else {
        all_candidates(models.drop_last()) + model_candidates(models.last())
    }
}

/// What is known of a model in numbers: sizes that are not negative.
pub open spec fn is_sized(candidate: CandidateView) -> bool {
    &&& candidate.parameter_billions matches Some(n) ==> order::is_natural(n)
    &&& candidate.size_gb matches Some(size) ==> order::is_natural(size)
}

/// What is known of a model in numbers, whatever they are.
pub open spec fn is_numbered(candidate: CandidateView) -> bool {
    &&& candidate.parameter_billions matches Some(n) ==> !n.is_nan()
    &&& candidate.size_gb matches Some(size) ==> !size.is_nan()
}

/// Every candidate of a search is sized, and is the file of a model: not a projector, not a
/// tokenizer.
pub proof fn lemma_candidates_are_model_files(models: Seq<HfModel>)
    ensures
        forall|i: int|
            0 <= i < all_candidates(models).len() ==> {
                &&& is_sized(#[trigger] all_candidates(models)[i])
                &&& is_model_name(text::lowercase(all_candidates(models)[i].filename))
            },
    decreases models.len(),
{
    if models.len() > 0 {
        lemma_candidates_are_model_files(models.drop_last());
        if let Some(repo_id) = repository(models.last()) {
            lemma_file_candidates(repo_id, models.last(), files_of(models.last()));
        }
    }
}

proof fn lemma_file_candidates(repo_id: Seq<char>, model: HfModel, files: Seq<HfSibling>)
    ensures
        forall|i: int|
            0 <= i < file_candidates(repo_id, model, files).len() ==> {
                &&& is_sized(#[trigger] file_candidates(repo_id, model, files)[i])
                &&& is_model_name(
                    text::lowercase(file_candidates(repo_id, model, files)[i].filename),
                )
            },
    decreases files.len(),
{
    if files.len() > 0 {
        lemma_file_candidates(repo_id, model, files.drop_last());
        let file = files.last();
        if let Some(bytes) = file.size {
            hardware::lemma_gigabytes_is_number(bytes as nat);
        }
        if let Some(name) = file.rfilename {
            if let Some(group) = parameter_from(repo_id + "/"@ + name@, 0) {
                let fraction = decimal::fraction_part(group);
                let n = decimal::digits_value(decimal::whole_part(group) + fraction);
                natural::lemma_power_of_ten_positive(fraction.len());
                order::lemma_nearest_monotone(
                    n,
                    natural::power_of_ten(fraction.len()),
                    n,
                    natural::power_of_ten(fraction.len()),
                );
            }
        }
    }
}

/// The views of a list of candidates.
pub open spec fn candidate_views(candidates: Seq<Candidate>) -> Seq<CandidateView> {
    candidates.map_values(|c: Candidate| c@)
}

/// Adds the candidates that a model makes.
fn collect_from(model: &HfModel, candidates: &mut Vec<Candidate>)
    ensures
        candidate_views(final(candidates)@) == candidate_views(old(candidates)@)
            + model_candidates(*model),
{
    let repo_id: &String = match &model.model_id {
        Some(id) => id,
        None => match &model.id {
            Some(id) => id,
            None => {
                return;
            },
        },
    };
    let files: &Vec<HfSibling> = match &model.siblings {
        Some(files) => files,
        None => {
            return;
        },
    };
    let ghost start = candidate_views(candidates@);
    for i in 0..files.len()
        invariant
            repository(*model) == Some(repo_id@),
            files@ == files_of(*model),
            start == candidate_views(old(candidates)@),
            candidate_views(candidates@) == start + file_candidates(
                repo_id@,
                *model,
                files@.take(i as int),
            ),
    {
        let ghost before = candidate_views(candidates@);
        assert(files@.take(i + 1).drop_last() == files@.take(i as int));
        if let Some(filename) = &files[i].rfilename {
            if names_model(filename.as_str().to_lowercase().as_str()) {
                let path = repo_id.clone().concat("/").concat(filename.as_str());
                let candidate = Candidate {
                    repo_id: repo_id.clone(),
                    filename: filename.clone(),
                    quantization: extract_quantization(filename.as_str()),
                    parameter_billions: extract_params(path.as_str()),
                    size_gb: match files[i].size {
                        Some(bytes) => Some(hardware::bytes_to_gb(bytes)),
                        None => None,
                    },
                    downloads: match model.downloads {
                        Some(n) => n,
                        None => 0,
                    },
                    likes: match model.likes {
                        Some(n) => n,
                        None => 0,
                    },
                    tags: match &model.tags {
                        Some(tags) => text::copy(tags),
                        None => Vec::new(),
                    },
                };
                assert(candidate@ =~= candidate_of(repo_id@, *model, files@[i as int]));
                candidates.push(candidate);
                assert(candidate_views(candidates@) == before.push(candidate@));
            }
        }
    }
    assert(files@.take(files.len() as int) == files@);
}

/// The candidates in the answer of the hub, or word that there are none.
pub fn candidates_from_search(models: &Vec<HfModel>) -> (r: Result<Vec<Candidate>, String>)
    ensures
        r is Ok <==> all_candidates(models@).len() > 0,
        r matches Ok(candidates) ==> candidate_views(candidates@) == all_candidates(models@),
        r matches Err(message) ==> message@
            == "No compatible GGUF model files were found. Try a broader search such as 'GGUF instruct'."@,
{
    let mut candidates: Vec<Candidate> = Vec::new();
    for i in 0..models.len()
        invariant
            candidate_views(candidates@) == all_candidates(models@.take(i as int)),
    {
        assert(models@.take(i + 1).drop_last() == models@.take(i as int));
        collect_from(&models[i], &mut candidates);
    }
    assert(models@.take(models.len() as int) == models@);
    if candidates.len() == 0 {
        return Err(
            "No compatible GGUF model files were found. Try a broader search such as 'GGUF instruct'.".to_owned(),
        );
    }
    Ok(candidates)
}

/// What came of a search of the hub.
#[derive(Clone, Debug)]
pub enum SearchReply {
    /// The hub could not be reached, for the given reason.
    Unreachable(String),
    /// The hub refused, for the given reason.
    Rejected(String),
    /// The answer could not be read, for the given reason.
    Unreadable(String),
    /// The hub listed models.
    Listed(Vec<HfModel>),
}

/// What a failed search is told as; `None` where it gives candidates.
pub open spec fn search_failure(reply: SearchReply) -> Option<Seq<char>> {
    match reply {
        SearchReply::Unreachable(error) => Some("Hugging Face search failed: "@ + error@),
        SearchReply::Rejected(error) => Some("Hugging Face rejected the search: "@ + error@),
        SearchReply::Unreadable(error) => Some(
            "Could not read the Hugging Face response: "@ + error@,
        ),
        SearchReply::Listed(models) => if all_candidates(models@).len() == 0 {
            Some(
                "No compatible GGUF model files were found. Try a broader search such as 'GGUF instruct'."@,
            )
        } else {
            None
        },
    }
}

/// What comes of a search, by what the hub replied.
pub fn search_hugging_face(reply: SearchReply) -> (r: Result<Vec<Candidate>, String>)
    ensures
        match search_failure(reply) {
            Some(message) => r is Err && r->Err_0@ == message,
            None => r is Ok && candidate_views(r->Ok_0@) == all_candidates(reply->Listed_0@),
        },
{
    match reply {
        SearchReply::Unreachable(error) => Err(
            "Hugging Face search failed: ".to_owned().concat(error.as_str()),
        ),
        SearchReply::Rejected(error) => Err(
            "Hugging Face rejected the search: ".to_owned().concat(error.as_str()),
        ),
        SearchReply::Unreadable(error) => Err(
            "Could not read the Hugging Face response: ".to_owned().concat(error.as_str()),
        ),
        SearchReply::Listed(models) => candidates_from_search(&models),
    }
}

} // verus!
