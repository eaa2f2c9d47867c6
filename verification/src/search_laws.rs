//! What holds of text and of how a search is put.

use vstd::prelude::*;
use crate::accuracy;
use crate::catalog;
use crate::catalog::{HfModel, SearchReply};
use crate::decimal;
use crate::natural;
use crate::text;

verus! {

/// A text occurs in the middle of another, at either end of it, and in itself; one that is
/// longer occurs nowhere.
pub proof fn lemma_occurs_between(before: Seq<char>, part: Seq<char>, behind: Seq<char>)
    ensures
        text::occurs(part, before + part + behind),
        text::occurs(part, before + part),
        text::occurs(part, part + behind),
        text::occurs(part, part),
        behind.len() < part.len() ==> !text::occurs(part, behind),
{
    let n = before.len() as int;
    let m = part.len() as int;
    assert((before + part + behind).subrange(n, n + m) =~= part);
    assert(text::occurs_at(part, before + part + behind, n));
    assert((before + part).subrange(n, n + m) =~= part);
    assert(text::occurs_at(part, before + part, n));
    assert((part + behind).subrange(0, m) =~= part);
    assert(text::occurs_at(part, part + behind, 0));
    assert(part.subrange(0, m) =~= part);
    assert(text::occurs_at(part, part, 0));
}

/// A text that occurs in another parts it into what is before and what is behind.
pub proof fn lemma_occurs_parts(part: Seq<char>, whole: Seq<char>) -> (ends: (Seq<char>, Seq<char>))
    requires
        text::occurs(part, whole),
    ensures
        whole == ends.0 + part + ends.1,
{
    let i = choose|i: int| #[trigger] text::occurs_at(part, whole, i);
    let before = whole.take(i);
    let behind = whole.skip(i + part.len());
    assert(whole =~= before + whole.subrange(i, i + part.len()) + behind);
    (before, behind)
}

/// Lists of texts that are put together one after the other come to the texts of the one and
/// those of the other, with the gap between them.
pub proof fn lemma_joined_adds(first: Seq<Seq<char>>, second: Seq<Seq<char>>, gap: Seq<char>)
    ensures
        first.len() > 0 && second.len() > 0 ==> text::joined(first + second, gap) == text::joined(
            first,
            gap,
        ) + gap + text::joined(second, gap),
        first.len() == 1 ==> text::joined(first, gap) == first[0],
        first.len() == 0 ==> text::joined(first, gap) == Seq::<char>::empty(),
    decreases second.len(),
{
    let all = first + second;
    if first.len() > 0 && second.len() > 0 {
        assert(all.drop_last() =~= first + second.drop_last());
        if second.len() == 1 {
            assert(first + second.drop_last() =~= first);
            assert(text::joined(all, gap) =~= text::joined(first, gap) + gap + text::joined(
                second,
                gap,
            ));
        } else {
            lemma_joined_adds(first, second.drop_last(), gap);
            assert(text::joined(all, gap) =~= text::joined(first, gap) + gap + text::joined(
                second,
                gap,
            ));
        }
    }
}

/// In a text of ASCII characters the letters change case, each to its own, and nothing else
/// changes.
pub proof fn lemma_letters_change_case(source: Seq<char>, i: int)
    requires
        0 <= i < source.len(),
    ensures
        text::plain_lowercase(source).len() == source.len(),
        'A' <= source[i] <= 'Z' ==> text::plain_lowercase(source)[i] as int == source[i] as int
            - 'A' as int + 'a' as int,
        !('A' <= source[i] <= 'Z') ==> text::plain_lowercase(source)[i] == source[i],
        'a' <= source[i] <= 'z' ==> text::ascii_uppercase(source[i]) as int == source[i] as int
            - 'a' as int + 'A' as int,
        !('a' <= source[i] <= 'z') ==> text::ascii_uppercase(source[i]) == source[i],
        text::plain_lowercase(text::plain_lowercase(source)) == text::plain_lowercase(source),
{
    assert(text::plain_lowercase(text::plain_lowercase(source)) =~= text::plain_lowercase(source));
}

/// The words to search for: each of the four tasks has its own, and every other task is
/// searched for as the user puts it.
pub proof fn lemma_words_to_search(task: Seq<char>, query: Seq<char>)
    ensures
        catalog::hint_for("coding"@, query) == "GGUF coder instruct"@,
        catalog::hint_for("writing"@, query) == "GGUF instruct llama mistral"@,
        catalog::hint_for("research"@, query) == "GGUF reasoning instruct qwen deepseek"@,
        catalog::hint_for("small-business"@, query) == "GGUF instruct small"@,
        task != "coding"@ && task != "writing"@ && task != "research"@ && task
            != "small-business"@ ==> catalog::hint_for(task, query) == query,
{
    reveal_strlit("coding");
    reveal_strlit("writing");
    reveal_strlit("research");
    reveal_strlit("small-business");
    assert("coding"@.len() == 6 && "writing"@.len() == 7 && "research"@.len() == 8
        && "small-business"@.len() == 14);
}

/// A search asks for the words, and for the fifty models that are downloaded most, in full. The
/// program says which one it is.
pub proof fn lemma_search_asks_for(words: Seq<char>)
    ensures
        ({
            let p = catalog::search_params(words);
            &&& p.len() == 5
            &&& p[0] == ("search"@, words)
            &&& p[1] == ("sort"@, "downloads"@)
            &&& p[2] == ("direction"@, "-1"@)
            &&& p[3] == ("limit"@, "50"@)
            &&& p[4] == ("full"@, "true"@)
        }),
        catalog::search_base() == "https://huggingface.co/api/models"@,
        catalog::USER_AGENT@ == "MyAILocalModel/0.2"@,
{
}

/// Bytes in a query stand one after the other: a digit or a letter as it is, a space as a
/// plus sign, and what is no mark either as a percent sign and the byte in hexadecimal digits.
pub proof fn lemma_encoded_adds(first: Seq<u8>, second: Seq<u8>, b: u8)
    ensures
        catalog::encoded(first + second) == catalog::encoded(first) + catalog::encoded(second),
        catalog::encoded(Seq::empty()) == Seq::<char>::empty(),
        48 <= b <= 57 || 65 <= b <= 90 || 97 <= b <= 122 || b == 42 || b == 45 || b == 46 || b == 95
            ==> catalog::encoded(seq![b]) == seq![b as char],
        catalog::encoded(seq![32u8]) == seq!['+'],
        b != 32 && !(48 <= b <= 57 || 65 <= b <= 90 || 97 <= b <= 122 || b == 42 || b == 45 || b
            == 46 || b == 95) ==> catalog::encoded(seq![b]).len() == 3 && catalog::encoded(
            seq![b],
        )[0] == '%' && 16 * hex_value(catalog::encoded(seq![b])[1]) + hex_value(
            catalog::encoded(seq![b])[2],
        ) == b,
    decreases second.len(),
{
    reveal_with_fuel(catalog::encoded, 2);
    assert(seq![b].drop_last() =~= Seq::empty());
    assert(seq![32u8].drop_last() =~= Seq::empty());
    assert(catalog::encoded(seq![b]) =~= catalog::encoded_byte(b));
    assert(catalog::encoded(seq![32u8]) =~= catalog::encoded_byte(32));
    let all = first + second;
    if second.len() == 0 {
        assert(all =~= first);
        assert(catalog::encoded(first) + catalog::encoded(second) =~= catalog::encoded(first));
    } else {
        lemma_encoded_adds(first, second.drop_last(), b);
        assert(all.drop_last() =~= first + second.drop_last());
        assert(catalog::encoded(all) =~= catalog::encoded(first) + catalog::encoded(second));
    }
}

/// The number that a hexadecimal digit in upper case stands for.
pub open spec fn hex_value(c: char) -> int {
    if '0' <= c <= '9' {
        c as int - '0' as int
    } else {
        c as int - 'A' as int + 10
    }
}

/// A search fails exactly where the hub was not reached, refused, could not be read or lists
/// no model file, and the reason is passed on in full.
pub proof fn lemma_search_fails(error: String, models: Vec<HfModel>)
    ensures
        catalog::search_failure(SearchReply::Unreachable(error)) == Some(
            "Hugging Face search failed: "@ + error@,
        ),
        catalog::search_failure(SearchReply::Rejected(error)) == Some(
            "Hugging Face rejected the search: "@ + error@,
        ),
        catalog::search_failure(SearchReply::Unreadable(error)) == Some(
            "Could not read the Hugging Face response: "@ + error@,
        ),
        catalog::search_failure(SearchReply::Listed(models)) is None <==> catalog::all_candidates(
            models@,
        ).len() > 0,
        catalog::search_failure(SearchReply::Listed(models)) is Some ==> catalog::search_failure(
            SearchReply::Listed(models),
        )->0
            == "No compatible GGUF model files were found. Try a broader search such as 'GGUF instruct'."@,
{
}

/// A decimal number is what its digits denote, but for one rounding.
pub proof fn lemma_decimal_value(whole: Seq<char>, fraction: Seq<char>)
    requires
        whole.len() > 0,
        decimal::are_digits(whole),
        decimal::are_digits(fraction),
        fraction.len() > 0,
        0 < decimal::digits_value(whole + fraction) <= u64::MAX,
        natural::power_of_ten(fraction.len()) <= u64::MAX,
    ensures
        decimal::is_decimal(whole + seq!['.'] + fraction),
        accuracy::is_near(
            natural::power_of_ten(fraction.len()) * decimal::decimal_number(
                whole + seq!['.'] + fraction,
            ).value(),
            decimal::digits_value(whole + fraction) * accuracy::one(),
            1,
        ),
{
    decimal::lemma_is_decimal(whole, fraction);
    crate::catalog_laws::lemma_parameters_denoted(whole, fraction);
    natural::lemma_power_of_ten_positive(fraction.len());
    accuracy::lemma_nearest_near(
        decimal::digits_value(whole + fraction),
        natural::power_of_ten(fraction.len()),
    );
}

/// Digits behind each other count in tens: what the first denote, moved up by as many places
/// as follow, and what the others denote.
pub proof fn lemma_digits_count(first: Seq<char>, second: Seq<char>)
    ensures
        decimal::digits_value(first + second) == decimal::digits_value(first)
            * natural::power_of_ten(second.len()) + decimal::digits_value(second),
        decimal::digits_value("0"@) == 0,
        decimal::digits_value("9"@) == 9,
        natural::power_of_ten(1) == 10,
        natural::power_of_ten(3) == 1000,
    decreases second.len(),
{
    reveal_with_fuel(natural::power_of_ten, 4);
    reveal_with_fuel(decimal::digits_value, 2);
    reveal_strlit("0");
    reveal_strlit("9");
    assert("0"@.drop_last() =~= Seq::<char>::empty());
    assert("9"@.drop_last() =~= Seq::<char>::empty());
    let all = first + second;
    let a = decimal::digits_value(first);
    if second.len() == 0 {
        assert(all =~= first);
        assert(a * 1 == a);
    } else {
        lemma_digits_count(first, second.drop_last());
        assert(all.drop_last() =~= first + second.drop_last());
        let p = natural::power_of_ten((second.len() - 1) as nat);
        assert(10 * (a * p) == a * (10 * p)) by (nonlinear_arith);
    }
}

/// A decimal number is digits, or digits, a point and digits; nothing else is one.
pub proof fn lemma_decimal_form(source: Seq<char>) -> (parts: (Seq<char>, Seq<char>))
    requires
        decimal::is_decimal(source),
    ensures
        parts.0.len() > 0,
        decimal::are_digits(parts.0),
        decimal::are_digits(parts.1),
        source == parts.0 || (parts.1.len() > 0 && source == parts.0 + seq!['.'] + parts.1),
{
    lemma_point_is_there(source);
    let p = decimal::point(source);
    let whole = decimal::whole_part(source);
    let fraction = decimal::fraction_part(source);
    if p < source.len() {
        assert(source =~= whole + seq!['.'] + fraction);
    } else {
        assert(source =~= whole);
    }
    (whole, fraction)
}

proof fn lemma_point_is_there(source: Seq<char>)
    ensures
        0 <= decimal::point(source) <= source.len(),
        decimal::point(source) < source.len() ==> source[decimal::point(source)] == '.',
    decreases source.len(),
{
    if source.len() > 0 && source[0] != '.' {
        lemma_point_is_there(source.drop_first());
    }
}

} // verus!
