//! What holds of the progress of a download and of the names of its files.

use vstd::prelude::*;
use vstd::arithmetic::power2::*;
use crate::accuracy;
use crate::double;
use crate::download;
use crate::download::DownloadProgressView;
use crate::order;
use crate::place;

verus! {

/// A whole number as a number of the format, but for one rounding.
proof fn lemma_whole_near(n: nat)
    requires
        n <= u64::MAX,
    ensures
        double::whole(n).is_finite(),
        double::whole(n).value() >= 0,
        accuracy::is_near(double::whole(n).value(), n * accuracy::one(), 1),
        n > 0 ==> order::is_positive(double::whole(n)),
{
    if n > 0 {
        accuracy::lemma_nearest_near(n, 1);
    } else {
        double::lemma_whole_zero();
    }
}

/// The part of a download that is shown, times the size of the file, is the number of bytes
/// that have come, but for a few roundings.
pub proof fn lemma_part_times_total(downloaded: u64, total: u64)
    requires
        total > 0,
    ensures
        download::part_done(downloaded, Some(total)) matches Some(part) && part.is_finite()
            && accuracy::is_near(total * part.value(), downloaded * accuracy::one(), 8),
{
    let one = accuracy::one();
    let k = accuracy::fineness();
    let x = double::whole(downloaded as nat);
    let y = double::whole(total as nat);
    let part = double::quotient(x, y);
    lemma_whole_near(downloaded as nat);
    lemma_whole_near(total as nat);
    accuracy::lemma_one();
    if downloaded == 0 {
        order::lemma_quotient_zero(y);
        double::lemma_whole_zero();
        assert(total * 0 == 0);
    } else {
        order::lemma_nearest_positive(downloaded as nat, 1);
        order::lemma_nearest_monotone(1, 1, total as nat, 1);
        lemma_quotient_finite(downloaded, total);
        accuracy::lemma_quotient_near(x, y);
        let a = x.value();
        let b = y.value();
        let q = part.value();
        let d = downloaded as int;
        let t = total as int;
        assert(2 * a >= one) by (nonlinear_arith)
            requires
                k * (d * one - a) <= d * one,
                d >= 1,
                k >= 4,
                one > 0,
        ;
        assert(b <= 2 * (t * one)) by (nonlinear_arith)
            requires
                k * (b - t * one) <= t * one,
                k >= 4,
                t >= 1,
                one > 0,
        ;
        lemma_part_arithmetic(a, b, q, d, t);
    }
}

/// A part is finite, since there are few bytes in all.
proof fn lemma_quotient_finite(downloaded: u64, total: u64)
    requires
        total > 0,
    ensures
        double::quotient(
            double::whole(downloaded as nat),
            double::whole(total as nat),
        ).is_finite(),
{
    let x = double::whole(downloaded as nat);
    let y = double::whole(total as nat);
    let one = double::one_in_units();
    lemma_whole_near(downloaded as nat);
    lemma_whole_near(total as nat);
    accuracy::lemma_one();
    order::lemma_nearest_monotone(1, 1, total as nat, 1);
    order::lemma_whole_exact(1);
    let u = double::units_of(x.magnitude());
    let w = double::units_of(y.magnitude());
    assert(w >= one) by {
        reveal(double::at_most);
    }
    lemma2_to64();
    lemma_pow2_adds(65, 1074);
    lemma_pow2_unfold(65);
    lemma_pow2_adds(1139, 861);
    lemma_pow2_pos(861);
    lemma_pow2_pos(1139);
    assert(u < pow2(65) * one) by (nonlinear_arith)
        requires
            accuracy::fineness() * (u - downloaded * one) <= downloaded * one,
            downloaded < pow2(64),
            pow2(65) == 2 * pow2(64),
            accuracy::fineness() >= 4,
            one > 0,
    ;
    assert(u * one < w * pow2(2000)) by (nonlinear_arith)
        requires
            u < pow2(65) * one,
            pow2(1139) == pow2(65) * one,
            pow2(2000) == pow2(1139) * pow2(861),
            pow2(861) >= 1,
            w >= one,
            one > 0,
            pow2(1139) > 0,
    ;
    crate::rounding::lemma_round_finite(u * one, w);
    reveal(double::quotient);
}

proof fn lemma_part_arithmetic(a: int, b: int, q: int, d: int, t: int)
    requires
        d >= 1,
        1 <= t <= u64::MAX,
        a >= 0,
        b >= 0,
        q >= 0,
        2 * a >= accuracy::one(),
        b <= 2 * (t * accuracy::one()),
        accuracy::one() > 1_000_000_000_000 * accuracy::fineness(),
        accuracy::is_near(a, d * accuracy::one(), 1),
        accuracy::is_near(b, t * accuracy::one(), 1),
        2 * (accuracy::fineness() * double::absolute(a * accuracy::one() - b * q)) <= a
            * accuracy::one() + accuracy::fineness() * b,
        0x1_0000_0000_0000_0000 * 16 * accuracy::fineness() < accuracy::one(),
    ensures
        accuracy::is_near(t * q, d * accuracy::one(), 8),
{
    let one = accuracy::one();
    let k = accuracy::fineness();
    let p = d * one;
    let s = t * one;
    // The quotient is near to a / b, with what is lost to half a unit included.
    assert(k * b <= a * one) by (nonlinear_arith)
        requires
            b <= 2 * s,
            s == t * one,
            t <= 0xffff_ffff_ffff_ffff,
            2 * a >= one,
            0x1_0000_0000_0000_0000 * 16 * k < one,
            k > 0,
            one > 0,
    ;
    assert(k * double::absolute(a * one - b * q) <= a * one);
    assert(p >= 0) by (nonlinear_arith)
        requires
            p == d * one,
            d >= 1,
            one > 0,
    ;
    accuracy::lemma_near_bounds(a, p, 1);
    assert(s >= 0) by (nonlinear_arith)
        requires
            s == t * one,
            t >= 1,
            one > 0,
    ;
    accuracy::lemma_near_bounds(b, s, 1);
    let ao = a * one;
    let bq = b * q;
    assert(ao >= 0) by (nonlinear_arith)
        requires
            ao == a * one,
            a >= 0,
            one > 0,
    ;
    accuracy::lemma_near_bounds(bq, ao, 1);
    let sq = s * q;
    let po = p * one;
    // (k - 1) s q <= k b q <= (k + 1) a one, and so on.
    assert((k - 1) * sq <= k * bq && k * bq <= (k + 1) * sq) by (nonlinear_arith)
        requires
            k * b <= (k + 1) * s,
            k * b >= (k - 1) * s,
            q >= 0,
            sq == s * q,
            bq == b * q,
    ;
    assert(k * ao <= (k + 1) * po && k * ao >= (k - 1) * po) by (nonlinear_arith)
        requires
            k * a <= (k + 1) * p,
            k * a >= (k - 1) * p,
            one > 0,
            ao == a * one,
            po == p * one,
    ;
    assert(po >= 0) by (nonlinear_arith)
        requires
            po == p * one,
            p == d * one,
            d >= 1,
            one > 0,
    ;
    assert(k == 0x10_0000_0000_0000);
    assert(k * (sq - po) <= 8 * po && k * (po - sq) <= 8 * po);
    let tq = t * q;
    assert(sq == tq * one) by (nonlinear_arith)
        requires
            sq == s * q,
            s == t * one,
            tq == t * q,
    ;
    assert(k * (tq - p) <= 8 * p && k * (p - tq) <= 8 * p) by (nonlinear_arith)
        requires
            k * (sq - po) <= 8 * po,
            k * (po - sq) <= 8 * po,
            sq == tq * one,
            po == p * one,
            one > 0,
    ;
}

/// Of a file without bytes nothing is no number, and anything is infinite.
pub proof fn lemma_part_of_nothing(downloaded: u64)
    ensures
        download::part_done(0, Some(0))->0.is_nan(),
        downloaded > 0 ==> download::part_done(downloaded, Some(0))->0.is_infinite(),
        download::part_done(downloaded, Some(0)) is Some,
        download::part_done(downloaded, None) is None,
{
    reveal(double::quotient);
    double::lemma_whole_zero();
    if downloaded > 0 {
        order::lemma_nearest_positive(downloaded as nat, 1);
    }
}

/// The same part of a file of another size is shown as the same number, as long as the sizes
/// are below `2^53`: half of any file is shown as 0.5, and all of it as 1.
pub proof fn lemma_same_part(downloaded: u64, total: u64, other: u64, other_total: u64)
    requires
        0 < total < 0x20_0000_0000_0000,
        0 < other_total < 0x20_0000_0000_0000,
        downloaded < 0x20_0000_0000_0000,
        other < 0x20_0000_0000_0000,
        downloaded * other_total == other * total,
    ensures
        download::part_done(downloaded, Some(total)) == download::part_done(
            other,
            Some(other_total),
        ),
        2 * downloaded == total ==> download::part_done(downloaded, Some(total)) == Some(
            double::nearest(1, 2),
        ),
{
    order::lemma_quotient_whole(downloaded as nat, total as nat);
    order::lemma_quotient_whole(other as nat, other_total as nat);
    order::lemma_nearest_same(
        downloaded as nat,
        total as nat,
        other as nat,
        other_total as nat,
    );
    if 2 * downloaded == total {
        order::lemma_nearest_same(downloaded as nat, total as nat, 1, 2);
    }
}

/// Less than a file of a size below `2^53` is shown as less than 1.
pub proof fn lemma_part_of_less(downloaded: u64, total: u64)
    requires
        downloaded < total < 0x20_0000_0000_0000,
    ensures
        download::part_done(downloaded, Some(total)) matches Some(part) && double::less(
            part,
            double::whole(1),
        ),
{
    let m: nat = 0x1f_ffff_ffff_ffff;
    lemma2_to64();
    lemma2_to64_rest();
    order::lemma_quotient_whole(downloaded as nat, total as nat);
    assert(downloaded * pow2(53) <= m * total) by (nonlinear_arith)
        requires
            downloaded + 1 <= total,
            total <= 0x20_0000_0000_0000,
            pow2(53) == 0x20_0000_0000_0000,
            m == 0x1f_ffff_ffff_ffff,
    ;
    order::lemma_nearest_monotone(downloaded as nat, total as nat, m, pow2(53));
    order::lemma_nearest_exact(m, 53);
    order::lemma_whole_exact(1);
    lemma_pow2_adds(53, 1021);
    lemma_pow2_pos(1021);
    assert(m * pow2(1021) < pow2(53) * pow2(1021)) by (nonlinear_arith)
        requires
            m < pow2(53),
            pow2(1021) > 0,
    ;
    reveal(double::at_most);
    reveal(double::less);
}

/// More bytes are never shown as a smaller part.
pub proof fn lemma_part_grows(few: u64, many: u64, total: u64)
    requires
        few <= many,
        total > 0,
    ensures
        double::at_most(
            download::part_done(few, Some(total))->0,
            download::part_done(many, Some(total))->0,
        ),
{
    order::lemma_nearest_positive(total as nat, 1);
    order::lemma_nearest_monotone(few as nat, 1, many as nat, 1);
    order::lemma_quotient_monotone(
        double::whole(few as nat),
        double::whole(many as nat),
        double::whole(total as nat),
    );
}

/// A report of progress names the file and the bytes as they are, and shows a part exactly
/// where the size is known.
pub proof fn lemma_progress_tells(
    repo_id: Seq<char>,
    filename: Seq<char>,
    downloaded: u64,
    total: Option<u64>,
)
    ensures
        ({
            let p = download::progress_of(repo_id, filename, downloaded, total);
            &&& p.repo_id == repo_id
            &&& p.filename == filename
            &&& p.downloaded == downloaded
            &&& p.total == total
            &&& p.percent is Some <==> total is Some
            &&& total is Some ==> p.percent == download::part_done(downloaded, total)
        }),
{
}

/// In the name of a folder each separator has become an underscore, and each other character
/// has stayed.
pub proof fn lemma_sanitized_characters(value: Seq<char>, i: int)
    requires
        0 <= i < value.len(),
    ensures
        value[i] == '/' || value[i] == '\\' || value[i] == ':' ==> download::sanitized(value)[i]
            == '_',
        value[i] != '/' && value[i] != '\\' && value[i] != ':' ==> download::sanitized(value)[i]
            == value[i],
{
}

proof fn lemma_last_point(front: Seq<char>, extension: Seq<char>)
    requires
        !extension.contains('.'),
    ensures
        place::last_point(front + seq!['.'] + extension) == front.len(),
    decreases extension.len(),
{
    let name = front + seq!['.'] + extension;
    if extension.len() > 0 {
        let less = extension.drop_last();
        assert(extension[extension.len() - 1] == extension.last());
        assert forall|c: char| less.contains(c) implies extension.contains(c) by {
            let i = choose|i: int| 0 <= i < less.len() && less[i] == c;
            assert(extension[i] == c);
        }
        lemma_last_point(front, less);
        assert(name.drop_last() =~= front + seq!['.'] + less);
        assert(name.last() == extension.last());
    } else {
        assert(name.last() == '.');
    }
}

proof fn lemma_no_point(name: Seq<char>)
    requires
        !name.contains('.'),
    ensures
        place::last_point(name) == -1,
    decreases name.len(),
{
    if name.len() > 0 {
        assert(name[name.len() - 1] == name.last());
        let front = name.drop_last();
        assert forall|c: char| front.contains(c) implies name.contains(c) by {
            let i = choose|i: int| 0 <= i < front.len() && front[i] == c;
            assert(name[i] == c);
        }
        lemma_no_point(front);
    }
}

/// The incomplete file keeps its name up to the last extension, whatever that is. A name
/// without one is kept in full, and so is one that only begins with a point.
pub proof fn lemma_partial_keeps_name(front: Seq<char>, extension: Seq<char>)
    requires
        !extension.contains('.'),
    ensures
        front.len() > 0 ==> place::partial_of(front + seq!['.'] + extension) == front
            + ".partial"@,
        place::partial_of(extension) == extension + ".partial"@,
        place::partial_of(seq!['.'] + extension) == seq!['.'] + extension + ".partial"@,
{
    lemma_last_point(front, extension);
    lemma_no_point(extension);
    lemma_last_point(Seq::empty(), extension);
    assert(Seq::<char>::empty() + seq!['.'] + extension =~= seq!['.'] + extension);
    let name = front + seq!['.'] + extension;
    assert(name.take(front.len() as int) =~= front);
}

/// A name of several steps, none of which stays or goes up, is inside the data folder
/// however many they are, and leads where they say.
pub proof fn lemma_deep_name(repo_id: Seq<char>, filename: Seq<char>, windows: bool)
    requires
        !place::leads_away(filename, windows),
        forall|i: int|
            0 <= i < place::parts_of(filename, windows).len() ==> place::is_entry(
                #[trigger] place::parts_of(filename, windows)[i],
                windows,
            ),
    ensures
        place::is_inside(repo_id, filename, windows),
{
    let folder = seq!["models"@, download::sanitized(repo_id)];
    let parts = place::parts_of(filename, windows);
    reveal_strlit("models");
    reveal_strlit(".");
    reveal_strlit("..");
    assert("models"@.len() == 6);
    assert(folder.drop_last() =~= seq!["models"@]);
    assert(seq!["models"@].drop_last() =~= Seq::<Seq<char>>::empty());
    reveal_with_fuel(place::resolved, 4);
    assert(place::resolved(seq!["models"@]) == Some(Seq::<Seq<char>>::empty().push("models"@)));
    assert(place::resolved(folder) is Some);
    place::lemma_parts_have_no_separator(filename, windows);
    lemma_plain_steps(folder, parts);
}

proof fn lemma_plain_steps(before: Seq<Seq<char>>, steps: Seq<Seq<char>>)
    requires
        place::resolved(before) is Some,
        forall|i: int|
            0 <= i < steps.len() ==> !place::is_idle(#[trigger] steps[i]) && !place::goes_up(
                steps[i],
            ),
    ensures
        place::resolved(before + steps) == Some(place::resolved(before)->0 + steps),
    decreases steps.len(),
{
    let all = before + steps;
    if steps.len() > 0 {
        let front = steps.drop_last();
        assert forall|i: int| 0 <= i < front.len() implies !place::is_idle(#[trigger] front[i])
            && !place::goes_up(front[i]) by {
            assert(front[i] == steps[i]);
        }
        lemma_plain_steps(before, front);
        assert(all.drop_last() =~= before + front);
        assert(steps[steps.len() - 1] == all.last());
        let names = place::resolved(before)->0;
        assert((names + front).push(steps.last()) =~= names + steps);
    } else {
        assert(all =~= before);
        assert(place::resolved(before)->0 + steps =~= place::resolved(before)->0);
    }
}

/// A step that stays changes nothing, and a step down and up again changes nothing.
pub proof fn lemma_steps_cancel(before: Seq<Seq<char>>, name: Seq<char>)
    requires
        place::resolved(before) is Some,
    ensures
        place::resolved(before.push(""@)) == place::resolved(before),
        place::resolved(before.push("."@)) == place::resolved(before),
        !place::is_idle(name) && !place::goes_up(name) ==> place::resolved(
            before.push(name).push(".."@),
        ) == place::resolved(before),
        place::resolved(before)->0.len() == 0 ==> place::resolved(before.push(".."@)) is None,
{
    reveal_strlit("");
    reveal_strlit(".");
    reveal_strlit("..");
    assert(""@ =~= Seq::<char>::empty());
    assert("."@.len() == 1 && ".."@.len() == 2);
    assert(before.push(""@).drop_last() =~= before);
    assert(before.push("."@).drop_last() =~= before);
    assert(before.push(".."@).drop_last() =~= before);
    assert(before.push(name).drop_last() =~= before);
    assert(before.push(name).push(".."@).drop_last() =~= before.push(name));
    let names = place::resolved(before)->0;
    assert(names.push(name).drop_last() =~= names);
    if !place::is_idle(name) && !place::goes_up(name) {
        assert(place::resolved(before.push(name)) == Some(names.push(name)));
    }
}

} // verus!
