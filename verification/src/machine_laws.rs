//! What holds of what is known of a machine.

use vstd::prelude::*;
use vstd::arithmetic::power2::*;
use crate::accuracy;
use crate::double;
use crate::hardware;
use crate::hardware::VideoController;
use crate::order;
use crate::text;

verus! {

/// The bytes of a gigabyte.
pub open spec fn gigabyte() -> int {
    1_073_741_824
}

/// The errors of rounding in a size.
proof fn lemma_size_errors(n: int, b: int, q: int, y: int, k: int, one: int, g: int, fine: int)
    requires
        0 <= n <= u64::MAX,
        fine == 0x10_0000_0000_0000,
        one == fine * g,
        one > 0x1_0000_0000_0000_0000 * 16 * fine,
        g > 0,
        b >= 0,
        q >= 0,
        fine * (b - n * one) <= n * one,
        fine * (n * one - b) <= n * one,
        2 * (fine * (b - 0x4000_0000 * q)) <= b + 0x4000_0000 * fine,
        2 * (fine * (0x4000_0000 * q - b)) <= b + 0x4000_0000 * fine,
        2 * (fine * (10 * q - y)) <= 10 * q + fine,
        2 * (fine * (y - 10 * q)) <= 10 * q + fine,
        2 * (k * one - y) <= one,
        2 * (y - k * one) <= one,
    ensures
        1000 * (20 * n - 2 * 0x4000_0000 * k) <= 1001 * 0x4000_0000,
        1000 * (2 * 0x4000_0000 * k - 20 * n) <= 1001 * 0x4000_0000,
{
    let no = n * one;
    let ng = n * g;
    assert(no == fine * ng) by (nonlinear_arith)
        requires
            no == n * one,
            one == fine * g,
            ng == n * g,
    ;
    assert(0 <= ng <= 0x1_0000_0000_0000_0000 * g) by (nonlinear_arith)
        requires
            ng == n * g,
            0 <= n <= 0x1_0000_0000_0000_0000,
            g > 0,
    ;
    assert(g > 0x1_0000_0000_0000_0000) by (nonlinear_arith)
        requires
            one == fine * g,
            one > 0x1_0000_0000_0000_0000 * 16 * fine,
            fine > 0,
    ;
    assert(b - no <= ng && no - b <= ng) by (nonlinear_arith)
        requires
            fine * (b - no) <= no,
            fine * (no - b) <= no,
            no == fine * ng,
            fine > 0,
    ;
    let top = 0x1_0000_0000_0000_0000 * g;
    assert(b <= (fine + 1) * top) by (nonlinear_arith)
        requires
            b - no <= ng,
            no == fine * ng,
            0 <= ng <= top,
            fine > 0,
    ;
    let tq = 0x4000_0000 * q;
    assert(b - tq <= top && tq - b <= top) by (nonlinear_arith)
        requires
            2 * (fine * (b - tq)) <= b + 0x4000_0000 * fine,
            2 * (fine * (tq - b)) <= b + 0x4000_0000 * fine,
            b <= (fine + 1) * top,
            top >= 0x1_0000_0000_0000_0000,
            fine == 0x10_0000_0000_0000,
    ;
    assert(tq <= (fine + 2) * top) by (nonlinear_arith)
        requires
            tq - b <= top,
            b <= (fine + 1) * top,
    ;
    let ty = 0x4000_0000 * y;
    assert(10 * tq - ty <= 10 * top && ty - 10 * tq <= 10 * top) by (nonlinear_arith)
        requires
            2 * (fine * (10 * q - y)) <= 10 * q + fine,
            2 * (fine * (y - 10 * q)) <= 10 * q + fine,
            tq == 0x4000_0000 * q,
            ty == 0x4000_0000 * y,
            tq <= (fine + 2) * top,
            top >= 0x1_0000_0000_0000_0000,
            fine == 0x10_0000_0000_0000,
    {
        assert(2 * (fine * (10 * tq - ty)) <= 10 * tq + 0x4000_0000 * fine);
        assert(2 * (fine * (ty - 10 * tq)) <= 10 * tq + 0x4000_0000 * fine);
    }
    let ko = k * one;
    let gap = 20 * no - 2 * 0x4000_0000 * ko;
    assert(2 * (ty - 0x4000_0000 * ko) <= 0x4000_0000 * one && 2 * (0x4000_0000 * ko - ty)
        <= 0x4000_0000 * one) by (nonlinear_arith)
        requires
            2 * (ko - y) <= one,
            2 * (y - ko) <= one,
            ty == 0x4000_0000 * y,
    ;
    assert(gap <= 0x4000_0000 * one + 100 * top && -gap <= 0x4000_0000 * one + 100 * top)
        by (nonlinear_arith)
        requires
            gap == 20 * no - 2 * 0x4000_0000 * ko,
            2 * (ty - 0x4000_0000 * ko) <= 0x4000_0000 * one,
            2 * (0x4000_0000 * ko - ty) <= 0x4000_0000 * one,
            10 * tq - ty <= 10 * top,
            ty - 10 * tq <= 10 * top,
            b - tq <= top,
            tq - b <= top,
            b - no <= ng,
            no - b <= ng,
            0 <= ng <= top,
    ;
    let d = 20 * n - 2 * 0x4000_0000 * k;
    assert(gap == d * one) by (nonlinear_arith)
        requires
            gap == 20 * no - 2 * 0x4000_0000 * ko,
            no == n * one,
            ko == k * one,
            d == 20 * n - 2 * 0x4000_0000 * k,
    ;
    assert(1000 * (100 * top) <= 0x4000_0000 * one) by (nonlinear_arith)
        requires
            top == 0x1_0000_0000_0000_0000 * g,
            one == fine * g,
            fine == 0x10_0000_0000_0000,
            g > 0,
    ;
    assert(1000 * d <= 1001 * 0x4000_0000 && 1000 * (-d) <= 1001 * 0x4000_0000)
        by (nonlinear_arith)
        requires
            gap == d * one,
            gap <= 0x4000_0000 * one + 100 * top,
            -gap <= 0x4000_0000 * one + 100 * top,
            1000 * (100 * top) <= 0x4000_0000 * one,
            one > 0,
    ;
}

/// A size is shown as the nearest number of tenths of a gigabyte, or almost so, however large
/// it is.
pub proof fn lemma_size_in_tenths(bytes: u64) -> (tenths: nat)
    ensures
        hardware::gigabytes(bytes as nat) == double::nearest(tenths, 10),
        1000 * double::absolute(20 * bytes - 2 * (gigabyte() * tenths)) <= 1001 * gigabyte(),
{
    let one = accuracy::one();
    let fine = accuracy::fineness();
    let n = bytes as nat;
    let unit = double::whole(0x4000_0000);
    let ten = double::whole(10);
    let b = double::whole(n);
    let q = double::quotient(b, unit);
    let y = double::product(q, ten);
    accuracy::lemma_one();
    order::lemma_whole_exact(0x4000_0000);
    order::lemma_whole_exact(10);
    order::lemma_whole_exact(0x40_0000_0000);
    if n > 0 {
        accuracy::lemma_nearest_near(n, 1);
    } else {
        double::lemma_whole_zero();
        order::lemma_whole_exact(0);
    }
    let no = n * one;
    let bv = b.value();
    assert(0 <= no <= 0x1_0000_0000_0000_0000 * one) by (nonlinear_arith)
        requires
            no == n * one,
            0 <= n <= 0x1_0000_0000_0000_0000,
            one > 0,
    ;
    accuracy::lemma_near_bounds(bv, no, 1);
    assert(fine * (bv - no) <= no && fine * (no - bv) <= no) by (nonlinear_arith)
        requires
            fine * bv <= (fine + 1) * no,
            fine * bv >= (fine - 1) * no,
    ;
    assert(bv <= 0x2_0000_0000_0000_0000 * one) by (nonlinear_arith)
        requires
            fine * (bv - no) <= no,
            0 <= no <= 0x1_0000_0000_0000_0000 * one,
            fine >= 1,
    ;
    double::lemma_whole_finite(n);
    assert(bv <= unit.value() * accuracy::ample()) by (nonlinear_arith)
        requires
            bv <= 0x2_0000_0000_0000_0000 * one,
            unit.value() == 0x4000_0000 * one,
            accuracy::ample() >= 0x2_0000_0000_0000_0000,
            one > 0,
    ;
    accuracy::lemma_quotient_finite(b, unit);
    accuracy::lemma_quotient_near(b, unit);
    let qv = q.value();
    let t = 0x4000_0000int;
    lemma_divided(bv, qv, t, one, fine, double::absolute(bv * one - (t * one) * qv) as int);
    assert(qv <= 0x20_0000_0000 * one) by (nonlinear_arith)
        requires
            2 * (fine * (t * qv - bv)) <= bv + t * fine,
            bv <= 0x2_0000_0000_0000_0000 * one,
            t == 0x4000_0000,
            one > 1_000_000_000_000 * fine,
            fine >= 1_000_000,
    ;
    assert(qv * ten.value() <= one * (accuracy::ample() * one)) by (nonlinear_arith)
        requires
            0 <= qv <= 0x20_0000_0000 * one,
            ten.value() == 10 * one,
            accuracy::ample() >= 0x200_0000_0000,
            one > 0,
    ;
    accuracy::lemma_product_finite(q, ten);
    accuracy::lemma_product_near(q, ten);
    let yv = y.value();
    lemma_multiplied(qv, yv, one, fine, double::absolute(qv * (10 * one) - one * yv) as int);
    double::lemma_quotient_is_number(b, unit);
    double::lemma_product_is_number(q, ten);
    assert(yv <= 0x40_0000_0000 * 10 * one) by (nonlinear_arith)
        requires
            2 * (fine * (yv - 10 * qv)) <= 10 * qv + fine,
            qv <= 0x20_0000_0000 * one,
            one > 1_000_000_000_000 * fine,
            fine >= 1_000_000,
    ;
    order::lemma_whole_exact(0x40_0000_0000 * 10);
    assert(double::at_most(y, double::whole(0x40_0000_0000 * 10))) by {
        reveal(double::at_most);
    }
    let k = order::lemma_rounded_whole(y, 0x40_0000_0000 * 10);
    order::lemma_quotient_whole(k, 10);
    lemma_size_errors(n as int, bv, qv, yv, k as int, one, order::grain(), fine);
    k
}

proof fn lemma_divided(b: int, q: int, t: int, one: int, fine: int, d: int)
    requires
        one > 0,
        fine > 0,
        b * one - (t * one) * q <= d,
        (t * one) * q - b * one <= d,
        2 * (fine * d) <= b * one + fine * (t * one),
    ensures
        2 * (fine * (b - t * q)) <= b + t * fine,
        2 * (fine * (t * q - b)) <= b + t * fine,
{
    let e = b - t * q;
    assert(b * one - (t * one) * q == e * one) by (nonlinear_arith)
        requires
            e == b - t * q,
    ;
    assert(2 * (fine * e) <= b + t * fine && 2 * (fine * (-e)) <= b + t * fine) by (nonlinear_arith)
        requires
            one > 0,
            fine > 0,
            e * one <= d,
            -(e * one) <= d,
            2 * (fine * d) <= b * one + fine * (t * one),
    {
        assert(2 * (fine * (e * one)) <= b * one + fine * (t * one));
        assert(2 * (fine * (-(e * one))) <= b * one + fine * (t * one));
        assert(one * (2 * (fine * e)) <= one * (b + t * fine));
        assert(one * (2 * (fine * (-e))) <= one * (b + t * fine));
    }
}

proof fn lemma_multiplied(q: int, y: int, one: int, fine: int, d: int)
    requires
        one > 0,
        fine > 0,
        q * (10 * one) - one * y <= d,
        one * y - q * (10 * one) <= d,
        2 * (fine * d) <= q * (10 * one) + fine * one,
    ensures
        2 * (fine * (10 * q - y)) <= 10 * q + fine,
        2 * (fine * (y - 10 * q)) <= 10 * q + fine,
{
    let e = 10 * q - y;
    assert(q * (10 * one) - one * y == e * one) by (nonlinear_arith)
        requires
            e == 10 * q - y,
    ;
    assert(2 * (fine * e) <= 10 * q + fine && 2 * (fine * (-e)) <= 10 * q + fine)
        by (nonlinear_arith)
        requires
            one > 0,
            fine > 0,
            e * one <= d,
            -(e * one) <= d,
            2 * (fine * d) <= q * (10 * one) + fine * one,
    {
        assert(2 * (fine * (e * one)) <= q * (10 * one) + fine * one);
        assert(2 * (fine * (-(e * one))) <= q * (10 * one) + fine * one);
        assert(one * (2 * (fine * e)) <= one * (10 * q + fine));
        assert(one * (2 * (fine * (-e))) <= one * (10 * q + fine));
    }
}

/// Whether an adapter has a name that in lower case does not hold `basic display`.
pub open spec fn is_real(device: VideoController) -> bool {
    device.name is Some && !text::occurs("basic display"@, text::lowercase(device.name->0@))
}

/// The bytes of an adapter, none where they are not reported.
pub open spec fn bytes_of(device: VideoController) -> int {
    if device.adapter_ram is Some {
        device.adapter_ram->0 as int
    } else {
        0
    }
}

/// The adapter to use is a real one, no real one has more bytes by a tenth of a gigabyte, those
/// behind it in the list have fewer, and its memory is given where it is reported.
pub proof fn lemma_chosen_adapter(devices: Seq<VideoController>, i: int)
    requires
        hardware::prevails(devices, devices.len() as int, i),
    ensures
        0 <= i < devices.len(),
        is_real(devices[i]),
        forall|j: int|
            0 <= j < devices.len() && #[trigger] is_real(devices[j]) ==> 100 * bytes_of(devices[j])
                <= 100 * bytes_of(devices[i]) + 11 * gigabyte(),
        forall|j: int|
            i < j < devices.len() && #[trigger] is_real(devices[j]) ==> bytes_of(devices[j])
                < bytes_of(devices[i]),
        devices[i].adapter_ram is None ==> hardware::adapter_vram(devices[i]) is None,
        devices[i].adapter_ram is Some ==> hardware::adapter_vram(devices[i]) == Some(
            hardware::gigabytes(devices[i].adapter_ram->0 as nat),
        ),
{
    assert forall|j: int| 0 <= j < devices.len() && #[trigger] is_real(devices[j]) implies 100
        * bytes_of(devices[j]) <= 100 * bytes_of(devices[i]) + 11 * gigabyte() by {
        assert(hardware::is_usable(devices[j]));
        lemma_weighed(devices[i], devices[j]);
    }
    assert forall|j: int| i < j < devices.len() && #[trigger] is_real(devices[j]) implies bytes_of(
        devices[j],
    ) < bytes_of(devices[i]) by {
        assert(hardware::is_usable(devices[j]));
        hardware::lemma_gigabytes_of_whole(0);
        if bytes_of(devices[i]) <= bytes_of(devices[j]) {
            hardware::lemma_gigabytes_monotone(
                bytes_of(devices[i]) as nat,
                bytes_of(devices[j]) as nat,
            );
            assert(hardware::weight(devices[i]) == hardware::gigabytes(
                bytes_of(devices[i]) as nat,
            ));
            assert(hardware::weight(devices[j]) == hardware::gigabytes(
                bytes_of(devices[j]) as nat,
            ));
            reveal(double::at_most);
            reveal(double::less);
        }
    }
}

proof fn lemma_weighed(a: VideoController, b: VideoController)
    requires
        double::at_most(hardware::weight(b), hardware::weight(a)),
    ensures
        100 * bytes_of(b) <= 100 * bytes_of(a) + 11 * gigabyte(),
{
    let s = lemma_weight(a);
    let t = lemma_weight(b);
    if s < t {
        let m = (32 * s + 9) / 10;
        lemma2_to64();
        order::lemma_nearest_less(s, 10, t, 10, m, 5);
        reveal(double::at_most);
        reveal(double::less);
    }
}

proof fn lemma_weight(a: VideoController) -> (tenths: nat)
    ensures
        hardware::weight(a) == double::nearest(tenths, 10),
        1000 * double::absolute(20 * bytes_of(a) - 2 * (gigabyte() * tenths)) <= 1001 * gigabyte(),
        tenths <= 0x80_0000_0000,
{
    if let Some(bytes) = a.adapter_ram {
        lemma_size_in_tenths(bytes)
    } else {
        order::lemma_nearest_same(0, 10, 0, 1);
        0
    }
}

} // verus!
