//! What the filters are for: which signals they let through, and that they are stable.
use crate::decimate::low_pass;
use crate::fixed::{Fixed, cut_quotient};
use crate::scalar::{Scalar, exact_decimals};
use crate::smoothing::{feedback, feedforward};
use vstd::arithmetic::power::pow;
use vstd::prelude::*;

verus! {

/// The ten powers that the coefficients are written with.
pub proof fn lemma_tens()
    ensures
        pow(10, 14) == 100_000_000_000_000,
        pow(10, 15) == 1_000_000_000_000_000,
        pow(10, 16) == 10_000_000_000_000_000,
        pow(10, 17) == 100_000_000_000_000_000,
        pow(10, 18) == 1_000_000_000_000_000_000,
        pow(10, 19) == 10_000_000_000_000_000_000,
{
    reveal_with_fuel(pow, 20);
}

/// Whether `x` and `y` differ by no more than a billionth.
pub open spec fn close(x: real, y: real) -> bool {
    (x - y) * 1_000_000_000real <= 1real && (y - x) * 1_000_000_000real <= 1real
}

/// What a decimal is read as, `n` being the power of ten by which it is divided.
pub proof fn lemma_reads<T: Scalar>(value: spec_fn(T) -> real, digits: int, places: nat, n: int)
    requires
        exact_decimals(value),
        pow(10, places) == n,
    ensures
        value(T::of_decimal(digits, places)) * (n as real) == digits as real,
{
}

/// Whether a filter lets a constant through unchanged and nothing of half the rate,
/// and is stable: the poles of its feedback lie within the unit circle (Jury's
/// conditions).
pub open spec fn sound(a0: real, a1: real, a2: real, b0: real, b1: real) -> bool {
    &&& close(2real * b0 + 2real * b1, 1real - a0 - a1 - a2)
    &&& close(b1, 3real * b0)
    &&& 0real < b0
    &&& 0real < 1real - a0 - a1 - a2
    &&& 0real < 1real + a0 - a1 + a2
    &&& -1real < a2 < 1real
    &&& -(1real - a2 * a2) < a0 * a2 + a1 < 1real - a2 * a2
}

proof fn lemma_filter_2()
    ensures
        sound(
            411567345677571890real / 10000000000000000000real,
            -4259911245918963600real / 10000000000000000000real,
            410372154799612250real / 10000000000000000000real,
            1679746468180222700real / 10000000000000000000real,
            5039239404540667400real / 10000000000000000000real,
        ),
{
}

proof fn lemma_filter_3()
    ensures
        sound(
            9503937898323742100real / 10000000000000000000real,
            -6742914674152679100real / 10000000000000000000real,
            1541221162134647500real / 10000000000000000000real,
            712219451711786360real / 10000000000000000000real,
            2136658355135359100real / 10000000000000000000real,
        ),
{
}

proof fn lemma_filter_4()
    ensures
        sound(
            14499664446880227000real / 10000000000000000000real,
            -9894349708095058200real / 10000000000000000000real,
            2457825234069021500real / 10000000000000000000real,
            367107503393226120real / 10000000000000000000real,
            1101322510179678400real / 10000000000000000000real,
        ),
{
}

proof fn lemma_filter_5()
    ensures
        sound(
            17610939654280557000real / 10000000000000000000real,
            -12554914843859768000real / 10000000000000000000real,
            3237186507788215000real / 10000000000000000000real,
            213348585223874230real / 10000000000000000000real,
            640045755671622700real / 10000000000000000000real,
        ),
{
}

proof fn lemma_filter_6()
    ensures
        sound(
            19715352749512141000real / 10000000000000000000real,
            -14686795689225347000real / 10000000000000000000real,
            3893908434965701000real / 10000000000000000000real,
            134691813093438250real / 10000000000000000000real,
            404075439280314750real / 10000000000000000000real,
        ),
{
}

proof fn lemma_filter_7()
    ensures
        sound(
            21225239019534703000real / 10000000000000000000real,
            -16395144861046302000real / 10000000000000000000real,
            4446970780058736600real / 10000000000000000000real,
            90366882681608418real / 10000000000000000000real,
            271100648044825250real / 10000000000000000000real,
        ),
{
}

proof fn lemma_filter_8()
    ensures
        sound(
            22357462340187593000real / 10000000000000000000real,
            -17780899984041358000real / 10000000000000000000real,
            4915255536596869200real / 10000000000000000000real,
            63522763407111993real / 10000000000000000000real,
            190568290221335980real / 10000000000000000000real,
        ),
{
}

proof fn lemma_filter_9()
    ensures
        sound(
            23236003491759578000real / 10000000000000000000real,
            -18921545617463598000real / 10000000000000000000real,
            5314892813372906800real / 10000000000000000000real,
            46331164041389372real / 10000000000000000000real,
            138993492124168120real / 10000000000000000000real,
        ),
{
}

proof fn lemma_filter_10()
    ensures
        sound(
            23936475118069387000real / 10000000000000000000real,
            -19873904075111861000real / 10000000000000000000real,
            5658879979027055000real / 10000000000000000000real,
            34818622251927556real / 10000000000000000000real,
            104455866755782670real / 10000000000000000000real,
        ),
{
}

proof fn lemma_filter_11()
    ensures
        sound(
            24507432952307280000real / 10000000000000000000real,
            -20679490460197800000real / 10000000000000000000real,
            5957477443833210100real / 10000000000000000000real,
            26822508007163792real / 10000000000000000000real,
            80467524021491377real / 10000000000000000000real,
        ),
{
}

proof fn lemma_filter_12()
    ensures
        sound(
            24981398605924205000real / 10000000000000000000real,
            -21368928194784025000real / 10000000000000000000real,
            6218751381622148500real / 10000000000000000000real,
            21097275904709001real / 10000000000000000000real,
            63291827714127002real / 10000000000000000000real,
        ),
{
}

/// Law: read exactly, each filter from 2 to 12 lets a constant through unchanged, lets
/// nothing of half the rate through and is stable.
pub proof fn law_low_pass_is_sound<T: Scalar>(r: int, value: spec_fn(T) -> real)
    requires
        exact_decimals(value),
        2 <= r <= 12,
    ensures
        ({
            let c = low_pass::<T>(r);
            sound(value(c.a0), value(c.a1), value(c.a2), value(c.b0), value(c.b1))
        }),
{
    lemma_tens();
    if r == 2 {
        lemma_filter_2();
        lemma_reads(value, 41156734567757189, 18, 1000000000000000000);
        lemma_reads(value, -42599112459189636, 17, 100000000000000000);
        lemma_reads(value, 41037215479961225, 18, 1000000000000000000);
        lemma_reads(value, 16797464681802227, 17, 100000000000000000);
        lemma_reads(value, 50392394045406674, 17, 100000000000000000);
    } else if r == 3 {
        lemma_filter_3();
        lemma_reads(value, 95039378983237421, 17, 100000000000000000);
        lemma_reads(value, -67429146741526791, 17, 100000000000000000);
        lemma_reads(value, 15412211621346475, 17, 100000000000000000);
        lemma_reads(value, 71221945171178636, 18, 1000000000000000000);
        lemma_reads(value, 21366583551353591, 17, 100000000000000000);
    } else if r == 4 {
        lemma_filter_4();
        lemma_reads(value, 14499664446880227, 16, 10000000000000000);
        lemma_reads(value, -98943497080950582, 17, 100000000000000000);
        lemma_reads(value, 24578252340690215, 17, 100000000000000000);
        lemma_reads(value, 36710750339322612, 18, 1000000000000000000);
        lemma_reads(value, 11013225101796784, 17, 100000000000000000);
    } else if r == 5 {
        lemma_filter_5();
        lemma_reads(value, 17610939654280557, 16, 10000000000000000);
        lemma_reads(value, -12554914843859768, 16, 10000000000000000);
        lemma_reads(value, 3237186507788215, 16, 10000000000000000);
        lemma_reads(value, 21334858522387423, 18, 1000000000000000000);
        lemma_reads(value, 6400457556716227, 17, 100000000000000000);
    } else if r == 6 {
        lemma_filter_6();
        lemma_reads(value, 19715352749512141, 16, 10000000000000000);
        lemma_reads(value, -14686795689225347, 16, 10000000000000000);
        lemma_reads(value, 3893908434965701, 16, 10000000000000000);
        lemma_reads(value, 13469181309343825, 18, 1000000000000000000);
        lemma_reads(value, 40407543928031475, 18, 1000000000000000000);
    } else if r == 7 {
        lemma_filter_7();
        lemma_reads(value, 21225239019534703, 16, 10000000000000000);
        lemma_reads(value, -16395144861046302, 16, 10000000000000000);
        lemma_reads(value, 44469707800587366, 17, 100000000000000000);
        lemma_reads(value, 90366882681608418, 19, 10000000000000000000);
        lemma_reads(value, 27110064804482525, 18, 1000000000000000000);
    } else if r == 8 {
        lemma_filter_8();
        lemma_reads(value, 22357462340187593, 16, 10000000000000000);
        lemma_reads(value, -17780899984041358, 16, 10000000000000000);
        lemma_reads(value, 49152555365968692, 17, 100000000000000000);
        lemma_reads(value, 63522763407111993, 19, 10000000000000000000);
        lemma_reads(value, 19056829022133598, 18, 1000000000000000000);
    } else if r == 9 {
        lemma_filter_9();
        lemma_reads(value, 23236003491759578, 16, 10000000000000000);
        lemma_reads(value, -18921545617463598, 16, 10000000000000000);
        lemma_reads(value, 53148928133729068, 17, 100000000000000000);
        lemma_reads(value, 46331164041389372, 19, 10000000000000000000);
        lemma_reads(value, 13899349212416812, 18, 1000000000000000000);
    } else if r == 10 {
        lemma_filter_10();
        lemma_reads(value, 23936475118069387, 16, 10000000000000000);
        lemma_reads(value, -19873904075111861, 16, 10000000000000000);
        lemma_reads(value, 5658879979027055, 16, 10000000000000000);
        lemma_reads(value, 34818622251927556, 19, 10000000000000000000);
        lemma_reads(value, 10445586675578267, 18, 1000000000000000000);
    } else if r == 11 {
        lemma_filter_11();
        lemma_reads(value, 2450743295230728, 15, 1000000000000000);
        lemma_reads(value, -206794904601978, 14, 100000000000000);
        lemma_reads(value, 59574774438332101, 17, 100000000000000000);
        lemma_reads(value, 26822508007163792, 19, 10000000000000000000);
        lemma_reads(value, 80467524021491377, 19, 10000000000000000000);
    } else if r == 12 {
        lemma_filter_12();
        lemma_reads(value, 24981398605924205, 16, 10000000000000000);
        lemma_reads(value, -21368928194784025, 16, 10000000000000000);
        lemma_reads(value, 62187513816221485, 17, 100000000000000000);
        lemma_reads(value, 21097275904709001, 19, 10000000000000000000);
        lemma_reads(value, 63291827714127002, 19, 10000000000000000000);
    }
}

/// Law: read exactly, the smoothing filter lets a constant through unchanged, lets
/// nothing of half the rate through and is stable.
pub proof fn law_smoothing_filter_is_sound<T: Scalar>(value: spec_fn(T) -> real)
    requires
        exact_decimals(value),
    ensures
        ({
            let (a0, a1) = (value(feedback::<T>()[0]), value(feedback::<T>()[1]));
            let (b0, b1) = (value(feedforward::<T>()[0]), value(feedforward::<T>()[1]));
            &&& close(2real * b0 + b1, 1real - a0 - a1)
            &&& close(b1, 2real * b0)
            &&& 0real < b0
            &&& -1real < a1 < 1real
            &&& a0 < 1real - a1
            &&& -a0 < 1real - a1
        }),
{
    lemma_tens();
    lemma_reads(value, 17347257688092754, 16, 10000000000000000);
    lemma_reads(value, -76600660094326412, 17, 100000000000000000);
    lemma_reads(value, 78202080334971724, 19, 10000000000000000000);
    lemma_reads(value, 15640416066994345, 18, 1000000000000000000);
}

proof fn lemma_fixed_reads(digits: int, places: nat, n: int, units: int)
    requires
        pow(10, places) == n,
        cut_quotient(digits * 1_000_000, n) == units,
        i64::MIN <= units <= i64::MAX,
    ensures
        Fixed::of_decimal(digits, places).units == units,
{
}

/// Whether a filter with these coefficients, in millionths, lets a constant through
/// unchanged, up to what six decimals can hold, and is stable.
pub open spec fn fixed_sound(a0: int, a1: int, a2: int, b0: int, b1: int) -> bool {
    let one = 1_000_000int;
    &&& -8 <= 2 * b0 + 2 * b1 - (one - a0 - a1 - a2) <= 8
    &&& -3 <= b1 - 3 * b0 <= 3
    &&& 0 < b0
    &&& 0 < one - a0 - a1 - a2
    &&& 0 < one + a0 - a1 + a2
    &&& -one < a2 < one
    &&& -(one * one - a2 * a2) < a0 * a2 + a1 * one < one * one - a2 * a2
}

/// Law: in fixed-point numbers too, each filter from 2 to 12 lets a constant through
/// unchanged, up to what six decimals can hold, and is stable.
pub proof fn law_fixed_low_pass_is_sound(r: int)
    requires
        2 <= r <= 12,
    ensures
        ({
            let c = low_pass::<Fixed>(r);
            fixed_sound(
                c.a0.units as int,
                c.a1.units as int,
                c.a2.units as int,
                c.b0.units as int,
                c.b1.units as int,
            )
        }),
{
    lemma_tens();
    if r == 2 {
        lemma_fixed_reads(41156734567757189, 18, 1000000000000000000, 41156);
        lemma_fixed_reads(-42599112459189636, 17, 100000000000000000, -425991);
        lemma_fixed_reads(41037215479961225, 18, 1000000000000000000, 41037);
        lemma_fixed_reads(16797464681802227, 17, 100000000000000000, 167974);
        lemma_fixed_reads(50392394045406674, 17, 100000000000000000, 503923);
        assert(fixed_sound(41156, -425991, 41037, 167974, 503923));
    } else if r == 3 {
        lemma_fixed_reads(95039378983237421, 17, 100000000000000000, 950393);
        lemma_fixed_reads(-67429146741526791, 17, 100000000000000000, -674291);
        lemma_fixed_reads(15412211621346475, 17, 100000000000000000, 154122);
        lemma_fixed_reads(71221945171178636, 18, 1000000000000000000, 71221);
        lemma_fixed_reads(21366583551353591, 17, 100000000000000000, 213665);
        assert(fixed_sound(950393, -674291, 154122, 71221, 213665));
    } else if r == 4 {
        lemma_fixed_reads(14499664446880227, 16, 10000000000000000, 1449966);
        lemma_fixed_reads(-98943497080950582, 17, 100000000000000000, -989434);
        lemma_fixed_reads(24578252340690215, 17, 100000000000000000, 245782);
        lemma_fixed_reads(36710750339322612, 18, 1000000000000000000, 36710);
        lemma_fixed_reads(11013225101796784, 17, 100000000000000000, 110132);
        assert(fixed_sound(1449966, -989434, 245782, 36710, 110132));
    } else if r == 5 {
        lemma_fixed_reads(17610939654280557, 16, 10000000000000000, 1761093);
        lemma_fixed_reads(-12554914843859768, 16, 10000000000000000, -1255491);
        lemma_fixed_reads(3237186507788215, 16, 10000000000000000, 323718);
        lemma_fixed_reads(21334858522387423, 18, 1000000000000000000, 21334);
        lemma_fixed_reads(6400457556716227, 17, 100000000000000000, 64004);
        assert(fixed_sound(1761093, -1255491, 323718, 21334, 64004));
    } else if r == 6 {
        lemma_fixed_reads(19715352749512141, 16, 10000000000000000, 1971535);
        lemma_fixed_reads(-14686795689225347, 16, 10000000000000000, -1468679);
        lemma_fixed_reads(3893908434965701, 16, 10000000000000000, 389390);
        lemma_fixed_reads(13469181309343825, 18, 1000000000000000000, 13469);
        lemma_fixed_reads(40407543928031475, 18, 1000000000000000000, 40407);
        assert(fixed_sound(1971535, -1468679, 389390, 13469, 40407));
    } else if r == 7 {
        lemma_fixed_reads(21225239019534703, 16, 10000000000000000, 2122523);
        lemma_fixed_reads(-16395144861046302, 16, 10000000000000000, -1639514);
        lemma_fixed_reads(44469707800587366, 17, 100000000000000000, 444697);
        lemma_fixed_reads(90366882681608418, 19, 10000000000000000000, 9036);
        lemma_fixed_reads(27110064804482525, 18, 1000000000000000000, 27110);
        assert(fixed_sound(2122523, -1639514, 444697, 9036, 27110));
    } else if r == 8 {
        lemma_fixed_reads(22357462340187593, 16, 10000000000000000, 2235746);
        lemma_fixed_reads(-17780899984041358, 16, 10000000000000000, -1778089);
        lemma_fixed_reads(49152555365968692, 17, 100000000000000000, 491525);
        lemma_fixed_reads(63522763407111993, 19, 10000000000000000000, 6352);
        lemma_fixed_reads(19056829022133598, 18, 1000000000000000000, 19056);
        assert(fixed_sound(2235746, -1778089, 491525, 6352, 19056));
    } else if r == 9 {
        lemma_fixed_reads(23236003491759578, 16, 10000000000000000, 2323600);
        lemma_fixed_reads(-18921545617463598, 16, 10000000000000000, -1892154);
        lemma_fixed_reads(53148928133729068, 17, 100000000000000000, 531489);
        lemma_fixed_reads(46331164041389372, 19, 10000000000000000000, 4633);
        lemma_fixed_reads(13899349212416812, 18, 1000000000000000000, 13899);
        assert(fixed_sound(2323600, -1892154, 531489, 4633, 13899));
    } else if r == 10 {
        lemma_fixed_reads(23936475118069387, 16, 10000000000000000, 2393647);
        lemma_fixed_reads(-19873904075111861, 16, 10000000000000000, -1987390);
        lemma_fixed_reads(5658879979027055, 16, 10000000000000000, 565887);
        lemma_fixed_reads(34818622251927556, 19, 10000000000000000000, 3481);
        lemma_fixed_reads(10445586675578267, 18, 1000000000000000000, 10445);
        assert(fixed_sound(2393647, -1987390, 565887, 3481, 10445));
    } else if r == 11 {
        lemma_fixed_reads(2450743295230728, 15, 1000000000000000, 2450743);
        lemma_fixed_reads(-206794904601978, 14, 100000000000000, -2067949);
        lemma_fixed_reads(59574774438332101, 17, 100000000000000000, 595747);
        lemma_fixed_reads(26822508007163792, 19, 10000000000000000000, 2682);
        lemma_fixed_reads(80467524021491377, 19, 10000000000000000000, 8046);
        assert(fixed_sound(2450743, -2067949, 595747, 2682, 8046));
    } else if r == 12 {
        lemma_fixed_reads(24981398605924205, 16, 10000000000000000, 2498139);
        lemma_fixed_reads(-21368928194784025, 16, 10000000000000000, -2136892);
        lemma_fixed_reads(62187513816221485, 17, 100000000000000000, 621875);
        lemma_fixed_reads(21097275904709001, 19, 10000000000000000000, 2109);
        lemma_fixed_reads(63291827714127002, 19, 10000000000000000000, 6329);
        assert(fixed_sound(2498139, -2136892, 621875, 2109, 6329));
    }
}

} // verus!
