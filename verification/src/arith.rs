//! Division and modulus helper lemmas shared by the writers' proofs.

use vstd::arithmetic::div_mod::lemma_breakdown;
use vstd::arithmetic::div_mod::lemma_div_denominator;
use vstd::arithmetic::div_mod::lemma_div_multiples_vanish;
use vstd::arithmetic::div_mod::lemma_fundamental_div_mod;
use vstd::arithmetic::div_mod::lemma_fundamental_div_mod_converse;
use vstd::arithmetic::div_mod::lemma_mod_mod;
use vstd::arithmetic::mul::lemma_mul_inequality;
use vstd::arithmetic::mul::lemma_mul_is_commutative;
use vstd::arithmetic::mul::lemma_mul_strict_inequality;
use vstd::arithmetic::power2::pow2;
use vstd::prelude::*;

verus! {

/// Dividing twice is dividing by the product.
pub proof fn lemma_div_div(x: int, a: int, b: int)
    requires
        x >= 0,
        a > 0,
        b > 0,
    ensures
        x / a / b == x / (a * b),
{
    lemma_div_denominator(x, a, b);
}

/// A common factor cancels out of a quotient.
pub proof fn lemma_div_common_factor(x: int, c: int, d: int)
    requires
        x >= 0,
        c > 0,
        d > 0,
    ensures
        (x * c) / (d * c) == x / d,
{
    lemma_mul_is_commutative(x, c);
    lemma_div_denominator(x * c, c, d);
    lemma_div_multiples_vanish(x, c);
    lemma_mul_is_commutative(d, c);
}

/// A common factor distributes over the remainder.
pub proof fn lemma_mod_common_factor(x: int, c: int, d: int)
    requires
        x >= 0,
        c > 0,
        d > 0,
    ensures
        (x * c) % (d * c) == (x % d) * c,
{
    let q = x / d;
    let r = x % d;
    lemma_fundamental_div_mod(x, d);
    assert(x * c == q * (d * c) + r * c) by (nonlinear_arith)
        requires
            x == d * q + r,
    ;
    assert(r * c < d * c) by {
        lemma_mul_strict_inequality(r, d, c);
        lemma_mul_is_commutative(r, c);
        lemma_mul_is_commutative(d, c);
    }
    assert(r * c >= 0) by (nonlinear_arith)
        requires
            r >= 0,
            c > 0,
    ;
    lemma_fundamental_div_mod_converse(x * c, d * c, q, r * c);
}

/// The low part of a remainder by a larger modulus: taking `x` modulo `a * b`
/// keeps the remainder modulo `a` unchanged.
pub proof fn lemma_mod_of_mod(x: int, a: int, b: int)
    requires
        x >= 0,
        a > 0,
        b > 0,
    ensures
        (x % (a * b)) % a == x % a,
{
    lemma_mod_mod(x, a, b);
}

/// Dividing a remainder by the inner factor yields the middle digits:
/// `(x % (a * b)) / a == (x / a) % b`.
pub proof fn lemma_div_of_mod(x: int, a: int, b: int)
    requires
        x >= 0,
        a > 0,
        b > 0,
    ensures
        (x % (a * b)) / a == (x / a) % b,
{
    lemma_breakdown(x, a, b);
    let m = (x / a) % b;
    let r = x % a;
    assert(x % (a * b) == m * a + r) by {
        lemma_mul_is_commutative(a, m);
    }
    vstd::arithmetic::div_mod::lemma_mod_division_less_than_divisor(x / a, b);
    vstd::arithmetic::div_mod::lemma_mod_pos_bound(x / a, b);
    lemma_fundamental_div_mod_converse(x % (a * b), a, m, r);
}

/// Multiplying both sides of `<=` by a nonnegative factor.
pub proof fn lemma_mul_le(a: int, b: int, c: int)
    requires
        0 <= a <= b,
        0 <= c,
    ensures
        a * c <= b * c,
        c * a <= c * b,
{
    lemma_mul_inequality(a, b, c);
    lemma_mul_is_commutative(a, c);
    lemma_mul_is_commutative(b, c);
}

/// A product of nonnegative factors is nonnegative.
pub proof fn lemma_mul_nonneg(a: int, b: int)
    requires
        0 <= a,
        0 <= b,
    ensures
        0 <= a * b,
{
    vstd::arithmetic::mul::lemma_mul_nonnegative(a, b);
}


/// Bounds on a quotient from bounds on the dividend in units of the divisor.
pub proof fn lemma_div_range(n: int, d: int, lo: int, hi: int)
    requires
        d > 0,
        lo * d <= n,
        n < hi * d,
    ensures
        lo <= n / d < hi,
{
    lemma_mul_is_commutative(hi, d);
    vstd::arithmetic::div_mod::lemma_multiply_divide_lt(n, d, hi);
    vstd::arithmetic::div_mod::lemma_div_is_ordered(lo * d, n, d);
    lemma_mul_is_commutative(lo, d);
    lemma_div_multiples_vanish(lo, d);
}

/// Division by `2^32` of a value known to lie in a given block.
pub proof fn lemma_div_pow32(y: int, c: int)
    requires
        c >= 0,
        c * 0x100000000 <= y < (c + 1) * 0x100000000,
    ensures
        y / 0x100000000 == c,
{
    lemma_fundamental_div_mod_converse(y, 0x100000000, c, y - c * 0x100000000);
}

/// The concrete values of `pow2` from 65 up to 128.
pub proof fn lemma_pow2_values_high()
    ensures
        pow2(65) == 36893488147419103232,
        pow2(66) == 73786976294838206464,
        pow2(67) == 147573952589676412928,
        pow2(68) == 295147905179352825856,
        pow2(69) == 590295810358705651712,
        pow2(70) == 1180591620717411303424,
        pow2(71) == 2361183241434822606848,
        pow2(72) == 4722366482869645213696,
        pow2(73) == 9444732965739290427392,
        pow2(74) == 18889465931478580854784,
        pow2(75) == 37778931862957161709568,
        pow2(76) == 75557863725914323419136,
        pow2(77) == 151115727451828646838272,
        pow2(78) == 302231454903657293676544,
        pow2(79) == 604462909807314587353088,
        pow2(80) == 1208925819614629174706176,
        pow2(81) == 2417851639229258349412352,
        pow2(82) == 4835703278458516698824704,
        pow2(83) == 9671406556917033397649408,
        pow2(84) == 19342813113834066795298816,
        pow2(85) == 38685626227668133590597632,
        pow2(86) == 77371252455336267181195264,
        pow2(87) == 154742504910672534362390528,
        pow2(88) == 309485009821345068724781056,
        pow2(89) == 618970019642690137449562112,
        pow2(90) == 1237940039285380274899124224,
        pow2(91) == 2475880078570760549798248448,
        pow2(92) == 4951760157141521099596496896,
        pow2(93) == 9903520314283042199192993792,
        pow2(94) == 19807040628566084398385987584,
        pow2(95) == 39614081257132168796771975168,
        pow2(96) == 79228162514264337593543950336,
        pow2(97) == 158456325028528675187087900672,
        pow2(98) == 316912650057057350374175801344,
        pow2(99) == 633825300114114700748351602688,
        pow2(100) == 1267650600228229401496703205376,
        pow2(101) == 2535301200456458802993406410752,
        pow2(102) == 5070602400912917605986812821504,
        pow2(103) == 10141204801825835211973625643008,
        pow2(104) == 20282409603651670423947251286016,
        pow2(105) == 40564819207303340847894502572032,
        pow2(106) == 81129638414606681695789005144064,
        pow2(107) == 162259276829213363391578010288128,
        pow2(108) == 324518553658426726783156020576256,
        pow2(109) == 649037107316853453566312041152512,
        pow2(110) == 1298074214633706907132624082305024,
        pow2(111) == 2596148429267413814265248164610048,
        pow2(112) == 5192296858534827628530496329220096,
        pow2(113) == 10384593717069655257060992658440192,
        pow2(114) == 20769187434139310514121985316880384,
        pow2(115) == 41538374868278621028243970633760768,
        pow2(116) == 83076749736557242056487941267521536,
        pow2(117) == 166153499473114484112975882535043072,
        pow2(118) == 332306998946228968225951765070086144,
        pow2(119) == 664613997892457936451903530140172288,
        pow2(120) == 1329227995784915872903807060280344576,
        pow2(121) == 2658455991569831745807614120560689152,
        pow2(122) == 5316911983139663491615228241121378304,
        pow2(123) == 10633823966279326983230456482242756608,
        pow2(124) == 21267647932558653966460912964485513216,
        pow2(125) == 42535295865117307932921825928971026432,
        pow2(126) == 85070591730234615865843651857942052864,
        pow2(127) == 170141183460469231731687303715884105728,
        pow2(128) == 340282366920938463463374607431768211456,
{
    vstd::arithmetic::power2::lemma2_to64_rest();
    vstd::arithmetic::power2::lemma_pow2_unfold(65);
    assert(pow2(65) == 36893488147419103232);
    vstd::arithmetic::power2::lemma_pow2_unfold(66);
    assert(pow2(66) == 73786976294838206464);
    vstd::arithmetic::power2::lemma_pow2_unfold(67);
    assert(pow2(67) == 147573952589676412928);
    vstd::arithmetic::power2::lemma_pow2_unfold(68);
    assert(pow2(68) == 295147905179352825856);
    vstd::arithmetic::power2::lemma_pow2_unfold(69);
    assert(pow2(69) == 590295810358705651712);
    vstd::arithmetic::power2::lemma_pow2_unfold(70);
    assert(pow2(70) == 1180591620717411303424);
    vstd::arithmetic::power2::lemma_pow2_unfold(71);
    assert(pow2(71) == 2361183241434822606848);
    vstd::arithmetic::power2::lemma_pow2_unfold(72);
    assert(pow2(72) == 4722366482869645213696);
    vstd::arithmetic::power2::lemma_pow2_unfold(73);
    assert(pow2(73) == 9444732965739290427392);
    vstd::arithmetic::power2::lemma_pow2_unfold(74);
    assert(pow2(74) == 18889465931478580854784);
    vstd::arithmetic::power2::lemma_pow2_unfold(75);
    assert(pow2(75) == 37778931862957161709568);
    vstd::arithmetic::power2::lemma_pow2_unfold(76);
    assert(pow2(76) == 75557863725914323419136);
    vstd::arithmetic::power2::lemma_pow2_unfold(77);
    assert(pow2(77) == 151115727451828646838272);
    vstd::arithmetic::power2::lemma_pow2_unfold(78);
    assert(pow2(78) == 302231454903657293676544);
    vstd::arithmetic::power2::lemma_pow2_unfold(79);
    assert(pow2(79) == 604462909807314587353088);
    vstd::arithmetic::power2::lemma_pow2_unfold(80);
    assert(pow2(80) == 1208925819614629174706176);
    vstd::arithmetic::power2::lemma_pow2_unfold(81);
    assert(pow2(81) == 2417851639229258349412352);
    vstd::arithmetic::power2::lemma_pow2_unfold(82);
    assert(pow2(82) == 4835703278458516698824704);
    vstd::arithmetic::power2::lemma_pow2_unfold(83);
    assert(pow2(83) == 9671406556917033397649408);
    vstd::arithmetic::power2::lemma_pow2_unfold(84);
    assert(pow2(84) == 19342813113834066795298816);
    vstd::arithmetic::power2::lemma_pow2_unfold(85);
    assert(pow2(85) == 38685626227668133590597632);
    vstd::arithmetic::power2::lemma_pow2_unfold(86);
    assert(pow2(86) == 77371252455336267181195264);
    vstd::arithmetic::power2::lemma_pow2_unfold(87);
    assert(pow2(87) == 154742504910672534362390528);
    vstd::arithmetic::power2::lemma_pow2_unfold(88);
    assert(pow2(88) == 309485009821345068724781056);
    vstd::arithmetic::power2::lemma_pow2_unfold(89);
    assert(pow2(89) == 618970019642690137449562112);
    vstd::arithmetic::power2::lemma_pow2_unfold(90);
    assert(pow2(90) == 1237940039285380274899124224);
    vstd::arithmetic::power2::lemma_pow2_unfold(91);
    assert(pow2(91) == 2475880078570760549798248448);
    vstd::arithmetic::power2::lemma_pow2_unfold(92);
    assert(pow2(92) == 4951760157141521099596496896);
    vstd::arithmetic::power2::lemma_pow2_unfold(93);
    assert(pow2(93) == 9903520314283042199192993792);
    vstd::arithmetic::power2::lemma_pow2_unfold(94);
    assert(pow2(94) == 19807040628566084398385987584);
    vstd::arithmetic::power2::lemma_pow2_unfold(95);
    assert(pow2(95) == 39614081257132168796771975168);
    vstd::arithmetic::power2::lemma_pow2_unfold(96);
    assert(pow2(96) == 79228162514264337593543950336);
    vstd::arithmetic::power2::lemma_pow2_unfold(97);
    assert(pow2(97) == 158456325028528675187087900672);
    vstd::arithmetic::power2::lemma_pow2_unfold(98);
    assert(pow2(98) == 316912650057057350374175801344);
    vstd::arithmetic::power2::lemma_pow2_unfold(99);
    assert(pow2(99) == 633825300114114700748351602688);
    vstd::arithmetic::power2::lemma_pow2_unfold(100);
    assert(pow2(100) == 1267650600228229401496703205376);
    vstd::arithmetic::power2::lemma_pow2_unfold(101);
    assert(pow2(101) == 2535301200456458802993406410752);
    vstd::arithmetic::power2::lemma_pow2_unfold(102);
    assert(pow2(102) == 5070602400912917605986812821504);
    vstd::arithmetic::power2::lemma_pow2_unfold(103);
    assert(pow2(103) == 10141204801825835211973625643008);
    vstd::arithmetic::power2::lemma_pow2_unfold(104);
    assert(pow2(104) == 20282409603651670423947251286016);
    vstd::arithmetic::power2::lemma_pow2_unfold(105);
    assert(pow2(105) == 40564819207303340847894502572032);
    vstd::arithmetic::power2::lemma_pow2_unfold(106);
    assert(pow2(106) == 81129638414606681695789005144064);
    vstd::arithmetic::power2::lemma_pow2_unfold(107);
    assert(pow2(107) == 162259276829213363391578010288128);
    vstd::arithmetic::power2::lemma_pow2_unfold(108);
    assert(pow2(108) == 324518553658426726783156020576256);
    vstd::arithmetic::power2::lemma_pow2_unfold(109);
    assert(pow2(109) == 649037107316853453566312041152512);
    vstd::arithmetic::power2::lemma_pow2_unfold(110);
    assert(pow2(110) == 1298074214633706907132624082305024);
    vstd::arithmetic::power2::lemma_pow2_unfold(111);
    assert(pow2(111) == 2596148429267413814265248164610048);
    vstd::arithmetic::power2::lemma_pow2_unfold(112);
    assert(pow2(112) == 5192296858534827628530496329220096);
    vstd::arithmetic::power2::lemma_pow2_unfold(113);
    assert(pow2(113) == 10384593717069655257060992658440192);
    vstd::arithmetic::power2::lemma_pow2_unfold(114);
    assert(pow2(114) == 20769187434139310514121985316880384);
    vstd::arithmetic::power2::lemma_pow2_unfold(115);
    assert(pow2(115) == 41538374868278621028243970633760768);
    vstd::arithmetic::power2::lemma_pow2_unfold(116);
    assert(pow2(116) == 83076749736557242056487941267521536);
    vstd::arithmetic::power2::lemma_pow2_unfold(117);
    assert(pow2(117) == 166153499473114484112975882535043072);
    vstd::arithmetic::power2::lemma_pow2_unfold(118);
    assert(pow2(118) == 332306998946228968225951765070086144);
    vstd::arithmetic::power2::lemma_pow2_unfold(119);
    assert(pow2(119) == 664613997892457936451903530140172288);
    vstd::arithmetic::power2::lemma_pow2_unfold(120);
    assert(pow2(120) == 1329227995784915872903807060280344576);
    vstd::arithmetic::power2::lemma_pow2_unfold(121);
    assert(pow2(121) == 2658455991569831745807614120560689152);
    vstd::arithmetic::power2::lemma_pow2_unfold(122);
    assert(pow2(122) == 5316911983139663491615228241121378304);
    vstd::arithmetic::power2::lemma_pow2_unfold(123);
    assert(pow2(123) == 10633823966279326983230456482242756608);
    vstd::arithmetic::power2::lemma_pow2_unfold(124);
    assert(pow2(124) == 21267647932558653966460912964485513216);
    vstd::arithmetic::power2::lemma_pow2_unfold(125);
    assert(pow2(125) == 42535295865117307932921825928971026432);
    vstd::arithmetic::power2::lemma_pow2_unfold(126);
    assert(pow2(126) == 85070591730234615865843651857942052864);
    vstd::arithmetic::power2::lemma_pow2_unfold(127);
    assert(pow2(127) == 170141183460469231731687303715884105728);
    vstd::arithmetic::power2::lemma_pow2_unfold(128);
    assert(pow2(128) == 340282366920938463463374607431768211456);
}

} // verus!
