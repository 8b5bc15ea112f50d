//! The field's order is prime.
//!
//! The order is `k * 2^32 + 1` with `k = 2^32 - 1` odd, and `7^((order - 1) / 2)`
//! is `-1` modulo the order. A proper divisor `q` not above the square root would
//! then see `2^32` distinct non-zero powers of `7^k`, more than it has residues.

use crate::field::MODULUS;
use vstd::arithmetic::div_mod::{
    lemma_fundamental_div_mod, lemma_fundamental_div_mod_converse, lemma_mod_bound,
    lemma_mul_mod_noop_general, lemma_small_mod,
};
use vstd::arithmetic::power::{
    lemma1_pow, lemma_pow0, lemma_pow1, lemma_pow_adds, lemma_pow_mod_noop, lemma_pow_multiplies,
    pow,
};
use vstd::arithmetic::power2::{lemma2_to64, lemma_pow2_unfold, pow2};
use vstd::prelude::*;
use vstd::set_lib::{lemma_int_range, lemma_len_subset, set_int_range};

verus! {

proof fn lemma_step_even(e: nat, y: int, e2: nat, y2: int)
    requires
        pow(7, e) % (MODULUS as int) == y,
        e2 == 2 * e,
        y2 == (y * y) % (MODULUS as int),
    ensures
        pow(7, e2) % (MODULUS as int) == y2,
{
    lemma_pow_adds(7, e, e);
    lemma_mul_mod_noop_general(pow(7, e), pow(7, e), MODULUS as int);
}

proof fn lemma_step_odd(e: nat, y: int, e2: nat, y2: int)
    requires
        pow(7, e) % (MODULUS as int) == y,
        e2 == 2 * e + 1,
        y2 == (y * y * 7) % (MODULUS as int),
    ensures
        pow(7, e2) % (MODULUS as int) == y2,
{
    let n = MODULUS as int;
    lemma_pow_adds(7, e, e);
    lemma_pow_adds(7, e + e, 1);
    lemma_pow1(7);
    lemma_mul_mod_noop_general(pow(7, e), pow(7, e), n);
    lemma_mul_mod_noop_general(pow(7, e + e), 7, n);
    lemma_mul_mod_noop_general(y * y, 7, n);
}

/// `7^((order - 1) / 2)` is `-1`.
pub proof fn lemma_seven_is_a_non_residue()
    ensures
        pow(7, 9223372034707292160) % (MODULUS as int) == MODULUS - 1,
{
    lemma_pow1(7);
    lemma_step_odd(1, 7, 3, 343);
    lemma_step_odd(3, 343, 7, 823543);
    lemma_step_odd(7, 823543, 15, 4747561509943);
    lemma_step_odd(15, 4747561509943, 31, 11074261478625843323);
    lemma_step_odd(31, 11074261478625843323, 63, 12148266161370408270);
    lemma_step_odd(63, 12148266161370408270, 127, 7007601668316978083);
    lemma_step_odd(127, 7007601668316978083, 255, 8125271997680889877);
    lemma_step_odd(255, 8125271997680889877, 511, 2624486902016877951);
    lemma_step_odd(511, 2624486902016877951, 1023, 8253119735826302939);
    lemma_step_odd(1023, 8253119735826302939, 2047, 3543566522599720475);
    lemma_step_odd(2047, 3543566522599720475, 4095, 11981551684735969599);
    lemma_step_odd(4095, 11981551684735969599, 8191, 10062120588441922115);
    lemma_step_odd(8191, 10062120588441922115, 16383, 10485806445487905393);
    lemma_step_odd(16383, 10485806445487905393, 32767, 4139485063330164956);
    lemma_step_odd(32767, 4139485063330164956, 65535, 12134830135347446949);
    lemma_step_odd(65535, 12134830135347446949, 131071, 4326791766630348883);
    lemma_step_odd(131071, 4326791766630348883, 262143, 206761543466863628);
    lemma_step_odd(262143, 206761543466863628, 524287, 10086585273483141421);
    lemma_step_odd(524287, 10086585273483141421, 1048575, 1855730417186139594);
    lemma_step_odd(1048575, 1855730417186139594, 2097151, 7626447102712710903);
    lemma_step_odd(2097151, 7626447102712710903, 4194303, 7790920094560990216);
    lemma_step_odd(4194303, 7790920094560990216, 8388607, 5901922255895126089);
    lemma_step_odd(8388607, 5901922255895126089, 16777215, 8935258787870022506);
    lemma_step_odd(16777215, 8935258787870022506, 33554431, 13093775858033092690);
    lemma_step_odd(33554431, 13093775858033092690, 67108863, 11243737384857129666);
    lemma_step_odd(67108863, 11243737384857129666, 134217727, 2063617152444052883);
    lemma_step_odd(134217727, 2063617152444052883, 268435455, 13064848991504552222);
    lemma_step_odd(268435455, 13064848991504552222, 536870911, 16593403251012455084);
    lemma_step_odd(536870911, 16593403251012455084, 1073741823, 5859133952941131217);
    lemma_step_odd(1073741823, 5859133952941131217, 2147483647, 15659105665374529263);
    lemma_step_odd(2147483647, 15659105665374529263, 4294967295, 1753635133440165772);
    lemma_step_even(4294967295, 1753635133440165772, 8589934590, 4614640910117430873);
    lemma_step_even(8589934590, 4614640910117430873, 17179869180, 9123114210336311365);
    lemma_step_even(17179869180, 9123114210336311365, 34359738360, 16116352524544190054);
    lemma_step_even(34359738360, 16116352524544190054, 68719476720, 6414415596519834757);
    lemma_step_even(68719476720, 6414415596519834757, 137438953440, 1213594585890690845);
    lemma_step_even(137438953440, 1213594585890690845, 274877906880, 17096174751763063430);
    lemma_step_even(274877906880, 17096174751763063430, 549755813760, 5456943929260765144);
    lemma_step_even(549755813760, 5456943929260765144, 1099511627520, 9713644485405565297);
    lemma_step_even(1099511627520, 9713644485405565297, 2199023255040, 16905767614792059275);
    lemma_step_even(2199023255040, 16905767614792059275, 4398046510080, 5416168637041100469);
    lemma_step_even(4398046510080, 5416168637041100469, 8796093020160, 17654865857378133588);
    lemma_step_even(8796093020160, 17654865857378133588, 17592186040320, 3511170319078647661);
    lemma_step_even(17592186040320, 3511170319078647661, 35184372080640, 18146160046829613826);
    lemma_step_even(35184372080640, 18146160046829613826, 70368744161280, 9306717745644682924);
    lemma_step_even(70368744161280, 9306717745644682924, 140737488322560, 12380578893860276750);
    lemma_step_even(140737488322560, 12380578893860276750, 281474976645120, 6115771955107415310);
    lemma_step_even(281474976645120, 6115771955107415310, 562949953290240, 17776499369601055404);
    lemma_step_even(562949953290240, 17776499369601055404, 1125899906580480, 16207902636198568418);
    lemma_step_even(1125899906580480, 16207902636198568418, 2251799813160960, 1532612707718625687);
    lemma_step_even(2251799813160960, 1532612707718625687, 4503599626321920, 17492915097719143606);
    lemma_step_even(4503599626321920, 17492915097719143606, 9007199252643840, 455906449640507599);
    lemma_step_even(9007199252643840, 455906449640507599, 18014398505287680, 11353340290879379826);
    lemma_step_even(18014398505287680, 11353340290879379826, 36028797010575360, 1803076106186727246);
    lemma_step_even(36028797010575360, 1803076106186727246, 72057594021150720, 13797081185216407910);
    lemma_step_even(72057594021150720, 13797081185216407910, 144115188042301440, 17870292113338400769);
    lemma_step_even(144115188042301440, 17870292113338400769, 288230376084602880, 549755813888);
    lemma_step_even(288230376084602880, 549755813888, 576460752169205760, 70368744161280);
    lemma_step_even(576460752169205760, 70368744161280, 1152921504338411520, 17293822564807737345);
    lemma_step_even(1152921504338411520, 17293822564807737345, 2305843008676823040, 18446744069397807105);
    lemma_step_even(2305843008676823040, 18446744069397807105, 4611686017353646080, 281474976710656);
    lemma_step_even(4611686017353646080, 281474976710656, 9223372034707292160, 18446744069414584320);
}

/// `7^((order - 1) / 3)` and its square, neither of which is one.
pub proof fn lemma_seven_is_no_cube()
    ensures
        pow(7, 6148914689804861440) % (MODULUS as int) == 18446744065119617025,
        pow(7, 12297829379609722880) % (MODULUS as int) == 4294967295,
{
    lemma_pow1(7);
    lemma_step_even(1, 7, 2, 49);
    lemma_step_odd(2, 49, 5, 16807);
    lemma_step_even(5, 16807, 10, 282475249);
    lemma_step_odd(10, 282475249, 21, 558545864083284007);
    lemma_step_even(21, 558545864083284007, 42, 8022122801911579307);
    lemma_step_odd(42, 8022122801911579307, 85, 12800950874161730379);
    lemma_step_even(85, 12800950874161730379, 170, 14271156885488964304);
    lemma_step_odd(170, 14271156885488964304, 341, 9587782661304029968);
    lemma_step_even(341, 9587782661304029968, 682, 10276868313419320864);
    lemma_step_odd(682, 10276868313419320864, 1365, 15061306595140985043);
    lemma_step_even(1365, 15061306595140985043, 2730, 10087193495066827832);
    lemma_step_odd(2730, 10087193495066827832, 5461, 12984983231508602376);
    lemma_step_even(5461, 12984983231508602376, 10922, 1362657970957379548);
    lemma_step_odd(10922, 1362657970957379548, 21845, 11834541208736377360);
    lemma_step_even(21845, 11834541208736377360, 43690, 15486580570079272365);
    lemma_step_odd(43690, 15486580570079272365, 87381, 2195267778297645936);
    lemma_step_even(87381, 2195267778297645936, 174762, 12545318111885672966);
    lemma_step_odd(174762, 12545318111885672966, 349525, 3239519442280833256);
    lemma_step_even(349525, 3239519442280833256, 699050, 11109814195885452171);
    lemma_step_odd(699050, 11109814195885452171, 1398101, 4804669246163822745);
    lemma_step_even(1398101, 4804669246163822745, 2796202, 438903447396483212);
    lemma_step_odd(2796202, 438903447396483212, 5592405, 5017700972839514350);
    lemma_step_even(5592405, 5017700972839514350, 11184810, 7499557959359525151);
    lemma_step_odd(11184810, 7499557959359525151, 22369621, 8616883547669016587);
    lemma_step_even(22369621, 8616883547669016587, 44739242, 458110968676413213);
    lemma_step_odd(44739242, 458110968676413213, 89478485, 11751894947584113056);
    lemma_step_even(89478485, 11751894947584113056, 178956970, 525895266577965633);
    lemma_step_odd(178956970, 525895266577965633, 357913941, 3177182820897284811);
    lemma_step_even(357913941, 3177182820897284811, 715827882, 7964267603545906836);
    lemma_step_odd(715827882, 7964267603545906836, 1431655765, 14159254819154955796);
    lemma_step_even(1431655765, 14159254819154955796, 2863311530, 998724450546658713);
    lemma_step_even(2863311530, 998724450546658713, 5726623060, 1811047956385014016);
    lemma_step_even(5726623060, 1811047956385014016, 11453246120, 2957134717709447844);
    lemma_step_even(11453246120, 2957134717709447844, 22906492240, 8418656202527058970);
    lemma_step_even(22906492240, 8418656202527058970, 45812984480, 9344165103595421707);
    lemma_step_even(45812984480, 9344165103595421707, 91625968960, 12398472707942400981);
    lemma_step_even(91625968960, 12398472707942400981, 183251937920, 10977358340789161543);
    lemma_step_even(183251937920, 10977358340789161543, 366503875840, 14519574879452399500);
    lemma_step_even(366503875840, 14519574879452399500, 733007751680, 3056692624244734627);
    lemma_step_even(733007751680, 3056692624244734627, 1466015503360, 17973258314804772181);
    lemma_step_even(1466015503360, 17973258314804772181, 2932031006720, 15462695660743809749);
    lemma_step_even(2932031006720, 15462695660743809749, 5864062013440, 18046908317468628738);
    lemma_step_even(5864062013440, 18046908317468628738, 11728124026880, 9144605907772536802);
    lemma_step_even(11728124026880, 9144605907772536802, 23456248053760, 8796482344486648840);
    lemma_step_even(23456248053760, 8796482344486648840, 46912496107520, 3596945015050375886);
    lemma_step_even(46912496107520, 3596945015050375886, 93824992215040, 4201997653601256896);
    lemma_step_even(93824992215040, 4201997653601256896, 187649984430080, 6905479200839918232);
    lemma_step_even(187649984430080, 6905479200839918232, 375299968860160, 1725491680989254570);
    lemma_step_even(375299968860160, 1725491680989254570, 750599937720320, 12370230134295797906);
    lemma_step_even(750599937720320, 12370230134295797906, 1501199875440640, 3734230229149707555);
    lemma_step_even(1501199875440640, 3734230229149707555, 3002399750881280, 16496341184493220914);
    lemma_step_even(3002399750881280, 16496341184493220914, 6004799501762560, 15331777707844533717);
    lemma_step_even(6004799501762560, 15331777707844533717, 12009599003525120, 11895029263313522992);
    lemma_step_even(12009599003525120, 11895029263313522992, 24019198007050240, 11373273867503537004);
    lemma_step_even(24019198007050240, 11373273867503537004, 48038396014100480, 13835058050987180033);
    lemma_step_even(48038396014100480, 13835058050987180033, 96076792028200960, 35184372080640);
    lemma_step_even(96076792028200960, 35184372080640, 192153584056401920, 18158513693262872577);
    lemma_step_even(192153584056401920, 18158513693262872577, 384307168112803840, 18446744069413535745);
    lemma_step_even(384307168112803840, 18446744069413535745, 768614336225607680, 1099511627776);
    lemma_step_even(768614336225607680, 1099511627776, 1537228672451215360, 281474976645120);
    lemma_step_even(1537228672451215360, 281474976645120, 3074457344902430720, 18446744065119617026);
    lemma_step_even(3074457344902430720, 18446744065119617026, 6148914689804861440, 18446744065119617025);
    lemma_step_even(6148914689804861440, 18446744065119617025, 12297829379609722880, 4294967295);
}

/// `x` is congruent to `-1` modulo `q`.
pub open spec fn is_minus_one(x: int, q: int) -> bool {
    x % q == q - 1
}

/// Powers of `-1`.
pub proof fn lemma_minus_one_pow(x: int, d: nat, q: int)
    requires
        q > 2,
        is_minus_one(x, q),
    ensures
        d % 2 == 1 ==> is_minus_one(pow(x, d), q),
        d % 2 == 0 ==> pow(x, d) % q == 1,
    decreases d,
{
    if d == 0 {
        lemma_pow0(x);
        lemma_small_mod(1, q as nat);
    } else {
        let e = (d - 1) as nat;
        lemma_minus_one_pow(x, e, q);
        lemma_pow_adds(x, e, 1);
        lemma_pow1(x);
        let p = pow(x, e);
        lemma_mul_mod_noop_general(p, x, q);
        if d % 2 == 1 {
            assert(p % q == 1);
            assert(((p % q) * (x % q)) == q - 1);
            lemma_small_mod((q - 1) as nat, q as nat);
        } else {
            assert(p % q == q - 1);
            assert((q - 1) * (q - 1) == q * (q - 2) + 1) by (nonlinear_arith);
            lemma_fundamental_div_mod_converse((q - 1) * (q - 1), q, q - 2, 1);
        }
    }
}

/// If `b^(2^m)` is `-1` modulo `q`, no smaller positive power than the
/// `2^(m+1)`-th is one.
pub proof fn lemma_no_small_order(b: int, m: nat, d: nat, q: int)
    requires
        q > 2,
        is_minus_one(pow(b, pow2(m)), q),
        0 < d < pow2(m + 1),
    ensures
        pow(b, d) % q != 1,
    decreases m,
{
    lemma_pow2_unfold(m + 1);
    if d % 2 == 1 {
        lemma_pow_multiplies(b, pow2(m), d);
        lemma_pow_multiplies(b, d, pow2(m));
        lemma_minus_one_pow(pow(b, pow2(m)), d, q);
        lemma_pow_mod_noop(pow(b, d), pow2(m), q);
        lemma1_pow(pow2(m));
        lemma_small_mod(1, q as nat);
        assert(pow2(m) * d == d * pow2(m)) by (nonlinear_arith);
    } else {
        let h = d / 2;
        if m == 0 {
            lemma2_to64();
        }
        lemma_pow2_unfold(m);
        let b2 = pow(b, 2);
        let m1 = (m - 1) as nat;
        lemma_pow_multiplies(b, 2, pow2(m1));
        lemma_pow_multiplies(b, 2, h);
        lemma_no_small_order(b2, m1, h, q);
    }
}

proof fn lemma_divisor_of_modulus_mod(x: int, q: int, e: int)
    requires
        q > 2,
        q * e == MODULUS,
        x % (MODULUS as int) == MODULUS - 1,
    ensures
        is_minus_one(x, q),
{
    let n = MODULUS as int;
    lemma_fundamental_div_mod(x, n);
    let t = x / n;
    assert(x == n * t + n - 1);
    assert(x == q * (e * t + e - 1) + (q - 1)) by (nonlinear_arith)
        requires
            x == n * t + n - 1,
            q * e == n,
    ;
    lemma_fundamental_div_mod_converse(x, q, e * t + e - 1, q - 1);
}

/// A small divisor above two is impossible.
proof fn lemma_no_small_divisor(q: int, e: int)
    requires
        2 < q <= 0x1_0000_0000,
    ensures
        q * e != MODULUS,
{
    if q * e == MODULUS {
        lemma_seven_is_a_non_residue();
        lemma2_to64();
        let b = pow(7, 0xFFFF_FFFF);
        assert(pow2(31) == 0x8000_0000);
        assert(pow2(32) == 0x1_0000_0000);
        lemma_pow_multiplies(7, 0xFFFF_FFFF, 0x8000_0000);
        lemma_divisor_of_modulus_mod(pow(b, pow2(31)), q, e);
        let top: nat = 0x1_0000_0000;
        let powers = Seq::new(top, |i: int| pow(b, i as nat) % q);
        // The `2^32`-th power is one, so every power has an inverse modulo `q`.
        lemma_pow_multiplies(b, pow2(31), 2);
        lemma_minus_one_pow(pow(b, pow2(31)), 2, q);
        assert(pow(b, top) % q == 1);
        assert forall|i: int, j: int| 0 <= i < j < top implies powers[i] != powers[j] by {
            if powers[i] == powers[j] {
                let d = (j - i) as nat;
                let r = (top - i) as nat;
                lemma_pow_adds(b, i as nat, r);
                lemma_pow_adds(b, j as nat, r);
                lemma_pow_adds(b, top, d);
                lemma_mul_mod_noop_general(pow(b, i as nat), pow(b, r), q);
                lemma_mul_mod_noop_general(pow(b, j as nat), pow(b, r), q);
                lemma_mul_mod_noop_general(pow(b, top), pow(b, d), q);
                assert(1 * (pow(b, d) % q) == pow(b, d) % q) by (nonlinear_arith);
                lemma_mod_bound(pow(b, d), q);
                lemma_small_mod((pow(b, d) % q) as nat, q as nat);
                assert((i as nat) + r == top);
                assert((j as nat) + r == top + d);
                lemma_no_small_order(b, 31, d, q);
            }
        }
        assert forall|i: int| 0 <= i < top implies 1 <= #[trigger] powers[i] < q by {
            lemma_mod_bound(pow(b, i as nat), q);
            if powers[i] == 0 {
                let r = (top - i) as nat;
                lemma_pow_adds(b, i as nat, r);
                lemma_mul_mod_noop_general(pow(b, i as nat), pow(b, r), q);
                assert(0 * (pow(b, r) % q) == 0) by (nonlinear_arith);
                assert((i as nat) + r == top);
                lemma_small_mod(0, q as nat);
            }
        }
        assert(powers.no_duplicates());
        powers.unique_seq_to_set();
        let range = set_int_range(1, q);
        lemma_int_range(1, q);
        assert(powers.to_set().subset_of(range));
        lemma_len_subset(powers.to_set(), range);
    }
}

/// The field's order has no divisor between one and itself.
pub proof fn lemma_modulus_is_prime(d: int)
    requires
        1 < d < MODULUS,
    ensures
        (MODULUS as int) % d != 0,
{
    let n = MODULUS as int;
    if n % d == 0 {
        lemma_fundamental_div_mod(n, d);
        let e = n / d;
        assert(d * e == n);
        if d == 2 {
            assert(n % 2 == 1);
        }
        assert(e > 1) by (nonlinear_arith)
            requires
                d * e == n,
                1 < d < n,
        ;
        assert(e != 2) by {
            if e == 2 {
                assert(n == 2 * d) by (nonlinear_arith)
                    requires
                        d * e == n,
                        e == 2,
                ;
            }
        }
        if d <= 0x1_0000_0000 {
            lemma_no_small_divisor(d, e);
        } else if e <= 0x1_0000_0000 {
            assert(e * d == n) by (nonlinear_arith)
                requires
                    d * e == n,
            ;
            lemma_no_small_divisor(e, d);
        } else {
            assert(d * e > 0x1_0000_0000 * 0x1_0000_0000) by (nonlinear_arith)
                requires
                    d > 0x1_0000_0000,
                    e > 0x1_0000_0000,
            ;
        }
    }
}

} // verus!
