//! The generators of both curves over the field of `2^31 - 1` elements lie
//! in the subgroups that scalar multiplication is made for, and so do their
//! multiples. The multiples that show it are computed step by step, each
//! step from the inverse, the slope and the quotients that it takes.
use crate::affine::generator;
use crate::associativity::lemma_affine_add_inverse;
use crate::endomorphism::{lemma_scale_x_add, scale_x};
use crate::field::Field;
use crate::jacobian::{affine_identity, finite};
use crate::m31::{
    lemma_fq_modulus_prime, lemma_isogenous_subgroup, M31IsogenousParameters, M31Parameters,
};
use crate::modular::{congruent, lemma_congruent_shift, lemma_fneg_value, lemma_residue};
use crate::multiples::{
    lemma_double_multiple, lemma_multiple_is_curve_point, lemma_next_multiple,
    lemma_small_multiples, lemma_times_of_identity, lemma_times_of_sum, lemma_times_successor,
    multiple, times,
};
use crate::multiplication::{endomorphism_multiplies, in_subgroup, lemma_subgroup_holds_multiples};
use crate::parameters::Parameters;
use vstd::prelude::*;

verus! {

/// The multiple of the generator by 315, on the way.
proof fn lemma_isogenous_generator_chain_1()
    ensures
        times(2147483647, 29, 315, finite(172902292, 1003529148)) == finite(2095284219, 1553651369),
{
    let (p, a, b) = (2147483647int, 29int, 1948768455int);
    let g = finite(172902292, 1003529148);
    lemma_fq_modulus_prime();
    M31IsogenousParameters::lemma_curve();
    M31IsogenousParameters::lemma_generator();
    lemma_small_multiples(p, a, b, g);
    lemma_double_multiple(
        p, a, b, g, 1, finite(172902292, 1003529148), finite(1201984584, 1621851749),
        557579075, 210867662, (521118617, 23286239349213479, 20705708, -101048583),
    );
    lemma_double_multiple(
        p, a, b, g, 2, finite(1201984584, 1621851749), finite(649951661, 2004106167),
        872284425, 341481258, (1317556967, 1760545699282409061, 54300505, 87781294),
    );
    lemma_double_multiple(
        p, a, b, g, 4, finite(649951661, 2004106167), finite(495193418, 890637277),
        317200375, 986988117, (592044767, 187191962470506989, 453621867, 71127221),
    );
    lemma_next_multiple(
        p, a, b, g, 8, finite(495193418, 890637277), finite(198493152, 971518951),
        31051956, 1907876169, (-4660231, 1632381, 1695003117, 263595658),
    );
    lemma_double_multiple(
        p, a, b, g, 9, finite(198493152, 971518951), finite(660787489, 655649740),
        1775105888, 913415214, (1606111425, 97702732573709902, 388513949, -196633247),
    );
    lemma_next_multiple(
        p, a, b, g, 18, finite(660787489, 655649740), finite(908773905, 76275985),
        796754401, 2038336338, (-181014034, 129069410, 1934736514, -235382339),
    );
    lemma_double_multiple(
        p, a, b, g, 19, finite(908773905, 76275985), finite(2092142655, 1172709969),
        2065803560, 1298498883, (146749617, 2383373503193028931, 785151192, -715536532),
    );
    lemma_next_multiple(
        p, a, b, g, 38, finite(2092142655, 1172709969), finite(190138068, 1078712722),
        1099268539, 804324691, (-982433814, -86601430, 301254078, 712382258),
    );
    lemma_double_multiple(
        p, a, b, g, 39, finite(190138068, 1078712722), finite(343139240, 1549472155),
        1545863172, 1410879124, (1553019761, 78072950728479584, 926936000, -100520515),
    );
    lemma_double_multiple(
        p, a, b, g, 78, finite(343139240, 1549472155), finite(1900495309, 1913764738),
        149493158, 1890607350, (215727357, 24589713898329256, 1664457913, -1371069269),
    );
    lemma_next_multiple(
        p, a, b, g, 156, finite(1900495309, 1913764738), finite(1866120375, 1760766364),
        578951174, 856847040, (-465750697, -245395100, 341882392, 13715614),
    );
    lemma_double_multiple(
        p, a, b, g, 157, finite(1866120375, 1760766364), finite(1916474560, 1546662521),
        1722879036, 1468142117, (2825248481, 8381572099984240741, 1003705557, -34424990),
    );
    lemma_next_multiple(
        p, a, b, g, 314, finite(1916474560, 1546662521), finite(2095284219, 1553651369),
        366099828, 1914793887, (-297241615, -92592573, 1707317134, -159434809),
    );
}

/// The multiple of the generator by 645264, on the way.
proof fn lemma_isogenous_generator_chain_2()
    ensures
        times(2147483647, 29, 645264, finite(172902292, 1003529148)) == finite(290545234, 1942431739),
{
    let (p, a, b) = (2147483647int, 29int, 1948768455int);
    let g = finite(172902292, 1003529148);
    lemma_fq_modulus_prime();
    M31IsogenousParameters::lemma_curve();
    M31IsogenousParameters::lemma_generator();
    lemma_isogenous_generator_chain_1();
    lemma_double_multiple(
        p, a, b, g, 315, finite(2095284219, 1553651369), finite(1271485291, 1716140408),
        569170941, 2143027309, (823562231, 3490760013545709989, 2138580216, 822089425),
    );
    lemma_double_multiple(
        p, a, b, g, 630, finite(1271485291, 1716140408), finite(80122911, 1798325317),
        549187623, 1587488292, (877755761, 1240323040395290412, 1173521893, 880693005),
    );
    lemma_double_multiple(
        p, a, b, g, 1260, finite(80122911, 1798325317), finite(841290592, 1015082967),
        1740523964, 1447248484, (2915066025, 15609350608168932, 975340686, -512971904),
    );
    lemma_double_multiple(
        p, a, b, g, 2520, finite(841290592, 1015082967), finite(1350358124, 1703214965),
        695111577, 766149841, (657137411, 687286756789187708, 273336459, -181618152),
    );
    lemma_next_multiple(
        p, a, b, g, 5040, finite(1350358124, 1703214965), finite(903455236, 1294112226),
        407988989, 894527482, (-223698567, -132929585, 372612576, 186155975),
    );
    lemma_double_multiple(
        p, a, b, g, 5041, finite(903455236, 1294112226), finite(2100568801, 1697906153),
        755433181, 2104840660, (910475213, 861391782222117211, 2063044441, -1173342257),
    );
    lemma_double_multiple(
        p, a, b, g, 10082, finite(2100568801, 1697906153), finite(144778875, 717348909),
        1329303950, 994305206, (2102026117, 8193878240680163702, 460372697, 905549202),
    );
    lemma_double_multiple(
        p, a, b, g, 20164, finite(144778875, 717348909), finite(411939930, 1160493855),
        345146999, 2061358978, (230586923, 10106618820221994, 1978688332, -256446582),
    );
    lemma_next_multiple(
        p, a, b, g, 40328, finite(411939930, 1160493855), finite(725110255, 589633835),
        809404242, 972853889, (-90095251, -59161289, 440722652, -141872545),
    );
    lemma_double_multiple(
        p, a, b, g, 40329, finite(725110255, 589633835), finite(985347679, 2145276370),
        1010155994, 2074887829, (554716357, 741972704780407701, 2004746116, -251440083),
    );
    lemma_double_multiple(
        p, a, b, g, 80658, finite(985347679, 2145276370), finite(385209637, 1935295170),
        1114848278, 1118889370, (2227404777, 1512119634327118938, 582967615, 312686000),
    );
    lemma_double_multiple(
        p, a, b, g, 161316, finite(385209637, 1935295170), finite(1870401427, 97890039),
        1618456281, 1021861604, (2917079837, 335495461006227196, 486244045, -706715727),
    );
    lemma_double_multiple(
        p, a, b, g, 322632, finite(1870401427, 97890039), finite(290545234, 1942431739),
        1898731089, 2040326797, (173102003, 9279498396513084341, 1938516943, 1501023269),
    );
}

/// The generator of the second curve, times the order of the subgroup less
/// one, is its inverse.
proof fn lemma_isogenous_generator_chain()
    ensures
        times(2147483647, 29, 165188040, finite(172902292, 1003529148)) == finite(172902292, 1143954499),
{
    let (p, a, b) = (2147483647int, 29int, 1948768455int);
    let g = finite(172902292, 1003529148);
    lemma_fq_modulus_prime();
    M31IsogenousParameters::lemma_curve();
    M31IsogenousParameters::lemma_generator();
    lemma_isogenous_generator_chain_2();
    lemma_next_multiple(
        p, a, b, g, 645264, finite(290545234, 1942431739), finite(60942467, 270809230),
        944591400, 596541461, (-51746383, -412985363, 165711024, 63780494),
    );
    lemma_double_multiple(
        p, a, b, g, 645265, finite(60942467, 270809230), finite(987208933, 1730441883),
        2110797332, 614631329, (532365777, 10951610451803969, 175913642, -265106741),
    );
    lemma_next_multiple(
        p, a, b, g, 1290530, finite(987208933, 1730441883), finite(1836919522, 746776998),
        938133260, 1048541457, (-355731763, -317553531, 511966266, -414884082),
    );
    lemma_double_multiple(
        p, a, b, g, 1290531, finite(1836919522, 746776998), finite(1390792350, 1303121272),
        1898281148, 1338870156, (1320236081, 8948127907839577456, 834731986, 278142446),
    );
    lemma_next_multiple(
        p, a, b, g, 2581062, finite(1390792350, 1303121272), finite(917427623, 309791816),
        1946383076, 1713162641, (-1103841047, -271536895, 1366681528, 377628377),
    );
    lemma_double_multiple(
        p, a, b, g, 2581063, finite(917427623, 309791816), finite(1207388971, 1746582659),
        285195584, 1277268544, (82283521, 335334170635675200, 759686777, -172461621),
    );
    lemma_double_multiple(
        p, a, b, g, 5162126, finite(1207388971, 1746582659), finite(1762143124, 694792505),
        1237548395, 1793308937, (2013035647, 2520275336719451249, 1497546649, -463261075),
    );
    lemma_double_multiple(
        p, a, b, g, 10324252, finite(1762143124, 694792505), finite(778535562, 790948953),
        1518293370, 481241348, (982451117, 6586117038660770386, 107844002, 220421994),
    );
    lemma_next_multiple(
        p, a, b, g, 20648504, finite(778535562, 790948953), finite(291485845, 1024597470),
        317555007, 1680977123, (-89556853, 31434886, 1315811690, 381245944),
    );
    lemma_double_multiple(
        p, a, b, g, 20648505, finite(291485845, 1024597470), finite(1943708332, 1587413493),
        66765378, 1747325953, (63709577, 7924605302294897, 1421732821, -1344350742),
    );
    lemma_double_multiple(
        p, a, b, g, 41297010, finite(1943708332, 1587413493), finite(1174850913, 1797944432),
        1178091358, 12549704, (1741683221, 6217739921378759682, 73337, 4493133),
    );
    lemma_double_multiple(
        p, a, b, g, 82594020, finite(1174850913, 1797944432), finite(172902292, 1143954499),
        1448028986, 290156298, (2424675649, 2792120531918332234, 39204338, 135377841),
    );
}

/// The multiple of the generator by 315, on the way.
proof fn lemma_generator_chain_1()
    ensures
        times(2147483647, 0, 315, finite(2051576885, 897205941)) == finite(1854328137, 1548519496),
{
    let (p, a, b) = (2147483647int, 0int, 5int);
    let g = finite(2051576885, 897205941);
    lemma_fq_modulus_prime();
    M31Parameters::lemma_curve();
    M31Parameters::lemma_generator();
    lemma_small_multiples(p, a, b, g);
    lemma_double_multiple(
        p, a, b, g, 1, finite(2051576885, 897205941), finite(1689339888, 1745975480),
        580481586, 368343115, (485043533, 3413150444350485605, 63179361, 62132022),
    );
    lemma_double_multiple(
        p, a, b, g, 2, finite(1689339888, 1745975480), finite(1664204851, 561405425),
        347805541, 1038886987, (565554897, 1386634364819667275, 502581786, 12159562),
    );
    lemma_double_multiple(
        p, a, b, g, 4, finite(1664204851, 561405425), finite(976656724, 865174468),
        482632564, 946297894, (252344217, 1867332163343350634, 416990230, 302971035),
    );
    lemma_next_multiple(
        p, a, b, g, 8, finite(976656724, 865174468), finite(396935612, 390494863),
        1684334115, 765101702, (843091262, 25123219, 272589089, 206542019),
    );
    lemma_double_multiple(
        p, a, b, g, 9, finite(396935612, 390494863), finite(1267138573, 457628635),
        2145185988, 1014845380, (780154121, 472167912112624388, 479589749, -411235474),
    );
    lemma_next_multiple(
        p, a, b, g, 18, finite(1267138573, 457628635), finite(1358872051, 1805230714),
        1093110230, 431370336, (399294097, 223753252, 86650421, -18426731),
    );
    lemma_double_multiple(
        p, a, b, g, 19, finite(1358872051, 1805230714), finite(1645085280, 2118428119),
        1612307992, 1063153978, (2710696225, 4159072860306470834, 526335266, -141695485),
    );
    lemma_next_multiple(
        p, a, b, g, 38, finite(1645085280, 2118428119), finite(731935346, 1079890600),
        1809155995, 447799043, (342450442, -1028823399, 93376254, 190412469),
    );
    lemma_double_multiple(
        p, a, b, g, 39, finite(731935346, 1079890600), finite(1864782955, 301528902),
        594980067, 324348991, (598387217, 445286210350893275, 48988622, -171101643),
    );
    lemma_double_multiple(
        p, a, b, g, 78, finite(1864782955, 301528902), finite(1308977647, 490389282),
        740247014, 656494505, (207876665, 3596041005227785735, 200693044, 169911948),
    );
    lemma_next_multiple(
        p, a, b, g, 156, finite(1308977647, 490389282), finite(1997540325, 1752593222),
        490903753, 1657912533, (169754379, 92996202, 1279951056, -531588074),
    );
    lemma_double_multiple(
        p, a, b, g, 157, finite(1997540325, 1752593222), finite(1129332665, 1683489996),
        1923940577, 365565146, (3140312821, 10724428404023634607, 62229983, 147794586),
    );
    lemma_next_multiple(
        p, a, b, g, 314, finite(1129332665, 1683489996), finite(1854328137, 1548519496),
        770372928, 885947200, (330839297, -282065920, 365498679, -299097836),
    );
}

/// The multiple of the generator by 645264, on the way.
proof fn lemma_generator_chain_2()
    ensures
        times(2147483647, 0, 645264, finite(2051576885, 897205941)) == finite(1331469399, 668942102),
{
    let (p, a, b) = (2147483647int, 0int, 5int);
    let g = finite(2051576885, 897205941);
    lemma_fq_modulus_prime();
    M31Parameters::lemma_curve();
    M31Parameters::lemma_generator();
    lemma_generator_chain_1();
    lemma_double_multiple(
        p, a, b, g, 315, finite(1854328137, 1548519496), finite(211681675, 1833031301),
        344964313, 467825287, (497497585, 1657061911165272332, 101914860, 357847451),
    );
    lemma_double_multiple(
        p, a, b, g, 630, finite(211681675, 1833031301), finite(100521434, 2110991351),
        1857813979, 1573881322, (3171554931, 116294758837034849, 1153490700, 81468850),
    );
    lemma_double_multiple(
        p, a, b, g, 1260, finite(100521434, 2110991351), finite(579135693, 748902840),
        2112263100, 1809406676, (4152738617, 29816506169493892, 1524552945, -403266325),
    );
    lemma_double_multiple(
        p, a, b, g, 2520, finite(579135693, 748902840), finite(77742705, 197308518),
        393519161, 648052224, (274467857, 184381751819290269, 195564555, 151306782),
    );
    lemma_next_multiple(
        p, a, b, g, 5040, finite(77742705, 197308518), finite(571135437, 1255803668),
        833172145, 480298771, (765800317, 271543412, 107421962, -110350514),
    );
    lemma_double_multiple(
        p, a, b, g, 5041, finite(571135437, 1255803668), finite(1426524212, 364789933),
        1782528880, 1296956886, (2084771457, 812280783785070342, 783287530, -516605733),
    );
    lemma_double_multiple(
        p, a, b, g, 10082, finite(1426524212, 364789933), finite(692066901, 201444675),
        1835033046, 419021406, (623428805, 5216672506957993278, 81760313, 143308814),
    );
    lemma_double_multiple(
        p, a, b, g, 20164, finite(692066901, 201444675), finite(889962768, 1416392463),
        871963862, 1526010747, (163589117, 583426341743104137, 1084389537, -140625621),
    );
    lemma_next_multiple(
        p, a, b, g, 40328, finite(889962768, 1416392463), finite(1534483700, 425807849),
        1276936820, 1300846271, (690719037, -308718713, 787992504, -390420972),
    );
    lemma_double_multiple(
        p, a, b, g, 40329, finite(1534483700, 425807849), finite(2031156405, 2027455829),
        440073601, 762773990, (174517551, 1447575637521227830, 270932985, -176415324),
    );
    lemma_double_multiple(
        p, a, b, g, 80658, finite(2031156405, 2027455829), finite(467692517, 989202025),
        1930143321, 505303521, (3644526311, 11124171634488225582, 118898062, 367883502),
    );
    lemma_double_multiple(
        p, a, b, g, 161316, finite(467692517, 989202025), finite(2026329573, 1238417810),
        120191395, 979969882, (110728267, 36727012926000089, 447193611, -711259141),
    );
    lemma_double_multiple(
        p, a, b, g, 322632, finite(2026329573, 1238417810), finite(1331469399, 668942102),
        650862428, 1268897860, (750682897, 3733367622643024208, 749762065, 410576624),
    );
}

/// The generator of the first curve, times the order of the subgroup less
/// one, is its inverse.
proof fn lemma_generator_chain()
    ensures
        times(2147483647, 0, 165188040, finite(2051576885, 897205941)) == finite(2051576885, 1250277706),
{
    let (p, a, b) = (2147483647int, 0int, 5int);
    let g = finite(2051576885, 897205941);
    lemma_fq_modulus_prime();
    M31Parameters::lemma_curve();
    M31Parameters::lemma_generator();
    lemma_generator_chain_2();
    lemma_next_multiple(
        p, a, b, g, 645264, finite(1331469399, 668942102), finite(1776351670, 771577858),
        397735248, 1175364644, (133371041, 42276724, 643302706, -243493772),
    );
    lemma_double_multiple(
        p, a, b, g, 645265, finite(1776351670, 771577858), finite(220232395, 410926210),
        1818101415, 1218394700, (1306465637, 8014333142867541400, 691267495, 882878656),
    );
    lemma_next_multiple(
        p, a, b, g, 1290530, finite(220232395, 410926210), finite(670440061, 529587335),
        437555348, 123105197, (373141177, 99080753, 7057044, -25808301),
    );
    lemma_double_multiple(
        p, a, b, g, 1290531, finite(670440061, 529587335), finite(1043476098, 723525822),
        529079142, 1278711344, (260950637, 332224719768928366, 761404028, -222122955),
    );
    lemma_next_multiple(
        p, a, b, g, 2581062, finite(1043476098, 723525822), finite(946191107, 2063515208),
        1408914128, 2020125202, (661391505, 113947490, 1900319862, 91515416),
    );
    lemma_double_multiple(
        p, a, b, g, 2581063, finite(946191107, 2063515208), finite(323050021, 200967984),
        607065873, 1139669505, (1166658161, 759250230246376758, 604822570, 330700954),
    );
    lemma_double_multiple(
        p, a, b, g, 5162126, finite(323050021, 200967984), finite(2032275997, 1340754815),
        199923303, 279458319, (37418849, 29147033146783650, 36366726, -222426569),
    );
    lemma_double_multiple(
        p, a, b, g, 10324252, finite(2032275997, 1340754815), finite(224427579, 912552288),
        1170985734, 1121377001, (1462180877, 6756291346243303111, 585562724, 944025645),
    );
    lemma_next_multiple(
        p, a, b, g, 20648504, finite(224427579, 912552288), finite(1740277876, 7068135),
        1061346188, 400991788, (903028041, -7584592, 74875732, -283049197),
    );
    lemma_double_multiple(
        p, a, b, g, 20648505, finite(1740277876, 7068135), finite(2146861186, 27603866),
        1087551022, 1015956603, (7159037, 4601275405069340379, 480640593, -192351173),
    );
    lemma_double_multiple(
        p, a, b, g, 41297010, finite(2146861186, 27603866), finite(2053403461, 739101864),
        217054867, 2100468910, (5580069, 1397554800501128138, 2054483461, 91411660),
    );
    lemma_double_multiple(
        p, a, b, g, 82594020, finite(2053403461, 739101864), finite(2051576885, 1250277706),
        1354226470, 1936916648, (932171297, 7976847090544800646, 1746996351, 1647474),
    );
}

/// The multiple of the generator by 796, on the way.
proof fn lemma_generator_lambda_chain_1()
    ensures
        times(2147483647, 0, 796, finite(2051576885, 897205941)) == finite(127749100, 295118157),
{
    let (p, a, b) = (2147483647int, 0int, 5int);
    let g = finite(2051576885, 897205941);
    lemma_fq_modulus_prime();
    M31Parameters::lemma_curve();
    M31Parameters::lemma_generator();
    lemma_small_multiples(p, a, b, g);
    lemma_double_multiple(
        p, a, b, g, 1, finite(2051576885, 897205941), finite(1689339888, 1745975480),
        580481586, 368343115, (485043533, 3413150444350485605, 63179361, 62132022),
    );
    lemma_next_multiple(
        p, a, b, g, 2, finite(1689339888, 1745975480), finite(1478139444, 975747453),
        1721014948, 1590095944, (290300365, -680212428, 1177380377, 156382549),
    );
    lemma_double_multiple(
        p, a, b, g, 3, finite(1478139444, 975747453), finite(442998485, 1347387355),
        520547485, 1321247160, (473040047, 1588848741781250760, 812902141, 636874256),
    );
    lemma_double_multiple(
        p, a, b, g, 6, finite(442998485, 1347387355), finite(260481711, 735792100),
        1572822067, 749062830, (1973659327, 431196736345104285, 261280277, 63663595),
    );
    lemma_double_multiple(
        p, a, b, g, 12, finite(260481711, 735792100), finite(604127481, 668609904),
        1124258018, 1316923805, (770408817, 106564329016196407, 807590926, -210737482),
    );
    lemma_double_multiple(
        p, a, b, g, 24, finite(604127481, 668609904), finite(375812503, 1953734027),
        951409787, 1790984888, (592434785, 485083148036527639, 1493667657, 190412939),
    );
    lemma_next_multiple(
        p, a, b, g, 48, finite(375812503, 1953734027), finite(1330271557, 1923466561),
        1834142150, 1638121864, (1431251917, -902369012, 1249575633, -728070852),
    );
    lemma_double_multiple(
        p, a, b, g, 49, finite(1330271557, 1923466561), finite(187355980, 117820026),
        256416655, 612622743, (459336547, 633896319994356786, 174765765, 326044892),
    );
    lemma_next_multiple(
        p, a, b, g, 98, finite(187355980, 117820026), finite(793941117, 1692497267),
        93396356, 747828465, (81076957, 33896325, 260419869, -211234034),
    );
    lemma_double_multiple(
        p, a, b, g, 99, finite(793941117, 1692497267), finite(1722065511, 987008131),
        190843624, 1805985966, (300819345, 168052753333381686, 1518794013, -780531966),
    );
    lemma_next_multiple(
        p, a, b, g, 198, finite(1722065511, 987008131), finite(1991741938, 610471813),
        1632361272, 354282490, (250470641, -68261110, 58447978, -44490042),
    );
    lemma_double_multiple(
        p, a, b, g, 199, finite(1991741938, 610471813), finite(675980085, 1760735876),
        1543445100, 93437263, (877519817, 8553595558292811071, 4065464, 57248950),
    );
    lemma_double_multiple(
        p, a, b, g, 398, finite(675980085, 1760735876), finite(127749100, 295118157),
        40315630, 690420890, (66110097, 25735501932750880, 221971890, 176257511),
    );
}

/// The multiple of the generator by 408114, on the way.
proof fn lemma_generator_lambda_chain_2()
    ensures
        times(2147483647, 0, 408114, finite(2051576885, 897205941)) == finite(2047865643, 1643126917),
{
    let (p, a, b) = (2147483647int, 0int, 5int);
    let g = finite(2051576885, 897205941);
    lemma_fq_modulus_prime();
    M31Parameters::lemma_curve();
    M31Parameters::lemma_generator();
    lemma_generator_lambda_chain_1();
    lemma_next_multiple(
        p, a, b, g, 796, finite(127749100, 295118157), finite(1190020894, 268285990),
        1960450482, 1434672799, (1756273727, 549649487, 958464126, -709673599),
    );
    lemma_double_multiple(
        p, a, b, g, 797, finite(1190020894, 268285990), finite(1063219154, 943500644),
        764707460, 923792424, (191070417, 1512850069584198648, 397391822, 54546858),
    );
    lemma_double_multiple(
        p, a, b, g, 1594, finite(1063219154, 943500644), finite(1100964084, 689753283),
        888662624, 527684008, (780870913, 1403375491497594152, 129663576, -9274761),
    );
    lemma_double_multiple(
        p, a, b, g, 3188, finite(1100964084, 689753283), finite(1707142809, 1946374784),
        1756607684, 2037355300, (1128414569, 2974489707763050596, 1932874609, -575092361),
    );
    lemma_double_multiple(
        p, a, b, g, 6376, finite(1707142809, 1946374784), finite(295860819, 1591296583),
        1140621245, 1343258958, (2067607297, 4643789784148093191, 840213441, 882762099),
    );
    lemma_next_multiple(
        p, a, b, g, 12752, finite(295860819, 1591296583), finite(693124521, 1366035781),
        2000752425, 1785647769, (1635753167, -646665477, 1484778688, -330327566),
    );
    lemma_double_multiple(
        p, a, b, g, 12753, finite(693124521, 1366035781), finite(1228462606, 1317829138),
        1081627779, 996910695, (1376068451, 725924992249285326, 462788591, -248516102),
    );
    lemma_next_multiple(
        p, a, b, g, 25506, finite(1228462606, 1317829138), finite(15487907, 1221894273),
        1660552421, 1941287417, (636477214, -325248982, 1754889653, 1096507776),
    );
    lemma_double_multiple(
        p, a, b, g, 25507, finite(15487907, 1221894273), finite(747610099, 468315852),
        1901123178, 1735842624, (2163435821, 637069935427986, 1403107129, -591785139),
    );
    lemma_double_multiple(
        p, a, b, g, 51014, finite(747610099, 468315852), finite(1783959318, 1200685439),
        641768922, 428303140, (279909521, 501095370464838758, 85422572, -206693833),
    );
    lemma_double_multiple(
        p, a, b, g, 102028, finite(1783959318, 1200685439), finite(1249484969, 2140557306),
        2134004790, 2142188954, (2386298477, 9487606674828946258, 2136907313, 533156583),
    );
    lemma_next_multiple(
        p, a, b, g, 204056, finite(1249484969, 2140557306), finite(64185152, 1591551852),
        557729504, 1173994654, (208313729, -322914562, 641803930, 647984280),
    );
    lemma_double_multiple(
        p, a, b, g, 204057, finite(64185152, 1591551852), finite(2047865643, 1643126917),
        499972936, 1291834494, (741083969, 2877445015753854, 777112487, -1193297509),
    );
}

/// The generator of the first curve, times `lambda`, is its image under
/// the endomorphism.
proof fn lemma_generator_lambda_chain()
    ensures
        times(2147483647, 0, 52238662, finite(2051576885, 897205941)) == finite(104818282, 897205941),
{
    let (p, a, b) = (2147483647int, 0int, 5int);
    let g = finite(2051576885, 897205941);
    lemma_fq_modulus_prime();
    M31Parameters::lemma_curve();
    M31Parameters::lemma_generator();
    lemma_generator_lambda_chain_2();
    lemma_double_multiple(
        p, a, b, g, 408114, finite(2047865643, 1643126917), finite(581659677, 1100051965),
        1747025131, 658928713, (2673439699, 10235132318234614352, 202184098, 449887108),
    );
    lemma_next_multiple(
        p, a, b, g, 816228, finite(581659677, 1100051965), finite(32504398, 273904486),
        595214268, 111979540, (407414369, -56222476, 5839120, 28635447),
    );
    lemma_double_multiple(
        p, a, b, g, 816229, finite(32504398, 273904486), finite(1611984229, 1371809467),
        789757008, 475800788, (201461825, 1165652586892564, 105419377, -349952723),
    );
    lemma_double_multiple(
        p, a, b, g, 1632458, finite(1611984229, 1371809467), finite(460182702, 361125628),
        1918115101, 1632116242, (2450578339, 6962859484225021523, 1240430132, 875384537),
    );
    lemma_double_multiple(
        p, a, b, g, 3264916, finite(460182702, 361125628), finite(1181415844, 232835936),
        1668548098, 598864511, (561173521, 493617671597016295, 167004159, -201128858),
    );
    lemma_double_multiple(
        p, a, b, g, 6529832, finite(1181415844, 232835936), finite(746405905, 1720538923),
        948500875, 737679490, (205678017, 1849416410683817330, 253399381, 149429733),
    );
    lemma_next_multiple(
        p, a, b, g, 13059664, finite(746405905, 1720538923), finite(2114670572, 725788933),
        2050079700, 1572925255, (1245972017, -785988865, 1152089729, -1002186003),
    );
    lemma_double_multiple(
        p, a, b, g, 13059665, finite(2114670572, 725788933), finite(699349774, 782446204),
        1122512551, 1435318285, (758755195, 7012421913658067261, 959326781, 945961019),
    );
    lemma_next_multiple(
        p, a, b, g, 26119330, finite(699349774, 782446204), finite(743516778, 1408381783),
        316383596, 1690242327, (199220365, 16907275, 1330356636, -34762985),
    );
    lemma_double_multiple(
        p, a, b, g, 26119331, finite(743516778, 1408381783), finite(104818282, 897205941),
        793257177, 225058743, (1040481923, 612614039815305963, 23586413, 66936332),
    );
}

/// The generator of the second curve lies in the subgroup.
pub proof fn lemma_isogenous_generator_in_subgroup()
    ensures
        in_subgroup::<M31IsogenousParameters>(generator::<M31IsogenousParameters>()),
{
    let (p, a, b) = (2147483647int, 29int, 1948768455int);
    let g = finite(172902292, 1003529148);
    lemma_fq_modulus_prime();
    M31IsogenousParameters::lemma_curve();
    M31IsogenousParameters::lemma_generator();
    // (r - 1) * G = -G
    lemma_isogenous_generator_chain();
    lemma_fneg_value(p, 1003529148);
    lemma_times_successor(p, a, b, 165188040, g);
    lemma_affine_add_inverse(p, a, g);
    lemma_isogenous_subgroup(g);
}

/// The generator of the first curve, times the order of the subgroup, is
/// the point at infinity.
proof fn lemma_generator_order()
    ensures
        times(2147483647, 0, 165188041, finite(2051576885, 897205941)) == affine_identity(),
{
    let (p, a, b) = (2147483647int, 0int, 5int);
    let g = finite(2051576885, 897205941);
    lemma_fq_modulus_prime();
    M31Parameters::lemma_curve();
    M31Parameters::lemma_generator();
    // (r - 1) * G = -G
    lemma_generator_chain();
    lemma_fneg_value(p, 897205941);
    lemma_times_successor(p, a, b, 165188040, g);
    lemma_affine_add_inverse(p, a, g);
}

/// The endomorphism of the first curve multiplies every multiple of the
/// generator by `lambda`.
proof fn lemma_endomorphism_of_multiples(n: nat)
    ensures
        endomorphism_multiplies::<M31Parameters>(
            multiple(2147483647, 0, n, finite(2051576885, 897205941)),
        ),
    decreases n,
{
    let (p, a, b) = (2147483647int, 0int, 5int);
    let beta = 1513477735int;
    let lambda = 52238662int;
    let g = finite(2051576885, 897205941);
    lemma_fq_modulus_prime();
    M31Parameters::lemma_curve();
    M31Parameters::lemma_generator();
    lemma_residue(p, 0);
    lemma_residue(p, 1);
    assert(congruent(p, beta * beta * beta, 1)) by {
        assert(1513477735int * 1513477735 * 1513477735 == 1 + 1614352028406837642 * 2147483647);
        lemma_congruent_shift(p, 1, 1614352028406837642);
    }
    if n == 0 {
        assert(beta * 0 == 0);
        lemma_times_of_identity(p, a, b, lambda);
    } else {
        // the image of (n - 1) * G + G
        let before = multiple(p, a, (n - 1) as nat, g);
        lemma_endomorphism_of_multiples((n - 1) as nat);
        lemma_multiple_is_curve_point(p, a, b, (n - 1) as nat, g);
        lemma_scale_x_add(p, b, beta, before, g);
        lemma_times_of_sum(p, a, b, lambda, before, g);
        // the image of G is lambda * G
        lemma_generator_lambda_chain();
        assert(1513477735int * 2051576885 == 104818282 + 1445885719 * 2147483647);
        lemma_congruent_shift(p, 104818282, 1445885719);
        assert(scale_x(p, beta, g) == finite(104818282, 897205941));
    }
}

/// The generator of the first curve lies in the subgroup.
pub proof fn lemma_generator_in_subgroup()
    ensures
        in_subgroup::<M31Parameters>(generator::<M31Parameters>()),
{
    lemma_fq_modulus_prime();
    M31Parameters::lemma_curve();
    M31Parameters::lemma_generator();
    lemma_generator_order();
    assert forall|n: nat| #[trigger]
        endomorphism_multiplies::<M31Parameters>(
            multiple(2147483647, 0, n, finite(2051576885, 897205941)),
        ) by {
        lemma_endomorphism_of_multiples(n);
    }
}

/// Every multiple of the generator of either curve lies in the subgroup: on
/// the multiples of the generators, scalar multiplication multiplies.
pub proof fn lemma_multiples_in_subgroup(z: int)
    ensures
        in_subgroup::<M31Parameters>(
            times(2147483647, 0, z, generator::<M31Parameters>()),
        ),
        in_subgroup::<M31IsogenousParameters>(
            times(2147483647, 29, z, generator::<M31IsogenousParameters>()),
        ),
{
    lemma_generator_in_subgroup();
    lemma_isogenous_generator_in_subgroup();
    lemma_subgroup_holds_multiples::<M31Parameters>(generator::<M31Parameters>(), z);
    lemma_subgroup_holds_multiples::<M31IsogenousParameters>(
        generator::<M31IsogenousParameters>(),
        z,
    );
}

} // verus!
