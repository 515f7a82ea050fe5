//! Histograms of an image, in plain or logarithmic steps.

use crate::area::{lemma_cell, Window};
use crate::text::{append, append_signed, decimal, padded};
use vstd::arithmetic::power2::{
    lemma2_to64, lemma_pow2_adds, lemma_pow2_pos, lemma_pow2_strictly_increases, pow2,
};
use vstd::prelude::*;
use vstd::string::StringSliceAdditionalSpecFns;

verus! {

/// The tenth power.
pub open spec fn tenth(x: int) -> int {
    let a = x * x;
    let b = a * a;
    b * b * a
}

/// Whether `k` is the number of whole tenths of a doubling from one to `i`.
pub open spec fn is_steps(k: nat, i: int) -> bool {
    pow2(k) <= tenth(i) < pow2(k + 1)
}

/// The number of whole tenths of a doubling from one to `i`; zero where `i` is
/// not positive.
pub open spec fn steps(i: int) -> nat {
    if i <= 0 {
        0
    } else {
        choose|k: nat| is_steps(k, i)
    }
}

proof fn lemma_steps(k: nat, i: int)
    requires
        i > 0,
        is_steps(k, i),
    ensures
        steps(i) == k,
{
    let q = steps(i);
    if q < k {
        if q + 1 < k {
            lemma_pow2_strictly_increases(q + 1, k);
        }
    } else if k < q {
        if k + 1 < q {
            lemma_pow2_strictly_increases(k + 1, q);
        }
    }
}

proof fn lemma_tenth_monotone(a: int, b: int)
    requires
        0 <= a <= b,
    ensures
        0 <= tenth(a) <= tenth(b),
{
    let (a2, b2) = (a * a, b * b);
    assert(0 <= a2 <= b2) by (nonlinear_arith)
        requires
            0 <= a <= b,
            a2 == a * a,
            b2 == b * b,
    ;
    let (a4, b4) = (a2 * a2, b2 * b2);
    assert(0 <= a4 <= b4) by (nonlinear_arith)
        requires
            0 <= a2 <= b2,
            a4 == a2 * a2,
            b4 == b2 * b2,
    ;
    let (a8, b8) = (a4 * a4, b4 * b4);
    assert(0 <= a8 <= b8) by (nonlinear_arith)
        requires
            0 <= a4 <= b4,
            a8 == a4 * a4,
            b8 == b4 * b4,
    ;
    assert(0 <= a8 * a2 <= b8 * b2) by (nonlinear_arith)
        requires
            0 <= a8 <= b8,
            0 <= a2 <= b2,
    ;
}

proof fn lemma_tenth_of_product(x: int, y: int)
    ensures
        tenth(x * y) == tenth(x) * tenth(y),
{
    let (x2, y2) = (x * x, y * y);
    assert((x * y) * (x * y) == x2 * y2) by (nonlinear_arith)
        requires
            x2 == x * x,
            y2 == y * y,
    ;
    let (x4, y4) = (x2 * x2, y2 * y2);
    assert((x2 * y2) * (x2 * y2) == x4 * y4) by (nonlinear_arith)
        requires
            x4 == x2 * x2,
            y4 == y2 * y2,
    ;
    let (x8, y8) = (x4 * x4, y4 * y4);
    assert((x4 * y4) * (x4 * y4) == x8 * y8) by (nonlinear_arith)
        requires
            x8 == x4 * x4,
            y8 == y4 * y4,
    ;
    assert((x8 * y8) * (x2 * y2) == (x8 * x2) * (y8 * y2)) by (nonlinear_arith);
}

proof fn lemma_tenth_of_pow2(a: nat)
    ensures
        tenth(pow2(a) as int) == pow2(10 * a),
{
    lemma_pow2_adds(a, a);
    lemma_pow2_adds(2 * a, 2 * a);
    lemma_pow2_adds(4 * a, 4 * a);
    lemma_pow2_adds(8 * a, 2 * a);
    assert(a + a == 2 * a && 2 * a + 2 * a == 4 * a && 4 * a + 4 * a == 8 * a && 8 * a + 2 * a
        == 10 * a);
}

/// The smallest number of thirty-one bits that is `m` tenths of a doubling above
/// the smallest of all.
pub open spec fn mark(m: int) -> int {
    if m == 0 {
        1073741824
    } else if m == 1 {
        1150807993
    } else if m == 2 {
        1233405467
    } else if m == 3 {
        1321931248
    } else if m == 4 {
        1416810831
    } else if m == 5 {
        1518500250
    } else if m == 6 {
        1627488271
    } else if m == 7 {
        1744298740
    } else if m == 8 {
        1869493100
    } else if m == 9 {
        2003673093
    } else {
        2147483648
    }
}

/// A tenth power from its parts.
proof fn lemma_tenth_value(x: int, x2: int, x4: int, x8: int, x10: int)
    requires
        x * x == x2,
        x2 * x2 == x4,
        x4 * x4 == x8,
        x8 * x2 == x10,
    ensures
        tenth(x) == x10,
{
}

/// The three-hundredth power of two.
#[verifier::spinoff_prover]
proof fn lemma_pow2_300()
    ensures
        pow2(300) == 2037035976334486086268445688409378161051468393665936250636140449354381299763336706183397376int,
{
    lemma2_to64();
    lemma_pow2_adds(30, 30);
    lemma_pow2_adds(60, 60);
    lemma_pow2_adds(120, 120);
    lemma_pow2_adds(240, 60);
    let (a, b, c) = (1152921504606846976int, 1329227995784915872903807060280344576int, 1766847064778384329583297500742918515827483896875618958121606201292619776int);
    assert(1073741824int * 1073741824int == a);
    assert(a * a == b && b * b == c && c * a == 2037035976334486086268445688409378161051468393665936250636140449354381299763336706183397376int);
    assert(pow2(60) == a);
    assert(pow2(120) == b);
    assert(pow2(240) == c);
}

/// A mark is the smallest number that reaches its step.
#[verifier::spinoff_prover]
proof fn lemma_mark(m: nat)
    requires
        m <= 10,
    ensures
        tenth(mark(m as int)) >= pow2(300 + m),
        tenth(mark(m as int) - 1) < pow2(300 + m),
{
    lemma_pow2_300();
    lemma_pow2_adds(300, m);
    lemma2_to64();
    if m == 0 {
        lemma_tenth_value(
            1073741824int,
            1152921504606846976int,
            1329227995784915872903807060280344576int,
            1766847064778384329583297500742918515827483896875618958121606201292619776int,
            2037035976334486086268445688409378161051468393665936250636140449354381299763336706183397376int,
        );
        lemma_tenth_value(
            1073741823int,
            1152921502459363329int,
            1329227990833155722679814984029962241int,
            1766847051614347913923524227822182390914602913577843820772936023885742081int,
            2037035957363110265134677947778256251755767267991455240861169839760592881447303659963547649int,
        );
    } else if m == 1 {
        lemma_tenth_value(
            1150807993int,
            1324359036752688049int,
            1753926858228507734531260827107426401int,
            3076259424015323869762440595274628403757161745347437474285327685631812801int,
            4074071967590313273466333245399794533193712179588372122397788902356769617088714345517915249int,
        );
        lemma_tenth_value(
            1150807992int,
            1324359034451072064int,
            1753926852132175882090318358921220096int,
            3076259402630283561587460981687357099463402659368071681703291201274249216int,
            4074071932188474074913898367250687079787576233873740792847571239106118858528832367911501824int,
        );
    } else if m == 2 {
        lemma_tenth_value(
            1233405467int,
            1521289046025488089int,
            2314320361557139617198995830680871921int,
            5356078735917969441317168232450344370826841965212358760549765432806230241int,
            8148143910602049877150632545585462891403303709854957997844762594786389216467728802137099449int,
        );
        lemma_tenth_value(
            1233405466int,
            1521289043558677156int,
            2314320354051674721306523580636248336int,
            5356078701177869034616600268116966470519416863985095147844337705062768896int,
            8148143844539882172537447416197271122179995697027092220077687803890830068494041056302539776int,
        );
    } else if m == 3 {
        lemma_tenth_value(
            1321931248int,
            1747502224438837504int,
            3053764024418685204621796146916950016int,
            9325474716833804206685536500002796258957353593334291816887674003842400256int,
            16296287811615211137913984123274643419308978428807449218820462738432190901070054681712001024int,
        );
        lemma_tenth_value(
            1321931247int,
            1747502221794975009int,
            3053764015178374029365975242934550081int,
            9325474660398344609208554218861077873473187270941495646983573057897106561int,
            16296287688338847251394771498949325547364425092133240316141026809625182119375081790404934049int,
        );
    } else if m == 4 {
        lemma_tenth_value(
            1416810831int,
            2007352930838910561int,
            4029465788947564045966358389357334721int,
            16236594544298814755218478678932462084880140909980715021766337040832147841int,
            32592575645341291232302304004233018664307830203200683170988642572373066624664101182128248801int,
        );
        lemma_tenth_value(
            1416810830int,
            2007352928005288900int,
            4029465777571406561801826372463210000int,
            16236594452619140100393895106743304194787881381819130371762803504100000000int,
            32592575415299461873768356665923017491632190692267130944012095334067011296252834490000000000int,
        );
    } else if m == 5 {
        lemma_tenth_value(
            1518500250int,
            2305843009250062500int,
            5316911983307383815938656253906250000int,
            28269553038237657677783500468925072073667199117684814468383789062500000000int,
            65185151247844167743476563444869835771897219913545901686750870456696510314941406250000000000int,
        );
        lemma_tenth_value(
            1518500249int,
            2305843006213062001int,
            5316911969301691085745825428270124001int,
            28269552889303586850576186533926441522969198273346776051390761831916248001int,
            65185150818570935456085020500266717210074136209717244616232693815544022579689832469505310001int,
        );
    } else if m == 6 {
        lemma_tenth_value(
            1627488271int,
            2648718072242569441int,
            7015707426224393308242115437707052481int,
            49220150690380101074008184921325058039075374579458471906338421604888255361int,
            130370302652112354702813354072077244460338275126612124280427720265857480800751650962383023201int,
        );
        lemma_tenth_value(
            1627488270int,
            2648718068987592900int,
            7015707408981362941092374136130410000int,
            49220150448435988976479946900464910370973640015297459518168526768100000000int,
            130370301851060177463258461212591868250874615241756110386535213527788774070435506490000000000int,
        );
    } else if m == 7 {
        lemma_tenth_value(
            1744298740int,
            3042578094365587600int,
            9257281460313330482529723093273760000int,
            85697260035460908533648694971876367413543802913052160636954304537600000000int,
            260740606131044879120757249657755127206644162312141577035222001947185154839970293760000000000int,
        );
        lemma_tenth_value(
            1744298739int,
            3042578090876990121int,
            9257281439084669955371209452331594641int,
            85697259642421537933604880237443815287189114782163744744053448469939918881int,
            260740604636228655964065764612918783884435018622120164073302351248483768607827791612178374601int,
        );
    } else if m == 8 {
        lemma_tenth_value(
            1869493100int,
            3495004450947610000int,
            12215056112143604834626964712100000000int,
            149207595822816838769866331441619088593603041333018635886410000000000000000int,
            521481211515936872913274818880346664176979535534618242353514434076820980100000000000000000000int,
        );
        lemma_tenth_value(
            1869493099int,
            3495004447208623801int,
            12215056086008058033533609984343687601int,
            149207595184322498059111894381519880675566260823452368192659337935081135201int,
            521481208726511171044167594888913343670196667484730989886371761833988456211463356516027519001int,
        );
    } else if m == 9 {
        lemma_tenth_value(
            2003673093int,
            4014705863612186649int,
            16117863171322073427356018667213849201int,
            259785513209460446107382365655558063069469175941459289158003801614768338401int,
            1042962423163522022844348336580702298934290455805384141986843578118659694405068563060006208249int,
        );
        lemma_tenth_value(
            2003673092int,
            4014705859604840464int,
            16117863139145440990527989138891735296int,
            259785512172223329281282601660796665904705403787324002225313621534132207616int,
            1042962417958269606844776726316479260518929746269385457875328041309884865790784538435805773824int,
        );
    } else {
        lemma_tenth_value(
            2147483648int,
            4611686018427387904int,
            21267647932558653966460912964485513216int,
            452312848583266388373324160190187140051835877600158453279131187530910662656int,
            2085924839766513752338888384931203236916703635113918720651407820138886450957656787131798913024int,
        );
        lemma_tenth_value(
            2147483647int,
            4611686014132420609int,
            21267647892944572736998860269687930881int,
            452312846898269724422641179697543667450922081019251166843171382875033436161int,
            2085924830053169311564321191305931199741711560688200050463950578047164169337729650765802242049int,
        );
    }
}

/// The number of marks up to a number of thirty-one bits.
fn count_marks(s: u32) -> (m: u32)
    requires
        mark(0) <= s < mark(10),
    ensures
        m <= 9,
        mark(m as int) <= s < mark(m + 1),
{
    if s < 1150807993 {
        0
    } else if s < 1233405467 {
        1
    } else if s < 1321931248 {
        2
    } else if s < 1416810831 {
        3
    } else if s < 1518500250 {
        4
    } else if s < 1627488271 {
        5
    } else if s < 1744298740 {
        6
    } else if s < 1869493100 {
        7
    } else if s < 2003673093 {
        8
    } else {
        9
    }
}

/// A number and its multiple of thirty-one bits are the same steps above powers
/// of two.
proof fn lemma_shifted(i: int, e: nat, s: int, m: nat)
    requires
        0 < i,
        e <= 30,
        s == i * pow2((30 - e) as nat),
        m <= 9,
        mark(m as int) <= s < mark((m + 1) as int),
    ensures
        is_steps(10 * e + m, i),
{
    let d = (30 - e) as nat;
    lemma_pow2_pos(d);
    lemma_tenth_of_product(i, pow2(d) as int);
    lemma_tenth_of_pow2(d);
    lemma_mark(m);
    lemma_mark(m + 1);
    lemma_tenth_monotone(mark(m as int), s);
    lemma_tenth_monotone(s, mark((m + 1) as int) - 1);
    lemma_pow2_adds(10 * e + m, 10 * d);
    lemma_pow2_adds(10 * e + m + 1, 10 * d);
    assert(10 * e + m + 10 * d == 300 + m);
    assert(10 * e + m + 1 + 10 * d == 300 + (m + 1));
    let (t, f) = (tenth(i), pow2(10 * d) as int);
    let (lo, hi) = (pow2(10 * e + m) as int, pow2(10 * e + m + 1) as int);
    lemma_pow2_pos(10 * d);
    assert(lo * f <= t * f < hi * f);
    assert(lo <= t < hi) by (nonlinear_arith)
        requires
            lo * f <= t * f < hi * f,
            f > 0,
    ;
}

/// The number of whole tenths of a doubling from one to `i`; zero where `i` is
/// not positive.
pub fn ilog(i: i32) -> (r: i32)
    ensures
        r == steps(i as int),
        i > 0 ==> is_steps(r as nat, i as int),
        0 <= r < 310,
{
    if i <= 0 {
        return 0;
    }
    let mut s: u32 = i as u32;
    let mut e: u32 = 30;
    proof {
        lemma2_to64();
        assert(i * 1 == i);
    }
    while s < 1073741824
        invariant
            0 < i,
            e <= 30,
            0 < s < mark(10),
            s == i * pow2((30 - e) as nat),
            e == 0 ==> s >= mark(0),
        decreases e,
    {
        proof {
            let d = (30 - e) as nat;
            lemma_pow2_adds(d, 1);
            lemma2_to64();
            assert(i * (pow2(d) * 2) == 2 * (i * pow2(d))) by (nonlinear_arith);
            if e == 1 {
                assert(i * pow2(30) >= pow2(30)) by (nonlinear_arith)
                    requires
                        i >= 1,
                        pow2(30) >= 0,
                ;
            }
        }
        s = s * 2;
        e = e - 1;
    }
    let m: u32 = count_marks(s);
    proof {
        lemma_shifted(i as int, e as nat, s as int, m as nat);
        lemma_steps((10 * e + m) as nat, i as int);
    }
    (10 * e + m) as i32
}

/// Whether `r` is the whole number nearest to `i` tenths of a doubling above one:
/// half a unit less is not above it, and half a unit more is.
pub open spec fn is_nearest(r: int, i: nat) -> bool {
    &&& 0 <= r
    &&& r > 0 ==> tenth(2 * r - 1) <= pow2(i + 10)
    &&& pow2(i + 10) < tenth(2 * r + 1)
}

/// An odd number but one is not a whole number of steps above one.
proof fn lemma_odd(x: int, k: nat)
    requires
        x > 1,
        x % 2 == 1,
    ensures
        tenth(x) != pow2(k),
{
    let a = x * x;
    let b = a * a;
    assert(a % 2 == 1) by {
        lemma_odd_product(x, x);
    }
    lemma_odd_product(a, a);
    lemma_odd_product(b, b);
    lemma_odd_product(b * b, a);
    if k > 0 {
        vstd::arithmetic::power2::lemma_pow2_unfold(k);
    } else {
        lemma2_to64();
        lemma_tenth_monotone(3, x);
        lemma_tenth_value(3int, 9int, 81int, 6561int, 59049int);
    }
}

proof fn lemma_odd_product(a: int, b: int)
    requires
        a % 2 == 1,
        b % 2 == 1,
    ensures
        (a * b) % 2 == 1,
{
    let (p, q) = (a / 2, b / 2);
    assert(a * b == 2 * (2 * p * q + p + q) + 1) by (nonlinear_arith)
        requires
            a == 2 * p + 1,
            b == 2 * q + 1,
    ;
}

/// The whole number nearest to `i` tenths of a doubling above one, below thirty
/// doublings.
fn nearest_small(i: i32) -> (r: i32)
    requires
        0 <= i < 300,
    ensures
        is_nearest(r as int, i as nat),
{
    // The number is the first whose double plus one is more steps above one.
    let mut lo: i32 = 0;
    let mut hi: i32 = 0x3fff_ffff;
    let ghost target = pow2((i + 10) as nat) as int;
    proof {
        lemma_mark(10);
        lemma2_to64();
        lemma_top();
        if i + 10 < 309 {
            lemma_pow2_strictly_increases((i + 10) as nat, 309);
        }
        lemma_odd(0x7fff_ffff, (i + 10) as nat);
    }
    while lo < hi
        invariant
            0 <= i < 300,
            0 <= lo <= hi <= 0x3fff_ffff,
            target == pow2((i + 10) as nat),
            lo > 0 ==> tenth(2 * lo - 1) <= target,
            target < tenth(2 * hi + 1),
        decreases hi - lo,
    {
        let mid: i32 = lo + (hi - lo) / 2;
        let k: i32 = ilog(2 * mid + 1);
        proof {
            let x = 2 * mid + 1;
            if k >= i + 10 {
                if k > i + 10 {
                    lemma_pow2_strictly_increases((i + 10) as nat, k as nat);
                }
                if x > 1 {
                    lemma_odd(x, (i + 10) as nat);
                } else {
                    lemma_tenth_value(1int, 1int, 1int, 1int, 1int);
                    lemma2_to64();
                    lemma_pow2_strictly_increases(0, k as nat);
                }
            } else {
                if k + 1 < i + 10 {
                    lemma_pow2_strictly_increases((k + 1) as nat, (i + 10) as nat);
                }
            }
        }
        if k >= i + 10 {
            hi = mid;
        } else {
            lo = mid + 1;
        }
    }
    lo
}

/// The whole numbers nearest to the steps from thirty doublings on.
spec fn large(m: int) -> int {
    if m == 0 {
        1073741824
    } else if m == 1 {
        1150807993
    } else if m == 2 {
        1233405467
    } else if m == 3 {
        1321931248
    } else if m == 4 {
        1416810831
    } else if m == 5 {
        1518500250
    } else if m == 6 {
        1627488271
    } else if m == 7 {
        1744298739
    } else if m == 8 {
        1869493099
    } else {
        2003673092
    }
}

#[verifier::spinoff_prover]
proof fn lemma_large(m: nat)
    requires
        m < 10,
    ensures
        is_nearest(large(m as int), 300 + m),
{
    lemma_pow2_300();
    lemma_pow2_adds(300, 10 + m);
    lemma2_to64();
    assert(300 + (10 + m) == 300 + m + 10);
    if m == 0 {
        lemma_tenth_value(
            2147483647int,
            4611686014132420609int,
            21267647892944572736998860269687930881int,
            452312846898269724422641179697543667450922081019251166843171382875033436161int,
            2085924830053169311564321191305931199741711560688200050463950578047164169337729650765802242049int,
        );
        lemma_tenth_value(
            2147483649int,
            4611686022722355201int,
            21267647972172735251263197880411750401int,
            452312850268263057816471159146176283986536130045985409367434238152723660801int,
            2085924849479858233821611951050450268884350265131572517108874267719815049699733592317362176001int,
        );
    } else if m == 1 {
        lemma_tenth_value(
            2301615985int,
            5297436142407520225int,
            28062829682885468901188016633784050625int,
            787522409810637747050278051681500673280089618311073712056842826632562890625int,
            4171849676686739086932170144198347937365087215752820490350313227345768612383805990264150390625int,
        );
        lemma_tenth_value(
            2301615987int,
            5297436151613984169int,
            28062829780426778667381563597782620561int,
            787522415285208082593110255140568115787762585856733561816295130776499954721int,
            4171849712938222568003897471693493288379907058482546868787172755666891657917444168298910811849int,
        );
    } else if m == 2 {
        lemma_tenth_value(
            2466810933int,
            6085156179168330489int,
            37029125724870514671533218215526979121int,
            1371156151948267318610337998083505464371069689515652144339761485023969932641int,
            8343699330632669147738270102760730430170556607647536401632947374590437231638045974221756591449int,
        );
        lemma_tenth_value(
            2466810935int,
            6085156189035574225int,
            37029125844957953151856522575484350625int,
            1371156160841733047962420907600825862893399473987129483864290314277937890625int,
            8343699398280329124070279426148313594008731245814514428983661633384270954399767903182119140625int,
        );
    } else if m == 3 {
        lemma_tenth_value(
            2643862495int,
            6990008892467625025int,
            48860224316776473829962117764006250625int,
            2387321520285715038871508343072123552497489769197271173620697244070312890625int,
            16687398655976477787896614465721495289996892647407680671502067733787539267966784604736337890625int,
        );
        lemma_tenth_value(
            2643862497int,
            6990008903043075009int,
            48860224464621452801815465710400350081int,
            2387321534733192734077356926218596941025041652271274801388262725207356706561int,
            16687398782211474837410162494595823498226685494524067171260473241413738529340819929584325434049int,
        );
    } else if m == 4 {
        lemma_tenth_value(
            2833621661int,
            8029411717688398921int,
            64471452532151764813969007788433964241int,
            4156568191605498207023684424861076295901987240809813786268673342778466706081int,
            33374797343048065403262609640872471087065245931940424122383062425229257250371336173577584538601int,
        );
        lemma_tenth_value(
            2833621663int,
            8029411729022885569int,
            64471452714170284753307401351268453761int,
            4156568215075494976637575559546256603679853640069529283364696929643795045121int,
            33374797578610899414583647260441443315091430842772843747747174488624139051114092841135974758849int,
        );
    } else if m == 5 {
        lemma_tenth_value(
            3037000499int,
            9223372030926249001int,
            85070591620872599158135621271853498001int,
            7237005558725279277660183904876446852802385599279433726725111617379710996001int,
            66749594658004532512510280837272347467287138379506520901064419799592929927210516799744641245001int,
        );
        lemma_tenth_value(
            3037000501int,
            9223372043074251001int,
            85070591844963683062581843297149502001int,
            7237005596852401497304680484999052107654605517230635417807362225442303004001int,
            66749595097580323677460223098816709419238059930863111717644546537357050707046419209835381255001int,
        );
    } else if m == 6 {
        lemma_tenth_value(
            3254976541int,
            10594872282460324681int,
            112251318681646049931106682895937751761int,
            12600358545768459493162406094034924016241490205133264022153189034555258601121int,
            133499189505624335902012634866169908266082164793376515902141250783602293225823324420555530567401int,
        );
        lemma_tenth_value(
            3254976543int,
            10594872295480230849int,
            112251318957534536059779478578331260801int,
            12600358607706152323329934266758027100250284425858212769998330975674279161601int,
            133499190325901767663381386179801817633340325861313362277391891122570679446373320173533656429249int,
        );
    } else if m == 7 {
        lemma_tenth_value(
            3488597477int,
            12170312356530765529int,
            148116502855525435287736864694774649841int,
            21938498418150874425617666214346275375306504732767466016606691309684161325281int,
            266998378382152240412674598126667751422674220075126600258346844172820744332488906180770111038649int,
        );
        lemma_tenth_value(
            3488597479int,
            12170312370485155441int,
            148116503195184003430185586141931904481int,
            21938498518768953097334982515731129368938328950307949908654687241603707879361int,
            266998379912844048976196949961982152720007264097477284766330230718710059147470966439016560753201int,
        );
    } else if m == 8 {
        lemma_tenth_value(
            3738986197int,
            13980017781356522809int,
            195440897167044554379431242171337250481int,
            38197144285459284121666523787403521235362755630053836479098308206388934731361int,
            533996756307761484948859211730546337514332831900633171736268142175090323974964773086883484113049int,
        );
        lemma_tenth_value(
            3738986199int,
            13980017796312467601int,
            195440897585213302861404490793674695201int,
            38197144448913835037605730567041986284577705538351520124965226782400252430401int,
            533996759164133396787339015648738546751720222891618910798319127287282453193015787314917819938001int,
        );
    } else {
        lemma_tenth_value(
            4007346183int,
            16058823430404669489int,
            257885809968913996642882411935327521121int,
            66505090983322821690140362678109936754557703470029164612681377228354701096641int,
            1067993513324178849395458009939316617373134827363785835749684804618281590164199718302155453086449int,
        );
        lemma_tenth_value(
            4007346185int,
            16058823446434054225int,
            257885810483740115246719121770240350625int,
            66505091248855523133791520219323231167764729125034329873133798980922937890625int,
            1067993518654357311408102926004858416549748366613960326604280960721373621155140829184588369140625int,
        );
    }
}

/// The whole number nearest to `i` tenths of a doubling above one, from thirty
/// doublings on.
fn nearest_large(i: i32) -> (r: i32)
    requires
        300 <= i < 310,
    ensures
        is_nearest(r as int, i as nat),
{
    proof {
        lemma_large((i - 300) as nat);
    }
    if i == 300 {
        1073741824
    } else if i == 301 {
        1150807993
    } else if i == 302 {
        1233405467
    } else if i == 303 {
        1321931248
    } else if i == 304 {
        1416810831
    } else if i == 305 {
        1518500250
    } else if i == 306 {
        1627488271
    } else if i == 307 {
        1744298739
    } else if i == 308 {
        1869493099
    } else {
        2003673092
    }
}

/// The whole number nearest to `i` tenths of a doubling above one, or below one
/// where `i` is negative; the largest number where that is larger still.
pub fn ilog_inv(i: i32) -> (r: i32)
    ensures
        i < -10 ==> r == 0,
        -10 <= i < 0 ==> r == 1,
        0 <= i < 310 ==> is_nearest(r as int, i as nat),
        i >= 310 ==> r == i32::MAX,
{
    if i < -10 {
        0
    } else if i < 0 {
        1
    } else if i < 300 {
        nearest_small(i)
    } else if i < 310 {
        nearest_large(i)
    } else {
        i32::MAX
    }
}

/// The largest 32-bit number is at least this many steps above one.
proof fn lemma_top()
    ensures
        tenth(0x7fff_ffff) >= pow2(309),
{
    lemma_mark(9);
    lemma_tenth_monotone(mark(9), 0x7fff_ffff);
}

/// Sixteen-bit numbers are less than sixteen doublings above one.
proof fn lemma_sample_steps(v: int)
    requires
        0 <= v <= 0xffff,
    ensures
        steps(v) < 160,
{
    lemma2_to64();
    lemma_pow2_adds(64, 64);
    lemma_pow2_adds(128, 32);
    let (a, b) = (340282366920938463463374607431768211456int, 1461501637330902918203684832716283019655932542976int);
    assert(0x1_0000_0000_0000_0000int * 0x1_0000_0000_0000_0000int == a);
    assert(a * 0x1_0000_0000int == b);
    assert(pow2(160) == b);
    lemma_tenth_value(
        65535int,
        4294836225int,
        18445618199572250625int,
        340240830764391036687105719527812890625int,
        1461278645191001064429085634632740697678212890625int,
    );
    if v > 0 {
        lemma_tenth_monotone(v, 0xffff);
        if exists|k: nat| is_steps(k, v) {
            let k = steps(v);
            assert(is_steps(k, v));
            if k >= 160 {
                if k > 160 {
                    lemma_pow2_strictly_increases(160, k);
                }
                assert(false);
            }
        } else {
            lemma_has_steps(v);
        }
    }
}

/// Every positive number is some number of steps above one.
proof fn lemma_has_steps(v: int)
    requires
        0 < v,
    ensures
        exists|k: nat| is_steps(k, v),
{
    lemma_tenth_value(1int, 1int, 1int, 1int, 1int);
    lemma_tenth_monotone(1, v);
    lemma_steps_below(tenth(v), tenth(v) as nat);
    let k = choose|k: nat| pow2(k) <= tenth(v) < #[trigger] pow2(k + 1);
    assert(is_steps(k, v));
}

proof fn lemma_steps_below(t: int, n: nat)
    requires
        1 <= t,
    ensures
        t < pow2(n) ==> exists|k: nat| pow2(k) <= t < #[trigger] pow2(k + 1),
        n >= t ==> t < pow2(n),
    decreases n,
{
    lemma2_to64();
    if n > 0 {
        lemma_steps_below(t, (n - 1) as nat);
        vstd::arithmetic::power2::lemma_pow2_unfold(n);
        if t < pow2(n) && t >= pow2((n - 1) as nat) {
            let k = (n - 1) as nat;
            assert(pow2(k) <= t < pow2(k + 1));
        }
        if n >= t {
            if n - 1 < t {
                lemma_exceeds(n);
            }
        }
    }
}

/// A power of two is above its exponent.
proof fn lemma_exceeds(n: nat)
    ensures
        n < pow2(n),
    decreases n,
{
    lemma2_to64();
    if n > 0 {
        lemma_exceeds((n - 1) as nat);
        vstd::arithmetic::power2::lemma_pow2_unfold(n);
    }
}

/// The whole number nearest to `i` tenths of a doubling above one.
pub open spec fn nearest(i: nat) -> int {
    choose|r: int| is_nearest(r, i)
}

proof fn lemma_nearest(r: int, i: nat)
    requires
        is_nearest(r, i),
    ensures
        nearest(i) == r,
{
    let q = nearest(i);
    if q < r {
        lemma_tenth_monotone(2 * q + 1, 2 * r - 1);
    } else if r < q {
        lemma_tenth_monotone(2 * r + 1, 2 * q - 1);
    }
}

/// The bin that a sample is counted in.
pub open spec fn bin_of(v: u16, log: bool) -> int {
    if log {
        steps(v as int) as int
    } else {
        v as int
    }
}

/// How many of the first `n` pixels of a window have a sample in one channel that
/// is counted in a bin.
pub open spec fn hits(data: Seq<u16>, w: Window, channel: int, log: bool, bin: int, n: nat) -> nat
    decreases n,
{
    if n == 0 {
        0
    } else {
        let k = n - 1;
        hits(data, w, channel, log, bin, k as nat) + (if bin_of(
            data[w.index(k / w.columns as int, k % w.columns as int, channel)],
            log,
        ) == bin {
            1nat
        } else {
            0
        })
    }
}

/// The number of bins.
pub const BINS: usize = 0x1_0000;

/// How often each bin is hit in one channel of a window.
pub open spec fn histogram(data: Seq<u16>, w: Window, channel: int, log: bool) -> Seq<u32> {
    Seq::new(
        BINS as nat,
        |b: int| hits(data, w, channel, log, b, (w.rows * w.columns) as nat) as u32,
    )
}

/// How often each bin is hit in one channel of a window.
pub fn count_samples(data: &Vec<u16>, w: &Window, channel: usize, log: bool) -> (r: Vec<u32>)
    requires
        w.inside(data@.len() as int),
        channel < w.channels,
        w.rows * w.columns <= i32::MAX,
    ensures
        r@ == histogram(data@, *w, channel as int, log),
        forall|b: int| 0 <= b < BINS ==> #[trigger] r@[b] <= i32::MAX,
        log ==> forall|b: int| 160 <= b < BINS ==> #[trigger] r@[b] == 0,
{
    let mut r: Vec<u32> = vec![0u32; BINS];
    let (rows, cols): (usize, usize) = (w.rows as usize, w.columns as usize);
    let len: usize = data.len();
    let mut row: usize = 0;
    assert(0 * cols == 0);
    while row < rows
        invariant
            row <= rows,
            rows == w.rows,
            cols == w.columns,
            w.inside(len as int),
            len == data@.len(),
            channel < w.channels,
            rows * cols <= i32::MAX,
            r@.len() == BINS,
            forall|b: int|
                0 <= b < BINS ==> #[trigger] r@[b] == hits(
                    data@,
                    *w,
                    channel as int,
                    log,
                    b,
                    (row * cols) as nat,
                ) && r@[b] <= row * cols,
            log ==> forall|b: int| 160 <= b < BINS ==> #[trigger] r@[b] == 0,
        decreases rows - row,
    {
        let mut col: usize = 0;
        while col < cols
            invariant
                row < rows,
                col <= cols,
                rows == w.rows,
                cols == w.columns,
                w.inside(len as int),
                len == data@.len(),
                channel < w.channels,
                rows * cols <= i32::MAX,
                r@.len() == BINS,
                forall|b: int|
                    0 <= b < BINS ==> #[trigger] r@[b] == hits(
                        data@,
                        *w,
                        channel as int,
                        log,
                        b,
                        (row * cols + col) as nat,
                    ) && r@[b] <= row * cols + col,
                log ==> forall|b: int| 160 <= b < BINS ==> #[trigger] r@[b] == 0,
            decreases cols - col,
        {
            let ghost n = row * cols + col;
            proof {
                let (a, c) = (row as int, cols as int);
                assert(0 <= a * c && a * c + c <= rows * c) by (nonlinear_arith)
                    requires
                        0 <= a,
                        a + 1 <= rows,
                        0 <= c,
                ;
                vstd::arithmetic::div_mod::lemma_fundamental_div_mod_converse(n, c, a, col as int);
            }
            let v: u16 = data[w.at(row, col, channel, len)];
            proof {
                lemma_sample_steps(v as int);
            }
            let bin: usize = if log {
                ilog(v as i32) as usize
            } else {
                v as usize
            };
            let count: u32 = r[bin];
            r.set(bin, count + 1);
            col = col + 1;
        }
        assert(row * cols + cols == (row + 1) * cols) by (nonlinear_arith);
        row = row + 1;
    }
    assert(r@ =~= histogram(data@, *w, channel as int, log));
    r
}

/// One line of a histogram: the bin, with `log` also the sample that it stands
/// for, and how often it is hit in each channel. Bins that are never hit have no
/// line.
pub open spec fn line(b: int, log: bool, h0: int, h1: int, h2: int) -> Seq<u8> {
    if h0 == 0 && h1 == 0 && h2 == 0 {
        Seq::empty()
    } else {
        padded(decimal(b), 5, 0x20) + (if log {
            ", ".spec_bytes() + padded(decimal(nearest(b as nat)), 5, 0x20)
        } else {
            Seq::empty()
        }) + " , ".spec_bytes() + padded(decimal(h0), 6, 0x20) + " , ".spec_bytes() + padded(
            decimal(h1),
            6,
            0x20,
        ) + " , ".spec_bytes() + padded(decimal(h2), 6, 0x20) + "\n".spec_bytes()
    }
}

/// The lines of the first `n` bins.
pub open spec fn lines(h: Seq<Seq<u32>>, log: bool, n: nat) -> Seq<u8>
    decreases n,
{
    if n == 0 {
        Seq::empty()
    } else {
        let b = n - 1;
        lines(h, log, b as nat) + line(b, log, h[0][b] as int, h[1][b] as int, h[2][b] as int)
    }
}

/// Appends a line of a histogram.
fn append_line(out: &mut Vec<u8>, b: usize, log: bool, h0: u32, h1: u32, h2: u32)
    requires
        b < BINS,
        log && (h0 != 0 || h1 != 0 || h2 != 0) ==> b < 300,
    ensures
        final(out)@ == old(out)@ + line(b as int, log, h0 as int, h1 as int, h2 as int),
{
    if h0 == 0 && h1 == 0 && h2 == 0 {
        assert(out@ =~= out@ + Seq::<u8>::empty());
        return;
    }
    let mut text: Vec<u8> = Vec::new();
    append_signed(&mut text, b as i64, 5);
    let ghost number = padded(decimal(b as int), 5, 0x20);
    assert(text@ =~= number);
    let ghost mut sample: Seq<u8> = Seq::empty();
    if log {
        let mut part: Vec<u8> = Vec::new();
        append(&mut part, ", ".as_bytes());
        let r: i32 = ilog_inv(b as i32);
        proof {
            lemma_nearest(r as int, b as nat);
            assert(part@ =~= ", ".spec_bytes());
        }
        append_signed(&mut part, r as i64, 5);
        proof {
            sample = part@;
        }
        append(&mut text, part.as_slice());
    }
    assert(text@ =~= number + sample);
    append(&mut text, " , ".as_bytes());
    append_signed(&mut text, h0 as i64, 6);
    append(&mut text, " , ".as_bytes());
    append_signed(&mut text, h1 as i64, 6);
    append(&mut text, " , ".as_bytes());
    append_signed(&mut text, h2 as i64, 6);
    append(&mut text, "\n".as_bytes());
    assert(text@ == line(b as int, log, h0 as int, h1 as int, h2 as int));
    append(out, text.as_slice());
}

/// The histograms of the first three channels of a window, as a text.
pub open spec fn histogram_lines(data: Seq<u16>, w: Window, log: bool) -> Seq<u8> {
    lines(
        seq![
            histogram(data, w, 0, log),
            histogram(data, w, 1, log),
            histogram(data, w, 2, log),
        ],
        log,
        BINS as nat,
    )
}

/// The histograms of the first three channels of a window, as a text.
pub fn histogram_text(data: &Vec<u16>, w: &Window, log: bool) -> (out: Vec<u8>)
    requires
        w.inside(data@.len() as int),
        w.channels >= 3,
        w.rows * w.columns <= i32::MAX,
    ensures
        out@ == histogram_lines(data@, *w, log),
{
    let h0: Vec<u32> = count_samples(data, w, 0, log);
    let h1: Vec<u32> = count_samples(data, w, 1, log);
    let h2: Vec<u32> = count_samples(data, w, 2, log);
    let mut out: Vec<u8> = Vec::new();
    let ghost h = seq![h0@, h1@, h2@];
    let mut b: usize = 0;
    while b < BINS
        invariant
            b <= BINS,
            h == seq![h0@, h1@, h2@],
            h0@.len() == BINS,
            h1@.len() == BINS,
            h2@.len() == BINS,
            log ==> forall|k: int| 160 <= k < BINS ==> #[trigger] h0@[k] == 0,
            log ==> forall|k: int| 160 <= k < BINS ==> #[trigger] h1@[k] == 0,
            log ==> forall|k: int| 160 <= k < BINS ==> #[trigger] h2@[k] == 0,
            out@ == lines(h, log, b as nat),
        decreases BINS - b,
    {
        append_line(&mut out, b, log, h0[b], h1[b], h2[b]);
        b = b + 1;
    }
    out
}

/// The sum of the first `n` bins.
pub open spec fn bin_sum(h: Seq<u32>, n: nat) -> int
    decreases n,
{
    if n == 0 {
        0
    } else {
        bin_sum(h, (n - 1) as nat) + h[n - 1]
    }
}

/// How many of the first `n` pixels are counted in the first `m` bins.
spec fn hit_sum(data: Seq<u16>, w: Window, channel: int, log: bool, m: nat, n: nat) -> int
    decreases m,
{
    if m == 0 {
        0
    } else {
        hit_sum(data, w, channel, log, (m - 1) as nat, n) + hits(data, w, channel, log, m - 1, n)
    }
}

/// One more pixel is counted in one of the bins.
proof fn lemma_one_more(data: Seq<u16>, w: Window, channel: int, log: bool, m: nat, n: nat)
    ensures
        ({
            let v = data[w.index(n as int / w.columns as int, n as int % w.columns as int, channel)];
            hit_sum(data, w, channel, log, m, n + 1) == hit_sum(data, w, channel, log, m, n) + (
            if bin_of(v, log) < m {
                1int
            } else {
                0
            })
        }),
    decreases m,
{
    let v = data[w.index(n as int / w.columns as int, n as int % w.columns as int, channel)];
    if log {
        lemma_sample_steps(v as int);
    }
    if m > 0 {
        lemma_one_more(data, w, channel, log, (m - 1) as nat, n);
        let k = (n + 1 - 1) as nat;
        assert(k == n);
    }
}

proof fn lemma_all_counted(data: Seq<u16>, w: Window, channel: int, log: bool, n: nat)
    ensures
        hit_sum(data, w, channel, log, BINS as nat, n) == n,
    decreases n,
{
    if n == 0 {
        lemma_none_counted(data, w, channel, log, BINS as nat);
    } else {
        let k = (n - 1) as nat;
        lemma_all_counted(data, w, channel, log, k);
        lemma_one_more(data, w, channel, log, BINS as nat, k);
        let v = data[w.index(k as int / w.columns as int, k as int % w.columns as int, channel)];
        if log {
            lemma_sample_steps(v as int);
        }
    }
}

proof fn lemma_none_counted(data: Seq<u16>, w: Window, channel: int, log: bool, m: nat)
    ensures
        hit_sum(data, w, channel, log, m, 0) == 0,
    decreases m,
{
    if m > 0 {
        lemma_none_counted(data, w, channel, log, (m - 1) as nat);
    }
}

proof fn lemma_hits_bound(data: Seq<u16>, w: Window, channel: int, log: bool, bin: int, n: nat)
    ensures
        hits(data, w, channel, log, bin, n) <= n,
    decreases n,
{
    if n > 0 {
        lemma_hits_bound(data, w, channel, log, bin, (n - 1) as nat);
    }
}

proof fn lemma_bins_hold(data: Seq<u16>, w: Window, channel: int, log: bool, m: nat)
    requires
        m <= BINS,
        w.rows * w.columns <= i32::MAX,
    ensures
        bin_sum(histogram(data, w, channel, log), m) == hit_sum(
            data,
            w,
            channel,
            log,
            m,
            (w.rows * w.columns) as nat,
        ),
    decreases m,
{
    if m > 0 {
        lemma_bins_hold(data, w, channel, log, (m - 1) as nat);
        assert(0 <= w.rows * w.columns) by (nonlinear_arith)
            requires
                0 <= w.rows,
                0 <= w.columns,
        ;
        lemma_hits_bound(data, w, channel, log, m - 1, (w.rows * w.columns) as nat);
    }
}

/// A histogram counts every pixel once.
pub proof fn law_every_pixel_is_counted(data: Seq<u16>, w: Window, channel: int, log: bool)
    requires
        w.rows * w.columns <= i32::MAX,
    ensures
        bin_sum(histogram(data, w, channel, log), BINS as nat) == w.rows * w.columns,
{
    assert(0 <= w.rows * w.columns) by (nonlinear_arith)
        requires
            0 <= w.rows,
            0 <= w.columns,
    ;
    lemma_bins_hold(data, w, channel, log, BINS as nat);
    lemma_all_counted(data, w, channel, log, (w.rows * w.columns) as nat);
}

/// A larger number is no fewer steps above one.
pub proof fn law_steps_grow(i: int, j: int)
    requires
        i <= j,
    ensures
        steps(i) <= steps(j),
{
    if i > 0 {
        lemma_has_steps(i);
        lemma_has_steps(j);
        let (a, b) = (steps(i), steps(j));
        assert(is_steps(a, i) && is_steps(b, j));
        lemma_tenth_monotone(i, j);
        if b < a {
            if b + 1 < a {
                lemma_pow2_strictly_increases(b + 1, a);
            }
            assert(false);
        }
    }
}

/// A doubling is ten steps, and ten steps are a doubling: on powers of two the
/// logarithm and its inverse undo each other.
pub proof fn law_doublings_are_exact(k: nat)
    ensures
        steps(pow2(k) as int) == 10 * k,
        nearest(10 * k) == pow2(k),
        is_nearest(pow2(k) as int, 10 * k),
{
    lemma_pow2_pos(k);
    lemma_tenth_of_pow2(k);
    lemma_pow2_strictly_increases(10 * k, 10 * k + 1);
    lemma_steps(10 * k, pow2(k) as int);
    let r = pow2(k) as int;
    lemma_tenth_of_pow2(k + 1);
    vstd::arithmetic::power2::lemma_pow2_unfold(k + 1);
    assert(pow2(k + 1) == 2 * r);
    assert(10 * (k + 1) == 10 * k + 10);
    lemma_tenth_monotone(2 * r - 1, 2 * r);
    lemma_tenth_monotone(2 * r, 2 * r + 1);
    lemma_odd(2 * r + 1, 10 * k + 10);
    lemma_nearest(r, 10 * k);
}

/// How a count changes with one sample.
proof fn lemma_hits_change(
    data: Seq<u16>,
    w: Window,
    channel: int,
    log: bool,
    bin: int,
    n: nat,
    row: int,
    column: int,
    v: u16,
)
    requires
        w.inside(data.len() as int),
        0 <= channel < w.channels,
        0 <= row < w.rows,
        0 <= column < w.columns,
        n <= w.rows * w.columns,
    ensures
        ({
            let i = w.index(row, column, channel);
            let k = row * w.columns + column;
            hits(data.update(i, v), w, channel, log, bin, n) == hits(
                data,
                w,
                channel,
                log,
                bin,
                n,
            ) + (if k < n && bin_of(v, log) == bin {
                1int
            } else {
                0int
            }) - (if k < n && bin_of(data[i], log) == bin {
                1int
            } else {
                0int
            })
        }),
    decreases n,
{
    let i = w.index(row, column, channel);
    let k = row * w.columns + column;
    lemma_cell(row, column, w.rows as int, w.columns as int);
    w.lemma_index(row, column, channel);
    if n > 0 {
        lemma_hits_change(data, w, channel, log, bin, (n - 1) as nat, row, column, v);
        let m = n - 1;
        let cols = w.columns as int;
        vstd::arithmetic::div_mod::lemma_fundamental_div_mod(m, cols);
        vstd::arithmetic::div_mod::lemma_mod_bound(m, cols);
        let (r, c) = (m / cols, m % cols);
        assert(0 <= r < w.rows) by (nonlinear_arith)
            requires
                0 <= m < w.rows * cols,
                m == cols * r + c,
                0 <= c < cols,
        ;
        w.lemma_index(r, c, channel);
        assert(cols * r == r * cols) by (nonlinear_arith);
        if m != k {
            assert(r != row || c != column);
            assert(w.index(r, c, channel) != i);
        }
    }
}

/// A sample that changes moves one count of its channel from the bin that it was counted
/// in to the one that it is counted in now: that of its value or, with `log`, that of the
/// tenths of doublings from one to it. The other channels count as before.
pub proof fn law_a_sample_counts_once(
    data: Seq<u16>,
    w: Window,
    channel: int,
    log: bool,
    row: int,
    column: int,
    ch: int,
    v: u16,
    bin: int,
)
    requires
        w.inside(data.len() as int),
        w.rows * w.columns <= i32::MAX,
        0 <= channel < w.channels,
        0 <= ch < w.channels,
        0 <= row < w.rows,
        0 <= column < w.columns,
        0 <= bin < BINS,
    ensures
        ({
            let i = w.offset + row * w.row_stride + column * w.channels + ch;
            let (old_bin, new_bin) = if log {
                (steps(data[i] as int) as int, steps(v as int) as int)
            } else {
                (data[i] as int, v as int)
            };
            histogram(data.update(i, v), w, channel, log)[bin] == histogram(
                data,
                w,
                channel,
                log,
            )[bin] + (if ch == channel && bin == new_bin {
                1int
            } else {
                0int
            }) - (if ch == channel && bin == old_bin {
                1int
            } else {
                0int
            })
        }),
{
    let i = w.index(row, column, ch);
    let n = (w.rows * w.columns) as nat;
    assert(0 <= w.rows * w.columns) by (nonlinear_arith)
        requires
            0 <= w.rows,
            0 <= w.columns,
    ;
    lemma_cell(row, column, w.rows as int, w.columns as int);
    lemma_hits_bound(data, w, channel, log, bin, n);
    lemma_hits_bound(data.update(i, v), w, channel, log, bin, n);
    w.lemma_index(row, column, ch);
    if ch == channel {
        lemma_hits_change(data, w, channel, log, bin, n, row, column, v);
    } else {
        lemma_hits_alike(data, data.update(i, v), w, channel, log, bin, n, row, column, ch);
    }
}

/// Samples of another channel are not counted.
proof fn lemma_hits_alike(
    data: Seq<u16>,
    other: Seq<u16>,
    w: Window,
    channel: int,
    log: bool,
    bin: int,
    n: nat,
    row: int,
    column: int,
    ch: int,
)
    requires
        w.inside(data.len() as int),
        0 <= channel < w.channels,
        0 <= ch < w.channels,
        ch != channel,
        0 <= row < w.rows,
        0 <= column < w.columns,
        n <= w.rows * w.columns,
        other.len() == data.len(),
        forall|j: int|
            0 <= j < data.len() && j != w.index(row, column, ch) ==> #[trigger] other[j] == data[j],
    ensures
        hits(other, w, channel, log, bin, n) == hits(data, w, channel, log, bin, n),
    decreases n,
{
    if n > 0 {
        lemma_hits_alike(data, other, w, channel, log, bin, (n - 1) as nat, row, column, ch);
        let m = n - 1;
        let cols = w.columns as int;
        vstd::arithmetic::div_mod::lemma_fundamental_div_mod(m, cols);
        vstd::arithmetic::div_mod::lemma_mod_bound(m, cols);
        let (r, c) = (m / cols, m % cols);
        assert(0 <= r < w.rows) by (nonlinear_arith)
            requires
                0 <= m < w.rows * cols,
                m == cols * r + c,
                0 <= c < cols,
        ;
        w.lemma_index(r, c, channel);
        w.lemma_index(row, column, ch);
        assert(w.index(r, c, channel) != w.index(row, column, ch));
        let s = w.row_stride as int;
        assert(r * s <= (w.rows - 1) * s) by (nonlinear_arith)
            requires
                r <= w.rows - 1,
                0 <= s,
        ;
    }
}

/// The samples of one value are counted in one bin.
pub proof fn law_equal_samples_share_a_bin(
    data: Seq<u16>,
    w: Window,
    channel: int,
    log: bool,
    v: u16,
    bin: int,
)
    requires
        w.rows * w.columns <= i32::MAX,
        0 <= channel < w.channels,
        0 <= bin < BINS,
        forall|row: int, column: int|
            0 <= row < w.rows && 0 <= column < w.columns ==> #[trigger] data[w.index(
                row,
                column,
                channel,
            )] == v,
    ensures
        histogram(data, w, channel, log)[bin] == (if bin == (if log {
            steps(v as int) as int
        } else {
            v as int
        }) {
            w.rows * w.columns
        } else {
            0
        }),
{
    assert(0 <= w.rows * w.columns) by (nonlinear_arith)
        requires
            0 <= w.rows,
            0 <= w.columns,
    ;
    lemma_hits_flat(data, w, channel, log, v, bin, (w.rows * w.columns) as nat);
}

proof fn lemma_hits_flat(
    data: Seq<u16>,
    w: Window,
    channel: int,
    log: bool,
    v: u16,
    bin: int,
    n: nat,
)
    requires
        n <= w.rows * w.columns,
        forall|row: int, column: int|
            0 <= row < w.rows && 0 <= column < w.columns ==> #[trigger] data[w.index(
                row,
                column,
                channel,
            )] == v,
    ensures
        hits(data, w, channel, log, bin, n) == (if bin_of(v, log) == bin {
            n as int
        } else {
            0
        }),
    decreases n,
{
    if n > 0 {
        lemma_hits_flat(data, w, channel, log, v, bin, (n - 1) as nat);
        let m = n - 1;
        let cols = w.columns as int;
        assert(cols > 0) by (nonlinear_arith)
            requires
                0 < n <= w.rows * cols,
                0 <= cols,
                0 <= w.rows,
        ;
        vstd::arithmetic::div_mod::lemma_fundamental_div_mod(m, cols);
        vstd::arithmetic::div_mod::lemma_mod_bound(m, cols);
        let (r, c) = (m / cols, m % cols);
        assert(0 <= r < w.rows) by (nonlinear_arith)
            requires
                0 <= m < w.rows * cols,
                m == cols * r + c,
                0 <= c < cols,
        ;
        assert(data[w.index(r, c, channel)] == v);
    }
}

} // verus!
