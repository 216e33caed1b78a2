//! The quadratic extension of the prime field of order `2^61 - 1`.
use vstd::prelude::*;
use vstd::arithmetic::div_mod::{
    lemma_add_mod_noop, lemma_fundamental_div_mod_converse, lemma_mod_multiples_vanish, lemma_mul_mod_noop_general,
    lemma_small_mod, lemma_sub_mod_noop,
};
use vstd::arithmetic::mul::{
    lemma_mul_is_associative, lemma_mul_is_distributive_add,
    lemma_mul_is_distributive_add_other_way, lemma_mul_is_distributive_sub,
    lemma_mul_is_distributive_sub_other_way,
};
use vstd::bytes::{spec_u64_to_le_bytes, u64_to_le_bytes};
use super::{square_times, Field, FieldOps};
use crate::random::random_u64;

verus! {

/// The Mersenne prime `2^61 - 1`.
pub const MODULUS: u64 = 2305843009213693951;

/// An element `a + b * i` with `i * i = -1`, both coordinates
/// reduced modulo `MODULUS`.
#[derive(Clone, Copy, Debug)]
pub struct Mersenne61Ext {
    real_part: u64,
    imag_part: u64,
}

/// Two integers are congruent modulo `MODULUS`.
pub open spec fn congruent(x: int, y: int) -> bool {
    x % (MODULUS as int) == y % (MODULUS as int)
}

/// `base` raised to `exponent`, reduced after every multiplication.
pub open spec fn power_mod(base: int, exponent: nat) -> int
    decreases exponent,
{
    if exponent == 0 {
        1
    } else {
        (base * power_mod(base, (exponent - 1) as nat)) % (MODULUS as int)
    }
}

impl Mersenne61Ext {
    #[verifier::type_invariant]
    spec fn reduced(self) -> bool {
        self.real_part < MODULUS && self.imag_part < MODULUS
    }

    /// The real coordinate.
    pub closed spec fn re(self) -> int {
        self.real_part as int
    }

    /// The imaginary coordinate.
    pub closed spec fn im(self) -> int {
        self.imag_part as int
    }

    /// The canonical element with the given coordinates modulo `MODULUS`.
    pub closed spec fn residue(re: int, im: int) -> Self {
        Mersenne61Ext { real_part: (re % (MODULUS as int)) as u64, imag_part: (im % (MODULUS as int)) as u64 }
    }

    /// The sum of the squares of the coordinates.
    pub closed spec fn norm(self) -> int {
        self.real_part * self.real_part + self.imag_part * self.imag_part
    }

    /// Builds the element `a + b * i`: its coordinates are `a` and `b`
    /// reduced by `MODULUS`.
    pub fn new(a: u64, b: u64) -> (r: Self)
        ensures
            r == Self::residue(a as int, b as int),
            r.re() == a % MODULUS,
            r.im() == b % MODULUS,
            r.canonical(),
    {
        Mersenne61Ext { real_part: a % MODULUS, imag_part: b % MODULUS }
    }

    /// Reads the real coordinate.
    pub fn real_part(&self) -> (r: u64)
        ensures
            r == self.re(),
    {
        self.real_part
    }

    /// Reads the imaginary coordinate.
    pub fn imag_part(&self) -> (r: u64)
        ensures
            r == self.im(),
    {
        self.imag_part
    }
}

/// Reducing the factors of a sum or difference of two products changes
/// nothing modulo `MODULUS`.
proof fn lemma_reduce_factors(x: int, u: int, y: int, v: int)
    ensures
        congruent((x % (MODULUS as int)) * u - (y % (MODULUS as int)) * v, x * u - y * v),
        congruent((x % (MODULUS as int)) * u + (y % (MODULUS as int)) * v, x * u + y * v),
        congruent(u * (x % (MODULUS as int)) - v * (y % (MODULUS as int)), u * x - v * y),
        congruent(u * (x % (MODULUS as int)) + v * (y % (MODULUS as int)), u * x + v * y),
{
    let p = MODULUS as int;
    lemma_mul_mod_noop_general(x, u, p);
    lemma_mul_mod_noop_general(y, v, p);
    lemma_mul_mod_noop_general(u, x, p);
    lemma_mul_mod_noop_general(v, y, p);
    lemma_sub_mod_noop((x % p) * u, (y % p) * v, p);
    lemma_sub_mod_noop(x * u, y * v, p);
    lemma_add_mod_noop((x % p) * u, (y % p) * v, p);
    lemma_add_mod_noop(x * u, y * v, p);
    lemma_sub_mod_noop(u * (x % p), v * (y % p), p);
    lemma_sub_mod_noop(u * x, v * y, p);
    lemma_add_mod_noop(u * (x % p), v * (y % p), p);
    lemma_add_mod_noop(u * x, v * y, p);
}

/// A sum or difference of two products, multiplied through by `e`.
proof fn lemma_product_of_pair(a: int, b: int, c: int, d: int, e: int)
    ensures
        (a * b - c * d) * e == a * (b * e) - c * (d * e),
        (a * b + c * d) * e == a * (b * e) + c * (d * e),
{
    lemma_mul_is_distributive_sub_other_way(e, a * b, c * d);
    lemma_mul_is_distributive_add_other_way(e, a * b, c * d);
    lemma_mul_is_associative(a, b, e);
    lemma_mul_is_associative(c, d, e);
}

/// One squaring in the extension: `(a + b i)^2 = c + d i`, with the
/// quotients `q` and `r` of the two coordinates by `MODULUS`.
proof fn lemma_square_step(a: u64, b: u64, q: int, c: u64, r: int, d: u64)
    requires
        a * a - b * b == q * MODULUS + c,
        a * b + b * a == r * MODULUS + d,
        c < MODULUS,
        d < MODULUS,
    ensures
        (Mersenne61Ext { real_part: a, imag_part: b }).times(
            Mersenne61Ext { real_part: a, imag_part: b },
        ) == (Mersenne61Ext { real_part: c, imag_part: d }),
{
    lemma_fundamental_div_mod_converse(a * a - b * b, MODULUS as int, q, c as int);
    lemma_fundamental_div_mod_converse(a * b + b * a, MODULUS as int, r, d as int);
}

/// Squarings 1 to 16 of the root of unity.
proof fn lemma_root_squarings_first()
    ensures
        square_times(Mersenne61Ext { real_part: 678189120356968810, imag_part: 406913472214181285 }, 61) == square_times(
            Mersenne61Ext { real_part: 1221480298754088668, imag_part: 29412578572522647 },
            45,
        ),
        square_times(Mersenne61Ext { real_part: 678189120356968810, imag_part: 406913472214181285 }, 60) == square_times(
            Mersenne61Ext { real_part: 1221480298754088668, imag_part: 29412578572522647 },
            44,
        ),
{
    reveal_with_fuel(square_times, 17);
    lemma_square_step(678189120356968810, 406913472214181285, 127659128537782364, 1739355626327284711, 239360866008341932, 1531909542453388368);
    lemma_square_step(1739355626327284711, 1531909542453388368, 294300672623866784, 374142843846026513, 2311116126331063420, 2249384765731910876);
    lemma_square_step(374142843846026513, 2249384765731910876, -2133601002777407110, 2091512057163243403, 729964017317772923, 535989213061422003);
    lemma_square_step(2091512057163243403, 535989213061422003, 1772513667413445518, 51825624905826782, 972336709089037091, 10436727816255877);
    lemma_square_step(51825624905826782, 10436727816255877, 1117582636403163, 1121403824921069382, 469147239329127, 213006265964984851);
    lemma_square_step(1121403824921069382, 213006265964984851, 525697050650736772, 1221193539928703551, 207183264802353859, 579916947470057255);
    lemma_square_step(1221193539928703551, 579916947470057255, 500905738762533595, 873922460976090731, 614257629089071843, 1160964287730103317);
    lemma_square_step(873922460976090731, 1160964287730103317, -253311958902761565, 2125288652285505187, 880018946115874816, 301222657539671438);
    lemma_square_step(2125288652285505187, 301222657539671438, 1919522165399980410, 1212151267675417215, 555272057397050172, 165322884649588240);
    lemma_square_step(1212151267675417215, 165322884649588240, 625358722938376989, 2178242013465165086, 173816121395091413, 1629788006864960437);
    lemma_square_step(2178242013465165086, 1629788006864960437, 905755211243161306, 1077100476448696421, 3079197235379441921, 666804968853885293);
    lemma_square_step(1077100476448696421, 666804968853885293, 310305847804345215, 1334262789655218927, 622953034340177301, 611978667336066455);
    lemma_square_step(1334262789655218927, 611978667336066455, 609642242323975247, 54247100565133407, 708235869160709521, 994481051585780099);
    lemma_square_step(54247100565133407, 994481051585780099, -427630940225928094, 118486998371737242, 46792182642035048, 1627685600113739938);
    lemma_square_step(118486998371737242, 1627685600113739938, -1142888407191754882, 1755248088951641502, 167279021407570251, 1322722862468490291);
    lemma_square_step(1755248088951641502, 1322722862468490291, 577359376831787905, 1221480298754088668, 2013759624816936867, 29412578572522647);
}

/// Squarings 17 to 32 of the root of unity.
proof fn lemma_root_squarings_second()
    ensures
        square_times(Mersenne61Ext { real_part: 1221480298754088668, imag_part: 29412578572522647 }, 45) == square_times(
            Mersenne61Ext { real_part: 1011184563915004150, imag_part: 466001533944497312 },
            29,
        ),
        square_times(Mersenne61Ext { real_part: 1221480298754088668, imag_part: 29412578572522647 }, 44) == square_times(
            Mersenne61Ext { real_part: 1011184563915004150, imag_part: 466001533944497312 },
            28,
        ),
{
    reveal_with_fuel(square_times, 17);
    lemma_square_step(1221480298754088668, 29412578572522647, 646682802995587929, 886365552762210136, 31161605641265533, 1525320783165237509);
    lemma_square_step(886365552762210136, 1525320783165237509, -668284697733100001, 862401798732407366, 1172665956622068716, 1531813398698845532);
    lemma_square_step(862401798732407366, 1531813398698845532, -695067018687864636, 2053778489994711768, 1145818362379118445, 759847053256951229);
    lemma_square_step(2053778489994711768, 759847053256951229, 1578875286424276341, 1558578054688962092, 1353567894630564585, 1798656896047400409);
    lemma_square_step(1558578054688962092, 1798656896047400409, -349547247544701999, 460016383723557232, 2431516070168542771, 2035988126245113035);
    lemma_square_step(460016383723557232, 2035988126245113035, -1705941194261260295, 2134448453730566144, 812360504506991733, 591968924714331157);
    lemma_square_step(2134448453730566144, 591968924714331157, 1823820172059087459, 1259947881329809578, 1095935110035023817, 2088501330983266249);
    lemma_square_step(1259947881329809578, 2088501330983266249, -1203190822083535922, 771986078540615905, 2282378129484346433, 1388158992368139061);
    lemma_square_step(771986078540615905, 1388158992368139061, -577239160391017173, 517180066112227827, 929499027147219176, 1273878590874326034);
    lemma_square_step(517180066112227827, 1273878590874326034, -587763970959268624, 26703103755866197, 571439262096163811, 1183570684054888975);
    lemma_square_step(26703103755866197, 1183570684054888975, -607208080866447474, 492209620243721958, 27412977078172138, 1294103505553618912);
    lemma_square_step(492209620243721958, 1294103505553618912, -621219036639517222, 371318488989014142, 552483575403363373, 2247790135571882669);
    lemma_square_step(371318488989014142, 2247790135571882669, -2131404026063818600, 1936924922754721203, 723940037001549325, 576481185030776921);
    lemma_square_step(1936924922754721203, 576481185030776921, 1482905638428485864, 1500551086165718304, 968496788656965133, 1177513363743501443);
    lemma_square_step(1500551086165718304, 1177513363743501443, 375184189444705959, 48696487125600158, 1532557897376100557, 1360243022312394637);
    lemma_square_step(48696487125600158, 1360243022312394637, -801394424732031205, 1011184563915004150, 57453223449336980, 466001533944497312);
}

/// Squarings 33 to 48 of the root of unity.
proof fn lemma_root_squarings_third()
    ensures
        square_times(Mersenne61Ext { real_part: 1011184563915004150, imag_part: 466001533944497312 }, 29) == square_times(
            Mersenne61Ext { real_part: 1720814545316880070, imag_part: 2181521514087623306 },
            13,
        ),
        square_times(Mersenne61Ext { real_part: 1011184563915004150, imag_part: 466001533944497312 }, 28) == square_times(
            Mersenne61Ext { real_part: 1720814545316880070, imag_part: 2181521514087623306 },
            12,
        ),
{
    reveal_with_fuel(square_times, 17);
    lemma_square_step(1011184563915004150, 466001533944497312, 349259160074378707, 1060626927372895799, 408712610531170651, 1547692208220257499);
    lemma_square_step(1060626927372895799, 1547692208220257499, -550957583513219400, 1375488587361962800, 1423795136758588900, 1848357426924949502);
    lemma_square_step(1375488587361962800, 1848357426924949502, -661127543208356000, 1325529793188347996, 2205175752158394071, 1995243925358086679);
    lemma_square_step(1325529793188347996, 1995243925358086679, -964492847154754095, 700198769913946320, 2293959525581136078, 537096069191426390);
    lemma_square_step(700198769913946320, 537096069191426390, 87519457760890292, 1904621265278086608, 326192204300756807, 1359626692004795143);
    lemma_square_step(1904621265278086608, 1359626692004795143, 771517148144550433, 1432599298006024432, 2246097327601753984, 94722172732539104);
    lemma_square_step(1432599298006024432, 94722172732539104, 886169808818416352, 146087251069913056, 117700049500347415, 313340306054791191);
    lemma_square_step(146087251069913056, 313340306054791191, -33324325275531017, 1258542520433838822, 39703504339230129, 1565329501645129713);
    lemma_square_step(1258542520433838822, 1565329501645129713, -375709521211530011, 2012373484684548776, 1708731885421548720, 1762625266934443452);
    lemma_square_step(2012373484684548776, 1762625266934443452, 408873980777735565, 2143209715019354557, 3076584430458227433, 812977353001271721);
    lemma_square_step(2143209715019354557, 812977353001271721, 1705413460650716860, 1475080008806650548, 1511274578608200172, 213239575439605622);
    lemma_square_step(1475080008806650548, 213239575439605622, 923909350001169642, 849414898274457878, 272824675019520718, 734327537424584894);
    lemma_square_step(849414898274457878, 734327537424584894, 79046464335274590, 148308800776266558, 541015800303194913, 1790105998194118601);
    lemma_square_step(148308800776266558, 1790105998194118601, -1380182419907291612, 2077461648092409175, 230274544098389813, 1284606955605969553);
    lemma_square_step(2077461648092409175, 1284606955605969553, 1156033545324747705, 1956871666301528361, 2314747077299247384, 488308192122323366);
    lemma_square_step(1956871666301528361, 488308192122323366, 1557305425187843545, 1720814545316880070, 828813116737681246, 2181521514087623306);
}

/// Squarings 49 to 60 of the root of unity.
proof fn lemma_root_squarings_fourth()
    ensures
        square_times(Mersenne61Ext { real_part: 1720814545316880070, imag_part: 2181521514087623306 }, 13) == square_times(
            Mersenne61Ext { real_part: 2305843009213693950, imag_part: 0 },
            1,
        ),
        square_times(Mersenne61Ext { real_part: 1720814545316880070, imag_part: 2181521514087623306 }, 12) == square_times(
            Mersenne61Ext { real_part: 2305843009213693950, imag_part: 0 },
            0,
        ),
{
    reveal_with_fuel(square_times, 13);
    lemma_square_step(1720814545316880070, 2181521514087623306, -779685958614367049, 1644497888073855863, 3256070718920122259, 2070866948749067531);
    lemma_square_step(1644497888073855863, 2070866948749067531, -687001070416365432, 993423666724940640, 2953831904506889573, 212850265319495583);
    lemma_square_step(993423666724940640, 212850265319495583, 408347551156022724, 881833364629757187, 183404065404414183, 822376094228679207);
    lemma_square_step(881833364629757187, 822376094228679207, 43943860102589618, 1162924952062003402, 629009585879874317, 1009680593068264951);
    lemma_square_step(1162924952062003402, 1009680593068264951, 144389510812040935, 1135010179550657018, 1018441195345948915, 118610923908213439);
    lemma_square_step(1135010179550657018, 118610923908213439, 552587297279946833, 459451661878738420, 116768232272359631, 1281498681413237723);
    lemma_square_step(459451661878738420, 1281498681413237723, -620659357615486836, 1256665153847200707, 510691054436965991, 833621311517414879);
    lemma_square_step(1256665153847200707, 833621311517414879, 383496540893883062, 697323983679957246, 908633284661967789, 83304533336094567);
    lemma_square_step(697323983679957246, 83304533336094567, 207872388113877754, 1693317751237720973, 50385259371438629, 2283815672160731785);
    lemma_square_step(1693317751237720973, 2283815672160731785, -1018494758041247320, 1073741824, 3354283533416632086, 1073741824);
    lemma_square_step(1073741824, 1073741824, 0, 0, 1, 1);
    lemma_square_step(0, 1, -1, 2305843009213693950, 0, 0);
}

/// The last squaring of the root of unity: minus one squared is one.
proof fn lemma_root_squarings_last()
    ensures
        square_times(Mersenne61Ext { real_part: 2305843009213693950, imag_part: 0 }, 1) == (Mersenne61Ext {
            real_part: 1,
            imag_part: 0,
        }),
{
    reveal_with_fuel(square_times, 2);
    lemma_square_step(2305843009213693950, 0, 2305843009213693949, 1, 0, 0);
}

/// Reducing the terms of a sum or difference changes nothing modulo
/// `MODULUS`.
proof fn lemma_reduce_terms(x: int, y: int)
    ensures
        congruent((x % (MODULUS as int)) + (y % (MODULUS as int)), x + y),
        congruent((x % (MODULUS as int)) - (y % (MODULUS as int)), x - y),
        congruent((x % (MODULUS as int)) + y, x + y),
        congruent(x + (y % (MODULUS as int)), x + y),
        congruent((x % (MODULUS as int)) - y, x - y),
        congruent(x - (y % (MODULUS as int)), x - y),
{
    let p = MODULUS as int;
    lemma_add_mod_noop(x, y, p);
    lemma_sub_mod_noop(x, y, p);
    lemma_add_mod_noop(x % p, y, p);
    lemma_add_mod_noop(x, y % p, p);
    lemma_sub_mod_noop(x % p, y, p);
    lemma_sub_mod_noop(x, y % p, p);
    vstd::arithmetic::div_mod::lemma_mod_twice(x, p);
    vstd::arithmetic::div_mod::lemma_mod_twice(y, p);
}

impl FieldOps for Mersenne61Ext {
    closed spec fn canonical(self) -> bool {
        self.real_part < MODULUS && self.imag_part < MODULUS
    }

    closed spec fn zero() -> Self {
        Mersenne61Ext { real_part: 0, imag_part: 0 }
    }

    closed spec fn one() -> Self {
        Mersenne61Ext { real_part: 1, imag_part: 0 }
    }

    closed spec fn plus(self, rhs: Self) -> Self {
        Self::residue(self.real_part + rhs.real_part, self.imag_part + rhs.imag_part)
    }

    closed spec fn minus(self, rhs: Self) -> Self {
        Self::residue(self.real_part - rhs.real_part, self.imag_part - rhs.imag_part)
    }

    closed spec fn times(self, rhs: Self) -> Self {
        Self::residue(
            self.real_part * rhs.real_part - self.imag_part * rhs.imag_part,
            self.real_part * rhs.imag_part + self.imag_part * rhs.real_part,
        )
    }

    /// The conjugate times the norm raised to `MODULUS - 2`.
    closed spec fn inv(self) -> Self {
        let scale = power_mod(self.norm() % (MODULUS as int), (MODULUS - 2) as nat);
        Self::residue(self.real_part * scale, (-self.imag_part) * scale)
    }

    closed spec fn embed(x: u64) -> Self {
        Self::residue(x as int, 0)
    }

    closed spec fn half() -> Self {
        Mersenne61Ext { real_part: 0x1000_0000_0000_0000, imag_part: 0 }
    }

    closed spec fn log_order() -> nat {
        61
    }

    closed spec fn unity_root() -> Self {
        Mersenne61Ext { real_part: 678189120356968810, imag_part: 406913472214181285 }
    }

    /// The real coordinate, then the imaginary one, each as eight
    /// little-endian bytes.
    closed spec fn encoding(self) -> Seq<u8> {
        spec_u64_to_le_bytes(self.real_part) + spec_u64_to_le_bytes(self.imag_part)
    }

    closed spec fn name() -> Seq<char> {
        "Mersenne61Ext"@
    }

    fn field_name() -> (name: &'static str) {
        "Mersenne61Ext"
    }

    fn log_order_value() -> (k: usize) {
        61
    }

    fn root_of_unity() -> (r: Self) {
        Mersenne61Ext { real_part: 678189120356968810, imag_part: 406913472214181285 }
    }

    fn inverse_2() -> (r: Self) {
        Mersenne61Ext { real_part: 0x1000_0000_0000_0000, imag_part: 0 }
    }

    fn from_int(x: u64) -> (r: Self) {
        Mersenne61Ext { real_part: x % MODULUS, imag_part: 0 }
    }

    fn is_zero(&self) -> (b: bool) {
        self.real_part == 0 && self.imag_part == 0
    }

    fn random_element() -> (r: Self) {
        Mersenne61Ext::new(random_u64(), random_u64())
    }

    fn inverse(&self) -> (r: Self) {
        proof {
            use_type_invariant(self);
        }
        let ghost p = MODULUS as int;
        let squares = mul_mod(self.real_part, self.real_part) + mul_mod(
            self.imag_part,
            self.imag_part,
        );
        let norm = squares % MODULUS;
        let scale = fermat_power(norm);
        let negated = sub_mod(0, self.imag_part);
        proof {
            lemma_add_mod_noop(
                self.real_part * self.real_part,
                self.imag_part * self.imag_part,
                p,
            );
            lemma_mul_mod_noop_general(-self.imag_part, scale as int, p);
        }
        Mersenne61Ext {
            real_part: mul_mod(self.real_part, scale),
            imag_part: mul_mod(negated, scale),
        }
    }

    fn to_bytes(&self) -> (b: Vec<u8>) {
        let mut bytes = u64_to_le_bytes(self.real_part);
        let mut tail = u64_to_le_bytes(self.imag_part);
        bytes.append(&mut tail);
        bytes
    }

    fn add(self, rhs: Self) -> (r: Self) {
        proof {
            use_type_invariant(self);
            use_type_invariant(rhs);
        }
        Mersenne61Ext {
            real_part: (self.real_part + rhs.real_part) % MODULUS,
            imag_part: (self.imag_part + rhs.imag_part) % MODULUS,
        }
    }

    fn sub(self, rhs: Self) -> (r: Self) {
        proof {
            use_type_invariant(self);
            use_type_invariant(rhs);
        }
        Mersenne61Ext {
            real_part: sub_mod(self.real_part, rhs.real_part),
            imag_part: sub_mod(self.imag_part, rhs.imag_part),
        }
    }

    fn mul(self, rhs: Self) -> (r: Self) {
        proof {
            use_type_invariant(self);
            use_type_invariant(rhs);
        }
        let ghost p = MODULUS as int;
        let rr = mul_mod(self.real_part, rhs.real_part);
        let ii = mul_mod(self.imag_part, rhs.imag_part);
        let ri = mul_mod(self.real_part, rhs.imag_part);
        let ir = mul_mod(self.imag_part, rhs.real_part);
        proof {
            lemma_sub_mod_noop(
                self.real_part * rhs.real_part,
                self.imag_part * rhs.imag_part,
                p,
            );
            lemma_add_mod_noop(
                self.real_part * rhs.imag_part,
                self.imag_part * rhs.real_part,
                p,
            );
        }
        Mersenne61Ext { real_part: sub_mod(rr, ii), imag_part: (ri + ir) % MODULUS }
    }

    fn equals(&self, rhs: &Self) -> (b: bool) {
        self.real_part == rhs.real_part && self.imag_part == rhs.imag_part
    }

    fn reduced(self) -> (r: Self) {
        proof {
            use_type_invariant(self);
        }
        self
    }

}

impl Field for Mersenne61Ext {
    proof fn lemma_closed(a: Self, b: Self, x: u64) {
    }

    proof fn lemma_commutative(a: Self, b: Self) {
        assert(a.real_part * b.real_part == b.real_part * a.real_part) by (nonlinear_arith);
        assert(a.imag_part * b.imag_part == b.imag_part * a.imag_part) by (nonlinear_arith);
        assert(a.real_part * b.imag_part == b.imag_part * a.real_part) by (nonlinear_arith);
        assert(a.imag_part * b.real_part == b.real_part * a.imag_part) by (nonlinear_arith);
    }

    proof fn lemma_associative(a: Self, b: Self, c: Self) {
        let p = MODULUS as int;
        let (ar, ai) = (a.real_part as int, a.imag_part as int);
        let (br, bi) = (b.real_part as int, b.imag_part as int);
        let (cr, ci) = (c.real_part as int, c.imag_part as int);
        lemma_reduce_terms(ar + br, cr);
        lemma_reduce_terms(ar, br + cr);
        lemma_reduce_terms(ai + bi, ci);
        lemma_reduce_terms(ai, bi + ci);
        let (xr, xi) = (ar * br - ai * bi, ar * bi + ai * br);
        let (yr, yi) = (br * cr - bi * ci, br * ci + bi * cr);
        lemma_reduce_factors(xr, cr, xi, ci);
        lemma_reduce_factors(xr, ci, xi, cr);
        lemma_reduce_factors(yr, ar, yi, ai);
        lemma_reduce_factors(yi, ar, yr, ai);
        lemma_product_of_pair(ar, br, ai, bi, cr);
        lemma_product_of_pair(ar, bi, ai, br, ci);
        lemma_product_of_pair(ar, br, ai, bi, ci);
        lemma_product_of_pair(ar, bi, ai, br, cr);
        lemma_mul_is_distributive_sub(ar, br * cr, bi * ci);
        lemma_mul_is_distributive_add(ai, br * ci, bi * cr);
        lemma_mul_is_distributive_add(ar, br * ci, bi * cr);
        lemma_mul_is_distributive_sub(ai, br * cr, bi * ci);
    }

    proof fn lemma_distributive(a: Self, b: Self, c: Self) {
        let p = MODULUS as int;
        let (ar, ai) = (a.real_part as int, a.imag_part as int);
        let (br, bi) = (b.real_part as int, b.imag_part as int);
        let (cr, ci) = (c.real_part as int, c.imag_part as int);
        lemma_reduce_factors(br + cr, ar, bi + ci, ai);
        lemma_reduce_factors(bi + ci, ar, br + cr, ai);
        lemma_reduce_factors(br - cr, ar, bi - ci, ai);
        lemma_reduce_factors(bi - ci, ar, br - cr, ai);
        lemma_reduce_terms(ar * br - ai * bi, ar * cr - ai * ci);
        lemma_reduce_terms(ar * bi + ai * br, ar * ci + ai * cr);
        assert(ar * (br + cr) - ai * (bi + ci) == (ar * br - ai * bi) + (ar * cr - ai * ci))
            by (nonlinear_arith);
        assert(ar * (bi + ci) + ai * (br + cr) == (ar * bi + ai * br) + (ar * ci + ai * cr))
            by (nonlinear_arith);
        assert(ar * (br - cr) - ai * (bi - ci) == (ar * br - ai * bi) - (ar * cr - ai * ci))
            by (nonlinear_arith);
        assert(ar * (bi - ci) + ai * (br - cr) == (ar * bi + ai * br) - (ar * ci + ai * cr))
            by (nonlinear_arith);
    }

    proof fn lemma_neutral(a: Self) {
        lemma_small_mod(a.real_part as nat, MODULUS as nat);
        lemma_small_mod(a.imag_part as nat, MODULUS as nat);
        assert(a.real_part * 1 - a.imag_part * 0 == a.real_part) by (nonlinear_arith);
        assert(a.real_part * 0 + a.imag_part * 1 == a.imag_part) by (nonlinear_arith);
        assert(a.real_part * 0 - a.imag_part * 0 == 0) by (nonlinear_arith);
        assert(a.real_part * 0 + a.imag_part * 0 == 0) by (nonlinear_arith);
    }

    proof fn lemma_negation(a: Self, b: Self) {
        lemma_reduce_terms(a.real_part as int, 0 - b.real_part);
        lemma_reduce_terms(a.imag_part as int, 0 - b.imag_part);
        lemma_reduce_terms(a.real_part as int, 0 - a.real_part);
        lemma_reduce_terms(a.imag_part as int, 0 - a.imag_part);
    }

    proof fn lemma_minus_plus(a: Self, b: Self) {
        lemma_small_mod(a.real_part as nat, MODULUS as nat);
        lemma_small_mod(a.imag_part as nat, MODULUS as nat);
        lemma_reduce_terms(a.real_part - b.real_part, b.real_part as int);
        lemma_reduce_terms(a.imag_part - b.imag_part, b.imag_part as int);
        lemma_reduce_terms(a.real_part + b.real_part, b.real_part as int);
        lemma_reduce_terms(a.imag_part + b.imag_part, b.imag_part as int);
    }

    proof fn lemma_encoding(a: Self, b: Self) {
        vstd::bytes::lemma_auto_spec_u64_to_from_le_bytes();
        if a.encoding() == b.encoding() {
            assert(spec_u64_to_le_bytes(a.real_part) =~= a.encoding().subrange(0, 8));
            assert(spec_u64_to_le_bytes(b.real_part) =~= b.encoding().subrange(0, 8));
            assert(spec_u64_to_le_bytes(a.imag_part) =~= a.encoding().subrange(8, 16));
            assert(spec_u64_to_le_bytes(b.imag_part) =~= b.encoding().subrange(8, 16));
        }
    }

    proof fn lemma_unity_root() {
        lemma_root_squarings_first();
        lemma_root_squarings_second();
        lemma_root_squarings_third();
        lemma_root_squarings_fourth();
        lemma_root_squarings_last();
    }

    proof fn lemma_embed() {
        assert(0x1000_0000_0000_0000int * 2 - 0 * 0 == MODULUS + 1) by (nonlinear_arith);
        assert(0x1000_0000_0000_0000int * 0 + 0 * 2 == 0) by (nonlinear_arith);
    }
}


/// The product of two reduced values, reduced.
fn mul_mod(a: u64, b: u64) -> (r: u64)
    requires
        a < MODULUS,
        b < MODULUS,
    ensures
        r == (a * b) % (MODULUS as int),
{
    assert(a * b < 0x2000_0000_0000_0000 * 0x2000_0000_0000_0000) by (nonlinear_arith)
        requires
            a < 0x2000_0000_0000_0000,
            b < 0x2000_0000_0000_0000,
    ;
    let wide: u128 = (a as u128) * (b as u128);
    (wide % (MODULUS as u128)) as u64
}

/// The difference of two reduced values, reduced.
fn sub_mod(a: u64, b: u64) -> (r: u64)
    requires
        a < MODULUS,
        b < MODULUS,
    ensures
        r == (a - b) % (MODULUS as int),
{
    proof {
        lemma_mod_multiples_vanish(1, a - b, MODULUS as int);
    }
    (a + MODULUS - b) % MODULUS
}

/// `base` raised to `MODULUS - 2`.
fn fermat_power(base: u64) -> (r: u64)
    requires
        base < MODULUS,
    ensures
        r == power_mod(base as int, (MODULUS - 2) as nat),
        r < MODULUS,
{
    // MODULUS - 2 = 2^61 - 3 has binary digits 1...101: fifty-nine ones, a zero, a one.
    let mut acc: u64 = base;
    let mut done: u64 = 1;
    let mut round: usize = 1;
    proof {
        lemma_power_mod_unfold(base as int, 1);
        lemma_small_mod(base as nat, MODULUS as nat);
        reveal_with_fuel(pow2_minus_one, 2);
    }
    while round < 59
        invariant
            1 <= round <= 59,
            base < MODULUS,
            acc < MODULUS,
            1 <= done < MODULUS,
            done == pow2_minus_one(round as nat),
            acc == power_mod(base as int, done as nat),
        decreases 59 - round,
    {
        proof {
            lemma_power_mod_add(base as int, done as nat, done as nat);
            lemma_power_mod_add(base as int, (done + done) as nat, 1);
            lemma_power_mod_unfold(base as int, 1);
            lemma_small_mod(base as nat, MODULUS as nat);
            lemma_pow2_minus_one_bound(round as nat);
            lemma_pow2_minus_one_bound((round + 1) as nat);
            lemma_pow2_minus_one_value();
        }
        let squared = mul_mod(acc, acc);
        acc = mul_mod(squared, base);
        done = done + done + 1;
        round = round + 1;
    }
    proof {
        lemma_pow2_minus_one_value();
        lemma_power_mod_add(base as int, done as nat, done as nat);
        lemma_power_mod_add(base as int, (done + done) as nat, (done + done) as nat);
        lemma_power_mod_add(base as int, (4 * done) as nat, 1);
        lemma_power_mod_unfold(base as int, 1);
        lemma_small_mod(base as nat, MODULUS as nat);
    }
    let squared = mul_mod(acc, acc);
    let fourth = mul_mod(squared, squared);
    mul_mod(fourth, base)
}

/// `2^k - 1`.
pub open spec fn pow2_minus_one(k: nat) -> nat
    decreases k,
{
    if k == 0 {
        0
    } else {
        2 * pow2_minus_one((k - 1) as nat) + 1
    }
}

proof fn lemma_pow2_minus_one_bound(k: nat)
    requires
        k <= 59,
    ensures
        pow2_minus_one(k) <= pow2_minus_one(59),
        k >= 1 ==> pow2_minus_one(k) >= 1,
    decreases 59 - k,
{
    if k < 59 {
        lemma_pow2_minus_one_bound(k + 1);
    }
}

proof fn lemma_pow2_minus_one_value()
    ensures
        pow2_minus_one(59) == 0x7ff_ffff_ffff_ffff,
{
    reveal_with_fuel(pow2_minus_one, 60);
}

proof fn lemma_power_mod_unfold(base: int, exponent: nat)
    requires
        exponent >= 1,
    ensures
        power_mod(base, exponent) == (base * power_mod(base, (exponent - 1) as nat)) % (
        MODULUS as int),
        power_mod(base, 0) == 1,
        0 <= power_mod(base, exponent) < MODULUS,
{
}

/// Exponents add when powers are multiplied.
proof fn lemma_power_mod_add(base: int, e1: nat, e2: nat)
    ensures
        power_mod(base, e1 + e2) == (power_mod(base, e1) * power_mod(base, e2)) % (
        MODULUS as int),
    decreases e1,
{
    let p = MODULUS as int;
    let other = power_mod(base, e2);
    if e1 == 0 {
        assert(power_mod(base, e1) == 1);
        assert(1 * other == other);
        if e2 > 0 {
            lemma_power_mod_unfold(base, e2);
        }
        lemma_small_mod(other as nat, p as nat);
    } else {
        let rest = power_mod(base, (e1 - 1) as nat);
        lemma_power_mod_add(base, (e1 - 1) as nat, e2);
        lemma_power_mod_unfold(base, e1 + e2);
        lemma_power_mod_unfold(base, e1);
        assert((e1 + e2 - 1) as nat == (e1 - 1) as nat + e2);
        assert(power_mod(base, e1 + e2) == (base * ((rest * other) % p)) % p);
        lemma_mul_mod_noop_general(base, rest * other, p);
        lemma_mul_mod_noop_general(base * rest, other, p);
        assert(base * (rest * other) == (base * rest) * other) by (nonlinear_arith);
    }
}

} // verus!
