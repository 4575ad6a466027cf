//! Turns a request into a quantised vector: fourteen features, each in sixteen bits, and two
//! lanes of zeros. One on the unit scale is `SCALE`; a feature that is missing is `-SCALE`.
use crate::distance;
use crate::parse::Transaction;
use crate::search;
use vstd::prelude::*;

verus! {

/// The value of one.
pub const SCALE: i16 = 16000;

/// The number of installments that counts as one.
pub const MAX_INSTALLMENTS: usize = 12;

/// The last hour of a day, which counts as one.
pub const MAX_HOUR: usize = 23;

/// The last day of a week, which counts as one.
pub const MAX_DAY: usize = 6;

/// The number of transactions in a day that counts as one.
pub const MAX_TX_COUNT: usize = 20;

/// The risk of a merchant category that has none of its own.
pub const DEFAULT_RISK: i16 = 8000;

/// The risk of a merchant category.
pub struct MccRisk {
    pub code: Vec<u8>,
    pub risk: i16,
}

/// The numbers of a request. Those that are sizes are already quantised; the counts are not.
pub struct Measures {
    pub amount: i16,
    pub installments: u32,
    pub amount_vs_avg: i16,
    /// Counts only where the request gives the time since the last transaction.
    pub minutes_since_last: i16,
    pub km_from_last: Option<i16>,
    pub km_from_home: i16,
    pub tx_count_24h: u32,
    pub merchant_avg: i16,
}

/// The quantised value of `i` on a scale on which `max` is one.
pub open spec fn level(i: int, max: int) -> i16 {
    (SCALE * i / max) as i16
}

/// `i`, or `max` if that is less.
pub open spec fn capped(i: int, max: int) -> int {
    if i < max {
        i
    } else {
        max
    }
}

/// The quantised value of a condition.
pub open spec fn flag(b: bool) -> i16 {
    if b {
        SCALE
    } else {
        0
    }
}

/// The risk that the first entry for `code` gives, or the default.
pub open spec fn risk_of(risks: Seq<MccRisk>, code: Seq<u8>) -> i16
    decreases risks.len(),
{
    if risks.len() == 0 {
        DEFAULT_RISK
    } else if risks[0].code@ == code {
        risks[0].risk
    } else {
        risk_of(risks.drop_first(), code)
    }
}

/// The vector of a request.
pub open spec fn features(tx: Transaction, m: Measures, risks: Seq<MccRisk>) -> Seq<i16> {
    seq![
        m.amount,
        level(capped(m.installments as int, MAX_INSTALLMENTS as int), MAX_INSTALLMENTS as int),
        m.amount_vs_avg,
        level(tx.hour as int, MAX_HOUR as int),
        level(tx.day_of_week as int, MAX_DAY as int),
        if tx.minutes_since_last is Some { m.minutes_since_last } else { (-SCALE) as i16 },
        match m.km_from_last { Some(km) => km, None => (-SCALE) as i16 },
        m.km_from_home,
        level(capped(m.tx_count_24h as int, MAX_TX_COUNT as int), MAX_TX_COUNT as int),
        flag(tx.is_online),
        flag(tx.card_present),
        flag(tx.unknown_merchant),
        risk_of(risks, tx.code()),
        m.merchant_avg,
        0,
        0,
    ]
}

/// `x` lies between zero and one.
pub open spec fn on_scale(x: i16) -> bool {
    0 <= x <= SCALE
}

/// Every quantised number of a request lies between zero and one.
pub open spec fn measures_on_scale(m: Measures) -> bool {
    &&& on_scale(m.amount)
    &&& on_scale(m.amount_vs_avg)
    &&& on_scale(m.minutes_since_last)
    &&& m.km_from_last matches Some(km) ==> on_scale(km)
    &&& on_scale(m.km_from_home)
    &&& on_scale(m.merchant_avg)
}

/// A level lies between zero and one.
proof fn lemma_level(i: int, max: int)
    requires
        0 <= i <= max,
        0 < max,
    ensures
        0 <= SCALE * i / max <= SCALE,
{
    assert(0 <= 16000 * i / max <= 16000) by (nonlinear_arith)
        requires
            0 <= i <= max,
            0 < max,
    ;
}

/// The risk of a category is the default or that of an entry.
proof fn lemma_risk_of(risks: Seq<MccRisk>, code: Seq<u8>)
    requires
        forall|i: int| 0 <= i < risks.len() ==> on_scale((#[trigger] risks[i]).risk),
    ensures
        on_scale(risk_of(risks, code)),
    decreases risks.len(),
{
    if risks.len() > 0 {
        let rest = risks.drop_first();
        assert(on_scale(risks[0].risk));
        assert forall|i: int| 0 <= i < rest.len() implies on_scale((#[trigger] rest[i]).risk) by {
            assert(on_scale(risks[i + 1].risk));
        }
        lemma_risk_of(rest, code);
    }
}

/// Where all numbers and risks lie between zero and one, so does every feature, but for the
/// time and the distance from the last transaction: each of these is `-SCALE` exactly where it
/// is missing. Such a vector is compared with others like it by squared Euclidean distance.
pub proof fn lemma_features_on_scale(tx: Transaction, m: Measures, risks: Seq<MccRisk>)
    requires
        tx.hour <= MAX_HOUR,
        tx.day_of_week <= MAX_DAY,
        measures_on_scale(m),
        forall|i: int| 0 <= i < risks.len() ==> on_scale((#[trigger] risks[i]).risk),
    ensures
        ({
            let v = features(tx, m, risks);
            &&& v.len() == distance::DIM_PAD
            &&& forall|i: int| 0 <= i < v.len() && i != 5 && i != 6 ==> on_scale(#[trigger] v[i])
            &&& v[5] == -SCALE <==> tx.minutes_since_last is None
            &&& v[6] == -SCALE <==> m.km_from_last is None
            &&& tx.minutes_since_last is Some ==> on_scale(v[5])
            &&& m.km_from_last is Some ==> on_scale(v[6])
            &&& distance::in_range(v)
            &&& v[14] == 0 && v[15] == 0
        }),
{
    lemma_level(
        capped(m.installments as int, MAX_INSTALLMENTS as int),
        MAX_INSTALLMENTS as int,
    );
    lemma_level(tx.hour as int, MAX_HOUR as int);
    lemma_level(tx.day_of_week as int, MAX_DAY as int);
    lemma_level(capped(m.tx_count_24h as int, MAX_TX_COUNT as int), MAX_TX_COUNT as int);
    lemma_risk_of(risks, tx.code());
    let v = features(tx, m, risks);
    assert forall|i: int| 0 <= i < v.len() && i != 5 && i != 6 implies on_scale(
        #[trigger] v[i],
    ) by {}
    assert forall|i: int| 0 <= i < v.len() implies -SCALE <= #[trigger] v[i] <= SCALE by {
        if i != 5 && i != 6 {
            assert(on_scale(v[i]));
        }
    }
}

/// The text of a request and its numbers determine its vector.
pub proof fn lemma_text_determines_features(
    a: Transaction,
    b: Transaction,
    s: Seq<u8>,
    m: Measures,
    risks: Seq<MccRisk>,
)
    requires
        a.reads(s),
        b.reads(s),
    ensures
        features(a, m, risks) == features(b, m, risks),
{
    assert(a.minutes_since_last is Some <==> b.minutes_since_last is Some);
    assert(a.code() == b.code());
    assert(features(a, m, risks) =~= features(b, m, risks));
}

/// A level is the whole part of its share of 16000, from zero for nothing to 16000 for `max`.
pub proof fn lemma_level_is_share(i: int, max: int)
    requires
        0 <= i <= max,
        0 < max,
    ensures
        max * level(i, max) <= 16000 * i < max * level(i, max) + max,
        level(0, max) == 0,
        level(max, max) == 16000,
{
    lemma_level(i, max);
    vstd::arithmetic::div_mod::lemma_fundamental_div_mod(16000 * i, max);
    vstd::arithmetic::div_mod::lemma_fundamental_div_mod_converse(16000 * max, max, 16000, 0);
    vstd::arithmetic::div_mod::lemma_fundamental_div_mod_converse(0, max, 0, 0);
}

/// A category has the risk of the first entry with its code, and 8000 where there is none.
pub proof fn lemma_first_risk(risks: Seq<MccRisk>, code: Seq<u8>, i: int)
    requires
        0 <= i <= risks.len(),
        forall|j: int| 0 <= j < i ==> (#[trigger] risks[j]).code@ != code,
        i < risks.len() ==> risks[i].code@ == code,
    ensures
        risk_of(risks, code) == if i < risks.len() {
            risks[i].risk
        } else {
            8000
        },
    decreases risks.len(),
{
    if risks.len() > 0 && i > 0 {
        let rest = risks.drop_first();
        assert(risks[0].code@ != code);
        assert forall|j: int| 0 <= j < i - 1 implies (#[trigger] rest[j]).code@ != code by {
            assert(risks[j + 1].code@ != code);
        }
        lemma_first_risk(rest, code, i - 1);
    }
}

/// What each lane holds. The sizes stand as they are given; the counts, the hour and the day
/// are shares of 16000, rounded down; a condition is 16000 where it holds and zero where not;
/// what is missing of the last transaction is -16000.
pub proof fn lemma_what_lanes_hold(tx: Transaction, m: Measures, risks: Seq<MccRisk>)
    requires
        tx.hour <= 23,
        tx.day_of_week <= 6,
    ensures
        ({
            let v = features(tx, m, risks);
            let parts: int = if m.installments < 12 {
                m.installments as int
            } else {
                12
            };
            let count: int = if m.tx_count_24h < 20 {
                m.tx_count_24h as int
            } else {
                20
            };
            &&& v.len() == 16
            &&& v[0] == m.amount
            &&& 12 * v[1] <= 16000 * parts < 12 * v[1] + 12
            &&& v[2] == m.amount_vs_avg
            &&& 23 * v[3] <= 16000 * tx.hour < 23 * v[3] + 23
            &&& 6 * v[4] <= 16000 * tx.day_of_week < 6 * v[4] + 6
            &&& tx.minutes_since_last is Some ==> v[5] == m.minutes_since_last
            &&& tx.minutes_since_last is None ==> v[5] == -16000
            &&& m.km_from_last matches Some(km) ==> v[6] == km
            &&& m.km_from_last is None ==> v[6] == -16000
            &&& v[7] == m.km_from_home
            &&& 20 * v[8] <= 16000 * count < 20 * v[8] + 20
            &&& v[9] == if tx.is_online { 16000int } else { 0 }
            &&& v[10] == if tx.card_present { 16000int } else { 0 }
            &&& v[11] == if tx.unknown_merchant { 16000int } else { 0 }
            &&& v[13] == m.merchant_avg
            &&& v[14] == 0 && v[15] == 0
        }),
{
    lemma_level_is_share(capped(m.installments as int, 12), 12);
    lemma_level_is_share(tx.hour as int, 23);
    lemma_level_is_share(tx.day_of_week as int, 6);
    lemma_level_is_share(capped(m.tx_count_24h as int, 20), 20);
}

/// Lane 12 holds the risk of the first entry, at `i`, for the category code of the request: the
/// first `mcc_len` characters that it keeps.
pub proof fn lemma_lane_of_the_risk(tx: Transaction, m: Measures, risks: Seq<MccRisk>, i: int)
    requires
        tx.mcc_len <= 8,
        0 <= i <= risks.len(),
        forall|j: int|
            0 <= j < i ==> (#[trigger] risks[j]).code@ != tx.mcc@.subrange(0, tx.mcc_len as int),
        i < risks.len() ==> risks[i].code@ == tx.mcc@.subrange(0, tx.mcc_len as int),
    ensures
        features(tx, m, risks)[12] == if i < risks.len() {
            risks[i].risk
        } else {
            8000
        },
{
    assert(tx.code() =~= tx.mcc@.subrange(0, tx.mcc_len as int));
    lemma_first_risk(risks, tx.code(), i);
}

/// Each condition has a lane of its own: two requests that differ in it alone differ in that
/// lane and in no other.
pub proof fn lemma_conditions_have_lanes(
    a: Transaction,
    b: Transaction,
    m: Measures,
    risks: Seq<MccRisk>,
)
    requires
        a.hour == b.hour,
        a.day_of_week == b.day_of_week,
        a.mcc == b.mcc,
        a.mcc_len == b.mcc_len,
        a.minutes_since_last is Some <==> b.minutes_since_last is Some,
    ensures
        ({
            let v = features(a, m, risks);
            let w = features(b, m, risks);
            &&& a.is_online != b.is_online <==> v[9] != w[9]
            &&& a.card_present != b.card_present <==> v[10] != w[10]
            &&& a.unknown_merchant != b.unknown_merchant <==> v[11] != w[11]
            &&& forall|j: int|
                0 <= j < 16 && j != 9 && j != 10 && j != 11 ==> #[trigger] v[j] == w[j]
        }),
{
}

/// The quantised value of `i` on a scale on which `max` is one.
fn level_at(i: usize, max: usize) -> (x: i16)
    requires
        i <= max <= u16::MAX,
        0 < max,
    ensures
        x == level(i as int, max as int),
{
    proof {
        lemma_level(i as int, max as int);
    }
    assert(SCALE * i <= u32::MAX) by (nonlinear_arith)
        requires
            i <= u16::MAX,
            SCALE == 16000,
    ;
    (SCALE as u32 * i as u32 / max as u32) as i16
}

/// The levels of zero to twelve installments.
pub fn build_lut_13() -> (t: [i16; 13])
    ensures
        forall|i: int| 0 <= i < 13 ==> t@[i] == level(i, MAX_INSTALLMENTS as int),
{
    let mut t: [i16; 13] = [0; 13];
    let mut i: usize = 0;
    while i < 13
        invariant
            i <= 13,
            forall|j: int| 0 <= j < i ==> t@[j] == level(j, MAX_INSTALLMENTS as int),
        decreases 13 - i,
    {
        t[i] = level_at(i, MAX_INSTALLMENTS);
        i += 1;
    }
    t
}

/// The levels of the hours of a day.
pub fn build_lut_24() -> (t: [i16; 24])
    ensures
        forall|i: int| 0 <= i < 24 ==> t@[i] == level(i, MAX_HOUR as int),
{
    let mut t: [i16; 24] = [0; 24];
    let mut i: usize = 0;
    while i < 24
        invariant
            i <= 24,
            forall|j: int| 0 <= j < i ==> t@[j] == level(j, MAX_HOUR as int),
        decreases 24 - i,
    {
        t[i] = level_at(i, MAX_HOUR);
        i += 1;
    }
    t
}

/// The levels of the days of a week.
pub fn build_lut_7() -> (t: [i16; 7])
    ensures
        forall|i: int| 0 <= i < 7 ==> t@[i] == level(i, MAX_DAY as int),
{
    let mut t: [i16; 7] = [0; 7];
    let mut i: usize = 0;
    while i < 7
        invariant
            i <= 7,
            forall|j: int| 0 <= j < i ==> t@[j] == level(j, MAX_DAY as int),
        decreases 7 - i,
    {
        t[i] = level_at(i, MAX_DAY);
        i += 1;
    }
    t
}

/// The levels of zero to twenty transactions in a day.
pub fn build_lut_21() -> (t: [i16; 21])
    ensures
        forall|i: int| 0 <= i < 21 ==> t@[i] == level(i, MAX_TX_COUNT as int),
{
    let mut t: [i16; 21] = [0; 21];
    let mut i: usize = 0;
    while i < 21
        invariant
            i <= 21,
            forall|j: int| 0 <= j < i ==> t@[j] == level(j, MAX_TX_COUNT as int),
        decreases 21 - i,
    {
        t[i] = level_at(i, MAX_TX_COUNT);
        i += 1;
    }
    t
}

/// The tables that vectors are made with.
pub struct Tables {
    installments: [i16; 13],
    hours: [i16; 24],
    days: [i16; 7],
    tx_counts: [i16; 21],
    risks: Vec<MccRisk>,
}

impl View for Tables {
    type V = Seq<MccRisk>;

    closed spec fn view(&self) -> Seq<MccRisk> {
        self.risks@
    }
}

impl Tables {
    #[verifier::type_invariant]
    spec fn inv(self) -> bool {
        &&& forall|i: int|
            0 <= i < 13 ==> self.installments@[i] == level(i, MAX_INSTALLMENTS as int)
        &&& forall|i: int| 0 <= i < 24 ==> self.hours@[i] == level(i, MAX_HOUR as int)
        &&& forall|i: int| 0 <= i < 7 ==> self.days@[i] == level(i, MAX_DAY as int)
        &&& forall|i: int| 0 <= i < 21 ==> self.tx_counts@[i] == level(i, MAX_TX_COUNT as int)
    }

    /// The tables, with `risks` as the risks of the merchant categories.
    pub fn new(risks: Vec<MccRisk>) -> (tables: Self)
        ensures
            tables@ == risks@,
    {
        Tables {
            installments: build_lut_13(),
            hours: build_lut_24(),
            days: build_lut_7(),
            tx_counts: build_lut_21(),
            risks,
        }
    }

    /// The risk of the merchant category `code`.
    pub fn mcc_risk(&self, code: &[u8]) -> (risk: i16)
        ensures
            risk == risk_of(self@, code@),
    {
        let mut i: usize = 0;
        assert(self.risks@.skip(0) =~= self.risks@);
        while i < self.risks.len()
            invariant
                i <= self.risks@.len(),
                risk_of(self.risks@.skip(i as int), code@) == risk_of(self.risks@, code@),
            decreases self.risks@.len() - i,
        {
            if search::same_bytes(self.risks[i].code.as_slice(), code) {
                return self.risks[i].risk;
            }
            assert(self.risks@.skip(i as int).drop_first() =~= self.risks@.skip(i + 1));
            i += 1;
        }
        DEFAULT_RISK
    }
}

/// The quantised value of a condition.
fn flag_level(b: bool) -> (x: i16)
    ensures
        x == flag(b),
{
    if b {
        SCALE
    } else {
        0
    }
}

/// Makes the vector of a request.
pub fn vectorize(tx: &Transaction, m: &Measures, tables: &Tables) -> (v: [i16; 16])
    requires
        tx.hour <= MAX_HOUR,
        tx.day_of_week <= MAX_DAY,
        tx.mcc_len <= 8,
    ensures
        v@ == features(*tx, *m, tables@),
{
    proof {
        use_type_invariant(tables);
    }
    let installments = if m.installments < 12 {
        m.installments as usize
    } else {
        12
    };
    let tx_count = if m.tx_count_24h < 20 {
        m.tx_count_24h as usize
    } else {
        20
    };
    let code: &[u8] = tx.mcc.as_slice();
    assert(tx.mcc@.subrange(0, tx.mcc_len as int) =~= tx.code());
    let v: [i16; 16] = [
        m.amount,
        tables.installments[installments],
        m.amount_vs_avg,
        tables.hours[tx.hour as usize],
        tables.days[tx.day_of_week as usize],
        match tx.minutes_since_last {
            None => -SCALE,
            Some(_) => m.minutes_since_last,
        },
        match m.km_from_last {
            None => -SCALE,
            Some(km) => km,
        },
        m.km_from_home,
        tables.tx_counts[tx_count],
        flag_level(tx.is_online),
        flag_level(tx.card_present),
        flag_level(tx.unknown_merchant),
        tables.mcc_risk(&code[0..tx.mcc_len as usize]),
        m.merchant_avg,
        0,
        0,
    ];
    assert(v@ =~= features(*tx, *m, tables@));
    v
}

} // verus!
