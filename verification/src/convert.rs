//! From raw records to the typed model: text-to-integer coercion, per-sample
//! conversion with quality classification, metadata resolution, and the
//! construction of whole series from one retrieval's response.

use vstd::prelude::*;
use vstd::string::StrSliceExecFns;

use crate::timebase::{GetDataResponse, Tag as RawTag, TagData, TagItem, TagValue};
use crate::timeseries::{
    classify, classify_spec, sorted_points, DataPoint, DataPoint2, DataSeries, DataValue,
    SeriesError, Tag,
};

verus! {

/// `c` is an ASCII decimal digit.
pub open spec fn is_dec_digit(c: char) -> bool {
    48 <= c as int <= 57
}

/// The numeric value of an ASCII decimal digit.
pub open spec fn digit_val(c: char) -> int {
    c as int - 48
}

/// Every character of `s` is an ASCII decimal digit.
pub open spec fn all_dec_digits(s: Seq<char>) -> bool {
    forall|i: int| 0 <= i < s.len() ==> is_dec_digit(s[i])
}

/// The unbounded integer a digit string denotes, most significant first.
pub open spec fn digits_val(s: Seq<char>) -> int
    decreases s.len(),
{
    if s.len() == 0 {
        0
    } else {
        digits_val(s.drop_last()) * 10 + digit_val(s.last())
    }
}

pub proof fn lemma_digits_val_nonneg(s: Seq<char>)
    requires
        all_dec_digits(s),
    ensures
        digits_val(s) >= 0,
    decreases s.len(),
{
    if s.len() > 0 {
        lemma_digits_val_nonneg(s.drop_last());
    }
}

/// What an all-digit body parses to under an optional leading sign: `None`
/// when there are no digits, a stray non-digit, or the value does not fit
/// a 32-bit signed integer.
pub open spec fn parse_digits_spec(neg: bool, digits: Seq<char>) -> Option<i32> {
    if digits.len() == 0 || !all_dec_digits(digits) {
        None
    } else {
        let v = if neg {
            -digits_val(digits)
        } else {
            digits_val(digits)
        };
        if i32::MIN <= v <= i32::MAX {
            Some(v as i32)
        } else {
            None
        }
    }
}

/// What `parse_i32` returns: an optional `+`/`-` sign, then one or more
/// ASCII decimal digits denoting a value that fits in an `i32`; anything
/// else parses to `None`.
pub open spec fn parse_i32_spec(s: Seq<char>) -> Option<i32> {
    if s.len() > 0 && (s[0] == '-' || s[0] == '+') {
        parse_digits_spec(s[0] == '-', s.drop_first())
    } else {
        parse_digits_spec(false, s)
    }
}

/// Digit accumulation clamped just above the 32-bit range, so that an
/// overlong digit string can be recognised without unbounded arithmetic.
pub open spec fn clamp_acc(v: int) -> int {
    if v > 10_000_000_000 {
        10_000_000_000
    } else {
        v
    }
}

/// Parse a decimal 32-bit signed integer: optional sign, then digits.
/// Returns `None` on an empty body, any non-digit, or overflow.
pub fn parse_i32(s: &str) -> (r: Option<i32>)
    ensures
        r == parse_i32_spec(s@),
{
    let n = s.unicode_len();
    let mut idx: usize = 0;
    let mut neg: bool = false;
    if n > 0 {
        let c0 = s.get_char(0);
        if c0 == '-' {
            neg = true;
            idx = 1;
        } else if c0 == '+' {
            idx = 1;
        }
    }
    proof {
        if idx == 1 {
            assert(s@.subrange(1, n as int) =~= s@.drop_first());
        }
    }
    if idx == n {
        return None;
    }
    let ghost digits = s@.subrange(idx as int, n as int);
    proof {
        if idx == 0 {
            assert(digits =~= s@);
        }
        assert(parse_i32_spec(s@) == parse_digits_spec(neg, digits));
    }
    let mut acc: i64 = 0;
    let mut k: usize = idx;
    while k < n
        invariant
            idx <= k <= n,
            idx < n,
            n == s@.len(),
            digits == s@.subrange(idx as int, n as int),
            parse_i32_spec(s@) == parse_digits_spec(neg, digits),
            all_dec_digits(s@.subrange(idx as int, k as int)),
            acc == clamp_acc(digits_val(s@.subrange(idx as int, k as int))),
            0 <= acc <= 10_000_000_000,
        decreases n - k,
    {
        let c = s.get_char(k);
        let u = c as u32;
        if u < 48 || u > 57 {
            proof {
                assert(digits[k - idx] == s@[k as int]);
                assert(!all_dec_digits(digits));
            }
            return None;
        }
        let d: i64 = (u - 48) as i64;
        let ghost pre = s@.subrange(idx as int, k as int);
        let ghost post = s@.subrange(idx as int, k as int + 1);
        proof {
            assert(post.drop_last() =~= pre);
            assert(post.last() == s@[k as int]);
            lemma_digits_val_nonneg(pre);
        }
        acc = acc * 10 + d;
        if acc > 10_000_000_000 {
            acc = 10_000_000_000;
        }
        proof {
            let dv = digits_val(pre);
            let dv2 = digits_val(post);
            assert(dv2 == dv * 10 + digit_val(s@[k as int]));
            if dv > 10_000_000_000 {
                assert(dv * 10 >= dv) by (nonlinear_arith)
                    requires
                        dv >= 0,
                ;
                assert(dv2 > 10_000_000_000);
            }
            assert(acc == clamp_acc(dv2));
        }
        k = k + 1;
    }
    proof {
        assert(s@.subrange(idx as int, k as int) == digits);
        lemma_digits_val_nonneg(digits);
    }
    if neg {
        if acc <= 2_147_483_648 {
            Some((-acc) as i32)
        } else {
            None
        }
    } else {
        if acc <= 2_147_483_647 {
            Some(acc as i32)
        } else {
            None
        }
    }
}

/// What coercion to a 32-bit integer yields for each raw value shape:
/// integers pass through, text is parsed, a float is unsupported here
/// (the serving layer owns float rounding) and coerces to absent, as does
/// an absent input.
pub open spec fn coerce_to_integer_spec(v: Option<TagValue>) -> Option<i32> {
    match v {
        Some(TagValue::Integer(n)) => Some(n),
        Some(TagValue::Float(_)) => None,
        Some(TagValue::Text(s)) => parse_i32_spec(s@),
        None => None,
    }
}

/// Coerce a raw sample value to a 32-bit integer. Text parses as decimal
/// (`"42"` to `42`); unparsable text, floats and absent values coerce to
/// absent — never to a made-up default.
pub fn coerce_to_integer(v: &Option<TagValue>) -> (r: Option<i32>)
    ensures
        r == coerce_to_integer_spec(*v),
{
    match v {
        Some(TagValue::Integer(n)) => Some(*n),
        Some(TagValue::Float(_)) => None,
        Some(TagValue::Text(s)) => parse_i32(s.as_str()),
        None => None,
    }
}

impl TagItem {
    /// This tag's samples as integer-typed points: each raw value coerced
    /// by `coerce_to_integer`, timestamps kept as they are.
    pub fn get_data_points(&self) -> (r: Vec<DataPoint2<i32>>)
        ensures
            r@.len() == self.data@.len(),
            forall|i: int|
                0 <= i < r@.len() ==> (#[trigger] r@[i]).timestamp == self.data@[i].timestamp
                    && r@[i].value == coerce_to_integer_spec(self.data@[i].value),
    {
        let mut out: Vec<DataPoint2<i32>> = Vec::new();
        let mut k: usize = 0;
        while k < self.data.len()
            invariant
                k == out@.len() <= self.data@.len(),
                forall|i: int|
                    0 <= i < k ==> (#[trigger] out@[i]).timestamp == self.data@[i].timestamp
                        && out@[i].value == coerce_to_integer_spec(self.data@[i].value),
            decreases self.data@.len() - k,
        {
            let d = &self.data[k];
            out.push(DataPoint2 { timestamp: d.timestamp, value: coerce_to_integer(&d.value) });
            k = k + 1;
        }
        out
    }
}

/// The typed value a raw value becomes: a one-for-one retagging, no
/// reinterpretation.
pub open spec fn value_of(v: TagValue) -> DataValue {
    match v {
        TagValue::Integer(n) => DataValue::Integer(n),
        TagValue::Float(b) => DataValue::Float(b),
        TagValue::Text(s) => DataValue::Text(s),
    }
}

pub open spec fn opt_value_of(v: Option<TagValue>) -> Option<DataValue> {
    match v {
        Some(x) => Some(value_of(x)),
        None => None,
    }
}

/// The typed sample a raw sample becomes: timestamp kept, value retagged,
/// quality classified by its bit field.
pub open spec fn point_of(d: TagData) -> DataPoint {
    DataPoint { timestamp: d.timestamp, value: opt_value_of(d.value), quality: classify_spec(d.quality) }
}

/// A raw unit mapping with exactly one entry is a unit of measure.
pub open spec fn uom_of(uom: Option<Vec<(i32, String)>>) -> Option<String> {
    match uom {
        Some(m) => if m@.len() == 1 {
            Some(m@[0].1)
        } else {
            None
        },
        None => None,
    }
}

/// A raw unit mapping with more than one entry is a discrete state
/// labelling; with one entry or none it contributes no states.
pub open spec fn states_of(uom: Option<Vec<(i32, String)>>) -> Seq<(i32, String)> {
    match uom {
        Some(m) => if m@.len() > 1 {
            m@
        } else {
            Seq::empty()
        },
        None => Seq::empty(),
    }
}

pub open spec fn fields_of(f: Option<Vec<(String, String)>>) -> Seq<(String, String)> {
    match f {
        Some(m) => m@,
        None => Seq::empty(),
    }
}

/// `t` is the resolved form of the raw metadata `raw`: names carried over,
/// the unit mapping split into unit-of-measure or states by its size.
pub open spec fn tag_matches(raw: RawTag, t: Tag) -> bool {
    &&& t.name == raw.name
    &&& t.description == raw.description
    &&& t.format == raw.format
    &&& t.uom == uom_of(raw.uom)
    &&& t.states@ == states_of(raw.uom)
    &&& t.fields@ == fields_of(raw.fields)
}

fn convert_value(v: &TagValue) -> (r: DataValue)
    ensures
        r == value_of(*v),
{
    match v {
        TagValue::Integer(n) => DataValue::Integer(*n),
        TagValue::Float(b) => DataValue::Float(*b),
        TagValue::Text(s) => DataValue::Text(s.clone()),
    }
}

fn convert_opt_value(v: &Option<TagValue>) -> (r: Option<DataValue>)
    ensures
        r == opt_value_of(*v),
{
    match v {
        Some(x) => Some(convert_value(x)),
        None => None,
    }
}

fn clone_opt_string(s: &Option<String>) -> (r: Option<String>)
    ensures
        r == *s,
{
    match s {
        Some(x) => Some(x.clone()),
        None => None,
    }
}

fn clone_pairs(m: &Vec<(i32, String)>) -> (r: Vec<(i32, String)>)
    ensures
        r@ == m@,
{
    let mut out: Vec<(i32, String)> = Vec::new();
    let mut k: usize = 0;
    while k < m.len()
        invariant
            k == out@.len() <= m@.len(),
            forall|i: int| 0 <= i < k ==> out@[i] == m@[i],
        decreases m@.len() - k,
    {
        let p = &m[k];
        out.push((p.0, p.1.clone()));
        k = k + 1;
    }
    proof {
        assert(out@ =~= m@);
    }
    out
}

fn clone_str_pairs(m: &Vec<(String, String)>) -> (r: Vec<(String, String)>)
    ensures
        r@ == m@,
{
    let mut out: Vec<(String, String)> = Vec::new();
    let mut k: usize = 0;
    while k < m.len()
        invariant
            k == out@.len() <= m@.len(),
            forall|i: int| 0 <= i < k ==> out@[i] == m@[i],
        decreases m@.len() - k,
    {
        let p = &m[k];
        out.push((p.0.clone(), p.1.clone()));
        k = k + 1;
    }
    proof {
        assert(out@ =~= m@);
    }
    out
}

/// Resolve raw metadata: a one-entry unit mapping becomes the unit of
/// measure, a larger one becomes the discrete state labelling, an empty or
/// missing one means a unitless, non-discrete tag.
pub fn convert_tag(raw: &RawTag) -> (t: Tag)
    ensures
        tag_matches(*raw, t),
        t.wf(),
{
    let (uom, states): (Option<String>, Vec<(i32, String)>) = match &raw.uom {
        None => (None, Vec::new()),
        Some(m) => {
            if m.len() == 1 {
                (Some(m[0].1.clone()), Vec::new())
            } else if m.len() > 1 {
                (None, clone_pairs(m))
            } else {
                (None, Vec::new())
            }
        },
    };
    let fields: Vec<(String, String)> = match &raw.fields {
        None => Vec::new(),
        Some(f) => clone_str_pairs(f),
    };
    Tag {
        name: raw.name.clone(),
        description: clone_opt_string(&raw.description),
        format: clone_opt_string(&raw.format),
        uom,
        states,
        fields,
    }
}

/// Raw samples strictly ascending by timestamp.
pub open spec fn sorted_raw(s: Seq<TagData>) -> bool {
    forall|i: int, j: int| 0 <= i < j < s.len() ==> s[i].timestamp < s[j].timestamp
}

impl GetDataResponse {
    /// Every retrieved tag as a typed, validated series: metadata resolved,
    /// each sample's value retagged and its quality classified, and the
    /// ordering invariant checked once here. Succeeds exactly when every
    /// tag's raw samples arrive strictly ascending by timestamp.
    pub fn time_series(&self) -> (r: Result<Vec<DataSeries>, SeriesError>)
        ensures
            match r {
                Ok(list) => {
                    &&& list@.len() == self.tags@.len()
                    &&& forall|j: int|
                        0 <= j < list@.len() ==> #[trigger] tag_matches(
                            self.tags@[j].tag,
                            list@[j].tag,
                        )
                    &&& forall|j: int|
                        0 <= j < list@.len() ==> (#[trigger] list@[j]).data@ == self.tags@[
                            j
                        ].data@.map_values(|d: TagData| point_of(d))
                    &&& forall|j: int| 0 <= j < list@.len() ==> (#[trigger] list@[j]).wf()
                    &&& forall|j: int|
                        0 <= j < self.tags@.len() ==> #[trigger] sorted_raw(self.tags@[j].data@)
                },
                Err(e) => {
                    &&& e == SeriesError::OutOfOrder
                    &&& exists|j: int|
                        0 <= j < self.tags@.len() && !#[trigger] sorted_raw(self.tags@[j].data@)
                },
            },
    {
        let mut out: Vec<DataSeries> = Vec::new();
        let mut j: usize = 0;
        while j < self.tags.len()
            invariant
                j == out@.len() <= self.tags@.len(),
                forall|i: int|
                    0 <= i < j ==> #[trigger] tag_matches(self.tags@[i].tag, out@[i].tag),
                forall|i: int|
                    0 <= i < j ==> (#[trigger] out@[i]).data@ == self.tags@[i].data@.map_values(
                        |d: TagData| point_of(d),
                    ),
                forall|i: int| 0 <= i < j ==> (#[trigger] out@[i]).wf(),
                forall|i: int| 0 <= i < j ==> #[trigger] sorted_raw(self.tags@[i].data@),
            decreases self.tags@.len() - j,
        {
            let item = &self.tags[j];
            let tag = convert_tag(&item.tag);
            let mut pts: Vec<DataPoint> = Vec::new();
            let mut k: usize = 0;
            while k < item.data.len()
                invariant
                    k == pts@.len() <= item.data@.len(),
                    forall|i: int| 0 <= i < k ==> #[trigger] pts@[i] == point_of(item.data@[i]),
                decreases item.data@.len() - k,
            {
                let d = &item.data[k];
                pts.push(
                    DataPoint {
                        timestamp: d.timestamp,
                        value: convert_opt_value(&d.value),
                        quality: classify(d.quality),
                    },
                );
                k = k + 1;
            }
            proof {
                assert(pts@ =~= item.data@.map_values(|d: TagData| point_of(d)));
            }
            match DataSeries::new(tag, pts) {
                Ok(s) => {
                    proof {
                        assert forall|a: int, b: int|
                            0 <= a < b < item.data@.len() implies item.data@[a].timestamp < item.data@[b].timestamp by {
                            assert(pts@[a] == point_of(item.data@[a]));
                            assert(pts@[b] == point_of(item.data@[b]));
                        }
                        assert(sorted_raw(item.data@));
                    }
                    out.push(s);
                },
                Err(e) => {
                    proof {
                        if sorted_raw(item.data@) {
                            assert forall|a: int, b: int|
                                0 <= a < b < pts@.len() implies pts@[a].timestamp < pts@[b].timestamp by {
                                assert(pts@[a] == point_of(item.data@[a]));
                                assert(pts@[b] == point_of(item.data@[b]));
                            }
                            assert(sorted_points(pts@));
                        }
                        assert(!sorted_raw(self.tags@[j as int].data@));
                    }
                    return Err(e);
                },
            }
            j = j + 1;
        }
        Ok(out)
    }
}

} // verus!
