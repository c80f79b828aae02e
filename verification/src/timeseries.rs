//! The core data model for one tag's sample stream, quality-code
//! classification, and the point-in-time lookup.

use vstd::prelude::*;

verus! {

/// A single observed value: a 32-bit integer, a 64-bit float carried as its
/// raw IEEE-754 bit pattern, or free text. The core never computes on the
/// float bits; it only stores and forwards them.
#[derive(Debug)]
pub enum DataValue {
    Integer(i32),
    Float(u64),
    Text(String),
}

impl Clone for DataValue {
    fn clone(&self) -> (r: Self)
        ensures
            r == *self,
    {
        match self {
            DataValue::Integer(v) => DataValue::Integer(*v),
            DataValue::Float(b) => DataValue::Float(*b),
            DataValue::Text(s) => DataValue::Text(s.clone()),
        }
    }
}

impl PartialEq for DataValue {
    fn eq(&self, other: &Self) -> (r: bool) {
        match (self, other) {
            (DataValue::Integer(a), DataValue::Integer(b)) => *a == *b,
            (DataValue::Float(a), DataValue::Float(b)) => *a == *b,
            (DataValue::Text(a), DataValue::Text(b)) => a.eq(b),
            _ => false,
        }
    }
}

impl vstd::std_specs::cmp::PartialEqSpecImpl for DataValue {
    open spec fn obeys_eq_spec() -> bool {
        true
    }

    open spec fn eq_spec(&self, other: &DataValue) -> bool {
        match (self, other) {
            (DataValue::Integer(a), DataValue::Integer(b)) => a == b,
            (DataValue::Float(a), DataValue::Float(b)) => a == b,
            (DataValue::Text(a), DataValue::Text(b)) => a@ == b@,
            _ => false,
        }
    }
}

/// The quality category of a sample, carrying the raw signed 16-bit code for
/// diagnostics.
#[derive(Debug, Clone, Copy, PartialEq, Eq, Structural)]
pub enum DataQuality {
    Good(i16),
    Bad(i16),
    Unknown(i16),
}

/// The two-bit OPC-style quality field of a raw code: bits 6 and 7
/// (mask `0xC0`) of the 16-bit value.
pub open spec fn quality_bits(code: i16) -> u16 {
    ((code as u16) & 0xC0) >> 6
}

/// What `classify` returns for each raw code: field `0` is Bad, `3` is Good,
/// `1` and `2` are Unknown (uncertain).
pub open spec fn classify_spec(code: i16) -> DataQuality {
    if quality_bits(code) == 0 {
        DataQuality::Bad(code)
    } else if quality_bits(code) == 3 {
        DataQuality::Good(code)
    } else {
        DataQuality::Unknown(code)
    }
}

/// Classify a raw quality code by its OPC-style two-bit quality field
/// (mask `0xC0`): `00` is Bad, `11` is Good, `01` and `10` are Unknown.
/// Total and pure: defined for the whole 16-bit domain.
pub fn classify(code: i16) -> (q: DataQuality)
    ensures
        q == classify_spec(code),
{
    let bits: u16 = ((code as u16) & 0xC0) >> 6;
    if bits == 0 {
        DataQuality::Bad(code)
    } else if bits == 3 {
        DataQuality::Good(code)
    } else {
        DataQuality::Unknown(code)
    }
}

/// Metadata of one tag. `uom` and `states` are mutually exclusive: a tag
/// either carries a single unit-of-measure string or a discrete
/// state-code-to-label mapping (or neither).
#[derive(Debug)]
pub struct Tag {
    pub name: String,
    pub description: Option<String>,
    pub format: Option<String>,
    pub uom: Option<String>,
    pub states: Vec<(i32, String)>,
    pub fields: Vec<(String, String)>,
}

impl Tag {
    /// `uom` and `states` never both present.
    pub open spec fn wf(&self) -> bool {
        self.uom is Some ==> self.states@.len() == 0
    }
}

/// One observation of a tag: an instant, an optional value (absent is
/// distinct from zero or empty), and a quality category.
#[derive(Debug)]
pub struct DataPoint {
    pub timestamp: i64,
    pub value: Option<DataValue>,
    pub quality: DataQuality,
}

/// Strictly ascending by timestamp: sorted, and no duplicate instants.
pub open spec fn sorted_points(s: Seq<DataPoint>) -> bool {
    forall|i: int, j: int| 0 <= i < j < s.len() ==> s[i].timestamp < s[j].timestamp
}

/// An immutable, timestamp-sorted sample stream for one tag.
#[derive(Debug)]
pub struct DataSeries {
    pub tag: Tag,
    pub data: Vec<DataPoint>,
}

/// `Some(*v)` as an owned option, for stating contracts about functions that
/// hand back a reference into the series.
pub open spec fn as_opt(r: Option<&DataValue>) -> Option<DataValue> {
    match r {
        Some(v) => Some(*v),
        None => None,
    }
}

/// The value effective at instant `t` in the sorted sample sequence `s`:
/// the value of the greatest sample at or before `t`; the first sample's
/// value when `t` lies before every sample (clamp-low); `None` only for an
/// empty sequence.
pub open spec fn value_at_spec(s: Seq<DataPoint>, t: i64) -> Option<DataValue>
    decreases s.len(),
{
    if s.len() == 0 {
        None
    } else if s.len() == 1 {
        s[0].value
    } else if s[s.len() - 1].timestamp <= t {
        s[s.len() - 1].value
    } else {
        value_at_spec(s.drop_last(), t)
    }
}

/// `i` is the index `value_at_spec` selects when `t` is at or after the
/// first sample: the greatest index whose timestamp is at or before `t`.
pub open spec fn is_lookup_index(s: Seq<DataPoint>, t: i64, i: int) -> bool {
    &&& 0 <= i < s.len()
    &&& s[i].timestamp <= t
    &&& (i == s.len() - 1 || s[i + 1].timestamp > t)
}

/// Lookup at the greatest index at or before `t` returns that sample's value.
pub proof fn lemma_value_at_index(s: Seq<DataPoint>, t: i64, i: int)
    requires
        sorted_points(s),
        is_lookup_index(s, t, i),
    ensures
        value_at_spec(s, t) == s[i].value,
    decreases s.len(),
{
    if s.len() == 1 {
    } else if i == s.len() - 1 {
    } else {
        assert(s[s.len() - 1].timestamp >= s[i + 1].timestamp);
        let sub = s.drop_last();
        assert(sorted_points(sub));
        assert(is_lookup_index(sub, t, i));
        lemma_value_at_index(sub, t, i);
    }
}

/// Clamp-low: a query before the first sample returns the first sample's
/// value, not an absent result.
pub proof fn lemma_value_at_before_first(s: Seq<DataPoint>, t: i64)
    requires
        sorted_points(s),
        s.len() > 0,
        t < s[0].timestamp,
    ensures
        value_at_spec(s, t) == s[0].value,
    decreases s.len(),
{
    if s.len() == 1 {
    } else {
        let sub = s.drop_last();
        assert(sorted_points(sub));
        lemma_value_at_before_first(sub, t);
    }
}

/// A query at or after the last sample's timestamp returns the last
/// sample's value.
pub proof fn lemma_value_at_last(s: Seq<DataPoint>, t: i64)
    requires
        sorted_points(s),
        s.len() > 0,
        t >= s[s.len() - 1].timestamp,
    ensures
        value_at_spec(s, t) == s[s.len() - 1].value,
{
    lemma_value_at_index(s, t, s.len() - 1);
}

/// A query exactly at a sample's timestamp returns that sample's value.
pub proof fn lemma_value_at_exact(s: Seq<DataPoint>, i: int)
    requires
        sorted_points(s),
        0 <= i < s.len(),
    ensures
        value_at_spec(s, s[i].timestamp) == s[i].value,
{
    lemma_value_at_index(s, s[i].timestamp, i);
}

/// A query strictly between two neighbouring samples returns the earlier
/// sample's value: step interpolation, no averaging.
pub proof fn lemma_value_at_between(s: Seq<DataPoint>, t: i64, i: int)
    requires
        sorted_points(s),
        0 <= i < s.len() - 1,
        s[i].timestamp < t < s[i + 1].timestamp,
    ensures
        value_at_spec(s, t) == s[i].value,
{
    lemma_value_at_index(s, t, i);
}

/// A query against an empty series is absent for every `t`.
pub proof fn lemma_value_at_empty(s: Seq<DataPoint>, t: i64)
    requires
        s.len() == 0,
    ensures
        value_at_spec(s, t) is None,
{
}

impl DataSeries {
    /// The series invariant: samples strictly ascending by timestamp.
    pub open spec fn wf(&self) -> bool {
        sorted_points(self.data@)
    }

    /// Build a series after validating the ordering invariant once, at
    /// construction time. Samples must arrive strictly ascending by
    /// timestamp; otherwise the whole series is rejected.
    pub fn new(tag: Tag, data: Vec<DataPoint>) -> (r: Result<DataSeries, SeriesError>)
        ensures
            match r {
                Ok(s) => s.wf() && s.tag == tag && s.data@ == data@,
                Err(e) => e == SeriesError::OutOfOrder && !sorted_points(data@),
            },
    {
        let n = data.len();
        let mut k: usize = 1;
        while k < n
            invariant
                1 <= k <= n || n == 0,
                n == data@.len(),
                forall|i: int, j: int| 0 <= i < j < k ==> data@[i].timestamp < data@[j].timestamp,
            decreases n - k,
        {
            if data[k - 1].timestamp >= data[k].timestamp {
                assert(!sorted_points(data@));
                return Err(SeriesError::OutOfOrder);
            }
            assert(forall|i: int|
                0 <= i < k ==> #[trigger] data@[i].timestamp <= data@[k - 1].timestamp);
            k = k + 1;
        }
        Ok(DataSeries { tag, data })
    }

    /// The value effective at `timestamp`: binary search for the greatest
    /// sample at or before it. Clamp-low before the first sample; the last
    /// sample's value at or after the last timestamp; absent only when the
    /// series is empty. O(log n) comparisons, no mutation.
    pub fn get_value_at(&self, timestamp: i64) -> (r: Option<&DataValue>)
        requires
            self.wf(),
        ensures
            as_opt(r) == value_at_spec(self.data@, timestamp),
    {
        if self.data.len() == 0 {
            return None;
        }
        if timestamp < self.data[0].timestamp {
            proof {
                lemma_value_at_before_first(self.data@, timestamp);
            }
            return self.data[0].value.as_ref();
        }
        let mut lo: usize = 0;
        let mut hi: usize = self.data.len();
        while hi - lo > 1
            invariant
                self.wf(),
                lo < hi <= self.data@.len(),
                self.data@[lo as int].timestamp <= timestamp,
                hi < self.data@.len() ==> self.data@[hi as int].timestamp > timestamp,
            decreases hi - lo,
        {
            let mid = lo + (hi - lo) / 2;
            if self.data[mid].timestamp <= timestamp {
                lo = mid;
            } else {
                hi = mid;
            }
        }
        proof {
            lemma_value_at_index(self.data@, timestamp, lo as int);
        }
        self.data[lo].value.as_ref()
    }
}

/// A sample already coerced to one caller-chosen plain type.
#[derive(Debug)]
pub struct DataPoint2<T> {
    pub timestamp: i64,
    pub value: Option<T>,
}

/// Rejection of invalid raw input, reported once at construction time.
#[derive(Debug, Clone, Copy, PartialEq, Eq, Structural)]
pub enum SeriesError {
    /// The collaborator handed samples whose timestamps are not strictly
    /// ascending.
    OutOfOrder,
}

} // verus!
