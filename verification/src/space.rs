//! The compact space: ranges of the original number space, laid end to end from 1 on.
use vstd::prelude::*;

use crate::error::CodecError;
use crate::wire::{
    lemma_parse_vint_u128, lemma_parse_vint_u64, parse_vint_u128, parse_vint_u64, read_vint,
    read_vint_u128, vint_bytes, write_vint, write_vint_u128,
};

verus! {

/// Maps the values `start..=end` of the original space, in order, to the compact values from
/// `compact_start` on.
#[derive(Debug, Clone, Copy, PartialEq, Eq)]
pub struct RangeMapping {
    pub start: u128,
    pub end: u128,
    pub compact_start: u64,
}

impl RangeMapping {
    /// The number of values of the range less one, as far as 64 bits hold it.
    pub open spec fn extent(self) -> int {
        (self.end - self.start) % (u64::MAX + 1)
    }

    /// The last compact value of the range.
    pub open spec fn last_compact(self) -> int {
        self.compact_start + self.extent()
    }

    pub open spec fn contains(self, value: int) -> bool {
        self.start <= value <= self.end
    }

    /// The distance from the first value of the range to the last, as far as 64 bits hold it.
    fn width(&self) -> (width: u64)
        requires
            self.start <= self.end,
        ensures
            width == self.extent(),
    {
        let distance: u128 = self.end - self.start;
        assert(distance as u64 == distance % 0x1_0000_0000_0000_0000u128) by (bit_vector);
        #[verifier::truncate]
        (distance as u64)
    }

    /// The number of values of the range.
    pub fn range_length(&self) -> (length: u64)
        requires
            self.start <= self.end,
            self.extent() < u64::MAX,
        ensures
            length == self.extent() + 1,
            length == (self.end - self.start) % 0x1_0000_0000_0000_0000 + 1,
    {
        self.width() + 1
    }

    /// The last value of the compact space in this range.
    pub fn compact_end(&self) -> (compact: u64)
        requires
            self.start <= self.end,
            self.last_compact() <= u64::MAX,
        ensures
            compact == self.last_compact(),
            compact == self.compact_start + (self.end - self.start) % 0x1_0000_0000_0000_0000,
    {
        self.compact_start + self.width()
    }
}

/// The compact space of a column: disjoint ranges of the original space, in ascending order.
#[derive(Debug, PartialEq, Eq)]
pub struct CompactSpace {
    ranges_mapping: Vec<RangeMapping>,
}

impl View for CompactSpace {
    type V = Seq<RangeMapping>;

    closed spec fn view(&self) -> Seq<RangeMapping> {
        self.ranges_mapping@
    }
}

impl Clone for CompactSpace {
    fn clone(&self) -> (space: Self)
        ensures
            space@ == self@,
    {
        proof {
            use_type_invariant(self);
        }
        let ranges_mapping = self.ranges_mapping.clone();
        assert(ranges_mapping@ =~= self.ranges_mapping@);
        CompactSpace { ranges_mapping }
    }
}

/// Whether the compact values of the range at `i + 1` follow on those of the range at `i`.
pub open spec fn follows_on(ranges: Seq<RangeMapping>, i: int) -> bool {
    ranges[i + 1].compact_start == ranges[i].last_compact() + 1
}

/// Whether `ranges` are laid out in order: none begins before the one before it ends, and their
/// compact values run from 1 on without a gap. Every compact space, even one that was read from
/// bytes that no compact space was written to, is laid out like this.
pub open spec fn ranges_laid_out(ranges: Seq<RangeMapping>) -> bool {
    &&& ranges.len() > 0 ==> ranges[0].compact_start == 1
    &&& forall|i: int| #![trigger ranges[i]]
        0 <= i < ranges.len() ==> ranges[i].start <= ranges[i].end && ranges[i].last_compact()
            <= u64::MAX
    &&& forall|i: int, j: int| 0 <= i < j < ranges.len() ==> ranges[i].end <= ranges[j].start
    &&& forall|i: int| 0 <= i < ranges.len() - 1 ==> #[trigger] follows_on(ranges, i)
}

/// Whether `ranges` map values to compact values one to one: they are laid out in order, no two
/// share a value, and none holds more values than 64 bits can number.
pub open spec fn ranges_wf(ranges: Seq<RangeMapping>) -> bool {
    &&& ranges_laid_out(ranges)
    &&& forall|i: int| #![trigger ranges[i]]
        0 <= i < ranges.len() ==> ranges[i].end - ranges[i].start < u64::MAX
    &&& forall|i: int, j: int| 0 <= i < j < ranges.len() ==> ranges[i].end < ranges[j].start
}

/// The largest compact value: the last of the last range, or 1 if there is no range.
pub open spec fn amplitude(ranges: Seq<RangeMapping>) -> int {
    if ranges.len() == 0 {
        1
    } else {
        ranges.last().last_compact()
    }
}

/// Whether some range holds `value`.
pub open spec fn covers(ranges: Seq<RangeMapping>, value: int) -> bool {
    exists|i: int| 0 <= i < ranges.len() && (#[trigger] ranges[i]).contains(value)
}

/// The compact value of `value`, or the number of ranges below it if no range holds it.
pub open spec fn to_compact(ranges: Seq<RangeMapping>, value: int) -> Result<int, int>
    decreases ranges.len(),
{
    if ranges.len() == 0 {
        Err(0)
    } else if value > ranges.last().end {
        Err(ranges.len() as int)
    } else if value >= ranges.last().start {
        Ok(ranges.last().compact_start + (value - ranges.last().start))
    } else {
        to_compact(ranges.drop_last(), value)
    }
}

/// The value of `compact`: it lies as far into the last range that begins at or before it as its
/// compact value does.
pub open spec fn from_compact(ranges: Seq<RangeMapping>, compact: int) -> int
    decreases ranges.len(),
{
    if ranges.len() == 0 {
        0
    } else if compact >= ranges.last().compact_start {
        ranges.last().start + (compact - ranges.last().compact_start)
    } else {
        from_compact(ranges.drop_last(), compact)
    }
}

/// The bytes of `ranges`: of each range the distance of its start from the end of the range
/// before it, at first from `prev`, and the distance of its end from its start.
pub open spec fn encode_ranges(ranges: Seq<RangeMapping>, prev: int) -> Seq<u8>
    decreases ranges.len(),
{
    if ranges.len() == 0 {
        Seq::empty()
    } else {
        vint_bytes((ranges[0].start - prev) as nat) + vint_bytes(
            (ranges[0].end - ranges[0].start) as nat,
        ) + encode_ranges(ranges.drop_first(), ranges[0].end as int)
    }
}

/// The bytes of a compact space: the number of its ranges, and the ranges.
pub open spec fn encode_space(ranges: Seq<RangeMapping>) -> Seq<u8> {
    vint_bytes(ranges.len()) + encode_ranges(ranges, 0)
}

/// What is read of the range behind the range `prev`, if there is one, and the bytes behind it.
pub open spec fn parse_range(bytes: Seq<u8>, prev: Option<RangeMapping>) -> Result<
    (RangeMapping, Seq<u8>),
    CodecError,
> {
    let (value, compact_start) = match prev {
        Some(range) => (range.end as int, range.last_compact() + 1),
        None => (0, 1),
    };
    if compact_start > u64::MAX {
        Err(CodecError::Malformed)
    } else {
        match parse_vint_u128(bytes) {
            Err(error) => Err(error),
            Ok((start_delta, tail)) => {
                let start = value + start_delta;
                if start > u128::MAX {
                    Err(CodecError::Malformed)
                } else {
                    match parse_vint_u128(tail) {
                        Err(error) => Err(error),
                        Ok((end_delta, rest)) => {
                            let range = RangeMapping {
                                start: start as u128,
                                end: (start + end_delta) as u128,
                                compact_start: compact_start as u64,
                            };
                            if start + end_delta > u128::MAX || range.last_compact() > u64::MAX {
                                Err(CodecError::Malformed)
                            } else {
                                Ok((range, rest))
                            }
                        },
                    }
                }
            },
        }
    }
}

/// What is read of `count` ranges behind the range `prev`, if there is one.
pub open spec fn parse_ranges(bytes: Seq<u8>, count: nat, prev: Option<RangeMapping>) -> Result<
    (Seq<RangeMapping>, Seq<u8>),
    CodecError,
>
    decreases count,
{
    if count == 0 {
        Ok((Seq::empty(), bytes))
    } else {
        match parse_range(bytes, prev) {
            Err(error) => Err(error),
            Ok((range, tail)) => match parse_ranges(tail, (count - 1) as nat, Some(range)) {
                Err(error) => Err(error),
                Ok((ranges, rest)) => Ok((seq![range] + ranges, rest)),
            },
        }
    }
}

/// What is read of a compact space at the start of `bytes`.
pub open spec fn parse_space(bytes: Seq<u8>) -> Result<(Seq<RangeMapping>, Seq<u8>), CodecError> {
    match parse_vint_u64(bytes) {
        Err(error) => Err(error),
        Ok((count, tail)) => parse_ranges(tail, count, None),
    }
}

impl CompactSpace {
    /// Whether the ranges map values to compact values one to one.
    pub open spec fn wf(&self) -> bool {
        ranges_wf(self@)
    }

    #[verifier::type_invariant]
    spec fn inv(self) -> bool {
        ranges_laid_out(self.ranges_mapping@)
    }

    pub(crate) fn from_ranges(ranges_mapping: Vec<RangeMapping>) -> (space: CompactSpace)
        requires
            ranges_laid_out(ranges_mapping@),
        ensures
            space@ == ranges_mapping@,
    {
        CompactSpace { ranges_mapping }
    }

    /// Amplitude is the value range of the compact space including the sentinel value used to
    /// identify null values. The compact space is `0..=amplitude`.
    pub fn amplitude_compact_space(&self) -> (result: u128)
        ensures
            result == amplitude(self@),
            self@.len() == 0 ==> result == 1,
            self@.len() > 0 ==> result == self@.last().compact_start + (self@.last().end
                - self@.last().start) % 0x1_0000_0000_0000_0000,
    {
        proof {
            use_type_invariant(self);
        }
        match self.ranges_mapping.last() {
            Some(last_range) => last_range.compact_end() as u128,
            None => 1,
        }
    }

    /// The number of ranges.
    pub fn num_ranges(&self) -> (count: usize)
        ensures
            count == self@.len(),
    {
        self.ranges_mapping.len()
    }

    pub fn get_range_mapping(&self, pos: usize) -> (range: &RangeMapping)
        requires
            pos < self@.len(),
        ensures
            *range == self@[pos as int],
    {
        &self.ranges_mapping[pos]
    }

    /// Returns either Ok(the value in the compact space) or if it is outside the compact space
    /// the Err(position where it would be inserted).
    pub fn u128_to_compact(&self, value: u128) -> (result: Result<u64, usize>)
        requires
            self.wf(),
        ensures
            match result {
                Ok(compact) => to_compact(self@, value as int) == Ok::<int, int>(compact as int)
                    && 1 <= compact <= amplitude(self@) <= u64::MAX,
                Err(pos) => to_compact(self@, value as int) == Err::<int, int>(pos as int) && pos
                    <= self@.len(),
            },
    {
        let mut low: usize = 0;
        let mut high: usize = self.ranges_mapping.len();
        while low < high
            invariant
                self.wf(),
                low <= high <= self@.len(),
                self@ == self.ranges_mapping@,
                forall|i: int| 0 <= i < low ==> (#[trigger] self@[i]).end < value,
                forall|i: int| high <= i < self@.len() ==> value < (#[trigger] self@[i]).start,
            decreases high - low,
        {
            let mid: usize = low + (high - low) / 2;
            let range = &self.ranges_mapping[mid];
            if value < range.start {
                high = mid;
            } else if value > range.end {
                low = mid + 1;
            } else {
                proof {
                    lemma_to_compact_at(self@, value as int, mid as int);
                    lemma_compact_in_order(self@, 0, mid as int);
                    lemma_compact_in_order(self@, mid as int, self@.len() - 1);
                }
                return Ok(range.compact_start + (value - range.start) as u64);
            }
        }
        proof {
            lemma_to_compact_between(self@, value as int, low as int);
        }
        Err(low)
    }

    /// Unpacks a value from compact space u64 to u128 space.
    pub fn compact_to_u128(&self, compact: u64) -> (value: u128)
        requires
            self@.len() > 0,
            compact >= 1,
            from_compact(self@, compact as int) <= u128::MAX,
        ensures
            value == from_compact(self@, compact as int),
    {
        proof {
            use_type_invariant(self);
        }
        let mut low: usize = 0;
        let mut high: usize = self.ranges_mapping.len();
        while high - low > 1
            invariant
                ranges_laid_out(self@),
                low < high <= self@.len(),
                self@ == self.ranges_mapping@,
                self@[low as int].compact_start <= compact,
                high < self@.len() ==> compact < self@[high as int].compact_start,
            decreases high - low,
        {
            let mid: usize = low + (high - low) / 2;
            if self.ranges_mapping[mid].compact_start <= compact {
                low = mid;
            } else {
                high = mid;
            }
        }
        proof {
            lemma_from_compact_at(self@, compact as int, low as int);
        }
        let range = &self.ranges_mapping[low];
        range.start + (compact - range.compact_start) as u128
    }

    /// Whether `compact` unpacks to a value of the original space.
    pub fn can_unpack(&self, compact: u64) -> (can: bool)
        requires
            compact >= 1,
        ensures
            can == (self@.len() > 0 && from_compact(self@, compact as int) <= u128::MAX),
    {
        proof {
            use_type_invariant(self);
        }
        match self.ranges_mapping.last() {
            Some(last_range) => if compact < last_range.compact_start {
                proof {
                    lemma_unpacks_before_last(self@, compact as int);
                }
                true
            } else {
                (compact - last_range.compact_start) as u128 <= u128::MAX - last_range.start
            },
            None => false,
        }
    }

    /// Whether the ranges map values to compact values one to one. Bytes that no compact space was
    /// written to may be read as ranges that share a value, or that hold more values than 64 bits
    /// can number.
    pub fn is_one_to_one(&self) -> (one_to_one: bool)
        ensures
            one_to_one == self.wf(),
            one_to_one <==> (forall|i: int| #![trigger self@[i]]
                0 <= i < self@.len() ==> self@[i].end - self@[i].start < u64::MAX) && (forall|
                i: int,
                j: int,
            |
                0 <= i < j < self@.len() ==> self@[i].end < self@[j].start),
    {
        proof {
            use_type_invariant(self);
        }
        let mut i: usize = 0;
        while i < self.ranges_mapping.len()
            invariant
                ranges_laid_out(self@),
                i <= self@.len(),
                self@ == self.ranges_mapping@,
                forall|k: int| #![trigger self@[k]]
                    0 <= k < i ==> self@[k].end - self@[k].start < u64::MAX,
                forall|j: int, k: int| 0 <= j < k < i ==> self@[j].end < self@[k].start,
            decreases self@.len() - i,
        {
            let range = &self.ranges_mapping[i];
            if range.end - range.start >= u64::MAX as u128 {
                assert(self@[i as int].end - self@[i as int].start >= u64::MAX);
                return false;
            }
            if i > 0 && self.ranges_mapping[i - 1].end >= range.start {
                assert(self@[i - 1].end >= self@[i as int].start);
                return false;
            }
            i += 1;
        }
        true
    }

    /// Appends the bytes of the compact space.
    pub fn serialize(&self, writer: &mut Vec<u8>)
        ensures
            final(writer)@ == old(writer)@ + encode_space(self@),
    {
        proof {
            use_type_invariant(self);
        }
        write_vint(self.ranges_mapping.len() as u64, writer);
        let mut prev_value: u128 = 0;
        let mut i: usize = 0;
        assert(self@.skip(0) =~= self@);
        while i < self.ranges_mapping.len()
            invariant
                ranges_laid_out(self@),
                i <= self@.len(),
                self@ == self.ranges_mapping@,
                i == 0 ==> prev_value == 0,
                i > 0 ==> prev_value == self@[i - 1].end,
                old(writer)@ + encode_space(self@) == writer@ + encode_ranges(
                    self@.skip(i as int),
                    prev_value as int,
                ),
            decreases self@.len() - i,
        {
            let range = &self.ranges_mapping[i];
            let ghost before = writer@;
            let ghost first = vint_bytes((range.start - prev_value) as nat);
            let ghost second = vint_bytes((range.end - range.start) as nat);
            write_vint_u128(range.start - prev_value, writer);
            write_vint_u128(range.end - range.start, writer);
            proof {
                let tail = encode_ranges(self@.skip(i + 1), range.end as int);
                assert(self@.skip(i as int).drop_first() =~= self@.skip(i + 1));
                assert(before + (first + second + tail) =~= before + first + second + tail);
            }
            prev_value = range.end;
            i += 1;
        }
        assert(self@.skip(i as int) =~= Seq::empty());
        assert(writer@ + Seq::<u8>::empty() =~= writer@);
    }

    /// Reads a compact space off the start of `reader`.
    pub fn deserialize(reader: &mut &[u8]) -> (result: Result<CompactSpace, CodecError>)
        ensures
            match parse_space(old(reader)@) {
                Ok((ranges, rest)) => result is Ok && result->Ok_0@ == ranges && final(reader)@
                    == rest && ranges_laid_out(ranges),
                Err(error) => result == Err::<CompactSpace, CodecError>(error),
            },
    {
        let num_ranges: u64 = match read_vint(reader) {
            Ok(num_ranges) => num_ranges,
            Err(error) => return Err(error),
        };
        let ghost body = reader@;
        let mut ranges_mapping: Vec<RangeMapping> = Vec::new();
        let mut prev: Option<RangeMapping> = None;
        let mut i: u64 = 0;
        while i < num_ranges
            invariant
                i <= num_ranges,
                parse_space(old(reader)@) == parse_ranges(body, num_ranges as nat, None),
                ranges_laid_out(ranges_mapping@),
                prev == if ranges_mapping@.len() == 0 {
                    None
                } else {
                    Some(ranges_mapping@.last())
                },
                parse_ranges(body, num_ranges as nat, None) == match parse_ranges(
                    reader@,
                    (num_ranges - i) as nat,
                    prev,
                ) {
                    Ok((ranges, rest)) => Ok((ranges_mapping@ + ranges, rest)),
                    Err(error) => Err(error),
                },
            decreases num_ranges - i,
        {
            let range: RangeMapping = match Self::deserialize_range(reader, prev) {
                Ok(range) => range,
                Err(error) => return Err(error),
            };
            proof {
                let tail = parse_ranges(reader@, (num_ranges - i - 1) as nat, Some(range));
                if let Ok((ranges, rest)) = tail {
                    assert(ranges_mapping@ + (seq![range] + ranges) =~= ranges_mapping@.push(range)
                        + ranges);
                }
                lemma_push_laid_out(ranges_mapping@, range);
            }
            ranges_mapping.push(range);
            prev = Some(range);
            i += 1;
        }
        assert(ranges_mapping@ + Seq::<RangeMapping>::empty() =~= ranges_mapping@);
        Ok(CompactSpace { ranges_mapping })
    }

    /// Reads the range behind the range `prev`, if there is one, off the start of `reader`.
    fn deserialize_range(reader: &mut &[u8], prev: Option<RangeMapping>) -> (result: Result<
        RangeMapping,
        CodecError,
    >)
        requires
            prev matches Some(range) ==> range.start <= range.end && range.last_compact()
                <= u64::MAX,
        ensures
            match parse_range(old(reader)@, prev) {
                Ok((range, rest)) => result == Ok::<RangeMapping, CodecError>(range)
                    && final(reader)@ == rest && range.start <= range.end && range.last_compact()
                    <= u64::MAX && (prev matches Some(before) ==> before.end <= range.start
                    && range.compact_start == before.last_compact() + 1) && (prev is None
                    ==> range.compact_start == 1),
                Err(error) => result == Err::<RangeMapping, CodecError>(error),
            },
    {
        let mut value: u128 = 0;
        let mut compact_start: u64 = 1;  // 0 is reserved for null
        if let Some(range) = prev {
            value = range.end;
            let compact_end: u64 = range.compact_end();
            if compact_end == u64::MAX {
                return Err(CodecError::Malformed);
            }
            compact_start = compact_end + 1;
        }
        let start_delta: u128 = match read_vint_u128(reader) {
            Ok(delta) => delta,
            Err(error) => return Err(error),
        };
        if start_delta > u128::MAX - value {
            return Err(CodecError::Malformed);
        }
        let start: u128 = value + start_delta;
        let end_delta: u128 = match read_vint_u128(reader) {
            Ok(delta) => delta,
            Err(error) => return Err(error),
        };
        if end_delta > u128::MAX - start {
            return Err(CodecError::Malformed);
        }
        let range = RangeMapping { start, end: start + end_delta, compact_start };
        if range.width() > u64::MAX - compact_start {
            return Err(CodecError::Malformed);
        }
        Ok(range)
    }
}

/// A range that follows on the last one keeps the ranges laid out in order.
pub proof fn lemma_push_laid_out(ranges: Seq<RangeMapping>, range: RangeMapping)
    requires
        ranges_laid_out(ranges),
        range.start <= range.end,
        range.last_compact() <= u64::MAX,
        ranges.len() == 0 ==> range.compact_start == 1,
        ranges.len() > 0 ==> range.compact_start == ranges.last().last_compact() + 1,
        ranges.len() > 0 ==> ranges.last().end <= range.start,
    ensures
        ranges_laid_out(ranges.push(range)),
{
    let longer = ranges.push(range);
    assert forall|i: int| 0 <= i < longer.len() - 1 implies #[trigger] follows_on(longer, i) by {
        if i < ranges.len() - 1 {
            assert(follows_on(ranges, i));
        }
    }
    assert forall|i: int, j: int| 0 <= i < j < longer.len() implies longer[i].end
        <= longer[j].start by {
        if j == ranges.len() && i < ranges.len() - 1 {
            assert(ranges[i].end <= ranges.last().start);
            assert(ranges.last().start <= ranges.last().end);
        }
    }
}

/// Later ranges have larger compact values.
pub proof fn lemma_compact_in_order(ranges: Seq<RangeMapping>, i: int, j: int)
    requires
        ranges_laid_out(ranges),
        0 <= i <= j < ranges.len(),
    ensures
        i < j ==> ranges[i].last_compact() < ranges[j].compact_start,
        ranges[i].compact_start <= ranges[i].last_compact() <= ranges[j].last_compact(),
        1 <= ranges[i].compact_start,
    decreases j,
{
    if i < j {
        lemma_compact_in_order(ranges, i, j - 1);
        assert(follows_on(ranges, j - 1));
    } else if i > 0 {
        lemma_compact_in_order(ranges, i - 1, i - 1);
        assert(follows_on(ranges, i - 1));
    }
}

pub proof fn lemma_drop_last_wf(ranges: Seq<RangeMapping>)
    requires
        ranges_wf(ranges),
        ranges.len() > 0,
    ensures
        ranges_wf(ranges.drop_last()),
{
    lemma_drop_last_laid_out(ranges);
}

proof fn lemma_drop_last_laid_out(ranges: Seq<RangeMapping>)
    requires
        ranges_laid_out(ranges),
        ranges.len() > 0,
    ensures
        ranges_laid_out(ranges.drop_last()),
{
    let shorter = ranges.drop_last();
    assert forall|i: int| 0 <= i < shorter.len() - 1 implies #[trigger] follows_on(
        shorter,
        i,
    ) by {
        assert(follows_on(ranges, i));
    }
}

/// A value of the range at `pos` lies as far into its compact values as into the range.
pub proof fn lemma_to_compact_at(ranges: Seq<RangeMapping>, value: int, pos: int)
    requires
        ranges_wf(ranges),
        0 <= pos < ranges.len(),
        ranges[pos].contains(value),
    ensures
        to_compact(ranges, value) == Ok::<int, int>(
            ranges[pos].compact_start + (value - ranges[pos].start),
        ),
        ranges[pos].compact_start + (value - ranges[pos].start) <= ranges[pos].last_compact(),
    decreases ranges.len(),
{
    if pos < ranges.len() - 1 {
        lemma_drop_last_wf(ranges);
        lemma_to_compact_at(ranges.drop_last(), value, pos);
    }
}

/// A value that lies above the first `pos` ranges and below the others has no compact value.
pub proof fn lemma_to_compact_between(ranges: Seq<RangeMapping>, value: int, pos: int)
    requires
        ranges_wf(ranges),
        0 <= pos <= ranges.len(),
        forall|i: int| 0 <= i < pos ==> (#[trigger] ranges[i]).end < value,
        forall|i: int| pos <= i < ranges.len() ==> value < (#[trigger] ranges[i]).start,
    ensures
        to_compact(ranges, value) == Err::<int, int>(pos),
    decreases ranges.len(),
{
    if pos < ranges.len() {
        lemma_drop_last_wf(ranges);
        lemma_to_compact_between(ranges.drop_last(), value, pos);
    }
}

/// The value of a compact value that lies at or behind the start of the range at `pos`, and
/// before the start of the next.
pub proof fn lemma_from_compact_at(ranges: Seq<RangeMapping>, compact: int, pos: int)
    requires
        ranges_laid_out(ranges),
        0 <= pos < ranges.len(),
        ranges[pos].compact_start <= compact,
        pos + 1 < ranges.len() ==> compact < ranges[pos + 1].compact_start,
    ensures
        from_compact(ranges, compact) == ranges[pos].start + (compact - ranges[pos].compact_start),
    decreases ranges.len(),
{
    if pos < ranges.len() - 1 {
        lemma_compact_in_order(ranges, pos + 1, ranges.len() - 1);
        lemma_drop_last_laid_out(ranges);
        lemma_from_compact_at(ranges.drop_last(), compact, pos);
    }
}

/// A value that no range holds lies between two neighbouring ranges, before the first or behind
/// the last.
pub proof fn lemma_position_of_uncovered(ranges: Seq<RangeMapping>, value: int) -> (pos: int)
    requires
        ranges_wf(ranges),
        !covers(ranges, value),
    ensures
        0 <= pos <= ranges.len(),
        forall|i: int| 0 <= i < pos ==> (#[trigger] ranges[i]).end < value,
        forall|i: int| pos <= i < ranges.len() ==> value < (#[trigger] ranges[i]).start,
    decreases ranges.len(),
{
    if ranges.len() == 0 {
        0
    } else if value > ranges.last().end {
        ranges.len() as int
    } else {
        assert(!ranges[ranges.len() - 1].contains(value));
        lemma_drop_last_wf(ranges);
        let shorter = ranges.drop_last();
        assert forall|i: int| 0 <= i < shorter.len() implies !(#[trigger] shorter[i]).contains(
            value,
        ) by {
            assert(!ranges[i].contains(value));
        }
        let pos = lemma_position_of_uncovered(shorter, value);
        assert forall|i: int| 0 <= i < pos implies (#[trigger] ranges[i]).end < value by {
            assert(shorter[i] == ranges[i]);
        }
        assert forall|i: int| pos <= i < ranges.len() implies value < (
        #[trigger] ranges[i]).start by {
            if i < shorter.len() {
                assert(shorter[i] == ranges[i]);
            }
        }
        pos
    }
}

/// The range that a compact value belongs to.
pub proof fn lemma_range_of_compact(ranges: Seq<RangeMapping>, compact: int) -> (pos: int)
    requires
        ranges_laid_out(ranges),
        ranges.len() > 0,
        1 <= compact <= amplitude(ranges),
    ensures
        0 <= pos < ranges.len(),
        ranges[pos].compact_start <= compact <= ranges[pos].last_compact(),
    decreases ranges.len(),
{
    let last = ranges.len() - 1;
    if compact >= ranges[last].compact_start {
        last
    } else {
        assert(follows_on(ranges, last - 1));
        lemma_drop_last_laid_out(ranges);
        lemma_range_of_compact(ranges.drop_last(), compact)
    }
}

/// A compact value that lies before the last range unpacks to a value of the original space.
proof fn lemma_unpacks_before_last(ranges: Seq<RangeMapping>, compact: int)
    requires
        ranges_laid_out(ranges),
        ranges.len() > 0,
        1 <= compact < ranges.last().compact_start,
    ensures
        from_compact(ranges, compact) <= u128::MAX,
{
    lemma_compact_in_order(ranges, 0, ranges.len() - 1);
    let pos = lemma_range_of_compact(ranges, compact);
    if pos + 1 < ranges.len() {
        lemma_compact_in_order(ranges, pos, pos + 1);
    }
    lemma_from_compact_at(ranges, compact, pos);
    lemma_extent_at_most_width(ranges[pos]);
}

proof fn lemma_extent_at_most_width(range: RangeMapping)
    requires
        range.start <= range.end,
    ensures
        range.extent() <= range.end - range.start,
{
    let width = (range.end - range.start) as nat;
    vstd::arithmetic::div_mod::lemma_mod_decreases(width, u64::MAX as nat + 1);
}

/// The values that have a compact value are those that a range holds, and it is one of
/// `1..=amplitude`; 0 is left for null.
pub proof fn law_compact_value_of_covered(ranges: Seq<RangeMapping>, value: u128)
    requires
        ranges_wf(ranges),
    ensures
        covers(ranges, value as int) <==> to_compact(ranges, value as int) is Ok,
        to_compact(ranges, value as int) matches Ok(compact) ==> 1 <= compact <= amplitude(
            ranges,
        ) <= u64::MAX,
{
    if covers(ranges, value as int) {
        let pos = choose|i: int|
            0 <= i < ranges.len() && (#[trigger] ranges[i]).contains(value as int);
        lemma_to_compact_at(ranges, value as int, pos);
        lemma_compact_in_order(ranges, pos, ranges.len() - 1);
    } else {
        let pos = lemma_position_of_uncovered(ranges, value as int);
        lemma_to_compact_between(ranges, value as int, pos);
    }
}

/// A value outside the compact space would be inserted behind the ranges below it and before the
/// ranges above it.
pub proof fn law_insert_position(ranges: Seq<RangeMapping>, value: u128)
    requires
        ranges_wf(ranges),
    ensures
        to_compact(ranges, value as int) matches Err(pos) ==> {
            &&& 0 <= pos <= ranges.len()
            &&& forall|i: int| 0 <= i < pos ==> (#[trigger] ranges[i]).end < value
            &&& forall|i: int| pos <= i < ranges.len() ==> value < (#[trigger] ranges[i]).start
        },
{
    law_compact_value_of_covered(ranges, value);
    if !covers(ranges, value as int) {
        let pos = lemma_position_of_uncovered(ranges, value as int);
        lemma_to_compact_between(ranges, value as int, pos);
    }
}

/// Unpacking the compact value of a value gives the value back.
pub proof fn law_value_round_trip(ranges: Seq<RangeMapping>, value: u128)
    requires
        ranges_wf(ranges),
    ensures
        to_compact(ranges, value as int) matches Ok(compact) ==> from_compact(ranges, compact)
            == value,
{
    law_compact_value_of_covered(ranges, value);
    if covers(ranges, value as int) {
        let pos = choose|i: int|
            0 <= i < ranges.len() && (#[trigger] ranges[i]).contains(value as int);
        let compact = ranges[pos].compact_start + (value - ranges[pos].start);
        lemma_to_compact_at(ranges, value as int, pos);
        if pos + 1 < ranges.len() {
            lemma_compact_in_order(ranges, pos, pos + 1);
        }
        lemma_from_compact_at(ranges, compact, pos);
    }
}

/// Every compact value of `1..=amplitude` unpacks to a value of the original space, whose compact
/// value it is.
pub proof fn law_compact_round_trip(ranges: Seq<RangeMapping>, compact: u64)
    requires
        ranges_wf(ranges),
        ranges.len() > 0,
        1 <= compact <= amplitude(ranges),
    ensures
        0 <= from_compact(ranges, compact as int) <= u128::MAX,
        to_compact(ranges, from_compact(ranges, compact as int)) == Ok::<int, int>(
            compact as int,
        ),
{
    let pos = lemma_range_of_compact(ranges, compact as int);
    if pos + 1 < ranges.len() {
        lemma_compact_in_order(ranges, pos, pos + 1);
    }
    lemma_from_compact_at(ranges, compact as int, pos);
    assert(ranges[pos].contains(from_compact(ranges, compact as int)));
    lemma_to_compact_at(ranges, from_compact(ranges, compact as int), pos);
}

/// Values compare as their compact values do.
pub proof fn law_order_kept(ranges: Seq<RangeMapping>, left: u128, right: u128)
    requires
        ranges_wf(ranges),
        covers(ranges, left as int),
        covers(ranges, right as int),
    ensures
        left <= right <==> to_compact(ranges, left as int)->Ok_0 <= to_compact(
            ranges,
            right as int,
        )->Ok_0,
{
    let i = choose|i: int| 0 <= i < ranges.len() && (#[trigger] ranges[i]).contains(left as int);
    let j = choose|j: int| 0 <= j < ranges.len() && (#[trigger] ranges[j]).contains(right as int);
    lemma_to_compact_at(ranges, left as int, i);
    lemma_to_compact_at(ranges, right as int, j);
    if i < j {
        lemma_compact_in_order(ranges, i, j);
    } else if j < i {
        lemma_compact_in_order(ranges, j, i);
    }
}

/// The compact values of neighbouring ranges follow on each other.
pub proof fn law_ranges_laid_end_to_end(ranges: Seq<RangeMapping>, pos: int)
    requires
        ranges_wf(ranges),
        0 <= pos < ranges.len() - 1,
    ensures
        ranges[pos].last_compact() + 1 == ranges[pos + 1].compact_start,
        ranges[pos].end < ranges[pos + 1].start,
{
    assert(follows_on(ranges, pos));
}

/// The range and the value that reading the range at `i` starts from.
spec fn reading_from(ranges: Seq<RangeMapping>, i: int) -> (Option<RangeMapping>, int) {
    if i == 0 {
        (None, 0)
    } else {
        (Some(ranges[i - 1]), ranges[i - 1].end as int)
    }
}

proof fn lemma_parse_encoded_range(ranges: Seq<RangeMapping>, i: int, tail: Seq<u8>)
    requires
        ranges_laid_out(ranges),
        0 <= i < ranges.len(),
    ensures
        ({
            let (prev, value) = reading_from(ranges, i);
            parse_range(
                vint_bytes((ranges[i].start - value) as nat) + (vint_bytes(
                    (ranges[i].end - ranges[i].start) as nat,
                ) + tail),
                prev,
            ) == Ok::<(RangeMapping, Seq<u8>), CodecError>((ranges[i], tail))
        }),
{
    let (prev, value) = reading_from(ranges, i);
    let range = ranges[i];
    let second = vint_bytes((range.end - range.start) as nat);
    lemma_parse_vint_u128((range.start - value) as u128, second + tail);
    lemma_parse_vint_u128((range.end - range.start) as u128, tail);
    if i > 0 {
        assert(follows_on(ranges, i - 1));
    }
}

proof fn lemma_parse_encoded_ranges(ranges: Seq<RangeMapping>, i: int, rest: Seq<u8>)
    requires
        ranges_laid_out(ranges),
        0 <= i <= ranges.len(),
    ensures
        ({
            let (prev, value) = reading_from(ranges, i);
            parse_ranges(
                encode_ranges(ranges.skip(i), value) + rest,
                (ranges.len() - i) as nat,
                prev,
            ) == Ok::<(Seq<RangeMapping>, Seq<u8>), CodecError>((ranges.skip(i), rest))
        }),
    decreases ranges.len() - i,
{
    let (prev, value) = reading_from(ranges, i);
    let bytes = encode_ranges(ranges.skip(i), value) + rest;
    if i == ranges.len() {
        assert(ranges.skip(i) =~= Seq::empty());
        assert(bytes =~= rest);
    } else {
        let range = ranges[i];
        let first = vint_bytes((range.start - value) as nat);
        let second = vint_bytes((range.end - range.start) as nat);
        let tail = encode_ranges(ranges.skip(i + 1), range.end as int) + rest;
        assert(ranges.skip(i).drop_first() =~= ranges.skip(i + 1));
        assert(bytes =~= first + (second + tail));
        lemma_parse_encoded_range(ranges, i, tail);
        lemma_parse_encoded_ranges(ranges, i + 1, rest);
        assert(seq![range] + ranges.skip(i + 1) =~= ranges.skip(i));
    }
}

/// A compact space is read back as it was written, and what stands behind it is left.
pub proof fn law_space_round_trip(ranges: Seq<RangeMapping>, rest: Seq<u8>)
    requires
        ranges_laid_out(ranges),
        ranges.len() <= u64::MAX,
    ensures
        parse_space(encode_space(ranges) + rest) == Ok::<(Seq<RangeMapping>, Seq<u8>), CodecError>(
            (ranges, rest),
        ),
{
    let tail = encode_ranges(ranges, 0) + rest;
    assert(encode_space(ranges) + rest =~= vint_bytes(ranges.len()) + tail);
    lemma_parse_vint_u64(ranges.len() as u64, tail);
    lemma_parse_encoded_ranges(ranges, 0, rest);
    assert(ranges.skip(0) =~= ranges);
}

/// The end of the last range, from which the start of the next is counted.
spec fn last_end(ranges: Seq<RangeMapping>, prev: int) -> int {
    if ranges.len() == 0 {
        prev
    } else {
        ranges.last().end as int
    }
}

proof fn lemma_encode_ranges_push(ranges: Seq<RangeMapping>, range: RangeMapping, prev: int)
    ensures
        encode_ranges(ranges.push(range), prev) == encode_ranges(ranges, prev) + vint_bytes(
            (range.start - last_end(ranges, prev)) as nat,
        ) + vint_bytes((range.end - range.start) as nat),
    decreases ranges.len(),
{
    let longer = ranges.push(range);
    let first = vint_bytes((range.start - last_end(ranges, prev)) as nat);
    let second = vint_bytes((range.end - range.start) as nat);
    if ranges.len() == 0 {
        assert(encode_ranges(longer.drop_first(), range.end as int) =~= Seq::empty());
        assert(encode_ranges(longer, prev) =~= first + second);
        assert(encode_ranges(ranges, prev) + first + second =~= first + second);
    } else {
        lemma_encode_ranges_push(ranges.drop_first(), range, ranges[0].end as int);
        assert(longer.drop_first() =~= ranges.drop_first().push(range));
        assert(encode_ranges(longer, prev) =~= encode_ranges(ranges, prev) + first + second);
    }
}

/// The bytes of a compact space begin with the number of its ranges, as a variable-length number;
/// where there are none, that is all.
pub proof fn law_space_begins_with_count(ranges: Seq<RangeMapping>)
    ensures
        vint_bytes(ranges.len()).is_prefix_of(encode_space(ranges)),
        ranges.len() == 0 ==> encode_space(ranges) == vint_bytes(0),
{
    let count = vint_bytes(ranges.len());
    assert(encode_space(ranges).take(count.len() as int) =~= count);
    if ranges.len() == 0 {
        assert(encode_space(ranges) =~= vint_bytes(0));
    }
}

/// One range more in a compact space adds, behind the bytes of the others, two variable-length
/// numbers: the distance of its start from the end of the range before it, or from 0, and the
/// distance of its end from its start.
pub proof fn law_range_is_added_to_bytes(ranges: Seq<RangeMapping>, range: RangeMapping)
    ensures
        encode_space(ranges.push(range)).skip(vint_bytes(ranges.len() + 1).len() as int)
            == encode_space(ranges).skip(vint_bytes(ranges.len()).len() as int) + vint_bytes(
            (range.start - if ranges.len() == 0 {
                0
            } else {
                ranges.last().end as int
            }) as nat,
        ) + vint_bytes((range.end - range.start) as nat),
{
    let longer = ranges.push(range);
    lemma_encode_ranges_push(ranges, range, 0);
    assert(encode_space(longer).skip(vint_bytes(longer.len()).len() as int) =~= encode_ranges(
        longer,
        0,
    ));
    assert(encode_space(ranges).skip(vint_bytes(ranges.len()).len() as int) =~= encode_ranges(
        ranges,
        0,
    ));
}

proof fn lemma_parse_ranges_len(bytes: Seq<u8>, count: nat, prev: Option<RangeMapping>)
    ensures
        parse_ranges(bytes, count, prev) matches Ok((ranges, _)) ==> ranges.len() == count,
    decreases count,
{
    if count > 0 {
        if let Ok((range, tail)) = parse_range(bytes, prev) {
            lemma_parse_ranges_len(tail, (count - 1) as nat, Some(range));
        }
    }
}

/// As many ranges are read of a compact space as the variable-length number at its start says,
/// however that is written; if it cannot be read, that is the error. The ranges do not depend on
/// the bytes before them in any other way.
pub proof fn law_count_of_ranges_is_read(bytes: Seq<u8>, other: Seq<u8>)
    ensures
        match parse_vint_u64(bytes) {
            Err(error) => parse_space(bytes) == Err::<(Seq<RangeMapping>, Seq<u8>), CodecError>(
                error,
            ),
            Ok((count, tail)) => {
                &&& parse_space(bytes) matches Ok((ranges, _)) ==> ranges.len() == count
                &&& count == 0 ==> parse_space(bytes) == Ok::<
                    (Seq<RangeMapping>, Seq<u8>),
                    CodecError,
                >((Seq::empty(), tail))
            },
        },
        parse_vint_u64(bytes) == parse_vint_u64(other) ==> parse_space(bytes) == parse_space(other),
{
    if let Ok((count, tail)) = parse_vint_u64(bytes) {
        lemma_parse_ranges_len(tail, count, None);
    }
}

proof fn lemma_parse_ranges_push(bytes: Seq<u8>, count: nat, prev: Option<RangeMapping>)
    ensures
        parse_ranges(bytes, count + 1, prev) == match parse_ranges(bytes, count, prev) {
            Err(error) => Err(error),
            Ok((ranges, tail)) => match parse_range(
                tail,
                if ranges.len() == 0 {
                    prev
                } else {
                    Some(ranges.last())
                },
            ) {
                Err(error) => Err(error),
                Ok((range, rest)) => Ok((ranges.push(range), rest)),
            },
        },
    decreases count,
{
    if count == 0 {
        if let Ok((range, tail)) = parse_range(bytes, prev) {
            assert(parse_ranges(tail, 0, Some(range)) == Ok::<
                (Seq<RangeMapping>, Seq<u8>),
                CodecError,
            >((Seq::empty(), tail)));
            assert(seq![range] + Seq::<RangeMapping>::empty() =~= Seq::empty().push(range));
        }
    } else if let Ok((first, tail)) = parse_range(bytes, prev) {
        lemma_parse_ranges_push(tail, (count - 1) as nat, Some(first));
        if let Ok((ranges, tail)) = parse_ranges(tail, (count - 1) as nat, Some(first)) {
            assert((seq![first] + ranges).last() == if ranges.len() == 0 {
                first
            } else {
                ranges.last()
            });
            if let Ok((range, rest)) = parse_range(
                tail,
                if ranges.len() == 0 {
                    Some(first)
                } else {
                    Some(ranges.last())
                },
            ) {
                assert((seq![first] + ranges).push(range) =~= seq![first] + ranges.push(range));
            }
        }
    }
}

/// What is read of a compact space of `count + 1` ranges is what is read of one of `count` ranges
/// and, behind it, one range more: two variable-length numbers, of which the first is the distance
/// of its start from the end of the range before it, or from 0, and the second that of its end from
/// its start. Its compact values follow on those before it. Numbers that do not fit are an error.
pub proof fn law_ranges_are_read_one_by_one(count: u64, body: Seq<u8>)
    requires
        count < u64::MAX,
    ensures
        parse_space(vint_bytes(count as nat + 1) + body) == match parse_space(
            vint_bytes(count as nat) + body,
        ) {
            Err(error) => Err(error),
            Ok((ranges, tail)) => {
                let end = if ranges.len() == 0 {
                    0
                } else {
                    ranges.last().end as int
                };
                let compact_start = if ranges.len() == 0 {
                    1
                } else {
                    ranges.last().compact_start + (ranges.last().end - ranges.last().start)
                        % 0x1_0000_0000_0000_0000 + 1
                };
                if compact_start > u64::MAX {
                    Err(CodecError::Malformed)
                } else {
                    match parse_vint_u128(tail) {
                        Err(error) => Err(error),
                        Ok((distance, tail)) => if end + distance > u128::MAX {
                            Err(CodecError::Malformed)
                        } else {
                            match parse_vint_u128(tail) {
                                Err(error) => Err(error),
                                Ok((length, rest)) => if end + distance + length > u128::MAX
                                    || compact_start + length as int % 0x1_0000_0000_0000_0000
                                    > u64::MAX {
                                    Err(CodecError::Malformed)
                                } else {
                                    Ok(
                                        (
                                            ranges.push(
                                                RangeMapping {
                                                    start: (end + distance) as u128,
                                                    end: (end + distance + length) as u128,
                                                    compact_start: compact_start as u64,
                                                },
                                            ),
                                            rest,
                                        ),
                                    )
                                },
                            }
                        },
                    }
                }
            },
        },
{
    lemma_parse_vint_u64(count, body);
    lemma_parse_vint_u64((count + 1) as u64, body);
    lemma_parse_ranges_push(body, count as nat, None);
}

/// The compact values of numbers that follow on each other in a range, and of the end of a range
/// and the start of the next, follow on each other, from 1 on.
pub proof fn law_compact_values_count_up(ranges: Seq<RangeMapping>, pos: int, value: int)
    requires
        ranges_wf(ranges),
        0 <= pos < ranges.len(),
        ranges[pos].start <= value <= ranges[pos].end,
    ensures
        to_compact(ranges, value) is Ok,
        value < ranges[pos].end ==> to_compact(ranges, value + 1) == Ok::<int, int>(
            to_compact(ranges, value)->Ok_0 + 1,
        ),
        value == ranges[pos].end && pos < ranges.len() - 1 ==> to_compact(
            ranges,
            ranges[pos + 1].start as int,
        ) == Ok::<int, int>(to_compact(ranges, value)->Ok_0 + 1),
        value == ranges[pos].end && pos == ranges.len() - 1 ==> to_compact(ranges, value) == Ok::<
            int,
            int,
        >(amplitude(ranges)),
        to_compact(ranges, ranges[0].start as int) == Ok::<int, int>(1),
{
    lemma_to_compact_at(ranges, value, pos);
    lemma_to_compact_at(ranges, ranges[0].start as int, 0);
    if value < ranges[pos].end {
        lemma_to_compact_at(ranges, value + 1, pos);
    } else if pos < ranges.len() - 1 {
        lemma_to_compact_at(ranges, ranges[pos + 1].start as int, pos + 1);
        assert(follows_on(ranges, pos));
    }
}

} // verus!
