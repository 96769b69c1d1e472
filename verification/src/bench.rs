//! What a timing harness needs to know of the collectives: which one to
//! run, how often, what every rank should bring and what it should get.

use vstd::prelude::*;

verus! {

/// The reduction that is timed.
#[derive(Clone, Copy, Debug, PartialEq, Eq, Structural)]
pub enum Operation {
    /// The elementwise sum.
    Sum,
}

/// The timed sum-reduction to every rank.
#[derive(Clone, Copy, Debug, PartialEq, Eq, Structural)]
pub struct Allreduce {
    pub operation: Operation,
}

/// The timed broadcast from rank 0.
#[derive(Clone, Copy, Debug, PartialEq, Eq, Structural)]
pub struct Broadcast;

/// The timed sum-reduction to rank 0.
#[derive(Clone, Copy, Debug, PartialEq, Eq, Structural)]
pub struct Reduce;

/// What the harness is asked to do.
#[derive(Clone, Copy, Debug, PartialEq, Eq, Structural)]
pub enum Benchmark {
    /// Time the sum-reduction.
    Allreduce(Allreduce),
    /// Time the broadcast.
    Broadcast(Broadcast),
    /// Turn recorded times into a table of statistics.
    Summarize,
}

/// How a benchmark is run.
#[derive(Debug)]
pub struct Configuration {
    /// Number of timed runs per size.
    pub iterations: usize,
    /// Number of untimed runs per size, before the timed ones.
    pub warmup: usize,
    /// The buffer sizes to run, in bytes.
    pub sizes: Vec<usize>,
    /// Whether to check what every run delivers.
    pub validate: bool,
}

impl Allreduce {
    /// What rank `rank` brings at index `index`.
    pub open spec fn spec_local(rank: int, index: int) -> int {
        rank + index
    }

    /// What every rank of a group of `size` ranks gets at index `index`: the
    /// sum of the ranks' numbers, and `index` once for every rank.
    pub open spec fn spec_expected(size: int, index: int) -> int {
        ((size - 1) * size) / 2 + index * size
    }

    /// What rank `rank` brings at index `index`.
    pub fn local(rank: i32, index: i32) -> (value: i32)
        requires
            i32::MIN <= rank + index <= i32::MAX,
        ensures
            value == Self::spec_local(rank as int, index as int),
    {
        rank + index
    }

    /// What every rank of a group of `size` ranks gets at index `index`.
    pub fn expected(size: i32, index: i32) -> (value: i32)
        requires
            0 < size,
            0 <= index,
            (size - 1) * size <= i32::MAX,
            Self::spec_expected(size as int, index as int) <= i32::MAX,
        ensures
            value == Self::spec_expected(size as int, index as int),
    {
        assert(0 <= (size - 1) * size) by (nonlinear_arith)
            requires
                0 < size,
        ;
        assert(0 <= index * size) by (nonlinear_arith)
            requires
                0 < size,
                0 <= index,
        ;
        ((size - 1) * size) / 2 + index * size
    }
}

impl Broadcast {
    /// The byte that the root sends at index `index`: the index's low byte.
    pub fn expected(index: usize) -> (byte: u8)
        ensures
            byte == index % 256,
    {
        (index % 256) as u8
    }
}

impl Configuration {
    /// Number of runs per size, untimed and timed together.
    pub fn runs(&self) -> (runs: usize)
        requires
            self.warmup + self.iterations <= usize::MAX,
        ensures
            runs == self.warmup + self.iterations,
    {
        self.warmup + self.iterations
    }

    /// Whether the time of a run is recorded: the runs after the warm-up.
    pub fn records(&self, iteration: usize) -> (recorded: bool)
        ensures
            recorded == (iteration >= self.warmup),
    {
        iteration >= self.warmup
    }
}

/// Why a line of recorded times cannot be read.
#[derive(Clone, Copy, Debug, PartialEq, Eq, Structural)]
pub enum LineError {
    /// The line holds no comma: it is not a size followed by durations.
    Format,
    /// A duration is not a number of nanoseconds that fits 64 bits.
    Duration,
}

/// A line of recorded times: the number of bytes at the line's start that
/// name the buffer size, and the durations in nanoseconds that follow it.
#[derive(Debug)]
pub struct Sample {
    pub size: usize,
    pub durations: Vec<u64>,
}

/// The number that decimal digits stand for.
pub open spec fn decimal(digits: Seq<u8>) -> nat
    decreases digits.len(),
{
    if digits.len() == 0 {
        0
    } else {
        decimal(digits.drop_last()) * 10 + (digits.last() - 48) as nat
    }
}

/// Whether every byte is an ASCII digit.
pub open spec fn all_digits(digits: Seq<u8>) -> bool {
    forall|i: int| 0 <= i < digits.len() ==> 48 <= #[trigger] digits[i] <= 57
}

/// A field without the plus sign that it may begin with.
pub open spec fn unsigned_part(field: Seq<u8>) -> Seq<u8> {
    if field.len() > 0 && field[0] == 43 {
        field.skip(1)
    } else {
        field
    }
}

/// The duration that a field stands for: one or more decimal digits, on
/// their own or after a plus sign, whose number fits 64 bits.
pub open spec fn duration_of(field: Seq<u8>) -> Option<u64> {
    let digits = unsigned_part(field);
    if digits.len() > 0 && all_digits(digits) && decimal(digits) <= u64::MAX {
        Some(decimal(digits) as u64)
    } else {
        None
    }
}

/// Index of the first comma at or after `from`, or the line's length if
/// there is none.
pub open spec fn next_comma(line: Seq<u8>, from: int) -> int
    decreases line.len() - from,
{
    if from >= line.len() {
        line.len() as int
    } else if line[from] == 44 {
        from
    } else {
        next_comma(line, from + 1)
    }
}

/// The durations that the fields from `from` on stand for, separated by
/// commas, if every one of them is a duration.
pub open spec fn durations_from(line: Seq<u8>, from: int) -> Option<Seq<u64>>
    decreases line.len() - from,
{
    let end = next_comma(line, from);
    if 0 <= from <= end <= line.len() {
        match duration_of(line.subrange(from, end)) {
            None => None,
            Some(duration) => if end >= line.len() {
                Some(seq![duration])
            } else {
                match durations_from(line, end + 1) {
                    None => None,
                    Some(more) => Some(seq![duration] + more),
                }
            },
        }
    } else {
        None
    }
}

/// What a line stands for: the length of the size before the first comma
/// and the durations after it.
pub open spec fn sample_of(line: Seq<u8>) -> Result<(int, Seq<u64>), LineError> {
    let comma = next_comma(line, 0);
    if comma >= line.len() {
        Err(LineError::Format)
    } else {
        match durations_from(line, comma + 1) {
            None => Err(LineError::Duration),
            Some(durations) => Ok((comma, durations)),
        }
    }
}

proof fn lemma_decimal_grows(digits: Seq<u8>, upto: int)
    requires
        all_digits(digits),
        0 <= upto <= digits.len(),
    ensures
        decimal(digits.take(upto)) <= decimal(digits),
    decreases digits.len() - upto,
{
    if upto < digits.len() {
        lemma_decimal_grows(digits, upto + 1);
        assert(digits.take(upto + 1).drop_last() =~= digits.take(upto));
        assert(48 <= digits[upto] <= 57);
    } else {
        assert(digits.take(upto) =~= digits);
    }
}

/// Index of the first comma at or after `from`.
fn find_comma(line: &[u8], from: usize) -> (end: usize)
    requires
        from <= line@.len(),
    ensures
        end == next_comma(line@, from as int),
        from <= end <= line@.len(),
{
    let mut end: usize = from;
    while end < line.len() && line[end] != 44
        invariant
            from <= end <= line@.len(),
            next_comma(line@, from as int) == next_comma(line@, end as int),
        decreases line@.len() - end,
    {
        end = end + 1;
    }
    end
}

/// Reads one duration.
pub fn parse_duration(field: &[u8]) -> (duration: Option<u64>)
    ensures
        duration == duration_of(field@),
{
    let len: usize = field.len();
    let first: usize = if len > 0 && field[0] == 43 {
        1
    } else {
        0
    };
    let ghost digits = unsigned_part(field@);
    assert(digits =~= field@.skip(first as int));
    if first == len {
        return None;
    }
    let mut value: u64 = 0;
    let mut i: usize = first;
    assert(digits.take(0) =~= Seq::<u8>::empty());
    while i < len
        invariant
            first <= i <= len,
            len == field@.len(),
            digits == field@.skip(first as int),
            digits == unsigned_part(field@),
            digits.len() == len - first,
            all_digits(digits.take(i - first)),
            value == decimal(digits.take(i - first)),
        decreases len - i,
    {
        let byte: u8 = field[i];
        assert(digits[i - first] == byte);
        if byte < 48 || byte > 57 {
            assert(!all_digits(digits));
            return None;
        }
        proof {
            let longer = digits.take(i - first + 1);
            assert(longer.drop_last() =~= digits.take(i - first));
            assert(longer.last() == byte);
            assert(decimal(longer) == value * 10 + (byte - 48));
            assert forall|j: int| 0 <= j < longer.len() implies 48 <= #[trigger] longer[j]
                <= 57 by {
                if j < i - first {
                    assert(digits.take(i - first)[j] == longer[j]);
                }
            }
            if all_digits(digits) {
                lemma_decimal_grows(digits, i - first + 1);
            }
        }
        let scaled: Option<u64> = value.checked_mul(10);
        match scaled {
            None => {
                return None;
            },
            Some(scaled) => {
                let next: Option<u64> = scaled.checked_add((byte - 48) as u64);
                match next {
                    None => {
                        return None;
                    },
                    Some(next) => {
                        value = next;
                    },
                }
            },
        }
        i = i + 1;
    }
    assert(digits.take(len - first) =~= digits);
    Some(value)
}

/// Reads a line of recorded times: a size, a comma, and one or more
/// durations with commas between them.
pub fn parse_line(line: &[u8]) -> (sample: Result<Sample, LineError>)
    ensures
        match sample {
            Ok(sample) => sample_of(line@) == Ok::<(int, Seq<u64>), LineError>(
                (sample.size as int, sample.durations@),
            ),
            Err(error) => sample_of(line@) == Err::<(int, Seq<u64>), LineError>(error),
        },
{
    let comma: usize = find_comma(line, 0);
    if comma >= line.len() {
        return Err(LineError::Format);
    }
    let mut durations: Vec<u64> = Vec::new();
    let mut from: usize = comma + 1;
    loop
        invariant
            comma < from <= line@.len(),
            next_comma(line@, 0) == comma,
            durations_from(line@, comma + 1) == match durations_from(line@, from as int) {
                None => None::<Seq<u64>>,
                Some(more) => Some(durations@ + more),
            },
        decreases line@.len() - from,
    {
        let end: usize = find_comma(line, from);
        let text = &line[from..end];
        let field: Option<u64> = parse_duration(text);
        assert(text@ == line@.subrange(from as int, end as int));
        match field {
            None => {
                assert(durations_from(line@, from as int) == None::<Seq<u64>>);
                return Err(LineError::Duration);
            },
            Some(duration) => {
                let ghost before = durations@;
                durations.push(duration);
                if end >= line.len() {
                    assert(durations_from(line@, from as int) == Some(seq![duration]));
                    assert(before + seq![duration] =~= durations@);
                    return Ok(Sample { size: comma, durations });
                }
                assert(durations_from(line@, from as int) == match durations_from(
                    line@,
                    end + 1,
                ) {
                    None => None::<Seq<u64>>,
                    Some(more) => Some(seq![duration] + more),
                });
                proof {
                    match durations_from(line@, end + 1) {
                        None => {},
                        Some(more) => {
                            assert(before + (seq![duration] + more) =~= durations@ + more);
                        },
                    }
                }
                from = end + 1;
            },
        }
    }
}

} // verus!
