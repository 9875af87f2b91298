//! A one-dimensional series of integer samples and its convolution with a
//! short kernel: a causal scan from the left, then a tail that reads back
//! from the end of the series.

use crate::decimal::{decimal, lemma_decimal, push_decimal};
use crate::kernel::div_toward_zero;
use vstd::prelude::*;

verus! {

/// The number of weights of the averaging kernel.
pub const MEAN_KERNEL_SIZE: usize = 5;

/// The products that make up one output of the convolution: `count` of
/// them, the first of the sample at `sample` with the weight at `weight`,
/// each next one a sample earlier and a weight later.
#[derive(Clone, Copy, Debug, PartialEq, Eq)]
pub struct Taps {
    pub sample: usize,
    pub weight: usize,
    pub count: usize,
}

impl Taps {
    /// Every product of the run reads inside a series of `n` samples and a
    /// kernel of `k` weights.
    pub open spec fn fits(self, n: int, k: int) -> bool {
        &&& self.sample < n
        &&& self.count <= self.sample + 1
        &&& self.weight + self.count <= k
    }
}

/// A series without samples, or a kernel with more weights than the series
/// has samples: there is no convolution of these.
pub open spec fn degenerate(n: int, k: int) -> bool {
    n <= 0 || k > n
}

/// The number of outputs of the convolution of `n` samples with `k`
/// weights: `n - 1` of the scan and `k` of the tail.
pub open spec fn output_len(n: int, k: int) -> int {
    n - 1 + k
}

/// The sample at which the products of output `output` start. In the scan
/// it is the output's own index, in the tail the last sample.
pub open spec fn first_sample(n: int, k: int, output: int) -> int {
    if output < n - 1 {
        output
    } else {
        n - 1
    }
}

/// The weight at which the products of output `output` start. The scan
/// starts at the first weight, the tail one weight later at each step.
pub open spec fn first_weight(n: int, k: int, output: int) -> int {
    if output < n - 1 {
        0
    } else {
        output - (n - 1)
    }
}

/// The number of products of output `output`. The scan takes as many as
/// there are samples so far, at most `k`; the tail takes the weights that
/// are left.
pub open spec fn tap_count(n: int, k: int, output: int) -> int {
    if output < n - 1 {
        if k < output + 1 {
            k
        } else {
            output + 1
        }
    } else {
        k - (output - (n - 1))
    }
}

/// The sum of the first `count` products of a run that starts at sample
/// `sample` and weight `weight`.
pub open spec fn dot(samples: Seq<i32>, kernel: Seq<i32>, sample: int, weight: int, count: nat) -> int
    decreases count,
{
    if count == 0 {
        0
    } else {
        dot(samples, kernel, sample, weight, (count - 1) as nat) + samples[sample - (count - 1)]
            * kernel[weight + (count - 1)]
    }
}

/// Output `output` of the convolution of `samples` with `kernel`.
pub open spec fn output_at(samples: Seq<i32>, kernel: Seq<i32>, output: int) -> int {
    let n = samples.len() as int;
    let k = kernel.len() as int;
    dot(
        samples,
        kernel,
        first_sample(n, k, output),
        first_weight(n, k, output),
        tap_count(n, k, output) as nat,
    )
}

/// The convolution of `samples` with `kernel`.
pub open spec fn convolved(samples: Seq<i32>, kernel: Seq<i32>) -> Seq<int> {
    Seq::new(
        output_len(samples.len() as int, kernel.len() as int) as nat,
        |output: int| output_at(samples, kernel, output),
    )
}

/// The weights of the averaging kernel, as numerators over their number.
pub open spec fn mean_weights() -> Seq<i32> {
    Seq::new(MEAN_KERNEL_SIZE as nat, |j: int| 1i32)
}

/// The outputs of a convolution with `k` weights cut back to a series of
/// at most `n`: without the first half of `k`, rounded down, of them, and
/// without what lies beyond `n` more.
pub open spec fn trimmed<T>(outputs: Seq<T>, k: int, n: int) -> Seq<T> {
    let start = if k / 2 < outputs.len() {
        k / 2
    } else {
        outputs.len() as int
    };
    let end = if start + n < outputs.len() {
        start + n
    } else {
        outputs.len() as int
    };
    outputs.subrange(start, end)
}

/// The moving average of `samples`: the convolution with the averaging
/// kernel, trimmed to the length of the series, each sum divided by five
/// and rounded toward zero.
pub open spec fn smoothed(samples: Seq<i32>) -> Seq<int> {
    Seq::new(
        samples.len(),
        |i: int|
            div_toward_zero(
                trimmed(
                    convolved(samples, mean_weights()),
                    MEAN_KERNEL_SIZE as int,
                    samples.len() as int,
                )[i],
                MEAN_KERNEL_SIZE as int,
            ),
    )
}

/// The lines of `text`: the runs of bytes between line feeds, of which a
/// text with `n` line feeds has `n + 1`.
pub open spec fn lines(text: Seq<u8>) -> Seq<Seq<u8>>
    decreases text.len(),
{
    if text.len() == 0 {
        seq![Seq::empty()]
    } else {
        let before = lines(text.drop_last());
        if text.last() == 10 {
            before.push(Seq::empty())
        } else {
            before.drop_last().push(before.last().push(text.last()))
        }
    }
}

/// The lines of the text of a series that hold its samples: all but the
/// first, which is a heading.
pub open spec fn sample_lines(text: Seq<u8>) -> Seq<Seq<u8>> {
    lines(text).skip(1)
}

/// The given lines one behind the other, a line feed behind each.
pub open spec fn joined(fields: Seq<Seq<u8>>) -> Seq<u8>
    decreases fields.len(),
{
    if fields.len() == 0 {
        Seq::empty()
    } else {
        joined(fields.drop_last()) + fields.last() + seq![10u8]
    }
}

/// The text of a series whose samples are written in `fields`: a heading
/// with their number, then one line for each.
pub open spec fn series_text(fields: Seq<Seq<u8>>) -> Seq<u8> {
    decimal(fields.len()) + seq![10u8] + joined(fields)
}

/// What each of the given byte strings holds.
pub open spec fn contents(fields: Seq<Vec<u8>>) -> Seq<Seq<u8>> {
    Seq::new(fields.len(), |i: int| fields[i]@)
}

/// The products of output `output` of the convolution of `n` samples with
/// `k` weights; none when there is no such output.
pub fn taps(n: usize, k: usize, output: usize) -> (run: Option<Taps>)
    ensures
        run.is_some() <==> !degenerate(n as int, k as int) && output < output_len(
            n as int,
            k as int,
        ),
        run.is_some() ==> {
            let t = run.unwrap();
            &&& t.sample == first_sample(n as int, k as int, output as int)
            &&& t.weight == first_weight(n as int, k as int, output as int)
            &&& t.count == tap_count(n as int, k as int, output as int)
            &&& t.fits(n as int, k as int)
        },
{
    if n == 0 || k > n {
        None
    } else if output < n - 1 {
        let count: usize = if k < output + 1 {
            k
        } else {
            output + 1
        };
        Some(Taps { sample: output, weight: 0, count })
    } else if output - (n - 1) < k {
        let step: usize = output - (n - 1);
        Some(Taps { sample: n - 1, weight: step, count: k - step })
    } else {
        None
    }
}

/// The lines of the text of a series after its heading, one for each
/// sample. A line feed at the very end of the text leaves an empty last
/// line.
pub fn split_samples(text: &[u8]) -> (fields: Vec<Vec<u8>>)
    ensures
        contents(fields@) == sample_lines(text@),
{
    let mut fields: Vec<Vec<u8>> = Vec::new();
    let mut current: Vec<u8> = Vec::new();
    let mut heading = true;
    let mut i: usize = 0;
    assert(text@.take(0) =~= Seq::<u8>::empty());
    while i < text.len()
        invariant
            i <= text@.len(),
            lines(text@.take(i as int)).len() >= 1,
            heading ==> lines(text@.take(i as int)).len() == 1 && fields@.len() == 0
                && current@.len() == 0,
            !heading ==> {
                let read = lines(text@.take(i as int));
                &&& fields@.len() == read.len() - 2
                &&& forall|j: int| 0 <= j < fields@.len() ==> (#[trigger] fields@[j])@ == read[j + 1]
                &&& current@ == read.last()
            },
        decreases text.len() - i,
    {
        let byte = text[i];
        proof {
            let longer = text@.take(i + 1);
            assert(longer.drop_last() =~= text@.take(i as int));
            assert(longer.last() == byte);
        }
        if byte == 10 {
            if heading {
                heading = false;
            } else {
                fields.push(current);
                current = Vec::new();
            }
        } else if !heading {
            current.push(byte);
        }
        i += 1;
    }
    assert(text@.take(i as int) =~= text@);
    if !heading {
        fields.push(current);
    }
    assert(contents(fields@) =~= sample_lines(text@));
    fields
}

/// The text of a series whose samples are written in `fields`.
pub fn join_samples(fields: &Vec<Vec<u8>>) -> (text: Vec<u8>)
    ensures
        text@ == series_text(contents(fields@)),
{
    let mut text: Vec<u8> = Vec::new();
    push_decimal(&mut text, fields.len() as u64);
    text.push(10);
    let ghost heading = text@;
    let mut i: usize = 0;
    assert(contents(fields@).take(0) =~= Seq::<Seq<u8>>::empty());
    while i < fields.len()
        invariant
            i <= fields@.len(),
            heading == decimal(fields@.len()) + seq![10u8],
            text@ == heading + joined(contents(fields@).take(i as int)),
        decreases fields.len() - i,
    {
        let field = &fields[i];
        let ghost before = text@;
        let mut j: usize = 0;
        while j < field.len()
            invariant
                j <= field@.len(),
                text@ == before + field@.take(j as int),
            decreases field.len() - j,
        {
            text.push(field[j]);
            assert(field@.take(j + 1) =~= field@.take(j as int).push(field@[j as int]));
            j += 1;
        }
        text.push(10);
        proof {
            let longer = contents(fields@).take(i + 1);
            assert(longer.drop_last() =~= contents(fields@).take(i as int));
            assert(longer.last() == field@);
            assert(field@.take(j as int) =~= field@);
            assert(text@ =~= heading + joined(longer));
        }
        i += 1;
    }
    assert(contents(fields@).take(i as int) =~= contents(fields@));
    text
}

/// Bytes other than line feeds lengthen the last line and start none.
pub proof fn lemma_lines_word(text: Seq<u8>, word: Seq<u8>)
    requires
        forall|i: int| 0 <= i < word.len() ==> #[trigger] word[i] != 10,
    ensures
        lines(text).len() >= 1,
        lines(text + word) == lines(text).drop_last().push(lines(text).last() + word),
    decreases text.len() + word.len(),
{
    if text.len() > 0 {
        lemma_lines_word(text.drop_last(), Seq::empty());
    }
    let read = lines(text);
    if word.len() == 0 {
        assert(text + word =~= text);
        assert(read.last() + word =~= read.last());
        assert(read.drop_last().push(read.last()) =~= read);
    } else {
        lemma_lines_word(text, word.drop_last());
        assert((text + word).drop_last() =~= text + word.drop_last());
        assert((text + word).last() == word.last());
        let shorter = lines(text + word.drop_last());
        assert(shorter.drop_last() =~= read.drop_last());
        assert(shorter.last().push(word.last()) =~= read.last() + word);
    }
}

/// A text that ends a line, then lines without line feeds in them: the
/// lines of the text, then the new ones, and an empty line at the end.
pub proof fn lemma_lines_joined(text: Seq<u8>, fields: Seq<Seq<u8>>)
    requires
        text.len() > 0,
        text.last() == 10,
        forall|i: int, j: int|
            0 <= i < fields.len() && 0 <= j < fields[i].len() ==> #[trigger] fields[i][j] != 10,
    ensures
        lines(text + joined(fields)) == lines(text.drop_last()) + fields + seq![Seq::<u8>::empty()],
    decreases fields.len(),
{
    let open = seq![Seq::<u8>::empty()];
    if fields.len() == 0 {
        assert(text + joined(fields) =~= text);
        assert(lines(text.drop_last()) + fields + open =~= lines(text.drop_last()).push(
            Seq::empty(),
        ));
    } else {
        let fewer = fields.drop_last();
        let front = text + joined(fewer);
        lemma_lines_joined(text, fewer);
        assert forall|j: int| 0 <= j < fields.last().len() implies #[trigger] fields.last()[j]
            != 10 by {
            assert(fields[fields.len() - 1][j] != 10);
        }
        lemma_lines_word(front, fields.last());
        let whole = text + joined(fields);
        assert(whole.drop_last() =~= front + fields.last());
        assert(whole.last() == 10);
        assert(Seq::<u8>::empty() + fields.last() =~= fields.last());
        assert(lines(whole) =~= lines(text.drop_last()) + fields + open);
    }
}

/// Splitting the text of a series gives the lines it was joined from, and
/// an empty line behind them for the line feed at its end. This holds
/// where no line holds a line feed and their number fits in 64 bits.
pub proof fn split_inverts_join(fields: Seq<Seq<u8>>)
    requires
        fields.len() <= u64::MAX,
        forall|i: int, j: int|
            0 <= i < fields.len() && 0 <= j < fields[i].len() ==> #[trigger] fields[i][j] != 10,
    ensures
        sample_lines(series_text(fields)) == fields.push(Seq::empty()),
{
    let count = decimal(fields.len());
    let heading = count + seq![10u8];
    lemma_decimal(fields.len());
    lemma_lines_word(Seq::empty(), count);
    assert(Seq::<u8>::empty() + count =~= count);
    assert(heading.drop_last() =~= count);
    lemma_lines_joined(heading, fields);
    assert(lines(count) =~= seq![count]);
    assert(sample_lines(series_text(fields)) =~= fields.push(Seq::empty()));
}

/// The outputs of a convolution with `k` weights cut back to a series of
/// at most `n`.
pub fn trim<T: Copy>(outputs: &Vec<T>, k: usize, n: usize) -> (kept: Vec<T>)
    ensures
        kept@ == trimmed(outputs@, k as int, n as int),
{
    let total = outputs.len();
    let start = if k / 2 < total {
        k / 2
    } else {
        total
    };
    let count = if n < total - start {
        n
    } else {
        total - start
    };
    let mut kept: Vec<T> = Vec::new();
    let mut i: usize = 0;
    while i < count
        invariant
            i <= count,
            start + count <= total,
            total == outputs@.len(),
            kept@ == outputs@.subrange(start as int, start + i),
        decreases count - i,
    {
        kept.push(outputs[start + i]);
        assert(kept@ =~= outputs@.subrange(start as int, start + i + 1));
        i += 1;
    }
    kept
}

/// A sum of `count` products of two 32-bit numbers stays within
/// `count` times two to the power 62.
pub proof fn lemma_dot_bound(samples: Seq<i32>, kernel: Seq<i32>, sample: int, weight: int, count: nat)
    requires
        sample < samples.len(),
        count <= sample + 1,
        0 <= weight,
        weight + count <= kernel.len(),
    ensures
        -count * 0x4000_0000_0000_0000 <= dot(samples, kernel, sample, weight, count) <= count
            * 0x4000_0000_0000_0000,
    decreases count,
{
    if count > 0 {
        lemma_dot_bound(samples, kernel, sample, weight, (count - 1) as nat);
        let s = samples[sample - (count - 1)];
        let w = kernel[weight + (count - 1)];
        assert(-0x4000_0000_0000_0000 <= s * w <= 0x4000_0000_0000_0000) by (nonlinear_arith)
            requires
                -0x8000_0000 <= s <= 0x7fff_ffff,
                -0x8000_0000 <= w <= 0x7fff_ffff,
        ;
        assert(count * 0x4000_0000_0000_0000 == (count - 1) * 0x4000_0000_0000_0000
            + 0x4000_0000_0000_0000) by (nonlinear_arith);
    }
}

/// The sum of the products of one run.
fn accumulate(samples: &Vec<i32>, kernel: &[i32], run: Taps) -> (sum: i128)
    requires
        run.fits(samples@.len() as int, kernel@.len() as int),
    ensures
        sum == dot(samples@, kernel@, run.sample as int, run.weight as int, run.count as nat),
{
    let k = kernel.len();
    let mut sum: i128 = 0;
    let mut done: usize = 0;
    while done < run.count
        invariant
            done <= run.count,
            k == kernel@.len(),
            run.fits(samples@.len() as int, kernel@.len() as int),
            sum == dot(samples@, kernel@, run.sample as int, run.weight as int, done as nat),
        decreases run.count - done,
    {
        let s = samples[run.sample - done];
        let w = kernel[run.weight + done];
        proof {
            lemma_dot_bound(samples@, kernel@, run.sample as int, run.weight as int, done as nat);
            assert(-0x4000_0000_0000_0000 <= s * w <= 0x4000_0000_0000_0000) by (nonlinear_arith)
                requires
                    -0x8000_0000 <= s <= 0x7fff_ffff,
                    -0x8000_0000 <= w <= 0x7fff_ffff,
            ;
            assert(done * 0x4000_0000_0000_0000 <= 0xffff_ffff_ffff_ffff * 0x4000_0000_0000_0000)
                by (nonlinear_arith)
                requires
                    0 <= done <= 0xffff_ffff_ffff_ffff,
            ;
        }
        sum = sum + s as i128 * w as i128;
        done += 1;
    }
    sum
}

/// The failure on a series without samples or a kernel longer than the
/// series.
#[derive(Clone, Copy, Debug, PartialEq, Eq)]
pub struct DegenerateInput;

/// A series of samples in integer units.
#[derive(Debug, PartialEq, Eq)]
pub struct ECGData {
    samples: Vec<i32>,
}

impl View for ECGData {
    type V = Seq<i32>;

    closed spec fn view(&self) -> Seq<i32> {
        self.samples@
    }
}

impl Clone for ECGData {
    fn clone(&self) -> (copy: ECGData)
        ensures
            copy@ == self@,
    {
        let samples = self.samples.clone();
        assert(samples@ =~= self.samples@);
        ECGData { samples }
    }
}

impl Default for ECGData {
    /// The series without samples.
    fn default() -> (series: ECGData)
        ensures
            series@.len() == 0,
    {
        ECGData { samples: Vec::new() }
    }
}

impl ECGData {
    /// The series of the given samples.
    pub fn new(samples: Vec<i32>) -> (series: ECGData)
        ensures
            series@ == samples@,
    {
        ECGData { samples }
    }

    /// The samples in order.
    pub fn samples(&self) -> (samples: &Vec<i32>)
        ensures
            samples@ == self@,
    {
        &self.samples
    }

    /// The convolution of the series with `kernel`: one output for each
    /// sample but the last, then one for each weight. It fails on a series
    /// without samples and on a kernel longer than the series, and on
    /// nothing else.
    pub fn convolve(&self, kernel: &[i32]) -> (outcome: Result<Vec<i128>, DegenerateInput>)
        ensures
            outcome.is_err() <==> degenerate(self@.len() as int, kernel@.len() as int),
            outcome.is_ok() ==> {
                let outputs = outcome.unwrap()@;
                &&& outputs.len() == output_len(self@.len() as int, kernel@.len() as int)
                &&& forall|output: int|
                    0 <= output < outputs.len() ==> #[trigger] outputs[output] == convolved(
                        self@,
                        kernel@,
                    )[output]
            },
    {
        let n = self.samples.len();
        let k = kernel.len();
        if n == 0 || k > n {
            return Err(DegenerateInput);
        }
        let mut outputs: Vec<i128> = Vec::new();
        loop
            invariant
                n == self@.len(),
                k == kernel@.len(),
                !degenerate(n as int, k as int),
                outputs@.len() <= output_len(n as int, k as int),
                forall|output: int|
                    0 <= output < outputs@.len() ==> #[trigger] outputs@[output] == output_at(
                        self@,
                        kernel@,
                        output,
                    ),
            ensures
                outputs@.len() == output_len(n as int, k as int),
            decreases output_len(n as int, k as int) - outputs@.len(),
        {
            match taps(n, k, outputs.len()) {
                Some(run) => {
                    let sum = accumulate(&self.samples, kernel, run);
                    outputs.push(sum);
                },
                None => {
                    break ;
                },
            }
        }
        Ok(outputs)
    }

    /// The moving average over five samples: the convolution with five
    /// equal weights, without its first two outputs and cut to the length
    /// of the series. It fails on a series of fewer than five samples, and
    /// on nothing else.
    pub fn mean_filter(&self) -> (outcome: Result<ECGData, DegenerateInput>)
        ensures
            outcome.is_err() <==> degenerate(self@.len() as int, MEAN_KERNEL_SIZE as int),
            outcome.is_ok() ==> {
                let means = outcome.unwrap()@;
                &&& means.len() == self@.len()
                &&& forall|i: int|
                    0 <= i < means.len() ==> #[trigger] means[i] == smoothed(self@)[i]
            },
    {
        let kernel: [i32; MEAN_KERNEL_SIZE] = [1, 1, 1, 1, 1];
        assert(kernel@ =~= mean_weights());
        let sums = match self.convolve(kernel.as_slice()) {
            Ok(sums) => sums,
            Err(failure) => {
                return Err(failure);
            },
        };
        let n = self.samples.len();
        let kept = trim(&sums, MEAN_KERNEL_SIZE, n);
        let mut means: Vec<i32> = Vec::new();
        let mut i: usize = 0;
        while i < n
            invariant
                i <= n,
                n == self@.len(),
                n >= MEAN_KERNEL_SIZE,
                sums@.len() == output_len(n as int, MEAN_KERNEL_SIZE as int),
                forall|output: int|
                    0 <= output < sums@.len() ==> #[trigger] sums@[output] == convolved(
                        self@,
                        mean_weights(),
                    )[output],
                kept@ == trimmed(sums@, MEAN_KERNEL_SIZE as int, n as int),
                means@.len() == i,
                forall|j: int| 0 <= j < i ==> #[trigger] means@[j] == smoothed(self@)[j],
            decreases n - i,
        {
            assert(kept@.len() == n);
            let sum = kept[i];
            proof {
                let output = i + MEAN_KERNEL_SIZE / 2;
                lemma_mean_sum_bound(self@, output);
                assert(sum == sums@[output]);
                assert(trimmed(
                    convolved(self@, mean_weights()),
                    MEAN_KERNEL_SIZE as int,
                    n as int,
                )[i as int] == convolved(self@, mean_weights())[output]);
            }
            let mean = sum / MEAN_KERNEL_SIZE as i128;
            means.push(mean as i32);
            i += 1;
        }
        Ok(ECGData { samples: means })
    }
}

/// A sum of `count` samples, each taken once, stays within `count` times
/// the range of a sample.
pub proof fn lemma_unit_dot_bound(
    samples: Seq<i32>,
    kernel: Seq<i32>,
    sample: int,
    weight: int,
    count: nat,
)
    requires
        sample < samples.len(),
        count <= sample + 1,
        0 <= weight,
        weight + count <= kernel.len(),
        forall|j: int| 0 <= j < kernel.len() ==> kernel[j] == 1,
    ensures
        -count * 0x8000_0000 <= dot(samples, kernel, sample, weight, count) <= count * 0x7fff_ffff,
    decreases count,
{
    if count > 0 {
        lemma_unit_dot_bound(samples, kernel, sample, weight, (count - 1) as nat);
        let s = samples[sample - (count - 1)];
        let w = kernel[weight + (count - 1)];
        assert(s * w == s);
    }
}

/// Each output of the convolution with the averaging kernel is a sum of at
/// most five samples, so a fifth of it is again a sample.
pub proof fn lemma_mean_sum_bound(samples: Seq<i32>, output: int)
    requires
        !degenerate(samples.len() as int, MEAN_KERNEL_SIZE as int),
        0 <= output < output_len(samples.len() as int, MEAN_KERNEL_SIZE as int),
    ensures
        i32::MIN <= div_toward_zero(output_at(samples, mean_weights(), output), 5) <= i32::MAX,
{
    let n = samples.len() as int;
    let k = mean_weights().len() as int;
    lemma_unit_dot_bound(
        samples,
        mean_weights(),
        first_sample(n, k, output),
        first_weight(n, k, output),
        tap_count(n, k, output) as nat,
    );
}

/// A sum of `count` samples of one single value, each taken once, is
/// `count` times that value.
pub proof fn lemma_constant_dot(
    samples: Seq<i32>,
    kernel: Seq<i32>,
    sample: int,
    weight: int,
    count: nat,
    value: i32,
)
    requires
        sample < samples.len(),
        count <= sample + 1,
        0 <= weight,
        weight + count <= kernel.len(),
        forall|j: int| 0 <= j < kernel.len() ==> kernel[j] == 1,
        forall|j: int| 0 <= j < samples.len() ==> samples[j] == value,
    ensures
        dot(samples, kernel, sample, weight, count) == count * value,
    decreases count,
{
    if count > 0 {
        lemma_constant_dot(samples, kernel, sample, weight, (count - 1) as nat, value);
        let s = samples[sample - (count - 1)];
        let w = kernel[weight + (count - 1)];
        assert(s * w == value);
        assert(count * value == ((count - 1) as nat) * value + value) by (nonlinear_arith)
            requires
                count > 0,
        ;
    } else {
        assert(count * value == 0) by (nonlinear_arith)
            requires
                count == 0,
        ;
    }
}

/// The moving average of a series of one single value is that value, from
/// the third sample to the third from the end. Nearer to either end fewer
/// than five samples are summed.
pub proof fn smoothed_keeps_constant(samples: Seq<i32>, value: i32, i: int)
    requires
        samples.len() >= MEAN_KERNEL_SIZE,
        forall|j: int| 0 <= j < samples.len() ==> samples[j] == value,
        2 <= i <= samples.len() - 3,
    ensures
        smoothed(samples)[i] == value,
{
    let n = samples.len() as int;
    let k = mean_weights().len() as int;
    let output = i + 2;
    lemma_constant_dot(
        samples,
        mean_weights(),
        first_sample(n, k, output),
        first_weight(n, k, output),
        tap_count(n, k, output) as nat,
        value,
    );
    assert(tap_count(n, k, output) == 5);
    let sum = output_at(samples, mean_weights(), output);
    assert(sum == 5 * value) by (nonlinear_arith)
        requires
            sum == (tap_count(n, k, output) as nat) * value,
            tap_count(n, k, output) == 5,
    ;
    assert(convolved(samples, mean_weights())[output] == sum);
    assert(trimmed(convolved(samples, mean_weights()), MEAN_KERNEL_SIZE as int, n)[i] == sum);
    assert(div_toward_zero(sum, 5) == value);
}

} // verus!
