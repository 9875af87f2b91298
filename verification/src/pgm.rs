//! The plain-text raster format: the tag `P2`, then numbers separated by
//! white space: width, height, the largest value, and the samples row by row.
//! A number is decimal digits, which one plus sign may precede.

use crate::decimal::{decimal, digits, lemma_decimal, number, push_decimal, unsigned_part};
use crate::image::{Image, Raster};
use vstd::prelude::*;

verus! {

/// A byte that separates numbers: a space, a tab, a line feed, a vertical
/// tab, a form feed or a carriage return.
pub open spec fn is_space(byte: u8) -> bool {
    byte == 32 || 9 <= byte <= 13
}

/// What a reader knows after some bytes: the tokens that have ended, and
/// the bytes of the token that has not.
pub struct Scan {
    pub done: Seq<Seq<u8>>,
    pub open: Seq<u8>,
}

/// The state of the reader after `text`. A token is a longest run of bytes
/// that are not white space.
pub open spec fn scan(text: Seq<u8>) -> Scan
    decreases text.len(),
{
    if text.len() == 0 {
        Scan { done: Seq::empty(), open: Seq::empty() }
    } else {
        let before = scan(text.drop_last());
        if !is_space(text.last()) {
            Scan { done: before.done, open: before.open.push(text.last()) }
        } else if before.open.len() > 0 {
            Scan { done: before.done.push(before.open), open: Seq::empty() }
        } else {
            before
        }
    }
}

/// The tokens of `text` in order.
pub open spec fn tokens(text: Seq<u8>) -> Seq<Seq<u8>> {
    let end = scan(text);
    if end.open.len() > 0 {
        end.done.push(end.open)
    } else {
        end.done
    }
}

/// Every token of the sequence writes a number.
pub open spec fn all_numbers(words: Seq<Seq<u8>>) -> bool {
    forall|i: int| 0 <= i < words.len() ==> (#[trigger] number(words[i])).is_some()
}

/// The raster that `text` describes, if it describes one: the two bytes of
/// the tag `P2`, then nothing but numbers, at least four of them; the first two are the width
/// and the height, whose product is the number of samples; the third is at
/// most 255; the others are the samples, each taken modulo 256.
pub open spec fn decoded(text: Seq<u8>) -> Option<Raster> {
    if text.len() < 2 || text[0] != 80 || text[1] != 50 {
        None
    } else {
        let words = tokens(text.skip(2));
        if !all_numbers(words) || words.len() < 4 {
            None
        } else {
            let width = number(words[0]).unwrap();
            let height = number(words[1]).unwrap();
            let largest = number(words[2]).unwrap();
            if width * height != words.len() - 3 || largest > 255 {
                None
            } else {
                Some(
                    Raster {
                        pixels: Seq::new(
                            (words.len() - 3) as nat,
                            |i: int| (number(words[i + 3]).unwrap() % 256) as u8,
                        ),
                        width,
                    },
                )
            }
        }
    }
}

/// The first lines of the text of a raster: the tag, the width and the
/// height, and 255 as the largest value.
pub open spec fn header(width: nat, height: nat) -> Seq<u8> {
    seq![80u8, 50u8, 10u8] + decimal(width) + seq![32u8] + decimal(height) + seq![10u8] + decimal(
        255,
    ) + seq![10u8]
}

/// The text of the first `count` samples: each in decimal digits with a
/// space behind it, and a line feed behind every `width`-th of them.
pub open spec fn body(pixels: Seq<u8>, width: nat, count: nat) -> Seq<u8>
    decreases count,
{
    if count == 0 {
        Seq::empty()
    } else {
        let cells = body(pixels, width, (count - 1) as nat) + decimal(pixels[count - 1] as nat)
            + seq![32u8];
        if count % width == 0 {
            cells + seq![10u8]
        } else {
            cells
        }
    }
}

/// The text of `raster`.
pub open spec fn encoded(raster: Raster) -> Seq<u8> {
    header(raster.width, raster.height()) + body(raster.pixels, raster.width, raster.pixels.len())
}

/// The failure on a text that describes no raster.
#[derive(Clone, Copy, Debug, PartialEq, Eq)]
pub struct InvalidData;

/// The numbers of the tokens of `text` after its first two bytes; none
/// when one of the tokens writes no number.
fn read_numbers(text: &[u8]) -> (values: Option<Vec<u64>>)
    requires
        text@.len() >= 2,
    ensures
        values.is_some() <==> all_numbers(tokens(text@.skip(2))),
        values.is_some() ==> {
            let words = tokens(text@.skip(2));
            &&& values.unwrap()@.len() == words.len()
            &&& forall|i: int|
                0 <= i < words.len() ==> #[trigger] values.unwrap()@[i] == number(
                    words[i],
                ).unwrap()
        },
{
    let mut values: Vec<u64> = Vec::new();
    let mut current: u64 = 0;
    let mut inside = false;
    let mut started = false;
    let mut valid = true;
    let mut i: usize = 2;
    assert(text@.subrange(2, 2).len() == 0);
    while i < text.len()
        invariant
            2 <= i <= text@.len(),
            inside == (scan(text@.subrange(2, i as int)).open.len() > 0),
            started == (unsigned_part(scan(text@.subrange(2, i as int)).open).len() > 0),
            valid == (all_numbers(scan(text@.subrange(2, i as int)).done) && digits(
                unsigned_part(scan(text@.subrange(2, i as int)).open),
            ).is_some()),
            valid ==> {
                let state = scan(text@.subrange(2, i as int));
                &&& values@.len() == state.done.len()
                &&& forall|j: int|
                    0 <= j < state.done.len() ==> #[trigger] values@[j] == number(
                        state.done[j],
                    ).unwrap()
                &&& current == digits(unsigned_part(state.open)).unwrap()
            },
        decreases text.len() - i,
    {
        let byte = text[i];
        let ghost before = scan(text@.subrange(2, i as int));
        let ghost after = scan(text@.subrange(2, i + 1));
        proof {
            let longer = text@.subrange(2, i + 1);
            assert(longer.drop_last() =~= text@.subrange(2, i as int));
            assert(longer.last() == byte);
        }
        if byte == 32 || (9 <= byte && byte <= 13) {
            if inside {
                proof {
                    lemma_all_numbers_push(before.done, before.open);
                }
                if valid && started {
                    values.push(current);
                } else {
                    valid = false;
                }
                current = 0;
                inside = false;
                started = false;
            }
        } else if !inside && byte == 43 {
            proof {
                assert(unsigned_part(after.open) =~= Seq::<u8>::empty());
            }
            inside = true;
        } else {
            proof {
                assert(unsigned_part(after.open) =~= unsigned_part(before.open).push(byte));
                assert(unsigned_part(after.open).drop_last() =~= unsigned_part(before.open));
            }
            inside = true;
            started = true;
            if valid && 48 <= byte && byte <= 57 && current <= (u64::MAX - (byte - 48) as u64)
                / 10 {
                current = current * 10 + (byte - 48) as u64;
            } else {
                valid = false;
            }
        }
        i += 1;
    }
    assert(text@.subrange(2, i as int) =~= text@.skip(2));
    let ghost end = scan(text@.skip(2));
    if inside {
        proof {
            lemma_all_numbers_push(end.done, end.open);
        }
        if valid && started {
            values.push(current);
        } else {
            valid = false;
        }
    }
    if valid {
        Some(values)
    } else {
        None
    }
}

/// The tokens with one more behind them all write numbers when they all
/// did and the new one does.
proof fn lemma_all_numbers_push(words: Seq<Seq<u8>>, word: Seq<u8>)
    ensures
        all_numbers(words.push(word)) <==> all_numbers(words) && number(word).is_some(),
{
    let longer = words.push(word);
    if all_numbers(longer) {
        assert forall|j: int| 0 <= j < words.len() implies (#[trigger] number(words[j])).is_some() by {
            assert(longer[j] == words[j]);
        }
        assert(longer[words.len() as int] == word);
    }
}

/// The raster that `text` describes. It fails on every text that
/// describes none.
pub fn decode(text: &[u8]) -> (outcome: Result<Image, InvalidData>)
    ensures
        match outcome {
            Ok(image) => decoded(text@) == Some(image@),
            Err(_) => decoded(text@).is_none(),
        },
{
    if text.len() < 2 || text[0] != 80 || text[1] != 50 {
        return Err(InvalidData);
    }
    let values = match read_numbers(text) {
        Some(values) => values,
        None => {
            return Err(InvalidData);
        },
    };
    if values.len() < 4 {
        return Err(InvalidData);
    }
    let width = values[0];
    let height = values[1];
    let total = values.len();
    let count = total - 3;
    assert(width * height <= u64::MAX * u64::MAX) by (nonlinear_arith)
        requires
            0 <= width <= u64::MAX,
            0 <= height <= u64::MAX,
    ;
    if width as u128 * height as u128 != count as u128 || values[2] > 255 {
        return Err(InvalidData);
    }
    assert(width <= count && width > 0 && count % (width as usize) == 0) by (nonlinear_arith)
        requires
            width * height == count,
            count > 0,
            width >= 0,
            height >= 0,
    ;
    let mut pixels: Vec<u8> = Vec::new();
    let mut i: usize = 0;
    while i < count
        invariant
            i <= count,
            total == values@.len(),
            count == total - 3,
            pixels@.len() == i,
            forall|j: int| 0 <= j < i ==> #[trigger] pixels@[j] == (values@[j + 3] % 256) as u8,
        decreases count - i,
    {
        pixels.push((values[i + 3] % 256) as u8);
        i += 1;
    }
    let ghost raster = decoded(text@).unwrap();
    assert(pixels@ =~= raster.pixels);
    match Image::new(pixels, width as usize) {
        Some(image) => Ok(image),
        None => Err(InvalidData),
    }
}

/// The text of `image`: the header, then the samples row by row.
pub fn encode(image: &Image) -> (text: Vec<u8>)
    ensures
        text@ == encoded(image@),
{
    let pixels = image.pixels();
    let width = image.width();
    let mut text: Vec<u8> = Vec::new();
    text.push(80);
    text.push(50);
    text.push(10);
    push_decimal(&mut text, width as u64);
    text.push(32);
    push_decimal(&mut text, image.height() as u64);
    text.push(10);
    push_decimal(&mut text, 255);
    text.push(10);
    assert(text@ =~= header(image@.width, image@.height()));
    let mut count: usize = 0;
    while count < pixels.len()
        invariant
            count <= pixels@.len(),
            width > 0,
            width == image@.width,
            pixels@ == image@.pixels,
            text@ == header(image@.width, image@.height()) + body(
                pixels@,
                width as nat,
                count as nat,
            ),
        decreases pixels.len() - count,
    {
        let ghost before = text@;
        push_decimal(&mut text, pixels[count] as u64);
        text.push(32);
        count += 1;
        if count % width == 0 {
            text.push(10);
        }
        assert(text@ =~= header(image@.width, image@.height()) + body(
            pixels@,
            width as nat,
            count as nat,
        ));
    }
    text
}

/// Bytes that are not white space lengthen the open token and end none.
pub proof fn lemma_scan_word(text: Seq<u8>, word: Seq<u8>)
    requires
        forall|i: int| 0 <= i < word.len() ==> !is_space(#[trigger] word[i]),
    ensures
        scan(text + word).done == scan(text).done,
        scan(text + word).open == scan(text).open + word,
    decreases word.len(),
{
    if word.len() == 0 {
        assert(text + word =~= text);
        assert(scan(text).open + word =~= scan(text).open);
    } else {
        lemma_scan_word(text, word.drop_last());
        assert((text + word).drop_last() =~= text + word.drop_last());
        assert((text + word).last() == word.last());
        assert(scan(text).open + word =~= (scan(text).open + word.drop_last()).push(word.last()));
    }
}

/// Between tokens, a number and a byte of white space behind it add one
/// token, the digits of the number.
pub proof fn lemma_scan_number(text: Seq<u8>, n: nat, space: u8)
    requires
        scan(text).open.len() == 0,
        n <= u64::MAX,
        is_space(space),
    ensures
        scan(text + decimal(n) + seq![space]).done == scan(text).done.push(decimal(n)),
        scan(text + decimal(n) + seq![space]).open.len() == 0,
{
    lemma_decimal(n);
    lemma_scan_word(text, decimal(n));
    let whole = text + decimal(n) + seq![space];
    assert(whole.drop_last() =~= text + decimal(n));
    assert(whole.last() == space);
    assert(scan(text).open + decimal(n) =~= decimal(n));
}

/// Between tokens, white space changes nothing.
pub proof fn lemma_scan_space(text: Seq<u8>, space: u8)
    requires
        scan(text).open.len() == 0,
        is_space(space),
    ensures
        scan(text + seq![space]) == scan(text),
{
    let whole = text + seq![space];
    assert(whole.drop_last() =~= text);
    assert(whole.last() == space);
}

/// Between tokens, the text of `count` samples adds one token for each of
/// them, its digits.
pub proof fn lemma_scan_body(text: Seq<u8>, pixels: Seq<u8>, width: nat, count: nat)
    requires
        scan(text).open.len() == 0,
        count <= pixels.len(),
        width > 0,
    ensures
        scan(text + body(pixels, width, count)).done == scan(text).done + Seq::new(
            count,
            |i: int| decimal(pixels[i] as nat),
        ),
        scan(text + body(pixels, width, count)).open.len() == 0,
    decreases count,
{
    let words = Seq::new(count, |i: int| decimal(pixels[i] as nat));
    if count == 0 {
        assert(text + body(pixels, width, count) =~= text);
        assert(scan(text).done + words =~= scan(text).done);
    } else {
        let fewer = (count - 1) as nat;
        let front = text + body(pixels, width, fewer);
        let digits = decimal(pixels[count - 1] as nat);
        lemma_scan_body(text, pixels, width, fewer);
        lemma_scan_number(front, pixels[count - 1] as nat, 32u8);
        let cells = front + digits + seq![32u8];
        assert(scan(cells).done =~= scan(text).done + words);
        if count % width == 0 {
            lemma_scan_space(cells, 10u8);
            assert(text + body(pixels, width, count) =~= cells + seq![10u8]);
        } else {
            assert(text + body(pixels, width, count) =~= cells);
        }
    }
}

/// Reading back the text of a raster gives the raster: the same width and
/// the same samples. This holds of every raster that has a sample and
/// whose width and height fit in 64 bits; a raster without samples has a
/// text that describes none.
pub proof fn decode_inverts_encode(raster: Raster)
    requires
        raster.wf(),
        raster.pixels.len() > 0,
        raster.width <= u64::MAX,
        raster.height() <= u64::MAX,
    ensures
        decoded(encoded(raster)) == Some(raster),
{
    let width = raster.width;
    let height = raster.height();
    let pixels = raster.pixels;
    let text = encoded(raster);
    let start = seq![10u8];
    assert(start.drop_last() =~= Seq::<u8>::empty());
    assert(scan(start.drop_last()).open.len() == 0);
    assert(scan(start).open.len() == 0 && scan(start).done.len() == 0);
    let first = start + decimal(width) + seq![32u8];
    lemma_scan_number(start, width, 32u8);
    let second = first + decimal(height) + seq![10u8];
    lemma_scan_number(first, height, 10u8);
    let third = second + decimal(255) + seq![10u8];
    lemma_scan_number(second, 255, 10u8);
    let rest = third + body(pixels, width, pixels.len());
    lemma_scan_body(third, pixels, width, pixels.len());
    assert(text.skip(2) =~= rest);
    assert(text[0] == 80 && text[1] == 50);
    let words = tokens(rest);
    let cells = Seq::new(pixels.len(), |i: int| decimal(pixels[i] as nat));
    assert(words =~= seq![decimal(width), decimal(height), decimal(255)] + cells);
    lemma_decimal(width);
    lemma_decimal(height);
    lemma_decimal(255);
    assert forall|i: int| 0 <= i < words.len() implies (#[trigger] number(words[i])).is_some() by {
        if i >= 3 {
            assert(words[i] == decimal(pixels[i - 3] as nat));
            lemma_decimal(pixels[i - 3] as nat);
        }
    }
    assert(width * height == pixels.len()) by (nonlinear_arith)
        requires
            width > 0,
            pixels.len() % width == 0,
            height == pixels.len() / width,
    ;
    let read = decoded(text).unwrap();
    assert forall|i: int| 0 <= i < pixels.len() implies read.pixels[i] == pixels[i] by {
        assert(words[i + 3] == decimal(pixels[i] as nat));
        lemma_decimal(pixels[i] as nat);
    }
    assert(read.pixels =~= pixels);
}

} // verus!
