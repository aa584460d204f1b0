//! The text form of the recorded swatch positions.
//!
//! One line per palette slot, in slot order; each line holds the two
//! coordinates of the position as words separated by white space. Each word
//! has to be written as a decimal number; which value it stands for is left
//! to the caller.

use vstd::prelude::*;

verus! {

/// The two words of one line.
#[derive(Clone, Debug, PartialEq, Eq)]
pub struct WordPair {
    pub x: Vec<u8>,
    pub y: Vec<u8>,
}

/// Why a text could not be read.
#[derive(Clone, Copy, Debug, PartialEq, Eq, Structural)]
pub enum StoreError {
    /// The line with this index, counted from zero, does not hold exactly
    /// two words.
    MalformedLine { line: usize },
    /// The line with this index, counted from zero, holds a word that is
    /// not written as a number.
    NotANumber { line: usize },
}

/// ASCII white space.
pub open spec fn is_space(b: u8) -> bool {
    b == 0x20 || (0x09 <= b <= 0x0d)
}

/// A non-empty run of bytes without white space.
pub open spec fn is_word(w: Seq<u8>) -> bool {
    w.len() > 0 && forall|i: int| 0 <= i < w.len() ==> !is_space(#[trigger] w[i])
}

/// A decimal digit.
pub open spec fn is_digit(b: u8) -> bool {
    0x30 <= b <= 0x39
}

/// A plus or minus sign.
pub open spec fn is_sign(b: u8) -> bool {
    b == 0x2b || b == 0x2d
}

/// The lower-case form of an ASCII letter; any other byte as it is.
pub open spec fn low(b: u8) -> u8 {
    if 0x41 <= b <= 0x5a {
        (b + 0x20) as u8
    } else {
        b
    }
}

/// The end of the longest run of digits that starts at `from`.
pub open spec fn digits_end(s: Seq<u8>, from: int) -> int
    decreases s.len() - from,
{
    if 0 <= from < s.len() && is_digit(s[from]) {
        digits_end(s, from + 1)
    } else {
        from
    }
}

/// Whether `s` from `from` to its end is `word`, letter case aside.
pub open spec fn spells(s: Seq<u8>, from: int, word: Seq<u8>) -> bool {
    s.len() - from == word.len() && forall|i: int|
        0 <= i < word.len() ==> low(#[trigger] s[from + i]) == word[i]
}

/// Whether `s` from `from` to its end is digits with at most one point
/// among them, before it or after it at least one digit, and then, if
/// anything, the letter `e`, an optional sign and at least one digit.
pub open spec fn is_decimal(s: Seq<u8>, from: int) -> bool {
    let whole = digits_end(s, from);
    let pointed = whole < s.len() && s[whole] == 0x2e;
    let mantissa = if pointed { digits_end(s, whole + 1) } else { whole };
    let digits = if pointed { mantissa - from - 1 } else { mantissa - from };
    let exponent = if mantissa + 1 < s.len() && is_sign(s[mantissa + 1]) {
        mantissa + 2
    } else {
        mantissa + 1
    };
    &&& digits > 0
    &&& mantissa == s.len() || (low(s[mantissa]) == 0x65 && exponent < s.len() && digits_end(
        s,
        exponent,
    ) == s.len())
}

/// The letters `inf`.
pub open spec fn inf_word() -> Seq<u8> {
    seq![0x69u8, 0x6eu8, 0x66u8]
}

/// The letters `infinity`.
pub open spec fn infinity_word() -> Seq<u8> {
    seq![0x69u8, 0x6eu8, 0x66u8, 0x69u8, 0x6eu8, 0x69u8, 0x74u8, 0x79u8]
}

/// The letters `nan`.
pub open spec fn nan_word() -> Seq<u8> {
    seq![0x6eu8, 0x61u8, 0x6eu8]
}

/// Whether a word is written as a number: an optional sign, then a decimal
/// number or, in any letter case, `inf`, `infinity` or `nan`.
pub open spec fn is_number_word(w: Seq<u8>) -> bool {
    let from: int = if w.len() > 0 && is_sign(w[0]) { 1 } else { 0 };
    spells(w, from, inf_word()) || spells(w, from, infinity_word()) || spells(w, from, nan_word())
        || is_decimal(w, from)
}

/// The words that are complete after reading `line`, and the word that is
/// still open.
pub open spec fn words_state(line: Seq<u8>) -> (Seq<Seq<u8>>, Seq<u8>)
    decreases line.len(),
{
    if line.len() == 0 {
        (Seq::empty(), Seq::empty())
    } else {
        let (done, open) = words_state(line.drop_last());
        if !is_space(line.last()) {
            (done, open.push(line.last()))
        } else if open.len() > 0 {
            (done.push(open), Seq::empty())
        } else {
            (done, open)
        }
    }
}

/// The maximal runs of bytes without white space, in order.
pub open spec fn words(line: Seq<u8>) -> Seq<Seq<u8>> {
    let (done, open) = words_state(line);
    if open.len() > 0 {
        done.push(open)
    } else {
        done
    }
}

/// The lines that are complete after reading `text`, and the line that is
/// still open.
pub open spec fn lines_state(text: Seq<u8>) -> (Seq<Seq<u8>>, Seq<u8>)
    decreases text.len(),
{
    if text.len() == 0 {
        (Seq::empty(), Seq::empty())
    } else {
        let (done, open) = lines_state(text.drop_last());
        if text.last() == 0x0a {
            (done.push(open), Seq::empty())
        } else {
            (done, open.push(text.last()))
        }
    }
}

/// The text cut at every line feed; what follows the last line feed is a
/// line only if it is not empty.
pub open spec fn lines(text: Seq<u8>) -> Seq<Seq<u8>> {
    let (done, open) = lines_state(text);
    if open.len() > 0 {
        done.push(open)
    } else {
        done
    }
}

/// The word pairs of the lines, or what is wrong with the first line that
/// does not hold two numbers.
pub open spec fn decoded_lines(all: Seq<Seq<u8>>) -> Result<Seq<(Seq<u8>, Seq<u8>)>, StoreError>
    decreases all.len(),
{
    if all.len() == 0 {
        Ok(Seq::empty())
    } else {
        match decoded_lines(all.drop_last()) {
            Err(e) => Err(e),
            Ok(pairs) => {
                let w = words(all.last());
                if w.len() != 2 {
                    Err(StoreError::MalformedLine { line: (all.len() - 1) as usize })
                } else if !is_number_word(w[0]) || !is_number_word(w[1]) {
                    Err(StoreError::NotANumber { line: (all.len() - 1) as usize })
                } else {
                    Ok(pairs.push((w[0], w[1])))
                }
            },
        }
    }
}

/// What a text holds.
pub open spec fn decoded(text: Seq<u8>) -> Result<Seq<(Seq<u8>, Seq<u8>)>, StoreError> {
    decoded_lines(lines(text))
}

/// The line for one pair, without its line feed.
pub open spec fn line_of(pair: (Seq<u8>, Seq<u8>)) -> Seq<u8> {
    pair.0.push(0x20u8) + pair.1
}

/// The text for the pairs: each pair's line and a line feed.
pub open spec fn encoded(pairs: Seq<(Seq<u8>, Seq<u8>)>) -> Seq<u8>
    decreases pairs.len(),
{
    if pairs.len() == 0 {
        Seq::empty()
    } else {
        encoded(pairs.drop_last()) + line_of(pairs.last()).push(0x0au8)
    }
}

/// The pairs as sequences of bytes.
pub open spec fn pairs_view(pairs: Seq<WordPair>) -> Seq<(Seq<u8>, Seq<u8>)> {
    Seq::new(pairs.len(), |i: int| (pairs[i].x@, pairs[i].y@))
}

/// The byte vectors as sequences of bytes.
pub open spec fn rows_view(rows: Seq<Vec<u8>>) -> Seq<Seq<u8>> {
    Seq::new(rows.len(), |i: int| rows[i]@)
}

/// Reading on through bytes that are not white space extends the open word.
pub proof fn lemma_words_extend(line: Seq<u8>, more: Seq<u8>)
    requires
        forall|i: int| 0 <= i < more.len() ==> !is_space(#[trigger] more[i]),
    ensures
        words_state(line + more) == (words_state(line).0, words_state(line).1 + more),
    decreases more.len(),
{
    if more.len() == 0 {
        assert(line + more =~= line);
        assert(words_state(line).1 + more =~= words_state(line).1);
    } else {
        lemma_words_extend(line, more.drop_last());
        assert((line + more).drop_last() =~= line + more.drop_last());
        assert((words_state(line).1 + more.drop_last()).push(more.last()) =~= words_state(line).1
            + more);
    }
}

/// Two words with a blank between them are read back as those two words.
pub proof fn lemma_words_of_line(x: Seq<u8>, y: Seq<u8>)
    requires
        is_word(x),
        is_word(y),
    ensures
        words(line_of((x, y))) == seq![x, y],
{
    let none = Seq::<u8>::empty();
    lemma_words_extend(none, x);
    assert(none + x =~= x);
    assert(x.push(0x20u8).drop_last() =~= x);
    assert(words_state(x.push(0x20u8)) == (seq![x], none));
    lemma_words_extend(x.push(0x20u8), y);
    assert(none + y =~= y);
    assert(seq![x].push(y) =~= seq![x, y]);
}

/// Reading on through bytes that are not line feeds extends the open line.
pub proof fn lemma_lines_extend(text: Seq<u8>, more: Seq<u8>)
    requires
        forall|i: int| 0 <= i < more.len() ==> #[trigger] more[i] != 0x0a,
    ensures
        lines_state(text + more) == (lines_state(text).0, lines_state(text).1 + more),
    decreases more.len(),
{
    if more.len() == 0 {
        assert(text + more =~= text);
        assert(lines_state(text).1 + more =~= lines_state(text).1);
    } else {
        lemma_lines_extend(text, more.drop_last());
        assert((text + more).drop_last() =~= text + more.drop_last());
        assert((lines_state(text).1 + more.drop_last()).push(more.last()) =~= lines_state(text).1
            + more);
    }
}

/// Whether both parts of every pair are words.
pub open spec fn all_words(pairs: Seq<(Seq<u8>, Seq<u8>)>) -> bool {
    forall|i: int| 0 <= i < pairs.len() ==> is_word((#[trigger] pairs[i]).0) && is_word(pairs[i].1)
}

/// Whether both parts of every pair are written as numbers.
pub open spec fn all_numbers(pairs: Seq<(Seq<u8>, Seq<u8>)>) -> bool {
    forall|i: int|
        0 <= i < pairs.len() ==> is_number_word((#[trigger] pairs[i]).0) && is_number_word(pairs[i].1)
}

/// The lines of an encoded text are the pairs' lines.
pub proof fn lemma_lines_of_encoded(pairs: Seq<(Seq<u8>, Seq<u8>)>)
    requires
        all_words(pairs),
    ensures
        lines_state(encoded(pairs)) == (
            Seq::new(pairs.len(), |i: int| line_of(pairs[i])),
            Seq::<u8>::empty(),
        ),
    decreases pairs.len(),
{
    let expected = Seq::new(pairs.len(), |i: int| line_of(pairs[i]));
    if pairs.len() == 0 {
        assert(expected =~= Seq::empty());
    } else {
        let init = pairs.drop_last();
        let line = line_of(pairs.last());
        lemma_lines_of_encoded(init);
        let init_lines = Seq::new(init.len(), |i: int| line_of(init[i]));
        assert forall|i: int| 0 <= i < line.len() implies #[trigger] line[i] != 0x0a by {
            let p = pairs.last();
            if i < p.0.len() {
                assert(line[i] == p.0[i]);
            } else if i > p.0.len() {
                assert(line[i] == p.1[i - p.0.len() - 1]);
            }
        }
        lemma_lines_extend(encoded(init), line);
        assert(Seq::<u8>::empty() + line =~= line);
        let text = encoded(init) + line.push(0x0au8);
        assert(text.drop_last() =~= encoded(init) + line);
        assert(text.last() == 0x0a);
        assert(init_lines.push(line) =~= expected);
    }
}

/// Reading its own lines gives a list of pairs back.
pub proof fn lemma_decoded_lines_of(pairs: Seq<(Seq<u8>, Seq<u8>)>)
    requires
        all_words(pairs),
        all_numbers(pairs),
    ensures
        decoded_lines(Seq::new(pairs.len(), |i: int| line_of(pairs[i]))) == Ok::<_, StoreError>(pairs),
    decreases pairs.len(),
{
    let all = Seq::new(pairs.len(), |i: int| line_of(pairs[i]));
    if pairs.len() > 0 {
        let init = pairs.drop_last();
        lemma_decoded_lines_of(init);
        assert(all.drop_last() =~= Seq::new(init.len(), |i: int| line_of(init[i])));
        lemma_words_of_line(pairs.last().0, pairs.last().1);
        assert(init.push((pairs.last().0, pairs.last().1)) =~= pairs);
    } else {
        assert(pairs =~= Seq::empty());
    }
}

/// What was written is what is read: the text for a list of pairs of words
/// that are written as numbers holds exactly those pairs, in the same order.
pub proof fn lemma_round_trip(pairs: Seq<(Seq<u8>, Seq<u8>)>)
    requires
        all_words(pairs),
        all_numbers(pairs),
    ensures
        decoded(encoded(pairs)) == Ok::<_, StoreError>(pairs),
{
    lemma_lines_of_encoded(pairs);
    lemma_decoded_lines_of(pairs);
}

/// Whether a byte is ASCII white space.
pub fn is_space_byte(b: u8) -> (out: bool)
    ensures
        out == is_space(b),
{
    b == 0x20 || (0x09 <= b && b <= 0x0d)
}

/// The end of the longest run of digits that starts at `from`.
pub fn skip_digits(s: &[u8], from: usize) -> (out: usize)
    requires
        from <= s@.len(),
    ensures
        out == digits_end(s@, from as int),
        from <= out <= s@.len(),
{
    let mut i: usize = from;
    while i < s.len() && 0x30 <= s[i] && s[i] <= 0x39
        invariant
            from <= i <= s@.len(),
            digits_end(s@, from as int) == digits_end(s@, i as int),
        decreases s@.len() - i,
    {
        i += 1;
    }
    i
}

/// Whether `s` from `from` to its end is `word`, letter case aside.
pub fn spells_word(s: &[u8], from: usize, word: &[u8]) -> (out: bool)
    requires
        from <= s@.len(),
    ensures
        out == spells(s@, from as int, word@),
{
    if s.len() - from != word.len() {
        return false;
    }
    let mut i: usize = 0;
    while i < word.len()
        invariant
            from <= s@.len(),
            s@.len() - from == word@.len(),
            i <= word@.len(),
            forall|j: int| 0 <= j < i ==> low(#[trigger] s@[from + j]) == word@[j],
        decreases word@.len() - i,
    {
        assert(from + i < s.len());
        let b = s[from + i];
        let lower: u8 = if 0x41 <= b && b <= 0x5a { b + 0x20 } else { b };
        if lower != word[i] {
            return false;
        }
        i += 1;
    }
    true
}

/// Whether a word is written as a number.
pub fn is_number(word: &[u8]) -> (out: bool)
    ensures
        out == is_number_word(word@),
{
    let from: usize = if word.len() > 0 && (word[0] == 0x2b || word[0] == 0x2d) { 1 } else { 0 };
    let inf: [u8; 3] = [0x69, 0x6e, 0x66];
    let infinity: [u8; 8] = [0x69, 0x6e, 0x66, 0x69, 0x6e, 0x69, 0x74, 0x79];
    let nan: [u8; 3] = [0x6e, 0x61, 0x6e];
    proof {
        assert(inf@ =~= inf_word());
        assert(infinity@ =~= infinity_word());
        assert(nan@ =~= nan_word());
    }
    if spells_word(word, from, inf.as_slice()) || spells_word(word, from, infinity.as_slice())
        || spells_word(word, from, nan.as_slice()) {
        return true;
    }
    let whole = skip_digits(word, from);
    let pointed = whole < word.len() && word[whole] == 0x2e;
    let mantissa = if pointed { skip_digits(word, whole + 1) } else { whole };
    let digits = if pointed { mantissa - from - 1 } else { mantissa - from };
    if digits == 0 {
        return false;
    }
    if mantissa == word.len() {
        return true;
    }
    if word[mantissa] != 0x65 && word[mantissa] != 0x45 {
        return false;
    }
    let exponent = if mantissa + 1 < word.len() && (word[mantissa + 1] == 0x2b || word[mantissa + 1]
        == 0x2d) {
        mantissa + 2
    } else {
        mantissa + 1
    };
    exponent < word.len() && skip_digits(word, exponent) == word.len()
}

/// The words of a line.
pub fn split_words(line: &[u8]) -> (out: Vec<Vec<u8>>)
    ensures
        rows_view(out@) == words(line@),
{
    let mut done: Vec<Vec<u8>> = Vec::new();
    let mut open: Vec<u8> = Vec::new();
    let mut i: usize = 0;
    while i < line.len()
        invariant
            i <= line@.len(),
            rows_view(done@) == words_state(line@.take(i as int)).0,
            open@ == words_state(line@.take(i as int)).1,
        decreases line@.len() - i,
    {
        let b = line[i];
        proof {
            assert(line@.take(i + 1).drop_last() =~= line@.take(i as int));
        }
        if !is_space_byte(b) {
            open.push(b);
        } else if open.len() > 0 {
            let ghost before = rows_view(done@);
            done.push(open);
            open = Vec::new();
            proof {
                assert(rows_view(done@) =~= before.push(words_state(line@.take(i as int)).1));
            }
        }
        i += 1;
    }
    proof {
        assert(line@.take(i as int) =~= line@);
    }
    if open.len() > 0 {
        let ghost before = rows_view(done@);
        let ghost last = open@;
        done.push(open);
        proof {
            assert(rows_view(done@) =~= before.push(last));
        }
    }
    done
}

/// The lines of a text.
pub fn split_lines(text: &[u8]) -> (out: Vec<Vec<u8>>)
    ensures
        rows_view(out@) == lines(text@),
{
    let mut done: Vec<Vec<u8>> = Vec::new();
    let mut open: Vec<u8> = Vec::new();
    let mut i: usize = 0;
    while i < text.len()
        invariant
            i <= text@.len(),
            rows_view(done@) == lines_state(text@.take(i as int)).0,
            open@ == lines_state(text@.take(i as int)).1,
        decreases text@.len() - i,
    {
        let b = text[i];
        proof {
            assert(text@.take(i + 1).drop_last() =~= text@.take(i as int));
        }
        if b == 0x0a {
            let ghost before = rows_view(done@);
            done.push(open);
            open = Vec::new();
            proof {
                assert(rows_view(done@) =~= before.push(lines_state(text@.take(i as int)).1));
            }
        } else {
            open.push(b);
        }
        i += 1;
    }
    proof {
        assert(text@.take(i as int) =~= text@);
    }
    if open.len() > 0 {
        let ghost before = rows_view(done@);
        let ghost last = open@;
        done.push(open);
        proof {
            assert(rows_view(done@) =~= before.push(last));
        }
    }
    done
}

/// Appends a copy of `bytes` to `out`.
pub fn append_bytes(out: &mut Vec<u8>, bytes: &[u8])
    ensures
        final(out)@ == old(out)@ + bytes@,
{
    let ghost start = out@;
    let mut i: usize = 0;
    while i < bytes.len()
        invariant
            i <= bytes@.len(),
            out@ == start + bytes@.take(i as int),
        decreases bytes@.len() - i,
    {
        out.push(bytes[i]);
        proof {
            assert(out@ =~= start + bytes@.take(i + 1));
        }
        i += 1;
    }
    proof {
        assert(bytes@.take(i as int) =~= bytes@);
    }
}

/// Writes the pairs as text: per pair its two words with a blank between
/// them and a line feed after them.
pub fn save_colors_pos(colors_pos: &[WordPair]) -> (out: Vec<u8>)
    ensures
        out@ == encoded(pairs_view(colors_pos@)),
{
    let pairs = colors_pos;
    let mut out: Vec<u8> = Vec::new();
    let mut k: usize = 0;
    while k < pairs.len()
        invariant
            k <= pairs@.len(),
            out@ == encoded(pairs_view(pairs@.take(k as int))),
        decreases pairs@.len() - k,
    {
        let ghost before = out@;
        append_bytes(&mut out, pairs[k].x.as_slice());
        out.push(0x20u8);
        append_bytes(&mut out, pairs[k].y.as_slice());
        out.push(0x0au8);
        proof {
            let now = pairs_view(pairs@.take(k + 1));
            assert(now.drop_last() =~= pairs_view(pairs@.take(k as int)));
            assert(now.last() == (pairs@[k as int].x@, pairs@[k as int].y@));
            assert(out@ =~= before + line_of(now.last()).push(0x0au8));
        }
        k += 1;
    }
    proof {
        assert(pairs@.take(k as int) =~= pairs@);
    }
    out
}

/// Reads a text back into pairs of words.
///
/// Fails on the first line that does not hold exactly two words, both
/// written as numbers; an empty text holds no pair.
pub fn load_colors_pos(text: &[u8]) -> (out: Result<Vec<WordPair>, StoreError>)
    ensures
        match out {
            Ok(pairs) => decoded(text@) == Ok::<_, StoreError>(pairs_view(pairs@)),
            Err(e) => decoded(text@) == Err::<Seq<(Seq<u8>, Seq<u8>)>, _>(e),
        },
{
    let all = split_lines(text);
    let mut pairs: Vec<WordPair> = Vec::new();
    let mut k: usize = 0;
    proof {
        assert(rows_view(all@).take(0) =~= Seq::empty());
        assert(pairs_view(pairs@) =~= Seq::empty());
    }
    while k < all.len()
        invariant
            k <= all@.len(),
            rows_view(all@) == lines(text@),
            decoded_lines(rows_view(all@).take(k as int)) == Ok::<_, StoreError>(pairs_view(pairs@)),
        decreases all@.len() - k,
    {
        let mut found = split_words(all[k].as_slice());
        proof {
            assert(rows_view(all@).take(k + 1).drop_last() =~= rows_view(all@).take(k as int));
            assert(rows_view(all@).take(k + 1).last() == all@[k as int]@);
            assert(found@.len() == rows_view(found@).len());
        }
        if found.len() != 2 {
            proof {
                lemma_first_failure(rows_view(all@), k as int);
            }
            return Err(StoreError::MalformedLine { line: k });
        }
        if !is_number(found[0].as_slice()) || !is_number(found[1].as_slice()) {
            proof {
                lemma_first_failure(rows_view(all@), k as int);
            }
            return Err(StoreError::NotANumber { line: k });
        }
        let ghost w = rows_view(found@);
        let ghost before = pairs_view(pairs@);
        let y = found.pop().unwrap();
        let x = found.pop().unwrap();
        proof {
            assert(y@ == w[1]);
            assert(x@ == w[0]);
        }
        pairs.push(WordPair { x, y });
        proof {
            assert(pairs_view(pairs@) =~= before.push((w[0], w[1])));
        }
        k += 1;
    }
    proof {
        assert(rows_view(all@).take(k as int) =~= rows_view(all@));
    }
    Ok(pairs)
}

/// A failure among the first lines is the failure of the whole.
pub proof fn lemma_first_failure(all: Seq<Seq<u8>>, k: int)
    requires
        0 <= k < all.len(),
        decoded_lines(all.take(k + 1)) is Err,
    ensures
        decoded_lines(all) == decoded_lines(all.take(k + 1)),
    decreases all.len(),
{
    if k + 1 == all.len() {
        assert(all.take(k + 1) =~= all);
    } else {
        assert(all.drop_last().take(k + 1) =~= all.take(k + 1));
        lemma_first_failure(all.drop_last(), k);
    }
}

} // verus!
