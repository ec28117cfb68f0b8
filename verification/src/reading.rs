//! What the value lines of the usual shapes read as, and how the value texts
//! of a description follow its lines.
use crate::tooltip::{
    after_marker, ending, is_space, lemma_line_end_bounds, line_end, lines, lines_from, marker,
    multiplier_of,
    skip_spaces, skip_word, value_text, value_texts, without_commas, without_ending, word_at,
    EmcTextView,
};
use vstd::prelude::*;

verus! {

/// No character of `s` is white space.
pub open spec fn no_space(s: Seq<char>) -> bool {
    forall|i: int| 0 <= i < s.len() ==> !is_space(#[trigger] s[i])
}

/// No character of `s` is a comma.
pub open spec fn no_comma(s: Seq<char>) -> bool {
    forall|i: int| 0 <= i < s.len() ==> (#[trigger] s[i]) != ','
}

/// No character of `s` is a line feed.
pub open spec fn no_line_feed(s: Seq<char>) -> bool {
    forall|i: int| 0 <= i < s.len() ==> (#[trigger] s[i]) != '\n'
}

/// `s` is a run of decimal digits, at least one.
pub open spec fn is_digits(s: Seq<char>) -> bool {
    &&& s.len() > 0
    &&& forall|i: int| 0 <= i < s.len() ==> 0x30 <= (#[trigger] s[i]) as u32 <= 0x39
}

/// `s` is made of decimal digits and commas, with at least one digit.
pub open spec fn is_grouped_digits(s: Seq<char>) -> bool {
    &&& forall|i: int|
        0 <= i < s.len() ==> (0x30 <= (#[trigger] s[i]) as u32 <= 0x39 || s[i] == ',')
    &&& exists|i: int| 0 <= i < s.len() && 0x30 <= (#[trigger] s[i]) as u32 <= 0x39
}

/// The marker is five characters long and ends in a blank; none of them is a
/// line feed.
pub proof fn lemma_marker_shape()
    ensures
        marker().len() == 5,
        marker() == seq!['E', 'M', 'C', ':', ' '],
        no_line_feed(marker()),
{
    reveal_strlit("EMC: ");
    assert(marker() =~= seq!['E', 'M', 'C', ':', ' ']);
}

/// The ending is four characters long, begins with a blank and closes with a
/// bracket; none of them is a line feed or a comma.
pub proof fn lemma_ending_shape()
    ensures
        ending().len() == 4,
        ending() == seq![' ', '(', '\u{2717}', ')'],
        no_line_feed(ending()),
        no_comma(ending()),
{
    reveal_strlit(" (\u{2717})");
    assert(ending() =~= seq![' ', '(', '\u{2717}', ')']);
}

/// A scale word has no white space and no comma in it, and ends in the
/// letter n.
pub proof fn lemma_scale_word_shape(word: Seq<char>)
    requires
        multiplier_of(word) is Some,
    ensures
        word.len() > 0,
        no_space(word),
        no_comma(word),
        no_line_feed(word),
        word.last() == 'n',
{
    reveal_strlit("Million");
    reveal_strlit("Billion");
    reveal_strlit("Trillion");
    reveal_strlit("Quadrillion");
    reveal_strlit("Quintillion");
    if word == "Million"@ {
        assert(word =~= seq!['M', 'i', 'l', 'l', 'i', 'o', 'n']);
    } else if word == "Billion"@ {
        assert(word =~= seq!['B', 'i', 'l', 'l', 'i', 'o', 'n']);
    } else if word == "Trillion"@ {
        assert(word =~= seq!['T', 'r', 'i', 'l', 'l', 'i', 'o', 'n']);
    } else if word == "Quadrillion"@ {
        assert(word =~= seq!['Q', 'u', 'a', 'd', 'r', 'i', 'l', 'l', 'i', 'o', 'n']);
    } else {
        assert(word =~= seq!['Q', 'u', 'i', 'n', 't', 'i', 'l', 'l', 'i', 'o', 'n']);
    }
}

/// A word runs on as long as no white space comes.
pub proof fn lemma_skip_word_run(s: Seq<char>, from: int, to: int)
    requires
        0 <= from <= to <= s.len(),
        forall|i: int| from <= i < to ==> !is_space(#[trigger] s[i]),
        to == s.len() || is_space(s[to]),
    ensures
        skip_word(s, from) == to,
    decreases to - from,
{
    if from < to {
        assert(!is_space(s[from]));
        lemma_skip_word_run(s, from + 1, to);
    }
}

/// White space is passed over up to the first character that is none.
pub proof fn lemma_skip_spaces_run(s: Seq<char>, from: int, to: int)
    requires
        0 <= from <= to <= s.len(),
        forall|i: int| from <= i < to ==> is_space(#[trigger] s[i]),
        to == s.len() || !is_space(s[to]),
    ensures
        skip_spaces(s, from) == to,
    decreases to - from,
{
    if from < to {
        assert(is_space(s[from]));
        lemma_skip_spaces_run(s, from + 1, to);
    }
}

/// A line runs on as long as no line feed comes.
pub proof fn lemma_line_end_run(s: Seq<char>, from: int, to: int)
    requires
        0 <= from <= to <= s.len(),
        forall|i: int| from <= i < to ==> (#[trigger] s[i]) != '\n',
        to == s.len() || s[to] == '\n',
    ensures
        line_end(s, from) == to,
    decreases to - from,
{
    if from < to {
        assert(s[from] != '\n');
        lemma_line_end_run(s, from + 1, to);
    }
}

/// A text without a line feed is one line, unless it is empty.
pub proof fn lemma_single_line(s: Seq<char>)
    requires
        s.len() > 0,
        no_line_feed(s),
    ensures
        lines(s) == seq![s],
{
    lemma_line_end_run(s, 0, s.len() as int);
    assert(s.subrange(0, s.len() as int) =~= s);
}

/// Taking the commas out of a text without commas changes nothing.
pub proof fn lemma_without_commas_same(s: Seq<char>)
    requires
        no_comma(s),
    ensures
        without_commas(s) == s,
    decreases s.len(),
{
    reveal(Seq::filter);
    if s.len() > 0 {
        assert(s.last() == s[s.len() - 1]);
        assert forall|i: int| 0 <= i < s.drop_last().len() implies (#[trigger] s.drop_last()[i])
            != ',' by {
            assert(s.drop_last()[i] == s[i]);
        }
        lemma_without_commas_same(s.drop_last());
        assert(s.drop_last().push(s.last()) =~= s);
    }
}

/// Taking the commas out brings no white space in.
pub proof fn lemma_without_commas_keeps_no_space(s: Seq<char>)
    requires
        no_space(s),
    ensures
        no_space(without_commas(s)),
        no_comma(without_commas(s)),
    decreases s.len(),
{
    reveal(Seq::filter);
    if s.len() > 0 {
        assert(s.last() == s[s.len() - 1]);
        assert forall|i: int| 0 <= i < s.drop_last().len() implies !is_space(
            #[trigger] s.drop_last()[i],
        ) by {
            assert(s.drop_last()[i] == s[i]);
        }
        lemma_without_commas_keeps_no_space(s.drop_last());
    }
}

/// A text without white space does not close with the ending, so nothing is
/// taken off it.
pub proof fn lemma_without_ending_of_word(s: Seq<char>)
    requires
        no_space(s),
    ensures
        without_ending(s) == s,
{
    lemma_ending_shape();
    if ending().is_suffix_of(s) {
        let tail = s.subrange(s.len() - 4, s.len() as int);
        assert(tail[0] == s[s.len() - 4]);
        assert(is_space(' '));
    }
}

/// A text that does not close with a bracket does not close with the ending,
/// so nothing is taken off it.
pub proof fn lemma_without_ending_same(s: Seq<char>)
    requires
        s.len() == 0 || s.last() != ')',
    ensures
        without_ending(s) == s,
{
    lemma_ending_shape();
    if ending().is_suffix_of(s) {
        let tail = s.subrange(s.len() - 4, s.len() as int);
        assert(tail[3] == s.last());
    }
}

/// The ending once at the end is taken off with all that stands there.
pub proof fn lemma_without_ending_once(s: Seq<char>)
    ensures
        without_ending(s + ending()) == without_ending(s),
{
    lemma_ending_shape();
    let whole = s + ending();
    assert(whole.subrange(whole.len() - 4, whole.len() as int) =~= ending());
    assert(whole.take(whole.len() - 4) =~= s);
}

/// A line made of the marker and one word reads as that word, commas left
/// out, with no factor. The ending behind it changes nothing.
pub proof fn lemma_number_line(body: Seq<char>)
    requires
        no_space(body),
        without_commas(body).len() > 0,
    ensures
        value_text(marker() + body) == Some(
            EmcTextView { number: without_commas(body), multiplier: None },
        ),
        value_text(marker() + body + ending()) == value_text(marker() + body),
{
    lemma_marker_shape();
    lemma_ending_shape();
    let plain = marker() + body;
    let decorated = marker() + body + ending();
    assert(plain.subrange(0, 5) =~= marker());
    assert(decorated.subrange(0, 5) =~= marker());
    assert(plain.skip(5) =~= body);
    assert(decorated.skip(5) =~= body + ending());
    assert(after_marker(plain) == Some(body));
    assert(after_marker(decorated) == Some(body + ending()));
    lemma_without_ending_once(body);
    lemma_without_ending_of_word(body);
    let clean = without_commas(body);
    lemma_without_commas_keeps_no_space(body);
    assert(!is_space(clean[0]));
    lemma_skip_word_run(clean, 0, clean.len() as int);
    assert(clean.subrange(0, clean.len() as int) =~= clean);
    assert(word_at(clean, 0) == Some((clean, clean.len() as int)));
    assert(word_at(clean, clean.len() as int) is None);
}

/// A line made of the marker, one word, a blank and a scale word reads as
/// the first word, commas left out, with the factor of the scale word. The
/// ending behind it changes nothing.
pub proof fn lemma_scaled_number_line(body: Seq<char>, word: Seq<char>)
    requires
        no_space(body),
        without_commas(body).len() > 0,
        multiplier_of(word) is Some,
    ensures
        value_text(marker() + body + seq![' '] + word) == Some(
            EmcTextView { number: without_commas(body), multiplier: multiplier_of(word) },
        ),
        value_text(marker() + body + seq![' '] + word + ending()) == value_text(
            marker() + body + seq![' '] + word,
        ),
{
    lemma_marker_shape();
    lemma_ending_shape();
    lemma_scale_word_shape(word);
    let rest = body + seq![' '] + word;
    let plain = marker() + body + seq![' '] + word;
    let decorated = plain + ending();
    assert(plain.subrange(0, 5) =~= marker());
    assert(decorated.subrange(0, 5) =~= marker());
    assert(plain.skip(5) =~= rest);
    assert(decorated.skip(5) =~= rest + ending());
    assert(after_marker(plain) == Some(rest));
    assert(after_marker(decorated) == Some(rest + ending()));
    lemma_without_ending_once(rest);
    assert(rest.last() == word.last());
    lemma_without_ending_same(rest);
    let number = without_commas(body);
    let keep = |c: char| c != ',';
    assert(without_commas(rest) == number + seq![' '] + word) by {
        Seq::filter_distributes_over_add(body + seq![' '], word, keep);
        Seq::filter_distributes_over_add(body, seq![' '], keep);
        lemma_without_commas_same(word);
        assert(no_comma(seq![' ']));
        lemma_without_commas_same(seq![' ']);
    }
    let clean = number + seq![' '] + word;
    let n = number.len() as int;
    lemma_without_commas_keeps_no_space(body);
    assert forall|i: int| 0 <= i < n implies !is_space(#[trigger] clean[i]) by {
        assert(clean[i] == number[i]);
    }
    assert(clean[n] == ' ');
    assert(is_space(' '));
    lemma_skip_word_run(clean, 0, n);
    assert(clean.subrange(0, n) =~= number);
    assert(word_at(clean, 0) == Some((number, n)));
    assert forall|i: int| n + 1 <= i < clean.len() implies !is_space(#[trigger] clean[i]) by {
        assert(clean[i] == word[i - n - 1]);
    }
    lemma_skip_spaces_run(clean, n, n + 1);
    lemma_skip_word_run(clean, n + 1, clean.len() as int);
    assert(clean.subrange(n + 1, clean.len() as int) =~= word);
    assert(word_at(clean, n) == Some((word, clean.len() as int)));
}

/// A description of one line has the value text of that line and no other.
pub proof fn lemma_one_line_description(line: Seq<char>)
    requires
        line.len() > 0,
        no_line_feed(line),
    ensures
        value_texts(line) == match value_text(line) {
            Some(text) => seq![text],
            None => Seq::empty(),
        },
{
    lemma_single_line(line);
    Seq::lemma_filter_map_singleton(line, |l: Seq<char>| value_text(l));
}

/// A description that is the marker and a run of digits reads as those
/// digits, with no factor.
pub proof fn lemma_bare_integer(digits: Seq<char>)
    requires
        is_digits(digits),
    ensures
        value_texts(marker() + digits) == seq![EmcTextView { number: digits, multiplier: None }],
{
    lemma_marker_shape();
    lemma_digits_shape(digits);
    lemma_without_commas_same(digits);
    lemma_number_line(digits);
    let line = marker() + digits;
    assert forall|i: int| 0 <= i < line.len() implies (#[trigger] line[i]) != '\n' by {
        if i >= 5 {
            assert(line[i] == digits[i - 5]);
        } else {
            assert(line[i] == marker()[i]);
        }
    }
    lemma_one_line_description(line);
}

/// Digits are neither white space nor commas.
proof fn lemma_digits_shape(digits: Seq<char>)
    requires
        forall|i: int| 0 <= i < digits.len() ==> 0x30 <= (#[trigger] digits[i]) as u32 <= 0x39,
    ensures
        no_space(digits),
        no_comma(digits),
{
    assert forall|i: int| 0 <= i < digits.len() implies !is_space(#[trigger] digits[i])
        && digits[i] != ',' by {
        assert(0x30 <= digits[i] as u32 <= 0x39);
        assert(',' as u32 == 0x2C);
    }
}

/// A description that is the marker, digits grouped by commas and the ending
/// reads as the digits alone, with no factor.
pub proof fn lemma_grouped_integer(grouped: Seq<char>)
    requires
        is_grouped_digits(grouped),
    ensures
        value_texts(marker() + grouped + ending()) == seq![
            EmcTextView { number: without_commas(grouped), multiplier: None },
        ],
        is_digits(without_commas(grouped)),
{
    lemma_marker_shape();
    lemma_ending_shape();
    assert forall|i: int| 0 <= i < grouped.len() implies !is_space(#[trigger] grouped[i]) by {
        assert(0x30 <= grouped[i] as u32 <= 0x39 || grouped[i] == ',');
        assert(',' as u32 == 0x2C);
    }
    lemma_grouped_digits_clean(grouped);
    lemma_number_line(grouped);
    let line = marker() + grouped + ending();
    assert forall|i: int| 0 <= i < line.len() implies (#[trigger] line[i]) != '\n' by {
        if i < 5 {
            assert(line[i] == marker()[i]);
        } else if i < 5 + grouped.len() {
            assert(line[i] == grouped[i - 5]);
            assert(!is_space(grouped[i - 5]));
        } else {
            assert(line[i] == ending()[i - 5 - grouped.len()]);
        }
    }
    lemma_one_line_description(line);
}

/// What is left of grouped digits without their commas is a run of digits.
proof fn lemma_grouped_digits_clean(grouped: Seq<char>)
    requires
        forall|i: int|
            0 <= i < grouped.len() ==> (0x30 <= (#[trigger] grouped[i]) as u32 <= 0x39
                || grouped[i] == ','),
    ensures
        forall|i: int|
            0 <= i < without_commas(grouped).len() ==> 0x30 <= (#[trigger] without_commas(
                grouped,
            )[i]) as u32 <= 0x39,
        (exists|i: int| 0 <= i < grouped.len() && 0x30 <= (#[trigger] grouped[i]) as u32 <= 0x39)
            ==> without_commas(grouped).len() > 0,
    decreases grouped.len(),
{
    reveal(Seq::filter);
    if grouped.len() > 0 {
        let front = grouped.drop_last();
        assert(grouped.last() == grouped[grouped.len() - 1]);
        assert forall|i: int| 0 <= i < front.len() implies (0x30 <= (#[trigger] front[i]) as u32
            <= 0x39 || front[i] == ',') by {
            assert(front[i] == grouped[i]);
        }
        lemma_grouped_digits_clean(front);
        assert(',' as u32 == 0x2C);
        if exists|i: int| 0 <= i < grouped.len() && 0x30 <= (#[trigger] grouped[i]) as u32 <= 0x39 {
            let i = choose|i: int|
                0 <= i < grouped.len() && 0x30 <= (#[trigger] grouped[i]) as u32 <= 0x39;
            if i < front.len() {
                assert(front[i] == grouped[i]);
            }
        }
    }
}

/// A description that is the marker, a number without white space, a blank,
/// a scale word and the ending reads as the number, commas left out, with
/// the factor of the scale word.
pub proof fn lemma_scaled_number(number: Seq<char>, word: Seq<char>)
    requires
        no_space(number),
        without_commas(number).len() > 0,
        multiplier_of(word) is Some,
    ensures
        value_texts(marker() + number + seq![' '] + word + ending()) == seq![
            EmcTextView { number: without_commas(number), multiplier: multiplier_of(word) },
        ],
{
    lemma_marker_shape();
    lemma_ending_shape();
    lemma_scale_word_shape(word);
    lemma_scaled_number_line(number, word);
    let line = marker() + number + seq![' '] + word + ending();
    let a = 5 + number.len();
    assert forall|i: int| 0 <= i < line.len() implies (#[trigger] line[i]) != '\n' by {
        if i < 5 {
            assert(line[i] == marker()[i]);
        } else if i < a {
            assert(line[i] == number[i - 5]);
            assert(!is_space(number[i - 5]));
        } else if i == a {
            assert(line[i] == ' ');
        } else if i < a + 1 + word.len() {
            assert(line[i] == word[i - a - 1]);
        } else {
            assert(line[i] == ending()[i - a - 1 - word.len()]);
        }
    }
    lemma_one_line_description(line);
}

/// Picking out of two lists in a row is picking out of each.
pub proof fn lemma_filter_map_add<A, B>(a: Seq<A>, b: Seq<A>, f: spec_fn(A) -> Option<B>)
    ensures
        (a + b).filter_map(f) == a.filter_map(f) + b.filter_map(f),
    decreases b.len(),
{
    if b.len() == 0 {
        assert(a + b =~= a);
        assert(a.filter_map(f) + b.filter_map(f) =~= a.filter_map(f));
    } else {
        assert((a + b).drop_last() =~= a + b.drop_last());
        assert((a + b).last() == b.last());
        lemma_filter_map_add(a, b.drop_last(), f);
        match f(b.last()) {
            Some(x) => {
                assert((a.filter_map(f) + b.drop_last().filter_map(f)) + seq![x] =~= a.filter_map(
                    f,
                ) + (b.drop_last().filter_map(f) + seq![x]));
            },
            None => {},
        }
    }
}

/// Lines without a value text add nothing.
proof fn lemma_no_value_texts(all: Seq<Seq<char>>)
    requires
        forall|j: int| 0 <= j < all.len() ==> value_text(#[trigger] all[j]) is None,
    ensures
        all.filter_map(|l: Seq<char>| value_text(l)).len() == 0,
    decreases all.len(),
{
    if all.len() > 0 {
        assert(value_text(all[all.len() - 1]) is None);
        assert forall|j: int| 0 <= j < all.drop_last().len() implies value_text(
            #[trigger] all.drop_last()[j],
        ) is None by {
            assert(all.drop_last()[j] == all[j]);
        }
        lemma_no_value_texts(all.drop_last());
    }
}

/// The first value text of a description is that of its first line that has
/// one, whatever stands on the lines behind it.
pub proof fn lemma_first_value_line_comes_first(text: Seq<char>, k: int)
    requires
        0 <= k < lines(text).len(),
        value_text(lines(text)[k]) is Some,
        forall|j: int| 0 <= j < k ==> value_text(#[trigger] lines(text)[j]) is None,
    ensures
        value_texts(text).len() >= 1,
        value_texts(text)[0] == value_text(lines(text)[k]).unwrap(),
{
    let all = lines(text);
    let pick = |l: Seq<char>| value_text(l);
    let before = all.take(k);
    let behind = all.skip(k + 1);
    assert(all =~= before + (seq![all[k]] + behind));
    lemma_filter_map_add(before, seq![all[k]] + behind, pick);
    lemma_filter_map_add(seq![all[k]], behind, pick);
    Seq::lemma_filter_map_singleton(all[k], pick);
    assert forall|j: int| 0 <= j < before.len() implies value_text(#[trigger] before[j]) is None by {
        assert(before[j] == all[j]);
    }
    lemma_no_value_texts(before);
}

/// Where a line ends does not depend on what stands before the place the
/// line is looked for from.
proof fn lemma_line_end_shift(front: Seq<char>, s: Seq<char>, k: int)
    requires
        0 <= k <= s.len(),
    ensures
        line_end(front + s, front.len() + k) == front.len() + line_end(s, k),
    decreases s.len() - k,
{
    if k < s.len() {
        assert((front + s)[front.len() + k] == s[k]);
        if s[k] != '\n' {
            lemma_line_end_shift(front, s, k + 1);
        }
    }
}

/// The lines from a place on do not depend on what stands before it.
proof fn lemma_lines_shift(front: Seq<char>, s: Seq<char>, k: int)
    requires
        0 <= k <= s.len(),
    ensures
        lines_from(front + s, front.len() + k) == lines_from(s, k),
    decreases s.len() - k,
{
    if k < s.len() {
        let whole = front + s;
        let n = front.len() as int;
        lemma_line_end_shift(front, s, k);
        lemma_line_end_bounds(s, k);
        let end = line_end(s, k);
        if k < end {
            assert(whole[n + end - 1] == s[end - 1]);
        }
        let stop = if end < s.len() && k < end && s[end - 1] == '\r' {
            end - 1
        } else {
            end
        };
        assert(whole.subrange(n + k, n + stop) =~= s.subrange(k, stop));
        if end < s.len() {
            lemma_lines_shift(front, s, end + 1);
        }
    }
}

/// Before a line feed, where a line ends does not depend on what stands
/// behind that line feed.
proof fn lemma_line_end_within(p: Seq<char>, t: Seq<char>, from: int)
    requires
        p.len() > 0,
        p.last() == '\n',
        0 <= from < p.len(),
    ensures
        line_end(p + t, from) == line_end(p, from),
        from <= line_end(p, from) < p.len(),
    decreases p.len() - from,
{
    assert((p + t)[from] == p[from]);
    if p[from] != '\n' {
        lemma_line_end_within(p, t, from + 1);
    }
}

/// The lines of a text that closes with a line feed stay as they are when
/// more text follows, and the lines of what follows come behind them.
proof fn lemma_lines_within(p: Seq<char>, t: Seq<char>, from: int)
    requires
        p.len() > 0,
        p.last() == '\n',
        0 <= from <= p.len(),
    ensures
        lines_from(p + t, from) == lines_from(p, from) + lines(t),
    decreases p.len() - from,
{
    let whole = p + t;
    if from == p.len() {
        lemma_lines_shift(p, t, 0);
        assert(lines_from(p, from) + lines(t) =~= lines(t));
    } else {
        lemma_line_end_within(p, t, from);
        let end = line_end(p, from);
        if from < end {
            assert(whole[end - 1] == p[end - 1]);
        }
        let stop = if from < end && p[end - 1] == '\r' {
            end - 1
        } else {
            end
        };
        assert(whole.subrange(from, stop) =~= p.subrange(from, stop));
        lemma_lines_within(p, t, end + 1);
        assert(seq![p.subrange(from, stop)] + (lines_from(p, end + 1) + lines(t)) =~= (seq![
            p.subrange(from, stop),
        ] + lines_from(p, end + 1)) + lines(t));
    }
}

/// What stands behind a line feed has no part in the lines before it: the
/// lines, and so the value texts, of a description are those of its part up
/// to a line feed, followed by those of the rest.
pub proof fn lemma_later_lines_come_later(head: Seq<char>, tail: Seq<char>)
    ensures
        lines(head + seq!['\n'] + tail) == lines(head + seq!['\n']) + lines(tail),
        value_texts(head + seq!['\n'] + tail) == value_texts(head + seq!['\n']) + value_texts(
            tail,
        ),
{
    let p = head + seq!['\n'];
    lemma_lines_within(p, tail, 0);
    lemma_filter_map_add(lines(p), lines(tail), |l: Seq<char>| value_text(l));
}

} // verus!
