//! The value line of an item description.
//!
//! A description is free text. Its value stands on a line that begins with
//! the marker `EMC: `, as a number that may carry separating commas, a scale
//! word such as `Million`, and a decorative ending. This module finds such
//! lines and hands back, for each, the text of the number and the factor of
//! the scale word. Turning the text into a fractional number is left to the
//! caller.
use vstd::prelude::*;

verus! {

/// The marker that opens a value line.
pub open spec fn marker() -> Seq<char> {
    "EMC: "@
}

/// The decorative ending of a value line.
pub open spec fn ending() -> Seq<char> {
    " (\u{2717})"@
}

/// Whether `c` separates words: the characters that Unicode lists as white space.
pub open spec fn is_space(c: char) -> bool {
    let n = c as u32;
    ||| 0x09 <= n <= 0x0D
    ||| n == 0x20
    ||| n == 0x85
    ||| n == 0xA0
    ||| n == 0x1680
    ||| 0x2000 <= n <= 0x200A
    ||| n == 0x2028
    ||| n == 0x2029
    ||| n == 0x202F
    ||| n == 0x205F
    ||| n == 0x3000
}

/// The place of the first line feed of `s` at or after `from`, or the length
/// of `s` where there is none.
pub open spec fn line_end(s: Seq<char>, from: int) -> int
    decreases s.len() - from,
{
    if 0 <= from < s.len() && s[from] != '\n' {
        line_end(s, from + 1)
    } else {
        from
    }
}

/// The lines of `s` from place `from` on. A line ends at a line feed, which
/// is not part of it, nor is a carriage return directly before that line
/// feed. What follows the last line feed is a line of its own unless it is
/// empty.
pub open spec fn lines_from(s: Seq<char>, from: int) -> Seq<Seq<char>>
    decreases s.len() - from,
    via lines_from_decreases
{
    if 0 <= from < s.len() {
        let end = line_end(s, from);
        let stop = if end < s.len() && from < end && s[end - 1] == '\r' {
            end - 1
        } else {
            end
        };
        if end < s.len() {
            seq![s.subrange(from, stop)] + lines_from(s, end + 1)
        } else {
            seq![s.subrange(from, stop)]
        }
    } else {
        Seq::empty()
    }
}

#[via_fn]
proof fn lines_from_decreases(s: Seq<char>, from: int) {
    lemma_line_end_bounds(s, from);
}

/// A line ends at or after the place where it begins, and within the text.
pub proof fn lemma_line_end_bounds(s: Seq<char>, from: int)
    ensures
        from <= line_end(s, from),
        from <= s.len() ==> line_end(s, from) <= s.len(),
    decreases s.len() - from,
{
    if 0 <= from < s.len() && s[from] != '\n' {
        lemma_line_end_bounds(s, from + 1);
    }
}

/// The lines of a text.
pub open spec fn lines(s: Seq<char>) -> Seq<Seq<char>> {
    lines_from(s, 0)
}

/// What follows the marker on a line that begins with it.
pub open spec fn after_marker(line: Seq<char>) -> Option<Seq<char>> {
    if marker().is_prefix_of(line) {
        Some(line.skip(marker().len() as int))
    } else {
        None
    }
}

/// `s` without the decorative ending, as often as it stands at the end.
pub open spec fn without_ending(s: Seq<char>) -> Seq<char>
    decreases s.len(),
{
    if ending().len() > 0 && ending().is_suffix_of(s) {
        without_ending(s.take(s.len() - ending().len()))
    } else {
        s
    }
}

/// `s` without its commas.
pub open spec fn without_commas(s: Seq<char>) -> Seq<char> {
    s.filter(|c: char| c != ',')
}

/// The first place at or after `from` that holds no white space.
pub open spec fn skip_spaces(s: Seq<char>, from: int) -> int
    decreases s.len() - from,
{
    if 0 <= from < s.len() && is_space(s[from]) {
        skip_spaces(s, from + 1)
    } else {
        from
    }
}

/// The first place at or after `from` that holds white space, or the length
/// of `s`.
pub open spec fn skip_word(s: Seq<char>, from: int) -> int
    decreases s.len() - from,
{
    if 0 <= from < s.len() && !is_space(s[from]) {
        skip_word(s, from + 1)
    } else {
        from
    }
}

/// The first word of `s` that begins at or after `from`, and the place where
/// it ends. A word is a longest run of characters that are not white space.
pub open spec fn word_at(s: Seq<char>, from: int) -> Option<(Seq<char>, int)> {
    let start = skip_spaces(s, from);
    if 0 <= start < s.len() {
        let end = skip_word(s, start);
        Some((s.subrange(start, end), end))
    } else {
        None
    }
}

/// The factor that a scale word stands for. The words are matched letter for
/// letter, capitals included.
pub open spec fn multiplier_of(word: Seq<char>) -> Option<u64> {
    if word == "Million"@ {
        Some(1_000_000u64)
    } else if word == "Billion"@ {
        Some(1_000_000_000u64)
    } else if word == "Trillion"@ {
        Some(1_000_000_000_000u64)
    } else if word == "Quadrillion"@ {
        Some(1_000_000_000_000_000u64)
    } else if word == "Quintillion"@ {
        Some(1_000_000_000_000_000_000u64)
    } else {
        None
    }
}

/// The text of a value: the number as it is written, commas left out, and
/// the factor of the scale word behind it, if there is one.
pub struct EmcText {
    pub number: Vec<char>,
    pub multiplier: Option<u64>,
}

/// The mathematical value of an [`EmcText`].
pub ghost struct EmcTextView {
    pub number: Seq<char>,
    pub multiplier: Option<u64>,
}

impl View for EmcText {
    type V = EmcTextView;

    open spec fn view(&self) -> EmcTextView {
        EmcTextView { number: self.number@, multiplier: self.multiplier }
    }
}

impl DeepView for EmcText {
    type V = EmcTextView;

    open spec fn deep_view(&self) -> EmcTextView {
        self@
    }
}

/// The value text of one line: the line begins with the marker; the ending
/// and the commas are taken out of what follows; the first word is the
/// number, and the second word, where it is a scale word, gives the factor.
/// A line without the marker, or with no word behind it, has none.
pub open spec fn value_text(line: Seq<char>) -> Option<EmcTextView> {
    match after_marker(line) {
        None => None,
        Some(rest) => {
            let clean = without_commas(without_ending(rest));
            match word_at(clean, 0) {
                None => None,
                Some((number, end)) => Some(
                    EmcTextView {
                        number,
                        multiplier: match word_at(clean, end) {
                            None => None,
                            Some((word, _)) => multiplier_of(word),
                        },
                    },
                ),
            }
        },
    }
}

/// The value texts of a description, one for each line that has one, in the
/// order of the lines.
pub open spec fn value_texts(text: Seq<char>) -> Seq<EmcTextView> {
    lines(text).filter_map(|line: Seq<char>| value_text(line))
}

/// Whether `c` separates words.
pub fn is_space_char(c: char) -> (space: bool)
    ensures
        space == is_space(c),
{
    let n: u32 = c as u32;
    (0x09 <= n && n <= 0x0D) || n == 0x20 || n == 0x85 || n == 0xA0 || n == 0x1680 || (0x2000 <= n
        && n <= 0x200A) || n == 0x2028 || n == 0x2029 || n == 0x202F || n == 0x205F || n == 0x3000
}

/// The characters of a text.
pub fn chars_of(text: &str) -> (chars: Vec<char>)
    ensures
        chars@ == text@,
{
    let mut chars: Vec<char> = Vec::new();
    for c in it: text.chars()
        invariant
            it.seq() == text@,
            chars@ == it.seq().take(it.index()),
    {
        chars.push(c);
    }
    chars
}

/// A copy of the characters of `s` from place `from` up to place `to`.
fn copy_range(s: &Vec<char>, from: usize, to: usize) -> (out: Vec<char>)
    requires
        from <= to <= s.len(),
    ensures
        out@ == s@.subrange(from as int, to as int),
{
    let mut out: Vec<char> = Vec::new();
    let mut i: usize = from;
    while i < to
        invariant
            from <= i <= to,
            to <= s.len(),
            out@ == s@.subrange(from as int, i as int),
        decreases to - i,
    {
        out.push(s[i]);
        i += 1;
    }
    out
}

/// Whether `pattern` stands in `s` at place `at`.
pub fn matches_at(s: &Vec<char>, at: usize, pattern: &Vec<char>) -> (same: bool)
    ensures
        same == (at + pattern.len() <= s.len() && s@.subrange(
            at as int,
            at + pattern.len(),
        ) == pattern@),
{
    if at > s.len() || pattern.len() > s.len() - at {
        return false;
    }
    let mut k: usize = 0;
    while k < pattern.len()
        invariant
            k <= pattern.len(),
            at + pattern.len() <= s.len(),
            forall|j: int| 0 <= j < k ==> s[at + j] == pattern[j],
        decreases pattern.len() - k,
    {
        if s[at + k] != pattern[k] {
            assert(s@.subrange(at as int, at + pattern.len())[k as int] != pattern@[k as int]);
            return false;
        }
        k += 1;
    }
    assert(s@.subrange(at as int, at + pattern.len()) =~= pattern@);
    true
}

/// The texts that a list of character vectors holds.
pub open spec fn texts(list: Seq<Vec<char>>) -> Seq<Seq<char>> {
    list.map_values(|line: Vec<char>| line@)
}

/// The lines of `text`.
pub fn split_lines(text: &Vec<char>) -> (out: Vec<Vec<char>>)
    ensures
        texts(out@) == lines(text@),
{
    let mut out: Vec<Vec<char>> = Vec::new();
    let mut from: usize = 0;
    assert(texts(out@) + lines_from(text@, 0) =~= lines(text@));
    while from < text.len()
        invariant
            from <= text.len(),
            texts(out@) + lines_from(text@, from as int) == lines(text@),
        decreases text.len() - from,
    {
        let mut end: usize = from;
        while end < text.len() && text[end] != '\n'
            invariant
                from <= end <= text.len(),
                line_end(text@, from as int) == line_end(text@, end as int),
            decreases text.len() - end,
        {
            end += 1;
        }
        let stop: usize = if end < text.len() && from < end && text[end - 1] == '\r' {
            end - 1
        } else {
            end
        };
        let line = copy_range(text, from, stop);
        let ghost before = texts(out@);
        out.push(line);
        assert(texts(out@) =~= before.push(text@.subrange(from as int, stop as int)));
        if end < text.len() {
            assert(before.push(text@.subrange(from as int, stop as int)) + lines_from(
                text@,
                end + 1,
            ) =~= before + lines_from(text@, from as int));
            from = end + 1;
        } else {
            assert(before.push(text@.subrange(from as int, stop as int)) + lines_from(
                text@,
                end as int,
            ) =~= before + lines_from(text@, from as int));
            from = end;
        }
    }
    assert(texts(out@) + lines_from(text@, from as int) =~= texts(out@));
    out
}

/// What follows the marker on `line`, where `line` begins with it.
pub fn strip_marker(line: &Vec<char>) -> (rest: Option<Vec<char>>)
    ensures
        match after_marker(line@) {
            None => rest is None,
            Some(text) => rest is Some && rest.unwrap()@ == text,
        },
{
    let mark = chars_of("EMC: ");
    if matches_at(line, 0, &mark) {
        assert(line@.subrange(0, mark.len() as int) =~= line@.take(mark.len() as int));
        Some(copy_range(line, mark.len(), line.len()))
    } else {
        assert(marker().is_prefix_of(line@) ==> line@.subrange(0, mark.len() as int) =~= mark@);
        None
    }
}

/// Takes the decorative ending off `s`, as often as it stands at the end.
pub fn strip_ending(s: &mut Vec<char>)
    ensures
        final(s)@ == without_ending(old(s)@),
{
    let tail = chars_of(" (\u{2717})");
    if tail.len() == 0 {
        return ;
    }
    while s.len() >= tail.len() && matches_at(s, s.len() - tail.len(), &tail)
        invariant
            tail@ == ending(),
            tail.len() > 0,
            without_ending(s@) == without_ending(old(s)@),
        decreases s.len(),
    {
        let keep: usize = s.len() - tail.len();
        let ghost before = s@;
        s.truncate(keep);
        assert(s@ =~= before.take(before.len() - ending().len()));
    }
}

/// A copy of `s` without its commas.
pub fn remove_commas(s: &Vec<char>) -> (out: Vec<char>)
    ensures
        out@ == without_commas(s@),
{
    let ghost keep = |c: char| c != ',';
    let mut out: Vec<char> = Vec::new();
    let mut i: usize = 0;
    proof {
        reveal(Seq::filter);
        assert(s@.take(0) =~= Seq::<char>::empty());
    }
    while i < s.len()
        invariant
            i <= s.len(),
            keep == |c: char| c != ',',
            out@ == s@.take(i as int).filter(keep),
        decreases s.len() - i,
    {
        proof {
            reveal(Seq::filter);
            assert(s@.take(i as int + 1).drop_last() =~= s@.take(i as int));
        }
        if s[i] != ',' {
            out.push(s[i]);
        }
        i += 1;
    }
    assert(s@.take(s.len() as int) =~= s@);
    out
}

/// The first word of `s` that begins at or after `from`, and the place where
/// it ends.
pub fn next_word(s: &Vec<char>, from: usize) -> (found: Option<(Vec<char>, usize)>)
    ensures
        match word_at(s@, from as int) {
            None => found is None,
            Some((word, end)) => found is Some && found.unwrap().0@ == word && found.unwrap().1
                == end && end <= s.len(),
        },
{
    if from >= s.len() {
        return None;
    }
    let mut start: usize = from;
    while start < s.len() && is_space_char(s[start])
        invariant
            from <= start <= s.len(),
            skip_spaces(s@, from as int) == skip_spaces(s@, start as int),
        decreases s.len() - start,
    {
        start += 1;
    }
    if start >= s.len() {
        return None;
    }
    let mut end: usize = start;
    while end < s.len() && !is_space_char(s[end])
        invariant
            start <= end <= s.len(),
            skip_word(s@, start as int) == skip_word(s@, end as int),
        decreases s.len() - end,
    {
        end += 1;
    }
    Some((copy_range(s, start, end), end))
}

/// Whether `word` is the text `name`.
pub fn is_word(word: &Vec<char>, name: &str) -> (same: bool)
    ensures
        same == (word@ == name@),
{
    let letters = chars_of(name);
    if word.len() != letters.len() {
        return false;
    }
    let same = matches_at(word, 0, &letters);
    assert(word@.subrange(0, word.len() as int) =~= word@);
    same
}

/// The factor that the scale word `word` stands for.
pub fn number_word_multiplier(word: &Vec<char>) -> (factor: Option<u64>)
    ensures
        factor == multiplier_of(word@),
{
    if is_word(word, "Million") {
        Some(1_000_000u64)
    } else if is_word(word, "Billion") {
        Some(1_000_000_000u64)
    } else if is_word(word, "Trillion") {
        Some(1_000_000_000_000u64)
    } else if is_word(word, "Quadrillion") {
        Some(1_000_000_000_000_000u64)
    } else if is_word(word, "Quintillion") {
        Some(1_000_000_000_000_000_000u64)
    } else {
        None
    }
}

/// The value text of one line.
pub fn value_text_of_line(line: &Vec<char>) -> (found: Option<EmcText>)
    ensures
        found.deep_view() == value_text(line@),
{
    match strip_marker(line) {
        None => None,
        Some(mut rest) => {
            strip_ending(&mut rest);
            let clean = remove_commas(&rest);
            match next_word(&clean, 0) {
                None => None,
                Some((number, end)) => {
                    let multiplier = match next_word(&clean, end) {
                        None => None,
                        Some((word, _)) => number_word_multiplier(&word),
                    };
                    Some(EmcText { number, multiplier })
                },
            }
        },
    }
}

/// The value texts of a description, in the order of its lines. The value of
/// the description is that of the first of them whose number the caller can
/// read.
pub fn emc_candidates(tooltip: &str) -> (found: Vec<EmcText>)
    ensures
        found.deep_view() == value_texts(tooltip@),
{
    let text = chars_of(tooltip);
    let all = split_lines(&text);
    let ghost pick = |line: Seq<char>| value_text(line);
    let mut found: Vec<EmcText> = Vec::new();
    let mut i: usize = 0;
    assert(texts(all@).take(0) =~= Seq::<Seq<char>>::empty());
    assert(found.deep_view() =~= texts(all@).take(0).filter_map(pick));
    while i < all.len()
        invariant
            i <= all.len(),
            pick == |line: Seq<char>| value_text(line),
            found.deep_view() == texts(all@).take(i as int).filter_map(pick),
        decreases all.len() - i,
    {
        let ghost before = found.deep_view();
        assert(texts(all@).take(i as int + 1).drop_last() =~= texts(all@).take(i as int));
        assert(texts(all@).take(i as int + 1).last() == all[i as int]@);
        if let Some(text) = value_text_of_line(&all[i]) {
            let ghost view = text@;
            found.push(text);
            assert(found.deep_view() =~= before + seq![view]);
        }
        i += 1;
    }
    assert(texts(all@).take(all.len() as int) =~= texts(all@));
    found
}

} // verus!
