//! Text as sequences of characters: splitting, trimming, and decimal numbers.

use vstd::prelude::*;

verus! {

/// The contents of a list of rows.
pub open spec fn views<T>(v: Seq<Vec<T>>) -> Seq<Seq<T>> {
    Seq::new(v.len(), |i: int| v[i]@)
}

/// The contents of a list of texts.
pub open spec fn str_views(v: Seq<&str>) -> Seq<Seq<char>> {
    Seq::new(v.len(), |i: int| v[i]@)
}

/// The pieces of `s` between the occurrences of `sep`: one piece more than
/// there are occurrences, each free of `sep`, in order.
pub open spec fn split_on(s: Seq<char>, sep: char) -> Seq<Seq<char>>
    decreases s.len(),
{
    if s.len() == 0 {
        seq![Seq::empty()]
    } else {
        let prev = split_on(s.drop_last(), sep);
        if s.last() == sep {
            prev.push(Seq::empty())
        } else {
            prev.drop_last().push(prev.last().push(s.last()))
        }
    }
}

/// Whether `c` is a blank: one of the characters of white space. Of those of
/// one byte these are the space, the tab, the line feed, the vertical tab, the
/// form feed and the carriage return.
pub open spec fn is_space(c: char) -> bool {
    c == ' ' || ('\t' <= c && c <= '\r') || c == '\u{85}' || c == '\u{a0}' || c == '\u{1680}' || (
    '\u{2000}' <= c && c <= '\u{200a}') || c == '\u{2028}' || c == '\u{2029}' || c == '\u{202f}'
        || c == '\u{205f}' || c == '\u{3000}'
}

/// The words of `s`: its maximal stretches without a blank, in order.
pub open spec fn words(s: Seq<char>) -> Seq<Seq<char>>
    decreases s.len(),
{
    if s.len() == 0 {
        Seq::empty()
    } else {
        let prev = words(s.drop_last());
        if is_space(s.last()) {
            prev
        } else if s.len() >= 2 && !is_space(s[s.len() - 2]) {
            prev.drop_last().push(prev.last().push(s.last()))
        } else {
            prev.push(seq![s.last()])
        }
    }
}

/// `s` without the blanks at its end.
pub open spec fn trim_end(s: Seq<char>) -> Seq<char>
    decreases s.len(),
{
    if s.len() > 0 && is_space(s.last()) {
        trim_end(s.drop_last())
    } else {
        s
    }
}

/// `s` without the blanks at its start.
pub open spec fn trim_start(s: Seq<char>) -> Seq<char>
    decreases s.len(),
{
    if s.len() > 0 && is_space(s.first()) {
        trim_start(s.drop_first())
    } else {
        s
    }
}

/// `s` without the blanks at its start and at its end.
pub open spec fn trim(s: Seq<char>) -> Seq<char> {
    trim_start(trim_end(s))
}

/// `s` without a carriage return at its end.
pub open spec fn strip_cr(s: Seq<char>) -> Seq<char> {
    if s.len() > 0 && s.last() == '\r' {
        s.drop_last()
    } else {
        s
    }
}

/// The lines of `s`. A line ends with a line feed, which is not part of it,
/// nor is a carriage return in front of that line feed. What follows the last
/// line feed is a line of its own unless it is empty.
pub open spec fn lines(s: Seq<char>) -> Seq<Seq<char>> {
    let pieces = split_on(s, '\n');
    let ended = Seq::new((pieces.len() - 1) as nat, |i: int| strip_cr(pieces[i]));
    if pieces.last().len() == 0 {
        ended
    } else {
        ended.push(pieces.last())
    }
}

/// The place of the first `c` in `s`, if there is one.
pub open spec fn index_of(s: Seq<char>, c: char) -> Option<int>
    decreases s.len(),
{
    if s.len() == 0 {
        None
    } else {
        match index_of(s.drop_last(), c) {
            Some(i) => Some(i),
            None => if s.last() == c {
                Some(s.len() - 1)
            } else {
                None
            },
        }
    }
}

/// Whether an empty line stands at place `i` of `s`: two line feeds in a row.
pub open spec fn gap_at(s: Seq<char>, i: int) -> bool {
    0 <= i && i + 1 < s.len() && s[i] == '\n' && s[i + 1] == '\n'
}

/// The first place from `i` on at which an empty line stands in `s`.
pub open spec fn first_gap(s: Seq<char>, i: int) -> Option<int>
    decreases s.len() - i,
{
    if i < 0 || i + 1 >= s.len() {
        None
    } else if gap_at(s, i) {
        Some(i)
    } else {
        first_gap(s, i + 1)
    }
}

/// The blocks of `s`, which empty lines separate: `s` is cut at the first two
/// line feeds in a row, and what follows them is cut in the same way.
pub open spec fn blocks(s: Seq<char>) -> Seq<Seq<char>>
    decreases s.len(),
{
    match first_gap(s, 0) {
        Some(i) => if 0 <= i && i + 2 <= s.len() {
            seq![s.take(i)] + blocks(s.skip(i + 2))
        } else {
            seq![s]
        },
        None => seq![s],
    }
}

/// The number of bytes that the character `c` takes in a text.
pub open spec fn byte_width(c: char) -> int {
    if c <= '\u{7f}' {
        1
    } else if c <= '\u{7ff}' {
        2
    } else if c <= '\u{ffff}' {
        3
    } else {
        4
    }
}

/// The number of bytes that the text `s` takes.
pub open spec fn byte_len(s: Seq<char>) -> int
    decreases s.len(),
{
    if s.len() == 0 {
        0
    } else {
        byte_len(s.drop_last()) + byte_width(s.last())
    }
}

/// The number of characters of `s`, from `k` on, that take the first `at`
/// bytes of `s`, if some number of its characters takes exactly these bytes.
pub open spec fn boundary(s: Seq<char>, at: int, k: int) -> Option<int>
    decreases s.len() - k,
{
    if k < 0 || k > s.len() {
        None
    } else if byte_len(s.take(k)) == at {
        Some(k)
    } else if byte_len(s.take(k)) > at || k == s.len() {
        None
    } else {
        boundary(s, at, k + 1)
    }
}

/// The characters of `s` that take its bytes from `from` up to `to`, if a
/// character starts, or the text ends, at each of these two bytes.
pub open spec fn byte_slice(s: Seq<char>, from: int, to: int) -> Option<Seq<char>> {
    match (boundary(s, from, 0), boundary(s, to, 0)) {
        (Some(a), Some(b)) => if a <= b {
            Some(s.subrange(a, b))
        } else {
            None
        },
        _ => None,
    }
}

/// Whether `c` is a decimal digit.
pub open spec fn is_digit(c: char) -> bool {
    '0' <= c && c <= '9'
}

/// The value of the decimal digit `c`.
pub open spec fn digit_value(c: char) -> nat {
    (c as int - '0' as int) as nat
}

/// Whether `s` holds decimal digits only.
pub open spec fn all_digits(s: Seq<char>) -> bool {
    forall|i: int| 0 <= i < s.len() ==> is_digit(#[trigger] s[i])
}

/// The number that the decimal digits `s` denote.
pub open spec fn number(s: Seq<char>) -> nat
    decreases s.len(),
{
    if s.len() == 0 {
        0
    } else {
        number(s.drop_last()) * 10 + digit_value(s.last())
    }
}

/// The number that `s` denotes, if it is a number of at most `max`: an
/// optional plus sign followed by one or more decimal digits.
pub open spec fn parse_unsigned(s: Seq<char>, max: nat) -> Option<nat> {
    let digits = if s.len() > 0 && s[0] == '+' {
        s.skip(1)
    } else {
        s
    };
    if digits.len() > 0 && all_digits(digits) && number(digits) <= max {
        Some(number(digits))
    } else {
        None
    }
}

/// The number that `s` denotes, if it is a number from `min` to `max`: an
/// optional plus or minus sign followed by one or more decimal digits.
pub open spec fn parse_signed(s: Seq<char>, min: int, max: int) -> Option<int> {
    let negative = s.len() > 0 && s[0] == '-';
    let digits = if s.len() > 0 && (s[0] == '+' || s[0] == '-') {
        s.skip(1)
    } else {
        s
    };
    let value = if negative {
        -(number(digits) as int)
    } else {
        number(digits) as int
    };
    if digits.len() > 0 && all_digits(digits) && min <= value <= max {
        Some(value)
    } else {
        None
    }
}

/// The numbers of 32 bits that `items` denote, if each of them denotes one.
pub open spec fn numbers_u32(items: Seq<Seq<char>>) -> Option<Seq<u32>> {
    if forall|i: int|
        0 <= i < items.len() ==> (#[trigger] parse_unsigned(items[i], u32::MAX as nat)) is Some {
        Some(Seq::new(items.len(), |i: int| parse_unsigned(items[i], u32::MAX as nat)->0 as u32))
    } else {
        None
    }
}

/// The numbers of 64 bits that `items` denote, if each of them denotes one.
pub open spec fn numbers_u64(items: Seq<Seq<char>>) -> Option<Seq<u64>> {
    if forall|i: int|
        0 <= i < items.len() ==> (#[trigger] parse_unsigned(items[i], u64::MAX as nat)) is Some {
        Some(Seq::new(items.len(), |i: int| parse_unsigned(items[i], u64::MAX as nat)->0 as u64))
    } else {
        None
    }
}

/// The character of the decimal digit `d`.
pub open spec fn digit_char(d: nat) -> char {
    ('0' as nat + d) as char
}

/// The decimal digits of `n`, without leading zeros.
pub open spec fn decimal(n: nat) -> Seq<char>
    decreases n,
{
    if n < 10 {
        seq![digit_char(n)]
    } else {
        decimal(n / 10).push(digit_char(n % 10))
    }
}

/// The decimal form of the integer `n`, with a minus sign if it is negative.
pub open spec fn signed_decimal(n: int) -> Seq<char> {
    if n < 0 {
        seq!['-'] + decimal((-n) as nat)
    } else {
        decimal(n as nat)
    }
}

/// Whether `word` stands in `s` at position `at`.
pub open spec fn occurs_at(s: Seq<char>, word: Seq<char>, at: int) -> bool {
    0 <= at && at + word.len() <= s.len() && s.subrange(at, at + word.len()) == word
}

/// Whether `word` stands somewhere in `s`.
pub open spec fn contains_word(s: Seq<char>, word: Seq<char>) -> bool {
    exists|at: int| occurs_at(s, word, at)
}

/// The characters of `s`, in order.
pub fn chars_of(s: &str) -> (v: Vec<char>)
    ensures
        v@ == s@,
{
    let mut v: Vec<char> = Vec::new();
    for c in it: s.chars()
        invariant
            v@ == it.seq().take(it.index()),
            it.seq() == s@,
    {
        v.push(c);
    }
    v
}

/// The characters of `s` from `from` up to `to`.
pub fn copy_range(s: &Vec<char>, from: usize, to: usize) -> (v: Vec<char>)
    requires
        from <= to <= s.len(),
    ensures
        v@ == s@.subrange(from as int, to as int),
{
    let mut v: Vec<char> = Vec::new();
    let mut i: usize = from;
    while i < to
        invariant
            from <= i <= to <= s.len(),
            v@ == s@.subrange(from as int, i as int),
        decreases to - i,
    {
        v.push(s[i]);
        assert(s@.subrange(from as int, i as int).push(s@[i as int]) =~= s@.subrange(
            from as int,
            i + 1,
        ));
        i += 1;
    }
    v
}

/// Whether `c` is a blank.
pub fn is_blank(c: char) -> (b: bool)
    ensures
        b == is_space(c),
{
    c == ' ' || (c >= '\t' && c <= '\r') || c == '\u{85}' || c == '\u{a0}' || c == '\u{1680}' || (c
        >= '\u{2000}' && c <= '\u{200a}') || c == '\u{2028}' || c == '\u{2029}' || c == '\u{202f}'
        || c == '\u{205f}' || c == '\u{3000}'
}

/// The value of `c` as a decimal digit, if it is one.
pub fn digit_of(c: char) -> (d: Option<u8>)
    ensures
        d is Some <==> is_digit(c),
        d is Some ==> d->0 == digit_value(c),
{
    if c >= '0' && c <= '9' {
        Some((c as u32 - '0' as u32) as u8)
    } else {
        None
    }
}

/// Splits `s` at every occurrence of `sep`.
pub fn split(s: &Vec<char>, sep: char) -> (pieces: Vec<Vec<char>>)
    ensures
        views(pieces@) == split_on(s@, sep),
{
    let mut done: Vec<Vec<char>> = Vec::new();
    let mut cur: Vec<char> = Vec::new();
    let mut i: usize = 0;
    assert(s@.take(0) =~= Seq::<char>::empty());
    assert(views(done@).push(cur@) =~= seq![Seq::<char>::empty()]);
    while i < s.len()
        invariant
            i <= s.len(),
            views(done@).push(cur@) == split_on(s@.take(i as int), sep),
        decreases s.len() - i,
    {
        let c = s[i];
        let ghost prev = split_on(s@.take(i as int), sep);
        let ghost old_done = done@;
        let ghost old_cur = cur@;
        proof {
            assert(s@.take(i + 1).drop_last() =~= s@.take(i as int));
            assert(s@.take(i + 1).last() == c);
        }
        if c == sep {
            done.push(cur);
            cur = Vec::new();
            assert(views(done@) =~= views(old_done).push(old_cur));
        } else {
            cur.push(c);
            assert(prev.drop_last() =~= views(old_done));
            assert(prev.last() == old_cur);
        }
        i += 1;
    }
    assert(s@.take(s.len() as int) =~= s@);
    let ghost before = views(done@);
    let ghost last = cur@;
    done.push(cur);
    assert(views(done@) =~= before.push(last));
    done
}


/// Splits `s` into its words.
pub fn split_whitespace(s: &Vec<char>) -> (found: Vec<Vec<char>>)
    ensures
        views(found@) == words(s@),
{
    let mut done: Vec<Vec<char>> = Vec::new();
    let mut cur: Vec<char> = Vec::new();
    let mut i: usize = 0;
    assert(s@.take(0) =~= Seq::<char>::empty());
    assert(views(done@) =~= Seq::<Seq<char>>::empty());
    while i < s.len()
        invariant
            i <= s.len(),
            cur.len() > 0 <==> i > 0 && !is_space(s@[i - 1]),
            words(s@.take(i as int)) == (if cur.len() > 0 {
                views(done@).push(cur@)
            } else {
                views(done@)
            }),
        decreases s.len() - i,
    {
        let c = s[i];
        let ghost prev = words(s@.take(i as int));
        let ghost old_done = done@;
        let ghost old_cur = cur@;
        proof {
            assert(s@.take(i + 1).drop_last() =~= s@.take(i as int));
            assert(s@.take(i + 1).last() == c);
            if i > 0 {
                assert(s@.take(i + 1)[i - 1] == s@[i - 1]);
            }
        }
        if is_blank(c) {
            if cur.len() > 0 {
                done.push(cur);
                cur = Vec::new();
                assert(views(done@) =~= views(old_done).push(old_cur));
            }
        } else {
            cur.push(c);
            proof {
                if old_cur.len() > 0 {
                    assert(prev.drop_last() =~= views(old_done));
                    assert(prev.last() == old_cur);
                } else {
                    assert(cur@ =~= seq![c]);
                }
            }
        }
        i += 1;
    }
    assert(s@.take(s.len() as int) =~= s@);
    if cur.len() > 0 {
        let ghost before = views(done@);
        let ghost last = cur@;
        done.push(cur);
        assert(views(done@) =~= before.push(last));
    }
    done
}

/// Removes the blanks at the start and at the end of `s`.
pub fn trimmed(s: &Vec<char>) -> (t: Vec<char>)
    ensures
        t@ == trim(s@),
{
    let mut end: usize = s.len();
    assert(s@.take(end as int) =~= s@);
    while end > 0 && is_blank(s[end - 1])
        invariant
            end <= s.len(),
            trim_end(s@) == trim_end(s@.take(end as int)),
        decreases end,
    {
        assert(s@.take(end as int).drop_last() =~= s@.take(end - 1));
        end -= 1;
    }
    let ghost kept = s@.take(end as int);
    assert(trim_end(s@) == kept);
    let mut start: usize = 0;
    assert(kept.skip(0) =~= kept);
    while start < end && is_blank(s[start])
        invariant
            start <= end <= s.len(),
            kept == s@.take(end as int),
            trim_start(kept) == trim_start(kept.skip(start as int)),
        decreases end - start,
    {
        assert(kept.skip(start as int).drop_first() =~= kept.skip(start + 1));
        start += 1;
    }
    assert(kept.skip(start as int) =~= s@.subrange(start as int, end as int));
    copy_range(s, start, end)
}

/// Splits `s` into its lines.
pub fn lines_of(s: &Vec<char>) -> (found: Vec<Vec<char>>)
    ensures
        views(found@) == lines(s@),
{
    let pieces = split(s, '\n');
    let ghost spec_pieces = split_on(s@, '\n');
    assert(pieces.len() >= 1) by {
        lemma_split_on_len(s@, '\n');
    }
    let mut found: Vec<Vec<char>> = Vec::new();
    let last: usize = pieces.len() - 1;
    let mut i: usize = 0;
    while i < last
        invariant
            i <= last,
            last == pieces.len() - 1,
            views(pieces@) == spec_pieces,
            views(found@) == Seq::new(i as nat, |k: int| strip_cr(spec_pieces[k])),
        decreases last - i,
    {
        let piece = &pieces[i];
        assert(piece@ == spec_pieces[i as int]);
        let n: usize = piece.len();
        let line = if n > 0 && piece[n - 1] == '\r' {
            copy_range(piece, 0, n - 1)
        } else {
            copy_range(piece, 0, n)
        };
        assert(line@ =~= strip_cr(piece@));
        let ghost before = views(found@);
        found.push(line);
        assert(views(found@) =~= before.push(strip_cr(spec_pieces[i as int])));
        assert(before.push(strip_cr(spec_pieces[i as int])) =~= Seq::new(
            (i + 1) as nat,
            |k: int| strip_cr(spec_pieces[k]),
        ));
        i += 1;
    }
    let tail = &pieces[last];
    assert(tail@ == spec_pieces.last());
    if tail.len() > 0 {
        let ghost before = views(found@);
        let line = copy_range(tail, 0, tail.len());
        assert(line@ =~= tail@);
        found.push(line);
        assert(views(found@) =~= before.push(tail@));
    }
    found
}

/// A text is split into at least one piece.
pub proof fn lemma_split_on_len(s: Seq<char>, sep: char)
    ensures
        split_on(s, sep).len() >= 1,
    decreases s.len(),
{
    if s.len() > 0 {
        lemma_split_on_len(s.drop_last(), sep);
    }
}

/// The digits at the start of a row of digits denote no more than the row.
pub proof fn lemma_number_grows(s: Seq<char>, k: int)
    requires
        0 <= k <= s.len(),
    ensures
        number(s.take(k)) <= number(s),
    decreases s.len() - k,
{
    if k < s.len() {
        lemma_number_grows(s, k + 1);
        assert(s.take(k + 1).drop_last() =~= s.take(k));
    } else {
        assert(s.take(k) =~= s);
    }
}

/// Reads the digits of `s` from `start` on as a number of at most `max`.
fn parse_digits(s: &Vec<char>, start: usize, max: u64) -> (r: Option<u64>)
    requires
        start <= s.len(),
    ensures
        r is Some <==> s@.skip(start as int).len() > 0 && all_digits(s@.skip(start as int))
            && number(s@.skip(start as int)) <= max,
        r is Some ==> r->0 == number(s@.skip(start as int)),
{
    let ghost digits = s@.skip(start as int);
    if start == s.len() {
        return None;
    }
    let mut acc: u64 = 0;
    let mut i: usize = start;
    assert(digits.take(0) =~= Seq::<char>::empty());
    while i < s.len()
        invariant
            start <= i <= s.len(),
            digits == s@.skip(start as int),
            all_digits(digits.take(i - start)),
            acc == number(digits.take(i - start)),
            acc <= max,
        decreases s.len() - i,
    {
        proof {
            assert(digits.take(i + 1 - start).drop_last() =~= digits.take(i - start));
            assert(digits.take(i + 1 - start).last() == s@[i as int]);
            assert(digits[i - start] == s@[i as int]);
        }
        match digit_of(s[i]) {
            None => {
                return None;
            },
            Some(d) => {
                let next: u128 = acc as u128 * 10 + d as u128;
                if next > max as u128 {
                    proof {
                        if all_digits(digits) {
                            lemma_number_grows(digits, i + 1 - start);
                        }
                    }
                    return None;
                }
                acc = next as u64;
                proof {
                    let grown = digits.take(i + 1 - start);
                    assert forall|k: int| 0 <= k < grown.len() implies is_digit(
                        #[trigger] grown[k],
                    ) by {
                        if k < i - start {
                            assert(grown[k] == digits.take(i - start)[k]);
                        }
                    }
                }
            },
        }
        i += 1;
    }
    assert(digits.take(s.len() - start) =~= digits);
    Some(acc)
}

/// Reads `s` as a number of at most `max`.
pub fn parse_number(s: &Vec<char>, max: u64) -> (r: Option<u64>)
    ensures
        r is Some <==> parse_unsigned(s@, max as nat) is Some,
        r is Some ==> r->0 == parse_unsigned(s@, max as nat)->0,
{
    if s.len() > 0 && s[0] == '+' {
        parse_digits(s, 1, max)
    } else {
        assert(s@.skip(0) =~= s@);
        parse_digits(s, 0, max)
    }
}

/// Reads `s` as a number of 8 bits.
pub fn parse_u8(s: &Vec<char>) -> (r: Option<u8>)
    ensures
        r is Some <==> parse_unsigned(s@, u8::MAX as nat) is Some,
        r is Some ==> r->0 == parse_unsigned(s@, u8::MAX as nat)->0,
{
    match parse_number(s, u8::MAX as u64) {
        Some(v) => Some(v as u8),
        None => None,
    }
}

/// Reads `s` as a number of 32 bits.
pub fn parse_u32(s: &Vec<char>) -> (r: Option<u32>)
    ensures
        r is Some <==> parse_unsigned(s@, u32::MAX as nat) is Some,
        r is Some ==> r->0 == parse_unsigned(s@, u32::MAX as nat)->0,
{
    match parse_number(s, u32::MAX as u64) {
        Some(v) => Some(v as u32),
        None => None,
    }
}

/// Reads `s` as a number of 64 bits.
pub fn parse_u64(s: &Vec<char>) -> (r: Option<u64>)
    ensures
        r is Some <==> parse_unsigned(s@, u64::MAX as nat) is Some,
        r is Some ==> r->0 == parse_unsigned(s@, u64::MAX as nat)->0,
{
    parse_number(s, u64::MAX)
}

/// Reads `s` as a signed number of 64 bits.
pub fn parse_i64(s: &Vec<char>) -> (r: Option<i64>)
    ensures
        r is Some <==> parse_signed(s@, i64::MIN as int, i64::MAX as int) is Some,
        r is Some ==> r->0 == parse_signed(s@, i64::MIN as int, i64::MAX as int)->0,
{
    if s.len() > 0 && s[0] == '-' {
        match parse_digits(s, 1, 0x8000_0000_0000_0000u64) {
            Some(v) => {
                if v == 0x8000_0000_0000_0000u64 {
                    Some(i64::MIN)
                } else {
                    Some(-(v as i64))
                }
            },
            None => None,
        }
    } else if s.len() > 0 && s[0] == '+' {
        match parse_digits(s, 1, i64::MAX as u64) {
            Some(v) => Some(v as i64),
            None => None,
        }
    } else {
        assert(s@.skip(0) =~= s@);
        match parse_digits(s, 0, i64::MAX as u64) {
            Some(v) => Some(v as i64),
            None => None,
        }
    }
}

/// The text of one decimal digit.
fn digit_text(d: u8) -> (t: &'static str)
    requires
        d < 10,
    ensures
        t@ == seq![digit_char(d as nat)],
{
    proof {
        reveal_strlit("0");
        reveal_strlit("1");
        reveal_strlit("2");
        reveal_strlit("3");
        reveal_strlit("4");
        reveal_strlit("5");
        reveal_strlit("6");
        reveal_strlit("7");
        reveal_strlit("8");
        reveal_strlit("9");
    }
    let t = match d {
        0 => "0",
        1 => "1",
        2 => "2",
        3 => "3",
        4 => "4",
        5 => "5",
        6 => "6",
        7 => "7",
        8 => "8",
        _ => "9",
    };
    assert(t@ =~= seq![digit_char(d as nat)]);
    t
}

/// Writes `n` in decimal digits.
pub fn decimal_string(n: u64) -> (t: String)
    ensures
        t@ == decimal(n as nat),
    decreases n,
{
    if n < 10 {
        String::from_str(digit_text(n as u8))
    } else {
        let mut t = decimal_string(n / 10);
        let ghost front = t@;
        t.append(digit_text((n % 10) as u8));
        assert(t@ =~= front.push(digit_char((n % 10) as nat)));
        t
    }
}

/// Writes `n` in decimal digits, with a minus sign if it is negative.
pub fn signed_decimal_string(n: i64) -> (t: String)
    ensures
        t@ == signed_decimal(n as int),
{
    if n < 0 {
        let size: u64 = (-(n + 1)) as u64 + 1;
        let digits = decimal_string(size);
        proof {
            reveal_strlit("-");
        }
        let mut t = String::from_str("-");
        assert(t@ =~= seq!['-']);
        t.append(digits.as_str());
        t
    } else {
        decimal_string(n as u64)
    }
}

/// Whether `word` stands somewhere in `s`.
pub fn contains(s: &Vec<char>, word: &Vec<char>) -> (found: bool)
    ensures
        found == contains_word(s@, word@),
{
    if word.len() > s.len() {
        assert forall|at: int| !occurs_at(s@, word@, at) by {}
        return false;
    }
    let last: usize = s.len() - word.len();
    let mut at: usize = 0;
    loop
        invariant
            at <= last,
            last == s.len() - word.len(),
            forall|k: int| 0 <= k < at ==> !occurs_at(s@, word@, k),
        decreases last - at,
    {
        let mut k: usize = 0;
        while k < word.len() && s[at + k] == word[k]
            invariant
                at <= last,
                last == s.len() - word.len(),
                k <= word.len(),
                forall|j: int| 0 <= j < k ==> s@[at + j] == word@[j],
            decreases word.len() - k,
        {
            k += 1;
        }
        if k == word.len() {
            assert(s@.subrange(at as int, at + word.len()) =~= word@);
            assert(occurs_at(s@, word@, at as int));
            return true;
        }
        assert(!occurs_at(s@, word@, at as int)) by {
            if occurs_at(s@, word@, at as int) {
                assert(s@.subrange(at as int, at + word.len())[k as int] == word@[k as int]);
            }
        }
        if at == last {
            assert forall|j: int| !occurs_at(s@, word@, j) by {}
            return false;
        }
        at += 1;
    }
}


/// Finds the place of the first `c` in `s`.
pub fn find_char(s: &Vec<char>, c: char) -> (found: Option<usize>)
    ensures
        found is Some <==> index_of(s@, c) is Some,
        found is Some ==> found->0 == index_of(s@, c)->0 && found->0 < s.len(),
{
    let mut i: usize = 0;
    assert(s@.take(0) =~= Seq::<char>::empty());
    while i < s.len()
        invariant
            i <= s.len(),
            index_of(s@.take(i as int), c) is None,
        decreases s.len() - i,
    {
        assert(s@.take(i + 1).drop_last() =~= s@.take(i as int));
        if s[i] == c {
            proof {
                lemma_index_of_kept(s@, c, i + 1);
            }
            return Some(i);
        }
        i += 1;
    }
    assert(s@.take(s.len() as int) =~= s@);
    None
}

/// A `c` found among the first `k` characters of `s` is the first in `s`.
pub proof fn lemma_index_of_kept(s: Seq<char>, c: char, k: int)
    requires
        0 <= k <= s.len(),
        index_of(s.take(k), c) is Some,
    ensures
        index_of(s, c) == index_of(s.take(k), c),
    decreases s.len() - k,
{
    if k < s.len() {
        assert(s.take(k + 1).drop_last() =~= s.take(k));
        lemma_index_of_kept(s, c, k + 1);
    } else {
        assert(s.take(k) =~= s);
    }
}


/// Reads each of `items` as a number of 32 bits.
pub fn read_numbers_u32(items: &Vec<Vec<char>>) -> (found: Option<Vec<u32>>)
    ensures
        found is Some <==> numbers_u32(views(items@)) is Some,
        found is Some ==> found->0@ == numbers_u32(views(items@))->0,
{
    let mut values: Vec<u32> = Vec::new();
    let mut i: usize = 0;
    while i < items.len()
        invariant
            i <= items.len(),
            values.len() == i,
            forall|k: int|
                0 <= k < i ==> (#[trigger] parse_unsigned(views(items@)[k], u32::MAX as nat))
                    == Some(values[k] as nat),
        decreases items.len() - i,
    {
        match parse_u32(&items[i]) {
            Some(v) => {
                values.push(v);
            },
            None => {
                assert(parse_unsigned(views(items@)[i as int], u32::MAX as nat) is None);
                return None;
            },
        }
        i += 1;
    }
    assert(values@ =~= numbers_u32(views(items@))->0);
    Some(values)
}

/// Reads each of `items` as a number of 64 bits.
pub fn read_numbers_u64(items: &Vec<Vec<char>>) -> (found: Option<Vec<u64>>)
    ensures
        found is Some <==> numbers_u64(views(items@)) is Some,
        found is Some ==> found->0@ == numbers_u64(views(items@))->0,
{
    let mut values: Vec<u64> = Vec::new();
    let mut i: usize = 0;
    while i < items.len()
        invariant
            i <= items.len(),
            values.len() == i,
            forall|k: int|
                0 <= k < i ==> (#[trigger] parse_unsigned(views(items@)[k], u64::MAX as nat))
                    == Some(values[k] as nat),
        decreases items.len() - i,
    {
        match parse_u64(&items[i]) {
            Some(v) => {
                values.push(v);
            },
            None => {
                assert(parse_unsigned(views(items@)[i as int], u64::MAX as nat) is None);
                return None;
            },
        }
        i += 1;
    }
    assert(values@ =~= numbers_u64(views(items@))->0);
    Some(values)
}


/// Splits the text `s` at every occurrence of `sep`.
pub fn split_str<'a>(s: &'a str, sep: char) -> (pieces: Vec<&'a str>)
    ensures
        str_views(pieces@) == split_on(s@, sep),
{
    let chars = chars_of(s);
    let mut done: Vec<&'a str> = Vec::new();
    let mut start: usize = 0;
    let mut i: usize = 0;
    assert(s@.take(0) =~= Seq::<char>::empty());
    assert(str_views(done@).push(s@.subrange(0, 0)) =~= seq![Seq::<char>::empty()]);
    while i < chars.len()
        invariant
            start <= i <= chars.len(),
            chars@ == s@,
            str_views(done@).push(s@.subrange(start as int, i as int)) == split_on(
                s@.take(i as int),
                sep,
            ),
        decreases chars.len() - i,
    {
        let c = chars[i];
        let ghost prev = split_on(s@.take(i as int), sep);
        let ghost old_done = str_views(done@);
        let ghost cur = s@.subrange(start as int, i as int);
        proof {
            assert(s@.take(i + 1).drop_last() =~= s@.take(i as int));
            assert(s@.take(i + 1).last() == c);
            assert(prev.drop_last() =~= old_done);
            assert(prev.last() == cur);
        }
        if c == sep {
            done.push(s.substring_char(start, i));
            start = i + 1;
            assert(str_views(done@) =~= old_done.push(cur));
            assert(s@.subrange(start as int, i + 1) =~= Seq::<char>::empty());
        } else {
            assert(s@.subrange(start as int, i + 1) =~= cur.push(c));
        }
        i += 1;
    }
    assert(s@.take(chars.len() as int) =~= s@);
    let ghost before = str_views(done@);
    done.push(s.substring_char(start, chars.len()));
    assert(str_views(done@) =~= before.push(s@.subrange(start as int, chars.len() as int)));
    done
}

/// Whether two rows of characters are the same.
pub fn same_chars(a: &Vec<char>, b: &Vec<char>) -> (same: bool)
    ensures
        same == (a@ == b@),
{
    if a.len() != b.len() {
        return false;
    }
    let mut i: usize = 0;
    while i < a.len()
        invariant
            i <= a.len(),
            a.len() == b.len(),
            forall|k: int| 0 <= k < i ==> a@[k] == b@[k],
        decreases a.len() - i,
    {
        if a[i] != b[i] {
            return false;
        }
        i += 1;
    }
    assert(a@ =~= b@);
    true
}


/// Splits `s` into its blocks.
pub fn blocks_of(s: &Vec<char>) -> (found: Vec<Vec<char>>)
    ensures
        views(found@) == blocks(s@),
{
    let n: usize = s.len();
    let mut done: Vec<Vec<char>> = Vec::new();
    let mut start: usize = 0;
    let mut i: usize = 0;
    assert(s@.skip(0) =~= s@);
    assert(views(done@) + blocks(s@.skip(0)) =~= blocks(s@));
    while i < n
        invariant
            start <= i <= n,
            n == s.len(),
            views(done@) + blocks(s@.skip(start as int)) == blocks(s@),
            first_gap(s@.skip(start as int), 0) == first_gap(s@.skip(start as int), i - start),
        decreases n - i,
    {
        let ghost tail = s@.skip(start as int);
        if s[i] == '\n' && i + 1 < n && s[i + 1] == '\n' {
            proof {
                assert(gap_at(tail, i - start));
                assert(tail.take(i - start) =~= s@.subrange(start as int, i as int));
                assert(tail.skip(i - start + 2) =~= s@.skip(i + 2));
            }
            let ghost before = views(done@);
            done.push(copy_range(s, start, i));
            assert(views(done@) =~= before.push(s@.subrange(start as int, i as int)));
            assert(views(done@) + blocks(s@.skip(i + 2)) =~= before + (seq![
                s@.subrange(start as int, i as int),
            ] + blocks(s@.skip(i + 2))));
            i += 2;
            start = i;
        } else {
            assert(!gap_at(tail, i - start));
            i += 1;
        }
    }
    let ghost tail = s@.skip(start as int);
    assert(first_gap(tail, n - start) is None);
    let ghost before = views(done@);
    done.push(copy_range(s, start, n));
    assert(s@.subrange(start as int, n as int) =~= tail);
    assert(views(done@) =~= before + seq![tail]);
    done
}


/// Splits the text `s` into its lines.
pub fn lines_str<'a>(s: &'a str) -> (found: Vec<&'a str>)
    ensures
        str_views(found@) == lines(s@),
{
    let pieces = split_str(s, '\n');
    let ghost spec_pieces = split_on(s@, '\n');
    assert(pieces.len() >= 1) by {
        lemma_split_on_len(s@, '\n');
    }
    let mut found: Vec<&'a str> = Vec::new();
    let last: usize = pieces.len() - 1;
    let mut i: usize = 0;
    while i < last
        invariant
            i <= last,
            last == pieces.len() - 1,
            str_views(pieces@) == spec_pieces,
            str_views(found@) == Seq::new(i as nat, |k: int| strip_cr(spec_pieces[k])),
        decreases last - i,
    {
        let piece: &'a str = pieces[i];
        assert(piece@ == spec_pieces[i as int]);
        let n: usize = piece.unicode_len();
        let line: &'a str = if n > 0 && piece.get_char(n - 1) == '\r' {
            piece.substring_char(0, n - 1)
        } else {
            piece
        };
        assert(line@ =~= strip_cr(piece@));
        let ghost before = str_views(found@);
        found.push(line);
        assert(str_views(found@) =~= before.push(strip_cr(spec_pieces[i as int])));
        assert(before.push(strip_cr(spec_pieces[i as int])) =~= Seq::new(
            (i + 1) as nat,
            |k: int| strip_cr(spec_pieces[k]),
        ));
        i += 1;
    }
    let tail: &'a str = pieces[last];
    assert(tail@ == spec_pieces.last());
    if tail.unicode_len() > 0 {
        let ghost before = str_views(found@);
        found.push(tail);
        assert(str_views(found@) =~= before.push(tail@));
    }
    found
}


/// The number of bytes that the character `c` takes in a text.
pub fn width_of(c: char) -> (n: u8)
    ensures
        n == byte_width(c),
{
    if c <= '\u{7f}' {
        1
    } else if c <= '\u{7ff}' {
        2
    } else if c <= '\u{ffff}' {
        3
    } else {
        4
    }
}

/// Finds the number of characters of `s` that take its first `at` bytes.
pub fn find_boundary(s: &Vec<char>, at: usize) -> (found: Option<usize>)
    ensures
        found is Some <==> boundary(s@, at as int, 0) is Some,
        found is Some ==> found->0 == boundary(s@, at as int, 0)->0 && found->0 <= s.len(),
{
    let mut bytes: u128 = 0;
    let mut k: usize = 0;
    assert(s@.take(0) =~= Seq::<char>::empty());
    while k < s.len() && bytes < at as u128
        invariant
            k <= s.len(),
            bytes == byte_len(s@.take(k as int)),
            bytes < at + 4,
            boundary(s@, at as int, 0) == boundary(s@, at as int, k as int),
        decreases s.len() - k,
    {
        assert(s@.take(k + 1).drop_last() =~= s@.take(k as int));
        bytes = bytes + width_of(s[k]) as u128;
        k += 1;
    }
    if bytes == at as u128 {
        Some(k)
    } else {
        None
    }
}

/// The part of the text `s` that takes its bytes from `from` up to `to`, if a
/// character starts, or the text ends, at each of these two bytes.
pub fn slice_bytes<'a>(s: &'a str, from: usize, to: usize) -> (found: Option<&'a str>)
    ensures
        found is Some <==> byte_slice(s@, from as int, to as int) is Some,
        found is Some ==> found->0@ == byte_slice(s@, from as int, to as int)->0,
{
    let chars = chars_of(s);
    match (find_boundary(&chars, from), find_boundary(&chars, to)) {
        (Some(a), Some(b)) => {
            if a <= b {
                Some(s.substring_char(a, b))
            } else {
                None
            }
        },
        _ => None,
    }
}

} // verus!
