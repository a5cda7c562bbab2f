//! Text as characters: fields, lines, trimming, and whole numbers.
#[allow(unused_imports)]
use crate::text::is_white_space;
use crate::text::white_space;
use vstd::prelude::*;
use vstd::string::*;

verus! {

/// The characters of a text.
pub fn characters(text: &str) -> (out: Vec<char>)
    ensures
        out@ == text@,
{
    let mut out: Vec<char> = Vec::new();
    for c in it: text.chars()
        invariant
            it.seq() == text@,
            out@ == text@.take(it.index() as int),
    {
        out.push(c);
        assert(out@ =~= text@.take(it.index() as int + 1));
    }
    assert(text@.take(text@.len() as int) =~= text@);
    out
}

/// `String::push`: appends one character.
#[verifier::external_body]
pub(crate) fn push_char(out: &mut String, c: char)
    ensures
        final(out)@ == old(out)@.push(c),
{
    out.push(c);
}

/// The text of some characters.
pub fn text_of(characters: &[char]) -> (text: String)
    ensures
        text@ == characters@,
{
    let mut text = String::new();
    let mut i: usize = 0;
    while i < characters.len()
        invariant
            i <= characters@.len(),
            text@ == characters@.take(i as int),
        decreases characters@.len() - i,
    {
        push_char(&mut text, characters[i]);
        i = i + 1;
        assert(text@ =~= characters@.take(i as int));
    }
    assert(characters@.take(i as int) =~= characters@);
    text
}

/// The pieces of a text between the places where `separator` stands.
pub open spec fn pieces(text: Seq<char>, separator: char) -> Seq<Seq<char>>
    decreases text.len(),
{
    if text.len() == 0 {
        seq![Seq::<char>::empty()]
    } else {
        let front = pieces(text.drop_last(), separator);
        if text.last() == separator {
            front.push(Seq::<char>::empty())
        } else {
            front.drop_last().push(front.last().push(text.last()))
        }
    }
}

pub proof fn lemma_some_piece(text: Seq<char>, separator: char)
    ensures
        pieces(text, separator).len() >= 1,
    decreases text.len(),
{
    if text.len() > 0 {
        lemma_some_piece(text.drop_last(), separator);
    }
}

/// Characters of characters, as a sequence of texts.
pub open spec fn texts(v: Seq<Vec<char>>) -> Seq<Seq<char>> {
    Seq::new(v.len(), |i: int| v[i]@)
}

/// Splits characters at each `separator`.
pub fn split(text: &[char], separator: char) -> (out: Vec<Vec<char>>)
    ensures
        texts(out@) == pieces(text@, separator),
        out@.len() >= 1,
{
    let mut out: Vec<Vec<char>> = Vec::new();
    let mut current: Vec<char> = Vec::new();
    let mut i: usize = 0;
    assert(texts(out@).push(current@) =~= pieces(text@.take(0), separator));
    while i < text.len()
        invariant
            i <= text@.len(),
            texts(out@).push(current@) == pieces(text@.take(i as int), separator),
        decreases text@.len() - i,
    {
        let c: char = text[i];
        let ghost before = texts(out@);
        proof {
            let longer = text@.take(i + 1);
            assert(longer.drop_last() =~= text@.take(i as int));
            assert(longer.last() == c);
            assert(before.push(current@).drop_last() =~= before);
        }
        if c == separator {
            let done = current;
            current = Vec::new();
            let ghost held = done@;
            out.push(done);
            assert(texts(out@) =~= before.push(held));
        } else {
            current.push(c);
        }
        i = i + 1;
        assert(texts(out@).push(current@) =~= pieces(text@.take(i as int), separator));
    }
    let ghost before = texts(out@);
    let ghost held = current@;
    out.push(current);
    assert(texts(out@) =~= before.push(held));
    assert(text@.take(i as int) =~= text@);
    out
}

/// A line without the carriage return that its line feed follows.
pub open spec fn ended_line(piece: Seq<char>) -> Seq<char> {
    if piece.len() > 0 && piece.last() == '\r' {
        piece.drop_last()
    } else {
        piece
    }
}

/// The lines of a text. A line ends with a line feed, before which a carriage
/// return may stand; the last line may lack its end.
pub open spec fn lines_of(text: Seq<char>) -> Seq<Seq<char>> {
    let p = pieces(text, '\n');
    let ended = Seq::new((p.len() - 1) as nat, |i: int| ended_line(p[i]));
    if p.last().len() == 0 {
        ended
    } else {
        ended.push(p.last())
    }
}

/// The lines of `text`.
pub fn lines(text: &[char]) -> (out: Vec<Vec<char>>)
    ensures
        texts(out@) == lines_of(text@),
{
    let mut parts = split(text, '\n');
    let ghost p = texts(parts@);
    let n: usize = parts.len();
    let last: Vec<char> = match parts.pop() {
        Some(last) => last,
        None => Vec::new(),
    };
    assert(last@ == p.last());
    assert(parts@.len() == n - 1);
    assert(forall|i: int| 0 <= i < n - 1 ==> #[trigger] parts@[i]@ == p[i]);
    let mut out: Vec<Vec<char>> = Vec::new();
    let mut i: usize = 0;
    while i < parts.len()
        invariant
            i <= parts@.len(),
            parts@.len() == p.len() - 1,
            forall|k: int| 0 <= k < parts@.len() ==> #[trigger] parts@[k]@ == p[k],
            texts(out@) == Seq::new(i as nat, |k: int| ended_line(p[k])),
        decreases parts@.len() - i,
    {
        let ghost before = texts(out@);
        let mut line: Vec<char> = Vec::new();
        let len: usize = parts[i].len();
        let keep: usize = if len > 0 && parts[i][len - 1] == '\r' {
            len - 1
        } else {
            len
        };
        let mut k: usize = 0;
        while k < keep
            invariant
                i < parts@.len(),
                k <= keep <= parts@[i as int]@.len(),
                line@ == parts@[i as int]@.take(k as int),
            decreases keep - k,
        {
            line.push(parts[i][k]);
            k = k + 1;
            assert(line@ =~= parts@[i as int]@.take(k as int));
        }
        assert(line@ =~= ended_line(p[i as int])) by {
            assert(parts@[i as int]@ == p[i as int]);
        }
        let ghost shown = line@;
        out.push(line);
        i = i + 1;
        assert(texts(out@) =~= before.push(shown));
        assert(texts(out@) =~= Seq::new(i as nat, |k: int| ended_line(p[k])));
    }
    let ghost before = texts(out@);
    let ghost held = last@;
    if last.len() > 0 {
        out.push(last);
        assert(texts(out@) =~= before.push(held));
    }
    assert(texts(out@) =~= lines_of(text@));
    out
}

/// A text without the white space at its end.
pub open spec fn trimmed_end(text: Seq<char>) -> Seq<char>
    decreases text.len(),
{
    if text.len() > 0 && is_white_space(text.last()) {
        trimmed_end(text.drop_last())
    } else {
        text
    }
}

/// A text without the white space at its start.
pub open spec fn trimmed_start(text: Seq<char>) -> Seq<char>
    decreases text.len(),
{
    if text.len() > 0 && is_white_space(text[0]) {
        trimmed_start(text.skip(1))
    } else {
        text
    }
}

/// A text without the white space at its ends.
pub open spec fn trimmed(text: Seq<char>) -> Seq<char> {
    trimmed_end(trimmed_start(text))
}

/// `text` without the white space at its ends.
pub fn trim(text: &[char]) -> (out: Vec<char>)
    ensures
        out@ == trimmed(text@),
{
    let mut start: usize = 0;
    assert(text@.skip(0) =~= text@);
    while start < text.len() && white_space(text[start])
        invariant
            start <= text@.len(),
            trimmed_start(text@) == trimmed_start(text@.skip(start as int)),
        decreases text@.len() - start,
    {
        assert(text@.skip(start as int).skip(1) =~= text@.skip(start + 1));
        start = start + 1;
    }
    let ghost rest = text@.skip(start as int);
    let mut end: usize = text.len();
    assert(rest.take(rest.len() as int) =~= rest);
    while end > start && white_space(text[end - 1])
        invariant
            start <= end <= text@.len(),
            rest == text@.skip(start as int),
            trimmed_end(rest) == trimmed_end(rest.take(end - start)),
        decreases end,
    {
        proof {
            let now = rest.take(end - start);
            assert(now.last() == text@[end - 1]);
            assert(now.drop_last() =~= rest.take(end - 1 - start));
        }
        end = end - 1;
    }
    let mut out: Vec<char> = Vec::new();
    let mut i: usize = start;
    while i < end
        invariant
            start <= i <= end <= text@.len(),
            rest == text@.skip(start as int),
            out@ == rest.take(i - start),
        decreases end - i,
    {
        out.push(text[i]);
        i = i + 1;
        assert(out@ =~= rest.take(i - start));
    }
    proof {
        let now = rest.take(end - start);
        if end > start {
            assert(now.last() == text@[end - 1]);
        }
        assert(trimmed_start(rest) == rest);
    }
    out
}

/// Why a text is no whole number.
#[derive(Clone, Copy, Debug, PartialEq, Eq, Structural)]
pub enum IntegerFault {
    Empty,
    InvalidDigit,
    PosOverflow,
    NegOverflow,
}

pub open spec fn is_digit(c: char) -> bool {
    0x30 <= c as u32 <= 0x39
}

/// The number that digits stand for, or the fault of the first digit that cannot
/// be taken: one that is no digit, or one that takes the number above `limit`.
pub open spec fn digits_value(
    digits: Seq<char>,
    limit: nat,
    overflow: IntegerFault,
) -> Result<nat, IntegerFault>
    decreases digits.len(),
{
    if digits.len() == 0 {
        Ok(0)
    } else {
        match digits_value(digits.drop_last(), limit, overflow) {
            Err(fault) => Err(fault),
            Ok(value) => if !is_digit(digits.last()) {
                Err(IntegerFault::InvalidDigit)
            } else if value * 10 + (digits.last() as u32 - 0x30) > limit {
                Err(overflow)
            } else {
                Ok((value * 10 + (digits.last() as u32 - 0x30)) as nat)
            },
        }
    }
}

/// The number that a text with an optional plus sign stands for.
pub open spec fn unsigned_value(text: Seq<char>) -> Result<nat, IntegerFault> {
    if text.len() == 0 {
        Err(IntegerFault::Empty)
    } else if text.len() == 1 && (text[0] == '+' || text[0] == '-') {
        Err(IntegerFault::InvalidDigit)
    } else if text[0] == '+' {
        digits_value(text.skip(1), u64::MAX as nat, IntegerFault::PosOverflow)
    } else {
        digits_value(text, u64::MAX as nat, IntegerFault::PosOverflow)
    }
}

/// The number that a text with an optional sign stands for.
pub open spec fn signed_value(text: Seq<char>) -> Result<int, IntegerFault> {
    if text.len() == 0 {
        Err(IntegerFault::Empty)
    } else if text.len() == 1 && (text[0] == '+' || text[0] == '-') {
        Err(IntegerFault::InvalidDigit)
    } else if text[0] == '-' {
        match digits_value(text.skip(1), 0x8000_0000_0000_0000, IntegerFault::NegOverflow) {
            Ok(n) => Ok(-(n as int)),
            Err(fault) => Err(fault),
        }
    } else {
        let digits = if text[0] == '+' {
            text.skip(1)
        } else {
            text
        };
        match digits_value(digits, i64::MAX as nat, IntegerFault::PosOverflow) {
            Ok(n) => Ok(n as int),
            Err(fault) => Err(fault),
        }
    }
}

/// The signed number of 32 bits that a text with an optional sign stands for.
pub open spec fn small_value(text: Seq<char>) -> Result<int, IntegerFault> {
    if text.len() == 0 {
        Err(IntegerFault::Empty)
    } else if text.len() == 1 && (text[0] == '+' || text[0] == '-') {
        Err(IntegerFault::InvalidDigit)
    } else if text[0] == '-' {
        match digits_value(text.skip(1), 0x8000_0000, IntegerFault::NegOverflow) {
            Ok(n) => Ok(-(n as int)),
            Err(fault) => Err(fault),
        }
    } else {
        let digits = if text[0] == '+' {
            text.skip(1)
        } else {
            text
        };
        match digits_value(digits, i32::MAX as nat, IntegerFault::PosOverflow) {
            Ok(n) => Ok(n as int),
            Err(fault) => Err(fault),
        }
    }
}

/// Digits that failed early fail whatever follows them.
proof fn lemma_fault_stays(digits: Seq<char>, n: int, limit: nat, overflow: IntegerFault)
    requires
        0 <= n <= digits.len(),
        digits_value(digits.take(n), limit, overflow) is Err,
    ensures
        digits_value(digits, limit, overflow) == digits_value(digits.take(n), limit, overflow),
    decreases digits.len() - n,
{
    if n < digits.len() {
        assert(digits.take(n + 1).drop_last() =~= digits.take(n));
        lemma_fault_stays(digits, n + 1, limit, overflow);
    } else {
        assert(digits.take(n) =~= digits);
    }
}

fn read_digits(text: &[char], from: usize, limit: u64, overflow: IntegerFault) -> (value: Result<
    u64,
    IntegerFault,
>)
    requires
        from <= text@.len(),
    ensures
        value is Ok <==> digits_value(text@.skip(from as int), limit as nat, overflow) is Ok,
        value matches Ok(v) ==> digits_value(text@.skip(from as int), limit as nat, overflow)
            == Ok::<nat, IntegerFault>(v as nat),
        value matches Err(e) ==> digits_value(text@.skip(from as int), limit as nat, overflow)
            == Err::<nat, IntegerFault>(e),
{
    let ghost digits = text@.skip(from as int);
    let mut value: u64 = 0;
    let mut i: usize = from;
    while i < text.len()
        invariant
            from <= i <= text@.len(),
            digits == text@.skip(from as int),
            value <= limit,
            digits_value(digits.take(i - from), limit as nat, overflow) == Ok::<nat, IntegerFault>(
                value as nat,
            ),
        decreases text@.len() - i,
    {
        let c: u32 = text[i] as u32;
        proof {
            let now = digits.take(i + 1 - from);
            assert(now.drop_last() =~= digits.take(i - from));
            assert(now.last() == text@[i as int]);
        }
        if c < 0x30 || c > 0x39 {
            proof {
                lemma_fault_stays(digits, i + 1 - from, limit as nat, overflow);
            }
            return Err(IntegerFault::InvalidDigit);
        }
        let next: u128 = (value as u128) * 10 + (c - 0x30) as u128;
        if next > limit as u128 {
            proof {
                lemma_fault_stays(digits, i + 1 - from, limit as nat, overflow);
            }
            return Err(overflow);
        }
        value = next as u64;
        i = i + 1;
    }
    assert(digits.take(i - from) =~= digits);
    Ok(value)
}

/// The unsigned number that `text` stands for.
pub fn parse_unsigned(text: &[char]) -> (value: Result<u64, IntegerFault>)
    ensures
        value is Ok <==> unsigned_value(text@) is Ok,
        value matches Ok(v) ==> unsigned_value(text@) == Ok::<nat, IntegerFault>(v as nat),
        value matches Err(e) ==> unsigned_value(text@) == Err::<nat, IntegerFault>(e),
{
    assert(text@.skip(0) =~= text@);
    if text.len() == 0 {
        return Err(IntegerFault::Empty);
    }
    if text.len() == 1 && (text[0] == '+' || text[0] == '-') {
        return Err(IntegerFault::InvalidDigit);
    }
    let from: usize = if text[0] == '+' {
        1
    } else {
        0
    };
    read_digits(text, from, u64::MAX, IntegerFault::PosOverflow)
}

/// The signed number that `text` stands for.
pub fn parse_signed(text: &[char]) -> (value: Result<i64, IntegerFault>)
    ensures
        value is Ok <==> signed_value(text@) is Ok,
        value matches Ok(v) ==> signed_value(text@) == Ok::<int, IntegerFault>(v as int),
        value matches Err(e) ==> signed_value(text@) == Err::<int, IntegerFault>(e),
{
    assert(text@.skip(0) =~= text@);
    if text.len() == 0 {
        return Err(IntegerFault::Empty);
    }
    if text.len() == 1 && (text[0] == '+' || text[0] == '-') {
        return Err(IntegerFault::InvalidDigit);
    }
    if text[0] == '-' {
        let magnitude: u64 = match read_digits(
            text,
            1,
            0x8000_0000_0000_0000,
            IntegerFault::NegOverflow,
        ) {
            Ok(magnitude) => magnitude,
            Err(fault) => return Err(fault),
        };
        return Ok((-(magnitude as i128)) as i64);
    }
    let from: usize = if text[0] == '+' {
        1
    } else {
        0
    };
    match read_digits(text, from, 0x7fff_ffff_ffff_ffff, IntegerFault::PosOverflow) {
        Ok(magnitude) => Ok(magnitude as i64),
        Err(fault) => Err(fault),
    }
}

/// The signed number of 32 bits that `text` stands for.
pub fn parse_small(text: &[char]) -> (value: Result<i32, IntegerFault>)
    ensures
        value is Ok <==> small_value(text@) is Ok,
        value matches Ok(v) ==> small_value(text@) == Ok::<int, IntegerFault>(v as int),
        value matches Err(e) ==> small_value(text@) == Err::<int, IntegerFault>(e),
{
    assert(text@.skip(0) =~= text@);
    if text.len() == 0 {
        return Err(IntegerFault::Empty);
    }
    if text.len() == 1 && (text[0] == '+' || text[0] == '-') {
        return Err(IntegerFault::InvalidDigit);
    }
    if text[0] == '-' {
        let magnitude: u64 = match read_digits(
            text,
            1,
            0x8000_0000,
            IntegerFault::NegOverflow,
        ) {
            Ok(magnitude) => magnitude,
            Err(fault) => return Err(fault),
        };
        return Ok((-(magnitude as i128)) as i32);
    }
    let from: usize = if text[0] == '+' {
        1
    } else {
        0
    };
    match read_digits(text, from, 0x7fff_ffff, IntegerFault::PosOverflow) {
        Ok(magnitude) => Ok(magnitude as i32),
        Err(fault) => Err(fault),
    }
}

/// What a fault says.
pub open spec fn fault_text(fault: IntegerFault) -> Seq<char> {
    match fault {
        IntegerFault::Empty => "cannot parse integer from empty string"@,
        IntegerFault::InvalidDigit => "invalid digit found in string"@,
        IntegerFault::PosOverflow => "number too large to fit in target type"@,
        IntegerFault::NegOverflow => "number too small to fit in target type"@,
    }
}

impl IntegerFault {
    /// What the fault says.
    pub fn text(self) -> (text: &'static str)
        ensures
            text@ == fault_text(self),
    {
        match self {
            IntegerFault::Empty => "cannot parse integer from empty string",
            IntegerFault::InvalidDigit => "invalid digit found in string",
            IntegerFault::PosOverflow => "number too large to fit in target type",
            IntegerFault::NegOverflow => "number too small to fit in target type",
        }
    }
}

/// Whether characters are those of a text.
pub fn characters_are(characters: &[char], text: &str) -> (yes: bool)
    ensures
        yes == (characters@ == text@),
{
    let other = crate::text_scan::characters(text);
    if characters.len() != other.len() {
        return false;
    }
    let mut i: usize = 0;
    while i < characters.len()
        invariant
            i <= characters@.len(),
            characters@.len() == other@.len(),
            other@ == text@,
            characters@.take(i as int) == other@.take(i as int),
        decreases characters@.len() - i,
    {
        if characters[i] != other[i] {
            assert(characters@[i as int] != text@[i as int]);
            return false;
        }
        i = i + 1;
        assert(characters@.take(i as int) =~= other@.take(i as int));
    }
    assert(characters@.take(i as int) =~= characters@);
    assert(other@.take(i as int) =~= other@);
    true
}

} // verus!
