//! What is read from text and loaded from rows of text.
#[allow(unused_imports)]
use crate::manifest::{lemma_first_digit, lemma_padded_value};
#[allow(unused_imports)]
use crate::model::{finite, FloatBits};
#[allow(unused_imports)]
use crate::real_fixture::{
    after_line, after_row, content_of, driver_entity, metric_series, new_records, row_of, row_point,
    LoadModel, Row,
};
#[allow(unused_imports)]
use crate::text::{decimal, is_white_space};
#[allow(unused_imports)]
use crate::text_scan::{
    digits_value, is_digit, lemma_some_piece, lines_of, pieces, signed_value, trimmed, trimmed_end,
    trimmed_start, unsigned_value, IntegerFault,
};
#[allow(unused_imports)]
use crate::transaction::RecordModel;
use vstd::prelude::*;
use vstd::string::*;

verus! {

// Pieces, lines and white space.

/// Texts with a separator between them.
pub open spec fn joined_with(parts: Seq<Seq<char>>, separator: char) -> Seq<char>
    decreases parts.len(),
{
    if parts.len() == 0 {
        Seq::empty()
    } else if parts.len() == 1 {
        parts[0]
    } else {
        joined_with(parts.drop_last(), separator).push(separator) + parts.last()
    }
}

/// The pieces of a text put together again are the text, and no piece holds the separator.
pub proof fn pieces_make_up_the_text(text: Seq<char>, separator: char)
    ensures
        pieces(text, separator).len() >= 1,
        joined_with(pieces(text, separator), separator) == text,
        forall|i: int|
            0 <= i < pieces(text, separator).len() ==> !(#[trigger] pieces(
                text,
                separator,
            )[i]).contains(separator),
    decreases text.len(),
{
    let all = pieces(text, separator);
    if text.len() == 0 {
        assert(all[0] =~= Seq::<char>::empty());
        assert(joined_with(all, separator) =~= text);
    } else {
        let front = pieces(text.drop_last(), separator);
        pieces_make_up_the_text(text.drop_last(), separator);
        let c = text.last();
        if c == separator {
            assert(all.drop_last() =~= front);
            assert(joined_with(all, separator) =~= text);
            assert forall|i: int| 0 <= i < all.len() implies !(#[trigger] all[i]).contains(
                separator,
            ) by {
                if i < front.len() {
                    assert(all[i] == front[i]);
                }
            }
        } else {
            let n = front.len() - 1;
            let grown = front.last().push(c);
            assert(all[n] == grown);
            assert(!front[n].contains(separator));
            assert(!grown.contains(separator)) by {
                if grown.contains(separator) {
                    let j = choose|j: int| 0 <= j < grown.len() && grown[j] == separator;
                    assert(j < front[n].len());
                    assert(front[n][j] == separator);
                }
            }
            assert forall|i: int| 0 <= i < all.len() implies !(#[trigger] all[i]).contains(
                separator,
            ) by {
                if i < n {
                    assert(all[i] == front[i]);
                }
            }
            assert(all.drop_last() =~= front.drop_last());
            assert(text =~= text.drop_last().push(c));
            if n > 0 {
                let base = joined_with(front.drop_last(), separator).push(separator);
                assert(joined_with(front, separator) == base + front.last());
                assert(all.last() == grown);
                assert(joined_with(all, separator) == base + grown);
                assert(base + grown =~= (base + front.last()).push(c));
            }
        }
    }
}

/// The lines of a text are its pieces between line feeds, each without the carriage return
/// before its line feed. What stands behind the last line feed is a line where it is not
/// empty, and keeps a carriage return.
pub proof fn lines_are_pieces(text: Seq<char>, i: int)
    ensures
        ({
            let p = pieces(text, '\n');
            let lines = lines_of(text);
            let ended = p.len() - 1;
            &&& p.last().len() == 0 ==> lines.len() == ended
            &&& p.last().len() > 0 ==> lines.len() == ended + 1 && lines.last() == p.last()
            &&& 0 <= i < ended && p[i].len() > 0 && p[i].last() == '\r' ==> p[i] == lines[i].push(
                '\r',
            )
            &&& 0 <= i < ended && (p[i].len() == 0 || p[i].last() != '\r') ==> lines[i] == p[i]
        }),
{
    let p = pieces(text, '\n');
    lemma_some_piece(text, '\n');
    if 0 <= i < p.len() - 1 && p[i].len() > 0 && p[i].last() == '\r' {
        assert(p[i] =~= p[i].drop_last().push('\r'));
    }
}

/// Trimming takes white space away at both ends, all of it, and nothing else.
pub proof fn trimming_takes_white_space(text: Seq<char>)
    ensures
        exists|i: int, j: int|
            #![trigger text.subrange(i, j)]
            {
                &&& 0 <= i <= j <= text.len()
                &&& trimmed(text) == text.subrange(i, j)
                &&& forall|k: int| 0 <= k < i ==> is_white_space(#[trigger] text[k])
                &&& forall|k: int| j <= k < text.len() ==> is_white_space(#[trigger] text[k])
                &&& i < j ==> !is_white_space(text[i]) && !is_white_space(text[j - 1])
            },
{
    let i = lemma_trimmed_start(text);
    let rest = text.skip(i);
    let n = lemma_trimmed_end(rest);
    let j = i + n;
    assert(text.subrange(i, j) =~= rest.take(n));
    assert forall|k: int| j <= k < text.len() implies is_white_space(#[trigger] text[k]) by {
        assert(rest[k - i] == text[k]);
    }
    if i < j {
        assert(rest[0] == text[i]);
        assert(rest[n - 1] == text[j - 1]);
    }
}

proof fn lemma_trimmed_start(text: Seq<char>) -> (i: int)
    ensures
        0 <= i <= text.len(),
        trimmed_start(text) == text.skip(i),
        forall|k: int| 0 <= k < i ==> is_white_space(#[trigger] text[k]),
        i < text.len() ==> !is_white_space(text[i]),
    decreases text.len(),
{
    if text.len() > 0 && is_white_space(text[0]) {
        let rest = text.skip(1);
        let i = lemma_trimmed_start(rest);
        assert(rest.skip(i) =~= text.skip(i + 1));
        assert forall|k: int| 0 <= k < i + 1 implies is_white_space(#[trigger] text[k]) by {
            if k > 0 {
                assert(rest[k - 1] == text[k]);
            }
        }
        i + 1
    } else {
        assert(text.skip(0) =~= text);
        0
    }
}

proof fn lemma_trimmed_end(text: Seq<char>) -> (n: int)
    ensures
        0 <= n <= text.len(),
        trimmed_end(text) == text.take(n),
        forall|k: int| n <= k < text.len() ==> is_white_space(#[trigger] text[k]),
        0 < n ==> !is_white_space(text[n - 1]),
    decreases text.len(),
{
    if text.len() > 0 && is_white_space(text.last()) {
        let front = text.drop_last();
        let n = lemma_trimmed_end(front);
        assert(front.take(n) =~= text.take(n));
        assert forall|k: int| n <= k < text.len() implies is_white_space(#[trigger] text[k]) by {
            if k < front.len() {
                assert(front[k] == text[k]);
            }
        }
        n
    } else {
        assert(text.take(text.len() as int) =~= text);
        text.len() as int
    }
}

// Numbers.

/// A number is read back from its decimal digits.
pub proof fn decimals_are_read_back(n: u64)
    ensures
        unsigned_value(decimal(n as nat)) == Ok::<nat, IntegerFault>(n as nat),
        n <= i64::MAX ==> signed_value(decimal(n as nat)) == Ok::<int, IntegerFault>(n as int),
        n <= 0x8000_0000_0000_0000 ==> signed_value(seq!['-'] + decimal(n as nat)) == Ok::<
            int,
            IntegerFault,
        >(-(n as int)),
{
    let digits = decimal(n as nat);
    lemma_first_digit(n as nat);
    let none = Seq::<char>::empty();
    assert(none + digits =~= digits);
    lemma_padded_value(none, n as nat, u64::MAX as nat);
    if n <= i64::MAX {
        lemma_padded_value(none, n as nat, i64::MAX as nat);
    }
    if n <= 0x8000_0000_0000_0000 {
        let text = seq!['-'] + digits;
        assert(text.skip(1) =~= digits);
        lemma_padded_value(none, n as nat, 0x8000_0000_0000_0000);
        lemma_other_fault(digits, 0x8000_0000_0000_0000, n as nat);
    }
}

proof fn lemma_other_fault(digits: Seq<char>, limit: nat, n: nat)
    requires
        digits_value(digits, limit, IntegerFault::PosOverflow) == Ok::<nat, IntegerFault>(n),
    ensures
        digits_value(digits, limit, IntegerFault::NegOverflow) == Ok::<nat, IntegerFault>(n),
    decreases digits.len(),
{
    if digits.len() > 0 {
        lemma_other_fault(
            digits.drop_last(),
            limit,
            digits_value(digits.drop_last(), limit, IntegerFault::PosOverflow)->Ok_0,
        );
    }
}

/// One more digit makes a number ten times as large, and adds the digit; a number that
/// would be above the largest of 64 bits is refused, and so is a character that is no digit.
pub proof fn numbers_grow_by_digits(front: Seq<char>, c: char)
    requires
        front.len() > 0,
        is_digit(front[0]),
    ensures
        unsigned_value(front.push(c)) matches Ok(n) ==> {
            &&& unsigned_value(front) matches Ok(m)
            &&& '0' <= c <= '9'
            &&& n == 10 * m + (c as u32 - '0' as u32)
            &&& n <= u64::MAX
        },
        unsigned_value(front) matches Ok(m) ==> ('0' <= c <= '9' && 10 * m + (c as u32
            - '0' as u32) <= u64::MAX ==> unsigned_value(front.push(c)) is Ok),
{
    assert(front.push(c).drop_last() =~= front);
}

// Rows.

/// Whether a field holds a whole number above zero.
pub open spec fn positive(field: Seq<char>) -> bool {
    unsigned_value(field) matches Ok(n) && n > 0
}

/// A row is read exactly where it has four fields: a driver and a series above zero, an
/// offset that is not negative, and a finite value. It says what its fields say.
pub proof fn rows_have_four_fields(content: Seq<char>, value: Option<FloatBits>)
    ensures
        ({
            let fields = pieces(content, ',');
            &&& row_of(content, value) is Ok <==> {
                &&& fields.len() == 4
                &&& positive(fields[0])
                &&& positive(fields[1])
                &&& signed_value(fields[2]) matches Ok(offset) && offset >= 0
                &&& value matches Some(bits) && finite(bits)
            }
            &&& row_of(content, value) matches Ok(row) ==> {
                &&& row.driver_id == unsigned_value(fields[0])->Ok_0
                &&& row.series_id == unsigned_value(fields[1])->Ok_0
                &&& row.offset_millis == signed_value(fields[2])->Ok_0
                &&& value == Some(row.value)
            }
        }),
{
    let fields = pieces(content, ',');
    lemma_some_piece(content, ',');
    lemma_unsigned_fits(fields[0]);
    lemma_unsigned_fits(fields[1]);
    lemma_signed_fits(fields[2]);
}

proof fn lemma_digits_fit(digits: Seq<char>, limit: nat, overflow: IntegerFault)
    ensures
        digits_value(digits, limit, overflow) matches Ok(n) ==> n <= limit,
    decreases digits.len(),
{
    if digits.len() > 0 {
        lemma_digits_fit(digits.drop_last(), limit, overflow);
    }
}

proof fn lemma_unsigned_fits(text: Seq<char>)
    ensures
        unsigned_value(text) matches Ok(n) ==> n <= u64::MAX,
{
    lemma_digits_fit(text, u64::MAX as nat, IntegerFault::PosOverflow);
    lemma_digits_fit(text.skip(1), u64::MAX as nat, IntegerFault::PosOverflow);
}

proof fn lemma_signed_fits(text: Seq<char>)
    ensures
        signed_value(text) matches Ok(n) ==> i64::MIN <= n <= i64::MAX,
{
    lemma_digits_fit(text, i64::MAX as nat, IntegerFault::PosOverflow);
    lemma_digits_fit(text.skip(1), i64::MAX as nat, IntegerFault::PosOverflow);
    lemma_digits_fit(text.skip(1), 0x8000_0000_0000_0000, IntegerFault::NegOverflow);
}

/// The point of a row lies its offset behind the start of 2026, in all its times, with the
/// value of the row.
pub proof fn rows_are_points_in_time(row: Row)
    requires
        1_767_225_600_000_000 + row.offset_millis * 1000 <= i64::MAX,
        row.offset_millis >= 0,
    ensures
        ({
            let p = row_point(row);
            &&& p.series_id == row.series_id
            &&& p.value == row.value
            &&& p.valid_time == 1_767_225_600_000_000 + row.offset_millis * 1000
            &&& p.valid_time_end == p.valid_time
            &&& p.knowledge_time == p.valid_time
            &&& p.change_time == p.valid_time
            &&& p.run_id == 0 && p.quality == 0 && p.flags == 0
        }),
{
}

/// A row is taken exactly where its series has no other owner and its time can be told.
/// Its driver and its series are stored before its point, each where it is new; the point
/// waits, or goes out with all that waits once a batch is full.
pub proof fn rows_are_taken_in_order(m: LoadModel, row: Row)
    requires
        m.points < u64::MAX,
    ensures
        after_row(m, row) is Ok <==> {
            &&& m.owners.contains_key(row.series_id) ==> m.owners[row.series_id] == row.driver_id
            &&& 1_767_225_600_000_000 + row.offset_millis * 1000 <= i64::MAX
        },
        after_row(m, row) matches Ok((next, full)) ==> {
            let points = m.batch.push(row_point(row));
            let new_driver = !m.drivers.contains(row.driver_id);
            let new_series = !m.owners.contains_key(row.series_id);
            let added = new_records(m, row);
            let driver = RecordModel::Entity(driver_entity(row.driver_id));
            let series = RecordModel::Series(metric_series(row.series_id, row.driver_id));
            &&& next.points == m.points + 1
            &&& next.drivers == m.drivers.insert(row.driver_id)
            &&& next.owners == m.owners.insert(row.series_id, row.driver_id)
            &&& new_driver && new_series ==> added == seq![driver, series]
            &&& new_driver && !new_series ==> added == seq![driver]
            &&& !new_driver && new_series ==> added == seq![series]
            &&& !new_driver && !new_series ==> added.len() == 0
            &&& points.len() == m.batch_points ==> full == Some(
                (m.transaction + added).push(RecordModel::Points(points)),
            ) && next.batch.len() == 0 && next.transaction.len() == 0
            &&& points.len() != m.batch_points ==> full is None && next.batch == points
                && next.transaction == m.transaction + added
        },
{
    if after_row(m, row) is Ok {
        let driver = RecordModel::Entity(driver_entity(row.driver_id));
        let series = RecordModel::Series(metric_series(row.series_id, row.driver_id));
        assert(seq![driver] + seq![series] =~= seq![driver, series]);
        assert(seq![driver] + Seq::<RecordModel>::empty() =~= seq![driver]);
        assert(Seq::<RecordModel>::empty() + seq![series] =~= seq![series]);
    }
}

/// A load knows the smallest and the largest offset of its rows.
pub proof fn offsets_are_bounds(m: LoadModel, row: Row)
    ensures
        after_row(m, row) matches Ok((next, _)) ==> {
            &&& next.first_offset matches Some(first) && first <= row.offset_millis && (first
                == row.offset_millis || m.first_offset == Some(first)) && (m.first_offset
                matches Some(old) ==> first <= old)
            &&& next.last_offset matches Some(last) && last >= row.offset_millis && (last
                == row.offset_millis || m.last_offset == Some(last)) && (m.last_offset
                matches Some(old) ==> last >= old)
        },
{
}

/// The first line is the header and nothing else. A line that is empty adds nothing, and
/// every other line is a row; all lines and all bytes are counted.
pub proof fn lines_are_headers_or_rows(
    m: LoadModel,
    line: Seq<char>,
    bytes: nat,
    value: Option<FloatBits>,
)
    requires
        m.lines < u64::MAX,
        m.input_bytes + bytes <= u64::MAX,
    ensures
        ({
            let counted = LoadModel {
                lines: (m.lines + 1) as u64,
                input_bytes: (m.input_bytes + bytes) as u64,
                ..m
            };
            let content = content_of(line);
            let done = after_line(m, line, bytes, value);
            &&& m.lines == 0 ==> (done is Ok <==> content
                == "driver_id,series_id,offset_ms,value"@)
            &&& (m.lines == 0 && done is Ok) || (m.lines > 0 && content.len() == 0) ==> done == Ok::<
                (LoadModel, Option<Seq<RecordModel>>),
                Seq<char>,
            >((counted, None))
            &&& m.lines > 0 && content.len() > 0 && row_of(content, value) is Ok ==> done
                == after_row(counted, row_of(content, value)->Ok_0)
            &&& m.lines > 0 && content.len() > 0 && row_of(content, value) is Err ==> done is Err
        }),
{
}

/// A line loses the line ends behind it, and nothing else.
pub proof fn line_ends_are_dropped(line: Seq<char>)
    ensures
        content_of(line).len() <= line.len(),
        content_of(line) == line.take(content_of(line).len() as int),
        content_of(line).len() > 0 ==> content_of(line).last() != '\r' && content_of(line).last()
            != '\n',
        forall|i: int|
            content_of(line).len() <= i < line.len() ==> #[trigger] line[i] == '\r' || line[i]
                == '\n',
    decreases line.len(),
{
    if line.len() > 0 && (line.last() == '\r' || line.last() == '\n') {
        let front = line.drop_last();
        line_ends_are_dropped(front);
        let n = content_of(front).len() as int;
        assert(front.take(n) =~= line.take(n));
        assert forall|i: int| n <= i < line.len() implies #[trigger] line[i] == '\r' || line[i]
            == '\n' by {
            if i < front.len() {
                assert(front[i] == line[i]);
            }
        }
    } else {
        assert(line.take(line.len() as int) =~= line);
    }
}

} // verus!
