//! Lyric cursor: parsing of `[mm:ss.xx]` timestamps, parsing of a whole
//! lyric file after its `[00:00.00]` marker, and the lookup that returns
//! the most recent lyric line at a given playback time. Entries whose
//! timestamp does not parse are skipped, never fatal.

use vstd::prelude::*;
use vstd::string::StrSliceExecFns;
use vstd::string::StringExecFns;

verus! {

/// Is `c` a decimal digit?
pub open spec fn is_digit(c: char) -> bool {
    48 <= c as u32 <= 57
}

/// The numeric value of a decimal digit.
pub open spec fn digit_val(c: char) -> int {
    c as u32 - 48
}

/// A non-empty run of decimal digits, as a numeral field requires.
pub open spec fn all_digits(s: Seq<char>) -> bool {
    s.len() > 0 && forall|i: int| 0 <= i < s.len() ==> is_digit(s[i])
}

/// The value of a digit string read in base ten.
pub open spec fn digits_val(s: Seq<char>) -> int
    decreases s.len(),
{
    if s.len() == 0 {
        0
    } else {
        digits_val(s.drop_last()) * 10 + digit_val(s.last())
    }
}

/// Does the string parse as a `u64` numeral: all digits, and small
/// enough to fit?
pub open spec fn parseable_u64(s: Seq<char>) -> bool {
    all_digits(s) && digits_val(s) <= u64::MAX
}

/// How often `c` occurs in `s`.
pub open spec fn count_char(s: Seq<char>, c: char) -> int
    decreases s.len(),
{
    if s.len() == 0 {
        0
    } else {
        count_char(s.drop_last(), c) + if s.last() == c {
            1int
        } else {
            0int
        }
    }
}

/// Index of the first occurrence of `c` in `s`, or `s.len()` if absent.
pub open spec fn first_index(s: Seq<char>, c: char) -> int
    decreases s.len(),
{
    if s.len() == 0 {
        0
    } else if s[0] == c {
        0
    } else {
        1 + first_index(s.drop_first(), c)
    }
}

/// What parsing a `[mm:ss.xx]` timestamp body yields: the time in whole
/// seconds, or the reason it is rejected. The text must hold exactly one
/// `:`; the part before it is the minutes numeral; the part after must
/// hold exactly one `.`; what stands before that `.` is the seconds
/// numeral; the fraction behind the `.` is ignored. A time too large for
/// 64 bits is rejected like a malformed field.
pub open spec fn parse_time_spec(s: Seq<char>) -> Result<u64, Seq<char>> {
    if count_char(s, ':') != 1 {
        Err("Invalid format"@)
    } else {
        let ci = first_index(s, ':');
        let mins = s.subrange(0, ci);
        if !parseable_u64(mins) {
            Err("Invalid minutes"@)
        } else {
            let rest = s.subrange(ci + 1, s.len() as int);
            if count_char(rest, '.') != 1 {
                Err("Invalid seconds format"@)
            } else {
                let di = first_index(rest, '.');
                let secs = rest.subrange(0, di);
                if !parseable_u64(secs) {
                    Err("Invalid seconds"@)
                } else if digits_val(mins) * 60 + digits_val(secs) > u64::MAX {
                    Err("Invalid format"@)
                } else {
                    Ok((digits_val(mins) * 60 + digits_val(secs)) as u64)
                }
            }
        }
    }
}

proof fn lemma_digits_val_nonneg(s: Seq<char>)
    requires
        forall|i: int| 0 <= i < s.len() ==> is_digit(s[i]),
    ensures
        0 <= digits_val(s),
    decreases s.len(),
{
    if s.len() > 0 {
        lemma_digits_val_nonneg(s.drop_last());
    }
}

proof fn lemma_digits_val_prefix_le(s: Seq<char>, k: int)
    requires
        forall|i: int| 0 <= i < s.len() ==> is_digit(s[i]),
        0 <= k <= s.len(),
    ensures
        digits_val(s.take(k)) <= digits_val(s),
    decreases s.len() - k,
{
    if k < s.len() {
        assert(s.take(k + 1).drop_last() =~= s.take(k));
        lemma_digits_val_nonneg(s.take(k));
        lemma_digits_val_prefix_le(s, k + 1);
    } else {
        assert(s.take(k) =~= s);
    }
}

proof fn lemma_first_index_at(s: Seq<char>, c: char, f: int)
    requires
        0 <= f < s.len(),
        s[f] == c,
        forall|j: int| 0 <= j < f ==> s[j] != c,
    ensures
        first_index(s, c) == f,
    decreases f,
{
    if f > 0 {
        lemma_first_index_at(s.drop_first(), c, f - 1);
    }
}

/// Parse the character range `[from, to)` of `s` as a base-ten `u64`
/// numeral: `None` when the range is empty, holds a non-digit, or
/// overflows.
fn parse_u64_range(s: &str, from: usize, to: usize) -> (r: Option<u64>)
    requires
        from <= to <= s@.len(),
    ensures
        ({
            let field = s@.subrange(from as int, to as int);
            match r {
                Some(v) => parseable_u64(field) && v == digits_val(field),
                None => !parseable_u64(field),
            }
        }),
{
    let ghost field = s@.subrange(from as int, to as int);
    if from == to {
        return None;
    }
    let mut acc: u64 = 0;
    let mut k: usize = from;
    proof {
        assert(field.take(0) =~= Seq::<char>::empty());
    }
    while k < to
        invariant
            from <= k <= to <= s@.len(),
            from < to,
            field == s@.subrange(from as int, to as int),
            forall|j: int| 0 <= j < k - from ==> is_digit(field[j]),
            acc == digits_val(field.take(k - from)),
        decreases to - k,
    {
        let c = s.get_char(k);
        let u = c as u32;
        proof {
            assert(field[k - from] == s@[k as int]);
        }
        if u < 48 || u > 57 {
            proof {
                assert(!is_digit(field[k - from]));
            }
            return None;
        }
        let d: u64 = (u - 48) as u64;
        proof {
            assert(field.take(k - from + 1).drop_last() =~= field.take(k - from));
            assert(field.take(k - from + 1).last() == field[k - from]);
        }
        if acc > (u64::MAX - d) / 10 {
            proof {
                vstd::arithmetic::div_mod::lemma_fundamental_div_mod((u64::MAX - d) as int, 10);
                assert(acc * 10 + d > u64::MAX) by (nonlinear_arith)
                    requires
                        acc > (u64::MAX - d) / 10,
                        10 * ((u64::MAX - d) / 10) + ((u64::MAX - d) % 10) == u64::MAX - d,
                        0 <= (u64::MAX - d) % 10 < 10,
                ;
                if all_digits(field) {
                    lemma_digits_val_prefix_le(field, k - from + 1);
                }
            }
            return None;
        }
        acc = acc * 10 + d;
        k = k + 1;
    }
    proof {
        assert(field.take(to - from) =~= field);
    }
    Some(acc)
}

/// Parse a `mm:ss.xx` timestamp into whole seconds.
#[verifier::rlimit(50)]
pub fn parse_time(input: &str) -> (r: Result<u64, String>)
    ensures
        parse_time_spec(input@) matches Ok(v) ==> r matches Ok(w) && w == v,
        parse_time_spec(input@) matches Err(m) ==> r matches Err(e) && e@ == m,
{
    let ghost s = input@;
    let n = input.unicode_len();

    // locate the single ':' separating minutes from the rest
    let mut colon_count: usize = 0;
    let mut colon_at: usize = 0;
    let mut i: usize = 0;
    proof {
        assert(s.take(0) =~= Seq::<char>::empty());
    }
    while i < n
        invariant
            i <= n == s.len(),
            s == input@,
            colon_count <= i,
            colon_count == count_char(s.take(i as int), ':'),
            colon_count == 0 ==> forall|j: int| 0 <= j < i ==> s[j] != ':',
            colon_count > 0 ==> colon_at < i && s[colon_at as int] == ':' && forall|j: int|
                0 <= j < colon_at ==> s[j] != ':',
        decreases n - i,
    {
        proof {
            assert(s.take(i + 1).drop_last() =~= s.take(i as int));
            assert(s.take(i + 1).last() == s[i as int]);
        }
        if input.get_char(i) == ':' {
            if colon_count == 0 {
                colon_at = i;
            }
            colon_count = colon_count + 1;
        }
        i = i + 1;
    }
    proof {
        assert(s.take(n as int) =~= s);
    }
    if colon_count != 1 {
        return Err(String::from_str("Invalid format"));
    }
    proof {
        lemma_first_index_at(s, ':', colon_at as int);
    }

    // minutes numeral before the ':'
    let minutes = match parse_u64_range(input, 0, colon_at) {
        Some(v) => v,
        None => {
            return Err(String::from_str("Invalid minutes"));
        },
    };

    // locate the single '.' in the rest
    let ghost rest = s.subrange(colon_at + 1, s.len() as int);
    let mut dot_count: usize = 0;
    let mut dot_at: usize = 0;
    let mut p: usize = colon_at + 1;
    proof {
        assert(s.subrange(colon_at + 1, colon_at + 1) =~= rest.take(0));
    }
    while p < n
        invariant
            colon_at + 1 <= p <= n,
            n == s.len(),
            s == input@,
            rest == s.subrange(colon_at + 1, s.len() as int),
            dot_count <= p - colon_at - 1,
            dot_count == count_char(rest.take(p - colon_at - 1), '.'),
            dot_count == 0 ==> forall|j: int| 0 <= j < p - colon_at - 1 ==> rest[j] != '.',
            dot_count > 0 ==> colon_at + 1 <= dot_at < p && rest[dot_at - colon_at - 1] == '.'
                && forall|j: int| 0 <= j < dot_at - colon_at - 1 ==> rest[j] != '.',
        decreases n - p,
    {
        proof {
            assert(rest[p - colon_at - 1] == s[p as int]);
            assert(rest.take(p - colon_at) =~= rest.take(p - colon_at - 1).push(s[p as int]));
            assert(rest.take(p - colon_at).drop_last() =~= rest.take(p - colon_at - 1));
        }
        if input.get_char(p) == '.' {
            if dot_count == 0 {
                dot_at = p;
            }
            dot_count = dot_count + 1;
        }
        p = p + 1;
    }
    proof {
        assert(rest.take(n - colon_at - 1) =~= rest);
    }
    if dot_count != 1 {
        return Err(String::from_str("Invalid seconds format"));
    }
    proof {
        lemma_first_index_at(rest, '.', dot_at - colon_at - 1);
    }

    // seconds numeral between the ':' and the '.'
    let ghost di = first_index(rest, '.');
    proof {
        assert(rest.subrange(0, di) =~= s.subrange(colon_at + 1, dot_at as int));
    }
    let seconds = match parse_u64_range(input, colon_at + 1, dot_at) {
        Some(v) => v,
        None => {
            return Err(String::from_str("Invalid seconds"));
        },
    };

    // total seconds, rejecting a value that does not fit 64 bits
    proof {
        vstd::arithmetic::div_mod::lemma_fundamental_div_mod((u64::MAX - seconds) as int, 60);
    }
    if minutes > (u64::MAX - seconds) / 60 {
        proof {
            assert(minutes * 60 + seconds > u64::MAX) by (nonlinear_arith)
                requires
                    minutes > (u64::MAX - seconds) / 60,
                    60 * ((u64::MAX - seconds) / 60) + ((u64::MAX - seconds) % 60) == u64::MAX
                        - seconds,
                    0 <= (u64::MAX - seconds) % 60 < 60,
            ;
        }
        return Err(String::from_str("Invalid format"));
    }
    proof {
        assert(minutes * 60 + seconds <= u64::MAX) by (nonlinear_arith)
            requires
                minutes <= (u64::MAX - seconds) / 60,
                60 * ((u64::MAX - seconds) / 60) + ((u64::MAX - seconds) % 60) == u64::MAX
                    - seconds,
                0 <= (u64::MAX - seconds) % 60 < 60,
                0 <= seconds,
        ;
    }
    Ok(minutes * 60 + seconds)
}

/// The most recent lyric at `time`: entries are scanned in table order;
/// an entry whose timestamp does not parse is skipped; an entry at or
/// before `time` becomes the current candidate; the scan stops at the
/// first parseable entry after `time`. `None` when no entry qualifies.
pub open spec fn lyric_at_spec(entries: Seq<(Seq<char>, Seq<char>)>, time: u64) -> Option<
    Seq<char>,
>
    decreases entries.len(),
{
    if entries.len() == 0 {
        None
    } else {
        let head = entries[0];
        match parse_time_spec(head.0) {
            Err(_) => lyric_at_spec(entries.drop_first(), time),
            Ok(t) => if t <= time {
                match lyric_at_spec(entries.drop_first(), time) {
                    Some(text) => Some(text),
                    None => Some(head.1),
                }
            } else {
                None
            },
        }
    }
}

/// The marker line that must precede the lyric entries in a file.
pub open spec fn lrc_marker() -> Seq<char> {
    "[00:00.00]"@
}

/// Does the marker stand at position `i` of `s`?
pub open spec fn is_marker_at(s: Seq<char>, i: int) -> bool {
    0 <= i && i + lrc_marker().len() <= s.len() && s.subrange(i, i + lrc_marker().len()) == lrc_marker()
}

/// Does the marker occur anywhere in `s`? Its absence is a fatal
/// startup condition, checked by the caller before parsing.
pub open spec fn has_marker(s: Seq<char>) -> bool {
    exists|i: int| is_marker_at(s, i)
}

/// Position of the first marker occurrence.
pub open spec fn marker_first(s: Seq<char>) -> int
    decreases s.len(),
{
    if is_marker_at(s, 0) {
        0
    } else if s.len() == 0 {
        0
    } else {
        1 + marker_first(s.drop_first())
    }
}

/// A line as the line iterator yields it: without a trailing carriage
/// return.
pub open spec fn strip_cr(l: Seq<char>) -> Seq<char> {
    if l.len() > 0 && l.last() == '\r' {
        l.drop_last()
    } else {
        l
    }
}

/// The lines of `s`: split at every newline, each stripped of a
/// trailing carriage return, with no empty line after a final newline.
pub open spec fn lines_spec(s: Seq<char>) -> Seq<Seq<char>>
    decreases s.len(),
    via lines_spec_dec
{
    if s.len() == 0 {
        Seq::empty()
    } else {
        let i = first_index(s, '\n');
        if i == s.len() {
            seq![strip_cr(s)]
        } else {
            seq![strip_cr(s.subrange(0, i))] + lines_spec(s.subrange(i + 1, s.len() as int))
        }
    }
}

#[via_fn]
proof fn lines_spec_dec(s: Seq<char>) {
    lemma_first_index_le_len(s, '\n');
}

proof fn lemma_first_index_le_len(s: Seq<char>, c: char)
    ensures
        0 <= first_index(s, c) <= s.len(),
    decreases s.len(),
{
    if s.len() > 0 && s[0] != c {
        lemma_first_index_le_len(s.drop_first(), c);
    }
}

proof fn lemma_first_index_absent(s: Seq<char>, c: char)
    requires
        forall|j: int| 0 <= j < s.len() ==> s[j] != c,
    ensures
        first_index(s, c) == s.len(),
    decreases s.len(),
{
    if s.len() > 0 {
        lemma_first_index_absent(s.drop_first(), c);
    }
}

/// Is `c` whitespace in the sense of line trimming?
pub open spec fn is_space(c: char) -> bool {
    let u = c as u32;
    u == 0x20 || u == 0x9 || u == 0xA || u == 0xB || u == 0xC || u == 0xD || u == 0x85 || u
        == 0xA0 || u == 0x1680 || (0x2000 <= u && u <= 0x200A) || u == 0x2028 || u == 0x2029 || u
        == 0x202F || u == 0x205F || u == 0x3000
}

/// The line without leading whitespace.
pub open spec fn trim_front_spec(l: Seq<char>) -> Seq<char>
    decreases l.len(),
{
    if l.len() > 0 && is_space(l[0]) {
        trim_front_spec(l.drop_first())
    } else {
        l
    }
}

/// The line without trailing whitespace.
pub open spec fn trim_back_spec(l: Seq<char>) -> Seq<char>
    decreases l.len(),
{
    if l.len() > 0 && is_space(l.last()) {
        trim_back_spec(l.drop_last())
    } else {
        l
    }
}

/// The line without whitespace on either end.
pub open spec fn trim_spec(l: Seq<char>) -> Seq<char> {
    trim_back_spec(trim_front_spec(l))
}

/// The text without its leading opening brackets.
pub open spec fn drop_brackets(l: Seq<char>) -> Seq<char>
    decreases l.len(),
{
    if l.len() > 0 && l[0] == '[' {
        drop_brackets(l.drop_first())
    } else {
        l
    }
}

/// What one lyric line contributes: a line without a closing bracket is
/// skipped; otherwise the part before the first `]`, with leading `[`
/// stripped, is the timestamp text, and the part after it, trimmed, is
/// the lyric text.
pub open spec fn line_entry(l: Seq<char>) -> Option<(Seq<char>, Seq<char>)> {
    let b = first_index(l, ']');
    if b == l.len() {
        None
    } else {
        Some((drop_brackets(l.subrange(0, b)), trim_spec(l.subrange(b + 1, l.len() as int))))
    }
}

/// The entries that a sequence of lines yields, in order.
pub open spec fn entries_spec(ls: Seq<Seq<char>>) -> Seq<(Seq<char>, Seq<char>)>
    decreases ls.len(),
{
    if ls.len() == 0 {
        Seq::empty()
    } else {
        match line_entry(ls[0]) {
            Some(e) => seq![e] + entries_spec(ls.drop_first()),
            None => entries_spec(ls.drop_first()),
        }
    }
}

/// The whole table a lyric file yields: everything after the first
/// marker occurrence, split into lines, each line's entry if any.
pub open spec fn parse_lrc_spec(s: Seq<char>) -> Seq<(Seq<char>, Seq<char>)> {
    entries_spec(
        lines_spec(s.subrange(marker_first(s) + lrc_marker().len(), s.len() as int)),
    )
}

proof fn lemma_marker_first_at(s: Seq<char>, f: int)
    requires
        is_marker_at(s, f),
        forall|j: int| 0 <= j < f ==> !is_marker_at(s, j),
    ensures
        marker_first(s) == f,
    decreases f,
{
    if f > 0 {
        assert(!is_marker_at(s, 0));
        assert(s.len() > 0);
        let t = s.drop_first();
        assert(is_marker_at(t, f - 1)) by {
            assert(t.subrange(f - 1, f - 1 + lrc_marker().len()) =~= s.subrange(
                f, f + lrc_marker().len()));
        }
        assert forall|j: int| 0 <= j < f - 1 implies !is_marker_at(t, j) by {
            if is_marker_at(t, j) {
                assert(s.subrange(j + 1, j + 1 + lrc_marker().len()) =~= t.subrange(
                    j, j + lrc_marker().len()));
                assert(is_marker_at(s, j + 1));
            }
        }
        lemma_marker_first_at(t, f - 1);
    }
}

proof fn lemma_drop_brackets_at(l: Seq<char>, j: int)
    requires
        0 <= j <= l.len(),
        forall|m: int| 0 <= m < j ==> l[m] == '[',
        j < l.len() ==> l[j] != '[',
    ensures
        drop_brackets(l) == l.skip(j),
    decreases j,
{
    if j == 0 {
        assert(l.skip(0) =~= l);
    } else {
        let t = l.drop_first();
        lemma_drop_brackets_at(t, j - 1);
        assert(t.skip(j - 1) =~= l.skip(j));
    }
}

proof fn lemma_trim_front_at(l: Seq<char>, j: int)
    requires
        0 <= j <= l.len(),
        forall|m: int| 0 <= m < j ==> is_space(l[m]),
        j < l.len() ==> !is_space(l[j]),
    ensures
        trim_front_spec(l) == l.skip(j),
    decreases j,
{
    if j == 0 {
        assert(l.skip(0) =~= l);
    } else {
        let t = l.drop_first();
        lemma_trim_front_at(t, j - 1);
        assert(t.skip(j - 1) =~= l.skip(j));
    }
}

proof fn lemma_trim_back_at(l: Seq<char>, j: int)
    requires
        0 <= j <= l.len(),
        forall|m: int| j <= m < l.len() ==> is_space(l[m]),
        j > 0 ==> !is_space(l[j - 1]),
    ensures
        trim_back_spec(l) == l.take(j),
    decreases l.len(),
{
    if l.len() == j {
        assert(l.take(j) =~= l);
    } else {
        let t = l.drop_last();
        lemma_trim_back_at(t, j);
        assert(t.take(j) =~= l.take(j));
    }
}

/// Is `c` whitespace, executably.
fn is_space_char(c: char) -> (b: bool)
    ensures
        b == is_space(c),
{
    let u = c as u32;
    u == 0x20 || u == 0x9 || u == 0xA || u == 0xB || u == 0xC || u == 0xD || u == 0x85 || u
        == 0xA0 || u == 0x1680 || (0x2000 <= u && u <= 0x200A) || u == 0x2028 || u == 0x2029 || u
        == 0x202F || u == 0x205F || u == 0x3000
}

/// First position of `c` in `[from, to)` of `st`, or `to` if absent.
fn scan_char(st: &str, from: usize, to: usize, c: char) -> (r: usize)
    requires
        from <= to <= st@.len(),
    ensures
        from <= r <= to,
        r - from == first_index(st@.subrange(from as int, to as int), c),
        forall|j: int| from <= j < r ==> st@[j] != c,
        r < to ==> st@[r as int] == c,
{
    let ghost piece = st@.subrange(from as int, to as int);
    let mut k: usize = from;
    while k < to
        invariant
            from <= k <= to <= st@.len(),
            piece == st@.subrange(from as int, to as int),
            forall|j: int| from <= j < k ==> st@[j] != c,
        decreases to - k,
    {
        if st.get_char(k) == c {
            proof {
                assert(piece[k - from] == c);
                lemma_first_index_at(piece, c, k - from);
            }
            return k;
        }
        k = k + 1;
    }
    proof {
        assert(forall|j: int| 0 <= j < piece.len() ==> piece[j] == st@[from + j] && st@[from + j]
            != c);
        lemma_first_index_absent(piece, c);
    }
    to
}

/// Does the marker stand at position `i` of `st`?
fn check_marker_at(st: &str, i: usize) -> (m: bool)
    requires
        i + 10 <= st@.len(),
        i + 10 <= usize::MAX,
    ensures
        m == is_marker_at(st@, i as int),
{
    let marker: &str = "[00:00.00]";
    proof {
        reveal_strlit("[00:00.00]");
        assert(lrc_marker().len() == 10);
    }
    let mut k: usize = 0;
    while k < 10
        invariant_except_break
            k <= 10,
            i + 10 <= st@.len(),
            i + 10 <= usize::MAX,
            marker@ == lrc_marker(),
            lrc_marker().len() == 10,
            forall|m: int| 0 <= m < k ==> st@[i + m] == lrc_marker()[m],
        ensures
            (k == 10 && forall|m: int| 0 <= m < 10 ==> st@[i + m] == lrc_marker()[m]) || (k < 10
                && st@[i + k] != lrc_marker()[k as int]),
        decreases 10 - k,
    {
        if st.get_char(i + k) != marker.get_char(k) {
            break;
        }
        k = k + 1;
    }
    if k == 10 {
        proof {
            assert(st@.subrange(i as int, i + lrc_marker().len()) =~= lrc_marker());
        }
        true
    } else {
        proof {
            if is_marker_at(st@, i as int) {
                assert(st@.subrange(i as int, i + lrc_marker().len())[k as int] == lrc_marker()[
                    k as int]);
            }
        }
        false
    }
}

/// Position of the first marker occurrence in `st`.
fn find_marker(st: &str) -> (pos: usize)
    requires
        has_marker(st@),
    ensures
        is_marker_at(st@, pos as int),
        pos == marker_first(st@),
        pos + 10 <= st@.len(),
{
    let ghost s = st@;
    proof {
        reveal_strlit("[00:00.00]");
        assert(lrc_marker().len() == 10);
    }
    let n = st.unicode_len();
    let mut i: usize = 0;
    loop
        invariant
            s == st@,
            n == s.len(),
            exists|j: int| i <= j && is_marker_at(s, j),
            forall|j: int| 0 <= j < i ==> !is_marker_at(s, j),
            i + 10 <= n,
        ensures
            is_marker_at(s, i as int),
            forall|j: int| 0 <= j < i ==> !is_marker_at(s, j),
        decreases s.len() - i,
    {
        if check_marker_at(st, i) {
            break;
        }
        proof {
            reveal_strlit("[00:00.00]");
            assert(lrc_marker().len() == 10);
            let j = choose|j: int| i <= j && is_marker_at(s, j);
            assert(i + 1 <= j && is_marker_at(s, j));
            assert(j + 10 <= s.len());
        }
        i = i + 1;
    }
    proof {
        lemma_marker_first_at(s, i as int);
    }
    i
}

/// The entry of the line standing at `[from, to)` of `body`, already
/// stripped of its newline and carriage return.
#[verifier::rlimit(50)]
fn line_to_entry(body: &str, from: usize, to: usize) -> (e: Option<(String, String)>)
    requires
        from <= to <= body@.len(),
        to <= usize::MAX,
    ensures
        ({
            let l = body@.subrange(from as int, to as int);
            match e {
                None => line_entry(l) is None,
                Some(p) => line_entry(l) == Some((p.0@, p.1@)),
            }
        }),
{
    let ghost b = body@;
    let ghost l = b.subrange(from as int, to as int);
    let br = scan_char(body, from, to, ']');
    if br == to {
        proof {
            assert(forall|j: int| 0 <= j < l.len() ==> l[j] == b[from + j] && b[from + j] != ']');
            lemma_first_index_absent(l, ']');
        }
        return None;
    }
    proof {
        assert(l[br - from] == b[br as int]);
        lemma_first_index_at(l, ']', br - from);
    }

    // timestamp: the part before the ']', stripped of leading '['
    let mut t0: usize = from;
    while t0 < br && body.get_char(t0) == '['
        invariant
            from <= t0 <= br <= b.len(),
            b == body@,
            forall|j: int| from <= j < t0 ==> b[j] == '[',
        decreases br - t0,
    {
        t0 = t0 + 1;
    }
    let ts: String = body.substring_char(t0, br).to_owned();
    proof {
        let tpart = l.subrange(0, br - from);
        assert(tpart =~= b.subrange(from as int, br as int));
        lemma_drop_brackets_at(tpart, t0 - from);
        assert(tpart.skip(t0 - from) =~= b.subrange(t0 as int, br as int));
    }

    // lyric: the part after the ']', trimmed of whitespace
    let mut lo: usize = br + 1;
    while lo < to && is_space_char(body.get_char(lo))
        invariant
            br + 1 <= lo <= to <= b.len(),
            b == body@,
            forall|j: int| br + 1 <= j < lo ==> is_space(b[j]),
        decreases to - lo,
    {
        lo = lo + 1;
    }
    let mut hi: usize = to;
    while hi > lo && is_space_char(body.get_char(hi - 1))
        invariant
            lo <= hi <= to <= b.len(),
            b == body@,
            forall|j: int| hi <= j < to ==> is_space(b[j]),
        decreases hi,
    {
        hi = hi - 1;
    }
    let ly: String = body.substring_char(lo, hi).to_owned();
    proof {
        let lpart = l.subrange(br - from + 1, l.len() as int);
        assert(lpart =~= b.subrange(br + 1, to as int));
        lemma_trim_front_at(lpart, lo - (br + 1));
        assert(lpart.skip(lo - (br + 1)) =~= b.subrange(lo as int, to as int));
        lemma_trim_back_at(b.subrange(lo as int, to as int), hi - lo);
        assert(b.subrange(lo as int, to as int).take(hi - lo) =~= b.subrange(
            lo as int, hi as int));
    }
    Some((ts, ly))
}

/// Parse a whole lyric file: everything after the first `[00:00.00]`
/// marker is read line by line as `[mm:ss.xx]lyric text` pairs. A file
/// without the marker is a fatal startup condition, so the caller must
/// check for it first, as the precondition states.
#[verifier::rlimit(100)]
pub fn parse_lrc_file(contents: String) -> (r: Vec<(String, String)>)
    requires
        has_marker(contents@),
    ensures
        r.deep_view() == parse_lrc_spec(contents@),
{
    let st: &str = contents.as_str();
    let n = st.unicode_len();
    let mpos = find_marker(st);
    let start = mpos + 10;
    let body: &str = st.substring_char(start, n);
    proof {
        reveal_strlit("[00:00.00]");
        assert(lrc_marker().len() == 10);
    }
    let ghost b = body@;
    proof {
        assert(b == contents@.subrange(
            marker_first(contents@) + lrc_marker().len(), contents@.len() as int));
    }
    let bn = body.unicode_len();
    let mut out: Vec<(String, String)> = Vec::new();
    let mut pos: usize = 0;
    proof {
        assert(b.skip(0) =~= b);
        assert(Seq::<(Seq<char>, Seq<char>)>::empty() + entries_spec(lines_spec(b)) =~=
            entries_spec(lines_spec(b)));
        assert(out.deep_view() =~= Seq::<(Seq<char>, Seq<char>)>::empty());
    }
    while pos < bn
        invariant
            b == body@,
            bn == b.len(),
            pos <= bn,
            entries_spec(lines_spec(b)) == out.deep_view() + entries_spec(
                lines_spec(b.skip(pos as int))),
        decreases bn - pos,
    {
        let ghost seg = b.skip(pos as int);
        proof {
            assert(seg =~= b.subrange(pos as int, bn as int));
        }
        // the current line runs to the next newline or to the end
        let nl = scan_char(body, pos, bn, '\n');
        // a trailing carriage return is not part of the line
        let le = if nl > pos && body.get_char(nl - 1) == '\r' {
            nl - 1
        } else {
            nl
        };
        let ghost line = b.subrange(pos as int, le as int);
        let ghost next = if nl < bn {
            b.skip(nl + 1)
        } else {
            Seq::<char>::empty()
        };
        proof {
            // the head line of the remaining text is exactly `line`
            let raw = if nl == bn {
                seg
            } else {
                seg.take(nl - pos)
            };
            assert(raw =~= b.subrange(pos as int, nl as int));
            if le < nl {
                assert(raw.last() == b[nl - 1]);
                assert(strip_cr(raw) =~= line);
            } else {
                assert(strip_cr(raw) =~= line);
            }
            if nl < bn {
                assert(seg.subrange(nl - pos + 1, seg.len() as int) =~= next);
                assert(lines_spec(seg) == seq![line] + lines_spec(next));
            } else {
                assert(lines_spec(next) =~= Seq::<Seq<char>>::empty());
                assert(seq![line] + lines_spec(next) =~= seq![line]);
                assert(lines_spec(seg) == seq![line] + lines_spec(next));
            }
            assert((seq![line] + lines_spec(next)).drop_first() =~= lines_spec(next));
            assert((seq![line] + lines_spec(next))[0] == line);
        }
        let ghost old_dv = out.deep_view();
        match line_to_entry(body, pos, le) {
            Some(entry) => {
                let ghost e = (entry.0@, entry.1@);
                out.push(entry);
                proof {
                    assert(out.deep_view() =~~= old_dv + seq![e]);
                    assert(entries_spec(lines_spec(seg)) == seq![e] + entries_spec(
                        lines_spec(next)));
                    assert(old_dv + (seq![e] + entries_spec(lines_spec(next))) =~~= (old_dv
                        + seq![e]) + entries_spec(lines_spec(next)));
                }
            },
            None => {
                proof {
                    assert(entries_spec(lines_spec(seg)) == entries_spec(lines_spec(next)));
                }
            },
        }
        if nl < bn {
            pos = nl + 1;
            proof {
                assert(b.skip(pos as int) =~= next);
            }
        } else {
            pos = bn;
            proof {
                assert(b.skip(pos as int) =~= next);
            }
        }
    }
    proof {
        assert(b.skip(bn as int) =~= Seq::<char>::empty());
        assert(lines_spec(b.skip(bn as int)) =~= Seq::<Seq<char>>::empty());
        assert(out.deep_view() + entries_spec(lines_spec(b.skip(pos as int))) =~~=
            out.deep_view());
    }
    out
}

/// Gets the MOST RECENT lyric at the given time.
pub fn get_lyric_at_time(lyrics: &Vec<(String, String)>, time: u64) -> (r: Option<String>)
    ensures
        match r {
            None => lyric_at_spec(lyrics.deep_view(), time) is None,
            Some(text) => lyric_at_spec(lyrics.deep_view(), time) == Some(text@),
        },
{
    let ghost entries = lyrics.deep_view();
    let mut current: Option<String> = None;
    let n = lyrics.len();
    let mut i: usize = 0;
    proof {
        assert(entries.skip(0) =~= entries);
    }
    while i < n
        invariant
            i <= n == entries.len(),
            entries == lyrics.deep_view(),
            ({
                let goal = lyric_at_spec(entries, time);
                let rest = lyric_at_spec(entries.skip(i as int), time);
                match current {
                    None => goal == rest,
                    Some(text) => goal == if rest is Some {
                        rest
                    } else {
                        Some(text@)
                    },
                }
            }),
        decreases n - i,
    {
        proof {
            assert(entries.skip(i as int).drop_first() =~= entries.skip(i + 1));
            assert(entries.skip(i as int)[0] == entries[i as int]);
        }
        let entry_time: &String = &lyrics[i].0;
        match parse_time(entry_time.as_str()) {
            Ok(parsed_time) => {
                if parsed_time <= time {
                    current = Some(lyrics[i].1.clone());
                } else {
                    return current;
                }
            },
            Err(_) => {},
        }
        i = i + 1;
    }
    proof {
        assert(entries.skip(n as int) =~= Seq::<(Seq<char>, Seq<char>)>::empty());
    }
    current
}

/// The entry the lookup settles on: its parsed timestamp next to its
/// text, chosen exactly as `lyric_at_spec` chooses.
pub open spec fn lyric_pick_spec(entries: Seq<(Seq<char>, Seq<char>)>, time: u64) -> Option<
    (u64, Seq<char>),
>
    decreases entries.len(),
{
    if entries.len() == 0 {
        None
    } else {
        let head = entries[0];
        match parse_time_spec(head.0) {
            Err(_) => lyric_pick_spec(entries.drop_first(), time),
            Ok(t) => if t <= time {
                match lyric_pick_spec(entries.drop_first(), time) {
                    Some(p) => Some(p),
                    None => Some((t, head.1)),
                }
            } else {
                None
            },
        }
    }
}

/// The lookup returns exactly the text of the picked entry.
pub proof fn lemma_lyric_at_is_pick(entries: Seq<(Seq<char>, Seq<char>)>, time: u64)
    ensures
        match lyric_pick_spec(entries, time) {
            None => lyric_at_spec(entries, time) is None,
            Some(p) => lyric_at_spec(entries, time) == Some(p.1),
        },
    decreases entries.len(),
{
    if entries.len() > 0 {
        lemma_lyric_at_is_pick(entries.drop_first(), time);
    }
}

/// Are the parseable timestamps non-decreasing along the table?
pub open spec fn times_ascending(entries: Seq<(Seq<char>, Seq<char>)>) -> bool {
    forall|i: int, j: int|
        #![trigger parse_time_spec(entries[i].0), parse_time_spec(entries[j].0)]
        0 <= i < j < entries.len() && parse_time_spec(entries[i].0) is Ok && parse_time_spec(
            entries[j].0,
        ) is Ok ==> parse_time_spec(entries[i].0)->Ok_0 <= parse_time_spec(entries[j].0)->Ok_0
}

proof fn lemma_pick_witness(entries: Seq<(Seq<char>, Seq<char>)>, time: u64)
    requires
        lyric_pick_spec(entries, time) is Some,
    ensures
        ({
            let p = lyric_pick_spec(entries, time)->Some_0;
            p.0 <= time && exists|i: int|
                0 <= i < entries.len() && parse_time_spec(#[trigger] entries[i].0) == Ok::<
                    u64,
                    Seq<char>,
                >(p.0) && entries[i].1 == p.1
        }),
    decreases entries.len(),
{
    let p = lyric_pick_spec(entries, time)->Some_0;
    let head = entries[0];
    let rest = entries.drop_first();
    match parse_time_spec(head.0) {
        Err(_) => {
            lemma_pick_witness(rest, time);
            let i = choose|i: int|
                0 <= i < rest.len() && parse_time_spec(#[trigger] rest[i].0) == Ok::<
                    u64,
                    Seq<char>,
                >(p.0) && rest[i].1 == p.1;
            assert(entries[i + 1] == rest[i]);
        },
        Ok(t) => {
            if lyric_pick_spec(rest, time) is Some {
                lemma_pick_witness(rest, time);
                let i = choose|i: int|
                    0 <= i < rest.len() && parse_time_spec(#[trigger] rest[i].0) == Ok::<
                        u64,
                        Seq<char>,
                    >(p.0) && rest[i].1 == p.1;
                assert(entries[i + 1] == rest[i]);
            } else {
                assert(parse_time_spec(entries[0].0) == Ok::<u64, Seq<char>>(p.0));
            }
        },
    }
}

/// Law: the lyric cursor is monotone — over a table whose parseable
/// timestamps ascend, raising the query time never moves the cursor to
/// an entry with an earlier timestamp, and never loses the lyric
/// altogether. (Over an out-of-order table this can fail, which is why
/// the table order is assumed here.)
pub proof fn lemma_lyric_monotonic(entries: Seq<(Seq<char>, Seq<char>)>, t1: u64, t2: u64)
    requires
        times_ascending(entries),
        t1 <= t2,
        lyric_pick_spec(entries, t1) is Some,
    ensures
        lyric_pick_spec(entries, t2) is Some,
        lyric_pick_spec(entries, t1)->Some_0.0 <= lyric_pick_spec(entries, t2)->Some_0.0,
    decreases entries.len(),
{
    let head = entries[0];
    let rest = entries.drop_first();
    assert(times_ascending(rest)) by {
        assert forall|i: int, j: int|
            #![trigger parse_time_spec(rest[i].0), parse_time_spec(rest[j].0)]
            0 <= i < j < rest.len() && parse_time_spec(rest[i].0) is Ok && parse_time_spec(
                rest[j].0,
            ) is Ok implies parse_time_spec(rest[i].0)->Ok_0 <= parse_time_spec(
            rest[j].0)->Ok_0 by {
            assert(rest[i] == entries[i + 1]);
            assert(rest[j] == entries[j + 1]);
        }
    }
    match parse_time_spec(head.0) {
        Err(_) => {
            lemma_lyric_monotonic(rest, t1, t2);
        },
        Ok(t) => {
            match lyric_pick_spec(rest, t1) {
                Some(p1) => {
                    lemma_lyric_monotonic(rest, t1, t2);
                },
                None => {
                    if lyric_pick_spec(rest, t2) is Some {
                        lemma_pick_witness(rest, t2);
                        let p2 = lyric_pick_spec(rest, t2)->Some_0;
                        let i = choose|i: int|
                            0 <= i < rest.len() && parse_time_spec(#[trigger] rest[i].0) == Ok::<
                                u64,
                                Seq<char>,
                            >(p2.0) && rest[i].1 == p2.1;
                        assert(rest[i] == entries[i + 1]);
                        assert(parse_time_spec(entries[0].0)->Ok_0 <= parse_time_spec(
                            entries[i + 1].0)->Ok_0);
                    }
                },
            }
        },
    }
}

} // verus!
