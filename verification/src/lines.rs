//! Line-record handling for the reporting drivers: the wire format is
//! one record per line, `<path> <ownerId> <sizeBytes>`, split on the
//! last two spaces. Blank lines are discarded; a malformed line parses
//! to nothing and is skipped by the caller with a diagnostic.
use vstd::prelude::*;

verus! {

/// True for the characters that end-of-line trimming treats as
/// whitespace: the ASCII spacing characters and the Unicode
/// white-space code points.
pub open spec fn is_space_char(c: char) -> bool {
    ||| (0x9 <= c as u32 <= 0xd)
    ||| c as u32 == 0x20
    ||| c as u32 == 0x85
    ||| c as u32 == 0xa0
    ||| c as u32 == 0x1680
    ||| (0x2000 <= c as u32 <= 0x200a)
    ||| c as u32 == 0x2028
    ||| c as u32 == 0x2029
    ||| c as u32 == 0x202f
    ||| c as u32 == 0x205f
    ||| c as u32 == 0x3000
}

/// True when the line holds nothing but whitespace.
pub open spec fn line_is_blank(s: Seq<char>) -> bool {
    forall|i: int| 0 <= i < s.len() ==> is_space_char(#[trigger] s[i])
}

fn is_space_char_exec(c: char) -> (r: bool)
    ensures
        r == is_space_char(c),
{
    let v = c as u32;
    (0x9 <= v && v <= 0xd) || v == 0x20 || v == 0x85 || v == 0xa0 || v == 0x1680 || (0x2000 <= v
        && v <= 0x200a) || v == 0x2028 || v == 0x2029 || v == 0x202f || v == 0x205f || v == 0x3000
}

/// True when the line holds anything besides whitespace; lines that do
/// not are dropped from the record stream.
pub fn discard_empty_lines(line: &String) -> (r: bool)
    ensures
        r == !line_is_blank(line@),
{
    let s = line.as_str();
    let n = s.unicode_len();
    let mut i: usize = 0;
    while i < n
        invariant
            i <= n,
            n == s@.len(),
            s@ == line@,
            forall|j: int| 0 <= j < i ==> is_space_char(#[trigger] s@[j]),
        decreases n - i,
    {
        if !is_space_char_exec(s.get_char(i)) {
            return true;
        }
        i = i + 1;
    }
    false
}

/// The index of the last occurrence of `c` in the string, or -1 when
/// there is none.
pub open spec fn last_occurrence(s: Seq<char>, c: char) -> int
    decreases s.len(),
{
    if s.len() == 0 {
        -1
    } else if s[s.len() - 1] == c {
        s.len() - 1
    } else {
        last_occurrence(s.drop_last(), c)
    }
}

proof fn lemma_last_occurrence_at(s: Seq<char>, c: char, k: int)
    requires
        0 <= k < s.len(),
        s[k] == c,
        forall|j: int| k < j < s.len() ==> s[j] != c,
    ensures
        last_occurrence(s, c) == k,
    decreases s.len(),
{
    if k < s.len() - 1 {
        assert(s[s.len() - 1] != c);
        assert(forall|j: int| k < j < s.drop_last().len() ==> s.drop_last()[j] != c);
        lemma_last_occurrence_at(s.drop_last(), c, k);
    }
}

proof fn lemma_last_occurrence_none(s: Seq<char>, c: char)
    requires
        forall|j: int| 0 <= j < s.len() ==> s[j] != c,
    ensures
        last_occurrence(s, c) == -1,
    decreases s.len(),
{
    if s.len() > 0 {
        lemma_last_occurrence_none(s.drop_last(), c);
    }
}

/// True for a decimal digit.
pub open spec fn is_digit(c: char) -> bool {
    0x30 <= c as u32 <= 0x39
}

/// True when the string is one or more decimal digits.
pub open spec fn all_digits(s: Seq<char>) -> bool {
    forall|i: int| 0 <= i < s.len() ==> is_digit(#[trigger] s[i])
}

/// The value of one decimal digit.
pub open spec fn digit_val(c: char) -> int {
    c as u32 - 0x30
}

/// The value of a decimal digit string, most significant digit first.
pub open spec fn dec_val(s: Seq<char>) -> int
    decreases s.len(),
{
    if s.len() == 0 {
        0
    } else {
        dec_val(s.drop_last()) * 10 + digit_val(s.last())
    }
}

/// What parsing an unsigned decimal owner id yields: after an optional
/// leading plus sign, one or more digits whose value fits; anything
/// else is rejected.
pub open spec fn parse_u32_spec(s: Seq<char>) -> Option<u32> {
    let d = if s.len() >= 1 && s[0] == '+' {
        s.drop_first()
    } else {
        s
    };
    if d.len() >= 1 && all_digits(d) && dec_val(d) <= u32::MAX {
        Option::Some(dec_val(d) as u32)
    } else {
        Option::None
    }
}

proof fn lemma_dec_val_nonneg(s: Seq<char>)
    requires
        all_digits(s),
    ensures
        dec_val(s) >= 0,
    decreases s.len(),
{
    if s.len() > 0 {
        assert(all_digits(s.drop_last()));
        lemma_dec_val_nonneg(s.drop_last());
    }
}

proof fn lemma_dec_val_prefix_le(s: Seq<char>, j: int)
    requires
        all_digits(s),
        0 <= j <= s.len(),
    ensures
        dec_val(s.take(j)) <= dec_val(s),
    decreases s.len() - j,
{
    if j == s.len() {
        assert(s.take(j) =~= s);
    } else {
        assert(s.take(j + 1).drop_last() =~= s.take(j));
        assert(all_digits(s.take(j)));
        lemma_dec_val_nonneg(s.take(j));
        assert(dec_val(s.take(j + 1)) == dec_val(s.take(j)) * 10 + digit_val(s.take(j + 1).last()));
        assert(is_digit(s[j]));
        lemma_dec_val_prefix_le(s, j + 1);
    }
}

/// Parses an unsigned decimal number as the owner-id field requires:
/// an optional leading plus sign, then digits; rejects anything else
/// and any value too large for the type.
pub fn parse_u32(s: &str) -> (r: Option<u32>)
    ensures
        r == parse_u32_spec(s@),
{
    let n = s.unicode_len();
    let offset: usize = if n >= 1 && s.get_char(0) == '+' {
        1
    } else {
        0
    };
    let ghost d = if offset == 1 {
        s@.drop_first()
    } else {
        s@
    };
    proof {
        assert(d.len() == n - offset);
        assert(forall|j: int| 0 <= j < d.len() ==> d[j] == s@[j + offset]);
    }
    if offset == n {
        return Option::None;
    }
    let mut acc: u32 = 0;
    let mut i: usize = offset;
    while i < n
        invariant
            offset <= i <= n,
            n == s@.len(),
            offset == 0 || offset == 1,
            offset == 1 ==> n >= 1 && s@[0] == '+',
            offset == 0 ==> n == 0 || s@[0] != '+',
            d == (if offset == 1 {
                s@.drop_first()
            } else {
                s@
            }),
            d.len() == n - offset,
            forall|j: int| 0 <= j < d.len() ==> d[j] == s@[j + offset],
            all_digits(d.take(i - offset)),
            acc == dec_val(d.take(i - offset)),
        decreases n - i,
    {
        let c = s.get_char(i);
        let v = c as u32;
        if !(0x30 <= v && v <= 0x39) {
            proof {
                assert(d[i - offset] == s@[i as int]);
                assert(!is_digit(d[i - offset]));
            }
            return Option::None;
        }
        let dg: u32 = v - 0x30;
        proof {
            assert(d.take(i - offset + 1).drop_last() =~= d.take(i - offset));
            assert(d.take(i - offset + 1).last() == d[i - offset]);
            assert(d[i - offset] == s@[i as int]);
            assert(dec_val(d.take(i - offset + 1)) == acc * 10 + dg);
        }
        if acc > (u32::MAX - dg) / 10 {
            proof {
                assert(all_digits(d.take(i - offset + 1)));
                assert(acc * 10 + dg > u32::MAX) by {
                    assert(acc >= (u32::MAX - dg) / 10 + 1);
                    assert(((u32::MAX - dg) / 10 + 1) * 10 == ((u32::MAX - dg) / 10) * 10 + 10);
                    assert(((u32::MAX - dg) / 10) * 10 > u32::MAX - dg - 10);
                };
                assert(dec_val(d.take(i - offset + 1)) > u32::MAX);
                if all_digits(d) {
                    lemma_dec_val_prefix_le(d, i - offset + 1);
                }
            }
            return Option::None;
        }
        proof {
            assert(acc <= (u32::MAX - dg) / 10);
            assert(acc * 10 <= ((u32::MAX - dg) / 10) * 10);
            assert(((u32::MAX - dg) / 10) * 10 <= u32::MAX - dg);
        }
        acc = acc * 10 + dg;
        i = i + 1;
    }
    proof {
        assert(d.take(n - offset) =~= d);
    }
    Option::Some(acc)
}

/// What the byte-size field parses to: the byte count of a size written
/// as a number with an optional decimal fraction and byte-unit suffix,
/// or nothing when the text is not a size. The result depends on the
/// text alone.
pub uninterp spec fn byte_size_of(s: Seq<char>) -> Option<u64>;

/// Relies on ubyte's `ByteUnit` string parsing to read the size field,
/// and on `ByteUnit::as_u64` to express the parsed size in bytes.
#[verifier::external_body]
fn parse_byte_size(s: &str) -> (r: Option<u64>)
    ensures
        r == byte_size_of(s@),
{
    match s.parse::<ubyte::ByteUnit>() {
        Ok(b) => Some(b.as_u64()),
        Err(_) => None,
    }
}

/// What one record line parses to: the text is split at its last space
/// into the size field and a remainder, the remainder at its last space
/// into the path and the owner id; the line is malformed — and parses
/// to nothing — when either split finds no space, the owner id is not
/// an unsigned decimal number, or the size field is not a byte size.
pub open spec fn parse_line_spec(s: Seq<char>) -> Option<(Seq<char>, u32, u64)> {
    let i = last_occurrence(s, ' ');
    if i < 0 {
        Option::None
    } else {
        let rest = s.take(i);
        let size_field = s.skip(i + 1);
        let j = last_occurrence(rest, ' ');
        if j < 0 {
            Option::None
        } else {
            let path = rest.take(j);
            let uid_field = rest.skip(j + 1);
            match parse_u32_spec(uid_field) {
                Option::Some(uid) => match byte_size_of(size_field) {
                    Option::Some(size) => Option::Some((path, uid, size)),
                    Option::None => Option::None,
                },
                Option::None => Option::None,
            }
        }
    }
}

/// The view of a parsed record.
pub open spec fn parsed_line_view(r: Option<(String, u32, u64)>) -> Option<(Seq<char>, u32, u64)> {
    match r {
        Option::Some(t) => Option::Some((t.0@, t.1, t.2)),
        Option::None => Option::None,
    }
}

/// Finds the last space at or before position `hi` (exclusive).
fn find_last_space(s: &str, hi: usize) -> (r: Option<usize>)
    requires
        hi <= s@.len(),
    ensures
        match r {
            Option::Some(k) => k < hi && k == last_occurrence(s@.take(hi as int), ' '),
            Option::None => last_occurrence(s@.take(hi as int), ' ') == -1,
        },
{
    let ghost prefix = s@.take(hi as int);
    let mut i = hi;
    while i > 0
        invariant
            i <= hi <= s@.len(),
            prefix == s@.take(hi as int),
            forall|j: int| i <= j < hi ==> s@[j] != ' ',
        decreases i,
    {
        if s.get_char(i - 1) == ' ' {
            proof {
                assert(prefix[i - 1] == s@[i - 1]);
                assert(forall|j: int| i <= j < prefix.len() ==> prefix[j] == s@[j] && s@[j] != ' ');
                lemma_last_occurrence_at(prefix, ' ', i - 1);
            }
            return Option::Some(i - 1);
        }
        i = i - 1;
    }
    proof {
        assert(forall|j: int| 0 <= j < prefix.len() ==> prefix[j] == s@[j] && s@[j] != ' ');
        lemma_last_occurrence_none(prefix, ' ');
    }
    Option::None
}

/// Parses one `<path> <ownerId> <sizeBytes>` record line, or nothing
/// when the line is malformed.
pub fn parse_oldir_line(line: &str) -> (r: Option<(String, u32, u64)>)
    ensures
        parsed_line_view(r) == parse_line_spec(line@),
{
    let n = line.unicode_len();
    proof {
        assert(line@.take(n as int) =~= line@);
    }
    let i = match find_last_space(line, n) {
        Option::Some(i) => i,
        Option::None => {
            return Option::None;
        },
    };
    let ghost rest = line@.take(i as int);
    let j = match find_last_space(line, i) {
        Option::Some(j) => j,
        Option::None => {
            return Option::None;
        },
    };
    let uid_field = line.substring_char(j + 1, i);
    proof {
        assert(uid_field@ =~= rest.skip(j + 1));
    }
    let uid = match parse_u32(uid_field) {
        Option::Some(uid) => uid,
        Option::None => {
            return Option::None;
        },
    };
    let size_field = line.substring_char(i + 1, n);
    proof {
        assert(size_field@ =~= line@.skip(i + 1));
    }
    let size = match parse_byte_size(size_field) {
        Option::Some(size) => size,
        Option::None => {
            return Option::None;
        },
    };
    let path = line.substring_char(0, j).to_owned();
    proof {
        assert(path@ =~= rest.take(j as int));
    }
    Option::Some((path, uid, size))
}

/// The diagnostic text for a failure on one path: the path in quotes,
/// then the cause.
pub open spec fn fs_error_text(path: Seq<char>, cause: Seq<char>) -> Seq<char> {
    "Error on path \""@ + path + "\": "@ + cause
}

/// Renders a per-path failure for the diagnostic channel, naming the
/// path the failure was met on and the underlying cause.
pub fn fs_error_helper(path: &str, cause: &str) -> (r: String)
    ensures
        r@ == fs_error_text(path@, cause@),
{
    let mut r = "Error on path \"".to_owned();
    r.append(path);
    r.append("\": ");
    r.append(cause);
    proof {
        assert(r@ =~= fs_error_text(path@, cause@));
    }
    r
}

} // verus!
