//! File-name conventions: each file in a store directory is named by a
//! 12-digit zero-padded decimal id followed by a kind suffix; a parse
//! takes the leading digit run of the basename before the first dot.
use vstd::prelude::*;

use vstd::string::StringExecFns;
use vstd::string::StringSliceAdditionalSpecFns;

verus! {

/// Whether a byte is an ASCII decimal digit.
pub open spec fn is_digit(b: u8) -> bool {
    48 <= b <= 57
}

/// The number a big-endian run of digit bytes denotes.
pub open spec fn digits_value(s: Seq<u8>) -> int
    decreases s.len(),
{
    if s.len() == 0 {
        0
    } else {
        digits_value(s.drop_last()) * 10 + (s.last() - 48)
    }
}

/// Where the first dot stands in a name (the name's length if none does).
pub open spec fn dot_pos(s: Seq<u8>) -> int
    decreases s.len(),
{
    if s.len() == 0 {
        0
    } else if s[0] == 46 {
        0
    } else {
        1 + dot_pos(s.skip(1))
    }
}

proof fn lemma_dot_pos(s: Seq<u8>, d: int)
    requires
        0 <= d <= s.len(),
        forall|j: int| 0 <= j < d ==> s[j] != 46,
        d < s.len() ==> s[d] == 46,
    ensures
        dot_pos(s) == d,
    decreases s.len(),
{
    if s.len() > 0 && s[0] != 46 {
        let t = s.skip(1);
        assert(forall|j: int| 0 <= j < d - 1 ==> t[j] == s[j + 1]);
        lemma_dot_pos(t, d - 1);
    }
}

/// Growing a digit run never shrinks its value.
proof fn lemma_digits_value_grows(s: Seq<u8>, i: int)
    requires
        0 <= i <= s.len(),
        forall|j: int| 0 <= j < s.len() ==> is_digit(#[trigger] s[j]),
    ensures
        digits_value(s.take(i)) <= digits_value(s),
        digits_value(s) >= 0,
    decreases s.len() - i,
{
    if i == s.len() {
        assert(s.take(i) =~= s);
        lemma_digits_value_nonneg(s);
    } else {
        lemma_digits_value_grows(s, i + 1);
        lemma_digits_value_nonneg(s.take(i));
        assert(s.take(i + 1).drop_last() =~= s.take(i));
        assert(s.take(i + 1).last() == s[i]);
    }
}

proof fn lemma_digits_value_nonneg(s: Seq<u8>)
    ensures
        (forall|j: int| 0 <= j < s.len() ==> is_digit(#[trigger] s[j])) ==> digits_value(s) >= 0,
    decreases s.len(),
{
    if s.len() > 0 {
        lemma_digits_value_nonneg(s.drop_last());
        assert(forall|j: int| 0 <= j < s.drop_last().len() ==> s.drop_last()[j] == s[j]);
    }
}

/// The numeric id in a file name: the basename's first segment, before any
/// dot, read as a decimal number. Absent when the segment is empty, holds
/// a non-digit, or denotes a number too large for an id.
pub fn parse_file_id(name: &str) -> (r: Option<u64>)
    ensures
        ({
            let s = name.spec_bytes();
            let d = dot_pos(s);
            match r {
                Some(v) => d > 0 && (forall|j: int| 0 <= j < d ==> is_digit(#[trigger] s[j]))
                    && digits_value(s.take(d)) == v,
                None => d == 0 || (exists|j: int| 0 <= j < d && !is_digit(#[trigger] s[j]))
                    || digits_value(s.take(d)) > u64::MAX,
            }
        }),
{
    let bytes = name.as_bytes();
    let ghost s = name.spec_bytes();
    let n = bytes.len();
    let mut d: usize = 0;
    while d < n && bytes[d] != 46
        invariant
            0 <= d <= n,
            n == s.len(),
            bytes@ == s,
            forall|j: int| 0 <= j < d ==> s[j] != 46,
        decreases n - d,
    {
        d = d + 1;
    }
    proof {
        lemma_dot_pos(s, d as int);
    }
    if d == 0 {
        return None;
    }
    let mut acc: u64 = 0;
    let mut i: usize = 0;
    while i < d
        invariant
            0 <= i <= d,
            0 < d <= n,
            n == s.len(),
            bytes@ == s,
            s == name.spec_bytes(),
            dot_pos(s) == d,
            forall|j: int| 0 <= j < i ==> is_digit(#[trigger] s[j]),
            acc == digits_value(s.take(i as int)),
        decreases d - i,
    {
        let b = bytes[i];
        if b < 48 || b > 57 {
            proof {
                assert(!is_digit(s[i as int]));
                assert(exists|j: int| 0 <= j < d && !is_digit(#[trigger] s[j]));
            }
            return None;
        }
        let step = match acc.checked_mul(10) {
            Some(t) => t.checked_add((b - 48) as u64),
            None => None,
        };
        match step {
            Some(next) => {
                acc = next;
                proof {
                    assert(s.take(i + 1).drop_last() =~= s.take(i as int));
                    assert(s.take(i + 1).last() == s[i as int]);
                }
            },
            None => {
                proof {
                    assert(s.take(i + 1).drop_last() =~= s.take(i as int));
                    assert(s.take(i + 1).last() == s[i as int]);
                    assert(digits_value(s.take(i + 1)) > u64::MAX);
                    if forall|j: int| 0 <= j < d ==> is_digit(#[trigger] s[j]) {
                        let t = s.take(d as int);
                        assert(forall|j: int| 0 <= j < t.len() ==> is_digit(#[trigger] t[j]));
                        lemma_digits_value_grows(t, i + 1);
                        assert(t.take(i + 1) =~= s.take(i + 1));
                        assert(digits_value(s.take(d as int)) > u64::MAX);
                    } else {
                        assert(exists|j: int| 0 <= j < d && !is_digit(#[trigger] s[j]));
                    }
                }
                return None;
            },
        }
        i = i + 1;
    }
    Some(acc)
}

/// The character for one decimal digit.
pub open spec fn digit_char(d: int) -> char {
    if d == 0 {
        '0'
    } else if d == 1 {
        '1'
    } else if d == 2 {
        '2'
    } else if d == 3 {
        '3'
    } else if d == 4 {
        '4'
    } else if d == 5 {
        '5'
    } else if d == 6 {
        '6'
    } else if d == 7 {
        '7'
    } else if d == 8 {
        '8'
    } else {
        '9'
    }
}

/// A number's decimal digits, most significant first.
pub open spec fn dec_chars(n: int) -> Seq<char>
    decreases n,
{
    if n < 10 {
        seq![digit_char(n)]
    } else {
        dec_chars(n / 10) + seq![digit_char(n % 10)]
    }
}

/// `k` zero characters.
pub open spec fn zeros(k: int) -> Seq<char>
    decreases k,
{
    if k <= 0 {
        Seq::empty()
    } else {
        zeros(k - 1).push('0')
    }
}

/// A number's decimal digits padded with zeros to at least twelve places.
pub open spec fn padded12(n: int) -> Seq<char> {
    if dec_chars(n).len() >= 12 {
        dec_chars(n)
    } else {
        zeros(12 - dec_chars(n).len()) + dec_chars(n)
    }
}

fn digit_str(d: u64) -> (r: &'static str)
    requires
        d < 10,
    ensures
        r@ == seq![digit_char(d as int)],
{
    let r: &'static str = match d {
        0 => "0",
        1 => "1",
        2 => "2",
        3 => "3",
        4 => "4",
        5 => "5",
        6 => "6",
        7 => "7",
        8 => "8",
        _ => "9",
    };
    proof {
        reveal_strlit("0");
        reveal_strlit("1");
        reveal_strlit("2");
        reveal_strlit("3");
        reveal_strlit("4");
        reveal_strlit("5");
        reveal_strlit("6");
        reveal_strlit("7");
        reveal_strlit("8");
        reveal_strlit("9");
        assert(r@ =~= seq![digit_char(d as int)]);
    }
    r
}

fn u64_dec_string(n: u64) -> (s: String)
    ensures
        s@ == dec_chars(n as int),
    decreases n,
{
    if n < 10 {
        String::from_str(digit_str(n))
    } else {
        let mut s = u64_dec_string(n / 10);
        s.append(digit_str(n % 10));
        proof {
            assert(s@ =~= dec_chars(n as int));
        }
        s
    }
}

fn dec_len(n: u64) -> (c: usize)
    ensures
        1 <= c <= 12,
        c < 12 ==> c == dec_chars(n as int).len(),
        c == 12 ==> dec_chars(n as int).len() >= 12,
    decreases n,
{
    if n < 10 {
        1
    } else {
        let t = dec_len(n / 10);
        if t >= 12 {
            12
        } else {
            t + 1
        }
    }
}

/// `dir/<id padded to 12 digits><suffix>`.
fn format_id_path(dir: &str, id: u64, suffix: &str) -> (r: String)
    ensures
        r@ == dir@ + seq!['/'] + padded12(id as int) + suffix@,
{
    let mut s = String::from_str(dir);
    s.append("/");
    proof {
        reveal_strlit("/");
        assert("/"@ =~= seq!['/']);
    }
    let nd = dec_len(id);
    let mut k: usize = nd;
    proof {
        assert(zeros(0) =~= Seq::<char>::empty());
        assert(s@ =~= dir@ + seq!['/'] + zeros(k - nd));
    }
    while k < 12
        invariant
            nd <= k <= 12,
            1 <= nd <= 12,
            nd < 12 ==> nd == dec_chars(id as int).len(),
            nd == 12 ==> dec_chars(id as int).len() >= 12,
            s@ == dir@ + seq!['/'] + zeros(k - nd),
        decreases 12 - k,
    {
        s.append("0");
        proof {
            reveal_strlit("0");
            assert("0"@ =~= seq!['0']);
            assert(s@ =~= dir@ + seq!['/'] + zeros(k + 1 - nd));
        }
        k = k + 1;
    }
    let digits = u64_dec_string(id);
    s.append(digits.as_str());
    s.append(suffix);
    proof {
        assert(s@ =~= dir@ + seq!['/'] + padded12(id as int) + suffix@);
    }
    s
}

/// The path of a sorted run: `dir/NNNNNNNNNNNN.data`.
pub fn format_sstable_path(dir: &str, id: u64) -> (r: String)
    ensures
        r@ == dir@ + seq!['/'] + padded12(id as int) + seq!['.', 'd', 'a', 't', 'a'],
{
    let r = format_id_path(dir, id, ".data");
    proof {
        reveal_strlit(".data");
        assert(".data"@ =~= seq!['.', 'd', 'a', 't', 'a']);
    }
    r
}

/// The path of a hint file: `dir/NNNNNNNNNNNN.hint`.
pub fn format_hint_path(dir: &str, id: u64) -> (r: String)
    ensures
        r@ == dir@ + seq!['/'] + padded12(id as int) + seq!['.', 'h', 'i', 'n', 't'],
{
    let r = format_id_path(dir, id, ".hint");
    proof {
        reveal_strlit(".hint");
        assert(".hint"@ =~= seq!['.', 'h', 'i', 'n', 't']);
    }
    r
}

/// The path of an in-flight compaction run: `dir/NNNNNNNNNNNN.data-tmp`.
pub fn format_sstable_tmp_path(dir: &str, id: u64) -> (r: String)
    ensures
        r@ == dir@ + seq!['/'] + padded12(id as int) + seq![
            '.',
            'd',
            'a',
            't',
            'a',
            '-',
            't',
            'm',
            'p',
        ],
{
    let r = format_id_path(dir, id, ".data-tmp");
    proof {
        reveal_strlit(".data-tmp");
        assert(".data-tmp"@ =~= seq!['.', 'd', 'a', 't', 'a', '-', 't', 'm', 'p']);
    }
    r
}

/// The path of an in-flight compaction hint: `dir/NNNNNNNNNNNN.hint-tmp`.
pub fn format_hint_tmp_path(dir: &str, id: u64) -> (r: String)
    ensures
        r@ == dir@ + seq!['/'] + padded12(id as int) + seq![
            '.',
            'h',
            'i',
            'n',
            't',
            '-',
            't',
            'm',
            'p',
        ],
{
    let r = format_id_path(dir, id, ".hint-tmp");
    proof {
        reveal_strlit(".hint-tmp");
        assert(".hint-tmp"@ =~= seq!['.', 'h', 'i', 'n', 't', '-', 't', 'm', 'p']);
    }
    r
}

/// The path of the write-ahead log: `dir/NNNNNNNNNNNN.wal`.
pub fn format_wal_path(dir: &str, id: u64) -> (r: String)
    ensures
        r@ == dir@ + seq!['/'] + padded12(id as int) + seq!['.', 'w', 'a', 'l'],
{
    let r = format_id_path(dir, id, ".wal");
    proof {
        reveal_strlit(".wal");
        assert(".wal"@ =~= seq!['.', 'w', 'a', 'l']);
    }
    r
}

} // verus!
