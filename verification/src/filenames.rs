//! The names of the files in the database directory.

use vstd::prelude::*;
use vstd::string::*;
use vstd::slice::slice_subrange;
use crate::key_types::bytes_eq;
use crate::version::FileNum;

verus! {

/// What a file in the database directory is.
#[derive(Clone, Copy, Debug, PartialEq, Eq, Structural)]
pub enum FileType {
    Log,
    DBLock,
    Table,
    Descriptor,
    Current,
    Temp,
    InfoLog,
}

/// The character for the digit `d`.
pub open spec fn digit_char(d: int) -> char {
    if d == 0 {
        '0'
    } else if d == 1 {
        '1'
    } else if d == 2 {
        '2'
    } else if d == 3 {
        '3'
    } else if d == 4 {
        '4'
    } else if d == 5 {
        '5'
    } else if d == 6 {
        '6'
    } else if d == 7 {
        '7'
    } else if d == 8 {
        '8'
    } else {
        '9'
    }
}

/// `n` in decimal, with zeros in front up to `width` digits.
pub open spec fn padded(n: nat, width: nat) -> Seq<char>
    decreases n, width,
{
    if n < 10 && width <= 1 {
        seq![digit_char(n as int)]
    } else {
        padded(
            n / 10,
            if width > 0 {
                (width - 1) as nat
            } else {
                0
            },
        ) + seq![digit_char((n % 10) as int)]
    }
}

fn digit_str(d: u64) -> (r: &'static str)
    requires
        d < 10,
    ensures
        r@ == seq![digit_char(d as int)],
{
    proof {
        reveal_strlit("0");
        reveal_strlit("1");
        reveal_strlit("2");
        reveal_strlit("3");
        reveal_strlit("4");
        reveal_strlit("5");
        reveal_strlit("6");
        reveal_strlit("7");
        reveal_strlit("8");
        reveal_strlit("9");
    }
    let r = if d == 0 {
        "0"
    } else if d == 1 {
        "1"
    } else if d == 2 {
        "2"
    } else if d == 3 {
        "3"
    } else if d == 4 {
        "4"
    } else if d == 5 {
        "5"
    } else if d == 6 {
        "6"
    } else if d == 7 {
        "7"
    } else if d == 8 {
        "8"
    } else {
        "9"
    };
    assert(r@ =~= seq![digit_char(d as int)]);
    r
}

fn push_padded(s: &mut String, n: u64, width: u64)
    ensures
        final(s)@ == old(s)@ + padded(n as nat, width as nat),
    decreases n, width,
{
    if n < 10 && width <= 1 {
        s.append(digit_str(n));
    } else {
        let w: u64 = if width > 0 {
            width - 1
        } else {
            0
        };
        push_padded(s, n / 10, w);
        s.append(digit_str(n % 10));
        assert(s@ =~= old(s)@ + padded(n as nat, width as nat));
    }
}

/// `<db>/<num>.log`, the number with at least six digits.
pub open spec fn log_name(db: Seq<char>, num: u64) -> Seq<char> {
    db + "/"@ + padded(num as nat, 6) + ".log"@
}

/// `<db>/<num>.ldb`, the number with at least six digits.
pub open spec fn table_name(db: Seq<char>, num: u64) -> Seq<char> {
    db + "/"@ + padded(num as nat, 6) + ".ldb"@
}

/// `<db>/MANIFEST-<num>`, the number with at least six digits.
pub open spec fn manifest_name(db: Seq<char>, num: u64) -> Seq<char> {
    db + "/MANIFEST-"@ + padded(num as nat, 6)
}

/// The name of the write-ahead log with number `num`.
pub fn log_file_name(db: &str, num: FileNum) -> (r: String)
    ensures
        r@ == log_name(db@, num),
{
    let mut s = String::from_str(db);
    s.append("/");
    push_padded(&mut s, num, 6);
    s.append(".log");
    s
}

/// The name of the table file with number `num`.
pub fn table_file_name(db: &str, num: FileNum) -> (r: String)
    ensures
        r@ == table_name(db@, num),
{
    let mut s = String::from_str(db);
    s.append("/");
    push_padded(&mut s, num, 6);
    s.append(".ldb");
    s
}

/// The name of the manifest with number `num`.
pub fn manifest_file_name(db: &str, num: FileNum) -> (r: String)
    ensures
        r@ == manifest_name(db@, num),
{
    let mut s = String::from_str(db);
    s.append("/MANIFEST-");
    push_padded(&mut s, num, 6);
    s
}

/// The name of the lock file: `<db>/LOCK`.
pub fn lock_file_name(db: &str) -> (r: String)
    ensures
        r@ == db@ + "/LOCK"@,
{
    let mut s = String::from_str(db);
    s.append("/LOCK");
    s
}

/// The name of the file that names the manifest in force: `<db>/CURRENT`.
pub fn current_file_name(db: &str) -> (r: String)
    ensures
        r@ == db@ + "/CURRENT"@,
{
    let mut s = String::from_str(db);
    s.append("/CURRENT");
    s
}

/// The number that decimal digits stand for.
pub open spec fn decimal_value(b: Seq<u8>) -> int
    decreases b.len(),
{
    if b.len() == 0 {
        0
    } else {
        decimal_value(b.drop_last()) * 10 + (b.last() - 48)
    }
}

/// Whether every byte is a decimal digit.
pub open spec fn all_digits(b: Seq<u8>) -> bool {
    forall|i: int| 0 <= i < b.len() ==> 48 <= #[trigger] b[i] <= 57
}

/// The number that `b` spells in decimal: `b` is not empty, holds digits
/// only, and the number fits in 64 bits.
pub open spec fn parse_number(b: Seq<u8>) -> Option<u64> {
    if b.len() > 0 && all_digits(b) && decimal_value(b) <= u64::MAX {
        Some(decimal_value(b) as u64)
    } else {
        None
    }
}

/// More digits do not make a smaller number.
pub proof fn lemma_decimal_monotonic(b: Seq<u8>, i: int)
    requires
        0 <= i <= b.len(),
        all_digits(b),
    ensures
        0 <= decimal_value(b.subrange(0, i)) <= decimal_value(b),
    decreases b.len() - i,
{
    if i < b.len() {
        lemma_decimal_monotonic(b, i + 1);
        assert(b.subrange(0, i + 1).drop_last() =~= b.subrange(0, i));
        lemma_decimal_nonneg(b.subrange(0, i));
    } else {
        assert(b.subrange(0, i) =~= b);
        lemma_decimal_nonneg(b);
    }
}

/// Digits spell a number that is not negative.
pub proof fn lemma_decimal_nonneg(b: Seq<u8>)
    requires
        all_digits(b),
    ensures
        0 <= decimal_value(b),
    decreases b.len(),
{
    if b.len() > 0 {
        lemma_decimal_nonneg(b.drop_last());
    }
}

/// Reads a decimal number that fills `b`.
pub fn parse_decimal(b: &[u8]) -> (r: Option<u64>)
    ensures
        r == parse_number(b@),
{
    if b.len() == 0 {
        return None;
    }
    let mut acc: u64 = 0;
    let mut i: usize = 0;
    while i < b.len()
        invariant
            i <= b.len(),
            all_digits(b@.subrange(0, i as int)),
            acc == decimal_value(b@.subrange(0, i as int)),
        decreases b.len() - i,
    {
        let c = b[i];
        if c < 48 || c > 57 {
            return None;
        }
        let d: u64 = (c - 48) as u64;
        proof {
            assert(b@.subrange(0, i + 1).drop_last() =~= b@.subrange(0, i as int));
            assert(all_digits(b@.subrange(0, i + 1)));
        }
        if acc > (u64::MAX - d) / 10 {
            proof {
                if all_digits(b@) {
                    lemma_decimal_monotonic(b@, i + 1);
                }
            }
            return None;
        }
        acc = acc * 10 + d;
        i += 1;
    }
    assert(b@.subrange(0, i as int) =~= b@);
    Some(acc)
}

/// The place of the first `.` from `from` on; the length where there is none.
pub open spec fn first_dot(b: Seq<u8>, from: int) -> int
    decreases b.len() - from,
{
    if from < 0 || from >= b.len() {
        b.len() as int
    } else if b[from] == 46 {
        from
    } else {
        first_dot(b, from + 1)
    }
}

/// Whether `b` begins with `prefix`.
pub open spec fn has_prefix(b: Seq<u8>, prefix: Seq<u8>) -> bool {
    prefix.len() <= b.len() && b.subrange(0, prefix.len() as int) == prefix
}

/// What the name of a file in the database directory says: the file's number
/// and what the file is. `CURRENT`, `LOCK`, `LOG` and `LOG.old` have the
/// number 0; a manifest is `MANIFEST-<num>`; the others are `<num>.log`,
/// `<num>.ldb` or `<num>.sst`, and `<num>.dbtmp`. Any other name says
/// nothing.
pub open spec fn parse_name(b: Seq<u8>) -> Option<(u64, FileType)> {
    if b == "CURRENT".spec_bytes() {
        Some((0u64, FileType::Current))
    } else if b == "LOCK".spec_bytes() {
        Some((0u64, FileType::DBLock))
    } else if b == "LOG".spec_bytes() || b == "LOG.old".spec_bytes() {
        Some((0u64, FileType::InfoLog))
    } else if has_prefix(b, "MANIFEST-".spec_bytes()) {
        match parse_number(b.subrange("MANIFEST-".spec_bytes().len() as int, b.len() as int)) {
            Some(n) => Some((n, FileType::Descriptor)),
            None => None,
        }
    } else {
        let d = first_dot(b, 0);
        let suffix = b.subrange(d, b.len() as int);
        match parse_number(b.subrange(0, d)) {
            None => None,
            Some(n) => if suffix == ".log".spec_bytes() {
                Some((n, FileType::Log))
            } else if suffix == ".ldb".spec_bytes() || suffix == ".sst".spec_bytes() {
                Some((n, FileType::Table))
            } else if suffix == ".dbtmp".spec_bytes() {
                Some((n, FileType::Temp))
            } else {
                None
            },
        }
    }
}

fn find_dot(b: &[u8]) -> (r: usize)
    ensures
        r == first_dot(b@, 0),
        r <= b@.len(),
{
    let mut i: usize = 0;
    while i < b.len()
        invariant
            i <= b.len(),
            first_dot(b@, 0) == first_dot(b@, i as int),
        decreases b.len() - i,
    {
        if b[i] == 46 {
            return i;
        }
        i += 1;
    }
    i
}

/// Reads the name of a file in the database directory, without the
/// directory in front.
pub fn parse_file_name(name: &str) -> (r: Option<(FileNum, FileType)>)
    ensures
        r == parse_name(name.spec_bytes()),
{
    let b = name.as_bytes();
    let prefix = "MANIFEST-".as_bytes();
    if bytes_eq(b, "CURRENT".as_bytes()) {
        Some((0, FileType::Current))
    } else if bytes_eq(b, "LOCK".as_bytes()) {
        Some((0, FileType::DBLock))
    } else if bytes_eq(b, "LOG".as_bytes()) || bytes_eq(b, "LOG.old".as_bytes()) {
        Some((0, FileType::InfoLog))
    } else if prefix.len() <= b.len() && bytes_eq(slice_subrange(b, 0, prefix.len()), prefix) {
        match parse_decimal(slice_subrange(b, prefix.len(), b.len())) {
            Some(n) => Some((n, FileType::Descriptor)),
            None => None,
        }
    } else {
        let d = find_dot(b);
        let suffix = slice_subrange(b, d, b.len());
        match parse_decimal(slice_subrange(b, 0, d)) {
            None => None,
            Some(n) => if bytes_eq(suffix, ".log".as_bytes()) {
                Some((n, FileType::Log))
            } else if bytes_eq(suffix, ".ldb".as_bytes()) || bytes_eq(suffix, ".sst".as_bytes()) {
                Some((n, FileType::Table))
            } else if bytes_eq(suffix, ".dbtmp".as_bytes()) {
                Some((n, FileType::Temp))
            } else {
                None
            },
        }
    }
}

} // verus!
