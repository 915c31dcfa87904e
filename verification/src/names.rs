//! The names of the files in an engine's directory: `wal.log` for the log and
//! `sst-<id>.dat` for a table, the id written with twenty decimal digits so
//! that the bytewise order of the names is the order of the ids.

use vstd::prelude::*;
use crate::order::bytes_eq;
use crate::order::lemma_lex_branch;
use crate::order::lemma_lex_common_prefix;
use crate::order::lemma_lex_extension;
use crate::order::lemma_lex_irreflexive;
use crate::order::lemma_lex_transitive;
use crate::order::lemma_sibling_order;
use crate::order::lex_lt;
use crate::wal::extend_bytes;

verus! {

/// The number of digits of an id in a table's name.
pub const ID_DIGITS: usize = 20;

/// The bytes of `sst-`.
pub open spec fn table_prefix() -> Seq<u8> {
    seq![115u8, 115u8, 116u8, 45u8]
}

/// The bytes of `.dat`.
pub open spec fn table_suffix() -> Seq<u8> {
    seq![46u8, 100u8, 97u8, 116u8]
}

/// The bytes of `wal.log`.
pub open spec fn log_name() -> Seq<u8> {
    seq![119u8, 97u8, 108u8, 46u8, 108u8, 111u8, 103u8]
}

/// Ten to the power `w`.
pub open spec fn pow10(w: nat) -> nat
    decreases w,
{
    if w == 0 {
        1
    } else {
        10 * pow10((w - 1) as nat)
    }
}

/// The last `width` decimal digits of `n`, as ASCII, most significant first.
pub open spec fn decimal(n: nat, width: nat) -> Seq<u8>
    decreases width,
{
    if width == 0 {
        Seq::empty()
    } else {
        decimal(n / 10, (width - 1) as nat).push((48 + n % 10) as u8)
    }
}

/// The number that ASCII decimal digits write.
pub open spec fn number(digits: Seq<u8>) -> nat
    decreases digits.len(),
{
    if digits.len() == 0 {
        0
    } else {
        number(digits.drop_last()) * 10 + (digits.last() - 48) as nat
    }
}

/// Whether every byte is an ASCII decimal digit.
pub open spec fn all_digits(s: Seq<u8>) -> bool {
    forall|i: int| 0 <= i < s.len() ==> 48 <= #[trigger] s[i] <= 57
}

/// The name of the table with the id `id`.
pub open spec fn table_name(id: u64) -> Seq<u8> {
    table_prefix() + decimal(id as nat, 20) + table_suffix()
}

/// The id of the table that a file name names; nothing for any other name.
pub open spec fn table_id(name: Seq<u8>) -> Option<u64> {
    if name.len() == 28 && name.subrange(0, 4) == table_prefix() && name.subrange(24, 28)
        == table_suffix() && all_digits(name.subrange(4, 24)) && number(name.subrange(4, 24))
        <= u64::MAX {
        Some(number(name.subrange(4, 24)) as u64)
    } else {
        None
    }
}

/// Twenty digits are enough for every 64-bit id.
pub proof fn lemma_pow10_20()
    ensures
        pow10(20) == 100_000_000_000_000_000_000nat,
{
    reveal_with_fuel(pow10, 21);
}

/// Powers of ten grow.
pub proof fn lemma_pow10_grows(a: nat, b: nat)
    requires
        a <= b,
    ensures
        1 <= pow10(a) <= pow10(b),
    decreases b,
{
    if b > 0 {
        if a < b {
            lemma_pow10_grows(a, (b - 1) as nat);
        } else {
            lemma_pow10_grows((a - 1) as nat, (b - 1) as nat);
        }
    }
}

/// The digits of a number that has no more than `w` of them write the number.
pub proof fn lemma_number_decimal(n: nat, w: nat)
    requires
        n < pow10(w),
    ensures
        decimal(n, w).len() == w,
        all_digits(decimal(n, w)),
        number(decimal(n, w)) == n,
    decreases w,
{
    if w > 0 {
        lemma_number_decimal(n / 10, (w - 1) as nat);
        let d = decimal(n, w);
        assert(d.drop_last() =~= decimal(n / 10, (w - 1) as nat));
    }
}

/// A table's name names the table.
pub proof fn lemma_table_name_id(id: u64)
    ensures
        table_name(id).len() == 28,
        table_id(table_name(id)) == Some(id),
{
    lemma_pow10_20();
    lemma_number_decimal(id as nat, 20);
    let name = table_name(id);
    assert(name.subrange(0, 4) =~= table_prefix());
    assert(name.subrange(24, 28) =~= table_suffix());
    assert(name.subrange(4, 24) =~= decimal(id as nat, 20));
}

/// A smaller number has the smaller digits, bytewise.
pub proof fn lemma_decimal_order(a: nat, b: nat, w: nat)
    requires
        a < b < pow10(w),
    ensures
        lex_lt(decimal(a, w), decimal(b, w)),
    decreases w,
{
    if w > 0 {
        let x = decimal(a / 10, (w - 1) as nat);
        let y = decimal(b / 10, (w - 1) as nat);
        let p = (48 + a % 10) as u8;
        let q = (48 + b % 10) as u8;
        lemma_number_decimal(a / 10, (w - 1) as nat);
        lemma_number_decimal(b / 10, (w - 1) as nat);
        if a / 10 < b / 10 {
            lemma_decimal_order(a / 10, b / 10, (w - 1) as nat);
            if x.is_prefix_of(y) {
                assert(x =~= y);
                lemma_lex_irreflexive(x);
            }
            lemma_lex_branch(x, seq![p], y);
            lemma_lex_extension(y, seq![q]);
            assert(x + seq![p] =~= x.push(p));
            assert(y + seq![q] =~= y.push(q));
            lemma_lex_transitive(x.push(p), y, y.push(q));
        } else {
            assert(x == y);
            lemma_sibling_order(x, p, q);
        }
    }
}

/// The bytewise order of table names is the order of their ids.
pub proof fn law_table_name_order(a: u64, b: u64)
    requires
        a < b,
    ensures
        lex_lt(table_name(a), table_name(b)),
{
    lemma_pow10_20();
    lemma_decimal_order(a as nat, b as nat, 20);
    lemma_number_decimal(a as nat, 20);
    lemma_number_decimal(b as nat, 20);
    let x = decimal(a as nat, 20);
    let y = decimal(b as nat, 20);
    let s = table_suffix();
    if x.is_prefix_of(y) {
        assert(x =~= y);
        lemma_lex_irreflexive(x);
    }
    lemma_lex_branch(x, s, y);
    lemma_lex_extension(y, s);
    lemma_lex_transitive(x + s, y, y + s);
    lemma_lex_common_prefix(table_prefix(), x + s, y + s);
    assert(table_name(a) =~= table_prefix() + (x + s));
    assert(table_name(b) =~= table_prefix() + (y + s));
}

/// The name of the log file.
pub fn log_file_name() -> (name: Vec<u8>)
    ensures
        name@ == log_name(),
{
    let mut name: Vec<u8> = Vec::new();
    name.push(119u8);
    name.push(97u8);
    name.push(108u8);
    name.push(46u8);
    name.push(108u8);
    name.push(111u8);
    name.push(103u8);
    assert(name@ =~= log_name());
    name
}

/// Whether `name` is the name of the log file.
pub fn is_log_name(name: &[u8]) -> (r: bool)
    ensures
        r == (name@ == log_name()),
{
    let expected = log_file_name();
    bytes_eq(name, expected.as_slice())
}

/// The name of the file of the table `id`.
pub fn sst_file_name(id: u64) -> (name: Vec<u8>)
    ensures
        name@ == table_name(id),
{
    let mut digits: Vec<u8> = Vec::new();
    let mut t: usize = 0;
    while t < ID_DIGITS
        invariant
            t <= ID_DIGITS,
            digits@.len() == t,
        decreases ID_DIGITS - t,
    {
        digits.push(48u8);
        t = t + 1;
    }
    let mut rest: u64 = id;
    let mut left: usize = ID_DIGITS;
    assert(decimal(rest as nat, left as nat) + digits@.subrange(left as int, 20) =~= decimal(
        id as nat,
        20,
    ));
    while left > 0
        invariant
            left <= ID_DIGITS,
            digits@.len() == 20,
            decimal(rest as nat, left as nat) + digits@.subrange(left as int, 20) == decimal(
                id as nat,
                20,
            ),
        decreases left,
    {
        let ghost before = digits@;
        let ghost value = rest;
        left = left - 1;
        digits[left] = 48u8 + (rest % 10) as u8;
        rest = rest / 10;
        proof {
            let d = (48 + value % 10) as u8;
            assert(decimal(value as nat, (left + 1) as nat) == decimal(rest as nat, left as nat).push(
                d,
            ));
            assert(digits@.subrange(left as int, 20) =~= seq![d] + before.subrange(left + 1, 20));
            assert(decimal(rest as nat, left as nat) + digits@.subrange(left as int, 20)
                =~= decimal(value as nat, (left + 1) as nat) + before.subrange(left + 1, 20));
        }
    }
    assert(digits@ =~= decimal(id as nat, 20)) by {
        assert(decimal(rest as nat, 0) =~= Seq::<u8>::empty());
        assert(digits@.subrange(0, 20) =~= digits@);
    }
    let mut name: Vec<u8> = Vec::new();
    name.push(115u8);
    name.push(115u8);
    name.push(116u8);
    name.push(45u8);
    assert(name@ =~= table_prefix());
    extend_bytes(&mut name, digits.as_slice());
    name.push(46u8);
    name.push(100u8);
    name.push(97u8);
    name.push(116u8);
    assert(name@ =~= table_name(id));
    name
}

/// The id of the table that the file name names, if it is the name of a table.
pub fn sst_file_id(name: &[u8]) -> (r: Option<u64>)
    ensures
        r == table_id(name@),
{
    if name.len() != 28 {
        return None;
    }
    if name[0] != 115u8 || name[1] != 115u8 || name[2] != 116u8 || name[3] != 45u8 {
        assert(name@.subrange(0, 4)[0] == name@[0]);
        assert(name@.subrange(0, 4)[1] == name@[1]);
        assert(name@.subrange(0, 4)[2] == name@[2]);
        assert(name@.subrange(0, 4)[3] == name@[3]);
        return None;
    }
    assert(name@.subrange(0, 4) =~= table_prefix());
    if name[24] != 46u8 || name[25] != 100u8 || name[26] != 97u8 || name[27] != 116u8 {
        assert(name@.subrange(24, 28)[0] == name@[24]);
        assert(name@.subrange(24, 28)[1] == name@[25]);
        assert(name@.subrange(24, 28)[2] == name@[26]);
        assert(name@.subrange(24, 28)[3] == name@[27]);
        return None;
    }
    assert(name@.subrange(24, 28) =~= table_suffix());
    let ghost digits = name@.subrange(4, 24);
    let mut value: u128 = 0;
    let mut i: usize = 0;
    assert(digits.take(0) =~= Seq::<u8>::empty());
    while i < ID_DIGITS
        invariant
            i <= ID_DIGITS,
            name@.len() == 28,
            digits == name@.subrange(4, 24),
            all_digits(digits.take(i as int)),
            value == number(digits.take(i as int)),
            value < pow10(i as nat),
        decreases ID_DIGITS - i,
    {
        let b: u8 = name[4 + i];
        if b < 48u8 || b > 57u8 {
            assert(digits[i as int] == b);
            return None;
        }
        proof {
            lemma_pow10_grows(i as nat, 20);
            lemma_pow10_20();
            let next = digits.take(i + 1);
            assert(next.drop_last() =~= digits.take(i as int));
            assert(next.last() == b);
            assert forall|j: int| 0 <= j < next.len() implies 48 <= #[trigger] next[j] <= 57 by {
                if j < i {
                    assert(next[j] == digits.take(i as int)[j]);
                }
            }
        }
        value = value * 10 + (b - 48u8) as u128;
        i = i + 1;
    }
    assert(digits.take(20) =~= digits);
    if value > u64::MAX as u128 {
        return None;
    }
    Some(value as u64)
}

} // verus!
