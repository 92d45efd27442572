//! The names of the segment files.
//!
//! The file of a segment is named by the segment's id, written in decimal
//! without leading zeros, and the extension `.log`. No two names stand for
//! one id, so the files of a directory never give two segments with the
//! same id.
use vstd::prelude::*;

verus! {

/// The character `0`.
pub const ZERO: u8 = 48;

/// The extension of a segment file: `.log`.
pub open spec fn extension() -> Seq<u8> {
    seq![46u8, 108u8, 111u8, 103u8]
}

/// The decimal digits of a number, without leading zeros.
pub open spec fn decimal(n: nat) -> Seq<u8>
    decreases n,
{
    if n < 10 {
        seq![(ZERO + n) as u8]
    } else {
        decimal(n / 10).push((ZERO + n % 10) as u8)
    }
}

/// The name of the file of the segment with the given id.
pub open spec fn file_name(id: u64) -> Seq<u8> {
    decimal(id as nat) + extension()
}

/// The byte is a decimal digit.
pub open spec fn is_digit(byte: u8) -> bool {
    ZERO <= byte <= ZERO + 9
}

/// The number that decimal digits stand for.
pub open spec fn number(digits: Seq<u8>) -> nat
    decreases digits.len(),
{
    if digits.len() == 0 {
        0
    } else {
        number(digits.drop_last()) * 10 + (digits.last() - ZERO) as nat
    }
}

/// The digits of a number are digits, begin with a zero only when the
/// number is zero, and stand for the number.
pub proof fn lemma_decimal(n: nat)
    ensures
        decimal(n).len() >= 1,
        forall|i: int| 0 <= i < decimal(n).len() ==> is_digit(#[trigger] decimal(n)[i]),
        decimal(n)[0] == ZERO ==> n == 0,
        n == 0 ==> decimal(n) == seq![ZERO],
        number(decimal(n)) == n,
    decreases n,
{
    if n < 10 {
        let digits = decimal(n);
        assert(digits.drop_last() =~= Seq::empty());
        assert(number(digits.drop_last()) == 0);
    } else {
        lemma_decimal(n / 10);
        let digits = decimal(n);
        assert(digits.drop_last() =~= decimal(n / 10));
        assert(digits[0] == decimal(n / 10)[0]);
    }
}

/// Digits without a leading zero are the decimal digits of their number.
pub proof fn lemma_number(digits: Seq<u8>)
    requires
        digits.len() >= 1,
        forall|i: int| 0 <= i < digits.len() ==> is_digit(#[trigger] digits[i]),
        digits.len() > 1 ==> digits[0] != ZERO,
    ensures
        decimal(number(digits)) == digits,
        digits.len() > 1 ==> number(digits) >= 10,
        digits[0] != ZERO ==> number(digits) >= 1,
    decreases digits.len(),
{
    let fewer = digits.drop_last();
    if digits.len() == 1 {
        assert(fewer =~= Seq::empty());
        assert(number(fewer) == 0);
        assert(decimal(number(digits)) =~= digits);
    } else {
        assert(fewer[0] == digits[0]);
        assert forall|i: int| 0 <= i < fewer.len() implies is_digit(#[trigger] fewer[i]) by {
            assert(fewer[i] == digits[i]);
        }
        lemma_number(fewer);
        let n = number(digits);
        assert(n / 10 == number(fewer) && n % 10 == (digits.last() - ZERO) as nat);
        assert(decimal(n) =~= digits);
    }
}

/// The number of some digits is no less than the number of the first of
/// them.
pub proof fn lemma_number_grows(digits: Seq<u8>, n: int)
    requires
        0 <= n <= digits.len(),
        forall|i: int| 0 <= i < digits.len() ==> is_digit(#[trigger] digits[i]),
    ensures
        number(digits.take(n)) <= number(digits),
    decreases digits.len() - n,
{
    if n < digits.len() {
        lemma_number_grows(digits, n + 1);
        assert(digits.take(n + 1).drop_last() =~= digits.take(n));
        assert(is_digit(digits[n]));
        assert(digits.take(n + 1).last() == digits[n]);
    } else {
        assert(digits.take(n) =~= digits);
    }
}

/// Appends the decimal digits of a number.
fn write_decimal(n: u64, out: &mut Vec<u8>)
    ensures
        final(out)@ == old(out)@ + decimal(n as nat),
    decreases n,
{
    if n >= 10 {
        write_decimal(n / 10, out);
    }
    out.push(ZERO + (n % 10) as u8);
    assert(out@ =~= old(out)@ + decimal(n as nat));
}

/// The name of the file of the segment with the given id.
pub fn segment_file_name(id: u64) -> (name: Vec<u8>)
    ensures
        name@ == file_name(id),
{
    let mut name: Vec<u8> = Vec::new();
    write_decimal(id, &mut name);
    name.push(46);
    name.push(108);
    name.push(111);
    name.push(103);
    assert(name@ =~= file_name(id));
    name
}

/// The id of the segment whose file has the given name, if the name is
/// that of a segment file.
pub fn segment_file_id(name: &[u8]) -> (found: Option<u64>)
    ensures
        (match found {
            Some(id) => file_name(id) == name@,
            None => forall|id: u64| file_name(id) != name@,
        }),
{
    let len = name.len();
    proof {
        assert forall|id: u64| file_name(id) == name@ implies name@.len() >= 5 && name@.subrange(
            len - 4,
            len as int,
        ) == extension() && decimal(id as nat) == name@.take(len - 4) by {
            lemma_decimal(id as nat);
            assert(name@.subrange(len - 4, len as int) =~= extension());
            assert(decimal(id as nat) =~= name@.take(len - 4));
        }
    }
    if len < 5 {
        return None;
    }
    let count = len - 4;
    if name[count] != 46 || name[count + 1] != 108 || name[count + 2] != 111 || name[count + 3]
        != 103 {
        proof {
            let tail = name@.subrange(len - 4, len as int);
            assert(tail[0] == name@[count as int] && tail[1] == name@[count + 1] && tail[2]
                == name@[count + 2] && tail[3] == name@[count + 3]);
        }
        return None;
    }
    let ghost digits = name@.take(count as int);
    if name[0] == ZERO && count > 1 {
        proof {
            assert forall|id: u64| file_name(id) != name@ by {
                lemma_decimal(id as nat);
                if file_name(id) == name@ {
                    assert(decimal(id as nat)[0] == digits[0]);
                }
            }
        }
        return None;
    }
    let mut id: u64 = 0;
    let mut i: usize = 0;
    while i < count
        invariant
            i <= count,
            count == len - 4,
            len == name@.len(),
            digits == name@.take(count as int),
            count > 1 ==> digits[0] != ZERO,
            forall|k: int| 0 <= k < i ==> is_digit(#[trigger] digits[k]),
            id == number(digits.take(i as int)),
            forall|other: u64|
                file_name(other) == name@ ==> decimal(other as nat) == name@.take(len - 4),
        decreases count - i,
    {
        let byte = name[i];
        assert(byte == digits[i as int]);
        if byte < ZERO || byte > ZERO + 9 {
            proof {
                assert forall|other: u64| file_name(other) != name@ by {
                    lemma_decimal(other as nat);
                    if file_name(other) == name@ {
                        assert(is_digit(decimal(other as nat)[i as int]));
                    }
                }
            }
            return None;
        }
        let digit = (byte - ZERO) as u64;
        proof {
            assert(digits.take(i + 1).drop_last() =~= digits.take(i as int));
            assert(digits.take(i + 1).last() == byte);
        }
        if id > (u64::MAX - digit) / 10 {
            proof {
                assert forall|other: u64| file_name(other) != name@ by {
                    lemma_decimal(other as nat);
                    if file_name(other) == name@ {
                        lemma_number_grows(digits, i + 1);
                    }
                }
            }
            return None;
        }
        id = id * 10 + digit;
        i += 1;
    }
    proof {
        assert(digits.take(count as int) =~= digits);
        lemma_number(digits);
        assert(decimal(id as nat) + extension() =~= name@) by {
            assert(name@.subrange(len - 4, len as int) =~= extension());
            assert(name@ =~= name@.take(len - 4) + name@.subrange(len - 4, len as int));
        }
    }
    Some(id)
}

} // verus!
