//! Byte-level views of strings: equality, prefixes and the byte order.

use vstd::prelude::*;
use vstd::utf8::*;

verus! {

/// The UTF-8 bytes of a string.
pub open spec fn utf8(s: Seq<char>) -> Seq<u8> {
    encode_utf8(s)
}

/// `a` comes strictly before `b` in the byte order of strings.
pub open spec fn bytes_before(a: Seq<u8>, b: Seq<u8>) -> bool {
    exists|i: int|
        #![trigger a.take(i)]
        0 <= i <= a.len() && i < b.len() && a.take(i) == b.take(i) && (i == a.len() || a[i]
            < b[i])
}

/// Two strings with the same bytes are the same string.
pub proof fn law_utf8_injective(a: Seq<char>, b: Seq<char>)
    requires
        utf8(a) == utf8(b),
    ensures
        a == b,
{
    encode_utf8_decode_utf8(a);
    encode_utf8_decode_utf8(b);
}

/// No sequence comes before itself.
pub proof fn lemma_bytes_before_irreflexive(a: Seq<u8>)
    ensures
        !bytes_before(a, a),
{
}

/// The byte order cannot hold in both directions.
pub proof fn lemma_bytes_before_asymmetric(a: Seq<u8>, b: Seq<u8>)
    requires
        bytes_before(a, b),
    ensures
        !bytes_before(b, a),
        a != b,
{
    let i = choose|i: int|
        #![trigger a.take(i)]
        0 <= i <= a.len() && i < b.len() && a.take(i) == b.take(i) && (i == a.len() || a[i]
            < b[i]);
    if bytes_before(b, a) {
        let j = choose|j: int|
            #![trigger b.take(j)]
            0 <= j <= b.len() && j < a.len() && b.take(j) == a.take(j) && (j == b.len() || b[j]
                < a[j]);
        if i < j {
            assert(a.take(j)[i] == b.take(j)[i]);
        } else if j < i {
            assert(a.take(i)[j] == b.take(i)[j]);
        }
    }
}

/// The byte order is transitive.
pub proof fn lemma_bytes_before_transitive(a: Seq<u8>, b: Seq<u8>, c: Seq<u8>)
    requires
        bytes_before(a, b),
        bytes_before(b, c),
    ensures
        bytes_before(a, c),
{
    let i = choose|i: int|
        #![trigger a.take(i)]
        0 <= i <= a.len() && i < b.len() && a.take(i) == b.take(i) && (i == a.len() || a[i]
            < b[i]);
    let j = choose|j: int|
        #![trigger b.take(j)]
        0 <= j <= b.len() && j < c.len() && b.take(j) == c.take(j) && (j == b.len() || b[j]
            < c[j]);
    let m = if i < j { i } else { j };
    assert(a.take(m) =~= a.take(i).take(m));
    assert(b.take(m) =~= b.take(i).take(m));
    assert(b.take(m) =~= b.take(j).take(m));
    assert(c.take(m) =~= c.take(j).take(m));
    assert(a.take(m) == c.take(m));
    if i < j {
        assert(b[i] == b.take(j)[i] && c[i] == c.take(j)[i]);
    } else if j < i {
        assert(a[j] == a.take(i)[j] && b[j] == b.take(i)[j]);
    }
}

/// Any two sequences can be compared.
pub proof fn lemma_bytes_before_total(a: Seq<u8>, b: Seq<u8>)
    ensures
        a == b || bytes_before(a, b) || bytes_before(b, a),
{
    assert(a.take(0) =~= b.take(0));
    lemma_first_difference(a, b, 0);
}

/// From a common prefix on, two sequences end together or differ somewhere.
proof fn lemma_first_difference(a: Seq<u8>, b: Seq<u8>, i: int)
    requires
        0 <= i <= a.len(),
        i <= b.len(),
        a.take(i) == b.take(i),
    ensures
        a == b || bytes_before(a, b) || bytes_before(b, a),
    decreases a.len() - i,
{
    if i == a.len() && i == b.len() {
        assert(a =~= a.take(i));
        assert(b =~= b.take(i));
    } else if i == a.len() {
        assert(a.take(i) == b.take(i));
    } else if i == b.len() {
        assert(b.take(i) == a.take(i));
    } else if a[i] < b[i] {
        assert(a.take(i) == b.take(i));
    } else if b[i] < a[i] {
        assert(b.take(i) == a.take(i));
    } else {
        assert(a.take(i + 1) =~= a.take(i).push(a[i]));
        assert(b.take(i + 1) =~= b.take(i).push(b[i]));
        lemma_first_difference(a, b, i + 1);
    }
}

/// Compare two byte slices for equality.
pub fn bytes_equal(a: &[u8], b: &[u8]) -> (r: bool)
    ensures
        r == (a@ == b@),
{
    if a.len() != b.len() {
        return false;
    }
    let mut i: usize = 0;
    while i < a.len()
        invariant
            i <= a@.len(),
            a@.len() == b@.len(),
            forall|k: int| 0 <= k < i ==> a@[k] == b@[k],
        decreases a@.len() - i,
    {
        if a[i] != b[i] {
            return false;
        }
        i += 1;
    }
    assert(a@ =~= b@);
    true
}

/// Compare two strings for equality.
pub fn str_equal(a: &str, b: &str) -> (r: bool)
    ensures
        r == (a@ == b@),
{
    let r = bytes_equal(a.as_bytes(), b.as_bytes());
    proof {
        if r {
            law_utf8_injective(a@, b@);
        }
    }
    r
}

/// Whether `b` begins with the bytes of `prefix`.
pub fn bytes_start_with(b: &[u8], prefix: &[u8]) -> (r: bool)
    ensures
        r == prefix@.is_prefix_of(b@),
{
    if prefix.len() > b.len() {
        return false;
    }
    let mut i: usize = 0;
    while i < prefix.len()
        invariant
            i <= prefix@.len() <= b@.len(),
            forall|k: int| 0 <= k < i ==> prefix@[k] == b@[k],
        decreases prefix@.len() - i,
    {
        if prefix[i] != b[i] {
            assert(!prefix@.is_prefix_of(b@)) by {
                assert(b@.subrange(0, prefix@.len() as int)[i as int] == b@[i as int]);
            }
            return false;
        }
        i += 1;
    }
    assert(prefix@ =~= b@.subrange(0, prefix@.len() as int));
    true
}

/// Whether the bytes `a` come strictly before the bytes `b`.
pub fn bytes_precede(a: &[u8], b: &[u8]) -> (r: bool)
    ensures
        r == bytes_before(a@, b@),
{
    let mut i: usize = 0;
    while i < a.len() && i < b.len()
        invariant
            i <= a@.len(),
            i <= b@.len(),
            a@.take(i as int) == b@.take(i as int),
        decreases a@.len() - i,
    {
        if a[i] != b[i] {
            proof {
                if a@[i as int] < b@[i as int] {
                    assert(a@.take(i as int) == b@.take(i as int));
                } else {
                    assert(b@.take(i as int) == a@.take(i as int));
                    assert(bytes_before(b@, a@));
                    lemma_bytes_before_asymmetric(b@, a@);
                }
            }
            return a[i] < b[i];
        }
        assert(a@.take(i + 1) =~= a@.take(i as int).push(a@[i as int]));
        assert(b@.take(i + 1) =~= b@.take(i as int).push(b@[i as int]));
        i += 1;
    }
    proof {
        if i < b@.len() {
            assert(a@.take(i as int) == b@.take(i as int));
        } else if bytes_before(a@, b@) {
            if i < a@.len() {
                assert(b@.take(i as int) == a@.take(i as int));
                assert(bytes_before(b@, a@));
                lemma_bytes_before_asymmetric(b@, a@);
            } else {
                assert(a@ =~= a@.take(i as int));
                assert(b@ =~= b@.take(i as int));
            }
        }
    }
    i < b.len()
}

/// The decimal digit of a number below ten.
pub open spec fn digit(d: nat) -> char {
    if d == 0 {
        '0'
    } else if d == 1 {
        '1'
    } else if d == 2 {
        '2'
    } else if d == 3 {
        '3'
    } else if d == 4 {
        '4'
    } else if d == 5 {
        '5'
    } else if d == 6 {
        '6'
    } else if d == 7 {
        '7'
    } else if d == 8 {
        '8'
    } else {
        '9'
    }
}

/// A number in decimal.
pub open spec fn decimal_text(n: nat) -> Seq<char>
    decreases n,
{
    if n < 10 {
        seq![digit(n)]
    } else {
        decimal_text(n / 10).push(digit(n % 10))
    }
}

fn digit_str(d: u64) -> (s: &'static str)
    requires
        d < 10,
    ensures
        s@ == seq![digit(d as nat)],
{
    proof {
        reveal_strlit("0");
        reveal_strlit("1");
        reveal_strlit("2");
        reveal_strlit("3");
        reveal_strlit("4");
        reveal_strlit("5");
        reveal_strlit("6");
        reveal_strlit("7");
        reveal_strlit("8");
        reveal_strlit("9");
    }
    let s = if d == 0 {
        "0"
    } else if d == 1 {
        "1"
    } else if d == 2 {
        "2"
    } else if d == 3 {
        "3"
    } else if d == 4 {
        "4"
    } else if d == 5 {
        "5"
    } else if d == 6 {
        "6"
    } else if d == 7 {
        "7"
    } else if d == 8 {
        "8"
    } else {
        "9"
    };
    assert(s@ =~= seq![digit(d as nat)]);
    s
}

/// Append `n` in decimal.
pub fn push_decimal(out: &mut String, n: u64)
    ensures
        final(out)@ == old(out)@ + decimal_text(n as nat),
    decreases n,
{
    let ghost before = out@;
    if n >= 10 {
        push_decimal(out, n / 10);
    }
    out.append(digit_str(n % 10));
    assert(out@ =~= before + decimal_text(n as nat));
}

/// The lower-case hexadecimal digit of a number below sixteen.
pub open spec fn hex_digit(d: nat) -> char {
    if d < 10 {
        digit(d)
    } else if d == 10 {
        'a'
    } else if d == 11 {
        'b'
    } else if d == 12 {
        'c'
    } else if d == 13 {
        'd'
    } else if d == 14 {
        'e'
    } else {
        'f'
    }
}

/// The `k` low hexadecimal digits of a number.
pub open spec fn hex_digits(n: nat, k: nat) -> Seq<char>
    decreases k,
{
    if k == 0 {
        Seq::empty()
    } else {
        hex_digits(n / 16, (k - 1) as nat).push(hex_digit(n % 16))
    }
}

fn hex_digit_str(d: u64) -> (s: &'static str)
    requires
        d < 16,
    ensures
        s@ == seq![hex_digit(d as nat)],
{
    if d < 10 {
        return digit_str(d);
    }
    proof {
        reveal_strlit("a");
        reveal_strlit("b");
        reveal_strlit("c");
        reveal_strlit("d");
        reveal_strlit("e");
        reveal_strlit("f");
    }
    let s = if d == 10 {
        "a"
    } else if d == 11 {
        "b"
    } else if d == 12 {
        "c"
    } else if d == 13 {
        "d"
    } else if d == 14 {
        "e"
    } else {
        "f"
    };
    assert(s@ =~= seq![hex_digit(d as nat)]);
    s
}

/// Append the `k` low hexadecimal digits of `n`.
pub fn push_hex(out: &mut String, n: u64, k: usize)
    ensures
        final(out)@ == old(out)@ + hex_digits(n as nat, k as nat),
    decreases k,
{
    let ghost before = out@;
    if k > 0 {
        push_hex(out, n / 16, k - 1);
        out.append(hex_digit_str(n % 16));
    }
    assert(out@ =~= before + hex_digits(n as nat, k as nat));
}

/// A digit is the character that stands as far behind zero as it counts.
proof fn lemma_digit(d: nat)
    requires
        d < 10,
    ensures
        digit(d) as int == '0' as int + d,
{
}

/// A number in decimal ends in its last digit, which stands as far behind zero as it
/// counts, and before that comes the number without it. A number below ten is one
/// digit.
pub proof fn law_decimal_ends_in_the_last_digit(n: nat)
    ensures
        decimal_text(n).len() > 0,
        decimal_text(n).last() as int == '0' as int + n % 10,
        n < 10 ==> decimal_text(n).len() == 1,
        n >= 10 ==> decimal_text(n).drop_last() == decimal_text(n / 10),
{
    lemma_digit(n % 10);
    if n >= 10 {
        assert(decimal_text(n).drop_last() =~= decimal_text(n / 10));
    }
}

/// Two numbers have the same decimal digits only where they are the same.
pub proof fn law_decimal_tells_numbers_apart(a: nat, b: nat)
    requires
        decimal_text(a) == decimal_text(b),
    ensures
        a == b,
    decreases a,
{
    law_decimal_ends_in_the_last_digit(a);
    law_decimal_ends_in_the_last_digit(b);
    assert(a % 10 == b % 10);
    if a >= 10 || b >= 10 {
        if a < 10 {
            law_decimal_ends_in_the_last_digit(b / 10);
        }
        if b < 10 {
            law_decimal_ends_in_the_last_digit(a / 10);
        }
        law_decimal_tells_numbers_apart(a / 10, b / 10);
    }
}

/// A number in hexadecimal has as many digits as it was given room for, and ends in
/// its last digit: from zero to nine, then from a to f.
pub proof fn law_hex_ends_in_the_last_digit(n: nat, k: nat)
    ensures
        hex_digits(n, k).len() == k,
        k > 0 ==> hex_digits(n, k).last() as int == (if n % 16 < 10 {
            '0' as int + n % 16
        } else {
            'a' as int + n % 16 - 10
        }),
        k > 0 ==> hex_digits(n, k).drop_last() == hex_digits(n / 16, (k - 1) as nat),
    decreases k,
{
    if k > 0 {
        law_hex_ends_in_the_last_digit(n / 16, (k - 1) as nat);
        if n % 16 < 10 {
            lemma_digit(n % 16);
        }
        assert(hex_digits(n, k).drop_last() =~= hex_digits(n / 16, (k - 1) as nat));
    }
}

/// Strings go by their first byte that differs; where one is the front of the other,
/// the shorter comes first.
pub proof fn law_first_difference_decides(a: &[u8], b: &[u8], i: int, r: bool)
    requires
        call_ensures(bytes_precede, (a, b), r),
        0 <= i <= a@.len(),
        i <= b@.len(),
        forall|k: int| 0 <= k < i ==> a@[k] == b@[k],
    ensures
        i < a@.len() && i < b@.len() && a@[i] < b@[i] ==> r,
        i < a@.len() && i < b@.len() && a@[i] > b@[i] ==> !r,
        i == a@.len() && i < b@.len() ==> r,
        i == b@.len() ==> !r,
{
    assert(a@.take(i) =~= b@.take(i));
    if i < a@.len() && i < b@.len() && a@[i] > b@[i] {
        assert(bytes_before(b@, a@)) by {
            assert(b@.take(i) == a@.take(i));
        }
        lemma_bytes_before_asymmetric(b@, a@);
    }
    if i == b@.len() && r {
        let j = choose|j: int|
            #![trigger a@.take(j)]
            0 <= j <= a@.len() && j < b@.len() && a@.take(j) == b@.take(j) && (j == a@.len()
                || a@[j] < b@[j]);
        assert(a@[j] == b@[j]);
    }
}

} // verus!
