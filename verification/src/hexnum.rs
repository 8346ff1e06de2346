//! Lowercase hexadecimal encoding of machine words and byte strings.
//!
//! Access tokens carry their numeric claims as fixed-width (16 digit)
//! hexadecimal fields and their signature as a hexadecimal byte string,
//! so both directions are proved to be exact inverses of each other.

use vstd::prelude::*;
use vstd::arithmetic::div_mod::*;

verus! {

/// Numeric value of a lowercase hexadecimal digit; 16 for any other character.
pub open spec fn hex_val(c: char) -> int {
    if c == '0' { 0 }
    else if c == '1' { 1 }
    else if c == '2' { 2 }
    else if c == '3' { 3 }
    else if c == '4' { 4 }
    else if c == '5' { 5 }
    else if c == '6' { 6 }
    else if c == '7' { 7 }
    else if c == '8' { 8 }
    else if c == '9' { 9 }
    else if c == 'a' { 10 }
    else if c == 'b' { 11 }
    else if c == 'c' { 12 }
    else if c == 'd' { 13 }
    else if c == 'e' { 14 }
    else if c == 'f' { 15 }
    else { 16 }
}

pub open spec fn is_hex_digit(c: char) -> bool {
    hex_val(c) < 16
}

/// The lowercase hexadecimal digit for a value below 16.
pub open spec fn hex_char(d: int) -> char {
    if d == 0 { '0' }
    else if d == 1 { '1' }
    else if d == 2 { '2' }
    else if d == 3 { '3' }
    else if d == 4 { '4' }
    else if d == 5 { '5' }
    else if d == 6 { '6' }
    else if d == 7 { '7' }
    else if d == 8 { '8' }
    else if d == 9 { '9' }
    else if d == 10 { 'a' }
    else if d == 11 { 'b' }
    else if d == 12 { 'c' }
    else if d == 13 { 'd' }
    else if d == 14 { 'e' }
    else { 'f' }
}

pub open spec fn all_hex(s: Seq<char>) -> bool {
    forall|i: int| 0 <= i < s.len() ==> is_hex_digit(#[trigger] s[i])
}

/// Value of a big-endian string of hexadecimal digits.
pub open spec fn hex_seq_val(s: Seq<char>) -> int
    decreases s.len(),
{
    if s.len() == 0 {
        0
    } else {
        hex_seq_val(s.drop_last()) * 16 + hex_val(s.last())
    }
}

/// The big-endian hexadecimal digits of `n % 16^w`, exactly `w` of them.
pub open spec fn hex_width(n: int, w: nat) -> Seq<char>
    decreases w,
{
    if w == 0 {
        Seq::empty()
    } else {
        hex_width(n / 16, (w - 1) as nat).push(hex_char(n % 16))
    }
}

pub open spec fn pow16(w: nat) -> int
    decreases w,
{
    if w == 0 { 1 } else { 16 * pow16((w - 1) as nat) }
}

pub proof fn lemma_pow16_16()
    ensures
        pow16(16) == 0x10000000000000000,
{
    reveal_with_fuel(pow16, 17);
}

pub proof fn lemma_hex_char_val(d: int)
    requires
        0 <= d < 16,
    ensures
        hex_val(hex_char(d)) == d,
        is_hex_digit(hex_char(d)),
{
}

pub proof fn lemma_hex_seq_val_bound(s: Seq<char>)
    requires
        all_hex(s),
    ensures
        0 <= hex_seq_val(s) < pow16(s.len()),
    decreases s.len(),
{
    if s.len() == 0 {
    } else {
        assert(all_hex(s.drop_last()));
        lemma_hex_seq_val_bound(s.drop_last());
        assert(is_hex_digit(s.last()));
        let v: int = hex_seq_val(s.drop_last());
        assert(v * 16 + hex_val(s.last()) < pow16(s.len())) by (nonlinear_arith)
            requires
                0 <= v,
                v < pow16((s.len() - 1) as nat),
                hex_val(s.last()) < 16,
                pow16(s.len()) == 16 * pow16((s.len() - 1) as nat),
        {
        }
    }
}

pub proof fn lemma_hex_width_val(n: int, w: nat)
    requires
        0 <= n < pow16(w),
    ensures
        hex_width(n, w).len() == w,
        all_hex(hex_width(n, w)),
        hex_seq_val(hex_width(n, w)) == n,
    decreases w,
{
    if w == 0 {
    } else {
        lemma_fundamental_div_mod(n, 16);
        assert(n / 16 < pow16((w - 1) as nat)) by (nonlinear_arith)
            requires
                0 <= n,
                n < pow16(w),
                pow16(w) == 16 * pow16((w - 1) as nat),
                n == 16 * (n / 16) + n % 16,
                0 <= n % 16 < 16,
        {
        }
        lemma_hex_width_val(n / 16, (w - 1) as nat);
        lemma_hex_char_val(n % 16);
        let s = hex_width(n, w);
        assert(s.drop_last() =~= hex_width(n / 16, (w - 1) as nat));
        assert(all_hex(s)) by {
            assert(forall|i: int| 0 <= i < s.len() - 1 ==> s[i] == #[trigger] s.drop_last()[i]);
        }
    }
}

/// Bytes rendered as lowercase hexadecimal, two digits per byte.
pub open spec fn hex_of_bytes(b: Seq<u8>) -> Seq<char>
    decreases b.len(),
{
    if b.len() == 0 {
        Seq::empty()
    } else {
        hex_of_bytes(b.drop_last()) + seq![hex_char(b.last() as int / 16), hex_char(b.last() as int % 16)]
    }
}

/// Decoding of a lowercase hexadecimal string into bytes.
pub open spec fn hex_to_bytes(s: Seq<char>) -> Option<Seq<u8>> {
    if s.len() % 2 == 0 && all_hex(s) {
        Some(Seq::new(s.len() / 2, |i: int| (hex_val(s[2 * i]) * 16 + hex_val(s[2 * i + 1])) as u8))
    } else {
        None
    }
}

pub proof fn lemma_hex_of_bytes_len(b: Seq<u8>)
    ensures
        hex_of_bytes(b).len() == 2 * b.len(),
        all_hex(hex_of_bytes(b)),
    decreases b.len(),
{
    if b.len() == 0 {
    } else {
        lemma_hex_of_bytes_len(b.drop_last());
        let last: u8 = b.last();
        assert(0 <= last / 16 < 16 && 0 <= last % 16 < 16) by (nonlinear_arith)
            requires
                last < 256,
        {
        }
        lemma_hex_char_val(last as int / 16);
        lemma_hex_char_val(last as int % 16);
    }
}

pub proof fn lemma_hex_of_bytes_index(b: Seq<u8>, i: int)
    requires
        0 <= i < b.len(),
    ensures
        hex_of_bytes(b).len() == 2 * b.len(),
        hex_of_bytes(b)[2 * i] == hex_char(b[i] as int / 16),
        hex_of_bytes(b)[2 * i + 1] == hex_char(b[i] as int % 16),
    decreases b.len(),
{
    lemma_hex_of_bytes_len(b);
    if i == b.len() - 1 {
        lemma_hex_of_bytes_len(b.drop_last());
    } else {
        lemma_hex_of_bytes_index(b.drop_last(), i);
    }
}

/// Encoding then decoding gives the bytes back.
pub proof fn lemma_hex_bytes_round_trip(b: Seq<u8>)
    ensures
        hex_to_bytes(hex_of_bytes(b)) == Some(b),
{
    lemma_hex_of_bytes_len(b);
    let s = hex_of_bytes(b);
    let decoded = Seq::new(s.len() / 2, |i: int| (hex_val(s[2 * i]) * 16 + hex_val(s[2 * i + 1])) as u8);
    assert forall|i: int| 0 <= i < b.len() implies decoded[i] == b[i] by {
        lemma_hex_of_bytes_index(b, i);
        let x: u8 = b[i];
        assert(0 <= x / 16 < 16 && 0 <= x % 16 < 16) by (nonlinear_arith)
            requires
                x < 256,
        {
        }
        lemma_hex_char_val(x as int / 16);
        lemma_hex_char_val(x as int % 16);
        lemma_fundamental_div_mod(x as int, 16);
    }
    assert(decoded =~= b);
}

/// A hexadecimal string that decodes is the canonical rendering of its bytes.
pub proof fn lemma_hex_bytes_canon(s: Seq<char>, b: Seq<u8>)
    requires
        hex_to_bytes(s) == Some(b),
    ensures
        s == hex_of_bytes(b),
{
    lemma_hex_of_bytes_len(b);
    assert(b.len() == s.len() / 2);
    lemma_fundamental_div_mod(s.len() as int, 2);
    assert(s.len() == 2 * b.len());
    assert forall|j: int| 0 <= j < s.len() implies hex_of_bytes(b)[j] == s[j] by {
        let i: int = j / 2;
        lemma_fundamental_div_mod(j, 2);
        lemma_hex_of_bytes_index(b, i);
        let x: int = hex_val(s[2 * i]) * 16 + hex_val(s[2 * i + 1]);
        assert(is_hex_digit(s[2 * i]) && is_hex_digit(s[2 * i + 1]));
        assert(0 <= x < 256);
        assert(b[i] == x as u8);
        assert(x / 16 == hex_val(s[2 * i]) && x % 16 == hex_val(s[2 * i + 1])) by (nonlinear_arith)
            requires
                x == hex_val(s[2 * i]) * 16 + hex_val(s[2 * i + 1]),
                0 <= hex_val(s[2 * i]) < 16,
                0 <= hex_val(s[2 * i + 1]) < 16,
        {
        }
        assert(hex_char(hex_val(s[2 * i])) == s[2 * i] && hex_char(hex_val(s[2 * i + 1])) == s[2 * i + 1]);
    }
    assert(s =~= hex_of_bytes(b));
}

/// Hexadecimal digit for the low four bits of a value below 16.
fn hex_char_str(d: u8) -> (r: &'static str)
    requires
        d < 16,
    ensures
        r@.len() == 1,
        r@[0] == hex_char(d as int),
{
    let r: &'static str = match d {
        0 => "0",
        1 => "1",
        2 => "2",
        3 => "3",
        4 => "4",
        5 => "5",
        6 => "6",
        7 => "7",
        8 => "8",
        9 => "9",
        10 => "a",
        11 => "b",
        12 => "c",
        13 => "d",
        14 => "e",
        _ => "f",
    };
    proof {
        reveal_strlit("0");
        reveal_strlit("1");
        reveal_strlit("2");
        reveal_strlit("3");
        reveal_strlit("4");
        reveal_strlit("5");
        reveal_strlit("6");
        reveal_strlit("7");
        reveal_strlit("8");
        reveal_strlit("9");
        reveal_strlit("a");
        reveal_strlit("b");
        reveal_strlit("c");
        reveal_strlit("d");
        reveal_strlit("e");
        reveal_strlit("f");
    }
    r
}

/// Renders the low `w` hexadecimal digits of `n`, most significant first.
fn u64_to_hex_width(n: u64, w: u8) -> (r: String)
    requires
        w <= 16,
    ensures
        r@ == hex_width(n as int, w as nat),
    decreases w,
{
    if w == 0 {
        String::new()
    } else {
        let mut s = u64_to_hex_width(n / 16, w - 1);
        let d: u8 = (n % 16) as u8;
        s.append(hex_char_str(d));
        proof {
            assert(s@ =~= hex_width(n as int, w as nat));
        }
        s
    }
}

/// The full sixteen-digit rendering of a 64-bit value.
pub fn u64_to_hex16(n: u64) -> (r: String)
    ensures
        r@ == hex_width(n as int, 16),
        r@.len() == 16,
        all_hex(r@),
        hex_seq_val(r@) == n,
{
    proof {
        lemma_pow16_16();
        lemma_hex_width_val(n as int, 16);
    }
    u64_to_hex_width(n, 16)
}

/// Hexadecimal digit value of a character, if it is one.
fn hex_digit_of(c: char) -> (r: Option<u8>)
    ensures
        r is Some <==> is_hex_digit(c),
        r matches Some(d) ==> d < 16 && d as int == hex_val(c),
{
    match c {
        '0' => Some(0),
        '1' => Some(1),
        '2' => Some(2),
        '3' => Some(3),
        '4' => Some(4),
        '5' => Some(5),
        '6' => Some(6),
        '7' => Some(7),
        '8' => Some(8),
        '9' => Some(9),
        'a' => Some(10),
        'b' => Some(11),
        'c' => Some(12),
        'd' => Some(13),
        'e' => Some(14),
        'f' => Some(15),
        _ => None,
    }
}

/// Spec-level reading of a sixteen-digit field at position `i`.
pub open spec fn parse_hex16_at(s: Seq<char>, i: int) -> Option<u64> {
    let sub = s.subrange(i, i + 16);
    if all_hex(sub) {
        Some(hex_seq_val(sub) as u64)
    } else {
        None
    }
}

/// Reads the sixteen-digit field starting at character `from`.
pub fn hex16_at(s: &str, from: usize) -> (r: Option<u64>)
    requires
        from + 16 <= s@.len(),
        from + 16 <= usize::MAX,
    ensures
        r == parse_hex16_at(s@, from as int),
{
    let ghost sub = s@.subrange(from as int, from as int + 16);
    let mut v: u64 = 0;
    let mut j: usize = 0;
    proof {
        lemma_pow16_16();
        assert(s@.subrange(from as int, from as int) =~= Seq::<char>::empty());
    }
    while j < 16
        invariant
            j <= 16,
            from + 16 <= s@.len(),
            from + 16 <= usize::MAX,
            sub == s@.subrange(from as int, from as int + 16),
            all_hex(s@.subrange(from as int, from as int + j)),
            v == hex_seq_val(s@.subrange(from as int, from as int + j)),
            v < pow16(j as nat),
            pow16(16) == 0x10000000000000000,
        decreases 16 - j,
    {
        let c = s.get_char(from + j);
        match hex_digit_of(c) {
            None => {
                proof {
                    assert(sub[j as int] == c);
                    assert(!all_hex(sub));
                }
                return None;
            },
            Some(d) => {
                proof {
                    let prev = s@.subrange(from as int, from as int + j);
                    let cur = s@.subrange(from as int, from as int + j + 1);
                    assert(cur.drop_last() =~= prev);
                    assert(cur.last() == c);
                    assert(pow16((j + 1) as nat) == 16 * pow16(j as nat));
                    assert(v * 16 + hex_val(c) < pow16((j + 1) as nat)) by (nonlinear_arith)
                        requires
                            0 <= v < pow16(j as nat),
                            0 <= hex_val(c) < 16,
                            pow16((j + 1) as nat) == 16 * pow16(j as nat),
                    {
                    }
                    assert(pow16((j + 1) as nat) <= pow16(16)) by {
                        lemma_pow16_monotone((j + 1) as nat, 16);
                    }
                }
                v = v * 16 + (d as u64);
            },
        }
        j += 1;
    }
    proof {
        assert(s@.subrange(from as int, from as int + 16) == sub);
        assert(all_hex(sub));
        lemma_hex_seq_val_bound(sub);
    }
    Some(v)
}

pub proof fn lemma_pow16_monotone(a: nat, b: nat)
    requires
        a <= b,
    ensures
        pow16(a) <= pow16(b),
        pow16(a) >= 1,
    decreases b,
{
    if b == 0 {
    } else if a == b {
        lemma_pow16_monotone((a - 1) as nat, (b - 1) as nat);
        assert(pow16(a) == 16 * pow16((a - 1) as nat));
    } else {
        lemma_pow16_monotone(a, (b - 1) as nat);
    }
}

/// Decodes the hexadecimal characters of `s` between `from` and `to` into bytes.
pub fn hex_decode_range(s: &str, from: usize, to: usize) -> (r: Option<Vec<u8>>)
    requires
        from <= to <= s@.len(),
    ensures
        match r {
            Some(b) => hex_to_bytes(s@.subrange(from as int, to as int)) == Some(b@),
            None => hex_to_bytes(s@.subrange(from as int, to as int)) is None,
        },
{
    let ghost sub = s@.subrange(from as int, to as int);
    if (to - from) % 2 != 0 {
        proof {
            assert(sub.len() % 2 != 0);
        }
        return None;
    }
    let mut out: Vec<u8> = Vec::new();
    let mut k: usize = 0;
    let half: usize = (to - from) / 2;
    proof {
        lemma_fundamental_div_mod((to - from) as int, 2);
    }
    while k < half
        invariant
            k <= half,
            from <= to <= s@.len(),
            sub == s@.subrange(from as int, to as int),
            sub.len() == 2 * half,
            out@.len() == k,
            forall|i: int| 0 <= i < k ==> is_hex_digit(#[trigger] sub[2 * i]) && is_hex_digit(sub[2 * i + 1]),
            forall|i: int| 0 <= i < k ==> #[trigger] out@[i] == (hex_val(sub[2 * i]) * 16 + hex_val(sub[2 * i + 1])) as u8,
        decreases half - k,
    {
        let c0 = s.get_char(from + 2 * k);
        let c1 = s.get_char(from + 2 * k + 1);
        proof {
            assert(sub[2 * (k as int)] == c0);
            assert(sub[2 * (k as int) + 1] == c1);
        }
        let d0 = match hex_digit_of(c0) {
            Some(d) => d,
            None => {
                proof {
                    assert(!all_hex(sub));
                }
                return None;
            },
        };
        let d1 = match hex_digit_of(c1) {
            Some(d) => d,
            None => {
                proof {
                    assert(!all_hex(sub));
                }
                return None;
            },
        };
        out.push(d0 * 16 + d1);
        k += 1;
    }
    proof {
        assert(all_hex(sub)) by {
            assert forall|j: int| 0 <= j < sub.len() implies is_hex_digit(#[trigger] sub[j]) by {
                let i: int = j / 2;
                lemma_fundamental_div_mod(j, 2);
                assert(j == 2 * i || j == 2 * i + 1);
                assert(0 <= i < half);
                assert(is_hex_digit(sub[2 * i]) && is_hex_digit(sub[2 * i + 1]));
            }
        }
        let expect = Seq::new(sub.len() / 2, |i: int| (hex_val(sub[2 * i]) * 16 + hex_val(sub[2 * i + 1])) as u8);
        assert(out@ =~= expect);
    }
    Some(out)
}

/// Appends the hexadecimal rendering of `b` to `acc`.
pub fn append_hex_of_bytes(acc: &mut String, b: &Vec<u8>)
    ensures
        final(acc)@ == old(acc)@ + hex_of_bytes(b@),
{
    let mut i: usize = 0;
    proof {
        assert(b@.take(0) =~= Seq::<u8>::empty());
        assert(acc@ =~= old(acc)@ + hex_of_bytes(b@.take(0)));
    }
    while i < b.len()
        invariant
            i <= b@.len(),
            acc@ == old(acc)@ + hex_of_bytes(b@.take(i as int)),
        decreases b@.len() - i,
    {
        let x = b[i];
        proof {
            assert(x / 16 < 16 && x % 16 < 16) by (nonlinear_arith)
                requires
                    x < 256,
            {
            }
        }
        acc.append(hex_char_str(x / 16));
        acc.append(hex_char_str(x % 16));
        proof {
            let prev = b@.take(i as int);
            let cur = b@.take(i as int + 1);
            assert(cur.drop_last() =~= prev);
            assert(cur.last() == x);
            assert(acc@ =~= old(acc)@ + hex_of_bytes(cur));
        }
        i += 1;
    }
    proof {
        assert(b@.take(b@.len() as int) =~= b@);
    }
}

} // verus!
