//! Texts: their order, and numbers written in decimal.

use vstd::prelude::*;
use vstd::string::*;
use vstd::utf8::*;

verus! {

/// `k` is the first place at which two byte strings part: they agree below it, and there one of
/// them ends or the bytes differ.
pub open spec fn parts_at(a: Seq<u8>, b: Seq<u8>, k: int) -> bool {
    &&& 0 <= k <= a.len()
    &&& k <= b.len()
    &&& forall|i: int| 0 <= i < k ==> a[i] == b[i]
    &&& k == a.len() || k == b.len() || a[k] != b[k]
}

/// The lexicographic order of byte strings: a proper prefix comes first.
pub open spec fn bytes_before(a: Seq<u8>, b: Seq<u8>) -> bool {
    exists|k: int| #[trigger]
        parts_at(a, b, k) && k < b.len() && (k == a.len() || a[k] < b[k])
}

/// The order of texts: that of their UTF-8 bytes.
pub open spec fn text_before(a: Seq<char>, b: Seq<char>) -> bool {
    bytes_before(encode_utf8(a), encode_utf8(b))
}

proof fn lemma_parts_unique(a: Seq<u8>, b: Seq<u8>, j: int, k: int)
    requires
        parts_at(a, b, j),
        parts_at(a, b, k),
    ensures
        j == k,
{
    if j < k {
        assert(a[j] == b[j]);
    } else if k < j {
        assert(a[k] == b[k]);
    }
}

/// Of two texts at most one comes before the other, and none before itself.
pub proof fn law_text_order_is_strict(a: Seq<char>, b: Seq<char>)
    ensures
        !(text_before(a, b) && text_before(b, a)),
        !text_before(a, a),
{
    let (x, y) = (encode_utf8(a), encode_utf8(b));
    if bytes_before(x, y) && bytes_before(y, x) {
        let j = choose|k: int| #[trigger]
            parts_at(x, y, k) && k < y.len() && (k == x.len() || x[k] < y[k]);
        let k = choose|k: int| #[trigger]
            parts_at(y, x, k) && k < x.len() && (k == y.len() || y[k] < x[k]);
        assert(parts_at(x, y, k));
        lemma_parts_unique(x, y, j, k);
    }
    if bytes_before(x, x) {
        let k = choose|k: int| #[trigger]
            parts_at(x, x, k) && k < x.len() && (k == x.len() || x[k] < x[k]);
        assert(false);
    }
}

/// The order of texts is transitive.
pub proof fn law_text_order_is_transitive(a: Seq<char>, b: Seq<char>, c: Seq<char>)
    requires
        text_before(a, b),
        text_before(b, c),
    ensures
        text_before(a, c),
{
    let (x, y, z) = (encode_utf8(a), encode_utf8(b), encode_utf8(c));
    let j = choose|k: int| #[trigger]
        parts_at(x, y, k) && k < y.len() && (k == x.len() || x[k] < y[k]);
    let k = choose|k: int| #[trigger]
        parts_at(y, z, k) && k < z.len() && (k == y.len() || y[k] < z[k]);
    let m = if j <= k {
        j
    } else {
        k
    };
    assert forall|i: int| 0 <= i < m implies x[i] == z[i] by {
        assert(x[i] == y[i]);
        assert(y[i] == z[i]);
    }
    if j < k {
        assert(y[j] == z[j]);
    } else if k < j {
        assert(x[k] == y[k]);
    }
    assert(parts_at(x, z, m));
}

proof fn lemma_some_part(a: Seq<u8>, b: Seq<u8>, from: int) -> (k: int)
    requires
        0 <= from <= a.len(),
        from <= b.len(),
        forall|i: int| 0 <= i < from ==> a[i] == b[i],
    ensures
        parts_at(a, b, k),
    decreases a.len() - from,
{
    if from == a.len() || from == b.len() || a[from] != b[from] {
        from
    } else {
        lemma_some_part(a, b, from + 1)
    }
}

/// Texts with the same bytes are the same text.
pub proof fn lemma_same_bytes_same_text(a: Seq<char>, b: Seq<char>)
    requires
        encode_utf8(a) == encode_utf8(b),
    ensures
        a == b,
{
    encode_utf8_decode_utf8(a);
    encode_utf8_decode_utf8(b);
}

/// Of two different texts one comes before the other.
pub proof fn law_text_order_is_total(a: Seq<char>, b: Seq<char>)
    ensures
        a == b || text_before(a, b) || text_before(b, a),
{
    let (x, y) = (encode_utf8(a), encode_utf8(b));
    let k = lemma_some_part(x, y, 0);
    assert(parts_at(y, x, k));
    if k == x.len() && k == y.len() {
        assert(x =~= y);
        lemma_same_bytes_same_text(a, b);
    }
}

/// Whether a text comes before another one.
pub fn comes_before(a: &str, b: &str) -> (r: bool)
    ensures
        r == text_before(a@, b@),
{
    let x: &[u8] = a.as_bytes();
    let y: &[u8] = b.as_bytes();
    let mut k: usize = 0;
    while k < x.len() && k < y.len() && x[k] == y[k]
        invariant
            k <= x@.len(),
            k <= y@.len(),
            forall|i: int| 0 <= i < k ==> x@[i] == y@[i],
        decreases x@.len() - k,
    {
        k = k + 1;
    }
    let r = k < y.len() && (k == x.len() || x[k] < y[k]);
    proof {
        assert(parts_at(x@, y@, k as int));
        if text_before(a@, b@) {
            let j = choose|j: int| #[trigger]
                parts_at(x@, y@, j) && j < y@.len() && (j == x@.len() || x@[j] < y@[j]);
            lemma_parts_unique(x@, y@, j, k as int);
        }
    }
    r
}

/// Whether two texts are the same.
pub fn same_text(a: &str, b: &str) -> (r: bool)
    ensures
        r == (a@ == b@),
{
    let x: &[u8] = a.as_bytes();
    let y: &[u8] = b.as_bytes();
    if x.len() != y.len() {
        return false;
    }
    let mut k: usize = 0;
    while k < x.len()
        invariant
            k <= x@.len(),
            x@.len() == y@.len(),
            x@ == encode_utf8(a@),
            y@ == encode_utf8(b@),
            forall|i: int| 0 <= i < k ==> x@[i] == y@[i],
        decreases x@.len() - k,
    {
        if x[k] != y[k] {
            return false;
        }
        k = k + 1;
    }
    proof {
        assert(x@ =~= y@);
        lemma_same_bytes_same_text(a@, b@);
    }
    true
}

/// The character of a decimal digit.
pub open spec fn digit_char(d: nat) -> char {
    ('0' as u32 + d) as char
}

/// A number in decimal, without leading zeros.
pub open spec fn decimal(n: nat) -> Seq<char>
    decreases n,
{
    if n < 10 {
        seq![digit_char(n)]
    } else {
        decimal(n / 10).push(digit_char(n % 10))
    }
}

fn digit_text(d: u64) -> (r: &'static str)
    requires
        d < 10,
    ensures
        r@ == seq![digit_char(d as nat)],
{
    proof {
        reveal_strlit("0");
        reveal_strlit("1");
        reveal_strlit("2");
        reveal_strlit("3");
        reveal_strlit("4");
        reveal_strlit("5");
        reveal_strlit("6");
        reveal_strlit("7");
        reveal_strlit("8");
        reveal_strlit("9");
    }
    match d {
        0 => "0",
        1 => "1",
        2 => "2",
        3 => "3",
        4 => "4",
        5 => "5",
        6 => "6",
        7 => "7",
        8 => "8",
        _ => "9",
    }
}

/// A number written in decimal.
pub fn decimal_text(n: u64) -> (r: String)
    ensures
        r@ == decimal(n as nat),
    decreases n,
{
    if n < 10 {
        digit_text(n).to_owned()
    } else {
        let mut r = decimal_text(n / 10);
        r.append(digit_text(n % 10));
        r
    }
}

/// The number that a text of digits stands for.
pub open spec fn value_of(digits: Seq<char>) -> int
    decreases digits.len(),
{
    if digits.len() == 0 {
        0
    } else {
        value_of(digits.drop_last()) * 10 + (digits.last() as u32 - '0' as u32)
    }
}

/// A number in decimal is a text of digits that stands for the number, with no zero in front of
/// others.
pub proof fn law_decimal_reads_back(n: nat)
    ensures
        value_of(decimal(n)) == n,
        decimal(n).len() >= 1,
        forall|i: int| 0 <= i < decimal(n).len() ==> '0' <= #[trigger] decimal(n)[i] <= '9',
        decimal(n).len() > 1 ==> decimal(n)[0] != '0',
    decreases n,
{
    let text = decimal(n);
    if n < 10 {
        assert(text.drop_last() =~= seq![]);
        assert(value_of(seq![]) == 0);
    } else {
        law_decimal_reads_back(n / 10);
        assert(text.drop_last() =~= decimal(n / 10));
        assert(text[0] == decimal(n / 10)[0]);
        if n / 10 < 10 {
            assert(decimal(n / 10)[0] == digit_char(n / 10));
        } else {
            assert(decimal(n / 10).len() == decimal(n / 10 / 10).len() + 1);
            law_decimal_reads_back(n / 10 / 10);
        }
    }
}

/// The encodings of two characters part at a byte that is lower in the lower character's.
proof fn lemma_scalar_order(c: u32, d: u32) -> (k: int)
    requires
        is_scalar(c),
        is_scalar(d),
        c < d,
    ensures
        parts_at(encode_scalar(c), encode_scalar(d), k),
        k < encode_scalar(c).len(),
        k < encode_scalar(d).len(),
        encode_scalar(c)[k] < encode_scalar(d)[k],
{
    let (x, y) = (encode_scalar(c), encode_scalar(d));
    lemma_byte_ranges(c);
    lemma_byte_ranges(d);
    if has_width_1_encoding(c) && has_width_1_encoding(d) {
        assert(leading_byte_width_1(c) < leading_byte_width_1(d)) by (bit_vector)
            requires
                c < d,
                d <= 0x7F,
        ;
        0
    } else if has_width_2_encoding(c) && has_width_2_encoding(d) {
        assert(leading_byte_width_2(c) < leading_byte_width_2(d) || (leading_byte_width_2(c)
            == leading_byte_width_2(d) && last_continuation_byte(c) < last_continuation_byte(d)))
            by (bit_vector)
            requires
                c < d,
                d <= 0x7FF,
        ;
        if x[0] != y[0] {
            0
        } else {
            1
        }
    } else if has_width_3_encoding(c) && has_width_3_encoding(d) {
        assert(leading_byte_width_3(c) < leading_byte_width_3(d) || (leading_byte_width_3(c)
            == leading_byte_width_3(d) && (second_last_continuation_byte(c)
            < second_last_continuation_byte(d) || (second_last_continuation_byte(c)
            == second_last_continuation_byte(d) && last_continuation_byte(c)
            < last_continuation_byte(d))))) by (bit_vector)
            requires
                c < d,
                d <= 0xFFFF,
        ;
        if x[0] != y[0] {
            0
        } else if x[1] != y[1] {
            1
        } else {
            2
        }
    } else if has_width_4_encoding(c) && has_width_4_encoding(d) {
        assert(leading_byte_width_4(c) < leading_byte_width_4(d) || (leading_byte_width_4(c)
            == leading_byte_width_4(d) && (third_last_continuation_byte(c)
            < third_last_continuation_byte(d) || (third_last_continuation_byte(c)
            == third_last_continuation_byte(d) && (second_last_continuation_byte(c)
            < second_last_continuation_byte(d) || (second_last_continuation_byte(c)
            == second_last_continuation_byte(d) && last_continuation_byte(c)
            < last_continuation_byte(d))))))) by (bit_vector)
            requires
                c < d,
                d <= 0x10FFFF,
        ;
        if x[0] != y[0] {
            0
        } else if x[1] != y[1] {
            1
        } else if x[2] != y[2] {
            2
        } else {
            3
        }
    } else {
        0
    }
}

/// The first byte of a character's encoding tells its width.
proof fn lemma_byte_ranges(c: u32)
    requires
        is_scalar(c),
    ensures
        has_width_1_encoding(c) ==> encode_scalar(c)[0] <= 0x7F,
        has_width_2_encoding(c) ==> 0xC0 <= encode_scalar(c)[0] <= 0xDF,
        has_width_3_encoding(c) ==> 0xE0 <= encode_scalar(c)[0] <= 0xEF,
        has_width_4_encoding(c) ==> 0xF0 <= encode_scalar(c)[0],
{
    if has_width_1_encoding(c) {
        assert(leading_byte_width_1(c) <= 0x7F) by (bit_vector)
            requires
                c <= 0x7F,
        ;
    } else if has_width_2_encoding(c) {
        assert(0xC0 <= leading_byte_width_2(c) && leading_byte_width_2(c) <= 0xDF) by (bit_vector)
            requires
                c <= 0x7FF,
        ;
    } else if has_width_3_encoding(c) {
        assert(0xE0 <= leading_byte_width_3(c) && leading_byte_width_3(c) <= 0xEF) by (bit_vector)
            requires
                c <= 0xFFFF,
        ;
    } else {
        assert(0xF0 <= leading_byte_width_4(c)) by (bit_vector)
            requires
                c <= 0x10FFFF,
        ;
    }
}

proof fn lemma_encode_concat(a: Seq<char>, b: Seq<char>)
    ensures
        encode_utf8(a + b) == encode_utf8(a) + encode_utf8(b),
    decreases a.len(),
{
    if a.len() == 0 {
        assert(a + b =~= b);
        assert(encode_utf8(a) + encode_utf8(b) =~= encode_utf8(b));
    } else {
        lemma_encode_concat(a.drop_first(), b);
        assert((a + b).drop_first() =~= a.drop_first() + b);
        assert(encode_utf8(a + b) =~= encode_utf8(a) + encode_utf8(b));
    }
}

/// The order of texts is alphabetical: of two texts that agree up to a character, the one comes
/// first that ends there or has the lower character.
pub proof fn law_text_order_is_alphabetical(a: Seq<char>, b: Seq<char>, k: int)
    requires
        0 <= k <= a.len(),
        k < b.len(),
        forall|i: int| 0 <= i < k ==> a[i] == b[i],
        k == a.len() || (a[k] as u32) < (b[k] as u32),
    ensures
        text_before(a, b),
{
    let (p, x, y) = (a.take(k), a.skip(k), b.skip(k));
    assert(a =~= p + x);
    assert(b =~= p + y);
    lemma_encode_concat(p, x);
    lemma_encode_concat(p, y);
    let n = encode_utf8(p).len() as int;
    let (u, v) = (encode_utf8(a), encode_utf8(b));
    char_is_scalar(y[0]);
    assert(encode_utf8(y) == encode_scalar(y[0] as u32) + encode_utf8(y.drop_first()));
    if k == a.len() {
        assert(x.len() == 0);
        assert(u =~= encode_utf8(p));
        assert(parts_at(u, v, n));
    } else {
        char_is_scalar(x[0]);
        assert(encode_utf8(x) == encode_scalar(x[0] as u32) + encode_utf8(x.drop_first()));
        let m = lemma_scalar_order(x[0] as u32, y[0] as u32);
        assert forall|i: int| 0 <= i < n + m implies u[i] == v[i] by {
            if i >= n {
                assert(encode_scalar(x[0] as u32)[i - n] == encode_scalar(y[0] as u32)[i - n]);
            }
        }
        assert(parts_at(u, v, n + m));
    }
}

} // verus!
