//! Built-in SNBT operations (`bool(..)`, `uuid(..)`) and the Java-style UUID
//! parser that backs `uuid(..)`.
use vstd::prelude::*;

use crate::text::str_equal;

verus! {

// ---------------------------------------------------------------------------
// Specification of the Java-style UUID text format
// ---------------------------------------------------------------------------

/// The value of a hexadecimal digit (either case), or `None` for any other character.
pub open spec fn hex_digit_value(c: char) -> Option<int> {
    if '0' <= c && c <= '9' {
        Some(c as int - '0' as int)
    } else if 'a' <= c && c <= 'f' {
        Some(c as int - 'a' as int + 10)
    } else if 'A' <= c && c <= 'F' {
        Some(c as int - 'A' as int + 10)
    } else {
        None
    }
}

/// Every character of `s` is a hexadecimal digit.
pub open spec fn all_hex(s: Seq<char>) -> bool {
    forall|i: int| 0 <= i < s.len() ==> (#[trigger] hex_digit_value(s[i])) is Some
}

/// The number written by the hexadecimal digits `s`, most significant first.
pub open spec fn hex_value(s: Seq<char>) -> int
    decreases s.len(),
{
    if s.len() == 0 {
        0
    } else {
        hex_value(s.drop_last()) * 16 + hex_digit_value(s.last())->0
    }
}

/// The digits of a field: the field without its optional leading `+`.
pub open spec fn field_digits(s: Seq<char>) -> Seq<char> {
    if s.len() > 0 && s[0] == '+' {
        s.drop_first()
    } else {
        s
    }
}

/// What `i64::from_str_radix(s, 16)` gives for a field `s` that holds no `-`:
/// an optional `+`, then at least one hexadecimal digit, whose value fits in an `i64`.
pub open spec fn hex_field(s: Seq<char>) -> Option<int> {
    let digits = field_digits(s);
    if digits.len() > 0 && all_hex(digits) && hex_value(digits) <= i64::MAX {
        Some(hex_value(digits))
    } else {
        None
    }
}

/// `s` split at every `-`, as `str::split('-')` splits it: `n` dashes give `n + 1` fields.
pub open spec fn split_dash(s: Seq<char>) -> Seq<Seq<char>>
    decreases s.len(),
{
    if s.len() == 0 {
        seq![Seq::<char>::empty()]
    } else {
        let p = split_dash(s.drop_last());
        if s.last() == '-' {
            p.push(Seq::<char>::empty())
        } else {
            p.update(p.len() - 1, p.last().push(s.last()))
        }
    }
}

/// The five fields of a UUID text all parse.
pub open spec fn fields_parse(fields: Seq<Seq<char>>) -> bool {
    forall|i: int| 0 <= i < fields.len() ==> (#[trigger] hex_field(fields[i])) is Some
}

/// The four signed 32-bit words of the 128-bit UUID whose text fields have the
/// values `p`: the low 32 bits of the first field, the low 16 bits of the second
/// and of the third, the low 16 bits of the fourth and the low 48 bits of the
/// fifth, laid out most significant first.
pub open spec fn uuid_words(p0: i64, p1: i64, p2: i64, p3: i64, p4: i64) -> Seq<i32> {
    seq![
        p0 as i32,
        (((p1 & 0xFFFF) << 16u64) | (p2 & 0xFFFF)) as i32,
        (((p3 & 0xFFFF) << 16u64) | ((p4 >> 32u64) & 0xFFFF)) as i32,
        p4 as i32,
    ]
}

/// The result of parsing the text `s`, whose UTF-8 encoding is `byte_len` bytes long,
/// as a UUID the way Java does: at most 36 bytes, exactly five `-`-separated
/// hexadecimal fields.
pub open spec fn spec_parse_uuid(s: Seq<char>, byte_len: nat) -> Option<Seq<i32>> {
    let fields = split_dash(s);
    if byte_len > 36 || fields.len() != 5 || !fields_parse(fields) {
        None
    } else {
        Some(
            uuid_words(
                hex_field(fields[0])->0 as i64,
                hex_field(fields[1])->0 as i64,
                hex_field(fields[2])->0 as i64,
                hex_field(fields[3])->0 as i64,
                hex_field(fields[4])->0 as i64,
            ),
        )
    }
}

// ---------------------------------------------------------------------------
// Lemmas
// ---------------------------------------------------------------------------

proof fn lemma_split_dash_nonempty(s: Seq<char>)
    ensures
        split_dash(s).len() >= 1,
    decreases s.len(),
{
    if s.len() > 0 {
        lemma_split_dash_nonempty(s.drop_last());
    }
}

/// Extending a run of hexadecimal digits never makes its value smaller.
proof fn lemma_hex_value_prefix(s: Seq<char>, j: int)
    requires
        all_hex(s),
        0 <= j <= s.len(),
    ensures
        hex_value(s.take(j)) <= hex_value(s),
        0 <= hex_value(s.take(j)),
    decreases s.len(),
{
    if j == s.len() {
        assert(s.take(j) =~= s);
        lemma_hex_value_nonneg(s);
    } else {
        let t = s.drop_last();
        assert(all_hex(t)) by {
            assert forall|i: int| 0 <= i < t.len() implies (#[trigger] hex_digit_value(t[i])) is Some by {
                assert(t[i] == s[i]);
            }
        }
        lemma_hex_value_prefix(t, j);
        assert(t.take(j) =~= s.take(j));
        assert(hex_digit_value(s[s.len() - 1]) is Some);
        lemma_hex_value_nonneg(t);
    }
}

proof fn lemma_hex_value_nonneg(s: Seq<char>)
    requires
        all_hex(s),
    ensures
        0 <= hex_value(s),
    decreases s.len(),
{
    if s.len() > 0 {
        let t = s.drop_last();
        assert(all_hex(t)) by {
            assert forall|i: int| 0 <= i < t.len() implies (#[trigger] hex_digit_value(t[i])) is Some by {
                assert(t[i] == s[i]);
            }
        }
        lemma_hex_value_nonneg(t);
        assert(hex_digit_value(s[s.len() - 1]) is Some);
    }
}

/// Every character of `s` other than `-` stands in one of the fields of `s`.
proof fn lemma_split_dash_covers(s: Seq<char>, i: int)
    requires
        0 <= i < s.len(),
        s[i] != '-',
    ensures
        exists|j: int, k: int|
            0 <= j < split_dash(s).len() && 0 <= k < split_dash(s)[j].len() && #[trigger] split_dash(
                s,
            )[j][k] == s[i],
    decreases s.len(),
{
    let t = s.drop_last();
    let p = split_dash(t);
    lemma_split_dash_nonempty(t);
    if i == s.len() - 1 {
        let j = p.len() - 1;
        let k = p.last().len() as int;
        assert(split_dash(s)[j][k] == s[i]);
    } else {
        lemma_split_dash_covers(t, i);
        let (j, k) = choose|j: int, k: int|
            0 <= j < p.len() && 0 <= k < p[j].len() && #[trigger] p[j][k] == t[i];
        assert(split_dash(s)[j][k] == s[i]);
    }
}

/// A field that parses holds only ASCII characters.
proof fn lemma_parsed_field_is_ascii(f: Seq<char>, k: int)
    requires
        hex_field(f) is Some,
        0 <= k < f.len(),
    ensures
        '\0' <= f[k] <= '\u{7f}',
{
    let digits = field_digits(f);
    if f.len() > 0 && f[0] == '+' {
        if k > 0 {
            assert(digits[k - 1] == f[k]);
            assert(hex_digit_value(digits[k - 1]) is Some);
        }
    } else {
        assert(hex_digit_value(digits[k]) is Some);
    }
}

/// A text whose fields all parse is ASCII, so its UTF-8 encoding is as long as it is.
proof fn lemma_parsed_text_is_ascii(s: Seq<char>)
    requires
        fields_parse(split_dash(s)),
    ensures
        vstd::utf8::is_ascii_chars(s),
        vstd::utf8::encode_utf8(s).len() == s.len(),
{
    assert forall|i: int| 0 <= i < s.len() implies '\0' <= #[trigger] s[i] <= '\u{7f}' by {
        if s[i] != '-' {
            lemma_split_dash_covers(s, i);
            let (j, k) = choose|j: int, k: int|
                0 <= j < split_dash(s).len() && 0 <= k < split_dash(s)[j].len()
                    && #[trigger] split_dash(s)[j][k] == s[i];
            assert(hex_field(split_dash(s)[j]) is Some);
            lemma_parsed_field_is_ascii(split_dash(s)[j], k);
        }
    }
    vstd::utf8::is_ascii_chars_encode_utf8(s);
}

proof fn lemma_uuid_bits(p0: i64, p1: i64, p2: i64, p3: i64, p4: i64)
    ensures
        ((((p0 & 0xFFFFFFFF) << 32u64) | ((p1 & 0xFFFF) << 16u64) | (p2 & 0xFFFF)) >> 32u64) as i32
            == p0 as i32,
        ((((p0 & 0xFFFFFFFF) << 32u64) | ((p1 & 0xFFFF) << 16u64) | (p2 & 0xFFFF))) as i32 == (((p1
            & 0xFFFF) << 16u64) | (p2 & 0xFFFF)) as i32,
        ((((p3 & 0xFFFF) << 48u64) | (p4 & 0xFFFFFFFFFFFF)) >> 32u64) as i32 == (((p3 & 0xFFFF)
            << 16u64) | ((p4 >> 32u64) & 0xFFFF)) as i32,
        (((p3 & 0xFFFF) << 48u64) | (p4 & 0xFFFFFFFFFFFF)) as i32 == p4 as i32,
{
    assert(((((p0 & 0xFFFFFFFF) << 32u64) | ((p1 & 0xFFFF) << 16u64) | (p2 & 0xFFFF)) >> 32u64)
        as i32 == p0 as i32) by (bit_vector);
    assert(((((p0 & 0xFFFFFFFF) << 32u64) | ((p1 & 0xFFFF) << 16u64) | (p2 & 0xFFFF))) as i32 == (((
    p1 & 0xFFFF) << 16u64) | (p2 & 0xFFFF)) as i32) by (bit_vector);
    assert(((((p3 & 0xFFFF) << 48u64) | (p4 & 0xFFFFFFFFFFFF)) >> 32u64) as i32 == (((p3 & 0xFFFF)
        << 16u64) | ((p4 >> 32u64) & 0xFFFF)) as i32) by (bit_vector);
    assert((((p3 & 0xFFFF) << 48u64) | (p4 & 0xFFFFFFFFFFFF)) as i32 == p4 as i32) by (bit_vector);
}

// ---------------------------------------------------------------------------
// The canonical text of a UUID
// ---------------------------------------------------------------------------

/// The hexadecimal digit for `d` (`0 <= d < 16`), in upper or lower case.
pub open spec fn hex_char(d: int, upper: bool) -> char {
    if d == 0 {
        '0'
    } else if d == 1 {
        '1'
    } else if d == 2 {
        '2'
    } else if d == 3 {
        '3'
    } else if d == 4 {
        '4'
    } else if d == 5 {
        '5'
    } else if d == 6 {
        '6'
    } else if d == 7 {
        '7'
    } else if d == 8 {
        '8'
    } else if d == 9 {
        '9'
    } else if d == 10 {
        if upper { 'A' } else { 'a' }
    } else if d == 11 {
        if upper { 'B' } else { 'b' }
    } else if d == 12 {
        if upper { 'C' } else { 'c' }
    } else if d == 13 {
        if upper { 'D' } else { 'd' }
    } else if d == 14 {
        if upper { 'E' } else { 'e' }
    } else {
        if upper { 'F' } else { 'f' }
    }
}

/// `16` to the power `w`.
pub open spec fn pow16(w: nat) -> nat
    decreases w,
{
    if w == 0 {
        1
    } else {
        16 * pow16((w - 1) as nat)
    }
}

/// The `w` lowest hexadecimal digits of `v`, most significant first.
pub open spec fn hex_text(v: nat, w: nat, upper: bool) -> Seq<char>
    decreases w,
{
    if w == 0 {
        Seq::empty()
    } else {
        hex_text(v / 16, (w - 1) as nat, upper).push(hex_char((v % 16) as int, upper))
    }
}

/// The canonical 8-4-4-4-12 text of the 128-bit number `n`.
pub open spec fn canonical_uuid_text(n: u128, upper: bool) -> Seq<char> {
    hex_text((n >> 96u128) as nat, 8, upper) + seq!['-'] + hex_text(
        ((n >> 80u128) & 0xffffu128) as nat,
        4,
        upper,
    ) + seq!['-'] + hex_text(((n >> 64u128) & 0xffffu128) as nat, 4, upper) + seq!['-']
        + hex_text(((n >> 48u128) & 0xffffu128) as nat, 4, upper) + seq!['-'] + hex_text(
        (n & 0xffff_ffff_ffffu128) as nat,
        12,
        upper,
    )
}

proof fn lemma_hex_text(v: nat, w: nat, upper: bool)
    requires
        v < pow16(w),
    ensures
        hex_text(v, w, upper).len() == w,
        all_hex(hex_text(v, w, upper)),
        hex_value(hex_text(v, w, upper)) == v,
    decreases w,
{
    let t = hex_text(v, w, upper);
    if w == 0 {
    } else {
        let q = v / 16;
        let d = v % 16;
        assert(q < pow16((w - 1) as nat)) by (nonlinear_arith)
            requires
                v < 16 * pow16((w - 1) as nat),
                q == v / 16,
        ;
        lemma_hex_text(q, (w - 1) as nat, upper);
        let p = hex_text(q, (w - 1) as nat, upper);
        assert(0 <= d < 16);
        assert(hex_digit_value(hex_char(d as int, upper)) == Some(d as int));
        assert(t.drop_last() =~= p);
        assert(all_hex(t)) by {
            assert forall|i: int| 0 <= i < t.len() implies (#[trigger] hex_digit_value(t[i])) is Some by {
                if i < t.len() - 1 {
                    assert(t[i] == p[i]);
                }
            }
        }
        assert(v == q * 16 + d);
    }
}

/// Appending dash-free text to a text extends its last field.
proof fn lemma_split_dash_append(p: Seq<char>, t: Seq<char>)
    requires
        forall|i: int| 0 <= i < t.len() ==> #[trigger] t[i] != '-',
    ensures
        split_dash(p + t) == split_dash(p).update(
            split_dash(p).len() - 1,
            split_dash(p).last() + t,
        ),
    decreases t.len(),
{
    lemma_split_dash_nonempty(p);
    if t.len() == 0 {
        assert(p + t =~= p);
        assert(split_dash(p).last() + t =~= split_dash(p).last());
        assert(split_dash(p).update(split_dash(p).len() - 1, split_dash(p).last()) =~= split_dash(p));
    } else {
        let t0 = t.drop_last();
        assert forall|i: int| 0 <= i < t0.len() implies #[trigger] t0[i] != '-' by {
            assert(t0[i] == t[i]);
        }
        lemma_split_dash_append(p, t0);
        assert((p + t).drop_last() =~= p + t0);
        assert((p + t).last() == t.last());
        let q = split_dash(p + t0);
        assert(split_dash(p + t) == q.update(q.len() - 1, q.last().push(t.last())));
        assert((split_dash(p).last() + t0).push(t.last()) =~= split_dash(p).last() + t);
        assert(split_dash(p + t) =~= split_dash(p).update(
            split_dash(p).len() - 1,
            split_dash(p).last() + t,
        ));
    }
}

proof fn lemma_hex_text_no_dash(v: nat, w: nat, upper: bool)
    requires
        v < pow16(w),
    ensures
        forall|i: int| 0 <= i < hex_text(v, w, upper).len() ==> #[trigger] hex_text(v, w, upper)[i] != '-',
        field_digits(hex_text(v, w, upper)) == hex_text(v, w, upper),
{
    lemma_hex_text(v, w, upper);
    let t = hex_text(v, w, upper);
    assert forall|i: int| 0 <= i < t.len() implies #[trigger] t[i] != '-' by {
        assert(hex_digit_value(t[i]) is Some);
    }
    if t.len() > 0 {
        assert(hex_digit_value(t[0]) is Some);
    }
}

proof fn lemma_canonical_words(n: u128)
    ensures
        (n >> 96u128) < 0x1_0000_0000u128,
        ((n >> 96u128) as i64) as i32 == (n >> 96u128) as i32,
        ((((((n >> 80u128) & 0xffffu128) as i64) & 0xFFFF) << 16u64) | ((((n >> 64u128)
            & 0xffffu128) as i64) & 0xFFFF)) as i32 == (n >> 64u128) as i32,
        ((((((n >> 48u128) & 0xffffu128) as i64) & 0xFFFF) << 16u64) | ((((n
            & 0xffff_ffff_ffffu128) as i64) >> 32u64) & 0xFFFF)) as i32 == (n >> 32u128) as i32,
        ((n & 0xffff_ffff_ffffu128) as i64) as i32 == n as i32,
{
    assert((n >> 96u128) < 0x1_0000_0000u128) by (bit_vector);
    assert(((n >> 96u128) as i64) as i32 == (n >> 96u128) as i32) by (bit_vector);
    assert(((((((n >> 80u128) & 0xffffu128) as i64) & 0xFFFF) << 16u64) | ((((n >> 64u128)
        & 0xffffu128) as i64) & 0xFFFF)) as i32 == (n >> 64u128) as i32) by (bit_vector);
    assert(((((((n >> 48u128) & 0xffffu128) as i64) & 0xFFFF) << 16u64) | ((((n
        & 0xffff_ffff_ffffu128) as i64) >> 32u64) & 0xFFFF)) as i32 == (n >> 32u128) as i32)
        by (bit_vector);
    assert(((n & 0xffff_ffff_ffffu128) as i64) as i32 == n as i32) by (bit_vector);
}

/// The canonical 8-4-4-4-12 hexadecimal text of any 128-bit number, in upper
/// or lower case, parses to the number's four 32-bit words, most significant
/// first.
pub proof fn lemma_canonical_uuid_parses(n: u128, upper: bool)
    ensures
        spec_parse_uuid(
            canonical_uuid_text(n, upper),
            vstd::utf8::encode_utf8(canonical_uuid_text(n, upper)).len(),
        ) == Some(seq![(n >> 96u128) as i32, (n >> 64u128) as i32, (n >> 32u128) as i32, n as i32]),
{
    let v0 = (n >> 96u128) as nat;
    let v1 = ((n >> 80u128) & 0xffffu128) as nat;
    let v2 = ((n >> 64u128) & 0xffffu128) as nat;
    let v3 = ((n >> 48u128) & 0xffffu128) as nat;
    let v4 = (n & 0xffff_ffff_ffffu128) as nat;
    reveal_with_fuel(pow16, 13);
    assert(pow16(4) == 0x1_0000);
    assert(pow16(8) == 0x1_0000_0000);
    assert(pow16(12) == 0x1_0000_0000_0000);
    lemma_canonical_words(n);
    assert(((n >> 80u128) & 0xffffu128) <= 0xffffu128) by (bit_vector);
    assert(((n >> 64u128) & 0xffffu128) <= 0xffffu128) by (bit_vector);
    assert(((n >> 48u128) & 0xffffu128) <= 0xffffu128) by (bit_vector);
    assert((n & 0xffff_ffff_ffffu128) <= 0xffff_ffff_ffffu128) by (bit_vector);
    let d0 = hex_text(v0, 8, upper);
    let d1 = hex_text(v1, 4, upper);
    let d2 = hex_text(v2, 4, upper);
    let d3 = hex_text(v3, 4, upper);
    let d4 = hex_text(v4, 12, upper);
    lemma_hex_text(v0, 8, upper);
    lemma_hex_text(v1, 4, upper);
    lemma_hex_text(v2, 4, upper);
    lemma_hex_text(v3, 4, upper);
    lemma_hex_text(v4, 12, upper);
    lemma_hex_text_no_dash(v0, 8, upper);
    lemma_hex_text_no_dash(v1, 4, upper);
    lemma_hex_text_no_dash(v2, 4, upper);
    lemma_hex_text_no_dash(v3, 4, upper);
    lemma_hex_text_no_dash(v4, 12, upper);
    let dash = seq!['-'];
    let e = Seq::<char>::empty();
    let s0 = e + d0;
    let s1 = s0 + dash;
    let s2 = s1 + d1;
    let s3 = s2 + dash;
    let s4 = s3 + d2;
    let s5 = s4 + dash;
    let s6 = s5 + d3;
    let s7 = s6 + dash;
    let s8 = s7 + d4;
    assert(s8 =~= canonical_uuid_text(n, upper));
    assert(split_dash(e) == seq![e]);
    lemma_split_dash_append(e, d0);
    assert(split_dash(s0) =~= seq![d0]);
    assert(s1 == s0.push('-'));
    assert(s1.drop_last() =~= s0);
    assert(split_dash(s1) =~= seq![d0, e]);
    lemma_split_dash_append(s1, d1);
    assert(split_dash(s2) =~= seq![d0, d1]);
    assert(s3.drop_last() =~= s2);
    assert(split_dash(s3) =~= seq![d0, d1, e]);
    lemma_split_dash_append(s3, d2);
    assert(split_dash(s4) =~= seq![d0, d1, d2]);
    assert(s5.drop_last() =~= s4);
    assert(split_dash(s5) =~= seq![d0, d1, d2, e]);
    lemma_split_dash_append(s5, d3);
    assert(split_dash(s6) =~= seq![d0, d1, d2, d3]);
    assert(s7.drop_last() =~= s6);
    assert(split_dash(s7) =~= seq![d0, d1, d2, d3, e]);
    lemma_split_dash_append(s7, d4);
    let fields = split_dash(s8);
    assert(fields =~= seq![d0, d1, d2, d3, d4]);
    assert(hex_field(d0) == Some(v0 as int));
    assert(hex_field(d1) == Some(v1 as int));
    assert(hex_field(d2) == Some(v2 as int));
    assert(hex_field(d3) == Some(v3 as int));
    assert(hex_field(d4) == Some(v4 as int));
    assert(fields_parse(fields)) by {
        assert forall|i: int| 0 <= i < fields.len() implies (#[trigger] hex_field(fields[i])) is Some by {
            if i == 0 {
            } else if i == 1 {
            } else if i == 2 {
            } else if i == 3 {
            } else {
            }
        }
    }
    lemma_parsed_text_is_ascii(s8);
    assert(s8.len() == 36);
    assert(uuid_words(v0 as i64, v1 as i64, v2 as i64, v3 as i64, v4 as i64) =~= seq![
        (n >> 96u128) as i32,
        (n >> 64u128) as i32,
        (n >> 32u128) as i32,
        n as i32,
    ]);
}

// ---------------------------------------------------------------------------
// Executable parsing
// ---------------------------------------------------------------------------

fn hex_digit(c: char) -> (r: Option<i64>)
    ensures
        match hex_digit_value(c) {
            Some(v) => r == Some(v as i64),
            None => r is None,
        },
{
    if '0' <= c && c <= '9' {
        Some((c as u32 - '0' as u32) as i64)
    } else if 'a' <= c && c <= 'f' {
        Some((c as u32 - 'a' as u32 + 10) as i64)
    } else if 'A' <= c && c <= 'F' {
        Some((c as u32 - 'A' as u32 + 10) as i64)
    } else {
        None
    }
}

/// Parses one dash-free field as `i64::from_str_radix(field, 16)` does.
fn parse_hex_field(field: &Vec<char>) -> (r: Option<i64>)
    ensures
        match hex_field(field@) {
            Some(v) => r == Some(v as i64),
            None => r is None,
        },
{
    let len = field.len();
    let start: usize = if len > 0 && field[0] == '+' {
        1
    } else {
        0
    };
    let ghost digits = field_digits(field@);
    assert(digits =~= field@.subrange(start as int, len as int));
    if start == len {
        return None;
    }
    let mut acc: i64 = 0;
    let mut i: usize = start;
    while i < len
        invariant
            start <= i <= len,
            len == field@.len(),
            start < len,
            digits == field_digits(field@),
            digits =~= field@.subrange(start as int, len as int),
            all_hex(digits.take(i - start)),
            acc as int == hex_value(digits.take(i - start)),
            0 <= acc < 0x8000_0000_0000_0000,
        decreases len - i,
    {
        let ghost k: int = i - start;
        assert(digits.take(k + 1).drop_last() =~= digits.take(k));
        assert(digits[k] == field@[i as int]);
        let d = match hex_digit(field[i]) {
            Some(d) => d,
            None => {
                assert(!all_hex(digits)) by {
                    assert(hex_digit_value(digits[k]) is None);
                }
                return None;
            },
        };
        if acc >= 0x0800_0000_0000_0000 {
            proof {
                assert(all_hex(digits.take(k + 1))) by {
                    assert forall|j: int| 0 <= j < k + 1 implies (#[trigger] hex_digit_value(
                        digits.take(k + 1)[j],
                    )) is Some by {
                        if j < k {
                            assert(digits.take(k + 1)[j] == digits.take(k)[j]);
                        }
                    }
                }
                assert(digits.take(k + 1).last() == digits[k]);
                assert(hex_value(digits.take(k + 1)) == acc * 16 + d);
                if all_hex(digits) {
                    lemma_hex_value_prefix(digits, k + 1);
                }
            }
            return None;
        }
        acc = acc * 16 + d;
        i = i + 1;
        proof {
            assert(all_hex(digits.take(k + 1))) by {
                assert forall|j: int| 0 <= j < k + 1 implies (#[trigger] hex_digit_value(
                    digits.take(k + 1)[j],
                )) is Some by {
                    if j < k {
                        assert(digits.take(k + 1)[j] == digits.take(k)[j]);
                    }
                }
            }
        }
    }
    assert(digits.take(len - start) =~= digits);
    Some(acc)
}

/// Splits the characters of `s` at every `-`.
fn split_fields(s: &str) -> (fields: Vec<Vec<char>>)
    ensures
        fields@.len() == split_dash(s@).len(),
        forall|j: int| 0 <= j < fields@.len() ==> #[trigger] fields@[j]@ == split_dash(s@)[j],
{
    let n = s.unicode_len();
    let mut done: Vec<Vec<char>> = Vec::new();
    let mut cur: Vec<char> = Vec::new();
    let mut i: usize = 0;
    proof {
        assert(s@.take(0) =~= Seq::<char>::empty());
    }
    while i < n
        invariant
            i <= n,
            n == s@.len(),
            done@.len() + 1 == split_dash(s@.take(i as int)).len(),
            forall|j: int| 0 <= j < done@.len() ==> #[trigger] done@[j]@ == split_dash(
                s@.take(i as int),
            )[j],
            cur@ == split_dash(s@.take(i as int)).last(),
        decreases n - i,
    {
        let c = s.get_char(i);
        let ghost prev = split_dash(s@.take(i as int));
        proof {
            assert(s@.take(i + 1).drop_last() =~= s@.take(i as int));
            assert(s@.take(i + 1).last() == c);
        }
        if c == '-' {
            let finished = cur;
            done.push(finished);
            cur = Vec::new();
        } else {
            cur.push(c);
        }
        i = i + 1;
        proof {
            let next = split_dash(s@.take(i as int));
            lemma_split_dash_nonempty(s@.take(i - 1));
            if c == '-' {
                assert(next == prev.push(Seq::<char>::empty()));
            } else {
                assert(next == prev.update(prev.len() - 1, prev.last().push(c)));
            }
            assert forall|j: int| 0 <= j < done@.len() implies #[trigger] done@[j]@ == next[j] by {
                if c == '-' && j == done@.len() - 1 {
                } else {
                    assert(done@[j]@ == prev[j]);
                }
            }
        }
    }
    assert(s@.take(n as int) =~= s@);
    done.push(cur);
    done
}

// ---------------------------------------------------------------------------
// NBT values and the operations
// ---------------------------------------------------------------------------

/// An NBT tag, as SNBT operations take and give them. Floating-point tags are
/// held by their IEEE 754 bit patterns.
#[derive(Debug, PartialEq)]
pub enum NbtTag {
    End,
    Byte(i8),
    Short(i16),
    Int(i32),
    Long(i64),
    Float(u32),
    Double(u64),
    ByteArray(Vec<u8>),
    String(String),
    List(Vec<NbtTag>),
    Compound(Vec<(String, NbtTag)>),
    IntArray(Vec<i32>),
    LongArray(Vec<i64>),
}

/// Why an SNBT operation refused its operand; the parser reports it.
#[derive(Clone, Copy, Debug, PartialEq, Eq)]
pub enum SnbtOperationError {
    /// `snbt_parser.expected_number_or_boolean`
    ExpectedNumberOrBoolean,
    /// `snbt_parser.expected_string_uuid`
    ExpectedStringUuid,
}

/// An operation that can take operands and return a result.
#[derive(Clone, Copy, Debug, PartialEq, Eq)]
pub enum SnbtOperation {
    /// `bool(x)`
    Bool,
    /// `uuid(x)`
    Uuid,
}

/// For a numeric tag, whether its number is non-zero (for a floating-point tag:
/// whether it is anything but positive or negative zero); `None` for any other tag.
pub open spec fn tag_truth(tag: NbtTag) -> Option<bool> {
    match tag {
        NbtTag::Byte(v) => Some(v != 0),
        NbtTag::Short(v) => Some(v != 0),
        NbtTag::Int(v) => Some(v != 0),
        NbtTag::Long(v) => Some(v != 0),
        NbtTag::Float(bits) => Some(bits & 0x7FFF_FFFFu32 != 0),
        NbtTag::Double(bits) => Some(bits & 0x7FFF_FFFF_FFFF_FFFFu64 != 0),
        _ => None,
    }
}

/// What the operator `bool` gives for the operand `tag`.
pub open spec fn spec_bool_operation(tag: NbtTag) -> Result<NbtTag, SnbtOperationError> {
    match tag_truth(tag) {
        Some(b) => Ok(NbtTag::Byte(if b { 1i8 } else { 0i8 })),
        None => Err(SnbtOperationError::ExpectedNumberOrBoolean),
    }
}

/// Whether `r` is what the operator `uuid` gives for the operand `tag`.
pub open spec fn is_uuid_operation_result(tag: NbtTag, r: Result<NbtTag, SnbtOperationError>) -> bool {
    match tag {
        NbtTag::String(s) => match spec_parse_uuid(s@, vstd::utf8::encode_utf8(s@).len()) {
            Some(words) => r matches Ok(NbtTag::IntArray(ints)) && ints@ == words,
            None => r == Err::<NbtTag, SnbtOperationError>(SnbtOperationError::ExpectedStringUuid),
        },
        _ => r == Err::<NbtTag, SnbtOperationError>(SnbtOperationError::ExpectedStringUuid),
    }
}

/// A manager for the SNBT operations that are built into the parser.
pub struct SnbtOperations;

impl SnbtOperation {
    /// Runs the operation on its operands.
    pub fn run(&self, args: &[NbtTag]) -> (r: Result<NbtTag, SnbtOperationError>)
        requires
            args@.len() >= 1,
        ensures
            *self == SnbtOperation::Bool ==> r == spec_bool_operation(args@[0]),
            *self == SnbtOperation::Uuid ==> is_uuid_operation_result(args@[0], r),
    {
        match self {
            SnbtOperation::Bool => SnbtOperations::bool(args),
            SnbtOperation::Uuid => SnbtOperations::uuid(args),
        }
    }
}

impl SnbtOperations {
    /// The identifiers that SNBT reserves for built-in values and operations.
    pub fn builtin_ids() -> (ids: Vec<&'static str>)
        ensures
            ids@.len() == 4,
            ids@[0]@ == "true"@,
            ids@[1]@ == "false"@,
            ids@[2]@ == "bool"@,
            ids@[3]@ == "uuid"@,
    {
        let mut ids: Vec<&'static str> = Vec::new();
        ids.push("true");
        ids.push("false");
        ids.push("bool");
        ids.push("uuid");
        ids
    }

    /// Searches for an operation to be run from the given identifier and
    /// argument count.
    pub fn search(id: &str, arg_count: usize) -> (r: Option<SnbtOperation>)
        ensures
            r == (if id@ == "bool"@ && arg_count == 1 {
                Some(SnbtOperation::Bool)
            } else if id@ == "uuid"@ && arg_count == 1 {
                Some(SnbtOperation::Uuid)
            } else {
                None::<SnbtOperation>
            }),
    {
        if arg_count == 1 && str_equal(id, "bool") {
            Some(SnbtOperation::Bool)
        } else if arg_count == 1 && str_equal(id, "uuid") {
            Some(SnbtOperation::Uuid)
        } else {
            None
        }
    }

    /// The `bool` unary operator: an identity operation for booleans, and
    /// `true` for non-zero numbers; any other operand is refused.
    pub fn bool(args: &[NbtTag]) -> (r: Result<NbtTag, SnbtOperationError>)
        requires
            args@.len() >= 1,
        ensures
            r == spec_bool_operation(args@[0]),
    {
        let truth = match &args[0] {
            NbtTag::Byte(v) => *v != 0,
            NbtTag::Short(v) => *v != 0,
            NbtTag::Int(v) => *v != 0,
            NbtTag::Long(v) => *v != 0,
            NbtTag::Float(bits) => *bits & 0x7FFF_FFFFu32 != 0,
            NbtTag::Double(bits) => *bits & 0x7FFF_FFFF_FFFF_FFFFu64 != 0,
            _ => {
                return Err(SnbtOperationError::ExpectedNumberOrBoolean);
            },
        };
        Ok(NbtTag::Byte(if truth { 1 } else { 0 }))
    }

    /// The `uuid` unary operator: parses a UUID in a string to an array of 4
    /// integers; any other operand is refused.
    pub fn uuid(args: &[NbtTag]) -> (r: Result<NbtTag, SnbtOperationError>)
        requires
            args@.len() >= 1,
        ensures
            is_uuid_operation_result(args@[0], r),
    {
        match &args[0] {
            NbtTag::String(s) => match Self::parse_uuid(s.as_str()) {
                Some(ints) => Ok(NbtTag::IntArray(ints)),
                None => Err(SnbtOperationError::ExpectedStringUuid),
            },
            _ => Err(SnbtOperationError::ExpectedStringUuid),
        }
    }

    /// Parses UUIDs the 'Java' way: at most 36 bytes of text, five hexadecimal
    /// fields separated by `-`, each of which `i64::from_str_radix(.., 16)`
    /// accepts (an optional `+`, then hexadecimal digits), assembled into four
    /// signed 32-bit words.
    pub fn parse_uuid(uuid: &str) -> (r: Option<Vec<i32>>)
        ensures
            match spec_parse_uuid(uuid@, vstd::utf8::encode_utf8(uuid@).len()) {
                Some(words) => r is Some && r->0@ == words,
                None => r is None,
            },
    {
        if uuid.unicode_len() > 36 {
            proof {
                if fields_parse(split_dash(uuid@)) {
                    lemma_parsed_text_is_ascii(uuid@);
                }
            }
            return None;
        }
        let fields = split_fields(uuid);
        if fields.len() != 5 {
            return None;
        }
        let mut values: Vec<i64> = Vec::new();
        let mut k: usize = 0;
        while k < 5
            invariant
                k <= 5,
                fields@.len() == 5,
                split_dash(uuid@).len() == 5,
                forall|j: int| 0 <= j < 5 ==> #[trigger] fields@[j]@ == split_dash(uuid@)[j],
                values@.len() == k,
                forall|j: int|
                    0 <= j < k ==> (#[trigger] hex_field(split_dash(uuid@)[j])) is Some
                        && values@[j] == hex_field(split_dash(uuid@)[j])->0 as i64,
            decreases 5 - k,
        {
            assert(fields@[k as int]@ == split_dash(uuid@)[k as int]);
            match parse_hex_field(&fields[k]) {
                Some(v) => values.push(v),
                None => {
                    assert(!fields_parse(split_dash(uuid@)));
                    return None;
                },
            }
            k = k + 1;
        }
        let ghost fs = split_dash(uuid@);
        assert(fields_parse(fs)) by {
            assert forall|i: int| 0 <= i < fs.len() implies (#[trigger] hex_field(fs[i])) is Some by {
            }
        }
        proof {
            lemma_parsed_text_is_ascii(uuid@);
        }
        let p0 = values[0];
        let p1 = values[1];
        let p2 = values[2];
        let p3 = values[3];
        let p4 = values[4];
        let bits0: i64 = ((p0 & 0xFFFFFFFF) << 32u64) | ((p1 & 0xFFFF) << 16u64) | (p2 & 0xFFFF);
        let bits1: i64 = ((p3 & 0xFFFF) << 48u64) | (p4 & 0xFFFFFFFFFFFF);
        proof {
            lemma_uuid_bits(p0, p1, p2, p3, p4);
        }
        let mut words: Vec<i32> = Vec::new();
        words.push((bits0 >> 32u64) as i32);
        words.push(bits0 as i32);
        words.push((bits1 >> 32u64) as i32);
        words.push(bits1 as i32);
        assert(words@ =~= uuid_words(p0, p1, p2, p3, p4));
        Some(words)
    }
}


/// `bool` of an integer tag (byte, short, int or long) is the byte 1 when its
/// number is not zero, whatever its sign, and the byte 0 when it is zero.
pub proof fn lemma_bool_of_integers(b: i8, s: i16, i: i32, l: i64)
    ensures
        spec_bool_operation(NbtTag::Byte(b)) == Ok::<NbtTag, SnbtOperationError>(
            NbtTag::Byte(if b == 0 { 0i8 } else { 1i8 }),
        ),
        spec_bool_operation(NbtTag::Short(s)) == Ok::<NbtTag, SnbtOperationError>(
            NbtTag::Byte(if s == 0 { 0i8 } else { 1i8 }),
        ),
        spec_bool_operation(NbtTag::Int(i)) == Ok::<NbtTag, SnbtOperationError>(
            NbtTag::Byte(if i == 0 { 0i8 } else { 1i8 }),
        ),
        spec_bool_operation(NbtTag::Long(l)) == Ok::<NbtTag, SnbtOperationError>(
            NbtTag::Byte(if l == 0 { 0i8 } else { 1i8 }),
        ),
{
}

/// `bool` of a floating-point tag is the byte 0 for positive and negative
/// zero and the byte 1 for any other value; `bool` of a string, or of the end
/// tag, asks for a number or a boolean.
pub proof fn lemma_bool_of_other_tags(f: u32, d: u64, text: String)
    ensures
        spec_bool_operation(NbtTag::Float(f)) == Ok::<NbtTag, SnbtOperationError>(
            NbtTag::Byte(if f == 0 || f == 0x8000_0000u32 { 0i8 } else { 1i8 }),
        ),
        spec_bool_operation(NbtTag::Double(d)) == Ok::<NbtTag, SnbtOperationError>(
            NbtTag::Byte(if d == 0 || d == 0x8000_0000_0000_0000u64 { 0i8 } else { 1i8 }),
        ),
        spec_bool_operation(NbtTag::String(text)) == Err::<NbtTag, SnbtOperationError>(
            SnbtOperationError::ExpectedNumberOrBoolean,
        ),
        spec_bool_operation(NbtTag::End) == Err::<NbtTag, SnbtOperationError>(
            SnbtOperationError::ExpectedNumberOrBoolean,
        ),
{
    assert((f & 0x7FFF_FFFFu32 == 0) == (f == 0 || f == 0x8000_0000u32)) by (bit_vector);
    assert((d & 0x7FFF_FFFF_FFFF_FFFFu64 == 0) == (d == 0 || d == 0x8000_0000_0000_0000u64))
        by (bit_vector);
}

} // verus!
