//! The "pump" region format: one file per 32x32-chunk region, holding each
//! chunk's serialized bytes under the decimal text of its index in the region.
use vstd::prelude::*;

use crate::decimal::{append_decimal, digit_char, int_decimal, nat_decimal};
use crate::text::str_equal;

verus! {

// ---------------------------------------------------------------------------
// Region addressing
// ---------------------------------------------------------------------------

/// The region coordinate of a chunk coordinate: regions are 32 chunks wide,
/// so this is the chunk coordinate divided by 32, rounded down.
pub open spec fn region_coord(c: i32) -> int {
    c as int / 32
}

/// The index of a chunk inside its region: `x + 32 * z` of its position
/// relative to the region's corner (both in `0..32`).
pub open spec fn chunk_index(x: i32, z: i32) -> int {
    x as int % 32 + (z as int % 32) * 32
}

/// The name of the file that holds the region of a chunk.
pub open spec fn chunk_key_text(x: i32, z: i32) -> Seq<char> {
    seq!['r', '.'] + int_decimal(region_coord(x)) + seq!['.'] + int_decimal(region_coord(z)) + seq![
        '.',
        'p',
        'u',
        'm',
        'p',
    ]
}

proof fn lemma_shift_is_floor_div(c: i32)
    ensures
        (c >> 5u32) as int == region_coord(c),
        (c & 31i32) as int == c as int % 32,
{
    assert((c >> 5u32) * 32 + (c & 31i32) == c) by (bit_vector);
    assert(0 <= (c & 31i32) < 32) by (bit_vector);
}

/// The region coordinate of a chunk coordinate (`c >> 5`).
fn region_of(c: i32) -> (r: i32)
    ensures
        r as int == region_coord(c),
{
    proof {
        lemma_shift_is_floor_div(c);
    }
    c >> 5u32
}

/// The index of a chunk inside its region.
fn index_in_region(x: i32, z: i32) -> (r: usize)
    ensures
        r as int == chunk_index(x, z),
        r < 1024,
{
    proof {
        lemma_shift_is_floor_div(x);
        lemma_shift_is_floor_div(z);
    }
    let rel_x = (x & 31i32) as usize;
    let rel_z = (z & 31i32) as usize;
    rel_x + rel_z * 32
}

// ---------------------------------------------------------------------------
// Ordered keys
// ---------------------------------------------------------------------------

/// The order of `String` keys: lexicographic by character, a proper prefix first.
pub open spec fn key_less(a: Seq<char>, b: Seq<char>) -> bool
    decreases a.len(),
{
    if a.len() == 0 {
        b.len() > 0
    } else if b.len() == 0 {
        false
    } else if a[0] != b[0] {
        a[0] < b[0]
    } else {
        key_less(a.drop_first(), b.drop_first())
    }
}

/// The keys of `es` strictly increase, so no key occurs twice.
pub open spec fn sorted_keys(es: Seq<(Seq<char>, Seq<u8>)>) -> bool {
    forall|i: int, j: int|
        #![trigger es[i], es[j]]
        0 <= i < j < es.len() ==> key_less(es[i].0, es[j].0)
}

/// The bytes stored under `k`, if any.
pub open spec fn lookup(es: Seq<(Seq<char>, Seq<u8>)>, k: Seq<char>) -> Option<Seq<u8>>
    decreases es.len(),
{
    if es.len() == 0 {
        None
    } else if es[0].0 == k {
        Some(es[0].1)
    } else {
        lookup(es.drop_first(), k)
    }
}

/// `es` with `v` stored under `k`: in place of an entry with that key, or
/// else where the order of keys puts it.
pub open spec fn insert_sorted(es: Seq<(Seq<char>, Seq<u8>)>, k: Seq<char>, v: Seq<u8>) -> Seq<
    (Seq<char>, Seq<u8>),
>
    decreases es.len(),
{
    if es.len() == 0 {
        seq![(k, v)]
    } else if es[0].0 == k {
        seq![(k, v)] + es.drop_first()
    } else if key_less(k, es[0].0) {
        seq![(k, v)] + es
    } else {
        seq![es[0]] + insert_sorted(es.drop_first(), k, v)
    }
}

proof fn lemma_key_less_irreflexive(a: Seq<char>)
    ensures
        !key_less(a, a),
    decreases a.len(),
{
    if a.len() > 0 {
        lemma_key_less_irreflexive(a.drop_first());
    }
}

proof fn lemma_key_less_transitive(a: Seq<char>, b: Seq<char>, c: Seq<char>)
    requires
        key_less(a, b),
        key_less(b, c),
    ensures
        key_less(a, c),
    decreases a.len(),
{
    if a.len() > 0 && b.len() > 0 && c.len() > 0 && a[0] == b[0] && b[0] == c[0] {
        lemma_key_less_transitive(a.drop_first(), b.drop_first(), c.drop_first());
    }
}

proof fn lemma_key_less_total(a: Seq<char>, b: Seq<char>)
    ensures
        a == b || key_less(a, b) || key_less(b, a),
    decreases a.len(),
{
    if a.len() > 0 && b.len() > 0 && a[0] == b[0] {
        lemma_key_less_total(a.drop_first(), b.drop_first());
        if a.drop_first() == b.drop_first() {
            assert(a =~= seq![a[0]] + a.drop_first());
            assert(b =~= seq![b[0]] + b.drop_first());
        }
    } else if a.len() == 0 && b.len() == 0 {
        assert(a =~= b);
    }
}

/// Every key of `es` is greater than `a`.
pub open spec fn keys_above(es: Seq<(Seq<char>, Seq<u8>)>, a: Seq<char>) -> bool {
    forall|i: int| 0 <= i < es.len() ==> key_less(a, #[trigger] es[i].0)
}

proof fn lemma_insert_sorted(es: Seq<(Seq<char>, Seq<u8>)>, k: Seq<char>, v: Seq<u8>)
    requires
        sorted_keys(es),
    ensures
        sorted_keys(insert_sorted(es, k, v)),
        forall|q: Seq<char>|
            #[trigger] lookup(insert_sorted(es, k, v), q) == if q == k {
                Some(v)
            } else {
                lookup(es, q)
            },
        forall|a: Seq<char>|
            keys_above(es, a) && key_less(a, k) ==> #[trigger] keys_above(
                insert_sorted(es, k, v),
                a,
            ),
    decreases es.len(),
{
    let r = insert_sorted(es, k, v);
    if es.len() == 0 {
        assert forall|q: Seq<char>| #[trigger] lookup(r, q) == if q == k {
            Some(v)
        } else {
            lookup(es, q)
        } by {
            assert(r.drop_first() =~= Seq::<(Seq<char>, Seq<u8>)>::empty());
            assert(lookup(r.drop_first(), q) == None::<Seq<u8>>);
        }
    } else if es[0].0 == k {
        assert(r.drop_first() =~= es.drop_first());
        assert forall|i: int, j: int| #![trigger r[i], r[j]] 0 <= i < j < r.len() implies key_less(
            r[i].0,
            r[j].0,
        ) by {
            assert(r[j] == es[j]);
            if i > 0 {
                assert(r[i] == es[i]);
            }
        }
        assert forall|q: Seq<char>| #[trigger] lookup(r, q) == if q == k {
            Some(v)
        } else {
            lookup(es, q)
        } by {}
        assert forall|a: Seq<char>| keys_above(es, a) && key_less(a, k) implies #[trigger] keys_above(
            r,
            a,
        ) by {
            assert forall|i: int| 0 <= i < r.len() implies key_less(a, #[trigger] r[i].0) by {
                if i > 0 {
                    assert(r[i] == es[i]);
                }
            }
        }
    } else if key_less(k, es[0].0) {
        assert(r.drop_first() =~= es);
        assert forall|i: int, j: int| #![trigger r[i], r[j]] 0 <= i < j < r.len() implies key_less(
            r[i].0,
            r[j].0,
        ) by {
            assert(r[j] == es[j - 1]);
            if i > 0 {
                assert(r[i] == es[i - 1]);
            } else if j - 1 > 0 {
                assert(key_less(es[0].0, es[j - 1].0));
                lemma_key_less_transitive(k, es[0].0, es[j - 1].0);
            }
        }
        assert forall|q: Seq<char>| #[trigger] lookup(r, q) == if q == k {
            Some(v)
        } else {
            lookup(es, q)
        } by {}
        assert forall|a: Seq<char>| keys_above(es, a) && key_less(a, k) implies #[trigger] keys_above(
            r,
            a,
        ) by {
            assert forall|i: int| 0 <= i < r.len() implies key_less(a, #[trigger] r[i].0) by {
                if i > 0 {
                    assert(r[i] == es[i - 1]);
                }
            }
        }
    } else {
        let t = es.drop_first();
        assert(sorted_keys(t)) by {
            assert forall|i: int, j: int| #![trigger t[i], t[j]] 0 <= i < j < t.len() implies key_less(
                t[i].0,
                t[j].0,
            ) by {
                assert(t[i] == es[i + 1]);
                assert(t[j] == es[j + 1]);
            }
        }
        lemma_insert_sorted(t, k, v);
        let rt = insert_sorted(t, k, v);
        assert(r =~= seq![es[0]] + rt);
        lemma_key_less_total(k, es[0].0);
        assert(keys_above(t, es[0].0)) by {
            assert forall|i: int| 0 <= i < t.len() implies key_less(es[0].0, #[trigger] t[i].0) by {
                assert(t[i] == es[i + 1]);
            }
        }
        assert(keys_above(rt, es[0].0));
        assert forall|i: int, j: int| #![trigger r[i], r[j]] 0 <= i < j < r.len() implies key_less(
            r[i].0,
            r[j].0,
        ) by {
            assert(r[j] == rt[j - 1]);
            if i > 0 {
                assert(r[i] == rt[i - 1]);
            }
        }
        assert forall|q: Seq<char>| #[trigger] lookup(r, q) == if q == k {
            Some(v)
        } else {
            lookup(es, q)
        } by {
            assert(r.drop_first() == rt);
            assert(lookup(rt, q) == if q == k {
                Some(v)
            } else {
                lookup(t, q)
            });
        }
        assert forall|a: Seq<char>| keys_above(es, a) && key_less(a, k) implies #[trigger] keys_above(
            r,
            a,
        ) by {
            assert(keys_above(t, a)) by {
                assert forall|i: int| 0 <= i < t.len() implies key_less(a, #[trigger] t[i].0) by {
                    assert(t[i] == es[i + 1]);
                }
            }
            assert(keys_above(rt, a));
            assert forall|i: int| 0 <= i < r.len() implies key_less(a, #[trigger] r[i].0) by {
                if i > 0 {
                    assert(r[i] == rt[i - 1]);
                }
            }
        }
    }
}

/// Compares two keys in the order of `key_less`.
fn key_less_exec(a: &str, b: &str) -> (r: bool)
    ensures
        r == key_less(a@, b@),
{
    let na = a.unicode_len();
    let nb = b.unicode_len();
    let mut i: usize = 0;
    assert(a@.skip(0) =~= a@);
    assert(b@.skip(0) =~= b@);
    while i < na && i < nb
        invariant
            i <= na,
            i <= nb,
            na == a@.len(),
            nb == b@.len(),
            key_less(a@, b@) == key_less(a@.skip(i as int), b@.skip(i as int)),
        decreases na - i,
    {
        let ca = a.get_char(i);
        let cb = b.get_char(i);
        assert(a@.skip(i as int)[0] == ca);
        assert(b@.skip(i as int)[0] == cb);
        if ca != cb {
            return ca < cb;
        }
        assert(a@.skip(i as int).drop_first() =~= a@.skip(i + 1));
        assert(b@.skip(i as int).drop_first() =~= b@.skip(i + 1));
        i = i + 1;
    }
    i < nb
}

// ---------------------------------------------------------------------------
// The table of chunks of a region
// ---------------------------------------------------------------------------

/// The chunks of a region: serialized chunk bytes by key, kept in key order.
pub struct ChunkTable {
    entries: Vec<(String, Vec<u8>)>,
}

impl View for ChunkTable {
    type V = Seq<(Seq<char>, Seq<u8>)>;

    closed spec fn view(&self) -> Seq<(Seq<char>, Seq<u8>)> {
        entries_seq(self.entries@)
    }
}

impl ChunkTable {
    #[verifier::type_invariant]
    closed spec fn inv(self) -> bool {
        sorted_keys(self@)
    }

    /// An empty table.
    pub fn new() -> (t: ChunkTable)
        ensures
            t@ == Seq::<(Seq<char>, Seq<u8>)>::empty(),
    {
        let t = ChunkTable { entries: Vec::new() };
        assert(t@ =~= Seq::<(Seq<char>, Seq<u8>)>::empty());
        t
    }

    /// The number of chunks in the table; its keys are in order.
    pub fn len(&self) -> (n: usize)
        ensures
            n == self@.len(),
            sorted_keys(self@),
    {
        proof {
            use_type_invariant(self);
        }
        self.entries.len()
    }

    /// The key and bytes of the `i`-th entry in key order.
    pub fn entry(&self, i: usize) -> (e: (&String, &Vec<u8>))
        requires
            i < self@.len(),
        ensures
            e.0@ == self@[i as int].0,
            e.1@ == self@[i as int].1,
            sorted_keys(self@),
    {
        proof {
            use_type_invariant(self);
        }
        let e = &self.entries[i];
        (&e.0, &e.1)
    }

    /// The bytes stored under `key`, if any.
    pub fn get(&self, key: &str) -> (r: Option<&Vec<u8>>)
        ensures
            match lookup(self@, key@) {
                Some(v) => r is Some && r->0@ == v,
                None => r is None,
            },
    {
        let n = self.entries.len();
        let mut i: usize = 0;
        assert(self@.skip(0) =~= self@);
        while i < n
            invariant
                i <= n,
                n == self@.len(),
                lookup(self@, key@) == lookup(self@.skip(i as int), key@),
            decreases n - i,
        {
            let e = &self.entries[i];
            assert(self@.skip(i as int)[0] == self@[i as int]);
            if str_equal(e.0.as_str(), key) {
                return Some(&e.1);
            }
            assert(self@.skip(i as int).drop_first() =~= self@.skip(i + 1));
            i = i + 1;
        }
        None
    }

    /// Stores `value` under `key`, in place of what was stored there.
    pub fn insert(&mut self, key: String, value: Vec<u8>)
        ensures
            final(self)@ == insert_sorted(old(self)@, key@, value@),
    {
        proof {
            use_type_invariant(&*self);
        }
        let ghost es = self@;
        let n = self.entries.len();
        let mut i: usize = 0;
        assert(es.skip(0) =~= es);
        assert(es.take(0) + insert_sorted(es, key@, value@) =~= insert_sorted(es, key@, value@));
        while i < n
            invariant
                i <= n,
                n == es.len(),
                es == self@,
                sorted_keys(es),
                insert_sorted(es, key@, value@) == es.take(i as int) + insert_sorted(
                    es.skip(i as int),
                    key@,
                    value@,
                ),
            ensures
                i <= n,
                i < n ==> !key_less(es[i as int].0, key@),
                insert_sorted(es, key@, value@) == es.take(i as int) + insert_sorted(
                    es.skip(i as int),
                    key@,
                    value@,
                ),
            decreases n - i,
        {
            let less = key_less_exec(self.entries[i].0.as_str(), key.as_str());
            assert(es.skip(i as int)[0] == es[i as int]);
            if !less {
                break;
            }
            proof {
                let e = es[i as int];
                lemma_key_less_irreflexive(key@);
                if key_less(key@, e.0) {
                    lemma_key_less_transitive(key@, e.0, key@);
                }
                let sk = es.skip(i as int);
                assert(sk[0] == e);
                assert(sk.drop_first() =~= es.skip(i + 1));
                assert(insert_sorted(sk, key@, value@) == seq![e] + insert_sorted(
                    es.skip(i + 1),
                    key@,
                    value@,
                ));
                assert(es.take(i + 1) =~= es.take(i as int) + seq![e]);
            }
            i = i + 1;
        }
        let ghost s = es.skip(i as int);
        proof {
            lemma_insert_sorted(es, key@, value@);
        }
        let mut entries: Vec<(String, Vec<u8>)> = Vec::new();
        std::mem::swap(&mut entries, &mut self.entries);
        assert(entries_seq(entries@) == es);
        if i < n && str_equal(entries[i].0.as_str(), key.as_str()) {
            proof {
                assert(s[0] == es[i as int]);
                assert(insert_sorted(s, key@, value@) == seq![(key@, value@)] + s.drop_first());
            }
            entries.set(i, (key, value));
        } else {
            proof {
                if i < n {
                    assert(s[0] == es[i as int]);
                    lemma_key_less_total(key@, es[i as int].0);
                    assert(insert_sorted(s, key@, value@) == seq![(key@, value@)] + s);
                } else {
                    assert(s.len() == 0);
                }
            }
            entries.insert(i, (key, value));
        }
        assert(entries_seq(entries@) =~= insert_sorted(
            es,
            key@,
            value@,
        ));
        *self = ChunkTable { entries };
    }
}


// ---------------------------------------------------------------------------
// The NBT layout of a region file
// ---------------------------------------------------------------------------

/// The four bytes of `u`, most significant first.
pub open spec fn be_u32_bytes(u: u32) -> Seq<u8> {
    seq![(u >> 24u32) as u8, (u >> 16u32) as u8, (u >> 8u32) as u8, u as u8]
}

/// The number written by four bytes, most significant first.
pub open spec fn be_u32_value(b0: u8, b1: u8, b2: u8, b3: u8) -> u32 {
    ((b0 as u32) << 24u32) | ((b1 as u32) << 16u32) | ((b2 as u32) << 8u32) | (b3 as u32)
}

/// The two bytes of `n`, most significant first.
pub open spec fn be_u16_bytes(n: u16) -> Seq<u8> {
    seq![(n >> 8u16) as u8, n as u8]
}

/// The number written by two bytes, most significant first.
pub open spec fn be_u16_value(b0: u8, b1: u8) -> u16 {
    ((b0 as u16) << 8u16) | (b1 as u16)
}

/// The NBT `TAG_Byte_Array` entry of a chunk: tag 7, the key's UTF-8 length
/// and bytes, the length of the chunk's bytes and the bytes.
pub open spec fn encode_entry(k: Seq<char>, v: Seq<u8>) -> Seq<u8> {
    let kb = vstd::utf8::encode_utf8(k);
    seq![7u8] + be_u16_bytes(kb.len() as u16) + kb + be_u32_bytes(v.len() as u32) + v
}

/// The entries of the `chunks` compound, in order.
pub open spec fn encode_entries(es: Seq<(Seq<char>, Seq<u8>)>) -> Seq<u8>
    decreases es.len(),
{
    if es.len() == 0 {
        Seq::<u8>::empty()
    } else {
        encode_entry(es[0].0, es[0].1) + encode_entries(es.drop_first())
    }
}

/// Every key fits a 16-bit length and every chunk a non-negative 32-bit length.
pub open spec fn encodable(es: Seq<(Seq<char>, Seq<u8>)>) -> bool {
    forall|i: int|
        0 <= i < es.len() ==> vstd::utf8::encode_utf8(#[trigger] es[i].0).len() <= u16::MAX
            && es[i].1.len() <= i32::MAX
}

/// `TAG_Compound` without a name, then `TAG_Int` named `x`.
pub open spec fn x_header() -> Seq<u8> {
    seq![10u8, 3u8, 0u8, 1u8, 120u8]
}

/// `TAG_Int` named `z`.
pub open spec fn z_header() -> Seq<u8> {
    seq![3u8, 0u8, 1u8, 122u8]
}

/// `TAG_Compound` named `chunks`.
pub open spec fn chunks_header() -> Seq<u8> {
    seq![10u8, 0u8, 6u8, 99u8, 104u8, 117u8, 110u8, 107u8, 115u8]
}

/// The uncompressed bytes of a region file: an unnamed NBT compound holding the
/// region coordinates `x` and `z` and the compound `chunks` of byte arrays.
pub open spec fn encode_pump(x: i32, z: i32, es: Seq<(Seq<char>, Seq<u8>)>) -> Seq<u8> {
    x_header() + be_u32_bytes(x as u32) + z_header() + be_u32_bytes(z as u32) + chunks_header()
        + encode_entries(es) + seq![0u8, 0u8]
}

/// Reads the entries of the `chunks` compound up to its end tag; gives them and
/// the bytes after the end tag. Keys must be UTF-8 and lengths non-negative.
pub open spec fn parse_entries(b: Seq<u8>) -> Option<(Seq<(Seq<char>, Seq<u8>)>, Seq<u8>)>
    decreases b.len(),
{
    if b.len() == 0 {
        None
    } else if b[0] == 0 {
        Some((Seq::empty(), b.skip(1)))
    } else if b[0] != 7 || b.len() < 3 {
        None
    } else {
        let klen = be_u16_value(b[1], b[2]) as int;
        if b.len() < 7 + klen {
            None
        } else {
            let kb = b.subrange(3, 3 + klen);
            let vlen = be_u32_value(b[3 + klen], b[4 + klen], b[5 + klen], b[6 + klen]) as i32 as int;
            if vlen < 0 || b.len() < 7 + klen + vlen || !vstd::utf8::valid_utf8(kb) {
                None
            } else {
                match parse_entries(b.skip(7 + klen + vlen)) {
                    Some((es, rest)) => Some(
                        (
                            seq![(vstd::utf8::decode_utf8(kb), b.subrange(7 + klen, 7 + klen + vlen))]
                                + es,
                            rest,
                        ),
                    ),
                    None => None,
                }
            }
        }
    }
}

/// `TAG_Int` named `x`.
pub open spec fn x_field() -> Seq<u8> {
    seq![3u8, 0u8, 1u8, 120u8]
}

/// The table that storing the entries `es` one after the other into an empty
/// table gives: keys in order, a later entry with a key replacing an earlier one.
pub open spec fn table_of(es: Seq<(Seq<char>, Seq<u8>)>) -> Seq<(Seq<char>, Seq<u8>)>
    decreases es.len(),
{
    if es.len() == 0 {
        Seq::empty()
    } else {
        insert_sorted(table_of(es.drop_last()), es.last().0, es.last().1)
    }
}

/// What follows the entries of a compound is a proper suffix of the bytes.
pub proof fn lemma_parse_entries_rest(b: Seq<u8>)
    ensures
        parse_entries(b) matches Some((es, rest)) ==> rest.len() < b.len() && rest == b.skip(
            b.len() - rest.len(),
        ),
    decreases b.len(),
{
    if b.len() > 0 && b[0] != 0 && b[0] == 7 && b.len() >= 3 {
        let klen = be_u16_value(b[1], b[2]) as int;
        if b.len() >= 7 + klen {
            let vlen = be_u32_value(b[3 + klen], b[4 + klen], b[5 + klen], b[6 + klen]) as i32 as int;
            if vlen >= 0 && b.len() >= 7 + klen + vlen {
                let t = b.skip(7 + klen + vlen);
                lemma_parse_entries_rest(t);
                if let Some((es, rest)) = parse_entries(t) {
                    assert(rest =~= b.skip(b.len() - rest.len()));
                }
            }
        }
    } else if b.len() > 0 && b[0] == 0 {
        assert(b.skip(1) =~= b.skip(b.len() - b.skip(1).len()));
    }
}

/// A signed big-endian 32-bit number at `i` in `b`.
pub open spec fn be_i32_at(b: Seq<u8>, i: int) -> int {
    be_u32_value(b[i], b[i + 1], b[i + 2], b[i + 3]) as i32 as int
}

/// `k` bytes, when `b` holds that many.
pub open spec fn fitting(b: Seq<u8>, k: int) -> Option<nat> {
    if 0 <= k <= b.len() {
        Some(k as nat)
    } else {
        None
    }
}

/// The length of the payload of an NBT tag of type `t` at the start of `b`:
/// fixed for numbers, a length then the elements for strings, arrays and
/// lists, named tags up to an end tag for compounds. `None` when `b` does not
/// hold such a payload (an unknown type, a negative length, a list of end
/// tags that is not empty, or too few bytes).
pub open spec fn payload_len(b: Seq<u8>, t: u8) -> Option<nat>
    decreases b.len(), 2nat,
{
    if t == 1 {
        fitting(b, 1)
    } else if t == 2 {
        fitting(b, 2)
    } else if t == 3 || t == 5 {
        fitting(b, 4)
    } else if t == 4 || t == 6 {
        fitting(b, 8)
    } else if t == 7 || t == 11 || t == 12 {
        if b.len() < 4 || be_i32_at(b, 0) < 0 {
            None
        } else if t == 7 {
            fitting(b, 4 + be_i32_at(b, 0))
        } else if t == 11 {
            fitting(b, 4 + 4 * be_i32_at(b, 0))
        } else {
            fitting(b, 4 + 8 * be_i32_at(b, 0))
        }
    } else if t == 8 {
        if b.len() < 2 {
            None
        } else {
            fitting(b, 2 + be_u16_value(b[0], b[1]) as int)
        }
    } else if t == 9 {
        if b.len() < 5 || be_i32_at(b, 1) < 0 {
            None
        } else if be_i32_at(b, 1) == 0 {
            Some(5)
        } else if b[0] == 0 {
            None
        } else {
            match list_len(b.skip(5), b[0], be_i32_at(b, 1) as nat) {
                Some(k) => Some(5 + k),
                None => None,
            }
        }
    } else if t == 10 {
        compound_len(b)
    } else {
        None
    }
}

/// The length of `n` payloads of type `e` at the start of `b`.
pub open spec fn list_len(b: Seq<u8>, e: u8, n: nat) -> Option<nat>
    decreases b.len(), 3nat,
{
    if n == 0 {
        Some(0)
    } else {
        match payload_len(b, e) {
            Some(k) => if 1 <= k <= b.len() {
                match list_len(b.skip(k as int), e, (n - 1) as nat) {
                    Some(m) => Some(k + m),
                    None => None,
                }
            } else {
                None
            },
            None => None,
        }
    }
}

/// The length of the named tags at the start of `b` up to and with their end tag.
pub open spec fn compound_len(b: Seq<u8>) -> Option<nat>
    decreases b.len(), 1nat,
{
    if b.len() == 0 {
        None
    } else if b[0] == 0 {
        Some(1)
    } else if b.len() < 3 || b.len() < 3 + be_u16_value(b[1], b[2]) as int {
        None
    } else {
        let h = 3 + be_u16_value(b[1], b[2]) as int;
        match payload_len(b.skip(h), b[0]) {
            Some(k) => if k <= b.len() - h {
                match compound_len(b.skip(h + k)) {
                    Some(m) => Some((h + k + m) as nat),
                    None => None,
                }
            } else {
                None
            },
            None => None,
        }
    }
}

/// The names of the fields of the root compound that the region reads.
pub open spec fn known_name(n: Seq<u8>) -> bool {
    n == seq![120u8] || n == seq![122u8] || n == seq![99u8, 104u8, 117u8, 110u8, 107u8, 115u8]
}

/// The length of the named tag at the start of `b` when its name is none of
/// those the region reads.
pub open spec fn other_field_len(b: Seq<u8>) -> Option<nat> {
    if b.len() < 3 || b.len() < 3 + be_u16_value(b[1], b[2]) as int {
        None
    } else {
        let h = 3 + be_u16_value(b[1], b[2]) as int;
        if known_name(b.subrange(3, h)) {
            None
        } else {
            match payload_len(b.skip(h), b[0]) {
                Some(k) => if k <= b.len() - h {
                    Some((h + k) as nat)
                } else {
                    None
                },
                None => None,
            }
        }
    }
}

/// Reads the named fields of the root compound after those read so far (`x`,
/// `z` and the entries of `chunks`, each at most once and in any order) up to
/// the root's end tag; every field must be there. A field of another name is
/// skipped; one of these names with another type is refused.
pub open spec fn parse_root(
    b: Seq<u8>,
    x: Option<i32>,
    z: Option<i32>,
    chunks: Option<Seq<(Seq<char>, Seq<u8>)>>,
) -> Option<(i32, i32, Seq<(Seq<char>, Seq<u8>)>)>
    decreases b.len(),
{
    if b.len() == 0 {
        None
    } else if b[0] == 0 {
        match (x, z, chunks) {
            (Some(xv), Some(zv), Some(es)) => Some((xv, zv, es)),
            _ => None,
        }
    } else if b.len() >= 8 && b.take(4) == x_field() {
        if x is Some {
            None
        } else {
            parse_root(b.skip(8), Some(be_u32_value(b[4], b[5], b[6], b[7]) as i32), z, chunks)
        }
    } else if b.len() >= 8 && b.take(4) == z_header() {
        if z is Some {
            None
        } else {
            parse_root(b.skip(8), x, Some(be_u32_value(b[4], b[5], b[6], b[7]) as i32), chunks)
        }
    } else if b.len() >= 9 && b.take(9) == chunks_header() {
        if chunks is Some {
            None
        } else {
            match parse_entries(b.skip(9)) {
                Some((es, rest)) => {
                    proof {
                        lemma_parse_entries_rest(b.skip(9));
                    }
                    parse_root(rest, x, z, Some(es))
                },
                None => None,
            }
        }
    } else {
        match other_field_len(b) {
            Some(n) => parse_root(b.skip(n as int), x, z, chunks),
            None => None,
        }
    }
}

/// The region data that the uncompressed bytes `b` of a region file hold: an
/// unnamed NBT compound whose fields `x`, `z` (ints) and `chunks` (a compound
/// of byte arrays) come in any order, each once, among fields of other names
/// that are skipped; chunk entries come in any order, a later one with a key
/// replacing an earlier one. Bytes after the root compound are not read.
pub open spec fn decode_pump(b: Seq<u8>) -> Option<(i32, i32, Seq<(Seq<char>, Seq<u8>)>)> {
    if b.len() >= 1 && b[0] == 10 {
        match parse_root(b.skip(1), None, None, None) {
            Some((x, z, es)) => Some((x, z, table_of(es))),
            None => None,
        }
    } else {
        None
    }
}

proof fn lemma_be_roundtrip(u: u32, n: u16, v: i32)
    ensures
        be_u32_value((u >> 24u32) as u8, (u >> 16u32) as u8, (u >> 8u32) as u8, u as u8) == u,
        be_u16_value((n >> 8u16) as u8, n as u8) == n,
        (v as u32) as i32 == v,
{
    assert(be_u32_value((u >> 24u32) as u8, (u >> 16u32) as u8, (u >> 8u32) as u8, u as u8) == u)
        by (bit_vector);
    assert(be_u16_value((n >> 8u16) as u8, n as u8) == n) by (bit_vector);
    assert((v as u32) as i32 == v) by (bit_vector);
}

/// Reading the entries of a compound gives back the entries that were written,
/// and the bytes that follow its end tag.
proof fn lemma_parse_encoded_entries(es: Seq<(Seq<char>, Seq<u8>)>, tail: Seq<u8>)
    requires
        encodable(es),
    ensures
        parse_entries(encode_entries(es) + seq![0u8] + tail) == Some((es, tail)),
    decreases es.len(),
{
    let b = encode_entries(es) + seq![0u8] + tail;
    if es.len() == 0 {
        assert(b =~= seq![0u8] + tail);
        assert(b.skip(1) =~= tail);
    } else {
        let k = es[0].0;
        let v = es[0].1;
        let kb = vstd::utf8::encode_utf8(k);
        let klen = kb.len() as int;
        let vlen = v.len() as int;
        let t = es.drop_first();
        assert(encodable(t)) by {
            assert forall|i: int| 0 <= i < t.len() implies vstd::utf8::encode_utf8(#[trigger] t[i].0).len()
                <= u16::MAX && t[i].1.len() <= i32::MAX by {
                assert(t[i] == es[i + 1]);
            }
        }
        assert(vstd::utf8::encode_utf8(es[0].0).len() <= u16::MAX && es[0].1.len() <= i32::MAX);
        lemma_parse_encoded_entries(t, tail);
        let rest = encode_entries(t) + seq![0u8] + tail;
        let u = v.len() as u32;
        let n = kb.len() as u16;
        lemma_be_roundtrip(u, n, 0);
        assert((u as i32) as u32 == u && (u as i32) >= 0) by (bit_vector)
            requires
                u <= 0x7fff_ffffu32,
        ;
        assert((u as i32) as int == vlen);
        assert(b =~= seq![7u8] + be_u16_bytes(n) + kb + be_u32_bytes(u) + v + rest);
        assert(b[0] == 7u8);
        assert(b[1] == (n >> 8u16) as u8);
        assert(b[2] == n as u8);
        assert(be_u16_value(b[1], b[2]) as int == klen);
        assert(b.subrange(3, 3 + klen) =~= kb);
        assert(b[3 + klen] == (u >> 24u32) as u8);
        assert(b[4 + klen] == (u >> 16u32) as u8);
        assert(b[5 + klen] == (u >> 8u32) as u8);
        assert(b[6 + klen] == u as u8);
        assert(b.subrange(7 + klen, 7 + klen + vlen) =~= v);
        assert(b.skip(7 + klen + vlen) =~= rest);
        vstd::utf8::encode_utf8_valid_utf8(k);
        vstd::utf8::encode_utf8_decode_utf8(k);
        assert(seq![(k, v)] + t =~= es);
    }
}

proof fn lemma_insert_sorted_append(es: Seq<(Seq<char>, Seq<u8>)>, k: Seq<char>, v: Seq<u8>)
    requires
        forall|i: int| 0 <= i < es.len() ==> key_less(#[trigger] es[i].0, k),
    ensures
        insert_sorted(es, k, v) == es.push((k, v)),
    decreases es.len(),
{
    if es.len() == 0 {
        assert(seq![(k, v)] =~= es.push((k, v)));
    } else {
        let t = es.drop_first();
        assert(key_less(es[0].0, k));
        lemma_key_less_irreflexive(k);
        if key_less(k, es[0].0) {
            lemma_key_less_transitive(k, es[0].0, k);
        }
        assert forall|i: int| 0 <= i < t.len() implies key_less(#[trigger] t[i].0, k) by {
            assert(t[i] == es[i + 1]);
        }
        lemma_insert_sorted_append(t, k, v);
        assert(seq![es[0]] + t.push((k, v)) =~= es.push((k, v)));
    }
}

/// Storing entries whose keys already increase gives a table of exactly them.
proof fn lemma_table_of_sorted(es: Seq<(Seq<char>, Seq<u8>)>)
    requires
        sorted_keys(es),
    ensures
        table_of(es) == es,
    decreases es.len(),
{
    if es.len() > 0 {
        let t = es.drop_last();
        assert(sorted_keys(t)) by {
            assert forall|i: int, j: int| #![trigger t[i], t[j]] 0 <= i < j < t.len() implies key_less(
                t[i].0,
                t[j].0,
            ) by {
                assert(t[i] == es[i]);
                assert(t[j] == es[j]);
            }
        }
        lemma_table_of_sorted(t);
        assert forall|i: int| 0 <= i < t.len() implies key_less(#[trigger] t[i].0, es.last().0) by {
            assert(t[i] == es[i]);
        }
        lemma_insert_sorted_append(t, es.last().0, es.last().1);
        assert(t.push(es.last()) =~= es);
    }
}

/// What is written to a region file is read back unchanged.
#[verifier::spinoff_prover]
#[verifier::rlimit(40)]
pub proof fn lemma_decode_encode_pump(x: i32, z: i32, es: Seq<(Seq<char>, Seq<u8>)>)
    requires
        sorted_keys(es),
        encodable(es),
    ensures
        decode_pump(encode_pump(x, z, es)) == Some((x, z, es)),
{
    let b = encode_pump(x, z, es);
    lemma_parse_encoded_entries(es, seq![0u8]);
    lemma_be_roundtrip(x as u32, 0, x);
    lemma_be_roundtrip(z as u32, 0, z);
    lemma_table_of_sorted(es);
    let b1 = b.skip(1);
    let tail = encode_entries(es) + seq![0u8] + seq![0u8];
    assert(b1 =~= x_field() + be_u32_bytes(x as u32) + z_header() + be_u32_bytes(z as u32)
        + chunks_header() + tail);
    assert(b1.take(4) =~= x_field());
    let b2 = b1.skip(8);
    assert(b2 =~= z_header() + be_u32_bytes(z as u32) + chunks_header() + tail);
    assert(b2.take(4) =~= z_header());
    assert(b2.take(4) != x_field()) by {
        assert(b2.take(4)[3] != x_field()[3]);
    }
    let b3 = b2.skip(8);
    assert(b3 =~= chunks_header() + tail);
    assert(b3.take(9) =~= chunks_header());
    assert(b3.take(4) != x_field()) by {
        assert(b3.take(4)[0] != x_field()[0]);
    }
    assert(b3.take(4) != z_header()) by {
        assert(b3.take(4)[0] != z_header()[0]);
    }
    assert(b3.skip(9) =~= tail);
    let last = seq![0u8];
    assert(parse_root(last, Some(x), Some(z), Some(es)) == Some((x, z, es)));
    assert(parse_root(b3, Some(x), Some(z), None) == Some((x, z, es)));
    assert(parse_root(b2, Some(x), None, None) == Some((x, z, es)));
    assert(parse_root(b1, None, None, None) == Some((x, z, es)));
}

proof fn lemma_encode_entries_push(es: Seq<(Seq<char>, Seq<u8>)>, e: (Seq<char>, Seq<u8>))
    ensures
        encode_entries(es.push(e)) == encode_entries(es) + encode_entry(e.0, e.1),
    decreases es.len(),
{
    if es.len() == 0 {
        assert(es.push(e).drop_first() =~= Seq::<(Seq<char>, Seq<u8>)>::empty());
        assert(encode_entries(Seq::<(Seq<char>, Seq<u8>)>::empty()) =~= Seq::<u8>::empty());
        assert(encode_entries(es) =~= Seq::<u8>::empty());
        assert(encode_entries(es.push(e)) =~= encode_entry(e.0, e.1));
    } else {
        lemma_encode_entries_push(es.drop_first(), e);
        assert(es.push(e).drop_first() =~= es.drop_first().push(e));
        assert(encode_entries(es.push(e)) =~= encode_entries(es) + encode_entry(e.0, e.1));
    }
}

// ---------------------------------------------------------------------------
// Executable encoding and decoding
// ---------------------------------------------------------------------------

fn push_be_u32(out: &mut Vec<u8>, u: u32)
    ensures
        final(out)@ == old(out)@ + be_u32_bytes(u),
{
    out.push((u >> 24u32) as u8);
    out.push((u >> 16u32) as u8);
    out.push((u >> 8u32) as u8);
    out.push(u as u8);
    assert(out@ =~= old(out)@ + be_u32_bytes(u));
}

fn push_all(out: &mut Vec<u8>, bytes: &[u8])
    ensures
        final(out)@ == old(out)@ + bytes@,
{
    let ghost start = out@;
    let mut i: usize = 0;
    while i < bytes.len()
        invariant
            i <= bytes@.len(),
            out@ == start + bytes@.take(i as int),
        decreases bytes@.len() - i,
    {
        out.push(bytes[i]);
        i = i + 1;
        assert(out@ =~= start + bytes@.take(i as int));
    }
    assert(bytes@.take(i as int) =~= bytes@);
}

/// The uncompressed bytes of a region file holding `x`, `z` and `chunks`;
/// `None` when a key or a chunk is too long for the format.
pub fn encode_region(x: i32, z: i32, chunks: &ChunkTable) -> (r: Option<Vec<u8>>)
    ensures
        match r {
            Some(out) => encodable(chunks@) && out@ == encode_pump(x, z, chunks@),
            None => !encodable(chunks@),
        },
{
    let mut out: Vec<u8> = Vec::new();
    let xh: [u8; 5] = [10u8, 3u8, 0u8, 1u8, 120u8];
    let zh: [u8; 4] = [3u8, 0u8, 1u8, 122u8];
    let ch: [u8; 9] = [10u8, 0u8, 6u8, 99u8, 104u8, 117u8, 110u8, 107u8, 115u8];
    assert(xh@ =~= x_header());
    assert(zh@ =~= z_header());
    assert(ch@ =~= chunks_header());
    push_all(&mut out, &xh);
    push_be_u32(&mut out, x as u32);
    push_all(&mut out, &zh);
    push_be_u32(&mut out, z as u32);
    push_all(&mut out, &ch);
    let ghost prefix = out@;
    let n = chunks.len();
    let mut i: usize = 0;
    assert(chunks@.take(0) =~= Seq::<(Seq<char>, Seq<u8>)>::empty());
    while i < n
        invariant
            i <= n,
            n == chunks@.len(),
            prefix == x_header() + be_u32_bytes(x as u32) + z_header() + be_u32_bytes(z as u32)
                + chunks_header(),
            out@ == prefix + encode_entries(chunks@.take(i as int)),
            encodable(chunks@.take(i as int)),
        decreases n - i,
    {
        let (key, value) = chunks.entry(i);
        let kb = key.as_str().as_bytes();
        if kb.len() > 0xFFFF || value.len() > 0x7FFF_FFFF {
            assert(!encodable(chunks@)) by {
                assert(vstd::utf8::encode_utf8(chunks@[i as int].0) == kb@);
            }
            return None;
        }
        let ghost before = out@;
        out.push(7u8);
        let klen = kb.len() as u16;
        out.push((klen >> 8u16) as u8);
        out.push(klen as u8);
        push_all(&mut out, kb);
        push_be_u32(&mut out, value.len() as u32);
        push_all(&mut out, value.as_slice());
        proof {
            let e = chunks@[i as int];
            assert(kb@ == vstd::utf8::encode_utf8(e.0));
            assert(out@ =~= before + encode_entry(e.0, e.1));
            lemma_encode_entries_push(chunks@.take(i as int), e);
            assert(chunks@.take(i + 1) =~= chunks@.take(i as int).push(e));
            assert forall|j: int| 0 <= j < i + 1 implies vstd::utf8::encode_utf8(
                #[trigger] chunks@.take(i + 1)[j].0,
            ).len() <= u16::MAX && chunks@.take(i + 1)[j].1.len() <= i32::MAX by {
                if j < i {
                    let prev = chunks@.take(i as int);
                    assert(chunks@.take(i + 1)[j] == prev[j]);
                    assert(vstd::utf8::encode_utf8(prev[j].0).len() <= u16::MAX && prev[j].1.len()
                        <= i32::MAX);
                } else {
                    assert(chunks@.take(i + 1)[j] == e);
                    assert(vstd::utf8::encode_utf8(e.0).len() == kb@.len());
                    assert(e.1 == value@);
                }
            }
        }
        i = i + 1;
    }
    assert(chunks@.take(n as int) =~= chunks@);
    out.push(0u8);
    out.push(0u8);
    assert(out@ =~= encode_pump(x, z, chunks@));
    Some(out)
}

/// `std::str::from_utf8`: the text that the bytes encode in UTF-8, or `None`
/// when they are not valid UTF-8.
#[verifier::external_body]
fn utf8_text(bytes: &[u8]) -> (r: Option<&str>)
    ensures
        r is Some <==> vstd::utf8::valid_utf8(bytes@),
        r matches Some(s) ==> vstd::utf8::encode_utf8(s@) == bytes@,
{
    std::str::from_utf8(bytes).ok()
}

/// Reads the entries of the `chunks` compound that starts at `start`.
fn decode_entries(b: &[u8], start: usize) -> (r: Option<(Vec<(String, Vec<u8>)>, usize)>)
    requires
        start <= b@.len(),
    ensures
        match parse_entries(b@.skip(start as int)) {
            Some((es, rest)) => r matches Some((v, end)) && end <= b@.len() && entries_seq(v@) == es && b@.skip(end as int) == rest,
            None => r is None,
        },
{
    let len = b.len();
    let mut out: Vec<(String, Vec<u8>)> = Vec::new();
    let mut pos: usize = start;
    assert(entries_seq(out@) =~= Seq::<
        (Seq<char>, Seq<u8>),
    >::empty());
    loop
        invariant
            start <= pos <= len,
            len == b@.len(),
            parse_entries(b@.skip(start as int)) == match parse_entries(b@.skip(pos as int)) {
                Some((es, rest)) => Some(
                    (entries_seq(out@) + es, rest),
                ),
                None => None,
            },
        decreases len - pos,
    {
        let ghost acc = entries_seq(out@);
        let ghost bs = b@.skip(pos as int);
        if pos == len {
            return None;
        }
        assert(bs[0] == b@[pos as int]);
        if b[pos] == 0 {
            proof {
                assert(bs.skip(1) =~= b@.skip(pos + 1));
                assert(acc + Seq::<(Seq<char>, Seq<u8>)>::empty() =~= acc);
            }
            return Some((out, pos + 1));
        }
        if b[pos] != 7 || len - pos < 3 {
            return None;
        }
        assert(bs[1] == b@[pos + 1]);
        assert(bs[2] == b@[pos + 2]);
        let klen = (((b[pos + 1] as u16) << 8u16) | (b[pos + 2] as u16)) as usize;
        if len - pos < 7 + klen {
            return None;
        }
        let kstart = pos + 3;
        let vhead = kstart + klen;
        assert(bs[3 + klen] == b@[vhead as int]);
        assert(bs[4 + klen] == b@[vhead + 1]);
        assert(bs[5 + klen] == b@[vhead + 2]);
        assert(bs[6 + klen] == b@[vhead + 3]);
        let vlen_word: u32 = ((b[vhead] as u32) << 24u32) | ((b[vhead + 1] as u32) << 16u32) | ((
        b[vhead + 2] as u32) << 8u32) | (b[vhead + 3] as u32);
        let vlen_signed = vlen_word as i32;
        if vlen_signed < 0 {
            return None;
        }
        let vlen = vlen_signed as usize;
        if len - pos - 7 - klen < vlen {
            return None;
        }
        let key_bytes = vstd::slice::slice_subrange(b, kstart, vhead);
        assert(key_bytes@ =~= bs.subrange(3, 3 + klen as int));
        let text = match utf8_text(key_bytes) {
            Some(t) => t,
            None => {
                return None;
            },
        };
        let vstart = vhead + 4;
        let vend = vstart + vlen;
        let value = vstd::slice::slice_to_vec(vstd::slice::slice_subrange(b, vstart, vend));
        let key: String = text.to_owned();
        proof {
            vstd::utf8::decode_utf8_encode_utf8(key_bytes@);
            vstd::utf8::encode_utf8_decode_utf8(key@);
            assert(key@ == vstd::utf8::decode_utf8(key_bytes@));
            assert(value@ =~= bs.subrange(7 + klen as int, 7 + klen + vlen as int));
            assert(bs.skip(7 + klen + vlen as int) =~= b@.skip(vend as int));
        }
        out.push((key, value));
        proof {
            let e = (key@, value@);
            assert(entries_seq(out@) =~= acc.push(e));
            match parse_entries(b@.skip(vend as int)) {
                Some((es, rest)) => {
                    assert(acc.push(e) + es =~= acc + (seq![e] + es));
                },
                None => {},
            }
        }
        pos = vend;
    }
}

/// Entries as plain values.
pub open spec fn entries_seq(v: Seq<(String, Vec<u8>)>) -> Seq<(Seq<char>, Seq<u8>)> {
    v.map_values(|e: (String, Vec<u8>)| (e.0@, e.1@))
}

/// The entries read so far, as plain values.
pub open spec fn entries_view(o: Option<Vec<(String, Vec<u8>)>>) -> Option<Seq<(Seq<char>, Seq<u8>)>> {
    match o {
        Some(v) => Some(entries_seq(v@)),
        None => None,
    }
}

/// Whether the bytes from `pos` on start with `pat`.
fn starts_with(b: &[u8], pos: usize, pat: &[u8]) -> (r: bool)
    requires
        pos <= b@.len(),
    ensures
        r == (b@.len() - pos >= pat@.len() && b@.skip(pos as int).take(pat@.len() as int) == pat@),
{
    let ghost bs = b@.skip(pos as int);
    let n = b.len();
    if n - pos < pat.len() {
        return false;
    }
    let mut i: usize = 0;
    while i < pat.len()
        invariant
            i <= pat@.len(),
            n == b@.len(),
            pos <= n,
            pat@.len() <= b@.len() - pos,
            bs == b@.skip(pos as int),
            forall|j: int| 0 <= j < i ==> bs[j] == pat@[j],
        decreases pat@.len() - i,
    {
        if b[pos + i] != pat[i] {
            proof {
                if bs.take(pat@.len() as int) == pat@ {
                    assert(bs.take(pat@.len() as int)[i as int] == bs[i as int]);
                }
            }
            return false;
        }
        i = i + 1;
    }
    assert(bs.take(pat@.len() as int) =~= pat@);
    true
}

fn be_u32_at(b: &[u8], pos: usize) -> (r: u32)
    requires
        pos + 4 <= b@.len(),
    ensures
        r == be_u32_value(b@[pos as int], b@[pos + 1], b@[pos + 2], b@[pos + 3]),
{
    ((b[pos] as u32) << 24u32) | ((b[pos + 1] as u32) << 16u32) | ((b[pos + 2] as u32) << 8u32) | (
    b[pos + 3] as u32)
}

/// The table that storing the entries one after the other gives.
fn table_from_entries(es: &Vec<(String, Vec<u8>)>) -> (t: ChunkTable)
    ensures
        t@ == table_of(entries_seq(es@)),
{
    let ghost v = entries_seq(es@);
    let mut t = ChunkTable::new();
    let mut i: usize = 0;
    assert(v.take(0) =~= Seq::<(Seq<char>, Seq<u8>)>::empty());
    while i < es.len()
        invariant
            i <= es@.len(),
            v == entries_seq(es@),
            t@ == table_of(v.take(i as int)),
        decreases es@.len() - i,
    {
        let key = es[i].0.clone();
        let value = vstd::slice::slice_to_vec(es[i].1.as_slice());
        proof {
            assert(v.take(i + 1).drop_last() =~= v.take(i as int));
            assert(v.take(i + 1).last() == v[i as int]);
            assert(v[i as int] == (es@[i as int].0@, es@[i as int].1@));
        }
        t.insert(key, value);
        i = i + 1;
    }
    assert(v.take(i as int) =~= v);
    t
}

/// A length that an executable function gives, as the spec functions give it.
spec fn len_of(o: Option<usize>) -> Option<nat> {
    match o {
        Some(k) => Some(k as nat),
        None => None,
    }
}

/// `k` bytes, when `rem` bytes remain.
fn fit(rem: usize, k: u64) -> (r: Option<usize>)
    ensures
        r == (if k <= rem {
            Some(k as usize)
        } else {
            None::<usize>
        }),
{
    if k <= rem as u64 {
        Some(k as usize)
    } else {
        None
    }
}

/// The length of the payload of a tag of type `t` at `pos`.
fn tag_payload_len(b: &[u8], pos: usize, t: u8) -> (r: Option<usize>)
    requires
        pos <= b@.len(),
    ensures
        len_of(r) == payload_len(b@.skip(pos as int), t),
        r matches Some(k) ==> k <= b@.len() - pos,
    decreases b@.len() - pos, 2nat,
{
    let ghost bs = b@.skip(pos as int);
    let rem = b.len() - pos;
    if t == 1 {
        fit(rem, 1)
    } else if t == 2 {
        fit(rem, 2)
    } else if t == 3 || t == 5 {
        fit(rem, 4)
    } else if t == 4 || t == 6 {
        fit(rem, 8)
    } else if t == 7 || t == 11 || t == 12 {
        if rem < 4 {
            return None;
        }
        assert(bs[0] == b@[pos as int] && bs[1] == b@[pos + 1] && bs[2] == b@[pos + 2] && bs[3]
            == b@[pos + 3]);
        let n = be_u32_at(b, pos) as i32;
        if n < 0 {
            return None;
        }
        let n64 = n as u64;
        if t == 7 {
            fit(rem, 4 + n64)
        } else if t == 11 {
            fit(rem, 4 + 4 * n64)
        } else {
            fit(rem, 4 + 8 * n64)
        }
    } else if t == 8 {
        if rem < 2 {
            return None;
        }
        assert(bs[0] == b@[pos as int] && bs[1] == b@[pos + 1]);
        let l = (((b[pos] as u16) << 8u16) | (b[pos + 1] as u16)) as u64;
        fit(rem, 2 + l)
    } else if t == 9 {
        if rem < 5 {
            return None;
        }
        assert(bs[0] == b@[pos as int] && bs[1] == b@[pos + 1] && bs[2] == b@[pos + 2] && bs[3]
            == b@[pos + 3] && bs[4] == b@[pos + 4]);
        let n = be_u32_at(b, pos + 1) as i32;
        if n < 0 {
            None
        } else if n == 0 {
            Some(5)
        } else if b[pos] == 0 {
            None
        } else {
            assert(bs.skip(5) =~= b@.skip(pos + 5));
            match list_payload_len(b, pos + 5, b[pos], n as u32) {
                Some(k) => Some(5 + k),
                None => None,
            }
        }
    } else if t == 10 {
        compound_payload_len(b, pos)
    } else {
        None
    }
}

/// The length of `n` payloads of type `e` at `pos`.
fn list_payload_len(b: &[u8], pos: usize, e: u8, n: u32) -> (r: Option<usize>)
    requires
        pos <= b@.len(),
    ensures
        len_of(r) == list_len(b@.skip(pos as int), e, n as nat),
        r matches Some(k) ==> k <= b@.len() - pos,
    decreases b@.len() - pos, 3nat,
{
    let len = b.len();
    let mut p = pos;
    let mut i: u32 = 0;
    while i < n
        invariant
            pos <= p <= len,
            len == b@.len(),
            i <= n,
            list_len(b@.skip(pos as int), e, n as nat) == match list_len(
                b@.skip(p as int),
                e,
                (n - i) as nat,
            ) {
                Some(m) => Some(((p - pos) as nat + m) as nat),
                None => None::<nat>,
            },
        decreases n - i,
    {
        let ghost bp = b@.skip(p as int);
        match tag_payload_len(b, p, e) {
            None => {
                return None;
            },
            Some(k) => {
                if k < 1 {
                    return None;
                }
                assert(bp.skip(k as int) =~= b@.skip(p + k));
                p = p + k;
                i = i + 1;
            },
        }
    }
    Some(p - pos)
}

/// The length of the named tags at `pos` up to and with their end tag.
fn compound_payload_len(b: &[u8], pos: usize) -> (r: Option<usize>)
    requires
        pos <= b@.len(),
    ensures
        len_of(r) == compound_len(b@.skip(pos as int)),
        r matches Some(k) ==> k <= b@.len() - pos,
    decreases b@.len() - pos, 1nat,
{
    let len = b.len();
    let mut p = pos;
    loop
        invariant
            pos <= p <= len,
            len == b@.len(),
            compound_len(b@.skip(pos as int)) == match compound_len(b@.skip(p as int)) {
                Some(m) => Some(((p - pos) as nat + m) as nat),
                None => None::<nat>,
            },
        decreases len - p,
    {
        let ghost bp = b@.skip(p as int);
        if p == len {
            return None;
        }
        assert(bp[0] == b@[p as int]);
        if b[p] == 0 {
            return Some(p + 1 - pos);
        }
        if len - p < 3 {
            return None;
        }
        assert(bp[1] == b@[p + 1] && bp[2] == b@[p + 2]);
        let h = 3 + ((((b[p + 1] as u16) << 8u16) | (b[p + 2] as u16)) as usize);
        if len - p < h {
            return None;
        }
        assert(bp.skip(h as int) =~= b@.skip(p + h));
        match tag_payload_len(b, p + h, b[p]) {
            None => {
                return None;
            },
            Some(k) => {
                assert(bp.skip(h + k) =~= b@.skip(p + h + k));
                p = p + h + k;
            },
        }
    }
}

/// The length of the named tag at `pos` when its name is none of those the
/// region reads.
fn other_field_len_at(b: &[u8], pos: usize) -> (r: Option<usize>)
    requires
        pos <= b@.len(),
    ensures
        len_of(r) == other_field_len(b@.skip(pos as int)),
        r matches Some(n) ==> 3 <= n <= b@.len() - pos,
{
    let ghost bs = b@.skip(pos as int);
    let rem = b.len() - pos;
    if rem < 3 {
        return None;
    }
    assert(bs[1] == b@[pos + 1] && bs[2] == b@[pos + 2]);
    let h = 3 + ((((b[pos + 1] as u16) << 8u16) | (b[pos + 2] as u16)) as usize);
    if rem < h {
        return None;
    }
    let name = vstd::slice::slice_subrange(b, pos + 3, pos + h);
    assert(name@ =~= bs.subrange(3, h as int));
    if is_known_name(name) {
        return None;
    }
    assert(bs.skip(h as int) =~= b@.skip(pos + h));
    assert(bs[0] == b@[pos as int]);
    match tag_payload_len(b, pos + h, b[pos]) {
        None => None,
        Some(k) => Some(h + k),
    }
}

/// Whether `n` is the name of a field of the root compound that the region reads.
fn is_known_name(n: &[u8]) -> (r: bool)
    ensures
        r == known_name(n@),
{
    let xn: [u8; 1] = [120u8];
    let zn: [u8; 1] = [122u8];
    let cn: [u8; 6] = [99u8, 104u8, 117u8, 110u8, 107u8, 115u8];
    assert(xn@ =~= seq![120u8]);
    assert(zn@ =~= seq![122u8]);
    assert(cn@ =~= seq![99u8, 104u8, 117u8, 110u8, 107u8, 115u8]);
    let is_x = n.len() == 1 && starts_with(n, 0, &xn);
    let is_z = n.len() == 1 && starts_with(n, 0, &zn);
    let is_c = n.len() == 6 && starts_with(n, 0, &cn);
    proof {
        assert(n@.skip(0) =~= n@);
        if n@.len() == 1 {
            assert(n@.take(1) =~= n@);
        }
        if n@.len() == 6 {
            assert(n@.take(6) =~= n@);
        }
    }
    is_x || is_z || is_c
}

/// The region data held by the uncompressed bytes `b` of a region file.
pub fn decode_region(b: &[u8]) -> (r: Option<PumpData>)
    ensures
        match decode_pump(b@) {
            Some(m) => r matches Some(d) && d.model() == m,
            None => r is None,
        },
{
    let len = b.len();
    if len < 1 || b[0] != 10 {
        return None;
    }
    let xf: [u8; 4] = [3u8, 0u8, 1u8, 120u8];
    let zf: [u8; 4] = [3u8, 0u8, 1u8, 122u8];
    let cf: [u8; 9] = [10u8, 0u8, 6u8, 99u8, 104u8, 117u8, 110u8, 107u8, 115u8];
    assert(xf@ =~= x_field());
    assert(zf@ =~= z_header());
    assert(cf@ =~= chunks_header());
    let mut x_opt: Option<i32> = None;
    let mut z_opt: Option<i32> = None;
    let mut ch_opt: Option<Vec<(String, Vec<u8>)>> = None;
    let mut pos: usize = 1;
    loop
        invariant
            1 <= pos <= len,
            len == b@.len(),
            b@[0] == 10,
            xf@ == x_field(),
            zf@ == z_header(),
            cf@ == chunks_header(),
            parse_root(b@.skip(1), None, None, None) == parse_root(
                b@.skip(pos as int),
                x_opt,
                z_opt,
                entries_view(ch_opt),
            ),
        decreases len - pos,
    {
        let ghost bs = b@.skip(pos as int);
        if pos == len {
            return None;
        }
        assert(bs[0] == b@[pos as int]);
        if b[pos] == 0 {
            match (x_opt, z_opt, ch_opt) {
                (Some(x), Some(z), Some(es)) => {
                    proof {
                        let v = entries_seq(es@);
                        assert(entries_view(Some(es)) == Some(v));
                        assert(parse_root(bs, Some(x), Some(z), Some(v)) == Some((x, z, v)));
                        assert(x_opt == Some(x));
                        assert(ch_opt == Some(es));
                        assert(parse_root(b@.skip(1), None, None, None) == Some((x, z, v)));
                        assert(decode_pump(b@) == Some((x, z, table_of(v))));
                    }
                    let chunks = table_from_entries(&es);
                    return Some(PumpData { x, z, chunks });
                },
                _ => {
                    return None;
                },
            }
        }
        let rem = len - pos;
        if rem >= 8 && starts_with(b, pos, &xf) {
            if x_opt.is_some() {
                return None;
            }
            assert(bs[4] == b@[pos + 4]);
            assert(bs[5] == b@[pos + 5]);
            assert(bs[6] == b@[pos + 6]);
            assert(bs[7] == b@[pos + 7]);
            x_opt = Some(be_u32_at(b, pos + 4) as i32);
            assert(bs.skip(8) =~= b@.skip(pos + 8));
            pos = pos + 8;
        } else if rem >= 8 && starts_with(b, pos, &zf) {
            if z_opt.is_some() {
                return None;
            }
            assert(bs[4] == b@[pos + 4]);
            assert(bs[5] == b@[pos + 5]);
            assert(bs[6] == b@[pos + 6]);
            assert(bs[7] == b@[pos + 7]);
            z_opt = Some(be_u32_at(b, pos + 4) as i32);
            assert(bs.skip(8) =~= b@.skip(pos + 8));
            pos = pos + 8;
        } else if rem >= 9 && starts_with(b, pos, &cf) {
            if ch_opt.is_some() {
                return None;
            }
            assert(bs.skip(9) =~= b@.skip(pos + 9));
            match decode_entries(b, pos + 9) {
                Some((es, end)) => {
                    proof {
                        lemma_parse_entries_rest(bs.skip(9));
                        assert(b@.skip(end as int).len() < bs.skip(9).len());
                    }
                    ch_opt = Some(es);
                    pos = end;
                },
                None => {
                    return None;
                },
            }
        } else {
            match other_field_len_at(b, pos) {
                None => {
                    return None;
                },
                Some(n) => {
                    assert(bs.skip(n as int) =~= b@.skip(pos + n));
                    pos = pos + n;
                },
            }
        }
    }
}

// ---------------------------------------------------------------------------
// Zstandard compression
// ---------------------------------------------------------------------------

/// The Zstandard frame that `ruzstd` writes for `data` at its fastest level.
pub uninterp spec fn zstd_compressed(data: Seq<u8>) -> Seq<u8>;

/// What `ruzstd`'s streaming decoder reads out of `data`: `None` when `data`
/// is not a Zstandard frame it can decode.
pub uninterp spec fn zstd_decompressed(data: Seq<u8>) -> Option<Seq<u8>>;

/// `ruzstd::encoding::compress_to_vec(data, CompressionLevel::Fastest)`: the
/// contract names the frame it writes, which depends on `data` alone.
#[verifier::external_body]
fn compress_fastest(data: &[u8]) -> (r: Vec<u8>)
    ensures
        r@ == zstd_compressed(data@),
{
    ruzstd::encoding::compress_to_vec(data, ruzstd::encoding::CompressionLevel::Fastest)
}

/// `ruzstd::decoding::StreamingDecoder::new` on `data`, then `read_to_end` on
/// the decoder: the contract names what comes out, which depends on `data`
/// alone, and states that a frame written by `compress_to_vec` decodes to the
/// bytes it was written from (the crate's encode tests check exactly this).
/// Both a failure to start the decoder and a failure to read are `None`.
#[verifier::external_body]
fn decompress(data: &[u8]) -> (r: Option<Vec<u8>>)
    ensures
        r is Some <==> zstd_decompressed(data@) is Some,
        r matches Some(v) ==> zstd_decompressed(data@) == Some(v@),
        (exists|d: Seq<u8>| data@ == #[trigger] zstd_compressed(d)) ==> r is Some,
        r matches Some(v) ==> forall|d: Seq<u8>| data@ == #[trigger] zstd_compressed(d) ==> v@ == d,
{
    let mut decoder = match ruzstd::decoding::StreamingDecoder::new(data) {
        Ok(d) => d,
        Err(_) => return None,
    };
    let mut out: Vec<u8> = Vec::new();
    match std::io::Read::read_to_end(&mut decoder, &mut out) {
        Ok(_) => Some(out),
        Err(_) => None,
    }
}

// ---------------------------------------------------------------------------
// Region data and the region file
// ---------------------------------------------------------------------------

/// The content of a region file.
pub struct PumpData {
    /// The region's x coordinate.
    pub x: i32,
    /// The region's z coordinate.
    pub z: i32,
    /// The serialized chunks, by the decimal text of their index in the region.
    pub chunks: ChunkTable,
}

impl PumpData {
    /// The data as plain values: coordinates and entries in key order.
    pub open spec fn model(&self) -> (i32, i32, Seq<(Seq<char>, Seq<u8>)>) {
        (self.x, self.z, self.chunks@)
    }
}

impl Default for PumpData {
    fn default() -> (d: PumpData)
        ensures
            d.x == 0,
            d.z == 0,
            d.chunks@ == Seq::<(Seq<char>, Seq<u8>)>::empty(),
    {
        PumpData { x: 0, z: 0, chunks: ChunkTable::new() }
    }
}

/// Why a region file could not be read.
#[derive(Clone, Copy, Debug, PartialEq, Eq)]
pub enum ChunkReadingError {
    /// The file is not a Zstandard frame that decodes.
    IoError,
    /// The decompressed bytes are not a region in the pump layout.
    ParsingError,
}

/// Why a chunk could not be stored.
#[derive(Debug, PartialEq, Eq)]
pub enum ChunkWritingError {
    /// The chunk's own serialization failed, with this message.
    ChunkSerializingError(String),
}

/// A region file in the pump format.
pub struct PumpFile {
    pub data: PumpData,
}

impl Default for PumpFile {
    fn default() -> (f: PumpFile)
        ensures
            f.data.x == 0,
            f.data.z == 0,
            f.data.chunks@ == Seq::<(Seq<char>, Seq<u8>)>::empty(),
    {
        PumpFile { data: PumpData::default() }
    }
}

impl PumpFile {
    /// The name of the file that holds the region of the chunk at `x`, `z`:
    /// `r.<region x>.<region z>.pump`.
    pub fn get_chunk_key(chunk_x: i32, chunk_z: i32) -> (key: String)
        ensures
            key@ == chunk_key_text(chunk_x, chunk_z),
    {
        let region_x = region_of(chunk_x);
        let region_z = region_of(chunk_z);
        proof {
            reveal_strlit("r.");
            reveal_strlit(".");
            reveal_strlit(".pump");
        }
        let mut key = String::new();
        key.append("r.");
        append_decimal(&mut key, region_x as i64);
        key.append(".");
        append_decimal(&mut key, region_z as i64);
        key.append(".pump");
        assert(key@ =~= chunk_key_text(chunk_x, chunk_z));
        key
    }

    /// Whether the file is written back when the region is saved: always.
    pub fn should_write(&self, _is_watched: bool) -> (r: bool)
        ensures
            r,
    {
        true
    }

    /// Stores the serialized bytes of the chunk at `x`, `z` under the decimal
    /// text of its index in the region, after setting the region coordinates.
    /// When the chunk's serialization failed, the coordinates are still set and
    /// the error is handed on.
    pub fn update_chunk(&mut self, chunk_x: i32, chunk_z: i32, serialized: Result<Vec<u8>, String>) -> (r:
        Result<(), ChunkWritingError>)
        ensures
            final(self).data.x == region_coord(chunk_x),
            final(self).data.z == region_coord(chunk_z),
            match serialized {
                Ok(bytes) => r is Ok && final(self).data.chunks@ == insert_sorted(
                    old(self).data.chunks@,
                    int_decimal(chunk_index(chunk_x, chunk_z)),
                    bytes@,
                ),
                Err(message) => r matches Err(ChunkWritingError::ChunkSerializingError(m))
                    && m@ == message@ && final(self).data.chunks@ == old(self).data.chunks@,
            },
    {
        self.data.x = region_of(chunk_x);
        self.data.z = region_of(chunk_z);
        let index = index_in_region(chunk_x, chunk_z);
        match serialized {
            Ok(bytes) => {
                let mut key = String::new();
                append_decimal(&mut key, index as i64);
                assert(key@ =~= int_decimal(chunk_index(chunk_x, chunk_z)));
                self.data.chunks.insert(key, bytes);
                Ok(())
            },
            Err(message) => Err(ChunkWritingError::ChunkSerializingError(message)),
        }
    }

    /// The serialized bytes stored for each of the chunk positions, in order;
    /// `None` for a chunk that the region does not hold.
    pub fn get_chunks(&self, positions: &[(i32, i32)]) -> (r: Vec<Option<Vec<u8>>>)
        ensures
            r@.len() == positions@.len(),
            forall|i: int|
                0 <= i < positions@.len() ==> match lookup(
                    self.data.chunks@,
                    int_decimal(chunk_index(positions@[i].0, positions@[i].1)),
                ) {
                    Some(v) => #[trigger] r@[i] matches Some(b) && b@ == v,
                    None => r@[i] is None,
                },
    {
        let mut out: Vec<Option<Vec<u8>>> = Vec::new();
        let mut i: usize = 0;
        while i < positions.len()
            invariant
                i <= positions@.len(),
                out@.len() == i,
                forall|j: int|
                    0 <= j < i ==> match lookup(
                        self.data.chunks@,
                        int_decimal(chunk_index(positions@[j].0, positions@[j].1)),
                    ) {
                        Some(v) => #[trigger] out@[j] matches Some(b) && b@ == v,
                        None => out@[j] is None,
                    },
            decreases positions@.len() - i,
        {
            let (cx, cz) = positions[i];
            let index = index_in_region(cx, cz);
            let mut key = String::new();
            append_decimal(&mut key, index as i64);
            assert(key@ =~= int_decimal(chunk_index(cx, cz)));
            let found = match self.data.chunks.get(key.as_str()) {
                Some(bytes) => Some(vstd::slice::slice_to_vec(bytes.as_slice())),
                None => None,
            };
            out.push(found);
            i = i + 1;
        }
        out
    }

    /// The bytes of the region file: the region's NBT layout compressed with
    /// Zstandard; `None` when a key or a chunk is too long for the format.
    pub fn write(&self) -> (r: Option<Vec<u8>>)
        ensures
            match r {
                Some(out) => encodable(self.data.chunks@) && out@ == zstd_compressed(
                    encode_pump(self.data.x, self.data.z, self.data.chunks@),
                ),
                None => !encodable(self.data.chunks@),
            },
    {
        match encode_region(self.data.x, self.data.z, &self.data.chunks) {
            Some(raw) => Some(compress_fastest(raw.as_slice())),
            None => None,
        }
    }

    /// Reads a region file: decompresses it and reads the region's NBT layout.
    /// A file that `write` wrote for some region is read back as that region.
    pub fn read(bytes: &[u8]) -> (r: Result<PumpFile, ChunkReadingError>)
        ensures
            match zstd_decompressed(bytes@) {
                None => r == Err::<PumpFile, ChunkReadingError>(ChunkReadingError::IoError),
                Some(raw) => match decode_pump(raw) {
                    Some(m) => r matches Ok(f) && f.data.model() == m,
                    None => r == Err::<PumpFile, ChunkReadingError>(
                        ChunkReadingError::ParsingError,
                    ),
                },
            },
            forall|x: i32, z: i32, es: Seq<(Seq<char>, Seq<u8>)>|
                sorted_keys(es) && encodable(es) && bytes@ == #[trigger] zstd_compressed(
                    encode_pump(x, z, es),
                ) ==> (r matches Ok(f) && f.data.model() == (x, z, es)),
    {
        let raw = match decompress(bytes) {
            Some(raw) => raw,
            None => {
                return Err(ChunkReadingError::IoError);
            },
        };
        proof {
            assert forall|x: i32, z: i32, es: Seq<(Seq<char>, Seq<u8>)>|
                sorted_keys(es) && encodable(es) && bytes@ == #[trigger] zstd_compressed(
                    encode_pump(x, z, es),
                ) implies decode_pump(raw@) == Some((x, z, es)) by {
                lemma_decode_encode_pump(x, z, es);
            }
        }
        match decode_region(raw.as_slice()) {
            Some(data) => Ok(PumpFile { data }),
            None => Err(ChunkReadingError::ParsingError),
        }
    }
}

proof fn lemma_digit_char_injective(a: int, b: int)
    requires
        0 <= a < 10,
        0 <= b < 10,
        digit_char(a) == digit_char(b),
    ensures
        a == b,
{
}

proof fn lemma_nat_decimal_nonempty(n: nat)
    ensures
        nat_decimal(n).len() >= 1,
    decreases n,
{
    if n >= 10 {
        lemma_nat_decimal_nonempty(n / 10);
    }
}

/// Different numbers have different decimal texts.
proof fn lemma_nat_decimal_injective(a: nat, b: nat)
    requires
        nat_decimal(a) == nat_decimal(b),
    ensures
        a == b,
    decreases a,
{
    if a < 10 && b < 10 {
        assert(nat_decimal(a) == seq![digit_char(a as int)]);
        assert(nat_decimal(b) == seq![digit_char(b as int)]);
        let sa = seq![digit_char(a as int)];
        let sb = seq![digit_char(b as int)];
        assert(sa[0] == digit_char(a as int));
        assert(sb[0] == digit_char(b as int));
        assert(sa == sb);
        lemma_digit_char_injective(a as int, b as int);
    } else if a < 10 {
        lemma_nat_decimal_nonempty(b / 10);
        assert(nat_decimal(b).len() >= 2);
    } else if b < 10 {
        lemma_nat_decimal_nonempty(a / 10);
        assert(nat_decimal(a).len() >= 2);
    } else {
        let da = nat_decimal(a);
        let db = nat_decimal(b);
        assert(da == nat_decimal(a / 10).push(digit_char((a % 10) as int)));
        assert(db == nat_decimal(b / 10).push(digit_char((b % 10) as int)));
        assert(da.last() == db.last());
        lemma_digit_char_injective((a % 10) as int, (b % 10) as int);
        assert(da.drop_last() =~= nat_decimal(a / 10));
        assert(db.drop_last() =~= nat_decimal(b / 10));
        lemma_nat_decimal_injective(a / 10, b / 10);
    }
}

proof fn lemma_lookup_insert(es: Seq<(Seq<char>, Seq<u8>)>, k: Seq<char>, v: Seq<u8>, q: Seq<char>)
    ensures
        lookup(insert_sorted(es, k, v), q) == if q == k {
            Some(v)
        } else {
            lookup(es, q)
        },
    decreases es.len(),
{
    let r = insert_sorted(es, k, v);
    if es.len() == 0 {
        assert(r[0] == (k, v));
        assert(r.drop_first() =~= Seq::<(Seq<char>, Seq<u8>)>::empty());
        assert(lookup(r.drop_first(), q) == None::<Seq<u8>>);
    } else if es[0].0 == k {
        assert(r[0] == (k, v));
        assert(r.drop_first() =~= es.drop_first());
        if q != k {
            assert(lookup(es, q) == lookup(es.drop_first(), q));
        }
    } else if key_less(k, es[0].0) {
        assert(r[0] == (k, v));
        assert(r.drop_first() =~= es);
    } else {
        assert(r[0] == es[0]);
        lemma_lookup_insert(es.drop_first(), k, v, q);
        assert(r.drop_first() =~= insert_sorted(es.drop_first(), k, v));
        assert(lookup(r, q) == if r[0].0 == q {
            Some(r[0].1)
        } else {
            lookup(r.drop_first(), q)
        });
    }
}

/// Storing bytes in a table keeps its keys ordered when they were, and
/// afterwards the key gives back the bytes while every other key gives what
/// it gave before.
pub proof fn lemma_lookup_after_insert(
    es: Seq<(Seq<char>, Seq<u8>)>,
    k: Seq<char>,
    v: Seq<u8>,
    q: Seq<char>,
)
    ensures
        sorted_keys(es) ==> sorted_keys(insert_sorted(es, k, v)),
        lookup(insert_sorted(es, k, v), q) == if q == k {
            Some(v)
        } else {
            lookup(es, q)
        },
{
    if sorted_keys(es) {
        lemma_insert_sorted(es, k, v);
    }
    lemma_lookup_insert(es, k, v, q);
}

/// After the chunk at `x`, `z` is stored in a region, reading any chunk of the
/// region at the same place inside the region gives the stored bytes, and
/// reading any chunk at another place gives what it gave before.
pub proof fn lemma_chunk_read_after_write(
    es: Seq<(Seq<char>, Seq<u8>)>,
    x: i32,
    z: i32,
    bytes: Seq<u8>,
    qx: i32,
    qz: i32,
)
    ensures
        lookup(
            insert_sorted(es, int_decimal(chunk_index(x, z)), bytes),
            int_decimal(chunk_index(qx, qz)),
        ) == if chunk_index(qx, qz) == chunk_index(x, z) {
            Some(bytes)
        } else {
            lookup(es, int_decimal(chunk_index(qx, qz)))
        },
{
    let k = int_decimal(chunk_index(x, z));
    let q = int_decimal(chunk_index(qx, qz));
    lemma_lookup_insert(es, k, bytes, q);
    if q == k {
        lemma_nat_decimal_injective(chunk_index(x, z) as nat, chunk_index(qx, qz) as nat);
    }
}

/// A character that can stand in the decimal text of a number.
pub open spec fn decimal_char(c: char) -> bool {
    c == '-' || ('0' <= c && c <= '9')
}

proof fn lemma_nat_decimal_chars(n: nat)
    ensures
        forall|i: int| 0 <= i < nat_decimal(n).len() ==> '0' <= #[trigger] nat_decimal(n)[i] <= '9',
        nat_decimal(n).len() >= 1,
    decreases n,
{
    if n >= 10 {
        lemma_nat_decimal_chars(n / 10);
        let d = nat_decimal(n);
        assert(d == nat_decimal(n / 10).push(digit_char((n % 10) as int)));
        assert forall|i: int| 0 <= i < d.len() implies '0' <= #[trigger] d[i] <= '9' by {
            if i < d.len() - 1 {
                assert(d[i] == nat_decimal(n / 10)[i]);
            }
        }
    } else {
        assert(nat_decimal(n) == seq![digit_char(n as int)]);
    }
}

proof fn lemma_int_decimal_chars(n: int)
    ensures
        forall|i: int| 0 <= i < int_decimal(n).len() ==> decimal_char(#[trigger] int_decimal(n)[i]),
        int_decimal(n).len() >= 1,
{
    if n < 0 {
        lemma_nat_decimal_chars((-n) as nat);
        let d = int_decimal(n);
        assert forall|i: int| 0 <= i < d.len() implies decimal_char(#[trigger] d[i]) by {
            if i > 0 {
                assert(d[i] == nat_decimal((-n) as nat)[i - 1]);
            }
        }
    } else {
        lemma_nat_decimal_chars(n as nat);
    }
}

proof fn lemma_int_decimal_injective(a: int, b: int)
    requires
        int_decimal(a) == int_decimal(b),
    ensures
        a == b,
{
    lemma_nat_decimal_chars(if a < 0 { (-a) as nat } else { a as nat });
    lemma_nat_decimal_chars(if b < 0 { (-b) as nat } else { b as nat });
    if a < 0 && b < 0 {
        assert(int_decimal(a).drop_first() =~= nat_decimal((-a) as nat));
        assert(int_decimal(b).drop_first() =~= nat_decimal((-b) as nat));
        lemma_nat_decimal_injective((-a) as nat, (-b) as nat);
    } else if a < 0 {
        assert(int_decimal(a)[0] == '-');
        assert('0' <= nat_decimal(b as nat)[0] <= '9');
    } else if b < 0 {
        assert(int_decimal(b)[0] == '-');
        assert('0' <= nat_decimal(a as nat)[0] <= '9');
    } else {
        lemma_nat_decimal_injective(a as nat, b as nat);
    }
}

/// `p + a + s` and `p + b + t` agree and `a`, `b` hold no `sep` while `s`, `t`
/// start with it: then `a == b` and `s == t`.
proof fn lemma_split_at_separator(p: Seq<char>, a: Seq<char>, s: Seq<char>, b: Seq<char>, t: Seq<char>, sep: char)
    requires
        p + a + s == p + b + t,
        forall|i: int| 0 <= i < a.len() ==> #[trigger] a[i] != sep,
        forall|i: int| 0 <= i < b.len() ==> #[trigger] b[i] != sep,
        s.len() >= 1 && s[0] == sep,
        t.len() >= 1 && t[0] == sep,
    ensures
        a == b,
        s == t,
{
    let l = p + a + s;
    let r = p + b + t;
    if a.len() < b.len() {
        assert(l[(p.len() + a.len()) as int] == s[0]);
        assert(r[(p.len() + a.len()) as int] == b[a.len() as int]);
    } else if b.len() < a.len() {
        assert(r[(p.len() + b.len()) as int] == t[0]);
        assert(l[(p.len() + b.len()) as int] == a[b.len() as int]);
    } else {
        assert forall|i: int| 0 <= i < a.len() implies a[i] == b[i] by {
            assert(l[p.len() + i] == a[i]);
            assert(r[p.len() + i] == b[i]);
        }
        assert(a =~= b);
        assert(l.len() == r.len());
        assert(s.len() == t.len());
        assert forall|i: int| 0 <= i < s.len() implies s[i] == t[i] by {
            assert(l[p.len() + a.len() + i] == s[i]);
            assert(r[p.len() + a.len() + i] == t[i]);
        }
        assert(s =~= t);
    }
}

/// Two chunks share a region file exactly when they lie in the same region.
pub proof fn lemma_region_file_names(x1: i32, z1: i32, x2: i32, z2: i32)
    ensures
        (chunk_key_text(x1, z1) == chunk_key_text(x2, z2)) == (region_coord(x1) == region_coord(x2)
            && region_coord(z1) == region_coord(z2)),
{
    let ax = int_decimal(region_coord(x1));
    let az = int_decimal(region_coord(z1));
    let bx = int_decimal(region_coord(x2));
    let bz = int_decimal(region_coord(z2));
    let tail = seq!['.', 'p', 'u', 'm', 'p'];
    if chunk_key_text(x1, z1) == chunk_key_text(x2, z2) {
        lemma_int_decimal_chars(region_coord(x1));
        lemma_int_decimal_chars(region_coord(z1));
        lemma_int_decimal_chars(region_coord(x2));
        lemma_int_decimal_chars(region_coord(z2));
        let p = seq!['r', '.'];
        assert forall|i: int| 0 <= i < ax.len() implies #[trigger] ax[i] != '.' by {
            assert(decimal_char(ax[i]));
        }
        assert forall|i: int| 0 <= i < bx.len() implies #[trigger] bx[i] != '.' by {
            assert(decimal_char(bx[i]));
        }
        assert forall|i: int| 0 <= i < az.len() implies #[trigger] az[i] != '.' by {
            assert(decimal_char(az[i]));
        }
        assert forall|i: int| 0 <= i < bz.len() implies #[trigger] bz[i] != '.' by {
            assert(decimal_char(bz[i]));
        }
        let s1 = seq!['.'] + az + tail;
        let s2 = seq!['.'] + bz + tail;
        assert(chunk_key_text(x1, z1) =~= p + ax + s1);
        assert(chunk_key_text(x2, z2) =~= p + bx + s2);
        lemma_split_at_separator(p, ax, s1, bx, s2, '.');
        lemma_int_decimal_injective(region_coord(x1), region_coord(x2));
        let q = seq!['.'];
        assert(s1 =~= q + az + tail);
        assert(s2 =~= q + bz + tail);
        lemma_split_at_separator(q, az, tail, bz, tail, '.');
        lemma_int_decimal_injective(region_coord(z1), region_coord(z2));
    }
}

/// Every key of the table is the decimal text of a chunk index, `0..1024`.
pub open spec fn keys_are_chunk_indices(es: Seq<(Seq<char>, Seq<u8>)>) -> bool {
    forall|i: int|
        0 <= i < es.len() ==> exists|k: int| 0 <= k < 1024 && #[trigger] es[i].0 == int_decimal(k)
}

proof fn lemma_insert_sorted_keys(es: Seq<(Seq<char>, Seq<u8>)>, k: Seq<char>, v: Seq<u8>)
    ensures
        forall|i: int|
            0 <= i < insert_sorted(es, k, v).len() ==> #[trigger] insert_sorted(es, k, v)[i].0 == k
                || exists|j: int| 0 <= j < es.len() && insert_sorted(es, k, v)[i].0 == es[j].0,
    decreases es.len(),
{
    let r = insert_sorted(es, k, v);
    if es.len() == 0 {
    } else if es[0].0 == k {
        assert forall|i: int| 0 <= i < r.len() implies #[trigger] r[i].0 == k || exists|j: int|
            0 <= j < es.len() && r[i].0 == es[j].0 by {
            if i > 0 {
                assert(r[i] == es[i]);
            }
        }
    } else if key_less(k, es[0].0) {
        assert forall|i: int| 0 <= i < r.len() implies #[trigger] r[i].0 == k || exists|j: int|
            0 <= j < es.len() && r[i].0 == es[j].0 by {
            if i > 0 {
                assert(r[i] == es[i - 1]);
            }
        }
    } else {
        let t = es.drop_first();
        lemma_insert_sorted_keys(t, k, v);
        let rt = insert_sorted(t, k, v);
        assert forall|i: int| 0 <= i < r.len() implies #[trigger] r[i].0 == k || exists|j: int|
            0 <= j < es.len() && r[i].0 == es[j].0 by {
            if i == 0 {
                assert(r[0] == es[0]);
            } else {
                assert(r[i] == rt[i - 1]);
                if rt[i - 1].0 != k {
                    let j = choose|j: int| 0 <= j < t.len() && rt[i - 1].0 == t[j].0;
                    assert(t[j] == es[j + 1]);
                }
            }
        }
    }
}

/// Storing a chunk keeps every key the decimal text of a chunk index, and two
/// chunks of one region are stored under the same key exactly when they are
/// the same chunk.
pub proof fn lemma_chunk_keys(es: Seq<(Seq<char>, Seq<u8>)>, x: i32, z: i32, bytes: Seq<u8>, x2: i32, z2: i32)
    requires
        keys_are_chunk_indices(es),
    ensures
        0 <= chunk_index(x, z) < 1024,
        keys_are_chunk_indices(insert_sorted(es, int_decimal(chunk_index(x, z)), bytes)),
        region_coord(x) == region_coord(x2) && region_coord(z) == region_coord(z2) ==> ((int_decimal(
            chunk_index(x, z),
        ) == int_decimal(chunk_index(x2, z2))) == (x == x2 && z == z2)),
{
    let k = int_decimal(chunk_index(x, z));
    lemma_insert_sorted_keys(es, k, bytes);
    let r = insert_sorted(es, k, bytes);
    assert forall|i: int| 0 <= i < r.len() implies exists|c: int| 0 <= c < 1024 && #[trigger] r[i].0
        == int_decimal(c) by {
        if r[i].0 == k {
            assert(0 <= chunk_index(x, z) < 1024);
        } else {
            let j = choose|j: int| 0 <= j < es.len() && r[i].0 == es[j].0;
            assert(exists|c: int| 0 <= c < 1024 && #[trigger] es[j].0 == int_decimal(c));
        }
    }
    if region_coord(x) == region_coord(x2) && region_coord(z) == region_coord(z2) && k
        == int_decimal(chunk_index(x2, z2)) {
        lemma_int_decimal_injective(chunk_index(x, z), chunk_index(x2, z2));
        assert(x as int % 32 == x2 as int % 32);
        assert(z as int % 32 == z2 as int % 32);
    }
}


/// Regions are 32 chunks wide: a chunk coordinate lies in the 32 coordinates
/// from 32 times its region coordinate on, and a chunk's index in its region
/// is its offset from the region's corner along x plus 32 times its offset
/// along z, one of 0 to 1023.
pub proof fn lemma_region_addressing(x: i32, z: i32)
    ensures
        32 * region_coord(x) <= x < 32 * region_coord(x) + 32,
        32 * region_coord(z) <= z < 32 * region_coord(z) + 32,
        chunk_index(x, z) == (x - 32 * region_coord(x)) + 32 * (z - 32 * region_coord(z)),
        0 <= chunk_index(x, z) < 1024,
{
}

} // verus!

