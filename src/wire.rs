use vstd::prelude::*;
use vstd::string::StrSliceExecFns;
use crate::id::IdStore;

verus! {

/// `v` in `n` bytes, least significant first.
pub open spec fn le_bytes(v: nat, n: nat) -> Seq<u8>
    decreases n,
{
    if n == 0 {
        Seq::empty()
    } else {
        seq![(v % 256) as u8] + le_bytes(v / 256, (n - 1) as nat)
    }
}

/// The number that bytes `s` give, least significant first.
pub open spec fn le_value(s: Seq<u8>) -> nat
    decreases s.len(),
{
    if s.len() == 0 {
        0
    } else {
        s[0] as nat + 256 * le_value(s.drop_first())
    }
}

pub open spec fn pow256(n: nat) -> nat
    decreases n,
{
    if n == 0 {
        1
    } else {
        256 * pow256((n - 1) as nat)
    }
}

pub proof fn lemma_le_round_trip(v: nat, n: nat)
    requires
        v < pow256(n),
    ensures
        le_bytes(v, n).len() == n,
        le_value(le_bytes(v, n)) == v,
    decreases n,
{
    if n > 0 {
        assert(v / 256 < pow256((n - 1) as nat)) by (nonlinear_arith)
            requires
                v < 256 * pow256((n - 1) as nat),
        ;
        lemma_le_round_trip(v / 256, (n - 1) as nat);
        let s = le_bytes(v, n);
        assert(s.drop_first() =~= le_bytes(v / 256, (n - 1) as nat));
        assert(v == v % 256 + 256 * (v / 256)) by (nonlinear_arith);
    }
}

/// The code points of `cs`, four bytes each.
pub open spec fn encode_chars(cs: Seq<char>) -> Seq<u8>
    decreases cs.len(),
{
    if cs.len() == 0 {
        Seq::empty()
    } else {
        le_bytes(cs[0] as u32 as nat, 4) + encode_chars(cs.drop_first())
    }
}

/// One external id: its length in eight bytes, then its characters.
pub open spec fn encode_id(cs: Seq<char>) -> Seq<u8> {
    le_bytes(cs.len(), 8) + encode_chars(cs)
}

pub open spec fn encode_ids(ids: Seq<Seq<char>>) -> Seq<u8>
    decreases ids.len(),
{
    if ids.len() == 0 {
        Seq::empty()
    } else {
        encode_id(ids[0]) + encode_ids(ids.drop_first())
    }
}

/// The wire format of a registry: the number of ids in eight bytes, then each id in
/// order of its internal number.
pub open spec fn wire_format(ids: Seq<Seq<char>>) -> Seq<u8> {
    le_bytes(ids.len(), 8) + encode_ids(ids)
}

proof fn lemma_encode_chars_push(cs: Seq<char>, c: char)
    ensures
        encode_chars(cs.push(c)) == encode_chars(cs) + le_bytes(c as u32 as nat, 4),
    decreases cs.len(),
{
    if cs.len() == 0 {
        assert(cs.push(c).drop_first() =~= Seq::<char>::empty());
        assert(encode_chars(Seq::<char>::empty()) == Seq::<u8>::empty());
    } else {
        lemma_encode_chars_push(cs.drop_first(), c);
        assert(cs.push(c).drop_first() =~= cs.drop_first().push(c));
    }
    assert(encode_chars(cs.push(c)) =~= encode_chars(cs) + le_bytes(c as u32 as nat, 4));
}

proof fn lemma_encode_ids_push(ids: Seq<Seq<char>>, x: Seq<char>)
    ensures
        encode_ids(ids.push(x)) == encode_ids(ids) + encode_id(x),
    decreases ids.len(),
{
    if ids.len() == 0 {
        assert(ids.push(x).drop_first() =~= Seq::<Seq<char>>::empty());
        assert(encode_ids(Seq::<Seq<char>>::empty()) == Seq::<u8>::empty());
    } else {
        lemma_encode_ids_push(ids.drop_first(), x);
        assert(ids.push(x).drop_first() =~= ids.drop_first().push(x));
    }
    assert(encode_ids(ids.push(x)) =~= encode_ids(ids) + encode_id(x));
}

proof fn lemma_pow256_facts()
    ensures
        pow256(4) == 4_294_967_296,
        pow256(8) == 18_446_744_073_709_551_616,
{
    reveal_with_fuel(pow256, 9);
}

/// Appends `v` in `n` bytes, least significant first.
fn push_le(out: &mut Vec<u8>, v: u64, n: usize)
    requires
        n <= 8,
    ensures
        final(out)@ == old(out)@ + le_bytes(v as nat, n as nat),
{
    let mut x: u64 = v;
    let mut k: usize = 0;
    let ghost start = old(out)@;
    while k < n
        invariant
            k <= n,
            start == old(out)@,
            out@ + le_bytes(x as nat, (n - k) as nat) == start + le_bytes(v as nat, n as nat),
        decreases n - k,
    {
        let ghost o = out@;
        out.push((x % 256) as u8);
        assert(le_bytes(x as nat, (n - k) as nat) == seq![(x % 256) as u8] + le_bytes((x / 256) as nat, (n - k - 1) as nat));
        assert(out@ + le_bytes((x / 256) as nat, (n - k - 1) as nat) =~= o + le_bytes(x as nat, (n - k) as nat));
        x = x / 256;
        k = k + 1;
    }
    assert(le_bytes(x as nat, 0) =~= Seq::<u8>::empty());
    assert(out@ =~= start + le_bytes(v as nat, n as nat));
}

/// Reads `n` bytes at `pos`, least significant first.
fn read_le(bytes: &Vec<u8>, pos: usize, n: usize) -> (r: u64)
    requires
        n <= 8,
        pos + n <= bytes@.len(),
    ensures
        r == le_value(bytes@.subrange(pos as int, pos + n)),
{
    let mut r: u64 = 0;
    let mut k: usize = n;
    let blen = bytes.len();
    proof {
        lemma_pow256_facts();
        lemma_le_value_bound(bytes@.subrange(pos + n, pos + n));
    }
    while k > 0
        invariant
            k <= n <= 8,
            pos + n <= bytes@.len(),
            blen == bytes@.len(),
            r == le_value(bytes@.subrange(pos + k, pos + n)),
            r < pow256((n - k) as nat),
            pow256(8) == 18_446_744_073_709_551_616,
        decreases k,
    {
        k = k - 1;
        let ghost s = bytes@.subrange(pos + k, pos + n);
        assert(s.drop_first() =~= bytes@.subrange(pos + k + 1, pos + n));
        assert(s[0] == bytes@[pos + k]);
        proof {
            lemma_pow256_mono((n - k - 1) as nat, 7);
        }
        assert(256 * (r as int) + 255 < 18_446_744_073_709_551_616) by (nonlinear_arith)
            requires
                r < pow256((n - k - 1) as nat),
                pow256((n - k - 1) as nat) <= pow256(7),
                pow256(8) == 256 * pow256(7),
                pow256(8) == 18_446_744_073_709_551_616,
        ;
        r = (bytes[pos + k] as u64) + 256 * r;
        assert(pow256((n - k) as nat) == 256 * pow256((n - k - 1) as nat));
    }
    r
}

proof fn lemma_le_value_bound(s: Seq<u8>)
    ensures
        le_value(s) < pow256(s.len()),
    decreases s.len(),
{
    if s.len() > 0 {
        lemma_le_value_bound(s.drop_first());
        assert(le_value(s) < pow256(s.len())) by (nonlinear_arith)
            requires
                le_value(s) == s[0] as nat + 256 * le_value(s.drop_first()),
                le_value(s.drop_first()) < pow256((s.len() - 1) as nat),
                pow256(s.len()) == 256 * pow256((s.len() - 1) as nat),
                s[0] < 256,
        ;
    }
}

proof fn lemma_pow256_mono(a: nat, b: nat)
    requires
        a <= b,
    ensures
        pow256(a) <= pow256(b),
    decreases b,
{
    if a < b {
        lemma_pow256_mono(a, (b - 1) as nat);
    }
}

/// Writes `store` in its wire format.
pub fn store_to_wire_format(store: &IdStore) -> (r: Vec<u8>)
    requires
        store.wf(),
    ensures
        r@ == wire_format(store@),
        wire_ok(store@),
{
    let mut out: Vec<u8> = Vec::new();
    let n = store.len();
    push_le(&mut out, n as u64, 8);
    let ghost header = out@;
    let mut i: usize = 0;
    assert(store@.take(0) =~= Seq::<Seq<char>>::empty());
    while i < n
        invariant
            n == store@.len(),
            i <= n,
            header == le_bytes(n as nat, 8),
            out@ == header + encode_ids(store@.take(i as int)),
            forall|q: int| 0 <= q < i ==> (#[trigger] store@[q]).len() <= u64::MAX,
        decreases n - i,
    {
        let s = store.external_at(i);
        let len = s.unicode_len();
        let ghost before = out@;
        push_le(&mut out, len as u64, 8);
        let mut k: usize = 0;
        assert(s@.take(0) =~= Seq::<char>::empty());
        while k < len
            invariant
                len == s@.len(),
                k <= len,
                out@ == before + le_bytes(len as nat, 8) + encode_chars(s@.take(k as int)),
            decreases len - k,
        {
            let c = s.get_char(k);
            let ghost o = out@;
            push_le(&mut out, c as u32 as u64, 4);
            proof {
                lemma_encode_chars_push(s@.take(k as int), c);
                assert(s@.take(k + 1) =~= s@.take(k as int).push(c));
            }
            assert(out@ =~= before + le_bytes(len as nat, 8) + encode_chars(s@.take(k + 1)));
            k = k + 1;
        }
        assert(s@.take(len as int) =~= s@);
        proof {
            lemma_encode_ids_push(store@.take(i as int), s@);
            assert(store@.take(i + 1) =~= store@.take(i as int).push(s@));
        }
        assert(out@ =~= header + encode_ids(store@.take(i + 1)));
        i = i + 1;
    }
    assert(store@.take(n as int) =~= store@);
    out
}

/// Relies on std's `char::from_u32`: the character of code point `v`, `None` where
/// `v` is a surrogate or beyond the last code point.
#[verifier::external_body]
fn char_from_u32(v: u32) -> (r: Option<char>)
    ensures
        r matches Some(c) ==> c as u32 == v,
        (v <= 0x10FFFF && !(0xD800 <= v <= 0xDFFF)) ==> r is Some,
{
    char::from_u32(v)
}

/// Relies on std's `String: FromIterator<char>`: the string of the characters `cs`.
#[verifier::external_body]
fn string_from_chars(cs: Vec<char>) -> (r: String)
    ensures
        r@ == cs@,
{
    cs.into_iter().collect()
}

/// Ids that a registry can hold and write: no two alike, and every count within
/// eight bytes.
pub open spec fn wire_ok(ids: Seq<Seq<char>>) -> bool {
    &&& ids.no_duplicates()
    &&& ids.len() <= u64::MAX
    &&& forall|i: int| 0 <= i < ids.len() ==> (#[trigger] ids[i]).len() <= u64::MAX
}

proof fn lemma_le_bytes_of_value(s: Seq<u8>)
    ensures
        le_bytes(le_value(s), s.len()) == s,
    decreases s.len(),
{
    if s.len() > 0 {
        let v = le_value(s);
        let x = le_value(s.drop_first());
        assert(v % 256 == s[0] as nat && v / 256 == x) by (nonlinear_arith)
            requires
                v == s[0] as nat + 256 * x,
                s[0] < 256,
        ;
        lemma_le_bytes_of_value(s.drop_first());
        assert(le_bytes(v, s.len()) =~= s);
    }
}

proof fn lemma_le_bytes_len(v: nat, n: nat)
    ensures
        le_bytes(v, n).len() == n,
    decreases n,
{
    if n > 0 {
        lemma_le_bytes_len(v / 256, (n - 1) as nat);
    }
}

proof fn lemma_encode_chars_len(cs: Seq<char>)
    ensures
        encode_chars(cs).len() == 4 * cs.len(),
    decreases cs.len(),
{
    if cs.len() > 0 {
        lemma_le_bytes_len(cs[0] as u32 as nat, 4);
        lemma_encode_chars_len(cs.drop_first());
    }
}

/// Equal concatenations whose first parts have equal lengths have equal parts.
proof fn lemma_split(x: Seq<u8>, y: Seq<u8>, x2: Seq<u8>, y2: Seq<u8>)
    requires
        x + y == x2 + y2,
        x.len() == x2.len(),
    ensures
        x == x2,
        y == y2,
{
    assert(x =~= (x + y).subrange(0, x.len() as int));
    assert(x2 =~= (x2 + y2).subrange(0, x.len() as int));
    assert(y =~= (x + y).subrange(x.len() as int, (x + y).len() as int));
    assert(y2 =~= (x2 + y2).subrange(x.len() as int, (x + y).len() as int));
}

proof fn lemma_encode_chars_injective(a: Seq<char>, b: Seq<char>, ra: Seq<u8>, rb: Seq<u8>)
    requires
        a.len() == b.len(),
        encode_chars(a) + ra == encode_chars(b) + rb,
    ensures
        a == b,
        ra == rb,
    decreases a.len(),
{
    if a.len() == 0 {
        assert(encode_chars(a) =~= Seq::<u8>::empty());
        assert(encode_chars(b) =~= Seq::<u8>::empty());
        assert(a =~= b);
        assert(ra =~= encode_chars(a) + ra);
        assert(rb =~= encode_chars(b) + rb);
    } else {
        lemma_pow256_facts();
        lemma_chars_wf(a[0]);
        lemma_chars_wf(b[0]);
        lemma_le_round_trip(a[0] as u32 as nat, 4);
        lemma_le_round_trip(b[0] as u32 as nat, 4);
        let ea = le_bytes(a[0] as u32 as nat, 4);
        let eb = le_bytes(b[0] as u32 as nat, 4);
        assert(encode_chars(a) + ra =~= ea + (encode_chars(a.drop_first()) + ra));
        assert(encode_chars(b) + rb =~= eb + (encode_chars(b.drop_first()) + rb));
        lemma_split(ea, encode_chars(a.drop_first()) + ra, eb, encode_chars(b.drop_first()) + rb);
        assert(le_value(ea) == le_value(eb));
        assert(a[0] as u32 as nat == b[0] as u32 as nat);
        assert(a[0] as u32 == b[0] as u32);
        lemma_char_injective(a[0], b[0]);
        lemma_encode_chars_injective(a.drop_first(), b.drop_first(), ra, rb);
        assert(a[0] == b[0]);
        assert forall|i: int| 0 <= i < a.len() implies a[i] == b[i] by {
            if i > 0 {
                assert(a[i] == a.drop_first()[i - 1]);
                assert(b[i] == b.drop_first()[i - 1]);
            }
        }
        assert(a =~= b);
    }
}

proof fn lemma_encode_ids_injective(a: Seq<Seq<char>>, b: Seq<Seq<char>>)
    requires
        a.len() == b.len(),
        forall|i: int| 0 <= i < a.len() ==> (#[trigger] a[i]).len() <= u64::MAX,
        forall|i: int| 0 <= i < b.len() ==> (#[trigger] b[i]).len() <= u64::MAX,
        encode_ids(a) == encode_ids(b),
    ensures
        a == b,
    decreases a.len(),
{
    if a.len() > 0 {
        lemma_pow256_facts();
        lemma_le_round_trip(a[0].len(), 8);
        lemma_le_round_trip(b[0].len(), 8);
        let la = le_bytes(a[0].len(), 8);
        let lb = le_bytes(b[0].len(), 8);
        let ra = encode_chars(a[0]) + encode_ids(a.drop_first());
        let rb = encode_chars(b[0]) + encode_ids(b.drop_first());
        assert(encode_ids(a) =~= la + ra);
        assert(encode_ids(b) =~= lb + rb);
        lemma_split(la, ra, lb, rb);
        lemma_encode_chars_injective(a[0], b[0], encode_ids(a.drop_first()), encode_ids(b.drop_first()));
        assert forall|i: int| 0 <= i < a.drop_first().len() implies (#[trigger] a.drop_first()[i]).len() <= u64::MAX by {
            assert(a.drop_first()[i] == a[i + 1]);
        }
        assert forall|i: int| 0 <= i < b.drop_first().len() implies (#[trigger] b.drop_first()[i]).len() <= u64::MAX by {
            assert(b.drop_first()[i] == b[i + 1]);
        }
        lemma_encode_ids_injective(a.drop_first(), b.drop_first());
        assert forall|i: int| 0 <= i < a.len() implies a[i] == b[i] by {
            if i > 0 {
                assert(a[i] == a.drop_first()[i - 1]);
                assert(b[i] == b.drop_first()[i - 1]);
            }
        }
        assert(a =~= b);
    } else {
        assert(a =~= b);
    }
}

/// The wire format tells registries apart: two that write the same bytes hold the
/// same ids in the same order.
pub proof fn lemma_wire_format_injective(a: Seq<Seq<char>>, b: Seq<Seq<char>>)
    requires
        wire_ok(a),
        wire_ok(b),
        wire_format(a) == wire_format(b),
    ensures
        a == b,
{
    lemma_pow256_facts();
    lemma_le_round_trip(a.len(), 8);
    lemma_le_round_trip(b.len(), 8);
    lemma_split(le_bytes(a.len(), 8), encode_ids(a), le_bytes(b.len(), 8), encode_ids(b));
    lemma_encode_ids_injective(a, b);
}

proof fn lemma_char_injective(a: char, b: char)
    requires
        a as u32 == b as u32,
    ensures
        a == b,
{
}

proof fn lemma_chars_wf(c: char)
    ensures
        (c as u32) <= 0x10FFFF,
        !(0xD800 <= (c as u32) <= 0xDFFF),
{
}

/// Reads a registry written in its wire format; `None` where `bytes` are not one.
pub fn load_from_wire_format(bytes: Vec<u8>) -> (r: Option<IdStore>)
    ensures
        r matches Some(st) ==> st.wf() && wire_format(st@) == bytes@,
        forall|ids: Seq<Seq<char>>| wire_ok(ids) && wire_format(ids) == bytes@ ==> (r matches Some(st) && st@ == ids),
{
    let blen = bytes.len();
    let ghost valid = exists|ids: Seq<Seq<char>>| wire_ok(ids) && wire_format(ids) == bytes@;
    let ghost target = choose|ids: Seq<Seq<char>>| wire_ok(ids) && wire_format(ids) == bytes@;
    proof {
        lemma_pow256_facts();
        if valid {
            lemma_le_round_trip(target.len(), 8);
            assert(bytes@.subrange(0, 8) =~= le_bytes(target.len(), 8));
        }
    }
    if blen < 8 {
        proof {
            if valid {
                lemma_le_bytes_len(target.len(), 8);
            }
        }
        assert(!valid);
        return None;
    }
    let count = read_le(&bytes, 0, 8);
    let mut store = IdStore::new();
    let mut pos: usize = 8;
    let mut k: u64 = 0;
    proof {
        lemma_le_bytes_of_value(bytes@.subrange(0, 8));
        assert(bytes@.take(8) =~= bytes@.subrange(0, 8));
        assert(encode_ids(Seq::<Seq<char>>::empty()) == Seq::<u8>::empty());
        assert(bytes@.take(8) =~= le_bytes(count as nat, 8) + encode_ids(store@));
        if valid {
            assert(target.skip(0) =~= target);
            assert(bytes@.skip(8) =~= encode_ids(target));
            assert(target.take(0) =~= Seq::<Seq<char>>::empty());
        }
    }
    while k < count
        invariant
            blen == bytes@.len(),
            8 <= pos <= blen,
            store.wf(),
            store@.len() == k,
            k <= count,
            bytes@.take(pos as int) == le_bytes(count as nat, 8) + encode_ids(store@),
            valid == exists|ids: Seq<Seq<char>>| wire_ok(ids) && wire_format(ids) == bytes@,
            valid ==> wire_ok(target) && wire_format(target) == bytes@,
            pow256(4) == 4_294_967_296,
            pow256(8) == 18_446_744_073_709_551_616,
            valid ==> count == target.len() && store@ == target.take(k as int)
                && bytes@.skip(pos as int) == encode_ids(target.skip(k as int)),
        decreases count - k,
    {
        proof {
            if valid {
                assert(target.skip(k as int).drop_first() =~= target.skip(k + 1));
                assert(target.skip(k as int)[0] == target[k as int]);
                lemma_le_round_trip(target[k as int].len(), 8);
                assert(bytes@.subrange(pos as int, pos + 8) =~= le_bytes(target[k as int].len(), 8));
            }
        }
        if blen - pos < 8 {
            proof {
                if valid {
                    lemma_le_bytes_len(target[k as int].len(), 8);
                    assert(encode_ids(target.skip(k as int)) =~= encode_id(target[k as int]) + encode_ids(target.skip(k + 1)));
                    assert(bytes@.skip(pos as int).len() == blen - pos);
                }
            }
            assert(!valid);
            return None;
        }
        let len = read_le(&bytes, pos, 8);
        proof {
            lemma_le_bytes_of_value(bytes@.subrange(pos as int, pos + 8));
            assert(bytes@.take(pos + 8) =~= bytes@.take(pos as int) + bytes@.subrange(pos as int, pos + 8));
        }
        let ghost id_t = target[k as int];
        let ghost rest = encode_ids(target.skip(k + 1));
        if len > blen as u64 {
            proof {
                if valid {
                    lemma_encode_chars_len(id_t);
                    lemma_le_bytes_len(id_t.len(), 8);
                    assert(encode_ids(target.skip(k as int)) =~= le_bytes(id_t.len(), 8) + encode_chars(id_t) + rest);
                    assert(bytes@.skip(pos as int).len() == blen - pos);
                }
            }
            assert(!valid);
            return None;
        }
        proof {
            if valid {
                lemma_le_bytes_len(id_t.len(), 8);
                assert(encode_ids(target.skip(k as int)) =~= le_bytes(id_t.len(), 8) + (encode_chars(id_t) + rest));
                assert(bytes@.skip(pos + 8) =~= bytes@.skip(pos as int).skip(8));
                assert((le_bytes(id_t.len(), 8) + (encode_chars(id_t) + rest)).skip(8) =~= encode_chars(id_t) + rest);
            }
        }
        pos = pos + 8;
        proof {
            if valid {
                assert(bytes@.skip(pos as int) =~= encode_chars(id_t) + rest);
                assert(id_t.skip(0) =~= id_t);
                assert(id_t.take(0) =~= Seq::<char>::empty());
            }
        }
        let n = len as usize;
        let mut cs: Vec<char> = Vec::new();
        let mut j: usize = 0;
        let ghost pos0 = pos;
        while j < n
            invariant
                blen == bytes@.len(),
                8 <= pos <= blen,
                j <= n,
                n == len,
                cs@.len() == j,
                bytes@.take(pos as int) == le_bytes(count as nat, 8) + encode_ids(store@) + le_bytes(len as nat, 8)
                    + encode_chars(cs@),
                pow256(4) == 4_294_967_296,
                pow256(8) == 18_446_744_073_709_551_616,
                valid == exists|ids: Seq<Seq<char>>| wire_ok(ids) && wire_format(ids) == bytes@,
                valid ==> wire_ok(target) && k < target.len() && id_t == target[k as int],
                valid ==> len == id_t.len() && cs@ == id_t.take(j as int)
                    && bytes@.skip(pos as int) == encode_chars(id_t.skip(j as int)) + rest,
            decreases n - j,
        {
            proof {
                if valid {
                    assert(id_t.skip(j as int).drop_first() =~= id_t.skip(j + 1));
                    assert(id_t.skip(j as int)[0] == id_t[j as int]);
                    lemma_le_round_trip(id_t[j as int] as u32 as nat, 4);
                    assert(bytes@.subrange(pos as int, pos + 4) =~= le_bytes(id_t[j as int] as u32 as nat, 4));
                    lemma_chars_wf(id_t[j as int]);
                }
            }
            if blen - pos < 4 {
                proof {
                    if valid {
                        lemma_le_bytes_len(id_t[j as int] as u32 as nat, 4);
                        assert(encode_chars(id_t.skip(j as int)) =~= le_bytes(id_t[j as int] as u32 as nat, 4)
                            + encode_chars(id_t.skip(j + 1)));
                        assert(bytes@.skip(pos as int).len() == blen - pos);
                    }
                }
                assert(!valid);
                return None;
            }
            let v = read_le(&bytes, pos, 4);
            proof {
                lemma_le_bytes_of_value(bytes@.subrange(pos as int, pos + 4));
                lemma_le_value_bound(bytes@.subrange(pos as int, pos + 4));
            }
            let c = match char_from_u32(v as u32) {
                Some(c) => c,
                None => {
                    return None;
                },
            };
            proof {
                lemma_encode_chars_push(cs@, c);
                assert(bytes@.take(pos + 4) =~= bytes@.take(pos as int) + bytes@.subrange(pos as int, pos + 4));
                if valid {
                    assert(v == id_t[j as int] as u32);
                    lemma_char_injective(c, id_t[j as int]);
                    assert(c == id_t[j as int]);
                    lemma_le_bytes_len(c as u32 as nat, 4);
                    assert(encode_chars(id_t.skip(j as int)) + rest =~= le_bytes(c as u32 as nat, 4) + (encode_chars(
                        id_t.skip(j + 1),
                    ) + rest));
                    assert(bytes@.skip(pos + 4) =~= bytes@.skip(pos as int).skip(4));
                    assert(id_t.take(j + 1) =~= id_t.take(j as int).push(c));
                    assert(bytes@.skip(pos + 4) =~= encode_chars(id_t.skip(j + 1)) + rest);
                }
            }
            cs.push(c);
            pos = pos + 4;
            j = j + 1;
        }
        proof {
            if valid {
                assert(id_t.take(n as int) =~= id_t);
                assert(id_t.skip(n as int) =~= Seq::<char>::empty());
                assert(encode_chars(Seq::<char>::empty()) == Seq::<u8>::empty());
                assert(bytes@.skip(pos as int) =~= rest);
            }
        }
        let ext = string_from_chars(cs);
        let before = store.len();
        let ghost s0 = store@;
        let _id = store.create_id(ext.as_str());
        if store.len() == before {
            proof {
                if valid {
                    assert(!s0.contains(ext@)) by {
                        if s0.contains(ext@) {
                            let q = choose|q: int| 0 <= q < s0.len() && s0[q] == ext@;
                            assert(target[q] == s0[q]);
                            assert(target[k as int] == ext@);
                        }
                    }
                }
            }
            assert(!valid);
            return None;
        }
        proof {
            assert(store@ == s0.push(ext@));
            lemma_encode_ids_push(s0, ext@);
            assert(bytes@.take(pos as int) =~= le_bytes(count as nat, 8) + encode_ids(store@));
            if valid {
                assert(target.take(k + 1) =~= target.take(k as int).push(id_t));
            }
        }
        k = k + 1;
    }
    if pos != blen {
        proof {
            if valid {
                assert(target.skip(count as int) =~= Seq::<Seq<char>>::empty());
                assert(encode_ids(Seq::<Seq<char>>::empty()) == Seq::<u8>::empty());
                assert(bytes@.skip(pos as int).len() == blen - pos);
            }
        }
        assert(!valid);
        return None;
    }
    proof {
        assert(bytes@.take(pos as int) =~= bytes@);
        if valid {
            assert(target.take(count as int) =~= target);
        }
        assert forall|ids: Seq<Seq<char>>| wire_ok(ids) && wire_format(ids) == bytes@ implies store@ == ids by {
            assert(wire_ok(target) && wire_format(target) == bytes@);
            lemma_wire_format_injective(ids, target);
        }
    }
    Some(store)
}

} // verus!
