use vstd::prelude::*;
use vstd::string::StrSliceExecFns;

verus! {

/// A field value from which on a time of day no longer fits a `u32`.
pub const FIELD_CAP: u64 = 4_294_967_296;

/// The fields of `s` between colons, in order; there is always at least one.
pub open spec fn fields(s: Seq<char>) -> Seq<Seq<char>>
    decreases s.len(),
{
    if s.len() == 0 {
        seq![Seq::empty()]
    } else if s.last() == ':' {
        fields(s.drop_last()).push(Seq::empty())
    } else {
        let f = fields(s.drop_last());
        f.update(f.len() - 1, f.last().push(s.last()))
    }
}

pub open spec fn is_digit(c: char) -> bool {
    '0' <= c && c <= '9'
}

/// A field that is a number: at least one digit, and nothing else.
pub open spec fn is_number(f: Seq<char>) -> bool {
    f.len() > 0 && forall|i: int| 0 <= i < f.len() ==> is_digit(#[trigger] f[i])
}

/// The decimal value of the digits `f`.
pub open spec fn number_of(f: Seq<char>) -> nat
    decreases f.len(),
{
    if f.len() == 0 {
        0
    } else {
        number_of(f.drop_last()) * 10 + (f.last() as nat - '0' as nat) as nat
    }
}

/// The seconds that `s`, written `hh:mm:ss`, stands for: three fields of digits
/// (any number of them), hours times 3600 plus minutes times 60 plus seconds;
/// `None` where `s` is not so written or the time does not fit a `u32`.
pub open spec fn time_of(s: Seq<char>) -> Option<u32> {
    let f = fields(s);
    if f.len() == 3 && is_number(f[0]) && is_number(f[1]) && is_number(f[2]) {
        let t = number_of(f[0]) * 3600 + number_of(f[1]) * 60 + number_of(f[2]);
        if t <= u32::MAX {
            Some(t as u32)
        } else {
            None
        }
    } else {
        None
    }
}

pub open spec fn capped(n: nat) -> nat {
    if n < FIELD_CAP {
        n
    } else {
        FIELD_CAP as nat
    }
}

proof fn lemma_fields_nonempty(s: Seq<char>)
    ensures
        fields(s).len() >= 1,
    decreases s.len(),
{
    if s.len() > 0 {
        lemma_fields_nonempty(s.drop_last());
    }
}

/// Parses a time of day written `hh:mm:ss` into seconds; `None` where `value` is
/// not so written or the time does not fit a `u32`.
pub fn try_parse_time(value: &str) -> (r: Option<u32>)
    ensures
        r == time_of(value@),
{
    let n = value.unicode_len();
    // per completed field: whether it is a number, and its value capped
    let mut done_ok: Vec<bool> = Vec::new();
    let mut done_val: Vec<u64> = Vec::new();
    let mut cur_ok: bool = false;
    let mut cur_len: usize = 0;
    let mut cur_val: u64 = 0;
    let mut cur_digits = true;
    let mut i: usize = 0;
    proof {
        assert(value@.take(0) =~= Seq::<char>::empty());
    }
    while i < n
        invariant
            n == value@.len(),
            i <= n,
            fields(value@.take(i as int)).len() == done_ok@.len() + 1,
            done_val@.len() == done_ok@.len(),
            forall|k: int|
                0 <= k < done_ok@.len() ==> (#[trigger] done_ok@[k]) == is_number(fields(value@.take(i as int))[k])
                    && (done_ok@[k] ==> done_val@[k] == capped(number_of(fields(value@.take(i as int))[k]))),
            cur_len == fields(value@.take(i as int)).last().len(),
            cur_digits == forall|j: int|
                0 <= j < cur_len ==> is_digit(#[trigger] fields(value@.take(i as int)).last()[j]),
            cur_ok == (cur_len > 0 && cur_digits),
            cur_digits ==> cur_val == capped(number_of(fields(value@.take(i as int)).last())),
            cur_val <= FIELD_CAP,
            cur_len <= i,
        decreases n - i,
    {
        let c = value.get_char(i);
        let ghost f0 = fields(value@.take(i as int));
        proof {
            lemma_fields_nonempty(value@.take(i as int));
            assert(value@.take(i + 1).drop_last() =~= value@.take(i as int));
            assert(value@.take(i + 1).last() == c);
        }
        if c == ':' {
            done_ok.push(cur_ok);
            done_val.push(cur_val);
            cur_ok = false;
            cur_len = 0;
            cur_val = 0;
            cur_digits = true;
            proof {
                let f1 = fields(value@.take(i + 1));
                assert(f1 == f0.push(Seq::<char>::empty()));
                assert forall|k: int| 0 <= k < done_ok@.len() implies (#[trigger] done_ok@[k]) == is_number(f1[k])
                    && (done_ok@[k] ==> done_val@[k] == capped(number_of(f1[k]))) by {
                    if k < done_ok@.len() - 1 {
                        assert(f1[k] == f0[k]);
                    } else {
                        assert(f1[k] == f0.last());
                    }
                }
                assert(number_of(Seq::<char>::empty()) == 0);
            }
        } else {
            let d = is_digit_exec(c);
            let ghost last0 = f0.last();
            if d && cur_digits {
                let dv: u64 = (c as u32 - '0' as u32) as u64;
                let next: u64 = cur_val * 10 + dv;
                cur_val = if next >= FIELD_CAP { FIELD_CAP } else { next };
                proof {
                    let n0 = number_of(last0);
                    assert(number_of(last0.push(c)) == n0 * 10 + (c as nat - '0' as nat)) by {
                        assert(last0.push(c).drop_last() =~= last0);
                    }
                    assert(capped(n0 * 10 + (c as nat - '0' as nat) as nat) == capped(capped(n0) * 10 + (c as nat
                        - '0' as nat) as nat)) by (nonlinear_arith)
                        requires
                            FIELD_CAP == 4_294_967_296,
                    ;
                }
            }
            cur_digits = cur_digits && d;
            cur_len = cur_len + 1;
            cur_ok = cur_digits;
            proof {
                let f1 = fields(value@.take(i + 1));
                assert(f1 == f0.update(f0.len() - 1, last0.push(c)));
                assert(f1.last() == last0.push(c));
                assert forall|k: int| 0 <= k < done_ok@.len() implies (#[trigger] done_ok@[k]) == is_number(f1[k])
                    && (done_ok@[k] ==> done_val@[k] == capped(number_of(f1[k]))) by {
                    assert(f1[k] == f0[k]);
                }
                assert(cur_digits == forall|j: int| 0 <= j < cur_len ==> is_digit(#[trigger] f1.last()[j])) by {
                    if cur_digits {
                        assert forall|j: int| 0 <= j < cur_len implies is_digit(#[trigger] f1.last()[j]) by {
                            if j < cur_len - 1 {
                                assert(f1.last()[j] == last0[j]);
                            }
                        }
                    } else {
                        if !d {
                            assert(f1.last()[cur_len - 1] == c);
                        } else {
                            let j = choose|j: int| 0 <= j < cur_len - 1 && !is_digit(#[trigger] last0[j]);
                            assert(f1.last()[j] == last0[j]);
                        }
                    }
                }
            }
        }
        i = i + 1;
    }
    proof {
        assert(value@.take(n as int) =~= value@);
    }
    if done_ok.len() != 2 || !done_ok[0] || !done_ok[1] || !cur_ok {
        return None;
    }
    let total: u64 = done_val[0] * 3600 + done_val[1] * 60 + cur_val;
    proof {
        let f = fields(value@);
        let h = number_of(f[0]);
        let m = number_of(f[1]);
        let s = number_of(f[2]);
        assert(f.last() == f[2]);
        assert((h * 3600 + m * 60 + s <= u32::MAX) == (capped(h) * 3600 + capped(m) * 60 + capped(s) <= u32::MAX))
            by (nonlinear_arith)
            requires
                FIELD_CAP == 4_294_967_296,
        ;
        assert(h * 3600 + m * 60 + s <= u32::MAX ==> capped(h) == h && capped(m) == m && capped(s) == s)
            by (nonlinear_arith)
            requires
                FIELD_CAP == 4_294_967_296,
        ;
    }
    if total > u32::MAX as u64 {
        None
    } else {
        Some(total as u32)
    }
}

fn is_digit_exec(c: char) -> (r: bool)
    ensures
        r == is_digit(c),
{
    '0' <= c && c <= '9'
}

/// Parses a time of day written `hh:mm:ss` into seconds; `value` must be one.
pub fn parse_time(value: &str) -> (r: u32)
    requires
        time_of(value@) is Some,
    ensures
        Some(r) == time_of(value@),
{
    match try_parse_time(value) {
        Some(t) => t,
        None => unreached(),
    }
}

/// Parses an optional time of day written `hh:mm:ss`; `None` stays `None`.
pub fn parse_time_opt(value: &Option<String>) -> (r: Option<u32>)
    requires
        value matches Some(v) ==> time_of(v@) is Some,
    ensures
        r == match *value {
            None => None::<u32>,
            Some(v) => time_of(v@),
        },
{
    match value {
        None => None,
        Some(v) => Some(parse_time(v.as_str())),
    }
}

} // verus!
