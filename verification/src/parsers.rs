//! Parsing of datagram payloads: whitespace-separated IPv4 addresses in
//! dotted-quad form, each octet written as a canonical decimal number
//! (no leading zeros), become lists of four-octet arrays.

use vstd::prelude::*;

verus! {

/// An ASCII space, the token separator of the wire format.
pub open spec fn is_space(c: u8) -> bool {
    c == 32
}

/// An ASCII decimal digit.
pub open spec fn is_digit(c: u8) -> bool {
    48 <= c <= 57
}

/// The canonical decimal spelling of a non-negative number, as ASCII
/// bytes.
pub open spec fn dec_bytes(n: int) -> Seq<u8>
    decreases n,
{
    if n < 10 {
        seq![(48 + n) as u8]
    } else {
        dec_bytes(n / 10).push((48 + n % 10) as u8)
    }
}

/// The four octets of an address in dotted-quad form.
pub open spec fn quad_bytes(a: int, b: int, c: int, d: int) -> Seq<u8> {
    dec_bytes(a) + seq![46u8] + dec_bytes(b) + seq![46u8] + dec_bytes(c) + seq![46u8] + dec_bytes(
        d,
    )
}

/// A well-formed address token: the dotted-quad spelling of some
/// address.
pub open spec fn valid_ipv4(s: Seq<u8>) -> bool {
    exists|a: int, b: int, c: int, d: int|
        0 <= a < 256 && 0 <= b < 256 && 0 <= c < 256 && 0 <= d < 256 && s == #[trigger] quad_bytes(
            a,
            b,
            c,
            d,
        )
}

/// The length of the leading run of non-space bytes.
pub open spec fn run_len(s: Seq<u8>) -> int
    decreases s.len(),
{
    if s.len() == 0 || is_space(s[0]) {
        0
    } else {
        1 + run_len(s.drop_first())
    }
}

pub proof fn lemma_run_len_bounds(s: Seq<u8>)
    ensures
        0 <= run_len(s) <= s.len(),
        s.len() > 0 && !is_space(s[0]) ==> run_len(s) >= 1,
    decreases s.len(),
{
    if s.len() > 0 && !is_space(s[0]) {
        lemma_run_len_bounds(s.drop_first());
    }
}

/// The space-separated tokens of a payload, in order.
pub open spec fn tokens(s: Seq<u8>) -> Seq<Seq<u8>>
    decreases s.len(),
    via tokens_decreases
{
    if s.len() == 0 {
        Seq::empty()
    } else if is_space(s[0]) {
        tokens(s.drop_first())
    } else {
        seq![s.take(run_len(s))] + tokens(s.skip(run_len(s)))
    }
}

#[via_fn]
proof fn tokens_decreases(s: Seq<u8>) {
    lemma_run_len_bounds(s);
}

// ---------------------------------------------------------------------------
// Facts about decimal spellings
// ---------------------------------------------------------------------------

pub proof fn lemma_dec_bytes_digits(n: int)
    requires
        n >= 0,
    ensures
        dec_bytes(n).len() >= 1,
        forall|i: int| 0 <= i < dec_bytes(n).len() ==> is_digit(#[trigger] dec_bytes(n)[i]),
        n < 10 ==> dec_bytes(n).len() == 1,
        n >= 10 ==> dec_bytes(n).len() >= 2,
        n < 100 ==> dec_bytes(n).len() <= 2,
        n < 1000 ==> dec_bytes(n).len() <= 3,
    decreases n,
{
    if n >= 10 {
        lemma_dec_bytes_digits(n / 10);
    }
}

/// Reading the digits of a spelling from the left recovers the number:
/// the value of the first `j` digits, extended digit by digit.
pub open spec fn dec_val(s: Seq<u8>) -> int
    decreases s.len(),
{
    if s.len() == 0 {
        0
    } else {
        dec_val(s.drop_last()) * 10 + (s.last() - 48)
    }
}

pub proof fn lemma_dec_val_roundtrip(n: int)
    requires
        n >= 0,
    ensures
        dec_val(dec_bytes(n)) == n,
    decreases n,
{
    if n < 10 {
        assert(dec_bytes(n) == seq![(48 + n) as u8]);
        assert(dec_bytes(n).last() == (48 + n) as u8);
        assert(dec_bytes(n).drop_last() =~= Seq::<u8>::empty());
        assert(dec_val(dec_bytes(n)) == dec_val(Seq::<u8>::empty()) * 10 + ((48 + n) as u8 - 48));
    } else {
        lemma_dec_val_roundtrip(n / 10);
        assert(dec_bytes(n).drop_last() =~= dec_bytes(n / 10));
    }
}

/// A prefix of a digit string never exceeds the whole.
pub proof fn lemma_dec_val_prefix(s: Seq<u8>, j: int)
    requires
        0 <= j <= s.len(),
        forall|i: int| 0 <= i < s.len() ==> is_digit(#[trigger] s[i]),
    ensures
        0 <= dec_val(s.take(j)) <= dec_val(s),
    decreases s.len() - j,
{
    if j == s.len() {
        assert(s.take(j) =~= s);
        lemma_dec_val_nonneg(s);
    } else {
        lemma_dec_val_prefix(s, j + 1);
        let t = s.take(j + 1);
        assert(t.drop_last() =~= s.take(j));
        assert(dec_val(t) == dec_val(s.take(j)) * 10 + (t.last() - 48));
        lemma_dec_val_nonneg(s.take(j));
        assert(dec_val(s.take(j)) * 10 >= dec_val(s.take(j))) by (nonlinear_arith)
            requires
                dec_val(s.take(j)) >= 0,
        ;
    }
}

pub proof fn lemma_dec_val_nonneg(s: Seq<u8>)
    requires
        forall|i: int| 0 <= i < s.len() ==> is_digit(#[trigger] s[i]),
    ensures
        dec_val(s) >= 0,
    decreases s.len(),
{
    if s.len() > 0 {
        assert(forall|i: int|
            0 <= i < s.drop_last().len() ==> is_digit(#[trigger] s.drop_last()[i]));
        lemma_dec_val_nonneg(s.drop_last());
        assert(dec_val(s.drop_last()) * 10 >= 0) by (nonlinear_arith)
            requires
                dec_val(s.drop_last()) >= 0,
        ;
    }
}

/// The value of one more digit on the right.
proof fn lemma_dec_val_step(s: Seq<u8>, j: int)
    requires
        0 <= j < s.len(),
    ensures
        dec_val(s.take(j + 1)) == dec_val(s.take(j)) * 10 + (s[j] - 48),
{
    let t = s.take(j + 1);
    assert(t.drop_last() =~= s.take(j));
    assert(t.last() == s[j]);
}

/// Reads a canonical decimal octet token.
fn dec_octet_value(s: &[u8], start: usize, end: usize) -> (r: u8)
    requires
        start <= end <= s@.len(),
        exists|n: int| 0 <= n < 256 && s@.subrange(start as int, end as int) == #[trigger] dec_bytes(n),
    ensures
        s@.subrange(start as int, end as int) == dec_bytes(r as int),
{
    let ghost t = s@.subrange(start as int, end as int);
    let ghost n = choose|n: int| 0 <= n < 256 && t == dec_bytes(n);
    proof {
        lemma_dec_bytes_digits(n);
        lemma_dec_val_roundtrip(n);
    }
    let mut acc: u32 = 0;
    let mut i: usize = start;
    while i < end
        invariant
            start <= i <= end <= s@.len(),
            t == s@.subrange(start as int, end as int),
            t == dec_bytes(n),
            0 <= n < 256,
            dec_val(t) == n,
            forall|k: int| 0 <= k < t.len() ==> is_digit(#[trigger] t[k]),
            acc == dec_val(t.take(i - start)),
            acc <= 255,
        decreases end - i,
    {
        proof {
            lemma_dec_val_step(t, i - start);
            lemma_dec_val_prefix(t, i - start + 1);
            assert(t[i - start] == s@[i as int]);
        }
        acc = acc * 10 + ((s[i] - 48) as u32);
        i = i + 1;
    }
    proof {
        assert(t.take(t.len() as int) =~= t);
    }
    acc as u8
}

/// Parses one dotted-quad token into its four octets.
pub fn parse_ip(address_str: &[u8]) -> (r: [u8; 4])
    requires
        valid_ipv4(address_str@),
    ensures
        address_str@ == quad_bytes(r[0] as int, r[1] as int, r[2] as int, r[3] as int),
{
    let ghost s = address_str@;
    let ghost (a, b, c, d) = choose|a: int, b: int, c: int, d: int|
        0 <= a < 256 && 0 <= b < 256 && 0 <= c < 256 && 0 <= d < 256 && s == #[trigger] quad_bytes(
            a,
            b,
            c,
            d,
        );
    proof {
        lemma_dec_bytes_digits(a);
        lemma_dec_bytes_digits(b);
        lemma_dec_bytes_digits(c);
        lemma_dec_bytes_digits(d);
    }
    let ghost la = dec_bytes(a).len() as int;
    let ghost lb = dec_bytes(b).len() as int;
    let ghost lc = dec_bytes(c).len() as int;
    let ghost ld = dec_bytes(d).len() as int;
    proof {
        // the three dots sit exactly between the four digit runs
        assert(s.len() == la + lb + lc + ld + 3);
        assert forall|i: int| 0 <= i < s.len() implies (s[i] == 46 <==> (i == la || i == la + lb
            + 1 || i == la + lb + lc + 2)) by {
            if i < la {
                assert(s[i] == dec_bytes(a)[i]);
            } else if i == la {
            } else if i < la + lb + 1 {
                assert(s[i] == dec_bytes(b)[i - la - 1]);
            } else if i == la + lb + 1 {
            } else if i < la + lb + lc + 2 {
                assert(s[i] == dec_bytes(c)[i - la - lb - 2]);
            } else if i == la + lb + lc + 2 {
            } else {
                assert(s[i] == dec_bytes(d)[i - la - lb - lc - 3]);
            }
        }
        assert(s[la] == 46);
        assert(s[la + lb + 1] == 46);
        assert(s[la + lb + lc + 2] == 46);
    }
    let p1 = next_dot(address_str, 0);
    let p2 = next_dot(address_str, p1 + 1);
    let p3 = next_dot(address_str, p2 + 1);
    proof {
        assert(p1 == la);
        assert(p2 == la + lb + 1);
        assert(p3 == la + lb + lc + 2);
        assert(s.subrange(0, p1 as int) =~= dec_bytes(a));
        assert(s.subrange(p1 as int + 1, p2 as int) =~= dec_bytes(b));
        assert(s.subrange(p2 as int + 1, p3 as int) =~= dec_bytes(c));
        assert(s.subrange(p3 as int + 1, s.len() as int) =~= dec_bytes(d));
    }
    let ra = dec_octet_value(address_str, 0, p1);
    let rb = dec_octet_value(address_str, p1 + 1, p2);
    let rc = dec_octet_value(address_str, p2 + 1, p3);
    let rd = dec_octet_value(address_str, p3 + 1, address_str.len());
    let r = [ra, rb, rc, rd];
    proof {
        assert(s =~= quad_bytes(r[0] as int, r[1] as int, r[2] as int, r[3] as int));
    }
    r
}

/// The index of the first `.` at or after `from`.
fn next_dot(s: &[u8], from: usize) -> (r: usize)
    requires
        from <= s@.len(),
        exists|i: int| from <= i < s@.len() && s@[i] == 46,
    ensures
        from <= r < s@.len(),
        s@[r as int] == 46,
        forall|i: int| from <= i < r ==> s@[i] != 46,
{
    let mut i: usize = from;
    loop
        invariant
            from <= i <= s@.len(),
            exists|k: int| i <= k < s@.len() && s@[k] == 46,
            forall|k: int| from <= k < i ==> s@[k] != 46,
        decreases s@.len() - i,
    {
        if s[i] == 46 {
            return i;
        }
        i = i + 1;
    }
}


/// One token spells the given four octets.
pub open spec fn token_is_quad(t: Seq<u8>, r: [u8; 4]) -> bool {
    t == quad_bytes(r[0] as int, r[1] as int, r[2] as int, r[3] as int)
}

/// The dots of a dotted quad sit exactly between the four digit runs.
proof fn lemma_quad_chars(s: Seq<u8>, a: int, b: int, c: int, d: int)
    requires
        0 <= a < 256,
        0 <= b < 256,
        0 <= c < 256,
        0 <= d < 256,
        s == quad_bytes(a, b, c, d),
    ensures
        s.len() == dec_bytes(a).len() + dec_bytes(b).len() + dec_bytes(c).len() + dec_bytes(
            d,
        ).len() + 3,
        forall|i: int|
            0 <= i < s.len() ==> (s[i] == 46 <==> (i == dec_bytes(a).len() || i == dec_bytes(
                a,
            ).len() + dec_bytes(b).len() + 1 || i == dec_bytes(a).len() + dec_bytes(b).len()
                + dec_bytes(c).len() + 2)),
        s.subrange(0, dec_bytes(a).len() as int) == dec_bytes(a),
        s.subrange(
            dec_bytes(a).len() as int + 1,
            dec_bytes(a).len() as int + dec_bytes(b).len() as int + 1,
        ) == dec_bytes(b),
        s.subrange(
            dec_bytes(a).len() as int + dec_bytes(b).len() as int + 2,
            dec_bytes(a).len() as int + dec_bytes(b).len() as int + dec_bytes(c).len() as int
                + 2,
        ) == dec_bytes(c),
        s.subrange(
            dec_bytes(a).len() as int + dec_bytes(b).len() as int + dec_bytes(c).len() as int
                + 3,
            s.len() as int,
        ) == dec_bytes(d),
{
    lemma_dec_bytes_digits(a);
    lemma_dec_bytes_digits(b);
    lemma_dec_bytes_digits(c);
    lemma_dec_bytes_digits(d);
    let la = dec_bytes(a).len() as int;
    let lb = dec_bytes(b).len() as int;
    let lc = dec_bytes(c).len() as int;
    assert forall|i: int| 0 <= i < s.len() implies (s[i] == 46 <==> (i == la || i == la + lb + 1
        || i == la + lb + lc + 2)) by {
        if i < la {
            assert(s[i] == dec_bytes(a)[i]);
        } else if i == la {
        } else if i < la + lb + 1 {
            assert(s[i] == dec_bytes(b)[i - la - 1]);
        } else if i == la + lb + 1 {
        } else if i < la + lb + lc + 2 {
            assert(s[i] == dec_bytes(c)[i - la - lb - 2]);
        } else if i == la + lb + lc + 2 {
        } else {
            assert(s[i] == dec_bytes(d)[i - la - lb - lc - 3]);
        }
    }
    assert(s.subrange(0, la) =~= dec_bytes(a));
    assert(s.subrange(la + 1, la + lb + 1) =~= dec_bytes(b));
    assert(s.subrange(la + lb + 2, la + lb + lc + 2) =~= dec_bytes(c));
    assert(s.subrange(la + lb + lc + 3, s.len() as int) =~= dec_bytes(d));
}

/// A canonical spelling never starts with a superfluous zero.
proof fn lemma_dec_bytes_no_leading_zero(n: int)
    requires
        n >= 0,
    ensures
        dec_bytes(n).len() > 1 ==> dec_bytes(n)[0] != 48,
    decreases n,
{
    lemma_dec_bytes_digits(n);
    if n >= 10 {
        lemma_dec_bytes_digits(n / 10);
        assert(dec_bytes(n)[0] == dec_bytes(n / 10)[0]);
        if n / 10 < 10 {
            assert(dec_bytes(n / 10)[0] == (48 + n / 10) as u8);
            assert(n / 10 >= 1);
        } else {
            lemma_dec_bytes_no_leading_zero(n / 10);
        }
    }
}

/// A nonempty digit string without a superfluous leading zero is the
/// canonical spelling of its value.
proof fn lemma_canonical_format(t: Seq<u8>)
    requires
        t.len() >= 1,
        forall|i: int| 0 <= i < t.len() ==> is_digit(#[trigger] t[i]),
        t.len() > 1 ==> t[0] != 48,
    ensures
        t == dec_bytes(dec_val(t)),
        dec_val(t) >= 0,
    decreases t.len(),
{
    lemma_dec_val_nonneg(t);
    if t.len() == 1 {
        assert(t.drop_last() =~= Seq::<u8>::empty());
        assert(t.last() == t[0]);
        assert(dec_val(Seq::<u8>::empty()) == 0);
        assert(dec_val(t) == t[0] - 48);
        assert(dec_bytes(dec_val(t)) =~= t);
    } else {
        let h = t.drop_last();
        assert(forall|i: int| 0 <= i < h.len() ==> is_digit(#[trigger] h[i]));
        lemma_canonical_format(h);
        assert(dec_val(h) >= 1) by {
            lemma_dec_val_first_digit(h);
        }
        let v = dec_val(t);
        assert(v == dec_val(h) * 10 + (t.last() - 48));
        assert(v >= 10) by (nonlinear_arith)
            requires
                dec_val(h) >= 1,
                t.last() - 48 >= 0,
                v == dec_val(h) * 10 + (t.last() - 48),
        ;
        assert(v / 10 == dec_val(h) && v % 10 == t.last() - 48) by (nonlinear_arith)
            requires
                v == dec_val(h) * 10 + (t.last() - 48),
                0 <= t.last() - 48 < 10,
        ;
        assert(dec_bytes(v) == dec_bytes(dec_val(h)).push((48 + v % 10) as u8));
        assert(dec_bytes(v) =~= t);
    }
}

/// A digit string with a nonzero leading digit has a positive value.
proof fn lemma_dec_val_first_digit(t: Seq<u8>)
    requires
        t.len() >= 1,
        forall|i: int| 0 <= i < t.len() ==> is_digit(#[trigger] t[i]),
        t[0] != 48,
    ensures
        dec_val(t) >= 1,
    decreases t.len(),
{
    if t.len() == 1 {
        assert(t.drop_last() =~= Seq::<u8>::empty());
        assert(dec_val(Seq::<u8>::empty()) == 0);
        assert(t.last() == t[0]);
        assert(dec_val(t) == t[0] - 48);
    } else {
        let h = t.drop_last();
        assert(forall|i: int| 0 <= i < h.len() ==> is_digit(#[trigger] h[i]));
        assert(h[0] == t[0]);
        lemma_dec_val_first_digit(h);
        assert(dec_val(h) * 10 >= 10) by (nonlinear_arith)
            requires
                dec_val(h) >= 1,
        ;
        assert(dec_val(t) == dec_val(h) * 10 + (t.last() - 48));
    }
}

/// Checks one octet token, accepting exactly the canonical spellings of
/// the values 0 to 255.
fn check_octet(s: &[u8], start: usize, end: usize) -> (r: Option<u8>)
    requires
        start <= end <= s@.len(),
    ensures
        match r {
            Option::Some(v) => s@.subrange(start as int, end as int) == dec_bytes(v as int),
            Option::None => forall|n: int|
                0 <= n < 256 ==> s@.subrange(start as int, end as int) != #[trigger] dec_bytes(
                    n,
                ),
        },
{
    let ghost t = s@.subrange(start as int, end as int);
    let len = end - start;
    if len < 1 || len > 3 {
        proof {
            assert forall|n: int| 0 <= n < 256 implies t != #[trigger] dec_bytes(n) by {
                lemma_dec_bytes_digits(n);
            }
        }
        return None;
    }
    let mut i: usize = start;
    let mut acc: u32 = 0;
    while i < end
        invariant
            start <= i <= end <= s@.len(),
            t == s@.subrange(start as int, end as int),
            1 <= end - start <= 3,
            forall|k: int| 0 <= k < i - start ==> is_digit(#[trigger] t[k]),
            acc == dec_val(t.take(i - start)),
            acc < 1000,
            i - start < 3 ==> acc < 100,
            i - start < 2 ==> acc < 10,
            i - start < 1 ==> acc < 1,
        decreases end - i,
    {
        let ch = s[i];
        if ch < 48 || ch > 57 {
            proof {
                assert(t[i - start] == ch);
                assert forall|n: int| 0 <= n < 256 implies t != #[trigger] dec_bytes(n) by {
                    lemma_dec_bytes_digits(n);
                }
            }
            return None;
        }
        proof {
            lemma_dec_val_step(t, i - start);
            assert(t[i - start] == s@[i as int]);
        }
        acc = acc * 10 + ((ch - 48) as u32);
        i = i + 1;
    }
    proof {
        assert(t.take(t.len() as int) =~= t);
        assert(forall|k: int| 0 <= k < t.len() ==> is_digit(#[trigger] t[k]));
    }
    if len > 1 && s[start] == 48 {
        proof {
            assert(t[0] == 48);
            assert forall|n: int| 0 <= n < 256 implies t != #[trigger] dec_bytes(n) by {
                lemma_dec_bytes_no_leading_zero(n);
                lemma_dec_bytes_digits(n);
            }
        }
        return None;
    }
    if acc > 255 {
        proof {
            assert forall|n: int| 0 <= n < 256 implies t != #[trigger] dec_bytes(n) by {
                if t == dec_bytes(n) {
                    lemma_dec_val_roundtrip(n);
                }
            }
        }
        return None;
    }
    proof {
        lemma_canonical_format(t);
    }
    Some(acc as u8)
}

/// Checks one token, returning its octets exactly when it is a
/// well-formed dotted quad.
#[verifier::rlimit(100)]
pub fn parse_ip_checked(token: &[u8]) -> (r: Option<[u8; 4]>)
    ensures
        match r {
            Option::Some(v) => token_is_quad(token@, v) && valid_ipv4(token@),
            Option::None => !valid_ipv4(token@),
        },
{
    let ghost t = token@;
    // find the dot positions
    let mut dots: [usize; 3] = [0; 3];
    let mut ndots: usize = 0;
    let mut i: usize = 0;
    while i < token.len()
        invariant
            i <= t.len(),
            t == token@,
            ndots <= 3,
            forall|k: int| 0 <= k < ndots ==> dots@[k] < i && t[#[trigger] dots@[k] as int] == 46,
            forall|k1: int, k2: int| 0 <= k1 < k2 < ndots ==> dots@[k1] < dots@[k2],
            forall|j: int|
                0 <= j < i ==> (t[j] == 46 <==> exists|k: int|
                    0 <= k < ndots && #[trigger] dots@[k] as int == j),
        decreases t.len() - i,
    {
        if token[i] == 46 {
            if ndots == 3 {
                // a fourth dot: no dotted quad has one
                proof {
                    if valid_ipv4(t) {
                        let (a, b, c, d) = choose|a: int, b: int, c: int, d: int|
                            0 <= a < 256 && 0 <= b < 256 && 0 <= c < 256 && 0 <= d < 256 && t
                                == #[trigger] quad_bytes(a, b, c, d);
                        lemma_quad_chars(t, a, b, c, d);
                        let la = dec_bytes(a).len() as int;
                        let lb = dec_bytes(b).len() as int;
                        let lc = dec_bytes(c).len() as int;
                        assert(dots@[0] as int == la && dots@[1] as int == la + lb + 1 && dots@[2]
                            as int == la + lb + lc + 2) by {
                            assert(t[dots@[0] as int] == 46);
                            assert(t[dots@[1] as int] == 46);
                            assert(t[dots@[2] as int] == 46);
                        }
                        assert(false);
                    }
                }
                return None;
            }
            let ghost olddots = dots@;
            let ghost oldn = ndots as int;
            dots[ndots] = i;
            ndots = ndots + 1;
            proof {
                assert forall|j: int|
                    0 <= j < i + 1 implies (t[j] == 46 <==> exists|k: int|
                    0 <= k < ndots && #[trigger] dots@[k] as int == j) by {
                    if t[j] == 46 {
                        if j == i as int {
                            assert(dots@[oldn] as int == j);
                        } else {
                            let k = choose|k: int|
                                0 <= k < oldn && #[trigger] olddots[k] as int == j;
                            assert(dots@[k] as int == j);
                        }
                    } else {
                        if exists|k: int| 0 <= k < ndots && #[trigger] dots@[k] as int == j {
                            let k = choose|k: int|
                                0 <= k < ndots && #[trigger] dots@[k] as int == j;
                            assert(t[dots@[k] as int] == 46);
                        }
                    }
                }
            }
        } else {
            proof {
                assert forall|j: int|
                    0 <= j < i + 1 implies (t[j] == 46 <==> exists|k: int|
                    0 <= k < ndots && #[trigger] dots@[k] as int == j) by {
                    if j == i as int {
                        if exists|k: int| 0 <= k < ndots && #[trigger] dots@[k] as int == j {
                            let k = choose|k: int|
                                0 <= k < ndots && #[trigger] dots@[k] as int == j;
                            assert(dots@[k] < i);
                        }
                    }
                }
            }
        }
        i = i + 1;
    }
    if ndots != 3 {
        proof {
            if valid_ipv4(t) {
                let (a, b, c, d) = choose|a: int, b: int, c: int, d: int|
                    0 <= a < 256 && 0 <= b < 256 && 0 <= c < 256 && 0 <= d < 256 && t
                        == #[trigger] quad_bytes(a, b, c, d);
                lemma_quad_chars(t, a, b, c, d);
                let la = dec_bytes(a).len() as int;
                let lb = dec_bytes(b).len() as int;
                let lc = dec_bytes(c).len() as int;
                assert(t[la] == 46 && t[la + lb + 1] == 46 && t[la + lb + lc + 2] == 46);
                assert(exists|k: int| 0 <= k < ndots && #[trigger] dots@[k] as int == la);
                assert(exists|k: int| 0 <= k < ndots && #[trigger] dots@[k] as int == la + lb
                    + 1);
                assert(exists|k: int|
                    0 <= k < ndots && #[trigger] dots@[k] as int == la + lb + lc + 2);
                assert(ndots >= 3);
                assert(false);
            }
        }
        return None;
    }
    let d1 = dots[0];
    let d2 = dots[1];
    let d3 = dots[2];
    proof {
        assert(d1 < d2 < d3 < t.len());
        if valid_ipv4(t) {
            let (a, b, c, d) = choose|a: int, b: int, c: int, d: int|
                0 <= a < 256 && 0 <= b < 256 && 0 <= c < 256 && 0 <= d < 256 && t
                    == #[trigger] quad_bytes(a, b, c, d);
            lemma_quad_chars(t, a, b, c, d);
            let la = dec_bytes(a).len() as int;
            let lb = dec_bytes(b).len() as int;
            let lc = dec_bytes(c).len() as int;
            // the collected dots are the three characteristic positions
            assert(t[la] == 46 && t[la + lb + 1] == 46 && t[la + lb + lc + 2] == 46);
            let k1 = choose|k: int| 0 <= k < 3 && #[trigger] dots@[k] as int == la;
            let k2 = choose|k: int| 0 <= k < 3 && #[trigger] dots@[k] as int == la + lb + 1;
            let k3 = choose|k: int|
                0 <= k < 3 && #[trigger] dots@[k] as int == la + lb + lc + 2;
            assert(k1 == 0 && k2 == 1 && k3 == 2) by {
                assert(dots@[k1] < dots@[k2] || k2 <= k1);
                assert(dots@[0] as int == la || dots@[0] as int == la + lb + 1 || dots@[0]
                    as int == la + lb + lc + 2);
                assert(dots@[1] as int == la || dots@[1] as int == la + lb + 1 || dots@[1]
                    as int == la + lb + lc + 2);
                assert(dots@[2] as int == la || dots@[2] as int == la + lb + 1 || dots@[2]
                    as int == la + lb + lc + 2);
            }
            assert(d1 as int == la && d2 as int == la + lb + 1 && d3 as int == la + lb + lc + 2);
        }
    }
    let pa = check_octet(token, 0, d1);
    let pb = check_octet(token, d1 + 1, d2);
    let pc = check_octet(token, d2 + 1, d3);
    let pd = check_octet(token, d3 + 1, token.len());
    match (pa, pb, pc, pd) {
        (Some(va), Some(vb), Some(vc), Some(vd)) => {
            let r = [va, vb, vc, vd];
            proof {
                assert(t =~= quad_bytes(va as int, vb as int, vc as int, vd as int)) by {
                    assert(t.subrange(0, d1 as int) == dec_bytes(va as int));
                    assert(t.subrange(d1 as int + 1, d2 as int) == dec_bytes(vb as int));
                    assert(t.subrange(d2 as int + 1, d3 as int) == dec_bytes(vc as int));
                    assert(t.subrange(d3 as int + 1, t.len() as int) == dec_bytes(vd as int));
                    lemma_dec_bytes_digits(va as int);
                    lemma_dec_bytes_digits(vb as int);
                    lemma_dec_bytes_digits(vc as int);
                    lemma_dec_bytes_digits(vd as int);
                }
            }
            Some(r)
        },
        _ => {
            proof {
                if valid_ipv4(t) {
                    let (a, b, c, d) = choose|a: int, b: int, c: int, d: int|
                        0 <= a < 256 && 0 <= b < 256 && 0 <= c < 256 && 0 <= d < 256 && t
                            == #[trigger] quad_bytes(a, b, c, d);
                    lemma_quad_chars(t, a, b, c, d);
                    assert(false);
                }
            }
            None
        },
    }
}


/// The leading run of a sequence that starts with `k` non-space bytes
/// followed by a space (or the end) has length exactly `k`.
proof fn lemma_run_len_of_run(s: Seq<u8>, k: int)
    requires
        0 <= k <= s.len(),
        forall|j: int| 0 <= j < k ==> !is_space(#[trigger] s[j]),
        k == s.len() || is_space(s[k]),
    ensures
        run_len(s) == k,
    decreases k,
{
    if k == 0 {
    } else {
        let r = s.drop_first();
        assert forall|j: int| 0 <= j < k - 1 implies !is_space(#[trigger] r[j]) by {
            assert(r[j] == s[j + 1]);
        }
        if k - 1 < r.len() {
            assert(r[k - 1] == s[k]);
        }
        lemma_run_len_of_run(r, k - 1);
    }
}

/// A space (or the start of the payload) begins the token scan anew.
proof fn lemma_tokens_skip_space(s: Seq<u8>, i: int)
    requires
        0 <= i < s.len(),
        is_space(s[i]),
    ensures
        tokens(s.skip(i)) == tokens(s.skip(i + 1)),
{
    assert(s.skip(i)[0] == s[i]);
    assert(s.skip(i).drop_first() =~= s.skip(i + 1));
}

/// Splitting off the leading token of a suffix that starts with a run of
/// `k` non-space bytes.
proof fn lemma_tokens_emit(s: Seq<u8>, from: int, i: int)
    requires
        0 <= from < i <= s.len(),
        forall|j: int| from <= j < i ==> !is_space(#[trigger] s[j]),
        i == s.len() || is_space(s[i]),
    ensures
        tokens(s.skip(from)) == seq![s.subrange(from, i)] + tokens(s.skip(i)),
{
    let r = s.skip(from);
    let k = i - from;
    assert forall|j: int| 0 <= j < k implies !is_space(#[trigger] r[j]) by {
        assert(r[j] == s[from + j]);
    }
    if k < r.len() {
        assert(r[k] == s[i]);
    }
    lemma_run_len_of_run(r, k);
    assert(r[0] == s[from]);
    assert(!is_space(r[0]));
    assert(tokens(r) == seq![r.take(k)] + tokens(r.skip(k)));
    assert(r.take(k) =~= s.subrange(from, i));
    assert(r.skip(k) =~= s.skip(i));
}

/// Splits a payload at single spaces and parses every token as a
/// dotted-quad address.  The wire format promises well-formed tokens;
/// payloads that break that promise are the receiver's to reject.
pub fn simple_parser(bytes: &[u8]) -> (r: Result<Vec<[u8; 4]>, String>)
    requires
        bytes@.len() < 0x8000_0000_0000_0000,
        forall|k: int|
            0 <= k < tokens(bytes@).len() ==> valid_ipv4(#[trigger] tokens(bytes@)[k]),
    ensures
        match r {
            Result::Ok(v) => v@.len() == tokens(bytes@).len() && (forall|k: int|
                0 <= k < v@.len() ==> token_is_quad(#[trigger] tokens(bytes@)[k], v@[k])),
            Result::Err(_) => false,
        },
{
    let ghost s = bytes@;
    let mut from: i64 = -1;
    let mut ip_vec: Vec<[u8; 4]> = Vec::new();
    let mut i: usize = 0;
    proof {
        assert(s.skip(0) =~= s);
    }
    while i < bytes.len()
        invariant
            i <= s.len(),
            s == bytes@,
            s.len() < 0x8000_0000_0000_0000,
            forall|k: int| 0 <= k < tokens(s).len() ==> valid_ipv4(#[trigger] tokens(s)[k]),
            from == -1 || 0 <= from < i as int,
            from >= 0 ==> forall|j: int| from <= j < i as int ==> !is_space(#[trigger] s[j]),
            forall|k: int|
                0 <= k < ip_vec@.len() ==> token_is_quad(#[trigger] tokens(s)[k], ip_vec@[k]),
            tokens(s).skip(ip_vec@.len() as int) == (if from >= 0 {
                tokens(s.skip(from as int))
            } else {
                tokens(s.skip(i as int))
            }),
            tokens(s).len() >= ip_vec@.len(),
        decreases s.len() - i,
    {
        let byte = bytes[i];
        if byte != 32 && from < 0 {
            from = i as i64;
        } else if byte == 32 && from >= 0 {
            proof {
                lemma_tokens_emit(s, from as int, i as int);
                let ghost gl = ip_vec@.len() as int;
                assert(tokens(s).skip(gl).len() == tokens(s).len() - gl);
                assert(tokens(s).skip(gl)[0] == s.subrange(from as int, i as int));
                assert(tokens(s).skip(gl)[0] == tokens(s)[gl]);
                assert(tokens(s)[gl] == s.subrange(from as int, i as int));
                assert(gl < tokens(s).len());
            }
            let token = &bytes[from as usize..i];
            proof {
                assert(token@ == s.subrange(from as int, i as int));
            }
            ip_vec.push(parse_ip(token));
            from = -1;
            proof {
                lemma_tokens_skip_space(s, i as int);
                assert(tokens(s).skip(ip_vec@.len() as int) =~= tokens(s).skip(
                    (ip_vec@.len() - 1) as int,
                ).drop_first());
            }
        } else if byte == 32 {
            proof {
                lemma_tokens_skip_space(s, i as int);
            }
        }
        i = i + 1;
    }
    if from >= 0 {
        proof {
            lemma_tokens_emit(s, from as int, s.len() as int);
            let ghost gl = ip_vec@.len() as int;
            assert(tokens(s).skip(gl).len() == tokens(s).len() - gl);
            assert(tokens(s).skip(gl)[0] == s.subrange(from as int, s.len() as int));
            assert(tokens(s).skip(gl)[0] == tokens(s)[gl]);
            assert(tokens(s)[gl] == s.subrange(from as int, s.len() as int));
            assert(gl < tokens(s).len());
        }
        let token = &bytes[from as usize..bytes.len()];
        proof {
            assert(token@ == s.subrange(from as int, s.len() as int));
        }
        ip_vec.push(parse_ip(token));
        proof {
            assert(s.skip(s.len() as int).len() == 0);
            assert(tokens(s).skip(ip_vec@.len() as int) =~= tokens(s).skip(
                (ip_vec@.len() - 1) as int,
            ).drop_first());
            assert(tokens(s).skip(ip_vec@.len() as int).len() == 0);
        }
    } else {
        proof {
            assert(s.skip(s.len() as int).len() == 0);
            assert(tokens(s).skip(ip_vec@.len() as int).len() == 0);
        }
    }
    Ok(ip_vec)
}

/// Splits a payload at single spaces, checking every token: the result
/// is the parsed address list exactly when every token is a well-formed
/// dotted quad, and an error otherwise.
pub fn nom_ip_parser(stream: &[u8]) -> (r: Result<Vec<[u8; 4]>, String>)
    requires
        stream@.len() < 0x8000_0000_0000_0000,
    ensures
        match r {
            Result::Ok(v) => (forall|k: int|
                0 <= k < tokens(stream@).len() ==> valid_ipv4(#[trigger] tokens(stream@)[k]))
                && v@.len() == tokens(stream@).len() && (forall|k: int|
                0 <= k < v@.len() ==> token_is_quad(#[trigger] tokens(stream@)[k], v@[k])),
            Result::Err(_) => exists|k: int|
                0 <= k < tokens(stream@).len() && !valid_ipv4(#[trigger] tokens(stream@)[k]),
        },
{
    let ghost s = stream@;
    let mut from: i64 = -1;
    let mut ip_vec: Vec<[u8; 4]> = Vec::new();
    let mut i: usize = 0;
    proof {
        assert(s.skip(0) =~= s);
    }
    while i < stream.len()
        invariant
            i <= s.len(),
            s == stream@,
            s.len() < 0x8000_0000_0000_0000,
            from == -1 || 0 <= from < i as int,
            from >= 0 ==> forall|j: int| from <= j < i as int ==> !is_space(#[trigger] s[j]),
            forall|k: int|
                0 <= k < ip_vec@.len() ==> valid_ipv4(#[trigger] tokens(s)[k]) && token_is_quad(
                    tokens(s)[k],
                    ip_vec@[k],
                ),
            tokens(s).skip(ip_vec@.len() as int) == (if from >= 0 {
                tokens(s.skip(from as int))
            } else {
                tokens(s.skip(i as int))
            }),
            tokens(s).len() >= ip_vec@.len(),
        decreases s.len() - i,
    {
        let byte = stream[i];
        if byte != 32 && from < 0 {
            from = i as i64;
        } else if byte == 32 && from >= 0 {
            proof {
                lemma_tokens_emit(s, from as int, i as int);
                let ghost gl = ip_vec@.len() as int;
                assert(tokens(s).skip(gl).len() == tokens(s).len() - gl);
                assert(tokens(s).skip(gl)[0] == s.subrange(from as int, i as int));
                assert(tokens(s).skip(gl)[0] == tokens(s)[gl]);
                assert(tokens(s)[gl] == s.subrange(from as int, i as int));
                assert(gl < tokens(s).len());
            }
            let token = &stream[from as usize..i];
            match parse_ip_checked(token) {
                Option::Some(v) => {
                    ip_vec.push(v);
                },
                Option::None => {
                    return Err("Error occurred during parsing: malformed address".to_string());
                },
            }
            from = -1;
            proof {
                lemma_tokens_skip_space(s, i as int);
                assert(tokens(s).skip(ip_vec@.len() as int) =~= tokens(s).skip(
                    (ip_vec@.len() - 1) as int,
                ).drop_first());
            }
        } else if byte == 32 {
            proof {
                lemma_tokens_skip_space(s, i as int);
            }
        }
        i = i + 1;
    }
    if from >= 0 {
        proof {
            lemma_tokens_emit(s, from as int, s.len() as int);
            let ghost gl = ip_vec@.len() as int;
            assert(tokens(s).skip(gl).len() == tokens(s).len() - gl);
            assert(tokens(s).skip(gl)[0] == s.subrange(from as int, s.len() as int));
            assert(tokens(s).skip(gl)[0] == tokens(s)[gl]);
            assert(tokens(s)[gl] == s.subrange(from as int, s.len() as int));
            assert(gl < tokens(s).len());
        }
        let token = &stream[from as usize..stream.len()];
        match parse_ip_checked(token) {
            Option::Some(v) => {
                ip_vec.push(v);
            },
            Option::None => {
                return Err("Error occurred during parsing: malformed address".to_string());
            },
        }
        proof {
            assert(s.skip(s.len() as int).len() == 0);
            assert(tokens(s).skip(ip_vec@.len() as int) =~= tokens(s).skip(
                (ip_vec@.len() - 1) as int,
            ).drop_first());
            assert(tokens(s).skip(ip_vec@.len() as int).len() == 0);
        }
    } else {
        proof {
            assert(s.skip(s.len() as int).len() == 0);
            assert(tokens(s).skip(ip_vec@.len() as int).len() == 0);
        }
    }
    Ok(ip_vec)
}

} // verus!
