//! Formatting of CIDR pairs for the datagram output: `a.b.c.d/m` tokens,
//! greedily packed into space-joined chunks that fit a conservative UDP
//! payload size.

use vstd::prelude::*;

verus! {

use vstd::string::StringExecFns;
use vstd::utf8::{is_ascii_chars, is_ascii_chars_encode_utf8};

/// The largest payload one output datagram may carry.
pub const MAX_UDP_DATAGRAM_PAYLOAD_SIZE: usize = 508;

/// One decimal digit as a character.
pub open spec fn digit_char(d: int) -> char {
    if d == 0 {
        '0'
    } else if d == 1 {
        '1'
    } else if d == 2 {
        '2'
    } else if d == 3 {
        '3'
    } else if d == 4 {
        '4'
    } else if d == 5 {
        '5'
    } else if d == 6 {
        '6'
    } else if d == 7 {
        '7'
    } else if d == 8 {
        '8'
    } else {
        '9'
    }
}

/// The canonical decimal spelling of a non-negative number, as
/// characters.
pub open spec fn dec_chars(n: int) -> Seq<char>
    decreases n,
{
    if n < 10 {
        seq![digit_char(n)]
    } else {
        dec_chars(n / 10).push(digit_char(n % 10))
    }
}

/// The text form of one CIDR pair: the four octets of the prefix in
/// dotted-quad form, a slash, and the mask length.
pub open spec fn cidr_chars(ip: u32, mask: u8) -> Seq<char> {
    dec_chars((ip >> 24u32) as int) + seq!['.'] + dec_chars(((ip >> 16u32) & 0xff) as int)
        + seq!['.'] + dec_chars(((ip >> 8u32) & 0xff) as int) + seq!['.'] + dec_chars(
        (ip & 0xff) as int,
    ) + seq!['/'] + dec_chars(mask as int)
}

/// The first `k` items joined with single spaces.
pub open spec fn joined(items: Seq<Seq<char>>, k: int) -> Seq<char>
    decreases k,
{
    if k <= 0 {
        Seq::empty()
    } else if k == 1 {
        items[0]
    } else {
        joined(items, k - 1) + seq![' '] + items[k - 1]
    }
}

/// The largest prefix of the items whose space-joined form fits in
/// `max`, starting the search at `k` already-fitting items.
pub open spec fn fit_count(items: Seq<Seq<char>>, max: int, k: int) -> int
    decreases items.len() - k,
{
    if k < 0 || k >= items.len() || joined(items, k + 1).len() > max {
        k
    } else {
        fit_count(items, max, k + 1)
    }
}

pub proof fn lemma_fit_count_bounds(items: Seq<Seq<char>>, max: int, k: int)
    requires
        0 <= k <= items.len(),
        joined(items, k).len() <= max,
    ensures
        k <= fit_count(items, max, k) <= items.len(),
        joined(items, fit_count(items, max, k)).len() <= max,
        fit_count(items, max, k) < items.len() ==> joined(
            items,
            fit_count(items, max, k) + 1,
        ).len() > max,
    decreases items.len() - k,
{
    if !(k >= items.len() || joined(items, k + 1).len() > max) {
        lemma_fit_count_bounds(items, max, k + 1);
    }
}

proof fn lemma_dec_chars_len(n: int)
    requires
        0 <= n,
    ensures
        dec_chars(n).len() >= 1,
        n < 10 ==> dec_chars(n).len() == 1,
        n < 100 ==> dec_chars(n).len() <= 2,
        n < 1000 ==> dec_chars(n).len() <= 3,
        forall|i: int| 0 <= i < dec_chars(n).len() ==> '0' <= #[trigger] dec_chars(n)[i] <= '9',
    decreases n,
{
    if n >= 10 {
        lemma_dec_chars_len(n / 10);
    }
}

proof fn bv_octet_bounds(ip: u32)
    by (bit_vector)
    ensures
        (ip >> 24u32) < 256,
        ((ip >> 16u32) & 0xff) < 256,
        ((ip >> 8u32) & 0xff) < 256,
        (ip & 0xff) < 256,
{
}

/// Every CIDR string is short: at most 19 characters, all ASCII.
pub proof fn lemma_cidr_chars_bounds(ip: u32, mask: u8)
    ensures
        1 <= cidr_chars(ip, mask).len() <= 19,
        is_ascii_chars(cidr_chars(ip, mask)),
{
    bv_octet_bounds(ip);
    lemma_dec_chars_len((ip >> 24u32) as int);
    lemma_dec_chars_len(((ip >> 16u32) & 0xff) as int);
    lemma_dec_chars_len(((ip >> 8u32) & 0xff) as int);
    lemma_dec_chars_len((ip & 0xff) as int);
    lemma_dec_chars_len(mask as int);
}

/// One decimal digit as a string slice.
fn digit_str(d: u8) -> (r: &'static str)
    requires
        d <= 9,
    ensures
        r@ == seq![digit_char(d as int)],
{
    proof {
        reveal_strlit("0");
        reveal_strlit("1");
        reveal_strlit("2");
        reveal_strlit("3");
        reveal_strlit("4");
        reveal_strlit("5");
        reveal_strlit("6");
        reveal_strlit("7");
        reveal_strlit("8");
        reveal_strlit("9");
    }
    let r = match d {
        0 => "0",
        1 => "1",
        2 => "2",
        3 => "3",
        4 => "4",
        5 => "5",
        6 => "6",
        7 => "7",
        8 => "8",
        _ => "9",
    };
    proof {
        assert(r@ =~= seq![digit_char(d as int)]);
    }
    r
}

/// Appends the decimal spelling of one byte.
fn push_dec(out: &mut String, n: u8)
    ensures
        final(out)@ == old(out)@ + dec_chars(n as int),
{
    proof {
        lemma_dec_chars_len(n as int);
    }
    if n >= 100 {
        out.append(digit_str(n / 100));
        out.append(digit_str((n / 10) % 10));
        out.append(digit_str(n % 10));
        proof {
            assert(dec_chars(n as int) == dec_chars(n as int / 10).push(
                digit_char(n as int % 10),
            ));
            assert(dec_chars(n as int / 10) == dec_chars(n as int / 100).push(
                digit_char(n as int / 10 % 10),
            ));
            assert(final(out)@ =~= old(out)@ + dec_chars(n as int));
        }
    } else if n >= 10 {
        out.append(digit_str(n / 10));
        out.append(digit_str(n % 10));
        proof {
            assert(dec_chars(n as int) == dec_chars(n as int / 10).push(
                digit_char(n as int % 10),
            ));
            assert(final(out)@ =~= old(out)@ + dec_chars(n as int));
        }
    } else {
        out.append(digit_str(n));
        proof {
            assert(final(out)@ =~= old(out)@ + dec_chars(n as int));
        }
    }
}

/// Renders one CIDR pair as `a.b.c.d/m`.
pub fn make_cidr_ip_string(cidr: &(u32, u8)) -> (r: String)
    ensures
        r@ == cidr_chars(cidr.0, cidr.1),
{
    proof {
        reveal_strlit(".");
        reveal_strlit("/");
        bv_octet_bounds(cidr.0);
    }
    let mut out = String::new();
    push_dec(&mut out, (cidr.0 >> 24u32) as u8);
    out.append(".");
    push_dec(&mut out, ((cidr.0 >> 16u32) & 0xff) as u8);
    out.append(".");
    push_dec(&mut out, ((cidr.0 >> 8u32) & 0xff) as u8);
    out.append(".");
    push_dec(&mut out, (cidr.0 & 0xff) as u8);
    out.append("/");
    push_dec(&mut out, cidr.1);
    proof {
        assert("."@ =~= seq!['.']);
        assert("/"@ =~= seq!['/']);
        assert(out@ =~= cidr_chars(cidr.0, cidr.1));
    }
    out
}

/// The text forms of a list of CIDR pairs.
pub open spec fn cidr_items(cidrs: Seq<(u32, u8)>) -> Seq<Seq<char>> {
    cidrs.map_values(|c: (u32, u8)| cidr_chars(c.0, c.1))
}

/// Joins the longest prefix of the pairs that fits in `max_size`
/// characters when separated by single spaces, and reports how many
/// pairs were taken.
pub fn concat_to_size(strings: &[(u32, u8)], max_size: usize) -> (r: (String, usize))
    requires
        max_size < 0x1000_0000,
        strings@.len() < 0x1000_0000,
    ensures
        r.1 <= strings@.len(),
        r.1 as int == fit_count(cidr_items(strings@), max_size as int, 0),
        joined(cidr_items(strings@), r.1 as int).len() <= max_size,
        r.1 < strings@.len() ==> joined(cidr_items(strings@), r.1 as int + 1).len() > max_size,
        r.0@ == joined(cidr_items(strings@), r.1 as int),
{
    let ghost items = cidr_items(strings@);
    let mut tmp_size: usize = 0;
    let mut chunk_last_idx: usize = 0;
    proof {
        assert(joined(items, 0).len() == 0);
    }
    // how many pairs fit
    while chunk_last_idx < strings.len()
        invariant
            chunk_last_idx <= strings@.len(),
            items == cidr_items(strings@),
            max_size < 0x1000_0000,
            strings@.len() < 0x1000_0000,
            tmp_size == joined(items, chunk_last_idx as int).len(),
            tmp_size <= max_size,
            fit_count(items, max_size as int, 0) == fit_count(
                items,
                max_size as int,
                chunk_last_idx as int,
            ),
        ensures
            chunk_last_idx <= strings@.len(),
            fit_count(items, max_size as int, 0) == chunk_last_idx as int,
        decreases strings@.len() - chunk_last_idx,
    {
        let cidr_str = make_cidr_ip_string(&strings[chunk_last_idx]);
        proof {
            lemma_cidr_chars_bounds(strings@[chunk_last_idx as int].0, strings@[
                chunk_last_idx as int].1);
            assert(items[chunk_last_idx as int] == cidr_chars(strings@[chunk_last_idx as int].0,
                strings@[chunk_last_idx as int].1));
            is_ascii_chars_encode_utf8(cidr_str@);
        }
        let sep: usize = if chunk_last_idx > 0 {
            1
        } else {
            0
        };
        proof {
            assert(joined(items, chunk_last_idx as int + 1).len() == tmp_size + sep + cidr_str@.len());
        }
        if cidr_str.as_str().len() + tmp_size + sep > max_size {
            proof {
                assert(fit_count(items, max_size as int, chunk_last_idx as int)
                    == chunk_last_idx as int);
            }
            break ;
        }
        tmp_size = tmp_size + sep + cidr_str.as_str().len();
        chunk_last_idx = chunk_last_idx + 1;
        proof {
            assert(fit_count(items, max_size as int, chunk_last_idx as int - 1) == fit_count(
                items,
                max_size as int,
                chunk_last_idx as int,
            ));
        }
    }
    let k = chunk_last_idx;
    proof {
        assert(joined(items, 0).len() == 0);
        lemma_fit_count_bounds(items, max_size as int, 0);
    }
    // build the joined text
    let mut out = String::new();
    let mut j: usize = 0;
    proof {
        reveal_strlit(" ");
    }
    while j < k
        invariant
            j <= k <= strings@.len(),
            items == cidr_items(strings@),
            out@ == joined(items, j as int),
        decreases k - j,
    {
        if j > 0 {
            proof {
                reveal_strlit(" ");
                assert(" "@ =~= seq![' ']);
            }
            out.append(" ");
        }
        let cidr_str = make_cidr_ip_string(&strings[j]);
        out.append(cidr_str.as_str());
        j = j + 1;
        proof {
            assert(items[j as int - 1] == cidr_chars(strings@[j as int - 1].0, strings@[j as int
                - 1].1));
            if j == 1 {
                assert(out@ =~= joined(items, j as int));
            } else {
                assert(out@ =~= joined(items, j as int));
            }
        }
    }
    (out, k)
}

/// The chunks the formatter produces for one batch: greedy longest
/// fitting prefixes of the remaining pairs, until the batch is
/// exhausted.
pub open spec fn formatted(cidrs: Seq<(u32, u8)>, max: int) -> Seq<Seq<char>>
    decreases cidrs.len(),
{
    if cidrs.len() == 0 {
        Seq::empty()
    } else {
        let k = fit_count(cidr_items(cidrs), max, 0);
        if k < 1 || k > cidrs.len() {
            Seq::empty()
        } else {
            seq![joined(cidr_items(cidrs), k)] + formatted(cidrs.skip(k), max)
        }
    }
}

/// Formats a batch of CIDR pairs into space-joined datagram payloads,
/// each at most [`MAX_UDP_DATAGRAM_PAYLOAD_SIZE`] characters, until the
/// batch is exhausted.
pub fn simple_formatter(cidrs: Vec<(u32, u8)>) -> (r: Vec<String>)
    requires
        cidrs@.len() < 0x1000_0000,
    ensures
        r@.map_values(|s: String| s@) == formatted(cidrs@, MAX_UDP_DATAGRAM_PAYLOAD_SIZE as int),
{
    let mut from: usize = 0;
    let mut concated_msg: Vec<String> = Vec::new();
    proof {
        assert(cidrs@.skip(0) =~= cidrs@);
        assert(concated_msg@.map_values(|s: String| s@) =~= Seq::<Seq<char>>::empty());
    }
    while from < cidrs.len()
        invariant
            from <= cidrs@.len(),
            cidrs@.len() < 0x1000_0000,
            concated_msg@.map_values(|s: String| s@) + formatted(
                cidrs@.skip(from as int),
                MAX_UDP_DATAGRAM_PAYLOAD_SIZE as int,
            ) == formatted(cidrs@, MAX_UDP_DATAGRAM_PAYLOAD_SIZE as int),
        decreases cidrs@.len() - from,
    {
        let window = &cidrs[from..cidrs.len()];
        let ghost rest = cidrs@.skip(from as int);
        proof {
            assert(window@ =~= rest);
        }
        let (msg, idx) = concat_to_size(window, MAX_UDP_DATAGRAM_PAYLOAD_SIZE);
        proof {
            // at least the first pair always fits in one datagram
            if idx == 0 {
                lemma_cidr_chars_bounds(rest[0].0, rest[0].1);
                assert(cidr_items(rest)[0] == cidr_chars(rest[0].0, rest[0].1));
                assert(joined(cidr_items(rest), 1) == cidr_items(rest)[0]);
                assert(false);
            }
            assert(formatted(rest, MAX_UDP_DATAGRAM_PAYLOAD_SIZE as int) == seq![joined(
                cidr_items(rest),
                idx as int,
            )] + formatted(rest.skip(idx as int), MAX_UDP_DATAGRAM_PAYLOAD_SIZE as int));
        }
        let ghost oldmap = concated_msg@.map_values(|s: String| s@);
        let ghost oldrest = rest;
        let ghost oldidx = idx as int;
        from = from + idx;
        concated_msg.push(msg);
        proof {
            let newmap = concated_msg@.map_values(|s: String| s@);
            assert(newmap =~= oldmap.push(joined(cidr_items(oldrest), oldidx)));
            assert(oldrest.skip(oldidx) =~= cidrs@.skip(from as int));
            assert(newmap + formatted(cidrs@.skip(from as int), MAX_UDP_DATAGRAM_PAYLOAD_SIZE as int)
                =~= oldmap + formatted(oldrest, MAX_UDP_DATAGRAM_PAYLOAD_SIZE as int));
        }
    }
    proof {
        assert(cidrs@.skip(from as int).len() == 0);
        assert(formatted(cidrs@.skip(from as int), MAX_UDP_DATAGRAM_PAYLOAD_SIZE as int)
            =~= Seq::<Seq<char>>::empty());
        assert(concated_msg@.map_values(|s: String| s@) + Seq::<Seq<char>>::empty()
            =~= concated_msg@.map_values(|s: String| s@));
    }
    concated_msg
}


/// Greedy packing of arbitrary items into space-joined chunks.
pub open spec fn packed(items: Seq<Seq<char>>, max: int) -> Seq<Seq<char>>
    decreases items.len(),
{
    if items.len() == 0 {
        Seq::empty()
    } else {
        let k = fit_count(items, max, 0);
        if k < 1 || k > items.len() {
            Seq::empty()
        } else {
            seq![joined(items, k)] + packed(items.skip(k), max)
        }
    }
}

} // verus!
