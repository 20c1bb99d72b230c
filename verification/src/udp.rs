//! The plain-string variant of the output formatter: already-rendered
//! tokens are packed into space-joined datagram payloads of bounded
//! size.

use vstd::prelude::*;

verus! {

use vstd::string::StringExecFns;
use vstd::utf8::{is_ascii_chars, is_ascii_chars_encode_utf8};
use crate::formatters::{joined, fit_count, lemma_fit_count_bounds, packed, MAX_UDP_DATAGRAM_PAYLOAD_SIZE};

/// The character sequences of a list of strings.
pub open spec fn str_items(v: Seq<String>) -> Seq<Seq<char>> {
    v.map_values(|s: String| s@)
}

/// Joins the longest prefix of the strings that fits in `max_size`
/// characters when separated by single spaces, and reports how many
/// strings were taken.
pub fn _concat_to_size(strings: &[String], max_size: usize) -> (r: (String, usize))
    requires
        max_size < 0x1000_0000,
        strings@.len() < 0x1000_0000,
        forall|i: int| 0 <= i < strings@.len() ==> is_ascii_chars(#[trigger] strings@[i]@),
        forall|i: int| 0 <= i < strings@.len() ==> (#[trigger] strings@[i]@).len() < 0x1000_0000,
    ensures
        r.1 <= strings@.len(),
        r.1 as int == fit_count(str_items(strings@), max_size as int, 0),
        r.0@ == joined(str_items(strings@), r.1 as int),
{
    let ghost items = str_items(strings@);
    let mut tmp_size: usize = 0;
    let mut chunk_last_idx: usize = 0;
    proof {
        assert(joined(items, 0).len() == 0);
    }
    while chunk_last_idx < strings.len()
        invariant
            chunk_last_idx <= strings@.len(),
            items == str_items(strings@),
            max_size < 0x1000_0000,
            strings@.len() < 0x1000_0000,
            forall|i: int| 0 <= i < strings@.len() ==> is_ascii_chars(#[trigger] strings@[i]@),
            forall|i: int|
                0 <= i < strings@.len() ==> (#[trigger] strings@[i]@).len() < 0x1000_0000,
            tmp_size == joined(items, chunk_last_idx as int).len(),
            tmp_size <= max_size,
            fit_count(items, max_size as int, 0) == fit_count(
                items,
                max_size as int,
                chunk_last_idx as int,
            ),
        ensures
            chunk_last_idx <= strings@.len(),
            fit_count(items, max_size as int, 0) == chunk_last_idx as int,
        decreases strings@.len() - chunk_last_idx,
    {
        let str_ = &strings[chunk_last_idx];
        proof {
            assert(items[chunk_last_idx as int] == strings@[chunk_last_idx as int]@);
            is_ascii_chars_encode_utf8(str_@);
        }
        let sep: usize = if chunk_last_idx > 0 {
            1
        } else {
            0
        };
        proof {
            assert(joined(items, chunk_last_idx as int + 1).len() == tmp_size + sep
                + str_@.len());
        }
        if str_.as_str().len() + tmp_size + sep > max_size {
            proof {
                assert(fit_count(items, max_size as int, chunk_last_idx as int)
                    == chunk_last_idx as int);
            }
            break ;
        }
        tmp_size = tmp_size + sep + str_.as_str().len();
        chunk_last_idx = chunk_last_idx + 1;
        proof {
            assert(fit_count(items, max_size as int, chunk_last_idx as int - 1) == fit_count(
                items,
                max_size as int,
                chunk_last_idx as int,
            ));
        }
    }
    let k = chunk_last_idx;
    // build the joined text
    let mut out = String::new();
    let mut j: usize = 0;
    while j < k
        invariant
            j <= k <= strings@.len(),
            items == str_items(strings@),
            out@ == joined(items, j as int),
        decreases k - j,
    {
        if j > 0 {
            proof {
                reveal_strlit(" ");
                assert(" "@ =~= seq![' ']);
            }
            out.append(" ");
        }
        out.append(strings[j].as_str());
        j = j + 1;
        proof {
            assert(items[j as int - 1] == strings@[j as int - 1]@);
            assert(out@ =~= joined(items, j as int));
        }
    }
    (out, k)
}

/// Packs rendered tokens into space-joined payloads of at most
/// [`MAX_UDP_DATAGRAM_PAYLOAD_SIZE`] characters, until the batch is
/// exhausted.
pub fn simpl_formatter(cidrs: Vec<String>) -> (r: Vec<String>)
    requires
        cidrs@.len() < 0x1000_0000,
        forall|i: int| 0 <= i < cidrs@.len() ==> is_ascii_chars(#[trigger] cidrs@[i]@),
        forall|i: int|
            0 <= i < cidrs@.len() ==> (#[trigger] cidrs@[i]@).len()
                <= MAX_UDP_DATAGRAM_PAYLOAD_SIZE,
    ensures
        r@.map_values(|s: String| s@) == packed(
            str_items(cidrs@),
            MAX_UDP_DATAGRAM_PAYLOAD_SIZE as int,
        ),
{
    let mut from: usize = 0;
    let mut concated_msg: Vec<String> = Vec::new();
    proof {
        assert(cidrs@.skip(0) =~= cidrs@);
        assert(str_items(cidrs@.skip(0)) =~= str_items(cidrs@).skip(0));
        assert(concated_msg@.map_values(|s: String| s@) =~= Seq::<Seq<char>>::empty());
    }
    while from < cidrs.len()
        invariant
            from <= cidrs@.len(),
            cidrs@.len() < 0x1000_0000,
            forall|i: int| 0 <= i < cidrs@.len() ==> is_ascii_chars(#[trigger] cidrs@[i]@),
            forall|i: int|
                0 <= i < cidrs@.len() ==> (#[trigger] cidrs@[i]@).len()
                    <= MAX_UDP_DATAGRAM_PAYLOAD_SIZE,
            concated_msg@.map_values(|s: String| s@) + packed(
                str_items(cidrs@).skip(from as int),
                MAX_UDP_DATAGRAM_PAYLOAD_SIZE as int,
            ) == packed(str_items(cidrs@), MAX_UDP_DATAGRAM_PAYLOAD_SIZE as int),
        decreases cidrs@.len() - from,
    {
        let window = &cidrs[from..cidrs.len()];
        let ghost rest = str_items(cidrs@).skip(from as int);
        proof {
            assert(str_items(window@) =~= rest);
        }
        let (msg, idx) = _concat_to_size(window, MAX_UDP_DATAGRAM_PAYLOAD_SIZE);
        proof {
            // every token fits alone, so each chunk takes at least one
            if idx == 0 {
                assert(str_items(cidrs@)[from as int] == cidrs@[from as int]@);
                assert(rest[0] == cidrs@[from as int]@);
                assert(joined(rest, 1) == rest[0]);
                assert(joined(rest, 1).len() <= MAX_UDP_DATAGRAM_PAYLOAD_SIZE);
                lemma_fit_count_bounds(rest, MAX_UDP_DATAGRAM_PAYLOAD_SIZE as int, 1);
                assert(fit_count(rest, MAX_UDP_DATAGRAM_PAYLOAD_SIZE as int, 0) == fit_count(
                    rest,
                    MAX_UDP_DATAGRAM_PAYLOAD_SIZE as int,
                    1,
                ));
                assert(false);
            }
            assert(packed(rest, MAX_UDP_DATAGRAM_PAYLOAD_SIZE as int) == seq![joined(
                rest,
                idx as int,
            )] + packed(rest.skip(idx as int), MAX_UDP_DATAGRAM_PAYLOAD_SIZE as int));
        }
        let ghost oldmap = concated_msg@.map_values(|s: String| s@);
        let ghost oldrest = rest;
        let ghost oldidx = idx as int;
        from = from + idx;
        concated_msg.push(msg);
        proof {
            let newmap = concated_msg@.map_values(|s: String| s@);
            assert(newmap =~= oldmap.push(joined(oldrest, oldidx)));
            assert(oldrest.skip(oldidx) =~= str_items(cidrs@).skip(from as int));
            assert(newmap + packed(
                str_items(cidrs@).skip(from as int),
                MAX_UDP_DATAGRAM_PAYLOAD_SIZE as int,
            ) =~= oldmap + packed(oldrest, MAX_UDP_DATAGRAM_PAYLOAD_SIZE as int));
        }
    }
    proof {
        assert(str_items(cidrs@).skip(from as int).len() == 0);
        assert(packed(str_items(cidrs@).skip(from as int), MAX_UDP_DATAGRAM_PAYLOAD_SIZE as int)
            =~= Seq::<Seq<char>>::empty());
        assert(concated_msg@.map_values(|s: String| s@) + Seq::<Seq<char>>::empty()
            =~= concated_msg@.map_values(|s: String| s@));
    }
    concated_msg
}

} // verus!
