//! Byte encoding of a compact token table.
//!
//! A table is persisted as a record with exactly two fields: the breakpoint
//! and the ordered vector of name strings. The layout is: the breakpoint as
//! two little-endian bytes, the number of strings as eight little-endian
//! bytes, then each string as its UTF-8 byte length in eight little-endian
//! bytes followed by its UTF-8 bytes.

use vstd::prelude::*;

verus! {

use vstd::bytes::{
    lemma_auto_spec_u16_to_from_le_bytes, lemma_auto_spec_u64_to_from_le_bytes,
    spec_u16_from_le_bytes, spec_u16_to_le_bytes, spec_u64_from_le_bytes, spec_u64_to_le_bytes,
    u16_from_le_bytes, u16_to_le_bytes, u64_from_le_bytes, u64_to_le_bytes,
};
use vstd::slice::{slice_subrange, slice_to_vec};
use vstd::utf8::{decode_utf8, encode_utf8, encode_utf8_decode_utf8, encode_utf8_valid_utf8,
    valid_utf8};

/// Encoding of one string: its UTF-8 byte length as eight little-endian
/// bytes, then its UTF-8 bytes.
pub open spec fn encode_string(s: Seq<char>) -> Seq<u8> {
    spec_u64_to_le_bytes(encode_utf8(s).len() as u64) + encode_utf8(s)
}

/// Encoding of a sequence of strings, one after the other.
pub open spec fn encode_strings(vals: Seq<Seq<char>>) -> Seq<u8>
    decreases vals.len(),
{
    if vals.len() == 0 {
        Seq::empty()
    } else {
        encode_string(vals[0]) + encode_strings(vals.drop_first())
    }
}

/// Encoding of a whole table: breakpoint, string count, then the strings.
pub open spec fn encode_table(vals: Seq<Seq<char>>, breakpoint: u16) -> Seq<u8> {
    spec_u16_to_le_bytes(breakpoint) + spec_u64_to_le_bytes(vals.len() as u64)
        + encode_strings(vals)
}

/// Decoding of `n` strings from `data`; the whole of `data` must be used.
pub open spec fn decode_strings(data: Seq<u8>, n: nat) -> Option<Seq<Seq<char>>>
    decreases n,
{
    if n == 0 {
        if data.len() == 0 {
            Some(Seq::empty())
        } else {
            None
        }
    } else if data.len() < 8 {
        None
    } else {
        let len = spec_u64_from_le_bytes(data.subrange(0, 8)) as int;
        if data.len() - 8 < len {
            None
        } else if !valid_utf8(data.subrange(8, 8 + len)) {
            None
        } else {
            match decode_strings(data.skip(8 + len), (n - 1) as nat) {
                Some(rest) => Some(seq![decode_utf8(data.subrange(8, 8 + len))] + rest),
                None => None,
            }
        }
    }
}

/// Decoding of a whole table. `None` on any byte sequence that is not
/// exactly the encoding of some table.
pub open spec fn decode_table(data: Seq<u8>) -> Option<(Seq<Seq<char>>, u16)> {
    if data.len() < 10 {
        None
    } else {
        let breakpoint = spec_u16_from_le_bytes(data.subrange(0, 2));
        let n = spec_u64_from_le_bytes(data.subrange(2, 10));
        match decode_strings(data.skip(10), n as nat) {
            Some(vals) => Some((vals, breakpoint)),
            None => None,
        }
    }
}

proof fn lemma_encode_strings_push(vals: Seq<Seq<char>>, s: Seq<char>)
    ensures
        encode_strings(vals.push(s)) == encode_strings(vals) + encode_string(s),
    decreases vals.len(),
{
    if vals.len() == 0 {
        assert(vals.push(s)[0] == s);
        assert(vals.push(s).drop_first() =~= Seq::<Seq<char>>::empty());
        assert(encode_strings(vals.push(s).drop_first()) == Seq::<u8>::empty());
        assert(encode_strings(vals.push(s)) == encode_string(s) + Seq::<u8>::empty());
        assert(encode_string(s) + Seq::<u8>::empty() =~= encode_string(s));
        assert(encode_strings(vals) + encode_string(s) =~= encode_string(s));
    } else {
        assert(vals.push(s)[0] == vals[0]);
        assert(vals.push(s).drop_first() =~= vals.drop_first().push(s));
        lemma_encode_strings_push(vals.drop_first(), s);
        assert(encode_strings(vals.push(s)) =~= encode_strings(vals) + encode_string(s));
    }
}

/// Serializes the table fields into bytes, in the layout of [`encode_table`].
pub fn encode_table_bytes(vals: &Vec<String>, breakpoint: u16) -> (out: Vec<u8>)
    ensures
        out@ == encode_table(vals.deep_view(), breakpoint),
        decode_table(out@) == Some((vals.deep_view(), breakpoint)),
{
    let ghost dv = vals.deep_view();
    let mut out = u16_to_le_bytes(breakpoint);
    let mut count_bytes = u64_to_le_bytes(vals.len() as u64);
    out.append(&mut count_bytes);
    let mut i: usize = 0;
    while i < vals.len()
        invariant
            i <= vals.len(),
            dv == vals.deep_view(),
            dv.len() == vals@.len(),
            out@ == spec_u16_to_le_bytes(breakpoint) + spec_u64_to_le_bytes(vals@.len() as u64)
                + encode_strings(dv.take(i as int)),
            forall|j: int| 0 <= j < i ==> encode_utf8(dv[j]).len() <= u64::MAX,
        decreases vals@.len() - i,
    {
        let mut body = vals[i].as_str().as_bytes_vec();
        let blen: usize = body.len();
        assert(body@ == encode_utf8(dv[i as int]));
        let mut len_bytes = u64_to_le_bytes(blen as u64);
        out.append(&mut len_bytes);
        out.append(&mut body);
        proof {
            lemma_encode_strings_push(dv.take(i as int), dv[i as int]);
            assert(dv.take(i as int).push(dv[i as int]) =~= dv.take(i + 1 as int));
            assert(out@ =~= spec_u16_to_le_bytes(breakpoint) + spec_u64_to_le_bytes(
                vals@.len() as u64,
            ) + encode_strings(dv.take(i + 1 as int)));
        }
        i = i + 1;
    }
    proof {
        assert(dv.take(vals@.len() as int) =~= dv);
        lemma_decode_encode_table(dv, breakpoint);
    }
    out
}

/// Relies on `String::from_utf8`: it succeeds exactly on input that is valid
/// UTF-8, and then returns the string whose characters the bytes encode.
#[verifier::external_body]
fn string_from_utf8(bytes: Vec<u8>) -> (r: Option<String>)
    ensures
        match r {
            Some(s) => valid_utf8(bytes@) && s@ == decode_utf8(bytes@),
            None => !valid_utf8(bytes@),
        },
{
    String::from_utf8(bytes).ok()
}

spec fn prepend_decoded(prefix: Seq<Seq<char>>, rest: Option<Seq<Seq<char>>>) -> Option<
    Seq<Seq<char>>,
> {
    match rest {
        Some(r) => Some(prefix + r),
        None => None,
    }
}

/// Parses bytes in the layout of [`encode_table`] back into table fields.
/// `None` exactly on bytes that are not the encoding of any table.
pub fn decode_table_bytes(data: &[u8]) -> (r: Option<(Vec<String>, u16)>)
    ensures
        match r {
            Some(t) => decode_table(data@) == Some((t.0.deep_view(), t.1)),
            None => decode_table(data@) is None,
        },
{
    if data.len() < 10 {
        return None;
    }
    let breakpoint = u16_from_le_bytes(slice_subrange(data, 0, 2));
    let n = u64_from_le_bytes(slice_subrange(data, 2, 10));
    let mut vals: Vec<String> = Vec::new();
    let mut pos: usize = 10;
    let mut i: u64 = 0;
    while i < n
        invariant
            10 <= pos <= data@.len(),
            i <= n,
            vals.deep_view().len() == i,
            breakpoint == spec_u16_from_le_bytes(data@.subrange(0, 2)),
            n == spec_u64_from_le_bytes(data@.subrange(2, 10)),
            decode_strings(data@.skip(10), n as nat) == prepend_decoded(
                vals.deep_view(),
                decode_strings(data@.skip(pos as int), (n - i) as nat),
            ),
        decreases n - i,
    {
        let ghost d = data@.skip(pos as int);
        let ghost m = (n - i) as nat;
        assert(d.len() == data@.len() - pos);
        let remaining = data.len() - pos;
        if remaining < 8 {
            assert(decode_strings(d, m) is None);
            return None;
        }
        let len64 = u64_from_le_bytes(slice_subrange(data, pos, pos + 8));
        proof {
            assert(data@.subrange(pos as int, pos as int + 8) =~= d.subrange(0, 8));
        }
        if ((remaining - 8) as u64) < len64 {
            assert(decode_strings(d, m) is None);
            return None;
        }
        let len = len64 as usize;
        let body = slice_to_vec(slice_subrange(data, pos + 8, pos + 8 + len));
        proof {
            assert(data@.subrange(pos as int + 8, pos as int + 8 + len as int) =~= d.subrange(
                8,
                8 + len64 as int,
            ));
        }
        match string_from_utf8(body) {
            None => {
                assert(decode_strings(d, m) is None);
                return None;
            },
            Some(s) => {
                let ghost old_vals = vals.deep_view();
                vals.push(s);
                proof {
                    assert(vals.deep_view() =~= old_vals.push(s@));
                    assert(d.skip(8 + len64 as int) =~= data@.skip(pos as int + 8 + len as int));
                    let inner = decode_strings(
                        data@.skip(pos as int + 8 + len as int),
                        (n - i - 1) as nat,
                    );
                    if inner is Some {
                        let rest = inner->Some_0;
                        assert(decode_strings(d, m) == Some(seq![s@] + rest));
                        assert(old_vals + (seq![s@] + rest) =~= old_vals.push(s@) + rest);
                    } else {
                        assert(decode_strings(d, m) is None);
                    }
                }
                pos = pos + 8 + len;
                i = i + 1;
            },
        }
    }
    if pos != data.len() {
        assert(data@.skip(pos as int).len() > 0);
        assert(decode_strings(data@.skip(pos as int), 0) is None);
        return None;
    }
    proof {
        assert(data@.skip(pos as int).len() == 0);
        assert(vals.deep_view() + Seq::<Seq<char>>::empty() =~= vals.deep_view());
    }
    Some((vals, breakpoint))
}

/// The decoder inverts the encoder: decoding the encoding of any table gives
/// back exactly its strings and its breakpoint. The length bounds hold of
/// every table that can exist in memory.
pub proof fn lemma_decode_encode_table(vals: Seq<Seq<char>>, breakpoint: u16)
    requires
        vals.len() <= u64::MAX,
        forall|j: int| 0 <= j < vals.len() ==> encode_utf8(#[trigger] vals[j]).len() <= u64::MAX,
    ensures
        decode_table(encode_table(vals, breakpoint)) == Some((vals, breakpoint)),
{
    lemma_auto_spec_u16_to_from_le_bytes();
    lemma_auto_spec_u64_to_from_le_bytes();
    let data = encode_table(vals, breakpoint);
    assert(data.subrange(0, 2) =~= spec_u16_to_le_bytes(breakpoint));
    assert(data.subrange(2, 10) =~= spec_u64_to_le_bytes(vals.len() as u64));
    assert(data.skip(10) =~= encode_strings(vals));
    lemma_decode_encode_strings(vals);
}

proof fn lemma_decode_encode_strings(vals: Seq<Seq<char>>)
    requires
        forall|j: int| 0 <= j < vals.len() ==> encode_utf8(#[trigger] vals[j]).len() <= u64::MAX,
    ensures
        decode_strings(encode_strings(vals), vals.len()) == Some(vals),
    decreases vals.len(),
{
    lemma_auto_spec_u64_to_from_le_bytes();
    if vals.len() == 0 {
    } else {
        let s = vals[0];
        let body = encode_utf8(s);
        let len = body.len() as int;
        let data = encode_strings(vals);
        assert(data == spec_u64_to_le_bytes(len as u64) + body + encode_strings(
            vals.drop_first(),
        ));
        assert(data.subrange(0, 8) =~= spec_u64_to_le_bytes(len as u64));
        assert(spec_u64_from_le_bytes(data.subrange(0, 8)) as int == len);
        assert(data.len() - 8 >= len);
        assert(data.subrange(8, 8 + len) =~= body);
        encode_utf8_valid_utf8(s);
        encode_utf8_decode_utf8(s);
        assert(data.skip(8 + len) =~= encode_strings(vals.drop_first()));
        assert(forall|j: int|
            0 <= j < vals.drop_first().len() ==> encode_utf8(
                #[trigger] vals.drop_first()[j],
            ).len() <= u64::MAX);
        lemma_decode_encode_strings(vals.drop_first());
        assert(seq![s] + vals.drop_first() =~= vals);
    }
}

} // verus!
