//! The compact token table: construction from a raw dense array, and
//! resolution of token identifiers against the compact form.

use vstd::prelude::*;

verus! {

use crate::codec::{decode_table, encode_table};
use crate::codec;

/// First identifier of the high segment. Identifiers in
/// `[breakpoint, GAP)` are the unused gap and are never stored.
pub const GAP: u16 = 10000;

/// A compact token table: `values` holds the used prefix of the low segment
/// followed by the whole high segment; `breakpoint` is where the high
/// segment starts inside `values`.
pub struct FlatBufferResolver {
    values: Vec<String>,
    breakpoint: u16,
}

/// The name stored at index `i` of `values`, where the empty string is the
/// sentinel for an identifier with no name.
pub open spec fn spec_lookup(values: Seq<Seq<char>>, i: int) -> Option<Seq<char>> {
    if 0 <= i < values.len() && values[i].len() > 0 {
        Some(values[i])
    } else {
        None
    }
}

/// Resolution against the compact form: a low-segment identifier is its own
/// storage index, a high-segment identifier is re-based past the compacted
/// low segment, and an identifier inside the gap has no name.
pub open spec fn spec_resolve(values: Seq<Seq<char>>, breakpoint: int, token: int) -> Option<
    Seq<char>,
> {
    if token < breakpoint {
        spec_lookup(values, token)
    } else if token >= GAP {
        spec_lookup(values, token - GAP + breakpoint)
    } else {
        None
    }
}

/// The highest index below `n` that holds a non-empty string, or 0 when
/// every entry below `n` is empty.
pub open spec fn last_used_below(tokens: Seq<Seq<char>>, n: int) -> int
    decreases n,
{
    if n <= 0 {
        0
    } else if tokens[n - 1].len() > 0 {
        n - 1
    } else {
        last_used_below(tokens, n - 1)
    }
}

/// The highest low-segment identifier with a name, or 0 when the low
/// segment is entirely empty (index 0 is always retained).
pub open spec fn spec_lower_max(tokens: Seq<Seq<char>>) -> int {
    last_used_below(tokens, GAP as int)
}

/// The compact storage built from a raw dense array: the low segment up to
/// and including its last used entry, then the whole high segment.
pub open spec fn compact_values(tokens: Seq<Seq<char>>) -> Seq<Seq<char>>
    recommends
        tokens.len() >= GAP as int,
{
    tokens.subrange(0, spec_lower_max(tokens) + 1) + tokens.subrange(
        GAP as int,
        tokens.len() as int,
    )
}

/// The number of compact entries that belong to the low segment.
pub open spec fn compact_breakpoint(tokens: Seq<Seq<char>>) -> int {
    spec_lower_max(tokens) + 1
}

/// `last_used_below` stays within bounds, and everything past it up to `n`
/// is empty.
pub proof fn lemma_last_used_below_props(tokens: Seq<Seq<char>>, n: int)
    requires
        n >= 1,
    ensures
        0 <= last_used_below(tokens, n) < n,
        forall|j: int| last_used_below(tokens, n) < j < n ==> tokens[j].len() == 0,
    decreases n,
{
    if n > 1 {
        lemma_last_used_below_props(tokens, n - 1);
    } else {
        assert(last_used_below(tokens, 0) == 0);
    }
}

impl FlatBufferResolver {
    /// The stored name strings, in storage order.
    pub closed spec fn values_view(&self) -> Seq<Seq<char>> {
        self.values.deep_view()
    }

    /// The number of stored entries that belong to the low segment.
    pub closed spec fn breakpoint_view(&self) -> u16 {
        self.breakpoint
    }

    /// Looks a token identifier up in the compact table. Absence (an
    /// identifier in the gap, beyond the stored range, or stored as the
    /// empty-string sentinel) is a normal outcome, not an error.
    pub fn resolve(&self, token: u16) -> (r: Option<&str>)
        ensures
            match r {
                Some(s) => spec_resolve(self.values_view(), self.breakpoint_view() as int, token as int)
                    == Some(s@),
                None => spec_resolve(self.values_view(), self.breakpoint_view() as int, token as int)
                    is None,
            },
    {
        if token < self.breakpoint {
            self.lookup_at(token as usize)
        } else if token >= GAP {
            self.lookup_at(token as usize - GAP as usize + self.breakpoint as usize)
        } else {
            None
        }
    }

    /// Builds a compact table from a raw dense array (indexed by identifier,
    /// with empty strings marking unused identifiers) and serializes it.
    /// Only the unused tail of the low segment is dropped; interior empty
    /// entries and the whole high segment are kept verbatim.
    pub fn create_data(tokens: Vec<String>) -> (out: Vec<u8>)
        requires
            tokens@.len() >= GAP as int,
        ensures
            out@ == encode_table(
                compact_values(tokens.deep_view()),
                compact_breakpoint(tokens.deep_view()) as u16,
            ),
            decode_table(out@) == Some(
                (
                    compact_values(tokens.deep_view()),
                    compact_breakpoint(tokens.deep_view()) as u16,
                ),
            ),
    {
        let ghost tdv = tokens.deep_view();
        let mut lower_max: usize = 0;
        let mut i: usize = 0;
        while i < GAP as usize
            invariant
                tokens@.len() >= GAP as int,
                tdv == tokens.deep_view(),
                i <= GAP as usize,
                lower_max < GAP as usize,
                lower_max as int == last_used_below(tdv, i as int),
            decreases GAP as int - i,
        {
            assert(tdv[i as int] == tokens@[i as int]@);
            if !tokens[i].as_str().is_empty() {
                lower_max = i;
            }
            i = i + 1;
        }
        assert(lower_max as int == spec_lower_max(tdv));

        let mut values: Vec<String> = Vec::new();
        let mut i: usize = 0;
        while i <= lower_max
            invariant
                tokens@.len() >= GAP as int,
                tdv == tokens.deep_view(),
                lower_max < GAP as usize,
                i <= lower_max + 1,
                values.deep_view() == tdv.subrange(0, i as int),
            decreases lower_max + 1 - i,
        {
            let entry = &tokens[i];
            let c = entry.clone();
            let ghost prev = values@;
            let ghost prev_dv = values.deep_view();
            values.push(c);
            proof {
                assert(c@ == tdv[i as int]);
                assert(prev_dv.len() == i);
                assert forall|j: int| 0 <= j < i implies values.deep_view()[j] == prev_dv[j] by {
                    assert(values@[j] == prev[j]);
                }
                assert(values.deep_view()[i as int] == c@);
                assert(values.deep_view() =~= tdv.subrange(0, i + 1 as int));
            }
            i = i + 1;
        }
        let mut i: usize = GAP as usize;
        while i < tokens.len()
            invariant
                tokens@.len() >= GAP as int,
                tdv == tokens.deep_view(),
                lower_max < GAP as usize,
                GAP as usize <= i <= tokens@.len(),
                values.deep_view() == tdv.subrange(0, lower_max + 1 as int) + tdv.subrange(
                    GAP as int,
                    i as int,
                ),
            decreases tokens@.len() - i,
        {
            let entry = &tokens[i];
            let c = entry.clone();
            let ghost prev = values@;
            let ghost prev_dv = values.deep_view();
            values.push(c);
            proof {
                assert(c@ == tdv[i as int]);
                assert forall|j: int| 0 <= j < prev_dv.len() implies values.deep_view()[j]
                    == prev_dv[j] by {
                    assert(values@[j] == prev[j]);
                }
                assert(values.deep_view()[prev_dv.len() as int] == c@);
                assert(values.deep_view() =~= prev_dv.push(c@));
                assert(tdv.subrange(GAP as int, i + 1 as int) =~= tdv.subrange(
                    GAP as int,
                    i as int,
                ).push(tdv[i as int]));
                assert(tdv.subrange(0, lower_max + 1 as int) + tdv.subrange(
                    GAP as int,
                    i as int,
                ).push(tdv[i as int]) =~= prev_dv.push(tdv[i as int]));
                assert(values.deep_view() == tdv.subrange(0, lower_max + 1 as int) + tdv.subrange(
                    GAP as int,
                    i + 1 as int,
                ));
            }
            i = i + 1;
        }
        assert(values.deep_view() == compact_values(tdv));
        codec::encode_table_bytes(&values, (lower_max + 1) as u16)
    }

    /// Deserializes a compact table, reporting malformed bytes as `None`.
    /// An empty byte buffer is the valid degenerate case of an empty table.
    pub fn try_from_slice(data: &[u8]) -> (r: Option<Self>)
        ensures
            data@.len() == 0 ==> (r matches Some(t) && t.values_view() == Seq::<
                Seq<char>,
            >::empty() && t.breakpoint_view() == 0),
            data@.len() > 0 ==> match r {
                Some(t) => decode_table(data@) == Some((t.values_view(), t.breakpoint_view())),
                None => decode_table(data@) is None,
            },
    {
        if data.len() == 0 {
            let t = FlatBufferResolver { values: Vec::new(), breakpoint: 0 };
            proof {
                assert(t.values_view() =~= Seq::<Seq<char>>::empty());
            }
            return Some(t);
        }
        match codec::decode_table_bytes(data) {
            Some(parts) => {
                let (values, breakpoint) = parts;
                Some(FlatBufferResolver { values, breakpoint })
            },
            None => None,
        }
    }

    /// Deserializes a compact table from bytes that are either empty (the
    /// degenerate empty table) or a well-formed encoding.
    pub fn from_slice(data: &[u8]) -> (r: Self)
        requires
            data@.len() == 0 || decode_table(data@) is Some,
        ensures
            data@.len() == 0 ==> r.values_view() == Seq::<Seq<char>>::empty()
                && r.breakpoint_view() == 0,
            data@.len() > 0 ==> decode_table(data@) == Some(
                (r.values_view(), r.breakpoint_view()),
            ),
    {
        match Self::try_from_slice(data) {
            Some(t) => t,
            None => {
                // unreachable: the input is required to be empty or decodable
                proof {
                    assert(false);
                }
                FlatBufferResolver { values: Vec::new(), breakpoint: 0 }
            },
        }
    }

    /// The stored boundary between the low-segment and high-segment entries.
    pub fn breakpoint(&self) -> (r: u16)
        ensures
            r == self.breakpoint_view(),
    {
        self.breakpoint
    }

    /// The number of stored entries.
    pub fn value_count(&self) -> (r: usize)
        ensures
            r == self.values_view().len(),
    {
        self.values.len()
    }

    fn lookup_at(&self, i: usize) -> (r: Option<&str>)
        ensures
            match r {
                Some(s) => spec_lookup(self.values_view(), i as int) == Some(s@),
                None => spec_lookup(self.values_view(), i as int) is None,
            },
    {
        if i < self.values.len() {
            let s = self.values[i].as_str();
            if s.is_empty() {
                None
            } else {
                Some(s)
            }
        } else {
            None
        }
    }
}

/// Round-trip law: building a compact table from a raw dense array keeps
/// every named identifier resolvable to exactly its raw entry.
pub proof fn lemma_build_round_trip(tokens: Seq<Seq<char>>, id: u16)
    requires
        tokens.len() >= GAP as int,
        (id as int) < tokens.len(),
        tokens[id as int].len() > 0,
    ensures
        spec_resolve(compact_values(tokens), compact_breakpoint(tokens), id as int) == Some(
            tokens[id as int],
        ),
{
    lemma_last_used_below_props(tokens, GAP as int);
    let lm = spec_lower_max(tokens);
    let bp = compact_breakpoint(tokens);
    let cv = compact_values(tokens);
    if (id as int) < GAP as int {
        assert(id as int <= lm);
        assert(cv[id as int] == tokens[id as int]);
    } else {
        let idx = id as int - GAP as int + bp;
        assert(cv[idx] == tokens[id as int]);
    }
}

/// Gap emptiness law: in any table, an identifier at or past the breakpoint
/// and below the gap offset resolves to absent.
pub proof fn lemma_gap_resolves_none(values: Seq<Seq<char>>, breakpoint: int, id: u16)
    requires
        breakpoint <= id as int,
        (id as int) < GAP as int,
    ensures
        spec_resolve(values, breakpoint, id as int) is None,
{
}

/// High-segment offset law: after building, a high-segment identifier inside
/// the stored range resolves through the compacted offset to exactly its raw
/// entry, with the empty sentinel reported as absent.
pub proof fn lemma_high_segment(tokens: Seq<Seq<char>>, id: u16)
    requires
        tokens.len() >= GAP as int,
        id as int >= GAP as int,
        (id as int - GAP as int) < tokens.len() - GAP as int,
    ensures
        spec_resolve(compact_values(tokens), compact_breakpoint(tokens), id as int) == (
        if tokens[id as int].len() > 0 {
            Some(tokens[id as int])
        } else {
            None::<Seq<char>>
        }),
{
    lemma_last_used_below_props(tokens, GAP as int);
    let bp = compact_breakpoint(tokens);
    let idx = id as int - GAP as int + bp;
    assert(compact_values(tokens)[idx] == tokens[id as int]);
}

/// Compaction monotonicity law: the built breakpoint never exceeds the gap
/// offset, and the compact storage holds at least `breakpoint` entries.
pub proof fn lemma_compaction_monotonic(tokens: Seq<Seq<char>>)
    requires
        tokens.len() >= GAP as int,
    ensures
        0 < compact_breakpoint(tokens) <= GAP as int,
        compact_values(tokens).len() >= compact_breakpoint(tokens),
{
    lemma_last_used_below_props(tokens, GAP as int);
}

/// Degenerate-input law: the empty table resolves every identifier to
/// absent.
pub proof fn lemma_empty_table_resolves_none(id: u16)
    ensures
        spec_resolve(Seq::<Seq<char>>::empty(), 0, id as int) is None,
{
}

} // verus!
