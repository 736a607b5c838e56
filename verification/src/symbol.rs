use vstd::prelude::*;

verus! {

/// `p` is the position of the unique slash of `s`, and the slash splits
/// `s` into a non-empty base and a non-empty quote.
pub open spec fn slash_at(s: Seq<char>, p: int) -> bool {
    &&& 1 <= p <= s.len() - 2
    &&& s[p] == '/'
    &&& forall|j: int| 0 <= j < s.len() && j != p ==> s[j] != '/'
}

/// A symbol is well formed when it reads `BASE/QUOTE`: both parts
/// non-empty and exactly one slash in the whole string.
pub open spec fn is_valid_symbol(s: Seq<char>) -> bool {
    exists|p: int| slash_at(s, p)
}

/// The position of the unique slash of a well-formed symbol.
pub open spec fn slash_pos(s: Seq<char>) -> int {
    choose|p: int| slash_at(s, p)
}

/// The slash position of a well-formed symbol is unique.
pub proof fn lemma_slash_pos_unique(s: Seq<char>, p: int)
    requires
        slash_at(s, p),
    ensures
        slash_pos(s) == p,
{
    let q = slash_pos(s);
    assert(slash_at(s, q));
    if p != q {
        assert(s[q] != '/');
    }
}

/// Splits a trading symbol of the form `BASE/QUOTE` into its two
/// currency codes. Anything without exactly one interior slash is
/// rejected.
pub fn parse_symbol(symbol: &str) -> (r: Option<(String, String)>)
    ensures
        r is Some <==> is_valid_symbol(symbol@),
        r matches Some(bq) ==> {
            &&& slash_at(symbol@, bq.0@.len() as int)
            &&& bq.0@ == symbol@.subrange(0, bq.0@.len() as int)
            &&& bq.1@ == symbol@.subrange(bq.0@.len() as int + 1, symbol@.len() as int)
        },
{
    let n = symbol.unicode_len();
    let mut i: usize = 0;
    let mut pos: usize = 0;
    let mut pos2: usize = 0;
    let mut seen: usize = 0;
    while i < n
        invariant
            n == symbol@.len(),
            0 <= i <= n,
            seen <= i,
            seen == 0 ==> forall|j: int| 0 <= j < i ==> symbol@[j] != '/',
            seen >= 1 ==> pos < i && symbol@[pos as int] == '/',
            seen == 1 ==> forall|j: int| 0 <= j < i && j != pos ==> symbol@[j] != '/',
            seen >= 2 ==> pos2 < i && pos2 != pos && symbol@[pos2 as int] == '/',
        decreases n - i,
    {
        let c = symbol.get_char(i);
        if c == '/' {
            if seen == 0 {
                pos = i;
            } else if seen == 1 {
                pos2 = i;
            }
            if seen < 2 {
                seen = seen + 1;
            }
        }
        i = i + 1;
    }
    if seen != 1 {
        proof {
            if seen == 0 {
                assert forall|p: int| !slash_at(symbol@, p) by {
                    if 0 <= p < symbol@.len() {
                        assert(symbol@[p] != '/');
                    }
                }
            } else {
                assert forall|p: int| !slash_at(symbol@, p) by {
                    if slash_at(symbol@, p) {
                        if p != pos {
                            assert(symbol@[pos as int] != '/');
                        } else {
                            assert(symbol@[pos2 as int] != '/');
                        }
                    }
                }
            }
        }
        return None;
    }
    if pos == 0 || n - pos < 2 {
        proof {
            assert forall|p: int| !slash_at(symbol@, p) by {
                if slash_at(symbol@, p) {
                    if p != pos {
                        assert(symbol@[pos as int] != '/');
                    }
                }
            }
        }
        return None;
    }
    let base = symbol.substring_char(0, pos).to_owned();
    let quote = symbol.substring_char(pos + 1, n).to_owned();
    proof {
        assert(slash_at(symbol@, pos as int));
    }
    Some((base, quote))
}

} // verus!
