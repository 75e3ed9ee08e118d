//! The order of (host, opponent) storage keys.
//!
//! Games are keyed by the byte encoding of the address pair: the host
//! address length-prefixed, then the host bytes, then the opponent bytes.
//! Hence keys compare by host byte length first, then host bytes
//! lexicographically, then opponent bytes lexicographically.

use vstd::prelude::*;
use vstd::utf8::{encode_utf8, encode_utf8_decode_utf8};

use crate::state::GameV;

verus! {

/// The stored byte form of an address: the UTF-8 encoding of its characters.
pub open spec fn addr_bytes(a: Seq<char>) -> Seq<u8> {
    encode_utf8(a)
}

/// Strict lexicographic order on byte strings; a proper prefix comes first.
pub open spec fn bytes_lt(a: Seq<u8>, b: Seq<u8>) -> bool
    decreases a.len(),
{
    if b.len() == 0 {
        false
    } else if a.len() == 0 {
        true
    } else if a[0] != b[0] {
        a[0] < b[0]
    } else {
        bytes_lt(a.drop_first(), b.drop_first())
    }
}

/// Order of host components: shorter hosts come first, equal lengths compare
/// lexicographically. This mirrors the length prefix in the stored key.
pub open spec fn host_lt(a: Seq<u8>, b: Seq<u8>) -> bool {
    a.len() < b.len() || (a.len() == b.len() && bytes_lt(a, b))
}

/// Strict order on (host, opponent) keys, as their stored byte forms compare.
pub open spec fn pair_lt(h1: Seq<char>, o1: Seq<char>, h2: Seq<char>, o2: Seq<char>) -> bool {
    ||| host_lt(addr_bytes(h1), addr_bytes(h2))
    ||| (addr_bytes(h1) == addr_bytes(h2) && bytes_lt(addr_bytes(o1), addr_bytes(o2)))
}

/// Key order lifted to game records.
pub open spec fn game_lt(a: GameV, b: GameV) -> bool {
    pair_lt(a.host, a.opponent, b.host, b.opponent)
}

/// A game record sits strictly below the key (h, o).
pub open spec fn game_below_key(g: GameV, h: Seq<char>, o: Seq<char>) -> bool {
    pair_lt(g.host, g.opponent, h, o)
}

/// The key (h, o) sits strictly below a game record.
pub open spec fn key_below_game(h: Seq<char>, o: Seq<char>, g: GameV) -> bool {
    pair_lt(h, o, g.host, g.opponent)
}

/// UTF-8 encoding is injective: equal byte forms mean equal addresses.
pub proof fn lemma_addr_bytes_injective(a: Seq<char>, b: Seq<char>)
    requires
        addr_bytes(a) == addr_bytes(b),
    ensures
        a == b,
{
    encode_utf8_decode_utf8(a);
    encode_utf8_decode_utf8(b);
}

pub proof fn lemma_bytes_lt_irreflexive(a: Seq<u8>)
    ensures
        !bytes_lt(a, a),
    decreases a.len(),
{
    if a.len() > 0 {
        lemma_bytes_lt_irreflexive(a.drop_first());
    }
}

pub proof fn lemma_bytes_lt_asymmetric(a: Seq<u8>, b: Seq<u8>)
    ensures
        bytes_lt(a, b) ==> !bytes_lt(b, a),
    decreases a.len(),
{
    if a.len() > 0 && b.len() > 0 && a[0] == b[0] {
        lemma_bytes_lt_asymmetric(a.drop_first(), b.drop_first());
    }
}

pub proof fn lemma_bytes_lt_transitive(a: Seq<u8>, b: Seq<u8>, c: Seq<u8>)
    requires
        bytes_lt(a, b),
        bytes_lt(b, c),
    ensures
        bytes_lt(a, c),
    decreases a.len(),
{
    if a.len() > 0 && b.len() > 0 && c.len() > 0 && a[0] == b[0] && b[0] == c[0] {
        lemma_bytes_lt_transitive(a.drop_first(), b.drop_first(), c.drop_first());
    }
}

/// A sequence equal to a strict prefix of another comes first.
pub proof fn lemma_bytes_lt_prefix(a: Seq<u8>, b: Seq<u8>)
    requires
        a.len() < b.len(),
        a == b.take(a.len() as int),
    ensures
        bytes_lt(a, b),
    decreases a.len(),
{
    if a.len() > 0 {
        assert(a[0] == b[0]) by {
            assert(b.take(a.len() as int)[0] == b[0]);
        }
        assert forall|i: int| 0 <= i < a.len() - 1 implies a.drop_first()[i]
            == b.drop_first().take(a.len() - 1)[i] by {
            assert(a.drop_first()[i] == a[i + 1]);
            assert(a[i + 1] == b.take(a.len() as int)[i + 1]);
            assert(b.drop_first().take(a.len() - 1)[i] == b.drop_first()[i]);
            assert(b.drop_first()[i] == b[i + 1]);
        }
        assert(a.drop_first() =~= b.drop_first().take(a.len() - 1));
        lemma_bytes_lt_prefix(a.drop_first(), b.drop_first());
    }
}

/// Two sequences agree up to index `i`, where `a` has the smaller byte: `a` comes first.
pub proof fn lemma_bytes_lt_at_diff(a: Seq<u8>, b: Seq<u8>, i: int)
    requires
        0 <= i < a.len(),
        i < b.len(),
        a.take(i) == b.take(i),
        a[i] < b[i],
    ensures
        bytes_lt(a, b),
    decreases i,
{
    if i == 0 {
        assert(bytes_lt(a, b));
    } else {
        assert(a[0] == b[0]) by {
            assert(a.take(i)[0] == a[0] && b.take(i)[0] == b[0]);
        }
        assert(a.drop_first().take(i - 1) =~= b.drop_first().take(i - 1)) by {
            assert(forall|j: int|
                0 <= j < i - 1 ==> a.drop_first()[j] == a.take(i)[j + 1] && b.drop_first()[j]
                    == b.take(i)[j + 1]);
        }
        lemma_bytes_lt_at_diff(a.drop_first(), b.drop_first(), i - 1);
    }
}

pub proof fn lemma_host_lt_irreflexive(a: Seq<u8>)
    ensures
        !host_lt(a, a),
{
    lemma_bytes_lt_irreflexive(a);
}

pub proof fn lemma_host_lt_transitive(a: Seq<u8>, b: Seq<u8>, c: Seq<u8>)
    requires
        host_lt(a, b),
        host_lt(b, c),
    ensures
        host_lt(a, c),
{
    if a.len() == b.len() && b.len() == c.len() {
        lemma_bytes_lt_transitive(a, b, c);
    }
}

pub proof fn lemma_pair_lt_irreflexive(h: Seq<char>, o: Seq<char>)
    ensures
        !pair_lt(h, o, h, o),
{
    lemma_host_lt_irreflexive(addr_bytes(h));
    lemma_bytes_lt_irreflexive(addr_bytes(o));
}

pub proof fn lemma_pair_lt_transitive(
    h1: Seq<char>,
    o1: Seq<char>,
    h2: Seq<char>,
    o2: Seq<char>,
    h3: Seq<char>,
    o3: Seq<char>,
)
    requires
        pair_lt(h1, o1, h2, o2),
        pair_lt(h2, o2, h3, o3),
    ensures
        pair_lt(h1, o1, h3, o3),
{
    lemma_host_lt_irreflexive(addr_bytes(h1));
    lemma_host_lt_irreflexive(addr_bytes(h2));
    if host_lt(addr_bytes(h1), addr_bytes(h2)) && host_lt(addr_bytes(h2), addr_bytes(h3)) {
        lemma_host_lt_transitive(addr_bytes(h1), addr_bytes(h2), addr_bytes(h3));
    }
    if addr_bytes(h1) == addr_bytes(h2) && addr_bytes(h2) == addr_bytes(h3) {
        // both steps must order the opponents
        lemma_bytes_lt_transitive(addr_bytes(o1), addr_bytes(o2), addr_bytes(o3));
    }
}

/// Three-way comparison result for keys and their components.
#[derive(Clone, Copy, Debug, PartialEq, Eq, Structural)]
pub enum Cmp {
    Less,
    Equal,
    Greater,
}

/// Compares two byte strings lexicographically.
pub(crate) fn cmp_bytes(a: &[u8], b: &[u8]) -> (c: Cmp)
    ensures
        (c == Cmp::Less) <==> bytes_lt(a@, b@),
        (c == Cmp::Greater) <==> bytes_lt(b@, a@),
        (c == Cmp::Equal) <==> (a@ == b@),
{
    let n = if a.len() < b.len() {
        a.len()
    } else {
        b.len()
    };
    let mut i: usize = 0;
    while i < n
        invariant
            n <= a@.len(),
            n <= b@.len(),
            n == a@.len() || n == b@.len(),
            i <= n,
            a@.take(i as int) == b@.take(i as int),
        decreases n - i,
    {
        if a[i] < b[i] {
            proof {
                lemma_bytes_lt_at_diff(a@, b@, i as int);
                lemma_bytes_lt_asymmetric(a@, b@);
                lemma_bytes_lt_irreflexive(a@);
            }
            return Cmp::Less;
        }
        if b[i] < a[i] {
            proof {
                lemma_bytes_lt_at_diff(b@, a@, i as int);
                lemma_bytes_lt_asymmetric(b@, a@);
                lemma_bytes_lt_irreflexive(a@);
            }
            return Cmp::Greater;
        }
        proof {
            assert forall|j: int| 0 <= j < i + 1 implies #[trigger] a@.take(i as int + 1)[j]
                == b@.take(i as int + 1)[j] by {
                if j < i {
                    assert(a@.take(i as int)[j] == a@[j]);
                    assert(b@.take(i as int)[j] == b@[j]);
                }
            }
            assert(a@.take(i as int + 1) =~= b@.take(i as int + 1));
        }
        i += 1;
    }
    if a.len() == b.len() {
        proof {
            assert(a@.take(i as int) =~= a@);
            assert(b@.take(i as int) =~= b@);
            lemma_bytes_lt_irreflexive(a@);
        }
        Cmp::Equal
    } else if a.len() < b.len() {
        proof {
            assert(a@.take(i as int) =~= a@);
            lemma_bytes_lt_prefix(a@, b@);
            lemma_bytes_lt_asymmetric(a@, b@);
            lemma_bytes_lt_irreflexive(a@);
        }
        Cmp::Less
    } else {
        proof {
            assert(b@.take(i as int) =~= b@);
            lemma_bytes_lt_prefix(b@, a@);
            lemma_bytes_lt_asymmetric(b@, a@);
            lemma_bytes_lt_irreflexive(a@);
        }
        Cmp::Greater
    }
}

/// Compares two (host, opponent) keys in stored-key order.
pub(crate) fn cmp_keys(h1: &str, o1: &str, h2: &str, o2: &str) -> (c: Cmp)
    ensures
        (c == Cmp::Less) <==> pair_lt(h1@, o1@, h2@, o2@),
        (c == Cmp::Greater) <==> pair_lt(h2@, o2@, h1@, o1@),
        (c == Cmp::Equal) <==> (h1@ == h2@ && o1@ == o2@),
{
    let ha = h1.as_bytes();
    let hb = h2.as_bytes();
    proof {
        assert(ha@ == addr_bytes(h1@));
        assert(hb@ == addr_bytes(h2@));
        lemma_bytes_lt_irreflexive(ha@);
        lemma_bytes_lt_irreflexive(addr_bytes(o1@));
    }
    if ha.len() < hb.len() {
        return Cmp::Less;
    }
    if hb.len() < ha.len() {
        return Cmp::Greater;
    }
    let ch = cmp_bytes(ha, hb);
    if ch == Cmp::Less {
        proof {
            lemma_bytes_lt_asymmetric(ha@, hb@);
        }
        return Cmp::Less;
    }
    if ch == Cmp::Greater {
        proof {
            lemma_bytes_lt_asymmetric(hb@, ha@);
        }
        return Cmp::Greater;
    }
    proof {
        lemma_addr_bytes_injective(h1@, h2@);
    }
    let oa = o1.as_bytes();
    let ob = o2.as_bytes();
    proof {
        assert(oa@ == addr_bytes(o1@));
        assert(ob@ == addr_bytes(o2@));
    }
    let co = cmp_bytes(oa, ob);
    proof {
        lemma_bytes_lt_asymmetric(oa@, ob@);
        lemma_bytes_lt_asymmetric(ob@, oa@);
        if oa@ == ob@ {
            lemma_addr_bytes_injective(o1@, o2@);
        }
    }
    co
}

} // verus!
