//! The key-to-slot mapping and the nibble-level comparison of keys.
//!
//! A key is addressed by flat nibble positions: position `i` selects byte
//! `i / 2`, high half for even `i`, low half for odd `i`. A position past the
//! end of the key yields the reserved slot 0 ("key exhausted"); a real nibble
//! yields `1 +` its value, in `[1, 16]`. Slot 0 never collides with a real
//! nibble, which is what distinguishes a key from its own proper prefixes.

use vstd::prelude::*;

verus! {

/// The logical slot selected by `key` at nibble position `index`.
pub open spec fn spec_nibble(key: Seq<u8>, index: nat) -> int {
    if index / 2 >= key.len() {
        0
    } else {
        let byte = key[(index / 2) as int];
        if index % 2 == 0 {
            1 + (byte >> 4u8) as int
        } else {
            1 + (byte & 0xfu8) as int
        }
    }
}

/// Nibble slots lie in `[0, 17)`.
pub proof fn lemma_nibble_bound(key: Seq<u8>, index: nat)
    ensures
        0 <= spec_nibble(key, index) < 17,
{
    if index / 2 < key.len() {
        let byte = key[(index / 2) as int];
        assert((byte >> 4u8) <= 15 && (byte & 0xfu8) <= 15) by (bit_vector);
    }
}

/// Whether `k1` and `k2` select the same slot at every nibble position
/// strictly below `i`.
pub open spec fn agree_below(k1: Seq<u8>, k2: Seq<u8>, i: nat) -> bool {
    forall|j: nat| j < i ==> spec_nibble(k1, j) == spec_nibble(k2, j)
}

/// The first byte position at or after `from` where `k1` and `k2` differ,
/// or their common length if they agree over it.
pub open spec fn first_diff_byte(k1: Seq<u8>, k2: Seq<u8>, from: nat) -> nat
    decreases (if k1.len() <= k2.len() {
        k1.len()
    } else {
        k2.len()
    }) - from,
{
    let m = if k1.len() <= k2.len() {
        k1.len()
    } else {
        k2.len()
    };
    if from >= m {
        m
    } else if k1[from as int] != k2[from as int] {
        from
    } else {
        first_diff_byte(k1, k2, from + 1)
    }
}

/// The nibble position at which two distinct keys split: the first position
/// where they select different slots.
pub open spec fn spec_split_index(k1: Seq<u8>, k2: Seq<u8>) -> nat
    recommends
        k1 != k2,
{
    let m = if k1.len() <= k2.len() {
        k1.len()
    } else {
        k2.len()
    };
    let i = first_diff_byte(k1, k2, 0);
    if i < m {
        if (k1[i as int] >> 4u8) != (k2[i as int] >> 4u8) {
            2 * i
        } else {
            2 * i + 1
        }
    } else {
        2 * m
    }
}

/// `first_diff_byte` returns a position in `[from, m]`; the keys agree on
/// every byte in `[from, result)` and differ at the result when it is below
/// the common length.
pub proof fn lemma_first_diff_byte(k1: Seq<u8>, k2: Seq<u8>, from: nat)
    ensures
        ({
            let m = if k1.len() <= k2.len() {
                k1.len()
            } else {
                k2.len()
            };
            let i = first_diff_byte(k1, k2, from);
            &&& from <= i <= m || m <= from
            &&& i <= m || m <= from
            &&& forall|j: int| from <= j < i && j < m ==> k1[j] == k2[j]
            &&& i < m ==> k1[i as int] != k2[i as int]
        }),
    decreases (if k1.len() <= k2.len() {
        k1.len()
    } else {
        k2.len()
    }) - from,
{
    let m = if k1.len() <= k2.len() {
        k1.len()
    } else {
        k2.len()
    };
    if from < m && k1[from as int] == k2[from as int] {
        lemma_first_diff_byte(k1, k2, from + 1);
    }
}

/// Strict ascending key order: the order in which the trie yields entries.
/// Two keys compare at the first nibble position where they select different
/// slots; a proper prefix is exhausted there (slot 0) and so sorts before all
/// of its extensions. On keys of equal length this is bytewise lexicographic
/// order.
pub open spec fn key_lt(a: Seq<u8>, b: Seq<u8>) -> bool {
    exists|j: nat| agree_below(a, b, j) && spec_nibble(a, j) < spec_nibble(b, j)
}

/// No key is below itself.
pub proof fn lemma_key_lt_irrefl(a: Seq<u8>)
    ensures
        !key_lt(a, a),
{
    if key_lt(a, a) {
        let j = choose|j: nat| agree_below(a, a, j) && spec_nibble(a, j) < spec_nibble(a, j);
        assert(false);
    }
}

/// Distinct keys are strictly ordered one way or the other, never both.
pub proof fn lemma_key_lt_total(a: Seq<u8>, b: Seq<u8>)
    requires
        a != b,
    ensures
        key_lt(a, b) <==> !key_lt(b, a),
{
    lemma_split_index(a, b);
    let si = spec_split_index(a, b);
    assert forall|j: nat| j < si implies spec_nibble(b, j) == spec_nibble(a, j) by {
        assert(spec_nibble(a, j) == spec_nibble(b, j));
    }
    assert(agree_below(b, a, si));
    if spec_nibble(a, si) < spec_nibble(b, si) {
        assert(key_lt(a, b));
    } else {
        assert(spec_nibble(b, si) < spec_nibble(a, si));
        assert(key_lt(b, a));
    }
    if key_lt(a, b) && key_lt(b, a) {
        let j1 = choose|j: nat| agree_below(a, b, j) && spec_nibble(a, j) < spec_nibble(b, j);
        let j2 = choose|j: nat| agree_below(b, a, j) && spec_nibble(b, j) < spec_nibble(a, j);
        if j1 < j2 {
            assert(spec_nibble(b, j1) == spec_nibble(a, j1));
        } else if j2 < j1 {
            assert(spec_nibble(a, j2) == spec_nibble(b, j2));
        }
        assert(false);
    }
}

/// The bytewise reading of the key order: `a` sorts before `b` exactly when
/// the keys differ at some byte within their common length and `a` holds the
/// smaller byte at the first such position, or `a` is a proper prefix of `b`.
pub proof fn lemma_key_lt_bytewise(a: Seq<u8>, b: Seq<u8>)
    ensures
        key_lt(a, b) <==> ({
            let m = if a.len() <= b.len() {
                a.len()
            } else {
                b.len()
            };
            let i = first_diff_byte(a, b, 0);
            if i < m {
                a[i as int] < b[i as int]
            } else {
                a.len() < b.len()
            }
        }),
{
    let m = if a.len() <= b.len() {
        a.len()
    } else {
        b.len()
    };
    let i = first_diff_byte(a, b, 0);
    lemma_first_diff_byte(a, b, 0);
    if i < m {
        let x = a[i as int];
        let y = b[i as int];
        assert(x != y);
        assert(a != b) by {
            if a == b {
                assert(a[i as int] == b[i as int]);
            }
        }
        lemma_split_index(a, b);
        lemma_key_lt_total(a, b);
        let si = spec_split_index(a, b);
        if (x >> 4u8) != (y >> 4u8) {
            assert(si == 2 * i);
            assert(si / 2 == i && si % 2 == 0);
            assert(spec_nibble(a, si) == 1 + (x >> 4u8) as int);
            assert(spec_nibble(b, si) == 1 + (y >> 4u8) as int);
            assert((x < y) == ((x >> 4u8) < (y >> 4u8))) by (bit_vector)
                requires
                    (x >> 4u8) != (y >> 4u8),
            ;
        } else {
            assert(si == 2 * i + 1);
            assert(si / 2 == i && si % 2 == 1);
            assert(spec_nibble(a, si) == 1 + (x & 0xfu8) as int);
            assert(spec_nibble(b, si) == 1 + (y & 0xfu8) as int);
            assert((x < y) == ((x & 0xfu8) < (y & 0xfu8)) && (x & 0xfu8) != (y & 0xfu8))
                by (bit_vector)
                requires
                    (x >> 4u8) == (y >> 4u8),
                    x != y,
            ;
        }
        if spec_nibble(a, si) < spec_nibble(b, si) {
            assert(key_lt(a, b));
            assert(x < y);
        } else {
            assert(spec_nibble(b, si) < spec_nibble(a, si));
            assert forall|j: nat| j < si implies spec_nibble(b, j) == spec_nibble(a, j) by {
                assert(spec_nibble(a, j) == spec_nibble(b, j));
            }
            assert(key_lt(b, a));
            assert(!key_lt(a, b));
            assert(!(x < y));
        }
    } else {
        if a.len() == b.len() {
            assert(a =~= b);
            lemma_key_lt_irrefl(a);
        } else {
            assert(a != b) by {
                if a == b {
                    assert(a.len() == b.len());
                }
            }
            lemma_split_index(a, b);
            lemma_key_lt_total(a, b);
            let si = spec_split_index(a, b);
            assert(si == 2 * m);
            assert(si / 2 == m && si % 2 == 0);
            if a.len() < b.len() {
                assert(spec_nibble(a, si) == 0);
                assert(spec_nibble(b, si) == 1 + (b[m as int] >> 4u8) as int);
                assert(key_lt(a, b));
            } else {
                assert(spec_nibble(b, si) == 0);
                assert(spec_nibble(a, si) == 1 + (a[m as int] >> 4u8) as int);
                assert forall|j: nat| j < si implies spec_nibble(b, j) == spec_nibble(a, j) by {
                    assert(spec_nibble(a, j) == spec_nibble(b, j));
                }
                assert(key_lt(b, a));
                assert(!key_lt(a, b));
            }
        }
    }
}

/// `first_diff_byte` from an earlier position is determined by byte-wise
/// agreement: if the keys agree on `[0, i)` and differ at `i` (or `i` is the
/// common length), the first difference from 0 is exactly `i`.
pub proof fn lemma_first_diff_byte_at(k1: Seq<u8>, k2: Seq<u8>, from: nat, i: nat)
    requires
        from <= i,
        forall|j: int| from <= j < i ==> k1[j] == k2[j],
        i <= (if k1.len() <= k2.len() {
            k1.len()
        } else {
            k2.len()
        }),
        i < (if k1.len() <= k2.len() {
            k1.len()
        } else {
            k2.len()
        }) ==> k1[i as int] != k2[i as int],
    ensures
        first_diff_byte(k1, k2, from) == i,
    decreases i - from,
{
    if from < i {
        lemma_first_diff_byte_at(k1, k2, from + 1, i);
    }
}

/// If two keys agree on bytes `[0, i)`, they agree on every nibble position
/// below `2 * i`.
pub proof fn lemma_byte_agreement_to_nibbles(k1: Seq<u8>, k2: Seq<u8>, i: nat)
    requires
        i <= k1.len(),
        i <= k2.len(),
        forall|j: int| 0 <= j < i ==> k1[j] == k2[j],
    ensures
        agree_below(k1, k2, 2 * i),
{
    assert forall|j: nat| j < 2 * i implies spec_nibble(k1, j) == spec_nibble(k2, j) by {
        assert(j / 2 < i);
        assert(k1[(j / 2) as int] == k2[(j / 2) as int]);
    }
}

/// Two distinct keys agree on every nibble position below their split index
/// and select different slots exactly at it.
pub proof fn lemma_split_index(k1: Seq<u8>, k2: Seq<u8>)
    requires
        k1 != k2,
    ensures
        agree_below(k1, k2, spec_split_index(k1, k2)),
        spec_nibble(k1, spec_split_index(k1, k2)) != spec_nibble(k2, spec_split_index(k1, k2)),
{
    let m = if k1.len() <= k2.len() {
        k1.len()
    } else {
        k2.len()
    };
    let i = first_diff_byte(k1, k2, 0);
    let si = spec_split_index(k1, k2);
    lemma_first_diff_byte(k1, k2, 0);
    if i < m {
        lemma_byte_agreement_to_nibbles(k1, k2, i);
        let b1 = k1[i as int];
        let b2 = k2[i as int];
        if (b1 >> 4u8) != (b2 >> 4u8) {
            assert(si == 2 * i);
            assert(spec_nibble(k1, si) == 1 + (b1 >> 4u8) as int);
            assert(spec_nibble(k2, si) == 1 + (b2 >> 4u8) as int);
        } else {
            // the bytes differ, so their low halves must
            assert((b1 & 0xfu8) != (b2 & 0xfu8)) by (bit_vector)
                requires
                    b1 != b2,
                    (b1 >> 4u8) == (b2 >> 4u8),
            ;
            assert(si == 2 * i + 1);
            // agreement extends over the shared high half of byte i
            assert forall|j: nat| j < si implies spec_nibble(k1, j) == spec_nibble(k2, j) by {
                if j < 2 * i {
                    assert(agree_below(k1, k2, 2 * i));
                } else {
                    assert(j == 2 * i);
                    assert(j / 2 == i && j % 2 == 0);
                }
            }
            assert(spec_nibble(k1, si) == 1 + (b1 & 0xfu8) as int);
            assert(spec_nibble(k2, si) == 1 + (b2 & 0xfu8) as int);
        }
    } else {
        // one key is a proper prefix of the other: the shorter is exhausted
        // at position 2 * m, the longer still has a real nibble there
        assert(k1.len() != k2.len()) by {
            if k1.len() == k2.len() {
                assert(k1 =~= k2);
            }
        }
        lemma_byte_agreement_to_nibbles(k1, k2, m);
        assert(si == 2 * m);
        assert(si / 2 == m && si % 2 == 0);
        if k1.len() < k2.len() {
            assert(spec_nibble(k1, si) == 0);
            assert(spec_nibble(k2, si) == 1 + (k2[m as int] >> 4u8) as int);
        } else {
            assert(spec_nibble(k2, si) == 0);
            assert(spec_nibble(k1, si) == 1 + (k1[m as int] >> 4u8) as int);
        }
    }
}

/// The split index is the only position below which two keys agree while
/// differing at it.
pub proof fn lemma_split_index_unique(k1: Seq<u8>, k2: Seq<u8>, d: nat)
    requires
        k1 != k2,
        agree_below(k1, k2, d),
        spec_nibble(k1, d) != spec_nibble(k2, d),
    ensures
        spec_split_index(k1, k2) == d,
{
    lemma_split_index(k1, k2);
    let si = spec_split_index(k1, k2);
    if si < d {
        assert(spec_nibble(k1, si) == spec_nibble(k2, si));
    }
    if si > d {
        assert(spec_nibble(k1, d) == spec_nibble(k2, d));
    }
}

/// A key that agrees with `k1` strictly beyond the split index of `k1` and
/// `k2` splits from `k1` later than `k2` does.
pub proof fn lemma_split_index_later(k1: Seq<u8>, u: Seq<u8>, si: nat)
    requires
        u != k1,
        agree_below(k1, u, si),
        spec_nibble(k1, si) == spec_nibble(u, si),
    ensures
        spec_split_index(k1, u) > si,
{
    lemma_split_index(k1, u);
    let d = spec_split_index(k1, u);
    if d <= si {
        if d < si {
            assert(spec_nibble(k1, d) == spec_nibble(u, d));
        }
        assert(false);
    }
}

} // verus!
