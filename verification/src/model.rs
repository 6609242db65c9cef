//! The mathematical model of the classifier.
//!
//! A token is a `Seq<char>`. Each token is classified by its dash prefix,
//! checked for structural violations, and — when well formed — folded into
//! an [`ArgsModel`]: the positional sequence, the flag set, and the
//! key-value map. The whole parse is the recursive fold [`run`], which
//! stops at the first violating token.

use vstd::prelude::*;

verus! {

/// The abstract state of a parse: what the three output containers hold.
#[verifier::ext_equal]
pub struct ArgsModel {
    /// Positional tokens, in input order, duplicates allowed.
    pub posits: Seq<Seq<char>>,
    /// Flag names (the token without its single leading dash), as a set.
    pub flags: Set<Seq<char>>,
    /// Key-value pairs; a key named twice keeps the later value.
    pub pairs: Map<Seq<char>, Seq<char>>,
}

/// The six ways a token can be malformed.
pub enum Violation {
    /// A single-dash token holding `=`, or with an empty name.
    FlagWithSign,
    /// Reserved in the error taxonomy; the classifier never reports it.
    FlagMalformed,
    /// A double-dash token with no `=`.
    PairMissingSign,
    /// A double-dash token whose key or value is empty.
    PairBadSign,
    /// A double-dash token too short to hold `--k=v`.
    PairMalformed,
    /// A token starting with three or more dashes.
    DashesMalformed,
}

/// The model a parse starts from: all three containers empty.
pub open spec fn empty_model() -> ArgsModel {
    ArgsModel { posits: Seq::empty(), flags: Set::empty(), pairs: Map::empty() }
}

/// A token with no leading dash: always a positional argument.
pub open spec fn is_positional(t: Seq<char>) -> bool {
    t.len() == 0 || t[0] != '-'
}

/// A token with exactly one leading dash: a flag candidate.
pub open spec fn is_flag_shaped(t: Seq<char>) -> bool {
    t.len() >= 1 && t[0] == '-' && (t.len() == 1 || t[1] != '-')
}

/// A token with exactly two leading dashes: a key-value candidate.
pub open spec fn is_pair_shaped(t: Seq<char>) -> bool {
    t.len() >= 2 && t[0] == '-' && t[1] == '-' && (t.len() == 2 || t[2] != '-')
}

/// A token with three or more leading dashes: always rejected.
pub open spec fn is_triple_dashed(t: Seq<char>) -> bool {
    t.len() >= 3 && t[0] == '-' && t[1] == '-' && t[2] == '-'
}

/// Whether the token holds an `=` anywhere.
pub open spec fn has_eq(t: Seq<char>) -> bool {
    exists|i: int| 0 <= i < t.len() && t[i] == '='
}

/// The index of the first `=` in the token, or its length if there is none.
pub open spec fn first_eq(t: Seq<char>) -> int
    decreases t.len(),
{
    if t.len() == 0 {
        0
    } else if t[0] == '=' {
        0
    } else {
        1 + first_eq(t.subrange(1, t.len() as int))
    }
}

/// What `first_eq` returns: the least index holding `=`, or the length.
pub proof fn lemma_first_eq(t: Seq<char>)
    ensures
        0 <= first_eq(t) <= t.len(),
        has_eq(t) ==> first_eq(t) < t.len() && t[first_eq(t)] == '=',
        !has_eq(t) ==> first_eq(t) == t.len(),
        forall|j: int| 0 <= j < first_eq(t) ==> t[j] != '=',
    decreases t.len(),
{
    if t.len() == 0 {
    } else if t[0] == '=' {
        assert(has_eq(t));
    } else {
        let rest = t.subrange(1, t.len() as int);
        lemma_first_eq(rest);
        assert(forall|i: int| 0 <= i < rest.len() ==> rest[i] == t[i + 1]);
        if has_eq(t) {
            let i = choose|i: int| 0 <= i < t.len() && t[i] == '=';
            assert(rest[i - 1] == '=');
            assert(has_eq(rest));
        }
        if has_eq(rest) {
            let i = choose|i: int| 0 <= i < rest.len() && rest[i] == '=';
            assert(t[i + 1] == '=');
            assert(has_eq(t));
        }
        assert(forall|j: int| 1 <= j < first_eq(t) ==> t[j] == rest[j - 1]);
    }
}

/// An index that holds the first `=` is exactly `first_eq`.
pub proof fn lemma_first_eq_unique(t: Seq<char>, i: int)
    requires
        0 <= i < t.len(),
        t[i] == '=',
        forall|j: int| 0 <= j < i ==> t[j] != '=',
    ensures
        first_eq(t) == i,
{
    lemma_first_eq(t);
    assert(has_eq(t));
}

/// The violation a token is rejected with, if any.
///
/// The checks run in the order of the executable pass: a flag candidate is
/// rejected for holding `=` before it is rejected for being too short; a
/// pair candidate is rejected for a missing `=` first, then for being
/// shorter than `--k=v`, then for an `=` that leaves the key or the value
/// empty.
pub open spec fn token_violation(t: Seq<char>) -> Option<Violation> {
    if is_positional(t) {
        None
    } else if is_flag_shaped(t) {
        if has_eq(t) {
            Some(Violation::FlagWithSign)
        } else if t.len() < 2 {
            Some(Violation::FlagWithSign)
        } else {
            None
        }
    } else if is_pair_shaped(t) {
        if !has_eq(t) {
            Some(Violation::PairMissingSign)
        } else if t.len() < 5 {
            Some(Violation::PairMalformed)
        } else if first_eq(t) == 2 || first_eq(t) == t.len() - 1 {
            Some(Violation::PairBadSign)
        } else {
            None
        }
    } else {
        Some(Violation::DashesMalformed)
    }
}

/// The flag name: everything after the single leading dash.
pub open spec fn flag_name(t: Seq<char>) -> Seq<char> {
    t.subrange(1, t.len() as int)
}

/// The key: everything between the two leading dashes and the first `=`.
pub open spec fn pair_key(t: Seq<char>) -> Seq<char> {
    t.subrange(2, first_eq(t))
}

/// The value: everything after the first `=`.
pub open spec fn pair_value(t: Seq<char>) -> Seq<char> {
    t.subrange(first_eq(t) + 1, t.len() as int)
}

/// How one accepted token extends the model.
pub open spec fn apply_token(m: ArgsModel, t: Seq<char>) -> ArgsModel
    recommends
        token_violation(t) is None,
{
    if is_positional(t) {
        ArgsModel { posits: m.posits.push(t), ..m }
    } else if is_flag_shaped(t) {
        ArgsModel { flags: m.flags.insert(flag_name(t)), ..m }
    } else {
        ArgsModel { pairs: m.pairs.insert(pair_key(t), pair_value(t)), ..m }
    }
}

/// The whole parse: fold the tokens into the model in order, or stop at
/// the first violating token, reporting its violation and the token itself.
pub open spec fn run(m: ArgsModel, tokens: Seq<Seq<char>>) -> Result<
    ArgsModel,
    (Violation, Seq<char>),
>
    decreases tokens.len(),
{
    if tokens.len() == 0 {
        Ok(m)
    } else {
        match token_violation(tokens[0]) {
            Some(v) => Err((v, tokens[0])),
            None => run(apply_token(m, tokens[0]), tokens.subrange(1, tokens.len() as int)),
        }
    }
}

/// A map extended by a sequence of key-value pairs, in order; a later
/// pair with the same key overwrites an earlier one.
pub open spec fn map_plus(m0: Map<Seq<char>, Seq<char>>, ps: Seq<(Seq<char>, Seq<char>)>) -> Map<
    Seq<char>,
    Seq<char>,
>
    decreases ps.len(),
{
    if ps.len() == 0 {
        m0
    } else {
        map_plus(m0, ps.drop_last()).insert(ps.last().0, ps.last().1)
    }
}

/// The map a sequence of key-value pairs denotes, last write winning.
pub open spec fn pairs_map(ps: Seq<(Seq<char>, Seq<char>)>) -> Map<Seq<char>, Seq<char>> {
    map_plus(Map::empty(), ps)
}

/// Whether some entry of the sequence carries the key.
pub open spec fn seq_has_key(ps: Seq<(Seq<char>, Seq<char>)>, k: Seq<char>) -> bool {
    exists|i: int| 0 <= i < ps.len() && ps[i].0 == k
}

/// Whether no two entries of the sequence carry the same key.
pub open spec fn keys_unique(ps: Seq<(Seq<char>, Seq<char>)>) -> bool {
    forall|i: int, j: int| 0 <= i < j < ps.len() ==> ps[i].0 != ps[j].0
}

/// The keys of `pairs_map` are exactly the keys of the entries.
pub proof fn lemma_pairs_map_membership(ps: Seq<(Seq<char>, Seq<char>)>)
    ensures
        forall|k: Seq<char>| #[trigger] pairs_map(ps).contains_key(k) <==> seq_has_key(ps, k),
    decreases ps.len(),
{
    if ps.len() > 0 {
        let dl = ps.drop_last();
        lemma_pairs_map_membership(dl);
        assert forall|k: Seq<char>| #[trigger] pairs_map(ps).contains_key(k) <==> seq_has_key(
            ps,
            k,
        ) by {
            if pairs_map(ps).contains_key(k) {
                if k == ps.last().0 {
                    assert(ps[ps.len() - 1].0 == k);
                } else {
                    assert(pairs_map(dl).contains_key(k));
                    assert(seq_has_key(dl, k));
                    let i = choose|i: int| 0 <= i < dl.len() && dl[i].0 == k;
                    assert(ps[i].0 == k);
                }
            }
            if seq_has_key(ps, k) {
                let i = choose|i: int| 0 <= i < ps.len() && ps[i].0 == k;
                if i < ps.len() - 1 {
                    assert(dl[i].0 == k);
                    assert(seq_has_key(dl, k));
                    assert(pairs_map(dl).contains_key(k));
                } else {
                    assert(k == ps.last().0);
                }
                assert(pairs_map(ps).contains_key(k));
            }
        }
    }
}

/// With unique keys, `pairs_map` sends each entry's key to its value.
pub proof fn lemma_pairs_map_index(ps: Seq<(Seq<char>, Seq<char>)>, i: int)
    requires
        keys_unique(ps),
        0 <= i < ps.len(),
    ensures
        pairs_map(ps).contains_key(ps[i].0),
        pairs_map(ps)[ps[i].0] == ps[i].1,
    decreases ps.len(),
{
    let dl = ps.drop_last();
    if i == ps.len() - 1 {
    } else {
        assert(ps[i].0 != ps.last().0);
        assert(keys_unique(dl)) by {
            assert(forall|x: int, y: int|
                0 <= x < y < dl.len() ==> ps[x].0 == dl[x].0 && ps[y].0 == dl[y].0);
        }
        assert(dl[i] == ps[i]);
        lemma_pairs_map_index(dl, i);
    }
}

/// Appending an entry inserts its key-value pair into the map.
pub proof fn lemma_pairs_map_push(ps: Seq<(Seq<char>, Seq<char>)>, k: Seq<char>, v: Seq<char>)
    ensures
        pairs_map(ps.push((k, v))) == pairs_map(ps).insert(k, v),
{
    assert(ps.push((k, v)).drop_last() =~= ps);
    assert(ps.push((k, v)).last() == (k, v));
}

/// With unique keys, replacing the value at one entry inserts the new
/// value for that entry's key.
pub proof fn lemma_pairs_map_update(ps: Seq<(Seq<char>, Seq<char>)>, i: int, v: Seq<char>)
    requires
        keys_unique(ps),
        0 <= i < ps.len(),
    ensures
        pairs_map(ps.update(i, (ps[i].0, v))) == pairs_map(ps).insert(ps[i].0, v),
{
    let k = ps[i].0;
    let qs = ps.update(i, (k, v));
    assert(forall|j: int| 0 <= j < ps.len() ==> qs[j].0 == ps[j].0);
    assert(keys_unique(qs));
    lemma_pairs_map_membership(ps);
    lemma_pairs_map_membership(qs);
    assert forall|x: Seq<char>|
        pairs_map(qs).contains_key(x) <==> pairs_map(ps).insert(k, v).contains_key(x) by {
        if pairs_map(qs).contains_key(x) {
            let j = choose|j: int| 0 <= j < qs.len() && qs[j].0 == x;
            assert(ps[j].0 == x);
            assert(seq_has_key(ps, x));
        }
        if pairs_map(ps).insert(k, v).contains_key(x) {
            if x == k {
                assert(qs[i].0 == x);
            } else {
                assert(pairs_map(ps).contains_key(x));
                let j = choose|j: int| 0 <= j < ps.len() && ps[j].0 == x;
                assert(qs[j].0 == x);
            }
            assert(seq_has_key(qs, x));
        }
    }
    assert forall|x: Seq<char>| #[trigger]
        pairs_map(qs).contains_key(x) implies pairs_map(qs)[x] == pairs_map(ps).insert(k, v)[x] by {
        let j = choose|j: int| 0 <= j < qs.len() && qs[j].0 == x;
        lemma_pairs_map_index(qs, j);
        if x == k {
            assert(j == i) by {
                if j != i {
                    assert(qs[i].0 == k && qs[j].0 == k);
                }
            }
            assert(pairs_map(qs)[x] == v);
        } else {
            assert(j != i);
            assert(qs[j] == ps[j]);
            lemma_pairs_map_index(ps, j);
        }
    }
    assert(pairs_map(qs) =~= pairs_map(ps).insert(k, v));
}

} // verus!
