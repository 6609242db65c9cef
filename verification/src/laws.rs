//! General properties of the classifier, proved once and for all.
//!
//! The laws are stated over [`run`], the specification fold that the
//! executable pass is proved equal to, so each of them carries over to
//! every call of the parser.

use vstd::prelude::*;

use crate::model::ArgsModel;
use crate::model::Violation;
use crate::model::apply_token;
use crate::model::empty_model;
use crate::model::first_eq;
use crate::model::flag_name;
use crate::model::has_eq;
use crate::model::is_flag_shaped;
use crate::model::is_pair_shaped;
use crate::model::is_positional;
use crate::model::lemma_first_eq;
use crate::model::lemma_first_eq_unique;
use crate::model::keys_unique;
use crate::model::lemma_pairs_map_index;
use crate::model::lemma_pairs_map_membership;
use crate::model::map_plus;
use crate::model::pair_key;
use crate::model::pair_value;
use crate::model::pairs_map;
use crate::model::run;
use crate::model::seq_has_key;
use crate::model::token_violation;
use crate::parser::CLIParser;

verus! {

/// A name a flag token can carry: non-empty, no leading dash, no `=`.
pub open spec fn valid_flag_name(n: Seq<char>) -> bool {
    n.len() >= 1 && n[0] != '-' && (forall|i: int| 0 <= i < n.len() ==> n[i] != '=')
}

/// A key a pair token can carry: non-empty, no leading dash, no `=`.
pub open spec fn valid_pair_key(k: Seq<char>) -> bool {
    k.len() >= 1 && k[0] != '-' && (forall|i: int| 0 <= i < k.len() ==> k[i] != '=')
}

/// The token that names a flag: a dash followed by the name.
pub open spec fn flag_token(n: Seq<char>) -> Seq<char> {
    seq!['-'] + n
}

/// The token that binds a key to a value: `--`, key, `=`, value.
pub open spec fn pair_token(k: Seq<char>, v: Seq<char>) -> Seq<char> {
    seq!['-', '-'] + k + seq!['='] + v
}

/// The flag tokens of a sequence of names.
pub open spec fn flag_tokens(ns: Seq<Seq<char>>) -> Seq<Seq<char>> {
    ns.map_values(|n: Seq<char>| flag_token(n))
}

/// The pair tokens of a sequence of key-value entries.
pub open spec fn pair_tokens(ps: Seq<(Seq<char>, Seq<char>)>) -> Seq<Seq<char>> {
    ps.map_values(|p: (Seq<char>, Seq<char>)| pair_token(p.0, p.1))
}

/// Running a concatenation runs the first part, then the second from
/// where the first left off; an error in the first part is final.
pub proof fn lemma_run_append(m: ArgsModel, a: Seq<Seq<char>>, b: Seq<Seq<char>>)
    ensures
        run(m, a + b) == (match run(m, a) {
            Ok(m2) => run(m2, b),
            Err(e) => Err(e),
        }),
    decreases a.len(),
{
    if a.len() == 0 {
        assert(a + b =~= b);
    } else {
        let ab = a + b;
        assert(ab[0] == a[0]);
        match token_violation(a[0]) {
            Some(_) => {},
            None => {
                assert(ab.subrange(1, ab.len() as int) =~= a.subrange(1, a.len() as int) + b);
                lemma_run_append(apply_token(m, a[0]), a.subrange(1, a.len() as int), b);
            },
        }
    }
}

/// A well-formed flag token is accepted and names exactly its name.
pub proof fn lemma_flag_token_ok(n: Seq<char>)
    requires
        valid_flag_name(n),
    ensures
        is_flag_shaped(flag_token(n)),
        token_violation(flag_token(n)) is None,
        flag_name(flag_token(n)) == n,
{
    let t = flag_token(n);
    assert(t.len() == 1 + n.len());
    assert(t[0] == '-');
    assert(t[1] == n[0]);
    assert(!has_eq(t)) by {
        assert forall|i: int| 0 <= i < t.len() implies t[i] != '=' by {
            if i > 0 {
                assert(t[i] == n[i - 1]);
            }
        }
    }
    assert(flag_name(t) =~= n);
}

/// A well-formed pair token is accepted and splits into exactly its key
/// and its value.
pub proof fn lemma_pair_token_ok(k: Seq<char>, v: Seq<char>)
    requires
        valid_pair_key(k),
        v.len() >= 1,
    ensures
        is_pair_shaped(pair_token(k, v)),
        token_violation(pair_token(k, v)) is None,
        pair_key(pair_token(k, v)) == k,
        pair_value(pair_token(k, v)) == v,
{
    let t = pair_token(k, v);
    let p = 2 + k.len() as int;
    assert(t.len() == 3 + k.len() + v.len());
    assert(t[0] == '-');
    assert(t[1] == '-');
    assert(t[2] == k[0]);
    assert(forall|i: int| 2 <= i < p ==> t[i] == k[i - 2]);
    assert(t[p] == '=');
    assert(forall|i: int| p < i < t.len() ==> t[i] == v[i - (p + 1)]);
    lemma_first_eq_unique(t, p);
    assert(has_eq(t));
    assert(t.len() >= 5);
    assert(first_eq(t) != 2);
    assert(first_eq(t) != t.len() - 1);
    assert(pair_key(t) =~= k);
    assert(pair_value(t) =~= v);
}

/// A token without a leading dash parses, alone, to itself as the only
/// positional argument, with no flags and no pairs.
pub proof fn lemma_positional_identity(t: Seq<char>)
    requires
        is_positional(t),
    ensures
        run(empty_model(), seq![t]) == Ok::<ArgsModel, (Violation, Seq<char>)>(
            (ArgsModel { posits: seq![t], flags: Set::empty(), pairs: Map::empty() }),
        ),
{
    let toks = seq![t];
    assert(toks[0] == t);
    assert(toks.subrange(1, 1) =~= Seq::<Seq<char>>::empty());
    let m1 = apply_token(empty_model(), t);
    assert(run(m1, Seq::<Seq<char>>::empty()) == Ok::<ArgsModel, (Violation, Seq<char>)>(m1));
    assert(run(empty_model(), toks) == Ok::<ArgsModel, (Violation, Seq<char>)>(m1));
    assert(m1 =~= (ArgsModel { posits: seq![t], flags: Set::empty(), pairs: Map::empty() }));
}

/// However often a well-formed flag token repeats, the resulting flag
/// set holds its name — once, since a set holds nothing twice.
pub proof fn lemma_flag_repeat(m: ArgsModel, n: Seq<char>, count: int)
    requires
        valid_flag_name(n),
        count >= 1,
    ensures
        run(m, Seq::new(count as nat, |i: int| flag_token(n))) == Ok::<
            ArgsModel,
            (Violation, Seq<char>),
        >((ArgsModel { flags: m.flags.insert(n), ..m })),
    decreases count,
{
    let toks = Seq::new(count as nat, |i: int| flag_token(n));
    lemma_flag_token_ok(n);
    assert(toks[0] == flag_token(n));
    let m1 = apply_token(m, flag_token(n));
    assert(m1 == (ArgsModel { flags: m.flags.insert(n), ..m }));
    if count == 1 {
        assert(toks.subrange(1, 1) =~= Seq::<Seq<char>>::empty());
        assert(run(m1, Seq::<Seq<char>>::empty()) == Ok::<ArgsModel, (Violation, Seq<char>)>(m1));
        assert(run(m, toks) == Ok::<ArgsModel, (Violation, Seq<char>)>(m1));
    } else {
        assert(toks.subrange(1, count) =~= Seq::new((count - 1) as nat, |i: int| flag_token(n)));
        lemma_flag_repeat(m1, n, count - 1);
        assert(run(m, toks) == run(m1, Seq::new((count - 1) as nat, |i: int| flag_token(n))));
        assert((ArgsModel { flags: m1.flags.insert(n), ..m1 }) =~= (ArgsModel {
            flags: m.flags.insert(n),
            ..m
        }));
    }
}

/// One well-formed flag token parses to the flag set holding exactly its
/// name, however often the token repeats in the input.
pub proof fn lemma_flag_identity(n: Seq<char>, count: int)
    requires
        valid_flag_name(n),
        count >= 1,
    ensures
        run(empty_model(), Seq::new(count as nat, |i: int| flag_token(n))) == Ok::<
            ArgsModel,
            (Violation, Seq<char>),
        >((ArgsModel { posits: Seq::empty(), flags: Set::empty().insert(n), pairs: Map::empty() })),
{
    lemma_flag_repeat(empty_model(), n, count);
}

/// One well-formed pair token parses to the mapping of its key to its
/// value, and nothing else.
pub proof fn lemma_pair_identity(k: Seq<char>, v: Seq<char>)
    requires
        valid_pair_key(k),
        v.len() >= 1,
    ensures
        run(empty_model(), seq![pair_token(k, v)]) == Ok::<ArgsModel, (Violation, Seq<char>)>(
            (ArgsModel {
                posits: Seq::empty(),
                flags: Set::empty(),
                pairs: Map::empty().insert(k, v),
            }),
        ),
{
    let toks = seq![pair_token(k, v)];
    lemma_pair_token_ok(k, v);
    assert(toks[0] == pair_token(k, v));
    assert(toks.subrange(1, 1) =~= Seq::<Seq<char>>::empty());
    let m1 = apply_token(empty_model(), pair_token(k, v));
    assert(run(m1, Seq::<Seq<char>>::empty()) == Ok::<ArgsModel, (Violation, Seq<char>)>(m1));
    assert(run(empty_model(), toks) == Ok::<ArgsModel, (Violation, Seq<char>)>(m1));
    assert(m1 =~= (ArgsModel {
        posits: Seq::empty(),
        flags: Set::empty(),
        pairs: Map::empty().insert(k, v),
    }));
}

/// Binding the same key twice keeps the later value: the earlier binding
/// is overwritten, not kept beside it.
pub proof fn lemma_pair_last_wins(k: Seq<char>, v1: Seq<char>, v2: Seq<char>)
    requires
        valid_pair_key(k),
        v1.len() >= 1,
        v2.len() >= 1,
    ensures
        run(empty_model(), seq![pair_token(k, v1), pair_token(k, v2)]) == Ok::<
            ArgsModel,
            (Violation, Seq<char>),
        >((ArgsModel {
            posits: Seq::empty(),
            flags: Set::empty(),
            pairs: Map::empty().insert(k, v2),
        })),
{
    let toks = seq![pair_token(k, v1), pair_token(k, v2)];
    lemma_pair_token_ok(k, v1);
    lemma_pair_token_ok(k, v2);
    assert(toks[0] == pair_token(k, v1));
    let m1 = apply_token(empty_model(), pair_token(k, v1));
    assert(toks.subrange(1, 2) =~= seq![pair_token(k, v2)]);
    lemma_pair_identity_from(m1, k, v2);
    assert(run(empty_model(), toks) == run(m1, seq![pair_token(k, v2)]));
    let m2 = apply_token(m1, pair_token(k, v2));
    assert(m2.pairs =~= Map::empty().insert(k, v2));
    assert(m2 =~= (ArgsModel {
        posits: Seq::empty(),
        flags: Set::empty(),
        pairs: Map::empty().insert(k, v2),
    }));
}

/// One well-formed pair token, from any starting model, inserts its
/// binding and changes nothing else.
proof fn lemma_pair_identity_from(m: ArgsModel, k: Seq<char>, v: Seq<char>)
    requires
        valid_pair_key(k),
        v.len() >= 1,
    ensures
        run(m, seq![pair_token(k, v)]) == Ok::<ArgsModel, (Violation, Seq<char>)>(
            (ArgsModel { pairs: m.pairs.insert(k, v), ..m }),
        ),
{
    let toks = seq![pair_token(k, v)];
    lemma_pair_token_ok(k, v);
    assert(toks[0] == pair_token(k, v));
    assert(toks.subrange(1, 1) =~= Seq::<Seq<char>>::empty());
    let m1 = apply_token(m, pair_token(k, v));
    assert(run(m1, Seq::<Seq<char>>::empty()) == Ok::<ArgsModel, (Violation, Seq<char>)>(m1));
    assert(run(m, toks) == Ok::<ArgsModel, (Violation, Seq<char>)>(m1));
}

/// Positional tokens append themselves, in order, and touch nothing else.
proof fn lemma_run_positionals(m: ArgsModel, posits: Seq<Seq<char>>)
    requires
        forall|i: int| 0 <= i < posits.len() ==> is_positional(#[trigger] posits[i]),
    ensures
        run(m, posits) == Ok::<ArgsModel, (Violation, Seq<char>)>(
            (ArgsModel { posits: m.posits + posits, ..m }),
        ),
    decreases posits.len(),
{
    if posits.len() == 0 {
        assert((ArgsModel { posits: m.posits + posits, ..m }) =~= m);
    } else {
        let t = posits[0];
        let rest = posits.subrange(1, posits.len() as int);
        let m1 = apply_token(m, t);
        lemma_run_positionals(m1, rest);
        assert(run(m, posits) == run(m1, rest));
        assert(m1.posits + rest =~= m.posits + posits);
        assert((ArgsModel { posits: m1.posits + rest, ..m1 }) =~= (ArgsModel {
            posits: m.posits + posits,
            ..m
        }));
    }
}

/// Flag tokens add their names to the flag set and touch nothing else.
proof fn lemma_run_flags(m: ArgsModel, ns: Seq<Seq<char>>)
    requires
        forall|i: int| 0 <= i < ns.len() ==> valid_flag_name(#[trigger] ns[i]),
    ensures
        run(m, flag_tokens(ns)) == Ok::<ArgsModel, (Violation, Seq<char>)>(
            (ArgsModel { flags: m.flags.union(ns.to_set()), ..m }),
        ),
    decreases ns.len(),
{
    let toks = flag_tokens(ns);
    if ns.len() == 0 {
        assert(toks =~= Seq::<Seq<char>>::empty());
        assert(run(m, toks) == Ok::<ArgsModel, (Violation, Seq<char>)>(m));
        assert(m.flags.union(ns.to_set()) =~= m.flags);
        assert((ArgsModel { flags: m.flags.union(ns.to_set()), ..m }) =~= m);
    } else {
        let n0 = ns[0];
        lemma_flag_token_ok(n0);
        assert(toks[0] == flag_token(n0));
        let rest_ns = ns.subrange(1, ns.len() as int);
        assert(toks.subrange(1, toks.len() as int) =~= flag_tokens(rest_ns));
        let m1 = apply_token(m, flag_token(n0));
        lemma_run_flags(m1, rest_ns);
        assert(run(m, toks) == run(m1, flag_tokens(rest_ns)));
        assert(m1.flags.union(rest_ns.to_set()) =~= m.flags.union(ns.to_set())) by {
            assert forall|x: Seq<char>| #[trigger] ns.to_set().contains(x) implies x == n0
                || rest_ns.to_set().contains(x) by {
                let i = choose|i: int| 0 <= i < ns.len() && ns[i] == x;
                if i > 0 {
                    assert(rest_ns[i - 1] == x);
                }
            }
            assert forall|x: Seq<char>| #[trigger] rest_ns.to_set().contains(x) implies ns.to_set().contains(
                x,
            ) by {
                let i = choose|i: int| 0 <= i < rest_ns.len() && rest_ns[i] == x;
                assert(ns[i + 1] == x);
            }
            assert(ns[0] == n0);
            assert(ns.to_set().contains(n0));
        }
        assert((ArgsModel { flags: m1.flags.union(rest_ns.to_set()), ..m1 }) =~= (ArgsModel {
            flags: m.flags.union(ns.to_set()),
            ..m
        }));
    }
}

/// Pair tokens fold their bindings into the map, in order, later
/// bindings overwriting earlier ones, and touch nothing else.
proof fn lemma_run_pairs(m: ArgsModel, ps: Seq<(Seq<char>, Seq<char>)>)
    requires
        forall|i: int|
            0 <= i < ps.len() ==> valid_pair_key((#[trigger] ps[i]).0) && ps[i].1.len() >= 1,
    ensures
        run(m, pair_tokens(ps)) == Ok::<ArgsModel, (Violation, Seq<char>)>(
            (ArgsModel { pairs: map_plus(m.pairs, ps), ..m }),
        ),
    decreases ps.len(),
{
    if ps.len() == 0 {
        assert(pair_tokens(ps) =~= Seq::<Seq<char>>::empty());
        assert(run(m, pair_tokens(ps)) == Ok::<ArgsModel, (Violation, Seq<char>)>(m));
        assert((ArgsModel { pairs: map_plus(m.pairs, ps), ..m }) =~= m);
    } else {
        let dl = ps.drop_last();
        let last = ps.last();
        assert(ps[ps.len() - 1] == last);
        assert(pair_tokens(ps) =~= pair_tokens(dl) + seq![pair_token(last.0, last.1)]);
        lemma_run_append(m, pair_tokens(dl), seq![pair_token(last.0, last.1)]);
        assert(forall|i: int| 0 <= i < dl.len() ==> dl[i] == ps[i]);
        lemma_run_pairs(m, dl);
        let mid = ArgsModel { pairs: map_plus(m.pairs, dl), ..m };
        lemma_pair_identity_from(mid, last.0, last.1);
        assert(run(m, pair_tokens(ps)) == run(mid, seq![pair_token(last.0, last.1)]));
        assert((ArgsModel { pairs: mid.pairs.insert(last.0, last.1), ..mid }) =~= (ArgsModel {
            pairs: map_plus(m.pairs, ps),
            ..m
        }));
    }
}

/// Re-parsing a parse's own output, re-serialized in the canonical order
/// — the positionals, then one token per flag, then one token per pair —
/// reproduces exactly the same parsed state.
pub proof fn lemma_reparse(
    posits: Seq<Seq<char>>,
    ns: Seq<Seq<char>>,
    ps: Seq<(Seq<char>, Seq<char>)>,
)
    requires
        forall|i: int| 0 <= i < posits.len() ==> is_positional(#[trigger] posits[i]),
        forall|i: int| 0 <= i < ns.len() ==> valid_flag_name(#[trigger] ns[i]),
        forall|i: int|
            0 <= i < ps.len() ==> valid_pair_key((#[trigger] ps[i]).0) && ps[i].1.len() >= 1,
    ensures
        run(empty_model(), posits + flag_tokens(ns) + pair_tokens(ps)) == Ok::<
            ArgsModel,
            (Violation, Seq<char>),
        >((ArgsModel { posits: posits, flags: ns.to_set(), pairs: pairs_map(ps) })),
{
    lemma_run_append(empty_model(), posits + flag_tokens(ns), pair_tokens(ps));
    lemma_run_append(empty_model(), posits, flag_tokens(ns));
    lemma_run_positionals(empty_model(), posits);
    let m1 = ArgsModel {
        posits: Seq::<Seq<char>>::empty() + posits,
        ..empty_model()
    };
    lemma_run_flags(m1, ns);
    let m2 = ArgsModel { flags: m1.flags.union(ns.to_set()), ..m1 };
    lemma_run_pairs(m2, ps);
    let m3 = ArgsModel { pairs: map_plus(m2.pairs, ps), ..m2 };
    assert(m3 =~= (ArgsModel { posits: posits, flags: ns.to_set(), pairs: pairs_map(ps) })) by {
        assert(m1.posits =~= posits);
        assert(m2.flags =~= ns.to_set());
    }
}

/// What a successful parse records is itself fit for re-serialization:
/// no positional carries a leading dash, every flag name and every key
/// is non-empty with no leading dash and no `=`, and every value is
/// non-empty.
pub open spec fn model_valid(m: ArgsModel) -> bool {
    &&& forall|i: int| 0 <= i < m.posits.len() ==> is_positional(#[trigger] m.posits[i])
    &&& forall|n: Seq<char>| #[trigger] m.flags.contains(n) ==> valid_flag_name(n)
    &&& forall|k: Seq<char>| #[trigger]
        m.pairs.contains_key(k) ==> valid_pair_key(k) && m.pairs[k].len() >= 1
}

/// Re-parsing a well-formed container's own contents, re-serialized in
/// the canonical order, yields back exactly the state it denotes.
pub proof fn lemma_reparse_container(p: CLIParser)
    requires
        p.wf(),
        model_valid(p.model()),
    ensures
        run(
            empty_model(),
            p.posits_seq() + flag_tokens(p.flags_seq()) + pair_tokens(p.pairs_seq()),
        ) == Ok::<ArgsModel, (Violation, Seq<char>)>(p.model()),
{
    let posits = p.posits_seq();
    let ns = p.flags_seq();
    let ps = p.pairs_seq();
    assert forall|i: int| 0 <= i < posits.len() implies is_positional(#[trigger] posits[i]) by {
        assert(p.model().posits[i] == posits[i]);
        assert(is_positional(p.model().posits[i]));
    }
    assert forall|i: int| 0 <= i < ns.len() implies valid_flag_name(#[trigger] ns[i]) by {
        assert(ns.to_set().contains(ns[i]));
        assert(p.model().flags.contains(ns[i]));
    }
    assert(keys_unique(ps));
    lemma_pairs_map_membership(ps);
    assert forall|i: int| 0 <= i < ps.len() implies valid_pair_key((#[trigger] ps[i]).0)
        && ps[i].1.len() >= 1 by {
        assert(seq_has_key(ps, ps[i].0));
        assert(pairs_map(ps).contains_key(ps[i].0));
        assert(p.model().pairs.contains_key(ps[i].0));
        lemma_pairs_map_index(ps, i);
        assert(p.model().pairs[ps[i].0] == ps[i].1);
    }
    lemma_reparse(posits, ns, ps);
    assert((ArgsModel { posits: posits, flags: ns.to_set(), pairs: pairs_map(ps) }) =~= p.model());
}

/// A parse that starts from a valid state ends in one: everything the
/// classifier accepts can be re-serialized and re-parsed.
pub proof fn lemma_run_valid(m: ArgsModel, toks: Seq<Seq<char>>, m2: ArgsModel)
    requires
        model_valid(m),
        run(m, toks) == Ok::<ArgsModel, (Violation, Seq<char>)>(m2),
    ensures
        model_valid(m2),
    decreases toks.len(),
{
    if toks.len() == 0 {
    } else {
        let t = toks[0];
        assert(token_violation(t) is None);
        let m1 = apply_token(m, t);
        assert(model_valid(m1)) by {
            if is_positional(t) {
                assert forall|i: int| 0 <= i < m1.posits.len() implies is_positional(
                    #[trigger] m1.posits[i],
                ) by {
                    if i < m.posits.len() {
                        assert(m1.posits[i] == m.posits[i]);
                    } else {
                        assert(m1.posits[i] == t);
                    }
                }
            } else if is_flag_shaped(t) {
                let nm = flag_name(t);
                assert(valid_flag_name(nm)) by {
                    assert(t.len() >= 2);
                    assert(nm.len() == t.len() - 1);
                    assert(nm[0] == t[1]);
                    assert(!has_eq(t));
                    assert forall|i: int| 0 <= i < nm.len() implies nm[i] != '=' by {
                        assert(nm[i] == t[i + 1]);
                    }
                }
                assert forall|x: Seq<char>| #[trigger] m1.flags.contains(x) implies valid_flag_name(
                    x,
                ) by {
                    if x != nm {
                        assert(m.flags.contains(x));
                    }
                }
            } else {
                lemma_first_eq(t);
                let p = first_eq(t);
                let k = pair_key(t);
                let v = pair_value(t);
                assert(has_eq(t));
                assert(t[0] == '-' && t[1] == '-');
                assert(p > 2) by {
                    assert(t[p] == '=');
                    assert(p != 2);
                }
                assert(p < t.len() - 1);
                assert(valid_pair_key(k)) by {
                    assert(k.len() == p - 2);
                    assert(k[0] == t[2]);
                    assert(t.len() >= 5);
                    assert(t[2] != '-');
                    assert forall|i: int| 0 <= i < k.len() implies k[i] != '=' by {
                        assert(k[i] == t[i + 2]);
                    }
                }
                assert(v.len() >= 1);
                assert forall|x: Seq<char>| #[trigger] m1.pairs.contains_key(x) implies
                valid_pair_key(x) && m1.pairs[x].len() >= 1 by {
                    if x != k {
                        assert(m.pairs.contains_key(x));
                        assert(m1.pairs[x] == m.pairs[x]);
                    }
                }
            }
        }
        assert(run(m1, toks.subrange(1, toks.len() as int)) == Ok::<
            ArgsModel,
            (Violation, Seq<char>),
        >(m2));
        lemma_run_valid(m1, toks.subrange(1, toks.len() as int), m2);
    }
}

} // verus!
