//! The executable classifier and its result and error types.

use vstd::prelude::*;
use vstd::string::StrSliceExecFns;
use vstd::string::StringExecFns;

use crate::model::ArgsModel;
use crate::model::Violation;
use crate::model::apply_token;
use crate::model::empty_model;
use crate::model::first_eq;
use crate::model::flag_name;
use crate::model::has_eq;
use crate::model::is_flag_shaped;
use crate::model::is_pair_shaped;
use crate::model::is_positional;
use crate::model::keys_unique;
use crate::model::lemma_first_eq;
use crate::model::lemma_first_eq_unique;
use crate::model::lemma_pairs_map_push;
use crate::model::lemma_pairs_map_update;
use crate::model::pair_key;
use crate::model::pair_value;
use crate::model::pairs_map;
use crate::model::run;
use crate::model::token_violation;

verus! {

/// The reason a parse was aborted, carrying the offending token verbatim.
#[derive(Clone, Debug, PartialEq, Eq)]
pub enum CLIError {
    /// A single-dash token held an `=`, or had an empty name.
    FlagWithSign(String),
    /// Reserved: the classifier reports an empty flag name as
    /// `FlagWithSign`, so this kind is never produced.
    FlagMalformed(String),
    /// A double-dash token held no `=`.
    PairMissingSign(String),
    /// The first `=` of a double-dash token left the key or the value empty.
    PairBadSign(String),
    /// A double-dash token was shorter than the minimal `--k=v`.
    PairMalformed(String),
    /// A token started with three or more dashes.
    DashesMalformed(String),
}

impl CLIError {
    /// Which violation this error reports.
    pub open spec fn kind(self) -> Violation {
        match self {
            CLIError::FlagWithSign(_) => Violation::FlagWithSign,
            CLIError::FlagMalformed(_) => Violation::FlagMalformed,
            CLIError::PairMissingSign(_) => Violation::PairMissingSign,
            CLIError::PairBadSign(_) => Violation::PairBadSign,
            CLIError::PairMalformed(_) => Violation::PairMalformed,
            CLIError::DashesMalformed(_) => Violation::DashesMalformed,
        }
    }

    /// The offending token the error carries.
    pub open spec fn token(self) -> Seq<char> {
        match self {
            CLIError::FlagWithSign(a) => a@,
            CLIError::FlagMalformed(a) => a@,
            CLIError::PairMissingSign(a) => a@,
            CLIError::PairBadSign(a) => a@,
            CLIError::PairMalformed(a) => a@,
            CLIError::DashesMalformed(a) => a@,
        }
    }

    /// The two-line diagnostic each error kind displays: the violation
    /// with the offending token, then the proper syntax, except for the
    /// dash-count violation, which needs no syntax hint.
    pub open spec fn message_view(self) -> Seq<char> {
        match self {
            CLIError::FlagWithSign(a) => "Equal signs not allowed in flags: `"@ + a@
                + "`\nProper syntax: `./my_program -flag`"@,
            CLIError::FlagMalformed(a) => "Malformed flag: `"@ + a@
                + "`\nProper syntax: `./my_program -flag`"@,
            CLIError::PairMissingSign(a) => "Key-value pair arguments need an equal sign: `"@ + a@
                + "`\nProper syntax: `./my_program --key=value`"@,
            CLIError::PairBadSign(a) => "Improper use of equal sign in key-value pair: `"@ + a@
                + "`\nProper syntax: `./my_program --key=value`"@,
            CLIError::PairMalformed(a) => "Malformed key-value pair: `"@ + a@
                + "`\nProper syntax: `./my_program --key=value`"@,
            CLIError::DashesMalformed(a) => "Arguments cannot start with 3 or more dash lines: `"@
                + a@ + "`"@,
        }
    }

    /// Renders the diagnostic text of `message_view`.
    pub fn message(&self) -> (r: String)
        ensures
            r@ == self.message_view(),
    {
        match self {
            CLIError::FlagWithSign(a) => {
                let mut s = String::from_str("Equal signs not allowed in flags: `");
                s.append(a.as_str());
                s.append("`\nProper syntax: `./my_program -flag`");
                s
            },
            CLIError::FlagMalformed(a) => {
                let mut s = String::from_str("Malformed flag: `");
                s.append(a.as_str());
                s.append("`\nProper syntax: `./my_program -flag`");
                s
            },
            CLIError::PairMissingSign(a) => {
                let mut s = String::from_str("Key-value pair arguments need an equal sign: `");
                s.append(a.as_str());
                s.append("`\nProper syntax: `./my_program --key=value`");
                s
            },
            CLIError::PairBadSign(a) => {
                let mut s = String::from_str("Improper use of equal sign in key-value pair: `");
                s.append(a.as_str());
                s.append("`\nProper syntax: `./my_program --key=value`");
                s
            },
            CLIError::PairMalformed(a) => {
                let mut s = String::from_str("Malformed key-value pair: `");
                s.append(a.as_str());
                s.append("`\nProper syntax: `./my_program --key=value`");
                s
            },
            CLIError::DashesMalformed(a) => {
                let mut s = String::from_str("Arguments cannot start with 3 or more dash lines: `");
                s.append(a.as_str());
                s.append("`");
                s
            },
        }
    }
}

/// The result container: one field per category, all public.
#[derive(Clone, Debug, PartialEq, Eq)]
pub struct CLIParser {
    /// Positional arguments, in input order, duplicates allowed.
    pub posits: Vec<String>,
    /// Flag names, each held once, without the leading dash.
    pub flags: Vec<String>,
    /// Key-value pairs; each key held once, with its latest value.
    pub pairs: Vec<(String, String)>,
}

impl CLIParser {
    /// The positional sequence, as character sequences.
    pub open spec fn posits_seq(self) -> Seq<Seq<char>> {
        self.posits@.map_values(|s: String| s@)
    }

    /// The flag names, in the order they were first seen.
    pub open spec fn flags_seq(self) -> Seq<Seq<char>> {
        self.flags@.map_values(|s: String| s@)
    }

    /// The key-value entries, in the order the keys were first seen.
    pub open spec fn pairs_seq(self) -> Seq<(Seq<char>, Seq<char>)> {
        self.pairs@.map_values(|p: (String, String)| (p.0@, p.1@))
    }

    /// The abstract state the container denotes.
    pub open spec fn model(self) -> ArgsModel {
        ArgsModel {
            posits: self.posits_seq(),
            flags: self.flags_seq().to_set(),
            pairs: pairs_map(self.pairs_seq()),
        }
    }

    /// Well-formedness: no flag name and no pair key is held twice.
    pub open spec fn wf(self) -> bool {
        &&& forall|i: int, j: int|
            0 <= i < j < self.flags_seq().len() ==> self.flags_seq()[i] != self.flags_seq()[j]
        &&& forall|i: int, j: int|
            0 <= i < j < self.pairs_seq().len() ==> self.pairs_seq()[i].0 != self.pairs_seq()[j].0
    }
}

impl Default for CLIParser {
    /// An empty container: no positionals, no flags, no pairs.
    fn default() -> (r: Self)
        ensures
            r.wf(),
            r.model() == empty_model(),
    {
        let r = CLIParser { posits: Vec::new(), flags: Vec::new(), pairs: Vec::new() };
        proof {
            assert(r.model() =~= empty_model());
        }
        r
    }
}

/// The character sequences of a sequence of argument strings.
pub open spec fn tokens_of(args: Seq<String>) -> Seq<Seq<char>> {
    args.map_values(|s: String| s@)
}

/// The position of the first `=` in the string, if it holds one.
fn find_eq(s: &str) -> (r: Option<usize>)
    ensures
        match r {
            Some(p) => has_eq(s@) && p as int == first_eq(s@),
            None => !has_eq(s@),
        },
{
    let n = s.unicode_len();
    let mut i: usize = 0;
    while i < n
        invariant
            i <= n,
            n == s@.len(),
            forall|j: int| 0 <= j < i ==> s@[j] != '=',
        decreases n - i,
    {
        if s.get_char(i) == '=' {
            proof {
                lemma_first_eq_unique(s@, i as int);
            }
            return Some(i);
        }
        i = i + 1;
    }
    None
}

/// Whether some string of the vector reads the same as the given one.
fn holds_string(v: &Vec<String>, s: &String) -> (r: bool)
    ensures
        r == v@.map_values(|x: String| x@).contains(s@),
{
    let ghost vs = v@.map_values(|x: String| x@);
    let mut i: usize = 0;
    while i < v.len()
        invariant
            i <= v@.len(),
            vs == v@.map_values(|x: String| x@),
            forall|j: int| 0 <= j < i ==> vs[j] != s@,
        decreases v@.len() - i,
    {
        if v[i].eq(s) {
            proof {
                assert(vs[i as int] == s@);
            }
            return true;
        }
        i = i + 1;
    }
    false
}

/// The index of the entry carrying the key, if any entry does.
fn find_key(ps: &Vec<(String, String)>, key: &String) -> (r: Option<usize>)
    ensures
        match r {
            Some(i) => i < ps@.len() && ps@[i as int].0@ == key@,
            None => forall|j: int| 0 <= j < ps@.len() ==> (#[trigger] ps@[j]).0@ != key@,
        },
{
    let mut i: usize = 0;
    while i < ps.len()
        invariant
            i <= ps@.len(),
            forall|j: int| 0 <= j < i ==> (#[trigger] ps@[j]).0@ != key@,
        decreases ps@.len() - i,
    {
        if ps[i].0.eq(key) {
            return Some(i);
        }
        i = i + 1;
    }
    None
}

impl CLIParser {
    /// A new container with all three categories empty.
    pub fn new() -> (r: Self)
        ensures
            r.wf(),
            r.model() == empty_model(),
    {
        Self::default()
    }

    /// Appends one positional argument.
    fn push_posit(&mut self, s: String)
        requires
            old(self).wf(),
        ensures
            final(self).wf(),
            final(self).model() == (ArgsModel {
                posits: old(self).model().posits.push(s@),
                ..old(self).model()
            }),
    {
        self.posits.push(s);
        proof {
            assert(self.posits_seq() =~= old(self).posits_seq().push(s@));
            assert(self.model() =~= (ArgsModel {
                posits: old(self).model().posits.push(s@),
                ..old(self).model()
            }));
        }
    }

    /// Records one flag name, keeping each name at most once.
    fn insert_flag(&mut self, name: String)
        requires
            old(self).wf(),
        ensures
            final(self).wf(),
            final(self).model() == (ArgsModel {
                flags: old(self).model().flags.insert(name@),
                ..old(self).model()
            }),
    {
        let present = holds_string(&self.flags, &name);
        if !present {
            self.flags.push(name);
            proof {
                assert(self.flags_seq() =~= old(self).flags_seq().push(name@));
                assert forall|x: Seq<char>| #[trigger]
                    self.flags_seq().to_set().contains(x) <==> old(self).flags_seq().to_set().insert(
                        name@,
                    ).contains(x) by {
                    if self.flags_seq().contains(x) {
                        let i = choose|i: int|
                            0 <= i < self.flags_seq().len() && self.flags_seq()[i] == x;
                        if i < old(self).flags_seq().len() {
                            assert(old(self).flags_seq()[i] == x);
                        } else {
                            assert(x == name@);
                        }
                    }
                    if old(self).flags_seq().contains(x) {
                        let i = choose|i: int|
                            0 <= i < old(self).flags_seq().len() && old(self).flags_seq()[i] == x;
                        assert(self.flags_seq()[i] == x);
                    }
                    if x == name@ {
                        assert(self.flags_seq()[self.flags_seq().len() - 1] == x);
                    }
                }
                assert(self.flags_seq().to_set() =~= old(self).flags_seq().to_set().insert(name@));
                assert(self.model() =~= (ArgsModel {
                    flags: old(self).model().flags.insert(name@),
                    ..old(self).model()
                }));
            }
        } else {
            proof {
                assert(old(self).flags_seq().to_set().contains(name@));
                assert(old(self).flags_seq().to_set().insert(name@) =~= old(
                    self,
                ).flags_seq().to_set());
                assert(self.model() =~= (ArgsModel {
                    flags: old(self).model().flags.insert(name@),
                    ..old(self).model()
                }));
            }
        }
    }

    /// Records one key-value pair, overwriting the value of a key already
    /// held.
    fn insert_pair(&mut self, key: String, value: String)
        requires
            old(self).wf(),
        ensures
            final(self).wf(),
            final(self).model() == (ArgsModel {
                pairs: old(self).model().pairs.insert(key@, value@),
                ..old(self).model()
            }),
    {
        let found = find_key(&self.pairs, &key);
        match found {
            Some(i) => {
                let ghost ops = old(self).pairs_seq();
                self.pairs[i] = (key, value);
                proof {
                    assert(keys_unique(ops));
                    assert(ops[i as int].0 == old(self).pairs@[i as int].0@);
                    assert(ops[i as int].0 == key@);
                    assert(self.flags_seq() =~= old(self).flags_seq());
                    assert(self.posits_seq() =~= old(self).posits_seq());
                    assert(self.pairs_seq() =~= ops.update(i as int, (key@, value@)));
                    lemma_pairs_map_update(ops, i as int, value@);
                    let ns = self.pairs_seq();
                    assert forall|a: int, b: int| 0 <= a < b < ns.len() implies ns[a].0
                        != ns[b].0 by {
                        assert(ops[a].0 != ops[b].0);
                        assert(ns[a].0 == ops[a].0);
                        assert(ns[b].0 == ops[b].0);
                    }
                    assert(self.wf());
                    assert(self.model() =~= (ArgsModel {
                        pairs: old(self).model().pairs.insert(key@, value@),
                        ..old(self).model()
                    }));
                }
            },
            None => {
                let ghost ops = old(self).pairs_seq();
                let ghost kv = (key@, value@);
                self.pairs.push((key, value));
                proof {
                    assert(self.flags_seq() =~= old(self).flags_seq());
                    assert(self.posits_seq() =~= old(self).posits_seq());
                    assert(self.pairs_seq() =~= ops.push(kv));
                    lemma_pairs_map_push(ops, kv.0, kv.1);
                    let ns = self.pairs_seq();
                    assert forall|a: int, b: int| 0 <= a < b < ns.len() implies ns[a].0
                        != ns[b].0 by {
                        if b < ops.len() {
                            assert(ops[a].0 != ops[b].0);
                            assert(ns[a].0 == ops[a].0);
                            assert(ns[b].0 == ops[b].0);
                        } else {
                            assert(ns[b].0 == key@);
                            assert(ns[a].0 == ops[a].0);
                            assert(old(self).pairs@[a].0@ != key@);
                            assert(ops[a].0 == old(self).pairs@[a].0@);
                        }
                    }
                    assert(self.wf());
                    assert(self.model() =~= (ArgsModel {
                        pairs: old(self).model().pairs.insert(key@, value@),
                        ..old(self).model()
                    }));
                }
            },
        }
    }

    /// Classifies every token in order, or reports the first malformed
    /// one.
    ///
    /// Each token joins the category its dash prefix selects: none for a
    /// positional, one for a flag, two for a key-value pair split at the
    /// first `=`; three or more dashes, a flag holding `=` or lacking a
    /// name, and a pair lacking `=`, too short, or with an empty key or
    /// value, abort the parse with the offending token. On failure no
    /// container is handed back at all.
    #[verifier::loop_isolation(false)]
    pub fn init(self, arguments: Vec<String>) -> (r: Result<Self, CLIError>)
        requires
            self.wf(),
        ensures
            match r {
                Ok(p) => p.wf() && run(self.model(), tokens_of(arguments@)) == Ok::<
                    ArgsModel,
                    (Violation, Seq<char>),
                >(p.model()),
                Err(e) => run(self.model(), tokens_of(arguments@)) == Err::<
                    ArgsModel,
                    (Violation, Seq<char>),
                >((e.kind(), e.token())),
            },
    {
        let ghost m0 = self.model();
        let ghost toks = tokens_of(arguments@);
        let mut p = self;
        let n: usize = arguments.len();
        let mut idx: usize = 0;
        proof {
            assert(toks.subrange(0, n as int) =~= toks);
        }
        while idx < n
            invariant
                idx <= n,
                n == arguments@.len(),
                toks == tokens_of(arguments@),
                p.wf(),
                run(m0, toks) == run(p.model(), toks.subrange(idx as int, n as int)),
            decreases n - idx,
        {
            let arg = &arguments[idx];
            let ghost t = arg@;
            let ghost rest = toks.subrange(idx as int, n as int);
            proof {
                assert(toks[idx as int] == t);
                assert(rest[0] == t);
                assert(rest.subrange(1, rest.len() as int) =~= toks.subrange(
                    idx as int + 1,
                    n as int,
                ));
            }
            let ghost pm = p.model();
            let alen = arg.as_str().unicode_len();
            if alen == 0 || arg.as_str().get_char(0) != '-' {
                proof {
                    assert(is_positional(t));
                }
                p.push_posit(arg.clone());
                proof {
                    assert(p.model() =~= apply_token(pm, t));
                }
            } else if alen == 1 || arg.as_str().get_char(1) != '-' {
                proof {
                    assert(is_flag_shaped(t));
                }
                match find_eq(arg.as_str()) {
                    Some(_) => {
                        proof {
                            assert(token_violation(t) == Some(Violation::FlagWithSign));
                            assert(run(pm, rest) == Err::<ArgsModel, (Violation, Seq<char>)>(
                                (Violation::FlagWithSign, t),
                            ));
                        }
                        return Err(CLIError::FlagWithSign(arg.clone()));
                    },
                    None => {},
                }
                if alen < 2 {
                    proof {
                        assert(token_violation(t) == Some(Violation::FlagWithSign));
                        assert(run(pm, rest) == Err::<ArgsModel, (Violation, Seq<char>)>(
                            (Violation::FlagWithSign, t),
                        ));
                    }
                    return Err(CLIError::FlagWithSign(arg.clone()));
                }
                let name = String::from_str(arg.as_str().substring_char(1, alen));
                proof {
                    assert(name@ == flag_name(t));
                }
                p.insert_flag(name);
                proof {
                    assert(p.model() =~= apply_token(pm, t));
                }
            } else if alen == 2 || arg.as_str().get_char(2) != '-' {
                proof {
                    assert(is_pair_shaped(t));
                    assert(!is_positional(t) && !is_flag_shaped(t));
                }
                match find_eq(arg.as_str()) {
                    None => {
                        proof {
                            assert(token_violation(t) == Some(Violation::PairMissingSign));
                            assert(run(pm, rest) == Err::<ArgsModel, (Violation, Seq<char>)>(
                                (Violation::PairMissingSign, t),
                            ));
                        }
                        return Err(CLIError::PairMissingSign(arg.clone()));
                    },
                    Some(ep) => {
                        if alen < 5 {
                            proof {
                                assert(token_violation(t) == Some(Violation::PairMalformed));
                                assert(run(pm, rest) == Err::<ArgsModel, (Violation, Seq<char>)>(
                                    (Violation::PairMalformed, t),
                                ));
                            }
                            return Err(CLIError::PairMalformed(arg.clone()));
                        }
                        if ep == 2 || ep == alen - 1 {
                            proof {
                                assert(token_violation(t) == Some(Violation::PairBadSign));
                                assert(run(pm, rest) == Err::<ArgsModel, (Violation, Seq<char>)>(
                                    (Violation::PairBadSign, t),
                                ));
                            }
                            return Err(CLIError::PairBadSign(arg.clone()));
                        }
                        proof {
                            lemma_first_eq(t);
                        }
                        let key = String::from_str(arg.as_str().substring_char(2, ep));
                        let value = String::from_str(arg.as_str().substring_char(ep + 1, alen));
                        proof {
                            assert(key@ == pair_key(t));
                            assert(value@ == pair_value(t));
                        }
                        p.insert_pair(key, value);
                        proof {
                            assert(p.model() =~= apply_token(pm, t));
                        }
                    },
                }
            } else {
                proof {
                    assert(token_violation(t) == Some(Violation::DashesMalformed));
                    assert(run(pm, rest) == Err::<ArgsModel, (Violation, Seq<char>)>(
                        (Violation::DashesMalformed, t),
                    ));
                }
                return Err(CLIError::DashesMalformed(arg.clone()));
            }
            proof {
                assert(token_violation(t) is None);
                assert(p.model() == apply_token(pm, t));
                assert(run(m0, toks) == run(p.model(), toks.subrange(idx as int + 1, n as int)));
            }
            idx = idx + 1;
        }
        proof {
            assert(toks.subrange(n as int, n as int) =~= Seq::<Seq<char>>::empty());
        }
        Ok(p)
    }
}

} // verus!
