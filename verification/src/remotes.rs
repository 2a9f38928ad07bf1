//! The remote-set resolver.
//!
//! `KnownRemotes` holds the set of remotes the repository reports, as a
//! lexicographically sorted sequence without duplicates. From it and the
//! user's preference list the resolver builds the attempt order: preferred
//! remotes first, in the order given, skipping (or, for an explicit
//! command-line remote under fail-fast, rejecting) those that do not exist,
//! then every remaining known remote in lexicographic order.

use vstd::prelude::*;

use crate::config::{spec_preferences, Config};
use crate::errors::Error;
use crate::lex::{
    lemma_lex_lt_connected, lemma_lex_lt_irreflexive, lemma_lex_lt_transitive,
    lemma_strictly_sorted_no_duplicates, lex_lt, names_contain, push_name, str_eq, str_lt,
    strictly_sorted,
};
use crate::text::{parse_remote_names, spec_remote_names};

verus! {

/// Everything a filtered sequence holds was in the sequence.
proof fn lemma_filter_subset<A>(s: Seq<A>, p: spec_fn(A) -> bool)
    ensures
        forall|x: A| #[trigger] s.filter(p).contains(x) ==> s.contains(x),
    decreases s.len(),
{
    reveal(Seq::filter);
    if s.len() > 0 {
        lemma_filter_subset(s.drop_last(), p);
        assert forall|x: A| #[trigger] s.filter(p).contains(x) implies s.contains(x) by {
            if s.drop_last().filter(p).contains(x) {
                let k = choose|k: int|
                    0 <= k < s.drop_last().len() && s.drop_last()[k] == x;
                assert(s[k] == x);
            } else {
                assert(s[s.len() - 1] == x);
            }
        }
    }
}

/// The set of remote names the repository knows, sorted lexicographically,
/// without duplicates.
pub struct KnownRemotes {
    names: Vec<String>,
}

impl View for KnownRemotes {
    type V = Seq<Seq<char>>;

    closed spec fn view(&self) -> Seq<Seq<char>> {
        self.names.deep_view()
    }
}

/// Insert `name` into a sorted, duplicate-free vector, keeping it so.
fn insert_sorted(v: &mut Vec<String>, name: String)
    requires
        strictly_sorted(old(v).deep_view()),
    ensures
        strictly_sorted(final(v).deep_view()),
        final(v).deep_view().to_set() == old(v).deep_view().to_set().insert(name@),
{
    let ghost dv0 = v.deep_view();
    let ghost nv = name@;
    let mut i: usize = 0;
    loop
        invariant_except_break
            strictly_sorted(v.deep_view()),
            v.deep_view() == dv0,
            name@ == nv,
            i <= v@.len(),
            v@.len() == dv0.len(),
            forall|j: int| 0 <= j < i ==> lex_lt(dv0[j], nv),
        ensures
            strictly_sorted(v.deep_view()),
            v.deep_view() == dv0,
            name@ == nv,
            i <= v@.len(),
            v@.len() == dv0.len(),
            forall|j: int| 0 <= j < i ==> lex_lt(dv0[j], nv),
            i < v@.len() ==> !lex_lt(dv0[i as int], nv),
        decreases v@.len() - i,
    {
        if i >= v.len() {
            break;
        }
        let vi: &String = &v[i];
        let smaller = str_lt(vi.as_str(), name.as_str());
        proof {
            assert(v.deep_view()[i as int] == v@[i as int]@);
            assert(dv0[i as int] == v@[i as int]@);
        }
        if !smaller {
            break;
        }
        i = i + 1;
    }
    let dup = if i < v.len() {
        let vi: &String = &v[i];
        str_eq(vi.as_str(), name.as_str())
    } else {
        false
    };
    if dup {
        proof {
            assert(dv0.contains(nv)) by {
                assert(dv0[i as int] == nv);
            }
            assert(dv0.to_set() =~= dv0.to_set().insert(nv));
        }
        return ;
    }
    proof {
        if i < dv0.len() {
            assert(!lex_lt(dv0[i as int], nv) && dv0[i as int] != nv);
            lemma_lex_lt_connected(dv0[i as int], nv);
        }
    }
    v.insert(i, name);
    proof {
        let dv1 = v.deep_view();
        assert(dv1 =~= dv0.insert(i as int, nv)) by {
            dv0.insert_ensures(i as int, nv);
            assert(v@.len() == dv0.len() + 1);
            assert forall|j: int| 0 <= j < dv1.len() implies dv1[j] == dv0.insert(
                i as int,
                nv,
            )[j] by {
                assert(v@[j] == old(v)@.insert(i as int, name)[j]);
                old(v)@.insert_ensures(i as int, name);
                if j < i as int {
                    assert(v@[j] == old(v)@[j]);
                } else if j == i as int {
                    assert(v@[j] == name);
                } else {
                    assert(old(v)@.insert(i as int, name)[(j - 1) + 1] == old(v)@[j - 1]);
                    assert(dv0.insert(i as int, nv)[(j - 1) + 1] == dv0[j - 1]);
                }
            }
        }
        dv0.insert_ensures(i as int, nv);
        assert(strictly_sorted(dv1)) by {
            assert forall|p: int, q: int| 0 <= p < q < dv1.len() implies lex_lt(
                dv1[p],
                dv1[q],
            ) by {
                if q < i as int {
                } else if p < i as int && q == i as int {
                    assert(dv1[p] == dv0[p]);
                    assert(lex_lt(dv0[p], nv));
                } else if p < i as int && q > i as int {
                    assert(dv1[q] == dv0[q - 1]);
                    if q - 1 == p {
                        assert(lex_lt(dv0[p], nv));
                        assert(false);
                    }
                } else if p == i as int {
                    assert(dv1[q] == dv0[q - 1]);
                    assert(lex_lt(nv, dv0[i as int]));
                    if q - 1 > i as int {
                        lemma_lex_lt_transitive(nv, dv0[i as int], dv0[q - 1]);
                    }
                } else {
                    assert(dv1[p] == dv0[p - 1]);
                    assert(dv1[q] == dv0[q - 1]);
                }
            }
        }
        assert(dv1.to_set() =~= dv0.to_set().insert(nv)) by {
            assert forall|x: Seq<char>| dv1.to_set().contains(x) implies dv0.to_set().insert(
                nv,
            ).contains(x) by {
                let k = choose|k: int| 0 <= k < dv1.len() && dv1[k] == x;
                if k < i as int {
                    assert(dv0[k] == x);
                } else if k > i as int {
                    assert(dv0[k - 1] == x);
                }
            }
            assert forall|x: Seq<char>| dv0.to_set().insert(nv).contains(x) implies dv1.to_set()
                .contains(x) by {
                if x == nv {
                    assert(dv1[i as int] == x);
                } else {
                    let k = choose|k: int| 0 <= k < dv0.len() && dv0[k] == x;
                    if k < i as int {
                        assert(dv1[k] == x);
                    } else {
                        assert(dv1[k + 1] == x);
                    }
                }
            }
        }
    }
}

impl KnownRemotes {
    /// Sorted and duplicate-free: what every constructor establishes.
    pub open spec fn wf(&self) -> bool {
        strictly_sorted(self@)
    }

    /// Build the set from the names the collaborator reported, in any
    /// order, with duplicates allowed: the result holds exactly the given
    /// names, sorted.
    pub fn from_names(names: Vec<String>) -> (r: Self)
        ensures
            r.wf(),
            r@.to_set() == names.deep_view().to_set(),
    {
        let mut sorted: Vec<String> = Vec::new();
        let mut i: usize = 0;
        proof {
            assert(names.deep_view().take(0) =~= Seq::<Seq<char>>::empty());
            assert(Seq::<Seq<char>>::empty().to_set() =~= Set::<Seq<char>>::empty());
        }
        while i < names.len()
            invariant
                i <= names@.len(),
                strictly_sorted(sorted.deep_view()),
                sorted.deep_view().to_set() == names.deep_view().take(i as int).to_set(),
            decreases names@.len() - i,
        {
            insert_sorted(&mut sorted, names[i].clone());
            proof {
                let dv = names.deep_view();
                assert(dv.take(i as int + 1) =~= dv.take(i as int).push(dv[i as int]));
                dv.take(i as int).lemma_push_to_set_commute(dv[i as int]);
            }
            i = i + 1;
        }
        proof {
            assert(names.deep_view().take(i as int) =~= names.deep_view());
        }
        KnownRemotes { names: sorted }
    }

    /// The set named in the collaborator's remote listing: its lines,
    /// trimmed.
    pub fn from_listing_output(output: &str) -> (r: Self)
        ensures
            r.wf(),
            r@.to_set() == spec_remote_names(output@).to_set(),
    {
        Self::from_names(parse_remote_names(output))
    }

    pub fn len(&self) -> (n: usize)
        ensures
            n == self@.len(),
    {
        self.names.len()
    }

    pub fn get(&self, i: usize) -> (r: &String)
        requires
            i < self@.len(),
        ensures
            r@ == self@[i as int],
    {
        &self.names[i]
    }

    pub fn contains_name(&self, name: &str) -> (r: bool)
        ensures
            r == self@.contains(name@),
    {
        names_contain(&self.names, name)
    }
}

/// The preferred remotes that exist, first occurrences only, in the order
/// the preference list gives them.
pub open spec fn spec_preferred_pass(prefs: Seq<Seq<char>>, known: Set<Seq<char>>) -> Seq<Seq<char>>
    decreases prefs.len(),
{
    if prefs.len() == 0 {
        Seq::<Seq<char>>::empty()
    } else {
        let init = spec_preferred_pass(prefs.drop_last(), known);
        let x = prefs.last();
        if known.contains(x) && !init.contains(x) {
            init.push(x)
        } else {
            init
        }
    }
}

/// The preference entries passed over with a warning: names no remote
/// carries, and repeated mentions of a remote already consumed.
pub open spec fn spec_skipped(prefs: Seq<Seq<char>>, known: Set<Seq<char>>) -> Seq<Seq<char>>
    decreases prefs.len(),
{
    if prefs.len() == 0 {
        Seq::<Seq<char>>::empty()
    } else {
        let init = spec_skipped(prefs.drop_last(), known);
        let x = prefs.last();
        if known.contains(x) && !spec_preferred_pass(prefs.drop_last(), known).contains(x) {
            init
        } else {
            init.push(x)
        }
    }
}

/// The whole attempt order: the preferred remotes that exist, then every
/// other known remote in the (sorted) order `known` keeps them.
pub open spec fn spec_attempt_order(prefs: Seq<Seq<char>>, known: Seq<Seq<char>>) -> Seq<Seq<char>> {
    let pre = spec_preferred_pass(prefs, known.to_set());
    pre + known.filter(|x: Seq<char>| !pre.contains(x))
}

/// The explicit command-line remote is missing from the repository: fatal
/// under fail-fast.
pub open spec fn spec_cli_remote_missing(cli_remote: Option<Seq<char>>, known: Seq<Seq<char>>) -> bool {
    match cli_remote {
        Option::Some(c) => !known.contains(c),
        Option::None => false,
    }
}

/// The attempt order together with the preference entries that were
/// skipped, for the caller to warn about.
pub struct Resolution {
    /// Remotes to try, in order.
    pub order: Vec<String>,
    /// Preference entries that named no available remote.
    pub skipped: Vec<String>,
}

impl Config {
    /// Build the attempt order from the preference list and the known
    /// remotes. Fails with `NoRemotesConfigured` when the repository has no
    /// remotes at all, and with `MissingPreferredRemote` when fail-fast is
    /// on and the explicit command-line remote does not exist; otherwise
    /// missing preferences are only skipped.
    pub fn attempt_order(&self, known: &KnownRemotes) -> (r: Result<Resolution, Error>)
        requires
            known.wf(),
        ensures
            ({
                let prefs = spec_preferences(
                    self.cli.remote.deep_view(),
                    self.file.remotes.deep_view(),
                );
                let cli = self.cli.remote.deep_view();
                &&& (known@.len() == 0 ==> r matches Err(Error::NoRemotesConfigured))
                &&& (known@.len() > 0 && self.cli.fail_fast && spec_cli_remote_missing(cli, known@)
                    ==> (r matches Err(Error::MissingPreferredRemote { remote }) && cli
                    == Option::Some(remote@)))
                &&& (known@.len() > 0 && !(self.cli.fail_fast && spec_cli_remote_missing(
                    cli,
                    known@,
                )) ==> (r matches Ok(res) && res.order.deep_view() == spec_attempt_order(
                    prefs,
                    known@,
                ) && res.skipped.deep_view() == spec_skipped(prefs, known@.to_set())))
            }),
    {
        if known.len() == 0 {
            return Err(Error::NoRemotesConfigured);
        }
        if self.cli.fail_fast {
            if let Some(cli_remote) = &self.cli.remote {
                if !known.contains_name(cli_remote.as_str()) {
                    return Err(Error::MissingPreferredRemote { remote: cli_remote.clone() });
                }
            }
        }
        let prefs = self.remote_preferences();
        let ghost pdv = prefs.deep_view();
        let ghost kset = known@.to_set();
        let mut order: Vec<String> = Vec::new();
        let mut skipped: Vec<String> = Vec::new();
        let mut i: usize = 0;
        proof {
            assert(pdv.take(0) =~= Seq::<Seq<char>>::empty());
        }
        while i < prefs.len()
            invariant
                i <= prefs@.len(),
                pdv == prefs.deep_view(),
                kset == known@.to_set(),
                order.deep_view() == spec_preferred_pass(pdv.take(i as int), kset),
                skipped.deep_view() == spec_skipped(pdv.take(i as int), kset),
            decreases prefs@.len() - i,
        {
            let p = prefs[i].clone();
            proof {
                assert(p@ == pdv[i as int]);
                assert(pdv.take(i as int + 1).drop_last() =~= pdv.take(i as int));
                assert(pdv.take(i as int + 1).last() == pdv[i as int]);
            }
            if known.contains_name(p.as_str()) && !names_contain(&order, p.as_str()) {
                push_name(&mut order, p);
            } else {
                push_name(&mut skipped, p);
            }
            i = i + 1;
        }
        proof {
            assert(pdv.take(i as int) =~= pdv);
        }
        let ghost pre = spec_preferred_pass(pdv, kset);
        let ghost pred = |x: Seq<char>| !pre.contains(x);
        let mut j: usize = 0;
        proof {
            assert(known@.take(0) =~= Seq::<Seq<char>>::empty());
            reveal(Seq::filter);
            assert(order.deep_view() =~= pre + known@.take(0).filter(pred));
        }
        while j < known.len()
            invariant
                j <= known@.len(),
                known.wf(),
                kset == known@.to_set(),
                pre == spec_preferred_pass(pdv, kset),
                pred == (|x: Seq<char>| !pre.contains(x)),
                order.deep_view() == pre + known@.take(j as int).filter(pred),
            decreases known@.len() - j,
        {
            let k = known.get(j).clone();
            proof {
                assert(k@ == known@[j as int]);
                // the current name is new: everything before it is strictly
                // smaller, and what the filter kept so far is among it
                lemma_filter_subset(known@.take(j as int), pred);
                assert forall|m: int| 0 <= m < j implies known@.take(j as int)[m] != k@ by {
                    assert(lex_lt(known@[m], known@[j as int]));
                    if known@[m] == k@ {
                        lemma_lex_lt_irreflexive(k@);
                    }
                }
                if known@.take(j as int).filter(pred).contains(k@) {
                    assert(known@.take(j as int).contains(k@));
                }
            }
            let in_pre = names_contain(&order, k.as_str());
            proof {
                // membership in the whole order so far equals membership in
                // the preferred pass
                if order.deep_view().contains(k@) {
                    if pre.contains(k@) {
                    } else {
                        let m = choose|m: int|
                            0 <= m < order.deep_view().len() && order.deep_view()[m] == k@;
                        assert(known@.take(j as int).filter(pred)[m - pre.len()] == k@);
                        assert(known@.take(j as int).filter(pred).contains(k@));
                    }
                } else {
                    assert(!pre.contains(k@)) by {
                        if pre.contains(k@) {
                            let m = choose|m: int| 0 <= m < pre.len() && pre[m] == k@;
                            assert(order.deep_view()[m] == k@);
                        }
                    }
                }
                let tk = known@.take(j as int);
                assert(known@.take(j as int + 1) =~= tk.push(k@));
                tk.lemma_filter_push(k@, pred);
            }
            if !in_pre {
                push_name(&mut order, k);
                proof {
                    let tk = known@.take(j as int);
                    assert(order.deep_view() =~= pre + tk.filter(pred).push(k@));
                }
            } else {
                proof {
                    let tk = known@.take(j as int);
                    assert(order.deep_view() =~= pre + tk.filter(pred));
                }
            }
            j = j + 1;
        }
        proof {
            assert(known@.take(j as int) =~= known@);
        }
        Ok(Resolution { order, skipped })
    }
}

/// Position of the first occurrence of `x` in `s`.
pub open spec fn first_index(s: Seq<Seq<char>>, x: Seq<char>) -> int
    recommends
        s.contains(x),
    decreases s.len(),
{
    if s.len() == 0 {
        0
    } else if s[0] == x {
        0
    } else {
        1 + first_index(s.drop_first(), x)
    }
}

pub proof fn lemma_first_index_bound(s: Seq<Seq<char>>, x: Seq<char>)
    requires
        s.contains(x),
    ensures
        0 <= first_index(s, x) < s.len(),
        s[first_index(s, x)] == x,
        forall|j: int| 0 <= j < first_index(s, x) ==> s[j] != x,
    decreases s.len(),
{
    if s[0] == x {
    } else {
        let k = choose|k: int| 0 <= k < s.len() && s[k] == x;
        assert(s.drop_first()[k - 1] == x);
        lemma_first_index_bound(s.drop_first(), x);
        assert forall|j: int| 0 <= j < first_index(s, x) implies s[j] != x by {
            if j > 0 {
                assert(s.drop_first()[j - 1] == s[j]);
            }
        }
    }
}

pub proof fn lemma_first_index_push(s: Seq<Seq<char>>, y: Seq<char>, x: Seq<char>)
    ensures
        s.contains(x) ==> first_index(s.push(y), x) == first_index(s, x),
        !s.contains(x) && x == y ==> first_index(s.push(y), x) == s.len(),
    decreases s.len(),
{
    if s.len() == 0 {
        assert(s.push(y)[0] == y);
        if s.contains(x) {
            let k = choose|k: int| 0 <= k < s.len() && s[k] == x;
        }
    } else {
        assert(s.push(y)[0] == s[0]);
        if s[0] == x {
        } else {
            assert(s.push(y).drop_first() =~= s.drop_first().push(y));
            lemma_first_index_push(s.drop_first(), y, x);
            if s.contains(x) {
                let k = choose|k: int| 0 <= k < s.len() && s[k] == x;
                assert(s.drop_first()[k - 1] == x);
            } else {
                if s.drop_first().contains(x) {
                    let k = choose|k: int| 0 <= k < s.drop_first().len() && s.drop_first()[k]
                        == x;
                    assert(s[k + 1] == x);
                }
            }
        }
    }
}

/// A preferred name stands in the preferred pass exactly when the user
/// named it and the repository knows it.
pub proof fn lemma_preferred_pass_contains(prefs: Seq<Seq<char>>, known: Set<Seq<char>>)
    ensures
        forall|x: Seq<char>| #[trigger] spec_preferred_pass(prefs, known).contains(x) <==> (
        prefs.contains(x) && known.contains(x)),
    decreases prefs.len(),
{
    broadcast use vstd::seq_lib::lemma_seq_contains_after_push;

    if prefs.len() == 0 {
        assert forall|x: Seq<char>| !(#[trigger] prefs.contains(x)) by {
            if prefs.contains(x) {
                let k = choose|k: int| 0 <= k < prefs.len() && prefs[k] == x;
            }
        }
    } else {
        let pd = prefs.drop_last();
        let x0 = prefs.last();
        lemma_preferred_pass_contains(pd, known);
        assert(prefs =~= pd.push(x0));
        let init = spec_preferred_pass(pd, known);
        let pass = spec_preferred_pass(prefs, known);
        assert forall|x: Seq<char>| #[trigger] pass.contains(x) <==> (prefs.contains(x)
            && known.contains(x)) by {
            assert(prefs.contains(x) == pd.push(x0).contains(x));
            if known.contains(x0) && !init.contains(x0) {
                assert(pass == init.push(x0));
            } else {
                assert(pass == init);
                if x == x0 && known.contains(x0) {
                    assert(init.contains(x0));
                }
            }
        }
    }
}

/// The preferred pass holds no name twice.
pub proof fn lemma_preferred_pass_no_duplicates(prefs: Seq<Seq<char>>, known: Set<Seq<char>>)
    ensures
        spec_preferred_pass(prefs, known).no_duplicates(),
    decreases prefs.len(),
{
    if prefs.len() > 0 {
        let pd = prefs.drop_last();
        let x0 = prefs.last();
        lemma_preferred_pass_no_duplicates(pd, known);
        let init = spec_preferred_pass(pd, known);
        let pass = spec_preferred_pass(prefs, known);
        if known.contains(x0) && !init.contains(x0) {
            assert forall|p: int, q: int|
                0 <= p < pass.len() && 0 <= q < pass.len() && p != q implies pass[p]
                != pass[q] by {
                if p < init.len() && q < init.len() {
                } else if p < init.len() {
                    if init[p] == x0 {
                        assert(init.contains(x0));
                    }
                } else if q < init.len() {
                    if init[q] == x0 {
                        assert(init.contains(x0));
                    }
                }
            }
        }
    }
}

/// The preferred pass keeps the order the preference list gave: earlier
/// entries of the pass were named earlier.
pub proof fn lemma_preferred_pass_relative_order(prefs: Seq<Seq<char>>, known: Set<Seq<char>>)
    ensures
        ({
            let pass = spec_preferred_pass(prefs, known);
            forall|i: int, j: int| 0 <= i < j < pass.len() ==> first_index(prefs, pass[i])
                < first_index(prefs, pass[j])
        }),
    decreases prefs.len(),
{
    if prefs.len() > 0 {
        let pd = prefs.drop_last();
        let x0 = prefs.last();
        lemma_preferred_pass_relative_order(pd, known);
        lemma_preferred_pass_contains(pd, known);
        assert(prefs =~= pd.push(x0));
        let init = spec_preferred_pass(pd, known);
        let pass = spec_preferred_pass(prefs, known);
        assert forall|i: int, j: int| 0 <= i < j < pass.len() implies first_index(
            prefs,
            pass[i],
        ) < first_index(prefs, pass[j]) by {
            if j < init.len() {
                assert(init.contains(init[i]));
                assert(init.contains(init[j]));
                lemma_first_index_push(pd, x0, init[i]);
                lemma_first_index_push(pd, x0, init[j]);
            } else {
                assert(known.contains(x0) && !init.contains(x0));
                assert(pass == init.push(x0));
                assert(pass[j] == x0);
                assert(init.contains(init[i]));
                assert(pd.contains(init[i]));
                lemma_first_index_push(pd, x0, init[i]);
                lemma_first_index_bound(pd, init[i]);
                assert(!pd.contains(x0)) by {
                    if pd.contains(x0) {
                        assert(init.contains(x0));
                    }
                }
                lemma_first_index_push(pd, x0, x0);
            }
        }
    }
}

/// A filtered sorted sequence stays sorted.
proof fn lemma_filter_keeps_strictly_sorted(s: Seq<Seq<char>>, p: spec_fn(Seq<char>) -> bool)
    requires
        strictly_sorted(s),
    ensures
        strictly_sorted(s.filter(p)),
    decreases s.len(),
{
    reveal(Seq::filter);
    if s.len() > 0 {
        let sd = s.drop_last();
        assert(strictly_sorted(sd)) by {
            assert forall|i: int, j: int| 0 <= i < j < sd.len() implies lex_lt(sd[i], sd[j]) by {
                assert(sd[i] == s[i] && sd[j] == s[j]);
            }
        }
        lemma_filter_keeps_strictly_sorted(sd, p);
        lemma_filter_subset(sd, p);
        let fd = sd.filter(p);
        if p(s.last()) {
            assert(s.filter(p) == fd.push(s.last()));
            assert forall|i: int, j: int| 0 <= i < j < fd.len() + 1 implies lex_lt(
                fd.push(s.last())[i],
                fd.push(s.last())[j],
            ) by {
                if j == fd.len() {
                    assert(fd.contains(fd[i]));
                    assert(sd.contains(fd[i]));
                    let k = choose|k: int| 0 <= k < sd.len() && sd[k] == fd[i];
                    assert(s[k] == fd[i]);
                    assert(lex_lt(s[k], s[s.len() - 1]));
                }
            }
        }
    }
}

/// A filter that keeps every element changes nothing.
proof fn lemma_filter_keeps_all(s: Seq<Seq<char>>, p: spec_fn(Seq<char>) -> bool)
    requires
        forall|i: int| 0 <= i < s.len() ==> p(s[i]),
    ensures
        s.filter(p) == s,
    decreases s.len(),
{
    reveal(Seq::filter);
    if s.len() > 0 {
        let sd = s.drop_last();
        assert forall|i: int| 0 <= i < sd.len() implies p(sd[i]) by {
            assert(sd[i] == s[i]);
        }
        lemma_filter_keeps_all(sd, p);
        assert(p(s.last()));
        assert(sd.push(s.last()) =~= s);
    }
}

/// The attempt order holds exactly the known remotes: a preferred name the
/// repository does not know never appears, and no known remote is left
/// out.
pub proof fn lemma_attempt_order_covers(prefs: Seq<Seq<char>>, known: Seq<Seq<char>>)
    ensures
        forall|x: Seq<char>| #[trigger] spec_attempt_order(prefs, known).contains(x)
            <==> known.contains(x),
{
    broadcast use vstd::seq_lib::lemma_seq_concat_contains_all_elements;

    let pre = spec_preferred_pass(prefs, known.to_set());
    let pred = |x: Seq<char>| !pre.contains(x);
    lemma_preferred_pass_contains(prefs, known.to_set());
    lemma_filter_subset(known, pred);
    assert forall|x: Seq<char>| known.contains(x) && !pre.contains(x) implies known.filter(
        pred,
    ).contains(x) by {
        let k = choose|k: int| 0 <= k < known.len() && known[k] == x;
        known.lemma_filter_contains(pred, k);
    }
}

/// Preferred entries the repository does not know never appear in the
/// attempt order.
pub proof fn lemma_missing_preferred_never_appear(prefs: Seq<Seq<char>>, known: Seq<Seq<char>>)
    ensures
        forall|x: Seq<char>| prefs.contains(x) && !known.contains(x)
            ==> !(#[trigger] spec_attempt_order(prefs, known).contains(x)),
{
    lemma_attempt_order_covers(prefs, known);
}

/// The attempt order never holds a remote twice, however the command-line
/// remote, the configuration list and the default overlap.
pub proof fn lemma_attempt_order_no_duplicates(prefs: Seq<Seq<char>>, known: Seq<Seq<char>>)
    requires
        strictly_sorted(known),
    ensures
        spec_attempt_order(prefs, known).no_duplicates(),
{
    let pre = spec_preferred_pass(prefs, known.to_set());
    let pred = |x: Seq<char>| !pre.contains(x);
    let filt = known.filter(pred);
    let order = spec_attempt_order(prefs, known);
    lemma_preferred_pass_no_duplicates(prefs, known.to_set());
    lemma_filter_keeps_strictly_sorted(known, pred);
    lemma_strictly_sorted_no_duplicates(filt);
    assert forall|p: int, q: int|
        0 <= p < order.len() && 0 <= q < order.len() && p != q implies order[p] != order[q] by {
        if p < pre.len() && q < pre.len() {
        } else if p < pre.len() && q >= pre.len() {
            assert(order[q] == filt[q - pre.len()]);
            known.lemma_filter_pred(pred, q - pre.len());
            if order[p] == order[q] {
                assert(pre.contains(filt[q - pre.len()])) by {
                    assert(pre[p] == filt[q - pre.len()]);
                }
            }
        } else if q < pre.len() && p >= pre.len() {
            assert(order[p] == filt[p - pre.len()]);
            known.lemma_filter_pred(pred, p - pre.len());
            if order[p] == order[q] {
                assert(pre.contains(filt[p - pre.len()])) by {
                    assert(pre[q] == filt[p - pre.len()]);
                }
            }
        } else {
            assert(order[p] == filt[p - pre.len()]);
            assert(order[q] == filt[q - pre.len()]);
        }
    }
}

/// Preferred remotes that exist come first, in the order given; nothing
/// after them was preferred.
pub proof fn lemma_preferred_come_first(prefs: Seq<Seq<char>>, known: Seq<Seq<char>>)
    ensures
        ({
            let pre = spec_preferred_pass(prefs, known.to_set());
            let order = spec_attempt_order(prefs, known);
            &&& order.take(pre.len() as int) == pre
            &&& (forall|x: Seq<char>| #[trigger] pre.contains(x) <==> (prefs.contains(x)
                && known.contains(x)))
            &&& (forall|i: int, j: int| 0 <= i < j < pre.len() ==> first_index(prefs, pre[i])
                < first_index(prefs, pre[j]))
            &&& (forall|j: int| pre.len() <= j < order.len() ==> !prefs.contains(order[j]))
        }),
{
    let pre = spec_preferred_pass(prefs, known.to_set());
    let pred = |x: Seq<char>| !pre.contains(x);
    let filt = known.filter(pred);
    let order = spec_attempt_order(prefs, known);
    broadcast use vstd::seq::Seq::lemma_index_contains;

    lemma_preferred_pass_contains(prefs, known.to_set());
    lemma_preferred_pass_relative_order(prefs, known.to_set());
    lemma_filter_subset(known, pred);
    assert(order.take(pre.len() as int) =~= pre);
    assert forall|x: Seq<char>| #[trigger] pre.contains(x) <==> (prefs.contains(x)
        && known.contains(x)) by {
        assert(known.to_set().contains(x) == known.contains(x));
    }
    assert forall|j: int| pre.len() <= j < order.len() implies !prefs.contains(order[j]) by {
        assert(order[j] == filt[j - pre.len()]);
        known.lemma_filter_pred(pred, j - pre.len());
        assert(!pre.contains(order[j]));
        assert(known.contains(order[j]));
        if prefs.contains(order[j]) {
            assert(pre.contains(order[j]));
        }
    }
}

/// With no preference given at all, the attempt order is exactly the known
/// remotes: `"origin"` first when it exists, the rest in lexicographic
/// order.
pub proof fn lemma_default_preference_order(known: Seq<Seq<char>>)
    requires
        strictly_sorted(known),
        known.len() > 0,
    ensures
        ({
            let order = spec_attempt_order(
                spec_preferences(Option::None, Seq::<Seq<char>>::empty()),
                known,
            );
            &&& (forall|x: Seq<char>| #[trigger] order.contains(x) <==> known.contains(x))
            &&& (known.contains("origin"@) ==> order[0] == "origin"@ && strictly_sorted(
                order.skip(1),
            ))
            &&& (!known.contains("origin"@) ==> order == known)
        }),
{
    let prefs = spec_preferences(Option::None, Seq::<Seq<char>>::empty());
    let o = "origin"@;
    assert(prefs =~= seq![o]);
    assert(prefs.drop_last() =~= Seq::<Seq<char>>::empty());
    let pre = spec_preferred_pass(prefs, known.to_set());
    let pred = |x: Seq<char>| !pre.contains(x);
    let order = spec_attempt_order(prefs, known);
    lemma_attempt_order_covers(prefs, known);
    assert(spec_preferred_pass(prefs.drop_last(), known.to_set())
        =~= Seq::<Seq<char>>::empty());
    if known.contains(o) {
        assert(known.to_set().contains(o));
        assert(pre =~= seq![o]) by {
            assert(pre == Seq::<Seq<char>>::empty().push(o));
        }
        assert(order[0] == o);
        assert(order.skip(1) =~= known.filter(pred));
        lemma_filter_keeps_strictly_sorted(known, pred);
    } else {
        assert(!known.to_set().contains(o));
        assert(pre =~= Seq::<Seq<char>>::empty());
        assert forall|i: int| 0 <= i < known.len() implies pred(known[i]) by {
            if pre.contains(known[i]) {
                let k = choose|k: int| 0 <= k < pre.len() && pre[k] == known[i];
            }
        }
        lemma_filter_keeps_all(known, pred);
        assert(order =~= known);
    }
}

/// Resolving the attempt order is a pure function of the preference list
/// and the known remotes: the same inputs give the same order and the same
/// skipped entries, every time.
pub proof fn lemma_resolution_deterministic(
    prefs1: Seq<Seq<char>>,
    known1: Seq<Seq<char>>,
    prefs2: Seq<Seq<char>>,
    known2: Seq<Seq<char>>,
)
    requires
        prefs1 == prefs2,
        known1 == known2,
    ensures
        spec_attempt_order(prefs1, known1) == spec_attempt_order(prefs2, known2),
        spec_skipped(prefs1, known1.to_set()) == spec_skipped(prefs2, known2.to_set()),
{
}

} // verus!
