//! The in-memory configuration store: a mapping from (group, variable) keys
//! to string values, with override-merge semantics.
//!
//! Every mutator consumes its receiver and returns a new owner, so a shared
//! configuration is never mutated in place.

use vstd::prelude::*;
use crate::chars::str_eq_str;

verus! {

/// One recorded assignment. Later entries supersede earlier ones for the
/// same (group, variable) key; the map described by the entry sequence is
/// given by [`map_of`].
#[derive(Debug)]
struct Entry {
    group: String,
    var: String,
    value: String,
}

impl Entry {
    fn duplicate(&self) -> (e: Entry)
        ensures
            e == *self,
    {
        Entry { group: self.group.clone(), var: self.var.clone(), value: self.value.clone() }
    }
}

/// The views of a sequence of strings.
pub open spec fn views_of(v: Seq<String>) -> Seq<Seq<char>> {
    v.map_values(|s: String| s@)
}

/// The key/value map described by a sequence of (group, variable, value)
/// assignments; a later assignment to a key overrides an earlier one.
pub open spec fn map_of(
    s: Seq<(Seq<char>, Seq<char>, Seq<char>)>,
) -> Map<(Seq<char>, Seq<char>), Seq<char>>
    decreases s.len(),
{
    if s.len() == 0 {
        Map::empty()
    } else {
        map_of(s.drop_last()).insert((s.last().0, s.last().1), s.last().2)
    }
}

/// Whether some assignment in `s` has group `g`.
pub open spec fn seq_has_group(s: Seq<(Seq<char>, Seq<char>, Seq<char>)>, g: Seq<char>) -> bool {
    exists|i: int| 0 <= i < s.len() && s[i].0 == g
}

/// Whether some assignment in `s` has key `k`.
pub open spec fn seq_has_key(
    s: Seq<(Seq<char>, Seq<char>, Seq<char>)>,
    k: (Seq<char>, Seq<char>),
) -> bool {
    exists|i: int| 0 <= i < s.len() && s[i].0 == k.0 && s[i].1 == k.1
}

/// The distinct group names of the assignments, each at its first occurrence.
pub open spec fn groups_spec(s: Seq<(Seq<char>, Seq<char>, Seq<char>)>) -> Seq<Seq<char>>
    decreases s.len(),
{
    if s.len() == 0 {
        Seq::empty()
    } else {
        let u = groups_spec(s.drop_last());
        if seq_has_group(s.drop_last(), s.last().0) {
            u
        } else {
            u.push(s.last().0)
        }
    }
}

/// The distinct variables assigned under group `g`, each at its first
/// occurrence.
pub open spec fn vars_in_group_spec(
    s: Seq<(Seq<char>, Seq<char>, Seq<char>)>,
    g: Seq<char>,
) -> Seq<Seq<char>>
    decreases s.len(),
{
    if s.len() == 0 {
        Seq::empty()
    } else {
        let u = vars_in_group_spec(s.drop_last(), g);
        if s.last().0 == g && !seq_has_key(s.drop_last(), (g, s.last().1)) {
            u.push(s.last().1)
        } else {
            u
        }
    }
}

pub proof fn lemma_take_step<A>(s: Seq<A>, i: int)
    requires
        0 <= i < s.len(),
    ensures
        s.take(i + 1).drop_last() == s.take(i),
        s.take(i + 1).last() == s[i],
{
    assert(s.take(i + 1).drop_last() =~= s.take(i));
}

/// A key is in the map of an assignment sequence exactly when some
/// assignment carries it.
pub proof fn lemma_map_of_contains(
    s: Seq<(Seq<char>, Seq<char>, Seq<char>)>,
    k: (Seq<char>, Seq<char>),
)
    ensures
        map_of(s).contains_key(k) <==> seq_has_key(s, k),
    decreases s.len(),
{
    if s.len() > 0 {
        lemma_map_of_contains(s.drop_last(), k);
        let last = s.last();
        if (last.0, last.1) == k {
            assert(s[s.len() - 1].0 == k.0 && s[s.len() - 1].1 == k.1);
        } else {
            if seq_has_key(s, k) {
                let i = choose|i: int| 0 <= i < s.len() && s[i].0 == k.0 && s[i].1 == k.1;
                assert(i < s.len() - 1);
                assert(s.drop_last()[i].0 == k.0 && s.drop_last()[i].1 == k.1);
            }
            if seq_has_key(s.drop_last(), k) {
                let i = choose|i: int|
                    0 <= i < s.drop_last().len() && s.drop_last()[i].0 == k.0
                        && s.drop_last()[i].1 == k.1;
                assert(s[i].0 == k.0 && s[i].1 == k.1);
            }
        }
    }
}

/// A group name is enumerated exactly when some assignment carries it.
pub proof fn lemma_groups_spec_contains(s: Seq<(Seq<char>, Seq<char>, Seq<char>)>, g: Seq<char>)
    ensures
        groups_spec(s).contains(g) <==> seq_has_group(s, g),
    decreases s.len(),
{
    if s.len() > 0 {
        lemma_groups_spec_contains(s.drop_last(), g);
        let d = s.drop_last();
        if seq_has_group(d, g) {
            let i = choose|i: int| 0 <= i < d.len() && d[i].0 == g;
            assert(s[i].0 == g);
        }
        if s.last().0 == g {
            assert(s[s.len() - 1].0 == g);
        }
        if seq_has_group(s, g) && !seq_has_group(d, g) {
            let i = choose|i: int| 0 <= i < s.len() && s[i].0 == g;
            if i < s.len() - 1 {
                assert(d[i].0 == g);
            }
            assert(s.last().0 == g);
        }
        if !seq_has_group(d, s.last().0) {
            assert(groups_spec(s) == groups_spec(d).push(s.last().0));
            assert(forall|x: Seq<char>|
                groups_spec(d).contains(x) ==> #[trigger] groups_spec(s).contains(x)) by {
                assert(forall|j: int|
                    0 <= j < groups_spec(d).len() ==> groups_spec(s)[j] == groups_spec(d)[j]);
            }
            assert(groups_spec(s)[groups_spec(s).len() - 1] == s.last().0);
            assert(groups_spec(s).contains(s.last().0));
            if groups_spec(s).contains(g) && g != s.last().0 {
                let j = choose|j: int| 0 <= j < groups_spec(s).len() && groups_spec(s)[j] == g;
                assert(j < groups_spec(s).len() - 1);
                assert(groups_spec(d)[j] == g);
                assert(groups_spec(d).contains(g));
            }
        }
    }
}

/// A variable is enumerated for group `g` exactly when some assignment in
/// `s` carries the key `(g, v)`.
pub proof fn lemma_vars_spec_contains(
    s: Seq<(Seq<char>, Seq<char>, Seq<char>)>,
    g: Seq<char>,
    v: Seq<char>,
)
    ensures
        vars_in_group_spec(s, g).contains(v) <==> seq_has_key(s, (g, v)),
    decreases s.len(),
{
    if s.len() > 0 {
        lemma_vars_spec_contains(s.drop_last(), g, v);
        let d = s.drop_last();
        if seq_has_key(d, (g, v)) {
            let i = choose|i: int| 0 <= i < d.len() && d[i].0 == g && d[i].1 == v;
            assert(s[i].0 == g && s[i].1 == v);
        }
        if s.last().0 == g && s.last().1 == v {
            assert(s[s.len() - 1].0 == g && s[s.len() - 1].1 == v);
        }
        if seq_has_key(s, (g, v)) && !seq_has_key(d, (g, v)) {
            let i = choose|i: int| 0 <= i < s.len() && s[i].0 == g && s[i].1 == v;
            if i < s.len() - 1 {
                assert(d[i].0 == g && d[i].1 == v);
            }
            assert(s.last().0 == g && s.last().1 == v);
        }
        if s.last().0 == g && !seq_has_key(d, (g, s.last().1)) {
            let u = vars_in_group_spec(d, g);
            assert(vars_in_group_spec(s, g) == u.push(s.last().1));
            assert(forall|x: Seq<char>| u.contains(x) ==> #[trigger] vars_in_group_spec(s, g).contains(x)) by {
                assert(forall|j: int| 0 <= j < u.len() ==> vars_in_group_spec(s, g)[j] == u[j]);
            }
            assert(vars_in_group_spec(s, g)[u.len() as int] == s.last().1);
            assert(vars_in_group_spec(s, g).contains(s.last().1));
            if vars_in_group_spec(s, g).contains(v) && v != s.last().1 {
                let j = choose|j: int|
                    0 <= j < vars_in_group_spec(s, g).len() && vars_in_group_spec(s, g)[j] == v;
                assert(j < u.len());
                assert(u[j] == v);
                assert(u.contains(v));
            }
        }
    }
}

/// Whether `v` holds a string whose characters are `s`.
fn vec_has_str(v: &Vec<String>, s: &str) -> (r: bool)
    ensures
        r == views_of(v@).contains(s@),
{
    let mut j: usize = 0;
    while j < v.len()
        invariant
            j <= v@.len(),
            forall|t: int| 0 <= t < j ==> v@[t]@ != s@,
        decreases v@.len() - j,
    {
        if str_eq_str(v[j].as_str(), s) {
            proof {
                assert(views_of(v@)[j as int] == s@);
            }
            return true;
        }
        j += 1;
    }
    proof {
        if views_of(v@).contains(s@) {
            let t = choose|t: int| 0 <= t < views_of(v@).len() && views_of(v@)[t] == s@;
            assert(v@[t]@ == s@);
        }
    }
    false
}

/// The configuration object: a mapping from (group, variable) keys to string
/// values. The abstract value of a `Config` is that map, reached with `@`.
#[derive(Debug)]
pub struct Config {
    values: Vec<Entry>,
}

impl Config {
    /// The recorded assignments, in insertion order, each as a
    /// (group, variable, value) triple of character sequences. Enumeration
    /// and rendering order is derived from this sequence; it is not part of
    /// the map semantics.
    pub closed spec fn entries(&self) -> Seq<(Seq<char>, Seq<char>, Seq<char>)> {
        self.values@.map_values(|e: Entry| (e.group@, e.var@, e.value@))
    }
}

impl View for Config {
    type V = Map<(Seq<char>, Seq<char>), Seq<char>>;

    open spec fn view(&self) -> Map<(Seq<char>, Seq<char>), Seq<char>> {
        map_of(self.entries())
    }
}

impl Default for Config {
    /// The empty configuration.
    fn default() -> (c: Config)
        ensures
            c.entries() == Seq::<(Seq<char>, Seq<char>, Seq<char>)>::empty(),
            c@ == Map::<(Seq<char>, Seq<char>), Seq<char>>::empty(),
    {
        let c = Config { values: Vec::new() };
        proof {
            assert(c.entries() =~= Seq::<(Seq<char>, Seq<char>, Seq<char>)>::empty());
        }
        c
    }
}

impl Config {
    /// Records one assignment, overriding any earlier value for its key.
    pub(crate) fn insert_entry(&mut self, group: String, var: String, value: String)
        ensures
            final(self).entries() == old(self).entries().push((group@, var@, value@)),
            final(self)@ == old(self)@.insert((group@, var@), value@),
    {
        let ghost before = self.entries();
        self.values.push(Entry { group, var, value });
        proof {
            assert(self.entries() =~= before.push((group@, var@, value@)));
            assert(self.entries().drop_last() =~= before);
        }
    }

    /// Add the specified value to the configuration, consuming the receiver
    /// and returning the updated owner.
    ///
    /// `set` can be used to create default settings by setting values prior
    /// to reading a configuration.
    pub fn set(self, group: &str, var: &str, val: &str) -> (r: Self)
        ensures
            r.entries() == self.entries().push((group@, var@, val@)),
            r@ == self@.insert((group@, var@), val@),
    {
        let mut c = self;
        c.insert_entry(group.to_owned(), var.to_owned(), val.to_owned());
        c
    }

    /// Add the specified value to the configuration within the DEFAULT
    /// group.
    ///
    /// See [`Config::set`] for more information.
    pub fn set_default(self, var: &str, val: &str) -> (r: Self)
        ensures
            r.entries() == self.entries().push(("DEFAULT"@, var@, val@)),
            r@ == self@.insert(("DEFAULT"@, var@), val@),
    {
        self.set("DEFAULT", var, val)
    }

    /// Retrieve the value of the specified variable within the specified
    /// group, or `None` if it is not set.
    pub fn get(&self, group: &str, variable: &str) -> (r: Option<&String>)
        ensures
            match r {
                Some(v) => self@.contains_key((group@, variable@)) && v@ == self@[
                    (group@, variable@)
                ],
                None => !self@.contains_key((group@, variable@)),
            },
    {
        let mut found: Option<usize> = None;
        let mut i: usize = 0;
        let n = self.values.len();
        while i < n
            invariant
                n == self.values@.len(),
                i <= n,
                match found {
                    Some(j) => j < i && map_of(self.entries().take(i as int)).contains_key(
                        (group@, variable@),
                    ) && self.values@[j as int].value@ == map_of(
                        self.entries().take(i as int),
                    )[(group@, variable@)],
                    None => !map_of(self.entries().take(i as int)).contains_key(
                        (group@, variable@),
                    ),
                },
            decreases n - i,
        {
            let e = &self.values[i];
            proof {
                lemma_take_step(self.entries(), i as int);
                assert(self.entries()[i as int] == (e.group@, e.var@, e.value@));
            }
            if str_eq_str(e.group.as_str(), group) && str_eq_str(e.var.as_str(), variable) {
                found = Some(i);
            }
            proof {
                let t0 = self.entries().take(i as int);
                let t1 = self.entries().take(i as int + 1);
                assert(t1.len() == i + 1);
                assert(map_of(t1) == map_of(t0).insert((e.group@, e.var@), e.value@));
            }
            i += 1;
        }
        proof {
            assert(self.entries().take(n as int) =~= self.entries());
        }
        match found {
            Some(j) => Some(&self.values[j].value),
            None => None,
        }
    }

    /// Retrieve the value of the specified variable within the DEFAULT
    /// group, or `None` if it is not set. Always agrees with
    /// `get("DEFAULT", variable)`: the two contracts are the same formula.
    pub fn get_default(&self, variable: &str) -> (r: Option<&String>)
        ensures
            match r {
                Some(v) => self@.contains_key(("DEFAULT"@, variable@)) && v@ == self@[
                    ("DEFAULT"@, variable@)
                ],
                None => !self@.contains_key(("DEFAULT"@, variable@)),
            },
    {
        self.get("DEFAULT", variable)
    }

    /// "Must exist" lookup, the shape indexing took: for callers who have
    /// already validated presence (for instance after merging required
    /// defaults). Looking up an absent key is a contract violation, not a
    /// recoverable error.
    pub fn value_of(&self, group: &str, variable: &str) -> (v: &String)
        requires
            self@.contains_key((group@, variable@)),
        ensures
            v@ == self@[(group@, variable@)],
    {
        match self.get(group, variable) {
            Some(v) => v,
            None => vstd::pervasive::unreached(),
        }
    }

    /// Merge two configurations, consuming both of the originals.
    ///
    /// Any duplicate variables will contain the values in `other`.
    pub fn merge_with(self, other: Self) -> (r: Self)
        ensures
            r.entries() == self.entries() + other.entries(),
            r@ == self@.union_prefer_right(other@),
    {
        let mut c = self;
        let mut i: usize = 0;
        let n = other.values.len();
        while i < n
            invariant
                n == other.values@.len(),
                i <= n,
                c.entries() == self.entries() + other.entries().take(i as int),
            decreases n - i,
        {
            let e = other.values[i].duplicate();
            let ghost before = c.entries();
            c.values.push(e);
            proof {
                lemma_take_step(other.entries(), i as int);
                assert(c.entries() =~= before.push(other.entries()[i as int]));
                assert(self.entries() + other.entries().take(i as int + 1) =~= (self.entries()
                    + other.entries().take(i as int)).push(other.entries()[i as int]));
            }
            i += 1;
        }
        proof {
            assert(other.entries().take(n as int) =~= other.entries());
            lemma_map_of_concat(self.entries(), other.entries());
        }
        c
    }

    /// Get the list of groups in the configuration, each distinct group name
    /// exactly once, at its first occurrence.
    pub fn groups(&self) -> (r: Vec<String>)
        ensures
            views_of(r@) == groups_spec(self.entries()),
    {
        let mut r: Vec<String> = Vec::new();
        let mut i: usize = 0;
        let n = self.values.len();
        while i < n
            invariant
                n == self.values@.len(),
                i <= n,
                views_of(r@) == groups_spec(self.entries().take(i as int)),
            decreases n - i,
        {
            let e = &self.values[i];
            proof {
                lemma_take_step(self.entries(), i as int);
                assert(self.entries()[i as int] == (e.group@, e.var@, e.value@));
                lemma_groups_spec_contains(self.entries().take(i as int), e.group@);
            }
            if !vec_has_str(&r, e.group.as_str()) {
                let ghost before = r@;
                r.push(e.group.clone());
                proof {
                    assert(views_of(r@) =~= views_of(before).push(e.group@));
                }
            }
            i += 1;
        }
        proof {
            assert(self.entries().take(n as int) =~= self.entries());
        }
        r
    }

    /// Get the list of variables set in the specified group, each exactly
    /// once, at its first occurrence.
    pub fn variables_in_group(&self, group: &str) -> (r: Vec<String>)
        ensures
            views_of(r@) == vars_in_group_spec(self.entries(), group@),
    {
        let mut r: Vec<String> = Vec::new();
        let mut i: usize = 0;
        let n = self.values.len();
        while i < n
            invariant
                n == self.values@.len(),
                i <= n,
                views_of(r@) == vars_in_group_spec(self.entries().take(i as int), group@),
            decreases n - i,
        {
            let e = &self.values[i];
            proof {
                lemma_take_step(self.entries(), i as int);
                assert(self.entries()[i as int] == (e.group@, e.var@, e.value@));
                lemma_vars_spec_contains(self.entries().take(i as int), group@, e.var@);
            }
            if str_eq_str(e.group.as_str(), group) && !vec_has_str(&r, e.var.as_str()) {
                let ghost before = r@;
                r.push(e.var.clone());
                proof {
                    assert(views_of(r@) =~= views_of(before).push(e.var@));
                }
            }
            i += 1;
        }
        proof {
            assert(self.entries().take(n as int) =~= self.entries());
        }
        r
    }

    /// The (variable, value) pairs of the specified group: the variables in
    /// enumeration order, each with the value the map holds for it.
    pub fn group_by_key_value(&self, group: &str) -> (r: Vec<(String, String)>)
        ensures
            r@.len() == vars_in_group_spec(self.entries(), group@).len(),
            forall|i: int|
                0 <= i < r@.len() ==> #[trigger] r@[i].0@ == vars_in_group_spec(
                    self.entries(),
                    group@,
                )[i],
            forall|i: int|
                0 <= i < r@.len() ==> self@.contains_key((group@, #[trigger] r@[i].0@)) && r@[i].1@
                    == self@[(group@, r@[i].0@)],
    {
        let vars = self.variables_in_group(group);
        let mut r: Vec<(String, String)> = Vec::new();
        let mut i: usize = 0;
        let n = vars.len();
        while i < n
            invariant
                n == vars@.len(),
                views_of(vars@) == vars_in_group_spec(self.entries(), group@),
                i <= n,
                r@.len() == i,
                forall|j: int| 0 <= j < i ==> #[trigger] r@[j].0@ == views_of(vars@)[j],
                forall|j: int|
                    0 <= j < i ==> self@.contains_key((group@, #[trigger] r@[j].0@)) && r@[j].1@
                        == self@[(group@, r@[j].0@)],
            decreases n - i,
        {
            let v = &vars[i];
            proof {
                assert(views_of(vars@)[i as int] == v@);
                assert(vars_in_group_spec(self.entries(), group@).contains(v@));
                lemma_vars_spec_contains(self.entries(), group@, v@);
                lemma_map_of_contains(self.entries(), (group@, v@));
            }
            let val = match self.get(group, v.as_str()) {
                Some(s) => s.clone(),
                None => vstd::pervasive::unreached(),
            };
            r.push((v.clone(), val));
            i += 1;
        }
        r
    }
}

/// Deduplication contract for group enumeration: each distinct group name
/// appears exactly once.
pub proof fn lemma_groups_spec_distinct(s: Seq<(Seq<char>, Seq<char>, Seq<char>)>)
    ensures
        forall|i: int, j: int|
            0 <= i < j < groups_spec(s).len() ==> groups_spec(s)[i] != groups_spec(s)[j],
    decreases s.len(),
{
    if s.len() > 0 {
        let d = s.drop_last();
        lemma_groups_spec_distinct(d);
        lemma_groups_spec_contains(d, s.last().0);
        let u = groups_spec(d);
        if !seq_has_group(d, s.last().0) {
            assert(!u.contains(s.last().0));
            assert forall|i: int, j: int|
                0 <= i < j < groups_spec(s).len() implies groups_spec(s)[i] != groups_spec(
                s,
            )[j] by {
                if j == u.len() {
                    assert(groups_spec(s)[i] == u[i]);
                    assert(u.contains(u[i]));
                }
            }
        }
    }
}

/// Deduplication contract for variable enumeration: each distinct variable
/// of the group appears exactly once.
pub proof fn lemma_vars_spec_distinct(s: Seq<(Seq<char>, Seq<char>, Seq<char>)>, g: Seq<char>)
    ensures
        forall|i: int, j: int|
            0 <= i < j < vars_in_group_spec(s, g).len() ==> vars_in_group_spec(s, g)[i]
                != vars_in_group_spec(s, g)[j],
    decreases s.len(),
{
    if s.len() > 0 {
        let d = s.drop_last();
        lemma_vars_spec_distinct(d, g);
        lemma_vars_spec_contains(d, g, s.last().1);
        let u = vars_in_group_spec(d, g);
        if s.last().0 == g && !seq_has_key(d, (g, s.last().1)) {
            assert(!u.contains(s.last().1));
            assert forall|i: int, j: int|
                0 <= i < j < vars_in_group_spec(s, g).len() implies vars_in_group_spec(s, g)[i]
                != vars_in_group_spec(s, g)[j] by {
                if j == u.len() {
                    assert(vars_in_group_spec(s, g)[i] == u[i]);
                    assert(u.contains(u[i]));
                }
            }
        }
    }
}

/// The map of concatenated assignment sequences is the union of the two
/// maps, the second preferred where keys collide.
pub proof fn lemma_map_of_concat(
    a: Seq<(Seq<char>, Seq<char>, Seq<char>)>,
    b: Seq<(Seq<char>, Seq<char>, Seq<char>)>,
)
    ensures
        map_of(a + b) == map_of(a).union_prefer_right(map_of(b)),
    decreases b.len(),
{
    if b.len() == 0 {
        assert(a + b =~= a);
        assert(map_of(a).union_prefer_right(map_of(b)) =~= map_of(a));
    } else {
        lemma_map_of_concat(a, b.drop_last());
        let last = b.last();
        let k = (last.0, last.1);
        assert((a + b).drop_last() =~= a + b.drop_last());
        assert((a + b).last() == last);
        assert(map_of(a).union_prefer_right(map_of(b.drop_last())).insert(k, last.2) =~= map_of(
            a,
        ).union_prefer_right(map_of(b.drop_last()).insert(k, last.2)));
        assert(map_of(b) == map_of(b.drop_last()).insert(k, last.2));
    }
}

/// Merge semantics: a key present in `b` takes `b`'s value; a key present
/// only in `a` keeps `a`'s value; no other key is present.
pub proof fn lemma_merge_prefers_other(
    a: Map<(Seq<char>, Seq<char>), Seq<char>>,
    b: Map<(Seq<char>, Seq<char>), Seq<char>>,
    k: (Seq<char>, Seq<char>),
)
    ensures
        b.contains_key(k) ==> a.union_prefer_right(b).contains_key(k)
            && a.union_prefer_right(b)[k] == b[k],
        !b.contains_key(k) && a.contains_key(k) ==> a.union_prefer_right(b).contains_key(k)
            && a.union_prefer_right(b)[k] == a[k],
        !a.contains_key(k) && !b.contains_key(k) ==> !a.union_prefer_right(b).contains_key(k),
{
}

} // verus!
