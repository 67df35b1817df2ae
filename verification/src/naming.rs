use crate::text::{digits_text, lemma_digits_text, push_digits};
use vstd::prelude::*;
use vstd::set_lib::{lemma_int_range, lemma_len_subset, lemma_map_size, set_int_range};
use vstd::string::*;

verus! {

/// An identifier in the two spellings that generated code uses.
#[derive(Debug, Clone)]
pub struct Name {
    pub snake_case: String,
    pub pascal_case: String,
}

/// The characters of a [`Name`]'s two spellings.
pub struct SpecName {
    pub snake_case: Seq<char>,
    pub pascal_case: Seq<char>,
}

impl View for Name {
    type V = SpecName;

    open spec fn view(&self) -> SpecName {
        SpecName { snake_case: self.snake_case@, pascal_case: self.pascal_case@ }
    }
}

impl Name {
    pub fn new(snake_case: String, pascal_case: String) -> (n: Name)
        ensures
            n@ == (SpecName { snake_case: snake_case@, pascal_case: pascal_case@ }),
    {
        Name { snake_case, pascal_case }
    }

    /// A copy of this name.
    pub fn copy(&self) -> (n: Name)
        ensures
            n@ == self@,
    {
        Name { snake_case: self.snake_case.clone(), pascal_case: self.pascal_case.clone() }
    }

    /// The snake_case spelling.
    pub fn name_snake_case(&self) -> (s: String)
        ensures
            s@ == self.snake_case@,
    {
        self.snake_case.clone()
    }
}

/// An item of a resolved model that carries a [`Name`].
pub trait Named {
    /// The characters of the item's name.
    spec fn spec_name(&self) -> SpecName;

    /// The item's name.
    fn name_ref(&self) -> (r: &Name)
        ensures
            r@ == self.spec_name(),
    ;

    /// The snake_case spelling of the item's name.
    fn name_snake_case(&self) -> (s: String)
        ensures
            s@ == self.spec_name().snake_case,
    {
        self.name_ref().snake_case.clone()
    }

    /// The PascalCase spelling of the item's name.
    fn name_pascal_case(&self) -> (s: String)
        ensures
            s@ == self.spec_name().pascal_case,
    {
        self.name_ref().pascal_case.clone()
    }
}

/// A name registered in a [`NameTable`], with the spelling to fall back on
/// when it collides with another (none for names that must stay unique).
#[derive(Debug, Clone)]
pub struct NameEntry {
    pub name: Name,
    pub fallback: Option<Name>,
}

pub struct SpecNameEntry {
    pub name: SpecName,
    pub fallback: Option<SpecName>,
}

impl View for NameEntry {
    type V = SpecNameEntry;

    open spec fn view(&self) -> SpecNameEntry {
        SpecNameEntry {
            name: self.name@,
            fallback: match self.fallback {
                Some(f) => Some(f@),
                None => None,
            },
        }
    }
}

/* Deduplication */

/// The characters of a list of names.
pub open spec fn names_view(v: Seq<Name>) -> Seq<SpecName> {
    v.map_values(|n: Name| n@)
}

/// The names of a list of table entries.
pub open spec fn entry_names(t: Seq<SpecNameEntry>) -> Seq<SpecName> {
    t.map_values(|e: SpecNameEntry| e.name)
}

/// Two names that share a spelling, snake_case or PascalCase.
pub open spec fn names_clash(a: SpecName, b: SpecName) -> bool {
    a.snake_case == b.snake_case || a.pascal_case == b.pascal_case
}

/// No two names of `s` share a spelling.
pub open spec fn distinct_names(s: Seq<SpecName>) -> bool {
    forall|i: int, j: int| 0 <= i < j < s.len() ==> !names_clash(#[trigger] s[i], #[trigger] s[j])
}

/// `c` with the numeric suffix `k`: `_k` after its snake_case spelling, `k`
/// after its PascalCase one.
pub open spec fn suffixed(c: SpecName, k: nat) -> SpecName {
    SpecName {
        snake_case: c.snake_case + "_"@ + digits_text(k),
        pascal_case: c.pascal_case + digits_text(k),
    }
}

/// `n` shares no spelling with a name of `used`.
pub open spec fn is_free(n: SpecName, used: Seq<SpecName>) -> bool {
    forall|i: int| 0 <= i < used.len() ==> !names_clash(#[trigger] used[i], n)
}

/// The first suffix from `k` on, trying at most `fuel` more, that makes `c` free of `used`.
pub open spec fn first_free(c: SpecName, used: Seq<SpecName>, k: nat, fuel: nat) -> nat
    decreases fuel,
{
    if fuel == 0 || is_free(suffixed(c, k), used) {
        k
    } else {
        first_free(c, used, k + 1, (fuel - 1) as nat)
    }
}

/// `c` itself when it is free of `used`; otherwise `c` with the smallest
/// suffix from 2 on that makes it free.
pub open spec fn fresh_name(c: SpecName, used: Seq<SpecName>) -> SpecName {
    if is_free(c, used) {
        c
    } else {
        suffixed(c, first_free(c, used, 2, 2 * used.len()))
    }
}

/// Entry `i` of `t` shares a spelling with another entry's name.
pub open spec fn clashes(t: Seq<SpecNameEntry>, i: int) -> bool {
    exists|j: int| 0 <= j < t.len() && j != i && names_clash(#[trigger] t[j].name, t[i].name)
}

/// The name entry `i` starts from: its fallback when its name clashes with
/// another entry's and it has one, else its name.
pub open spec fn candidate(t: Seq<SpecNameEntry>, i: int) -> SpecName {
    if clashes(t, i) && t[i].fallback is Some {
        t[i].fallback->0
    } else {
        t[i].name
    }
}

/// The final names of the first `n` entries of `t`: each entry's candidate,
/// made free of the final names before it.
pub open spec fn dedup_prefix(t: Seq<SpecNameEntry>, n: nat) -> Seq<SpecName>
    decreases n,
{
    if n == 0 || n > t.len() {
        Seq::empty()
    } else {
        let prev = dedup_prefix(t, (n - 1) as nat);
        prev.push(fresh_name(candidate(t, n - 1), prev))
    }
}

/// The names of the entries of `t` after deduplication, in registration order.
pub open spec fn deduplicated(t: Seq<SpecNameEntry>) -> Seq<SpecName> {
    dedup_prefix(t, t.len())
}

proof fn lemma_append_cancel(a: Seq<char>, x: Seq<char>, y: Seq<char>)
    requires
        a + x == a + y,
    ensures
        x == y,
{
    assert(x =~= (a + x).skip(a.len() as int));
    assert(y =~= (a + y).skip(a.len() as int));
}

proof fn lemma_suffix_injective(c: SpecName, k1: nat, k2: nat)
    requires
        names_clash(suffixed(c, k1), suffixed(c, k2)),
    ensures
        k1 == k2,
{
    lemma_digits_text(k1);
    lemma_digits_text(k2);
    if suffixed(c, k1).snake_case == suffixed(c, k2).snake_case {
        lemma_append_cancel(c.snake_case + "_"@, digits_text(k1), digits_text(k2));
    } else {
        lemma_append_cancel(c.pascal_case, digits_text(k1), digits_text(k2));
    }
}

/// Among the suffixes 2 to `2 * used.len() + 2` one makes `c` free of `used`:
/// each name of `used` takes at most one snake_case and one PascalCase suffix.
proof fn lemma_some_suffix_free(c: SpecName, used: Seq<SpecName>)
    ensures
        exists|m: nat| 2 <= m <= 2 + 2 * used.len() && is_free(suffixed(c, m), used),
{
    let n = used.len() as int;
    if !exists|m: nat| 2 <= m <= 2 + 2 * used.len() && is_free(suffixed(c, m), used) {
        let w = |m: int|
            if exists|i: int| 0 <= i < n && used[i].snake_case == suffixed(c, m as nat).snake_case {
                choose|i: int| 0 <= i < n && used[i].snake_case == suffixed(c, m as nat).snake_case
            } else {
                n + choose|i: int|
                    0 <= i < n && used[i].pascal_case == suffixed(c, m as nat).pascal_case
            };
        let dom = set_int_range(2, 3 + 2 * n);
        let img = dom.map(w);
        lemma_int_range(2, 3 + 2 * n);
        lemma_int_range(0, 2 * n);
        assert forall|m: int| dom.contains(m) implies 0 <= #[trigger] w(m) < 2 * n by {
            assert(!is_free(suffixed(c, m as nat), used));
            let i = choose|i: int| 0 <= i < n && names_clash(#[trigger] used[i], suffixed(c, m as nat));
            assert(names_clash(used[i], suffixed(c, m as nat)));
        }
        assert(vstd::relations::injective_on(w, dom)) by {
            assert forall|a: int, b: int| dom.contains(a) && dom.contains(b) && #[trigger] w(a) == #[trigger] w(b) implies a == b by {
                assert(!is_free(suffixed(c, a as nat), used));
                assert(!is_free(suffixed(c, b as nat), used));
                let ia = choose|i: int| 0 <= i < n && names_clash(#[trigger] used[i], suffixed(c, a as nat));
                let ib = choose|i: int| 0 <= i < n && names_clash(#[trigger] used[i], suffixed(c, b as nat));
                assert(names_clash(used[ia], suffixed(c, a as nat)));
                assert(names_clash(used[ib], suffixed(c, b as nat)));
                if w(a) < n {
                    assert(used[w(a)].snake_case == suffixed(c, a as nat).snake_case);
                    assert(used[w(b)].snake_case == suffixed(c, b as nat).snake_case);
                } else {
                    assert(used[w(a) - n].pascal_case == suffixed(c, a as nat).pascal_case);
                    assert(used[w(b) - n].pascal_case == suffixed(c, b as nat).pascal_case);
                }
                lemma_suffix_injective(c, a as nat, b as nat);
            }
        }
        lemma_map_size(dom, img, w);
        assert(img.subset_of(set_int_range(0, 2 * n)));
        lemma_len_subset(img, set_int_range(0, 2 * n));
        assert(false);
    }
}

proof fn lemma_first_free_finds(c: SpecName, used: Seq<SpecName>, k: nat, fuel: nat, m: nat)
    requires
        k <= m <= k + fuel,
        is_free(suffixed(c, m), used),
    ensures
        is_free(suffixed(c, first_free(c, used, k, fuel)), used),
    decreases fuel,
{
    if fuel > 0 && !is_free(suffixed(c, k), used) {
        lemma_first_free_finds(c, used, k + 1, (fuel - 1) as nat, m);
    }
}

/// A fresh name is free of the names it was made against.
pub proof fn lemma_fresh_name_free(c: SpecName, used: Seq<SpecName>)
    ensures
        is_free(fresh_name(c, used), used),
{
    if !is_free(c, used) {
        lemma_some_suffix_free(c, used);
        let m = choose|m: nat| 2 <= m <= 2 + 2 * used.len() && is_free(suffixed(c, m), used);
        lemma_first_free_finds(c, used, 2, 2 * used.len(), m);
    }
}

/// Deduplication gives one name per entry, and no two of them share a spelling.
pub proof fn lemma_deduplicated_distinct(t: Seq<SpecNameEntry>, n: nat)
    requires
        n <= t.len(),
    ensures
        dedup_prefix(t, n).len() == n,
        distinct_names(dedup_prefix(t, n)),
    decreases n,
{
    if n > 0 {
        let prev = dedup_prefix(t, (n - 1) as nat);
        lemma_deduplicated_distinct(t, (n - 1) as nat);
        lemma_fresh_name_free(candidate(t, n - 1), prev);
        let r = dedup_prefix(t, n);
        assert forall|i: int, j: int| 0 <= i < j < r.len() implies !names_clash(#[trigger] r[i], #[trigger] r[j]) by {
            if j < n - 1 {
                assert(r[i] == prev[i] && r[j] == prev[j]);
            } else {
                assert(r[i] == prev[i]);
                assert(!names_clash(prev[i], r[j]));
            }
        }
    }
}

/// A table whose names already share no spelling keeps every name.
pub proof fn lemma_deduplicated_keeps_distinct(t: Seq<SpecNameEntry>, n: nat)
    requires
        n <= t.len(),
        distinct_names(entry_names(t)),
    ensures
        dedup_prefix(t, n) == entry_names(t).take(n as int),
    decreases n,
{
    if n > 0 {
        let prev = dedup_prefix(t, (n - 1) as nat);
        lemma_deduplicated_keeps_distinct(t, (n - 1) as nat);
        let i = n - 1;
        assert(!clashes(t, i)) by {
            if clashes(t, i) {
                let j = choose|j: int| 0 <= j < t.len() && j != i && names_clash(#[trigger] t[j].name, t[i].name);
                if j < i {
                    assert(!names_clash(entry_names(t)[j], entry_names(t)[i]));
                } else {
                    assert(!names_clash(entry_names(t)[i], entry_names(t)[j]));
                }
            }
        }
        assert(is_free(t[i].name, prev)) by {
            assert forall|k: int| 0 <= k < prev.len() implies !names_clash(#[trigger] prev[k], t[i].name) by {
                assert(prev[k] == entry_names(t)[k]);
                assert(!names_clash(entry_names(t)[k], entry_names(t)[i]));
            }
        }
        assert(dedup_prefix(t, n) =~= entry_names(t).take(n as int));
    }
}

fn clash(a: &Name, b: &Name) -> (r: bool)
    ensures
        r == names_clash(a@, b@),
{
    a.snake_case == b.snake_case || a.pascal_case == b.pascal_case
}

fn free_of(n: &Name, used: &Vec<Name>) -> (r: bool)
    ensures
        r == is_free(n@, names_view(used@)),
{
    let mut i: usize = 0;
    while i < used.len()
        invariant
            i <= used@.len(),
            forall|k: int| 0 <= k < i ==> !names_clash(#[trigger] names_view(used@)[k], n@),
        decreases used@.len() - i,
    {
        if clash(&used[i], n) {
            assert(names_clash(names_view(used@)[i as int], n@));
            return false;
        }
        i = i + 1;
    }
    true
}

fn with_suffix(c: &Name, k: u128) -> (r: Name)
    ensures
        r@ == suffixed(c@, k as nat),
{
    let mut snake = c.snake_case.clone();
    proof { reveal_strlit("_"); }
    snake.append("_");
    push_digits(k, &mut snake);
    let mut pascal = c.pascal_case.clone();
    push_digits(k, &mut pascal);
    assert(snake@ =~= c@.snake_case + "_"@ + digits_text(k as nat));
    Name { snake_case: snake, pascal_case: pascal }
}

fn make_fresh(c: Name, used: &Vec<Name>) -> (r: Name)
    ensures
        r@ == fresh_name(c@, names_view(used@)),
{
    if free_of(&c, used) {
        return c;
    }
    let ghost u = names_view(used@);
    let bound: u128 = 2 * (used.len() as u128) + 2;
    let mut k: u128 = 2;
    while k < bound && !free_of(&with_suffix(&c, k), used)
        invariant
            2 <= k <= bound,
            bound == 2 * u.len() + 2,
            u == names_view(used@),
            first_free(c@, u, 2, 2 * u.len()) == first_free(c@, u, k as nat, (bound - k) as nat),
        decreases bound - k,
    {
        assert(first_free(c@, u, k as nat, (bound - k) as nat) == first_free(
            c@,
            u,
            (k + 1) as nat,
            (bound - (k + 1)) as nat,
        ));
        k = k + 1;
    }
    with_suffix(&c, k)
}

/// The names of one kind (points, groups or enums) registered across a model,
/// in registration order, ready for a deduplication pass.
#[derive(Debug, Clone)]
pub struct NameTable {
    pub entries: Vec<NameEntry>,
}

impl View for NameTable {
    type V = Seq<SpecNameEntry>;

    open spec fn view(&self) -> Seq<SpecNameEntry> {
        self.entries@.map_values(|e: NameEntry| e@)
    }
}

impl NameTable {
    pub fn new() -> (t: NameTable)
        ensures
            t@ == Seq::<SpecNameEntry>::empty(),
    {
        let t = NameTable { entries: Vec::new() };
        assert(t@ =~= Seq::<SpecNameEntry>::empty());
        t
    }

    /// Registers `name`, which may fall back on the (snake_case, PascalCase) pair `fallback`.
    pub fn register(&mut self, name: Name, fallback: (String, String))
        ensures
            final(self)@ == old(self)@.push(
                SpecNameEntry {
                    name: name@,
                    fallback: Some(SpecName { snake_case: fallback.0@, pascal_case: fallback.1@ }),
                },
            ),
    {
        let (snake_case, pascal_case) = fallback;
        self.entries.push(NameEntry { name, fallback: Some(Name::new(snake_case, pascal_case)) });
        assert(final(self)@ =~= old(self)@.push(
            SpecNameEntry {
                name: name@,
                fallback: Some(SpecName { snake_case: fallback.0@, pascal_case: fallback.1@ }),
            },
        ));
    }

    /// Renames the entries so that no two share a spelling: each entry whose
    /// name clashes with another's falls back on its fallback spelling where
    /// it has one, and an entry whose name is still taken by an earlier one
    /// gets the smallest numeric suffix from 2 on that frees it. Fallbacks stay.
    pub fn deduplicate(&mut self)
        ensures
            final(self)@.len() == old(self)@.len(),
            forall|i: int|
                0 <= i < old(self)@.len() ==> (#[trigger] final(self)@[i]).name == deduplicated(
                    old(self)@,
                )[i] && final(self)@[i].fallback == old(self)@[i].fallback,
    {
        let ghost t = self@;
        let n = self.entries.len();
        let mut finals: Vec<Name> = Vec::new();
        let mut i: usize = 0;
        while i < n
            invariant
                n == self.entries@.len(),
                t == self@,
                i <= n,
                names_view(finals@) == dedup_prefix(t, i as nat),
            decreases n - i,
        {
            let c = self.candidate_at(i);
            let f = make_fresh(c, &finals);
            let ghost before = names_view(finals@);
            finals.push(f);
            assert(names_view(finals@) =~= before.push(f@));
            i = i + 1;
        }
        proof {
            lemma_deduplicated_distinct(t, n as nat);
        }
        let mut entries: Vec<NameEntry> = Vec::new();
        let mut j: usize = 0;
        while j < n
            invariant
                n == self.entries@.len(),
                t == self@,
                j <= n,
                names_view(finals@) == deduplicated(t),
                finals@.len() == n,
                entries@.len() == j,
                forall|k: int|
                    0 <= k < j ==> (#[trigger] entries@[k])@.name == deduplicated(t)[k]
                        && entries@[k]@.fallback == t[k].fallback,
            decreases n - j,
        {
            let fallback = match &self.entries[j].fallback {
                Some(f) => Some(f.copy()),
                None => None,
            };
            assert(names_view(finals@)[j as int] == finals@[j as int]@);
            entries.push(NameEntry { name: finals[j].copy(), fallback });
            j = j + 1;
        }
        self.entries = entries;
    }

    /// The registered names, in registration order.
    pub fn names(&self) -> (r: Vec<Name>)
        ensures
            names_view(r@) == entry_names(self@),
    {
        let mut r: Vec<Name> = Vec::new();
        let mut i: usize = 0;
        while i < self.entries.len()
            invariant
                i <= self.entries@.len(),
                r@.len() == i,
                forall|k: int| 0 <= k < i ==> (#[trigger] r@[k])@ == self.entries@[k].name@,
            decreases self.entries@.len() - i,
        {
            r.push(self.entries[i].name.copy());
            i = i + 1;
        }
        assert(names_view(r@) =~= entry_names(self@));
        r
    }

    fn candidate_at(&self, i: usize) -> (r: Name)
        requires
            i < self@.len(),
        ensures
            r@ == candidate(self@, i as int),
    {
        let ghost t = self@;
        let mut clashing = false;
        let mut j: usize = 0;
        while j < self.entries.len()
            invariant
                t == self@,
                i < t.len(),
                j <= t.len(),
                clashing == exists|k: int| 0 <= k < j && k != i && names_clash(#[trigger] t[k].name, t[i as int].name),
            decreases t.len() - j,
        {
            if j != i && clash(&self.entries[j].name, &self.entries[i].name) {
                assert(names_clash(t[j as int].name, t[i as int].name));
                clashing = true;
            }
            j = j + 1;
        }
        match &self.entries[i].fallback {
            Some(f) => if clashing { f.copy() } else { self.entries[i].name.copy() },
            None => self.entries[i].name.copy(),
        }
    }

    /// Registers `name`, which has no fallback spelling.
    pub fn register_unique(&mut self, name: Name)
        ensures
            final(self)@ == old(self)@.push(SpecNameEntry { name: name@, fallback: None }),
    {
        self.entries.push(NameEntry { name, fallback: None });
        assert(final(self)@ =~= old(self)@.push(SpecNameEntry { name: name@, fallback: None }));
    }
}

} // verus!
