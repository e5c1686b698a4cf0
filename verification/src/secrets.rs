//! Passwords, and the aliases by which pages name them.

use vstd::prelude::*;
use vstd::string::*;

use crate::text::same;

verus! {

/// What stands for a secret wherever it would be shown.
pub open spec fn mask() -> Seq<char> {
    "***"@
}

/// A password.
pub struct Secret {
    value: String,
}

impl View for Secret {
    type V = Seq<char>;

    closed spec fn view(&self) -> Seq<char> {
        self.value@
    }
}

impl Secret {
    pub fn new(value: String) -> (secret: Secret)
        ensures
            secret@ == value@,
    {
        Secret { value }
    }

    /// The password itself.
    pub fn expose(&self) -> (s: &str)
        ensures
            s@ == self@,
    {
        self.value.as_str()
    }

    /// The password as it may be shown.
    pub fn describe(&self) -> (s: String)
        ensures
            s@ == mask(),
    {
        "***".to_string()
    }
}

/// The passwords by their alias.
pub struct Passwords {
    entries: Vec<(String, Secret)>,
}

spec fn table(entries: Seq<(String, Secret)>) -> Map<Seq<char>, Seq<char>>
    decreases entries.len(),
{
    if entries.len() == 0 {
        Map::empty()
    } else {
        table(entries.drop_last()).insert(entries.last().0@, entries.last().1@)
    }
}

spec fn distinct(entries: Seq<(String, Secret)>) -> bool {
    forall|i: int, j: int|
        0 <= i < j < entries.len() ==> (#[trigger] entries[i]).0@ != (#[trigger] entries[j]).0@
}

proof fn lemma_table_at(entries: Seq<(String, Secret)>, i: int)
    requires
        distinct(entries),
        0 <= i < entries.len(),
    ensures
        table(entries).contains_key(entries[i].0@),
        table(entries)[entries[i].0@] == entries[i].1@,
    decreases entries.len(),
{
    if i < entries.len() - 1 {
        let shorter = entries.drop_last();
        assert(shorter[i] == entries[i]);
        assert(distinct(shorter)) by {
            assert forall|a: int, b: int| 0 <= a < b < shorter.len() implies (
            #[trigger] shorter[a]).0@ != (#[trigger] shorter[b]).0@ by {
                assert(entries[a].0@ != entries[b].0@);
            }
        }
        lemma_table_at(shorter, i);
        assert(entries[i].0@ != entries[entries.len() - 1].0@);
    }
}

proof fn lemma_table_has(entries: Seq<(String, Secret)>, alias: Seq<char>)
    requires
        table(entries).contains_key(alias),
    ensures
        exists|i: int| 0 <= i < entries.len() && (#[trigger] entries[i]).0@ == alias,
    decreases entries.len(),
{
    if entries.len() > 0 {
        if entries.last().0@ == alias {
            assert(entries[entries.len() - 1].0@ == alias);
        } else {
            lemma_table_has(entries.drop_last(), alias);
            let i = choose|i: int|
                0 <= i < entries.drop_last().len() && (#[trigger] entries.drop_last()[i]).0@
                    == alias;
            assert(entries[i].0@ == alias);
        }
    }
}

proof fn lemma_table_len(entries: Seq<(String, Secret)>)
    requires
        distinct(entries),
    ensures
        table(entries).dom().finite(),
        table(entries).dom().len() == entries.len(),
    decreases entries.len(),
{
    if entries.len() > 0 {
        let shorter = entries.drop_last();
        assert(distinct(shorter)) by {
            assert forall|a: int, b: int| 0 <= a < b < shorter.len() implies (
            #[trigger] shorter[a]).0@ != (#[trigger] shorter[b]).0@ by {
                assert(entries[a].0@ != entries[b].0@);
            }
        }
        lemma_table_len(shorter);
        let alias = entries.last().0@;
        if table(shorter).contains_key(alias) {
            lemma_table_has(shorter, alias);
            let i = choose|i: int| 0 <= i < shorter.len() && (#[trigger] shorter[i]).0@ == alias;
            assert(entries[i].0@ != entries[entries.len() - 1].0@);
        }
        assert(table(entries).dom() == table(shorter).dom().insert(alias));
    } else {
        assert(table(entries).dom() == Set::<Seq<char>>::empty());
    }
}

impl View for Passwords {
    type V = Map<Seq<char>, Seq<char>>;

    closed spec fn view(&self) -> Map<Seq<char>, Seq<char>> {
        table(self.entries@)
    }
}

impl Passwords {
    #[verifier::type_invariant]
    spec fn well_formed(self) -> bool {
        distinct(self.entries@)
    }

    /// The aliases, in the order in which they came.
    pub closed spec fn aliases(self) -> Seq<Seq<char>> {
        self.entries@.map_values(|e: (String, Secret)| e.0@)
    }

    pub fn new() -> (passwords: Passwords)
        ensures
            passwords@ == Map::<Seq<char>, Seq<char>>::empty(),
            passwords.aliases() == Seq::<Seq<char>>::empty(),
    {
        Passwords { entries: Vec::new() }
    }

    /// How many passwords there are. Every alias has one place.
    pub fn len(&self) -> (n: usize)
        ensures
            self@.dom().finite(),
            n == self@.dom().len(),
            n == self.aliases().len(),
            self.aliases().no_duplicates(),
            forall|alias: Seq<char>| #[trigger]
                self.aliases().contains(alias) <==> self@.contains_key(alias),
    {
        proof {
            use_type_invariant(self);
            lemma_table_len(self.entries@);
            assert forall|alias: Seq<char>| #[trigger]
                self.aliases().contains(alias) implies self@.contains_key(alias) by {
                let i = choose|i: int|
                    0 <= i < self.aliases().len() && #[trigger] self.aliases()[i] == alias;
                lemma_table_at(self.entries@, i);
            }
            assert forall|alias: Seq<char>| self@.contains_key(alias) implies #[trigger]
            self.aliases().contains(alias) by {
                lemma_table_has(self.entries@, alias);
                let i = choose|i: int|
                    0 <= i < self.entries@.len() && (#[trigger] self.entries@[i]).0@ == alias;
                assert(self.aliases()[i] == alias);
            }
        }
        self.entries.len()
    }

    pub fn is_empty(&self) -> (r: bool)
        ensures
            r == (self@ == Map::<Seq<char>, Seq<char>>::empty()),
    {
        proof {
            use_type_invariant(self);
            if self.entries@.len() > 0 {
                lemma_table_at(self.entries@, 0);
            }
        }
        self.entries.len() == 0
    }

    fn position(&self, alias: &str) -> (r: Option<usize>)
        ensures
            match r {
                Some(i) => {
                    &&& i < self.entries@.len()
                    &&& self.entries@[i as int].0@ == alias@
                    &&& self@.contains_key(alias@)
                    &&& self@[alias@] == self.entries@[i as int].1@
                },
                None => {
                    &&& !self@.contains_key(alias@)
                    &&& forall|i: int|
                        0 <= i < self.entries@.len() ==> (#[trigger] self.entries@[i]).0@ != alias@
                },
            },
    {
        proof {
            use_type_invariant(self);
        }
        for i in 0..self.entries.len()
            invariant
                distinct(self.entries@),
                forall|j: int| 0 <= j < i ==> (#[trigger] self.entries@[j]).0@ != alias@,
        {
            if same(self.entries[i].0.as_str(), alias) {
                proof {
                    lemma_table_at(self.entries@, i as int);
                }
                return Some(i);
            }
        }
        proof {
            if self@.contains_key(alias@) {
                lemma_table_has(self.entries@, alias@);
            }
        }
        None
    }

    /// The password of an alias.
    pub fn get(&self, alias: &str) -> (r: Option<&Secret>)
        ensures
            r is Some <==> self@.contains_key(alias@),
            r is Some ==> r->0@ == self@[alias@],
    {
        match self.position(alias) {
            Some(i) => Some(&self.entries[i].1),
            None => None,
        }
    }

    /// The alias at a place in the order of the aliases.
    pub fn alias(&self, i: usize) -> (alias: &str)
        requires
            i < self.aliases().len(),
        ensures
            alias@ == self.aliases()[i as int],
            self@.contains_key(alias@),
    {
        proof {
            use_type_invariant(self);
            lemma_table_at(self.entries@, i as int);
        }
        self.entries[i].0.as_str()
    }

    /// Sets the password of an alias.
    pub fn insert(&mut self, alias: String, secret: Secret)
        ensures
            final(self)@ == old(self)@.insert(alias@, secret@),
            final(self).aliases() == (if old(self)@.contains_key(alias@) {
                old(self).aliases()
            } else {
                old(self).aliases().push(alias@)
            }),
    {
        let found = self.position(alias.as_str());
        proof {
            use_type_invariant(&*self);
        }
        let ghost before = self.entries@;
        let mut entries: Vec<(String, Secret)> = Vec::new();
        std::mem::swap(&mut entries, &mut self.entries);
        match found {
            Some(i) => {
                entries.set(i, (alias, secret));
                proof {
                    assert(distinct(entries@)) by {
                        assert forall|a: int, b: int| 0 <= a < b < entries@.len() implies (
                        #[trigger] entries@[a]).0@ != (#[trigger] entries@[b]).0@ by {
                            assert(before[a].0@ != before[b].0@);
                        }
                    }
                    lemma_same_table(
                        entries@,
                        table(before).insert(alias@, secret@),
                        before,
                        i as int,
                    );
                }
            },
            None => {
                entries.push((alias, secret));
                proof {
                    assert(entries@.drop_last() == before);
                }
            },
        }
        self.entries = entries;
        proof {
            assert(self.aliases() == (if old(self)@.contains_key(alias@) {
                old(self).aliases()
            } else {
                old(self).aliases().push(alias@)
            }));
        }
    }
}

/// Aliases as they may be shown, each with the mask.
pub open spec fn masked(aliases: Seq<Seq<char>>) -> Seq<char>
    decreases aliases.len(),
{
    if aliases.len() == 0 {
        Seq::empty()
    } else {
        let before = masked(aliases.drop_last());
        let separated = if before.len() == 0 {
            before
        } else {
            before + ", "@
        };
        separated + aliases.last() + " = "@ + mask()
    }
}

impl Passwords {
    /// The passwords as they may be shown: what is shown depends on the
    /// aliases alone.
    pub fn describe(&self) -> (s: String)
        ensures
            s@ == masked(self.aliases()),
    {
        let mut s = String::new();
        for i in 0..self.entries.len()
            invariant
                s@ == masked(self.aliases().take(i as int)),
        {
            let ghost shown = self.aliases().take(i + 1);
            proof {
                assert(shown.drop_last() == self.aliases().take(i as int));
                assert(shown.last() == self.entries@[i as int].0@);
            }
            if !s.as_str().is_empty() {
                s.append(", ");
            }
            s.append(self.entries[i].0.as_str());
            s.append(" = ");
            s.append("***");
        }
        proof {
            assert(self.aliases().take(self.aliases().len() as int) == self.aliases());
        }
        s
    }
}

proof fn lemma_same_table(
    entries: Seq<(String, Secret)>,
    map: Map<Seq<char>, Seq<char>>,
    before: Seq<(String, Secret)>,
    at: int,
)
    requires
        distinct(entries),
        distinct(before),
        0 <= at < before.len(),
        entries.len() == before.len(),
        forall|i: int|
            0 <= i < before.len() && i != at ==> #[trigger] entries[i] == before[i],
        entries[at].0@ == before[at].0@,
        map == table(before).insert(entries[at].0@, entries[at].1@),
    ensures
        table(entries) == map,
{
    assert forall|alias: Seq<char>| #[trigger]
        table(entries).contains_key(alias) == map.contains_key(alias) by {
        if table(entries).contains_key(alias) {
            lemma_table_has(entries, alias);
            let i = choose|i: int| 0 <= i < entries.len() && (#[trigger] entries[i]).0@ == alias;
            lemma_table_at(before, i);
        }
        if map.contains_key(alias) && alias != entries[at].0@ {
            lemma_table_has(before, alias);
            let i = choose|i: int| 0 <= i < before.len() && (#[trigger] before[i]).0@ == alias;
            assert(entries[i] == before[i]);
            lemma_table_at(entries, i);
        }
        if alias == entries[at].0@ {
            lemma_table_at(entries, at);
        }
    }
    assert forall|alias: Seq<char>| map.contains_key(alias) implies #[trigger]
        table(entries)[alias] == map[alias] by {
        lemma_table_at(entries, at);
        if alias != entries[at].0@ {
            lemma_table_has(before, alias);
            let i = choose|i: int| 0 <= i < before.len() && (#[trigger] before[i]).0@ == alias;
            assert(entries[i] == before[i]);
            lemma_table_at(before, i);
            lemma_table_at(entries, i);
        }
    }
    assert(table(entries) =~= map);
}

// ---------------------------------------------------------------------------
// Laws
// ---------------------------------------------------------------------------

/// What is shown of passwords is each alias with three stars, and commas between
/// them.
pub proof fn law_masked(aliases: Seq<Seq<char>>, alias: Seq<char>)
    ensures
        masked(Seq::empty()).len() == 0,
        masked(seq![alias]) == alias + " = "@ + "***"@,
        aliases.len() > 0 ==> masked(aliases.push(alias)) == masked(aliases) + ", "@ + alias
            + " = "@ + "***"@,
{
    reveal_strlit(" = ");
    reveal_strlit("***");
    assert(aliases.push(alias).drop_last() =~= aliases);
    assert(aliases.push(alias).last() == alias);
    assert(seq![alias].drop_last() =~= Seq::<Seq<char>>::empty());
    assert(masked(Seq::<Seq<char>>::empty()) + alias =~= alias);
    if aliases.len() > 0 {
        assert(masked(aliases).len() > 0);
    }
}

/// Nothing is shown of a password but three stars, and of many but their
/// aliases.
pub proof fn law_what_is_shown(
    secret: &Secret,
    one: String,
    passwords: &Passwords,
    many: String,
)
    requires
        call_ensures(Secret::describe, (secret,), one),
        call_ensures(Passwords::describe, (passwords,), many),
    ensures
        one@ == "***"@,
        many@ == masked(passwords.aliases()),
{
}

/// A password is found under the alias that it was last set for, and every other
/// alias keeps its own. A new alias comes last.
pub proof fn law_setting_a_password(
    passwords: &mut Passwords,
    alias: String,
    secret: Secret,
    other: Seq<char>,
)
    requires
        call_ensures(Passwords::insert, (passwords, alias, secret), ()),
    ensures
        final(passwords)@.contains_key(alias@),
        final(passwords)@[alias@] == secret@,
        old(passwords)@.contains_key(alias@) ==> final(passwords).aliases() == old(passwords).aliases(),
        !old(passwords)@.contains_key(alias@) ==> final(passwords).aliases() == old(passwords).aliases().push(alias@),
        other != alias@ ==> final(passwords)@.contains_key(other) == old(passwords)@.contains_key(other),
        other != alias@ && old(passwords)@.contains_key(other) ==> final(passwords)@[other] == old(passwords)@[other],
{
}

/// What is got for an alias is its password, and nothing exactly where it has
/// none.
pub proof fn law_getting_a_password(passwords: &Passwords, alias: &str, r: Option<&Secret>)
    requires
        call_ensures(Passwords::get, (passwords, alias), r),
    ensures
        r is Some <==> passwords@.contains_key(alias@),
        r matches Some(secret) ==> secret@ == passwords@[alias@],
{
}

/// There are as many passwords as aliases, and none exactly where it is said
/// so.
pub proof fn law_number_of_passwords(passwords: &Passwords, n: usize, empty: bool)
    requires
        call_ensures(Passwords::len, (passwords,), n),
        call_ensures(Passwords::is_empty, (passwords,), empty),
    ensures
        n == passwords@.dom().len(),
        empty <==> n == 0,
{
    if n == 0 {
        assert(passwords@.dom() =~= Set::<Seq<char>>::empty());
        assert(passwords@ =~= Map::<Seq<char>, Seq<char>>::empty());
    }
}

} // verus!
