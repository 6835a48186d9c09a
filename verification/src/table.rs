//! The class table: which names stand for a class, and what each class holds.

use vstd::prelude::*;

verus! {

/// Why a lookup or a resolution did not give a result.
#[derive(Debug, Clone, Copy, PartialEq, Eq, Structural)]
pub enum ResolveError {
    /// The name was looked up as a class, and the table has no such class.
    UnknownClass(char),
    /// The next binding index does not fit the counter.
    TooManyBindings,
}

/// One class: its name and its members in the order in which they were listed.
#[derive(Debug)]
struct ClassDef {
    name: char,
    members: Vec<String>,
}

/// The classes defined so far, in the order of their definition.
///
/// Its view is the map from each name to the members of the class; where a
/// name was defined more than once, the last definition counts.
#[derive(Debug)]
pub struct ClassTable {
    defs: Vec<ClassDef>,
}

/// The map that the first `n` definitions of `defs` make.
spec fn table_of(defs: Seq<ClassDef>, n: nat) -> Map<char, Seq<Seq<char>>>
    decreases n,
{
    if n == 0 || n > defs.len() {
        Map::empty()
    } else {
        table_of(defs, (n - 1) as nat).insert(
            defs[n - 1].name,
            defs[n - 1].members.deep_view(),
        )
    }
}

/// Definitions that do not name `name` leave its entry as it was.
proof fn lemma_table_skips(defs: Seq<ClassDef>, from: nat, to: nat, name: char)
    requires
        from <= to <= defs.len(),
        forall|j: int| from <= j < to ==> defs[j].name != name,
    ensures
        table_of(defs, to).dom().contains(name) == table_of(defs, from).dom().contains(name),
        table_of(defs, to).dom().contains(name) ==> table_of(defs, to)[name] == table_of(
            defs,
            from,
        )[name],
    decreases to - from,
{
    if from < to {
        lemma_table_skips(defs, from, (to - 1) as nat, name);
    }
}

/// A copy of a list of strings.
pub fn clone_texts(texts: &Vec<String>) -> (copy: Vec<String>)
    ensures
        copy.deep_view() == texts.deep_view(),
{
    let mut copy: Vec<String> = Vec::new();
    let mut i: usize = 0;
    while i < texts.len()
        invariant
            i <= texts.len(),
            copy.len() == i,
            forall|j: int| 0 <= j < i ==> copy[j]@ == texts[j]@,
        decreases texts.len() - i,
    {
        copy.push(texts[i].clone());
        i += 1;
    }
    assert(copy.deep_view() =~= texts.deep_view());
    copy
}

impl View for ClassTable {
    type V = Map<char, Seq<Seq<char>>>;

    closed spec fn view(&self) -> Map<char, Seq<Seq<char>>> {
        table_of(self.defs@, self.defs@.len())
    }
}

impl ClassTable {
    /// The names of the classes in the order in which they were defined; a
    /// name that was defined again stands there again.
    pub closed spec fn order(&self) -> Seq<char> {
        Seq::new(self.defs@.len(), |i: int| self.defs@[i].name)
    }

    /// A table without classes.
    pub fn new() -> (table: ClassTable)
        ensures
            table@ == Map::<char, Seq<Seq<char>>>::empty(),
            table.order() == Seq::<char>::empty(),
    {
        let table = ClassTable { defs: Vec::new() };
        assert(table.order() =~= Seq::<char>::empty());
        table
    }

    /// Defines the class `name`, in place of an earlier class of that name.
    pub fn define(&mut self, name: char, members: Vec<String>)
        ensures
            final(self)@ == old(self)@.insert(name, members.deep_view()),
            final(self).order() == old(self).order().push(name),
    {
        let ghost before = self.defs@;
        let ghost model = members.deep_view();
        self.defs.push(ClassDef { name, members });
        proof {
            lemma_table_prefix(self.defs@, before, before.len());
            assert(self.defs@[before.len() as int].members.deep_view() == model);
            assert(self.order() =~= old(self).order().push(name));
        }
    }

    /// The names of the classes in the order in which they were defined.
    pub fn names(&self) -> (names: Vec<char>)
        ensures
            names@ == self.order(),
    {
        let mut names: Vec<char> = Vec::new();
        let mut i: usize = 0;
        while i < self.defs.len()
            invariant
                i <= self.defs.len(),
                names@.len() == i,
                forall|j: int| 0 <= j < i ==> names@[j] == self.defs@[j].name,
            decreases self.defs.len() - i,
        {
            names.push(self.defs[i].name);
            i += 1;
        }
        assert(names@ =~= self.order());
        names
    }

    /// The classes of the table are those whose names were defined.
    pub proof fn lemma_classes_are_the_defined_names(&self)
        ensures
            forall|name: char| self@.dom().contains(name) <==> self.order().contains(name),
    {
        assert forall|name: char| self@.dom().contains(name) <==> self.order().contains(
            name,
        ) by {
            lemma_table_names(self.defs@, self.defs@.len(), name);
            if self.order().contains(name) {
                let i = choose|i: int| 0 <= i < self.order().len() && self.order()[i] == name;
                assert(self.defs@[i].name == name);
            }
            if exists|j: int| 0 <= j < self.defs@.len() && self.defs@[j].name == name {
                let j = choose|j: int| 0 <= j < self.defs@.len() && self.defs@[j].name == name;
                assert(self.order()[j] == name);
            }
        }
    }

    /// Whether `name` is the name of a class.
    pub fn contains(&self, name: char) -> (found: bool)
        ensures
            found == self@.dom().contains(name),
    {
        self.find(name).is_some()
    }

    /// The members of the class `name`.
    pub fn members(&self, name: char) -> (result: Result<Vec<String>, ResolveError>)
        ensures
            self@.dom().contains(name) ==> result is Ok && result->Ok_0.deep_view() == self@[name],
            !self@.dom().contains(name) ==> result == Err::<Vec<String>, ResolveError>(
                ResolveError::UnknownClass(name),
            ),
    {
        match self.find(name) {
            Some(at) => Ok(clone_texts(&self.defs[at].members)),
            None => Err(ResolveError::UnknownClass(name)),
        }
    }

    /// The place of the definition that counts for `name`.
    fn find(&self, name: char) -> (place: Option<usize>)
        ensures
            place is Some == self@.dom().contains(name),
            place matches Some(at) ==> at < self.defs.len() && self.defs[at as int].name == name
                && self.defs[at as int].members.deep_view() == self@[name],
    {
        let mut i: usize = self.defs.len();
        while i > 0
            invariant
                i <= self.defs.len(),
                forall|j: int| i <= j < self.defs.len() ==> self.defs[j].name != name,
            decreases i,
        {
            i -= 1;
            if self.defs[i].name == name {
                proof {
                    lemma_table_skips(self.defs@, (i + 1) as nat, self.defs@.len(), name);
                }
                return Some(i);
            }
        }
        proof {
            lemma_table_skips(self.defs@, 0, self.defs@.len(), name);
        }
        None
    }
}

/// A name has an entry in the map where one of the definitions names it.
proof fn lemma_table_names(defs: Seq<ClassDef>, n: nat, name: char)
    requires
        n <= defs.len(),
    ensures
        table_of(defs, n).dom().contains(name) <==> exists|j: int|
            0 <= j < n && defs[j].name == name,
    decreases n,
{
    if n > 0 {
        lemma_table_names(defs, (n - 1) as nat, name);
        if exists|j: int| 0 <= j < n - 1 && defs[j].name == name {
            let j = choose|j: int| 0 <= j < n - 1 && defs[j].name == name;
            assert(0 <= j < n && defs[j].name == name);
        }
        if defs[n - 1].name == name {
            assert(0 <= n - 1 < n && defs[n - 1].name == name);
        }
    }
}

/// The map of a prefix does not depend on what follows the prefix.
proof fn lemma_table_prefix(longer: Seq<ClassDef>, shorter: Seq<ClassDef>, n: nat)
    requires
        n <= shorter.len() <= longer.len(),
        forall|j: int| 0 <= j < n ==> longer[j] == shorter[j],
    ensures
        table_of(longer, n) == table_of(shorter, n),
    decreases n,
{
    if n > 0 {
        lemma_table_prefix(longer, shorter, (n - 1) as nat);
    }
}

} // verus!
