//! A directory held in memory: names, and behind each name a file known by
//! a number. It stands in for a directory on disk wherever the renaming
//! engine is to be run without one.

use crate::executor::tracking::{injective, renamed, Files};
use crate::text::{str_eq, views_of};
use vstd::prelude::*;

verus! {

/// The directory that holds the file `ids[i]` behind the name `names[i]`.
pub open spec fn listed(names: Seq<Seq<char>>, ids: Seq<u64>) -> Files {
    Map::new(|name: Seq<char>| names.contains(name), |name: Seq<char>| ids[names.index_of(name)])
}

/// With no name listed twice, each name leads to the file listed with it.
pub proof fn lemma_listed(names: Seq<Seq<char>>, ids: Seq<u64>)
    requires
        names.len() == ids.len(),
        names.no_duplicates(),
    ensures
        forall|i: int|
            0 <= i < names.len() ==> listed(names, ids).contains_key(#[trigger] names[i])
                && listed(names, ids)[names[i]] == ids[i],
        ids.no_duplicates() ==> injective(listed(names, ids)),
{
    assert forall|i: int| 0 <= i < names.len() implies listed(names, ids).contains_key(
        #[trigger] names[i],
    ) && listed(names, ids)[names[i]] == ids[i] by {
        let j = names.index_of(names[i]);
        assert(names[j] == names[i]);
    }
    if ids.no_duplicates() {
        assert forall|a: Seq<char>, b: Seq<char>|
            listed(names, ids).contains_key(a) && listed(names, ids).contains_key(b) && listed(
                names,
                ids,
            )[a] == listed(names, ids)[b] implies a == b by {
            let i = names.index_of(a);
            let j = names.index_of(b);
            assert(names[i] == a && names[j] == b);
        }
    }
}

proof fn lemma_listed_push(names: Seq<Seq<char>>, ids: Seq<u64>, name: Seq<char>, id: u64)
    requires
        names.len() == ids.len(),
        names.no_duplicates(),
        !names.contains(name),
    ensures
        names.push(name).no_duplicates(),
        listed(names.push(name), ids.push(id)) == listed(names, ids).insert(name, id),
{
    let more = names.push(name);
    let more_ids = ids.push(id);
    assert(more.no_duplicates()) by {
        assert forall|i: int, j: int| 0 <= i < more.len() && 0 <= j < more.len() && i != j implies more[i]
            != more[j] by {
            if i < names.len() {
                assert(names.contains(more[i]));
            }
            if j < names.len() {
                assert(names.contains(more[j]));
            }
        }
    }
    lemma_listed(names, ids);
    lemma_listed(more, more_ids);
    assert forall|key: Seq<char>| listed(more, more_ids).contains_key(key) <==> listed(
        names,
        ids,
    ).insert(name, id).contains_key(key) by {
        if more.contains(key) {
            let i = more.index_of(key);
            assert(more[i] == key);
            if i < names.len() {
                assert(names[i] == key);
            }
        }
        if names.contains(key) {
            let i = names.index_of(key);
            assert(names[i] == key);
            assert(more[i] == key);
        }
        if key == name {
            assert(more[names.len() as int] == key);
        }
    }
    assert forall|key: Seq<char>| listed(more, more_ids).contains_key(key) implies listed(
        more,
        more_ids,
    )[key] == listed(names, ids).insert(name, id)[key] by {
        let i = more.index_of(key);
        assert(more[i] == key);
        assert(listed(more, more_ids)[more[i]] == more_ids[i]);
        if i < names.len() {
            assert(names[i] == key);
            assert(listed(names, ids)[names[i]] == ids[i]);
        }
    }
    assert(listed(more, more_ids) =~= listed(names, ids).insert(name, id));
}

proof fn lemma_listed_remove(names: Seq<Seq<char>>, ids: Seq<u64>, place: int)
    requires
        names.len() == ids.len(),
        names.no_duplicates(),
        0 <= place < names.len(),
    ensures
        names.remove(place).no_duplicates(),
        !names.remove(place).contains(names[place]),
        ids.no_duplicates() ==> ids.remove(place).no_duplicates(),
        listed(names.remove(place), ids.remove(place)) == listed(names, ids).remove(names[place]),
{
    let fewer = names.remove(place);
    let fewer_ids = ids.remove(place);
    assert forall|i: int| 0 <= i < fewer.len() implies #[trigger] fewer[i] == names[if i
        < place {
        i
    } else {
        i + 1
    }] by {}
    assert(fewer.no_duplicates());
    assert(!fewer.contains(names[place])) by {
        if fewer.contains(names[place]) {
            let i = fewer.index_of(names[place]);
            assert(fewer[i] == names[place]);
        }
    }
    if ids.no_duplicates() {
        assert forall|i: int| 0 <= i < fewer_ids.len() implies #[trigger] fewer_ids[i] == ids[if i
            < place {
            i
        } else {
            i + 1
        }] by {}
        assert(fewer_ids.no_duplicates());
    }
    lemma_listed(names, ids);
    lemma_listed(fewer, fewer_ids);
    assert forall|key: Seq<char>| listed(fewer, fewer_ids).contains_key(key) <==> listed(
        names,
        ids,
    ).remove(names[place]).contains_key(key) by {
        if fewer.contains(key) {
            let i = fewer.index_of(key);
            assert(fewer[i] == key);
            assert(names.contains(key));
        }
        if names.contains(key) && key != names[place] {
            let i = names.index_of(key);
            assert(names[i] == key);
            if i < place {
                assert(fewer[i] == key);
            } else {
                assert(fewer[i - 1] == key);
            }
        }
    }
    assert forall|key: Seq<char>| listed(fewer, fewer_ids).contains_key(key) implies listed(
        fewer,
        fewer_ids,
    )[key] == listed(names, ids).remove(names[place])[key] by {
        let i = fewer.index_of(key);
        assert(fewer[i] == key);
        assert(listed(fewer, fewer_ids)[fewer[i]] == fewer_ids[i]);
        let k = if i < place {
            i
        } else {
            i + 1
        };
        assert(names[k] == key);
        assert(listed(names, ids)[names[k]] == ids[k]);
    }
    assert(listed(fewer, fewer_ids) =~= listed(names, ids).remove(names[place]));
}

proof fn lemma_listed_update(names: Seq<Seq<char>>, ids: Seq<u64>, place: int, to: Seq<char>)
    requires
        names.len() == ids.len(),
        names.no_duplicates(),
        0 <= place < names.len(),
        !names.contains(to),
    ensures
        names.update(place, to).no_duplicates(),
        listed(names.update(place, to), ids) == renamed(listed(names, ids), names[place], to),
{
    let moved = names.update(place, to);
    assert(moved.no_duplicates()) by {
        assert forall|i: int, j: int| 0 <= i < moved.len() && 0 <= j < moved.len() && i != j implies moved[i]
            != moved[j] by {
            if i != place {
                assert(names.contains(moved[i]));
            }
            if j != place {
                assert(names.contains(moved[j]));
            }
        }
    }
    lemma_listed(names, ids);
    lemma_listed(moved, ids);
    let expected = renamed(listed(names, ids), names[place], to);
    assert forall|key: Seq<char>| listed(moved, ids).contains_key(key) <==> expected.contains_key(
        key,
    ) by {
        if moved.contains(key) {
            let i = moved.index_of(key);
            assert(moved[i] == key);
            if i != place {
                assert(names[i] == key);
                assert(names.contains(key));
            }
        }
        if names.contains(key) && key != names[place] {
            let i = names.index_of(key);
            assert(names[i] == key);
            assert(moved[i] == key);
        }
        if key == to {
            assert(moved[place] == key);
        }
    }
    assert forall|key: Seq<char>| listed(moved, ids).contains_key(key) implies listed(moved, ids)[key]
        == expected[key] by {
        let i = moved.index_of(key);
        assert(moved[i] == key);
        assert(listed(moved, ids)[moved[i]] == ids[i]);
        if i != place {
            assert(names[i] == key);
            assert(listed(names, ids)[names[i]] == ids[i]);
        } else {
            assert(listed(names, ids)[names[place]] == ids[place]);
        }
    }
    assert(listed(moved, ids) =~= expected);
}

/// A directory in memory.
pub struct Directory {
    names: Vec<String>,
    ids: Vec<u64>,
}

impl View for Directory {
    type V = Files;

    closed spec fn view(&self) -> Files {
        listed(views_of(self.names@), self.ids@)
    }
}

impl Directory {
    /// What always holds of the directory: no name and no file is there
    /// twice.
    pub closed spec fn wf(&self) -> bool {
        &&& self.names.len() == self.ids.len()
        &&& views_of(self.names@).no_duplicates()
        &&& self.ids@.no_duplicates()
    }

    /// In a directory no file is behind two names.
    pub proof fn lemma_injective(&self)
        requires
            self.wf(),
        ensures
            injective(self@),
    {
        lemma_listed(views_of(self.names@), self.ids@);
    }

    /// The empty directory.
    pub fn new() -> (dir: Self)
        ensures
            dir.wf(),
            dir@ == Map::<Seq<char>, u64>::empty(),
    {
        let dir = Directory { names: Vec::new(), ids: Vec::new() };
        assert(dir@ =~= Map::<Seq<char>, u64>::empty());
        dir
    }

    fn position(&self, name: &str) -> (found: Option<usize>)
        ensures
            match found {
                Some(place) => place < self.names.len() && self.names[place as int]@ == name@,
                None => !views_of(self.names@).contains(name@),
            },
    {
        let mut place: usize = 0;
        while place < self.names.len()
            invariant
                place <= self.names.len(),
                forall|i: int| 0 <= i < place ==> (#[trigger] self.names[i])@ != name@,
            decreases self.names.len() - place,
        {
            if str_eq(self.names[place].as_str(), name) {
                return Some(place);
            }
            place += 1;
        }
        assert(!views_of(self.names@).contains(name@)) by {
            if views_of(self.names@).contains(name@) {
                let i = views_of(self.names@).index_of(name@);
                assert(views_of(self.names@)[i] == self.names[i]@);
            }
        }
        None
    }

    fn holds(&self, id: u64) -> (found: bool)
        ensures
            found == self.ids@.contains(id),
    {
        let mut place: usize = 0;
        while place < self.ids.len()
            invariant
                place <= self.ids.len(),
                forall|i: int| 0 <= i < place ==> #[trigger] self.ids[i] != id,
            decreases self.ids.len() - place,
        {
            if self.ids[place] == id {
                return true;
            }
            place += 1;
        }
        false
    }

    /// How many names the directory holds.
    pub fn len(&self) -> (count: usize)
        requires
            self.wf(),
        ensures
            count == self@.dom().len(),
            self@.dom().finite(),
    {
        proof {
            self.lemma_domain();
        }
        self.names.len()
    }

    proof fn lemma_domain(&self)
        requires
            self.wf(),
        ensures
            self@.dom() == views_of(self.names@).to_set(),
            self@.dom().finite(),
            self@.dom().len() == self.names.len(),
    {
        let names = views_of(self.names@);
        assert(self@.dom() =~= names.to_set());
        names.unique_seq_to_set();
        vstd::seq_lib::seq_to_set_is_finite(names);
    }

    /// Whether something of that name is in the directory.
    pub fn contains(&self, name: &str) -> (found: bool)
        requires
            self.wf(),
        ensures
            found == self@.contains_key(name@),
    {
        match self.position(name) {
            Some(place) => {
                assert(views_of(self.names@)[place as int] == name@);
                true
            },
            None => false,
        }
    }

    /// The file behind a name.
    pub fn lookup(&self, name: &str) -> (found: Option<u64>)
        requires
            self.wf(),
        ensures
            match found {
                Some(id) => self@.contains_key(name@) && self@[name@] == id,
                None => !self@.contains_key(name@),
            },
    {
        match self.position(name) {
            Some(place) => {
                proof {
                    lemma_listed(views_of(self.names@), self.ids@);
                    assert(views_of(self.names@)[place as int] == name@);
                }
                Some(self.ids[place])
            },
            None => None,
        }
    }

    /// Puts the file `id` into the directory under `name`. Nothing is done,
    /// and false returned, where the name is taken or the file is in the
    /// directory already.
    pub fn insert(&mut self, name: &str, id: u64) -> (done: bool)
        requires
            old(self).wf(),
        ensures
            final(self).wf(),
            done == (!old(self)@.contains_key(name@) && !old(self)@.contains_value(id)),
            done ==> final(self)@ == old(self)@.insert(name@, id),
            !done ==> final(self)@ == old(self)@,
    {
        proof {
            lemma_listed(views_of(self.names@), self.ids@);
        }
        let taken = match self.position(name) {
            Some(place) => {
                assert(views_of(self.names@)[place as int] == name@);
                true
            },
            None => false,
        };
        let known = self.holds(id);
        proof {
            let names = views_of(self.names@);
            if known {
                let i = self.ids@.index_of(id);
                assert(self.ids@[i] == id);
                assert(self@.contains_key(names[i]) && self@[names[i]] == id);
            }
            if self@.contains_value(id) {
                let key = choose|key: Seq<char>| self@.contains_key(key) && self@[key] == id;
                let i = names.index_of(key);
                assert(names[i] == key);
                assert(self.ids@[i] == id);
            }
        }
        if taken || known {
            return false;
        }
        proof {
            lemma_listed_push(views_of(self.names@), self.ids@, name@, id);
        }
        self.names.push(String::from_str(name));
        self.ids.push(id);
        proof {
            assert(views_of(self.names@) == views_of(old(self).names@).push(name@));
            assert(self.ids@.no_duplicates()) by {
                assert forall|i: int, j: int|
                    0 <= i < self.ids@.len() && 0 <= j < self.ids@.len() && i != j implies self.ids@[i]
                    != self.ids@[j] by {
                    if i < old(self).ids@.len() {
                        assert(old(self).ids@.contains(self.ids@[i]));
                    }
                    if j < old(self).ids@.len() {
                        assert(old(self).ids@.contains(self.ids@[j]));
                    }
                }
            }
        }
        true
    }

    /// Renames `from` to `to` as a file system does: a file that was behind
    /// `to` is replaced. Nothing is done, and false returned, where there
    /// is no `from`.
    pub fn rename(&mut self, from: &str, to: &str) -> (done: bool)
        requires
            old(self).wf(),
        ensures
            final(self).wf(),
            done == old(self)@.contains_key(from@),
            done ==> final(self)@ == renamed(old(self)@, from@, to@),
            !done ==> final(self)@ == old(self)@,
    {
        let ghost names = views_of(self.names@);
        let ghost ids = self.ids@;
        let mut place = match self.position(from) {
            Some(place) => place,
            None => {
                return false;
            },
        };
        assert(names[place as int] == from@);
        if str_eq(from, to) {
            proof {
                lemma_listed(names, ids);
                assert(renamed(self@, from@, to@) =~= self@);
            }
            return true;
        }
        match self.position(to) {
            Some(taken) => {
                assert(names[taken as int] == to@);
                proof {
                    lemma_listed_remove(names, ids, taken as int);
                }
                self.names.remove(taken);
                self.ids.remove(taken);
                assert(views_of(self.names@) == names.remove(taken as int));
                if taken < place {
                    place -= 1;
                }
            },
            None => {},
        }
        let ghost fewer = views_of(self.names@);
        let ghost fewer_ids = self.ids@;
        proof {
            assert(fewer[place as int] == from@);
            lemma_listed(names, ids);
            lemma_listed(fewer, fewer_ids);
            lemma_listed_update(fewer, fewer_ids, place as int, to@);
        }
        self.names.set(place, String::from_str(to));
        assert(views_of(self.names@) == fewer.update(place as int, to@));
        assert(self@ =~= renamed(old(self)@, from@, to@));
        true
    }

    /// The names in the directory.
    pub fn names(&self) -> (names: Vec<String>)
        requires
            self.wf(),
        ensures
            views_of(names@).no_duplicates(),
            forall|name: Seq<char>| views_of(names@).contains(name) <==> self@.contains_key(name),
    {
        let names = self.names.clone();
        assert(views_of(names@) == views_of(self.names@)) by {
            assert(names@.len() == self.names@.len());
            assert forall|i: int| 0 <= i < names@.len() implies views_of(names@)[i] == views_of(
                self.names@,
            )[i] by {
                assert(names@[i] == self.names@[i]);
            }
        }
        names
    }
}

} // verus!
