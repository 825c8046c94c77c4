//! A table of named resources, handed out by id.
use vstd::prelude::*;

verus! {

/// The views of a list of names.
pub open spec fn name_views(names: Seq<String>) -> Seq<Seq<char>> {
    names.map_values(|s: String| s@)
}

/// A table of resources, each stored under a distinct name and identified by
/// the order in which it was inserted.
pub struct SharedDb<T> {
    db_name: String,
    names: Vec<String>,
    elems: Vec<T>,
}

impl<T> SharedDb<T> {
    /// The names of the resources, by id.
    pub closed spec fn spec_names(&self) -> Seq<Seq<char>> {
        name_views(self.names@)
    }

    /// The resources, by id.
    pub closed spec fn spec_elems(&self) -> Seq<T> {
        self.elems@
    }

    /// The name of the table itself.
    pub closed spec fn spec_db_name(&self) -> Seq<char> {
        self.db_name@
    }

    /// One name per resource, no name twice.
    pub open spec fn wf(&self) -> bool {
        &&& self.spec_names().len() == self.spec_elems().len()
        &&& forall|i: int, j: int|
            0 <= i < j < self.spec_names().len() ==> self.spec_names()[i] != self.spec_names()[j]
    }

    /// Create an empty table called `name`.
    pub fn new(name: &str) -> (r: SharedDb<T>)
        ensures
            r.wf(),
            r.spec_names().len() == 0,
            r.spec_db_name() == name@,
    {
        let r = SharedDb { db_name: name.to_owned(), names: Vec::new(), elems: Vec::new() };
        assert(r.spec_names().len() == 0);
        r
    }

    /// The name of the table.
    pub fn db_name(&self) -> (r: &str)
        ensures
            r@ == self.spec_db_name(),
    {
        self.db_name.as_str()
    }

    /// Insert `elem` under `name`, with the next id. Returns false, and leaves
    /// the table unchanged, when a resource of that name is there already.
    pub fn insert(&mut self, name: &str, elem: T) -> (r: bool)
        requires
            old(self).wf(),
        ensures
            final(self).wf(),
            final(self).spec_db_name() == old(self).spec_db_name(),
            r == !old(self).spec_names().contains(name@),
            r ==> final(self).spec_names() == old(self).spec_names().push(name@)
                && final(self).spec_elems() == old(self).spec_elems().push(elem),
            !r ==> final(self).spec_names() == old(self).spec_names()
                && final(self).spec_elems() == old(self).spec_elems(),
    {
        if self.find(name).is_some() {
            return false;
        }
        let ghost before = self.names@;
        self.names.push(name.to_owned());
        self.elems.push(elem);
        assert(name_views(self.names@) =~= name_views(before).push(name@));
        true
    }

    fn find(&self, name: &str) -> (r: Option<usize>)
        requires
            self.wf(),
        ensures
            r is Some ==> r->0 < self.spec_names().len() && self.spec_names()[r->0 as int] == name@,
            r is None ==> !self.spec_names().contains(name@),
    {
        let owned = name.to_owned();
        let mut i: usize = 0;
        while i < self.names.len()
            invariant
                i <= self.names@.len(),
                owned@ == name@,
                forall|t: int| 0 <= t < i ==> self.spec_names()[t] != name@,
            decreases self.names@.len() - i,
        {
            if self.names[i] == owned {
                return Some(i);
            }
            i += 1;
        }
        None
    }

    /// A read-only view of the table.
    pub fn get_handle(&self) -> (r: Handle<'_, T>)
        ensures
            r.spec_db() == *self,
    {
        Handle { inner: self }
    }
}

/// A read-only view of a `SharedDb`.
pub struct Handle<'a, T> {
    inner: &'a SharedDb<T>,
}

impl<'a, T> Handle<'a, T> {
    pub closed spec fn spec_db(&self) -> SharedDb<T> {
        *self.inner
    }

    /// The id of the resource stored under `name`, if there is one.
    pub fn get_id(&self, name: &str) -> (r: Option<usize>)
        requires
            self.spec_db().wf(),
        ensures
            r is Some ==> r->0 < self.spec_db().spec_names().len() && self.spec_db().spec_names()[r->0 as int] == name@,
            r is None ==> !self.spec_db().spec_names().contains(name@),
    {
        self.inner.find(name)
    }

    /// The resource with id `id`, if there is one.
    pub fn get_resource(&self, id: usize) -> (r: Option<Ref<'a, T>>)
        ensures
            r is Some <==> id < self.spec_db().spec_elems().len(),
            r is Some ==> r->0.wf() && r->0.spec_get() == self.spec_db().spec_elems()[id as int],
    {
        if id < self.inner.elems.len() {
            Some(Ref { inner: &self.inner.elems, index: id })
        } else {
            None
        }
    }
}

/// A reference to one resource of a `SharedDb`.
pub struct Ref<'a, T> {
    inner: &'a Vec<T>,
    index: usize,
}

impl<'a, T> Ref<'a, T> {
    pub closed spec fn spec_get(&self) -> T {
        self.inner@[self.index as int]
    }

    pub closed spec fn wf(&self) -> bool {
        self.index < self.inner@.len()
    }

    /// The resource referred to.
    pub fn get(&self) -> (r: &T)
        requires
            self.wf(),
        ensures
            *r == self.spec_get(),
    {
        &self.inner[self.index]
    }
}

} // verus!
