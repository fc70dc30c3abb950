use vstd::prelude::*;

verus! {

/// An identifier: a dense internal number and the external string it stands for.
/// Two ids are equal when their internal numbers are.
#[derive(Clone, Debug)]
pub struct Id {
    internal: u64,
    external: String,
}

impl PartialEq for Id {
    fn eq(&self, other: &Id) -> (r: bool)
        ensures
            r == (self.internal_spec() == other.internal_spec()),
    {
        self.internal == other.internal
    }
}

impl vstd::std_specs::cmp::PartialEqSpecImpl for Id {
    open spec fn obeys_eq_spec() -> bool {
        true
    }

    open spec fn eq_spec(&self, other: &Id) -> bool {
        self.internal_spec() == other.internal_spec()
    }
}

impl Id {
    pub closed spec fn internal_spec(&self) -> u64 {
        self.internal
    }

    pub closed spec fn external_spec(&self) -> Seq<char> {
        self.external@
    }

    pub fn new(internal: u64, external: String) -> (r: Self)
        ensures
            r.internal_spec() == internal,
            r.external_spec() == external@,
    {
        Id { internal, external }
    }

    pub fn internal(&self) -> (r: u64)
        ensures
            r == self.internal_spec(),
    {
        self.internal
    }

    pub fn external(&self) -> (r: &str)
        ensures
            r@ == self.external_spec(),
    {
        self.external.as_str()
    }

    /// The id of `id` in `store`, which takes it in if it is new.
    pub fn create(store: &mut IdStore, id: &str) -> (r: Self)
        requires
            old(store).wf(),
        ensures
            final(store).wf(),
            r.external_spec() == id@,
            old(store)@.contains(id@) ==> final(store)@ == old(store)@ && r.internal_spec() < old(store)@.len()
                && old(store)@[r.internal_spec() as int] == id@,
            !old(store)@.contains(id@) ==> final(store)@ == old(store)@.push(id@) && r.internal_spec()
                == old(store)@.len(),
    {
        store.create_id(id)
    }

    /// The id with internal number `internal`, if `store` has one.
    pub fn get(store: &IdStore, internal: u64) -> (r: Option<Self>)
        ensures
            r is Some <==> internal < store@.len(),
            r matches Some(i) ==> i.internal_spec() == internal && i.external_spec() == store@[internal as int],
    {
        store.get(internal)
    }

    /// The id of external string `external`, if `store` has it.
    pub fn get_from_ext(store: &IdStore, external: &str) -> (r: Option<Self>)
        requires
            store.wf(),
        ensures
            r is Some <==> store@.contains(external@),
            r matches Some(i) ==> i.external_spec() == external@ && i.internal_spec() < store@.len()
                && store@[i.internal_spec() as int] == external@,
    {
        store.get_from_ext(external)
    }
}

/// Interns the external strings of one kind of id; the internal number of each is
/// its position.
pub struct IdStore {
    ids: Vec<String>,
}

impl View for IdStore {
    type V = Seq<Seq<char>>;

    closed spec fn view(&self) -> Seq<Seq<char>> {
        self.ids@.map_values(|s: String| s@)
    }
}

impl IdStore {
    pub open spec fn wf(&self) -> bool {
        self@.no_duplicates()
    }

    pub fn new() -> (r: Self)
        ensures
            r.wf(),
            r@ == Seq::<Seq<char>>::empty(),
    {
        let r = IdStore { ids: Vec::new() };
        assert(r@ =~= Seq::<Seq<char>>::empty());
        r
    }

    pub fn len(&self) -> (r: usize)
        ensures
            r == self@.len(),
    {
        self.ids.len()
    }

    /// The position of `external`, if the store holds it.
    fn position(&self, external: &String) -> (r: Option<usize>)
        ensures
            r is None <==> !self@.contains(external@),
            r matches Some(i) ==> i < self@.len() && self@[i as int] == external@,
    {
        let mut i: usize = 0;
        while i < self.ids.len()
            invariant
                i <= self.ids@.len(),
                forall|j: int| 0 <= j < i ==> self@[j] != external@,
            decreases self.ids@.len() - i,
        {
            if self.ids[i] == *external {
                assert(self@[i as int] == self.ids@[i as int]@);
                assert(self@.contains(external@));
                return Some(i);
            }
            i = i + 1;
        }
        assert forall|j: int| 0 <= j < self@.len() implies self@[j] != external@ by {}
        None
    }

    /// The id of `external`, taken in as the next internal number if it is new.
    pub fn create_id(&mut self, external: &str) -> (r: Id)
        requires
            old(self).wf(),
        ensures
            final(self).wf(),
            r.external_spec() == external@,
            old(self)@.contains(external@) ==> final(self)@ == old(self)@ && r.internal_spec() < old(self)@.len()
                && old(self)@[r.internal_spec() as int] == external@,
            !old(self)@.contains(external@) ==> final(self)@ == old(self)@.push(external@) && r.internal_spec()
                == old(self)@.len(),
    {
        let ext: String = external.to_string();
        match self.position(&ext) {
            Some(i) => Id { internal: i as u64, external: ext },
            None => {
                let n = self.ids.len();
                let ghost v0 = self@;
                self.ids.push(ext.clone());
                assert(self@ =~= v0.push(external@));
                Id { internal: n as u64, external: ext }
            },
        }
    }

    /// The external string of internal number `i`.
    pub fn external_at(&self, i: usize) -> (r: &str)
        requires
            i < self@.len(),
        ensures
            r@ == self@[i as int],
    {
        self.ids[i].as_str()
    }

    /// The id with internal number `internal`, if there is one.
    pub fn get(&self, internal: u64) -> (r: Option<Id>)
        ensures
            r is Some <==> internal < self@.len(),
            r matches Some(i) ==> i.internal_spec() == internal && i.external_spec() == self@[internal as int],
    {
        if internal < self.ids.len() as u64 {
            let s = self.ids[internal as usize].clone();
            Some(Id { internal, external: s })
        } else {
            None
        }
    }

    /// The id of `external`, if the store holds it.
    pub fn get_from_ext(&self, external: &str) -> (r: Option<Id>)
        requires
            self.wf(),
        ensures
            r is Some <==> self@.contains(external@),
            r matches Some(i) ==> i.external_spec() == external@ && i.internal_spec() < self@.len()
                && self@[i.internal_spec() as int] == external@,
    {
        let ext: String = external.to_string();
        match self.position(&ext) {
            Some(i) => Some(Id { internal: i as u64, external: ext }),
            None => None,
        }
    }
}

} // verus!
