use vstd::prelude::*;

verus! {

/// The kind of object a hash refers to: raw file bytes, a serialized
/// directory entry list, or a chunk of a split file (reserved, never
/// produced by the builder).
#[derive(Clone, Copy, PartialEq, Eq, Structural, Debug)]
pub enum LinkType {
    File,
    Folder,
    Chunk,
}

/// A content digest paired with the kind of object it addresses.
pub struct TypedHash {
    pub ty: LinkType,
    pub hash: String,
}

/// Mathematical value of a `TypedHash`: the kind and the digest text.
pub struct TypedHashV {
    pub ty: LinkType,
    pub hash: Seq<char>,
}

impl View for TypedHash {
    type V = TypedHashV;

    open spec fn view(&self) -> TypedHashV {
        TypedHashV { ty: self.ty, hash: self.hash@ }
    }
}

impl DeepView for TypedHash {
    type V = TypedHashV;

    open spec fn deep_view(&self) -> TypedHashV {
        self.view()
    }
}

impl Clone for TypedHash {
    fn clone(&self) -> (r: Self)
        ensures
            r@ == self@,
    {
        TypedHash { ty: self.ty, hash: self.hash.clone() }
    }
}

impl TypedHash {
    pub fn file(hash: String) -> (r: TypedHash)
        ensures
            r@ == (TypedHashV { ty: LinkType::File, hash: hash@ }),
    {
        TypedHash { hash, ty: LinkType::File }
    }

    pub fn folder(hash: String) -> (r: TypedHash)
        ensures
            r@ == (TypedHashV { ty: LinkType::Folder, hash: hash@ }),
    {
        TypedHash { hash, ty: LinkType::Folder }
    }
}

/// The shared mutable state of one ingest run: the set of known object
/// digests, the name-to-hash link registry, and the store root path.
pub struct AngoContext {
    pub objects: ObjectSet,
    pub links: LinkMap,
    pub ango_path: String,
}

impl AngoContext {
    /// Both halves of the context keep their internal shape: no
    /// duplicate digests, no doubly bound names.
    pub open spec fn wf(&self) -> bool {
        self.objects.wf() && self.links.wf()
    }

    /// The directory under the store root where object blobs live.
    pub fn data_path(&self) -> (r: String)
        ensures
            r@ == self.ango_path@ + "/data"@,
    {
        let mut r = self.ango_path.clone();
        r.append("/data");
        r
    }
}

/// The set of digests already admitted to the object store, one entry
/// per distinct digest.
pub struct ObjectSet {
    entries: Vec<String>,
}

impl View for ObjectSet {
    type V = Set<Seq<char>>;

    closed spec fn view(&self) -> Set<Seq<char>> {
        self.entries.deep_view().to_set()
    }
}

impl ObjectSet {
    pub closed spec fn wf(&self) -> bool {
        self.entries.deep_view().no_duplicates()
    }

    pub fn new() -> (r: ObjectSet)
        ensures
            r@ == Set::<Seq<char>>::empty(),
            r.wf(),
    {
        let r = ObjectSet { entries: Vec::new() };
        proof {
            assert(r.entries.deep_view() =~= Seq::<Seq<char>>::empty());
            assert(r@ =~= Set::<Seq<char>>::empty());
        }
        r
    }

    pub fn contains(&self, hash: &String) -> (r: bool)
        ensures
            r == self@.contains(hash@),
    {
        let n = self.entries.len();
        let mut i: usize = 0;
        while i < n
            invariant
                n == self.entries.len(),
                0 <= i <= n,
                forall|j: int| 0 <= j < i ==> self.entries.deep_view()[j] != hash@,
            decreases n - i,
        {
            if self.entries[i].eq(hash) {
                proof {
                    assert(self.entries.deep_view()[i as int] == hash@);
                    assert(self.entries.deep_view().to_set().contains(hash@));
                }
                return true;
            }
            i += 1;
        }
        proof {
            assert(forall|j: int| 0 <= j < self.entries.deep_view().len()
                ==> self.entries.deep_view()[j] != hash@);
            assert(!self.entries.deep_view().to_set().contains(hash@));
        }
        false
    }

    /// Records a digest as known. Inserting a digest that is already
    /// present leaves the set unchanged.
    pub fn insert(&mut self, hash: String)
        requires
            old(self).wf(),
        ensures
            final(self).wf(),
            final(self)@ == old(self)@.insert(hash@),
            old(self)@.contains(hash@) ==> final(self)@ == old(self)@,
    {
        if self.contains(&hash) {
            proof {
                assert(old(self)@.insert(hash@) =~= old(self)@);
            }
        } else {
            let ghost pre = self.entries.deep_view();
            self.entries.push(hash);
            proof {
                assert(self.entries.deep_view() =~= pre.push(hash@));
                pre.lemma_push_to_set_commute(hash@);
            }
        }
    }

    pub fn len(&self) -> (r: usize)
        requires
            self.wf(),
        ensures
            r == self@.len(),
    {
        proof {
            self.entries.deep_view().unique_seq_to_set();
        }
        self.entries.len()
    }

    /// The digests as a list, one per known digest, for walking the
    /// whole set.
    pub fn items(&self) -> (r: &Vec<String>)
        requires
            self.wf(),
        ensures
            r.deep_view().to_set() == self@,
            r.deep_view().no_duplicates(),
    {
        &self.entries
    }
}

/// The link registry: a mapping from caller-chosen names to typed
/// hashes, one entry per bound name.
pub struct LinkMap {
    entries: Vec<(String, TypedHash)>,
}

/// The mapping denoted by a sequence of (name, hash) pairs: later pairs
/// shadow earlier ones (the registry itself never holds two pairs with
/// one name).
pub open spec fn pairs_map(s: Seq<(Seq<char>, TypedHashV)>) -> Map<Seq<char>, TypedHashV>
    decreases s.len(),
{
    if s.len() == 0 {
        Map::empty()
    } else {
        pairs_map(s.drop_last()).insert(s.last().0, s.last().1)
    }
}

impl View for LinkMap {
    type V = Map<Seq<char>, TypedHashV>;

    closed spec fn view(&self) -> Map<Seq<char>, TypedHashV> {
        pairs_map(self.entries.deep_view())
    }
}

pub proof fn lemma_pairs_map_key(s: Seq<(Seq<char>, TypedHashV)>, k: Seq<char>)
    ensures
        pairs_map(s).contains_key(k) <==> exists|i: int| 0 <= i < s.len() && s[i].0 == k,
    decreases s.len(),
{
    if s.len() > 0 {
        lemma_pairs_map_key(s.drop_last(), k);
        if pairs_map(s).contains_key(k) {
            if s.last().0 == k {
                assert(s[s.len() - 1].0 == k);
            } else {
                let i = choose|i: int| 0 <= i < s.drop_last().len() && s.drop_last()[i].0 == k;
                assert(s[i].0 == k);
            }
        }
        if exists|i: int| 0 <= i < s.len() && s[i].0 == k {
            let i = choose|i: int| 0 <= i < s.len() && s[i].0 == k;
            if i < s.len() - 1 {
                assert(s.drop_last()[i].0 == k);
            }
        }
    }
}

pub proof fn lemma_pairs_map_at(s: Seq<(Seq<char>, TypedHashV)>, i: int)
    requires
        0 <= i < s.len(),
        forall|a: int, b: int|
            0 <= a < s.len() && 0 <= b < s.len() && a != b ==> s[a].0 != s[b].0,
    ensures
        pairs_map(s).contains_key(s[i].0),
        pairs_map(s)[s[i].0] == s[i].1,
    decreases s.len(),
{
    if i == s.len() - 1 {
        lemma_pairs_map_key(s, s[i].0);
    } else {
        lemma_pairs_map_at(s.drop_last(), i);
        assert(s.drop_last()[i] == s[i]);
        assert(s.last().0 != s[i].0);
    }
}

impl LinkMap {
    /// No two entries bind the same name.
    pub closed spec fn wf(&self) -> bool {
        forall|a: int, b: int|
            0 <= a < self.entries.deep_view().len() && 0 <= b < self.entries.deep_view().len()
                && a != b ==> self.entries.deep_view()[a].0 != self.entries.deep_view()[b].0
    }

    pub fn new() -> (r: LinkMap)
        ensures
            r@ == Map::<Seq<char>, TypedHashV>::empty(),
            r.wf(),
    {
        let r = LinkMap { entries: Vec::new() };
        proof {
            assert(r.entries.deep_view() =~= Seq::<(Seq<char>, TypedHashV)>::empty());
        }
        r
    }

    fn find(&self, name: &String) -> (r: Option<usize>)
        ensures
            match r {
                Some(i) => i < self.entries.deep_view().len()
                    && self.entries.deep_view()[i as int].0 == name@,
                None => forall|j: int|
                    0 <= j < self.entries.deep_view().len()
                        ==> self.entries.deep_view()[j].0 != name@,
            },
    {
        let n = self.entries.len();
        let mut i: usize = 0;
        while i < n
            invariant
                n == self.entries.len(),
                0 <= i <= n,
                forall|j: int| 0 <= j < i ==> self.entries.deep_view()[j].0 != name@,
            decreases n - i,
        {
            if self.entries[i].0.eq(name) {
                return Some(i);
            }
            i += 1;
        }
        None
    }

    pub fn contains_key(&self, name: &String) -> (r: bool)
        ensures
            r == self@.contains_key(name@),
    {
        let found = self.find(name);
        proof {
            lemma_pairs_map_key(self.entries.deep_view(), name@);
        }
        found.is_some()
    }

    /// Looks a name up, returning its bound hash if there is one.
    pub fn get(&self, name: &String) -> (r: Option<&TypedHash>)
        requires
            self.wf(),
        ensures
            match r {
                Some(h) => self@.contains_key(name@) && self@[name@] == h@,
                None => !self@.contains_key(name@),
            },
    {
        let found = self.find(name);
        proof {
            lemma_pairs_map_key(self.entries.deep_view(), name@);
        }
        match found {
            Some(i) => {
                proof {
                    lemma_pairs_map_at(self.entries.deep_view(), i as int);
                }
                Some(&self.entries[i].1)
            },
            None => None,
        }
    }

    /// Binds a fresh name. The registry never rebinds: callers must
    /// check `contains_key` first.
    pub fn insert_new(&mut self, name: String, hash: TypedHash)
        requires
            old(self).wf(),
            !old(self)@.contains_key(name@),
        ensures
            final(self).wf(),
            final(self)@ == old(self)@.insert(name@, hash@),
    {
        proof {
            lemma_pairs_map_key(old(self).entries.deep_view(), name@);
        }
        let ghost pre = self.entries.deep_view();
        self.entries.push((name, hash));
        proof {
            assert(self.entries.deep_view() =~= pre.push((name@, hash@)));
            assert(self.entries.deep_view().drop_last() =~= pre);
        }
    }

    pub fn len(&self) -> (r: usize)
        requires
            self.wf(),
        ensures
            r == self@.dom().len(),
    {
        proof {
            lemma_pairs_map_card(self.entries.deep_view());
        }
        self.entries.len()
    }

    /// The bindings as a list, one per bound name, for walking the
    /// whole registry.
    pub fn items(&self) -> (r: &Vec<(String, TypedHash)>)
        ensures
            pairs_map(r.deep_view()) == self@,
    {
        &self.entries
    }
}

proof fn lemma_pairs_map_card(s: Seq<(Seq<char>, TypedHashV)>)
    requires
        forall|a: int, b: int|
            0 <= a < s.len() && 0 <= b < s.len() && a != b ==> s[a].0 != s[b].0,
    ensures
        pairs_map(s).dom().finite(),
        pairs_map(s).dom().len() == s.len(),
    decreases s.len(),
{
    if s.len() > 0 {
        lemma_pairs_map_card(s.drop_last());
        lemma_pairs_map_key(s.drop_last(), s.last().0);
        assert(forall|i: int| 0 <= i < s.drop_last().len() ==> s.drop_last()[i] == s[i]);
        assert(!pairs_map(s.drop_last()).contains_key(s.last().0));
        assert(pairs_map(s).dom() =~= pairs_map(s.drop_last()).dom().insert(s.last().0));
    }
}

} // verus!
