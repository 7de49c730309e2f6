//! The profile store: an ordered collection of uniquely named profiles that
//! is kept equal to the contents of one backing file.
//!
//! The store never touches the file itself. [`Store::open`] takes the bytes
//! that were read (or `None` when there is no file). A change is made in two
//! steps: [`Store::prepare_add`] or [`Store::prepare_remove`] checks the
//! request and returns a [`Pending`] state with the bytes to write; only once
//! those bytes are durably written does [`Store::commit`] make the state
//! current. A failed write leaves the store as it was.
use crate::codec::{decode, encode, spec_decode, spec_encode};
use crate::profile::{has_name, is_blank, names_unique, views, well_formed, Profile, ProfileView};
use vstd::prelude::*;

verus! {

/// Why a store could not be opened.
#[derive(Clone, Copy, Debug, PartialEq, Eq, Structural)]
pub enum OpenError {
    /// The backing file could not be read or created.
    Io,
    /// The backing file is not a valid store.
    Corrupt,
}

/// Why a profile could not be added.
#[derive(Clone, Copy, Debug, PartialEq, Eq, Structural)]
pub enum AddError {
    /// A profile of that name is already stored.
    DuplicateName,
    /// The name is empty or blank.
    InvalidName,
    /// The new state could not be written.
    Io,
}

/// Why a profile could not be removed.
#[derive(Clone, Copy, Debug, PartialEq, Eq, Structural)]
pub enum RemoveError {
    /// No profile of that name is stored.
    NotFound,
    /// The new state could not be written.
    Io,
}

/// The collection that a backing file holds, if it holds a valid store.
pub open spec fn spec_load(b: Seq<u8>) -> Option<Seq<ProfileView>> {
    match spec_decode(b) {
        Some(e) => if well_formed(e) {
            Some(e)
        } else {
            None
        },
        None => None,
    }
}

/// The entries of `e` but the one named `name`.
pub open spec fn without(e: Seq<ProfileView>, name: Seq<char>) -> Seq<ProfileView> {
    e.remove(choose|i: int| 0 <= i < e.len() && #[trigger] e[i].name == name)
}

/// A state that a store may take: its entries and their encoding.
pub struct Pending {
    entries: Vec<Profile>,
    bytes: Vec<u8>,
    base: Ghost<Seq<ProfileView>>,
}

impl View for Pending {
    type V = Seq<ProfileView>;

    closed spec fn view(&self) -> Seq<ProfileView> {
        views(self.entries@)
    }
}

impl Pending {
    /// The state of the store that this state was prepared from.
    pub closed spec fn base(&self) -> Seq<ProfileView> {
        self.base@
    }

    #[verifier::type_invariant]
    spec fn inv(&self) -> bool {
        &&& well_formed(views(self.entries@))
        &&& self.bytes@ == spec_encode(views(self.entries@))
    }

    /// The bytes to write to the backing file for this state.
    pub fn bytes(&self) -> (r: &[u8])
        ensures
            r@ == spec_encode(self@),
            well_formed(self@),
    {
        proof {
            use_type_invariant(self);
        }
        self.bytes.as_slice()
    }
}

/// An ordered collection of profiles with unique, non-blank names, bound to
/// the path of its backing file.
pub struct Store {
    entries: Vec<Profile>,
    path: String,
}

impl View for Store {
    type V = Seq<ProfileView>;

    closed spec fn view(&self) -> Seq<ProfileView> {
        views(self.entries@)
    }
}

/// Adding a profile whose name is neither blank nor present keeps a
/// collection's names unique and non-blank.
pub proof fn lemma_add_keeps_well_formed(e: Seq<ProfileView>, p: ProfileView)
    requires
        well_formed(e),
        !is_blank(p.name),
        !has_name(e, p.name),
    ensures
        well_formed(e.push(p)),
{
    let f = e.push(p);
    assert forall|i: int, j: int| 0 <= i < f.len() && 0 <= j < f.len() && i != j implies #[trigger] f[i].name
        != #[trigger] f[j].name by {
        if i == e.len() {
            assert(f[j] == e[j]);
            if f[j].name == p.name {
                assert(has_name(e, p.name));
            }
        } else if j == e.len() {
            assert(f[i] == e[i]);
            if f[i].name == p.name {
                assert(has_name(e, p.name));
            }
        } else {
            assert(f[i] == e[i] && f[j] == e[j]);
        }
    }
    assert forall|i: int| 0 <= i < f.len() implies !is_blank(#[trigger] f[i].name) by {
        if i < e.len() {
            assert(f[i] == e[i]);
        }
    }
}

/// Taking out an entry of a collection with unique, non-blank names keeps
/// them so, and leaves no entry of the removed entry's name.
pub proof fn lemma_remove_at(e: Seq<ProfileView>, i: int)
    requires
        well_formed(e),
        0 <= i < e.len(),
    ensures
        well_formed(e.remove(i)),
        !has_name(e.remove(i), e[i].name),
{
    let f = e.remove(i);
    assert forall|a: int, b: int| 0 <= a < f.len() && 0 <= b < f.len() && a != b implies #[trigger] f[a].name
        != #[trigger] f[b].name by {
        let a2 = if a < i { a } else { a + 1 };
        let b2 = if b < i { b } else { b + 1 };
        assert(f[a] == e[a2] && f[b] == e[b2]);
    }
    assert forall|a: int| 0 <= a < f.len() implies !is_blank(#[trigger] f[a].name) by {
        let a2 = if a < i { a } else { a + 1 };
        assert(f[a] == e[a2]);
    }
    if has_name(f, e[i].name) {
        let a = choose|a: int| 0 <= a < f.len() && #[trigger] f[a].name == e[i].name;
        let a2 = if a < i { a } else { a + 1 };
        assert(f[a] == e[a2]);
    }
}

/// In a collection with unique names, `without` takes out the one entry of
/// that name.
pub proof fn lemma_without_index(e: Seq<ProfileView>, name: Seq<char>, i: int)
    requires
        names_unique(e),
        0 <= i < e.len(),
        e[i].name == name,
    ensures
        without(e, name) == e.remove(i),
{
    let j = choose|j: int| 0 <= j < e.len() && #[trigger] e[j].name == name;
    assert(0 <= j < e.len() && e[j].name == name);
    assert(i == j);
}

/// Removing a name that is present from a valid collection leaves a valid
/// collection without it, one entry shorter: a second removal of the same
/// name finds nothing.
pub proof fn lemma_remove_twice(e: Seq<ProfileView>, name: Seq<char>)
    requires
        well_formed(e),
        has_name(e, name),
    ensures
        well_formed(without(e, name)),
        !has_name(without(e, name), name),
        without(e, name).len() == e.len() - 1,
{
    let i = choose|i: int| 0 <= i < e.len() && #[trigger] e[i].name == name;
    lemma_without_index(e, name, i);
    lemma_remove_at(e, i);
}

/// Re-opening the bytes written for a valid collection gives the same
/// collection back.
pub proof fn lemma_reopen(e: Seq<ProfileView>)
    requires
        well_formed(e),
        crate::codec::encodable(e),
    ensures
        spec_load(spec_encode(e)) == Some(e),
{
    crate::codec::lemma_round_trip(e);
}

/// The first index below `upto` whose entry is named `name`.
fn find_in(e: &Vec<Profile>, upto: usize, name: &String) -> (r: Option<usize>)
    requires
        upto <= e@.len(),
    ensures
        match r {
            None => forall|k: int| 0 <= k < upto ==> (#[trigger] e@[k])@.name != name@,
            Some(k) => k < upto && e@[k as int]@.name == name@,
        },
{
    let mut i: usize = 0;
    while i < upto
        invariant
            upto <= e@.len(),
            0 <= i <= upto,
            forall|k: int| 0 <= k < i ==> (#[trigger] e@[k])@.name != name@,
        decreases upto - i,
    {
        if e[i].name == *name {
            return Some(i);
        }
        i = i + 1;
    }
    None
}

/// Whether the names of `e` are unique and none is blank.
fn check_well_formed(e: &Vec<Profile>) -> (r: bool)
    ensures
        r == well_formed(views(e@)),
{
    let ghost v = views(e@);
    let mut i: usize = 0;
    while i < e.len()
        invariant
            v == views(e@),
            0 <= i <= e@.len(),
            well_formed(v.take(i as int)),
        decreases e@.len() - i,
    {
        if e[i].name_is_blank() {
            assert(v[i as int] == e@[i as int]@);
            assert(is_blank(v[i as int].name));
            return false;
        }
        match find_in(e, i, &e[i].name) {
            Some(k) => {
                assert(v[k as int].name == v[i as int].name);
                return false;
            },
            None => {
                proof {
                    let t = v.take(i as int);
                    if has_name(t, v[i as int].name) {
                        let k = choose|k: int| 0 <= k < t.len() && #[trigger] t[k].name == v[i as int].name;
                        assert(e@[k]@.name == t[k].name);
                    }
                    lemma_add_keeps_well_formed(t, v[i as int]);
                    assert(t.push(v[i as int]) =~= v.take(i + 1));
                }
            },
        }
        i = i + 1;
    }
    assert(v.take(v.len() as int) =~= v);
    true
}

impl Store {
    #[verifier::type_invariant]
    spec fn inv(&self) -> bool {
        well_formed(views(self.entries@))
    }

    /// The path of the backing file.
    pub closed spec fn spec_path(&self) -> Seq<char> {
        self.path@
    }

    /// Opens the store at `path`, given what its backing file holds: `None`
    /// when there is no such file, and then the store is empty (the caller
    /// creates the file from [`Store::encoded`]). A file that is not a valid
    /// store gives [`OpenError::Corrupt`], never an empty store.
    pub fn open(path: String, existing: Option<&[u8]>) -> (r: Result<Store, OpenError>)
        ensures
            match existing {
                None => r matches Ok(s) && s@ == Seq::<ProfileView>::empty(),
                Some(b) => match r {
                    Ok(s) => spec_load(b@) == Some(s@),
                    Err(e) => e == OpenError::Corrupt && spec_load(b@) is None,
                },
            },
            r matches Ok(s) ==> s.spec_path() == path@ && well_formed(s@),
    {
        match existing {
            None => {
                let s = Store { entries: Vec::new(), path };
                assert(views(s.entries@) =~= Seq::<ProfileView>::empty());
                Ok(s)
            },
            Some(b) => match decode(b) {
                Err(_) => Err(OpenError::Corrupt),
                Ok(entries) => {
                    if check_well_formed(&entries) {
                        Ok(Store { entries, path })
                    } else {
                        Err(OpenError::Corrupt)
                    }
                },
            },
        }
    }

    /// The path of the backing file, fixed when the store was opened.
    pub fn path(&self) -> (r: &String)
        ensures
            r@ == self.spec_path(),
    {
        &self.path
    }

    /// A copy of the entries, in the order in which they were added.
    pub fn list(&self) -> (r: Vec<Profile>)
        ensures
            views(r@) == self@,
            well_formed(self@),
    {
        proof {
            use_type_invariant(self);
        }
        let mut out: Vec<Profile> = Vec::new();
        let mut i: usize = 0;
        while i < self.entries.len()
            invariant
                0 <= i <= self.entries@.len(),
                views(out@) == views(self.entries@).take(i as int),
            decreases self.entries@.len() - i,
        {
            let c = self.entries[i].copy();
            let ghost prev = out@;
            out.push(c);
            assert(views(out@) =~= views(prev).push(c@));
            assert(views(out@) =~= views(self.entries@).take(i + 1));
            i = i + 1;
        }
        assert(views(self.entries@).take(i as int) =~= views(self.entries@));
        out
    }

    /// The number of entries.
    pub fn len(&self) -> (r: usize)
        ensures
            r == self@.len(),
    {
        self.entries.len()
    }

    /// The bytes that the backing file holds for the current state.
    pub fn encoded(&self) -> (r: Vec<u8>)
        ensures
            r@ == spec_encode(self@),
    {
        encode(self.entries.as_slice())
    }

    /// The entry named exactly `name`, if there is one.
    pub fn find_by_name(&self, name: &str) -> (r: Option<Profile>)
        ensures
            r is Some <==> has_name(self@, name@),
            r matches Some(p) ==> p@.name == name@ && self@.contains(p@),
    {
        let key = name.to_owned();
        match find_in(&self.entries, self.entries.len(), &key) {
            None => {
                proof {
                    if has_name(self@, name@) {
                        let k = choose|k: int| 0 <= k < self@.len() && #[trigger] self@[k].name == name@;
                        assert(self.entries@[k]@.name == name@);
                    }
                }
                None
            },
            Some(k) => {
                assert(self@[k as int] == self.entries@[k as int]@);
                Some(self.entries[k].copy())
            },
        }
    }

    /// Checks that `record` may be added, and gives the state with `record`
    /// appended. A blank name is refused first, then a name already present.
    /// The store itself is left as it is.
    pub fn prepare_add(&self, record: Profile) -> (r: Result<Pending, AddError>)
        ensures
            r is Ok <==> !is_blank(record.name@) && !has_name(self@, record.name@),
            match r {
                Ok(p) => p@ == self@.push(record@) && p.base() == self@,
                Err(e) => if is_blank(record.name@) {
                    e == AddError::InvalidName
                } else {
                    e == AddError::DuplicateName
                },
            },
    {
        proof {
            use_type_invariant(self);
        }
        if record.name_is_blank() {
            return Err(AddError::InvalidName);
        }
        if let Some(k) = find_in(&self.entries, self.entries.len(), &record.name) {
            assert(self@[k as int].name == record.name@);
            return Err(AddError::DuplicateName);
        }
        proof {
            if has_name(self@, record.name@) {
                let k = choose|k: int| 0 <= k < self@.len() && #[trigger] self@[k].name == record.name@;
                assert(self.entries@[k]@.name == record.name@);
            }
            lemma_add_keeps_well_formed(self@, record@);
        }
        let mut entries = self.list();
        entries.push(record);
        assert(views(entries@) =~= self@.push(record@));
        let bytes = encode(entries.as_slice());
        Ok(Pending { entries, bytes, base: Ghost(self@) })
    }

    /// Checks that an entry named `name` is present, and gives the state
    /// without it. The store itself is left as it is.
    pub fn prepare_remove(&self, name: &str) -> (r: Result<Pending, RemoveError>)
        ensures
            r is Ok <==> has_name(self@, name@),
            match r {
                Ok(p) => p@ == without(self@, name@) && p.base() == self@,
                Err(e) => e == RemoveError::NotFound,
            },
    {
        proof {
            use_type_invariant(self);
        }
        let key = name.to_owned();
        match find_in(&self.entries, self.entries.len(), &key) {
            None => {
                proof {
                    if has_name(self@, name@) {
                        let k = choose|k: int| 0 <= k < self@.len() && #[trigger] self@[k].name == name@;
                        assert(self.entries@[k]@.name == name@);
                    }
                }
                Err(RemoveError::NotFound)
            },
            Some(k) => {
                let mut entries = self.list();
                entries.remove(k);
                proof {
                    assert(self@[k as int].name == name@);
                    lemma_without_index(self@, name@, k as int);
                    lemma_remove_at(self@, k as int);
                    assert(views(entries@) =~= self@.remove(k as int));
                }
                let bytes = encode(entries.as_slice());
                Ok(Pending { entries, bytes, base: Ghost(self@) })
            },
        }
    }

    /// Makes `p` the current state, once its bytes are written. `p` must
    /// have been prepared from the current state, so that no change is lost.
    pub fn commit(&mut self, p: Pending)
        requires
            p.base() == old(self)@,
        ensures
            final(self)@ == p@,
            final(self).spec_path() == old(self).spec_path(),
    {
        proof {
            use_type_invariant(&p);
        }
        let Pending { entries, bytes: _, base: _ } = p;
        self.entries = entries;
    }
}

} // verus!
