//! Project bundles: the container that carries the documents of a project.
//!
//! A bundle does not know what its documents hold. It keeps each under its role, and heavy
//! payloads under their names.
use crate::text::{append_decimal, decimal};
use vstd::prelude::*;
use vstd::string::StringExecFns;

verus! {

/// A document as it stands in a bundle: a JSON value of `serde_json`, carried unseen.
#[verifier::external_type_specification]
#[verifier::external_body]
pub struct ExValue(serde_json::Value);

/// The tag of the file format.
pub const BUNDLE_FORMAT: &'static str = "sweet.bundle";

/// The newest version of the container that is taken in.
pub const BUNDLE_VERSION: u32 = 1;

/// The file extension of a project.
pub const BUNDLE_EXTENSION: &'static str = "sweet";

/// Values under names, each name once.
#[derive(Debug)]
pub struct Entries<V> {
    list: Vec<(String, V)>,
}

impl<V> View for Entries<V> {
    type V = Map<Seq<char>, V>;

    closed spec fn view(&self) -> Map<Seq<char>, V> {
        Map::new(
            |name: Seq<char>| named_in(self.list@, name),
            |name: Seq<char>| self.list@[place_of(self.list@, name)].1,
        )
    }
}

/// Whether a list has a value under a name.
spec fn named_in<V>(list: Seq<(String, V)>, name: Seq<char>) -> bool {
    exists|i: int| 0 <= i < list.len() && (#[trigger] list[i]).0@ == name
}

/// Where a list has a value under a name.
spec fn place_of<V>(list: Seq<(String, V)>, name: Seq<char>) -> int {
    choose|i: int| 0 <= i < list.len() && (#[trigger] list[i]).0@ == name
}

impl<V> Entries<V> {
    /// Whether each name comes once.
    pub closed spec fn valid(&self) -> bool {
        forall|i: int, j: int|
            0 <= i < j < self.list.len() ==> (#[trigger] self.list[i]).0@ != (
            #[trigger] self.list[j]).0@
    }

    /// No values.
    pub fn new() -> (r: Entries<V>)
        ensures
            r@ == Map::<Seq<char>, V>::empty(),
            r.valid(),
    {
        let r = Entries { list: Vec::new() };
        assert(r@ =~= Map::empty());
        r
    }

    /// Where the value under a name is.
    fn find(&self, name: &String) -> (r: Option<usize>)
        ensures
            match r {
                Some(i) => i < self.list.len() && self.list[i as int].0@ == name@,
                None => !named_in(self.list@, name@),
            },
    {
        let mut i: usize = 0;
        while i < self.list.len()
            invariant
                i <= self.list.len(),
                forall|j: int| 0 <= j < i ==> (#[trigger] self.list[j]).0@ != name@,
            decreases self.list.len() - i,
        {
            if self.list[i].0 == *name {
                return Some(i);
            }
            i = i + 1;
        }
        None
    }

    /// Put a value under a name, in place of the one that was there.
    pub fn insert(&mut self, name: String, value: V)
        requires
            old(self).valid(),
        ensures
            final(self).valid(),
            final(self)@ == old(self)@.insert(name@, value),
    {
        let ghost before = self.list@;
        let ghost text = name@;
        match self.find(&name) {
            Some(i) => {
                self.list.set(i, (name, value));
                proof {
                    let after = self.list@;
                    assert forall|n: Seq<char>| #[trigger] named_in(after, n) == named_in(
                        before,
                        n,
                    ) by {
                        if named_in(after, n) {
                            let k = place_of(after, n);
                            assert(before[k].0@ == after[k].0@);
                        }
                        if named_in(before, n) {
                            let k = place_of(before, n);
                            assert(before[k].0@ == after[k].0@);
                        }
                    }
                    assert(before[i as int].0@ == text);
                    assert(after[i as int].0@ == text);
                    assert forall|n: Seq<char>| named_in(after, n) implies #[trigger] place_of(
                        after,
                        n,
                    ) == place_of(before, n) by {
                        let a = place_of(after, n);
                        assert(named_in(before, n));
                        let b = place_of(before, n);
                        assert(before[a].0@ == after[a].0@);
                    }
                    assert(self@ =~= old(self)@.insert(text, value));
                }
            },
            None => {
                self.list.push((name, value));
                proof {
                    let after = self.list@;
                    let last = before.len() as int;
                    assert(after[last].0@ == text);
                    assert forall|n: Seq<char>| #[trigger] named_in(after, n) == (named_in(
                        before,
                        n,
                    ) || n == text) by {
                        if named_in(after, n) {
                            let k = place_of(after, n);
                            if k < last {
                                assert(before[k].0@ == n);
                            }
                        }
                        if named_in(before, n) {
                            let k = place_of(before, n);
                            assert(after[k].0@ == n);
                        }
                    }
                    assert forall|n: Seq<char>| named_in(before, n) implies #[trigger] place_of(
                        after,
                        n,
                    ) == place_of(before, n) by {
                        let b = place_of(before, n);
                        assert(after[b].0@ == n);
                        let a = place_of(after, n);
                        if a == last {
                            assert(n == text);
                        } else {
                            assert(before[a].0@ == n);
                        }
                    }
                    assert(named_in(after, text));
                    assert(place_of(after, text) == last) by {
                        let a = place_of(after, text);
                        if a < last {
                            assert(before[a].0@ == text);
                        }
                    }
                    assert(self.valid()) by {
                        assert forall|i: int, j: int| 0 <= i < j < self.list.len() implies (
                        #[trigger] self.list[i]).0@ != (#[trigger] self.list[j]).0@ by {
                            assert(before[i].0@ == after[i].0@);
                            if j < last {
                                assert(before[j].0@ == after[j].0@);
                            }
                        }
                    }
                    assert(self@ =~= old(self)@.insert(text, value));
                }
            },
        }
    }

    /// The value under a name.
    pub fn get(&self, name: &str) -> (r: Option<&V>)
        requires
            self.valid(),
        ensures
            match r {
                Some(v) => self@.contains_key(name@) && self@[name@] == *v,
                None => !self@.contains_key(name@),
            },
    {
        let key: String = name.to_owned();
        match self.find(&key) {
            Some(i) => {
                proof {
                    assert(self.list@[i as int].0@ == name@);
                    assert(named_in(self.list@, name@));
                    assert(place_of(self.list@, name@) == i);
                }
                Some(&self.list[i].1)
            },
            None => None,
        }
    }

    /// There are as many names as entries.
    proof fn lemma_len(&self)
        requires
            self.valid(),
        ensures
            self.list@.len() == self@.dom().len(),
            self@.dom().finite(),
    {
        let names = Seq::new(self.list@.len(), |i: int| self.list@[i].0@);
        assert(names.no_duplicates()) by {
            assert forall|i: int, j: int| 0 <= i < names.len() && 0 <= j < names.len() && i
                != j implies names[i] != names[j] by {
                if i < j {
                    assert(self.list[i].0@ != self.list[j].0@);
                } else {
                    assert(self.list[j].0@ != self.list[i].0@);
                }
            }
        }
        assert(names.to_set() =~= self@.dom()) by {
            assert forall|n: Seq<char>| names.to_set().contains(n) == self@.dom().contains(n) by {
                if names.contains(n) {
                    let i = names.index_of(n);
                    assert(self.list@[i].0@ == n);
                }
                if named_in(self.list@, n) {
                    let i = place_of(self.list@, n);
                    assert(names[i] == n);
                }
            }
        }
        names.unique_seq_to_set();
    }

    /// How many names there are.
    pub fn len(&self) -> (r: usize)
        requires
            self.valid(),
        ensures
            r == self@.dom().len(),
            self@.dom().finite(),
    {
        proof {
            self.lemma_len();
        }
        self.list.len()
    }

    /// All names with their values, each name once.
    pub fn entries(&self) -> (r: Vec<(&String, &V)>)
        requires
            self.valid(),
        ensures
            r.len() == self@.dom().len(),
            forall|i: int|
                0 <= i < r.len() ==> self@.contains_key((#[trigger] r[i]).0@) && self@[r[i].0@]
                    == *r[i].1,
            forall|i: int, j: int|
                0 <= i < j < r.len() ==> (#[trigger] r[i]).0@ != (#[trigger] r[j]).0@,
    {
        let mut out: Vec<(&String, &V)> = Vec::new();
        let mut i: usize = 0;
        while i < self.list.len()
            invariant
                i <= self.list.len(),
                self.valid(),
                out.len() == i,
                forall|k: int|
                    0 <= k < i ==> *(#[trigger] out[k]).0 == self.list[k].0 && *out[k].1
                        == self.list[k].1,
            decreases self.list.len() - i,
        {
            out.push((&self.list[i].0, &self.list[i].1));
            i = i + 1;
        }
        proof {
            self.lemma_len();
            assert forall|k: int| 0 <= k < out.len() implies self@.contains_key(
                (#[trigger] out[k]).0@,
            ) && self@[out[k].0@] == *out[k].1 by {
                let name = self.list@[k].0@;
                assert(named_in(self.list@, name));
                let at = place_of(self.list@, name);
                if at < k {
                    assert(self.list[at].0@ != self.list[k].0@);
                } else if k < at {
                    assert(self.list[k].0@ != self.list[at].0@);
                }
            }
            assert forall|a: int, b: int| 0 <= a < b < out.len() implies (#[trigger] out[a]).0@ != (
            #[trigger] out[b]).0@ by {
                assert(self.list[a].0@ != self.list[b].0@);
            }
        }
        out
    }
}

/// The container of a project.
#[derive(Debug)]
pub struct ProjectBundle {
    pub format: String,
    pub version: u32,
    /// The application that wrote the bundle.
    pub app: String,
    /// Documents by their roles.
    pub documents: Entries<serde_json::Value>,
    /// Heavy payloads in base 64 by their names.
    pub blobs: Entries<String>,
}

/// Why a bundle is not taken in.
#[derive(Debug)]
pub enum BundleError {
    UnknownFormat(String),
    FutureVersion { found: u32, supported: u32 },
}

/// What an error says.
pub open spec fn bundle_error_text(error: BundleError) -> Seq<char> {
    match error {
        BundleError::UnknownFormat(s) => "not a SWEET bundle (format tag: "@ + s@ + ")"@,
        BundleError::FutureVersion { found, supported } => "bundle version "@ + decimal(
            found as nat,
        ) + " is newer than supported "@ + decimal(supported as nat),
    }
}

impl BundleError {
    /// What the error says.
    pub fn message(&self) -> (r: String)
        ensures
            r@ == bundle_error_text(*self),
    {
        match self {
            BundleError::UnknownFormat(s) => {
                let mut text: String = "not a SWEET bundle (format tag: ".to_owned();
                text.append(s.as_str());
                text.append(")");
                text
            },
            BundleError::FutureVersion { found, supported } => {
                let mut text: String = "bundle version ".to_owned();
                append_decimal(&mut text, *found as u64);
                text.append(" is newer than supported ");
                append_decimal(&mut text, *supported as u64);
                text
            },
        }
    }
}

impl ProjectBundle {
    /// Whether each role and each name comes once.
    pub open spec fn valid(&self) -> bool {
        self.documents.valid() && self.blobs.valid()
    }

    /// Whether the bundle is of the format and of no newer version.
    pub open spec fn acceptable(&self) -> bool {
        self.format@ == BUNDLE_FORMAT@ && self.version <= BUNDLE_VERSION
    }

    /// An empty bundle written by `app`.
    pub fn new(app: String) -> (r: ProjectBundle)
        ensures
            r.valid(),
            r.acceptable(),
            r.format@ == BUNDLE_FORMAT@,
            r.version == BUNDLE_VERSION,
            r.app == app,
            r.documents@ == Map::<Seq<char>, serde_json::Value>::empty(),
            r.blobs@ == Map::<Seq<char>, String>::empty(),
    {
        ProjectBundle {
            format: BUNDLE_FORMAT.to_owned(),
            version: BUNDLE_VERSION,
            app,
            documents: Entries::new(),
            blobs: Entries::new(),
        }
    }

    /// Put a document under a role, in place of the one that was there.
    pub fn put_document(&mut self, role: String, payload: serde_json::Value)
        requires
            old(self).valid(),
        ensures
            final(self).valid(),
            final(self).documents@ == old(self).documents@.insert(role@, payload),
            final(self).blobs == old(self).blobs,
            final(self).format == old(self).format,
            final(self).version == old(self).version,
            final(self).app == old(self).app,
    {
        self.documents.insert(role, payload);
    }

    /// The document under a role.
    pub fn document(&self, role: &str) -> (r: Option<&serde_json::Value>)
        requires
            self.valid(),
        ensures
            match r {
                Some(v) => self.documents@.contains_key(role@) && self.documents@[role@] == *v,
                None => !self.documents@.contains_key(role@),
            },
    {
        self.documents.get(role)
    }

    /// Put a payload under a name, in place of the one that was there.
    pub fn put_blob(&mut self, name: String, base64_payload: String)
        requires
            old(self).valid(),
        ensures
            final(self).valid(),
            final(self).blobs@ == old(self).blobs@.insert(name@, base64_payload),
            final(self).documents == old(self).documents,
            final(self).format == old(self).format,
            final(self).version == old(self).version,
            final(self).app == old(self).app,
    {
        self.blobs.insert(name, base64_payload);
    }

    /// The payload under a name.
    pub fn blob(&self, name: &str) -> (r: Option<&str>)
        requires
            self.valid(),
        ensures
            match r {
                Some(s) => self.blobs@.contains_key(name@) && self.blobs@[name@]@ == s@,
                None => !self.blobs@.contains_key(name@),
            },
    {
        match self.blobs.get(name) {
            Some(s) => Some(s.as_str()),
            None => None,
        }
    }

    /// The bundle, if it is of the format and of no newer version.
    pub fn accepted(self) -> (r: Result<ProjectBundle, BundleError>)
        ensures
            match r {
                Ok(bundle) => self.acceptable() && bundle == self,
                Err(BundleError::UnknownFormat(s)) => self.format@ != BUNDLE_FORMAT@ && s@
                    == self.format@,
                Err(BundleError::FutureVersion { found, supported }) => self.format@
                    == BUNDLE_FORMAT@ && self.version > BUNDLE_VERSION && found == self.version
                    && supported == BUNDLE_VERSION,
            },
    {
        if self.format != BUNDLE_FORMAT.to_owned() {
            return Err(BundleError::UnknownFormat(self.format));
        }
        if self.version > BUNDLE_VERSION {
            return Err(
                BundleError::FutureVersion { found: self.version, supported: BUNDLE_VERSION },
            );
        }
        Ok(self)
    }
}

/// What was put under a role is what is found there, and nothing else changes.
pub proof fn documents_are_found_where_put(
    before: Map<Seq<char>, serde_json::Value>,
    role: Seq<char>,
    other: Seq<char>,
    payload: serde_json::Value,
)
    ensures
        before.insert(role, payload).contains_key(role),
        before.insert(role, payload)[role] == payload,
        other != role ==> before.insert(role, payload).contains_key(other) == before.contains_key(
            other,
        ),
        other != role && before.contains_key(other) ==> before.insert(role, payload)[other]
            == before[other],
{
}

} // verus!
