//! The image store: a namespace of named objects with integrity constraints.
//!
//! An image holds modules and instances under unique paths, with links that
//! protect referenced objects from removal. Every operation preserves the
//! store invariant: paths are unique (so at most one object is resolvable at
//! any name), keys are unique, and every named key exists.

use vstd::prelude::*;
use crate::{Errors, OthismoError};
use crate::wasm::{SectionV, WasmModule, clone_module};
use crate::rewrite::ModuleAtRest;
use crate::snapshot::InstanceAtRest;
use vstd::string::StrSliceExecFns;
use vstd::string::StringExecFns;

verus! {

/// The kinds of inter-object links. An instance links to the module it was
/// instantiated from.
#[derive(Clone, Copy, Debug, PartialEq, Eq, Structural)]
pub enum LinkKind {
    InstanceOf,
}

/// A directed link between two stored objects, by key. The target of a link
/// cannot be removed while the link exists.
#[derive(Clone, Copy, Debug, PartialEq, Eq, Structural)]
pub struct Link {
    pub kind: LinkKind,
    pub from_key: i64,
    pub to_key: i64,
}

/// A stored object: a module template or an instance template.
#[derive(Clone, Debug)]
pub enum Object {
    Module(ModuleAtRest),
    Instance(InstanceAtRest),
}

/// The mathematical value of a stored object.
pub ghost enum ObjectV {
    Module(Seq<SectionV>),
    Instance(Seq<SectionV>),
}

impl View for Object {
    type V = ObjectV;

    open spec fn view(&self) -> ObjectV {
        match self {
            Object::Module(m) => ObjectV::Module(m.module@),
            Object::Instance(m) => ObjectV::Instance(m.module@),
        }
    }
}

impl Object {
    /// The kind tag an object is stored under.
    pub fn as_kind_str(&self) -> (r: &'static str)
        ensures
            r@ == (match self@ {
                ObjectV::Module(..) => "MODULE"@,
                ObjectV::Instance(..) => "INSTANCE"@,
            }),
    {
        match self {
            Object::Module(..) => "MODULE",
            Object::Instance(..) => "INSTANCE",
        }
    }

    /// The sections of the object's wasm module.
    pub open spec fn sections(&self) -> Seq<SectionV> {
        match self@ {
            ObjectV::Module(s) => s,
            ObjectV::Instance(s) => s,
        }
    }

    /// Write the object's wasm bytes.
    pub fn to_bytes(&self) -> (r: Result<Vec<u8>, Errors>)
        ensures
            match r {
                Ok(v) => v@ == crate::wasm::enc_module(self.sections()),
                Err(_) => !crate::encode::module_ok(self.sections()),
            },
    {
        match self {
            Object::Module(m) => m.to_bytes(),
            Object::Instance(m) => m.to_bytes(),
        }
    }

    /// Rebuild an object from its stored kind tag and wasm bytes.
    ///
    /// On success the object holds exactly the module the bytes encode,
    /// under the kind the tag names. A refusal is always a decode fault:
    /// unreadable bytes, or a tag that is neither kind.
    pub fn from_tuple(kind: &str, bytes: &[u8]) -> (r: Result<Object, Errors>)
        ensures
            match r {
                Ok(o) => {
                    &&& crate::wasm::enc_module(o.sections()) == bytes@
                    &&& crate::decode::module_wf(o.sections())
                    &&& forall|mv: Seq<SectionV>|
                        #![trigger crate::wasm::enc_module(mv)]
                        crate::wasm::enc_module(mv) == bytes@ && crate::decode::module_wf(mv)
                            ==> mv == o.sections()
                    &&& o is Module ==> kind@ == "MODULE"@
                    &&& o is Instance ==> kind@ == "INSTANCE"@
                    &&& kind@ == "MODULE"@ || kind@ == "INSTANCE"@
                },
                Err(e) => e matches Errors::Decode(..),
            },
    {
        let module = match crate::decode::decode_module(bytes) {
            Ok(m) => m,
            Err(e) => {
                return Err(Errors::Decode(e));
            },
        };
        if kind.unicode_len() == 6 && kind.get_char(0) == 'M' {
            let expected = "MODULE";
            if str_eq(kind, expected) {
                return Ok(Object::Module(ModuleAtRest { module }));
            }
        }
        if str_eq(kind, "INSTANCE") {
            return Ok(Object::Instance(InstanceAtRest::from_wasm(module)));
        }
        Err(Errors::Decode(crate::DecodeError::BadTag))
    }

    /// Import raw wasm bytes as a new module template.
    ///
    /// On success the bytes were a readable module within the kernel's
    /// subset and the result is its rewritten, closed template. A refusal is
    /// either a decode error or the rewriter's classification of a decodable
    /// module outside the subset (a duplicated section, a reference-type or
    /// vector global import, more than one memory), with the matching tag.
    pub fn new_module(bytes: &[u8]) -> (r: Result<Object, Errors>)
        ensures
            match r {
                Ok(o) => {
                    &&& o is Module
                    &&& crate::rewrite::template_closed(o.sections())
                    &&& exists|mv: Seq<SectionV>|
                        #[trigger] crate::wasm::enc_module(mv) == bytes@
                            && crate::decode::module_wf(mv) && crate::rewrite::within_subset(mv)
                            && crate::rewrite::rewritten_from(o.sections(), mv)
                    &&& forall|mv: Seq<SectionV>|
                        #![trigger crate::wasm::enc_module(mv)]
                        crate::wasm::enc_module(mv) == bytes@ && crate::decode::module_wf(mv)
                            ==> crate::rewrite::within_subset(mv)
                            && crate::rewrite::rewritten_from(o.sections(), mv)
                },
                Err(e) => e matches Errors::Decode(..) || {
                    &&& exists|mv: Seq<SectionV>|
                        #[trigger] crate::wasm::enc_module(mv) == bytes@
                            && crate::decode::module_wf(mv) && crate::rewrite::refusal_matches(
                            mv,
                            e,
                        )
                    &&& forall|mv: Seq<SectionV>|
                        #![trigger crate::wasm::enc_module(mv)]
                        crate::wasm::enc_module(mv) == bytes@ && crate::decode::module_wf(mv)
                            ==> crate::rewrite::refusal_matches(mv, e)
                },
            },
    {
        let module = match crate::decode::decode_module(bytes) {
            Ok(m) => m,
            Err(e) => {
                return Err(Errors::Decode(e));
            },
        };
        let ghost mv = module@;
        let t = match ModuleAtRest::import(module) {
            Ok(t) => t,
            Err(e) => {
                proof {
                    assert(crate::rewrite::refusal_matches(mv, e));
                    assert forall|mv2: Seq<SectionV>|
                        #![trigger crate::wasm::enc_module(mv2)]
                        crate::wasm::enc_module(mv2) == bytes@ && crate::decode::module_wf(mv2)
                            implies crate::rewrite::refusal_matches(mv2, e) by {
                        assert(mv2 == mv);
                    }
                }
                return Err(e);
            },
        };
        proof {
            assert(crate::rewrite::within_subset(mv));
        }
        Ok(Object::Module(t))
    }

    /// Derive a fresh instance from a module object.
    pub fn new_instance(object: &Object) -> (r: Result<Object, Errors>)
        ensures
            match r {
                Ok(o) => object@ is Module && o@ == ObjectV::Instance(object.sections()),
                Err(e) => !(object@ is Module) && e matches Errors::Othismo(
                    OthismoError::ObjectDoesNotExist,
                ),
            },
    {
        match object {
            Object::Module(m) => Ok(Object::Instance(InstanceAtRest {
                module: clone_module(&m.module),
            })),
            Object::Instance(..) => Err(Errors::Othismo(OthismoError::ObjectDoesNotExist)),
        }
    }
}

/// Compare two strings.
fn str_eq(a: &str, b: &str) -> (r: bool)
    ensures
        r == (a@ == b@),
{
    let sa = a.to_owned();
    let sb = b.to_owned();
    sa == sb
}

/// One stored object row.
pub struct ObjectRow {
    pub key: i64,
    pub object: Object,
}

/// One namespace row: a unique path naming an object key.
pub struct NamespaceRow {
    pub path: String,
    pub key: i64,
}

/// The image: the durable namespace of objects the kernel works against.
/// This is the store's logic; reading it from and writing it to a file is
/// the surrounding program's concern.
pub struct Image {
    pub objects: Vec<ObjectRow>,
    pub namespace: Vec<NamespaceRow>,
    pub links: Vec<Link>,
    pub next_key: i64,
}

impl Image {
    /// The store invariant: unique paths (namespace uniqueness), unique
    /// keys, every named key present, and fresh keys available.
    pub open spec fn inv(&self) -> bool {
        &&& forall|i: int, j: int|
            0 <= i < j < self.namespace@.len() ==> (#[trigger] self.namespace@[i].path@) != (
            #[trigger] self.namespace@[j].path@)
        &&& forall|i: int, j: int|
            0 <= i < j < self.namespace@.len() ==> (#[trigger] self.namespace@[i].key) != (
            #[trigger] self.namespace@[j].key)
        &&& forall|i: int, j: int|
            0 <= i < j < self.objects@.len() ==> (#[trigger] self.objects@[i].key) != (
            #[trigger] self.objects@[j].key)
        &&& forall|i: int|
            0 <= i < self.namespace@.len() ==> exists|j: int|
                0 <= j < self.objects@.len() && (#[trigger] self.objects@[j].key) == (
                #[trigger] self.namespace@[i].key)
        &&& forall|j: int| 0 <= j < self.objects@.len() ==> (#[trigger] self.objects@[j].key)
            < self.next_key
        &&& forall|i: int| 0 <= i < self.namespace@.len() ==> (#[trigger] self.namespace@[i].key)
            < self.next_key
    }

    /// Whether some object is named by `name`.
    pub open spec fn has_path(&self, name: Seq<char>) -> bool {
        exists|i: int| 0 <= i < self.namespace@.len() && (#[trigger] self.namespace@[i].path@)
            == name
    }

    /// Whether the object value `o` is resolvable at `name`.
    pub open spec fn resolves(&self, name: Seq<char>, o: ObjectV) -> bool {
        exists|i: int, j: int|
            {
                &&& 0 <= i < self.namespace@.len()
                &&& 0 <= j < self.objects@.len()
                &&& (#[trigger] self.namespace@[i].path@) == name
                &&& (#[trigger] self.objects@[j].key) == self.namespace@[i].key
                &&& self.objects@[j].object@ == o
            }
    }

    /// Whether some link points at the object with key `key`.
    pub open spec fn key_linked(&self, key: i64) -> bool {
        exists|i: int| 0 <= i < self.links@.len() && (#[trigger] self.links@[i].to_key) == key
    }

    /// A fresh, empty image.
    pub fn create_in_memory() -> (r: Image)
        ensures
            r.inv(),
            r.namespace@.len() == 0,
            r.objects@.len() == 0,
            r.links@.len() == 0,
            r.next_key == 1,
    {
        Image { objects: Vec::new(), namespace: Vec::new(), links: Vec::new(), next_key: 1 }
    }

    /// The index of the namespace row naming `name`, if any.
    fn find_path_index(&self, name: &str) -> (r: Option<usize>)
        ensures
            match r {
                Some(i) => i < self.namespace@.len() && self.namespace@[i as int].path@ == name@,
                None => !self.has_path(name@),
            },
    {
        let ns = &self.namespace;
        let mut k: usize = 0;
        while k < ns.len()
            invariant
                k <= ns@.len(),
                ns@ == self.namespace@,
                forall|i: int| 0 <= i < k ==> (#[trigger] ns@[i].path@) != name@,
            decreases ns@.len() - k,
        {
            if str_eq(ns[k].path.as_str(), name) {
                return Some(k);
            }
            k = k + 1;
        }
        None
    }

    /// Whether an object exists at `name`.
    pub fn object_exists(&self, name: &str) -> (r: Result<bool, Errors>)
        ensures
            r matches Ok(b) && b == self.has_path(name@),
    {
        match self.find_path_index(name) {
            Some(_) => Ok(true),
            None => Ok(false),
        }
    }

    /// The key of the object at `name`.
    pub fn get_object_key(&self, name: &str) -> (r: Result<i64, Errors>)
        ensures
            match r {
                Ok(k) => exists|i: int|
                    0 <= i < self.namespace@.len() && (#[trigger] self.namespace@[i].path@)
                        == name@ && self.namespace@[i].key == k,
                Err(e) => !self.has_path(name@) && (e matches Errors::Othismo(
                    OthismoError::ObjectDoesNotExist,
                )),
            },
    {
        match self.find_path_index(name) {
            Some(i) => Ok(self.namespace[i].key),
            None => Err(Errors::Othismo(OthismoError::ObjectDoesNotExist)),
        }
    }

    /// Store `object` under `name`. Fails, changing nothing, if `name` is
    /// already taken.
    pub fn import_object(&mut self, name: &str, object: Object) -> (r: Result<(), Errors>)
        requires
            old(self).inv(),
            old(self).next_key < i64::MAX,
        ensures
            final(self).inv(),
            match r {
                Ok(()) => {
                    &&& !old(self).has_path(name@)
                    &&& final(self).namespace@.len() == old(self).namespace@.len() + 1
                    &&& final(self).namespace@[old(self).namespace@.len() as int].path@ == name@
                    &&& final(self).namespace@.subrange(0, old(self).namespace@.len() as int)
                        == old(self).namespace@
                    &&& final(self).objects@.subrange(0, old(self).objects@.len() as int) == old(
                        self,
                    ).objects@
                    &&& final(self).objects@.len() == old(self).objects@.len() + 1
                    &&& final(self).objects@.last().object@ == object@
                    &&& final(self).resolves(name@, object@)
                    &&& final(self).links@ == old(self).links@
                    &&& final(self).next_key == old(self).next_key + 1
                },
                Err(e) => {
                    &&& old(self).has_path(name@)
                    &&& e matches Errors::Othismo(OthismoError::ObjectAlreadyExists)
                    &&& final(self).objects@ == old(self).objects@
                    &&& final(self).namespace@ == old(self).namespace@
                    &&& final(self).links@ == old(self).links@
                    &&& final(self).next_key == old(self).next_key
                },
            },
    {
        match self.find_path_index(name) {
            Some(_) => Err(Errors::Othismo(OthismoError::ObjectAlreadyExists)),
            None => {
                let key: i64 = self.next_key;
                self.next_key = self.next_key + 1;
                self.objects.push(ObjectRow { key, object });
                self.namespace.push(
                    NamespaceRow { path: String::from_str(name), key },
                );
                proof {
                    let ns = self.namespace@;
                    let n = ns.len() - 1;
                    assert(self.resolves(name@, self.objects@.last().object@)) by {
                        assert(ns[n as int].path@ == name@);
                        assert(self.objects@[self.objects@.len() - 1].key == ns[n as int].key);
                    };
                    assert(final(self).namespace@.subrange(0, old(self).namespace@.len() as int)
                        =~= old(self).namespace@);
                    assert(final(self).objects@.subrange(0, old(self).objects@.len() as int)
                        =~= old(self).objects@);
                }
                Ok(())
            },
        }
    }

    /// Fetch a copy of the object at `name`.
    pub fn get_object(&self, name: &str) -> (r: Result<Object, Errors>)
        requires
            self.inv(),
        ensures
            match r {
                Ok(o) => self.resolves(name@, o@) && self.has_path(name@),
                Err(e) => !self.has_path(name@) && (e matches Errors::Othismo(
                    OthismoError::ObjectDoesNotExist,
                )),
            },
    {
        let i = match self.find_path_index(name) {
            Some(i) => i,
            None => {
                return Err(Errors::Othismo(OthismoError::ObjectDoesNotExist));
            },
        };
        let key: i64 = self.namespace[i].key;
        let objs = &self.objects;
        let mut k: usize = 0;
        while k < objs.len()
            invariant
                k <= objs@.len(),
                objs@ == self.objects@,
                0 <= i < self.namespace@.len(),
                self.namespace@[i as int].path@ == name@,
                key == self.namespace@[i as int].key,
                forall|j: int| 0 <= j < k ==> (#[trigger] objs@[j].key) != key,
            decreases objs@.len() - k,
        {
            if objs[k].key == key {
                let o = match &objs[k].object {
                    Object::Module(m) => Object::Module(ModuleAtRest {
                        module: clone_module(&m.module),
                    }),
                    Object::Instance(m) => Object::Instance(InstanceAtRest {
                        module: clone_module(&m.module),
                    }),
                };
                proof {
                    assert(o@ == objs@[k as int].object@);
                    assert(self.namespace@[i as int].path@ == name@ && self.objects@[
                        k as int
                    ].key == self.namespace@[i as int].key && self.objects@[k as int].object@
                        == o@);
                    assert(self.resolves(name@, o@));
                    assert(self.has_path(name@));
                }
                return Ok(o);
            }
            k = k + 1;
        }
        proof {
            let j = choose|j: int|
                0 <= j < self.objects@.len() && (#[trigger] self.objects@[j].key)
                    == self.namespace@[i as int].key;
            assert(false);
        }
        Err(Errors::Othismo(OthismoError::ObjectDoesNotExist))
    }

    /// Remove the object at `name`.
    ///
    /// Fails with `ObjectDoesNotExist` if nothing is named `name`, and with
    /// `ObjectNotFree` — changing no row — while any link points at the
    /// object. Otherwise the namespace row, the object row, and the object's
    /// outgoing links go away together.
    #[verifier::rlimit(100)]
    pub fn remove_object(&mut self, name: &str) -> (r: Result<(), Errors>)
        requires
            old(self).inv(),
        ensures
            final(self).inv(),
            match r {
                Ok(()) => {
                    &&& old(self).has_path(name@)
                    &&& !final(self).has_path(name@)
                    &&& exists|key: i64|
                        {
                            &&& #[trigger] key_named(old(self), name@, key)
                            &&& !old(self).key_linked(key)
                            &&& views_objects(final(self).objects@) == crate::wasm::flat_of(
                                old(self).objects@,
                                |row: ObjectRow| if row.key == key {
                                    Seq::<(i64, ObjectV)>::empty()
                                } else {
                                    seq![(row.key, row.object@)]
                                },
                            )
                            &&& final(self).links@ == old(self).links@.filter(
                                |l: Link| l.from_key != key,
                            )
                        }
                    &&& final(self).namespace@ == crate::wasm::flat_of(
                        old(self).namespace@,
                        |row: NamespaceRow| if row.path@ == name@ {
                            Seq::<NamespaceRow>::empty()
                        } else {
                            seq![row]
                        },
                    )
                    &&& final(self).next_key == old(self).next_key
                },
                Err(e) => {
                    &&& final(self).namespace@ == old(self).namespace@
                    &&& views_objects(final(self).objects@) == views_objects(old(self).objects@)
                    &&& final(self).links@ == old(self).links@
                    &&& final(self).next_key == old(self).next_key
                    &&& match e {
                        Errors::Othismo(OthismoError::ObjectDoesNotExist) => !old(self).has_path(
                            name@,
                        ),
                        Errors::Othismo(OthismoError::ObjectNotFree) => exists|key: i64|
                            #[trigger] key_named(old(self), name@, key) && old(self).key_linked(
                                key,
                            ),
                        _ => false,
                    }
                },
            },
    {
        let i = match self.find_path_index(name) {
            Some(i) => i,
            None => {
                return Err(Errors::Othismo(OthismoError::ObjectDoesNotExist));
            },
        };
        let key: i64 = self.namespace[i].key;
        proof {
            assert(key_named(old(self), name@, key));
        }
        // referential integrity: a linked object cannot be removed
        let links = &self.links;
        let mut k: usize = 0;
        while k < links.len()
            invariant
                k <= links@.len(),
                links@ == self.links@,
                self.inv(),
                self.namespace@ == old(self).namespace@,
                views_objects(self.objects@) == views_objects(old(self).objects@),
                self.links@ == old(self).links@,
                self.next_key == old(self).next_key,
                key_named(old(self), name@, key),
                0 <= i < self.namespace@.len(),
                self.namespace@[i as int].path@ == name@,
                key == self.namespace@[i as int].key,
                forall|j: int| 0 <= j < k ==> (#[trigger] links@[j].to_key) != key,
            decreases links@.len() - k,
        {
            if links[k].to_key == key {
                proof {
                    assert(self.links@[k as int].to_key == key);
                    assert(old(self).key_linked(key));
                }
                return Err(Errors::Othismo(OthismoError::ObjectNotFree));
            }
            k = k + 1;
        }
        proof {
            assert(!old(self).key_linked(key));
        }

        // remove the namespace row
        let mut new_ns: Vec<NamespaceRow> = Vec::new();
        let ns = &self.namespace;
        let ghost fns = |row: NamespaceRow| if row.path@ == name@ {
            Seq::<NamespaceRow>::empty()
        } else {
            seq![row]
        };
        let mut k1: usize = 0;
        while k1 < ns.len()
            invariant
                k1 <= ns@.len(),
                ns@ == self.namespace@,
                self.inv(),
                0 <= i < ns@.len(),
                ns@[i as int].path@ == name@,
                key == ns@[i as int].key,
                fns == (|row: NamespaceRow| if row.path@ == name@ {
                    Seq::<NamespaceRow>::empty()
                } else {
                    seq![row]
                }),
                new_ns@ == crate::wasm::flat_of(ns@.subrange(0, k1 as int), fns),
                forall|a: int| 0 <= a < new_ns@.len() ==> (#[trigger] new_ns@[a].path@) != name@,
                forall|a: int|
                    0 <= a < new_ns@.len() ==> exists|j: int|
                        0 <= j < k1 && (#[trigger] ns@[j]) == (#[trigger] new_ns@[a]),
                forall|a: int, b: int|
                    0 <= a < b < new_ns@.len() ==> (#[trigger] new_ns@[a].path@) != (
                    #[trigger] new_ns@[b].path@),
                forall|a: int, b: int|
                    0 <= a < b < new_ns@.len() ==> (#[trigger] new_ns@[a].key) != (
                    #[trigger] new_ns@[b].key),
                forall|a: int| 0 <= a < new_ns@.len() ==> (#[trigger] new_ns@[a].key) != key,
            decreases ns@.len() - k1,
        {
            let ghost prefix = ns@.subrange(0, k1 as int);
            let ghost prev_ns = new_ns@;
            proof {
                assert(ns@.subrange(0, k1 + 1) =~= prefix.push(ns@[k1 as int]));
                crate::wasm::lemma_flat_of_push(prefix, fns, ns@[k1 as int]);
            }
            if !str_eq(ns[k1].path.as_str(), name) {
                new_ns.push(NamespaceRow { path: ns[k1].path.clone(), key: ns[k1].key });
                proof {
                    assert(new_ns@ =~= crate::wasm::flat_of(ns@.subrange(0, k1 + 1), fns));
                    let last = new_ns@.len() - 1;
                    assert(new_ns@[last] == (NamespaceRow {
                        path: ns@[k1 as int].path,
                        key: ns@[k1 as int].key,
                    }) || new_ns@[last].path@ == ns@[k1 as int].path@);
                    assert(new_ns@[last].path@ == ns@[k1 as int].path@ && new_ns@[last].key
                        == ns@[k1 as int].key);
                    assert(ns@[k1 as int].key != key) by {
                        if k1 as int != i as int {
                            assert(ns@[k1 as int].key != ns@[i as int].key);
                        }
                    };
                    assert forall|a: int| 0 <= a < new_ns@.len() implies exists|j: int|
                        0 <= j < k1 + 1 && (#[trigger] ns@[j]) == (#[trigger] new_ns@[a]) by {
                        if a < prev_ns.len() {
                            let w = choose|w: int|
                                0 <= w < k1 && (#[trigger] ns@[w]) == prev_ns[a];
                            assert(ns@[w] == new_ns@[a]);
                        } else {
                            assert(new_ns@[a].path@ == ns@[k1 as int].path@);
                        }
                    }
                    assert forall|a: int, b: int| 0 <= a < b < new_ns@.len() implies (
                    #[trigger] new_ns@[a].path@) != (#[trigger] new_ns@[b].path@) && (
                    new_ns@[a].key) != (new_ns@[b].key) by {
                        if b == last {
                            let wa = choose|w: int|
                                0 <= w < k1 && (#[trigger] ns@[w]) == new_ns@[a];
                            assert(ns@[wa].path@ != ns@[k1 as int].path@);
                            assert(ns@[wa].key != ns@[k1 as int].key);
                        }
                    }
                }
            } else {
                proof {
                    assert(new_ns@ =~= crate::wasm::flat_of(ns@.subrange(0, k1 + 1), fns));
                }
            }
            k1 = k1 + 1;
        }
        proof {
            assert(ns@.subrange(0, ns@.len() as int) =~= ns@);
        }

        // remove the object row
        let mut new_objs: Vec<ObjectRow> = Vec::new();
        let objs = &self.objects;
        let ghost fobj = |row: ObjectRow| if row.key == key {
            Seq::<(i64, ObjectV)>::empty()
        } else {
            seq![(row.key, row.object@)]
        };
        let mut k2: usize = 0;
        while k2 < objs.len()
            invariant
                k2 <= objs@.len(),
                objs@ == self.objects@,
                self.inv(),
                fobj == (|row: ObjectRow| if row.key == key {
                    Seq::<(i64, ObjectV)>::empty()
                } else {
                    seq![(row.key, row.object@)]
                }),
                views_objects(new_objs@) == crate::wasm::flat_of(
                    objs@.subrange(0, k2 as int),
                    fobj,
                ),
                forall|a: int|
                    0 <= a < new_objs@.len() ==> exists|j: int|
                        0 <= j < k2 && (#[trigger] objs@[j].key) == (
                        #[trigger] new_objs@[a].key),
                forall|a: int, b: int|
                    0 <= a < b < new_objs@.len() ==> (#[trigger] new_objs@[a].key) != (
                    #[trigger] new_objs@[b].key),
                forall|a: int| 0 <= a < new_objs@.len() ==> (#[trigger] new_objs@[a].key) != key,
                forall|a: int|
                    0 <= a < new_objs@.len() ==> (#[trigger] new_objs@[a].key) < self.next_key,
                forall|j: int|
                    0 <= j < k2 && (#[trigger] objs@[j].key) != key ==> exists|b: int|
                        0 <= b < new_objs@.len() && (#[trigger] new_objs@[b].key) == objs@[j].key,
            decreases objs@.len() - k2,
        {
            let ghost prefix = objs@.subrange(0, k2 as int);
            let ghost prev_objs = new_objs@;
            proof {
                assert(objs@.subrange(0, k2 + 1) =~= prefix.push(objs@[k2 as int]));
                crate::wasm::lemma_flat_of_push(prefix, fobj, objs@[k2 as int]);
            }
            if objs[k2].key != key {
                let o = match &objs[k2].object {
                    Object::Module(m) => Object::Module(ModuleAtRest {
                        module: clone_module(&m.module),
                    }),
                    Object::Instance(m) => Object::Instance(InstanceAtRest {
                        module: clone_module(&m.module),
                    }),
                };
                new_objs.push(ObjectRow { key: objs[k2].key, object: o });
                proof {
                    assert(views_objects(new_objs@) =~= crate::wasm::flat_of(
                        objs@.subrange(0, k2 + 1),
                        fobj,
                    ));
                    let last = new_objs@.len() - 1;
                    assert(new_objs@[last].key == objs@[k2 as int].key);
                    assert forall|a: int| 0 <= a < new_objs@.len() implies exists|j: int|
                        0 <= j < k2 + 1 && (#[trigger] objs@[j].key) == (
                        #[trigger] new_objs@[a].key) by {
                        if a < prev_objs.len() {
                            let w = choose|w: int|
                                0 <= w < k2 && (#[trigger] objs@[w].key) == prev_objs[a].key;
                            assert(objs@[w].key == new_objs@[a].key);
                        } else {
                            assert(objs@[k2 as int].key == new_objs@[a].key);
                        }
                    }
                    assert forall|a: int, b: int| 0 <= a < b < new_objs@.len() implies (
                    #[trigger] new_objs@[a].key) != (#[trigger] new_objs@[b].key) by {
                        if b == last {
                            let wa = choose|w: int|
                                0 <= w < k2 && (#[trigger] objs@[w].key) == new_objs@[a].key;
                            assert(objs@[wa].key != objs@[k2 as int].key);
                        }
                    }
                    assert forall|j: int|
                        0 <= j < k2 + 1 && (#[trigger] objs@[j].key) != key implies exists|b: int|
                        0 <= b < new_objs@.len() && (#[trigger] new_objs@[b].key)
                            == objs@[j].key by {
                        if j < k2 {
                            let b = choose|b: int|
                                0 <= b < prev_objs.len() && (#[trigger] prev_objs[b].key)
                                    == objs@[j].key;
                            assert(new_objs@[b].key == objs@[j].key);
                        } else {
                            assert(new_objs@[last].key == objs@[j].key);
                        }
                    }
                }
            } else {
                proof {
                    assert(views_objects(new_objs@) =~= crate::wasm::flat_of(
                        objs@.subrange(0, k2 + 1),
                        fobj,
                    ));
                }
            }
            k2 = k2 + 1;
        }
        proof {
            assert(objs@.subrange(0, objs@.len() as int) =~= objs@);
        }

        // remove the object's outgoing links
        let mut new_links: Vec<Link> = Vec::new();
        let lks = &self.links;
        let ghost pl = |l: Link| l.from_key != key;
        let mut k3: usize = 0;
        while k3 < lks.len()
            invariant
                k3 <= lks@.len(),
                lks@ == self.links@,
                pl == (|l: Link| l.from_key != key),
                new_links@ == lks@.subrange(0, k3 as int).filter(pl),
            decreases lks@.len() - k3,
        {
            let ghost prefix = lks@.subrange(0, k3 as int);
            proof {
                assert(lks@.subrange(0, k3 + 1).drop_last() =~= prefix);
                assert(lks@.subrange(0, k3 + 1).last() == lks@[k3 as int]);
                reveal(Seq::filter);
            }
            if lks[k3].from_key != key {
                new_links.push(lks[k3]);
            }
            proof {
                assert(new_links@ =~= lks@.subrange(0, k3 + 1).filter(pl));
            }
            k3 = k3 + 1;
        }
        proof {
            assert(lks@.subrange(0, lks@.len() as int) =~= lks@);
        }

        let ghost pre_ns = self.namespace@;
        let ghost pre_objs = self.objects@;
        let ghost pre_next = self.next_key;
        self.namespace = new_ns;
        self.objects = new_objs;
        self.links = new_links;
        proof {
            // the store invariant survives the removal
            assert forall|a: int| 0 <= a < self.namespace@.len() implies exists|j: int|
                0 <= j < self.objects@.len() && (#[trigger] self.objects@[j].key) == (
                #[trigger] self.namespace@[a].key) by {
                let w = choose|w: int|
                    0 <= w < pre_ns.len() && (#[trigger] pre_ns[w]) == self.namespace@[a];
                let jo = choose|j: int|
                    0 <= j < pre_objs.len() && (#[trigger] pre_objs[j].key) == pre_ns[w].key;
                assert(pre_objs[jo].key != key);
                let b = choose|b: int|
                    0 <= b < self.objects@.len() && (#[trigger] self.objects@[b].key)
                        == pre_objs[jo].key;
            }
            assert forall|a: int| 0 <= a < self.namespace@.len() implies (
            #[trigger] self.namespace@[a].key) < self.next_key by {
                let w = choose|w: int|
                    0 <= w < pre_ns.len() && (#[trigger] pre_ns[w]) == self.namespace@[a];
            }
            assert(final(self).inv());
            assert(!final(self).has_path(name@));
            assert(old(self).has_path(name@));
        }
        Ok(())
    }

    /// All paths with `prefix` as a literal byte prefix.
    pub fn list_objects(&self, prefix: &str) -> (r: Result<Vec<String>, Errors>)
        ensures
            match r {
                Ok(v) => crate::wasm::views_of(v@) == crate::wasm::flat_of(
                    self.namespace@,
                    |row: NamespaceRow|
                        if is_prefix(prefix@, row.path@) {
                            seq![row.path@]
                        } else {
                            Seq::<Seq<char>>::empty()
                        },
                ),
                Err(_) => false,
            },
    {
        let ghost f = |row: NamespaceRow|
            if is_prefix(prefix@, row.path@) {
                seq![row.path@]
            } else {
                Seq::<Seq<char>>::empty()
            };
        let mut out: Vec<String> = Vec::new();
        let ns = &self.namespace;
        let mut k: usize = 0;
        while k < ns.len()
            invariant
                k <= ns@.len(),
                ns@ == self.namespace@,
                f == (|row: NamespaceRow|
                    if is_prefix(prefix@, row.path@) {
                        seq![row.path@]
                    } else {
                        Seq::<Seq<char>>::empty()
                    }),
                crate::wasm::views_of(out@) == crate::wasm::flat_of(ns@.subrange(0, k as int), f),
            decreases ns@.len() - k,
        {
            let ghost prefix_rows = ns@.subrange(0, k as int);
            proof {
                assert(ns@.subrange(0, k + 1) =~= prefix_rows.push(ns@[k as int]));
                crate::wasm::lemma_flat_of_push(prefix_rows, f, ns@[k as int]);
            }
            if has_prefix(ns[k].path.as_str(), prefix) {
                let ghost prevo = out@;
                let p = ns[k].path.clone();
                out.push(p);
                proof {
                    crate::wasm::lemma_views_push(prevo, p);
                    assert(crate::wasm::views_of(out@) =~= crate::wasm::flat_of(
                        ns@.subrange(0, k + 1),
                        f,
                    ));
                }
            } else {
                proof {
                    assert(crate::wasm::views_of(out@) =~= crate::wasm::flat_of(
                        ns@.subrange(0, k + 1),
                        f,
                    ));
                }
            }
            k = k + 1;
        }
        proof {
            assert(ns@.subrange(0, ns@.len() as int) =~= ns@);
        }
        Ok(out)
    }

    /// Create an instance of the module at `module_name` under
    /// `instance_name`, recording the instance-of link that protects the
    /// module from removal.
    ///
    /// Succeeds exactly when `module_name` resolves to a module object and
    /// `instance_name` is still free; either failure changes nothing.
    pub fn instantiate(&mut self, module_name: &str, instance_name: &str) -> (r: Result<
        (),
        Errors,
    >)
        requires
            old(self).inv(),
            old(self).next_key < i64::MAX,
        ensures
            final(self).inv(),
            ({
                let module_found = exists|m: Seq<SectionV>|
                    #[trigger] old(self).resolves(module_name@, ObjectV::Module(m));
                match r {
                    Ok(()) => {
                        &&& module_found
                        &&& !old(self).has_path(instance_name@)
                        &&& exists|m: Seq<SectionV>|
                            #[trigger] old(self).resolves(module_name@, ObjectV::Module(m))
                                && final(self).resolves(instance_name@, ObjectV::Instance(m))
                        &&& final(self).links@.len() == old(self).links@.len() + 1
                        &&& final(self).links@.subrange(0, old(self).links@.len() as int) == old(
                            self,
                        ).links@
                        &&& final(self).links@.last().kind == LinkKind::InstanceOf
                        &&& exists|i: int|
                            0 <= i < old(self).namespace@.len() && (
                            #[trigger] old(self).namespace@[i].path@) == module_name@
                                && final(self).links@.last().to_key == old(self).namespace@[i].key
                        &&& final(self).key_linked(final(self).links@.last().to_key)
                        &&& final(self).next_key == old(self).next_key + 1
                    },
                    Err(e) => {
                        &&& final(self).namespace@ == old(self).namespace@
                        &&& views_objects(final(self).objects@) == views_objects(
                            old(self).objects@,
                        )
                        &&& final(self).links@ == old(self).links@
                        &&& final(self).next_key == old(self).next_key
                        &&& match e {
                            Errors::Othismo(OthismoError::ObjectDoesNotExist) => !module_found,
                            Errors::Othismo(OthismoError::ObjectAlreadyExists) => module_found
                                && old(self).has_path(instance_name@),
                            _ => false,
                        }
                    },
                }
            }),
    {
        let obj = match self.get_object(module_name) {
            Ok(o) => o,
            Err(e) => {
                proof {
                    lemma_no_resolution_no_module(old(self), module_name@);
                }
                return Err(e);
            },
        };
        let module_key = match self.get_object_key(module_name) {
            Ok(k) => k,
            Err(e) => {
                proof {
                    assert(false);
                }
                return Err(e);
            },
        };
        let inst = match Object::new_instance(&obj) {
            Ok(o) => o,
            Err(e) => {
                proof {
                    // the name resolves to an instance, so no module can be
                    // resolvable at it
                    assert forall|m: Seq<SectionV>|
                        !(#[trigger] old(self).resolves(module_name@, ObjectV::Module(m))) by {
                        if old(self).resolves(module_name@, ObjectV::Module(m)) {
                            lemma_resolution_unique(
                                old(self),
                                module_name@,
                                ObjectV::Module(m),
                                obj@,
                            );
                        }
                    }
                }
                return Err(e);
            },
        };
        let ghost modsec = obj.sections();
        proof {
            assert(obj@ == ObjectV::Module(modsec));
            assert(old(self).resolves(module_name@, ObjectV::Module(modsec)));
        }
        if self.object_exists(instance_name)? {
            return Err(Errors::Othismo(OthismoError::ObjectAlreadyExists));
        }
        let new_key: i64 = self.next_key;
        match self.import_object(instance_name, inst) {
            Ok(()) => {},
            Err(e) => {
                proof {
                    assert(false);
                }
                return Err(e);
            },
        }
        let ghost prevl = self.links@;
        proof {
            assert(self.resolves(instance_name@, ObjectV::Instance(modsec)));
        }
        let ghost pre_push = *self;
        self.links.push(Link { kind: LinkKind::InstanceOf, from_key: new_key, to_key: module_key });
        proof {
            assert(final(self).links@.last().to_key == module_key);
            assert(final(self).key_linked(module_key)) by {
                assert(final(self).links@[final(self).links@.len() - 1].to_key == module_key);
            };
            assert(final(self).links@.subrange(0, old(self).links@.len() as int) =~= prevl);
            let (i, j) = choose|i: int, j: int|
                {
                    &&& 0 <= i < pre_push.namespace@.len()
                    &&& 0 <= j < pre_push.objects@.len()
                    &&& (#[trigger] pre_push.namespace@[i].path@) == instance_name@
                    &&& (#[trigger] pre_push.objects@[j].key) == pre_push.namespace@[i].key
                    &&& pre_push.objects@[j].object@ == ObjectV::Instance(modsec)
                };
            assert(final(self).namespace@[i].path@ == instance_name@);
            assert(final(self).objects@[j].key == final(self).namespace@[i].key);
            assert(final(self).resolves(instance_name@, ObjectV::Instance(modsec)));
        }
        Ok(())
    }
}

/// Two objects resolvable at one name are the same object: paths are unique,
/// namespace keys are unique, and object keys are unique.
pub proof fn lemma_resolution_unique(img: &Image, name: Seq<char>, a: ObjectV, b: ObjectV)
    requires
        img.inv(),
        img.resolves(name, a),
        img.resolves(name, b),
    ensures
        a == b,
{
    let (i1, j1) = choose|i: int, j: int|
        {
            &&& 0 <= i < img.namespace@.len()
            &&& 0 <= j < img.objects@.len()
            &&& (#[trigger] img.namespace@[i].path@) == name
            &&& (#[trigger] img.objects@[j].key) == img.namespace@[i].key
            &&& img.objects@[j].object@ == a
        };
    let (i2, j2) = choose|i: int, j: int|
        {
            &&& 0 <= i < img.namespace@.len()
            &&& 0 <= j < img.objects@.len()
            &&& (#[trigger] img.namespace@[i].path@) == name
            &&& (#[trigger] img.objects@[j].key) == img.namespace@[i].key
            &&& img.objects@[j].object@ == b
        };
    lemma_namespace_unique(img, name, i1, i2);
    if j1 != j2 {
        if j1 < j2 {
            assert(img.objects@[j1].key != img.objects@[j2].key);
        } else {
            assert(img.objects@[j2].key != img.objects@[j1].key);
        }
    }
}

/// Where nothing resolves at a name, no module does.
proof fn lemma_no_resolution_no_module(img: &Image, name: Seq<char>)
    requires
        !(exists|i: int, j: int|
            {
                &&& 0 <= i < img.namespace@.len()
                &&& 0 <= j < img.objects@.len()
                &&& (#[trigger] img.namespace@[i].path@) == name
                &&& (#[trigger] img.objects@[j].key) == img.namespace@[i].key
            }),
    ensures
        forall|m: Seq<SectionV>| !(#[trigger] img.resolves(name, ObjectV::Module(m))),
{
    assert forall|m: Seq<SectionV>| !(#[trigger] img.resolves(name, ObjectV::Module(m))) by {
        if img.resolves(name, ObjectV::Module(m)) {
            let (i, j) = choose|i: int, j: int|
                {
                    &&& 0 <= i < img.namespace@.len()
                    &&& 0 <= j < img.objects@.len()
                    &&& (#[trigger] img.namespace@[i].path@) == name
                    &&& (#[trigger] img.objects@[j].key) == img.namespace@[i].key
                    &&& img.objects@[j].object@ == ObjectV::Module(m)
                };
            assert(false);
        }
    }
}

/// The key-and-value projection of the object rows.
pub open spec fn views_objects(rows: Seq<ObjectRow>) -> Seq<(i64, ObjectV)> {
    rows.map_values(|r: ObjectRow| (r.key, r.object@))
}

/// Whether the namespace names `key` by `name`.
pub open spec fn key_named(img: &Image, name: Seq<char>, key: i64) -> bool {
    exists|i: int| 0 <= i < img.namespace@.len() && (#[trigger] img.namespace@[i].path@) == name
        && img.namespace@[i].key == key
}

/// Whether `p` is a literal prefix of `s`.
pub open spec fn is_prefix(p: Seq<char>, s: Seq<char>) -> bool {
    p.len() <= s.len() && s.subrange(0, p.len() as int) == p
}

/// Whether `p` is a literal prefix of `s`.
fn has_prefix(s: &str, p: &str) -> (r: bool)
    ensures
        r == is_prefix(p@, s@),
{
    let plen: usize = p.unicode_len();
    let slen: usize = s.unicode_len();
    if plen > slen {
        return false;
    }
    let mut k: usize = 0;
    while k < plen
        invariant
            k <= plen,
            plen == p@.len(),
            slen == s@.len(),
            plen <= slen,
            forall|i: int| 0 <= i < k ==> s@[i] == p@[i],
        decreases plen - k,
    {
        if s.get_char(k) != p.get_char(k) {
            proof {
                assert(s@.subrange(0, p@.len() as int)[k as int] != p@[k as int]);
            }
            return false;
        }
        k = k + 1;
    }
    proof {
        assert(s@.subrange(0, p@.len() as int) =~= p@);
    }
    true
}

/// At most one object is resolvable at any name: if two namespace rows both
/// carry `name`, they are the same row.
pub proof fn lemma_namespace_unique(img: &Image, name: Seq<char>, i: int, j: int)
    requires
        img.inv(),
        0 <= i < img.namespace@.len(),
        0 <= j < img.namespace@.len(),
        img.namespace@[i].path@ == name,
        img.namespace@[j].path@ == name,
    ensures
        i == j,
{
    if i < j {
        assert(img.namespace@[i].path@ != img.namespace@[j].path@);
    } else if j < i {
        assert(img.namespace@[j].path@ != img.namespace@[i].path@);
    }
}

} // verus!
