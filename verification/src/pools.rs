//! Storage for many texts: a pool that keeps each text once, and a buffer that holds names
//! back to back.

use vstd::hash_map::StringHashMap;
use vstd::prelude::*;
use vstd::slice::slice_subrange;
use vstd::string::*;
use vstd::utf8::encode_utf8;

use crate::text::{decode, owned};

verus! {

/// What a list of strings holds.
pub open spec fn texts_view(v: Seq<String>) -> Seq<Seq<char>> {
    Seq::new(v.len(), |i: int| v[i]@)
}

/// Texts by number, each kept once.
pub struct TextPool {
    texts: Vec<String>,
    ids: StringHashMap<u32>,
}

impl View for TextPool {
    type V = Seq<Seq<char>>;

    closed spec fn view(&self) -> Seq<Seq<char>> {
        texts_view(self.texts@)
    }
}

impl TextPool {
    /// The lookup table gives the number of every text, and of nothing else.
    pub closed spec fn wf(&self) -> bool {
        &&& self.texts@.len() <= u32::MAX
        &&& forall|k: int|
            0 <= k < self.texts@.len() ==> {
                let t = (#[trigger] self.texts@[k])@;
                self.ids@.contains_key(t) && self.ids@[t] == k
            }
        &&& forall|t: Seq<char>| #[trigger]
            self.ids@.contains_key(t) ==> self.ids@[t] < self.texts@.len()
                && self.texts@[self.ids@[t] as int]@ == t
    }

    /// An empty pool.
    pub fn new() -> (r: Self)
        ensures
            r.wf(),
            r@ == Seq::<Seq<char>>::empty(),
    {
        let r = TextPool { texts: Vec::new(), ids: StringHashMap::new() };
        assert(r@ =~= Seq::<Seq<char>>::empty());
        r
    }

    /// The number of a text, which is added where it is new.
    pub fn intern(&mut self, t: &str) -> (id: u32)
        requires
            old(self).wf(),
            old(self)@.len() < u32::MAX,
        ensures
            final(self).wf(),
            final(self)@ == if old(self)@.contains(t@) {
                old(self)@
            } else {
                old(self)@.push(t@)
            },
            id < final(self)@.len(),
            final(self)@[id as int] == t@,
    {
        let known = self.ids.get(t);
        if let Some(id) = known {
            assert(self@[*id as int] == t@);
            return *id;
        }
        proof {
            if self@.contains(t@) {
                let k = choose|k: int| 0 <= k < self@.len() && self@[k] == t@;
                assert(self.texts@[k]@ == t@);
            }
        }
        let id: u32 = self.texts.len() as u32;
        let ghost before = *self;
        self.texts.push(owned(t));
        self.ids.insert(owned(t), id);
        proof {
            assert(self@ =~= before@.push(t@));
            assert forall|k: int| 0 <= k < self.texts@.len() implies {
                let u = (#[trigger] self.texts@[k])@;
                self.ids@.contains_key(u) && self.ids@[u] == k
            } by {
                if k < before.texts@.len() {
                    let u = before.texts@[k]@;
                    assert(self.texts@[k] == before.texts@[k]);
                    assert(before.ids@.contains_key(u));
                    assert(u != t@);
                }
            }
            assert forall|u: Seq<char>| #[trigger]
                self.ids@.contains_key(u) implies self.ids@[u] < self.texts@.len()
                && self.texts@[self.ids@[u] as int]@ == u by {
                if u != t@ {
                    assert(before.ids@.contains_key(u));
                    let k = before.ids@[u] as int;
                    assert(self.texts@[k] == before.texts@[k]);
                }
            }
        }
        id
    }

    /// A text by its number.
    pub fn text(&self, id: u32) -> (r: &str)
        requires
            id < self@.len(),
        ensures
            r@ == self@[id as int],
    {
        self.texts[id as usize].as_str()
    }

    /// The texts, in the order of their numbers.
    pub fn into_texts(self) -> (r: Vec<String>)
        ensures
            texts_view(r@) == self@,
    {
        self.texts
    }
}

/// Names stored back to back in one buffer of bytes.
pub struct NameBlob {
    bytes: Vec<u8>,
    starts: Vec<usize>,
    names: Ghost<Seq<Seq<char>>>,
}

impl View for NameBlob {
    type V = Seq<Seq<char>>;

    closed spec fn view(&self) -> Seq<Seq<char>> {
        self.names@
    }
}

impl NameBlob {
    /// Name number `i` lies between start `i` and start `i + 1`.
    pub closed spec fn wf(&self) -> bool {
        &&& self.starts@.len() == self.names@.len() + 1
        &&& self.starts@[0] == 0
        &&& self.starts@.last() == self.bytes@.len()
        &&& forall|i: int, j: int|
            0 <= i <= j < self.starts@.len() ==> #[trigger] self.starts@[i]
                <= #[trigger] self.starts@[j]
        &&& forall|i: int|
            0 <= i < self.names@.len() ==> self.bytes@.subrange(
                self.starts@[i] as int,
                self.starts@[i + 1] as int,
            ) == encode_utf8(#[trigger] self.names@[i])
    }

    /// An empty buffer.
    pub fn new() -> (r: Self)
        ensures
            r.wf(),
            r@ == Seq::<Seq<char>>::empty(),
    {
        let mut starts: Vec<usize> = Vec::new();
        starts.push(0);
        NameBlob { bytes: Vec::new(), starts, names: Ghost(Seq::empty()) }
    }

    /// Adds a name at the end.
    pub fn push(&mut self, name: &str)
        requires
            old(self).wf(),
        ensures
            final(self).wf(),
            final(self)@ == old(self)@.push(name@),
    {
        let ghost before = *self;
        self.bytes.extend_from_slice(name.as_bytes());
        let end: usize = self.bytes.len();
        self.starts.push(end);
        self.names = Ghost(self.names@.push(name@));
        proof {
            let n = before.names@.len() as int;
            let raw = encode_utf8(name@);
            assert(self.bytes@ =~= before.bytes@ + raw);
            assert forall|i: int| 0 <= i < self.names@.len() implies self.bytes@.subrange(
                self.starts@[i] as int,
                self.starts@[i + 1] as int,
            ) == encode_utf8(#[trigger] self.names@[i]) by {
                if i < n {
                    assert(before.names@[i] == self.names@[i]);
                    assert(self.starts@[i] == before.starts@[i]);
                    assert(before.starts@[i + 1] <= before.starts@[n]);
                    assert(self.bytes@.subrange(
                        self.starts@[i] as int,
                        self.starts@[i + 1] as int,
                    ) =~= before.bytes@.subrange(
                        before.starts@[i] as int,
                        before.starts@[i + 1] as int,
                    ));
                } else {
                    assert(self.bytes@.subrange(
                        self.starts@[i] as int,
                        self.starts@[i + 1] as int,
                    ) =~= raw);
                }
            }
            assert forall|i: int, j: int| 0 <= i <= j < self.starts@.len() implies
                #[trigger] self.starts@[i] <= #[trigger] self.starts@[j] by {
                if i <= n {
                    assert(before.starts@[i] <= before.starts@[n]);
                }
            }
        }
    }

    /// The bytes of a name.
    pub fn raw(&self, i: usize) -> (r: &[u8])
        requires
            self.wf(),
            i < self@.len(),
        ensures
            r@ == encode_utf8(self@[i as int]),
    {
        assert(self.starts@[i + 1] <= self.starts@[self.starts@.len() - 1]);
        assert(i + 1 < self.starts.len());
        slice_subrange(self.bytes.as_slice(), self.starts[i], self.starts[i + 1])
    }

    /// A name.
    pub fn name(&self, i: usize) -> (r: &str)
        requires
            self.wf(),
            i < self@.len(),
        ensures
            r@ == self@[i as int],
    {
        decode(self.raw(i), Ghost(self@[i as int]))
    }
}

} // verus!
