//! The library store: scheme name → flavor name → palette, where a palette
//! maps a color key to one [`ColorEntry`].

use vstd::prelude::*;
use crate::assoc::{distinct_keys, entry_keys, entry_map, entry_models,
    lemma_entry_map_contains, lemma_entry_map_index, lemma_entry_map_push,
    lemma_entry_map_update};

verus! {

/// Largest value a 24-bit `0xRRGGBB` color can take.
pub const MAX_RGB: u32 = 0xFFFFFF;

/// One color slot: a human label, a 24-bit `0xRRGGBB` value and an
/// enabled flag that the store carries but never acts on.
#[derive(Debug)]
pub struct ColorEntry {
    pub name: String,
    pub value: u32,
    pub enabled: bool,
}

/// Ghost model of a [`ColorEntry`].
pub struct ColorModel {
    pub name: Seq<char>,
    pub value: u32,
    pub enabled: bool,
}

impl View for ColorEntry {
    type V = ColorModel;

    open spec fn view(&self) -> ColorModel {
        ColorModel { name: self.name@, value: self.value, enabled: self.enabled }
    }
}

impl ColorEntry {
    /// The value fits in 24 bits.
    pub open spec fn wf(&self) -> bool {
        self.value <= MAX_RGB
    }

    /// The red channel of the packed value.
    pub fn red(&self) -> (r: u8)
        ensures
            r == (self.value >> 16) & 0xFF,
    {
        let v = self.value;
        assert((v >> 16) & 0xFF <= 0xFF) by (bit_vector);
        ((v >> 16) & 0xFF) as u8
    }

    /// The green channel of the packed value.
    pub fn green(&self) -> (r: u8)
        ensures
            r == (self.value >> 8) & 0xFF,
    {
        let v = self.value;
        assert((v >> 8) & 0xFF <= 0xFF) by (bit_vector);
        ((v >> 8) & 0xFF) as u8
    }

    /// The blue channel of the packed value.
    pub fn blue(&self) -> (r: u8)
        ensures
            r == self.value & 0xFF,
    {
        let v = self.value;
        assert(v & 0xFF <= 0xFF) by (bit_vector);
        (v & 0xFF) as u8
    }
}

impl Clone for ColorEntry {
    fn clone(&self) -> (r: Self)
        ensures
            r == *self,
    {
        ColorEntry { name: self.name.clone(), value: self.value, enabled: self.enabled }
    }
}

/// The model of a color entry with only its enabled flag replaced.
pub open spec fn set_flag(c: ColorModel, enabled: bool) -> ColorModel {
    ColorModel { enabled, ..c }
}

/// A palette model is well formed: distinct keys, 24-bit values.
pub open spec fn palette_wf(s: Seq<(Seq<char>, ColorModel)>) -> bool {
    &&& distinct_keys(s)
    &&& forall|i: int| 0 <= i < s.len() ==> (#[trigger] s[i]).1.value <= MAX_RGB
}

/// One flavor's set of named color slots, keyed by color key.
pub struct Palette {
    colors: Vec<(String, ColorEntry)>,
}

impl View for Palette {
    type V = Map<Seq<char>, ColorModel>;

    open spec fn view(&self) -> Map<Seq<char>, ColorModel> {
        entry_map(self.models())
    }
}

impl Palette {
    /// The key/entry pairs, in insertion order.
    pub closed spec fn pairs(&self) -> Seq<(Seq<char>, ColorEntry)> {
        self.colors@.map_values(|p: (String, ColorEntry)| (p.0@, p.1))
    }

    /// The key/model pairs, in insertion order.
    pub open spec fn models(&self) -> Seq<(Seq<char>, ColorModel)> {
        entry_models(self.pairs())
    }

    /// The color keys, in insertion order.
    pub open spec fn keys(&self) -> Seq<Seq<char>> {
        entry_keys(self.models())
    }

    /// Keys are distinct and every value fits in 24 bits.
    pub open spec fn wf(&self) -> bool {
        palette_wf(self.models())
    }

    /// An empty palette.
    pub fn new() -> (r: Palette)
        ensures
            r@ == Map::<Seq<char>, ColorModel>::empty(),
            r.keys() == Seq::<Seq<char>>::empty(),
            r.wf(),
    {
        let r = Palette { colors: Vec::new() };
        proof {
            assert(r.models() =~= Seq::<(Seq<char>, ColorModel)>::empty());
            assert(r.keys() =~= Seq::<Seq<char>>::empty());
        }
        r
    }

    /// How many color slots the palette holds.
    pub fn len(&self) -> (r: usize)
        ensures
            r == self.keys().len(),
    {
        self.colors.len()
    }

    fn find(&self, key: &String) -> (r: Option<usize>)
        ensures
            match r {
                Some(i) => i < self.models().len() && self.models()[i as int].0 == key@,
                None => forall|j: int|
                    0 <= j < self.models().len() ==> (#[trigger] self.models()[j]).0 !== key@,
            },
    {
        let mut i: usize = 0;
        while i < self.colors.len()
            invariant
                i <= self.colors.len(),
                forall|j: int| 0 <= j < i ==> (#[trigger] self.models()[j]).0 !== key@,
            decreases self.colors.len() - i,
        {
            if self.colors[i].0 == *key {
                assert(self.models()[i as int].0 == self.colors@[i as int].0@);
                return Some(i);
            }
            assert(self.models()[i as int].0 == self.colors@[i as int].0@);
            i += 1;
        }
        None
    }

    /// Read access to one color slot; absent keys yield `None`.
    pub fn get(&self, key: &str) -> (r: Option<&ColorEntry>)
        requires
            self.wf(),
        ensures
            match r {
                Some(e) => self@.contains_key(key@) && e@ == self@[key@] && e.wf(),
                None => !self@.contains_key(key@),
            },
    {
        let k = key.to_owned();
        match self.find(&k) {
            Some(i) => {
                proof {
                    lemma_entry_map_index(self.models(), i as int);
                    assert(self.models()[i as int].1 == self.colors@[i as int].1@);
                }
                Some(&self.colors[i].1)
            },
            None => {
                proof {
                    lemma_entry_map_contains(self.models(), k@);
                }
                None
            },
        }
    }

    /// Set one color's enabled flag; reports whether the key was present,
    /// and on an absent key leaves the palette untouched.
    pub fn set_enabled(&mut self, key: &str, enabled: bool) -> (r: bool)
        requires
            old(self).wf(),
        ensures
            final(self).wf(),
            final(self).keys() == old(self).keys(),
            r == old(self)@.contains_key(key@),
            r ==> final(self)@ == old(self)@.insert(key@, set_flag(old(self)@[key@], enabled)),
            !r ==> *final(self) == *old(self),
    {
        let k = key.to_owned();
        match self.find(&k) {
            Some(i) => {
                proof {
                    lemma_entry_map_contains(old(self).models(), k@);
                    lemma_entry_map_index(old(self).models(), i as int);
                }
                self.colors[i].1.enabled = enabled;
                proof {
                    let m0 = old(self).models();
                    let nv = set_flag(m0[i as int].1, enabled);
                    assert(self.models() =~= m0.update(i as int, (key@, nv)));
                    lemma_entry_map_update(m0, i as int, nv);
                    assert(final(self).keys() =~= old(self).keys());
                }
                true
            },
            None => {
                proof {
                    lemma_entry_map_contains(old(self).models(), k@);
                }
                false
            },
        }
    }

    /// Insert a color slot; a repeated key overwrites the earlier entry in
    /// place, a fresh key is appended.
    pub fn insert(&mut self, key: &str, entry: ColorEntry)
        requires
            old(self).wf(),
            entry.wf(),
        ensures
            final(self).wf(),
            final(self)@ == old(self)@.insert(key@, entry@),
            old(self)@.contains_key(key@) ==> final(self).keys() == old(self).keys(),
            !old(self)@.contains_key(key@) ==> final(self).keys() == old(self).keys().push(key@),
    {
        let k = key.to_owned();
        match self.find(&k) {
            Some(i) => {
                proof {
                    lemma_entry_map_contains(old(self).models(), k@);
                    lemma_entry_map_index(old(self).models(), i as int);
                }
                self.colors[i].1 = entry;
                proof {
                    let m0 = old(self).models();
                    assert(self.models() =~= m0.update(i as int, (key@, entry@)));
                    lemma_entry_map_update(m0, i as int, entry@);
                    assert(final(self).keys() =~= old(self).keys());
                }
            },
            None => {
                proof {
                    lemma_entry_map_contains(old(self).models(), k@);
                }
                self.colors.push((k, entry));
                proof {
                    let m0 = old(self).models();
                    assert(self.models() =~= m0.push((key@, entry@)));
                    lemma_entry_map_push(m0, key@, entry@);
                    assert(final(self).keys() =~= old(self).keys().push(key@));
                }
            },
        }
    }

    /// The color keys as strings, in insertion order.
    pub fn color_keys(&self) -> (r: Vec<String>)
        ensures
            r@.len() == self.keys().len(),
            forall|i: int| 0 <= i < r@.len() ==> (#[trigger] r@[i])@ == self.keys()[i],
    {
        let mut r: Vec<String> = Vec::new();
        let mut i: usize = 0;
        while i < self.colors.len()
            invariant
                i <= self.colors.len(),
                r@.len() == i,
                forall|j: int| 0 <= j < i ==> (#[trigger] r@[j])@ == self.keys()[j],
            decreases self.colors.len() - i,
        {
            r.push(self.colors[i].0.clone());
            i += 1;
        }
        r
    }
}

impl Clone for Palette {
    fn clone(&self) -> (r: Self)
        ensures
            r.models() == self.models(),
    {
        let mut colors: Vec<(String, ColorEntry)> = Vec::new();
        let mut i: usize = 0;
        while i < self.colors.len()
            invariant
                i <= self.colors.len(),
                colors@.len() == i,
                forall|j: int| 0 <= j < i ==> #[trigger] colors@[j] == self.colors@[j],
            decreases self.colors.len() - i,
        {
            let p = &self.colors[i];
            colors.push((p.0.clone(), p.1.clone()));
            i += 1;
        }
        let r = Palette { colors };
        proof {
            assert(r.models() =~= self.models());
        }
        r
    }
}

/// The pair sequence of a flavor map, read one level down: each flavor's
/// palette replaced by its key/model pairs.
pub open spec fn scheme_models(d: Seq<(Seq<char>, Seq<(Seq<char>, ColorModel)>)>) -> Seq<
    (Seq<char>, Map<Seq<char>, ColorModel>),
> {
    d.map_values(|p: (Seq<char>, Seq<(Seq<char>, ColorModel)>)| (p.0, entry_map(p.1)))
}

/// A scheme model is well formed: distinct flavor names, well-formed palettes.
pub open spec fn scheme_wf(d: Seq<(Seq<char>, Seq<(Seq<char>, ColorModel)>)>) -> bool {
    &&& distinct_keys(d)
    &&& forall|i: int| 0 <= i < d.len() ==> palette_wf((#[trigger] d[i]).1)
}

/// One named color scheme: its flavors, keyed by flavor name.
pub struct Scheme {
    flavors: Vec<(String, Palette)>,
}

impl View for Scheme {
    type V = Map<Seq<char>, Map<Seq<char>, ColorModel>>;

    open spec fn view(&self) -> Map<Seq<char>, Map<Seq<char>, ColorModel>> {
        entry_map(self.models())
    }
}

impl Scheme {
    /// The flavor name/palette pairs, each palette as its ordered pairs.
    pub closed spec fn deep(&self) -> Seq<(Seq<char>, Seq<(Seq<char>, ColorModel)>)> {
        self.flavors@.map_values(|p: (String, Palette)| (p.0@, p.1.models()))
    }

    /// The flavor name/palette-map pairs, in insertion order.
    pub open spec fn models(&self) -> Seq<(Seq<char>, Map<Seq<char>, ColorModel>)> {
        scheme_models(self.deep())
    }

    /// The flavor names, in insertion order.
    pub open spec fn keys(&self) -> Seq<Seq<char>> {
        entry_keys(self.models())
    }

    /// Flavor names are distinct and every palette is well formed.
    pub open spec fn wf(&self) -> bool {
        scheme_wf(self.deep())
    }

    /// An empty scheme.
    pub fn new() -> (r: Scheme)
        ensures
            r@ == Map::<Seq<char>, Map<Seq<char>, ColorModel>>::empty(),
            r.keys() == Seq::<Seq<char>>::empty(),
            r.deep() == Seq::<(Seq<char>, Seq<(Seq<char>, ColorModel)>)>::empty(),
            r.wf(),
    {
        let r = Scheme { flavors: Vec::new() };
        proof {
            assert(r.deep() =~= Seq::<(Seq<char>, Seq<(Seq<char>, ColorModel)>)>::empty());
            assert(r.keys() =~= Seq::<Seq<char>>::empty());
        }
        r
    }

    fn find(&self, key: &String) -> (r: Option<usize>)
        ensures
            match r {
                Some(i) => i < self.models().len() && self.models()[i as int].0 == key@,
                None => forall|j: int|
                    0 <= j < self.models().len() ==> (#[trigger] self.models()[j]).0 !== key@,
            },
    {
        let mut i: usize = 0;
        while i < self.flavors.len()
            invariant
                i <= self.flavors.len(),
                forall|j: int| 0 <= j < i ==> (#[trigger] self.models()[j]).0 !== key@,
            decreases self.flavors.len() - i,
        {
            if self.flavors[i].0 == *key {
                assert(self.models()[i as int].0 == self.flavors@[i as int].0@);
                return Some(i);
            }
            assert(self.models()[i as int].0 == self.flavors@[i as int].0@);
            i += 1;
        }
        None
    }

    /// Read access to one flavor's palette; absent names yield `None`.
    pub fn get(&self, flavor: &str) -> (r: Option<&Palette>)
        requires
            self.wf(),
        ensures
            match r {
                Some(p) => self@.contains_key(flavor@) && p@ == self@[flavor@] && p.wf(),
                None => !self@.contains_key(flavor@),
            },
    {
        let k = flavor.to_owned();
        match self.find(&k) {
            Some(i) => {
                proof {
                    lemma_entry_map_index(self.models(), i as int);
                    assert(self.models()[i as int].1 == entry_map(self.flavors@[i as int].1.models()));
                }
                Some(&self.flavors[i].1)
            },
            None => {
                proof {
                    lemma_entry_map_contains(self.models(), k@);
                }
                None
            },
        }
    }

    /// The flavor names as strings, in insertion order.
    pub fn flavor_names(&self) -> (r: Vec<String>)
        ensures
            r@.len() == self.keys().len(),
            forall|i: int| 0 <= i < r@.len() ==> (#[trigger] r@[i])@ == self.keys()[i],
    {
        let mut r: Vec<String> = Vec::new();
        let mut i: usize = 0;
        while i < self.flavors.len()
            invariant
                i <= self.flavors.len(),
                r@.len() == i,
                forall|j: int| 0 <= j < i ==> (#[trigger] r@[j])@ == self.keys()[j],
            decreases self.flavors.len() - i,
        {
            r.push(self.flavors[i].0.clone());
            i += 1;
        }
        r
    }

    /// Insert a flavor with the given palette; a repeated name overwrites
    /// the earlier palette in place, a fresh name is appended.
    pub fn insert(&mut self, flavor: &str, palette: Palette)
        requires
            old(self).wf(),
            palette.wf(),
        ensures
            final(self).wf(),
            final(self)@ == old(self)@.insert(flavor@, palette@),
            old(self)@.contains_key(flavor@) ==> final(self).keys() == old(self).keys(),
            !old(self)@.contains_key(flavor@) ==> final(self).keys() == old(self).keys().push(
                flavor@,
            ),
    {
        let k = flavor.to_owned();
        match self.find(&k) {
            Some(i) => {
                proof {
                    lemma_entry_map_contains(old(self).models(), k@);
                    lemma_entry_map_index(old(self).models(), i as int);
                }
                self.flavors[i].1 = palette;
                proof {
                    let m0 = old(self).models();
                    let d0 = old(self).deep();
                    assert(self.deep() =~= d0.update(i as int, (flavor@, palette.models())));
                    assert(self.models() =~= m0.update(i as int, (flavor@, palette@)));
                    lemma_entry_map_update(m0, i as int, palette@);
                    assert(final(self).keys() =~= old(self).keys());
                    assert(forall|j: int|
                        0 <= j < self.deep().len() ==> (#[trigger] self.deep()[j]).0 == d0[j].0);
                    assert(distinct_keys(self.deep()));
                }
            },
            None => {
                proof {
                    lemma_entry_map_contains(old(self).models(), k@);
                }
                self.flavors.push((k, palette));
                proof {
                    let m0 = old(self).models();
                    let d0 = old(self).deep();
                    assert(self.deep() =~= d0.push((flavor@, palette.models())));
                    assert(self.models() =~= m0.push((flavor@, palette@)));
                    lemma_entry_map_push(m0, flavor@, palette@);
                    assert(final(self).keys() =~= old(self).keys().push(flavor@));
                    assert(forall|j: int|
                        0 <= j < d0.len() ==> (#[trigger] self.deep()[j]).0 == d0[j].0);
                    assert(forall|j: int|
                        0 <= j < d0.len() ==> (#[trigger] d0[j]).0 == m0[j].0);
                    assert(distinct_keys(self.deep()));
                }
            },
        }
    }

    /// Set one color's enabled flag under the given flavor; reports whether
    /// both the flavor and the color key were present, and otherwise leaves
    /// the scheme untouched.
    pub fn set_enabled(&mut self, flavor: &str, key: &str, enabled: bool) -> (r: bool)
        requires
            old(self).wf(),
        ensures
            final(self).wf(),
            final(self).keys() == old(self).keys(),
            r == (old(self)@.contains_key(flavor@) && old(self)@[flavor@].contains_key(key@)),
            r ==> final(self)@ == old(self)@.insert(
                flavor@,
                old(self)@[flavor@].insert(key@, set_flag(old(self)@[flavor@][key@], enabled)),
            ),
            !r ==> *final(self) == *old(self),
    {
        let k = flavor.to_owned();
        let i = match self.find(&k) {
            Some(i) => i,
            None => {
                proof {
                    lemma_entry_map_contains(self.models(), k@);
                }
                return false;
            },
        };
        proof {
            lemma_entry_map_contains(old(self).models(), k@);
            lemma_entry_map_index(old(self).models(), i as int);
        }
        if self.flavors[i].1.get(key).is_none() {
            proof {
                lemma_entry_map_contains(self.flavors@[i as int].1.models(), key@);
            }
            return false;
        }
        let done = self.flavors[i].1.set_enabled(key, enabled);
        assert(done);
        proof {
            let m0 = old(self).models();
            let d0 = old(self).deep();
            let p1 = self.flavors@[i as int].1;
            assert(self.deep() =~= d0.update(i as int, (flavor@, p1.models())));
            assert(self.models() =~= m0.update(i as int, (flavor@, p1@)));
            lemma_entry_map_update(m0, i as int, p1@);
            assert(final(self).keys() =~= old(self).keys());
            assert(forall|j: int|
                0 <= j < self.deep().len() ==> (#[trigger] self.deep()[j]).0 == d0[j].0);
            assert(distinct_keys(self.deep()));
        }
        true
    }
    /// Insert a color slot into the palette of the given flavor; reports
    /// whether the flavor was present, and otherwise leaves the scheme
    /// untouched.
    pub fn insert_color(&mut self, flavor: &str, key: &str, entry: ColorEntry) -> (r: bool)
        requires
            old(self).wf(),
            entry.wf(),
        ensures
            final(self).wf(),
            final(self).keys() == old(self).keys(),
            r == old(self)@.contains_key(flavor@),
            r ==> final(self)@ == old(self)@.insert(
                flavor@,
                old(self)@[flavor@].insert(key@, entry@),
            ),
            !r ==> *final(self) == *old(self),
    {
        let k = flavor.to_owned();
        let i = match self.find(&k) {
            Some(i) => i,
            None => {
                proof {
                    lemma_entry_map_contains(self.models(), k@);
                }
                return false;
            },
        };
        proof {
            lemma_entry_map_contains(old(self).models(), k@);
            lemma_entry_map_index(old(self).models(), i as int);
        }
        self.flavors[i].1.insert(key, entry);
        proof {
            let m0 = old(self).models();
            let d0 = old(self).deep();
            let p1 = self.flavors@[i as int].1;
            assert(self.deep() =~= d0.update(i as int, (flavor@, p1.models())));
            assert(self.models() =~= m0.update(i as int, (flavor@, p1@)));
            lemma_entry_map_update(m0, i as int, p1@);
            assert(final(self).keys() =~= old(self).keys());
            assert(forall|j: int|
                0 <= j < self.deep().len() ==> (#[trigger] self.deep()[j]).0 == d0[j].0);
            assert(distinct_keys(self.deep()));
        }
        true
    }
}

impl Clone for Scheme {
    fn clone(&self) -> (r: Self)
        ensures
            r.deep() == self.deep(),
    {
        let mut flavors: Vec<(String, Palette)> = Vec::new();
        let mut i: usize = 0;
        while i < self.flavors.len()
            invariant
                i <= self.flavors.len(),
                flavors@.len() == i,
                forall|j: int| 0 <= j < i ==> (#[trigger] flavors@[j]).0 == self.flavors@[j].0
                    && flavors@[j].1.models() == self.flavors@[j].1.models(),
            decreases self.flavors.len() - i,
        {
            let p = &self.flavors[i];
            flavors.push((p.0.clone(), p.1.clone()));
            i += 1;
        }
        let r = Scheme { flavors };
        proof {
            assert(r.deep() =~= self.deep());
        }
        r
    }
}

/// The single error of the store: a lookup key was absent.
#[derive(Clone, Copy, Debug, PartialEq, Eq, Structural)]
pub struct NotFound;

/// The full store model, one map per level.
pub type StoreModel = Map<Seq<char>, Map<Seq<char>, Map<Seq<char>, ColorModel>>>;

/// The scheme name/flavor-seq pairs of a store, read one level down.
pub open spec fn store_models(
    d: Seq<(Seq<char>, Seq<(Seq<char>, Seq<(Seq<char>, ColorModel)>)>)>,
) -> Seq<(Seq<char>, Map<Seq<char>, Map<Seq<char>, ColorModel>>)> {
    d.map_values(
        |p: (Seq<char>, Seq<(Seq<char>, Seq<(Seq<char>, ColorModel)>)>)|
            (p.0, entry_map(scheme_models(p.1))),
    )
}

/// A store model is well formed: distinct scheme names, well-formed schemes.
pub open spec fn store_wf(
    d: Seq<(Seq<char>, Seq<(Seq<char>, Seq<(Seq<char>, ColorModel)>)>)>,
) -> bool {
    &&& distinct_keys(d)
    &&& forall|i: int| 0 <= i < d.len() ==> scheme_wf((#[trigger] d[i]).1)
}

/// The three lookup keys all hit the store.
pub open spec fn present(m: StoreModel, s: Seq<char>, f: Seq<char>, k: Seq<char>) -> bool {
    m.contains_key(s) && m[s].contains_key(f) && m[s][f].contains_key(k)
}

/// The store model with one color's enabled flag replaced.
pub open spec fn with_enabled(
    m: StoreModel,
    s: Seq<char>,
    f: Seq<char>,
    k: Seq<char>,
    enabled: bool,
) -> StoreModel {
    m.insert(s, m[s].insert(f, m[s][f].insert(k, set_flag(m[s][f][k], enabled))))
}

/// Law: toggling a present color's enabled flag and then setting it back to
/// what it was restores the store's model exactly.
pub proof fn lemma_double_toggle(
    m: StoreModel,
    s: Seq<char>,
    f: Seq<char>,
    k: Seq<char>,
    b: bool,
)
    requires
        present(m, s, f, k),
    ensures
        with_enabled(with_enabled(m, s, f, k, b), s, f, k, m[s][f][k].enabled) == m,
{
    let e = m[s][f][k];
    let m1 = with_enabled(m, s, f, k, b);
    assert(m1[s][f][k] == set_flag(e, b));
    assert(set_flag(set_flag(e, b), e.enabled) == e);
    let m2 = with_enabled(m1, s, f, k, e.enabled);
    assert(m2[s][f] =~= m[s][f]);
    assert(m2[s] =~= m[s]);
    assert(m2 =~= m);
}

/// The library store: every color scheme, keyed by scheme name.
pub struct LibraryStore {
    schemes: Vec<(String, Scheme)>,
}

impl View for LibraryStore {
    type V = StoreModel;

    open spec fn view(&self) -> StoreModel {
        entry_map(self.models())
    }
}

impl LibraryStore {
    /// The scheme name/scheme pairs, each scheme as its ordered deep pairs.
    pub closed spec fn deep(&self) -> Seq<
        (Seq<char>, Seq<(Seq<char>, Seq<(Seq<char>, ColorModel)>)>),
    > {
        self.schemes@.map_values(|p: (String, Scheme)| (p.0@, p.1.deep()))
    }

    /// The scheme name/scheme-map pairs, in insertion order.
    pub open spec fn models(&self) -> Seq<
        (Seq<char>, Map<Seq<char>, Map<Seq<char>, ColorModel>>),
    > {
        store_models(self.deep())
    }

    /// The scheme names, in insertion order.
    pub open spec fn keys(&self) -> Seq<Seq<char>> {
        entry_keys(self.models())
    }

    /// The deep pairs of each scheme, keyed by scheme name.
    pub open spec fn deep_map(&self) -> Map<
        Seq<char>,
        Seq<(Seq<char>, Seq<(Seq<char>, ColorModel)>)>,
    > {
        entry_map(self.deep())
    }

    /// The flavor names of one scheme, in insertion order.
    pub open spec fn flavor_order(&self, scheme: Seq<char>) -> Seq<Seq<char>> {
        entry_keys(scheme_models(self.deep_map()[scheme]))
    }

    /// Scheme names are distinct and every scheme is well formed.
    pub open spec fn wf(&self) -> bool {
        store_wf(self.deep())
    }

    /// An empty store.
    pub fn new() -> (r: LibraryStore)
        ensures
            r@ == Map::<Seq<char>, Map<Seq<char>, Map<Seq<char>, ColorModel>>>::empty(),
            r.keys() == Seq::<Seq<char>>::empty(),
            r.wf(),
    {
        let r = LibraryStore { schemes: Vec::new() };
        proof {
            assert(r.deep() =~= Seq::<
                (Seq<char>, Seq<(Seq<char>, Seq<(Seq<char>, ColorModel)>)>),
            >::empty());
            assert(r.keys() =~= Seq::<Seq<char>>::empty());
        }
        r
    }

    fn find(&self, key: &String) -> (r: Option<usize>)
        ensures
            match r {
                Some(i) => i < self.models().len() && self.models()[i as int].0 == key@,
                None => forall|j: int|
                    0 <= j < self.models().len() ==> (#[trigger] self.models()[j]).0 !== key@,
            },
    {
        let mut i: usize = 0;
        while i < self.schemes.len()
            invariant
                i <= self.schemes.len(),
                forall|j: int| 0 <= j < i ==> (#[trigger] self.models()[j]).0 !== key@,
            decreases self.schemes.len() - i,
        {
            if self.schemes[i].0 == *key {
                assert(self.models()[i as int].0 == self.schemes@[i as int].0@);
                return Some(i);
            }
            assert(self.models()[i as int].0 == self.schemes@[i as int].0@);
            i += 1;
        }
        None
    }

    /// The scheme names as strings, in insertion order.
    pub fn schemes(&self) -> (r: Vec<String>)
        ensures
            r@.len() == self.keys().len(),
            forall|i: int| 0 <= i < r@.len() ==> (#[trigger] r@[i])@ == self.keys()[i],
    {
        let mut r: Vec<String> = Vec::new();
        let mut i: usize = 0;
        while i < self.schemes.len()
            invariant
                i <= self.schemes.len(),
                r@.len() == i,
                forall|j: int| 0 <= j < i ==> (#[trigger] r@[j])@ == self.keys()[j],
            decreases self.schemes.len() - i,
        {
            r.push(self.schemes[i].0.clone());
            i += 1;
        }
        r
    }

    /// The flavor names of the given scheme, in insertion order; an absent
    /// scheme name fails with [`NotFound`].
    pub fn flavors(&self, scheme: &str) -> (r: Result<Vec<String>, NotFound>)
        requires
            self.wf(),
        ensures
            r.is_ok() == self@.contains_key(scheme@),
            match r {
                Ok(names) => {
                    &&& names@.len() == self.flavor_order(scheme@).len()
                    &&& forall|i: int|
                        0 <= i < names@.len() ==> (#[trigger] names@[i])@ == self.flavor_order(
                            scheme@,
                        )[i]
                },
                Err(e) => e == NotFound,
            },
    {
        let k = scheme.to_owned();
        match self.find(&k) {
            Some(i) => {
                proof {
                    lemma_entry_map_contains(self.models(), k@);
                    lemma_entry_map_index(self.models(), i as int);
                    lemma_entry_map_index(self.deep(), i as int);
                    assert(self.deep_map()[scheme@] == self.schemes@[i as int].1.deep());
                }
                Ok(self.schemes[i].1.flavor_names())
            },
            None => {
                proof {
                    lemma_entry_map_contains(self.models(), k@);
                }
                Err(NotFound)
            },
        }
    }

    /// Read access to one flavor's palette; an absent scheme or flavor name
    /// fails with [`NotFound`].
    pub fn palette(&self, scheme: &str, flavor: &str) -> (r: Result<&Palette, NotFound>)
        requires
            self.wf(),
        ensures
            r.is_ok() == (self@.contains_key(scheme@) && self@[scheme@].contains_key(flavor@)),
            match r {
                Ok(p) => p@ == self@[scheme@][flavor@] && p.wf(),
                Err(e) => e == NotFound,
            },
    {
        let k = scheme.to_owned();
        match self.find(&k) {
            Some(i) => {
                proof {
                    lemma_entry_map_contains(self.models(), k@);
                    lemma_entry_map_index(self.models(), i as int);
                }
                match self.schemes[i].1.get(flavor) {
                    Some(p) => Ok(p),
                    None => Err(NotFound),
                }
            },
            None => {
                proof {
                    lemma_entry_map_contains(self.models(), k@);
                }
                Err(NotFound)
            },
        }
    }

    /// Set one color's enabled flag along the three-level path. If any
    /// segment is missing, fails with [`NotFound`] and leaves the store
    /// exactly as it was; otherwise replaces only that flag.
    pub fn set_enabled(&mut self, scheme: &str, flavor: &str, key: &str, enabled: bool) -> (r:
        Result<(), NotFound>)
        requires
            old(self).wf(),
        ensures
            final(self).wf(),
            final(self).keys() == old(self).keys(),
            r.is_ok() == present(old(self)@, scheme@, flavor@, key@),
            match r {
                Ok(_) => final(self)@ == with_enabled(
                    old(self)@,
                    scheme@,
                    flavor@,
                    key@,
                    enabled,
                ),
                Err(e) => e == NotFound && *final(self) == *old(self),
            },
    {
        let k = scheme.to_owned();
        let i = match self.find(&k) {
            Some(i) => i,
            None => {
                proof {
                    lemma_entry_map_contains(self.models(), k@);
                }
                return Err(NotFound);
            },
        };
        proof {
            lemma_entry_map_contains(old(self).models(), k@);
            lemma_entry_map_index(old(self).models(), i as int);
        }
        let hit = match self.schemes[i].1.get(flavor) {
            Some(p) => p.get(key).is_some(),
            None => false,
        };
        if !hit {
            return Err(NotFound);
        }
        let done = self.schemes[i].1.set_enabled(flavor, key, enabled);
        assert(done);
        proof {
            let m0 = old(self).models();
            let d0 = old(self).deep();
            let s1 = self.schemes@[i as int].1;
            assert(self.deep() =~= d0.update(i as int, (scheme@, s1.deep())));
            assert(self.models() =~= m0.update(i as int, (scheme@, s1@)));
            lemma_entry_map_update(m0, i as int, s1@);
            assert(final(self).keys() =~= old(self).keys());
            assert(forall|j: int|
                0 <= j < self.deep().len() ==> (#[trigger] self.deep()[j]).0 == d0[j].0);
            assert(distinct_keys(self.deep()));
            assert(final(self)@ =~= with_enabled(old(self)@, scheme@, flavor@, key@, enabled));
        }
        Ok(())
    }

    /// Insert a scheme under the given name; a repeated name overwrites the
    /// earlier scheme with an empty one, a fresh name is appended.
    pub fn insert_scheme(&mut self, name: &str)
        requires
            old(self).wf(),
        ensures
            final(self).wf(),
            final(self)@ == old(self)@.insert(
                name@,
                Map::<Seq<char>, Map<Seq<char>, ColorModel>>::empty(),
            ),
            old(self)@.contains_key(name@) ==> final(self).keys() == old(self).keys(),
            !old(self)@.contains_key(name@) ==> final(self).keys() == old(self).keys().push(name@),
    {
        let k = name.to_owned();
        let fresh = Scheme::new();
        match self.find(&k) {
            Some(i) => {
                proof {
                    lemma_entry_map_contains(old(self).models(), k@);
                    lemma_entry_map_index(old(self).models(), i as int);
                }
                self.schemes[i].1 = fresh;
                proof {
                    let m0 = old(self).models();
                    let d0 = old(self).deep();
                    let s1 = self.schemes@[i as int].1;
                    assert(self.deep() =~= d0.update(i as int, (name@, s1.deep())));
                    assert(self.models() =~= m0.update(i as int, (name@, s1@)));
                    lemma_entry_map_update(m0, i as int, s1@);
                    assert(final(self).keys() =~= old(self).keys());
                    assert(forall|j: int|
                        0 <= j < self.deep().len() ==> (#[trigger] self.deep()[j]).0 == d0[j].0);
                    assert(distinct_keys(self.deep()));
                }
            },
            None => {
                proof {
                    lemma_entry_map_contains(old(self).models(), k@);
                }
                self.schemes.push((k, fresh));
                proof {
                    let m0 = old(self).models();
                    let d0 = old(self).deep();
                    let s1 = self.schemes@[d0.len() as int].1;
                    assert(self.deep() =~= d0.push((name@, s1.deep())));
                    assert(self.models() =~= m0.push((name@, s1@)));
                    lemma_entry_map_push(m0, name@, s1@);
                    assert(final(self).keys() =~= old(self).keys().push(name@));
                    assert(forall|j: int|
                        0 <= j < d0.len() ==> (#[trigger] self.deep()[j]).0 == d0[j].0);
                    assert(forall|j: int|
                        0 <= j < d0.len() ==> (#[trigger] d0[j]).0 == m0[j].0);
                    assert(distinct_keys(self.deep()));
                }
            },
        }
    }

    /// Insert a flavor with an empty palette into the given scheme; a
    /// repeated flavor name overwrites the earlier palette. An absent scheme
    /// name fails with [`NotFound`] and leaves the store exactly as it was.
    pub fn insert_flavor(&mut self, scheme: &str, flavor: &str) -> (r: Result<(), NotFound>)
        requires
            old(self).wf(),
        ensures
            final(self).wf(),
            final(self).keys() == old(self).keys(),
            r.is_ok() == old(self)@.contains_key(scheme@),
            match r {
                Ok(_) => final(self)@ == old(self)@.insert(
                    scheme@,
                    old(self)@[scheme@].insert(flavor@, Map::<Seq<char>, ColorModel>::empty()),
                ),
                Err(e) => e == NotFound && *final(self) == *old(self),
            },
    {
        let k = scheme.to_owned();
        let i = match self.find(&k) {
            Some(i) => i,
            None => {
                proof {
                    lemma_entry_map_contains(self.models(), k@);
                }
                return Err(NotFound);
            },
        };
        proof {
            lemma_entry_map_contains(old(self).models(), k@);
            lemma_entry_map_index(old(self).models(), i as int);
        }
        self.schemes[i].1.insert(flavor, Palette::new());
        proof {
            let m0 = old(self).models();
            let d0 = old(self).deep();
            let s1 = self.schemes@[i as int].1;
            assert(self.deep() =~= d0.update(i as int, (scheme@, s1.deep())));
            assert(self.models() =~= m0.update(i as int, (scheme@, s1@)));
            lemma_entry_map_update(m0, i as int, s1@);
            assert(final(self).keys() =~= old(self).keys());
            assert(forall|j: int|
                0 <= j < self.deep().len() ==> (#[trigger] self.deep()[j]).0 == d0[j].0);
            assert(distinct_keys(self.deep()));
        }
        Ok(())
    }

    /// Insert a color slot into the palette at the given scheme and flavor;
    /// a repeated color key overwrites the earlier entry. An absent scheme
    /// or flavor name fails with [`NotFound`] and leaves the store exactly
    /// as it was.
    pub fn insert_color(&mut self, scheme: &str, flavor: &str, key: &str, entry: ColorEntry) -> (r:
        Result<(), NotFound>)
        requires
            old(self).wf(),
            entry.wf(),
        ensures
            final(self).wf(),
            final(self).keys() == old(self).keys(),
            r.is_ok() == (old(self)@.contains_key(scheme@) && old(self)@[scheme@].contains_key(
                flavor@,
            )),
            match r {
                Ok(_) => final(self)@ == old(self)@.insert(
                    scheme@,
                    old(self)@[scheme@].insert(
                        flavor@,
                        old(self)@[scheme@][flavor@].insert(key@, entry@),
                    ),
                ),
                Err(e) => e == NotFound && *final(self) == *old(self),
            },
    {
        let k = scheme.to_owned();
        let i = match self.find(&k) {
            Some(i) => i,
            None => {
                proof {
                    lemma_entry_map_contains(self.models(), k@);
                }
                return Err(NotFound);
            },
        };
        proof {
            lemma_entry_map_contains(old(self).models(), k@);
            lemma_entry_map_index(old(self).models(), i as int);
        }
        let hit = self.schemes[i].1.get(flavor).is_some();
        if !hit {
            return Err(NotFound);
        }
        let done = self.schemes[i].1.insert_color(flavor, key, entry);
        assert(done);
        proof {
            let m0 = old(self).models();
            let d0 = old(self).deep();
            let s1 = self.schemes@[i as int].1;
            assert(self.deep() =~= d0.update(i as int, (scheme@, s1.deep())));
            assert(self.models() =~= m0.update(i as int, (scheme@, s1@)));
            lemma_entry_map_update(m0, i as int, s1@);
            assert(final(self).keys() =~= old(self).keys());
            assert(forall|j: int|
                0 <= j < self.deep().len() ==> (#[trigger] self.deep()[j]).0 == d0[j].0);
            assert(distinct_keys(self.deep()));
        }
        Ok(())
    }
}

impl Clone for LibraryStore {
    fn clone(&self) -> (r: Self)
        ensures
            r.deep() == self.deep(),
    {
        let mut schemes: Vec<(String, Scheme)> = Vec::new();
        let mut i: usize = 0;
        while i < self.schemes.len()
            invariant
                i <= self.schemes.len(),
                schemes@.len() == i,
                forall|j: int| 0 <= j < i ==> (#[trigger] schemes@[j]).0 == self.schemes@[j].0
                    && schemes@[j].1.deep() == self.schemes@[j].1.deep(),
            decreases self.schemes.len() - i,
        {
            let p = &self.schemes[i];
            schemes.push((p.0.clone(), p.1.clone()));
            i += 1;
        }
        let r = LibraryStore { schemes };
        proof {
            assert(r.deep() =~= self.deep());
        }
        r
    }
}

} // verus!
