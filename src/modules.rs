//! The module (plugin) registry: which module owns which component, and
//! routing of per-button work to the owning modules.
use vstd::prelude::*;
use crate::panel::{Button, ButtonView, copy_string, strings_view, text_eq};
use crate::value::{UIValue, ValueView, values_view};
use crate::versions::{FeatureView, features_view};
use crate::methods::{check_feature_list_for_feature, declares_feature};

verus! {

/// The callbacks a plugin implements for the components it owns. The core
/// never interprets component state itself: it hands the button to the
/// owning module.
pub trait SDModule {
    /// What adding the named component makes of a button.
    closed spec fn added(&self, button: ButtonView, name: Seq<char>) -> ButtonView {
        arbitrary()
    }

    /// What removing the named component makes of a button.
    closed spec fn removed(&self, button: ButtonView, name: Seq<char>) -> ButtonView {
        arbitrary()
    }

    /// The editable values of the named component on a button.
    closed spec fn values_of(&self, button: ButtonView, name: Seq<char>) -> Seq<ValueView> {
        arbitrary()
    }

    /// What writing values into the named component makes of a button.
    closed spec fn with_values(&self, button: ButtonView, name: Seq<char>, values: Seq<ValueView>) -> ButtonView {
        arbitrary()
    }

    /// What pasting this module's components from a reference makes of the
    /// button being built.
    closed spec fn pasted(&self, reference: ButtonView, button: ButtonView) -> ButtonView {
        arbitrary()
    }

    /// Adds the named component, in its default state, to a button.
    fn add_component(&self, button: &mut Button, name: &str)
        ensures
            final(button)@ == self.added(old(button)@, name@);

    /// Removes the named component from a button.
    fn remove_component(&self, button: &mut Button, name: &str)
        ensures
            final(button)@ == self.removed(old(button)@, name@);

    /// The editable values of the named component on a button.
    fn component_values(&self, button: &Button, name: &str) -> (r: Vec<UIValue>)
        ensures
            values_view(r@) == self.values_of(button@, name@);

    /// Writes edited values of the named component back into a button.
    fn set_component_value(&self, button: &mut Button, name: &str, values: Vec<UIValue>)
        ensures
            final(button)@ == self.with_values(old(button)@, name@, values_view(values@));

    /// Translates this module's components from a reference button into a
    /// new button being pasted.
    fn paste_component(&self, reference: &Button, new_button: &mut Button)
        ensures
            final(new_button)@ == self.pasted(reference@, old(new_button)@);
}

/// What a module declares about itself.
pub struct PluginMetadata {
    pub name: String,
    pub author: String,
    pub description: String,
    pub version: String,
    pub used_features: Vec<(String, String)>,
}

/// The view of a module's metadata.
pub struct MetadataView {
    pub name: Seq<char>,
    pub author: Seq<char>,
    pub description: Seq<char>,
    pub version: Seq<char>,
    pub used_features: Seq<FeatureView>,
}

impl View for PluginMetadata {
    type V = MetadataView;

    open spec fn view(&self) -> MetadataView {
        MetadataView {
            name: self.name@,
            author: self.author@,
            description: self.description@,
            version: self.version@,
            used_features: features_view(self.used_features@),
        }
    }
}

/// Display name and description of a component a module owns.
pub struct ComponentDefinition {
    pub display_name: String,
    pub description: String,
}

/// A registered module: the plugin, its metadata and the names of the
/// components it owns, each with its definition.
pub struct ModuleEntry<M> {
    pub module: M,
    pub metadata: PluginMetadata,
    pub components: Vec<(String, ComponentDefinition)>,
}

impl<M> ModuleEntry<M> {
    /// Names of the components this module owns.
    pub open spec fn owned(&self) -> Seq<Seq<char>> {
        self.components@.map_values(|c: (String, ComponentDefinition)| c.0@)
    }
}

/// Why a registration was refused.
pub enum RegistryError {
    /// A component name is already owned by another module, is listed twice,
    /// or a module of the same name was registered with other metadata.
    ConflictingOwnership,
}


/// The names of a list of component entries.
pub open spec fn entry_names(cs: Seq<(String, ComponentDefinition)>) -> Seq<Seq<char>> {
    cs.map_values(|c: (String, ComponentDefinition)| c.0@)
}

/// Tells whether two lists of declared features are the same.
pub fn features_equal(a: &Vec<(String, String)>, b: &Vec<(String, String)>) -> (r: bool)
    ensures
        r == (features_view(a@) == features_view(b@)),
{
    if a.len() != b.len() {
        proof { assert(features_view(a@).len() != features_view(b@).len()); }
        return false;
    }
    let mut i: usize = 0;
    while i < a.len()
        invariant
            a@.len() == b@.len(),
            i <= a@.len(),
            forall|j: int| 0 <= j < i ==> #[trigger] features_view(a@)[j] == features_view(b@)[j],
        decreases a@.len() - i,
    {
        if !(a[i].0 == b[i].0 && a[i].1 == b[i].1) {
            assert(features_view(a@)[i as int] != features_view(b@)[i as int]);
            return false;
        }
        i += 1;
    }
    assert(features_view(a@) =~= features_view(b@));
    true
}

/// Tells whether two pieces of metadata are the same.
pub fn metadata_equal(a: &PluginMetadata, b: &PluginMetadata) -> (r: bool)
    ensures
        r == (a@ == b@),
{
    a.name == b.name && a.author == b.author && a.description == b.description && a.version == b.version
        && features_equal(&a.used_features, &b.used_features)
}

/// Tells whether a list of component entries names exactly `names`, in order.
fn entry_names_equal(a: &Vec<(String, ComponentDefinition)>, b: &Vec<(String, ComponentDefinition)>) -> (r: bool)
    ensures
        r == (entry_names(a@) == entry_names(b@)),
{
    if a.len() != b.len() {
        proof { assert(entry_names(a@).len() != entry_names(b@).len()); }
        return false;
    }
    let mut i: usize = 0;
    while i < a.len()
        invariant
            a@.len() == b@.len(),
            i <= a@.len(),
            forall|j: int| 0 <= j < i ==> #[trigger] entry_names(a@)[j] == entry_names(b@)[j],
        decreases a@.len() - i,
    {
        if !(a[i].0 == b[i].0) {
            assert(entry_names(a@)[i as int] != entry_names(b@)[i as int]);
            return false;
        }
        i += 1;
    }
    assert(entry_names(a@) =~= entry_names(b@));
    true
}

/// No name occurs twice in the list.
pub open spec fn names_distinct(s: Seq<Seq<char>>) -> bool {
    forall|a: int, b: int| 0 <= a < b < s.len() ==> #[trigger] s[a] != #[trigger] s[b]
}

/// Modules by name, and through them the owner of each component name.
pub struct ModuleManager<M> {
    pub modules: Vec<ModuleEntry<M>>,
}

/// A sequence of indices that strictly increases.
pub open spec fn increasing(s: Seq<usize>) -> bool {
    forall|i: int, j: int| 0 <= i < j < s.len() ==> #[trigger] s[i] < #[trigger] s[j]
}

/// A sequence without repeated elements.
pub open spec fn distinct(s: Seq<usize>) -> bool {
    forall|i: int, j: int| 0 <= i < j < s.len() ==> #[trigger] s[i] != #[trigger] s[j]
}

impl<M> ModuleManager<M> {
    /// Module names are unique, and so are component names over all modules.
    pub open spec fn wf(&self) -> bool {
        &&& forall|i: int, j: int| 0 <= i < j < self.modules@.len()
            ==> #[trigger] self.modules@[i].metadata.name@ != #[trigger] self.modules@[j].metadata.name@
        &&& forall|i: int, j: int, a: int, b: int|
            0 <= i < self.modules@.len() && 0 <= j < self.modules@.len()
            && 0 <= a < self.modules@[i].owned().len() && 0 <= b < self.modules@[j].owned().len()
            && (i != j || a != b)
            ==> #[trigger] self.modules@[i].owned()[a] != #[trigger] self.modules@[j].owned()[b]
    }

    /// Names of the registered modules, in order of registration.
    pub open spec fn names(&self) -> Seq<Seq<char>> {
        self.modules@.map_values(|e: ModuleEntry<M>| e.metadata.name@)
    }

    /// The module at index `i` owns a component named `c`.
    pub open spec fn owns(&self, i: int, c: Seq<char>) -> bool {
        0 <= i < self.modules@.len() && self.modules@[i].owned().contains(c)
    }

    /// The module at index `i` declares the rendering feature.
    pub open spec fn renders(&self, i: int) -> bool {
        declares_feature(self.modules@[i].metadata@.used_features, "rendering"@)
    }

    /// `idx` lists, in increasing order, exactly the modules that own a
    /// component named in `names`.
    pub open spec fn routes_to(&self, names: Seq<Seq<char>>, idx: Seq<usize>) -> bool {
        &&& increasing(idx)
        &&& forall|i: int| 0 <= i < idx.len() ==> idx[i] < self.modules@.len()
        &&& forall|i: usize| #[trigger] idx.contains(i) <==>
            (i < self.modules@.len() && exists|k: int| 0 <= k < names.len() && #[trigger] self.owns(i as int, names[k]))
    }

    /// The first module, in order of registration, that owns a component
    /// named `c`; meaningful where some module owns it.
    pub open spec fn owner_index(&self, c: Seq<char>) -> int {
        choose|i: int| self.owns(i, c) && forall|j: int| 0 <= j < i ==> !#[trigger] self.owns(j, c)
    }

    /// The owners of the named components, each once, in order of first
    /// mention.
    pub open spec fn declared_owners(&self, names: Seq<Seq<char>>) -> Seq<usize>
        decreases names.len(),
    {
        if names.len() == 0 {
            Seq::empty()
        } else {
            let prev = self.declared_owners(names.drop_last());
            let c = names.last();
            if exists|i: int| self.owns(i, c) {
                let o = self.owner_index(c) as usize;
                if prev.contains(o) { prev } else { prev.push(o) }
            } else {
                prev
            }
        }
    }

    /// Creates an empty registry.
    pub fn new() -> (r: ModuleManager<M>)
        ensures
            r.modules@.len() == 0,
            r.wf(),
    {
        ModuleManager { modules: Vec::new() }
    }

    /// Names of the registered modules, in order of registration.
    pub fn get_module_list(&self) -> (r: Vec<String>)
        ensures
            strings_view(r@) == self.names(),
    {
        let mut r: Vec<String> = Vec::new();
        let mut i: usize = 0;
        while i < self.modules.len()
            invariant
                i <= self.modules@.len(),
                strings_view(r@) == self.names().subrange(0, i as int),
            decreases self.modules@.len() - i,
        {
            let ghost r0 = r@;
            let c = copy_string(&self.modules[i].metadata.name);
            r.push(c);
            proof { crate::panel::lemma_strings_view_push(r0, c); }
            assert(strings_view(r@) =~= self.names().subrange(0, i + 1));
            i += 1;
        }
        assert(self.names().subrange(0, i as int) =~= self.names());
        r
    }

    /// Names of the modules at the given indices.
    pub fn names_at(&self, indices: &Vec<usize>) -> (r: Vec<String>)
        requires
            forall|i: int| 0 <= i < indices@.len() ==> indices@[i] < self.modules@.len(),
        ensures
            strings_view(r@) == indices@.map_values(|i: usize| self.names()[i as int]),
    {
        let mut r: Vec<String> = Vec::new();
        let mut k: usize = 0;
        while k < indices.len()
            invariant
                k <= indices@.len(),
                forall|i: int| 0 <= i < indices@.len() ==> indices@[i] < self.modules@.len(),
                strings_view(r@) == indices@.map_values(|i: usize| self.names()[i as int]).subrange(0, k as int),
            decreases indices@.len() - k,
        {
            let ghost r0 = r@;
            let c = copy_string(&self.modules[indices[k]].metadata.name);
            r.push(c);
            proof { crate::panel::lemma_strings_view_push(r0, c); }
            assert(strings_view(r@) =~= indices@.map_values(|i: usize| self.names()[i as int]).subrange(0, k + 1));
            k += 1;
        }
        assert(indices@.map_values(|i: usize| self.names()[i as int]).subrange(0, k as int)
            =~= indices@.map_values(|i: usize| self.names()[i as int]));
        r
    }



    /// Tells whether a list of component entries repeats a name or names a
    /// component that a registered module owns.
    fn components_clash(&self, components: &Vec<(String, ComponentDefinition)>) -> (r: bool)
        ensures
            r == (!names_distinct(entry_names(components@))
                || exists|i: int, k: int| 0 <= k < components@.len() && #[trigger] self.owns(i, #[trigger] entry_names(components@)[k])),
    {
        let mut k: usize = 0;
        while k < components.len()
            invariant
                k <= components@.len(),
                forall|a: int, b: int| 0 <= a < b < k ==> #[trigger] entry_names(components@)[a] != #[trigger] entry_names(components@)[b],
                forall|i: int, a: int| 0 <= a < k ==> !#[trigger] self.owns(i, #[trigger] entry_names(components@)[a]),
            decreases components@.len() - k,
        {
            let owner = self.owner_of(components[k].0.as_str());
            if owner.is_some() {
                assert(self.owns(owner.unwrap() as int, entry_names(components@)[k as int]));
                return true;
            }
            let mut j: usize = 0;
            while j < k
                invariant
                    j <= k < components@.len(),
                    forall|a: int| 0 <= a < j ==> entry_names(components@)[a] != entry_names(components@)[k as int],
                decreases k - j,
            {
                if components[j].0 == components[k].0 {
                    assert(entry_names(components@)[j as int] == entry_names(components@)[k as int]);
                    return true;
                }
                j += 1;
            }
            assert forall|i: int| !#[trigger] self.owns(i, entry_names(components@)[k as int]) by {
                if 0 <= i < self.modules@.len() {
                    assert(!self.owns(i, components@[k as int].0@));
                }
            }
            k += 1;
        }
        false
    }

    /// Registers a module with the components it owns. Registering the same
    /// module again with the same metadata and components changes nothing
    /// and succeeds. Fails, changing nothing, where a module of that name
    /// was registered otherwise, where one of the component names is owned
    /// by a registered module, or where a name is listed twice.
    pub fn add_module(&mut self, module: M, metadata: PluginMetadata, components: Vec<(String, ComponentDefinition)>) -> (r: Result<(), RegistryError>)
        requires
            old(self).wf(),
        ensures
            final(self).wf(),
            ({
                let same = exists|i: int| 0 <= i < old(self).modules@.len()
                    && #[trigger] old(self).modules@[i].metadata@ == metadata@
                    && old(self).modules@[i].owned() == entry_names(components@);
                let clash = old(self).names().contains(metadata.name@)
                    || !names_distinct(entry_names(components@))
                    || exists|i: int, k: int| 0 <= k < components@.len() && #[trigger] old(self).owns(i, #[trigger] entry_names(components@)[k]);
                if same {
                    r is Ok && final(self).modules@ == old(self).modules@
                } else if clash {
                    r is Err && final(self).modules@ == old(self).modules@
                } else {
                    r is Ok && final(self).modules@ == old(self).modules@.push(ModuleEntry { module, metadata, components })
                }
            }),
    {
        let ghost same = exists|i: int| 0 <= i < old(self).modules@.len()
            && #[trigger] old(self).modules@[i].metadata@ == metadata@
            && old(self).modules@[i].owned() == entry_names(components@);
        match self.find_module(metadata.name.as_str()) {
            Some(i) => {
                let ok = metadata_equal(&self.modules[i].metadata, &metadata)
                    && entry_names_equal(&self.modules[i].components, &components);
                proof {
                    assert(self.modules@[i as int].owned() =~= entry_names(self.modules@[i as int].components@));
                    if same {
                        let j = choose|j: int| 0 <= j < old(self).modules@.len()
                            && #[trigger] old(self).modules@[j].metadata@ == metadata@
                            && old(self).modules@[j].owned() == entry_names(components@);
                        if j != i as int {
                            assert(self.names()[j] == self.names()[i as int]);
                        }
                        assert(self.modules@[j].owned() =~= entry_names(self.modules@[j].components@));
                    }
                    assert(self.names().contains(metadata.name@)) by {
                        assert(self.names()[i as int] == metadata.name@);
                    }
                }
                if ok { Ok(()) } else { Err(RegistryError::ConflictingOwnership) }
            },
            None => {
                proof {
                    if same {
                        let j = choose|j: int| 0 <= j < old(self).modules@.len()
                            && #[trigger] old(self).modules@[j].metadata@ == metadata@
                            && old(self).modules@[j].owned() == entry_names(components@);
                        assert(self.names()[j] == metadata.name@);
                    }
                }
                if self.components_clash(&components) {
                    return Err(RegistryError::ConflictingOwnership);
                }
                let ghost old_modules = self.modules@;
                let entry = ModuleEntry { module, metadata, components };
                self.modules.push(entry);
                proof {
                    assert(entry.owned() =~= entry_names(entry.components@));
                    assert forall|i: int, j: int| 0 <= i < j < self.modules@.len()
                        implies #[trigger] self.modules@[i].metadata.name@ != #[trigger] self.modules@[j].metadata.name@ by {
                        if j == old_modules.len() {
                            assert(old(self).names()[i] == old_modules[i].metadata.name@);
                        }
                    }
                    assert forall|i: int, j: int, a: int, b: int|
                        0 <= i < self.modules@.len() && 0 <= j < self.modules@.len()
                        && 0 <= a < self.modules@[i].owned().len() && 0 <= b < self.modules@[j].owned().len()
                        && (i != j || a != b)
                        implies #[trigger] self.modules@[i].owned()[a] != #[trigger] self.modules@[j].owned()[b] by {
                        let n = old_modules.len() as int;
                        if i == n && j < n {
                            assert(old(self).owns(j, self.modules@[j].owned()[b]));
                            assert(self.modules@[i].owned()[a] == entry_names(entry.components@)[a]);
                        } else if j == n && i < n {
                            assert(old(self).owns(i, self.modules@[i].owned()[a]));
                            assert(self.modules@[j].owned()[b] == entry_names(entry.components@)[b]);
                        } else if i == n && j == n {
                            assert(self.modules@[i].owned()[a] == entry_names(entry.components@)[a]);
                            assert(self.modules@[j].owned()[b] == entry_names(entry.components@)[b]);
                        }
                    }
                }
                Ok(())
            },
        }
    }

    /// Index of the module of that name.
    pub fn find_module(&self, name: &str) -> (r: Option<usize>)
        ensures
            match r {
                Some(i) => i < self.modules@.len() && self.names()[i as int] == name@,
                None => !self.names().contains(name@),
            },
    {
        let mut i: usize = 0;
        while i < self.modules.len()
            invariant
                i <= self.modules@.len(),
                forall|j: int| 0 <= j < i ==> self.names()[j] != name@,
            decreases self.modules@.len() - i,
        {
            if text_eq(&self.modules[i].metadata.name, name) {
                return Some(i);
            }
            i += 1;
        }
        None
    }

    /// Tells whether the module at index `i` owns a component of that name.
    pub fn module_owns(&self, i: usize, name: &str) -> (r: bool)
        requires
            i < self.modules@.len(),
        ensures
            r == self.owns(i as int, name@),
    {
        let comps = &self.modules[i].components;
        let mut k: usize = 0;
        while k < comps.len()
            invariant
                i < self.modules@.len(),
                comps == &self.modules@[i as int].components,
                k <= comps@.len(),
                forall|j: int| 0 <= j < k ==> self.modules@[i as int].owned()[j] != name@,
            decreases comps@.len() - k,
        {
            if text_eq(&comps[k].0, name) {
                assert(self.modules@[i as int].owned()[k as int] == name@);
                return true;
            }
            k += 1;
        }
        false
    }

    /// Index of the module that owns a component of that name.
    pub fn owner_of(&self, name: &str) -> (r: Option<usize>)
        ensures
            match r {
                Some(i) => self.owns(i as int, name@) && i as int == self.owner_index(name@),
                None => forall|i: int| 0 <= i < self.modules@.len() ==> !self.owns(i, name@),
            },
    {
        let mut i: usize = 0;
        while i < self.modules.len()
            invariant
                i <= self.modules@.len(),
                forall|j: int| 0 <= j < i ==> !self.owns(j, name@),
            decreases self.modules@.len() - i,
        {
            if self.module_owns(i, name) {
                proof {
                    let o = self.owner_index(name@);
                    assert(self.owns(i as int, name@) && forall|j: int| 0 <= j < i ==> !#[trigger] self.owns(j, name@));
                    if o < i {
                        assert(!self.owns(o, name@));
                    }
                    if o > i {
                        assert(!self.owns(i as int, name@));
                    }
                }
                return Some(i);
            }
            i += 1;
        }
        None
    }

    /// Tells whether the module at index `i` owns one of the names.
    fn owns_any(&self, i: usize, names: &Vec<String>) -> (r: bool)
        requires
            i < self.modules@.len(),
        ensures
            r == exists|k: int| 0 <= k < names@.len() && #[trigger] self.owns(i as int, names@[k]@),
    {
        let mut k: usize = 0;
        while k < names.len()
            invariant
                i < self.modules@.len(),
                k <= names@.len(),
                forall|j: int| 0 <= j < k ==> !#[trigger] self.owns(i as int, names@[j]@),
            decreases names@.len() - k,
        {
            if self.module_owns(i, names[k].as_str()) {
                return true;
            }
            k += 1;
        }
        false
    }

    /// Modules whose owned component names intersect `names`, in order of
    /// registration; used to dispatch per-button actions.
    pub fn get_modules_for_components(&self, names: &Vec<String>) -> (r: Vec<usize>)
        ensures
            self.routes_to(strings_view(names@), r@),
            increasing(r@),
            forall|i: int| 0 <= i < r@.len() ==> r@[i] < self.modules@.len(),
            forall|i: usize| #[trigger] r@.contains(i) <==>
                (i < self.modules@.len() && exists|k: int| 0 <= k < names@.len() && #[trigger] self.owns(i as int, names@[k]@)),
    {
        let r = self.modules_matching(names, false);
        assert forall|i: usize| #[trigger] r@.contains(i) <==>
            (i < self.modules@.len() && exists|k: int| 0 <= k < strings_view(names@).len() && #[trigger] self.owns(i as int, strings_view(names@)[k])) by {
            if exists|k: int| 0 <= k < strings_view(names@).len() && #[trigger] self.owns(i as int, strings_view(names@)[k]) {
                let k = choose|k: int| 0 <= k < strings_view(names@).len() && #[trigger] self.owns(i as int, strings_view(names@)[k]);
                assert(self.owns(i as int, names@[k]@));
            }
            if exists|k: int| 0 <= k < names@.len() && #[trigger] self.owns(i as int, names@[k]@) {
                let k = choose|k: int| 0 <= k < names@.len() && #[trigger] self.owns(i as int, names@[k]@);
                assert(self.owns(i as int, strings_view(names@)[k]));
            }
        }
        r
    }

    /// The modules of [`Self::get_modules_for_components`] that declare the
    /// rendering feature.
    pub fn get_modules_for_rendering(&self, names: &Vec<String>) -> (r: Vec<usize>)
        ensures
            increasing(r@),
            forall|i: int| 0 <= i < r@.len() ==> r@[i] < self.modules@.len(),
            forall|i: usize| #[trigger] r@.contains(i) <==>
                (i < self.modules@.len() && self.renders(i as int)
                && exists|k: int| 0 <= k < names@.len() && #[trigger] self.owns(i as int, names@[k]@)),
    {
        self.modules_matching(names, true)
    }

    fn modules_matching(&self, names: &Vec<String>, rendering: bool) -> (r: Vec<usize>)
        ensures
            increasing(r@),
            forall|i: int| 0 <= i < r@.len() ==> r@[i] < self.modules@.len(),
            forall|i: usize| #[trigger] r@.contains(i) <==>
                (i < self.modules@.len() && (rendering ==> self.renders(i as int))
                && exists|k: int| 0 <= k < names@.len() && #[trigger] self.owns(i as int, names@[k]@)),
    {
        let mut r: Vec<usize> = Vec::new();
        let mut i: usize = 0;
        while i < self.modules.len()
            invariant
                i <= self.modules@.len(),
                increasing(r@),
                forall|j: int| 0 <= j < r@.len() ==> r@[j] < i,
                forall|m: usize| #[trigger] r@.contains(m) <==>
                    (m < i && (rendering ==> self.renders(m as int))
                    && exists|k: int| 0 <= k < names@.len() && #[trigger] self.owns(m as int, names@[k]@)),
            decreases self.modules@.len() - i,
        {
            let take = self.owns_any(i, names)
                && (!rendering || check_feature_list_for_feature(&self.modules[i].metadata.used_features, "rendering"));
            let ghost r0 = r@;
            if take {
                r.push(i);
                assert(r@ == r0.push(i));
                assert forall|m: usize| #[trigger] r@.contains(m) <==>
                    (m < i + 1 && (rendering ==> self.renders(m as int))
                    && exists|k: int| 0 <= k < names@.len() && #[trigger] self.owns(m as int, names@[k]@)) by {
                    if m == i { assert(r@[r0.len() as int] == m); }
                    if r@.contains(m) && m != i {
                        let x = choose|x: int| 0 <= x < r@.len() && r@[x] == m;
                        assert(r0[x] == m);
                    }
                    if r0.contains(m) {
                        let x = choose|x: int| 0 <= x < r0.len() && r0[x] == m;
                        assert(r@[x] == m);
                    }
                }
            } else {
                assert forall|m: usize| #[trigger] r@.contains(m) <==>
                    (m < i + 1 && (rendering ==> self.renders(m as int))
                    && exists|k: int| 0 <= k < names@.len() && #[trigger] self.owns(m as int, names@[k]@)) by {
                    if r@.contains(m) {
                        let x = choose|x: int| 0 <= x < r@.len() && r@[x] == m;
                        assert(r@[x] < i);
                    }
                }
            }
            i += 1;
        }
        r
    }


    /// The modules that may decorate a button with components `names`: those
    /// that own one of them and declare rendering, minus the modules named
    /// in the button's blacklist and in the device's, in order of
    /// registration.
    pub fn modules_for_decoration(&self, names: &Vec<String>, button_blacklist: &Vec<String>, device_blacklist: &Vec<String>) -> (r: Vec<usize>)
        ensures
            increasing(r@),
            forall|i: int| 0 <= i < r@.len() ==> r@[i] < self.modules@.len(),
            forall|i: usize| #[trigger] r@.contains(i) <==>
                (i < self.modules@.len() && self.renders(i as int)
                && (exists|k: int| 0 <= k < names@.len() && #[trigger] self.owns(i as int, names@[k]@))
                && !strings_view(button_blacklist@).contains(self.names()[i as int])
                && !strings_view(device_blacklist@).contains(self.names()[i as int])),
    {
        let candidates = self.get_modules_for_rendering(names);
        let mut r: Vec<usize> = Vec::new();
        let mut k: usize = 0;
        while k < candidates.len()
            invariant
                k <= candidates@.len(),
                increasing(candidates@),
                forall|i: int| 0 <= i < candidates@.len() ==> candidates@[i] < self.modules@.len(),
                increasing(r@),
                forall|j: int| 0 <= j < r@.len() ==> exists|x: int| 0 <= x < k && candidates@[x] == #[trigger] r@[j],
                forall|i: usize| #[trigger] r@.contains(i) <==>
                    (exists|x: int| 0 <= x < k && candidates@[x] == i)
                    && !strings_view(button_blacklist@).contains(self.names()[i as int])
                    && !strings_view(device_blacklist@).contains(self.names()[i as int]),
            decreases candidates@.len() - k,
        {
            let m = candidates[k];
            let name = &self.modules[m].metadata.name;
            let blocked = contains_text(button_blacklist, name) || contains_text(device_blacklist, name);
            let ghost r0 = r@;
            if !blocked {
                r.push(m);
                assert(r@ == r0.push(m));
                assert forall|a: int, b: int| 0 <= a < b < r@.len() implies #[trigger] r@[a] < #[trigger] r@[b] by {
                    if b == r0.len() {
                        let x = choose|x: int| 0 <= x < k && candidates@[x] == r0[a];
                        assert(candidates@[x] < candidates@[k as int]);
                    }
                }
                assert forall|j: int| 0 <= j < r@.len() implies exists|x: int| 0 <= x < k + 1 && candidates@[x] == #[trigger] r@[j] by {
                    if j == r0.len() {
                        assert(candidates@[k as int] == r@[j]);
                    } else {
                        let x = choose|x: int| 0 <= x < k && candidates@[x] == r0[j];
                        assert(candidates@[x] == r@[j]);
                    }
                }
                assert forall|i: usize| #[trigger] r@.contains(i) <==>
                    (exists|x: int| 0 <= x < k + 1 && candidates@[x] == i)
                    && !strings_view(button_blacklist@).contains(self.names()[i as int])
                    && !strings_view(device_blacklist@).contains(self.names()[i as int]) by {
                    if r@.contains(i) && i != m {
                        let y = choose|y: int| 0 <= y < r@.len() && r@[y] == i;
                        assert(r0[y] == i);
                    }
                    if r0.contains(i) {
                        let y = choose|y: int| 0 <= y < r0.len() && r0[y] == i;
                        assert(r@[y] == i);
                    }
                    if i == m { assert(r@[r0.len() as int] == i); }
                    if exists|x: int| 0 <= x < k + 1 && candidates@[x] == i {
                        let x = choose|x: int| 0 <= x < k + 1 && candidates@[x] == i;
                        if x < k {
                            assert(exists|x: int| 0 <= x < k && candidates@[x] == i);
                        }
                    }
                }
            } else {
                assert forall|j: int| 0 <= j < r@.len() implies exists|x: int| 0 <= x < k + 1 && candidates@[x] == #[trigger] r@[j] by {
                    let x = choose|x: int| 0 <= x < k && candidates@[x] == r@[j];
                }
                assert forall|i: usize| #[trigger] r@.contains(i) <==>
                    (exists|x: int| 0 <= x < k + 1 && candidates@[x] == i)
                    && !strings_view(button_blacklist@).contains(self.names()[i as int])
                    && !strings_view(device_blacklist@).contains(self.names()[i as int]) by {
                    if exists|x: int| 0 <= x < k + 1 && candidates@[x] == i {
                        let x = choose|x: int| 0 <= x < k + 1 && candidates@[x] == i;
                        if x < k {
                            assert(exists|x: int| 0 <= x < k && candidates@[x] == i);
                        } else {
                            assert(i == m);
                        }
                    }
                }
            }
            k += 1;
        }
        assert forall|i: usize| #[trigger] r@.contains(i) <==>
            (i < self.modules@.len() && self.renders(i as int)
            && (exists|k: int| 0 <= k < names@.len() && #[trigger] self.owns(i as int, names@[k]@))
            && !strings_view(button_blacklist@).contains(self.names()[i as int])
            && !strings_view(device_blacklist@).contains(self.names()[i as int])) by {
            if exists|x: int| 0 <= x < candidates@.len() && candidates@[x] == i {
                let x = choose|x: int| 0 <= x < candidates@.len() && candidates@[x] == i;
                assert(candidates@.contains(i));
            }
            if candidates@.contains(i) {
                let x = choose|x: int| 0 <= x < candidates@.len() && candidates@[x] == i;
                assert(exists|x: int| 0 <= x < candidates@.len() && candidates@[x] == i);
            }
        }
        r
    }

    /// The owners of the given component names, each once, in order of
    /// first mention; used for paste.
    #[verifier::rlimit(100)]
    pub fn get_modules_for_declared_components(&self, names: &Vec<String>) -> (r: Vec<usize>)
        requires
            self.wf(),
        ensures
            distinct(r@),
            forall|i: int| 0 <= i < r@.len() ==> r@[i] < self.modules@.len(),
            forall|i: usize| #[trigger] r@.contains(i) <==>
                (i < self.modules@.len() && exists|k: int| 0 <= k < names@.len() && #[trigger] self.owns(i as int, names@[k]@)),
            r@ == self.declared_owners(strings_view(names@)),
    {
        let mut r: Vec<usize> = Vec::new();
        let mut k: usize = 0;
        while k < names.len()
            invariant
                r@ == self.declared_owners(strings_view(names@).subrange(0, k as int)),
                self.wf(),
                k <= names@.len(),
                distinct(r@),
                forall|i: int| 0 <= i < r@.len() ==> r@[i] < self.modules@.len(),
                forall|m: usize| #[trigger] r@.contains(m) <==>
                    (m < self.modules@.len() && exists|x: int| 0 <= x < k && #[trigger] self.owns(m as int, names@[x]@)),
            decreases names@.len() - k,
        {
            let ghost r0 = r@;
            let ghost sv = strings_view(names@);
            proof {
                assert(sv.subrange(0, k + 1).drop_last() =~= sv.subrange(0, k as int));
                assert(sv.subrange(0, k + 1).last() == names@[k as int]@);
            }
            match self.owner_of(names[k].as_str()) {
                Some(m) => {
                    assert(exists|i: int| self.owns(i, names@[k as int]@));
                    if !contains_index(&r, m) {
                        r.push(m);
                        assert(r@ == r0.push(m));
                        assert forall|a: int, b: int| 0 <= a < b < r@.len() implies #[trigger] r@[a] != #[trigger] r@[b] by {
                            if b == r0.len() { assert(r0[a] == r@[a]); }
                        }
                        assert forall|q: usize| #[trigger] r@.contains(q) <==>
                            (q < self.modules@.len() && exists|x: int| 0 <= x < k + 1 && #[trigger] self.owns(q as int, names@[x]@)) by {
                            if r@.contains(q) && q != m {
                                let x = choose|x: int| 0 <= x < r@.len() && r@[x] == q;
                                assert(r0[x] == q);
                            }
                            if r0.contains(q) {
                                let x = choose|x: int| 0 <= x < r0.len() && r0[x] == q;
                                assert(r@[x] == q);
                            }
                            if q == m { assert(r@[r0.len() as int] == q); }
                            if exists|x: int| 0 <= x < k + 1 && #[trigger] self.owns(q as int, names@[x]@) {
                                let x = choose|x: int| 0 <= x < k + 1 && #[trigger] self.owns(q as int, names@[x]@);
                                if x == k && q != m {
                                    self.lemma_single_owner(q as int, m as int, names@[x]@);
                                }
                            }
                        }
                    } else {
                        assert forall|q: usize| #[trigger] r@.contains(q) <==>
                            (q < self.modules@.len() && exists|x: int| 0 <= x < k + 1 && #[trigger] self.owns(q as int, names@[x]@)) by {
                            if exists|x: int| 0 <= x < k + 1 && #[trigger] self.owns(q as int, names@[x]@) {
                                let x = choose|x: int| 0 <= x < k + 1 && #[trigger] self.owns(q as int, names@[x]@);
                                if x == k && q != m {
                                    self.lemma_single_owner(q as int, m as int, names@[x]@);
                                }
                            }
                        }
                    }
                },
                None => {
                    assert(!exists|i: int| self.owns(i, names@[k as int]@));
                    assert forall|q: usize| #[trigger] r@.contains(q) <==>
                        (q < self.modules@.len() && exists|x: int| 0 <= x < k + 1 && #[trigger] self.owns(q as int, names@[x]@)) by {
                        if exists|x: int| 0 <= x < k + 1 && #[trigger] self.owns(q as int, names@[x]@) {
                            let x = choose|x: int| 0 <= x < k + 1 && #[trigger] self.owns(q as int, names@[x]@);
                            assert(x != k);
                        }
                    }
                },
            }
            k += 1;
        }
        assert(strings_view(names@).subrange(0, k as int) =~= strings_view(names@));
        r
    }

    /// The modules a paste asks to translate a reference button: every
    /// module owning one of its component names, each once, and no other.
    pub proof fn lemma_declared_owners(&self, names: Seq<Seq<char>>)
        requires
            self.wf(),
            self.modules@.len() <= usize::MAX,
        ensures
            distinct(self.declared_owners(names)),
            forall|i: usize| #[trigger] self.declared_owners(names).contains(i) <==>
                (i < self.modules@.len() && exists|k: int| 0 <= k < names.len() && #[trigger] self.owns(i as int, names[k])),
        decreases names.len(),
    {
        if names.len() > 0 {
            let pre = names.drop_last();
            let c = names.last();
            self.lemma_declared_owners(pre);
            let prev = self.declared_owners(pre);
            if exists|i: int| self.owns(i, c) {
                let w = choose|i: int| self.owns(i, c);
                assert(self.owns(w, c) && forall|j: int| 0 <= j < w ==> !#[trigger] self.owns(j, c)) by {
                    assert forall|j: int| 0 <= j < w implies !#[trigger] self.owns(j, c) by {
                        if self.owns(j, c) {
                            self.lemma_single_owner(j, w, c);
                        }
                    }
                }
                let o = self.owner_index(c);
                assert(self.owns(o, c));
                self.lemma_single_owner(o, w, c);
                let r = self.declared_owners(names);
                assert forall|i: usize| #[trigger] r.contains(i) <==>
                    (i < self.modules@.len() && exists|k: int| 0 <= k < names.len() && #[trigger] self.owns(i as int, names[k])) by {
                    if exists|k: int| 0 <= k < names.len() && #[trigger] self.owns(i as int, names[k]) {
                        let k = choose|k: int| 0 <= k < names.len() && #[trigger] self.owns(i as int, names[k]);
                        if k == names.len() - 1 {
                            self.lemma_single_owner(i as int, o, c);
                            if !prev.contains(o as usize) {
                                assert(r[prev.len() as int] == i);
                            }
                        } else {
                            assert(pre[k] == names[k]);
                            assert(prev.contains(i));
                            if !prev.contains(o as usize) {
                                let x = choose|x: int| 0 <= x < prev.len() && prev[x] == i;
                                assert(r[x] == i);
                            }
                        }
                    }
                    if r.contains(i) {
                        if prev.contains(i) {
                            let k = choose|k: int| 0 <= k < pre.len() && #[trigger] self.owns(i as int, pre[k]);
                            assert(names[k] == pre[k]);
                        } else {
                            assert(0 <= o < self.modules@.len());
                            assert(!prev.contains(o as usize) ==> r == prev.push(o as usize));
                            let x = choose|x: int| 0 <= x < r.len() && r[x] == i;
                            if x < prev.len() {
                                assert(prev[x] == i);
                            }
                            assert(x == prev.len());
                            assert(i == o as usize);
                            assert(i as int == o);
                            assert(self.owns(i as int, names[names.len() - 1]));
                        }
                    }
                }
                if !prev.contains(o as usize) {
                    assert forall|a: int, b: int| 0 <= a < b < r.len() implies #[trigger] r[a] != #[trigger] r[b] by {
                        if b == prev.len() {
                            assert(prev[a] == r[a]);
                        }
                    }
                }
            } else {
                let r = self.declared_owners(names);
                assert forall|i: usize| #[trigger] r.contains(i) <==>
                    (i < self.modules@.len() && exists|k: int| 0 <= k < names.len() && #[trigger] self.owns(i as int, names[k])) by {
                    if exists|k: int| 0 <= k < names.len() && #[trigger] self.owns(i as int, names[k]) {
                        let k = choose|k: int| 0 <= k < names.len() && #[trigger] self.owns(i as int, names[k]);
                        assert(k != names.len() - 1);
                        assert(pre[k] == names[k]);
                    }
                    if r.contains(i) {
                        let k = choose|k: int| 0 <= k < pre.len() && #[trigger] self.owns(i as int, pre[k]);
                        assert(names[k] == pre[k]);
                    }
                }
            }
        }
    }

    /// A component name has at most one owner.
    pub proof fn lemma_single_owner(&self, i: int, j: int, c: Seq<char>)
        requires
            self.wf(),
            self.owns(i, c),
            self.owns(j, c),
        ensures
            i == j,
    {
        let a = choose|a: int| 0 <= a < self.modules@[i].owned().len() && self.modules@[i].owned()[a] == c;
        let b = choose|b: int| 0 <= b < self.modules@[j].owned().len() && self.modules@[j].owned()[b] == c;
        if i != j {
            assert(self.modules@[i].owned()[a] != self.modules@[j].owned()[b]);
        }
    }
}

/// Tells whether a list of strings holds the given text.
pub fn contains_text(v: &Vec<String>, t: &String) -> (r: bool)
    ensures
        r == strings_view(v@).contains(t@),
{
    let mut i: usize = 0;
    while i < v.len()
        invariant
            i <= v@.len(),
            forall|j: int| 0 <= j < i ==> v@[j]@ != t@,
        decreases v@.len() - i,
    {
        if v[i] == *t {
            assert(strings_view(v@)[i as int] == t@);
            return true;
        }
        i += 1;
    }
    proof {
        if strings_view(v@).contains(t@) {
            let j = choose|j: int| 0 <= j < strings_view(v@).len() && strings_view(v@)[j] == t@;
            assert(v@[j]@ == t@);
        }
    }
    false
}

/// Tells whether an index is in a list of indices.
pub fn contains_index(v: &Vec<usize>, x: usize) -> (r: bool)
    ensures
        r == v@.contains(x),
{
    let mut i: usize = 0;
    while i < v.len()
        invariant
            i <= v@.len(),
            forall|j: int| 0 <= j < i ==> v@[j] != x,
        decreases v@.len() - i,
    {
        if v[i] == x {
            return true;
        }
        i += 1;
    }
    false
}

} // verus!
