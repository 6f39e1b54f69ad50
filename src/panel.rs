//! Buttons and panels: the tree of UI state that a device shows.
//!
//! A button maps component names to the state of each component, kept as
//! JSON text that only the owning module interprets. A panel maps key
//! indices to buttons.
use std::collections::HashMap;
use vstd::prelude::*;

verus! {

broadcast use vstd::std_specs::hash::group_hash_axioms;

/// A component entry as plain text: its name and its serialized state.
pub type ComponentView = (Seq<char>, Seq<char>);

/// The abstract content of a button, in order of insertion.
pub type ButtonView = Seq<ComponentView>;

/// The names of the components of a button, in order.
pub open spec fn names_of(b: ButtonView) -> Seq<Seq<char>> {
    b.map_values(|c: ComponentView| c.0)
}

/// The view of a list of strings.
pub open spec fn strings_view(v: Seq<String>) -> Seq<Seq<char>> {
    v.map_values(|s: String| s@)
}

/// The view of a list of component entries.
pub open spec fn components_view(s: Seq<(String, String)>) -> ButtonView {
    s.map_values(|c: (String, String)| (c.0@, c.1@))
}

/// Viewing a list after a push is viewing it before, then pushing the view.
pub proof fn lemma_components_view_push(s: Seq<(String, String)>, x: (String, String))
    ensures
        components_view(s.push(x)) == components_view(s).push((x.0@, x.1@)),
{
    assert(components_view(s.push(x)) =~= components_view(s).push((x.0@, x.1@)));
}

/// Viewing a list after a push is viewing it before, then pushing the view.
pub proof fn lemma_strings_view_push(s: Seq<String>, x: String)
    ensures
        strings_view(s.push(x)) == strings_view(s).push(x@),
{
    assert(strings_view(s.push(x)) =~= strings_view(s).push(x@));
}

/// A set of components occupying one key slot.
#[derive(Clone, Debug)]
pub struct Button {
    components: Vec<(String, String)>,
}

impl View for Button {
    type V = ButtonView;

    closed spec fn view(&self) -> ButtonView {
        components_view(self.components@)
    }
}

/// Copies a string, keeping its content.
pub fn copy_string(s: &String) -> (r: String)
    ensures
        r@ == s@,
{
    s.clone()
}

/// Tells whether a string holds the given text.
pub fn text_eq(a: &String, b: &str) -> (r: bool)
    ensures
        r == (a@ == b@),
{
    let t = b.to_owned();
    *a == t
}

/// Copies a list of strings, keeping its content.
pub fn copy_strings(v: &Vec<String>) -> (r: Vec<String>)
    ensures
        strings_view(r@) == strings_view(v@),
{
    let mut r: Vec<String> = Vec::new();
    let mut i: usize = 0;
    while i < v.len()
        invariant
            i <= v.len(),
            strings_view(r@) == strings_view(v@).subrange(0, i as int),
        decreases v.len() - i,
    {
        let ghost r0 = r@;
        let c = copy_string(&v[i]);
        r.push(c);
        assert(r@ == r0.push(c));
        proof { lemma_strings_view_push(r0, c); }
        i += 1;
        assert(strings_view(r@) =~= strings_view(v@).subrange(0, i as int));
    }
    assert(strings_view(v@).subrange(0, i as int) =~= strings_view(v@));
    r
}

impl Button {

    /// Creates a button with no components.
    pub fn new() -> (r: Button)
        ensures
            r@ == Seq::<ComponentView>::empty(),
    {
        Button { components: Vec::new() }
    }

    /// Position of a component in the button, if present.
    pub fn position(&self, name: &str) -> (r: Option<usize>)
        ensures
            match r {
                Some(i) => i < self@.len() && self@[i as int].0 == name@
                    && forall|j: int| 0 <= j < i ==> self@[j].0 != name@,
                None => !names_of(self@).contains(name@),
            },
    {
        let mut i: usize = 0;
        while i < self.components.len()
            invariant
                i <= self.components.len(),
                forall|j: int| 0 <= j < i ==> self@[j].0 != name@,
            decreases self.components.len() - i,
        {
            if text_eq(&self.components[i].0, name) {
                return Some(i);
            }
            i += 1;
        }
        proof {
            if names_of(self@).contains(name@) {
                let j = choose|j: int| 0 <= j < names_of(self@).len() && names_of(self@)[j] == name@;
                assert(self@[j].0 == name@);
            }
        }
        None
    }

    /// Tells whether the button has a component of that name.
    pub fn has_component(&self, name: &str) -> (r: bool)
        ensures
            r == names_of(self@).contains(name@),
    {
        match self.position(name) {
            Some(i) => {
                assert(names_of(self@)[i as int] == name@);
                true
            },
            None => false,
        }
    }

    /// The state of the named component, where the button has it.
    pub fn component_state(&self, name: &str) -> (r: Option<String>)
        ensures
            match names_of(self@).index_of_first(name@) {
                Some(i) => r is Some && r.unwrap()@ == self@[i].1,
                None => r is None,
            },
    {
        proof { names_of(self@).index_of_first_ensures(name@); }
        match self.position(name) {
            Some(i) => {
                proof {
                    let f = names_of(self@).index_of_first(name@);
                    assert(names_of(self@)[i as int] == name@);
                    if f.unwrap() < i as int {
                        assert(names_of(self@)[f.unwrap()] == name@);
                        assert(self@[f.unwrap()].0 == name@);
                    }
                }
                Some(copy_string(&self.components[i].1))
            },
            None => {
                proof {
                    let f = names_of(self@).index_of_first(name@);
                    if f is Some {
                        assert(names_of(self@)[f.unwrap()] == name@);
                    }
                }
                None
            },
        }
    }

    /// Names of the components, in order.
    pub fn component_names(&self) -> (r: Vec<String>)
        ensures
            strings_view(r@) == names_of(self@),
    {
        let mut r: Vec<String> = Vec::new();
        let mut i: usize = 0;
        while i < self.components.len()
            invariant
                i <= self.components.len(),
                strings_view(r@) == names_of(self@).subrange(0, i as int),
            decreases self.components.len() - i,
        {
            let ghost r0 = r@;
            let c = copy_string(&self.components[i].0);
            r.push(c);
            assert(r@ == r0.push(c));
            proof { lemma_strings_view_push(r0, c); }
            i += 1;
            assert(strings_view(r@) =~= names_of(self@).subrange(0, i as int));
        }
        assert(names_of(self@).subrange(0, i as int) =~= names_of(self@));
        r
    }

    /// Sets the state of a component: replaces it in place where the name
    /// is present, else appends it.
    pub fn set_component(&mut self, name: String, state: String)
        ensures
            ({
                let b = old(self)@;
                final(self)@ == match names_of(b).index_of_first(name@) {
                    Some(i) => b.update(i, (name@, state@)),
                    None => b.push((name@, state@)),
                }
            }),
    {
        let ghost b = self@;
        let ghost n = name@;
        match self.position(name.as_str()) {
            Some(i) => {
                proof {
                    assert(names_of(b)[i as int] == n);
                    let f = names_of(b).index_of_first(n);
                    names_of(b).index_of_first_ensures(n);
                    assert(f == Some(i as int)) by {
                        names_of(b).index_of_first_ensures(n);
                        if f.unwrap() < i as int {
                            assert(names_of(b)[f.unwrap()] == n);
                            assert(b[f.unwrap()].0 == n);
                        }
                    }
                }
                self.components.set(i, (name, state));
                assert(self@ =~= b.update(i as int, (n, state@)));
            },
            None => {
                proof {
                    names_of(b).index_of_first_ensures(n);
                }
                self.components.push((name, state));
                assert(self@ =~= b.push((n, state@)));
            },
        }
    }

    /// Removes a component, handing back its state where it was present.
    pub fn remove_component(&mut self, name: &str) -> (r: Option<String>)
        ensures
            match names_of(old(self)@).index_of_first(name@) {
                Some(i) => r is Some && r.unwrap()@ == old(self)@[i].1
                    && final(self)@ == old(self)@.remove(i),
                None => r is None && final(self)@ == old(self)@,
            },
    {
        let ghost b = self@;
        proof {
            names_of(b).index_of_first_ensures(name@);
        }
        match self.position(name) {
            Some(i) => {
                proof {
                    let f = names_of(b).index_of_first(name@);
                    assert(names_of(b)[i as int] == name@);
                    assert(f == Some(i as int)) by {
                        if f.unwrap() < i as int {
                            assert(names_of(b)[f.unwrap()] == name@);
                            assert(b[f.unwrap()].0 == name@);
                        }
                    }
                }
                let (_, state) = self.components.remove(i);
                assert(self@ =~= b.remove(i as int));
                Some(state)
            },
            None => None,
        }
    }
}

/// Snapshot of a button, sharing nothing with it.
pub fn button_to_raw(button: &Button) -> (r: Button)
    ensures
        r@ == button@,
{
    let mut r: Vec<(String, String)> = Vec::new();
    let mut i: usize = 0;
    while i < button.components.len()
        invariant
            i <= button.components.len(),
            components_view(r@) == button@.subrange(0, i as int),
        decreases button.components.len() - i,
    {
        let c = &button.components[i];
        let ghost r0 = r@;
        let e = (copy_string(&c.0), copy_string(&c.1));
        r.push(e);
        assert(r@ == r0.push(e));
        proof { lemma_components_view_push(r0, e); }
        i += 1;
        assert(components_view(r@) =~= button@.subrange(0, i as int));
    }
    assert(button@.subrange(0, i as int) =~= button@);
    Button { components: r }
}

/// The abstract content of a panel.
pub struct PanelView {
    pub display_name: Seq<char>,
    pub renderers: Seq<Seq<char>>,
    pub buttons: Map<u8, ButtonView>,
}

/// A screen of buttons: key index to button, with its display name and the
/// names of the custom renderers it permits.
#[derive(Debug)]
pub struct ButtonPanel {
    pub display_name: String,
    pub renderers: Vec<String>,
    pub buttons: HashMap<u8, Button>,
}

impl View for ButtonPanel {
    type V = PanelView;

    open spec fn view(&self) -> PanelView {
        PanelView {
            display_name: self.display_name@,
            renderers: strings_view(self.renderers@),
            buttons: self.buttons@.map_values(|b: Button| b@),
        }
    }
}

/// The view of a stack of panels, bottom first.
pub open spec fn panels_view(s: Seq<ButtonPanel>) -> Seq<PanelView> {
    s.map_values(|p: ButtonPanel| p@)
}

/// Viewing a stack after a push is viewing it before, then pushing the view.
pub proof fn lemma_panels_view_push(s: Seq<ButtonPanel>, x: ButtonPanel)
    ensures
        panels_view(s.push(x)) == panels_view(s).push(x@),
{
    assert(panels_view(s.push(x)) =~= panels_view(s).push(x@));
}

/// Viewing a stack after dropping its top is dropping the top of its view.
pub proof fn lemma_panels_view_drop_last(s: Seq<ButtonPanel>)
    requires
        s.len() > 0,
    ensures
        panels_view(s.drop_last()) == panels_view(s).drop_last(),
        panels_view(s).last() == s.last()@,
{
    assert(panels_view(s.drop_last()) =~= panels_view(s).drop_last());
}

impl ButtonPanel {
    /// Creates a panel with no buttons.
    pub fn new(display_name: String) -> (r: ButtonPanel)
        ensures
            r@.display_name == display_name@,
            r@.renderers == Seq::<Seq<char>>::empty(),
            r@.buttons == Map::<u8, ButtonView>::empty(),
    {
        let r = ButtonPanel { display_name, renderers: Vec::new(), buttons: HashMap::new() };
        assert(r@.buttons =~= Map::<u8, ButtonView>::empty());
        assert(strings_view(r.renderers@) =~= Seq::<Seq<char>>::empty());
        r
    }

    /// The button at a key, as a snapshot.
    pub fn get_button(&self, key: u8) -> (r: Option<Button>)
        ensures
            match r {
                Some(b) => self@.buttons.contains_key(key) && b@ == self@.buttons[key],
                None => !self@.buttons.contains_key(key),
            },
    {
        match self.buttons.get(&key) {
            Some(b) => Some(button_to_raw(b)),
            None => None,
        }
    }

    /// Puts a button at a key, handing back the button it replaced.
    pub fn set_button(&mut self, key: u8, button: Button) -> (r: Option<Button>)
        ensures
            final(self)@ == (PanelView { buttons: old(self)@.buttons.insert(key, button@), ..old(self)@ }),
            match r {
                Some(b) => old(self)@.buttons.contains_key(key) && b@ == old(self)@.buttons[key],
                None => !old(self)@.buttons.contains_key(key),
            },
    {
        let ghost bv = button@;
        let r = self.buttons.insert(key, button);
        assert(self@.buttons =~= old(self)@.buttons.insert(key, bv));
        r
    }

    /// Removes the button at a key, handing it back.
    pub fn remove_button(&mut self, key: u8) -> (r: Option<Button>)
        ensures
            final(self)@ == (PanelView { buttons: old(self)@.buttons.remove(key), ..old(self)@ }),
            match r {
                Some(b) => old(self)@.buttons.contains_key(key) && b@ == old(self)@.buttons[key],
                None => !old(self)@.buttons.contains_key(key),
            },
    {
        let r = self.buttons.remove(&key);
        assert(self@.buttons =~= old(self)@.buttons.remove(key));
        r
    }
}

/// Snapshot of a panel, sharing nothing with it.
pub fn panel_to_raw(panel: &ButtonPanel) -> (r: ButtonPanel)
    ensures
        r@ == panel@,
{
    ButtonPanel {
        display_name: copy_string(&panel.display_name),
        renderers: copy_strings(&panel.renderers),
        buttons: panel.buttons.clone(),
    }
}

} // verus!
